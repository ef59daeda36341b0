//! Small input-handling helpers: normalising an optional path argument,
//! trimming a line read from the console, and interpreting a yes/no answer.

use vstd::prelude::*;

verus! {

/// Characters that count as trailing whitespace when a line of console or
/// file input is cleaned up before it is interpreted: the characters with
/// the Unicode White_Space property.
pub open spec fn is_line_whitespace(c: char) -> bool {
    ||| c == '\t'
    ||| c == '\n'
    ||| c == '\u{b}'
    ||| c == '\u{c}'
    ||| c == '\r'
    ||| c == ' '
    ||| c == '\u{85}'
    ||| c == '\u{a0}'
    ||| c == '\u{1680}'
    ||| c == '\u{2000}'
    ||| c == '\u{2001}'
    ||| c == '\u{2002}'
    ||| c == '\u{2003}'
    ||| c == '\u{2004}'
    ||| c == '\u{2005}'
    ||| c == '\u{2006}'
    ||| c == '\u{2007}'
    ||| c == '\u{2008}'
    ||| c == '\u{2009}'
    ||| c == '\u{200a}'
    ||| c == '\u{2028}'
    ||| c == '\u{2029}'
    ||| c == '\u{202f}'
    ||| c == '\u{205f}'
    ||| c == '\u{3000}'
}

/// A character sequence with every trailing whitespace character removed.
pub open spec fn spec_trim_end(s: Seq<char>) -> Seq<char>
    decreases s.len(),
{
    if s.len() > 0 && is_line_whitespace(s.last()) {
        spec_trim_end(s.drop_last())
    } else {
        s
    }
}

/// An upper-case ASCII letter mapped to its lower-case form; every other
/// character is unchanged.
pub open spec fn spec_lower_char(c: char) -> char {
    if 'A' <= c && c <= 'Z' {
        ((c as u8) + 0x20) as char
    } else {
        c
    }
}

/// A character sequence with every upper-case ASCII letter lowered.
pub open spec fn spec_lower(s: Seq<char>) -> Seq<char> {
    s.map_values(|c: char| spec_lower_char(c))
}

/// Whether a raw input line counts as an affirmative answer: after trailing
/// whitespace is trimmed and ASCII letters are lowered, it reads exactly
/// "yes" or "y".  Anything else, the empty line included, is negative.
pub open spec fn spec_is_affirmative(s: Seq<char>) -> bool {
    spec_lower(spec_trim_end(s)) == "yes"@ || spec_lower(spec_trim_end(s)) == "y"@
}

/// The optional path argument as an owned path string; an absent argument
/// becomes the empty path, as an absent path defaults elsewhere.
pub fn path_to_path_buf(path: &Option<String>) -> (r: String)
    ensures
        r@ == match *path {
            Some(p) => p@,
            None => Seq::<char>::empty(),
        },
{
    match path {
        Some(p) => p.clone(),
        None => String::new(),
    }
}

/// Executable test matching [`is_line_whitespace`].
fn is_ws(c: char) -> (r: bool)
    ensures
        r == is_line_whitespace(c),
{
    c == '\t' || c == '\n' || c == '\u{b}' || c == '\u{c}' || c == '\r' || c == ' '
        || c == '\u{85}' || c == '\u{a0}' || c == '\u{1680}' || c == '\u{2000}' || c == '\u{2001}'
        || c == '\u{2002}' || c == '\u{2003}' || c == '\u{2004}' || c == '\u{2005}'
        || c == '\u{2006}' || c == '\u{2007}' || c == '\u{2008}' || c == '\u{2009}'
        || c == '\u{200a}' || c == '\u{2028}' || c == '\u{2029}' || c == '\u{202f}'
        || c == '\u{205f}' || c == '\u{3000}'
}

/// The number of characters of `s` that remain once trailing whitespace is
/// trimmed, so that the trimmed line is exactly `s.take(r)`.
fn trimmed_len(s: &str) -> (r: usize)
    ensures
        r <= s@.len(),
        spec_trim_end(s@) == s@.take(r as int),
        r > 0 ==> !is_line_whitespace(s@[r as int - 1]),
{
    let mut end: usize = s.unicode_len();
    proof {
        assert(s@.take(end as int) =~= s@);
    }
    while end > 0 && is_ws(s.get_char(end - 1))
        invariant
            end <= s@.len(),
            spec_trim_end(s@) == spec_trim_end(s@.take(end as int)),
        decreases end,
    {
        proof {
            assert(s@.take(end as int).drop_last() =~= s@.take(end as int - 1));
        }
        end = end - 1;
    }
    proof {
        if end > 0 {
            assert(!is_line_whitespace(s@.take(end as int).last()));
        }
    }
    end
}

/// Trailing whitespace removed from a line of input, as [`spec_trim_end`]
/// describes.
pub fn trim_end_line(s: &str) -> (r: String)
    ensures
        r@ == spec_trim_end(s@),
{
    let end = trimmed_len(s);
    s.substring_char(0, end).to_owned()
}

/// Whether an interactive yes/no answer is affirmative: exactly "yes" or
/// "y", case-insensitively, once trailing whitespace is ignored.
pub fn is_affirmative(line: &str) -> (r: bool)
    ensures
        r == spec_is_affirmative(line@),
{
    proof {
        reveal_strlit("yes");
        reveal_strlit("y");
    }
    let end = trimmed_len(line);
    let ghost t = spec_trim_end(line@);
    if end == 1 {
        let c = lower_char_exec(line.get_char(0));
        proof {
            assert(spec_lower(t) =~= seq![spec_lower_char(line@[0])]);
            if spec_lower_char(line@[0]) == 'y' {
                assert(spec_lower(t) =~= "y"@);
            } else {
                assert(spec_lower(t)[0] != "y"@[0]);
            }
            assert(spec_lower(t).len() != "yes"@.len());
        }
        c == 'y'
    } else if end == 3 {
        let c0 = lower_char_exec(line.get_char(0));
        let c1 = lower_char_exec(line.get_char(1));
        let c2 = lower_char_exec(line.get_char(2));
        proof {
            assert(spec_lower(t) =~= seq![
                spec_lower_char(line@[0]),
                spec_lower_char(line@[1]),
                spec_lower_char(line@[2]),
            ]);
            if spec_lower_char(line@[0]) == 'y' && spec_lower_char(line@[1]) == 'e'
                && spec_lower_char(line@[2]) == 's' {
                assert(spec_lower(t) =~= "yes"@);
            } else {
                assert(spec_lower(t)[0] == spec_lower_char(line@[0]));
                assert(spec_lower(t)[1] == spec_lower_char(line@[1]));
                assert(spec_lower(t)[2] == spec_lower_char(line@[2]));
                assert("yes"@[0] == 'y' && "yes"@[1] == 'e' && "yes"@[2] == 's');
                assert(spec_lower(t) != "yes"@);
            }
            assert(spec_lower(t).len() != "y"@.len());
        }
        c0 == 'y' && c1 == 'e' && c2 == 's'
    } else {
        proof {
            assert(spec_lower(t).len() == t.len());
            assert(spec_lower(t) != "yes"@ && spec_lower(t) != "y"@);
        }
        false
    }
}

/// Executable form of [`spec_lower_char`].
fn lower_char_exec(c: char) -> (r: char)
    ensures
        r == spec_lower_char(c),
{
    if 'A' <= c && c <= 'Z' {
        ((c as u8) + 0x20) as char
    } else {
        c
    }
}

} // verus!
