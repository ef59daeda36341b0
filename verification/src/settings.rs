//! Node settings: the snapshot fetched from a node's REST endpoint and its
//! rendering as JSON text for display.
//!
//! A snapshot is a read-only list of configuration keys and values, fetched
//! fresh on each query and never cached.  The renderer writes the snapshot
//! as a JSON object, either on one line or pretty-printed, keeping every
//! key and value exactly as fetched: quotes, backslashes and control
//! characters in text are escaped, nothing else is altered.  The network
//! transport that obtains the snapshot lives outside the library.

use vstd::prelude::*;

verus! {

/// One configuration value: a piece of text or a count.
pub enum SettingValue {
    Text(String),
    Count(u64),
}

/// One configuration entry: a key and its value.
pub struct SettingsEntry {
    pub key: String,
    pub value: SettingValue,
}

/// A read-only snapshot of a node's configuration, in the order the node
/// reported it.
pub struct SettingsSnapshot {
    pub entries: Vec<SettingsEntry>,
}

/// How the snapshot is rendered for display: one line, or pretty-printed
/// with one entry per line.
#[derive(Clone, Copy, PartialEq, Eq, Structural, Debug)]
pub enum OutputFormat {
    Json,
    JsonPretty,
}

/// Where the queried node listens.
pub struct RestArgs {
    pub host: String,
}

/// The node-settings command: query the configured node and print its
/// settings in the chosen format.
pub enum Settings {
    /// Get node settings.
    Get { args: RestArgs, output_format: OutputFormat },
}

/// Mathematical value of a [`SettingValue`].
pub ghost enum SettingValueView {
    Text(Seq<char>),
    Count(u64),
}

/// Mathematical value of a [`SettingsEntry`].
#[verifier::ext_equal]
pub ghost struct SettingsEntryView {
    pub key: Seq<char>,
    pub value: SettingValueView,
}

impl View for SettingValue {
    type V = SettingValueView;

    open spec fn view(&self) -> SettingValueView {
        match self {
            SettingValue::Text(s) => SettingValueView::Text(s@),
            SettingValue::Count(n) => SettingValueView::Count(*n),
        }
    }
}

impl View for SettingsEntry {
    type V = SettingsEntryView;

    open spec fn view(&self) -> SettingsEntryView {
        SettingsEntryView { key: self.key@, value: self.value@ }
    }
}

impl View for SettingsSnapshot {
    type V = Seq<SettingsEntryView>;

    open spec fn view(&self) -> Seq<SettingsEntryView> {
        self.entries@.map_values(|e: SettingsEntry| e@)
    }
}

/// The hexadecimal digit character for one digit value.
pub open spec fn spec_hex_digit(d: nat) -> char {
    if d == 0 {
        '0'
    } else if d == 1 {
        '1'
    } else if d == 2 {
        '2'
    } else if d == 3 {
        '3'
    } else if d == 4 {
        '4'
    } else if d == 5 {
        '5'
    } else if d == 6 {
        '6'
    } else if d == 7 {
        '7'
    } else if d == 8 {
        '8'
    } else if d == 9 {
        '9'
    } else if d == 10 {
        'a'
    } else if d == 11 {
        'b'
    } else if d == 12 {
        'c'
    } else if d == 13 {
        'd'
    } else if d == 14 {
        'e'
    } else {
        'f'
    }
}

/// A character as it appears inside a JSON string: quote and backslash are
/// escaped, a control character becomes its short escape or a `\u00..`
/// escape, and everything else passes through unaltered.
pub open spec fn spec_escape_char(c: char) -> Seq<char> {
    if c == '"' {
        seq!['\\', '"']
    } else if c == '\\' {
        seq!['\\', '\\']
    } else if c == '\u{8}' {
        seq!['\\', 'b']
    } else if c == '\t' {
        seq!['\\', 't']
    } else if c == '\n' {
        seq!['\\', 'n']
    } else if c == '\u{c}' {
        seq!['\\', 'f']
    } else if c == '\r' {
        seq!['\\', 'r']
    } else if (c as nat) < 0x20 {
        seq!['\\', 'u', '0', '0', spec_hex_digit((c as nat) / 16), spec_hex_digit((c as nat) % 16)]
    } else {
        seq![c]
    }
}

/// A text as it appears inside a JSON string.
pub open spec fn spec_escape(s: Seq<char>) -> Seq<char>
    decreases s.len(),
{
    if s.len() == 0 {
        Seq::empty()
    } else {
        spec_escape_char(s[0]) + spec_escape(s.drop_first())
    }
}

/// The decimal digit character for one digit value.
pub open spec fn spec_digit_char(d: nat) -> char {
    if d == 0 {
        '0'
    } else if d == 1 {
        '1'
    } else if d == 2 {
        '2'
    } else if d == 3 {
        '3'
    } else if d == 4 {
        '4'
    } else if d == 5 {
        '5'
    } else if d == 6 {
        '6'
    } else if d == 7 {
        '7'
    } else if d == 8 {
        '8'
    } else {
        '9'
    }
}

/// A number in decimal notation, most significant digit first, no sign and
/// no leading zero.
pub open spec fn spec_decimal(n: nat) -> Seq<char>
    decreases n,
{
    if n < 10 {
        seq![spec_digit_char(n)]
    } else {
        spec_decimal(n / 10) + seq![spec_digit_char(n % 10)]
    }
}

/// A configuration value as JSON: quoted, escaped text, or a bare number.
pub open spec fn spec_render_value(v: SettingValueView) -> Seq<char> {
    match v {
        SettingValueView::Text(s) => seq!['"'] + spec_escape(s) + seq!['"'],
        SettingValueView::Count(n) => spec_decimal(n as nat),
    }
}

/// One entry as JSON, `"key":value`.
pub open spec fn spec_render_entry(e: SettingsEntryView) -> Seq<char> {
    seq!['"'] + spec_escape(e.key) + seq!['"', ':'] + spec_render_value(e.value)
}

/// The entries joined by commas, in snapshot order.
pub open spec fn spec_render_entries(s: Seq<SettingsEntryView>) -> Seq<char>
    decreases s.len(),
{
    if s.len() == 0 {
        Seq::empty()
    } else if s.len() == 1 {
        spec_render_entry(s[0])
    } else {
        spec_render_entries(s.drop_last()) + seq![','] + spec_render_entry(s.last())
    }
}

/// The whole snapshot as one-line JSON.
pub open spec fn spec_render_plain(s: Seq<SettingsEntryView>) -> Seq<char> {
    seq!['{'] + spec_render_entries(s) + seq!['}']
}

/// One entry as pretty JSON, indented, `"key": value`.
pub open spec fn spec_render_entry_pretty(e: SettingsEntryView) -> Seq<char> {
    seq![' ', ' ', '"'] + spec_escape(e.key) + seq!['"', ':', ' '] + spec_render_value(e.value)
}

/// The entries joined by comma-and-newline, in snapshot order.
pub open spec fn spec_render_entries_pretty(s: Seq<SettingsEntryView>) -> Seq<char>
    decreases s.len(),
{
    if s.len() == 0 {
        Seq::empty()
    } else if s.len() == 1 {
        spec_render_entry_pretty(s[0])
    } else {
        spec_render_entries_pretty(s.drop_last()) + seq![',', '\n'] + spec_render_entry_pretty(
            s.last(),
        )
    }
}

/// The whole snapshot as pretty JSON, one entry per line.
pub open spec fn spec_render_pretty(s: Seq<SettingsEntryView>) -> Seq<char> {
    if s.len() == 0 {
        seq!['{', '}']
    } else {
        seq!['{', '\n'] + spec_render_entries_pretty(s) + seq!['\n', '}']
    }
}

/// The snapshot rendered in the chosen output format.
pub open spec fn spec_format_settings(s: Seq<SettingsEntryView>, f: OutputFormat) -> Seq<char> {
    match f {
        OutputFormat::Json => spec_render_plain(s),
        OutputFormat::JsonPretty => spec_render_pretty(s),
    }
}

/// Escaping one more character extends the escape of a prefix on the
/// right.
proof fn lemma_escape_step(s: Seq<char>, i: int)
    requires
        0 <= i < s.len(),
    ensures
        spec_escape(s.take(i + 1)) == spec_escape(s.take(i)) + spec_escape_char(s[i]),
    decreases i,
{
    if i == 0 {
        assert(s.take(1) =~= seq![s[0]]);
        assert(seq![s[0]].drop_first() =~= Seq::<char>::empty());
        assert(spec_escape(s.take(0)) =~= Seq::<char>::empty());
        assert(spec_escape(Seq::<char>::empty()) == Seq::<char>::empty());
        assert(spec_escape(s.take(1)) == spec_escape_char(s[0]) + spec_escape(
            Seq::<char>::empty(),
        ));
        assert(spec_escape_char(s[0]) + Seq::<char>::empty() =~= spec_escape(s.take(0))
            + spec_escape_char(s[0]));
    } else {
        let d = s.drop_first();
        lemma_escape_step(d, i - 1);
        assert(s.take(i + 1).drop_first() =~= d.take(i));
        assert(s.take(i).drop_first() =~= d.take(i - 1));
        assert(spec_escape(s.take(i + 1)) == spec_escape_char(s[0]) + spec_escape(d.take(i)));
        assert(spec_escape(s.take(i)) == spec_escape_char(s[0]) + spec_escape(d.take(i - 1)));
        assert(spec_escape_char(s[0]) + (spec_escape(d.take(i - 1)) + spec_escape_char(d[i - 1]))
            =~= (spec_escape_char(s[0]) + spec_escape(d.take(i - 1))) + spec_escape_char(d[i - 1]));
    }
}

/// The character for one hexadecimal digit, lower case.
fn hex_digit_str(d: u32) -> (r: &'static str)
    requires
        d < 16,
    ensures
        r@ == seq![spec_hex_digit(d as nat)],
{
    proof {
        reveal_strlit("0");
        reveal_strlit("1");
        reveal_strlit("2");
        reveal_strlit("3");
        reveal_strlit("4");
        reveal_strlit("5");
        reveal_strlit("6");
        reveal_strlit("7");
        reveal_strlit("8");
        reveal_strlit("9");
        reveal_strlit("a");
        reveal_strlit("b");
        reveal_strlit("c");
        reveal_strlit("d");
        reveal_strlit("e");
        reveal_strlit("f");
    }
    let r = if d == 0 {
        "0"
    } else if d == 1 {
        "1"
    } else if d == 2 {
        "2"
    } else if d == 3 {
        "3"
    } else if d == 4 {
        "4"
    } else if d == 5 {
        "5"
    } else if d == 6 {
        "6"
    } else if d == 7 {
        "7"
    } else if d == 8 {
        "8"
    } else if d == 9 {
        "9"
    } else if d == 10 {
        "a"
    } else if d == 11 {
        "b"
    } else if d == 12 {
        "c"
    } else if d == 13 {
        "d"
    } else if d == 14 {
        "e"
    } else {
        "f"
    };
    proof {
        assert(r@ =~= seq![spec_hex_digit(d as nat)]);
    }
    r
}

/// A text with its quotes, backslashes and control characters escaped, as
/// it goes inside a JSON string.
fn escape_text(s: &str) -> (r: String)
    ensures
        r@ == spec_escape(s@),
{
    let mut out = String::new();
    let n = s.unicode_len();
    let mut i: usize = 0;
    proof {
        assert(spec_escape(s@.take(0)) =~= Seq::<char>::empty());
    }
    while i < n
        invariant
            n == s@.len(),
            i <= n,
            out@ == spec_escape(s@.take(i as int)),
        decreases n - i,
    {
        let c = s.get_char(i);
        if c == '"' {
            out.append("\\\"");
            proof {
                reveal_strlit("\\\"");
                assert(("\\\"")@ =~= spec_escape_char(s@[i as int]));
            }
        } else if c == '\\' {
            out.append("\\\\");
            proof {
                reveal_strlit("\\\\");
                assert(("\\\\")@ =~= spec_escape_char(s@[i as int]));
            }
        } else if c == '\u{8}' {
            out.append("\\b");
            proof {
                reveal_strlit("\\b");
                assert(("\\b")@ =~= spec_escape_char(s@[i as int]));
            }
        } else if c == '\t' {
            out.append("\\t");
            proof {
                reveal_strlit("\\t");
                assert(("\\t")@ =~= spec_escape_char(s@[i as int]));
            }
        } else if c == '\n' {
            out.append("\\n");
            proof {
                reveal_strlit("\\n");
                assert(("\\n")@ =~= spec_escape_char(s@[i as int]));
            }
        } else if c == '\u{c}' {
            out.append("\\f");
            proof {
                reveal_strlit("\\f");
                assert(("\\f")@ =~= spec_escape_char(s@[i as int]));
            }
        } else if c == '\r' {
            out.append("\\r");
            proof {
                reveal_strlit("\\r");
                assert(("\\r")@ =~= spec_escape_char(s@[i as int]));
            }
        } else if (c as u32) < 0x20 {
            let code = c as u32;
            out.append("\\u00");
            out.append(hex_digit_str(code / 16));
            out.append(hex_digit_str(code % 16));
            proof {
                reveal_strlit("\\u00");
                assert(code as nat == c as nat);
                assert(("\\u00")@ + seq![spec_hex_digit((c as nat) / 16)] + seq![
                    spec_hex_digit((c as nat) % 16),
                ] =~= spec_escape_char(s@[i as int]));
            }
        } else {
            let piece = s.substring_char(i, i + 1);
            out.append(piece);
            proof {
                assert(s@.subrange(i as int, i + 1) =~= spec_escape_char(s@[i as int]));
            }
        }
        proof {
            lemma_escape_step(s@, i as int);
        }
        i = i + 1;
    }
    proof {
        assert(s@.take(n as int) =~= s@);
    }
    out
}

/// The character for one decimal digit.
fn digit_str(d: u64) -> (r: &'static str)
    requires
        d < 10,
    ensures
        r@ == seq![spec_digit_char(d as nat)],
{
    proof {
        reveal_strlit("0");
        reveal_strlit("1");
        reveal_strlit("2");
        reveal_strlit("3");
        reveal_strlit("4");
        reveal_strlit("5");
        reveal_strlit("6");
        reveal_strlit("7");
        reveal_strlit("8");
        reveal_strlit("9");
    }
    let r = if d == 0 {
        "0"
    } else if d == 1 {
        "1"
    } else if d == 2 {
        "2"
    } else if d == 3 {
        "3"
    } else if d == 4 {
        "4"
    } else if d == 5 {
        "5"
    } else if d == 6 {
        "6"
    } else if d == 7 {
        "7"
    } else if d == 8 {
        "8"
    } else {
        "9"
    };
    proof {
        assert(r@ =~= seq![spec_digit_char(d as nat)]);
    }
    r
}

/// A number in decimal notation, as [`spec_decimal`] describes.
fn decimal_string(n: u64) -> (r: String)
    ensures
        r@ == spec_decimal(n as nat),
    decreases n,
{
    if n < 10 {
        digit_str(n).to_owned()
    } else {
        assert(n / 10 < n && n / 10 >= 1) by (nonlinear_arith)
            requires
                n >= 10,
        ;
        let mut s = decimal_string(n / 10);
        s.append(digit_str(n % 10));
        proof {
            assert((n / 10) as nat == (n as nat) / 10);
            assert((n % 10) as nat == (n as nat) % 10);
        }
        s
    }
}

/// A configuration value rendered as JSON.
fn render_value(v: &SettingValue) -> (r: String)
    ensures
        r@ == spec_render_value(v@),
{
    match v {
        SettingValue::Text(s) => {
            proof {
                reveal_strlit("\"");
            }
            let mut out = String::new();
            out.append("\"");
            let esc = escape_text(s.as_str());
            out.append(esc.as_str());
            out.append("\"");
            proof {
                assert(("\"")@ =~= seq!['"']);
                assert(out@ =~= spec_render_value(v@));
            }
            out
        },
        SettingValue::Count(n) => decimal_string(*n),
    }
}

/// One entry rendered as JSON, plain or pretty.
fn render_entry(e: &SettingsEntry, pretty: bool) -> (r: String)
    ensures
        !pretty ==> r@ == spec_render_entry(e@),
        pretty ==> r@ == spec_render_entry_pretty(e@),
{
    proof {
        reveal_strlit("  \"");
        reveal_strlit("\"");
        reveal_strlit("\": ");
        reveal_strlit("\":");
    }
    let mut out = String::new();
    if pretty {
        out.append("  \"");
    } else {
        out.append("\"");
    }
    let key = escape_text(e.key.as_str());
    out.append(key.as_str());
    if pretty {
        out.append("\": ");
    } else {
        out.append("\":");
    }
    let val = render_value(&e.value);
    out.append(val.as_str());
    proof {
        assert(("  \"")@ =~= seq![' ', ' ', '"']);
        assert(("\"")@ =~= seq!['"']);
        assert(("\": ")@ =~= seq!['"', ':', ' ']);
        assert(("\":")@ =~= seq!['"', ':']);
        if pretty {
            assert(out@ =~= spec_render_entry_pretty(e@));
        } else {
            assert(out@ =~= spec_render_entry(e@));
        }
    }
    out
}

/// One more entry extends the joined rendering of a prefix on the right.
proof fn lemma_render_entries_step(s: Seq<SettingsEntryView>, i: int)
    requires
        0 <= i < s.len(),
    ensures
        spec_render_entries(s.take(i + 1)) == if i == 0 {
            spec_render_entry(s[0])
        } else {
            spec_render_entries(s.take(i)) + seq![','] + spec_render_entry(s[i])
        },
        spec_render_entries_pretty(s.take(i + 1)) == if i == 0 {
            spec_render_entry_pretty(s[0])
        } else {
            spec_render_entries_pretty(s.take(i)) + seq![',', '\n'] + spec_render_entry_pretty(
                s[i],
            )
        },
{
    if i == 0 {
        assert(s.take(1) =~= seq![s[0]]);
        assert(spec_render_entries(s.take(1)) == spec_render_entry(s.take(1)[0]));
        assert(spec_render_entries_pretty(s.take(1)) == spec_render_entry_pretty(s.take(1)[0]));
    } else {
        assert(s.take(i + 1).drop_last() =~= s.take(i));
        assert(s.take(i + 1).last() == s[i]);
    }
}

/// Render a settings snapshot in the requested output format: a JSON
/// object holding exactly the fetched keys and values, in order, either on
/// one line or pretty-printed with one entry per line.
pub fn format_settings(snapshot: &SettingsSnapshot, format: &OutputFormat) -> (r: String)
    ensures
        r@ == spec_format_settings(snapshot@, *format),
{
    proof {
        reveal_strlit("{");
        reveal_strlit("}");
        reveal_strlit("{}");
        reveal_strlit("{\n");
        reveal_strlit("\n}");
        reveal_strlit(",");
        reveal_strlit(",\n");
    }
    let ghost s = snapshot@;
    let n = snapshot.entries.len();
    let pretty = match format {
        OutputFormat::Json => false,
        OutputFormat::JsonPretty => true,
    };
    if pretty && n == 0 {
        proof {
            assert(("{}")@ =~= spec_render_pretty(s));
        }
        return "{}".to_owned();
    }
    let mut out = String::new();
    if pretty {
        out.append("{\n");
        proof {
            assert(out@ =~= seq!['{', '\n']);
        }
    } else {
        out.append("{");
        proof {
            assert(out@ =~= seq!['{']);
        }
    }
    let ghost head = out@;
    let mut i: usize = 0;
    proof {
        assert(spec_render_entries(s.take(0)) =~= Seq::<char>::empty());
        assert(spec_render_entries_pretty(s.take(0)) =~= Seq::<char>::empty());
        assert(head + Seq::<char>::empty() =~= head);
    }
    while i < n
        invariant
            n == snapshot.entries@.len(),
            s == snapshot@,
            i <= n,
            !pretty ==> out@ == head + spec_render_entries(s.take(i as int)),
            pretty ==> out@ == head + spec_render_entries_pretty(s.take(i as int)),
        decreases n - i,
    {
        if i > 0 {
            if pretty {
                out.append(",\n");
            } else {
                out.append(",");
            }
        }
        let piece = render_entry(&snapshot.entries[i], pretty);
        out.append(piece.as_str());
        proof {
            assert(s[i as int] == snapshot.entries@[i as int]@);
            assert(spec_render_entries(s.take(0)) =~= Seq::<char>::empty());
            assert(spec_render_entries_pretty(s.take(0)) =~= Seq::<char>::empty());
            lemma_render_entries_step(s, i as int);
            reveal_strlit(",");
            reveal_strlit(",\n");
            assert((",")@ =~= seq![',']);
            assert((",\n")@ =~= seq![',', '\n']);
            if i == 0 {
                if pretty {
                    assert(out@ =~= head + spec_render_entries_pretty(s.take(i + 1)));
                } else {
                    assert(out@ =~= head + spec_render_entries(s.take(i + 1)));
                }
            } else {
                if pretty {
                    assert(out@ =~= head + spec_render_entries_pretty(s.take(i + 1)));
                } else {
                    assert(out@ =~= head + spec_render_entries(s.take(i + 1)));
                }
            }
        }
        i = i + 1;
    }
    proof {
        assert(s.take(n as int) =~= s);
    }
    if pretty {
        out.append("\n}");
        proof {
            assert(("\n}")@ =~= seq!['\n', '}']);
            assert(out@ =~= spec_render_pretty(s));
        }
    } else {
        out.append("}");
        proof {
            assert(("}")@ =~= seq!['}']);
            assert(out@ =~= spec_render_plain(s));
        }
    }
    out
}

} // verus!
