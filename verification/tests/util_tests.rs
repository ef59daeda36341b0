use qcli::util::{is_affirmative, path_to_path_buf, trim_end_line};

#[test]
fn affirmative_answers() {
    assert!(is_affirmative("yes"));
    assert!(is_affirmative("y"));
    assert!(is_affirmative("YES"));
    assert!(is_affirmative("Yes"));
    assert!(is_affirmative("Y"));
    assert!(is_affirmative("yes\n"));
    assert!(is_affirmative("y\r\n"));
    assert!(is_affirmative("yEs \t"));
    assert!(is_affirmative("y\u{a0}\n"));
    assert!(is_affirmative("YES\u{2028}"));
    assert!(is_affirmative("y\u{3000}\u{85}"));
}

#[test]
fn negative_answers() {
    assert!(!is_affirmative("no"));
    assert!(!is_affirmative("n"));
    assert!(!is_affirmative(""));
    assert!(!is_affirmative("\n"));
    assert!(!is_affirmative("yess"));
    assert!(!is_affirmative("ye"));
    assert!(!is_affirmative(" y"));
    assert!(!is_affirmative("oui"));
}

#[test]
fn trim_end_removes_only_trailing_whitespace() {
    assert_eq!(trim_end_line("abc \t\r\n"), "abc");
    assert_eq!(trim_end_line("  abc"), "  abc");
    assert_eq!(trim_end_line(""), "");
    assert_eq!(trim_end_line(" \n"), "");
    assert_eq!(trim_end_line("a b"), "a b");
    assert_eq!(trim_end_line("abc\u{a0}\n"), "abc");
    assert_eq!(trim_end_line("abc\u{2009}\u{205f}"), "abc");
    assert_eq!(trim_end_line("\u{a0}abc"), "\u{a0}abc");
}

#[test]
fn missing_path_defaults_to_the_empty_path() {
    assert_eq!(path_to_path_buf(&None), "");
    assert_eq!(path_to_path_buf(&Some("staging.tx".to_owned())), "staging.tx");
}
