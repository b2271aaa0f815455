use repvar::tools::{get_end_quote, get_start_quote, is_space_char, trim_start, unquote};

#[test]
fn start_quote_cases() {
    assert_eq!(get_start_quote(r#""Hello World""#), Some('"'));
    assert_eq!(get_start_quote(r#" "Hello World" "#), None);
    assert_eq!(get_start_quote(r#" "Hello World""#), None);
    assert_eq!(get_start_quote(r#""Hello World" "#), Some('"'));
    assert_eq!(get_start_quote(r#""Hello World"#), Some('"'));
    assert_eq!(get_start_quote(r#"Hello World""#), None);
    assert_eq!(get_start_quote(r#"'Hello World'"#), Some('\''));
    assert_eq!(get_start_quote(r#" 'Hello World' "#), None);
    assert_eq!(get_start_quote(r#" 'Hello World'"#), None);
    assert_eq!(get_start_quote(r#"'Hello World' "#), Some('\''));
    assert_eq!(get_start_quote(r#"'Hello World"#), Some('\''));
    assert_eq!(get_start_quote(r#"Hello World'"#), None);
    assert_eq!(get_start_quote(r#"Hello World"#), None);
    assert_eq!(get_start_quote(""), None);
}

#[test]
fn end_quote_cases() {
    assert_eq!(get_end_quote(r#""Hello World""#), Some('"'));
    assert_eq!(get_end_quote(r#" "Hello World" "#), None);
    assert_eq!(get_end_quote(r#" "Hello World""#), Some('"'));
    assert_eq!(get_end_quote(r#""Hello World" "#), None);
    assert_eq!(get_end_quote(r#""Hello World"#), None);
    assert_eq!(get_end_quote(r#"Hello World""#), Some('"'));
    assert_eq!(get_end_quote(r#"'Hello World'"#), Some('\''));
    assert_eq!(get_end_quote(r#" 'Hello World' "#), None);
    assert_eq!(get_end_quote(r#" 'Hello World'"#), Some('\''));
    assert_eq!(get_end_quote(r#"'Hello World' "#), None);
    assert_eq!(get_end_quote(r#"'Hello World"#), None);
    assert_eq!(get_end_quote(r#"Hello World'"#), Some('\''));
    assert_eq!(get_end_quote(r#"Hello World"#), None);
    assert_eq!(get_end_quote(""), None);
}

#[test]
fn unquote_cases() {
    assert_eq!(unquote(r#""Hello World""#), r#"Hello World"#);
    assert_eq!(unquote(r#" "Hello World" "#), r#" "Hello World" "#);
    assert_eq!(unquote(r#" "Hello World""#), r#" "Hello World""#);
    assert_eq!(unquote(r#""Hello World" "#), r#""Hello World" "#);
    assert_eq!(unquote(r#""Hello World"#), r#""Hello World"#);
    assert_eq!(unquote(r#"Hello World""#), r#"Hello World""#);
    assert_eq!(unquote(r#"'Hello World'"#), r#"Hello World"#);
    assert_eq!(unquote(r#" 'Hello World' "#), r#" 'Hello World' "#);
    assert_eq!(unquote(r#" 'Hello World'"#), r#" 'Hello World'"#);
    assert_eq!(unquote(r#"'Hello World' "#), r#"'Hello World' "#);
    assert_eq!(unquote(r#"'Hello World"#), r#"'Hello World"#);
    assert_eq!(unquote(r#"Hello World'"#), r#"Hello World'"#);
    assert_eq!(unquote(r#"Hello World"#), r#"Hello World"#);
    assert_eq!(unquote(r#""Hello World'"#), r#""Hello World'"#);
    assert_eq!(unquote(r#"'Hello World""#), r#"'Hello World""#);
}

#[test]
fn unquote_edge_cases() {
    assert_eq!(unquote(""), "");
    assert_eq!(unquote("\""), "\"");
    assert_eq!(unquote("''"), "");
    assert_eq!(unquote("\"ü\""), "ü");
    assert_eq!(unquote("ü"), "ü");
}

#[test]
fn trim_start_takes_leading_white_space_only() {
    assert_eq!("a b ", trim_start(" \t\r\n\x0b\x0ca b "));
    assert_eq!("", trim_start("   "));
    assert_eq!("", trim_start(""));
    assert_eq!("ä ", trim_start("ä "));
    assert!(is_space_char(' '));
    assert!(is_space_char('\t'));
    assert!(!is_space_char('a'));
    assert!(!is_space_char('\u{a0}'));
}
