use repvar::key_value::{parse_vars_line, parse_vars_lines, Pair, PairBuf, ParseError};

#[test]
fn pair_splits_at_first_equals() {
    let pair = Pair::parse("KEY=a=b").unwrap();
    assert_eq!("KEY", pair.key);
    assert_eq!("a=b", pair.value);
}

#[test]
fn pair_value_may_be_empty() {
    let pair = Pair::parse("KEY=").unwrap();
    assert_eq!("KEY", pair.key);
    assert_eq!("", pair.value);
}

#[test]
fn pair_without_equals_is_an_error() {
    let err = Pair::parse("KEY").err().unwrap();
    assert_eq!("KEY", err.input());
    assert_eq!(
        "Failed to parse key-value pair; it has to be of the form 'key=value', but was 'KEY'",
        err.message()
    );
    assert!(Pair::parse("").is_err());
}

#[test]
fn pair_with_empty_key_is_an_error() {
    let err = Pair::parse("=value").err().unwrap();
    assert_eq!("=value", err.input());
    assert!(PairBuf::parse("=").is_err());
}

#[test]
fn pair_buf_owns_the_parts() {
    let pair = PairBuf::parse("KEY=value$1").unwrap();
    assert_eq!("KEY", pair.key);
    assert_eq!("value$1", pair.value);
    let copy = pair.clone();
    assert_eq!(pair.key, copy.key);
    assert_eq!(pair.value, copy.value);
}

#[test]
fn pair_to_pair_buf_and_display() {
    let pair = Pair::parse("ä=ö ü").unwrap();
    let buf = pair.to_pair_buf();
    assert_eq!("ä", buf.key);
    assert_eq!("ö ü", buf.value);
    assert_eq!("'ä'='ö ü'", pair.display());
}

#[test]
fn parse_error_carries_the_input() {
    let err = ParseError::new("nothing");
    assert_eq!("nothing", err.input());
}

#[test]
fn vars_line_blank_and_comments_are_ignored() {
    assert!(parse_vars_line("").unwrap().is_none());
    assert!(parse_vars_line("   \t").unwrap().is_none());
    assert!(parse_vars_line("# a comment").unwrap().is_none());
    assert!(parse_vars_line("   # KEY=value").unwrap().is_none());
    assert!(parse_vars_line("// KEY=value").unwrap().is_none());
    assert!(parse_vars_line("\t//").unwrap().is_none());
}

#[test]
fn vars_line_pair_with_and_without_quotes() {
    let plain = parse_vars_line("KEY=value").unwrap().unwrap();
    assert_eq!(("KEY", "value"), (plain.key.as_str(), plain.value.as_str()));
    let double = parse_vars_line("  KEY=\"a value\"").unwrap().unwrap();
    assert_eq!(("KEY", "a value"), (double.key.as_str(), double.value.as_str()));
    let single = parse_vars_line("KEY='a=b'").unwrap().unwrap();
    assert_eq!(("KEY", "a=b"), (single.key.as_str(), single.value.as_str()));
    let empty = parse_vars_line("KEY=").unwrap().unwrap();
    assert_eq!(("KEY", ""), (empty.key.as_str(), empty.value.as_str()));
    let slash = parse_vars_line("/KEY=v").unwrap().unwrap();
    assert_eq!(("/KEY", "v"), (slash.key.as_str(), slash.value.as_str()));
}

#[test]
fn vars_line_mismatched_quotes_stay() {
    let mixed = parse_vars_line("KEY=\"value'").unwrap().unwrap();
    assert_eq!("\"value'", mixed.value);
    let open = parse_vars_line("KEY='value").unwrap().unwrap();
    assert_eq!("'value", open.value);
    let lone = parse_vars_line("KEY='").unwrap().unwrap();
    assert_eq!("'", lone.value);
}

#[test]
fn vars_line_without_pair_is_an_error() {
    let err = parse_vars_line("  no pair here").err().unwrap();
    assert_eq!("no pair here", err.input());
    let err = parse_vars_line("=value").err().unwrap();
    assert_eq!("=value", err.input());
    let err = parse_vars_line("/ KEY").err().unwrap();
    assert_eq!("/ KEY", err.input());
}

#[test]
fn vars_lines_keep_their_order() {
    let lines = vec![
        "# variables".to_string(),
        "A=1".to_string(),
        "".to_string(),
        "  B='2'".to_string(),
        "// done".to_string(),
        "A=3".to_string(),
    ];
    let pairs = parse_vars_lines(&lines).unwrap();
    let found: Vec<(&str, &str)> =
        pairs.iter().map(|p| (p.key.as_str(), p.value.as_str())).collect();
    assert_eq!(vec![("A", "1"), ("B", "2"), ("A", "3")], found);
    assert!(parse_vars_lines(&Vec::new()).unwrap().is_empty());
}

#[test]
fn vars_lines_stop_at_the_first_bad_line() {
    let lines =
        vec!["A=1".to_string(), "bad".to_string(), "B=2".to_string(), "worse".to_string()];
    let err = parse_vars_lines(&lines).err().unwrap();
    assert_eq!("bad", err.input());
}
