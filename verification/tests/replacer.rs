use repvar::replacer::{extract_from_string, replace_in_string, replacement, Settings};
use repvar::table::VariableTable;
use std::borrow::Cow;

fn settings_of(pairs: &[(&str, &str)], fail_on_missing: bool) -> Settings {
    let mut vars = VariableTable::new();
    for (key, value) in pairs {
        assert!(vars.insert(key.to_string(), value.to_string()));
    }
    Settings::builder().vars(Box::new(vars)).fail_on_missing(fail_on_missing).build()
}

#[test]
fn test_replace_in_string_no_vars() {
    let vars = VariableTable::new();
    let input = "a ${key_a} $${key_a} b ${key_b} c";
    let expected = "a ${key_a} ${key_a} b ${key_b} c";
    let actual =
        replace_in_string(input, &Settings::builder().vars(Box::new(vars)).build()).unwrap();
    assert_eq!(expected, actual);
}

#[test]
fn test_replace_in_string_one_var() {
    let mut vars = VariableTable::new();
    vars.insert("key_a".to_string(), "1".to_string());
    let input = "a ${key_a} $${key_a} b ${key_b} c";
    let expected = "a 1 ${key_a} b ${key_b} c";
    let actual =
        replace_in_string(input, &Settings::builder().vars(Box::new(vars)).build()).unwrap();
    assert_eq!(expected, actual);
}

#[test]
fn test_replace_in_string_two_vars() {
    let mut vars = VariableTable::new();
    vars.insert("key_a".to_string(), "1".to_string());
    vars.insert("key_b".to_string(), "2".to_string());
    let input = "a ${key_a} $${key_a} b ${key_b} c";
    let expected = "a 1 ${key_a} b 2 c";
    let actual =
        replace_in_string(input, &Settings::builder().vars(Box::new(vars)).build()).unwrap();
    assert_eq!(expected, actual);
}

#[test]
fn test_replace_in_string_case_sensitive() {
    let mut vars = VariableTable::new();
    vars.insert("Key_A".to_string(), "1".to_string());
    vars.insert("key_b".to_string(), "2".to_string());
    let input = "a ${key_a} $${key_a} b ${key_b} c";
    let expected = "a ${key_a} ${key_a} b 2 c";
    let actual =
        replace_in_string(input, &Settings::builder().vars(Box::new(vars)).build()).unwrap();
    assert_eq!(expected, actual);
}

#[test]
fn test_replace_in_string_missing_closing_bracket() {
    let mut vars = VariableTable::new();
    vars.insert("key_a".to_string(), "1".to_string());
    let input = "a ${key_a";
    let expected = "a ${key_a";
    let actual =
        replace_in_string(input, &Settings::builder().vars(Box::new(vars)).build()).unwrap();
    assert_eq!(expected, actual);
}

#[test]
fn test_replace_in_string_missing_closing_bracket_and_key() {
    let mut vars = VariableTable::new();
    vars.insert("key_a".to_string(), "1".to_string());
    let input = "a ${";
    let expected = "a ${";
    let actual =
        replace_in_string(input, &Settings::builder().vars(Box::new(vars)).build()).unwrap();
    assert_eq!(expected, actual);
}

#[test]
fn test_replace_in_string_missing_closing_bracket_quoted() {
    let mut vars = VariableTable::new();
    vars.insert("key_a".to_string(), "1".to_string());
    let input = "a $${key_a";
    let expected = "a ${key_a";
    let actual =
        replace_in_string(input, &Settings::builder().vars(Box::new(vars)).build()).unwrap();
    assert_eq!(expected, actual);
}

#[test]
fn test_replace_in_string_missing_closing_bracket_and_key_quoted() {
    let vars = VariableTable::new();
    let input = "a $${";
    let expected = "a ${";
    let actual =
        replace_in_string(input, &Settings::builder().vars(Box::new(vars)).build()).unwrap();
    assert_eq!(expected, actual);
}

#[test]
fn passthrough_without_dollar_is_borrowed() {
    let settings = settings_of(&[("K", "1")], true);
    let input = "plain text {with} braces } and = signs";
    let actual = replace_in_string(input, &settings).unwrap();
    assert!(matches!(actual, Cow::Borrowed(_)));
    assert_eq!(input, actual);
    let empty = replace_in_string("", &settings).unwrap();
    assert!(matches!(empty, Cow::Borrowed(_)));
    assert_eq!("", empty);
}

#[test]
fn basic_substitution() {
    let settings = settings_of(&[("K", "1")], false);
    let actual = replace_in_string("a ${K} b", &settings).unwrap();
    assert_eq!("a 1 b", actual);
    assert!(matches!(actual, Cow::Owned(_)));
}

#[test]
fn escape_collapsing() {
    let settings = settings_of(&[("K", "1")], false);
    let actual = replace_in_string("a $${K} b", &settings).unwrap();
    assert_eq!("a ${K} b", actual);
    assert!(matches!(actual, Cow::Owned(_)));
}

#[test]
fn escape_with_three_dollars_loses_one() {
    let settings = settings_of(&[("K", "1")], false);
    assert_eq!("a $${K} b", replace_in_string("a $$${K} b", &settings).unwrap());
    assert_eq!("$$$${", replace_in_string("$$$$${", &settings).unwrap());
}

#[test]
fn escape_is_followed_by_ordinary_text() {
    let settings = settings_of(&[("b", "2")], false);
    assert_eq!("${a2}", replace_in_string("$${a${b}}", &settings).unwrap());
}

#[test]
fn undefined_non_failing() {
    let settings = settings_of(&[], false);
    let actual = replace_in_string("${MISSING}", &settings).unwrap();
    assert_eq!("${MISSING}", actual);
    assert!(matches!(actual, Cow::Borrowed(_)));
}

#[test]
fn undefined_beside_defined_is_written_back() {
    let settings = settings_of(&[("K", "v")], false);
    assert_eq!("v ${Missing Key} v", replace_in_string("${K} ${Missing Key} ${K}", &settings).unwrap());
}

#[test]
fn undefined_failing() {
    let settings = settings_of(&[], true);
    let err = replace_in_string("${MISSING}", &settings).unwrap_err();
    assert_eq!("MISSING", err.key);
    assert_eq!("Undefined variable 'MISSING'", err.message());
}

#[test]
fn undefined_failing_names_the_first_missing_key() {
    let settings = settings_of(&[("A", "1")], true);
    let err = replace_in_string("${A} ${B} ${C}", &settings).unwrap_err();
    assert_eq!("B", err.key);
}

#[test]
fn failing_does_not_touch_escapes_or_unclosed() {
    let settings = settings_of(&[], true);
    assert_eq!("${X} and ${Y", replace_in_string("$${X} and ${Y", &settings).unwrap());
}

#[test]
fn case_sensitivity() {
    let settings = settings_of(&[("Key_A", "1"), ("key_b", "2")], false);
    assert_eq!("${key_a} 2", replace_in_string("${key_a} ${key_b}", &settings).unwrap());
}

#[test]
fn truncation_at_end() {
    let settings = settings_of(&[("key_a", "1")], false);
    assert_eq!("a ${key_a", replace_in_string("a ${key_a", &settings).unwrap());
}

#[test]
fn truncation_after_a_replacement_keeps_the_rest() {
    let settings = settings_of(&[("key_a", "1")], false);
    assert_eq!("1 ${key_a", replace_in_string("${key_a} ${key_a", &settings).unwrap());
    assert_eq!("1 $", replace_in_string("${key_a} $", &settings).unwrap());
    assert_eq!("1 $$$", replace_in_string("${key_a} $$$", &settings).unwrap());
}

#[test]
fn truncated_and_escaped() {
    let settings = settings_of(&[], false);
    let actual = replace_in_string("a $${", &settings).unwrap();
    assert_eq!("a ${", actual);
    assert!(matches!(actual, Cow::Owned(_)));
}

#[test]
fn lone_dollars_are_literal() {
    let settings = settings_of(&[("K", "1")], false);
    assert_eq!("1 $x $$y $ z", replace_in_string("${K} $x $$y $ z", &settings).unwrap());
    assert_eq!("cost: $5 1", replace_in_string("cost: $5 ${K}", &settings).unwrap());
    assert_eq!("$} 1", replace_in_string("$} ${K}", &settings).unwrap());
}

#[test]
fn key_may_hold_dollar_and_brace() {
    let settings = settings_of(&[("a${b", "x")], false);
    assert_eq!("x}", replace_in_string("${a${b}}", &settings).unwrap());
}

#[test]
fn empty_key_is_never_defined() {
    let settings = settings_of(&[("K", "1")], false);
    assert_eq!("1 ${}", replace_in_string("${K} ${}", &settings).unwrap());
    let failing = settings_of(&[("K", "1")], true);
    assert_eq!("", replace_in_string("${}", &failing).unwrap_err().key);
}

#[test]
fn value_is_not_scanned_again() {
    let settings = settings_of(&[("A", "${B}"), ("B", "2")], false);
    assert_eq!("${B} 2", replace_in_string("${A} ${B}", &settings).unwrap());
}

#[test]
fn value_may_be_empty_or_hold_newlines() {
    let settings = settings_of(&[("E", ""), ("N", "x\ny")], false);
    assert_eq!("[] x\ny", replace_in_string("[${E}] ${N}", &settings).unwrap());
}

#[test]
fn chunks_are_scanned_independently() {
    let settings = settings_of(&[("KEY", "v")], false);
    let first = replace_in_string("a ${KEY", &settings).unwrap();
    let second = replace_in_string("} b", &settings).unwrap();
    assert_eq!("a ${KEY", first);
    assert_eq!("} b", second);
}

#[test]
fn non_ascii_text_passes() {
    let settings = settings_of(&[("k", "ü")], false);
    assert_eq!("größe ü €", replace_in_string("größe ${k} €", &settings).unwrap());
}

#[test]
fn replacement_of_defined_and_undefined_keys() {
    let settings = settings_of(&[("K", "1")], false);
    assert_eq!((true, "1".to_string()), replacement("K", &settings).unwrap());
    assert_eq!((false, "${X}".to_string()), replacement("X", &settings).unwrap());
    let failing = settings_of(&[("K", "1")], true);
    assert_eq!((true, "1".to_string()), replacement("K", &failing).unwrap());
    assert_eq!("X", replacement("X", &failing).unwrap_err().key);
}

#[test]
fn extract_lists_keys_in_order_with_duplicates() {
    let keys = extract_from_string("a ${x} $${y} ${z} ${x} ${open");
    assert_eq!(vec!["x".to_string(), "z".to_string(), "x".to_string()], keys);
    assert!(extract_from_string("no keys $ here").is_empty());
}

#[test]
fn settings_builder_defaults_and_setters() {
    let settings = Settings::builder().vars(Box::new(VariableTable::new())).build();
    assert!(!settings.fail_on_missing());
    assert!(!settings.verbose());
    assert!(settings.vars().is_empty());
    let settings = Settings::builder()
        .verbose(true)
        .vars(Box::new(VariableTable::new()))
        .fail_on_missing(true)
        .build();
    assert!(settings.fail_on_missing());
    assert!(settings.verbose());
}

#[test]
fn round_trip_with_placeholders_put_back() {
    // Each value is the placeholder that names it, so that substituting puts
    // every placeholder back where it stood.
    let settings = settings_of(&[("x", "${x}"), ("y z", "${y z}")], true);
    let input = "a ${x} b ${y z}${x} $ c";
    let actual = replace_in_string(input, &settings).unwrap();
    assert!(matches!(actual, Cow::Owned(_)));
    assert_eq!(input, actual);
}

#[test]
fn failing_succeeds_exactly_if_every_listed_key_is_defined() {
    let input = "${a} $${b} ${c} ${d";
    assert_eq!(vec!["a".to_string(), "c".to_string()], extract_from_string(input));
    let all = settings_of(&[("a", "1"), ("c", "3")], true);
    assert_eq!("1 ${b} 3 ${d", replace_in_string(input, &all).unwrap());
    let some = settings_of(&[("a", "1"), ("b", "2"), ("d", "4")], true);
    assert_eq!("c", replace_in_string(input, &some).unwrap_err().key);
}
