use repvar::key_value::PairBuf;
use repvar::table::{valid_key, VariableTable};

fn pair(key: &str, value: &str) -> PairBuf {
    PairBuf { key: key.to_string(), value: value.to_string() }
}

#[test]
fn override_ordering() {
    let environment = vec![pair("K", "env"), pair("E", "1")];
    let file = vec![pair("K", "file"), pair("F", "2")];
    let explicit = vec![PairBuf::parse("K=cli").unwrap()];
    let table = VariableTable::from_sources(&environment, &file, &explicit);
    assert_eq!("cli", table.get("K").unwrap());
    assert_eq!("1", table.get("E").unwrap());
    assert_eq!("2", table.get("F").unwrap());
    assert_eq!(3, table.len());
}

#[test]
fn file_overrides_environment() {
    let table =
        VariableTable::from_sources(&vec![pair("K", "env")], &vec![pair("K", "file")], &vec![]);
    assert_eq!("file", table.get("K").unwrap());
}

#[test]
fn last_write_wins() {
    let mut table = VariableTable::new();
    assert!(table.insert("K".to_string(), "1".to_string()));
    assert!(table.insert("K".to_string(), "2".to_string()));
    assert_eq!("2", table.get("K").unwrap());
    assert_eq!(1, table.len());
    assert!(table.contains_key("K"));
    assert!(!table.contains_key("k"));
    assert!(table.get("k").is_none());
}

#[test]
fn invalid_keys_are_refused() {
    let mut table = VariableTable::new();
    assert!(!table.insert("".to_string(), "v".to_string()));
    assert!(!table.insert("a=b".to_string(), "v".to_string()));
    assert!(!table.insert("a\0b".to_string(), "v".to_string()));
    assert!(table.is_empty());
    assert!(valid_key("Key_A"));
    assert!(!valid_key(""));
    assert!(!valid_key("="));
}

#[test]
fn entries_come_in_first_insertion_order() {
    let mut table = VariableTable::new();
    table.extend(&vec![pair("b", "1"), pair("a", "2"), pair("b", "3"), pair("", "x")]);
    let entries = table.entries();
    assert_eq!(2, entries.len());
    assert_eq!(("b", "3"), (entries[0].key.as_str(), entries[0].value.as_str()));
    assert_eq!(("a", "2"), (entries[1].key.as_str(), entries[1].value.as_str()));
}

fn table_of(pairs: &[(&str, &str)]) -> VariableTable {
    let mut table = VariableTable::new();
    for (key, value) in pairs {
        assert!(table.insert(key.to_string(), value.to_string()));
    }
    table
}

fn entries_of(table: &VariableTable) -> Vec<(String, String)> {
    table.entries().into_iter().map(|p| (p.key, p.value)).collect()
}

fn owned(pairs: &[(&str, &str)]) -> Vec<(String, String)> {
    pairs.iter().map(|(k, v)| (k.to_string(), v.to_string())).collect()
}

#[test]
fn append_env_overrides_what_the_table_held() {
    let mut vars = table_of(&[("A", "old"), ("B", "kept")]);
    repvar::tools::append_env(&mut vars, &vec![pair("A", "env"), pair("C", "new")]);
    assert_eq!(owned(&[("A", "env"), ("B", "kept"), ("C", "new")]), entries_of(&vars));
}

#[test]
fn flush_to_env_with_and_without_overwrite() {
    let pairs = vec![pair("A", "1"), pair("B", "2"), pair("B", "3"), pair("a=b", "x")];
    let mut environment = table_of(&[("A", "env")]);
    repvar::tools::flush_to_env(&pairs, false, &mut environment);
    assert_eq!(owned(&[("A", "env"), ("B", "2")]), entries_of(&environment));
    let mut environment = table_of(&[("A", "env")]);
    repvar::tools::flush_to_env(&pairs, true, &mut environment);
    assert_eq!(owned(&[("A", "1"), ("B", "3")]), entries_of(&environment));
}

#[test]
fn flush_map_to_env_with_and_without_overwrite() {
    let vars = table_of(&[("A", "1"), ("B", "2")]);
    let mut environment = table_of(&[("B", "env"), ("C", "env")]);
    repvar::tools::flush_map_to_env(&vars, false, &mut environment);
    assert_eq!(owned(&[("B", "env"), ("C", "env"), ("A", "1")]), entries_of(&environment));
    let mut environment = table_of(&[("B", "env"), ("C", "env")]);
    repvar::tools::flush_map_to_env(&vars, true, &mut environment);
    assert_eq!(owned(&[("B", "2"), ("C", "env"), ("A", "1")]), entries_of(&environment));
}
