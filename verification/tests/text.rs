use lru_cache::cache::format::{parse_records, write_record, NEWLINE, SEPARATOR};
use lru_cache::Cache;

fn pairs(text: &str) -> Vec<(String, String)> {
    parse_records(text)
}

fn pair(key: &str, value: &str) -> (String, String) {
    (key.to_string(), value.to_string())
}

#[test]
fn format_characters() {
    assert_eq!(SEPARATOR, '=');
    assert_eq!(NEWLINE, '\n');
}

#[test]
fn parse_reads_one_record_per_line() {
    assert_eq!(pairs("A=1\nB=2\n"), vec![pair("A", "1"), pair("B", "2")]);
}

#[test]
fn parse_of_empty_text_is_empty() {
    assert_eq!(pairs(""), Vec::<(String, String)>::new());
    assert_eq!(pairs("\n\n"), Vec::<(String, String)>::new());
}

#[test]
fn parse_takes_last_line_without_newline() {
    assert_eq!(pairs("A=1\nB=2"), vec![pair("A", "1"), pair("B", "2")]);
    assert_eq!(pairs("A=1"), vec![pair("A", "1")]);
}

#[test]
fn parse_skips_lines_without_separator() {
    assert_eq!(pairs("A=1\nnoise\n\nB=2\ntrailing"), vec![pair("A", "1"), pair("B", "2")]);
}

#[test]
fn parse_splits_at_first_separator_only() {
    assert_eq!(pairs("A=x=y=z\n"), vec![pair("A", "x=y=z")]);
    assert_eq!(pairs("A==\n"), vec![pair("A", "=")]);
}

#[test]
fn parse_accepts_empty_key_and_empty_value() {
    assert_eq!(pairs("=v\nk=\n=\n"), vec![pair("", "v"), pair("k", ""), pair("", "")]);
}

#[test]
fn parse_keeps_other_characters() {
    assert_eq!(pairs("clé=väl ue\t\r\n"), vec![pair("clé", "väl ue\t\r")]);
}

#[test]
fn write_record_appends_one_line() {
    let mut out = String::from("x=y\n");
    write_record(&mut out, "A", "valeur_A");
    assert_eq!(out, "x=y\nA=valeur_A\n");
    write_record(&mut out, "", "");
    assert_eq!(out, "x=y\nA=valeur_A\n=\n");
}

#[test]
fn to_text_lists_entries_in_recency_order() {
    let mut cache: Cache<String, String> = Cache::new(3);
    assert_eq!(cache.to_text(), "");
    cache.put("A".to_string(), "1".to_string());
    cache.put("B".to_string(), "2".to_string());
    cache.put("C".to_string(), "3".to_string());
    assert_eq!(cache.get(&"A".to_string()), Some(&"1".to_string()));
    assert_eq!(cache.to_text(), "B=2\nC=3\nA=1\n");
}

#[test]
fn from_text_replays_puts() {
    let mut cache = Cache::from_text(3, "A=1\nB=2\nA=3\n");
    assert_eq!(cache.capacity(), 3);
    assert_eq!(cache.len(), 2);
    assert_eq!(cache.to_text(), "B=2\nA=3\n");
    assert_eq!(cache.get(&"A".to_string()), Some(&"3".to_string()));
    assert_eq!(cache.get(&"B".to_string()), Some(&"2".to_string()));
}

#[test]
fn from_text_of_empty_text_is_empty() {
    let cache = Cache::from_text(2, "");
    assert_eq!(cache.len(), 0);
    assert_eq!(cache.capacity(), 2);
}

#[test]
fn save_then_load_reproduces_the_cache() {
    let mut cache: Cache<String, String> = Cache::new(4);
    cache.put("A".to_string(), "valeur_A".to_string());
    cache.put("B".to_string(), "a=b=c".to_string());
    cache.put("C".to_string(), "".to_string());
    assert_eq!(cache.get(&"A".to_string()), Some(&"valeur_A".to_string()));
    let text = cache.to_text();
    assert_eq!(text, "B=a=b=c\nC=\nA=valeur_A\n");
    let mut loaded = Cache::from_text(4, &text);
    assert_eq!(loaded.len(), 3);
    assert_eq!(loaded.to_text(), text);
    loaded.put("D".to_string(), "4".to_string());
    loaded.put("E".to_string(), "5".to_string());
    assert_eq!(loaded.get(&"B".to_string()), None);
    assert_eq!(loaded.get(&"C".to_string()), Some(&"".to_string()));
}

#[test]
fn load_of_longer_text_keeps_last_records() {
    let mut cache = Cache::from_text(2, "A=1\nB=2\nC=3\nD=4\n");
    assert_eq!(cache.len(), 2);
    assert_eq!(cache.to_text(), "C=3\nD=4\n");
    assert_eq!(cache.get(&"A".to_string()), None);
    assert_eq!(cache.get(&"B".to_string()), None);
    assert_eq!(cache.get(&"C".to_string()), Some(&"3".to_string()));
    assert_eq!(cache.get(&"D".to_string()), Some(&"4".to_string()));
}

#[test]
fn load_with_repeated_keys_keeps_latest_of_each() {
    let cache = Cache::from_text(2, "A=1\nB=2\nC=3\nB=4\nA=5\n");
    assert_eq!(cache.to_text(), "B=4\nA=5\n");
}

#[test]
fn load_into_zero_capacity_is_empty() {
    let cache = Cache::from_text(0, "A=1\nB=2\n");
    assert_eq!(cache.len(), 0);
    assert_eq!(cache.to_text(), "");
}

#[test]
fn roundtrip_of_two_entries() {
    let mut cache = Cache::from_text(2, "");
    cache.put("A".to_string(), "valeur_A".to_string());
    cache.put("B".to_string(), "valeur_B".to_string());
    let content = cache.to_text();

    let mut cache2 = Cache::from_text(2, &content);
    assert_eq!(cache2.get(&"A".to_string()), Some(&"valeur_A".to_string()));
    assert_eq!(cache2.get(&"B".to_string()), Some(&"valeur_B".to_string()));

    assert!(content.contains("A=valeur_A"));
    assert!(content.contains("B=valeur_B"));
    assert_eq!(content, "A=valeur_A\nB=valeur_B\n");
}

#[test]
fn scenario_with_capacity_one_over_saves() {
    let mut cache = Cache::from_text(1, "");
    cache.put("A".to_string(), "1".to_string());
    let first = cache.to_text();
    assert_eq!(first, "A=1\n");

    let mut cache2 = Cache::from_text(1, &first);
    cache2.put("B".to_string(), "2".to_string());
    let second = cache2.to_text();
    assert_eq!(second, "B=2\n");

    let mut cache3 = Cache::from_text(1, &second);
    assert_eq!(cache3.get(&"A".to_string()), None);
    assert_eq!(cache3.get(&"B".to_string()), Some(&"2".to_string()));
}

#[test]
fn key_with_separator_is_split_on_load() {
    let mut cache: Cache<String, String> = Cache::new(2);
    cache.put("a=b".to_string(), "c".to_string());
    let text = cache.to_text();
    assert_eq!(text, "a=b=c\n");
    let mut loaded = Cache::from_text(2, &text);
    assert_eq!(loaded.get(&"a=b".to_string()), None);
    assert_eq!(loaded.get(&"a".to_string()), Some(&"b=c".to_string()));
}

#[test]
fn value_with_newline_is_cut_on_load() {
    let mut cache: Cache<String, String> = Cache::new(2);
    cache.put("k".to_string(), "one\ntwo".to_string());
    let text = cache.to_text();
    assert_eq!(text, "k=one\ntwo\n");
    let mut loaded = Cache::from_text(2, &text);
    assert_eq!(loaded.len(), 1);
    assert_eq!(loaded.get(&"k".to_string()), Some(&"one".to_string()));
}
