use ctclib::{Dict, DictError};

fn lines(entries: &[&str]) -> Vec<String> {
    entries.iter().map(|s| s.to_string()).collect()
}

#[test]
fn parse_numbers_lines_and_trims_whitespace() {
    let dict = Dict::parse(&lines(&["hello ", " world", "again"])).unwrap();
    assert_eq!(dict.len(), 3);
    assert!(!dict.is_empty());
    assert_eq!(dict.index("hello").unwrap(), 0);
    assert_eq!(dict.index("world").unwrap(), 1);
    assert_eq!(dict.entry(2).unwrap().as_str(), "again");
}

#[test]
fn parse_rejects_duplicate_entries() {
    let r = Dict::parse(&lines(&["a", "b", "a "]));
    match r {
        Err(DictError::DuplicateEntry(e)) => assert_eq!(e, "a"),
        other => panic!("expected a duplicate-entry failure, got {:?}", other),
    }
}

#[test]
fn lookups_fail_on_missing_keys() {
    let dict = Dict::parse(&lines(&["x", "y"])).unwrap();
    assert!(matches!(dict.index("z"), Err(DictError::MissingEntry(_))));
    assert!(matches!(dict.entry(7), Err(DictError::MissingIndex(7))));
}

#[test]
fn add_entry_skips_taken_indices() {
    let mut dict = Dict::new();
    dict.add_entry_at("sparse".to_string(), 1).unwrap();
    // length is 1, index 1 is taken, so the next free index is 2
    let idx = dict.add_entry("dense".to_string()).unwrap();
    assert_eq!(idx, 2);
    assert_eq!(dict.entry(2).unwrap().as_str(), "dense");
    assert_eq!(dict.index("sparse").unwrap(), 1);
}

#[test]
fn add_entry_rejects_duplicates_and_keeps_the_dict() {
    let mut dict = Dict::new();
    dict.add_entry("one".to_string()).unwrap();
    let r = dict.add_entry("one".to_string());
    assert!(matches!(r, Err(DictError::DuplicateEntry(_))));
    assert_eq!(dict.len(), 1);
}

#[test]
fn iter_lists_pairs_in_insertion_order() {
    let dict = Dict::parse(&lines(&["a", "b"])).unwrap();
    let pairs = dict.iter();
    assert_eq!(pairs.len(), 2);
    assert_eq!(pairs[0].0, "a");
    assert_eq!(pairs[0].1, 0);
    assert_eq!(pairs[1].0, "b");
    assert_eq!(pairs[1].1, 1);
}

#[test]
fn empty_dict_is_empty() {
    let dict = Dict::new();
    assert!(dict.is_empty());
    assert_eq!(dict.len(), 0);
}
