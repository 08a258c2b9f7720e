use kvs::index::Index;
use kvs::record::{encode_entry, LogEntry};
use kvs::recovery::load_fragment;
use kvs::{EntryPosition, StoreError};

fn put(key: &str, value: &str) -> Vec<u8> {
    encode_entry(&LogEntry::Put { key: key.to_owned(), value: value.to_owned() }).unwrap()
}

fn rm(key: &str) -> Vec<u8> {
    encode_entry(&LogEntry::Rm { key: key.to_owned() }).unwrap()
}

fn at(fragment: u64, pos: u64, size: usize) -> EntryPosition {
    EntryPosition { fragment, pos, size }
}

#[test]
fn each_put_points_its_key_at_the_record() {
    let log = [put("key1", "value1"), put("key2", "v")].concat();
    let mut index = Index::new();
    assert!(matches!(load_fragment(5, &log, &mut index), Ok(0)));
    assert_eq!(index.len(), 2);
    assert_eq!(index.get(&"key1".to_owned()), Some(at(5, 0, 39)));
    assert_eq!(index.get(&"key2".to_owned()), Some(at(5, 39, 34)));
}

#[test]
fn a_later_put_makes_the_earlier_record_stale() {
    let log = [put("key1", "value1"), put("key1", "v")].concat();
    let mut index = Index::new();
    assert!(matches!(load_fragment(0, &log, &mut index), Ok(39)));
    assert_eq!(index.len(), 1);
    assert_eq!(index.get(&"key1".to_owned()), Some(at(0, 39, 34)));
}

#[test]
fn an_rm_makes_the_record_and_itself_stale() {
    let log = [put("key1", "value1"), put("key2", "v"), rm("key1")].concat();
    let mut index = Index::new();
    assert!(matches!(load_fragment(0, &log, &mut index), Ok(60)));
    assert_eq!(index.len(), 1);
    assert_eq!(index.get(&"key1".to_owned()), None);
    assert_eq!(index.get(&"key2".to_owned()), Some(at(0, 39, 34)));
}

#[test]
fn an_rm_of_a_key_without_a_record_is_stale_itself() {
    let log = rm("key1");
    let mut index = Index::new();
    assert!(matches!(load_fragment(0, &log, &mut index), Ok(21)));
    assert_eq!(index.len(), 0);
}

#[test]
fn a_later_fragment_overrides_an_earlier_one() {
    let mut index = Index::new();
    assert!(matches!(load_fragment(1, &put("key1", "value1"), &mut index), Ok(0)));
    assert!(matches!(load_fragment(2, &put("key1", "value2"), &mut index), Ok(39)));
    assert_eq!(index.get(&"key1".to_owned()), Some(at(2, 0, 39)));
}

#[test]
fn a_broken_log_is_a_serde_error_and_leaves_the_index_alone() {
    let log = [put("key2", "value2"), b"{\"Set\":".to_vec()].concat();
    let mut index = Index::new();
    index.insert("key1".to_owned(), at(0, 0, 39));
    assert!(matches!(load_fragment(1, &log, &mut index), Err(StoreError::Serde(_))));
    assert_eq!(index.len(), 1);
    assert_eq!(index.get(&"key1".to_owned()), Some(at(0, 0, 39)));
    assert_eq!(index.get(&"key2".to_owned()), None);
}
