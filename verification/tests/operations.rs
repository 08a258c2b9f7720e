use kvs::{EntryPosition, KvStore, StoreError, COMPACTION_THRESHOLD};

const PUT_KEY1_VALUE1: &[u8] = br#"{"Set":{"key":"key1","value":"value1"}}"#;
const PUT_KEY1_VALUE2: &[u8] = br#"{"Set":{"key":"key1","value":"value2"}}"#;
const PUT_KEY2_VALUE2: &[u8] = br#"{"Set":{"key":"key2","value":"value2"}}"#;
const RM_KEY1: &[u8] = br#"{"Rm":{"key":"key1"}}"#;

fn file(name: &str, data: &[u8]) -> (String, Vec<u8>) {
    (name.to_owned(), data.to_vec())
}

fn text(s: &str) -> String {
    s.to_owned()
}

fn directory_size(store: &KvStore) -> usize {
    store.files().iter().map(|(_, data)| data.len()).sum()
}

fn live_size(store: &KvStore, keys: &[&str]) -> usize {
    keys.iter().filter_map(|key| store.position(&text(key))).map(|position| position.size).sum()
}

#[test]
fn the_default_threshold_is_a_million_bytes() {
    assert_eq!(COMPACTION_THRESHOLD, 1_000_000);
    let store = KvStore::open(Vec::new()).unwrap();
    assert_eq!(store.threshold(), 1_000_000);
}

#[test]
fn an_empty_directory_gives_a_store_with_an_empty_fragment_0() {
    let store = KvStore::open(Vec::new()).unwrap();
    assert_eq!(store.files(), vec![file("0.kv", b"")]);
    assert_eq!(store.active_fragment(), 0);
    assert_eq!(store.unreclaimed_space(), 0);
    assert_eq!(store.len(), 0);
}

#[test]
fn set_appends_one_record_to_the_active_fragment() {
    let mut store = KvStore::open(Vec::new()).unwrap();
    store.set(text("key1"), text("value1")).unwrap();
    assert_eq!(store.files(), vec![file("0.kv", PUT_KEY1_VALUE1)]);
    assert_eq!(store.position(&text("key1")), Some(EntryPosition { fragment: 0, pos: 0, size: 39 }));
    assert_eq!(store.unreclaimed_space(), 0);

    store.set(text("key2"), text("value2")).unwrap();
    assert_eq!(store.files(), vec![file("0.kv", &[PUT_KEY1_VALUE1, PUT_KEY2_VALUE2].concat())]);
    assert_eq!(store.position(&text("key2")), Some(EntryPosition { fragment: 0, pos: 39, size: 39 }));
    assert_eq!(store.len(), 2);
}

#[test]
fn an_overwritten_record_is_counted_as_unreclaimed() {
    let mut store = KvStore::open(Vec::new()).unwrap();
    store.set(text("key1"), text("value1")).unwrap();
    store.set(text("key1"), text("value2")).unwrap();
    assert_eq!(store.unreclaimed_space(), 39);
    assert_eq!(store.position(&text("key1")), Some(EntryPosition { fragment: 0, pos: 39, size: 39 }));
    assert_eq!(store.files(), vec![file("0.kv", &[PUT_KEY1_VALUE1, PUT_KEY1_VALUE2].concat())]);
    assert_eq!(store.len(), 1);
}

#[test]
fn remove_appends_an_rm_record_and_counts_both_records_as_unreclaimed() {
    let mut store = KvStore::open(Vec::new()).unwrap();
    store.set(text("key1"), text("value1")).unwrap();
    store.remove(text("key1")).unwrap();
    assert_eq!(store.files(), vec![file("0.kv", &[PUT_KEY1_VALUE1, RM_KEY1].concat())]);
    assert_eq!(store.unreclaimed_space(), 39 + 21);
    assert_eq!(store.position(&text("key1")), None);
    assert_eq!(store.len(), 0);
    assert!(matches!(store.remove(text("key1")), Err(StoreError::NotFound)));
}

#[test]
fn get_leaves_the_store_as_it_is() {
    let mut store = KvStore::open(Vec::new()).unwrap();
    store.set(text("key1"), text("value1")).unwrap();
    store.set(text("key1"), text("value2")).unwrap();
    let files = store.files();
    assert_eq!(store.get(text("key1")).unwrap(), Some(text("value2")));
    assert_eq!(store.get(text("key2")).unwrap(), None);
    assert_eq!(store.files(), files);
    assert_eq!(store.unreclaimed_space(), 39);
}

#[test]
fn keys_and_values_of_any_text_come_back() {
    let pairs = [
        ("", "value of the empty key"),
        ("empty value", ""),
        ("with space", "line\nbreak\ttab"),
        ("q\"uote", "back\\slash"),
        ("}}", "{\"Rm\":{\"key\":\"with space\"}}"),
        ("clé", "值 😀"),
        ("\u{0}", "\u{1f}\u{7f}"),
    ];
    let mut store = KvStore::open(Vec::new()).unwrap();
    for (key, value) in pairs {
        store.set(text(key), text(value)).unwrap();
        assert_eq!(store.get(text(key)).unwrap(), Some(text(value)));
    }
    let mut store = KvStore::open(store.files()).unwrap();
    for (key, value) in pairs {
        assert_eq!(store.get(text(key)).unwrap(), Some(text(value)));
    }
    assert_eq!(store.len(), pairs.len());
}

#[test]
fn a_removed_key_stays_removed_after_reopening() {
    let mut store = KvStore::open(Vec::new()).unwrap();
    store.set(text("key1"), text("value1")).unwrap();
    store.set(text("key2"), text("value2")).unwrap();
    store.remove(text("key1")).unwrap();
    let mut store = KvStore::open(store.files()).unwrap();
    assert_eq!(store.get(text("key1")).unwrap(), None);
    assert_eq!(store.get(text("key2")).unwrap(), Some(text("value2")));
    assert_eq!(store.unreclaimed_space(), 39 + 21);
}

#[test]
fn reopening_counts_the_unreclaimed_bytes_again() {
    let mut store = KvStore::open(Vec::new()).unwrap();
    store.set(text("key1"), text("value1")).unwrap();
    store.set(text("key1"), text("value2")).unwrap();
    store.set(text("key2"), text("value2")).unwrap();
    store.remove(text("key2")).unwrap();
    let unreclaimed = store.unreclaimed_space();
    assert_eq!(unreclaimed, 39 + 39 + 21);
    let store = KvStore::open(store.files()).unwrap();
    assert_eq!(store.unreclaimed_space(), unreclaimed);
    assert_eq!(store.active_fragment(), 0);
}

#[test]
fn fragments_are_replayed_in_the_order_of_their_numbers() {
    let files = vec![
        file("10.kv", PUT_KEY1_VALUE2),
        file("9.kv", &[PUT_KEY1_VALUE1, PUT_KEY2_VALUE2].concat()),
    ];
    let mut store = KvStore::open(files).unwrap();
    assert_eq!(store.get(text("key1")).unwrap(), Some(text("value2")));
    assert_eq!(store.get(text("key2")).unwrap(), Some(text("value2")));
    assert_eq!(store.active_fragment(), 10);
    assert_eq!(store.position(&text("key1")), Some(EntryPosition { fragment: 10, pos: 0, size: 39 }));
    assert_eq!(store.position(&text("key2")), Some(EntryPosition { fragment: 9, pos: 39, size: 39 }));
    assert_eq!(store.unreclaimed_space(), 39);

    store.set(text("key3"), text("value3")).unwrap();
    assert_eq!(store.position(&text("key3")), Some(EntryPosition { fragment: 10, pos: 39, size: 39 }));
    assert_eq!(store.files().len(), 2);
    assert_eq!(store.files()[0].0, "9.kv");
    assert_eq!(store.files()[1].0, "10.kv");
}

#[test]
fn a_removal_in_a_later_fragment_wins_over_an_earlier_set() {
    let files = vec![file("2.kv", RM_KEY1), file("1.kv", PUT_KEY1_VALUE1)];
    let mut store = KvStore::open(files).unwrap();
    assert_eq!(store.get(text("key1")).unwrap(), None);
    assert_eq!(store.unreclaimed_space(), 39 + 21);
}

#[test]
fn files_that_are_no_fragments_are_passed_over() {
    let files = vec![file("README.md", b"not a log"), file("3.kv", PUT_KEY1_VALUE1), file("3.kv~", b"{")];
    let mut store = KvStore::open(files).unwrap();
    assert_eq!(store.get(text("key1")).unwrap(), Some(text("value1")));
    assert_eq!(store.files(), vec![file("3.kv", PUT_KEY1_VALUE1)]);
}

#[test]
fn a_badly_named_fragment_is_a_fragment_error() {
    let files = vec![file("first.kv", PUT_KEY1_VALUE1)];
    assert!(matches!(KvStore::open(files), Err(StoreError::Fragment(_))));
    let files = vec![file("1.kv", PUT_KEY1_VALUE1), file("1.kv", PUT_KEY1_VALUE1)];
    assert!(matches!(KvStore::open(files), Err(StoreError::Fragment(_))));
    // The name is looked at before the bytes are.
    let files = vec![file("1.kv", b"{"), file("01.kv", PUT_KEY1_VALUE1)];
    assert!(matches!(KvStore::open(files), Err(StoreError::Fragment(_))));
}

#[test]
fn a_fragment_that_is_no_log_is_a_serde_error() {
    let files = vec![file("1.kv", PUT_KEY1_VALUE1), file("2.kv", b"{\"Set\":{\"key\":\"key1\"")];
    assert!(matches!(KvStore::open(files), Err(StoreError::Serde(_))));
    let files = vec![file("1.kv", b"null")];
    assert!(matches!(KvStore::open(files), Err(StoreError::Serde(_))));
}

#[test]
fn compaction_is_not_due_at_the_threshold() {
    let mut store = KvStore::open_with_threshold(Vec::new(), 39).unwrap();
    store.set(text("key1"), text("value1")).unwrap();
    store.set(text("key1"), text("value2")).unwrap();
    assert_eq!(store.unreclaimed_space(), 39);
    assert_eq!(store.active_fragment(), 0);
    assert_eq!(store.files(), vec![file("0.kv", &[PUT_KEY1_VALUE1, PUT_KEY1_VALUE2].concat())]);
}

#[test]
fn compaction_copies_the_live_records_into_the_next_fragment() {
    let mut store = KvStore::open_with_threshold(Vec::new(), 38).unwrap();
    store.set(text("key1"), text("value1")).unwrap();
    store.set(text("key2"), text("value2")).unwrap();
    assert_eq!(store.active_fragment(), 0);
    store.set(text("key1"), text("value2")).unwrap();

    assert_eq!(store.active_fragment(), 1);
    assert_eq!(store.unreclaimed_space(), 0);
    assert_eq!(store.files(), vec![file("1.kv", &[PUT_KEY1_VALUE2, PUT_KEY2_VALUE2].concat())]);
    assert_eq!(store.position(&text("key1")), Some(EntryPosition { fragment: 1, pos: 0, size: 39 }));
    assert_eq!(store.position(&text("key2")), Some(EntryPosition { fragment: 1, pos: 39, size: 39 }));
    assert_eq!(store.get(text("key1")).unwrap(), Some(text("value2")));
    assert_eq!(store.get(text("key2")).unwrap(), Some(text("value2")));
}

#[test]
fn compaction_leaves_removed_keys_out() {
    let mut store = KvStore::open_with_threshold(Vec::new(), 59).unwrap();
    store.set(text("key1"), text("value1")).unwrap();
    store.set(text("key2"), text("value2")).unwrap();
    store.remove(text("key1")).unwrap();

    assert_eq!(store.active_fragment(), 1);
    assert_eq!(store.files(), vec![file("1.kv", PUT_KEY2_VALUE2)]);
    assert_eq!(store.get(text("key1")).unwrap(), None);
    assert_eq!(store.get(text("key2")).unwrap(), Some(text("value2")));
    assert_eq!(store.unreclaimed_space(), 0);
}

#[test]
fn compaction_of_a_store_without_keys_leaves_an_empty_fragment() {
    let mut store = KvStore::open_with_threshold(Vec::new(), 0).unwrap();
    store.set(text("key1"), text("value1")).unwrap();
    assert_eq!(store.active_fragment(), 0);
    store.remove(text("key1")).unwrap();
    assert_eq!(store.files(), vec![file("1.kv", b"")]);
    assert_eq!(store.unreclaimed_space(), 0);
    store.set(text("key1"), text("value2")).unwrap();
    assert_eq!(store.files(), vec![file("1.kv", PUT_KEY1_VALUE2)]);
}

#[test]
fn opening_compacts_a_directory_with_too_many_stale_bytes() {
    let files = vec![
        file("4.kv", &[PUT_KEY1_VALUE1, PUT_KEY2_VALUE2].concat()),
        file("7.kv", PUT_KEY1_VALUE2),
    ];
    let mut store = KvStore::open_with_threshold(files.clone(), 38).unwrap();
    assert_eq!(store.active_fragment(), 8);
    assert_eq!(store.files(), vec![file("8.kv", &[PUT_KEY1_VALUE2, PUT_KEY2_VALUE2].concat())]);
    assert_eq!(store.get(text("key1")).unwrap(), Some(text("value2")));
    assert_eq!(store.get(text("key2")).unwrap(), Some(text("value2")));

    let store = KvStore::open_with_threshold(files.clone(), 39).unwrap();
    assert_eq!(store.active_fragment(), 7);
    assert_eq!(store.files(), files);
}

#[test]
fn the_compact_operation_does_nothing_where_compaction_is_not_due() {
    let mut store = KvStore::open(Vec::new()).unwrap();
    store.set(text("key1"), text("value1")).unwrap();
    store.set(text("key1"), text("value2")).unwrap();
    let files = store.files();
    store.compact().unwrap();
    assert_eq!(store.files(), files);
    assert_eq!(store.unreclaimed_space(), 39);
}

#[test]
fn compaction_keeps_every_value() {
    let mut store = KvStore::open_with_threshold(Vec::new(), 200).unwrap();
    let mut compactions = 0;
    for round in 0..20 {
        for id in 0..10 {
            let active = store.active_fragment();
            store.set(format!("key{}", id), format!("{}", round)).unwrap();
            if store.active_fragment() != active {
                compactions += 1;
                assert_eq!(store.active_fragment(), active + 1);
                assert_eq!(store.unreclaimed_space(), 0);
                assert_eq!(store.files().len(), 1);
            }
            for other in 0..10 {
                let expected = if round == 0 && other > id {
                    None
                } else if other <= id {
                    Some(format!("{}", round))
                } else {
                    Some(format!("{}", round - 1))
                };
                assert_eq!(store.get(format!("key{}", other)).unwrap(), expected);
            }
        }
    }
    assert!(compactions > 0);
}

#[test]
fn the_directory_stays_within_the_live_records_and_the_threshold() {
    let keys = ["a", "b", "c", "d", "e"];
    let mut store = KvStore::open_with_threshold(Vec::new(), 100).unwrap();
    for round in 0..50 {
        for key in keys {
            store.set(text(key), format!("value {}", round)).unwrap();
            assert!(store.unreclaimed_space() <= 100);
            assert_eq!(directory_size(&store), live_size(&store, &keys) + store.unreclaimed_space());
            assert!(directory_size(&store) <= live_size(&store, &keys) + 100);
        }
        if round % 7 == 3 {
            store.remove(text("c")).unwrap();
            assert!(store.unreclaimed_space() <= 100);
            assert_eq!(directory_size(&store), live_size(&store, &keys) + store.unreclaimed_space());
        }
    }
}

#[test]
fn the_counter_does_not_fall_between_compactions() {
    let mut store = KvStore::open(Vec::new()).unwrap();
    let mut last = store.unreclaimed_space();
    for round in 0..30 {
        store.set(format!("key{}", round % 4), format!("{}", round)).unwrap();
        assert!(store.unreclaimed_space() >= last);
        last = store.unreclaimed_space();
        if round % 5 == 4 {
            store.remove(format!("key{}", round % 4)).unwrap();
            assert!(store.unreclaimed_space() > last);
            last = store.unreclaimed_space();
        }
    }
    assert_eq!(store.active_fragment(), 0);
}

#[test]
fn a_store_whose_fragment_numbers_are_used_up_goes_on_without_compaction() {
    let files = vec![file("18446744073709551615.kv", PUT_KEY1_VALUE1)];
    let mut store = KvStore::open_with_threshold(files, 0).unwrap();
    assert_eq!(store.active_fragment(), u64::MAX);
    store.set(text("key1"), text("value2")).unwrap();
    store.remove(text("key1")).unwrap();
    store.set(text("key2"), text("value2")).unwrap();
    assert_eq!(store.active_fragment(), u64::MAX);
    assert_eq!(store.unreclaimed_space(), 39 + 39 + 21);
    assert_eq!(store.get(text("key1")).unwrap(), None);
    assert_eq!(store.get(text("key2")).unwrap(), Some(text("value2")));
    assert_eq!(store.files().len(), 1);
}

fn bring_up(disk: &mut Vec<(String, Vec<u8>)>, written: &mut Option<(u64, usize)>, store: &KvStore) {
    match store.disk_update(*written) {
        kvs::DiskUpdate::Nothing => {}
        kvs::DiskUpdate::Append { fragment, bytes } => {
            let name = kvs::fragment_filename(fragment);
            let target = disk.iter_mut().find(|(n, _)| *n == name).unwrap();
            target.1.extend_from_slice(&bytes);
            *written = Some((fragment, target.1.len()));
        }
        kvs::DiskUpdate::Install { fragment, bytes } => {
            *written = Some((fragment, bytes.len()));
            *disk = vec![(kvs::fragment_filename(fragment), bytes)];
        }
    }
}

#[test]
fn a_new_store_is_installed_as_fragment_0() {
    let store = KvStore::open(Vec::new()).unwrap();
    assert!(matches!(
        store.disk_update(None),
        kvs::DiskUpdate::Install { fragment: 0, bytes } if bytes.is_empty()
    ));
    assert!(matches!(store.disk_update(Some((0, 0))), kvs::DiskUpdate::Nothing));
}

#[test]
fn what_a_set_wrote_is_appended_to_the_file() {
    let mut store = KvStore::open(Vec::new()).unwrap();
    store.set(text("key1"), text("value1")).unwrap();
    assert!(matches!(
        store.disk_update(Some((0, 0))),
        kvs::DiskUpdate::Append { fragment: 0, bytes } if bytes == PUT_KEY1_VALUE1
    ));
    store.set(text("key2"), text("value2")).unwrap();
    assert!(matches!(
        store.disk_update(Some((0, 39))),
        kvs::DiskUpdate::Append { fragment: 0, bytes } if bytes == PUT_KEY2_VALUE2
    ));
    assert!(matches!(store.disk_update(Some((0, 78))), kvs::DiskUpdate::Nothing));
    assert!(matches!(
        store.disk_update(Some((0, 79))),
        kvs::DiskUpdate::Install { fragment: 0, bytes } if bytes.len() == 78
    ));
    assert!(matches!(
        store.disk_update(Some((3, 0))),
        kvs::DiskUpdate::Install { fragment: 0, bytes } if bytes.len() == 78
    ));
}

#[test]
fn files_that_are_updated_after_each_operation_hold_the_store() {
    let mut store = KvStore::open_with_threshold(Vec::new(), 150).unwrap();
    let mut disk: Vec<(String, Vec<u8>)> = Vec::new();
    let mut written = None;
    bring_up(&mut disk, &mut written, &store);
    assert_eq!(disk, store.files());
    for round in 0..40 {
        store.set(format!("key{}", round % 6), format!("value {}", round)).unwrap();
        bring_up(&mut disk, &mut written, &store);
        assert_eq!(disk, store.files());
        if round % 9 == 8 {
            store.remove(format!("key{}", round % 6)).unwrap();
            bring_up(&mut disk, &mut written, &store);
            assert_eq!(disk, store.files());
        }
    }
    assert!(store.active_fragment() > 0);

    let mut reopened = KvStore::open_with_threshold(disk.clone(), 10).unwrap();
    bring_up(&mut disk, &mut written, &reopened);
    assert_eq!(disk, reopened.files());
    for id in 0..6 {
        assert_eq!(reopened.get(format!("key{}", id)).unwrap(), store.get(format!("key{}", id)).unwrap());
    }
}

#[test]
fn the_store_agrees_with_a_map_through_any_run_of_operations() {
    let mut seed: u64 = 99;
    let mut next = move || {
        seed = seed.wrapping_mul(6364136223846793005).wrapping_add(1442695040888963407);
        seed >> 33
    };
    let mut expected = std::collections::HashMap::new();
    let mut store = KvStore::open_with_threshold(Vec::new(), 300).unwrap();
    for _ in 0..3000 {
        let key = format!("key \"{}\"", next() % 20);
        match next() % 10 {
            0..=5 => {
                let value = format!("value\n{}", next() % 1000);
                store.set(key.clone(), value.clone()).unwrap();
                expected.insert(key, value);
            }
            6..=7 => {
                let outcome = store.remove(key.clone());
                match expected.remove(&key) {
                    Some(_) => assert!(outcome.is_ok()),
                    None => assert!(matches!(outcome, Err(StoreError::NotFound))),
                }
            }
            8 => {
                assert_eq!(store.get(key.clone()).unwrap(), expected.get(&key).cloned());
            }
            _ => {
                let threshold = store.threshold();
                store = KvStore::open_with_threshold(store.files(), threshold).unwrap();
            }
        }
        assert_eq!(store.len(), expected.len());
        assert!(store.unreclaimed_space() <= 300);
    }
    for id in 0..20 {
        let key = format!("key \"{}\"", id);
        assert_eq!(store.get(key.clone()).unwrap(), expected.get(&key).cloned());
    }
    assert!(store.active_fragment() > 0);
}
