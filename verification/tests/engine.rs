use kvs::{KvEngine, KvStore};

fn directory_size(store: &KvStore) -> u64 {
    store.files().iter().map(|(_, data)| data.len() as u64).sum()
}

// Should get previously stored value.
#[test]
fn kvs_get_stored_value() {
    let mut store = KvStore::open(Vec::new()).unwrap();

    KvEngine::set(&mut store, "key1".to_owned(), "value1".to_owned()).unwrap();
    KvEngine::set(&mut store, "key2".to_owned(), "value2".to_owned()).unwrap();

    assert_eq!(KvEngine::get(&mut store, "key1".to_owned()).unwrap(), Some("value1".to_owned()));
    assert_eq!(KvEngine::get(&mut store, "key2".to_owned()).unwrap(), Some("value2".to_owned()));

    // Open from the files again and check persistent data.
    let files = store.files();
    drop(store);
    let mut store = KvStore::open(files).unwrap();
    assert_eq!(KvEngine::get(&mut store, "key1".to_owned()).unwrap(), Some("value1".to_owned()));
    assert_eq!(KvEngine::get(&mut store, "key2".to_owned()).unwrap(), Some("value2".to_owned()));
}

// Should overwrite existent value.
#[test]
fn kvs_overwrite_value() {
    let mut store = KvStore::open(Vec::new()).unwrap();

    KvEngine::set(&mut store, "key1".to_owned(), "value1".to_owned()).unwrap();
    assert_eq!(KvEngine::get(&mut store, "key1".to_owned()).unwrap(), Some("value1".to_owned()));
    KvEngine::set(&mut store, "key1".to_owned(), "value2".to_owned()).unwrap();
    assert_eq!(KvEngine::get(&mut store, "key1".to_owned()).unwrap(), Some("value2".to_owned()));

    // Open from the files again and check persistent data.
    let files = store.files();
    drop(store);
    let mut store = KvStore::open(files).unwrap();
    assert_eq!(KvEngine::get(&mut store, "key1".to_owned()).unwrap(), Some("value2".to_owned()));
    KvEngine::set(&mut store, "key1".to_owned(), "value3".to_owned()).unwrap();
    assert_eq!(KvEngine::get(&mut store, "key1".to_owned()).unwrap(), Some("value3".to_owned()));
}

// Should get `None` when getting a non-existent key.
#[test]
fn kvs_get_non_existent_value() {
    let mut store = KvStore::open(Vec::new()).unwrap();

    KvEngine::set(&mut store, "key1".to_owned(), "value1".to_owned()).unwrap();
    assert_eq!(KvEngine::get(&mut store, "key2".to_owned()).unwrap(), None);

    // Open from the files again and check persistent data.
    let files = store.files();
    drop(store);
    let mut store = KvStore::open(files).unwrap();
    assert_eq!(KvEngine::get(&mut store, "key2".to_owned()).unwrap(), None);
}

#[test]
fn kvs_remove_non_existent_key() {
    let mut store = KvStore::open(Vec::new()).unwrap();
    assert!(KvEngine::remove(&mut store, "key1".to_owned()).is_err());
}

#[test]
fn kvs_remove_key() {
    let mut store = KvStore::open(Vec::new()).unwrap();
    KvEngine::set(&mut store, "key1".to_owned(), "value1".to_owned()).unwrap();
    assert!(KvEngine::remove(&mut store, "key1".to_owned()).is_ok());
    assert_eq!(KvEngine::get(&mut store, "key1".to_owned()).unwrap(), None);
}

// Insert data until total size of the directory decreases.
// Test data correctness after compaction.
#[test]
fn kvs_compaction() {
    let mut store = KvStore::open(Vec::new()).unwrap();

    let mut current_size = directory_size(&store);
    for iter in 0..1000 {
        for key_id in 0..1000 {
            let key = format!("key{}", key_id);
            let value = format!("{}", iter);
            KvEngine::set(&mut store, key, value).unwrap();
        }

        let new_size = directory_size(&store);
        if new_size > current_size {
            current_size = new_size;
            continue;
        }
        // Compaction triggered.

        let files = store.files();
        drop(store);
        // reopen and check content.
        let mut store = KvStore::open(files).unwrap();
        for key_id in 0..1000 {
            let key = format!("key{}", key_id);
            assert_eq!(KvEngine::get(&mut store, key).unwrap(), Some(format!("{}", iter)));
        }
        return;
    }

    panic!("No compaction detected");
}
