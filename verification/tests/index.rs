use kvs::index::Index;
use kvs::EntryPosition;

fn at(fragment: u64, pos: u64, size: usize) -> EntryPosition {
    EntryPosition { fragment, pos, size }
}

#[test]
fn a_new_index_has_no_keys() {
    let index = Index::new();
    assert_eq!(index.len(), 0);
    assert_eq!(index.get(&"key1".to_owned()), None);
}

#[test]
fn insert_returns_the_position_that_was_there() {
    let mut index = Index::new();
    assert_eq!(index.insert("key1".to_owned(), at(0, 0, 39)), None);
    assert_eq!(index.insert("key2".to_owned(), at(0, 39, 39)), None);
    assert_eq!(index.insert("key1".to_owned(), at(0, 78, 40)), Some(at(0, 0, 39)));
    assert_eq!(index.len(), 2);
    assert_eq!(index.get(&"key1".to_owned()), Some(at(0, 78, 40)));
    assert_eq!(index.get(&"key2".to_owned()), Some(at(0, 39, 39)));
    assert_eq!(index.get(&"key3".to_owned()), None);
}

#[test]
fn a_key_that_is_set_again_keeps_its_place() {
    let mut index = Index::new();
    index.insert("a".to_owned(), at(0, 0, 1));
    index.insert("b".to_owned(), at(0, 1, 2));
    index.insert("a".to_owned(), at(0, 3, 3));
    assert_eq!(index.key_at(0), "a");
    assert_eq!(index.position_at(0), at(0, 3, 3));
    assert_eq!(index.key_at(1), "b");
    assert_eq!(index.position_at(1), at(0, 1, 2));
}

#[test]
fn remove_returns_the_position_and_moves_the_last_entry_into_the_gap() {
    let mut index = Index::new();
    index.insert("a".to_owned(), at(0, 0, 1));
    index.insert("b".to_owned(), at(0, 1, 2));
    index.insert("c".to_owned(), at(0, 3, 3));
    assert_eq!(index.remove(&"a".to_owned()), Some(at(0, 0, 1)));
    assert_eq!(index.len(), 2);
    assert_eq!(index.key_at(0), "c");
    assert_eq!(index.key_at(1), "b");
    assert_eq!(index.get(&"a".to_owned()), None);
    assert_eq!(index.get(&"b".to_owned()), Some(at(0, 1, 2)));
    assert_eq!(index.get(&"c".to_owned()), Some(at(0, 3, 3)));

    assert_eq!(index.remove(&"a".to_owned()), None);
    assert_eq!(index.remove(&"b".to_owned()), Some(at(0, 1, 2)));
    assert_eq!(index.remove(&"c".to_owned()), Some(at(0, 3, 3)));
    assert_eq!(index.len(), 0);
}

#[test]
fn relocate_changes_the_position_and_keeps_the_key() {
    let mut index = Index::new();
    index.insert("a".to_owned(), at(0, 0, 5));
    index.insert("b".to_owned(), at(0, 5, 6));
    index.relocate(1, at(1, 0, 6));
    assert_eq!(index.key_at(1), "b");
    assert_eq!(index.get(&"b".to_owned()), Some(at(1, 0, 6)));
    assert_eq!(index.get(&"a".to_owned()), Some(at(0, 0, 5)));
}

#[test]
fn a_position_is_made_of_a_fragment_and_a_byte_range() {
    let position = EntryPosition::from((3, 10..25));
    assert_eq!(position, at(3, 10, 15));
    assert_eq!(EntryPosition::from((0, 7..7)), at(0, 7, 0));
}
