use kvs::directory::{read_directory, write_directory};
use kvs::image::Fragment;
use kvs::StoreError;

fn file(name: &str, data: &[u8]) -> (String, Vec<u8>) {
    (name.to_owned(), data.to_vec())
}

#[test]
fn fragments_are_read_in_the_order_of_their_numbers() {
    let files = vec![file("10.kv", b"ten"), file("2.kv", b"two"), file("0.kv", b""), file("7.kv", b"seven")];
    let fragments = read_directory(files).unwrap();
    let found: Vec<(u64, Vec<u8>)> = fragments.into_iter().map(|f| (f.id, f.data)).collect();
    assert_eq!(
        found,
        vec![(0, b"".to_vec()), (2, b"two".to_vec()), (7, b"seven".to_vec()), (10, b"ten".to_vec())]
    );
}

#[test]
fn other_files_are_passed_over() {
    let files = vec![file("notes.txt", b"n"), file("3.kv", b"three"), file(".kv", b"x"), file("3.kv.bak", b"y")];
    let fragments = read_directory(files).unwrap();
    assert_eq!(fragments.len(), 1);
    assert_eq!(fragments[0].id, 3);
    assert_eq!(fragments[0].data, b"three".to_vec());
}

#[test]
fn an_empty_directory_has_no_fragments() {
    assert!(read_directory(Vec::new()).unwrap().is_empty());
}

#[test]
fn a_bad_fragment_name_is_a_fragment_error() {
    let files = vec![file("1.kv", b""), file("one.kv", b"")];
    assert!(matches!(read_directory(files), Err(StoreError::Fragment(_))));
    let files = vec![file("01.kv", b"")];
    assert!(matches!(read_directory(files), Err(StoreError::Fragment(_))));
}

#[test]
fn a_repeated_fragment_name_is_a_fragment_error() {
    let files = vec![file("1.kv", b"a"), file("2.kv", b"b"), file("1.kv", b"a")];
    assert!(matches!(read_directory(files), Err(StoreError::Fragment(_))));
}

#[test]
fn fragments_are_written_under_their_names() {
    let fragments = vec![Fragment { id: 4, data: b"four".to_vec() }, Fragment { id: 11, data: Vec::new() }];
    assert_eq!(write_directory(&fragments), vec![file("4.kv", b"four"), file("11.kv", b"")]);
}
