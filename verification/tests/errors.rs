use kvs::StoreError;

#[test]
fn each_error_reads_as_its_label_and_description() {
    assert_eq!(StoreError::NotFound.to_string(), "Key not found");
    assert_eq!(StoreError::Io("disk full".to_owned()).to_string(), "IO error: disk full");
    assert_eq!(StoreError::Serde("bad record".to_owned()).to_string(), "Serde error: bad record");
    assert_eq!(
        StoreError::Fragment("invalid fragment number".to_owned()).to_string(),
        "Fragment error: invalid fragment number"
    );
    assert_eq!(StoreError::Fragment(String::new()).to_string(), "Fragment error: ");
}
