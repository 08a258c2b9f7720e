use kvs::record::{
    append_bytes, decode_entry, decode_stream, encode_entry, frame_put, frame_rm, has_prefix_at,
    LogEntry,
};
use kvs::StoreError;

fn put(key: &str, value: &str) -> LogEntry {
    LogEntry::Put { key: key.to_owned(), value: value.to_owned() }
}

fn rm(key: &str) -> LogEntry {
    LogEntry::Rm { key: key.to_owned() }
}

fn is_put(entry: &LogEntry, key: &str, value: &str) -> bool {
    matches!(entry, LogEntry::Put { key: k, value: v } if k == key && v == value)
}

fn is_rm(entry: &LogEntry, key: &str) -> bool {
    matches!(entry, LogEntry::Rm { key: k } if k == key)
}

#[test]
fn a_put_is_written_under_the_tag_set() {
    let bytes = encode_entry(&put("key1", "value1")).unwrap();
    assert_eq!(bytes, br#"{"Set":{"key":"key1","value":"value1"}}"#.to_vec());
    assert_eq!(bytes.len(), 39);
}

#[test]
fn an_rm_is_written_under_the_tag_rm() {
    let bytes = encode_entry(&rm("key1")).unwrap();
    assert_eq!(bytes, br#"{"Rm":{"key":"key1"}}"#.to_vec());
    assert_eq!(bytes.len(), 21);
}

#[test]
fn strings_are_written_as_json_literals() {
    let bytes = encode_entry(&rm("a\"b\\c")).unwrap();
    assert_eq!(bytes, br#"{"Rm":{"key":"a\"b\\c"}}"#.to_vec());

    let bytes = encode_entry(&put("line\nbreak", "tab\there")).unwrap();
    assert_eq!(bytes, br#"{"Set":{"key":"line\nbreak","value":"tab\there"}}"#.to_vec());

    let bytes = encode_entry(&rm("\u{1}")).unwrap();
    assert_eq!(bytes, br#"{"Rm":{"key":"\u0001"}}"#.to_vec());

    let bytes = encode_entry(&rm("")).unwrap();
    assert_eq!(bytes, br#"{"Rm":{"key":""}}"#.to_vec());
}

#[test]
fn strings_beyond_ascii_are_written_as_they_are() {
    let bytes = encode_entry(&put("clé", "值 😀")).unwrap();
    assert_eq!(bytes, "{\"Set\":{\"key\":\"clé\",\"value\":\"值 😀\"}}".as_bytes().to_vec());
}

#[test]
fn the_encoding_agrees_with_serde_json_on_each_string() {
    for text in ["", "plain", "with space", "q\"uote", "back\\slash", "\u{7f}", "}}{\"Set\":"] {
        let literal = serde_json::to_vec(text).unwrap();
        assert_eq!(frame_rm(&literal), encode_entry(&rm(text)).unwrap());
        assert_eq!(frame_put(&literal, &literal), encode_entry(&put(text, text)).unwrap());
    }
}

#[test]
fn a_record_is_read_back_with_its_length() {
    for (key, value) in [
        ("key1", "value1"),
        ("", ""),
        ("with space", "line\nbreak"),
        ("q\"uote", "back\\slash"),
        ("}}", "{\"Rm\":{\"key\":\"x\"}}"),
        ("clé", "值 😀"),
        ("\u{0}", "\u{1f}\u{7f}"),
    ] {
        let bytes = encode_entry(&put(key, value)).unwrap();
        let (entry, len) = decode_entry(&bytes).unwrap();
        assert!(is_put(&entry, key, value));
        assert_eq!(len, bytes.len());

        let bytes = encode_entry(&rm(key)).unwrap();
        let (entry, len) = decode_entry(&bytes).unwrap();
        assert!(is_rm(&entry, key));
        assert_eq!(len, bytes.len());
    }
}

#[test]
fn a_record_is_read_whatever_follows_it() {
    let mut bytes = encode_entry(&put("key1", "value1")).unwrap();
    let len = bytes.len();
    bytes.extend_from_slice(b"\"}} anything at all");
    let (entry, read) = decode_entry(&bytes).unwrap();
    assert!(is_put(&entry, "key1", "value1"));
    assert_eq!(read, len);
}

#[test]
fn json_escapes_are_read() {
    let bytes = r#"{"Set":{"key":"\u0041\/","value":"x\ny😀\ud83d\ude00"}}"#.as_bytes();
    let (entry, len) = decode_entry(bytes).unwrap();
    assert!(is_put(&entry, "A/", "x\ny😀😀"));
    assert_eq!(len, bytes.len());
}

#[test]
fn what_is_no_record_is_a_serde_error() {
    let cases: [&[u8]; 12] = [
        b"",
        b"{",
        br#"{"Set":{"key":"a","value":"b"}"#,
        br#"{"Set":{"key":"a","value":"b"#,
        br#"{"Set":{"key":"a"}}"#,
        br#"{"Set":{"value":"b","key":"a"}}"#,
        br#"{"Rm":{"key":"a","value":"b"}}"#,
        br#"{"Rm":{"key":7}}"#,
        br#"{"Get":{"key":"a"}}"#,
        br#" {"Rm":{"key":"a"}}"#,
        br#"{"Rm": {"key":"a"}}"#,
        b"{\"Rm\":{\"key\":\"a\nb\"}}",
    ];
    for bytes in cases {
        assert!(matches!(decode_entry(bytes), Err(StoreError::Serde(_))));
    }
}

#[test]
fn a_log_is_read_record_by_record() {
    let first = encode_entry(&put("key1", "value1")).unwrap();
    let second = encode_entry(&rm("key1")).unwrap();
    let third = encode_entry(&put("key2", "")).unwrap();
    let mut log = Vec::new();
    append_bytes(&mut log, &first);
    append_bytes(&mut log, &second);
    append_bytes(&mut log, &third);

    let entries = decode_stream(&log).unwrap();
    assert_eq!(entries.len(), 3);
    assert!(is_put(&entries[0].0, "key1", "value1"));
    assert_eq!(entries[0].1, 39);
    assert!(is_rm(&entries[1].0, "key1"));
    assert_eq!(entries[1].1, 39 + 21);
    assert!(is_put(&entries[2].0, "key2", ""));
    assert_eq!(entries[2].1, log.len());
}

#[test]
fn an_empty_log_has_no_records() {
    assert!(decode_stream(b"").unwrap().is_empty());
}

#[test]
fn a_log_with_a_broken_tail_is_a_serde_error() {
    let mut log = encode_entry(&put("key1", "value1")).unwrap();
    log.extend_from_slice(br#"{"Set":{"key":"key2","val"#);
    assert!(matches!(decode_stream(&log), Err(StoreError::Serde(_))));

    let mut log = encode_entry(&put("key1", "value1")).unwrap();
    log.push(b'\n');
    assert!(matches!(decode_stream(&log), Err(StoreError::Serde(_))));
}

#[test]
fn a_pattern_is_found_where_it_stands() {
    assert!(has_prefix_at(b"abcdef", 0, b"abc"));
    assert!(has_prefix_at(b"abcdef", 2, b"cdef"));
    assert!(has_prefix_at(b"abcdef", 6, b""));
    assert!(!has_prefix_at(b"abcdef", 1, b"abc"));
    assert!(!has_prefix_at(b"abcdef", 4, b"efg"));
    assert!(!has_prefix_at(b"abcdef", 7, b""));
}

#[test]
fn framing_puts_the_literals_between_the_fixed_bytes() {
    assert_eq!(frame_put(b"K", b"V"), br#"{"Set":{"key":K,"value":V}}"#.to_vec());
    assert_eq!(frame_rm(b"K"), br#"{"Rm":{"key":K}}"#.to_vec());
    assert_eq!(frame_put(b"", b"").len(), 25);
    assert_eq!(frame_rm(b"").len(), 15);
}

/// A sequence of numbers that looks random and is the same in every run.
struct Numbers(u64);

impl Numbers {
    fn next(&mut self) -> u64 {
        self.0 = self.0.wrapping_mul(6364136223846793005).wrapping_add(1442695040888963407);
        self.0 >> 33
    }

    fn text(&mut self) -> String {
        let alphabet: Vec<char> = "\u{0}\u{1}\u{8}\t\n\u{c}\r\u{1f} !\"#/09:AZ\\az{}\u{7f}\u{80}é\u{7ff}\u{800}值\u{d7ff}\u{e000}\u{ffff}😀\u{10ffff}"
            .chars()
            .collect();
        let len = self.next() % 12;
        (0..len).map(|_| alphabet[(self.next() % alphabet.len() as u64) as usize]).collect()
    }

    fn bytes(&mut self) -> Vec<u8> {
        let len = self.next() % 40;
        (0..len).map(|_| (self.next() % 256) as u8).collect()
    }
}

#[test]
fn every_record_is_read_back_whatever_bytes_follow() {
    let mut numbers = Numbers(2024);
    for round in 0..2000 {
        let key = numbers.text();
        let value = numbers.text();
        let entry = if round % 3 == 0 { rm(&key) } else { put(&key, &value) };
        let written = encode_entry(&entry).unwrap();

        let mut bytes = written.clone();
        bytes.extend_from_slice(&numbers.bytes());
        let (read, len) = decode_entry(&bytes).unwrap();
        assert_eq!(len, written.len());
        if round % 3 == 0 {
            assert!(is_rm(&read, &key));
        } else {
            assert!(is_put(&read, &key, &value));
        }
    }
}

#[test]
fn a_log_of_many_records_is_read_back() {
    let mut numbers = Numbers(7);
    let mut log = Vec::new();
    let mut written = Vec::new();
    for round in 0..500 {
        let key = numbers.text();
        let value = numbers.text();
        let entry = if round % 4 == 0 { rm(&key) } else { put(&key, &value) };
        append_bytes(&mut log, &encode_entry(&entry).unwrap());
        written.push((round % 4 == 0, key, value, log.len()));
    }
    let entries = decode_stream(&log).unwrap();
    assert_eq!(entries.len(), written.len());
    for ((entry, end), (removal, key, value, expected_end)) in entries.iter().zip(&written) {
        assert_eq!(end, expected_end);
        if *removal {
            assert!(is_rm(entry, key));
        } else {
            assert!(is_put(entry, key, value));
        }
    }
}
