//! Log records and their byte encoding.

use crate::error::StoreError;
use crate::json::{
    json_error_text, json_string_prefix, json_text, read_json_string, reads_as, write_json_string,
};
use vstd::prelude::*;
use vstd::slice::slice_subrange;
use vstd::string::StringExecFns;

verus! {

/// One entry of the log.
#[derive(Debug)]
pub enum LogEntry {
    /// The key is given a value. Written to the log under the tag `Set`.
    Put { key: String, value: String },
    /// The key is removed.
    Rm { key: String },
}

/// A log entry as a mathematical value.
pub enum Record {
    Put { key: Seq<char>, value: Seq<char> },
    Rm { key: Seq<char> },
}

impl Record {
    /// The key that the record is about.
    pub open spec fn key(self) -> Seq<char> {
        match self {
            Record::Put { key, .. } => key,
            Record::Rm { key } => key,
        }
    }
}

impl View for LogEntry {
    type V = Record;

    open spec fn view(&self) -> Record {
        match self {
            LogEntry::Put { key, value } => Record::Put { key: key@, value: value@ },
            LogEntry::Rm { key } => Record::Rm { key: key@ },
        }
    }
}

/// The bytes of a text made of ASCII characters.
pub open spec fn ascii_bytes(text: Seq<char>) -> Seq<u8> {
    Seq::new(text.len(), |i: int| text[i] as u8)
}

/// What opens a `Put` record, up to its key.
pub open spec fn put_head() -> Seq<u8> {
    ascii_bytes("{\"Set\":{\"key\":"@)
}

/// What stands between the key and the value of a `Put` record.
pub open spec fn put_mid() -> Seq<u8> {
    ascii_bytes(",\"value\":"@)
}

/// What opens an `Rm` record, up to its key.
pub open spec fn rm_head() -> Seq<u8> {
    ascii_bytes("{\"Rm\":{\"key\":"@)
}

/// What closes a record of either kind.
pub open spec fn tail() -> Seq<u8> {
    ascii_bytes("}}"@)
}

/// A `Put` record around the JSON literals of its key and value.
pub open spec fn put_bytes(key_text: Seq<u8>, value_text: Seq<u8>) -> Seq<u8> {
    put_head() + key_text + put_mid() + value_text + tail()
}

/// An `Rm` record around the JSON literal of its key.
pub open spec fn rm_bytes(key_text: Seq<u8>) -> Seq<u8> {
    rm_head() + key_text + tail()
}

/// The bytes that [`encode_entry`] writes for a record.
pub open spec fn record_bytes(r: Record) -> Seq<u8> {
    match r {
        Record::Put { key, value } => put_bytes(json_text(key), json_text(value)),
        Record::Rm { key } => rm_bytes(json_text(key)),
    }
}

/// `segment` is an encoding of `r`: the framing of its kind around literals
/// that are read back as its key and value, whatever follows them.
#[verifier::opaque]
pub open spec fn is_record(segment: Seq<u8>, r: Record) -> bool {
    match r {
        Record::Put { key, value } => exists|k: Seq<u8>, v: Seq<u8>|
            #[trigger] put_bytes(k, v) == segment && reads_as(k, key) && reads_as(v, value),
        Record::Rm { key } => exists|k: Seq<u8>|
            #[trigger] rm_bytes(k) == segment && reads_as(k, key),
    }
}

/// Where `pattern` ends if it stands in `bytes` at offset `at`.
pub open spec fn expect(bytes: Seq<u8>, at: int, pattern: Seq<u8>) -> Option<int> {
    if 0 <= at && at + pattern.len() <= bytes.len() && bytes.subrange(at, at + pattern.len())
        == pattern {
        Some(at + pattern.len())
    } else {
        None
    }
}

/// The string that `serde_json` reads from `bytes` at offset `at`, and the
/// offset at which it stops reading: just behind the literal's closing quote.
pub open spec fn string_field(bytes: Seq<u8>, at: int) -> Option<(Seq<char>, int)> {
    if 0 <= at <= bytes.len() {
        match json_string_prefix(bytes.skip(at)) {
            Some((s, n)) => if at + n <= bytes.len() {
                Some((s, at + n))
            } else {
                None
            },
            None => None,
        }
    } else {
        None
    }
}

/// The `Put` record whose key starts at offset `at`, and where the record ends.
pub open spec fn put_from_key(bytes: Seq<u8>, at: int) -> Option<(Record, int)> {
    match string_field(bytes, at) {
        Some((key, key_end)) => match expect(bytes, key_end, put_mid()) {
            Some(value_start) => match string_field(bytes, value_start) {
                Some((value, value_end)) => match expect(bytes, value_end, tail()) {
                    Some(end) => Some((Record::Put { key, value }, end)),
                    None => None,
                },
                None => None,
            },
            None => None,
        },
        None => None,
    }
}

/// The `Rm` record whose key starts at offset `at`, and where the record ends.
pub open spec fn rm_from_key(bytes: Seq<u8>, at: int) -> Option<(Record, int)> {
    match string_field(bytes, at) {
        Some((key, key_end)) => match expect(bytes, key_end, tail()) {
            Some(end) => Some((Record::Rm { key }, end)),
            None => None,
        },
        None => None,
    }
}

/// The record that `bytes` begins with, and its length; `None` where `bytes`
/// does not begin with a record.
pub open spec fn first_record(bytes: Seq<u8>) -> Option<(Record, int)> {
    match expect(bytes, 0, put_head()) {
        Some(key_start) => put_from_key(bytes, key_start),
        None => match expect(bytes, 0, rm_head()) {
            Some(key_start) => rm_from_key(bytes, key_start),
            None => None,
        },
    }
}

/// The records that `bytes` is made of, one after another with nothing
/// between them, each with its length in bytes; `None` where `bytes` is not
/// such a sequence.
pub open spec fn log_records(bytes: Seq<u8>) -> Option<Seq<(Record, nat)>>
    decreases bytes.len(),
{
    if bytes.len() == 0 {
        Some(Seq::empty())
    } else {
        match first_record(bytes) {
            Some((r, n)) => if 0 < n <= bytes.len() {
                match log_records(bytes.skip(n)) {
                    Some(rest) => Some(seq![(r, n as nat)] + rest),
                    None => None,
                }
            } else {
                None
            },
            None => None,
        }
    }
}

/// `bytes` is a sequence of records, each of which is an encoding of what it
/// is read as.
pub open spec fn is_log(bytes: Seq<u8>) -> bool
    decreases bytes.len(),
{
    bytes.len() == 0 || match first_record(bytes) {
        Some((r, n)) => 0 < n <= bytes.len() && is_record(bytes.take(n), r) && is_log(
            bytes.skip(n),
        ),
        None => false,
    }
}

/// A literal that stands in `bytes` at `at` is the string field found there.
pub proof fn lemma_string_field(bytes: Seq<u8>, at: int, literal: Seq<u8>, s: Seq<char>)
    requires
        0 <= at,
        at + literal.len() <= bytes.len(),
        bytes.subrange(at, at + literal.len()) == literal,
        reads_as(literal, s),
    ensures
        string_field(bytes, at) == Some((s, at + literal.len())),
{
    reveal(reads_as);
    let rest = bytes.skip(at + literal.len());
    assert(bytes.skip(at) =~= literal + rest);
    assert(json_string_prefix(literal + rest) == Some((s, literal.len())));
}

/// The two kinds of record differ in their third byte.
proof fn lemma_heads_differ()
    ensures
        put_head().len() == 14,
        rm_head().len() == 13,
        put_mid().len() == 9,
        tail().len() == 2,
        put_head()[2] != rm_head()[2],
{
    reveal_strlit("{\"Set\":{\"key\":");
    reveal_strlit("{\"Rm\":{\"key\":");
    reveal_strlit(",\"value\":");
    reveal_strlit("}}");
}

/// An encoding of a record is read back as that record, in full and whatever
/// follows it.
pub proof fn lemma_record_reads_back(segment: Seq<u8>, r: Record, rest: Seq<u8>)
    requires
        is_record(segment, r),
    ensures
        first_record(segment + rest) == Some((r, segment.len() as int)),
        segment.len() > 0,
{
    reveal(is_record);
    lemma_heads_differ();
    let bytes = segment + rest;
    match r {
        Record::Put { key, value } => {
            let (k, v) = choose|k: Seq<u8>, v: Seq<u8>|
                #[trigger] put_bytes(k, v) == segment && reads_as(k, key) && reads_as(v, value);
            let a = put_head().len() as int;
            let b = a + k.len();
            let c = b + put_mid().len();
            let d = c + v.len();
            let e = d + tail().len();
            assert(bytes.subrange(0, a) =~= put_head());
            assert(bytes.subrange(a, b) =~= k);
            assert(bytes.subrange(b, c) =~= put_mid());
            assert(bytes.subrange(c, d) =~= v);
            assert(bytes.subrange(d, e) =~= tail());
            lemma_string_field(bytes, a, k, key);
            lemma_string_field(bytes, c, v, value);
        },
        Record::Rm { key } => {
            let k = choose|k: Seq<u8>| #[trigger] rm_bytes(k) == segment && reads_as(k, key);
            let a = rm_head().len() as int;
            let b = a + k.len();
            let e = b + tail().len();
            assert(bytes.subrange(0, a) =~= rm_head());
            assert(bytes.subrange(a, b) =~= k);
            assert(bytes.subrange(b, e) =~= tail());
            assert(expect(bytes, 0, put_head()) is None) by {
                if bytes.len() >= 14 {
                    assert(bytes.subrange(0, 14)[2] == bytes[2]);
                    assert(bytes.subrange(0, a)[2] == bytes[2]);
                }
            }
            lemma_string_field(bytes, a, k, key);
        },
    }
}

/// A log with one more encoded record behind it is a log, of the same
/// records and that one.
pub proof fn lemma_log_append(bytes: Seq<u8>, segment: Seq<u8>, r: Record)
    requires
        is_log(bytes),
        is_record(segment, r),
    ensures
        is_log(bytes + segment),
        log_records(bytes) is Some,
        log_records(bytes + segment) == Some(log_records(bytes).unwrap().push((r, segment.len()))),
    decreases bytes.len(),
{
    let whole = bytes + segment;
    if bytes.len() == 0 {
        lemma_record_reads_back(segment, r, Seq::empty());
        assert(segment + Seq::<u8>::empty() =~= segment);
        assert(whole =~= segment);
        assert(whole.take(segment.len() as int) =~= segment);
        assert(whole.skip(segment.len() as int).len() == 0);
        assert(is_log(whole.skip(segment.len() as int)));
        assert(log_records(whole.skip(segment.len() as int)) == Some(
            Seq::<(Record, nat)>::empty(),
        ));
        assert(seq![(r, segment.len())] + Seq::<(Record, nat)>::empty() =~= Seq::<
            (Record, nat),
        >::empty().push((r, segment.len())));
    } else {
        let (first, n) = first_record(bytes).unwrap();
        let after = bytes.skip(n);
        lemma_record_reads_back(bytes.take(n), first, after + segment);
        assert(bytes.take(n) + (after + segment) =~= whole);
        assert(whole.take(n) =~= bytes.take(n));
        assert(whole.skip(n) =~= after + segment);
        lemma_log_append(after, segment, r);
        assert(is_log(whole.skip(n)));
        assert(first_record(whole) == Some((first, n)));
        let tail_records = log_records(after).unwrap();
        assert(seq![(first, n as nat)] + tail_records.push((r, segment.len())) =~= (seq![
            (first, n as nat),
        ] + tail_records).push((r, segment.len())));
    }
}

/// A log is made of records.
pub proof fn lemma_log_has_records(bytes: Seq<u8>)
    requires
        is_log(bytes),
    ensures
        log_records(bytes) is Some,
    decreases bytes.len(),
{
    if bytes.len() > 0 {
        let (first, n) = first_record(bytes).unwrap();
        lemma_log_has_records(bytes.skip(n));
    }
}

/// The bytes of [`put_head`].
fn put_head_bytes() -> (r: &'static [u8])
    ensures
        r@ == put_head(),
{
    proof {
        reveal_strlit("{\"Set\":{\"key\":");
        broadcast use vstd::string::is_ascii_spec_bytes;
    }
    let s: &'static str = "{\"Set\":{\"key\":";
    assert(vstd::string::is_ascii(s));
    s.as_bytes()
}

/// The bytes of [`put_mid`].
fn put_mid_bytes() -> (r: &'static [u8])
    ensures
        r@ == put_mid(),
{
    proof {
        reveal_strlit(",\"value\":");
        broadcast use vstd::string::is_ascii_spec_bytes;
    }
    let s: &'static str = ",\"value\":";
    assert(vstd::string::is_ascii(s));
    s.as_bytes()
}

/// The bytes of [`rm_head`].
fn rm_head_bytes() -> (r: &'static [u8])
    ensures
        r@ == rm_head(),
{
    proof {
        reveal_strlit("{\"Rm\":{\"key\":");
        broadcast use vstd::string::is_ascii_spec_bytes;
    }
    let s: &'static str = "{\"Rm\":{\"key\":";
    assert(vstd::string::is_ascii(s));
    s.as_bytes()
}

/// The bytes of [`tail`].
fn tail_bytes() -> (r: &'static [u8])
    ensures
        r@ == tail(),
{
    proof {
        reveal_strlit("}}");
        broadcast use vstd::string::is_ascii_spec_bytes;
    }
    let s: &'static str = "}}";
    assert(vstd::string::is_ascii(s));
    s.as_bytes()
}

/// Appends `bytes` to `out`.
pub fn append_bytes(out: &mut Vec<u8>, bytes: &[u8])
    ensures
        final(out)@ == old(out)@ + bytes@,
        final(out)@.len() <= usize::MAX,
{
    out.extend_from_slice(bytes);
    assert(out@ =~= old(out)@ + bytes@);
    assert(out@.len() == out.len());
}

/// Whether `pattern` stands in `bytes` at offset `at`.
pub fn has_prefix_at(bytes: &[u8], at: usize, pattern: &[u8]) -> (found: bool)
    ensures
        found == (expect(bytes@, at as int, pattern@) is Some),
{
    if at > bytes.len() || pattern.len() > bytes.len() - at {
        return false;
    }
    let mut i: usize = 0;
    while i < pattern.len()
        invariant
            at + pattern@.len() <= bytes@.len() <= usize::MAX,
            i <= pattern@.len(),
            forall|j: int| 0 <= j < i ==> bytes@[at + j] == pattern@[j],
        decreases pattern.len() - i,
    {
        if bytes[at + i] != pattern[i] {
            assert(bytes@.subrange(at as int, at + pattern@.len())[i as int] == bytes@[at + i]);
            return false;
        }
        i += 1;
    }
    assert(bytes@.subrange(at as int, at + pattern@.len()) =~= pattern@);
    true
}

/// Frames the JSON literals of a key and a value as a `Put` record.
pub fn frame_put(key_text: &[u8], value_text: &[u8]) -> (out: Vec<u8>)
    ensures
        out@ == put_bytes(key_text@, value_text@),
{
    let mut out: Vec<u8> = Vec::new();
    append_bytes(&mut out, put_head_bytes());
    append_bytes(&mut out, key_text);
    append_bytes(&mut out, put_mid_bytes());
    append_bytes(&mut out, value_text);
    append_bytes(&mut out, tail_bytes());
    assert(out@ =~= put_bytes(key_text@, value_text@));
    out
}

/// Frames the JSON literal of a key as an `Rm` record.
pub fn frame_rm(key_text: &[u8]) -> (out: Vec<u8>)
    ensures
        out@ == rm_bytes(key_text@),
{
    let mut out: Vec<u8> = Vec::new();
    append_bytes(&mut out, rm_head_bytes());
    append_bytes(&mut out, key_text);
    append_bytes(&mut out, tail_bytes());
    assert(out@ =~= rm_bytes(key_text@));
    out
}

/// The JSON literal of `s`.
fn encode_string(s: &str) -> (r: Result<Vec<u8>, StoreError>)
    ensures
        r matches Ok(text) && text@ == json_text(s@) && reads_as(text@, s@),
{
    match write_json_string(s) {
        Ok(text) => Ok(text),
        Err(e) => Err(StoreError::Serde(json_error_text(&e))),
    }
}

/// Serializes a log entry.
///
/// The result is the framing of the entry's kind around the JSON literals of
/// its strings, and it is an encoding of the entry: reading it back, with
/// anything behind it, gives the entry again.
pub fn encode_entry(entry: &LogEntry) -> (r: Result<Vec<u8>, StoreError>)
    ensures
        r matches Ok(bytes) && bytes@ == record_bytes(entry@) && is_record(bytes@, entry@),
{
    proof {
        reveal(is_record);
    }
    match entry {
        LogEntry::Put { key, value } => {
            let key_text = match encode_string(key.as_str()) {
                Ok(text) => text,
                Err(e) => { return Err(e); },
            };
            let value_text = match encode_string(value.as_str()) {
                Ok(text) => text,
                Err(e) => { return Err(e); },
            };
            let bytes = frame_put(key_text.as_slice(), value_text.as_slice());
            assert(put_bytes(key_text@, value_text@) == bytes@);
            Ok(bytes)
        },
        LogEntry::Rm { key } => {
            let key_text = match encode_string(key.as_str()) {
                Ok(text) => text,
                Err(e) => { return Err(e); },
            };
            let bytes = frame_rm(key_text.as_slice());
            assert(rm_bytes(key_text@) == bytes@);
            Ok(bytes)
        },
    }
}

/// A failure to read a record, with what was found wrong.
fn malformed(what: &str) -> (e: StoreError)
    ensures
        e is Serde,
        e.detail() == what@,
{
    StoreError::Serde(String::from_str(what))
}

/// Reads the JSON string literal that stands in `bytes` at offset `at`.
fn decode_string_at(bytes: &[u8], at: usize) -> (r: Result<(String, usize), StoreError>)
    requires
        at <= bytes@.len(),
    ensures
        match r {
            Ok((s, end)) => {
                &&& string_field(bytes@, at as int) == Some((s@, end as int))
                &&& at <= end <= bytes@.len()
                &&& reads_as(bytes@.subrange(at as int, end as int), s@)
            },
            Err(e) => e is Serde && string_field(bytes@, at as int) is None,
        },
{
    let rest = slice_subrange(bytes, at, bytes.len());
    assert(rest@ == bytes@.skip(at as int));
    match read_json_string(rest) {
        Some(Ok((s, n))) => {
            assert(rest@.subrange(0, n as int) =~= bytes@.subrange(at as int, at + n));
            Ok((s, at + n))
        },
        Some(Err(e)) => Err(StoreError::Serde(json_error_text(&e))),
        None => Err(malformed("a record ends where a string is expected")),
    }
}

/// Reads the record that `bytes` begins with.
///
/// Succeeds exactly where `bytes` begins with a record, and then returns the
/// record and its length; the bytes of that length are an encoding of it.
pub fn decode_entry(bytes: &[u8]) -> (r: Result<(LogEntry, usize), StoreError>)
    ensures
        match r {
            Ok((entry, n)) => {
                &&& first_record(bytes@) == Some((entry@, n as int))
                &&& 0 < n <= bytes@.len()
                &&& is_record(bytes@.take(n as int), entry@)
            },
            Err(e) => e is Serde && first_record(bytes@) is None,
        },
{
    let put_head = put_head_bytes();
    let rm_head = rm_head_bytes();
    let tail = tail_bytes();
    proof {
        reveal(is_record);
        lemma_heads_differ();
        assert(bytes@.len() == bytes.len());
    }
    if has_prefix_at(bytes, 0, put_head) {
        let put_mid = put_mid_bytes();
        let (key, key_end) = match decode_string_at(bytes, put_head.len()) {
            Ok(found) => found,
            Err(e) => { return Err(e); },
        };
        if !has_prefix_at(bytes, key_end, put_mid) {
            return Err(malformed("a `Set` record has no value after its key"));
        }
        let value_start = key_end + put_mid.len();
        let (value, value_end) = match decode_string_at(bytes, value_start) {
            Ok(found) => found,
            Err(e) => { return Err(e); },
        };
        if !has_prefix_at(bytes, value_end, tail) {
            return Err(malformed("a `Set` record is not closed after its value"));
        }
        let end = value_end + tail.len();
        proof {
            let k = bytes@.subrange(put_head@.len() as int, key_end as int);
            let v = bytes@.subrange(value_start as int, value_end as int);
            assert(put_bytes(k, v) =~= bytes@.take(end as int));
        }
        Ok((LogEntry::Put { key, value }, end))
    } else if has_prefix_at(bytes, 0, rm_head) {
        let (key, key_end) = match decode_string_at(bytes, rm_head.len()) {
            Ok(found) => found,
            Err(e) => { return Err(e); },
        };
        if !has_prefix_at(bytes, key_end, tail) {
            return Err(malformed("an `Rm` record is not closed after its key"));
        }
        let end = key_end + tail.len();
        proof {
            let k = bytes@.subrange(rm_head@.len() as int, key_end as int);
            assert(rm_bytes(k) =~= bytes@.take(end as int));
        }
        Ok((LogEntry::Rm { key }, end))
    } else {
        Err(malformed("neither a `Set` nor an `Rm` record"))
    }
}

/// Where the `i`-th of the decoded entries starts: where the one before it
/// ends.
pub open spec fn entry_start(entries: Seq<(LogEntry, usize)>, i: int) -> int {
    if i <= 0 {
        0
    } else {
        entries[i - 1].1 as int
    }
}

/// The records of decoded entries, each with its length.
pub open spec fn entry_records(entries: Seq<(LogEntry, usize)>) -> Seq<(Record, nat)> {
    Seq::new(
        entries.len(),
        |i: int| (entries[i].0@, (entries[i].1 - entry_start(entries, i)) as nat),
    )
}

/// The decoded entries lie in `bytes` one behind another, and the bytes of
/// each encode it.
pub open spec fn entries_fit(bytes: Seq<u8>, entries: Seq<(LogEntry, usize)>) -> bool {
    forall|i: int|
        0 <= i < entries.len() ==> {
            &&& entry_start(entries, i) < (#[trigger] entries[i]).1 <= bytes.len()
            &&& is_record(
                bytes.subrange(entry_start(entries, i), entries[i].1 as int),
                entries[i].0@,
            )
        }
}

/// `entries` are the records that `bytes` holds before offset `pos`, and what
/// follows decides whether `bytes` is a log.
spec fn is_decoding_to(bytes: Seq<u8>, entries: Seq<(LogEntry, usize)>, pos: int) -> bool {
    &&& 0 <= pos <= bytes.len()
    &&& pos == entry_start(entries, entries.len() as int)
    &&& is_log(bytes.take(pos))
    &&& log_records(bytes.take(pos)) == Some(entry_records(entries))
    &&& log_records(bytes) == match log_records(bytes.skip(pos)) {
        Some(rest) => Some(entry_records(entries) + rest),
        None => None,
    }
    &&& entries_fit(bytes, entries)
}

/// `entries` are the records of `bytes` in order, each with the offset at
/// which it ends; the bytes from one offset to the next encode the record.
pub open spec fn is_decoding(bytes: Seq<u8>, entries: Seq<(LogEntry, usize)>) -> bool {
    &&& log_records(bytes) == Some(entry_records(entries))
    &&& is_log(bytes)
    &&& entry_start(entries, entries.len() as int) == bytes.len()
    &&& entries_fit(bytes, entries)
}

/// Before anything is read, nothing is decoded.
proof fn lemma_decoding_starts(bytes: Seq<u8>)
    ensures
        is_decoding_to(bytes, Seq::empty(), 0),
{
    assert(bytes.take(0) =~= Seq::<u8>::empty());
    assert(bytes.skip(0) =~= bytes);
    assert(entry_records(Seq::empty()) =~= Seq::<(Record, nat)>::empty());
    match log_records(bytes) {
        Some(rest) => {
            assert(entry_records(Seq::empty()) + rest =~= rest);
        },
        None => {},
    }
}

/// One more record read behind the decoded ones is one more decoded.
proof fn lemma_decoding_step(
    bytes: Seq<u8>,
    entries: Seq<(LogEntry, usize)>,
    pos: int,
    entry: LogEntry,
    n: int,
)
    requires
        is_decoding_to(bytes, entries, pos),
        first_record(bytes.skip(pos)) == Some((entry@, n)),
        0 < n <= bytes.len() - pos,
        pos + n <= usize::MAX,
        is_record(bytes.skip(pos).take(n), entry@),
    ensures
        is_decoding_to(bytes, entries.push((entry, (pos + n) as usize)), pos + n),
{
    let grown = entries.push((entry, (pos + n) as usize));
    let segment = bytes.subrange(pos, pos + n);
    assert(bytes.skip(pos).take(n) =~= segment);
    lemma_log_append(bytes.take(pos), segment, entry@);
    assert(bytes.take(pos) + segment =~= bytes.take(pos + n));
    assert(bytes.skip(pos).skip(n) =~= bytes.skip(pos + n));
    let before = entry_records(entries);
    let after = entry_records(grown);
    assert(after =~= before.push((entry@, n as nat))) by {
        assert forall|i: int| 0 <= i < entries.len() implies entry_start(grown, i) == entry_start(
            entries,
            i,
        ) && grown[i] == entries[i] by {}
    }
    match log_records(bytes.skip(pos + n)) {
        Some(more) => {
            assert(before + (seq![(entry@, n as nat)] + more) =~= after + more);
        },
        None => {},
    }
    assert forall|i: int| 0 <= i < grown.len() implies {
        &&& entry_start(grown, i) < (#[trigger] grown[i]).1 <= bytes.len()
        &&& is_record(bytes.subrange(entry_start(grown, i), grown[i].1 as int), grown[i].0@)
    } by {
        if i < entries.len() {
            assert(grown[i] == entries[i]);
            assert(entry_start(grown, i) == entry_start(entries, i));
        }
    }
}

/// What is decoded up to the end of the bytes is the decoding of the bytes.
proof fn lemma_decoding_ends(bytes: Seq<u8>, entries: Seq<(LogEntry, usize)>)
    requires
        is_decoding_to(bytes, entries, bytes.len() as int),
    ensures
        is_decoding(bytes, entries),
{
    let pos = bytes.len() as int;
    assert(bytes.take(pos) =~= bytes);
    assert(bytes.skip(pos).len() == 0);
    assert(entry_records(entries) + Seq::<(Record, nat)>::empty() =~= entry_records(entries));
}

/// Bytes in which no record follows the decoded ones are no log.
proof fn lemma_decoding_fails(bytes: Seq<u8>, entries: Seq<(LogEntry, usize)>, pos: int)
    requires
        is_decoding_to(bytes, entries, pos),
        pos < bytes.len(),
        first_record(bytes.skip(pos)) is None,
    ensures
        log_records(bytes) is None,
{
}

/// Reads a whole log: its records in order, each with the offset just past
/// it.
///
/// Succeeds exactly where `bytes` is a sequence of records with nothing
/// between or behind them, and fails with `Serde` otherwise.
pub fn decode_stream(bytes: &[u8]) -> (r: Result<Vec<(LogEntry, usize)>, StoreError>)
    ensures
        r is Ok <==> log_records(bytes@) is Some,
        r matches Ok(entries) ==> is_decoding(bytes@, entries@),
        r matches Err(e) ==> e is Serde,
{
    let mut entries: Vec<(LogEntry, usize)> = Vec::new();
    let mut pos: usize = 0;
    proof {
        lemma_decoding_starts(bytes@);
    }
    while pos < bytes.len()
        invariant
            is_decoding_to(bytes@, entries@, pos as int),
        decreases bytes@.len() - pos,
    {
        let rest = slice_subrange(bytes, pos, bytes.len());
        assert(rest@ == bytes@.skip(pos as int));
        match decode_entry(rest) {
            Ok((entry, n)) => {
                proof {
                    lemma_decoding_step(bytes@, entries@, pos as int, entry, n as int);
                }
                entries.push((entry, pos + n));
                pos = pos + n;
            },
            Err(e) => {
                proof {
                    lemma_decoding_fails(bytes@, entries@, pos as int);
                }
                return Err(e);
            },
        }
    }
    proof {
        lemma_decoding_ends(bytes@, entries@);
    }
    Ok(entries)
}

} // verus!
