//! JSON strings, as `serde_json` writes and reads them.
//!
//! The log stores keys and values as JSON string literals. Writing and
//! reading those literals is left to `serde_json`; this module holds the
//! calls and says what the rest of the crate relies on. Nothing here is
//! proved: these contracts are taken from the behaviour of `serde_json`.

use vstd::prelude::*;

verus! {

/// The bytes that `serde_json::to_vec` produces for the string `s`: its JSON
/// string literal, quotes included.
pub uninterp spec fn json_text(s: Seq<char>) -> Seq<u8>;

/// What a `serde_json` stream deserializer reading `bytes` yields when asked
/// for one `String`: the string and the number of bytes consumed for it, or
/// `None` where it reports an error or finds no value.
pub uninterp spec fn json_string_prefix(bytes: Seq<u8>) -> Option<(Seq<char>, nat)>;

/// `literal` is read back as the string `s`, in full and whatever follows it.
#[verifier::opaque]
pub open spec fn reads_as(literal: Seq<u8>, s: Seq<char>) -> bool {
    forall|rest: Seq<u8>| #[trigger]
        json_string_prefix(literal + rest) == Some((s, literal.len()))
}

/// The error type of `serde_json`.
#[verifier::external_type_specification]
#[verifier::external_body]
pub struct ExJsonError(serde_json::Error);

/// Calls `serde_json::to_vec` on a string slice.
///
/// Claims that the call succeeds (the serializer fails only where the value
/// or the writer does, and neither a string slice nor a byte vector can),
/// that it yields the literal named [`json_text`], and that `serde_json`
/// reads this literal back as the same string without looking past its
/// closing quote.
#[verifier::external_body]
pub(crate) fn write_json_string(s: &str) -> (r: Result<Vec<u8>, serde_json::Error>)
    ensures
        r is Ok,
        r matches Ok(text) ==> text@ == json_text(s@) && reads_as(text@, s@),
{
    serde_json::to_vec(s)
}

/// Asks a `serde_json` stream deserializer over `bytes` for one `String` and
/// returns it with the deserializer's byte offset after it.
///
/// Claims that the outcome is the one named [`json_string_prefix`], that the
/// offset lies within `bytes`, and that the string was read from the bytes
/// before the offset alone: the same bytes followed by anything else are
/// read as the same string.
#[verifier::external_body]
pub(crate) fn read_json_string(bytes: &[u8]) -> (r: Option<Result<(String, usize), serde_json::Error>>)
    ensures
        match r {
            Some(Ok((s, n))) => {
                &&& json_string_prefix(bytes@) == Some((s@, n as nat))
                &&& n <= bytes@.len()
                &&& reads_as(bytes@.subrange(0, n as int), s@)
            },
            _ => json_string_prefix(bytes@) is None,
        },
{
    let mut stream = serde_json::Deserializer::from_slice(bytes).into_iter::<String>();
    match stream.next() {
        Some(Ok(s)) => Some(Ok((s, stream.byte_offset()))),
        Some(Err(e)) => Some(Err(e)),
        None => None,
    }
}

/// Calls `to_string` on a `serde_json` error: its message, with the line and
/// column where parsing stopped. Nothing is claimed of the text.
#[verifier::external_body]
pub(crate) fn json_error_text(e: &serde_json::Error) -> String {
    e.to_string()
}

} // verus!
