//! The element parser: `serde_json`, asked where one JSON value ends.
//!
//! Nothing here is proved. The contract below is what the rest of the library
//! believes of `serde_json`.

use vstd::prelude::*;

verus! {

/// What `serde_json` answers when it is asked to read one raw JSON value from
/// the front of `input`: the number of bytes up to the end of that value,
/// whitespace before it included, or `None` where it finds no valid value.
pub uninterp spec fn json_value_end(input: Seq<u8>) -> Option<usize>;

/// Asks `serde_json` for the first value of `input`: a stream deserializer
/// over the slice (`Deserializer::from_slice(..).into_iter()`) reads one
/// `RawValue` with `next()`, and `byte_offset()` then tells where that value
/// ended. Any failure of `next()`, and an input without a value, gives `None`.
///
/// The contract claims only that the answer is a function of the bytes.
#[verifier::external_body]
pub(crate) fn parse_value_end(input: &[u8]) -> (end: Option<usize>)
    ensures
        end == json_value_end(input@),
{
    let mut values =
        serde_json::Deserializer::from_slice(input).into_iter::<&serde_json::value::RawValue>();
    match values.next() {
        Some(Ok(_)) => Some(values.byte_offset()),
        _ => None,
    }
}

} // verus!
