//! JSON text, read with `serde_json`.
//!
//! A place in a text is named by a pointer: the keys and indices that lead to it, each behind a
//! slash. What is read at a place depends on the text and the pointer alone.

use crate::text;
use vstd::prelude::*;

verus! {

/// Why a text is no JSON, if it is none.
pub uninterp spec fn json_fault(body: Seq<char>) -> Option<Seq<char>>;

/// The string at a place of a JSON text, if there is one.
pub uninterp spec fn json_text(body: Seq<char>, pointer: Seq<char>) -> Option<Seq<char>>;

/// The number at a place of a JSON text, if there is one: its bits as a binary floating point
/// number of 64 bits.
pub uninterp spec fn json_number(body: Seq<char>, pointer: Seq<char>) -> Option<u64>;

/// How many items the array at a place of a JSON text has, if there is one.
pub uninterp spec fn json_count(body: Seq<char>, pointer: Seq<char>) -> Option<usize>;

/// Tries to read a text with `serde_json::from_str`, and says why it could not be read.
#[verifier::external_body]
pub(crate) fn fault_of(body: &str) -> (r: Option<String>)
    ensures
        text::opt(r) == json_fault(body@),
{
    serde_json::from_str::<serde_json::Value>(body).err().map(|e| e.to_string())
}

/// Reads a text with `serde_json::from_str`, and the string at a place with
/// `serde_json::Value::pointer` and `as_str`. A text that is no JSON has none.
#[verifier::external_body]
pub(crate) fn text_at(body: &str, pointer: &str) -> (r: Option<String>)
    ensures
        text::opt(r) == json_text(body@, pointer@),
{
    let value: serde_json::Value = serde_json::from_str(body).ok()?;
    value.pointer(pointer)?.as_str().map(|s| s.to_string())
}

/// Reads a text with `serde_json::from_str`, and the number at a place with
/// `serde_json::Value::pointer` and `as_f64`, as its bits. A text that is no JSON has none.
#[verifier::external_body]
pub(crate) fn number_at(body: &str, pointer: &str) -> (r: Option<u64>)
    ensures
        r == json_number(body@, pointer@),
{
    let value: serde_json::Value = serde_json::from_str(body).ok()?;
    value.pointer(pointer)?.as_f64().map(|x| x.to_bits())
}

/// Reads a text with `serde_json::from_str`, and the length of the array at a place with
/// `serde_json::Value::pointer` and `as_array`. A text that is no JSON has none.
#[verifier::external_body]
pub(crate) fn count_at(body: &str, pointer: &str) -> (r: Option<usize>)
    ensures
        r == json_count(body@, pointer@),
{
    let value: serde_json::Value = serde_json::from_str(body).ok()?;
    value.pointer(pointer)?.as_array().map(|a| a.len())
}

} // verus!
