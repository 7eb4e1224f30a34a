//! Decoding of JSON string literals, done by `serde_json`.

use vstd::prelude::*;

verus! {

/// The string that `serde_json::from_str::<String>` reads from `text`, or
/// `None` where it reports an error. What it reads is a matter of JSON and
/// of `serde_json`; this library only hands the text over.
pub uninterp spec fn json_string_value(text: Seq<char>) -> Option<Seq<char>>;

/// The characters of an optional string.
pub open spec fn text_of(s: Option<String>) -> Option<Seq<char>> {
    match s {
        Some(s) => Some(s@),
        None => None,
    }
}

/// Calls `serde_json::from_str::<String>` on `text` and drops the error.
/// Trusted: the result is what `json_string_value` names for `text`; the
/// call reads nothing but its argument.
#[verifier::external_body]
pub(crate) fn decode_json_string(text: &str) -> (r: Option<String>)
    ensures
        text_of(r) == json_string_value(text@),
{
    serde_json::from_str::<String>(text).ok()
}

} // verus!
