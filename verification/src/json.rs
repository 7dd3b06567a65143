//! JSON values as `serde_json` holds them: this library carries them, names
//! the documents they come from, and names their pretty text.

use vstd::prelude::*;

verus! {

/// `serde_json::Value`, carried through unchanged.
#[verifier::external_type_specification]
#[verifier::external_body]
pub struct ExJsonValue(serde_json::Value);

/// Whether `serde_json` accepts `text` as one JSON document.
pub uninterp spec fn json_accepts(text: Seq<char>) -> bool;

/// The value that `serde_json` builds from `text` (where it accepts it).
pub uninterp spec fn json_value(text: Seq<char>) -> serde_json::Value;

/// The text that `serde_json::to_string_pretty` writes for `v`.
pub uninterp spec fn pretty_text(v: serde_json::Value) -> Seq<char>;

/// Calls `serde_json::from_str::<serde_json::Value>`. It succeeds exactly when
/// `json_accepts(text)`, and then gives `json_value(text)`.
#[verifier::external_body]
pub(crate) fn parse_json(text: &str) -> (r: Option<serde_json::Value>)
    ensures
        r is Some <==> json_accepts(text@),
        r matches Some(v) ==> v == json_value(text@),
{
    serde_json::from_str::<serde_json::Value>(text).ok()
}

/// Calls `serde_json::to_string_pretty` on a value: `pretty_text(v)`. (It
/// cannot fail on a `serde_json::Value`; the empty string stands for the
/// failure that does not occur.)
#[verifier::external_body]
pub(crate) fn json_pretty(v: &serde_json::Value) -> (r: String)
    ensures
        r@ == pretty_text(*v),
{
    match serde_json::to_string_pretty(v) {
        Ok(s) => s,
        Err(_) => String::new(),
    }
}

} // verus!
