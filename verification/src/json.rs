//! The text form of a search result.

use vstd::prelude::*;

verus! {

/// The compact JSON text of an object with two members: the string `text`
/// under the key `text_key`, and the number `number` under the key
/// `number_key`.
pub uninterp spec fn json_record(
    text_key: Seq<char>,
    text: Seq<char>,
    number_key: Seq<char>,
    number: u64,
) -> Seq<char>;

/// Renders an object with a string member and a number member as compact
/// JSON text.
///
/// Trusted: the body builds a `serde_json::Map` with `Map::insert`, wraps it
/// in `serde_json::Value::Object` and renders it through the `Display` impl of
/// `serde_json::Value` (`to_string`). That text depends on nothing but the
/// four arguments, which is all the contract claims: it gives the text its
/// name.
#[verifier::external_body]
pub(crate) fn render_record(text_key: &str, text: &str, number_key: &str, number: u64) -> (out:
    String)
    ensures
        out@ == json_record(text_key@, text@, number_key@, number),
{
    let mut members = serde_json::Map::new();
    members.insert(text_key.to_owned(), serde_json::Value::String(text.to_owned()));
    members.insert(number_key.to_owned(), serde_json::Value::from(number));
    serde_json::Value::Object(members).to_string()
}

} // verus!
