//! JSON string literals as serde_json writes them, and the string fields
//! it reads from a record.
use vstd::prelude::*;

verus! {

/// The JSON string literal serde_json writes for a text: the text in
/// double quotes, with quotes, backslashes and control characters escaped.
pub uninterp spec fn json_quoted(s: Seq<char>) -> Seq<char>;

/// `serde_json::to_string` on a `&str`: its JSON string literal. Writing
/// a string cannot fail.
#[verifier::external_body]
pub(crate) fn quote_json(s: &str) -> (r: String)
    ensures
        r@ == json_quoted(s@),
{
    serde_json::to_string(s).unwrap_or_default()
}

/// What serde_json reads from a record's text: nothing where the text is
/// not JSON; else, for each key in turn, the string the top-level value
/// holds under that key, or none where it holds no string there.
pub uninterp spec fn json_string_fields(text: Seq<char>, keys: Seq<Seq<char>>) -> Option<Seq<Option<Seq<char>>>>;

pub open spec fn texts_of(v: Seq<Option<String>>) -> Seq<Option<Seq<char>>> {
    v.map_values(|o: Option<String>| match o { Some(s) => Some(s@), None => None })
}

/// `serde_json::from_str` into a `Value`, then `value[key].as_str()` for
/// each key: the string fields of a record, one per key.
#[verifier::external_body]
pub(crate) fn string_fields(text: &str, keys: &[&str]) -> (r: Option<Vec<Option<String>>>)
    ensures
        match r {
            None => json_string_fields(text@, keys@.map_values(|k: &str| k@)) is None,
            Some(v) => json_string_fields(text@, keys@.map_values(|k: &str| k@)) == Some(texts_of(v@))
                && v@.len() == keys@.len(),
        },
{
    let value: serde_json::Value = serde_json::from_str(text).ok()?;
    Some(keys.iter().map(|k| value[*k].as_str().map(|s| s.to_string())).collect())
}

} // verus!
