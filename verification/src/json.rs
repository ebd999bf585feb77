//! What the library asks of a JSON text, answered by `serde_json`.
use vstd::prelude::*;
use vstd::utf8::{decode_utf8, valid_utf8};

use crate::config::optional_chars;

verus! {

/// The members of the JSON object that the text is, in the order in which the parser
/// keeps them: each key, with its value where that is a boolean. `None` where the
/// text is no JSON, or JSON but no object.
pub uninterp spec fn json_object(json: Seq<u8>) -> Option<Seq<(Seq<char>, Option<bool>)>>;

/// Members of an object, with their keys as sequences.
pub open spec fn member_views(members: Seq<(String, Option<bool>)>) -> Seq<
    (Seq<char>, Option<bool>),
> {
    Seq::new(members.len(), |i: int| (members[i].0@, members[i].1))
}

/// Parses with `serde_json::from_slice`, and tells an object's members by
/// `Value::as_object` and boolean values by `Value::as_bool`. The contract claims only
/// that the outcome depends on the text alone.
#[verifier::external_body]
pub(crate) fn parse_object(json: &[u8]) -> (r: Option<Vec<(String, Option<bool>)>>)
    ensures
        match r {
            Some(members) => json_object(json@) == Some(member_views(members@)),
            None => json_object(json@) is None,
        },
{
    let value = serde_json::from_slice::<serde_json::Value>(json).ok()?;
    let object = value.as_object()?;
    Some(object.iter().map(|(k, v)| (k.clone(), v.as_bool())).collect())
}

/// The text that bytes are, once what is no UTF-8 among them has been replaced.
pub uninterp spec fn lossy_text(bytes: Seq<u8>) -> Seq<char>;

/// `String::from_utf8_lossy` of std. The contract claims that the outcome depends on the bytes
/// alone, and that bytes that encode a text give that text. What stands in for bytes that
/// encode none is not said here.
#[verifier::external_body]
pub(crate) fn lossy(bytes: &[u8]) -> (r: String)
    ensures
        r@ == lossy_text(bytes@),
        valid_utf8(bytes@) ==> r@ == decode_utf8(bytes@),
{
    String::from_utf8_lossy(bytes).into_owned()
}

/// The fields of the JSON value that a text is: each key of the object, in the order in which
/// the parser keeps them, with the JSON of its value. A value that is no object has no fields.
/// `None` where it is no JSON.
pub uninterp spec fn text_fields(text: Seq<char>) -> Option<Seq<(Seq<char>, Seq<char>)>>;

/// The fields of the JSON value that bytes are, once what is no UTF-8 among them has been
/// replaced.
pub open spec fn json_fields(bytes: Seq<u8>) -> Option<Seq<(Seq<char>, Seq<char>)>> {
    text_fields(lossy_text(bytes))
}

/// Fields of an object, with keys and values as sequences.
pub open spec fn field_views(fields: Seq<(String, String)>) -> Seq<(Seq<char>, Seq<char>)> {
    Seq::new(fields.len(), |i: int| (fields[i].0@, fields[i].1@))
}

/// Fields, if there are any, with keys and values as sequences.
pub open spec fn optional_fields(r: Option<Vec<(String, String)>>) -> Option<
    Seq<(Seq<char>, Seq<char>)>,
> {
    match r {
        Some(fields) => Some(field_views(fields@)),
        None => None,
    }
}

/// Parses with `serde_json::from_str`, tells an object's fields by `Value::as_object`, and
/// writes each value with `Value::to_string`. The contract claims only that the outcome
/// depends on the text alone.
#[verifier::external_body]
pub(crate) fn parse_fields(text: &str) -> (r: Option<Vec<(String, String)>>)
    ensures
        optional_fields(r) == text_fields(text@),
{
    let value = serde_json::from_str::<serde_json::Value>(text).ok()?;
    let fields = value.as_object().into_iter().flatten();
    Some(fields.map(|(k, v)| (k.clone(), v.to_string())).collect())
}

/// The string at the head of the list that an object has under a key. `None` where the text
/// is no JSON, or has no such string.
pub uninterp spec fn json_list_head(json: Seq<char>, key: Seq<char>) -> Option<Seq<char>>;

/// A character that stands for itself inside a JSON string.
pub open spec fn plain(c: char) -> bool {
    c as u32 >= 0x20 && c != '"' && c != '\\'
}

/// Text that stands for itself inside a JSON string.
pub open spec fn plain_text(s: Seq<char>) -> bool {
    forall|i: int| 0 <= i < s.len() ==> plain(#[trigger] s[i])
}

/// The JSON of an object with one member, a list of one string, none of which needs
/// escapes.
pub open spec fn one_item_list(key: Seq<char>, item: Seq<char>) -> Seq<char> {
    "{\""@ + key + "\":[\""@ + item + "\"]}"@
}

/// Parses with `serde_json::from_str`, and looks into the outcome with `Value::get`, by key
/// and by index, and `Value::as_str`. The contract claims that the outcome depends on the
/// text and the key alone, and that an object of one list of one string is read back where
/// neither the key nor the string needs escapes.
#[verifier::external_body]
pub(crate) fn list_head(json: &str, key: &str) -> (r: Option<String>)
    ensures
        optional_chars(r) == json_list_head(json@, key@),
        forall|item: Seq<char>|
            json@ == #[trigger] one_item_list(key@, item) && plain_text(key@) && plain_text(item)
                ==> optional_chars(r) == Some(item),
{
    let value = serde_json::from_str::<serde_json::Value>(json).ok()?;
    let item = value.get(key)?.get(0)?.as_str()?;
    Some(item.to_string())
}

} // verus!
