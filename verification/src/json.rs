//! Looking things up in JSON texts.
use vstd::prelude::*;

use crate::text::opt_text;

verus! {

/// The text is a JSON document.
pub uninterp spec fn json_document(text: Seq<char>) -> bool;

/// The string at a place, given by a JSON pointer, of the JSON document
/// `text`. `None` where `text` is no document, or has no string there.
pub uninterp spec fn json_string(text: Seq<char>, pointer: Seq<char>) -> Option<Seq<char>>;

/// The 64-bit integer at a place of the JSON document `text`, likewise.
pub uninterp spec fn json_integer(text: Seq<char>, pointer: Seq<char>) -> Option<i64>;

/// The number at a place of the JSON document `text`, as the bit pattern of a
/// double, likewise.
pub uninterp spec fn json_double(text: Seq<char>, pointer: Seq<char>) -> Option<u64>;

/// The truth value at a place of the JSON document `text`, likewise.
pub uninterp spec fn json_bool(text: Seq<char>, pointer: Seq<char>) -> Option<bool>;

/// The length of the array at a place of the JSON document `text`, likewise.
pub uninterp spec fn json_length(text: Seq<char>, pointer: Seq<char>) -> Option<usize>;

/// The number of members of the object at a place of the JSON document `text`,
/// likewise.
pub uninterp spec fn json_members(text: Seq<char>, pointer: Seq<char>) -> Option<usize>;

/// Members can be set at a place of the JSON document `text`: an object stands
/// there, or null, or nothing. Never so where `text` is no document.
pub uninterp spec fn json_open(text: Seq<char>, pointer: Seq<char>) -> bool;

/// The JSON document `text`, laid out for reading, with two members set in the
/// member `object` of its root: one to a truth value and one to a number. An
/// object that is not there is made.
pub uninterp spec fn json_written(
    text: Seq<char>,
    object: Seq<char>,
    flag_name: Seq<char>,
    flag: bool,
    number_name: Seq<char>,
    number: u32,
) -> Option<Seq<char>>;

/// The name of a member that stands for itself in a JSON pointer.
pub open spec fn plain_member(name: Seq<char>) -> bool {
    forall|i: int| 0 <= i < name.len() ==> #[trigger] name[i] != '/' && name[i] != '~'
}

/// `serde_json::from_str` to a `serde_json::Value`: whether it succeeds. The
/// result is `json_document`; the grammar of JSON is left to the crate.
#[verifier::external_body]
pub(crate) fn is_json(text: &str) -> (r: bool)
    ensures
        r == json_document(text@),
{
    serde_json::from_str::<serde_json::Value>(text).is_ok()
}

/// `serde_json::Value::pointer` and `as_str`, on what `serde_json::from_str`
/// makes of the text. The result is `json_string`; there is none where the text
/// is no document.
#[verifier::external_body]
pub(crate) fn json_string_at(text: &str, pointer: &str) -> (r: Option<String>)
    ensures
        opt_text(r) == json_string(text@, pointer@),
        r is Some ==> json_document(text@),
{
    let value = serde_json::from_str::<serde_json::Value>(text).ok()?;
    value.pointer(pointer)?.as_str().map(|s| s.to_owned())
}

/// `serde_json::Value::pointer` and `as_i64`, on what `serde_json::from_str`
/// makes of the text. The result is `json_integer`; there is none where the text
/// is no document.
#[verifier::external_body]
pub(crate) fn json_integer_at(text: &str, pointer: &str) -> (r: Option<i64>)
    ensures
        r == json_integer(text@, pointer@),
        r is Some ==> json_document(text@),
{
    let value = serde_json::from_str::<serde_json::Value>(text).ok()?;
    value.pointer(pointer)?.as_i64()
}

/// `serde_json::Value::pointer` and `as_f64`, on what `serde_json::from_str`
/// makes of the text, and the bits of the double. The result is `json_double`;
/// there is none where the text is no document.
#[verifier::external_body]
pub(crate) fn json_double_at(text: &str, pointer: &str) -> (r: Option<u64>)
    ensures
        r == json_double(text@, pointer@),
        r is Some ==> json_document(text@),
{
    let value = serde_json::from_str::<serde_json::Value>(text).ok()?;
    value.pointer(pointer)?.as_f64().map(|d| d.to_bits())
}

/// `serde_json::Value::pointer` and `as_array`, on what `serde_json::from_str`
/// makes of the text, and the length of the array. The result is `json_length`;
/// there is none where the text is no document.
#[verifier::external_body]
pub(crate) fn json_length_at(text: &str, pointer: &str) -> (r: Option<usize>)
    ensures
        r == json_length(text@, pointer@),
        r is Some ==> json_document(text@),
{
    let value = serde_json::from_str::<serde_json::Value>(text).ok()?;
    value.pointer(pointer)?.as_array().map(|a| a.len())
}

/// `serde_json::Value::pointer` and `as_bool`, on what `serde_json::from_str`
/// makes of the text. The result is `json_bool`; there is none where the text is
/// no document.
#[verifier::external_body]
pub(crate) fn json_bool_at(text: &str, pointer: &str) -> (r: Option<bool>)
    ensures
        r == json_bool(text@, pointer@),
        r is Some ==> json_document(text@),
{
    let value = serde_json::from_str::<serde_json::Value>(text).ok()?;
    value.pointer(pointer)?.as_bool()
}

/// `serde_json::Value::pointer` and `as_object`, on what `serde_json::from_str`
/// makes of the text, and the number of members. The result is `json_members`;
/// there is none where the text is no document.
#[verifier::external_body]
pub(crate) fn json_members_at(text: &str, pointer: &str) -> (r: Option<usize>)
    ensures
        r == json_members(text@, pointer@),
        r is Some ==> json_document(text@),
{
    let value = serde_json::from_str::<serde_json::Value>(text).ok()?;
    value.pointer(pointer)?.as_object().map(|m| m.len())
}

/// `serde_json::Value::pointer`, on what `serde_json::from_str` makes of the
/// text: whether the place holds an object, null or nothing. The result is
/// `json_open`, and false where the text is no document.
#[verifier::external_body]
pub(crate) fn json_open_at(text: &str, pointer: &str) -> (r: bool)
    ensures
        r == json_open(text@, pointer@),
        r ==> json_document(text@),
{
    match serde_json::from_str::<serde_json::Value>(text) {
        Ok(value) => match value.pointer(pointer) {
            Some(serde_json::Value::Object(_)) => true,
            Some(serde_json::Value::Null) => true,
            Some(_) => false,
            None => true,
        },
        Err(_) => false,
    }
}

/// `serde_json::from_str`, `serde_json::Value`'s `[..]` to set the two members,
/// and `serde_json::to_string_pretty`. The result is `json_written`. That it can be
/// read again is left unsaid: members are printed in the order of their names, and
/// one with the name that the crate keeps for raw JSON is read otherwise where it
/// comes first.
#[verifier::external_body]
pub(crate) fn json_write(
    text: &str,
    object: &str,
    flag_name: &str,
    flag: bool,
    number_name: &str,
    number: u32,
) -> (r: Option<String>)
    requires
        json_open(text@, ""@),
        json_open(text@, "/"@ + object@),
        plain_member(object@),
    ensures
        opt_text(r) == json_written(text@, object@, flag_name@, flag, number_name@, number),
{
    let mut value = serde_json::from_str::<serde_json::Value>(text).ok()?;
    value[object][flag_name] = serde_json::Value::from(flag);
    value[object][number_name] = serde_json::Value::from(number);
    serde_json::to_string_pretty(&value).ok()
}

} // verus!
