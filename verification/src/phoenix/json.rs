//! JSON values of `serde_json`, carried through and looked into.

use vstd::prelude::*;

use crate::state::keyed;
use crate::state::text::Chars;
use crate::state::value;
use crate::state::value::{Json, Number};

verus! {

/// `serde_json::Value`, carried through as it is.
#[verifier::external_type_specification]
#[verifier::external_body]
pub struct ExJsonValue(serde_json::Value);

/// `serde_json::Error`, of which nothing is claimed.
#[verifier::external_type_specification]
#[verifier::external_body]
pub struct ExJsonError(serde_json::Error);

/// What a `serde_json::Value` holds. An object's keys stand in order, each once;
/// a float stands as its bits.
pub uninterp spec fn document(value: serde_json::Value) -> Json;

/// What a list of values holds.
pub open spec fn documents(list: Seq<serde_json::Value>) -> Seq<Json> {
    Seq::new(list.len(), |i: int| document(list[i]))
}

/// A clone of a `serde_json::Value` holds what the value holds.
pub assume_specification[ <serde_json::Value as std::clone::Clone>::clone ](
    v: &serde_json::Value,
) -> (same: serde_json::Value)
    ensures
        document(same) == document(*v),
;

/// `serde_json::Value::default` is `null`.
#[verifier::external_body]
pub(crate) fn null() -> (value: serde_json::Value)
    ensures
        document(value) == Json::Null,
{
    serde_json::Value::default()
}

/// `serde_json::Map::new`, as a value, is the object without members.
#[verifier::external_body]
pub(crate) fn empty_object() -> (value: serde_json::Value)
    ensures
        document(value) == Json::Object(Seq::empty()),
{
    serde_json::Value::Object(serde_json::Map::new())
}

/// `serde_json::Value::as_str` is the text of a string, and nothing otherwise.
#[verifier::external_body]
pub(crate) fn as_text(value: &serde_json::Value) -> (text: Option<&str>)
    ensures
        match text {
            Some(found) => document(*value) == Json::Text(found@),
            None => !(document(*value) is Text),
        },
{
    value.as_str()
}

/// `serde_json::Value::is_null`.
#[verifier::external_body]
pub(crate) fn is_null(value: &serde_json::Value) -> (yes: bool)
    ensures
        yes == (document(*value) == Json::Null),
{
    value.is_null()
}

/// `serde_json::Value::as_array` is the elements of an array, and nothing
/// otherwise.
#[verifier::external_body]
pub(crate) fn as_list(value: &serde_json::Value) -> (list: Option<&Vec<serde_json::Value>>)
    ensures
        match list {
            Some(found) => document(*value) == Json::Array(documents(found@)),
            None => !(document(*value) is Array),
        },
{
    value.as_array()
}

/// `serde_json::Value::get` with a string is the member of an object under that
/// key; nothing where the object has none, or the value is no object.
#[verifier::external_body]
pub(crate) fn member<'a>(value: &'a serde_json::Value, key: &str) -> (found: Option<
    &'a serde_json::Value,
>)
    ensures
        match found {
            Some(inner) => (document(*value) matches Json::Object(fields) && keyed::lookup(
                fields,
                key@,
            ) == Some(document(*inner))),
            None => (document(*value) matches Json::Object(fields) ==> keyed::lookup(
                fields,
                key@,
            ) is None),
        },
{
    value.get(key)
}

/// `serde_json::Map::len`: how many members an object has; nothing where the
/// value is no object.
#[verifier::external_body]
pub(crate) fn member_count(value: &serde_json::Value) -> (count: Option<usize>)
    ensures
        match count {
            Some(n) => (document(*value) matches Json::Object(fields) && fields.len() == n),
            None => !(document(*value) is Object),
        },
{
    match value {
        serde_json::Value::Object(fields) => Some(fields.len()),
        _ => None,
    }
}

/// A document whose text is read back as the same document, nesting aside: its
/// objects are in order, and it holds no float, whose text may be read back as
/// a neighbouring float.
pub open spec fn exact(v: Json) -> bool
    decreases v,
{
    match v {
        Json::Number(number) => match number {
            Number::PosInt(_) => true,
            Number::NegInt(n) => n < 0,
            Number::Float(_) => false,
        },
        Json::Array(items) => forall|i: int| 0 <= i < items.len() ==> exact(#[trigger] items[i]),
        Json::Object(fields) => keyed::sorted(fields) && forall|i: int|
            0 <= i < fields.len() ==> exact((#[trigger] fields[i]).1),
        _ => true,
    }
}

/// How deep a payload may nest to be read back: the tuple around it takes one of
/// the levels that a text may nest.
pub const MAX_PAYLOAD_NESTING: usize = 126;

/// A five-tuple as contracts see it: the two refs, the topic, the event and the
/// payload.
#[verifier::ext_equal]
pub struct Letter {
    pub join_ref: Option<Chars>,
    pub msg_ref: Option<Chars>,
    pub topic: Chars,
    pub event: Chars,
    pub payload: Json,
}

/// An optional text as contracts see it.
pub open spec fn maybe(text: Option<String>) -> Option<Chars> {
    match text {
        Some(held) => Some(held@),
        None => None,
    }
}

/// The parts of a five-tuple as contracts see them.
pub open spec fn letter(
    parts: (Option<String>, Option<String>, String, String, serde_json::Value),
) -> Letter {
    Letter {
        join_ref: maybe(parts.0),
        msg_ref: maybe(parts.1),
        topic: parts.2@,
        event: parts.3@,
        payload: document(parts.4),
    }
}

/// The text `serde_json::to_string` gives a five-tuple.
pub uninterp spec fn tuple_text(letter: Letter) -> Chars;

/// The five-tuple `serde_json::from_str` reads from a text, if it is one.
pub uninterp spec fn tuple_read(text: Chars) -> Option<Letter>;

/// What was read from a text is what was written, wherever the text is that of a
/// five-tuple whose payload holds no float and nests within the reader's limit.
pub open spec fn read_back(
    text: Chars,
    read: Result<
        (Option<String>, Option<String>, String, String, serde_json::Value),
        serde_json::Error,
    >,
) -> bool {
    forall|sent: Letter|
        #![trigger tuple_text(sent)]
        tuple_text(sent) == text && exact(sent.payload) && value::nesting(sent.payload)
            <= MAX_PAYLOAD_NESTING ==> (read matches Ok(parts) && letter(parts) == sent)
}

/// Whether the first character that is no white space opens a list.
pub open spec fn opens_list(text: Chars) -> bool
    decreases text.len(),
{
    if text.len() == 0 {
        false
    } else if text[0] == ' ' || text[0] == '\n' || text[0] == '\t' || text[0] == '\r' {
        opens_list(text.drop_first())
    } else {
        text[0] == '['
    }
}

/// How many commas a text has.
pub open spec fn commas(text: Chars) -> nat
    decreases text.len(),
{
    if text.len() == 0 {
        0
    } else {
        commas(text.drop_first()) + (if text[0] == ',' {
            1nat
        } else {
            0nat
        })
    }
}

/// What every text has that is read as a five-tuple: it opens a list, and has the
/// commas between five elements.
pub open spec fn tuple_like(text: Chars) -> bool {
    opens_list(text) && commas(text) >= 4
}

/// `serde_json::to_string` on a five-tuple. It fails on none: every part has a
/// JSON form.
#[verifier::external_body]
pub(crate) fn write_tuple(
    join_ref: &Option<String>,
    msg_ref: &Option<String>,
    topic: &String,
    event: &String,
    payload: &serde_json::Value,
) -> (text: String)
    ensures
        text@ == tuple_text(
            (Letter {
                join_ref: maybe(*join_ref),
                msg_ref: maybe(*msg_ref),
                topic: topic@,
                event: event@,
                payload: document(*payload),
            }),
        ),
{
    let tuple = (join_ref, msg_ref, topic, event, payload);
    serde_json::to_string(&tuple).expect("a five-tuple has a JSON form")
}

/// `serde_json::from_str` on a text, as a five-tuple of two optional strings, two
/// strings and a value. A text that opens no list, or has not the commas between
/// five elements, is refused. What `serde_json::to_string` wrote is read back as it
/// was, where the payload holds no float and nests within the reader's limit.
#[verifier::external_body]
pub(crate) fn read_tuple(text: &str) -> (read: Result<
    (Option<String>, Option<String>, String, String, serde_json::Value),
    serde_json::Error,
>)
    ensures
        match read {
            Ok(parts) => tuple_read(text@) == Some(letter(parts)),
            Err(_) => tuple_read(text@) is None,
        },
        read is Ok ==> tuple_like(text@),
        read_back(text@, read),
{
    serde_json::from_str(text)
}

} // verus!
