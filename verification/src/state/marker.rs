//! The marker rules: which objects are nodes of their own.
//!
//! A state field cannot be named like a marker, so a value that merely looks
//! like one can only be data, and the rules below keep it from being eaten.

use vstd::prelude::*;

use crate::state::keyed;
use crate::state::node::AsyncStatus;
use crate::state::text;
use crate::state::text::Chars;
use crate::state::value;
use crate::state::value::{Json, Number, Object, JsonValue};
use crate::state::wire::{Path, StoreId};

verus! {

/// The wire key marking a store node.
pub const STORE_ID_KEY: &'static str = "__musubi_store_id__";

/// The wire key marking a stream slot.
pub const STREAM_MARKER_KEY: &'static str = "__musubi_stream__";

/// The wire key marking an upload slot.
pub const UPLOAD_MARKER_KEY: &'static str = "__musubi_upload__";

/// The wire key discriminating an async node.
pub const ASYNC_MARKER_KEY: &'static str = "__musubi_async__";

/// The key an async node's status is rendered under.
pub const ASYNC_STATUS_KEY: &'static str = "status";

/// The key an async node's result is rendered under.
pub const ASYNC_RESULT_KEY: &'static str = "result";

/// The key an async node's reason is rendered under.
pub const ASYNC_REASON_KEY: &'static str = "reason";

/// What an incoming value is, once the markers have been read.
#[derive(Debug)]
pub enum Shape<'a> {
    Null,
    Bool(bool),
    Number(Number),
    String(&'a String),
    Array(&'a Vec<JsonValue>),
    Object(&'a Object),
    Store { store_id: StoreId, fields: &'a Object },
    Collection { name: &'a String },
    Async { status: AsyncStatus, result: Option<&'a JsonValue>, reason: Option<&'a JsonValue> },
    UploadSlot { name: &'a String },
}

/// A [`Shape`] as contracts see it.
pub enum Form {
    Null,
    Bool(bool),
    Number(Number),
    Text(Chars),
    Array(Seq<Json>),
    Object(Seq<(Chars, Json)>),
    Store { id: Path, fields: Seq<(Chars, Json)> },
    Collection { name: Chars },
    Async { status: AsyncStatus, result: Json, reason: Json },
    Upload { name: Chars },
}

/// An optional value, `null` where it is absent.
pub open spec fn or_null(v: Option<Json>) -> Json {
    match v {
        Some(found) => found,
        None => Json::Null,
    }
}

impl<'a> View for Shape<'a> {
    type V = Form;

    open spec fn view(&self) -> Form {
        match self {
            Shape::Null => Form::Null,
            Shape::Bool(flag) => Form::Bool(*flag),
            Shape::Number(number) => Form::Number(*number),
            Shape::String(text) => Form::Text(text@),
            Shape::Array(items) => Form::Array(value::values_view(items@)),
            Shape::Object(fields) => Form::Object(fields@),
            Shape::Store { store_id, fields } => Form::Store { id: store_id@, fields: fields@ },
            Shape::Collection { name } => Form::Collection { name: name@ },
            Shape::Async { status, result, reason } => Form::Async {
                status: *status,
                result: match result {
                    Some(found) => found@,
                    None => Json::Null,
                },
                reason: match reason {
                    Some(found) => found@,
                    None => Json::Null,
                },
            },
            Shape::UploadSlot { name } => Form::Upload { name: name@ },
        }
    }
}

/// The name a marker carries: the text of an object whose only key is `key`.
pub open spec fn sole_marker(fields: Seq<(Chars, Json)>, key: Chars) -> Option<Chars> {
    if fields.len() == 1 && fields[0].0 == key {
        match fields[0].1 {
            Json::Text(name) => Some(name),
            _ => None,
        }
    } else {
        None
    }
}

/// The status of an async object: its discriminator is `true` and its status is
/// a known one.
pub open spec fn async_status_of(fields: Seq<(Chars, Json)>) -> Option<AsyncStatus> {
    if keyed::lookup(fields, ASYNC_MARKER_KEY@) == Some(Json::Bool(true)) {
        match keyed::lookup(fields, ASYNC_STATUS_KEY@) {
            Some(Json::Text(status)) => AsyncStatus::wire_meaning(status),
            _ => None,
        }
    } else {
        None
    }
}

/// The path a store marker spells: an array of strings, and nothing else.
pub open spec fn store_path(v: Json) -> Option<Path> {
    match v {
        Json::Array(items) => if forall|i: int|
            0 <= i < items.len() ==> (#[trigger] items[i]) is Text {
            Some(Seq::new(items.len(), |i: int| items[i]->Text_0))
        } else {
            None
        },
        _ => None,
    }
}

/// The document a path is rendered as.
pub open spec fn path_json(path: Path) -> Json {
    Json::Array(Seq::new(path.len(), |i: int| Json::Text(path[i])))
}

/// What an object is: a stream slot, an upload slot, an async node, a store, or
/// plain data, in that order of precedence.
pub open spec fn object_form(fields: Seq<(Chars, Json)>) -> Form {
    if sole_marker(fields, STREAM_MARKER_KEY@) is Some {
        Form::Collection { name: sole_marker(fields, STREAM_MARKER_KEY@)->0 }
    } else if sole_marker(fields, UPLOAD_MARKER_KEY@) is Some {
        Form::Upload { name: sole_marker(fields, UPLOAD_MARKER_KEY@)->0 }
    } else if async_status_of(fields) is Some {
        Form::Async {
            status: async_status_of(fields)->0,
            result: or_null(keyed::lookup(fields, ASYNC_RESULT_KEY@)),
            reason: or_null(keyed::lookup(fields, ASYNC_REASON_KEY@)),
        }
    } else if keyed::lookup(fields, STORE_ID_KEY@) is Some && store_path(
        keyed::lookup(fields, STORE_ID_KEY@)->0,
    ) is Some {
        Form::Store { id: store_path(keyed::lookup(fields, STORE_ID_KEY@)->0)->0, fields }
    } else {
        Form::Object(fields)
    }
}

/// What a value is.
pub open spec fn form_of(v: Json) -> Form {
    match v {
        Json::Null => Form::Null,
        Json::Bool(flag) => Form::Bool(flag),
        Json::Number(number) => Form::Number(number),
        Json::Text(text) => Form::Text(text),
        Json::Array(items) => Form::Array(items),
        Json::Object(fields) => object_form(fields),
    }
}

/// Classifies one incoming wire value.
pub fn classify<'a>(value: &'a JsonValue) -> (shape: Shape<'a>)
    ensures
        shape@ == form_of(value@),
        match shape {
            Shape::Array(items) => *value == JsonValue::Array(*items),
            Shape::Object(fields) => *value == JsonValue::Object(*fields),
            Shape::Store { fields, .. } => *value == JsonValue::Object(*fields),
            Shape::Async { .. } => value is Object,
            _ => true,
        },
{
    broadcast use value::value_views;

    match value {
        JsonValue::Null => Shape::Null,
        JsonValue::Bool(flag) => Shape::Bool(*flag),
        JsonValue::Number(number) => Shape::Number(*number),
        JsonValue::String(text) => Shape::String(text),
        JsonValue::Array(items) => Shape::Array(items),
        JsonValue::Object(fields) => classify_object(fields),
    }
}

/// Classifies one object.
pub fn classify_object<'a>(fields: &'a Object) -> (shape: Shape<'a>)
    ensures
        shape@ == object_form(fields@),
        match shape {
            Shape::Object(held) => held == fields,
            Shape::Store { fields: held, .. } => held == fields,
            Shape::Array(_) => false,
            _ => true,
        },
{
    if let Some(name) = sole_string_marker(fields, STREAM_MARKER_KEY) {
        return Shape::Collection { name };
    }
    if let Some(name) = sole_string_marker(fields, UPLOAD_MARKER_KEY) {
        return Shape::UploadSlot { name };
    }
    if let Some(status) = async_status(fields) {
        return Shape::Async {
            status,
            result: fields.get(ASYNC_RESULT_KEY),
            reason: fields.get(ASYNC_REASON_KEY),
        };
    }
    if let Some(marker) = fields.get(STORE_ID_KEY) {
        if let Some(store_id) = parse_store_id(marker) {
            return Shape::Store { store_id, fields };
        }
    }
    Shape::Object(fields)
}

/// Reads a marker: an object whose only key is `key`, with a string value.
fn sole_string_marker<'a>(fields: &'a Object, key: &str) -> (name: Option<&'a String>)
    ensures
        match name {
            Some(found) => sole_marker(fields@, key@) == Some(found@),
            None => sole_marker(fields@, key@) is None,
        },
{
    if fields.len() != 1 {
        return None;
    }
    if !text::text_eq(fields.key_at(0).as_str(), key) {
        return None;
    }
    fields.value_at(0).as_str()
}

/// Reads the async discriminator: the marker is `true` and the status is one
/// this build knows.
fn async_status(fields: &Object) -> (status: Option<AsyncStatus>)
    ensures
        status == async_status_of(fields@),
{
    broadcast use value::value_views;

    match fields.get(ASYNC_MARKER_KEY) {
        Some(JsonValue::Bool(flag)) => {
            if !*flag {
                return None;
            }
        },
        _ => {
            return None;
        },
    }
    match fields.get(ASYNC_STATUS_KEY) {
        Some(found) => match found.as_str() {
            Some(status) => AsyncStatus::from_wire(status.as_str()),
            None => None,
        },
        None => None,
    }
}

/// Reads a store marker, ignoring anything that is not an array of strings.
pub fn parse_store_id(value: &JsonValue) -> (id: Option<StoreId>)
    ensures
        match id {
            Some(found) => store_path(value@) == Some(found@),
            None => store_path(value@) is None,
        },
{
    broadcast use value::value_views;

    match value {
        JsonValue::Array(items) => {
            let mut segments: Vec<String> = Vec::new();
            let mut i: usize = 0;
            while i < items.len()
                invariant
                    i <= items@.len(),
                    value@ == Json::Array(value::values_view(items@)),
                    segments@.len() == i,
                    forall|j: int|
                        0 <= j < i ==> (#[trigger] value::values_view(items@)[j]) == Json::Text(
                            segments@[j]@,
                        ),
                decreases items.len() - i,
            {
                match items[i].as_str() {
                    Some(segment) => segments.push(segment.clone()),
                    None => {
                        assert(!(value::values_view(items@)[i as int] is Text));
                        return None;
                    },
                }
                i = i + 1;
            }
            let id = StoreId::from_segments(segments);
            assert(id@ =~= store_path(value@)->0);
            Some(id)
        },
        _ => None,
    }
}

/// A path rendered as a document.
pub fn path_value(id: &StoreId) -> (value: JsonValue)
    ensures
        value@ == path_json(id@),
{
    broadcast use value::value_views;

    let segments = id.segments();
    let mut items: Vec<JsonValue> = Vec::new();
    let mut i: usize = 0;
    while i < segments.len()
        invariant
            i <= segments@.len(),
            items@.len() == i,
            text::texts(segments@) == id@,
            forall|j: int| 0 <= j < i ==> (#[trigger] items@[j])@ == Json::Text(segments@[j]@),
        decreases segments.len() - i,
    {
        let item = JsonValue::String(segments[i].clone());
        proof {
            value::value_views(item);
        }
        items.push(item);
        i = i + 1;
    }
    assert(value::values_view(items@) =~= path_json(id@)->Array_0);
    JsonValue::Array(items)
}

/// Reading back a rendered path yields the path.
pub proof fn path_round_trip(path: Path)
    ensures
        store_path(path_json(path)) == Some(path),
{
    assert(store_path(path_json(path))->0 =~= path);
}

} // verus!
