//! Marker classification.

use musubi::state::marker::{classify, parse_store_id, path_value, Shape};
use musubi::state::node::AsyncStatus;
use musubi::state::value::{Number, Object, JsonValue};
use musubi::state::wire::StoreId;

/// A document, from its text.
fn json(text: &str) -> JsonValue {
    from_serde(serde_json::from_str(text).expect("a JSON document"))
}

fn from_serde(value: serde_json::Value) -> JsonValue {
    match value {
        serde_json::Value::Null => JsonValue::Null,
        serde_json::Value::Bool(flag) => JsonValue::Bool(flag),
        serde_json::Value::Number(number) => {
            JsonValue::Number(Number::PosInt(number.as_u64().expect("a count")))
        }
        serde_json::Value::String(text) => JsonValue::String(text),
        serde_json::Value::Array(items) => JsonValue::Array(items.into_iter().map(from_serde).collect()),
        serde_json::Value::Object(fields) => {
            let mut object = Object::new();

            for (key, value) in fields {
                object.insert(key, from_serde(value));
            }

            JsonValue::Object(object)
        }
    }
}

#[test]
fn a_sole_string_marker_is_a_slot_and_a_lookalike_is_data() {
    assert!(matches!(
        classify(&json(r#"{"__musubi_stream__": "messages"}"#)),
        Shape::Collection { name } if name == "messages"
    ));
    assert!(matches!(
        classify(&json(r#"{"__musubi_upload__": "avatar"}"#)),
        Shape::UploadSlot { name } if name == "avatar"
    ));

    // Two keys, or a non-string value: data.
    assert!(matches!(
        classify(&json(r#"{"__musubi_stream__": "messages", "other": 1}"#)),
        Shape::Object(_)
    ));
    assert!(matches!(
        classify(&json(r#"{"__musubi_stream__": 7}"#)),
        Shape::Object(_)
    ));
    assert!(matches!(
        classify(&json(r#"{"__musubi_upload__": {"__musubi_upload__": "a"}}"#)),
        Shape::Object(_)
    ));
}

#[test]
fn an_async_node_needs_both_the_discriminator_and_a_known_status() {
    assert!(matches!(
        classify(&json(
            r#"{"__musubi_async__": true, "status": "ok", "result": 1, "reason": null}"#
        )),
        Shape::Async {
            status: AsyncStatus::Okay,
            ..
        }
    ));
    assert!(matches!(
        classify(&json(r#"{"status": "ok", "result": 1, "reason": null}"#)),
        Shape::Object(_)
    ));
    assert!(matches!(
        classify(&json(r#"{"__musubi_async__": true, "status": "queued"}"#)),
        Shape::Object(_)
    ));
    assert!(matches!(
        classify(&json(r#"{"__musubi_async__": "yes", "status": "ok"}"#)),
        Shape::Object(_)
    ));
}

#[test]
fn a_store_id_is_read_only_as_an_array_of_strings() {
    assert!(matches!(
        classify(&json(r#"{"__musubi_store_id__": ["panel"], "total": 1}"#)),
        Shape::Store { .. }
    ));
    assert!(matches!(
        classify(&json(r#"{"__musubi_store_id__": "root", "total": 1}"#)),
        Shape::Object(_)
    ));
}

#[test]
fn an_async_marker_wins_over_a_store_id_on_the_same_object() {
    assert!(matches!(
        classify(&json(
            r#"{
                "__musubi_async__": true,
                "__musubi_store_id__": [],
                "status": "loading",
                "result": null,
                "reason": null
            }"#
        )),
        Shape::Async { .. }
    ));
}

#[test]
fn a_store_id_survives_being_rendered_and_read() {
    let id = StoreId::from_segments(vec!["rows".to_owned(), "7".to_owned()]);

    assert_eq!(path_value(&id), json(r#"["rows", "7"]"#));
    assert_eq!(parse_store_id(&path_value(&id)), Some(id));
    assert_eq!(parse_store_id(&json(r#"["rows", 7]"#)), None);
}

#[test]
fn every_status_is_read_back_from_its_own_spelling() {
    for status in [AsyncStatus::Loading, AsyncStatus::Okay, AsyncStatus::Failed] {
        assert_eq!(AsyncStatus::from_wire(status.as_wire()), Some(status));
    }

    assert_eq!(AsyncStatus::from_wire("queued"), None);
}
