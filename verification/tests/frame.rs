//! Framing, text and binary.

use musubi::phoenix::decimal::{read_ref, ref_text};
use musubi::phoenix::error::TransportError;
use musubi::phoenix::frame::{
    BinaryFrameError, BinaryPush, Frame, Message, Reply, ReplyStatus, EVENT_JOIN,
};

fn json(text: &str) -> serde_json::Value {
    serde_json::from_str(text).expect("a JSON document")
}

#[test]
fn encodes_and_decodes_round_trip() {
    let message = Message {
        join_ref: Some("7".to_owned()),
        msg_ref: Some("8".to_owned()),
        topic: "musubi:connection:Cart:1".to_owned(),
        event: EVENT_JOIN.to_owned(),
        payload: json(r#"{"module": "Cart", "id": "1", "params": {}}"#),
    };

    let Frame::Text(text) = message.encode() else {
        panic!("encode must produce a text frame")
    };

    assert_eq!(Message::decode(&text).unwrap(), message);
}

#[test]
fn a_message_is_written_as_a_five_tuple() {
    let message = Message {
        join_ref: Some("1".to_owned()),
        msg_ref: None,
        topic: "musubi:connection:Store:cart".to_owned(),
        event: "command".to_owned(),
        payload: json(r#"{"name": "add"}"#),
    };

    assert_eq!(
        message.encode(),
        Frame::Text(
            r#"["1",null,"musubi:connection:Store:cart","command",{"name":"add"}]"#.to_owned()
        )
    );
}

#[test]
fn a_payload_is_read_back_up_to_the_readers_nesting_limit() {
    let nested = |levels: usize| {
        let mut payload = json("1");

        for _ in 0..levels {
            payload = serde_json::Value::Array(vec![payload]);
        }

        let message = Message {
            join_ref: None,
            msg_ref: None,
            topic: "t".to_owned(),
            event: "e".to_owned(),
            payload,
        };
        let Frame::Text(text) = message.encode() else {
            panic!("encode must produce a text frame")
        };

        Message::decode(&text).map(|read| read == message)
    };

    assert!(matches!(nested(126), Ok(true)));
    assert!(nested(127).is_err());
}

#[test]
fn decodes_null_refs() {
    let message = Message::decode(r#"[null,null,"phoenix","phx_error",{}]"#).unwrap();

    assert!(matches!(
        message,
        Message {
            join_ref: None,
            msg_ref: None,
            ..
        }
    ));
}

#[test]
fn rejects_non_tuple_frames() {
    assert!(Message::decode(r#"{"topic":"room"}"#).is_err());
    assert!(Message::decode(r#"[null,null,"room","evt"]"#).is_err());
}

#[test]
fn a_refused_text_comes_with_the_readers_error() {
    assert!(Message::decode("[null,null").unwrap_err().0.is_eof());
    assert!(Message::decode("[null,null,]").unwrap_err().0.is_syntax());
    assert!(Message::decode(r#"[null,null,1,"evt",{}]"#).unwrap_err().0.is_data());
}

#[test]
fn decodes_reply_payloads() {
    let reply = Reply::read(&json(
        r#"{"status": "error", "response": {"reason": "unauthorized"}}"#,
    ))
    .unwrap();

    assert!(matches!(
        reply,
        Reply {
            status: ReplyStatus::Error,
            ..
        }
    ));
    assert_eq!(reply.response["reason"], json(r#""unauthorized""#));
}

#[test]
fn encodes_a_binary_push_with_the_serializer_v2_header() {
    let push = BinaryPush {
        join_ref: "1".to_owned(),
        msg_ref: "23".to_owned(),
        topic: "musubi_upload:u_a3f".to_owned(),
        event: "chunk".to_owned(),
        payload: vec![1, 2, 3],
    };

    let Frame::Binary(bytes) = push.encode().unwrap() else {
        panic!("a binary push encodes to a binary frame")
    };

    assert_eq!(&bytes[..5], &[0, 1, 2, 19, 5], "kind then four lengths");
    assert_eq!(&bytes[5..5 + 1 + 2], b"123", "join_ref then ref");
    assert_eq!(&bytes[bytes.len() - 3..], &[1, 2, 3], "payload verbatim");
    assert_eq!(BinaryPush::decode(&bytes).unwrap(), push);
}

#[test]
fn rejects_a_header_field_that_does_not_fit_its_length_byte() {
    let push = BinaryPush {
        join_ref: String::new(),
        msg_ref: String::new(),
        topic: "t".repeat(256),
        event: "chunk".to_owned(),
        payload: Vec::new(),
    };

    assert!(matches!(
        push.encode(),
        Err(BinaryFrameError::FieldTooLong { field, len }) if field == "topic" && len == 256
    ));
}

#[test]
fn rejects_binary_frames_it_did_not_write() {
    assert!(matches!(
        BinaryPush::decode(&[0, 1, 2]),
        Err(BinaryFrameError::Truncated)
    ));
    assert!(
        matches!(
            BinaryPush::decode(&[0, 4, 0, 0, 0, b'x']),
            Err(BinaryFrameError::Truncated)
        ),
        "a header field that runs past the end of the frame"
    );
    assert!(matches!(
        BinaryPush::decode(&[1, 0, 0, 0, 0]),
        Err(BinaryFrameError::UnsupportedKind { kind: 1 })
    ));
    assert!(matches!(
        BinaryPush::decode(&[0, 1, 0, 0, 0, 0xff]),
        Err(BinaryFrameError::InvalidUtf8 { field }) if field == "join_ref"
    ));
}

#[test]
fn defaults_a_missing_reply_response() {
    let reply = Reply::read(&json(r#"{"status": "ok"}"#)).unwrap();

    assert!(reply.is_ok());
    assert_eq!(reply.response, serde_json::Value::Null);
}

#[test]
fn a_reply_is_an_object_or_an_array_of_its_two_fields() {
    assert_eq!(
        Reply::read(&json(r#"["error", 7]"#)),
        Some(Reply {
            status: ReplyStatus::Error,
            response: json("7")
        })
    );
    assert_eq!(
        Reply::read(&json(r#"["ok"]"#)),
        Some(Reply {
            status: ReplyStatus::Okay,
            response: json("null")
        })
    );
    assert_eq!(
        Reply::read(&json(r#"{"status": {"ok": null}, "other": 1}"#)),
        Some(Reply {
            status: ReplyStatus::Okay,
            response: json("null")
        })
    );

    for payload in [
        r#"{"ok": true}"#,
        r#"{"status": "queued"}"#,
        r#"{"status": {"ok": 1}}"#,
        r#"{"status": {"ok": null, "error": null}}"#,
        r#"{"status": 1}"#,
        r#"[]"#,
        r#"["ok", 1, 2]"#,
        r#""ok""#,
    ] {
        assert_eq!(Reply::read(&json(payload)), None, "{payload}");
    }
}

#[test]
fn a_ref_is_read_back_from_its_text() {
    for n in [0, 1, 9, 10, 42, 1_000_000, u64::MAX] {
        assert_eq!(ref_text(n), n.to_string());
        assert_eq!(read_ref(&ref_text(n)), Some(n));
    }

    assert_eq!(read_ref("+7"), Some(7));
    assert_eq!(read_ref("007"), Some(7));
    assert_eq!(read_ref(""), None);
    assert_eq!(read_ref("+"), None);
    assert_eq!(read_ref("-1"), None);
    assert_eq!(read_ref("1x"), None);
    assert_eq!(read_ref("18446744073709551616"), None);
}

#[test]
fn transport_errors_carry_the_transports_words() {
    assert_eq!(
        TransportError::connect("dns failure").message(),
        "connect failed: dns failure"
    );
    assert_eq!(
        TransportError::io("broken pipe").message(),
        "socket io failed: broken pipe"
    );
    assert_eq!(TransportError::Closed.message(), "socket closed");
}
