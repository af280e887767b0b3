//! Framing: the five-tuple `[join_ref, ref, topic, event, payload]` for JSON
//! payloads, and the length-prefixed binary framing for raw ones.

use vstd::prelude::*;
use vstd::string::StringSliceAdditionalSpecFns;
use vstd::utf8;

use crate::phoenix::json;
use crate::phoenix::json::{Letter, MAX_PAYLOAD_NESTING};
use crate::state::keyed;
use crate::state::marker;
use crate::state::text;
use crate::state::text::Chars;
use crate::state::value;
use crate::state::value::Json;

verus! {

/// The event a channel is joined with.
pub const EVENT_JOIN: &'static str = "phx_join";

/// The event a channel is left with.
pub const EVENT_LEAVE: &'static str = "phx_leave";

/// The event a channel is closed with.
pub const EVENT_CLOSE: &'static str = "phx_close";

/// The event a channel's failure is reported with.
pub const EVENT_ERROR: &'static str = "phx_error";

/// The event every reply is delivered under.
pub const EVENT_REPLY: &'static str = "phx_reply";

/// The heartbeat event.
pub const EVENT_HEARTBEAT: &'static str = "heartbeat";

/// The topic heartbeats are pushed on.
pub const TOPIC_PHOENIX: &'static str = "phoenix";

/// The kind byte of a binary client push.
pub const BINARY_PUSH_KIND: u8 = 0;

/// The kind byte and the four length bytes.
pub const BINARY_HEADER_LEN: usize = 5;

/// One WebSocket frame.
#[derive(Debug, Clone, PartialEq, Eq)]
pub enum Frame {
    /// A text frame carrying one five-tuple.
    Text(String),
    /// A binary frame, carrying a raw payload under a length-prefixed header.
    Binary(Vec<u8>),
}

/// A [`Frame`] as contracts see it.
#[verifier::ext_equal]
pub enum Sheet {
    Text(Chars),
    Binary(Seq<u8>),
}

impl View for Frame {
    type V = Sheet;

    open spec fn view(&self) -> Sheet {
        match self {
            Frame::Text(text) => Sheet::Text(text@),
            Frame::Binary(bytes) => Sheet::Binary(bytes@),
        }
    }
}

/// A client push whose payload is raw bytes rather than JSON.
///
/// A byte for the kind, four length bytes, the four header strings, and the
/// payload verbatim. An absent ref is the empty string.
#[derive(Debug, Clone, PartialEq, Eq)]
pub struct BinaryPush {
    /// The ref of the join that established the sending channel.
    pub join_ref: String,
    /// The ref of this push, echoed back on its reply.
    pub msg_ref: String,
    /// The channel topic.
    pub topic: String,
    /// The event name.
    pub event: String,
    /// The payload, byte for byte.
    pub payload: Vec<u8>,
}

/// A [`BinaryPush`] as contracts see it.
#[verifier::ext_equal]
pub struct Parcel {
    pub join_ref: Chars,
    pub msg_ref: Chars,
    pub topic: Chars,
    pub event: Chars,
    pub payload: Seq<u8>,
}

impl View for BinaryPush {
    type V = Parcel;

    open spec fn view(&self) -> Parcel {
        Parcel {
            join_ref: self.join_ref@,
            msg_ref: self.msg_ref@,
            topic: self.topic@,
            event: self.event@,
            payload: self.payload@,
        }
    }
}

/// Why a binary frame could not be encoded or decoded.
#[derive(Debug, Clone, PartialEq, Eq)]
#[non_exhaustive]
pub enum BinaryFrameError {
    /// A header field was longer than the single length byte can describe.
    FieldTooLong {
        /// Which header field: `join_ref`, `ref`, `topic` or `event`.
        field: &'static str,
        /// Its actual length in bytes.
        len: usize,
    },
    /// The frame ended inside its header or one of its header fields.
    Truncated,
    /// The kind byte was not a client push.
    UnsupportedKind {
        /// The kind byte, verbatim.
        kind: u8,
    },
    /// A header field was not UTF-8.
    InvalidUtf8 {
        /// Which header field.
        field: &'static str,
    },
}

/// A [`BinaryFrameError`] as contracts see it.
pub enum Flaw {
    FieldTooLong { field: Chars, len: nat },
    Truncated,
    UnsupportedKind { kind: u8 },
    InvalidUtf8 { field: Chars },
}

impl View for BinaryFrameError {
    type V = Flaw;

    open spec fn view(&self) -> Flaw {
        match self {
            BinaryFrameError::FieldTooLong { field, len } => Flaw::FieldTooLong {
                field: field@,
                len: *len as nat,
            },
            BinaryFrameError::Truncated => Flaw::Truncated,
            BinaryFrameError::UnsupportedKind { kind } => Flaw::UnsupportedKind { kind: *kind },
            BinaryFrameError::InvalidUtf8 { field } => Flaw::InvalidUtf8 { field: field@ },
        }
    }
}

/// How many bytes a text takes.
pub open spec fn width(text: Chars) -> nat {
    utf8::encode_utf8(text).len()
}

/// A framed push: the kind, the four lengths, the four header strings, the
/// payload.
pub open spec fn framed(p: Parcel) -> Seq<u8> {
    seq![
        BINARY_PUSH_KIND,
        width(p.join_ref) as u8,
        width(p.msg_ref) as u8,
        width(p.topic) as u8,
        width(p.event) as u8,
    ] + utf8::encode_utf8(p.join_ref) + utf8::encode_utf8(p.msg_ref) + utf8::encode_utf8(p.topic)
        + utf8::encode_utf8(p.event) + p.payload
}

/// The flaw of a header field that does not fit its length byte.
pub open spec fn misfit(field: Chars, text: Chars) -> Option<Flaw> {
    if width(text) > 255 {
        Some(Flaw::FieldTooLong { field, len: width(text) })
    } else {
        None
    }
}

/// What keeps a push from being framed: its first header field that does not
/// fit its length byte.
pub open spec fn unframable(p: Parcel) -> Option<Flaw> {
    if width(p.join_ref) > 255 {
        misfit("join_ref"@, p.join_ref)
    } else if width(p.msg_ref) > 255 {
        misfit("ref"@, p.msg_ref)
    } else if width(p.topic) > 255 {
        misfit("topic"@, p.topic)
    } else {
        misfit("event"@, p.event)
    }
}

/// One header field of a frame, `len` bytes from `at`.
pub open spec fn field_of(bytes: Seq<u8>, at: int, len: int, name: Chars) -> Result<Chars, Flaw> {
    if at + len > bytes.len() {
        Err(Flaw::Truncated)
    } else if !utf8::valid_utf8(bytes.subrange(at, at + len)) {
        Err(Flaw::InvalidUtf8 { field: name })
    } else {
        Ok(utf8::decode_utf8(bytes.subrange(at, at + len)))
    }
}

/// What a binary frame says, its header fields read in order.
pub open spec fn unframed(bytes: Seq<u8>) -> Result<Parcel, Flaw> {
    if bytes.len() < BINARY_HEADER_LEN {
        Err(Flaw::Truncated)
    } else if bytes[0] != BINARY_PUSH_KIND {
        Err(Flaw::UnsupportedKind { kind: bytes[0] })
    } else {
        let a: int = 5;
        let b = a + bytes[1];
        let c = b + bytes[2];
        let d = c + bytes[3];
        let e = d + bytes[4];
        match field_of(bytes, a, bytes[1] as int, "join_ref"@) {
            Err(flaw) => Err(flaw),
            Ok(join_ref) => match field_of(bytes, b, bytes[2] as int, "ref"@) {
                Err(flaw) => Err(flaw),
                Ok(msg_ref) => match field_of(bytes, c, bytes[3] as int, "topic"@) {
                    Err(flaw) => Err(flaw),
                    Ok(topic) => match field_of(bytes, d, bytes[4] as int, "event"@) {
                        Err(flaw) => Err(flaw),
                        Ok(event) => Ok(
                            Parcel {
                                join_ref,
                                msg_ref,
                                topic,
                                event,
                                payload: bytes.subrange(e, bytes.len() as int),
                            },
                        ),
                    },
                },
            },
        }
    }
}

/// A push that can be framed is read back from its frame as it was.
pub proof fn frame_round_trip(p: Parcel)
    requires
        unframable(p) is None,
    ensures
        unframed(framed(p)) == Ok::<Parcel, Flaw>(p),
{
    let bytes = framed(p);
    let (j, m, t, e) = (
        utf8::encode_utf8(p.join_ref),
        utf8::encode_utf8(p.msg_ref),
        utf8::encode_utf8(p.topic),
        utf8::encode_utf8(p.event),
    );
    utf8::encode_utf8_valid_utf8(p.join_ref);
    utf8::encode_utf8_valid_utf8(p.msg_ref);
    utf8::encode_utf8_valid_utf8(p.topic);
    utf8::encode_utf8_valid_utf8(p.event);
    utf8::encode_utf8_decode_utf8(p.join_ref);
    utf8::encode_utf8_decode_utf8(p.msg_ref);
    utf8::encode_utf8_decode_utf8(p.topic);
    utf8::encode_utf8_decode_utf8(p.event);
    let b = 5 + j.len();
    let c = b + m.len();
    let d = c + t.len();
    let f = d + e.len();
    assert(bytes[0] == BINARY_PUSH_KIND);
    assert(bytes[1] == j.len() && bytes[2] == m.len() && bytes[3] == t.len() && bytes[4]
        == e.len());
    assert(bytes.subrange(5, b as int) =~= j);
    assert(bytes.subrange(b as int, c as int) =~= m);
    assert(bytes.subrange(c as int, d as int) =~= t);
    assert(bytes.subrange(d as int, f as int) =~= e);
    assert(bytes.subrange(f as int, bytes.len() as int) =~= p.payload);
}

/// Only what a frame of a push holds is read as that push: framing it again
/// gives the same bytes.
pub proof fn frames_are_read_one_way(bytes: Seq<u8>, p: Parcel)
    requires
        unframed(bytes) == Ok::<Parcel, Flaw>(p),
    ensures
        unframable(p) is None,
        framed(p) == bytes,
{
    let b = 5 + bytes[1];
    let c = b + bytes[2];
    let d = c + bytes[3];
    let f = d + bytes[4];
    utf8::decode_utf8_encode_utf8(bytes.subrange(5, b));
    utf8::decode_utf8_encode_utf8(bytes.subrange(b, c));
    utf8::decode_utf8_encode_utf8(bytes.subrange(c, d));
    utf8::decode_utf8_encode_utf8(bytes.subrange(d, f));
    assert(framed(p) =~= bytes);
}

/// `std::str::Utf8Error`, of which nothing is claimed.
#[verifier::external_type_specification]
#[verifier::external_body]
pub struct ExUtf8Error(std::str::Utf8Error);

/// `std::str::from_utf8` gives the text whose UTF-8 form the bytes are, and an
/// error exactly where they are none.
pub assume_specification[ std::str::from_utf8 ](v: &[u8]) -> (found: Result<
    &str,
    std::str::Utf8Error,
>)
    ensures
        match found {
            Ok(s) => utf8::valid_utf8(v@) && s.spec_bytes() == v@,
            Err(_) => !utf8::valid_utf8(v@),
        },
;

/// Appends bytes to a list.
fn extend(list: &mut Vec<u8>, bytes: &[u8])
    ensures
        final(list)@ == old(list)@ + bytes@,
{
    let ghost before = list@;
    let mut i: usize = 0;
    assert(before + bytes@.take(0) =~= before);
    while i < bytes.len()
        invariant
            i <= bytes@.len(),
            list@ == before + bytes@.take(i as int),
        decreases bytes.len() - i,
    {
        list.push(bytes[i]);
        assert(list@ =~= before + bytes@.take(i + 1));
        i = i + 1;
    }
    assert(bytes@.take(i as int) =~= bytes@);
}

/// The length byte of a header field.
fn length_byte(name: &'static str, text: &String) -> (len: Result<u8, BinaryFrameError>)
    ensures
        match len {
            Ok(byte) => byte == width(text@) && misfit(name@, text@) is None,
            Err(flaw) => misfit(name@, text@) == Some(flaw@),
        },
{
    let count: usize = text.as_str().as_bytes().len();
    if count > 255 {
        return Err(BinaryFrameError::FieldTooLong { field: name, len: count });
    }
    Ok(count as u8)
}

/// One header field of a frame.
fn read_field(bytes: &[u8], at: usize, len: usize, name: &'static str) -> (field: Result<
    String,
    BinaryFrameError,
>)
    requires
        at <= bytes@.len(),
    ensures
        match field {
            Ok(text) => field_of(bytes@, at as int, len as int, name@) == Ok::<Chars, Flaw>(text@),
            Err(flaw) => field_of(bytes@, at as int, len as int, name@) == Err::<Chars, Flaw>(
                flaw@,
            ),
        },
{
    if len > bytes.len() - at {
        return Err(BinaryFrameError::Truncated);
    }
    let part = vstd::slice::slice_subrange(bytes, at, at + len);
    match std::str::from_utf8(part) {
        Ok(text) => {
            proof {
                utf8::encode_utf8_decode_utf8(text@);
            }
            Ok(text.to_owned())
        },
        Err(_) => Err(BinaryFrameError::InvalidUtf8 { field: name }),
    }
}

impl BinaryPush {
    /// Encodes the push as a binary frame.
    pub fn encode(&self) -> (frame: Result<Frame, BinaryFrameError>)
        ensures
            match frame {
                Ok(sheet) => unframable(self@) is None && sheet@ == Sheet::Binary(framed(self@)),
                Err(flaw) => unframable(self@) == Some(flaw@),
            },
    {
        let join_len = match length_byte("join_ref", &self.join_ref) {
            Ok(len) => len,
            Err(flaw) => {
                return Err(flaw);
            },
        };
        let ref_len = match length_byte("ref", &self.msg_ref) {
            Ok(len) => len,
            Err(flaw) => {
                return Err(flaw);
            },
        };
        let topic_len = match length_byte("topic", &self.topic) {
            Ok(len) => len,
            Err(flaw) => {
                return Err(flaw);
            },
        };
        let event_len = match length_byte("event", &self.event) {
            Ok(len) => len,
            Err(flaw) => {
                return Err(flaw);
            },
        };
        let mut bytes: Vec<u8> = Vec::new();
        bytes.push(BINARY_PUSH_KIND);
        bytes.push(join_len);
        bytes.push(ref_len);
        bytes.push(topic_len);
        bytes.push(event_len);
        extend(&mut bytes, self.join_ref.as_str().as_bytes());
        extend(&mut bytes, self.msg_ref.as_str().as_bytes());
        extend(&mut bytes, self.topic.as_str().as_bytes());
        extend(&mut bytes, self.event.as_str().as_bytes());
        extend(&mut bytes, self.payload.as_slice());
        assert(bytes@ =~= framed(self@));
        Ok(Frame::Binary(bytes))
    }

    /// Decodes what [`encode`](Self::encode) produced.
    pub fn decode(bytes: &[u8]) -> (push: Result<BinaryPush, BinaryFrameError>)
        ensures
            match push {
                Ok(found) => unframed(bytes@) == Ok::<Parcel, Flaw>(found@),
                Err(flaw) => unframed(bytes@) == Err::<Parcel, Flaw>(flaw@),
            },
    {
        if bytes.len() < BINARY_HEADER_LEN {
            return Err(BinaryFrameError::Truncated);
        }
        if bytes[0] != BINARY_PUSH_KIND {
            return Err(BinaryFrameError::UnsupportedKind { kind: bytes[0] });
        }
        let mut at: usize = BINARY_HEADER_LEN;
        let join_ref = match read_field(bytes, at, bytes[1] as usize, "join_ref") {
            Ok(text) => text,
            Err(flaw) => {
                return Err(flaw);
            },
        };
        at = at + bytes[1] as usize;
        let msg_ref = match read_field(bytes, at, bytes[2] as usize, "ref") {
            Ok(text) => text,
            Err(flaw) => {
                return Err(flaw);
            },
        };
        at = at + bytes[2] as usize;
        let topic = match read_field(bytes, at, bytes[3] as usize, "topic") {
            Ok(text) => text,
            Err(flaw) => {
                return Err(flaw);
            },
        };
        at = at + bytes[3] as usize;
        let event = match read_field(bytes, at, bytes[4] as usize, "event") {
            Ok(text) => text,
            Err(flaw) => {
                return Err(flaw);
            },
        };
        at = at + bytes[4] as usize;
        let mut payload: Vec<u8> = Vec::new();
        let rest = vstd::slice::slice_subrange(bytes, at, bytes.len());
        extend(&mut payload, rest);
        assert(payload@ =~= bytes@.subrange(at as int, bytes@.len() as int));
        Ok(BinaryPush { join_ref, msg_ref, topic, event, payload })
    }
}

/// A five-tuple message.
///
/// The refs may be absent. Messages the server sends of its own carry neither;
/// replies echo the ref of the push that caused them.
#[derive(Debug, Clone, PartialEq)]
pub struct Message {
    /// The ref of the join that established the sending channel.
    pub join_ref: Option<String>,
    /// The ref of this message, echoed back on its reply.
    pub msg_ref: Option<String>,
    /// The channel topic, or `phoenix` for heartbeats.
    pub topic: String,
    /// The event name.
    pub event: String,
    /// The event payload.
    pub payload: serde_json::Value,
}

impl View for Message {
    type V = Letter;

    open spec fn view(&self) -> Letter {
        Letter {
            join_ref: json::maybe(self.join_ref),
            msg_ref: json::maybe(self.msg_ref),
            topic: self.topic@,
            event: self.event@,
            payload: json::document(self.payload),
        }
    }
}

/// A text that is not a five-tuple, and what the reader has to say of it.
#[derive(Debug)]
pub struct NotATuple(pub serde_json::Error);

impl Message {
    /// Encodes the message as a text frame.
    pub fn encode(&self) -> (frame: Frame)
        ensures
            frame@ == Sheet::Text(json::tuple_text(self@)),
    {
        Frame::Text(
            json::write_tuple(
                &self.join_ref,
                &self.msg_ref,
                &self.topic,
                &self.event,
                &self.payload,
            ),
        )
    }

    /// Decodes a five-tuple. A text that opens no list, or has not the commas
    /// between five elements, is none. What [`encode`](Self::encode) wrote is read back as
    /// it was, where the payload holds no float and nests within the reader's
    /// limit.
    pub fn decode(text: &str) -> (message: Result<Message, NotATuple>)
        ensures
            match message {
                Ok(found) => json::tuple_read(text@) == Some(found@),
                Err(_) => json::tuple_read(text@) is None,
            },
            message is Ok ==> json::tuple_like(text@),
            forall|sent: Message|
                #![trigger json::tuple_text(sent@)]
                json::tuple_text(sent@) == text@ && json::exact(sent@.payload) && value::nesting(
                    sent@.payload,
                ) <= MAX_PAYLOAD_NESTING ==> (message matches Ok(found) && found@ == sent@),
    {
        match json::read_tuple(text) {
            Ok(parts) => Ok(
                Message {
                    join_ref: parts.0,
                    msg_ref: parts.1,
                    topic: parts.2,
                    event: parts.3,
                    payload: parts.4,
                },
            ),
            Err(error) => Err(NotATuple(error)),
        }
    }
}

/// The status of a reply.
#[derive(Debug, Clone, Copy, PartialEq, Eq, Structural)]
pub enum ReplyStatus {
    /// The push succeeded.
    Okay,
    /// The push was rejected; the response carries the server's reason.
    Error,
}

/// The payload of a reply.
#[derive(Debug, Clone, PartialEq)]
pub struct Reply {
    /// Whether the push it answers succeeded.
    pub status: ReplyStatus,
    /// The server's response, verbatim.
    pub response: serde_json::Value,
}

/// A [`Reply`] as contracts see it.
pub struct Answer {
    pub status: ReplyStatus,
    pub response: Json,
}

impl View for Reply {
    type V = Answer;

    open spec fn view(&self) -> Answer {
        Answer { status: self.status, response: json::document(self.response) }
    }
}

/// The status a word names.
pub open spec fn status_named(word: Chars) -> Option<ReplyStatus> {
    if word == "ok"@ {
        Some(ReplyStatus::Okay)
    } else if word == "error"@ {
        Some(ReplyStatus::Error)
    } else {
        None
    }
}

/// The status a document stands for: its name, or an object that maps its name
/// to `null`.
pub open spec fn status_of(v: Json) -> Option<ReplyStatus> {
    match v {
        Json::Text(word) => status_named(word),
        Json::Object(fields) => if fields.len() == 1 && fields[0].1 == Json::Null {
            status_named(fields[0].0)
        } else {
            None
        },
        _ => None,
    }
}

/// The reply a document stands for: an object with a `status` and, unless it is
/// `null`, a `response`; or those two in an array.
pub open spec fn reply_of(v: Json) -> Option<Answer> {
    let (status, response) = match v {
        Json::Object(fields) => (
            keyed::lookup(fields, "status"@),
            marker::or_null(keyed::lookup(fields, "response"@)),
        ),
        Json::Array(items) => if items.len() == 1 {
            (Some(items[0]), Json::Null)
        } else if items.len() == 2 {
            (Some(items[0]), items[1])
        } else {
            (None, Json::Null)
        },
        _ => (None, Json::Null),
    };
    match status {
        Some(word) => match status_of(word) {
            Some(status) => Some(Answer { status, response }),
            None => None,
        },
        None => None,
    }
}

impl ReplyStatus {
    /// The status a word names.
    fn named(word: &str) -> (status: Option<ReplyStatus>)
        ensures
            status == status_named(word@),
    {
        if text::text_eq(word, "ok") {
            Some(ReplyStatus::Okay)
        } else if text::text_eq(word, "error") {
            Some(ReplyStatus::Error)
        } else {
            None
        }
    }

    /// The status a document stands for.
    fn read(value: &serde_json::Value) -> (status: Option<ReplyStatus>)
        ensures
            status == status_of(json::document(*value)),
    {
        if let Some(word) = json::as_text(value) {
            return ReplyStatus::named(word);
        }
        match json::member_count(value) {
            Some(count) => {
                if count != 1 {
                    return None;
                }
                let ghost fields = json::document(*value)->Object_0;
                proof {
                    reveal_strlit("ok");
                    reveal_strlit("error");
                    assert("ok"@.len() != "error"@.len());
                    keyed::key_index_meaning(fields, "ok"@);
                    keyed::key_index_meaning(fields, "error"@);
                }
                if let Some(inner) = json::member(value, "ok") {
                    return if json::is_null(inner) {
                        Some(ReplyStatus::Okay)
                    } else {
                        None
                    };
                }
                if let Some(inner) = json::member(value, "error") {
                    return if json::is_null(inner) {
                        Some(ReplyStatus::Error)
                    } else {
                        None
                    };
                }
                proof {
                    assert(keyed::key_index(fields, "ok"@) >= 1);
                    assert(keyed::key_index(fields, "error"@) >= 1);
                }
                None
            },
            None => None,
        }
    }
}

impl Reply {
    /// Whether the push succeeded.
    pub fn is_ok(&self) -> (yes: bool)
        ensures
            yes == (self.status == ReplyStatus::Okay),
    {
        match self.status {
            ReplyStatus::Okay => true,
            ReplyStatus::Error => false,
        }
    }

    /// Reads the payload of a reply.
    pub fn read(payload: &serde_json::Value) -> (reply: Option<Reply>)
        ensures
            match reply {
                Some(found) => reply_of(json::document(*payload)) == Some(found@),
                None => reply_of(json::document(*payload)) is None,
            },
    {
        if let Some(items) = json::as_list(payload) {
            if items.len() == 0 || items.len() > 2 {
                return None;
            }
            assert(json::documents(items@)[0] == json::document(items@[0]));
            let status = match ReplyStatus::read(&items[0]) {
                Some(status) => status,
                None => {
                    return None;
                },
            };
            if items.len() == 1 {
                return Some(Reply { status, response: json::null() });
            }
            assert(json::documents(items@)[1] == json::document(items@[1]));
            return Some(Reply { status, response: items[1].clone() });
        }
        let word = match json::member(payload, "status") {
            Some(word) => word,
            None => {
                return None;
            },
        };
        let status = match ReplyStatus::read(word) {
            Some(status) => status,
            None => {
                return None;
            },
        };
        let response = match json::member(payload, "response") {
            Some(found) => found.clone(),
            None => json::null(),
        };
        Some(Reply { status, response })
    }
}

} // verus!
