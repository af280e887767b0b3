//! What the protocol's forms are, in numbers, bytes and words: the backoff ladder, the
//! binary frame, the reply, the address, and the waits that nobody set.

use vstd::prelude::*;
use vstd::utf8;

use crate::phoenix::backoff;
use crate::phoenix::decimal;
use crate::phoenix::error::BuildError;
use crate::phoenix::frame;
use crate::phoenix::frame::{Answer, Flaw, Parcel, ReplyStatus};
use crate::phoenix::socket;
use crate::phoenix::socket::{Plan, DEFAULT_HEARTBEAT_SECS, DEFAULT_TIMEOUT_SECS};
use crate::phoenix::url;
use crate::state::keyed;
use crate::state::pointer;
use crate::state::text::Chars;
use crate::state::value::Json;

verus! {

// -------------------------------------------------------------------------- the waits

/// The first waits are 10, 50, 100, 150, 200, 250, 500, 1000 and 2000 milliseconds, and
/// every later one is 5000.
pub proof fn the_ladder(attempt: nat)
    ensures
        attempt < 9 ==> backoff::rung(attempt) == seq![
            10u64,
            50u64,
            100u64,
            150u64,
            200u64,
            250u64,
            500u64,
            1000u64,
            2000u64,
        ][attempt as int],
        attempt >= 9 ==> backoff::rung(attempt) == 5000,
{
}

/// Jitter covers a quarter of the rung, and no more: each wait from the rung to a quarter
/// above it comes of some seed, and seeds go round.
pub proof fn jitter_covers_a_quarter(attempt: nat, jitter: u64, seed: u64)
    ensures
        4 * jitter <= backoff::rung(attempt) ==> backoff::delay(attempt, jitter)
            == backoff::rung(attempt) + jitter,
        backoff::rung(attempt) <= backoff::delay(attempt, seed),
        4 * (backoff::delay(attempt, seed) - backoff::rung(attempt)) <= backoff::rung(attempt),
{
    let base = backoff::rung(attempt);
    let most = base / 4;
    if 4 * jitter <= base {
        assert(jitter <= most);
        assert(jitter % ((most + 1) as u64) == jitter) by (nonlinear_arith)
            requires
                jitter <= most,
                most < 5000,
        ;
    }
}

/// Attempts are counted one by one.
pub proof fn attempts_are_counted(attempt: usize)
    ensures
        attempt < usize::MAX ==> backoff::after(attempt) == attempt + 1,
        attempt == usize::MAX ==> backoff::after(attempt) == attempt,
{
}

/// A wait that was set is the one set; else the heartbeat waits thirty seconds, and a push
/// and a join ten.
pub proof fn the_default_waits(set: std::time::Duration)
    ensures
        DEFAULT_HEARTBEAT_SECS == 30,
        DEFAULT_TIMEOUT_SECS == 10,
        socket::or_seconds(Some(set), 30) == set,
        socket::or_seconds(None, 30) == socket::seconds(30),
        socket::or_seconds(None, 10) == socket::seconds(10),
{
}

/// A plan is complete exactly where it has an address, a connector, a spawner and a timer;
/// what is reported as missing is missing, and everything asked for before it is there.
pub proof fn a_plan_needs_four_parts<C, S, T>(plan: Plan<C, S, T>)
    ensures
        socket::missing(plan) is None <==> plan.url is Some && plan.connector is Some
            && plan.spawner is Some && plan.timer is Some,
        socket::missing(plan) == Some(BuildError::MissingUrl) <==> plan.url is None,
        socket::missing(plan) == Some(BuildError::MissingConnector) <==> plan.url is Some
            && plan.connector is None,
        socket::missing(plan) == Some(BuildError::MissingSpawner) <==> plan.url is Some
            && plan.connector is Some && plan.spawner is None,
        socket::missing(plan) == Some(BuildError::MissingTimer) <==> plan.url is Some
            && plan.connector is Some && plan.spawner is Some && plan.timer is None,
{
}

// --------------------------------------------------------------------- the binary frame

/// A binary frame is a zero, the lengths of its four header strings, a byte each, the
/// strings, in the order join ref, ref, topic, event, and the payload, to the end.
pub proof fn a_frame_is_laid_out(p: Parcel)
    requires
        utf8::encode_utf8(p.join_ref).len() <= 255,
        utf8::encode_utf8(p.msg_ref).len() <= 255,
        utf8::encode_utf8(p.topic).len() <= 255,
        utf8::encode_utf8(p.event).len() <= 255,
    ensures
        frame::unframable(p) is None,
        ({
            let (j, m, t, e) = (
                utf8::encode_utf8(p.join_ref),
                utf8::encode_utf8(p.msg_ref),
                utf8::encode_utf8(p.topic),
                utf8::encode_utf8(p.event),
            );
            let bytes = frame::framed(p);
            &&& bytes.len() == 5 + j.len() + m.len() + t.len() + e.len() + p.payload.len()
            &&& bytes[0] == 0
            &&& bytes[1] == j.len()
            &&& bytes[2] == m.len()
            &&& bytes[3] == t.len()
            &&& bytes[4] == e.len()
            &&& bytes.skip(5) == j + m + t + e + p.payload
        }),
{
    let (j, m, t, e) = (
        utf8::encode_utf8(p.join_ref),
        utf8::encode_utf8(p.msg_ref),
        utf8::encode_utf8(p.topic),
        utf8::encode_utf8(p.event),
    );
    assert(frame::framed(p).skip(5) =~= j + m + t + e + p.payload);
}

/// A header string of more than 255 bytes is refused by its name and length, the first of
/// them.
pub proof fn a_long_field_is_named(p: Parcel)
    ensures
        ({
            let (j, m, t, e) = (
                utf8::encode_utf8(p.join_ref).len(),
                utf8::encode_utf8(p.msg_ref).len(),
                utf8::encode_utf8(p.topic).len(),
                utf8::encode_utf8(p.event).len(),
            );
            let flaw = frame::unframable(p);
            &&& j > 255 ==> flaw == Some(Flaw::FieldTooLong { field: "join_ref"@, len: j })
            &&& j <= 255 && m > 255 ==> flaw == Some(Flaw::FieldTooLong { field: "ref"@, len: m })
            &&& j <= 255 && m <= 255 && t > 255 ==> flaw == Some(
                Flaw::FieldTooLong { field: "topic"@, len: t },
            )
            &&& j <= 255 && m <= 255 && t <= 255 && e > 255 ==> flaw == Some(
                Flaw::FieldTooLong { field: "event"@, len: e },
            )
        }),
{
}

/// What is no binary frame is refused: one that ends inside its header or its header
/// strings, one of another kind, and one whose strings are no text, each by the first
/// thing wrong with it.
pub proof fn what_is_no_frame_is_refused(bytes: Seq<u8>)
    ensures
        bytes.len() < 5 ==> frame::unframed(bytes) == Err::<Parcel, Flaw>(Flaw::Truncated),
        bytes.len() >= 5 && bytes[0] != 0 ==> frame::unframed(bytes) == Err::<Parcel, Flaw>(
            Flaw::UnsupportedKind { kind: bytes[0] },
        ),
        bytes.len() >= 5 && bytes[0] == 0 ==> ({
            let a: int = 5;
            let b = a + bytes[1];
            let c = b + bytes[2];
            let d = c + bytes[3];
            let e = d + bytes[4];
            let n = bytes.len() as int;
            let found = frame::unframed(bytes);
            let cut = Err::<Parcel, Flaw>(Flaw::Truncated);
            let first = utf8::valid_utf8(bytes.subrange(a, b));
            let second = utf8::valid_utf8(bytes.subrange(b, c));
            let third = utf8::valid_utf8(bytes.subrange(c, d));
            let fourth = utf8::valid_utf8(bytes.subrange(d, e));
            &&& n < b ==> found == cut
            &&& n >= b && !first ==> found == Err::<Parcel, Flaw>(
                Flaw::InvalidUtf8 { field: "join_ref"@ },
            )
            &&& b <= n < c && first ==> found == cut
            &&& n >= c && first && !second ==> found == Err::<Parcel, Flaw>(
                Flaw::InvalidUtf8 { field: "ref"@ },
            )
            &&& c <= n < d && first && second ==> found == cut
            &&& n >= d && first && second && !third ==> found == Err::<Parcel, Flaw>(
                Flaw::InvalidUtf8 { field: "topic"@ },
            )
            &&& d <= n < e && first && second && third ==> found == cut
            &&& n >= e && first && second && third && !fourth ==> found == Err::<Parcel, Flaw>(
                Flaw::InvalidUtf8 { field: "event"@ },
            )
            &&& n >= e && first && second && third && fourth ==> found is Ok
        }),
{
}

// --------------------------------------------------------------------------- the reply

/// Whether a document names a status: by its word, or as an object that maps the word to
/// `null`.
pub open spec fn names(v: Json, word: Chars) -> bool {
    v == Json::Text(word) || v == Json::Object(seq![(word, Json::Null)])
}

/// A reply is an object with a status and a response, or an array of them; a response that
/// is absent is `null`; and the status is one of two words.
pub proof fn a_reply_is_read(fields: Seq<(Chars, Json)>, status: Json, response: Json)
    requires
        keyed::sorted(fields),
        fields.contains(("status"@, status)),
        fields.contains(("response"@, response)) || (response == Json::Null && forall|i: int|
            0 <= i < fields.len() ==> (#[trigger] fields[i]).0 != "response"@),
    ensures
        ({
            let found = frame::reply_of(Json::Object(fields));
            let pair = frame::reply_of(Json::Array(seq![status, response]));
            let okay = Some(Answer { status: ReplyStatus::Okay, response });
            let error = Some(Answer { status: ReplyStatus::Error, response });
            &&& names(status, "ok"@) ==> found == okay && pair == okay
            &&& names(status, "error"@) ==> found == error && pair == error
            &&& !names(status, "ok"@) && !names(status, "error"@) ==> found is None && pair is None
            &&& frame::reply_of(Json::Array(seq![status])) == (if names(status, "ok"@) {
                Some(Answer { status: ReplyStatus::Okay, response: Json::Null })
            } else if names(status, "error"@) {
                Some(Answer { status: ReplyStatus::Error, response: Json::Null })
            } else {
                None
            })
        }),
{
    reveal_strlit("ok");
    reveal_strlit("error");
    assert("ok"@.len() != "error"@.len());
    let i = choose|i: int| 0 <= i < fields.len() && fields[i] == ("status"@, status);
    keyed::sorted_key_index(fields, i);
    keyed::key_index_meaning(fields, "response"@);
    if fields.contains(("response"@, response)) {
        let j = choose|j: int| 0 <= j < fields.len() && fields[j] == ("response"@, response);
        keyed::sorted_key_index(fields, j);
    }
    if let Json::Object(inner) = status {
        if inner.len() == 1 && inner[0].1 == Json::Null {
            assert(inner =~= seq![(inner[0].0, Json::Null)]);
        }
        if names(status, "ok"@) {
            assert(inner == seq![("ok"@, Json::Null)]);
            assert(inner[0] == ("ok"@, Json::Null));
        }
        if names(status, "error"@) {
            assert(inner == seq![("error"@, Json::Null)]);
            assert(inner[0] == ("error"@, Json::Null));
        }
    }
}

/// What has no status is no reply.
pub proof fn what_has_no_status_is_no_reply(v: Json)
    requires
        match v {
            Json::Object(fields) => forall|i: int|
                0 <= i < fields.len() ==> (#[trigger] fields[i]).0 != "status"@,
            Json::Array(items) => items.len() == 0 || items.len() > 2,
            _ => true,
        },
    ensures
        frame::reply_of(v) is None,
{
    if let Json::Object(fields) = v {
        keyed::key_index_meaning(fields, "status"@);
    }
}

// ------------------------------------------------------------------------- the address

/// Letters, digits and four marks stand for themselves in an address; every other byte is
/// a percent sign and two upper-case digits.
pub proof fn what_is_escaped(b: u8, text: Chars)
    requires
        text == url::escaped(b),
    ensures
        (0x41 <= b <= 0x5a || 0x61 <= b <= 0x7a || 0x30 <= b <= 0x39 || b == 0x2d || b == 0x2e
            || b == 0x5f || b == 0x7e) ==> text == seq![b as char],
        !(0x41 <= b <= 0x5a || 0x61 <= b <= 0x7a || 0x30 <= b <= 0x39 || b == 0x2d || b == 0x2e
            || b == 0x5f || b == 0x7e) ==> text == seq![
            '%',
            "0123456789ABCDEF"@[b as int / 16],
            "0123456789ABCDEF"@[b as int % 16],
        ],
{
    reveal_strlit("0123456789ABCDEF");
    let digits = "0123456789ABCDEF"@;
    assert(forall|n: int| 0 <= n < 16 ==> #[trigger] digits[n] == url::hex(n));
}

/// A text escaped after another stands after it.
pub proof fn escapes_follow(a: Seq<u8>, b: Seq<u8>)
    ensures
        url::encoded(a + b) == url::encoded(a) + url::encoded(b),
    decreases b.len(),
{
    if b.len() == 0 {
        assert(a + b =~= a);
        assert(url::encoded(b) =~= Seq::<char>::empty());
        assert(url::encoded(a) + url::encoded(b) =~= url::encoded(a));
    } else {
        assert((a + b).drop_last() =~= a + b.drop_last());
        escapes_follow(a, b.drop_last());
        assert(url::encoded(a) + (url::encoded(b.drop_last()) + url::escaped(b.last())) =~= (
        url::encoded(a) + url::encoded(b.drop_last())) + url::escaped(b.last()));
    }
}

/// Some slashes.
pub open spec fn slashes(n: nat) -> Chars {
    Seq::new(n, |i: int| '/')
}

proof fn slashes_trimmed(stem: Chars, n: nat)
    requires
        stem.len() == 0 || stem.last() != '/',
    ensures
        url::trimmed(stem + slashes(n)) == stem,
    decreases n,
{
    let base = stem + slashes(n);
    if n == 0 {
        assert(base =~= stem);
    } else {
        assert(base.last() == '/');
        assert(base.drop_last() =~= stem + slashes((n - 1) as nat));
        slashes_trimmed(stem, (n - 1) as nat);
    }
}

/// The address is the base, without the slashes it ends in, the path of the socket and the
/// version, and then each connect param, in order: an ampersand, its key, an equals sign
/// and its value, escaped.
pub proof fn the_address(
    stem: Chars,
    n: nat,
    params: Seq<(Chars, Chars)>,
    key: Chars,
    value: Chars,
)
    requires
        stem.len() == 0 || stem.last() != '/',
    ensures
        url::endpoint(stem + slashes(n), Seq::empty()) == stem + "/websocket?vsn="@ + "2.0.0"@,
        url::endpoint(stem + slashes(n), params.push((key, value))) == url::endpoint(
            stem + slashes(n),
            params,
        ) + seq!['&'] + url::encoded(utf8::encode_utf8(key)) + seq!['='] + url::encoded(
            utf8::encode_utf8(value),
        ),
{
    slashes_trimmed(stem, n);
    let head = stem + "/websocket?vsn="@ + "2.0.0"@;
    assert(head + url::query(Seq::empty()) =~= head);
    let all = params.push((key, value));
    assert(all.drop_last() =~= params);
    let tail = seq!['&'] + url::encoded(utf8::encode_utf8(key)) + seq!['='] + url::encoded(
        utf8::encode_utf8(value),
    );
    assert(head + url::query(all) =~= head + url::query(params) + seq!['&'] + url::encoded(
        utf8::encode_utf8(key),
    ) + seq!['='] + url::encoded(utf8::encode_utf8(value)));
}

// ----------------------------------------------------------------------------- the refs

/// A ref is read digit by digit: one more digit makes it ten times as large, and that
/// much larger, as long as it is a ref at all. One digit alone is its number, and a plus
/// sign in front changes nothing.
pub proof fn refs_are_read_digit_by_digit(text: Chars, digit: nat)
    requires
        digit < 10,
    ensures
        decimal::meaning(seq![('0' as int + digit) as char]) == Some(digit as u64),
        decimal::meaning(text) matches Some(n) ==> decimal::meaning(
            text.push(('0' as int + digit) as char),
        ) == (if 10 * n + digit <= u64::MAX {
            Some((10 * n + digit) as u64)
        } else {
            None
        }),
        text.len() > 0 && text[0] != '+' ==> decimal::meaning(seq!['+'] + text)
            == decimal::meaning(text),
{
    let c = ('0' as int + digit) as char;
    let one = seq![c];
    assert(one.drop_last() =~= Seq::<char>::empty());
    assert(pointer::decimal(one.drop_last()) == 0);
    assert(pointer::decimal(one) == digit);
    assert(decimal::unsigned(one) == one);
    assert(pointer::is_digit(c));
    if let Some(n) = decimal::meaning(text) {
        let all = text.push(c);
        let digits = decimal::unsigned(text);
        assert(decimal::unsigned(all) =~= digits.push(c));
        assert(digits.push(c).drop_last() =~= digits);
        assert forall|i: int| 0 <= i < digits.push(c).len() implies pointer::is_digit(
            #[trigger] digits.push(c)[i],
        ) by {
            if i < digits.len() {
                assert(pointer::is_digit(digits[i]));
            }
        }
    }
    assert((seq!['+'] + text).drop_first() =~= text);
}

/// What holds anything but digits, after a plus sign in front, is no ref, and neither is
/// what holds none.
pub proof fn what_is_no_number_is_no_ref(text: Chars, i: int)
    requires
        text.len() == 0 || text == seq!['+'] || (0 <= i < text.len() && !('0' <= text[i] <= '9')
            && !(i == 0 && text[0] == '+')),
    ensures
        decimal::meaning(text) is None,
{
    let digits = decimal::unsigned(text);
    if text == seq!['+'] {
        assert(digits =~= Seq::<char>::empty());
    } else if text.len() > 0 {
        let j = if text[0] == '+' {
            i - 1
        } else {
            i
        };
        assert(digits[j] == text[i]);
        assert(!pointer::is_digit(digits[j]));
    }
}

} // verus!
