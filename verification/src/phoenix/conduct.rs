//! What each thing that is asked of the task, and each frame that arrives, comes
//! to: what is written and said, and what has changed when it is over.

use vstd::prelude::*;

use crate::phoenix::backoff;
use crate::phoenix::channel::{ChannelErrorReason, News};
use crate::phoenix::decimal;
use crate::phoenix::frame;
use crate::phoenix::frame::{Answer, Parcel, ReplyStatus, Sheet};
use crate::phoenix::hub;
use crate::phoenix::hub::{
    Call, Cargo, ChannelStatus, Deed, Failure, Hub, Resume, Seat, SocketStatus, Wait, Waiting,
};
use crate::phoenix::json;
use crate::phoenix::json::Letter;
use crate::phoenix::laws;
use crate::state::keyed;
use crate::state::text::Chars;
use crate::state::value::Json;

verus! {

/// Whether one entry, and no other, is registered for a topic.
pub open spec fn seated(h: Hub, i: int, topic: Chars) -> bool {
    &&& 0 <= i < h.channels.len()
    &&& h.channels[i].topic == topic
    &&& forall|j: int|
        0 <= j < h.channels.len() && j != i ==> (#[trigger] h.channels[j]).topic != topic
}

/// Whether no entry is registered for a topic.
pub open spec fn unseated(h: Hub, topic: Chars) -> bool {
    forall|j: int| 0 <= j < h.channels.len() ==> (#[trigger] h.channels[j]).topic != topic
}

/// Whether nothing in flight goes by a ref.
pub open spec fn unused(h: Hub, r: u64) -> bool {
    forall|k: int| 0 <= k < h.inflight.len() ==> (#[trigger] h.inflight[k]).0 != r
}

/// Whether one thing in flight, and no other, goes by a ref.
pub open spec fn awaited(h: Hub, k: int, r: u64) -> bool {
    &&& 0 <= k < h.inflight.len()
    &&& h.inflight[k].0 == r
    &&& forall|j: int|
        0 <= j < h.inflight.len() && j != k ==> (#[trigger] h.inflight[j]).0 != r
}

/// Whether a frame is a message.
pub open spec fn carries(sheet: Sheet, letter: Letter) -> bool {
    sheet matches Sheet::Text(text) && json::tuple_read(text) == Some(letter)
}

/// Whether an event is none of the protocol's own.
pub open spec fn ordinary(event: Chars) -> bool {
    event != "phx_reply"@ && event != "phx_close"@ && event != "phx_error"@
}

/// The frame of a message.
pub open spec fn text_of(
    join_ref: Option<Chars>,
    r: u64,
    topic: Chars,
    event: Chars,
    payload: Json,
) -> Deed {
    Deed::Send(
        Sheet::Text(
            json::tuple_text(
                Letter {
                    join_ref,
                    msg_ref: Some(decimal::spelled(r as nat)),
                    topic,
                    event,
                    payload,
                },
            ),
        ),
    )
}

/// The entries with one changed.
pub open spec fn with_seat(h: Hub, i: int, seat: Seat) -> Seq<Seat> {
    h.channels.update(i, seat)
}

proof fn found(h: Hub, i: int, topic: Chars)
    requires
        seated(h, i, topic),
    ensures
        hub::find(h.channels, topic) == i,
{
    laws::find_meaning(h.channels, topic);
    let k = hub::find(h.channels, topic) as int;
    if k < i {
        assert(h.channels[k].topic != topic);
    } else if i < k {
        assert(h.channels[i].topic != topic);
    }
}

proof fn not_found(h: Hub, topic: Chars)
    requires
        unseated(h, topic),
    ensures
        hub::find(h.channels, topic) >= h.channels.len(),
{
    laws::find_meaning(h.channels, topic);
}

proof fn put_in_flight(h: Hub, r: u64)
    requires
        unused(h, r),
    ensures
        hub::without(h.inflight, r) == h.inflight,
{
    laws::position_meaning(h.inflight, r);
}

proof fn taken_out(h: Hub, k: int, r: u64)
    requires
        awaited(h, k, r),
    ensures
        hub::position(h.inflight, r) == k,
        hub::without(h.inflight, r) == h.inflight.remove(k),
{
    laws::position_meaning(h.inflight, r);
    let at = hub::position(h.inflight, r) as int;
    if at < k {
        assert(h.inflight[at].0 != r);
    } else if k < at {
        assert(h.inflight[k].0 != r);
    }
}

proof fn words_differ()
    ensures
        "phx_reply"@ != "phx_close"@,
        "phx_reply"@ != "phx_error"@,
        "phx_close"@ != "phx_error"@,
{
    reveal_strlit("phx_reply");
    reveal_strlit("phx_close");
    reveal_strlit("phx_error");
    assert("phx_reply"@[4] == 'r');
    assert("phx_close"@[4] == 'c');
    assert("phx_error"@[4] == 'e');
}

// ------------------------------------------------------------------------ pushes

/// A push of a document on a joined channel writes one frame: the channel's join
/// ref, the next ref, the topic, the event and the document. The push waits for the
/// reply to that ref, no longer than the time a push has.
pub proof fn a_push_is_written(
    h: Hub,
    i: int,
    topic: Chars,
    event: Chars,
    payload: Json,
    ticket: u64,
    seed: u64,
)
    requires
        seated(h, i, topic),
        h.socket,
        h.channels[i].status == ChannelStatus::Joined,
        h.next_ref < u64::MAX,
        unused(h, (h.next_ref + 1) as u64),
    ensures
        ({
            let r = (h.next_ref + 1) as u64;
            hub::handle(
                h,
                Call::Push {
                    topic,
                    generation: h.channels[i].generation,
                    event,
                    payload: Cargo::Json(payload),
                    ticket,
                },
                seed,
            ) == (Hub {
                next_ref: r,
                resume: Resume::Done,
                inflight: h.inflight.push((r, Waiting::Push { ticket })),
                out: h.out.push(
                    Deed::Sleep { wait: Wait::Push, alarm: Call::Timeout { msg_ref: r } },
                ).push(text_of(h.channels[i].join_ref, r, topic, event, payload)),
                ..h
            })
        }),
{
    found(h, i, topic);
    put_in_flight(h, (h.next_ref + 1) as u64);
}

/// A push of bytes on a joined channel writes one binary frame, which is read back
/// as the join ref, the next ref, the topic, the event and the bytes, wherever each
/// of the four texts is short enough for its length to be told in one byte.
pub proof fn a_binary_push_is_written(
    h: Hub,
    i: int,
    topic: Chars,
    event: Chars,
    bytes: Seq<u8>,
    join_ref: Chars,
    ticket: u64,
    seed: u64,
)
    requires
        seated(h, i, topic),
        h.socket,
        h.channels[i].status == ChannelStatus::Joined,
        h.channels[i].join_ref == Some(join_ref),
        h.next_ref < u64::MAX,
        unused(h, (h.next_ref + 1) as u64),
        frame::width(join_ref) <= 255,
        frame::width(topic) <= 255,
        frame::width(event) <= 255,
        frame::width(decimal::spelled((h.next_ref + 1) as nat)) <= 255,
    ensures
        ({
            let r = (h.next_ref + 1) as u64;
            let parcel = Parcel {
                join_ref,
                msg_ref: decimal::spelled(r as nat),
                topic,
                event,
                payload: bytes,
            };
            let t = hub::handle(
                h,
                Call::Push {
                    topic,
                    generation: h.channels[i].generation,
                    event,
                    payload: Cargo::Binary(bytes),
                    ticket,
                },
                seed,
            );
            &&& t.out.len() == h.out.len() + 2
            &&& t.out.take(h.out.len() as int) == h.out
            &&& t.out[h.out.len() as int] == (Deed::Sleep {
                wait: Wait::Push,
                alarm: Call::Timeout { msg_ref: r },
            })
            &&& t.out.last() matches Deed::Send(Sheet::Binary(sent)) && frame::unframed(sent) == Ok::<
                Parcel,
                frame::Flaw,
            >(parcel)
            &&& t == (Hub {
                next_ref: r,
                resume: Resume::Done,
                inflight: h.inflight.push((r, Waiting::Push { ticket })),
                out: t.out,
                ..h
            })
        }),
{
    let r = (h.next_ref + 1) as u64;
    found(h, i, topic);
    put_in_flight(h, r);
    let parcel = Parcel {
        join_ref,
        msg_ref: decimal::spelled(r as nat),
        topic,
        event,
        payload: bytes,
    };
    assert(frame::unframable(parcel) is None);
    frame::frame_round_trip(parcel);
    let t = hub::handle(
        h,
        Call::Push {
            topic,
            generation: h.channels[i].generation,
            event,
            payload: Cargo::Binary(bytes),
            ticket,
        },
        seed,
    );
    assert(t.out.take(h.out.len() as int) =~= h.out);
}

/// A push that cannot be made is answered at once, and nothing is written: one by a
/// handle that is no longer the topic's, and one on a channel that is not joined.
pub proof fn a_push_that_cannot_be_made_is_refused(
    h: Hub,
    i: int,
    topic: Chars,
    generation: u64,
    event: Chars,
    payload: Cargo,
    ticket: u64,
    seed: u64,
)
    ensures
        ({
            let t = hub::handle(h, Call::Push { topic, generation, event, payload, ticket }, seed);
            &&& unseated(h, topic) || (seated(h, i, topic) && h.channels[i].generation
                != generation) ==> t == (Hub {
                out: h.out.push(Deed::Answered { ticket, outcome: Err(Failure::Stale) }),
                ..h
            })
            &&& seated(h, i, topic) && h.channels[i].generation == generation && (!h.socket
                || h.channels[i].status != ChannelStatus::Joined) ==> t == (Hub {
                out: h.out.push(Deed::Answered { ticket, outcome: Err(Failure::NotJoined) }),
                ..h
            })
        }),
{
    if unseated(h, topic) {
        not_found(h, topic);
    }
    if seated(h, i, topic) {
        found(h, i, topic);
    }
}

// ---------------------------------------------------------------------- messages

/// A message reaches its channel: one of the server's own, or one that carries the
/// channel's join ref, is reported once, with its event and its payload, and nothing
/// else changes.
pub proof fn a_message_reaches_its_channel(h: Hub, i: int, sheet: Sheet, letter: Letter, seed: u64)
    requires
        carries(sheet, letter),
        seated(h, i, letter.topic),
        ordinary(letter.event),
        letter.join_ref is None || letter.join_ref == h.channels[i].join_ref,
    ensures
        hub::handle_frame(h, sheet, seed) == (Hub {
            out: h.out.push(
                Deed::Emit {
                    generation: h.channels[i].generation,
                    news: News::Message { event: letter.event, payload: letter.payload },
                },
            ),
            ..h
        }),
{
    found(h, i, letter.topic);
}

/// A frame that is nobody's changes nothing: a binary one, a text that is no
/// message, a message on a topic that nobody has, and one of a join that the channel
/// has moved off.
pub proof fn what_is_nobodys_is_dropped(h: Hub, i: int, sheet: Sheet, letter: Letter, seed: u64)
    ensures
        sheet is Binary ==> hub::handle_frame(h, sheet, seed) == h,
        (sheet matches Sheet::Text(text) && json::tuple_read(text) is None) ==> hub::handle_frame(
            h,
            sheet,
            seed,
        ) == h,
        carries(sheet, letter) && letter.event != "phx_reply"@ && unseated(h, letter.topic)
            ==> hub::handle_frame(h, sheet, seed) == h,
        carries(sheet, letter) && letter.event != "phx_reply"@ && seated(h, i, letter.topic)
            && letter.join_ref is Some && letter.join_ref != h.channels[i].join_ref
            ==> hub::handle_frame(h, sheet, seed) == h,
{
    if unseated(h, letter.topic) {
        not_found(h, letter.topic);
    }
    if seated(h, i, letter.topic) {
        found(h, i, letter.topic);
    }
}

/// A channel that the server tears down is closed and told so, by a close or by an
/// error; where it wants to be joined, its next join is set, after the time its
/// ladder gives.
pub proof fn a_channel_that_goes_down_is_told_and_comes_back(
    h: Hub,
    i: int,
    sheet: Sheet,
    letter: Letter,
    seed: u64,
)
    requires
        carries(sheet, letter),
        seated(h, i, letter.topic),
        letter.join_ref is None || letter.join_ref == h.channels[i].join_ref,
        letter.event == "phx_close"@ && !h.channels[i].suppress_close || letter.event
            == "phx_error"@,
        h.socket,
        !h.closed,
        h.channels[i].wants_join,
        h.channels[i].rejoin is None,
        h.channels[i].taken < usize::MAX,
    ensures
        ({
            let seat = h.channels[i];
            hub::handle_frame(h, sheet, seed) == (Hub {
                channels: with_seat(
                    h,
                    i,
                    Seat {
                        status: ChannelStatus::Closed,
                        join_ref: None,
                        rejoin: Some(seat.attempt),
                        taken: (seat.taken + 1) as usize,
                        ..seat
                    },
                ),
                out: h.out.push(
                    Deed::Emit {
                        generation: seat.generation,
                        news: if letter.event == "phx_close"@ {
                            News::Close
                        } else {
                            News::Error { reason: ChannelErrorReason::Server }
                        },
                    },
                ).push(
                    Deed::Sleep {
                        wait: Wait::Millis(backoff::delay(seat.taken as nat, seed) as u64),
                        alarm: Call::Rejoin {
                            topic: letter.topic,
                            generation: seat.generation,
                            attempt: seat.attempt,
                        },
                    },
                ),
                ..h
            })
        }),
{
    words_differ();
    found(h, i, letter.topic);
    let seat = h.channels[i];
    let closed = hub::reseat(
        h,
        i,
        Seat { status: ChannelStatus::Closed, join_ref: None, ..seat },
    );
    assert(seated(closed, i, letter.topic)) by {
        assert forall|j: int| 0 <= j < closed.channels.len() && j != i implies (
        #[trigger] closed.channels[j]).topic != letter.topic by {
            assert(h.channels[j].topic != letter.topic);
        }
    }
    found(closed, i, letter.topic);
    assert(hub::handle_frame(h, sheet, seed).channels =~= with_seat(
        h,
        i,
        Seat {
            status: ChannelStatus::Closed,
            join_ref: None,
            rejoin: Some(seat.attempt),
            taken: (seat.taken + 1) as usize,
            ..seat
        },
    ));
}

/// A channel that nobody wants joined is closed and told so, and is left at that.
pub proof fn a_channel_nobody_wants_stays_down(
    h: Hub,
    i: int,
    sheet: Sheet,
    letter: Letter,
    seed: u64,
)
    requires
        carries(sheet, letter),
        seated(h, i, letter.topic),
        letter.join_ref is None || letter.join_ref == h.channels[i].join_ref,
        !h.channels[i].wants_join,
    ensures
        letter.event == "phx_error"@ || (letter.event == "phx_close"@
            && !h.channels[i].suppress_close) ==> hub::handle_frame(h, sheet, seed) == (Hub {
            channels: with_seat(
                h,
                i,
                Seat { status: ChannelStatus::Closed, join_ref: None, ..h.channels[i] },
            ),
            out: h.out.push(
                Deed::Emit {
                    generation: h.channels[i].generation,
                    news: if letter.event == "phx_close"@ {
                        News::Close
                    } else {
                        News::Error { reason: ChannelErrorReason::Server }
                    },
                },
            ),
            ..h
        }),
        letter.event == "phx_close"@ && h.channels[i].suppress_close ==> hub::handle_frame(
            h,
            sheet,
            seed,
        ) == (Hub {
            channels: h.channels.remove(i),
            out: h.out.push(Deed::End { generation: h.channels[i].generation }),
            ..h
        }),
{
    words_differ();
    found(h, i, letter.topic);
    let seat = h.channels[i];
    let closed = hub::reseat(
        h,
        i,
        Seat { status: ChannelStatus::Closed, join_ref: None, ..seat },
    );
    assert(seated(closed, i, letter.topic)) by {
        assert forall|j: int| 0 <= j < closed.channels.len() && j != i implies (
        #[trigger] closed.channels[j]).topic != letter.topic by {
            assert(h.channels[j].topic != letter.topic);
        }
    }
    found(closed, i, letter.topic);
}

// ----------------------------------------------------------------------- replies

/// Whether a message is a reply to a ref.
pub open spec fn replies(letter: Letter, r: u64) -> bool {
    letter.event == "phx_reply"@ && letter.msg_ref == Some(decimal::spelled(r as nat))
}

/// Whether a document is a reply: an object of a status, `ok` or `error`, and a
/// response, which is `null` where it is left out.
pub open spec fn says(payload: Json, okay: bool, response: Json) -> bool {
    payload matches Json::Object(fields) && {
        &&& keyed::lookup(fields, "status"@) == Some(
            Json::Text(
                if okay {
                    "ok"@
                } else {
                    "error"@
                },
            ),
        )
        &&& match keyed::lookup(fields, "response"@) {
            Some(given) => given == response,
            None => response == Json::Null,
        }
    }
}

proof fn reply_is(payload: Json, okay: bool, response: Json)
    requires
        says(payload, okay, response),
    ensures
        frame::reply_of(payload) == Some(
            Answer {
                status: if okay {
                    ReplyStatus::Okay
                } else {
                    ReplyStatus::Error
                },
                response,
            },
        ),
{
    reveal_strlit("ok");
    reveal_strlit("error");
    assert("ok"@.len() == 2 && "error"@.len() == 5);
}

/// A reply to a push is given to whoever pushed, as it came: its status and its
/// response.
pub proof fn a_reply_is_given_to_its_push(
    h: Hub,
    k: int,
    r: u64,
    ticket: u64,
    sheet: Sheet,
    letter: Letter,
    okay: bool,
    response: Json,
    seed: u64,
)
    requires
        carries(sheet, letter),
        replies(letter, r),
        says(letter.payload, okay, response),
        h.pending_heartbeat != Some(r),
        awaited(h, k, r),
        h.inflight[k].1 == (Waiting::Push { ticket }),
    ensures
        hub::handle_frame(h, sheet, seed) == (Hub {
            inflight: h.inflight.remove(k),
            out: h.out.push(
                Deed::Answered {
                    ticket,
                    outcome: Ok(
                        Answer {
                            status: if okay {
                                ReplyStatus::Okay
                            } else {
                                ReplyStatus::Error
                            },
                            response,
                        },
                    ),
                },
            ),
            ..h
        }),
{
    decimal::ref_round_trip(r);
    taken_out(h, k, r);
    reply_is(letter.payload, okay, response);
}

/// A reply that is none rejects the push it answers.
pub proof fn a_reply_that_is_none_rejects_its_push(
    h: Hub,
    k: int,
    r: u64,
    ticket: u64,
    sheet: Sheet,
    letter: Letter,
    seed: u64,
)
    requires
        carries(sheet, letter),
        replies(letter, r),
        !(letter.payload is Object) && !(letter.payload is Array) || (letter.payload matches Json::Object(
            fields,
        ) && !keyed::has_key(fields, "status"@)),
        h.pending_heartbeat != Some(r),
        awaited(h, k, r),
        h.inflight[k].1 == (Waiting::Push { ticket }),
    ensures
        hub::handle_frame(h, sheet, seed) == (Hub {
            inflight: h.inflight.remove(k),
            out: h.out.push(
                Deed::Answered { ticket, outcome: Err(Failure::MalformedReply) },
            ),
            ..h
        }),
{
    decimal::ref_round_trip(r);
    taken_out(h, k, r);
}

/// A reply to what nobody waits for changes nothing; one to the heartbeat counts as
/// its answer.
pub proof fn a_reply_nobody_waits_for_is_dropped(
    h: Hub,
    r: u64,
    sheet: Sheet,
    letter: Letter,
    seed: u64,
)
    requires
        carries(sheet, letter),
        replies(letter, r),
    ensures
        h.pending_heartbeat == Some(r) ==> hub::handle_frame(h, sheet, seed) == (Hub {
            pending_heartbeat: None,
            ..h
        }),
        h.pending_heartbeat != Some(r) && unused(h, r) ==> hub::handle_frame(h, sheet, seed) == h,
{
    decimal::ref_round_trip(r);
    laws::position_meaning(h.inflight, r);
}

/// A join that the server accepts opens the channel, which is told the response,
/// and its ladder starts over.
pub proof fn an_accepted_join_opens_the_channel(
    h: Hub,
    i: int,
    k: int,
    r: u64,
    sheet: Sheet,
    letter: Letter,
    response: Json,
    seed: u64,
)
    requires
        carries(sheet, letter),
        replies(letter, r),
        says(letter.payload, true, response),
        h.pending_heartbeat != Some(r),
        awaited(h, k, r),
        seated(h, i, h.channels[i].topic),
        h.channels[i].status == ChannelStatus::Joining,
        h.inflight[k].1 == (Waiting::Join {
            topic: h.channels[i].topic,
            generation: h.channels[i].generation,
            attempt: h.channels[i].attempt,
        }),
    ensures
        hub::handle_frame(h, sheet, seed) == (Hub {
            inflight: h.inflight.remove(k),
            channels: with_seat(
                h,
                i,
                Seat { status: ChannelStatus::Joined, taken: 0, ..h.channels[i] },
            ),
            out: h.out.push(
                Deed::Emit {
                    generation: h.channels[i].generation,
                    news: News::Joined { response },
                },
            ),
            ..h
        }),
{
    decimal::ref_round_trip(r);
    taken_out(h, k, r);
    reply_is(letter.payload, true, response);
    found(h, i, h.channels[i].topic);
}

/// A join that the server refuses is reported with the response, and tried again
/// after the time the channel's ladder gives.
pub proof fn a_refused_join_is_tried_again(
    h: Hub,
    i: int,
    k: int,
    r: u64,
    sheet: Sheet,
    letter: Letter,
    response: Json,
    seed: u64,
)
    requires
        carries(sheet, letter),
        replies(letter, r),
        says(letter.payload, false, response),
        h.pending_heartbeat != Some(r),
        awaited(h, k, r),
        seated(h, i, h.channels[i].topic),
        h.channels[i].status == ChannelStatus::Joining,
        h.inflight[k].1 == (Waiting::Join {
            topic: h.channels[i].topic,
            generation: h.channels[i].generation,
            attempt: h.channels[i].attempt,
        }),
        h.socket,
        !h.closed,
        h.channels[i].wants_join,
        h.channels[i].rejoin is None,
        h.channels[i].taken < usize::MAX,
    ensures
        ({
            let seat = h.channels[i];
            hub::handle_frame(h, sheet, seed) == (Hub {
                inflight: h.inflight.remove(k),
                channels: with_seat(
                    h,
                    i,
                    Seat {
                        status: ChannelStatus::Closed,
                        rejoin: Some(seat.attempt),
                        taken: (seat.taken + 1) as usize,
                        ..seat
                    },
                ),
                out: h.out.push(
                    Deed::Emit {
                        generation: seat.generation,
                        news: News::JoinError { response },
                    },
                ).push(
                    Deed::Sleep {
                        wait: Wait::Millis(backoff::delay(seat.taken as nat, seed) as u64),
                        alarm: Call::Rejoin {
                            topic: seat.topic,
                            generation: seat.generation,
                            attempt: seat.attempt,
                        },
                    },
                ),
                ..h
            })
        }),
{
    decimal::ref_round_trip(r);
    taken_out(h, k, r);
    reply_is(letter.payload, false, response);
    let seat = h.channels[i];
    found(h, i, seat.topic);
    let freed = Hub { inflight: h.inflight.remove(k), ..h };
    let closed = hub::reseat(freed, i, Seat { status: ChannelStatus::Closed, ..seat });
    assert(seated(closed, i, seat.topic)) by {
        assert forall|j: int| 0 <= j < closed.channels.len() && j != i implies (
        #[trigger] closed.channels[j]).topic != seat.topic by {
            assert(h.channels[j].topic != seat.topic);
        }
    }
    found(closed, i, seat.topic);
    assert(hub::handle_frame(h, sheet, seed).channels =~= with_seat(
        h,
        i,
        Seat {
            status: ChannelStatus::Closed,
            rejoin: Some(seat.attempt),
            taken: (seat.taken + 1) as usize,
            ..seat
        },
    ));
}

/// A leave that the server has answered is over: the channel is dropped, and its
/// reports end.
pub proof fn an_answered_leave_drops_the_channel(
    h: Hub,
    i: int,
    k: int,
    r: u64,
    sheet: Sheet,
    letter: Letter,
    okay: bool,
    response: Json,
    seed: u64,
)
    requires
        carries(sheet, letter),
        replies(letter, r),
        says(letter.payload, okay, response),
        h.pending_heartbeat != Some(r),
        awaited(h, k, r),
        seated(h, i, h.channels[i].topic),
        h.inflight[k].1 == (Waiting::Leave {
            topic: h.channels[i].topic,
            generation: h.channels[i].generation,
        }),
    ensures
        hub::handle_frame(h, sheet, seed) == (Hub {
            inflight: h.inflight.remove(k),
            channels: h.channels.remove(i),
            out: h.out.push(Deed::End { generation: h.channels[i].generation }),
            ..h
        }),
{
    decimal::ref_round_trip(r);
    taken_out(h, k, r);
    reply_is(letter.payload, okay, response);
    found(h, i, h.channels[i].topic);
}

// --------------------------------------------------------------------- lifecycle

/// A topic that nobody has is registered under the next generation, with the
/// parameters it is to be joined with, closed, and wanted by nobody yet; whoever
/// asked is told the generation.
pub proof fn attaching_registers_the_topic(
    h: Hub,
    topic: Chars,
    params: Json,
    ticket: u64,
    seed: u64,
)
    requires
        unseated(h, topic),
        h.next_generation < u64::MAX,
    ensures
        ({
            let generation = (h.next_generation + 1) as u64;
            hub::handle(h, Call::Attach { topic, params, ticket }, seed) == (Hub {
                next_generation: generation,
                channels: h.channels.push(
                    Seat {
                        topic,
                        generation,
                        params,
                        status: ChannelStatus::Closed,
                        join_ref: None,
                        attempt: 0,
                        wants_join: false,
                        suppress_close: false,
                        taken: 0,
                        rejoin: None,
                    },
                ),
                out: h.out.push(Deed::Attached { ticket, generation }),
                ..h
            })
        }),
{
    not_found(h, topic);
}

/// A topic that is attached again takes the place of the channel it had, whose
/// reports end, and carries the new parameters.
pub proof fn attaching_again_starts_over(
    h: Hub,
    i: int,
    topic: Chars,
    params: Json,
    ticket: u64,
    seed: u64,
)
    requires
        seated(h, i, topic),
        h.next_generation < u64::MAX,
    ensures
        ({
            let generation = (h.next_generation + 1) as u64;
            hub::handle(h, Call::Attach { topic, params, ticket }, seed) == (Hub {
                next_generation: generation,
                channels: with_seat(
                    h,
                    i,
                    Seat {
                        topic,
                        generation,
                        params,
                        status: ChannelStatus::Closed,
                        join_ref: None,
                        attempt: 0,
                        wants_join: false,
                        suppress_close: false,
                        taken: 0,
                        rejoin: None,
                    },
                ),
                out: h.out.push(Deed::End { generation: h.channels[i].generation }).push(
                    Deed::Attached { ticket, generation },
                ),
                ..h
            })
        }),
{
    found(h, i, topic);
}

/// Whether the next ref and the next attempt of a channel are at hand.
pub open spec fn ready(h: Hub, i: int) -> bool {
    &&& h.next_ref < u64::MAX
    &&& h.channels[i].attempt < u64::MAX
    &&& unused(h, (h.next_ref + 1) as u64)
}

/// The state once a join of a channel is being written: the frame has the next ref
/// as its join ref and as its ref, the topic, `phx_join`, and the parameters; the
/// channel is joining by that ref; and the join waits for the reply, no longer than
/// the time a join has.
pub open spec fn joins(h: Hub, i: int, seat: Seat, resume: Resume, t: Hub) -> bool {
    let r = (h.next_ref + 1) as u64;
    let attempt = (seat.attempt + 1) as u64;
    t == (Hub {
        next_ref: r,
        resume,
        channels: with_seat(
            h,
            i,
            Seat {
                status: ChannelStatus::Joining,
                join_ref: Some(decimal::spelled(r as nat)),
                attempt,
                ..seat
            },
        ),
        inflight: h.inflight.push(
            (r, Waiting::Join { topic: seat.topic, generation: seat.generation, attempt }),
        ),
        out: h.out.push(
            Deed::Sleep { wait: Wait::Join, alarm: Call::Timeout { msg_ref: r } },
        ).push(
            text_of(
                Some(decimal::spelled(r as nat)),
                r,
                seat.topic,
                "phx_join"@,
                seat.params,
            ),
        ),
        ..h
    })
}

proof fn reseated(h: Hub, i: int, topic: Chars, seat: Seat)
    requires
        seated(h, i, topic),
        seat.topic == topic,
    ensures
        seated(hub::reseat(h, i, seat), i, topic),
{
    let t = hub::reseat(h, i, seat);
    assert forall|j: int| 0 <= j < t.channels.len() && j != i implies (
    #[trigger] t.channels[j]).topic != topic by {
        assert(h.channels[j].topic != topic);
    }
}

proof fn join_sent(h: Hub, i: int, topic: Chars, resume: Resume)
    requires
        seated(h, i, topic),
        h.socket,
        h.channels[i].status == ChannelStatus::Closed,
        ready(h, i),
    ensures
        joins(
            h,
            i,
            h.channels[i],
            resume,
            hub::send_join(h, topic, h.channels[i].generation, resume),
        ),
{
    found(h, i, topic);
    put_in_flight(h, (h.next_ref + 1) as u64);
}

/// Joining a closed channel on an open socket writes the join; without a socket, it
/// asks for one. Either way the channel is wanted from then on, and a close is
/// reported again.
pub proof fn a_join_is_written_or_waits_for_the_socket(h: Hub, i: int, topic: Chars, seed: u64)
    requires
        seated(h, i, topic),
    ensures
        ({
            let seat = h.channels[i];
            let wanted = Seat { wants_join: true, suppress_close: false, ..seat };
            let t = hub::handle(h, Call::Join { topic, generation: seat.generation }, seed);
            &&& h.socket && seat.status == ChannelStatus::Closed && ready(h, i) ==> joins(
                h,
                i,
                wanted,
                Resume::Done,
                t,
            )
            &&& h.socket && seat.status != ChannelStatus::Closed ==> t.out == h.out && t.channels
                == with_seat(h, i, wanted)
            &&& !h.socket && !h.closed && !h.connecting ==> t == (Hub {
                channels: with_seat(h, i, wanted),
                connecting: true,
                out: h.out.push(Deed::Connect),
                ..h
            })
            &&& !h.socket && (h.closed || h.connecting) ==> t == (Hub {
                channels: with_seat(h, i, wanted),
                ..h
            })
        }),
{
    found(h, i, topic);
    let seat = h.channels[i];
    let wanted = Seat { wants_join: true, suppress_close: false, ..seat };
    let willing = hub::reseat(h, i, wanted);
    reseated(h, i, topic, wanted);
    found(willing, i, topic);
    if h.socket && seat.status == ChannelStatus::Closed && ready(h, i) {
        join_sent(willing, i, topic, Resume::Done);
        let t = hub::handle(h, Call::Join { topic, generation: seat.generation }, seed);
        let r = (h.next_ref + 1) as u64;
        assert(t.channels =~= with_seat(
            h,
            i,
            Seat {
                status: ChannelStatus::Joining,
                join_ref: Some(decimal::spelled(r as nat)),
                attempt: (seat.attempt + 1) as u64,
                ..wanted
            },
        ));
    }
}

/// A join that was set for later is written when it comes due, where the channel
/// still waits for that one; one that was set for an attempt the channel has moved
/// off changes nothing.
pub proof fn a_rejoin_is_written_when_it_comes_due(
    h: Hub,
    i: int,
    topic: Chars,
    attempt: u64,
    seed: u64,
)
    requires
        seated(h, i, topic),
    ensures
        ({
            let seat = h.channels[i];
            let t = hub::handle(
                h,
                Call::Rejoin { topic, generation: seat.generation, attempt },
                seed,
            );
            &&& seat.rejoin == Some(attempt) && h.socket && seat.status == ChannelStatus::Closed
                && ready(h, i) ==> joins(
                h,
                i,
                Seat { rejoin: None, wants_join: true, suppress_close: false, ..seat },
                Resume::Done,
                t,
            )
            &&& seat.rejoin == Some(attempt) && !h.socket ==> t == (Hub {
                channels: with_seat(h, i, Seat { rejoin: None, ..seat }),
                ..h
            })
            &&& seat.rejoin != Some(attempt) ==> t == h
        }),
{
    found(h, i, topic);
    let seat = h.channels[i];
    let off = Seat { rejoin: None, ..seat };
    let disarmed = hub::reseat(h, i, off);
    reseated(h, i, topic, off);
    if h.socket && seat.rejoin == Some(attempt) && seat.status == ChannelStatus::Closed && ready(
        h,
        i,
    ) {
        a_join_is_written_or_waits_for_the_socket(disarmed, i, topic, seed);
        let t = hub::handle(h, Call::Rejoin { topic, generation: seat.generation, attempt }, seed);
        let r = (h.next_ref + 1) as u64;
        assert(t.channels =~= with_seat(
            h,
            i,
            Seat {
                status: ChannelStatus::Joining,
                join_ref: Some(decimal::spelled(r as nat)),
                attempt: (seat.attempt + 1) as u64,
                rejoin: None,
                wants_join: true,
                suppress_close: false,
                ..seat
            },
        ));
    }
}

/// Leaving a channel that the server may know writes one `phx_leave`, by the
/// channel's join ref, and waits for the answer; any other is dropped at once.
/// Nobody wants it from then on.
pub proof fn a_leave_is_written_or_drops_the_channel(
    h: Hub,
    i: int,
    topic: Chars,
    seed: u64,
)
    requires
        seated(h, i, topic),
    ensures
        ({
            let seat = h.channels[i];
            let r = (h.next_ref + 1) as u64;
            let t = hub::handle(h, Call::Leave { topic, generation: seat.generation }, seed);
            &&& h.socket && seat.join_ref is Some && h.next_ref < u64::MAX && unused(h, r) ==> t
                == (Hub {
                next_ref: r,
                resume: Resume::Done,
                channels: with_seat(
                    h,
                    i,
                    Seat {
                        wants_join: false,
                        suppress_close: true,
                        status: ChannelStatus::Leaving,
                        ..seat
                    },
                ),
                inflight: h.inflight.push(
                    (r, Waiting::Leave { topic, generation: seat.generation }),
                ),
                out: h.out.push(
                    Deed::Sleep { wait: Wait::Push, alarm: Call::Timeout { msg_ref: r } },
                ).push(
                    text_of(
                        seat.join_ref,
                        r,
                        topic,
                        "phx_leave"@,
                        Json::Object(Seq::empty()),
                    ),
                ),
                ..h
            })
            &&& !h.socket || seat.join_ref is None ==> t == (Hub {
                channels: h.channels.remove(i),
                out: h.out.push(Deed::End { generation: seat.generation }),
                ..h
            })
        }),
{
    found(h, i, topic);
    let seat = h.channels[i];
    if h.next_ref < u64::MAX && unused(h, (h.next_ref + 1) as u64) {
        put_in_flight(h, (h.next_ref + 1) as u64);
    }
    let t = hub::handle(h, Call::Leave { topic, generation: seat.generation }, seed);
    if !h.socket || seat.join_ref is None {
        assert(t.channels =~= h.channels.remove(i));
    }
}

/// What is asked of a topic by a handle that is no longer its own changes nothing.
pub proof fn a_stale_handle_changes_nothing(
    h: Hub,
    i: int,
    topic: Chars,
    generation: u64,
    attempt: u64,
    seed: u64,
)
    requires
        unseated(h, topic) || (seated(h, i, topic) && h.channels[i].generation != generation),
    ensures
        hub::handle(h, Call::Join { topic, generation }, seed) == h,
        hub::handle(h, Call::Leave { topic, generation }, seed) == h,
        hub::handle(h, Call::Rejoin { topic, generation, attempt }, seed) == h,
{
    if unseated(h, topic) {
        not_found(h, topic);
    } else {
        found(h, i, topic);
    }
}

// -------------------------------------------------------------------- connecting

/// The time to try again has come: the socket is asked for, unless there is one, or
/// one on its way, or it is closed for good.
pub proof fn reconnecting_asks_for_the_socket(h: Hub, seed: u64)
    ensures
        !h.closed && !h.connecting && !h.socket ==> hub::handle(h, Call::Reconnect, seed)
            == (Hub {
            reconnect_scheduled: false,
            connecting: true,
            out: h.out.push(Deed::Connect),
            ..h
        }),
        h.closed || h.connecting || h.socket ==> hub::handle(h, Call::Reconnect, seed) == (Hub {
            reconnect_scheduled: false,
            ..h
        }),
{
}

proof fn first_wanting(channels: Seq<Seat>, i: int)
    requires
        0 <= i < channels.len(),
        channels[i].wants_join,
        forall|j: int| 0 <= j < i ==> !(#[trigger] channels[j]).wants_join,
    ensures
        hub::wanting(channels).len() > 0,
        hub::wanting(channels)[0] == (channels[i].topic, channels[i].generation),
    decreases channels.len(),
{
    let rest = channels.drop_last();
    if i == channels.len() - 1 {
        none_wanting(rest);
    } else {
        first_wanting(rest, i);
    }
}

proof fn none_wanting(channels: Seq<Seat>)
    requires
        forall|j: int| 0 <= j < channels.len() ==> !(#[trigger] channels[j]).wants_join,
    ensures
        hub::wanting(channels) == Seq::<(Chars, u64)>::empty(),
    decreases channels.len(),
{
    if channels.len() > 0 {
        none_wanting(channels.drop_last());
    }
}

/// The state once a socket is open: it is the next connection, its heartbeat is set,
/// its ladder starts over, and that it is connected is published.
pub open spec fn opened(h: Hub) -> Hub {
    Hub {
        connecting: false,
        socket: true,
        connection: (h.connection + 1) as u64,
        taken: 0,
        status: SocketStatus::Connected,
        out: h.out.push(
            Deed::Sleep {
                wait: Wait::Heartbeat,
                alarm: Call::HeartbeatTick { connection: (h.connection + 1) as u64 },
            },
        ).push(Deed::Publish(SocketStatus::Connected)),
        ..h
    }
}

/// Once the socket is open, the first channel that wants to be joined is joined, and
/// where none does, nothing more happens.
pub proof fn an_open_socket_joins_the_first_channel(h: Hub, i: int, seed: u64)
    requires
        !h.closed,
        !h.socket,
        h.status != SocketStatus::Connected,
        h.resume is Idle,
        h.connection < u64::MAX,
    ensures
        ({
            let t = hub::handle(h, Call::Connected { opened: true }, seed);
            &&& (forall|j: int| 0 <= j < h.channels.len() ==> !(#[trigger] h.channels[j]).wants_join)
                ==> t == opened(h)
            &&& 0 <= i < h.channels.len() && h.channels[i].wants_join && h.channels[i].status
                == ChannelStatus::Closed && seated(h, i, h.channels[i].topic) && ready(h, i) && (
            forall|j: int| 0 <= j < i ==> !(#[trigger] h.channels[j]).wants_join)
                ==> t.resume is Joins && joins(opened(h), i, h.channels[i], t.resume, t)
        }),
{
    let o = opened(h);
    let armed = hub::set_status(
        hub::arm_heartbeat(
            Hub {
                connecting: false,
                socket: true,
                connection: hub::bumped(h.connection),
                taken: 0,
                ..h
            },
        ),
        SocketStatus::Connected,
    );
    assert(armed == o);
    let t = hub::handle(h, Call::Connected { opened: true }, seed);
    if forall|j: int| 0 <= j < h.channels.len() ==> !(#[trigger] h.channels[j]).wants_join {
        none_wanting(h.channels);
    }
    if 0 <= i < h.channels.len() && h.channels[i].wants_join && h.channels[i].status
        == ChannelStatus::Closed && seated(h, i, h.channels[i].topic) && ready(h, i) && (forall|
        j: int,
    |
        0 <= j < i ==> !(#[trigger] h.channels[j]).wants_join) {
        first_wanting(h.channels, i);
        let list = hub::wanting(h.channels);
        assert(seated(o, i, h.channels[i].topic));
        join_sent(o, i, h.channels[i].topic, Resume::Joins(list.drop_first()));
    }
}

/// A socket that opens after it was closed for good is hung up.
pub proof fn a_socket_nobody_wants_is_hung_up(h: Hub, seed: u64)
    requires
        h.closed,
    ensures
        hub::handle(h, Call::Connected { opened: true }, seed) == (Hub {
            connecting: false,
            out: h.out.push(Deed::HangUp),
            ..h
        }),
{
}

proof fn told_wanting(channels: Seq<Seat>, i: int, reason: ChannelErrorReason)
    requires
        0 <= i < channels.len(),
        forall|j: int|
            0 <= j < channels.len() && j != i ==> (#[trigger] channels[j]).generation
                != channels[i].generation,
    ensures
        laws::times_told(
            hub::to_wanting(channels, News::Error { reason }),
            channels[i].generation,
            reason,
        ) == (if channels[i].wants_join {
            1nat
        } else {
            0nat
        }),
    decreases channels.len(),
{
    let rest = channels.drop_last();
    let said = hub::to_wanting(channels, News::Error { reason });
    let before = hub::to_wanting(rest, News::Error { reason });
    let last = channels.last();
    assert(channels[channels.len() - 1] == last);
    if last.wants_join {
        assert(said.drop_last() =~= before);
    }
    if i == channels.len() - 1 {
        told_none(rest, channels[i].generation, reason);
    } else {
        told_wanting(rest, i, reason);
    }
}

proof fn told_none(channels: Seq<Seat>, generation: u64, reason: ChannelErrorReason)
    requires
        forall|j: int|
            0 <= j < channels.len() ==> (#[trigger] channels[j]).generation != generation,
    ensures
        laws::times_told(
            hub::to_wanting(channels, News::Error { reason }),
            generation,
            reason,
        ) == 0,
    decreases channels.len(),
{
    if channels.len() > 0 {
        let said = hub::to_wanting(channels, News::Error { reason });
        let rest = channels.drop_last();
        assert(channels[channels.len() - 1] == channels.last());
        if channels.last().wants_join {
            assert(said.drop_last() =~= hub::to_wanting(rest, News::Error { reason }));
        }
        told_none(rest, generation, reason);
    }
}

/// What is said beyond what was said before.
pub open spec fn news_since(h: Hub, t: Hub) -> Seq<Deed> {
    t.out.skip(h.out.len() as int)
}

/// Where the socket could not be opened, every channel that wants to be joined is
/// told once, and the next attempt is set, after the time the ladder gives.
pub proof fn a_failed_attempt_is_told_and_tried_again(h: Hub, i: int, seed: u64)
    requires
        !h.closed,
        !h.socket,
        !h.reconnect_scheduled,
        h.status == SocketStatus::Connecting || h.status == SocketStatus::Reconnecting,
        0 <= i < h.channels.len(),
        h.channels[i].wants_join,
        h.taken < usize::MAX,
        forall|j: int|
            0 <= j < h.channels.len() && j != i ==> (#[trigger] h.channels[j]).generation
                != h.channels[i].generation,
    ensures
        ({
            let t = hub::handle(h, Call::Connected { opened: false }, seed);
            let said = news_since(h, t);
            &&& t.out.take(h.out.len() as int) == h.out
            &&& t == (Hub {
                connecting: false,
                reconnect_scheduled: true,
                taken: (h.taken + 1) as usize,
                out: t.out,
                ..h
            })
            &&& said.len() > 0
            &&& said.last() == (Deed::Sleep {
                wait: Wait::Millis(backoff::delay(h.taken as nat, seed) as u64),
                alarm: Call::Reconnect,
            })
            &&& laws::times_told(
                said.drop_last(),
                h.channels[i].generation,
                ChannelErrorReason::SocketClosed,
            ) == 1
        }),
{
    let t = hub::handle(h, Call::Connected { opened: false }, seed);
    let news = hub::to_wanting(
        h.channels,
        News::Error { reason: ChannelErrorReason::SocketClosed },
    );
    told_wanting(h.channels, i, ChannelErrorReason::SocketClosed);
    assert(hub::wanted(h.channels));
    assert(t.out.take(h.out.len() as int) =~= h.out);
    assert(news_since(h, t).drop_last() =~= news);
}

// --------------------------------------------------------------------- heartbeat

/// A heartbeat that comes due is written: no join ref, the next ref, the topic
/// `phoenix`, `heartbeat`, and an empty object. It is pending until it is answered.
pub proof fn a_heartbeat_is_written(h: Hub, seed: u64)
    requires
        h.socket,
        h.pending_heartbeat is None,
        h.next_ref < u64::MAX,
    ensures
        ({
            let r = (h.next_ref + 1) as u64;
            hub::handle(h, Call::HeartbeatTick { connection: h.connection }, seed) == (Hub {
                next_ref: r,
                pending_heartbeat: Some(r),
                resume: Resume::Tick,
                out: h.out.push(
                    text_of(None, r, "phoenix"@, "heartbeat"@, Json::Object(Seq::empty())),
                ),
                ..h
            })
        }),
{
}

/// A heartbeat of another connection, or without one, changes nothing.
pub proof fn a_heartbeat_of_another_connection_changes_nothing(
    h: Hub,
    connection: u64,
    seed: u64,
)
    requires
        !h.socket || h.connection != connection,
    ensures
        hub::handle(h, Call::HeartbeatTick { connection }, seed) == h,
{
}

// -------------------------------------------------------------------- the writes

/// A write that is over goes on with what waited for it: after a heartbeat the next
/// one is set; after the leave of a join that timed out, that channel's next join;
/// and after anything else nothing is left.
pub proof fn a_write_that_is_over_goes_on(h: Hub, i: int, seed: u64)
    requires
        h.socket,
    ensures
        h.resume is Idle || h.resume is Done || h.resume == Resume::Joins(Seq::empty())
            ==> hub::written(h, true, seed) == (Hub { resume: Resume::Idle, ..h }),
        h.resume is Tick ==> hub::written(h, true, seed) == (Hub {
            resume: Resume::Idle,
            out: h.out.push(
                Deed::Sleep {
                    wait: Wait::Heartbeat,
                    alarm: Call::HeartbeatTick { connection: h.connection },
                },
            ),
            ..h
        }),
        seated(h, i, h.channels[i].topic) && !h.closed && h.channels[i].wants_join
            && h.channels[i].rejoin is None && h.channels[i].taken < usize::MAX && h.resume
            == (Resume::Rejoin {
            topic: h.channels[i].topic,
            generation: h.channels[i].generation,
        }) ==> hub::written(h, true, seed) == (Hub {
            resume: Resume::Idle,
            channels: with_seat(
                h,
                i,
                Seat {
                    rejoin: Some(h.channels[i].attempt),
                    taken: (h.channels[i].taken + 1) as usize,
                    ..h.channels[i]
                },
            ),
            out: h.out.push(
                Deed::Sleep {
                    wait: Wait::Millis(
                        backoff::delay(h.channels[i].taken as nat, seed) as u64,
                    ),
                    alarm: Call::Rejoin {
                        topic: h.channels[i].topic,
                        generation: h.channels[i].generation,
                        attempt: h.channels[i].attempt,
                    },
                },
            ),
            ..h
        }),
{
    if seated(h, i, h.channels[i].topic) {
        found(h, i, h.channels[i].topic);
    }
}

/// A join that is written goes on with the next one that is due: each channel of
/// the list that is closed is joined, one write after the other.
pub proof fn a_join_that_is_written_goes_on_with_the_next(
    h: Hub,
    i: int,
    list: Seq<(Chars, u64)>,
    seed: u64,
)
    requires
        h.socket,
        h.resume == Resume::Joins(list),
        list.len() > 0,
        list[0] == (h.channels[i].topic, h.channels[i].generation),
        seated(h, i, h.channels[i].topic),
        h.channels[i].status == ChannelStatus::Closed,
        ready(h, i),
    ensures
        joins(
            h,
            i,
            h.channels[i],
            Resume::Joins(list.drop_first()),
            hub::written(h, true, seed),
        ),
{
    let idle = Hub { resume: Resume::Idle, ..h };
    assert(seated(idle, i, h.channels[i].topic));
    join_sent(idle, i, h.channels[i].topic, Resume::Joins(list.drop_first()));
}

// ---------------------------------------------------------------------- timeouts

/// A timeout of what is answered already changes nothing.
pub proof fn a_timeout_of_nothing_changes_nothing(h: Hub, r: u64, seed: u64)
    requires
        unused(h, r),
    ensures
        hub::handle(h, Call::Timeout { msg_ref: r }, seed) == h,
{
    laws::position_meaning(h.inflight, r);
}

/// A push that goes unanswered for too long is told so.
pub proof fn a_push_times_out(h: Hub, k: int, r: u64, ticket: u64, seed: u64)
    requires
        awaited(h, k, r),
        h.inflight[k].1 == (Waiting::Push { ticket }),
    ensures
        hub::handle(h, Call::Timeout { msg_ref: r }, seed) == (Hub {
            inflight: h.inflight.remove(k),
            out: h.out.push(Deed::Answered { ticket, outcome: Err(Failure::Timeout) }),
            ..h
        }),
{
    taken_out(h, k, r);
}

/// A join that goes unanswered for too long is reported, and taken back off the
/// server by a leave of its join ref; the channel is closed, and its next join is
/// set once that is written.
pub proof fn a_join_times_out(h: Hub, i: int, k: int, r: u64, seed: u64)
    requires
        awaited(h, k, r),
        seated(h, i, h.channels[i].topic),
        h.socket,
        h.channels[i].status == ChannelStatus::Joining,
        h.channels[i].join_ref is Some,
        h.inflight[k].1 == (Waiting::Join {
            topic: h.channels[i].topic,
            generation: h.channels[i].generation,
            attempt: h.channels[i].attempt,
        }),
        h.next_ref < u64::MAX,
    ensures
        ({
            let seat = h.channels[i];
            let next = (h.next_ref + 1) as u64;
            hub::handle(h, Call::Timeout { msg_ref: r }, seed) == (Hub {
                next_ref: next,
                inflight: h.inflight.remove(k),
                resume: Resume::Rejoin { topic: seat.topic, generation: seat.generation },
                channels: with_seat(
                    h,
                    i,
                    Seat { status: ChannelStatus::Closed, join_ref: None, ..seat },
                ),
                out: h.out.push(
                    Deed::Emit { generation: seat.generation, news: News::JoinTimeout },
                ).push(
                    text_of(
                        seat.join_ref,
                        next,
                        seat.topic,
                        "phx_leave"@,
                        Json::Object(Seq::empty()),
                    ),
                ),
                ..h
            })
        }),
{
    taken_out(h, k, r);
    found(h, i, h.channels[i].topic);
}

/// A leave that goes unanswered for too long is over all the same.
pub proof fn a_leave_times_out(h: Hub, i: int, k: int, r: u64, seed: u64)
    requires
        awaited(h, k, r),
        seated(h, i, h.channels[i].topic),
        h.inflight[k].1 == (Waiting::Leave {
            topic: h.channels[i].topic,
            generation: h.channels[i].generation,
        }),
    ensures
        hub::handle(h, Call::Timeout { msg_ref: r }, seed) == (Hub {
            inflight: h.inflight.remove(k),
            channels: h.channels.remove(i),
            out: h.out.push(Deed::End { generation: h.channels[i].generation }),
            ..h
        }),
{
    taken_out(h, k, r);
    found(h, i, h.channels[i].topic);
}

// ------------------------------------------------------------------- the far end

/// A socket that is lost, with a channel that wants to be joined, is hung up, the
/// next attempt is set, after the time the ladder gives, and nothing is in flight
/// any more.
pub proof fn a_lost_socket_is_asked_for_again(h: Hub, i: int, seed: u64)
    requires
        h.socket,
        !h.closed,
        !h.connecting,
        !h.reconnect_scheduled,
        0 <= i < h.channels.len(),
        h.channels[i].wants_join,
        h.channels[i].status != ChannelStatus::Leaving,
        h.taken < usize::MAX,
    ensures
        ({
            let t = hub::lost(h, seed);
            &&& !t.socket
            &&& !t.closed
            &&& !t.connecting
            &&& t.reconnect_scheduled
            &&& t.inflight.len() == 0
            &&& t.pending_heartbeat is None
            &&& t.taken == h.taken + 1
            &&& t.connection == h.connection
            &&& t.next_ref == h.next_ref
            &&& t.next_generation == h.next_generation
            &&& t.out.len() > h.out.len()
            &&& t.out.last() == (Deed::Sleep {
                wait: Wait::Millis(backoff::delay(h.taken as nat, seed) as u64),
                alarm: Call::Reconnect,
            })
            &&& t.out.contains(Deed::HangUp)
        }),
{
    let t = hub::lost(h, seed);
    let down = hub::drop_socket(h, ChannelErrorReason::SocketClosed);
    stays_wanted(h.channels, i);
    let lost = hub::report_lost(h);
    let n = lost.out.len() as int;
    assert(down.out[n] == Deed::HangUp);
    assert(t.out[n] == Deed::HangUp);
}

proof fn stays_wanted(channels: Seq<Seat>, i: int)
    requires
        0 <= i < channels.len(),
        channels[i].wants_join,
        channels[i].status != ChannelStatus::Leaving,
    ensures
        hub::wanted(hub::stays(channels)),
    decreases channels.len(),
{
    let rest = hub::stays(channels.drop_last());
    let all = hub::stays(channels);
    if i == channels.len() - 1 {
        assert(all[all.len() - 1].wants_join);
    } else {
        stays_wanted(channels.drop_last(), i);
        let k = choose|k: int| 0 <= k < rest.len() && (#[trigger] rest[k]).wants_join;
        assert(all[k] == rest[k]);
    }
}

/// What stays of the entries when the socket goes away: each that is not leaving, in
/// order, closed and without a join ref or a join set for later, and otherwise as it
/// was.
pub proof fn a_channel_outlives_its_socket(h: Hub, reason: ChannelErrorReason, i: int)
    requires
        0 <= i < h.channels.len(),
        h.channels[i].status != ChannelStatus::Leaving,
    ensures
        hub::drop_socket(h, reason).channels.contains(
            Seat {
                status: ChannelStatus::Closed,
                join_ref: None,
                rejoin: None,
                ..h.channels[i]
            },
        ),
{
    stays_there(h.channels, i);
}

proof fn stays_there(channels: Seq<Seat>, i: int)
    requires
        0 <= i < channels.len(),
        channels[i].status != ChannelStatus::Leaving,
    ensures
        hub::stays(channels).contains(
            Seat { status: ChannelStatus::Closed, join_ref: None, rejoin: None, ..channels[i] },
        ),
    decreases channels.len(),
{
    let rest = hub::stays(channels.drop_last());
    let all = hub::stays(channels);
    let left = Seat {
        status: ChannelStatus::Closed,
        join_ref: None,
        rejoin: None,
        ..channels[i]
    };
    if i == channels.len() - 1 {
        assert(all[all.len() - 1] == left);
    } else {
        stays_there(channels.drop_last(), i);
        let k = choose|k: int| 0 <= k < rest.len() && rest[k] == left;
        assert(all[k] == rest[k]);
    }
}

/// Disconnecting ends everything for good: no socket, nothing in flight and no
/// channel is left, the reports of every channel end, that it is closed is
/// published, and whoever asked is told last.
pub proof fn disconnecting_ends_everything(h: Hub, ticket: u64, i: int, seed: u64)
    requires
        !h.closed,
        h.status != SocketStatus::Closed,
        0 <= i < h.channels.len(),
    ensures
        ({
            let t = hub::handle(h, Call::Disconnect { ticket }, seed);
            let n = t.out.len() as int;
            &&& t.closed
            &&& !t.socket
            &&& t.status == SocketStatus::Closed
            &&& t.channels.len() == 0
            &&& t.inflight.len() == 0
            &&& t.pending_heartbeat is None
            &&& t.out[n - 1] == (Deed::Acknowledge { ticket })
            &&& t.out[n - 2] == Deed::Publish(SocketStatus::Closed)
            &&& h.socket ==> t.out.contains(Deed::HangUp)
            &&& t.out.contains(Deed::End { generation: h.channels[i].generation })
        }),
{
    let t = hub::handle(h, Call::Disconnect { ticket }, seed);
    let shut = Hub { closed: true, ..h };
    let down = hub::drop_socket(shut, ChannelErrorReason::SocketClosed);
    let lost = hub::report_lost(shut);
    let parts = hub::parting(h.channels, ChannelErrorReason::SocketClosed);
    let ends = hub::endings(down.channels);
    let seat = h.channels[i];
    if h.socket {
        let n = lost.out.len() as int;
        assert(down.out[n] == Deed::HangUp);
        assert(t.out[n] == Deed::HangUp);
    }
    if seat.status == ChannelStatus::Leaving {
        parted(h.channels, ChannelErrorReason::SocketClosed, i);
        let k = choose|k: int|
            0 <= k < parts.len() && parts[k] == (Deed::End { generation: seat.generation });
        let base = down.out.len() - parts.len();
        assert(down.out[base + k] == parts[k]);
        assert(t.out[base + k] == parts[k]);
    } else {
        stays_there(h.channels, i);
        let left = Seat { status: ChannelStatus::Closed, join_ref: None, rejoin: None, ..seat };
        let k = choose|k: int| 0 <= k < down.channels.len() && down.channels[k] == left;
        assert(ends[k] == (Deed::End { generation: seat.generation }));
        assert(t.out[down.out.len() + k] == ends[k]);
    }
}

proof fn parted(channels: Seq<Seat>, reason: ChannelErrorReason, i: int)
    requires
        0 <= i < channels.len(),
        channels[i].status == ChannelStatus::Leaving,
    ensures
        hub::parting(channels, reason).contains(
            Deed::End { generation: channels[i].generation },
        ),
    decreases channels.len(),
{
    let rest = hub::parting(channels.drop_last(), reason);
    let all = hub::parting(channels, reason);
    let end = Deed::End { generation: channels[i].generation };
    if i == channels.len() - 1 {
        assert(all[all.len() - 1] == end);
    } else {
        parted(channels.drop_last(), reason, i);
        let k = choose|k: int| 0 <= k < rest.len() && rest[k] == end;
        assert(all[k] == rest[k]);
    }
}

} // verus!
