//! Every push is answered, and once.

use vstd::multiset::Multiset;
use vstd::prelude::*;

use crate::phoenix::channel::{ChannelErrorReason, News};
use crate::phoenix::decimal;
use crate::phoenix::frame;
use crate::phoenix::frame::{Answer, EVENT_REPLY};
use crate::phoenix::hub;
use crate::phoenix::hub::{Call, Cargo, Deed, Failure, Hub, Resume, Seat, SocketStatus, Wait, Waiting};
use crate::phoenix::json;
use crate::phoenix::json::Letter;
use crate::phoenix::laws;
use crate::state::text::Chars;
use crate::state::value::Json;

verus! {

/// The pushes that wait for their reply.
pub open spec fn waiting(inflight: Seq<(u64, Waiting)>) -> Multiset<u64>
    decreases inflight.len(),
{
    if inflight.len() == 0 {
        Multiset::empty()
    } else {
        with_wait(waiting(inflight.drop_last()), inflight.last().1)
    }
}

/// A collection of pushes with one more, where what is waited for is a push.
pub open spec fn with_wait(rest: Multiset<u64>, held: Waiting) -> Multiset<u64> {
    match held {
        Waiting::Push { ticket } => rest.insert(ticket),
        _ => rest,
    }
}

/// The pushes that were answered.
pub open spec fn answered(out: Seq<Deed>) -> Multiset<u64>
    decreases out.len(),
{
    if out.len() == 0 {
        Multiset::empty()
    } else {
        match out.last() {
            Deed::Answered { ticket, .. } => answered(out.drop_last()).insert(ticket),
            _ => answered(out.drop_last()),
        }
    }
}

/// The pushes that wait for their reply or were answered.
pub open spec fn pushes(h: Hub) -> Multiset<u64> {
    waiting(h.inflight).add(answered(h.out))
}

/// Every ref in flight was handed out, and `n` more can be.
pub open spec fn room(h: Hub, n: nat) -> bool {
    &&& h.next_ref + n < u64::MAX
    &&& forall|k: int| 0 <= k < h.inflight.len() ==> (#[trigger] h.inflight[k]).0 <= h.next_ref
}

proof fn said(h: Hub, deed: Deed)
    ensures
        answered(hub::say(h, deed).out) == (match deed {
            Deed::Answered { ticket, .. } => answered(h.out).insert(ticket),
            _ => answered(h.out),
        }),
{
    assert(h.out.push(deed).drop_last() =~= h.out);
}

proof fn answered_both(a: Seq<Deed>, b: Seq<Deed>)
    ensures
        answered(a + b) == answered(a).add(answered(b)),
    decreases b.len(),
{
    if b.len() == 0 {
        assert(a + b =~= a);
        assert(answered(a + b) =~= answered(a).add(answered(b)));
    } else {
        answered_both(a, b.drop_last());
        assert((a + b).drop_last() =~= a + b.drop_last());
        assert((a + b).last() == b.last());
        assert(answered(a + b) =~= answered(a).add(answered(b)));
    }
}

/// Where nothing is answered, none is.
proof fn answered_none(out: Seq<Deed>)
    requires
        forall|i: int| 0 <= i < out.len() ==> !((#[trigger] out[i]) is Answered),
    ensures
        answered(out) == Multiset::<u64>::empty(),
    decreases out.len(),
{
    if out.len() > 0 {
        assert forall|i: int| 0 <= i < out.drop_last().len() implies !((
        #[trigger] out.drop_last()[i]) is Answered) by {
            assert(!(out[i] is Answered));
        }
        assert(!(out[out.len() - 1] is Answered));
        answered_none(out.drop_last());
    }
}

proof fn waiting_pushed(inflight: Seq<(u64, Waiting)>, r: u64, held: Waiting)
    ensures
        waiting(inflight.push((r, held))) == with_wait(waiting(inflight), held),
{
    assert(inflight.push((r, held)).drop_last() =~= inflight);
}

proof fn waiting_removed(inflight: Seq<(u64, Waiting)>, i: int)
    requires
        0 <= i < inflight.len(),
    ensures
        waiting(inflight) == with_wait(waiting(inflight.remove(i)), inflight[i].1),
    decreases inflight.len(),
{
    let last = inflight.len() - 1;
    if i == last {
        assert(inflight.remove(i) =~= inflight.drop_last());
    } else {
        let rest = inflight.drop_last();
        waiting_removed(rest, i);
        assert(inflight.remove(i).drop_last() =~= rest.remove(i));
        assert(inflight.remove(i).last() == inflight.last());
        assert(waiting(inflight) =~= with_wait(waiting(inflight.remove(i)), inflight[i].1));
    }
}

/// What is said to the pushes in flight answers them all.
proof fn failed_answers(inflight: Seq<(u64, Waiting)>)
    ensures
        answered(hub::failed(inflight)) == waiting(inflight),
    decreases inflight.len(),
{
    if inflight.len() > 0 {
        failed_answers(inflight.drop_last());
        let rest = hub::failed(inflight.drop_last());
        if let Waiting::Push { ticket } = inflight.last().1 {
            let deed = Deed::Answered { ticket, outcome: Err(Failure::Disconnected) };
            assert(rest.push(deed).drop_last() =~= rest);
        }
    }
}

proof fn parting_answers_none(channels: Seq<Seat>, reason: ChannelErrorReason)
    ensures
        answered(hub::parting(channels, reason)) == Multiset::<u64>::empty(),
    decreases channels.len(),
{
    if channels.len() > 0 {
        let rest = hub::parting(channels.drop_last(), reason);
        let seat = channels.last();
        parting_answers_none(channels.drop_last(), reason);
        assert(rest.push(Deed::End { generation: seat.generation }).drop_last() =~= rest);
        let told = Deed::Emit { generation: seat.generation, news: News::Error { reason } };
        assert(rest.push(told).drop_last() =~= rest);
    }
}

proof fn to_wanting_answers_none(channels: Seq<Seat>, news: News)
    ensures
        answered(hub::to_wanting(channels, news)) == Multiset::<u64>::empty(),
    decreases channels.len(),
{
    if channels.len() > 0 {
        let rest = hub::to_wanting(channels.drop_last(), news);
        let told = Deed::Emit { generation: channels.last().generation, news };
        to_wanting_answers_none(channels.drop_last(), news);
        assert(rest.push(told).drop_last() =~= rest);
    }
}

proof fn not_in_flight(inflight: Seq<(u64, Waiting)>, r: u64)
    requires
        forall|k: int| 0 <= k < inflight.len() ==> (#[trigger] inflight[k]).0 != r,
    ensures
        hub::position(inflight, r) == inflight.len(),
        hub::without(inflight, r) == inflight,
    decreases inflight.len(),
{
    if inflight.len() > 0 {
        let rest = inflight.drop_first();
        assert forall|k: int| 0 <= k < rest.len() implies (#[trigger] rest[k]).0 != r by {
            assert(rest[k] == inflight[k + 1]);
        }
        assert(inflight[0].0 != r);
        not_in_flight(rest, r);
    }
}

proof fn set_status_same(h: Hub, next: SocketStatus)
    ensures
        pushes(hub::set_status(h, next)) == pushes(h),
{
    said(Hub { status: next, ..h }, Deed::Publish(next));
}

proof fn drop_socket_same(h: Hub, reason: ChannelErrorReason)
    ensures
        pushes(hub::drop_socket(h, reason)) == pushes(h),
        hub::drop_socket(h, reason).inflight.len() == 0,
        hub::drop_socket(h, reason).next_ref == h.next_ref,
{
    let lost = hub::report_lost(h);
    said(Hub { status: SocketStatus::Reconnecting, ..h }, Deed::Publish(SocketStatus::Reconnecting));
    said(Hub { socket: false, ..lost }, Deed::HangUp);
    let hung = if lost.socket {
        hub::say(Hub { socket: false, ..lost }, Deed::HangUp)
    } else {
        lost
    };
    answered_both(hung.out, hub::failed(h.inflight));
    answered_both(hung.out + hub::failed(h.inflight), hub::parting(h.channels, reason));
    failed_answers(h.inflight);
    parting_answers_none(h.channels, reason);
    assert(pushes(hub::drop_socket(h, reason)) =~= pushes(h));
}

proof fn reconnect_same(h: Hub, seed: u64)
    ensures
        pushes(hub::schedule_reconnect(h, seed)) == pushes(h),
{
    let k = hub::schedule_reconnect(h, seed);
    if k != h {
        assert(k.out.drop_last() =~= h.out);
    }
}

proof fn rejoin_set_same(h: Hub, topic: Chars, generation: u64, seed: u64)
    ensures
        pushes(hub::schedule_rejoin(h, topic, generation, seed)) == pushes(h),
{
    let k = hub::schedule_rejoin(h, topic, generation, seed);
    if k != h {
        assert(k.out.drop_last() =~= h.out);
    }
}

proof fn connect_same(h: Hub)
    ensures
        pushes(hub::connect(h)) == pushes(h),
{
    said(Hub { connecting: true, ..h }, Deed::Connect);
}

/// Putting a ref in flight and writing a frame.
proof fn asked(h: Hub, r: u64, held: Waiting, wait: Wait, sheet: frame::Sheet, resume: Resume)
    requires
        forall|k: int| 0 <= k < h.inflight.len() ==> (#[trigger] h.inflight[k]).0 != r,
    ensures
        pushes(hub::send(hub::await_reply(h, r, held, wait), sheet, resume)) == with_wait(
            pushes(h),
            held,
        ),
{
    not_in_flight(h.inflight, r);
    waiting_pushed(h.inflight, r, held);
    let filed = Hub { inflight: h.inflight.push((r, held)), ..h };
    let timed = hub::await_reply(h, r, held, wait);
    said(filed, Deed::Sleep { wait, alarm: Call::Timeout { msg_ref: r } });
    said(Hub { resume, ..timed }, Deed::Send(sheet));
    assert(pushes(hub::send(timed, sheet, resume)) =~= with_wait(pushes(h), held));
}

proof fn send_join_same(h: Hub, topic: Chars, generation: u64, resume: Resume)
    requires
        room(h, 1),
    ensures
        pushes(hub::send_join(h, topic, generation, resume)) == pushes(h),
        hub::send_join(h, topic, generation, resume).next_ref == h.next_ref + 1,
{
    let r = hub::bumped(h.next_ref);
    let counted = Hub { next_ref: r, ..h };
    if let Some(i) = hub::live(counted, topic, generation) {
        let seat = h.channels[i];
        let attempt = hub::bumped(seat.attempt);
        let seated = hub::reseat(
            counted,
            i,
            Seat {
                status: hub::ChannelStatus::Joining,
                join_ref: hub::ref_of(r),
                attempt,
                ..seat
            },
        );
        let sheet = frame::Sheet::Text(
            json::tuple_text(
                Letter {
                    join_ref: hub::ref_of(r),
                    msg_ref: hub::ref_of(r),
                    topic,
                    event: frame::EVENT_JOIN@,
                    payload: seat.params,
                },
            ),
        );
        asked(seated, r, Waiting::Join { topic, generation, attempt }, Wait::Join, sheet, resume);
    }
}

proof fn join_all_same(h: Hub, list: Seq<(Chars, u64)>)
    requires
        room(h, list.len()),
        h.resume is Idle,
        h.socket,
    ensures
        pushes(hub::join_all(h, list)) == pushes(h),
    decreases list.len(),
{
    if list.len() > 0 {
        let rest = list.drop_first();
        let sent = hub::send_join(h, list[0].0, list[0].1, Resume::Joins(rest));
        send_join_same(h, list[0].0, list[0].1, Resume::Joins(rest));
        if sent.resume is Idle {
            assert(sent.inflight == h.inflight);
            join_all_same(sent, rest);
        }
    }
}

proof fn unseat_same(h: Hub, i: int)
    ensures
        pushes(hub::unseat(h, i)) == pushes(h),
{
    said(
        Hub { channels: h.channels.remove(i), ..h },
        Deed::End { generation: h.channels[i].generation },
    );
}

/// The tickets a call brings.
pub open spec fn brought(call: Call) -> Multiset<u64> {
    match call {
        Call::Push { ticket, .. } => Multiset::singleton(ticket),
        _ => Multiset::empty(),
    }
}

proof fn abandon_answers(h: Hub, held: Waiting, why: Failure, seed: u64)
    ensures
        pushes(hub::abandon(h, held, why, seed)) == with_wait(pushes(h), held),
{
    match held {
        Waiting::Push { ticket } => {
            said(h, Deed::Answered { ticket, outcome: Err(why) });
            assert(pushes(hub::abandon(h, held, why, seed)) =~= with_wait(pushes(h), held));
        },
        Waiting::Join { topic, generation, attempt } => {
            if let Some(i) = hub::joining(h, topic, generation, attempt) {
                let seat = h.channels[i];
                let closed = hub::reseat(
                    h,
                    i,
                    Seat { status: hub::ChannelStatus::Closed, join_ref: None, ..seat },
                );
                let told = hub::emit(closed, i, News::JoinTimeout);
                said(
                    closed,
                    Deed::Emit {
                        generation: closed.channels[i].generation,
                        news: News::JoinTimeout,
                    },
                );
                match seat.join_ref {
                    Some(join_ref) => {
                        let r = hub::bumped(h.next_ref);
                        let sheet = frame::Sheet::Text(
                            json::tuple_text(
                                hub::leave_letter(topic, join_ref, r),
                            ),
                        );
                        let resume = Resume::Rejoin { topic, generation };
                        said(Hub { next_ref: r, resume, ..told }, Deed::Send(sheet));
                    },
                    None => {
                        rejoin_set_same(told, topic, generation, seed);
                    },
                }
            }
        },
        Waiting::Leave { topic, generation } => {
            if let Some(i) = hub::live(h, topic, generation) {
                unseat_same(h, i);
            }
        },
    }
}

proof fn join_replied_same(
    h: Hub,
    topic: Chars,
    generation: u64,
    attempt: u64,
    reply: Answer,
    seed: u64,
)
    ensures
        pushes(hub::join_replied(h, topic, generation, attempt, reply, seed)) == pushes(h),
{
    if let Some(i) = hub::joining(h, topic, generation, attempt) {
        let seat = h.channels[i];
        match reply.status {
            frame::ReplyStatus::Okay => {
                let k = hub::reseat(
                    h,
                    i,
                    Seat { status: hub::ChannelStatus::Joined, taken: 0, ..seat },
                );
                said(
                    k,
                    Deed::Emit {
                        generation: k.channels[i].generation,
                        news: News::Joined { response: reply.response },
                    },
                );
            },
            frame::ReplyStatus::Error => {
                let k = hub::reseat(h, i, Seat { status: hub::ChannelStatus::Closed, ..seat });
                let news = News::JoinError { response: reply.response };
                said(k, Deed::Emit { generation: k.channels[i].generation, news });
                rejoin_set_same(hub::emit(k, i, news), topic, generation, seed);
            },
        }
    }
}

proof fn settle_answers(h: Hub, held: Waiting, payload: Json, seed: u64)
    ensures
        pushes(hub::settle(h, held, payload, seed)) == with_wait(pushes(h), held),
{
    match frame::reply_of(payload) {
        Some(reply) => {
            match held {
                Waiting::Push { ticket } => {
                    said(h, Deed::Answered { ticket, outcome: Ok(reply) });
                    assert(pushes(hub::settle(h, held, payload, seed)) =~= with_wait(
                        pushes(h),
                        held,
                    ));
                },
                Waiting::Join { topic, generation, attempt } => {
                    join_replied_same(h, topic, generation, attempt, reply, seed);
                },
                Waiting::Leave { topic, generation } => {
                    if let Some(i) = hub::live(h, topic, generation) {
                        unseat_same(h, i);
                    }
                },
            }
        },
        None => {
            abandon_answers(h, held, Failure::MalformedReply, seed);
        },
    }
}

/// Taking a ref out of flight, and ending what waited for it.
proof fn taken_out(h: Hub, r: u64)
    requires
        hub::position(h.inflight, r) < h.inflight.len(),
    ensures
        ({
            let i = hub::position(h.inflight, r) as int;
            let left = Hub { inflight: hub::without(h.inflight, r), ..h };
            with_wait(pushes(left), h.inflight[i].1) == pushes(h)
        }),
{
    let i = hub::position(h.inflight, r) as int;
    let left = Hub { inflight: hub::without(h.inflight, r), ..h };
    waiting_removed(h.inflight, i);
    assert(with_wait(pushes(left), h.inflight[i].1) =~= pushes(h));
}

proof fn went_down_same(h: Hub, i: int, news: News, seed: u64)
    ensures
        pushes(hub::went_down(h, i, news, seed)) == pushes(h),
{
    let seat = h.channels[i];
    let k = hub::reseat(
        h,
        i,
        Seat { status: hub::ChannelStatus::Closed, join_ref: None, ..seat },
    );
    said(k, Deed::Emit { generation: k.channels[i].generation, news });
    rejoin_set_same(hub::emit(k, i, news), seat.topic, seat.generation, seed);
}

proof fn push_brings(
    h: Hub,
    topic: Chars,
    generation: u64,
    event: Chars,
    payload: Cargo,
    ticket: u64,
)
    requires
        room(h, 1),
    ensures
        pushes(hub::push(h, topic, generation, event, payload, ticket)) == pushes(h).insert(ticket),
{
    let all = pushes(h).insert(ticket);
    let k = hub::push(h, topic, generation, event, payload, ticket);
    match hub::live(h, topic, generation) {
        Some(i) => {
            let seat = h.channels[i];
            let r = hub::bumped(h.next_ref);
            let counted = Hub { next_ref: r, ..h };
            if !h.socket || seat.status != hub::ChannelStatus::Joined {
                said(h, Deed::Answered { ticket, outcome: Err(Failure::NotJoined) });
                assert(pushes(k) =~= all);
            } else {
                match hub::push_sheet(topic, event, seat.join_ref, r, payload) {
                    Ok(sheet) => {
                        asked(
                            counted,
                            r,
                            Waiting::Push { ticket },
                            Wait::Push,
                            sheet,
                            Resume::Done,
                        );
                    },
                    Err(flaw) => {
                        said(
                            counted,
                            Deed::Answered { ticket, outcome: Err(Failure::Unframable(flaw)) },
                        );
                        assert(pushes(k) =~= all);
                    },
                }
            }
        },
        None => {
            said(h, Deed::Answered { ticket, outcome: Err(Failure::Stale) });
            assert(pushes(k) =~= all);
        },
    }
}

proof fn join_same(h: Hub, topic: Chars, generation: u64)
    requires
        room(h, 1),
    ensures
        pushes(hub::join(h, topic, generation)) == pushes(h),
{
    if let Some(i) = hub::live(h, topic, generation) {
        let willing = hub::reseat(
            h,
            i,
            Seat { wants_join: true, suppress_close: false, ..h.channels[i] },
        );
        send_join_same(willing, topic, generation, Resume::Done);
        connect_same(willing);
    }
}

proof fn leave_same(h: Hub, topic: Chars, generation: u64)
    requires
        room(h, 1),
    ensures
        pushes(hub::leave(h, topic, generation)) == pushes(h),
{
    if let Some(i) = hub::live(h, topic, generation) {
        let seat = h.channels[i];
        let leaving = hub::reseat(
            h,
            i,
            Seat {
                wants_join: false,
                suppress_close: true,
                status: hub::ChannelStatus::Leaving,
                ..seat
            },
        );
        unseat_same(leaving, i);
        if let Some(join_ref) = seat.join_ref {
            let r = hub::bumped(h.next_ref);
            let sheet = frame::Sheet::Text(
                json::tuple_text(hub::leave_letter(topic, join_ref, r)),
            );
            asked(
                Hub { next_ref: r, ..leaving },
                r,
                Waiting::Leave { topic, generation },
                Wait::Push,
                sheet,
                Resume::Done,
            );
        }
    }
}

proof fn connected_same(h: Hub, opened: bool, seed: u64)
    requires
        room(h, h.channels.len()),
        h.resume is Idle,
    ensures
        pushes(hub::connected(h, opened, seed)) == pushes(h),
{
    let over = Hub { connecting: false, ..h };
    if !opened {
        let news = News::Error { reason: ChannelErrorReason::SocketClosed };
        let lost = hub::report_lost(over);
        set_status_same(over, SocketStatus::Reconnecting);
        answered_both(lost.out, hub::to_wanting(h.channels, news));
        to_wanting_answers_none(h.channels, news);
        let told = Hub { out: lost.out + hub::to_wanting(h.channels, news), ..lost };
        assert(pushes(told) =~= pushes(h));
        reconnect_same(told, seed);
    } else if h.closed {
        said(over, Deed::HangUp);
    } else {
        let open = Hub { socket: true, connection: hub::bumped(h.connection), taken: 0, ..over };
        let alarm = Call::HeartbeatTick { connection: open.connection };
        said(open, Deed::Sleep { wait: Wait::Heartbeat, alarm });
        let armed = hub::arm_heartbeat(open);
        set_status_same(armed, SocketStatus::Connected);
        let ready = hub::set_status(armed, SocketStatus::Connected);
        wanting_fits(h.channels);
        join_all_same(ready, hub::wanting(h.channels));
    }
}

proof fn wanting_fits(channels: Seq<Seat>)
    ensures
        hub::wanting(channels).len() <= channels.len(),
    decreases channels.len(),
{
    if channels.len() > 0 {
        wanting_fits(channels.drop_last());
    }
}

proof fn heartbeat_same(h: Hub, connection: u64, seed: u64)
    ensures
        pushes(hub::heartbeat_tick(h, connection, seed)) == pushes(h),
{
    if h.socket && h.connection == connection {
        if h.pending_heartbeat is Some {
            drop_socket_same(h, ChannelErrorReason::HeartbeatTimeout);
            reconnect_same(hub::drop_socket(h, ChannelErrorReason::HeartbeatTimeout), seed);
        } else {
            let k = hub::heartbeat_tick(h, connection, seed);
            assert(k.out.drop_last() =~= h.out);
        }
    }
}

proof fn disconnect_same(h: Hub, ticket: u64)
    ensures
        pushes(hub::disconnect(h, ticket)) == pushes(h),
{
    let shut = Hub { closed: true, ..h };
    let down = hub::drop_socket(shut, ChannelErrorReason::SocketClosed);
    drop_socket_same(shut, ChannelErrorReason::SocketClosed);
    let ends = hub::endings(down.channels);
    answered_both(down.out, ends);
    answered_none(ends);
    let cleared = Hub { channels: Seq::empty(), out: down.out + ends, ..down };
    assert(pushes(cleared) =~= pushes(h));
    set_status_same(cleared, SocketStatus::Closed);
    said(hub::set_status(cleared, SocketStatus::Closed), Deed::Acknowledge { ticket });
}

/// Whatever is asked of the task, no push is lost and none is answered twice: the
/// pushes that wait for their reply or were answered are those that did before,
/// and the one the call brings.
pub proof fn every_push_is_answered_once(h: Hub, call: Call, seed: u64)
    requires
        laws::sound(h),
        laws::roomy(h),
        h.resume is Idle,
    ensures
        pushes(hub::handle(h, call, seed)) == pushes(h).add(brought(call)),
{
    let k = hub::handle(h, call, seed);
    assert(pushes(h).add(Multiset::<u64>::empty()) =~= pushes(h));
    assert(room(h, h.channels.len()) && room(h, 1));
    match call {
        Call::Attach { topic, params, ticket } => {
            let generation = hub::bumped(h.next_generation);
            let counted = Hub { next_generation: generation, ..h };
            let i = hub::find(h.channels, topic) as int;
            let seat = hub::fresh_seat(topic, params, generation);
            said(
                hub::reseat(counted, i, seat),
                Deed::End { generation: h.channels[i].generation },
            );
            let seated = if i < h.channels.len() {
                hub::say(
                    hub::reseat(counted, i, seat),
                    Deed::End { generation: h.channels[i].generation },
                )
            } else {
                Hub { channels: h.channels.push(seat), ..counted }
            };
            said(seated, Deed::Attached { ticket, generation });
        },
        Call::Join { topic, generation } => {
            join_same(h, topic, generation);
        },
        Call::Leave { topic, generation } => {
            leave_same(h, topic, generation);
        },
        Call::Push { topic, generation, event, payload, ticket } => {
            push_brings(h, topic, generation, event, payload, ticket);
            assert(pushes(h).insert(ticket) =~= pushes(h).add(Multiset::singleton(ticket)));
        },
        Call::Rejoin { topic, generation, attempt } => {
            if let Some(i) = hub::live(h, topic, generation) {
                let disarmed = hub::reseat(h, i, Seat { rejoin: None, ..h.channels[i] });
                join_same(disarmed, topic, generation);
            }
        },
        Call::Connected { opened } => {
            connected_same(h, opened, seed);
        },
        Call::Reconnect => {
            connect_same(Hub { reconnect_scheduled: false, ..h });
        },
        Call::HeartbeatTick { connection } => {
            heartbeat_same(h, connection, seed);
        },
        Call::Timeout { msg_ref } => {
            let i = hub::position(h.inflight, msg_ref) as int;
            if i < h.inflight.len() {
                let left = Hub { inflight: hub::without(h.inflight, msg_ref), ..h };
                taken_out(h, msg_ref);
                abandon_answers(left, h.inflight[i].1, Failure::Timeout, seed);
            }
        },
        Call::Disconnect { ticket } => {
            disconnect_same(h, ticket);
        },
    }
}

/// Whatever arrives, no push is lost and none is answered twice.
pub proof fn no_message_loses_a_push(h: Hub, letter: Letter, seed: u64)
    ensures
        pushes(hub::receive(h, letter, seed)) == pushes(h),
{
    if letter.event == EVENT_REPLY@ {
        if let Some(text) = letter.msg_ref {
            if let Some(r) = decimal::meaning(text) {
                let i = hub::position(h.inflight, r) as int;
                if h.pending_heartbeat != Some(r) && i < h.inflight.len() {
                    let left = Hub { inflight: hub::without(h.inflight, r), ..h };
                    taken_out(h, r);
                    settle_answers(left, h.inflight[i].1, letter.payload, seed);
                }
            }
        }
    } else {
        let i = hub::find(h.channels, letter.topic) as int;
        if i < h.channels.len() {
            unseat_same(h, i);
            went_down_same(h, i, News::Close, seed);
            went_down_same(h, i, News::Error { reason: ChannelErrorReason::Server }, seed);
            said(
                h,
                Deed::Emit {
                    generation: h.channels[i].generation,
                    news: News::Message { event: letter.event, payload: letter.payload },
                },
            );
        }
    }
}

/// Losing the socket loses no push, and answers none twice.
pub proof fn losing_the_socket_loses_no_push(h: Hub, seed: u64)
    ensures
        pushes(hub::lost(h, seed)) == pushes(h),
        hub::lost(h, seed).inflight.len() == 0,
{
    drop_socket_same(h, ChannelErrorReason::SocketClosed);
    reconnect_same(hub::drop_socket(h, ChannelErrorReason::SocketClosed), seed);
}

/// The end of a write loses no push, and answers none twice.
pub proof fn no_write_loses_a_push(h: Hub, delivered: bool, seed: u64)
    requires
        laws::sound(h),
        laws::roomy(h),
        h.resume matches Resume::Joins(list) ==> h.next_ref + list.len() < u64::MAX,
    ensures
        pushes(hub::written(h, delivered, seed)) == pushes(h),
{
    let idle = Hub { resume: Resume::Idle, ..h };
    drop_socket_same(idle, ChannelErrorReason::SocketClosed);
    reconnect_same(hub::drop_socket(idle, ChannelErrorReason::SocketClosed), seed);
    if delivered && h.socket {
        match h.resume {
            Resume::Joins(list) => {
                join_all_same(idle, list);
            },
            Resume::Rejoin { topic, generation } => {
                rejoin_set_same(idle, topic, generation, seed);
            },
            Resume::Tick => {
                let alarm = Call::HeartbeatTick { connection: idle.connection };
                said(idle, Deed::Sleep { wait: Wait::Heartbeat, alarm });
            },
            _ => {},
        }
    }
}

/// A reply answers the push that its ref was handed to, and no other: replies may
/// arrive in any order.
pub proof fn a_reply_answers_its_push(h: Hub, letter: Letter, r: u64, ticket: u64, seed: u64)
    requires
        letter.event == EVENT_REPLY@,
        letter.msg_ref matches Some(text) && decimal::meaning(text) == Some(r),
        h.pending_heartbeat != Some(r),
        hub::position(h.inflight, r) < h.inflight.len(),
        h.inflight[hub::position(h.inflight, r) as int].1 == (Waiting::Push { ticket }),
        frame::reply_of(letter.payload) is Some,
    ensures
        hub::receive(h, letter, seed) == (Hub {
            inflight: hub::without(h.inflight, r),
            out: h.out.push(
                Deed::Answered { ticket, outcome: Ok(frame::reply_of(letter.payload)->0) },
            ),
            ..h
        }),
{
}

/// A push whose reply is overdue is told so, and a reply that comes later answers
/// nothing.
pub proof fn an_overdue_push_is_told_so(h: Hub, r: u64, ticket: u64, seed: u64)
    requires
        laws::sound(h),
        hub::position(h.inflight, r) < h.inflight.len(),
        h.inflight[hub::position(h.inflight, r) as int].1 == (Waiting::Push { ticket }),
    ensures
        ({
            let k = hub::timeout(h, r, seed);
            &&& k.out == h.out.push(Deed::Answered { ticket, outcome: Err(Failure::Timeout) })
            &&& hub::position(k.inflight, r) == k.inflight.len()
        }),
{
    let i = hub::position(h.inflight, r) as int;
    let left = h.inflight.remove(i);
    laws::position_meaning(h.inflight, r);
    assert forall|k: int| 0 <= k < left.len() implies (#[trigger] left[k]).0 != r by {
        let m = if k < i {
            k
        } else {
            k + 1
        };
        assert(left[k] == h.inflight[m]);
        if m < i {
            assert(h.inflight[m].0 != h.inflight[i].0);
        } else {
            assert(h.inflight[i].0 != h.inflight[m].0);
        }
    }
    not_in_flight(left, r);
}

/// A heartbeat that is still unanswered when the next is due tears the socket
/// down, and says why to every channel that wants to be joined.
pub proof fn a_missed_heartbeat_tears_the_socket_down(h: Hub, i: int, seed: u64)
    requires
        h.socket,
        h.pending_heartbeat is Some,
        0 <= i < h.channels.len(),
        h.channels[i].wants_join,
        h.channels[i].status != hub::ChannelStatus::Leaving,
    ensures
        ({
            let k = hub::heartbeat_tick(h, h.connection, seed);
            &&& !k.socket
            &&& k.out.contains(Deed::HangUp)
            &&& k.out.contains(
                Deed::Emit {
                    generation: h.channels[i].generation,
                    news: News::Error { reason: ChannelErrorReason::HeartbeatTimeout },
                },
            )
        }),
{
    let reason = ChannelErrorReason::HeartbeatTimeout;
    let down = hub::drop_socket(h, reason);
    let k = hub::heartbeat_tick(h, h.connection, seed);
    let deed = Deed::Emit { generation: h.channels[i].generation, news: News::Error { reason } };
    let part = hub::parting(h.channels, reason);
    parting_tells(h.channels, reason, i);
    let lost = hub::report_lost(h);
    let hung = hub::say(Hub { socket: false, ..lost }, Deed::HangUp);
    let a = lost.out.len() as int;
    assert(hung.out[a] == Deed::HangUp);
    assert(down.out[a] == Deed::HangUp);
    let m = choose|m: int| 0 <= m < part.len() && part[m] == deed;
    let b = (hung.out + hub::failed(h.inflight)).len() + m;
    assert(down.out[b] == deed);
    assert(k.out[a] == Deed::HangUp);
    assert(k.out[b] == deed);
}

proof fn parting_tells(channels: Seq<Seat>, reason: ChannelErrorReason, i: int)
    requires
        0 <= i < channels.len(),
        channels[i].wants_join,
        channels[i].status != hub::ChannelStatus::Leaving,
    ensures
        hub::parting(channels, reason).contains(
            Deed::Emit { generation: channels[i].generation, news: News::Error { reason } },
        ),
    decreases channels.len(),
{
    let deed = Deed::Emit { generation: channels[i].generation, news: News::Error { reason } };
    let rest = hub::parting(channels.drop_last(), reason);
    let all = hub::parting(channels, reason);
    if i == channels.len() - 1 {
        assert(all[rest.len() as int] == deed);
    } else {
        parting_tells(channels.drop_last(), reason, i);
        let m = choose|m: int| 0 <= m < rest.len() && rest[m] == deed;
        assert(all[m] == deed);
    }
}

} // verus!
