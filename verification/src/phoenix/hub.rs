//! What the task that owns the socket does, as contracts see it: its state, the
//! steps it takes, and what it asks the outside to do.
//!
//! No timer can be cancelled, so every timer is fenced instead: what it carries
//! names the thing it was set for, and a timer that fires for something the
//! state has since moved off changes nothing.

use vstd::prelude::*;

use crate::phoenix::backoff;
use crate::phoenix::channel::{ChannelErrorReason, News};
use crate::phoenix::decimal;
use crate::phoenix::frame;
use crate::phoenix::frame::{
    Answer, Flaw, Parcel, ReplyStatus, Sheet, EVENT_CLOSE, EVENT_ERROR, EVENT_HEARTBEAT,
    EVENT_JOIN, EVENT_LEAVE, EVENT_REPLY, TOPIC_PHOENIX,
};
use crate::phoenix::json;
use crate::phoenix::json::Letter;
use crate::state::text::Chars;
use crate::state::value::Json;

verus! {

/// Where the socket is in its connection lifecycle.
#[derive(Debug, Clone, Copy, PartialEq, Eq, Structural)]
pub enum SocketStatus {
    /// Never connected yet: a socket that has never been up is not
    /// reconnecting.
    Connecting,
    /// The transport is open.
    Connected,
    /// The transport was lost after having been up; the backoff ladder brings it
    /// back.
    Reconnecting,
    /// The socket was disconnected; it never reconnects.
    Closed,
}

/// Where a channel is in its join lifecycle.
#[derive(Debug, Clone, Copy, PartialEq, Eq, Structural)]
pub enum ChannelStatus {
    /// Not joined: never joined, join failed, or the socket went away.
    Closed,
    /// A join is in flight.
    Joining,
    /// The server acknowledged the join.
    Joined,
    /// A leave is in flight; the entry is dropped when it resolves.
    Leaving,
}

/// How long a timer runs.
#[derive(Debug, Clone, Copy, PartialEq, Eq, Structural)]
pub enum Wait {
    /// The heartbeat interval.
    Heartbeat,
    /// How long a join may go unanswered.
    Join,
    /// How long any other push may go unanswered.
    Push,
    /// So many milliseconds.
    Millis(u64),
}

/// Why a push did not produce a reply.
pub enum Failure {
    NotJoined,
    Stale,
    Disconnected,
    Timeout,
    MalformedReply,
    SocketClosed,
    Unframable(Flaw),
}

/// What a push carries.
pub enum Cargo {
    Json(Json),
    Binary(Seq<u8>),
}

/// What is asked of the task.
pub enum Call {
    Attach { topic: Chars, params: Json, ticket: u64 },
    Join { topic: Chars, generation: u64 },
    Leave { topic: Chars, generation: u64 },
    Push { topic: Chars, generation: u64, event: Chars, payload: Cargo, ticket: u64 },
    Rejoin { topic: Chars, generation: u64, attempt: u64 },
    Connected { opened: bool },
    Reconnect,
    HeartbeatTick { connection: u64 },
    Timeout { msg_ref: u64 },
    Disconnect { ticket: u64 },
}

/// What the task asks of the outside.
pub enum Deed {
    Send(Sheet),
    Connect,
    HangUp,
    Sleep { wait: Wait, alarm: Call },
    Emit { generation: u64, news: News },
    End { generation: u64 },
    Attached { ticket: u64, generation: u64 },
    Answered { ticket: u64, outcome: Result<Answer, Failure> },
    Publish(SocketStatus),
    Acknowledge { ticket: u64 },
}

/// One registry entry.
#[verifier::ext_equal]
pub struct Seat {
    pub topic: Chars,
    pub generation: u64,
    pub params: Json,
    pub status: ChannelStatus,
    pub join_ref: Option<Chars>,
    /// How many joins this channel has sent; it names the attempt that joining
    /// refers to.
    pub attempt: u64,
    pub wants_join: bool,
    pub suppress_close: bool,
    pub taken: usize,
    /// The attempt a pending rejoin was armed against.
    pub rejoin: Option<u64>,
}

/// A push awaiting its reply.
pub enum Waiting {
    Push { ticket: u64 },
    Join { topic: Chars, generation: u64, attempt: u64 },
    Leave { topic: Chars, generation: u64 },
}

/// What is left to do once the write in progress is over.
pub enum Resume {
    /// No write is in progress.
    Idle,
    /// Nothing.
    Done,
    /// Joins to send.
    Joins(Seq<(Chars, u64)>),
    /// A rejoin to schedule.
    Rejoin { topic: Chars, generation: u64 },
    /// The next heartbeat to set a timer for.
    Tick,
}

/// The state of the task.
#[verifier::ext_equal]
pub struct Hub {
    pub socket: bool,
    /// Which connection the socket is, counted from the first.
    pub connection: u64,
    pub channels: Seq<Seat>,
    pub inflight: Seq<(u64, Waiting)>,
    pub next_ref: u64,
    pub next_generation: u64,
    pub connecting: bool,
    pub reconnect_scheduled: bool,
    pub closed: bool,
    pub taken: usize,
    pub pending_heartbeat: Option<u64>,
    pub status: SocketStatus,
    pub resume: Resume,
    /// What was asked of the outside and not handed over yet.
    pub out: Seq<Deed>,
}

/// The state a task starts in. The socket is opened by the first join.
pub open spec fn fresh() -> Hub {
    Hub {
        socket: false,
        connection: 0,
        channels: Seq::empty(),
        inflight: Seq::empty(),
        next_ref: 0,
        next_generation: 0,
        connecting: false,
        reconnect_scheduled: false,
        closed: false,
        taken: 0,
        pending_heartbeat: None,
        status: SocketStatus::Connecting,
        resume: Resume::Idle,
        out: Seq::empty(),
    }
}

/// The number after `n`, from the largest back to zero.
pub open spec fn bumped(n: u64) -> u64 {
    if n == u64::MAX {
        0
    } else {
        (n + 1) as u64
    }
}

/// Where a topic is registered, or the length where it is not.
pub open spec fn find(channels: Seq<Seat>, topic: Chars) -> nat
    decreases channels.len(),
{
    if channels.len() == 0 {
        0
    } else if channels[0].topic == topic {
        0
    } else {
        1 + find(channels.drop_first(), topic)
    }
}

/// The entry for `topic`, only if `generation` is still current.
pub open spec fn live(h: Hub, topic: Chars, generation: u64) -> Option<int> {
    let i = find(h.channels, topic) as int;
    if i < h.channels.len() && h.channels[i].generation == generation {
        Some(i)
    } else {
        None
    }
}

/// The entry for `topic`, only if it is still waiting on `attempt`.
///
/// This is the fence every join reply and every join timeout passes: a channel
/// that has moved on must not be reopened, failed or rescheduled by an attempt
/// it stopped waiting for.
pub open spec fn joining(h: Hub, topic: Chars, generation: u64, attempt: u64) -> Option<int> {
    match live(h, topic, generation) {
        Some(i) => if h.channels[i].status == ChannelStatus::Joining && h.channels[i].attempt
            == attempt {
            Some(i)
        } else {
            None
        },
        None => None,
    }
}

/// Where a ref is in flight, or the length where it is not.
pub open spec fn position(inflight: Seq<(u64, Waiting)>, r: u64) -> nat
    decreases inflight.len(),
{
    if inflight.len() == 0 {
        0
    } else if inflight[0].0 == r {
        0
    } else {
        1 + position(inflight.drop_first(), r)
    }
}

/// The refs in flight without one.
pub open spec fn without(inflight: Seq<(u64, Waiting)>, r: u64) -> Seq<(u64, Waiting)> {
    let i = position(inflight, r) as int;
    if i < inflight.len() {
        inflight.remove(i)
    } else {
        inflight
    }
}

/// Asks something of the outside.
pub open spec fn say(h: Hub, deed: Deed) -> Hub {
    Hub { out: h.out.push(deed), ..h }
}

/// The state with one entry changed.
pub open spec fn reseat(h: Hub, i: int, seat: Seat) -> Hub {
    Hub { channels: h.channels.update(i, seat), ..h }
}

/// Reports something to an entry's owner.
pub open spec fn emit(h: Hub, i: int, news: News) -> Hub {
    say(h, Deed::Emit { generation: h.channels[i].generation, news })
}

/// The state without one entry, whose reports end.
pub open spec fn unseat(h: Hub, i: int) -> Hub {
    say(
        Hub { channels: h.channels.remove(i), ..h },
        Deed::End { generation: h.channels[i].generation },
    )
}

/// The state without the entry for `topic`, if `generation` is still current.
pub open spec fn remove_if_live(h: Hub, topic: Chars, generation: u64) -> Hub {
    match live(h, topic, generation) {
        Some(i) => unseat(h, i),
        None => h,
    }
}

/// Publishes a status. A repeat of the current one is dropped, so only changes
/// are ever seen.
pub open spec fn set_status(h: Hub, next: SocketStatus) -> Hub {
    if h.status == next {
        h
    } else {
        say(Hub { status: next, ..h }, Deed::Publish(next))
    }
}

/// Reports a lost or failed transport: a socket that has never been up stays
/// connecting, and a closed one reports nothing.
pub open spec fn report_lost(h: Hub) -> Hub {
    if h.closed || h.status == SocketStatus::Connecting {
        h
    } else {
        set_status(h, SocketStatus::Reconnecting)
    }
}

/// What is said to the pushes in flight when the socket goes away.
pub open spec fn failed(inflight: Seq<(u64, Waiting)>) -> Seq<Deed>
    decreases inflight.len(),
{
    if inflight.len() == 0 {
        Seq::empty()
    } else {
        let rest = failed(inflight.drop_last());
        match inflight.last().1 {
            Waiting::Push { ticket } => rest.push(
                Deed::Answered { ticket, outcome: Err(Failure::Disconnected) },
            ),
            _ => rest,
        }
    }
}

/// An entry once its socket has gone away.
pub open spec fn stranded(seat: Seat) -> Seat {
    Seat { status: ChannelStatus::Closed, join_ref: None, rejoin: None, ..seat }
}

/// The entries that stay when the socket goes away: a leave that will never be
/// acknowledged still ends its channel.
pub open spec fn stays(channels: Seq<Seat>) -> Seq<Seat>
    decreases channels.len(),
{
    if channels.len() == 0 {
        Seq::empty()
    } else {
        let rest = stays(channels.drop_last());
        if channels.last().status == ChannelStatus::Leaving {
            rest
        } else {
            rest.push(stranded(channels.last()))
        }
    }
}

/// What is said to the entries when the socket goes away: a leave is over, and
/// every other channel that wants to be joined is told why it is not.
pub open spec fn parting(channels: Seq<Seat>, reason: ChannelErrorReason) -> Seq<Deed>
    decreases channels.len(),
{
    if channels.len() == 0 {
        Seq::empty()
    } else {
        let rest = parting(channels.drop_last(), reason);
        let seat = channels.last();
        if seat.status == ChannelStatus::Leaving {
            rest.push(Deed::End { generation: seat.generation })
        } else if seat.wants_join {
            rest.push(Deed::Emit { generation: seat.generation, news: News::Error { reason } })
        } else {
            rest
        }
    }
}

/// Tears the socket down: fails everything in flight, and reports `reason` to
/// every channel that wanted to be joined.
pub open spec fn drop_socket(h: Hub, reason: ChannelErrorReason) -> Hub {
    let lost = report_lost(h);
    let hung = if lost.socket {
        say(Hub { socket: false, ..lost }, Deed::HangUp)
    } else {
        lost
    };
    Hub {
        pending_heartbeat: None,
        inflight: Seq::empty(),
        channels: stays(h.channels),
        out: hung.out + failed(h.inflight) + parting(h.channels, reason),
        ..hung
    }
}

/// Opens the socket, unless it is open, being opened, or closed for good.
pub open spec fn connect(h: Hub) -> Hub {
    if h.closed || h.connecting || h.socket {
        h
    } else {
        say(Hub { connecting: true, ..h }, Deed::Connect)
    }
}

/// Whether any channel wants to be joined.
pub open spec fn wanted(channels: Seq<Seat>) -> bool {
    exists|i: int| 0 <= i < channels.len() && (#[trigger] channels[i]).wants_join
}

/// Sets the timer for the next attempt to open the socket, where one is due.
pub open spec fn schedule_reconnect(h: Hub, seed: u64) -> Hub {
    if h.closed || h.reconnect_scheduled || h.connecting || h.socket || !wanted(h.channels) {
        h
    } else {
        say(
            Hub { reconnect_scheduled: true, taken: backoff::after(h.taken), ..h },
            Deed::Sleep {
                wait: Wait::Millis(backoff::delay(h.taken as nat, seed) as u64),
                alarm: Call::Reconnect,
            },
        )
    }
}

/// Sets the timer for a channel's next join, where one is due. While the socket
/// is down, reconnecting rejoins everything.
pub open spec fn schedule_rejoin(h: Hub, topic: Chars, generation: u64, seed: u64) -> Hub {
    if h.closed || !h.socket {
        h
    } else {
        match live(h, topic, generation) {
            Some(i) => {
                let seat = h.channels[i];
                if !seat.wants_join || seat.rejoin is Some {
                    h
                } else {
                    say(
                        reseat(
                            h,
                            i,
                            Seat {
                                rejoin: Some(seat.attempt),
                                taken: backoff::after(seat.taken),
                                ..seat
                            },
                        ),
                        Deed::Sleep {
                            wait: Wait::Millis(backoff::delay(seat.taken as nat, seed) as u64),
                            alarm: Call::Rejoin { topic, generation, attempt: seat.attempt },
                        },
                    )
                }
            },
            None => h,
        }
    }
}

/// Writes one frame; what is left to do waits for the write to be over.
pub open spec fn send(h: Hub, sheet: Sheet, resume: Resume) -> Hub {
    if h.socket {
        say(Hub { resume, ..h }, Deed::Send(sheet))
    } else {
        h
    }
}

/// Puts a ref in flight and sets its timer.
pub open spec fn await_reply(h: Hub, r: u64, waiting: Waiting, wait: Wait) -> Hub {
    say(
        Hub { inflight: without(h.inflight, r).push((r, waiting)), ..h },
        Deed::Sleep { wait, alarm: Call::Timeout { msg_ref: r } },
    )
}

/// The text of a ref.
pub open spec fn ref_of(r: u64) -> Option<Chars> {
    Some(decimal::spelled(r as nat))
}

/// Sends one join, if the channel has no other claim on the topic: only a closed
/// channel may join, because the server answers a second join for a topic it
/// holds by starting over.
pub open spec fn send_join(h: Hub, topic: Chars, generation: u64, resume: Resume) -> Hub {
    let r = bumped(h.next_ref);
    let counted = Hub { next_ref: r, ..h };
    match live(counted, topic, generation) {
        Some(i) => {
            let seat = h.channels[i];
            if seat.status != ChannelStatus::Closed {
                counted
            } else {
                let attempt = bumped(seat.attempt);
                let seated = reseat(
                    counted,
                    i,
                    Seat { status: ChannelStatus::Joining, join_ref: ref_of(r), attempt, ..seat },
                );
                send(
                    await_reply(
                        seated,
                        r,
                        Waiting::Join { topic, generation, attempt },
                        Wait::Join,
                    ),
                    Sheet::Text(
                        json::tuple_text(
                            Letter {
                                join_ref: ref_of(r),
                                msg_ref: ref_of(r),
                                topic,
                                event: EVENT_JOIN@,
                                payload: seat.params,
                            },
                        ),
                    ),
                    resume,
                )
            }
        },
        None => counted,
    }
}

/// Sends joins, one after the other, up to the first that is being written.
pub open spec fn join_all(h: Hub, list: Seq<(Chars, u64)>) -> Hub
    decreases list.len(),
{
    if list.len() == 0 {
        h
    } else {
        let rest = list.drop_first();
        let sent = send_join(h, list[0].0, list[0].1, Resume::Joins(rest));
        if sent.resume is Idle {
            join_all(sent, rest)
        } else {
            sent
        }
    }
}

/// The channels that want to be joined, in registry order.
pub open spec fn wanting(channels: Seq<Seat>) -> Seq<(Chars, u64)>
    decreases channels.len(),
{
    if channels.len() == 0 {
        Seq::empty()
    } else {
        let rest = wanting(channels.drop_last());
        let seat = channels.last();
        if seat.wants_join {
            rest.push((seat.topic, seat.generation))
        } else {
            rest
        }
    }
}

/// What is said to the channels that want to be joined.
pub open spec fn to_wanting(channels: Seq<Seat>, news: News) -> Seq<Deed>
    decreases channels.len(),
{
    if channels.len() == 0 {
        Seq::empty()
    } else {
        let rest = to_wanting(channels.drop_last(), news);
        let seat = channels.last();
        if seat.wants_join {
            rest.push(Deed::Emit { generation: seat.generation, news })
        } else {
            rest
        }
    }
}

/// Sets the timer for the next heartbeat of this connection.
pub open spec fn arm_heartbeat(h: Hub) -> Hub {
    say(
        h,
        Deed::Sleep {
            wait: Wait::Heartbeat,
            alarm: Call::HeartbeatTick { connection: h.connection },
        },
    )
}

/// The write in progress is over.
///
/// The next heartbeat is timed from here, so the interval measures how long this
/// heartbeat has gone unanswered.
pub open spec fn written(h: Hub, delivered: bool, seed: u64) -> Hub {
    let idle = Hub { resume: Resume::Idle, ..h };
    let told = if delivered {
        idle
    } else {
        schedule_reconnect(drop_socket(idle, ChannelErrorReason::SocketClosed), seed)
    };
    if !told.socket {
        told
    } else {
        match h.resume {
            Resume::Idle => told,
            Resume::Done => told,
            Resume::Joins(list) => join_all(told, list),
            Resume::Rejoin { topic, generation } => schedule_rejoin(told, topic, generation, seed),
            Resume::Tick => arm_heartbeat(told),
        }
    }
}

/// An entry for a topic nobody has joined yet.
pub open spec fn fresh_seat(topic: Chars, params: Json, generation: u64) -> Seat {
    Seat {
        topic,
        generation,
        params,
        status: ChannelStatus::Closed,
        join_ref: None,
        attempt: 0,
        wants_join: false,
        suppress_close: false,
        taken: 0,
        rejoin: None,
    }
}

/// Registers a topic under a new generation. The entry it had, if any, is
/// replaced, and its reports end.
pub open spec fn attach(h: Hub, topic: Chars, params: Json, ticket: u64) -> Hub {
    let generation = bumped(h.next_generation);
    let counted = Hub { next_generation: generation, ..h };
    let seat = fresh_seat(topic, params, generation);
    let i = find(h.channels, topic) as int;
    let seated = if i < h.channels.len() {
        say(reseat(counted, i, seat), Deed::End { generation: h.channels[i].generation })
    } else {
        Hub { channels: h.channels.push(seat), ..counted }
    };
    say(seated, Deed::Attached { ticket, generation })
}

/// Joins a channel, opening the socket if it is not open.
pub open spec fn join(h: Hub, topic: Chars, generation: u64) -> Hub {
    match live(h, topic, generation) {
        Some(i) => {
            let willing = reseat(
                h,
                i,
                Seat { wants_join: true, suppress_close: false, ..h.channels[i] },
            );
            if h.socket {
                send_join(willing, topic, generation, Resume::Done)
            } else {
                connect(willing)
            }
        },
        None => h,
    }
}

/// A scheduled rejoin came due.
///
/// While the transport is down the reconnect ladder owns recovery and rejoins
/// everything on open.
pub open spec fn rejoin(h: Hub, topic: Chars, generation: u64, attempt: u64) -> Hub {
    match live(h, topic, generation) {
        Some(i) => if h.channels[i].rejoin == Some(attempt) {
            let disarmed = reseat(h, i, Seat { rejoin: None, ..h.channels[i] });
            if h.socket {
                join(disarmed, topic, generation)
            } else {
                disarmed
            }
        } else {
            h
        },
        None => h,
    }
}

/// The message that leaves a channel.
pub open spec fn leave_letter(topic: Chars, join_ref: Chars, r: u64) -> Letter {
    Letter {
        join_ref: Some(join_ref),
        msg_ref: ref_of(r),
        topic,
        event: EVENT_LEAVE@,
        payload: Json::Object(Seq::empty()),
    }
}

/// Leaves a channel. A leave supersedes any join still in flight. Where there is
/// nothing to leave, the entry is dropped at once.
pub open spec fn leave(h: Hub, topic: Chars, generation: u64) -> Hub {
    match live(h, topic, generation) {
        Some(i) => {
            let seat = h.channels[i];
            let leaving = reseat(
                h,
                i,
                Seat {
                    wants_join: false,
                    suppress_close: true,
                    status: ChannelStatus::Leaving,
                    ..seat
                },
            );
            match seat.join_ref {
                Some(join_ref) => if h.socket {
                    let r = bumped(h.next_ref);
                    send(
                        await_reply(
                            Hub { next_ref: r, ..leaving },
                            r,
                            Waiting::Leave { topic, generation },
                            Wait::Push,
                        ),
                        Sheet::Text(json::tuple_text(leave_letter(topic, join_ref, r))),
                        Resume::Done,
                    )
                } else {
                    unseat(leaving, i)
                },
                None => unseat(leaving, i),
            }
        },
        None => h,
    }
}

/// Answers a push.
pub open spec fn answer(h: Hub, ticket: u64, outcome: Result<Answer, Failure>) -> Hub {
    say(h, Deed::Answered { ticket, outcome })
}

/// The frame of a push, or why there is none.
pub open spec fn push_sheet(
    topic: Chars,
    event: Chars,
    join_ref: Option<Chars>,
    r: u64,
    payload: Cargo,
) -> Result<Sheet, Flaw> {
    match payload {
        Cargo::Json(value) => Ok(
            Sheet::Text(
                json::tuple_text(
                    Letter { join_ref, msg_ref: ref_of(r), topic, event, payload: value },
                ),
            ),
        ),
        Cargo::Binary(bytes) => {
            let parcel = Parcel {
                join_ref: match join_ref {
                    Some(held) => held,
                    None => Seq::empty(),
                },
                msg_ref: decimal::spelled(r as nat),
                topic,
                event,
                payload: bytes,
            };
            match frame::unframable(parcel) {
                Some(flaw) => Err(flaw),
                None => Ok(Sheet::Binary(frame::framed(parcel))),
            }
        },
    }
}

/// Pushes an event. A stale handle, a channel that is not joined and a payload
/// that cannot be framed are answered at once, with nothing put in flight.
pub open spec fn push(
    h: Hub,
    topic: Chars,
    generation: u64,
    event: Chars,
    payload: Cargo,
    ticket: u64,
) -> Hub {
    match live(h, topic, generation) {
        Some(i) => {
            let seat = h.channels[i];
            if !h.socket || seat.status != ChannelStatus::Joined {
                answer(h, ticket, Err(Failure::NotJoined))
            } else {
                let r = bumped(h.next_ref);
                let counted = Hub { next_ref: r, ..h };
                match push_sheet(topic, event, seat.join_ref, r, payload) {
                    Ok(sheet) => send(
                        await_reply(counted, r, Waiting::Push { ticket }, Wait::Push),
                        sheet,
                        Resume::Done,
                    ),
                    Err(flaw) => answer(counted, ticket, Err(Failure::Unframable(flaw))),
                }
            }
        },
        None => answer(h, ticket, Err(Failure::Stale)),
    }
}

/// An attempt to open the socket is over. Every channel that wants to be joined
/// is joined on the new socket, or told that there is none.
pub open spec fn connected(h: Hub, opened: bool, seed: u64) -> Hub {
    let over = Hub { connecting: false, ..h };
    if !opened {
        let lost = report_lost(over);
        schedule_reconnect(
            Hub {
                out: lost.out + to_wanting(
                    h.channels,
                    News::Error { reason: ChannelErrorReason::SocketClosed },
                ),
                ..lost
            },
            seed,
        )
    } else if h.closed {
        say(over, Deed::HangUp)
    } else {
        let open = Hub { socket: true, connection: bumped(h.connection), taken: 0, ..over };
        join_all(
            set_status(arm_heartbeat(open), SocketStatus::Connected),
            wanting(h.channels),
        )
    }
}

/// A heartbeat is due. One that is still unanswered means that the socket is
/// dead even though the transport has not noticed.
pub open spec fn heartbeat_tick(h: Hub, connection: u64, seed: u64) -> Hub {
    if !h.socket || h.connection != connection {
        h
    } else if h.pending_heartbeat is Some {
        schedule_reconnect(drop_socket(h, ChannelErrorReason::HeartbeatTimeout), seed)
    } else {
        let r = bumped(h.next_ref);
        send(
            Hub { next_ref: r, pending_heartbeat: Some(r), ..h },
            Sheet::Text(
                json::tuple_text(
                    Letter {
                        join_ref: None,
                        msg_ref: ref_of(r),
                        topic: TOPIC_PHOENIX@,
                        event: EVENT_HEARTBEAT@,
                        payload: Json::Object(Seq::empty()),
                    },
                ),
            ),
            Resume::Tick,
        )
    }
}

/// Fails a ref that can never be answered: the push learns why, a join that is
/// still waited for is reported, taken back off the server and rescheduled, and
/// a leave completes.
///
/// Only here does the server not know that the attempt has ended, so only here
/// is it told to leave the channel it may still be building.
pub open spec fn abandon(h: Hub, waiting: Waiting, why: Failure, seed: u64) -> Hub {
    match waiting {
        Waiting::Push { ticket } => answer(h, ticket, Err(why)),
        Waiting::Join { topic, generation, attempt } => match joining(
            h,
            topic,
            generation,
            attempt,
        ) {
            Some(i) => {
                let seat = h.channels[i];
                let told = emit(
                    reseat(h, i, Seat { status: ChannelStatus::Closed, join_ref: None, ..seat }),
                    i,
                    News::JoinTimeout,
                );
                match seat.join_ref {
                    Some(join_ref) => {
                        let r = bumped(h.next_ref);
                        send(
                            Hub { next_ref: r, ..told },
                            Sheet::Text(json::tuple_text(leave_letter(topic, join_ref, r))),
                            Resume::Rejoin { topic, generation },
                        )
                    },
                    None => schedule_rejoin(told, topic, generation, seed),
                }
            },
            None => h,
        },
        Waiting::Leave { topic, generation } => remove_if_live(h, topic, generation),
    }
}

/// A ref went unanswered for too long.
pub open spec fn timeout(h: Hub, r: u64, seed: u64) -> Hub {
    let i = position(h.inflight, r) as int;
    if i < h.inflight.len() {
        abandon(
            Hub { inflight: without(h.inflight, r), ..h },
            h.inflight[i].1,
            Failure::Timeout,
            seed,
        )
    } else {
        h
    }
}

/// The server tore the channel down: it is closed, that is reported, and a
/// rejoin is scheduled.
pub open spec fn went_down(h: Hub, i: int, news: News, seed: u64) -> Hub {
    let seat = h.channels[i];
    schedule_rejoin(
        emit(
            reseat(h, i, Seat { status: ChannelStatus::Closed, join_ref: None, ..seat }),
            i,
            news,
        ),
        seat.topic,
        seat.generation,
        seed,
    )
}

/// The server answered a join.
pub open spec fn join_replied(
    h: Hub,
    topic: Chars,
    generation: u64,
    attempt: u64,
    reply: Answer,
    seed: u64,
) -> Hub {
    match joining(h, topic, generation, attempt) {
        Some(i) => {
            let seat = h.channels[i];
            match reply.status {
                ReplyStatus::Okay => emit(
                    reseat(h, i, Seat { status: ChannelStatus::Joined, taken: 0, ..seat }),
                    i,
                    News::Joined { response: reply.response },
                ),
                ReplyStatus::Error => schedule_rejoin(
                    emit(
                        reseat(h, i, Seat { status: ChannelStatus::Closed, ..seat }),
                        i,
                        News::JoinError { response: reply.response },
                    ),
                    topic,
                    generation,
                    seed,
                ),
            }
        },
        None => h,
    }
}

/// A reply arrived for a ref in flight.
pub open spec fn settle(h: Hub, waiting: Waiting, payload: Json, seed: u64) -> Hub {
    match frame::reply_of(payload) {
        Some(reply) => match waiting {
            Waiting::Push { ticket } => answer(h, ticket, Ok(reply)),
            Waiting::Join { topic, generation, attempt } => join_replied(
                h,
                topic,
                generation,
                attempt,
                reply,
                seed,
            ),
            Waiting::Leave { topic, generation } => remove_if_live(h, topic, generation),
        },
        None => abandon(h, waiting, Failure::MalformedReply, seed),
    }
}

/// A reply arrived: it is matched by its ref alone.
pub open spec fn handle_reply(h: Hub, letter: Letter, seed: u64) -> Hub {
    let named = match letter.msg_ref {
        Some(text) => decimal::meaning(text),
        None => None,
    };
    match named {
        Some(r) => if h.pending_heartbeat == Some(r) {
            Hub { pending_heartbeat: None, ..h }
        } else {
            let i = position(h.inflight, r) as int;
            if i < h.inflight.len() {
                settle(
                    Hub { inflight: without(h.inflight, r), ..h },
                    h.inflight[i].1,
                    letter.payload,
                    seed,
                )
            } else {
                h
            }
        },
        None => h,
    }
}

/// A message arrived. One stamped with a superseded join ref belongs to a
/// channel that has been replaced, and is dropped.
pub open spec fn receive(h: Hub, letter: Letter, seed: u64) -> Hub {
    if letter.event == EVENT_REPLY@ {
        handle_reply(h, letter, seed)
    } else {
        let i = find(h.channels, letter.topic) as int;
        if i >= h.channels.len() {
            h
        } else {
            let seat = h.channels[i];
            if letter.join_ref is Some && letter.join_ref != seat.join_ref {
                h
            } else if letter.event == EVENT_CLOSE@ {
                if seat.suppress_close {
                    unseat(h, i)
                } else {
                    went_down(h, i, News::Close, seed)
                }
            } else if letter.event == EVENT_ERROR@ {
                went_down(h, i, News::Error { reason: ChannelErrorReason::Server }, seed)
            } else {
                emit(h, i, News::Message { event: letter.event, payload: letter.payload })
            }
        }
    }
}

/// A frame arrived. Binary frames and texts that are no five-tuple are dropped.
pub open spec fn handle_frame(h: Hub, sheet: Sheet, seed: u64) -> Hub {
    match sheet {
        Sheet::Text(text) => match json::tuple_read(text) {
            Some(letter) => receive(h, letter, seed),
            None => h,
        },
        Sheet::Binary(_) => h,
    }
}

/// The transport reported that it is gone.
pub open spec fn lost(h: Hub, seed: u64) -> Hub {
    schedule_reconnect(drop_socket(h, ChannelErrorReason::SocketClosed), seed)
}

/// What ends the reports of every entry.
pub open spec fn endings(channels: Seq<Seat>) -> Seq<Deed> {
    Seq::new(channels.len(), |i: int| Deed::End { generation: channels[i].generation })
}

/// Closes the socket for good: every channel is dropped, and every push in
/// flight rejected.
pub open spec fn disconnect(h: Hub, ticket: u64) -> Hub {
    let down = drop_socket(Hub { closed: true, ..h }, ChannelErrorReason::SocketClosed);
    let cleared = Hub {
        channels: Seq::empty(),
        out: down.out + endings(down.channels),
        ..down
    };
    say(set_status(cleared, SocketStatus::Closed), Deed::Acknowledge { ticket })
}

/// One thing asked of the task.
pub open spec fn handle(h: Hub, call: Call, seed: u64) -> Hub {
    match call {
        Call::Attach { topic, params, ticket } => attach(h, topic, params, ticket),
        Call::Join { topic, generation } => join(h, topic, generation),
        Call::Leave { topic, generation } => leave(h, topic, generation),
        Call::Push { topic, generation, event, payload, ticket } => push(
            h,
            topic,
            generation,
            event,
            payload,
            ticket,
        ),
        Call::Rejoin { topic, generation, attempt } => rejoin(h, topic, generation, attempt),
        Call::Connected { opened } => connected(h, opened, seed),
        Call::Reconnect => connect(Hub { reconnect_scheduled: false, ..h }),
        Call::HeartbeatTick { connection } => heartbeat_tick(h, connection, seed),
        Call::Timeout { msg_ref } => timeout(h, msg_ref, seed),
        Call::Disconnect { ticket } => disconnect(h, ticket),
    }
}

} // verus!
