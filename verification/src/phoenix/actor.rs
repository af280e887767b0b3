//! The decisions of the one task that owns the socket, the channel registry, the
//! ref counter and every timer.
//!
//! The task is driven from outside: it is handed what was asked of it and what
//! arrived, and hands back what to do, in order. Whoever drives it performs the
//! actions. A frame to write is always the last of them; until its outcome has
//! been handed back, nothing else is.

use vstd::prelude::*;

use crate::phoenix::backoff;
use crate::phoenix::backoff::Backoff;
use crate::phoenix::channel::{ChannelErrorReason, ChannelEvent, News};
use crate::phoenix::decimal;
use crate::phoenix::error::{PushError, SocketClosed};
use crate::phoenix::frame;
use crate::phoenix::frame::{
    Answer, BinaryPush, Frame, Message, Reply, ReplyStatus, Sheet, EVENT_CLOSE, EVENT_ERROR,
    EVENT_HEARTBEAT, EVENT_JOIN, EVENT_LEAVE, EVENT_REPLY, TOPIC_PHOENIX,
};
use crate::phoenix::hub;
use crate::phoenix::hub::{
    Call, Cargo, ChannelStatus, Deed, Failure, Hub, Resume, Seat, SocketStatus, Wait, Waiting,
};
use crate::phoenix::json;
use crate::phoenix::json::Letter;
use crate::state::text;
use crate::state::text::Chars;
use crate::state::value::Json;

verus! {

/// What a push carries: a JSON payload, or raw bytes in a binary frame.
#[derive(Debug, PartialEq)]
pub enum PushPayload {
    /// A JSON payload.
    Json(serde_json::Value),
    /// Raw bytes.
    Binary(Vec<u8>),
}

impl View for PushPayload {
    type V = Cargo;

    open spec fn view(&self) -> Cargo {
        match self {
            PushPayload::Json(value) => Cargo::Json(json::document(*value)),
            PushPayload::Binary(bytes) => Cargo::Binary(bytes@),
        }
    }
}

/// What the task accepts. Every handle method and every timer is a sender.
#[derive(Debug, PartialEq)]
pub enum ActorMsg {
    /// Register a topic.
    Attach {
        /// The topic.
        topic: String,
        /// What its joins carry.
        params: serde_json::Value,
        /// Whom to tell the generation.
        ticket: u64,
    },
    /// Join a channel.
    Join {
        /// Its topic.
        topic: String,
        /// The generation of the handle that asks.
        generation: u64,
    },
    /// Leave a channel.
    Leave {
        /// Its topic.
        topic: String,
        /// The generation of the handle that asks.
        generation: u64,
    },
    /// Push an event.
    Push {
        /// The topic.
        topic: String,
        /// The generation of the handle that asks.
        generation: u64,
        /// The event name.
        event: String,
        /// What it carries.
        payload: PushPayload,
        /// Whom to hand the reply.
        ticket: u64,
    },
    /// A rejoin came due.
    Rejoin {
        /// The topic.
        topic: String,
        /// The generation it was set for.
        generation: u64,
        /// The attempt it was set to replace.
        attempt: u64,
    },
    /// An attempt to open the socket is over.
    Connected {
        /// Whether there is a socket now.
        opened: bool,
    },
    /// A reconnect came due.
    Reconnect,
    /// A heartbeat came due.
    HeartbeatTick {
        /// The connection it was set for.
        connection: u64,
    },
    /// A reply is overdue.
    Timeout {
        /// The ref it was set for.
        msg_ref: u64,
    },
    /// Close the socket for good.
    Disconnect {
        /// Whom to tell.
        ticket: u64,
    },
}

impl View for ActorMsg {
    type V = Call;

    open spec fn view(&self) -> Call {
        match self {
            ActorMsg::Attach { topic, params, ticket } => Call::Attach {
                topic: topic@,
                params: json::document(*params),
                ticket: *ticket,
            },
            ActorMsg::Join { topic, generation } => Call::Join {
                topic: topic@,
                generation: *generation,
            },
            ActorMsg::Leave { topic, generation } => Call::Leave {
                topic: topic@,
                generation: *generation,
            },
            ActorMsg::Push { topic, generation, event, payload, ticket } => Call::Push {
                topic: topic@,
                generation: *generation,
                event: event@,
                payload: payload@,
                ticket: *ticket,
            },
            ActorMsg::Rejoin { topic, generation, attempt } => Call::Rejoin {
                topic: topic@,
                generation: *generation,
                attempt: *attempt,
            },
            ActorMsg::Connected { opened } => Call::Connected { opened: *opened },
            ActorMsg::Reconnect => Call::Reconnect,
            ActorMsg::HeartbeatTick { connection } => Call::HeartbeatTick {
                connection: *connection,
            },
            ActorMsg::Timeout { msg_ref } => Call::Timeout { msg_ref: *msg_ref },
            ActorMsg::Disconnect { ticket } => Call::Disconnect { ticket: *ticket },
        }
    }
}

/// What the task asks of whoever drives it.
#[derive(Debug, PartialEq)]
pub enum Action {
    /// Write a frame, and hand back whether it was written.
    Send(Frame),
    /// Try once to open the socket.
    Connect,
    /// Drop the socket.
    HangUp,
    /// Hand back a message after a while.
    Sleep {
        /// How long.
        wait: Wait,
        /// The message.
        alarm: ActorMsg,
    },
    /// Report to the owner of a channel.
    Emit {
        /// The generation of the channel.
        generation: u64,
        /// What to report.
        event: ChannelEvent,
    },
    /// End the reports of a channel.
    End {
        /// The generation of the channel.
        generation: u64,
    },
    /// A topic was registered.
    Attached {
        /// Whom to tell.
        ticket: u64,
        /// The generation it was registered as.
        generation: u64,
    },
    /// Hand a push its outcome.
    Answered {
        /// Whom to hand it.
        ticket: u64,
        /// The outcome.
        outcome: Result<Reply, PushError>,
    },
    /// The socket's status changed.
    Publish(SocketStatus),
    /// The socket is closed for good.
    Acknowledge {
        /// Whom to tell.
        ticket: u64,
    },
}

/// A failed push as contracts see it.
pub open spec fn failure(error: PushError) -> Failure {
    match error {
        PushError::NotJoined => Failure::NotJoined,
        PushError::Stale => Failure::Stale,
        PushError::Disconnected => Failure::Disconnected,
        PushError::Timeout => Failure::Timeout,
        PushError::MalformedReply => Failure::MalformedReply,
        PushError::SocketClosed(_) => Failure::SocketClosed,
        PushError::Unframable(flaw) => Failure::Unframable(flaw@),
    }
}

/// The outcome of a push as contracts see it.
pub open spec fn outcome_of(outcome: Result<Reply, PushError>) -> Result<Answer, Failure> {
    match outcome {
        Ok(reply) => Ok(reply@),
        Err(error) => Err(failure(error)),
    }
}

impl View for Action {
    type V = Deed;

    open spec fn view(&self) -> Deed {
        match self {
            Action::Send(frame) => Deed::Send(frame@),
            Action::Connect => Deed::Connect,
            Action::HangUp => Deed::HangUp,
            Action::Sleep { wait, alarm } => Deed::Sleep { wait: *wait, alarm: alarm@ },
            Action::Emit { generation, event } => Deed::Emit {
                generation: *generation,
                news: event@,
            },
            Action::End { generation } => Deed::End { generation: *generation },
            Action::Attached { ticket, generation } => Deed::Attached {
                ticket: *ticket,
                generation: *generation,
            },
            Action::Answered { ticket, outcome } => Deed::Answered {
                ticket: *ticket,
                outcome: outcome_of(*outcome),
            },
            Action::Publish(status) => Deed::Publish(*status),
            Action::Acknowledge { ticket } => Deed::Acknowledge { ticket: *ticket },
        }
    }
}

/// A list of actions as contracts see it.
pub open spec fn deeds(list: Seq<Action>) -> Seq<Deed> {
    Seq::new(list.len(), |i: int| list[i]@)
}

/// One registry entry. There is at most one per topic.
struct ChannelState {
    topic: String,
    generation: u64,
    params: serde_json::Value,
    status: ChannelStatus,
    join_ref: Option<String>,
    attempt: u64,
    wants_join: bool,
    suppress_close: bool,
    backoff: Backoff,
    rejoin_scheduled: Option<u64>,
}

impl View for ChannelState {
    type V = Seat;

    closed spec fn view(&self) -> Seat {
        Seat {
            topic: self.topic@,
            generation: self.generation,
            params: json::document(self.params),
            status: self.status,
            join_ref: json::maybe(self.join_ref),
            attempt: self.attempt,
            wants_join: self.wants_join,
            suppress_close: self.suppress_close,
            taken: self.backoff.taken(),
            rejoin: self.rejoin_scheduled,
        }
    }
}

spec fn seats(list: Seq<ChannelState>) -> Seq<Seat> {
    Seq::new(list.len(), |i: int| list[i]@)
}

/// A push awaiting its reply.
enum Inflight {
    Push { ticket: u64 },
    Join { topic: String, generation: u64, attempt: u64 },
    Leave { topic: String, generation: u64 },
}

impl View for Inflight {
    type V = Waiting;

    closed spec fn view(&self) -> Waiting {
        match self {
            Inflight::Push { ticket } => Waiting::Push { ticket: *ticket },
            Inflight::Join { topic, generation, attempt } => Waiting::Join {
                topic: topic@,
                generation: *generation,
                attempt: *attempt,
            },
            Inflight::Leave { topic, generation } => Waiting::Leave {
                topic: topic@,
                generation: *generation,
            },
        }
    }
}

spec fn flights(list: Seq<(u64, Inflight)>) -> Seq<(u64, Waiting)> {
    Seq::new(list.len(), |i: int| (list[i].0, list[i].1@))
}

/// What is left to do once the write in progress is over.
enum Pending {
    Idle,
    Done,
    Joins { list: Vec<(String, u64)> },
    Rejoin { topic: String, generation: u64 },
    Tick,
}

spec fn names(list: Seq<(String, u64)>) -> Seq<(Chars, u64)> {
    Seq::new(list.len(), |i: int| (list[i].0@, list[i].1))
}

impl View for Pending {
    type V = Resume;

    closed spec fn view(&self) -> Resume {
        match self {
            Pending::Idle => Resume::Idle,
            Pending::Done => Resume::Done,
            Pending::Joins { list } => Resume::Joins(names(list@)),
            Pending::Rejoin { topic, generation } => Resume::Rejoin {
                topic: topic@,
                generation: *generation,
            },
            Pending::Tick => Resume::Tick,
        }
    }
}

/// The single owner of the socket's state.
pub struct Actor {
    socket: bool,
    connection: u64,
    channels: Vec<ChannelState>,
    inflight: Vec<(u64, Inflight)>,
    next_ref: u64,
    next_generation: u64,
    connecting: bool,
    reconnect_scheduled: bool,
    closed: bool,
    backoff: Backoff,
    pending_heartbeat: Option<u64>,
    status: SocketStatus,
    resume: Pending,
    out: Vec<Action>,
}

impl View for Actor {
    type V = Hub;

    closed spec fn view(&self) -> Hub {
        Hub {
            socket: self.socket,
            connection: self.connection,
            channels: seats(self.channels@),
            inflight: flights(self.inflight@),
            next_ref: self.next_ref,
            next_generation: self.next_generation,
            connecting: self.connecting,
            reconnect_scheduled: self.reconnect_scheduled,
            closed: self.closed,
            taken: self.backoff.taken(),
            pending_heartbeat: self.pending_heartbeat,
            status: self.status,
            resume: self.resume@,
            out: deeds(self.out@),
        }
    }
}

/// The number after `n`, from the largest back to zero.
fn bump(n: u64) -> (next: u64)
    ensures
        next == hub::bumped(n),
{
    if n == u64::MAX {
        0
    } else {
        n + 1
    }
}

/// A copy of an optional text.
fn copy_text(text: &Option<String>) -> (copy: Option<String>)
    ensures
        json::maybe(copy) == json::maybe(*text),
{
    match text {
        Some(held) => Some(held.clone()),
        None => None,
    }
}

/// Whether two optional texts are equal.
fn same_text(a: &Option<String>, b: &Option<String>) -> (same: bool)
    ensures
        same == (json::maybe(*a) == json::maybe(*b)),
{
    match (a, b) {
        (Some(x), Some(y)) => text::text_eq(x.as_str(), y.as_str()),
        (None, None) => true,
        _ => false,
    }
}

proof fn find_is(channels: Seq<Seat>, topic: Chars, at: int)
    requires
        0 <= at <= channels.len(),
        at < channels.len() ==> channels[at].topic == topic,
        forall|j: int| 0 <= j < at ==> (#[trigger] channels[j]).topic != topic,
    ensures
        hub::find(channels, topic) == at,
    decreases channels.len(),
{
    if channels.len() > 0 && at > 0 {
        let rest = channels.drop_first();
        assert(channels[0].topic != topic);
        assert forall|j: int| 0 <= j < at - 1 implies (#[trigger] rest[j]).topic != topic by {
            assert(rest[j] == channels[j + 1]);
        }
        if at < channels.len() {
            assert(rest[at - 1] == channels[at]);
        }
        find_is(rest, topic, at - 1);
    }
}

proof fn position_is(inflight: Seq<(u64, Waiting)>, r: u64, at: int)
    requires
        0 <= at <= inflight.len(),
        at < inflight.len() ==> inflight[at].0 == r,
        forall|j: int| 0 <= j < at ==> (#[trigger] inflight[j]).0 != r,
    ensures
        hub::position(inflight, r) == at,
    decreases inflight.len(),
{
    if inflight.len() > 0 && at > 0 {
        let rest = inflight.drop_first();
        assert(inflight[0].0 != r);
        assert forall|j: int| 0 <= j < at - 1 implies (#[trigger] rest[j]).0 != r by {
            assert(rest[j] == inflight[j + 1]);
        }
        if at < inflight.len() {
            assert(rest[at - 1] == inflight[at]);
        }
        position_is(rest, r, at - 1);
    }
}

impl Actor {
    /// A task that has done nothing yet. The socket is opened by the first join.
    pub fn new() -> (actor: Actor)
        ensures
            actor@ == hub::fresh(),
    {
        let actor = Actor {
            socket: false,
            connection: 0,
            channels: Vec::new(),
            inflight: Vec::new(),
            next_ref: 0,
            next_generation: 0,
            connecting: false,
            reconnect_scheduled: false,
            closed: false,
            backoff: Backoff::new(),
            pending_heartbeat: None,
            status: SocketStatus::Connecting,
            resume: Pending::Idle,
            out: Vec::new(),
        };
        assert(actor@ =~= hub::fresh());
        actor
    }

    /// Where the socket is in its connection lifecycle, right now.
    pub fn status(&self) -> (status: SocketStatus)
        ensures
            status == self@.status,
    {
        self.status
    }

    /// Whether a write is in progress.
    pub fn is_writing(&self) -> (writing: bool)
        ensures
            writing == !(self@.resume is Idle),
    {
        match self.resume {
            Pending::Idle => false,
            _ => true,
        }
    }

    fn say(&mut self, action: Action)
        ensures
            final(self)@ == hub::say(old(self)@, action@),
    {
        self.out.push(action);
        assert(self@ =~= hub::say(old(self)@, action@));
    }

    /// Hands over what was asked of the outside.
    fn hand_over(&mut self) -> (actions: Vec<Action>)
        ensures
            deeds(actions@) == old(self)@.out,
            final(self)@ == (Hub { out: Seq::empty(), ..old(self)@ }),
    {
        let mut actions: Vec<Action> = Vec::new();
        std::mem::swap(&mut actions, &mut self.out);
        assert(self@ =~= (Hub { out: Seq::empty(), ..old(self)@ }));
        actions
    }

    fn find(&self, topic: &str) -> (at: usize)
        ensures
            at == hub::find(self@.channels, topic@),
            at <= self@.channels.len(),
            at < self@.channels.len() ==> self@.channels[at as int].topic == topic@,
            self@.channels.len() == self.channels@.len(),
    {
        let mut at: usize = 0;
        while at < self.channels.len() && !text::text_eq(self.channels[at].topic.as_str(), topic)
            invariant
                at <= self.channels@.len(),
                forall|j: int|
                    0 <= j < at ==> (#[trigger] self@.channels[j]).topic != topic@,
            decreases self.channels.len() - at,
        {
            assert(self@.channels[at as int] == self.channels@[at as int]@);
            at = at + 1;
        }
        proof {
            if at < self.channels@.len() {
                assert(self@.channels[at as int] == self.channels@[at as int]@);
            }
            find_is(self@.channels, topic@, at as int);
        }
        at
    }

    fn live(&self, topic: &str, generation: u64) -> (at: Option<usize>)
        ensures
            match at {
                Some(i) => hub::live(self@, topic@, generation) == Some(i as int) && i
                    < self.channels@.len() && self@.channels[i as int].topic == topic@
                    && self@.channels[i as int].generation == generation,
                None => hub::live(self@, topic@, generation) is None,
            },
    {
        let at = self.find(topic);
        if at < self.channels.len() {
            assert(self@.channels[at as int] == self.channels@[at as int]@);
            if self.channels[at].generation == generation {
                return Some(at);
            }
        }
        None
    }

    fn joining(&self, topic: &str, generation: u64, attempt: u64) -> (at: Option<usize>)
        ensures
            match at {
                Some(i) => hub::joining(self@, topic@, generation, attempt) == Some(i as int) && i
                    < self.channels@.len() && self@.channels[i as int].topic == topic@
                    && self@.channels[i as int].generation == generation,
                None => hub::joining(self@, topic@, generation, attempt) is None,
            },
    {
        match self.live(topic, generation) {
            Some(i) => {
                assert(self@.channels[i as int] == self.channels@[i as int]@);
                if self.channels[i].status == ChannelStatus::Joining && self.channels[i].attempt
                    == attempt {
                    Some(i)
                } else {
                    None
                }
            },
            None => None,
        }
    }

    fn emit(&mut self, i: usize, event: ChannelEvent)
        requires
            i < old(self)@.channels.len(),
        ensures
            final(self)@ == hub::emit(old(self)@, i as int, event@),
    {
        assert(self@.channels[i as int] == self.channels@[i as int]@);
        let generation = self.channels[i].generation;
        self.say(Action::Emit { generation, event });
    }

    fn unseat(&mut self, i: usize)
        requires
            i < old(self)@.channels.len(),
        ensures
            final(self)@ == hub::unseat(old(self)@, i as int),
    {
        assert(self@.channels[i as int] == self.channels@[i as int]@);
        let generation = self.channels[i].generation;
        let _ = self.channels.remove(i);
        assert(self@.channels =~= old(self)@.channels.remove(i as int));
        self.say(Action::End { generation });
        assert(self@ =~= hub::unseat(old(self)@, i as int));
    }

    fn remove_if_live(&mut self, topic: &str, generation: u64)
        ensures
            final(self)@ == hub::remove_if_live(old(self)@, topic@, generation),
    {
        if let Some(i) = self.live(topic, generation) {
            self.unseat(i);
        }
    }

    fn set_status(&mut self, next: SocketStatus)
        ensures
            final(self)@ == hub::set_status(old(self)@, next),
    {
        if self.status != next {
            self.status = next;
            self.say(Action::Publish(next));
            assert(self@ =~= hub::set_status(old(self)@, next));
        }
    }

    fn report_lost(&mut self)
        ensures
            final(self)@ == hub::report_lost(old(self)@),
    {
        if self.closed || self.status == SocketStatus::Connecting {
            return;
        }
        self.set_status(SocketStatus::Reconnecting);
    }

    /// Rejects every push in flight.
    fn fail_all(&mut self)
        ensures
            final(self)@ == (Hub {
                inflight: Seq::empty(),
                out: old(self)@.out + hub::failed(old(self)@.inflight),
                ..old(self)@
            }),
    {
        let ghost before = self@;
        let mut i: usize = 0;
        assert(before.inflight.take(0) =~= Seq::<(u64, Waiting)>::empty());
        assert(self@ =~= (Hub { out: before.out + hub::failed(before.inflight.take(0)), ..before }));
        while i < self.inflight.len()
            invariant
                i <= self.inflight@.len(),
                flights(self.inflight@) == before.inflight,
                self@ == (Hub {
                    out: before.out + hub::failed(before.inflight.take(i as int)),
                    ..before
                }),
            decreases self.inflight.len() - i,
        {
            proof {
                let more = before.inflight.take(i + 1);
                assert(more.drop_last() =~= before.inflight.take(i as int));
                assert(more.last() == before.inflight[i as int]);
                assert(before.inflight[i as int] == (
                    self.inflight@[i as int].0,
                    self.inflight@[i as int].1@,
                ));
            }
            let ghost held = self@;
            if let Inflight::Push { ticket } = self.inflight[i].1 {
                self.say(Action::Answered { ticket, outcome: Err(PushError::Disconnected) });
            }
            assert(self@.inflight == before.inflight);
            assert(self@ =~= (Hub {
                out: before.out + hub::failed(before.inflight.take(i + 1)),
                ..before
            }));
            i = i + 1;
        }
        assert(before.inflight.take(i as int) =~= before.inflight);
        self.inflight = Vec::new();
        assert(self@ =~= (Hub {
            inflight: Seq::empty(),
            out: before.out + hub::failed(before.inflight),
            ..before
        }));
    }

    /// Takes every channel off the socket that has gone away.
    fn strand_all(&mut self, reason: ChannelErrorReason)
        ensures
            final(self)@ == (Hub {
                channels: hub::stays(old(self)@.channels),
                out: old(self)@.out + hub::parting(old(self)@.channels, reason),
                ..old(self)@
            }),
    {
        let ghost before = self@;
        let mut all: Vec<ChannelState> = Vec::new();
        std::mem::swap(&mut all, &mut self.channels);
        let ghost held = all@;
        assert(seats(held) == before.channels);
        let mut i: usize = 0;
        let mut kept: Vec<ChannelState> = Vec::new();
        let total: usize = all.len();
        proof {
            assert(before.channels.take(0) =~= Seq::<Seat>::empty());
            assert(seats(kept@) =~= hub::stays(before.channels.take(0)));
            assert(self@ =~= (Hub {
                channels: Seq::empty(),
                out: before.out + hub::parting(before.channels.take(0), reason),
                ..before
            }));
        }
        while all.len() > 0
            invariant
                i <= held.len(),
                held.len() == total,
                all@ == held.skip(i as int),
                seats(held) == before.channels,
                seats(kept@) == hub::stays(before.channels.take(i as int)),
                self@ == (Hub {
                    channels: Seq::empty(),
                    out: before.out + hub::parting(before.channels.take(i as int), reason),
                    ..before
                }),
            decreases all.len(),
        {
            proof {
                let more = before.channels.take(i + 1);
                assert(more.drop_last() =~= before.channels.take(i as int));
                assert(more.last() == before.channels[i as int]);
                assert(all@[0] == held[i as int]);
                assert(before.channels[i as int] == held[i as int]@);
            }
            let mut state = all.remove(0);
            assert(state@ == before.channels[i as int]);
            assert(all@ =~= held.skip(i + 1));
            let ghost kept_before = kept@;
            if state.status == ChannelStatus::Leaving {
                self.say(Action::End { generation: state.generation });
            } else {
                state.status = ChannelStatus::Closed;
                state.join_ref = None;
                state.rejoin_scheduled = None;
                if state.wants_join {
                    self.say(
                        Action::Emit {
                            generation: state.generation,
                            event: ChannelEvent::Error { reason },
                        },
                    );
                }
                let ghost moved = state@;
                assert(moved == hub::stranded(before.channels[i as int]));
                kept.push(state);
                assert(seats(kept@) =~= seats(kept_before).push(moved));
            }
            assert(self@ =~= (Hub {
                channels: Seq::empty(),
                out: before.out + hub::parting(before.channels.take(i + 1), reason),
                ..before
            }));
            i = i + 1;
        }
        assert(before.channels.take(i as int) =~= before.channels);
        self.channels = kept;
        assert(self@ =~= (Hub {
            channels: hub::stays(before.channels),
            out: before.out + hub::parting(before.channels, reason),
            ..before
        }));
    }

    /// Tears the socket down: fails everything in flight, and reports `reason` to
    /// every channel that wanted to be joined.
    fn drop_socket(&mut self, reason: ChannelErrorReason)
        ensures
            final(self)@ == hub::drop_socket(old(self)@, reason),
    {
        self.report_lost();
        if self.socket {
            self.socket = false;
            self.say(Action::HangUp);
        }
        self.pending_heartbeat = None;
        self.fail_all();
        self.strand_all(reason);
        assert(self@ =~= hub::drop_socket(old(self)@, reason));
    }

    fn connect(&mut self)
        ensures
            final(self)@ == hub::connect(old(self)@),
    {
        if self.closed || self.connecting || self.socket {
            return;
        }
        self.connecting = true;
        self.say(Action::Connect);
        assert(self@ =~= hub::connect(old(self)@));
    }

    fn any_wanted(&self) -> (yes: bool)
        ensures
            yes == hub::wanted(self@.channels),
    {
        let mut i: usize = 0;
        while i < self.channels.len()
            invariant
                i <= self.channels@.len(),
                forall|j: int| 0 <= j < i ==> !(#[trigger] self@.channels[j]).wants_join,
            decreases self.channels.len() - i,
        {
            assert(self@.channels[i as int] == self.channels@[i as int]@);
            if self.channels[i].wants_join {
                return true;
            }
            i = i + 1;
        }
        false
    }

    fn schedule_reconnect(&mut self, seed: u64)
        ensures
            final(self)@ == hub::schedule_reconnect(old(self)@, seed),
    {
        if self.closed || self.reconnect_scheduled || self.connecting || self.socket {
            return;
        }
        if !self.any_wanted() {
            return;
        }
        self.reconnect_scheduled = true;
        let delay = self.backoff.delay_from(seed);
        self.say(Action::Sleep { wait: Wait::Millis(delay), alarm: ActorMsg::Reconnect });
        assert(self@ =~= hub::schedule_reconnect(old(self)@, seed));
    }

    fn schedule_rejoin(&mut self, topic: &str, generation: u64, seed: u64)
        ensures
            final(self)@ == hub::schedule_rejoin(old(self)@, topic@, generation, seed),
    {
        // While the socket is down, reconnecting rejoins everything; a second
        // ladder per channel would only duplicate the attempt.
        if self.closed || !self.socket {
            return;
        }
        let i = match self.live(topic, generation) {
            Some(i) => i,
            None => {
                return;
            },
        };
        let ghost seat = self@.channels[i as int];
        assert(seat == self.channels@[i as int]@);
        if !self.channels[i].wants_join || self.channels[i].rejoin_scheduled.is_some() {
            return;
        }
        let attempt = self.channels[i].attempt;
        self.channels[i].rejoin_scheduled = Some(attempt);
        let delay = self.channels[i].backoff.delay_from(seed);
        assert(self@.channels =~= old(self)@.channels.update(
            i as int,
            Seat { rejoin: Some(attempt), taken: backoff::after(seat.taken), ..seat },
        ));
        self.say(
            Action::Sleep {
                wait: Wait::Millis(delay),
                alarm: ActorMsg::Rejoin { topic: topic.to_owned(), generation, attempt },
            },
        );
        assert(self@ =~= hub::schedule_rejoin(old(self)@, topic@, generation, seed));
    }

    fn send(&mut self, frame: Frame, resume: Pending)
        ensures
            final(self)@ == hub::send(old(self)@, frame@, resume@),
    {
        if self.socket {
            self.resume = resume;
            self.say(Action::Send(frame));
            assert(self@ =~= hub::send(old(self)@, frame@, resume@));
        }
    }

    fn position(&self, r: u64) -> (at: usize)
        ensures
            at == hub::position(self@.inflight, r),
            at <= self@.inflight.len(),
            self@.inflight.len() == self.inflight@.len(),
    {
        let mut at: usize = 0;
        while at < self.inflight.len() && self.inflight[at].0 != r
            invariant
                at <= self.inflight@.len(),
                forall|j: int| 0 <= j < at ==> (#[trigger] self@.inflight[j]).0 != r,
            decreases self.inflight.len() - at,
        {
            assert(self@.inflight[at as int].0 == self.inflight@[at as int].0);
            at = at + 1;
        }
        proof {
            if at < self.inflight@.len() {
                assert(self@.inflight[at as int].0 == self.inflight@[at as int].0);
            }
            position_is(self@.inflight, r, at as int);
        }
        at
    }

    /// Takes a ref out of flight.
    fn land(&mut self, r: u64) -> (found: Option<Inflight>)
        ensures
            match found {
                Some(waiting) => hub::position(old(self)@.inflight, r) < old(self)@.inflight.len()
                    && waiting@ == old(self)@.inflight[hub::position(
                    old(self)@.inflight,
                    r,
                ) as int].1,
                None => hub::position(old(self)@.inflight, r) == old(self)@.inflight.len(),
            },
            final(self)@ == (Hub {
                inflight: hub::without(old(self)@.inflight, r),
                ..old(self)@
            }),
    {
        let at = self.position(r);
        if at < self.inflight.len() {
            let (_, waiting) = self.inflight.remove(at);
            assert(self@.inflight =~= old(self)@.inflight.remove(at as int));
            assert(self@ =~= (Hub {
                inflight: hub::without(old(self)@.inflight, r),
                ..old(self)@
            }));
            Some(waiting)
        } else {
            None
        }
    }

    fn await_reply(&mut self, r: u64, waiting: Inflight, wait: Wait)
        ensures
            final(self)@ == hub::await_reply(old(self)@, r, waiting@, wait),
    {
        let _ = self.land(r);
        let ghost held = self@;
        self.inflight.push((r, waiting));
        assert(self@.inflight =~= held.inflight.push((r, waiting@)));
        self.say(Action::Sleep { wait, alarm: ActorMsg::Timeout { msg_ref: r } });
        assert(self@ =~= hub::await_reply(old(self)@, r, waiting@, wait));
    }

    fn count_ref(&mut self) -> (r: u64)
        ensures
            r == hub::bumped(old(self)@.next_ref),
            final(self)@ == (Hub { next_ref: r, ..old(self)@ }),
    {
        self.next_ref = bump(self.next_ref);
        assert(self@ =~= (Hub { next_ref: self.next_ref, ..old(self)@ }));
        self.next_ref
    }

    /// Sends one join, if the channel has no other claim on the topic.
    fn send_join(&mut self, topic: &str, generation: u64, resume: Pending)
        ensures
            final(self)@ == hub::send_join(old(self)@, topic@, generation, resume@),
    {
        let r = self.count_ref();
        let i = match self.live(topic, generation) {
            Some(i) => i,
            None => {
                return;
            },
        };
        let ghost counted = self@;
        let ghost seat = self@.channels[i as int];
        assert(seat == self.channels@[i as int]@);
        if self.channels[i].status != ChannelStatus::Closed {
            return;
        }
        let attempt = bump(self.channels[i].attempt);
        let ref_str = decimal::ref_text(r);
        self.channels[i].status = ChannelStatus::Joining;
        self.channels[i].join_ref = Some(ref_str.clone());
        self.channels[i].attempt = attempt;
        let payload = self.channels[i].params.clone();
        proof {
            assert(self@.channels =~= counted.channels.update(
                i as int,
                Seat {
                    status: ChannelStatus::Joining,
                    join_ref: hub::ref_of(r),
                    attempt,
                    ..seat
                },
            ));
        }
        self.await_reply(
            r,
            Inflight::Join { topic: topic.to_owned(), generation, attempt },
            Wait::Join,
        );
        let message = Message {
            join_ref: Some(ref_str.clone()),
            msg_ref: Some(ref_str),
            topic: topic.to_owned(),
            event: EVENT_JOIN.to_owned(),
            payload,
        };
        assert(message@ == (Letter {
            join_ref: hub::ref_of(r),
            msg_ref: hub::ref_of(r),
            topic: topic@,
            event: EVENT_JOIN@,
            payload: seat.params,
        }));
        self.send(message.encode(), resume);
    }

    /// Sends joins, one after the other, up to the first that is being written.
    fn join_all(&mut self, list: Vec<(String, u64)>)
        ensures
            final(self)@ == hub::join_all(old(self)@, names(list@)),
        decreases list@.len(),
    {
        if list.len() == 0 {
            return;
        }
        let mut rest = list;
        let ghost all = names(rest@);
        let (topic, generation) = rest.remove(0);
        assert(names(rest@) =~= all.drop_first());
        assert(all[0] == (topic@, generation));
        let mut after: Vec<(String, u64)> = Vec::new();
        let mut i: usize = 0;
        while i < rest.len()
            invariant
                i <= rest@.len(),
                after@.len() == i,
                forall|j: int|
                    0 <= j < i ==> (#[trigger] after@[j]).0@ == rest@[j].0@ && after@[j].1
                        == rest@[j].1,
            decreases rest.len() - i,
        {
            after.push((rest[i].0.clone(), rest[i].1));
            i = i + 1;
        }
        assert(names(after@) =~= names(rest@));
        self.send_join(topic.as_str(), generation, Pending::Joins { list: after });
        if let Pending::Idle = self.resume {
            self.join_all(rest);
        }
    }

    /// The channels that want to be joined, in registry order.
    fn wanting(&self) -> (list: Vec<(String, u64)>)
        ensures
            names(list@) == hub::wanting(self@.channels),
    {
        let mut list: Vec<(String, u64)> = Vec::new();
        let mut i: usize = 0;
        assert(self@.channels.take(0) =~= Seq::<Seat>::empty());
        assert(names(list@) =~= Seq::<(Chars, u64)>::empty());
        while i < self.channels.len()
            invariant
                i <= self.channels@.len(),
                names(list@) == hub::wanting(self@.channels.take(i as int)),
            decreases self.channels.len() - i,
        {
            proof {
                let more = self@.channels.take(i + 1);
                assert(more.drop_last() =~= self@.channels.take(i as int));
                assert(more.last() == self.channels@[i as int]@);
            }
            let ghost before = list@;
            if self.channels[i].wants_join {
                list.push((self.channels[i].topic.clone(), self.channels[i].generation));
                assert(names(list@) =~= names(before).push(
                    (self.channels@[i as int]@.topic, self.channels@[i as int]@.generation),
                ));
            }
            i = i + 1;
        }
        assert(self@.channels.take(i as int) =~= self@.channels);
        list
    }

    /// Tells every channel that wants to be joined that there is no socket.
    fn notify_joining(&mut self)
        ensures
            final(self)@ == (Hub {
                out: old(self)@.out + hub::to_wanting(
                    old(self)@.channels,
                    News::Error { reason: ChannelErrorReason::SocketClosed },
                ),
                ..old(self)@
            }),
    {
        let ghost news = News::Error { reason: ChannelErrorReason::SocketClosed };
        let ghost before = self@;
        let mut i: usize = 0;
        assert(before.channels.take(0) =~= Seq::<Seat>::empty());
        assert(self@ =~= (Hub {
            out: before.out + hub::to_wanting(before.channels.take(0), news),
            ..before
        }));
        while i < self.channels.len()
            invariant
                i <= self.channels@.len(),
                news == (News::Error { reason: ChannelErrorReason::SocketClosed }),
                seats(self.channels@) == before.channels,
                self@ == (Hub {
                    out: before.out + hub::to_wanting(before.channels.take(i as int), news),
                    ..before
                }),
            decreases self.channels.len() - i,
        {
            proof {
                let more = before.channels.take(i + 1);
                assert(more.drop_last() =~= before.channels.take(i as int));
                assert(before.channels[i as int] == self.channels@[i as int]@);
                assert(more.last() == self.channels@[i as int]@);
            }
            if self.channels[i].wants_join {
                self.emit(i, ChannelEvent::Error { reason: ChannelErrorReason::SocketClosed });
            }
            assert(self@.channels == before.channels);
            assert(self@ =~= (Hub {
                out: before.out + hub::to_wanting(before.channels.take(i + 1), news),
                ..before
            }));
            i = i + 1;
        }
        assert(before.channels.take(i as int) =~= before.channels);
    }

    fn arm_heartbeat(&mut self)
        ensures
            final(self)@ == hub::arm_heartbeat(old(self)@),
    {
        let connection = self.connection;
        self.say(
            Action::Sleep { wait: Wait::Heartbeat, alarm: ActorMsg::HeartbeatTick { connection } },
        );
    }

    fn attach(&mut self, topic: String, params: serde_json::Value, ticket: u64)
        ensures
            final(self)@ == hub::attach(old(self)@, topic@, json::document(params), ticket),
    {
        self.next_generation = bump(self.next_generation);
        let generation = self.next_generation;
        let at = self.find(topic.as_str());
        let ghost counted = self@;
        assert(counted =~= (Hub { next_generation: generation, ..old(self)@ }));
        let state = ChannelState {
            topic,
            generation,
            params,
            status: ChannelStatus::Closed,
            join_ref: None,
            attempt: 0,
            wants_join: false,
            suppress_close: false,
            backoff: Backoff::new(),
            rejoin_scheduled: None,
        };
        let ghost seat = state@;
        assert(seat == hub::fresh_seat(topic@, json::document(params), generation));
        if at < self.channels.len() {
            assert(self@.channels[at as int] == self.channels@[at as int]@);
            let old_generation = self.channels[at].generation;
            self.channels.set(at, state);
            assert(self@.channels =~= counted.channels.update(at as int, seat));
            self.say(Action::End { generation: old_generation });
        } else {
            self.channels.push(state);
            assert(self@.channels =~= counted.channels.push(seat));
        }
        self.say(Action::Attached { ticket, generation });
        assert(self@ =~= hub::attach(old(self)@, topic@, json::document(params), ticket));
    }

    fn join(&mut self, topic: &str, generation: u64)
        ensures
            final(self)@ == hub::join(old(self)@, topic@, generation),
    {
        let i = match self.live(topic, generation) {
            Some(i) => i,
            None => {
                return;
            },
        };
        let ghost seat = self@.channels[i as int];
        assert(seat == self.channels@[i as int]@);
        self.channels[i].wants_join = true;
        self.channels[i].suppress_close = false;
        assert(self@ =~= hub::reseat(
            old(self)@,
            i as int,
            Seat { wants_join: true, suppress_close: false, ..seat },
        ));
        if !self.socket {
            self.connect();
            return;
        }
        self.send_join(topic, generation, Pending::Done);
    }

    fn rejoin(&mut self, topic: &str, generation: u64, attempt: u64)
        ensures
            final(self)@ == hub::rejoin(old(self)@, topic@, generation, attempt),
    {
        let i = match self.live(topic, generation) {
            Some(i) => i,
            None => {
                return;
            },
        };
        let ghost seat = self@.channels[i as int];
        assert(seat == self.channels@[i as int]@);
        match self.channels[i].rejoin_scheduled {
            Some(armed) => {
                if armed != attempt {
                    return;
                }
            },
            None => {
                return;
            },
        }
        self.channels[i].rejoin_scheduled = None;
        assert(self@ =~= hub::reseat(old(self)@, i as int, Seat { rejoin: None, ..seat }));
        if self.socket {
            self.join(topic, generation);
        }
    }

    /// The frame that leaves a channel.
    fn leave_frame(topic: &str, join_ref: String, r: u64) -> (frame: Frame)
        ensures
            frame@ == Sheet::Text(json::tuple_text(hub::leave_letter(topic@, join_ref@, r))),
    {
        let message = Message {
            join_ref: Some(join_ref),
            msg_ref: Some(decimal::ref_text(r)),
            topic: topic.to_owned(),
            event: EVENT_LEAVE.to_owned(),
            payload: json::empty_object(),
        };
        assert(message@ == hub::leave_letter(topic@, join_ref@, r));
        message.encode()
    }

    fn leave(&mut self, topic: &str, generation: u64)
        ensures
            final(self)@ == hub::leave(old(self)@, topic@, generation),
    {
        let i = match self.live(topic, generation) {
            Some(i) => i,
            None => {
                return;
            },
        };
        let ghost seat = self@.channels[i as int];
        assert(seat == self.channels@[i as int]@);
        self.channels[i].wants_join = false;
        self.channels[i].suppress_close = true;
        // Leaving supersedes any join still in flight: a reply that arrives
        // after this must not report a channel on its way out as joined.
        self.channels[i].status = ChannelStatus::Leaving;
        let join_ref = copy_text(&self.channels[i].join_ref);
        assert(self@ =~= hub::reseat(
            old(self)@,
            i as int,
            Seat {
                wants_join: false,
                suppress_close: true,
                status: ChannelStatus::Leaving,
                ..seat
            },
        ));
        match join_ref {
            Some(join_ref) => {
                if self.socket {
                    let r = self.count_ref();
                    self.await_reply(
                        r,
                        Inflight::Leave { topic: topic.to_owned(), generation },
                        Wait::Push,
                    );
                    self.send(Actor::leave_frame(topic, join_ref, r), Pending::Done);
                } else {
                    self.unseat(i);
                }
            },
            None => {
                self.unseat(i);
            },
        }
    }

    fn push(
        &mut self,
        topic: String,
        generation: u64,
        event: String,
        payload: PushPayload,
        ticket: u64,
    )
        ensures
            final(self)@ == hub::push(
                old(self)@,
                topic@,
                generation,
                event@,
                payload@,
                ticket,
            ),
    {
        let i = match self.live(topic.as_str(), generation) {
            Some(i) => i,
            None => {
                self.say(Action::Answered { ticket, outcome: Err(PushError::Stale) });
                return;
            },
        };
        let ghost seat = self@.channels[i as int];
        assert(seat == self.channels@[i as int]@);
        if !self.socket || self.channels[i].status != ChannelStatus::Joined {
            self.say(Action::Answered { ticket, outcome: Err(PushError::NotJoined) });
            return;
        }
        let join_ref = copy_text(&self.channels[i].join_ref);
        let r = self.count_ref();
        let ref_str = decimal::ref_text(r);
        // Framed before anything is registered: a payload that cannot be encoded
        // must not leave a timeout armed on a ref nothing will answer.
        let frame = match payload {
            PushPayload::Json(value) => {
                let message = Message {
                    join_ref,
                    msg_ref: Some(ref_str),
                    topic,
                    event,
                    payload: value,
                };
                message.encode()
            },
            PushPayload::Binary(bytes) => {
                let parcel = BinaryPush {
                    join_ref: match join_ref {
                        Some(held) => held,
                        None => String::new(),
                    },
                    msg_ref: ref_str,
                    topic,
                    event,
                    payload: bytes,
                };
                match parcel.encode() {
                    Ok(frame) => frame,
                    Err(flaw) => {
                        self.say(
                            Action::Answered { ticket, outcome: Err(PushError::Unframable(flaw)) },
                        );
                        return;
                    },
                }
            },
        };
        assert(hub::push_sheet(topic@, event@, seat.join_ref, r, payload@) == Ok::<
            Sheet,
            frame::Flaw,
        >(frame@));
        self.await_reply(r, Inflight::Push { ticket }, Wait::Push);
        self.send(frame, Pending::Done);
    }

    fn connected(&mut self, opened: bool, seed: u64)
        ensures
            final(self)@ == hub::connected(old(self)@, opened, seed),
    {
        self.connecting = false;
        assert(self@ =~= (Hub { connecting: false, ..old(self)@ }));
        if !opened {
            self.report_lost();
            self.notify_joining();
            self.schedule_reconnect(seed);
            return;
        }
        if self.closed {
            self.say(Action::HangUp);
            return;
        }
        self.socket = true;
        self.connection = bump(self.connection);
        self.backoff.reset();
        assert(self@ =~= (Hub {
            socket: true,
            connection: hub::bumped(old(self)@.connection),
            taken: 0,
            connecting: false,
            ..old(self)@
        }));
        self.arm_heartbeat();
        self.set_status(SocketStatus::Connected);
        // Every registered channel is rejoined; its join succeeds again, which
        // is the one recovery hook consumers get.
        let list = self.wanting();
        self.join_all(list);
    }

    fn heartbeat_tick(&mut self, connection: u64, seed: u64)
        ensures
            final(self)@ == hub::heartbeat_tick(old(self)@, connection, seed),
    {
        if !self.socket || self.connection != connection {
            return;
        }
        if self.pending_heartbeat.is_some() {
            self.drop_socket(ChannelErrorReason::HeartbeatTimeout);
            self.schedule_reconnect(seed);
            return;
        }
        let r = self.count_ref();
        self.pending_heartbeat = Some(r);
        assert(self@ =~= (Hub { next_ref: r, pending_heartbeat: Some(r), ..old(self)@ }));
        let message = Message {
            join_ref: None,
            msg_ref: Some(decimal::ref_text(r)),
            topic: TOPIC_PHOENIX.to_owned(),
            event: EVENT_HEARTBEAT.to_owned(),
            payload: json::empty_object(),
        };
        self.send(message.encode(), Pending::Tick);
    }

    fn abandon(&mut self, waiting: Inflight, why: PushError, seed: u64)
        ensures
            final(self)@ == hub::abandon(old(self)@, waiting@, failure(why), seed),
    {
        match waiting {
            Inflight::Push { ticket } => {
                self.say(Action::Answered { ticket, outcome: Err(why) });
            },
            Inflight::Join { topic, generation, attempt } => {
                let i = match self.joining(topic.as_str(), generation, attempt) {
                    Some(i) => i,
                    None => {
                        return;
                    },
                };
                let ghost seat = self@.channels[i as int];
                assert(seat == self.channels@[i as int]@);
                self.channels[i].status = ChannelStatus::Closed;
                let join_ref = copy_text(&self.channels[i].join_ref);
                self.channels[i].join_ref = None;
                assert(self@ =~= hub::reseat(
                    old(self)@,
                    i as int,
                    Seat { status: ChannelStatus::Closed, join_ref: None, ..seat },
                ));
                self.emit(i, ChannelEvent::JoinTimeout);
                match join_ref {
                    Some(join_ref) => {
                        let r = self.count_ref();
                        let frame = Actor::leave_frame(topic.as_str(), join_ref, r);
                        self.send(frame, Pending::Rejoin { topic, generation });
                    },
                    None => {
                        self.schedule_rejoin(topic.as_str(), generation, seed);
                    },
                }
            },
            Inflight::Leave { topic, generation } => {
                self.remove_if_live(topic.as_str(), generation);
            },
        }
    }

    fn timeout(&mut self, r: u64, seed: u64)
        ensures
            final(self)@ == hub::timeout(old(self)@, r, seed),
    {
        if let Some(waiting) = self.land(r) {
            self.abandon(waiting, PushError::Timeout, seed);
        }
    }

    fn went_down(&mut self, i: usize, event: ChannelEvent, seed: u64)
        requires
            i < old(self)@.channels.len(),
        ensures
            final(self)@ == hub::went_down(old(self)@, i as int, event@, seed),
    {
        let ghost seat = self@.channels[i as int];
        assert(seat == self.channels@[i as int]@);
        let topic = self.channels[i].topic.clone();
        let generation = self.channels[i].generation;
        self.channels[i].status = ChannelStatus::Closed;
        self.channels[i].join_ref = None;
        assert(self@ =~= hub::reseat(
            old(self)@,
            i as int,
            Seat { status: ChannelStatus::Closed, join_ref: None, ..seat },
        ));
        self.emit(i, event);
        self.schedule_rejoin(topic.as_str(), generation, seed);
    }

    fn join_replied(
        &mut self,
        topic: &str,
        generation: u64,
        attempt: u64,
        reply: Reply,
        seed: u64,
    )
        ensures
            final(self)@ == hub::join_replied(
                old(self)@,
                topic@,
                generation,
                attempt,
                reply@,
                seed,
            ),
    {
        let i = match self.joining(topic, generation, attempt) {
            Some(i) => i,
            None => {
                return;
            },
        };
        let ghost seat = self@.channels[i as int];
        assert(seat == self.channels@[i as int]@);
        match reply.status {
            ReplyStatus::Okay => {
                self.channels[i].status = ChannelStatus::Joined;
                self.channels[i].backoff.reset();
                assert(self@ =~= hub::reseat(
                    old(self)@,
                    i as int,
                    Seat { status: ChannelStatus::Joined, taken: 0, ..seat },
                ));
                self.emit(i, ChannelEvent::Joined { response: reply.response });
            },
            ReplyStatus::Error => {
                self.channels[i].status = ChannelStatus::Closed;
                assert(self@ =~= hub::reseat(
                    old(self)@,
                    i as int,
                    Seat { status: ChannelStatus::Closed, ..seat },
                ));
                self.emit(i, ChannelEvent::JoinError { response: reply.response });
                self.schedule_rejoin(topic, generation, seed);
            },
        }
    }

    fn settle(&mut self, waiting: Inflight, payload: serde_json::Value, seed: u64)
        ensures
            final(self)@ == hub::settle(old(self)@, waiting@, json::document(payload), seed),
    {
        let reply = match Reply::read(&payload) {
            Some(reply) => reply,
            None => {
                self.abandon(waiting, PushError::MalformedReply, seed);
                return;
            },
        };
        match waiting {
            Inflight::Push { ticket } => {
                self.say(Action::Answered { ticket, outcome: Ok(reply) });
            },
            Inflight::Join { topic, generation, attempt } => {
                self.join_replied(topic.as_str(), generation, attempt, reply, seed);
            },
            Inflight::Leave { topic, generation } => {
                self.remove_if_live(topic.as_str(), generation);
            },
        }
    }

    fn handle_reply(&mut self, message: Message, seed: u64)
        ensures
            final(self)@ == hub::handle_reply(old(self)@, message@, seed),
    {
        let named = match &message.msg_ref {
            Some(text) => decimal::read_ref(text.as_str()),
            None => None,
        };
        let r = match named {
            Some(r) => r,
            None => {
                return;
            },
        };
        if let Some(beat) = self.pending_heartbeat {
            if beat == r {
                self.pending_heartbeat = None;
                assert(self@ =~= (Hub { pending_heartbeat: None, ..old(self)@ }));
                return;
            }
        }
        if let Some(waiting) = self.land(r) {
            self.settle(waiting, message.payload, seed);
        }
    }

    fn message_arrived(&mut self, message: Message, seed: u64)
        ensures
            final(self)@ == hub::receive(old(self)@, message@, seed),
    {
        if text::text_eq(message.event.as_str(), EVENT_REPLY) {
            self.handle_reply(message, seed);
            return;
        }
        let i = self.find(message.topic.as_str());
        if i >= self.channels.len() {
            return;
        }
        let ghost seat = self@.channels[i as int];
        assert(seat == self.channels@[i as int]@);
        // A message stamped with a superseded join ref belongs to a channel that
        // has already been replaced.
        if message.join_ref.is_some() && !same_text(&message.join_ref, &self.channels[i].join_ref) {
            return;
        }
        if text::text_eq(message.event.as_str(), EVENT_CLOSE) {
            if self.channels[i].suppress_close {
                self.unseat(i);
            } else {
                self.went_down(i, ChannelEvent::Close, seed);
            }
        } else if text::text_eq(message.event.as_str(), EVENT_ERROR) {
            self.went_down(
                i,
                ChannelEvent::Error { reason: ChannelErrorReason::Server },
                seed,
            );
        } else {
            self.emit(
                i,
                ChannelEvent::Message { event: message.event, payload: message.payload },
            );
        }
    }

    fn disconnect(&mut self, ticket: u64)
        ensures
            final(self)@ == hub::disconnect(old(self)@, ticket),
    {
        self.closed = true;
        assert(self@ =~= (Hub { closed: true, ..old(self)@ }));
        self.drop_socket(ChannelErrorReason::SocketClosed);
        let ghost down = self@;
        let mut i: usize = 0;
        assert(hub::endings(down.channels).take(0) =~= Seq::<Deed>::empty());
        assert(self@ =~= (Hub {
            out: down.out + hub::endings(down.channels).take(0),
            ..down
        }));
        while i < self.channels.len()
            invariant
                i <= self.channels@.len(),
                seats(self.channels@) == down.channels,
                self@ == (Hub {
                    out: down.out + hub::endings(down.channels).take(i as int),
                    ..down
                }),
            decreases self.channels.len() - i,
        {
            assert(down.channels[i as int] == self.channels@[i as int]@);
            let generation = self.channels[i].generation;
            self.say(Action::End { generation });
            assert(self@.channels == down.channels);
            assert(self@ =~= (Hub {
                out: down.out + hub::endings(down.channels).take(i + 1),
                ..down
            }));
            i = i + 1;
        }
        assert(hub::endings(down.channels).take(i as int) =~= hub::endings(down.channels));
        self.channels = Vec::new();
        assert(self@ =~= (Hub {
            channels: Seq::empty(),
            out: down.out + hub::endings(down.channels),
            ..down
        }));
        self.set_status(SocketStatus::Closed);
        self.say(Action::Acknowledge { ticket });
    }

    #[verifier::rlimit(50)]
    #[verifier::spinoff_prover]
    fn step(&mut self, msg: ActorMsg, seed: u64)
        ensures
            final(self)@ == hub::handle(old(self)@, msg@, seed),
    {
        match msg {
            ActorMsg::Attach { topic, params, ticket } => self.attach(topic, params, ticket),
            ActorMsg::Join { topic, generation } => self.join(topic.as_str(), generation),
            ActorMsg::Leave { topic, generation } => self.leave(topic.as_str(), generation),
            ActorMsg::Push { topic, generation, event, payload, ticket } => self.push(
                topic,
                generation,
                event,
                payload,
                ticket,
            ),
            ActorMsg::Rejoin { topic, generation, attempt } => self.rejoin(
                topic.as_str(),
                generation,
                attempt,
            ),
            ActorMsg::Connected { opened } => self.connected(opened, seed),
            ActorMsg::Reconnect => {
                self.reconnect_scheduled = false;
                assert(self@ =~= (Hub { reconnect_scheduled: false, ..old(self)@ }));
                self.connect();
            },
            ActorMsg::HeartbeatTick { connection } => self.heartbeat_tick(connection, seed),
            ActorMsg::Timeout { msg_ref } => self.timeout(msg_ref, seed),
            ActorMsg::Disconnect { ticket } => self.disconnect(ticket),
        }
    }

    /// Handles one message with the jitter of any backoff drawn from `seed`, and
    /// hands over what to do, in order.
    pub fn handle_with(&mut self, msg: ActorMsg, seed: u64) -> (actions: Vec<Action>)
        requires
            old(self)@.resume is Idle,
        ensures
            deeds(actions@) == hub::handle(old(self)@, msg@, seed).out,
            final(self)@ == (Hub {
                out: Seq::empty(),
                ..hub::handle(old(self)@, msg@, seed)
            }),
    {
        self.step(msg, seed);
        self.hand_over()
    }

    /// Handles one message, and hands over what to do, in order.
    ///
    /// The jitter of any backoff is drawn afresh.
    pub fn handle_msg(&mut self, msg: ActorMsg) -> (actions: Vec<Action>)
        requires
            old(self)@.resume is Idle,
        ensures
            exists|seed: u64|
                #![trigger hub::handle(old(self)@, msg@, seed)]
                deeds(actions@) == hub::handle(old(self)@, msg@, seed).out && final(self)@ == (Hub {
                    out: Seq::empty(),
                    ..hub::handle(old(self)@, msg@, seed)
                }),
    {
        let seed = backoff::fresh_seed();
        self.handle_with(msg, seed)
    }

    /// Handles one frame that arrived, with the jitter of any backoff drawn from
    /// `seed`. Binary frames and texts that are no five-tuple are dropped.
    pub fn frame_with(&mut self, frame: Frame, seed: u64) -> (actions: Vec<Action>)
        requires
            old(self)@.resume is Idle,
        ensures
            deeds(actions@) == hub::handle_frame(old(self)@, frame@, seed).out,
            final(self)@ == (Hub {
                out: Seq::empty(),
                ..hub::handle_frame(old(self)@, frame@, seed)
            }),
    {
        if let Frame::Text(text) = frame {
            if let Ok(message) = Message::decode(text.as_str()) {
                self.message_arrived(message, seed);
            }
        }
        self.hand_over()
    }

    /// Handles one frame that arrived, and hands over what to do, in order.
    pub fn handle_frame(&mut self, frame: Frame) -> (actions: Vec<Action>)
        requires
            old(self)@.resume is Idle,
        ensures
            exists|seed: u64|
                #![trigger hub::handle_frame(old(self)@, frame@, seed)]
                deeds(actions@) == hub::handle_frame(old(self)@, frame@, seed).out && final(self)@
                    == (Hub { out: Seq::empty(), ..hub::handle_frame(old(self)@, frame@, seed) }),
    {
        let seed = backoff::fresh_seed();
        self.frame_with(frame, seed)
    }

    /// Handles one message that arrived, with the jitter of any backoff drawn
    /// from `seed`.
    pub fn receive_with(&mut self, message: Message, seed: u64) -> (actions: Vec<Action>)
        requires
            old(self)@.resume is Idle,
        ensures
            deeds(actions@) == hub::receive(old(self)@, message@, seed).out,
            final(self)@ == (Hub {
                out: Seq::empty(),
                ..hub::receive(old(self)@, message@, seed)
            }),
    {
        self.message_arrived(message, seed);
        self.hand_over()
    }

    /// The transport reported that it is gone: a read failed, or its stream
    /// ended. The jitter of the reconnect is drawn from `seed`.
    pub fn lost_with(&mut self, seed: u64) -> (actions: Vec<Action>)
        requires
            old(self)@.resume is Idle,
        ensures
            deeds(actions@) == hub::lost(old(self)@, seed).out,
            final(self)@ == (Hub { out: Seq::empty(), ..hub::lost(old(self)@, seed) }),
    {
        self.drop_socket(ChannelErrorReason::SocketClosed);
        self.schedule_reconnect(seed);
        self.hand_over()
    }

    /// The transport reported that it is gone.
    pub fn socket_lost(&mut self) -> (actions: Vec<Action>)
        requires
            old(self)@.resume is Idle,
        ensures
            exists|seed: u64|
                #![trigger hub::lost(old(self)@, seed)]
                deeds(actions@) == hub::lost(old(self)@, seed).out && final(self)@ == (Hub {
                    out: Seq::empty(),
                    ..hub::lost(old(self)@, seed)
                }),
    {
        let seed = backoff::fresh_seed();
        self.lost_with(seed)
    }

    fn write_over(&mut self, delivered: bool, seed: u64)
        ensures
            final(self)@ == hub::written(old(self)@, delivered, seed),
    {
        let mut resume = Pending::Idle;
        std::mem::swap(&mut resume, &mut self.resume);
        assert(self@ =~= (Hub { resume: Resume::Idle, ..old(self)@ }));
        if !delivered {
            self.drop_socket(ChannelErrorReason::SocketClosed);
            self.schedule_reconnect(seed);
        }
        if !self.socket {
            return;
        }
        match resume {
            Pending::Idle => {},
            Pending::Done => {},
            Pending::Joins { list } => self.join_all(list),
            Pending::Rejoin { topic, generation } => self.schedule_rejoin(
                topic.as_str(),
                generation,
                seed,
            ),
            Pending::Tick => self.arm_heartbeat(),
        }
    }

    /// The write in progress is over, with the jitter of any backoff drawn from
    /// `seed`.
    pub fn written_with(&mut self, delivered: bool, seed: u64) -> (actions: Vec<Action>)
        ensures
            deeds(actions@) == hub::written(old(self)@, delivered, seed).out,
            final(self)@ == (Hub {
                out: Seq::empty(),
                ..hub::written(old(self)@, delivered, seed)
            }),
    {
        self.write_over(delivered, seed);
        self.hand_over()
    }

    /// The write in progress is over: what was left to do behind it is handed
    /// over.
    pub fn written(&mut self, delivered: bool) -> (actions: Vec<Action>)
        ensures
            exists|seed: u64|
                #![trigger hub::written(old(self)@, delivered, seed)]
                deeds(actions@) == hub::written(old(self)@, delivered, seed).out && final(self)@
                    == (Hub { out: Seq::empty(), ..hub::written(old(self)@, delivered, seed) }),
    {
        let seed = backoff::fresh_seed();
        self.written_with(delivered, seed)
    }
}

} // verus!
