//! The per-topic channel handle, and what a channel reports.

use vstd::prelude::*;

use crate::phoenix::actor::{ActorMsg, PushPayload};
use crate::phoenix::json;
use crate::state::text::Chars;
use crate::state::value::Json;

verus! {

/// Why a channel reported an error rather than a clean close.
#[derive(Debug, Clone, Copy, PartialEq, Eq, Structural)]
pub enum ChannelErrorReason {
    /// The underlying socket went away: peer close, a failed read or write, or a
    /// failed reconnect attempt.
    SocketClosed,
    /// A heartbeat went unanswered for a full interval, so the socket was
    /// declared dead and torn down.
    HeartbeatTimeout,
    /// The server reported an error for this topic.
    Server,
}

/// Everything a channel reports to its owner, in arrival order.
///
/// The reports end when the channel is dropped from the registry: after a
/// deliberate leave, or when a newer channel is attached to the same topic.
#[derive(Debug, Clone, PartialEq)]
#[non_exhaustive]
pub enum ChannelEvent {
    /// The join succeeded. Fires on the first join and on every rejoin, so
    /// consumers can treat it as the single recovery hook.
    Joined {
        /// The server's join reply body.
        response: serde_json::Value,
    },
    /// The join was rejected; the server's reason is propagated verbatim.
    JoinError {
        /// The server's error reply body.
        response: serde_json::Value,
    },
    /// The join did not reply within the join timeout.
    JoinTimeout,
    /// A message the server sent of its own on this topic.
    Message {
        /// The event name.
        event: String,
        /// The event payload.
        payload: serde_json::Value,
    },
    /// The server closed this channel without being asked.
    Close,
    /// The channel lost its footing; a rejoin has been scheduled.
    Error {
        /// What went wrong.
        reason: ChannelErrorReason,
    },
}

/// A [`ChannelEvent`] as contracts see it.
pub enum News {
    Joined { response: Json },
    JoinError { response: Json },
    JoinTimeout,
    Message { event: Chars, payload: Json },
    Close,
    Error { reason: ChannelErrorReason },
}

impl View for ChannelEvent {
    type V = News;

    open spec fn view(&self) -> News {
        match self {
            ChannelEvent::Joined { response } => News::Joined {
                response: json::document(*response),
            },
            ChannelEvent::JoinError { response } => News::JoinError {
                response: json::document(*response),
            },
            ChannelEvent::JoinTimeout => News::JoinTimeout,
            ChannelEvent::Message { event, payload } => News::Message {
                event: event@,
                payload: json::document(*payload),
            },
            ChannelEvent::Close => News::Close,
            ChannelEvent::Error { reason } => News::Error { reason: *reason },
        }
    }
}

/// A handle to one topic: what to ask of the task that owns the socket.
///
/// Every copy addresses the same registry entry, and all are invalidated
/// together when a newer channel takes over the topic.
#[derive(Debug)]
pub struct Channel {
    topic: String,
    generation: u64,
}

impl Channel {
    /// The channel's topic, as contracts see it.
    pub closed spec fn name(&self) -> Chars {
        self.topic@
    }

    /// The generation stamped on this handle, as contracts see it.
    pub closed spec fn stamp(&self) -> u64 {
        self.generation
    }

    /// A handle on a topic, stamped with the generation it was attached as.
    pub fn new(topic: String, generation: u64) -> (channel: Channel)
        ensures
            channel.name() == topic@,
            channel.stamp() == generation,
    {
        Channel { topic, generation }
    }

    /// The channel's topic.
    pub fn topic(&self) -> (topic: &str)
        ensures
            topic@ == self.name(),
    {
        self.topic.as_str()
    }

    /// The generation stamped on this handle.
    ///
    /// Bumped every time a channel is attached to a topic; anything from, or
    /// destined for, a stale generation is dropped.
    pub fn generation(&self) -> (generation: u64)
        ensures
            generation == self.stamp(),
    {
        self.generation
    }

    /// Asks for the channel to be joined, opening the socket if it is not open
    /// yet.
    ///
    /// The outcome arrives as an event, because a rejoin after a reconnect
    /// produces the very same events with no caller to return them to.
    pub fn join(&self) -> (msg: ActorMsg)
        ensures
            msg matches ActorMsg::Join { topic, generation } && topic@ == self.name() && generation
                == self.stamp(),
    {
        ActorMsg::Join { topic: self.topic.clone(), generation: self.generation }
    }

    /// Asks for the channel to be left and dropped from the registry.
    ///
    /// The close that follows is suppressed: it neither surfaces nor triggers a
    /// rejoin.
    pub fn leave(&self) -> (msg: ActorMsg)
        ensures
            msg matches ActorMsg::Leave { topic, generation } && topic@ == self.name() && generation
                == self.stamp(),
    {
        ActorMsg::Leave { topic: self.topic.clone(), generation: self.generation }
    }

    /// Asks for an event to be pushed; the reply comes back under `ticket`.
    ///
    /// A reply with an error status is a reply: the error payload is data.
    pub fn push(&self, event: String, payload: serde_json::Value, ticket: u64) -> (msg: ActorMsg)
        ensures
            msg matches ActorMsg::Push {
                topic,
                generation,
                event: named,
                payload: cargo,
                ticket: under,
            } && topic@ == self.name() && generation == self.stamp() && named == event && cargo
                == PushPayload::Json(payload) && under == ticket,
    {
        ActorMsg::Push {
            topic: self.topic.clone(),
            generation: self.generation,
            event,
            payload: PushPayload::Json(payload),
            ticket,
        }
    }
}

} // verus!
