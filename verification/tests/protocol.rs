//! The protocol over a scripted socket and a clock that only moves when a test
//! says so: join and rejoin, join failure, generation guarding, heartbeat
//! timeout, reply correlation and deliberate leaves.

use std::cell::RefCell;
use std::collections::{HashMap, VecDeque};
use std::rc::Rc;
use std::time::Duration;

use musubi::phoenix::actor::{Action, Actor, ActorMsg, PushPayload};
use musubi::phoenix::channel::{self, ChannelErrorReason, ChannelEvent};
use musubi::phoenix::error::{BuildError, PushError};
use musubi::phoenix::frame::{BinaryFrameError, Frame, Message, Reply, ReplyStatus};
use musubi::phoenix::hub::{SocketStatus, Wait};
use musubi::phoenix::socket::{Settings, SocketBuilder};

const TOPIC: &str = "musubi:connection:MyApp.CartStore:cart";
const HEARTBEAT: Duration = Duration::from_secs(30);
const JOIN_TIMEOUT: Duration = Duration::from_secs(10);
const PUSH_TIMEOUT: Duration = Duration::from_secs(5);

fn json(text: &str) -> serde_json::Value {
    serde_json::from_str(text).expect("a JSON document")
}

// ---------------------------------------------------------------- harness --

type Queue = Rc<RefCell<VecDeque<ActorMsg>>>;

/// A socket, as both of its ends see it.
#[derive(Default)]
struct Link {
    to_client: VecDeque<Frame>,
    from_client: Vec<Frame>,
    gone: bool,
    /// Refuses writes from here on.
    deaf: bool,
}

type Shared = Rc<RefCell<Link>>;

/// What one channel reported, and whether it has ended.
#[derive(Default)]
struct Reports {
    events: Vec<ChannelEvent>,
    ended: bool,
}

struct ChannelEvents(Rc<RefCell<Reports>>);

/// A channel handle whose requests reach the harness.
#[derive(Clone)]
struct Channel {
    inner: Rc<channel::Channel>,
    queue: Queue,
}

impl Channel {
    fn join(&self) -> Result<(), ()> {
        self.queue.borrow_mut().push_back(self.inner.join());

        Ok(())
    }

    fn leave(&self) -> Result<(), ()> {
        self.queue.borrow_mut().push_back(self.inner.leave());

        Ok(())
    }

    fn generation(&self) -> u64 {
        self.inner.generation()
    }
}

struct Harness {
    actor: Actor,
    settings: Settings<(), (), ()>,
    queue: Queue,
    sockets: VecDeque<Shared>,
    open: Option<Shared>,
    urls: Vec<String>,
    sleeps: Vec<(Duration, ActorMsg)>,
    reports: HashMap<u64, Rc<RefCell<Reports>>>,
    attached: HashMap<u64, u64>,
    answers: HashMap<u64, Result<Reply, PushError>>,
    acknowledged: Vec<u64>,
    statuses: Vec<SocketStatus>,
    next_ticket: u64,
}

impl Harness {
    fn new() -> Self {
        let settings = SocketBuilder::new()
            .url("wss://example.test/socket".to_owned())
            .param("token".to_owned(), "secret".to_owned())
            .connector(())
            .spawner(())
            .timer(())
            .heartbeat(HEARTBEAT)
            .join_timeout(JOIN_TIMEOUT)
            .push_timeout(PUSH_TIMEOUT)
            .build()
            .ok()
            .expect("every part is set");

        Self {
            actor: Actor::new(),
            settings,
            queue: Queue::default(),
            sockets: VecDeque::new(),
            open: None,
            urls: Vec::new(),
            sleeps: Vec::new(),
            reports: HashMap::new(),
            attached: HashMap::new(),
            answers: HashMap::new(),
            acknowledged: Vec::new(),
            statuses: Vec::new(),
            next_ticket: 0,
        }
    }

    /// Hands the connector one more socket and keeps its server end.
    fn queue_socket(&mut self) -> ServerEnd {
        let link = Shared::default();

        self.sockets.push_back(link.clone());

        ServerEnd(link)
    }

    fn connected_urls(&self) -> Vec<String> {
        self.urls.clone()
    }

    fn ticket(&mut self) -> u64 {
        self.next_ticket += 1;
        self.next_ticket
    }

    fn perform(&mut self, actions: Vec<Action>) {
        for action in actions {
            match action {
                Action::Send(frame) => {
                    let link = self.open.clone().expect("a frame is written to a socket");
                    let delivered = !link.borrow().deaf;

                    if delivered {
                        link.borrow_mut().from_client.push(frame);
                    }

                    assert!(self.actor.is_writing());

                    let next = self.actor.written(delivered);

                    self.perform(next);
                }
                Action::Connect => {
                    self.urls.push(self.settings.url.clone());
                    self.open = self.sockets.pop_front();
                    self.queue.borrow_mut().push_back(ActorMsg::Connected {
                        opened: self.open.is_some(),
                    });
                }
                Action::HangUp => self.open = None,
                Action::Sleep { wait, alarm } => {
                    let length = match wait {
                        Wait::Heartbeat => self.settings.heartbeat,
                        Wait::Join => self.settings.join_timeout,
                        Wait::Push => self.settings.push_timeout,
                        Wait::Millis(ms) => Duration::from_millis(ms),
                    };

                    self.sleeps.push((length, alarm));
                }
                Action::Emit { generation, event } => {
                    self.reports[&generation].borrow_mut().events.push(event);
                }
                Action::End { generation } => {
                    self.reports[&generation].borrow_mut().ended = true;
                }
                Action::Attached { ticket, generation } => {
                    self.reports.insert(generation, Rc::default());
                    self.attached.insert(ticket, generation);
                }
                Action::Answered { ticket, outcome } => {
                    assert!(self.answers.insert(ticket, outcome).is_none());
                }
                Action::Publish(status) => self.statuses.push(status),
                Action::Acknowledge { ticket } => self.acknowledged.push(ticket),
            }
        }
    }

    /// Runs until nothing is left to do: requests first, frames after.
    fn pump(&mut self) {
        loop {
            let msg = self.queue.borrow_mut().pop_front();

            if let Some(msg) = msg {
                let actions = self.actor.handle_msg(msg);

                self.perform(actions);
                continue;
            }

            let Some(link) = self.open.clone() else {
                return;
            };
            let frame = link.borrow_mut().to_client.pop_front();

            if let Some(frame) = frame {
                let actions = self.actor.handle_frame(frame);

                self.perform(actions);
                continue;
            }

            if !link.borrow().gone {
                return;
            }

            let actions = self.actor.socket_lost();

            self.perform(actions);
        }
    }

    /// Resolves every pending sleep that matches, then settles.
    fn fire_where(&mut self, matches: impl Fn(Duration) -> bool) {
        let (due, kept): (Vec<_>, Vec<_>) = std::mem::take(&mut self.sleeps)
            .into_iter()
            .partition(|(length, _)| matches(*length));

        self.sleeps = kept;
        self.queue.borrow_mut().extend(due.into_iter().map(|(_, alarm)| alarm));
        self.pump();
    }

    fn fire(&mut self, length: Duration) {
        self.fire_where(|pending| pending == length);
    }

    /// Resolves the reconnect and rejoin ladder, whose first rungs are all
    /// sub-second.
    fn fire_backoff(&mut self) {
        self.fire_where(|pending| pending < Duration::from_secs(1));
    }

    fn armed(&self, length: Duration) -> usize {
        self.sleeps.iter().filter(|(pending, _)| *pending == length).count()
    }

    fn attach(&mut self, topic: &str, params: serde_json::Value) -> (Channel, ChannelEvents) {
        let ticket = self.ticket();

        self.queue.borrow_mut().push_back(ActorMsg::Attach {
            topic: topic.to_owned(),
            params,
            ticket,
        });
        self.pump();

        let generation = self.attached[&ticket];

        (
            Channel {
                inner: Rc::new(channel::Channel::new(topic.to_owned(), generation)),
                queue: self.queue.clone(),
            },
            ChannelEvents(self.reports[&generation].clone()),
        )
    }

    fn push(
        &mut self,
        channel: &Channel,
        event: &str,
        payload: serde_json::Value,
    ) -> Result<Reply, PushError> {
        let pending = self.push_later(channel, event, payload);

        self.settle(pending)
    }

    fn push_later(&mut self, channel: &Channel, event: &str, payload: serde_json::Value) -> u64 {
        let ticket = self.ticket();

        self.queue
            .borrow_mut()
            .push_back(channel.inner.push(event.to_owned(), payload, ticket));

        ticket
    }

    fn settle(&mut self, ticket: u64) -> Result<Reply, PushError> {
        self.pump();

        self.answers
            .remove(&ticket)
            .expect("the push should have been answered by now")
    }

    fn disconnect(&mut self) {
        let ticket = self.ticket();

        self.queue.borrow_mut().push_back(ActorMsg::Disconnect { ticket });
        self.pump();

        assert!(self.acknowledged.contains(&ticket));
    }
}

/// The server side of a socket.
struct ServerEnd(Shared);

impl ServerEnd {
    /// Every text frame the client wrote since the last call, decoded.
    fn sent(&mut self, harness: &mut Harness) -> Vec<Message> {
        harness.pump();

        std::mem::take(&mut self.0.borrow_mut().from_client)
            .into_iter()
            .map(|frame| match frame {
                Frame::Text(text) => Message::decode(&text).expect("text frames are five-tuples"),
                Frame::Binary(_) => panic!("no binary frame was pushed"),
            })
            .collect()
    }

    fn push(&self, message: Message) {
        self.0.borrow_mut().to_client.push_back(message.encode());
    }

    fn reply(&self, to: &Message, status: ReplyStatus, response: serde_json::Value) {
        let mut payload = serde_json::Map::new();

        payload.insert(
            "status".to_owned(),
            serde_json::Value::from(match status {
                ReplyStatus::Okay => "ok",
                ReplyStatus::Error => "error",
            }),
        );
        payload.insert("response".to_owned(), response);

        self.push(Message {
            join_ref: to.join_ref.clone(),
            msg_ref: to.msg_ref.clone(),
            topic: to.topic.clone(),
            event: "phx_reply".to_owned(),
            payload: serde_json::Value::Object(payload),
        });
    }

    fn disconnect(&mut self) {
        self.0.borrow_mut().gone = true;
    }
}

/// Everything a channel has reported since the last call.
fn drain(events: &mut ChannelEvents) -> Vec<ChannelEvent> {
    std::mem::take(&mut events.0.borrow_mut().events)
}

/// Whether a channel's reports have ended.
fn ended(events: &mut ChannelEvents) -> bool {
    events.0.borrow().ended
}

// ------------------------------------------------------------------ tests --

#[test]
fn joins_with_a_five_tuple_whose_ref_is_its_own_join_ref() {
    let mut harness = Harness::new();
    let mut server = harness.queue_socket();
    let (channel, mut events) = harness.attach(TOPIC, json(r#"{"module": "MyApp.CartStore"}"#));

    channel.join().unwrap();
    harness.pump();

    assert_eq!(
        harness.connected_urls(),
        vec!["wss://example.test/socket/websocket?vsn=2.0.0&token=secret".to_owned()]
    );
    let sent = server.sent(&mut harness);
    assert!(matches!(
        sent.as_slice(),
        [Message { join_ref: Some(join_ref), msg_ref: Some(msg_ref), topic, event, payload }]
            if join_ref == msg_ref
                && join_ref == "1"
                && topic == TOPIC
                && event == "phx_join"
                && payload["module"] == json(r#""MyApp.CartStore""#)
    ));

    server.reply(
        &sent[0],
        ReplyStatus::Okay,
        json(r#"{"root_id": "MyApp.CartStore:cart"}"#),
    );
    harness.pump();

    assert!(matches!(
        drain(&mut events).as_slice(),
        [ChannelEvent::Joined { response }] if response["root_id"] == json(r#""MyApp.CartStore:cart""#)
    ));
}

#[test]
fn join_error_surfaces_the_server_reason_verbatim() {
    let mut harness = Harness::new();
    let mut server = harness.queue_socket();
    let (channel, mut events) = harness.attach(TOPIC, json("{}"));

    channel.join().unwrap();
    harness.pump();
    let sent = server.sent(&mut harness);
    server.reply(
        &sent[0],
        ReplyStatus::Error,
        json(r#"{"reason": "unauthorized"}"#),
    );
    harness.pump();

    assert!(matches!(
        drain(&mut events).as_slice(),
        [ChannelEvent::JoinError { response }] if response["reason"] == json(r#""unauthorized""#)
    ));
}

#[test]
fn join_timeout_is_reported_as_a_join_failure() {
    let mut harness = Harness::new();
    let mut server = harness.queue_socket();
    let (channel, mut events) = harness.attach(TOPIC, json("{}"));

    channel.join().unwrap();
    harness.pump();
    server.sent(&mut harness);
    harness.fire(JOIN_TIMEOUT);

    assert!(matches!(
        drain(&mut events).as_slice(),
        [ChannelEvent::JoinTimeout]
    ));
}

#[test]
fn a_join_reply_that_is_not_a_reply_payload_fails_the_join_instead_of_stranding_it() {
    let mut harness = Harness::new();
    let mut server = harness.queue_socket();
    let (channel, mut events) = harness.attach(TOPIC, json("{}"));

    channel.join().unwrap();
    harness.pump();
    let sent = server.sent(&mut harness);

    server.push(Message {
        join_ref: sent[0].join_ref.clone(),
        msg_ref: sent[0].msg_ref.clone(),
        topic: sent[0].topic.clone(),
        event: "phx_reply".to_owned(),
        payload: json(r#"{"ok": true}"#),
    });
    harness.pump();

    assert!(matches!(
        drain(&mut events).as_slice(),
        [ChannelEvent::JoinTimeout]
    ));
}

#[test]
fn a_rejoin_after_reconnect_fires_join_ok_again() {
    let mut harness = Harness::new();
    let mut first = harness.queue_socket();
    let (channel, mut events) = harness.attach(TOPIC, json(r#"{"id": "cart"}"#));

    channel.join().unwrap();
    harness.pump();
    let sent = first.sent(&mut harness);
    first.reply(&sent[0], ReplyStatus::Okay, json("{}"));
    harness.pump();
    assert!(matches!(
        drain(&mut events).as_slice(),
        [ChannelEvent::Joined { .. }]
    ));

    let mut second = harness.queue_socket();
    first.disconnect();
    harness.pump();
    assert!(matches!(
        drain(&mut events).as_slice(),
        [ChannelEvent::Error {
            reason: ChannelErrorReason::SocketClosed
        }]
    ));

    harness.fire_backoff();
    let rejoin = second.sent(&mut harness);
    assert!(matches!(
        rejoin.as_slice(),
        [Message { event, payload, msg_ref: Some(msg_ref), .. }]
            if event == "phx_join" && payload["id"] == json(r#""cart""#) && msg_ref == "2"
    ));

    second.reply(&rejoin[0], ReplyStatus::Okay, json("{}"));
    harness.pump();

    assert!(matches!(
        drain(&mut events).as_slice(),
        [ChannelEvent::Joined { .. }]
    ));
}

#[test]
fn attaching_the_same_topic_again_invalidates_the_previous_handle() {
    let mut harness = Harness::new();
    let mut server = harness.queue_socket();
    let (stale_channel, mut stale_events) = harness.attach(TOPIC, json("{}"));

    stale_channel.join().unwrap();
    harness.pump();
    let sent = server.sent(&mut harness);
    server.reply(&sent[0], ReplyStatus::Okay, json("{}"));
    harness.pump();

    let (fresh_channel, _fresh_events) = harness.attach(TOPIC, json("{}"));

    assert!(fresh_channel.generation() > stale_channel.generation());
    assert!(ended(&mut stale_events));
    assert!(matches!(
        harness.push(&stale_channel, "command", json("{}")),
        Err(PushError::Stale)
    ));
    server.reply(&sent[0], ReplyStatus::Okay, json("{}"));
    harness.pump();
    assert!(ended(&mut stale_events));
}

#[test]
fn a_missed_heartbeat_reply_tears_the_socket_down() {
    let mut harness = Harness::new();
    let mut server = harness.queue_socket();
    let (channel, mut events) = harness.attach(TOPIC, json("{}"));

    channel.join().unwrap();
    harness.pump();
    let sent = server.sent(&mut harness);
    server.reply(&sent[0], ReplyStatus::Okay, json("{}"));
    harness.pump();
    drain(&mut events);

    harness.fire(HEARTBEAT);
    assert!(matches!(
        server.sent(&mut harness).as_slice(),
        [Message { join_ref: None, topic, event, .. }]
            if topic == "phoenix" && event == "heartbeat"
    ));

    harness.fire(HEARTBEAT);

    assert!(matches!(
        drain(&mut events).as_slice(),
        [ChannelEvent::Error {
            reason: ChannelErrorReason::HeartbeatTimeout
        }]
    ));
}

#[test]
fn an_answered_heartbeat_keeps_the_socket_alive() {
    let mut harness = Harness::new();
    let mut server = harness.queue_socket();
    let (channel, mut events) = harness.attach(TOPIC, json("{}"));

    channel.join().unwrap();
    harness.pump();
    let sent = server.sent(&mut harness);
    server.reply(&sent[0], ReplyStatus::Okay, json("{}"));
    harness.pump();
    drain(&mut events);

    harness.fire(HEARTBEAT);
    let beat = server.sent(&mut harness);
    server.reply(&beat[0], ReplyStatus::Okay, json("{}"));
    harness.pump();
    harness.fire(HEARTBEAT);

    assert!(matches!(
        server.sent(&mut harness).as_slice(),
        [Message { event, .. }] if event == "heartbeat"
    ));
    assert!(drain(&mut events).is_empty());
}

#[test]
fn replies_are_correlated_by_ref_regardless_of_arrival_order() {
    let mut harness = Harness::new();
    let mut server = harness.queue_socket();
    let (channel, _events) = harness.attach(TOPIC, json("{}"));

    channel.join().unwrap();
    harness.pump();
    let sent = server.sent(&mut harness);
    server.reply(&sent[0], ReplyStatus::Okay, json("{}"));
    harness.pump();

    let first = harness.push_later(&channel, "command", json(r#"{"name": "add"}"#));
    let second = harness.push_later(&channel, "command", json(r#"{"name": "remove"}"#));
    harness.pump();

    let pushes = server.sent(&mut harness);
    assert!(matches!(
        pushes.as_slice(),
        [
            Message { msg_ref: Some(add), join_ref: Some(add_join), .. },
            Message { msg_ref: Some(remove), join_ref: Some(remove_join), .. },
        ] if add == "2" && remove == "3" && add_join == "1" && remove_join == "1"
    ));

    server.reply(&pushes[1], ReplyStatus::Error, json(r#"{"reason": "nope"}"#));
    server.reply(&pushes[0], ReplyStatus::Okay, json(r#"{"ok": true}"#));

    assert!(matches!(
        harness.settle(first),
        Ok(Reply { status: ReplyStatus::Okay, response }) if response["ok"] == json("true")
    ));
    assert!(matches!(
        harness.settle(second),
        Ok(Reply { status: ReplyStatus::Error, response }) if response["reason"] == json(r#""nope""#)
    ));
}

#[test]
fn a_push_before_the_join_is_acknowledged_is_rejected() {
    let mut harness = Harness::new();
    let mut server = harness.queue_socket();
    let (channel, _events) = harness.attach(TOPIC, json("{}"));

    channel.join().unwrap();
    harness.pump();
    server.sent(&mut harness);

    assert!(matches!(
        harness.push(&channel, "command", json("{}")),
        Err(PushError::NotJoined)
    ));
}

#[test]
fn a_push_times_out_when_no_reply_arrives() {
    let mut harness = Harness::new();
    let mut server = harness.queue_socket();
    let (channel, _events) = harness.attach(TOPIC, json("{}"));

    channel.join().unwrap();
    harness.pump();
    let sent = server.sent(&mut harness);
    server.reply(&sent[0], ReplyStatus::Okay, json("{}"));
    harness.pump();

    let pending = harness.push_later(&channel, "command", json("{}"));
    harness.pump();
    server.sent(&mut harness);
    harness.fire(PUSH_TIMEOUT);

    assert!(matches!(harness.settle(pending), Err(PushError::Timeout)));
}

#[test]
fn a_deliberate_leave_suppresses_the_close_and_stops_rejoining() {
    let mut harness = Harness::new();
    let mut server = harness.queue_socket();
    let (channel, mut events) = harness.attach(TOPIC, json("{}"));

    channel.join().unwrap();
    harness.pump();
    let sent = server.sent(&mut harness);
    server.reply(&sent[0], ReplyStatus::Okay, json("{}"));
    harness.pump();
    drain(&mut events);

    channel.leave().unwrap();
    harness.pump();
    let leave = server.sent(&mut harness);
    assert!(matches!(
        leave.as_slice(),
        [Message { event, join_ref: Some(join_ref), .. }]
            if event == "phx_leave" && join_ref == "1"
    ));

    server.reply(&leave[0], ReplyStatus::Okay, json("{}"));
    server.push(Message {
        join_ref: None,
        msg_ref: None,
        topic: TOPIC.to_owned(),
        event: "phx_close".to_owned(),
        payload: json("{}"),
    });
    harness.pump();

    assert!(ended(&mut events));

    harness.fire_backoff();
    harness.fire(HEARTBEAT);
    let after_leave = server.sent(&mut harness);
    assert!(!after_leave.is_empty());
    assert!(
        after_leave
            .iter()
            .all(|message| message.event == "heartbeat")
    );
}

#[test]
fn a_close_arriving_before_the_leave_reply_is_suppressed() {
    let mut harness = Harness::new();
    let mut server = harness.queue_socket();
    let (channel, mut events) = harness.attach(TOPIC, json("{}"));

    channel.join().unwrap();
    harness.pump();
    let sent = server.sent(&mut harness);
    server.reply(&sent[0], ReplyStatus::Okay, json("{}"));
    harness.pump();
    drain(&mut events);

    channel.leave().unwrap();
    harness.pump();
    server.sent(&mut harness);

    server.push(Message {
        join_ref: Some("1".to_owned()),
        msg_ref: None,
        topic: TOPIC.to_owned(),
        event: "phx_close".to_owned(),
        payload: json("{}"),
    });
    harness.pump();

    assert!(ended(&mut events));

    harness.fire_backoff();
    assert!(
        server
            .sent(&mut harness)
            .iter()
            .all(|message| message.event != "phx_join")
    );
}

#[test]
fn a_server_close_reports_close_and_schedules_a_rejoin() {
    let mut harness = Harness::new();
    let mut server = harness.queue_socket();
    let (channel, mut events) = harness.attach(TOPIC, json("{}"));

    channel.join().unwrap();
    harness.pump();
    let sent = server.sent(&mut harness);
    server.reply(&sent[0], ReplyStatus::Okay, json("{}"));
    harness.pump();
    drain(&mut events);

    server.push(Message {
        join_ref: Some("1".to_owned()),
        msg_ref: None,
        topic: TOPIC.to_owned(),
        event: "phx_close".to_owned(),
        payload: json("{}"),
    });
    harness.pump();
    assert!(matches!(
        drain(&mut events).as_slice(),
        [ChannelEvent::Close]
    ));

    harness.fire_backoff();

    assert!(matches!(
        server.sent(&mut harness).as_slice(),
        [Message { event, .. }] if event == "phx_join"
    ));
}

#[test]
fn server_messages_reach_the_channel_stream() {
    let mut harness = Harness::new();
    let mut server = harness.queue_socket();
    let (channel, mut events) = harness.attach(TOPIC, json("{}"));

    channel.join().unwrap();
    harness.pump();
    let sent = server.sent(&mut harness);
    server.reply(&sent[0], ReplyStatus::Okay, json("{}"));
    server.push(Message {
        join_ref: Some("1".to_owned()),
        msg_ref: None,
        topic: TOPIC.to_owned(),
        event: "patch".to_owned(),
        payload: json(r#"{"version": 1}"#),
    });
    harness.pump();

    assert!(matches!(
        drain(&mut events).as_slice(),
        [
            ChannelEvent::Joined { .. },
            ChannelEvent::Message { event, payload }
        ] if event == "patch" && payload["version"] == json("1")
    ));
}

#[test]
fn disconnect_drops_every_channel_and_stops_reconnecting() {
    let mut harness = Harness::new();
    let mut server = harness.queue_socket();
    let (channel, mut events) = harness.attach(TOPIC, json("{}"));

    channel.join().unwrap();
    harness.pump();
    let sent = server.sent(&mut harness);
    server.reply(&sent[0], ReplyStatus::Okay, json("{}"));
    harness.pump();
    drain(&mut events);

    harness.disconnect();

    assert!(ended(&mut events));
    harness.fire_backoff();
    assert!(server.sent(&mut harness).is_empty());
    assert!(matches!(
        harness.push(&channel, "command", json("{}")),
        Err(PushError::Stale)
    ));
}

/// A joined channel on an open socket.
fn joined(harness: &mut Harness) -> (Channel, ChannelEvents, ServerEnd) {
    let mut server = harness.queue_socket();
    let (channel, mut events) = harness.attach(TOPIC, json("{}"));

    channel.join().unwrap();
    harness.pump();
    let sent = server.sent(harness);
    server.reply(&sent[0], ReplyStatus::Okay, json("{}"));
    harness.pump();
    drain(&mut events);

    (channel, events, server)
}

#[test]
fn the_next_heartbeat_is_timed_from_the_write_of_the_last() {
    let mut harness = Harness::new();
    let (_channel, _events, mut server) = joined(&mut harness);

    assert_eq!(harness.armed(HEARTBEAT), 1);
    harness.fire(HEARTBEAT);
    assert_eq!(server.sent(&mut harness).len(), 1);
    assert_eq!(harness.armed(HEARTBEAT), 1);
}

#[test]
fn a_heartbeat_of_an_earlier_connection_changes_nothing() {
    let mut harness = Harness::new();
    let (_channel, _events, mut first) = joined(&mut harness);
    let mut second = harness.queue_socket();

    first.disconnect();
    harness.pump();
    harness.fire_backoff();
    second.sent(&mut harness);
    assert_eq!(harness.armed(HEARTBEAT), 2);

    // Both ticks come due; only the one of this connection beats.
    harness.fire(HEARTBEAT);
    assert_eq!(second.sent(&mut harness).len(), 1);
    assert_eq!(harness.armed(HEARTBEAT), 1);
}

#[test]
fn a_join_that_times_out_is_taken_back_off_the_server_before_it_is_retried() {
    let mut harness = Harness::new();
    let mut server = harness.queue_socket();
    let (channel, mut events) = harness.attach(TOPIC, json("{}"));

    channel.join().unwrap();
    harness.pump();
    server.sent(&mut harness);
    harness.fire(JOIN_TIMEOUT);

    let sent = server.sent(&mut harness);
    assert_eq!(sent.len(), 1);
    assert_eq!(sent[0].event, "phx_leave");
    assert_eq!(sent[0].join_ref.as_deref(), Some("1"));
    assert_eq!(drain(&mut events), [ChannelEvent::JoinTimeout]);

    harness.fire_backoff();
    let retried = server.sent(&mut harness);
    assert_eq!(retried.len(), 1);
    assert_eq!(retried[0].event, "phx_join");
    assert_eq!(retried[0].join_ref.as_deref(), Some("3"));
}

#[test]
fn a_late_reply_to_an_abandoned_join_does_not_reopen_the_channel() {
    let mut harness = Harness::new();
    let mut server = harness.queue_socket();
    let (channel, mut events) = harness.attach(TOPIC, json("{}"));

    channel.join().unwrap();
    harness.pump();
    let sent = server.sent(&mut harness);
    harness.fire(JOIN_TIMEOUT);
    drain(&mut events);

    server.reply(&sent[0], ReplyStatus::Okay, json("{}"));
    harness.pump();

    assert!(drain(&mut events).is_empty());
    assert!(matches!(
        harness.push(&channel, "command", json("{}")),
        Err(PushError::NotJoined)
    ));
}

#[test]
fn a_second_join_is_not_stacked_on_one_in_flight() {
    let mut harness = Harness::new();
    let mut server = harness.queue_socket();
    let (channel, _events) = harness.attach(TOPIC, json("{}"));

    channel.join().unwrap();
    channel.join().unwrap();
    harness.pump();
    channel.join().unwrap();

    assert_eq!(server.sent(&mut harness).len(), 1);
}

#[test]
fn the_status_shows_edges_and_nothing_else() {
    let mut harness = Harness::new();

    assert_eq!(harness.actor.status(), SocketStatus::Connecting);

    let (channel, _events, mut first) = joined(&mut harness);

    first.disconnect();
    harness.pump();
    assert_eq!(harness.actor.status(), SocketStatus::Reconnecting);

    // A failed attempt is no edge.
    harness.fire_backoff();
    let _second = harness.queue_socket();
    harness.fire_backoff();
    channel.join().unwrap();
    harness.disconnect();
    harness.disconnect();

    assert_eq!(
        harness.statuses,
        [
            SocketStatus::Connected,
            SocketStatus::Reconnecting,
            SocketStatus::Connected,
            SocketStatus::Closed
        ]
    );
}

#[test]
fn a_socket_that_never_opened_stays_connecting() {
    let mut harness = Harness::new();
    let (channel, mut events) = harness.attach(TOPIC, json("{}"));

    channel.join().unwrap();
    harness.pump();

    assert_eq!(
        drain(&mut events),
        [ChannelEvent::Error {
            reason: ChannelErrorReason::SocketClosed
        }]
    );
    assert_eq!(harness.actor.status(), SocketStatus::Connecting);
    assert!(harness.statuses.is_empty());
    // The ladder keeps trying.
    assert_eq!(harness.sleeps.len(), 1);
}

#[test]
fn a_failed_write_tears_the_socket_down_and_rejects_the_push() {
    let mut harness = Harness::new();
    let (channel, mut events, server) = joined(&mut harness);

    server.0.borrow_mut().deaf = true;

    assert!(matches!(
        harness.push(&channel, "command", json("{}")),
        Err(PushError::Disconnected)
    ));
    assert_eq!(
        drain(&mut events),
        [ChannelEvent::Error {
            reason: ChannelErrorReason::SocketClosed
        }]
    );
}

#[test]
fn no_push_is_lost_and_none_is_answered_twice() {
    let mut harness = Harness::new();
    let (channel, _events, mut server) = joined(&mut harness);

    let first = harness.push_later(&channel, "command", json("{}"));
    let second = harness.push_later(&channel, "command", json("{}"));
    let pushes = server.sent(&mut harness);

    server.reply(&pushes[1], ReplyStatus::Okay, json("{}"));
    harness.pump();
    harness.fire(PUSH_TIMEOUT);
    server.reply(&pushes[0], ReplyStatus::Okay, json("{}"));
    server.reply(&pushes[1], ReplyStatus::Okay, json("{}"));
    harness.pump();

    let third = harness.push_later(&channel, "command", json("{}"));
    harness.pump();
    server.disconnect();
    harness.pump();

    let fourth = harness.push_later(&channel, "command", json("{}"));
    harness.pump();

    assert_eq!(harness.answers.len(), 4);
    assert!(matches!(harness.settle(first), Err(PushError::Timeout)));
    assert!(matches!(harness.settle(second), Ok(_)));
    assert!(matches!(harness.settle(third), Err(PushError::Disconnected)));
    assert!(matches!(harness.settle(fourth), Err(PushError::NotJoined)));
}

#[test]
fn every_channel_is_rejoined_after_a_write_failed_among_the_joins() {
    let mut harness = Harness::new();
    let deaf = harness.queue_socket();
    let (one, _one_events) = harness.attach("room:1", json("{}"));
    let (two, _two_events) = harness.attach("room:2", json("{}"));

    deaf.0.borrow_mut().deaf = true;
    one.join().unwrap();
    two.join().unwrap();
    harness.pump();

    let mut server = harness.queue_socket();
    harness.fire_backoff();

    let mut topics: Vec<String> = server
        .sent(&mut harness)
        .into_iter()
        .map(|message| message.topic)
        .collect();
    topics.sort();

    assert_eq!(topics, ["room:1", "room:2"]);
}

#[test]
fn a_push_that_cannot_be_framed_is_answered_at_once() {
    let mut harness = Harness::new();
    let (channel, _events, mut server) = joined(&mut harness);
    let ticket = harness.ticket();

    harness.queue.borrow_mut().push_back(ActorMsg::Push {
        topic: TOPIC.to_owned(),
        generation: channel.generation(),
        event: "e".repeat(256),
        payload: PushPayload::Binary(vec![1]),
        ticket,
    });

    assert_eq!(
        harness.settle(ticket),
        Err(PushError::Unframable(BinaryFrameError::FieldTooLong {
            field: "event",
            len: 256
        }))
    );
    assert!(server.sent(&mut harness).is_empty());
    assert_eq!(harness.armed(PUSH_TIMEOUT), 0);
}

#[test]
fn a_message_of_a_superseded_join_is_dropped() {
    let mut harness = Harness::new();
    let (_channel, mut events, server) = joined(&mut harness);

    server.push(Message {
        join_ref: Some("99".to_owned()),
        msg_ref: None,
        topic: TOPIC.to_owned(),
        event: "patch".to_owned(),
        payload: json("{}"),
    });
    harness.pump();

    assert!(drain(&mut events).is_empty());
}

#[test]
fn a_frame_that_is_no_five_tuple_is_dropped() {
    let mut harness = Harness::new();
    let (_channel, mut events, server) = joined(&mut harness);

    server.0.borrow_mut().to_client.push_back(Frame::Text("{}".to_owned()));
    server.0.borrow_mut().to_client.push_back(Frame::Binary(vec![0]));
    harness.pump();

    assert!(drain(&mut events).is_empty());
    assert_eq!(harness.actor.status(), SocketStatus::Connected);
}

#[test]
fn a_builder_reports_the_first_part_it_lacks() {
    let blank = || SocketBuilder::<(), (), ()>::new();
    let url = || blank().url("wss://example.test".to_owned());

    assert_eq!(blank().build().err(), Some(BuildError::MissingUrl));
    assert_eq!(url().build().err(), Some(BuildError::MissingConnector));
    assert_eq!(
        url().connector(()).build().err(),
        Some(BuildError::MissingSpawner)
    );
    assert_eq!(
        url().connector(()).spawner(()).build().err(),
        Some(BuildError::MissingTimer)
    );

    let settings = url()
        .connector(())
        .spawner(())
        .timer(())
        .build()
        .ok()
        .expect("every part is set");

    assert_eq!(settings.heartbeat, Duration::from_secs(30));
    assert_eq!(settings.join_timeout, Duration::from_secs(10));
    assert_eq!(settings.push_timeout, Duration::from_secs(10));
}

#[test]
fn losing_the_socket_is_reported_once_to_every_channel_that_wants_to_be_joined() {
    let mut harness = Harness::new();
    let mut server = harness.queue_socket();
    let (open, mut open_events) = harness.attach("room:open", json("{}"));
    let (refused, mut refused_events) = harness.attach("room:refused", json("{}"));
    let (pending, mut pending_events) = harness.attach("room:pending", json("{}"));
    let (left, mut left_events) = harness.attach("room:left", json("{}"));
    let (_idle, mut idle_events) = harness.attach("room:idle", json("{}"));

    open.join().unwrap();
    refused.join().unwrap();
    pending.join().unwrap();
    left.join().unwrap();
    harness.pump();
    let joins = server.sent(&mut harness);
    server.reply(&joins[0], ReplyStatus::Okay, json("{}"));
    server.reply(&joins[1], ReplyStatus::Error, json("{}"));
    server.reply(&joins[3], ReplyStatus::Okay, json("{}"));
    harness.pump();
    left.leave().unwrap();
    harness.pump();
    drain(&mut open_events);
    drain(&mut refused_events);
    drain(&mut pending_events);
    drain(&mut left_events);

    server.disconnect();
    harness.pump();

    for events in [&mut open_events, &mut refused_events, &mut pending_events] {
        assert!(matches!(
            drain(events).as_slice(),
            [ChannelEvent::Error {
                reason: ChannelErrorReason::SocketClosed
            }]
        ));
        assert!(!ended(events));
    }
    assert!(drain(&mut left_events).is_empty());
    assert!(ended(&mut left_events));
    assert!(drain(&mut idle_events).is_empty());
    assert!(!ended(&mut idle_events));
}
