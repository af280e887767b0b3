//! What holds of the task that owns the socket, whatever is asked of it and
//! whatever arrives.

use vstd::prelude::*;

use crate::phoenix::channel::{ChannelErrorReason, News};
use crate::phoenix::frame;
use crate::phoenix::frame::{Answer, ReplyStatus, EVENT_CLOSE, EVENT_ERROR, EVENT_REPLY};
use crate::phoenix::hub;
use crate::phoenix::hub::{
    Call, Cargo, ChannelStatus, Deed, Failure, Hub, Resume, Seat, SocketStatus, Waiting,
};
use crate::phoenix::json::Letter;
use crate::state::text::Chars;
use crate::state::value::Json;

verus! {

/// Whether something is waited for.
pub open spec fn in_flight(inflight: Seq<(u64, Waiting)>, waiting: Waiting) -> bool {
    exists|k: int| 0 <= k < inflight.len() && (#[trigger] inflight[k]).1 == waiting
}

/// What a channel's status says about what is waited for: a join or a leave in
/// progress is always one that something will end.
pub open spec fn accounted(inflight: Seq<(u64, Waiting)>, seat: Seat) -> bool {
    &&& seat.status == ChannelStatus::Joining ==> in_flight(
        inflight,
        Waiting::Join {
            topic: seat.topic,
            generation: seat.generation,
            attempt: seat.attempt,
        },
    )
    &&& seat.status == ChannelStatus::Leaving ==> in_flight(
        inflight,
        Waiting::Leave { topic: seat.topic, generation: seat.generation },
    )
}

/// Whether a join is on its way to a channel: a rejoin is armed, or the write in
/// progress is followed by it.
pub open spec fn due(h: Hub, seat: Seat) -> bool {
    ||| seat.rejoin is Some
    ||| h.resume matches Resume::Joins(list) && list.contains((seat.topic, seat.generation))
    ||| h.resume == (Resume::Rejoin { topic: seat.topic, generation: seat.generation })
}

/// A channel without a socket.
pub open spec fn grounded(seat: Seat) -> bool {
    seat.status == ChannelStatus::Closed && seat.join_ref is None && seat.rejoin is None
}

/// What holds between any two things that happen to the task.
pub open spec fn sound(h: Hub) -> bool {
    // One entry per topic.
    &&& forall|i: int, j: int|
        0 <= i < j < h.channels.len() ==> (#[trigger] h.channels[i]).topic != (
        #[trigger] h.channels[j]).topic
    // The status says what the socket is.
    &&& h.socket <==> h.status == SocketStatus::Connected
    &&& h.closed <==> h.status == SocketStatus::Closed
    &&& h.connecting ==> !h.socket
    // Each ref in flight is one that was handed out, and is in flight once.
    &&& forall|k: int| 0 <= k < h.inflight.len() ==> (#[trigger] h.inflight[k]).0 <= h.next_ref
    &&& forall|k: int, l: int|
        0 <= k < l < h.inflight.len() ==> (#[trigger] h.inflight[k]).0 != (
        #[trigger] h.inflight[l]).0
    // Without a socket nothing is in flight and every channel is closed.
    &&& !h.socket ==> h.inflight.len() == 0 && h.pending_heartbeat is None && h.resume is Idle
    &&& !h.socket ==> forall|i: int| 0 <= i < h.channels.len() ==> grounded(#[trigger] h.channels[i])
    // No join and no leave is waited for in vain.
    &&& forall|i: int| 0 <= i < h.channels.len() ==> accounted(h.inflight, #[trigger] h.channels[i])
    // No channel that wants to be joined is forgotten: with a socket, its next
    // join is due; without, the next connection is.
    &&& forall|i: int|
        0 <= i < h.channels.len() && h.socket && (#[trigger] h.channels[i]).wants_join
            && h.channels[i].status == ChannelStatus::Closed ==> due(h, h.channels[i])
    &&& !h.socket && !h.closed && hub::wanted(h.channels) ==> h.connecting || h.reconnect_scheduled
}

/// Refs are left for one more step.
pub open spec fn roomy(h: Hub) -> bool {
    h.next_ref + h.channels.len() + 2 < u64::MAX
}

pub proof fn find_meaning(channels: Seq<Seat>, topic: Chars)
    ensures
        hub::find(channels, topic) <= channels.len(),
        hub::find(channels, topic) < channels.len() ==> channels[hub::find(
            channels,
            topic,
        ) as int].topic == topic,
        forall|j: int|
            0 <= j < hub::find(channels, topic) ==> (#[trigger] channels[j]).topic != topic,
    decreases channels.len(),
{
    if channels.len() > 0 && channels[0].topic != topic {
        let rest = channels.drop_first();
        find_meaning(rest, topic);
        assert forall|j: int| 0 <= j < hub::find(channels, topic) implies (
        #[trigger] channels[j]).topic != topic by {
            if j > 0 {
                assert(channels[j] == rest[j - 1]);
            }
        }
    }
}

pub proof fn position_meaning(inflight: Seq<(u64, Waiting)>, r: u64)
    ensures
        hub::position(inflight, r) <= inflight.len(),
        hub::position(inflight, r) < inflight.len() ==> inflight[hub::position(
            inflight,
            r,
        ) as int].0 == r,
        forall|j: int|
            0 <= j < hub::position(inflight, r) ==> (#[trigger] inflight[j]).0 != r,
    decreases inflight.len(),
{
    if inflight.len() > 0 && inflight[0].0 != r {
        let rest = inflight.drop_first();
        position_meaning(rest, r);
        assert forall|j: int| 0 <= j < hub::position(inflight, r) implies (
        #[trigger] inflight[j]).0 != r by {
            if j > 0 {
                assert(inflight[j] == rest[j - 1]);
            }
        }
    }
}

/// What is waited for stays so when a ref lands that waited for something else.
proof fn landing_keeps(inflight: Seq<(u64, Waiting)>, r: u64, waiting: Waiting)
    requires
        in_flight(inflight, waiting),
        hub::position(inflight, r) < inflight.len() ==> inflight[hub::position(
            inflight,
            r,
        ) as int].1 != waiting,
    ensures
        in_flight(hub::without(inflight, r), waiting),
{
    position_meaning(inflight, r);
    let at = hub::position(inflight, r) as int;
    let k = choose|k: int| 0 <= k < inflight.len() && (#[trigger] inflight[k]).1 == waiting;
    if at < inflight.len() {
        let left = inflight.remove(at);
        if k < at {
            assert(left[k] == inflight[k]);
        } else {
            assert(left[k - 1] == inflight[k]);
        }
    }
}

/// What is waited for stays so when something new is.
proof fn push_keeps(inflight: Seq<(u64, Waiting)>, entry: (u64, Waiting), waiting: Waiting)
    requires
        in_flight(inflight, waiting) || entry.1 == waiting,
    ensures
        in_flight(inflight.push(entry), waiting),
{
    let more = inflight.push(entry);
    if in_flight(inflight, waiting) {
        let k = choose|k: int| 0 <= k < inflight.len() && (#[trigger] inflight[k]).1 == waiting;
        assert(more[k] == inflight[k]);
    } else {
        assert(more[inflight.len() as int] == entry);
    }
}

/// A ref that is not in flight leaves everything in flight.
proof fn absent(h: Hub, r: u64)
    requires
        sound(h),
        r > h.next_ref,
    ensures
        hub::without(h.inflight, r) == h.inflight,
{
    position_meaning(h.inflight, r);
}

/// The entries that stay are among those there were, each once and in order.
proof fn stays_topics(channels: Seq<Seat>)
    requires
        forall|i: int, j: int|
            0 <= i < j < channels.len() ==> (#[trigger] channels[i]).topic != (
            #[trigger] channels[j]).topic,
    ensures
        forall|i: int|
            0 <= i < hub::stays(channels).len() ==> grounded(#[trigger] hub::stays(channels)[i])
                && exists|j: int|
                0 <= j < channels.len() && (#[trigger] channels[j]).topic == hub::stays(
                    channels,
                )[i].topic && channels[j].wants_join == hub::stays(channels)[i].wants_join,
        forall|i: int, j: int|
            0 <= i < j < hub::stays(channels).len() ==> (#[trigger] hub::stays(channels)[i]).topic
                != (#[trigger] hub::stays(channels)[j]).topic,
    decreases channels.len(),
{
    if channels.len() > 0 {
        let less = channels.drop_last();
        stays_topics(less);
        let kept = hub::stays(less);
        let all = hub::stays(channels);
        assert forall|i: int| 0 <= i < all.len() implies grounded(#[trigger] all[i]) && exists|j: int|
            0 <= j < channels.len() && (#[trigger] channels[j]).topic == all[i].topic
                && channels[j].wants_join == all[i].wants_join by {
            if i < kept.len() {
                assert(all[i] == kept[i]);
                let j = choose|j: int|
                    0 <= j < less.len() && (#[trigger] less[j]).topic == kept[i].topic
                        && less[j].wants_join == kept[i].wants_join;
                assert(channels[j] == less[j]);
            } else {
                assert(all[i] == hub::stranded(channels.last()));
                assert(channels[channels.len() - 1].topic == all[i].topic);
            }
        }
        assert forall|i: int, j: int| 0 <= i < j < all.len() implies (#[trigger] all[i]).topic != (
        #[trigger] all[j]).topic by {
            assert(all[i] == kept[i]);
            if j < kept.len() {
                assert(all[j] == kept[j]);
            } else {
                let at = choose|at: int|
                    0 <= at < less.len() && (#[trigger] less[at]).topic == kept[i].topic
                        && less[at].wants_join == kept[i].wants_join;
                assert(channels[at] == less[at]);
                assert(channels[channels.len() - 1].topic == all[j].topic);
            }
        }
    }
}

/// A state whose socket has gone away, but for the connection that is then due.
spec fn adrift(h: Hub) -> bool {
    &&& forall|i: int, j: int|
        0 <= i < j < h.channels.len() ==> (#[trigger] h.channels[i]).topic != (
        #[trigger] h.channels[j]).topic
    &&& !h.socket
    &&& h.status != SocketStatus::Connected
    &&& h.closed <==> h.status == SocketStatus::Closed
    &&& h.inflight.len() == 0
    &&& h.pending_heartbeat is None
    &&& h.resume is Idle
    &&& forall|i: int| 0 <= i < h.channels.len() ==> grounded(#[trigger] h.channels[i])
}

proof fn dropping_keeps(h: Hub, reason: ChannelErrorReason)
    requires
        sound(h),
        !h.closed,
    ensures
        adrift(Hub { resume: Resume::Idle, ..hub::drop_socket(h, reason) }),
        h.resume is Idle ==> adrift(hub::drop_socket(h, reason)),
        hub::drop_socket(h, reason).connecting == h.connecting,
        hub::drop_socket(h, reason).closed == h.closed,
{
    stays_topics(h.channels);
}

proof fn reconnecting_keeps(h: Hub, seed: u64)
    requires
        adrift(h),
    ensures
        sound(hub::schedule_reconnect(h, seed)),
{
    let after = hub::schedule_reconnect(h, seed);
    assert(after.channels == h.channels);
}

/// Losing the transport keeps the state sound.
pub proof fn lost_keeps(h: Hub, seed: u64)
    requires
        sound(h),
        h.resume is Idle,
    ensures
        sound(hub::lost(h, seed)),
{
    if h.closed {
        let down = hub::drop_socket(h, ChannelErrorReason::SocketClosed);
        stays_topics(h.channels);
        assert(sound(down));
    } else {
        dropping_keeps(h, ChannelErrorReason::SocketClosed);
        reconnecting_keeps(hub::drop_socket(h, ChannelErrorReason::SocketClosed), seed);
    }
}

/// A step that changes one entry's joining fields alone.
proof fn rejoin_scheduling_keeps(h: Hub, topic: Chars, generation: u64, seed: u64)
    requires
        h.socket,
        !h.closed,
        h.resume is Idle,
        // Sound, but that this one channel's next join may not be due yet.
        sound(
            Hub {
                resume: Resume::Rejoin { topic, generation },
                ..h
            },
        ),
    ensures
        sound(hub::schedule_rejoin(h, topic, generation, seed)),
{
    find_meaning(h.channels, topic);
    let after = hub::schedule_rejoin(h, topic, generation, seed);
    let i = hub::find(h.channels, topic) as int;
    assert forall|j: int|
        0 <= j < after.channels.len() && after.socket && (#[trigger] after.channels[j]).wants_join
            && after.channels[j].status == ChannelStatus::Closed implies due(
        after,
        after.channels[j],
    ) by {
        assert(h.channels[j].topic == after.channels[j].topic);
        let held = Hub { resume: Resume::Rejoin { topic, generation }, ..h };
        assert(held.channels[j] == h.channels[j]);
        if j != i || !(hub::live(h, topic, generation) is Some) {
            assert(after.channels[j] == h.channels[j]);
            assert(due(held, h.channels[j]));
            if i < h.channels.len() && j != i {
                assert(h.channels[j].topic != topic);
            }
        }
    }
    assert forall|j: int| 0 <= j < after.channels.len() implies accounted(
        after.inflight,
        #[trigger] after.channels[j],
    ) by {
        assert(accounted(h.inflight, h.channels[j]));
    }
}

/// Sending a join keeps the state sound, with the joins that follow it as the
/// ones that may still be due.
proof fn sending_keeps(h: Hub, topic: Chars, generation: u64, resume: Resume)
    requires
        h.socket,
        h.resume is Idle,
        h.next_ref < u64::MAX,
        resume matches Resume::Joins(_) || resume is Done,
        sound(
            Hub {
                resume: Resume::Joins(
                    match resume {
                        Resume::Joins(list) => seq![(topic, generation)] + list,
                        _ => seq![(topic, generation)],
                    },
                ),
                ..h
            },
        ),
    ensures
        hub::send_join(h, topic, generation, resume).resume is Idle ==> sound(
            (Hub { resume, ..hub::send_join(h, topic, generation, resume) }),
        ),
        !(hub::send_join(h, topic, generation, resume).resume is Idle) ==> hub::send_join(
            h,
            topic,
            generation,
            resume,
        ).resume == resume && sound(hub::send_join(h, topic, generation, resume)),
        hub::send_join(h, topic, generation, resume).socket,
        hub::send_join(h, topic, generation, resume).next_ref == h.next_ref + 1,
        hub::send_join(h, topic, generation, resume).channels.len() == h.channels.len(),
{
    find_meaning(h.channels, topic);
    let list = match resume {
        Resume::Joins(list) => seq![(topic, generation)] + list,
        _ => seq![(topic, generation)],
    };
    let held = Hub { resume: Resume::Joins(list), ..h };
    let after = hub::send_join(h, topic, generation, resume);
    let shown = Hub { resume, ..after };
    let r = hub::bumped(h.next_ref);
    absent(held, r);
    let i = hub::find(h.channels, topic) as int;
    assert forall|j: int| 0 <= j < shown.channels.len() implies accounted(
        shown.inflight,
        #[trigger] shown.channels[j],
    ) by {
        assert(accounted(held.inflight, held.channels[j]));
        let seat = shown.channels[j];
        if after.inflight != h.inflight {
            let entry = after.inflight.last();
            assert(after.inflight == h.inflight.push(entry));
            if seat.status == ChannelStatus::Joining {
                push_keeps(
                    h.inflight,
                    entry,
                    Waiting::Join {
                        topic: seat.topic,
                        generation: seat.generation,
                        attempt: seat.attempt,
                    },
                );
            }
            if seat.status == ChannelStatus::Leaving {
                push_keeps(
                    h.inflight,
                    entry,
                    Waiting::Leave { topic: seat.topic, generation: seat.generation },
                );
            }
        }
    }
    assert forall|j: int|
        0 <= j < shown.channels.len() && shown.socket && (#[trigger] shown.channels[j]).wants_join
            && shown.channels[j].status == ChannelStatus::Closed implies due(
        shown,
        shown.channels[j],
    ) by {
        assert(held.channels[j].topic == shown.channels[j].topic);
        assert(due(held, held.channels[j]));
        if !(held.channels[j].rejoin is Some) {
            let pair = (held.channels[j].topic, held.channels[j].generation);
            assert(list.contains(pair));
            let at = choose|at: int| 0 <= at < list.len() && list[at] == pair;
            if at == 0 {
                // It is the channel the join was for, and it is closed no more.
                assert(held.channels[j].topic == topic);
                if i < j {
                    assert(held.channels[i].topic != held.channels[j].topic);
                }
                assert(i == j);
                assert(false);
            } else {
                match resume {
                    Resume::Joins(rest) => {
                        assert(rest[at - 1] == pair);
                    },
                    _ => {},
                }
            }
        }
    }
}

/// Sending a list of joins keeps the state sound.
proof fn joining_all_keeps(h: Hub, list: Seq<(Chars, u64)>)
    requires
        h.socket,
        h.resume is Idle,
        h.next_ref + list.len() < u64::MAX,
        sound(Hub { resume: Resume::Joins(list), ..h }),
    ensures
        sound(hub::join_all(h, list)),
    decreases list.len(),
{
    if list.len() == 0 {
        let held = Hub { resume: Resume::Joins(list), ..h };
        assert forall|j: int|
            0 <= j < h.channels.len() && h.socket && (#[trigger] h.channels[j]).wants_join
                && h.channels[j].status == ChannelStatus::Closed implies due(h, h.channels[j]) by {
            assert(due(held, held.channels[j]));
        }
        assert forall|j: int| 0 <= j < h.channels.len() implies accounted(
            h.inflight,
            #[trigger] h.channels[j],
        ) by {
            assert(accounted(held.inflight, held.channels[j]));
        }
    } else {
        let rest = list.drop_first();
        assert(seq![(list[0].0, list[0].1)] + rest =~= list);
        sending_keeps(h, list[0].0, list[0].1, Resume::Joins(rest));
        let sent = hub::send_join(h, list[0].0, list[0].1, Resume::Joins(rest));
        if sent.resume is Idle {
            joining_all_keeps(sent, rest);
        }
    }
}

/// The channels that want to be joined are all listed.
proof fn wanting_lists(channels: Seq<Seat>, i: int)
    requires
        0 <= i < channels.len(),
        channels[i].wants_join,
    ensures
        hub::wanting(channels).contains((channels[i].topic, channels[i].generation)),
        hub::wanting(channels).len() <= channels.len(),
    decreases channels.len(),
{
    let less = channels.drop_last();
    let rest = hub::wanting(less);
    wanting_short(less);
    if i < less.len() {
        wanting_lists(less, i);
        assert(less[i] == channels[i]);
        let pair = (channels[i].topic, channels[i].generation);
        let at = choose|at: int| 0 <= at < rest.len() && rest[at] == pair;
        assert(hub::wanting(channels)[at] == pair);
    } else {
        let all = hub::wanting(channels);
        assert(all[rest.len() as int] == (channels[i].topic, channels[i].generation));
    }
}

proof fn wanting_short(channels: Seq<Seat>)
    ensures
        hub::wanting(channels).len() <= channels.len(),
    decreases channels.len(),
{
    if channels.len() > 0 {
        wanting_short(channels.drop_last());
    }
}

/// The end of an attempt to connect keeps the state sound.
pub proof fn connected_keeps(h: Hub, opened: bool, seed: u64)
    requires
        sound(h),
        roomy(h),
        h.connecting,
        h.resume is Idle,
    ensures
        sound(hub::connected(h, opened, seed)),
{
    if !opened {
        let lost = hub::report_lost(Hub { connecting: false, ..h });
        let told = Hub {
            out: lost.out + hub::to_wanting(
                h.channels,
                News::Error { reason: ChannelErrorReason::SocketClosed },
            ),
            ..lost
        };
        if h.closed {
            assert(hub::connected(h, opened, seed) == hub::schedule_reconnect(told, seed));
            assert(sound(told));
        } else {
            assert(adrift(told));
            reconnecting_keeps(told, seed);
        }
    } else if !h.closed {
        let open = hub::set_status(
            hub::arm_heartbeat(
                Hub {
                    socket: true,
                    connection: hub::bumped(h.connection),
                    taken: 0,
                    connecting: false,
                    ..h
                },
            ),
            SocketStatus::Connected,
        );
        let list = hub::wanting(h.channels);
        let held = Hub { resume: Resume::Joins(list), ..open };
        wanting_short(h.channels);
        assert forall|j: int|
            0 <= j < held.channels.len() && held.socket && (#[trigger] held.channels[j]).wants_join
                && held.channels[j].status == ChannelStatus::Closed implies due(
            held,
            held.channels[j],
        ) by {
            wanting_lists(h.channels, j);
        }
        assert forall|j: int| 0 <= j < held.channels.len() implies accounted(
            held.inflight,
            #[trigger] held.channels[j],
        ) by {
            assert(accounted(h.inflight, h.channels[j]));
        }
        joining_all_keeps(open, list);
    }
}

/// The end of a write keeps the state sound.
pub proof fn written_keeps(h: Hub, delivered: bool, seed: u64)
    requires
        sound(h),
        h.resume matches Resume::Joins(list) ==> h.next_ref + list.len() < u64::MAX,
    ensures
        sound(hub::written(h, delivered, seed)),
{
    let idle = Hub { resume: Resume::Idle, ..h };
    if !delivered {
        let dropped = hub::drop_socket(idle, ChannelErrorReason::SocketClosed);
        if h.closed {
            stays_topics(h.channels);
            assert(sound(dropped));
        } else {
            dropping_keeps(h, ChannelErrorReason::SocketClosed);
            assert(dropped == (Hub {
                resume: Resume::Idle,
                ..hub::drop_socket(h, ChannelErrorReason::SocketClosed)
            }));
            reconnecting_keeps(dropped, seed);
        }
    } else if h.socket {
        match h.resume {
            Resume::Joins(list) => {
                assert(Hub { resume: Resume::Joins(list), ..idle } == h);
                joining_all_keeps(idle, list);
            },
            Resume::Rejoin { topic, generation } => {
                assert(Hub { resume: Resume::Rejoin { topic, generation }, ..idle } == h);
                rejoin_scheduling_keeps(idle, topic, generation, seed);
            },
            _ => {
                let after = hub::written(h, delivered, seed);
                assert forall|j: int|
                    0 <= j < after.channels.len() && after.socket && (
                    #[trigger] after.channels[j]).wants_join && after.channels[j].status
                        == ChannelStatus::Closed implies due(after, after.channels[j]) by {
                    assert(due(h, h.channels[j]));
                }
                assert forall|j: int| 0 <= j < after.channels.len() implies accounted(
                    after.inflight,
                    #[trigger] after.channels[j],
                ) by {
                    assert(accounted(h.inflight, h.channels[j]));
                }
            },
        }
    }
}

/// Joining a channel keeps the state sound.
pub proof fn join_keeps(h: Hub, topic: Chars, generation: u64)
    requires
        sound(h),
        roomy(h),
        h.resume is Idle,
    ensures
        sound(hub::join(h, topic, generation)),
{
    find_meaning(h.channels, topic);
    if let Some(i) = hub::live(h, topic, generation) {
        let seat = Seat { wants_join: true, suppress_close: false, ..h.channels[i] };
        let willing = hub::reseat(h, i, seat);
        assert forall|j: int| 0 <= j < willing.channels.len() implies accounted(
            willing.inflight,
            #[trigger] willing.channels[j],
        ) by {
            assert(accounted(h.inflight, h.channels[j]));
        }
        if h.socket {
            let held = Hub { resume: Resume::Joins(seq![(topic, generation)]), ..willing };
            assert forall|j: int|
                0 <= j < held.channels.len() && held.socket && (
                #[trigger] held.channels[j]).wants_join && held.channels[j].status
                    == ChannelStatus::Closed implies due(held, held.channels[j]) by {
                if j == i {
                    assert(seq![(topic, generation)][0] == (topic, generation));
                } else {
                    assert(due(h, h.channels[j]));
                }
            }
            assert(sound(held));
            sending_keeps(willing, topic, generation, Resume::Done);
            let sent = hub::send_join(willing, topic, generation, Resume::Done);
            if sent.resume is Idle {
                let shown = Hub { resume: Resume::Done, ..sent };
                assert forall|j: int|
                    0 <= j < sent.channels.len() && sent.socket && (
                    #[trigger] sent.channels[j]).wants_join && sent.channels[j].status
                        == ChannelStatus::Closed implies due(sent, sent.channels[j]) by {
                    assert(due(shown, shown.channels[j]));
                }
                assert forall|j: int| 0 <= j < sent.channels.len() implies accounted(
                    sent.inflight,
                    #[trigger] sent.channels[j],
                ) by {
                    assert(accounted(shown.inflight, shown.channels[j]));
                }
            }
        } else {
            assert forall|j: int| 0 <= j < willing.channels.len() implies grounded(
                #[trigger] willing.channels[j],
            ) by {
                assert(grounded(h.channels[j]));
            }
        }
    }
}

/// A rejoin that comes due keeps the state sound.
pub proof fn rejoin_keeps(h: Hub, topic: Chars, generation: u64, attempt: u64)
    requires
        sound(h),
        roomy(h),
        h.resume is Idle,
    ensures
        sound(hub::rejoin(h, topic, generation, attempt)),
{
    find_meaning(h.channels, topic);
    if let Some(i) = hub::live(h, topic, generation) {
        if h.channels[i].rejoin == Some(attempt) && h.socket {
            let seat = Seat { rejoin: None, ..h.channels[i] };
            let disarmed = hub::reseat(h, i, seat);
            let willing = hub::reseat(
                disarmed,
                i,
                Seat { wants_join: true, suppress_close: false, ..disarmed.channels[i] },
            );
            find_meaning(disarmed.channels, topic);
            assert(disarmed.channels[i].topic == topic);
            let k = hub::find(disarmed.channels, topic) as int;
            if k < i {
                assert(h.channels[k].topic != h.channels[i].topic);
            }
            assert(hub::live(disarmed, topic, generation) == Some(i));
            let held = Hub { resume: Resume::Joins(seq![(topic, generation)]), ..willing };
            assert forall|j: int| 0 <= j < held.channels.len() implies accounted(
                held.inflight,
                #[trigger] held.channels[j],
            ) by {
                assert(accounted(h.inflight, h.channels[j]));
            }
            assert forall|j: int|
                0 <= j < held.channels.len() && held.socket && (
                #[trigger] held.channels[j]).wants_join && held.channels[j].status
                    == ChannelStatus::Closed implies due(held, held.channels[j]) by {
                if j == i {
                    assert(seq![(topic, generation)][0] == (topic, generation));
                } else {
                    assert(due(h, h.channels[j]));
                }
            }
            assert(sound(held));
            sending_keeps(willing, topic, generation, Resume::Done);
            let sent = hub::send_join(willing, topic, generation, Resume::Done);
            if sent.resume is Idle {
                let shown = Hub { resume: Resume::Done, ..sent };
                assert forall|j: int|
                    0 <= j < sent.channels.len() && sent.socket && (
                    #[trigger] sent.channels[j]).wants_join && sent.channels[j].status
                        == ChannelStatus::Closed implies due(sent, sent.channels[j]) by {
                    assert(due(shown, shown.channels[j]));
                }
                assert forall|j: int| 0 <= j < sent.channels.len() implies accounted(
                    sent.inflight,
                    #[trigger] sent.channels[j],
                ) by {
                    assert(accounted(shown.inflight, shown.channels[j]));
                }
            }
        }
    }
}

/// Dropping one entry keeps the state sound.
proof fn unseating_keeps(h: Hub, i: int)
    requires
        0 <= i < h.channels.len(),
        forall|a: int, b: int|
            0 <= a < b < h.channels.len() ==> (#[trigger] h.channels[a]).topic != (
            #[trigger] h.channels[b]).topic,
        forall|j: int| #![trigger h.channels[j]]
            0 <= j < h.channels.len() && j != i ==> accounted(h.inflight, h.channels[j]),
        forall|j: int|
            #![trigger h.channels[j]]
            0 <= j < h.channels.len() && j != i && h.socket && h.channels[j].wants_join
                && h.channels[j].status == ChannelStatus::Closed ==> due(h, h.channels[j]),
        h.socket <==> h.status == SocketStatus::Connected,
        h.closed <==> h.status == SocketStatus::Closed,
        h.connecting ==> !h.socket,
        forall|k: int|
            0 <= k < h.inflight.len() ==> (#[trigger] h.inflight[k]).0 <= h.next_ref,
        forall|k: int, l: int|
            0 <= k < l < h.inflight.len() ==> (#[trigger] h.inflight[k]).0 != (
            #[trigger] h.inflight[l]).0,
        !h.socket ==> h.inflight.len() == 0 && h.pending_heartbeat is None && h.resume is Idle,
        !h.socket ==> forall|j: int|
            #![trigger h.channels[j]]
            0 <= j < h.channels.len() && j != i ==> grounded(h.channels[j]),
        !h.socket && !h.closed && (exists|j: int|
            #![trigger h.channels[j]]
            0 <= j < h.channels.len() && j != i && h.channels[j].wants_join) ==> h.connecting
            || h.reconnect_scheduled,
    ensures
        sound(hub::unseat(h, i)),
{
    let after = hub::unseat(h, i);
    assert forall|j: int| 0 <= j < after.channels.len() implies (#[trigger] after.channels[j])
        == h.channels[if j < i {
        j
    } else {
        j + 1
    }] by {}
    if hub::wanted(after.channels) {
        let j = choose|j: int|
            0 <= j < after.channels.len() && (#[trigger] after.channels[j]).wants_join;
        let k = if j < i {
            j
        } else {
            j + 1
        };
        assert(h.channels[k].wants_join);
    }
    assert forall|a: int, b: int| 0 <= a < b < after.channels.len() implies (
    #[trigger] after.channels[a]).topic != (#[trigger] after.channels[b]).topic by {
        let x = if a < i {
            a
        } else {
            a + 1
        };
        let y = if b < i {
            b
        } else {
            b + 1
        };
        assert(h.channels[x].topic != h.channels[y].topic);
    }
}

/// Leaving a channel keeps the state sound.
pub proof fn leave_keeps(h: Hub, topic: Chars, generation: u64)
    requires
        sound(h),
        roomy(h),
        h.resume is Idle,
    ensures
        sound(hub::leave(h, topic, generation)),
{
    find_meaning(h.channels, topic);
    if let Some(i) = hub::live(h, topic, generation) {
        let seat = h.channels[i];
        let leaving = hub::reseat(
            h,
            i,
            Seat {
                wants_join: false,
                suppress_close: true,
                status: ChannelStatus::Leaving,
                ..seat
            },
        );
        if seat.join_ref is Some && h.socket {
            let after = hub::leave(h, topic, generation);
            let r = hub::bumped(h.next_ref);
            absent(h, r);
            let entry = (r, Waiting::Leave { topic, generation });
            assert(after.inflight == h.inflight.push(entry));
            assert forall|j: int| 0 <= j < after.channels.len() implies accounted(
                after.inflight,
                #[trigger] after.channels[j],
            ) by {
                let now = after.channels[j];
                assert(accounted(h.inflight, h.channels[j]));
                if now.status == ChannelStatus::Joining {
                    push_keeps(
                        h.inflight,
                        entry,
                        Waiting::Join {
                            topic: now.topic,
                            generation: now.generation,
                            attempt: now.attempt,
                        },
                    );
                }
                if now.status == ChannelStatus::Leaving {
                    push_keeps(
                        h.inflight,
                        entry,
                        Waiting::Leave { topic: now.topic, generation: now.generation },
                    );
                }
            }
            assert forall|j: int|
                0 <= j < after.channels.len() && after.socket && (
                #[trigger] after.channels[j]).wants_join && after.channels[j].status
                    == ChannelStatus::Closed implies due(after, after.channels[j]) by {
                assert(due(h, h.channels[j]));
            }
        } else {
            assert forall|j: int|
                #![trigger leaving.channels[j]]
                0 <= j < leaving.channels.len() && j != i implies leaving.channels[j]
                == h.channels[j] by {}
            if exists|j: int|
                #![trigger leaving.channels[j]]
                0 <= j < leaving.channels.len() && j != i && leaving.channels[j].wants_join {
                let j = choose|j: int|
                    #![trigger leaving.channels[j]]
                    0 <= j < leaving.channels.len() && j != i && leaving.channels[j].wants_join;
                assert(h.channels[j].wants_join);
            }
            assert forall|a: int, b: int| 0 <= a < b < leaving.channels.len() implies (
            #[trigger] leaving.channels[a]).topic != (#[trigger] leaving.channels[b]).topic by {
                assert(h.channels[a].topic != h.channels[b].topic);
            }
            assert forall|j: int|
                #![trigger leaving.channels[j]]
                0 <= j < leaving.channels.len() && j != i && leaving.socket
                    && leaving.channels[j].wants_join && leaving.channels[j].status
                    == ChannelStatus::Closed implies due(leaving, leaving.channels[j]) by {
                assert(due(h, h.channels[j]));
            }
            unseating_keeps(leaving, i);
        }
    }
}

/// Registering a topic keeps the state sound.
pub proof fn attach_keeps(h: Hub, topic: Chars, params: Json, ticket: u64)
    requires
        sound(h),
        h.resume is Idle,
    ensures
        sound(hub::attach(h, topic, params, ticket)),
{
    find_meaning(h.channels, topic);
    let after = hub::attach(h, topic, params, ticket);
    let i = hub::find(h.channels, topic) as int;
    assert forall|j: int| 0 <= j < after.channels.len() implies accounted(
        after.inflight,
        #[trigger] after.channels[j],
    ) by {
        if j != i {
            assert(accounted(h.inflight, h.channels[j]));
        }
    }
    assert forall|j: int|
        0 <= j < after.channels.len() && after.socket && (#[trigger] after.channels[j]).wants_join
            && after.channels[j].status == ChannelStatus::Closed implies due(
        after,
        after.channels[j],
    ) by {
        assert(j != i);
        assert(due(h, h.channels[j]));
    }
    if hub::wanted(after.channels) {
        let j = choose|j: int|
            0 <= j < after.channels.len() && (#[trigger] after.channels[j]).wants_join;
        assert(h.channels[j].wants_join);
    }
    assert forall|a: int, b: int| 0 <= a < b < after.channels.len() implies (
    #[trigger] after.channels[a]).topic != (#[trigger] after.channels[b]).topic by {
        if a < h.channels.len() && b < h.channels.len() {
            assert(h.channels[a].topic != h.channels[b].topic);
        }
    }
    assert forall|j: int| 0 <= j < after.channels.len() && !after.socket implies grounded(
        #[trigger] after.channels[j],
    ) by {
        if j != i {
            assert(grounded(h.channels[j]));
        }
    }
}

/// Pushing keeps the state sound.
pub proof fn push_keeps_sound(
    h: Hub,
    topic: Chars,
    generation: u64,
    event: Chars,
    payload: Cargo,
    ticket: u64,
)
    requires
        sound(h),
        roomy(h),
        h.resume is Idle,
    ensures
        sound(hub::push(h, topic, generation, event, payload, ticket)),
{
    find_meaning(h.channels, topic);
    let after = hub::push(h, topic, generation, event, payload, ticket);
    let r = hub::bumped(h.next_ref);
    absent(h, r);
    assert(after.channels == h.channels);
    assert forall|j: int| 0 <= j < after.channels.len() implies accounted(
        after.inflight,
        #[trigger] after.channels[j],
    ) by {
        let now = after.channels[j];
        assert(accounted(h.inflight, h.channels[j]));
        if after.inflight != h.inflight {
            let entry = (r, Waiting::Push { ticket });
            assert(after.inflight == h.inflight.push(entry));
            if now.status == ChannelStatus::Joining {
                push_keeps(
                    h.inflight,
                    entry,
                    Waiting::Join {
                        topic: now.topic,
                        generation: now.generation,
                        attempt: now.attempt,
                    },
                );
            }
            if now.status == ChannelStatus::Leaving {
                push_keeps(
                    h.inflight,
                    entry,
                    Waiting::Leave { topic: now.topic, generation: now.generation },
                );
            }
        }
    }
    assert forall|j: int|
        0 <= j < after.channels.len() && after.socket && (#[trigger] after.channels[j]).wants_join
            && after.channels[j].status == ChannelStatus::Closed implies due(
        after,
        after.channels[j],
    ) by {
        assert(due(h, h.channels[j]));
    }
}

/// A heartbeat that comes due keeps the state sound.
pub proof fn heartbeat_keeps(h: Hub, connection: u64, seed: u64)
    requires
        sound(h),
        roomy(h),
        h.resume is Idle,
    ensures
        sound(hub::heartbeat_tick(h, connection, seed)),
{
    if h.socket && h.connection == connection {
        if h.pending_heartbeat is Some {
            dropping_keeps(h, ChannelErrorReason::HeartbeatTimeout);
            reconnecting_keeps(hub::drop_socket(h, ChannelErrorReason::HeartbeatTimeout), seed);
        } else {
            let after = hub::heartbeat_tick(h, connection, seed);
            assert(after.channels == h.channels);
            assert forall|j: int| 0 <= j < after.channels.len() implies accounted(
                after.inflight,
                #[trigger] after.channels[j],
            ) by {
                assert(accounted(h.inflight, h.channels[j]));
            }
            assert forall|j: int|
                0 <= j < after.channels.len() && after.socket && (
                #[trigger] after.channels[j]).wants_join && after.channels[j].status
                    == ChannelStatus::Closed implies due(after, after.channels[j]) by {
                assert(due(h, h.channels[j]));
            }
        }
    }
}

/// A state that is sound but for one thing no longer waited for.
spec fn landed(h: Hub, waiting: Waiting) -> bool {
    &&& forall|i: int, j: int|
        0 <= i < j < h.channels.len() ==> (#[trigger] h.channels[i]).topic != (
        #[trigger] h.channels[j]).topic
    &&& h.socket
    &&& h.status == SocketStatus::Connected
    &&& !h.closed
    &&& !h.connecting
    &&& h.resume is Idle
    &&& h.next_ref < u64::MAX
    &&& forall|k: int| 0 <= k < h.inflight.len() ==> (#[trigger] h.inflight[k]).0 <= h.next_ref
    &&& forall|k: int, l: int|
        0 <= k < l < h.inflight.len() ==> (#[trigger] h.inflight[k]).0 != (
        #[trigger] h.inflight[l]).0
    &&& forall|i: int|
        0 <= i < h.channels.len() ==> accounted(h.inflight, #[trigger] h.channels[i]) || (
        waiting == (Waiting::Join {
            topic: h.channels[i].topic,
            generation: h.channels[i].generation,
            attempt: h.channels[i].attempt,
        }) && h.channels[i].status == ChannelStatus::Joining) || (waiting == (Waiting::Leave {
            topic: h.channels[i].topic,
            generation: h.channels[i].generation,
        }) && h.channels[i].status == ChannelStatus::Leaving)
    &&& forall|i: int|
        0 <= i < h.channels.len() && (#[trigger] h.channels[i]).wants_join && h.channels[i].status
            == ChannelStatus::Closed ==> due(h, h.channels[i])
}

proof fn landing(h: Hub, r: u64)
    requires
        sound(h),
        roomy(h),
        h.resume is Idle,
        hub::position(h.inflight, r) < h.inflight.len(),
    ensures
        landed(
            Hub { inflight: hub::without(h.inflight, r), ..h },
            h.inflight[hub::position(h.inflight, r) as int].1,
        ),
{
    position_meaning(h.inflight, r);
    let at = hub::position(h.inflight, r) as int;
    let waiting = h.inflight[at].1;
    let after = Hub { inflight: hub::without(h.inflight, r), ..h };
    assert forall|k: int| 0 <= k < after.inflight.len() implies (#[trigger] after.inflight[k])
        == h.inflight[if k < at {
        k
    } else {
        k + 1
    }] by {}
    assert forall|i: int| 0 <= i < after.channels.len() implies accounted(
        after.inflight,
        #[trigger] after.channels[i],
    ) || (waiting == (Waiting::Join {
        topic: after.channels[i].topic,
        generation: after.channels[i].generation,
        attempt: after.channels[i].attempt,
    }) && after.channels[i].status == ChannelStatus::Joining) || (waiting == (Waiting::Leave {
        topic: after.channels[i].topic,
        generation: after.channels[i].generation,
    }) && after.channels[i].status == ChannelStatus::Leaving) by {
        let seat = h.channels[i];
        assert(accounted(h.inflight, seat));
        let join = Waiting::Join {
            topic: seat.topic,
            generation: seat.generation,
            attempt: seat.attempt,
        };
        let leave = Waiting::Leave { topic: seat.topic, generation: seat.generation };
        if seat.status == ChannelStatus::Joining && waiting != join {
            landing_keeps(h.inflight, r, join);
        }
        if seat.status == ChannelStatus::Leaving && waiting != leave {
            landing_keeps(h.inflight, r, leave);
        }
    }
    assert forall|i: int|
        0 <= i < after.channels.len() && (#[trigger] after.channels[i]).wants_join
            && after.channels[i].status == ChannelStatus::Closed implies due(
        after,
        after.channels[i],
    ) by {
        assert(due(h, h.channels[i]));
    }
}

/// The entry a landed wait speaks of is the one the registry finds.
proof fn landed_entry(h: Hub, waiting: Waiting, i: int)
    requires
        landed(h, waiting),
        0 <= i < h.channels.len(),
    ensures
        hub::find(h.channels, h.channels[i].topic) == i,
{
    find_meaning(h.channels, h.channels[i].topic);
    let k = hub::find(h.channels, h.channels[i].topic) as int;
    if k < i {
        assert(h.channels[k].topic != h.channels[i].topic);
    }
}

/// Where no entry waits for what landed, nothing was lost.
proof fn unmissed(h: Hub, waiting: Waiting)
    requires
        landed(h, waiting),
        forall|i: int|
            0 <= i < h.channels.len() ==> accounted(h.inflight, #[trigger] h.channels[i]),
    ensures
        sound(h),
{
}

proof fn removal_keeps(h: Hub, topic: Chars, generation: u64)
    requires
        landed(h, Waiting::Leave { topic, generation }),
    ensures
        sound(hub::remove_if_live(h, topic, generation)),
{
    let waiting = Waiting::Leave { topic, generation };
    find_meaning(h.channels, topic);
    match hub::live(h, topic, generation) {
        Some(i) => {
            assert forall|j: int|
                #![trigger h.channels[j]]
                0 <= j < h.channels.len() && j != i implies accounted(h.inflight, h.channels[j]) by {
                if j < i {
                    assert(h.channels[j].topic != h.channels[i].topic);
                } else {
                    assert(h.channels[i].topic != h.channels[j].topic);
                }
            }
            unseating_keeps(h, i);
        },
        None => {
            assert forall|j: int| 0 <= j < h.channels.len() implies accounted(
                h.inflight,
                #[trigger] h.channels[j],
            ) by {
                landed_entry(h, waiting, j);
            }
            unmissed(h, waiting);
        },
    }
}

/// A channel that is closed and due to be rejoined leaves the state sound.
proof fn closing_keeps(h: Hub, waiting: Waiting, i: int, seat: Seat)
    requires
        landed(h, waiting),
        0 <= i < h.channels.len(),
        seat.topic == h.channels[i].topic,
        seat.generation == h.channels[i].generation,
        seat.status == ChannelStatus::Closed,
        forall|j: int|
            #![trigger h.channels[j]]
            0 <= j < h.channels.len() && j != i ==> accounted(h.inflight, h.channels[j]),
    ensures
        sound(
            Hub {
                resume: Resume::Rejoin { topic: seat.topic, generation: seat.generation },
                ..hub::reseat(h, i, seat)
            },
        ),
{
    let after = Hub {
        resume: Resume::Rejoin { topic: seat.topic, generation: seat.generation },
        ..hub::reseat(h, i, seat)
    };
    assert forall|j: int| 0 <= j < after.channels.len() implies accounted(
        after.inflight,
        #[trigger] after.channels[j],
    ) by {
        if j != i {
            assert(after.channels[j] == h.channels[j]);
        }
    }
    assert forall|j: int|
        0 <= j < after.channels.len() && after.socket && (#[trigger] after.channels[j]).wants_join
            && after.channels[j].status == ChannelStatus::Closed implies due(
        after,
        after.channels[j],
    ) by {
        if j != i {
            assert(after.channels[j] == h.channels[j]);
            assert(due(h, h.channels[j]));
        }
    }
    assert forall|a: int, b: int| 0 <= a < b < after.channels.len() implies (
    #[trigger] after.channels[a]).topic != (#[trigger] after.channels[b]).topic by {
        assert(h.channels[a].topic != h.channels[b].topic);
    }
}

/// What is asked of the outside is no part of what makes a state sound.
proof fn out_is_apart(a: Hub, b: Hub)
    requires
        sound(a),
        b == (Hub { out: b.out, ..a }),
    ensures
        sound(b),
{
    assert forall|j: int| 0 <= j < b.channels.len() implies accounted(
        b.inflight,
        #[trigger] b.channels[j],
    ) by {
        assert(accounted(a.inflight, a.channels[j]));
    }
    assert forall|j: int|
        0 <= j < b.channels.len() && b.socket && (#[trigger] b.channels[j]).wants_join
            && b.channels[j].status == ChannelStatus::Closed implies due(b, b.channels[j]) by {
        assert(due(a, a.channels[j]));
    }
}

proof fn others_accounted(h: Hub, topic: Chars, generation: u64, attempt: u64, i: int)
    requires
        landed(h, Waiting::Join { topic, generation, attempt }),
        hub::joining(h, topic, generation, attempt) == Some(i),
    ensures
        0 <= i < h.channels.len(),
        h.channels[i].topic == topic,
        h.channels[i].generation == generation,
        forall|j: int|
            #![trigger h.channels[j]]
            0 <= j < h.channels.len() && j != i ==> accounted(h.inflight, h.channels[j]),
{
    find_meaning(h.channels, topic);
    assert forall|j: int|
        #![trigger h.channels[j]]
        0 <= j < h.channels.len() && j != i implies accounted(h.inflight, h.channels[j]) by {
        if j < i {
            assert(h.channels[j].topic != h.channels[i].topic);
        } else {
            assert(h.channels[i].topic != h.channels[j].topic);
        }
    }
}

proof fn none_waited(h: Hub, topic: Chars, generation: u64, attempt: u64)
    requires
        landed(h, Waiting::Join { topic, generation, attempt }),
        hub::joining(h, topic, generation, attempt) is None,
    ensures
        sound(h),
{
    let waiting = Waiting::Join { topic, generation, attempt };
    assert forall|j: int| 0 <= j < h.channels.len() implies accounted(
        h.inflight,
        #[trigger] h.channels[j],
    ) by {
        landed_entry(h, waiting, j);
    }
    unmissed(h, waiting);
}

/// Closing a channel, reporting it and scheduling its rejoin keeps the state
/// sound.
proof fn close_and_rejoin(h: Hub, waiting: Waiting, i: int, seat: Seat, news: News, seed: u64)
    requires
        landed(h, waiting),
        0 <= i < h.channels.len(),
        seat.topic == h.channels[i].topic,
        seat.generation == h.channels[i].generation,
        seat.status == ChannelStatus::Closed,
        forall|j: int|
            #![trigger h.channels[j]]
            0 <= j < h.channels.len() && j != i ==> accounted(h.inflight, h.channels[j]),
    ensures
        sound(
            hub::schedule_rejoin(
                hub::emit(hub::reseat(h, i, seat), i, news),
                seat.topic,
                seat.generation,
                seed,
            ),
        ),
{
    closing_keeps(h, waiting, i, seat);
    let told = hub::emit(hub::reseat(h, i, seat), i, news);
    let resume = Resume::Rejoin { topic: seat.topic, generation: seat.generation };
    out_is_apart(
        Hub { resume, ..hub::reseat(h, i, seat) },
        Hub { resume, ..told },
    );
    rejoin_scheduling_keeps(told, seat.topic, seat.generation, seed);
}

proof fn abandoning_keeps(h: Hub, waiting: Waiting, why: Failure, seed: u64)
    requires
        landed(h, waiting),
    ensures
        sound(hub::abandon(h, waiting, why, seed)),
{
    match waiting {
        Waiting::Push { ticket } => {
            unmissed(h, waiting);
            out_is_apart(h, hub::abandon(h, waiting, why, seed));
        },
        Waiting::Join { topic, generation, attempt } => {
            match hub::joining(h, topic, generation, attempt) {
                Some(i) => {
                    others_accounted(h, topic, generation, attempt, i);
                    let held = h.channels[i];
                    let seat = Seat { status: ChannelStatus::Closed, join_ref: None, ..held };
                    let told = hub::emit(hub::reseat(h, i, seat), i, News::JoinTimeout);
                    if held.join_ref is None {
                        close_and_rejoin(h, waiting, i, seat, News::JoinTimeout, seed);
                    } else {
                        closing_keeps(h, waiting, i, seat);
                        let after = hub::abandon(h, waiting, why, seed);
                        let before = Hub {
                            resume: Resume::Rejoin { topic, generation },
                            ..hub::reseat(h, i, seat)
                        };
                        let counted = Hub { next_ref: after.next_ref, ..before };
                        assert(sound(counted)) by {
                            assert forall|j: int| 0 <= j < counted.channels.len() implies accounted(
                                counted.inflight,
                                #[trigger] counted.channels[j],
                            ) by {
                                assert(accounted(before.inflight, before.channels[j]));
                            }
                            assert forall|j: int|
                                0 <= j < counted.channels.len() && counted.socket && (
                                #[trigger] counted.channels[j]).wants_join
                                    && counted.channels[j].status
                                    == ChannelStatus::Closed implies due(
                                counted,
                                counted.channels[j],
                            ) by {
                                assert(due(before, before.channels[j]));
                            }
                        }
                        out_is_apart(counted, after);
                    }
                },
                None => {
                    none_waited(h, topic, generation, attempt);
                },
            }
        },
        Waiting::Leave { topic, generation } => {
            removal_keeps(h, topic, generation);
        },
    }
}

/// A ref that goes unanswered keeps the state sound.
pub proof fn timeout_keeps(h: Hub, r: u64, seed: u64)
    requires
        sound(h),
        roomy(h),
        h.resume is Idle,
    ensures
        sound(hub::timeout(h, r, seed)),
{
    if hub::position(h.inflight, r) < h.inflight.len() {
        landing(h, r);
        abandoning_keeps(
            Hub { inflight: hub::without(h.inflight, r), ..h },
            h.inflight[hub::position(h.inflight, r) as int].1,
            Failure::Timeout,
            seed,
        );
    }
}

proof fn replying_keeps(
    h: Hub,
    topic: Chars,
    generation: u64,
    attempt: u64,
    reply: Answer,
    seed: u64,
)
    requires
        landed(h, Waiting::Join { topic, generation, attempt }),
    ensures
        sound(hub::join_replied(h, topic, generation, attempt, reply, seed)),
{
    let waiting = Waiting::Join { topic, generation, attempt };
    match hub::joining(h, topic, generation, attempt) {
        Some(i) => {
            others_accounted(h, topic, generation, attempt, i);
            let held = h.channels[i];
            match reply.status {
                ReplyStatus::Okay => {
                    let seat = Seat { status: ChannelStatus::Joined, taken: 0, ..held };
                    let after = hub::reseat(h, i, seat);
                    assert forall|j: int| 0 <= j < after.channels.len() implies accounted(
                        after.inflight,
                        #[trigger] after.channels[j],
                    ) by {
                        if j != i {
                            assert(after.channels[j] == h.channels[j]);
                        }
                    }
                    assert forall|j: int|
                        0 <= j < after.channels.len() && after.socket && (
                        #[trigger] after.channels[j]).wants_join && after.channels[j].status
                            == ChannelStatus::Closed implies due(after, after.channels[j]) by {
                        assert(after.channels[j] == h.channels[j]);
                        assert(due(h, h.channels[j]));
                    }
                    assert forall|a: int, b: int| 0 <= a < b < after.channels.len() implies (
                    #[trigger] after.channels[a]).topic != (
                    #[trigger] after.channels[b]).topic by {
                        assert(h.channels[a].topic != h.channels[b].topic);
                    }
                    assert(sound(after));
                    out_is_apart(
                        after,
                        hub::join_replied(h, topic, generation, attempt, reply, seed),
                    );
                },
                ReplyStatus::Error => {
                    let seat = Seat { status: ChannelStatus::Closed, ..held };
                    close_and_rejoin(
                        h,
                        waiting,
                        i,
                        seat,
                        News::JoinError { response: reply.response },
                        seed,
                    );
                },
            }
        },
        None => {
            none_waited(h, topic, generation, attempt);
        },
    }
}

proof fn reply_keeps(h: Hub, letter: Letter, seed: u64)
    requires
        sound(h),
        roomy(h),
        h.resume is Idle,
    ensures
        sound(hub::handle_reply(h, letter, seed)),
{
    let named = match letter.msg_ref {
        Some(text) => crate::phoenix::decimal::meaning(text),
        None => None,
    };
    if let Some(r) = named {
        if h.pending_heartbeat == Some(r) {
            let after = Hub { pending_heartbeat: None, ..h };
            assert forall|j: int| 0 <= j < after.channels.len() implies accounted(
                after.inflight,
                #[trigger] after.channels[j],
            ) by {
                assert(accounted(h.inflight, h.channels[j]));
            }
            assert forall|j: int|
                0 <= j < after.channels.len() && after.socket && (
                #[trigger] after.channels[j]).wants_join && after.channels[j].status
                    == ChannelStatus::Closed implies due(after, after.channels[j]) by {
                assert(due(h, h.channels[j]));
            }
        } else if hub::position(h.inflight, r) < h.inflight.len() {
            landing(h, r);
            let left = Hub { inflight: hub::without(h.inflight, r), ..h };
            let waiting = h.inflight[hub::position(h.inflight, r) as int].1;
            match frame::reply_of(letter.payload) {
                Some(reply) => match waiting {
                    Waiting::Push { ticket } => {
                        unmissed(left, waiting);
                        out_is_apart(left, hub::handle_reply(h, letter, seed));
                    },
                    Waiting::Join { topic, generation, attempt } => {
                        replying_keeps(left, topic, generation, attempt, reply, seed);
                    },
                    Waiting::Leave { topic, generation } => {
                        removal_keeps(left, topic, generation);
                    },
                },
                None => {
                    abandoning_keeps(left, waiting, Failure::MalformedReply, seed);
                },
            }
        }
    }
}

/// A message that arrives keeps the state sound.
pub proof fn receive_keeps(h: Hub, letter: Letter, seed: u64)
    requires
        sound(h),
        roomy(h),
        h.resume is Idle,
        h.socket,
    ensures
        sound(hub::receive(h, letter, seed)),
{
    if letter.event == EVENT_REPLY@ {
        reply_keeps(h, letter, seed);
    } else {
        find_meaning(h.channels, letter.topic);
        let i = hub::find(h.channels, letter.topic) as int;
        if i < h.channels.len() {
            let held = h.channels[i];
            // Nothing landed: any push that is not there will do.
            let waiting = Waiting::Push { ticket: 0 };
            assert(landed(h, waiting)) by {
                assert forall|j: int|
                    0 <= j < h.channels.len() && (#[trigger] h.channels[j]).wants_join
                        && h.channels[j].status == ChannelStatus::Closed implies due(
                    h,
                    h.channels[j],
                ) by {}
            }
            let seat = Seat { status: ChannelStatus::Closed, join_ref: None, ..held };
            if letter.join_ref is Some && letter.join_ref != held.join_ref {
            } else if letter.event == EVENT_CLOSE@ {
                if held.suppress_close {
                    unseating_keeps(h, i);
                } else {
                    close_and_rejoin(h, waiting, i, seat, News::Close, seed);
                }
            } else if letter.event == EVENT_ERROR@ {
                close_and_rejoin(
                    h,
                    waiting,
                    i,
                    seat,
                    News::Error { reason: ChannelErrorReason::Server },
                    seed,
                );
            } else {
                out_is_apart(h, hub::receive(h, letter, seed));
            }
        }
    }
}

/// Disconnecting keeps the state sound.
pub proof fn disconnect_keeps(h: Hub, ticket: u64)
    requires
        sound(h),
        h.resume is Idle,
    ensures
        sound(hub::disconnect(h, ticket)),
        hub::disconnect(h, ticket).closed,
        hub::disconnect(h, ticket).channels.len() == 0,
{
}

/// The states that are sound stay so, whatever is asked: one entry per topic, no
/// ref in flight twice, nothing in flight without a socket, no join waited for
/// in vain, and no channel that wants to be joined forgotten. A task starts in
/// such a state. An attempt to connect is reported over only while one is made.
pub proof fn always_sound(h: Hub, call: Call, seed: u64)
    requires
        sound(h),
        roomy(h),
        h.resume is Idle,
        call is Connected ==> h.connecting,
    ensures
        sound(hub::handle(h, call, seed)),
        sound(hub::fresh()),
{
    match call {
        Call::Attach { topic, params, ticket } => attach_keeps(h, topic, params, ticket),
        Call::Join { topic, generation } => join_keeps(h, topic, generation),
        Call::Leave { topic, generation } => leave_keeps(h, topic, generation),
        Call::Push { topic, generation, event, payload, ticket } => push_keeps_sound(
            h,
            topic,
            generation,
            event,
            payload,
            ticket,
        ),
        Call::Rejoin { topic, generation, attempt } => rejoin_keeps(
            h,
            topic,
            generation,
            attempt,
        ),
        Call::Connected { opened } => connected_keeps(h, opened, seed),
        Call::Reconnect => {
            let after = hub::handle(h, call, seed);
            assert(after.channels == h.channels);
            assert forall|j: int| 0 <= j < after.channels.len() implies accounted(
                after.inflight,
                #[trigger] after.channels[j],
            ) by {
                assert(accounted(h.inflight, h.channels[j]));
            }
            assert forall|j: int|
                0 <= j < after.channels.len() && after.socket && (
                #[trigger] after.channels[j]).wants_join && after.channels[j].status
                    == ChannelStatus::Closed implies due(after, after.channels[j]) by {
                assert(due(h, h.channels[j]));
            }
        },
        Call::HeartbeatTick { connection } => heartbeat_keeps(h, connection, seed),
        Call::Timeout { msg_ref } => timeout_keeps(h, msg_ref, seed),
        Call::Disconnect { ticket } => disconnect_keeps(h, ticket),
    }
}

/// The state once every write in progress has been delivered, up to `n` of them.
pub open spec fn all_written(h: Hub, n: nat, seed: u64) -> Hub
    decreases n,
{
    if h.resume is Idle || n == 0 {
        h
    } else {
        all_written(hub::written(h, true, seed), (n - 1) as nat, seed)
    }
}

proof fn joins_drain(h: Hub, list: Seq<(Chars, u64)>, n: nat, seed: u64)
    requires
        h.socket,
        h.resume is Idle,
        n >= list.len(),
        forall|i: int, j: int|
            0 <= i < j < h.channels.len() ==> (#[trigger] h.channels[i]).topic != (
            #[trigger] h.channels[j]).topic,
    ensures
        ({
            let end = all_written(hub::join_all(h, list), n, seed);
            &&& end.resume is Idle
            &&& end.channels.len() == h.channels.len()
            &&& forall|i: int|
                0 <= i < h.channels.len() && (h.channels[i].status == ChannelStatus::Joining || (
                h.channels[i].status == ChannelStatus::Closed && list.contains(
                    (h.channels[i].topic, h.channels[i].generation),
                ))) ==> (#[trigger] end.channels[i]).status == ChannelStatus::Joining
                    && end.channels[i].topic == h.channels[i].topic && end.channels[i].generation
                    == h.channels[i].generation
        }),
    decreases list.len(),
{
    if list.len() > 0 {
        let rest = list.drop_first();
        let (topic, generation) = list[0];
        let sent = hub::send_join(h, topic, generation, Resume::Joins(rest));
        let idle = Hub { resume: Resume::Idle, ..sent };
        find_meaning(h.channels, topic);
        let at = hub::find(h.channels, topic) as int;
        assert forall|i: int, j: int| 0 <= i < j < idle.channels.len() implies (
        #[trigger] idle.channels[i]).topic != (#[trigger] idle.channels[j]).topic by {
            assert(h.channels[i].topic != h.channels[j].topic);
        }
        if sent.resume is Idle {
            assert(idle == sent);
            joins_drain(sent, rest, n, seed);
            assert(hub::join_all(h, list) == hub::join_all(sent, rest));
        } else {
            joins_drain(idle, rest, (n - 1) as nat, seed);
            assert(hub::written(sent, true, seed) == hub::join_all(idle, rest));
            assert(hub::join_all(h, list) == sent);
        }
        let end = all_written(hub::join_all(h, list), n, seed);
        assert forall|i: int|
            0 <= i < h.channels.len() && (h.channels[i].status == ChannelStatus::Joining || (
            h.channels[i].status == ChannelStatus::Closed && list.contains(
                (h.channels[i].topic, h.channels[i].generation),
            ))) implies (#[trigger] end.channels[i]).status == ChannelStatus::Joining
            && end.channels[i].topic == h.channels[i].topic && end.channels[i].generation
            == h.channels[i].generation by {
            let pair = (h.channels[i].topic, h.channels[i].generation);
            assert(idle.channels[i].topic == h.channels[i].topic);
            assert(idle.channels[i].generation == h.channels[i].generation);
            if h.channels[i].status == ChannelStatus::Closed {
                if pair == (topic, generation) {
                    if at < i {
                        assert(h.channels[at].topic != h.channels[i].topic);
                    }
                    assert(at == i);
                    assert(hub::live(h, topic, generation) == Some(i));
                    assert(idle.channels[i].status == ChannelStatus::Joining);
                } else {
                    let k = choose|k: int| 0 <= k < list.len() && list[k] == pair;
                    assert(rest[k - 1] == pair);
                    assert(rest.contains(pair));
                }
            }
        }
    }
}

/// A new connection rejoins everything: once the joins have been written, every
/// channel that wants to be joined is being joined.
pub proof fn reconnecting_rejoins_everything(h: Hub, i: int, seed: u64)
    requires
        sound(h),
        h.connecting,
        !h.closed,
        0 <= i < h.channels.len(),
        h.channels[i].wants_join,
    ensures
        ({
            let end = all_written(hub::connected(h, true, seed), h.channels.len(), seed);
            &&& end.resume is Idle
            &&& end.channels[i].topic == h.channels[i].topic
            &&& end.channels[i].generation == h.channels[i].generation
            &&& end.channels[i].status == ChannelStatus::Joining
        }),
{
    let open = hub::set_status(
        hub::arm_heartbeat(
            Hub {
                socket: true,
                connection: hub::bumped(h.connection),
                taken: 0,
                connecting: false,
                ..h
            },
        ),
        SocketStatus::Connected,
    );
    let list = hub::wanting(h.channels);
    wanting_short(h.channels);
    wanting_lists(h.channels, i);
    assert(grounded(h.channels[i]));
    joins_drain(open, list, h.channels.len(), seed);
    assert(open.channels[i] == h.channels[i]);
}

/// Whether `b` only adds to what `a` asks of the outside, and adds nothing that
/// opens, writes to or waits for a socket.
pub open spec fn inert(a: Seq<Deed>, b: Seq<Deed>) -> bool {
    &&& a.len() <= b.len()
    &&& forall|k: int| 0 <= k < a.len() ==> b[k] == #[trigger] a[k]
    &&& forall|k: int|
        a.len() <= k < b.len() ==> !((#[trigger] b[k]) is Send || b[k] is Connect || b[k] is Sleep)
}

proof fn parting_inert(channels: Seq<Seat>, reason: ChannelErrorReason)
    ensures
        inert(Seq::empty(), hub::parting(channels, reason)),
    decreases channels.len(),
{
    if channels.len() > 0 {
        parting_inert(channels.drop_last(), reason);
    }
}

proof fn to_wanting_inert(channels: Seq<Seat>, news: News)
    ensures
        inert(Seq::empty(), hub::to_wanting(channels, news)),
    decreases channels.len(),
{
    if channels.len() > 0 {
        to_wanting_inert(channels.drop_last(), news);
    }
}

proof fn failed_inert(inflight: Seq<(u64, Waiting)>)
    ensures
        inert(Seq::empty(), hub::failed(inflight)),
    decreases inflight.len(),
{
    if inflight.len() > 0 {
        failed_inert(inflight.drop_last());
    }
}

/// A socket that was disconnected is closed for good: whatever is asked of it, it
/// stays closed, opens nothing, writes nothing and waits for nothing.
pub proof fn closed_for_good(h: Hub, call: Call, seed: u64)
    requires
        sound(h),
        h.closed,
    ensures
        hub::handle(h, call, seed).closed,
        !hub::handle(h, call, seed).socket,
        hub::handle(h, call, seed).status == SocketStatus::Closed,
        inert(h.out, hub::handle(h, call, seed).out),
{
    let after = hub::handle(h, call, seed);
    match call {
        Call::Attach { topic, .. } => find_meaning(h.channels, topic),
        Call::Join { topic, .. } => find_meaning(h.channels, topic),
        Call::Leave { topic, .. } => find_meaning(h.channels, topic),
        Call::Push { topic, .. } => find_meaning(h.channels, topic),
        Call::Rejoin { topic, .. } => find_meaning(h.channels, topic),
        Call::Connected { .. } => to_wanting_inert(
            h.channels,
            News::Error { reason: ChannelErrorReason::SocketClosed },
        ),
        Call::Disconnect { .. } => {
            parting_inert(h.channels, ChannelErrorReason::SocketClosed);
            failed_inert(h.inflight);
        },
        _ => {},
    }
}

/// A handle of a stale generation reaches nothing: its requests change nothing,
/// and its pushes are told so.
pub proof fn stale_handles_reach_nothing(
    h: Hub,
    topic: Chars,
    generation: u64,
    attempt: u64,
    event: Chars,
    payload: Cargo,
    ticket: u64,
)
    requires
        forall|i: int|
            0 <= i < h.channels.len() && (#[trigger] h.channels[i]).topic == topic
                ==> h.channels[i].generation != generation,
    ensures
        hub::join(h, topic, generation) == h,
        hub::leave(h, topic, generation) == h,
        hub::rejoin(h, topic, generation, attempt) == h,
        hub::push(h, topic, generation, event, payload, ticket) == hub::say(
            h,
            Deed::Answered { ticket, outcome: Err(Failure::Stale) },
        ),
{
    find_meaning(h.channels, topic);
}

/// Attaching a topic again invalidates every handle it had: the new generation
/// is the only one the registry knows, and the old channel's reports end.
pub proof fn attaching_supersedes(h: Hub, topic: Chars, params: Json, ticket: u64, i: int)
    requires
        sound(h),
        h.next_generation < u64::MAX,
        0 <= i < h.channels.len(),
        h.channels[i].topic == topic,
    ensures
        ({
            let after = hub::attach(h, topic, params, ticket);
            &&& forall|j: int|
                0 <= j < after.channels.len() && (#[trigger] after.channels[j]).topic == topic
                    ==> after.channels[j].generation == h.next_generation + 1
            &&& after.out == h.out.push(
                Deed::End { generation: h.channels[i].generation },
            ).push(Deed::Attached { ticket, generation: (h.next_generation + 1) as u64 })
        }),
{
    find_meaning(h.channels, topic);
    let at = hub::find(h.channels, topic) as int;
    if at < i {
        assert(h.channels[at].topic != h.channels[i].topic);
    }
    assert(at == i);
    let after = hub::attach(h, topic, params, ticket);
    assert forall|j: int|
        0 <= j < after.channels.len() && (#[trigger] after.channels[j]).topic == topic implies
        after.channels[j].generation == h.next_generation + 1 by {
        if j < i {
            assert(h.channels[j].topic != h.channels[i].topic);
        } else if i < j {
            assert(h.channels[i].topic != h.channels[j].topic);
        }
    }
}

/// A join attempt the channel has moved off is fenced: neither its reply nor its
/// timeout changes anything but that it is in flight no more.
pub proof fn superseded_attempts_are_fenced(
    h: Hub,
    topic: Chars,
    generation: u64,
    attempt: u64,
    reply: Answer,
    why: Failure,
    seed: u64,
)
    requires
        forall|i: int|
            0 <= i < h.channels.len() && (#[trigger] h.channels[i]).topic == topic
                && h.channels[i].generation == generation ==> h.channels[i].status
                != ChannelStatus::Joining || h.channels[i].attempt != attempt,
    ensures
        hub::join_replied(h, topic, generation, attempt, reply, seed) == h,
        hub::abandon(h, Waiting::Join { topic, generation, attempt }, why, seed) == h,
{
    find_meaning(h.channels, topic);
}

/// A second join is never stacked on a live one: a channel that is joining,
/// joined or leaving sends none.
pub proof fn joins_do_not_stack(h: Hub, topic: Chars, generation: u64, resume: Resume)
    requires
        forall|i: int|
            0 <= i < h.channels.len() && (#[trigger] h.channels[i]).topic == topic
                ==> h.channels[i].status != ChannelStatus::Closed,
    ensures
        hub::send_join(h, topic, generation, resume) == (Hub {
            next_ref: hub::bumped(h.next_ref),
            ..h
        }),
{
    find_meaning(h.channels, topic);
}

/// A deliberate leave suppresses the close that follows: the channel is dropped,
/// its reports end with nothing reported, and nothing is scheduled to rejoin it.
pub proof fn leaving_suppresses_the_close(
    h: Hub,
    topic: Chars,
    generation: u64,
    letter: Letter,
    seed: u64,
)
    requires
        sound(h),
        h.socket,
        hub::live(h, topic, generation) is Some,
        h.channels[hub::live(h, topic, generation)->0].join_ref is Some,
        letter.topic == topic,
        letter.event == EVENT_CLOSE@,
        letter.join_ref is None || letter.join_ref == h.channels[hub::live(
            h,
            topic,
            generation,
        )->0].join_ref,
    ensures
        ({
            let left = hub::leave(h, topic, generation);
            let after = hub::receive(left, letter, seed);
            &&& after.out == left.out.push(Deed::End { generation })
            &&& hub::live(after, topic, generation) is None
        }),
{
    reveal_strlit("phx_close");
    reveal_strlit("phx_reply");
    assert(EVENT_CLOSE@[4] == 'c');
    assert(EVENT_REPLY@[4] == 'r');
    find_meaning(h.channels, topic);
    let i = hub::live(h, topic, generation)->0;
    let left = hub::leave(h, topic, generation);
    assert(left.channels[i].topic == topic);
    find_meaning(left.channels, topic);
    let k = hub::find(left.channels, topic) as int;
    if k < i {
        assert(h.channels[k].topic != h.channels[i].topic);
    }
    assert(k == i);
    let after = hub::receive(left, letter, seed);
    find_meaning(after.channels, topic);
    let at = hub::find(after.channels, topic) as int;
    if at < after.channels.len() {
        let was = if at < i {
            at
        } else {
            at + 1
        };
        assert(after.channels[at] == left.channels[was]);
        assert(left.channels[was] == h.channels[was]);
        if was < i {
            assert(h.channels[was].topic != h.channels[i].topic);
        } else {
            assert(h.channels[i].topic != h.channels[was].topic);
        }
    }
}

/// How often a channel was told that it lost its footing, and why.
pub open spec fn times_told(out: Seq<Deed>, generation: u64, reason: ChannelErrorReason) -> nat
    decreases out.len(),
{
    if out.len() == 0 {
        0
    } else {
        times_told(out.drop_last(), generation, reason) + (if out.last() == (Deed::Emit {
            generation,
            news: News::Error { reason },
        }) {
            1nat
        } else {
            0nat
        })
    }
}

/// Losing the socket leaves nothing in flight, fails every push that was, and is
/// reported exactly once, with its reason, to every channel that wants to be
/// joined, whatever it was doing; a channel that was leaving is over. To no other
/// channel anything is reported. The channel is named by its generation.
pub proof fn losing_the_socket_is_reported(h: Hub, reason: ChannelErrorReason, i: int)
    requires
        0 <= i < h.channels.len(),
        forall|j: int|
            0 <= j < h.channels.len() && j != i ==> (#[trigger] h.channels[j]).generation
                != h.channels[i].generation,
    ensures
        ({
            let after = hub::drop_socket(h, reason);
            let seat = h.channels[i];
            let told = times_told(after.out, seat.generation, reason);
            let before = times_told(h.out, seat.generation, reason);
            &&& told == before + (if seat.wants_join && seat.status != ChannelStatus::Leaving {
                1nat
            } else {
                0nat
            })
            &&& seat.status == ChannelStatus::Leaving ==> after.out.contains(
                Deed::End { generation: seat.generation },
            )
            &&& forall|k: int|
                0 <= k < h.inflight.len() ==> ((#[trigger] h.inflight[k]).1 matches Waiting::Push {
                    ticket,
                } ==> after.out.contains(
                    Deed::Answered { ticket, outcome: Err(Failure::Disconnected) },
                ))
            &&& after.inflight.len() == 0
            &&& after.pending_heartbeat is None
            &&& !after.socket
        }),
{
    let after = hub::drop_socket(h, reason);
    let seat = h.channels[i];
    let g = seat.generation;
    let parting = hub::parting(h.channels, reason);
    let failed = hub::failed(h.inflight);
    let start = after.out.len() - parting.len();
    let lost = hub::report_lost(h);
    let hung = if lost.socket {
        hub::say(Hub { socket: false, ..lost }, Deed::HangUp)
    } else {
        lost
    };
    assert(times_told(hung.out, g, reason) == times_told(h.out, g, reason)) by {
        if lost.out != h.out {
            assert(lost.out.drop_last() =~= h.out);
        }
        if lost.socket {
            assert(hung.out.drop_last() =~= lost.out);
        }
    }
    told_both(hung.out, failed, g, reason);
    told_both(hung.out + failed, parting, g, reason);
    failed_tells_nobody(h.inflight, g, reason);
    parting_tells_once(h.channels, reason, i);
    if seat.status == ChannelStatus::Leaving {
        let at = parting_ends(h.channels, reason, i);
        assert(after.out[start + at] == parting[at]);
    }
    assert forall|k: int| 0 <= k < h.inflight.len() implies ((
    #[trigger] h.inflight[k]).1 matches Waiting::Push { ticket } ==> after.out.contains(
        Deed::Answered { ticket, outcome: Err(Failure::Disconnected) },
    )) by {
        if h.inflight[k].1 is Push {
            let at = failed_answers(h.inflight, k);
            assert(after.out[start - failed.len() + at] == failed[at]);
        }
    }
}

proof fn told_both(a: Seq<Deed>, b: Seq<Deed>, generation: u64, reason: ChannelErrorReason)
    ensures
        times_told(a + b, generation, reason) == times_told(a, generation, reason) + times_told(
            b,
            generation,
            reason,
        ),
    decreases b.len(),
{
    if b.len() == 0 {
        assert(a + b =~= a);
    } else {
        assert((a + b).drop_last() =~= a + b.drop_last());
        told_both(a, b.drop_last(), generation, reason);
    }
}

proof fn failed_tells_nobody(
    inflight: Seq<(u64, Waiting)>,
    generation: u64,
    reason: ChannelErrorReason,
)
    ensures
        times_told(hub::failed(inflight), generation, reason) == 0,
    decreases inflight.len(),
{
    if inflight.len() > 0 {
        failed_tells_nobody(inflight.drop_last(), generation, reason);
        let all = hub::failed(inflight);
        let rest = hub::failed(inflight.drop_last());
        if all != rest {
            assert(all.drop_last() =~= rest);
        }
    }
}

/// What is said at parting to channels of other generations.
proof fn parting_tells_others(channels: Seq<Seat>, reason: ChannelErrorReason, generation: u64)
    requires
        forall|j: int|
            0 <= j < channels.len() ==> (#[trigger] channels[j]).generation != generation,
    ensures
        times_told(hub::parting(channels, reason), generation, reason) == 0,
    decreases channels.len(),
{
    if channels.len() > 0 {
        let less = channels.drop_last();
        assert forall|j: int| 0 <= j < less.len() implies (#[trigger] less[j]).generation
            != generation by {
            assert(less[j] == channels[j]);
        }
        assert(channels[channels.len() - 1].generation != generation);
        parting_tells_others(less, reason, generation);
        let all = hub::parting(channels, reason);
        let rest = hub::parting(less, reason);
        if all != rest {
            assert(all.drop_last() =~= rest);
        }
    }
}

proof fn parting_tells_once(channels: Seq<Seat>, reason: ChannelErrorReason, i: int)
    requires
        0 <= i < channels.len(),
        forall|j: int|
            0 <= j < channels.len() && j != i ==> (#[trigger] channels[j]).generation
                != channels[i].generation,
    ensures
        times_told(hub::parting(channels, reason), channels[i].generation, reason) == (
        if channels[i].wants_join && channels[i].status != ChannelStatus::Leaving {
            1nat
        } else {
            0nat
        }),
    decreases channels.len(),
{
    let less = channels.drop_last();
    let last = channels.len() - 1;
    let all = hub::parting(channels, reason);
    let rest = hub::parting(less, reason);
    if all != rest {
        assert(all.drop_last() =~= rest);
    }
    if i < last {
        assert(less[i] == channels[i]);
        assert forall|j: int| 0 <= j < less.len() && j != i implies (#[trigger] less[j]).generation
            != less[i].generation by {
            assert(less[j] == channels[j]);
        }
        parting_tells_once(less, reason, i);
        assert(channels[last].generation != channels[i].generation);
    } else {
        assert forall|j: int| 0 <= j < less.len() implies (#[trigger] less[j]).generation
            != channels[i].generation by {
            assert(less[j] == channels[j]);
        }
        parting_tells_others(less, reason, channels[i].generation);
    }
}

proof fn parting_ends(channels: Seq<Seat>, reason: ChannelErrorReason, i: int) -> (at: int)
    requires
        0 <= i < channels.len(),
        channels[i].status == ChannelStatus::Leaving,
    ensures
        0 <= at < hub::parting(channels, reason).len(),
        hub::parting(channels, reason)[at] == (Deed::End { generation: channels[i].generation }),
    decreases channels.len(),
{
    let less = channels.drop_last();
    if i < less.len() {
        assert(less[i] == channels[i]);
        parting_ends(less, reason, i)
    } else {
        hub::parting(less, reason).len() as int
    }
}

proof fn failed_answers(inflight: Seq<(u64, Waiting)>, k: int) -> (at: int)
    requires
        0 <= k < inflight.len(),
        inflight[k].1 is Push,
    ensures
        0 <= at < hub::failed(inflight).len(),
        hub::failed(inflight)[at] == (Deed::Answered {
            ticket: inflight[k].1->ticket,
            outcome: Err(Failure::Disconnected),
        }),
    decreases inflight.len(),
{
    let less = inflight.drop_last();
    if k < less.len() {
        assert(less[k] == inflight[k]);
        failed_answers(less, k)
    } else {
        hub::failed(less).len() as int
    }
}

/// A status is published exactly when it changes.
pub proof fn only_changes_are_published(h: Hub, next: SocketStatus)
    ensures
        hub::set_status(h, next).status == next,
        h.status == next ==> hub::set_status(h, next).out == h.out,
        h.status != next ==> hub::set_status(h, next).out == h.out.push(Deed::Publish(next)),
{
}

} // verus!
