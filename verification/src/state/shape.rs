//! What holds of the nodes at every step of a transaction.

use vstd::prelude::*;

use crate::state::keyed;
use crate::state::model::{Tx, MAX_DEPTH, MAX_WALK};
use crate::state::node;
use crate::state::node::{Kind, NodeId};
use crate::state::slots::Entry;
use crate::state::text::Chars;
use crate::state::wire::Path;

verus! {

/// Whether the way up from a node ends within `n` steps.
pub open spec fn climbs(nodes: Map<NodeId, Entry>, id: NodeId, n: nat) -> bool
    decreases n,
{
    nodes.contains_key(id) && match nodes[id].parent {
        None => true,
        Some(up) => n > 0 && climbs(nodes, up, (n - 1) as nat),
    }
}

/// Whether a node names a parent that does not hold it: it is on its way into
/// a slot, or out of one.
pub open spec fn adrift(s: Tx, id: NodeId) -> bool {
    s.parent_of(id) is Some && !s.kids(s.parent_of(id)->0).contains(id)
}

/// Each key occurs once.
pub open spec fn keys_once(list: Seq<(Chars, NodeId)>) -> bool {
    forall|i: int, j: int|
        0 <= i < j < list.len() ==> (#[trigger] list[i]).0 != (#[trigger] list[j]).0
}

/// The keys of an object and of a store are in order, each once; those of a
/// collection occur once.
pub open spec fn tidy(kind: Kind) -> bool {
    match kind {
        Kind::Object(fields) => keyed::sorted(fields),
        Kind::Store { fields, .. } => keyed::sorted(fields),
        Kind::Collection { items, .. } => keys_once(items),
        _ => true,
    }
}

/// The root is there, and nothing is above it.
pub open spec fn rooted(s: Tx) -> bool {
    s.live(s.root) && s.parent_of(s.root) is None
}

/// A child names its parent, and is held once.
pub open spec fn linked(s: Tx) -> bool {
    &&& forall|p: NodeId, c: NodeId| #[trigger]
        s.kids(p).contains(c) ==> s.parent_of(c) == Some(p)
    &&& forall|p: NodeId| #[trigger] s.kids(p).no_duplicates()
}

/// Every node's keys are in order.
pub open spec fn tidied(s: Tx) -> bool {
    forall|id: NodeId| #[trigger] s.live(id) ==> tidy(s.kind(id))
}

/// No node sits deeper than the cap.
pub open spec fn bounded(nodes: Map<NodeId, Entry>) -> bool {
    forall|id: NodeId| #[trigger]
        nodes.contains_key(id) ==> climbs(nodes, id, MAX_DEPTH as nat)
}

/// Whether a node is the collection of a stream.
pub open spec fn is_stream(s: Tx, id: NodeId, key: (Path, Chars)) -> bool {
    s.live(id) && s.kind(id) is Collection && s.stream_of(id) == key
}

/// The indices name nodes that are what they are indexed as.
pub open spec fn indexed(s: Tx) -> bool {
    &&& forall|path: Path| #[trigger]
        s.stores.contains_key(path) ==> s.is_store(s.stores[path], path)
    &&& forall|key: (Path, Chars)| #[trigger]
        s.streams.contains_key(key) ==> is_stream(s, s.streams[key], key)
}

/// Whether a node is a row that left and that may be claimed back.
pub open spec fn carried(s: Tx, id: NodeId) -> bool {
    exists|name: (NodeId, Chars)| #[trigger] s.carry.contains_key(name) && s.carry[name] == id
}

/// What is detached has no parent, and is filed once.
pub open spec fn stowed(s: Tx) -> bool {
    &&& forall|id: NodeId| #[trigger]
        s.is_pending.contains(id) ==> s.live(id) && s.parent_of(id) is None && id != s.root
            && s.pending.contains(id)
    &&& forall|name: (NodeId, Chars)| #[trigger]
        s.carry.contains_key(name) ==> s.live(s.carry[name]) && s.parent_of(s.carry[name]) is None
            && s.carry[name] != s.root && !s.is_pending.contains(s.carry[name])
            && s.carry_order.contains(name)
    &&& forall|a: (NodeId, Chars), b: (NodeId, Chars)| #[trigger]
        s.carry.contains_key(a) && #[trigger] s.carry.contains_key(b) && s.carry[a] == s.carry[b]
            ==> a == b
}

/// What has no parent is the root, or is detached and filed.
pub open spec fn afloat(s: Tx) -> bool {
    forall|id: NodeId| #[trigger]
        s.live(id) && s.parent_of(id) is None ==> id == s.root || s.is_pending.contains(id)
            || carried(s, id)
}

/// A node that is not dirty has a value equal to the one its children's values
/// make. The two may differ in the sign of a float zero: a value that came out
/// equal is kept as it was.
pub open spec fn consistent(s: Tx) -> bool {
    forall|id: NodeId| #[trigger]
        s.live(id) && !s.settle.contains_key(id) ==> node::alike(
            s.nodes[id].sem,
            s.shallow(id),
        )
}

/// A node that is not dirty has a value equal to the one its children's values
/// make, but for
/// the nodes of `but`.
pub open spec fn consistent_but(s: Tx, but: Set<NodeId>) -> bool {
    forall|id: NodeId| #[trigger]
        s.live(id) && !s.settle.contains_key(id) && !but.contains(id) ==> node::alike(
            s.nodes[id].sem,
            s.shallow(id),
        )
}

/// The dirty nodes are known by the value they had before, and a node that is
/// not dirty still has it.
pub open spec fn recalled(s: Tx, was: Map<NodeId, Entry>) -> bool {
    forall|id: NodeId| #[trigger]
        was.contains_key(id) ==> s.live(id) && s.nodes[id].revision == was[id].revision
            && s.nodes[id].subs == was[id].subs && was[id].sem == (if s.settle.contains_key(id) {
            s.settle[id]
        } else {
            s.nodes[id].sem
        })
}

/// Nobody subscribes to a node that is new.
pub open spec fn unheard(s: Tx, was: Map<NodeId, Entry>) -> bool {
    forall|id: NodeId| #[trigger]
        s.live(id) && !was.contains_key(id) ==> s.nodes[id].subs.len() == 0
}

/// The dirty nodes are listed once each.
pub open spec fn listed(s: Tx) -> bool {
    &&& s.settle_order.no_duplicates()
    &&& forall|id: NodeId|
        s.settle.contains_key(id) == #[trigger] s.settle_order.contains(id)
}

/// The ids to come are nobody's yet, and differ.
pub open spec fn unused(s: Tx, ids: Seq<NodeId>) -> bool {
    &&& forall|k: int| s.allocated.len() <= k < ids.len() ==> !s.live(#[trigger] ids[k])
    &&& forall|k: int, l: int|
        s.allocated.len() <= k < l < ids.len() ==> #[trigger] ids[k] != #[trigger] ids[l]
}

/// What is dirty is dirty all the way up, but for the nodes of `but`.
pub open spec fn upward(s: Tx, but: Set<NodeId>) -> bool {
    forall|id: NodeId| #[trigger]
        s.settle.contains_key(id) ==> s.live(id) && (s.parent_of(id) matches Some(up)
            ==> s.settle.contains_key(up) || but.contains(up))
}

/// What holds of the nodes, whatever is dirty, where the values of the nodes of
/// `but` are still to be made.
pub open spec fn formed_but(
    s: Tx,
    but: Set<NodeId>,
    was: Map<NodeId, Entry>,
    ids: Seq<NodeId>,
) -> bool {
    &&& rooted(s)
    &&& linked(s)
    &&& tidied(s)
    &&& bounded(s.nodes)
    &&& indexed(s)
    &&& stowed(s)
    &&& afloat(s)
    &&& consistent_but(s, but)
    &&& recalled(s, was)
    &&& unheard(s, was)
    &&& listed(s)
    &&& unused(s, ids)
}

/// What holds of the nodes, whatever is dirty.
pub open spec fn formed(s: Tx, was: Map<NodeId, Entry>, ids: Seq<NodeId>) -> bool {
    &&& rooted(s)
    &&& linked(s)
    &&& tidied(s)
    &&& bounded(s.nodes)
    &&& indexed(s)
    &&& stowed(s)
    &&& afloat(s)
    &&& consistent(s)
    &&& recalled(s, was)
    &&& unheard(s, was)
    &&& listed(s)
    &&& unused(s, ids)
}

/// What holds of the nodes at every step.
#[verifier::opaque]
pub open spec fn good(s: Tx, was: Map<NodeId, Entry>, ids: Seq<NodeId>) -> bool {
    formed(s, was, ids) && upward(s, Set::empty())
}

// ------------------------------------------------------------------- the way up

/// More steps do not hurt.
pub proof fn climbs_more(nodes: Map<NodeId, Entry>, id: NodeId, n: nat, m: nat)
    requires
        climbs(nodes, id, n),
        n <= m,
    ensures
        climbs(nodes, id, m),
    decreases n,
{
    if let Some(up) = nodes[id].parent {
        climbs_more(nodes, up, (n - 1) as nat, (m - 1) as nat);
    }
}

/// Whether the way up from a node ends within `n` steps, and does not meet
/// `not`.
pub open spec fn avoids(nodes: Map<NodeId, Entry>, id: NodeId, not: NodeId, n: nat) -> bool
    decreases n,
{
    nodes.contains_key(id) && id != not && match nodes[id].parent {
        None => true,
        Some(up) => n > 0 && avoids(nodes, up, not, (n - 1) as nat),
    }
}

/// A way up that is not met ends, and avoids.
pub proof fn unmet_avoids(s: Tx, id: NodeId, not: NodeId, walk: nat)
    requires
        s.live(id),
        walk > 0,
        bounded(s.nodes),
        !s.met_above(not, Some(id), walk),
    ensures
        avoids(s.nodes, id, not, (walk - 1) as nat),
    decreases walk,
{
    assert(climbs(s.nodes, id, MAX_DEPTH as nat));
    if let Some(up) = s.nodes[id].parent {
        assert(climbs(s.nodes, up, (MAX_DEPTH - 1) as nat));
        unmet_avoids(s, up, not, (walk - 1) as nat);
    }
}

/// A node's depth is the length of the way up.
pub proof fn depth_counts(s: Tx, id: NodeId, n: nat, walk: nat)
    requires
        climbs(s.nodes, id, n),
        n <= walk,
    ensures
        s.height_above(Some(id), walk) <= n,
        climbs(s.nodes, id, s.height_above(Some(id), walk)),
        forall|other: nat| n <= other ==> #[trigger] s.height_above(Some(id), other)
            == s.height_above(Some(id), walk),
    decreases n,
{
    if let Some(up) = s.nodes[id].parent {
        depth_counts(s, up, (n - 1) as nat, (walk - 1) as nat);
        assert forall|other: nat| n <= other implies #[trigger] s.height_above(Some(id), other)
            == s.height_above(Some(id), walk) by {
            assert(s.height_above(Some(up), (other - 1) as nat) == s.height_above(
                Some(up),
                (walk - 1) as nat,
            ));
        }
    }
}

/// A node is one deeper than its parent.
pub proof fn depth_step(s: Tx, id: NodeId)
    requires
        bounded(s.nodes),
        s.live(id),
    ensures
        s.depth(id) <= MAX_DEPTH,
        climbs(s.nodes, id, s.depth(id)),
        s.parent_of(id) matches Some(up) ==> s.live(up) && s.depth(id) == s.depth(up) + 1,
        s.parent_of(id) is None ==> s.depth(id) == 0,
{
    depth_counts(s, id, MAX_DEPTH as nat, MAX_WALK as nat);
    if let Some(up) = s.nodes[id].parent {
        depth_counts(s, up, (MAX_DEPTH - 1) as nat, MAX_WALK as nat);
        depth_counts(s, up, (MAX_DEPTH - 1) as nat, (MAX_WALK - 1) as nat);
    }
}

/// A way up from a node that is no deeper than another avoids it, unless it is
/// that node.
pub proof fn shallower_avoids(s: Tx, id: NodeId, not: NodeId, n: nat)
    requires
        bounded(s.nodes),
        climbs(s.nodes, id, n),
        s.live(not),
        s.depth(id) <= s.depth(not),
        id != not,
    ensures
        avoids(s.nodes, id, not, n),
    decreases n,
{
    if let Some(up) = s.nodes[id].parent {
        depth_step(s, id);
        depth_step(s, not);
        shallower_avoids(s, up, not, (n - 1) as nat);
    }
}

/// A way up that avoids a node is the same where only that node's parent
/// differs.
pub proof fn avoids_climbs(
    a: Map<NodeId, Entry>,
    b: Map<NodeId, Entry>,
    id: NodeId,
    not: NodeId,
    n: nat,
)
    requires
        avoids(a, id, not, n),
        forall|x: NodeId| #[trigger]
            a.contains_key(x) && x != not ==> b.contains_key(x) && b[x].parent == a[x].parent,
    ensures
        climbs(b, id, n),
        avoids(b, id, not, n),
    decreases n,
{
    if let Some(up) = a[id].parent {
        avoids_climbs(a, b, up, not, (n - 1) as nat);
    }
}

/// A way up is no longer where nodes keep their parents or lose them.
pub proof fn climbs_cut(a: Map<NodeId, Entry>, b: Map<NodeId, Entry>, id: NodeId, n: nat)
    requires
        climbs(a, id, n),
        forall|x: NodeId| #[trigger]
            a.contains_key(x) ==> b.contains_key(x) && (b[x].parent == a[x].parent || b[x].parent
                is None),
    ensures
        climbs(b, id, n),
    decreases n,
{
    if let Some(up) = a[id].parent {
        climbs_cut(a, b, up, (n - 1) as nat);
    }
}

/// The cap holds where nodes keep their parents or lose them.
pub proof fn bounded_cut(a: Map<NodeId, Entry>, b: Map<NodeId, Entry>)
    requires
        bounded(a),
        forall|x: NodeId| #[trigger]
            a.contains_key(x) ==> b.contains_key(x) && (b[x].parent == a[x].parent || b[x].parent
                is None),
        forall|x: NodeId| #[trigger] b.contains_key(x) ==> a.contains_key(x),
    ensures
        bounded(b),
{
    assert forall|id: NodeId| #[trigger] b.contains_key(id) implies climbs(
        b,
        id,
        MAX_DEPTH as nat,
    ) by {
        climbs_cut(a, b, id, MAX_DEPTH as nat);
    }
}

} // verus!
