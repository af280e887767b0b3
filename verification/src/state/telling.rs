//! The order in which changes are told, and who is told.

use vstd::prelude::*;

use crate::state::change::{Change, Owed};
use crate::state::commit;
use crate::state::commit::Settled;
use crate::state::journal::Tree;
use crate::state::model::{Tx, MAX_DEPTH, MAX_WALK};
use crate::state::node::{NodeId, Sem};
use crate::state::patching;
use crate::state::settlement;
use crate::state::shape;
use crate::state::slots::Entry;
use crate::state::subscription::SubscriberId;

verus! {

/// Whether the deeper nodes of a list come first.
pub open spec fn descends(s: Tx, list: Seq<NodeId>) -> bool {
    forall|i: int, j: int|
        0 <= i < j < list.len() ==> s.depth(#[trigger] list[i]) >= s.depth(#[trigger] list[j])
}

/// Whether the nodes of a list are no less deep than those of another, from `i`
/// on.
pub open spec fn deeper_than(s: Tx, list: Seq<NodeId>, rest: Seq<NodeId>, i: int) -> bool {
    forall|a: int, b: int|
        0 <= a < list.len() && i <= b < rest.len() ==> s.depth(#[trigger] list[a]) >= s.depth(
            #[trigger] rest[b],
        )
}

/// What has settled and changed is listed in the order it settles.
proof fn settle_descends(s: Tx, t: Settled, was: Map<NodeId, Sem>, list: Seq<NodeId>, i: int)
    requires
        0 <= i <= list.len(),
        descends(s, list),
        descends(s, t.changed),
        deeper_than(s, t.changed, list, i),
    ensures
        descends(s, commit::settle_from(t, was, list, i).changed),
    decreases list.len() - i,
{
    if i < list.len() {
        let u = commit::settle_one(t, was, list[i]);
        if u.changed != t.changed {
            assert(u.changed == t.changed.push(list[i]));
            assert forall|a: int, b: int|
                0 <= a < b < u.changed.len() implies s.depth(#[trigger] u.changed[a]) >= s.depth(
                #[trigger] u.changed[b],
            ) by {
                if b < t.changed.len() {
                    assert(s.depth(t.changed[a]) >= s.depth(t.changed[b]));
                } else {
                    assert(s.depth(t.changed[a]) >= s.depth(list[i]));
                }
            }
            assert forall|a: int, b: int|
                0 <= a < u.changed.len() && i + 1 <= b < list.len() implies s.depth(
                #[trigger] u.changed[a],
            ) >= s.depth(#[trigger] list[b]) by {
                if a < t.changed.len() {
                    assert(s.depth(t.changed[a]) >= s.depth(list[b]));
                } else {
                    assert(s.depth(list[i]) >= s.depth(list[b]));
                }
            }
        }
        settle_descends(s, u, was, list, i + 1);
    }
}

/// What stays of a list keeps its order.
proof fn staying_descends(s: Tx, list: Seq<NodeId>, gone: Seq<NodeId>, n: int)
    requires
        0 <= n <= list.len(),
        descends(s, list),
    ensures
        descends(s, commit::staying(list, gone, n)),
        deeper_than(s, commit::staying(list, gone, n), list, n),
    decreases n,
{
    if n > 0 {
        staying_descends(s, list, gone, n - 1);
        let rest = commit::staying(list, gone, n - 1);
        let left = commit::staying(list, gone, n);
        assert forall|a: int, b: int|
            0 <= a < left.len() && n <= b < list.len() implies s.depth(#[trigger] left[a])
            >= s.depth(#[trigger] list[b]) by {
            if a < rest.len() {
                assert(s.depth(rest[a]) >= s.depth(list[b]));
            } else {
                assert(s.depth(list[n - 1]) >= s.depth(list[b]));
            }
        }
        assert forall|a: int, b: int| 0 <= a < b < left.len() implies s.depth(#[trigger] left[a])
            >= s.depth(#[trigger] left[b]) by {
            if b < rest.len() {
                assert(s.depth(rest[a]) >= s.depth(rest[b]));
            } else {
                assert(s.depth(rest[a]) >= s.depth(list[n - 1]));
            }
        }
    }
}

/// Whether every child of a listed node is listed before it.
pub open spec fn kids_first(nodes: Map<NodeId, Entry>, list: Seq<NodeId>) -> bool {
    forall|j: int, k: int|
        0 <= j < list.len() && nodes.contains_key(list[j]) && 0 <= k
            < nodes[list[j]].kind.kids().len() ==> settlement::before_at(
            list,
            j,
            #[trigger] nodes[#[trigger] list[j]].kind.kids()[k],
        )
}

/// Whether a list starts with another.
pub open spec fn starts_with(list: Seq<NodeId>, front: Seq<NodeId>) -> bool {
    front.len() <= list.len() && forall|j: int|
        0 <= j < front.len() ==> #[trigger] list[j] == front[j]
}

/// Nodes that are placed as those of a transaction are.
pub open spec fn placed_alike(s: Tx, nodes: Map<NodeId, Entry>) -> bool {
    &&& nodes.dom() == s.nodes.dom()
    &&& forall|x: NodeId| #[trigger]
        s.live(x) ==> nodes[x].kind == s.nodes[x].kind && nodes[x].parent == s.nodes[x].parent
}

proof fn post_order_first(
    s: Tx,
    nodes: Map<NodeId, Entry>,
    id: NodeId,
    list: Seq<NodeId>,
    levels: nat,
)
    requires
        placed_alike(s, nodes),
        shape::linked(s),
        shape::bounded(s.nodes),
        s.live(id) ==> levels + s.depth(id) >= MAX_DEPTH + 1,
        kids_first(nodes, list),
    ensures
        ({
            let out = commit::post_order(nodes, id, list, levels);
            &&& kids_first(nodes, out)
            &&& starts_with(out, list)
            &&& s.live(id) ==> out.contains(id)
        }),
    decreases levels, 0int, 0int,
{
    assert(nodes.dom().contains(id) == s.nodes.dom().contains(id));
    if s.live(id) {
        shape::depth_step(s, id);
        let kids = s.kids(id);
        let less = (levels - 1) as nat;
        assert forall|k: int| 0 <= k < kids.len() implies s.live(#[trigger] kids[k]) && less
            + s.depth(kids[k]) >= MAX_DEPTH + 1 by {
            assert(s.kids(id).contains(kids[k]));
            assert(s.parent_of(kids[k]) == Some(id));
            shape::depth_step(s, kids[k]);
        }
        let mid = commit::post_orders(nodes, kids, 0, list, less);
        post_orders_first(s, nodes, kids, 0, list, less);
        let out = commit::post_order(nodes, id, list, levels);
        assert(out == commit::reported(mid, id));
        if !mid.contains(id) {
            assert(out == mid.push(id));
            assert forall|j: int, k: int|
                0 <= j < out.len() && nodes.contains_key(out[j]) && 0 <= k
                    < nodes[out[j]].kind.kids().len() implies settlement::before_at(
                out,
                j,
                #[trigger] nodes[#[trigger] out[j]].kind.kids()[k],
            ) by {
                let kid = nodes[out[j]].kind.kids()[k];
                if j < mid.len() {
                    assert(mid[j] == out[j]);
                    assert(settlement::before_at(mid, j, nodes[mid[j]].kind.kids()[k]));
                    let m = choose|m: int| 0 <= m < j && m < mid.len() && #[trigger] mid[m] == kid;
                    assert(out[m] == kid);
                } else {
                    assert(kid == kids[k]);
                    assert(mid.contains(kids[k]));
                    let m = choose|m: int| 0 <= m < mid.len() && mid[m] == kid;
                    assert(out[m] == kid);
                }
            }
            assert(out[mid.len() as int] == id);
            assert(out.contains(id));
        }
    }
}

proof fn post_orders_first(
    s: Tx,
    nodes: Map<NodeId, Entry>,
    roots: Seq<NodeId>,
    i: int,
    list: Seq<NodeId>,
    levels: nat,
)
    requires
        placed_alike(s, nodes),
        shape::linked(s),
        shape::bounded(s.nodes),
        0 <= i <= roots.len(),
        forall|k: int|
            0 <= k < roots.len() && s.live(#[trigger] roots[k]) ==> levels + s.depth(roots[k])
                >= MAX_DEPTH + 1,
        kids_first(nodes, list),
    ensures
        ({
            let out = commit::post_orders(nodes, roots, i, list, levels);
            &&& kids_first(nodes, out)
            &&& starts_with(out, list)
            &&& forall|k: int|
                i <= k < roots.len() && s.live(#[trigger] roots[k]) ==> out.contains(roots[k])
        }),
    decreases levels, 1int, roots.len() - i,
{
    if i < roots.len() {
        let mid = commit::post_order(nodes, roots[i], list, levels);
        post_order_first(s, nodes, roots[i], list, levels);
        post_orders_first(s, nodes, roots, i + 1, mid, levels);
        let out = commit::post_orders(nodes, roots, i, list, levels);
        assert(out == commit::post_orders(nodes, roots, i + 1, mid, levels));
        assert forall|j: int| 0 <= j < list.len() implies #[trigger] out[j] == list[j] by {
            assert(mid[j] == list[j]);
        }
        if s.live(roots[i]) {
            let m = choose|m: int| 0 <= m < mid.len() && mid[m] == roots[i];
            assert(out[m] == roots[i]);
        }
    }
}

/// Whether what changed is told in order: first the `n` nodes that are in the tree
/// still, then those that are not, and in each run a child before its parent.
pub open spec fn in_order(
    nodes: Map<NodeId, Entry>,
    after: Tree,
    changed: Seq<NodeId>,
    n: int,
) -> bool {
    &&& 0 <= n <= changed.len()
    &&& forall|i: int|
        0 <= i < changed.len() ==> (after.nodes.contains_key(#[trigger] changed[i]) <==> i < n)
    &&& forall|i: int, j: int|
        0 <= i < changed.len() && 0 <= j < changed.len() && (i < n <==> j < n)
            && nodes[#[trigger] changed[i]].parent == Some(#[trigger] changed[j]) ==> i < j
}

/// A commit tells what changed in order.
pub proof fn told_in_order(s: Tx, was: Map<NodeId, Entry>, ids: Seq<NodeId>)
    requires
        patching::steady(s, was, ids),
    ensures
        exists|n: int|
            in_order(
                commit::concluded(s).nodes,
                commit::committed(s),
                commit::concluded(s).changed,
                n,
            ),
{
    let t = commit::settled(s);
    let gone = commit::removed_nodes(s, t.nodes);
    let left = commit::staying(t.changed, gone, t.changed.len() as int);
    let u = commit::concluded(s);
    let after = commit::committed(s);
    let n = left.len() as int;
    settlement::settled_all(s, was, ids);
    settlement::removed_is(s, t.nodes, was, ids);
    settlement::concluded_all(s, was, ids);
    settlement::settling_order(s, was, ids);
    settlement::staying_is(t.changed, gone, t.changed.len() as int);
    settlement::reported_places(t, gone);
    assert(shape::linked(s) && shape::bounded(s.nodes)) by {
        reveal(shape::good);
    }
    settle_descends(
        s,
        Settled { nodes: s.nodes, changed: Seq::empty() },
        s.settle,
        commit::settling(s),
        0,
    );
    staying_descends(s, t.changed, gone, t.changed.len() as int);
    let first = commit::pending_roots(s, 0, Seq::empty());
    let roots = commit::carried_roots(s, 0, first);
    post_orders_first(s, t.nodes, roots, 0, Seq::empty(), MAX_WALK as nat);
    assert(u.changed == left + gone);
    assert forall|i: int| 0 <= i < u.changed.len() implies (after.nodes.contains_key(
        #[trigger] u.changed[i],
    ) <==> i < n) by {
        assert(u.changed.contains(u.changed[i]));
        assert(s.live(u.changed[i]));
        if i < n {
            assert(left.contains(left[i]));
        } else {
            assert(gone.contains(gone[i - n]));
        }
    }
    assert forall|i: int, j: int|
        0 <= i < u.changed.len() && 0 <= j < u.changed.len() && (i < n <==> j < n)
            && u.nodes[#[trigger] u.changed[i]].parent == Some(#[trigger] u.changed[j]) implies i
        < j by {
        let x = u.changed[i];
        let p = u.changed[j];
        assert(u.changed.contains(x) && u.changed.contains(p));
        assert(s.live(x));
        assert(t.nodes.dom().contains(x));
        assert(s.parent_of(x) == Some(p));
        shape::depth_step(s, x);
        if i < n {
            if j < i {
                assert(s.depth(left[j]) >= s.depth(left[i]));
            }
        } else {
            assert(!shape::adrift(s, x));
            assert(s.kids(p).contains(x));
            let k = choose|k: int| 0 <= k < s.kids(p).len() && s.kids(p)[k] == x;
            assert(gone[j - n] == p);
            assert(gone.contains(gone[j - n]));
            assert(s.live(p));
            assert(t.nodes.dom().contains(p));
            assert(t.nodes[gone[j - n]].kind.kids()[k] == x);
            assert(settlement::before_at(gone, j - n, x));
            let m = choose|m: int| 0 <= m < j - n && m < gone.len() && #[trigger] gone[m] == x;
            assert(gone[m] == gone[i - n]);
        }
    }
    assert(in_order(u.nodes, after, u.changed, n));
}

/// What a subscriber is owed.
pub open spec fn debt(nodes: Map<NodeId, Entry>, id: NodeId, k: int) -> Owed {
    Owed {
        node: id,
        change: Change { revision: nodes[id].revision },
        subscriber: nodes[id].subs[k],
    }
}

/// Whether a list of debts is what the subscribers of the first `n` of a list of
/// nodes are owed, and nothing else.
pub open spec fn owed_all(
    nodes: Map<NodeId, Entry>,
    changed: Seq<NodeId>,
    n: int,
    debts: Seq<Owed>,
) -> bool {
    &&& forall|i: int, k: int|
        0 <= i < n && nodes.contains_key(changed[i]) && 0 <= k < nodes[changed[i]].subs.len()
            ==> debts.contains(#[trigger] debt(nodes, changed[i], k))
    &&& forall|d: Owed| #[trigger]
        debts.contains(d) ==> exists|i: int, k: int|
            0 <= i < n && nodes.contains_key(changed[i]) && 0 <= k < nodes[changed[i]].subs.len()
                && d == #[trigger] debt(nodes, changed[i], k)
}

/// The debts of a commit.
pub proof fn debts_are(nodes: Map<NodeId, Entry>, changed: Seq<NodeId>, n: int)
    requires
        0 <= n <= changed.len(),
    ensures
        owed_all(nodes, changed, n, commit::owed_to(nodes, changed, n)),
    decreases n,
{
    let debts = commit::owed_to(nodes, changed, n);
    if n > 0 {
        debts_are(nodes, changed, n - 1);
        let rest = commit::owed_to(nodes, changed, n - 1);
        let id = changed[n - 1];
        let mine = commit::owed_by(id, nodes[id]);
        assert forall|i: int, k: int|
            0 <= i < n && nodes.contains_key(changed[i]) && 0 <= k
                < nodes[changed[i]].subs.len() implies debts.contains(
            #[trigger] debt(nodes, changed[i], k),
        ) by {
            let d = debt(nodes, changed[i], k);
            if i < n - 1 {
                assert(rest.contains(d));
                let m = choose|m: int| 0 <= m < rest.len() && rest[m] == d;
                assert(debts[m] == d);
            } else {
                assert(mine[k] == d);
                assert(debts[rest.len() + k] == d);
            }
        }
        assert forall|d: Owed| #[trigger] debts.contains(d) implies exists|i: int, k: int|
            0 <= i < n && nodes.contains_key(changed[i]) && 0 <= k < nodes[changed[i]].subs.len()
                && d == #[trigger] debt(nodes, changed[i], k) by {
            let m = choose|m: int| 0 <= m < debts.len() && debts[m] == d;
            if m < rest.len() {
                assert(rest[m] == d);
                assert(rest.contains(d));
                let (i, k) = choose|i: int, k: int|
                    0 <= i < n - 1 && nodes.contains_key(changed[i]) && 0 <= k
                        < nodes[changed[i]].subs.len() && d == #[trigger] debt(
                        nodes,
                        changed[i],
                        k,
                    );
                assert(d == debt(nodes, changed[i], k));
            } else {
                let k = m - rest.len();
                assert(mine[k] == d);
                assert(d == debt(nodes, changed[n - 1], k));
            }
        }
    } else {
        assert(debts =~= Seq::<Owed>::empty());
    }
}

/// How often a subscriber of a node is owed.
pub open spec fn times_owed(debts: Seq<Owed>, id: NodeId, subscriber: SubscriberId) -> nat
    decreases debts.len(),
{
    if debts.len() == 0 {
        0
    } else {
        times_owed(debts.drop_last(), id, subscriber) + if debts.last().node == id
            && debts.last().subscriber == subscriber {
            1nat
        } else {
            0nat
        }
    }
}

proof fn times_joined(a: Seq<Owed>, b: Seq<Owed>, id: NodeId, subscriber: SubscriberId)
    ensures
        times_owed(a + b, id, subscriber) == times_owed(a, id, subscriber) + times_owed(
            b,
            id,
            subscriber,
        ),
    decreases b.len(),
{
    if b.len() == 0 {
        assert(a + b =~= a);
    } else {
        assert((a + b).drop_last() =~= a + b.drop_last());
        assert((a + b).last() == b.last());
        times_joined(a, b.drop_last(), id, subscriber);
    }
}

proof fn never_owed(debts: Seq<Owed>, id: NodeId, subscriber: SubscriberId)
    requires
        forall|i: int|
            0 <= i < debts.len() ==> (#[trigger] debts[i]).node != id || debts[i].subscriber
                != subscriber,
    ensures
        times_owed(debts, id, subscriber) == 0,
    decreases debts.len(),
{
    if debts.len() > 0 {
        assert(debts.last() == debts[debts.len() - 1]);
        never_owed(debts.drop_last(), id, subscriber);
    }
}

proof fn owed_at(debts: Seq<Owed>, id: NodeId, subscriber: SubscriberId, at: int)
    requires
        0 <= at < debts.len(),
        debts[at].node == id,
        debts[at].subscriber == subscriber,
        forall|i: int|
            0 <= i < debts.len() && i != at ==> (#[trigger] debts[i]).node != id
                || debts[i].subscriber != subscriber,
    ensures
        times_owed(debts, id, subscriber) == 1,
    decreases debts.len(),
{
    assert(debts.last() == debts[debts.len() - 1]);
    if at == debts.len() - 1 {
        never_owed(debts.drop_last(), id, subscriber);
    } else {
        owed_at(debts.drop_last(), id, subscriber, at);
    }
}

/// A subscriber that a node has once is owed once where the node is listed, and
/// not at all where it is not.
pub proof fn owed_once(
    nodes: Map<NodeId, Entry>,
    changed: Seq<NodeId>,
    n: int,
    id: NodeId,
    k: int,
)
    requires
        0 <= n <= changed.len(),
        changed.no_duplicates(),
        nodes.contains_key(id),
        nodes[id].subs.no_duplicates(),
        0 <= k < nodes[id].subs.len(),
    ensures
        times_owed(commit::owed_to(nodes, changed, n), id, nodes[id].subs[k]) == (
        if settlement::before_at(changed, n, id) {
            1nat
        } else {
            0nat
        }),
    decreases n,
{
    let subscriber = nodes[id].subs[k];
    if n > 0 {
        owed_once(nodes, changed, n - 1, id, k);
        let rest = commit::owed_to(nodes, changed, n - 1);
        let last = changed[n - 1];
        let mine = commit::owed_by(last, nodes[last]);
        times_joined(rest, mine, id, subscriber);
        if last == id {
            if settlement::before_at(changed, n - 1, id) {
                let j = choose|j: int|
                    0 <= j < n - 1 && j < changed.len() && #[trigger] changed[j] == id;
                assert(changed[j] != changed[n - 1]);
            }
            assert(changed[n - 1] == id);
            assert(settlement::before_at(changed, n, id));
            assert forall|i: int| 0 <= i < mine.len() && i != k implies (#[trigger] mine[i]).node
                != id || mine[i].subscriber != subscriber by {
                assert(nodes[id].subs[i] != nodes[id].subs[k]);
            }
            owed_at(mine, id, subscriber, k);
        } else {
            if settlement::before_at(changed, n, id) {
                let j = choose|j: int| 0 <= j < n && j < changed.len() && #[trigger] changed[j]
                    == id;
                assert(settlement::before_at(changed, n - 1, id));
            }
            if settlement::before_at(changed, n - 1, id) {
                let j = choose|j: int|
                    0 <= j < n - 1 && j < changed.len() && #[trigger] changed[j] == id;
                assert(settlement::before_at(changed, n, id));
            }
            never_owed(mine, id, subscriber);
        }
    }
}

} // verus!
