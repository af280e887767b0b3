//! What a commit makes of the nodes.

use vstd::prelude::*;

use crate::state::commit;
use crate::state::commit::Settled;
use crate::state::exchanging;
use crate::state::journal;
use crate::state::journal::Tree;
use crate::state::model;
use crate::state::model::{Tx, MAX_DEPTH, MAX_WALK};
use crate::state::node;
use crate::state::node::NodeId;
use crate::state::patching;
use crate::state::shape;
use crate::state::slots;
use crate::state::slots::Entry;
use crate::state::text::Chars;
use crate::state::upkeep;
use crate::state::wire::Path;

verus! {

// ------------------------------------------------------------------- the order

proof fn at_depth_is(s: Tx, list: Seq<NodeId>, depth: nat)
    ensures
        forall|x: NodeId| #[trigger]
            commit::at_depth(s, list, depth).contains(x) <==> list.contains(x) && s.depth(x)
                == depth,
        list.no_duplicates() ==> commit::at_depth(s, list, depth).no_duplicates(),
    decreases list.len(),
{
    let out = commit::at_depth(s, list, depth);
    if list.len() > 0 {
        let front = list.drop_last();
        let last = list.last();
        at_depth_is(s, front, depth);
        let rest = commit::at_depth(s, front, depth);
        assert forall|x: NodeId| #[trigger] out.contains(x) <==> list.contains(x) && s.depth(x)
            == depth by {
            if list.contains(x) {
                let i = choose|i: int| 0 <= i < list.len() && list[i] == x;
                if i < front.len() {
                    assert(front[i] == x);
                }
            }
            if front.contains(x) {
                let i = choose|i: int| 0 <= i < front.len() && front[i] == x;
                assert(list[i] == x);
            }
            assert(list[list.len() - 1] == last);
            if s.depth(last) == depth {
                assert(out == rest.push(last));
                if out.contains(x) {
                    let i = choose|i: int| 0 <= i < out.len() && out[i] == x;
                    if i < rest.len() {
                        assert(rest[i] == x);
                    }
                }
                if rest.contains(x) {
                    let i = choose|i: int| 0 <= i < rest.len() && rest[i] == x;
                    assert(out[i] == x);
                }
                assert(out[out.len() - 1] == last);
            }
        }
        if list.no_duplicates() {
            assert(front.no_duplicates());
            if s.depth(last) == depth {
                assert(!rest.contains(last)) by {
                    if front.contains(last) {
                        let i = choose|i: int| 0 <= i < front.len() && front[i] == last;
                        assert(list[i] == last && list[list.len() - 1] == last);
                    }
                }
                assert forall|i: int, j: int|
                    0 <= i < out.len() && 0 <= j < out.len() && i != j implies out[i]
                    != out[j] by {
                    if i < rest.len() && j < rest.len() {
                        assert(rest[i] != rest[j]);
                    } else if i < rest.len() {
                        assert(rest.contains(rest[i]));
                    } else {
                        assert(rest.contains(rest[j]));
                    }
                }
            }
        }
    }
}

proof fn deepest_first_is(s: Tx, list: Seq<NodeId>, depth: nat)
    ensures
        forall|x: NodeId| #[trigger]
            commit::deepest_first(s, list, depth).contains(x) <==> list.contains(x) && s.depth(x)
                <= depth,
        list.no_duplicates() ==> commit::deepest_first(s, list, depth).no_duplicates(),
        forall|i: int, j: int|
            0 <= i < j < commit::deepest_first(s, list, depth).len() ==> s.depth(
                #[trigger] commit::deepest_first(s, list, depth)[i],
            ) >= s.depth(#[trigger] commit::deepest_first(s, list, depth)[j]),
    decreases depth,
{
    let out = commit::deepest_first(s, list, depth);
    let top = commit::at_depth(s, list, depth);
    at_depth_is(s, list, depth);
    if depth == 0 {
        assert forall|i: int, j: int| 0 <= i < j < out.len() implies s.depth(#[trigger] out[i])
            >= s.depth(#[trigger] out[j]) by {
            assert(top.contains(out[i]) && top.contains(out[j]));
        }
    } else {
        let rest = commit::deepest_first(s, list, (depth - 1) as nat);
        deepest_first_is(s, list, (depth - 1) as nat);
        assert forall|x: NodeId| #[trigger] out.contains(x) <==> list.contains(x) && s.depth(x)
            <= depth by {
            if out.contains(x) {
                let i = choose|i: int| 0 <= i < out.len() && out[i] == x;
                if i < top.len() {
                    assert(top[i] == x);
                } else {
                    assert(rest[i - top.len()] == x);
                }
            }
            if top.contains(x) {
                let i = choose|i: int| 0 <= i < top.len() && top[i] == x;
                assert(out[i] == x);
            }
            if rest.contains(x) {
                let i = choose|i: int| 0 <= i < rest.len() && rest[i] == x;
                assert(out[top.len() + i] == x);
            }
        }
        assert forall|i: int, j: int| 0 <= i < j < out.len() implies s.depth(#[trigger] out[i])
            >= s.depth(#[trigger] out[j]) by {
            if j < top.len() {
                assert(top.contains(top[i]) && top.contains(top[j]));
            } else if i < top.len() {
                assert(top.contains(top[i]) && rest.contains(rest[j - top.len()]));
            } else {
                assert(s.depth(rest[i - top.len()]) >= s.depth(rest[j - top.len()]));
            }
        }
        if list.no_duplicates() {
            assert forall|i: int, j: int|
                0 <= i < out.len() && 0 <= j < out.len() && i != j implies out[i] != out[j] by {
                if i < top.len() && j < top.len() {
                    assert(top[i] != top[j]);
                } else if i < top.len() {
                    assert(top.contains(top[i]) && rest.contains(rest[j - top.len()]));
                } else if j < top.len() {
                    assert(top.contains(top[j]) && rest.contains(rest[i - top.len()]));
                } else {
                    assert(rest[i - top.len()] != rest[j - top.len()]);
                }
            }
        }
    }
}

/// The dirty nodes settle once each, children before parents.
pub proof fn settling_order(s: Tx, was: Map<NodeId, Entry>, ids: Seq<NodeId>)
    requires
        shape::good(s, was, ids),
    ensures
        forall|x: NodeId| #[trigger]
            commit::settling(s).contains(x) <==> s.settle.contains_key(x),
        commit::settling(s).no_duplicates(),
        forall|i: int, j: int|
            0 <= i < j < commit::settling(s).len() ==> s.depth(#[trigger] commit::settling(s)[i])
                >= s.depth(#[trigger] commit::settling(s)[j]),
{
    reveal(shape::good);
    deepest_first_is(s, s.settle_order, MAX_WALK as nat);
    assert forall|x: NodeId| #[trigger]
        commit::settling(s).contains(x) <==> s.settle.contains_key(x) by {
        if s.settle.contains_key(x) {
            assert(s.settle_order.contains(x));
            shape::depth_step(s, x);
        }
        if s.settle_order.contains(x) {
            assert(s.settle.contains_key(x));
        }
    }
}

// ----------------------------------------------------------------- the settling

/// Whether a list holds a node before `i`.
pub open spec fn before_at(list: Seq<NodeId>, i: int, id: NodeId) -> bool {
    exists|j: int| 0 <= j < i && j < list.len() && #[trigger] list[j] == id
}

/// The nodes once the first `i` of a list have settled.
pub open spec fn midway(s: Tx, t: Settled, list: Seq<NodeId>, i: int) -> bool {
    &&& t.nodes.dom() == s.nodes.dom()
    &&& forall|x: NodeId| #[trigger]
        s.live(x) ==> t.nodes[x].kind == s.nodes[x].kind && t.nodes[x].parent
            == s.nodes[x].parent && t.nodes[x].subs == s.nodes[x].subs
    &&& forall|x: NodeId| #[trigger]
        s.live(x) && !before_at(list, i, x) ==> t.nodes[x].sem == s.nodes[x].sem
            && t.nodes[x].revision == s.nodes[x].revision
    &&& forall|x: NodeId| #[trigger]
        s.live(x) && before_at(list, i, x) ==> node::alike(
            t.nodes[x].sem,
            model::shallow_value(t.nodes, x),
        ) && t.nodes[x].revision == (if t.nodes[x].sem == s.settle[x] {
            s.nodes[x].revision
        } else {
            commit::bumped(s.nodes[x].revision)
        }) && (node::alike(t.nodes[x].sem, s.settle[x]) ==> t.nodes[x].sem == s.settle[x]) && (
        t.nodes[x].sem != s.settle[x] ==> t.nodes[x].sem == model::shallow_value(t.nodes, x))
    &&& forall|x: NodeId| #[trigger]
        t.changed.contains(x) <==> before_at(list, i, x) && t.nodes[x].sem != s.settle[x]
    &&& t.changed.no_duplicates()
}

proof fn settled_step(
    s: Tx,
    t: Settled,
    list: Seq<NodeId>,
    i: int,
    was: Map<NodeId, Entry>,
    ids: Seq<NodeId>,
)
    requires
        shape::good(s, was, ids),
        list == commit::settling(s),
        0 <= i < list.len(),
        midway(s, t, list, i),
    ensures
        midway(s, commit::settle_one(t, s.settle, list[i]), list, i + 1),
{
    reveal(shape::good);
    settling_order(s, was, ids);
    let id = list[i];
    let u = commit::settle_one(t, s.settle, id);
    assert(list.contains(id));
    assert(s.settle.contains_key(id));
    assert(s.live(id));
    assert(t.nodes.contains_key(id)) by {
        assert(t.nodes.dom().contains(id));
    }
    let now = model::shallow_value(t.nodes, id);
    assert(!before_at(list, i, id)) by {
        if before_at(list, i, id) {
            let j = choose|j: int| 0 <= j < i && j < list.len() && #[trigger] list[j] == id;
        }
    }
    assert forall|x: NodeId| before_at(list, i + 1, x) == (before_at(list, i, x) || x == id) by {
        if before_at(list, i + 1, x) {
            let j = choose|j: int| 0 <= j < i + 1 && j < list.len() && #[trigger] list[j] == x;
            if j < i {
                assert(before_at(list, i, x));
            }
        }
        if before_at(list, i, x) {
            let j = choose|j: int| 0 <= j < i && j < list.len() && #[trigger] list[j] == x;
            assert(before_at(list, i + 1, x));
        }
        if x == id {
            assert(list[i] == x);
        }
    }
    assert(u.nodes.dom() =~= s.nodes.dom());
    assert(node::alike(u.nodes[id].sem, now));
    assert forall|x: NodeId| x != id && s.live(x) implies #[trigger] u.nodes[x] == t.nodes[x] by {}
    // the value of a node that settled does not rest on this one
    assert forall|x: NodeId| #[trigger] s.live(x) && before_at(list, i + 1, x) implies
        model::shallow_value(u.nodes, x) == model::shallow_value(t.nodes, x) by {
        let kids = s.kids(x);
        assert(!kids.contains(id)) by {
            if kids.contains(id) {
                assert(s.parent_of(id) == Some(x));
                shape::depth_step(s, id);
                let j = choose|j: int| 0 <= j < i + 1 && j < list.len() && #[trigger] list[j] == x;
                if j < i {
                    assert(s.depth(list[j]) >= s.depth(list[i]));
                }
            }
        }
        assert forall|k: int| 0 <= k < kids.len() implies t.nodes.contains_key(#[trigger] kids[k])
            == u.nodes.contains_key(kids[k]) && (t.nodes.contains_key(kids[k])
            ==> t.nodes[kids[k]].sem == u.nodes[kids[k]].sem) by {
            assert(kids.contains(kids[k]));
            assert(t.nodes.dom().contains(kids[k]) == u.nodes.dom().contains(kids[k]));
            assert(s.nodes.dom().contains(kids[k]) == u.nodes.dom().contains(kids[k]));
        }
        upkeep::cached_same(t.nodes, u.nodes, kids);
        assert(t.nodes.dom().contains(x) && u.nodes.dom().contains(x));
    }
    assert forall|x: NodeId| #[trigger] u.changed.contains(x) <==> before_at(list, i + 1, x)
        && u.nodes[x].sem != s.settle[x] by {
        assert(t.changed.contains(x) <==> before_at(list, i, x) && t.nodes[x].sem
            != s.settle[x]);
        assert(before_at(list, i, x) ==> s.live(x)) by {
            if before_at(list, i, x) {
                let j = choose|j: int| 0 <= j < i && j < list.len() && #[trigger] list[j] == x;
                assert(list.contains(x));
                assert(s.settle.contains_key(x));
            }
        }
        if !node::alike(now, s.settle[id]) {
            assert(!t.changed.contains(id));
            assert(u.changed == t.changed.push(id));
            if u.changed.contains(x) {
                let j = choose|j: int| 0 <= j < u.changed.len() && u.changed[j] == x;
                if j < t.changed.len() {
                    assert(t.changed[j] == x);
                }
            }
            if t.changed.contains(x) {
                let j = choose|j: int| 0 <= j < t.changed.len() && t.changed[j] == x;
                assert(u.changed[j] == x);
            }
            assert(u.changed[u.changed.len() - 1] == id);
        }
    }
    assert(u.changed.no_duplicates()) by {
        if !node::alike(now, s.settle[id]) {
            assert(!t.changed.contains(id));
            assert forall|a: int, b: int|
                0 <= a < u.changed.len() && 0 <= b < u.changed.len() && a != b implies u.changed[a]
                != u.changed[b] by {
                if a < t.changed.len() && b < t.changed.len() {
                    assert(t.changed[a] != t.changed[b]);
                } else if a < t.changed.len() {
                    assert(t.changed.contains(t.changed[a]));
                } else {
                    assert(t.changed.contains(t.changed[b]));
                }
            }
        }
    }
}

proof fn settled_from(
    s: Tx,
    t: Settled,
    list: Seq<NodeId>,
    i: int,
    was: Map<NodeId, Entry>,
    ids: Seq<NodeId>,
)
    requires
        shape::good(s, was, ids),
        list == commit::settling(s),
        0 <= i <= list.len(),
        midway(s, t, list, i),
    ensures
        midway(s, commit::settle_from(t, s.settle, list, i), list, list.len() as int),
    decreases list.len() - i,
{
    if i < list.len() {
        settled_step(s, t, list, i, was, ids);
        settled_from(s, commit::settle_one(t, s.settle, list[i]), list, i + 1, was, ids);
    }
}

/// What settling leaves: every node has a value equal to the one its children's
/// values make; a node is reported where that does not equal the value it had, and
/// has the next revision then; any other has the very value it had.
pub open spec fn settles(s: Tx, t: Settled) -> bool {
    &&& t.nodes.dom() == s.nodes.dom()
    &&& forall|x: NodeId| #[trigger]
        s.live(x) ==> t.nodes[x].kind == s.nodes[x].kind && t.nodes[x].parent
            == s.nodes[x].parent && t.nodes[x].subs == s.nodes[x].subs && node::alike(
            t.nodes[x].sem,
            model::shallow_value(t.nodes, x),
        ) && t.nodes[x].revision == (if t.changed.contains(
            x,
        ) {
            commit::bumped(s.nodes[x].revision)
        } else {
            s.nodes[x].revision
        })
    &&& forall|x: NodeId| #[trigger]
        t.changed.contains(x) <==> s.settle.contains_key(x) && !node::alike(
            t.nodes[x].sem,
            s.settle[x],
        )
    &&& forall|x: NodeId| #[trigger]
        s.live(x) && s.settle.contains_key(x) && !t.changed.contains(x) ==> t.nodes[x].sem
            == s.settle[x]
    &&& forall|x: NodeId| #[trigger]
        t.changed.contains(x) ==> t.nodes[x].sem == model::shallow_value(t.nodes, x)
    &&& forall|x: NodeId| #[trigger]
        s.live(x) && !s.settle.contains_key(x) ==> t.nodes[x].sem == s.nodes[x].sem
    &&& t.changed.no_duplicates()
}

pub proof fn settled_all(s: Tx, was: Map<NodeId, Entry>, ids: Seq<NodeId>)
    requires
        shape::good(s, was, ids),
    ensures
        settles(s, commit::settled(s)),
{
    let list = commit::settling(s);
    let start = Settled { nodes: s.nodes, changed: Seq::empty() };
    settling_order(s, was, ids);
    assert(midway(s, start, list, 0)) by {
        assert forall|x: NodeId| !before_at(list, 0, x) by {}
    }
    settled_from(s, start, list, 0, was, ids);
    let t = commit::settled(s);
    reveal(shape::good);
    assert forall|x: NodeId| before_at(list, list.len() as int, x) == s.settle.contains_key(
        x,
    ) by {
        if s.settle.contains_key(x) {
            assert(list.contains(x));
            let j = choose|j: int| 0 <= j < list.len() && list[j] == x;
            assert(before_at(list, list.len() as int, x));
        }
        if before_at(list, list.len() as int, x) {
            let j = choose|j: int|
                0 <= j < list.len() && j < list.len() && #[trigger] list[j] == x;
            assert(list.contains(x));
        }
    }
    assert forall|x: NodeId| #[trigger] s.live(x) implies node::alike(
        t.nodes[x].sem,
        model::shallow_value(t.nodes, x),
    ) by {
        if !s.settle.contains_key(x) {
            let kids = s.kids(x);
            assert forall|k: int| 0 <= k < kids.len() implies s.nodes.contains_key(
                #[trigger] kids[k],
            ) == t.nodes.contains_key(kids[k]) && (s.nodes.contains_key(kids[k])
                ==> s.nodes[kids[k]].sem == t.nodes[kids[k]].sem) by {
                assert(s.kids(x).contains(kids[k]));
                assert(s.parent_of(kids[k]) == Some(x));
                assert(!s.settle.contains_key(kids[k]));
                assert(s.live(kids[k]));
                assert(t.nodes.dom().contains(kids[k]));
            }
            upkeep::cached_same(s.nodes, t.nodes, kids);
            assert(t.nodes.dom().contains(x));
            assert(node::alike(s.nodes[x].sem, s.shallow(x)));
        }
    }
}

// ------------------------------------------------------------------ the removed

/// Whether `y` is a node, or below it within `n` levels.
pub open spec fn reaches(nodes: Map<NodeId, Entry>, id: NodeId, y: NodeId, n: nat) -> bool
    decreases n,
{
    nodes.contains_key(id) && (y == id || (n > 0 && exists|i: int|
        0 <= i < nodes[id].kind.kids().len() && reaches(
            nodes,
            #[trigger] nodes[id].kind.kids()[i],
            y,
            (n - 1) as nat,
        )))
}

proof fn reaches_on(nodes: Map<NodeId, Entry>, id: NodeId, p: NodeId, y: NodeId, n: nat)
    requires
        reaches(nodes, id, p, n),
        nodes.contains_key(p),
        nodes[p].kind.kids().contains(y),
        nodes.contains_key(y),
    ensures
        reaches(nodes, id, y, n + 1),
    decreases n,
{
    let kids = nodes[id].kind.kids();
    if p == id {
        let i = choose|i: int| 0 <= i < kids.len() && kids[i] == y;
        assert(reaches(nodes, kids[i], y, n));
    } else {
        let i = choose|i: int|
            0 <= i < kids.len() && reaches(nodes, #[trigger] kids[i], p, (n - 1) as nat);
        reaches_on(nodes, kids[i], p, y, (n - 1) as nat);
        assert(reaches(nodes, kids[i], y, (n + 1 - 1) as nat));
    }
}

/// The topmost node above one.
pub open spec fn top_of(nodes: Map<NodeId, Entry>, id: NodeId, n: nat) -> NodeId
    decreases n,
{
    match nodes[id].parent {
        Some(up) => if n == 0 {
            id
        } else {
            top_of(nodes, up, (n - 1) as nat)
        },
        None => id,
    }
}

proof fn top_steady(nodes: Map<NodeId, Entry>, id: NodeId, n: nat, m: nat)
    requires
        shape::climbs(nodes, id, n),
        n <= m,
    ensures
        top_of(nodes, id, m) == top_of(nodes, id, n),
        nodes.contains_key(top_of(nodes, id, n)),
        nodes[top_of(nodes, id, n)].parent is None,
    decreases n,
{
    if let Some(up) = nodes[id].parent {
        top_steady(nodes, up, (n - 1) as nat, (m - 1) as nat);
    }
}

/// The node a node hangs from.
pub open spec fn top(s: Tx, id: NodeId) -> NodeId {
    top_of(s.nodes, id, MAX_DEPTH as nat)
}

/// A node and its parent hang from one node.
pub proof fn top_step(s: Tx, id: NodeId)
    requires
        shape::bounded(s.nodes),
        s.live(id),
    ensures
        s.live(top(s, id)),
        s.parent_of(top(s, id)) is None,
        s.parent_of(id) matches Some(up) ==> top(s, id) == top(s, up),
        s.parent_of(id) is None ==> top(s, id) == id,
{
    top_steady(s.nodes, id, MAX_DEPTH as nat, MAX_DEPTH as nat);
    if let Some(up) = s.nodes[id].parent {
        top_steady(s.nodes, up, (MAX_DEPTH - 1) as nat, MAX_DEPTH as nat);
    }
}

/// What hangs from a node is below it.
proof fn top_reaches(s: Tx, id: NodeId, n: nat)
    requires
        exchanging::calm(s),
        shape::bounded(s.nodes),
        shape::climbs(s.nodes, id, n),
        n <= MAX_DEPTH,
    ensures
        reaches(s.nodes, top(s, id), id, n),
    decreases n,
{
    top_step(s, id);
    if let Some(up) = s.nodes[id].parent {
        top_reaches(s, up, (n - 1) as nat);
        assert(!shape::adrift(s, id));
        assert(s.kids(up).contains(id));
        reaches_on(s.nodes, top(s, id), up, id, (n - 1) as nat);
    }
}

/// What is below a node hangs from the same node.
proof fn reaches_top(s: Tx, id: NodeId, y: NodeId, n: nat)
    requires
        shape::bounded(s.nodes),
        shape::linked(s),
        reaches(s.nodes, id, y, n),
    ensures
        s.live(y),
        top(s, y) == top(s, id),
    decreases n,
{
    if y != id {
        let kids = s.nodes[id].kind.kids();
        let i = choose|i: int|
            0 <= i < kids.len() && reaches(s.nodes, #[trigger] kids[i], y, (n - 1) as nat);
        assert(s.kids(id) == kids);
        assert(s.kids(id).contains(kids[i]));
        reaches_top(s, kids[i], y, (n - 1) as nat);
        top_step(s, kids[i]);
    }
}

/// A list that reports a node holds it, and what it held.
proof fn reported_is(list: Seq<NodeId>, id: NodeId)
    ensures
        forall|x: NodeId| #[trigger]
            commit::reported(list, id).contains(x) <==> list.contains(x) || x == id,
        list.no_duplicates() ==> commit::reported(list, id).no_duplicates(),
{
    let out = commit::reported(list, id);
    assert forall|x: NodeId| #[trigger] out.contains(x) <==> list.contains(x) || x == id by {
        if !list.contains(id) {
            assert(out == list.push(id));
            if out.contains(x) {
                let i = choose|i: int| 0 <= i < out.len() && out[i] == x;
                if i < list.len() {
                    assert(list[i] == x);
                }
            }
            if list.contains(x) {
                let i = choose|i: int| 0 <= i < list.len() && list[i] == x;
                assert(out[i] == x);
            }
            assert(out[out.len() - 1] == id);
        }
    }
    if list.no_duplicates() && !list.contains(id) {
        assert forall|a: int, b: int|
            0 <= a < out.len() && 0 <= b < out.len() && a != b implies out[a] != out[b] by {
            if a < list.len() && b < list.len() {
                assert(list[a] != list[b]);
            } else if a < list.len() {
                assert(list.contains(list[a]));
            } else {
                assert(list.contains(list[b]));
            }
        }
    }
}

proof fn post_order_is(nodes: Map<NodeId, Entry>, id: NodeId, list: Seq<NodeId>, levels: nat)
    ensures
        forall|x: NodeId| #[trigger]
            commit::post_order(nodes, id, list, levels).contains(x) <==> list.contains(x) || (levels
                > 0 && reaches(nodes, id, x, (levels - 1) as nat)),
        list.no_duplicates() ==> commit::post_order(nodes, id, list, levels).no_duplicates(),
    decreases levels, 0int, 0int,
{
    if levels > 0 && nodes.contains_key(id) {
        let kids = nodes[id].kind.kids();
        let mid = commit::post_orders(nodes, kids, 0, list, (levels - 1) as nat);
        post_orders_is(nodes, kids, 0, list, (levels - 1) as nat);
        reported_is(mid, id);
        let out = commit::post_order(nodes, id, list, levels);
        assert forall|x: NodeId| #[trigger] out.contains(x) <==> list.contains(x) || (levels > 0
            && reaches(nodes, id, x, (levels - 1) as nat)) by {
            assert(out.contains(x) <==> mid.contains(x) || x == id);
            assert(mid.contains(x) <==> list.contains(x) || below_any(
                nodes,
                kids,
                0,
                x,
                (levels - 1) as nat,
            ));
            if below_any(nodes, kids, 0, x, (levels - 1) as nat) {
                let i = choose|i: int|
                    0 <= i < kids.len() && levels - 1 > 0 && reaches(
                        nodes,
                        #[trigger] kids[i],
                        x,
                        (levels - 2) as nat,
                    );
                assert(reaches(nodes, kids[i], x, ((levels - 1) - 1) as nat));
            }
            if reaches(nodes, id, x, (levels - 1) as nat) && x != id {
                let i = choose|i: int|
                    0 <= i < kids.len() && reaches(
                        nodes,
                        #[trigger] kids[i],
                        x,
                        ((levels - 1) - 1) as nat,
                    );
                assert(reaches(nodes, kids[i], x, (levels - 2) as nat));
                assert(below_any(nodes, kids, 0, x, (levels - 1) as nat));
            }
        }
    }
}

/// Whether `x` is one of some nodes, from `i` on, or below one of them.
pub open spec fn below_any(
    nodes: Map<NodeId, Entry>,
    roots: Seq<NodeId>,
    i: int,
    x: NodeId,
    levels: nat,
) -> bool {
    exists|j: int|
        i <= j < roots.len() && levels > 0 && reaches(
            nodes,
            #[trigger] roots[j],
            x,
            (levels - 1) as nat,
        )
}

proof fn post_orders_is(
    nodes: Map<NodeId, Entry>,
    roots: Seq<NodeId>,
    i: int,
    list: Seq<NodeId>,
    levels: nat,
)
    requires
        0 <= i <= roots.len(),
    ensures
        forall|x: NodeId| #[trigger]
            commit::post_orders(nodes, roots, i, list, levels).contains(x) <==> list.contains(x)
                || below_any(nodes, roots, i, x, levels),
        list.no_duplicates() ==> commit::post_orders(
            nodes,
            roots,
            i,
            list,
            levels,
        ).no_duplicates(),
    decreases levels, 1int, roots.len() - i,
{
    if i < roots.len() {
        let mid = commit::post_order(nodes, roots[i], list, levels);
        post_order_is(nodes, roots[i], list, levels);
        post_orders_is(nodes, roots, i + 1, mid, levels);
        let out = commit::post_orders(nodes, roots, i, list, levels);
        assert(out == commit::post_orders(nodes, roots, i + 1, mid, levels));
        assert forall|x: NodeId| #[trigger] out.contains(x) <==> list.contains(x) || below_any(
            nodes,
            roots,
            i,
            x,
            levels,
        ) by {
            assert(out.contains(x) <==> mid.contains(x) || below_any(
                nodes,
                roots,
                i + 1,
                x,
                levels,
            ));
            assert(mid.contains(x) <==> list.contains(x) || (levels > 0 && reaches(
                nodes,
                roots[i],
                x,
                (levels - 1) as nat,
            )));
            if below_any(nodes, roots, i, x, levels) {
                let j = choose|j: int|
                    i <= j < roots.len() && levels > 0 && reaches(
                        nodes,
                        #[trigger] roots[j],
                        x,
                        (levels - 1) as nat,
                    );
                if j > i {
                    assert(below_any(nodes, roots, i + 1, x, levels));
                }
            }
            if below_any(nodes, roots, i + 1, x, levels) {
                let j = choose|j: int|
                    i + 1 <= j < roots.len() && levels > 0 && reaches(
                        nodes,
                        #[trigger] roots[j],
                        x,
                        (levels - 1) as nat,
                    );
                assert(below_any(nodes, roots, i, x, levels));
            }
        }
    } else {
        assert forall|x: NodeId| !below_any(nodes, roots, i, x, levels) by {}
    }
}

proof fn pending_roots_is(s: Tx, i: int, roots: Seq<NodeId>)
    requires
        0 <= i <= s.pending.len(),
    ensures
        forall|x: NodeId| #[trigger]
            commit::pending_roots(s, i, roots).contains(x) <==> roots.contains(x) || (
            s.is_pending.contains(x) && exists|j: int|
                i <= j < s.pending.len() && #[trigger] s.pending[j] == x),
    decreases s.pending.len() - i,
{
    if i < s.pending.len() {
        let next = if s.is_pending.contains(s.pending[i]) {
            commit::reported(roots, s.pending[i])
        } else {
            roots
        };
        reported_is(roots, s.pending[i]);
        pending_roots_is(s, i + 1, next);
        let out = commit::pending_roots(s, i, roots);
        assert(out == commit::pending_roots(s, i + 1, next));
        assert forall|x: NodeId| #[trigger] out.contains(x) <==> roots.contains(x) || (
        s.is_pending.contains(x) && exists|j: int|
            i <= j < s.pending.len() && #[trigger] s.pending[j] == x) by {
            assert(next.contains(x) <==> roots.contains(x) || (x == s.pending[i]
                && s.is_pending.contains(x)));
            if exists|j: int| i <= j < s.pending.len() && #[trigger] s.pending[j] == x {
                let j = choose|j: int| i <= j < s.pending.len() && #[trigger] s.pending[j] == x;
                if j > i {
                    assert(exists|k: int|
                        i + 1 <= k < s.pending.len() && #[trigger] s.pending[k] == x);
                }
            }
        }
    }
}

proof fn carried_roots_is(s: Tx, i: int, roots: Seq<NodeId>)
    requires
        0 <= i <= s.carry_order.len(),
    ensures
        forall|x: NodeId| #[trigger]
            commit::carried_roots(s, i, roots).contains(x) <==> roots.contains(x) || exists|j: int|
                i <= j < s.carry_order.len() && s.carry.get(#[trigger] s.carry_order[j]) == Some(x),
    decreases s.carry_order.len() - i,
{
    if i < s.carry_order.len() {
        let found = s.carry.get(s.carry_order[i]);
        let next = match found {
            Some(id) => commit::reported(roots, id),
            None => roots,
        };
        if let Some(id) = found {
            reported_is(roots, id);
        }
        carried_roots_is(s, i + 1, next);
        let out = commit::carried_roots(s, i, roots);
        assert(out == commit::carried_roots(s, i + 1, next));
        assert forall|x: NodeId| #[trigger] out.contains(x) <==> roots.contains(x) || exists|j: int|
            i <= j < s.carry_order.len() && s.carry.get(#[trigger] s.carry_order[j]) == Some(x) by {
            assert(next.contains(x) <==> roots.contains(x) || found == Some(x));
            if exists|j: int|
                i <= j < s.carry_order.len() && s.carry.get(#[trigger] s.carry_order[j]) == Some(
                    x,
                ) {
                let j = choose|j: int|
                    i <= j < s.carry_order.len() && s.carry.get(#[trigger] s.carry_order[j])
                        == Some(x);
                if j > i {
                    assert(exists|k: int|
                        i + 1 <= k < s.carry_order.len() && s.carry.get(
                            #[trigger] s.carry_order[k],
                        ) == Some(x));
                }
            }
            if found == Some(x) {
                assert(s.carry.get(s.carry_order[i]) == Some(x));
            }
        }
    }
}

/// What is removed is what does not hang from the root.
pub proof fn removed_is(
    s: Tx,
    nodes: Map<NodeId, Entry>,
    was: Map<NodeId, Entry>,
    ids: Seq<NodeId>,
)
    requires
        patching::steady(s, was, ids),
        nodes.dom() == s.nodes.dom(),
        forall|x: NodeId| #[trigger]
            s.live(x) ==> nodes[x].kind == s.nodes[x].kind && nodes[x].parent == s.nodes[x].parent,
    ensures
        forall|x: NodeId| #[trigger]
            commit::removed_nodes(s, nodes).contains(x) <==> s.live(x) && top(s, x) != s.root,
        commit::removed_nodes(s, nodes).no_duplicates(),
{
    reveal(shape::good);
    let first = commit::pending_roots(s, 0, Seq::empty());
    let roots = commit::carried_roots(s, 0, first);
    pending_roots_is(s, 0, Seq::empty());
    carried_roots_is(s, 0, first);
    let out = commit::removed_nodes(s, nodes);
    post_orders_is(nodes, roots, 0, Seq::empty(), MAX_WALK as nat);
    assert forall|x: NodeId| #[trigger] roots.contains(x) <==> s.is_pending.contains(x)
        || shape::carried(s, x) by {
        assert(first.contains(x) <==> s.is_pending.contains(x)) by {
            if s.is_pending.contains(x) {
                assert(s.pending.contains(x));
                let j = choose|j: int| 0 <= j < s.pending.len() && s.pending[j] == x;
                assert(s.pending[j] == x);
            }
        }
        if shape::carried(s, x) {
            let name = choose|name: (NodeId, Chars)| #[trigger]
                s.carry.contains_key(name) && s.carry[name] == x;
            assert(s.carry_order.contains(name));
            let j = choose|j: int| 0 <= j < s.carry_order.len() && s.carry_order[j] == name;
            assert(s.carry.get(s.carry_order[j]) == Some(x));
        }
        if exists|j: int|
            0 <= j < s.carry_order.len() && s.carry.get(#[trigger] s.carry_order[j]) == Some(x) {
            let j = choose|j: int|
                0 <= j < s.carry_order.len() && s.carry.get(#[trigger] s.carry_order[j]) == Some(
                    x,
                );
            assert(s.carry.contains_key(s.carry_order[j]));
        }
    }
    assert forall|x: NodeId| #[trigger] out.contains(x) <==> s.live(x) && top(s, x) != s.root by {
        assert(out.contains(x) <==> below_any(nodes, roots, 0, x, MAX_WALK as nat));
        if below_any(nodes, roots, 0, x, MAX_WALK as nat) {
            let j = choose|j: int|
                0 <= j < roots.len() && MAX_WALK > 0 && reaches(
                    nodes,
                    #[trigger] roots[j],
                    x,
                    (MAX_WALK - 1) as nat,
                );
            let r = roots[j];
            assert(roots.contains(r));
            assert(s.live(r) && s.parent_of(r) is None && r != s.root) by {
                if shape::carried(s, r) {
                    let name = choose|name: (NodeId, Chars)| #[trigger]
                        s.carry.contains_key(name) && s.carry[name] == r;
                }
            }
            reaches_same(s, nodes, r, x, (MAX_WALK - 1) as nat);
            reaches_top(s, r, x, (MAX_WALK - 1) as nat);
            top_step(s, r);
        }
        if s.live(x) && top(s, x) != s.root {
            let r = top(s, x);
            top_step(s, x);
            assert(s.live(r));
            assert(roots.contains(r));
            let j = choose|j: int| 0 <= j < roots.len() && roots[j] == r;
            top_reaches(s, x, MAX_DEPTH as nat);
            reaches_more(s.nodes, r, x, MAX_DEPTH as nat, (MAX_WALK - 1) as nat);
            reaches_same(s, nodes, r, x, (MAX_WALK - 1) as nat);
            assert(reaches(nodes, roots[j], x, (MAX_WALK - 1) as nat));
            assert(below_any(nodes, roots, 0, x, MAX_WALK as nat));
        }
    }
}

proof fn reaches_more(nodes: Map<NodeId, Entry>, id: NodeId, y: NodeId, n: nat, m: nat)
    requires
        reaches(nodes, id, y, n),
        n <= m,
    ensures
        reaches(nodes, id, y, m),
    decreases n,
{
    if y != id {
        let kids = nodes[id].kind.kids();
        let i = choose|i: int|
            0 <= i < kids.len() && reaches(nodes, #[trigger] kids[i], y, (n - 1) as nat);
        reaches_more(nodes, kids[i], y, (n - 1) as nat, (m - 1) as nat);
    }
}

proof fn reaches_same(s: Tx, nodes: Map<NodeId, Entry>, id: NodeId, y: NodeId, n: nat)
    requires
        nodes.dom() == s.nodes.dom(),
        forall|x: NodeId| #[trigger] s.live(x) ==> nodes[x].kind == s.nodes[x].kind,
    ensures
        reaches(nodes, id, y, n) == reaches(s.nodes, id, y, n),
    decreases n,
{
    assert(nodes.dom().contains(id) == s.nodes.dom().contains(id));
    if s.live(id) && y != id && n > 0 {
        let kids = s.nodes[id].kind.kids();
        assert forall|i: int| 0 <= i < kids.len() implies reaches(
            nodes,
            #[trigger] kids[i],
            y,
            (n - 1) as nat,
        ) == reaches(s.nodes, kids[i], y, (n - 1) as nat) by {
            reaches_same(s, nodes, kids[i], y, (n - 1) as nat);
        }
        if reaches(nodes, id, y, n) {
            let i = choose|i: int|
                0 <= i < kids.len() && reaches(
                    nodes,
                    #[trigger] nodes[id].kind.kids()[i],
                    y,
                    (n - 1) as nat,
                );
            assert(reaches(s.nodes, s.nodes[id].kind.kids()[i], y, (n - 1) as nat));
        }
        if reaches(s.nodes, id, y, n) {
            let i = choose|i: int|
                0 <= i < kids.len() && reaches(
                    s.nodes,
                    #[trigger] s.nodes[id].kind.kids()[i],
                    y,
                    (n - 1) as nat,
                );
            assert(reaches(nodes, nodes[id].kind.kids()[i], y, (n - 1) as nat));
        }
    }
}

/// What reporting the removed nodes leaves.
proof fn reported_all(t: Settled, list: Seq<NodeId>, i: int)
    requires
        0 <= i <= list.len(),
        list.no_duplicates(),
        t.changed.no_duplicates(),
        forall|j: int| 0 <= j < list.len() ==> t.nodes.contains_key(#[trigger] list[j]),
    ensures
        ({
            let u = commit::report_removed(t, list, i);
            &&& u.nodes.dom() == t.nodes.dom()
            &&& forall|x: NodeId| #[trigger]
                t.nodes.contains_key(x) ==> u.nodes[x].kind == t.nodes[x].kind && u.nodes[x].parent
                    == t.nodes[x].parent && u.nodes[x].subs == t.nodes[x].subs && u.nodes[x].sem
                    == t.nodes[x].sem
            &&& forall|x: NodeId| #[trigger]
                t.nodes.contains_key(x) && (t.changed.contains(x) || !list.contains(x))
                    ==> u.nodes[x].revision == t.nodes[x].revision
            &&& forall|x: NodeId| #[trigger]
                u.changed.contains(x) <==> t.changed.contains(x) || exists|j: int|
                    i <= j < list.len() && #[trigger] list[j] == x
            &&& u.changed.no_duplicates()
            &&& t.changed.len() <= u.changed.len()
            &&& forall|k: int| 0 <= k < t.changed.len() ==> u.changed[k] == #[trigger] t.changed[k]
        }),
    decreases list.len() - i,
{
    if i < list.len() {
        let id = list[i];
        if t.changed.contains(id) {
            reported_all(t, list, i + 1);
            let u = commit::report_removed(t, list, i);
            assert(u == commit::report_removed(t, list, i + 1));
            assert forall|x: NodeId| #[trigger] u.changed.contains(x) <==> t.changed.contains(x)
                || exists|j: int| i <= j < list.len() && #[trigger] list[j] == x by {
                if exists|j: int| i <= j < list.len() && #[trigger] list[j] == x {
                    let j = choose|j: int| i <= j < list.len() && #[trigger] list[j] == x;
                    if j > i {
                        assert(exists|k: int| i + 1 <= k < list.len() && #[trigger] list[k] == x);
                    }
                }
            }
        } else {
            let m = Settled {
                nodes: slots::with_revision(t.nodes, id, commit::bumped(t.nodes[id].revision)),
                changed: t.changed.push(id),
            };
            assert(t.nodes.contains_key(list[i]));
            assert(m.nodes.dom() =~= t.nodes.dom());
            assert forall|j: int| 0 <= j < list.len() implies m.nodes.contains_key(
                #[trigger] list[j],
            ) by {
                assert(t.nodes.contains_key(list[j]));
            }
            assert forall|x: NodeId| #[trigger] m.changed.contains(x) <==> t.changed.contains(x)
                || x == id by {
                if m.changed.contains(x) {
                    let k = choose|k: int| 0 <= k < m.changed.len() && m.changed[k] == x;
                    if k < t.changed.len() {
                        assert(t.changed[k] == x);
                    }
                }
                if t.changed.contains(x) {
                    let k = choose|k: int| 0 <= k < t.changed.len() && t.changed[k] == x;
                    assert(m.changed[k] == x);
                }
                assert(m.changed[m.changed.len() - 1] == id);
            }
            assert(m.changed.no_duplicates()) by {
                assert forall|a: int, b: int|
                    0 <= a < m.changed.len() && 0 <= b < m.changed.len() && a
                        != b implies m.changed[a] != m.changed[b] by {
                    if a < t.changed.len() && b < t.changed.len() {
                        assert(t.changed[a] != t.changed[b]);
                    } else if a < t.changed.len() {
                        assert(t.changed.contains(t.changed[a]));
                    } else {
                        assert(t.changed.contains(t.changed[b]));
                    }
                }
            }
            reported_all(m, list, i + 1);
            let u = commit::report_removed(t, list, i);
            assert(u == commit::report_removed(m, list, i + 1));
            assert forall|x: NodeId| #[trigger] t.nodes.contains_key(x) implies u.nodes[x].kind
                == t.nodes[x].kind && u.nodes[x].parent == t.nodes[x].parent && u.nodes[x].subs
                == t.nodes[x].subs && u.nodes[x].sem == t.nodes[x].sem by {
                assert(m.nodes.contains_key(x));
            }
            assert forall|x: NodeId| #[trigger]
                t.nodes.contains_key(x) && (t.changed.contains(x) || !list.contains(
                    x,
                )) implies u.nodes[x].revision == t.nodes[x].revision by {
                assert(list.contains(list[i]));
                assert(m.nodes.contains_key(x));
                assert(m.changed.contains(x) <==> t.changed.contains(x) || x == id);
            }
            assert forall|x: NodeId| #[trigger] u.changed.contains(x) <==> t.changed.contains(x)
                || exists|j: int| i <= j < list.len() && #[trigger] list[j] == x by {
                assert(m.changed.contains(x) <==> t.changed.contains(x) || x == id);
                if exists|j: int| i <= j < list.len() && #[trigger] list[j] == x {
                    let j = choose|j: int| i <= j < list.len() && #[trigger] list[j] == x;
                    if j > i {
                        assert(exists|k: int| i + 1 <= k < list.len() && #[trigger] list[k] == x);
                    }
                }
                if x == id {
                    assert(list[i] == x);
                }
            }
            assert forall|k: int| 0 <= k < t.changed.len() implies u.changed[k]
                == #[trigger] t.changed[k] by {
                assert(m.changed[k] == t.changed[k]);
            }
        }
    }
}

/// The tree without the first `i` nodes of a list.
pub open spec fn without_first(whole: Tree, part: Tree, list: Seq<NodeId>, i: int) -> bool {
    &&& part.root == whole.root
    &&& part.closed == whole.closed
    &&& part.next_subscriber == whole.next_subscriber
    &&& forall|x: NodeId| #[trigger]
        part.nodes.contains_key(x) <==> whole.nodes.contains_key(x) && !before_at(list, i, x)
    &&& forall|x: NodeId| #[trigger]
        part.nodes.contains_key(x) ==> part.nodes[x] == whole.nodes[x]
    &&& forall|p: Path| #[trigger]
        part.stores.contains_key(p) <==> whole.stores.contains_key(p) && !before_at(
            list,
            i,
            whole.stores[p],
        )
    &&& forall|p: Path| #[trigger]
        part.stores.contains_key(p) ==> part.stores[p] == whole.stores[p]
    &&& forall|k: (Path, Chars)| #[trigger]
        part.streams.contains_key(k) <==> whole.streams.contains_key(k) && !before_at(
            list,
            i,
            whole.streams[k],
        )
    &&& forall|k: (Path, Chars)| #[trigger]
        part.streams.contains_key(k) ==> part.streams[k] == whole.streams[k]
}

proof fn freed_from(whole: Tree, part: Tree, list: Seq<NodeId>, i: int)
    requires
        0 <= i <= list.len(),
        list.no_duplicates(),
        shape::indexed(journal::opened(whole)),
        forall|j: int| 0 <= j < list.len() ==> whole.nodes.contains_key(#[trigger] list[j]),
        without_first(whole, part, list, i),
    ensures
        without_first(whole, commit::freed_all(part, list, i), list, list.len() as int),
    decreases list.len() - i,
{
    if i < list.len() {
        let id = list[i];
        let next = commit::freed(part, id);
        let s = journal::opened(whole);
        assert forall|x: NodeId| #[trigger]
            before_at(list, i + 1, x) == (before_at(list, i, x) || x == id) by {
            if before_at(list, i + 1, x) {
                let j = choose|j: int| 0 <= j < i + 1 && j < list.len() && #[trigger] list[j] == x;
                if j < i {
                    assert(before_at(list, i, x));
                }
            }
            if before_at(list, i, x) {
                let j = choose|j: int| 0 <= j < i && j < list.len() && #[trigger] list[j] == x;
                assert(before_at(list, i + 1, x));
            }
            if x == id {
                assert(list[i] == x);
            }
        }
        assert(!before_at(list, i, id)) by {
            if before_at(list, i, id) {
                let j = choose|j: int| 0 <= j < i && j < list.len() && #[trigger] list[j] == id;
            }
        }
        assert(whole.nodes.contains_key(list[i]));
        assert(part.nodes.contains_key(id));
        let kind = part.nodes[id].kind;
        assert(kind == whole.nodes[id].kind);
        assert(without_first(whole, next, list, i + 1)) by {
            assert forall|p: Path| #[trigger]
                next.stores.contains_key(p) <==> whole.stores.contains_key(p) && !before_at(
                    list,
                    i + 1,
                    whole.stores[p],
                ) by {
                assert(part.stores.contains_key(p) <==> whole.stores.contains_key(p)
                    && !before_at(list, i, whole.stores[p]));
                assert(before_at(list, i + 1, whole.stores[p]) == (before_at(
                    list,
                    i,
                    whole.stores[p],
                ) || whole.stores[p] == id));
                if whole.stores.contains_key(p) && whole.stores[p] == id {
                    assert(s.stores.contains_key(p));
                    assert(s.is_store(id, p));
                }
                if part.stores.contains_key(p) && !next.stores.contains_key(p) {
                    assert(part.stores[p] == id);
                }
            }
            assert forall|p: Path| #[trigger] next.stores.contains_key(p) implies next.stores[p]
                == whole.stores[p] by {
                assert(part.stores.contains_key(p));
            }
            assert forall|k: (Path, Chars)| #[trigger]
                next.streams.contains_key(k) <==> whole.streams.contains_key(k) && !before_at(
                    list,
                    i + 1,
                    whole.streams[k],
                ) by {
                assert(part.streams.contains_key(k) <==> whole.streams.contains_key(k)
                    && !before_at(list, i, whole.streams[k]));
                assert(before_at(list, i + 1, whole.streams[k]) == (before_at(
                    list,
                    i,
                    whole.streams[k],
                ) || whole.streams[k] == id));
                if whole.streams.contains_key(k) && whole.streams[k] == id {
                    assert(s.streams.contains_key(k));
                    assert(shape::is_stream(s, id, k));
                }
                if part.streams.contains_key(k) && !next.streams.contains_key(k) {
                    assert(part.streams[k] == id);
                }
            }
            assert forall|k: (Path, Chars)| #[trigger] next.streams.contains_key(k) implies
                next.streams[k] == whole.streams[k] by {
                assert(part.streams.contains_key(k));
            }
            assert forall|x: NodeId| #[trigger]
                next.nodes.contains_key(x) <==> whole.nodes.contains_key(x) && !before_at(
                    list,
                    i + 1,
                    x,
                ) by {
                assert(part.nodes.contains_key(x) <==> whole.nodes.contains_key(x) && !before_at(
                    list,
                    i,
                    x,
                ));
            }
            assert forall|x: NodeId| #[trigger] next.nodes.contains_key(x) implies next.nodes[x]
                == whole.nodes[x] by {
                assert(part.nodes.contains_key(x));
            }
        }
        freed_from(whole, next, list, i + 1);
    }
}

/// Reporting what leaves moves nothing.
pub proof fn reported_places(t: Settled, list: Seq<NodeId>)
    requires
        list.no_duplicates(),
        t.changed.no_duplicates(),
        forall|x: NodeId| #[trigger] list.contains(x) ==> t.nodes.contains_key(x),
    ensures
        forall|x: NodeId| #[trigger]
            t.nodes.contains_key(x) ==> commit::report_removed(t, list, 0).nodes[x].parent
                == t.nodes[x].parent,
{
    assert forall|j: int| 0 <= j < list.len() implies t.nodes.contains_key(#[trigger] list[j]) by {
        assert(list.contains(list[j]));
    }
    reported_all(t, list, 0);
}

/// What the nodes of a list that are not in another are.
pub proof fn staying_is(list: Seq<NodeId>, gone: Seq<NodeId>, n: int)
    requires
        0 <= n <= list.len(),
        list.no_duplicates(),
    ensures
        ({
            let left = commit::staying(list, gone, n);
            &&& forall|x: NodeId| #[trigger]
                left.contains(x) <==> before_at(list, n, x) && !gone.contains(x)
            &&& left.no_duplicates()
        }),
    decreases n,
{
    let left = commit::staying(list, gone, n);
    if n > 0 {
        staying_is(list, gone, n - 1);
        let rest = commit::staying(list, gone, n - 1);
        let id = list[n - 1];
        assert forall|x: NodeId| before_at(list, n, x) == (before_at(list, n - 1, x) || x == id) by {
            if before_at(list, n, x) {
                let j = choose|j: int| 0 <= j < n && j < list.len() && #[trigger] list[j] == x;
                assert(list[j] == x);
            }
            if x == id {
                assert(list[n - 1] == x);
            }
        }
        assert(!before_at(list, n - 1, id));
        if !gone.contains(id) {
            assert forall|x: NodeId| #[trigger] left.contains(x) <==> before_at(list, n, x)
                && !gone.contains(x) by {
                if left.contains(x) {
                    let k = choose|k: int| 0 <= k < left.len() && left[k] == x;
                    if k < rest.len() {
                        assert(rest[k] == x);
                        assert(rest.contains(x));
                    }
                }
                if rest.contains(x) {
                    let k = choose|k: int| 0 <= k < rest.len() && rest[k] == x;
                    assert(left[k] == x);
                }
                assert(left[left.len() - 1] == id);
            }
            assert forall|a: int, b: int|
                0 <= a < left.len() && 0 <= b < left.len() && a != b implies left[a] != left[b] by {
                if a < rest.len() && b < rest.len() {
                    assert(rest[a] != rest[b]);
                } else if a < rest.len() {
                    assert(rest.contains(rest[a]));
                } else {
                    assert(rest.contains(rest[b]));
                }
            }
        }
    }
}

/// All that is told: what changed and stays, then what leaves.
proof fn told_is(list: Seq<NodeId>, gone: Seq<NodeId>)
    requires
        list.no_duplicates(),
        gone.no_duplicates(),
    ensures
        ({
            let told = commit::staying(list, gone, list.len() as int) + gone;
            &&& forall|x: NodeId| #[trigger]
                told.contains(x) <==> list.contains(x) || gone.contains(x)
            &&& told.no_duplicates()
        }),
{
    let left = commit::staying(list, gone, list.len() as int);
    let told = left + gone;
    staying_is(list, gone, list.len() as int);
    assert forall|x: NodeId| #[trigger] told.contains(x) <==> list.contains(x) || gone.contains(
        x,
    ) by {
        if told.contains(x) {
            let k = choose|k: int| 0 <= k < told.len() && told[k] == x;
            if k < left.len() {
                assert(left.contains(left[k]));
            } else {
                assert(gone[k - left.len()] == x);
            }
        }
        if list.contains(x) && !gone.contains(x) {
            let j = choose|j: int| 0 <= j < list.len() && list[j] == x;
            assert(before_at(list, list.len() as int, x));
            assert(left.contains(x));
            let k = choose|k: int| 0 <= k < left.len() && left[k] == x;
            assert(told[k] == x);
        }
        if gone.contains(x) {
            let k = choose|k: int| 0 <= k < gone.len() && gone[k] == x;
            assert(told[left.len() + k] == x);
        }
    }
    assert forall|a: int, b: int|
        0 <= a < told.len() && 0 <= b < told.len() && a != b implies told[a] != told[b] by {
        if a < left.len() && b < left.len() {
            assert(left[a] != left[b]);
        } else if a < left.len() {
            assert(left.contains(left[a]));
            assert(gone.contains(gone[b - left.len()]));
        } else if b < left.len() {
            assert(left.contains(left[b]));
            assert(gone.contains(gone[a - left.len()]));
        } else {
            assert(gone[a - left.len()] != gone[b - left.len()]);
        }
    }
}

/// What a commit leaves: the nodes that hang from the root, each with the value
/// its children's values make; a node is reported where its value differs from
/// the one it had, or where it is removed.
pub open spec fn concludes(s: Tx, tree: Tree, changed: Seq<NodeId>) -> bool {
    &&& tree.root == s.root
    &&& tree.closed == s.closed
    &&& tree.next_subscriber == s.next_subscriber
    &&& forall|x: NodeId| #[trigger]
        tree.nodes.contains_key(x) <==> s.live(x) && top(s, x) == s.root
    &&& forall|x: NodeId| #[trigger]
        tree.nodes.contains_key(x) ==> tree.nodes[x].kind == s.nodes[x].kind
            && tree.nodes[x].parent == s.nodes[x].parent && tree.nodes[x].subs == s.nodes[x].subs
            && node::alike(tree.nodes[x].sem, model::shallow_value(tree.nodes, x)) && tree.nodes[x].revision
            == (if changed.contains(x) {
            commit::bumped(s.nodes[x].revision)
        } else {
            s.nodes[x].revision
        })
    &&& forall|x: NodeId| #[trigger]
        tree.nodes.contains_key(x) ==> (changed.contains(x) <==> s.settle.contains_key(x)
            && !node::alike(tree.nodes[x].sem, s.settle[x]))
    &&& forall|x: NodeId| #[trigger]
        tree.nodes.contains_key(x) && s.settle.contains_key(x) && !changed.contains(x)
            ==> tree.nodes[x].sem == s.settle[x]
    &&& forall|x: NodeId| #[trigger]
        tree.nodes.contains_key(x) && changed.contains(x) ==> tree.nodes[x].sem
            == model::shallow_value(tree.nodes, x)
    &&& forall|x: NodeId| #[trigger]
        tree.nodes.contains_key(x) && !s.settle.contains_key(x) ==> tree.nodes[x].sem
            == s.nodes[x].sem
    &&& forall|x: NodeId| #[trigger] changed.contains(x) ==> s.live(x)
    &&& forall|x: NodeId| #[trigger] s.live(x) && top(s, x) != s.root ==> changed.contains(x)
    &&& changed.no_duplicates()
    &&& forall|p: Path| #[trigger]
        tree.stores.contains_key(p) <==> s.stores.contains_key(p) && top(s, s.stores[p]) == s.root
    &&& forall|p: Path| #[trigger]
        tree.stores.contains_key(p) ==> tree.stores[p] == s.stores[p]
    &&& forall|k: (Path, Chars)| #[trigger]
        tree.streams.contains_key(k) <==> s.streams.contains_key(k) && top(s, s.streams[k])
            == s.root
    &&& forall|k: (Path, Chars)| #[trigger]
        tree.streams.contains_key(k) ==> tree.streams[k] == s.streams[k]
}

#[verifier::rlimit(30)]
pub proof fn concluded_all(s: Tx, was: Map<NodeId, Entry>, ids: Seq<NodeId>)
    requires
        patching::steady(s, was, ids),
    ensures
        concludes(s, commit::committed(s), commit::concluded(s).changed),
        forall|x: NodeId| #[trigger]
            commit::committed(s).nodes.contains_key(x) ==> commit::concluded(
                s,
            ).nodes.contains_key(x) && commit::concluded(s).nodes[x] == commit::committed(
                s,
            ).nodes[x],
        forall|x: NodeId| #[trigger]
            s.live(x) ==> commit::concluded(s).nodes.contains_key(x) && commit::concluded(
                s,
            ).nodes[x].subs == s.nodes[x].subs,
{
    let t = commit::settled(s);
    settled_all(s, was, ids);
    let list = commit::removed_nodes(s, t.nodes);
    removed_is(s, t.nodes, was, ids);
    assert forall|j: int| 0 <= j < list.len() implies t.nodes.contains_key(#[trigger] list[j]) by {
        assert(list.contains(list[j]));
        assert(t.nodes.dom().contains(list[j]));
    }
    reported_all(t, list, 0);
    let u = commit::concluded(s);
    staying_is(t.changed, list, t.changed.len() as int);
    told_is(t.changed, list);
    let whole = Tree {
        nodes: u.nodes,
        root: s.root,
        stores: s.stores,
        streams: s.streams,
        closed: s.closed,
        next_subscriber: s.next_subscriber,
    };
    let o = journal::opened(whole);
    assert forall|x: NodeId| #[trigger] s.live(x) implies u.nodes.contains_key(x) && u.nodes[x].kind
        == s.nodes[x].kind && u.nodes[x].subs == s.nodes[x].subs by {
        assert(t.nodes.dom().contains(x));
        assert(t.nodes.contains_key(x));
        assert(u.nodes.dom().contains(x));
    }
    assert(shape::indexed(o)) by {
        reveal(shape::good);
        assert forall|p: Path| #[trigger] o.stores.contains_key(p) implies o.is_store(
            o.stores[p],
            p,
        ) by {
            assert(s.stores.contains_key(p));
            assert(s.is_store(s.stores[p], p));
            assert(s.live(s.stores[p]));
        }
        assert forall|key: (Path, Chars)| #[trigger]
            o.streams.contains_key(key) implies shape::is_stream(o, o.streams[key], key) by {
            assert(s.streams.contains_key(key));
            assert(shape::is_stream(s, s.streams[key], key));
            assert(s.live(s.streams[key]));
        }
    }
    assert forall|j: int| 0 <= j < list.len() implies whole.nodes.contains_key(
        #[trigger] list[j],
    ) by {
        assert(t.nodes.contains_key(list[j]));
        assert(u.nodes.dom().contains(list[j]));
    }
    assert(without_first(whole, whole, list, 0)) by {
        assert forall|x: NodeId| !before_at(list, 0, x) by {}
    }
    freed_from(whole, whole, list, 0);
    let tree = commit::committed(s);
    assert forall|x: NodeId| before_at(list, list.len() as int, x) == list.contains(x) by {
        if list.contains(x) {
            let j = choose|j: int| 0 <= j < list.len() && list[j] == x;
            assert(before_at(list, list.len() as int, x));
        }
        if before_at(list, list.len() as int, x) {
            let j = choose|j: int|
                0 <= j < list.len() && j < list.len() && #[trigger] list[j] == x;
        }
    }
    assert forall|x: NodeId| #[trigger] tree.nodes.contains_key(x) <==> s.live(x) && top(s, x)
        == s.root by {
        assert(u.nodes.dom().contains(x) == s.nodes.dom().contains(x));
        assert(list.contains(x) <==> s.live(x) && top(s, x) != s.root);
    }
    assert forall|x: NodeId| #[trigger] tree.nodes.contains_key(x) implies node::alike(
        tree.nodes[x].sem,
        model::shallow_value(tree.nodes, x),
    ) && (t.changed.contains(x) ==> tree.nodes[x].sem == model::shallow_value(tree.nodes, x)) by {
        assert(s.live(x));
        assert(t.nodes.contains_key(x));
        let kids = s.kids(x);
        assert forall|k: int| 0 <= k < kids.len() implies t.nodes.contains_key(#[trigger] kids[k])
            == tree.nodes.contains_key(kids[k]) && (t.nodes.contains_key(kids[k])
            ==> t.nodes[kids[k]].sem == tree.nodes[kids[k]].sem) by {
            reveal(shape::good);
            assert(s.kids(x).contains(kids[k]));
            assert(s.parent_of(kids[k]) == Some(x));
            assert(s.live(kids[k]));
            top_step(s, kids[k]);
            assert(tree.nodes.contains_key(kids[k]));
            assert(t.nodes.dom().contains(kids[k]));
            assert(t.nodes.contains_key(kids[k]));
        }
        upkeep::cached_same(t.nodes, tree.nodes, kids);
    }
    assert forall|x: NodeId| #[trigger] tree.nodes.contains_key(x) implies tree.nodes[x].kind
        == s.nodes[x].kind && tree.nodes[x].parent == s.nodes[x].parent && tree.nodes[x].subs
        == s.nodes[x].subs && tree.nodes[x].revision == (if u.changed.contains(x) {
        commit::bumped(s.nodes[x].revision)
    } else {
        s.nodes[x].revision
    }) by {
        assert(s.live(x));
        assert(t.nodes.contains_key(x));
        assert(!list.contains(x));
    }
    assert forall|x: NodeId| #[trigger] tree.nodes.contains_key(x) implies (u.changed.contains(x)
        <==> s.settle.contains_key(x) && tree.nodes[x].sem != s.settle[x]) by {
        assert(s.live(x));
        assert(t.nodes.contains_key(x));
        assert(!list.contains(x));
        assert(t.changed.contains(x) <==> s.settle.contains_key(x) && t.nodes[x].sem
            != s.settle[x]);
    }
    assert forall|x: NodeId| #[trigger]
        tree.nodes.contains_key(x) && !s.settle.contains_key(x) implies tree.nodes[x].sem
        == s.nodes[x].sem by {
        assert(s.live(x));
        assert(t.nodes.contains_key(x));
    }
    assert forall|x: NodeId| #[trigger] u.changed.contains(x) implies s.live(x) by {
        reveal(shape::good);
        if t.changed.contains(x) {
            assert(s.settle.contains_key(x));
        }
    }
    assert forall|p: Path| #[trigger] tree.stores.contains_key(p) <==> s.stores.contains_key(p)
        && top(s, s.stores[p]) == s.root by {
        if s.stores.contains_key(p) {
            reveal(shape::good);
            assert(s.is_store(s.stores[p], p));
            assert(list.contains(s.stores[p]) <==> s.live(s.stores[p]) && top(s, s.stores[p])
                != s.root);
        }
    }
    assert forall|k: (Path, Chars)| #[trigger]
        tree.streams.contains_key(k) <==> s.streams.contains_key(k) && top(s, s.streams[k])
            == s.root by {
        if s.streams.contains_key(k) {
            reveal(shape::good);
            assert(shape::is_stream(s, s.streams[k], k));
            assert(list.contains(s.streams[k]) <==> s.live(s.streams[k]) && top(s, s.streams[k])
                != s.root);
        }
    }
}

} // verus!
