//! The single steps of a transaction, and what each keeps.

use vstd::prelude::*;

use crate::state::model;
use crate::state::model::{Tx, MAX_DEPTH, MAX_WALK};
use crate::state::node;
use crate::state::node::{Kind, NodeId};
use crate::state::shape;
use crate::state::slots;
use crate::state::slots::Entry;
use crate::state::text::Chars;
use crate::state::wire::Path;

verus! {

/// Two states that differ in the record alone.
pub open spec fn alike(s: Tx, t: Tx) -> bool {
    &&& t.nodes == s.nodes
    &&& t.root == s.root
    &&& t.stores == s.stores
    &&& t.streams == s.streams
    &&& t.pending == s.pending
    &&& t.is_pending == s.is_pending
    &&& t.carry == s.carry
    &&& t.carry_order == s.carry_order
    &&& t.settle == s.settle
    &&& t.settle_order == s.settle_order
    &&& t.allocated == s.allocated
}

/// What holds of a state holds of one that differs in the record alone.
pub proof fn alike_keeps(s: Tx, t: Tx, was: Map<NodeId, Entry>, ids: Seq<NodeId>)
    requires
        alike(s, t),
        shape::formed(s, was, ids),
    ensures
        shape::formed(t, was, ids),
{
    assert(forall|id: NodeId| s.live(id) == t.live(id));
    assert(forall|id: NodeId| s.parent_of(id) == t.parent_of(id));
    assert(forall|id: NodeId| #[trigger] t.kids(id) == s.kids(id));
    assert(shape::linked(t)) by {
        assert forall|p: NodeId, c: NodeId| #[trigger] t.kids(p).contains(c) implies t.parent_of(c)
            == Some(p) by {
            assert(s.kids(p).contains(c));
        }
        assert forall|p: NodeId| #[trigger] t.kids(p).no_duplicates() by {
            assert(s.kids(p).no_duplicates());
        }
    }
    assert(shape::tidied(t)) by {
        assert forall|id: NodeId| #[trigger] t.live(id) implies shape::tidy(t.kind(id)) by {
            assert(s.live(id));
        }
    }
    assert(shape::afloat(t)) by {
        assert forall|id: NodeId| #[trigger] t.live(id) && t.parent_of(id) is None implies id
            == t.root || t.is_pending.contains(id) || shape::carried(t, id) by {
            assert(s.live(id));
            if shape::carried(s, id) {
                let name = choose|name: (NodeId, Chars)| #[trigger]
                    s.carry.contains_key(name) && s.carry[name] == id;
                assert(t.carry.contains_key(name));
            }
        }
    }
    assert(shape::consistent(t)) by {
        assert forall|id: NodeId| #[trigger] t.live(id) && !t.settle.contains_key(id) implies
            node::alike(t.nodes[id].sem, t.shallow(id)) by {
            assert(s.live(id));
        }
    }
}

/// The nodes that are not dirty are as before, and more are dirty.
pub open spec fn only_dirtied(s: Tx, t: Tx) -> bool {
    &&& t == Tx { settle: t.settle, settle_order: t.settle_order, ..s }
    &&& forall|id: NodeId| #[trigger] s.settle.contains_key(id) ==> t.settle.contains_key(id)
}

proof fn noted(s: Tx, id: NodeId, stale: Set<NodeId>, was: Map<NodeId, Entry>, ids: Seq<NodeId>)
    requires
        shape::formed_but(s, stale, was, ids),
        s.live(id),
    ensures
        shape::formed_but(s.note_dirty(id), stale, was, ids),
        only_dirtied(s, s.note_dirty(id)),
        s.note_dirty(id).settle.contains_key(id),
        forall|x: NodeId| #[trigger]
            s.note_dirty(id).settle.contains_key(x) ==> s.settle.contains_key(x) || x == id,
{
    let t = s.note_dirty(id);
    if !s.settle.contains_key(id) {
        assert(forall|x: NodeId| s.live(x) == t.live(x));
        assert(forall|x: NodeId| s.parent_of(x) == t.parent_of(x));
        assert(forall|x: NodeId| #[trigger] t.kids(x) == s.kids(x));
        assert(shape::linked(t)) by {
            assert forall|p: NodeId, c: NodeId| #[trigger]
                t.kids(p).contains(c) implies t.parent_of(c) == Some(p) by {
                assert(s.kids(p).contains(c));
            }
            assert forall|p: NodeId| #[trigger] t.kids(p).no_duplicates() by {
                assert(s.kids(p).no_duplicates());
            }
        }
        assert(shape::tidied(t)) by {
            assert forall|x: NodeId| #[trigger] t.live(x) implies shape::tidy(t.kind(x)) by {
                assert(s.live(x));
            }
        }
        assert(shape::afloat(t)) by {
            assert forall|x: NodeId| #[trigger] t.live(x) && t.parent_of(x) is None implies x
                == t.root || t.is_pending.contains(x) || shape::carried(t, x) by {
                assert(s.live(x));
                if shape::carried(s, x) {
                    let name = choose|name: (NodeId, Chars)| #[trigger]
                        s.carry.contains_key(name) && s.carry[name] == x;
                    assert(t.carry.contains_key(name));
                }
            }
        }
        assert(shape::consistent_but(t, stale)) by {
            assert forall|x: NodeId| #[trigger] t.live(x) && !t.settle.contains_key(x) && !stale.contains(x) implies
                node::alike(t.nodes[x].sem, t.shallow(x)) by {
                assert(s.live(x));
            }
        }
        assert(shape::listed(t)) by {
            assert(!s.settle_order.contains(id));
            assert forall|x: NodeId| t.settle.contains_key(x) == #[trigger]
                t.settle_order.contains(x) by {
                assert(s.settle.contains_key(x) == s.settle_order.contains(x));
                if x == id {
                    assert(t.settle_order[t.settle_order.len() - 1] == id);
                }
                if s.settle_order.contains(x) {
                    let i = choose|i: int| 0 <= i < s.settle_order.len() && s.settle_order[i] == x;
                    assert(t.settle_order[i] == x);
                }
                if t.settle_order.contains(x) && x != id {
                    let i = choose|i: int| 0 <= i < t.settle_order.len() && t.settle_order[i] == x;
                    assert(s.settle_order[i] == x);
                }
            }
        }
    }
}

/// Dirtying a node and every ancestor of it closes the way up from it.
pub proof fn dirtied_up(
    s: Tx,
    id: NodeId,
    walk: nat,
    but: Set<NodeId>,
    stale: Set<NodeId>,
    was: Map<NodeId, Entry>,
    ids: Seq<NodeId>,
)
    requires
        shape::formed_but(s, stale, was, ids),
        shape::upward(s, but.insert(id)),
        walk > 0,
        shape::climbs(s.nodes, id, (walk - 1) as nat),
    ensures
        shape::formed_but(s.dirty_up(Some(id), walk), stale, was, ids),
        shape::upward(s.dirty_up(Some(id), walk), but),
        only_dirtied(s, s.dirty_up(Some(id), walk)),
        s.dirty_up(Some(id), walk).settle.contains_key(id),
        s.parent_of(id) matches Some(up) ==> s.dirty_up(Some(id), walk).settle.contains_key(up),
    decreases walk,
{
    let t = s.note_dirty(id);
    noted(s, id, stale, was, ids);
    match s.nodes[id].parent {
        None => {
            assert(t.dirty_up(None, (walk - 1) as nat) == t);
            assert(shape::upward(t, but));
        },
        Some(up) => {
            assert(shape::upward(t, but.insert(up))) by {
                assert forall|x: NodeId| #[trigger] t.settle.contains_key(x) implies t.live(x) && (
                t.parent_of(x) matches Some(p) ==> t.settle.contains_key(p) || but.insert(
                    up,
                ).contains(p)) by {
                    if x != id {
                        assert(s.settle.contains_key(x));
                    }
                }
            }
            dirtied_up(t, up, (walk - 1) as nat, but, stale, was, ids);
        },
    }
}

/// `mark_dirty` closes the way up from the node it marks.
pub proof fn marked_but(
    s: Tx,
    id: NodeId,
    but: Set<NodeId>,
    stale: Set<NodeId>,
    was: Map<NodeId, Entry>,
    ids: Seq<NodeId>,
)
    requires
        shape::formed_but(s, stale, was, ids),
        shape::upward(s, but.insert(id)),
        s.live(id),
    ensures
        shape::formed_but(s.mark_dirty(id), stale, was, ids),
        shape::upward(s.mark_dirty(id), but),
        only_dirtied(s, s.mark_dirty(id)),
        s.mark_dirty(id).settle.contains_key(id),
        s.parent_of(id) matches Some(up) ==> s.mark_dirty(id).settle.contains_key(up),
{
    shape::climbs_more(s.nodes, id, MAX_DEPTH as nat, (MAX_WALK - 1) as nat);
    dirtied_up(s, id, MAX_WALK as nat, but, stale, was, ids);
}

/// `mark_dirty` closes the way up from the node it marks.
pub proof fn marked(s: Tx, id: NodeId, but: Set<NodeId>, was: Map<NodeId, Entry>, ids: Seq<NodeId>)
    requires
        shape::formed(s, was, ids),
        shape::upward(s, but.insert(id)),
        s.live(id),
    ensures
        shape::formed(s.mark_dirty(id), was, ids),
        shape::upward(s.mark_dirty(id), but),
        only_dirtied(s, s.mark_dirty(id)),
        s.mark_dirty(id).settle.contains_key(id),
        s.parent_of(id) matches Some(up) ==> s.mark_dirty(id).settle.contains_key(up),
{
    let none = Set::<NodeId>::empty();
    assert(shape::consistent_but(s, none));
    marked_but(s, id, but, none, was, ids);
    let t = s.mark_dirty(id);
    assert(shape::consistent(t)) by {
        assert forall|x: NodeId| #[trigger] t.live(x) && !t.settle.contains_key(x) implies
            node::alike(t.nodes[x].sem, t.shallow(x)) by {
            assert(!none.contains(x));
        }
    }
}

/// Two states with the same nodes and filings, where more may be dirty.
pub open spec fn dirtier(s: Tx, t: Tx) -> bool {
    &&& t == Tx { settle: t.settle, settle_order: t.settle_order, touched: t.touched, ..s }
    &&& forall|id: NodeId| #[trigger] s.settle.contains_key(id) ==> t.settle.contains_key(id)
}

/// Recording and dirtying a node keeps everything.
pub proof fn touched_dirty(s: Tx, id: NodeId, was: Map<NodeId, Entry>, ids: Seq<NodeId>)
    requires
        shape::good(s, was, ids),
        s.live(id),
    ensures
        shape::good(s.touch_dirty(id), was, ids),
        dirtier(s, s.touch_dirty(id)),
        s.touch_dirty(id).settle.contains_key(id),
{
    reveal(shape::good);
    let t = s.touch(id);
    alike_keeps(s, t, was, ids);
    assert(shape::upward(t, Set::empty().insert(id))) by {
        assert forall|x: NodeId| #[trigger] t.settle.contains_key(x) implies t.live(x) && (
        t.parent_of(x) matches Some(p) ==> t.settle.contains_key(p) || Set::empty().insert(
            id,
        ).contains(p)) by {
            assert(s.settle.contains_key(x));
        }
    }
    marked(t, id, Set::empty(), was, ids);
}

/// What a kind must be to stand in for a node's own: its children are the
/// node's, each once, and its keys are in order.
pub open spec fn suits(s: Tx, id: NodeId, kind: Kind) -> bool {
    &&& forall|c: NodeId| #[trigger] kind.kids().contains(c) ==> s.parent_of(c) == Some(id)
    &&& kind.kids().no_duplicates()
    &&& shape::tidy(kind)
}

/// Whether two kinds are indexed alike.
pub open spec fn same_name(a: Kind, b: Kind) -> bool {
    match (a, b) {
        (Kind::Store { id: p, .. }, Kind::Store { id: q, .. }) => p == q,
        (Kind::Collection { name: n, owner: o, .. }, Kind::Collection {
            name: m,
            owner: q,
            ..
        }) => n == m && o == q,
        _ => !(a is Store) && !(a is Collection),
    }
}

/// A dirty node may take another kind whose children are its own.
pub proof fn rekinded(s: Tx, id: NodeId, kind: Kind, was: Map<NodeId, Entry>, ids: Seq<NodeId>)
    requires
        shape::good(s, was, ids),
        s.live(id),
        s.settle.contains_key(id),
        suits(s, id, kind),
        same_name(s.kind(id), kind),
    ensures
        shape::good(s.put_kind(id, kind), was, ids),
{
    reveal(shape::good);
    let t = s.put_kind(id, kind);
    assert(forall|x: NodeId| s.live(x) == t.live(x));
    assert(forall|x: NodeId| s.parent_of(x) == t.parent_of(x));
    assert(forall|x: NodeId| x != id ==> #[trigger] t.kids(x) == s.kids(x));
    assert(t.kids(id) == kind.kids());
    assert(shape::linked(t)) by {
        assert forall|p: NodeId, c: NodeId| #[trigger] t.kids(p).contains(c) implies t.parent_of(c)
            == Some(p) by {
            if p != id {
                assert(s.kids(p).contains(c));
            }
        }
        assert forall|p: NodeId| #[trigger] t.kids(p).no_duplicates() by {
            assert(s.kids(p).no_duplicates());
        }
    }
    assert(shape::tidied(t)) by {
        assert forall|x: NodeId| #[trigger] t.live(x) implies shape::tidy(t.kind(x)) by {
            assert(s.live(x));
        }
    }
    shape::bounded_cut(s.nodes, t.nodes);
    assert(shape::indexed(t)) by {
        assert forall|path: Path| #[trigger] t.stores.contains_key(path) implies t.is_store(
            t.stores[path],
            path,
        ) by {
            assert(s.stores.contains_key(path));
        }
        assert forall|key: (Path, Chars)| #[trigger]
            t.streams.contains_key(key) implies shape::is_stream(t, t.streams[key], key) by {
            assert(s.streams.contains_key(key));
        }
    }
    assert(shape::afloat(t)) by {
        assert forall|x: NodeId| #[trigger] t.live(x) && t.parent_of(x) is None implies x == t.root
            || t.is_pending.contains(x) || shape::carried(t, x) by {
            assert(s.live(x));
            carried_same(s, t, x);
        }
    }
    assert(shape::consistent(t)) by {
        assert forall|x: NodeId| #[trigger] t.live(x) && !t.settle.contains_key(x) implies
            node::alike(t.nodes[x].sem, t.shallow(x)) by {
            assert(s.live(x));
            cached_same(s.nodes, t.nodes, s.kids(x));
        }
    }
    assert(shape::upward(t, Set::empty())) by {
        assert forall|x: NodeId| #[trigger] t.settle.contains_key(x) implies t.live(x) && (
        t.parent_of(x) matches Some(p) ==> t.settle.contains_key(p)) by {
            assert(s.settle.contains_key(x));
        }
    }
}

/// A row that is carried is carried where the carry is the same.
pub proof fn carried_same(s: Tx, t: Tx, id: NodeId)
    requires
        t.carry == s.carry,
    ensures
        shape::carried(s, id) == shape::carried(t, id),
{
    if shape::carried(s, id) {
        let name = choose|name: (NodeId, Chars)| #[trigger]
            s.carry.contains_key(name) && s.carry[name] == id;
        assert(t.carry.contains_key(name));
    }
    if shape::carried(t, id) {
        let name = choose|name: (NodeId, Chars)| #[trigger]
            t.carry.contains_key(name) && t.carry[name] == id;
        assert(s.carry.contains_key(name));
    }
}

/// The cached values of nodes are the same where the nodes' values are.
pub proof fn cached_same(a: Map<NodeId, Entry>, b: Map<NodeId, Entry>, list: Seq<NodeId>)
    requires
        forall|i: int|
            0 <= i < list.len() ==> a.contains_key(#[trigger] list[i]) == b.contains_key(list[i])
                && (a.contains_key(list[i]) ==> a[list[i]].sem == b[list[i]].sem),
    ensures
        model::cached(a, list) == model::cached(b, list),
{
    assert(model::cached(a, list) =~= model::cached(b, list));
}

/// Where parents and kinds are the same but for one node that no other holds,
/// children are linked.
proof fn still_linked(s: Tx, t: Tx, id: NodeId)
    requires
        shape::linked(s),
        forall|x: NodeId| #[trigger] s.live(x) == t.live(x),
        forall|x: NodeId| #[trigger] t.live(x) ==> t.kind(x) == s.kind(x),
        forall|x: NodeId| x != id ==> #[trigger] t.parent_of(x) == s.parent_of(x),
        s.parent_of(id) is None || shape::adrift(s, id),
    ensures
        shape::linked(t),
        forall|p: NodeId| #[trigger] t.kids(p) == s.kids(p),
        forall|p: NodeId| !#[trigger] t.kids(p).contains(id),
{
    assert forall|p: NodeId| #[trigger] t.kids(p) == s.kids(p) by {
        assert(s.live(p) == t.live(p));
    }
    assert forall|p: NodeId| !#[trigger] t.kids(p).contains(id) by {
        if s.kids(p).contains(id) {
            assert(s.parent_of(id) == Some(p));
        }
    }
    assert forall|p: NodeId, c: NodeId| #[trigger] t.kids(p).contains(c) implies t.parent_of(c)
        == Some(p) by {
        assert(s.kids(p).contains(c));
    }
    assert forall|p: NodeId| #[trigger] t.kids(p).no_duplicates() by {
        assert(s.kids(p).no_duplicates());
    }
}

/// What does not read parents holds where parents alone differ.
proof fn parents_aside(s: Tx, t: Tx, was: Map<NodeId, Entry>)
    requires
        t.root == s.root,
        t.stores == s.stores,
        t.streams == s.streams,
        t.settle == s.settle,
        forall|x: NodeId| #[trigger] s.live(x) == t.live(x),
        forall|x: NodeId| #[trigger] s.live(x) ==> t.kind(x) == s.kind(x),
        forall|x: NodeId| #[trigger] s.live(x) ==> t.nodes[x].sem == s.nodes[x].sem,
        forall|x: NodeId| #[trigger] s.live(x) ==> t.nodes[x].revision == s.nodes[x].revision,
        forall|x: NodeId| #[trigger] s.live(x) ==> t.nodes[x].subs == s.nodes[x].subs,
        shape::tidied(s),
        shape::indexed(s),
        shape::consistent(s),
        shape::recalled(s, was),
        shape::unheard(s, was),
    ensures
        shape::tidied(t),
        shape::indexed(t),
        shape::consistent(t),
        shape::recalled(t, was),
        shape::unheard(t, was),
{
    assert forall|x: NodeId| #[trigger] t.live(x) implies shape::tidy(t.kind(x)) by {
        assert(s.live(x));
    }
    assert forall|path: Path| #[trigger] t.stores.contains_key(path) implies t.is_store(
        t.stores[path],
        path,
    ) by {
        assert(s.stores.contains_key(path));
        assert(s.live(s.stores[path]));
    }
    assert forall|key: (Path, Chars)| #[trigger] t.streams.contains_key(key) implies shape::is_stream(
        t,
        t.streams[key],
        key,
    ) by {
        assert(s.streams.contains_key(key));
        assert(s.live(s.streams[key]));
    }
    assert forall|x: NodeId| #[trigger] t.live(x) && !t.settle.contains_key(x) implies
        node::alike(t.nodes[x].sem, t.shallow(x)) by {
        assert(s.live(x));
        let kids = s.kind(x).kids();
        assert forall|i: int| 0 <= i < kids.len() implies s.nodes.contains_key(#[trigger] kids[i])
            == t.nodes.contains_key(kids[i]) && (s.nodes.contains_key(kids[i])
            ==> s.nodes[kids[i]].sem == t.nodes[kids[i]].sem) by {
            assert(s.live(kids[i]) == t.live(kids[i]));
        }
        cached_same(s.nodes, t.nodes, kids);
    }
    assert forall|x: NodeId| #[trigger] was.contains_key(x) implies t.live(x)
        && t.nodes[x].revision == was[x].revision && t.nodes[x].subs == was[x].subs && was[x].sem
        == (if t.settle.contains_key(x) {
        t.settle[x]
    } else {
        t.nodes[x].sem
    }) by {
        assert(s.live(x));
    }
    assert forall|x: NodeId| #[trigger] t.live(x) && !was.contains_key(x) implies t.nodes[x].subs.len()
        == 0 by {
        assert(s.live(x));
    }
}

/// A node that its parent does not hold may be released.
pub proof fn released(s: Tx, id: NodeId, was: Map<NodeId, Entry>, ids: Seq<NodeId>)
    requires
        shape::good(s, was, ids),
        shape::adrift(s, id),
    ensures
        shape::good(s.release(id), was, ids),
        s.release(id).nodes == slots::with_parent(s.nodes, id, None),
        alike_but_filed(s, s.release(id)),
{
    reveal(shape::good);
    assert(!s.is_pending.contains(id));
    let t = s.release(id);
    let f = s.file_pending(id);
    assert(f.touch(id).nodes == s.nodes);
    assert(forall|x: NodeId| #[trigger] s.live(x) == t.live(x));
    still_linked(s, t, id);
    parents_aside(s, t, was);
    shape::bounded_cut(s.nodes, t.nodes);
    assert(t.pending == s.pending.push(id));
    assert(t.is_pending == s.is_pending.insert(id));
    assert(shape::stowed(t)) by {
        assert forall|x: NodeId| #[trigger] t.is_pending.contains(x) implies t.live(x)
            && t.parent_of(x) is None && x != t.root && t.pending.contains(x) by {
            if x == id {
                assert(t.pending[t.pending.len() - 1] == id);
            } else {
                assert(s.is_pending.contains(x));
                let i = choose|i: int| 0 <= i < s.pending.len() && s.pending[i] == x;
                assert(t.pending[i] == x);
            }
        }
        assert forall|name: (NodeId, Chars)| #[trigger] t.carry.contains_key(name) implies t.live(
            t.carry[name],
        ) && t.parent_of(t.carry[name]) is None && t.carry[name] != t.root
            && !t.is_pending.contains(t.carry[name]) && t.carry_order.contains(name) by {
            assert(s.carry.contains_key(name));
        }
        assert forall|a: (NodeId, Chars), b: (NodeId, Chars)| #[trigger]
            t.carry.contains_key(a) && #[trigger] t.carry.contains_key(b) && t.carry[a]
            == t.carry[b] implies a == b by {
            assert(s.carry.contains_key(a) && s.carry.contains_key(b));
        }
    }
    assert(shape::afloat(t)) by {
        assert forall|x: NodeId| #[trigger] t.live(x) && t.parent_of(x) is None implies x == t.root
            || t.is_pending.contains(x) || shape::carried(t, x) by {
            assert(s.live(x));
            carried_same(s, t, x);
        }
    }
    assert(shape::upward(t, Set::empty())) by {
        assert forall|x: NodeId| #[trigger] t.settle.contains_key(x) implies t.live(x) && (
        t.parent_of(x) matches Some(p) ==> t.settle.contains_key(p)) by {
            assert(s.settle.contains_key(x));
        }
    }
}

/// Two states that differ in parents and in what is filed as detached.
pub open spec fn alike_but_filed(s: Tx, t: Tx) -> bool {
    t == Tx {
        nodes: t.nodes,
        touched: t.touched,
        pending: t.pending,
        is_pending: t.is_pending,
        carry: t.carry,
        carry_order: t.carry_order,
        ..s
    }
}

/// A node that its parent does not hold may be given another parent.
pub proof fn taken_adrift(
    s: Tx,
    id: NodeId,
    parent: NodeId,
    was: Map<NodeId, Entry>,
    ids: Seq<NodeId>,
)
    requires
        shape::good(s, was, ids),
        shape::adrift(s, id),
        shape::bounded(slots::with_parent(s.nodes, id, Some(parent))),
    ensures
        shape::formed(s.put_parent(id, Some(parent)), was, ids),
        shape::upward(s.put_parent(id, Some(parent)), Set::empty().insert(parent)),
        forall|p: NodeId| !#[trigger] s.put_parent(id, Some(parent)).kids(p).contains(id),
{
    reveal(shape::good);
    let t = s.put_parent(id, Some(parent));
    assert(forall|x: NodeId| #[trigger] s.live(x) == t.live(x));
    still_linked(s, t, id);
    parents_aside(s, t, was);
    assert(shape::stowed(t)) by {
        assert forall|x: NodeId| #[trigger] t.is_pending.contains(x) implies t.live(x)
            && t.parent_of(x) is None && x != t.root && t.pending.contains(x) by {
            assert(s.is_pending.contains(x));
        }
        assert forall|name: (NodeId, Chars)| #[trigger] t.carry.contains_key(name) implies t.live(
            t.carry[name],
        ) && t.parent_of(t.carry[name]) is None && t.carry[name] != t.root
            && !t.is_pending.contains(t.carry[name]) && t.carry_order.contains(name) by {
            assert(s.carry.contains_key(name));
        }
    }
    assert(shape::afloat(t)) by {
        assert forall|x: NodeId| #[trigger] t.live(x) && t.parent_of(x) is None implies x == t.root
            || t.is_pending.contains(x) || shape::carried(t, x) by {
            assert(s.live(x));
            carried_same(s, t, x);
        }
    }
    assert forall|x: NodeId| #[trigger] t.settle.contains_key(x) implies t.live(x) && (t.parent_of(
        x,
    ) matches Some(p) ==> t.settle.contains_key(p) || Set::empty().insert(parent).contains(p)) by {
        assert(s.settle.contains_key(x));
    }
}

/// A detached node may be given a parent again.
pub proof fn taken_stray(
    s: Tx,
    id: NodeId,
    parent: NodeId,
    was: Map<NodeId, Entry>,
    ids: Seq<NodeId>,
)
    requires
        shape::good(s, was, ids),
        s.live(id),
        id != s.root,
        s.parent_of(id) is None,
        shape::bounded(slots::with_parent(s.nodes, id, Some(parent))),
    ensures
        shape::formed(s.unpend(id).put_parent(id, Some(parent)), was, ids),
        shape::upward(s.unpend(id).put_parent(id, Some(parent)), Set::empty().insert(parent)),
        forall|p: NodeId|
            !#[trigger] s.unpend(id).put_parent(id, Some(parent)).kids(p).contains(id),
{
    reveal(shape::good);
    let t = s.unpend(id).put_parent(id, Some(parent));
    assert(t.nodes == slots::with_parent(s.nodes, id, Some(parent)));
    assert(forall|x: NodeId| #[trigger] s.live(x) == t.live(x));
    still_linked(s, t, id);
    parents_aside(s, t, was);
    assert(shape::stowed(t)) by {
        assert forall|x: NodeId| #[trigger] t.is_pending.contains(x) implies t.live(x)
            && t.parent_of(x) is None && x != t.root && t.pending.contains(x) by {
            assert(s.is_pending.contains(x));
        }
        assert forall|name: (NodeId, Chars)| #[trigger] t.carry.contains_key(name) implies t.live(
            t.carry[name],
        ) && t.parent_of(t.carry[name]) is None && t.carry[name] != t.root
            && !t.is_pending.contains(t.carry[name]) && t.carry_order.contains(name) by {
            assert(s.carry.contains_key(name));
        }
        assert forall|a: (NodeId, Chars), b: (NodeId, Chars)| #[trigger]
            t.carry.contains_key(a) && #[trigger] t.carry.contains_key(b) && t.carry[a]
            == t.carry[b] implies a == b by {
            assert(s.carry.contains_key(a) && s.carry.contains_key(b));
        }
    }
    assert(shape::afloat(t)) by {
        assert forall|x: NodeId| #[trigger] t.live(x) && t.parent_of(x) is None implies x == t.root
            || t.is_pending.contains(x) || shape::carried(t, x) by {
            assert(s.live(x));
            assert(x != id);
            if shape::carried(s, x) {
                let name = choose|name: (NodeId, Chars)| #[trigger]
                    s.carry.contains_key(name) && s.carry[name] == x;
                assert(t.carry.contains_key(name));
            }
        }
    }
    assert forall|x: NodeId| #[trigger] t.settle.contains_key(x) implies t.live(x) && (t.parent_of(
        x,
    ) matches Some(p) ==> t.settle.contains_key(p) || Set::empty().insert(parent).contains(p)) by {
        assert(s.settle.contains_key(x));
    }
}

/// A node may be made below one that is not at the cap.
pub proof fn made(s: Tx, parent: NodeId, was: Map<NodeId, Entry>, ids: Seq<NodeId>)
    requires
        shape::good(s, was, ids),
        shape::climbs(s.nodes, parent, (MAX_DEPTH - 1) as nat),
        s.make(Some(parent), ids).1 is Ok,
        s.allocated.len() < ids.len(),
    ensures
        shape::good(s.make(Some(parent), ids).0, was, ids),
        !s.live(s.make(Some(parent), ids).1->Ok_0),
        !was.contains_key(s.make(Some(parent), ids).1->Ok_0),
        shape::adrift(s.make(Some(parent), ids).0, s.make(Some(parent), ids).1->Ok_0),
{
    reveal(shape::good);
    let t = s.make(Some(parent), ids).0;
    let id = s.make(Some(parent), ids).1->Ok_0;
    assert(id == ids[s.allocated.len() as int]);
    assert(!s.live(id));
    assert(forall|x: NodeId| x != id ==> #[trigger] t.live(x) == s.live(x));
    assert(forall|x: NodeId| x != id ==> #[trigger] t.parent_of(x) == s.parent_of(x));
    assert(forall|x: NodeId| x != id ==> #[trigger] t.kids(x) == s.kids(x));
    assert(t.kids(id) =~= Seq::<NodeId>::empty());
    assert(shape::linked(t)) by {
        assert forall|p: NodeId, c: NodeId| #[trigger] t.kids(p).contains(c) implies t.parent_of(c)
            == Some(p) by {
            assert(p != id);
            assert(s.kids(p).contains(c));
        }
        assert forall|p: NodeId| #[trigger] t.kids(p).no_duplicates() by {
            assert(s.kids(p).no_duplicates());
        }
    }
    assert(shape::tidied(t)) by {
        assert forall|x: NodeId| #[trigger] t.live(x) implies shape::tidy(t.kind(x)) by {
            assert(x != id ==> s.live(x));
        }
    }
    assert(shape::bounded(t.nodes)) by {
        assert forall|x: NodeId| #[trigger] t.nodes.contains_key(x) implies shape::climbs(
            t.nodes,
            x,
            MAX_DEPTH as nat,
        ) by {
            if x == id {
                shape::climbs_cut(s.nodes, t.nodes, parent, (MAX_DEPTH - 1) as nat);
            } else {
                assert(s.nodes.contains_key(x));
                shape::climbs_cut(s.nodes, t.nodes, x, MAX_DEPTH as nat);
            }
        }
    }
    assert(shape::indexed(t)) by {
        assert forall|path: Path| #[trigger] t.stores.contains_key(path) implies t.is_store(
            t.stores[path],
            path,
        ) by {
            assert(s.stores.contains_key(path));
        }
        assert forall|key: (Path, Chars)| #[trigger]
            t.streams.contains_key(key) implies shape::is_stream(t, t.streams[key], key) by {
            assert(s.streams.contains_key(key));
        }
    }
    assert(shape::stowed(t)) by {
        assert forall|x: NodeId| #[trigger] t.is_pending.contains(x) implies t.live(x)
            && t.parent_of(x) is None && x != t.root && t.pending.contains(x) by {
            assert(s.is_pending.contains(x));
        }
        assert forall|name: (NodeId, Chars)| #[trigger] t.carry.contains_key(name) implies t.live(
            t.carry[name],
        ) && t.parent_of(t.carry[name]) is None && t.carry[name] != t.root
            && !t.is_pending.contains(t.carry[name]) && t.carry_order.contains(name) by {
            assert(s.carry.contains_key(name));
        }
    }
    assert(shape::afloat(t)) by {
        assert forall|x: NodeId| #[trigger] t.live(x) && t.parent_of(x) is None implies x == t.root
            || t.is_pending.contains(x) || shape::carried(t, x) by {
            assert(s.live(x));
            carried_same(s, t, x);
        }
    }
    assert(shape::consistent(t)) by {
        assert forall|x: NodeId| #[trigger] t.live(x) && !t.settle.contains_key(x) implies
            node::alike(t.nodes[x].sem, t.shallow(x)) by {
            if x != id {
                assert(s.live(x));
                let kids = s.kids(x);
                assert forall|i: int| 0 <= i < kids.len() implies s.nodes.contains_key(
                    #[trigger] kids[i],
                ) == t.nodes.contains_key(kids[i]) && (s.nodes.contains_key(kids[i])
                    ==> s.nodes[kids[i]].sem == t.nodes[kids[i]].sem) by {
                    assert(s.kids(x).contains(kids[i]));
                }
                cached_same(s.nodes, t.nodes, kids);
            }
        }
    }
    assert(shape::recalled(t, was)) by {
        assert forall|x: NodeId| #[trigger] was.contains_key(x) implies t.live(x)
            && t.nodes[x].revision == was[x].revision && t.nodes[x].subs == was[x].subs
            && was[x].sem == (if t.settle.contains_key(x) {
            t.settle[x]
        } else {
            t.nodes[x].sem
        }) by {
            assert(s.live(x));
        }
    }
    assert(shape::unused(t, ids)) by {
        assert forall|k: int| t.allocated.len() <= k < ids.len() implies !t.live(
            #[trigger] ids[k],
        ) by {
            assert(ids[s.allocated.len() as int] != ids[k]);
        }
    }
    assert(shape::upward(t, Set::empty())) by {
        assert forall|x: NodeId| #[trigger] t.settle.contains_key(x) implies t.live(x) && (
        t.parent_of(x) matches Some(p) ==> t.settle.contains_key(p)) by {
            assert(s.settle.contains_key(x));
        }
    }
    assert(shape::adrift(t, id)) by {
        if t.kids(parent).contains(id) {
            assert(parent != id);
            assert(s.kids(parent).contains(id));
        }
    }
}

/// A state with a node indexed as a kind calls for.
pub open spec fn registered(s: Tx, id: NodeId, kind: Kind) -> Tx {
    match kind {
        Kind::Store { id: path, .. } => s.set_store(path, Some(id)),
        Kind::Collection { name, owner, .. } => s.set_stream((owner, name), Some(id)),
        _ => s,
    }
}

/// An empty node may be given its kind, its index entry and its value.
pub proof fn finished(s: Tx, id: NodeId, kind: Kind, was: Map<NodeId, Entry>, ids: Seq<NodeId>)
    requires
        shape::good(s, was, ids),
        s.live(id),
        s.kind(id) is Null,
        suits(s, id, kind),
        s.settle.contains_key(id) || (shape::adrift(s, id) && !was.contains_key(id)),
    ensures
        shape::good(model::finish(registered(s, id, kind), id, kind), was, ids),
{
    reveal(shape::good);
    let r = registered(s, id, kind);
    let u = r.put_kind(id, kind);
    let t = model::finish(r, id, kind);
    assert(r.nodes == s.nodes);
    assert(forall|x: NodeId| #[trigger] t.live(x) == s.live(x));
    assert(forall|x: NodeId| #[trigger] t.parent_of(x) == s.parent_of(x));
    assert(forall|x: NodeId| x != id ==> #[trigger] t.kids(x) == s.kids(x));
    assert(t.kids(id) == kind.kids());
    assert(!kind.kids().contains(id)) by {
        if kind.kids().contains(id) {
            assert(s.parent_of(id) == Some(id));
            shape::depth_step(s, id);
        }
    }
    assert(shape::linked(t)) by {
        assert forall|p: NodeId, c: NodeId| #[trigger] t.kids(p).contains(c) implies t.parent_of(c)
            == Some(p) by {
            if p != id {
                assert(s.kids(p).contains(c));
            }
        }
        assert forall|p: NodeId| #[trigger] t.kids(p).no_duplicates() by {
            assert(s.kids(p).no_duplicates());
        }
    }
    assert(shape::tidied(t)) by {
        assert forall|x: NodeId| #[trigger] t.live(x) implies shape::tidy(t.kind(x)) by {
            assert(s.live(x));
        }
    }
    shape::bounded_cut(s.nodes, t.nodes);
    assert(shape::indexed(t)) by {
        assert forall|path: Path| #[trigger] t.stores.contains_key(path) implies t.is_store(
            t.stores[path],
            path,
        ) by {
            if t.stores[path] != id {
                assert(s.stores.contains_key(path));
            } else if s.stores.contains_key(path) {
                assert(s.is_store(s.stores[path], path));
            }
        }
        assert forall|key: (Path, Chars)| #[trigger]
            t.streams.contains_key(key) implies shape::is_stream(t, t.streams[key], key) by {
            if t.streams[key] != id {
                assert(s.streams.contains_key(key));
            } else if s.streams.contains_key(key) {
                assert(shape::is_stream(s, s.streams[key], key));
            }
        }
    }
    assert(shape::stowed(t)) by {
        assert forall|x: NodeId| #[trigger] t.is_pending.contains(x) implies t.live(x)
            && t.parent_of(x) is None && x != t.root && t.pending.contains(x) by {
            assert(s.is_pending.contains(x));
        }
        assert forall|name: (NodeId, Chars)| #[trigger] t.carry.contains_key(name) implies t.live(
            t.carry[name],
        ) && t.parent_of(t.carry[name]) is None && t.carry[name] != t.root
            && !t.is_pending.contains(t.carry[name]) && t.carry_order.contains(name) by {
            assert(s.carry.contains_key(name));
        }
    }
    assert(shape::afloat(t)) by {
        assert forall|x: NodeId| #[trigger] t.live(x) && t.parent_of(x) is None implies x == t.root
            || t.is_pending.contains(x) || shape::carried(t, x) by {
            assert(s.live(x));
            carried_same(s, t, x);
        }
    }
    assert(shape::consistent(t)) by {
        assert forall|x: NodeId| #[trigger] t.live(x) && !t.settle.contains_key(x) implies
            node::alike(t.nodes[x].sem, t.shallow(x)) by {
            if x == id {
                assert forall|i: int| 0 <= i < kind.kids().len() implies u.nodes.contains_key(
                    #[trigger] kind.kids()[i],
                ) == t.nodes.contains_key(kind.kids()[i]) && (u.nodes.contains_key(kind.kids()[i])
                    ==> u.nodes[kind.kids()[i]].sem == t.nodes[kind.kids()[i]].sem) by {
                    assert(kind.kids().contains(kind.kids()[i]));
                }
                cached_same(u.nodes, t.nodes, kind.kids());
            } else {
                assert(s.live(x));
                let kids = s.kids(x);
                assert(!kids.contains(id)) by {
                    if kids.contains(id) {
                        assert(s.parent_of(id) == Some(x));
                        assert(s.settle.contains_key(id) ==> s.settle.contains_key(x));
                    }
                }
                assert forall|i: int| 0 <= i < kids.len() implies s.nodes.contains_key(
                    #[trigger] kids[i],
                ) == t.nodes.contains_key(kids[i]) && (s.nodes.contains_key(kids[i])
                    ==> s.nodes[kids[i]].sem == t.nodes[kids[i]].sem) by {
                    assert(kids.contains(kids[i]));
                }
                cached_same(s.nodes, t.nodes, kids);
            }
        }
    }
    assert(shape::recalled(t, was)) by {
        assert forall|x: NodeId| #[trigger] was.contains_key(x) implies t.live(x)
            && t.nodes[x].revision == was[x].revision && t.nodes[x].subs == was[x].subs
            && was[x].sem == (if t.settle.contains_key(x) {
            t.settle[x]
        } else {
            t.nodes[x].sem
        }) by {
            assert(s.live(x));
        }
    }
    assert(shape::upward(t, Set::empty())) by {
        assert forall|x: NodeId| #[trigger] t.settle.contains_key(x) implies t.live(x) && (
        t.parent_of(x) matches Some(p) ==> t.settle.contains_key(p)) by {
            assert(s.settle.contains_key(x));
        }
    }
}

/// A dirty node may be emptied, once nothing resolves to it.
pub proof fn emptied(s: Tx, id: NodeId, was: Map<NodeId, Entry>, ids: Seq<NodeId>)
    requires
        shape::good(s, was, ids),
        s.live(id),
        s.settle.contains_key(id),
    ensures
        shape::good(s.unregister(id).put_kind(id, Kind::Null), was, ids),
{
    reveal(shape::good);
    let u = s.unregister(id);
    let t = u.put_kind(id, Kind::Null);
    assert(u.nodes == s.nodes);
    assert(forall|x: NodeId| #[trigger] t.live(x) == s.live(x));
    assert(forall|x: NodeId| #[trigger] t.parent_of(x) == s.parent_of(x));
    assert(forall|x: NodeId| x != id ==> #[trigger] t.kids(x) == s.kids(x));
    assert(t.kids(id) =~= Seq::<NodeId>::empty());
    assert(shape::linked(t)) by {
        assert forall|p: NodeId, c: NodeId| #[trigger] t.kids(p).contains(c) implies t.parent_of(c)
            == Some(p) by {
            assert(s.kids(p).contains(c));
        }
        assert forall|p: NodeId| #[trigger] t.kids(p).no_duplicates() by {
            assert(s.kids(p).no_duplicates());
        }
    }
    assert(shape::tidied(t)) by {
        assert forall|x: NodeId| #[trigger] t.live(x) implies shape::tidy(t.kind(x)) by {
            assert(s.live(x));
        }
    }
    shape::bounded_cut(s.nodes, t.nodes);
    assert(shape::indexed(t)) by {
        assert forall|path: Path| #[trigger] t.stores.contains_key(path) implies t.is_store(
            t.stores[path],
            path,
        ) by {
            assert(s.stores.contains_key(path));
            assert(s.is_store(s.stores[path], path));
        }
        assert forall|key: (Path, Chars)| #[trigger]
            t.streams.contains_key(key) implies shape::is_stream(t, t.streams[key], key) by {
            assert(s.streams.contains_key(key));
            assert(shape::is_stream(s, s.streams[key], key));
        }
    }
    assert(shape::stowed(t)) by {
        assert forall|x: NodeId| #[trigger] t.is_pending.contains(x) implies t.live(x)
            && t.parent_of(x) is None && x != t.root && t.pending.contains(x) by {
            assert(s.is_pending.contains(x));
        }
        assert forall|name: (NodeId, Chars)| #[trigger] t.carry.contains_key(name) implies t.live(
            t.carry[name],
        ) && t.parent_of(t.carry[name]) is None && t.carry[name] != t.root
            && !t.is_pending.contains(t.carry[name]) && t.carry_order.contains(name) by {
            assert(s.carry.contains_key(name));
        }
    }
    assert(shape::afloat(t)) by {
        assert forall|x: NodeId| #[trigger] t.live(x) && t.parent_of(x) is None implies x == t.root
            || t.is_pending.contains(x) || shape::carried(t, x) by {
            assert(s.live(x));
            carried_same(s, t, x);
        }
    }
    assert(shape::consistent(t)) by {
        assert forall|x: NodeId| #[trigger] t.live(x) && !t.settle.contains_key(x) implies
            node::alike(t.nodes[x].sem, t.shallow(x)) by {
            assert(s.live(x));
            cached_same(s.nodes, t.nodes, s.kids(x));
        }
    }
    assert(shape::recalled(t, was)) by {
        assert forall|x: NodeId| #[trigger] was.contains_key(x) implies t.live(x)
            && t.nodes[x].revision == was[x].revision && t.nodes[x].subs == was[x].subs
            && was[x].sem == (if t.settle.contains_key(x) {
            t.settle[x]
        } else {
            t.nodes[x].sem
        }) by {
            assert(s.live(x));
        }
    }
    assert(shape::upward(t, Set::empty())) by {
        assert forall|x: NodeId| #[trigger] t.settle.contains_key(x) implies t.live(x) && (
        t.parent_of(x) matches Some(p) ==> t.settle.contains_key(p)) by {
            assert(s.settle.contains_key(x));
        }
    }
}

/// A row that its collection no longer holds may be carried out.
pub proof fn carried_off(
    s: Tx,
    collection: NodeId,
    key: Chars,
    row: NodeId,
    was: Map<NodeId, Entry>,
    ids: Seq<NodeId>,
)
    requires
        shape::good(s, was, ids),
        shape::adrift(s, row),
    ensures
        shape::good(s.carry_out(collection, key, row), was, ids),
        s.carry_out(collection, key, row).nodes == slots::with_parent(s.nodes, row, None),
        alike_but_filed(s, s.carry_out(collection, key, row)),
{
    reveal(shape::good);
    let t = s.carry_out(collection, key, row);
    let name = (collection, key);
    assert(s.touch(row).nodes == s.nodes);
    assert(t.nodes == slots::with_parent(s.nodes, row, None));
    assert(forall|x: NodeId| #[trigger] s.live(x) == t.live(x));
    still_linked(s, t, row);
    parents_aside(s, t, was);
    shape::bounded_cut(s.nodes, t.nodes);
    assert(t.carry == s.carry.insert(name, row));
    assert(t.carry_order == s.carry_order.push(name));
    assert(!s.is_pending.contains(row));
    if s.carry.contains_key(name) {
        let older = s.carry[name];
        assert(!s.is_pending.contains(older));
        assert(t.pending == s.pending.push(older));
        assert(t.is_pending == s.is_pending.insert(older));
    } else {
        assert(t.pending == s.pending);
        assert(t.is_pending == s.is_pending);
    }
    assert(shape::stowed(t)) by {
        assert forall|x: NodeId| #[trigger] t.is_pending.contains(x) implies t.live(x)
            && t.parent_of(x) is None && x != t.root && t.pending.contains(x) by {
            if s.is_pending.contains(x) {
                let i = choose|i: int| 0 <= i < s.pending.len() && s.pending[i] == x;
                assert(t.pending[i] == x);
            } else {
                assert(x == s.carry[name]);
                assert(t.pending[t.pending.len() - 1] == x);
            }
        }
        assert forall|n: (NodeId, Chars)| #[trigger] t.carry.contains_key(n) implies t.live(
            t.carry[n],
        ) && t.parent_of(t.carry[n]) is None && t.carry[n] != t.root && !t.is_pending.contains(
            t.carry[n],
        ) && t.carry_order.contains(n) by {
            if n == name {
                assert(t.carry_order[t.carry_order.len() - 1] == name);
                assert(s.carry.contains_key(name) ==> s.carry[name] != row);
            } else {
                assert(s.carry.contains_key(n));
                assert(s.carry.contains_key(name) ==> s.carry[name] != s.carry[n]);
                let i = choose|i: int| 0 <= i < s.carry_order.len() && s.carry_order[i] == n;
                assert(t.carry_order[i] == n);
            }
        }
        assert forall|a: (NodeId, Chars), b: (NodeId, Chars)| #[trigger]
            t.carry.contains_key(a) && #[trigger] t.carry.contains_key(b) && t.carry[a]
            == t.carry[b] implies a == b by {
            assert(a != name ==> s.carry.contains_key(a));
            assert(b != name ==> s.carry.contains_key(b));
        }
    }
    assert(shape::afloat(t)) by {
        assert forall|x: NodeId| #[trigger] t.live(x) && t.parent_of(x) is None implies x == t.root
            || t.is_pending.contains(x) || shape::carried(t, x) by {
            assert(s.live(x));
            if x == row {
                assert(t.carry.contains_key(name));
            } else if shape::carried(s, x) {
                let n = choose|n: (NodeId, Chars)| #[trigger]
                    s.carry.contains_key(n) && s.carry[n] == x;
                assert(t.carry.contains_key(n));
            }
        }
    }
    assert(shape::upward(t, Set::empty())) by {
        assert forall|x: NodeId| #[trigger] t.settle.contains_key(x) implies t.live(x) && (
        t.parent_of(x) matches Some(p) ==> t.settle.contains_key(p)) by {
            assert(s.settle.contains_key(x));
        }
    }
}

/// A carried row may be claimed back by a dirty collection.
pub proof fn reclaimed(
    s: Tx,
    collection: NodeId,
    key: Chars,
    was: Map<NodeId, Entry>,
    ids: Seq<NodeId>,
)
    requires
        shape::good(s, was, ids),
        s.carry.contains_key((collection, key)),
        s.settle.contains_key(collection),
        shape::bounded(
            slots::with_parent(s.nodes, s.carry[(collection, key)], Some(collection)),
        ),
    ensures
        ({
            let row = s.carry[(collection, key)];
            let t = Tx { carry: s.carry.remove((collection, key)), ..s }.touch(row).put_parent(
                row,
                Some(collection),
            );
            &&& shape::good(t, was, ids)
            &&& t.nodes == slots::with_parent(s.nodes, row, Some(collection))
            &&& alike_but_filed(s, t)
            &&& forall|p: NodeId| !#[trigger] t.kids(p).contains(row)
        }),
{
    reveal(shape::good);
    let name = (collection, key);
    let row = s.carry[name];
    let c = Tx { carry: s.carry.remove(name), ..s };
    let t = c.touch(row).put_parent(row, Some(collection));
    assert(c.touch(row).nodes == s.nodes);
    assert(t.nodes == slots::with_parent(s.nodes, row, Some(collection)));
    assert(forall|x: NodeId| #[trigger] s.live(x) == t.live(x));
    still_linked(s, t, row);
    parents_aside(s, t, was);
    assert(shape::stowed(t)) by {
        assert forall|x: NodeId| #[trigger] t.is_pending.contains(x) implies t.live(x)
            && t.parent_of(x) is None && x != t.root && t.pending.contains(x) by {
            assert(s.is_pending.contains(x));
        }
        assert forall|n: (NodeId, Chars)| #[trigger] t.carry.contains_key(n) implies t.live(
            t.carry[n],
        ) && t.parent_of(t.carry[n]) is None && t.carry[n] != t.root && !t.is_pending.contains(
            t.carry[n],
        ) && t.carry_order.contains(n) by {
            assert(s.carry.contains_key(n));
        }
        assert forall|a: (NodeId, Chars), b: (NodeId, Chars)| #[trigger]
            t.carry.contains_key(a) && #[trigger] t.carry.contains_key(b) && t.carry[a]
            == t.carry[b] implies a == b by {
            assert(s.carry.contains_key(a) && s.carry.contains_key(b));
        }
    }
    assert(shape::afloat(t)) by {
        assert forall|x: NodeId| #[trigger] t.live(x) && t.parent_of(x) is None implies x == t.root
            || t.is_pending.contains(x) || shape::carried(t, x) by {
            assert(s.live(x));
            if shape::carried(s, x) {
                let n = choose|n: (NodeId, Chars)| #[trigger]
                    s.carry.contains_key(n) && s.carry[n] == x;
                assert(t.carry.contains_key(n));
            }
        }
    }
    assert(shape::upward(t, Set::empty())) by {
        assert forall|x: NodeId| #[trigger] t.settle.contains_key(x) implies t.live(x) && (
        t.parent_of(x) matches Some(p) ==> t.settle.contains_key(p)) by {
            assert(s.settle.contains_key(x));
        }
    }
}

} // verus!
