//! Two nodes of one store id exchange places.

use vstd::prelude::*;

use crate::state::model;
use crate::state::model::{Tx, MAX_DEPTH};
use crate::state::node;
use crate::state::node::{Kind, NodeId};
use crate::state::shape;
use crate::state::slots::Entry;
use crate::state::text::Chars;
use crate::state::upkeep;
use crate::state::wire::Path;

verus! {

/// No node is on its way anywhere.
pub open spec fn calm(s: Tx) -> bool {
    forall|id: NodeId| !#[trigger] shape::adrift(s, id)
}

/// Whether a list holds a node from `i` on.
pub open spec fn among(list: Seq<NodeId>, i: int, id: NodeId) -> bool {
    exists|j: int| i <= j < list.len() && #[trigger] list[j] == id
}

/// Two states that differ in parents alone.
pub open spec fn reparented(s: Tx, t: Tx) -> bool {
    &&& t == Tx { nodes: t.nodes, touched: t.touched, ..s }
    &&& forall|x: NodeId| #[trigger] t.live(x) == s.live(x)
    &&& forall|x: NodeId| #[trigger]
        s.live(x) ==> t.kind(x) == s.kind(x) && t.nodes[x].sem == s.nodes[x].sem
            && t.nodes[x].revision == s.nodes[x].revision && t.nodes[x].subs == s.nodes[x].subs
}

proof fn rehomed(s: Tx, list: Seq<NodeId>, parent: NodeId, i: int)
    requires
        0 <= i <= list.len(),
        forall|j: int| 0 <= j < list.len() ==> s.live(#[trigger] list[j]),
    ensures
        reparented(s, s.rehome(list, parent, i)),
        forall|x: NodeId|
            s.live(x) ==> #[trigger] s.rehome(list, parent, i).parent_of(x) == (if among(
                list,
                i,
                x,
            ) {
                Some(parent)
            } else {
                s.parent_of(x)
            }),
    decreases list.len() - i,
{
    if i < list.len() {
        let u = s.touch(list[i]).put_parent(list[i], Some(parent));
        assert(s.touch(list[i]).nodes == s.nodes);
        assert(s.live(list[i]));
        assert forall|j: int| 0 <= j < list.len() implies u.live(#[trigger] list[j]) by {
            assert(s.live(list[j]));
        }
        rehomed(u, list, parent, i + 1);
        let t = u.rehome(list, parent, i + 1);
        assert(reparented(s, t)) by {
            assert forall|x: NodeId| #[trigger] t.live(x) == s.live(x) by {
                assert(t.live(x) == u.live(x));
            }
            assert forall|x: NodeId| #[trigger] s.live(x) implies t.kind(x) == s.kind(x)
                && t.nodes[x].sem == s.nodes[x].sem && t.nodes[x].revision == s.nodes[x].revision
                && t.nodes[x].subs == s.nodes[x].subs by {
                assert(u.live(x));
            }
        }
        assert forall|x: NodeId| s.live(x) implies #[trigger] t.parent_of(x) == (if among(
            list,
            i,
            x,
        ) {
            Some(parent)
        } else {
            s.parent_of(x)
        }) by {
            assert(u.live(x));
            if among(list, i + 1, x) {
                let j = choose|j: int| i + 1 <= j < list.len() && #[trigger] list[j] == x;
                assert(among(list, i, x));
            } else if x == list[i] {
                assert(among(list, i, x));
            } else if among(list, i, x) {
                let j = choose|j: int| i <= j < list.len() && #[trigger] list[j] == x;
                assert(among(list, i + 1, x));
            }
        }
    } else {
        assert forall|x: NodeId| s.live(x) implies #[trigger] s.parent_of(x) == (if among(
            list,
            i,
            x,
        ) {
            Some(parent)
        } else {
            s.parent_of(x)
        }) by {}
    }
}

/// A list with two nodes swapped.
pub open spec fn swap_list(list: Seq<NodeId>, x: NodeId, y: NodeId) -> Seq<NodeId> {
    Seq::new(list.len(), |i: int| model::swapped(list[i], x, y))
}

/// A parent with two nodes swapped.
pub open spec fn swap_parent(parent: Option<NodeId>, x: NodeId, y: NodeId) -> Option<NodeId> {
    match parent {
        Some(up) => Some(model::swapped(up, x, y)),
        None => None,
    }
}

pub proof fn swap_kids_kids(kind: Kind, x: NodeId, y: NodeId)
    ensures
        model::swap_kids(kind, x, y).kids() == swap_list(kind.kids(), x, y),
        shape::tidy(kind) ==> shape::tidy(model::swap_kids(kind, x, y)),
        upkeep::same_name(kind, model::swap_kids(kind, x, y)),
{
    let new = model::swap_kids(kind, x, y);
    assert(new.kids() =~= swap_list(kind.kids(), x, y));
    match (kind, new) {
        (Kind::Object(a), Kind::Object(b)) => {
            assert forall|i: int| 0 <= i < a.len() implies (#[trigger] b[i]).0 == a[i].0 by {}
        },
        (Kind::Store { fields: a, .. }, Kind::Store { fields: b, .. }) => {
            assert forall|i: int| 0 <= i < a.len() implies (#[trigger] b[i]).0 == a[i].0 by {}
        },
        (Kind::Collection { items: a, .. }, Kind::Collection { items: b, .. }) => {
            assert forall|i: int| 0 <= i < a.len() implies (#[trigger] b[i]).0 == a[i].0 by {}
            if shape::tidy(kind) {
                assert forall|i: int, j: int| 0 <= i < j < b.len() implies (#[trigger] b[i]).0 != (
                #[trigger] b[j]).0 by {
                    assert(a[i].0 != a[j].0);
                }
            }
        },
        _ => {},
    }
}

proof fn swap_list_none(list: Seq<NodeId>, x: NodeId, y: NodeId)
    requires
        !list.contains(x),
        !list.contains(y),
    ensures
        swap_list(list, x, y) == list,
{
    assert forall|i: int| 0 <= i < list.len() implies swap_list(list, x, y)[i] == list[i] by {
        assert(list.contains(list[i]));
    }
    assert(swap_list(list, x, y) =~= list);
}

/// What the nodes are once `id` and `copy` have exchanged places.
pub open spec fn mirrored(s: Tx, t: Tx, id: NodeId, copy: NodeId) -> bool {
    &&& forall|x: NodeId| #[trigger] t.live(x) == s.live(x)
    &&& forall|x: NodeId| #[trigger]
        t.parent_of(x) == swap_parent(s.parent_of(model::swapped(x, id, copy)), id, copy)
    &&& forall|p: NodeId| #[trigger]
        t.kids(p) == swap_list(s.kids(model::swapped(p, id, copy)), id, copy)
}

/// The state before the exchange marks what is dirty.
pub open spec fn exchanged_nodes(s: Tx, id: NodeId, copy: NodeId) -> Tx {
    let mine = s.kind(id);
    let theirs = s.kind(copy);
    let up = s.nodes[id].parent->0;
    let other = s.nodes[copy].parent->0;
    let a = s.touch(id).touch(copy).rehome(mine.kids(), copy, 0).rehome(
        theirs.kids(),
        id,
        0,
    ).put_kind(id, theirs).put_kind(copy, mine);
    let t = if up == other {
        a.swap_under(up, id, copy)
    } else {
        a.swap_under(up, id, copy).swap_under(other, id, copy)
    };
    t.put_parent(id, Some(other)).put_parent(copy, Some(up))
}

/// Whether two nodes can exchange places.
pub open spec fn can_swap(s: Tx, id: NodeId, copy: NodeId) -> bool {
    &&& s.live(id)
    &&& s.live(copy)
    &&& id != copy
    &&& s.kind(id) is Store
    &&& s.kind(copy) is Store
    &&& s.kind(id)->Store_id == s.kind(copy)->Store_id
    &&& s.parent_of(id) is Some
    &&& s.parent_of(copy) is Some
    &&& s.parent_of(id) != Some(copy)
    &&& s.parent_of(copy) != Some(id)
}

#[verifier::rlimit(40)]
pub proof fn exchanged_places(
    s: Tx,
    id: NodeId,
    copy: NodeId,
    was: Map<NodeId, Entry>,
    ids: Seq<NodeId>,
)
    requires
        shape::good(s, was, ids),
        calm(s),
        can_swap(s, id, copy),
    ensures
        ({
            let t = exchanged_nodes(s, id, copy);
            let up = s.parent_of(id)->0;
            let other = s.parent_of(copy)->0;
            &&& mirrored(s, t, id, copy)
            &&& t == Tx { nodes: t.nodes, touched: t.touched, ..s }
            &&& forall|x: NodeId| #[trigger]
                s.live(x) ==> t.nodes[x].sem == s.nodes[x].sem && t.nodes[x].revision
                    == s.nodes[x].revision && t.nodes[x].subs == s.nodes[x].subs
            &&& t.kind(id) == s.kind(copy)
            &&& t.kind(copy) == s.kind(id)
            &&& t.kind(up) == model::swap_kids(s.kind(up), id, copy)
            &&& t.kind(other) == model::swap_kids(s.kind(other), id, copy)
            &&& forall|x: NodeId| #[trigger]
                s.live(x) && x != id && x != copy && x != up && x != other ==> t.kind(x) == s.kind(
                    x,
                )
        }),
{
    reveal(shape::good);
    let mine = s.kind(id);
    let theirs = s.kind(copy);
    let up = s.parent_of(id)->0;
    let other = s.parent_of(copy)->0;
    shape::depth_step(s, id);
    shape::depth_step(s, copy);
    let b = s.touch(id).touch(copy);
    assert(s.touch(id).nodes == s.nodes);
    assert(b.nodes == s.nodes);
    assert(s.kids(id) == mine.kids() && s.kids(copy) == theirs.kids());
    assert forall|j: int| 0 <= j < mine.kids().len() implies b.live(#[trigger] mine.kids()[j]) by {
        assert(s.kids(id).contains(mine.kids()[j]));
    }
    rehomed(b, mine.kids(), copy, 0);
    let c = b.rehome(mine.kids(), copy, 0);
    assert forall|j: int| 0 <= j < theirs.kids().len() implies c.live(
        #[trigger] theirs.kids()[j],
    ) by {
        assert(s.kids(copy).contains(theirs.kids()[j]));
        assert(c.live(theirs.kids()[j]) == b.live(theirs.kids()[j]));
    }
    rehomed(c, theirs.kids(), id, 0);
    let d = c.rehome(theirs.kids(), id, 0);
    assert forall|x: NodeId| #[trigger] d.live(x) == s.live(x) by {
        assert(d.live(x) == c.live(x));
        assert(c.live(x) == b.live(x));
    }
    assert forall|x: NodeId| #[trigger] s.live(x) implies d.kind(x) == s.kind(x) && d.nodes[x].sem
        == s.nodes[x].sem && d.nodes[x].revision == s.nodes[x].revision && d.nodes[x].subs
        == s.nodes[x].subs by {
        assert(b.live(x));
        assert(c.live(x) == b.live(x));
        assert(c.live(x));
    }
    let e = d.put_kind(id, theirs).put_kind(copy, mine);
    let f = if up == other {
        e.swap_under(up, id, copy)
    } else {
        e.swap_under(up, id, copy).swap_under(other, id, copy)
    };
    let t = exchanged_nodes(s, id, copy);
    assert(d.live(id) && d.live(copy) && d.live(up) && d.live(other));
    assert(t == f.put_parent(id, Some(other)).put_parent(copy, Some(up)));
    assert(up != id && other != copy && up != copy && other != id);
    assert(e.touch(up).nodes == e.nodes);
    let e1 = e.swap_under(up, id, copy);
    assert(e1.touch(other).nodes == e1.nodes);
    // parents
    assert forall|x: NodeId| #[trigger] t.parent_of(x) == swap_parent(
        s.parent_of(model::swapped(x, id, copy)),
        id,
        copy,
    ) by {
        if !s.live(x) {
            assert(!d.live(x));
            assert(x != id && x != copy);
        } else if x == id {
        } else if x == copy {
        } else {
            assert(d.live(x));
            assert(c.live(x) == b.live(x));
            assert(b.live(x));
            assert(t.parent_of(x) == d.parent_of(x));
            assert(d.parent_of(x) == (if among(theirs.kids(), 0, x) {
                Some(id)
            } else {
                c.parent_of(x)
            }));
            assert(c.parent_of(x) == (if among(mine.kids(), 0, x) {
                Some(copy)
            } else {
                b.parent_of(x)
            }));
            if among(theirs.kids(), 0, x) {
                let j = choose|j: int| 0 <= j < theirs.kids().len() && #[trigger] theirs.kids()[j]
                    == x;
                assert(s.kids(copy).contains(x));
                assert(s.parent_of(x) == Some(copy));
            } else if among(mine.kids(), 0, x) {
                let j = choose|j: int| 0 <= j < mine.kids().len() && #[trigger] mine.kids()[j] == x;
                assert(s.kids(id).contains(x));
                assert(s.parent_of(x) == Some(id));
            } else {
                assert(!shape::adrift(s, x));
                if s.parent_of(x) == Some(id) {
                    let j = choose|j: int| 0 <= j < s.kids(id).len() && s.kids(id)[j] == x;
                    assert(mine.kids()[j] == x);
                }
                if s.parent_of(x) == Some(copy) {
                    let j = choose|j: int| 0 <= j < s.kids(copy).len() && s.kids(copy)[j] == x;
                    assert(theirs.kids()[j] == x);
                }
            }
        }
    }
    assert forall|x: NodeId| #[trigger] t.live(x) == s.live(x) by {
        assert(d.live(x) == s.live(x));
    }
    // kinds
    assert(t.kind(id) == theirs && t.kind(copy) == mine);
    assert(t.kind(up) == model::swap_kids(s.kind(up), id, copy));
    assert(t.kind(other) == model::swap_kids(s.kind(other), id, copy));
    assert forall|x: NodeId| #[trigger]
        s.live(x) && x != id && x != copy && x != up && x != other implies t.kind(x) == s.kind(
        x,
    ) by {
        assert(d.kind(x) == s.kind(x));
    }
    assert forall|x: NodeId| #[trigger] s.live(x) implies t.nodes[x].sem == s.nodes[x].sem
        && t.nodes[x].revision == s.nodes[x].revision && t.nodes[x].subs == s.nodes[x].subs by {
        assert(d.nodes[x].sem == s.nodes[x].sem);
    }
    // children
    assert forall|p: NodeId| #[trigger] t.kids(p) == swap_list(
        s.kids(model::swapped(p, id, copy)),
        id,
        copy,
    ) by {
        assert(t.live(p) == s.live(p));
        if !s.live(p) {
            assert(swap_list(s.kids(p), id, copy) =~= s.kids(p));
        } else if p == id || p == copy {
            let q = model::swapped(p, id, copy);
            assert(!s.kids(q).contains(id) && !s.kids(q).contains(copy));
            swap_list_none(s.kids(q), id, copy);
        } else if p == up || p == other {
            swap_kids_kids(s.kind(p), id, copy);
        } else {
            assert(!s.kids(p).contains(id) && !s.kids(p).contains(copy));
            swap_list_none(s.kids(p), id, copy);
        }
    }
}

pub proof fn climbs_mirrored(s: Tx, t: Tx, id: NodeId, copy: NodeId, x: NodeId, n: nat)
    requires
        mirrored(s, t, id, copy),
        s.live(id),
        s.live(copy),
        shape::climbs(s.nodes, x, n),
    ensures
        shape::climbs(t.nodes, model::swapped(x, id, copy), n),
    decreases n,
{
    let y = model::swapped(x, id, copy);
    assert(s.live(x));
    assert(t.live(y) == s.live(y));
    assert(model::swapped(y, id, copy) == x);
    assert(t.parent_of(y) == swap_parent(s.parent_of(x), id, copy));
    if let Some(up) = s.nodes[x].parent {
        climbs_mirrored(s, t, id, copy, up, (n - 1) as nat);
    }
}

/// Exchanging places keeps everything.
pub proof fn exchanged(
    s: Tx,
    id: NodeId,
    copy: NodeId,
    path: Path,
    was: Map<NodeId, Entry>,
    ids: Seq<NodeId>,
)
    requires
        shape::good(s, was, ids),
        calm(s),
        can_swap(s, id, copy),
        path == s.kind(id)->Store_id,
    ensures
        shape::good(s.exchange(id, copy, path), was, ids),
        calm(s.exchange(id, copy, path)),
        s.exchange(id, copy, path).nodes == exchanged_nodes(s, id, copy).nodes,
        s.exchange(id, copy, path).root == s.root,
        s.exchange(id, copy, path).allocated == s.allocated,
{
    let m = exchanged_nodes(s, id, copy);
    let up = s.parent_of(id)->0;
    let other = s.parent_of(copy)->0;
    let stale = set![id, copy, up, other];
    let none = Set::<NodeId>::empty();
    exchanged_places(s, id, copy, was, ids);
    reveal(shape::good);
    shape::depth_step(s, id);
    shape::depth_step(s, copy);
    assert forall|x: NodeId| model::swapped(#[trigger] model::swapped(x, id, copy), id, copy)
        == x by {}
    assert(shape::rooted(m)) by {
        assert(m.live(s.root) == s.live(s.root));
        assert(s.root != id && s.root != copy);
        assert(m.parent_of(s.root) == swap_parent(s.parent_of(s.root), id, copy));
    }
    assert forall|p: NodeId, c: NodeId|
        #![trigger m.kids(p).contains(c)]
        m.kids(p).contains(c) == s.kids(model::swapped(p, id, copy)).contains(
            model::swapped(c, id, copy),
        ) by {
        let q = model::swapped(p, id, copy);
        let e = model::swapped(c, id, copy);
        assert(m.kids(p) == swap_list(s.kids(q), id, copy));
        if m.kids(p).contains(c) {
            let i = choose|i: int| 0 <= i < m.kids(p).len() && m.kids(p)[i] == c;
            assert(s.kids(q)[i] == e);
        }
        if s.kids(q).contains(e) {
            let i = choose|i: int| 0 <= i < s.kids(q).len() && s.kids(q)[i] == e;
            assert(m.kids(p)[i] == c);
        }
    }
    assert(shape::linked(m)) by {
        assert forall|p: NodeId, c: NodeId| #[trigger] m.kids(p).contains(c) implies m.parent_of(c)
            == Some(p) by {
            let q = model::swapped(p, id, copy);
            let e = model::swapped(c, id, copy);
            assert(s.kids(q).contains(e));
            assert(s.parent_of(e) == Some(q));
            assert(m.parent_of(c) == swap_parent(s.parent_of(e), id, copy));
        }
        assert forall|p: NodeId| #[trigger] m.kids(p).no_duplicates() by {
            let q = model::swapped(p, id, copy);
            assert(s.kids(q).no_duplicates());
            assert(m.kids(p) == swap_list(s.kids(q), id, copy));
        }
    }
    assert(calm(m)) by {
        assert forall|x: NodeId| !#[trigger] shape::adrift(m, x) by {
            let e = model::swapped(x, id, copy);
            assert(!shape::adrift(s, e));
            assert(m.parent_of(x) == swap_parent(s.parent_of(e), id, copy));
            if m.parent_of(x) is Some {
                let q = s.parent_of(e)->0;
                assert(s.kids(q).contains(e));
                let p = model::swapped(q, id, copy);
                assert(model::swapped(p, id, copy) == q);
                assert(m.kids(p).contains(x));
            }
        }
    }
    swap_kids_kids(s.kind(up), id, copy);
    swap_kids_kids(s.kind(other), id, copy);
    assert(shape::tidied(m)) by {
        assert forall|x: NodeId| #[trigger] m.live(x) implies shape::tidy(m.kind(x)) by {
            assert(s.live(x));
            assert(s.live(id) && s.live(copy) && s.live(up) && s.live(other));
        }
    }
    assert(shape::bounded(m.nodes)) by {
        assert forall|x: NodeId| #[trigger] m.nodes.contains_key(x) implies shape::climbs(
            m.nodes,
            x,
            MAX_DEPTH as nat,
        ) by {
            let e = model::swapped(x, id, copy);
            assert(m.live(x) == s.live(x));
            assert(s.nodes.contains_key(e));
            climbs_mirrored(s, m, id, copy, e, MAX_DEPTH as nat);
        }
    }
    assert(shape::indexed(m)) by {
        assert forall|p: Path| #[trigger] m.stores.contains_key(p) implies m.is_store(
            m.stores[p],
            p,
        ) by {
            let x = s.stores[p];
            assert(s.stores.contains_key(p));
            assert(s.is_store(x, p));
            assert(m.live(x) == s.live(x));
        }
        assert forall|key: (Path, Chars)| #[trigger]
            m.streams.contains_key(key) implies shape::is_stream(m, m.streams[key], key) by {
            let x = s.streams[key];
            assert(s.streams.contains_key(key));
            assert(shape::is_stream(s, x, key));
            assert(m.live(x) == s.live(x));
        }
    }
    assert forall|x: NodeId| #[trigger] s.parent_of(x) is None && s.live(x) implies m.parent_of(x)
        is None by {
        assert(m.parent_of(x) == swap_parent(
            s.parent_of(model::swapped(x, id, copy)),
            id,
            copy,
        ));
    }
    assert(shape::stowed(m)) by {
        assert forall|x: NodeId| #[trigger] m.is_pending.contains(x) implies m.live(x)
            && m.parent_of(x) is None && x != m.root && m.pending.contains(x) by {
            assert(s.is_pending.contains(x));
            assert(m.live(x) == s.live(x));
            assert(s.parent_of(x) is None);
        }
        assert forall|n: (NodeId, Chars)| #[trigger] m.carry.contains_key(n) implies m.live(
            m.carry[n],
        ) && m.parent_of(m.carry[n]) is None && m.carry[n] != m.root && !m.is_pending.contains(
            m.carry[n],
        ) && m.carry_order.contains(n) by {
            assert(s.carry.contains_key(n));
            let x = s.carry[n];
            assert(m.live(x) == s.live(x));
            assert(s.parent_of(x) is None);
        }
    }
    assert(shape::afloat(m)) by {
        assert forall|x: NodeId| #[trigger] m.live(x) && m.parent_of(x) is None implies x == m.root
            || m.is_pending.contains(x) || shape::carried(m, x) by {
            assert(s.live(x));
            assert(m.parent_of(x) == swap_parent(
                s.parent_of(model::swapped(x, id, copy)),
                id,
                copy,
            ));
            upkeep::carried_same(s, m, x);
        }
    }
    assert(shape::consistent_but(m, stale)) by {
        assert forall|x: NodeId| #[trigger]
            m.live(x) && !m.settle.contains_key(x) && !stale.contains(x) implies node::alike(
            m.nodes[x].sem,
            m.shallow(x),
        ) by {
            assert(m.live(x) == s.live(x));
            assert(s.live(x));
            assert(m.kind(x) == s.kind(x));
            let kids = s.kids(x);
            assert forall|i: int| 0 <= i < kids.len() implies s.nodes.contains_key(
                #[trigger] kids[i],
            ) == m.nodes.contains_key(kids[i]) && (s.nodes.contains_key(kids[i])
                ==> s.nodes[kids[i]].sem == m.nodes[kids[i]].sem) by {
                assert(m.live(kids[i]) == s.live(kids[i]));
            }
            upkeep::cached_same(s.nodes, m.nodes, kids);
        }
    }
    assert(shape::recalled(m, was)) by {
        assert forall|x: NodeId| #[trigger] was.contains_key(x) implies m.live(x)
            && m.nodes[x].revision == was[x].revision && m.nodes[x].subs == was[x].subs
            && was[x].sem == (if m.settle.contains_key(x) {
            m.settle[x]
        } else {
            m.nodes[x].sem
        }) by {
            assert(s.live(x));
            assert(m.live(x) == s.live(x));
        }
    }
    assert(shape::unused(m, ids)) by {
        assert forall|k: int| m.allocated.len() <= k < ids.len() implies !m.live(
            #[trigger] ids[k],
        ) by {
            assert(m.live(ids[k]) == s.live(ids[k]));
        }
    }
    let three = set![copy, up, other];
    assert(shape::upward(m, three.insert(id))) by {
        assert forall|x: NodeId| #[trigger] m.settle.contains_key(x) implies m.live(x) && (
        m.parent_of(x) matches Some(p) ==> m.settle.contains_key(p) || three.insert(id).contains(
            p,
        )) by {
            assert(s.settle.contains_key(x));
            assert(m.live(x) == s.live(x));
            assert(m.parent_of(x) == swap_parent(
                s.parent_of(model::swapped(x, id, copy)),
                id,
                copy,
            ));
        }
    }
    assert(m.parent_of(id) == Some(other) && m.parent_of(copy) == Some(up));
    upkeep::marked_but(m, id, three, stale, was, ids);
    let a = m.mark_dirty(id);
    let two = set![up, other];
    assert(shape::upward(a, two.insert(copy))) by {
        assert forall|x: NodeId| #[trigger] a.settle.contains_key(x) implies a.live(x) && (
        a.parent_of(x) matches Some(p) ==> a.settle.contains_key(p) || two.insert(copy).contains(
            p,
        )) by {}
    }
    upkeep::marked_but(a, copy, two, stale, was, ids);
    let b = a.mark_dirty(copy);
    assert(b.settle.contains_key(id) && b.settle.contains_key(other)) by {
        assert(a.settle.contains_key(id) && a.settle.contains_key(other));
    }
    assert(b.settle.contains_key(copy) && b.settle.contains_key(up));
    let t = s.exchange(id, copy, path);
    assert(t == b.set_store(path, Some(id)));
    assert(t.nodes == m.nodes);
    assert(forall|x: NodeId| t.live(x) == m.live(x));
    assert(forall|x: NodeId| t.parent_of(x) == m.parent_of(x));
    assert(forall|x: NodeId| #[trigger] t.kids(x) == m.kids(x));
    assert(shape::linked(t)) by {
        assert forall|p: NodeId, c: NodeId| #[trigger] t.kids(p).contains(c) implies t.parent_of(c)
            == Some(p) by {
            assert(m.kids(p).contains(c));
        }
        assert forall|p: NodeId| #[trigger] t.kids(p).no_duplicates() by {
            assert(m.kids(p).no_duplicates());
        }
    }
    assert(shape::tidied(t)) by {
        assert forall|x: NodeId| #[trigger] t.live(x) implies shape::tidy(t.kind(x)) by {
            assert(m.live(x));
        }
    }
    assert(shape::indexed(t)) by {
        assert forall|p: Path| #[trigger] t.stores.contains_key(p) implies t.is_store(
            t.stores[p],
            p,
        ) by {
            if p != path {
                assert(m.stores.contains_key(p));
                assert(m.is_store(m.stores[p], p));
            }
        }
        assert forall|key: (Path, Chars)| #[trigger]
            t.streams.contains_key(key) implies shape::is_stream(t, t.streams[key], key) by {
            assert(m.streams.contains_key(key));
            assert(shape::is_stream(m, m.streams[key], key));
        }
    }
    assert(shape::afloat(t)) by {
        assert forall|x: NodeId| #[trigger] t.live(x) && t.parent_of(x) is None implies x == t.root
            || t.is_pending.contains(x) || shape::carried(t, x) by {
            assert(m.live(x));
            upkeep::carried_same(m, t, x);
        }
    }
    assert(shape::consistent(t)) by {
        assert forall|x: NodeId| #[trigger] t.live(x) && !t.settle.contains_key(x) implies
            node::alike(t.nodes[x].sem, t.shallow(x)) by {
            assert(b.live(x) && !b.settle.contains_key(x));
            assert(!stale.contains(x));
        }
    }
    assert(shape::recalled(t, was)) by {
        assert forall|x: NodeId| #[trigger] was.contains_key(x) implies t.live(x)
            && t.nodes[x].revision == was[x].revision && t.nodes[x].subs == was[x].subs
            && was[x].sem == (if t.settle.contains_key(x) {
            t.settle[x]
        } else {
            t.nodes[x].sem
        }) by {
            assert(b.live(x));
        }
    }
    assert(shape::upward(t, none)) by {
        assert forall|x: NodeId| #[trigger] t.settle.contains_key(x) implies t.live(x) && (
        t.parent_of(x) matches Some(p) ==> t.settle.contains_key(p)) by {
            assert(b.settle.contains_key(x));
        }
    }
    assert(calm(t)) by {
        assert forall|x: NodeId| !#[trigger] shape::adrift(t, x) by {
            assert(!shape::adrift(m, x));
            assert(t.kids(t.parent_of(x)->0) == m.kids(t.parent_of(x)->0));
        }
    }
}

} // verus!
