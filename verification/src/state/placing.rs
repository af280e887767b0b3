//! What reconciling keeps, and what it makes of a document.

use vstd::prelude::*;

use crate::state::growth;
use crate::state::guard;
use crate::state::model;
use crate::state::model::{Tx, MAX_DEPTH, MAX_WALK};
use crate::state::node::{Kind, NodeId};
use crate::state::shape;
use crate::state::slots;
use crate::state::slots::Entry;
use crate::state::text::Chars;
use crate::state::upkeep;

verus! {

/// What `node_index` means.
pub proof fn node_index_meaning(list: Seq<NodeId>, id: NodeId)
    ensures
        model::node_index(list, id) <= list.len(),
        model::node_index(list, id) < list.len() ==> list[model::node_index(list, id) as int]
            == id,
        list.contains(id) ==> model::node_index(list, id) < list.len(),
    decreases list.len(),
{
    if list.len() > 0 && list[0] != id {
        let rest = list.drop_first();
        node_index_meaning(rest, id);
        if list.contains(id) {
            let i = choose|i: int| 0 <= i < list.len() && list[i] == id;
            assert(rest[i - 1] == id);
        }
    }
}

/// Whether every node on its way is guarded, or is loose below a guarded one.
pub open spec fn moored(s: Tx, kept: Set<NodeId>, loose: Set<NodeId>) -> bool {
    forall|x: NodeId| #[trigger]
        shape::adrift(s, x) ==> kept.contains(x) || (loose.contains(x) && kept.contains(
            s.parent_of(x)->0,
        ))
}

/// Whether a node was on its way to where it still is.
pub open spec fn adrift_still(s: Tx, t: Tx, id: NodeId) -> bool {
    shape::adrift(s, id) && t.parent_of(id) == s.parent_of(id)
}

/// Whether the nodes on their way after a step are those from before, or `also`.
pub open spec fn drifts(s: Tx, t: Tx, also: Option<NodeId>) -> bool {
    forall|x: NodeId| #[trigger] shape::adrift(t, x) ==> adrift_still(s, t, x) || also == Some(x)
}

/// The nodes once `found` has moved below `parent`; a new one may have taken its
/// place.
pub open spec fn moved_below(
    s: Tx,
    after: Map<NodeId, Entry>,
    found: NodeId,
    parent: NodeId,
) -> bool {
    &&& forall|x: NodeId| #[trigger]
        s.live(x) && x != found ==> after.contains_key(x) && after[x].parent == s.nodes[x].parent
    &&& after.contains_key(found)
    &&& after[found].parent == Some(parent)
    &&& forall|x: NodeId| #[trigger]
        after.contains_key(x) && !s.live(x) ==> s.parent_of(found) is Some && after[x].parent
            == s.parent_of(found)
}

proof fn climbs_moved(
    s: Tx,
    after: Map<NodeId, Entry>,
    found: NodeId,
    parent: NodeId,
    depth: nat,
    kept: Set<NodeId>,
    loose: Set<NodeId>,
    y: NodeId,
    n: nat,
)
    requires
        moved_below(s, after, found, parent),
        shape::climbs(s.nodes, y, n),
        n <= MAX_DEPTH,
        1 <= depth <= MAX_DEPTH,
        s.fits(found, (MAX_DEPTH - depth) as nat),
        shape::climbs(after, parent, (depth - 1) as nat),
        kept.contains(parent),
        !kept.contains(found),
        forall|x: NodeId| #[trigger]
            kept.contains(x) ==> (s.parent_of(x) matches Some(up) ==> kept.contains(up)),
        moored(s, kept, loose),
    ensures
        shape::climbs(after, y, n) || (!kept.contains(y) && exists|k: nat|
            k <= MAX_DEPTH - depth && s.fits(y, (MAX_DEPTH - depth - k) as nat)
                && #[trigger] shape::climbs(after, y, depth + k)),
    decreases n,
{
    let room = (MAX_DEPTH - depth) as nat;
    if y == found {
        assert(shape::climbs(after, found, depth));
        assert(shape::climbs(after, y, depth + 0nat));
        assert(s.fits(y, (room - 0) as nat));
    } else if let Some(up) = s.nodes[y].parent {
        climbs_moved(s, after, found, parent, depth, kept, loose, up, (n - 1) as nat);
        assert(s.parent_of(y) == Some(up));
        assert(after.contains_key(y) && after[y].parent == Some(up)) by {
            assert(s.live(y));
        }
        if !shape::climbs(after, up, (n - 1) as nat) {
            let k = choose|k: nat|
                k <= MAX_DEPTH - depth && s.fits(up, (MAX_DEPTH - depth - k) as nat)
                    && #[trigger] shape::climbs(after, up, depth + k);
            assert(!kept.contains(y));
            assert(!shape::adrift(s, y));
            assert(s.kids(up).contains(y));
            let i = choose|i: int| 0 <= i < s.kids(up).len() && s.kids(up)[i] == y;
            assert(s.fits(s.kids(up)[i], (room - k - 1) as nat));
            assert(shape::climbs(after, y, depth + (k + 1)));
            assert(shape::climbs(after, y, depth + (k + 1) as nat));
        }
    } else {
        assert(s.live(y));
    }
}

/// A subtree that fits where it is taken keeps the cap.
pub proof fn bounded_moved(
    s: Tx,
    after: Map<NodeId, Entry>,
    found: NodeId,
    parent: NodeId,
    depth: nat,
    kept: Set<NodeId>,
    loose: Set<NodeId>,
)
    requires
        shape::bounded(s.nodes),
        s.live(found),
        s.live(parent),
        moved_below(s, after, found, parent),
        !s.is_ancestor(found, parent),
        1 <= depth,
        s.fits_at(found, depth),
        shape::climbs(s.nodes, parent, (depth - 1) as nat),
        kept.contains(parent),
        !kept.contains(found),
        forall|x: NodeId| #[trigger]
            kept.contains(x) ==> (s.parent_of(x) matches Some(up) ==> kept.contains(up)),
        moored(s, kept, loose),
    ensures
        shape::bounded(after),
        shape::climbs(after, parent, (depth - 1) as nat),
{
    shape::unmet_avoids(s, parent, found, MAX_WALK as nat);
    assert(forall|x: NodeId| #[trigger]
        s.nodes.contains_key(x) && x != found ==> s.live(x));
    shape::depth_counts(s, parent, (depth - 1) as nat, MAX_WALK as nat);
    avoids_fewer(s.nodes, parent, found, (MAX_WALK - 1) as nat, (depth - 1) as nat);
    shape::avoids_climbs(s.nodes, after, parent, found, (depth - 1) as nat);
    assert forall|y: NodeId| #[trigger] after.contains_key(y) implies shape::climbs(
        after,
        y,
        MAX_DEPTH as nat,
    ) by {
        if s.live(y) {
            climb_within(s, after, found, parent, depth, kept, loose, y);
        } else {
            let up = s.parent_of(found)->0;
            shape::depth_step(s, found);
            assert(shape::climbs(s.nodes, up, (MAX_DEPTH - 1) as nat));
            shape::shallower_avoids(s, up, found, (MAX_DEPTH - 1) as nat);
            shape::avoids_climbs(s.nodes, after, up, found, (MAX_DEPTH - 1) as nat);
        }
    }
}

proof fn climb_within(
    s: Tx,
    after: Map<NodeId, Entry>,
    found: NodeId,
    parent: NodeId,
    depth: nat,
    kept: Set<NodeId>,
    loose: Set<NodeId>,
    y: NodeId,
)
    requires
        shape::bounded(s.nodes),
        s.live(y),
        moved_below(s, after, found, parent),
        1 <= depth,
        s.fits_at(found, depth),
        shape::climbs(after, parent, (depth - 1) as nat),
        kept.contains(parent),
        !kept.contains(found),
        forall|x: NodeId| #[trigger]
            kept.contains(x) ==> (s.parent_of(x) matches Some(up) ==> kept.contains(up)),
        moored(s, kept, loose),
    ensures
        shape::climbs(after, y, MAX_DEPTH as nat),
{
    climbs_moved(s, after, found, parent, depth, kept, loose, y, MAX_DEPTH as nat);
    if !shape::climbs(after, y, MAX_DEPTH as nat) {
        let k = choose|k: nat|
            k <= MAX_DEPTH - depth && s.fits(y, (MAX_DEPTH - depth - k) as nat)
                && #[trigger] shape::climbs(after, y, depth + k);
        shape::climbs_more(after, y, depth + k, MAX_DEPTH as nat);
    }
}

proof fn avoids_fewer(nodes: Map<NodeId, Entry>, id: NodeId, not: NodeId, n: nat, m: nat)
    requires
        shape::avoids(nodes, id, not, n),
        shape::climbs(nodes, id, m),
    ensures
        shape::avoids(nodes, id, not, m),
    decreases n,
{
    if let Some(up) = nodes[id].parent {
        avoids_fewer(nodes, up, not, (n - 1) as nat, (m - 1) as nat);
    }
}

/// The children of a kind with one replaced.
pub proof fn with_kid_kids(kind: Kind, at: int, kid: NodeId)
    requires
        0 <= at < kind.kids().len(),
        !(kind is Collection),
    ensures
        model::with_kid(kind, at, kid).kids() == kind.kids().update(at, kid),
        shape::tidy(kind) ==> shape::tidy(model::with_kid(kind, at, kid)),
        upkeep::same_name(kind, model::with_kid(kind, at, kid)),
{
    let new = model::with_kid(kind, at, kid);
    assert(new.kids() =~= kind.kids().update(at, kid));
    match (kind, new) {
        (Kind::Object(a), Kind::Object(b)) => {
            assert forall|i: int| 0 <= i < a.len() implies (#[trigger] b[i]).0 == a[i].0 by {}
        },
        (Kind::Store { fields: a, .. }, Kind::Store { fields: b, .. }) => {
            assert forall|i: int| 0 <= i < a.len() implies (#[trigger] b[i]).0 == a[i].0 by {}
        },
        _ => {},
    }
}

/// Nodes keep their parents, and but for `up` what they are; what is new hangs
/// below `up`.
pub open spec fn only_below(s: Tx, t: Tx, up: NodeId) -> bool {
    &&& forall|x: NodeId| #[trigger] s.live(x) ==> t.live(x) && t.parent_of(x) == s.parent_of(x)
    &&& forall|x: NodeId| #[trigger] s.live(x) && x != up ==> t.kind(x) == s.kind(x)
    &&& forall|x: NodeId| #[trigger] t.live(x) && !s.live(x) ==> t.parent_of(x) == Some(up)
}

/// Taking a child out of its parent.
pub proof fn detached(
    s: Tx,
    up: NodeId,
    child: NodeId,
    kept: Set<NodeId>,
    was: Map<NodeId, Entry>,
    ids: Seq<NodeId>,
)
    requires
        shape::good(s, was, ids),
        s.kids(up).contains(child),
        !kept.contains(child),
        s.detach(up, child, ids).1 is Ok,
        s.detach(up, child, ids).0.allocated.len() <= ids.len(),
    ensures
        shape::good(s.detach(up, child, ids).0, was, ids),
        guard::keeps(s, s.detach(up, child, ids).0, kept),
        only_below(s, s.detach(up, child, ids).0, up),
        shape::adrift(s.detach(up, child, ids).0, child),
        drifts(s, s.detach(up, child, ids).0, Some(child)),
{
    let b = s.touch_dirty(up);
    assert(s.live(up));
    upkeep::touched_dirty(s, up, was, ids);
    let kind = b.kind(up);
    assert(kind == s.kind(up));
    let kids = kind.kids();
    assert(kids == s.kids(up));
    node_index_meaning(kids, child);
    let at = model::node_index(kids, child) as int;
    let t = s.detach(up, child, ids).0;
    assert(kids.no_duplicates() && shape::tidy(kind) && (forall|c: NodeId| #[trigger]
        s.kids(up).contains(c) ==> s.parent_of(c) == Some(up)) && shape::linked(s)
        && shape::bounded(s.nodes)) by {
        reveal(shape::good);
        assert(s.kids(up).no_duplicates());
        assert(s.live(up));
    }
    match kind {
        Kind::Collection { name, owner, items } => {
            let new = Kind::Collection { name, owner, items: items.remove(at) };
            assert(new.kids() =~= kids.remove(at));
            assert(upkeep::suits(b, up, new)) by {
                assert forall|c: NodeId| #[trigger] new.kids().contains(c) implies b.parent_of(c)
                    == Some(up) by {
                    let i = choose|i: int| 0 <= i < new.kids().len() && new.kids()[i] == c;
                    let j = if i < at {
                        i
                    } else {
                        i + 1
                    };
                    assert(kids[j] == c);
                    assert(s.kids(up).contains(c));
                }
                assert(shape::keys_once(items));
                assert forall|i: int, j: int|
                    0 <= i < j < items.remove(at).len() implies (#[trigger] items.remove(at)[i]).0
                    != (#[trigger] items.remove(at)[j]).0 by {
                    let a = if i < at {
                        i
                    } else {
                        i + 1
                    };
                    let b = if j < at {
                        j
                    } else {
                        j + 1
                    };
                    assert(items[a].0 != items[b].0);
                }
            }
            let p = b.put_kind(up, new);
            upkeep::rekinded(b, up, new, was, ids);
            assert(shape::good(t, was, ids)) by {
                reveal(shape::good);
                upkeep::alike_keeps(p, t, was, ids);
            }
            assert(t.kids(up) == new.kids());
            assert(guard::keeps(s, t, kept)) by {
                reveal(guard::keeps);
                assert(guard::eroded(s, kept, kind, new)) by {
                    assert forall|i: int| 0 <= i < items.remove(at).len() implies items.contains(
                        #[trigger] items.remove(at)[i],
                    ) by {
                        let a = if i < at {
                            i
                        } else {
                            i + 1
                        };
                        assert(items[a] == items.remove(at)[i]);
                    }
                }
                assert forall|x: NodeId| #[trigger] kept.contains(x) && s.live(x) implies
                    t.parent_of(x) == s.parent_of(x) && guard::eroded(
                    s,
                    kept,
                    s.kind(x),
                    t.kind(x),
                ) by {}
            }
            assert(!t.kids(up).contains(child)) by {
                if t.kids(up).contains(child) {
                    let i = choose|i: int| 0 <= i < new.kids().len() && new.kids()[i] == child;
                    let j = if i < at {
                        i
                    } else {
                        i + 1
                    };
                    assert(kids[j] == child && kids[at] == child);
                }
            }
            assert forall|x: NodeId| #[trigger] shape::adrift(t, x) implies adrift_still(
                s,
                t,
                x,
            ) || Some(child) == Some(x) by {
                if x != child && !shape::adrift(s, x) {
                    let p = s.parent_of(x)->0;
                    assert(s.kids(p).contains(x));
                    if p == up {
                        let i = choose|i: int| 0 <= i < kids.len() && kids[i] == x;
                        let j = if i < at {
                            i
                        } else {
                            i - 1
                        };
                        assert(new.kids()[j] == x);
                    } else {
                        assert(t.kids(p) == s.kids(p));
                    }
                }
            }
        },
        _ => {
            let m = b.make(Some(up), ids).0;
            let kid = b.make(Some(up), ids).1->Ok_0;
            assert(shape::climbs(s.nodes, child, MAX_DEPTH as nat));
            upkeep::made(b, up, was, ids);
            let new = model::with_kid(kind, at, kid);
            with_kid_kids(kind, at, kid);
            assert(kid != up && kid != child);
            assert(m.settle.contains_key(up));
            assert(m.kind(up) == kind);
            assert(upkeep::suits(m, up, new)) by {
                assert forall|c: NodeId| #[trigger] new.kids().contains(c) implies m.parent_of(c)
                    == Some(up) by {
                    let i = choose|i: int| 0 <= i < new.kids().len() && new.kids()[i] == c;
                    if i != at {
                        assert(kids[i] == c);
                        assert(s.kids(up).contains(c));
                        assert(s.parent_of(c) == Some(up));
                    }
                }
                assert forall|i: int, j: int|
                    0 <= i < new.kids().len() && 0 <= j < new.kids().len() && i
                        != j implies new.kids()[i] != new.kids()[j] by {
                    if i != at && j != at {
                        assert(kids[i] != kids[j]);
                    } else {
                        let o = if i == at {
                            j
                        } else {
                            i
                        };
                        assert(s.kids(up).contains(kids[o]));
                        assert(s.parent_of(kids[o]) == Some(up));
                    }
                }
            }
            upkeep::rekinded(m, up, new, was, ids);
            assert(t == m.put_kind(up, new));
            assert(t.kids(up) == new.kids());
            assert(guard::keeps(s, t, kept)) by {
                reveal(guard::keeps);
                assert(guard::eroded(s, kept, kind, new)) by {
                    assert(kids[at] == child);
                    match (kind, new) {
                        (Kind::Array(x), Kind::Array(y)) => {
                            assert forall|i: int| 0 <= i < x.len() implies guard::worn(
                                s,
                                kept,
                                x[i],
                                #[trigger] y[i],
                            ) by {}
                        },
                        (Kind::Object(x), Kind::Object(y)) => {
                            assert forall|i: int| 0 <= i < x.len() implies (#[trigger] y[i]).0
                                == x[i].0 && guard::worn(s, kept, x[i].1, y[i].1) by {
                                assert(kids[i] == x[i].1);
                            }
                        },
                        (Kind::Store { fields: x, .. }, Kind::Store { fields: y, .. }) => {
                            assert forall|i: int| 0 <= i < x.len() implies (#[trigger] y[i]).0
                                == x[i].0 && guard::worn(s, kept, x[i].1, y[i].1) by {
                                assert(kids[i] == x[i].1);
                            }
                        },
                        (Kind::Async { result, reason, .. }, Kind::Async { .. }) => {
                            assert(kids[0] == result && kids[1] == reason);
                        },
                        _ => {},
                    }
                }
                assert forall|x: NodeId| #[trigger] kept.contains(x) && s.live(x) implies
                    t.parent_of(x) == s.parent_of(x) && guard::eroded(
                    s,
                    kept,
                    s.kind(x),
                    t.kind(x),
                ) by {}
            }
            assert(!t.kids(up).contains(child)) by {
                if t.kids(up).contains(child) {
                    let i = choose|i: int| 0 <= i < new.kids().len() && new.kids()[i] == child;
                    assert(i != at ==> kids[i] != kids[at]);
                }
            }
            assert forall|x: NodeId| #[trigger] shape::adrift(t, x) implies adrift_still(
                s,
                t,
                x,
            ) || Some(child) == Some(x) by {
                if x == kid {
                    assert(t.kids(up)[at] == kid);
                } else if x != child && !shape::adrift(s, x) {
                    let p = s.parent_of(x)->0;
                    assert(s.kids(p).contains(x));
                    if p == up {
                        let i = choose|i: int| 0 <= i < kids.len() && kids[i] == x;
                        assert(new.kids()[i] == x);
                    } else {
                        assert(p != kid);
                        assert(t.kids(p) == s.kids(p));
                    }
                }
            }
        },
    }
}

/// Taking a node out of its parent, whether it is held there or not.
proof fn taken_out(
    s: Tx,
    up: NodeId,
    child: NodeId,
    kept: Set<NodeId>,
    was: Map<NodeId, Entry>,
    ids: Seq<NodeId>,
)
    requires
        shape::good(s, was, ids),
        s.parent_of(child) == Some(up),
        s.live(up),
        !kept.contains(child),
        s.detach(up, child, ids).1 is Ok,
        s.detach(up, child, ids).0.allocated.len() <= ids.len(),
    ensures
        shape::good(s.detach(up, child, ids).0, was, ids),
        guard::keeps(s, s.detach(up, child, ids).0, kept),
        only_below(s, s.detach(up, child, ids).0, up),
        shape::adrift(s.detach(up, child, ids).0, child),
        drifts(s, s.detach(up, child, ids).0, Some(child)),
{
    if s.kids(up).contains(child) {
        detached(s, up, child, kept, was, ids);
    } else {
        let t = s.touch_dirty(up);
        upkeep::touched_dirty(s, up, was, ids);
        node_index_meaning(s.kids(up), child);
        assert(t.kids(up) == s.kids(up));
        assert(s.detach(up, child, ids).0 == t);
        assert(guard::keeps(s, t, kept)) by {
            reveal(guard::keeps);
            assert forall|x: NodeId| #[trigger] kept.contains(x) && s.live(x) implies t.parent_of(x)
                == s.parent_of(x) && guard::eroded(s, kept, s.kind(x), t.kind(x)) by {
                eroded_self(s, kept, s.kind(x));
            }
        }
        assert forall|x: NodeId| #[trigger] shape::adrift(t, x) implies adrift_still(s, t, x)
            || Some(child) == Some(x) by {
            assert(t.kids(t.parent_of(x)->0) == s.kids(t.parent_of(x)->0));
        }
    }
}

/// What a step below `parent` starts from.
pub open spec fn ready(
    s: Tx,
    kept: Set<NodeId>,
    parent: NodeId,
    existing: Option<NodeId>,
    loose: Set<NodeId>,
    depth: nat,
    was: Map<NodeId, Entry>,
    ids: Seq<NodeId>,
) -> bool {
    &&& shape::good(s, was, ids)
    &&& guard::guards(s, kept, parent)
    &&& moored(s, kept, loose)
    &&& depth >= 1
    &&& shape::climbs(s.nodes, parent, (depth - 1) as nat)
    &&& existing matches Some(e) ==> s.parent_of(e) == Some(parent) && !kept.contains(e)
}

/// Moving a node below another.
pub proof fn adopted(
    s: Tx,
    parent: NodeId,
    found: NodeId,
    existing: Option<NodeId>,
    loose: Set<NodeId>,
    depth: nat,
    kept: Set<NodeId>,
    was: Map<NodeId, Entry>,
    ids: Seq<NodeId>,
)
    requires
        ready(s, kept, parent, existing, loose, depth, was, ids),
        s.live(found),
        found != s.root,
        !kept.contains(found),
        !s.is_ancestor(found, parent),
        s.fits_at(found, depth),
        s.adopt(parent, found, ids).1 is Ok,
        s.adopt(parent, found, ids).0.allocated.len() <= ids.len(),
    ensures
        ({
            let t = s.adopt(parent, found, ids).0;
            &&& shape::good(t, was, ids)
            &&& guard::keeps(s, t, kept)
            &&& t.parent_of(found) == Some(parent)
            &&& t.kind(found) == s.kind(found)
            &&& drifts(s, t, Some(found))
            &&& shape::adrift(t, found)
            &&& shape::climbs(t.nodes, found, depth)
        }),
{
    let t = s.adopt(parent, found, ids).0;
    let a = s.touch(found).unpend(found);
    assert(s.live(parent) && kept.contains(parent) && (forall|x: NodeId| #[trigger]
        kept.contains(x) ==> (s.parent_of(x) matches Some(up) ==> kept.contains(up)))) by {
        reveal(guard::guards);
    }
    assert(shape::bounded(s.nodes) && shape::linked(s)) by {
        reveal(shape::good);
    }
    assert(s.touch(found).nodes == s.nodes);
    let empty = Set::<NodeId>::empty();
    match s.parent_of(found) {
        Some(up) => {
            assert(shape::good(a, was, ids)) by {
                reveal(shape::good);
                assert(!s.is_pending.contains(found));
                assert(a.is_pending =~= s.is_pending);
                assert(a.carry =~= s.carry) by {
                    assert forall|name: (NodeId, Chars)| #[trigger]
                        s.carry.contains_key(name) implies s.carry[name] != found by {}
                }
                upkeep::alike_keeps(s, a, was, ids);
            }
            assert(a.kids(up) == s.kids(up));
            let d = a.detach(up, found, ids).0;
            growth::dirty_up_makes_none(
                d.put_parent(found, Some(parent)),
                Some(parent),
                MAX_WALK as nat,
            );
            assert(s.live(up)) by {
                shape::depth_step(s, found);
            }
            taken_out(a, up, found, kept, was, ids);
            let after = slots::with_parent(d.nodes, found, Some(parent));
            assert(moved_below(s, after, found, parent)) by {
                assert forall|x: NodeId| #[trigger] s.live(x) && x != found implies after.contains_key(
                    x,
                ) && after[x].parent == s.nodes[x].parent by {
                    assert(a.live(x));
                    assert(d.parent_of(x) == a.parent_of(x));
                }
                assert(a.live(found));
                assert forall|x: NodeId| #[trigger] after.contains_key(x) && !s.live(x) implies
                    s.parent_of(found) is Some && after[x].parent == s.parent_of(found) by {
                    assert(d.live(x) && !a.live(x));
                    assert(d.parent_of(x) == Some(up));
                }
            }
            bounded_moved(s, after, found, parent, depth, kept, loose);
            upkeep::taken_adrift(d, found, parent, was, ids);
            let p = d.put_parent(found, Some(parent));
            upkeep::marked(p, parent, empty, was, ids);
            assert(!p.kids(parent).contains(found));
            assert(t.kids(parent) == p.kids(parent));
            assert(shape::good(t, was, ids)) by {
                reveal(shape::good);
            }
            assert(guard::keeps(s, t, kept)) by {
                reveal(guard::keeps);
                assert forall|x: NodeId| #[trigger] kept.contains(x) && s.live(x) implies
                    t.parent_of(x) == s.parent_of(x) && guard::eroded(
                    s,
                    kept,
                    s.kind(x),
                    t.kind(x),
                ) by {
                    assert(a.live(x));
                    assert(guard::eroded(a, kept, a.kind(x), d.kind(x)));
                    eroded_alike(a, s, kept, a.kind(x), d.kind(x));
                }
                assert forall|x: NodeId| #[trigger] s.live(x) implies t.live(x) by {
                    assert(a.live(x));
                }
                assert forall|x: NodeId| #[trigger] s.settle.contains_key(
                    x,
                ) implies t.settle.contains_key(x) by {
                    assert(a.settle.contains_key(x));
                    assert(d.settle.contains_key(x));
                }
            }
            assert(t.kind(found) == s.kind(found)) by {
                assert(a.live(found));
                assert(up != found) by {
                    shape::depth_step(s, found);
                }
            }
            assert forall|x: NodeId| #[trigger] shape::adrift(t, x) implies adrift_still(
                s,
                t,
                x,
            ) || Some(found) == Some(x) by {
                if x != found {
                    assert(t.kids(t.parent_of(x)->0) == d.kids(t.parent_of(x)->0));
                    assert(shape::adrift(d, x));
                    assert(shape::adrift(a, x));
                    assert(a.kids(a.parent_of(x)->0) == s.kids(a.parent_of(x)->0));
                }
            }
        },
        None => {
            let after = slots::with_parent(s.nodes, found, Some(parent));
            bounded_moved(s, after, found, parent, depth, kept, loose);
            upkeep::taken_stray(s, found, parent, was, ids);
            let q = s.unpend(found).put_parent(found, Some(parent));
            let p = a.put_parent(found, Some(parent));
            upkeep::alike_keeps(q, p, was, ids);
            assert(shape::upward(p, empty.insert(parent))) by {
                assert forall|x: NodeId| #[trigger] p.settle.contains_key(x) implies p.live(x) && (
                p.parent_of(x) matches Some(up) ==> p.settle.contains_key(up) || empty.insert(
                    parent,
                ).contains(up)) by {
                    assert(q.settle.contains_key(x));
                }
            }
            upkeep::marked(p, parent, empty, was, ids);
            assert(!q.kids(parent).contains(found));
            assert(t.kids(parent) == q.kids(parent));
            assert(shape::good(t, was, ids)) by {
                reveal(shape::good);
            }
            assert(guard::keeps(s, t, kept)) by {
                reveal(guard::keeps);
                assert forall|x: NodeId| #[trigger] kept.contains(x) && s.live(x) implies
                    t.parent_of(x) == s.parent_of(x) && guard::eroded(
                    s,
                    kept,
                    s.kind(x),
                    t.kind(x),
                ) by {
                    eroded_self(s, kept, s.kind(x));
                }
            }
            assert forall|x: NodeId| #[trigger] shape::adrift(t, x) implies adrift_still(
                s,
                t,
                x,
            ) || Some(found) == Some(x) by {
                if x != found {
                    assert(t.kids(t.parent_of(x)->0) == s.kids(t.parent_of(x)->0));
                }
            }
        },
    }
    assert(shape::climbs(t.nodes, found, depth));
}

pub proof fn eroded_self(s: Tx, kept: Set<NodeId>, kind: Kind)
    ensures
        guard::eroded(s, kept, kind, kind),
{
    if let Kind::Collection { items, .. } = kind {
        assert forall|i: int| 0 <= i < items.len() implies items.contains(#[trigger] items[i]) by {}
    }
}

proof fn eroded_alike(s: Tx, t: Tx, kept: Set<NodeId>, old: Kind, new: Kind)
    requires
        guard::eroded(s, kept, old, new),
        s.nodes == t.nodes,
    ensures
        guard::eroded(t, kept, old, new),
{
    match (old, new) {
        (Kind::Array(x), Kind::Array(y)) => {
            assert forall|i: int| 0 <= i < x.len() implies guard::worn(
                t,
                kept,
                x[i],
                #[trigger] y[i],
            ) by {
                assert(guard::worn(s, kept, x[i], y[i]));
            }
        },
        _ => {},
    }
}

// ------------------------------------------------------------ giving a node kids

/// Nodes are what they were, and but for `id` of the kind they were; children of
/// `id` that are not among `kids` may have been let go.
pub open spec fn relisted(s: Tx, t: Tx, id: NodeId, kids: Seq<NodeId>) -> bool {
    &&& t.root == s.root
    &&& t.allocated == s.allocated
    &&& t.claimed == s.claimed
    &&& t.claimed_streams == s.claimed_streams
    &&& forall|x: NodeId| #[trigger] s.settle.contains_key(x) ==> t.settle.contains_key(x)
    &&& forall|x: NodeId| #[trigger] t.live(x) == s.live(x)
    &&& forall|x: NodeId| #[trigger] s.live(x) && x != id ==> t.kind(x) == s.kind(x)
    &&& forall|x: NodeId| #[trigger]
        t.parent_of(x) == s.parent_of(x) || (s.parent_of(x) == Some(id) && !kids.contains(x)
            && t.parent_of(x) is None)
}

pub proof fn relisted_on(s: Tx, t: Tx, u: Tx, id: NodeId, kids: Seq<NodeId>)
    requires
        relisted(s, t, id, kids),
        relisted(t, u, id, kids),
    ensures
        relisted(s, u, id, kids),
{
    assert forall|x: NodeId| #[trigger] u.live(x) == s.live(x) by {
        assert(t.live(x) == s.live(x));
    }
    assert forall|x: NodeId| #[trigger] s.live(x) && x != id implies u.kind(x) == s.kind(x) by {
        assert(t.live(x));
    }
    assert forall|x: NodeId| #[trigger]
        u.parent_of(x) == s.parent_of(x) || (s.parent_of(x) == Some(id) && !kids.contains(x)
            && u.parent_of(x) is None) by {
        assert(t.parent_of(x) == s.parent_of(x) || t.parent_of(x) is None);
    }
    assert forall|x: NodeId| #[trigger] s.settle.contains_key(x) implies u.settle.contains_key(
        x,
    ) by {
        assert(t.settle.contains_key(x));
    }
}

/// What such a step leaves alone.
pub proof fn relisted_keeps(s: Tx, t: Tx, id: NodeId, kids: Seq<NodeId>, kept: Set<NodeId>)
    requires
        relisted(s, t, id, kids),
        !kept.contains(id),
        forall|c: NodeId| #[trigger]
            kept.contains(c) ==> s.parent_of(c) != Some(id) || kids.contains(c),
    ensures
        guard::keeps(s, t, kept),
{
    reveal(guard::keeps);
    assert forall|x: NodeId| #[trigger] kept.contains(x) && s.live(x) implies t.parent_of(x)
        == s.parent_of(x) && guard::eroded(s, kept, s.kind(x), t.kind(x)) by {
        assert(t.parent_of(x) == s.parent_of(x) || s.parent_of(x) == Some(id));
        eroded_self(s, kept, s.kind(x));
    }
    assert forall|x: NodeId| #[trigger] s.live(x) implies t.live(x) by {
        assert(t.live(x) == s.live(x));
    }
}

/// A child that is no longer held is released.
pub proof fn released_one(
    s: Tx,
    id: NodeId,
    child: NodeId,
    was: Map<NodeId, Entry>,
    ids: Seq<NodeId>,
)
    requires
        shape::good(s, was, ids),
        s.live(id),
        !s.kids(id).contains(child),
    ensures
        ({
            let t = s.release_if_mine(id, child);
            &&& shape::good(t, was, ids)
            &&& relisted(s, t, id, s.kids(id))
            &&& t.kind(id) == s.kind(id)
            &&& drifts(s, t, None)
            &&& t.parent_of(child) != Some(id)
        }),
{
    let t = s.release_if_mine(id, child);
    if s.parent_of(child) == Some(id) {
        upkeep::released(s, child, was, ids);
        assert(relisted(s, t, id, s.kids(id)));
        assert forall|x: NodeId| #[trigger] shape::adrift(t, x) implies adrift_still(
            s,
            t,
            x,
        ) by {
            assert(t.parent_of(x) == s.parent_of(x));
            assert(t.kids(t.parent_of(x)->0) == s.kids(t.parent_of(x)->0));
        }
    }
}

/// Children that are no longer held are released.
pub proof fn released_list(
    s: Tx,
    id: NodeId,
    list: Seq<NodeId>,
    held: Set<NodeId>,
    i: int,
    was: Map<NodeId, Entry>,
    ids: Seq<NodeId>,
)
    requires
        shape::good(s, was, ids),
        s.live(id),
        held == s.kids(id).to_set(),
        0 <= i <= list.len(),
        forall|j: int|
            0 <= j < i && !held.contains(#[trigger] list[j]) ==> s.parent_of(list[j]) != Some(id),
    ensures
        ({
            let t = s.release_displaced(id, list, held, i);
            &&& shape::good(t, was, ids)
            &&& relisted(s, t, id, s.kids(id))
            &&& t.kind(id) == s.kind(id)
            &&& drifts(s, t, None)
            &&& forall|j: int|
                0 <= j < list.len() && !held.contains(#[trigger] list[j]) ==> t.parent_of(list[j])
                    != Some(id)
        }),
    decreases list.len() - i,
{
    if i < list.len() {
        if held.contains(list[i]) {
            released_list(s, id, list, held, i + 1, was, ids);
        } else {
            let u = s.release_if_mine(id, list[i]);
            assert(!s.kids(id).contains(list[i])) by {
                if s.kids(id).contains(list[i]) {
                    assert(s.kids(id).to_set().contains(list[i]));
                }
            }
            released_one(s, id, list[i], was, ids);
            assert(u.kids(id) == s.kids(id));
            assert forall|j: int|
                0 <= j < i + 1 && !held.contains(#[trigger] list[j]) implies u.parent_of(list[j])
                != Some(id) by {
                assert(u.parent_of(list[j]) == s.parent_of(list[j]) || u.parent_of(
                    list[j],
                ) is None);
            }
            released_list(u, id, list, held, i + 1, was, ids);
            let t = u.release_displaced(id, list, held, i + 1);
            relisted_on(s, u, t, id, s.kids(id));
        }
    }
}

/// Giving a node another kind, and letting go of the children it had.
pub proof fn given(
    s: Tx,
    t: Tx,
    id: NodeId,
    kind: Kind,
    list: Seq<NodeId>,
    was: Map<NodeId, Entry>,
    ids: Seq<NodeId>,
)
    requires
        shape::good(s, was, ids),
        s.live(id),
        upkeep::suits(s, id, kind),
        upkeep::same_name(s.kind(id), kind),
        (t == s && s.kind(id) == kind) || t == s.touch_dirty(id).put_kind(id, kind),
        forall|c: NodeId| #[trigger] s.kids(id).contains(c) ==> list.contains(c),
    ensures
        ({
            let u = t.release_displaced(id, list, kind.kids().to_set(), 0);
            &&& shape::good(u, was, ids)
            &&& relisted(s, u, id, kind.kids())
            &&& u.kind(id) == kind
            &&& forall|x: NodeId| #[trigger]
                shape::adrift(u, x) ==> adrift_still(s, u, x) && !kind.kids().contains(x)
        }),
{
    given_kind(s, t, id, kind, was, ids);
    assert(t.kids(id) == kind.kids());
    released_list(t, id, list, kind.kids().to_set(), 0, was, ids);
    let u = t.release_displaced(id, list, kind.kids().to_set(), 0);
    relisted_on(s, t, u, id, kind.kids());
    assert forall|x: NodeId| #[trigger] shape::adrift(u, x) implies adrift_still(s, u, x)
        && !kind.kids().contains(x) by {
        assert(shape::adrift(t, x));
        assert(u.kids(id) == kind.kids());
        let p = u.parent_of(x)->0;
        assert(u.parent_of(x) == s.parent_of(x));
        if kind.kids().contains(x) {
            assert(s.parent_of(x) == Some(id));
        }
        if p == id {
            if s.kids(id).contains(x) {
                let j = choose|j: int| 0 <= j < list.len() && list[j] == x;
                if kind.kids().to_set().contains(list[j]) {
                    assert(kind.kids().contains(x));
                }
            }
        } else {
            assert(u.kids(p) == s.kids(p)) by {
                assert(u.live(p) == s.live(p));
            }
        }
    }
}

/// Giving a node another kind.
pub proof fn given_kind(
    s: Tx,
    t: Tx,
    id: NodeId,
    kind: Kind,
    was: Map<NodeId, Entry>,
    ids: Seq<NodeId>,
)
    requires
        shape::good(s, was, ids),
        s.live(id),
        upkeep::suits(s, id, kind),
        upkeep::same_name(s.kind(id), kind),
        (t == s && s.kind(id) == kind) || t == s.touch_dirty(id).put_kind(id, kind),
    ensures
        shape::good(t, was, ids),
        relisted(s, t, id, kind.kids()),
        t.kind(id) == kind,
        t.live(id),
        forall|x: NodeId| #[trigger] t.parent_of(x) == s.parent_of(x),
{
    if t != s {
        let d = s.touch_dirty(id);
        upkeep::touched_dirty(s, id, was, ids);
        assert(upkeep::suits(d, id, kind)) by {
            assert forall|c: NodeId| #[trigger] kind.kids().contains(c) implies d.parent_of(c)
                == Some(id) by {
                assert(s.parent_of(c) == Some(id));
            }
        }
        upkeep::rekinded(d, id, kind, was, ids);
    }
}

} // verus!
