//! What a patch op keeps, and that it writes what it is given.

use vstd::prelude::*;

use crate::state::exchanging;
use crate::state::growth;
use crate::state::guard;
use crate::state::keyed;
use crate::state::marker;
use crate::state::model;
use crate::state::model::{Tx, MAX_DEPTH, MAX_WALK};
use crate::state::node;
use crate::state::node::{AsyncStatus, Kind, NodeId};
use crate::state::placing;
use crate::state::pointer;
use crate::state::pointer::ArrayIndex;
use crate::state::reading;
use crate::state::reconciling;
use crate::state::shape;
use crate::state::slots::Entry;
use crate::state::text::Chars;
use crate::state::upkeep;
use crate::state::value;
use crate::state::value::Json;
use crate::state::wire::{PatchOp, Path};

verus! {

/// What holds between ops: everything, and no node is on its way.
pub open spec fn steady(s: Tx, was: Map<NodeId, Entry>, ids: Seq<NodeId>) -> bool {
    shape::good(s, was, ids) && exchanging::calm(s)
}

proof fn avoids_unmet(s: Tx, at: NodeId, not: NodeId, n: nat, walk: nat)
    requires
        shape::avoids(s.nodes, at, not, n),
        n + 1 < walk,
    ensures
        !s.met_above(not, Some(at), walk),
    decreases n,
{
    reveal_with_fuel(Tx::met_above, 2);
    if let Some(up) = s.nodes[at].parent {
        avoids_unmet(s, up, not, (n - 1) as nat, (walk - 1) as nat);
    }
}

/// A child is not above its parent.
pub proof fn child_below(s: Tx, parent: NodeId, child: NodeId)
    requires
        shape::bounded(s.nodes),
        s.parent_of(child) == Some(parent),
    ensures
        !s.is_ancestor(child, parent),
        child != parent,
{
    shape::depth_step(s, child);
    shape::depth_step(s, parent);
    shape::climbs_more(s.nodes, parent, s.depth(parent), MAX_DEPTH as nat);
    shape::shallower_avoids(s, parent, child, MAX_DEPTH as nat);
    avoids_unmet(s, parent, child, MAX_DEPTH as nat, MAX_WALK as nat);
}

/// A slot of a node that is at most `depth - 1` deep may be written.
pub proof fn slot_ready(
    s: Tx,
    parent: NodeId,
    existing: Option<NodeId>,
    depth: nat,
    was: Map<NodeId, Entry>,
    ids: Seq<NodeId>,
)
    requires
        steady(s, was, ids),
        s.live(parent),
        depth >= 1,
        shape::climbs(s.nodes, parent, (depth - 1) as nat),
        existing matches Some(e) ==> s.parent_of(e) == Some(parent),
    ensures
        placing::ready(
            s,
            guard::spine(s, parent),
            parent,
            existing,
            Set::empty(),
            depth,
            was,
            ids,
        ),
        guard::spine(s, parent).contains(parent),
{
    assert(shape::bounded(s.nodes)) by {
        reveal(shape::good);
    }
    guard::guards_spine(s, parent);
    if let Some(e) = existing {
        child_below(s, parent, e);
    }
    assert(placing::moored(s, guard::spine(s, parent), Set::empty())) by {
        assert forall|x: NodeId| #[trigger] shape::adrift(s, x) implies guard::spine(
            s,
            parent,
        ).contains(x) by {
            assert(!shape::adrift(s, x));
        }
    }
}

/// A node is given a kind, and a child it no longer holds is let go.
pub open spec fn regiven(s: Tx, parent: NodeId, kind: Kind, gone: Option<NodeId>) -> Tx {
    let t = s.touch_dirty(parent).put_kind(parent, kind);
    match gone {
        Some(child) => t.release_if_mine(parent, child),
        None => t,
    }
}

/// Giving a node other children, where those on their way are among them.
pub proof fn reseated(
    s: Tx,
    parent: NodeId,
    kind: Kind,
    gone: Option<NodeId>,
    was: Map<NodeId, Entry>,
    ids: Seq<NodeId>,
)
    requires
        shape::good(s, was, ids),
        s.live(parent),
        upkeep::suits(s, parent, kind),
        upkeep::same_name(s.kind(parent), kind),
        forall|x: NodeId| #[trigger] shape::adrift(s, x) ==> kind.kids().contains(x),
        forall|c: NodeId| #[trigger]
            s.kids(parent).contains(c) ==> kind.kids().contains(c) || gone == Some(c),
        gone matches Some(c) ==> !kind.kids().contains(c),
    ensures
        steady(regiven(s, parent, kind, gone), was, ids),
        placing::relisted(s, regiven(s, parent, kind, gone), parent, kind.kids()),
        regiven(s, parent, kind, gone).live(parent),
        regiven(s, parent, kind, gone).kind(parent) == kind,
{
    let t = s.touch_dirty(parent).put_kind(parent, kind);
    let u = regiven(s, parent, kind, gone);
    placing::given_kind(s, t, parent, kind, was, ids);
    assert(t.kids(parent) == kind.kids());
    if let Some(child) = gone {
        placing::released_one(t, parent, child, was, ids);
        placing::relisted_on(s, t, u, parent, kind.kids());
        assert(u.live(parent) == t.live(parent));
    }
    assert forall|x: NodeId| !#[trigger] shape::adrift(u, x) by {
        if shape::adrift(u, x) {
            let p = u.parent_of(x)->0;
            assert(u.parent_of(x) == s.parent_of(x)) by {
                assert(u.parent_of(x) == s.parent_of(x) || u.parent_of(x) is None);
            }
            assert(u.kids(parent) == kind.kids());
            if p == parent {
                assert(!kind.kids().contains(x));
                assert(!shape::adrift(s, x));
                assert(s.kids(parent).contains(x));
                assert(gone == Some(x));
            } else {
                assert(u.live(p) == s.live(p));
                assert(u.kids(p) == s.kids(p));
                assert(shape::adrift(s, x));
                assert(s.parent_of(x) == Some(parent));
            }
        }
    }
}

/// What a slot gives up before it is rewritten.
pub open spec fn yielded(s: Tx, a: Tx, id: NodeId, held: NodeId) -> bool {
    let parent = s.parent_of(id)->0;
    &&& a.parent_of(held) == Some(parent)
    &&& a.live(parent)
    &&& a.root == s.root
    &&& a.allocated == s.allocated
    &&& if held == id {
        a == s
    } else {
        exchanging::can_swap(s, id, held) && a.nodes == exchanging::exchanged_nodes(
            s,
            id,
            held,
        ).nodes && !s.is_ancestor(held, id)
    }
    &&& a.kind(parent) == (if held == id {
        s.kind(parent)
    } else {
        model::swap_kids(s.kind(parent), id, held)
    })
}

/// Giving up an identity keeps everything.
pub proof fn identity_yielded(
    s: Tx,
    id: NodeId,
    v: Json,
    was: Map<NodeId, Entry>,
    ids: Seq<NodeId>,
)
    requires
        steady(s, was, ids),
        s.parent_of(id) is Some,
    ensures
        steady(s.yield_identity(id, v).0, was, ids),
        yielded(s, s.yield_identity(id, v).0, id, s.yield_identity(id, v).1),
        forall|d: nat|
            shape::climbs(s.nodes, s.parent_of(id)->0, d) ==> #[trigger] shape::climbs(
                s.yield_identity(id, v).0.nodes,
                s.parent_of(id)->0,
                d,
            ),
{
    let (a, held) = s.yield_identity(id, v);
    let parent = s.parent_of(id)->0;
    assert(shape::bounded(s.nodes)) by {
        reveal(shape::good);
    }
    shape::depth_step(s, id);
    if held != id {
        let copy = held;
        let path = s.kind(id)->Store_id;
        assert(s.copy_of(id) == Some(copy));
        assert(s.parent_of(id) != Some(copy) && s.parent_of(copy) != Some(id)) by {
            reveal_with_fuel(Tx::met_above, 3);
        }
        exchanging::exchanged(s, id, copy, path, was, ids);
        exchanging::exchanged_places(s, id, copy, was, ids);
        let m = exchanging::exchanged_nodes(s, id, copy);
        assert(a.nodes == m.nodes);
        assert(m.parent_of(copy) == exchanging::swap_parent(
            s.parent_of(model::swapped(copy, id, copy)),
            id,
            copy,
        ));
        assert(parent != id && parent != copy);
        assert(m.live(parent) == s.live(parent));
        assert forall|d: nat| shape::climbs(s.nodes, parent, d) implies #[trigger] shape::climbs(
            a.nodes,
            parent,
            d,
        ) by {
            exchanging::climbs_mirrored(s, m, id, copy, parent, d);
        }
    }
}

/// What reconciling a slot leaves, where no node was on its way before.
pub proof fn slot_child(
    s: Tx,
    t: Tx,
    parent: NodeId,
    existing: Option<NodeId>,
    kid: NodeId,
    v: Json,
    n: nat,
    kept: Set<NodeId>,
    was: Map<NodeId, Entry>,
    ids: Seq<NodeId>,
)
    requires
        steady(s, was, ids),
        s.live(parent),
        kept.contains(parent),
        reconciling::child_done(s, t, parent, existing, kid, v, n, kept, was, ids),
    ensures
        forall|x: NodeId| #[trigger] shape::adrift(t, x) ==> x == kid,
        existing == Some(kid) ==> steady(t, was, ids),
        existing != Some(kid) ==> shape::adrift(t, kid),
        t.live(parent),
        t.parent_of(kid) == Some(parent),
        t.parent_of(parent) == s.parent_of(parent),
        guard::eroded(s, kept, s.kind(parent), t.kind(parent)),
{
    reconciling::kind_kept(s, t, parent, kept);
    assert forall|x: NodeId| #[trigger] shape::adrift(t, x) implies x == kid by {
        if x != kid {
            assert(placing::adrift_still(s, t, x));
        }
    }
    if existing == Some(kid) {
        assert forall|x: NodeId| !#[trigger] shape::adrift(t, x) by {
            if shape::adrift(t, x) {
                assert(placing::adrift_still(s, t, x));
            }
        }
    }
}

/// What the kind of an object or a store becomes around other fields.
proof fn with_fields_kids(kind: Kind, new: Seq<(Chars, NodeId)>)
    requires
        kind.fields() is Some,
        keyed::sorted(new),
    ensures
        kind.with_fields(new).kids() == keyed::items_of(new),
        kind.with_fields(new).fields() == Some(new),
        shape::tidy(kind.with_fields(new)),
        upkeep::same_name(kind, kind.with_fields(new)),
{
}

/// Filing a node that is on its way under a key.
proof fn filed(
    s: Tx,
    parent: NodeId,
    key: Chars,
    kid: NodeId,
    was: Map<NodeId, Entry>,
    ids: Seq<NodeId>,
)
    requires
        shape::good(s, was, ids),
        s.live(parent),
        s.fields(parent) is Some,
        shape::adrift(s, kid),
        s.parent_of(kid) == Some(parent),
        forall|x: NodeId| #[trigger] shape::adrift(s, x) ==> x == kid,
    ensures
        ({
            let held = s.links(parent);
            let new = keyed::put(held, key, kid);
            let t = regiven(
                s,
                parent,
                s.kind(parent).with_fields(new),
                keyed::lookup(held, key),
            );
            &&& steady(t, was, ids)
            &&& placing::relisted(s, t, parent, keyed::items_of(new))
            &&& t.live(parent)
            &&& t.kind(parent) == s.kind(parent).with_fields(new)
            &&& t.links(parent) == new
            &&& keyed::lookup(new, key) == Some(kid)
            &&& keyed::items_of(new).contains(kid)
        }),
{
    let held = s.links(parent);
    let new = keyed::put(held, key, kid);
    let kind = s.kind(parent).with_fields(new);
    let gone = keyed::lookup(held, key);
    assert(keyed::sorted(held) && s.kids(parent).no_duplicates() && shape::linked(s)) by {
        reveal(shape::good);
        assert(s.live(parent));
        assert(s.kids(parent).no_duplicates());
    }
    assert(s.kids(parent) == keyed::items_of(held));
    keyed::put_sorted(held, key, kid);
    keyed::put_lookup(held, key, kid);
    with_fields_kids(s.kind(parent), new);
    keyed::key_index_meaning(held, key);
    keyed::key_slot_meaning(held, key);
    let kids = keyed::items_of(held);
    let has = keyed::has_key(held, key);
    let at = if has {
        keyed::key_index(held, key) as int
    } else {
        keyed::key_slot(held, key) as int
    };
    if has {
        assert(keyed::items_of(new) =~= kids.update(at, kid));
    } else {
        assert(keyed::items_of(new) =~= kids.insert(at, kid));
    }
    assert(keyed::items_of(new)[at] == kid);
    assert(!kids.contains(kid));
    assert(upkeep::suits(s, parent, kind)) by {
        assert forall|c: NodeId| #[trigger] kind.kids().contains(c) implies s.parent_of(c) == Some(
            parent,
        ) by {
            let j = choose|j: int| 0 <= j < kind.kids().len() && kind.kids()[j] == c;
            if j != at {
                let k = if has || j < at {
                    j
                } else {
                    j - 1
                };
                assert(kids[k] == c);
                assert(s.kids(parent).contains(c));
            }
        }
        assert forall|i: int, j: int|
            0 <= i < kind.kids().len() && 0 <= j < kind.kids().len() && i
                != j implies kind.kids()[i] != kind.kids()[j] by {
            let a = if has || i < at {
                i
            } else {
                i - 1
            };
            let b = if has || j < at {
                j
            } else {
                j - 1
            };
            if i != at && j != at {
                assert(kids[a] != kids[b]);
            } else if i == at {
                assert(kids.contains(kids[b]));
            } else {
                assert(kids.contains(kids[a]));
            }
        }
    }
    assert forall|c: NodeId| #[trigger] s.kids(parent).contains(c) implies kind.kids().contains(c)
        || gone == Some(c) by {
        let j = choose|j: int| 0 <= j < kids.len() && kids[j] == c;
        if has {
            if j != at {
                assert(kind.kids()[j] == c);
            }
        } else {
            let k = if j < at {
                j
            } else {
                j + 1
            };
            assert(kind.kids()[k] == c);
        }
    }
    if let Some(c) = gone {
        if kind.kids().contains(c) {
            let j = choose|j: int| 0 <= j < kind.kids().len() && kind.kids()[j] == c;
            assert(kids[at] == c);
            if j == at {
                assert(kids.contains(kids[at]));
            } else {
                assert(kids[j] != kids[at]);
            }
        }
    }
    reseated(s, parent, kind, gone, was, ids);
}

/// Filing a node under a key, where the node it displaces takes the key it came
/// from.
proof fn swapped_in(
    s: Tx,
    parent: NodeId,
    key: Chars,
    kid: NodeId,
    existing: NodeId,
    at: int,
    from: int,
    was: Map<NodeId, Entry>,
    ids: Seq<NodeId>,
)
    requires
        shape::good(s, was, ids),
        s.live(parent),
        s.fields(parent) is Some,
        shape::adrift(s, kid),
        s.parent_of(kid) == Some(parent),
        forall|x: NodeId| #[trigger] shape::adrift(s, x) ==> x == kid,
        0 <= at < s.links(parent).len(),
        0 <= from < s.links(parent).len(),
        at != from,
        s.links(parent)[at] == (key, existing),
    ensures
        ({
            let held = s.links(parent);
            let vacated = held[from].0;
            let put = keyed::put(held, key, kid);
            let new = keyed::put(put, vacated, existing);
            let t = regiven(
                s,
                parent,
                s.kind(parent).with_fields(new),
                keyed::lookup(put, vacated),
            );
            &&& steady(t, was, ids)
            &&& placing::relisted(s, t, parent, keyed::items_of(new))
            &&& t.live(parent)
            &&& t.kind(parent) == s.kind(parent).with_fields(new)
            &&& t.links(parent) == new
            &&& keyed::lookup(new, key) == Some(kid)
            &&& keyed::items_of(new).contains(kid)
        }),
{
    let held = s.links(parent);
    let vacated = held[from].0;
    assert(keyed::sorted(held) && s.kids(parent).no_duplicates() && shape::linked(s)) by {
        reveal(shape::good);
        assert(s.live(parent));
        assert(s.kids(parent).no_duplicates());
    }
    assert(s.kids(parent) == keyed::items_of(held));
    let kids = keyed::items_of(held);
    keyed::sorted_key_index(held, at);
    let put = keyed::put(held, key, kid);
    assert(put == held.update(at, (key, kid)));
    keyed::put_sorted(held, key, kid);
    assert(put[from] == held[from]);
    keyed::sorted_key_index(put, from);
    let gone = held[from].1;
    assert(keyed::lookup(put, vacated) == Some(gone));
    let new = keyed::put(put, vacated, existing);
    assert(new == put.update(from, (vacated, existing)));
    keyed::put_sorted(put, vacated, existing);
    assert(new[at] == (key, kid));
    keyed::sorted_key_index(new, at);
    let kind = s.kind(parent).with_fields(new);
    with_fields_kids(s.kind(parent), new);
    assert(keyed::items_of(new) =~= kids.update(at, kid).update(from, existing));
    assert(kind.kids()[at] == kid);
    assert(!kids.contains(kid));
    assert(kids[at] == existing && kids[from] == gone);
    assert(upkeep::suits(s, parent, kind)) by {
        assert forall|c: NodeId| #[trigger] kind.kids().contains(c) implies s.parent_of(c) == Some(
            parent,
        ) by {
            let j = choose|j: int| 0 <= j < kind.kids().len() && kind.kids()[j] == c;
            if j == from {
                assert(kids[at] == c);
                assert(s.kids(parent).contains(c));
            } else if j != at {
                assert(kids[j] == c);
                assert(s.kids(parent).contains(c));
            }
        }
        assert forall|i: int, j: int|
            0 <= i < kind.kids().len() && 0 <= j < kind.kids().len() && i
                != j implies kind.kids()[i] != kind.kids()[j] by {
            let a = if i == from {
                at
            } else {
                i
            };
            let b = if j == from {
                at
            } else {
                j
            };
            if i != at && j != at {
                assert(kids[a] != kids[b]);
            } else if i == at {
                assert(kids.contains(kids[b]));
            } else {
                assert(kids.contains(kids[a]));
            }
        }
    }
    assert forall|c: NodeId| #[trigger] s.kids(parent).contains(c) implies kind.kids().contains(c)
        || Some(gone) == Some(c) by {
        let j = choose|j: int| 0 <= j < kids.len() && kids[j] == c;
        if j == at {
            assert(kind.kids()[from] == c);
        } else if j != from {
            assert(kind.kids()[j] == c);
        }
    }
    if kind.kids().contains(gone) {
        let j = choose|j: int| 0 <= j < kind.kids().len() && kind.kids()[j] == gone;
        if j == at {
            assert(kids.contains(kids[from]));
        } else if j == from {
            assert(kids[at] != kids[from]);
        } else {
            assert(kids[j] != kids[from]);
        }
    }
    reseated(s, parent, kind, Some(gone), was, ids);
}

/// Keyed children with two nodes swapped are found under the same keys.
proof fn swap_links_lookup(list: Seq<(Chars, NodeId)>, key: Chars, x: NodeId, y: NodeId)
    ensures
        keyed::key_index(model::swap_links(list, x, y), key) == keyed::key_index(list, key),
        keyed::lookup(model::swap_links(list, x, y), key) == exchanging::swap_parent(
            keyed::lookup(list, key),
            x,
            y,
        ),
{
    let new = model::swap_links(list, x, y);
    keyed::key_index_meaning(list, key);
    let at = keyed::key_index(list, key) as int;
    assert forall|j: int| 0 <= j < at implies (#[trigger] new[j]).0 != key by {
        assert(list[j].0 != key);
    }
    keyed::key_index_is(new, key, at);
}

/// Whether what is above `parent` stays as it is.
pub open spec fn above_kept(s: Tx, t: Tx, parent: NodeId) -> bool {
    forall|x: NodeId| #[trigger]
        guard::spine(s, parent).contains(x) && x != parent ==> t.live(x) && t.parent_of(x)
            == s.parent_of(x) && guard::eroded(
            s,
            guard::spine(s, parent),
            s.kind(x),
            t.kind(x),
        )
}

/// What writing a value into a slot of `parent` leaves: `kid` is the child that
/// shows the value, and what is above `parent` stays.
pub open spec fn wrote(
    s: Tx,
    t: Tx,
    parent: NodeId,
    kid: NodeId,
    v: Json,
    n: nat,
    was: Map<NodeId, Entry>,
    ids: Seq<NodeId>,
) -> bool {
    &&& steady(t, was, ids)
    &&& t.live(parent)
    &&& guard::seated(t, kid, parent)
    &&& guard::shows(t, kid, v, n)
    &&& above_kept(s, t, parent)
    &&& t.root == s.root
}

/// A child that was put in its slot.
proof fn written(
    s: Tx,
    b: Tx,
    t: Tx,
    parent: NodeId,
    existing: Option<NodeId>,
    kid: NodeId,
    kids: Seq<NodeId>,
    v: Json,
    n: nat,
    was: Map<NodeId, Entry>,
    ids: Seq<NodeId>,
)
    requires
        steady(s, was, ids),
        s.live(parent),
        reconciling::child_done(
            s,
            b,
            parent,
            existing,
            kid,
            v,
            n,
            guard::spine(s, parent),
            was,
            ids,
        ),
        steady(t, was, ids),
        t.live(parent),
        placing::relisted(b, t, parent, kids),
        kids.contains(kid),
    ensures
        wrote(s, t, parent, kid, v, n, was, ids),
{
    let kept = guard::spine(s, parent);
    assert(b.root == s.root) by {
        reveal(guard::keeps);
    }
    reconciling::kid_given(b, t, parent, kids, kid, v, n, kept);
    assert(shape::bounded(s.nodes)) by {
        reveal(shape::good);
    }
    assert forall|x: NodeId| #[trigger] kept.contains(x) && x != parent implies t.live(x)
        && t.parent_of(x) == s.parent_of(x) && guard::eroded(s, kept, s.kind(x), t.kind(x)) by {
        reconciling::kind_kept(s, b, x, kept);
        assert(t.live(x) == b.live(x));
        assert(t.parent_of(x) == b.parent_of(x) || b.parent_of(x) == Some(parent));
        if s.parent_of(x) == Some(parent) {
            child_below(s, parent, x);
        }
    }
}

/// A child that was rewritten where it is.
proof fn written_in_place(
    s: Tx,
    t: Tx,
    parent: NodeId,
    kid: NodeId,
    v: Json,
    n: nat,
    was: Map<NodeId, Entry>,
    ids: Seq<NodeId>,
)
    requires
        steady(s, was, ids),
        s.live(parent),
        reconciling::child_done(
            s,
            t,
            parent,
            Some(kid),
            kid,
            v,
            n,
            guard::spine(s, parent),
            was,
            ids,
        ),
    ensures
        wrote(s, t, parent, kid, v, n, was, ids),
{
    let kept = guard::spine(s, parent);
    slot_child(s, t, parent, Some(kid), kid, v, n, kept, was, ids);
    assert(t.root == s.root) by {
        reveal(guard::keeps);
    }
    assert forall|x: NodeId| #[trigger] kept.contains(x) && x != parent implies t.live(x)
        && t.parent_of(x) == s.parent_of(x) && guard::eroded(s, kept, s.kind(x), t.kind(x)) by {
        reconciling::kind_kept(s, t, x, kept);
    }
}

/// The state once a slot has given up its identity.
pub open spec fn before_field(s: Tx, parent: NodeId, key: Chars, v: Json) -> Tx {
    match keyed::lookup(s.links(parent), key) {
        Some(id) => s.yield_identity(id, v).0,
        None => s,
    }
}

/// What a field holds before its value is reconciled.
pub open spec fn held_field(s: Tx, parent: NodeId, key: Chars, v: Json) -> Option<NodeId> {
    match keyed::lookup(s.links(parent), key) {
        Some(id) => Some(s.yield_identity(id, v).1),
        None => None,
    }
}

/// Installing one field.
pub proof fn put_field_keeps(
    s: Tx,
    parent: NodeId,
    key: Chars,
    v: Json,
    owner: Path,
    depth: nat,
    ids: Seq<NodeId>,
    n: nat,
    was: Map<NodeId, Entry>,
) -> (kid: NodeId)
    requires
        steady(s, was, ids),
        s.live(parent),
        s.fields(parent) is Some,
        depth >= 1,
        shape::climbs(s.nodes, parent, (depth - 1) as nat),
        v.well_formed(),
        value::nesting(v) < n,
        model::put_field(s, parent, key, v, owner, depth, ids).1 is Ok,
        model::put_field(s, parent, key, v, owner, depth, ids).0.allocated.len() <= ids.len(),
    ensures
        wrote(
            before_field(s, parent, key, v),
            model::put_field(s, parent, key, v, owner, depth, ids).0,
            parent,
            kid,
            v,
            n,
            was,
            ids,
        ),
        model::put_field(s, parent, key, v, owner, depth, ids).0.fields(parent) is Some,
        keyed::lookup(
            model::put_field(s, parent, key, v, owner, depth, ids).0.links(parent),
            key,
        ) == Some(kid),
        keyed::lookup(s.links(parent), key) matches Some(id) ==> s.parent_of(id) == Some(parent),
        steady(before_field(s, parent, key, v), was, ids),
        model::reconcile_child(
            before_field(s, parent, key, v),
            parent,
            held_field(s, parent, key, v),
            v,
            owner,
            depth,
            ids,
        ).1 == Ok::<NodeId, crate::state::error::Fault>(kid),
{
    let first = s.links(parent);
    let t = model::put_field(s, parent, key, v, owner, depth, ids).0;
    let a = before_field(s, parent, key, v);
    let existing = match keyed::lookup(first, key) {
        Some(id) => Some(s.yield_identity(id, v).1),
        None => None,
    };
    keyed::key_index_meaning(first, key);
    let at = keyed::key_index(first, key) as int;
    assert(keyed::sorted(first) && shape::linked(s)) by {
        reveal(shape::good);
        assert(s.live(parent));
    }
    if let Some(id) = keyed::lookup(first, key) {
        assert(s.kids(parent)[at] == id);
        assert(s.kids(parent).contains(id));
        identity_yielded(s, id, v, was, ids);
        let held = s.yield_identity(id, v).1;
        if held != id {
            swap_links_lookup(first, key, id, held);
            assert(a.links(parent) == model::swap_links(first, id, held));
        }
        assert(a.fields(parent) is Some);
        assert(a.links(parent)[at] == (key, held));
        assert(shape::climbs(a.nodes, parent, (depth - 1) as nat));
    }
    let before = a.links(parent);
    assert(a.fields(parent) == Some(before));
    slot_ready(a, parent, existing, depth, was, ids);
    let (b, child) = model::reconcile_child(a, parent, existing, v, owner, depth, ids);
    let kid = child->Ok_0;
    let kept = guard::spine(a, parent);
    growth::dirty_up_makes_none(b.touch(parent), Some(parent), MAX_WALK as nat);
    reconciling::reconcile_child_keeps(
        a,
        parent,
        existing,
        v,
        owner,
        depth,
        ids,
        n,
        Set::empty(),
        kept,
        was,
    );
    slot_child(a, b, parent, existing, kid, v, n, kept, was, ids);
    let held = b.links(parent);
    assert(guard::worn_links(a, kept, before, held));
    assert(b.fields(parent) == Some(held));
    assert(keyed::sorted(held) && shape::linked(b) && keyed::sorted(before) && shape::linked(a)
        && b.kids(parent).no_duplicates() && a.kids(parent).no_duplicates()) by {
        reveal(shape::good);
        assert(b.live(parent) && a.live(parent));
        assert(b.kids(parent).no_duplicates() && a.kids(parent).no_duplicates());
    }
    if existing == Some(kid) {
        assert(t == b);
        written_in_place(a, b, parent, kid, v, n, was, ids);
        // the child is still under its key
        assert(!shape::adrift(b, kid));
        assert(b.kids(parent).contains(kid));
        let j = choose|j: int| 0 <= j < b.kids(parent).len() && b.kids(parent)[j] == kid;
        assert(held[j].1 == kid);
        assert(guard::worn(a, kept, before[j].1, held[j].1));
        assert(a.kids(parent)[j] == kid && a.kids(parent)[at] == kid);
        assert(j == at);
        assert(held[at] == (key, kid));
        keyed::sorted_key_index(held, at);
    } else {
        let d = b.touch_dirty(parent);
        assert(d.links(parent) == held && d.kind(parent) == b.kind(parent)) by {
            upkeep::touched_dirty(b, parent, was, ids);
        }
        let from = model::node_index(keyed::items_of(before), kid) as int;
        placing::node_index_meaning(keyed::items_of(before), kid);
        if existing is Some && b.parent_of(existing->0) == Some(parent) && from < before.len()
            && before[from].0 != key {
            let e = existing->0;
            assert(before[from].1 == kid);
            assert(!shape::adrift(b, e));
            assert(b.kids(parent).contains(e));
            let j = choose|j: int| 0 <= j < b.kids(parent).len() && b.kids(parent)[j] == e;
            assert(held[j].1 == e);
            assert(guard::worn(a, kept, before[j].1, held[j].1));
            assert(a.kids(parent)[j] == e && a.kids(parent)[at] == e);
            assert(j == at);
            assert(held[at] == (key, e));
            assert(held[from].0 == before[from].0);
            swapped_in(b, parent, key, kid, e, at, from, was, ids);
            let put = keyed::put(held, key, kid);
            let new = keyed::put(put, held[from].0, e);
            keyed::sorted_key_index(held, at);
            keyed::put_sorted(held, key, kid);
            assert(put == held.update(at, (key, kid)));
            assert(put[from] == held[from]);
            keyed::sorted_key_index(put, from);
            assert(t == regiven(
                b,
                parent,
                b.kind(parent).with_fields(new),
                keyed::lookup(put, held[from].0),
            ));
            written(a, b, t, parent, existing, kid, keyed::items_of(new), v, n, was, ids);
        } else {
            filed(b, parent, key, kid, was, ids);
            let new = keyed::put(held, key, kid);
            assert(t == regiven(
                b,
                parent,
                b.kind(parent).with_fields(new),
                keyed::lookup(held, key),
            ));
            written(a, b, t, parent, existing, kid, keyed::items_of(new), v, n, was, ids);
        }
    }
    kid
}

/// Where only nodes among `kids` are on their way, giving a node those children
/// leaves none.
proof fn settled_list(
    s: Tx,
    t: Tx,
    parent: NodeId,
    kids: Seq<NodeId>,
    was: Map<NodeId, Entry>,
    ids: Seq<NodeId>,
)
    requires
        shape::good(t, was, ids),
        forall|x: NodeId| #[trigger] shape::adrift(s, x) ==> kids.contains(x),
        forall|x: NodeId| #[trigger]
            shape::adrift(t, x) ==> placing::adrift_still(s, t, x) && !kids.contains(x),
    ensures
        steady(t, was, ids),
{
}

/// Giving an array other elements.
proof fn relisted_array(
    s: Tx,
    parent: NodeId,
    old: Seq<NodeId>,
    new: Seq<NodeId>,
    was: Map<NodeId, Entry>,
    ids: Seq<NodeId>,
)
    requires
        shape::good(s, was, ids),
        s.live(parent),
        s.kind(parent) is Array,
        upkeep::suits(s, parent, Kind::Array(new)),
        forall|x: NodeId| #[trigger] shape::adrift(s, x) ==> new.contains(x),
    ensures
        ({
            let t = model::install_array(s, parent, old, new);
            &&& steady(t, was, ids)
            &&& placing::relisted(s, t, parent, new)
            &&& t.live(parent)
            &&& t.kind(parent) == Kind::Array(new)
        }),
{
    let held = s.kids(parent);
    let kind = Kind::Array(new);
    let changed = if held == new {
        s
    } else {
        s.touch_dirty(parent).put_kind(parent, kind)
    };
    assert forall|c: NodeId| #[trigger] s.kids(parent).contains(c) implies (old + held).contains(
        c,
    ) by {
        let j = choose|j: int| 0 <= j < held.len() && held[j] == c;
        assert((old + held)[old.len() + j] == c);
    }
    placing::given(s, changed, parent, kind, old + held, was, ids);
    let t = model::install_array(s, parent, old, new);
    assert(kind.kids() == new);
    settled_list(s, t, parent, new, was, ids);
    assert(t.live(parent) == s.live(parent));
}

/// Installing one array position.
pub proof fn put_index_keeps(
    s: Tx,
    parent: NodeId,
    index: int,
    v: Json,
    owner: Path,
    depth: nat,
    ids: Seq<NodeId>,
    n: nat,
    was: Map<NodeId, Entry>,
) -> (kid: NodeId)
    requires
        steady(s, was, ids),
        s.live(parent),
        s.kind(parent) is Array,
        0 <= index < s.kids(parent).len(),
        depth >= 1,
        shape::climbs(s.nodes, parent, (depth - 1) as nat),
        v.well_formed(),
        value::nesting(v) < n,
        model::put_index(s, parent, index, v, owner, depth, ids).1 is Ok,
        model::put_index(s, parent, index, v, owner, depth, ids).0.allocated.len() <= ids.len(),
    ensures
        ({
            let t = model::put_index(s, parent, index, v, owner, depth, ids).0;
            let a = s.yield_identity(s.kids(parent)[index], v).0;
            &&& s.parent_of(s.kids(parent)[index]) == Some(parent)
            &&& steady(a, was, ids)
            &&& wrote(a, t, parent, kid, v, n, was, ids)
            &&& t.kind(parent) is Array
            &&& index < t.kids(parent).len()
            &&& t.kids(parent)[index] == kid
        }),
{
    let id = s.kids(parent)[index];
    let (a, existing) = s.yield_identity(id, v);
    assert(shape::linked(s)) by {
        reveal(shape::good);
    }
    assert(s.kids(parent).contains(id));
    identity_yielded(s, id, v, was, ids);
    if existing != id {
        exchanging::swap_kids_kids(s.kind(parent), id, existing);
    }
    assert(a.kids(parent).len() == s.kids(parent).len() && a.kids(parent)[index] == existing);
    assert(a.kind(parent) is Array);
    assert(shape::climbs(a.nodes, parent, (depth - 1) as nat));
    slot_ready(a, parent, Some(existing), depth, was, ids);
    let old = a.kids(parent);
    let (b, child) = model::reconcile_child(a, parent, Some(existing), v, owner, depth, ids);
    let kid = child->Ok_0;
    let kept = guard::spine(a, parent);
    let t = model::put_index(s, parent, index, v, owner, depth, ids).0;
    let held = b.kids(parent);
    let put = model::set_at(held, index, kid);
    let from = model::node_index(old, kid) as int;
    let new = if from < old.len() && from != index && b.parent_of(existing) == Some(parent) {
        model::set_at(put, from, existing)
    } else {
        put
    };
    if kid != existing {
        growth::install_array_makes_none(b, parent, old, new);
    }
    reconciling::reconcile_child_keeps(
        a,
        parent,
        Some(existing),
        v,
        owner,
        depth,
        ids,
        n,
        Set::empty(),
        kept,
        was,
    );
    slot_child(a, b, parent, Some(existing), kid, v, n, kept, was, ids);
    assert(b.kind(parent) is Array && held.len() == old.len());
    assert(shape::linked(b) && held.no_duplicates() && old.no_duplicates()) by {
        reveal(shape::good);
        assert(b.kids(parent).no_duplicates() && a.kids(parent).no_duplicates());
    }
    assert forall|j: int| 0 <= j < old.len() implies guard::worn(
        a,
        kept,
        old[j],
        #[trigger] held[j],
    ) by {}
    placing::node_index_meaning(old, kid);
    if kid == existing {
        assert(t == b);
        written_in_place(a, b, parent, kid, v, n, was, ids);
        assert(!shape::adrift(b, kid));
        assert(b.kids(parent).contains(kid));
        let j = choose|j: int| 0 <= j < held.len() && held[j] == kid;
        assert(old[j] == kid && old[index] == kid);
        assert(j == index);
    } else {
        assert(!held.contains(kid));
        let swap = from < old.len() && from != index && b.parent_of(existing) == Some(parent);
        if swap {
            assert(!shape::adrift(b, existing));
            assert(held.contains(existing));
            let j = choose|j: int| 0 <= j < held.len() && held[j] == existing;
            assert(old[j] == existing && old[index] == existing);
            assert(j == index);
            assert(new =~= held.update(index, kid).update(from, existing));
        } else {
            assert(new =~= held.update(index, kid));
        }
        assert(new[index] == kid);
        assert(upkeep::suits(b, parent, Kind::Array(new))) by {
            assert forall|c: NodeId| #[trigger] Kind::Array(new).kids().contains(
                c,
            ) implies b.parent_of(c) == Some(parent) by {
                let j = choose|j: int| 0 <= j < new.len() && new[j] == c;
                if j != index {
                    let k = if swap && j == from {
                        index
                    } else {
                        j
                    };
                    assert(held[k] == c);
                    assert(b.kids(parent).contains(c));
                }
            }
            assert forall|i: int, j: int|
                0 <= i < new.len() && 0 <= j < new.len() && i != j implies new[i] != new[j] by {
                let x = if swap && i == from {
                    index
                } else {
                    i
                };
                let y = if swap && j == from {
                    index
                } else {
                    j
                };
                if i != index && j != index {
                    assert(held[x] != held[y]);
                } else if i == index {
                    assert(held.contains(held[y]));
                } else {
                    assert(held.contains(held[x]));
                }
            }
        }
        assert forall|x: NodeId| #[trigger] shape::adrift(b, x) implies new.contains(x) by {}
        relisted_array(b, parent, old, new, was, ids);
        written(a, b, t, parent, Some(existing), kid, new, v, n, was, ids);
    }
    kid
}

/// Installing one of an async node's two slots.
pub proof fn put_async_keeps(
    s: Tx,
    parent: NodeId,
    first: bool,
    v: Json,
    owner: Path,
    depth: nat,
    ids: Seq<NodeId>,
    n: nat,
    was: Map<NodeId, Entry>,
) -> (kid: NodeId)
    requires
        steady(s, was, ids),
        s.live(parent),
        s.kind(parent) is Async,
        depth >= 1,
        shape::climbs(s.nodes, parent, (depth - 1) as nat),
        v.well_formed(),
        value::nesting(v) < n,
        model::put_async(s, parent, first, v, owner, depth, ids).1 is Ok,
        model::put_async(s, parent, first, v, owner, depth, ids).0.allocated.len() <= ids.len(),
    ensures
        ({
            let t = model::put_async(s, parent, first, v, owner, depth, ids).0;
            let id = model::async_slot(s, parent, first)->0;
            let a = s.yield_identity(id, v).0;
            &&& s.parent_of(id) == Some(parent)
            &&& steady(a, was, ids)
            &&& wrote(a, t, parent, kid, v, n, was, ids)
            &&& t.kind(parent) is Async
            &&& model::async_slot(t, parent, first) == Some(kid)
        }),
{
    let at: int = if first {
        0
    } else {
        1
    };
    let id = s.kids(parent)[at];
    assert(model::async_slot(s, parent, first) == Some(id));
    let (a, existing) = s.yield_identity(id, v);
    assert(shape::linked(s)) by {
        reveal(shape::good);
    }
    assert(s.kids(parent).contains(id));
    identity_yielded(s, id, v, was, ids);
    if existing != id {
        exchanging::swap_kids_kids(s.kind(parent), id, existing);
    }
    let old = a.kids(parent);
    assert(a.kind(parent) is Async && old[at] == existing);
    assert(shape::climbs(a.nodes, parent, (depth - 1) as nat));
    slot_ready(a, parent, Some(existing), depth, was, ids);
    let (b, child) = model::reconcile_child(a, parent, Some(existing), v, owner, depth, ids);
    let kid = child->Ok_0;
    let kept = guard::spine(a, parent);
    let t = model::put_async(s, parent, first, v, owner, depth, ids).0;
    growth::set_async_slot_makes_none(b, parent, first, kid);
    reconciling::reconcile_child_keeps(
        a,
        parent,
        Some(existing),
        v,
        owner,
        depth,
        ids,
        n,
        Set::empty(),
        kept,
        was,
    );
    slot_child(a, b, parent, Some(existing), kid, v, n, kept, was, ids);
    let held = b.kids(parent);
    assert(b.kind(parent) is Async);
    assert(shape::linked(b) && held.no_duplicates() && old.no_duplicates()) by {
        reveal(shape::good);
        assert(b.kids(parent).no_duplicates() && a.kids(parent).no_duplicates());
    }
    assert(guard::worn(a, kept, old[0], held[0]) && guard::worn(a, kept, old[1], held[1]));
    assert(held.len() == 2 && old.len() == 2);
    if kid == existing {
        assert(!shape::adrift(b, kid));
        assert(held.contains(kid));
        let j = choose|j: int| 0 <= j < held.len() && held[j] == kid;
        assert(old[j] == kid && old[at] == kid);
        assert(j == at);
    }
    assert(model::async_slot(b, parent, !first) == Some(held[1 - at]));
    assert(held.contains(held[1 - at]));
    assert(held[1 - at] != kid);
    reconciling::slotted(b, parent, first, kid, was, ids);
    let kind = model::with_kid(b.kind(parent), at, kid);
    placing::with_kid_kids(b.kind(parent), at, kid);
    assert(kind.kids()[at] == kid);
    settled_list(b, t, parent, kind.kids(), was, ids);
    written(a, b, t, parent, Some(existing), kid, kind.kids(), v, n, was, ids);
    kid
}

/// Claiming stores changes what is claimed alone.
pub proof fn claim_stores_aside(s: Tx, list: Seq<NodeId>, i: int)
    ensures
        s.claim_stores(list, i) == (Tx { claimed: s.claim_stores(list, i).claimed, ..s }),
    decreases list.len() - i,
{
    if 0 <= i < list.len() {
        if s.live(list[i]) {
            match s.kind(list[i]) {
                Kind::Store { id: path, .. } => {
                    claim_stores_aside(s.claim(path), list, i + 1);
                },
                _ => {
                    claim_stores_aside(s, list, i + 1);
                },
            }
        } else {
            claim_stores_aside(s, list, i + 1);
        }
    }
}

/// What holds of a state holds of one that differs in the record alone.
pub proof fn steady_alike(s: Tx, t: Tx, was: Map<NodeId, Entry>, ids: Seq<NodeId>)
    requires
        steady(s, was, ids),
        upkeep::alike(s, t),
    ensures
        steady(t, was, ids),
{
    assert(shape::good(t, was, ids)) by {
        reveal(shape::good);
        upkeep::alike_keeps(s, t, was, ids);
    }
    assert forall|x: NodeId| !#[trigger] shape::adrift(t, x) by {
        assert(!shape::adrift(s, x));
    }
}

/// Inserting one array element.
pub proof fn array_add_keeps(
    s: Tx,
    parent: NodeId,
    index: int,
    v: Json,
    owner: Path,
    depth: nat,
    ids: Seq<NodeId>,
    n: nat,
    was: Map<NodeId, Entry>,
) -> (kid: NodeId)
    requires
        steady(s, was, ids),
        s.live(parent),
        s.kind(parent) is Array,
        0 <= index <= s.kids(parent).len(),
        depth >= 1,
        shape::climbs(s.nodes, parent, (depth - 1) as nat),
        v.well_formed(),
        value::nesting(v) < n,
        model::array_add(s, parent, index, v, owner, depth, ids).1 is Ok,
        model::array_add(s, parent, index, v, owner, depth, ids).0.allocated.len() <= ids.len(),
    ensures
        ({
            let t = model::array_add(s, parent, index, v, owner, depth, ids).0;
            let a = s.claim_stores(s.kids(parent), 0);
            &&& steady(a, was, ids)
            &&& a.nodes == s.nodes
            &&& wrote(a, t, parent, kid, v, n, was, ids)
            &&& t.kind(parent) is Array
            &&& t.kids(parent).len() == s.kids(parent).len() + 1
            &&& t.kids(parent)[index] == kid
        }),
{
    let old = s.kids(parent);
    let a = s.claim_stores(old, 0);
    claim_stores_aside(s, old, 0);
    steady_alike(s, a, was, ids);
    slot_ready(a, parent, None, depth, was, ids);
    let (b, child) = model::reconcile_child(a, parent, None, v, owner, depth, ids);
    let kid = child->Ok_0;
    let kept = guard::spine(a, parent);
    let t = model::array_add(s, parent, index, v, owner, depth, ids).0;
    let held = b.kids(parent);
    let at = if index <= held.len() {
        index
    } else {
        held.len() as int
    };
    let new = held.insert(at, kid);
    growth::install_array_makes_none(b, parent, old, new);
    reconciling::reconcile_child_keeps(
        a,
        parent,
        None,
        v,
        owner,
        depth,
        ids,
        n,
        Set::empty(),
        kept,
        was,
    );
    slot_child(a, b, parent, None, kid, v, n, kept, was, ids);
    assert(b.kind(parent) is Array && held.len() == old.len());
    assert(shape::linked(b) && held.no_duplicates()) by {
        reveal(shape::good);
        assert(b.kids(parent).no_duplicates());
    }
    assert(!held.contains(kid));
    assert(new[at] == kid);
    assert(upkeep::suits(b, parent, Kind::Array(new))) by {
        assert forall|c: NodeId| #[trigger] Kind::Array(new).kids().contains(c) implies b.parent_of(
            c,
        ) == Some(parent) by {
            let j = choose|j: int| 0 <= j < new.len() && new[j] == c;
            if j != at {
                let k = if j < at {
                    j
                } else {
                    j - 1
                };
                assert(held[k] == c);
                assert(b.kids(parent).contains(c));
            }
        }
        assert forall|i: int, j: int|
            0 <= i < new.len() && 0 <= j < new.len() && i != j implies new[i] != new[j] by {
            let x = if i < at {
                i
            } else {
                i - 1
            };
            let y = if j < at {
                j
            } else {
                j - 1
            };
            if i != at && j != at {
                assert(held[x] != held[y]);
            } else if i == at {
                assert(held.contains(held[y]));
            } else {
                assert(held.contains(held[x]));
            }
        }
    }
    assert forall|x: NodeId| #[trigger] shape::adrift(b, x) implies new.contains(x) by {}
    relisted_array(b, parent, old, new, was, ids);
    written(a, b, t, parent, None, kid, new, v, n, was, ids);
    kid
}

/// Removing one array element.
pub proof fn remove_index_keeps(
    s: Tx,
    parent: NodeId,
    at: int,
    was: Map<NodeId, Entry>,
    ids: Seq<NodeId>,
)
    requires
        steady(s, was, ids),
        s.live(parent),
        s.kind(parent) is Array,
        0 <= at < s.kids(parent).len(),
    ensures
        ({
            let items = s.kids(parent);
            let t = model::install_array(s, parent, items, items.remove(at));
            &&& steady(t, was, ids)
            &&& placing::relisted(s, t, parent, items.remove(at))
            &&& t.kind(parent) == Kind::Array(items.remove(at))
        }),
{
    let items = s.kids(parent);
    let new = items.remove(at);
    assert(shape::linked(s) && items.no_duplicates()) by {
        reveal(shape::good);
        assert(s.kids(parent).no_duplicates());
    }
    assert(upkeep::suits(s, parent, Kind::Array(new))) by {
        assert forall|c: NodeId| #[trigger] Kind::Array(new).kids().contains(c) implies s.parent_of(
            c,
        ) == Some(parent) by {
            let j = choose|j: int| 0 <= j < new.len() && new[j] == c;
            let k = if j < at {
                j
            } else {
                j + 1
            };
            assert(items[k] == c);
            assert(s.kids(parent).contains(c));
        }
        assert forall|i: int, j: int|
            0 <= i < new.len() && 0 <= j < new.len() && i != j implies new[i] != new[j] by {
            let x = if i < at {
                i
            } else {
                i + 1
            };
            let y = if j < at {
                j
            } else {
                j + 1
            };
            assert(items[x] != items[y]);
        }
    }
    relisted_array(s, parent, items, new, was, ids);
}

/// Removing one key.
pub proof fn remove_key_keeps(
    s: Tx,
    parent: NodeId,
    key: Chars,
    path: Chars,
    was: Map<NodeId, Entry>,
    ids: Seq<NodeId>,
)
    requires
        steady(s, was, ids),
        s.live(parent),
        s.fields(parent) is Some,
        keyed::has_key(s.links(parent), key),
    ensures
        ({
            let fields = s.links(parent);
            let t = model::remove_field(s, parent, fields, key, path).0;
            &&& steady(t, was, ids)
            &&& placing::relisted(
                s,
                t,
                parent,
                keyed::items_of(keyed::without(fields, key)),
            )
            &&& t.kind(parent) == s.kind(parent).with_fields(keyed::without(fields, key))
        }),
{
    let fields = s.links(parent);
    let new = keyed::without(fields, key);
    let kind = s.kind(parent).with_fields(new);
    let at = keyed::key_index(fields, key) as int;
    let child = fields[at].1;
    let kids = s.kids(parent);
    assert(kids == keyed::items_of(fields));
    assert(keyed::sorted(fields) && shape::linked(s) && kids.no_duplicates()) by {
        reveal(shape::good);
        assert(s.live(parent));
        assert(s.kids(parent).no_duplicates());
    }
    keyed::without_sorted(fields, key);
    with_fields_kids(s.kind(parent), new);
    assert(keyed::items_of(new) =~= kids.remove(at));
    assert(kids[at] == child);
    assert(kids.contains(child));
    assert(upkeep::suits(s, parent, kind)) by {
        assert forall|c: NodeId| #[trigger] kind.kids().contains(c) implies s.parent_of(c) == Some(
            parent,
        ) by {
            let j = choose|j: int| 0 <= j < kind.kids().len() && kind.kids()[j] == c;
            let k = if j < at {
                j
            } else {
                j + 1
            };
            assert(kids[k] == c);
            assert(s.kids(parent).contains(c));
        }
        assert forall|i: int, j: int|
            0 <= i < kind.kids().len() && 0 <= j < kind.kids().len() && i
                != j implies kind.kids()[i] != kind.kids()[j] by {
            let x = if i < at {
                i
            } else {
                i + 1
            };
            let y = if j < at {
                j
            } else {
                j + 1
            };
            assert(kids[x] != kids[y]);
        }
    }
    assert forall|c: NodeId| #[trigger] s.kids(parent).contains(c) implies kind.kids().contains(c)
        || Some(child) == Some(c) by {
        let j = choose|j: int| 0 <= j < kids.len() && kids[j] == c;
        if j < at {
            assert(kind.kids()[j] == c);
        } else if j > at {
            assert(kind.kids()[j - 1] == c);
        }
    }
    if kind.kids().contains(child) {
        let j = choose|j: int| 0 <= j < kind.kids().len() && kind.kids()[j] == child;
        let k = if j < at {
            j
        } else {
            j + 1
        };
        assert(kids[k] != kids[at]);
    }
    reseated(s, parent, kind, Some(child), was, ids);
    let d = s.touch_dirty(parent);
    assert(d.kind(parent) == s.kind(parent) && d.parent_of(child) == Some(parent)) by {
        upkeep::touched_dirty(s, parent, was, ids);
        assert(s.parent_of(child) == Some(parent));
    }
    assert(model::remove_field(s, parent, fields, key, path).0 == regiven(
        s,
        parent,
        kind,
        Some(child),
    ));
}

/// Writing an async status.
pub proof fn status_keeps(
    s: Tx,
    id: NodeId,
    v: Json,
    path: Chars,
    was: Map<NodeId, Entry>,
    ids: Seq<NodeId>,
)
    requires
        steady(s, was, ids),
        s.live(id),
        s.kind(id) is Async,
        model::set_async_status(s, id, v, path).1 is Ok,
    ensures
        steady(model::set_async_status(s, id, v, path).0, was, ids),
{
    let new = AsyncStatus::wire_meaning(v->Text_0)->0;
    let t = model::put_status(s, id, new);
    reconciling::status_put(s, id, new, was, ids);
    assert forall|x: NodeId| !#[trigger] shape::adrift(t, x) by {
        if shape::adrift(t, x) {
            assert(placing::adrift_still(s, t, x));
        }
    }
}

// ------------------------------------------------------------------ the way down

/// A child that a token names is a child.
pub proof fn step_child(s: Tx, id: NodeId, token: Chars, path: Chars)
    requires
        model::step_to(s, id, token, path) is Ok,
    ensures
        s.live(id),
        s.kids(id).contains(model::step_to(s, id, token, path)->Ok_0),
{
    let child = model::step_to(s, id, token, path)->Ok_0;
    match s.kind(id) {
        Kind::Object(fields) => {
            keyed::key_index_meaning(fields, token);
            assert(s.kids(id)[keyed::key_index(fields, token) as int] == child);
        },
        Kind::Store { fields, .. } => {
            keyed::key_index_meaning(fields, token);
            assert(s.kids(id)[keyed::key_index(fields, token) as int] == child);
        },
        Kind::Array(items) => {
            let at = pointer::index_meaning(token)->0->At_0;
            assert(s.kids(id)[at as int] == child);
        },
        Kind::Async { result, reason, .. } => {
            assert(s.kids(id)[0] == result && s.kids(id)[1] == reason);
        },
        _ => {},
    }
}

/// What a walk lands on, and how deep.
pub proof fn walk_lands(s: Tx, id: NodeId, tokens: Seq<Chars>, path: Chars, d: nat)
    requires
        shape::linked(s),
        shape::bounded(s.nodes),
        shape::climbs(s.nodes, id, d),
        model::walk_from(s, id, tokens, path) is Ok,
    ensures
        s.live(model::walk_from(s, id, tokens, path)->Ok_0),
        shape::climbs(s.nodes, model::walk_from(s, id, tokens, path)->Ok_0, d + tokens.len()),
        s.is_ancestor(id, model::walk_from(s, id, tokens, path)->Ok_0),
        tokens.len() > 0 ==> id != model::walk_from(s, id, tokens, path)->Ok_0,
        s.depth(model::walk_from(s, id, tokens, path)->Ok_0) == s.depth(id) + tokens.len(),
    decreases tokens.len(),
{
    if tokens.len() > 0 {
        let next = model::step_to(s, id, tokens[0], path)->Ok_0;
        step_child(s, id, tokens[0], path);
        assert(s.parent_of(next) == Some(id));
        assert(shape::climbs(s.nodes, next, d + 1));
        walk_lands(s, next, tokens.drop_first(), path, d + 1);
        shape::depth_step(s, next);
        let end = model::walk_from(s, id, tokens, path)->Ok_0;
        guard::met_with_parent(s, next, id, Some(end), MAX_WALK as nat);
    }
}

/// Whether the steps above `parent` lead where they led.
pub open spec fn steps_kept(s: Tx, t: Tx, parent: NodeId, path: Chars) -> bool {
    forall|x: NodeId, token: Chars, y: NodeId|
        #![trigger model::step_to(t, x, token, path), guard::spine(s, parent).contains(y)]
        guard::spine(s, parent).contains(x) && x != parent && guard::spine(s, parent).contains(y)
            && model::step_to(s, x, token, path) == Ok::<NodeId, crate::state::error::Fault>(y)
            ==> model::step_to(t, x, token, path) == Ok::<NodeId, crate::state::error::Fault>(y)
}

/// A walk down to `parent` leads there still.
pub proof fn walk_kept(s: Tx, t: Tx, id: NodeId, tokens: Seq<Chars>, path: Chars, d: nat)
    requires
        shape::linked(s),
        shape::bounded(s.nodes),
        shape::climbs(s.nodes, id, d),
        model::walk_from(s, id, tokens, path) is Ok,
        steps_kept(s, t, model::walk_from(s, id, tokens, path)->Ok_0, path),
    ensures
        model::walk_from(t, id, tokens, path) == model::walk_from(s, id, tokens, path),
    decreases tokens.len(),
{
    if tokens.len() > 0 {
        let parent = model::walk_from(s, id, tokens, path)->Ok_0;
        walk_lands(s, id, tokens, path, d);
        let next = model::step_to(s, id, tokens[0], path)->Ok_0;
        step_child(s, id, tokens[0], path);
        assert(s.parent_of(next) == Some(id));
        assert(shape::climbs(s.nodes, next, d + 1));
        walk_lands(s, next, tokens.drop_first(), path, d + 1);
        assert(guard::spine(s, parent).contains(id));
        assert(guard::spine(s, parent).contains(next));
        assert(model::step_to(t, id, tokens[0], path) == model::step_to(s, id, tokens[0], path));
        walk_kept(s, t, next, tokens.drop_first(), path, d + 1);
    }
}

/// A step leads where it led, where its end is guarded.
proof fn step_eroded(s: Tx, t: Tx, kept: Set<NodeId>, x: NodeId, token: Chars, path: Chars)
    requires
        s.live(x),
        t.live(x),
        guard::eroded(s, kept, s.kind(x), t.kind(x)),
        model::step_to(s, x, token, path) is Ok,
        kept.contains(model::step_to(s, x, token, path)->Ok_0),
    ensures
        model::step_to(t, x, token, path) == model::step_to(s, x, token, path),
{
    match (s.kind(x), t.kind(x)) {
        (Kind::Object(a), Kind::Object(b)) => {
            worn_lookup(s, kept, a, b, token);
        },
        (Kind::Store { fields: a, .. }, Kind::Store { fields: b, .. }) => {
            worn_lookup(s, kept, a, b, token);
        },
        (Kind::Array(a), Kind::Array(b)) => {
            let at = pointer::index_meaning(token)->0->At_0 as int;
            assert(guard::worn(s, kept, a[at], b[at]));
        },
        _ => {},
    }
}

proof fn worn_lookup(
    s: Tx,
    kept: Set<NodeId>,
    a: Seq<(Chars, NodeId)>,
    b: Seq<(Chars, NodeId)>,
    key: Chars,
)
    requires
        guard::worn_links(s, kept, a, b),
        keyed::lookup(a, key) matches Some(x) && kept.contains(x),
    ensures
        keyed::lookup(b, key) == keyed::lookup(a, key),
{
    keyed::key_index_meaning(a, key);
    let at = keyed::key_index(a, key) as int;
    assert forall|j: int| 0 <= j < at implies (#[trigger] b[j]).0 != key by {
        assert(a[j].0 != key);
    }
    assert(b[at].0 == a[at].0);
    keyed::key_index_is(b, key, at);
}

/// A step leads where it led, where its end is not one of two that exchanged
/// places.
proof fn step_swapped(s: Tx, t: Tx, x: NodeId, token: Chars, path: Chars, id: NodeId, copy: NodeId)
    requires
        s.live(x),
        t.live(x),
        t.kind(x) == model::swap_kids(s.kind(x), id, copy),
        model::step_to(s, x, token, path) is Ok,
        model::step_to(s, x, token, path)->Ok_0 != id,
        model::step_to(s, x, token, path)->Ok_0 != copy,
    ensures
        model::step_to(t, x, token, path) == model::step_to(s, x, token, path),
{
    match s.kind(x) {
        Kind::Object(a) => {
            swap_links_lookup(a, token, id, copy);
        },
        Kind::Store { fields: a, .. } => {
            swap_links_lookup(a, token, id, copy);
        },
        _ => {},
    }
}

/// Writing into a slot leaves the way down to its parent as it was.
pub proof fn steps_after(
    s: Tx,
    a: Tx,
    t: Tx,
    parent: NodeId,
    id: NodeId,
    held: NodeId,
    path: Chars,
    was: Map<NodeId, Entry>,
    ids: Seq<NodeId>,
)
    requires
        steady(s, was, ids),
        s.live(parent),
        s.parent_of(id) == Some(parent),
        yielded(s, a, id, held),
        above_kept(a, t, parent),
    ensures
        steps_kept(s, t, parent, path),
{
    let kept = guard::spine(s, parent);
    assert(shape::bounded(s.nodes)) by {
        reveal(shape::good);
    }
    child_below(s, parent, id);
    if held == id {
        assert(a == s);
        steps_above(s, t, parent, path, was, ids);
    } else {
        let copy = held;
        let m = exchanging::exchanged_nodes(s, id, copy);
        exchanging::exchanged_places(s, id, copy, was, ids);
        assert(!kept.contains(id));
        assert(!kept.contains(copy)) by {
            if s.is_ancestor(copy, parent) {
                guard::met_sooner(s, copy, Some(parent), MAX_WALK as nat);
                assert(s.is_ancestor(copy, id));
            }
        }
        guard::guards_spine(s, parent);
        assert forall|x: NodeId| #[trigger] kept.contains(x) implies a.live(x) && a.parent_of(x)
            == s.parent_of(x) && (s.parent_of(x) matches Some(up) ==> kept.contains(up)) by {
            reveal(guard::guards);
            assert(m.live(x) == s.live(x));
            assert(m.parent_of(x) == exchanging::swap_parent(
                s.parent_of(model::swapped(x, id, copy)),
                id,
                copy,
            ));
            if let Some(up) = s.parent_of(x) {
                assert(kept.contains(up));
            }
        }
        assert forall|x: NodeId, token: Chars, y: NodeId|
            #![trigger model::step_to(t, x, token, path), guard::spine(s, parent).contains(y)]
            kept.contains(x) && x != parent && kept.contains(y) && model::step_to(
                s,
                x,
                token,
                path,
            ) == Ok::<NodeId, crate::state::error::Fault>(y) implies model::step_to(
            t,
            x,
            token,
            path,
        ) == Ok::<NodeId, crate::state::error::Fault>(y) by {
            let other = s.parent_of(copy)->0;
            if x == other {
                step_swapped(s, a, x, token, path, id, copy);
            } else {
                assert(a.kind(x) == s.kind(x));
            }
            assert(a.live(x) && a.live(y));
            guard::met_kept(s, a, kept, x, parent, MAX_WALK as nat);
            guard::met_kept(s, a, kept, y, parent, MAX_WALK as nat);
            assert(guard::spine(a, parent).contains(x) && guard::spine(a, parent).contains(y));
            step_eroded(a, t, guard::spine(a, parent), x, token, path);
        }
    }
}

/// Writing into a slot that gives up nothing leaves the way down to its parent
/// as it was.
pub proof fn steps_above(
    s: Tx,
    t: Tx,
    parent: NodeId,
    path: Chars,
    was: Map<NodeId, Entry>,
    ids: Seq<NodeId>,
)
    requires
        above_kept(s, t, parent),
    ensures
        steps_kept(s, t, parent, path),
{
    let kept = guard::spine(s, parent);
    assert forall|x: NodeId, token: Chars, y: NodeId|
        #![trigger model::step_to(t, x, token, path), guard::spine(s, parent).contains(y)]
        kept.contains(x) && x != parent && kept.contains(y) && model::step_to(s, x, token, path)
            == Ok::<NodeId, crate::state::error::Fault>(y) implies model::step_to(
        t,
        x,
        token,
        path,
    ) == Ok::<NodeId, crate::state::error::Fault>(y) by {
        step_eroded(s, t, kept, x, token, path);
    }
}

// --------------------------------------------------------------------- the ops

/// A walk is a walk to the last node but one, and a step.
pub proof fn walk_last(s: Tx, id: NodeId, tokens: Seq<Chars>, path: Chars)
    requires
        tokens.len() > 0,
    ensures
        model::walk_from(s, id, tokens, path) == (match model::walk_from(
            s,
            id,
            tokens.drop_last(),
            path,
        ) {
            Ok(parent) => model::step_to(s, parent, tokens.last(), path),
            Err(fault) => Err(fault),
        }),
    decreases tokens.len(),
{
    reveal_with_fuel(model::walk_from, 2);
    if tokens.len() == 1 {
        assert(tokens.drop_last() =~= Seq::<Chars>::empty());
        assert(tokens.drop_first() =~= Seq::<Chars>::empty());
    } else {
        assert(tokens.drop_last()[0] == tokens[0]);
        assert(tokens.drop_last().drop_first() =~= tokens.drop_first().drop_last());
        assert(tokens.drop_first().last() == tokens.last());
        if let Ok(next) = model::step_to(s, id, tokens[0], path) {
            walk_last(s, next, tokens.drop_first(), path);
        }
    }
}

/// Whether a pointer leads to a node that shows a document.
pub open spec fn reads(t: Tx, tokens: Seq<Chars>, path: Chars, v: Json, n: nat) -> bool {
    model::walk(t, tokens, path) is Ok && guard::shows(
        t,
        model::walk(t, tokens, path)->Ok_0,
        v,
        n,
    )
}

/// The walk to a parent.
pub proof fn walk_ready(
    s: Tx,
    tokens: Seq<Chars>,
    path: Chars,
    was: Map<NodeId, Entry>,
    ids: Seq<NodeId>,
)
    requires
        steady(s, was, ids),
        model::walk(s, tokens, path) is Ok,
    ensures
        shape::linked(s),
        shape::bounded(s.nodes),
        s.live(model::walk(s, tokens, path)->Ok_0),
        shape::climbs(s.nodes, s.root, 0),
        shape::climbs(s.nodes, model::walk(s, tokens, path)->Ok_0, tokens.len()),
        model::deeper(tokens.len()) >= 1,
        shape::climbs(
            s.nodes,
            model::walk(s, tokens, path)->Ok_0,
            (model::deeper(tokens.len()) - 1) as nat,
        ),
{
    assert(shape::linked(s) && shape::bounded(s.nodes) && shape::rooted(s)) by {
        reveal(shape::good);
    }
    walk_lands(s, s.root, tokens, path, 0);
    reconciling::one_deeper(s, model::walk(s, tokens, path)->Ok_0, tokens.len());
}

/// Writing one value into a slot that holds something.
pub proof fn write_slot_keeps(
    s: Tx,
    parent: NodeId,
    key: Chars,
    v: Json,
    depth: nat,
    path: Chars,
    ids: Seq<NodeId>,
    n: nat,
    was: Map<NodeId, Entry>,
)
    requires
        steady(s, was, ids),
        s.live(parent),
        model::deeper(depth) >= 1,
        shape::climbs(s.nodes, parent, (model::deeper(depth) - 1) as nat),
        v.well_formed(),
        value::nesting(v) < n,
        model::write_slot(s, parent, key, v, depth, path, ids).1 is Ok,
        model::write_slot(s, parent, key, v, depth, path, ids).0.allocated.len() <= ids.len(),
    ensures
        ({
            let t = model::write_slot(s, parent, key, v, depth, path, ids).0;
            &&& steady(t, was, ids)
            &&& t.root == s.root
            &&& steps_kept(s, t, parent, path)
            &&& model::step_to(t, parent, key, path) is Ok
            &&& guard::shows(t, model::step_to(t, parent, key, path)->Ok_0, v, n)
        }),
{
    let owner = s.owner_of(parent);
    let deep = model::deeper(depth);
    let t = model::write_slot(s, parent, key, v, depth, path, ids).0;
    match s.kind(parent) {
        Kind::Object(_) => {
            field_written(s, parent, key, v, owner, deep, path, ids, n, was);
        },
        Kind::Store { .. } => {
            field_written(s, parent, key, v, owner, deep, path, ids, n, was);
        },
        Kind::Array(items) => {
            let at = pointer::index_meaning(key)->0->At_0 as int;
            let kid = put_index_keeps(s, parent, at, v, owner, deep, ids, n, was);
            let id = s.kids(parent)[at];
            identity_yielded(s, id, v, was, ids);
            let (a, held) = s.yield_identity(id, v);
            steps_after(s, a, t, parent, id, held, path, was, ids);
        },
        Kind::Async { .. } => {
            let first = key == marker::ASYNC_RESULT_KEY@;
            let kid = put_async_keeps(s, parent, first, v, owner, deep, ids, n, was);
            let id = model::async_slot(s, parent, first)->0;
            identity_yielded(s, id, v, was, ids);
            let (a, held) = s.yield_identity(id, v);
            steps_after(s, a, t, parent, id, held, path, was, ids);
        },
        _ => {},
    }
}

/// Writing one field leaves the way down, and the field reads back.
pub proof fn field_written(
    s: Tx,
    parent: NodeId,
    key: Chars,
    v: Json,
    owner: Path,
    depth: nat,
    path: Chars,
    ids: Seq<NodeId>,
    n: nat,
    was: Map<NodeId, Entry>,
)
    requires
        steady(s, was, ids),
        s.live(parent),
        s.fields(parent) is Some,
        depth >= 1,
        shape::climbs(s.nodes, parent, (depth - 1) as nat),
        v.well_formed(),
        value::nesting(v) < n,
        model::put_field(s, parent, key, v, owner, depth, ids).1 is Ok,
        model::put_field(s, parent, key, v, owner, depth, ids).0.allocated.len() <= ids.len(),
    ensures
        ({
            let t = model::put_field(s, parent, key, v, owner, depth, ids).0;
            &&& steady(t, was, ids)
            &&& t.root == s.root
            &&& steps_kept(s, t, parent, path)
            &&& model::step_to(t, parent, key, path) is Ok
            &&& guard::shows(t, model::step_to(t, parent, key, path)->Ok_0, v, n)
            &&& model::step_to(t, parent, key, path) == model::reconcile_child(
                before_field(s, parent, key, v),
                parent,
                held_field(s, parent, key, v),
                v,
                owner,
                depth,
                ids,
            ).1
            &&& t.fields(parent) is Some
            &&& keyed::lookup(t.links(parent), key) == Some(
                model::step_to(t, parent, key, path)->Ok_0,
            )
        }),
{
    let t = model::put_field(s, parent, key, v, owner, depth, ids).0;
    let kid = put_field_keeps(s, parent, key, v, owner, depth, ids, n, was);
    let a = before_field(s, parent, key, v);
    match keyed::lookup(s.links(parent), key) {
        Some(id) => {
            identity_yielded(s, id, v, was, ids);
            steps_after(s, a, t, parent, id, s.yield_identity(id, v).1, path, was, ids);
        },
        None => {
            steps_above(s, t, parent, path, was, ids);
        },
    }
    assert(model::step_to(t, parent, key, path) == Ok::<NodeId, crate::state::error::Fault>(kid));
}

/// What was written below a parent reads back through the whole pointer.
proof fn reads_through(
    s: Tx,
    t: Tx,
    tokens: Seq<Chars>,
    path: Chars,
    v: Json,
    n: nat,
    was: Map<NodeId, Entry>,
    ids: Seq<NodeId>,
)
    requires
        steady(s, was, ids),
        tokens.len() > 0,
        model::walk(s, tokens.drop_last(), path) is Ok,
        t.root == s.root,
        steps_kept(s, t, model::walk(s, tokens.drop_last(), path)->Ok_0, path),
        model::step_to(
            t,
            model::walk(s, tokens.drop_last(), path)->Ok_0,
            tokens.last(),
            path,
        ) is Ok,
        guard::shows(
            t,
            model::step_to(
                t,
                model::walk(s, tokens.drop_last(), path)->Ok_0,
                tokens.last(),
                path,
            )->Ok_0,
            v,
            n,
        ),
    ensures
        reads(t, tokens, path, v, n),
{
    walk_ready(s, tokens.drop_last(), path, was, ids);
    walk_kept(s, t, s.root, tokens.drop_last(), path, 0);
    walk_last(t, t.root, tokens, path);
}

/// Rewriting the root.
pub proof fn root_written(
    s: Tx,
    v: Json,
    ids: Seq<NodeId>,
    n: nat,
    was: Map<NodeId, Entry>,
)
    requires
        steady(s, was, ids),
        v.well_formed(),
        value::nesting(v) < n,
        model::reconcile(s, s.root, v, Seq::empty(), 0, ids).1 is Ok,
        model::reconcile(s, s.root, v, Seq::empty(), 0, ids).0.allocated.len() <= ids.len(),
    ensures
        ({
            let t = model::reconcile(s, s.root, v, Seq::empty(), 0, ids).0;
            &&& steady(t, was, ids)
            &&& t.root == s.root
            &&& guard::shows(t, t.root, v, n)
        }),
{
    let none = Set::<NodeId>::empty();
    let t = model::reconcile(s, s.root, v, Seq::empty(), 0, ids).0;
    assert(shape::rooted(s)) by {
        reveal(shape::good);
    }
    guard::guards_root(s, s.root);
    assert(placing::moored(s, none.insert(s.root), none)) by {
        assert forall|x: NodeId| #[trigger] shape::adrift(s, x) implies none.insert(
            s.root,
        ).contains(x) by {
            assert(!shape::adrift(s, x));
        }
    }
    reconciling::reconcile_keeps(s, s.root, v, Seq::empty(), 0, ids, n, none, none, was);
    assert(t.root == s.root) by {
        reveal(guard::keeps);
    }
    assert forall|x: NodeId| !#[trigger] shape::adrift(t, x) by {
        if shape::adrift(t, x) {
            assert(placing::adrift_still(s, t, x));
        }
    }
}

/// Whether an op writes an async node's status.
pub open spec fn is_status(s: Tx, tokens: Seq<Chars>, path: Chars) -> bool {
    tokens.len() > 0 && model::walk(s, tokens.drop_last(), path) is Ok && tokens.last()
        == marker::ASYNC_STATUS_KEY@ && model::is_async(
        s,
        model::walk(s, tokens.drop_last(), path)->Ok_0,
    )
}

/// `replace`.
pub proof fn replace_keeps(
    s: Tx,
    tokens: Seq<Chars>,
    v: Json,
    path: Chars,
    ids: Seq<NodeId>,
    n: nat,
    was: Map<NodeId, Entry>,
)
    requires
        steady(s, was, ids),
        v.well_formed(),
        value::nesting(v) < n,
        model::replace(s, tokens, v, path, ids).1 is Ok,
        model::replace(s, tokens, v, path, ids).0.allocated.len() <= ids.len(),
    ensures
        steady(model::replace(s, tokens, v, path, ids).0, was, ids),
        model::replace(s, tokens, v, path, ids).0.root == s.root,
        !is_status(s, tokens, path) ==> reads(
            model::replace(s, tokens, v, path, ids).0,
            tokens,
            path,
            v,
            n,
        ),
        is_status(s, tokens, path) ==> status_reads(
            model::replace(s, tokens, v, path, ids).0,
            tokens.drop_last(),
            path,
            v,
        ),
{
    let t = model::replace(s, tokens, v, path, ids).0;
    if tokens.len() == 0 {
        root_written(s, v, ids, n, was);
    } else {
        let parent = model::walk(s, tokens.drop_last(), path)->Ok_0;
        walk_ready(s, tokens.drop_last(), path, was, ids);
        if is_status(s, tokens, path) {
            status_written(s, tokens.drop_last(), v, path, was, ids);
        } else {
            let depth = (tokens.len() - 1) as nat;
            write_slot_keeps(s, parent, tokens.last(), v, depth, path, ids, n, was);
            reads_through(s, t, tokens, path, v, n, was, ids);
        }
    }
}

/// Whether a pointer leads to an async node with a status.
pub open spec fn status_reads(t: Tx, tokens: Seq<Chars>, path: Chars, v: Json) -> bool {
    &&& model::walk(t, tokens, path) is Ok
    &&& v is Text
    &&& t.live(model::walk(t, tokens, path)->Ok_0)
    &&& t.kind(model::walk(t, tokens, path)->Ok_0) matches Kind::Async { status, .. }
        && AsyncStatus::wire_meaning(v->Text_0) == Some(status)
}

/// What a pointer leads to, it leads to still where one node was given another
/// list of children.
proof fn relisted_walk(s: Tx, t: Tx, tokens: Seq<Chars>, path: Chars, kids: Seq<NodeId>)
    requires
        shape::linked(s),
        shape::bounded(s.nodes),
        shape::climbs(s.nodes, s.root, 0),
        model::walk(s, tokens, path) is Ok,
        placing::relisted(s, t, model::walk(s, tokens, path)->Ok_0, kids),
    ensures
        model::walk(t, tokens, path) == model::walk(s, tokens, path),
{
    let parent = model::walk(s, tokens, path)->Ok_0;
    assert forall|x: NodeId, token: Chars, y: NodeId|
        #![trigger model::step_to(t, x, token, path), guard::spine(s, parent).contains(y)]
        guard::spine(s, parent).contains(x) && x != parent && guard::spine(s, parent).contains(y)
            && model::step_to(s, x, token, path) == Ok::<NodeId, crate::state::error::Fault>(
            y,
        ) implies model::step_to(t, x, token, path) == Ok::<NodeId, crate::state::error::Fault>(
        y,
    ) by {
        assert(s.live(x));
        assert(t.live(x) == s.live(x));
    }
    walk_kept(s, t, s.root, tokens, path, 0);
}

/// Writing an async node's status.
proof fn status_written(
    s: Tx,
    tokens: Seq<Chars>,
    v: Json,
    path: Chars,
    was: Map<NodeId, Entry>,
    ids: Seq<NodeId>,
)
    requires
        steady(s, was, ids),
        model::walk(s, tokens, path) is Ok,
        model::is_async(s, model::walk(s, tokens, path)->Ok_0),
        model::set_async_status(s, model::walk(s, tokens, path)->Ok_0, v, path).1 is Ok,
    ensures
        ({
            let t = model::set_async_status(s, model::walk(s, tokens, path)->Ok_0, v, path).0;
            &&& steady(t, was, ids)
            &&& t.root == s.root
            &&& status_reads(t, tokens, path, v)
        }),
{
    let parent = model::walk(s, tokens, path)->Ok_0;
    let t = model::set_async_status(s, parent, v, path).0;
    status_keeps(s, parent, v, path, was, ids);
    let new = AsyncStatus::wire_meaning(v->Text_0)->0;
    reconciling::status_put(s, parent, new, was, ids);
    walk_ready(s, tokens, path, was, ids);
    relisted_walk(s, t, tokens, path, s.kids(parent));
}

/// Whether an `add` appends to an array.
pub open spec fn appends(s: Tx, tokens: Seq<Chars>, path: Chars) -> bool {
    tokens.len() > 0 && model::walk(s, tokens.drop_last(), path) is Ok && s.kind(
        model::walk(s, tokens.drop_last(), path)->Ok_0,
    ) is Array && pointer::index_meaning(tokens.last()) == Some(ArrayIndex::End)
}

/// `add`.
pub proof fn add_keeps(
    s: Tx,
    tokens: Seq<Chars>,
    v: Json,
    path: Chars,
    ids: Seq<NodeId>,
    n: nat,
    was: Map<NodeId, Entry>,
)
    requires
        steady(s, was, ids),
        v.well_formed(),
        value::nesting(v) < n,
        model::add_op(s, tokens, v, path, ids).1 is Ok,
        model::add_op(s, tokens, v, path, ids).0.allocated.len() <= ids.len(),
    ensures
        steady(model::add_op(s, tokens, v, path, ids).0, was, ids),
        model::add_op(s, tokens, v, path, ids).0.root == s.root,
        !is_status(s, tokens, path) && !appends(s, tokens, path) ==> reads(
            model::add_op(s, tokens, v, path, ids).0,
            tokens,
            path,
            v,
            n,
        ),
        appends(s, tokens, path) ==> ({
            let t = model::add_op(s, tokens, v, path, ids).0;
            let parent = model::walk(s, tokens.drop_last(), path)->Ok_0;
            &&& model::walk(t, tokens.drop_last(), path) == Ok::<
                NodeId,
                crate::state::error::Fault,
            >(parent)
            &&& t.kids(parent).len() == s.kids(parent).len() + 1
            &&& guard::shows(t, t.kids(parent).last(), v, n)
        }),
        is_status(s, tokens, path) ==> status_reads(
            model::add_op(s, tokens, v, path, ids).0,
            tokens.drop_last(),
            path,
            v,
        ),
{
    let t = model::add_op(s, tokens, v, path, ids).0;
    if tokens.len() == 0 {
        replace_keeps(s, tokens, v, path, ids, n, was);
    } else {
        let front = tokens.drop_last();
        let key = tokens.last();
        let parent = model::walk(s, front, path)->Ok_0;
        let depth = model::deeper((tokens.len() - 1) as nat);
        walk_ready(s, front, path, was, ids);
        let owner = s.owner_of(parent);
        match s.kind(parent) {
            Kind::Object(_) => {
                field_written(s, parent, key, v, owner, depth, path, ids, n, was);
                reads_through(s, t, tokens, path, v, n, was, ids);
            },
            Kind::Store { .. } => {
                field_written(s, parent, key, v, owner, depth, path, ids, n, was);
                reads_through(s, t, tokens, path, v, n, was, ids);
            },
            Kind::Array(items) => {
                let at = match pointer::index_meaning(key)->0 {
                    ArrayIndex::End => items.len() as int,
                    ArrayIndex::At(i) => i as int,
                };
                let kid = array_add_keeps(s, parent, at, v, owner, depth, ids, n, was);
                let a = s.claim_stores(s.kids(parent), 0);
                claim_stores_aside(s, s.kids(parent), 0);
                steps_above(a, t, parent, path, was, ids);
                assert(steps_kept(s, t, parent, path)) by {
                    steps_alike(s, a, t, parent, path);
                }
                if appends(s, tokens, path) {
                    walk_kept(s, t, s.root, front, path, 0);
                } else {
                    reads_through(s, t, tokens, path, v, n, was, ids);
                }
            },
            Kind::Async { .. } => {
                assert(marker::ASYNC_STATUS_KEY@ != marker::ASYNC_RESULT_KEY@
                    && marker::ASYNC_STATUS_KEY@ != marker::ASYNC_REASON_KEY@) by {
                    reveal_strlit("status");
                    reveal_strlit("result");
                    reveal_strlit("reason");
                    assert(marker::ASYNC_STATUS_KEY@[0] == 's');
                }
                if key == marker::ASYNC_RESULT_KEY@ || key == marker::ASYNC_REASON_KEY@ {
                    let first = key == marker::ASYNC_RESULT_KEY@;
                    let kid = put_async_keeps(s, parent, first, v, owner, depth, ids, n, was);
                    let id = model::async_slot(s, parent, first)->0;
                    identity_yielded(s, id, v, was, ids);
                    let (a, held) = s.yield_identity(id, v);
                    steps_after(s, a, t, parent, id, held, path, was, ids);
                    reads_through(s, t, tokens, path, v, n, was, ids);
                } else {
                    status_written(s, front, v, path, was, ids);
                }
            },
            _ => {},
        }
    }
}

/// Steps are kept from a state with the same nodes.
proof fn steps_alike(s: Tx, a: Tx, t: Tx, parent: NodeId, path: Chars)
    requires
        a.nodes == s.nodes,
        steps_kept(a, t, parent, path),
    ensures
        steps_kept(s, t, parent, path),
{
    assert forall|x: NodeId, token: Chars, y: NodeId|
        #![trigger model::step_to(t, x, token, path), guard::spine(s, parent).contains(y)]
        guard::spine(s, parent).contains(x) && x != parent && guard::spine(s, parent).contains(y)
            && model::step_to(s, x, token, path) == Ok::<NodeId, crate::state::error::Fault>(
            y,
        ) implies model::step_to(t, x, token, path) == Ok::<NodeId, crate::state::error::Fault>(
        y,
    ) by {
        reconciling::met_same(s, a, x, Some(parent), MAX_WALK as nat);
        reconciling::met_same(s, a, y, Some(parent), MAX_WALK as nat);
        assert(guard::spine(a, parent).contains(x));
        assert(guard::spine(a, parent).contains(y));
        assert(model::step_to(a, x, token, path) == model::step_to(s, x, token, path));
    }
}

/// Whether what a pointer led to is gone: an object or a store has the key no
/// more, and an array has closed the gap.
pub open spec fn taken_out(s: Tx, t: Tx, tokens: Seq<Chars>, path: Chars) -> bool {
    let front = tokens.drop_last();
    let parent = model::walk(s, front, path)->Ok_0;
    &&& model::walk(t, front, path) == Ok::<NodeId, crate::state::error::Fault>(parent)
    &&& t.live(parent)
    &&& match s.kind(parent) {
        Kind::Array(items) => {
            &&& pointer::index_meaning(tokens.last()) matches Some(ArrayIndex::At(at))
                && at < items.len() && t.kind(parent) == Kind::Array(items.remove(at as int))
        },
        Kind::Object(fields) => t.kind(parent) == Kind::Object(
            keyed::without(fields, tokens.last()),
        ) && model::step_to(t, parent, tokens.last(), path) is Err,
        Kind::Store { id, fields } => t.kind(parent) == (Kind::Store {
            id,
            fields: keyed::without(fields, tokens.last()),
        }) && model::step_to(t, parent, tokens.last(), path) is Err,
        _ => false,
    }
}

/// `remove`.
pub proof fn remove_keeps(
    s: Tx,
    tokens: Seq<Chars>,
    path: Chars,
    was: Map<NodeId, Entry>,
    ids: Seq<NodeId>,
)
    requires
        steady(s, was, ids),
        model::remove_op(s, tokens, path).1 is Ok,
    ensures
        steady(model::remove_op(s, tokens, path).0, was, ids),
        model::remove_op(s, tokens, path).0.root == s.root,
        taken_out(s, model::remove_op(s, tokens, path).0, tokens, path),
{
    let t = model::remove_op(s, tokens, path).0;
    let front = tokens.drop_last();
    let parent = model::walk(s, front, path)->Ok_0;
    let key = tokens.last();
    walk_ready(s, front, path, was, ids);
    match s.kind(parent) {
        Kind::Array(items) => {
            let at = pointer::index_meaning(key)->0->At_0 as int;
            remove_index_keeps(s, parent, at, was, ids);
            relisted_walk(s, t, front, path, items.remove(at));
            assert(s.live(parent));
        },
        Kind::Object(fields) => {
            remove_key_keeps(s, parent, key, path, was, ids);
            relisted_walk(s, t, front, path, keyed::items_of(keyed::without(fields, key)));
            assert(keyed::sorted(fields)) by {
                reveal(shape::good);
                assert(shape::tidy(s.kind(parent)));
            }
            keyed::without_gone(fields, key);
        },
        Kind::Store { fields, .. } => {
            remove_key_keeps(s, parent, key, path, was, ids);
            relisted_walk(s, t, front, path, keyed::items_of(keyed::without(fields, key)));
            assert(keyed::sorted(fields)) by {
                reveal(shape::good);
                assert(shape::tidy(s.kind(parent)));
            }
            keyed::without_gone(fields, key);
        },
        _ => {},
    }
}

/// An op on the store marker.
pub proof fn marker_keeps(
    s: Tx,
    op: PatchOp,
    tokens: Seq<Chars>,
    at: int,
    path: Chars,
    ids: Seq<NodeId>,
    was: Map<NodeId, Entry>,
)
    requires
        steady(s, was, ids),
        0 <= at < tokens.len(),
        model::marker_op(s, op, tokens, at, path, ids).1 is Ok,
        model::marker_op(s, op, tokens, at, path, ids).0.allocated.len() <= ids.len(),
    ensures
        steady(model::marker_op(s, op, tokens, at, path, ids).0, was, ids),
        model::marker_op(s, op, tokens, at, path, ids).0.root == s.root,
{
    let prefix = tokens.take(at);
    let id = model::walk(s, prefix, path)->Ok_0;
    let segments = model::id_segments(s, id, path)->Ok_0;
    let mark = model::rewritten_marker(op, tokens.skip(at + 1), segments, path)->Ok_0;
    let was_doc = node::wire(model::subtree_value(s.nodes, id));
    let v = model::remarked(was_doc, mark, path)->Ok_0;
    assert(shape::tidied(s)) by {
        reveal(shape::good);
    }
    reading::wire_neat(s, id, MAX_WALK as nat);
    if let Some(m) = mark {
        assert(m.well_formed()) by {
            assert(marker::store_path(m) is Some || exists|p: Path| m == #[trigger]
                marker::path_json(p));
            if marker::store_path(m) is Some {
                reading::marker_normal(m);
                reading::path_neat(marker::store_path(m)->0);
            } else {
                let p = choose|p: Path| m == #[trigger] marker::path_json(p);
                reading::path_neat(p);
            }
        }
    }
    reading::remarked_neat(was_doc, mark, path);
    let n = value::nesting(v) + 1;
    if prefix.len() == 0 {
        root_written(s, v, ids, n, was);
    } else {
        let parent = model::walk(s, prefix.drop_last(), path)->Ok_0;
        walk_ready(s, prefix.drop_last(), path, was, ids);
        write_slot_keeps(
            s,
            parent,
            prefix.last(),
            v,
            (prefix.len() - 1) as nat,
            path,
            ids,
            n,
            was,
        );
    }
}

/// The document an op carries is of ordered keys.
pub open spec fn op_formed(op: PatchOp) -> bool {
    match op {
        PatchOp::Add { value, .. } => value@.well_formed(),
        PatchOp::Replace { value, .. } => value@.well_formed(),
        PatchOp::Remove { .. } => true,
    }
}

/// One patch op keeps everything.
pub proof fn patch_op_keeps(s: Tx, op: PatchOp, ids: Seq<NodeId>, was: Map<NodeId, Entry>)
    requires
        steady(s, was, ids),
        op_formed(op),
        model::apply_patch_op(s, op, ids).1 is Ok,
        model::apply_patch_op(s, op, ids).0.allocated.len() <= ids.len(),
    ensures
        steady(model::apply_patch_op(s, op, ids).0, was, ids),
        model::apply_patch_op(s, op, ids).0.root == s.root,
{
    let t = s.unclaim();
    steady_alike(s, t, was, ids);
    let path = op.path_text();
    let tokens = pointer::pointer_tokens(path)->0;
    if model::marker_index(tokens) < tokens.len() {
        marker_keeps(t, op, tokens, model::marker_index(tokens) as int, path, ids, was);
    } else {
        match op {
            PatchOp::Add { value, .. } => {
                add_keeps(t, tokens, value@, path, ids, value::nesting(value@) + 1, was);
            },
            PatchOp::Remove { .. } => {
                remove_keeps(t, tokens, path, was, ids);
            },
            PatchOp::Replace { value, .. } => {
                replace_keeps(t, tokens, value@, path, ids, value::nesting(value@) + 1, was);
            },
        }
    }
}

} // verus!
