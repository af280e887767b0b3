//! What a step leaves alone: the nodes that are placed, and those above the
//! place where it works.

use vstd::prelude::*;

use crate::state::marker;
use crate::state::marker::{Form, STORE_ID_KEY};
use crate::state::model::{Tx, MAX_WALK};
use crate::state::node::{Kind, NodeId};
use crate::state::shape;
use crate::state::text::Chars;
use crate::state::value::Json;

verus! {

/// Whether a child slot holds what it held, or a new node in place of one that
/// nothing guards.
pub open spec fn worn(s: Tx, kept: Set<NodeId>, old: NodeId, new: NodeId) -> bool {
    new == old || (!kept.contains(old) && !s.live(new))
}

/// Keyed slots, each with what it held or a new node.
pub open spec fn worn_links(
    s: Tx,
    kept: Set<NodeId>,
    old: Seq<(Chars, NodeId)>,
    new: Seq<(Chars, NodeId)>,
) -> bool {
    &&& new.len() == old.len()
    &&& forall|i: int|
        0 <= i < old.len() ==> (#[trigger] new[i]).0 == old[i].0 && worn(
            s,
            kept,
            old[i].1,
            new[i].1,
        )
}

/// Whether a kind is what it was, but for slots that hold a new node in place of
/// one that nothing guards, and for rows that left.
pub open spec fn eroded(s: Tx, kept: Set<NodeId>, old: Kind, new: Kind) -> bool {
    match (old, new) {
        (Kind::Array(a), Kind::Array(b)) => {
            &&& b.len() == a.len()
            &&& forall|i: int| 0 <= i < a.len() ==> worn(s, kept, a[i], #[trigger] b[i])
        },
        (Kind::Object(a), Kind::Object(b)) => worn_links(s, kept, a, b),
        (Kind::Store { id: p, fields: a }, Kind::Store { id: q, fields: b }) => p == q
            && worn_links(s, kept, a, b),
        (Kind::Collection { name: n, owner: o, items: a }, Kind::Collection {
            name: m,
            owner: q,
            items: b,
        }) => n == m && o == q && forall|i: int|
            0 <= i < b.len() ==> a.contains(#[trigger] b[i]),
        (Kind::Async { status: x, result: a, reason: b }, Kind::Async {
            status: y,
            result: c,
            reason: d,
        }) => x == y && worn(s, kept, a, c) && worn(s, kept, b, d),
        _ => old == new,
    }
}

/// What a step leaves alone.
#[verifier::opaque]
pub open spec fn keeps(s: Tx, t: Tx, kept: Set<NodeId>) -> bool {
    &&& t.root == s.root
    &&& s.allocated.len() <= t.allocated.len()
    &&& forall|id: NodeId| #[trigger] s.live(id) ==> t.live(id)
    &&& s.claimed.subset_of(t.claimed)
    &&& s.claimed_streams.subset_of(t.claimed_streams)
    &&& forall|id: NodeId| #[trigger] s.settle.contains_key(id) ==> t.settle.contains_key(id)
    &&& forall|id: NodeId| #[trigger]
        kept.contains(id) && s.live(id) ==> t.parent_of(id) == s.parent_of(id) && eroded(
            s,
            kept,
            s.kind(id),
            t.kind(id),
        )
}

pub proof fn keeps_self(s: Tx, kept: Set<NodeId>)
    ensures
        keeps(s, s, kept),
{
    reveal(keeps);
}

/// Leaving alone composes.
pub proof fn keeps_on(s: Tx, t: Tx, u: Tx, kept: Set<NodeId>)
    requires
        keeps(s, t, kept),
        keeps(t, u, kept),
    ensures
        keeps(s, u, kept),
{
    reveal(keeps);
    assert forall|id: NodeId| #[trigger] kept.contains(id) && s.live(id) implies u.parent_of(id)
        == s.parent_of(id) && eroded(s, kept, s.kind(id), u.kind(id)) by {
        assert(t.live(id));
        let a = s.kind(id);
        let b = t.kind(id);
        let c = u.kind(id);
        assert(eroded(s, kept, a, b) && eroded(t, kept, b, c));
        match (a, b, c) {
            (Kind::Collection { items: x, .. }, Kind::Collection { items: y, .. }, Kind::Collection {
                items: z,
                ..
            }) => {
                assert forall|i: int| 0 <= i < z.len() implies x.contains(#[trigger] z[i]) by {
                    let j = choose|j: int| 0 <= j < y.len() && y[j] == z[i];
                    assert(x.contains(y[j]));
                }
            },
            (Kind::Array(x), Kind::Array(y), Kind::Array(z)) => {
                assert forall|i: int| 0 <= i < x.len() implies worn(
                    s,
                    kept,
                    x[i],
                    #[trigger] z[i],
                ) by {
                    assert(worn(s, kept, x[i], y[i]));
                }
            },
            (Kind::Object(x), Kind::Object(y), Kind::Object(z)) => {
                worn_on(s, t, kept, x, y, z);
            },
            (Kind::Store { fields: x, .. }, Kind::Store { fields: y, .. }, Kind::Store {
                fields: z,
                ..
            }) => {
                worn_on(s, t, kept, x, y, z);
            },
            _ => {},
        }
    }
}

proof fn worn_on(
    s: Tx,
    t: Tx,
    kept: Set<NodeId>,
    x: Seq<(Chars, NodeId)>,
    y: Seq<(Chars, NodeId)>,
    z: Seq<(Chars, NodeId)>,
)
    requires
        worn_links(s, kept, x, y),
        worn_links(t, kept, y, z),
        forall|id: NodeId| #[trigger] s.live(id) ==> t.live(id),
    ensures
        worn_links(s, kept, x, z),
{
    assert forall|i: int| 0 <= i < x.len() implies (#[trigger] z[i]).0 == x[i].0 && worn(
        s,
        kept,
        x[i].1,
        z[i].1,
    ) by {
        assert(y[i].0 == x[i].0);
    }
}

/// What leaves many nodes alone leaves fewer alone.
pub proof fn keeps_fewer(s: Tx, t: Tx, more: Set<NodeId>, kept: Set<NodeId>)
    requires
        keeps(s, t, more),
        kept.subset_of(more),
    ensures
        keeps(s, t, kept),
{
    reveal(keeps);
    assert forall|id: NodeId| #[trigger] kept.contains(id) && s.live(id) implies t.parent_of(id)
        == s.parent_of(id) && eroded(s, kept, s.kind(id), t.kind(id)) by {
        assert(more.contains(id));
    }
}

/// Whether this op will not adopt a node again: what it is has been placed.
pub open spec fn placed_once(s: Tx, id: NodeId) -> bool {
    match s.kind(id) {
        Kind::Store { id: path, .. } => s.claimed.contains(path),
        Kind::Collection { name, owner, .. } => s.claimed_streams.contains((owner, name)),
        _ => true,
    }
}

/// The nodes that a step below `parent` must leave alone: with a node, all above
/// it; each is above `parent`, or has been placed.
#[verifier::opaque]
pub open spec fn guards(s: Tx, kept: Set<NodeId>, parent: NodeId) -> bool {
    &&& kept.contains(parent)
    &&& forall|id: NodeId| #[trigger]
        kept.contains(id) ==> s.live(id) && (s.parent_of(id) matches Some(up) ==> kept.contains(up))
            && (s.is_ancestor(id, parent) || placed_once(s, id))
}

pub proof fn met_kept(s: Tx, t: Tx, kept: Set<NodeId>, id: NodeId, at: NodeId, walk: nat)
    requires
        kept.contains(at),
        forall|x: NodeId| #[trigger]
            kept.contains(x) ==> t.parent_of(x) == s.parent_of(x) && (s.parent_of(x) matches Some(
                up,
            ) ==> kept.contains(up)),
    ensures
        s.met_above(id, Some(at), walk) == t.met_above(id, Some(at), walk),
    decreases walk,
{
    reveal_with_fuel(Tx::met_above, 2);
    if at != id && walk > 1 {
        if let Some(up) = s.parent_of(at) {
            met_kept(s, t, kept, id, up, (walk - 1) as nat);
        }
    }
}

/// What is guarded stays guarded where it stays where it is, and stays placed.
pub proof fn guards_same(s: Tx, t: Tx, kept: Set<NodeId>, parent: NodeId)
    requires
        guards(s, kept, parent),
        forall|x: NodeId| #[trigger]
            kept.contains(x) ==> t.live(x) && t.parent_of(x) == s.parent_of(x) && (placed_once(s, x)
                ==> placed_once(t, x)),
    ensures
        guards(t, kept, parent),
{
    reveal(guards);
    assert forall|id: NodeId| #[trigger] kept.contains(id) implies t.live(id) && (t.parent_of(
        id,
    ) matches Some(up) ==> kept.contains(up)) && (t.is_ancestor(id, parent) || placed_once(
        t,
        id,
    )) by {
        met_kept(s, t, kept, id, parent, MAX_WALK as nat);
    }
}

/// What is guarded stays guarded.
pub proof fn guards_kept(s: Tx, t: Tx, kept: Set<NodeId>, parent: NodeId)
    requires
        guards(s, kept, parent),
        keeps(s, t, kept),
    ensures
        guards(t, kept, parent),
{
    assert forall|x: NodeId| #[trigger] kept.contains(x) implies t.live(x) && t.parent_of(x)
        == s.parent_of(x) && (placed_once(s, x) ==> placed_once(t, x)) by {
        reveal(guards);
        reveal(keeps);
        assert(kept.contains(x) && s.live(x));
    }
    guards_same(s, t, kept, parent);
}

/// The way up from a guarded node stays as long as it is.
pub proof fn climbs_guarded(s: Tx, t: Tx, kept: Set<NodeId>, id: NodeId, n: nat)
    requires
        kept.contains(id),
        shape::climbs(s.nodes, id, n),
        forall|x: NodeId| #[trigger]
            kept.contains(x) ==> t.live(x) && t.parent_of(x) == s.parent_of(x) && (s.parent_of(
                x,
            ) matches Some(up) ==> kept.contains(up)),
    ensures
        shape::climbs(t.nodes, id, n),
    decreases n,
{
    assert(s.live(id));
    assert(t.parent_of(id) == s.parent_of(id));
    if let Some(up) = s.nodes[id].parent {
        climbs_guarded(s, t, kept, up, (n - 1) as nat);
    }
}

/// A node on its way below a guarded one stays on its way.
pub proof fn still_adrift(s: Tx, t: Tx, kept: Set<NodeId>, id: NodeId)
    requires
        keeps(s, t, kept),
        shape::adrift(s, id),
        s.live(s.parent_of(id)->0),
        kept.contains(s.parent_of(id)->0),
        t.parent_of(id) == s.parent_of(id),
    ensures
        shape::adrift(t, id),
{
    reveal(keeps);
    let up = s.parent_of(id)->0;
    assert(kept.contains(up) && s.live(up));
    assert(s.live(id));
    if t.kids(up).contains(id) {
        let i = choose|i: int| 0 <= i < t.kids(up).len() && t.kids(up)[i] == id;
        match (s.kind(up), t.kind(up)) {
            (Kind::Array(a), Kind::Array(b)) => {
                assert(worn(s, kept, a[i], b[i]));
                assert(s.kids(up)[i] == id);
            },
            (Kind::Object(a), Kind::Object(b)) => {
                assert(b[i].1 == id);
                assert(worn(s, kept, a[i].1, b[i].1));
                assert(s.kids(up)[i] == id);
            },
            (Kind::Store { fields: a, .. }, Kind::Store { fields: b, .. }) => {
                assert(b[i].1 == id);
                assert(worn(s, kept, a[i].1, b[i].1));
                assert(s.kids(up)[i] == id);
            },
            (Kind::Collection { items: a, .. }, Kind::Collection { items: b, .. }) => {
                assert(b[i].1 == id);
                let j = choose|j: int| 0 <= j < a.len() && a[j] == b[i];
                assert(s.kids(up)[j] == id);
            },
            (Kind::Async { result: a, reason: b, .. }, Kind::Async { result: c, reason: d, .. }) => {
                assert(s.kids(up)[0] == a && s.kids(up)[1] == b);
                assert(t.kids(up)[0] == c && t.kids(up)[1] == d);
            },
            _ => {},
        }
        assert(s.kids(up).contains(id));
    }
}

pub proof fn met_sooner(s: Tx, id: NodeId, at: Option<NodeId>, walk: nat)
    requires
        s.met_above(id, at, walk),
        walk > 0,
    ensures
        s.met_above(id, at, (walk - 1) as nat),
    decreases walk,
{
    if let Some(current) = at {
        if current != id && walk > 2 {
            met_sooner(s, id, s.parent_of(current), (walk - 1) as nat);
        }
    }
}

/// One level down, the node that was reached is guarded too.
pub proof fn guards_deeper(s: Tx, kept: Set<NodeId>, parent: NodeId, id: NodeId)
    requires
        guards(s, kept, parent),
        s.parent_of(id) == Some(parent),
    ensures
        guards(s, kept.insert(id), id),
{
    reveal(guards);
    assert forall|x: NodeId| #[trigger] kept.insert(id).contains(x) implies s.live(x) && (
    s.parent_of(x) matches Some(up) ==> kept.insert(id).contains(up)) && (s.is_ancestor(x, id)
        || placed_once(s, x)) by {
        if x != id {
            assert(kept.contains(x));
            if s.is_ancestor(x, parent) {
                met_sooner(s, x, Some(parent), MAX_WALK as nat);
            }
        }
    }
}

/// The root alone can be guarded where nothing is above it.
pub proof fn guards_root(s: Tx, id: NodeId)
    requires
        s.live(id),
        s.parent_of(id) is None,
    ensures
        guards(s, Set::empty().insert(id), id),
{
    reveal(guards);
}

/// The way up from a node, as a set.
pub open spec fn spine(s: Tx, id: NodeId) -> Set<NodeId> {
    Set::new(|x: NodeId| s.live(x) && s.is_ancestor(x, id))
}

pub proof fn met_with_parent(s: Tx, id: NodeId, up: NodeId, at: Option<NodeId>, walk: nat)
    requires
        s.met_above(id, at, walk),
        s.parent_of(id) == Some(up),
    ensures
        s.met_above(up, at, walk),
    decreases walk,
{
    reveal_with_fuel(Tx::met_above, 2);
    if let Some(current) = at {
        if current != id && walk > 1 {
            met_with_parent(s, id, up, s.parent_of(current), (walk - 1) as nat);
        }
    }
}

/// The way up from a node can be guarded.
pub proof fn guards_spine(s: Tx, id: NodeId)
    requires
        s.live(id),
        shape::bounded(s.nodes),
    ensures
        guards(s, spine(s, id), id),
{
    reveal(guards);
    let kept = spine(s, id);
    assert forall|x: NodeId| #[trigger] kept.contains(x) implies s.live(x) && (s.parent_of(
        x,
    ) matches Some(up) ==> kept.contains(up)) && (s.is_ancestor(x, id) || placed_once(s, x)) by {
        if let Some(up) = s.parent_of(x) {
            met_with_parent(s, x, up, Some(id), MAX_WALK as nat);
            shape::depth_step(s, x);
        }
    }
}

// ------------------------------------------------------------ what a node shows

/// The fields of a document up to `i`, without the store marker where `skip`.
pub open spec fn plain(fields: Seq<(Chars, Json)>, skip: bool, i: int) -> Seq<(Chars, Json)>
    decreases i,
{
    if i <= 0 {
        Seq::empty()
    } else if skip && fields[i - 1].0 == STORE_ID_KEY@ {
        plain(fields, skip, i - 1)
    } else {
        plain(fields, skip, i - 1).push(fields[i - 1])
    }
}

/// Whether a node is the child of another, and has been placed by this op.
pub open spec fn seated(s: Tx, id: NodeId, parent: NodeId) -> bool {
    s.parent_of(id) == Some(parent) && placed_once(s, id)
}

/// Whether a node, and what it holds down to `n` levels, is what a document
/// calls for, each store and stream below it placed by this op.
pub open spec fn shows(s: Tx, id: NodeId, v: Json, n: nat) -> bool
    decreases n, 0int, 0int,
{
    n > 0 && s.live(id) && match (s.kind(id), marker::form_of(v)) {
        (Kind::Null, Form::Null) => true,
        (Kind::Bool(a), Form::Bool(b)) => a == b,
        (Kind::Number(a), Form::Number(b)) => a.canon() == b.canon(),
        (Kind::Text(a), Form::Text(b)) => a == b,
        (Kind::Array(kids), Form::Array(items)) => {
            &&& kids.len() == items.len()
            &&& forall|i: int|
                0 <= i < kids.len() ==> seated(s, #[trigger] kids[i], id) && shows(
                    s,
                    kids[i],
                    items[i],
                    (n - 1) as nat,
                )
        },
        (Kind::Object(kids), Form::Object(fields)) => shows_fields(
            s,
            id,
            kids,
            plain(fields, false, fields.len() as int),
            (n - 1) as nat,
        ),
        (Kind::Store { id: held, fields: kids }, Form::Store { id: path, fields }) => held == path
            && shows_fields(
            s,
            id,
            kids,
            plain(fields, true, fields.len() as int),
            (n - 1) as nat,
        ),
        (Kind::Collection { name: a, .. }, Form::Collection { name: b }) => a == b,
        (Kind::Async { status: a, result, reason }, Form::Async {
            status: b,
            result: x,
            reason: y,
        }) => {
            &&& a == b
            &&& seated(s, result, id)
            &&& seated(s, reason, id)
            &&& shows(s, result, x, (n - 1) as nat)
            &&& shows(s, reason, y, (n - 1) as nat)
        },
        (Kind::Upload { name: a, .. }, Form::Upload { name: b }) => a == b,
        _ => false,
    }
}

/// Whether keyed children are what keyed documents call for.
pub open spec fn shows_fields(
    s: Tx,
    id: NodeId,
    kids: Seq<(Chars, NodeId)>,
    fields: Seq<(Chars, Json)>,
    n: nat,
) -> bool
    decreases n, 1int,
{
    &&& kids.len() == fields.len()
    &&& forall|i: int|
        0 <= i < kids.len() ==> (#[trigger] kids[i]).0 == fields[i].0 && seated(s, kids[i].1, id)
            && shows(s, kids[i].1, fields[i].1, n)
}

/// The document that the `i`-th child of a node that shows `v` shows.
pub open spec fn part(v: Json, i: int) -> Json {
    match marker::form_of(v) {
        Form::Array(items) => items[i],
        Form::Object(fields) => plain(fields, false, fields.len() as int)[i].1,
        Form::Store { fields, .. } => plain(fields, true, fields.len() as int)[i].1,
        Form::Async { result, reason, .. } => if i == 0 {
            result
        } else {
            reason
        },
        _ => Json::Null,
    }
}

/// What a node shows, each of its children shows a part of.
pub proof fn shows_part(s: Tx, id: NodeId, v: Json, n: nat, i: int)
    requires
        shows(s, id, v, n),
        !(s.kind(id) is Collection),
        0 <= i < s.kids(id).len(),
    ensures
        n > 1,
        seated(s, s.kids(id)[i], id),
        shows(s, s.kids(id)[i], part(v, i), (n - 1) as nat),
{
    reveal_with_fuel(shows, 3);
    reveal_with_fuel(shows_fields, 2);
    match (s.kind(id), marker::form_of(v)) {
        (Kind::Array(kids), Form::Array(items)) => {
            assert(s.kids(id)[i] == kids[i]);
        },
        (Kind::Object(kids), Form::Object(fields)) => {
            assert(s.kids(id)[i] == kids[i].1);
        },
        (Kind::Store { fields: kids, .. }, Form::Store { fields, .. }) => {
            assert(s.kids(id)[i] == kids[i].1);
        },
        (Kind::Async { result, reason, .. }, Form::Async { .. }) => {
            assert(s.kids(id)[0] == result && s.kids(id)[1] == reason);
        },
        _ => {},
    }
    assert(shows(s, s.kids(id)[i], part(v, i), (n - 1) as nat));
}

/// Whether `x` is a node or, down to `n` levels and not into rows, below it.
pub open spec fn within(s: Tx, x: NodeId, id: NodeId, n: nat) -> bool
    decreases n,
{
    x == id || (n > 0 && !(s.kind(id) is Collection) && exists|i: int|
        0 <= i < s.kids(id).len() && within(s, x, #[trigger] s.kids(id)[i], (n - 1) as nat))
}

/// What lies within a node that shows a document is placed, and so is what is
/// above it up to that node.
pub proof fn within_shown(s: Tx, x: NodeId, id: NodeId, v: Json, n: nat)
    requires
        shows(s, id, v, n),
        within(s, x, id, n),
    ensures
        s.live(x),
        x == id || placed_once(s, x),
        x == id || (s.parent_of(x) is Some && within(s, s.parent_of(x)->0, id, n)),
    decreases n,
{
    if x != id {
        let i = choose|i: int|
            0 <= i < s.kids(id).len() && within(s, x, #[trigger] s.kids(id)[i], (n - 1) as nat);
        shows_part(s, id, v, n, i);
        within_shown(s, x, s.kids(id)[i], part(v, i), (n - 1) as nat);
        if x != s.kids(id)[i] {
            assert(within(s, s.parent_of(x)->0, s.kids(id)[i], (n - 1) as nat));
        }
    }
}

/// A node whose own are all guarded goes on showing what it showed.
pub proof fn shows_kept(s: Tx, t: Tx, kept: Set<NodeId>, id: NodeId, v: Json, n: nat)
    requires
        keeps(s, t, kept),
        shows(s, id, v, n),
        forall|x: NodeId| #[trigger] within(s, x, id, n) ==> kept.contains(x),
    ensures
        shows(t, id, v, n),
        placed_once(s, id) ==> placed_once(t, id),
        forall|x: NodeId| #[trigger] within(t, x, id, n) ==> within(s, x, id, n),
    decreases n,
{
    reveal_with_fuel(shows, 2);
    reveal_with_fuel(shows_fields, 2);
    assert(within(s, id, id, n));
    assert(t.live(id) && t.parent_of(id) == s.parent_of(id) && eroded(
        s,
        kept,
        s.kind(id),
        t.kind(id),
    ) && (placed_once(s, id) ==> placed_once(t, id))) by {
        reveal(keeps);
        assert(kept.contains(id) && s.live(id));
    }
    if !(s.kind(id) is Collection) {
        let kids = s.kids(id);
        assert forall|i: int| 0 <= i < kids.len() implies kept.contains(#[trigger] kids[i])
            && seated(t, kids[i], id) && shows(
            t,
            kids[i],
            part(v, i),
            (n - 1) as nat,
        ) && forall|x: NodeId| #[trigger]
            within(t, x, kids[i], (n - 1) as nat) ==> within(s, x, kids[i], (n - 1) as nat) by {
            shows_part(s, id, v, n, i);
            assert(within(s, kids[i], kids[i], (n - 1) as nat));
            assert(within(s, kids[i], id, n));
            assert forall|x: NodeId| #[trigger]
                within(s, x, kids[i], (n - 1) as nat) implies kept.contains(x) by {
                assert(within(s, x, id, n));
            }
            shows_kept(s, t, kept, kids[i], part(v, i), (n - 1) as nat);
            reveal(keeps);
            assert(kept.contains(kids[i]) && s.live(kids[i]));
        }
        match (s.kind(id), t.kind(id)) {
            (Kind::Array(a), Kind::Array(b)) => {
                assert forall|i: int| 0 <= i < a.len() implies a[i] == #[trigger] b[i] by {
                    assert(kept.contains(kids[i]));
                }
                assert(a =~= b);
            },
            (Kind::Object(a), Kind::Object(b)) => {
                assert forall|i: int| 0 <= i < a.len() implies a[i] == #[trigger] b[i] by {
                    assert(kids[i] == a[i].1);
                    assert(kept.contains(kids[i]));
                }
                assert(a =~= b);
            },
            (Kind::Store { fields: a, .. }, Kind::Store { fields: b, .. }) => {
                assert forall|i: int| 0 <= i < a.len() implies a[i] == #[trigger] b[i] by {
                    assert(kids[i] == a[i].1);
                    assert(kept.contains(kids[i]));
                }
                assert(a =~= b);
            },
            (Kind::Async { result: a, reason: b, .. }, Kind::Async { .. }) => {
                assert(kids[0] == a && kids[1] == b);
                assert(kept.contains(kids[0]) && kept.contains(kids[1]));
            },
            _ => {},
        }
        assert(t.kind(id) == s.kind(id));
        assert(t.kids(id) == kids);
        match (s.kind(id), marker::form_of(v)) {
            (Kind::Object(a), Form::Object(_)) => {
                assert forall|i: int| 0 <= i < a.len() implies kids[i] == (#[trigger] a[i]).1 by {}
                assert(shows(t, id, v, n));
            },
            (Kind::Store { fields: a, .. }, Form::Store { .. }) => {
                assert forall|i: int| 0 <= i < a.len() implies kids[i] == (#[trigger] a[i]).1 by {}
                assert(shows(t, id, v, n));
            },
            (Kind::Async { result, reason, .. }, Form::Async { .. }) => {
                assert(kids[0] == result && kids[1] == reason);
                assert(part(v, 0) == marker::form_of(v)->Async_result);
            },
            _ => {},
        }
        assert(shows(t, id, v, n));
        assert forall|x: NodeId| #[trigger] within(t, x, id, n) implies within(s, x, id, n) by {
            if x != id {
                let i = choose|i: int|
                    0 <= i < t.kids(id).len() && within(
                        t,
                        x,
                        #[trigger] t.kids(id)[i],
                        (n - 1) as nat,
                    );
                assert(kept.contains(kids[i]));
                assert(within(s, x, s.kids(id)[i], (n - 1) as nat));
            }
        }
    }
}

/// The guarded nodes, and with them what lies within a node below `parent` that
/// shows a document.
pub open spec fn widened(s: Tx, kept: Set<NodeId>, id: NodeId, n: nat) -> Set<NodeId> {
    kept.union(Set::new(|x: NodeId| within(s, x, id, n)))
}

/// What was placed below `parent` is guarded from then on.
pub proof fn guards_wider(s: Tx, kept: Set<NodeId>, parent: NodeId, id: NodeId, v: Json, n: nat)
    requires
        guards(s, kept, parent),
        shows(s, id, v, n),
        seated(s, id, parent),
    ensures
        guards(s, widened(s, kept, id, n), parent),
{
    reveal(guards);
    let more = widened(s, kept, id, n);
    assert forall|x: NodeId| #[trigger] more.contains(x) implies s.live(x) && (s.parent_of(
        x,
    ) matches Some(up) ==> more.contains(up)) && (s.is_ancestor(x, parent) || placed_once(
        s,
        x,
    )) by {
        if kept.contains(x) {
        } else {
            within_shown(s, x, id, v, n);
        }
    }
}

} // verus!
