//! What reconciling keeps, and what it makes of a document.

use vstd::prelude::*;

use crate::state::growth;
use crate::state::guard;
use crate::state::keyed;
use crate::state::marker;
use crate::state::marker::{Form, STORE_ID_KEY};
use crate::state::model;
use crate::state::model::{Tx, MAX_DEPTH};
use crate::state::node::{AsyncStatus, Kind, NodeId};
use crate::state::placing;
use crate::state::shape;
use crate::state::slots::Entry;
use crate::state::text;
use crate::state::text::Chars;
use crate::state::upkeep;
use crate::state::value;
use crate::state::value::Json;
use crate::state::wire::Path;

verus! {

/// Whether a child of `id` is placed and shows a document, without anything of
/// `base` in it.
pub open spec fn kid_in(
    s: Tx,
    id: NodeId,
    kid: NodeId,
    v: Json,
    n: nat,
    base: Set<NodeId>,
) -> bool {
    &&& guard::seated(s, kid, id)
    &&& guard::shows(s, kid, v, n)
    &&& forall|x: NodeId| #[trigger] guard::within(s, x, kid, n) ==> !base.contains(x)
}

/// What reconciling one child slot leaves.
pub open spec fn child_done(
    s: Tx,
    t: Tx,
    parent: NodeId,
    existing: Option<NodeId>,
    kid: NodeId,
    v: Json,
    n: nat,
    kept: Set<NodeId>,
    was: Map<NodeId, Entry>,
    ids: Seq<NodeId>,
) -> bool {
    &&& shape::good(t, was, ids)
    &&& guard::keeps(s, t, kept)
    &&& kid_in(t, parent, kid, v, n, kept)
    &&& placing::drifts(s, t, Some(kid))
    &&& if existing == Some(kid) {
        placing::drifts(s, t, None)
    } else {
        shape::adrift(t, kid)
    }
}

/// What rewriting one node leaves.
pub open spec fn node_done(
    s: Tx,
    t: Tx,
    id: NodeId,
    v: Json,
    n: nat,
    kept: Set<NodeId>,
    was: Map<NodeId, Entry>,
    ids: Seq<NodeId>,
) -> bool {
    &&& shape::good(t, was, ids)
    &&& guard::keeps(s, t, kept)
    &&& t.parent_of(id) == s.parent_of(id)
    &&& placing::drifts(s, t, None)
    &&& guard::shows(t, id, v, n)
    &&& forall|x: NodeId| #[trigger] guard::within(t, x, id, n) ==> !kept.contains(x)
}

/// What rewriting one node starts from.
pub open spec fn node_ready(
    s: Tx,
    id: NodeId,
    depth: nat,
    loose: Set<NodeId>,
    kept: Set<NodeId>,
    was: Map<NodeId, Entry>,
    ids: Seq<NodeId>,
) -> bool {
    &&& shape::good(s, was, ids)
    &&& s.live(id)
    &&& !kept.contains(id)
    &&& guard::guards(s, kept.insert(id), id)
    &&& shape::climbs(s.nodes, id, depth)
    &&& placing::moored(s, kept.insert(id), loose)
    &&& forall|c: NodeId| #[trigger] kept.contains(c) ==> s.parent_of(c) != Some(id)
}

/// A child that shows a document goes on doing so when its parent is given its
/// children.
pub proof fn kid_given(
    s: Tx,
    t: Tx,
    id: NodeId,
    kids: Seq<NodeId>,
    kid: NodeId,
    v: Json,
    n: nat,
    base: Set<NodeId>,
)
    requires
        placing::relisted(s, t, id, kids),
        kid_in(s, id, kid, v, n, base),
        base.contains(id),
        kids.contains(kid),
    ensures
        kid_in(t, id, kid, v, n, base),
        forall|x: NodeId| #[trigger] guard::within(t, x, kid, n) ==> guard::within(s, x, kid, n),
{
    let own = Set::new(|x: NodeId| guard::within(s, x, kid, n));
    assert(!own.contains(id)) by {
        if own.contains(id) {
            assert(guard::within(s, id, kid, n));
        }
    }
    assert forall|c: NodeId| #[trigger] own.contains(c) implies s.parent_of(c) != Some(id)
        || kids.contains(c) by {
        guard::within_shown(s, c, kid, v, n);
        if c != kid && s.parent_of(c) == Some(id) {
            assert(guard::within(s, id, kid, n));
        }
    }
    placing::relisted_keeps(s, t, id, kids, own);
    guard::shows_kept(s, t, own, kid, v, n);
    assert(own.contains(kid)) by {
        assert(guard::within(s, kid, kid, n));
    }
    assert(t.parent_of(kid) == s.parent_of(kid)) by {
        reveal(guard::keeps);
        assert(own.contains(kid) && s.live(kid));
    }
    assert forall|x: NodeId| #[trigger] guard::within(t, x, kid, n) implies !base.contains(x) by {
        assert(guard::within(s, x, kid, n));
    }
}

/// A child that shows a document goes on doing so where all that is within it is
/// left alone.
pub proof fn kid_kept(
    s: Tx,
    t: Tx,
    kept: Set<NodeId>,
    id: NodeId,
    kid: NodeId,
    v: Json,
    n: nat,
    base: Set<NodeId>,
)
    requires
        guard::keeps(s, t, kept),
        kid_in(s, id, kid, v, n, base),
        forall|x: NodeId| #[trigger] guard::within(s, x, kid, n) ==> kept.contains(x),
    ensures
        kid_in(t, id, kid, v, n, base),
        forall|x: NodeId| #[trigger] guard::within(t, x, kid, n) ==> kept.contains(x),
{
    guard::shows_kept(s, t, kept, kid, v, n);
    assert(kept.contains(kid)) by {
        assert(guard::within(s, kid, kid, n));
    }
    assert(t.parent_of(kid) == s.parent_of(kid)) by {
        reveal(guard::keeps);
        assert(kept.contains(kid) && s.live(kid));
    }
    assert forall|x: NodeId| #[trigger] guard::within(t, x, kid, n) implies !base.contains(x)
        && kept.contains(x) by {
        assert(guard::within(s, x, kid, n));
    }
}

/// The last step of rewriting a node: it is given its children.
proof fn given_kids(
    s: Tx,
    t: Tx,
    u: Tx,
    id: NodeId,
    kids: Seq<NodeId>,
    docs: Seq<Json>,
    n: nat,
    kept: Set<NodeId>,
    was: Map<NodeId, Entry>,
    ids: Seq<NodeId>,
)
    requires
        s.live(id),
        !kept.contains(id),
        shape::good(t, was, ids),
        guard::keeps(s, t, kept),
        t.parent_of(id) == s.parent_of(id),
        forall|c: NodeId| #[trigger] kept.contains(c) && s.live(c) ==> s.parent_of(c) != Some(id),
        forall|c: NodeId| #[trigger] kept.contains(c) ==> s.live(c),
        placing::relisted(t, u, id, kids),
        kids.len() == docs.len(),
        forall|j: int|
            0 <= j < kids.len() ==> #[trigger] kid_in(t, id, kids[j], docs[j], n, kept.insert(id)),
        forall|x: NodeId| #[trigger]
            shape::adrift(t, x) ==> placing::adrift_still(s, t, x) || kids.contains(x),
        forall|x: NodeId| #[trigger]
            shape::adrift(u, x) ==> placing::adrift_still(t, u, x) && !kids.contains(x),
    ensures
        guard::keeps(s, u, kept),
        u.parent_of(id) == s.parent_of(id),
        u.live(id),
        placing::drifts(s, u, None),
        forall|j: int|
            0 <= j < kids.len() ==> #[trigger] kid_in(u, id, kids[j], docs[j], n, kept.insert(id)),
{
    assert(t.live(id)) by {
        reveal(guard::keeps);
    }
    assert(u.live(id) == t.live(id));
    assert forall|c: NodeId| #[trigger] kept.contains(c) implies t.parent_of(c) != Some(id)
        || kids.contains(c) by {
        reveal(guard::keeps);
        assert(kept.contains(c) && s.live(c));
    }
    placing::relisted_keeps(t, u, id, kids, kept);
    guard::keeps_on(s, t, u, kept);
    assert(u.parent_of(id) == t.parent_of(id)) by {
        reveal(shape::good);
        shape::depth_step(t, id);
        assert(u.parent_of(id) == t.parent_of(id) || t.parent_of(id) == Some(id));
    }
    assert forall|j: int| 0 <= j < kids.len() implies #[trigger] kid_in(
        u,
        id,
        kids[j],
        docs[j],
        n,
        kept.insert(id),
    ) by {
        kid_given(t, u, id, kids, kids[j], docs[j], n, kept.insert(id));
    }
}

/// What lies within a node whose children show documents.
proof fn within_kids(t: Tx, id: NodeId, kids: Seq<NodeId>, docs: Seq<Json>, n: nat, kept: Set<NodeId>)
    requires
        t.live(id),
        t.kids(id) == kids,
        n > 0,
        !kept.contains(id),
        kids.len() == docs.len(),
        forall|j: int|
            0 <= j < kids.len() ==> #[trigger] kid_in(
                t,
                id,
                kids[j],
                docs[j],
                (n - 1) as nat,
                kept.insert(id),
            ),
    ensures
        forall|x: NodeId| #[trigger] guard::within(t, x, id, n) ==> !kept.contains(x),
{
    assert forall|x: NodeId| #[trigger] guard::within(t, x, id, n) implies !kept.contains(x) by {
        if x != id {
            let i = choose|i: int|
                0 <= i < t.kids(id).len() && guard::within(
                    t,
                    x,
                    #[trigger] t.kids(id)[i],
                    (n - 1) as nat,
                );
            assert(kid_in(t, id, kids[i], docs[i], (n - 1) as nat, kept.insert(id)));
            assert(guard::within(t, x, kids[i], (n - 1) as nat));
        }
    }
}

/// An empty node is given its kind, its index entry and its value.
proof fn finished_with(
    s: Tx,
    id: NodeId,
    kind: Kind,
    was: Map<NodeId, Entry>,
    ids: Seq<NodeId>,
)
    requires
        shape::good(s, was, ids),
        s.live(id),
        s.kind(id) is Null,
        upkeep::suits(s, id, kind),
        s.settle.contains_key(id) || (shape::adrift(s, id) && !was.contains_key(id)),
    ensures
        ({
            let u = model::finish(upkeep::registered(s, id, kind), id, kind);
            &&& shape::good(u, was, ids)
            &&& placing::relisted(s, u, id, kind.kids())
            &&& u.kind(id) == kind
            &&& u.kids(id) == kind.kids()
            &&& forall|x: NodeId| #[trigger]
                shape::adrift(u, x) ==> placing::adrift_still(s, u, x) && !kind.kids().contains(x)
        }),
{
    upkeep::finished(s, id, kind, was, ids);
    let r = upkeep::registered(s, id, kind);
    let u = model::finish(r, id, kind);
    assert(r.nodes == s.nodes);
    assert forall|x: NodeId| #[trigger] shape::adrift(u, x) implies placing::adrift_still(s, u, x)
        && !kind.kids().contains(x) by {
        let p = u.parent_of(x)->0;
        assert(u.parent_of(x) == s.parent_of(x));
        if kind.kids().contains(x) {
            assert(s.parent_of(x) == Some(id));
        }
        if p != id {
            assert(u.kids(p) == s.kids(p));
        } else {
            assert(s.kids(id) =~= Seq::<NodeId>::empty());
        }
    }
}

// ----------------------------------------------------------------- place_items

/// What placing children starts from: those placed so far are guarded, and are
/// the only guarded children.
pub open spec fn list_ready(
    s: Tx,
    id: NodeId,
    depth: nat,
    placed: Seq<NodeId>,
    docs: Seq<Json>,
    n: nat,
    loose: Set<NodeId>,
    kept: Set<NodeId>,
    base: Set<NodeId>,
    was: Map<NodeId, Entry>,
    ids: Seq<NodeId>,
) -> bool {
    &&& shape::good(s, was, ids)
    &&& guard::guards(s, kept, id)
    &&& placing::moored(s, kept, loose)
    &&& shape::climbs(s.nodes, id, depth)
    &&& base.subset_of(kept)
    &&& base.contains(id)
    &&& placed.len() == docs.len()
    &&& placed.no_duplicates()
    &&& forall|c: NodeId| #[trigger]
        kept.contains(c) ==> s.parent_of(c) != Some(id) || placed.contains(c)
    &&& forall|j: int|
        0 <= j < placed.len() ==> kid_in(s, id, #[trigger] placed[j], docs[j], n, base) && forall|
            x: NodeId,
        | #[trigger]
            guard::within(s, x, placed[j], n) ==> kept.contains(x)
}

/// What placing children leaves.
pub open spec fn list_done(
    s: Tx,
    t: Tx,
    id: NodeId,
    all: Seq<NodeId>,
    docs: Seq<Json>,
    n: nat,
    kept: Set<NodeId>,
    base: Set<NodeId>,
    was: Map<NodeId, Entry>,
    ids: Seq<NodeId>,
) -> bool {
    &&& shape::good(t, was, ids)
    &&& guard::keeps(s, t, kept)
    &&& all.len() == docs.len()
    &&& all.no_duplicates()
    &&& forall|j: int|
        0 <= j < all.len() ==> kid_in(t, id, #[trigger] all[j], docs[j], n, base)
    &&& forall|x: NodeId| #[trigger]
        shape::adrift(t, x) ==> placing::adrift_still(s, t, x) || all.contains(x)
}

/// Going one level down from a node.
pub proof fn one_deeper(s: Tx, id: NodeId, depth: nat)
    requires
        shape::bounded(s.nodes),
        shape::climbs(s.nodes, id, depth),
    ensures
        model::deeper(depth) >= 1,
        shape::climbs(s.nodes, id, (model::deeper(depth) - 1) as nat),
{
    if depth > MAX_DEPTH {
        assert(s.nodes.contains_key(id));
        shape::climbs_more(s.nodes, id, MAX_DEPTH as nat, (depth - 1) as nat);
    }
}

/// A child may be reconciled once the ones before it are placed.
pub proof fn next_ready(
    s: Tx,
    id: NodeId,
    depth: nat,
    candidate: Option<NodeId>,
    placed: Seq<NodeId>,
    docs: Seq<Json>,
    n: nat,
    loose: Set<NodeId>,
    kept: Set<NodeId>,
    base: Set<NodeId>,
    was: Map<NodeId, Entry>,
    ids: Seq<NodeId>,
)
    requires
        list_ready(s, id, depth, placed, docs, n, loose, kept, base, was, ids),
    ensures
        placing::ready(
            s,
            kept,
            id,
            s.unclaimed(id, candidate, placed),
            loose,
            model::deeper(depth),
            was,
            ids,
        ),
{
    assert(shape::bounded(s.nodes)) by {
        reveal(shape::good);
    }
    one_deeper(s, id, depth);
}

/// The child that was reconciled joins those that are placed.
pub proof fn next_placed(
    s: Tx,
    t: Tx,
    id: NodeId,
    depth: nat,
    existing: Option<NodeId>,
    kid: NodeId,
    v: Json,
    placed: Seq<NodeId>,
    docs: Seq<Json>,
    n: nat,
    loose: Set<NodeId>,
    kept: Set<NodeId>,
    base: Set<NodeId>,
    was: Map<NodeId, Entry>,
    ids: Seq<NodeId>,
)
    requires
        list_ready(s, id, depth, placed, docs, n, loose, kept, base, was, ids),
        child_done(s, t, id, existing, kid, v, n, kept, was, ids),
    ensures
        list_ready(
            t,
            id,
            depth,
            placed.push(kid),
            docs.push(v),
            n,
            loose,
            guard::widened(t, kept, kid, n),
            base,
            was,
            ids,
        ),
{
    let more = guard::widened(t, kept, kid, n);
    let now = placed.push(kid);
    let told = docs.push(v);
    guard::guards_kept(s, t, kept, id);
    guard::guards_wider(t, kept, id, kid, v, n);
    assert(forall|x: NodeId| #[trigger]
        kept.contains(x) ==> t.live(x) && t.parent_of(x) == s.parent_of(x) && (s.parent_of(
            x,
        ) matches Some(up) ==> kept.contains(up))) by {
        reveal(guard::guards);
        reveal(guard::keeps);
        assert forall|x: NodeId| #[trigger] kept.contains(x) implies t.live(x) && t.parent_of(x)
            == s.parent_of(x) && (s.parent_of(x) matches Some(up) ==> kept.contains(up)) by {
            assert(kept.contains(x) && s.live(x));
        }
    }
    guard::climbs_guarded(s, t, kept, id, depth);
    assert(!kept.contains(kid)) by {
        assert(guard::within(t, kid, kid, n));
    }
    assert(placing::moored(t, more, loose)) by {
        assert forall|x: NodeId| #[trigger] shape::adrift(t, x) implies more.contains(x) || (
        loose.contains(x) && more.contains(t.parent_of(x)->0)) by {
            if x == kid {
                assert(guard::within(t, kid, kid, n));
            } else {
                assert(placing::adrift_still(s, t, x));
            }
        }
    }
    assert forall|c: NodeId| #[trigger] more.contains(c) implies t.parent_of(c) != Some(id)
        || now.contains(c) by {
        if t.parent_of(c) == Some(id) {
            if kept.contains(c) {
                let j = choose|j: int| 0 <= j < placed.len() && placed[j] == c;
                assert(now[j] == c);
            } else {
                guard::within_shown(t, c, kid, v, n);
                if c != kid {
                    assert(guard::within(t, id, kid, n));
                    assert(kept.contains(id));
                }
                assert(now[now.len() - 1] == kid);
            }
        }
    }
    assert forall|j: int| 0 <= j < now.len() implies kid_in(t, id, #[trigger] now[j], told[j], n, base)
        && forall|x: NodeId| #[trigger] guard::within(t, x, now[j], n) ==> more.contains(x) by {
        if j < placed.len() {
            assert(now[j] == placed[j] && told[j] == docs[j]);
            kid_kept(s, t, kept, id, placed[j], docs[j], n, base);
        } else {
            assert forall|x: NodeId| #[trigger] guard::within(t, x, kid, n) implies !base.contains(
                x,
            ) by {
                assert(!kept.contains(x));
            }
        }
    }
    assert(now.no_duplicates()) by {
        assert forall|i: int, j: int|
            0 <= i < now.len() && 0 <= j < now.len() && i != j implies now[i] != now[j] by {
            if i < placed.len() && j < placed.len() {
                assert(placed[i] != placed[j]);
            } else {
                let k = if i < placed.len() {
                    i
                } else {
                    j
                };
                assert(guard::within(s, placed[k], placed[k], n));
                assert(kept.contains(placed[k]));
            }
        }
    }
}

/// What placing the rest of the children leaves, seen from before the child that
/// was reconciled first.
proof fn rest_done(
    s: Tx,
    t: Tx,
    u: Tx,
    id: NodeId,
    existing: Option<NodeId>,
    kid: NodeId,
    v: Json,
    at: int,
    all: Seq<NodeId>,
    docs: Seq<Json>,
    n: nat,
    kept: Set<NodeId>,
    base: Set<NodeId>,
    was: Map<NodeId, Entry>,
    ids: Seq<NodeId>,
)
    requires
        child_done(s, t, id, existing, kid, v, n, kept, was, ids),
        list_done(t, u, id, all, docs, n, guard::widened(t, kept, kid, n), base, was, ids),
        0 <= at < all.len(),
        all[at] == kid,
    ensures
        list_done(s, u, id, all, docs, n, kept, base, was, ids),
{
    guard::keeps_fewer(t, u, guard::widened(t, kept, kid, n), kept);
    guard::keeps_on(s, t, u, kept);
    assert forall|x: NodeId| #[trigger] shape::adrift(u, x) implies placing::adrift_still(s, u, x)
        || all.contains(x) by {
        if !all.contains(x) {
            assert(placing::adrift_still(t, u, x));
            assert(x != kid);
            assert(placing::adrift_still(s, t, x));
        }
    }
}

/// Placing children starts with none placed.
proof fn none_placed(
    s: Tx,
    id: NodeId,
    depth: nat,
    n: nat,
    loose: Set<NodeId>,
    kept: Set<NodeId>,
    was: Map<NodeId, Entry>,
    ids: Seq<NodeId>,
)
    requires
        node_ready(s, id, depth, loose, kept, was, ids),
    ensures
        list_ready(
            s,
            id,
            depth,
            Seq::empty(),
            Seq::empty(),
            n,
            loose,
            kept.insert(id),
            kept.insert(id),
            was,
            ids,
        ),
{
    assert(s.parent_of(id) != Some(id)) by {
        reveal(shape::good);
        shape::depth_step(s, id);
    }
}

/// Where the children that are placed are all, placing is done.
proof fn all_placed(
    s: Tx,
    id: NodeId,
    depth: nat,
    placed: Seq<NodeId>,
    docs: Seq<Json>,
    n: nat,
    loose: Set<NodeId>,
    kept: Set<NodeId>,
    base: Set<NodeId>,
    was: Map<NodeId, Entry>,
    ids: Seq<NodeId>,
)
    requires
        list_ready(s, id, depth, placed, docs, n, loose, kept, base, was, ids),
    ensures
        list_done(s, s, id, placed, docs, n, kept, base, was, ids),
{
    guard::keeps_self(s, kept);
}

/// What giving an empty node its children leaves.
proof fn installed(
    s: Tx,
    t: Tx,
    id: NodeId,
    kind: Kind,
    docs: Seq<Json>,
    depth: nat,
    n: nat,
    loose: Set<NodeId>,
    kept: Set<NodeId>,
    was: Map<NodeId, Entry>,
    ids: Seq<NodeId>,
)
    requires
        node_ready(s, id, depth, loose, kept, was, ids),
        s.kind(id) is Null,
        s.settle.contains_key(id) || (shape::adrift(s, id) && !was.contains_key(id)),
        n > 0,
        list_done(
            s,
            t,
            id,
            kind.kids(),
            docs,
            (n - 1) as nat,
            kept.insert(id),
            kept.insert(id),
            was,
            ids,
        ),
        shape::tidy(kind),
    ensures
        ({
            let u = model::finish(upkeep::registered(t, id, kind), id, kind);
            &&& shape::good(u, was, ids)
            &&& guard::keeps(s, u, kept)
            &&& u.live(id)
            &&& u.parent_of(id) == s.parent_of(id)
            &&& placing::drifts(s, u, None)
            &&& u.kind(id) == kind
            &&& forall|j: int|
                0 <= j < kind.kids().len() ==> #[trigger] kid_in(
                    u,
                    id,
                    kind.kids()[j],
                    docs[j],
                    (n - 1) as nat,
                    kept.insert(id),
                )
            &&& forall|x: NodeId| #[trigger] guard::within(u, x, id, n) ==> !kept.contains(x)
        }),
{
    let base = kept.insert(id);
    let u = model::finish(upkeep::registered(t, id, kind), id, kind);
    let kids = kind.kids();
    assert(t.live(id) && t.kind(id) is Null && t.parent_of(id) == s.parent_of(id) && (
    s.settle.contains_key(id) ==> t.settle.contains_key(id))) by {
        reveal(guard::keeps);
        assert(base.contains(id) && s.live(id));
    }
    if !s.settle.contains_key(id) {
        assert(base.contains(s.parent_of(id)->0) && s.live(s.parent_of(id)->0)) by {
            reveal(guard::guards);
            assert(base.contains(id));
        }
        guard::still_adrift(s, t, base, id);
    }
    assert(upkeep::suits(t, id, kind)) by {
        assert forall|c: NodeId| #[trigger] kids.contains(c) implies t.parent_of(c) == Some(id) by {
            let j = choose|j: int| 0 <= j < kids.len() && kids[j] == c;
            assert(kid_in(t, id, kids[j], docs[j], (n - 1) as nat, base));
        }
    }
    finished_with(t, id, kind, was, ids);
    guard::keeps_fewer(s, t, base, kept);
    assert forall|c: NodeId| #[trigger] kept.contains(c) implies s.live(c) by {
        reveal(guard::guards);
        assert(base.contains(c));
    }
    assert forall|j: int| 0 <= j < kids.len() implies #[trigger] kid_in(
        t,
        id,
        kids[j],
        docs[j],
        (n - 1) as nat,
        base,
    ) by {
        assert(kids[j] == kids[j]);
    }
    given_kids(s, t, u, id, kids, docs, (n - 1) as nat, kept, was, ids);
    within_kids(u, id, kids, docs, n, kept);
}

/// What giving a node other children leaves.
proof fn rewritten(
    s: Tx,
    t: Tx,
    changed: Tx,
    id: NodeId,
    kind: Kind,
    list: Seq<NodeId>,
    docs: Seq<Json>,
    depth: nat,
    n: nat,
    loose: Set<NodeId>,
    kept: Set<NodeId>,
    was: Map<NodeId, Entry>,
    ids: Seq<NodeId>,
)
    requires
        node_ready(s, id, depth, loose, kept, was, ids),
        n > 0,
        list_done(
            s,
            t,
            id,
            kind.kids(),
            docs,
            (n - 1) as nat,
            kept.insert(id),
            kept.insert(id),
            was,
            ids,
        ),
        shape::tidy(kind),
        upkeep::same_name(t.kind(id), kind),
        (changed == t && t.kind(id) == kind) || changed == t.touch_dirty(id).put_kind(id, kind),
        forall|c: NodeId| #[trigger] t.kids(id).contains(c) ==> list.contains(c),
    ensures
        ({
            let u = changed.release_displaced(id, list, kind.kids().to_set(), 0);
            &&& shape::good(u, was, ids)
            &&& guard::keeps(s, u, kept)
            &&& u.live(id)
            &&& u.parent_of(id) == s.parent_of(id)
            &&& placing::drifts(s, u, None)
            &&& u.kind(id) == kind
            &&& forall|j: int|
                0 <= j < kind.kids().len() ==> #[trigger] kid_in(
                    u,
                    id,
                    kind.kids()[j],
                    docs[j],
                    (n - 1) as nat,
                    kept.insert(id),
                )
            &&& forall|x: NodeId| #[trigger] guard::within(u, x, id, n) ==> !kept.contains(x)
        }),
{
    let base = kept.insert(id);
    let kids = kind.kids();
    let u = changed.release_displaced(id, list, kids.to_set(), 0);
    assert(t.live(id) && t.parent_of(id) == s.parent_of(id)) by {
        reveal(guard::keeps);
        assert(base.contains(id) && s.live(id));
    }
    assert(upkeep::suits(t, id, kind)) by {
        assert forall|c: NodeId| #[trigger] kids.contains(c) implies t.parent_of(c) == Some(id) by {
            let j = choose|j: int| 0 <= j < kids.len() && kids[j] == c;
            assert(kid_in(t, id, kids[j], docs[j], (n - 1) as nat, base));
        }
    }
    placing::given(t, changed, id, kind, list, was, ids);
    guard::keeps_fewer(s, t, base, kept);
    assert forall|c: NodeId| #[trigger] kept.contains(c) implies s.live(c) by {
        reveal(guard::guards);
        assert(base.contains(c));
    }
    assert forall|j: int| 0 <= j < kids.len() implies #[trigger] kid_in(
        t,
        id,
        kids[j],
        docs[j],
        (n - 1) as nat,
        base,
    ) by {
        assert(kids[j] == kids[j]);
    }
    given_kids(s, t, u, id, kids, docs, (n - 1) as nat, kept, was, ids);
    within_kids(u, id, kids, docs, n, kept);
}

/// Children that are placed make their parent show an object's fields.
proof fn fields_shown(
    u: Tx,
    id: NodeId,
    kids: Seq<(Chars, NodeId)>,
    docs: Seq<(Chars, Json)>,
    n: nat,
    base: Set<NodeId>,
)
    requires
        kids.len() == docs.len(),
        forall|j: int| 0 <= j < docs.len() ==> (#[trigger] kids[j]).0 == docs[j].0,
        forall|j: int|
            0 <= j < keyed::items_of(kids).len() ==> #[trigger] kid_in(
                u,
                id,
                keyed::items_of(kids)[j],
                keyed::items_of(docs)[j],
                n,
                base,
            ),
    ensures
        guard::shows_fields(u, id, kids, docs, n),
{
    assert forall|i: int| 0 <= i < kids.len() implies (#[trigger] kids[i]).0 == docs[i].0
        && guard::seated(u, kids[i].1, id) && guard::shows(u, kids[i].1, docs[i].1, n) by {
        assert(kid_in(
            u,
            id,
            keyed::items_of(kids)[i],
            keyed::items_of(docs)[i],
            n,
            base,
        ));
    }
}

/// Keys that are those of placed fields are in order.
proof fn placed_sorted(
    kids: Seq<(Chars, NodeId)>,
    fields: Seq<(Chars, Json)>,
    skip: bool,
)
    requires
        keyed::sorted(fields),
        kids.len() == guard::plain(fields, skip, fields.len() as int).len(),
        forall|j: int|
            0 <= j < kids.len() ==> (#[trigger] kids[j]).0 == guard::plain(
                fields,
                skip,
                fields.len() as int,
            )[j].0,
    ensures
        keyed::sorted(kids),
{
    let docs = guard::plain(fields, skip, fields.len() as int);
    plain_sorted(fields, skip, fields.len() as int);
    assert forall|i: int, j: int| 0 <= i < j < kids.len() implies text::text_less(
        #[trigger] kids[i].0,
        #[trigger] kids[j].0,
    ) by {
        assert(text::text_less(docs[i].0, docs[j].0));
    }
}

/// The children of a node that holds none any more are released.
proof fn released_all(
    s: Tx,
    id: NodeId,
    list: Seq<NodeId>,
    i: int,
    was: Map<NodeId, Entry>,
    ids: Seq<NodeId>,
)
    requires
        shape::good(s, was, ids),
        s.live(id),
        s.kids(id).len() == 0,
        0 <= i <= list.len(),
        list.no_duplicates(),
        forall|j: int| i <= j < list.len() ==> s.parent_of(#[trigger] list[j]) == Some(id),
        forall|j: int| 0 <= j < i ==> s.parent_of(#[trigger] list[j]) is None,
    ensures
        ({
            let t = s.release_each(list, i);
            &&& shape::good(t, was, ids)
            &&& placing::relisted(s, t, id, Seq::empty())
            &&& t.kind(id) == s.kind(id)
            &&& placing::drifts(s, t, None)
            &&& forall|j: int| 0 <= j < list.len() ==> t.parent_of(#[trigger] list[j]) is None
        }),
    decreases list.len() - i,
{
    if i < list.len() {
        let u = s.release(list[i]);
        assert(s.parent_of(list[i]) == Some(id));
        placing::released_one(s, id, list[i], was, ids);
        assert(u == s.release_if_mine(id, list[i]));
        assert(s.kids(id) =~= Seq::<NodeId>::empty());
        assert(u.kids(id) == s.kids(id));
        assert(u.live(id) == s.live(id));
        assert(u.nodes == crate::state::slots::with_parent(s.nodes, list[i], None)) by {
            upkeep::released(s, list[i], was, ids);
        }
        assert forall|j: int| i + 1 <= j < list.len() implies u.parent_of(#[trigger] list[j])
            == Some(id) by {
            assert(list[j] != list[i]);
        }
        assert forall|j: int| 0 <= j < i + 1 implies u.parent_of(#[trigger] list[j]) is None by {}
        released_all(u, id, list, i + 1, was, ids);
        let t = u.release_each(list, i + 1);
        placing::relisted_on(s, u, t, id, Seq::empty());
        assert forall|x: NodeId| #[trigger] shape::adrift(t, x) implies placing::adrift_still(
            s,
            t,
            x,
        ) by {
            assert(placing::adrift_still(u, t, x));
            assert(placing::adrift_still(s, u, x));
        }
    }
}

/// A node that is to become something else altogether.
pub open spec fn cleared(s: Tx, id: NodeId) -> Tx {
    let t = s.touch_dirty(id);
    t.unregister(id).put_kind(id, Kind::Null).release_each(t.kids(id), 0)
}

/// Clearing a node.
proof fn cleared_keeps(
    s: Tx,
    id: NodeId,
    depth: nat,
    loose: Set<NodeId>,
    kept: Set<NodeId>,
    was: Map<NodeId, Entry>,
    ids: Seq<NodeId>,
)
    requires
        node_ready(s, id, depth, loose, kept, was, ids),
    ensures
        node_ready(cleared(s, id), id, depth, loose, kept, was, ids),
        guard::keeps(s, cleared(s, id), kept),
        placing::drifts(s, cleared(s, id), None),
        cleared(s, id).parent_of(id) == s.parent_of(id),
        cleared(s, id).kind(id) is Null,
        cleared(s, id).settle.contains_key(id),
{
    let t = s.touch_dirty(id);
    upkeep::touched_dirty(s, id, was, ids);
    upkeep::emptied(t, id, was, ids);
    let e = t.unregister(id).put_kind(id, Kind::Null);
    let gone = t.kids(id);
    assert(t.unregister(id).nodes == t.nodes);
    assert(e.kids(id) =~= Seq::<NodeId>::empty());
    assert(gone.no_duplicates() && (forall|j: int|
        0 <= j < gone.len() ==> e.parent_of(#[trigger] gone[j]) == Some(id))) by {
        reveal(shape::good);
        assert(t.kids(id).no_duplicates());
        assert forall|j: int| 0 <= j < gone.len() implies e.parent_of(#[trigger] gone[j]) == Some(
            id,
        ) by {
            assert(t.kids(id).contains(gone[j]));
        }
    }
    released_all(e, id, gone, 0, was, ids);
    let r = e.release_each(gone, 0);
    let none = Seq::<NodeId>::empty();
    assert(placing::relisted(s, e, id, none)) by {
        assert(forall|x: NodeId| #[trigger] e.parent_of(x) == s.parent_of(x));
    }
    placing::relisted_on(s, e, r, id, none);
    let base = kept.insert(id);
    assert(s.parent_of(id) != Some(id)) by {
        reveal(shape::good);
        shape::depth_step(s, id);
    }
    assert(r.live(id) == s.live(id));
    placing::relisted_keeps(s, r, id, none, kept);
    assert forall|x: NodeId| #[trigger] shape::adrift(r, x) implies placing::adrift_still(
        s,
        r,
        x,
    ) by {
        assert(placing::adrift_still(e, r, x));
        let p = r.parent_of(x)->0;
        assert(s.parent_of(x) == Some(p));
        if p == id {
            if s.kids(id).contains(x) {
                let j = choose|j: int| 0 <= j < gone.len() && gone[j] == x;
                assert(r.parent_of(gone[j]) is None);
            }
        } else {
            assert(e.kids(p) == s.kids(p));
        }
    }
    assert forall|x: NodeId| #[trigger] base.contains(x) implies r.live(x) && r.parent_of(x)
        == s.parent_of(x) && (guard::placed_once(s, x) ==> guard::placed_once(r, x)) && (
    s.parent_of(x) matches Some(up) ==> base.contains(up)) by {
        reveal(guard::guards);
        assert(s.live(x));
        assert(r.live(x) == s.live(x));
        if x != id {
            assert(kept.contains(x));
        }
        assert(r.parent_of(x) == s.parent_of(x) || s.parent_of(x) == Some(id));
    }
    guard::guards_same(s, r, base, id);
    guard::climbs_guarded(s, r, base, id, depth);
    assert(placing::moored(r, base, loose)) by {
        assert forall|x: NodeId| #[trigger] shape::adrift(r, x) implies base.contains(x) || (
        loose.contains(x) && base.contains(r.parent_of(x)->0)) by {
            assert(placing::adrift_still(s, r, x));
        }
    }
    assert forall|c: NodeId| #[trigger] kept.contains(c) implies r.parent_of(c) != Some(id) by {
        assert(base.contains(c));
    }
    assert(r.settle.contains_key(id)) by {
        assert(e.settle.contains_key(id));
    }
}

/// Pointing one of an async node's two slots at a child.
pub proof fn slotted(
    s: Tx,
    id: NodeId,
    first: bool,
    now: NodeId,
    was: Map<NodeId, Entry>,
    ids: Seq<NodeId>,
)
    requires
        shape::good(s, was, ids),
        s.live(id),
        s.kind(id) is Async,
        s.parent_of(now) == Some(id),
        model::async_slot(s, id, !first) != Some(now),
    ensures
        ({
            let u = model::set_async_slot(s, id, first, now);
            let kind = model::with_kid(
                s.kind(id),
                if first {
                    0
                } else {
                    1
                },
                now,
            );
            &&& shape::good(u, was, ids)
            &&& placing::relisted(s, u, id, kind.kids())
            &&& u.live(id)
            &&& u.kind(id) == kind
            &&& forall|x: NodeId| #[trigger]
                shape::adrift(u, x) ==> placing::adrift_still(s, u, x) && !kind.kids().contains(x)
        }),
{
    let u = model::set_async_slot(s, id, first, now);
    let at: int = if first {
        0
    } else {
        1
    };
    let kind = model::with_kid(s.kind(id), at, now);
    let held = s.kids(id)[at];
    let other = s.kids(id)[1 - at];
    assert(model::async_slot(s, id, first) == Some(held));
    assert(model::async_slot(s, id, !first) == Some(other));
    assert(s.kids(id).contains(held) && s.kids(id).contains(other));
    assert(held != other && s.parent_of(held) == Some(id) && s.parent_of(other) == Some(id)) by {
        reveal(shape::good);
        assert(s.kids(id).no_duplicates());
    }
    placing::with_kid_kids(s.kind(id), at, now);
    assert(kind.kids() =~= s.kids(id).update(at, now));
    assert(kind.kids()[at] == now && kind.kids()[1 - at] == other);
    if held == now {
        assert(u == s);
        assert(kind == s.kind(id));
        assert forall|x: NodeId| #[trigger] shape::adrift(u, x) implies placing::adrift_still(
            s,
            u,
            x,
        ) && !kind.kids().contains(x) by {
            if kind.kids().contains(x) {
                let j = choose|j: int| 0 <= j < kind.kids().len() && kind.kids()[j] == x;
                assert(x == held || x == other);
            }
        }
    } else {
        let t = s.touch_dirty(id).put_kind(id, kind);
        assert(upkeep::suits(s, id, kind)) by {
            assert forall|c: NodeId| #[trigger] kind.kids().contains(c) implies s.parent_of(c)
                == Some(id) by {
                let j = choose|j: int| 0 <= j < kind.kids().len() && kind.kids()[j] == c;
                assert(c == now || c == other);
            }
        }
        placing::given_kind(s, t, id, kind, was, ids);
        assert(!t.kids(id).contains(held)) by {
            if t.kids(id).contains(held) {
                let j = choose|j: int| 0 <= j < kind.kids().len() && kind.kids()[j] == held;
            }
        }
        placing::released_one(t, id, held, was, ids);
        assert(t.kids(id) == kind.kids());
        placing::relisted_on(s, t, u, id, kind.kids());
        assert(u.live(id) == s.live(id));
        assert forall|x: NodeId| #[trigger] shape::adrift(u, x) implies placing::adrift_still(
            s,
            u,
            x,
        ) && !kind.kids().contains(x) by {
            assert(placing::adrift_still(t, u, x));
            assert(t.parent_of(x) == s.parent_of(x));
            let p = s.parent_of(x)->0;
            if kind.kids().contains(x) {
                let j = choose|j: int| 0 <= j < kind.kids().len() && kind.kids()[j] == x;
                assert(x == now || x == other);
                assert(t.kids(id).contains(x));
            }
            if p == id {
                if s.kids(id).contains(x) {
                    let j = choose|j: int| 0 <= j < s.kids(id).len() && s.kids(id)[j] == x;
                    assert(x == held || x == other);
                    assert(t.kids(id)[1 - at] == other);
                }
            } else {
                assert(t.kids(p) == s.kids(p)) by {
                    assert(t.live(p) == s.live(p));
                }
            }
        }
    }
}

/// What is placed stays so when the children are put in their slots.
proof fn list_given(
    s: Tx,
    t: Tx,
    id: NodeId,
    kids: Seq<NodeId>,
    depth: nat,
    placed: Seq<NodeId>,
    docs: Seq<Json>,
    n: nat,
    loose: Set<NodeId>,
    kept: Set<NodeId>,
    base: Set<NodeId>,
    was: Map<NodeId, Entry>,
    ids: Seq<NodeId>,
)
    requires
        list_ready(s, id, depth, placed, docs, n, loose, kept, base, was, ids),
        placing::relisted(s, t, id, kids),
        forall|j: int| 0 <= j < placed.len() ==> kids.contains(#[trigger] placed[j]),
        shape::good(t, was, ids),
        placing::drifts(s, t, None),
        guard::placed_once(t, id),
    ensures
        list_ready(t, id, depth, placed, docs, n, loose, kept, base, was, ids),
{
    assert forall|x: NodeId| #[trigger] kept.contains(x) implies t.live(x) && t.parent_of(x)
        == s.parent_of(x) && (guard::placed_once(s, x) ==> guard::placed_once(t, x)) && (
    s.parent_of(x) matches Some(up) ==> kept.contains(up)) by {
        reveal(guard::guards);
        assert(s.live(x));
        assert(t.live(x) == s.live(x));
        assert(t.parent_of(x) == s.parent_of(x) || (s.parent_of(x) == Some(id) && !kids.contains(
            x,
        )));
        if s.parent_of(x) == Some(id) {
            let j = choose|j: int| 0 <= j < placed.len() && placed[j] == x;
            assert(kids.contains(placed[j]));
        }
    }
    guard::guards_same(s, t, kept, id);
    assert(kept.contains(id)) by {
        reveal(guard::guards);
    }
    guard::climbs_guarded(s, t, kept, id, depth);
    assert(placing::moored(t, kept, loose)) by {
        assert forall|x: NodeId| #[trigger] shape::adrift(t, x) implies kept.contains(x) || (
        loose.contains(x) && kept.contains(t.parent_of(x)->0)) by {
            assert(placing::adrift_still(s, t, x));
        }
    }
    assert forall|j: int| 0 <= j < placed.len() implies kid_in(
        t,
        id,
        #[trigger] placed[j],
        docs[j],
        n,
        base,
    ) && forall|x: NodeId| #[trigger]
        guard::within(t, x, placed[j], n) ==> kept.contains(x) by {
        kid_given(s, t, id, kids, placed[j], docs[j], n, base);
        assert forall|x: NodeId| #[trigger] guard::within(
            t,
            x,
            placed[j],
            n,
        ) implies kept.contains(x) by {
            assert(guard::within(s, x, placed[j], n));
        }
    }
}

/// Setting an async node's status.
pub proof fn status_put(
    s: Tx,
    id: NodeId,
    new: AsyncStatus,
    was: Map<NodeId, Entry>,
    ids: Seq<NodeId>,
)
    requires
        shape::good(s, was, ids),
        s.live(id),
        s.kind(id) is Async,
    ensures
        ({
            let t = model::put_status(s, id, new);
            &&& shape::good(t, was, ids)
            &&& placing::relisted(s, t, id, s.kids(id))
            &&& t.live(id)
            &&& t.kids(id) == s.kids(id)
            &&& t.kind(id) == Kind::Async {
                status: new,
                result: s.kind(id)->Async_result,
                reason: s.kind(id)->Async_reason,
            }
            &&& forall|x: NodeId| #[trigger] t.parent_of(x) == s.parent_of(x)
            &&& placing::drifts(s, t, None)
        }),
{
    let t = model::put_status(s, id, new);
    let kind = Kind::Async {
        status: new,
        result: s.kind(id)->Async_result,
        reason: s.kind(id)->Async_reason,
    };
    assert(kind.kids() =~= s.kids(id));
    assert(upkeep::suits(s, id, kind)) by {
        reveal(shape::good);
        assert(s.kids(id).no_duplicates());
        assert forall|c: NodeId| #[trigger] kind.kids().contains(c) implies s.parent_of(c) == Some(
            id,
        ) by {
            assert(s.kids(id).contains(c));
        }
    }
    placing::given_kind(s, t, id, kind, was, ids);
    assert forall|x: NodeId| #[trigger] shape::adrift(t, x) implies placing::adrift_still(
        s,
        t,
        x,
    ) by {
        let p = t.parent_of(x)->0;
        assert(t.parent_of(x) == s.parent_of(x));
        assert(t.kids(p) == s.kids(p)) by {
            assert(t.live(p) == s.live(p));
        }
    }
}

// -------------------------------------------------------------- the whole of it

/// Documents of ordered keys that nest less than `n` deep.
pub open spec fn sized(docs: Seq<Json>, n: nat) -> bool {
    forall|j: int|
        0 <= j < docs.len() ==> (#[trigger] docs[j]).well_formed() && value::nesting(docs[j]) < n
}

/// Fields whose documents are of ordered keys and nest less than `n` deep.
pub open spec fn sized_fields(fields: Seq<(Chars, Json)>, n: nat) -> bool {
    forall|j: int|
        0 <= j < fields.len() ==> (#[trigger] fields[j]).1.well_formed() && value::nesting(
            fields[j].1,
        ) < n
}

/// What the parts of a document are.
proof fn parts_sized(v: Json, n: nat)
    requires
        v.well_formed(),
        value::nesting(v) < n,
    ensures
        marker::form_of(v) matches Form::Array(items) ==> sized(items, (n - 1) as nat),
        marker::form_of(v) matches Form::Object(fields) ==> keyed::sorted(fields) && sized_fields(
            fields,
            (n - 1) as nat,
        ),
        marker::form_of(v) matches Form::Store { fields, .. } ==> keyed::sorted(fields)
            && sized_fields(fields, (n - 1) as nat),
        marker::form_of(v) matches Form::Async { result, reason, .. } ==> result.well_formed()
            && reason.well_formed() && value::nesting(result) < n - 1 && value::nesting(reason) < n
            - 1,
{
    match v {
        Json::Array(items) => {
            assert forall|j: int| 0 <= j < items.len() implies (#[trigger] items[j]).well_formed()
                && value::nesting(items[j]) < n - 1 by {
                value::item_nesting(items, j);
            }
        },
        Json::Object(fields) => {
            assert forall|j: int| 0 <= j < fields.len() implies (
            #[trigger] fields[j]).1.well_formed() && value::nesting(fields[j].1) < n - 1 by {
                value::field_nesting(fields, j);
            }
            model::form_nesting(v);
            keyed::key_index_meaning(fields, marker::ASYNC_RESULT_KEY@);
            keyed::key_index_meaning(fields, marker::ASYNC_REASON_KEY@);
        },
        _ => {},
    }
}

/// The fields that are placed keep their order, and come before the next one.
proof fn plain_sorted(fields: Seq<(Chars, Json)>, skip: bool, i: int)
    requires
        keyed::sorted(fields),
        0 <= i <= fields.len(),
    ensures
        keyed::sorted(guard::plain(fields, skip, i)),
        forall|j: int, k: int|
            0 <= j < guard::plain(fields, skip, i).len() && i <= k < fields.len()
                ==> text::text_less(
                (#[trigger] guard::plain(fields, skip, i)[j]).0,
                (#[trigger] fields[k]).0,
            ),
    decreases i,
{
    if i > 0 {
        plain_sorted(fields, skip, i - 1);
        let rest = guard::plain(fields, skip, i - 1);
        let all = guard::plain(fields, skip, i);
        assert forall|j: int, k: int| 0 <= j < all.len() && i <= k < fields.len() implies text::text_less(
            (#[trigger] all[j]).0,
            (#[trigger] fields[k]).0,
        ) by {
            if j < rest.len() {
                assert(all[j] == rest[j]);
            } else {
                assert(all[j] == fields[i - 1]);
            }
        }
        assert forall|j: int, k: int| 0 <= j < k < all.len() implies text::text_less(
            #[trigger] all[j].0,
            #[trigger] all[k].0,
        ) by {
            assert(all[j] == rest[j]);
            if k < rest.len() {
                assert(all[k] == rest[k]);
            } else {
                assert(all[k] == fields[i - 1]);
                assert(text::text_less(rest[j].0, fields[i - 1].0));
            }
        }
    }
}

pub proof fn place_items_keeps(
    s: Tx,
    id: NodeId,
    old: Seq<NodeId>,
    items: Seq<Json>,
    owner: Path,
    depth: nat,
    i: int,
    placed: Seq<NodeId>,
    ids: Seq<NodeId>,
    n: nat,
    loose: Set<NodeId>,
    kept: Set<NodeId>,
    base: Set<NodeId>,
    was: Map<NodeId, Entry>,
)
    requires
        0 <= i <= items.len(),
        list_ready(s, id, depth, placed, items.take(i), n, loose, kept, base, was, ids),
        sized(items, n),
        model::place_items(s, id, old, items, owner, depth, i, placed, ids).1 is Ok,
        model::place_items(s, id, old, items, owner, depth, i, placed, ids).0.allocated.len()
            <= ids.len(),
    ensures
        ({
            let (t, new) = model::place_items(s, id, old, items, owner, depth, i, placed, ids);
            &&& list_done(s, t, id, new->Ok_0, items, n, kept, base, was, ids)
            &&& forall|j: int| 0 <= j < i ==> new->Ok_0[j] == #[trigger] placed[j]
        }),
    decreases model::nesting_of_items(items), 1int, items.len() - i,
{
    if i >= items.len() {
        assert(items.take(i) =~= items);
        guard::keeps_self(s, kept);
    } else {
        value::item_nesting(items, i);
        let candidate = if i < old.len() {
            Some(old[i])
        } else {
            None
        };
        let existing = s.unclaimed(id, candidate, placed);
        let deep = model::deeper(depth);
        let v = items[i];
        next_ready(s, id, depth, candidate, placed, items.take(i), n, loose, kept, base, was, ids);
        let (t, child) = model::reconcile_child(s, id, existing, v, owner, deep, ids);
        let kid = child->Ok_0;
        growth::place_items_grows(t, id, old, items, owner, depth, i + 1, placed.push(kid), ids);
        reconcile_child_keeps(s, id, existing, v, owner, deep, ids, n, loose, kept, was);
        next_placed(
            s,
            t,
            id,
            depth,
            existing,
            kid,
            v,
            placed,
            items.take(i),
            n,
            loose,
            kept,
            base,
            was,
            ids,
        );
        let more = guard::widened(t, kept, kid, n);
        assert(items.take(i).push(v) =~= items.take(i + 1));
        place_items_keeps(
            t,
            id,
            old,
            items,
            owner,
            depth,
            i + 1,
            placed.push(kid),
            ids,
            n,
            loose,
            more,
            base,
            was,
        );
        let (u, new) = model::place_items(
            t,
            id,
            old,
            items,
            owner,
            depth,
            i + 1,
            placed.push(kid),
            ids,
        );
        let all = new->Ok_0;
        assert(all[i] == placed.push(kid)[i]);
        rest_done(s, t, u, id, existing, kid, v, i, all, items, n, kept, base, was, ids);
        assert forall|j: int| 0 <= j < i implies all[j] == #[trigger] placed[j] by {
            assert(placed.push(kid)[j] == placed[j]);
        }
    }
}

pub proof fn place_fields_keeps(
    s: Tx,
    id: NodeId,
    old: Seq<(Chars, NodeId)>,
    fields: Seq<(Chars, Json)>,
    store: bool,
    owner: Path,
    depth: nat,
    i: int,
    placed: Seq<(Chars, NodeId)>,
    ids: Seq<NodeId>,
    n: nat,
    loose: Set<NodeId>,
    kept: Set<NodeId>,
    base: Set<NodeId>,
    was: Map<NodeId, Entry>,
)
    requires
        0 <= i <= fields.len(),
        list_ready(
            s,
            id,
            depth,
            keyed::items_of(placed),
            keyed::items_of(guard::plain(fields, store, i)),
            n,
            loose,
            kept,
            base,
            was,
            ids,
        ),
        forall|j: int|
            0 <= j < placed.len() ==> (#[trigger] placed[j]).0 == guard::plain(
                fields,
                store,
                i,
            )[j].0,
        sized_fields(fields, n),
        model::place_fields(s, id, old, fields, store, owner, depth, i, placed, ids).1 is Ok,
        model::place_fields(
            s,
            id,
            old,
            fields,
            store,
            owner,
            depth,
            i,
            placed,
            ids,
        ).0.allocated.len() <= ids.len(),
    ensures
        ({
            let (t, new) = model::place_fields(
                s,
                id,
                old,
                fields,
                store,
                owner,
                depth,
                i,
                placed,
                ids,
            );
            let docs = guard::plain(fields, store, fields.len() as int);
            &&& list_done(
                s,
                t,
                id,
                keyed::items_of(new->Ok_0),
                keyed::items_of(docs),
                n,
                kept,
                base,
                was,
                ids,
            )
            &&& forall|j: int| 0 <= j < docs.len() ==> (#[trigger] new->Ok_0[j]).0 == docs[j].0
            &&& placed.len() <= new->Ok_0.len()
            &&& forall|j: int| 0 <= j < placed.len() ==> new->Ok_0[j] == #[trigger] placed[j]
        }),
    decreases model::nesting_of_fields(fields), 1int, fields.len() - i,
{
    if i >= fields.len() {
        guard::keeps_self(s, kept);
    } else if store && fields[i].0 == STORE_ID_KEY@ {
        assert(guard::plain(fields, store, i + 1) == guard::plain(fields, store, i));
        place_fields_keeps(
            s,
            id,
            old,
            fields,
            store,
            owner,
            depth,
            i + 1,
            placed,
            ids,
            n,
            loose,
            kept,
            base,
            was,
        );
    } else {
        value::field_nesting(fields, i);
        let done = guard::plain(fields, store, i);
        let nodes = keyed::items_of(placed);
        let docs = keyed::items_of(done);
        let candidate = keyed::lookup(old, fields[i].0);
        let existing = s.unclaimed(id, candidate, nodes);
        let deep = model::deeper(depth);
        let v = fields[i].1;
        next_ready(s, id, depth, candidate, nodes, docs, n, loose, kept, base, was, ids);
        let (t, child) = model::reconcile_child(s, id, existing, v, owner, deep, ids);
        let kid = child->Ok_0;
        let next = placed.push((fields[i].0, kid));
        growth::place_fields_grows(t, id, old, fields, store, owner, depth, i + 1, next, ids);
        reconcile_child_keeps(s, id, existing, v, owner, deep, ids, n, loose, kept, was);
        next_placed(
            s,
            t,
            id,
            depth,
            existing,
            kid,
            v,
            nodes,
            docs,
            n,
            loose,
            kept,
            base,
            was,
            ids,
        );
        let more = guard::widened(t, kept, kid, n);
        assert(keyed::items_of(next) =~= nodes.push(kid));
        assert(keyed::items_of(guard::plain(fields, store, i + 1)) =~= docs.push(v));
        assert forall|j: int| 0 <= j < next.len() implies (#[trigger] next[j]).0 == guard::plain(
            fields,
            store,
            i + 1,
        )[j].0 by {
            if j < placed.len() {
                assert(next[j] == placed[j]);
            }
        }
        place_fields_keeps(
            t,
            id,
            old,
            fields,
            store,
            owner,
            depth,
            i + 1,
            next,
            ids,
            n,
            loose,
            more,
            base,
            was,
        );
        let (u, new) = model::place_fields(
            t,
            id,
            old,
            fields,
            store,
            owner,
            depth,
            i + 1,
            next,
            ids,
        );
        let all = new->Ok_0;
        assert(all[placed.len() as int] == next[placed.len() as int]);
        assert(keyed::items_of(all)[placed.len() as int] == kid);
        rest_done(
            s,
            t,
            u,
            id,
            existing,
            kid,
            v,
            placed.len() as int,
            keyed::items_of(all),
            keyed::items_of(guard::plain(fields, store, fields.len() as int)),
            n,
            kept,
            base,
            was,
            ids,
        );
        assert forall|j: int| 0 <= j < placed.len() implies all[j] == #[trigger] placed[j] by {
            assert(next[j] == placed[j]);
        }
    }
}

/// Whether this op has placed what a document names.
pub open spec fn claimed_for(s: Tx, v: Json, owner: Path) -> bool {
    &&& marker::form_of(v) matches Form::Store { id: path, .. } ==> s.claimed.contains(path)
    &&& marker::form_of(v) matches Form::Collection { name } ==> s.claimed_streams.contains(
        (owner, name),
    )
}

/// A state that claims more is as ready.
proof fn ready_claimed(
    s: Tx,
    t: Tx,
    kept: Set<NodeId>,
    parent: NodeId,
    existing: Option<NodeId>,
    loose: Set<NodeId>,
    depth: nat,
    was: Map<NodeId, Entry>,
    ids: Seq<NodeId>,
)
    requires
        placing::ready(s, kept, parent, existing, loose, depth, was, ids),
        t == (Tx { claimed: t.claimed, claimed_streams: t.claimed_streams, ..s }),
        s.claimed.subset_of(t.claimed),
        s.claimed_streams.subset_of(t.claimed_streams),
    ensures
        placing::ready(t, kept, parent, existing, loose, depth, was, ids),
        guard::keeps(s, t, kept),
        placing::drifts(s, t, None),
        forall|x: NodeId| #[trigger] s.is_ancestor(x, parent) == t.is_ancestor(x, parent),
{
    assert(shape::good(t, was, ids)) by {
        reveal(shape::good);
        upkeep::alike_keeps(s, t, was, ids);
    }
    assert forall|x: NodeId| #[trigger] kept.contains(x) implies t.live(x) && t.parent_of(x)
        == s.parent_of(x) && (guard::placed_once(s, x) ==> guard::placed_once(t, x)) by {
        reveal(guard::guards);
    }
    guard::guards_same(s, t, kept, parent);
    assert(placing::moored(t, kept, loose)) by {
        assert forall|x: NodeId| #[trigger] shape::adrift(t, x) implies kept.contains(x) || (
        loose.contains(x) && kept.contains(t.parent_of(x)->0)) by {
            assert(shape::adrift(s, x));
        }
    }
    assert(guard::keeps(s, t, kept)) by {
        reveal(guard::keeps);
        assert forall|x: NodeId| #[trigger] kept.contains(x) && s.live(x) implies t.parent_of(x)
            == s.parent_of(x) && guard::eroded(s, kept, s.kind(x), t.kind(x)) by {
            placing::eroded_self(s, kept, s.kind(x));
        }
    }
    assert forall|x: NodeId| #[trigger] shape::adrift(t, x) implies placing::adrift_still(
        s,
        t,
        x,
    ) by {
        assert(shape::adrift(s, x));
    }
    assert forall|x: NodeId| #[trigger] s.is_ancestor(x, parent) == t.is_ancestor(x, parent) by {
        met_same(s, t, x, Some(parent), model::MAX_WALK as nat);
    }
}

pub proof fn met_same(s: Tx, t: Tx, id: NodeId, at: Option<NodeId>, walk: nat)
    requires
        s.nodes == t.nodes,
    ensures
        s.met_above(id, at, walk) == t.met_above(id, at, walk),
    decreases walk,
{
    if let Some(current) = at {
        if current != id && walk > 1 {
            met_same(s, t, id, s.parent_of(current), (walk - 1) as nat);
        }
    }
}

/// What is done from a state that claims more is done.
proof fn child_done_claimed(
    s: Tx,
    t: Tx,
    u: Tx,
    parent: NodeId,
    existing: Option<NodeId>,
    kid: NodeId,
    v: Json,
    n: nat,
    kept: Set<NodeId>,
    was: Map<NodeId, Entry>,
    ids: Seq<NodeId>,
)
    requires
        guard::keeps(s, t, kept),
        placing::drifts(s, t, None),
        child_done(t, u, parent, existing, kid, v, n, kept, was, ids),
    ensures
        child_done(s, u, parent, existing, kid, v, n, kept, was, ids),
{
    guard::keeps_on(s, t, u, kept);
    assert forall|x: NodeId| #[trigger] shape::adrift(u, x) implies placing::adrift_still(s, u, x)
        || Some(kid) == Some(x) by {
        if x != kid {
            assert(placing::adrift_still(t, u, x));
            assert(placing::adrift_still(s, t, x));
        }
    }
    if existing == Some(kid) {
        assert forall|x: NodeId| #[trigger] shape::adrift(u, x) implies placing::adrift_still(
            s,
            u,
            x,
        ) by {
            assert(placing::adrift_still(t, u, x));
            assert(placing::adrift_still(s, t, x));
        }
    }
}

/// A child that is ready to be reconciled may be rewritten.
proof fn child_ready(
    s: Tx,
    parent: NodeId,
    id: NodeId,
    loose: Set<NodeId>,
    depth: nat,
    kept: Set<NodeId>,
    was: Map<NodeId, Entry>,
    ids: Seq<NodeId>,
)
    requires
        shape::good(s, was, ids),
        guard::guards(s, kept, parent),
        placing::moored(s, kept.insert(id), loose),
        s.parent_of(id) == Some(parent),
        !kept.contains(id),
        shape::climbs(s.nodes, id, depth),
    ensures
        node_ready(s, id, depth, loose, kept, was, ids),
{
    guard::guards_deeper(s, kept, parent, id);
    assert forall|c: NodeId| #[trigger] kept.contains(c) implies s.parent_of(c) != Some(id) by {
        reveal(guard::guards);
    }
}

/// A node that was rewritten as a child is done.
proof fn child_rewritten(
    s: Tx,
    t: Tx,
    parent: NodeId,
    existing: Option<NodeId>,
    id: NodeId,
    v: Json,
    n: nat,
    kept: Set<NodeId>,
    was: Map<NodeId, Entry>,
    ids: Seq<NodeId>,
)
    requires
        node_done(s, t, id, v, n, kept, was, ids),
        s.parent_of(id) == Some(parent),
        guard::placed_once(t, id),
        s.live(parent),
        kept.contains(parent),
        existing == Some(id) || shape::adrift(s, id),
    ensures
        child_done(s, t, parent, existing, id, v, n, kept, was, ids),
{
    if existing != Some(id) {
        guard::still_adrift(s, t, kept, id);
    }
}

pub proof fn reconcile_child_keeps(
    s: Tx,
    parent: NodeId,
    existing: Option<NodeId>,
    v: Json,
    owner: Path,
    depth: nat,
    ids: Seq<NodeId>,
    n: nat,
    loose: Set<NodeId>,
    kept: Set<NodeId>,
    was: Map<NodeId, Entry>,
)
    requires
        placing::ready(s, kept, parent, existing, loose, depth, was, ids),
        v.well_formed(),
        value::nesting(v) < n,
        model::reconcile_child(s, parent, existing, v, owner, depth, ids).1 is Ok,
        model::reconcile_child(s, parent, existing, v, owner, depth, ids).0.allocated.len()
            <= ids.len(),
    ensures
        child_done(
            s,
            model::reconcile_child(s, parent, existing, v, owner, depth, ids).0,
            parent,
            existing,
            model::reconcile_child(s, parent, existing, v, owner, depth, ids).1->Ok_0,
            v,
            n,
            kept,
            was,
            ids,
        ),
    decreases value::nesting(v), 5int, 0int,
{
    let (u, child) = model::reconcile_child(s, parent, existing, v, owner, depth, ids);
    let kid = child->Ok_0;
    assert(kept.contains(parent) && s.live(parent)) by {
        reveal(guard::guards);
    }
    match marker::form_of(v) {
        Form::Store { id: path, .. } => {
            let t = s.claim(path);
            ready_claimed(s, t, kept, parent, existing, loose, depth, was, ids);
            if existing is Some && t.is_store(existing->0, path) {
                let id = existing->0;
                assert(placing::moored(t, kept.insert(id), loose));
                child_ready(t, parent, id, loose, depth, kept, was, ids);
                reconcile_keeps(t, id, v, owner, depth, ids, n, loose, kept, was);
                assert(guard::placed_once(u, id)) by {
                    reveal(guard::keeps);
                    assert(u.claimed.contains(path));
                }
                child_rewritten(t, u, parent, existing, id, v, n, kept, was, ids);
            } else if !s.claimed.contains(path) && t.adoptable_store(
                parent,
                existing,
                path,
            ) is Some {
                let found = t.adoptable_store(parent, existing, path)->0;
                assert(!kept.contains(found)) by {
                    reveal(guard::guards);
                    assert(s.is_ancestor(found, parent) == t.is_ancestor(found, parent));
                }
                reconcile_adopted_keeps(
                    t,
                    parent,
                    found,
                    existing,
                    v,
                    owner,
                    depth,
                    ids,
                    n,
                    loose,
                    kept,
                    was,
                );
            } else {
                build_keeps(t, parent, existing, v, owner, depth, ids, n, loose, kept, was);
            }
            child_done_claimed(s, t, u, parent, existing, kid, v, n, kept, was, ids);
        },
        Form::Collection { name } => {
            let t = s.claim_stream((owner, name));
            ready_claimed(s, t, kept, parent, existing, loose, depth, was, ids);
            if existing is Some && t.is_collection(existing->0, name) {
                let id = existing->0;
                ready_claimed(s, u, kept, parent, existing, loose, depth, was, ids);
                assert(guard::shows(u, id, v, n));
                assert forall|x: NodeId| #[trigger] guard::within(
                    u,
                    x,
                    id,
                    n,
                ) implies !kept.contains(x) by {}
            } else {
                if !s.claimed_streams.contains((owner, name)) && t.adoptable_stream(
                    parent,
                    existing,
                    (owner, name),
                ) is Some {
                    let found = t.adoptable_stream(parent, existing, (owner, name))->0;
                    assert(shape::is_stream(t, found, (owner, name))) by {
                        reveal(shape::good);
                        assert(t.streams.contains_key((owner, name)));
                    }
                    assert(!kept.contains(found)) by {
                        reveal(guard::guards);
                        assert(s.is_ancestor(found, parent) == t.is_ancestor(found, parent));
                    }
                    reconcile_adopted_keeps(
                        t,
                        parent,
                        found,
                        existing,
                        v,
                        owner,
                        depth,
                        ids,
                        n,
                        loose,
                        kept,
                        was,
                    );
                } else {
                    reconcile_slot_keeps(
                        t,
                        parent,
                        existing,
                        v,
                        owner,
                        depth,
                        ids,
                        n,
                        loose,
                        kept,
                        was,
                    );
                }
                child_done_claimed(s, t, u, parent, existing, kid, v, n, kept, was, ids);
            }
        },
        _ => {
            reconcile_slot_keeps(s, parent, existing, v, owner, depth, ids, n, loose, kept, was);
        },
    }
}

proof fn reconcile_adopted_keeps(
    s: Tx,
    parent: NodeId,
    found: NodeId,
    existing: Option<NodeId>,
    v: Json,
    owner: Path,
    depth: nat,
    ids: Seq<NodeId>,
    n: nat,
    loose: Set<NodeId>,
    kept: Set<NodeId>,
    was: Map<NodeId, Entry>,
)
    requires
        placing::ready(s, kept, parent, existing, loose, depth, was, ids),
        v.well_formed(),
        value::nesting(v) < n,
        s.live(found),
        found != s.root,
        Some(found) != existing,
        !kept.contains(found),
        !s.is_ancestor(found, parent),
        claimed_for(s, v, owner),
        marker::form_of(v) matches Form::Store { id: path, .. } ==> s.is_store(found, path),
        marker::form_of(v) matches Form::Collection { name } ==> shape::is_stream(
            s,
            found,
            (owner, name),
        ),
        marker::form_of(v) is Store || marker::form_of(v) is Collection,
        model::reconcile_adopted(s, parent, found, v, owner, depth, ids).1 is Ok,
        model::reconcile_adopted(s, parent, found, v, owner, depth, ids).0.allocated.len()
            <= ids.len(),
    ensures
        child_done(
            s,
            model::reconcile_adopted(s, parent, found, v, owner, depth, ids).0,
            parent,
            existing,
            model::reconcile_adopted(s, parent, found, v, owner, depth, ids).1->Ok_0,
            v,
            n,
            kept,
            was,
            ids,
        ),
    decreases value::nesting(v), 4int, 1int,
{
    let t = s.adopt(parent, found, ids).0;
    let u = model::reconcile(t, found, v, owner, depth, ids).0;
    growth::reconcile_grows(t, found, v, owner, depth, ids);
    placing::adopted(s, parent, found, existing, loose, depth, kept, was, ids);
    guard::guards_kept(s, t, kept, parent);
    assert(placing::moored(t, kept.insert(found), loose)) by {
        assert forall|x: NodeId| #[trigger] shape::adrift(t, x) implies kept.insert(found).contains(
            x,
        ) || (loose.contains(x) && kept.insert(found).contains(t.parent_of(x)->0)) by {
            if x != found {
                assert(placing::adrift_still(s, t, x));
            }
        }
    }
    child_ready(t, parent, found, loose, depth, kept, was, ids);
    reconcile_keeps(t, found, v, owner, depth, ids, n, loose, kept, was);
    assert(guard::placed_once(u, found)) by {
        reveal(guard::keeps);
    }
    assert(kept.contains(parent) && t.live(parent)) by {
        reveal(guard::guards);
    }
    child_rewritten(t, u, parent, existing, found, v, n, kept, was, ids);
    guard::keeps_on(s, t, u, kept);
    assert forall|x: NodeId| #[trigger] shape::adrift(u, x) implies placing::adrift_still(s, u, x)
        || Some(found) == Some(x) by {
        if x != found {
            assert(placing::adrift_still(t, u, x));
            assert(placing::adrift_still(s, t, x));
        }
    }
}

proof fn reconcile_slot_keeps(
    s: Tx,
    parent: NodeId,
    existing: Option<NodeId>,
    v: Json,
    owner: Path,
    depth: nat,
    ids: Seq<NodeId>,
    n: nat,
    loose: Set<NodeId>,
    kept: Set<NodeId>,
    was: Map<NodeId, Entry>,
)
    requires
        placing::ready(s, kept, parent, existing, loose, depth, was, ids),
        v.well_formed(),
        value::nesting(v) < n,
        claimed_for(s, v, owner),
        !(marker::form_of(v) is Store),
        marker::form_of(v) matches Form::Collection { name } ==> (existing matches Some(e)
            ==> !s.is_collection(e, name)),
        model::reconcile_slot(s, parent, existing, v, owner, depth, ids).1 is Ok,
        model::reconcile_slot(s, parent, existing, v, owner, depth, ids).0.allocated.len()
            <= ids.len(),
    ensures
        child_done(
            s,
            model::reconcile_slot(s, parent, existing, v, owner, depth, ids).0,
            parent,
            existing,
            model::reconcile_slot(s, parent, existing, v, owner, depth, ids).1->Ok_0,
            v,
            n,
            kept,
            was,
            ids,
        ),
    decreases value::nesting(v), 4int, 1int,
{
    match existing {
        Some(id) => {
            if s.is_store_node(id) {
                build_keeps(s, parent, existing, v, owner, depth, ids, n, loose, kept, was);
            } else {
                let u = model::reconcile(s, id, v, owner, depth, ids).0;
                assert(placing::moored(s, kept.insert(id), loose));
                child_ready(s, parent, id, loose, depth, kept, was, ids);
                reconcile_keeps(s, id, v, owner, depth, ids, n, loose, kept, was);
                assert(guard::placed_once(u, id)) by {
                    reveal(guard::keeps);
                }
                assert(kept.contains(parent) && s.live(parent)) by {
                    reveal(guard::guards);
                }
                child_rewritten(s, u, parent, existing, id, v, n, kept, was, ids);
            }
        },
        None => {
            build_keeps(s, parent, existing, v, owner, depth, ids, n, loose, kept, was);
        },
    }
}

proof fn build_keeps(
    s: Tx,
    parent: NodeId,
    existing: Option<NodeId>,
    v: Json,
    owner: Path,
    depth: nat,
    ids: Seq<NodeId>,
    n: nat,
    loose: Set<NodeId>,
    kept: Set<NodeId>,
    was: Map<NodeId, Entry>,
)
    requires
        placing::ready(s, kept, parent, existing, loose, depth, was, ids),
        v.well_formed(),
        value::nesting(v) < n,
        claimed_for(s, v, owner),
        model::build(s, parent, v, owner, depth, ids).1 is Ok,
        model::build(s, parent, v, owner, depth, ids).0.allocated.len() <= ids.len(),
    ensures
        child_done(
            s,
            model::build(s, parent, v, owner, depth, ids).0,
            parent,
            existing,
            model::build(s, parent, v, owner, depth, ids).1->Ok_0,
            v,
            n,
            kept,
            was,
            ids,
        ),
    decreases value::nesting(v), 3int, 0int,
{
    let (t, made) = s.make(Some(parent), ids);
    let id = made->Ok_0;
    let u = model::install(t, id, v, owner, depth, ids).0;
    growth::install_grows(t, id, v, owner, depth, ids);
    shape::climbs_more(s.nodes, parent, (depth - 1) as nat, (MAX_DEPTH - 1) as nat);
    upkeep::made(s, parent, was, ids);
    assert(kept.contains(parent) && s.live(parent)) by {
        reveal(guard::guards);
    }
    assert(!kept.contains(id)) by {
        reveal(guard::guards);
    }
    assert(guard::keeps(s, t, kept)) by {
        reveal(guard::keeps);
        assert forall|x: NodeId| #[trigger] kept.contains(x) && s.live(x) implies t.parent_of(x)
            == s.parent_of(x) && guard::eroded(s, kept, s.kind(x), t.kind(x)) by {
            placing::eroded_self(s, kept, s.kind(x));
        }
    }
    guard::guards_kept(s, t, kept, parent);
    assert forall|x: NodeId| #[trigger] shape::adrift(t, x) implies placing::adrift_still(s, t, x)
        || x == id by {
        if x != id {
            let p = t.parent_of(x)->0;
            if p == id {
                assert(s.parent_of(x) == Some(id));
                reveal(shape::good);
                shape::depth_step(s, x);
            } else {
                assert(t.kids(p) == s.kids(p));
            }
        }
    }
    assert(placing::moored(t, kept.insert(id), loose)) by {
        assert forall|x: NodeId| #[trigger] shape::adrift(t, x) implies kept.insert(id).contains(x)
            || (loose.contains(x) && kept.insert(id).contains(t.parent_of(x)->0)) by {
            if x != id {
                assert(placing::adrift_still(s, t, x));
            }
        }
    }
    shape::climbs_cut(s.nodes, t.nodes, parent, (depth - 1) as nat);
    assert(shape::climbs(t.nodes, id, depth));
    child_ready(t, parent, id, loose, depth, kept, was, ids);
    install_keeps(t, id, v, owner, depth, ids, n, loose, kept, was);
    assert(guard::placed_once(u, id)) by {
        reveal(guard::keeps);
    }
    child_rewritten(t, u, parent, existing, id, v, n, kept, was, ids);
    guard::keeps_on(s, t, u, kept);
    assert forall|x: NodeId| #[trigger] shape::adrift(u, x) implies placing::adrift_still(s, u, x)
        || Some(id) == Some(x) by {
        if x != id {
            assert(placing::adrift_still(t, u, x));
            assert(placing::adrift_still(s, t, x));
        }
    }
}

/// What installing a value makes of a stream slot.
pub open spec fn named_for(t: Tx, id: NodeId, v: Json, owner: Path) -> bool {
    marker::form_of(v) matches Form::Collection { name } ==> t.stream_of(id) == (owner, name)
}

pub proof fn reconcile_keeps(
    s: Tx,
    id: NodeId,
    v: Json,
    owner: Path,
    depth: nat,
    ids: Seq<NodeId>,
    n: nat,
    loose: Set<NodeId>,
    kept: Set<NodeId>,
    was: Map<NodeId, Entry>,
)
    requires
        node_ready(s, id, depth, loose, kept, was, ids),
        v.well_formed(),
        value::nesting(v) < n,
        model::reconcile(s, id, v, owner, depth, ids).1 is Ok,
        model::reconcile(s, id, v, owner, depth, ids).0.allocated.len() <= ids.len(),
    ensures
        node_done(
            s,
            model::reconcile(s, id, v, owner, depth, ids).0,
            id,
            v,
            n,
            kept,
            was,
            ids,
        ),
        (model::unchanged(s.kind(id), marker::form_of(v)) && model::reconcile(
            s,
            id,
            v,
            owner,
            depth,
            ids,
        ).0 == s) || named_for(model::reconcile(s, id, v, owner, depth, ids).0, id, v, owner),
    decreases value::nesting(v), 4int, 0int,
{
    let form = marker::form_of(v);
    let base = kept.insert(id);
    let m = (n - 1) as nat;
    let none = Seq::<NodeId>::empty();
    let u = model::reconcile(s, id, v, owner, depth, ids).0;
    parts_sized(v, n);
    model::form_nesting(v);
    if model::unchanged(s.kind(id), form) {
        guard::keeps_self(s, kept);
        assert(guard::shows(s, id, v, n));
        assert forall|x: NodeId| #[trigger] guard::within(s, x, id, n) implies !kept.contains(
            x,
        ) by {}
        assert forall|x: NodeId| #[trigger] shape::adrift(s, x) implies placing::adrift_still(
            s,
            s,
            x,
        ) by {}
    } else {
        match (s.kind(id), form) {
            (Kind::Object(old), Form::Object(fields)) => {
                let docs = guard::plain(fields, false, fields.len() as int);
                let (t, new) = model::place_fields(
                    s,
                    id,
                    old,
                    fields,
                    false,
                    owner,
                    depth,
                    0,
                    Seq::empty(),
                    ids,
                );
                let kids = new->Ok_0;
                let kind = Kind::Object(kids);
                growth::install_fields_makes_none(t, id, old, kind, kids);
                all_fields_keeps(
                    s,
                    id,
                    old,
                    fields,
                    false,
                    owner,
                    depth,
                    ids,
                    m,
                    loose,
                    kept,
                    was,
                );
                placed_sorted(kids, fields, false);
                kind_kept(s, t, id, base);
                refielded(
                    s,
                    t,
                    id,
                    old,
                    kind,
                    kids,
                    docs,
                    depth,
                    n,
                    loose,
                    kept,
                    was,
                    ids,
                );
                fields_shown(u, id, kids, docs, m, base);
            },
            (Kind::Store { id: path, fields: old }, Form::Store { id: held, fields }) => {
                if path == held {
                    let docs = guard::plain(fields, true, fields.len() as int);
                    let (t, new) = model::place_fields(
                        s,
                        id,
                        old,
                        fields,
                        true,
                        path,
                        depth,
                        0,
                        Seq::empty(),
                        ids,
                    );
                    let kids = new->Ok_0;
                    let kind = Kind::Store { id: path, fields: kids };
                    growth::install_fields_makes_none(t, id, old, kind, kids);
                    all_fields_keeps(
                        s,
                        id,
                        old,
                        fields,
                        true,
                        path,
                        depth,
                        ids,
                        m,
                        loose,
                        kept,
                        was,
                    );
                    placed_sorted(kids, fields, true);
                    kind_kept(s, t, id, base);
                    refielded(
                        s,
                        t,
                        id,
                        old,
                        kind,
                        kids,
                        docs,
                        depth,
                        n,
                        loose,
                        kept,
                        was,
                        ids,
                    );
                    fields_shown(u, id, kids, docs, m, base);
                } else {
                    rebuild_keeps(s, id, v, owner, depth, ids, n, loose, kept, was);
                }
            },
            (Kind::Array(old), Form::Array(items)) => {
                let (t, new) = model::place_items(s, id, old, items, owner, depth, 0, none, ids);
                let kids = new->Ok_0;
                let kind = Kind::Array(kids);
                growth::install_array_makes_none(t, id, old, kids);
                none_placed(s, id, depth, m, loose, kept, was, ids);
                assert(items.take(0) =~= Seq::<Json>::empty());
                place_items_keeps(
                    s,
                    id,
                    old,
                    items,
                    owner,
                    depth,
                    0,
                    none,
                    ids,
                    m,
                    loose,
                    base,
                    base,
                    was,
                );
                kind_kept(s, t, id, base);
                let held = t.kids(id);
                let changed = if held == kids {
                    t
                } else {
                    t.touch_dirty(id).put_kind(id, kind)
                };
                assert forall|c: NodeId| #[trigger] t.kids(id).contains(c) implies (old
                    + held).contains(c) by {
                    let j = choose|j: int| 0 <= j < held.len() && held[j] == c;
                    assert((old + held)[old.len() + j] == c);
                }
                rewritten(
                    s,
                    t,
                    changed,
                    id,
                    kind,
                    old + held,
                    items,
                    depth,
                    n,
                    loose,
                    kept,
                    was,
                    ids,
                );
                assert(guard::shows(u, id, v, n)) by {
                    assert forall|j: int| 0 <= j < kids.len() implies guard::seated(
                        u,
                        #[trigger] kids[j],
                        id,
                    ) && guard::shows(u, kids[j], items[j], m) by {
                        assert(kid_in(u, id, kind.kids()[j], items[j], m, base));
                    }
                }
            },
            (Kind::Async { status, result, reason }, Form::Async {
                status: new_status,
                result: new_result,
                reason: new_reason,
            }) => {
                async_keeps(s, id, v, owner, depth, ids, n, loose, kept, was);
            },
            _ => {
                rebuild_keeps(s, id, v, owner, depth, ids, n, loose, kept, was);
            },
        }
    }
}


/// A guarded node stays what it is.
pub proof fn kind_kept(s: Tx, t: Tx, id: NodeId, kept: Set<NodeId>)
    requires
        guard::keeps(s, t, kept),
        kept.contains(id),
        s.live(id),
    ensures
        t.live(id),
        t.parent_of(id) == s.parent_of(id),
        guard::eroded(s, kept, s.kind(id), t.kind(id)),
{
    reveal(guard::keeps);
    assert(kept.contains(id) && s.live(id));
}

/// Giving an object or a store other fields.
proof fn refielded(
    s: Tx,
    t: Tx,
    id: NodeId,
    old: Seq<(Chars, NodeId)>,
    kind: Kind,
    kids: Seq<(Chars, NodeId)>,
    docs: Seq<(Chars, Json)>,
    depth: nat,
    n: nat,
    loose: Set<NodeId>,
    kept: Set<NodeId>,
    was: Map<NodeId, Entry>,
    ids: Seq<NodeId>,
)
    requires
        node_ready(s, id, depth, loose, kept, was, ids),
        n > 0,
        kind.fields() == Some(kids),
        list_done(
            s,
            t,
            id,
            keyed::items_of(kids),
            keyed::items_of(docs),
            (n - 1) as nat,
            kept.insert(id),
            kept.insert(id),
            was,
            ids,
        ),
        keyed::sorted(kids),
        t.live(id),
        t.kind(id) is Object == kind is Object,
        t.fields(id) is Some,
        upkeep::same_name(t.kind(id), kind),
    ensures
        ({
            let u = model::install_fields(t, id, old, kind, kids);
            &&& shape::good(u, was, ids)
            &&& guard::keeps(s, u, kept)
            &&& u.live(id)
            &&& u.parent_of(id) == s.parent_of(id)
            &&& placing::drifts(s, u, None)
            &&& u.kind(id) == kind
            &&& forall|j: int|
                0 <= j < keyed::items_of(kids).len() ==> #[trigger] kid_in(
                    u,
                    id,
                    keyed::items_of(kids)[j],
                    keyed::items_of(docs)[j],
                    (n - 1) as nat,
                    kept.insert(id),
                )
            &&& forall|x: NodeId| #[trigger] guard::within(u, x, id, n) ==> !kept.contains(x)
        }),
{
    let held = t.kids(id);
    let changed = if t.fields(id) == Some(kids) {
        t
    } else {
        t.touch_dirty(id).put_kind(id, kind)
    };
    assert(kind.kids() == keyed::items_of(kids));
    let list = keyed::items_of(old) + held;
    assert forall|c: NodeId| #[trigger] t.kids(id).contains(c) implies list.contains(c) by {
        let j = choose|j: int| 0 <= j < held.len() && held[j] == c;
        assert(list[keyed::items_of(old).len() + j] == c);
    }
    rewritten(
        s,
        t,
        changed,
        id,
        kind,
        list,
        keyed::items_of(docs),
        depth,
        n,
        loose,
        kept,
        was,
        ids,
    );
}

proof fn rebuild_keeps(
    s: Tx,
    id: NodeId,
    v: Json,
    owner: Path,
    depth: nat,
    ids: Seq<NodeId>,
    n: nat,
    loose: Set<NodeId>,
    kept: Set<NodeId>,
    was: Map<NodeId, Entry>,
)
    requires
        node_ready(s, id, depth, loose, kept, was, ids),
        v.well_formed(),
        value::nesting(v) < n,
        model::rebuild(s, id, v, owner, depth, ids).1 is Ok,
        model::rebuild(s, id, v, owner, depth, ids).0.allocated.len() <= ids.len(),
    ensures
        node_done(s, model::rebuild(s, id, v, owner, depth, ids).0, id, v, n, kept, was, ids),
        named_for(model::rebuild(s, id, v, owner, depth, ids).0, id, v, owner),
    decreases value::nesting(v), 3int, 0int,
{
    let l = s.log_loss(id);
    let r = cleared(l, id);
    let u = model::rebuild(s, id, v, owner, depth, ids).0;
    loss_logged(s, id, depth, loose, kept, was, ids);
    cleared_keeps(l, id, depth, loose, kept, was, ids);
    assert(u == model::install(r, id, v, owner, depth, ids).0);
    install_keeps(r, id, v, owner, depth, ids, n, loose, kept, was);
    guard::keeps_on(s, l, r, kept);
    guard::keeps_on(s, r, u, kept);
    assert forall|x: NodeId| #[trigger] shape::adrift(u, x) implies placing::adrift_still(
        s,
        u,
        x,
    ) by {
        assert(placing::adrift_still(r, u, x));
        assert(placing::adrift_still(l, r, x));
    }
}

/// Recording what a collection loses changes nothing else.
proof fn loss_logged(
    s: Tx,
    id: NodeId,
    depth: nat,
    loose: Set<NodeId>,
    kept: Set<NodeId>,
    was: Map<NodeId, Entry>,
    ids: Seq<NodeId>,
)
    requires
        node_ready(s, id, depth, loose, kept, was, ids),
    ensures
        node_ready(s.log_loss(id), id, depth, loose, kept, was, ids),
        guard::keeps(s, s.log_loss(id), kept),
{
    let t = s.log_loss(id);
    let base = kept.insert(id);
    assert(shape::good(t, was, ids)) by {
        reveal(shape::good);
        upkeep::alike_keeps(s, t, was, ids);
    }
    assert forall|x: NodeId| #[trigger] base.contains(x) implies t.live(x) && t.parent_of(x)
        == s.parent_of(x) && (guard::placed_once(s, x) ==> guard::placed_once(t, x)) by {
        reveal(guard::guards);
    }
    guard::guards_same(s, t, base, id);
    assert(placing::moored(t, base, loose)) by {
        assert forall|x: NodeId| #[trigger] shape::adrift(t, x) implies base.contains(x) || (
        loose.contains(x) && base.contains(t.parent_of(x)->0)) by {
            assert(shape::adrift(s, x));
        }
    }
    assert(guard::keeps(s, t, kept)) by {
        reveal(guard::keeps);
        assert forall|x: NodeId| #[trigger] kept.contains(x) && s.live(x) implies t.parent_of(x)
            == s.parent_of(x) && guard::eroded(s, kept, s.kind(x), t.kind(x)) by {
            placing::eroded_self(s, kept, s.kind(x));
        }
    }
}

proof fn async_keeps(
    s: Tx,
    id: NodeId,
    v: Json,
    owner: Path,
    depth: nat,
    ids: Seq<NodeId>,
    n: nat,
    loose: Set<NodeId>,
    kept: Set<NodeId>,
    was: Map<NodeId, Entry>,
)
    requires
        node_ready(s, id, depth, loose, kept, was, ids),
        s.kind(id) is Async,
        marker::form_of(v) is Async,
        v.well_formed(),
        value::nesting(v) < n,
        model::reconcile(s, id, v, owner, depth, ids).1 is Ok,
        model::reconcile(s, id, v, owner, depth, ids).0.allocated.len() <= ids.len(),
    ensures
        node_done(s, model::reconcile(s, id, v, owner, depth, ids).0, id, v, n, kept, was, ids),
    decreases value::nesting(v), 3int, 0int,
{
    let base = kept.insert(id);
    let m = (n - 1) as nat;
    let none = Seq::<NodeId>::empty();
    let no_docs = Seq::<Json>::empty();
    let deep = model::deeper(depth);
    let f = model::reconcile(s, id, v, owner, depth, ids).0;
    parts_sized(v, n);
    model::form_nesting(v);
    let form = marker::form_of(v);
    let (new_status, new_result, new_reason) = (
        form->Async_status,
        form->Async_result,
        form->Async_reason,
    );
    let result = s.kind(id)->Async_result;
    let reason = s.kind(id)->Async_reason;
    // the status
    let a = model::put_status(s, id, new_status);
    status_put(s, id, new_status, was, ids);
    let kids = s.kids(id);
    assert(kids[0] == result && kids[1] == reason);
    assert(kids.contains(result) && kids.contains(reason));
    assert(result != reason && s.parent_of(result) == Some(id) && s.parent_of(reason) == Some(
        id,
    )) by {
        reveal(shape::good);
        assert(s.kids(id).no_duplicates());
    }
    none_placed(s, id, depth, m, loose, kept, was, ids);
    list_given(s, a, id, kids, depth, none, no_docs, m, loose, base, base, was, ids);
    // the result
    assert(a.unclaimed(id, Some(result), none) == Some(result));
    next_ready(a, id, depth, Some(result), none, no_docs, m, loose, base, base, was, ids);
    let (b, first) = model::reconcile_child(a, id, Some(result), new_result, owner, deep, ids);
    let now = first->Ok_0;
    let h = model::set_async_slot(b, id, true, now);
    growth::set_async_slot_makes_none(b, id, true, now);
    let next = model::async_slot(h, id, false);
    growth::reconcile_child_grows(h, id, next, new_reason, owner, deep, ids);
    let (w, second) = model::reconcile_child(h, id, next, new_reason, owner, deep, ids);
    let last = second->Ok_0;
    growth::set_async_slot_makes_none(w, id, false, last);
    assert(f == model::set_async_slot(w, id, false, last));
    reconcile_child_keeps(a, id, Some(result), new_result, owner, deep, ids, m, loose, base, was);
    next_placed(
        a,
        b,
        id,
        depth,
        Some(result),
        now,
        new_result,
        none,
        no_docs,
        m,
        loose,
        base,
        base,
        was,
        ids,
    );
    let more = guard::widened(b, base, now, m);
    let one = none.push(now);
    let one_doc = no_docs.push(new_result);
    kind_kept(a, b, id, base);
    let rest = b.kind(id)->Async_reason;
    assert(b.kind(id) is Async && b.kind(id)->Async_status == new_status);
    assert(rest != now) by {
        assert(guard::worn(a, base, reason, rest));
        assert(b.kids(id)[1] == rest);
        assert(a.live(result));
        if now != result {
            assert(shape::adrift(b, now));
            assert(b.kids(id).contains(rest));
        }
    }
    slotted(b, id, true, now, was, ids);
    let first_kids = model::with_kid(b.kind(id), 0, now).kids();
    assert(first_kids[0] == now && first_kids[1] == rest);
    assert(placing::drifts(b, h, None)) by {
        assert forall|x: NodeId| #[trigger] shape::adrift(h, x) implies placing::adrift_still(
            b,
            h,
            x,
        ) by {}
    }
    list_given(b, h, id, first_kids, depth, one, one_doc, m, loose, more, base, was, ids);
    // the reason
    assert(h.kids(id) == first_kids);
    assert(h.parent_of(rest) == Some(id)) by {
        reveal(shape::good);
        assert(h.kids(id).contains(rest));
    }
    assert(!one.contains(rest));
    assert(h.unclaimed(id, Some(rest), one) == Some(rest));
    assert(next == Some(rest));
    next_ready(h, id, depth, Some(rest), one, one_doc, m, loose, more, base, was, ids);
    reconcile_child_keeps(h, id, next, new_reason, owner, deep, ids, m, loose, more, was);
    next_placed(
        h,
        w,
        id,
        depth,
        next,
        last,
        new_reason,
        one,
        one_doc,
        m,
        loose,
        more,
        base,
        was,
        ids,
    );
    let both = one.push(last);
    let docs = one_doc.push(new_reason);
    assert(both[0] == now && both[1] == last);
    kind_kept(h, w, id, more);
    assert(more.contains(now)) by {
        assert(guard::within(b, now, now, m));
    }
    assert(w.kind(id) is Async && w.kind(id)->Async_status == new_status && w.kind(
        id,
    )->Async_result == now);
    assert(now != last) by {
        assert(both.no_duplicates());
    }
    assert(kid_in(w, id, both[0], docs[0], m, base) && kid_in(w, id, both[1], docs[1], m, base));
    slotted(w, id, false, last, was, ids);
    let kind = Kind::Async { status: new_status, result: now, reason: last };
    assert(f.kind(id) == kind);
    assert(kind.kids() =~= both);
    // all of it
    assert forall|c: NodeId| #[trigger] kept.contains(c) implies s.live(c) by {
        reveal(guard::guards);
        assert(base.contains(c));
    }
    placing::relisted_keeps(s, a, id, kids, kept);
    guard::keeps_fewer(a, b, base, kept);
    guard::keeps_on(s, a, b, kept);
    assert forall|c: NodeId| #[trigger] kept.contains(c) implies b.parent_of(c) != Some(id)
        || first_kids.contains(c) by {
        reveal(guard::keeps);
        assert(kept.contains(c) && s.live(c));
    }
    placing::relisted_keeps(b, h, id, first_kids, kept);
    guard::keeps_on(s, b, h, kept);
    guard::keeps_fewer(h, w, more, kept);
    guard::keeps_on(s, h, w, kept);
    assert(w.parent_of(id) == s.parent_of(id)) by {
        assert(a.parent_of(id) == s.parent_of(id));
        assert(h.parent_of(id) == b.parent_of(id) || b.parent_of(id) == Some(id));
        reveal(shape::good);
        shape::depth_step(s, id);
    }
    assert forall|x: NodeId| #[trigger] shape::adrift(w, x) implies placing::adrift_still(s, w, x)
        || both.contains(x) by {
        if x == last {
            assert(both[1] == x);
        } else {
            assert(placing::adrift_still(h, w, x));
            assert(placing::adrift_still(b, h, x) && !first_kids.contains(x));
            assert(x != now) by {
                assert(first_kids[0] == now);
            }
            assert(placing::adrift_still(a, b, x));
            assert(placing::adrift_still(s, a, x));
        }
    }
    given_kids(s, w, f, id, both, docs, m, kept, was, ids);
    within_kids(f, id, both, docs, n, kept);
    assert(kid_in(f, id, both[0], docs[0], m, base) && kid_in(f, id, both[1], docs[1], m, base));
    assert(docs[0] == new_result && docs[1] == new_reason);
}

proof fn install_keeps(
    s: Tx,
    id: NodeId,
    v: Json,
    owner: Path,
    depth: nat,
    ids: Seq<NodeId>,
    n: nat,
    loose: Set<NodeId>,
    kept: Set<NodeId>,
    was: Map<NodeId, Entry>,
)
    requires
        node_ready(s, id, depth, loose, kept, was, ids),
        s.kind(id) is Null,
        s.settle.contains_key(id) || (shape::adrift(s, id) && !was.contains_key(id)),
        v.well_formed(),
        value::nesting(v) < n,
        model::install(s, id, v, owner, depth, ids).1 is Ok,
        model::install(s, id, v, owner, depth, ids).0.allocated.len() <= ids.len(),
    ensures
        node_done(
            s,
            model::install(s, id, v, owner, depth, ids).0,
            id,
            v,
            n,
            kept,
            was,
            ids,
        ),
        named_for(model::install(s, id, v, owner, depth, ids).0, id, v, owner),
    decreases value::nesting(v), 2int, 0int,
{
    let base = kept.insert(id);
    let m = (n - 1) as nat;
    let none = Seq::<NodeId>::empty();
    let no_docs = Seq::<Json>::empty();
    let u = model::install(s, id, v, owner, depth, ids).0;
    parts_sized(v, n);
    model::form_nesting(v);
    none_placed(s, id, depth, m, loose, kept, was, ids);
    all_placed(s, id, depth, none, no_docs, m, loose, base, base, was, ids);
    match marker::form_of(v) {
        Form::Null => {
            assert(Kind::Null.kids() =~= none);
            installed(s, s, id, Kind::Null, no_docs, depth, n, loose, kept, was, ids);
        },
        Form::Bool(flag) => {
            assert(Kind::Bool(flag).kids() =~= none);
            installed(s, s, id, Kind::Bool(flag), no_docs, depth, n, loose, kept, was, ids);
        },
        Form::Number(number) => {
            assert(Kind::Number(number).kids() =~= none);
            installed(s, s, id, Kind::Number(number), no_docs, depth, n, loose, kept, was, ids);
        },
        Form::Text(text) => {
            assert(Kind::Text(text).kids() =~= none);
            installed(s, s, id, Kind::Text(text), no_docs, depth, n, loose, kept, was, ids);
        },
        Form::Upload { name } => {
            let kind = Kind::Upload { name, owner };
            assert(kind.kids() =~= none);
            installed(s, s, id, kind, no_docs, depth, n, loose, kept, was, ids);
        },
        Form::Collection { name } => {
            let kind = Kind::Collection { name, owner, items: Seq::empty() };
            assert(kind.kids() =~= none);
            installed(s, s, id, kind, no_docs, depth, n, loose, kept, was, ids);
        },
        Form::Array(items) => {
            assert(items.take(0) =~= no_docs);
            place_items_keeps(
                s,
                id,
                none,
                items,
                owner,
                depth,
                0,
                none,
                ids,
                m,
                loose,
                base,
                base,
                was,
            );
            let (t, new) = model::place_items(s, id, none, items, owner, depth, 0, none, ids);
            installed(s, t, id, Kind::Array(new->Ok_0), items, depth, n, loose, kept, was, ids);
            assert(guard::shows(u, id, v, n)) by {
                assert forall|j: int| 0 <= j < new->Ok_0.len() implies guard::seated(
                    u,
                    #[trigger] new->Ok_0[j],
                    id,
                ) && guard::shows(u, new->Ok_0[j], items[j], m) by {
                    assert(kid_in(u, id, Kind::Array(new->Ok_0).kids()[j], items[j], m, base));
                }
            }
        },
        Form::Object(fields) => {
            let docs = guard::plain(fields, false, fields.len() as int);
            all_fields_keeps(
                s,
                id,
                Seq::empty(),
                fields,
                false,
                owner,
                depth,
                ids,
                m,
                loose,
                kept,
                was,
            );
            let (t, new) = model::place_fields(
                s,
                id,
                Seq::empty(),
                fields,
                false,
                owner,
                depth,
                0,
                Seq::empty(),
                ids,
            );
            let kids = new->Ok_0;
            let kind = Kind::Object(kids);
            placed_sorted(kids, fields, false);
            installed(
                s,
                t,
                id,
                kind,
                keyed::items_of(docs),
                depth,
                n,
                loose,
                kept,
                was,
                ids,
            );
            fields_shown(u, id, kids, docs, m, base);
        },
        Form::Store { id: path, fields } => {
            let docs = guard::plain(fields, true, fields.len() as int);
            all_fields_keeps(
                s,
                id,
                Seq::empty(),
                fields,
                true,
                path,
                depth,
                ids,
                m,
                loose,
                kept,
                was,
            );
            let (t, new) = model::place_fields(
                s,
                id,
                Seq::empty(),
                fields,
                true,
                path,
                depth,
                0,
                Seq::empty(),
                ids,
            );
            let kids = new->Ok_0;
            let kind = Kind::Store { id: path, fields: kids };
            placed_sorted(kids, fields, true);
            installed(
                s,
                t,
                id,
                kind,
                keyed::items_of(docs),
                depth,
                n,
                loose,
                kept,
                was,
                ids,
            );
            fields_shown(u, id, kids, docs, m, base);
        },
        Form::Async { status, result, reason } => {
            let deep = model::deeper(depth);
            next_ready(s, id, depth, None, none, no_docs, m, loose, base, base, was, ids);
            let (t, first) = model::reconcile_child(s, id, None, result, owner, deep, ids);
            let a = first->Ok_0;
            growth::reconcile_child_grows(t, id, None, reason, owner, deep, ids);
            reconcile_child_keeps(s, id, None, result, owner, deep, ids, m, loose, base, was);
            next_placed(
                s,
                t,
                id,
                depth,
                None,
                a,
                result,
                none,
                no_docs,
                m,
                loose,
                base,
                base,
                was,
                ids,
            );
            let more = guard::widened(t, base, a, m);
            let one = none.push(a);
            let one_doc = no_docs.push(result);
            next_ready(t, id, depth, None, one, one_doc, m, loose, more, base, was, ids);
            let (w, second) = model::reconcile_child(t, id, None, reason, owner, deep, ids);
            let b = second->Ok_0;
            reconcile_child_keeps(t, id, None, reason, owner, deep, ids, m, loose, more, was);
            next_placed(
                t,
                w,
                id,
                depth,
                None,
                b,
                reason,
                one,
                one_doc,
                m,
                loose,
                more,
                base,
                was,
                ids,
            );
            let both = one.push(b);
            let docs = one_doc.push(reason);
            let most = guard::widened(w, more, b, m);
            all_placed(w, id, depth, both, docs, m, loose, most, base, was, ids);
            rest_done(t, w, w, id, None, b, reason, 1, both, docs, m, more, base, was, ids);
            rest_done(s, t, w, id, None, a, result, 0, both, docs, m, base, base, was, ids);
            let kind = Kind::Async { status, result: a, reason: b };
            assert(kind.kids() =~= both);
            installed(s, w, id, kind, docs, depth, n, loose, kept, was, ids);
            assert(kid_in(u, id, kind.kids()[0], docs[0], m, base));
            assert(kid_in(u, id, kind.kids()[1], docs[1], m, base));
        },
    }
}

/// Placing the fields of a node.
proof fn all_fields_keeps(
    s: Tx,
    id: NodeId,
    old: Seq<(Chars, NodeId)>,
    fields: Seq<(Chars, Json)>,
    store: bool,
    owner: Path,
    depth: nat,
    ids: Seq<NodeId>,
    n: nat,
    loose: Set<NodeId>,
    kept: Set<NodeId>,
    was: Map<NodeId, Entry>,
)
    requires
        node_ready(s, id, depth, loose, kept, was, ids),
        sized_fields(fields, n),
        model::place_fields(
            s,
            id,
            old,
            fields,
            store,
            owner,
            depth,
            0,
            Seq::empty(),
            ids,
        ).1 is Ok,
        model::place_fields(
            s,
            id,
            old,
            fields,
            store,
            owner,
            depth,
            0,
            Seq::empty(),
            ids,
        ).0.allocated.len() <= ids.len(),
    ensures
        ({
            let (t, new) = model::place_fields(
                s,
                id,
                old,
                fields,
                store,
                owner,
                depth,
                0,
                Seq::empty(),
                ids,
            );
            let docs = guard::plain(fields, store, fields.len() as int);
            &&& list_done(
                s,
                t,
                id,
                keyed::items_of(new->Ok_0),
                keyed::items_of(docs),
                n,
                kept.insert(id),
                kept.insert(id),
                was,
                ids,
            )
            &&& new->Ok_0.len() == docs.len()
            &&& forall|j: int| 0 <= j < docs.len() ==> (#[trigger] new->Ok_0[j]).0 == docs[j].0
        }),
    decreases model::nesting_of_fields(fields), 1int, fields.len() + 1,
{
    let none = Seq::<(Chars, NodeId)>::empty();
    none_placed(s, id, depth, n, loose, kept, was, ids);
    assert(keyed::items_of(none) =~= Seq::<NodeId>::empty());
    assert(keyed::items_of(guard::plain(fields, store, 0)) =~= Seq::<Json>::empty());
    place_fields_keeps(
        s,
        id,
        old,
        fields,
        store,
        owner,
        depth,
        0,
        none,
        ids,
        n,
        loose,
        kept.insert(id),
        kept.insert(id),
        was,
    );
}

} // verus!
