//! What stays keeps its node: where an object, a store or an array is rewritten, what
//! stands under a key that stays, or at a position that stays, stands in the node it had.

use vstd::prelude::*;

use crate::state::granting;
use crate::state::growth;
use crate::state::guard;
use crate::state::keyed;
use crate::state::marker;
use crate::state::marker::{Form, STORE_ID_KEY};
use crate::state::model;
use crate::state::model::{Tx, MAX_WALK};
use crate::state::moving;
use crate::state::node::{AsyncStatus, Kind, NodeId};
use crate::state::patching;
use crate::state::placing;
use crate::state::reconciling;
use crate::state::replay;
use crate::state::shape;
use crate::state::slots::Entry;
use crate::state::text::Chars;
use crate::state::value;
use crate::state::value::Json;
use crate::state::wire::Path;

verus! {

/// Whether a node is neither a store nor a stream.
pub open spec fn bare(s: Tx, id: NodeId) -> bool {
    s.live(id) && !(s.kind(id) is Store) && !(s.kind(id) is Collection)
}

/// Whether a document is neither a store nor a stream.
pub open spec fn bare_document(v: Json) -> bool {
    !(marker::form_of(v) is Store) && !(marker::form_of(v) is Collection)
}

/// A step that must leave some nodes alone may be told to leave a bare sibling alone too.
proof fn spared(
    s: Tx,
    id: NodeId,
    existing: Option<NodeId>,
    v: Json,
    owner: Path,
    deep: nat,
    ids: Seq<NodeId>,
    n: nat,
    loose: Set<NodeId>,
    kept: Set<NodeId>,
    was: Map<NodeId, Entry>,
    x: NodeId,
)
    requires
        placing::ready(s, kept, id, existing, loose, deep, was, ids),
        v.well_formed(),
        value::nesting(v) < n,
        model::reconcile_child(s, id, existing, v, owner, deep, ids).1 is Ok,
        model::reconcile_child(s, id, existing, v, owner, deep, ids).0.allocated.len()
            <= ids.len(),
        bare(s, x),
        s.parent_of(x) == Some(id),
        existing != Some(x),
    ensures
        ({
            let (t, child) = model::reconcile_child(s, id, existing, v, owner, deep, ids);
            &&& bare(t, x)
            &&& t.parent_of(x) == Some(id)
            &&& child->Ok_0 != x
        }),
{
    let more = kept.insert(x);
    assert(guard::guards(s, more, id)) by {
        reveal(guard::guards);
        assert forall|y: NodeId| #[trigger] more.contains(y) implies s.live(y) && (s.parent_of(
            y,
        ) matches Some(up) ==> more.contains(up)) && (s.is_ancestor(y, id) || guard::placed_once(
            s,
            y,
        )) by {
            if y != x {
                assert(kept.contains(y));
            }
        }
    }
    assert(placing::moored(s, more, loose)) by {
        assert forall|y: NodeId| #[trigger] shape::adrift(s, y) implies more.contains(y) || (
        loose.contains(y) && more.contains(s.parent_of(y)->0)) by {
            assert(kept.contains(y) || (loose.contains(y) && kept.contains(s.parent_of(y)->0)));
        }
    }
    reconciling::reconcile_child_keeps(s, id, existing, v, owner, deep, ids, n, loose, more, was);
    let (t, child) = model::reconcile_child(s, id, existing, v, owner, deep, ids);
    reveal(guard::keeps);
    assert(more.contains(x) && s.live(x));
    assert(guard::eroded(s, more, s.kind(x), t.kind(x)));
    assert(guard::within(t, child->Ok_0, child->Ok_0, n));
}

// -------------------------------------------------------------------------- under a key

/// Placing goes on after what is placed.
proof fn fields_extend(
    s: Tx,
    id: NodeId,
    old: Seq<(Chars, NodeId)>,
    fields: Seq<(Chars, Json)>,
    store: bool,
    owner: Path,
    depth: nat,
    i: int,
    placed: Seq<(Chars, NodeId)>,
    ids: Seq<NodeId>,
)
    requires
        0 <= i <= fields.len(),
        model::place_fields(s, id, old, fields, store, owner, depth, i, placed, ids).1 is Ok,
    ensures
        ({
            let new = model::place_fields(
                s,
                id,
                old,
                fields,
                store,
                owner,
                depth,
                i,
                placed,
                ids,
            ).1->Ok_0;
            &&& placed.len() <= new.len()
            &&& forall|j: int| 0 <= j < placed.len() ==> new[j] == #[trigger] placed[j]
        }),
    decreases fields.len() - i,
{
    if i < fields.len() {
        if store && fields[i].0 == STORE_ID_KEY@ {
            fields_extend(s, id, old, fields, store, owner, depth, i + 1, placed, ids);
        } else {
            let existing = s.unclaimed(
                id,
                keyed::lookup(old, fields[i].0),
                keyed::items_of(placed),
            );
            let (t, child) = model::reconcile_child(
                s,
                id,
                existing,
                fields[i].1,
                owner,
                model::deeper(depth),
                ids,
            );
            let next = placed.push((fields[i].0, child->Ok_0));
            fields_extend(t, id, old, fields, store, owner, depth, i + 1, next, ids);
            let new = model::place_fields(
                s,
                id,
                old,
                fields,
                store,
                owner,
                depth,
                i,
                placed,
                ids,
            ).1->Ok_0;
            assert forall|j: int| 0 <= j < placed.len() implies new[j] == #[trigger] placed[j] by {
                assert(next[j] == placed[j]);
            }
        }
    }
}

#[verifier::rlimit(40)]
proof fn field_stays(
    s: Tx,
    id: NodeId,
    old: Seq<(Chars, NodeId)>,
    fields: Seq<(Chars, Json)>,
    store: bool,
    owner: Path,
    depth: nat,
    i: int,
    placed: Seq<(Chars, NodeId)>,
    ids: Seq<NodeId>,
    n: nat,
    loose: Set<NodeId>,
    kept: Set<NodeId>,
    base: Set<NodeId>,
    was: Map<NodeId, Entry>,
    at: int,
    x: NodeId,
)
    requires
        0 <= i <= at < fields.len(),
        reconciling::list_ready(
            s,
            id,
            depth,
            keyed::items_of(placed),
            keyed::items_of(guard::plain(fields, store, i)),
            n,
            loose,
            kept,
            base,
            was,
            ids,
        ),
        reconciling::sized_fields(fields, n),
        model::place_fields(s, id, old, fields, store, owner, depth, i, placed, ids).1 is Ok,
        model::place_fields(
            s,
            id,
            old,
            fields,
            store,
            owner,
            depth,
            i,
            placed,
            ids,
        ).0.allocated.len() <= ids.len(),
        !(store && fields[at].0 == STORE_ID_KEY@),
        keyed::lookup(old, fields[at].0) == Some(x),
        forall|j: int|
            i <= j < at ==> keyed::lookup(old, (#[trigger] fields[j]).0) != Some(x),
        bare_document(fields[at].1),
        bare(s, x),
        s.parent_of(x) == Some(id),
        !keyed::items_of(placed).contains(x),
    ensures
        model::place_fields(
            s,
            id,
            old,
            fields,
            store,
            owner,
            depth,
            i,
            placed,
            ids,
        ).1->Ok_0.contains((fields[at].0, x)),
    decreases at - i,
{
    if store && fields[i].0 == STORE_ID_KEY@ {
        assert(guard::plain(fields, store, i + 1) == guard::plain(fields, store, i));
        field_stays(
            s,
            id,
            old,
            fields,
            store,
            owner,
            depth,
            i + 1,
            placed,
            ids,
            n,
            loose,
            kept,
            base,
            was,
            at,
            x,
        );
    } else {
        let nodes = keyed::items_of(placed);
        let docs = keyed::items_of(guard::plain(fields, store, i));
        let candidate = keyed::lookup(old, fields[i].0);
        let existing = s.unclaimed(id, candidate, nodes);
        let deep = model::deeper(depth);
        let v = fields[i].1;
        let (t, child) = model::reconcile_child(s, id, existing, v, owner, deep, ids);
        let kid = child->Ok_0;
        let next = placed.push((fields[i].0, kid));
        growth::place_fields_grows(t, id, old, fields, store, owner, depth, i + 1, next, ids);
        if i == at {
            fields_extend(t, id, old, fields, store, owner, depth, i + 1, next, ids);
            assert(kid == x);
            let new = model::place_fields(
                s,
                id,
                old,
                fields,
                store,
                owner,
                depth,
                i,
                placed,
                ids,
            ).1->Ok_0;
            assert(new[placed.len() as int] == next[placed.len() as int]);
        } else {
            reconciling::next_ready(
                s,
                id,
                depth,
                candidate,
                nodes,
                docs,
                n,
                loose,
                kept,
                base,
                was,
                ids,
            );
            reconciling::reconcile_child_keeps(
                s,
                id,
                existing,
                v,
                owner,
                deep,
                ids,
                n,
                loose,
                kept,
                was,
            );
            spared(s, id, existing, v, owner, deep, ids, n, loose, kept, was, x);
            reconciling::next_placed(
                s,
                t,
                id,
                depth,
                existing,
                kid,
                v,
                nodes,
                docs,
                n,
                loose,
                kept,
                base,
                was,
                ids,
            );
            let more = guard::widened(t, kept, kid, n);
            assert(keyed::items_of(next) =~= nodes.push(kid));
            assert(keyed::items_of(guard::plain(fields, store, i + 1)) =~= docs.push(v));
            field_stays(
                t,
                id,
                old,
                fields,
                store,
                owner,
                depth,
                i + 1,
                next,
                ids,
                n,
                loose,
                more,
                base,
                was,
                at,
                x,
            );
        }
    }
}

/// What placing the children of a node at rest starts from.
proof fn fresh_list(
    s: Tx,
    id: NodeId,
    depth: nat,
    n: nat,
    was: Map<NodeId, Entry>,
    ids: Seq<NodeId>,
)
    requires
        patching::steady(s, was, ids),
        s.live(id),
        shape::climbs(s.nodes, id, depth),
    ensures
        reconciling::list_ready(
            s,
            id,
            depth,
            Seq::empty(),
            Seq::empty(),
            n,
            Set::empty(),
            guard::spine(s, id),
            guard::spine(s, id),
            was,
            ids,
        ),
{
    let kept = guard::spine(s, id);
    assert(shape::bounded(s.nodes)) by {
        reveal(shape::good);
    }
    guard::guards_spine(s, id);
    reveal_with_fuel(Tx::met_above, 2);
    assert(placing::moored(s, kept, Set::empty())) by {
        assert forall|x: NodeId| #[trigger] shape::adrift(s, x) implies kept.contains(x) by {
            assert(!shape::adrift(s, x));
        }
    }
    assert forall|c: NodeId| #[trigger] kept.contains(c) implies s.parent_of(c) != Some(id) by {
        if s.parent_of(c) == Some(id) {
            patching::child_below(s, id, c);
        }
    }
}

/// A field that stays keeps its node: where an object is rewritten with an object, or a
/// store with the document of that store, and a key is in both, the node that was under
/// the key is under it still, unless that or the value is a store or a stream.
pub proof fn a_field_keeps_its_node(
    s: Tx,
    id: NodeId,
    v: Json,
    owner: Path,
    depth: nat,
    ids: Seq<NodeId>,
    was: Map<NodeId, Entry>,
    key: Chars,
    x: NodeId,
    value: Json,
)
    requires
        patching::steady(s, was, ids),
        s.live(id),
        shape::climbs(s.nodes, id, depth),
        v.well_formed(),
        v matches Json::Object(fields) && fields.contains((key, value)),
        s.kind(id) is Object && marker::form_of(v) is Object || (s.kind(id) is Store
            && marker::form_of(v) is Store && s.kind(id)->Store_id == marker::form_of(v)->Store_id
            && key != "__musubi_store_id__"@),
        s.links(id).contains((key, x)),
        bare(s, x),
        bare_document(value),
        model::reconcile(s, id, v, owner, depth, ids).1 is Ok,
        model::reconcile(s, id, v, owner, depth, ids).0.allocated.len() <= ids.len(),
    ensures
        model::reconcile(s, id, v, owner, depth, ids).0.links(id).contains((key, x)),
{
    let fields = v->Object_0;
    let old = s.links(id);
    let n = value::nesting(v) + 1;
    let store = s.kind(id) is Store;
    let under = if store {
        s.kind(id)->Store_id
    } else {
        owner
    };
    let at = choose|at: int| 0 <= at < fields.len() && fields[at] == (key, value);
    assert(shape::linked(s) && shape::tidied(s)) by {
        reveal(shape::good);
    }
    assert(keyed::sorted(old)) by {
        assert(shape::tidy(s.kind(id)));
    }
    let i = choose|i: int| 0 <= i < old.len() && old[i] == (key, x);
    keyed::sorted_key_index(old, i);
    assert(s.kids(id)[i] == x);
    assert(s.kids(id).contains(x));
    assert(keyed::sorted(fields));
    assert forall|j: int| 0 <= j < at implies keyed::lookup(old, (#[trigger] fields[j]).0) != Some(
        x,
    ) by {
        let other = fields[j].0;
        keyed::key_index_meaning(old, other);
        if keyed::lookup(old, other) == Some(x) {
            let k = keyed::key_index(old, other) as int;
            assert(s.kids(id)[k] == x);
            assert(s.kids(id).no_duplicates());
            assert(k == i);
            keyed::sorted_key_index(fields, j);
            keyed::sorted_key_index(fields, at);
        }
    }
    assert(reconciling::sized_fields(fields, n)) by {
        assert forall|j: int| 0 <= j < fields.len() implies (#[trigger] fields[j]).1.well_formed()
            && value::nesting(fields[j].1) < n by {
            value::field_nesting(fields, j);
        }
    }
    fresh_list(s, id, depth, n, was, ids);
    let none = Seq::<(Chars, NodeId)>::empty();
    assert(keyed::items_of(none) =~= Seq::<NodeId>::empty());
    assert(keyed::items_of(guard::plain(fields, store, 0)) =~= Seq::<Json>::empty());
    let (t, new) = model::place_fields(
        s,
        id,
        old,
        fields,
        store,
        under,
        depth,
        0,
        none,
        ids,
    );
    let kind = if store {
        Kind::Store { id: under, fields: new->Ok_0 }
    } else {
        Kind::Object(new->Ok_0)
    };
    let u = model::install_fields(t, id, old, kind, new->Ok_0);
    growth::install_fields_makes_none(t, id, old, kind, new->Ok_0);
    assert(model::reconcile(s, id, v, owner, depth, ids) == (
        u,
        Ok::<(), crate::state::error::Fault>(()),
    ));
    field_stays(
        s,
        id,
        old,
        fields,
        store,
        under,
        depth,
        0,
        none,
        ids,
        n,
        Set::empty(),
        guard::spine(s, id),
        guard::spine(s, id),
        was,
        at,
        x,
    );
    fields_grow_live(s, id, old, fields, store, under, depth, ids, n, was);
    replay::touch_dirty_still(t, id);
    let d = if t.fields(id) == Some(new->Ok_0) {
        t
    } else {
        t.touch_dirty(id).put_kind(id, kind)
    };
    assert(t.live(id));
    assert(t.touch_dirty(id).live(id));
    assert(d.live(id) && d.links(id) == new->Ok_0);
    let list = keyed::items_of(old) + t.kids(id);
    let left = keyed::items_of(new->Ok_0).to_set();
    replay::release_displaced_still(d, id, list, left, 0);
    assert(u.live(id) && u.kind(id) == d.kind(id));
}

proof fn fields_grow_live(
    s: Tx,
    id: NodeId,
    old: Seq<(Chars, NodeId)>,
    fields: Seq<(Chars, Json)>,
    store: bool,
    owner: Path,
    depth: nat,
    ids: Seq<NodeId>,
    n: nat,
    was: Map<NodeId, Entry>,
)
    requires
        patching::steady(s, was, ids),
        s.live(id),
        shape::climbs(s.nodes, id, depth),
        reconciling::sized_fields(fields, n),
        model::place_fields(s, id, old, fields, store, owner, depth, 0, Seq::empty(), ids).1 is Ok,
        model::place_fields(
            s,
            id,
            old,
            fields,
            store,
            owner,
            depth,
            0,
            Seq::empty(),
            ids,
        ).0.allocated.len() <= ids.len(),
    ensures
        model::place_fields(
            s,
            id,
            old,
            fields,
            store,
            owner,
            depth,
            0,
            Seq::empty(),
            ids,
        ).0.live(id),
{
    fresh_list(s, id, depth, n, was, ids);
    let none = Seq::<(Chars, NodeId)>::empty();
    assert(keyed::items_of(none) =~= Seq::<NodeId>::empty());
    assert(keyed::items_of(guard::plain(fields, store, 0)) =~= Seq::<Json>::empty());
    reconciling::place_fields_keeps(
        s,
        id,
        old,
        fields,
        store,
        owner,
        depth,
        0,
        none,
        ids,
        n,
        Set::empty(),
        guard::spine(s, id),
        guard::spine(s, id),
        was,
    );
    reveal(guard::keeps);
}

// -------------------------------------------------------------------------- at a position

proof fn items_extend(
    s: Tx,
    id: NodeId,
    old: Seq<NodeId>,
    items: Seq<Json>,
    owner: Path,
    depth: nat,
    i: int,
    placed: Seq<NodeId>,
    ids: Seq<NodeId>,
)
    requires
        0 <= i <= items.len(),
        model::place_items(s, id, old, items, owner, depth, i, placed, ids).1 is Ok,
    ensures
        ({
            let new = model::place_items(s, id, old, items, owner, depth, i, placed, ids).1->Ok_0;
            &&& new.len() == placed.len() + items.len() - i
            &&& forall|j: int| 0 <= j < placed.len() ==> new[j] == #[trigger] placed[j]
        }),
    decreases items.len() - i,
{
    if i < items.len() {
        let candidate = if i < old.len() {
            Some(old[i])
        } else {
            None
        };
        let existing = s.unclaimed(id, candidate, placed);
        let (t, child) = model::reconcile_child(
            s,
            id,
            existing,
            items[i],
            owner,
            model::deeper(depth),
            ids,
        );
        let next = placed.push(child->Ok_0);
        items_extend(t, id, old, items, owner, depth, i + 1, next, ids);
        let new = model::place_items(s, id, old, items, owner, depth, i, placed, ids).1->Ok_0;
        assert forall|j: int| 0 <= j < placed.len() implies new[j] == #[trigger] placed[j] by {
            assert(next[j] == placed[j]);
        }
    }
}

#[verifier::rlimit(40)]
proof fn item_stays(
    s: Tx,
    id: NodeId,
    old: Seq<NodeId>,
    items: Seq<Json>,
    owner: Path,
    depth: nat,
    i: int,
    placed: Seq<NodeId>,
    ids: Seq<NodeId>,
    n: nat,
    loose: Set<NodeId>,
    kept: Set<NodeId>,
    base: Set<NodeId>,
    was: Map<NodeId, Entry>,
    at: int,
)
    requires
        0 <= i <= at < items.len(),
        at < old.len(),
        reconciling::list_ready(s, id, depth, placed, items.take(i), n, loose, kept, base, was, ids),
        reconciling::sized(items, n),
        model::place_items(s, id, old, items, owner, depth, i, placed, ids).1 is Ok,
        model::place_items(s, id, old, items, owner, depth, i, placed, ids).0.allocated.len()
            <= ids.len(),
        forall|j: int| i <= j < at ==> #[trigger] old[j] != old[at],
        bare_document(items[at]),
        bare(s, old[at]),
        s.parent_of(old[at]) == Some(id),
        !placed.contains(old[at]),
    ensures
        model::place_items(s, id, old, items, owner, depth, i, placed, ids).1->Ok_0[at] == old[at],
    decreases at - i,
{
    let x = old[at];
    let candidate = if i < old.len() {
        Some(old[i])
    } else {
        None
    };
    let existing = s.unclaimed(id, candidate, placed);
    let deep = model::deeper(depth);
    let v = items[i];
    let (t, child) = model::reconcile_child(s, id, existing, v, owner, deep, ids);
    let kid = child->Ok_0;
    let next = placed.push(kid);
    assert(placed.len() == i);
    growth::place_items_grows(t, id, old, items, owner, depth, i + 1, next, ids);
    if i == at {
        items_extend(t, id, old, items, owner, depth, i + 1, next, ids);
        assert(kid == x);
        assert(next[i] == x);
    } else {
        let docs = items.take(i);
        reconciling::next_ready(
            s,
            id,
            depth,
            candidate,
            placed,
            docs,
            n,
            loose,
            kept,
            base,
            was,
            ids,
        );
        reconciling::reconcile_child_keeps(
            s,
            id,
            existing,
            v,
            owner,
            deep,
            ids,
            n,
            loose,
            kept,
            was,
        );
        spared(s, id, existing, v, owner, deep, ids, n, loose, kept, was, x);
        reconciling::next_placed(
            s,
            t,
            id,
            depth,
            existing,
            kid,
            v,
            placed,
            docs,
            n,
            loose,
            kept,
            base,
            was,
            ids,
        );
        let more = guard::widened(t, kept, kid, n);
        assert(docs.push(v) =~= items.take(i + 1));
        assert(!next.contains(x)) by {
            if next.contains(x) {
                let j = choose|j: int| 0 <= j < next.len() && next[j] == x;
                if j < placed.len() {
                    assert(placed[j] == x);
                }
            }
        }
        item_stays(
            t,
            id,
            old,
            items,
            owner,
            depth,
            i + 1,
            next,
            ids,
            n,
            loose,
            more,
            base,
            was,
            at,
        );
    }
}

/// An element that stays keeps its node: where an array is rewritten with an array, the
/// node that was at a position that both have is at it still, unless that or the value is
/// a store or a stream.
pub proof fn an_element_keeps_its_node(
    s: Tx,
    id: NodeId,
    items: Seq<Json>,
    owner: Path,
    depth: nat,
    ids: Seq<NodeId>,
    was: Map<NodeId, Entry>,
    at: int,
)
    requires
        patching::steady(s, was, ids),
        s.live(id),
        s.kind(id) is Array,
        shape::climbs(s.nodes, id, depth),
        Json::Array(items).well_formed(),
        0 <= at < items.len(),
        at < s.kids(id).len(),
        bare(s, s.kids(id)[at]),
        bare_document(items[at]),
        model::reconcile(s, id, Json::Array(items), owner, depth, ids).1 is Ok,
        model::reconcile(s, id, Json::Array(items), owner, depth, ids).0.allocated.len()
            <= ids.len(),
    ensures
        ({
            let t = model::reconcile(s, id, Json::Array(items), owner, depth, ids).0;
            &&& t.live(id)
            &&& t.kind(id) is Array
            &&& t.kids(id).len() == items.len()
            &&& t.kids(id)[at] == s.kids(id)[at]
        }),
{
    let v = Json::Array(items);
    let old = s.kids(id);
    let n = value::nesting(v) + 1;
    let none = Seq::<NodeId>::empty();
    assert(shape::linked(s)) by {
        reveal(shape::good);
    }
    assert(old.contains(old[at]));
    assert(s.parent_of(old[at]) == Some(id));
    assert(old.no_duplicates());
    assert(reconciling::sized(items, n)) by {
        assert forall|j: int| 0 <= j < items.len() implies (#[trigger] items[j]).well_formed()
            && value::nesting(items[j]) < n by {
            value::item_nesting(items, j);
        }
    }
    fresh_list(s, id, depth, n, was, ids);
    assert(items.take(0) =~= Seq::<Json>::empty());
    let (t, new) = model::place_items(s, id, old, items, owner, depth, 0, none, ids);
    let u = model::install_array(t, id, old, new->Ok_0);
    growth::install_array_makes_none(t, id, old, new->Ok_0);
    assert(model::reconcile(s, id, v, owner, depth, ids) == (
        u,
        Ok::<(), crate::state::error::Fault>(()),
    ));
    let kept = guard::spine(s, id);
    item_stays(s, id, old, items, owner, depth, 0, none, ids, n, Set::empty(), kept, kept, was, at);
    items_extend(s, id, old, items, owner, depth, 0, none, ids);
    reconciling::place_items_keeps(
        s,
        id,
        old,
        items,
        owner,
        depth,
        0,
        none,
        ids,
        n,
        Set::empty(),
        kept,
        kept,
        was,
    );
    assert(t.live(id) && t.kind(id) is Array) by {
        reveal(guard::keeps);
        reveal_with_fuel(Tx::met_above, 2);
        assert(kept.contains(id) && s.live(id));
        assert(guard::eroded(s, kept, s.kind(id), t.kind(id)));
    }
    replay::touch_dirty_still(t, id);
    let d = if t.kids(id) == new->Ok_0 {
        t
    } else {
        t.touch_dirty(id).put_kind(id, Kind::Array(new->Ok_0))
    };
    assert(t.touch_dirty(id).live(id));
    assert(d.live(id) && d.kind(id) == Kind::Array(new->Ok_0));
    replay::release_displaced_still(d, id, old + t.kids(id), new->Ok_0.to_set(), 0);
    assert(u.live(id) && u.kind(id) == d.kind(id));
}

// -------------------------------------------------------------------------- two fields

/// Two fields swap: where a key of an object or of a store is given the store that stands
/// under another key of it, the node that was under the first key, if it is no store and
/// no stream, is under the second.
pub proof fn two_fields_swap(
    s: Tx,
    parent: NodeId,
    key: Chars,
    e: NodeId,
    other: Chars,
    f: NodeId,
    v: Json,
    path: Path,
    owner: Path,
    depth: nat,
    ids: Seq<NodeId>,
    was: Map<NodeId, Entry>,
)
    requires
        patching::steady(s, was, ids),
        moving::keyed_node(s, parent),
        depth >= 1,
        shape::climbs(s.nodes, parent, (depth - 1) as nat),
        v.well_formed(),
        s.links(parent).contains((key, e)),
        s.links(parent).contains((other, f)),
        key != other,
        bare(s, e),
        marker::form_of(v) matches Form::Store { id, .. } && id == path,
        s.stores.contains_key(path),
        s.stores[path] == f,
        s.kind(f) matches Kind::Store { id, .. } && id == path,
        !s.claimed.contains(path),
        f != s.root,
        moving::apart(s, f, parent),
        model::put_field(s, parent, key, v, owner, depth, ids).1 is Ok,
        model::put_field(s, parent, key, v, owner, depth, ids).0.allocated.len() <= ids.len(),
    ensures
        model::put_field(s, parent, key, v, owner, depth, ids).0.links(parent).contains((key, f)),
        model::put_field(s, parent, key, v, owner, depth, ids).0.links(parent).contains((other, e)),
{
    let n = value::nesting(v) + 1;
    let before = s.links(parent);
    let t = model::put_field(s, parent, key, v, owner, depth, ids).0;
    assert(shape::linked(s) && shape::tidied(s) && shape::bounded(s.nodes)) by {
        reveal(shape::good);
    }
    assert(shape::tidy(s.kind(parent)));
    granting::key_is(before, key, e);
    granting::key_is(before, other, f);
    let at = choose|at: int| 0 <= at < before.len() && before[at] == (other, f);
    assert(s.kids(parent)[at] == f);
    assert(s.kids(parent).contains(f));
    let here = choose|here: int| 0 <= here < before.len() && before[here] == (key, e);
    assert(s.kids(parent)[here] == e);
    assert(s.kids(parent).contains(e));
    let (b, child) = model::reconcile_child(s, parent, Some(e), v, owner, depth, ids);
    moving::a_store_moves(s, parent, Some(e), v, path, owner, depth, ids, f);
    assert(model::reconcile_child(s, parent, None, v, owner, depth, ids) == (b, child));
    assert(t == model::swap_in_field(b, parent, key, Some(e), f, before));
    growth::touch_dirty_makes_none(b, parent);
    patching::slot_ready(s, parent, None, depth, was, ids);
    let kept = guard::spine(s, parent);
    spared(s, parent, None, v, owner, depth, ids, n, Set::empty(), kept, was, e);
    reconciling::reconcile_child_keeps(
        s,
        parent,
        None,
        v,
        owner,
        depth,
        ids,
        n,
        Set::empty(),
        kept,
        was,
    );
    patching::put_field_keeps(s, parent, key, v, owner, depth, ids, n, was);
    replay::touch_dirty_still(b, parent);
    let d = b.touch_dirty(parent);
    assert(b.live(parent)) by {
        reveal(guard::keeps);
        assert(kept.contains(parent) && s.live(parent));
    }
    assert(d.live(parent) && d.kind(parent) == b.kind(parent));
    let held = d.links(parent);
    assert(keyed::sorted(held)) by {
        reveal(shape::good);
        assert(shape::tidy(b.kind(parent)));
    }
    placing::node_index_meaning(keyed::items_of(before), f);
    assert(s.kids(parent) == keyed::items_of(before));
    assert(s.kids(parent).no_duplicates());
    let from = model::node_index(keyed::items_of(before), f) as int;
    assert(s.kids(parent)[from] == f);
    assert(from == at);
    let put = keyed::put(held, key, f);
    keyed::put_sorted(held, key, f);
    keyed::put_lookup(held, key, f);
    let new = keyed::put(put, other, e);
    keyed::put_sorted(put, other, e);
    keyed::put_lookup(put, other, e);
    keyed::put_others(put, other, e, key);
    let u = d.put_kind(parent, d.kind(parent).with_fields(new));
    assert(t.kind(parent) == u.kind(parent) && t.live(parent) == u.live(parent));
    assert(t.links(parent) == new);
    keyed::key_index_meaning(new, key);
    keyed::key_index_meaning(new, other);
    assert(new[keyed::key_index(new, key) as int] == (key, f));
    assert(new[keyed::key_index(new, other) as int] == (other, e));
}

/// Two elements swap: where a position of an array is given the store that stands at
/// another position of it, the node that was at the first, if it is no store and no
/// stream, is at the second.
pub proof fn two_elements_swap(
    s: Tx,
    parent: NodeId,
    i: int,
    j: int,
    v: Json,
    path: Path,
    owner: Path,
    depth: nat,
    ids: Seq<NodeId>,
    was: Map<NodeId, Entry>,
)
    requires
        patching::steady(s, was, ids),
        s.live(parent),
        s.kind(parent) is Array,
        depth >= 1,
        shape::climbs(s.nodes, parent, (depth - 1) as nat),
        v.well_formed(),
        0 <= i < s.kids(parent).len(),
        0 <= j < s.kids(parent).len(),
        i != j,
        bare(s, s.kids(parent)[i]),
        marker::form_of(v) matches Form::Store { id, .. } && id == path,
        s.stores.contains_key(path),
        s.stores[path] == s.kids(parent)[j],
        s.live(s.kids(parent)[j]),
        s.kind(s.kids(parent)[j]) matches Kind::Store { id, .. } && id == path,
        !s.claimed.contains(path),
        s.kids(parent)[j] != s.root,
        moving::apart(s, s.kids(parent)[j], parent),
        model::put_index(s, parent, i, v, owner, depth, ids).1 is Ok,
        model::put_index(s, parent, i, v, owner, depth, ids).0.allocated.len() <= ids.len(),
    ensures
        ({
            let t = model::put_index(s, parent, i, v, owner, depth, ids).0;
            &&& t.kids(parent).len() == s.kids(parent).len()
            &&& t.kids(parent)[i] == s.kids(parent)[j]
            &&& t.kids(parent)[j] == s.kids(parent)[i]
        }),
{
    let n = value::nesting(v) + 1;
    let old = s.kids(parent);
    let e = old[i];
    let f = old[j];
    let t = model::put_index(s, parent, i, v, owner, depth, ids).0;
    assert(shape::linked(s) && shape::bounded(s.nodes)) by {
        reveal(shape::good);
    }
    assert(s.kids(parent).contains(e) && s.kids(parent).contains(f));
    assert(s.kids(parent).no_duplicates());
    let (b, child) = model::reconcile_child(s, parent, Some(e), v, owner, depth, ids);
    moving::a_store_moves(s, parent, Some(e), v, path, owner, depth, ids, f);
    assert(model::reconcile_child(s, parent, None, v, owner, depth, ids) == (b, child));
    let held = b.kids(parent);
    placing::node_index_meaning(old, f);
    let from = model::node_index(old, f) as int;
    assert(old[from] == f);
    assert(from == j);
    let put = model::set_at(held, i, f);
    let more = model::set_at(put, j, e);
    let new = if b.parent_of(e) == Some(parent) {
        more
    } else {
        put
    };
    assert(t == model::install_array(b, parent, old, new));
    growth::install_array_makes_none(b, parent, old, new);
    patching::slot_ready(s, parent, None, depth, was, ids);
    let kept = guard::spine(s, parent);
    spared(s, parent, None, v, owner, depth, ids, n, Set::empty(), kept, was, e);
    reconciling::reconcile_child_keeps(
        s,
        parent,
        None,
        v,
        owner,
        depth,
        ids,
        n,
        Set::empty(),
        kept,
        was,
    );
    assert(b.live(parent) && b.kind(parent) is Array && held.len() == old.len()) by {
        reveal(guard::keeps);
        assert(kept.contains(parent) && s.live(parent));
        assert(guard::eroded(s, kept, s.kind(parent), b.kind(parent)));
    }
    assert(new == more);
    replay::touch_dirty_still(b, parent);
    let d = if held == new {
        b
    } else {
        b.touch_dirty(parent).put_kind(parent, Kind::Array(new))
    };
    assert(b.touch_dirty(parent).live(parent));
    assert(d.live(parent) && d.kind(parent) == Kind::Array(new));
    replay::release_displaced_still(d, parent, old + held, new.to_set(), 0);
    assert(t.live(parent) && t.kind(parent) == d.kind(parent));
}

// ------------------------------------------------------------------------ an async node

/// Rewriting one slot of an async node with what is no store and no stream leaves both of
/// its slots the nodes they are.
proof fn slot_rewritten(
    s: Tx,
    id: NodeId,
    status: AsyncStatus,
    result: NodeId,
    reason: NodeId,
    first: bool,
    v: Json,
    owner: Path,
    deep: nat,
    ids: Seq<NodeId>,
    n: nat,
    was: Map<NodeId, Entry>,
)
    requires
        patching::steady(s, was, ids),
        s.live(id),
        s.kind(id) == (Kind::Async { status, result, reason }),
        deep >= 1,
        shape::climbs(s.nodes, id, (deep - 1) as nat),
        bare(s, result),
        bare(s, reason),
        bare_document(v),
        v.well_formed(),
        value::nesting(v) < n,
        ({
            let (t, child) = model::reconcile_child(
                s,
                id,
                Some(if first { result } else { reason }),
                v,
                owner,
                deep,
                ids,
            );
            child is Ok && t.allocated.len() <= ids.len()
        }),
    ensures
        ({
            let slot = if first {
                result
            } else {
                reason
            };
            let (t, child) = model::reconcile_child(s, id, Some(slot), v, owner, deep, ids);
            &&& child == Ok::<NodeId, crate::state::error::Fault>(slot)
            &&& patching::steady(t, was, ids)
            &&& t.live(id)
            &&& t.kind(id) == (Kind::Async { status, result, reason })
            &&& bare(t, if first { reason } else { result })
            &&& shape::climbs(t.nodes, id, (deep - 1) as nat)
        }),
{
    let slot = if first {
        result
    } else {
        reason
    };
    let x = if first {
        reason
    } else {
        result
    };
    let (t, child) = model::reconcile_child(s, id, Some(slot), v, owner, deep, ids);
    assert(shape::linked(s)) by {
        reveal(shape::good);
    }
    assert(s.kids(id)[0] == result && s.kids(id)[1] == reason && s.kids(id).len() == 2);
    assert(s.kids(id).contains(result) && s.kids(id).contains(reason));
    assert(s.kids(id).no_duplicates());
    assert(result != reason);
    assert(child == Ok::<NodeId, crate::state::error::Fault>(slot));
    patching::slot_ready(s, id, Some(slot), deep, was, ids);
    let kept = guard::spine(s, id);
    spared(s, id, Some(slot), v, owner, deep, ids, n, Set::empty(), kept, was, x);
    reconciling::reconcile_child_keeps(
        s,
        id,
        Some(slot),
        v,
        owner,
        deep,
        ids,
        n,
        Set::empty(),
        kept,
        was,
    );
    assert forall|y: NodeId| !#[trigger] shape::adrift(t, y) by {
        if shape::adrift(t, y) {
            assert(placing::adrift_still(s, t, y));
        }
    }
    assert(t.live(id) && t.kind(id) is Async && t.kind(id)->Async_status == status) by {
        reveal(guard::keeps);
        assert(kept.contains(id) && s.live(id));
        assert(guard::eroded(s, kept, s.kind(id), t.kind(id)));
    }
    assert(shape::bounded(s.nodes)) by {
        reveal(shape::good);
    }
    guard::guards_spine(s, id);
    assert forall|y: NodeId| #[trigger] kept.contains(y) implies t.live(y) && t.parent_of(y)
        == s.parent_of(y) && (s.parent_of(y) matches Some(up) ==> kept.contains(up)) by {
        reveal(guard::guards);
        reveal(guard::keeps);
        assert(kept.contains(y) && s.live(y));
    }
    guard::climbs_guarded(s, t, kept, id, (deep - 1) as nat);
    assert(guard::worn(s, kept, result, t.kind(id)->Async_result) && guard::worn(
        s,
        kept,
        reason,
        t.kind(id)->Async_reason,
    )) by {
        reveal(guard::keeps);
        assert(kept.contains(id) && s.live(id));
        assert(guard::eroded(s, kept, s.kind(id), t.kind(id)));
    }
    assert(!shape::adrift(t, slot) && !shape::adrift(t, x));
    assert(t.parent_of(slot) == Some(id));
    assert(t.kids(id).contains(slot) && t.kids(id).contains(x));
    assert(t.kids(id) == seq![t.kind(id)->Async_result, t.kind(id)->Async_reason]);
    let i = choose|i: int| 0 <= i < t.kids(id).len() && t.kids(id)[i] == result;
    let j = choose|j: int| 0 <= j < t.kids(id).len() && t.kids(id)[j] == reason;
    assert(s.live(result) && s.live(reason));
    assert(i != j);
}

/// An async node keeps its slots: where it is rewritten with an async document, its result
/// and its reason stand in the nodes they had, unless one of them, or of the two values, is
/// a store or a stream.
pub proof fn an_async_node_keeps_its_slots(
    s: Tx,
    id: NodeId,
    v: Json,
    status: AsyncStatus,
    result: NodeId,
    reason: NodeId,
    owner: Path,
    depth: nat,
    ids: Seq<NodeId>,
    was: Map<NodeId, Entry>,
)
    requires
        patching::steady(s, was, ids),
        s.live(id),
        s.kind(id) == (Kind::Async { status, result, reason }),
        shape::climbs(s.nodes, id, depth),
        v.well_formed(),
        marker::form_of(v) matches Form::Async { result: x, reason: y, .. } && bare_document(x)
            && bare_document(y) && x.well_formed() && y.well_formed(),
        bare(s, result),
        bare(s, reason),
        model::reconcile(s, id, v, owner, depth, ids).1 is Ok,
        model::reconcile(s, id, v, owner, depth, ids).0.allocated.len() <= ids.len(),
    ensures
        ({
            let t = model::reconcile(s, id, v, owner, depth, ids).0;
            &&& t.live(id)
            &&& t.kind(id) == (Kind::Async {
                status: marker::form_of(v)->Async_status,
                result,
                reason,
            })
        }),
{
    let new = marker::form_of(v)->Async_status;
    let x = marker::form_of(v)->Async_result;
    let y = marker::form_of(v)->Async_reason;
    let n = value::nesting(v) + 1;
    let deep = model::deeper(depth);
    model::form_nesting(v);
    let marked = model::put_status(s, id, new);
    reconciling::status_put(s, id, new, was, ids);
    assert forall|z: NodeId| !#[trigger] shape::adrift(marked, z) by {
        if shape::adrift(marked, z) {
            assert(placing::adrift_still(s, marked, z));
        }
    }
    moving::dirty_up_noted(s.touch(id), Some(id), MAX_WALK as nat);
    assert(shape::linked(s) && shape::bounded(s.nodes)) by {
        reveal(shape::good);
    }
    assert(s.kids(id)[0] == result && s.kids(id)[1] == reason);
    assert(s.kids(id).contains(result) && s.kids(id).contains(reason));
    shape::depth_step(s, result);
    shape::depth_step(s, reason);
    assert(marked.live(id) && marked.kind(id) == (Kind::Async { status: new, result, reason }));
    assert(bare(marked, result) && bare(marked, reason));
    rekinded_climbs(s, marked, id, depth);
    assert(shape::bounded(marked.nodes)) by {
        reveal(shape::good);
    }
    reconciling::one_deeper(marked, id, depth);
    let (t, first) = model::reconcile_child(marked, id, Some(result), x, owner, deep, ids);
    assert(first is Ok);
    let held = model::set_async_slot(t, id, true, first->Ok_0);
    let next = model::async_slot(held, id, false);
    growth::set_async_slot_makes_none(t, id, true, first->Ok_0);
    growth::reconcile_child_grows(held, id, next, y, owner, deep, ids);
    let (u, second) = model::reconcile_child(held, id, next, y, owner, deep, ids);
    assert(second is Ok);
    growth::set_async_slot_makes_none(u, id, false, second->Ok_0);
    slot_rewritten(marked, id, new, result, reason, true, x, owner, deep, ids, n, was);
    assert(held == t && next == Some(reason));
    assert(bare(t, result)) by {
        shown_bare(marked, id, result, x, owner, deep, ids, n, was);
    }
    slot_rewritten(t, id, new, result, reason, false, y, owner, deep, ids, n, was);
}

proof fn rekinded_climbs(s: Tx, t: Tx, id: NodeId, n: nat)
    requires
        shape::climbs(s.nodes, id, n),
        forall|x: NodeId| #[trigger]
            s.nodes.contains_key(x) ==> t.nodes.contains_key(x) && t.nodes[x].parent
                == s.nodes[x].parent,
    ensures
        shape::climbs(t.nodes, id, n),
    decreases n,
{
    if let Some(up) = s.nodes[id].parent {
        rekinded_climbs(s, t, up, (n - 1) as nat);
    }
}

/// What shows a document that is no store and no stream is neither.
proof fn shown_bare(
    s: Tx,
    id: NodeId,
    slot: NodeId,
    v: Json,
    owner: Path,
    deep: nat,
    ids: Seq<NodeId>,
    n: nat,
    was: Map<NodeId, Entry>,
)
    requires
        patching::steady(s, was, ids),
        s.live(id),
        deep >= 1,
        shape::climbs(s.nodes, id, (deep - 1) as nat),
        s.parent_of(slot) == Some(id),
        bare(s, slot),
        bare_document(v),
        v.well_formed(),
        value::nesting(v) < n,
        model::reconcile_child(s, id, Some(slot), v, owner, deep, ids).1 is Ok,
        model::reconcile_child(s, id, Some(slot), v, owner, deep, ids).0.allocated.len()
            <= ids.len(),
    ensures
        bare(model::reconcile_child(s, id, Some(slot), v, owner, deep, ids).0, slot),
{
    patching::slot_ready(s, id, Some(slot), deep, was, ids);
    reconciling::reconcile_child_keeps(
        s,
        id,
        Some(slot),
        v,
        owner,
        deep,
        ids,
        n,
        Set::empty(),
        guard::spine(s, id),
        was,
    );
    let (t, child) = model::reconcile_child(s, id, Some(slot), v, owner, deep, ids);
    assert(child == Ok::<NodeId, crate::state::error::Fault>(slot));
    assert(guard::shows(t, slot, v, n));
}

} // verus!
