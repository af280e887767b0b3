//! The edits that a collection is reported to have taken are those it took: they
//! lead from the rows it had to the rows it has.

use vstd::prelude::*;

use crate::state::change;
use crate::state::change::Edit;
use crate::state::keyed;
use crate::state::marker;
use crate::state::marker::{Form, STORE_ID_KEY};
use crate::state::model;
use crate::state::model::{Tx, MAX_WALK};
use crate::state::node;
use crate::state::node::{AsyncStatus, Kind, NodeId};
use crate::state::placing;
use crate::state::pointer;
use crate::state::pointer::ArrayIndex;
use crate::state::text::Chars;
use crate::state::value;
use crate::state::value::Json;
use crate::state::wire::{PatchOp, Path, StreamOp};

verus! {

/// One node that is watched: the row keys it had when the transaction opened, and
/// the ids the transaction takes.
pub struct Watch {
    pub id: NodeId,
    pub keys: Seq<Chars>,
    pub ids: Seq<NodeId>,
}

/// The transaction does not make the node that is watched.
pub open spec fn fresh(w: Watch) -> bool {
    forall|k: int| 0 <= k < w.ids.len() ==> #[trigger] w.ids[k] != w.id
}

/// The keys of a list of rows.
pub open spec fn row_keys(rows: Seq<(Chars, NodeId)>) -> Seq<Chars> {
    Seq::new(rows.len(), |i: int| rows[i].0)
}

/// The row keys of a node, none where it is no collection.
pub open spec fn names(s: Tx, id: NodeId) -> Seq<Chars> {
    row_keys(s.rows(id))
}

/// Whether the edits logged so far lead from the keys a node had to those it has.
#[verifier::opaque]
pub open spec fn holds(s: Tx, w: Watch) -> bool {
    change::replayed(change::edits_of(s.edits, w.id), w.keys) == Some(names(s, w.id))
}

/// Whether a node has no rows.
pub open spec fn blank(s: Tx, w: Watch) -> bool {
    s.rows(w.id).len() == 0
}

/// Whether the ids a transaction takes were enough so far.
pub open spec fn ok(s: Tx, w: Watch) -> bool {
    s.allocated.len() <= w.ids.len()
}

/// A step that logs what it does to the rows.
pub open spec fn loyal(s: Tx, t: Tx, w: Watch) -> bool {
    &&& s.allocated.len() <= t.allocated.len()
    &&& ok(t, w) && holds(s, w) ==> holds(t, w)
}

/// A step that logs what it does to the rows, and brings no row.
pub open spec fn shrinks(s: Tx, t: Tx, w: Watch) -> bool {
    &&& loyal(s, t, w)
    &&& ok(t, w) && blank(s, w) ==> blank(t, w)
}

/// A step that leaves what every node is, and the log, as they were.
pub open spec fn still(s: Tx, t: Tx) -> bool {
    &&& t.edits == s.edits
    &&& t.allocated == s.allocated
    &&& forall|x: NodeId|
        #![trigger t.live(x)]
        #![trigger t.kind(x)]
        t.live(x) == s.live(x) && (s.live(x) ==> t.kind(x) == s.kind(x))
}

proof fn still_shrinks(s: Tx, t: Tx, w: Watch)
    requires
        still(s, t),
    ensures
        shrinks(s, t, w),
{
    reveal(holds);
    assert(t.live(w.id) == s.live(w.id));
    assert(names(t, w.id) =~= names(s, w.id));
}

/// Giving a node without rows a kind without rows.
proof fn rekind_shrinks(s: Tx, id: NodeId, kind: Kind, w: Watch)
    requires
        kind matches Kind::Collection { items, .. } ==> items.len() == 0,
        id == w.id && ok(s, w) ==> blank(s, w),
    ensures
        shrinks(s, s.put_kind(id, kind), w),
{
    reveal(holds);
    let t = s.put_kind(id, kind);
    if ok(s, w) {
        assert(names(t, w.id) =~= names(s, w.id));
    }
}

pub proof fn dirty_up_still(s: Tx, cursor: Option<NodeId>, walk: nat)
    ensures
        still(s, s.dirty_up(cursor, walk)),
    decreases walk,
{
    if let Some(id) = cursor {
        if walk > 0 && s.live(id) {
            dirty_up_still(s.note_dirty(id), s.nodes[id].parent, (walk - 1) as nat);
        }
    }
}

pub proof fn touch_dirty_still(s: Tx, id: NodeId)
    ensures
        still(s, s.touch_dirty(id)),
{
    dirty_up_still(s.touch(id), Some(id), MAX_WALK as nat);
}

pub proof fn release_displaced_still(
    s: Tx,
    parent: NodeId,
    list: Seq<NodeId>,
    kept: Set<NodeId>,
    i: int,
)
    ensures
        still(s, s.release_displaced(parent, list, kept, i)),
    decreases list.len() - i,
{
    if 0 <= i < list.len() {
        if kept.contains(list[i]) {
            release_displaced_still(s, parent, list, kept, i + 1);
        } else {
            release_displaced_still(
                s.release_if_mine(parent, list[i]),
                parent,
                list,
                kept,
                i + 1,
            );
        }
    }
}

pub proof fn release_each_still(s: Tx, list: Seq<NodeId>, i: int)
    ensures
        still(s, s.release_each(list, i)),
    decreases list.len() - i,
{
    if 0 <= i < list.len() {
        release_each_still(s.release(list[i]), list, i + 1);
    }
}

proof fn make_shrinks(s: Tx, parent: Option<NodeId>, w: Watch)
    requires
        fresh(w),
    ensures
        shrinks(s, s.make(parent, w.ids).0, w),
{
    reveal(holds);
    let t = s.make(parent, w.ids).0;
    if t != s && ok(t, w) {
        assert(w.ids[s.allocated.len() as int] != w.id);
        assert(names(t, w.id) =~= names(s, w.id));
    }
}

proof fn detach_shrinks(s: Tx, parent: NodeId, child: NodeId, w: Watch)
    requires
        fresh(w),
    ensures
        shrinks(s, s.detach(parent, child, w.ids).0, w),
{
    if s.live(parent) {
        let d = s.touch_dirty(parent);
        touch_dirty_still(s, parent);
        still_shrinks(s, d, w);
        let kind = d.kind(parent);
        let at = model::node_index(kind.kids(), child);
        placing::node_index_meaning(kind.kids(), child);
        if at < kind.kids().len() {
            if let Kind::Collection { name, owner, items } = kind {
                let t = s.detach(parent, child, w.ids).0;
                let edit = Edit::Removed { key: items[at as int].0, index: at };
                assert(shrinks(d, t, w)) by {
                    reveal(holds);
                    change::edits_pushed(d.edits, parent, edit, w.id);
                    if parent == w.id {
                        change::replayed_pushed(change::edits_of(d.edits, w.id), edit, w.keys);
                        assert(names(t, w.id) =~= names(d, w.id).remove(at as int));
                    } else {
                        assert(names(t, w.id) =~= names(d, w.id));
                    }
                }
            } else {
                let (t, filler) = d.make(Some(parent), w.ids);
                make_shrinks(d, Some(parent), w);
                if let Ok(kid) = filler {
                    rekind_shrinks(t, parent, model::with_kid(kind, at as int, kid), w);
                }
            }
        }
    }
}

proof fn adopt_shrinks(s: Tx, parent: NodeId, id: NodeId, w: Watch)
    requires
        fresh(w),
    ensures
        shrinks(s, s.adopt(parent, id, w.ids).0, w),
{
    let a = s.touch(id).unpend(id);
    still_shrinks(s, a, w);
    let (t, left) = match a.parent_of(id) {
        Some(up) => a.detach(up, id, w.ids),
        None => (a, Ok(())),
    };
    if let Some(up) = a.parent_of(id) {
        detach_shrinks(a, up, id, w);
    }
    if left is Ok {
        let p = t.put_parent(id, Some(parent));
        dirty_up_still(p, Some(parent), MAX_WALK as nat);
        still_shrinks(t, p.mark_dirty(parent), w);
    }
}

pub proof fn reconcile_child_shrinks(
    s: Tx,
    parent: NodeId,
    existing: Option<NodeId>,
    v: Json,
    owner: Path,
    depth: nat,
    w: Watch,
)
    requires
        fresh(w),
    ensures
        shrinks(s, model::reconcile_child(s, parent, existing, v, owner, depth, w.ids).0, w),
    decreases value::nesting(v), 5int, 0int,
{
    match marker::form_of(v) {
        Form::Store { id: path, .. } => {
            let t = s.claim(path);
            still_shrinks(s, t, w);
            if existing is Some && t.is_store(existing->0, path) {
                reconcile_shrinks(t, existing->0, v, owner, depth, w);
            } else if !s.claimed.contains(path) && t.adoptable_store(
                parent,
                existing,
                path,
            ) is Some {
                let found = t.adoptable_store(parent, existing, path)->0;
                reconcile_adopted_shrinks(t, parent, found, v, owner, depth, w);
            } else {
                build_shrinks(t, parent, v, owner, depth, w);
            }
        },
        Form::Collection { name } => {
            let t = s.claim_stream((owner, name));
            still_shrinks(s, t, w);
            if existing is Some && t.is_collection(existing->0, name) {
                still_shrinks(s, t.claim_stream(t.stream_of(existing->0)), w);
            } else if !s.claimed_streams.contains((owner, name)) && t.adoptable_stream(
                parent,
                existing,
                (owner, name),
            ) is Some {
                let found = t.adoptable_stream(parent, existing, (owner, name))->0;
                reconcile_adopted_shrinks(t, parent, found, v, owner, depth, w);
            } else {
                reconcile_slot_shrinks(t, parent, existing, v, owner, depth, w);
            }
        },
        _ => {
            reconcile_slot_shrinks(s, parent, existing, v, owner, depth, w);
        },
    }
}

proof fn reconcile_adopted_shrinks(
    s: Tx,
    parent: NodeId,
    found: NodeId,
    v: Json,
    owner: Path,
    depth: nat,
    w: Watch,
)
    requires
        fresh(w),
    ensures
        shrinks(s, model::reconcile_adopted(s, parent, found, v, owner, depth, w.ids).0, w),
    decreases value::nesting(v), 4int, 1int,
{
    adopt_shrinks(s, parent, found, w);
    reconcile_shrinks(s.adopt(parent, found, w.ids).0, found, v, owner, depth, w);
}

proof fn reconcile_slot_shrinks(
    s: Tx,
    parent: NodeId,
    existing: Option<NodeId>,
    v: Json,
    owner: Path,
    depth: nat,
    w: Watch,
)
    requires
        fresh(w),
    ensures
        shrinks(s, model::reconcile_slot(s, parent, existing, v, owner, depth, w.ids).0, w),
    decreases value::nesting(v), 4int, 1int,
{
    match existing {
        Some(id) => {
            if s.is_store_node(id) {
                build_shrinks(s, parent, v, owner, depth, w);
            } else {
                reconcile_shrinks(s, id, v, owner, depth, w);
            }
        },
        None => {
            build_shrinks(s, parent, v, owner, depth, w);
        },
    }
}

proof fn install_array_shrinks(
    s: Tx,
    id: NodeId,
    old: Seq<NodeId>,
    placed: Seq<NodeId>,
    w: Watch,
)
    requires
        id == w.id && ok(s, w) ==> blank(s, w),
    ensures
        shrinks(s, model::install_array(s, id, old, placed), w),
{
    let d = s.touch_dirty(id);
    touch_dirty_still(s, id);
    let t = if s.kids(id) == placed {
        s
    } else {
        d.put_kind(id, Kind::Array(placed))
    };
    still_shrinks(s, d, w);
    rekind_shrinks(d, id, Kind::Array(placed), w);
    let u = t.release_displaced(id, old + s.kids(id), placed.to_set(), 0);
    release_displaced_still(t, id, old + s.kids(id), placed.to_set(), 0);
    still_shrinks(t, u, w);
}

proof fn install_fields_shrinks(
    s: Tx,
    id: NodeId,
    old: Seq<(Chars, NodeId)>,
    kind: Kind,
    placed: Seq<(Chars, NodeId)>,
    w: Watch,
)
    requires
        id == w.id && ok(s, w) ==> blank(s, w),
        !(kind is Collection),
    ensures
        shrinks(s, model::install_fields(s, id, old, kind, placed), w),
{
    let d = s.touch_dirty(id);
    touch_dirty_still(s, id);
    let t = if s.fields(id) == Some(placed) {
        s
    } else {
        d.put_kind(id, kind)
    };
    still_shrinks(s, d, w);
    rekind_shrinks(d, id, kind, w);
    let list = keyed::items_of(old) + s.kids(id);
    let kept = keyed::items_of(placed).to_set();
    release_displaced_still(t, id, list, kept, 0);
    still_shrinks(t, t.release_displaced(id, list, kept, 0), w);
}

proof fn set_async_slot_shrinks(s: Tx, id: NodeId, first: bool, now: NodeId, w: Watch)
    ensures
        shrinks(s, model::set_async_slot(s, id, first, now), w),
{
    if let Some(held) = model::async_slot(s, id, first) {
        let d = s.touch_dirty(id);
        touch_dirty_still(s, id);
        still_shrinks(s, d, w);
        let kind = model::with_kid(
            s.kind(id),
            if first {
                0
            } else {
                1
            },
            now,
        );
        rekind_shrinks(d, id, kind, w);
        let t = d.put_kind(id, kind);
        still_shrinks(t, t.release_if_mine(id, held), w);
    }
}

pub proof fn reconcile_shrinks(
    s: Tx,
    id: NodeId,
    v: Json,
    owner: Path,
    depth: nat,
    w: Watch,
)
    requires
        fresh(w),
    ensures
        shrinks(s, model::reconcile(s, id, v, owner, depth, w.ids).0, w),
    decreases value::nesting(v), 4int, 0int,
{
    if s.live(id) && !model::unchanged(s.kind(id), marker::form_of(v)) {
        model::form_nesting(v);
        match (s.kind(id), marker::form_of(v)) {
            (Kind::Object(old), Form::Object(fields)) => {
                place_fields_shrinks(s, id, old, fields, false, owner, depth, 0, Seq::empty(), w);
                let (t, new) = model::place_fields(
                    s,
                    id,
                    old,
                    fields,
                    false,
                    owner,
                    depth,
                    0,
                    Seq::empty(),
                    w.ids,
                );
                if let Ok(placed) = new {
                    install_fields_shrinks(t, id, old, Kind::Object(placed), placed, w);
                }
            },
            (Kind::Store { id: path, fields: old }, Form::Store { id: held, fields }) => {
                if path == held {
                    place_fields_shrinks(
                        s,
                        id,
                        old,
                        fields,
                        true,
                        path,
                        depth,
                        0,
                        Seq::empty(),
                        w,
                    );
                    let (t, new) = model::place_fields(
                        s,
                        id,
                        old,
                        fields,
                        true,
                        path,
                        depth,
                        0,
                        Seq::empty(),
                        w.ids,
                    );
                    if let Ok(placed) = new {
                        install_fields_shrinks(
                            t,
                            id,
                            old,
                            Kind::Store { id: path, fields: placed },
                            placed,
                            w,
                        );
                    }
                } else {
                    rebuild_shrinks(s, id, v, owner, depth, w);
                }
            },
            (Kind::Array(old), Form::Array(items)) => {
                place_items_shrinks(s, id, old, items, owner, depth, 0, Seq::empty(), w);
                let (t, new) = model::place_items(
                    s,
                    id,
                    old,
                    items,
                    owner,
                    depth,
                    0,
                    Seq::empty(),
                    w.ids,
                );
                if let Ok(placed) = new {
                    install_array_shrinks(t, id, old, placed, w);
                }
            },
            (Kind::Async { status, result, reason }, Form::Async {
                status: new_status,
                result: new_result,
                reason: new_reason,
            }) => {
                let marked = model::put_status(s, id, new_status);
                put_status_shrinks(s, id, new_status, w);
                let deep = model::deeper(depth);
                reconcile_child_shrinks(marked, id, Some(result), new_result, owner, deep, w);
                let (t, first) = model::reconcile_child(
                    marked,
                    id,
                    Some(result),
                    new_result,
                    owner,
                    deep,
                    w.ids,
                );
                if let Ok(now) = first {
                    let held = model::set_async_slot(t, id, true, now);
                    set_async_slot_shrinks(t, id, true, now, w);
                    let next = model::async_slot(held, id, false);
                    reconcile_child_shrinks(held, id, next, new_reason, owner, deep, w);
                    let (u, second) = model::reconcile_child(
                        held,
                        id,
                        next,
                        new_reason,
                        owner,
                        deep,
                        w.ids,
                    );
                    if let Ok(last) = second {
                        set_async_slot_shrinks(u, id, false, last, w);
                    }
                }
            },
            _ => {
                rebuild_shrinks(s, id, v, owner, depth, w);
            },
        }
    }
}

proof fn rebuild_shrinks(s: Tx, id: NodeId, v: Json, owner: Path, depth: nat, w: Watch)
    requires
        fresh(w),
    ensures
        shrinks(s, model::rebuild(s, id, v, owner, depth, w.ids).0, w),
    decreases value::nesting(v), 3int, 0int,
{
    let l = s.log_loss(id);
    let t = l.touch_dirty(id);
    touch_dirty_still(l, id);
    let e = t.unregister(id).put_kind(id, Kind::Null);
    let r = e.release_each(t.kids(id), 0);
    release_each_still(e, t.kids(id), 0);
    assert(shrinks(s, r, w) && (id == w.id ==> blank(r, w))) by {
        reveal(holds);
        assert(t.unregister(id).nodes == t.nodes);
        assert(t.unregister(id).edits == l.edits);
        if id != w.id {
            change::edits_pushed(s.edits, id, Edit::Reset, w.id);
            assert(r.live(w.id) == e.live(w.id) && t.live(w.id) == l.live(w.id));
            assert(names(r, w.id) =~= names(s, w.id));
        } else {
            assert(r.live(w.id) == e.live(w.id) && t.live(w.id) == l.live(w.id));
            assert(names(r, id) =~= Seq::<Chars>::empty());
            assert(r.rows(id) =~= Seq::<(Chars, NodeId)>::empty());
            if s.live(id) && s.kind(id) is Collection {
                change::edits_pushed(s.edits, id, Edit::Reset, id);
                change::replayed_pushed(
                    change::edits_of(s.edits, id),
                    Edit::Reset,
                    w.keys,
                );
            } else {
                assert(names(s, id) =~= Seq::<Chars>::empty());
            }
        }
    }
    install_shrinks(r, id, v, owner, depth, w);
}

proof fn build_shrinks(s: Tx, parent: NodeId, v: Json, owner: Path, depth: nat, w: Watch)
    requires
        fresh(w),
    ensures
        shrinks(s, model::build(s, parent, v, owner, depth, w.ids).0, w),
    decreases value::nesting(v), 3int, 0int,
{
    let (t, made) = s.make(Some(parent), w.ids);
    make_shrinks(s, Some(parent), w);
    if let Ok(id) = made {
        if ok(t, w) {
            assert(w.ids[s.allocated.len() as int] != w.id);
        }
        install_shrinks(t, id, v, owner, depth, w);
    }
}

/// Giving a node without rows its kind and its value.
proof fn finish_shrinks(s: Tx, id: NodeId, kind: Kind, w: Watch)
    requires
        kind matches Kind::Collection { items, .. } ==> items.len() == 0,
        id == w.id && ok(s, w) ==> blank(s, w),
    ensures
        shrinks(s, model::finish(s, id, kind), w),
{
    rekind_shrinks(s, id, kind, w);
    still_shrinks(s.put_kind(id, kind), model::finish(s, id, kind), w);
}

pub proof fn install_shrinks(s: Tx, id: NodeId, v: Json, owner: Path, depth: nat, w: Watch)
    requires
        fresh(w),
        id == w.id && ok(s, w) ==> blank(s, w),
    ensures
        shrinks(s, model::install(s, id, v, owner, depth, w.ids).0, w),
    decreases value::nesting(v), 2int, 0int,
{
    model::form_nesting(v);
    let none = Seq::<NodeId>::empty();
    let bare = Seq::<(Chars, NodeId)>::empty();
    match marker::form_of(v) {
        Form::Null => {
            finish_shrinks(s, id, Kind::Null, w);
        },
        Form::Bool(flag) => {
            finish_shrinks(s, id, Kind::Bool(flag), w);
        },
        Form::Number(number) => {
            finish_shrinks(s, id, Kind::Number(number), w);
        },
        Form::Text(text) => {
            finish_shrinks(s, id, Kind::Text(text), w);
        },
        Form::Array(items) => {
            place_items_shrinks(s, id, none, items, owner, depth, 0, none, w);
            let (t, new) = model::place_items(s, id, none, items, owner, depth, 0, none, w.ids);
            if let Ok(placed) = new {
                finish_shrinks(t, id, Kind::Array(placed), w);
            }
        },
        Form::Object(fields) => {
            place_fields_shrinks(s, id, bare, fields, false, owner, depth, 0, bare, w);
            let (t, new) = model::place_fields(
                s,
                id,
                bare,
                fields,
                false,
                owner,
                depth,
                0,
                bare,
                w.ids,
            );
            if let Ok(placed) = new {
                finish_shrinks(t, id, Kind::Object(placed), w);
            }
        },
        Form::Store { id: path, fields } => {
            place_fields_shrinks(s, id, bare, fields, true, path, depth, 0, bare, w);
            let (t, new) = model::place_fields(
                s,
                id,
                bare,
                fields,
                true,
                path,
                depth,
                0,
                bare,
                w.ids,
            );
            if let Ok(placed) = new {
                let u = t.set_store(path, Some(id));
                still_shrinks(t, u, w);
                finish_shrinks(u, id, Kind::Store { id: path, fields: placed }, w);
            }
        },
        Form::Collection { name } => {
            let t = s.set_stream((owner, name), Some(id));
            still_shrinks(s, t, w);
            finish_shrinks(t, id, Kind::Collection { name, owner, items: bare }, w);
        },
        Form::Async { status, result, reason } => {
            let deep = model::deeper(depth);
            reconcile_child_shrinks(s, id, None, result, owner, deep, w);
            let (t, first) = model::reconcile_child(s, id, None, result, owner, deep, w.ids);
            reconcile_child_shrinks(t, id, None, reason, owner, deep, w);
            let (u, second) = model::reconcile_child(t, id, None, reason, owner, deep, w.ids);
            if first is Ok && second is Ok {
                finish_shrinks(
                    u,
                    id,
                    Kind::Async { status, result: first->Ok_0, reason: second->Ok_0 },
                    w,
                );
            }
        },
        Form::Upload { name } => {
            finish_shrinks(s, id, Kind::Upload { name, owner }, w);
        },
    }
}

pub proof fn place_fields_shrinks(
    s: Tx,
    id: NodeId,
    old: Seq<(Chars, NodeId)>,
    fields: Seq<(Chars, Json)>,
    store: bool,
    owner: Path,
    depth: nat,
    i: int,
    placed: Seq<(Chars, NodeId)>,
    w: Watch,
)
    requires
        fresh(w),
    ensures
        shrinks(s, model::place_fields(s, id, old, fields, store, owner, depth, i, placed, w.ids).0, w),
    decreases model::nesting_of_fields(fields), 1int, fields.len() - i,
{
    if 0 <= i < fields.len() {
        if store && fields[i].0 == STORE_ID_KEY@ {
            place_fields_shrinks(s, id, old, fields, store, owner, depth, i + 1, placed, w);
        } else {
            value::field_nesting(fields, i);
            let existing = s.unclaimed(
                id,
                keyed::lookup(old, fields[i].0),
                keyed::items_of(placed),
            );
            let deep = model::deeper(depth);
            reconcile_child_shrinks(s, id, existing, fields[i].1, owner, deep, w);
            let (t, child) = model::reconcile_child(
                s,
                id,
                existing,
                fields[i].1,
                owner,
                deep,
                w.ids,
            );
            if let Ok(kid) = child {
                place_fields_shrinks(
                    t,
                    id,
                    old,
                    fields,
                    store,
                    owner,
                    depth,
                    i + 1,
                    placed.push((fields[i].0, kid)),
                    w,
                );
            }
        }
    }
}

pub proof fn place_items_shrinks(
    s: Tx,
    id: NodeId,
    old: Seq<NodeId>,
    items: Seq<Json>,
    owner: Path,
    depth: nat,
    i: int,
    placed: Seq<NodeId>,
    w: Watch,
)
    requires
        fresh(w),
    ensures
        shrinks(s, model::place_items(s, id, old, items, owner, depth, i, placed, w.ids).0, w),
    decreases model::nesting_of_items(items), 1int, items.len() - i,
{
    if 0 <= i < items.len() {
        value::item_nesting(items, i);
        let existing = s.unclaimed(
            id,
            if i < old.len() {
                Some(old[i])
            } else {
                None
            },
            placed,
        );
        let deep = model::deeper(depth);
        reconcile_child_shrinks(s, id, existing, items[i], owner, deep, w);
        let (t, child) = model::reconcile_child(s, id, existing, items[i], owner, deep, w.ids);
        if let Ok(kid) = child {
            place_items_shrinks(t, id, old, items, owner, depth, i + 1, placed.push(kid), w);
        }
    }
}

// --------------------------------------------------------------------- the ops

pub proof fn rehome_still(s: Tx, list: Seq<NodeId>, parent: NodeId, i: int)
    ensures
        still(s, s.rehome(list, parent, i)),
    decreases list.len() - i,
{
    if 0 <= i < list.len() {
        rehome_still(
            s.touch(list[i]).put_parent(list[i], Some(parent)),
            list,
            parent,
            i + 1,
        );
    }
}

proof fn swap_under_shrinks(s: Tx, up: NodeId, x: NodeId, y: NodeId, w: Watch)
    ensures
        shrinks(s, s.swap_under(up, x, y), w),
{
    let t = s.swap_under(up, x, y);
    reveal(holds);
    assert(names(t, w.id) =~= names(s, w.id));
}

#[verifier::rlimit(30)]
proof fn exchange_shrinks(s: Tx, id: NodeId, copy: NodeId, path: Path, w: Watch)
    requires
        s.live(id) && s.kind(id) is Store,
        s.live(copy) && s.kind(copy) is Store,
    ensures
        shrinks(s, s.exchange(id, copy, path), w),
{
    let mine = s.kind(id);
    let theirs = s.kind(copy);
    let up = s.nodes[id].parent->0;
    let other = s.nodes[copy].parent->0;
    let a = s.touch(id).touch(copy);
    rehome_still(a, mine.kids(), copy, 0);
    let b = a.rehome(mine.kids(), copy, 0);
    rehome_still(b, theirs.kids(), id, 0);
    let c = b.rehome(theirs.kids(), id, 0);
    still_shrinks(s, c, w);
    let d = c.put_kind(id, theirs).put_kind(copy, mine);
    rekind_shrinks(c, id, theirs, w);
    rekind_shrinks(c.put_kind(id, theirs), copy, mine, w);
    swap_under_shrinks(d, up, id, copy, w);
    swap_under_shrinks(d.swap_under(up, id, copy), other, id, copy, w);
    let t = if up == other {
        d.swap_under(up, id, copy)
    } else {
        d.swap_under(up, id, copy).swap_under(other, id, copy)
    };
    let e = t.put_parent(id, Some(other)).put_parent(copy, Some(up));
    dirty_up_still(e, Some(id), MAX_WALK as nat);
    dirty_up_still(e.mark_dirty(id), Some(copy), MAX_WALK as nat);
    let f = e.mark_dirty(id).mark_dirty(copy);
    assert(s.exchange(id, copy, path) == f.set_store(path, Some(id)));
    still_shrinks(t, e, w);
    still_shrinks(e, f, w);
    still_shrinks(f, f.set_store(path, Some(id)), w);
}

proof fn yield_shrinks(s: Tx, id: NodeId, v: Json, w: Watch)
    ensures
        shrinks(s, s.yield_identity(id, v).0, w),
{
    if let Some(copy) = s.copy_of(id) {
        exchange_shrinks(s, id, copy, s.kind(id)->Store_id, w);
    }
}

proof fn refield_shrinks(s: Tx, id: NodeId, fields: Seq<(Chars, NodeId)>, w: Watch)
    ensures
        shrinks(s, s.put_kind(id, s.kind(id).with_fields(fields)), w),
{
    reveal(holds);
    let t = s.put_kind(id, s.kind(id).with_fields(fields));
    assert(names(t, w.id) =~= names(s, w.id));
}

proof fn swap_in_shrinks(
    s: Tx,
    parent: NodeId,
    key: Chars,
    existing: Option<NodeId>,
    kid: NodeId,
    before: Seq<(Chars, NodeId)>,
    w: Watch,
)
    ensures
        shrinks(s, model::swap_in_field(s, parent, key, existing, kid, before), w),
{
    let t = s.touch_dirty(parent);
    touch_dirty_still(s, parent);
    still_shrinks(s, t, w);
    let put = keyed::put(t.links(parent), key, kid);
    let from = model::node_index(keyed::items_of(before), kid) as int;
    let both = keyed::put(put, before[from].0, existing->0);
    refield_shrinks(t, parent, put, w);
    refield_shrinks(t, parent, both, w);
    let one = t.put_kind(parent, t.kind(parent).with_fields(put));
    let two = t.put_kind(parent, t.kind(parent).with_fields(both));
    if let Some(id) = keyed::lookup(put, before[from].0) {
        still_shrinks(two, two.release_if_mine(parent, id), w);
    }
    if let Some(id) = keyed::lookup(t.links(parent), key) {
        still_shrinks(one, one.release_if_mine(parent, id), w);
    }
}

proof fn put_field_shrinks(
    s: Tx,
    parent: NodeId,
    key: Chars,
    v: Json,
    owner: Path,
    depth: nat,
    w: Watch,
)
    requires
        fresh(w),
    ensures
        shrinks(s, model::put_field(s, parent, key, v, owner, depth, w.ids).0, w),
{
    if let Some(first) = s.fields(parent) {
        let (a, existing) = match keyed::lookup(first, key) {
            Some(id) => {
                let (t, held) = s.yield_identity(id, v);
                (t, Some(held))
            },
            None => (s, None),
        };
        if let Some(id) = keyed::lookup(first, key) {
            yield_shrinks(s, id, v, w);
        }
        reconcile_child_shrinks(a, parent, existing, v, owner, depth, w);
        let (b, child) = model::reconcile_child(a, parent, existing, v, owner, depth, w.ids);
        if let Ok(kid) = child {
            swap_in_shrinks(b, parent, key, existing, kid, a.links(parent), w);
        }
    }
}

proof fn put_index_shrinks(
    s: Tx,
    parent: NodeId,
    index: int,
    v: Json,
    owner: Path,
    depth: nat,
    w: Watch,
)
    requires
        fresh(w),
        parent == w.id ==> blank(s, w),
    ensures
        shrinks(s, model::put_index(s, parent, index, v, owner, depth, w.ids).0, w),
{
    let (a, existing) = s.yield_identity(s.kids(parent)[index], v);
    yield_shrinks(s, s.kids(parent)[index], v, w);
    let old = a.kids(parent);
    reconcile_child_shrinks(a, parent, Some(existing), v, owner, depth, w);
    let (b, child) = model::reconcile_child(a, parent, Some(existing), v, owner, depth, w.ids);
    if let Ok(kid) = child {
        let put = model::set_at(b.kids(parent), index, kid);
        let from = model::node_index(old, kid) as int;
        install_array_shrinks(b, parent, old, put, w);
        install_array_shrinks(b, parent, old, model::set_at(put, from, existing), w);
    }
}

proof fn put_async_shrinks(
    s: Tx,
    parent: NodeId,
    first: bool,
    v: Json,
    owner: Path,
    depth: nat,
    w: Watch,
)
    requires
        fresh(w),
    ensures
        shrinks(s, model::put_async(s, parent, first, v, owner, depth, w.ids).0, w),
{
    if let Some(id) = model::async_slot(s, parent, first) {
        let (a, existing) = s.yield_identity(id, v);
        yield_shrinks(s, id, v, w);
        reconcile_child_shrinks(a, parent, Some(existing), v, owner, depth, w);
        let (b, child) = model::reconcile_child(a, parent, Some(existing), v, owner, depth, w.ids);
        if let Ok(kid) = child {
            set_async_slot_shrinks(b, parent, first, kid, w);
        }
    }
}

pub proof fn claim_stores_still(s: Tx, list: Seq<NodeId>, i: int)
    ensures
        still(s, s.claim_stores(list, i)),
    decreases list.len() - i,
{
    if 0 <= i < list.len() {
        claim_stores_still(s, list, i + 1);
        if s.live(list[i]) {
            if let Kind::Store { id: path, .. } = s.kind(list[i]) {
                claim_stores_still(s.claim(path), list, i + 1);
            }
        }
    }
}

proof fn array_add_shrinks(
    s: Tx,
    id: NodeId,
    index: int,
    v: Json,
    owner: Path,
    depth: nat,
    w: Watch,
)
    requires
        fresh(w),
        id == w.id ==> blank(s, w),
    ensures
        shrinks(s, model::array_add(s, id, index, v, owner, depth, w.ids).0, w),
{
    let old = s.kids(id);
    let a = s.claim_stores(old, 0);
    claim_stores_still(s, old, 0);
    still_shrinks(s, a, w);
    reconcile_child_shrinks(a, id, None, v, owner, depth, w);
    let (t, child) = model::reconcile_child(a, id, None, v, owner, depth, w.ids);
    if let Ok(kid) = child {
        let held = t.kids(id);
        let at = if index <= held.len() {
            index
        } else {
            held.len() as int
        };
        install_array_shrinks(t, id, old, held.insert(at, kid), w);
    }
}

proof fn put_status_shrinks(s: Tx, id: NodeId, new: AsyncStatus, w: Watch)
    ensures
        shrinks(s, model::put_status(s, id, new), w),
{
    if s.live(id) {
        if let Kind::Async { status, result, reason } = s.kind(id) {
            let d = s.touch_dirty(id);
            touch_dirty_still(s, id);
            still_shrinks(s, d, w);
            rekind_shrinks(d, id, Kind::Async { status: new, result, reason }, w);
        }
    }
}

proof fn status_shrinks(s: Tx, id: NodeId, v: Json, path: Chars, w: Watch)
    ensures
        shrinks(s, model::set_async_status(s, id, v, path).0, w),
{
    if let Json::Text(status) = v {
        if let Some(new) = AsyncStatus::wire_meaning(status) {
            put_status_shrinks(s, id, new, w);
        }
    }
}

proof fn write_slot_shrinks(
    s: Tx,
    parent: NodeId,
    key: Chars,
    v: Json,
    depth: nat,
    path: Chars,
    w: Watch,
)
    requires
        fresh(w),
    ensures
        shrinks(s, model::write_slot(s, parent, key, v, depth, path, w.ids).0, w),
{
    let owner = s.owner_of(parent);
    let deep = model::deeper(depth);
    put_field_shrinks(s, parent, key, v, owner, deep, w);
    put_async_shrinks(s, parent, true, v, owner, deep, w);
    put_async_shrinks(s, parent, false, v, owner, deep, w);
    if s.live(parent) && s.kind(parent) is Array {
        if let Some(ArrayIndex::At(at)) = pointer::index_meaning(key) {
            put_index_shrinks(s, parent, at as int, v, owner, deep, w);
        }
    }
}

proof fn replace_shrinks(s: Tx, tokens: Seq<Chars>, v: Json, path: Chars, w: Watch)
    requires
        fresh(w),
    ensures
        shrinks(s, model::replace(s, tokens, v, path, w.ids).0, w),
{
    reconcile_shrinks(s, s.root, v, Seq::empty(), 0, w);
    if tokens.len() > 0 {
        if let Ok(parent) = model::walk(s, tokens.drop_last(), path) {
            status_shrinks(s, parent, v, path, w);
            write_slot_shrinks(s, parent, tokens.last(), v, (tokens.len() - 1) as nat, path, w);
        }
    }
}

proof fn add_shrinks(s: Tx, tokens: Seq<Chars>, v: Json, path: Chars, w: Watch)
    requires
        fresh(w),
    ensures
        shrinks(s, model::add_op(s, tokens, v, path, w.ids).0, w),
{
    replace_shrinks(s, tokens, v, path, w);
    if tokens.len() > 0 {
        if let Ok(parent) = model::walk(s, tokens.drop_last(), path) {
            let key = tokens.last();
            let depth = model::deeper((tokens.len() - 1) as nat);
            let owner = s.owner_of(parent);
            put_field_shrinks(s, parent, key, v, owner, depth, w);
            put_async_shrinks(s, parent, true, v, owner, depth, w);
            put_async_shrinks(s, parent, false, v, owner, depth, w);
            status_shrinks(s, parent, v, path, w);
            if s.live(parent) && s.kind(parent) is Array {
                array_add_shrinks(s, parent, s.kids(parent).len() as int, v, owner, depth, w);
                if let Some(ArrayIndex::At(at)) = pointer::index_meaning(key) {
                    array_add_shrinks(s, parent, at as int, v, owner, depth, w);
                }
            }
        }
    }
}

proof fn remove_shrinks(s: Tx, tokens: Seq<Chars>, path: Chars, w: Watch)
    ensures
        shrinks(s, model::remove_op(s, tokens, path).0, w),
{
    if tokens.len() > 0 {
        if let Ok(parent) = model::walk(s, tokens.drop_last(), path) {
            let key = tokens.last();
            if s.live(parent) {
                match s.kind(parent) {
                    Kind::Object(fields) => {
                        remove_field_shrinks(s, parent, fields, key, path, w);
                    },
                    Kind::Store { fields, .. } => {
                        remove_field_shrinks(s, parent, fields, key, path, w);
                    },
                    Kind::Array(items) => {
                        if let Some(ArrayIndex::At(at)) = pointer::index_meaning(key) {
                            install_array_shrinks(s, parent, items, items.remove(at as int), w);
                        }
                    },
                    _ => {},
                }
            }
        }
    }
}

proof fn remove_field_shrinks(
    s: Tx,
    parent: NodeId,
    fields: Seq<(Chars, NodeId)>,
    key: Chars,
    path: Chars,
    w: Watch,
)
    requires
        s.live(parent),
        !(s.kind(parent) is Collection),
    ensures
        shrinks(s, model::remove_field(s, parent, fields, key, path).0, w),
{
    if let Some(child) = keyed::lookup(fields, key) {
        let d = s.touch_dirty(parent);
        touch_dirty_still(s, parent);
        still_shrinks(s, d, w);
        let kind = d.kind(parent).with_fields(keyed::without(fields, key));
        rekind_shrinks(d, parent, kind, w);
        let t = d.put_kind(parent, kind);
        still_shrinks(t, t.release(child), w);
    }
}

/// One patch op logs what it does to the rows.
pub proof fn patch_op_shrinks(s: Tx, op: PatchOp, w: Watch)
    requires
        fresh(w),
    ensures
        shrinks(s, model::apply_patch_op(s, op, w.ids).0, w),
{
    let t = s.unclaim();
    still_shrinks(s, t, w);
    let path = op.path_text();
    if let Some(tokens) = pointer::pointer_tokens(path) {
        let at = model::marker_index(tokens) as int;
        if at < tokens.len() {
            let prefix = tokens.take(at);
            if let Ok(id) = model::walk(t, prefix, path) {
                if let Ok(segments) = model::id_segments(t, id, path) {
                    if let Ok(mark) = model::rewritten_marker(
                        op,
                        tokens.skip(at + 1),
                        segments,
                        path,
                    ) {
                        let doc = node::wire(model::subtree_value(t.nodes, id));
                        if let Ok(v) = model::remarked(doc, mark, path) {
                            reconcile_shrinks(t, t.root, v, Seq::empty(), 0, w);
                            if prefix.len() > 0 {
                                if let Ok(parent) = model::walk(t, prefix.drop_last(), path) {
                                    write_slot_shrinks(
                                        t,
                                        parent,
                                        prefix.last(),
                                        v,
                                        (prefix.len() - 1) as nat,
                                        path,
                                        w,
                                    );
                                }
                            }
                        }
                    }
                }
            }
        } else {
            match op {
                PatchOp::Add { value, .. } => {
                    add_shrinks(t, tokens, value@, path, w);
                },
                PatchOp::Remove { .. } => {
                    remove_shrinks(t, tokens, path, w);
                },
                PatchOp::Replace { value, .. } => {
                    replace_shrinks(t, tokens, value@, path, w);
                },
            }
        }
    }
}

/// A list of patch ops logs what it does to the rows.
pub proof fn patches_shrink(s: Tx, ops: Seq<PatchOp>, i: int, w: Watch)
    requires
        fresh(w),
    ensures
        shrinks(s, model::apply_patches(s, ops, i, w.ids).0, w),
    decreases ops.len() - i,
{
    if 0 <= i < ops.len() {
        patch_op_shrinks(s, ops[i], w);
        patches_shrink(model::apply_patch_op(s, ops[i], w.ids).0, ops, i + 1, w);
    }
}

// ------------------------------------------------------------------ stream ops

/// A step that leaves what every node is, and logs edits of one collection that
/// lead from some row keys to others.
spec fn logs(s: Tx, t: Tx, at: NodeId, from: Seq<Chars>, to: Seq<Chars>, w: Watch) -> bool {
    &&& t.allocated == s.allocated
    &&& t.nodes.dom() == s.nodes.dom()
    &&& forall|x: NodeId| #[trigger] s.live(x) ==> t.kind(x) == s.kind(x)
    &&& at != w.id ==> change::edits_of(t.edits, w.id) == change::edits_of(s.edits, w.id)
    &&& at == w.id && change::replayed(change::edits_of(s.edits, at), w.keys) == Some(from)
        ==> change::replayed(change::edits_of(t.edits, at), w.keys) == Some(to)
}

proof fn carried_logs(
    s: Tx,
    collection: NodeId,
    key: Chars,
    row: NodeId,
    index: nat,
    from: Seq<Chars>,
    w: Watch,
)
    requires
        index < from.len(),
        from[index as int] == key,
    ensures
        logs(
            s,
            s.carry_out(collection, key, row).log_edit(collection, Edit::Removed { key, index }),
            collection,
            from,
            from.remove(index as int),
            w,
        ),
{
    let edit = Edit::Removed { key, index };
    let t = s.carry_out(collection, key, row);
    assert(t.nodes.dom() =~= s.nodes.dom());
    change::edits_pushed(t.edits, collection, edit, w.id);
    change::replayed_pushed(change::edits_of(t.edits, w.id), edit, w.keys);
}

proof fn drop_end_logs(
    s: Tx,
    collection: NodeId,
    rows: Seq<(Chars, NodeId)>,
    cap: nat,
    i: int,
    w: Watch,
)
    requires
        cap <= i <= rows.len(),
    ensures
        logs(
            s,
            model::drop_end(s, collection, rows, cap, i),
            collection,
            row_keys(rows.take(i)),
            row_keys(rows.take(cap as int)),
            w,
        ),
    decreases i - cap,
{
    if cap < i {
        let row = rows[i - 1];
        let edit = Edit::Removed { key: row.0, index: (i - 1) as nat };
        let t = s.carry_out(collection, row.0, row.1).log_edit(collection, edit);
        let keys = row_keys(rows.take(i));
        carried_logs(s, collection, row.0, row.1, (i - 1) as nat, keys, w);
        assert(keys.remove(i - 1) =~= row_keys(rows.take(i - 1)));
        drop_end_logs(t, collection, rows, cap, i - 1, w);
        let u = model::drop_end(s, collection, rows, cap, i);
        assert forall|x: NodeId| #[trigger] s.live(x) implies u.kind(x) == s.kind(x) by {
            assert(t.nodes.dom().contains(x));
            assert(t.live(x));
        }
    }
}

proof fn drop_front_logs(
    s: Tx,
    collection: NodeId,
    rows: Seq<(Chars, NodeId)>,
    count: int,
    i: int,
    w: Watch,
)
    requires
        0 <= i <= count <= rows.len(),
    ensures
        logs(
            s,
            model::drop_front(s, collection, rows, count, i),
            collection,
            row_keys(rows.skip(i)),
            row_keys(rows.skip(count)),
            w,
        ),
    decreases count - i,
{
    if i < count {
        let edit = Edit::Removed { key: rows[i].0, index: 0 };
        let t = s.carry_out(collection, rows[i].0, rows[i].1).log_edit(collection, edit);
        let keys = row_keys(rows.skip(i));
        carried_logs(s, collection, rows[i].0, rows[i].1, 0, keys, w);
        assert(keys.remove(0) =~= row_keys(rows.skip(i + 1)));
        drop_front_logs(t, collection, rows, count, i + 1, w);
        let u = model::drop_front(s, collection, rows, count, i);
        assert forall|x: NodeId| #[trigger] s.live(x) implies u.kind(x) == s.kind(x) by {
            assert(t.nodes.dom().contains(x));
            assert(t.live(x));
        }
    }
}

proof fn drop_overflow_logs(
    s: Tx,
    collection: NodeId,
    rows: Seq<(Chars, NodeId)>,
    limit: Option<i64>,
    at: i64,
    w: Watch,
)
    ensures
        logs(
            s,
            model::drop_overflow(s, collection, rows, limit, at),
            collection,
            row_keys(rows),
            row_keys(model::trimmed(rows, limit, at)),
            w,
        ),
{
    if let Some(l) = limit {
        if rows.len() > model::cap_of(l) {
            if model::trims_end(l, at) {
                drop_end_logs(s, collection, rows, model::cap_of(l), rows.len() as int, w);
                assert(rows.take(rows.len() as int) =~= rows);
            } else {
                drop_front_logs(s, collection, rows, rows.len() - model::cap_of(l), 0, w);
                assert(rows.skip(0) =~= rows);
            }
        }
    }
}

/// Landing a row logs what it does to the rows.
proof fn land_row_loyal(
    s: Tx,
    collection: NodeId,
    key: Chars,
    existing: Option<NodeId>,
    row: NodeId,
    at: i64,
    limit: Option<i64>,
    w: Watch,
)
    requires
        s.live(collection),
        s.kind(collection) is Collection,
    ensures
        loyal(s, model::land_row(s, collection, key, existing, row, at, limit), w),
{
    let held = s.rows(collection);
    let from = keyed::key_index(held, key);
    let rest = keyed::without(held, key);
    let to = model::landing(at, rest.len());
    let rows = rest.insert(to as int, (key, row));
    let last = model::trimmed(rows, limit, at);
    let t = model::put_rows(s, collection, last);
    let u = match existing {
        Some(old) => if old == row {
            t
        } else {
            t.release_if_mine(collection, old)
        },
        None => t,
    };
    let edit = if !keyed::has_key(held, key) {
        Edit::Inserted { key, index: to, node: row }
    } else {
        Edit::Moved { key, from, to }
    };
    let logged = if keyed::has_key(held, key) && from == to {
        u
    } else {
        u.log_edit(collection, edit)
    };
    let v = model::drop_overflow(logged, collection, rows, limit, at);
    assert(v == model::land_row(s, collection, key, existing, row, at, limit));
    drop_overflow_logs(logged, collection, rows, limit, at, w);
    reveal(holds);
    keyed::key_index_meaning(held, key);
    change::edits_pushed(u.edits, collection, edit, w.id);
    change::replayed_pushed(change::edits_of(u.edits, w.id), edit, w.keys);
    assert(logged.nodes == u.nodes);
    assert(v.nodes.dom().contains(w.id) == logged.nodes.dom().contains(w.id));
    assert(v.live(w.id) == s.live(w.id));
    if collection != w.id {
        if s.live(w.id) {
            assert(logged.live(w.id));
            assert(v.kind(w.id) == s.kind(w.id));
        }
        assert(names(v, w.id) =~= names(s, w.id));
    } else {
        assert(logged.live(w.id));
        assert(v.rows(w.id) == last);
        if keyed::has_key(held, key) {
            assert(row_keys(rows) =~= row_keys(held).remove(from as int).insert(to as int, key));
            if from == to {
                assert(row_keys(rows) =~= row_keys(held));
            }
        } else {
            assert(row_keys(rows) =~= row_keys(held).insert(to as int, key));
        }
    }
}

pub proof fn carry_all_still(s: Tx, collection: NodeId, rows: Seq<(Chars, NodeId)>, i: int)
    ensures
        still(s, model::carry_all(s, collection, rows, i)),
    decreases rows.len() - i,
{
    if 0 <= i < rows.len() {
        carry_all_still(
            s.carry_out(collection, rows[i].0, rows[i].1),
            collection,
            rows,
            i + 1,
        );
    }
}

proof fn reset_loyal(s: Tx, collection: NodeId, w: Watch)
    requires
        s.live(collection),
    ensures
        loyal(s, model::stream_reset(s, collection), w),
{
    let d = s.touch_dirty(collection);
    touch_dirty_still(s, collection);
    let rows = s.rows(collection);
    let e = model::put_rows(d, collection, Seq::empty());
    carry_all_still(e, collection, rows, 0);
    let f = model::carry_all(e, collection, rows, 0);
    let t = f.log_edit(collection, Edit::Reset);
    assert(t == model::stream_reset(s, collection));
    reveal(holds);
    change::edits_pushed(f.edits, collection, Edit::Reset, w.id);
    change::replayed_pushed(change::edits_of(f.edits, w.id), Edit::Reset, w.keys);
    assert(d.live(w.id) == s.live(w.id));
    assert(f.live(w.id) == e.live(w.id));
    if collection == w.id {
        assert(names(t, w.id) =~= Seq::<Chars>::empty());
    } else {
        assert(names(t, w.id) =~= names(s, w.id));
    }
}

proof fn delete_loyal(s: Tx, collection: NodeId, key: Chars, w: Watch)
    requires
        s.live(collection),
        s.kind(collection) is Collection,
    ensures
        loyal(s, model::stream_delete(s, collection, key), w),
{
    let rows = s.rows(collection);
    if keyed::has_key(rows, key) {
        let at = keyed::key_index(rows, key);
        keyed::key_index_meaning(rows, key);
        let d = s.touch_dirty(collection);
        touch_dirty_still(s, collection);
        assert(d.live(collection) == s.live(collection));
        let left = rows.remove(at as int);
        let e = model::put_rows(d, collection, left);
        let t = model::stream_delete(s, collection, key);
        carried_logs(e, collection, key, rows[at as int].1, at, row_keys(rows), w);
        reveal(holds);
        assert(d.live(w.id) == s.live(w.id));
        assert(t.nodes.dom().contains(w.id) == e.nodes.dom().contains(w.id));
        assert(t.live(w.id) == s.live(w.id));
        if s.live(w.id) {
            assert(e.live(w.id));
            assert(t.kind(w.id) == e.kind(w.id));
        }
        if collection == w.id {
            assert(names(t, w.id) =~= row_keys(rows).remove(at as int));
        } else {
            assert(names(t, w.id) =~= names(s, w.id));
        }
    }
}

/// Landing a row changes no node into a collection.
proof fn land_row_kind(
    s: Tx,
    collection: NodeId,
    key: Chars,
    existing: Option<NodeId>,
    row: NodeId,
    at: i64,
    limit: Option<i64>,
    w: Watch,
)
    ensures
        ({
            let t = model::land_row(s, collection, key, existing, row, at, limit);
            &&& s.allocated.len() <= t.allocated.len()
            &&& t.live(collection) == s.live(collection)
            &&& t.live(collection) ==> (t.kind(collection) is Collection <==> s.kind(
                collection,
            ) is Collection)
        }),
{
    let held = s.rows(collection);
    let from = keyed::key_index(held, key);
    let rest = keyed::without(held, key);
    let to = model::landing(at, rest.len());
    let rows = rest.insert(to as int, (key, row));
    let t = model::put_rows(s, collection, model::trimmed(rows, limit, at));
    let u = match existing {
        Some(old) => if old == row {
            t
        } else {
            t.release_if_mine(collection, old)
        },
        None => t,
    };
    let logged = if !keyed::has_key(held, key) {
        u.log_edit(collection, Edit::Inserted { key, index: to, node: row })
    } else if from == to {
        u
    } else {
        u.log_edit(collection, Edit::Moved { key, from, to })
    };
    drop_overflow_logs(logged, collection, rows, limit, at, w);
    let v = model::drop_overflow(logged, collection, rows, limit, at);
    assert(v.nodes.dom().contains(collection) == logged.nodes.dom().contains(collection));
    if s.live(collection) {
        assert(logged.live(collection));
    }
}

proof fn insert_loyal(
    s: Tx,
    collection: NodeId,
    key: Chars,
    v: Json,
    at: i64,
    limit: Option<i64>,
    w: Watch,
)
    requires
        fresh(w),
        s.live(collection),
        s.kind(collection) is Collection,
        ({
            let (t, done) = model::stream_insert(s, collection, key, v, at, limit, w.ids);
            done is Ok && ok(t, w) ==> t.live(collection) && t.kind(collection) is Collection
        }),
    ensures
        loyal(s, model::stream_insert(s, collection, key, v, at, limit, w.ids).0, w),
{
    let owner = s.kind(collection)->Collection_owner;
    let depth = model::deeper(s.depth(collection));
    let d = s.touch_dirty(collection);
    touch_dirty_still(s, collection);
    still_shrinks(s, d, w);
    let (a, claimed) = model::claim_row(d, collection, key, depth);
    still_shrinks(d, a, w);
    if let Ok(existing) = claimed {
        reconcile_child_shrinks(a, collection, existing, v, owner, depth, w);
        let (b, child) = model::reconcile_child(
            a,
            collection,
            existing,
            v,
            owner,
            depth,
            w.ids,
        );
        if let Ok(row) = child {
            let t = model::land_row(b, collection, key, existing, row, at, limit);
            land_row_kind(b, collection, key, existing, row, at, limit, w);
            if ok(t, w) {
                land_row_loyal(b, collection, key, existing, row, at, limit, w);
            }
        }
    }
}

/// One stream op logs what it does to the rows.
pub proof fn stream_op_loyal(s: Tx, op: StreamOp, w: Watch)
    requires
        fresh(w),
        ({
            let c = s.streams[op.target()];
            let (t, done) = model::apply_stream_op(s, op, w.ids);
            &&& s.streams.contains_key(op.target()) && s.live(c) ==> s.kind(c) is Collection
            &&& s.streams.contains_key(op.target()) && op is Insert && done is Ok && ok(t, w)
                ==> t.live(c) && t.kind(c) is Collection
        }),
    ensures
        loyal(s, model::apply_stream_op(s, op, w.ids).0, w),
{
    let t = s.unclaim();
    still_shrinks(s, t, w);
    if let Some(collection) = t.streams.get(op.target()) {
        assert(s.streams.contains_key(op.target()));
        if t.live(collection) {
            match op {
                StreamOp::Reset { .. } => {
                    reset_loyal(t, collection, w);
                },
                StreamOp::Delete { item_key, .. } => {
                    delete_loyal(t, collection, item_key@, w);
                },
                StreamOp::Insert { item_key, at, item, limit, .. } => {
                    insert_loyal(t, collection, item_key@, item@, at, limit, w);
                },
            }
        }
    }
}

} // verus!
