//! A store node is the store it was made for: while it lives, its id stays.

use vstd::prelude::*;

use crate::state::change::Edit;
use crate::state::growth;
use crate::state::keyed;
use crate::state::marker;
use crate::state::marker::{Form, STORE_ID_KEY};
use crate::state::model;
use crate::state::model::{Tx, MAX_WALK};
use crate::state::node;
use crate::state::node::{AsyncStatus, Kind, NodeId};
use crate::state::pointer;
use crate::state::pointer::ArrayIndex;
use crate::state::replay;
use crate::state::text::Chars;
use crate::state::value;
use crate::state::value::Json;
use crate::state::wire::{PatchOp, Path, StreamOp};

verus! {

/// One store node that is watched: the store it is, and the ids the transaction
/// takes.
pub struct Title {
    pub id: NodeId,
    pub path: Path,
    pub ids: Seq<NodeId>,
}

/// The transaction does not make the node that is watched.
pub open spec fn fresh(w: Title) -> bool {
    forall|k: int| 0 <= k < w.ids.len() ==> #[trigger] w.ids[k] != w.id
}

/// Whether a kind is that of the store that is watched.
pub open spec fn of_title(kind: Kind, w: Title) -> bool {
    kind matches Kind::Store { id, .. } && id == w.path
}

/// Whether a document is of the store that is watched.
pub open spec fn of_form(v: Json, w: Title) -> bool {
    marker::form_of(v) matches Form::Store { id, .. } && id == w.path
}

/// Whether the node is the store.
pub open spec fn titled(s: Tx, w: Title) -> bool {
    s.live(w.id) && of_title(s.kind(w.id), w)
}

/// Whether the ids a transaction takes were enough so far.
pub open spec fn ok(s: Tx, w: Title) -> bool {
    s.allocated.len() <= w.ids.len()
}

/// A step that leaves the node the store it is.
pub open spec fn keeps(s: Tx, t: Tx, w: Title) -> bool {
    &&& s.allocated.len() <= t.allocated.len()
    &&& ok(t, w) && titled(s, w) ==> titled(t, w)
}

proof fn still_keeps(s: Tx, t: Tx, w: Title)
    requires
        replay::still(s, t),
    ensures
        keeps(s, t, w),
        titled(s, w) == titled(t, w),
{
    assert(t.live(w.id) == s.live(w.id));
}

/// Giving a node a kind.
proof fn rekind_keeps(s: Tx, id: NodeId, kind: Kind, w: Title)
    requires
        id == w.id && ok(s, w) && titled(s, w) ==> of_title(kind, w),
    ensures
        keeps(s, s.put_kind(id, kind), w),
{
}

proof fn make_keeps(s: Tx, parent: Option<NodeId>, w: Title)
    requires
        fresh(w),
    ensures
        keeps(s, s.make(parent, w.ids).0, w),
        ok(s.make(parent, w.ids).0, w) ==> titled(s.make(parent, w.ids).0, w) == titled(s, w),
{
    let t = s.make(parent, w.ids).0;
    if t != s && ok(t, w) {
        assert(w.ids[s.allocated.len() as int] != w.id);
    }
}

proof fn detach_keeps(s: Tx, parent: NodeId, child: NodeId, w: Title)
    requires
        fresh(w),
    ensures
        keeps(s, s.detach(parent, child, w.ids).0, w),
        ok(s.detach(parent, child, w.ids).0, w) ==> titled(s.detach(parent, child, w.ids).0, w)
            == titled(s, w),
{
    if s.live(parent) {
        let d = s.touch_dirty(parent);
        replay::touch_dirty_still(s, parent);
        still_keeps(s, d, w);
        let kind = d.kind(parent);
        let at = model::node_index(kind.kids(), child);
        if at < kind.kids().len() && !(kind is Collection) {
            let (t, filler) = d.make(Some(parent), w.ids);
            make_keeps(d, Some(parent), w);
            if let Ok(kid) = filler {
                if ok(t, w) && titled(d, w) {
                    assert(w.ids[d.allocated.len() as int] != w.id);
                }
                rekind_keeps(t, parent, model::with_kid(kind, at as int, kid), w);
            }
        }
    }
}

proof fn adopt_keeps(s: Tx, parent: NodeId, id: NodeId, w: Title)
    requires
        fresh(w),
    ensures
        keeps(s, s.adopt(parent, id, w.ids).0, w),
        ok(s.adopt(parent, id, w.ids).0, w) ==> titled(s.adopt(parent, id, w.ids).0, w) == titled(
            s,
            w,
        ),
{
    let a = s.touch(id).unpend(id);
    still_keeps(s, a, w);
    let (t, left) = match a.parent_of(id) {
        Some(up) => a.detach(up, id, w.ids),
        None => (a, Ok(())),
    };
    if let Some(up) = a.parent_of(id) {
        detach_keeps(a, up, id, w);
    }
    if left is Ok {
        let p = t.put_parent(id, Some(parent));
        replay::dirty_up_still(p, Some(parent), MAX_WALK as nat);
        still_keeps(t, p.mark_dirty(parent), w);
    }
}

pub proof fn reconcile_child_keeps(
    s: Tx,
    parent: NodeId,
    existing: Option<NodeId>,
    v: Json,
    owner: Path,
    depth: nat,
    w: Title,
)
    requires
        fresh(w),
    ensures
        keeps(s, model::reconcile_child(s, parent, existing, v, owner, depth, w.ids).0, w),
    decreases value::nesting(v), 5int, 0int,
{
    match marker::form_of(v) {
        Form::Store { id: path, .. } => {
            let t = s.claim(path);
            still_keeps(s, t, w);
            if existing is Some && t.is_store(existing->0, path) {
                reconcile_keeps(t, existing->0, v, owner, depth, w);
            } else if !s.claimed.contains(path) && t.adoptable_store(
                parent,
                existing,
                path,
            ) is Some {
                let found = t.adoptable_store(parent, existing, path)->0;
                reconcile_adopted_keeps(t, parent, found, v, owner, depth, w);
            } else {
                build_keeps(t, parent, v, owner, depth, w);
            }
        },
        Form::Collection { name } => {
            let t = s.claim_stream((owner, name));
            still_keeps(s, t, w);
            if existing is Some && t.is_collection(existing->0, name) {
                still_keeps(s, t.claim_stream(t.stream_of(existing->0)), w);
            } else if !s.claimed_streams.contains((owner, name)) && t.adoptable_stream(
                parent,
                existing,
                (owner, name),
            ) is Some {
                let found = t.adoptable_stream(parent, existing, (owner, name))->0;
                reconcile_adopted_keeps(t, parent, found, v, owner, depth, w);
            } else {
                reconcile_slot_keeps(t, parent, existing, v, owner, depth, w);
            }
        },
        _ => {
            reconcile_slot_keeps(s, parent, existing, v, owner, depth, w);
        },
    }
}

proof fn reconcile_adopted_keeps(
    s: Tx,
    parent: NodeId,
    found: NodeId,
    v: Json,
    owner: Path,
    depth: nat,
    w: Title,
)
    requires
        fresh(w),
        titled(s, w) && found == w.id ==> of_form(v, w),
    ensures
        keeps(s, model::reconcile_adopted(s, parent, found, v, owner, depth, w.ids).0, w),
    decreases value::nesting(v), 4int, 1int,
{
    adopt_keeps(s, parent, found, w);
    reconcile_keeps(s.adopt(parent, found, w.ids).0, found, v, owner, depth, w);
}

proof fn reconcile_slot_keeps(
    s: Tx,
    parent: NodeId,
    existing: Option<NodeId>,
    v: Json,
    owner: Path,
    depth: nat,
    w: Title,
)
    requires
        fresh(w),
    ensures
        keeps(s, model::reconcile_slot(s, parent, existing, v, owner, depth, w.ids).0, w),
    decreases value::nesting(v), 4int, 1int,
{
    match existing {
        Some(id) => {
            if s.is_store_node(id) {
                build_keeps(s, parent, v, owner, depth, w);
            } else {
                reconcile_keeps(s, id, v, owner, depth, w);
            }
        },
        None => {
            build_keeps(s, parent, v, owner, depth, w);
        },
    }
}

proof fn install_array_keeps(
    s: Tx,
    id: NodeId,
    old: Seq<NodeId>,
    placed: Seq<NodeId>,
    w: Title,
)
    requires
        ok(s, w) && titled(s, w) ==> id != w.id,
    ensures
        keeps(s, model::install_array(s, id, old, placed), w),
{
    let d = s.touch_dirty(id);
    replay::touch_dirty_still(s, id);
    let t = if s.kids(id) == placed {
        s
    } else {
        d.put_kind(id, Kind::Array(placed))
    };
    still_keeps(s, d, w);
    rekind_keeps(d, id, Kind::Array(placed), w);
    let u = t.release_displaced(id, old + s.kids(id), placed.to_set(), 0);
    replay::release_displaced_still(t, id, old + s.kids(id), placed.to_set(), 0);
    still_keeps(t, u, w);
}

proof fn install_fields_keeps(
    s: Tx,
    id: NodeId,
    old: Seq<(Chars, NodeId)>,
    kind: Kind,
    placed: Seq<(Chars, NodeId)>,
    w: Title,
)
    requires
        ok(s, w) && titled(s, w) && id == w.id ==> of_title(kind, w),
    ensures
        keeps(s, model::install_fields(s, id, old, kind, placed), w),
{
    let d = s.touch_dirty(id);
    replay::touch_dirty_still(s, id);
    let t = if s.fields(id) == Some(placed) {
        s
    } else {
        d.put_kind(id, kind)
    };
    still_keeps(s, d, w);
    rekind_keeps(d, id, kind, w);
    let list = keyed::items_of(old) + s.kids(id);
    let kept = keyed::items_of(placed).to_set();
    replay::release_displaced_still(t, id, list, kept, 0);
    still_keeps(t, t.release_displaced(id, list, kept, 0), w);
}

proof fn set_async_slot_keeps(s: Tx, id: NodeId, first: bool, now: NodeId, w: Title)
    ensures
        keeps(s, model::set_async_slot(s, id, first, now), w),
{
    if let Some(held) = model::async_slot(s, id, first) {
        let d = s.touch_dirty(id);
        replay::touch_dirty_still(s, id);
        still_keeps(s, d, w);
        let kind = model::with_kid(
            s.kind(id),
            if first {
                0
            } else {
                1
            },
            now,
        );
        rekind_keeps(d, id, kind, w);
        let t = d.put_kind(id, kind);
        still_keeps(t, t.release_if_mine(id, held), w);
    }
}

pub proof fn reconcile_keeps(
    s: Tx,
    id: NodeId,
    v: Json,
    owner: Path,
    depth: nat,
    w: Title,
)
    requires
        fresh(w),
        ok(s, w) && titled(s, w) && id == w.id ==> of_form(v, w),
    ensures
        keeps(s, model::reconcile(s, id, v, owner, depth, w.ids).0, w),
    decreases value::nesting(v), 4int, 0int,
{
    if id == w.id && !(ok(s, w) && titled(s, w)) {
        growth::reconcile_grows(s, id, v, owner, depth, w.ids);
    } else if s.live(id) && !model::unchanged(s.kind(id), marker::form_of(v)) {
        model::form_nesting(v);
        match (s.kind(id), marker::form_of(v)) {
            (Kind::Object(old), Form::Object(fields)) => {
                place_fields_keeps(s, id, old, fields, false, owner, depth, 0, Seq::empty(), w);
                let (t, new) = model::place_fields(
                    s,
                    id,
                    old,
                    fields,
                    false,
                    owner,
                    depth,
                    0,
                    Seq::empty(),
                    w.ids,
                );
                if let Ok(placed) = new {
                    install_fields_keeps(t, id, old, Kind::Object(placed), placed, w);
                }
            },
            (Kind::Store { id: path, fields: old }, Form::Store { id: held, fields }) => {
                if path == held {
                    place_fields_keeps(
                        s,
                        id,
                        old,
                        fields,
                        true,
                        path,
                        depth,
                        0,
                        Seq::empty(),
                        w,
                    );
                    let (t, new) = model::place_fields(
                        s,
                        id,
                        old,
                        fields,
                        true,
                        path,
                        depth,
                        0,
                        Seq::empty(),
                        w.ids,
                    );
                    if let Ok(placed) = new {
                        install_fields_keeps(
                            t,
                            id,
                            old,
                            Kind::Store { id: path, fields: placed },
                            placed,
                            w,
                        );
                    }
                } else {
                    rebuild_keeps(s, id, v, owner, depth, w);
                }
            },
            (Kind::Array(old), Form::Array(items)) => {
                place_items_keeps(s, id, old, items, owner, depth, 0, Seq::empty(), w);
                let (t, new) = model::place_items(
                    s,
                    id,
                    old,
                    items,
                    owner,
                    depth,
                    0,
                    Seq::empty(),
                    w.ids,
                );
                if let Ok(placed) = new {
                    install_array_keeps(t, id, old, placed, w);
                }
            },
            (Kind::Async { status, result, reason }, Form::Async {
                status: new_status,
                result: new_result,
                reason: new_reason,
            }) => {
                let marked = model::put_status(s, id, new_status);
                put_status_keeps(s, id, new_status, w);
                let deep = model::deeper(depth);
                reconcile_child_keeps(marked, id, Some(result), new_result, owner, deep, w);
                let (t, first) = model::reconcile_child(
                    marked,
                    id,
                    Some(result),
                    new_result,
                    owner,
                    deep,
                    w.ids,
                );
                if let Ok(now) = first {
                    let held = model::set_async_slot(t, id, true, now);
                    set_async_slot_keeps(t, id, true, now, w);
                    let next = model::async_slot(held, id, false);
                    reconcile_child_keeps(held, id, next, new_reason, owner, deep, w);
                    let (u, second) = model::reconcile_child(
                        held,
                        id,
                        next,
                        new_reason,
                        owner,
                        deep,
                        w.ids,
                    );
                    if let Ok(last) = second {
                        set_async_slot_keeps(u, id, false, last, w);
                    }
                }
            },
            _ => {
                rebuild_keeps(s, id, v, owner, depth, w);
            },
        }
    }
}

proof fn rebuild_keeps(s: Tx, id: NodeId, v: Json, owner: Path, depth: nat, w: Title)
    requires
        fresh(w),
        titled(s, w) ==> id != w.id,
    ensures
        keeps(s, model::rebuild(s, id, v, owner, depth, w.ids).0, w),
    decreases value::nesting(v), 3int, 0int,
{
    let l = s.log_loss(id);
    let t = l.touch_dirty(id);
    replay::touch_dirty_still(l, id);
    let e = t.unregister(id).put_kind(id, Kind::Null);
    let r = e.release_each(t.kids(id), 0);
    replay::release_each_still(e, t.kids(id), 0);
    assert(t.unregister(id).nodes == t.nodes);
    assert(l.nodes == s.nodes);
    assert(t.live(w.id) == l.live(w.id));
    assert(r.live(w.id) == e.live(w.id));
    install_keeps(r, id, v, owner, depth, w);
}

proof fn build_keeps(s: Tx, parent: NodeId, v: Json, owner: Path, depth: nat, w: Title)
    requires
        fresh(w),
    ensures
        keeps(s, model::build(s, parent, v, owner, depth, w.ids).0, w),
    decreases value::nesting(v), 3int, 0int,
{
    let (t, made) = s.make(Some(parent), w.ids);
    make_keeps(s, Some(parent), w);
    if let Ok(id) = made {
        if ok(t, w) {
            assert(w.ids[s.allocated.len() as int] != w.id);
        }
        install_keeps(t, id, v, owner, depth, w);
    }
}

/// Giving a node its kind and its value.
proof fn finish_keeps(s: Tx, id: NodeId, kind: Kind, w: Title)
    requires
        ok(s, w) && titled(s, w) ==> id != w.id,
    ensures
        keeps(s, model::finish(s, id, kind), w),
{
    rekind_keeps(s, id, kind, w);
    still_keeps(s.put_kind(id, kind), model::finish(s, id, kind), w);
}

pub proof fn install_keeps(s: Tx, id: NodeId, v: Json, owner: Path, depth: nat, w: Title)
    requires
        fresh(w),
        ok(s, w) && titled(s, w) ==> id != w.id,
    ensures
        keeps(s, model::install(s, id, v, owner, depth, w.ids).0, w),
    decreases value::nesting(v), 2int, 1int,
{
    if id == w.id {
        growth::install_grows(s, id, v, owner, depth, w.ids);
    } else {
        install_apart(s, id, v, owner, depth, w);
    }
}

proof fn install_apart(s: Tx, id: NodeId, v: Json, owner: Path, depth: nat, w: Title)
    requires
        fresh(w),
        id != w.id,
    ensures
        keeps(s, model::install(s, id, v, owner, depth, w.ids).0, w),
    decreases value::nesting(v), 2int, 0int,
{
    model::form_nesting(v);
    let none = Seq::<NodeId>::empty();
    let bare = Seq::<(Chars, NodeId)>::empty();
    match marker::form_of(v) {
        Form::Null => {
            finish_keeps(s, id, Kind::Null, w);
        },
        Form::Bool(flag) => {
            finish_keeps(s, id, Kind::Bool(flag), w);
        },
        Form::Number(number) => {
            finish_keeps(s, id, Kind::Number(number), w);
        },
        Form::Text(text) => {
            finish_keeps(s, id, Kind::Text(text), w);
        },
        Form::Array(items) => {
            place_items_keeps(s, id, none, items, owner, depth, 0, none, w);
            let (t, new) = model::place_items(s, id, none, items, owner, depth, 0, none, w.ids);
            if let Ok(placed) = new {
                finish_keeps(t, id, Kind::Array(placed), w);
            }
        },
        Form::Object(fields) => {
            place_fields_keeps(s, id, bare, fields, false, owner, depth, 0, bare, w);
            let (t, new) = model::place_fields(
                s,
                id,
                bare,
                fields,
                false,
                owner,
                depth,
                0,
                bare,
                w.ids,
            );
            if let Ok(placed) = new {
                finish_keeps(t, id, Kind::Object(placed), w);
            }
        },
        Form::Store { id: path, fields } => {
            place_fields_keeps(s, id, bare, fields, true, path, depth, 0, bare, w);
            let (t, new) = model::place_fields(
                s,
                id,
                bare,
                fields,
                true,
                path,
                depth,
                0,
                bare,
                w.ids,
            );
            if let Ok(placed) = new {
                let u = t.set_store(path, Some(id));
                still_keeps(t, u, w);
                finish_keeps(u, id, Kind::Store { id: path, fields: placed }, w);
            }
        },
        Form::Collection { name } => {
            let t = s.set_stream((owner, name), Some(id));
            still_keeps(s, t, w);
            finish_keeps(t, id, Kind::Collection { name, owner, items: bare }, w);
        },
        Form::Async { status, result, reason } => {
            let deep = model::deeper(depth);
            reconcile_child_keeps(s, id, None, result, owner, deep, w);
            let (t, first) = model::reconcile_child(s, id, None, result, owner, deep, w.ids);
            reconcile_child_keeps(t, id, None, reason, owner, deep, w);
            let (u, second) = model::reconcile_child(t, id, None, reason, owner, deep, w.ids);
            if first is Ok && second is Ok {
                finish_keeps(
                    u,
                    id,
                    Kind::Async { status, result: first->Ok_0, reason: second->Ok_0 },
                    w,
                );
            }
        },
        Form::Upload { name } => {
            finish_keeps(s, id, Kind::Upload { name, owner }, w);
        },
    }
}

pub proof fn place_fields_keeps(
    s: Tx,
    id: NodeId,
    old: Seq<(Chars, NodeId)>,
    fields: Seq<(Chars, Json)>,
    store: bool,
    owner: Path,
    depth: nat,
    i: int,
    placed: Seq<(Chars, NodeId)>,
    w: Title,
)
    requires
        fresh(w),
    ensures
        keeps(s, model::place_fields(s, id, old, fields, store, owner, depth, i, placed, w.ids).0, w),
    decreases model::nesting_of_fields(fields), 1int, fields.len() - i,
{
    if 0 <= i < fields.len() {
        if store && fields[i].0 == STORE_ID_KEY@ {
            place_fields_keeps(s, id, old, fields, store, owner, depth, i + 1, placed, w);
        } else {
            value::field_nesting(fields, i);
            let existing = s.unclaimed(
                id,
                keyed::lookup(old, fields[i].0),
                keyed::items_of(placed),
            );
            let deep = model::deeper(depth);
            reconcile_child_keeps(s, id, existing, fields[i].1, owner, deep, w);
            let (t, child) = model::reconcile_child(
                s,
                id,
                existing,
                fields[i].1,
                owner,
                deep,
                w.ids,
            );
            if let Ok(kid) = child {
                place_fields_keeps(
                    t,
                    id,
                    old,
                    fields,
                    store,
                    owner,
                    depth,
                    i + 1,
                    placed.push((fields[i].0, kid)),
                    w,
                );
            }
        }
    }
}

pub proof fn place_items_keeps(
    s: Tx,
    id: NodeId,
    old: Seq<NodeId>,
    items: Seq<Json>,
    owner: Path,
    depth: nat,
    i: int,
    placed: Seq<NodeId>,
    w: Title,
)
    requires
        fresh(w),
    ensures
        keeps(s, model::place_items(s, id, old, items, owner, depth, i, placed, w.ids).0, w),
    decreases model::nesting_of_items(items), 1int, items.len() - i,
{
    if 0 <= i < items.len() {
        value::item_nesting(items, i);
        let existing = s.unclaimed(
            id,
            if i < old.len() {
                Some(old[i])
            } else {
                None
            },
            placed,
        );
        let deep = model::deeper(depth);
        reconcile_child_keeps(s, id, existing, items[i], owner, deep, w);
        let (t, child) = model::reconcile_child(s, id, existing, items[i], owner, deep, w.ids);
        if let Ok(kid) = child {
            place_items_keeps(t, id, old, items, owner, depth, i + 1, placed.push(kid), w);
        }
    }
}

// --------------------------------------------------------------------- the ops

proof fn swap_under_keeps(s: Tx, up: NodeId, x: NodeId, y: NodeId, w: Title)
    ensures
        keeps(s, s.swap_under(up, x, y), w),
{
}

#[verifier::rlimit(30)]
proof fn exchange_keeps(s: Tx, id: NodeId, copy: NodeId, path: Path, w: Title)
    requires
        s.is_store(id, path),
        s.is_store(copy, path),
        id != copy,
    ensures
        keeps(s, s.exchange(id, copy, path), w),
{
    let mine = s.kind(id);
    let theirs = s.kind(copy);
    let up = s.nodes[id].parent->0;
    let other = s.nodes[copy].parent->0;
    let a = s.touch(id).touch(copy);
    replay::rehome_still(a, mine.kids(), copy, 0);
    let b = a.rehome(mine.kids(), copy, 0);
    replay::rehome_still(b, theirs.kids(), id, 0);
    let c = b.rehome(theirs.kids(), id, 0);
    still_keeps(s, c, w);
    let d = c.put_kind(id, theirs).put_kind(copy, mine);
    rekind_keeps(c, id, theirs, w);
    rekind_keeps(c.put_kind(id, theirs), copy, mine, w);
    swap_under_keeps(d, up, id, copy, w);
    swap_under_keeps(d.swap_under(up, id, copy), other, id, copy, w);
    let t = if up == other {
        d.swap_under(up, id, copy)
    } else {
        d.swap_under(up, id, copy).swap_under(other, id, copy)
    };
    let e = t.put_parent(id, Some(other)).put_parent(copy, Some(up));
    replay::dirty_up_still(e, Some(id), MAX_WALK as nat);
    replay::dirty_up_still(e.mark_dirty(id), Some(copy), MAX_WALK as nat);
    let f = e.mark_dirty(id).mark_dirty(copy);
    assert(s.exchange(id, copy, path) == f.set_store(path, Some(id)));
    still_keeps(t, e, w);
    still_keeps(e, f, w);
    still_keeps(f, f.set_store(path, Some(id)), w);
}

proof fn yield_keeps(s: Tx, id: NodeId, v: Json, w: Title)
    ensures
        keeps(s, s.yield_identity(id, v).0, w),
{
    if let Some(copy) = s.copy_of(id) {
        exchange_keeps(s, id, copy, s.kind(id)->Store_id, w);
    }
}

proof fn refield_keeps(s: Tx, id: NodeId, fields: Seq<(Chars, NodeId)>, w: Title)
    ensures
        keeps(s, s.put_kind(id, s.kind(id).with_fields(fields)), w),
{
}

proof fn swap_in_keeps(
    s: Tx,
    parent: NodeId,
    key: Chars,
    existing: Option<NodeId>,
    kid: NodeId,
    before: Seq<(Chars, NodeId)>,
    w: Title,
)
    ensures
        keeps(s, model::swap_in_field(s, parent, key, existing, kid, before), w),
{
    let t = s.touch_dirty(parent);
    replay::touch_dirty_still(s, parent);
    still_keeps(s, t, w);
    let put = keyed::put(t.links(parent), key, kid);
    let from = model::node_index(keyed::items_of(before), kid) as int;
    let both = keyed::put(put, before[from].0, existing->0);
    refield_keeps(t, parent, put, w);
    refield_keeps(t, parent, both, w);
    let one = t.put_kind(parent, t.kind(parent).with_fields(put));
    let two = t.put_kind(parent, t.kind(parent).with_fields(both));
    if let Some(id) = keyed::lookup(put, before[from].0) {
        still_keeps(two, two.release_if_mine(parent, id), w);
    }
    if let Some(id) = keyed::lookup(t.links(parent), key) {
        still_keeps(one, one.release_if_mine(parent, id), w);
    }
}

proof fn put_field_keeps(
    s: Tx,
    parent: NodeId,
    key: Chars,
    v: Json,
    owner: Path,
    depth: nat,
    w: Title,
)
    requires
        fresh(w),
    ensures
        keeps(s, model::put_field(s, parent, key, v, owner, depth, w.ids).0, w),
{
    if let Some(first) = s.fields(parent) {
        let (a, existing) = match keyed::lookup(first, key) {
            Some(id) => {
                let (t, held) = s.yield_identity(id, v);
                (t, Some(held))
            },
            None => (s, None),
        };
        if let Some(id) = keyed::lookup(first, key) {
            yield_keeps(s, id, v, w);
        }
        reconcile_child_keeps(a, parent, existing, v, owner, depth, w);
        let (b, child) = model::reconcile_child(a, parent, existing, v, owner, depth, w.ids);
        if let Ok(kid) = child {
            swap_in_keeps(b, parent, key, existing, kid, a.links(parent), w);
        }
    }
}

proof fn put_index_keeps(
    s: Tx,
    parent: NodeId,
    index: int,
    v: Json,
    owner: Path,
    depth: nat,
    w: Title,
)
    requires
        fresh(w),
        s.live(parent),
        s.kind(parent) is Array,
    ensures
        keeps(s, model::put_index(s, parent, index, v, owner, depth, w.ids).0, w),
{
    let (a, existing) = s.yield_identity(s.kids(parent)[index], v);
    yield_keeps(s, s.kids(parent)[index], v, w);
    let old = a.kids(parent);
    reconcile_child_keeps(a, parent, Some(existing), v, owner, depth, w);
    let (b, child) = model::reconcile_child(a, parent, Some(existing), v, owner, depth, w.ids);
    if let Ok(kid) = child {
        let put = model::set_at(b.kids(parent), index, kid);
        let from = model::node_index(old, kid) as int;
        let both = model::set_at(put, from, existing);
        if parent == w.id {
            growth::install_array_makes_none(b, parent, old, put);
            growth::install_array_makes_none(b, parent, old, both);
        } else {
            install_array_keeps(b, parent, old, put, w);
            install_array_keeps(b, parent, old, both, w);
        }
    }
}

proof fn put_async_keeps(
    s: Tx,
    parent: NodeId,
    first: bool,
    v: Json,
    owner: Path,
    depth: nat,
    w: Title,
)
    requires
        fresh(w),
    ensures
        keeps(s, model::put_async(s, parent, first, v, owner, depth, w.ids).0, w),
{
    if let Some(id) = model::async_slot(s, parent, first) {
        let (a, existing) = s.yield_identity(id, v);
        yield_keeps(s, id, v, w);
        reconcile_child_keeps(a, parent, Some(existing), v, owner, depth, w);
        let (b, child) = model::reconcile_child(a, parent, Some(existing), v, owner, depth, w.ids);
        if let Ok(kid) = child {
            set_async_slot_keeps(b, parent, first, kid, w);
        }
    }
}

proof fn array_add_keeps(
    s: Tx,
    id: NodeId,
    index: int,
    v: Json,
    owner: Path,
    depth: nat,
    w: Title,
)
    requires
        fresh(w),
        s.live(id),
        s.kind(id) is Array,
    ensures
        keeps(s, model::array_add(s, id, index, v, owner, depth, w.ids).0, w),
{
    let old = s.kids(id);
    let a = s.claim_stores(old, 0);
    replay::claim_stores_still(s, old, 0);
    still_keeps(s, a, w);
    reconcile_child_keeps(a, id, None, v, owner, depth, w);
    let (t, child) = model::reconcile_child(a, id, None, v, owner, depth, w.ids);
    if let Ok(kid) = child {
        let held = t.kids(id);
        let at = if index <= held.len() {
            index
        } else {
            held.len() as int
        };
        if id == w.id {
            growth::install_array_makes_none(t, id, old, held.insert(at, kid));
        } else {
            install_array_keeps(t, id, old, held.insert(at, kid), w);
        }
    }
}

proof fn put_status_keeps(s: Tx, id: NodeId, new: AsyncStatus, w: Title)
    ensures
        keeps(s, model::put_status(s, id, new), w),
{
    if s.live(id) {
        if let Kind::Async { status, result, reason } = s.kind(id) {
            let d = s.touch_dirty(id);
            replay::touch_dirty_still(s, id);
            still_keeps(s, d, w);
            rekind_keeps(d, id, Kind::Async { status: new, result, reason }, w);
        }
    }
}

proof fn status_keeps(s: Tx, id: NodeId, v: Json, path: Chars, w: Title)
    ensures
        keeps(s, model::set_async_status(s, id, v, path).0, w),
{
    if let Json::Text(status) = v {
        if let Some(new) = AsyncStatus::wire_meaning(status) {
            put_status_keeps(s, id, new, w);
        }
    }
}

proof fn write_slot_keeps(
    s: Tx,
    parent: NodeId,
    key: Chars,
    v: Json,
    depth: nat,
    path: Chars,
    w: Title,
)
    requires
        fresh(w),
    ensures
        keeps(s, model::write_slot(s, parent, key, v, depth, path, w.ids).0, w),
{
    let owner = s.owner_of(parent);
    let deep = model::deeper(depth);
    put_field_keeps(s, parent, key, v, owner, deep, w);
    put_async_keeps(s, parent, true, v, owner, deep, w);
    put_async_keeps(s, parent, false, v, owner, deep, w);
    if s.live(parent) && s.kind(parent) is Array {
        if let Some(ArrayIndex::At(at)) = pointer::index_meaning(key) {
            put_index_keeps(s, parent, at as int, v, owner, deep, w);
        }
    }
}

proof fn replace_keeps(s: Tx, tokens: Seq<Chars>, v: Json, path: Chars, w: Title)
    requires
        fresh(w),
        s.root != w.id,
    ensures
        keeps(s, model::replace(s, tokens, v, path, w.ids).0, w),
{
    reconcile_keeps(s, s.root, v, Seq::empty(), 0, w);
    if tokens.len() > 0 {
        if let Ok(parent) = model::walk(s, tokens.drop_last(), path) {
            status_keeps(s, parent, v, path, w);
            write_slot_keeps(s, parent, tokens.last(), v, (tokens.len() - 1) as nat, path, w);
        }
    }
}

proof fn add_keeps(s: Tx, tokens: Seq<Chars>, v: Json, path: Chars, w: Title)
    requires
        fresh(w),
        s.root != w.id,
    ensures
        keeps(s, model::add_op(s, tokens, v, path, w.ids).0, w),
{
    replace_keeps(s, tokens, v, path, w);
    if tokens.len() > 0 {
        if let Ok(parent) = model::walk(s, tokens.drop_last(), path) {
            let key = tokens.last();
            let depth = model::deeper((tokens.len() - 1) as nat);
            let owner = s.owner_of(parent);
            put_field_keeps(s, parent, key, v, owner, depth, w);
            put_async_keeps(s, parent, true, v, owner, depth, w);
            put_async_keeps(s, parent, false, v, owner, depth, w);
            status_keeps(s, parent, v, path, w);
            if s.live(parent) && s.kind(parent) is Array {
                array_add_keeps(s, parent, s.kids(parent).len() as int, v, owner, depth, w);
                if let Some(ArrayIndex::At(at)) = pointer::index_meaning(key) {
                    array_add_keeps(s, parent, at as int, v, owner, depth, w);
                }
            }
        }
    }
}

proof fn remove_keeps(s: Tx, tokens: Seq<Chars>, path: Chars, w: Title)
    ensures
        keeps(s, model::remove_op(s, tokens, path).0, w),
{
    if tokens.len() > 0 {
        if let Ok(parent) = model::walk(s, tokens.drop_last(), path) {
            let key = tokens.last();
            if s.live(parent) {
                match s.kind(parent) {
                    Kind::Object(fields) => {
                        remove_field_keeps(s, parent, fields, key, path, w);
                    },
                    Kind::Store { fields, .. } => {
                        remove_field_keeps(s, parent, fields, key, path, w);
                    },
                    Kind::Array(items) => {
                        if let Some(ArrayIndex::At(at)) = pointer::index_meaning(key) {
                            install_array_keeps(s, parent, items, items.remove(at as int), w);
                        }
                    },
                    _ => {},
                }
            }
        }
    }
}

proof fn remove_field_keeps(
    s: Tx,
    parent: NodeId,
    fields: Seq<(Chars, NodeId)>,
    key: Chars,
    path: Chars,
    w: Title,
)
    requires
        s.live(parent),
    ensures
        keeps(s, model::remove_field(s, parent, fields, key, path).0, w),
{
    if let Some(child) = keyed::lookup(fields, key) {
        let d = s.touch_dirty(parent);
        replay::touch_dirty_still(s, parent);
        still_keeps(s, d, w);
        let kind = d.kind(parent).with_fields(keyed::without(fields, key));
        rekind_keeps(d, parent, kind, w);
        let t = d.put_kind(parent, kind);
        still_keeps(t, t.release(child), w);
    }
}

/// One patch op leaves a store node the store it is.
pub proof fn patch_op_keeps(s: Tx, op: PatchOp, w: Title)
    requires
        fresh(w),
        s.root != w.id,
    ensures
        keeps(s, model::apply_patch_op(s, op, w.ids).0, w),
{
    let t = s.unclaim();
    still_keeps(s, t, w);
    let path = op.path_text();
    if let Some(tokens) = pointer::pointer_tokens(path) {
        let at = model::marker_index(tokens) as int;
        if at < tokens.len() {
            let prefix = tokens.take(at);
            if let Ok(id) = model::walk(t, prefix, path) {
                if let Ok(segments) = model::id_segments(t, id, path) {
                    if let Ok(mark) = model::rewritten_marker(
                        op,
                        tokens.skip(at + 1),
                        segments,
                        path,
                    ) {
                        let doc = node::wire(model::subtree_value(t.nodes, id));
                        if let Ok(v) = model::remarked(doc, mark, path) {
                            reconcile_keeps(t, t.root, v, Seq::empty(), 0, w);
                            if prefix.len() > 0 {
                                if let Ok(parent) = model::walk(t, prefix.drop_last(), path) {
                                    write_slot_keeps(
                                        t,
                                        parent,
                                        prefix.last(),
                                        v,
                                        (prefix.len() - 1) as nat,
                                        path,
                                        w,
                                    );
                                }
                            }
                        }
                    }
                }
            }
        } else {
            match op {
                PatchOp::Add { value, .. } => {
                    add_keeps(t, tokens, value@, path, w);
                },
                PatchOp::Remove { .. } => {
                    remove_keeps(t, tokens, path, w);
                },
                PatchOp::Replace { value, .. } => {
                    replace_keeps(t, tokens, value@, path, w);
                },
            }
        }
    }
}

// ------------------------------------------------------------------ stream ops

proof fn drop_end_still(
    s: Tx,
    collection: NodeId,
    rows: Seq<(Chars, NodeId)>,
    cap: nat,
    i: int,
    w: Title,
)
    ensures
        keeps(s, model::drop_end(s, collection, rows, cap, i), w),
    decreases i - cap,
{
    if cap < i {
        let row = rows[i - 1];
        let edit = Edit::Removed { key: row.0, index: (i - 1) as nat };
        let t = s.carry_out(collection, row.0, row.1).log_edit(collection, edit);
        drop_end_still(t, collection, rows, cap, i - 1, w);
    }
}

proof fn drop_front_still(
    s: Tx,
    collection: NodeId,
    rows: Seq<(Chars, NodeId)>,
    count: int,
    i: int,
    w: Title,
)
    ensures
        keeps(s, model::drop_front(s, collection, rows, count, i), w),
    decreases count - i,
{
    if i < count {
        let edit = Edit::Removed { key: rows[i].0, index: 0 };
        let t = s.carry_out(collection, rows[i].0, rows[i].1).log_edit(collection, edit);
        drop_front_still(t, collection, rows, count, i + 1, w);
    }
}

proof fn land_row_keeps(
    s: Tx,
    collection: NodeId,
    key: Chars,
    existing: Option<NodeId>,
    row: NodeId,
    at: i64,
    limit: Option<i64>,
    w: Title,
)
    ensures
        keeps(s, model::land_row(s, collection, key, existing, row, at, limit), w),
{
    let held = s.rows(collection);
    let from = keyed::key_index(held, key);
    let rest = keyed::without(held, key);
    let to = model::landing(at, rest.len());
    let rows = rest.insert(to as int, (key, row));
    let t = model::put_rows(s, collection, model::trimmed(rows, limit, at));
    let u = match existing {
        Some(old) => if old == row {
            t
        } else {
            t.release_if_mine(collection, old)
        },
        None => t,
    };
    let logged = if !keyed::has_key(held, key) {
        u.log_edit(collection, Edit::Inserted { key, index: to, node: row })
    } else if from == to {
        u
    } else {
        u.log_edit(collection, Edit::Moved { key, from, to })
    };
    if let Some(l) = limit {
        drop_end_still(logged, collection, rows, model::cap_of(l), rows.len() as int, w);
        drop_front_still(logged, collection, rows, rows.len() - model::cap_of(l), 0, w);
    }
}

/// One stream op leaves a store node the store it is.
pub proof fn stream_op_keeps(s: Tx, op: StreamOp, w: Title)
    requires
        fresh(w),
    ensures
        keeps(s, model::apply_stream_op(s, op, w.ids).0, w),
{
    let t = s.unclaim();
    still_keeps(s, t, w);
    if let Some(collection) = t.streams.get(op.target()) {
        if t.live(collection) {
            let d = t.touch_dirty(collection);
            replay::touch_dirty_still(t, collection);
            still_keeps(t, d, w);
            match op {
                StreamOp::Reset { .. } => {
                    let e = model::put_rows(d, collection, Seq::empty());
                    replay::carry_all_still(e, collection, t.rows(collection), 0);
                    still_keeps(e, model::carry_all(e, collection, t.rows(collection), 0), w);
                },
                StreamOp::Delete { item_key, .. } => {},
                StreamOp::Insert { item_key, at, item, limit, .. } => {
                    insert_keeps(t, collection, item_key@, item@, at, limit, w);
                },
            }
        }
    }
}

proof fn insert_keeps(
    s: Tx,
    collection: NodeId,
    key: Chars,
    v: Json,
    at: i64,
    limit: Option<i64>,
    w: Title,
)
    requires
        fresh(w),
    ensures
        keeps(s, model::stream_insert(s, collection, key, v, at, limit, w.ids).0, w),
{
    let owner = s.kind(collection)->Collection_owner;
    let depth = model::deeper(s.depth(collection));
    let d = s.touch_dirty(collection);
    replay::touch_dirty_still(s, collection);
    still_keeps(s, d, w);
    let (a, claimed) = model::claim_row(d, collection, key, depth);
    still_keeps(d, a, w);
    if let Ok(existing) = claimed {
        reconcile_child_keeps(a, collection, existing, v, owner, depth, w);
        let (b, child) = model::reconcile_child(
            a,
            collection,
            existing,
            v,
            owner,
            depth,
            w.ids,
        );
        if let Ok(row) = child {
            land_row_keeps(b, collection, key, existing, row, at, limit, w);
        }
    }
}

} // verus!
