//! A plain document, with no store and no stream in it, changes no stream.

use vstd::prelude::*;

use crate::state::keyed;
use crate::state::marker;
use crate::state::marker::{Form, ASYNC_REASON_KEY, ASYNC_RESULT_KEY, STORE_ID_KEY};
use crate::state::model;
use crate::state::model::Tx;
use crate::state::node::{AsyncStatus, Kind, NodeId};
use crate::state::replay;
use crate::state::text::Chars;
use crate::state::value;
use crate::state::value::Json;
use crate::state::wire::Path;

verus! {

/// Whether there is no store and no stream in a document.
pub open spec fn plain(v: Json) -> bool
    decreases v,
{
    match v {
        Json::Array(items) => forall|i: int| 0 <= i < items.len() ==> plain(#[trigger] items[i]),
        Json::Object(fields) => {
            &&& !(marker::object_form(fields) is Store)
            &&& !(marker::object_form(fields) is Collection)
            &&& forall|i: int| 0 <= i < fields.len() ==> plain((#[trigger] fields[i]).1)
        },
        _ => true,
    }
}

/// The parts of a plain async object are plain.
pub proof fn parts_plain(v: Json)
    requires
        plain(v),
    ensures
        marker::form_of(v) matches Form::Async { result, reason, .. } ==> plain(result) && plain(
            reason,
        ),
{
    if let Json::Object(fields) = v {
        keyed::key_index_meaning(fields, ASYNC_RESULT_KEY@);
        keyed::key_index_meaning(fields, ASYNC_REASON_KEY@);
        assert(plain(Json::Null));
    }
}

/// A step after which each stream holds what it held, or is a stream no longer.
pub open spec fn fades(s: Tx, t: Tx, x: NodeId) -> bool {
    s.live(x) ==> t.live(x) && (t.kind(x) is Collection ==> t.kind(x) == s.kind(x))
}

proof fn still_fades(s: Tx, t: Tx, x: NodeId)
    requires
        replay::still(s, t),
    ensures
        fades(s, t, x),
{
    assert(t.live(x) == s.live(x));
}

proof fn rekind_fades(s: Tx, id: NodeId, kind: Kind, x: NodeId)
    requires
        !(kind is Collection),
    ensures
        fades(s, s.put_kind(id, kind), x),
{
}

proof fn make_fades(s: Tx, parent: Option<NodeId>, x: NodeId, ids: Seq<NodeId>)
    ensures
        fades(s, s.make(parent, ids).0, x),
{
}

/// Writing a plain document into a slot leaves each stream with what it held, or no
/// stream.
pub proof fn reconcile_child_fades(
    s: Tx,
    parent: NodeId,
    existing: Option<NodeId>,
    v: Json,
    owner: Path,
    depth: nat,
    x: NodeId,
    ids: Seq<NodeId>,
)
    requires
        plain(v),
    ensures
        fades(s, model::reconcile_child(s, parent, existing, v, owner, depth, ids).0, x),
    decreases value::nesting(v), 5int, 0int,
{
    reconcile_slot_fades(s, parent, existing, v, owner, depth, x, ids);
}

proof fn reconcile_slot_fades(
    s: Tx,
    parent: NodeId,
    existing: Option<NodeId>,
    v: Json,
    owner: Path,
    depth: nat,
    x: NodeId, ids: Seq<NodeId>,
)
    requires
        plain(v),
    ensures
        fades(s, model::reconcile_slot(s, parent, existing, v, owner, depth, ids).0, x),
    decreases value::nesting(v), 4int, 1int,
{
    match existing {
        Some(id) => {
            if s.is_store_node(id) {
                build_fades(s, parent, v, owner, depth, x, ids);
            } else {
                reconcile_fades(s, id, v, owner, depth, x, ids);
            }
        },
        None => {
            build_fades(s, parent, v, owner, depth, x, ids);
        },
    }
}

proof fn install_array_fades(
    s: Tx,
    id: NodeId,
    old: Seq<NodeId>,
    placed: Seq<NodeId>,
    x: NodeId,
)
    ensures
        fades(s, model::install_array(s, id, old, placed), x),
{
    let d = s.touch_dirty(id);
    replay::touch_dirty_still(s, id);
    let t = if s.kids(id) == placed {
        s
    } else {
        d.put_kind(id, Kind::Array(placed))
    };
    still_fades(s, d, x);
    rekind_fades(d, id, Kind::Array(placed), x);
    let u = t.release_displaced(id, old + s.kids(id), placed.to_set(), 0);
    replay::release_displaced_still(t, id, old + s.kids(id), placed.to_set(), 0);
    still_fades(t, u, x);
}

proof fn install_fields_fades(
    s: Tx,
    id: NodeId,
    old: Seq<(Chars, NodeId)>,
    kind: Kind,
    placed: Seq<(Chars, NodeId)>,
    x: NodeId,
)
    requires
        !(kind is Collection),
    ensures
        fades(s, model::install_fields(s, id, old, kind, placed), x),
{
    let d = s.touch_dirty(id);
    replay::touch_dirty_still(s, id);
    let t = if s.fields(id) == Some(placed) {
        s
    } else {
        d.put_kind(id, kind)
    };
    still_fades(s, d, x);
    rekind_fades(d, id, kind, x);
    let list = keyed::items_of(old) + s.kids(id);
    let kept = keyed::items_of(placed).to_set();
    replay::release_displaced_still(t, id, list, kept, 0);
    still_fades(t, t.release_displaced(id, list, kept, 0), x);
}

proof fn set_async_slot_fades(s: Tx, id: NodeId, first: bool, now: NodeId, x: NodeId)
    ensures
        fades(s, model::set_async_slot(s, id, first, now), x),
{
    if let Some(held) = model::async_slot(s, id, first) {
        let d = s.touch_dirty(id);
        replay::touch_dirty_still(s, id);
        still_fades(s, d, x);
        let kind = model::with_kid(
            s.kind(id),
            if first {
                0
            } else {
                1
            },
            now,
        );
        rekind_fades(d, id, kind, x);
        let t = d.put_kind(id, kind);
        still_fades(t, t.release_if_mine(id, held), x);
    }
}

proof fn reconcile_fades(
    s: Tx,
    id: NodeId,
    v: Json,
    owner: Path,
    depth: nat,
    x: NodeId, ids: Seq<NodeId>,
)
    requires
        plain(v),
    ensures
        fades(s, model::reconcile(s, id, v, owner, depth, ids).0, x),
    decreases value::nesting(v), 4int, 0int,
{
    if s.live(id) && !model::unchanged(s.kind(id), marker::form_of(v)) {
        model::form_nesting(v);
        parts_plain(v);
        match (s.kind(id), marker::form_of(v)) {
            (Kind::Object(old), Form::Object(fields)) => {
                place_fields_fades(s, id, old, fields, false, owner, depth, 0, Seq::empty(), x, ids);
                let (t, new) = model::place_fields(
                    s,
                    id,
                    old,
                    fields,
                    false,
                    owner,
                    depth,
                    0,
                    Seq::empty(),
                    ids,
                );
                if let Ok(placed) = new {
                    install_fields_fades(t, id, old, Kind::Object(placed), placed, x);
                }
            },
            (Kind::Array(old), Form::Array(items)) => {
                place_items_fades(s, id, old, items, owner, depth, 0, Seq::empty(), x, ids);
                let (t, new) = model::place_items(
                    s,
                    id,
                    old,
                    items,
                    owner,
                    depth,
                    0,
                    Seq::empty(),
                    ids,
                );
                if let Ok(placed) = new {
                    install_array_fades(t, id, old, placed, x);
                }
            },
            (Kind::Async { status, result, reason }, Form::Async {
                status: new_status,
                result: new_result,
                reason: new_reason,
            }) => {
                let marked = model::put_status(s, id, new_status);
                put_status_fades(s, id, new_status, x);
                let deep = model::deeper(depth);
                reconcile_child_fades(marked, id, Some(result), new_result, owner, deep, x, ids);
                let (t, first) = model::reconcile_child(
                    marked,
                    id,
                    Some(result),
                    new_result,
                    owner,
                    deep,
                    ids,
                );
                if let Ok(now) = first {
                    let held = model::set_async_slot(t, id, true, now);
                    set_async_slot_fades(t, id, true, now, x);
                    let next = model::async_slot(held, id, false);
                    reconcile_child_fades(held, id, next, new_reason, owner, deep, x, ids);
                    let (u, second) = model::reconcile_child(
                        held,
                        id,
                        next,
                        new_reason,
                        owner,
                        deep,
                        ids,
                    );
                    if let Ok(last) = second {
                        set_async_slot_fades(u, id, false, last, x);
                    }
                }
            },
            _ => {
                rebuild_fades(s, id, v, owner, depth, x, ids);
            },
        }
    }
}

proof fn rebuild_fades(s: Tx, id: NodeId, v: Json, owner: Path, depth: nat, x: NodeId, ids: Seq<NodeId>)
    requires
        plain(v),
    ensures
        fades(s, model::rebuild(s, id, v, owner, depth, ids).0, x),
    decreases value::nesting(v), 3int, 0int,
{
    let l = s.log_loss(id);
    let t = l.touch_dirty(id);
    replay::touch_dirty_still(l, id);
    let e = t.unregister(id).put_kind(id, Kind::Null);
    let r = e.release_each(t.kids(id), 0);
    replay::release_each_still(e, t.kids(id), 0);
    assert(t.unregister(id).nodes == t.nodes);
    assert(l.nodes == s.nodes);
    assert(t.live(x) == l.live(x));
    assert(r.live(x) == e.live(x));
    install_fades(r, id, v, owner, depth, x, ids);
}

proof fn build_fades(s: Tx, parent: NodeId, v: Json, owner: Path, depth: nat, x: NodeId, ids: Seq<NodeId>)
    requires
        plain(v),
    ensures
        fades(s, model::build(s, parent, v, owner, depth, ids).0, x),
    decreases value::nesting(v), 3int, 0int,
{
    let (t, made) = s.make(Some(parent), ids);
    make_fades(s, Some(parent), x, ids);
    if let Ok(id) = made {
        install_fades(t, id, v, owner, depth, x, ids);
    }
}

/// Giving a node its kind and its value.
proof fn finish_fades(s: Tx, id: NodeId, kind: Kind, x: NodeId)
    requires
        !(kind is Collection),
    ensures
        fades(s, model::finish(s, id, kind), x),
{
    rekind_fades(s, id, kind, x);
    still_fades(s.put_kind(id, kind), model::finish(s, id, kind), x);
}

proof fn install_fades(s: Tx, id: NodeId, v: Json, owner: Path, depth: nat, x: NodeId, ids: Seq<NodeId>)
    requires
        plain(v),
    ensures
        fades(s, model::install(s, id, v, owner, depth, ids).0, x),
    decreases value::nesting(v), 2int, 0int,
{
    model::form_nesting(v);
    parts_plain(v);
    let none = Seq::<NodeId>::empty();
    let bare = Seq::<(Chars, NodeId)>::empty();
    match marker::form_of(v) {
        Form::Null => {
            finish_fades(s, id, Kind::Null, x);
        },
        Form::Bool(flag) => {
            finish_fades(s, id, Kind::Bool(flag), x);
        },
        Form::Number(number) => {
            finish_fades(s, id, Kind::Number(number), x);
        },
        Form::Text(text) => {
            finish_fades(s, id, Kind::Text(text), x);
        },
        Form::Array(items) => {
            place_items_fades(s, id, none, items, owner, depth, 0, none, x, ids);
            let (t, new) = model::place_items(s, id, none, items, owner, depth, 0, none, ids);
            if let Ok(placed) = new {
                finish_fades(t, id, Kind::Array(placed), x);
            }
        },
        Form::Object(fields) => {
            place_fields_fades(s, id, bare, fields, false, owner, depth, 0, bare, x, ids);
            let (t, new) = model::place_fields(
                s,
                id,
                bare,
                fields,
                false,
                owner,
                depth,
                0,
                bare,
                ids,
            );
            if let Ok(placed) = new {
                finish_fades(t, id, Kind::Object(placed), x);
            }
        },
        Form::Async { status, result, reason } => {
            let deep = model::deeper(depth);
            reconcile_child_fades(s, id, None, result, owner, deep, x, ids);
            let (t, first) = model::reconcile_child(s, id, None, result, owner, deep, ids);
            reconcile_child_fades(t, id, None, reason, owner, deep, x, ids);
            let (u, second) = model::reconcile_child(t, id, None, reason, owner, deep, ids);
            if first is Ok && second is Ok {
                finish_fades(
                    u,
                    id,
                    Kind::Async { status, result: first->Ok_0, reason: second->Ok_0 },
                    x,
                );
            }
        },
        Form::Upload { name } => {
            finish_fades(s, id, Kind::Upload { name, owner }, x);
        },
        _ => {},
    }
}

/// Writing plain documents under keys takes no node away.
pub proof fn place_fields_fades(
    s: Tx,
    id: NodeId,
    old: Seq<(Chars, NodeId)>,
    fields: Seq<(Chars, Json)>,
    store: bool,
    owner: Path,
    depth: nat,
    i: int,
    placed: Seq<(Chars, NodeId)>,
    x: NodeId, ids: Seq<NodeId>,
)
    requires
        forall|k: int| 0 <= k < fields.len() ==> plain((#[trigger] fields[k]).1),
    ensures
        fades(s, model::place_fields(s, id, old, fields, store, owner, depth, i, placed, ids).0, x),
    decreases model::nesting_of_fields(fields), 1int, fields.len() - i,
{
    if 0 <= i < fields.len() {
        if store && fields[i].0 == STORE_ID_KEY@ {
            place_fields_fades(s, id, old, fields, store, owner, depth, i + 1, placed, x, ids);
        } else {
            value::field_nesting(fields, i);
            let existing = s.unclaimed(
                id,
                keyed::lookup(old, fields[i].0),
                keyed::items_of(placed),
            );
            let deep = model::deeper(depth);
            reconcile_child_fades(s, id, existing, fields[i].1, owner, deep, x, ids);
            let (t, child) = model::reconcile_child(
                s,
                id,
                existing,
                fields[i].1,
                owner,
                deep,
                ids,
            );
            if let Ok(kid) = child {
                place_fields_fades(
                    t,
                    id,
                    old,
                    fields,
                    store,
                    owner,
                    depth,
                    i + 1,
                    placed.push((fields[i].0, kid)),
                    x, ids,
                );
            }
        }
    }
}

proof fn place_items_fades(
    s: Tx,
    id: NodeId,
    old: Seq<NodeId>,
    items: Seq<Json>,
    owner: Path,
    depth: nat,
    i: int,
    placed: Seq<NodeId>,
    x: NodeId, ids: Seq<NodeId>,
)
    requires
        forall|k: int| 0 <= k < items.len() ==> plain(#[trigger] items[k]),
    ensures
        fades(s, model::place_items(s, id, old, items, owner, depth, i, placed, ids).0, x),
    decreases model::nesting_of_items(items), 1int, items.len() - i,
{
    if 0 <= i < items.len() {
        value::item_nesting(items, i);
        let existing = s.unclaimed(
            id,
            if i < old.len() {
                Some(old[i])
            } else {
                None
            },
            placed,
        );
        let deep = model::deeper(depth);
        reconcile_child_fades(s, id, existing, items[i], owner, deep, x, ids);
        let (t, child) = model::reconcile_child(s, id, existing, items[i], owner, deep, ids);
        if let Ok(kid) = child {
            place_items_fades(t, id, old, items, owner, depth, i + 1, placed.push(kid), x, ids);
        }
    }
}

proof fn put_status_fades(s: Tx, id: NodeId, new: AsyncStatus, x: NodeId)
    ensures
        fades(s, model::put_status(s, id, new), x),
{
    if s.live(id) {
        if let Kind::Async { status, result, reason } = s.kind(id) {
            let d = s.touch_dirty(id);
            replay::touch_dirty_still(s, id);
            still_fades(s, d, x);
            rekind_fades(d, id, Kind::Async { status: new, result, reason }, x);
        }
    }
}

} // verus!
