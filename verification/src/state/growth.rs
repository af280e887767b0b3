//! A transaction only ever makes nodes: the list of those it made grows.

use vstd::prelude::*;

use crate::state::change::Edit;
use crate::state::keyed;
use crate::state::marker;
use crate::state::marker::{Form, STORE_ID_KEY};
use crate::state::model;
use crate::state::model::{Outcome, Tx, MAX_WALK};
use crate::state::node;
use crate::state::node::{Kind, NodeId};
use crate::state::pointer;
use crate::state::pointer::ArrayIndex;
use crate::state::text::Chars;
use crate::state::value;
use crate::state::value::Json;
use crate::state::wire::{PatchOp, Path, StreamOp};

verus! {

/// Dirtying makes no node.
pub proof fn dirty_up_makes_none(s: Tx, cursor: Option<NodeId>, walk: nat)
    ensures
        s.dirty_up(cursor, walk).allocated == s.allocated,
    decreases walk,
{
    if let Some(id) = cursor {
        if walk > 0 && s.live(id) {
            dirty_up_makes_none(s.note_dirty(id), s.nodes[id].parent, (walk - 1) as nat);
        }
    }
}

pub proof fn touch_dirty_makes_none(s: Tx, id: NodeId)
    ensures
        s.touch_dirty(id).allocated == s.allocated,
{
    dirty_up_makes_none(s.touch(id), Some(id), MAX_WALK as nat);
}

proof fn release_displaced_makes_none(
    s: Tx,
    parent: NodeId,
    list: Seq<NodeId>,
    kept: Set<NodeId>,
    i: int,
)
    ensures
        s.release_displaced(parent, list, kept, i).allocated == s.allocated,
    decreases list.len() - i,
{
    if 0 <= i < list.len() {
        if kept.contains(list[i]) {
            release_displaced_makes_none(s, parent, list, kept, i + 1);
        } else {
            release_displaced_makes_none(
                s.release_if_mine(parent, list[i]),
                parent,
                list,
                kept,
                i + 1,
            );
        }
    }
}

proof fn release_each_makes_none(s: Tx, list: Seq<NodeId>, i: int)
    ensures
        s.release_each(list, i).allocated == s.allocated,
    decreases list.len() - i,
{
    if 0 <= i < list.len() {
        release_each_makes_none(s.release(list[i]), list, i + 1);
    }
}

proof fn adopt_grows(s: Tx, parent: NodeId, id: NodeId, ids: Seq<NodeId>)
    ensures
        s.allocated.len() <= s.adopt(parent, id, ids).0.allocated.len(),
{
    let a = s.touch(id).unpend(id);
    if let Some(up) = a.parent_of(id) {
        touch_dirty_makes_none(a, up);
        let t = a.detach(up, id, ids).0;
        dirty_up_makes_none(t.put_parent(id, Some(parent)), Some(parent), MAX_WALK as nat);
    } else {
        dirty_up_makes_none(a.put_parent(id, Some(parent)), Some(parent), MAX_WALK as nat);
    }
}

/// Whether a step made nodes, or none.
pub open spec fn grew<T>(s: Tx, outcome: Outcome<T>) -> bool {
    s.allocated.len() <= outcome.0.allocated.len()
}

pub proof fn reconcile_child_grows(
    s: Tx,
    parent: NodeId,
    existing: Option<NodeId>,
    v: Json,
    owner: Path,
    depth: nat,
    ids: Seq<NodeId>,
)
    ensures
        grew(s, model::reconcile_child(s, parent, existing, v, owner, depth, ids)),
    decreases value::nesting(v), 5int, 0int,
{
    match marker::form_of(v) {
        Form::Store { id: path, .. } => {
            let t = s.claim(path);
            if existing is Some && t.is_store(existing->0, path) {
                reconcile_grows(t, existing->0, v, owner, depth, ids);
            } else if !s.claimed.contains(path) && t.adoptable_store(
                parent,
                existing,
                path,
            ) is Some {
                let found = t.adoptable_store(parent, existing, path)->0;
                reconcile_adopted_grows(t, parent, found, v, owner, depth, ids);
            } else {
                build_grows(t, parent, v, owner, depth, ids);
            }
        },
        Form::Collection { name } => {
            let t = s.claim_stream((owner, name));
            if existing is Some && t.is_collection(existing->0, name) {
            } else if !s.claimed_streams.contains((owner, name)) && t.adoptable_stream(
                parent,
                existing,
                (owner, name),
            ) is Some {
                let found = t.adoptable_stream(parent, existing, (owner, name))->0;
                reconcile_adopted_grows(t, parent, found, v, owner, depth, ids);
            } else {
                reconcile_slot_grows(t, parent, existing, v, owner, depth, ids);
            }
        },
        _ => {
            reconcile_slot_grows(s, parent, existing, v, owner, depth, ids);
        },
    }
}

proof fn reconcile_adopted_grows(
    s: Tx,
    parent: NodeId,
    found: NodeId,
    v: Json,
    owner: Path,
    depth: nat,
    ids: Seq<NodeId>,
)
    ensures
        grew(s, model::reconcile_adopted(s, parent, found, v, owner, depth, ids)),
    decreases value::nesting(v), 4int, 1int,
{
    adopt_grows(s, parent, found, ids);
    reconcile_grows(s.adopt(parent, found, ids).0, found, v, owner, depth, ids);
}

proof fn reconcile_slot_grows(
    s: Tx,
    parent: NodeId,
    existing: Option<NodeId>,
    v: Json,
    owner: Path,
    depth: nat,
    ids: Seq<NodeId>,
)
    ensures
        grew(s, model::reconcile_slot(s, parent, existing, v, owner, depth, ids)),
    decreases value::nesting(v), 4int, 1int,
{
    match existing {
        Some(id) => {
            if s.is_store_node(id) {
                build_grows(s, parent, v, owner, depth, ids);
            } else {
                reconcile_grows(s, id, v, owner, depth, ids);
            }
        },
        None => {
            build_grows(s, parent, v, owner, depth, ids);
        },
    }
}

pub proof fn install_array_makes_none(s: Tx, id: NodeId, old: Seq<NodeId>, placed: Seq<NodeId>)
    ensures
        model::install_array(s, id, old, placed).allocated == s.allocated,
{
    touch_dirty_makes_none(s, id);
    let t = if s.kids(id) == placed {
        s
    } else {
        s.touch_dirty(id).put_kind(id, Kind::Array(placed))
    };
    release_displaced_makes_none(t, id, old + s.kids(id), placed.to_set(), 0);
}

pub proof fn install_fields_makes_none(
    s: Tx,
    id: NodeId,
    old: Seq<(Chars, NodeId)>,
    kind: Kind,
    placed: Seq<(Chars, NodeId)>,
)
    ensures
        model::install_fields(s, id, old, kind, placed).allocated == s.allocated,
{
    touch_dirty_makes_none(s, id);
    let t = if s.fields(id) == Some(placed) {
        s
    } else {
        s.touch_dirty(id).put_kind(id, kind)
    };
    release_displaced_makes_none(
        t,
        id,
        keyed::items_of(old) + s.kids(id),
        keyed::items_of(placed).to_set(),
        0,
    );
}

pub proof fn set_async_slot_makes_none(s: Tx, id: NodeId, first: bool, now: NodeId)
    ensures
        model::set_async_slot(s, id, first, now).allocated == s.allocated,
{
    touch_dirty_makes_none(s, id);
}

pub proof fn reconcile_grows(
    s: Tx,
    id: NodeId,
    v: Json,
    owner: Path,
    depth: nat,
    ids: Seq<NodeId>,
)
    ensures
        grew(s, model::reconcile(s, id, v, owner, depth, ids)),
    decreases value::nesting(v), 4int, 0int,
{
    if s.live(id) && !model::unchanged(s.kind(id), marker::form_of(v)) {
        model::form_nesting(v);
        match (s.kind(id), marker::form_of(v)) {
            (Kind::Object(old), Form::Object(fields)) => {
                place_fields_grows(s, id, old, fields, false, owner, depth, 0, Seq::empty(), ids);
                let (t, new) = model::place_fields(
                    s,
                    id,
                    old,
                    fields,
                    false,
                    owner,
                    depth,
                    0,
                    Seq::empty(),
                    ids,
                );
                if let Ok(placed) = new {
                    install_fields_makes_none(t, id, old, Kind::Object(placed), placed);
                }
            },
            (Kind::Store { id: path, fields: old }, Form::Store { id: held, fields }) => {
                if path == held {
                    place_fields_grows(
                        s,
                        id,
                        old,
                        fields,
                        true,
                        path,
                        depth,
                        0,
                        Seq::empty(),
                        ids,
                    );
                    let (t, new) = model::place_fields(
                        s,
                        id,
                        old,
                        fields,
                        true,
                        path,
                        depth,
                        0,
                        Seq::empty(),
                        ids,
                    );
                    if let Ok(placed) = new {
                        install_fields_makes_none(
                            t,
                            id,
                            old,
                            Kind::Store { id: path, fields: placed },
                            placed,
                        );
                    }
                } else {
                    rebuild_grows(s, id, v, owner, depth, ids);
                }
            },
            (Kind::Array(old), Form::Array(items)) => {
                place_items_grows(s, id, old, items, owner, depth, 0, Seq::empty(), ids);
                let (t, new) = model::place_items(
                    s,
                    id,
                    old,
                    items,
                    owner,
                    depth,
                    0,
                    Seq::empty(),
                    ids,
                );
                if let Ok(placed) = new {
                    install_array_makes_none(t, id, old, placed);
                }
            },
            (Kind::Async { status, result, reason }, Form::Async {
                status: new_status,
                result: new_result,
                reason: new_reason,
            }) => {
                let marked = model::put_status(s, id, new_status);
                touch_dirty_makes_none(s, id);
                let deep = model::deeper(depth);
                reconcile_child_grows(marked, id, Some(result), new_result, owner, deep, ids);
                let (t, first) = model::reconcile_child(
                    marked,
                    id,
                    Some(result),
                    new_result,
                    owner,
                    deep,
                    ids,
                );
                if let Ok(now) = first {
                    let held = model::set_async_slot(t, id, true, now);
                    set_async_slot_makes_none(t, id, true, now);
                    let next = model::async_slot(held, id, false);
                    reconcile_child_grows(held, id, next, new_reason, owner, deep, ids);
                    let (u, second) = model::reconcile_child(
                        held,
                        id,
                        next,
                        new_reason,
                        owner,
                        deep,
                        ids,
                    );
                    if let Ok(last) = second {
                        set_async_slot_makes_none(u, id, false, last);
                    }
                }
            },
            _ => {
                rebuild_grows(s, id, v, owner, depth, ids);
            },
        }
    }
}

proof fn rebuild_grows(s: Tx, id: NodeId, v: Json, owner: Path, depth: nat, ids: Seq<NodeId>)
    ensures
        grew(s, model::rebuild(s, id, v, owner, depth, ids)),
    decreases value::nesting(v), 3int, 0int,
{
    let t = s.log_loss(id).touch_dirty(id);
    touch_dirty_makes_none(s.log_loss(id), id);
    let u = t.unregister(id).put_kind(id, Kind::Null);
    release_each_makes_none(u, t.kids(id), 0);
    install_grows(u.release_each(t.kids(id), 0), id, v, owner, depth, ids);
}

proof fn build_grows(s: Tx, parent: NodeId, v: Json, owner: Path, depth: nat, ids: Seq<NodeId>)
    ensures
        grew(s, model::build(s, parent, v, owner, depth, ids)),
    decreases value::nesting(v), 3int, 0int,
{
    let (t, made) = s.make(Some(parent), ids);
    if let Ok(id) = made {
        install_grows(t, id, v, owner, depth, ids);
    }
}

pub proof fn install_grows(s: Tx, id: NodeId, v: Json, owner: Path, depth: nat, ids: Seq<NodeId>)
    ensures
        grew(s, model::install(s, id, v, owner, depth, ids)),
    decreases value::nesting(v), 2int, 0int,
{
    model::form_nesting(v);
    match marker::form_of(v) {
        Form::Array(items) => {
            place_items_grows(s, id, Seq::empty(), items, owner, depth, 0, Seq::empty(), ids);
        },
        Form::Object(fields) => {
            place_fields_grows(
                s,
                id,
                Seq::empty(),
                fields,
                false,
                owner,
                depth,
                0,
                Seq::empty(),
                ids,
            );
        },
        Form::Store { id: path, fields } => {
            place_fields_grows(
                s,
                id,
                Seq::empty(),
                fields,
                true,
                path,
                depth,
                0,
                Seq::empty(),
                ids,
            );
        },
        Form::Async { status, result, reason } => {
            let deep = model::deeper(depth);
            reconcile_child_grows(s, id, None, result, owner, deep, ids);
            let (t, first) = model::reconcile_child(s, id, None, result, owner, deep, ids);
            reconcile_child_grows(t, id, None, reason, owner, deep, ids);
        },
        _ => {},
    }
}

pub proof fn place_fields_grows(
    s: Tx,
    id: NodeId,
    old: Seq<(Chars, NodeId)>,
    fields: Seq<(Chars, Json)>,
    store: bool,
    owner: Path,
    depth: nat,
    i: int,
    placed: Seq<(Chars, NodeId)>,
    ids: Seq<NodeId>,
)
    ensures
        grew(
            s,
            model::place_fields(s, id, old, fields, store, owner, depth, i, placed, ids),
        ),
    decreases model::nesting_of_fields(fields), 1int, fields.len() - i,
{
    if 0 <= i < fields.len() {
        if store && fields[i].0 == STORE_ID_KEY@ {
            place_fields_grows(s, id, old, fields, store, owner, depth, i + 1, placed, ids);
        } else {
            value::field_nesting(fields, i);
            let existing = s.unclaimed(
                id,
                keyed::lookup(old, fields[i].0),
                keyed::items_of(placed),
            );
            let deep = model::deeper(depth);
            reconcile_child_grows(s, id, existing, fields[i].1, owner, deep, ids);
            let (t, child) = model::reconcile_child(
                s,
                id,
                existing,
                fields[i].1,
                owner,
                deep,
                ids,
            );
            if let Ok(kid) = child {
                place_fields_grows(
                    t,
                    id,
                    old,
                    fields,
                    store,
                    owner,
                    depth,
                    i + 1,
                    placed.push((fields[i].0, kid)),
                    ids,
                );
            }
        }
    }
}

pub proof fn place_items_grows(
    s: Tx,
    id: NodeId,
    old: Seq<NodeId>,
    items: Seq<Json>,
    owner: Path,
    depth: nat,
    i: int,
    placed: Seq<NodeId>,
    ids: Seq<NodeId>,
)
    ensures
        grew(s, model::place_items(s, id, old, items, owner, depth, i, placed, ids)),
    decreases model::nesting_of_items(items), 1int, items.len() - i,
{
    if 0 <= i < items.len() {
        value::item_nesting(items, i);
        let existing = s.unclaimed(
            id,
            if i < old.len() {
                Some(old[i])
            } else {
                None
            },
            placed,
        );
        let deep = model::deeper(depth);
        reconcile_child_grows(s, id, existing, items[i], owner, deep, ids);
        let (t, child) = model::reconcile_child(s, id, existing, items[i], owner, deep, ids);
        if let Ok(kid) = child {
            place_items_grows(t, id, old, items, owner, depth, i + 1, placed.push(kid), ids);
        }
    }
}

// --------------------------------------------------------------------- the ops

proof fn rehome_makes_none(s: Tx, list: Seq<NodeId>, parent: NodeId, i: int)
    ensures
        s.rehome(list, parent, i).allocated == s.allocated,
    decreases list.len() - i,
{
    if 0 <= i < list.len() {
        rehome_makes_none(
            s.touch(list[i]).put_parent(list[i], Some(parent)),
            list,
            parent,
            i + 1,
        );
    }
}

proof fn exchange_makes_none(s: Tx, id: NodeId, copy: NodeId, path: Path)
    ensures
        s.exchange(id, copy, path).allocated == s.allocated,
{
    let mine = s.kind(id);
    let theirs = s.kind(copy);
    let up = s.nodes[id].parent->0;
    let other = s.nodes[copy].parent->0;
    let a = s.touch(id).touch(copy);
    rehome_makes_none(a, mine.kids(), copy, 0);
    let b = a.rehome(mine.kids(), copy, 0);
    rehome_makes_none(b, theirs.kids(), id, 0);
    let c = b.rehome(theirs.kids(), id, 0).put_kind(id, theirs).put_kind(copy, mine);
    let t = if up == other {
        c.swap_under(up, id, copy)
    } else {
        c.swap_under(up, id, copy).swap_under(other, id, copy)
    };
    let d = t.put_parent(id, Some(other)).put_parent(copy, Some(up));
    dirty_up_makes_none(d, Some(id), MAX_WALK as nat);
    dirty_up_makes_none(d.mark_dirty(id), Some(copy), MAX_WALK as nat);
}

proof fn yield_makes_none(s: Tx, id: NodeId, v: Json)
    ensures
        s.yield_identity(id, v).0.allocated == s.allocated,
{
    if let Some(copy) = s.copy_of(id) {
        exchange_makes_none(s, id, copy, s.kind(id)->Store_id);
    }
}

proof fn put_field_grows(
    s: Tx,
    parent: NodeId,
    key: Chars,
    v: Json,
    owner: Path,
    depth: nat,
    ids: Seq<NodeId>,
)
    ensures
        grew(s, model::put_field(s, parent, key, v, owner, depth, ids)),
{
    if let Some(first) = s.fields(parent) {
        let (a, existing) = match keyed::lookup(first, key) {
            Some(id) => {
                let (t, held) = s.yield_identity(id, v);
                (t, Some(held))
            },
            None => (s, None),
        };
        if let Some(id) = keyed::lookup(first, key) {
            yield_makes_none(s, id, v);
        }
        reconcile_child_grows(a, parent, existing, v, owner, depth, ids);
        let b = model::reconcile_child(a, parent, existing, v, owner, depth, ids).0;
        touch_dirty_makes_none(b, parent);
    }
}

proof fn put_index_grows(
    s: Tx,
    parent: NodeId,
    index: int,
    v: Json,
    owner: Path,
    depth: nat,
    ids: Seq<NodeId>,
)
    ensures
        grew(s, model::put_index(s, parent, index, v, owner, depth, ids)),
{
    let (a, existing) = s.yield_identity(s.kids(parent)[index], v);
    yield_makes_none(s, s.kids(parent)[index], v);
    let old = a.kids(parent);
    reconcile_child_grows(a, parent, Some(existing), v, owner, depth, ids);
    let (b, child) = model::reconcile_child(a, parent, Some(existing), v, owner, depth, ids);
    if let Ok(kid) = child {
        let put = model::set_at(b.kids(parent), index, kid);
        let from = model::node_index(old, kid) as int;
        install_array_makes_none(b, parent, old, put);
        install_array_makes_none(b, parent, old, model::set_at(put, from, existing));
    }
}

proof fn put_async_grows(
    s: Tx,
    parent: NodeId,
    first: bool,
    v: Json,
    owner: Path,
    depth: nat,
    ids: Seq<NodeId>,
)
    ensures
        grew(s, model::put_async(s, parent, first, v, owner, depth, ids)),
{
    if let Some(id) = model::async_slot(s, parent, first) {
        let (a, existing) = s.yield_identity(id, v);
        yield_makes_none(s, id, v);
        reconcile_child_grows(a, parent, Some(existing), v, owner, depth, ids);
        let (b, child) = model::reconcile_child(a, parent, Some(existing), v, owner, depth, ids);
        if let Ok(kid) = child {
            set_async_slot_makes_none(b, parent, first, kid);
        }
    }
}

proof fn claim_stores_makes_none(s: Tx, list: Seq<NodeId>, i: int)
    ensures
        s.claim_stores(list, i).allocated == s.allocated,
    decreases list.len() - i,
{
    if 0 <= i < list.len() {
        claim_stores_makes_none(s, list, i + 1);
        if s.live(list[i]) {
            if let Kind::Store { id: path, .. } = s.kind(list[i]) {
                claim_stores_makes_none(s.claim(path), list, i + 1);
            }
        }
    }
}

proof fn array_add_grows(
    s: Tx,
    id: NodeId,
    index: int,
    v: Json,
    owner: Path,
    depth: nat,
    ids: Seq<NodeId>,
)
    ensures
        grew(s, model::array_add(s, id, index, v, owner, depth, ids)),
{
    let old = s.kids(id);
    let a = s.claim_stores(old, 0);
    claim_stores_makes_none(s, old, 0);
    reconcile_child_grows(a, id, None, v, owner, depth, ids);
    let (t, child) = model::reconcile_child(a, id, None, v, owner, depth, ids);
    if let Ok(kid) = child {
        let held = t.kids(id);
        let at = if index <= held.len() {
            index
        } else {
            held.len() as int
        };
        install_array_makes_none(t, id, old, held.insert(at, kid));
    }
}

proof fn status_makes_none(s: Tx, id: NodeId, v: Json, path: Chars)
    ensures
        model::set_async_status(s, id, v, path).0.allocated == s.allocated,
{
    touch_dirty_makes_none(s, id);
}

proof fn write_slot_grows(
    s: Tx,
    parent: NodeId,
    key: Chars,
    v: Json,
    depth: nat,
    path: Chars,
    ids: Seq<NodeId>,
)
    ensures
        grew(s, model::write_slot(s, parent, key, v, depth, path, ids)),
{
    let owner = s.owner_of(parent);
    let deep = model::deeper(depth);
    put_field_grows(s, parent, key, v, owner, deep, ids);
    put_async_grows(s, parent, true, v, owner, deep, ids);
    put_async_grows(s, parent, false, v, owner, deep, ids);
    if let Some(ArrayIndex::At(at)) = pointer::index_meaning(key) {
        put_index_grows(s, parent, at as int, v, owner, deep, ids);
    }
}

proof fn replace_grows(s: Tx, tokens: Seq<Chars>, v: Json, path: Chars, ids: Seq<NodeId>)
    ensures
        grew(s, model::replace(s, tokens, v, path, ids)),
{
    reconcile_grows(s, s.root, v, Seq::empty(), 0, ids);
    if tokens.len() > 0 {
        if let Ok(parent) = model::walk(s, tokens.drop_last(), path) {
            status_makes_none(s, parent, v, path);
            write_slot_grows(s, parent, tokens.last(), v, (tokens.len() - 1) as nat, path, ids);
        }
    }
}

proof fn add_grows(s: Tx, tokens: Seq<Chars>, v: Json, path: Chars, ids: Seq<NodeId>)
    ensures
        grew(s, model::add_op(s, tokens, v, path, ids)),
{
    replace_grows(s, tokens, v, path, ids);
    if tokens.len() > 0 {
        if let Ok(parent) = model::walk(s, tokens.drop_last(), path) {
            let key = tokens.last();
            let depth = model::deeper((tokens.len() - 1) as nat);
            let owner = s.owner_of(parent);
            put_field_grows(s, parent, key, v, owner, depth, ids);
            put_async_grows(s, parent, true, v, owner, depth, ids);
            put_async_grows(s, parent, false, v, owner, depth, ids);
            status_makes_none(s, parent, v, path);
            array_add_grows(s, parent, s.kids(parent).len() as int, v, owner, depth, ids);
            if let Some(ArrayIndex::At(at)) = pointer::index_meaning(key) {
                array_add_grows(s, parent, at as int, v, owner, depth, ids);
            }
        }
    }
}

proof fn remove_makes_none(s: Tx, tokens: Seq<Chars>, path: Chars)
    ensures
        model::remove_op(s, tokens, path).0.allocated == s.allocated,
{
    if tokens.len() > 0 {
        if let Ok(parent) = model::walk(s, tokens.drop_last(), path) {
            touch_dirty_makes_none(s, parent);
            if let Some(ArrayIndex::At(at)) = pointer::index_meaning(tokens.last()) {
                install_array_makes_none(
                    s,
                    parent,
                    s.kids(parent),
                    s.kids(parent).remove(at as int),
                );
            }
        }
    }
}

/// One patch op only makes nodes.
pub proof fn patch_op_grows(s: Tx, op: PatchOp, ids: Seq<NodeId>)
    ensures
        grew(s, model::apply_patch_op(s, op, ids)),
{
    let t = s.unclaim();
    let path = op.path_text();
    if let Some(tokens) = pointer::pointer_tokens(path) {
        let at = model::marker_index(tokens) as int;
        if at < tokens.len() {
            let prefix = tokens.take(at);
            if let Ok(id) = model::walk(t, prefix, path) {
                if let Ok(segments) = model::id_segments(t, id, path) {
                    if let Ok(mark) = model::rewritten_marker(
                        op,
                        tokens.skip(at + 1),
                        segments,
                        path,
                    ) {
                        let doc = node::wire(model::subtree_value(t.nodes, id));
                        if let Ok(v) = model::remarked(doc, mark, path) {
                            reconcile_grows(t, t.root, v, Seq::empty(), 0, ids);
                            if prefix.len() > 0 {
                                if let Ok(parent) = model::walk(t, prefix.drop_last(), path) {
                                    write_slot_grows(
                                        t,
                                        parent,
                                        prefix.last(),
                                        v,
                                        (prefix.len() - 1) as nat,
                                        path,
                                        ids,
                                    );
                                }
                            }
                        }
                    }
                }
            }
        } else {
            match op {
                PatchOp::Add { value, .. } => {
                    add_grows(t, tokens, value@, path, ids);
                },
                PatchOp::Remove { .. } => {
                    remove_makes_none(t, tokens, path);
                },
                PatchOp::Replace { value, .. } => {
                    replace_grows(t, tokens, value@, path, ids);
                },
            }
        }
    }
}

/// A list of patch ops only makes nodes.
pub proof fn patches_grow(s: Tx, ops: Seq<PatchOp>, i: int, ids: Seq<NodeId>)
    ensures
        grew(s, model::apply_patches(s, ops, i, ids)),
    decreases ops.len() - i,
{
    if 0 <= i < ops.len() {
        patch_op_grows(s, ops[i], ids);
        patches_grow(model::apply_patch_op(s, ops[i], ids).0, ops, i + 1, ids);
    }
}

proof fn carry_all_makes_none(s: Tx, collection: NodeId, rows: Seq<(Chars, NodeId)>, i: int)
    ensures
        model::carry_all(s, collection, rows, i).allocated == s.allocated,
    decreases rows.len() - i,
{
    if 0 <= i < rows.len() {
        carry_all_makes_none(
            s.carry_out(collection, rows[i].0, rows[i].1),
            collection,
            rows,
            i + 1,
        );
    }
}

proof fn drop_end_makes_none(
    s: Tx,
    collection: NodeId,
    rows: Seq<(Chars, NodeId)>,
    cap: nat,
    i: int,
)
    ensures
        model::drop_end(s, collection, rows, cap, i).allocated == s.allocated,
    decreases i - cap,
{
    if cap < i <= rows.len() {
        let row = rows[i - 1];
        drop_end_makes_none(
            s.carry_out(collection, row.0, row.1).log_edit(
                collection,
                Edit::Removed { key: row.0, index: (i - 1) as nat },
            ),
            collection,
            rows,
            cap,
            i - 1,
        );
    }
}

proof fn drop_front_makes_none(
    s: Tx,
    collection: NodeId,
    rows: Seq<(Chars, NodeId)>,
    count: int,
    i: int,
)
    ensures
        model::drop_front(s, collection, rows, count, i).allocated == s.allocated,
    decreases count - i,
{
    if 0 <= i < count && i < rows.len() {
        drop_front_makes_none(
            s.carry_out(collection, rows[i].0, rows[i].1).log_edit(
                collection,
                Edit::Removed { key: rows[i].0, index: 0 },
            ),
            collection,
            rows,
            count,
            i + 1,
        );
    }
}

/// Landing a row makes no node.
pub proof fn land_row_makes_none(
    s: Tx,
    collection: NodeId,
    key: Chars,
    existing: Option<NodeId>,
    row: NodeId,
    at: i64,
    limit: Option<i64>,
)
    ensures
        model::land_row(s, collection, key, existing, row, at, limit).allocated == s.allocated,
{
    let held = s.rows(collection);
    let from = keyed::key_index(held, key);
    let rest = keyed::without(held, key);
    let to = model::landing(at, rest.len());
    let rows = rest.insert(to as int, (key, row));
    let t = model::put_rows(s, collection, model::trimmed(rows, limit, at));
    let u = match existing {
        Some(old) => if old == row {
            t
        } else {
            t.release_if_mine(collection, old)
        },
        None => t,
    };
    let logged = if !keyed::has_key(held, key) {
        u.log_edit(collection, Edit::Inserted { key, index: to, node: row })
    } else if from == to {
        u
    } else {
        u.log_edit(collection, Edit::Moved { key, from, to })
    };
    if let Some(l) = limit {
        drop_end_makes_none(logged, collection, rows, model::cap_of(l), rows.len() as int);
        drop_front_makes_none(logged, collection, rows, rows.len() - model::cap_of(l), 0);
    }
}

/// One stream op only makes nodes.
pub proof fn stream_op_grows(s: Tx, op: StreamOp, ids: Seq<NodeId>)
    ensures
        grew(s, model::apply_stream_op(s, op, ids)),
{
    let t = s.unclaim();
    if let Some(collection) = t.streams.get(op.target()) {
        let d = t.touch_dirty(collection);
        touch_dirty_makes_none(t, collection);
        match op {
            StreamOp::Reset { .. } => {
                carry_all_makes_none(
                    model::put_rows(d, collection, Seq::empty()),
                    collection,
                    t.rows(collection),
                    0,
                );
            },
            StreamOp::Delete { .. } => {},
            StreamOp::Insert { item_key, at, item, limit, .. } => {
                if t.live(collection) {
                    if let Kind::Collection { owner, .. } = t.kind(collection) {
                        let depth = model::deeper(t.depth(collection));
                        let (a, claimed) = model::claim_row(d, collection, item_key@, depth);
                        if let Ok(existing) = claimed {
                            reconcile_child_grows(
                                a,
                                collection,
                                existing,
                                item@,
                                owner,
                                depth,
                                ids,
                            );
                            let (b, child) = model::reconcile_child(
                                a,
                                collection,
                                existing,
                                item@,
                                owner,
                                depth,
                                ids,
                            );
                            if let Ok(row) = child {
                                land_row_makes_none(
                                    b,
                                    collection,
                                    item_key@,
                                    existing,
                                    row,
                                    at,
                                    limit,
                                );
                            }
                        }
                    }
                }
            },
        }
    }
}

/// A list of stream ops only makes nodes.
pub proof fn streams_grow(s: Tx, ops: Seq<StreamOp>, i: int, ids: Seq<NodeId>)
    ensures
        grew(s, model::apply_streams(s, ops, i, ids)),
    decreases ops.len() - i,
{
    if 0 <= i < ops.len() {
        stream_op_grows(s, ops[i], ids);
        streams_grow(model::apply_stream_op(s, ops[i], ids).0, ops, i + 1, ids);
    }
}

} // verus!
