//! What a document can be refused for: being too deep, or there being no room for it, and
//! nothing else.

use vstd::prelude::*;

use crate::state::error::Fault;
use crate::state::granting;
use crate::state::keyed;
use crate::state::marker;
use crate::state::marker::{Form, STORE_ID_KEY};
use crate::state::model;
use crate::state::model::{Outcome, Tx};
use crate::state::node::{Kind, NodeId};
use crate::state::reading;
use crate::state::refusing;
use crate::state::shape;
use crate::state::text::Chars;
use crate::state::value;
use crate::state::value::Json;
use crate::state::wire::{PatchOp, Path, StreamOp};

verus! {

/// Whether a step succeeds, or fails for depth or for room.
pub open spec fn fair<T>(outcome: Outcome<T>) -> bool {
    outcome.1 matches Err(fault) ==> fault == (Fault::Depth { limit: 256 }) || fault == Fault::Full
}

proof fn reconcile_child_is_fair(
    s: Tx,
    parent: NodeId,
    existing: Option<NodeId>,
    v: Json,
    owner: Path,
    depth: nat,
    ids: Seq<NodeId>,
)
    ensures
        fair(model::reconcile_child(s, parent, existing, v, owner, depth, ids)),
    decreases value::nesting(v), 5int, 0int,
{
    match marker::form_of(v) {
        Form::Store { id: path, .. } => {
            let t = s.claim(path);
            if existing is Some && t.is_store(existing->0, path) {
                reconcile_is_fair(t, existing->0, v, owner, depth, ids);
            } else if !s.claimed.contains(path) && t.adoptable_store(
                parent,
                existing,
                path,
            ) is Some {
                let found = t.adoptable_store(parent, existing, path)->0;
                reconcile_adopted_is_fair(t, parent, found, v, owner, depth, ids);
            } else {
                build_is_fair(t, parent, v, owner, depth, ids);
            }
        },
        Form::Collection { name } => {
            let t = s.claim_stream((owner, name));
            if existing is Some && t.is_collection(existing->0, name) {
            } else if !s.claimed_streams.contains((owner, name)) && t.adoptable_stream(
                parent,
                existing,
                (owner, name),
            ) is Some {
                let found = t.adoptable_stream(parent, existing, (owner, name))->0;
                reconcile_adopted_is_fair(t, parent, found, v, owner, depth, ids);
            } else {
                reconcile_slot_is_fair(t, parent, existing, v, owner, depth, ids);
            }
        },
        _ => {
            reconcile_slot_is_fair(s, parent, existing, v, owner, depth, ids);
        },
    }
}

proof fn reconcile_adopted_is_fair(
    s: Tx,
    parent: NodeId,
    found: NodeId,
    v: Json,
    owner: Path,
    depth: nat,
    ids: Seq<NodeId>,
)
    ensures
        fair(model::reconcile_adopted(s, parent, found, v, owner, depth, ids)),
    decreases value::nesting(v), 4int, 1int,
{
    reconcile_is_fair(s.adopt(parent, found, ids).0, found, v, owner, depth, ids);
}

proof fn reconcile_slot_is_fair(
    s: Tx,
    parent: NodeId,
    existing: Option<NodeId>,
    v: Json,
    owner: Path,
    depth: nat,
    ids: Seq<NodeId>,
)
    ensures
        fair(model::reconcile_slot(s, parent, existing, v, owner, depth, ids)),
    decreases value::nesting(v), 4int, 1int,
{
    match existing {
        Some(id) => {
            if s.is_store_node(id) {
                build_is_fair(s, parent, v, owner, depth, ids);
            } else {
                reconcile_is_fair(s, id, v, owner, depth, ids);
            }
        },
        None => {
            build_is_fair(s, parent, v, owner, depth, ids);
        },
    }
}

proof fn reconcile_is_fair(
    s: Tx,
    id: NodeId,
    v: Json,
    owner: Path,
    depth: nat,
    ids: Seq<NodeId>,
)
    ensures
        fair(model::reconcile(s, id, v, owner, depth, ids)),
    decreases value::nesting(v), 4int, 0int,
{
    if s.live(id) && !model::unchanged(s.kind(id), marker::form_of(v)) {
        model::form_nesting(v);
        match (s.kind(id), marker::form_of(v)) {
            (Kind::Object(old), Form::Object(fields)) => {
                place_fields_is_fair(s, id, old, fields, false, owner, depth, 0, Seq::empty(), ids);
            },
            (Kind::Store { id: path, fields: old }, Form::Store { id: held, fields }) => {
                if path == held {
                    place_fields_is_fair(
                        s,
                        id,
                        old,
                        fields,
                        true,
                        path,
                        depth,
                        0,
                        Seq::empty(),
                        ids,
                    );
                } else {
                    rebuild_is_fair(s, id, v, owner, depth, ids);
                }
            },
            (Kind::Array(old), Form::Array(items)) => {
                place_items_is_fair(s, id, old, items, owner, depth, 0, Seq::empty(), ids);
            },
            (Kind::Async { status, result, reason }, Form::Async {
                status: new_status,
                result: new_result,
                reason: new_reason,
            }) => {
                let marked = model::put_status(s, id, new_status);
                let deep = model::deeper(depth);
                reconcile_child_is_fair(marked, id, Some(result), new_result, owner, deep, ids);
                let (t, first) = model::reconcile_child(
                    marked,
                    id,
                    Some(result),
                    new_result,
                    owner,
                    deep,
                    ids,
                );
                if let Ok(now) = first {
                    let held = model::set_async_slot(t, id, true, now);
                    let next = model::async_slot(held, id, false);
                    reconcile_child_is_fair(held, id, next, new_reason, owner, deep, ids);
                }
            },
            _ => {
                rebuild_is_fair(s, id, v, owner, depth, ids);
            },
        }
    }
}

proof fn rebuild_is_fair(s: Tx, id: NodeId, v: Json, owner: Path, depth: nat, ids: Seq<NodeId>)
    ensures
        fair(model::rebuild(s, id, v, owner, depth, ids)),
    decreases value::nesting(v), 3int, 0int,
{
    let t = s.log_loss(id).touch_dirty(id);
    let u = t.unregister(id).put_kind(id, Kind::Null);
    install_is_fair(u.release_each(t.kids(id), 0), id, v, owner, depth, ids);
}

proof fn build_is_fair(s: Tx, parent: NodeId, v: Json, owner: Path, depth: nat, ids: Seq<NodeId>)
    ensures
        fair(model::build(s, parent, v, owner, depth, ids)),
    decreases value::nesting(v), 3int, 0int,
{
    let (t, made) = s.make(Some(parent), ids);
    if let Ok(id) = made {
        install_is_fair(t, id, v, owner, depth, ids);
    }
}

proof fn install_is_fair(s: Tx, id: NodeId, v: Json, owner: Path, depth: nat, ids: Seq<NodeId>)
    ensures
        fair(model::install(s, id, v, owner, depth, ids)),
    decreases value::nesting(v), 2int, 0int,
{
    model::form_nesting(v);
    match marker::form_of(v) {
        Form::Array(items) => {
            place_items_is_fair(s, id, Seq::empty(), items, owner, depth, 0, Seq::empty(), ids);
        },
        Form::Object(fields) => {
            place_fields_is_fair(
                s,
                id,
                Seq::empty(),
                fields,
                false,
                owner,
                depth,
                0,
                Seq::empty(),
                ids,
            );
        },
        Form::Store { id: path, fields } => {
            place_fields_is_fair(
                s,
                id,
                Seq::empty(),
                fields,
                true,
                path,
                depth,
                0,
                Seq::empty(),
                ids,
            );
        },
        Form::Async { status, result, reason } => {
            let deep = model::deeper(depth);
            reconcile_child_is_fair(s, id, None, result, owner, deep, ids);
            let (t, first) = model::reconcile_child(s, id, None, result, owner, deep, ids);
            reconcile_child_is_fair(t, id, None, reason, owner, deep, ids);
        },
        _ => {},
    }
}

proof fn place_fields_is_fair(
    s: Tx,
    id: NodeId,
    old: Seq<(Chars, NodeId)>,
    fields: Seq<(Chars, Json)>,
    store: bool,
    owner: Path,
    depth: nat,
    i: int,
    placed: Seq<(Chars, NodeId)>,
    ids: Seq<NodeId>,
)
    ensures
        fair(
            model::place_fields(s, id, old, fields, store, owner, depth, i, placed, ids),
        ),
    decreases model::nesting_of_fields(fields), 1int, fields.len() - i,
{
    if 0 <= i < fields.len() {
        if store && fields[i].0 == STORE_ID_KEY@ {
            place_fields_is_fair(s, id, old, fields, store, owner, depth, i + 1, placed, ids);
        } else {
            value::field_nesting(fields, i);
            let existing = s.unclaimed(
                id,
                keyed::lookup(old, fields[i].0),
                keyed::items_of(placed),
            );
            let deep = model::deeper(depth);
            reconcile_child_is_fair(s, id, existing, fields[i].1, owner, deep, ids);
            let (t, child) = model::reconcile_child(
                s,
                id,
                existing,
                fields[i].1,
                owner,
                deep,
                ids,
            );
            if let Ok(kid) = child {
                place_fields_is_fair(
                    t,
                    id,
                    old,
                    fields,
                    store,
                    owner,
                    depth,
                    i + 1,
                    placed.push((fields[i].0, kid)),
                    ids,
                );
            }
        }
    }
}

proof fn place_items_is_fair(
    s: Tx,
    id: NodeId,
    old: Seq<NodeId>,
    items: Seq<Json>,
    owner: Path,
    depth: nat,
    i: int,
    placed: Seq<NodeId>,
    ids: Seq<NodeId>,
)
    ensures
        fair(model::place_items(s, id, old, items, owner, depth, i, placed, ids)),
    decreases model::nesting_of_items(items), 1int, items.len() - i,
{
    if 0 <= i < items.len() {
        value::item_nesting(items, i);
        let existing = s.unclaimed(
            id,
            if i < old.len() {
                Some(old[i])
            } else {
                None
            },
            placed,
        );
        let deep = model::deeper(depth);
        reconcile_child_is_fair(s, id, existing, items[i], owner, deep, ids);
        let (t, child) = model::reconcile_child(s, id, existing, items[i], owner, deep, ids);
        if let Ok(kid) = child {
            place_items_is_fair(t, id, old, items, owner, depth, i + 1, placed.push(kid), ids);
        }
    }
}

/// A document that is written where there is something is refused for its depth or for
/// want of room, and for nothing else, whatever it holds.
pub proof fn a_replace_is_refused_for_depth_or_room(
    s: Tx,
    op: PatchOp,
    tokens: Seq<Chars>,
    parent: NodeId,
    node: NodeId,
    ids: Seq<NodeId>,
)
    requires
        shape::tidied(s),
        granting::countable(s),
        op is Replace,
        granting::points(op.path_text(), tokens),
        tokens.len() > 0 ==> granting::leads(s, s.root, tokens.drop_last(), parent)
            && granting::steps(s, parent, tokens.last(), node),
    ensures
        fair(model::apply_patch_op(s, op, ids)),
{
    let t = s.unclaim();
    let v = op->Replace_value@;
    granting::unmarked_tokens(tokens);
    if tokens.len() == 0 {
        reconcile_is_fair(t, t.root, v, Seq::empty(), 0, ids);
    } else {
        refusing::unclaim_same(s);
        granting::still_leads(s, t, s.root, tokens.drop_last(), parent);
        granting::walk_is(t, t.root, tokens.drop_last(), parent, op.path_text());
        assert(granting::steps(t, parent, tokens.last(), node));
        granting::step_is(t, parent, tokens.last(), node, op.path_text());
        reading::async_keys_differ();
        let deep = model::deeper((tokens.len() - 1) as nat);
        slot_is_fair(t, parent, tokens.last(), v, t.owner_of(parent), deep, ids);
    }
}

/// A document that is added where it can be is refused for its depth or for want of room,
/// and for nothing else, whatever it holds.
pub proof fn an_add_is_refused_for_depth_or_room(
    s: Tx,
    op: PatchOp,
    tokens: Seq<Chars>,
    parent: NodeId,
    ids: Seq<NodeId>,
)
    requires
        shape::tidied(s),
        granting::countable(s),
        op is Add,
        granting::points(op.path_text(), tokens),
        tokens.len() > 0 ==> granting::leads(s, s.root, tokens.drop_last(), parent)
            && granting::addable(s, parent, tokens.last()),
    ensures
        fair(model::apply_patch_op(s, op, ids)),
{
    let t = s.unclaim();
    let v = op->Add_value@;
    granting::unmarked_tokens(tokens);
    if tokens.len() == 0 {
        reconcile_is_fair(t, t.root, v, Seq::empty(), 0, ids);
    } else {
        refusing::unclaim_same(s);
        granting::still_leads(s, t, s.root, tokens.drop_last(), parent);
        granting::walk_is(t, t.root, tokens.drop_last(), parent, op.path_text());
        reading::async_keys_differ();
        let key = tokens.last();
        let deep = model::deeper((tokens.len() - 1) as nat);
        slot_is_fair(t, parent, key, v, t.owner_of(parent), deep, ids);
        if let Kind::Array(items) = t.kind(parent) {
            assert(t.kids(parent) == items);
            let a = t.claim_stores(items, 0);
            reconcile_child_is_fair(a, parent, None, v, t.owner_of(parent), deep, ids);
            if key != seq!['-'] {
                let i = choose|i: nat| i <= items.len() && key == #[trigger] granting::digits(i);
                granting::digits_are_an_index(i);
            }
        }
    }
}

proof fn slot_is_fair(
    s: Tx,
    parent: NodeId,
    key: Chars,
    v: Json,
    owner: Path,
    depth: nat,
    ids: Seq<NodeId>,
)
    ensures
        fair(model::put_field(s, parent, key, v, owner, depth, ids)),
        forall|i: int| fair(#[trigger] model::put_index(s, parent, i, v, owner, depth, ids)),
        forall|first: bool| fair(#[trigger] model::put_async(s, parent, first, v, owner, depth, ids)),
{
    if let Some(fields) = s.fields(parent) {
        let (a, existing) = match keyed::lookup(fields, key) {
            Some(id) => {
                let (t, held) = s.yield_identity(id, v);
                (t, Some(held))
            },
            None => (s, None),
        };
        reconcile_child_is_fair(a, parent, existing, v, owner, depth, ids);
    }
    assert forall|i: int| fair(#[trigger] model::put_index(s, parent, i, v, owner, depth, ids)) by {
        let (a, existing) = s.yield_identity(s.kids(parent)[i], v);
        reconcile_child_is_fair(a, parent, Some(existing), v, owner, depth, ids);
    }
    assert forall|first: bool| fair(
        #[trigger] model::put_async(s, parent, first, v, owner, depth, ids),
    ) by {
        if let Some(id) = model::async_slot(s, parent, first) {
            let (a, existing) = s.yield_identity(id, v);
            reconcile_child_is_fair(a, parent, Some(existing), v, owner, depth, ids);
        }
    }
}

/// A stream op is refused for depth or for want of room, and for nothing else.
pub proof fn a_stream_op_is_refused_for_depth_or_room(s: Tx, op: StreamOp, ids: Seq<NodeId>)
    ensures
        fair(model::apply_stream_op(s, op, ids)),
{
    let t = s.unclaim();
    if let StreamOp::Insert { item_key, item, .. } = op {
        if t.streams.contains_key(op.target()) {
            let node = t.streams[op.target()];
            let depth = model::deeper(t.depth(node));
            let owner = t.kind(node)->Collection_owner;
            let (a, claimed) = model::claim_row(t.touch_dirty(node), node, item_key@, depth);
            if let Ok(was) = claimed {
                reconcile_child_is_fair(a, node, was, item@, owner, depth, ids);
            }
        }
    }
}

} // verus!
