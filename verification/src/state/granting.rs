//! What is asked for in order is granted: an op that addresses a slot of the tree
//! succeeds, where the document fits under the depth cap and there is room for its
//! nodes.

use vstd::prelude::*;

use crate::state::error::Fault;
use crate::state::journal;
use crate::state::journal::Tree;
use crate::state::keyed;
use crate::state::laws;
use crate::state::marker;
use crate::state::marker::{
    Form, ASYNC_MARKER_KEY, ASYNC_REASON_KEY, ASYNC_RESULT_KEY, STORE_ID_KEY,
};
use crate::state::model;
use crate::state::model::{Tx, MAX_DEPTH, MAX_WALK};
use crate::state::moving;
use crate::state::node::{AsyncStatus, Kind, NodeId};
use crate::state::plain;
use crate::state::pointer;
use crate::state::pointer::ArrayIndex;
use crate::state::reading;
use crate::state::replay;
use crate::state::seeding;
use crate::state::shape;
use crate::state::slots::MAX_NODES;
use crate::state::text::Chars;
use crate::state::tree;
use crate::state::value;
use crate::state::value::Json;
use crate::state::wire::{PatchOp, Path, StreamOp};

verus! {

/// How many nodes a document may take, at most.
pub open spec fn needs(v: Json) -> nat {
    2 * seeding::values(v)
}

/// Whether there is room for `n` more nodes.
pub open spec fn roomy(s: Tx, n: nat) -> bool {
    s.nodes.dom().finite() && s.nodes.dom().len() + n <= MAX_NODES
}

/// A step that takes at most `n` nodes.
pub open spec fn spends(s: Tx, t: Tx, n: nat) -> bool {
    s.nodes.dom().finite() ==> t.nodes.dom().finite() && t.nodes.dom().len()
        <= s.nodes.dom().len() + n
}

proof fn still_spends(s: Tx, t: Tx)
    requires
        replay::still(s, t),
    ensures
        t.nodes.dom() == s.nodes.dom(),
{
    assert forall|x: NodeId| t.nodes.dom().contains(x) == s.nodes.dom().contains(x) by {
        assert(t.live(x) == s.live(x));
    }
    assert(t.nodes.dom() =~= s.nodes.dom());
}

proof fn rekind_spends(s: Tx, id: NodeId, kind: Kind)
    ensures
        s.put_kind(id, kind).nodes.dom() == s.nodes.dom(),
{
    assert(s.put_kind(id, kind).nodes.dom() =~= s.nodes.dom());
}

proof fn touch_spends(s: Tx, id: NodeId)
    ensures
        s.touch_dirty(id).nodes.dom() == s.nodes.dom(),
{
    replay::touch_dirty_still(s, id);
    still_spends(s, s.touch_dirty(id));
}

proof fn release_spends(s: Tx, parent: NodeId, id: NodeId)
    ensures
        s.release(id).nodes.dom() == s.nodes.dom(),
        s.release_if_mine(parent, id).nodes.dom() == s.nodes.dom(),
{
    assert(s.release(id).nodes.dom() =~= s.nodes.dom());
    assert(s.release_if_mine(parent, id).nodes.dom() =~= s.nodes.dom());
}

proof fn install_array_spends(s: Tx, id: NodeId, old: Seq<NodeId>, placed: Seq<NodeId>)
    ensures
        model::install_array(s, id, old, placed).nodes.dom() == s.nodes.dom(),
{
    let d = s.touch_dirty(id);
    touch_spends(s, id);
    rekind_spends(d, id, Kind::Array(placed));
    let t = if s.kids(id) == placed {
        s
    } else {
        d.put_kind(id, Kind::Array(placed))
    };
    let list = old + s.kids(id);
    replay::release_displaced_still(t, id, list, placed.to_set(), 0);
    still_spends(t, t.release_displaced(id, list, placed.to_set(), 0));
}

proof fn install_fields_spends(
    s: Tx,
    id: NodeId,
    old: Seq<(Chars, NodeId)>,
    kind: Kind,
    placed: Seq<(Chars, NodeId)>,
)
    ensures
        model::install_fields(s, id, old, kind, placed).nodes.dom() == s.nodes.dom(),
{
    let d = s.touch_dirty(id);
    touch_spends(s, id);
    rekind_spends(d, id, kind);
    let t = if s.fields(id) == Some(placed) {
        s
    } else {
        d.put_kind(id, kind)
    };
    let list = keyed::items_of(old) + s.kids(id);
    let kept = keyed::items_of(placed).to_set();
    replay::release_displaced_still(t, id, list, kept, 0);
    still_spends(t, t.release_displaced(id, list, kept, 0));
}

proof fn set_async_slot_spends(s: Tx, id: NodeId, first: bool, now: NodeId)
    ensures
        model::set_async_slot(s, id, first, now).nodes.dom() == s.nodes.dom(),
{
    if let Some(held) = model::async_slot(s, id, first) {
        let d = s.touch_dirty(id);
        touch_spends(s, id);
        let kind = model::with_kid(
            s.kind(id),
            if first {
                0
            } else {
                1
            },
            now,
        );
        rekind_spends(d, id, kind);
        release_spends(d.put_kind(id, kind), id, held);
    }
}

proof fn put_status_spends(s: Tx, id: NodeId, new: AsyncStatus)
    ensures
        model::put_status(s, id, new).nodes.dom() == s.nodes.dom(),
{
    if s.live(id) {
        if let Kind::Async { status, result, reason } = s.kind(id) {
            touch_spends(s, id);
            rekind_spends(s.touch_dirty(id), id, Kind::Async { status: new, result, reason });
        }
    }
}

proof fn finish_spends(s: Tx, id: NodeId, kind: Kind)
    ensures
        model::finish(s, id, kind).nodes.dom() == s.nodes.dom(),
{
    assert(model::finish(s, id, kind).nodes.dom() =~= s.nodes.dom());
}

// ---------------------------------------------------------------------- the sizes

proof fn field_counts(fields: Seq<(Chars, Json)>, from: int, i: int)
    requires
        0 <= from <= i < fields.len(),
    ensures
        seeding::fields_values(fields, from) >= seeding::values(fields[i].1)
            + seeding::fields_values(fields, i + 1),
    decreases i - from,
{
    if from < i {
        field_counts(fields, from + 1, i);
    }
}

proof fn two_count(fields: Seq<(Chars, Json)>, i: int, j: int)
    requires
        0 <= i < fields.len(),
        0 <= j < fields.len(),
        i != j,
    ensures
        seeding::fields_values(fields, 0) >= seeding::values(fields[i].1) + seeding::values(
            fields[j].1,
        ),
{
    if i < j {
        field_counts(fields, 0, i);
        field_counts(fields, i + 1, j);
    } else {
        field_counts(fields, 0, j);
        field_counts(fields, j + 1, i);
    }
}

/// The parts of an async object take no more than it does.
proof fn parts_count(v: Json)
    ensures
        seeding::values(v) >= 1,
        marker::form_of(v) matches Form::Async { result, reason, .. } ==> needs(result) + needs(
            reason,
        ) + 1 <= needs(v),
{
    if marker::form_of(v) is Async {
        let fields = v->Object_0;
        reading::async_keys_differ();
        keyed::key_index_meaning(fields, ASYNC_MARKER_KEY@);
        keyed::key_index_meaning(fields, marker::ASYNC_STATUS_KEY@);
        keyed::key_index_meaning(fields, ASYNC_RESULT_KEY@);
        keyed::key_index_meaning(fields, ASYNC_REASON_KEY@);
        let m = keyed::key_index(fields, ASYNC_MARKER_KEY@) as int;
        let t = keyed::key_index(fields, marker::ASYNC_STATUS_KEY@) as int;
        let r = keyed::key_index(fields, ASYNC_RESULT_KEY@) as int;
        let e = keyed::key_index(fields, ASYNC_REASON_KEY@) as int;
        assert(seeding::values(Json::Null) == 1);
        two_count(fields, m, t);
        assert(seeding::values(fields[m].1) >= 1);
        assert(seeding::values(fields[t].1) >= 1);
        if r < fields.len() {
            two_count(fields, m, r);
        }
        if e < fields.len() {
            two_count(fields, m, e);
        }
        if r < fields.len() && e < fields.len() {
            two_count(fields, r, e);
        }
    }
}

// ------------------------------------------------------------------- the granting

/// Writing a plain document into a slot succeeds.
pub proof fn child_granted(
    s: Tx,
    parent: NodeId,
    existing: Option<NodeId>,
    v: Json,
    owner: Path,
    depth: nat,
    ids: Seq<NodeId>,
)
    requires
        plain::plain(v),
        depth + value::nesting(v) <= MAX_DEPTH,
        roomy(s, needs(v)),
    ensures
        model::reconcile_child(s, parent, existing, v, owner, depth, ids).1 is Ok,
        spends(s, model::reconcile_child(s, parent, existing, v, owner, depth, ids).0, needs(v)),
    decreases value::nesting(v), 5int, 0int,
{
    parts_count(v);
    match existing {
        Some(id) => {
            if s.is_store_node(id) {
                build_granted(s, parent, v, owner, depth, ids);
            } else {
                reconcile_granted(s, id, v, owner, depth, ids);
            }
        },
        None => {
            build_granted(s, parent, v, owner, depth, ids);
        },
    }
}

/// Rewriting a node with a plain document succeeds.
pub proof fn reconcile_granted(
    s: Tx,
    id: NodeId,
    v: Json,
    owner: Path,
    depth: nat,
    ids: Seq<NodeId>,
)
    requires
        plain::plain(v),
        depth + value::nesting(v) <= MAX_DEPTH,
        roomy(s, (needs(v) - 1) as nat),
    ensures
        model::reconcile(s, id, v, owner, depth, ids).1 is Ok,
        spends(
            s,
            model::reconcile(s, id, v, owner, depth, ids).0,
            (needs(v) - 1) as nat,
        ),
    decreases value::nesting(v), 4int, 0int,
{
    parts_count(v);
    if s.live(id) && !model::unchanged(s.kind(id), marker::form_of(v)) {
        model::form_nesting(v);
        plain::parts_plain(v);
        match (s.kind(id), marker::form_of(v)) {
            (Kind::Object(old), Form::Object(fields)) => {
                fields_granted(s, id, old, fields, false, owner, depth, 0, Seq::empty(), ids);
                let (t, new) = model::place_fields(
                    s,
                    id,
                    old,
                    fields,
                    false,
                    owner,
                    depth,
                    0,
                    Seq::empty(),
                    ids,
                );
                install_fields_spends(t, id, old, Kind::Object(new->Ok_0), new->Ok_0);
            },
            (Kind::Array(old), Form::Array(items)) => {
                items_granted(s, id, old, items, owner, depth, 0, Seq::empty(), ids);
                let (t, new) = model::place_items(
                    s,
                    id,
                    old,
                    items,
                    owner,
                    depth,
                    0,
                    Seq::empty(),
                    ids,
                );
                install_array_spends(t, id, old, new->Ok_0);
            },
            (Kind::Async { status, result, reason }, Form::Async {
                status: new_status,
                result: new_result,
                reason: new_reason,
            }) => {
                let marked = model::put_status(s, id, new_status);
                put_status_spends(s, id, new_status);
                let deep = model::deeper(depth);
                child_granted(marked, id, Some(result), new_result, owner, deep, ids);
                let (t, first) = model::reconcile_child(
                    marked,
                    id,
                    Some(result),
                    new_result,
                    owner,
                    deep,
                    ids,
                );
                let held = model::set_async_slot(t, id, true, first->Ok_0);
                set_async_slot_spends(t, id, true, first->Ok_0);
                let next = model::async_slot(held, id, false);
                child_granted(held, id, next, new_reason, owner, deep, ids);
                let (u, second) = model::reconcile_child(
                    held,
                    id,
                    next,
                    new_reason,
                    owner,
                    deep,
                    ids,
                );
                set_async_slot_spends(u, id, false, second->Ok_0);
            },
            _ => {
                rebuild_granted(s, id, v, owner, depth, ids);
            },
        }
    }
}

proof fn rebuild_granted(s: Tx, id: NodeId, v: Json, owner: Path, depth: nat, ids: Seq<NodeId>)
    requires
        plain::plain(v),
        depth + value::nesting(v) <= MAX_DEPTH,
        roomy(s, (needs(v) - 1) as nat),
    ensures
        model::rebuild(s, id, v, owner, depth, ids).1 is Ok,
        spends(s, model::rebuild(s, id, v, owner, depth, ids).0, (needs(v) - 1) as nat),
    decreases value::nesting(v), 3int, 0int,
{
    let l = s.log_loss(id);
    let t = l.touch_dirty(id);
    touch_spends(l, id);
    let e = t.unregister(id).put_kind(id, Kind::Null);
    rekind_spends(t.unregister(id), id, Kind::Null);
    let r = e.release_each(t.kids(id), 0);
    replay::release_each_still(e, t.kids(id), 0);
    still_spends(e, r);
    assert(t.unregister(id).nodes == t.nodes);
    assert(l.nodes == s.nodes);
    install_granted(r, id, v, owner, depth, ids);
}

proof fn build_granted(s: Tx, parent: NodeId, v: Json, owner: Path, depth: nat, ids: Seq<NodeId>)
    requires
        plain::plain(v),
        depth + value::nesting(v) <= MAX_DEPTH,
        roomy(s, needs(v)),
    ensures
        model::build(s, parent, v, owner, depth, ids).1 is Ok,
        spends(s, model::build(s, parent, v, owner, depth, ids).0, needs(v)),
    decreases value::nesting(v), 3int, 0int,
{
    parts_count(v);
    let (t, made) = s.make(Some(parent), ids);
    let id = made->Ok_0;
    assert(t.nodes.dom() =~= s.nodes.dom().insert(id));
    install_granted(t, id, v, owner, depth, ids);
}

proof fn install_granted(s: Tx, id: NodeId, v: Json, owner: Path, depth: nat, ids: Seq<NodeId>)
    requires
        plain::plain(v),
        depth + value::nesting(v) <= MAX_DEPTH,
        roomy(s, (needs(v) - 1) as nat),
    ensures
        model::install(s, id, v, owner, depth, ids).1 is Ok,
        spends(s, model::install(s, id, v, owner, depth, ids).0, (needs(v) - 1) as nat),
    decreases value::nesting(v), 2int, 0int,
{
    model::form_nesting(v);
    plain::parts_plain(v);
    parts_count(v);
    let none = Seq::<NodeId>::empty();
    let bare = Seq::<(Chars, NodeId)>::empty();
    match marker::form_of(v) {
        Form::Null => {
            finish_spends(s, id, Kind::Null);
        },
        Form::Bool(flag) => {
            finish_spends(s, id, Kind::Bool(flag));
        },
        Form::Number(number) => {
            finish_spends(s, id, Kind::Number(number));
        },
        Form::Text(text) => {
            finish_spends(s, id, Kind::Text(text));
        },
        Form::Array(items) => {
            items_granted(s, id, none, items, owner, depth, 0, none, ids);
            let (t, new) = model::place_items(s, id, none, items, owner, depth, 0, none, ids);
            finish_spends(t, id, Kind::Array(new->Ok_0));
        },
        Form::Object(fields) => {
            fields_granted(s, id, bare, fields, false, owner, depth, 0, bare, ids);
            let (t, new) = model::place_fields(
                s,
                id,
                bare,
                fields,
                false,
                owner,
                depth,
                0,
                bare,
                ids,
            );
            finish_spends(t, id, Kind::Object(new->Ok_0));
        },
        Form::Async { status, result, reason } => {
            let deep = model::deeper(depth);
            child_granted(s, id, None, result, owner, deep, ids);
            let (t, first) = model::reconcile_child(s, id, None, result, owner, deep, ids);
            child_granted(t, id, None, reason, owner, deep, ids);
            let (u, second) = model::reconcile_child(t, id, None, reason, owner, deep, ids);
            finish_spends(
                u,
                id,
                Kind::Async { status, result: first->Ok_0, reason: second->Ok_0 },
            );
        },
        Form::Upload { name } => {
            finish_spends(s, id, Kind::Upload { name, owner });
        },
        _ => {},
    }
}

/// Writing plain documents under the keys of an object or of a store succeeds.
pub proof fn fields_granted(
    s: Tx,
    id: NodeId,
    old: Seq<(Chars, NodeId)>,
    fields: Seq<(Chars, Json)>,
    store: bool,
    owner: Path,
    depth: nat,
    i: int,
    placed: Seq<(Chars, NodeId)>,
    ids: Seq<NodeId>,
)
    requires
        0 <= i <= fields.len(),
        forall|k: int| 0 <= k < fields.len() ==> plain::plain((#[trigger] fields[k]).1),
        depth + model::nesting_of_fields(fields) <= MAX_DEPTH,
        roomy(s, 2 * seeding::fields_values(fields, i)),
    ensures
        model::place_fields(s, id, old, fields, store, owner, depth, i, placed, ids).1 is Ok,
        spends(
            s,
            model::place_fields(s, id, old, fields, store, owner, depth, i, placed, ids).0,
            2 * seeding::fields_values(fields, i),
        ),
    decreases model::nesting_of_fields(fields), 1int, fields.len() - i,
{
    if i < fields.len() && store && fields[i].0 == STORE_ID_KEY@ {
        fields_granted(s, id, old, fields, store, owner, depth, i + 1, placed, ids);
    } else if i < fields.len() {
        value::field_nesting(fields, i);
        let existing = s.unclaimed(id, keyed::lookup(old, fields[i].0), keyed::items_of(placed));
        let deep = model::deeper(depth);
        child_granted(s, id, existing, fields[i].1, owner, deep, ids);
        let (t, child) = model::reconcile_child(s, id, existing, fields[i].1, owner, deep, ids);
        let more = placed.push((fields[i].0, child->Ok_0));
        fields_granted(t, id, old, fields, store, owner, depth, i + 1, more, ids);
    }
}

proof fn items_granted(
    s: Tx,
    id: NodeId,
    old: Seq<NodeId>,
    items: Seq<Json>,
    owner: Path,
    depth: nat,
    i: int,
    placed: Seq<NodeId>,
    ids: Seq<NodeId>,
)
    requires
        0 <= i <= items.len(),
        forall|k: int| 0 <= k < items.len() ==> plain::plain(#[trigger] items[k]),
        depth + model::nesting_of_items(items) <= MAX_DEPTH,
        roomy(s, 2 * seeding::items_values(items, i)),
    ensures
        model::place_items(s, id, old, items, owner, depth, i, placed, ids).1 is Ok,
        spends(
            s,
            model::place_items(s, id, old, items, owner, depth, i, placed, ids).0,
            2 * seeding::items_values(items, i),
        ),
    decreases model::nesting_of_items(items), 1int, items.len() - i,
{
    if i < items.len() {
        value::item_nesting(items, i);
        let existing = s.unclaimed(
            id,
            if i < old.len() {
                Some(old[i])
            } else {
                None
            },
            placed,
        );
        let deep = model::deeper(depth);
        child_granted(s, id, existing, items[i], owner, deep, ids);
        let (t, child) = model::reconcile_child(s, id, existing, items[i], owner, deep, ids);
        items_granted(t, id, old, items, owner, depth, i + 1, placed.push(child->Ok_0), ids);
    }
}

// -------------------------------------------------------------------- the pointers

/// The decimal digits of a number.
pub open spec fn digits(n: nat) -> Chars
    decreases n,
{
    if n < 10 {
        seq![('0' as int + n as int) as char]
    } else {
        digits(n / 10).push(('0' as int + (n % 10) as int) as char)
    }
}

proof fn digits_spell(n: nat)
    ensures
        digits(n).len() > 0,
        forall|i: int| 0 <= i < digits(n).len() ==> pointer::is_digit(#[trigger] digits(n)[i]),
        pointer::decimal(digits(n)) == n,
        n > 0 ==> digits(n)[0] != '0',
        n < 10 ==> digits(n).len() == 1,
    decreases n,
{
    let text = digits(n);
    if n < 10 {
        assert(text.drop_last() =~= Seq::<char>::empty());
        assert(pointer::decimal(text.drop_last()) == 0);
    } else {
        digits_spell(n / 10);
        let front = digits(n / 10);
        assert(text.drop_last() =~= front);
        assert forall|i: int| 0 <= i < text.len() implies pointer::is_digit(
            #[trigger] text[i],
        ) by {
            if i < front.len() {
                assert(text[i] == front[i]);
            }
        }
        assert(text[0] == front[0]);
    }
}

/// The digits of a position are an index, and mean that position.
pub proof fn digits_are_an_index(n: nat)
    requires
        n <= usize::MAX,
    ensures
        pointer::index_meaning(digits(n)) == Some(ArrayIndex::At(n as usize)),
{
    digits_spell(n);
    let text = digits(n);
    assert(pointer::is_digit(text[0]));
    assert(text != seq!['-']) by {
        if text == seq!['-'] {
            assert(text[0] == '-');
        }
    }
    if text.len() > 1 && text[0] == '0' {
        assert(n == 0);
    }
}

/// Whether a token leads from a node to one of its children: a key of an object or
/// of a store, a position of an array, and the two slots of an async node.
pub open spec fn steps(s: Tx, id: NodeId, token: Chars, next: NodeId) -> bool {
    s.live(id) && match s.kind(id) {
        Kind::Object(fields) => fields.contains((token, next)),
        Kind::Store { fields, .. } => fields.contains((token, next)),
        Kind::Array(items) => exists|i: int|
            0 <= i < items.len() && #[trigger] items[i] == next && token == digits(i as nat),
        Kind::Async { result, reason, .. } => (token == "result"@ && next == result) || (token
            == "reason"@ && next == reason),
        _ => false,
    }
}

/// Whether a list of tokens leads from a node to a node.
pub open spec fn leads(s: Tx, id: NodeId, tokens: Seq<Chars>, to: NodeId) -> bool
    decreases tokens.len(),
{
    if tokens.len() == 0 {
        id == to
    } else {
        exists|next: NodeId| #[trigger]
            steps(s, id, tokens[0], next) && leads(s, next, tokens.drop_first(), to)
    }
}

/// Whether every array is short enough for its positions to be spelled.
pub open spec fn countable(s: Tx) -> bool {
    forall|id: NodeId| #[trigger] s.live(id) ==> s.kids(id).len() <= usize::MAX
}

proof fn slot_words()
    ensures
        ASYNC_RESULT_KEY@ == "result"@,
        ASYNC_REASON_KEY@ == "reason"@,
        "result"@ != "reason"@,
        "status"@ != "result"@,
        "status"@ != "reason"@,
{
    reading::async_keys_differ();
}

/// A key of an ordered list that is there is found.
pub proof fn key_is(fields: Seq<(Chars, NodeId)>, token: Chars, next: NodeId)
    requires
        keyed::sorted(fields),
        fields.contains((token, next)),
    ensures
        keyed::lookup(fields, token) == Some(next),
{
    let i = choose|i: int| 0 <= i < fields.len() && fields[i] == (token, next);
    keyed::sorted_key_index(fields, i);
}

/// A token leads where the tree says it does.
pub proof fn step_is(s: Tx, id: NodeId, token: Chars, next: NodeId, path: Chars)
    requires
        shape::tidied(s),
        countable(s),
        steps(s, id, token, next),
    ensures
        model::step_to(s, id, token, path) == Ok::<NodeId, Fault>(next),
{
    slot_words();
    assert(shape::tidy(s.kind(id)));
    match s.kind(id) {
        Kind::Object(fields) => {
            key_is(fields, token, next);
        },
        Kind::Store { fields, .. } => {
            key_is(fields, token, next);
        },
        Kind::Array(items) => {
            let i = choose|i: int|
                0 <= i < items.len() && #[trigger] items[i] == next && token == digits(i as nat);
            assert(s.kids(id) == items);
            digits_are_an_index(i as nat);
        },
        _ => {},
    }
}

/// A list of tokens leads where the tree says it does.
pub proof fn walk_is(s: Tx, id: NodeId, tokens: Seq<Chars>, to: NodeId, path: Chars)
    requires
        shape::tidied(s),
        countable(s),
        leads(s, id, tokens, to),
    ensures
        model::walk_from(s, id, tokens, path) == Ok::<NodeId, Fault>(to),
    decreases tokens.len(),
{
    if tokens.len() > 0 {
        let next = choose|next: NodeId| #[trigger]
            steps(s, id, tokens[0], next) && leads(s, next, tokens.drop_first(), to);
        step_is(s, id, tokens[0], next, path);
        walk_is(s, next, tokens.drop_first(), to, path);
    }
}

// -------------------------------------------------------------------- single slots

proof fn yield_spends(s: Tx, id: NodeId, v: Json)
    ensures
        s.yield_identity(id, v).0.nodes.dom() == s.nodes.dom(),
{
    if !(marker::form_of(v) is Store) && s.copy_of(id) is Some {
        let copy = s.copy_of(id)->0;
        let path = s.kind(id)->Store_id;
        let mine = s.kind(id);
        let theirs = s.kind(copy);
        let up = s.nodes[id].parent->0;
        let other = s.nodes[copy].parent->0;
        let a = s.touch(id).touch(copy);
        let b = a.rehome(mine.kids(), copy, 0);
        replay::rehome_still(a, mine.kids(), copy, 0);
        still_spends(a, b);
        let c = b.rehome(theirs.kids(), id, 0);
        replay::rehome_still(b, theirs.kids(), id, 0);
        still_spends(b, c);
        rekind_spends(c, id, theirs);
        let e = c.put_kind(id, theirs);
        rekind_spends(e, copy, mine);
        let d = e.put_kind(copy, mine);
        let f = d.swap_under(up, id, copy);
        assert(f.nodes.dom() =~= d.nodes.dom());
        let g = if up == other {
            f
        } else {
            f.swap_under(other, id, copy)
        };
        assert(g.nodes.dom() =~= d.nodes.dom());
        let h = g.put_parent(id, Some(other)).put_parent(copy, Some(up));
        assert(h.nodes.dom() =~= g.nodes.dom());
        replay::dirty_up_still(h, Some(id), MAX_WALK as nat);
        still_spends(h, h.mark_dirty(id));
        replay::dirty_up_still(h.mark_dirty(id), Some(copy), MAX_WALK as nat);
        still_spends(h.mark_dirty(id), h.mark_dirty(id).mark_dirty(copy));
    }
}

proof fn put_field_granted(
    s: Tx,
    parent: NodeId,
    key: Chars,
    v: Json,
    owner: Path,
    depth: nat,
    ids: Seq<NodeId>,
)
    requires
        plain::plain(v),
        depth + value::nesting(v) <= MAX_DEPTH,
        roomy(s, needs(v)),
    ensures
        model::put_field(s, parent, key, v, owner, depth, ids).1 is Ok,
{
    if let Some(first) = s.fields(parent) {
        let (a, existing) = match keyed::lookup(first, key) {
            Some(id) => {
                let (t, held) = s.yield_identity(id, v);
                (t, Some(held))
            },
            None => (s, None),
        };
        if let Some(id) = keyed::lookup(first, key) {
            yield_spends(s, id, v);
        }
        child_granted(a, parent, existing, v, owner, depth, ids);
    }
}

proof fn put_index_granted(
    s: Tx,
    parent: NodeId,
    index: int,
    v: Json,
    owner: Path,
    depth: nat,
    ids: Seq<NodeId>,
)
    requires
        plain::plain(v),
        depth + value::nesting(v) <= MAX_DEPTH,
        roomy(s, needs(v)),
    ensures
        model::put_index(s, parent, index, v, owner, depth, ids).1 is Ok,
{
    let (a, existing) = s.yield_identity(s.kids(parent)[index], v);
    yield_spends(s, s.kids(parent)[index], v);
    child_granted(a, parent, Some(existing), v, owner, depth, ids);
}

proof fn put_async_granted(
    s: Tx,
    parent: NodeId,
    first: bool,
    v: Json,
    owner: Path,
    depth: nat,
    ids: Seq<NodeId>,
)
    requires
        plain::plain(v),
        depth + value::nesting(v) <= MAX_DEPTH,
        roomy(s, needs(v)),
    ensures
        model::put_async(s, parent, first, v, owner, depth, ids).1 is Ok,
{
    if let Some(id) = model::async_slot(s, parent, first) {
        let (a, existing) = s.yield_identity(id, v);
        yield_spends(s, id, v);
        child_granted(a, parent, Some(existing), v, owner, depth, ids);
    }
}

proof fn array_add_granted(
    s: Tx,
    id: NodeId,
    index: int,
    v: Json,
    owner: Path,
    depth: nat,
    ids: Seq<NodeId>,
)
    requires
        plain::plain(v),
        depth + value::nesting(v) <= MAX_DEPTH,
        roomy(s, needs(v)),
    ensures
        model::array_add(s, id, index, v, owner, depth, ids).1 is Ok,
{
    let old = s.kids(id);
    let a = s.claim_stores(old, 0);
    replay::claim_stores_still(s, old, 0);
    still_spends(s, a);
    child_granted(a, id, None, v, owner, depth, ids);
}

// ------------------------------------------------------------------------- the ops

/// Whether no token is the store marker's key.
pub open spec fn unmarked(tokens: Seq<Chars>) -> bool {
    forall|i: int| 0 <= i < tokens.len() ==> #[trigger] tokens[i] != "__musubi_store_id__"@
}

pub proof fn unmarked_tokens(tokens: Seq<Chars>)
    requires
        unmarked(tokens),
    ensures
        model::marker_index(tokens) >= tokens.len(),
    decreases tokens.len(),
{
    if tokens.len() > 0 {
        assert(tokens[0] != "__musubi_store_id__"@);
        let rest = tokens.drop_first();
        assert forall|i: int| 0 <= i < rest.len() implies #[trigger] rest[i]
            != "__musubi_store_id__"@ by {
            assert(tokens[i + 1] != "__musubi_store_id__"@);
        }
        unmarked_tokens(rest);
    }
}

/// Whether a document may be written at a depth: it is plain, it fits under the cap,
/// and there is room for its nodes.
pub open spec fn welcome(s: Tx, v: Json, depth: nat) -> bool {
    plain::plain(v) && depth + value::nesting(v) <= MAX_DEPTH && roomy(s, needs(v))
}

/// Whether a pointer is a list of tokens, none of them the store marker's key.
pub open spec fn points(path: Chars, tokens: Seq<Chars>) -> bool {
    pointer::pointer_tokens(path) == Some(tokens) && unmarked(tokens)
}

/// A replace of what is there is granted: of the root, of a field of an object or of a
/// store, of an element of an array, and of the result or the reason of an async node.
pub proof fn a_replace_is_granted(
    s: Tx,
    op: PatchOp,
    tokens: Seq<Chars>,
    parent: NodeId,
    node: NodeId,
    v: Json,
    ids: Seq<NodeId>,
)
    requires
        shape::tidied(s),
        countable(s),
        op matches PatchOp::Replace { value, .. } && value@ == v,
        points(op.path_text(), tokens),
        welcome(s, v, tokens.len()),
        tokens.len() > 0 ==> leads(s, s.root, tokens.drop_last(), parent) && steps(
            s,
            parent,
            tokens.last(),
            node,
        ),
    ensures
        model::apply_patch_op(s, op, ids).1 is Ok,
{
    let t = s.unclaim();
    let path = op.path_text();
    unmarked_tokens(tokens);
    parts_count(v);
    if tokens.len() == 0 {
        reconcile_granted(t, t.root, v, Seq::empty(), 0, ids);
    } else {
        still_leads(s, t, s.root, tokens.drop_last(), parent);
        still_steps(s, t, parent, tokens.last(), node);
        assert(shape::tidied(t)) by {
            assert forall|x: NodeId| #[trigger] t.live(x) implies shape::tidy(t.kind(x)) by {
                assert(s.live(x));
            }
        }
        assert(countable(t)) by {
            assert forall|x: NodeId| #[trigger] t.live(x) implies t.kids(x).len() <= usize::MAX by {
                assert(s.live(x));
            }
        }
        walk_is(t, t.root, tokens.drop_last(), parent, path);
        step_is(t, parent, tokens.last(), node, path);
        slot_words();
        let owner = t.owner_of(parent);
        let key = tokens.last();
        let deep = model::deeper((tokens.len() - 1) as nat);
        assert(deep == tokens.len());
        match t.kind(parent) {
            Kind::Object(fields) => {
                put_field_granted(t, parent, key, v, owner, deep, ids);
            },
            Kind::Store { fields, .. } => {
                put_field_granted(t, parent, key, v, owner, deep, ids);
            },
            Kind::Array(items) => {
                let i = choose|i: int|
                    0 <= i < items.len() && #[trigger] items[i] == node && key == digits(i as nat);
                assert(t.kids(parent) == items);
                digits_are_an_index(i as nat);
                put_index_granted(t, parent, i, v, owner, deep, ids);
            },
            Kind::Async { .. } => {
                put_async_granted(t, parent, true, v, owner, deep, ids);
                put_async_granted(t, parent, false, v, owner, deep, ids);
            },
            _ => {},
        }
    }
}

proof fn still_steps(s: Tx, t: Tx, id: NodeId, token: Chars, next: NodeId)
    requires
        t.nodes == s.nodes,
        steps(s, id, token, next),
    ensures
        steps(t, id, token, next),
{
}

/// Where the nodes are the same, a list of tokens leads where it led.
pub proof fn still_leads(s: Tx, t: Tx, id: NodeId, tokens: Seq<Chars>, to: NodeId)
    requires
        t.nodes == s.nodes,
        leads(s, id, tokens, to),
    ensures
        leads(t, id, tokens, to),
    decreases tokens.len(),
{
    if tokens.len() > 0 {
        let next = choose|next: NodeId| #[trigger]
            steps(s, id, tokens[0], next) && leads(s, next, tokens.drop_first(), to);
        still_steps(s, t, id, tokens[0], next);
        still_leads(s, t, next, tokens.drop_first(), to);
    }
}

/// Whether a key names a slot of a node that a value may be added at: any key of an
/// object or of a store; a position of an array, its end, or `-`; and the two slots of
/// an async node.
pub open spec fn addable(s: Tx, parent: NodeId, key: Chars) -> bool {
    s.live(parent) && match s.kind(parent) {
        Kind::Object(_) => true,
        Kind::Store { .. } => true,
        Kind::Array(items) => key == seq!['-'] || exists|i: nat|
            i <= items.len() && key == #[trigger] digits(i),
        Kind::Async { .. } => key == "result"@ || key == "reason"@,
        _ => false,
    }
}

/// An add at a slot that can be added at is granted.
pub proof fn an_add_is_granted(
    s: Tx,
    op: PatchOp,
    tokens: Seq<Chars>,
    parent: NodeId,
    v: Json,
    ids: Seq<NodeId>,
)
    requires
        shape::tidied(s),
        countable(s),
        op matches PatchOp::Add { value, .. } && value@ == v,
        points(op.path_text(), tokens),
        welcome(s, v, tokens.len()),
        tokens.len() > 0 ==> leads(s, s.root, tokens.drop_last(), parent) && addable(
            s,
            parent,
            tokens.last(),
        ),
    ensures
        model::apply_patch_op(s, op, ids).1 is Ok,
{
    let t = s.unclaim();
    let path = op.path_text();
    unmarked_tokens(tokens);
    parts_count(v);
    if tokens.len() == 0 {
        reconcile_granted(t, t.root, v, Seq::empty(), 0, ids);
    } else {
        still_leads(s, t, s.root, tokens.drop_last(), parent);
        assert(shape::tidied(t)) by {
            assert forall|x: NodeId| #[trigger] t.live(x) implies shape::tidy(t.kind(x)) by {
                assert(s.live(x));
            }
        }
        assert(countable(t)) by {
            assert forall|x: NodeId| #[trigger] t.live(x) implies t.kids(x).len() <= usize::MAX by {
                assert(s.live(x));
            }
        }
        walk_is(t, t.root, tokens.drop_last(), parent, path);
        slot_words();
        let owner = t.owner_of(parent);
        let key = tokens.last();
        let deep = model::deeper((tokens.len() - 1) as nat);
        assert(deep == tokens.len());
        match t.kind(parent) {
            Kind::Object(fields) => {
                put_field_granted(t, parent, key, v, owner, deep, ids);
            },
            Kind::Store { fields, .. } => {
                put_field_granted(t, parent, key, v, owner, deep, ids);
            },
            Kind::Array(items) => {
                assert(t.kids(parent) == items);
                if key == seq!['-'] {
                    array_add_granted(t, parent, items.len() as int, v, owner, deep, ids);
                } else {
                    let i = choose|i: nat| i <= items.len() && key == #[trigger] digits(i);
                    digits_are_an_index(i);
                    array_add_granted(t, parent, i as int, v, owner, deep, ids);
                }
            },
            Kind::Async { .. } => {
                put_async_granted(t, parent, true, v, owner, deep, ids);
                put_async_granted(t, parent, false, v, owner, deep, ids);
            },
            _ => {},
        }
    }
}

/// A remove of a field of an object or of a store, or of an element of an array, is
/// granted.
pub proof fn a_remove_is_granted(
    s: Tx,
    op: PatchOp,
    tokens: Seq<Chars>,
    parent: NodeId,
    node: NodeId,
    ids: Seq<NodeId>,
)
    requires
        shape::tidied(s),
        countable(s),
        op is Remove,
        points(op.path_text(), tokens),
        tokens.len() > 0,
        leads(s, s.root, tokens.drop_last(), parent),
        steps(s, parent, tokens.last(), node),
        !(s.kind(parent) is Async),
    ensures
        model::apply_patch_op(s, op, ids).1 is Ok,
{
    let t = s.unclaim();
    let path = op.path_text();
    unmarked_tokens(tokens);
    still_leads(s, t, s.root, tokens.drop_last(), parent);
    still_steps(s, t, parent, tokens.last(), node);
    assert(shape::tidied(t)) by {
        assert forall|x: NodeId| #[trigger] t.live(x) implies shape::tidy(t.kind(x)) by {
            assert(s.live(x));
        }
    }
    assert(countable(t)) by {
        assert forall|x: NodeId| #[trigger] t.live(x) implies t.kids(x).len() <= usize::MAX by {
            assert(s.live(x));
        }
    }
    walk_is(t, t.root, tokens.drop_last(), parent, path);
    step_is(t, parent, tokens.last(), node, path);
}

/// A status of an async node that is one of the three words is granted, by a replace
/// and by an add.
pub proof fn a_status_is_granted(
    s: Tx,
    op: PatchOp,
    tokens: Seq<Chars>,
    parent: NodeId,
    word: Chars,
    ids: Seq<NodeId>,
)
    requires
        shape::tidied(s),
        countable(s),
        (op matches PatchOp::Replace { value, .. } && value@ == Json::Text(word)) || (
        op matches PatchOp::Add { value, .. } && value@ == Json::Text(word)),
        word == "loading"@ || word == "ok"@ || word == "failed"@,
        points(op.path_text(), tokens),
        tokens.len() > 0,
        tokens.last() == "status"@,
        leads(s, s.root, tokens.drop_last(), parent),
        s.live(parent),
        s.kind(parent) is Async,
    ensures
        ({
            let (t, done) = model::apply_patch_op(s, op, ids);
            &&& done is Ok
            &&& t.live(parent)
            &&& t.kind(parent) matches Kind::Async { status, result, reason } && {
                &&& result == s.kind(parent)->Async_result
                &&& reason == s.kind(parent)->Async_reason
                &&& (status == AsyncStatus::Loading <==> word == "loading"@)
                &&& (status == AsyncStatus::Okay <==> word == "ok"@)
                &&& (status == AsyncStatus::Failed <==> word == "failed"@)
            }
        }),
{
    let t = s.unclaim();
    let path = op.path_text();
    unmarked_tokens(tokens);
    still_leads(s, t, s.root, tokens.drop_last(), parent);
    assert(shape::tidied(t)) by {
        assert forall|x: NodeId| #[trigger] t.live(x) implies shape::tidy(t.kind(x)) by {
            assert(s.live(x));
        }
    }
    assert(countable(t)) by {
        assert forall|x: NodeId| #[trigger] t.live(x) implies t.kids(x).len() <= usize::MAX by {
            assert(s.live(x));
        }
    }
    walk_is(t, t.root, tokens.drop_last(), parent, path);
    slot_words();
    reveal_strlit("loading");
    reveal_strlit("ok");
    reveal_strlit("failed");
    assert("loading"@.len() == 7 && "ok"@.len() == 2 && "failed"@.len() == 6);
    replay::touch_dirty_still(t, parent);
    assert(t.touch_dirty(parent).live(parent) == t.live(parent));
}

// ------------------------------------------------------------------------ whole batches

proof fn few_are_countable(s: Tx)
    requires
        shape::linked(s),
        roomy(s, 0),
    ensures
        countable(s),
{
    assert forall|id: NodeId| #[trigger] s.live(id) implies s.kids(id).len() <= usize::MAX by {
        let kids = s.kids(id);
        assert(kids.no_duplicates());
        kids.unique_seq_to_set();
        assert(kids.to_set().subset_of(s.nodes.dom())) by {
            assert forall|x: NodeId| kids.to_set().contains(x) implies s.nodes.dom().contains(
                x,
            ) by {
                assert(s.kids(id).contains(x));
                assert(s.parent_of(x) == Some(id));
            }
        }
        vstd::set_lib::lemma_len_subset(kids.to_set(), s.nodes.dom());
    }
}

/// A batch of one op, to an open tree, does what the op does.
proof fn one_op_batch(tree: Tree, op: PatchOp, s: Tx, done: Result<(), Fault>)
    requires
        !tree.closed,
        tree::batch(tree, seq![op], Seq::empty(), s, done),
        model::apply_patch_op(journal::opened(tree), op, s.allocated).1 is Ok,
    ensures
        done is Ok,
{
    let o = journal::opened(tree);
    let ops = seq![op];
    laws::taken_unused(tree, s);
    assert(model::apply_batch(o, ops, Seq::empty(), s.allocated) == (s, done));
    assert(ops[0] == op);
    reveal_with_fuel(model::apply_patches, 2);
    let t = model::apply_patch_op(o, op, s.allocated).0;
    assert(model::apply_patches(t, ops, 1, s.allocated) == (t, Ok::<(), Fault>(())));
    assert(model::apply_streams(t, Seq::empty(), 0, s.allocated) == (t, Ok::<(), Fault>(())));
}

/// A replace of what is there succeeds: to an open tree with room, a batch that replaces
/// the root, a field of an object or of a store, an element of an array, or the result or
/// the reason of an async node, with a plain document that fits under the depth cap, is
/// applied.
pub proof fn a_replace_succeeds(
    tree: Tree,
    op: PatchOp,
    s: Tx,
    done: Result<(), Fault>,
    tokens: Seq<Chars>,
    parent: NodeId,
    node: NodeId,
    v: Json,
)
    requires
        laws::sound(tree),
        !tree.closed,
        tree::batch(tree, seq![op], Seq::empty(), s, done),
        op matches PatchOp::Replace { value, .. } && value@ == v,
        points(op.path_text(), tokens),
        welcome(journal::opened(tree), v, tokens.len()),
        tokens.len() > 0 ==> leads(
            journal::opened(tree),
            tree.root,
            tokens.drop_last(),
            parent,
        ) && steps(journal::opened(tree), parent, tokens.last(), node),
    ensures
        done is Ok,
{
    few_are_countable(journal::opened(tree));
    a_replace_is_granted(journal::opened(tree), op, tokens, parent, node, v, s.allocated);
    one_op_batch(tree, op, s, done);
}

/// An add at a slot that can be added at succeeds: to an open tree with room, a batch that
/// adds, under any key of an object or of a store, at a position of an array or at its
/// end, or at the result or the reason of an async node, a plain document that fits under
/// the depth cap, is applied.
pub proof fn an_add_succeeds(
    tree: Tree,
    op: PatchOp,
    s: Tx,
    done: Result<(), Fault>,
    tokens: Seq<Chars>,
    parent: NodeId,
    v: Json,
)
    requires
        laws::sound(tree),
        !tree.closed,
        tree::batch(tree, seq![op], Seq::empty(), s, done),
        op matches PatchOp::Add { value, .. } && value@ == v,
        points(op.path_text(), tokens),
        welcome(journal::opened(tree), v, tokens.len()),
        tokens.len() > 0 ==> leads(
            journal::opened(tree),
            tree.root,
            tokens.drop_last(),
            parent,
        ) && addable(journal::opened(tree), parent, tokens.last()),
    ensures
        done is Ok,
{
    few_are_countable(journal::opened(tree));
    an_add_is_granted(journal::opened(tree), op, tokens, parent, v, s.allocated);
    one_op_batch(tree, op, s, done);
}

/// A remove of what is there succeeds: of a field of an object or of a store, and of an
/// element of an array.
pub proof fn a_remove_succeeds(
    tree: Tree,
    op: PatchOp,
    s: Tx,
    done: Result<(), Fault>,
    tokens: Seq<Chars>,
    parent: NodeId,
    node: NodeId,
)
    requires
        laws::sound(tree),
        !tree.closed,
        roomy(journal::opened(tree), 0),
        tree::batch(tree, seq![op], Seq::empty(), s, done),
        op is Remove,
        points(op.path_text(), tokens),
        tokens.len() > 0,
        leads(journal::opened(tree), tree.root, tokens.drop_last(), parent),
        steps(journal::opened(tree), parent, tokens.last(), node),
        !(tree.nodes[parent].kind is Async),
    ensures
        done is Ok,
{
    few_are_countable(journal::opened(tree));
    a_remove_is_granted(journal::opened(tree), op, tokens, parent, node, s.allocated);
    one_op_batch(tree, op, s, done);
}

/// An op on a stream is granted: a reset and a delete always, and an insert of a plain
/// item, where it fits under the depth cap, there is room for its nodes, and a row that
/// left with the key, and would come back, fits too.
pub proof fn a_stream_op_is_granted(
    s: Tx,
    op: StreamOp,
    node: NodeId,
    d: nat,
    m: nat,
    ids: Seq<NodeId>,
)
    requires
        s.streams.contains_key(op.target()),
        s.streams[op.target()] == node,
        op matches StreamOp::Insert { item_key, item, .. } ==> {
            &&& shape::climbs(s.nodes, node, d)
            &&& d < MAX_DEPTH
            &&& welcome(s, item@, d + 1)
            &&& s.carry.contains_key((node, item_key@)) ==> (exists|row: NodeId| #[trigger]
                s.rows(node).contains((item_key@, row))) || (moving::levels(
                s,
                s.carry[(node, item_key@)],
                m,
            ) && d + 1 + m <= MAX_DEPTH)
        },
    ensures
        model::apply_stream_op(s, op, ids).1 is Ok,
{
    let t = s.unclaim();
    if let StreamOp::Insert { item_key, item, at, limit, .. } = op {
        let key = item_key@;
        if t.live(node) {
            if let Kind::Collection { owner, .. } = t.kind(node) {
                shape::depth_counts(t, node, d, MAX_WALK as nat);
                let depth = model::deeper(t.depth(node));
                moving::dirty_up_noted(t.touch(node), Some(node), MAX_WALK as nat);
                let u = t.touch_dirty(node);
                keyed::key_index_meaning(u.rows(node), key);
                let (a, claimed) = model::claim_row(u, node, key, depth);
                assert(u.rows(node) == s.rows(node));
                if exists|row: NodeId| #[trigger] s.rows(node).contains((key, row)) {
                    let row = choose|row: NodeId| #[trigger] s.rows(node).contains((key, row));
                    let i = choose|i: int| 0 <= i < s.rows(node).len() && s.rows(node)[i] == (
                        key,
                        row,
                    );
                    assert(u.rows(node)[i].0 == key);
                    assert(keyed::has_key(u.rows(node), key));
                } else if s.carry.contains_key((node, key)) {
                    let row = s.carry[(node, key)];
                    moving::levels_fit(s, u, row, m, (MAX_DEPTH - depth) as nat);
                    assert(u.fits_at(row, depth));
                }
                assert(claimed is Ok);
                assert(a.nodes.dom() =~= s.nodes.dom());
                child_granted(a, node, claimed->Ok_0, item@, owner, depth, ids);
            }
        }
    }
}

/// A batch of one stream op, to an open tree, is applied, where an item it inserts is
/// plain, fits under the depth cap, and has room.
pub proof fn a_stream_op_succeeds(
    tree: Tree,
    op: StreamOp,
    s: Tx,
    done: Result<(), Fault>,
    d: nat,
)
    requires
        laws::sound(tree),
        !tree.closed,
        tree::batch(tree, Seq::empty(), seq![op], s, done),
        tree.streams.contains_key(op.target()),
        op matches StreamOp::Insert { item, .. } ==> {
            &&& shape::climbs(tree.nodes, tree.streams[op.target()], d)
            &&& d < MAX_DEPTH
            &&& welcome(journal::opened(tree), item@, d + 1)
        },
    ensures
        done is Ok,
{
    let o = journal::opened(tree);
    let ops = seq![op];
    laws::taken_unused(tree, s);
    assert(model::apply_batch(o, Seq::empty(), ops, s.allocated) == (s, done));
    assert(ops[0] == op);
    assert(model::apply_patches(o, Seq::empty(), 0, s.allocated) == (o, Ok::<(), Fault>(())));
    a_stream_op_is_granted(o, op, tree.streams[op.target()], d, 0, s.allocated);
    let t = model::apply_stream_op(o, op, s.allocated).0;
    assert(model::apply_streams(t, ops, 1, s.allocated) == (t, Ok::<(), Fault>(())));
}

/// The depth cap.
pub proof fn the_depth_cap()
    ensures
        MAX_DEPTH == 256,
{
}

} // verus!
