//! The id of a store: what an op on its marker does to it, and to the node that carries it.

use vstd::prelude::*;

use crate::state::error::Fault;
use crate::state::exchanging;
use crate::state::granting;
use crate::state::keyed;
use crate::state::marker;
use crate::state::model;
use crate::state::model::{Tx, MAX_DEPTH, MAX_WALK};
use crate::state::moving;
use crate::state::node;
use crate::state::node::{Kind, NodeId};
use crate::state::patching;
use crate::state::pointer;
use crate::state::pointer::ArrayIndex;
use crate::state::reading;
use crate::state::refusing;
use crate::state::shape;
use crate::state::slots::Entry;
use crate::state::text::Chars;
use crate::state::value::Json;
use crate::state::wire::{PatchOp, Path};

verus! {

// ------------------------------------------------------------------------- the marker

/// The marker of a path: its segments, a text each.
pub open spec fn spelled(path: Path) -> Json {
    Json::Array(Seq::new(path.len(), |i: int| Json::Text(path[i])))
}

/// Whether a document is the marker of some path.
pub open spec fn spells(v: Json) -> bool {
    v matches Json::Array(items) && forall|i: int|
        0 <= i < items.len() ==> (#[trigger] items[i]) is Text
}

/// The fault of what is no store id.
pub open spec fn no_id(path: Chars) -> Fault {
    Fault::Pointer { path, reason: "a store id is an array of strings"@ }
}

/// The document an op writes, `null` where it writes none.
pub open spec fn given(op: PatchOp) -> Json {
    match op {
        PatchOp::Add { value, .. } => value@,
        PatchOp::Replace { value, .. } => value@,
        PatchOp::Remove { .. } => Json::Null,
    }
}

/// The whole marker: a remove takes it away, and an add or a replace puts the one it
/// writes in its place, where that is one.
pub proof fn a_whole_marker(op: PatchOp, segments: Path, path: Chars)
    ensures
        ({
            let mark = model::rewritten_marker(op, Seq::empty(), segments, path);
            &&& op is Remove ==> mark == Ok::<Option<Json>, Fault>(None)
            &&& !(op is Remove) && spells(given(op)) ==> mark == Ok::<Option<Json>, Fault>(
                Some(given(op)),
            )
            &&& !(op is Remove) && !spells(given(op)) ==> mark == Err::<Option<Json>, Fault>(
                no_id(path),
            )
        }),
{
}

/// One segment of a marker: a replace puts its text in the place of the one at a position,
/// an add puts it before that one, or at the end, and a remove takes that one out.
pub proof fn a_marker_segment(op: PatchOp, at: nat, segments: Path, path: Chars, segment: Chars)
    requires
        at <= usize::MAX,
    ensures
        ({
            let there = model::rewritten_marker(op, seq![granting::digits(at)], segments, path);
            let end = model::rewritten_marker(op, seq![seq!['-']], segments, path);
            let text = given(op) == Json::Text(segment);
            &&& op is Remove && at < segments.len() ==> there == Ok::<Option<Json>, Fault>(
                Some(spelled(segments.remove(at as int))),
            )
            &&& op is Remove && at >= segments.len() ==> there == Err::<Option<Json>, Fault>(
                Fault::Index { path },
            )
            &&& op is Remove ==> end == Err::<Option<Json>, Fault>(Fault::Index { path })
            &&& op is Replace && text && at < segments.len() ==> there == Ok::<
                Option<Json>,
                Fault,
            >(Some(spelled(segments.update(at as int, segment))))
            &&& op is Replace && text && at >= segments.len() ==> there == Err::<
                Option<Json>,
                Fault,
            >(Fault::Index { path })
            &&& op is Replace ==> end == Err::<Option<Json>, Fault>(no_id(path))
            &&& op is Add && text && at <= segments.len() ==> there == Ok::<Option<Json>, Fault>(
                Some(spelled(segments.insert(at as int, segment))),
            )
            &&& op is Add && text && at > segments.len() ==> there == Err::<Option<Json>, Fault>(
                Fault::Index { path },
            )
            &&& op is Add && text ==> end == Ok::<Option<Json>, Fault>(
                Some(spelled(segments.push(segment))),
            )
            &&& !(op is Remove) && !(given(op) is Text) ==> there == Err::<Option<Json>, Fault>(
                no_id(path),
            )
        }),
{
    granting::digits_are_an_index(at);
    let one = seq![granting::digits(at)];
    let dash = seq![seq!['-']];
    assert(one[0] == granting::digits(at));
    assert(dash[0] == seq!['-']);
    refusing::only_a_dash_is_the_end(seq!['-']);
}

/// What is no position is refused, and so is what reaches into a segment.
pub proof fn no_marker_segment(op: PatchOp, rest: Seq<Chars>, segments: Path, path: Chars)
    requires
        rest.len() > 1 || (rest.len() == 1 && rest[0] != seq!['-'] && forall|n: nat|
            rest[0] != #[trigger] granting::digits(n)),
    ensures
        rest.len() > 1 ==> model::rewritten_marker(op, rest, segments, path) == Err::<
            Option<Json>,
            Fault,
        >(no_id(path)),
        rest.len() == 1 ==> model::rewritten_marker(op, rest, segments, path) == Err::<
            Option<Json>,
            Fault,
        >(Fault::Index { path }),
{
    if rest.len() == 1 {
        refusing::only_a_dash_is_the_end(rest[0]);
        if let Some(ArrayIndex::At(n)) = pointer::index_meaning(rest[0]) {
            refusing::an_index_is_its_digits(rest[0], n);
            assert(rest[0] == granting::digits(n as nat));
        }
    }
}

// --------------------------------------------------------------------------- the node

/// The id an object or a store has: a store's own, and none for an object.
pub open spec fn id_of(s: Tx, node: NodeId) -> Path {
    match s.kind(node) {
        Kind::Store { id, .. } => id,
        _ => Seq::empty(),
    }
}

/// Whether a list of fields is another, but for the store marker.
pub open spec fn marked(
    fields: Seq<(Chars, Json)>,
    mark: Option<Json>,
    new: Seq<(Chars, Json)>,
) -> bool {
    &&& keyed::sorted(new)
    &&& forall|key: Chars, v: Json| #[trigger]
        new.contains((key, v)) <==> if key == "__musubi_store_id__"@ {
            mark == Some(v)
        } else {
            fields.contains((key, v))
        }
}

proof fn at_marker(tokens: Seq<Chars>, at: int)
    requires
        0 <= at < tokens.len(),
        tokens[at] == "__musubi_store_id__"@,
        granting::unmarked(tokens.take(at)),
    ensures
        model::marker_index(tokens) == at,
    decreases tokens.len(),
{
    if at > 0 {
        let rest = tokens.drop_first();
        assert(tokens.take(at)[0] == tokens[0]);
        assert(rest[at - 1] == tokens[at]);
        assert forall|i: int| 0 <= i < rest.take(at - 1).len() implies #[trigger] rest.take(
            at - 1,
        )[i] != "__musubi_store_id__"@ by {
            assert(tokens.take(at)[i + 1] == rest.take(at - 1)[i]);
        }
        at_marker(rest, at - 1);
    }
}

proof fn found_in(fields: Seq<(Chars, Json)>, key: Chars, v: Json)
    requires
        keyed::sorted(fields),
    ensures
        keyed::lookup(fields, key) == Some(v) <==> fields.contains((key, v)),
{
    keyed::key_index_meaning(fields, key);
    let at = keyed::key_index(fields, key) as int;
    if fields.contains((key, v)) {
        let i = choose|i: int| 0 <= i < fields.len() && fields[i] == (key, v);
        keyed::sorted_key_index(fields, i);
    }
    if keyed::lookup(fields, key) == Some(v) {
        assert(fields[at] == (key, v));
    }
}

proof fn without_keeps(fields: Seq<(Chars, Json)>, key: Chars, other: Chars)
    requires
        keyed::sorted(fields),
        other != key,
    ensures
        keyed::lookup(keyed::without(fields, key), other) == keyed::lookup(fields, other),
{
    let new = keyed::without(fields, key);
    keyed::without_sorted(fields, key);
    keyed::key_index_meaning(fields, key);
    keyed::key_index_meaning(fields, other);
    keyed::key_index_meaning(new, other);
    if keyed::has_key(fields, key) {
        let at = keyed::key_index(fields, key) as int;
        if keyed::has_key(fields, other) {
            let i = keyed::key_index(fields, other) as int;
            let j = if i < at {
                i
            } else {
                i - 1
            };
            assert(new[j] == fields[i]);
            keyed::sorted_key_index(new, j);
        } else if keyed::has_key(new, other) {
            let j = keyed::key_index(new, other) as int;
            let i = if j < at {
                j
            } else {
                j + 1
            };
            assert(fields[i] == new[j]);
        }
    }
}

proof fn marked_is(fields: Seq<(Chars, Json)>, mark: Option<Json>, new: Seq<(Chars, Json)>)
    requires
        keyed::sorted(fields),
        marked(fields, mark, new),
    ensures
        mark matches Some(id) ==> new == keyed::put(fields, "__musubi_store_id__"@, id),
        mark is None ==> new == keyed::without(fields, "__musubi_store_id__"@),
{
    let key = "__musubi_store_id__"@;
    let made = match mark {
        Some(id) => keyed::put(fields, key, id),
        None => keyed::without(fields, key),
    };
    match mark {
        Some(id) => {
            keyed::put_sorted(fields, key, id);
            keyed::put_lookup(fields, key, id);
        },
        None => {
            keyed::without_sorted(fields, key);
            keyed::without_gone(fields, key);
        },
    }
    assert forall|other: Chars| keyed::lookup(new, other) == #[trigger] keyed::lookup(
        made,
        other,
    ) by {
        if other == key {
            if let Some(id) = mark {
                found_in(new, key, id);
                assert(new.contains((key, id)));
            } else if let Some(v) = keyed::lookup(new, key) {
                found_in(new, key, v);
                assert(!new.contains((key, v)));
            }
        } else {
            match mark {
                Some(id) => {
                    keyed::put_others(fields, key, id, other);
                },
                None => {
                    without_keeps(fields, key, other);
                },
            }
            if let Some(v) = keyed::lookup(fields, other) {
                found_in(fields, other, v);
                assert(new.contains((other, v)));
                found_in(new, other, v);
            } else if let Some(v) = keyed::lookup(new, other) {
                found_in(new, other, v);
                assert(new.contains((other, v)));
                found_in(fields, other, v);
            }
        }
    }
    keyed::sorted_same(new, made);
}

/// An op on the marker of an object or of a store does what a replace of the whole node
/// does, with its document under the marker that the op makes of the one it has.
pub proof fn a_marker_op_is_a_replace(
    s: Tx,
    op: PatchOp,
    tokens: Seq<Chars>,
    at: int,
    node: NodeId,
    fields: Seq<(Chars, Json)>,
    mark: Option<Json>,
    new: Seq<(Chars, Json)>,
    ids: Seq<NodeId>,
)
    requires
        shape::tidied(s),
        granting::countable(s),
        pointer::pointer_tokens(op.path_text()) == Some(tokens),
        0 <= at < tokens.len(),
        tokens[at] == "__musubi_store_id__"@,
        granting::unmarked(tokens.take(at)),
        granting::leads(s, s.root, tokens.take(at), node),
        s.live(node),
        s.kind(node) is Object || s.kind(node) is Store,
        node::wire(model::subtree_value(s.nodes, node)) == Json::Object(fields),
        keyed::sorted(fields),
        model::rewritten_marker(op, tokens.skip(at + 1), id_of(s, node), op.path_text()) == Ok::<
            Option<Json>,
            Fault,
        >(mark),
        marked(fields, mark, new),
    ensures
        model::apply_patch_op(s, op, ids) == model::replace(
            s.unclaim(),
            tokens.take(at),
            Json::Object(new),
            op.path_text(),
            ids,
        ),
{
    let t = s.unclaim();
    let path = op.path_text();
    let prefix = tokens.take(at);
    at_marker(tokens, at);
    refusing::unclaim_same(s);
    granting::still_leads(s, t, s.root, prefix, node);
    granting::walk_is(t, t.root, prefix, node, path);
    marked_is(fields, mark, new);
    reading::async_keys_differ();
    if prefix.len() > 0 {
        patching::walk_last(t, t.root, prefix, path);
    }
}

/// An op on the marker of anything but an object or a store is refused.
pub proof fn a_marker_of_nothing_is_refused(
    s: Tx,
    op: PatchOp,
    tokens: Seq<Chars>,
    at: int,
    node: NodeId,
    ids: Seq<NodeId>,
)
    requires
        shape::tidied(s),
        granting::countable(s),
        pointer::pointer_tokens(op.path_text()) == Some(tokens),
        0 <= at < tokens.len(),
        tokens[at] == "__musubi_store_id__"@,
        granting::unmarked(tokens.take(at)),
        granting::leads(s, s.root, tokens.take(at), node),
        s.live(node),
        !(s.kind(node) is Object || s.kind(node) is Store),
    ensures
        refusing::refused(
            s,
            op,
            ids,
            Fault::Pointer {
                path: op.path_text(),
                reason: "only an object or a child store carries a store id"@,
            },
        ),
{
    let t = s.unclaim();
    at_marker(tokens, at);
    refusing::unclaim_same(s);
    granting::still_leads(s, t, s.root, tokens.take(at), node);
    granting::walk_is(t, t.root, tokens.take(at), node, op.path_text());
}

/// A path is the marker that spells it.
pub proof fn a_path_is_its_marker(path: Path)
    ensures
        marker::path_json(path) == spelled(path),
        marker::store_path(spelled(path)) == Some(path),
        spells(spelled(path)),
{
    let items = spelled(path)->Array_0;
    assert(Seq::new(items.len(), |i: int| items[i]->Text_0) =~= path);
}

// ---------------------------------------------------------------------------- a copy

proof fn above_reaches(s: Tx, x: NodeId, n: nat, walk: nat)
    requires
        moving::above(s, s.root, x, n),
        n < walk,
    ensures
        s.reaches_root(Some(x), walk),
    decreases n,
{
    if x != s.root {
        above_reaches(s, s.parent_of(x)->0, (n - 1) as nat, (walk - 1) as nat);
    }
}

/// A store takes its copy's place: where a slot that holds a store is rewritten with what
/// is no store, and a copy of the store stands elsewhere in the tree and has its name, the
/// node of the slot goes to where the copy stands, takes over what the copy holds, and has
/// the name again; the copy is in the slot.
pub proof fn a_store_takes_its_copys_place(
    s: Tx,
    id: NodeId,
    copy: NodeId,
    path: Path,
    v: Json,
    was: Map<NodeId, Entry>,
    ids: Seq<NodeId>,
    n: nat,
)
    requires
        patching::steady(s, was, ids),
        !(marker::form_of(v) is Store),
        s.live(id),
        s.kind(id) matches Kind::Store { id: own, .. } && own == path,
        s.stores.contains_key(path),
        s.stores[path] == copy,
        copy != id,
        s.live(copy),
        s.kind(copy) matches Kind::Store { id: own, .. } && own == path,
        s.parent_of(id) is Some,
        s.parent_of(copy) is Some,
        moving::above(s, s.root, id, n),
        moving::above(s, s.root, copy, n),
        n <= 256,
        moving::apart(s, id, copy),
        moving::apart(s, copy, id),
    ensures
        ({
            let (t, held) = s.yield_identity(id, v);
            let up = s.parent_of(id)->0;
            let other = s.parent_of(copy)->0;
            &&& held == copy
            &&& t.stores == s.stores.insert(path, id)
            &&& t.parent_of(id) == Some(other)
            &&& t.parent_of(copy) == Some(up)
            &&& t.kind(id) == s.kind(copy)
            &&& t.kind(copy) == s.kind(id)
            &&& forall|i: int|
                0 <= i < s.kids(up).len() && #[trigger] s.kids(up)[i] == id ==> t.kids(up)[i]
                    == copy
            &&& forall|i: int|
                0 <= i < s.kids(other).len() && #[trigger] s.kids(other)[i] == copy ==> t.kids(
                    other,
                )[i] == id
        }),
{
    let up = s.parent_of(id)->0;
    let other = s.parent_of(copy)->0;
    assert(shape::bounded(s.nodes)) by {
        reveal(shape::good);
    }
    above_reaches(s, id, n, MAX_WALK as nat);
    above_reaches(s, copy, n, MAX_WALK as nat);
    assert(shape::climbs(s.nodes, id, MAX_DEPTH as nat) && shape::climbs(
        s.nodes,
        copy,
        MAX_DEPTH as nat,
    ));
    moving::apart_unmet(s, id, copy, MAX_DEPTH as nat, MAX_WALK as nat);
    moving::apart_unmet(s, copy, id, MAX_DEPTH as nat, MAX_WALK as nat);
    assert(s.copy_of(id) == Some(copy));
    assert(up != copy) by {
        if up == copy {
            assert(moving::above(s, copy, copy, 0));
            assert(moving::above(s, copy, id, 1));
        }
    }
    assert(other != id) by {
        if other == id {
            assert(moving::above(s, id, id, 0));
            assert(moving::above(s, id, copy, 1));
        }
    }
    shape::depth_step(s, id);
    shape::depth_step(s, copy);
    let m = exchanging::exchanged_nodes(s, id, copy);
    exchanging::exchanged_places(s, id, copy, was, ids);
    exchanging::exchanged(s, id, copy, path, was, ids);
    let t = s.exchange(id, copy, path);
    assert(t.nodes == m.nodes);
    moving::dirty_up_noted(m, Some(id), MAX_WALK as nat);
    moving::dirty_up_noted(m.mark_dirty(id), Some(copy), MAX_WALK as nat);
    assert(m.parent_of(id) == exchanging::swap_parent(
        s.parent_of(model::swapped(id, id, copy)),
        id,
        copy,
    ));
    assert(m.parent_of(copy) == exchanging::swap_parent(
        s.parent_of(model::swapped(copy, id, copy)),
        id,
        copy,
    ));
    assert(m.kids(up) == exchanging::swap_list(
        s.kids(model::swapped(up, id, copy)),
        id,
        copy,
    ));
    assert(m.kids(other) == exchanging::swap_list(
        s.kids(model::swapped(other, id, copy)),
        id,
        copy,
    ));
    assert(m.live(id) == s.live(id) && m.live(copy) == s.live(copy));
    assert(t.kids(up) == m.kids(up) && t.kids(other) == m.kids(other));
}

/// A store that has its own name gives up nothing.
pub proof fn a_named_store_stays(s: Tx, id: NodeId, path: Path, v: Json)
    requires
        s.live(id),
        s.kind(id) matches Kind::Store { id: own, .. } && own == path,
        !s.stores.contains_key(path) || s.stores[path] == id,
    ensures
        s.yield_identity(id, v) == (s, id),
{
}

} // verus!
