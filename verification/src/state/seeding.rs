//! What a new tree is seeded with, it reads back, and its stores are those of the
//! document.

use vstd::prelude::*;

use crate::state::guard;
use crate::state::keyed;
use crate::state::marker;
use crate::state::marker::{
    Form, ASYNC_MARKER_KEY, ASYNC_REASON_KEY, ASYNC_RESULT_KEY, ASYNC_STATUS_KEY, STORE_ID_KEY,
};
use crate::state::model;
use crate::state::model::{Tx, MAX_DEPTH};
use crate::state::node;
use crate::state::node::{Kind, NodeId, Sem};
use crate::state::reading;
use crate::state::shape;
use crate::state::slots::MAX_NODES;
use crate::state::text::Chars;
use crate::state::value;
use crate::state::value::Json;
use crate::state::wire::Path;

verus! {

/// Whether an async object has just its four keys.
pub open spec fn four_keyed(fields: Seq<(Chars, Json)>) -> bool {
    &&& fields.len() == 4
    &&& keyed::has_key(fields, ASYNC_RESULT_KEY@)
    &&& keyed::has_key(fields, ASYNC_REASON_KEY@)
}

/// Whether every async object in a document has just its four keys.
pub open spec fn whole(v: Json) -> bool
    decreases v,
{
    match v {
        Json::Array(items) => forall|i: int| 0 <= i < items.len() ==> whole(#[trigger] items[i]),
        Json::Object(fields) => {
            &&& marker::object_form(fields) is Async ==> four_keyed(fields)
            &&& forall|i: int| 0 <= i < fields.len() ==> whole((#[trigger] fields[i]).1)
        },
        _ => true,
    }
}

/// An async object of just its four keys is what its parts are rendered as.
proof fn four_keys_rendered(fields: Seq<(Chars, Json)>)
    requires
        keyed::sorted(fields),
        marker::object_form(fields) is Async,
        four_keyed(fields),
    ensures
        marker::object_form(fields) matches Form::Async { status, result, reason } && fields
            == node::async_fields(status, result, reason),
{
    if let Form::Async { status, result, reason } = marker::object_form(fields) {
        let none = Seq::<(Chars, Json)>::empty();
        let yes = Json::Bool(true);
        let word = Json::Text(status.wire_text());
        let marked = keyed::put(none, ASYNC_MARKER_KEY@, yes);
        let named = keyed::put(marked, ASYNC_STATUS_KEY@, word);
        let some = keyed::put(named, ASYNC_RESULT_KEY@, result);
        let all = keyed::put(some, ASYNC_REASON_KEY@, reason);
        assert(all == node::async_fields(status, result, reason));
        keyed::put_sorted(none, ASYNC_MARKER_KEY@, yes);
        keyed::put_sorted(marked, ASYNC_STATUS_KEY@, word);
        keyed::put_sorted(named, ASYNC_RESULT_KEY@, result);
        keyed::put_sorted(some, ASYNC_REASON_KEY@, reason);
        reading::async_keys_differ();
        keyed::key_index_meaning(fields, ASYNC_MARKER_KEY@);
        keyed::key_index_meaning(fields, ASYNC_STATUS_KEY@);
        keyed::key_index_meaning(fields, ASYNC_RESULT_KEY@);
        keyed::key_index_meaning(fields, ASYNC_REASON_KEY@);
        let m = keyed::key_index(fields, ASYNC_MARKER_KEY@) as int;
        let t = keyed::key_index(fields, ASYNC_STATUS_KEY@) as int;
        let r = keyed::key_index(fields, ASYNC_RESULT_KEY@) as int;
        let e = keyed::key_index(fields, ASYNC_REASON_KEY@) as int;
        assert(m != t && m != r && m != e && t != r && t != e && r != e);
        assert forall|key: Chars| #[trigger] keyed::lookup(fields, key) == keyed::lookup(
            all,
            key,
        ) by {
            if key == ASYNC_REASON_KEY@ {
                keyed::put_lookup(some, ASYNC_REASON_KEY@, reason);
            } else {
                keyed::put_others(some, ASYNC_REASON_KEY@, reason, key);
                if key == ASYNC_RESULT_KEY@ {
                    keyed::put_lookup(named, ASYNC_RESULT_KEY@, result);
                } else {
                    keyed::put_others(named, ASYNC_RESULT_KEY@, result, key);
                    if key == ASYNC_STATUS_KEY@ {
                        keyed::put_lookup(marked, ASYNC_STATUS_KEY@, word);
                    } else {
                        keyed::put_others(marked, ASYNC_STATUS_KEY@, word, key);
                        if key == ASYNC_MARKER_KEY@ {
                            keyed::put_lookup(none, ASYNC_MARKER_KEY@, yes);
                        } else {
                            keyed::put_others(none, ASYNC_MARKER_KEY@, yes, key);
                            keyed::key_index_meaning(fields, key);
                            let at = keyed::key_index(fields, key) as int;
                            assert(at == m || at == t || at == r || at == e || at >= 4);
                        }
                    }
                }
            }
        }
        keyed::sorted_same(fields, all);
    }
}

/// A document whose async objects have just their four keys reads back as itself.
pub proof fn whole_is_normal(v: Json)
    requires
        v.well_formed(),
        whole(v),
    ensures
        reading::normal(v) == v,
    decreases v,
{
    match v {
        Json::Array(items) => {
            let docs = reading::normal(v)->Array_0;
            assert forall|i: int| 0 <= i < items.len() implies docs[i] == #[trigger] items[i] by {
                whole_is_normal(items[i]);
            }
            assert(docs =~= items);
        },
        Json::Object(fields) => {
            assert forall|i: int| 0 <= i < fields.len() implies reading::normal(
                (#[trigger] fields[i]).1,
            ) == fields[i].1 by {
                whole_is_normal(fields[i].1);
            }
            match marker::object_form(fields) {
                Form::Collection { .. } => {},
                Form::Upload { .. } => {},
                Form::Async { result, reason, .. } => {
                    four_keys_rendered(fields);
                    keyed::key_index_meaning(fields, ASYNC_RESULT_KEY@);
                    keyed::key_index_meaning(fields, ASYNC_REASON_KEY@);
                    let r = keyed::key_index(fields, ASYNC_RESULT_KEY@) as int;
                    let e = keyed::key_index(fields, ASYNC_REASON_KEY@) as int;
                    assert(reading::normal(fields[r].1) == fields[r].1);
                    assert(reading::normal(fields[e].1) == fields[e].1);
                    assert(reading::normal_at(fields, ASYNC_RESULT_KEY@) == result);
                    assert(reading::normal_at(fields, ASYNC_REASON_KEY@) == reason);
                    assert(reading::normal(v) == v);
                },
                _ => {
                    assert(reading::normal_fields(fields) =~= fields);
                    assert(reading::normal(v) == v);
                },
            }
        },
        _ => {},
    }
}

// ------------------------------------------------------------------- the markers

/// One where an object is the store of a path, and none otherwise.
pub open spec fn marked(fields: Seq<(Chars, Json)>, path: Path) -> nat {
    match marker::object_form(fields) {
        Form::Store { id, .. } => if id == path {
            1
        } else {
            0
        },
        _ => 0,
    }
}

/// How often a document renders a store.
pub open spec fn renders(v: Json, path: Path) -> nat
    decreases v, 0int,
{
    match v {
        Json::Array(items) => items_render(items, path, 0),
        Json::Object(fields) => marked(fields, path) + fields_render(fields, path, 0),
        _ => 0,
    }
}

/// How often the items from `i` on render a store.
pub open spec fn items_render(items: Seq<Json>, path: Path, i: int) -> nat
    decreases items, items.len() - i,
{
    if 0 <= i < items.len() {
        renders(items[i], path) + items_render(items, path, i + 1)
    } else {
        0
    }
}

/// How often the fields from `i` on render a store.
pub open spec fn fields_render(fields: Seq<(Chars, Json)>, path: Path, i: int) -> nat
    decreases fields, fields.len() - i,
{
    if 0 <= i < fields.len() {
        renders(fields[i].1, path) + fields_render(fields, path, i + 1)
    } else {
        0
    }
}

/// How often a document has the slot of a stream, of a name and the nearest store
/// around it; `owner` is the store around the document.
pub open spec fn streams(v: Json, owner: Path, key: (Path, Chars)) -> nat
    decreases v, 0int,
{
    match v {
        Json::Array(items) => items_stream(items, owner, key, 0),
        Json::Object(fields) => match marker::object_form(fields) {
            Form::Collection { name } => if key == (owner, name) {
                1
            } else {
                0
            },
            Form::Store { id, .. } => fields_stream(fields, id, key, 0),
            _ => fields_stream(fields, owner, key, 0),
        },
        _ => 0,
    }
}

/// How often the items from `i` on have the slot of a stream.
pub open spec fn items_stream(items: Seq<Json>, owner: Path, key: (Path, Chars), i: int) -> nat
    decreases items, items.len() - i,
{
    if 0 <= i < items.len() {
        streams(items[i], owner, key) + items_stream(items, owner, key, i + 1)
    } else {
        0
    }
}

/// How often the fields from `i` on have the slot of a stream.
pub open spec fn fields_stream(
    fields: Seq<(Chars, Json)>,
    owner: Path,
    key: (Path, Chars),
    i: int,
) -> nat
    decreases fields, fields.len() - i,
{
    if 0 <= i < fields.len() {
        streams(fields[i].1, owner, key) + fields_stream(fields, owner, key, i + 1)
    } else {
        0
    }
}

/// How many values a document has, itself and all in it.
pub open spec fn values(v: Json) -> nat
    decreases v, 0int,
{
    match v {
        Json::Array(items) => 1 + items_values(items, 0),
        Json::Object(fields) => 1 + fields_values(fields, 0),
        _ => 1,
    }
}

/// How many values the items from `i` on have.
pub open spec fn items_values(items: Seq<Json>, i: int) -> nat
    decreases items, items.len() - i,
{
    if 0 <= i < items.len() {
        values(items[i]) + items_values(items, i + 1)
    } else {
        0
    }
}

/// How many values the fields from `i` on have.
pub open spec fn fields_values(fields: Seq<(Chars, Json)>, i: int) -> nat
    decreases fields, fields.len() - i,
{
    if 0 <= i < fields.len() {
        values(fields[i].1) + fields_values(fields, i + 1)
    } else {
        0
    }
}

/// A store marker renders no store, and has no slot.
proof fn marker_renders_nothing(v: Json, owner: Path)
    requires
        marker::store_path(v) is Some,
    ensures
        forall|path: Path| #[trigger] renders(v, path) == 0,
        forall|key: (Path, Chars)| #[trigger] streams(v, owner, key) == 0,
{
    let items = v->Array_0;
    assert forall|path: Path| #[trigger] renders(v, path) == 0 by {
        texts_render_nothing(items, owner, path, (Seq::empty(), Seq::empty()), 0);
    }
    assert forall|key: (Path, Chars)| #[trigger] streams(v, owner, key) == 0 by {
        texts_render_nothing(items, owner, Seq::empty(), key, 0);
    }
}

proof fn texts_render_nothing(
    items: Seq<Json>,
    owner: Path,
    path: Path,
    key: (Path, Chars),
    i: int,
)
    requires
        0 <= i <= items.len(),
        forall|k: int| 0 <= k < items.len() ==> (#[trigger] items[k]) is Text,
    ensures
        items_render(items, path, i) == 0,
        items_stream(items, owner, key, i) == 0,
    decreases items.len() - i,
{
    if i < items.len() {
        assert(renders(items[i], path) == 0);
        assert(streams(items[i], owner, key) == 0);
        texts_render_nothing(items, owner, path, key, i + 1);
    }
}

/// What four fields render, and how many values they have.
proof fn four_render(fields: Seq<(Chars, Json)>, owner: Path, path: Path, key: (Path, Chars))
    requires
        fields.len() == 4,
    ensures
        fields_render(fields, path, 0) == renders(fields[0].1, path) + renders(fields[1].1, path)
            + renders(fields[2].1, path) + renders(fields[3].1, path),
        fields_stream(fields, owner, key, 0) == streams(fields[0].1, owner, key) + streams(
            fields[1].1,
            owner,
            key,
        ) + streams(fields[2].1, owner, key) + streams(fields[3].1, owner, key),
        fields_values(fields, 0) == values(fields[0].1) + values(fields[1].1) + values(fields[2].1)
            + values(fields[3].1),
{
    assert(fields_render(fields, path, 4) == 0);
    assert(fields_render(fields, path, 3) == renders(fields[3].1, path));
    assert(fields_render(fields, path, 2) == renders(fields[2].1, path) + renders(
        fields[3].1,
        path,
    ));
    assert(fields_render(fields, path, 1) == renders(fields[1].1, path) + fields_render(
        fields,
        path,
        2,
    ));
    assert(fields_stream(fields, owner, key, 4) == 0);
    assert(fields_stream(fields, owner, key, 3) == streams(fields[3].1, owner, key));
    assert(fields_stream(fields, owner, key, 2) == streams(fields[2].1, owner, key) + streams(
        fields[3].1,
        owner,
        key,
    ));
    assert(fields_stream(fields, owner, key, 1) == streams(fields[1].1, owner, key)
        + fields_stream(fields, owner, key, 2));
    assert(fields_values(fields, 4) == 0);
    assert(fields_values(fields, 3) == values(fields[3].1));
    assert(fields_values(fields, 2) == values(fields[2].1) + values(fields[3].1));
    assert(fields_values(fields, 1) == values(fields[1].1) + fields_values(fields, 2));
}

/// What an async object of just its four keys renders, its parts do.
proof fn async_renders(fields: Seq<(Chars, Json)>, owner: Path)
    requires
        keyed::sorted(fields),
        marker::object_form(fields) is Async,
        four_keyed(fields),
    ensures
        marker::object_form(fields) matches Form::Async { result, reason, .. } && {
            &&& forall|path: Path| #[trigger]
                fields_render(fields, path, 0) == renders(result, path) + renders(reason, path)
            &&& forall|key: (Path, Chars)| #[trigger]
                fields_stream(fields, owner, key, 0) == streams(result, owner, key) + streams(
                    reason,
                    owner,
                    key,
                )
            &&& values(result) + values(reason) <= fields_values(fields, 0)
        },
{
    if let Form::Async { status, result, reason } = marker::object_form(fields) {
        reading::async_keys_differ();
        keyed::key_index_meaning(fields, ASYNC_MARKER_KEY@);
        keyed::key_index_meaning(fields, ASYNC_STATUS_KEY@);
        keyed::key_index_meaning(fields, ASYNC_RESULT_KEY@);
        keyed::key_index_meaning(fields, ASYNC_REASON_KEY@);
        let m = keyed::key_index(fields, ASYNC_MARKER_KEY@) as int;
        let t = keyed::key_index(fields, ASYNC_STATUS_KEY@) as int;
        let r = keyed::key_index(fields, ASYNC_RESULT_KEY@) as int;
        let e = keyed::key_index(fields, ASYNC_REASON_KEY@) as int;
        assert(m != t && m != r && m != e && t != r && t != e && r != e);
        assert(fields[m].1 is Bool && fields[t].1 is Text);
        assert(fields[r].1 == result && fields[e].1 == reason);
        assert forall|path: Path| #[trigger] fields_render(fields, path, 0) == renders(result, path)
            + renders(reason, path) by {
            four_render(fields, owner, path, (path, Seq::empty()));
            assert(renders(fields[m].1, path) == 0 && renders(fields[t].1, path) == 0);
            four_spread(
                m,
                t,
                r,
                e,
                renders(fields[0].1, path),
                renders(fields[1].1, path),
                renders(fields[2].1, path),
                renders(fields[3].1, path),
            );
        }
        assert forall|key: (Path, Chars)| #[trigger] fields_stream(fields, owner, key, 0)
            == streams(result, owner, key) + streams(reason, owner, key) by {
            four_render(fields, owner, owner, key);
            assert(streams(fields[m].1, owner, key) == 0 && streams(fields[t].1, owner, key) == 0);
            four_spread(
                m,
                t,
                r,
                e,
                streams(fields[0].1, owner, key),
                streams(fields[1].1, owner, key),
                streams(fields[2].1, owner, key),
                streams(fields[3].1, owner, key),
            );
        }
        four_render(fields, owner, owner, (owner, Seq::empty()));
        four_spread(
            m,
            t,
            r,
            e,
            values(fields[0].1),
            values(fields[1].1),
            values(fields[2].1),
            values(fields[3].1),
        );
    }
}

/// The one of four numbers at a place.
spec fn nth(at: int, a: nat, b: nat, c: nat, d: nat) -> nat {
    if at == 0 {
        a
    } else if at == 1 {
        b
    } else if at == 2 {
        c
    } else {
        d
    }
}

/// Four numbers sum up in any order.
proof fn four_spread(m: int, t: int, r: int, e: int, a: nat, b: nat, c: nat, d: nat)
    requires
        0 <= m < 4,
        0 <= t < 4,
        0 <= r < 4,
        0 <= e < 4,
        m != t && m != r && m != e && t != r && t != e && r != e,
    ensures
        nth(m, a, b, c, d) + nth(t, a, b, c, d) + nth(r, a, b, c, d) + nth(e, a, b, c, d) == a + b
            + c + d,
{
}

// ------------------------------------------------------------------- the planting

/// One where a store is in the index, and none otherwise.
pub open spec fn held(s: Tx, path: Path) -> nat {
    if s.stores.contains_key(path) {
        1
    } else {
        0
    }
}

/// One where a stream is in the index, and none otherwise.
pub open spec fn lent(s: Tx, key: (Path, Chars)) -> nat {
    if s.streams.contains_key(key) {
        1
    } else {
        0
    }
}

/// A step that makes at most `n` nodes and removes none.
spec fn adds(s: Tx, t: Tx, n: nat) -> bool {
    &&& t.pending == s.pending
    &&& t.carry_order == s.carry_order
    &&& t.nodes.dom().finite()
    &&& t.nodes.dom().len() <= s.nodes.dom().len() + n
}

/// Whether `n` nodes can be made.
spec fn has_room(s: Tx, n: nat) -> bool {
    s.nodes.dom().finite() && s.nodes.dom().len() + n <= MAX_NODES
}

/// Whether nothing in a document is in the index, nor twice in the document.
spec fn apart(s: Tx, v: Json, owner: Path) -> bool {
    &&& forall|path: Path| #[trigger] held(s, path) + renders(v, path) <= 1
    &&& forall|key: (Path, Chars)| #[trigger] lent(s, key) + streams(v, owner, key) <= 1
}

/// The index once a document is in the tree.
spec fn planted(s: Tx, t: Tx, v: Json, owner: Path) -> bool {
    &&& forall|path: Path| #[trigger] held(t, path) == held(s, path) + renders(v, path)
    &&& forall|key: (Path, Chars)| #[trigger]
        lent(t, key) == lent(s, key) + streams(v, owner, key)
}

/// A step whose ids last, taken from ids that are nobody's.
spec fn takes(s: Tx, t: Tx, ids: Seq<NodeId>) -> bool {
    t.allocated.len() <= ids.len() && shape::unused(s, ids)
}

/// A step that leaves every node with the value it had, but for one.
spec fn sows(s: Tx, t: Tx, but: Option<NodeId>, ids: Seq<NodeId>) -> bool {
    &&& s.allocated.len() <= t.allocated.len()
    &&& t.settle == s.settle
    &&& takes(s, t, ids) ==> shape::unused(t, ids) && forall|x: NodeId| #[trigger]
        s.live(x) ==> t.live(x) && (but != Some(x) ==> t.nodes[x].sem == s.nodes[x].sem)
}

proof fn sows_on(a: Tx, b: Tx, c: Tx, but: Option<NodeId>, ids: Seq<NodeId>)
    requires
        sows(a, b, but, ids),
        sows(b, c, but, ids),
    ensures
        sows(a, c, but, ids),
{
    if takes(a, c, ids) {
        assert(takes(a, b, ids) && takes(b, c, ids));
        assert forall|x: NodeId| #[trigger] a.live(x) implies c.live(x) && (but != Some(x)
            ==> c.nodes[x].sem == a.nodes[x].sem) by {
            assert(b.live(x));
        }
    }
}

/// Whether a step made a node whose value is a document, as it reads back.
spec fn bears(s: Tx, t: Tx, child: NodeId, v: Json, ids: Seq<NodeId>) -> bool {
    takes(s, t, ids) ==> t.live(child) && !s.live(child) && node::wire(t.nodes[child].sem)
        == reading::normal(v)
}

proof fn bears_on(a: Tx, b: Tx, c: Tx, child: NodeId, v: Json, ids: Seq<NodeId>)
    requires
        sows(a, b, None, ids),
        sows(b, c, None, ids),
        bears(a, b, child, v, ids) || bears(b, c, child, v, ids),
    ensures
        bears(a, c, child, v, ids),
{
    if takes(a, c, ids) {
        assert(takes(a, b, ids) && takes(b, c, ids));
        if a.live(child) {
            assert(b.live(child));
        }
    }
}

/// Whether a node that was given a document has it as its value, made of children
/// that are new.
spec fn fits(s: Tx, t: Tx, id: NodeId, v: Json, ids: Seq<NodeId>) -> bool {
    takes(s, t, ids) && s.live(id) ==> {
        &&& t.live(id)
        &&& node::wire(t.nodes[id].sem) == reading::normal(v)
        &&& t.nodes[id].sem == t.shallow(id)
        &&& forall|kid: NodeId| #[trigger]
            t.kids(id).contains(kid) ==> t.live(kid) && !s.live(kid)
    }
}

/// Giving a node its kind and its value indexes nothing.
proof fn finished(s: Tx, id: NodeId, kind: Kind)
    requires
        s.nodes.dom().finite(),
    ensures
        adds(s, model::finish(s, id, kind), 0),
        model::finish(s, id, kind).stores == s.stores,
        model::finish(s, id, kind).streams == s.streams,
{
    assert(model::finish(s, id, kind).nodes.dom() =~= s.nodes.dom());
}

/// A node that is given the kind a document calls for, around new nodes that have
/// its parts as their values, has the document as its own.
proof fn finished_fits(
    s: Tx,
    t: Tx,
    u: Tx,
    id: NodeId,
    kind: Kind,
    v: Json,
    ids: Seq<NodeId>,
)
    requires
        sows(s, t, None, ids),
        u.nodes == t.nodes,
        u.allocated == t.allocated,
        u.settle == t.settle,
        v.well_formed(),
        reading::cast(kind, v),
        kind is Collection ==> kind.kids().len() == 0,
        forall|i: int|
            0 <= i < kind.kids().len() ==> bears(
                s,
                t,
                #[trigger] kind.kids()[i],
                guard::part(v, i),
                ids,
            ),
    ensures
        sows(s, model::finish(u, id, kind), Some(id), ids),
        fits(s, model::finish(u, id, kind), id, v, ids),
{
    let w = model::finish(u, id, kind);
    let k = u.put_kind(id, kind);
    if takes(s, w, ids) {
        assert(takes(s, t, ids));
        assert(forall|x: NodeId| #[trigger] w.live(x) == t.live(x));
        assert(shape::unused(w, ids));
        assert forall|x: NodeId| #[trigger] s.live(x) implies w.live(x) && (Some(id) != Some(x)
            ==> w.nodes[x].sem == s.nodes[x].sem) by {
            assert(t.live(x));
        }
        if s.live(id) {
            let kids = kind.kids();
            let parts = model::cached(k.nodes, kids);
            assert(t.live(id));
            assert forall|i: int| 0 <= i < kids.len() implies t.live(#[trigger] kids[i]) && !s.live(
                kids[i],
            ) && parts[i] == t.nodes[kids[i]].sem && node::wire(parts[i]) == reading::normal(
                guard::part(v, i),
            ) by {
                assert(bears(s, t, kids[i], guard::part(v, i), ids));
                assert(k.live(kids[i]));
            }
            assert forall|i: int| 0 <= i < parts.len() implies node::wire(#[trigger] parts[i])
                == reading::normal(guard::part(v, i)) by {
                assert(t.live(kids[i]));
            }
            reading::cast_reads(kind, v, parts);
            assert(k.shallow(id) == node::assembled(kind, parts));
            assert(w.kids(id) == kids);
            assert(model::cached(w.nodes, kids) =~= parts) by {
                assert forall|i: int| 0 <= i < kids.len() implies model::cached(w.nodes, kids)[i]
                    == parts[i] by {
                    assert(t.live(kids[i]) && kids[i] != id);
                }
            }
            assert forall|kid: NodeId| #[trigger] w.kids(id).contains(kid) implies w.live(kid)
                && !s.live(kid) by {
                let i = choose|i: int| 0 <= i < kids.len() && kids[i] == kid;
                assert(t.live(kids[i]));
            }
        }
    }
}

/// Fewer fields come first among more.
proof fn plain_first(fields: Seq<(Chars, Json)>, skip: bool, i: int, n: int)
    requires
        0 <= i <= n <= fields.len(),
    ensures
        guard::plain(fields, skip, i).len() <= guard::plain(fields, skip, n).len(),
        forall|j: int|
            0 <= j < guard::plain(fields, skip, i).len() ==> guard::plain(fields, skip, n)[j]
                == #[trigger] guard::plain(fields, skip, i)[j],
    decreases n,
{
    if i < n {
        plain_first(fields, skip, i, n - 1);
    }
}

/// A document that is put into an empty slot, and that shares no store and no
/// stream with the tree, makes its own nodes, and indexes its stores and streams.
proof fn child_planted(
    s: Tx,
    parent: NodeId,
    v: Json,
    owner: Path,
    depth: nat,
    ids: Seq<NodeId>,
)
    requires
        v.well_formed(),
        whole(v),
        apart(s, v, owner),
        has_room(s, values(v)),
        depth + value::nesting(v) <= MAX_DEPTH,
    ensures
        ({
            let (t, child) = model::reconcile_child(s, parent, None, v, owner, depth, ids);
            &&& child is Ok
            &&& planted(s, t, v, owner)
            &&& adds(s, t, values(v))
            &&& sows(s, t, None, ids)
            &&& bears(s, t, child->Ok_0, v, ids)
        }),
    decreases value::nesting(v), 5int, 0int,
{
    let a = match marker::form_of(v) {
        Form::Store { id: path, .. } => {
            assert(held(s, path) + renders(v, path) <= 1);
            s.claim(path)
        },
        Form::Collection { name } => {
            assert(lent(s, (owner, name)) + streams(v, owner, (owner, name)) <= 1);
            s.claim_stream((owner, name))
        },
        _ => s,
    };
    assert(forall|path: Path| #[trigger] held(a, path) == held(s, path));
    assert(forall|key: (Path, Chars)| #[trigger] lent(a, key) == lent(s, key));
    let (b, made) = a.make(Some(parent), ids);
    assert(model::reconcile_child(s, parent, None, v, owner, depth, ids) == model::build(
        a,
        parent,
        v,
        owner,
        depth,
        ids,
    ));
    assert(values(v) >= 1);
    let id = made->Ok_0;
    assert(forall|path: Path| #[trigger] held(b, path) == held(s, path));
    assert(forall|key: (Path, Chars)| #[trigger] lent(b, key) == lent(s, key));
    assert(b.nodes.dom() =~= a.nodes.dom().insert(id));
    install_planted(b, id, v, owner, depth, ids);
    let t = model::install(b, id, v, owner, depth, ids).0;
    assert(forall|path: Path| #[trigger] held(t, path) == held(b, path) + renders(v, path));
    assert(forall|key: (Path, Chars)| #[trigger] lent(t, key) == lent(b, key) + streams(
        v,
        owner,
        key,
    ));
    if takes(s, t, ids) {
        assert(id == ids[s.allocated.len() as int]);
        assert(!s.live(id));
        assert(shape::unused(b, ids)) by {
            assert forall|k: int| b.allocated.len() <= k < ids.len() implies !b.live(
                #[trigger] ids[k],
            ) by {
                assert(!s.live(ids[k]));
                assert(ids[s.allocated.len() as int] != ids[k]);
            }
        }
        assert(takes(b, t, ids));
        assert forall|x: NodeId| #[trigger] s.live(x) implies t.live(x) && t.nodes[x].sem
            == s.nodes[x].sem by {
            assert(b.live(x));
            assert(x != id);
        }
        assert(b.live(id));
    }
}

proof fn install_planted(s: Tx, id: NodeId, v: Json, owner: Path, depth: nat, ids: Seq<NodeId>)
    requires
        v.well_formed(),
        whole(v),
        apart(s, v, owner),
        has_room(s, (values(v) - 1) as nat),
        depth + value::nesting(v) <= MAX_DEPTH,
    ensures
        ({
            let (t, done) = model::install(s, id, v, owner, depth, ids);
            &&& done is Ok
            &&& planted(s, t, v, owner)
            &&& adds(s, t, (values(v) - 1) as nat)
            &&& sows(s, t, Some(id), ids)
            &&& fits(s, t, id, v, ids)
        }),
    decreases value::nesting(v), 2int, 0int,
{
    model::form_nesting(v);
    let none = Seq::<NodeId>::empty();
    let bare = Seq::<(Chars, NodeId)>::empty();
    match marker::form_of(v) {
        Form::Null => {
            finished(s, id, Kind::Null);
            finished_fits(s, s, s, id, Kind::Null, v, ids);
        },
        Form::Bool(flag) => {
            finished(s, id, Kind::Bool(flag));
            finished_fits(s, s, s, id, Kind::Bool(flag), v, ids);
        },
        Form::Number(number) => {
            finished(s, id, Kind::Number(number));
            finished_fits(s, s, s, id, Kind::Number(number), v, ids);
        },
        Form::Text(text) => {
            finished(s, id, Kind::Text(text));
            finished_fits(s, s, s, id, Kind::Text(text), v, ids);
        },
        Form::Array(items) => {
            items_planted(s, id, items, owner, depth, 0, none, ids);
            let (t, new) = model::place_items(s, id, none, items, owner, depth, 0, none, ids);
            let kind = Kind::Array(new->Ok_0);
            finished(t, id, kind);
            assert forall|j: int| 0 <= j < kind.kids().len() implies bears(
                s,
                t,
                #[trigger] kind.kids()[j],
                guard::part(v, j),
                ids,
            ) by {
                assert(bears(s, t, new->Ok_0[j], items[j], ids));
            }
            finished_fits(s, t, t, id, kind, v, ids);
            let w = model::install(s, id, v, owner, depth, ids).0;
            assert forall|p: Path| #[trigger] held(w, p) == held(s, p) + renders(v, p) by {
                assert(held(t, p) == held(s, p) + items_render(items, p, 0));
            }
            assert forall|k: (Path, Chars)| #[trigger] lent(w, k) == lent(s, k) + streams(
                v,
                owner,
                k,
            ) by {
                assert(lent(t, k) == lent(s, k) + items_stream(items, owner, k, 0));
            }
        },
        Form::Object(fields) => {
            fields_planted(s, id, fields, false, owner, depth, 0, bare, ids);
            let (t, new) = model::place_fields(
                s,
                id,
                bare,
                fields,
                false,
                owner,
                depth,
                0,
                bare,
                ids,
            );
            let kind = Kind::Object(new->Ok_0);
            finished(t, id, kind);
            assert forall|j: int| 0 <= j < kind.kids().len() implies bears(
                s,
                t,
                #[trigger] kind.kids()[j],
                guard::part(v, j),
                ids,
            ) by {
                assert(kind.kids()[j] == new->Ok_0[j].1);
            }
            finished_fits(s, t, t, id, kind, v, ids);
            let w = model::install(s, id, v, owner, depth, ids).0;
            assert forall|p: Path| #[trigger] held(w, p) == held(s, p) + renders(v, p) by {
                assert(held(t, p) == held(s, p) + fields_render(fields, p, 0));
            }
            assert forall|k: (Path, Chars)| #[trigger] lent(w, k) == lent(s, k) + streams(
                v,
                owner,
                k,
            ) by {
                assert(lent(t, k) == lent(s, k) + fields_stream(fields, owner, k, 0));
            }
        },
        Form::Store { id: path, fields } => {
            assert(v == Json::Object(fields));
            assert(held(s, path) + renders(v, path) <= 1);
            assert forall|p: Path| #[trigger] held(s, p) + fields_render(fields, p, 0) <= 1 by {
                assert(held(s, p) + renders(v, p) <= 1);
            }
            assert forall|k: (Path, Chars)| #[trigger] lent(s, k) + fields_stream(
                fields,
                path,
                k,
                0,
            ) <= 1 by {
                assert(lent(s, k) + streams(v, owner, k) <= 1);
            }
            fields_planted(s, id, fields, true, path, depth, 0, bare, ids);
            let (t, new) = model::place_fields(
                s,
                id,
                bare,
                fields,
                true,
                path,
                depth,
                0,
                bare,
                ids,
            );
            let u = t.set_store(path, Some(id));
            let kind = Kind::Store { id: path, fields: new->Ok_0 };
            finished(u, id, kind);
            assert forall|j: int| 0 <= j < kind.kids().len() implies bears(
                s,
                t,
                #[trigger] kind.kids()[j],
                guard::part(v, j),
                ids,
            ) by {
                assert(kind.kids()[j] == new->Ok_0[j].1);
            }
            finished_fits(s, t, u, id, kind, v, ids);
            let w = model::install(s, id, v, owner, depth, ids).0;
            assert forall|p: Path| #[trigger] held(w, p) == held(s, p) + renders(v, p) by {
                assert(held(t, p) == held(s, p) + fields_render(fields, p, 0));
            }
            assert forall|k: (Path, Chars)| #[trigger] lent(w, k) == lent(s, k) + streams(
                v,
                owner,
                k,
            ) by {
                assert(lent(t, k) == lent(s, k) + fields_stream(fields, path, k, 0));
            }
        },
        Form::Collection { name } => {
            let t = s.set_stream((owner, name), Some(id));
            assert(lent(s, (owner, name)) + streams(v, owner, (owner, name)) <= 1);
            finished(t, id, Kind::Collection { name, owner, items: bare });
            finished_fits(s, s, t, id, Kind::Collection { name, owner, items: bare }, v, ids);
            slot_renders_nothing(v);
            let w = model::install(s, id, v, owner, depth, ids).0;
            assert forall|k: (Path, Chars)| #[trigger] lent(w, k) == lent(s, k) + streams(
                v,
                owner,
                k,
            ) by {}
        },
        Form::Async { status, result, reason } => {
            let fields = v->Object_0;
            async_renders(fields, owner);
            async_parts(fields);
            let deep = model::deeper(depth);
            assert forall|p: Path| #[trigger] held(s, p) + renders(result, p) <= 1 by {
                assert(held(s, p) + renders(v, p) <= 1);
                assert(fields_render(fields, p, 0) == renders(result, p) + renders(reason, p));
            }
            assert forall|k: (Path, Chars)| #[trigger] lent(s, k) + streams(result, owner, k)
                <= 1 by {
                assert(lent(s, k) + streams(v, owner, k) <= 1);
                assert(fields_stream(fields, owner, k, 0) == streams(result, owner, k) + streams(
                    reason,
                    owner,
                    k,
                ));
            }
            child_planted(s, id, result, owner, deep, ids);
            let (t, first) = model::reconcile_child(s, id, None, result, owner, deep, ids);
            assert forall|p: Path| #[trigger] held(t, p) + renders(reason, p) <= 1 by {
                assert(held(s, p) + renders(v, p) <= 1);
                assert(held(t, p) == held(s, p) + renders(result, p));
                assert(fields_render(fields, p, 0) == renders(result, p) + renders(reason, p));
            }
            assert forall|k: (Path, Chars)| #[trigger] lent(t, k) + streams(reason, owner, k)
                <= 1 by {
                assert(lent(s, k) + streams(v, owner, k) <= 1);
                assert(lent(t, k) == lent(s, k) + streams(result, owner, k));
                assert(fields_stream(fields, owner, k, 0) == streams(result, owner, k) + streams(
                    reason,
                    owner,
                    k,
                ));
            }
            child_planted(t, id, reason, owner, deep, ids);
            let (u, second) = model::reconcile_child(t, id, None, reason, owner, deep, ids);
            let kind = Kind::Async { status, result: first->Ok_0, reason: second->Ok_0 };
            finished(u, id, kind);
            sows_on(s, t, u, None, ids);
            bears_on(s, t, u, first->Ok_0, result, ids);
            bears_on(s, t, u, second->Ok_0, reason, ids);
            assert forall|j: int| 0 <= j < kind.kids().len() implies bears(
                s,
                u,
                #[trigger] kind.kids()[j],
                guard::part(v, j),
                ids,
            ) by {
                if j == 0 {
                    assert(kind.kids()[j] == first->Ok_0);
                } else {
                    assert(kind.kids()[j] == second->Ok_0);
                }
            }
            finished_fits(s, u, u, id, kind, v, ids);
            let w = model::install(s, id, v, owner, depth, ids).0;
            assert forall|p: Path| #[trigger] held(w, p) == held(s, p) + renders(v, p) by {
                assert(held(t, p) == held(s, p) + renders(result, p));
                assert(held(u, p) == held(t, p) + renders(reason, p));
                assert(fields_render(fields, p, 0) == renders(result, p) + renders(reason, p));
            }
            assert forall|k: (Path, Chars)| #[trigger] lent(w, k) == lent(s, k) + streams(
                v,
                owner,
                k,
            ) by {
                assert(lent(t, k) == lent(s, k) + streams(result, owner, k));
                assert(lent(u, k) == lent(t, k) + streams(reason, owner, k));
                assert(fields_stream(fields, owner, k, 0) == streams(result, owner, k) + streams(
                    reason,
                    owner,
                    k,
                ));
            }
        },
        Form::Upload { name } => {
            finished(s, id, Kind::Upload { name, owner });
            finished_fits(s, s, s, id, Kind::Upload { name, owner }, v, ids);
            slot_renders_nothing(v);
            assert forall|k: (Path, Chars)| #[trigger] streams(v, owner, k) == 0 by {
                let fields = v->Object_0;
                assert(fields.len() == 1 && fields[0].1 is Text);
                assert(fields_stream(fields, owner, k, 1) == 0);
                assert(streams(fields[0].1, owner, k) == 0);
                assert(fields_stream(fields, owner, k, 0) == 0);
            }
        },
    }
}

/// A stream slot and an upload slot render no store.
proof fn slot_renders_nothing(v: Json)
    requires
        marker::form_of(v) is Collection || marker::form_of(v) is Upload,
    ensures
        forall|path: Path| #[trigger] renders(v, path) == 0,
{
    let fields = v->Object_0;
    assert(fields.len() == 1 && fields[0].1 is Text);
    assert forall|path: Path| #[trigger] renders(v, path) == 0 by {
        assert(fields_render(fields, path, 1) == 0);
        assert(renders(fields[0].1, path) == 0);
        assert(fields_render(fields, path, 0) == 0);
    }
}

/// The parts of an async object are documents of its fields.
proof fn async_parts(fields: Seq<(Chars, Json)>)
    requires
        Json::Object(fields).well_formed(),
        whole(Json::Object(fields)),
        marker::object_form(fields) is Async,
    ensures
        marker::object_form(fields) matches Form::Async { result, reason, .. } && {
            &&& result.well_formed() && whole(result)
            &&& reason.well_formed() && whole(reason)
        },
{
    keyed::key_index_meaning(fields, ASYNC_RESULT_KEY@);
    keyed::key_index_meaning(fields, ASYNC_REASON_KEY@);
    let r = keyed::key_index(fields, ASYNC_RESULT_KEY@) as int;
    let e = keyed::key_index(fields, ASYNC_REASON_KEY@) as int;
    assert(fields[r].1.well_formed() && whole(fields[r].1));
    assert(fields[e].1.well_formed() && whole(fields[e].1));
}

proof fn items_planted(
    s: Tx,
    id: NodeId,
    items: Seq<Json>,
    owner: Path,
    depth: nat,
    i: int,
    placed: Seq<NodeId>,
    ids: Seq<NodeId>,
)
    requires
        0 <= i <= items.len(),
        forall|k: int|
            0 <= k < items.len() ==> (#[trigger] items[k]).well_formed() && whole(items[k]),
        forall|path: Path| #[trigger] held(s, path) + items_render(items, path, i) <= 1,
        forall|key: (Path, Chars)| #[trigger]
            lent(s, key) + items_stream(items, owner, key, i) <= 1,
        has_room(s, items_values(items, i)),
        depth + model::nesting_of_items(items) <= MAX_DEPTH,
    ensures
        ({
            let (t, new) = model::place_items(
                s,
                id,
                Seq::empty(),
                items,
                owner,
                depth,
                i,
                placed,
                ids,
            );
            &&& new is Ok
            &&& forall|path: Path| #[trigger]
                held(t, path) == held(s, path) + items_render(items, path, i)
            &&& forall|key: (Path, Chars)| #[trigger]
                lent(t, key) == lent(s, key) + items_stream(items, owner, key, i)
            &&& adds(s, t, items_values(items, i))
            &&& sows(s, t, None, ids)
            &&& new->Ok_0.len() == placed.len() + items.len() - i
            &&& forall|j: int| 0 <= j < placed.len() ==> new->Ok_0[j] == #[trigger] placed[j]
            &&& forall|j: int|
                placed.len() <= j < new->Ok_0.len() ==> bears(
                    s,
                    t,
                    #[trigger] new->Ok_0[j],
                    items[i + j - placed.len()],
                    ids,
                )
        }),
    decreases model::nesting_of_items(items), 1int, items.len() - i,
{
    if i < items.len() {
        value::item_nesting(items, i);
        let v = items[i];
        let deep = model::deeper(depth);
        assert forall|p: Path| #[trigger] held(s, p) + renders(v, p) <= 1 by {
            assert(held(s, p) + items_render(items, p, i) <= 1);
        }
        assert forall|k: (Path, Chars)| #[trigger] lent(s, k) + streams(v, owner, k) <= 1 by {
            assert(lent(s, k) + items_stream(items, owner, k, i) <= 1);
        }
        child_planted(s, id, v, owner, deep, ids);
        let (t, child) = model::reconcile_child(s, id, None, v, owner, deep, ids);
        assert forall|p: Path| #[trigger] held(t, p) + items_render(items, p, i + 1) <= 1 by {
            assert(held(s, p) + items_render(items, p, i) <= 1);
            assert(held(t, p) == held(s, p) + renders(v, p));
        }
        assert forall|k: (Path, Chars)| #[trigger] lent(t, k) + items_stream(
            items,
            owner,
            k,
            i + 1,
        ) <= 1 by {
            assert(lent(s, k) + items_stream(items, owner, k, i) <= 1);
            assert(lent(t, k) == lent(s, k) + streams(v, owner, k));
        }
        let more = placed.push(child->Ok_0);
        items_planted(t, id, items, owner, depth, i + 1, more, ids);
        let u = model::place_items(t, id, Seq::empty(), items, owner, depth, i + 1, more, ids).0;
        assert forall|p: Path| #[trigger] held(u, p) == held(s, p) + items_render(
            items,
            p,
            i,
        ) by {
            assert(held(t, p) == held(s, p) + renders(v, p));
        }
        assert forall|k: (Path, Chars)| #[trigger] lent(u, k) == lent(s, k) + items_stream(
            items,
            owner,
            k,
            i,
        ) by {
            assert(lent(t, k) == lent(s, k) + streams(v, owner, k));
        }
        sows_on(s, t, u, None, ids);
        let new = model::place_items(t, id, Seq::empty(), items, owner, depth, i + 1, more, ids).1;
        assert forall|j: int| 0 <= j < placed.len() implies new->Ok_0[j]
            == #[trigger] placed[j] by {
            assert(more[j] == placed[j]);
        }
        assert forall|j: int| placed.len() <= j < new->Ok_0.len() implies bears(
            s,
            u,
            #[trigger] new->Ok_0[j],
            items[i + j - placed.len()],
            ids,
        ) by {
            if j == placed.len() {
                assert(more[j] == child->Ok_0);
                assert(new->Ok_0[j] == more[j]);
                bears_on(s, t, u, new->Ok_0[j], items[i], ids);
            } else {
                bears_on(s, t, u, new->Ok_0[j], items[i + j - placed.len()], ids);
            }
        }
    }
}

proof fn fields_planted(
    s: Tx,
    id: NodeId,
    fields: Seq<(Chars, Json)>,
    store: bool,
    owner: Path,
    depth: nat,
    i: int,
    placed: Seq<(Chars, NodeId)>,
    ids: Seq<NodeId>,
)
    requires
        0 <= i <= fields.len(),
        keyed::sorted(fields),
        store ==> (keyed::lookup(fields, STORE_ID_KEY@) matches Some(mark) && marker::store_path(
            mark,
        ) is Some),
        forall|k: int|
            0 <= k < fields.len() ==> (#[trigger] fields[k]).1.well_formed() && whole(fields[k].1),
        forall|path: Path| #[trigger] held(s, path) + fields_render(fields, path, i) <= 1,
        forall|key: (Path, Chars)| #[trigger]
            lent(s, key) + fields_stream(fields, owner, key, i) <= 1,
        has_room(s, fields_values(fields, i)),
        depth + model::nesting_of_fields(fields) <= MAX_DEPTH,
        placed.len() == guard::plain(fields, store, i).len(),
    ensures
        ({
            let (t, new) = model::place_fields(
                s,
                id,
                Seq::empty(),
                fields,
                store,
                owner,
                depth,
                i,
                placed,
                ids,
            );
            &&& new is Ok
            &&& forall|path: Path| #[trigger]
                held(t, path) == held(s, path) + fields_render(fields, path, i)
            &&& forall|key: (Path, Chars)| #[trigger]
                lent(t, key) == lent(s, key) + fields_stream(fields, owner, key, i)
            &&& adds(s, t, fields_values(fields, i))
            &&& sows(s, t, None, ids)
            &&& new->Ok_0.len() == guard::plain(fields, store, fields.len() as int).len()
            &&& forall|j: int| 0 <= j < placed.len() ==> new->Ok_0[j] == #[trigger] placed[j]
            &&& forall|j: int|
                placed.len() <= j < new->Ok_0.len() ==> (#[trigger] new->Ok_0[j]).0
                    == guard::plain(fields, store, fields.len() as int)[j].0 && bears(
                    s,
                    t,
                    new->Ok_0[j].1,
                    guard::plain(fields, store, fields.len() as int)[j].1,
                    ids,
                )
        }),
    decreases model::nesting_of_fields(fields), 1int, fields.len() - i,
{
    if i < fields.len() {
        value::field_nesting(fields, i);
        let v = fields[i].1;
        let deep = model::deeper(depth);
        let none = Seq::<(Chars, NodeId)>::empty();
        let skipped = store && fields[i].0 == STORE_ID_KEY@;
        let (t, more) = if skipped {
            (s, placed)
        } else {
            let (a, child) = model::reconcile_child(s, id, None, v, owner, deep, ids);
            (a, placed.push((fields[i].0, child->Ok_0)))
        };
        if skipped {
            keyed::sorted_key_index(fields, i);
            marker_renders_nothing(v, owner);
        } else {
            assert forall|p: Path| #[trigger] held(s, p) + renders(v, p) <= 1 by {
                assert(held(s, p) + fields_render(fields, p, i) <= 1);
            }
            assert forall|k: (Path, Chars)| #[trigger] lent(s, k) + streams(v, owner, k) <= 1 by {
                assert(lent(s, k) + fields_stream(fields, owner, k, i) <= 1);
            }
            child_planted(s, id, v, owner, deep, ids);
        }
        assert forall|p: Path| #[trigger] held(t, p) == held(s, p) + renders(v, p) by {}
        assert forall|k: (Path, Chars)| #[trigger] lent(t, k) == lent(s, k) + streams(v, owner, k) by {}
        assert forall|p: Path| #[trigger] held(t, p) + fields_render(fields, p, i + 1) <= 1 by {
            assert(held(s, p) + fields_render(fields, p, i) <= 1);
            assert(held(t, p) == held(s, p) + renders(v, p));
        }
        assert forall|k: (Path, Chars)| #[trigger] lent(t, k) + fields_stream(
            fields,
            owner,
            k,
            i + 1,
        ) <= 1 by {
            assert(lent(s, k) + fields_stream(fields, owner, k, i) <= 1);
            assert(lent(t, k) == lent(s, k) + streams(v, owner, k));
        }
        fields_planted(t, id, fields, store, owner, depth, i + 1, more, ids);
        let u = model::place_fields(
            t,
            id,
            none,
            fields,
            store,
            owner,
            depth,
            i + 1,
            more,
            ids,
        ).0;
        assert forall|p: Path| #[trigger] held(u, p) == held(s, p) + fields_render(
            fields,
            p,
            i,
        ) by {
            assert(held(t, p) == held(s, p) + renders(v, p));
        }
        assert forall|k: (Path, Chars)| #[trigger] lent(u, k) == lent(s, k) + fields_stream(
            fields,
            owner,
            k,
            i,
        ) by {
            assert(lent(t, k) == lent(s, k) + streams(v, owner, k));
        }
        sows_on(s, t, u, None, ids);
        let all = guard::plain(fields, store, fields.len() as int);
        let new = model::place_fields(
            t,
            id,
            none,
            fields,
            store,
            owner,
            depth,
            i + 1,
            more,
            ids,
        ).1;
        plain_first(fields, store, i + 1, fields.len() as int);
        assert forall|j: int| 0 <= j < placed.len() implies new->Ok_0[j]
            == #[trigger] placed[j] by {
            assert(more[j] == placed[j]);
        }
        assert forall|j: int| placed.len() <= j < new->Ok_0.len() implies (#[trigger] new->Ok_0[j]).0
            == all[j].0 && bears(s, u, new->Ok_0[j].1, all[j].1, ids) by {
            if j < more.len() {
                let here = guard::plain(fields, store, i + 1);
                assert(more[j] == new->Ok_0[j]);
                assert(here[j] == fields[i]);
                assert(all[j] == here[j]);
                bears_on(s, t, u, new->Ok_0[j].1, all[j].1, ids);
            } else {
                bears_on(s, t, u, new->Ok_0[j].1, all[j].1, ids);
            }
        }
    }
}

/// Writing a document into the root of a tree that holds nothing yet.
pub proof fn root_planted(s: Tx, v: Json, ids: Seq<NodeId>)
    requires
        v.well_formed(),
        whole(v),
        forall|path: Path| #[trigger] renders(v, path) <= 1,
        forall|key: (Path, Chars)| #[trigger] streams(v, Seq::empty(), key) <= 1,
        value::nesting(v) <= MAX_DEPTH,
        values(v) <= MAX_NODES,
        s.nodes.dom() == Set::<NodeId>::empty().insert(s.root),
        s.nodes[s.root].kind == Kind::Null,
        s.nodes[s.root].parent is None,
        s.stores == Map::<Path, NodeId>::empty(),
        s.streams == Map::<(Path, Chars), NodeId>::empty(),
        s.nodes[s.root].sem == Sem::Null,
        s.settle == Map::<NodeId, Sem>::empty(),
        shape::unused(s, ids),
    ensures
        ({
            let (t, done) = model::reconcile(s, s.root, v, Seq::empty(), 0, ids);
            &&& done is Ok
            &&& t.pending == s.pending
            &&& t.carry_order == s.carry_order
            &&& forall|path: Path| #[trigger] t.stores.contains_key(path) <==> renders(v, path) > 0
            &&& t.allocated.len() <= ids.len() ==> {
                &&& t.live(s.root)
                &&& node::wire(t.nodes[s.root].sem) == reading::normal(v)
                &&& t.nodes[s.root].sem == t.shallow(s.root)
                &&& forall|kid: NodeId| #[trigger]
                    t.kids(s.root).contains(kid) ==> !t.settle.contains_key(kid)
                &&& t.settle.contains_key(s.root) ==> t.settle[s.root] == Sem::Null
            }
        }),
{
    let id = s.root;
    assert(s.live(id));
    let (t, done) = model::reconcile(s, id, v, Seq::empty(), 0, ids);
    if model::unchanged(s.kind(id), marker::form_of(v)) {
        assert(marker::form_of(v) is Null);
        assert forall|path: Path| #[trigger] renders(v, path) == 0 by {}
    } else {
        let d = s.touch_dirty(id);
        reveal_with_fuel(Tx::dirty_up, 3);
        let gone = d.kids(id);
        assert(gone =~= Seq::<NodeId>::empty());
        let r = d.put_kind(id, Kind::Null).release_each(gone, 0);
        assert(r.nodes.dom() =~= s.nodes.dom());
        assert(t == model::install(r, id, v, Seq::empty(), 0, ids).0);
        assert forall|path: Path| #[trigger] held(r, path) + renders(v, path) <= 1 by {
            assert(renders(v, path) <= 1);
        }
        assert forall|key: (Path, Chars)| #[trigger] lent(r, key) + streams(v, Seq::empty(), key)
            <= 1 by {
            assert(streams(v, Seq::empty(), key) <= 1);
        }
        install_planted(r, id, v, Seq::empty(), 0, ids);
        assert(r.settle =~= Map::<NodeId, Sem>::empty().insert(id, Sem::Null));
        assert(r.allocated == s.allocated);
        assert(shape::unused(r, ids)) by {
            assert(forall|x: NodeId| #[trigger] r.live(x) == s.live(x)) by {
                assert(forall|x: NodeId| r.nodes.dom().contains(x) == s.nodes.dom().contains(x));
            }
        }
        assert(r.live(id)) by {
            assert(r.nodes.dom().contains(id));
        }
        assert forall|path: Path| #[trigger] t.stores.contains_key(path) <==> renders(v, path)
            > 0 by {
            assert(held(t, path) == held(r, path) + renders(v, path));
        }
    }
}

} // verus!
