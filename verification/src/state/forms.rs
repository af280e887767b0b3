//! What documents stand for, how values are rendered, and what a view of a node sees.

use vstd::prelude::*;

use crate::state::commit;
use crate::state::journal::Tree;
use crate::state::keyed;
use crate::state::marker;
use crate::state::marker::Form;
use crate::state::node;
use crate::state::node::{AsyncStatus, Kind, NodeId, Sem};
use crate::state::pointer;
use crate::state::reading;
use crate::state::state;
use crate::state::text::Chars;
use crate::state::value::Json;
use crate::state::wire::Path;

verus! {

// ------------------------------------------------------------------- what it stands for

/// Whether a document is an object of one key that maps to a text.
pub open spec fn lone_mark(fields: Seq<(Chars, Json)>, key: Chars, name: Chars) -> bool {
    fields == seq![(key, Json::Text(name))]
}

/// Whether a document is marked as a slot of a stream or of an upload.
pub open spec fn slot_mark(fields: Seq<(Chars, Json)>) -> bool {
    ||| exists|name: Chars| #[trigger] lone_mark(fields, "__musubi_stream__"@, name)
    ||| exists|name: Chars| #[trigger] lone_mark(fields, "__musubi_upload__"@, name)
}

/// Whether a document is marked as async: its marker is `true`, and its status is one of
/// the three words.
pub open spec fn async_mark(fields: Seq<(Chars, Json)>, word: Chars) -> bool {
    &&& fields.contains(("__musubi_async__"@, Json::Bool(true)))
    &&& fields.contains(("status"@, Json::Text(word)))
    &&& word == "loading"@ || word == "ok"@ || word == "failed"@
}

/// Whether a document is marked as the store of a path.
pub open spec fn store_mark(fields: Seq<(Chars, Json)>, path: Path) -> bool {
    fields.contains(
        (
            "__musubi_store_id__"@,
            Json::Array(Seq::new(path.len(), |i: int| Json::Text(path[i]))),
        ),
    )
}

/// Whether a value is what a key maps to, or `null` where the key is not there.
pub open spec fn value_at(fields: Seq<(Chars, Json)>, key: Chars, v: Json) -> bool {
    fields.contains((key, v)) || (v == Json::Null && forall|i: int|
        0 <= i < fields.len() ==> (#[trigger] fields[i]).0 != key)
}

proof fn looked_up(fields: Seq<(Chars, Json)>, key: Chars, v: Json)
    requires
        keyed::sorted(fields),
    ensures
        keyed::lookup(fields, key) == Some(v) <==> fields.contains((key, v)),
        value_at(fields, key, v) ==> marker::or_null(keyed::lookup(fields, key)) == v,
{
    keyed::key_index_meaning(fields, key);
    let at = keyed::key_index(fields, key) as int;
    if fields.contains((key, v)) {
        let i = choose|i: int| 0 <= i < fields.len() && fields[i] == (key, v);
        keyed::sorted_key_index(fields, i);
    }
    if keyed::lookup(fields, key) == Some(v) {
        assert(fields[at] == (key, v));
    }
}

proof fn marks_differ()
    ensures
        "__musubi_stream__"@ != "__musubi_upload__"@,
        "__musubi_stream__"@ != "__musubi_async__"@,
        "__musubi_upload__"@ != "__musubi_async__"@,
        "__musubi_stream__"@ != "__musubi_store_id__"@,
        "__musubi_upload__"@ != "__musubi_store_id__"@,
{
    reveal_strlit("__musubi_stream__");
    reveal_strlit("__musubi_upload__");
    reveal_strlit("__musubi_async__");
    reveal_strlit("__musubi_store_id__");
    assert("__musubi_stream__"@[9] == 's');
    assert("__musubi_upload__"@[9] == 'u');
    assert("__musubi_async__"@[9] == 'a');
    assert("__musubi_stream__"@.len() != "__musubi_store_id__"@.len());
    assert("__musubi_upload__"@.len() != "__musubi_store_id__"@.len());
}

proof fn lone_is(fields: Seq<(Chars, Json)>, key: Chars)
    ensures
        marker::sole_marker(fields, key) matches Some(name) ==> lone_mark(fields, key, name),
        forall|name: Chars| #[trigger]
            lone_mark(fields, key, name) ==> marker::sole_marker(fields, key) == Some(name),
{
    if let Some(name) = marker::sole_marker(fields, key) {
        assert(fields =~= seq![(key, Json::Text(name))]);
    }
}

/// A document of one key, a stream's or an upload's marker, with a name, is that slot.
pub proof fn a_slot_is_its_marker(name: Chars)
    ensures
        marker::form_of(Json::Object(seq![("__musubi_stream__"@, Json::Text(name))]))
            == (Form::Collection { name }),
        marker::form_of(Json::Object(seq![("__musubi_upload__"@, Json::Text(name))]))
            == (Form::Upload { name }),
{
    marks_differ();
}

/// An object marked as async is an async node, of the status that its word names, with the
/// result and the reason it has, `null` where it has none; whatever else it holds.
pub proof fn an_async_document(
    fields: Seq<(Chars, Json)>,
    word: Chars,
    result: Json,
    reason: Json,
)
    requires
        keyed::sorted(fields),
        async_mark(fields, word),
        value_at(fields, "result"@, result),
        value_at(fields, "reason"@, reason),
    ensures
        marker::form_of(Json::Object(fields)) matches Form::Async {
            status,
            result: first,
            reason: second,
        } && {
            &&& first == result
            &&& second == reason
            &&& status == AsyncStatus::Loading <==> word == "loading"@
            &&& status == AsyncStatus::Okay <==> word == "ok"@
            &&& status == AsyncStatus::Failed <==> word == "failed"@
        },
{
    looked_up(fields, "__musubi_async__"@, Json::Bool(true));
    looked_up(fields, "status"@, Json::Text(word));
    looked_up(fields, "result"@, result);
    looked_up(fields, "reason"@, reason);
    reveal_strlit("loading");
    reveal_strlit("ok");
    reveal_strlit("failed");
    reveal_strlit("status");
    reveal_strlit("__musubi_async__");
    assert("loading"@.len() == 7 && "ok"@.len() == 2 && "failed"@.len() == 6);
    assert("status"@.len() != "__musubi_async__"@.len());
    let i = choose|i: int|
        0 <= i < fields.len() && fields[i] == ("__musubi_async__"@, Json::Bool(true));
    let j = choose|j: int| 0 <= j < fields.len() && fields[j] == ("status"@, Json::Text(word));
    assert(i != j);
    assert(fields.len() >= 2);
}

/// An object marked as a store, and not as async, is that store, with all its fields.
pub proof fn a_store_document(fields: Seq<(Chars, Json)>, path: Path)
    requires
        keyed::sorted(fields),
        store_mark(fields, path),
        forall|word: Chars| !#[trigger] async_mark(fields, word),
    ensures
        marker::form_of(Json::Object(fields)) == (Form::Store { id: path, fields }),
{
    let mark = Json::Array(Seq::new(path.len(), |i: int| Json::Text(path[i])));
    marks_differ();
    looked_up(fields, "__musubi_store_id__"@, mark);
    lone_is(fields, "__musubi_stream__"@);
    lone_is(fields, "__musubi_upload__"@);
    let i = choose|i: int| 0 <= i < fields.len() && fields[i] == ("__musubi_store_id__"@, mark);
    assert(marker::sole_marker(fields, "__musubi_stream__"@) is None) by {
        if fields.len() == 1 {
            assert(i == 0);
        }
    }
    assert(marker::sole_marker(fields, "__musubi_upload__"@) is None) by {
        if fields.len() == 1 {
            assert(i == 0);
        }
    }
    not_async(fields);
    let items = mark->Array_0;
    assert(marker::store_path(mark) is Some);
    assert(Seq::new(items.len(), |k: int| items[k]->Text_0) =~= path);
}

proof fn not_async(fields: Seq<(Chars, Json)>)
    requires
        keyed::sorted(fields),
        forall|word: Chars| !#[trigger] async_mark(fields, word),
    ensures
        marker::async_status_of(fields) is None,
{
    looked_up(fields, "__musubi_async__"@, Json::Bool(true));
    if let Some(Json::Text(word)) = keyed::lookup(fields, "status"@) {
        looked_up(fields, "status"@, Json::Text(word));
        assert(!async_mark(fields, word));
    }
}

/// Any other object is plain data, with all its fields.
pub proof fn a_plain_document(fields: Seq<(Chars, Json)>)
    requires
        keyed::sorted(fields),
        !slot_mark(fields),
        forall|word: Chars| !#[trigger] async_mark(fields, word),
        forall|path: Path| !#[trigger] store_mark(fields, path),
    ensures
        marker::form_of(Json::Object(fields)) == Form::Object(fields),
{
    lone_is(fields, "__musubi_stream__"@);
    lone_is(fields, "__musubi_upload__"@);
    if let Some(name) = marker::sole_marker(fields, "__musubi_stream__"@) {
        assert(lone_mark(fields, "__musubi_stream__"@, name));
        assert(slot_mark(fields));
    }
    if let Some(name) = marker::sole_marker(fields, "__musubi_upload__"@) {
        assert(lone_mark(fields, "__musubi_upload__"@, name));
        assert(slot_mark(fields));
    }
    not_async(fields);
    assert(marker::sole_marker(fields, "__musubi_stream__"@) is None);
    assert(marker::sole_marker(fields, "__musubi_upload__"@) is None);
    if let Some(mark) = keyed::lookup(fields, "__musubi_store_id__"@) {
        looked_up(fields, "__musubi_store_id__"@, mark);
        if let Some(path) = marker::store_path(mark) {
            let items = mark->Array_0;
            assert forall|i: int| 0 <= i < items.len() implies #[trigger] items[i] == Json::Text(
                path[i],
            ) by {
                assert(items[i] is Text);
            }
            assert(items =~= Seq::new(path.len(), |i: int| Json::Text(path[i])));
            assert(mark == Json::Array(items));
            assert(store_mark(fields, path));
        }
    }
}

/// What is no object stands for itself.
pub proof fn a_bare_document(flag: bool, text: Chars, items: Seq<Json>)
    ensures
        marker::form_of(Json::Null) == Form::Null,
        marker::form_of(Json::Bool(flag)) == Form::Bool(flag),
        marker::form_of(Json::Text(text)) == Form::Text(text),
        marker::form_of(Json::Array(items)) == Form::Array(items),
{
}

// ------------------------------------------------------------------- how it is rendered

/// A stream is rendered as its marker on the wire, and hydrated as the list of its items;
/// an upload is its marker either way.
pub proof fn slots_are_rendered(name: Chars, owner: Path, items: Seq<(Chars, Sem)>)
    ensures
        node::wire(Sem::Collection { name, owner, items }) == Json::Object(
            seq![("__musubi_stream__"@, Json::Text(name))],
        ),
        node::hydrated(Sem::Collection { name, owner, items }) == Json::Array(
            Seq::new(items.len(), |i: int| node::hydrated(items[i].1)),
        ),
        node::wire(Sem::Upload { name, owner }) == Json::Object(
            seq![("__musubi_upload__"@, Json::Text(name))],
        ),
        node::hydrated(Sem::Upload { name, owner }) == Json::Object(
            seq![("__musubi_upload__"@, Json::Text(name))],
        ),
{
    reveal_with_fuel(node::projected, 3);
    reveal_with_fuel(node::projected_fields, 3);
    let list = Seq::new(items.len(), |i: int| node::hydrated(items[i].1));
    let shown = node::hydrated(Sem::Collection { name, owner, items });
    assert(shown->Array_0 =~= list);
}

/// An array is rendered as the list of its elements, and an object key by key.
pub proof fn containers_are_rendered(items: Seq<Sem>, fields: Seq<(Chars, Sem)>)
    ensures
        node::wire(Sem::Array(items)) == Json::Array(
            Seq::new(items.len(), |i: int| node::wire(items[i])),
        ),
        node::hydrated(Sem::Array(items)) == Json::Array(
            Seq::new(items.len(), |i: int| node::hydrated(items[i])),
        ),
        node::wire(Sem::Object(fields)) == Json::Object(
            Seq::new(fields.len(), |i: int| (fields[i].0, node::wire(fields[i].1))),
        ),
        node::hydrated(Sem::Object(fields)) == Json::Object(
            Seq::new(fields.len(), |i: int| (fields[i].0, node::hydrated(fields[i].1))),
        ),
{
    reveal_with_fuel(node::projected, 3);
    reveal_with_fuel(node::projected_fields, 3);
    assert(node::wire(Sem::Array(items))->Array_0 =~= Seq::new(
        items.len(),
        |i: int| node::wire(items[i]),
    ));
    assert(node::hydrated(Sem::Array(items))->Array_0 =~= Seq::new(
        items.len(),
        |i: int| node::hydrated(items[i]),
    ));
    assert(node::wire(Sem::Object(fields))->Object_0 =~= Seq::new(
        fields.len(),
        |i: int| (fields[i].0, node::wire(fields[i].1)),
    ));
    assert(node::hydrated(Sem::Object(fields))->Object_0 =~= Seq::new(
        fields.len(),
        |i: int| (fields[i].0, node::hydrated(fields[i].1)),
    ));
}

proof fn one_more(list: Seq<(Chars, Json)>, key: Chars, v: Json)
    requires
        keyed::sorted(list),
        keyed::lookup(list, key) is None,
    ensures
        keyed::put(list, key, v).len() == list.len() + 1,
        keyed::sorted(keyed::put(list, key, v)),
        keyed::lookup(keyed::put(list, key, v), key) == Some(v),
{
    keyed::key_index_meaning(list, key);
    keyed::key_slot_meaning(list, key);
    keyed::put_sorted(list, key, v);
    keyed::put_lookup(list, key, v);
}

/// The word of a status.
pub open spec fn word_of(status: AsyncStatus) -> Chars {
    match status {
        AsyncStatus::Loading => "loading"@,
        AsyncStatus::Okay => "ok"@,
        AsyncStatus::Failed => "failed"@,
    }
}

proof fn async_rendered(status: AsyncStatus, result: Json, reason: Json)
    ensures
        ({
            let fields = node::async_fields(status, result, reason);
            &&& keyed::sorted(fields)
            &&& fields.len() == 4
            &&& fields.contains(("__musubi_async__"@, Json::Bool(true)))
            &&& fields.contains(("status"@, Json::Text(word_of(status))))
            &&& fields.contains(("result"@, result))
            &&& fields.contains(("reason"@, reason))
        }),
{
    reading::async_keys_differ();
    reveal_strlit("__musubi_async__");
    reveal_strlit("status");
    reveal_strlit("result");
    reveal_strlit("reason");
    let (m, w, r, e) = ("__musubi_async__"@, "status"@, "result"@, "reason"@);
    assert(m.len() == 16 && w.len() == 6 && r.len() == 6 && e.len() == 6);
    let word = Json::Text(word_of(status));
    let none = Seq::<(Chars, Json)>::empty();
    keyed::key_index_meaning(none, m);
    one_more(none, m, Json::Bool(true));
    let a = keyed::put(none, m, Json::Bool(true));
    keyed::put_others(none, m, Json::Bool(true), w);
    keyed::put_others(none, m, Json::Bool(true), r);
    keyed::put_others(none, m, Json::Bool(true), e);
    keyed::key_index_meaning(none, w);
    keyed::key_index_meaning(none, r);
    keyed::key_index_meaning(none, e);
    one_more(a, w, word);
    let b = keyed::put(a, w, word);
    keyed::put_others(a, w, word, m);
    keyed::put_others(a, w, word, r);
    keyed::put_others(a, w, word, e);
    one_more(b, r, result);
    let c = keyed::put(b, r, result);
    keyed::put_others(b, r, result, m);
    keyed::put_others(b, r, result, w);
    keyed::put_others(b, r, result, e);
    one_more(c, e, reason);
    let d = keyed::put(c, e, reason);
    keyed::put_others(c, e, reason, m);
    keyed::put_others(c, e, reason, w);
    keyed::put_others(c, e, reason, r);
    assert(node::async_fields(status, result, reason) == d);
    looked_up(d, m, Json::Bool(true));
    looked_up(d, w, word);
    looked_up(d, r, result);
    looked_up(d, e, reason);
}

/// Whether an object renders an async node: its marker, its status, its result and its
/// reason, and nothing else.
pub open spec fn renders_async(v: Json, status: AsyncStatus, result: Json, reason: Json) -> bool {
    v matches Json::Object(fields) && {
        &&& keyed::sorted(fields)
        &&& fields.len() == 4
        &&& fields.contains(("__musubi_async__"@, Json::Bool(true)))
        &&& fields.contains(("status"@, Json::Text(word_of(status))))
        &&& fields.contains(("result"@, result))
        &&& fields.contains(("reason"@, reason))
    }
}

/// An async node is rendered as its marker, its status, its result and its reason.
pub proof fn an_async_node_is_rendered(status: AsyncStatus, result: Sem, reason: Sem)
    ensures
        renders_async(
            node::wire(
                Sem::Async { status, result: Box::new(result), reason: Box::new(reason) },
            ),
            status,
            node::wire(result),
            node::wire(reason),
        ),
        renders_async(
            node::hydrated(
                Sem::Async { status, result: Box::new(result), reason: Box::new(reason) },
            ),
            status,
            node::hydrated(result),
            node::hydrated(reason),
        ),
{
    reveal_with_fuel(node::projected, 3);
    async_rendered(status, node::wire(result), node::wire(reason));
    async_rendered(status, node::hydrated(result), node::hydrated(reason));
}

/// A store is rendered as its fields, key by key, and its id.
pub proof fn a_store_is_rendered(path: Path, fields: Seq<(Chars, Sem)>, i: int)
    requires
        keyed::sorted(fields),
        0 <= i < fields.len(),
        forall|j: int| 0 <= j < fields.len() ==> (#[trigger] fields[j]).0 != "__musubi_store_id__"@,
    ensures
        ({
            let mark = Json::Array(Seq::new(path.len(), |k: int| Json::Text(path[k])));
            let shown = node::wire(Sem::Store { id: path, fields });
            let hydrated = node::hydrated(Sem::Store { id: path, fields });
            &&& shown is Object && hydrated is Object
            &&& shown->Object_0.len() == fields.len() + 1
            &&& hydrated->Object_0.len() == fields.len() + 1
            &&& shown->Object_0.contains(("__musubi_store_id__"@, mark))
            &&& hydrated->Object_0.contains(("__musubi_store_id__"@, mark))
            &&& shown->Object_0.contains((fields[i].0, node::wire(fields[i].1)))
            &&& hydrated->Object_0.contains((fields[i].0, node::hydrated(fields[i].1)))
        }),
{
    containers_are_rendered(Seq::empty(), fields);
    let key = "__musubi_store_id__"@;
    let mark = Json::Array(Seq::new(path.len(), |k: int| Json::Text(path[k])));
    assert(marker::path_json(path) == mark);
    let wired = node::wire(Sem::Object(fields))->Object_0;
    let filled = node::hydrated(Sem::Object(fields))->Object_0;
    reveal_with_fuel(node::projected, 3);
    reveal_with_fuel(node::projected_fields, 3);
    store_put(wired, fields[i].0, node::wire(fields[i].1), mark, i);
    store_put(filled, fields[i].0, node::hydrated(fields[i].1), mark, i);
    assert(node::wire(Sem::Store { id: path, fields })->Object_0 == keyed::put(wired, key, mark));
    assert(node::hydrated(Sem::Store { id: path, fields })->Object_0 == keyed::put(
        filled,
        key,
        mark,
    ));
}

proof fn store_put(list: Seq<(Chars, Json)>, other: Chars, v: Json, mark: Json, i: int)
    requires
        keyed::sorted(list),
        0 <= i < list.len(),
        list[i] == (other, v),
        forall|j: int| 0 <= j < list.len() ==> (#[trigger] list[j]).0 != "__musubi_store_id__"@,
    ensures
        ({
            let new = keyed::put(list, "__musubi_store_id__"@, mark);
            &&& new.len() == list.len() + 1
            &&& new.contains(("__musubi_store_id__"@, mark))
            &&& new.contains((other, v))
        }),
{
    let key = "__musubi_store_id__"@;
    keyed::key_index_meaning(list, key);
    one_more(list, key, mark);
    let new = keyed::put(list, key, mark);
    looked_up(new, key, mark);
    keyed::sorted_key_index(list, i);
    keyed::put_others(list, key, mark, other);
    looked_up(new, other, v);
}

// ---------------------------------------------------------------------- what a view sees

/// A view sees what the node is: of an async node, its status and its result, unless that
/// is `null`; of any other, loading and no result.
pub proof fn an_async_view(tree: Tree, id: NodeId, status: AsyncStatus, result: NodeId, reason: NodeId)
    requires
        tree.nodes.contains_key(id),
        tree.nodes[id].kind == (Kind::Async { status, result, reason }),
        tree.nodes.contains_key(result),
    ensures
        state::status_in(tree, id) == status,
        tree.nodes[result].kind == Kind::Null ==> state::result_in(tree, id) is None,
        tree.nodes[result].kind != Kind::Null ==> state::result_in(tree, id) == Some(result),
        state::child_in(tree, id, "result"@) == Some(result),
        state::child_in(tree, id, "reason"@) == Some(reason),
{
    reading::async_keys_differ();
}

/// What is no async node, or is gone, reads as loading, and has no result.
pub proof fn no_async_view(tree: Tree, id: NodeId)
    requires
        !tree.nodes.contains_key(id) || !(tree.nodes[id].kind is Async),
    ensures
        state::status_in(tree, id) == AsyncStatus::Loading,
{
}

/// A list view sees the elements of an array, and the rows of a stream, in order; of any
/// other node, and of one that is gone, none.
pub proof fn a_list_view(tree: Tree, id: NodeId, i: int)
    ensures
        !tree.nodes.contains_key(id) ==> state::elements_in(tree, id).len() == 0
            && state::rows_in(tree, id).len() == 0,
        tree.nodes.contains_key(id) ==> match tree.nodes[id].kind {
            Kind::Array(items) => state::elements_in(tree, id) == items && state::rows_in(
                tree,
                id,
            ).len() == 0,
            Kind::Collection { items, .. } => state::rows_in(tree, id) == items
                && state::elements_in(tree, id).len() == items.len() && (0 <= i < items.len()
                ==> state::elements_in(tree, id)[i] == items[i].1),
            _ => state::elements_in(tree, id).len() == 0 && state::rows_in(tree, id).len() == 0,
        },
{
}

/// A keyed view sees a child under exactly the keys that an object or a store has.
pub proof fn a_keyed_view(
    tree: Tree,
    id: NodeId,
    fields: Seq<(Chars, NodeId)>,
    key: Chars,
    child: NodeId,
)
    requires
        tree.nodes.contains_key(id),
        tree.nodes[id].kind.fields() == Some(fields),
        keyed::sorted(fields),
    ensures
        state::child_in(tree, id, key) == Some(child) <==> fields.contains((key, child)),
{
    keyed::key_index_meaning(fields, key);
    let at = keyed::key_index(fields, key) as int;
    if fields.contains((key, child)) {
        let i = choose|i: int| 0 <= i < fields.len() && fields[i] == (key, child);
        keyed::sorted_key_index(fields, i);
    }
    if keyed::lookup(fields, key) == Some(child) {
        assert(fields[at] == (key, child));
    }
}

/// A store view and an upload view see what the node is, and nothing in any other node.
pub proof fn slot_views(tree: Tree, id: NodeId, path: Path, name: Chars)
    ensures
        state::store_in(tree, id) == Some(path) <==> tree.nodes.contains_key(id) && (
        tree.nodes[id].kind matches Kind::Store { id: own, .. } && own == path),
        state::upload_in(tree, id) == Some((path, name)) <==> tree.nodes.contains_key(id) && (
        tree.nodes[id].kind matches Kind::Upload { name: own, owner } && own == name && owner
            == path),
        state::is_null(tree, id) <==> tree.nodes.contains_key(id) && tree.nodes[id].kind is Null,
        state::alive(tree, id) <==> tree.nodes.contains_key(id) && !tree.closed,
{
}

/// Revisions count up, one by one.
pub proof fn revisions_count_up(revision: u64)
    ensures
        revision < u64::MAX ==> commit::bumped(revision) == revision + 1,
        revision == u64::MAX ==> commit::bumped(revision) == 0,
{
}

// ------------------------------------------------------------------------- the pointers

/// A token is read from the left: what holds no tilde stands for itself, `~0` is a tilde,
/// `~1` is a slash, and any other tilde is a tilde, with what follows it read on its own.
pub proof fn a_token_is_read(plain: Chars, rest: Chars)
    requires
        forall|i: int| 0 <= i < plain.len() ==> #[trigger] plain[i] != '~',
    ensures
        pointer::unescaped(plain) == plain,
        pointer::unescaped(plain + seq!['~', '0'] + rest) == plain + seq!['~']
            + pointer::unescaped(rest),
        pointer::unescaped(plain + seq!['~', '1'] + rest) == plain + seq!['/']
            + pointer::unescaped(rest),
        rest.len() == 0 || (rest[0] != '0' && rest[0] != '1') ==> pointer::unescaped(
            plain + seq!['~'] + rest,
        ) == plain + seq!['~'] + pointer::unescaped(rest),
    decreases plain.len(),
{
    reveal_with_fuel(pointer::unescaped, 2);
    let zero = plain + seq!['~', '0'] + rest;
    let one = plain + seq!['~', '1'] + rest;
    let stray = plain + seq!['~'] + rest;
    if plain.len() == 0 {
        assert(zero.skip(2) =~= rest);
        assert(one.skip(2) =~= rest);
        assert(stray.skip(1) =~= rest);
        assert(plain + seq!['~'] + pointer::unescaped(rest) =~= seq!['~'] + pointer::unescaped(
            rest,
        ));
        assert(plain + seq!['/'] + pointer::unescaped(rest) =~= seq!['/'] + pointer::unescaped(
            rest,
        ));
        if rest.len() == 0 {
            assert(stray =~= seq!['~']);
            assert(seq!['~'] + pointer::unescaped(rest) =~= seq!['~']);
        }
    } else {
        let tail = plain.skip(1);
        let head = seq![plain[0]];
        assert forall|i: int| 0 <= i < tail.len() implies #[trigger] tail[i] != '~' by {
            assert(plain[i + 1] != '~');
        }
        a_token_is_read(tail, rest);
        assert(plain =~= head + tail);
        assert(zero.skip(1) =~= tail + seq!['~', '0'] + rest);
        assert(one.skip(1) =~= tail + seq!['~', '1'] + rest);
        assert(stray.skip(1) =~= tail + seq!['~'] + rest);
        let u = pointer::unescaped(rest);
        assert(head + (tail + seq!['~'] + u) =~= plain + seq!['~'] + u);
        assert(head + (tail + seq!['/'] + u) =~= plain + seq!['/'] + u);
    }
}

} // verus!
