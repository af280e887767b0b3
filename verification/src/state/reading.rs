//! What a document reads back as.

use vstd::prelude::*;

use crate::state::folding;
use crate::state::guard;
use crate::state::keyed;
use crate::state::marker;
use crate::state::marker::{
    Form, ASYNC_MARKER_KEY, ASYNC_REASON_KEY, ASYNC_RESULT_KEY, ASYNC_STATUS_KEY, STORE_ID_KEY,
    STREAM_MARKER_KEY, UPLOAD_MARKER_KEY,
};
use crate::state::model;
use crate::state::model::{Tx, MAX_DEPTH};
use crate::state::node;
use crate::state::node::{Kind, NodeId, Projection, Sem};
use crate::state::shape;
use crate::state::text;
use crate::state::text::Chars;
use crate::state::value;
use crate::state::value::Json;
use crate::state::wire::Path;

verus! {

/// The document under a key, as it reads back; absent is `null`.
pub open spec fn normal_at(fields: Seq<(Chars, Json)>, key: Chars) -> Json
    decreases fields, 0int,
{
    if keyed::key_index(fields, key) < fields.len() {
        normal(fields[keyed::key_index(fields, key) as int].1)
    } else {
        Json::Null
    }
}

/// A list of fields, as they read back.
pub open spec fn normal_fields(fields: Seq<(Chars, Json)>) -> Seq<(Chars, Json)>
    decreases fields, 0int,
{
    Seq::new(
        fields.len(),
        |i: int|
            if 0 <= i < fields.len() {
                (fields[i].0, normal(fields[i].1))
            } else {
                (Seq::empty(), Json::Null)
            },
    )
}

/// A document as it reads back: an async object has its four keys and no other,
/// and everything else is as it was.
pub open spec fn normal(v: Json) -> Json
    decreases v, 1int,
{
    match v {
        Json::Array(items) => Json::Array(
            Seq::new(
                items.len(),
                |i: int|
                    if 0 <= i < items.len() {
                        normal(items[i])
                    } else {
                        Json::Null
                    },
            ),
        ),
        Json::Object(fields) => match marker::object_form(fields) {
            Form::Collection { .. } => v,
            Form::Upload { .. } => v,
            Form::Async { status, .. } => Json::Object(
                node::async_fields(
                    status,
                    normal_at(fields, ASYNC_RESULT_KEY@),
                    normal_at(fields, ASYNC_REASON_KEY@),
                ),
            ),
            _ => Json::Object(normal_fields(fields)),
        },
        _ => v,
    }
}

/// Fields in order, each of ordered keys.
pub open spec fn neat(fields: Seq<(Chars, Json)>) -> bool {
    keyed::sorted(fields) && forall|i: int|
        0 <= i < fields.len() ==> (#[trigger] fields[i]).1.well_formed()
}

proof fn put_neat(fields: Seq<(Chars, Json)>, key: Chars, v: Json)
    requires
        neat(fields),
        v.well_formed(),
    ensures
        neat(keyed::put(fields, key, v)),
{
    keyed::put_sorted(fields, key, v);
    keyed::key_index_meaning(fields, key);
    keyed::key_slot_meaning(fields, key);
    let new = keyed::put(fields, key, v);
    assert forall|i: int| 0 <= i < new.len() implies (#[trigger] new[i]).1.well_formed() by {
        if keyed::has_key(fields, key) {
            if i != keyed::key_index(fields, key) {
                assert(new[i] == fields[i]);
            }
        } else {
            let at = keyed::key_slot(fields, key) as int;
            if i < at {
                assert(new[i] == fields[i]);
            } else if i > at {
                assert(new[i] == fields[i - 1]);
            }
        }
    }
}

proof fn without_neat(fields: Seq<(Chars, Json)>, key: Chars)
    requires
        neat(fields),
    ensures
        neat(keyed::without(fields, key)),
{
    keyed::without_sorted(fields, key);
    keyed::key_index_meaning(fields, key);
    let new = keyed::without(fields, key);
    assert forall|i: int| 0 <= i < new.len() implies (#[trigger] new[i]).1.well_formed() by {
        if keyed::has_key(fields, key) {
            let at = keyed::key_index(fields, key) as int;
            if i < at {
                assert(new[i] == fields[i]);
            } else {
                assert(new[i] == fields[i + 1]);
            }
        }
    }
}

proof fn async_neat(status: node::AsyncStatus, result: Json, reason: Json)
    requires
        result.well_formed(),
        reason.well_formed(),
    ensures
        neat(node::async_fields(status, result, reason)),
{
    let none = Seq::<(Chars, Json)>::empty();
    let marked = keyed::put(none, ASYNC_MARKER_KEY@, Json::Bool(true));
    put_neat(none, ASYNC_MARKER_KEY@, Json::Bool(true));
    let named = keyed::put(marked, ASYNC_STATUS_KEY@, Json::Text(status.wire_text()));
    put_neat(marked, ASYNC_STATUS_KEY@, Json::Text(status.wire_text()));
    put_neat(named, ASYNC_RESULT_KEY@, result);
    put_neat(keyed::put(named, ASYNC_RESULT_KEY@, result), ASYNC_REASON_KEY@, reason);
}

/// The document of a path is of ordered keys.
pub proof fn path_neat(path: Path)
    ensures
        marker::path_json(path).well_formed(),
{
    reveal_with_fuel(Json::well_formed, 2);
}

/// What the wire renders of nodes whose keys are in order has its keys in order.
pub proof fn wire_neat(s: Tx, id: NodeId, levels: nat)
    requires
        shape::tidied(s),
    ensures
        node::wire(model::deep_value(s.nodes, id, levels)).well_formed(),
    decreases levels,
{
    reveal_with_fuel(Json::well_formed, 3);
    if levels > 0 && s.live(id) {
        let kind = s.kind(id);
        let kids = kind.kids();
        let parts = model::deep_values(s.nodes, kids, (levels - 1) as nat);
        assert forall|i: int| 0 <= i < kids.len() implies node::wire(
            #[trigger] parts[i],
        ).well_formed() by {
            wire_neat(s, kids[i], (levels - 1) as nat);
        }
        match kind {
            Kind::Object(fields) => {
                let sems = node::paired(fields, parts);
                fields_neat(fields, parts);
            },
            Kind::Store { id: path, fields } => {
                let sems = node::paired(fields, parts);
                fields_neat(fields, parts);
                path_neat(path);
                put_neat(
                    node::projected_fields(sems, Projection::Wire),
                    STORE_ID_KEY@,
                    marker::path_json(path),
                );
            },
            Kind::Async { status, .. } => {
                assert(node::wire(parts[0]).well_formed() && node::wire(parts[1]).well_formed());
                async_neat(status, node::wire(parts[0]), node::wire(parts[1]));
            },
            Kind::Array(items) => {
                let docs = node::wire(model::deep_value(s.nodes, id, levels))->Array_0;
                assert forall|i: int| 0 <= i < docs.len() implies (
                #[trigger] docs[i]).well_formed() by {
                    assert(docs[i] == node::wire(parts[i]));
                }
            },
            _ => {},
        }
    }
}

proof fn fields_neat(fields: Seq<(Chars, NodeId)>, parts: Seq<Sem>)
    requires
        keyed::sorted(fields),
        parts.len() == fields.len(),
        forall|i: int|
            0 <= i < parts.len() ==> node::wire(#[trigger] parts[i]).well_formed(),
    ensures
        neat(node::projected_fields(node::paired(fields, parts), Projection::Wire)),
{
    let docs = node::projected_fields(node::paired(fields, parts), Projection::Wire);
    assert forall|i: int, j: int| 0 <= i < j < docs.len() implies text::text_less(
        #[trigger] docs[i].0,
        #[trigger] docs[j].0,
    ) by {
        assert(text::text_less(fields[i].0, fields[j].0));
    }
    assert forall|i: int| 0 <= i < docs.len() implies (#[trigger] docs[i]).1.well_formed() by {
        assert(docs[i].1 == node::wire(parts[i]));
    }
}

/// A document with another marker is of ordered keys.
pub proof fn remarked_neat(v: Json, mark: Option<Json>, path: Chars)
    requires
        v.well_formed(),
        mark matches Some(m) ==> m.well_formed(),
        model::remarked(v, mark, path) is Ok,
    ensures
        model::remarked(v, mark, path)->Ok_0.well_formed(),
{
    if let Json::Object(fields) = v {
        match mark {
            Some(m) => {
                put_neat(fields, STORE_ID_KEY@, m);
            },
            None => {
                without_neat(fields, STORE_ID_KEY@);
            },
        }
    }
}

// ---------------------------------------------------------------- reading back

/// The fields that are placed, and the store marker among them.
proof fn plain_put(fields: Seq<(Chars, Json)>, i: int)
    requires
        keyed::sorted(fields),
        0 <= i <= fields.len(),
        keyed::has_key(fields, STORE_ID_KEY@),
    ensures
        ({
            let at = keyed::key_index(fields, STORE_ID_KEY@) as int;
            guard::plain(fields, true, i) == (if i <= at {
                fields.take(i)
            } else {
                fields.take(i).remove(at)
            })
        }),
    decreases i,
{
    let at = keyed::key_index(fields, STORE_ID_KEY@) as int;
    keyed::key_index_meaning(fields, STORE_ID_KEY@);
    if i > 0 {
        plain_put(fields, i - 1);
        assert(fields.take(i) =~= fields.take(i - 1).push(fields[i - 1]));
        if i - 1 < at {
            assert(fields[i - 1].0 != STORE_ID_KEY@);
        } else if i - 1 == at {
            assert(fields.take(i).remove(at) =~= fields.take(i - 1));
        } else {
            assert(fields[i - 1].0 != STORE_ID_KEY@) by {
                assert(text::text_less(fields[at].0, fields[i - 1].0));
                text::text_less_irreflexive(fields[at].0);
            }
            assert(fields.take(i - 1).remove(at).push(fields[i - 1]) =~= fields.take(i).remove(at));
        }
    } else {
        assert(guard::plain(fields, true, 0) =~= fields.take(0));
    }
}

proof fn plain_all(fields: Seq<(Chars, Json)>, i: int)
    requires
        0 <= i <= fields.len(),
    ensures
        guard::plain(fields, false, i) == fields.take(i),
    decreases i,
{
    if i > 0 {
        plain_all(fields, i - 1);
        assert(fields.take(i) =~= fields.take(i - 1).push(fields[i - 1]));
    } else {
        assert(guard::plain(fields, false, 0) =~= fields.take(0));
    }
}

/// Putting back what was taken out of a sorted list.
proof fn put_back(list: Seq<(Chars, Json)>, at: int)
    requires
        keyed::sorted(list),
        0 <= at < list.len(),
    ensures
        keyed::put(list.remove(at), list[at].0, list[at].1) == list,
{
    let rest = list.remove(at);
    let key = list[at].0;
    assert forall|j: int| 0 <= j < rest.len() implies (#[trigger] rest[j]).0 != key by {
        text::text_less_irreflexive(key);
        if j < at {
            assert(rest[j] == list[j]);
            assert(text::text_less(list[j].0, list[at].0));
        } else {
            assert(rest[j] == list[j + 1]);
            assert(text::text_less(list[at].0, list[j + 1].0));
        }
    }
    keyed::key_index_is(rest, key, rest.len() as int);
    assert forall|j: int| 0 <= j < at implies text::text_less((#[trigger] rest[j]).0, key) by {
        assert(rest[j] == list[j]);
        assert(text::text_less(list[j].0, list[at].0));
    }
    if at < rest.len() {
        assert(rest[at] == list[at + 1]);
        assert(text::text_less(list[at].0, list[at + 1].0));
        if text::text_less(rest[at].0, key) {
            text::text_less_transitive(key, rest[at].0, key);
            text::text_less_irreflexive(key);
        }
    }
    keyed::key_slot_is(rest, key, at);
    assert(rest.insert(at, (key, list[at].1)) =~= list);
}

/// A path's marker reads back as itself.
pub proof fn marker_normal(m: Json)
    requires
        marker::store_path(m) is Some,
    ensures
        normal(m) == m,
        marker::path_json(marker::store_path(m)->0) == m,
{
    reveal_with_fuel(normal, 2);
    if let Json::Array(items) = m {
        assert forall|i: int| 0 <= i < items.len() implies normal(m)->Array_0[i] == items[i] by {
            assert(items[i] is Text);
        }
        assert(normal(m)->Array_0 =~= items);
        assert(marker::path_json(marker::store_path(m)->0)->Array_0 =~= items);
    }
}

/// Whether keyed children go by the keys of documents.
pub open spec fn keyed_alike(kids: Seq<(Chars, NodeId)>, docs: Seq<(Chars, Json)>) -> bool {
    &&& kids.len() == docs.len()
    &&& forall|i: int| 0 <= i < kids.len() ==> (#[trigger] kids[i]).0 == docs[i].0
}

/// Whether a kind is what a document calls for, its children left aside.
pub open spec fn cast(kind: Kind, v: Json) -> bool {
    match (kind, marker::form_of(v)) {
        (Kind::Null, Form::Null) => true,
        (Kind::Bool(a), Form::Bool(b)) => a == b,
        (Kind::Number(a), Form::Number(b)) => a == b,
        (Kind::Text(a), Form::Text(b)) => a == b,
        (Kind::Array(kids), Form::Array(items)) => kids.len() == items.len(),
        (Kind::Object(kids), Form::Object(fields)) => keyed_alike(
            kids,
            guard::plain(fields, false, fields.len() as int),
        ),
        (Kind::Store { id: held, fields: kids }, Form::Store { id: path, fields }) => held == path
            && keyed_alike(kids, guard::plain(fields, true, fields.len() as int)),
        (Kind::Collection { name: a, .. }, Form::Collection { name: b }) => a == b,
        (Kind::Async { status: a, .. }, Form::Async { status: b, .. }) => a == b,
        (Kind::Upload { name: a, .. }, Form::Upload { name: b }) => a == b,
        _ => false,
    }
}

/// A kind that a document calls for, around the values of its parts, is the value
/// the document reads back as.
pub proof fn cast_reads(kind: Kind, v: Json, parts: Seq<Sem>)
    requires
        v.well_formed(),
        cast(kind, v),
        parts.len() == kind.kids().len(),
        !(kind is Collection) ==> forall|i: int|
            0 <= i < parts.len() ==> node::wire(#[trigger] parts[i]) == normal(guard::part(v, i)),
    ensures
        node::wire(node::assembled(kind, parts)) == normal(v),
{
    match (kind, marker::form_of(v)) {
        (Kind::Array(items), Form::Array(docs)) => {
            assert(node::wire(node::assembled(kind, parts))->Array_0 =~= normal(
                v,
            )->Array_0);
        },
        (Kind::Object(fields), Form::Object(docs)) => {
            plain_all(docs, docs.len() as int);
            assert(docs.take(docs.len() as int) =~= docs);
            let got = node::projected_fields(node::paired(fields, parts), Projection::Wire);
            assert forall|i: int| 0 <= i < fields.len() implies got[i] == normal_fields(
                docs,
            )[i] by {
                assert(fields[i].0 == docs[i].0);
                assert(got[i].1 == node::wire(parts[i]));
            }
            assert(got =~= normal_fields(docs));
        },
        (Kind::Store { id: path, fields }, Form::Store { id: held, fields: docs }) => {
            let at = keyed::key_index(docs, STORE_ID_KEY@) as int;
            keyed::key_index_meaning(docs, STORE_ID_KEY@);
            plain_put(docs, docs.len() as int);
            assert(docs.take(docs.len() as int) =~= docs);
            let rest = docs.remove(at);
            let all = normal_fields(docs);
            let got = node::projected_fields(node::paired(fields, parts), Projection::Wire);
            marker_normal(docs[at].1);
            assert forall|i: int| 0 <= i < fields.len() implies got[i] == all.remove(at)[i] by {
                assert(fields[i].0 == rest[i].0);
                assert(got[i].1 == node::wire(parts[i]));
                let j = if i < at {
                    i
                } else {
                    i + 1
                };
                assert(rest[i] == docs[j]);
                assert(all.remove(at)[i] == all[j]);
            }
            assert(got =~= all.remove(at));
            assert(keyed::sorted(all)) by {
                assert forall|i: int, j: int| 0 <= i < j < all.len() implies text::text_less(
                    #[trigger] all[i].0,
                    #[trigger] all[j].0,
                ) by {
                    assert(text::text_less(docs[i].0, docs[j].0));
                }
            }
            assert(all[at] == (STORE_ID_KEY@, marker::path_json(path)));
            put_back(all, at);
        },
        (Kind::Collection { name, .. }, Form::Collection { name: told }) => {
            sole_marker_is(v->Object_0, STREAM_MARKER_KEY@);
        },
        (Kind::Upload { name, .. }, Form::Upload { name: told }) => {
            sole_marker_is(v->Object_0, UPLOAD_MARKER_KEY@);
        },
        (Kind::Async { .. }, Form::Async { result, reason, .. }) => {
            let fields = v->Object_0;
            assert(node::wire(parts[0]) == normal(result));
            assert(node::wire(parts[1]) == normal(reason));
            assert(normal_at(fields, ASYNC_RESULT_KEY@) == normal(result));
            assert(normal_at(fields, ASYNC_REASON_KEY@) == normal(reason));
        },
        _ => {},
    }
}

/// A node that shows a document has a value equal to what the document reads back
/// as.
#[verifier::rlimit(60)]
#[verifier::spinoff_prover]
pub proof fn shown_reads(s: Tx, id: NodeId, v: Json, n: nat, levels: nat)
    requires
        guard::shows(s, id, v, n),
        v.well_formed(),
        shape::bounded(s.nodes),
        levels + s.depth(id) >= MAX_DEPTH + 1,
    ensures
        value::alike(node::wire(model::deep_value(s.nodes, id, levels)), normal(v)),
    decreases n,
{
    reveal_with_fuel(guard::shows, 2);
    reveal_with_fuel(guard::shows_fields, 2);
    shape::depth_step(s, id);
    assert(levels > 0);
    let kind = s.kind(id);
    let kids = kind.kids();
    assert(s.kids(id) == kids);
    let parts = model::deep_values(s.nodes, kids, (levels - 1) as nat);
    if !(kind is Collection) {
        assert forall|i: int| 0 <= i < kids.len() implies value::alike(
            node::wire(#[trigger] parts[i]),
            normal(guard::part(v, i)),
        ) by {
            guard::shows_part(s, id, v, n, i);
            shape::depth_step(s, kids[i]);
            part_formed(v, i, kids.len() as int, s, id, n);
            shown_reads(s, kids[i], guard::part(v, i), (n - 1) as nat, (levels - 1) as nat);
        }
    }
    let doc = node::wire(model::deep_value(s.nodes, id, levels));
    value::folds(doc);
    value::folds(normal(v));
    match (kind, marker::form_of(v)) {
        (Kind::Array(items), Form::Array(docs)) => {
            let got = value::folded_items(doc->Array_0);
            let all = value::folded_items(normal(v)->Array_0);
            assert forall|i: int| 0 <= i < got.len() implies got[i] == all[i] by {
                assert(doc->Array_0[i] == node::wire(parts[i]));
            }
            assert(got =~= all);
        },
        (Kind::Object(fields), Form::Object(docs)) => {
            plain_all(docs, docs.len() as int);
            assert(docs.take(docs.len() as int) =~= docs);
            let got = node::projected_fields(node::paired(fields, parts), Projection::Wire);
            let all = normal_fields(docs);
            assert forall|i: int| 0 <= i < fields.len() implies value::folded_fields(got)[i]
                == value::folded_fields(all)[i] by {
                assert(fields[i].0 == docs[i].0);
                assert(got[i].1 == node::wire(parts[i]));
            }
            assert(value::folded_fields(got) =~= value::folded_fields(all));
        },
        (Kind::Store { id: path, fields }, Form::Store { id: held, fields: docs }) => {
            let at = keyed::key_index(docs, STORE_ID_KEY@) as int;
            keyed::key_index_meaning(docs, STORE_ID_KEY@);
            plain_put(docs, docs.len() as int);
            assert(docs.take(docs.len() as int) =~= docs);
            let rest = docs.remove(at);
            let all = value::folded_fields(normal_fields(docs));
            let here = node::projected_fields(node::paired(fields, parts), Projection::Wire);
            let got = value::folded_fields(here);
            marker_normal(docs[at].1);
            folding::folded_put(here, STORE_ID_KEY@, marker::path_json(path));
            assert forall|i: int| 0 <= i < fields.len() implies got[i] == all.remove(at)[i] by {
                assert(fields[i].0 == rest[i].0);
                assert(here[i].1 == node::wire(parts[i]));
                let j = if i < at {
                    i
                } else {
                    i + 1
                };
                assert(rest[i] == docs[j]);
                assert(all.remove(at)[i] == all[j]);
            }
            assert(got =~= all.remove(at));
            assert(keyed::sorted(all)) by {
                assert forall|i: int, j: int| 0 <= i < j < all.len() implies text::text_less(
                    #[trigger] all[i].0,
                    #[trigger] all[j].0,
                ) by {
                    assert(text::text_less(docs[i].0, docs[j].0));
                }
            }
            assert(all[at] == (STORE_ID_KEY@, value::folded(marker::path_json(path))));
            put_back(all, at);
        },
        (Kind::Collection { name, .. }, Form::Collection { name: told }) => {
            sole_marker_is(v->Object_0, STREAM_MARKER_KEY@);
        },
        (Kind::Upload { name, .. }, Form::Upload { name: told }) => {
            sole_marker_is(v->Object_0, UPLOAD_MARKER_KEY@);
        },
        (Kind::Async { .. }, Form::Async { status, result, reason }) => {
            let fields = v->Object_0;
            assert(value::alike(node::wire(parts[0]), normal(result)));
            assert(value::alike(node::wire(parts[1]), normal(reason)));
            folding::folded_async(status, node::wire(parts[0]), node::wire(parts[1]));
            folding::folded_async(status, normal(result), normal(reason));
            assert(normal_at(fields, ASYNC_RESULT_KEY@) == normal(result));
            assert(normal_at(fields, ASYNC_REASON_KEY@) == normal(reason));
        },
        _ => {},
    }
}

proof fn sole_marker_is(fields: Seq<(Chars, Json)>, key: Chars)
    requires
        marker::sole_marker(fields, key) is Some,
    ensures
        node::marker_json(key, marker::sole_marker(fields, key)->0) == Json::Object(fields),
{
    assert(seq![(key, Json::Text(marker::sole_marker(fields, key)->0))] =~= fields);
}

/// A part of a document of ordered keys is of ordered keys.
proof fn part_formed(v: Json, i: int, len: int, s: Tx, id: NodeId, n: nat)
    requires
        v.well_formed(),
        guard::shows(s, id, v, n),
        0 <= i < s.kids(id).len(),
        !(s.kind(id) is Collection),
    ensures
        guard::part(v, i).well_formed(),
{
    reveal_with_fuel(guard::shows, 2);
    reveal_with_fuel(guard::shows_fields, 2);
    match (s.kind(id), marker::form_of(v)) {
        (Kind::Array(kids), Form::Array(items)) => {
            assert(items[i].well_formed());
        },
        (Kind::Object(kids), Form::Object(fields)) => {
            plain_all(fields, fields.len() as int);
            assert(fields.take(fields.len() as int)[i] == fields[i]);
            assert(fields[i].1.well_formed());
        },
        (Kind::Store { fields: kids, .. }, Form::Store { fields, .. }) => {
            let at = keyed::key_index(fields, STORE_ID_KEY@) as int;
            plain_put(fields, fields.len() as int);
            assert(fields.take(fields.len() as int) =~= fields);
            let j = if i < at {
                i
            } else {
                i + 1
            };
            assert(guard::plain(fields, true, fields.len() as int)[i] == fields[j]);
            assert(fields[j].1.well_formed());
        },
        (Kind::Async { .. }, Form::Async { .. }) => {
            let fields = v->Object_0;
            keyed::key_index_meaning(fields, ASYNC_RESULT_KEY@);
            keyed::key_index_meaning(fields, ASYNC_REASON_KEY@);
            if keyed::has_key(fields, ASYNC_RESULT_KEY@) {
                assert(fields[keyed::key_index(
                    fields,
                    ASYNC_RESULT_KEY@,
                ) as int].1.well_formed());
            }
            if keyed::has_key(fields, ASYNC_REASON_KEY@) {
                assert(fields[keyed::key_index(
                    fields,
                    ASYNC_REASON_KEY@,
                ) as int].1.well_formed());
            }
        },
        _ => {},
    }
}

// ------------------------------------------------------------------- documents

/// The keys an async object has differ.
pub proof fn async_keys_differ()
    ensures
        ASYNC_MARKER_KEY@ != ASYNC_STATUS_KEY@,
        ASYNC_MARKER_KEY@ != ASYNC_RESULT_KEY@,
        ASYNC_MARKER_KEY@ != ASYNC_REASON_KEY@,
        ASYNC_STATUS_KEY@ != ASYNC_RESULT_KEY@,
        ASYNC_STATUS_KEY@ != ASYNC_REASON_KEY@,
        ASYNC_RESULT_KEY@ != ASYNC_REASON_KEY@,
{
    reveal_strlit("__musubi_async__");
    reveal_strlit("status");
    reveal_strlit("result");
    reveal_strlit("reason");
    assert(ASYNC_MARKER_KEY@[0] == '_');
    assert(ASYNC_STATUS_KEY@[0] == 's');
    assert(ASYNC_RESULT_KEY@[2] == 's');
    assert(ASYNC_REASON_KEY@[2] == 'a');
}

/// What an async node is rendered as is an async object of its parts.
proof fn async_form(status: node::AsyncStatus, result: Json, reason: Json)
    ensures
        marker::object_form(node::async_fields(status, result, reason)) == (Form::Async {
            status,
            result,
            reason,
        }),
{
    let none = Seq::<(Chars, Json)>::empty();
    let yes = Json::Bool(true);
    let word = Json::Text(status.wire_text());
    let marked = keyed::put(none, ASYNC_MARKER_KEY@, yes);
    let named = keyed::put(marked, ASYNC_STATUS_KEY@, word);
    let some = keyed::put(named, ASYNC_RESULT_KEY@, result);
    let all = keyed::put(some, ASYNC_REASON_KEY@, reason);
    async_keys_differ();
    node::status_round_trip(status);
    keyed::put_sorted(none, ASYNC_MARKER_KEY@, yes);
    keyed::put_sorted(marked, ASYNC_STATUS_KEY@, word);
    keyed::put_sorted(named, ASYNC_RESULT_KEY@, result);
    keyed::put_lookup(none, ASYNC_MARKER_KEY@, yes);
    keyed::put_lookup(marked, ASYNC_STATUS_KEY@, word);
    keyed::put_lookup(named, ASYNC_RESULT_KEY@, result);
    keyed::put_lookup(some, ASYNC_REASON_KEY@, reason);
    keyed::put_others(marked, ASYNC_STATUS_KEY@, word, ASYNC_MARKER_KEY@);
    keyed::put_others(named, ASYNC_RESULT_KEY@, result, ASYNC_MARKER_KEY@);
    keyed::put_others(named, ASYNC_RESULT_KEY@, result, ASYNC_STATUS_KEY@);
    keyed::put_others(some, ASYNC_REASON_KEY@, reason, ASYNC_MARKER_KEY@);
    keyed::put_others(some, ASYNC_REASON_KEY@, reason, ASYNC_STATUS_KEY@);
    keyed::put_others(some, ASYNC_REASON_KEY@, reason, ASYNC_RESULT_KEY@);
    keyed::key_index_meaning(all, ASYNC_STATUS_KEY@);
    keyed::key_index_meaning(all, ASYNC_RESULT_KEY@);
    assert(all.len() != 1);
}

/// Reading back changes no scalar, and makes none.
proof fn normal_scalar(v: Json)
    ensures
        normal(v) is Text <==> v is Text,
        v is Text ==> normal(v) == v,
        normal(v) == Json::Bool(true) <==> v == Json::Bool(true),
{
}

/// A document under a key reads back under that key.
proof fn normal_lookup(fields: Seq<(Chars, Json)>, key: Chars)
    ensures
        keyed::lookup(normal_fields(fields), key) == (match keyed::lookup(fields, key) {
            Some(v) => Some(normal(v)),
            None => None,
        }),
{
    let docs = normal_fields(fields);
    keyed::key_index_meaning(fields, key);
    let at = keyed::key_index(fields, key) as int;
    assert forall|j: int| 0 <= j < at implies (#[trigger] docs[j]).0 != key by {
        assert(fields[j].0 != key);
    }
    keyed::key_index_is(docs, key, at);
}

/// Plain data and stores read back as no slot and no async object.
proof fn normal_form(fields: Seq<(Chars, Json)>)
    requires
        marker::object_form(fields) is Object || marker::object_form(fields) is Store,
    ensures
        ({
            let form = marker::object_form(normal_fields(fields));
            !(form is Collection) && !(form is Upload) && !(form is Async)
        }),
{
    let docs = normal_fields(fields);
    normal_lookup(fields, ASYNC_MARKER_KEY@);
    normal_lookup(fields, ASYNC_STATUS_KEY@);
    if let Some(v) = keyed::lookup(fields, ASYNC_MARKER_KEY@) {
        normal_scalar(v);
    }
    if let Some(v) = keyed::lookup(fields, ASYNC_STATUS_KEY@) {
        normal_scalar(v);
    }
    if fields.len() == 1 {
        normal_scalar(fields[0].1);
        assert(docs[0].0 == fields[0].0);
        assert(docs[0].1 == normal(fields[0].1));
    }
}

/// What a document reads back as reads back as itself.
pub proof fn normal_twice(v: Json)
    ensures
        normal(normal(v)) == normal(v),
    decreases v,
{
    reveal_with_fuel(normal, 2);
    match v {
        Json::Array(items) => {
            let docs = normal(v)->Array_0;
            assert forall|i: int| 0 <= i < items.len() implies normal(#[trigger] docs[i])
                == docs[i] by {
                assert(docs[i] == normal(items[i]));
                normal_twice(items[i]);
            }
            assert(normal(normal(v))->Array_0 =~= docs);
        },
        Json::Object(fields) => match marker::object_form(fields) {
            Form::Collection { .. } => {},
            Form::Upload { .. } => {},
            Form::Async { status, .. } => {
                let a = normal_at(fields, ASYNC_RESULT_KEY@);
                let b = normal_at(fields, ASYNC_REASON_KEY@);
                let docs = node::async_fields(status, a, b);
                keyed::key_index_meaning(fields, ASYNC_RESULT_KEY@);
                keyed::key_index_meaning(fields, ASYNC_REASON_KEY@);
                if keyed::has_key(fields, ASYNC_RESULT_KEY@) {
                    normal_twice(fields[keyed::key_index(fields, ASYNC_RESULT_KEY@) as int].1);
                }
                if keyed::has_key(fields, ASYNC_REASON_KEY@) {
                    normal_twice(fields[keyed::key_index(fields, ASYNC_REASON_KEY@) as int].1);
                }
                async_form(status, a, b);
                keyed::key_index_meaning(docs, ASYNC_RESULT_KEY@);
                keyed::key_index_meaning(docs, ASYNC_REASON_KEY@);
                async_held(status, a, b);
                assert(normal_at(docs, ASYNC_RESULT_KEY@) == normal(a));
                assert(normal_at(docs, ASYNC_REASON_KEY@) == normal(b));
            },
            _ => {
                let docs = normal_fields(fields);
                normal_form(fields);
                assert(normal(v) == Json::Object(docs));
                assert(normal(normal(v)) == Json::Object(normal_fields(docs)));
                assert forall|i: int| 0 <= i < docs.len() implies normal_fields(docs)[i]
                    == docs[i] by {
                    normal_twice(fields[i].1);
                }
                assert(normal_fields(docs) =~= docs);
            },
        },
        _ => {},
    }
}

/// What an async object holds under its keys.
proof fn async_held(status: node::AsyncStatus, result: Json, reason: Json)
    ensures
        ({
            let docs = node::async_fields(status, result, reason);
            &&& keyed::lookup(docs, ASYNC_RESULT_KEY@) == Some(result)
            &&& keyed::lookup(docs, ASYNC_REASON_KEY@) == Some(reason)
        }),
{
    let none = Seq::<(Chars, Json)>::empty();
    let yes = Json::Bool(true);
    let word = Json::Text(status.wire_text());
    let marked = keyed::put(none, ASYNC_MARKER_KEY@, yes);
    let named = keyed::put(marked, ASYNC_STATUS_KEY@, word);
    let some = keyed::put(named, ASYNC_RESULT_KEY@, result);
    async_keys_differ();
    keyed::put_sorted(none, ASYNC_MARKER_KEY@, yes);
    keyed::put_sorted(marked, ASYNC_STATUS_KEY@, word);
    keyed::put_sorted(named, ASYNC_RESULT_KEY@, result);
    keyed::put_lookup(named, ASYNC_RESULT_KEY@, result);
    keyed::put_lookup(some, ASYNC_REASON_KEY@, reason);
    keyed::put_others(some, ASYNC_REASON_KEY@, reason, ASYNC_RESULT_KEY@);
}

/// Whether there is no stream slot in a value.
pub open spec fn streamless(v: Sem) -> bool
    decreases v,
{
    match v {
        Sem::Array(items) => forall|i: int|
            0 <= i < items.len() ==> streamless(#[trigger] items[i]),
        Sem::Object(fields) => forall|i: int|
            0 <= i < fields.len() ==> streamless((#[trigger] fields[i]).1),
        Sem::Store { fields, .. } => forall|i: int|
            0 <= i < fields.len() ==> streamless((#[trigger] fields[i]).1),
        Sem::Collection { .. } => false,
        Sem::Async { result, reason, .. } => streamless(*result) && streamless(*reason),
        _ => true,
    }
}

/// The two projections differ in how a stream slot is rendered, and in nothing
/// else.
pub proof fn projections_agree(v: Sem)
    requires
        streamless(v),
    ensures
        node::hydrated(v) == node::wire(v),
    decreases v,
{
    match v {
        Sem::Array(items) => {
            assert forall|i: int| 0 <= i < items.len() implies node::hydrated(v)->Array_0[i]
                == node::wire(v)->Array_0[i] by {
                projections_agree(items[i]);
            }
            assert(node::hydrated(v)->Array_0 =~= node::wire(v)->Array_0);
        },
        Sem::Object(fields) => {
            fields_agree(fields);
        },
        Sem::Store { fields, .. } => {
            fields_agree(fields);
        },
        Sem::Async { result, reason, .. } => {
            projections_agree(*result);
            projections_agree(*reason);
        },
        _ => {},
    }
}

proof fn fields_agree(fields: Seq<(Chars, Sem)>)
    requires
        forall|i: int| 0 <= i < fields.len() ==> streamless((#[trigger] fields[i]).1),
    ensures
        node::projected_fields(fields, Projection::Hydrated) == node::projected_fields(
            fields,
            Projection::Wire,
        ),
    decreases fields,
{
    let a = node::projected_fields(fields, Projection::Hydrated);
    let b = node::projected_fields(fields, Projection::Wire);
    assert forall|i: int| 0 <= i < fields.len() implies a[i] == b[i] by {
        projections_agree(fields[i].1);
    }
    assert(a =~= b);
}

} // verus!
