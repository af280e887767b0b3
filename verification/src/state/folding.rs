//! What equality sees of documents and values, carried through what is done to
//! them.

use vstd::prelude::*;

use crate::state::keyed;
use crate::state::marker;
use crate::state::marker::{
    Form, ASYNC_MARKER_KEY, ASYNC_REASON_KEY, ASYNC_RESULT_KEY, ASYNC_STATUS_KEY, STORE_ID_KEY,
};
use crate::state::node;
use crate::state::node::{AsyncStatus, Projection, Sem};
use crate::state::reading;
use crate::state::text;
use crate::state::text::Chars;
use crate::state::value;
use crate::state::value::{Json, Number};
use crate::state::wire::Path;

verus! {

/// Equality sees the keys of a list of fields as they are.
proof fn folded_keys(fields: Seq<(Chars, Json)>, key: Chars)
    ensures
        keyed::key_index(value::folded_fields(fields), key) == keyed::key_index(fields, key),
        keyed::key_slot(value::folded_fields(fields), key) == keyed::key_slot(fields, key),
{
    let g = value::folded_fields(fields);
    keyed::key_index_meaning(fields, key);
    keyed::key_slot_meaning(fields, key);
    let at = keyed::key_index(fields, key) as int;
    let slot = keyed::key_slot(fields, key) as int;
    assert forall|j: int| 0 <= j < at implies (#[trigger] g[j]).0 != key by {
        assert(fields[j].0 != key);
    }
    keyed::key_index_is(g, key, at);
    assert forall|j: int| 0 <= j < slot implies text::text_less((#[trigger] g[j]).0, key) by {
        assert(text::text_less(fields[j].0, key));
    }
    keyed::key_slot_is(g, key, slot);
}

/// Filing a document, as equality sees it.
pub proof fn folded_put(fields: Seq<(Chars, Json)>, key: Chars, v: Json)
    ensures
        value::folded_fields(keyed::put(fields, key, v)) == keyed::put(
            value::folded_fields(fields),
            key,
            value::folded(v),
        ),
{
    folded_keys(fields, key);
    keyed::key_index_meaning(fields, key);
    keyed::key_slot_meaning(fields, key);
    assert(value::folded_fields(keyed::put(fields, key, v)) =~= keyed::put(
        value::folded_fields(fields),
        key,
        value::folded(v),
    ));
}

/// Looking up a document, as equality sees it.
proof fn folded_lookup(fields: Seq<(Chars, Json)>, key: Chars)
    ensures
        keyed::lookup(value::folded_fields(fields), key) == (match keyed::lookup(fields, key) {
            Some(v) => Some(value::folded(v)),
            None => None,
        }),
{
    folded_keys(fields, key);
    keyed::key_index_meaning(fields, key);
}

/// Equality sees a path's marker as it is.
proof fn folded_path(path: Path)
    ensures
        value::folded(marker::path_json(path)) == marker::path_json(path),
{
    reveal_with_fuel(value::folded, 2);
    let v = marker::path_json(path);
    assert forall|i: int| 0 <= i < path.len() implies value::folded(v)->Array_0[i]
        == v->Array_0[i] by {
        assert(v->Array_0[i] is Text);
    }
    assert(value::folded(v)->Array_0 =~= v->Array_0);
}

/// Equality sees a slot's marker as it is.
proof fn folded_marker(key: Chars, name: Chars)
    ensures
        value::folded(node::marker_json(key, name)) == node::marker_json(key, name),
{
    reveal_with_fuel(value::folded, 2);
    let v = node::marker_json(key, name);
    value::folds(v);
    assert(value::folded_fields(v->Object_0) =~= v->Object_0);
}

/// An async object, as equality sees it.
pub proof fn folded_async(status: AsyncStatus, result: Json, reason: Json)
    ensures
        value::folded_fields(node::async_fields(status, result, reason)) == node::async_fields(
            status,
            value::folded(result),
            value::folded(reason),
        ),
{
    let none = Seq::<(Chars, Json)>::empty();
    assert(value::folded_fields(none) =~= none);
    folded_put(none, ASYNC_MARKER_KEY@, Json::Bool(true));
    let marked = keyed::put(none, ASYNC_MARKER_KEY@, Json::Bool(true));
    folded_put(marked, ASYNC_STATUS_KEY@, Json::Text(status.wire_text()));
    let named = keyed::put(marked, ASYNC_STATUS_KEY@, Json::Text(status.wire_text()));
    folded_put(named, ASYNC_RESULT_KEY@, result);
    folded_put(keyed::put(named, ASYNC_RESULT_KEY@, result), ASYNC_REASON_KEY@, reason);
}

proof fn folded_projected_fields(fields: Seq<(Chars, Sem)>, mode: Projection)
    ensures
        value::folded_fields(node::projected_fields(fields, mode)) == node::projected_fields(
            node::folded_fields(fields),
            mode,
        ),
    decreases fields,
{
    assert forall|i: int| 0 <= i < fields.len() implies value::folded(
        node::projected(#[trigger] fields[i].1, mode),
    ) == node::projected(node::folded(fields[i].1), mode) by {
        folded_projected(fields[i].1, mode);
    }
    assert(value::folded_fields(node::projected_fields(fields, mode)) =~= node::projected_fields(
        node::folded_fields(fields),
        mode,
    ));
}

/// Equality sees of a projection the projection of what it sees.
pub proof fn folded_projected(v: Sem, mode: Projection)
    ensures
        value::folded(node::projected(v, mode)) == node::projected(node::folded(v), mode),
    decreases v,
{
    let doc = node::projected(v, mode);
    node::folds(v);
    value::folds(doc);
    match v {
        Sem::Array(items) => {
            assert forall|i: int| 0 <= i < items.len() implies value::folded(
                node::projected(#[trigger] items[i], mode),
            ) == node::projected(node::folded(items[i]), mode) by {
                folded_projected(items[i], mode);
            }
            assert(value::folded_items(doc->Array_0) =~= node::projected(
                Sem::Array(node::folded_items(items)),
                mode,
            )->Array_0);
        },
        Sem::Object(fields) => {
            folded_projected_fields(fields, mode);
        },
        Sem::Store { id, fields } => {
            folded_projected_fields(fields, mode);
            folded_put(
                node::projected_fields(fields, mode),
                STORE_ID_KEY@,
                marker::path_json(id),
            );
            folded_path(id);
        },
        Sem::Collection { name, items, .. } => match mode {
            Projection::Hydrated => {
                folded_projected_fields(items, mode);
                let got = node::projected_fields(items, mode);
                assert(value::folded_items(keyed::items_of(got)) =~= keyed::items_of(
                    value::folded_fields(got),
                ));
            },
            Projection::Wire => {
                folded_marker(marker::STREAM_MARKER_KEY@, name);
            },
        },
        Sem::Async { status, result, reason } => {
            folded_projected(*result, mode);
            folded_projected(*reason, mode);
            folded_async(status, node::projected(*result, mode), node::projected(*reason, mode));
        },
        Sem::Upload { name, .. } => {
            folded_marker(marker::UPLOAD_MARKER_KEY@, name);
        },
        _ => {},
    }
}

proof fn folded_store_path(v: Json)
    ensures
        marker::store_path(value::folded(v)) == marker::store_path(v),
{
    if let Json::Array(items) = v {
        value::folds(v);
        let seen = value::folded_items(items);
        assert forall|i: int| 0 <= i < items.len() implies (#[trigger] seen[i] is Text)
            == (items[i] is Text) && (items[i] is Text ==> seen[i] == items[i]) by {}
        if forall|i: int| 0 <= i < items.len() ==> (#[trigger] items[i]) is Text {
            assert forall|i: int| 0 <= i < seen.len() implies (#[trigger] seen[i]) is Text by {
                assert(items[i] is Text);
            }
            assert(marker::store_path(value::folded(v))->0 =~= marker::store_path(v)->0);
        } else {
            let i = choose|i: int| 0 <= i < items.len() && !((#[trigger] items[i]) is Text);
            assert(!(seen[i] is Text));
        }
    }
}

/// What an object is does not rest on the sign of a float zero.
pub proof fn folded_form(fields: Seq<(Chars, Json)>)
    ensures
        marker::object_form(value::folded_fields(fields)) == (match marker::object_form(fields) {
            Form::Async { status, result, reason } => Form::Async {
                status,
                result: value::folded(result),
                reason: value::folded(reason),
            },
            Form::Store { id, .. } => Form::Store { id, fields: value::folded_fields(fields) },
            Form::Object(_) => Form::Object(value::folded_fields(fields)),
            form => form,
        }),
{
    folded_lookup(fields, ASYNC_MARKER_KEY@);
    folded_lookup(fields, ASYNC_STATUS_KEY@);
    folded_lookup(fields, ASYNC_RESULT_KEY@);
    folded_lookup(fields, ASYNC_REASON_KEY@);
    folded_lookup(fields, STORE_ID_KEY@);
    if let Some(mark) = keyed::lookup(fields, STORE_ID_KEY@) {
        folded_store_path(mark);
    }
}

proof fn folded_normal_at(fields: Seq<(Chars, Json)>, key: Chars)
    ensures
        value::folded(reading::normal_at(fields, key)) == reading::normal_at(
            value::folded_fields(fields),
            key,
        ),
    decreases fields, 0int,
{
    folded_keys(fields, key);
    keyed::key_index_meaning(fields, key);
    if keyed::has_key(fields, key) {
        folded_normal(fields[keyed::key_index(fields, key) as int].1);
    }
}

/// Equality sees of what a document reads back as what the document that it sees
/// reads back as.
pub proof fn folded_normal(v: Json)
    ensures
        value::folded(reading::normal(v)) == reading::normal(value::folded(v)),
    decreases v, 1int,
{
    let doc = reading::normal(v);
    value::folds(v);
    value::folds(doc);
    match v {
        Json::Array(items) => {
            assert forall|i: int| 0 <= i < items.len() implies value::folded(
                reading::normal(#[trigger] items[i]),
            ) == reading::normal(value::folded(items[i])) by {
                folded_normal(items[i]);
            }
            assert(value::folded_items(doc->Array_0) =~= reading::normal(
                Json::Array(value::folded_items(items)),
            )->Array_0);
        },
        Json::Object(fields) => {
            folded_form(fields);
            let seen = value::folded_fields(fields);
            match marker::object_form(fields) {
                Form::Collection { .. } => {},
                Form::Upload { .. } => {},
                Form::Async { status, .. } => {
                    folded_normal_at(fields, ASYNC_RESULT_KEY@);
                    folded_normal_at(fields, ASYNC_REASON_KEY@);
                    folded_async(
                        status,
                        reading::normal_at(fields, ASYNC_RESULT_KEY@),
                        reading::normal_at(fields, ASYNC_REASON_KEY@),
                    );
                },
                _ => {
                    assert forall|i: int| 0 <= i < fields.len() implies value::folded(
                        reading::normal(#[trigger] fields[i].1),
                    ) == reading::normal(value::folded(fields[i].1)) by {
                        folded_normal(fields[i].1);
                    }
                    assert(value::folded_fields(reading::normal_fields(fields))
                        =~= reading::normal_fields(seen));
                },
            }
        },
        _ => {},
    }
}

/// Two documents are equal exactly where they are of the same kind, and hold the same
/// text or truth, equal numbers, or equal documents at the same places and under the
/// same keys.
pub proof fn documents_are_equal(a: Json, b: Json)
    ensures
        value::alike(a, b) <==> match (a, b) {
            (Json::Null, Json::Null) => true,
            (Json::Bool(x), Json::Bool(y)) => x == y,
            (Json::Number(x), Json::Number(y)) => x == y || (value::float_zero(x)
                && value::float_zero(y)),
            (Json::Text(x), Json::Text(y)) => x == y,
            (Json::Array(x), Json::Array(y)) => x.len() == y.len() && forall|i: int|
                0 <= i < x.len() ==> value::alike(#[trigger] x[i], y[i]),
            (Json::Object(x), Json::Object(y)) => x.len() == y.len() && forall|i: int|
                0 <= i < x.len() ==> (#[trigger] x[i]).0 == y[i].0 && value::alike(
                    x[i].1,
                    y[i].1,
                ),
            _ => false,
        },
{
    value::folds(a);
    value::folds(b);
    match (a, b) {
        (Json::Array(x), Json::Array(y)) => {
            let p = value::folded_items(x);
            let q = value::folded_items(y);
            if value::alike(a, b) {
                assert(p == q && p.len() == x.len() && q.len() == y.len());
                assert forall|i: int| 0 <= i < x.len() implies value::alike(
                    #[trigger] x[i],
                    y[i],
                ) by {
                    assert(p[i] == q[i]);
                }
            } else if x.len() == y.len() && forall|i: int|
                0 <= i < x.len() ==> value::alike(#[trigger] x[i], y[i]) {
                assert(p =~= q);
            }
        },
        (Json::Object(x), Json::Object(y)) => {
            let p = value::folded_fields(x);
            let q = value::folded_fields(y);
            if value::alike(a, b) {
                assert(p == q && p.len() == x.len() && q.len() == y.len());
                assert forall|i: int| 0 <= i < x.len() implies (#[trigger] x[i]).0 == y[i].0
                    && value::alike(x[i].1, y[i].1) by {
                    assert(p[i] == q[i]);
                }
            } else if x.len() == y.len() && forall|i: int|
                0 <= i < x.len() ==> (#[trigger] x[i]).0 == y[i].0 && value::alike(
                    x[i].1,
                    y[i].1,
                ) {
                assert(p =~= q);
            }
        },
        _ => {},
    }
}

proof fn fields_are_equal(x: Seq<(Chars, Sem)>, y: Seq<(Chars, Sem)>)
    ensures
        node::folded_fields(x) == node::folded_fields(y) <==> equal_fields(x, y),
{
    let p = node::folded_fields(x);
    let q = node::folded_fields(y);
    if p == q {
        assert(p.len() == x.len() && q.len() == y.len());
        assert forall|i: int| 0 <= i < x.len() implies (#[trigger] x[i]).0 == y[i].0
            && node::alike(x[i].1, y[i].1) by {
            assert(p[i] == q[i]);
        }
    } else if equal_fields(x, y) {
        assert(p =~= q);
    }
}

/// Whether two lists of keyed values have equal values under the same keys.
pub open spec fn equal_fields(x: Seq<(Chars, Sem)>, y: Seq<(Chars, Sem)>) -> bool {
    x.len() == y.len() && forall|i: int|
        0 <= i < x.len() ==> (#[trigger] x[i]).0 == y[i].0 && node::alike(x[i].1, y[i].1)
}

/// Two values are equal exactly where they are of the same kind, of the same
/// identity where they have one, and hold equal parts.
pub proof fn values_are_equal(a: Sem, b: Sem)
    ensures
        node::alike(a, b) <==> match (a, b) {
            (Sem::Null, Sem::Null) => true,
            (Sem::Bool(x), Sem::Bool(y)) => x == y,
            (Sem::Number(x), Sem::Number(y)) => x == y || (value::float_zero(x)
                && value::float_zero(y)),
            (Sem::Text(x), Sem::Text(y)) => x == y,
            (Sem::Array(x), Sem::Array(y)) => x.len() == y.len() && forall|i: int|
                0 <= i < x.len() ==> node::alike(#[trigger] x[i], y[i]),
            (Sem::Object(x), Sem::Object(y)) => equal_fields(x, y),
            (Sem::Store { id: p, fields: x }, Sem::Store { id: q, fields: y }) => p == q
                && equal_fields(x, y),
            (Sem::Collection { name: m, owner: p, items: x }, Sem::Collection {
                name: n,
                owner: q,
                items: y,
            }) => m == n && p == q && equal_fields(x, y),
            (Sem::Async { status: m, result: p, reason: x }, Sem::Async {
                status: n,
                result: q,
                reason: y,
            }) => m == n && node::alike(*p, *q) && node::alike(*x, *y),
            (Sem::Upload { name: m, owner: p }, Sem::Upload { name: n, owner: q }) => m == n && p
                == q,
            _ => false,
        },
{
    node::folds(a);
    node::folds(b);
    match (a, b) {
        (Sem::Array(x), Sem::Array(y)) => {
            let p = node::folded_items(x);
            let q = node::folded_items(y);
            if node::alike(a, b) {
                assert(p == q && p.len() == x.len() && q.len() == y.len());
                assert forall|i: int| 0 <= i < x.len() implies node::alike(
                    #[trigger] x[i],
                    y[i],
                ) by {
                    assert(p[i] == q[i]);
                }
            } else if x.len() == y.len() && forall|i: int|
                0 <= i < x.len() ==> node::alike(#[trigger] x[i], y[i]) {
                assert(p =~= q);
            }
        },
        (Sem::Object(x), Sem::Object(y)) => {
            fields_are_equal(x, y);
        },
        (Sem::Store { fields: x, .. }, Sem::Store { fields: y, .. }) => {
            fields_are_equal(x, y);
        },
        (Sem::Collection { items: x, .. }, Sem::Collection { items: y, .. }) => {
            fields_are_equal(x, y);
        },
        _ => {},
    }
}

/// Whether there is no float zero in a document.
pub open spec fn zero_free(v: Json) -> bool
    decreases v,
{
    match v {
        Json::Number(number) => number != Number::Float(0) && number != Number::Float(
            0x8000_0000_0000_0000,
        ),
        Json::Array(items) => forall|i: int| 0 <= i < items.len() ==> zero_free(#[trigger] items[i]),
        Json::Object(fields) => forall|i: int|
            0 <= i < fields.len() ==> zero_free((#[trigger] fields[i]).1),
        _ => true,
    }
}

/// Whether a document is what another one reads back as: it equals it, and where no
/// float zero is in it, is that very document.
pub open spec fn reads_as(a: Json, b: Json) -> bool {
    value::alike(a, b) && (zero_free(b) ==> a == b)
}

/// What equals a document is what it reads back as.
pub proof fn equal_reads(a: Json, b: Json)
    requires
        value::alike(a, b),
    ensures
        reads_as(a, b),
{
    if zero_free(b) {
        equal_is_same(a, b);
    }
}

/// What equals a document without a float zero is that document.
proof fn equal_is_same(a: Json, b: Json)
    requires
        zero_free(b),
        value::alike(a, b),
    ensures
        a == b,
    decreases b,
{
    value::folds(a);
    value::folds(b);
    match (a, b) {
        (Json::Array(x), Json::Array(y)) => {
            assert(value::folded_items(x) == value::folded_items(y));
            assert(value::folded_items(x).len() == x.len());
            assert forall|i: int| 0 <= i < y.len() implies x[i] == y[i] by {
                assert(value::folded_items(x)[i] == value::folded_items(y)[i]);
                equal_is_same(x[i], y[i]);
            }
            assert(x =~= y);
        },
        (Json::Object(x), Json::Object(y)) => {
            assert(value::folded_fields(x) == value::folded_fields(y));
            assert(value::folded_fields(x).len() == x.len());
            assert forall|i: int| 0 <= i < y.len() implies x[i] == y[i] by {
                assert(value::folded_fields(x)[i] == value::folded_fields(y)[i]);
                equal_is_same(x[i].1, y[i].1);
            }
            assert(x =~= y);
        },
        _ => {},
    }
}

} // verus!
