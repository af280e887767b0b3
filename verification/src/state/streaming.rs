//! What a stream op keeps.

use vstd::prelude::*;

use crate::state::change::Edit;
use crate::state::exchanging;
use crate::state::guard;
use crate::state::growth;
use crate::state::keyed;
use crate::state::model;
use crate::state::model::Tx;
use crate::state::node::{Kind, NodeId};
use crate::state::patching;
use crate::state::placing;
use crate::state::plain;
use crate::state::reconciling;
use crate::state::shape;
use crate::state::slots;
use crate::state::slots::Entry;
use crate::state::text::Chars;
use crate::state::upkeep;
use crate::state::value;
use crate::state::value::Json;
use crate::state::wire::StreamOp;

verus! {

/// Nodes are what they were, of the kind they were; rows of a collection that it
/// does not hold may have left.
pub open spec fn shed(s: Tx, t: Tx, id: NodeId) -> bool {
    &&& placing::relisted(s, t, id, s.kids(id))
    &&& t.live(id)
    &&& t.kind(id) == s.kind(id)
    &&& placing::drifts(s, t, None)
}

proof fn shed_on(s: Tx, t: Tx, u: Tx, id: NodeId)
    requires
        shed(s, t, id),
        shed(t, u, id),
        s.live(id),
    ensures
        shed(s, u, id),
{
    assert(t.kids(id) == s.kids(id));
    placing::relisted_on(s, t, u, id, s.kids(id));
    assert forall|x: NodeId| #[trigger] shape::adrift(u, x) implies placing::adrift_still(
        s,
        u,
        x,
    ) by {
        assert(placing::adrift_still(t, u, x));
        assert(placing::adrift_still(s, t, x));
    }
}

/// One row that its collection does not hold is carried out.
proof fn carried_one(
    s: Tx,
    collection: NodeId,
    key: Chars,
    row: NodeId,
    edit: Option<Edit>,
    was: Map<NodeId, Entry>,
    ids: Seq<NodeId>,
)
    requires
        shape::good(s, was, ids),
        s.live(collection),
        s.parent_of(row) == Some(collection),
        !s.kids(collection).contains(row),
    ensures
        ({
            let t = s.carry_out(collection, key, row);
            let u = match edit {
                Some(e) => t.log_edit(collection, e),
                None => t,
            };
            &&& shape::good(u, was, ids)
            &&& shed(s, u, collection)
            &&& u.parent_of(row) is None
            &&& forall|x: NodeId| x != row ==> #[trigger] u.parent_of(x) == s.parent_of(x)
        }),
{
    let t = s.carry_out(collection, key, row);
    let u = match edit {
        Some(e) => t.log_edit(collection, e),
        None => t,
    };
    upkeep::carried_off(s, collection, key, row, was, ids);
    assert(shape::good(u, was, ids)) by {
        reveal(shape::good);
        upkeep::alike_keeps(t, u, was, ids);
    }
    assert(u.nodes == slots::with_parent(s.nodes, row, None));
    assert forall|x: NodeId| #[trigger] shape::adrift(u, x) implies placing::adrift_still(
        s,
        u,
        x,
    ) by {
        assert(x != row);
        assert(u.parent_of(x) == s.parent_of(x));
        assert(u.kids(u.parent_of(x)->0) == s.kids(u.parent_of(x)->0));
    }
}

/// Rows that a collection no longer holds, from `lo` up to `hi`; those outside
/// have left.
pub open spec fn spilled(
    s: Tx,
    collection: NodeId,
    rows: Seq<(Chars, NodeId)>,
    lo: int,
    hi: int,
) -> bool {
    forall|j: int|
        lo <= j < hi ==> s.parent_of((#[trigger] rows[j]).1) == Some(collection) && !s.kids(
            collection,
        ).contains(rows[j].1)
}

/// Rows that have left.
pub open spec fn gone(s: Tx, rows: Seq<(Chars, NodeId)>, lo: int, hi: int) -> bool {
    forall|j: int| lo <= j < hi ==> s.parent_of((#[trigger] rows[j]).1) is None
}

/// The nodes of rows differ.
pub open spec fn apart(rows: Seq<(Chars, NodeId)>) -> bool {
    forall|i: int, j: int|
        0 <= i < j < rows.len() ==> (#[trigger] rows[i]).1 != (#[trigger] rows[j]).1
}

proof fn all_carried(
    s: Tx,
    collection: NodeId,
    rows: Seq<(Chars, NodeId)>,
    i: int,
    was: Map<NodeId, Entry>,
    ids: Seq<NodeId>,
)
    requires
        shape::good(s, was, ids),
        s.live(collection),
        apart(rows),
        0 <= i <= rows.len(),
        spilled(s, collection, rows, i, rows.len() as int),
        gone(s, rows, 0, i),
    ensures
        ({
            let t = model::carry_all(s, collection, rows, i);
            &&& shape::good(t, was, ids)
            &&& shed(s, t, collection)
            &&& gone(t, rows, 0, rows.len() as int)
        }),
    decreases rows.len() - i,
{
    if i < rows.len() {
        let u = s.carry_out(collection, rows[i].0, rows[i].1);
        carried_one(s, collection, rows[i].0, rows[i].1, None, was, ids);
        assert(u.kids(collection) == s.kids(collection));
        assert(u.live(collection));
        assert(spilled(u, collection, rows, i + 1, rows.len() as int)) by {
            assert forall|j: int| i + 1 <= j < rows.len() implies u.parent_of(
                (#[trigger] rows[j]).1,
            ) == Some(collection) && !u.kids(collection).contains(rows[j].1) by {
                assert(rows[i].1 != rows[j].1);
            }
        }
        assert(gone(u, rows, 0, i + 1)) by {
            assert forall|j: int| 0 <= j < i + 1 implies u.parent_of(
                (#[trigger] rows[j]).1,
            ) is None by {
                if j < i {
                    assert(rows[j].1 != rows[i].1);
                }
            }
        }
        all_carried(u, collection, rows, i + 1, was, ids);
        shed_on(s, u, model::carry_all(u, collection, rows, i + 1), collection);
    } else {
        assert forall|x: NodeId| #[trigger] shape::adrift(s, x) implies placing::adrift_still(
            s,
            s,
            x,
        ) by {}
    }
}

proof fn end_dropped(
    s: Tx,
    collection: NodeId,
    rows: Seq<(Chars, NodeId)>,
    cap: nat,
    i: int,
    was: Map<NodeId, Entry>,
    ids: Seq<NodeId>,
)
    requires
        shape::good(s, was, ids),
        s.live(collection),
        apart(rows),
        cap <= i <= rows.len(),
        spilled(s, collection, rows, cap as int, i),
        gone(s, rows, i, rows.len() as int),
    ensures
        ({
            let t = model::drop_end(s, collection, rows, cap, i);
            &&& shape::good(t, was, ids)
            &&& shed(s, t, collection)
            &&& gone(t, rows, cap as int, rows.len() as int)
        }),
    decreases i - cap,
{
    if i > cap {
        let row = rows[i - 1];
        let edit = Edit::Removed { key: row.0, index: (i - 1) as nat };
        let u = s.carry_out(collection, row.0, row.1).log_edit(collection, edit);
        carried_one(s, collection, row.0, row.1, Some(edit), was, ids);
        assert(u.kids(collection) == s.kids(collection));
        assert(spilled(u, collection, rows, cap as int, i - 1)) by {
            assert forall|j: int| cap <= j < i - 1 implies u.parent_of((#[trigger] rows[j]).1)
                == Some(collection) && !u.kids(collection).contains(rows[j].1) by {
                assert(rows[j].1 != rows[i - 1].1);
            }
        }
        assert(gone(u, rows, i - 1, rows.len() as int)) by {
            assert forall|j: int| i - 1 <= j < rows.len() implies u.parent_of(
                (#[trigger] rows[j]).1,
            ) is None by {
                if j > i - 1 {
                    assert(rows[i - 1].1 != rows[j].1);
                }
            }
        }
        end_dropped(u, collection, rows, cap, i - 1, was, ids);
        shed_on(s, u, model::drop_end(u, collection, rows, cap, i - 1), collection);
    } else {
        assert forall|x: NodeId| #[trigger] shape::adrift(s, x) implies placing::adrift_still(
            s,
            s,
            x,
        ) by {}
    }
}

proof fn front_dropped(
    s: Tx,
    collection: NodeId,
    rows: Seq<(Chars, NodeId)>,
    count: int,
    i: int,
    was: Map<NodeId, Entry>,
    ids: Seq<NodeId>,
)
    requires
        shape::good(s, was, ids),
        s.live(collection),
        apart(rows),
        0 <= i <= count <= rows.len(),
        spilled(s, collection, rows, i, count),
        gone(s, rows, 0, i),
    ensures
        ({
            let t = model::drop_front(s, collection, rows, count, i);
            &&& shape::good(t, was, ids)
            &&& shed(s, t, collection)
            &&& gone(t, rows, 0, count)
        }),
    decreases count - i,
{
    if i < count {
        let row = rows[i];
        let edit = Edit::Removed { key: row.0, index: 0 };
        let u = s.carry_out(collection, row.0, row.1).log_edit(collection, edit);
        carried_one(s, collection, row.0, row.1, Some(edit), was, ids);
        assert(u.kids(collection) == s.kids(collection));
        assert(spilled(u, collection, rows, i + 1, count)) by {
            assert forall|j: int| i + 1 <= j < count implies u.parent_of((#[trigger] rows[j]).1)
                == Some(collection) && !u.kids(collection).contains(rows[j].1) by {
                assert(rows[i].1 != rows[j].1);
            }
        }
        assert(gone(u, rows, 0, i + 1)) by {
            assert forall|j: int| 0 <= j < i + 1 implies u.parent_of(
                (#[trigger] rows[j]).1,
            ) is None by {
                if j < i {
                    assert(rows[j].1 != rows[i].1);
                }
            }
        }
        front_dropped(u, collection, rows, count, i + 1, was, ids);
        shed_on(s, u, model::drop_front(u, collection, rows, count, i + 1), collection);
    } else {
        assert forall|x: NodeId| #[trigger] shape::adrift(s, x) implies placing::adrift_still(
            s,
            s,
            x,
        ) by {}
    }
}

/// What a collection's rows are, where everything holds.
proof fn rows_hold(s: Tx, collection: NodeId, was: Map<NodeId, Entry>, ids: Seq<NodeId>)
    requires
        shape::good(s, was, ids),
        s.live(collection),
        s.kind(collection) is Collection,
    ensures
        s.kids(collection) == keyed::items_of(s.rows(collection)),
        apart(s.rows(collection)),
        shape::keys_once(s.rows(collection)),
        forall|i: int|
            0 <= i < s.rows(collection).len() ==> s.parent_of(
                (#[trigger] s.rows(collection)[i]).1,
            ) == Some(collection),
{
    reveal(shape::good);
    let rows = s.rows(collection);
    assert(s.kids(collection).no_duplicates());
    assert forall|i: int, j: int| 0 <= i < j < rows.len() implies (#[trigger] rows[i]).1 != (
    #[trigger] rows[j]).1 by {
        assert(s.kids(collection)[i] != s.kids(collection)[j]);
    }
    assert forall|i: int| 0 <= i < rows.len() implies s.parent_of((#[trigger] rows[i]).1) == Some(
        collection,
    ) by {
        assert(s.kids(collection)[i] == rows[i].1);
        assert(s.kids(collection).contains(rows[i].1));
    }
}

/// Giving a collection other rows.
proof fn rowed(
    s: Tx,
    collection: NodeId,
    rows: Seq<(Chars, NodeId)>,
    was: Map<NodeId, Entry>,
    ids: Seq<NodeId>,
)
    requires
        shape::good(s, was, ids),
        s.live(collection),
        s.kind(collection) is Collection,
        s.settle.contains_key(collection),
        apart(rows),
        shape::keys_once(rows),
        forall|i: int|
            0 <= i < rows.len() ==> s.parent_of((#[trigger] rows[i]).1) == Some(collection),
    ensures
        ({
            let t = model::put_rows(s, collection, rows);
            &&& shape::good(t, was, ids)
            &&& placing::relisted(s, t, collection, keyed::items_of(rows))
            &&& t.live(collection)
            &&& t.rows(collection) == rows
            &&& t.kids(collection) == keyed::items_of(rows)
            &&& t.kind(collection) is Collection
            &&& upkeep::same_name(s.kind(collection), t.kind(collection))
            &&& forall|x: NodeId| #[trigger] t.parent_of(x) == s.parent_of(x)
            &&& forall|x: NodeId| #[trigger]
                shape::adrift(t, x) ==> shape::adrift(s, x) || s.kids(collection).contains(x)
            &&& forall|x: NodeId| #[trigger]
                shape::adrift(t, x) ==> !keyed::items_of(rows).contains(x)
        }),
{
    let kind = Kind::Collection {
        name: s.kind(collection)->Collection_name,
        owner: s.kind(collection)->Collection_owner,
        items: rows,
    };
    let kids = keyed::items_of(rows);
    assert(kind.kids() == kids);
    assert(upkeep::suits(s, collection, kind)) by {
        assert forall|c: NodeId| #[trigger] kind.kids().contains(c) implies s.parent_of(c) == Some(
            collection,
        ) by {
            let j = choose|j: int| 0 <= j < kids.len() && kids[j] == c;
            assert(rows[j].1 == c);
        }
        assert forall|i: int, j: int|
            0 <= i < kids.len() && 0 <= j < kids.len() && i != j implies kids[i] != kids[j] by {
            if i < j {
                assert(rows[i].1 != rows[j].1);
            } else {
                assert(rows[j].1 != rows[i].1);
            }
        }
    }
    upkeep::rekinded(s, collection, kind, was, ids);
    let t = model::put_rows(s, collection, rows);
    assert(t == s.put_kind(collection, kind));
    assert forall|x: NodeId| #[trigger] shape::adrift(t, x) implies (shape::adrift(s, x) || s.kids(
        collection,
    ).contains(x)) && !kids.contains(x) by {
        let p = t.parent_of(x)->0;
        if kids.contains(x) {
            let j = choose|j: int| 0 <= j < kids.len() && kids[j] == x;
            assert(s.parent_of(rows[j].1) == Some(collection));
        }
        if p != collection {
            assert(t.kids(p) == s.kids(p));
        }
    }
}

/// Emptying a stream.
pub proof fn reset_keeps(s: Tx, collection: NodeId, was: Map<NodeId, Entry>, ids: Seq<NodeId>)
    requires
        patching::steady(s, was, ids),
        s.live(collection),
        s.kind(collection) is Collection,
    ensures
        patching::steady(model::stream_reset(s, collection), was, ids),
        model::stream_reset(s, collection).root == s.root,
        model::stream_reset(s, collection).rows(collection).len() == 0,
{
    let rows = s.rows(collection);
    let d = s.touch_dirty(collection);
    upkeep::touched_dirty(s, collection, was, ids);
    rows_hold(s, collection, was, ids);
    let none = Seq::<(Chars, NodeId)>::empty();
    rowed(d, collection, none, was, ids);
    let e = model::put_rows(d, collection, none);
    assert(e.kids(collection) =~= Seq::<NodeId>::empty());
    assert(spilled(e, collection, rows, 0, rows.len() as int)) by {
        assert forall|j: int| 0 <= j < rows.len() implies e.parent_of((#[trigger] rows[j]).1)
            == Some(collection) && !e.kids(collection).contains(rows[j].1) by {
            assert(s.parent_of(rows[j].1) == Some(collection));
        }
    }
    all_carried(e, collection, rows, 0, was, ids);
    let f = model::carry_all(e, collection, rows, 0);
    let t = model::stream_reset(s, collection);
    assert forall|x: NodeId| !#[trigger] shape::adrift(f, x) by {
        if shape::adrift(f, x) {
            assert(placing::adrift_still(e, f, x));
            assert(!shape::adrift(s, x));
            assert(d.parent_of(x) == s.parent_of(x));
            assert(d.kids(collection) == s.kids(collection));
            if !d.kids(collection).contains(x) {
                assert(shape::adrift(d, x));
                assert(d.kids(d.parent_of(x)->0) == s.kids(d.parent_of(x)->0));
            }
            let j = choose|j: int| 0 <= j < d.kids(collection).len() && d.kids(collection)[j] == x;
            assert(rows[j].1 == x);
        }
    }
    patching::steady_alike(f, t, was, ids);
    assert(t.rows(collection) == e.rows(collection));
}

/// Dropping one row.
pub proof fn delete_keeps(
    s: Tx,
    collection: NodeId,
    key: Chars,
    was: Map<NodeId, Entry>,
    ids: Seq<NodeId>,
)
    requires
        patching::steady(s, was, ids),
        s.live(collection),
        s.kind(collection) is Collection,
    ensures
        patching::steady(model::stream_delete(s, collection, key), was, ids),
        model::stream_delete(s, collection, key).root == s.root,
        model::stream_delete(s, collection, key).rows(collection) == keyed::without(
            s.rows(collection),
            key,
        ),
{
    let rows = s.rows(collection);
    if keyed::has_key(rows, key) {
        let at = keyed::key_index(rows, key) as int;
        keyed::key_index_meaning(rows, key);
        let row = rows[at].1;
        let left = rows.remove(at);
        let d = s.touch_dirty(collection);
        upkeep::touched_dirty(s, collection, was, ids);
        rows_hold(s, collection, was, ids);
        assert forall|i: int| 0 <= i < left.len() implies d.parent_of((#[trigger] left[i]).1)
            == Some(collection) by {
            let j = if i < at {
                i
            } else {
                i + 1
            };
            assert(left[i] == rows[j]);
        }
        assert(apart(left) && shape::keys_once(left)) by {
            assert forall|i: int, j: int| 0 <= i < j < left.len() implies (#[trigger] left[i]).1
                != (#[trigger] left[j]).1 && left[i].0 != left[j].0 by {
                let a = if i < at {
                    i
                } else {
                    i + 1
                };
                let b = if j < at {
                    j
                } else {
                    j + 1
                };
                assert(rows[a].1 != rows[b].1 && rows[a].0 != rows[b].0);
            }
        }
        rowed(d, collection, left, was, ids);
        let e = model::put_rows(d, collection, left);
        assert(!e.kids(collection).contains(row)) by {
            if e.kids(collection).contains(row) {
                let i = choose|i: int|
                    0 <= i < e.kids(collection).len() && e.kids(collection)[i] == row;
                let j = if i < at {
                    i
                } else {
                    i + 1
                };
                assert(left[i] == rows[j]);
                if j < at {
                    assert(rows[j].1 != rows[at].1);
                } else {
                    assert(rows[at].1 != rows[j].1);
                }
            }
        }
        let edit = Edit::Removed { key, index: at as nat };
        assert(s.parent_of(rows[at].1) == Some(collection));
        carried_one(e, collection, key, row, Some(edit), was, ids);
        let t = model::stream_delete(s, collection, key);
        assert(t == e.carry_out(collection, key, row).log_edit(collection, edit));
        assert forall|x: NodeId| !#[trigger] shape::adrift(t, x) by {
            if shape::adrift(t, x) {
                assert(placing::adrift_still(e, t, x));
                assert(!shape::adrift(s, x));
                assert(d.parent_of(x) == s.parent_of(x));
                assert(d.kids(collection) == s.kids(collection));
                if !d.kids(collection).contains(x) {
                    assert(shape::adrift(d, x));
                    assert(d.kids(d.parent_of(x)->0) == s.kids(d.parent_of(x)->0));
                }
                let j = choose|j: int|
                    0 <= j < d.kids(collection).len() && d.kids(collection)[j] == x;
                assert(rows[j].1 == x);
                assert(j != at);
                let i = if j < at {
                    j
                } else {
                    j - 1
                };
                assert(left[i] == rows[j]);
                assert(keyed::items_of(left)[i] == x);
            }
        }
    }
}

/// What claiming a row for an insert leaves.
pub open spec fn row_claimed(
    s: Tx,
    a: Tx,
    collection: NodeId,
    key: Chars,
    row: Option<NodeId>,
    was: Map<NodeId, Entry>,
    ids: Seq<NodeId>,
) -> bool {
    &&& shape::good(a, was, ids)
    &&& a.root == s.root
    &&& a.live(collection)
    &&& a.kind(collection) == s.kind(collection)
    &&& a.settle.contains_key(collection)
    &&& a.allocated == s.allocated
    &&& row matches Some(e) ==> a.parent_of(e) == Some(collection)
    &&& forall|x: NodeId| #[trigger] shape::adrift(a, x) ==> row == Some(x)
    &&& if keyed::has_key(s.rows(collection), key) {
        row == keyed::lookup(s.rows(collection), key) && exchanging::calm(a)
    } else {
        row matches Some(e) ==> shape::adrift(a, e)
    }
}

proof fn claimed_row(
    s: Tx,
    collection: NodeId,
    key: Chars,
    depth: nat,
    was: Map<NodeId, Entry>,
    ids: Seq<NodeId>,
)
    requires
        patching::steady(s, was, ids),
        s.live(collection),
        s.kind(collection) is Collection,
        s.settle.contains_key(collection),
        depth >= 1,
        shape::climbs(s.nodes, collection, (depth - 1) as nat),
        model::claim_row(s, collection, key, depth).1 is Ok,
    ensures
        row_claimed(
            s,
            model::claim_row(s, collection, key, depth).0,
            collection,
            key,
            model::claim_row(s, collection, key, depth).1->Ok_0,
            was,
            ids,
        ),
        shape::climbs(
            model::claim_row(s, collection, key, depth).0.nodes,
            collection,
            (depth - 1) as nat,
        ),
{
    let (a, found) = model::claim_row(s, collection, key, depth);
    let rows = s.rows(collection);
    rows_hold(s, collection, was, ids);
    keyed::key_index_meaning(rows, key);
    if keyed::has_key(rows, key) {
        let at = keyed::key_index(rows, key) as int;
        assert(s.parent_of(rows[at].1) == Some(collection));
    } else if let Some(row) = found->Ok_0 {
        let kept = guard::spine(s, collection);
        let after = slots::with_parent(s.nodes, row, Some(collection));
        let none = Set::<NodeId>::empty();
        assert(shape::bounded(s.nodes) && shape::stowed(s)) by {
            reveal(shape::good);
        }
        assert(s.carry.contains_key((collection, key)) && s.carry[(collection, key)] == row);
        assert(s.parent_of(row) is None);
        guard::guards_spine(s, collection);
        assert(placing::moored(s, kept, none)) by {
            assert forall|x: NodeId| #[trigger] shape::adrift(s, x) implies kept.contains(x) by {
                assert(!shape::adrift(s, x));
            }
        }
        assert(kept.contains(collection) && (forall|x: NodeId| #[trigger]
            kept.contains(x) ==> (s.parent_of(x) matches Some(up) ==> kept.contains(up)))) by {
            reveal(guard::guards);
        }
        assert(placing::moved_below(s, after, row, collection));
        placing::bounded_moved(s, after, row, collection, depth, kept, none);
        upkeep::reclaimed(s, collection, key, was, ids);
        assert(a.kids(collection) == s.kids(collection)) by {
            assert(row != collection);
        }
        assert forall|x: NodeId| #[trigger] shape::adrift(a, x) implies Some(row) == Some(x) by {
            if x != row {
                assert(!shape::adrift(s, x));
                assert(a.parent_of(x) == s.parent_of(x));
                let p = a.parent_of(x)->0;
                assert(a.kids(p) == s.kids(p));
            }
        }
        assert(!a.kids(collection).contains(row));
        assert(shape::adrift(a, row));
    }
}

/// What an insert that is about to land starts from.
pub open spec fn may_land(
    a: Tx,
    b: Tx,
    collection: NodeId,
    key: Chars,
    existing: Option<NodeId>,
    row: NodeId,
    was: Map<NodeId, Entry>,
    ids: Seq<NodeId>,
) -> bool {
    &&& shape::good(a, was, ids)
    &&& shape::good(b, was, ids)
    &&& a.live(collection)
    &&& b.live(collection)
    &&& a.kind(collection) is Collection
    &&& b.kind(collection) is Collection
    &&& b.settle.contains_key(collection)
    &&& b.parent_of(row) == Some(collection)
    &&& forall|i: int|
        0 <= i < b.rows(collection).len() ==> a.rows(collection).contains(
            #[trigger] b.rows(collection)[i],
        )
    &&& forall|x: NodeId| #[trigger]
        shape::adrift(b, x) ==> x == row || (existing == Some(x) && b.parent_of(x) == Some(
            collection,
        ))
    &&& existing != Some(row) ==> shape::adrift(b, row)
    &&& existing == Some(row) && shape::adrift(a, row) ==> a.parent_of(row) == Some(collection)
    &&& if keyed::has_key(a.rows(collection), key) {
        existing == keyed::lookup(a.rows(collection), key) && exchanging::calm(a)
    } else {
        existing matches Some(e) ==> shape::adrift(a, e) && a.parent_of(e) == Some(collection)
    }
}

/// A row of `b` that is the one the insert reconciled into stands under the key.
proof fn stands_under_key(
    a: Tx,
    b: Tx,
    collection: NodeId,
    key: Chars,
    existing: Option<NodeId>,
    row: NodeId,
    k: int,
    was: Map<NodeId, Entry>,
    ids: Seq<NodeId>,
)
    requires
        may_land(a, b, collection, key, existing, row, was, ids),
        0 <= k < b.rows(collection).len(),
    ensures
        existing == Some(b.rows(collection)[k].1) <==> b.rows(collection)[k].0 == key,
{
    let rows = a.rows(collection);
    let held = b.rows(collection);
    rows_hold(a, collection, was, ids);
    keyed::key_index_meaning(rows, key);
    let c = keyed::key_index(rows, key) as int;
    assert(rows.contains(held[k]));
    let i = choose|i: int| 0 <= i < rows.len() && rows[i] == held[k];
    if keyed::has_key(rows, key) {
        if i < c {
            assert(rows[i].0 != rows[c].0 && rows[i].1 != rows[c].1);
        } else if c < i {
            assert(rows[c].0 != rows[i].0 && rows[c].1 != rows[i].1);
        }
    } else {
        assert(rows[i].0 != key);
        if existing == Some(held[k].1) {
            assert(a.kids(collection)[i] == held[k].1);
            assert(a.kids(collection).contains(held[k].1));
        }
    }
}

/// Where the rows of a list go when one key is taken out.
proof fn without_at(held: Seq<(Chars, NodeId)>, key: Chars, j: int) -> (k: int)
    requires
        0 <= j < keyed::without(held, key).len(),
        shape::keys_once(held),
    ensures
        0 <= k < held.len(),
        keyed::without(held, key)[j] == held[k],
        held[k].0 != key,
{
    keyed::key_index_meaning(held, key);
    let spot = keyed::key_index(held, key) as int;
    if keyed::has_key(held, key) {
        let k = if j < spot {
            j
        } else {
            j + 1
        };
        if k < spot {
            assert(held[k].0 != key);
        } else {
            assert(held[spot].0 != held[k].0);
        }
        k
    } else {
        assert(held[j].0 != key);
        j
    }
}

/// The rows with the one that lands among them.
pub open spec fn landed_rows(
    b: Tx,
    collection: NodeId,
    key: Chars,
    row: NodeId,
    at: i64,
) -> Seq<(Chars, NodeId)> {
    let rest = keyed::without(b.rows(collection), key);
    rest.insert(model::landing(at, rest.len()) as int, (key, row))
}

/// The rows with the one that lands among them differ, and are the collection's.
proof fn landing_rows(
    a: Tx,
    b: Tx,
    collection: NodeId,
    key: Chars,
    existing: Option<NodeId>,
    row: NodeId,
    at: i64,
    was: Map<NodeId, Entry>,
    ids: Seq<NodeId>,
)
    requires
        may_land(a, b, collection, key, existing, row, was, ids),
    ensures
        ({
            let rows = landed_rows(b, collection, key, row, at);
            &&& apart(rows)
            &&& shape::keys_once(rows)
            &&& forall|i: int|
                0 <= i < rows.len() ==> b.parent_of((#[trigger] rows[i]).1) == Some(collection)
            &&& forall|i: int|
                0 <= i < rows.len() ==> existing != Some((#[trigger] rows[i]).1) || rows[i].1
                    == row
            &&& forall|k: int|
                0 <= k < b.rows(collection).len() ==> existing == Some(
                    (#[trigger] b.rows(collection)[k]).1,
                ) || rows.contains(b.rows(collection)[k])
            &&& rows.contains((key, row))
        }),
{
    let held = b.rows(collection);
    let rest = keyed::without(held, key);
    let to = model::landing(at, rest.len()) as int;
    let rows = landed_rows(b, collection, key, row, at);
    rows_hold(b, collection, was, ids);
    assert(rows[to] == (key, row));
    assert forall|j: int| 0 <= j < rest.len() implies (#[trigger] rest[j]).1 != row && rest[j].0
        != key && b.parent_of(rest[j].1) == Some(collection) && existing != Some(rest[j].1) by {
        let k = without_at(held, key, j);
        stands_under_key(a, b, collection, key, existing, row, k, was, ids);
        if held[k].1 == row {
            assert(b.kids(collection)[k] == row);
            assert(b.kids(collection).contains(row));
        }
    }
    assert forall|i: int| 0 <= i < rows.len() implies b.parent_of((#[trigger] rows[i]).1) == Some(
        collection,
    ) && (existing != Some(rows[i].1) || rows[i].1 == row) by {
        if i != to {
            let j = if i < to {
                i
            } else {
                i - 1
            };
            assert(rows[i] == rest[j]);
        }
    }
    assert forall|i: int, j: int| 0 <= i < j < rows.len() implies (#[trigger] rows[i]).1 != (
    #[trigger] rows[j]).1 && rows[i].0 != rows[j].0 by {
        let x = if i < to {
            i
        } else {
            i - 1
        };
        let y = if j < to {
            j
        } else {
            j - 1
        };
        if i == to {
            assert(rows[j] == rest[y]);
        } else if j == to {
            assert(rows[i] == rest[x]);
        } else {
            assert(rows[i] == rest[x] && rows[j] == rest[y]);
            rest_apart(held, key, x, y);
        }
    }
    assert forall|k: int| 0 <= k < held.len() implies existing == Some((#[trigger] held[k]).1)
        || rows.contains(held[k]) by {
        stands_under_key(a, b, collection, key, existing, row, k, was, ids);
        if held[k].0 != key {
            keyed::key_index_meaning(held, key);
            let spot = keyed::key_index(held, key) as int;
            let j = if !keyed::has_key(held, key) || k < spot {
                k
            } else {
                k - 1
            };
            assert(rest[j] == held[k]);
            let i = if j < to {
                j
            } else {
                j + 1
            };
            assert(rows[i] == rest[j]);
        }
    }
}

proof fn rest_apart(held: Seq<(Chars, NodeId)>, key: Chars, x: int, y: int)
    requires
        apart(held),
        shape::keys_once(held),
        0 <= x < y < keyed::without(held, key).len(),
    ensures
        keyed::without(held, key)[x].1 != keyed::without(held, key)[y].1,
        keyed::without(held, key)[x].0 != keyed::without(held, key)[y].0,
{
    let spot = keyed::key_index(held, key) as int;
    let whole = !keyed::has_key(held, key);
    let p = if whole || x < spot {
        x
    } else {
        x + 1
    };
    let q = if whole || y < spot {
        y
    } else {
        y + 1
    };
    assert(keyed::without(held, key)[x] == held[p] && keyed::without(held, key)[y] == held[q]);
    assert(held[p].1 != held[q].1 && held[p].0 != held[q].0);
}

/// The row that lands.
proof fn landed(
    a: Tx,
    b: Tx,
    collection: NodeId,
    key: Chars,
    existing: Option<NodeId>,
    row: NodeId,
    at: i64,
    limit: Option<i64>,
    was: Map<NodeId, Entry>,
    ids: Seq<NodeId>,
)
    requires
        may_land(a, b, collection, key, existing, row, was, ids),
    ensures
        ({
            let t = model::land_row(b, collection, key, existing, row, at, limit);
            let left = model::trimmed(landed_rows(b, collection, key, row, at), limit, at);
            &&& patching::steady(t, was, ids)
            &&& t.root == b.root
            &&& t.live(collection)
            &&& t.kind(collection) is Collection
            &&& t.rows(collection) == left
            &&& placing::relisted(b, t, collection, keyed::items_of(left))
        }),
{
    let held = b.rows(collection);
    let rest = keyed::without(held, key);
    let to = model::landing(at, rest.len()) as int;
    let rows = landed_rows(b, collection, key, row, at);
    let left = model::trimmed(rows, limit, at);
    let spot = keyed::key_index(held, key) as int;
    landing_rows(a, b, collection, key, existing, row, at, was, ids);
    rows_hold(b, collection, was, ids);
    // which rows stay
    let (lo, hi) = kept_range(rows.len(), limit, at);
    assert(left =~= rows.subrange(lo, hi));
    assert(apart(left) && shape::keys_once(left)) by {
        assert forall|i: int, j: int| 0 <= i < j < left.len() implies (#[trigger] left[i]).1 != (
        #[trigger] left[j]).1 && left[i].0 != left[j].0 by {
            assert(left[i] == rows[lo + i] && left[j] == rows[lo + j]);
            assert(rows[lo + i].1 != rows[lo + j].1 && rows[lo + i].0 != rows[lo + j].0);
        }
    }
    assert forall|i: int| 0 <= i < left.len() implies b.parent_of((#[trigger] left[i]).1) == Some(
        collection,
    ) by {
        assert(left[i] == rows[lo + i]);
    }
    rowed(b, collection, left, was, ids);
    let t = model::put_rows(b, collection, left);
    let kids = keyed::items_of(left);
    assert forall|x: NodeId| #[trigger] kids.contains(x) implies existing != Some(x) || x == row by {
        let i = choose|i: int| 0 <= i < kids.len() && kids[i] == x;
        assert(left[i] == rows[lo + i]);
    }
    // the row that was displaced
    let u = match existing {
        Some(old) => if old == row {
            t
        } else {
            t.release_if_mine(collection, old)
        },
        None => t,
    };
    displaced(t, u, collection, existing, row, was, ids);
    let logged = if !keyed::has_key(held, key) {
        u.log_edit(collection, Edit::Inserted { key, index: to as nat, node: row })
    } else if spot == to {
        u
    } else {
        u.log_edit(collection, Edit::Moved { key, from: spot as nat, to: to as nat })
    };
    assert(shape::good(logged, was, ids)) by {
        reveal(shape::good);
        upkeep::alike_keeps(u, logged, was, ids);
    }
    shed_alike(t, u, logged, collection);
    // what falls out
    let f = model::land_row(b, collection, key, existing, row, at, limit);
    assert(f == model::drop_overflow(logged, collection, rows, limit, at));
    assert(logged.kids(collection) == kids);
    assert forall|j: int|
        (0 <= j < lo || hi <= j < rows.len()) implies logged.parent_of((#[trigger] rows[j]).1)
        == Some(collection) && !logged.kids(collection).contains(rows[j].1) by {
        assert(b.parent_of(rows[j].1) == Some(collection));
        assert(t.parent_of(rows[j].1) == Some(collection));
        if kids.contains(rows[j].1) {
            let i = choose|i: int| 0 <= i < kids.len() && kids[i] == rows[j].1;
            assert(left[i] == rows[lo + i]);
            if lo + i < j {
                assert(rows[lo + i].1 != rows[j].1);
            } else {
                assert(rows[j].1 != rows[lo + i].1);
            }
        }
        assert(existing != Some(rows[j].1) || rows[j].1 == row);
        assert(u.parent_of(rows[j].1) == t.parent_of(rows[j].1));
    }
    overflow_dropped(logged, collection, rows, limit, at, was, ids);
    assert(f.rows(collection) == left);
    assert(placing::relisted(b, f, collection, kids)) by {
        placing::relisted_on(b, t, logged, collection, kids);
        placing::relisted_on(b, logged, f, collection, kids);
    }
    assert forall|x: NodeId| !#[trigger] shape::adrift(f, x) by {
        if shape::adrift(f, x) {
            assert(placing::adrift_still(logged, f, x));
            assert(placing::adrift_still(t, logged, x));
            assert(t.parent_of(x) == b.parent_of(x));
            assert(!kids.contains(x));
            if existing == Some(x) && x != row {
                assert(logged.parent_of(x) == u.parent_of(x));
                assert(t.parent_of(x) == Some(collection)) by {
                    if !shape::adrift(b, x) {
                        assert(b.kids(collection).contains(x));
                        let k = choose|k: int|
                            0 <= k < b.kids(collection).len() && b.kids(collection)[k] == x;
                        assert(held[k].1 == x);
                    }
                }
            } else {
                assert(exists|i: int| 0 <= i < rows.len() && (#[trigger] rows[i]).1 == x) by {
                    if x == row {
                        let i = choose|i: int| 0 <= i < rows.len() && rows[i] == (key, row);
                        assert(rows[i].1 == x);
                    } else {
                        assert(b.kids(collection).contains(x));
                        let k = choose|k: int|
                            0 <= k < b.kids(collection).len() && b.kids(collection)[k] == x;
                        assert(held[k].1 == x);
                        let i = choose|i: int| 0 <= i < rows.len() && rows[i] == held[k];
                        assert(rows[i].1 == x);
                    }
                }
                let i = choose|i: int| 0 <= i < rows.len() && (#[trigger] rows[i]).1 == x;
                falls_out(rows, left, lo, hi, i, f, collection);
            }
        }
    }
}

/// Letting go of the row that was displaced.
proof fn displaced(
    t: Tx,
    u: Tx,
    collection: NodeId,
    existing: Option<NodeId>,
    row: NodeId,
    was: Map<NodeId, Entry>,
    ids: Seq<NodeId>,
)
    requires
        shape::good(t, was, ids),
        t.live(collection),
        forall|x: NodeId| #[trigger]
            t.kids(collection).contains(x) ==> existing != Some(x) || x == row,
        u == (match existing {
            Some(old) => if old == row {
                t
            } else {
                t.release_if_mine(collection, old)
            },
            None => t,
        }),
    ensures
        shape::good(u, was, ids),
        shed(t, u, collection),
        existing matches Some(old) ==> old == row || u.parent_of(old) != Some(collection),
        forall|x: NodeId|
            existing != Some(x) || x == row ==> #[trigger] u.parent_of(x) == t.parent_of(x),
{
    if existing is Some && existing != Some(row) {
        placing::released_one(t, collection, existing->0, was, ids);
        assert(u.live(collection) == t.live(collection));
        released_parents(t, collection, existing->0, was, ids);
    } else {
        assert forall|x: NodeId| #[trigger] shape::adrift(t, x) implies placing::adrift_still(
            t,
            u,
            x,
        ) by {}
    }
}

proof fn shed_alike(s: Tx, t: Tx, u: Tx, id: NodeId)
    requires
        shed(s, t, id),
        u == (Tx { edits: u.edits, ..t }),
    ensures
        shed(s, u, id),
{
    relisted_alike(s, t, u, id, s.kids(id));
    assert forall|x: NodeId| #[trigger] shape::adrift(u, x) implies placing::adrift_still(
        s,
        u,
        x,
    ) by {
        assert(shape::adrift(t, x));
        assert(placing::adrift_still(s, t, x));
    }
}

/// A row that is not left has gone.
proof fn falls_out(
    rows: Seq<(Chars, NodeId)>,
    left: Seq<(Chars, NodeId)>,
    lo: int,
    hi: int,
    i: int,
    f: Tx,
    collection: NodeId,
)
    requires
        0 <= lo <= hi <= rows.len(),
        left == rows.subrange(lo, hi),
        0 <= i < rows.len(),
        gone(f, rows, 0, lo),
        gone(f, rows, hi, rows.len() as int),
        !keyed::items_of(left).contains(rows[i].1),
    ensures
        f.parent_of(rows[i].1) is None,
{
    if lo <= i < hi {
        assert(left[i - lo] == rows[i]);
        assert(keyed::items_of(left)[i - lo] == rows[i].1);
    }
}

/// Releasing one child changes no other parent.
proof fn released_parents(
    s: Tx,
    id: NodeId,
    child: NodeId,
    was: Map<NodeId, Entry>,
    ids: Seq<NodeId>,
)
    requires
        shape::good(s, was, ids),
        s.live(id),
        !s.kids(id).contains(child),
    ensures
        forall|x: NodeId|
            x != child ==> #[trigger] s.release_if_mine(id, child).parent_of(x) == s.parent_of(x),
{
    if s.parent_of(child) == Some(id) {
        upkeep::released(s, child, was, ids);
    }
}

proof fn relisted_alike(s: Tx, t: Tx, u: Tx, id: NodeId, kids: Seq<NodeId>)
    requires
        placing::relisted(s, t, id, kids),
        u == (Tx { edits: u.edits, ..t }),
    ensures
        placing::relisted(s, u, id, kids),
{
    assert forall|x: NodeId| #[trigger] u.live(x) == s.live(x) by {
        assert(t.live(x) == s.live(x));
    }
    assert forall|x: NodeId| #[trigger]
        u.parent_of(x) == s.parent_of(x) || (s.parent_of(x) == Some(id) && !kids.contains(x)
            && u.parent_of(x) is None) by {
        assert(t.parent_of(x) == u.parent_of(x));
    }
}

/// Which rows a limit leaves.
pub open spec fn kept_range(len: nat, limit: Option<i64>, at: i64) -> (int, int) {
    match limit {
        None => (0, len as int),
        Some(limit) => if len <= model::cap_of(limit) {
            (0, len as int)
        } else if model::trims_end(limit, at) {
            (0, model::cap_of(limit) as int)
        } else {
            (len - model::cap_of(limit), len as int)
        },
    }
}

/// Carrying out the rows that a limit drops.
proof fn overflow_dropped(
    s: Tx,
    collection: NodeId,
    rows: Seq<(Chars, NodeId)>,
    limit: Option<i64>,
    at: i64,
    was: Map<NodeId, Entry>,
    ids: Seq<NodeId>,
)
    requires
        shape::good(s, was, ids),
        s.live(collection),
        apart(rows),
        forall|j: int|
            (0 <= j < kept_range(rows.len(), limit, at).0 || kept_range(rows.len(), limit, at).1
                <= j < rows.len()) ==> s.parent_of((#[trigger] rows[j]).1) == Some(collection)
                && !s.kids(collection).contains(rows[j].1),
    ensures
        ({
            let t = model::drop_overflow(s, collection, rows, limit, at);
            let (lo, hi) = kept_range(rows.len(), limit, at);
            &&& shape::good(t, was, ids)
            &&& shed(s, t, collection)
            &&& gone(t, rows, 0, lo)
            &&& gone(t, rows, hi, rows.len() as int)
        }),
{
    let t = model::drop_overflow(s, collection, rows, limit, at);
    assert forall|x: NodeId| #[trigger] shape::adrift(s, x) implies placing::adrift_still(
        s,
        s,
        x,
    ) by {}
    if let Some(l) = limit {
        if rows.len() > model::cap_of(l) {
            if model::trims_end(l, at) {
                end_dropped(
                    s,
                    collection,
                    rows,
                    model::cap_of(l),
                    rows.len() as int,
                    was,
                    ids,
                );
            } else {
                front_dropped(
                    s,
                    collection,
                    rows,
                    rows.len() - model::cap_of(l),
                    0,
                    was,
                    ids,
                );
            }
        }
    }
}

/// The node that an insert lands.
pub open spec fn inserted(
    s: Tx,
    collection: NodeId,
    key: Chars,
    v: Json,
    ids: Seq<NodeId>,
) -> NodeId {
    let depth = model::deeper(s.depth(collection));
    let (a, claimed) = model::claim_row(s.touch_dirty(collection), collection, key, depth);
    let owner = s.kind(collection)->Collection_owner;
    model::reconcile_child(a, collection, claimed->Ok_0, v, owner, depth, ids).1->Ok_0
}

/// Upsert, then position, then trim.
#[verifier::rlimit(40)]
#[verifier::spinoff_prover]
pub proof fn insert_keeps(
    s: Tx,
    collection: NodeId,
    key: Chars,
    v: Json,
    at: i64,
    limit: Option<i64>,
    ids: Seq<NodeId>,
    n: nat,
    was: Map<NodeId, Entry>,
)
    requires
        patching::steady(s, was, ids),
        s.live(collection),
        s.kind(collection) is Collection,
        v.well_formed(),
        value::nesting(v) < n,
        model::stream_insert(s, collection, key, v, at, limit, ids).1 is Ok,
        model::stream_insert(s, collection, key, v, at, limit, ids).0.allocated.len() <= ids.len(),
    ensures
        ({
            let t = model::stream_insert(s, collection, key, v, at, limit, ids).0;
            &&& patching::steady(t, was, ids)
            &&& t.root == s.root
            &&& t.live(collection)
            &&& t.kind(collection) is Collection
            &&& forall|i: int|
                0 <= i < t.rows(collection).len() && (#[trigger] t.rows(collection)[i]).0 == key
                    ==> guard::shows(t, t.rows(collection)[i].1, v, n) && t.rows(collection)[i].1
                    == inserted(s, collection, key, v, ids)
            &&& exists|others: Seq<(Chars, NodeId)>, row: NodeId| #[trigger]
                lands(s.rows(collection), others, key, row, at, limit, t.rows(collection)) && (
                plain::plain(v) ==> others == keyed::without(s.rows(collection), key))
        }),
{
    let owner = s.kind(collection)->Collection_owner;
    let depth = model::deeper(s.depth(collection));
    let d = s.touch_dirty(collection);
    upkeep::touched_dirty(s, collection, was, ids);
    assert(patching::steady(d, was, ids)) by {
        assert forall|x: NodeId| !#[trigger] shape::adrift(d, x) by {
            assert(!shape::adrift(s, x));
            assert(d.kids(d.parent_of(x)->0) == s.kids(d.parent_of(x)->0));
        }
    }
    assert(shape::bounded(s.nodes)) by {
        reveal(shape::good);
    }
    shape::depth_step(s, collection);
    reconciling::one_deeper(s, collection, s.depth(collection));
    let (a, claimed) = model::claim_row(d, collection, key, depth);
    let existing = claimed->Ok_0;
    claimed_row(d, collection, key, depth, was, ids);
    assert(shape::bounded(a.nodes)) by {
        reveal(shape::good);
    }
    let kept = guard::spine(a, collection);
    let loose = match existing {
        Some(e) => Set::<NodeId>::empty().insert(e),
        None => Set::<NodeId>::empty(),
    };
    guard::guards_spine(a, collection);
    if let Some(e) = existing {
        patching::child_below(a, collection, e);
    }
    assert(kept.contains(collection));
    assert(placing::moored(a, kept, loose)) by {
        assert forall|x: NodeId| #[trigger] shape::adrift(a, x) implies kept.contains(x) || (
        loose.contains(x) && kept.contains(a.parent_of(x)->0)) by {}
    }
    let (b, child) = model::reconcile_child(a, collection, existing, v, owner, depth, ids);
    let row = child->Ok_0;
    let t = model::stream_insert(s, collection, key, v, at, limit, ids).0;
    assert(t == model::land_row(b, collection, key, existing, row, at, limit));
    growth::land_row_makes_none(b, collection, key, existing, row, at, limit);
    reconciling::reconcile_child_keeps(
        a,
        collection,
        existing,
        v,
        owner,
        depth,
        ids,
        n,
        loose,
        kept,
        was,
    );
    reconciling::kind_kept(a, b, collection, kept);
    assert(b.settle.contains_key(collection) && b.root == a.root) by {
        reveal(guard::keeps);
    }
    assert forall|x: NodeId| #[trigger] shape::adrift(b, x) implies x == row || (existing == Some(
        x,
    ) && b.parent_of(x) == Some(collection)) by {
        if x != row {
            assert(placing::adrift_still(a, b, x));
        }
    }
    assert(may_land(a, b, collection, key, existing, row, was, ids));
    landed(a, b, collection, key, existing, row, at, limit, was, ids);
    let left = model::trimmed(landed_rows(b, collection, key, row, at), limit, at);
    landing_rows(a, b, collection, key, existing, row, at, was, ids);
    let rows = landed_rows(b, collection, key, row, at);
    let (lo, hi) = kept_range(rows.len(), limit, at);
    assert(left =~= rows.subrange(lo, hi));
    assert forall|i: int|
        0 <= i < t.rows(collection).len() && (#[trigger] t.rows(collection)[i]).0
            == key implies guard::shows(t, t.rows(collection)[i].1, v, n) && t.rows(collection)[i].1
        == inserted(s, collection, key, v, ids) by {
        assert(left[i] == rows[lo + i]);
        let j = choose|j: int| 0 <= j < rows.len() && rows[j] == (key, row);
        if lo + i < j {
            assert(rows[lo + i].0 != rows[j].0);
        } else if j < lo + i {
            assert(rows[j].0 != rows[lo + i].0);
        }
        assert(keyed::items_of(left)[i] == row);
        reconciling::kid_given(b, t, collection, keyed::items_of(left), row, v, n, kept);
    }
    let others = keyed::without(b.rows(collection), key);
    if plain::plain(v) {
        plain::reconcile_child_fades(a, collection, existing, v, owner, depth, collection, ids);
        assert(a.rows(collection) == s.rows(collection));
    }
    assert(lands(s.rows(collection), others, key, row, at, limit, t.rows(collection))) by {
        assert(a.rows(collection) == s.rows(collection));
        rows_hold(b, collection, was, ids);
        keyed::key_index_meaning(b.rows(collection), key);
        let spot = keyed::key_index(b.rows(collection), key) as int;
        assert forall|i: int| 0 <= i < others.len() implies (#[trigger] others[i]).0 != key
            && s.rows(collection).contains(others[i]) by {
            let j = if keyed::has_key(b.rows(collection), key) && i >= spot {
                i + 1
            } else {
                i
            };
            assert(b.rows(collection)[j] == others[i]);
        }
    }
}

/// Whether a row landed where an insert puts it, among others that were there, and
/// the limit was kept. Where the item holds a store or a stream that was a row, that
/// is no longer among the others.
pub open spec fn lands(
    before: Seq<(Chars, NodeId)>,
    others: Seq<(Chars, NodeId)>,
    key: Chars,
    row: NodeId,
    at: i64,
    limit: Option<i64>,
    after: Seq<(Chars, NodeId)>,
) -> bool {
    &&& after == model::trimmed(
        others.insert(model::landing(at, others.len()) as int, (key, row)),
        limit,
        at,
    )
    &&& forall|i: int|
        0 <= i < others.len() ==> (#[trigger] others[i]).0 != key && before.contains(others[i])
}

/// The document a stream op carries is of ordered keys.
pub open spec fn op_formed(op: StreamOp) -> bool {
    op matches StreamOp::Insert { item, .. } ==> item@.well_formed()
}

/// One stream op keeps everything.
pub proof fn stream_op_keeps(s: Tx, op: StreamOp, ids: Seq<NodeId>, was: Map<NodeId, Entry>)
    requires
        patching::steady(s, was, ids),
        op_formed(op),
        model::apply_stream_op(s, op, ids).1 is Ok,
        model::apply_stream_op(s, op, ids).0.allocated.len() <= ids.len(),
    ensures
        patching::steady(model::apply_stream_op(s, op, ids).0, was, ids),
        model::apply_stream_op(s, op, ids).0.root == s.root,
        s.streams.contains_key(op.target()) ==> s.live(s.streams[op.target()]) && s.kind(
            s.streams[op.target()],
        ) is Collection,
        s.streams.contains_key(op.target()) && op is Insert ==> ({
            let t = model::apply_stream_op(s, op, ids).0;
            t.live(s.streams[op.target()]) && t.kind(s.streams[op.target()]) is Collection
        }),
{
    let t = s.unclaim();
    patching::steady_alike(s, t, was, ids);
    if let Some(collection) = t.streams.get(op.target()) {
        assert(shape::is_stream(t, collection, op.target())) by {
            reveal(shape::good);
            assert(t.streams.contains_key(op.target()));
        }
        match op {
            StreamOp::Reset { .. } => {
                reset_keeps(t, collection, was, ids);
            },
            StreamOp::Delete { item_key, .. } => {
                delete_keeps(t, collection, item_key@, was, ids);
            },
            StreamOp::Insert { item_key, at, item, limit, .. } => {
                insert_keeps(
                    t,
                    collection,
                    item_key@,
                    item@,
                    at,
                    limit,
                    ids,
                    value::nesting(item@) + 1,
                    was,
                );
            },
        }
    }
}

} // verus!
