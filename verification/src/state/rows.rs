//! The rows of a stream: where an item lands, which rows a limit leaves, and which node an
//! item has.

use vstd::prelude::*;

use crate::state::change::Edit;
use crate::state::commit;
use crate::state::error::Fault;
use crate::state::journal;
use crate::state::journal::Tree;
use crate::state::keyed;
use crate::state::laws;
use crate::state::marker;
use crate::state::model;
use crate::state::model::{Tx, MAX_DEPTH, MAX_WALK};
use crate::state::moving;
use crate::state::node::NodeId;
use crate::state::patching;
use crate::state::plain;
use crate::state::replay;
use crate::state::shape;
use crate::state::streaming;
use crate::state::text::Chars;
use crate::state::tree;
use crate::state::value::Json;
use crate::state::wire::{PatchOp, StreamOp};

verus! {

// ---------------------------------------------------------------------- where it lands

/// The rows of any other key, in the order they are in.
pub open spec fn other_rows(rows: Seq<(Chars, NodeId)>, key: Chars) -> Seq<(Chars, NodeId)>
    decreases rows.len(),
{
    if rows.len() == 0 {
        Seq::empty()
    } else if rows.last().0 == key {
        other_rows(rows.drop_last(), key)
    } else {
        other_rows(rows.drop_last(), key).push(rows.last())
    }
}

proof fn no_such_row(rows: Seq<(Chars, NodeId)>, key: Chars)
    requires
        forall|i: int| 0 <= i < rows.len() ==> (#[trigger] rows[i]).0 != key,
    ensures
        other_rows(rows, key) == rows,
    decreases rows.len(),
{
    if rows.len() > 0 {
        let front = rows.drop_last();
        assert forall|i: int| 0 <= i < front.len() implies (#[trigger] front[i]).0 != key by {
            assert(rows[i].0 != key);
        }
        no_such_row(front, key);
        assert(rows.last() == rows[rows.len() - 1]);
        assert(front.push(rows.last()) =~= rows);
    }
}

proof fn one_row(rows: Seq<(Chars, NodeId)>, key: Chars, at: int)
    requires
        0 <= at < rows.len(),
        rows[at].0 == key,
        shape::keys_once(rows),
    ensures
        other_rows(rows, key) == rows.remove(at),
    decreases rows.len(),
{
    let front = rows.drop_last();
    assert forall|i: int, j: int| 0 <= i < j < front.len() implies (#[trigger] front[i]).0 != (
    #[trigger] front[j]).0 by {
        assert(rows[i].0 != rows[j].0);
    }
    if at == rows.len() - 1 {
        assert forall|i: int| 0 <= i < front.len() implies (#[trigger] front[i]).0 != key by {
            assert(rows[i].0 != rows[at].0);
        }
        no_such_row(front, key);
        assert(rows.remove(at) =~= front);
    } else {
        assert(front[at].0 == key);
        one_row(front, key, at);
        assert(rows[at].0 != rows[rows.len() - 1].0);
        assert(front.remove(at).push(rows.last()) =~= rows.remove(at));
    }
}

proof fn without_is(rows: Seq<(Chars, NodeId)>, key: Chars)
    requires
        shape::keys_once(rows),
    ensures
        keyed::without(rows, key) == other_rows(rows, key),
{
    keyed::key_index_meaning(rows, key);
    if keyed::has_key(rows, key) {
        one_row(rows, key, keyed::key_index(rows, key) as int);
    } else {
        no_such_row(rows, key);
    }
}

/// Whether a row is put among others where `at` says: at the end for `-1`, and where `at`
/// is past the end; at the front for zero and every other negative; else at that position.
pub open spec fn put_in(
    others: Seq<(Chars, NodeId)>,
    row: (Chars, NodeId),
    at: int,
    all: Seq<(Chars, NodeId)>,
) -> bool {
    &&& at == -1 || at >= others.len() ==> all == others + seq![row]
    &&& at == 0 || at < -1 ==> all == seq![row] + others
    &&& 0 < at < others.len() ==> all == others.take(at) + seq![row] + others.skip(at)
}

/// Whether a limit leaves these rows: no more than its size, whatever its sign; the first
/// ones where the insert was at the front, and else the last ones.
pub open spec fn limited(
    all: Seq<(Chars, NodeId)>,
    limit: Option<i64>,
    at: int,
    left: Seq<(Chars, NodeId)>,
) -> bool {
    match limit {
        None => left == all,
        Some(most) => {
            let cap = if most >= 0 {
                most as int
            } else {
                -most
            };
            &&& all.len() <= cap ==> left == all
            &&& all.len() > cap && at == 0 ==> left == all.take(cap)
            &&& all.len() > cap && at != 0 ==> left == all.skip(all.len() - cap)
        },
    }
}

/// Whether an insert of a key led from some rows to others.
pub open spec fn inserted(
    before: Seq<(Chars, NodeId)>,
    key: Chars,
    row: NodeId,
    at: int,
    limit: Option<i64>,
    after: Seq<(Chars, NodeId)>,
) -> bool {
    exists|all: Seq<(Chars, NodeId)>| #[trigger]
        put_in(other_rows(before, key), (key, row), at, all) && limited(all, limit, at, after)
}

proof fn landed_is(
    before: Seq<(Chars, NodeId)>,
    key: Chars,
    row: NodeId,
    at: i64,
    limit: Option<i64>,
    after: Seq<(Chars, NodeId)>,
)
    requires
        shape::keys_once(before),
        streaming::lands(before, keyed::without(before, key), key, row, at, limit, after),
    ensures
        inserted(before, key, row, at as int, limit, after),
{
    without_is(before, key);
    let others = other_rows(before, key);
    let to = model::landing(at, others.len()) as int;
    let all = others.insert(to, (key, row));
    let one = seq![(key, row)];
    if at == -1 || at >= others.len() {
        assert(all =~= others + one);
    }
    if at == 0 || at < -1 {
        assert(all =~= one + others);
    }
    if 0 < at < others.len() {
        assert(all =~= others.take(at as int) + one + others.skip(at as int));
    }
    if let Some(most) = limit {
        if all.len() > model::cap_of(most) && at == 0 && model::cap_of(most) == 0 {
            assert(all.take(0) =~= all.skip(all.len() as int));
        }
    }
    assert(put_in(others, (key, row), at as int, all));
    assert(limited(all, limit, at as int, after));
}

/// An item lands where its insert says, and a limit leaves what it says: the rows of a
/// stream, after a batch whose last op inserts a plain item, are those it had but for the
/// one of the key, with the item's row put in, as far as the limit goes. A deleted key
/// leaves the rows of all others, and a reset none.
pub proof fn rows_follow_the_ops(
    tree: Tree,
    ops: Seq<PatchOp>,
    stream_ops: Seq<StreamOp>,
    s: Tx,
    node: NodeId,
)
    requires
        laws::sound(tree),
        laws::formed(ops),
        laws::formed_streams(stream_ops),
        stream_ops.len() > 0,
        tree::batch(tree, ops, stream_ops, s, Ok(())),
        ({
            let before = laws::before_last_stream(tree, ops, stream_ops, s);
            &&& before.streams.contains_key(stream_ops.last().target())
            &&& before.streams[stream_ops.last().target()] == node
        }),
        commit::committed(s).nodes.contains_key(node),
    ensures
        ({
            let was = laws::before_last_stream(tree, ops, stream_ops, s).rows(node);
            let now = journal::opened(commit::committed(s)).rows(node);
            match stream_ops.last() {
                StreamOp::Reset { .. } => now.len() == 0,
                StreamOp::Delete { item_key, .. } => now == other_rows(was, item_key@),
                StreamOp::Insert { item_key, at, item, limit, .. } => plain::plain(item@)
                    ==> exists|row: NodeId| #[trigger]
                    inserted(was, item_key@, row, at as int, limit, now),
            }
        }),
{
    let before = laws::before_last_stream(tree, ops, stream_ops, s);
    let after = commit::committed(s);
    let was = before.rows(node);
    let now = journal::opened(after).rows(node);
    laws::the_last_stream_op_shows(tree, ops, stream_ops, s);
    laws::last_stream_op(tree, ops, stream_ops, s);
    assert(shape::keys_once(was)) by {
        reveal(shape::good);
        if before.live(node) {
            assert(shape::tidy(before.kind(node)));
        }
    }
    assert(laws::streamed(was, stream_ops.last(), now, after));
    match stream_ops.last() {
        StreamOp::Delete { item_key, .. } => {
            without_is(was, item_key@);
        },
        StreamOp::Insert { item_key, at, item, limit, .. } => {
            if plain::plain(item@) {
                let (others, row) = choose|others: Seq<(Chars, NodeId)>, row: NodeId| #[trigger]
                    streaming::lands(was, others, item_key@, row, at, limit, now) && (plain::plain(
                        item@,
                    ) ==> others == keyed::without(was, item_key@));
                landed_is(was, item_key@, row, at, limit, now);
            }
        },
        _ => {},
    }
}

// --------------------------------------------------------------------- whose node it is

proof fn row_found(s: Tx, node: NodeId, key: Chars, row: NodeId)
    requires
        shape::tidied(s),
        s.live(node),
        s.rows(node).contains((key, row)),
    ensures
        keyed::lookup(s.rows(node), key) == Some(row),
{
    let rows = s.rows(node);
    assert(shape::tidy(s.kind(node)));
    keyed::key_index_meaning(rows, key);
    let i = choose|i: int| 0 <= i < rows.len() && rows[i] == (key, row);
    let at = keyed::key_index(rows, key) as int;
    if i < at {
        assert(rows[i].0 != rows[at].0);
    } else if at < i {
        assert(rows[at].0 != rows[i].0);
    }
}

/// An item keeps its node: an insert for a key that a stream has lands the node the key
/// has, unless that is a store, or the item is to be a store or a stream.
pub proof fn an_item_stays_its_node(
    tree: Tree,
    ops: Seq<PatchOp>,
    stream_ops: Seq<StreamOp>,
    s: Tx,
    node: NodeId,
    key: Chars,
    v: Json,
    row: NodeId,
    i: int,
)
    requires
        laws::sound(tree),
        laws::formed(ops),
        laws::formed_streams(stream_ops),
        stream_ops.len() > 0,
        tree::batch(tree, ops, stream_ops, s, Ok(())),
        stream_ops.last() matches StreamOp::Insert { item_key, item, .. } && item_key@ == key
            && item@ == v,
        !(marker::form_of(v) is Store),
        !(marker::form_of(v) is Collection),
        ({
            let before = laws::before_last_stream(tree, ops, stream_ops, s);
            &&& before.streams.contains_key(stream_ops.last().target())
            &&& before.streams[stream_ops.last().target()] == node
            &&& before.rows(node).contains((key, row))
            &&& !(before.kind(row) is Store)
        }),
        commit::committed(s).nodes.contains_key(node),
        0 <= i < journal::opened(commit::committed(s)).rows(node).len(),
        journal::opened(commit::committed(s)).rows(node)[i].0 == key,
    ensures
        journal::opened(commit::committed(s)).rows(node)[i].1 == row,
{
    let before = laws::before_last_stream(tree, ops, stream_ops, s);
    laws::last_stream_op(tree, ops, stream_ops, s);
    assert(shape::tidied(before) && shape::linked(before)) by {
        reveal(shape::good);
    }
    row_found(before, node, key, row);
    replay::touch_dirty_still(before, node);
    let d = before.touch_dirty(node);
    assert(d.live(node) == before.live(node) && d.kind(node) == before.kind(node));
    assert(d.live(row) == before.live(row));
    assert(d.live(row) ==> d.kind(row) == before.kind(row));
    laws::an_item_keeps_its_node(tree, ops, stream_ops, s, key, v, row);
}

proof fn above_deep(s: Tx, id: NodeId, below: NodeId, n: nat)
    requires
        shape::bounded(s.nodes),
        s.live(below),
        moving::above(s, id, below, n),
    ensures
        s.depth(id) <= s.depth(below),
    decreases n,
{
    if id != below {
        shape::depth_step(s, below);
        above_deep(s, id, s.parent_of(below)->0, (n - 1) as nat);
    }
}

proof fn above_before(s: Tx, t: Tx, id: NodeId, below: NodeId, n: nat)
    requires
        forall|x: NodeId| x != id && t.parent_of(x) is Some ==> #[trigger] t.parent_of(x)
            == s.parent_of(x),
        moving::above(t, id, below, n),
    ensures
        moving::above(s, id, below, n),
    decreases n,
{
    if id != below {
        above_before(s, t, id, t.parent_of(below)->0, (n - 1) as nat);
    }
}

/// Whether a row left its collection, and may come back: it is no longer held, it is what
/// it was, and it is kept for an insert of its key.
spec fn left(s: Tx, t: Tx, node: NodeId, key: Chars, row: NodeId) -> bool {
    &&& t.live(node)
    &&& t.live(row)
    &&& t.kind(row) == s.kind(row)
    &&& t.kind(node) is Collection
    &&& keyed::lookup(t.rows(node), key) is None
    &&& t.carry.contains_key((node, key))
    &&& t.carry[(node, key)] == row
    &&& forall|x: NodeId| t.parent_of(x) is Some ==> #[trigger] t.parent_of(x) == s.parent_of(x)
}

proof fn deleted_left(s: Tx, node: NodeId, key: Chars, row: NodeId)
    requires
        shape::tidied(s),
        s.live(node),
        s.kind(node) is Collection,
        s.rows(node).contains((key, row)),
        s.live(row),
        row != node,
    ensures
        left(s, model::stream_delete(s, node, key), node, key, row),
{
    let rows = s.rows(node);
    row_found(s, node, key, row);
    keyed::key_index_meaning(rows, key);
    let at = keyed::key_index(rows, key) as int;
    moving::dirty_up_noted(s.touch(node), Some(node), MAX_WALK as nat);
    let d = s.touch_dirty(node);
    let e = model::put_rows(d, node, rows.remove(at));
    let t = model::stream_delete(s, node, key);
    assert(shape::tidy(s.kind(node)));
    one_row(rows, key, at);
    without_is(rows, key);
    assert(keyed::lookup(rows.remove(at), key) is None) by {
        let rest = rows.remove(at);
        keyed::key_index_meaning(rest, key);
        if keyed::has_key(rest, key) {
            let j = keyed::key_index(rest, key) as int;
            let k = if j < at {
                j
            } else {
                j + 1
            };
            assert(rest[j] == rows[k]);
            if k < at {
                assert(rows[k].0 != rows[at].0);
            } else {
                assert(rows[at].0 != rows[k].0);
            }
        }
    }
    assert(e.live(row) && e.kind(row) == s.kind(row));
    assert(t.live(node) && t.kind(node) == e.kind(node));
}

proof fn all_left(
    s: Tx,
    node: NodeId,
    rows: Seq<(Chars, NodeId)>,
    i: int,
)
    requires
        0 <= i <= rows.len(),
        shape::keys_once(rows),
    ensures
        ({
            let t = model::carry_all(s, node, rows, i);
            &&& forall|x: NodeId|
                #![trigger t.live(x)]
                #![trigger t.kind(x)]
                t.live(x) == s.live(x) && (s.live(x) ==> t.kind(x) == s.kind(x))
            &&& forall|x: NodeId| t.parent_of(x) is Some ==> #[trigger] t.parent_of(x)
                == s.parent_of(x)
            &&& forall|j: int|
                i <= j < rows.len() ==> t.carry.contains_key((node, (#[trigger] rows[j]).0))
                    && t.carry[(node, rows[j].0)] == rows[j].1
            &&& forall|name: (NodeId, Chars)|
                (forall|j: int| i <= j < rows.len() ==> name != (node, (#[trigger] rows[j]).0))
                    && s.carry.contains_key(name) ==> #[trigger] t.carry.contains_key(name)
                    && t.carry[name] == s.carry[name]
        }),
    decreases rows.len() - i,
{
    if i < rows.len() {
        let u = s.carry_out(node, rows[i].0, rows[i].1);
        let t = model::carry_all(s, node, rows, i);
        all_left(u, node, rows, i + 1);
        assert forall|x: NodeId|
            #![trigger t.live(x)]
            #![trigger t.kind(x)]
            t.live(x) == s.live(x) && (s.live(x) ==> t.kind(x) == s.kind(x)) by {
            assert(u.live(x) == s.live(x));
        }
        assert forall|x: NodeId| t.parent_of(x) is Some implies #[trigger] t.parent_of(x)
            == s.parent_of(x) by {
            assert(t.parent_of(x) == u.parent_of(x));
        }
        let own = (node, rows[i].0);
        assert(u.carry.contains_key(own) && u.carry[own] == rows[i].1);
        assert forall|j: int| i + 1 <= j < rows.len() implies own != (
            node,
            (#[trigger] rows[j]).0,
        ) by {
            assert(rows[i].0 != rows[j].0);
        }
        assert(t.carry.contains_key(own));
        assert forall|name: (NodeId, Chars)|
            (forall|j: int| i <= j < rows.len() ==> name != (node, (#[trigger] rows[j]).0))
                && s.carry.contains_key(name) implies #[trigger] t.carry.contains_key(name)
            && t.carry[name] == s.carry[name] by {
            assert(name != (node, rows[i].0));
            assert(u.carry.contains_key(name) && u.carry[name] == s.carry[name]);
        }
    }
}

proof fn reset_left(s: Tx, node: NodeId, key: Chars, row: NodeId)
    requires
        shape::tidied(s),
        s.live(node),
        s.kind(node) is Collection,
        s.rows(node).contains((key, row)),
        s.live(row),
        row != node,
    ensures
        left(s, model::stream_reset(s, node), node, key, row),
{
    let rows = s.rows(node);
    let none = Seq::<(Chars, NodeId)>::empty();
    moving::dirty_up_noted(s.touch(node), Some(node), MAX_WALK as nat);
    let d = s.touch_dirty(node);
    let e = model::put_rows(d, node, none);
    assert(shape::tidy(s.kind(node)));
    all_left(e, node, rows, 0);
    let t = model::stream_reset(s, node);
    let f = model::carry_all(e, node, rows, 0);
    let j = choose|j: int| 0 <= j < rows.len() && rows[j] == (key, row);
    assert(f.carry.contains_key((node, rows[j].0)) && f.carry[(node, rows[j].0)] == rows[j].1);
    assert(e.live(row) && e.kind(row) == s.kind(row) && f.live(row) && f.kind(row) == e.kind(row));
    assert(e.live(node) && f.live(node) && f.kind(node) == e.kind(node));
    assert(t.nodes == f.nodes && t.carry == f.carry);
    assert(t.rows(node) == none);
    keyed::key_index_meaning(none, key);
    assert forall|x: NodeId| t.parent_of(x) is Some implies #[trigger] t.parent_of(x)
        == s.parent_of(x) by {
        assert(f.parent_of(x) == t.parent_of(x));
        assert(f.parent_of(x) == e.parent_of(x));
    }
}

proof fn left_claimed(p: Tx, b: Tx, node: NodeId, key: Chars, row: NodeId, depth: nat)
    requires
        left(p, b, node, key, row),
        shape::bounded(p.nodes),
        shape::bounded(b.nodes),
        shape::linked(p),
        p.parent_of(row) == Some(node),
        p.live(node),
    ensures
        ({
            let (a, claimed) = model::claim_row(b.touch_dirty(node), node, key, depth);
            &&& claimed is Ok ==> claimed == Ok::<Option<NodeId>, Fault>(Some(row))
            &&& a.live(row) && a.kind(row) == p.kind(row)
        }),
{
    moving::dirty_up_noted(b.touch(node), Some(node), MAX_WALK as nat);
    let d = b.touch_dirty(node);
    assert(moving::apart(b, row, node)) by {
        assert forall|n: nat| !#[trigger] moving::above(b, row, node, n) by {
            if moving::above(b, row, node, n) {
                above_before(p, b, row, node, n);
                above_deep(p, row, node, n);
                shape::depth_step(p, row);
            }
        }
    }
    assert(moving::apart(d, row, node)) by {
        assert forall|n: nat| !#[trigger] moving::above(d, row, node, n) by {
            if moving::above(d, row, node, n) {
                above_before(b, d, row, node, n);
            }
        }
    }
    assert(shape::climbs(d.nodes, node, MAX_DEPTH as nat));
    moving::apart_unmet(d, row, node, MAX_DEPTH as nat, MAX_WALK as nat);
}

/// An item that left comes back: where a batch deletes a key of a stream, or resets the
/// stream, and its next and last op inserts the key again, the item has the node it had,
/// unless that is a store, or the item is to be a store or a stream.
pub proof fn an_item_comes_back(
    tree: Tree,
    ops: Seq<PatchOp>,
    stream_ops: Seq<StreamOp>,
    s: Tx,
    node: NodeId,
    key: Chars,
    v: Json,
    row: NodeId,
    i: int,
)
    requires
        laws::sound(tree),
        laws::formed(ops),
        laws::formed_streams(stream_ops),
        stream_ops.len() > 1,
        tree::batch(tree, ops, stream_ops, s, Ok(())),
        stream_ops.last() matches StreamOp::Insert { item_key, item, .. } && item_key@ == key
            && item@ == v,
        stream_ops[stream_ops.len() - 2] is Reset || (stream_ops[stream_ops.len()
            - 2] matches StreamOp::Delete { item_key, .. } && item_key@ == key),
        stream_ops[stream_ops.len() - 2].target() == stream_ops.last().target(),
        !(marker::form_of(v) is Store),
        !(marker::form_of(v) is Collection),
        ({
            let p = laws::before_last_stream(tree, ops, stream_ops.drop_last(), s);
            &&& p.streams.contains_key(stream_ops.last().target())
            &&& p.streams[stream_ops.last().target()] == node
            &&& p.rows(node).contains((key, row))
            &&& !(p.kind(row) is Store)
        }),
        commit::committed(s).nodes.contains_key(node),
        0 <= i < journal::opened(commit::committed(s)).rows(node).len(),
        journal::opened(commit::committed(s)).rows(node)[i].0 == key,
    ensures
        journal::opened(commit::committed(s)).rows(node)[i].1 == row,
{
    let front = stream_ops.drop_last();
    let p = laws::before_last_stream(tree, ops, front, s);
    let b = laws::before_last_stream(tree, ops, stream_ops, s);
    let op = front.last();
    assert(op == stream_ops[stream_ops.len() - 2]);
    laws::last_stream_op(tree, ops, stream_ops, s);
    laws::last_but_one(tree, ops, stream_ops, s);
    let depth = model::deeper(b.depth(node));
    came_back(tree, p, b, op, node, key, row, s.allocated);
    inserts_claim(b, stream_ops.last(), node, key, s.allocated);
    laws::an_item_keeps_its_node(tree, ops, stream_ops, s, key, v, row);
}

proof fn inserts_claim(b: Tx, op: StreamOp, node: NodeId, key: Chars, ids: Seq<NodeId>)
    requires
        b.unclaim() == b,
        b.streams.contains_key(op.target()),
        b.streams[op.target()] == node,
        b.live(node),
        b.kind(node) is Collection,
        op matches StreamOp::Insert { item_key, .. } && item_key@ == key,
        laws::one_stream_op(b, op, ids).1 is Ok,
    ensures
        model::claim_row(b.touch_dirty(node), node, key, model::deeper(b.depth(node))).1 is Ok,
{
    reveal(laws::one_stream_op);
}

proof fn came_back(
    tree: Tree,
    p: Tx,
    b: Tx,
    op: StreamOp,
    node: NodeId,
    key: Chars,
    row: NodeId,
    ids: Seq<NodeId>,
)
    requires
        patching::steady(p, tree.nodes, ids),
        patching::steady(b, tree.nodes, ids),
        p.unclaim() == p,
        b == laws::one_stream_op(p, op, ids).0.unclaim(),
        op is Reset || (op matches StreamOp::Delete { item_key, .. } && item_key@ == key),
        p.streams.contains_key(op.target()),
        p.streams[op.target()] == node,
        p.rows(node).contains((key, row)),
    ensures
        ({
            let (a, claimed) = model::claim_row(
                b.touch_dirty(node),
                node,
                key,
                model::deeper(b.depth(node)),
            );
            &&& claimed is Ok ==> claimed == Ok::<Option<NodeId>, Fault>(Some(row))
            &&& a.live(row) && a.kind(row) == p.kind(row)
            &&& b.live(node) && b.kind(node) is Collection
            &&& b.streams == p.streams
            &&& b.unclaim() == b
        }),
{
    assert(shape::tidied(p) && shape::linked(p) && shape::bounded(p.nodes) && shape::bounded(
        b.nodes,
    ) && shape::indexed(p)) by {
        reveal(shape::good);
    }
    assert(p.live(node) && p.kind(node) is Collection) by {
        assert(shape::is_stream(p, p.streams[op.target()], op.target()));
    }
    let rows = p.rows(node);
    let j = choose|j: int| 0 <= j < rows.len() && rows[j] == (key, row);
    assert(p.kids(node)[j] == row);
    assert(p.kids(node).contains(row));
    shape::depth_step(p, row);
    reveal(laws::one_stream_op);
    let t = laws::one_stream_op(p, op, ids).0;
    moving::dirty_up_noted(p.touch(node), Some(node), MAX_WALK as nat);
    if op is Reset {
        reset_left(p, node, key, row);
        assert(t == model::stream_reset(p, node));
        carry_all_index(
            model::put_rows(p.touch_dirty(node), node, Seq::empty()),
            node,
            rows,
            0,
        );
    } else {
        deleted_left(p, node, key, row);
        assert(t == model::stream_delete(p, node, key));
    }
    assert(left(p, b, node, key, row)) by {
        assert forall|x: NodeId| b.parent_of(x) is Some implies #[trigger] b.parent_of(x)
            == p.parent_of(x) by {
            assert(t.parent_of(x) == b.parent_of(x));
        }
    }
    left_claimed(p, b, node, key, row, model::deeper(b.depth(node)));
}

proof fn carry_all_index(s: Tx, node: NodeId, rows: Seq<(Chars, NodeId)>, i: int)
    ensures
        model::carry_all(s, node, rows, i).streams == s.streams,
    decreases rows.len() - i,
{
    if 0 <= i < rows.len() {
        carry_all_index(s.carry_out(node, rows[i].0, rows[i].1), node, rows, i + 1);
    }
}

// --------------------------------------------------------------------- what is reported

/// The edits of rows that leave off the end, last row first, down to `cap` rows.
pub open spec fn off_the_end(node: NodeId, rows: Seq<(Chars, NodeId)>, cap: int) -> Seq<
    (NodeId, Edit),
> {
    Seq::new(
        (rows.len() - cap) as nat,
        |i: int|
            (
                node,
                Edit::Removed {
                    key: rows[rows.len() - 1 - i].0,
                    index: (rows.len() - 1 - i) as nat,
                },
            ),
    )
}

/// The edits of rows that leave off the front, first row first.
pub open spec fn off_the_front(node: NodeId, rows: Seq<(Chars, NodeId)>, count: int) -> Seq<
    (NodeId, Edit),
> {
    Seq::new(count as nat, |i: int| (node, Edit::Removed { key: rows[i].0, index: 0 }))
}

proof fn end_reported(s: Tx, node: NodeId, rows: Seq<(Chars, NodeId)>, cap: nat, i: int)
    requires
        cap <= i <= rows.len(),
    ensures
        model::drop_end(s, node, rows, cap, i).edits == s.edits + off_the_end(
            node,
            rows.take(i),
            cap as int,
        ),
    decreases i - cap,
{
    let all = rows.take(i);
    if i > cap {
        let row = rows[i - 1];
        let edit = (node, Edit::Removed { key: row.0, index: (i - 1) as nat });
        let t = s.carry_out(node, row.0, row.1).log_edit(
            node,
            Edit::Removed { key: row.0, index: (i - 1) as nat },
        );
        assert(t.edits == s.edits.push(edit));
        end_reported(t, node, rows, cap, i - 1);
        let less = off_the_end(node, rows.take(i - 1), cap as int);
        let more = off_the_end(node, all, cap as int);
        assert(more =~= seq![edit] + less) by {
            assert forall|k: int| 0 <= k < more.len() implies more[k] == (seq![edit] + less)[k] by {
                if k > 0 {
                    assert((seq![edit] + less)[k] == less[k - 1]);
                    assert(rows.take(i - 1)[i - 2 - (k - 1)] == all[i - 1 - k]);
                } else {
                    assert(all[i - 1] == row);
                }
            }
        }
        assert(s.edits.push(edit) + less =~= s.edits + more);
    } else {
        assert(off_the_end(node, all, cap as int) =~= Seq::<(NodeId, Edit)>::empty());
        assert(s.edits + off_the_end(node, all, cap as int) =~= s.edits);
    }
}

proof fn front_reported(s: Tx, node: NodeId, rows: Seq<(Chars, NodeId)>, count: int, i: int)
    requires
        0 <= i <= count <= rows.len(),
    ensures
        model::drop_front(s, node, rows, count, i).edits == s.edits + off_the_front(
            node,
            rows,
            count,
        ).skip(i),
    decreases count - i,
{
    let all = off_the_front(node, rows, count);
    if i < count {
        let edit = (node, Edit::Removed { key: rows[i].0, index: 0 });
        let t = s.carry_out(node, rows[i].0, rows[i].1).log_edit(
            node,
            Edit::Removed { key: rows[i].0, index: 0 },
        );
        assert(t.edits == s.edits.push(edit));
        front_reported(t, node, rows, count, i + 1);
        assert(all[i] == edit);
        assert(s.edits.push(edit) + all.skip(i + 1) =~= s.edits + all.skip(i));
    } else {
        assert(s.edits + all.skip(i) =~= s.edits);
    }
}

/// Where a row is put among `len` others: at the end for `-1`, and where `at` is past the
/// end; at the front for zero and every other negative; else at that position.
pub open spec fn position(at: int, len: int) -> int {
    if at == -1 || at > len {
        len
    } else if at < 0 {
        0
    } else {
        at
    }
}

/// Whether what an insert reports is right: an arrival, a move where the row was elsewhere,
/// nothing where it was there already; and then the rows that the limit drops, one by one.
pub open spec fn reports_insert(
    before: Seq<(NodeId, Edit)>,
    node: NodeId,
    rows: Seq<(Chars, NodeId)>,
    key: Chars,
    row: NodeId,
    at: int,
    limit: Option<i64>,
    after: Seq<(NodeId, Edit)>,
) -> bool {
    let others = other_rows(rows, key);
    let to = position(at, others.len() as int);
    let all = others.take(to) + seq![(key, row)] + others.skip(to);
    exists|first: Seq<(NodeId, Edit)>, last: Seq<(NodeId, Edit)>|
        {
            &&& after == #[trigger] (before + first + last)
            &&& (forall|i: int| 0 <= i < rows.len() ==> (#[trigger] rows[i]).0 != key) ==> first
                == seq![(node, Edit::Inserted { key, index: to as nat, node: row })]
            &&& forall|i: int|
                0 <= i < rows.len() && (#[trigger] rows[i]).0 == key ==> first == (if i == to {
                    Seq::empty()
                } else {
                    seq![(node, Edit::Moved { key, from: i as nat, to: to as nat })]
                })
            &&& match limit {
                None => last.len() == 0,
                Some(most) => {
                    let cap = if most >= 0 {
                        most as int
                    } else {
                        -most
                    };
                    if all.len() <= cap {
                        last.len() == 0
                    } else if at == 0 && cap > 0 {
                        last == off_the_end(node, all, cap)
                    } else {
                        last == off_the_front(node, all, all.len() - cap)
                    }
                },
            }
        }
}

/// An insert reports what it does.
pub proof fn what_an_insert_reports(
    s: Tx,
    node: NodeId,
    key: Chars,
    was: Option<NodeId>,
    row: NodeId,
    at: i64,
    limit: Option<i64>,
)
    requires
        shape::keys_once(s.rows(node)),
    ensures
        reports_insert(
            s.edits,
            node,
            s.rows(node),
            key,
            row,
            at as int,
            limit,
            model::land_row(s, node, key, was, row, at, limit).edits,
        ),
{
    let held = s.rows(node);
    without_is(held, key);
    keyed::key_index_meaning(held, key);
    let from = keyed::key_index(held, key);
    let others = other_rows(held, key);
    let to = position(at as int, others.len() as int);
    assert(model::landing(at, others.len()) == to);
    let all = others.take(to) + seq![(key, row)] + others.skip(to);
    assert(others.insert(to, (key, row)) =~= all);
    let t = model::put_rows(s, node, model::trimmed(all, limit, at));
    let u = match was {
        Some(old) => if old == row {
            t
        } else {
            t.release_if_mine(node, old)
        },
        None => t,
    };
    assert(u.edits == s.edits);
    let first = if !keyed::has_key(held, key) {
        seq![(node, Edit::Inserted { key, index: to as nat, node: row })]
    } else if from == to {
        Seq::empty()
    } else {
        seq![(node, Edit::Moved { key, from, to: to as nat })]
    };
    let logged = if !keyed::has_key(held, key) {
        u.log_edit(node, Edit::Inserted { key, index: to as nat, node: row })
    } else if from == to {
        u
    } else {
        u.log_edit(node, Edit::Moved { key, from, to: to as nat })
    };
    assert(logged.edits =~= s.edits + first);
    assert forall|i: int| 0 <= i < held.len() && (#[trigger] held[i]).0 == key implies i
        == from by {
        assert(held[from as int].0 == key);
        if i < from {
            assert(held[i].0 != held[from as int].0);
        } else if from < i {
            assert(held[from as int].0 != held[i].0);
        }
    }
    assert(model::land_row(s, node, key, was, row, at, limit) == model::drop_overflow(
        logged,
        node,
        all,
        limit,
        at,
    ));
    let none = Seq::<(NodeId, Edit)>::empty();
    let after = model::land_row(s, node, key, was, row, at, limit).edits;
    assert(s.edits + first + none =~= s.edits + first);
    if let Some(most) = limit {
        let cap = model::cap_of(most);
        if all.len() > cap {
            if model::trims_end(most, at) {
                end_reported(logged, node, all, cap, all.len() as int);
                assert(all.take(all.len() as int) =~= all);
                assert(after == s.edits + first + off_the_end(node, all, cap as int));
            } else {
                front_reported(logged, node, all, all.len() - cap, 0);
                let out = off_the_front(node, all, all.len() - cap);
                assert(out.skip(0) =~= out);
                assert(after == s.edits + first + out);
            }
        } else {
            assert(after == s.edits + first + none);
        }
    } else {
        assert(after == s.edits + first + none);
    }
}

proof fn carry_all_edits(s: Tx, node: NodeId, rows: Seq<(Chars, NodeId)>, i: int)
    ensures
        model::carry_all(s, node, rows, i).edits == s.edits,
    decreases rows.len() - i,
{
    if 0 <= i < rows.len() {
        carry_all_edits(s.carry_out(node, rows[i].0, rows[i].1), node, rows, i + 1);
    }
}

/// A delete reports the row it takes, and where it was; of a key that is not there it
/// reports nothing, and changes nothing; and a reset reports a reset.
pub proof fn what_a_delete_and_a_reset_report(s: Tx, node: NodeId, key: Chars, i: int)
    requires
        shape::keys_once(s.rows(node)),
    ensures
        0 <= i < s.rows(node).len() && s.rows(node)[i].0 == key ==> model::stream_delete(
            s,
            node,
            key,
        ).edits == s.edits.push((node, Edit::Removed { key, index: i as nat })),
        (forall|j: int| 0 <= j < s.rows(node).len() ==> (#[trigger] s.rows(node)[j]).0 != key)
            ==> model::stream_delete(s, node, key) == s,
        model::stream_reset(s, node).edits == s.edits.push((node, Edit::Reset)),
{
    let rows = s.rows(node);
    keyed::key_index_meaning(rows, key);
    let at = keyed::key_index(rows, key) as int;
    replay::touch_dirty_still(s, node);
    let d = s.touch_dirty(node);
    if 0 <= i < rows.len() && rows[i].0 == key {
        if i < at {
            assert(rows[i].0 != rows[at].0);
        } else if at < i {
            assert(rows[at].0 != rows[i].0);
        }
    }
    carry_all_edits(model::put_rows(d, node, Seq::empty()), node, rows, 0);
}

} // verus!
