//! What an open transaction can take back: the tree as it was before it.

use vstd::prelude::*;

use crate::state::model::{Tx, Undo};
use crate::state::node::NodeId;
use crate::state::slots::Entry;
use crate::state::text::Chars;
use crate::state::wire::Path;

verus! {

/// The tree, as contracts see it.
#[verifier::ext_equal]
pub struct Tree {
    /// The nodes.
    pub nodes: Map<NodeId, Entry>,
    /// The root.
    pub root: NodeId,
    /// Which node each store id resolves to.
    pub stores: Map<Path, NodeId>,
    /// Which node each stream resolves to.
    pub streams: Map<(Path, Chars), NodeId>,
    /// Whether the tree has ended.
    pub closed: bool,
    /// The next subscriber's number.
    pub next_subscriber: u64,
}

/// A transaction that has done nothing yet.
pub open spec fn opened(tree: Tree) -> Tx {
    Tx {
        nodes: tree.nodes,
        root: tree.root,
        stores: tree.stores,
        streams: tree.streams,
        closed: tree.closed,
        next_subscriber: tree.next_subscriber,
        touched: Seq::empty(),
        allocated: Seq::empty(),
        undo: Seq::empty(),
        pending: Seq::empty(),
        is_pending: Set::empty(),
        carry: Map::empty(),
        carry_order: Seq::empty(),
        edits: Seq::empty(),
        settle: Map::empty(),
        settle_order: Seq::empty(),
        closing: false,
        claimed: Set::empty(),
        claimed_streams: Set::empty(),
    }
}

/// An index with one name put back to what it was.
pub open spec fn restored<N>(index: Map<N, NodeId>, name: N, was: Option<NodeId>) -> Map<
    N,
    NodeId,
> {
    match was {
        Some(id) => index.insert(name, id),
        None => index.remove(name),
    }
}

/// The store index before its recorded mutations, the last taken back first.
pub open spec fn stores_before(index: Map<Path, NodeId>, undo: Seq<Undo>) -> Map<Path, NodeId>
    decreases undo.len(),
{
    if undo.len() == 0 {
        index
    } else {
        stores_before(
            match undo.last() {
                Undo::Store(path, was) => restored(index, path, was),
                _ => index,
            },
            undo.drop_last(),
        )
    }
}

/// The stream index before its recorded mutations, the last taken back first.
pub open spec fn streams_before(index: Map<(Path, Chars), NodeId>, undo: Seq<Undo>) -> Map<
    (Path, Chars),
    NodeId,
>
    decreases undo.len(),
{
    if undo.len() == 0 {
        index
    } else {
        streams_before(
            match undo.last() {
                Undo::Stream(key, was) => restored(index, key, was),
                _ => index,
            },
            undo.drop_last(),
        )
    }
}

/// What a node looked like before the transaction.
pub open spec fn entry_before(s: Tx, id: NodeId) -> Entry {
    if s.touched_has(id) {
        let was = s.touched[choose|i: int|
            0 <= i < s.touched.len() && (#[trigger] s.touched[i]).id == id];
        Entry {
            parent: was.parent,
            kind: was.kind,
            revision: was.revision,
            sem: was.sem,
            subs: s.nodes[id].subs,
        }
    } else {
        s.nodes[id]
    }
}

/// The tree as it was before the transaction.
pub open spec fn before(s: Tx) -> Tree {
    Tree {
        nodes: Map::new(
            |id: NodeId| s.live(id) && !s.allocated.contains(id),
            |id: NodeId| entry_before(s, id),
        ),
        root: s.root,
        stores: stores_before(s.stores, s.undo),
        streams: streams_before(s.streams, s.undo),
        closed: s.closed && !s.closing,
        next_subscriber: s.next_subscriber,
    }
}

/// The record is in order: each node is recorded once, and is still there, and no
/// node was made under the id that none has.
pub open spec fn sound(s: Tx) -> bool {
    &&& forall|i: int, j: int|
        0 <= i < j < s.touched.len() ==> (#[trigger] s.touched[i]).id != (
        #[trigger] s.touched[j]).id
    &&& forall|i: int| 0 <= i < s.touched.len() ==> s.live((#[trigger] s.touched[i]).id)
    &&& forall|i: int, j: int|
        0 <= i < j < s.allocated.len() ==> #[trigger] s.allocated[i] != #[trigger] s.allocated[j]
    &&& forall|i: int|
        0 <= i < s.allocated.len() ==> s.live(#[trigger] s.allocated[i]) && s.allocated[i]
            != NodeId::none()
}

/// Whether a node may be written: what it was is on record, or the transaction
/// made it, or there is no such node.
pub open spec fn writable(s: Tx, id: NodeId) -> bool {
    !s.live(id) || s.touched_has(id) || s.allocated.contains(id)
}

/// What every step of a transaction keeps: the tree it started from, the record
/// of it, and the nodes that exist.
#[verifier::opaque]
pub open spec fn carries(a: Tx, b: Tx) -> bool {
    &&& sound(a)
    &&& sound(b)
    &&& before(a) == before(b)
    &&& a.root == b.root
    &&& a.allocated.is_prefix_of(b.allocated)
    &&& forall|id: NodeId| #![trigger b.live(id)] a.live(id) ==> b.live(id)
    &&& forall|id: NodeId| #![trigger writable(b, id)] writable(a, id) ==> writable(b, id)
}

/// Whether the ids a transaction took are the first ones of a list.
#[verifier::opaque]
pub open spec fn follows(s: Tx, ids: Seq<NodeId>) -> bool {
    s.allocated.is_prefix_of(ids)
}

/// Steps compose.
pub broadcast proof fn carries_on(a: Tx, b: Tx, c: Tx)
    requires
        #[trigger] carries(a, b),
        #[trigger] carries(b, c),
    ensures
        carries(a, c),
{
    reveal(carries);
    assert forall|id: NodeId| a.live(id) implies c.live(id) by {
        assert(b.live(id));
    }
    assert forall|id: NodeId| writable(a, id) implies writable(c, id) by {
        assert(writable(b, id));
    }
}

/// A list that begins with the ids of a later state begins with those of an
/// earlier one.
pub broadcast proof fn follows_back(a: Tx, b: Tx, ids: Seq<NodeId>)
    requires
        #[trigger] carries(a, b),
        #[trigger] follows(b, ids),
    ensures
        follows(a, ids),
{
    reveal(carries);
    reveal(follows);
}

/// What may be written stays writable.
pub broadcast proof fn stays_writable(a: Tx, b: Tx, id: NodeId)
    requires
        #[trigger] carries(a, b),
        #[trigger] writable(a, id),
    ensures
        writable(b, id),
{
    reveal(carries);
}

/// A state whose record is in order carries on from itself.
pub proof fn carries_self(s: Tx)
    requires
        sound(s),
    ensures
        carries(s, s),
{
    reveal(carries);
}

/// A step that writes nothing but lists that no rollback reads.
pub proof fn carries_aside(a: Tx, b: Tx)
    requires
        sound(a),
        b.nodes == a.nodes,
        b.root == a.root,
        b.stores == a.stores,
        b.streams == a.streams,
        b.closed == a.closed,
        b.next_subscriber == a.next_subscriber,
        b.touched == a.touched,
        b.allocated == a.allocated,
        b.undo == a.undo,
        b.closing == a.closing,
    ensures
        carries(a, b),
{
    reveal(carries);
    assert(before(a).nodes =~= before(b).nodes);
    assert forall|id: NodeId| writable(a, id) implies writable(b, id) by {
        if a.touched_has(id) {
            let i = choose|i: int| 0 <= i < a.touched.len() && (#[trigger] a.touched[i]).id == id;
            assert(b.touched[i].id == id);
        }
    }
}

proof fn touched_unique(s: Tx, i: int)
    requires
        sound(s),
        0 <= i < s.touched.len(),
    ensures
        s.touched_has(s.touched[i].id),
        (choose|j: int| 0 <= j < s.touched.len() && (#[trigger] s.touched[j]).id == s.touched[i].id)
            == i,
{
    let id = s.touched[i].id;
    let found = choose|j: int| 0 <= j < s.touched.len() && (#[trigger] s.touched[j]).id == id;
    assert(s.touched[i].id == id);
    if found < i {
        assert(s.touched[found].id != s.touched[i].id);
    }
    if i < found {
        assert(s.touched[i].id != s.touched[found].id);
    }
}

proof fn same_entry_before(a: Tx, b: Tx, id: NodeId)
    requires
        sound(a),
        sound(b),
        a.touched.is_prefix_of(b.touched),
        a.touched_has(id),
        b.nodes[id].subs == a.nodes[id].subs,
    ensures
        entry_before(a, id) == entry_before(b, id),
{
    let i = choose|i: int| 0 <= i < a.touched.len() && (#[trigger] a.touched[i]).id == id;
    touched_unique(a, i);
    assert(b.touched[i] == a.touched[i]);
    touched_unique(b, i);
}

/// Recording a node.
pub proof fn carries_touch(s: Tx, id: NodeId)
    requires
        sound(s),
    ensures
        carries(s, s.touch(id)),
        writable(s.touch(id), id),
{
    reveal(carries);
    let t = s.touch(id);
    if s.touched_has(id) || !s.live(id) {
        carries_self(s);
    } else {
        let last = s.touched.len() as int;
        assert(t.touched[last].id == id);
        assert(sound(t)) by {
            assert forall|i: int, j: int| 0 <= i < j < t.touched.len() implies (
            #[trigger] t.touched[i]).id != (#[trigger] t.touched[j]).id by {
                assert(t.touched[i] == s.touched[i]);
                if j < last {
                    assert(t.touched[j] == s.touched[j]);
                }
            }
            assert forall|i: int| 0 <= i < t.touched.len() implies t.live(
                (#[trigger] t.touched[i]).id,
            ) by {
                if i < last {
                    assert(t.touched[i] == s.touched[i]);
                }
            }
        }
        assert(s.touched.is_prefix_of(t.touched));
        assert forall|other: NodeId| writable(s, other) implies writable(t, other) by {
            if s.touched_has(other) {
                let i = choose|i: int|
                    0 <= i < s.touched.len() && (#[trigger] s.touched[i]).id == other;
                assert(t.touched[i].id == other);
            }
        }
        assert forall|other: NodeId| s.live(other) && !s.allocated.contains(other) implies
            entry_before(s, other) == entry_before(t, other) by {
            if s.touched_has(other) {
                same_entry_before(s, t, other);
            } else if other == id {
                touched_unique(t, last);
                assert(entry_before(t, id) == s.nodes[id]);
            } else {
                assert(!t.touched_has(other)) by {
                    if t.touched_has(other) {
                        let i = choose|i: int|
                            0 <= i < t.touched.len() && (#[trigger] t.touched[i]).id == other;
                        assert(s.touched[i].id == other);
                    }
                }
            }
        }
        assert(before(s).nodes =~= before(t).nodes);
    }
}

/// Writing a node that may be written.
pub proof fn carries_write(a: Tx, b: Tx, id: NodeId)
    requires
        sound(a),
        writable(a, id),
        b == (Tx { nodes: b.nodes, ..a }),
        b.nodes.dom() == a.nodes.dom(),
        forall|other: NodeId| other != id ==> #[trigger] b.nodes[other] == a.nodes[other],
        b.nodes[id].subs == a.nodes[id].subs,
    ensures
        carries(a, b),
{
    reveal(carries);
    assert forall|other: NodeId| writable(a, other) implies writable(b, other) by {
        if a.touched_has(other) {
            let i = choose|i: int| 0 <= i < a.touched.len() && (#[trigger] a.touched[i]).id == other;
            assert(b.touched[i].id == other);
        }
    }
    assert forall|other: NodeId| a.live(other) && !a.allocated.contains(other) implies
        entry_before(a, other) == entry_before(b, other) by {
        if a.touched_has(other) {
            same_entry_before(a, b, other);
        } else {
            assert(other != id);
            assert(!b.touched_has(other));
        }
    }
    assert(before(a).nodes =~= before(b).nodes);
}

/// Making a node.
pub proof fn carries_make(a: Tx, id: NodeId, entry: Entry)
    requires
        sound(a),
        !a.live(id),
        id != NodeId::none(),
    ensures
        carries(
            a,
            (Tx { nodes: a.nodes.insert(id, entry), allocated: a.allocated.push(id), ..a }),
        ),
        writable(
            (Tx { nodes: a.nodes.insert(id, entry), allocated: a.allocated.push(id), ..a }),
            id,
        ),
{
    reveal(carries);
    let b = Tx { nodes: a.nodes.insert(id, entry), allocated: a.allocated.push(id), ..a };
    let last = a.allocated.len() as int;
    assert(b.allocated[last] == id);
    assert(b.allocated.contains(id));
    assert(sound(b)) by {
        assert forall|i: int, j: int| 0 <= i < j < b.allocated.len() implies
            #[trigger] b.allocated[i] != #[trigger] b.allocated[j] by {
            assert(b.allocated[i] == a.allocated[i]);
            assert(a.live(a.allocated[i]));
            if j < last {
                assert(b.allocated[j] == a.allocated[j]);
            }
        }
        assert forall|i: int| 0 <= i < b.allocated.len() implies b.live(#[trigger] b.allocated[i])
            && b.allocated[i] != NodeId::none() by {
            if i < last {
                assert(a.live(a.allocated[i]));
            }
        }
        assert forall|i: int| 0 <= i < b.touched.len() implies b.live((#[trigger] b.touched[i]).id) by {
            assert(a.live(a.touched[i].id));
        }
    }
    assert forall|other: NodeId| b.allocated.contains(other) == (other == id
        || a.allocated.contains(other)) by {
        if a.allocated.contains(other) {
            let i = choose|i: int| 0 <= i < a.allocated.len() && a.allocated[i] == other;
            assert(b.allocated[i] == other);
        }
        if b.allocated.contains(other) {
            let i = choose|i: int| 0 <= i < b.allocated.len() && b.allocated[i] == other;
            if i < last {
                assert(a.allocated[i] == other);
            }
        }
    }
    assert forall|other: NodeId| writable(a, other) implies writable(b, other) by {
        if a.touched_has(other) {
            let i = choose|i: int| 0 <= i < a.touched.len() && (#[trigger] a.touched[i]).id == other;
            assert(b.touched[i].id == other);
        }
    }
    assert forall|other: NodeId| a.live(other) && !a.allocated.contains(other) implies
        entry_before(a, other) == entry_before(b, other) by {
        if a.touched_has(other) {
            same_entry_before(a, b, other);
        } else {
            assert(!b.touched_has(other)) by {
                if b.touched_has(other) {
                    let i = choose|i: int|
                        0 <= i < b.touched.len() && (#[trigger] b.touched[i]).id == other;
                    assert(a.touched[i].id == other);
                }
            }
        }
    }
    assert(before(a).nodes =~= before(b).nodes);
    assert(a.allocated.is_prefix_of(b.allocated));
}

/// Pointing a store id somewhere.
pub proof fn carries_set_store(s: Tx, path: Path, node: Option<NodeId>)
    requires
        sound(s),
    ensures
        carries(s, s.set_store(path, node)),
{
    reveal(carries);
    let t = s.set_store(path, node);
    assert(t.undo.drop_last() =~= s.undo);
    assert(restored(t.stores, path, s.stores.get(path)) =~= s.stores);
    assert forall|id: NodeId| writable(s, id) implies writable(t, id) by {
        if s.touched_has(id) {
            let i = choose|i: int| 0 <= i < s.touched.len() && (#[trigger] s.touched[i]).id == id;
            assert(t.touched[i].id == id);
        }
    }
    assert(before(s).nodes =~= before(t).nodes);
}

/// Pointing a stream somewhere.
pub proof fn carries_set_stream(s: Tx, key: (Path, Chars), node: Option<NodeId>)
    requires
        sound(s),
    ensures
        carries(s, s.set_stream(key, node)),
{
    reveal(carries);
    let t = s.set_stream(key, node);
    assert(t.undo.drop_last() =~= s.undo);
    assert(restored(t.streams, key, s.streams.get(key)) =~= s.streams);
    assert forall|id: NodeId| writable(s, id) implies writable(t, id) by {
        if s.touched_has(id) {
            let i = choose|i: int| 0 <= i < s.touched.len() && (#[trigger] s.touched[i]).id == id;
            assert(t.touched[i].id == id);
        }
    }
    assert(before(s).nodes =~= before(t).nodes);
}

/// Ending the tree.
pub proof fn carries_close(s: Tx)
    requires
        sound(s),
        !s.closed,
    ensures
        carries(s, (Tx { closing: true, closed: true, ..s })),
{
    reveal(carries);
    let t = Tx { closing: true, closed: true, ..s };
    assert forall|id: NodeId| writable(s, id) implies writable(t, id) by {
        if s.touched_has(id) {
            let i = choose|i: int| 0 <= i < s.touched.len() && (#[trigger] s.touched[i]).id == id;
            assert(t.touched[i].id == id);
        }
    }
    assert(before(s).nodes =~= before(t).nodes);
}

/// A transaction that has done nothing takes nothing back.
pub proof fn before_opened(tree: Tree)
    ensures
        sound(opened(tree)),
        before(opened(tree)) == tree,
{
    let s = opened(tree);
    assert forall|id: NodeId| !s.touched_has(id) by {}
    assert(before(s).nodes =~= tree.nodes);
    assert(before(s) =~= tree);
}

/// What a step kept, spelled out.
pub proof fn carried(a: Tx, b: Tx)
    requires
        carries(a, b),
    ensures
        sound(a),
        sound(b),
        before(a) == before(b),
        a.root == b.root,
        forall|id: NodeId| #![trigger b.live(id)] a.live(id) ==> b.live(id),
{
    reveal(carries);
}

} // verus!
