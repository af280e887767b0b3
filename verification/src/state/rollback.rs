//! Taking a transaction back.

use vstd::prelude::*;

use crate::state::journal;
use crate::state::model::{Tx, Undo};
use crate::state::node::NodeId;
use crate::state::slots::Entry;
use crate::state::table::Label;
use crate::state::transaction::{IndexUndo, Transaction};
use crate::state::tree::StateTree;

verus! {

/// The nodes without the first `n` of a list.
spec fn unmade(nodes: Map<NodeId, Entry>, list: Seq<NodeId>, n: int) -> Map<NodeId, Entry> {
    Map::new(
        |id: NodeId| nodes.contains_key(id) && !list.take(n).contains(id),
        |id: NodeId| nodes[id],
    )
}

/// The nodes the transaction did not make, those of the first `n` recorded ones
/// as they were.
spec fn reverted(s: Tx, n: int) -> Map<NodeId, Entry> {
    Map::new(
        |id: NodeId| s.live(id) && !s.allocated.contains(id),
        |id: NodeId|
            if recorded_before(s, n, id) {
                journal::entry_before(s, id)
            } else {
                s.nodes[id]
            },
    )
}

spec fn recorded_before(s: Tx, n: int, id: NodeId) -> bool {
    exists|i: int| 0 <= i < n && i < s.touched.len() && (#[trigger] s.touched[i]).id == id
}

proof fn recorded_step(s: Tx, n: int, id: NodeId)
    requires
        0 <= n < s.touched.len(),
    ensures
        recorded_before(s, n + 1, id) == (recorded_before(s, n, id) || s.touched[n].id == id),
{
    if recorded_before(s, n, id) {
        let i = choose|i: int|
            0 <= i < n && i < s.touched.len() && (#[trigger] s.touched[i]).id == id;
        assert(0 <= i < n + 1 && s.touched[i].id == id);
    }
    if s.touched[n].id == id {
        assert(0 <= n < n + 1 && s.touched[n].id == id);
    }
    if recorded_before(s, n + 1, id) {
        let i = choose|i: int|
            0 <= i < n + 1 && i < s.touched.len() && (#[trigger] s.touched[i]).id == id;
        if i < n {
            assert(0 <= i < n && s.touched[i].id == id);
        }
    }
}

proof fn entry_before_is(s: Tx, n: int)
    requires
        journal::sound(s),
        0 <= n < s.touched.len(),
    ensures
        journal::entry_before(s, s.touched[n].id) == (Entry {
            parent: s.touched[n].parent,
            kind: s.touched[n].kind,
            revision: s.touched[n].revision,
            sem: s.touched[n].sem,
            subs: s.nodes[s.touched[n].id].subs,
        }),
{
    let id = s.touched[n].id;
    assert(s.touched_has(id));
    let found = choose|i: int| 0 <= i < s.touched.len() && (#[trigger] s.touched[i]).id == id;
    if found < n {
        assert(s.touched[found].id != s.touched[n].id);
    }
    if n < found {
        assert(s.touched[n].id != s.touched[found].id);
    }
}

impl Transaction {
    /// Replays the record backwards: every written node gets back its parent,
    /// kind, value and revision, every node the transaction made is freed, and
    /// the indices point where they did. The tree is exactly as it was.
    pub fn rollback(self) -> (tree: StateTree)
        requires
            self.wf(),
        ensures
            tree.wf(),
            tree@ == journal::before(self@),
    {
        let ghost s = self@;
        proof {
            self.sound();
            self.unfold();
            self.unfold_record();
            self.arena.unfold();
        }
        let Transaction { mut arena, touched, allocated, mut undo, closing, .. } = self;
        let ghost start = arena@;
        let mut i: usize = 0;
        proof {
            assert(arena.nodes@ =~= unmade(s.nodes, allocated@, 0));
        }
        while i < allocated.len()
            invariant
                i <= allocated@.len(),
                arena.stores.wf(),
                arena.streams.wf(),
                arena.root == start.root,
                arena.stores@ == start.stores,
                arena.streams@ == start.streams,
                arena.closed == start.closed,
                arena.next_subscriber == start.next_subscriber,
                arena.nodes@ == unmade(s.nodes, allocated@, i as int),
            decreases allocated.len() - i,
        {
            let id = allocated[i];
            let _ = arena.nodes.remove(id);
            proof {
                let shorter = allocated@.take(i as int);
                let longer = allocated@.take(i + 1);
                assert(longer =~= shorter.push(id));
                crate::state::reconcile::push_to_set(shorter, id);
                assert forall|other: NodeId| longer.contains(other) == (shorter.contains(other)
                    || other == id) by {
                    assert(longer.to_set().contains(other) == longer.contains(other));
                    assert(shorter.to_set().contains(other) == shorter.contains(other));
                }
                assert(arena.nodes@ =~= unmade(s.nodes, allocated@, i + 1));
            }
            i = i + 1;
        }
        proof {
            assert(allocated@.take(i as int) =~= allocated@);
            assert(arena.nodes@ =~= reverted(s, 0)) by {
                assert forall|id: NodeId| !recorded_before(s, 0, id) by {}
            }
        }
        let mut j: usize = 0;
        while j < touched.len()
            invariant
                j <= touched@.len(),
                journal::sound(s),
                s.touched == Seq::new(touched@.len(), |k: int| touched@[k]@),
                arena.stores.wf(),
                arena.streams.wf(),
                arena.root == start.root,
                arena.stores@ == start.stores,
                arena.streams@ == start.streams,
                arena.closed == start.closed,
                arena.next_subscriber == start.next_subscriber,
                arena.nodes@ == reverted(s, j as int),
            decreases touched.len() - j,
        {
            let entry = &touched[j];
            proof {
                entry.unfold();
                assert(s.touched[j as int] == entry@);
            }
            arena.nodes.set_parent(entry.id, entry.parent);
            arena.nodes.set_kind(entry.id, entry.kind.copy());
            arena.nodes.set_revision(entry.id, entry.revision);
            arena.nodes.set_semantic(entry.id, entry.semantic.share());
            proof {
                entry_before_is(s, j as int);
                assert forall|id: NodeId| recorded_before(s, j + 1, id) == (recorded_before(
                    s,
                    j as int,
                    id,
                ) || entry.id == id) by {
                    recorded_step(s, j as int, id);
                }
                assert(!recorded_before(s, j as int, entry.id)) by {
                    if recorded_before(s, j as int, entry.id) {
                        let k = choose|k: int|
                            0 <= k < j && k < s.touched.len() && (#[trigger] s.touched[k]).id
                                == entry.id;
                        assert(s.touched[k].id != s.touched[j as int].id);
                    }
                }
                assert(arena.nodes@ =~= reverted(s, j + 1));
            }
            j = j + 1;
        }
        proof {
            assert forall|id: NodeId| recorded_before(s, j as int, id) == s.touched_has(id) by {
                if s.touched_has(id) {
                    let k = choose|k: int|
                        0 <= k < s.touched.len() && (#[trigger] s.touched[k]).id == id;
                    assert(0 <= k < j && s.touched[k].id == id);
                }
            }
            assert(arena.nodes@ =~= journal::before(s).nodes);
        }
        let ghost views = s.undo;
        assert(views.take(undo@.len() as int) =~= views);
        while undo.len() > 0
            invariant
                undo@.len() <= views.len(),
                forall|k: int| 0 <= k < undo@.len() ==> (#[trigger] undo@[k])@ == views[k],
                arena.stores.wf(),
                arena.streams.wf(),
                arena.root == start.root,
                arena.closed == start.closed,
                arena.next_subscriber == start.next_subscriber,
                arena.nodes@ == journal::before(s).nodes,
                journal::stores_before(arena.stores@, views.take(undo@.len() as int))
                    == journal::before(s).stores,
                journal::streams_before(arena.streams@, views.take(undo@.len() as int))
                    == journal::before(s).streams,
            decreases undo.len(),
        {
            let ghost rest = views.take(undo@.len() as int);
            let ghost last = undo@.len() - 1;
            match undo.pop() {
                Some(entry) => {
                    proof {
                        entry.unfold();
                        assert(rest.last() == entry@);
                        assert(rest.drop_last() =~= views.take(last));
                    }
                    match entry {
                        IndexUndo::Store(store_id, was) => match was {
                            Some(id) => {
                                let _ = arena.stores.insert(store_id, id);
                            },
                            None => {
                                let _ = arena.stores.remove(&store_id);
                            },
                        },
                        IndexUndo::Stream(key, was) => match was {
                            Some(id) => {
                                let _ = arena.streams.insert(key, id);
                            },
                            None => {
                                let _ = arena.streams.remove(&key);
                            },
                        },
                    }
                },
                None => {},
            }
        }
        assert(views.take(0) =~= Seq::<Undo>::empty());
        if closing {
            arena.closed = false;
        }
        proof {
            arena.unfold();
            assert(arena@ =~= journal::before(s));
        }
        StateTree::from_arena(arena)
    }
}

} // verus!
