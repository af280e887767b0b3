//! Ending a transaction: keeping its work, or taking it back.

use vstd::prelude::*;

use crate::state::arena::Arena;
use crate::state::change;
use crate::state::change::{Change, ChangeSet, CollectionEdit, Edit, Notify, Owed};
use crate::state::journal;
use crate::state::journal::Tree;
use crate::state::model;
use crate::state::model::{Tx, MAX_WALK};
use crate::state::node;
use crate::state::node::{Kind, NodeId, NodeKind, Sem};
use crate::state::sets::NodeSet;
use crate::state::slots;
use crate::state::slots::Entry;
use crate::state::table::{Label, StreamKey};
use crate::state::transaction::Transaction;
use crate::state::tree::StateTree;

verus! {

broadcast use {journal::carries_on, journal::follows_back, journal::stays_writable};

/// The next revision.
pub open spec fn bumped(revision: u64) -> u64 {
    if revision == u64::MAX {
        0
    } else {
        (revision + 1) as u64
    }
}

/// The nodes of a list that sit at one depth, in order.
pub open spec fn at_depth(s: Tx, list: Seq<NodeId>, depth: nat) -> Seq<NodeId>
    decreases list.len(),
{
    if list.len() == 0 {
        Seq::empty()
    } else if s.depth(list.last()) == depth {
        at_depth(s, list.drop_last(), depth).push(list.last())
    } else {
        at_depth(s, list.drop_last(), depth)
    }
}

/// A list sorted by depth, the deepest first, down from `depth`; nodes of one
/// depth keep their order.
pub open spec fn deepest_first(s: Tx, list: Seq<NodeId>, depth: nat) -> Seq<NodeId>
    decreases depth,
{
    if depth == 0 {
        at_depth(s, list, 0)
    } else {
        at_depth(s, list, depth) + deepest_first(s, list, (depth - 1) as nat)
    }
}

/// The dirty nodes in the order they settle: children before parents, in the
/// tree as it is committed.
pub open spec fn settling(s: Tx) -> Seq<NodeId> {
    deepest_first(s, s.settle_order, MAX_WALK as nat)
}

/// The nodes, and those of them that changed so far.
#[verifier::ext_equal]
pub struct Settled {
    pub nodes: Map<NodeId, Entry>,
    pub changed: Seq<NodeId>,
}

/// Reports a node as changed, once.
pub open spec fn reported(changed: Seq<NodeId>, id: NodeId) -> Seq<NodeId> {
    if changed.contains(id) {
        changed
    } else {
        changed.push(id)
    }
}

/// Settles one dirty node: a value equal to the one it had leaves the node as it
/// was; any other makes it changed, with the next revision.
pub open spec fn settle_one(t: Settled, was: Map<NodeId, Sem>, id: NodeId) -> Settled {
    if !t.nodes.contains_key(id) || !was.contains_key(id) {
        t
    } else {
        let now = model::shallow_value(t.nodes, id);
        if node::alike(now, was[id]) {
            Settled { nodes: slots::with_sem(t.nodes, id, was[id]), ..t }
        } else {
            Settled {
                nodes: slots::with_revision(
                    slots::with_sem(t.nodes, id, now),
                    id,
                    bumped(t.nodes[id].revision),
                ),
                changed: reported(t.changed, id),
            }
        }
    }
}

/// Settles the nodes of a list, from `i` on.
pub open spec fn settle_from(t: Settled, was: Map<NodeId, Sem>, list: Seq<NodeId>, i: int) -> Settled
    decreases list.len() - i,
{
    if i < 0 || i >= list.len() {
        t
    } else {
        settle_from(settle_one(t, was, list[i]), was, list, i + 1)
    }
}

/// The detached nodes that still are, each once, from `i` on.
pub open spec fn pending_roots(s: Tx, i: int, roots: Seq<NodeId>) -> Seq<NodeId>
    decreases s.pending.len() - i,
{
    if i < 0 || i >= s.pending.len() {
        roots
    } else if s.is_pending.contains(s.pending[i]) {
        pending_roots(s, i + 1, reported(roots, s.pending[i]))
    } else {
        pending_roots(s, i + 1, roots)
    }
}

/// The rows that left and that nothing claimed back, each once, from `i` on.
pub open spec fn carried_roots(s: Tx, i: int, roots: Seq<NodeId>) -> Seq<NodeId>
    decreases s.carry_order.len() - i,
{
    if i < 0 || i >= s.carry_order.len() {
        roots
    } else {
        match s.carry.get(s.carry_order[i]) {
            Some(id) => carried_roots(s, i + 1, reported(roots, id)),
            None => carried_roots(s, i + 1, roots),
        }
    }
}

/// A subtree, children before their parent, added to a list.
pub open spec fn post_order(
    nodes: Map<NodeId, Entry>,
    id: NodeId,
    list: Seq<NodeId>,
    levels: nat,
) -> Seq<NodeId>
    decreases levels, 0int, 0int,
{
    if levels == 0 || !nodes.contains_key(id) {
        list
    } else {
        reported(
            post_orders(nodes, nodes[id].kind.kids(), 0, list, (levels - 1) as nat),
            id,
        )
    }
}

/// A list of subtrees, from `i` on, each children before parents.
pub open spec fn post_orders(
    nodes: Map<NodeId, Entry>,
    roots: Seq<NodeId>,
    i: int,
    list: Seq<NodeId>,
    levels: nat,
) -> Seq<NodeId>
    decreases levels, 1int, roots.len() - i,
{
    if i < 0 || i >= roots.len() {
        list
    } else {
        post_orders(nodes, roots, i + 1, post_order(nodes, roots[i], list, levels), levels)
    }
}

/// Every node that leaves the tree, children before parents.
pub open spec fn removed_nodes(s: Tx, nodes: Map<NodeId, Entry>) -> Seq<NodeId> {
    post_orders(
        nodes,
        carried_roots(s, 0, pending_roots(s, 0, Seq::empty())),
        0,
        Seq::empty(),
        MAX_WALK as nat,
    )
}

/// Gives the removed nodes that have not changed already the next revision, from
/// `i` on: each is told once more before it is freed.
pub open spec fn report_removed(t: Settled, list: Seq<NodeId>, i: int) -> Settled
    decreases list.len() - i,
{
    if i < 0 || i >= list.len() {
        t
    } else if t.changed.contains(list[i]) {
        report_removed(t, list, i + 1)
    } else {
        report_removed(
            Settled {
                nodes: slots::with_revision(t.nodes, list[i], bumped(t.nodes[list[i]].revision)),
                changed: t.changed.push(list[i]),
            },
            list,
            i + 1,
        )
    }
}

/// Those of the first `n` of a list that are not in another.
pub open spec fn staying(list: Seq<NodeId>, gone: Seq<NodeId>, n: int) -> Seq<NodeId>
    decreases n,
{
    if n <= 0 || n > list.len() {
        Seq::empty()
    } else if gone.contains(list[n - 1]) {
        staying(list, gone, n - 1)
    } else {
        staying(list, gone, n - 1).push(list[n - 1])
    }
}

/// The edits that are kept: those of collections that changed.
pub open spec fn kept_edits(
    nodes: Map<NodeId, Entry>,
    log: Seq<(NodeId, Edit)>,
    changed: Seq<NodeId>,
) -> Map<NodeId, Seq<Edit>> {
    Map::new(
        |id: NodeId|
            changed.contains(id) && nodes.contains_key(id) && nodes[id].kind is Collection
                && change::edits_of(log, id).len() > 0,
        |id: NodeId| change::edits_of(log, id),
    )
}

/// What one node's subscribers are owed, from subscriber `i` on.
pub open spec fn owed_by(id: NodeId, entry: Entry) -> Seq<Owed> {
    Seq::new(
        entry.subs.len(),
        |i: int|
            Owed {
                node: id,
                change: Change { revision: entry.revision },
                subscriber: entry.subs[i],
            },
    )
}

/// What the subscribers of the first `n` changed nodes are owed.
pub open spec fn owed_to(nodes: Map<NodeId, Entry>, changed: Seq<NodeId>, n: int) -> Seq<Owed>
    decreases n,
{
    if n <= 0 || n > changed.len() {
        Seq::empty()
    } else {
        let rest = owed_to(nodes, changed, n - 1);
        let id = changed[n - 1];
        if nodes.contains_key(id) {
            rest + owed_by(id, nodes[id])
        } else {
            rest
        }
    }
}

/// The tree without one node: its index entries go where they still point at it.
pub open spec fn freed(tree: Tree, id: NodeId) -> Tree {
    if !tree.nodes.contains_key(id) {
        tree
    } else {
        let kind = tree.nodes[id].kind;
        Tree {
            nodes: tree.nodes.remove(id),
            stores: match kind {
                Kind::Store { id: path, .. } => if tree.stores.get(path) == Some(id) {
                    tree.stores.remove(path)
                } else {
                    tree.stores
                },
                _ => tree.stores,
            },
            streams: match kind {
                Kind::Collection { name, owner, .. } => if tree.streams.get((owner, name)) == Some(
                    id,
                ) {
                    tree.streams.remove((owner, name))
                } else {
                    tree.streams
                },
                _ => tree.streams,
            },
            ..tree
        }
    }
}

/// The tree without the nodes of a list, from `i` on.
pub open spec fn freed_all(tree: Tree, list: Seq<NodeId>, i: int) -> Tree
    decreases list.len() - i,
{
    if i < 0 || i >= list.len() {
        tree
    } else {
        freed_all(freed(tree, list[i]), list, i + 1)
    }
}

/// The nodes once every dirty one has settled, and those that changed.
pub open spec fn settled(s: Tx) -> Settled {
    settle_from(Settled { nodes: s.nodes, changed: Seq::empty() }, s.settle, settling(s), 0)
}

/// The nodes once the removed ones are reported too, and all that changed: first
/// those that stay in the tree, then those that leave it.
pub open spec fn concluded(s: Tx) -> Settled {
    let t = settled(s);
    let gone = removed_nodes(s, t.nodes);
    Settled {
        nodes: report_removed(t, gone, 0).nodes,
        changed: staying(t.changed, gone, t.changed.len() as int) + gone,
    }
}

/// The tree a commit leaves.
pub open spec fn committed(s: Tx) -> Tree {
    freed_all(
        Tree {
            nodes: concluded(s).nodes,
            root: s.root,
            stores: s.stores,
            streams: s.streams,
            closed: s.closed,
            next_subscriber: s.next_subscriber,
        },
        removed_nodes(s, settled(s).nodes),
        0,
    )
}

/// What a commit reports, and whom it owes.
pub open spec fn notifies(s: Tx, notify: Notify) -> bool {
    let t = concluded(s);
    &&& notify.change_set().wf()
    &&& notify.change_set().nodes() == t.changed
    &&& notify.change_set().edits() == kept_edits(t.nodes, s.edits, t.changed)
    &&& notify.debts() == owed_to(t.nodes, t.changed, t.changed.len() as int)
}

proof fn at_depth_step(s: Tx, list: Seq<NodeId>, i: int, depth: nat)
    requires
        0 <= i < list.len(),
    ensures
        at_depth(s, list.take(i + 1), depth) == (if s.depth(list[i]) == depth {
            at_depth(s, list.take(i), depth).push(list[i])
        } else {
            at_depth(s, list.take(i), depth)
        }),
{
    assert(list.take(i + 1).drop_last() =~= list.take(i));
    assert(list.take(i + 1).last() == list[i]);
}

proof fn owed_step(nodes: Map<NodeId, Entry>, changed: Seq<NodeId>, n: int)
    requires
        0 <= n < changed.len(),
    ensures
        owed_to(nodes, changed, n + 1) == (if nodes.contains_key(changed[n]) {
            owed_to(nodes, changed, n) + owed_by(changed[n], nodes[changed[n]])
        } else {
            owed_to(nodes, changed, n)
        }),
{
}

proof fn edits_step(log: Seq<(NodeId, Edit)>, i: int, id: NodeId)
    requires
        0 <= i < log.len(),
    ensures
        change::edits_of(log.take(i + 1), id) == (if log[i].0 == id {
            change::edits_of(log.take(i), id).push(log[i].1)
        } else {
            change::edits_of(log.take(i), id)
        }),
{
    assert(log.take(i + 1).drop_last() =~= log.take(i));
    assert(log.take(i + 1).last() == log[i]);
}

/// Adds a node to a list and to the set of its members, once.
fn report(list: &mut Vec<NodeId>, members: &mut NodeSet, id: NodeId)
    requires
        old(members)@ == old(list)@.to_set(),
    ensures
        final(list)@ == reported(old(list)@, id),
        final(members)@ == final(list)@.to_set(),
{
    if !members.contains(id) {
        let _ = members.insert(id);
        list.push(id);
        proof {
            crate::state::reconcile::push_to_set(old(list)@, id);
        }
    }
}

/// The nodes of a list that are not in another.
fn stay(list: &Vec<NodeId>, gone: &Vec<NodeId>, members: &NodeSet) -> (left: Vec<NodeId>)
    requires
        members@ == gone@.to_set(),
    ensures
        left@ == staying(list@, gone@, list@.len() as int),
{
    let mut left: Vec<NodeId> = Vec::new();
    let mut i: usize = 0;
    while i < list.len()
        invariant
            i <= list@.len(),
            members@ == gone@.to_set(),
            left@ == staying(list@, gone@, i as int),
        decreases list.len() - i,
    {
        if !members.contains(list[i]) {
            left.push(list[i]);
        }
        i = i + 1;
    }
    left
}

impl Transaction {
    /// The dirty nodes in the order they settle.
    fn settle_sequence(&self) -> (order: Vec<NodeId>)
        requires
            self.wf(),
        ensures
            order@ == settling(self@),
    {
        proof {
            self.unfold_record();
        }
        let ghost list = self.settle_order@;
        let mut depths: Vec<usize> = Vec::new();
        let mut i: usize = 0;
        while i < self.settle_order.len()
            invariant
                self.wf(),
                i <= self.settle_order@.len(),
                depths@.len() == i,
                forall|j: int|
                    0 <= j < i ==> (#[trigger] depths@[j]) == self@.depth(self.settle_order@[j]),
            decreases self.settle_order.len() - i,
        {
            depths.push(self.depth(self.settle_order[i]));
            i = i + 1;
        }
        let mut order: Vec<NodeId> = Vec::new();
        let mut depth: usize = MAX_WALK;
        let mut more: bool = true;
        while more
            invariant
                self.wf(),
                list == self.settle_order@,
                depths@.len() == list.len(),
                depth <= MAX_WALK,
                forall|j: int|
                    0 <= j < list.len() ==> (#[trigger] depths@[j]) == self@.depth(list[j]),
                more ==> settling_from(self@, list) == order@ + deepest_first(
                    self@,
                    list,
                    depth as nat,
                ),
                !more ==> settling_from(self@, list) == order@,
            decreases depth, (if more { 1int } else { 0int }),
        {
            let ghost before = order@;
            let mut k: usize = 0;
            assert(list.take(0) =~= Seq::<NodeId>::empty());
            assert(order@ =~= before + at_depth(self@, list.take(0), depth as nat));
            while k < self.settle_order.len()
                invariant
                    k <= list.len(),
                    list == self.settle_order@,
                    depths@.len() == list.len(),
                    forall|j: int|
                        0 <= j < list.len() ==> (#[trigger] depths@[j]) == self@.depth(list[j]),
                    order@ == before + at_depth(self@, list.take(k as int), depth as nat),
                decreases list.len() - k,
            {
                proof {
                    at_depth_step(self@, list, k as int, depth as nat);
                }
                if depths[k] == depth {
                    order.push(self.settle_order[k]);
                    assert(order@ =~= before + at_depth(self@, list.take(k + 1), depth as nat));
                }
                k = k + 1;
            }
            assert(list.take(k as int) =~= list);
            if depth == 0 {
                more = false;
            } else {
                assert(order@ + deepest_first(self@, list, (depth - 1) as nat) =~= before
                    + deepest_first(self@, list, depth as nat));
                depth = depth - 1;
            }
        }
        order
    }

    /// Settles the dirty nodes bottom-up, each against the value it had when
    /// this transaction first reached it.
    fn settle_all(&mut self, order: &Vec<NodeId>) -> (changed: (Vec<NodeId>, NodeSet))
        requires
            old(self).wf(),
        ensures
            final(self).arena.wf(),
            final(self).arena@ == (Tree {
                nodes: settle_from(
                    Settled { nodes: old(self)@.nodes, changed: Seq::empty() },
                    old(self)@.settle,
                    order@,
                    0,
                ).nodes,
                ..old(self).arena@
            }),
            changed.0@ == settle_from(
                Settled { nodes: old(self)@.nodes, changed: Seq::empty() },
                old(self)@.settle,
                order@,
                0,
            ).changed,
            changed.1@ == changed.0@.to_set(),
            *final(self) == (Transaction { arena: final(self).arena, ..*old(self) }),
    {
        proof {
            self.unfold();
            self.unfold_record();
            self.arena.unfold();
        }
        let ghost was = self@.settle;
        let ghost first = Settled { nodes: self@.nodes, changed: Seq::empty() };
        let ghost start = self.arena@;
        let mut changed: Vec<NodeId> = Vec::new();
        let mut members = NodeSet::new();
        assert(changed@.to_set() =~= Set::<NodeId>::empty());
        let mut i: usize = 0;
        while i < order.len()
            invariant
                i <= order@.len(),
                self.arena.wf(),
                self.settle@ == was,
                members@ == changed@.to_set(),
                start == old(self).arena@,
                self.arena@ == (Tree { nodes: self.arena@.nodes, ..start }),
                *self == (Transaction { arena: self.arena, ..*old(self) }),
                settle_from(first, was, order@, 0) == settle_from(
                    Settled { nodes: self.arena@.nodes, changed: changed@ },
                    was,
                    order@,
                    i as int,
                ),
            decreases order.len() - i,
        {
            let id = order[i];
            let ghost t = Settled { nodes: self.arena@.nodes, changed: changed@ };
            proof {
                self.arena.unfold();
            }
            let revision = match self.arena.nodes.get(id) {
                Some(data) => Some(data.revision),
                None => None,
            };
            if let Some(revision) = revision {
                let now = self.arena.semantic_shallow(id);
                let mut same: Option<bool> = None;
                if let Some(old_value) = self.settle.get(id) {
                    if now.same(old_value) {
                        // The old allocation is put back, so that an ancestor's
                        // comparison keeps stopping at the pointer.
                        self.arena.nodes.set_semantic(id, old_value.share());
                        same = Some(true);
                    } else {
                        same = Some(false);
                    }
                }
                if let Some(false) = same {
                    self.arena.nodes.set_semantic(id, now);
                    self.arena.nodes.set_revision(id, next_revision(revision));
                    report(&mut changed, &mut members, id);
                }
            }
            proof {
                self.arena.unfold();
                assert(self.arena@ =~= (Tree { nodes: self.arena@.nodes, ..start }));
                assert((Settled { nodes: self.arena@.nodes, changed: changed@ }) =~= settle_one(
                    t,
                    was,
                    id,
                ));
            }
            i = i + 1;
        }
        (changed, members)
    }

    /// The roots of what leaves the tree at this commit.
    fn removal_roots(&self) -> (roots: Vec<NodeId>)
        requires
            self.carry.wf(),
        ensures
            forall|s: Tx|
                #![trigger carried_roots(s, 0, pending_roots(s, 0, Seq::empty()))]
                s.pending == self.pending@ && s.is_pending == self.pending_set@ && s.carry
                    == self.carry@ && s.carry_order == Seq::new(
                    self.carry_order@.len(),
                    |i: int| self.carry_order@[i].label(),
                ) ==> roots@ == carried_roots(s, 0, pending_roots(s, 0, Seq::empty())),
    {
        let ghost s = Tx {
            pending: self.pending@,
            is_pending: self.pending_set@,
            carry: self.carry@,
            carry_order: Seq::new(
                self.carry_order@.len(),
                |i: int| self.carry_order@[i].label(),
            ),
            ..arbitrary()
        };
        let mut roots: Vec<NodeId> = Vec::new();
        let mut members = NodeSet::new();
        assert(roots@ =~= Seq::<NodeId>::empty());
        assert(roots@.to_set() =~= Set::<NodeId>::empty());
        let mut i: usize = 0;
        while i < self.pending.len()
            invariant
                i <= self.pending@.len(),
                members@ == roots@.to_set(),
                s.pending == self.pending@,
                s.is_pending == self.pending_set@,
                pending_roots(s, 0, Seq::empty()) == pending_roots(s, i as int, roots@),
            decreases self.pending.len() - i,
        {
            if self.pending_set.contains(self.pending[i]) {
                report(&mut roots, &mut members, self.pending[i]);
            }
            i = i + 1;
        }
        let ghost mid = roots@;
        let mut j: usize = 0;
        while j < self.carry_order.len()
            invariant
                self.carry.wf(),
                j <= self.carry_order@.len(),
                members@ == roots@.to_set(),
                s.carry == self.carry@,
                s.carry_order == Seq::new(
                    self.carry_order@.len(),
                    |i: int| self.carry_order@[i].label(),
                ),
                carried_roots(s, 0, mid) == carried_roots(s, j as int, roots@),
            decreases self.carry_order.len() - j,
        {
            if let Some(id) = self.carry.get(&self.carry_order[j]) {
                report(&mut roots, &mut members, id);
            }
            j = j + 1;
        }
        proof {
            assert forall|other: Tx|
                #![trigger carried_roots(other, 0, pending_roots(other, 0, Seq::empty()))]
                other.pending == self.pending@ && other.is_pending == self.pending_set@
                    && other.carry == self.carry@ && other.carry_order == Seq::new(
                    self.carry_order@.len(),
                    |i: int| self.carry_order@[i].label(),
                ) implies roots@ == carried_roots(other, 0, pending_roots(other, 0, Seq::empty())) by {
                same_pending_roots(s, other, 0, Seq::empty());
                same_carried_roots(s, other, 0, pending_roots(s, 0, Seq::empty()));
            }
        }
        roots
    }

    /// Settle the dirty set bottom-up, diff, bump revisions, collect who is
    /// owed. Nothing here can fail.
    pub fn commit(self) -> (kept: (StateTree, Notify))
        requires
            self.wf(),
        ensures
            kept.0.wf(),
            kept.0@ == committed(self@),
            notifies(self@, kept.1),
    {
        let ghost s = self@;
        proof {
            self.unfold();
            self.unfold_record();
        }
        let mut open = self;
        let order = open.settle_sequence();
        let (mut changed, mut members) = open.settle_all(&order);
        let ghost t = settled(s);
        assert(open.arena@.nodes == t.nodes);
        assert(changed@ == t.changed);
        // A node that left the tree is notified once and then freed.
        let roots = open.removal_roots();
        let mut removed: Vec<NodeId> = Vec::new();
        let mut walked = NodeSet::new();
        assert(removed@ =~= Seq::<NodeId>::empty());
        assert(removed@.to_set() =~= Set::<NodeId>::empty());
        let mut i: usize = 0;
        while i < roots.len()
            invariant
                i <= roots@.len(),
                open.arena@.nodes == t.nodes,
                walked@ == removed@.to_set(),
                post_orders(t.nodes, roots@, 0, Seq::empty(), MAX_WALK as nat) == post_orders(
                    t.nodes,
                    roots@,
                    i as int,
                    removed@,
                    MAX_WALK as nat,
                ),
            decreases roots.len() - i,
        {
            open.arena.subtree_post_order(roots[i], &mut removed, &mut walked, MAX_WALK);
            i = i + 1;
        }
        assert(removed@ == removed_nodes(s, t.nodes));
        let mut told = stay(&changed, &removed, &walked);
        let mut arena = open.arena;
        let ghost start = arena@;
        let mut j: usize = 0;
        while j < removed.len()
            invariant
                j <= removed@.len(),
                arena.wf(),
                members@ == changed@.to_set(),
                told@ == staying(t.changed, removed@, t.changed.len() as int) + removed@.take(
                    j as int,
                ),
                arena@ == (Tree { nodes: arena@.nodes, ..start }),
                report_removed(t, removed@, 0) == report_removed(
                    Settled { nodes: arena@.nodes, changed: changed@ },
                    removed@,
                    j as int,
                ),
            decreases removed.len() - j,
        {
            let id = removed[j];
            if !members.contains(id) {
                arena.bump_revision(id);
                report(&mut changed, &mut members, id);
            }
            told.push(id);
            assert(told@ =~= staying(t.changed, removed@, t.changed.len() as int)
                + removed@.take(j + 1));
            j = j + 1;
        }
        let ghost u = concluded(s);
        assert(removed@.take(j as int) =~= removed@);
        assert(arena@.nodes == u.nodes);
        assert(told@ == u.changed);
        let owed = arena.owed(&told);
        let set = gather(&arena, &open.edits, told);
        let mut k: usize = 0;
        let ghost whole = arena@;
        while k < removed.len()
            invariant
                k <= removed@.len(),
                arena.wf(),
                freed_all(whole, removed@, 0) == freed_all(arena@, removed@, k as int),
            decreases removed.len() - k,
        {
            arena.free(removed[k]);
            k = k + 1;
        }
        proof {
            assert(whole =~= (Tree {
                nodes: u.nodes,
                root: s.root,
                stores: s.stores,
                streams: s.streams,
                closed: s.closed,
                next_subscriber: s.next_subscriber,
            }));
        }
        (StateTree::from_arena(arena), Notify::new(set, owed))
    }
}

/// Files the edits of the collections that changed.
fn gather(arena: &Arena, log: &Vec<(NodeId, CollectionEdit)>, changed: Vec<NodeId>) -> (set:
    ChangeSet)
    requires
        arena.wf(),
    ensures
        set.wf(),
        set.nodes() == changed@,
        set.edits() == kept_edits(
            arena@.nodes,
            Seq::new(log@.len(), |i: int| (log@[i].0, log@[i].1@)),
            changed@,
        ),
{
    let ghost seen = Seq::new(log@.len(), |i: int| (log@[i].0, log@[i].1@));
    let mut edited = NodeSet::new();
    let mut i: usize = 0;
    while i < log.len()
        invariant
            i <= log@.len(),
            seen == Seq::new(log@.len(), |i: int| (log@[i].0, log@[i].1@)),
            forall|id: NodeId|
                edited@.contains(id) <==> (#[trigger] change::edits_of(
                    seen.take(i as int),
                    id,
                )).len() > 0,
        decreases log.len() - i,
    {
        let _ = edited.insert(log[i].0);
        proof {
            assert forall|id: NodeId|
                edited@.contains(id) <==> (#[trigger] change::edits_of(
                    seen.take(i + 1),
                    id,
                )).len() > 0 by {
                edits_step(seen, i as int, id);
            }
        }
        i = i + 1;
    }
    assert(seen.take(i as int) =~= seen);
    let nodes = crate::state::node::copy_nodes(&changed);
    let mut set = ChangeSet::new(nodes);
    let mut done = NodeSet::new();
    let mut j: usize = 0;
    while j < changed.len()
        invariant
            j <= changed@.len(),
            seen == Seq::new(log@.len(), |i: int| (log@[i].0, log@[i].1@)),
            arena.wf(),
            set.wf(),
            set.nodes() == changed@,
            forall|id: NodeId|
                edited@.contains(id) <==> (#[trigger] change::edits_of(seen, id)).len() > 0,
            forall|id: NodeId|
                done@.contains(id) <==> changed@.take(j as int).contains(id),
            set.edits() == kept_edits(arena@.nodes, seen, changed@.take(j as int)),
        decreases changed.len() - j,
    {
        let id = changed[j];
        proof {
            arena.unfold();
        }
        let ghost shorter = changed@.take(j as int);
        let ghost longer = changed@.take(j + 1);
        proof {
            assert(longer =~= shorter.push(id));
            crate::state::reconcile::push_to_set(shorter, id);
            assert forall|other: NodeId| longer.contains(other) == (shorter.contains(other) || other
                == id) by {
                assert(longer.to_set().contains(other) == longer.contains(other));
                assert(shorter.to_set().contains(other) == shorter.contains(other));
            }
        }
        let list = match arena.nodes.get(id) {
            Some(data) => match &data.kind {
                NodeKind::Collection { .. } => true,
                _ => false,
            },
            None => false,
        };
        if list && edited.contains(id) && !done.contains(id) {
            let edits = edits_for(log, id);
            set.file(id, edits);
        }
        let _ = done.insert(id);
        assert(set.edits() =~= kept_edits(arena@.nodes, seen, longer));
        j = j + 1;
    }
    assert(changed@.take(j as int) =~= changed@);
    set
}

/// The edits one node took.
fn edits_for(log: &Vec<(NodeId, CollectionEdit)>, id: NodeId) -> (edits: Vec<CollectionEdit>)
    ensures
        change::edits_view(edits@) == change::edits_of(
            Seq::new(log@.len(), |i: int| (log@[i].0, log@[i].1@)),
            id,
        ),
{
    let ghost seen = Seq::new(log@.len(), |i: int| (log@[i].0, log@[i].1@));
    let mut edits: Vec<CollectionEdit> = Vec::new();
    let mut i: usize = 0;
    assert(change::edits_view(edits@) =~= change::edits_of(seen.take(0), id));
    while i < log.len()
        invariant
            i <= log@.len(),
            seen == Seq::new(log@.len(), |i: int| (log@[i].0, log@[i].1@)),
            change::edits_view(edits@) == change::edits_of(seen.take(i as int), id),
        decreases log.len() - i,
    {
        proof {
            edits_step(seen, i as int, id);
        }
        let ghost before = change::edits_view(edits@);
        if log[i].0 == id {
            edits.push(log[i].1.copy());
            assert(change::edits_view(edits@) =~= before.push(seen[i as int].1));
        }
        i = i + 1;
    }
    assert(seen.take(i as int) =~= seen);
    edits
}

/// The next revision.
fn next_revision(revision: u64) -> (next: u64)
    ensures
        next == bumped(revision),
{
    if revision == u64::MAX {
        0
    } else {
        revision + 1
    }
}

spec fn settling_from(s: Tx, list: Seq<NodeId>) -> Seq<NodeId> {
    deepest_first(s, list, MAX_WALK as nat)
}

proof fn same_pending_roots(a: Tx, b: Tx, i: int, roots: Seq<NodeId>)
    requires
        a.pending == b.pending,
        a.is_pending == b.is_pending,
    ensures
        pending_roots(a, i, roots) == pending_roots(b, i, roots),
    decreases a.pending.len() - i,
{
    if 0 <= i < a.pending.len() {
        if a.is_pending.contains(a.pending[i]) {
            same_pending_roots(a, b, i + 1, reported(roots, a.pending[i]));
        } else {
            same_pending_roots(a, b, i + 1, roots);
        }
    }
}

proof fn same_carried_roots(a: Tx, b: Tx, i: int, roots: Seq<NodeId>)
    requires
        a.carry == b.carry,
        a.carry_order == b.carry_order,
    ensures
        carried_roots(a, i, roots) == carried_roots(b, i, roots),
    decreases a.carry_order.len() - i,
{
    if 0 <= i < a.carry_order.len() {
        match a.carry.get(a.carry_order[i]) {
            Some(id) => same_carried_roots(a, b, i + 1, reported(roots, id)),
            None => same_carried_roots(a, b, i + 1, roots),
        }
    }
}

impl Arena {
    /// Post-order walk of a subtree: children before their parent. The order
    /// removal is notified in, and the order nodes are freed in.
    pub(crate) fn subtree_post_order(
        &self,
        id: NodeId,
        list: &mut Vec<NodeId>,
        walked: &mut NodeSet,
        levels: usize,
    )
        requires
            old(walked)@ == old(list)@.to_set(),
        ensures
            final(list)@ == post_order(self@.nodes, id, old(list)@, levels as nat),
            final(walked)@ == final(list)@.to_set(),
        decreases levels,
    {
        proof {
            self.unfold();
        }
        if levels == 0 {
            return;
        }
        let kids = match self.nodes.get(id) {
            Some(data) => data.kind.children(),
            None => {
                return;
            },
        };
        let mut i: usize = 0;
        while i < kids.len()
            invariant
                0 < levels,
                i <= kids@.len(),
                walked@ == list@.to_set(),
                post_orders(self@.nodes, kids@, 0, old(list)@, (levels - 1) as nat) == post_orders(
                    self@.nodes,
                    kids@,
                    i as int,
                    list@,
                    (levels - 1) as nat,
                ),
            decreases kids.len() - i,
        {
            self.subtree_post_order(kids[i], list, walked, levels - 1);
            i = i + 1;
        }
        report(list, walked, id);
    }

    /// Gives one node its next revision.
    fn bump_revision(&mut self, id: NodeId)
        requires
            old(self).wf(),
        ensures
            final(self).wf(),
            final(self)@ == (Tree {
                nodes: slots::with_revision(
                    old(self)@.nodes,
                    id,
                    bumped(old(self)@.nodes[id].revision),
                ),
                ..old(self)@
            }),
    {
        proof {
            self.unfold();
        }
        if let Some(data) = self.nodes.get(id) {
            let revision = next_revision(data.revision);
            self.nodes.set_revision(id, revision);
        }
        proof {
            self.unfold();
            assert(self@ =~= (Tree {
                nodes: slots::with_revision(
                    old(self)@.nodes,
                    id,
                    bumped(old(self)@.nodes[id].revision),
                ),
                ..old(self)@
            }));
        }
    }

    /// What the subscribers of the changed nodes are owed.
    fn owed(&self, changed: &Vec<NodeId>) -> (owed: Vec<Owed>)
        ensures
            owed@ == owed_to(self@.nodes, changed@, changed@.len() as int),
    {
        proof {
            self.unfold();
        }
        let mut owed: Vec<Owed> = Vec::new();
        assert(owed@ =~= owed_to(self@.nodes, changed@, 0));
        let mut i: usize = 0;
        while i < changed.len()
            invariant
                i <= changed@.len(),
                self@.nodes == self.nodes@,
                owed@ == owed_to(self@.nodes, changed@, i as int),
            decreases changed.len() - i,
        {
            let id = changed[i];
            proof {
                owed_step(self@.nodes, changed@, i as int);
            }
            if let Some(data) = self.nodes.get(id) {
                let ghost before = owed@;
                let ghost debts = owed_by(id, data@);
                let mut j: usize = 0;
                assert(owed@ =~= before + debts.take(0));
                while j < data.subscribers.len()
                    invariant
                        j <= data.subscribers@.len(),
                        debts == owed_by(id, data@),
                        owed@ == before + debts.take(j as int),
                    decreases data.subscribers.len() - j,
                {
                    owed.push(
                        Owed {
                            node: id,
                            change: Change { revision: data.revision },
                            subscriber: data.subscribers[j],
                        },
                    );
                    assert(owed@ =~= before + debts.take(j + 1));
                    j = j + 1;
                }
                assert(debts.take(j as int) =~= debts);
            }
            i = i + 1;
        }
        owed
    }

    /// Frees one node's slot and drops its entries from the two indices.
    ///
    /// The index entries are only dropped when they still point at this node.
    fn free(&mut self, id: NodeId)
        requires
            old(self).wf(),
        ensures
            final(self).wf(),
            final(self)@ == freed(old(self)@, id),
    {
        proof {
            self.unfold();
        }
        match self.nodes.remove(id) {
            None => {
                assert(self.nodes@ =~= old(self).nodes@);
            },
            Some(data) => match data.kind {
                NodeKind::Store { store_id, .. } => {
                    if self.stores.get(&store_id) == Some(id) {
                        let _ = self.stores.remove(&store_id);
                    }
                },
                NodeKind::Collection { name, owner, .. } => {
                    let key = StreamKey { owner, name };
                    if self.streams.get(&key) == Some(id) {
                        let _ = self.streams.remove(&key);
                    }
                },
                _ => {},
            },
        }
        proof {
            self.unfold();
            assert(self@ =~= freed(old(self)@, id));
        }
    }
}

} // verus!
