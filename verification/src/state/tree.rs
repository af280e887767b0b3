//! The retained tree of one mounted root.

use vstd::prelude::*;

use crate::state::arena;
use crate::state::arena::Arena;
use crate::state::change::Notify;
use crate::state::commit;
use crate::state::error::{Fault, TreeError};
use crate::state::journal;
use crate::state::journal::Tree;
use crate::state::model;
use crate::state::model::Tx;
use crate::state::node;
use crate::state::node::{NodeId, NodeKind, SemanticValue};
use crate::state::slots;
use crate::state::state::State;
use crate::state::subscription::SubscriberId;
use crate::state::transaction;
use crate::state::transaction::Transaction;
use crate::state::value::JsonValue;
use crate::state::wire::{PatchOp, Path, StoreId, StreamOp};

verus! {

/// A copy of one node's metadata, as of the moment it was read.
#[derive(Debug)]
pub struct Node {
    /// `None` for the root, which is the only parentless node.
    pub parent: Option<NodeId>,
    /// What the node is, and where its children live.
    pub kind: NodeKind,
    /// Bumped only by a transaction that changed this node's value. `0` means
    /// no transaction has ever touched it.
    pub revision: u64,
    /// The node's value as equality sees it.
    pub semantic: SemanticValue,
    /// Live subscriptions on this node.
    pub subscribers: usize,
}

/// The retained tree of one mounted root.
pub struct StateTree {
    arena: Arena,
}

impl View for StateTree {
    type V = Tree;

    closed spec fn view(&self) -> Tree {
        self.arena@
    }
}

/// What a batch against a tree leads to: the transaction it leaves open, and
/// whether it succeeded.
pub open spec fn batch(
    tree: Tree,
    ops: Seq<PatchOp>,
    stream_ops: Seq<StreamOp>,
    s: Tx,
    done: Result<(), Fault>,
) -> bool {
    &&& journal::carries(journal::opened(tree), s)
    &&& forall|ids: Seq<NodeId>| #[trigger]
        journal::follows(s, ids) ==> model::apply_batch(
            journal::opened(tree),
            ops,
            stream_ops,
            ids,
        ) == (s, done)
}

/// What closing a tree leads to, before it is committed.
pub open spec fn closing(tree: Tree, s: Tx) -> bool {
    &&& journal::carries(journal::opened(tree), s)
    &&& forall|ids: Seq<NodeId>| #[trigger]
        journal::follows(s, ids) ==> model::close_tree(journal::opened(tree), ids) == s
}

/// The list of subscribers without one.
pub open spec fn without_subscriber(subs: Seq<SubscriberId>, id: SubscriberId) -> Seq<SubscriberId>
    decreases subs.len(),
{
    if subs.len() == 0 {
        subs
    } else if subs.last() == id {
        without_subscriber(subs.drop_last(), id)
    } else {
        without_subscriber(subs.drop_last(), id).push(subs.last())
    }
}

impl Transaction {
    /// Opens a transaction on a tree.
    pub fn open(tree: StateTree) -> (open: Transaction)
        requires
            tree.wf(),
        ensures
            open.wf(),
            open@ == journal::opened(tree@),
    {
        Transaction::on(tree.arena)
    }

    /// The hydrated projection of a node as this transaction has it, before it
    /// is committed.
    pub fn to_hydrated(&self, id: NodeId) -> (value: Option<JsonValue>)
        requires
            self.wf(),
        ensures
            match value {
                Some(found) => self@.live(id) && found@ == node::hydrated(
                    model::subtree_value(self@.nodes, id),
                ),
                None => !self@.live(id),
            },
    {
        proof {
            self.unfold();
        }
        if self.get(id).is_none() {
            return None;
        }
        Some(self.arena.semantic_deep(id).to_hydrated())
    }

    /// The root's id.
    pub fn root_id(&self) -> (id: NodeId)
        requires
            self.wf(),
        ensures
            id == self@.root,
    {
        proof {
            self.unfold();
            self.arena.unfold();
        }
        self.arena.root
    }
}

impl StateTree {
    /// The tree's indices hold each name once.
    pub closed spec fn wf(&self) -> bool {
        self.arena.wf()
    }

    pub(crate) fn from_arena(arena: Arena) -> (tree: StateTree)
        ensures
            tree@ == arena@,
            tree.wf() == arena.wf(),
    {
        StateTree { arena }
    }

    /// A tree holding one root node, `null`, revision `0`.
    ///
    /// The root's id is minted here and never changes.
    pub fn new() -> (tree: StateTree)
        ensures
            tree.wf(),
            tree@ == arena::empty_tree(tree@.root),
            tree@.root != NodeId::none(),
    {
        StateTree { arena: Arena::new() }
    }

    /// The root as a reactive view.
    pub fn root<T>(&self) -> (state: State<T>)
        ensures
            state.id() == self@.root,
    {
        State::new(self.root_id())
    }

    /// The root's id.
    pub fn root_id(&self) -> (id: NodeId)
        ensures
            id == self@.root,
    {
        proof {
            self.arena.unfold();
        }
        self.arena.root
    }

    /// One transaction, applied and committed. `ops` land before `stream_ops`.
    ///
    /// Atomic: on any error every mutation is rolled back and the tree is
    /// exactly as it was. Subscribers are not told here: the notification owes
    /// them.
    pub fn apply(&mut self, ops: &Vec<PatchOp>, stream_ops: &Vec<StreamOp>) -> (done: Result<
        Notify,
        TreeError,
    >)
        requires
            old(self).wf(),
        ensures
            final(self).wf(),
            match done {
                Ok(notify) => exists|s: Tx| #[trigger]
                    batch(old(self)@, ops@, stream_ops@, s, Ok(())) && final(self)@
                        == commit::committed(s) && commit::notifies(s, notify),
                Err(error) => final(self)@ == old(self)@ && exists|s: Tx| #[trigger]
                    batch(old(self)@, ops@, stream_ops@, s, Err(error@)),
            },
    {
        let mut taken = StateTree::new();
        std::mem::swap(&mut taken, self);
        let mut transaction = taken.begin();
        let ghost opened = transaction@;
        let done = transaction.apply(ops, stream_ops);
        let ghost s = transaction@;
        proof {
            journal::before_opened(old(self)@);
            journal::carried(opened, s);
            assert(batch(old(self)@, ops@, stream_ops@, s, transaction::seen(done)));
        }
        match done {
            Ok(_) => {
                let (tree, notify) = transaction.commit();
                *self = tree;
                Ok(notify)
            },
            Err(error) => {
                *self = transaction.rollback();
                Err(error)
            },
        }
    }

    /// A transaction the caller drives, for the one case that needs to inspect
    /// the result before deciding.
    pub fn begin(self) -> (open: Transaction)
        requires
            self.wf(),
        ensures
            open.wf(),
            open@ == journal::opened(self@),
    {
        Transaction::open(self)
    }

    /// Ends the tree: empties the root to `null`, notifies, and refuses every
    /// later transaction. Terminal.
    pub fn close(&mut self) -> (notify: Notify)
        requires
            old(self).wf(),
        ensures
            final(self).wf(),
            exists|s: Tx| #[trigger]
                closing(old(self)@, s) && final(self)@ == commit::committed(s) && commit::notifies(
                    s,
                    notify,
                ),
    {
        let mut taken = StateTree::new();
        std::mem::swap(&mut taken, self);
        let mut transaction = taken.begin();
        transaction.close();
        let ghost s = transaction@;
        assert(closing(old(self)@, s));
        let (tree, notify) = transaction.commit();
        *self = tree;
        notify
    }

    /// A copy of one node's metadata, or `None` if it has been freed.
    pub fn node(&self, id: NodeId) -> (found: Option<Node>)
        ensures
            match found {
                Some(copy) => self@.nodes.contains_key(id) && copy.parent == self@.nodes[id].parent
                    && copy.kind@ == self@.nodes[id].kind && copy.revision
                    == self@.nodes[id].revision && copy.semantic@ == self@.nodes[id].sem
                    && copy.subscribers == self@.nodes[id].subs.len(),
                None => !self@.nodes.contains_key(id),
            },
    {
        proof {
            self.arena.unfold();
        }
        match self.arena.nodes.get(id) {
            Some(data) => Some(
                Node {
                    parent: data.parent,
                    kind: data.kind.copy(),
                    revision: data.revision,
                    semantic: data.semantic.share(),
                    subscribers: data.subscribers.len(),
                },
            ),
            None => None,
        }
    }

    /// The child one object key, store field, or async slot resolves to.
    ///
    /// Arrays and collections are addressed by index and by item key, not by
    /// key.
    pub fn child_by_key(&self, id: NodeId, key: &str) -> (child: Option<NodeId>)
        ensures
            child == (if self@.nodes.contains_key(id) {
                self@.nodes[id].kind.child(key@)
            } else {
                None
            }),
    {
        proof {
            self.arena.unfold();
        }
        match self.arena.nodes.get(id) {
            Some(data) => data.kind.child_by_key(key),
            None => None,
        }
    }

    /// The child ids of an array or a collection, in list order.
    pub fn ordered_children(&self, id: NodeId) -> (list: Vec<NodeId>)
        ensures
            list@ == (if self@.nodes.contains_key(id) {
                self@.nodes[id].kind.ordered()
            } else {
                Seq::empty()
            }),
    {
        proof {
            self.arena.unfold();
        }
        match self.arena.nodes.get(id) {
            Some(data) => data.kind.ordered_children(),
            None => Vec::new(),
        }
    }

    /// The hydrated projection of a subtree, as last committed: stream slots as
    /// arrays, store nodes carrying their id, upload slots as their marker,
    /// async nodes as their wire shape.
    pub fn to_hydrated(&self, id: NodeId) -> (value: Option<JsonValue>)
        ensures
            match value {
                Some(found) => self@.nodes.contains_key(id) && found@ == node::hydrated(
                    self@.nodes[id].sem,
                ),
                None => !self@.nodes.contains_key(id),
            },
    {
        proof {
            self.arena.unfold();
        }
        match self.arena.nodes.get(id) {
            Some(data) => Some(data.semantic.to_hydrated()),
            None => None,
        }
    }

    /// The wire projection of a subtree, as last committed: stream slots back to
    /// their marker, everything else as in the hydrated one.
    pub fn to_wire(&self, id: NodeId) -> (value: Option<JsonValue>)
        ensures
            match value {
                Some(found) => self@.nodes.contains_key(id) && found@ == node::wire(
                    self@.nodes[id].sem,
                ),
                None => !self@.nodes.contains_key(id),
            },
    {
        proof {
            self.arena.unfold();
        }
        match self.arena.nodes.get(id) {
            Some(data) => Some(data.semantic.to_wire()),
            None => None,
        }
    }

    /// Every live store id, each once.
    pub fn store_ids(&self) -> (ids: Vec<StoreId>)
        requires
            self.wf(),
        ensures
            forall|i: int|
                0 <= i < ids@.len() ==> self@.stores.contains_key((#[trigger] ids@[i])@),
            forall|path: Path|
                self@.stores.contains_key(path) ==> exists|i: int|
                    0 <= i < ids@.len() && (#[trigger] ids@[i])@ == path,
            forall|i: int, j: int|
                0 <= i < j < ids@.len() ==> (#[trigger] ids@[i])@ != (#[trigger] ids@[j])@,
    {
        proof {
            self.arena.unfold();
        }
        self.arena.stores.keys()
    }

    /// The node a store id resolves to, or `None` if that store is not mounted.
    pub fn store_node(&self, store_id: &StoreId) -> (id: Option<NodeId>)
        requires
            self.wf(),
        ensures
            id == self@.stores.get(store_id@),
    {
        proof {
            self.arena.unfold();
        }
        self.arena.stores.get(store_id)
    }

    /// How many nodes there are.
    pub fn len(&self) -> (count: usize)
        ensures
            count == self@.nodes.dom().len(),
    {
        proof {
            self.arena.unfold();
        }
        self.arena.nodes.len()
    }

    /// Whether there are no nodes. The root outlives every transaction, so a
    /// tree that holds its root is not empty.
    pub fn is_empty(&self) -> (empty: bool)
        ensures
            empty == (self@.nodes.dom().len() == 0),
    {
        self.len() == 0
    }

    /// Whether `close` has ended this tree.
    pub fn is_closed(&self) -> (closed: bool)
        ensures
            closed == self@.closed,
    {
        proof {
            self.arena.unfold();
        }
        self.arena.closed
    }

    /// Registers one subscriber of a node and hands back its id.
    ///
    /// A node that is gone still mints an id: it is inert, and dropping it finds
    /// nothing to remove.
    pub fn subscribe(&mut self, id: NodeId) -> (subscriber: SubscriberId)
        requires
            old(self).wf(),
        ensures
            final(self).wf(),
            subscriber.raw() == old(self)@.next_subscriber,
            final(self)@ == (Tree {
                nodes: if old(self)@.nodes.contains_key(id) {
                    slots::with_subs(
                        old(self)@.nodes,
                        id,
                        old(self)@.nodes[id].subs.push(subscriber),
                    )
                } else {
                    old(self)@.nodes
                },
                next_subscriber: commit::bumped(old(self)@.next_subscriber),
                ..old(self)@
            }),
    {
        proof {
            self.arena.unfold();
        }
        let raw = self.arena.next_subscriber;
        let subscriber = SubscriberId::from_raw(raw);
        self.arena.next_subscriber = if raw == u64::MAX {
            0
        } else {
            raw + 1
        };
        let mut subscribers: Option<Vec<SubscriberId>> = None;
        if let Some(data) = self.arena.nodes.get(id) {
            let mut list = copy_subscribers(&data.subscribers);
            list.push(subscriber);
            subscribers = Some(list);
        }
        if let Some(list) = subscribers {
            self.arena.nodes.set_subscribers(id, list);
        }
        proof {
            self.arena.unfold();
            assert(self@ =~= (Tree {
                nodes: self@.nodes,
                next_subscriber: commit::bumped(old(self)@.next_subscriber),
                ..old(self)@
            }));
        }
        subscriber
    }

    /// Drops one subscriber of a node. A no-op for an id that is not registered.
    pub fn unsubscribe(&mut self, id: NodeId, subscriber: SubscriberId)
        requires
            old(self).wf(),
        ensures
            final(self).wf(),
            final(self)@ == (Tree {
                nodes: if old(self)@.nodes.contains_key(id) {
                    slots::with_subs(
                        old(self)@.nodes,
                        id,
                        without_subscriber(old(self)@.nodes[id].subs, subscriber),
                    )
                } else {
                    old(self)@.nodes
                },
                ..old(self)@
            }),
    {
        proof {
            self.arena.unfold();
        }
        let mut subscribers: Option<Vec<SubscriberId>> = None;
        if let Some(data) = self.arena.nodes.get(id) {
            subscribers = Some(drop_subscriber(&data.subscribers, subscriber));
        }
        if let Some(list) = subscribers {
            self.arena.nodes.set_subscribers(id, list);
        }
        proof {
            self.arena.unfold();
            assert(self@ =~= (Tree { nodes: self@.nodes, ..old(self)@ }));
        }
    }
}

/// A copy of a list of subscribers.
fn copy_subscribers(list: &Vec<SubscriberId>) -> (copy: Vec<SubscriberId>)
    ensures
        copy@ == list@,
{
    let mut copy: Vec<SubscriberId> = Vec::new();
    let mut i: usize = 0;
    while i < list.len()
        invariant
            i <= list@.len(),
            copy@ == list@.take(i as int),
        decreases list.len() - i,
    {
        copy.push(list[i]);
        assert(copy@ =~= list@.take(i + 1));
        i = i + 1;
    }
    assert(list@.take(i as int) =~= list@);
    copy
}

/// A list of subscribers without one.
fn drop_subscriber(list: &Vec<SubscriberId>, subscriber: SubscriberId) -> (kept: Vec<SubscriberId>)
    ensures
        kept@ == without_subscriber(list@, subscriber),
{
    let mut kept: Vec<SubscriberId> = Vec::new();
    let mut i: usize = 0;
    assert(list@.take(0) =~= Seq::<SubscriberId>::empty());
    while i < list.len()
        invariant
            i <= list@.len(),
            kept@ == without_subscriber(list@.take(i as int), subscriber),
        decreases list.len() - i,
    {
        assert(list@.take(i + 1).drop_last() =~= list@.take(i as int));
        assert(list@.take(i + 1).last() == list@[i as int]);
        if list[i] != subscriber {
            kept.push(list[i]);
        }
        i = i + 1;
    }
    assert(list@.take(i as int) =~= list@);
    kept
}

impl Default for StateTree {
    fn default() -> (tree: StateTree)
        ensures
            tree.wf(),
            tree@ == arena::empty_tree(tree@.root),
    {
        StateTree::new()
    }
}

} // verus!
