//! The tree's storage and its two indices.

use vstd::prelude::*;

use crate::state::journal::Tree;
use crate::state::model;
use crate::state::node::{Kind, NodeId, NodeKind, Sem, SemanticValue};
use crate::state::slots::{Entry, NodeData, Slots};
use crate::state::table::{StreamKey, Table};
use crate::state::wire::StoreId;

verus! {

/// The whole retained tree of one mounted root.
pub struct Arena {
    pub(crate) nodes: Slots,
    pub(crate) root: NodeId,
    /// Which node each store id resolves to.
    pub(crate) stores: Table<StoreId>,
    /// Which node each stream resolves to.
    pub(crate) streams: Table<StreamKey>,
    /// Whether the tree has ended. Terminal.
    pub(crate) closed: bool,
    pub(crate) next_subscriber: u64,
}

impl View for Arena {
    type V = Tree;

    closed spec fn view(&self) -> Tree {
        Tree {
            nodes: self.nodes@,
            root: self.root,
            stores: self.stores@,
            streams: self.streams@,
            closed: self.closed,
            next_subscriber: self.next_subscriber,
        }
    }
}

/// A tree holding one node, `null`, revision `0`.
pub open spec fn empty_tree(root: NodeId) -> Tree {
    Tree {
        nodes: Map::empty().insert(
            root,
            Entry {
                parent: None,
                kind: Kind::Null,
                revision: 0,
                sem: Sem::Null,
                subs: Seq::empty(),
            },
        ),
        root,
        stores: Map::empty(),
        streams: Map::empty(),
        closed: false,
        next_subscriber: 0,
    }
}

impl Arena {
    /// The indices hold each name once.
    pub closed spec fn wf(&self) -> bool {
        &&& self.stores.wf()
        &&& self.streams.wf()
    }

    pub(crate) proof fn unfold(&self)
        ensures
            self.wf() == (self.stores.wf() && self.streams.wf()),
            self@.nodes == self.nodes@,
            self@.root == self.root,
            self@.stores == self.stores@,
            self@.streams == self.streams@,
            self@.closed == self.closed,
            self@.next_subscriber == self.next_subscriber,
    {
    }

    /// An arena holding one root node, `null`, revision `0`.
    pub fn new() -> (arena: Arena)
        ensures
            arena.wf(),
            arena@ == empty_tree(arena@.root),
            arena@.root != NodeId::none(),
    {
        let mut nodes = Slots::new();
        let root = nodes.insert(
            NodeData {
                parent: None,
                kind: NodeKind::Null,
                revision: 0,
                semantic: SemanticValue::null(),
                subscribers: Vec::new(),
            },
        );
        let arena = Arena {
            nodes,
            root,
            stores: Table::new(),
            streams: Table::new(),
            closed: false,
            next_subscriber: 0,
        };
        assert(arena@ =~= empty_tree(root));
        arena
    }

    /// One node's value, computed from its children's cached ones.
    pub(crate) fn semantic_shallow(&self, id: NodeId) -> (value: SemanticValue)
        ensures
            value@ == model::shallow_value(self@.nodes, id),
    {
        match self.nodes.get(id) {
            None => SemanticValue::null(),
            Some(data) => {
                let list = data.kind.children();
                let mut values: Vec<SemanticValue> = Vec::new();
                let mut i: usize = 0;
                while i < list.len()
                    invariant
                        i <= list@.len(),
                        values@.len() == i,
                        forall|j: int|
                            0 <= j < i ==> (#[trigger] values@[j])@ == model::cached(
                                self@.nodes,
                                list@,
                            )[j],
                    decreases list.len() - i,
                {
                    match self.nodes.get(list[i]) {
                        Some(child) => values.push(child.semantic.share()),
                        None => values.push(SemanticValue::null()),
                    }
                    i = i + 1;
                }
                assert(crate::state::node::sems(values@) =~= model::cached(self@.nodes, list@));
                SemanticValue::assemble(&data.kind, &values)
            },
        }
    }

    /// One subtree's value, computed from the kinds alone, down to `levels`
    /// levels.
    pub(crate) fn deep(&self, id: NodeId, levels: usize) -> (value: SemanticValue)
        ensures
            value@ == model::deep_value(self@.nodes, id, levels as nat),
        decreases levels,
    {
        if levels == 0 {
            return SemanticValue::null();
        }
        match self.nodes.get(id) {
            None => SemanticValue::null(),
            Some(data) => {
                let list = data.kind.children();
                let mut values: Vec<SemanticValue> = Vec::new();
                let mut i: usize = 0;
                while i < list.len()
                    invariant
                        0 < levels,
                        i <= list@.len(),
                        values@.len() == i,
                        forall|j: int|
                            0 <= j < i ==> (#[trigger] values@[j])@ == model::deep_value(
                                self@.nodes,
                                list@[j],
                                (levels - 1) as nat,
                            ),
                    decreases list.len() - i,
                {
                    values.push(self.deep(list[i], levels - 1));
                    i = i + 1;
                }
                assert(crate::state::node::sems(values@) =~= model::deep_values(
                    self@.nodes,
                    list@,
                    (levels - 1) as nat,
                ));
                SemanticValue::assemble(&data.kind, &values)
            },
        }
    }

    /// One subtree's value, computed from the kinds alone.
    pub fn semantic_deep(&self, id: NodeId) -> (value: SemanticValue)
        ensures
            value@ == model::subtree_value(self@.nodes, id),
    {
        self.deep(id, model::MAX_WALK)
    }
}

} // verus!
