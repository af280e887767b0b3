//! Sets and maps keyed by node, over the standard hash tables.

use std::collections::{HashMap, HashSet};

use vstd::prelude::*;

use crate::state::node::{NodeId, Sem, SemanticValue};

verus! {

/// A set of nodes.
#[derive(Debug)]
pub struct NodeSet {
    raw: HashSet<u64>,
}

impl View for NodeSet {
    type V = Set<NodeId>;

    closed spec fn view(&self) -> Set<NodeId> {
        Set::new(|id: NodeId| self.raw@.contains(id.raw))
    }
}

impl NodeSet {
    /// The empty set.
    pub fn new() -> (set: NodeSet)
        ensures
            set@ == Set::<NodeId>::empty(),
    {
        let set = NodeSet { raw: HashSet::new() };
        assert(set@ =~= Set::<NodeId>::empty());
        set
    }

    /// Whether a node is in the set.
    pub fn contains(&self, id: NodeId) -> (found: bool)
        ensures
            found == self@.contains(id),
    {
        broadcast use vstd::std_specs::hash::group_hash_axioms;

        self.raw.contains(&id.raw)
    }

    /// Adds a node; `false` when it was there already.
    pub fn insert(&mut self, id: NodeId) -> (added: bool)
        ensures
            final(self)@ == old(self)@.insert(id),
            added == !old(self)@.contains(id),
    {
        broadcast use vstd::std_specs::hash::group_hash_axioms;

        let added = self.raw.insert(id.raw);
        assert(self@ =~= old(self)@.insert(id)) by {
            assert forall|other: NodeId| self@.contains(other) == old(self)@.insert(id).contains(
                other,
            ) by {
                if other.raw == id.raw {
                    assert(other == id);
                }
            }
        }
        added
    }

    /// Drops a node.
    pub fn remove(&mut self, id: NodeId)
        ensures
            final(self)@ == old(self)@.remove(id),
    {
        broadcast use vstd::std_specs::hash::group_hash_axioms;

        let _ = self.raw.remove(&id.raw);
        assert(self@ =~= old(self)@.remove(id)) by {
            assert forall|other: NodeId| self@.contains(other) == old(self)@.remove(id).contains(
                other,
            ) by {
                if other.raw == id.raw {
                    assert(other == id);
                }
            }
        }
    }

    /// The nodes of a list.
    pub fn of(list: &Vec<NodeId>) -> (set: NodeSet)
        ensures
            set@ == list@.to_set(),
    {
        let mut set = NodeSet::new();
        let mut i: usize = 0;
        while i < list.len()
            invariant
                i <= list@.len(),
                set@ == list@.take(i as int).to_set(),
            decreases list.len() - i,
        {
            let _ = set.insert(list[i]);
            assert(list@.take(i + 1) =~= list@.take(i as int).push(list@[i as int]));
            assert(set@ =~= list@.take(i + 1).to_set()) by {
                let shorter = list@.take(i as int);
                let longer = list@.take(i + 1);
                assert forall|id: NodeId| set@.contains(id) == longer.contains(id) by {
                    if longer.contains(id) {
                        let j = choose|j: int| 0 <= j < longer.len() && longer[j] == id;
                        if j < i {
                            assert(shorter[j] == id);
                        }
                    }
                    if shorter.contains(id) {
                        let j = choose|j: int| 0 <= j < shorter.len() && shorter[j] == id;
                        assert(longer[j] == id);
                    }
                    assert(longer[i as int] == list@[i as int]);
                }
            }
            i = i + 1;
        }
        assert(list@.take(i as int) =~= list@);
        assert(set@ =~= list@.to_set());
        set
    }
}

/// What each dirty node's value was when it was first reached.
#[derive(Debug)]
pub struct NodeValues {
    raw: HashMap<u64, SemanticValue>,
}

impl View for NodeValues {
    type V = Map<NodeId, Sem>;

    closed spec fn view(&self) -> Map<NodeId, Sem> {
        Map::new(|id: NodeId| self.raw@.contains_key(id.raw), |id: NodeId| self.raw@[id.raw]@)
    }
}

impl NodeValues {
    /// The empty map.
    pub fn new() -> (map: NodeValues)
        ensures
            map@ == Map::<NodeId, Sem>::empty(),
    {
        let map = NodeValues { raw: HashMap::new() };
        assert(map@ =~= Map::<NodeId, Sem>::empty());
        map
    }

    /// The value filed for a node.
    pub fn get(&self, id: NodeId) -> (value: Option<&SemanticValue>)
        ensures
            match value {
                Some(found) => self@.contains_key(id) && self@[id] == found@,
                None => !self@.contains_key(id),
            },
    {
        broadcast use vstd::std_specs::hash::group_hash_axioms;

        self.raw.get(&id.raw)
    }

    /// Files a value for a node.
    pub fn insert(&mut self, id: NodeId, value: SemanticValue)
        ensures
            final(self)@ == old(self)@.insert(id, value@),
    {
        broadcast use vstd::std_specs::hash::group_hash_axioms;

        let _ = self.raw.insert(id.raw, value);
        assert(self@ =~= old(self)@.insert(id, value@)) by {
            assert forall|other: NodeId| self@.contains_key(other) == old(self)@.insert(
                id,
                value@,
            ).contains_key(other) by {
                if other.raw == id.raw {
                    assert(other == id);
                }
            }
        }
    }
}

} // verus!
