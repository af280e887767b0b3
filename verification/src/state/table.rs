//! Small indices from a name to a node.

use vstd::prelude::*;

use crate::state::node::NodeId;
use crate::state::text::Chars;
use crate::state::wire::{Path, StoreId};

verus! {

/// What a table can be keyed by: something with a name that decides equality.
pub trait Label: Sized {
    /// The name, as contracts see it.
    type Name;

    /// The name.
    spec fn label(&self) -> Self::Name;

    /// Whether two keys have the same name.
    fn same_label(&self, other: &Self) -> (same: bool)
        ensures
            same == (self.label() == other.label()),
    ;

    /// A key with the same name.
    fn copy_label(&self) -> (copy: Self)
        ensures
            copy.label() == self.label(),
    ;
}

impl Label for StoreId {
    type Name = Path;

    open spec fn label(&self) -> Path {
        self@
    }

    fn same_label(&self, other: &StoreId) -> (same: bool) {
        self.same(other)
    }

    fn copy_label(&self) -> (copy: StoreId) {
        self.copy()
    }
}

/// The key a collection is indexed by: its owning store plus its declared name.
#[derive(Debug)]
pub struct StreamKey {
    /// The owning store.
    pub owner: StoreId,
    /// The declared stream name.
    pub name: String,
}

impl Label for StreamKey {
    type Name = (Path, Chars);

    open spec fn label(&self) -> (Path, Chars) {
        (self.owner@, self.name@)
    }

    fn same_label(&self, other: &StreamKey) -> (same: bool) {
        self.owner.same(&other.owner) && self.name == other.name
    }

    fn copy_label(&self) -> (copy: StreamKey) {
        StreamKey { owner: self.owner.copy(), name: self.name.clone() }
    }
}

/// The key a row is carried over by: its collection plus its item key.
#[derive(Debug)]
pub struct RowKey {
    /// The collection the row left.
    pub collection: NodeId,
    /// The row's identity within it.
    pub item_key: String,
}

impl Label for RowKey {
    type Name = (NodeId, Chars);

    open spec fn label(&self) -> (NodeId, Chars) {
        (self.collection, self.item_key@)
    }

    fn same_label(&self, other: &RowKey) -> (same: bool) {
        self.collection == other.collection && self.item_key == other.item_key
    }

    fn copy_label(&self) -> (copy: RowKey) {
        RowKey { collection: self.collection, item_key: self.item_key.clone() }
    }
}

/// An index from names to nodes.
#[derive(Debug)]
pub struct Table<K> {
    rows: Vec<(K, NodeId)>,
}

impl<K: Label> View for Table<K> {
    type V = Map<K::Name, NodeId>;

    closed spec fn view(&self) -> Map<K::Name, NodeId> {
        Map::new(
            |name: K::Name| exists|i: int| self.names(i, name),
            |name: K::Name| self.rows@[choose|i: int| self.names(i, name)].1,
        )
    }
}

impl<K: Label> Table<K> {
    /// Whether row `i` is the one for `name`.
    spec fn names(&self, i: int, name: K::Name) -> bool {
        0 <= i < self.rows@.len() && self.rows@[i].0.label() == name
    }

    /// Each name has one row.
    pub closed spec fn wf(&self) -> bool {
        forall|i: int, j: int|
            0 <= i < j < self.rows@.len() ==> (#[trigger] self.rows@[i]).0.label() != (
            #[trigger] self.rows@[j]).0.label()
    }

    proof fn row_is_entry(&self, i: int)
        requires
            self.wf(),
            0 <= i < self.rows@.len(),
        ensures
            self@.contains_key(self.rows@[i].0.label()),
            self@[self.rows@[i].0.label()] == self.rows@[i].1,
    {
        let name = self.rows@[i].0.label();
        assert(self.names(i, name));
        let found = choose|j: int| self.names(j, name);
        if found < i {
            assert(self.rows@[found].0.label() != self.rows@[i].0.label());
        }
        if i < found {
            assert(self.rows@[i].0.label() != self.rows@[found].0.label());
        }
    }

    /// The empty table.
    pub fn new() -> (table: Table<K>)
        ensures
            table.wf(),
            table@ == Map::<K::Name, NodeId>::empty(),
    {
        let table = Table { rows: Vec::new() };
        assert(table@ =~= Map::<K::Name, NodeId>::empty());
        table
    }

    fn row_of(&self, key: &K) -> (at: usize)
        requires
            self.wf(),
        ensures
            at <= self.rows@.len(),
            at < self.rows@.len() ==> self.names(at as int, key.label()),
            at == self.rows@.len() ==> !self@.contains_key(key.label()),
    {
        let mut i: usize = 0;
        while i < self.rows.len()
            invariant
                i <= self.rows@.len(),
                forall|j: int| 0 <= j < i ==> !self.names(j, key.label()),
            decreases self.rows.len() - i,
        {
            if self.rows[i].0.same_label(key) {
                return i;
            }
            i = i + 1;
        }
        i
    }

    /// The node filed under a name.
    pub fn get(&self, key: &K) -> (node: Option<NodeId>)
        requires
            self.wf(),
        ensures
            node == self@.get(key.label()),
    {
        let at: usize = self.row_of(key);
        if at < self.rows.len() {
            proof {
                self.row_is_entry(at as int);
            }
            Some(self.rows[at].1)
        } else {
            None
        }
    }

    /// Files a node under a name, handing back the one it displaced.
    pub fn insert(&mut self, key: K, node: NodeId) -> (displaced: Option<NodeId>)
        requires
            old(self).wf(),
        ensures
            final(self).wf(),
            final(self)@ == old(self)@.insert(key.label(), node),
            displaced == old(self)@.get(key.label()),
    {
        let ghost before = *self;
        let displaced = self.get(&key);
        let at: usize = self.row_of(&key);
        let ghost name = key.label();
        if at < self.rows.len() {
            self.rows.set(at, (key, node));
        } else {
            self.rows.push((key, node));
        }
        proof {
            assert(self.wf()) by {
                assert forall|i: int, j: int| 0 <= i < j < self.rows@.len() implies (
                #[trigger] self.rows@[i]).0.label() != (#[trigger] self.rows@[j]).0.label() by {
                    if at < before.rows@.len() {
                        assert(self.rows@[i].0.label() == before.rows@[i].0.label());
                        assert(self.rows@[j].0.label() == before.rows@[j].0.label());
                        assert(before.rows@[i].0.label() != before.rows@[j].0.label());
                    } else if j == before.rows@.len() {
                        before.row_is_entry(i);
                        assert(self.rows@[i] == before.rows@[i]);
                    } else {
                        assert(before.rows@[i].0.label() != before.rows@[j].0.label());
                    }
                }
            }
            let after = before@.insert(name, node);
            assert forall|other: K::Name| self@.contains_key(other) == after.contains_key(other) by {
                if self@.contains_key(other) {
                    let i = choose|i: int| self.names(i, other);
                    if i < before.rows@.len() {
                        assert(before.names(i, other));
                    }
                }
                if before@.contains_key(other) {
                    let i = choose|i: int| before.names(i, other);
                    assert(self.names(i, other));
                }
                if other == name {
                    assert(self.names(at as int, name));
                }
            }
            assert forall|other: K::Name| self@.contains_key(other) implies self@[other]
                == after[other] by {
                let i = choose|i: int| self.names(i, other);
                self.row_is_entry(i);
                if other != name {
                    assert(before.rows@[i] == self.rows@[i]);
                    before.row_is_entry(i);
                } else {
                    self.row_is_entry(at as int);
                }
            }
            assert(self@ =~= after);
        }
        displaced
    }

    /// Drops a name, handing back its node.
    pub fn remove(&mut self, key: &K) -> (removed: Option<NodeId>)
        requires
            old(self).wf(),
        ensures
            final(self).wf(),
            final(self)@ == old(self)@.remove(key.label()),
            removed == old(self)@.get(key.label()),
    {
        let ghost before = *self;
        let removed = self.get(key);
        let at: usize = self.row_of(key);
        let ghost name = key.label();
        if at < self.rows.len() {
            let _ = self.rows.remove(at);
            proof {
                assert(self.wf()) by {
                    assert forall|i: int, j: int| 0 <= i < j < self.rows@.len() implies (
                    #[trigger] self.rows@[i]).0.label() != (#[trigger] self.rows@[j]).0.label() by {
                        let a = if i < at { i } else { i + 1 };
                        let b = if j < at { j } else { j + 1 };
                        assert(self.rows@[i] == before.rows@[a]);
                        assert(self.rows@[j] == before.rows@[b]);
                    }
                }
                let after = before@.remove(name);
                assert forall|other: K::Name| self@.contains_key(other) == after.contains_key(
                    other,
                ) by {
                    if self@.contains_key(other) {
                        let i = choose|i: int| self.names(i, other);
                        let a = if i < at { i } else { i + 1 };
                        assert(self.rows@[i] == before.rows@[a]);
                        assert(before.names(a, other));
                        before.row_is_entry(a);
                        before.row_is_entry(at as int);
                        assert(before.rows@[a].0.label() != before.rows@[at as int].0.label());
                    }
                    if before@.contains_key(other) && other != name {
                        let a = choose|i: int| before.names(i, other);
                        let i = if a < at { a } else { a - 1 };
                        assert(self.rows@[i] == before.rows@[a]);
                        assert(self.names(i, other));
                    }
                }
                assert forall|other: K::Name| self@.contains_key(other) implies self@[other]
                    == after[other] by {
                    let i = choose|i: int| self.names(i, other);
                    let a = if i < at { i } else { i + 1 };
                    self.row_is_entry(i);
                    assert(self.rows@[i] == before.rows@[a]);
                    before.row_is_entry(a);
                }
                assert(self@ =~= after);
            }
        } else {
            assert(before@.remove(name) =~= before@);
        }
        removed
    }

    /// Drops every name that is filed with `node`.
    pub fn drop_node(&mut self, node: NodeId)
        requires
            old(self).wf(),
        ensures
            final(self).wf(),
            final(self)@ == without_node(old(self)@, node),
    {
        let mut kept: Table<K> = Table { rows: Vec::new() };
        let ghost before = *self;
        let ghost mut from: Seq<int> = Seq::empty();
        while self.rows.len() > 0
            invariant
                before.wf(),
                self.rows@ == before.rows@.take(self.rows@.len() as int),
                self.rows@.len() <= before.rows@.len(),
                from.len() == kept.rows@.len(),
                forall|i: int|
                    0 <= i < from.len() ==> self.rows@.len() <= #[trigger] from[i]
                        < before.rows@.len() && kept.rows@[i] == before.rows@[from[i]]
                        && before.rows@[from[i]].1 != node,
                forall|i: int, j: int|
                    0 <= i < j < from.len() ==> #[trigger] from[i] > #[trigger] from[j],
                forall|a: int|
                    self.rows@.len() <= a < before.rows@.len() && (
                    #[trigger] before.rows@[a]).1 != node ==> exists|i: int|
                        0 <= i < from.len() && from[i] == a,
            decreases self.rows.len(),
        {
            let ghost last = self.rows@.len() - 1;
            let ghost earlier = from;
            match self.rows.pop() {
                Some(row) => {
                    assert(row == before.rows@[last]);
                    assert(self.rows@ =~= before.rows@.take(last));
                    if row.1 != node {
                        kept.rows.push(row);
                        proof {
                            from = from.push(last);
                        }
                    }
                    proof {
                        assert forall|a: int| self.rows@.len() <= a < before.rows@.len() && (
                        #[trigger] before.rows@[a]).1 != node implies exists|i: int|
                            0 <= i < from.len() && from[i] == a by {
                            if a == last {
                                assert(from[from.len() - 1] == a);
                            } else {
                                let i = choose|i: int| 0 <= i < earlier.len() && earlier[i] == a;
                                assert(from[i] == a);
                            }
                        }
                    }
                },
                None => {},
            }
        }
        proof {
            assert(kept.wf()) by {
                assert forall|i: int, j: int| 0 <= i < j < kept.rows@.len() implies (
                #[trigger] kept.rows@[i]).0.label() != (#[trigger] kept.rows@[j]).0.label() by {
                    assert(from[i] > from[j]);
                    assert(before.rows@[from[j]].0.label() != before.rows@[from[i]].0.label());
                }
            }
            let after = without_node(before@, node);
            assert forall|name: K::Name| kept@.contains_key(name) == after.contains_key(name) by {
                if kept@.contains_key(name) {
                    let i = choose|i: int| kept.names(i, name);
                    assert(0 <= from[i]);
                    before.row_is_entry(from[i]);
                }
                if after.contains_key(name) {
                    let a = choose|i: int| before.names(i, name);
                    before.row_is_entry(a);
                    assert(before.rows@[a].1 != node);
                    let i = choose|i: int| 0 <= i < from.len() && from[i] == a;
                    assert(kept.names(i, name));
                }
            }
            assert forall|name: K::Name| kept@.contains_key(name) implies kept@[name]
                == after[name] by {
                let i = choose|i: int| kept.names(i, name);
                kept.row_is_entry(i);
                assert(0 <= from[i]);
                before.row_is_entry(from[i]);
            }
            assert(kept@ =~= after);
        }
        self.rows = kept.rows;
        assert(*self == kept);
    }

    /// The names of the table, as keys.
    pub fn keys(&self) -> (keys: Vec<K>)
        requires
            self.wf(),
        ensures
            forall|i: int|
                0 <= i < keys@.len() ==> self@.contains_key((#[trigger] keys@[i]).label()),
            forall|name: K::Name|
                self@.contains_key(name) ==> exists|i: int|
                    0 <= i < keys@.len() && (#[trigger] keys@[i]).label() == name,
            forall|i: int, j: int|
                0 <= i < j < keys@.len() ==> (#[trigger] keys@[i]).label() != (
                #[trigger] keys@[j]).label(),
    {
        let mut keys: Vec<K> = Vec::new();
        let mut i: usize = 0;
        while i < self.rows.len()
            invariant
                i <= self.rows@.len(),
                keys@.len() == i,
                forall|j: int|
                    0 <= j < i ==> (#[trigger] keys@[j]).label() == self.rows@[j].0.label(),
            decreases self.rows.len() - i,
        {
            keys.push(self.rows[i].0.copy_label());
            i = i + 1;
        }
        proof {
            assert forall|j: int| 0 <= j < keys@.len() implies self@.contains_key(
                (#[trigger] keys@[j]).label(),
            ) by {
                self.row_is_entry(j);
            }
            assert forall|name: K::Name| self@.contains_key(name) implies exists|j: int|
                0 <= j < keys@.len() && (#[trigger] keys@[j]).label() == name by {
                let j = choose|j: int| self.names(j, name);
                assert(keys@[j].label() == name);
            }
            assert forall|a: int, b: int| 0 <= a < b < keys@.len() implies (
            #[trigger] keys@[a]).label() != (#[trigger] keys@[b]).label() by {
                assert(self.rows@[a].0.label() != self.rows@[b].0.label());
            }
        }
        keys
    }
}

/// A set of names.
#[derive(Debug)]
pub struct Labels<K> {
    rows: Vec<K>,
}

impl<K: Label> View for Labels<K> {
    type V = Set<K::Name>;

    closed spec fn view(&self) -> Set<K::Name> {
        Set::new(|name: K::Name| exists|i: int| self.names(i, name))
    }
}

impl<K: Label> Labels<K> {
    spec fn names(&self, i: int, name: K::Name) -> bool {
        0 <= i < self.rows@.len() && self.rows@[i].label() == name
    }

    /// The empty set.
    pub fn new() -> (set: Labels<K>)
        ensures
            set@ == Set::<K::Name>::empty(),
    {
        let set = Labels { rows: Vec::new() };
        assert(set@ =~= Set::<K::Name>::empty());
        set
    }

    /// Whether a name is in the set.
    pub fn contains(&self, key: &K) -> (found: bool)
        ensures
            found == self@.contains(key.label()),
    {
        let mut i: usize = 0;
        while i < self.rows.len()
            invariant
                i <= self.rows@.len(),
                forall|j: int| 0 <= j < i ==> !self.names(j, key.label()),
            decreases self.rows.len() - i,
        {
            if self.rows[i].same_label(key) {
                assert(self.names(i as int, key.label()));
                return true;
            }
            i = i + 1;
        }
        false
    }

    /// Adds a name.
    pub fn insert(&mut self, key: K)
        ensures
            final(self)@ == old(self)@.insert(key.label()),
    {
        let ghost before = *self;
        let ghost name = key.label();
        self.rows.push(key);
        proof {
            assert forall|other: K::Name| self@.contains(other) == before@.insert(name).contains(
                other,
            ) by {
                if self@.contains(other) {
                    let i = choose|i: int| self.names(i, other);
                    if i < before.rows@.len() {
                        assert(before.names(i, other));
                    }
                }
                if before@.contains(other) {
                    let i = choose|i: int| before.names(i, other);
                    assert(self.names(i, other));
                }
                assert(self.names(before.rows@.len() as int, name));
            }
            assert(self@ =~= before@.insert(name));
        }
    }
}

/// An index without the names that are filed with `node`.
pub open spec fn without_node<N>(index: Map<N, NodeId>, node: NodeId) -> Map<N, NodeId> {
    Map::new(|name: N| index.contains_key(name) && index[name] != node, |name: N| index[name])
}

} // verus!
