//! What a transaction changed, and whom it owes a notification.

use vstd::prelude::*;

use crate::state::node::NodeId;
use crate::state::subscription::SubscriberId;
use crate::state::text::Chars;

verus! {

/// What a subscriber is told.
#[derive(Debug, Clone, Copy, PartialEq, Eq, Structural)]
#[non_exhaustive]
pub struct Change {
    /// The node's revision after the transaction.
    pub revision: u64,
}

/// One keyed edit a collection node took.
///
/// Indices are the ones valid at the moment that edit is applied, in edit order,
/// so a list adapter can replay the edits onto its own rows.
#[derive(Debug, PartialEq)]
#[non_exhaustive]
pub enum CollectionEdit {
    /// A key the list did not hold arrived at `index`.
    Inserted {
        /// The item's identity within the stream.
        item_key: String,
        /// Where it landed.
        index: usize,
        /// The item's node.
        node: NodeId,
    },
    /// A key left the list.
    Removed {
        /// The item's identity within the stream.
        item_key: String,
        /// Where it was.
        index: usize,
    },
    /// A key the list held went to a new position.
    Moved {
        /// The item's identity within the stream.
        item_key: String,
        /// Where it was.
        from: usize,
        /// Where it landed.
        to: usize,
    },
    /// Everything before this edit is gone; what follows rebuilds the list.
    Reset,
}

/// A [`CollectionEdit`] as contracts see it.
pub enum Edit {
    Inserted { key: Chars, index: nat, node: NodeId },
    Removed { key: Chars, index: nat },
    Moved { key: Chars, from: nat, to: nat },
    Reset,
}

impl View for CollectionEdit {
    type V = Edit;

    open spec fn view(&self) -> Edit {
        match self {
            CollectionEdit::Inserted { item_key, index, node } => Edit::Inserted {
                key: item_key@,
                index: *index as nat,
                node: *node,
            },
            CollectionEdit::Removed { item_key, index } => Edit::Removed {
                key: item_key@,
                index: *index as nat,
            },
            CollectionEdit::Moved { item_key, from, to } => Edit::Moved {
                key: item_key@,
                from: *from as nat,
                to: *to as nat,
            },
            CollectionEdit::Reset => Edit::Reset,
        }
    }
}

impl CollectionEdit {
    /// A copy of the edit.
    pub fn copy(&self) -> (edit: CollectionEdit)
        ensures
            edit@ == self@,
    {
        match self {
            CollectionEdit::Inserted { item_key, index, node } => CollectionEdit::Inserted {
                item_key: item_key.clone(),
                index: *index,
                node: *node,
            },
            CollectionEdit::Removed { item_key, index } => CollectionEdit::Removed {
                item_key: item_key.clone(),
                index: *index,
            },
            CollectionEdit::Moved { item_key, from, to } => CollectionEdit::Moved {
                item_key: item_key.clone(),
                from: *from,
                to: *to,
            },
            CollectionEdit::Reset => CollectionEdit::Reset,
        }
    }
}

impl Clone for CollectionEdit {
    fn clone(&self) -> (edit: CollectionEdit)
        ensures
            edit@ == self@,
    {
        self.copy()
    }
}

/// A list of edits as contracts see it.
pub open spec fn edits_view(list: Seq<CollectionEdit>) -> Seq<Edit> {
    Seq::new(list.len(), |i: int| list[i]@)
}

/// The edits one node took, out of the log of all of them.
pub open spec fn edits_of(log: Seq<(NodeId, Edit)>, id: NodeId) -> Seq<Edit>
    decreases log.len(),
{
    if log.len() == 0 {
        Seq::empty()
    } else if log.last().0 == id {
        edits_of(log.drop_last(), id).push(log.last().1)
    } else {
        edits_of(log.drop_last(), id)
    }
}

/// A list of row keys after one edit; nothing where the edit does not fit it.
pub open spec fn replayed_one(keys: Seq<Chars>, edit: Edit) -> Option<Seq<Chars>> {
    match edit {
        Edit::Inserted { key, index, .. } => if index <= keys.len() {
            Some(keys.insert(index as int, key))
        } else {
            None
        },
        Edit::Removed { key, index } => if index < keys.len() && keys[index as int] == key {
            Some(keys.remove(index as int))
        } else {
            None
        },
        Edit::Moved { key, from, to } => if from < keys.len() && keys[from as int] == key && to
            < keys.len() {
            Some(keys.remove(from as int).insert(to as int, key))
        } else {
            None
        },
        Edit::Reset => Some(Seq::empty()),
    }
}

/// A list of row keys after a list of edits, in order.
pub open spec fn replayed(edits: Seq<Edit>, keys: Seq<Chars>) -> Option<Seq<Chars>>
    decreases edits.len(),
{
    if edits.len() == 0 {
        Some(keys)
    } else {
        match replayed(edits.drop_last(), keys) {
            Some(found) => replayed_one(found, edits.last()),
            None => None,
        }
    }
}

/// Replaying one edit more.
pub proof fn replayed_pushed(edits: Seq<Edit>, edit: Edit, keys: Seq<Chars>)
    ensures
        replayed(edits.push(edit), keys) == (match replayed(edits, keys) {
            Some(found) => replayed_one(found, edit),
            None => None,
        }),
{
    assert(edits.push(edit).drop_last() =~= edits);
}

/// The edits of a node in a log with one more.
pub proof fn edits_pushed(log: Seq<(NodeId, Edit)>, at: NodeId, edit: Edit, id: NodeId)
    ensures
        edits_of(log.push((at, edit)), id) == (if at == id {
            edits_of(log, id).push(edit)
        } else {
            edits_of(log, id)
        }),
{
    assert(log.push((at, edit)).drop_last() =~= log);
}

/// What one transaction changed.
#[derive(Debug)]
pub struct ChangeSet {
    changed: Vec<NodeId>,
    edits: Vec<(NodeId, Vec<CollectionEdit>)>,
}

impl ChangeSet {
    /// Every node whose value changed, in the order they are reported.
    pub closed spec fn nodes(&self) -> Seq<NodeId> {
        self.changed@
    }

    /// The edits each collection took.
    pub closed spec fn edits(&self) -> Map<NodeId, Seq<Edit>> {
        Map::new(
            |id: NodeId| exists|i: int| self.holds(i, id),
            |id: NodeId| edits_view(self.edits@[choose|i: int| self.holds(i, id)].1@),
        )
    }

    spec fn holds(&self, i: int, id: NodeId) -> bool {
        0 <= i < self.edits@.len() && self.edits@[i].0 == id
    }

    /// Each node's edits are held once.
    pub closed spec fn wf(&self) -> bool {
        forall|i: int, j: int|
            0 <= i < j < self.edits@.len() ==> (#[trigger] self.edits@[i]).0 != (
            #[trigger] self.edits@[j]).0
    }

    /// A set of the nodes that changed, without edits.
    pub(crate) fn new(changed: Vec<NodeId>) -> (set: ChangeSet)
        ensures
            set.wf(),
            set.nodes() == changed@,
            set.edits() == Map::<NodeId, Seq<Edit>>::empty(),
    {
        let set = ChangeSet { changed, edits: Vec::new() };
        assert(set.edits() =~= Map::<NodeId, Seq<Edit>>::empty());
        set
    }

    /// Files the edits of one more collection.
    pub(crate) fn file(&mut self, id: NodeId, edits: Vec<CollectionEdit>)
        requires
            old(self).wf(),
            !old(self).edits().contains_key(id),
        ensures
            final(self).wf(),
            final(self).nodes() == old(self).nodes(),
            final(self).edits() == old(self).edits().insert(id, edits_view(edits@)),
    {
        let ghost before = *self;
        self.edits.push((id, edits));
        proof {
            let at = before.edits@.len() as int;
            assert(self.wf()) by {
                assert forall|i: int, j: int| 0 <= i < j < self.edits@.len() implies (
                #[trigger] self.edits@[i]).0 != (#[trigger] self.edits@[j]).0 by {
                    assert(self.edits@[i] == before.edits@[i]);
                    if j == at {
                        assert(!before.holds(i, id));
                    } else {
                        assert(self.edits@[j] == before.edits@[j]);
                    }
                }
            }
            let after = before.edits().insert(id, edits_view(edits@));
            assert forall|other: NodeId| self.edits().contains_key(other) == after.contains_key(
                other,
            ) by {
                if self.edits().contains_key(other) {
                    let i = choose|i: int| self.holds(i, other);
                    if i < at {
                        assert(before.holds(i, other));
                    }
                }
                if before.edits().contains_key(other) {
                    let i = choose|i: int| before.holds(i, other);
                    assert(self.holds(i, other));
                }
                assert(self.holds(at, id));
            }
            assert forall|other: NodeId| self.edits().contains_key(other) implies self.edits()[other]
                == after[other] by {
                let i = choose|i: int| self.holds(i, other);
                if other == id {
                    assert(self.holds(at, id));
                    if i != at {
                        assert(self.edits@[i].0 != self.edits@[at].0);
                    }
                } else {
                    assert(before.holds(i, other));
                    let j = choose|j: int| before.holds(j, other);
                    if i < j {
                        assert(self.edits@[i].0 != self.edits@[j].0);
                    }
                    if j < i {
                        assert(self.edits@[j].0 != self.edits@[i].0);
                    }
                }
            }
            assert(self.edits() =~= after);
        }
    }

    /// Every node whose value changed: first the nodes still in the tree,
    /// children before parents, then the nodes the transaction removed, again
    /// children before parents.
    pub fn changed(&self) -> (nodes: &[NodeId])
        ensures
            nodes@ == self.nodes(),
    {
        self.changed.as_slice()
    }

    /// Whether this node changed.
    pub fn contains(&self, id: NodeId) -> (found: bool)
        ensures
            found == self.nodes().contains(id),
    {
        let mut i: usize = 0;
        while i < self.changed.len()
            invariant
                i <= self.changed@.len(),
                forall|j: int| 0 <= j < i ==> self.changed@[j] != id,
            decreases self.changed.len() - i,
        {
            if self.changed[i] == id {
                return true;
            }
            i = i + 1;
        }
        false
    }

    /// Whether nothing changed.
    pub fn is_empty(&self) -> (empty: bool)
        ensures
            empty == (self.nodes().len() == 0),
    {
        self.changed.len() == 0
    }

    /// The keyed edits one collection node took, in application order.
    ///
    /// Empty for every node that is not a collection, for one whose change was
    /// confined to an item's own fields, and for a node that did not change.
    pub fn collection_edits(&self, id: NodeId) -> (edits: &[CollectionEdit])
        requires
            self.wf(),
        ensures
            edits_view(edits@) == (if self.edits().contains_key(id) {
                self.edits()[id]
            } else {
                Seq::empty()
            }),
    {
        let mut i: usize = 0;
        while i < self.edits.len()
            invariant
                self.wf(),
                i <= self.edits@.len(),
                forall|j: int| 0 <= j < i ==> !self.holds(j, id),
            decreases self.edits.len() - i,
        {
            if self.edits[i].0 == id {
                proof {
                    assert(self.holds(i as int, id));
                    let found = choose|j: int| self.holds(j, id);
                    if found > i {
                        assert(self.edits@[i as int].0 != self.edits@[found].0);
                    }
                }
                return self.edits[i].1.as_slice();
            }
            i = i + 1;
        }
        assert(edits_view(Seq::empty()) =~= Seq::empty());
        &[]
    }
}

/// One owed notification: whose subscription it is, and what it will be told.
#[derive(Debug, Clone, Copy)]
pub struct Owed {
    /// The node that changed.
    pub node: NodeId,
    /// What its subscriber is told.
    pub change: Change,
    /// The subscriber.
    pub subscriber: SubscriberId,
}

/// The notifications a committed transaction owes, and the change set that
/// produced them.
#[derive(Debug)]
#[must_use]
pub struct Notify {
    changes: ChangeSet,
    owed: Vec<Owed>,
}

impl Notify {
    /// What the transaction changed.
    pub closed spec fn change_set(&self) -> ChangeSet {
        self.changes
    }

    /// Who is owed a call, in order.
    pub closed spec fn debts(&self) -> Seq<Owed> {
        self.owed@
    }

    /// Puts the two together.
    pub(crate) fn new(changes: ChangeSet, owed: Vec<Owed>) -> (notify: Notify)
        ensures
            notify.change_set() == changes,
            notify.debts() == owed@,
    {
        Notify { changes, owed }
    }

    /// What the transaction changed. Readable before the subscribers are told.
    pub fn changes(&self) -> (set: &ChangeSet)
        ensures
            *set == self.change_set(),
    {
        &self.changes
    }

    /// Whom the transaction owes a call, each exactly once, in order.
    pub fn owed(&self) -> (owed: &Vec<Owed>)
        ensures
            owed@ == self.debts(),
    {
        &self.owed
    }
}

} // verus!
