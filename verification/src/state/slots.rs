//! The node storage.

use slotmap::{DefaultKey, Key, KeyData, SlotMap};
use vstd::prelude::*;

use crate::state::node;
use crate::state::node::{Kind, NodeId, NodeKind, Sem, SemanticValue};
use crate::state::subscription::SubscriberId;

verus! {

/// How many nodes the storage can hold.
pub const MAX_NODES: usize = 4_294_967_294;

/// One retained node, as the storage holds it.
#[derive(Debug)]
pub struct NodeData {
    /// `None` for a root.
    pub parent: Option<NodeId>,
    /// What the node is, and where its children live.
    pub kind: NodeKind,
    /// Bumped by a transaction that changed the node's value.
    pub revision: u64,
    /// The node's value, as of the last commit that settled it.
    pub semantic: SemanticValue,
    /// Who is told when the value changes, in order of registration.
    pub subscribers: Vec<SubscriberId>,
}

/// A node as contracts see it.
#[verifier::ext_equal]
pub struct Entry {
    pub parent: Option<NodeId>,
    pub kind: Kind,
    pub revision: u64,
    pub sem: Sem,
    pub subs: Seq<SubscriberId>,
}

impl View for NodeData {
    type V = Entry;

    open spec fn view(&self) -> Entry {
        Entry {
            parent: self.parent,
            kind: self.kind@,
            revision: self.revision,
            sem: self.semantic@,
            subs: self.subscribers@,
        }
    }
}

/// The node storage: a `slotmap::SlotMap`, its keys handed out as [`NodeId`]s.
#[verifier::external_body]
pub struct Slots {
    map: SlotMap<DefaultKey, NodeData>,
}

/// What a storage holds.
pub uninterp spec fn contents(slots: Slots) -> Map<NodeId, NodeData>;

impl View for Slots {
    type V = Map<NodeId, Entry>;

    open spec fn view(&self) -> Map<NodeId, Entry> {
        contents(*self).map_values(|data: NodeData| data@)
    }
}

impl Slots {
    /// Calls `SlotMap::new`: the map it makes holds nothing.
    #[verifier::external_body]
    fn raw_new() -> (made: Slots)
        ensures
            contents(made).dom() == Set::<NodeId>::empty(),
    {
        Slots { map: SlotMap::new() }
    }

    /// Calls `SlotMap::len`: how many values the map holds.
    #[verifier::external_body]
    fn raw_len(&self) -> (count: usize)
        ensures
            count == contents(*self).dom().len(),
    {
        self.map.len()
    }

    /// Calls `SlotMap::get`: the value held under a key, if any. A key is
    /// spelled by the number that `KeyData::as_ffi` gave of it.
    #[verifier::external_body]
    fn raw_get(&self, id: NodeId) -> (data: Option<&NodeData>)
        requires
            node::is_slot_key(id.raw),
        ensures
            match data {
                Some(found) => contents(*self).contains_key(id) && *found == contents(*self)[id],
                None => !contents(*self).contains_key(id),
            },
    {
        self.map.get(DefaultKey::from(KeyData::from_ffi(id.raw)))
    }

    /// Calls `SlotMap::get_mut`: the value held under a key, if any, to be
    /// changed in place. Nothing else changes.
    #[verifier::external_body]
    fn raw_get_mut(&mut self, id: NodeId) -> (data: Option<&mut NodeData>)
        requires
            node::is_slot_key(id.raw),
        ensures
            match data {
                Some(found) => contents(*old(self)).contains_key(id) && *found == contents(
                    *old(self),
                )[id] && contents(*final(self)) == contents(*old(self)).insert(id, *final(found)),
                None => !contents(*old(self)).contains_key(id) && contents(*final(self))
                    == contents(*old(self)),
            },
    {
        self.map.get_mut(DefaultKey::from(KeyData::from_ffi(id.raw)))
    }

    /// Calls `SlotMap::insert`: the value is held under a key that held none,
    /// and that is not the null key. The map panics when it is full, at
    /// `u32::MAX - 1` values. Of keys that held a value once nothing is said: a
    /// slot's version wraps around in the end, and then such a key comes back.
    #[verifier::external_body]
    fn raw_insert(&mut self, data: NodeData) -> (raw: u64)
        requires
            contents(*old(self)).dom().len() < MAX_NODES,
        ensures
            node::is_slot_key(raw),
            raw != node::NULL_KEY,
            forall|id: NodeId| id.raw == raw ==> !contents(*old(self)).contains_key(id),
            forall|id: NodeId|
                id.raw == raw ==> #[trigger] contents(*old(self)).insert(id, data) == contents(
                    *final(self),
                ),
    {
        self.map.insert(data).data().as_ffi()
    }

    /// Calls `SlotMap::remove`: the value held under a key is handed back, and
    /// the key holds nothing afterwards.
    #[verifier::external_body]
    fn raw_remove(&mut self, id: NodeId) -> (data: Option<NodeData>)
        requires
            node::is_slot_key(id.raw),
        ensures
            contents(*final(self)) == contents(*old(self)).remove(id),
            match data {
                Some(found) => contents(*old(self)).contains_key(id) && found == contents(
                    *old(self),
                )[id],
                None => !contents(*old(self)).contains_key(id),
            },
    {
        self.map.remove(DefaultKey::from(KeyData::from_ffi(id.raw)))
    }

    /// A storage without nodes.
    pub fn new() -> (slots: Slots)
        ensures
            slots@ == Map::<NodeId, Entry>::empty(),
    {
        let slots = Slots::raw_new();
        assert(slots@ =~= Map::<NodeId, Entry>::empty());
        slots
    }

    /// How many nodes there are.
    pub fn len(&self) -> (count: usize)
        ensures
            count == self@.dom().len(),
    {
        let count = self.raw_len();
        assert(self@.dom() =~= contents(*self).dom());
        count
    }

    /// One node.
    pub fn get(&self, id: NodeId) -> (data: Option<&NodeData>)
        ensures
            match data {
                Some(found) => self@.contains_key(id) && found@ == self@[id],
                None => !self@.contains_key(id),
            },
    {
        proof {
            use_type_invariant(id);
            node::minted_key(id);
        }
        self.raw_get(id)
    }

    /// Whether a node is there.
    pub fn contains(&self, id: NodeId) -> (found: bool)
        ensures
            found == self@.contains_key(id),
    {
        self.get(id).is_some()
    }

    /// Adds a node under a fresh id.
    pub fn insert(&mut self, data: NodeData) -> (id: NodeId)
        requires
            old(self)@.dom().len() < MAX_NODES,
        ensures
            !old(self)@.contains_key(id),
            id != NodeId::none(),
            final(self)@ == old(self)@.insert(id, data@),
    {
        assert(self@.dom() =~= contents(*self).dom());
        let raw = self.raw_insert(data);
        let id = NodeId::from_key(raw);
        proof {
            node::null_key();
        }
        assert(contents(*old(self)).insert(id, data) == contents(*self));
        assert(self@ =~= old(self)@.insert(id, data@));
        id
    }

    /// Drops a node.
    pub fn remove(&mut self, id: NodeId) -> (data: Option<NodeData>)
        ensures
            final(self)@ == old(self)@.remove(id),
            match data {
                Some(found) => old(self)@.contains_key(id) && found@ == old(self)@[id],
                None => !old(self)@.contains_key(id),
            },
    {
        proof {
            use_type_invariant(id);
            node::minted_key(id);
        }
        let data = self.raw_remove(id);
        assert(self@ =~= old(self)@.remove(id));
        data
    }

    /// Rewrites one node's parent.
    pub fn set_parent(&mut self, id: NodeId, parent: Option<NodeId>)
        ensures
            final(self)@ == with_parent(old(self)@, id, parent),
    {
        proof {
            use_type_invariant(id);
            node::minted_key(id);
        }
        if let Some(data) = self.raw_get_mut(id) {
            data.parent = parent;
        }
        assert(self@ =~= with_parent(old(self)@, id, parent));
    }

    /// Rewrites one node's kind.
    pub fn set_kind(&mut self, id: NodeId, kind: NodeKind)
        ensures
            final(self)@ == with_kind(old(self)@, id, kind@),
    {
        proof {
            use_type_invariant(id);
            node::minted_key(id);
        }
        if let Some(data) = self.raw_get_mut(id) {
            data.kind = kind;
        }
        assert(self@ =~= with_kind(old(self)@, id, kind@));
    }

    /// Rewrites one node's cached value.
    pub fn set_semantic(&mut self, id: NodeId, semantic: SemanticValue)
        ensures
            final(self)@ == with_sem(old(self)@, id, semantic@),
    {
        proof {
            use_type_invariant(id);
            node::minted_key(id);
        }
        if let Some(data) = self.raw_get_mut(id) {
            data.semantic = semantic;
        }
        assert(self@ =~= with_sem(old(self)@, id, semantic@));
    }

    /// Rewrites one node's revision.
    pub fn set_revision(&mut self, id: NodeId, revision: u64)
        ensures
            final(self)@ == with_revision(old(self)@, id, revision),
    {
        proof {
            use_type_invariant(id);
            node::minted_key(id);
        }
        if let Some(data) = self.raw_get_mut(id) {
            data.revision = revision;
        }
        assert(self@ =~= with_revision(old(self)@, id, revision));
    }

    /// Rewrites one node's subscribers.
    pub fn set_subscribers(&mut self, id: NodeId, subscribers: Vec<SubscriberId>)
        ensures
            final(self)@ == with_subs(old(self)@, id, subscribers@),
    {
        proof {
            use_type_invariant(id);
            node::minted_key(id);
        }
        if let Some(data) = self.raw_get_mut(id) {
            data.subscribers = subscribers;
        }
        assert(self@ =~= with_subs(old(self)@, id, subscribers@));
    }
}

/// The nodes with one node's parent rewritten.
pub open spec fn with_parent(
    nodes: Map<NodeId, Entry>,
    id: NodeId,
    parent: Option<NodeId>,
) -> Map<NodeId, Entry> {
    if nodes.contains_key(id) {
        nodes.insert(id, Entry { parent, ..nodes[id] })
    } else {
        nodes
    }
}

/// The nodes with one node's kind rewritten.
pub open spec fn with_kind(nodes: Map<NodeId, Entry>, id: NodeId, kind: Kind) -> Map<
    NodeId,
    Entry,
> {
    if nodes.contains_key(id) {
        nodes.insert(id, Entry { kind, ..nodes[id] })
    } else {
        nodes
    }
}

/// The nodes with one node's cached value rewritten.
pub open spec fn with_sem(nodes: Map<NodeId, Entry>, id: NodeId, sem: Sem) -> Map<NodeId, Entry> {
    if nodes.contains_key(id) {
        nodes.insert(id, Entry { sem, ..nodes[id] })
    } else {
        nodes
    }
}

/// The nodes with one node's revision rewritten.
pub open spec fn with_revision(nodes: Map<NodeId, Entry>, id: NodeId, revision: u64) -> Map<
    NodeId,
    Entry,
> {
    if nodes.contains_key(id) {
        nodes.insert(id, Entry { revision, ..nodes[id] })
    } else {
        nodes
    }
}

/// The nodes with one node's subscribers rewritten.
pub open spec fn with_subs(
    nodes: Map<NodeId, Entry>,
    id: NodeId,
    subs: Seq<SubscriberId>,
) -> Map<NodeId, Entry> {
    if nodes.contains_key(id) {
        nodes.insert(id, Entry { subs, ..nodes[id] })
    } else {
        nodes
    }
}

} // verus!
