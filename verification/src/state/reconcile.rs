//! Reconciliation: rewriting nodes to hold new values while keeping every
//! identity the values allow.

use vstd::prelude::*;

use crate::state::change::CollectionEdit;
use crate::state::error::{Fault, TreeError};
use crate::state::journal;
use crate::state::keyed;
use crate::state::marker;
use crate::state::marker::{Shape, STORE_ID_KEY};
use crate::state::model;
use crate::state::model::MAX_DEPTH;
use crate::state::node;
use crate::state::node::{AsyncStatus, Kind, NodeId, NodeKind};
use crate::state::sets::NodeSet;
use crate::state::table::{Label, StreamKey};
use crate::state::text;
use crate::state::text::Chars;
use crate::state::transaction;
use crate::state::transaction::Transaction;
use crate::state::value;
use crate::state::value::{Object, JsonValue};
use crate::state::wire::StoreId;

verus! {

broadcast use {journal::carries_on, journal::follows_back, journal::stays_writable};

/// What a fallible step yields that places keyed children, as contracts see it.
pub open spec fn seen_links(r: Result<Vec<(String, NodeId)>, TreeError>) -> Result<
    Seq<(Chars, NodeId)>,
    Fault,
> {
    match r {
        Ok(found) => Ok(node::links(found@)),
        Err(error) => Err(error@),
    }
}

/// What a fallible step yields that places children, as contracts see it.
pub open spec fn seen_nodes(r: Result<Vec<NodeId>, TreeError>) -> Result<Seq<NodeId>, Fault> {
    match r {
        Ok(found) => Ok(found@),
        Err(error) => Err(error@),
    }
}

/// Joins two lists of nodes.
pub(crate) fn joined(first: Vec<NodeId>, second: &Vec<NodeId>) -> (list: Vec<NodeId>)
    ensures
        list@ == first@ + second@,
{
    let mut list = first;
    let mut i: usize = 0;
    while i < second.len()
        invariant
            i <= second@.len(),
            list@ == first@ + second@.take(i as int),
        decreases second.len() - i,
    {
        list.push(second[i]);
        assert(list@ =~= first@ + second@.take(i + 1));
        i = i + 1;
    }
    assert(second@.take(i as int) =~= second@);
    list
}

/// Whether two lists of keyed children are equal.
pub(crate) fn same_links(a: &Vec<(String, NodeId)>, b: &Vec<(String, NodeId)>) -> (equal: bool)
    ensures
        equal == (node::links(a@) == node::links(b@)),
{
    if a.len() != b.len() {
        assert(node::links(a@).len() != node::links(b@).len());
        return false;
    }
    let mut i: usize = 0;
    while i < a.len()
        invariant
            i <= a@.len(),
            a@.len() == b@.len(),
            forall|j: int| 0 <= j < i ==> node::links(a@)[j] == node::links(b@)[j],
        decreases a.len() - i,
    {
        if a[i].0 != b[i].0 || a[i].1 != b[i].1 {
            assert(node::links(a@)[i as int] != node::links(b@)[i as int]);
            return false;
        }
        i = i + 1;
    }
    assert(node::links(a@) =~= node::links(b@));
    true
}

/// Whether two lists of nodes are equal.
pub(crate) fn same_nodes(a: &Vec<NodeId>, b: &Vec<NodeId>) -> (equal: bool)
    ensures
        equal == (a@ == b@),
{
    if a.len() != b.len() {
        return false;
    }
    let mut i: usize = 0;
    while i < a.len()
        invariant
            i <= a@.len(),
            a@.len() == b@.len(),
            forall|j: int| 0 <= j < i ==> a@[j] == b@[j],
        decreases a.len() - i,
    {
        if a[i] != b[i] {
            return false;
        }
        i = i + 1;
    }
    assert(a@ =~= b@);
    true
}

/// Whether a node already is what a value calls for.
fn is_unchanged(kind: &NodeKind, shape: &Shape) -> (same: bool)
    ensures
        same == model::unchanged(kind@, shape@),
{
    match (kind, shape) {
        (NodeKind::Null, Shape::Null) => true,
        (NodeKind::Bool(old), Shape::Bool(new)) => *old == *new,
        (NodeKind::Number(old), Shape::Number(new)) => (*old).same(*new),
        (NodeKind::String(old), Shape::String(new)) => *old == **new,
        (NodeKind::Collection { name, .. }, Shape::Collection { name: new }) => *name == **new,
        (NodeKind::UploadSlot { name, .. }, Shape::UploadSlot { name: new }) => *name == **new,
        _ => false,
    }
}

impl Transaction {
    // ----------------------------------------------------------------- moving

    /// Removes one child from its parent's kind, so no node is ever reachable
    /// from two parents.
    ///
    /// The slot it vacates keeps a fresh `Null` node instead of disappearing:
    /// the op that lands a moving store comes before the one that vacates its
    /// old slot, so that slot has to stay addressable. A collection is keyed,
    /// not positional: there the row is gone, and the removal is an edit.
    pub(crate) fn detach(&mut self, parent: NodeId, child: NodeId) -> (done: Result<(), TreeError>)
        requires
            old(self).wf(),
        ensures
            final(self).wf(),
            journal::carries(old(self)@, final(self)@),
            forall|ids: Seq<NodeId>| #[trigger]
                journal::follows(final(self)@, ids) ==> old(self)@.detach(parent, child, ids) == (
                    final(self)@,
                    transaction::seen(done),
                ),
    {
        proof {
            self.sound();
        }
        if self.get(parent).is_none() {
            return Ok(());
        }
        self.touch_and_dirty(parent);
        let kind = match self.kind_of(parent) {
            Some(kind) => kind,
            None => {
                proof {
                    journal::carried(old(self)@, self@);
                    assert(self@.live(parent));
                }
                return Ok(());
            },
        };
        proof {
            journal::carried(old(self)@, self@);
            assert(self@.live(parent));
        }
        let list = kind.children();
        let at: usize = transaction::position_of(&list, child);
        if at >= list.len() {
            return Ok(());
        }
        match kind {
            NodeKind::Collection { name, owner, items } => {
                let mut rows = items;
                let ghost before = node::links(rows@);
                let row = rows.remove(at);
                assert(node::links(rows@) =~= before.remove(at as int));
                self.put_kind(parent, NodeKind::Collection { name, owner, items: rows });
                self.record_edit(
                    parent,
                    CollectionEdit::Removed { item_key: row.0, index: at },
                );
                Ok(())
            },
            other => {
                let ghost mid = self@;
                match self.null_node(Some(parent)) {
                    Ok(filler) => {
                        self.put_kind(parent, transaction::replace_kid(other, at, filler));
                        Ok(())
                    },
                    Err(error) => Err(error),
                }
            },
        }
    }

    /// Re-parents an existing node, resurrecting it if this transaction had
    /// already detached it.
    pub(crate) fn adopt(&mut self, parent: NodeId, id: NodeId) -> (done: Result<(), TreeError>)
        requires
            old(self).wf(),
        ensures
            final(self).wf(),
            journal::carries(old(self)@, final(self)@),
            forall|ids: Seq<NodeId>| #[trigger]
                journal::follows(final(self)@, ids) ==> old(self)@.adopt(parent, id, ids) == (
                    final(self)@,
                    transaction::seen(done),
                ),
    {
        self.touch(id);
        self.unpend(id);
        if let Some(up) = self.parent_of(id) {
            match self.detach(up, id) {
                Ok(_) => {},
                Err(error) => {
                    return Err(error);
                },
            }
        }
        self.put_parent(id, Some(parent));
        self.mark_dirty(parent);
        Ok(())
    }

    /// The store that may be adopted under `parent` for an id.
    fn adoptable_store(
        &self,
        parent: NodeId,
        existing: Option<NodeId>,
        store_id: &StoreId,
    ) -> (found: Option<NodeId>)
        requires
            self.wf(),
        ensures
            found == self@.adoptable_store(parent, existing, store_id@),
    {
        proof {
            self.unfold();
            self.arena.unfold();
        }
        match self.arena.stores.get(store_id) {
            Some(found) => {
                if Some(found) != existing && found != self.arena.root && self.is_store(
                    found,
                    store_id,
                ) && !self.is_ancestor(found, parent) {
                    Some(found)
                } else {
                    None
                }
            },
            None => None,
        }
    }

    /// The collection that may be adopted under `parent` for a stream.
    ///
    /// A collection's identity is its key, exactly as a store's identity is its
    /// id: its items are never re-sent, so a store that is rebuilt has to take
    /// the live collection with it. Refused for a node already parented here,
    /// and for a node the adoption would close a cycle through.
    fn adopt_collection(
        &self,
        parent: NodeId,
        existing: Option<NodeId>,
        key: &StreamKey,
    ) -> (found: Option<NodeId>)
        requires
            self.wf(),
        ensures
            found == self@.adoptable_stream(parent, existing, key.label()),
    {
        proof {
            self.unfold();
            self.arena.unfold();
        }
        match self.arena.streams.get(key) {
            Some(found) => {
                if Some(found) != existing && found != self.arena.root && self.is_collection(
                    found,
                    &key.name,
                ) && self.parent_of(found) != Some(parent) && !self.is_ancestor(found, parent) {
                    Some(found)
                } else {
                    None
                }
            },
            None => None,
        }
    }

    /// Re-parents each node of a list.
    fn rehome(&mut self, list: &Vec<NodeId>, parent: NodeId)
        requires
            old(self).wf(),
        ensures
            final(self).wf(),
            final(self)@ == old(self)@.rehome(list@, parent, 0),
            journal::carries(old(self)@, final(self)@),
    {
        proof {
            self.sound();
        }
        let mut i: usize = 0;
        while i < list.len()
            invariant
                i <= list@.len(),
                self.wf(),
                journal::carries(old(self)@, self@),
                self@.rehome(list@, parent, i as int) == old(self)@.rehome(list@, parent, 0),
            decreases list.len() - i,
        {
            self.touch(list[i]);
            self.put_parent(list[i], Some(parent));
            i = i + 1;
        }
    }

    /// Swaps two children wherever `up` holds them.
    fn swap_under(&mut self, up: NodeId, x: NodeId, y: NodeId)
        requires
            old(self).wf(),
        ensures
            final(self).wf(),
            final(self)@ == old(self)@.swap_under(up, x, y),
            journal::carries(old(self)@, final(self)@),
    {
        proof {
            self.sound();
        }
        if let Some(kind) = self.kind_of(up) {
            self.touch(up);
            self.put_kind(up, transaction::swap_kids(kind, x, y));
        }
    }

    /// The copy that took a store's id, where the two can exchange places.
    fn copy_of(&self, id: NodeId) -> (copy: Option<NodeId>)
        requires
            self.wf(),
        ensures
            copy == self@.copy_of(id),
    {
        proof {
            self.unfold();
            self.arena.unfold();
        }
        match self.get(id) {
            Some(data) => match &data.kind {
                NodeKind::Store { store_id, .. } => match self.arena.stores.get(store_id) {
                    Some(copy) => {
                        if copy != id && self.is_store(copy, store_id) && self.attached(copy)
                            && self.attached(id) && !self.is_ancestor(id, copy)
                            && !self.is_ancestor(copy, id) && self.parent_of(id).is_some()
                            && self.parent_of(copy).is_some() {
                            Some(copy)
                        } else {
                            None
                        }
                    },
                    None => None,
                },
                _ => None,
            },
            None => None,
        }
    }

    /// Exchanges the places of two nodes of one store id: each takes the other's
    /// slot, children and value, and the id resolves to `id` again.
    fn exchange(&mut self, id: NodeId, copy: NodeId, store_id: &StoreId)
        requires
            old(self).wf(),
            old(self)@.live(id),
            old(self)@.live(copy),
            old(self)@.nodes[id].parent is Some,
            old(self)@.nodes[copy].parent is Some,
        ensures
            final(self).wf(),
            final(self)@ == old(self)@.exchange(id, copy, store_id@),
            journal::carries(old(self)@, final(self)@),
    {
        proof {
            self.sound();
        }
        let (mine, up) = match self.get(id) {
            Some(data) => (data.kind.copy(), data.parent),
            None => {
                return;
            },
        };
        let (theirs, other) = match self.get(copy) {
            Some(data) => (data.kind.copy(), data.parent),
            None => {
                return;
            },
        };
        let (up, other) = match (up, other) {
            (Some(a), Some(b)) => (a, b),
            _ => {
                return;
            },
        };
        self.touch(id);
        self.touch(copy);
        self.rehome(&mine.children(), copy);
        self.rehome(&theirs.children(), id);
        self.put_kind(id, theirs);
        self.put_kind(copy, mine);
        self.swap_under(up, id, copy);
        if up != other {
            self.swap_under(other, id, copy);
        }
        self.put_parent(id, Some(other));
        self.put_parent(copy, Some(up));
        self.mark_dirty(id);
        self.mark_dirty(copy);
        self.set_store(store_id, Some(id));
    }

    /// What a slot gives up before it is rewritten with a value that is no
    /// store: where a copy elsewhere has taken the id of the store that stands
    /// in it, the two exchange places, so the id stays on the node that was
    /// carrying it. Yields the node that is in the slot then.
    pub(crate) fn yield_identity(&mut self, id: NodeId, value: &JsonValue) -> (held: NodeId)
        requires
            old(self).wf(),
        ensures
            final(self).wf(),
            (final(self)@, held) == old(self)@.yield_identity(id, value@),
            journal::carries(old(self)@, final(self)@),
    {
        proof {
            self.sound();
        }
        if let Shape::Store { .. } = marker::classify(value) {
            return id;
        }
        match self.copy_of(id) {
            Some(copy) => {
                let mut store: Option<StoreId> = None;
                if let Some(data) = self.get(id) {
                    if let NodeKind::Store { store_id, .. } = &data.kind {
                        store = Some(store_id.copy());
                    }
                }
                match store {
                    Some(store_id) => {
                        self.exchange(id, copy, &store_id);
                        copy
                    },
                    None => id,
                }
            },
            None => id,
        }
    }

    /// The node a position may reconcile into: the one that was there, unless
    /// something else has taken it.
    fn unclaimed(
        &self,
        parent: NodeId,
        candidate: Option<NodeId>,
        placed: &NodeSet,
        list: Ghost<Seq<NodeId>>,
    ) -> (existing: Option<NodeId>)
        requires
            self.wf(),
            placed@ == list@.to_set(),
        ensures
            existing == self@.unclaimed(parent, candidate, list@),
    {
        match candidate {
            Some(id) => {
                if self.parent_of(id) == Some(parent) && !placed.contains(id) {
                    Some(id)
                } else {
                    None
                }
            },
            None => None,
        }
    }

    // ------------------------------------------------------------- reconciling

    /// Reconciles one child slot, honouring store identity over position.
    ///
    /// Yields the node that now belongs in the slot: the same one whenever the
    /// shape allowed it to be kept, the adopted node when the value carries the
    /// id of a store that already lives somewhere else in the tree, and a fresh
    /// one otherwise. The caller installs it and releases the one it displaced.
    pub(crate) fn reconcile_child(
        &mut self,
        parent: NodeId,
        existing: Option<NodeId>,
        value: &JsonValue,
        owner: &StoreId,
        depth: usize,
    ) -> (child: Result<NodeId, TreeError>)
        requires
            old(self).wf(),
        ensures
            final(self).wf(),
            journal::carries(old(self)@, final(self)@),
            forall|ids: Seq<NodeId>| #[trigger]
                journal::follows(final(self)@, ids) ==> model::reconcile_child(
                    old(self)@,
                    parent,
                    existing,
                    value@,
                    owner@,
                    depth as nat,
                    ids,
                ) == (final(self)@, transaction::seen(child)),
        decreases value::nesting(value@), 5int,
    {
        match marker::classify(value) {
            Shape::Store { store_id, .. } => {
                let duplicate = self.claim(&store_id);
                if let Some(id) = existing {
                    if self.is_store(id, &store_id) {
                        return match self.reconcile(id, value, owner, depth) {
                            Ok(_) => Ok(id),
                            Err(error) => Err(error),
                        };
                    }
                }
                if !duplicate {
                    if let Some(found) = self.adoptable_store(parent, existing, &store_id) {
                        return self.reconcile_adopted(parent, found, value, owner, depth);
                    }
                }
                self.build(parent, value, owner, depth)
            },
            Shape::Collection { name } => {
                let key = StreamKey { owner: owner.copy(), name: name.clone() };
                let duplicate = self.claim_stream(&key);
                if let Some(id) = existing {
                    if self.is_collection(id, name) {
                        self.claim_held_stream(id);
                        return Ok(id);
                    }
                }
                if !duplicate {
                    if let Some(found) = self.adopt_collection(parent, existing, &key) {
                        return self.reconcile_adopted(parent, found, value, owner, depth);
                    }
                }
                self.reconcile_slot(parent, existing, value, owner, depth)
            },
            _ => self.reconcile_slot(parent, existing, value, owner, depth),
        }
    }

    /// Claims the stream that a stream slot holds.
    fn claim_held_stream(&mut self, id: NodeId)
        requires
            old(self).wf(),
            old(self)@.live(id),
            old(self)@.kind(id) is Collection,
        ensures
            final(self).wf(),
            journal::carries(old(self)@, final(self)@),
            final(self)@ == old(self)@.claim_stream(old(self)@.stream_of(id)),
    {
        proof {
            self.sound();
        }
        if let Some(NodeKind::Collection { name, owner, .. }) = self.kind_of(id) {
            let _ = self.claim_stream(&StreamKey { owner, name });
        }
    }

    /// Adopts a node into a slot, and gives it its value there.
    fn reconcile_adopted(
        &mut self,
        parent: NodeId,
        found: NodeId,
        value: &JsonValue,
        owner: &StoreId,
        depth: usize,
    ) -> (child: Result<NodeId, TreeError>)
        requires
            old(self).wf(),
        ensures
            final(self).wf(),
            journal::carries(old(self)@, final(self)@),
            forall|ids: Seq<NodeId>| #[trigger]
                journal::follows(final(self)@, ids) ==> model::reconcile_adopted(
                    old(self)@,
                    parent,
                    found,
                    value@,
                    owner@,
                    depth as nat,
                    ids,
                ) == (final(self)@, transaction::seen(child)),
        decreases value::nesting(value@), 4int,
    {
        proof {
            self.sound();
        }
        if !self.fits_at(found, depth) {
            return Err(transaction::too_deep());
        }
        match self.adopt(parent, found) {
            Ok(_) => match self.reconcile(found, value, owner, depth) {
                Ok(_) => Ok(found),
                Err(error) => Err(error),
            },
            Err(error) => Err(error),
        }
    }

    /// Reconciles a slot in place, or builds a node for it: a child store is
    /// never rewritten into something else.
    fn reconcile_slot(
        &mut self,
        parent: NodeId,
        existing: Option<NodeId>,
        value: &JsonValue,
        owner: &StoreId,
        depth: usize,
    ) -> (child: Result<NodeId, TreeError>)
        requires
            old(self).wf(),
        ensures
            final(self).wf(),
            journal::carries(old(self)@, final(self)@),
            forall|ids: Seq<NodeId>| #[trigger]
                journal::follows(final(self)@, ids) ==> model::reconcile_slot(
                    old(self)@,
                    parent,
                    existing,
                    value@,
                    owner@,
                    depth as nat,
                    ids,
                ) == (final(self)@, transaction::seen(child)),
        decreases value::nesting(value@), 4int,
    {
        match existing {
            Some(id) => {
                if self.is_store_node(id) {
                    self.build(parent, value, owner, depth)
                } else {
                    match self.reconcile(id, value, owner, depth) {
                        Ok(_) => Ok(id),
                        Err(error) => Err(error),
                    }
                }
            },
            None => self.build(parent, value, owner, depth),
        }
    }

    /// Rewrites one node to hold `value`, keeping every identity the incoming
    /// shape allows it to keep.
    ///
    /// `depth` is this node's own depth.
    pub(crate) fn reconcile(
        &mut self,
        id: NodeId,
        value: &JsonValue,
        owner: &StoreId,
        depth: usize,
    ) -> (done: Result<(), TreeError>)
        requires
            old(self).wf(),
        ensures
            final(self).wf(),
            journal::carries(old(self)@, final(self)@),
            forall|ids: Seq<NodeId>| #[trigger]
                journal::follows(final(self)@, ids) ==> model::reconcile(
                    old(self)@,
                    id,
                    value@,
                    owner@,
                    depth as nat,
                    ids,
                ) == (final(self)@, transaction::seen(done)),
        decreases value::nesting(value@), 3int,
    {
        proof {
            self.sound();
            model::form_nesting(value@);
        }
        let shape = marker::classify(value);
        // The cases that leave the node exactly as it stands, decided without
        // copying the kind: a re-rendered stream marker is one of them, and it
        // arrives every cycle.
        match self.get(id) {
            Some(data) => {
                if is_unchanged(&data.kind, &shape) {
                    return Ok(());
                }
            },
            None => {
                return Ok(());
            },
        }
        let kind = match self.kind_of(id) {
            Some(kind) => kind,
            None => {
                return Ok(());
            },
        };
        match (kind, shape) {
            (NodeKind::Object(held), Shape::Object(fields)) => {
                match self.place_fields(id, &held, fields, false, owner, depth) {
                    Ok(placed) => {
                        self.install_fields(id, &held, None, placed);
                        Ok(())
                    },
                    Err(error) => Err(error),
                }
            },
            (NodeKind::Store { store_id, fields: held }, Shape::Store {
                store_id: incoming,
                fields,
            }) => {
                if store_id.same(&incoming) {
                    match self.place_fields(id, &held, fields, true, &store_id, depth) {
                        Ok(placed) => {
                            self.install_fields(id, &held, Some(store_id), placed);
                            Ok(())
                        },
                        Err(error) => Err(error),
                    }
                } else {
                    self.rebuild(id, value, owner, depth)
                }
            },
            (NodeKind::Array(held), Shape::Array(items)) => {
                match self.place_items(id, &held, items, owner, depth) {
                    Ok(placed) => {
                        self.install_array(id, held, placed);
                        Ok(())
                    },
                    Err(error) => Err(error),
                }
            },
            (NodeKind::Async { status: _, result, reason: _ }, Shape::Async {
                status,
                result: new_result,
                reason: new_reason,
            }) => {
                let null = JsonValue::Null;
                proof {
                    value::value_views(null);
                }
                let new_result = match new_result {
                    Some(found) => found,
                    None => &null,
                };
                let new_reason = match new_reason {
                    Some(found) => found,
                    None => &null,
                };
                self.put_status(id, status);
                match self.reconcile_child(
                    id,
                    Some(result),
                    new_result,
                    owner,
                    transaction::deeper(depth),
                ) {
                    Ok(now) => self.set_async_slot(id, true, now),
                    Err(error) => {
                        return Err(error);
                    },
                }
                let next = self.async_slot(id, false);
                match self.reconcile_child(
                    id,
                    next,
                    new_reason,
                    owner,
                    transaction::deeper(depth),
                ) {
                    Ok(now) => {
                        self.set_async_slot(id, false, now);
                        Ok(())
                    },
                    Err(error) => Err(error),
                }
            },
            _ => self.rebuild(id, value, owner, depth),
        }
    }

    /// Sets an async node's status, where it differs. Only the async node is
    /// dirtied: the result subtree it may be carrying is untouched.
    pub(crate) fn put_status(&mut self, id: NodeId, new: AsyncStatus)
        requires
            old(self).wf(),
        ensures
            final(self).wf(),
            final(self)@ == model::put_status(old(self)@, id, new),
            journal::carries(old(self)@, final(self)@),
    {
        proof {
            self.sound();
        }
        if let Some(NodeKind::Async { status, result, reason }) = self.kind_of(id) {
            if status != new {
                self.touch_and_dirty(id);
                self.put_kind(id, NodeKind::Async { status: new, result, reason });
            }
        }
    }

    /// The node in one of an async node's two slots.
    pub(crate) fn async_slot(&self, id: NodeId, first: bool) -> (held: Option<NodeId>)
        requires
            self.wf(),
        ensures
            held == model::async_slot(self@, id, first),
    {
        match self.get(id) {
            Some(data) => match &data.kind {
                NodeKind::Async { result, reason, .. } => {
                    if first {
                        Some(*result)
                    } else {
                        Some(*reason)
                    }
                },
                _ => None,
            },
            None => None,
        }
    }

    /// Points one of an async node's two slots at the node reconciliation
    /// settled on, releasing the one it held.
    pub(crate) fn set_async_slot(&mut self, id: NodeId, first: bool, now: NodeId)
        requires
            old(self).wf(),
        ensures
            final(self).wf(),
            final(self)@ == model::set_async_slot(old(self)@, id, first, now),
            journal::carries(old(self)@, final(self)@),
    {
        proof {
            self.sound();
        }
        if let Some(held) = self.async_slot(id, first) {
            if held != now {
                if let Some(kind) = self.kind_of(id) {
                    self.touch_and_dirty(id);
                    if first {
                        self.put_kind(id, transaction::replace_kid(kind, 0, now));
                    } else {
                        self.put_kind(id, transaction::replace_kid(kind, 1, now));
                    }
                    self.release_if_still_mine(id, held);
                }
            }
        }
    }

    /// Installs a wholly different value into an existing node.
    ///
    /// The node itself survives, but none of its children do.
    fn rebuild(
        &mut self,
        id: NodeId,
        value: &JsonValue,
        owner: &StoreId,
        depth: usize,
    ) -> (done: Result<(), TreeError>)
        requires
            old(self).wf(),
        ensures
            final(self).wf(),
            journal::carries(old(self)@, final(self)@),
            forall|ids: Seq<NodeId>| #[trigger]
                journal::follows(final(self)@, ids) ==> model::rebuild(
                    old(self)@,
                    id,
                    value@,
                    owner@,
                    depth as nat,
                    ids,
                ) == (final(self)@, transaction::seen(done)),
        decreases value::nesting(value@), 2int,
    {
        // A list that becomes something else loses its rows, which an adapter
        // replaying the edits has to see.
        if self.is_list(id) {
            self.record_edit(id, CollectionEdit::Reset);
        }
        self.touch_and_dirty(id);
        let gone = self.children(id);
        self.unregister(id);
        self.put_kind(id, NodeKind::Null);
        self.release_each(&gone);
        self.install(id, value, owner, depth)
    }

    /// Creates a node and its whole subtree from one wire value.
    ///
    /// The one place a node is allocated for a value, and therefore the one
    /// place the depth cap has to hold.
    pub(crate) fn build(
        &mut self,
        parent: NodeId,
        value: &JsonValue,
        owner: &StoreId,
        depth: usize,
    ) -> (made: Result<NodeId, TreeError>)
        requires
            old(self).wf(),
        ensures
            final(self).wf(),
            journal::carries(old(self)@, final(self)@),
            forall|ids: Seq<NodeId>| #[trigger]
                journal::follows(final(self)@, ids) ==> model::build(
                    old(self)@,
                    parent,
                    value@,
                    owner@,
                    depth as nat,
                    ids,
                ) == (final(self)@, transaction::seen(made)),
        decreases value::nesting(value@), 2int,
    {
        proof {
            self.sound();
        }
        if depth > MAX_DEPTH {
            return Err(transaction::too_deep());
        }
        match self.null_node(Some(parent)) {
            Ok(id) => match self.install(id, value, owner, depth) {
                Ok(_) => Ok(id),
                Err(error) => Err(error),
            },
            Err(error) => Err(error),
        }
    }

    /// Gives an existing node its kind and its value.
    fn finish(&mut self, id: NodeId, kind: NodeKind)
        requires
            old(self).wf(),
            journal::writable(old(self)@, id),
        ensures
            final(self).wf(),
            final(self)@ == model::finish(old(self)@, id, kind@),
            journal::carries(old(self)@, final(self)@),
    {
        self.put_kind(id, kind);
        proof {
            self.unfold();
        }
        let semantic = self.arena.semantic_shallow(id);
        self.put_semantic(id, semantic);
    }

    /// Gives an existing node the kind, children and indices `value` calls for.
    fn install(
        &mut self,
        id: NodeId,
        value: &JsonValue,
        owner: &StoreId,
        depth: usize,
    ) -> (done: Result<(), TreeError>)
        requires
            old(self).wf(),
            journal::writable(old(self)@, id),
        ensures
            final(self).wf(),
            journal::carries(old(self)@, final(self)@),
            forall|ids: Seq<NodeId>| #[trigger]
                journal::follows(final(self)@, ids) ==> model::install(
                    old(self)@,
                    id,
                    value@,
                    owner@,
                    depth as nat,
                    ids,
                ) == (final(self)@, transaction::seen(done)),
        decreases value::nesting(value@), 1int,
    {
        proof {
            self.sound();
            model::form_nesting(value@);
        }
        match marker::classify(value) {
            Shape::Null => self.finish(id, NodeKind::Null),
            Shape::Bool(flag) => self.finish(id, NodeKind::Bool(flag)),
            Shape::Number(number) => self.finish(id, NodeKind::Number(number)),
            Shape::String(text) => self.finish(id, NodeKind::String(text.clone())),
            Shape::Array(items) => {
                let held: Vec<NodeId> = Vec::new();
                assert(held@ =~= Seq::<NodeId>::empty());
                match self.place_items(id, &held, items, owner, depth) {
                    Ok(placed) => self.finish(id, NodeKind::Array(placed)),
                    Err(error) => {
                        return Err(error);
                    },
                }
            },
            Shape::Object(fields) => {
                let held: Vec<(String, NodeId)> = Vec::new();
                assert(node::links(held@) =~= Seq::<(Chars, NodeId)>::empty());
                match self.place_fields(id, &held, fields, false, owner, depth) {
                    Ok(placed) => self.finish(id, NodeKind::Object(placed)),
                    Err(error) => {
                        return Err(error);
                    },
                }
            },
            Shape::Store { store_id, fields } => {
                let held: Vec<(String, NodeId)> = Vec::new();
                assert(node::links(held@) =~= Seq::<(Chars, NodeId)>::empty());
                match self.place_fields(id, &held, fields, true, &store_id, depth) {
                    Ok(placed) => {
                        self.set_store(&store_id, Some(id));
                        self.finish(id, NodeKind::Store { store_id, fields: placed })
                    },
                    Err(error) => {
                        return Err(error);
                    },
                }
            },
            Shape::Collection { name } => {
                let key = StreamKey { owner: owner.copy(), name: name.clone() };
                self.set_stream(&key, Some(id));
                let items: Vec<(String, NodeId)> = Vec::new();
                assert(node::links(items@) =~= Seq::<(Chars, NodeId)>::empty());
                self.finish(
                    id,
                    NodeKind::Collection { name: name.clone(), owner: owner.copy(), items },
                )
            },
            Shape::Async { status, result, reason } => {
                let null = JsonValue::Null;
                proof {
                    value::value_views(null);
                }
                let result = match result {
                    Some(found) => found,
                    None => &null,
                };
                let reason = match reason {
                    Some(found) => found,
                    None => &null,
                };
                let first = match self.reconcile_child(
                    id,
                    None,
                    result,
                    owner,
                    transaction::deeper(depth),
                ) {
                    Ok(first) => first,
                    Err(error) => {
                        return Err(error);
                    },
                };
                match self.reconcile_child(id, None, reason, owner, transaction::deeper(depth)) {
                    Ok(second) => self.finish(
                        id,
                        NodeKind::Async { status, result: first, reason: second },
                    ),
                    Err(error) => {
                        return Err(error);
                    },
                }
            },
            Shape::UploadSlot { name } => self.finish(
                id,
                NodeKind::UploadSlot { name: name.clone(), owner: owner.copy() },
            ),
        }
        Ok(())
    }

    /// Reconciles the fields of an object or a store into the slots they had in
    /// `held`. Yields the nodes that belong under their keys.
    fn place_fields(
        &mut self,
        id: NodeId,
        held: &Vec<(String, NodeId)>,
        fields: &Object,
        store: bool,
        owner: &StoreId,
        depth: usize,
    ) -> (placed: Result<Vec<(String, NodeId)>, TreeError>)
        requires
            old(self).wf(),
        ensures
            final(self).wf(),
            journal::carries(old(self)@, final(self)@),
            forall|ids: Seq<NodeId>| #[trigger]
                journal::follows(final(self)@, ids) ==> model::place_fields(
                    old(self)@,
                    id,
                    node::links(held@),
                    fields@,
                    store,
                    owner@,
                    depth as nat,
                    0,
                    Seq::empty(),
                    ids,
                ) == (final(self)@, seen_links(placed)),
        decreases model::nesting_of_fields(fields@), 0int,
    {
        proof {
            self.sound();
        }
        let ghost start = self@;
        let ghost old_links = node::links(held@);
        let mut placed: Vec<(String, NodeId)> = Vec::new();
        let mut taken = NodeSet::new();
        let mut i: usize = 0;
        proof {
            assert(node::links(placed@) =~= Seq::<(Chars, NodeId)>::empty());
            assert(keyed::items_of(node::links(placed@)).to_set() =~= Set::<NodeId>::empty());
        }
        while i < fields.len()
            invariant
                i <= fields@.len(),
                self.wf(),
                start == old(self)@,
                old_links == node::links(held@),
                journal::carries(start, self@),
                taken@ == keyed::items_of(node::links(placed@)).to_set(),
                forall|ids: Seq<NodeId>| #[trigger]
                    journal::follows(self@, ids) ==> model::place_fields(
                        start,
                        id,
                        old_links,
                        fields@,
                        store,
                        owner@,
                        depth as nat,
                        0,
                        Seq::empty(),
                        ids,
                    ) == model::place_fields(
                        self@,
                        id,
                        old_links,
                        fields@,
                        store,
                        owner@,
                        depth as nat,
                        i as int,
                        node::links(placed@),
                        ids,
                    ),
            decreases fields@.len() - i,
        {
            let key = fields.key_at(i);
            if store && text::text_eq(key.as_str(), STORE_ID_KEY) {
                i = i + 1;
                continue;
            }
            let ghost mid = self@;
            let ghost before = node::links(placed@);
            let existing = self.unclaimed(
                id,
                node::link_get(held, key.as_str()),
                &taken,
                Ghost(keyed::items_of(before)),
            );
            proof {
                value::field_nesting(fields@, i as int);
            }
            match self.reconcile_child(
                id,
                existing,
                fields.value_at(i),
                owner,
                transaction::deeper(depth),
            ) {
                Ok(child) => {
                    placed.push((key.clone(), child));
                    let _ = taken.insert(child);
                    proof {
                        let after = node::links(placed@);
                        assert(after =~= before.push((fields@[i as int].0, child)));
                        assert(keyed::items_of(after) =~= keyed::items_of(before).push(child));
                        assert(keyed::items_of(after).to_set() =~= keyed::items_of(
                            before,
                        ).to_set().insert(child)) by {
                            push_to_set(keyed::items_of(before), child);
                        }
                    }
                },
                Err(error) => {
                    return Err(error);
                },
            }
            i = i + 1;
        }
        Ok(placed)
    }

    /// Reconciles the elements of an array into the positions they had in
    /// `held`. Yields the nodes that belong at their positions.
    fn place_items(
        &mut self,
        id: NodeId,
        held: &Vec<NodeId>,
        items: &Vec<JsonValue>,
        owner: &StoreId,
        depth: usize,
    ) -> (placed: Result<Vec<NodeId>, TreeError>)
        requires
            old(self).wf(),
        ensures
            final(self).wf(),
            journal::carries(old(self)@, final(self)@),
            forall|ids: Seq<NodeId>| #[trigger]
                journal::follows(final(self)@, ids) ==> model::place_items(
                    old(self)@,
                    id,
                    held@,
                    value::values_view(items@),
                    owner@,
                    depth as nat,
                    0,
                    Seq::empty(),
                    ids,
                ) == (final(self)@, seen_nodes(placed)),
        decreases model::nesting_of_items(value::values_view(items@)), 0int,
    {
        proof {
            self.sound();
        }
        let ghost start = self@;
        let ghost values = value::values_view(items@);
        let mut placed: Vec<NodeId> = Vec::new();
        let mut taken = NodeSet::new();
        let mut i: usize = 0;
        proof {
            assert(placed@ =~= Seq::<NodeId>::empty());
            assert(placed@.to_set() =~= Set::<NodeId>::empty());
        }
        while i < items.len()
            invariant
                i <= items@.len(),
                self.wf(),
                start == old(self)@,
                values == value::values_view(items@),
                journal::carries(start, self@),
                taken@ == placed@.to_set(),
                forall|ids: Seq<NodeId>| #[trigger]
                    journal::follows(self@, ids) ==> model::place_items(
                        start,
                        id,
                        held@,
                        values,
                        owner@,
                        depth as nat,
                        0,
                        Seq::empty(),
                        ids,
                    ) == model::place_items(
                        self@,
                        id,
                        held@,
                        values,
                        owner@,
                        depth as nat,
                        i as int,
                        placed@,
                        ids,
                    ),
            decreases items@.len() - i,
        {
            let ghost before = placed@;
            let candidate = if i < held.len() {
                Some(held[i])
            } else {
                None
            };
            let existing = self.unclaimed(id, candidate, &taken, Ghost(before));
            proof {
                value::item_nesting(values, i as int);
            }
            match self.reconcile_child(
                id,
                existing,
                &items[i],
                owner,
                transaction::deeper(depth),
            ) {
                Ok(child) => {
                    placed.push(child);
                    let _ = taken.insert(child);
                    proof {
                        push_to_set(before, child);
                    }
                },
                Err(error) => {
                    return Err(error);
                },
            }
            i = i + 1;
        }
        Ok(placed)
    }

    /// Installs a rebuilt field list, releasing whatever fell out of it.
    fn install_fields(
        &mut self,
        id: NodeId,
        held: &Vec<(String, NodeId)>,
        store: Option<StoreId>,
        placed: Vec<(String, NodeId)>,
    )
        requires
            old(self).wf(),
        ensures
            final(self).wf(),
            final(self)@ == model::install_fields(
                old(self)@,
                id,
                node::links(held@),
                match store {
                    Some(store_id) => Kind::Store { id: store_id@, fields: node::links(placed@) },
                    None => Kind::Object(node::links(placed@)),
                },
                node::links(placed@),
            ),
            journal::carries(old(self)@, final(self)@),
    {
        proof {
            self.sound();
        }
        let live = self.children(id);
        let kept = NodeSet::of(&node::link_nodes(&placed));
        let gone = joined(node::link_nodes(held), &live);
        let same = match self.fields_of(id) {
            Some(fields) => same_links(&fields, &placed),
            None => false,
        };
        if !same {
            self.touch_and_dirty(id);
            match store {
                Some(store_id) => self.put_kind(
                    id,
                    NodeKind::Store { store_id, fields: placed },
                ),
                None => self.put_kind(id, NodeKind::Object(placed)),
            }
        }
        self.release_displaced(id, &gone, &kept);
    }

    /// Installs a rebuilt child list, releasing whatever fell out of it.
    pub(crate) fn install_array(&mut self, id: NodeId, held: Vec<NodeId>, placed: Vec<NodeId>)
        requires
            old(self).wf(),
        ensures
            final(self).wf(),
            final(self)@ == model::install_array(old(self)@, id, held@, placed@),
            journal::carries(old(self)@, final(self)@),
    {
        proof {
            self.sound();
        }
        let live = self.children(id);
        let kept = NodeSet::of(&placed);
        let gone = joined(held, &live);
        if !same_nodes(&live, &placed) {
            self.touch_and_dirty(id);
            self.put_kind(id, NodeKind::Array(placed));
        }
        self.release_displaced(id, &gone, &kept);
    }
}

pub(crate) proof fn push_to_set(list: Seq<NodeId>, id: NodeId)
    ensures
        list.push(id).to_set() == list.to_set().insert(id),
{
    let longer = list.push(id);
    assert forall|other: NodeId| longer.contains(other) == (list.contains(other) || other == id) by {
        if list.contains(other) {
            let i = choose|i: int| 0 <= i < list.len() && list[i] == other;
            assert(longer[i] == other);
        }
        if longer.contains(other) {
            let i = choose|i: int| 0 <= i < longer.len() && longer[i] == other;
            if i < list.len() {
                assert(list[i] == other);
            }
        }
        assert(longer[list.len() as int] == id);
    }
    assert(longer.to_set() =~= list.to_set().insert(id));
}

} // verus!
