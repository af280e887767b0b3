//! One transaction against the retained tree.
//!
//! Every mutation records what it displaced, so the tree as it was before the
//! transaction can be put back until `commit` keeps the work.
//!
//! Every op that puts a value somewhere reaches the tree through
//! [`reconcile_child`](Transaction::reconcile_child), the one place that knows a
//! value's store id may name a node that already exists somewhere else.

use vstd::prelude::*;

use crate::state::arena::Arena;
use crate::state::change::CollectionEdit;
use crate::state::error::{Fault, TreeError};
use crate::state::journal;
use crate::state::model;
use crate::state::model::{Before, Tx, Undo, MAX_DEPTH, MAX_WALK};
use crate::state::node;
use crate::state::node::{NodeId, NodeKind, SemanticValue};
use crate::state::sets::{NodeSet, NodeValues};
use crate::state::slots::{NodeData, MAX_NODES};
use crate::state::table::{Label, Labels, RowKey, StreamKey, Table};
use crate::state::text::Chars;
use crate::state::value::Object;
use crate::state::wire::StoreId;

verus! {

broadcast use {journal::carries_on, journal::follows_back, journal::stays_writable};

/// What one node looked like before the transaction first touched it.
pub(crate) struct Touched {
    pub(crate) id: NodeId,
    pub(crate) parent: Option<NodeId>,
    pub(crate) kind: NodeKind,
    pub(crate) revision: u64,
    pub(crate) semantic: SemanticValue,
}

impl View for Touched {
    type V = Before;

    closed spec fn view(&self) -> Before {
        Before {
            id: self.id,
            parent: self.parent,
            kind: self.kind@,
            revision: self.revision,
            sem: self.semantic@,
        }
    }
}

impl Touched {
    pub(crate) proof fn unfold(&self)
        ensures
            self@.id == self.id,
            self@.parent == self.parent,
            self@.kind == self.kind@,
            self@.revision == self.revision,
            self@.sem == self.semantic@,
    {
    }
}

/// One index mutation, and the value it displaced.
pub(crate) enum IndexUndo {
    Store(StoreId, Option<NodeId>),
    Stream(StreamKey, Option<NodeId>),
}

impl View for IndexUndo {
    type V = Undo;

    closed spec fn view(&self) -> Undo {
        match self {
            IndexUndo::Store(id, was) => Undo::Store(id@, *was),
            IndexUndo::Stream(key, was) => Undo::Stream(key.label(), *was),
        }
    }
}

impl IndexUndo {
    pub(crate) proof fn unfold(&self)
        ensures
            self matches IndexUndo::Store(id, was) ==> self@ == Undo::Store(id@, *was),
            self matches IndexUndo::Stream(key, was) ==> self@ == Undo::Stream(key.label(), *was),
    {
    }
}

/// An open transaction. It holds the tree until it is committed or rolled back.
pub struct Transaction {
    pub(crate) arena: Arena,
    pub(crate) touched: Vec<Touched>,
    pub(crate) touched_set: NodeSet,
    pub(crate) allocated: Vec<NodeId>,
    pub(crate) undo: Vec<IndexUndo>,
    /// Detached and awaiting free at commit.
    pub(crate) pending: Vec<NodeId>,
    pub(crate) pending_set: NodeSet,
    /// Rows that left a collection, still reusable by an insert of the same key.
    pub(crate) carry: Table<RowKey>,
    pub(crate) carry_order: Vec<RowKey>,
    pub(crate) edits: Vec<(NodeId, CollectionEdit)>,
    /// The dirty set, each node against the value it held when first reached.
    pub(crate) settle: NodeValues,
    pub(crate) settle_order: Vec<NodeId>,
    pub(crate) closing: bool,
    /// The store ids this op has already installed somewhere.
    pub(crate) claimed: Labels<StoreId>,
    /// The streams this op has already installed somewhere.
    pub(crate) claimed_streams: Labels<StreamKey>,
}

impl View for Transaction {
    type V = Tx;

    closed spec fn view(&self) -> Tx {
        Tx {
            nodes: self.arena@.nodes,
            root: self.arena@.root,
            stores: self.arena@.stores,
            streams: self.arena@.streams,
            closed: self.arena@.closed,
            next_subscriber: self.arena@.next_subscriber,
            touched: Seq::new(self.touched@.len(), |i: int| self.touched@[i]@),
            allocated: self.allocated@,
            undo: Seq::new(self.undo@.len(), |i: int| self.undo@[i]@),
            pending: self.pending@,
            is_pending: self.pending_set@,
            carry: self.carry@,
            carry_order: Seq::new(
                self.carry_order@.len(),
                |i: int| self.carry_order@[i].label(),
            ),
            edits: Seq::new(
                self.edits@.len(),
                |i: int| (self.edits@[i].0, self.edits@[i].1@),
            ),
            settle: self.settle@,
            settle_order: self.settle_order@,
            closing: self.closing,
            claimed: self.claimed@,
            claimed_streams: self.claimed_streams@,
        }
    }
}

/// What a fallible step yields, as contracts see it.
pub open spec fn seen<T>(r: Result<T, TreeError>) -> Result<T, Fault> {
    match r {
        Ok(found) => Ok(found),
        Err(error) => Err(error@),
    }
}

/// One level further down; past the cap it no longer matters how far.
pub(crate) fn deeper(depth: usize) -> (next: usize)
    ensures
        next == model::deeper(depth as nat),
{
    if depth > MAX_DEPTH {
        depth
    } else {
        depth + 1
    }
}

/// The depth cap's error.
pub(crate) fn too_deep() -> (error: TreeError)
    ensures
        error@ == (Fault::Depth { limit: MAX_DEPTH as nat }),
{
    TreeError::Depth { limit: MAX_DEPTH }
}

/// What `node_index` means.
pub(crate) proof fn node_index_meaning(list: Seq<NodeId>, id: NodeId)
    ensures
        model::node_index(list, id) <= list.len(),
        model::node_index(list, id) < list.len() ==> list[model::node_index(list, id) as int] == id,
        forall|j: int| 0 <= j < model::node_index(list, id) ==> list[j] != id,
    decreases list.len(),
{
    if list.len() > 0 && list[0] != id {
        let rest = list.drop_first();
        node_index_meaning(rest, id);
        assert forall|j: int| 0 <= j < model::node_index(list, id) implies list[j] != id by {
            if j > 0 {
                assert(list[j] == rest[j - 1]);
            }
        }
    }
}

/// `node_index` is the only position with that meaning.
pub(crate) proof fn node_index_is(list: Seq<NodeId>, id: NodeId, at: int)
    requires
        0 <= at <= list.len(),
        at < list.len() ==> list[at] == id,
        forall|j: int| 0 <= j < at ==> list[j] != id,
    ensures
        model::node_index(list, id) == at,
{
    node_index_meaning(list, id);
    let found = model::node_index(list, id) as int;
    if found < at {
        assert(list[found] != id);
    }
    if at < found {
        assert(list[at] != id);
    }
}

/// Where a node first is in a list, or the length when it is not there.
pub(crate) fn position_of(list: &Vec<NodeId>, id: NodeId) -> (at: usize)
    ensures
        at == model::node_index(list@, id),
        at <= list@.len(),
{
    let mut i: usize = 0;
    while i < list.len()
        invariant
            i <= list@.len(),
            forall|j: int| 0 <= j < i ==> list@[j] != id,
        decreases list.len() - i,
    {
        if list[i] == id {
            proof {
                node_index_is(list@, id, i as int);
            }
            return i;
        }
        i = i + 1;
    }
    proof {
        node_index_is(list@, id, i as int);
    }
    i
}

/// A kind with the child at one position replaced.
pub(crate) fn replace_kid(kind: NodeKind, at: usize, kid: NodeId) -> (new: NodeKind)
    requires
        at < kind@.kids().len(),
    ensures
        new@ == model::with_kid(kind@, at as int, kid),
{
    match kind {
        NodeKind::Array(items) => {
            let mut items = items;
            items.set(at, kid);
            NodeKind::Array(items)
        },
        NodeKind::Object(fields) => NodeKind::Object(replace_link(fields, at, kid)),
        NodeKind::Store { store_id, fields } => NodeKind::Store {
            store_id,
            fields: replace_link(fields, at, kid),
        },
        NodeKind::Collection { name, owner, items } => NodeKind::Collection {
            name,
            owner,
            items: replace_link(items, at, kid),
        },
        NodeKind::Async { status, result, reason } => {
            if at == 0 {
                NodeKind::Async { status, result: kid, reason }
            } else {
                NodeKind::Async { status, result, reason: kid }
            }
        },
        other => other,
    }
}

/// Keyed children with the one at one position replaced.
pub(crate) fn replace_link(list: Vec<(String, NodeId)>, at: usize, kid: NodeId) -> (new: Vec<
    (String, NodeId),
>)
    requires
        at < list@.len(),
    ensures
        node::links(new@) == node::links(list@).update(
            at as int,
            (node::links(list@)[at as int].0, kid),
        ),
{
    let mut new = list;
    let key = new[at].0.clone();
    new.set(at, (key, kid));
    assert(node::links(new@) =~= node::links(list@).update(
        at as int,
        (node::links(list@)[at as int].0, kid),
    ));
    new
}

/// One node's name for another: what `a` becomes when `x` and `y` swap.
pub(crate) fn swap_one(a: NodeId, x: NodeId, y: NodeId) -> (b: NodeId)
    ensures
        b == model::swapped(a, x, y),
{
    if a == x {
        y
    } else if a == y {
        x
    } else {
        a
    }
}

/// Keyed children with `x` and `y` swapped.
pub(crate) fn swap_links(list: Vec<(String, NodeId)>, x: NodeId, y: NodeId) -> (new: Vec<(String, NodeId)>)
    ensures
        node::links(new@) == model::swap_links(node::links(list@), x, y),
{
    let mut new: Vec<(String, NodeId)> = Vec::new();
    let mut i: usize = 0;
    while i < list.len()
        invariant
            i <= list@.len(),
            new@.len() == i,
            forall|j: int|
                0 <= j < i ==> (#[trigger] new@[j]).0@ == list@[j].0@ && new@[j].1
                    == model::swapped(list@[j].1, x, y),
        decreases list.len() - i,
    {
        new.push((list[i].0.clone(), swap_one(list[i].1, x, y)));
        i = i + 1;
    }
    assert(node::links(new@) =~= model::swap_links(node::links(list@), x, y));
    new
}

/// A kind with two children swapped.
pub(crate) fn swap_kids(kind: NodeKind, x: NodeId, y: NodeId) -> (new: NodeKind)
    ensures
        new@ == model::swap_kids(kind@, x, y),
{
    match kind {
        NodeKind::Array(items) => {
            let mut new: Vec<NodeId> = Vec::new();
            let mut i: usize = 0;
            while i < items.len()
                invariant
                    i <= items@.len(),
                    new@.len() == i,
                    forall|j: int| 0 <= j < i ==> new@[j] == model::swapped(items@[j], x, y),
                decreases items.len() - i,
            {
                new.push(swap_one(items[i], x, y));
                i = i + 1;
            }
            assert(new@ =~= Seq::new(items@.len(), |j: int| model::swapped(items@[j], x, y)));
            NodeKind::Array(new)
        },
        NodeKind::Object(fields) => NodeKind::Object(swap_links(fields, x, y)),
        NodeKind::Store { store_id, fields } => NodeKind::Store {
            store_id,
            fields: swap_links(fields, x, y),
        },
        NodeKind::Collection { name, owner, items } => NodeKind::Collection {
            name,
            owner,
            items: swap_links(items, x, y),
        },
        NodeKind::Async { status, result, reason } => NodeKind::Async {
            status,
            result: swap_one(result, x, y),
            reason: swap_one(reason, x, y),
        },
        other => other,
    }
}

impl Transaction {
    /// The parts of the record agree with one another.
    pub closed spec fn wf(&self) -> bool {
        &&& self.arena.wf()
        &&& self.carry.wf()
        &&& journal::sound(self@)
        &&& forall|id: NodeId| #[trigger] self.touched_set@.contains(id) <==> self@.touched_has(id)
    }

    pub(crate) proof fn sound(&self)
        requires
            self.wf(),
        ensures
            journal::sound(self@),
            journal::carries(self@, self@),
    {
        journal::carries_self(self@);
    }

    pub(crate) proof fn unfold(&self)
        requires
            self.wf(),
        ensures
            self.arena.wf(),
            self.carry.wf(),
            self@.nodes == self.arena@.nodes,
            self@.root == self.arena@.root,
            self@.stores == self.arena@.stores,
            self@.streams == self.arena@.streams,
            self@.closed == self.arena@.closed,
            self@.next_subscriber == self.arena@.next_subscriber,
    {
    }

    pub(crate) proof fn unfold_record(&self)
        requires
            self.wf(),
        ensures
            self@.touched == Seq::new(self.touched@.len(), |i: int| self.touched@[i]@),
            self@.allocated == self.allocated@,
            self@.undo == Seq::new(self.undo@.len(), |i: int| self.undo@[i]@),
            self@.pending == self.pending@,
            self@.is_pending == self.pending_set@,
            self@.carry == self.carry@,
            self@.carry_order == Seq::new(
                self.carry_order@.len(),
                |i: int| self.carry_order@[i].label(),
            ),
            self@.edits == Seq::new(
                self.edits@.len(),
                |i: int| (self.edits@[i].0, self.edits@[i].1@),
            ),
            self@.settle == self.settle@,
            self@.settle_order == self.settle_order@,
            self@.closing == self.closing,
    {
    }

    // --------------------------------------------------------------- reading

    /// One node.
    pub(crate) fn get(&self, id: NodeId) -> (data: Option<&NodeData>)
        requires
            self.wf(),
        ensures
            match data {
                Some(found) => self@.live(id) && found@ == self@.nodes[id],
                None => !self@.live(id),
            },
    {
        proof {
            self.arena.unfold();
        }
        self.arena.nodes.get(id)
    }

    /// A node's parent, if it has one.
    pub(crate) fn parent_of(&self, id: NodeId) -> (parent: Option<NodeId>)
        requires
            self.wf(),
        ensures
            parent == self@.parent_of(id),
    {
        match self.get(id) {
            Some(data) => data.parent,
            None => None,
        }
    }

    /// A copy of a node's kind.
    pub(crate) fn kind_of(&self, id: NodeId) -> (kind: Option<NodeKind>)
        requires
            self.wf(),
        ensures
            match kind {
                Some(found) => self@.live(id) && found@ == self@.kind(id),
                None => !self@.live(id),
            },
    {
        match self.get(id) {
            Some(data) => Some(data.kind.copy()),
            None => None,
        }
    }

    /// Every child of a node.
    pub(crate) fn children(&self, id: NodeId) -> (list: Vec<NodeId>)
        requires
            self.wf(),
        ensures
            list@ == self@.kids(id),
    {
        match self.get(id) {
            Some(data) => data.kind.children(),
            None => {
                let list: Vec<NodeId> = Vec::new();
                list
            },
        }
    }

    /// A copy of a node's keyed children, where it is an object or a store.
    pub(crate) fn fields_of(&self, id: NodeId) -> (fields: Option<Vec<(String, NodeId)>>)
        requires
            self.wf(),
        ensures
            match fields {
                Some(found) => self@.fields(id) == Some(node::links(found@)),
                None => self@.fields(id) is None,
            },
    {
        match self.get(id) {
            Some(data) => match &data.kind {
                NodeKind::Object(fields) => Some(node::copy_links(fields)),
                NodeKind::Store { fields, .. } => Some(node::copy_links(fields)),
                _ => None,
            },
            None => None,
        }
    }

    /// A copy of a node's keyed children, none where it is no object or store.
    pub(crate) fn links_of(&self, id: NodeId) -> (fields: Vec<(String, NodeId)>)
        requires
            self.wf(),
        ensures
            node::links(fields@) == self@.links(id),
    {
        match self.fields_of(id) {
            Some(fields) => fields,
            None => {
                let fields: Vec<(String, NodeId)> = Vec::new();
                assert(node::links(fields@) =~= Seq::<(Chars, NodeId)>::empty());
                fields
            },
        }
    }

    /// A copy of a collection's rows.
    pub(crate) fn items(&self, id: NodeId) -> (rows: Vec<(String, NodeId)>)
        requires
            self.wf(),
        ensures
            node::links(rows@) == self@.rows(id),
    {
        match self.get(id) {
            Some(data) => match &data.kind {
                NodeKind::Collection { items, .. } => node::copy_links(items),
                _ => {
                    let rows: Vec<(String, NodeId)> = Vec::new();
                    assert(node::links(rows@) =~= Seq::<(Chars, NodeId)>::empty());
                    rows
                },
            },
            None => {
                let rows: Vec<(String, NodeId)> = Vec::new();
                assert(node::links(rows@) =~= Seq::<(Chars, NodeId)>::empty());
                rows
            },
        }
    }

    /// Whether a node is the store with this id.
    pub(crate) fn is_store(&self, id: NodeId, store_id: &StoreId) -> (found: bool)
        requires
            self.wf(),
        ensures
            found == self@.is_store(id, store_id@),
    {
        match self.get(id) {
            Some(data) => match &data.kind {
                NodeKind::Store { store_id: held, .. } => held.same(store_id),
                _ => false,
            },
            None => false,
        }
    }

    /// Whether a node is a store.
    pub(crate) fn is_store_node(&self, id: NodeId) -> (found: bool)
        requires
            self.wf(),
        ensures
            found == self@.is_store_node(id),
    {
        match self.get(id) {
            Some(data) => match &data.kind {
                NodeKind::Store { .. } => true,
                _ => false,
            },
            None => false,
        }
    }

    /// Whether a node is a stream slot of this name.
    pub(crate) fn is_collection(&self, id: NodeId, name: &String) -> (found: bool)
        requires
            self.wf(),
        ensures
            found == self@.is_collection(id, name@),
    {
        match self.get(id) {
            Some(data) => match &data.kind {
                NodeKind::Collection { name: held, .. } => *held == *name,
                _ => false,
            },
            None => false,
        }
    }

    pub(crate) fn is_list(&self, id: NodeId) -> (found: bool)
        requires
            self.wf(),
        ensures
            found == (self@.live(id) && self@.kind(id) is Collection),
    {
        match self.get(id) {
            Some(data) => match &data.kind {
                NodeKind::Collection { .. } => true,
                _ => false,
            },
            None => false,
        }
    }

    pub(crate) fn met_above(&self, id: NodeId, cursor: Option<NodeId>, walk: usize) -> (met: bool)
        requires
            self.wf(),
        ensures
            met == self@.met_above(id, cursor, walk as nat),
        decreases walk,
    {
        match cursor {
            Some(current) => {
                if current == id {
                    true
                } else if walk <= 1 {
                    true
                } else {
                    self.met_above(id, self.parent_of(current), walk - 1)
                }
            },
            None => false,
        }
    }

    /// Whether `id` is `below` itself, or one of its ancestors.
    ///
    /// Adopting a node under one of its own descendants would close a parent
    /// cycle.
    pub(crate) fn is_ancestor(&self, id: NodeId, below: NodeId) -> (found: bool)
        requires
            self.wf(),
        ensures
            found == self@.is_ancestor(id, below),
    {
        self.met_above(id, Some(below), MAX_WALK)
    }

    pub(crate) fn reaches_root(&self, cursor: Option<NodeId>, walk: usize) -> (met: bool)
        requires
            self.wf(),
        ensures
            met == self@.reaches_root(cursor, walk as nat),
        decreases walk,
    {
        proof {
            self.arena.unfold();
        }
        match cursor {
            Some(current) => {
                if current == self.arena.root {
                    true
                } else if walk <= 1 {
                    false
                } else {
                    self.reaches_root(self.parent_of(current), walk - 1)
                }
            },
            None => false,
        }
    }

    /// Whether a node is in the tree, rather than detached from it.
    pub(crate) fn attached(&self, id: NodeId) -> (found: bool)
        requires
            self.wf(),
        ensures
            found == self@.attached(id),
    {
        self.reaches_root(Some(id), MAX_WALK)
    }

    /// Whether a subtree is at most `room` levels tall.
    pub(crate) fn fits(&self, id: NodeId, room: usize) -> (fit: bool)
        requires
            self.wf(),
        ensures
            fit == self@.fits(id, room as nat),
        decreases room,
    {
        let list = self.children(id);
        if room == 0 {
            return list.len() == 0;
        }
        let mut i: usize = 0;
        while i < list.len()
            invariant
                self.wf(),
                0 < room,
                i <= list@.len(),
                list@ == self@.kids(id),
                forall|j: int|
                    0 <= j < i ==> self@.fits(#[trigger] self@.kids(id)[j], (room - 1) as nat),
            decreases list.len() - i,
        {
            if !self.fits(list[i], room - 1) {
                assert(!self@.fits(self@.kids(id)[i as int], (room - 1) as nat));
                return false;
            }
            i = i + 1;
        }
        true
    }

    /// Whether a subtree may hang at `depth` without passing the cap.
    pub(crate) fn fits_at(&self, id: NodeId, depth: usize) -> (fit: bool)
        requires
            self.wf(),
        ensures
            fit == self@.fits_at(id, depth as nat),
    {
        depth <= MAX_DEPTH && self.fits(id, MAX_DEPTH - depth)
    }

    pub(crate) fn height_above(&self, cursor: NodeId, walk: usize) -> (height: usize)
        requires
            self.wf(),
        ensures
            height == self@.height_above(Some(cursor), walk as nat),
            height <= walk,
        decreases walk,
    {
        if walk == 0 {
            return 0;
        }
        match self.parent_of(cursor) {
            Some(up) => 1 + self.height_above(up, walk - 1),
            None => 0,
        }
    }

    /// How deep a node sits below its root.
    pub(crate) fn depth(&self, id: NodeId) -> (depth: usize)
        requires
            self.wf(),
        ensures
            depth == self@.depth(id),
            depth <= MAX_WALK,
    {
        self.height_above(id, MAX_WALK)
    }

    pub(crate) fn store_above(&self, cursor: Option<NodeId>, walk: usize) -> (id: StoreId)
        requires
            self.wf(),
        ensures
            id@ == self@.store_above(cursor, walk as nat),
        decreases walk,
    {
        match cursor {
            Some(current) => {
                if walk == 0 {
                    return StoreId::root();
                }
                match self.get(current) {
                    Some(data) => match &data.kind {
                        NodeKind::Store { store_id, .. } => store_id.copy(),
                        _ => self.store_above(data.parent, walk - 1),
                    },
                    None => StoreId::root(),
                }
            },
            None => StoreId::root(),
        }
    }

    /// The nearest enclosing store of a node's children: the node's own id when
    /// it is a store node, otherwise the nearest one above it.
    pub(crate) fn owner_of(&self, id: NodeId) -> (owner: StoreId)
        requires
            self.wf(),
        ensures
            owner@ == self@.owner_of(id),
    {
        self.store_above(Some(id), MAX_WALK)
    }

    // ------------------------------------------------------------- recording

    /// Records what one node looked like before this transaction changed it.
    /// Only the first touch is kept.
    pub(crate) fn touch(&mut self, id: NodeId)
        requires
            old(self).wf(),
        ensures
            final(self).wf(),
            final(self)@ == old(self)@.touch(id),
            journal::carries(old(self)@, final(self)@),
            journal::writable(final(self)@, id),
    {
        proof {
            journal::carries_touch(self@, id);
        }
        if self.touched_set.contains(id) {
            return;
        }
        let entry = match self.get(id) {
            Some(data) => Touched {
                id,
                parent: data.parent,
                kind: data.kind.copy(),
                revision: data.revision,
                semantic: data.semantic.share(),
            },
            None => {
                return;
            },
        };
        let ghost before = *self;
        let _ = self.touched_set.insert(id);
        self.touched.push(entry);
        proof {
            assert(self@.touched =~= before@.touched.push(entry@));
            assert(self@ =~= before@.touch(id));
            assert forall|other: NodeId| #[trigger] self.touched_set@.contains(other)
                <==> self@.touched_has(other) by {
                let last = before@.touched.len() as int;
                if before@.touched_has(other) {
                    let i = choose|i: int|
                        0 <= i < before@.touched.len() && (#[trigger] before@.touched[i]).id
                            == other;
                    assert(self@.touched[i].id == other);
                }
                if self@.touched_has(other) {
                    let i = choose|i: int|
                        0 <= i < self@.touched.len() && (#[trigger] self@.touched[i]).id == other;
                    if i < last {
                        assert(before@.touched[i].id == other);
                        assert(before.touched_set@.contains(other));
                    }
                }
                assert(self@.touched[last].id == id);
                assert(before.touched_set@.contains(other) <==> before@.touched_has(other));
            }
            journal::carried(before@, self@);
        }
    }

    /// Puts one node among the dirty ones.
    pub(crate) fn note_dirty(&mut self, id: NodeId)
        requires
            old(self).wf(),
            old(self)@.live(id),
        ensures
            final(self).wf(),
            final(self)@ == old(self)@.note_dirty(id),
            journal::carries(old(self)@, final(self)@),
    {
        proof {
            self.sound();
        }
        if self.settle.get(id).is_some() {
            return;
        }
        let semantic = match self.get(id) {
            Some(data) => data.semantic.share(),
            None => {
                return;
            },
        };
        let ghost before = *self;
        self.settle.insert(id, semantic);
        self.settle_order.push(id);
        proof {
            self.aside(before);
            assert(self@ =~= before@.note_dirty(id));
        }
    }

    /// A mutation that left what a rollback reads alone.
    pub(crate) proof fn aside(&self, before: Transaction)
        requires
            before.wf(),
            self.arena == before.arena,
            self.touched == before.touched,
            self.touched_set == before.touched_set,
            self.allocated == before.allocated,
            self.undo == before.undo,
            self.closing == before.closing,
            self.carry.wf(),
        ensures
            self.wf(),
            journal::carries(before@, self@),
    {
        assert(self@.touched =~= before@.touched);
        assert(self@.undo =~= before@.undo);
        journal::carries_aside(before@, self@);
        journal::carried(before@, self@);
        assert forall|other: NodeId| #[trigger] self.touched_set@.contains(other)
            <==> self@.touched_has(other) by {
            assert(before.touched_set@.contains(other) <==> before@.touched_has(other));
            if before@.touched_has(other) {
                let i = choose|i: int|
                    0 <= i < before@.touched.len() && (#[trigger] before@.touched[i]).id == other;
                assert(self@.touched[i].id == other);
            }
            if self@.touched_has(other) {
                let i = choose|i: int|
                    0 <= i < self@.touched.len() && (#[trigger] self@.touched[i]).id == other;
                assert(before@.touched[i].id == other);
            }
        }
    }

    pub(crate) fn dirty_up(&mut self, cursor: Option<NodeId>, walk: usize)
        requires
            old(self).wf(),
        ensures
            final(self).wf(),
            final(self)@ == old(self)@.dirty_up(cursor, walk as nat),
            journal::carries(old(self)@, final(self)@),
        decreases walk,
    {
        proof {
            self.sound();
        }
        match cursor {
            Some(id) => {
                if walk == 0 {
                    return;
                }
                let parent = match self.get(id) {
                    Some(data) => data.parent,
                    None => {
                        return;
                    },
                };
                self.note_dirty(id);
                self.dirty_up(parent, walk - 1);
            },
            None => {},
        }
    }

    /// Puts a node and every ancestor of it into the settle set, each with the
    /// value it had when this transaction first reached it.
    pub(crate) fn mark_dirty(&mut self, id: NodeId)
        requires
            old(self).wf(),
        ensures
            final(self).wf(),
            final(self)@ == old(self)@.mark_dirty(id),
            journal::carries(old(self)@, final(self)@),
    {
        self.dirty_up(Some(id), MAX_WALK);
    }

    pub(crate) fn touch_and_dirty(&mut self, id: NodeId)
        requires
            old(self).wf(),
        ensures
            final(self).wf(),
            final(self)@ == old(self)@.touch_dirty(id),
            journal::carries(old(self)@, final(self)@),
            journal::writable(final(self)@, id),
    {
        self.touch(id);
        self.mark_dirty(id);
    }

    pub(crate) fn record_edit(&mut self, collection: NodeId, edit: CollectionEdit)
        requires
            old(self).wf(),
        ensures
            final(self).wf(),
            final(self)@ == old(self)@.log_edit(collection, edit@),
            journal::carries(old(self)@, final(self)@),
    {
        let ghost before = *self;
        self.edits.push((collection, edit));
        proof {
            self.aside(before);
            assert(self@.edits =~= before@.edits.push((collection, edit@)));
            assert(self@ =~= before@.log_edit(collection, edit@));
        }
    }

    // --------------------------------------------------------------- writing

    /// A mutation of one node that may be written.
    pub(crate) proof fn wrote(&self, before: Transaction, id: NodeId)
        requires
            before.wf(),
            journal::writable(before@, id),
            self.arena.wf(),
            self@.nodes.dom() == before@.nodes.dom(),
            forall|other: NodeId|
                other != id ==> #[trigger] self@.nodes[other] == before@.nodes[other],
            self@.nodes[id].subs == before@.nodes[id].subs,
            *self == (Transaction { arena: self.arena, ..before }),
            self.arena@ == (journal::Tree { nodes: self@.nodes, ..before.arena@ }),
        ensures
            self.wf(),
            self@ == (Tx { nodes: self@.nodes, ..before@ }),
            journal::carries(before@, self@),
    {
        assert(self@ =~= (Tx { nodes: self@.nodes, ..before@ }));
        journal::carries_write(before@, self@, id);
        journal::carried(before@, self@);
        assert forall|other: NodeId| #[trigger] self.touched_set@.contains(other)
            <==> self@.touched_has(other) by {
            assert(before.touched_set@.contains(other) <==> before@.touched_has(other));
            if before@.touched_has(other) {
                let i = choose|i: int|
                    0 <= i < before@.touched.len() && (#[trigger] before@.touched[i]).id == other;
                assert(self@.touched[i].id == other);
            }
            if self@.touched_has(other) {
                let i = choose|i: int|
                    0 <= i < self@.touched.len() && (#[trigger] self@.touched[i]).id == other;
                assert(before@.touched[i].id == other);
            }
        }
    }

    /// Rewrites a node's kind.
    pub(crate) fn put_kind(&mut self, id: NodeId, kind: NodeKind)
        requires
            old(self).wf(),
            journal::writable(old(self)@, id),
        ensures
            final(self).wf(),
            final(self)@ == old(self)@.put_kind(id, kind@),
            journal::carries(old(self)@, final(self)@),
    {
        let ghost before = *self;
        proof {
            before.arena.unfold();
        }
        self.arena.nodes.set_kind(id, kind);
        proof {
            self.arena.unfold();
            assert(self@.nodes.dom() =~= before@.nodes.dom());
            self.wrote(before, id);
        }
    }

    /// Rewrites a node's parent.
    pub(crate) fn put_parent(&mut self, id: NodeId, parent: Option<NodeId>)
        requires
            old(self).wf(),
            journal::writable(old(self)@, id),
        ensures
            final(self).wf(),
            final(self)@ == old(self)@.put_parent(id, parent),
            journal::carries(old(self)@, final(self)@),
    {
        let ghost before = *self;
        proof {
            before.arena.unfold();
        }
        self.arena.nodes.set_parent(id, parent);
        proof {
            self.arena.unfold();
            assert(self@.nodes.dom() =~= before@.nodes.dom());
            self.wrote(before, id);
        }
    }

    /// Rewrites a node's cached value.
    pub(crate) fn put_semantic(&mut self, id: NodeId, semantic: SemanticValue)
        requires
            old(self).wf(),
            journal::writable(old(self)@, id),
        ensures
            final(self).wf(),
            final(self)@ == old(self)@.put_sem(id, semantic@),
            journal::carries(old(self)@, final(self)@),
    {
        let ghost before = *self;
        proof {
            before.arena.unfold();
        }
        self.arena.nodes.set_semantic(id, semantic);
        proof {
            self.arena.unfold();
            assert(self@.nodes.dom() =~= before@.nodes.dom());
            self.wrote(before, id);
        }
    }

    /// An empty node, parented but not yet filled.
    pub(crate) fn null_node(&mut self, parent: Option<NodeId>) -> (made: Result<NodeId, TreeError>)
        requires
            old(self).wf(),
        ensures
            final(self).wf(),
            journal::carries(old(self)@, final(self)@),
            made matches Ok(id) ==> journal::writable(final(self)@, id),
            forall|ids: Seq<NodeId>| #[trigger]
                journal::follows(final(self)@, ids) ==> old(self)@.make(parent, ids) == (
                    final(self)@,
                    seen(made),
                ),
    {
        proof {
            self.sound();
            self.arena.unfold();
        }
        if self.arena.nodes.len() >= MAX_NODES {
            return Err(TreeError::Full);
        }
        let ghost before = *self;
        proof {
            before.arena.unfold();
        }
        let id = self.arena.nodes.insert(
            NodeData {
                parent,
                kind: NodeKind::Null,
                revision: 1,
                semantic: SemanticValue::null(),
                subscribers: Vec::new(),
            },
        );
        self.allocated.push(id);
        proof {
            self.arena.unfold();
            let entry = model::fresh_entry(parent);
            assert(self@.nodes =~= before@.nodes.insert(id, entry));
            let after = Tx {
                nodes: before@.nodes.insert(id, entry),
                allocated: before@.allocated.push(id),
                ..before@
            };
            assert(self@ =~= after);
            journal::carries_make(before@, id, entry);
            journal::carried(before@, self@);
            assert forall|other: NodeId| #[trigger] self.touched_set@.contains(other)
                <==> self@.touched_has(other) by {
                assert(before.touched_set@.contains(other) <==> before@.touched_has(other));
                if before@.touched_has(other) {
                    let i = choose|i: int|
                        0 <= i < before@.touched.len() && (#[trigger] before@.touched[i]).id
                            == other;
                    assert(self@.touched[i].id == other);
                }
                if self@.touched_has(other) {
                    let i = choose|i: int|
                        0 <= i < self@.touched.len() && (#[trigger] self@.touched[i]).id == other;
                    assert(before@.touched[i].id == other);
                }
            }
            assert forall|ids: Seq<NodeId>| #[trigger] journal::follows(self@, ids) implies before@.make(
                parent,
                ids,
            ) == (self@, seen(Ok::<NodeId, TreeError>(id))) by {
                reveal(journal::follows);
                assert(self@.allocated[before@.allocated.len() as int] == id);
                assert(ids[before@.allocated.len() as int] == id);
            }
        }
        Ok(id)
    }

    /// A mutation of the indices.
    pub(crate) proof fn indexed(&self, before: Transaction)
        requires
            before.wf(),
            self.arena.wf(),
            self.carry == before.carry,
            self.touched == before.touched,
            self.touched_set == before.touched_set,
            journal::carries(before@, self@),
        ensures
            self.wf(),
    {
        journal::carried(before@, self@);
        assert(self@.touched =~= before@.touched);
        assert forall|other: NodeId| #[trigger] self.touched_set@.contains(other)
            <==> self@.touched_has(other) by {
            assert(before.touched_set@.contains(other) <==> before@.touched_has(other));
            if before@.touched_has(other) {
                let i = choose|i: int|
                    0 <= i < before@.touched.len() && (#[trigger] before@.touched[i]).id == other;
                assert(self@.touched[i].id == other);
            }
            if self@.touched_has(other) {
                let i = choose|i: int|
                    0 <= i < self@.touched.len() && (#[trigger] self@.touched[i]).id == other;
                assert(before@.touched[i].id == other);
            }
        }
    }

    /// Points a store id at a node, or at none.
    pub(crate) fn set_store(&mut self, store_id: &StoreId, id: Option<NodeId>)
        requires
            old(self).wf(),
        ensures
            final(self).wf(),
            final(self)@ == old(self)@.set_store(store_id@, id),
            journal::carries(old(self)@, final(self)@),
    {
        let ghost before = *self;
        proof {
            self.sound();
            before.arena.unfold();
        }
        let previous = match id {
            Some(id) => self.arena.stores.insert(store_id.copy(), id),
            None => self.arena.stores.remove(store_id),
        };
        self.undo.push(IndexUndo::Store(store_id.copy(), previous));
        proof {
            self.arena.unfold();
            assert(self@.undo =~= before@.undo.push(Undo::Store(store_id@, previous)));
            assert(self@ =~= before@.set_store(store_id@, id));
            journal::carries_set_store(before@, store_id@, id);
            self.indexed(before);
        }
    }

    /// Points a stream at a node, or at none.
    pub(crate) fn set_stream(&mut self, key: &StreamKey, id: Option<NodeId>)
        requires
            old(self).wf(),
        ensures
            final(self).wf(),
            final(self)@ == old(self)@.set_stream(key.label(), id),
            journal::carries(old(self)@, final(self)@),
    {
        let ghost before = *self;
        proof {
            self.sound();
            before.arena.unfold();
        }
        let previous = match id {
            Some(id) => self.arena.streams.insert(key.copy_label(), id),
            None => self.arena.streams.remove(key),
        };
        self.undo.push(IndexUndo::Stream(key.copy_label(), previous));
        proof {
            self.arena.unfold();
            assert(self@.undo =~= before@.undo.push(Undo::Stream(key.label(), previous)));
            assert(self@ =~= before@.set_stream(key.label(), id));
            journal::carries_set_stream(before@, key.label(), id);
            self.indexed(before);
        }
    }

    /// Drops a node's index entries, for a node about to stop being what it was.
    pub(crate) fn unregister(&mut self, id: NodeId)
        requires
            old(self).wf(),
        ensures
            final(self).wf(),
            final(self)@ == old(self)@.unregister(id),
            journal::carries(old(self)@, final(self)@),
    {
        proof {
            self.sound();
            self.arena.unfold();
        }
        let mut store: Option<StoreId> = None;
        let mut stream: Option<StreamKey> = None;
        match self.get(id) {
            Some(data) => match &data.kind {
                NodeKind::Store { store_id, .. } => {
                    store = Some(store_id.copy());
                },
                NodeKind::Collection { name, owner, .. } => {
                    stream = Some(StreamKey { owner: owner.copy(), name: name.clone() });
                },
                _ => {},
            },
            None => {},
        }
        if let Some(store_id) = store {
            if self.arena.stores.get(&store_id) == Some(id) {
                self.set_store(&store_id, None);
            }
        } else if let Some(key) = stream {
            if self.arena.streams.get(&key) == Some(id) {
                self.set_stream(&key, None);
            }
        }
    }

    /// Claims a store id for this op; `true` when it was claimed already.
    pub(crate) fn claim(&mut self, store_id: &StoreId) -> (duplicate: bool)
        requires
            old(self).wf(),
        ensures
            final(self).wf(),
            final(self)@ == old(self)@.claim(store_id@),
            duplicate == old(self)@.claimed.contains(store_id@),
            journal::carries(old(self)@, final(self)@),
    {
        let ghost before = *self;
        let duplicate = self.claimed.contains(store_id);
        if !duplicate {
            self.claimed.insert(store_id.copy());
        }
        proof {
            self.aside(before);
            assert(self@.claimed =~= before@.claimed.insert(store_id@));
            assert(self@ =~= before@.claim(store_id@));
        }
        duplicate
    }

    /// Claims a stream for this op; `true` when it was claimed already.
    pub(crate) fn claim_stream(&mut self, key: &StreamKey) -> (duplicate: bool)
        requires
            old(self).wf(),
        ensures
            final(self).wf(),
            final(self)@ == old(self)@.claim_stream(key.label()),
            duplicate == old(self)@.claimed_streams.contains(key.label()),
            journal::carries(old(self)@, final(self)@),
    {
        let ghost before = *self;
        let duplicate = self.claimed_streams.contains(key);
        if !duplicate {
            self.claimed_streams.insert(key.copy_label());
        }
        proof {
            self.aside(before);
            assert(self@.claimed_streams =~= before@.claimed_streams.insert(key.label()));
            assert(self@ =~= before@.claim_stream(key.label()));
        }
        duplicate
    }

    /// Drops the claims of the op before.
    pub(crate) fn unclaim(&mut self)
        requires
            old(self).wf(),
        ensures
            final(self).wf(),
            final(self)@ == old(self)@.unclaim(),
            journal::carries(old(self)@, final(self)@),
    {
        let ghost before = *self;
        self.claimed = Labels::new();
        self.claimed_streams = Labels::new();
        proof {
            self.aside(before);
            assert(self@ =~= before@.unclaim());
        }
    }

    /// Claims the ids of the store nodes among `list`, so nothing later in the
    /// same op adopts one out from under a position that is keeping it.
    pub(crate) fn claim_stores(&mut self, list: &Vec<NodeId>)
        requires
            old(self).wf(),
        ensures
            final(self).wf(),
            final(self)@ == old(self)@.claim_stores(list@, 0),
            journal::carries(old(self)@, final(self)@),
    {
        proof {
            self.sound();
        }
        let mut i: usize = 0;
        while i < list.len()
            invariant
                i <= list@.len(),
                self.wf(),
                journal::carries(old(self)@, self@),
                self@.claim_stores(list@, i as int) == old(self)@.claim_stores(list@, 0),
            decreases list.len() - i,
        {
            let mut store: Option<StoreId> = None;
            if let Some(data) = self.get(list[i]) {
                if let NodeKind::Store { store_id, .. } = &data.kind {
                    store = Some(store_id.copy());
                }
            }
            if let Some(store_id) = store {
                let _ = self.claim(&store_id);
            }
            i = i + 1;
        }
    }

    // --------------------------------------------------------------- leaving

    /// Files a node as detached; `false` when it was already.
    pub(crate) fn mark_pending(&mut self, id: NodeId) -> (filed: bool)
        requires
            old(self).wf(),
        ensures
            final(self).wf(),
            final(self)@ == old(self)@.file_pending(id),
            filed == !old(self)@.is_pending.contains(id),
            journal::carries(old(self)@, final(self)@),
    {
        let ghost before = *self;
        if self.pending_set.contains(id) {
            proof {
                self.sound();
            }
            return false;
        }
        let _ = self.pending_set.insert(id);
        self.pending.push(id);
        proof {
            self.aside(before);
            assert(self@ =~= before@.file_pending(id));
        }
        true
    }

    /// Detaches one node from the tree and files it for freeing at commit.
    pub(crate) fn release(&mut self, id: NodeId)
        requires
            old(self).wf(),
        ensures
            final(self).wf(),
            final(self)@ == old(self)@.release(id),
            journal::carries(old(self)@, final(self)@),
    {
        if self.mark_pending(id) {
            self.touch(id);
            self.put_parent(id, None);
        }
    }

    /// Releases a child unless something else in this transaction adopted it.
    pub(crate) fn release_if_still_mine(&mut self, parent: NodeId, child: NodeId)
        requires
            old(self).wf(),
        ensures
            final(self).wf(),
            final(self)@ == old(self)@.release_if_mine(parent, child),
            journal::carries(old(self)@, final(self)@),
    {
        proof {
            self.sound();
        }
        if self.parent_of(child) == Some(parent) {
            self.release(child);
        }
    }

    /// Releases every child a rebuild displaced.
    pub(crate) fn release_displaced(&mut self, parent: NodeId, list: &Vec<NodeId>, kept: &NodeSet)
        requires
            old(self).wf(),
        ensures
            final(self).wf(),
            final(self)@ == old(self)@.release_displaced(parent, list@, kept@, 0),
            journal::carries(old(self)@, final(self)@),
    {
        proof {
            self.sound();
        }
        let mut i: usize = 0;
        while i < list.len()
            invariant
                i <= list@.len(),
                self.wf(),
                journal::carries(old(self)@, self@),
                self@.release_displaced(parent, list@, kept@, i as int)
                    == old(self)@.release_displaced(parent, list@, kept@, 0),
            decreases list.len() - i,
        {
            if !kept.contains(list[i]) {
                self.release_if_still_mine(parent, list[i]);
            }
            i = i + 1;
        }
    }

    /// Releases every node of a list.
    pub(crate) fn release_each(&mut self, list: &Vec<NodeId>)
        requires
            old(self).wf(),
        ensures
            final(self).wf(),
            final(self)@ == old(self)@.release_each(list@, 0),
            journal::carries(old(self)@, final(self)@),
    {
        proof {
            self.sound();
        }
        let mut i: usize = 0;
        while i < list.len()
            invariant
                i <= list@.len(),
                self.wf(),
                journal::carries(old(self)@, self@),
                self@.release_each(list@, i as int) == old(self)@.release_each(list@, 0),
            decreases list.len() - i,
        {
            self.release(list[i]);
            i = i + 1;
        }
    }

    /// Un-files a node an adoption claimed back.
    pub(crate) fn unpend(&mut self, id: NodeId)
        requires
            old(self).wf(),
        ensures
            final(self).wf(),
            final(self)@ == old(self)@.unpend(id),
            journal::carries(old(self)@, final(self)@),
    {
        let ghost before = *self;
        self.pending_set.remove(id);
        self.carry.drop_node(id);
        proof {
            self.aside(before);
            assert(self@ =~= before@.unpend(id));
        }
    }

    /// Detaches one row and files it under the carry-over table.
    pub(crate) fn carry_out(&mut self, collection: NodeId, item_key: &String, row: NodeId)
        requires
            old(self).wf(),
        ensures
            final(self).wf(),
            final(self)@ == old(self)@.carry_out(collection, item_key@, row),
            journal::carries(old(self)@, final(self)@),
    {
        self.touch(row);
        self.put_parent(row, None);
        let ghost first = *self;
        let displaced = self.carry.insert(
            RowKey { collection, item_key: item_key.clone() },
            row,
        );
        proof {
            self.aside(first);
            assert(self@ =~= (Tx {
                carry: first@.carry.insert((collection, item_key@), row),
                ..first@
            }));
        }
        if let Some(older) = displaced {
            let _ = self.mark_pending(older);
        }
        let ghost second = *self;
        self.carry_order.push(RowKey { collection, item_key: item_key.clone() });
        proof {
            self.aside(second);
            assert(self@.carry_order =~= second@.carry_order.push((collection, item_key@)));
            assert(self@ =~= (Tx {
                carry_order: second@.carry_order.push((collection, item_key@)),
                ..second@
            }));
        }
    }

    /// A transaction on an arena, that has done nothing yet.
    pub(crate) fn on(arena: Arena) -> (open: Transaction)
        requires
            arena.wf(),
        ensures
            open.wf(),
            open@ == journal::opened(arena@),
    {
        let open = Transaction {
            arena,
            touched: Vec::new(),
            touched_set: NodeSet::new(),
            allocated: Vec::new(),
            undo: Vec::new(),
            pending: Vec::new(),
            pending_set: NodeSet::new(),
            carry: Table::new(),
            carry_order: Vec::new(),
            edits: Vec::new(),
            settle: NodeValues::new(),
            settle_order: Vec::new(),
            closing: false,
            claimed: Labels::new(),
            claimed_streams: Labels::new(),
        };
        proof {
            assert(open@ =~= journal::opened(arena@));
            journal::before_opened(arena@);
            assert forall|id: NodeId| #[trigger] open.touched_set@.contains(id)
                <==> open@.touched_has(id) by {}
        }
        open
    }

    /// The row that left with this key.
    pub(crate) fn carried(&self, key: &RowKey) -> (row: Option<NodeId>)
        requires
            self.wf(),
        ensures
            row == self@.carry.get(key.label()),
    {
        self.carry.get(key)
    }

    /// Takes a row out of the carry-over table.
    pub(crate) fn uncarry(&mut self, key: &RowKey)
        requires
            old(self).wf(),
        ensures
            final(self).wf(),
            final(self)@ == (Tx { carry: old(self)@.carry.remove(key.label()), ..old(self)@ }),
            journal::carries(old(self)@, final(self)@),
    {
        let ghost before = *self;
        let _ = self.carry.remove(key);
        proof {
            self.aside(before);
            assert(self@ =~= (Tx { carry: before@.carry.remove(key.label()), ..before@ }));
        }
    }

    /// Ends the tree, where it has not ended.
    pub(crate) fn end(&mut self)
        requires
            old(self).wf(),
        ensures
            final(self).wf(),
            final(self)@ == (if old(self)@.closed {
                old(self)@
            } else {
                Tx { closing: true, closed: true, ..old(self)@ }
            }),
            journal::carries(old(self)@, final(self)@),
    {
        proof {
            self.sound();
            self.arena.unfold();
        }
        if !self.arena.closed {
            let ghost before = *self;
            self.closing = true;
            self.arena.closed = true;
            proof {
                self.arena.unfold();
                assert(self@ =~= (Tx { closing: true, closed: true, ..before@ }));
                journal::carries_close(before@);
                self.indexed(before);
            }
        }
    }
}

} // verus!
