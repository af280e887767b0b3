//! What a transaction does to the tree, as a function from state to state.
//!
//! Every step is written over [`Tx`], the tree together with what the open
//! transaction has recorded. Fresh node ids come from a list, `ids`: the n-th
//! node a transaction allocates is `ids[n]`, so that a step is a function of
//! what it is given.

use vstd::prelude::*;

use crate::state::change::Edit;
use crate::state::error::Fault;
use crate::state::keyed;
use crate::state::marker;
use crate::state::marker::{
    Form, ASYNC_REASON_KEY, ASYNC_RESULT_KEY, ASYNC_STATUS_KEY, STORE_ID_KEY,
};
use crate::state::node;
use crate::state::node::{AsyncStatus, Kind, NodeId, Sem};
use crate::state::pointer;
use crate::state::pointer::ArrayIndex;
use crate::state::slots;
use crate::state::slots::{Entry, MAX_NODES};
use crate::state::table;
use crate::state::text::Chars;
use crate::state::value;
use crate::state::value::Json;
use crate::state::wire::{PatchOp, Path, StreamOp};

verus! {

/// How many levels a node may sit below the root.
pub const MAX_DEPTH: usize = 256;

/// How many nodes a walk up from a node can meet: itself, its ancestors, and
/// one more before the walk gives up.
pub const MAX_WALK: usize = 258;

/// No such key in an object.
pub const NO_SUCH_KEY: &'static str = "no such key";

/// An async node's children have two names.
pub const ASYNC_CHILDREN: &'static str =
    "an async node has only `result` and `reason` as children";

/// Stream items have no pointer.
pub const STREAM_ITEMS: &'static str = "stream items are not pointer-addressable (§3.1)";

/// A scalar has no children.
pub const INTO_SCALAR: &'static str = "cannot descend into a scalar";

/// What an async status may be.
pub const BAD_STATUS: &'static str =
    "an async node's status must be one of loading, ok or failed";

/// Where an `add` may go.
pub const BAD_ADD: &'static str = "the parent is not a container an `add` can address";

/// Where a `remove` may go.
pub const BAD_REMOVE: &'static str = "the parent is not a container a `remove` can address";

/// The root stays.
pub const REMOVE_ROOT: &'static str = "the document root cannot be removed";

/// What carries a store id.
pub const NO_STORE_ID: &'static str = "only an object or a child store carries a store id";

/// What a store id is.
pub const BAD_STORE_ID: &'static str = "a store id is an array of strings";

/// What one node looked like before the transaction first touched it.
pub struct Before {
    pub id: NodeId,
    pub parent: Option<NodeId>,
    pub kind: Kind,
    pub revision: u64,
    pub sem: Sem,
}

/// One index mutation, and the value it displaced.
pub enum Undo {
    Store(Path, Option<NodeId>),
    Stream((Path, Chars), Option<NodeId>),
}

/// The tree, and what the open transaction has recorded.
#[verifier::ext_equal]
pub struct Tx {
    /// The nodes.
    pub nodes: Map<NodeId, Entry>,
    /// The root.
    pub root: NodeId,
    /// Which node each store id resolves to.
    pub stores: Map<Path, NodeId>,
    /// Which node each stream resolves to.
    pub streams: Map<(Path, Chars), NodeId>,
    /// Whether the tree has ended.
    pub closed: bool,
    /// The next subscriber's number.
    pub next_subscriber: u64,
    /// What the nodes that were written looked like before.
    pub touched: Seq<Before>,
    /// The nodes that were made, in order.
    pub allocated: Seq<NodeId>,
    /// What the index mutations displaced.
    pub undo: Seq<Undo>,
    /// The nodes that were detached, in order.
    pub pending: Seq<NodeId>,
    /// Which of them still are.
    pub is_pending: Set<NodeId>,
    /// The rows that left a collection, and that an insert may claim back.
    pub carry: Map<(NodeId, Chars), NodeId>,
    /// The order in which rows left.
    pub carry_order: Seq<(NodeId, Chars)>,
    /// The edits of all collections, in order.
    pub edits: Seq<(NodeId, Edit)>,
    /// The dirty nodes, each with the value it had when it was first reached.
    pub settle: Map<NodeId, Sem>,
    /// The dirty nodes, in the order they were reached.
    pub settle_order: Seq<NodeId>,
    /// Whether this transaction ended the tree.
    pub closing: bool,
    /// The store ids this op has placed.
    pub claimed: Set<Path>,
    /// The streams this op has placed.
    pub claimed_streams: Set<(Path, Chars)>,
}

/// What a step that may fail leaves.
pub type Outcome<T> = (Tx, Result<T, Fault>);

/// One level further down; past the cap it no longer matters how far.
pub open spec fn deeper(depth: nat) -> nat {
    if depth > MAX_DEPTH {
        depth
    } else {
        depth + 1
    }
}

/// Where a node first is in a list, or the length when it is not there.
pub open spec fn node_index(list: Seq<NodeId>, id: NodeId) -> nat
    decreases list.len(),
{
    if list.len() == 0 {
        0
    } else if list[0] == id {
        0
    } else {
        1 + node_index(list.drop_first(), id)
    }
}

/// A list with one position rewritten, where it has that position.
pub open spec fn set_at(list: Seq<NodeId>, at: int, id: NodeId) -> Seq<NodeId> {
    if 0 <= at < list.len() {
        list.update(at, id)
    } else {
        list
    }
}

/// A node nobody has filled yet. It was made by a transaction, so its revision
/// is not `0`.
pub open spec fn fresh_entry(parent: Option<NodeId>) -> Entry {
    Entry { parent, kind: Kind::Null, revision: 1, sem: Sem::Null, subs: Seq::empty() }
}

/// A kind with the child at one position replaced.
pub open spec fn with_kid(kind: Kind, at: int, kid: NodeId) -> Kind {
    match kind {
        Kind::Array(items) => Kind::Array(items.update(at, kid)),
        Kind::Object(fields) => Kind::Object(fields.update(at, (fields[at].0, kid))),
        Kind::Store { id, fields } => Kind::Store { id, fields: fields.update(at, (fields[at].0, kid)) },
        Kind::Collection { name, owner, items } => Kind::Collection {
            name,
            owner,
            items: items.update(at, (items[at].0, kid)),
        },
        Kind::Async { status, result, reason } => if at == 0 {
            Kind::Async { status, result: kid, reason }
        } else {
            Kind::Async { status, result, reason: kid }
        },
        _ => kind,
    }
}

/// One node's name for another: what `a` becomes when `x` and `y` swap.
pub open spec fn swapped(a: NodeId, x: NodeId, y: NodeId) -> NodeId {
    if a == x {
        y
    } else if a == y {
        x
    } else {
        a
    }
}

/// Keyed children with `x` and `y` swapped.
pub open spec fn swap_links(list: Seq<(Chars, NodeId)>, x: NodeId, y: NodeId) -> Seq<
    (Chars, NodeId),
> {
    Seq::new(list.len(), |i: int| (list[i].0, swapped(list[i].1, x, y)))
}

/// A kind with two children swapped.
pub open spec fn swap_kids(kind: Kind, x: NodeId, y: NodeId) -> Kind {
    match kind {
        Kind::Array(items) => Kind::Array(Seq::new(items.len(), |i: int| swapped(items[i], x, y))),
        Kind::Object(fields) => Kind::Object(swap_links(fields, x, y)),
        Kind::Store { id, fields } => Kind::Store { id, fields: swap_links(fields, x, y) },
        Kind::Collection { name, owner, items } => Kind::Collection {
            name,
            owner,
            items: swap_links(items, x, y),
        },
        Kind::Async { status, result, reason } => Kind::Async {
            status,
            result: swapped(result, x, y),
            reason: swapped(reason, x, y),
        },
        _ => kind,
    }
}

impl Tx {
    /// Whether a node exists.
    pub open spec fn live(self, id: NodeId) -> bool {
        self.nodes.contains_key(id)
    }

    /// What a node is.
    pub open spec fn kind(self, id: NodeId) -> Kind {
        self.nodes[id].kind
    }

    /// A node's parent, if it has one.
    pub open spec fn parent_of(self, id: NodeId) -> Option<NodeId> {
        if self.live(id) {
            self.nodes[id].parent
        } else {
            None
        }
    }

    /// A node's children.
    pub open spec fn kids(self, id: NodeId) -> Seq<NodeId> {
        if self.live(id) {
            self.kind(id).kids()
        } else {
            Seq::empty()
        }
    }

    /// A node's keyed children, where it is an object or a store.
    pub open spec fn fields(self, id: NodeId) -> Option<Seq<(Chars, NodeId)>> {
        if self.live(id) {
            self.kind(id).fields()
        } else {
            None
        }
    }

    /// A node's keyed children, none where it is no object or store.
    pub open spec fn links(self, id: NodeId) -> Seq<(Chars, NodeId)> {
        match self.fields(id) {
            Some(list) => list,
            None => Seq::empty(),
        }
    }

    /// A node's rows, where it is a collection.
    pub open spec fn rows(self, id: NodeId) -> Seq<(Chars, NodeId)> {
        if self.live(id) {
            match self.kind(id) {
                Kind::Collection { items, .. } => items,
                _ => Seq::empty(),
            }
        } else {
            Seq::empty()
        }
    }

    /// A node's value, out of its children's cached ones.
    pub open spec fn shallow(self, id: NodeId) -> Sem {
        shallow_value(self.nodes, id)
    }

    // ------------------------------------------------------------- recording

    /// Whether what a node looked like before is on record.
    pub open spec fn touched_has(self, id: NodeId) -> bool {
        exists|i: int| 0 <= i < self.touched.len() && (#[trigger] self.touched[i]).id == id
    }

    /// Records what a node looks like, the first time it is about to change.
    pub open spec fn touch(self, id: NodeId) -> Tx {
        if self.touched_has(id) || !self.live(id) {
            self
        } else {
            let entry = self.nodes[id];
            Tx {
                touched: self.touched.push(
                    Before {
                        id,
                        parent: entry.parent,
                        kind: entry.kind,
                        revision: entry.revision,
                        sem: entry.sem,
                    },
                ),
                ..self
            }
        }
    }

    /// Puts one node among the dirty ones, with the value it has now.
    pub open spec fn note_dirty(self, id: NodeId) -> Tx {
        if self.settle.contains_key(id) {
            self
        } else {
            Tx {
                settle: self.settle.insert(id, self.nodes[id].sem),
                settle_order: self.settle_order.push(id),
                ..self
            }
        }
    }

    /// Puts a node and every ancestor of it among the dirty ones.
    pub open spec fn dirty_up(self, cursor: Option<NodeId>, walk: nat) -> Tx
        decreases walk,
    {
        match cursor {
            Some(id) => if walk == 0 || !self.live(id) {
                self
            } else {
                self.note_dirty(id).dirty_up(self.nodes[id].parent, (walk - 1) as nat)
            },
            None => self,
        }
    }

    /// Puts a node and every ancestor of it among the dirty ones.
    pub open spec fn mark_dirty(self, id: NodeId) -> Tx {
        self.dirty_up(Some(id), MAX_WALK as nat)
    }

    /// Records a node and dirties it.
    pub open spec fn touch_dirty(self, id: NodeId) -> Tx {
        self.touch(id).mark_dirty(id)
    }

    /// Logs one edit of a collection.
    pub open spec fn log_edit(self, id: NodeId, edit: Edit) -> Tx {
        Tx { edits: self.edits.push((id, edit)), ..self }
    }

    /// Records that a collection is about to lose its rows, all at once.
    pub open spec fn log_loss(self, id: NodeId) -> Tx {
        if self.live(id) && self.kind(id) is Collection {
            self.log_edit(id, Edit::Reset)
        } else {
            self
        }
    }

    // --------------------------------------------------------------- writing

    /// Rewrites a node's kind.
    pub open spec fn put_kind(self, id: NodeId, kind: Kind) -> Tx {
        Tx { nodes: slots::with_kind(self.nodes, id, kind), ..self }
    }

    /// Rewrites a node's parent.
    pub open spec fn put_parent(self, id: NodeId, parent: Option<NodeId>) -> Tx {
        Tx { nodes: slots::with_parent(self.nodes, id, parent), ..self }
    }

    /// Rewrites a node's cached value.
    pub open spec fn put_sem(self, id: NodeId, sem: Sem) -> Tx {
        Tx { nodes: slots::with_sem(self.nodes, id, sem), ..self }
    }

    /// Makes a node that is nobody's value yet.
    pub open spec fn make(self, parent: Option<NodeId>, ids: Seq<NodeId>) -> Outcome<NodeId> {
        if self.nodes.dom().len() >= MAX_NODES {
            (self, Err(Fault::Full))
        } else {
            let id = ids[self.allocated.len() as int];
            (
                Tx {
                    nodes: self.nodes.insert(id, fresh_entry(parent)),
                    allocated: self.allocated.push(id),
                    ..self
                },
                Ok(id),
            )
        }
    }

    /// Points a store id at a node, or at none.
    pub open spec fn set_store(self, path: Path, node: Option<NodeId>) -> Tx {
        Tx {
            stores: match node {
                Some(id) => self.stores.insert(path, id),
                None => self.stores.remove(path),
            },
            undo: self.undo.push(Undo::Store(path, self.stores.get(path))),
            ..self
        }
    }

    /// Points a stream at a node, or at none.
    pub open spec fn set_stream(self, key: (Path, Chars), node: Option<NodeId>) -> Tx {
        Tx {
            streams: match node {
                Some(id) => self.streams.insert(key, id),
                None => self.streams.remove(key),
            },
            undo: self.undo.push(Undo::Stream(key, self.streams.get(key))),
            ..self
        }
    }

    /// Drops the index entries of a node that is about to stop being what it
    /// was.
    pub open spec fn unregister(self, id: NodeId) -> Tx {
        if !self.live(id) {
            self
        } else {
            match self.kind(id) {
                Kind::Store { id: path, .. } => if self.stores.get(path) == Some(id) {
                    self.set_store(path, None)
                } else {
                    self
                },
                Kind::Collection { name, owner, .. } => if self.streams.get((owner, name)) == Some(
                    id,
                ) {
                    self.set_stream((owner, name), None)
                } else {
                    self
                },
                _ => self,
            }
        }
    }

    /// Claims a store id for this op.
    pub open spec fn claim(self, path: Path) -> Tx {
        Tx { claimed: self.claimed.insert(path), ..self }
    }

    /// Claims a stream for this op.
    pub open spec fn claim_stream(self, key: (Path, Chars)) -> Tx {
        Tx { claimed_streams: self.claimed_streams.insert(key), ..self }
    }

    /// Drops the claims of the op before.
    pub open spec fn unclaim(self) -> Tx {
        Tx { claimed: Set::empty(), claimed_streams: Set::empty(), ..self }
    }

    /// Claims the ids of the stores among `list`, from `i` on.
    pub open spec fn claim_stores(self, list: Seq<NodeId>, i: int) -> Tx
        decreases list.len() - i,
    {
        if i < 0 || i >= list.len() {
            self
        } else if self.live(list[i]) {
            match self.kind(list[i]) {
                Kind::Store { id: path, .. } => self.claim(path).claim_stores(list, i + 1),
                _ => self.claim_stores(list, i + 1),
            }
        } else {
            self.claim_stores(list, i + 1)
        }
    }

    // --------------------------------------------------------------- leaving

    /// Files a node as detached.
    pub open spec fn file_pending(self, id: NodeId) -> Tx {
        if self.is_pending.contains(id) {
            self
        } else {
            Tx { pending: self.pending.push(id), is_pending: self.is_pending.insert(id), ..self }
        }
    }

    /// Detaches a node, to be freed at commit.
    pub open spec fn release(self, id: NodeId) -> Tx {
        if self.is_pending.contains(id) {
            self
        } else {
            self.file_pending(id).touch(id).put_parent(id, None)
        }
    }

    /// Detaches a child, unless something else has taken it.
    pub open spec fn release_if_mine(self, parent: NodeId, child: NodeId) -> Tx {
        if self.parent_of(child) == Some(parent) {
            self.release(child)
        } else {
            self
        }
    }

    /// Detaches the nodes of `list`, from `i` on, that are not kept and that
    /// nothing else has taken.
    pub open spec fn release_displaced(
        self,
        parent: NodeId,
        list: Seq<NodeId>,
        kept: Set<NodeId>,
        i: int,
    ) -> Tx
        decreases list.len() - i,
    {
        if i < 0 || i >= list.len() {
            self
        } else if kept.contains(list[i]) {
            self.release_displaced(parent, list, kept, i + 1)
        } else {
            self.release_if_mine(parent, list[i]).release_displaced(parent, list, kept, i + 1)
        }
    }

    /// Detaches every node of `list`, from `i` on.
    pub open spec fn release_each(self, list: Seq<NodeId>, i: int) -> Tx
        decreases list.len() - i,
    {
        if i < 0 || i >= list.len() {
            self
        } else {
            self.release(list[i]).release_each(list, i + 1)
        }
    }

    /// Un-files a node that was claimed back.
    pub open spec fn unpend(self, id: NodeId) -> Tx {
        Tx {
            is_pending: self.is_pending.remove(id),
            carry: table::without_node(self.carry, id),
            ..self
        }
    }

    /// Detaches a row, keeping it for an insert of the same key.
    pub open spec fn carry_out(self, collection: NodeId, key: Chars, row: NodeId) -> Tx {
        let s = self.touch(row).put_parent(row, None);
        let name = (collection, key);
        let filed = Tx { carry: s.carry.insert(name, row), ..s };
        let settled = match s.carry.get(name) {
            Some(older) => filed.file_pending(older),
            None => filed,
        };
        Tx { carry_order: settled.carry_order.push(name), ..settled }
    }

    // -------------------------------------------------------------- questions

    /// Whether a node is the store with this id.
    pub open spec fn is_store(self, id: NodeId, path: Path) -> bool {
        self.live(id) && (self.kind(id) matches Kind::Store { id: held, .. } && held == path)
    }

    /// Whether a node is a store.
    pub open spec fn is_store_node(self, id: NodeId) -> bool {
        self.live(id) && self.kind(id) is Store
    }

    /// Whether a node is a stream slot of this name.
    pub open spec fn is_collection(self, id: NodeId, name: Chars) -> bool {
        self.live(id) && (self.kind(id) matches Kind::Collection { name: held, .. } && held == name)
    }

    /// The stream a stream slot holds.
    pub open spec fn stream_of(self, id: NodeId) -> (Path, Chars) {
        (self.kind(id)->Collection_owner, self.kind(id)->Collection_name)
    }

    /// Whether `id` is met on the way up from `cursor`. A walk that is too long
    /// counts as having met it.
    pub open spec fn met_above(self, id: NodeId, cursor: Option<NodeId>, walk: nat) -> bool
        decreases walk,
    {
        match cursor {
            Some(current) => if current == id {
                true
            } else if walk <= 1 {
                true
            } else {
                self.met_above(id, self.parent_of(current), (walk - 1) as nat)
            },
            None => false,
        }
    }

    /// Whether `id` is `below` itself, or one of its ancestors.
    pub open spec fn is_ancestor(self, id: NodeId, below: NodeId) -> bool {
        self.met_above(id, Some(below), MAX_WALK as nat)
    }

    /// Whether the way up from `cursor` reaches the root.
    pub open spec fn reaches_root(self, cursor: Option<NodeId>, walk: nat) -> bool
        decreases walk,
    {
        match cursor {
            Some(current) => if current == self.root {
                true
            } else if walk <= 1 {
                false
            } else {
                self.reaches_root(self.parent_of(current), (walk - 1) as nat)
            },
            None => false,
        }
    }

    /// Whether a node is in the tree, rather than detached from it.
    pub open spec fn attached(self, id: NodeId) -> bool {
        self.reaches_root(Some(id), MAX_WALK as nat)
    }

    /// Whether a subtree is at most `room` levels tall.
    pub open spec fn fits(self, id: NodeId, room: nat) -> bool
        decreases room,
    {
        if room == 0 {
            self.kids(id).len() == 0
        } else {
            forall|i: int|
                0 <= i < self.kids(id).len() ==> self.fits(
                    #[trigger] self.kids(id)[i],
                    (room - 1) as nat,
                )
        }
    }

    /// Whether a subtree may hang at `depth` without passing the cap.
    pub open spec fn fits_at(self, id: NodeId, depth: nat) -> bool {
        depth <= MAX_DEPTH && self.fits(id, (MAX_DEPTH - depth) as nat)
    }

    /// How many ancestors a node has.
    pub open spec fn height_above(self, cursor: Option<NodeId>, walk: nat) -> nat
        decreases walk,
    {
        match cursor {
            Some(current) => if walk == 0 {
                0
            } else {
                match self.parent_of(current) {
                    Some(up) => 1 + self.height_above(Some(up), (walk - 1) as nat),
                    None => 0,
                }
            },
            None => 0,
        }
    }

    /// How deep a node sits below its root.
    pub open spec fn depth(self, id: NodeId) -> nat {
        self.height_above(Some(id), MAX_WALK as nat)
    }

    /// The nearest store on the way up from `cursor`.
    pub open spec fn store_above(self, cursor: Option<NodeId>, walk: nat) -> Path
        decreases walk,
    {
        match cursor {
            Some(current) => if walk == 0 || !self.live(current) {
                Seq::empty()
            } else {
                match self.kind(current) {
                    Kind::Store { id, .. } => id,
                    _ => self.store_above(self.nodes[current].parent, (walk - 1) as nat),
                }
            },
            None => Seq::empty(),
        }
    }

    /// The nearest enclosing store of a node's children.
    pub open spec fn owner_of(self, id: NodeId) -> Path {
        self.store_above(Some(id), MAX_WALK as nat)
    }

    /// The node a position may be reconciled into: the one that was there, unless
    /// something else has taken it.
    pub open spec fn unclaimed(
        self,
        parent: NodeId,
        candidate: Option<NodeId>,
        placed: Seq<NodeId>,
    ) -> Option<NodeId> {
        match candidate {
            Some(id) => if self.parent_of(id) == Some(parent) && !placed.contains(id) {
                Some(id)
            } else {
                None
            },
            None => None,
        }
    }

    // ----------------------------------------------------------------- moving

    /// Takes one child out of its parent. The slot it leaves keeps a fresh null
    /// node, except in a collection, where the row is gone and the removal is
    /// an edit.
    pub open spec fn detach(self, parent: NodeId, child: NodeId, ids: Seq<NodeId>) -> Outcome<()> {
        if !self.live(parent) {
            (self, Ok(()))
        } else {
            let s = self.touch_dirty(parent);
            let kind = s.kind(parent);
            let at = node_index(kind.kids(), child);
            if at >= kind.kids().len() {
                (s, Ok(()))
            } else {
                match kind {
                    Kind::Collection { name, owner, items } => (
                        s.put_kind(
                            parent,
                            Kind::Collection { name, owner, items: items.remove(at as int) },
                        ).log_edit(parent, Edit::Removed { key: items[at as int].0, index: at }),
                        Ok(()),
                    ),
                    _ => {
                        let (t, filler) = s.make(Some(parent), ids);
                        match filler {
                            Ok(kid) => (t.put_kind(parent, with_kid(kind, at as int, kid)), Ok(())),
                            Err(fault) => (t, Err(fault)),
                        }
                    },
                }
            }
        }
    }

    /// Re-parents an existing node, resurrecting it where this transaction had
    /// detached it.
    pub open spec fn adopt(self, parent: NodeId, id: NodeId, ids: Seq<NodeId>) -> Outcome<()> {
        let s = self.touch(id).unpend(id);
        let (t, left) = match s.parent_of(id) {
            Some(up) => s.detach(up, id, ids),
            None => (s, Ok(())),
        };
        match left {
            Ok(_) => (t.put_parent(id, Some(parent)).mark_dirty(parent), Ok(())),
            Err(fault) => (t, Err(fault)),
        }
    }

    /// The store that may be adopted under `parent` for `path`.
    pub open spec fn adoptable_store(
        self,
        parent: NodeId,
        existing: Option<NodeId>,
        path: Path,
    ) -> Option<NodeId> {
        match self.stores.get(path) {
            Some(found) => if Some(found) != existing && found != self.root && self.is_store(
                found,
                path,
            ) && !self.is_ancestor(found, parent) {
                Some(found)
            } else {
                None
            },
            None => None,
        }
    }

    /// The collection that may be adopted under `parent` for a stream.
    pub open spec fn adoptable_stream(
        self,
        parent: NodeId,
        existing: Option<NodeId>,
        key: (Path, Chars),
    ) -> Option<NodeId> {
        match self.streams.get(key) {
            Some(found) => if Some(found) != existing && found != self.root && self.is_collection(
                found,
                key.1,
            ) && self.parent_of(found) != Some(parent) && !self.is_ancestor(found, parent) {
                Some(found)
            } else {
                None
            },
            None => None,
        }
    }

    /// Re-parents each node of `list`, from `i` on.
    pub open spec fn rehome(self, list: Seq<NodeId>, parent: NodeId, i: int) -> Tx
        decreases list.len() - i,
    {
        if i < 0 || i >= list.len() {
            self
        } else {
            self.touch(list[i]).put_parent(list[i], Some(parent)).rehome(list, parent, i + 1)
        }
    }

    /// Swaps two children wherever `up` holds them.
    pub open spec fn swap_under(self, up: NodeId, x: NodeId, y: NodeId) -> Tx {
        if self.live(up) {
            self.touch(up).put_kind(up, swap_kids(self.kind(up), x, y))
        } else {
            self
        }
    }

    /// The copy that took a store's id, where the two can exchange places.
    pub open spec fn copy_of(self, id: NodeId) -> Option<NodeId> {
        if !self.live(id) {
            None
        } else {
            match self.kind(id) {
                Kind::Store { id: path, .. } => match self.stores.get(path) {
                    Some(copy) => if copy != id && self.is_store(copy, path) && self.attached(copy)
                        && self.attached(id) && !self.is_ancestor(id, copy) && !self.is_ancestor(
                        copy,
                        id,
                    ) && self.parent_of(id) is Some && self.parent_of(copy) is Some {
                        Some(copy)
                    } else {
                        None
                    },
                    None => None,
                },
                _ => None,
            }
        }
    }

    /// Exchanges the places of two nodes of one store id: each takes the other's
    /// slot, children and value, and the id resolves to `id` again.
    pub open spec fn exchange(self, id: NodeId, copy: NodeId, path: Path) -> Tx {
        let mine = self.kind(id);
        let theirs = self.kind(copy);
        let up = self.nodes[id].parent->0;
        let other = self.nodes[copy].parent->0;
        let s = self.touch(id).touch(copy).rehome(mine.kids(), copy, 0).rehome(
            theirs.kids(),
            id,
            0,
        ).put_kind(id, theirs).put_kind(copy, mine);
        let t = if up == other {
            s.swap_under(up, id, copy)
        } else {
            s.swap_under(up, id, copy).swap_under(other, id, copy)
        };
        t.put_parent(id, Some(other)).put_parent(copy, Some(up)).mark_dirty(id).mark_dirty(
            copy,
        ).set_store(path, Some(id))
    }

    /// What a slot gives up before it is rewritten with a value that is no
    /// store: where a copy elsewhere has taken the id of the store that stands
    /// in it, the two exchange places. Yields the node that is in the slot then.
    pub open spec fn yield_identity(self, id: NodeId, v: Json) -> (Tx, NodeId) {
        if marker::form_of(v) is Store {
            (self, id)
        } else {
            match self.copy_of(id) {
                Some(copy) => (self.exchange(id, copy, self.kind(id)->Store_id), copy),
                None => (self, id),
            }
        }
    }
}

/// A node's value, out of its children's cached ones.
pub open spec fn shallow_value(nodes: Map<NodeId, Entry>, id: NodeId) -> Sem {
    if nodes.contains_key(id) {
        node::assembled(nodes[id].kind, cached(nodes, nodes[id].kind.kids()))
    } else {
        Sem::Null
    }
}

/// The cached values of a list of nodes.
pub open spec fn cached(nodes: Map<NodeId, Entry>, list: Seq<NodeId>) -> Seq<Sem> {
    Seq::new(
        list.len(),
        |i: int|
            if nodes.contains_key(list[i]) {
                nodes[list[i]].sem
            } else {
                Sem::Null
            },
    )
}

/// A subtree's value, out of the kinds alone, down to `levels` levels.
pub open spec fn deep_value(nodes: Map<NodeId, Entry>, id: NodeId, levels: nat) -> Sem
    decreases levels, 0int,
{
    if levels == 0 || !nodes.contains_key(id) {
        Sem::Null
    } else {
        node::assembled(
            nodes[id].kind,
            deep_values(nodes, nodes[id].kind.kids(), (levels - 1) as nat),
        )
    }
}

/// The values of a list of subtrees.
pub open spec fn deep_values(nodes: Map<NodeId, Entry>, list: Seq<NodeId>, levels: nat) -> Seq<Sem>
    decreases levels, 1int,
{
    Seq::new(list.len(), |i: int| deep_value(nodes, list[i], levels))
}

/// A subtree's value, out of the kinds alone.
pub open spec fn subtree_value(nodes: Map<NodeId, Entry>, id: NodeId) -> Sem {
    deep_value(nodes, id, MAX_WALK as nat)
}

// --------------------------------------------------------------- reconciling

/// Whether a node already is what a value calls for. A stream marker says
/// nothing of the items.
pub open spec fn unchanged(kind: Kind, form: Form) -> bool {
    match (kind, form) {
        (Kind::Null, Form::Null) => true,
        (Kind::Bool(old), Form::Bool(new)) => old == new,
        (Kind::Number(old), Form::Number(new)) => old.canon() == new.canon(),
        (Kind::Text(old), Form::Text(new)) => old == new,
        (Kind::Collection { name, .. }, Form::Collection { name: new }) => name == new,
        (Kind::Upload { name, .. }, Form::Upload { name: new }) => name == new,
        _ => false,
    }
}

/// The nesting of what a value's form holds.
pub proof fn form_nesting(v: Json)
    ensures
        marker::form_of(v) matches Form::Array(items) ==> nesting_of_items(items) == value::nesting(v),
        marker::form_of(v) matches Form::Object(fields) ==> nesting_of_fields(fields)
            == value::nesting(v),
        marker::form_of(v) matches Form::Store { fields, .. } ==> nesting_of_fields(fields)
            == value::nesting(v),
        marker::form_of(v) matches Form::Async { result, reason, .. } ==> value::nesting(result)
            < value::nesting(v) && value::nesting(reason) < value::nesting(v),
{
    if let Json::Object(fields) = v {
        keyed::key_index_meaning(fields, ASYNC_RESULT_KEY@);
        keyed::key_index_meaning(fields, ASYNC_REASON_KEY@);
        if keyed::has_key(fields, ASYNC_RESULT_KEY@) {
            value::field_nesting(fields, keyed::key_index(fields, ASYNC_RESULT_KEY@) as int);
        }
        if keyed::has_key(fields, ASYNC_REASON_KEY@) {
            value::field_nesting(fields, keyed::key_index(fields, ASYNC_REASON_KEY@) as int);
        }
    }
}

/// The nesting of an array of these items.
pub open spec fn nesting_of_items(items: Seq<Json>) -> nat {
    1 + value::items_nesting(items)
}

/// The nesting of an object of these fields.
pub open spec fn nesting_of_fields(fields: Seq<(Chars, Json)>) -> nat {
    1 + value::fields_nesting(fields)
}

/// Reconciles one child slot, honouring store identity over position. Yields the
/// node that now belongs in the slot.
pub open spec fn reconcile_child(
    s: Tx,
    parent: NodeId,
    existing: Option<NodeId>,
    v: Json,
    owner: Path,
    depth: nat,
    ids: Seq<NodeId>,
) -> Outcome<NodeId>
    decreases value::nesting(v), 5int, 0int,
{
    match marker::form_of(v) {
        Form::Store { id: path, .. } => {
            let duplicate = s.claimed.contains(path);
            let t = s.claim(path);
            if existing is Some && t.is_store(existing->0, path) {
                keep(existing->0, reconcile(t, existing->0, v, owner, depth, ids))
            } else if !duplicate && t.adoptable_store(parent, existing, path) is Some {
                let found = t.adoptable_store(parent, existing, path)->0;
                reconcile_adopted(t, parent, found, v, owner, depth, ids)
            } else {
                build(t, parent, v, owner, depth, ids)
            }
        },
        Form::Collection { name } => {
            let duplicate = s.claimed_streams.contains((owner, name));
            let t = s.claim_stream((owner, name));
            if existing is Some && t.is_collection(existing->0, name) {
                (t.claim_stream(t.stream_of(existing->0)), Ok(existing->0))
            } else if !duplicate && t.adoptable_stream(parent, existing, (owner, name)) is Some {
                let found = t.adoptable_stream(parent, existing, (owner, name))->0;
                reconcile_adopted(t, parent, found, v, owner, depth, ids)
            } else {
                reconcile_slot(t, parent, existing, v, owner, depth, ids)
            }
        },
        _ => reconcile_slot(s, parent, existing, v, owner, depth, ids),
    }
}

/// Adopts a node into a slot, and gives it its value there.
pub open spec fn reconcile_adopted(
    s: Tx,
    parent: NodeId,
    found: NodeId,
    v: Json,
    owner: Path,
    depth: nat,
    ids: Seq<NodeId>,
) -> Outcome<NodeId>
    decreases value::nesting(v), 4int, 1int,
{
    if !s.fits_at(found, depth) {
        (s, Err(Fault::Depth { limit: MAX_DEPTH as nat }))
    } else {
        let (t, moved) = s.adopt(parent, found, ids);
        match moved {
            Ok(_) => keep(found, reconcile(t, found, v, owner, depth, ids)),
            Err(fault) => (t, Err(fault)),
        }
    }
}

/// Reconciles a slot in place, or builds a node for it: a child store is never
/// rewritten into something else.
pub open spec fn reconcile_slot(
    s: Tx,
    parent: NodeId,
    existing: Option<NodeId>,
    v: Json,
    owner: Path,
    depth: nat,
    ids: Seq<NodeId>,
) -> Outcome<NodeId>
    decreases value::nesting(v), 4int, 1int,
{
    match existing {
        Some(id) => if s.is_store_node(id) {
            build(s, parent, v, owner, depth, ids)
        } else {
            keep(id, reconcile(s, id, v, owner, depth, ids))
        },
        None => build(s, parent, v, owner, depth, ids),
    }
}

/// What a step leaves, yielding `id` where it succeeded.
pub open spec fn keep(id: NodeId, outcome: Outcome<()>) -> Outcome<NodeId> {
    match outcome.1 {
        Ok(_) => (outcome.0, Ok(id)),
        Err(fault) => (outcome.0, Err(fault)),
    }
}

/// Rewrites one node to hold a value, keeping every identity the value's shape
/// allows it to keep.
pub open spec fn reconcile(
    s: Tx,
    id: NodeId,
    v: Json,
    owner: Path,
    depth: nat,
    ids: Seq<NodeId>,
) -> Outcome<()>
    decreases value::nesting(v), 4int, 0int,
{
    if !s.live(id) || unchanged(s.kind(id), marker::form_of(v)) {
        (s, Ok(()))
    } else {
        proof {
            form_nesting(v);
        }
        match (s.kind(id), marker::form_of(v)) {
            (Kind::Object(old), Form::Object(fields)) => {
                let (t, new) = place_fields(
                    s,
                    id,
                    old,
                    fields,
                    false,
                    owner,
                    depth,
                    0,
                    Seq::empty(),
                    ids,
                );
                match new {
                    Ok(placed) => (install_fields(t, id, old, Kind::Object(placed), placed), Ok(())),
                    Err(fault) => (t, Err(fault)),
                }
            },
            (Kind::Store { id: path, fields: old }, Form::Store { id: held, fields }) => if path
                == held {
                let (t, new) = place_fields(
                    s,
                    id,
                    old,
                    fields,
                    true,
                    path,
                    depth,
                    0,
                    Seq::empty(),
                    ids,
                );
                match new {
                    Ok(placed) => (
                        install_fields(t, id, old, Kind::Store { id: path, fields: placed }, placed),
                        Ok(()),
                    ),
                    Err(fault) => (t, Err(fault)),
                }
            } else {
                rebuild(s, id, v, owner, depth, ids)
            },
            (Kind::Array(old), Form::Array(items)) => {
                let (t, new) = place_items(s, id, old, items, owner, depth, 0, Seq::empty(), ids);
                match new {
                    Ok(placed) => (install_array(t, id, old, placed), Ok(())),
                    Err(fault) => (t, Err(fault)),
                }
            },
            (Kind::Async { status, result, reason }, Form::Async {
                status: new_status,
                result: new_result,
                reason: new_reason,
            }) => {
                let marked = put_status(s, id, new_status);
                let (t, first) = reconcile_child(
                    marked,
                    id,
                    Some(result),
                    new_result,
                    owner,
                    deeper(depth),
                    ids,
                );
                match first {
                    Ok(now) => {
                        let held = set_async_slot(t, id, true, now);
                        let next = async_slot(held, id, false);
                        let (u, second) = reconcile_child(
                            held,
                            id,
                            next,
                            new_reason,
                            owner,
                            deeper(depth),
                            ids,
                        );
                        match second {
                            Ok(last) => (set_async_slot(u, id, false, last), Ok(())),
                            Err(fault) => (u, Err(fault)),
                        }
                    },
                    Err(fault) => (t, Err(fault)),
                }
            },
            _ => rebuild(s, id, v, owner, depth, ids),
        }
    }
}

/// Sets an async node's status, where it differs.
pub open spec fn put_status(s: Tx, id: NodeId, new: AsyncStatus) -> Tx {
    if s.live(id) {
        match s.kind(id) {
            Kind::Async { status, result, reason } => if status == new {
                s
            } else {
                s.touch_dirty(id).put_kind(id, Kind::Async { status: new, result, reason })
            },
            _ => s,
        }
    } else {
        s
    }
}

/// The node in one of an async node's two slots.
pub open spec fn async_slot(s: Tx, id: NodeId, first: bool) -> Option<NodeId> {
    if s.live(id) {
        match s.kind(id) {
            Kind::Async { result, reason, .. } => Some(
                if first {
                    result
                } else {
                    reason
                },
            ),
            _ => None,
        }
    } else {
        None
    }
}

/// Points one of an async node's two slots at a node, releasing the one it held.
pub open spec fn set_async_slot(s: Tx, id: NodeId, first: bool, now: NodeId) -> Tx {
    match async_slot(s, id, first) {
        Some(held) => if held == now {
            s
        } else {
            s.touch_dirty(id).put_kind(
                id,
                with_kid(
                    s.kind(id),
                    if first {
                        0
                    } else {
                        1
                    },
                    now,
                ),
            ).release_if_mine(id, held)
        },
        None => s,
    }
}

/// Installs a wholly different value into an existing node: the node survives,
/// none of its children do.
pub open spec fn rebuild(
    s: Tx,
    id: NodeId,
    v: Json,
    owner: Path,
    depth: nat,
    ids: Seq<NodeId>,
) -> Outcome<()>
    decreases value::nesting(v), 3int, 0int,
{
    let t = s.log_loss(id).touch_dirty(id);
    let gone = t.kids(id);
    install(
        t.unregister(id).put_kind(id, Kind::Null).release_each(gone, 0),
        id,
        v,
        owner,
        depth,
        ids,
    )
}

/// Makes a node and its whole subtree from one value.
pub open spec fn build(
    s: Tx,
    parent: NodeId,
    v: Json,
    owner: Path,
    depth: nat,
    ids: Seq<NodeId>,
) -> Outcome<NodeId>
    decreases value::nesting(v), 3int, 0int,
{
    if depth > MAX_DEPTH {
        (s, Err(Fault::Depth { limit: MAX_DEPTH as nat }))
    } else {
        let (t, made) = s.make(Some(parent), ids);
        match made {
            Ok(id) => keep(id, install(t, id, v, owner, depth, ids)),
            Err(fault) => (t, Err(fault)),
        }
    }
}

/// Gives an existing node its kind and its value.
pub open spec fn finish(s: Tx, id: NodeId, kind: Kind) -> Tx {
    let t = s.put_kind(id, kind);
    t.put_sem(id, t.shallow(id))
}

/// Gives an existing node the kind, children and index entries a value calls
/// for.
pub open spec fn install(
    s: Tx,
    id: NodeId,
    v: Json,
    owner: Path,
    depth: nat,
    ids: Seq<NodeId>,
) -> Outcome<()>
    decreases value::nesting(v), 2int, 0int,
{
    proof {
        form_nesting(v);
    }
    match marker::form_of(v) {
        Form::Null => (finish(s, id, Kind::Null), Ok(())),
        Form::Bool(flag) => (finish(s, id, Kind::Bool(flag)), Ok(())),
        Form::Number(number) => (finish(s, id, Kind::Number(number)), Ok(())),
        Form::Text(text) => (finish(s, id, Kind::Text(text)), Ok(())),
        Form::Array(items) => {
            let (t, new) = place_items(
                s,
                id,
                Seq::empty(),
                items,
                owner,
                depth,
                0,
                Seq::empty(),
                ids,
            );
            match new {
                Ok(placed) => (finish(t, id, Kind::Array(placed)), Ok(())),
                Err(fault) => (t, Err(fault)),
            }
        },
        Form::Object(fields) => {
            let (t, new) = place_fields(
                s,
                id,
                Seq::empty(),
                fields,
                false,
                owner,
                depth,
                0,
                Seq::empty(),
                ids,
            );
            match new {
                Ok(placed) => (finish(t, id, Kind::Object(placed)), Ok(())),
                Err(fault) => (t, Err(fault)),
            }
        },
        Form::Store { id: path, fields } => {
            let (t, new) = place_fields(
                s,
                id,
                Seq::empty(),
                fields,
                true,
                path,
                depth,
                0,
                Seq::empty(),
                ids,
            );
            match new {
                Ok(placed) => (
                    finish(
                        t.set_store(path, Some(id)),
                        id,
                        Kind::Store { id: path, fields: placed },
                    ),
                    Ok(()),
                ),
                Err(fault) => (t, Err(fault)),
            }
        },
        Form::Collection { name } => (
            finish(
                s.set_stream((owner, name), Some(id)),
                id,
                Kind::Collection { name, owner, items: Seq::empty() },
            ),
            Ok(()),
        ),
        Form::Async { status, result, reason } => {
            let (t, first) = reconcile_child(s, id, None, result, owner, deeper(depth), ids);
            match first {
                Ok(a) => {
                    let (u, second) = reconcile_child(
                        t,
                        id,
                        None,
                        reason,
                        owner,
                        deeper(depth),
                        ids,
                    );
                    match second {
                        Ok(b) => (
                            finish(u, id, Kind::Async { status, result: a, reason: b }),
                            Ok(()),
                        ),
                        Err(fault) => (u, Err(fault)),
                    }
                },
                Err(fault) => (t, Err(fault)),
            }
        },
        Form::Upload { name } => (finish(s, id, Kind::Upload { name, owner }), Ok(())),
    }
}

/// Reconciles the fields of an object or a store, from `i` on, into the slots
/// they had in `old`. Yields the nodes that belong under their keys.
pub open spec fn place_fields(
    s: Tx,
    id: NodeId,
    old: Seq<(Chars, NodeId)>,
    fields: Seq<(Chars, Json)>,
    store: bool,
    owner: Path,
    depth: nat,
    i: int,
    placed: Seq<(Chars, NodeId)>,
    ids: Seq<NodeId>,
) -> Outcome<Seq<(Chars, NodeId)>>
    decreases nesting_of_fields(fields), 1int, fields.len() - i,
{
    if i < 0 || i >= fields.len() {
        (s, Ok(placed))
    } else if store && fields[i].0 == STORE_ID_KEY@ {
        place_fields(s, id, old, fields, store, owner, depth, i + 1, placed, ids)
    } else {
        proof {
            value::field_nesting(fields, i);
        }
        let existing = s.unclaimed(
            id,
            keyed::lookup(old, fields[i].0),
            keyed::items_of(placed),
        );
        let (t, child) = reconcile_child(
            s,
            id,
            existing,
            fields[i].1,
            owner,
            deeper(depth),
            ids,
        );
        match child {
            Ok(kid) => place_fields(
                t,
                id,
                old,
                fields,
                store,
                owner,
                depth,
                i + 1,
                placed.push((fields[i].0, kid)),
                ids,
            ),
            Err(fault) => (t, Err(fault)),
        }
    }
}

/// Reconciles the elements of an array, from `i` on, into the positions they
/// had in `old`. Yields the nodes that belong at their positions.
pub open spec fn place_items(
    s: Tx,
    id: NodeId,
    old: Seq<NodeId>,
    items: Seq<Json>,
    owner: Path,
    depth: nat,
    i: int,
    placed: Seq<NodeId>,
    ids: Seq<NodeId>,
) -> Outcome<Seq<NodeId>>
    decreases nesting_of_items(items), 1int, items.len() - i,
{
    if i < 0 || i >= items.len() {
        (s, Ok(placed))
    } else {
        proof {
            value::item_nesting(items, i);
        }
        let existing = s.unclaimed(
            id,
            if i < old.len() {
                Some(old[i])
            } else {
                None
            },
            placed,
        );
        let (t, child) = reconcile_child(s, id, existing, items[i], owner, deeper(depth), ids);
        match child {
            Ok(kid) => place_items(t, id, old, items, owner, depth, i + 1, placed.push(kid), ids),
            Err(fault) => (t, Err(fault)),
        }
    }
}

/// Installs a rebuilt field list, releasing whatever fell out of it.
pub open spec fn install_fields(
    s: Tx,
    id: NodeId,
    old: Seq<(Chars, NodeId)>,
    kind: Kind,
    placed: Seq<(Chars, NodeId)>,
) -> Tx {
    let held = s.kids(id);
    let t = if s.fields(id) == Some(placed) {
        s
    } else {
        s.touch_dirty(id).put_kind(id, kind)
    };
    t.release_displaced(id, keyed::items_of(old) + held, keyed::items_of(placed).to_set(), 0)
}

/// Installs a rebuilt child list, releasing whatever fell out of it.
pub open spec fn install_array(s: Tx, id: NodeId, old: Seq<NodeId>, placed: Seq<NodeId>) -> Tx {
    let held = s.kids(id);
    let t = if held == placed {
        s
    } else {
        s.touch_dirty(id).put_kind(id, Kind::Array(placed))
    };
    t.release_displaced(id, old + held, placed.to_set(), 0)
}

// --------------------------------------------------------------- single slots

/// Installs one field, reconciling into the node already under that key.
pub open spec fn put_field(
    s: Tx,
    parent: NodeId,
    key: Chars,
    v: Json,
    owner: Path,
    depth: nat,
    ids: Seq<NodeId>,
) -> Outcome<()> {
    match s.fields(parent) {
        None => (s, Ok(())),
        Some(first) => {
            let (a, existing) = match keyed::lookup(first, key) {
                Some(id) => {
                    let (t, held) = s.yield_identity(id, v);
                    (t, Some(held))
                },
                None => (s, None),
            };
            let before = a.links(parent);
            let (b, child) = reconcile_child(a, parent, existing, v, owner, depth, ids);
            match child {
                Err(fault) => (b, Err(fault)),
                Ok(kid) => if existing == Some(kid) {
                    (b, Ok(()))
                } else {
                    (swap_in_field(b, parent, key, existing, kid, before), Ok(()))
                },
            }
        },
    }
}

/// Puts a node under a key. Where it came from another key of the same object,
/// the node it displaces takes that key.
pub open spec fn swap_in_field(
    s: Tx,
    parent: NodeId,
    key: Chars,
    existing: Option<NodeId>,
    kid: NodeId,
    before: Seq<(Chars, NodeId)>,
) -> Tx {
    let t = s.touch_dirty(parent);
    let held = t.links(parent);
    let from = node_index(keyed::items_of(before), kid);
    let put = keyed::put(held, key, kid);
    if existing is Some && s.parent_of(existing->0) == Some(parent) && from < before.len()
        && before[from as int].0 != key {
        let vacated = before[from as int].0;
        let displaced = keyed::lookup(put, vacated);
        let u = t.put_kind(
            parent,
            t.kind(parent).with_fields(keyed::put(put, vacated, existing->0)),
        );
        match displaced {
            Some(id) => u.release_if_mine(parent, id),
            None => u,
        }
    } else {
        let u = t.put_kind(parent, t.kind(parent).with_fields(put));
        match keyed::lookup(held, key) {
            Some(id) => u.release_if_mine(parent, id),
            None => u,
        }
    }
}

/// Installs one array position, reconciling into the node already there.
pub open spec fn put_index(
    s: Tx,
    parent: NodeId,
    index: int,
    v: Json,
    owner: Path,
    depth: nat,
    ids: Seq<NodeId>,
) -> Outcome<()> {
    let (a, existing) = s.yield_identity(s.kids(parent)[index], v);
    let old = a.kids(parent);
    let (b, child) = reconcile_child(a, parent, Some(existing), v, owner, depth, ids);
    match child {
        Err(fault) => (b, Err(fault)),
        Ok(kid) => if kid == existing {
            (b, Ok(()))
        } else {
            let held = b.kids(parent);
            let put = set_at(held, index, kid);
            let from = node_index(old, kid);
            let new = if from < old.len() && from != index && b.parent_of(existing) == Some(
                parent,
            ) {
                set_at(put, from as int, existing)
            } else {
                put
            };
            (install_array(b, parent, old, new), Ok(()))
        },
    }
}

/// Installs one of an async node's two slots.
pub open spec fn put_async(
    s: Tx,
    parent: NodeId,
    first: bool,
    v: Json,
    owner: Path,
    depth: nat,
    ids: Seq<NodeId>,
) -> Outcome<()> {
    match async_slot(s, parent, first) {
        None => (s, Ok(())),
        Some(id) => {
            let (a, existing) = s.yield_identity(id, v);
            let (b, child) = reconcile_child(a, parent, Some(existing), v, owner, depth, ids);
            match child {
                Err(fault) => (b, Err(fault)),
                Ok(kid) => (set_async_slot(b, parent, first, kid), Ok(())),
            }
        },
    }
}

/// `add /list/i`: the value is inserted at `i`, and every element from there on
/// keeps its node and moves one slot right.
pub open spec fn array_add(
    s: Tx,
    id: NodeId,
    index: int,
    v: Json,
    owner: Path,
    depth: nat,
    ids: Seq<NodeId>,
) -> Outcome<()> {
    let old = s.kids(id);
    let (t, child) = reconcile_child(s.claim_stores(old, 0), id, None, v, owner, depth, ids);
    match child {
        Err(fault) => (t, Err(fault)),
        Ok(kid) => {
            let held = t.kids(id);
            let at = if index <= held.len() {
                index
            } else {
                held.len() as int
            };
            (install_array(t, id, old, held.insert(at, kid)), Ok(()))
        },
    }
}

// -------------------------------------------------------------------- patch ops

/// Where one token leads from a node.
pub open spec fn step_to(s: Tx, id: NodeId, token: Chars, path: Chars) -> Result<NodeId, Fault> {
    if !s.live(id) {
        Err(Fault::Pointer { path, reason: INTO_SCALAR@ })
    } else {
        match s.kind(id) {
            Kind::Object(fields) => found_key(fields, token, path),
            Kind::Store { fields, .. } => found_key(fields, token, path),
            Kind::Array(items) => match pointer::index_meaning(token) {
                Some(ArrayIndex::At(at)) => if at < items.len() {
                    Ok(items[at as int])
                } else {
                    Err(Fault::Index { path })
                },
                _ => Err(Fault::Index { path }),
            },
            Kind::Async { result, reason, .. } => if token == ASYNC_RESULT_KEY@ {
                Ok(result)
            } else if token == ASYNC_REASON_KEY@ {
                Ok(reason)
            } else {
                Err(Fault::Pointer { path, reason: ASYNC_CHILDREN@ })
            },
            Kind::Collection { .. } => Err(Fault::Pointer { path, reason: STREAM_ITEMS@ }),
            _ => Err(Fault::Pointer { path, reason: INTO_SCALAR@ }),
        }
    }
}

/// The child under a key, or the fault of its absence.
pub open spec fn found_key(fields: Seq<(Chars, NodeId)>, key: Chars, path: Chars) -> Result<
    NodeId,
    Fault,
> {
    match keyed::lookup(fields, key) {
        Some(id) => Ok(id),
        None => Err(Fault::Pointer { path, reason: NO_SUCH_KEY@ }),
    }
}

/// Where a list of tokens leads from a node.
pub open spec fn walk_from(s: Tx, id: NodeId, tokens: Seq<Chars>, path: Chars) -> Result<
    NodeId,
    Fault,
>
    decreases tokens.len(),
{
    if tokens.len() == 0 {
        Ok(id)
    } else {
        match step_to(s, id, tokens[0], path) {
            Ok(next) => walk_from(s, next, tokens.drop_first(), path),
            Err(fault) => Err(fault),
        }
    }
}

/// Where a list of tokens leads from the root.
pub open spec fn walk(s: Tx, tokens: Seq<Chars>, path: Chars) -> Result<NodeId, Fault> {
    walk_from(s, s.root, tokens, path)
}

/// Whether a node is an async one.
pub open spec fn is_async(s: Tx, id: NodeId) -> bool {
    s.live(id) && s.kind(id) is Async
}

/// Writes an async node's status in place, keeping `result` and `reason`.
pub open spec fn set_async_status(s: Tx, id: NodeId, v: Json, path: Chars) -> Outcome<()> {
    match v {
        Json::Text(status) => match AsyncStatus::wire_meaning(status) {
            Some(new) => (put_status(s, id, new), Ok(())),
            None => (s, Err(Fault::Pointer { path, reason: BAD_STATUS@ })),
        },
        _ => (s, Err(Fault::Pointer { path, reason: BAD_STATUS@ })),
    }
}

/// Writes one value into a slot of `parent` that already holds something.
pub open spec fn write_slot(
    s: Tx,
    parent: NodeId,
    key: Chars,
    v: Json,
    depth: nat,
    path: Chars,
    ids: Seq<NodeId>,
) -> Outcome<()> {
    let owner = s.owner_of(parent);
    if !s.live(parent) {
        (s, Err(Fault::Pointer { path, reason: INTO_SCALAR@ }))
    } else {
        match s.kind(parent) {
            Kind::Object(fields) => write_field(s, parent, fields, key, v, owner, depth, path, ids),
            Kind::Store { fields, .. } => write_field(
                s,
                parent,
                fields,
                key,
                v,
                owner,
                depth,
                path,
                ids,
            ),
            Kind::Array(items) => match pointer::index_meaning(key) {
                Some(ArrayIndex::At(at)) => if at < items.len() {
                    put_index(s, parent, at as int, v, owner, deeper(depth), ids)
                } else {
                    (s, Err(Fault::Index { path }))
                },
                _ => (s, Err(Fault::Index { path })),
            },
            Kind::Async { .. } => if key == ASYNC_RESULT_KEY@ {
                put_async(s, parent, true, v, owner, deeper(depth), ids)
            } else if key == ASYNC_REASON_KEY@ {
                put_async(s, parent, false, v, owner, deeper(depth), ids)
            } else {
                (s, Err(Fault::Pointer { path, reason: ASYNC_CHILDREN@ }))
            },
            Kind::Collection { .. } => (s, Err(Fault::Pointer { path, reason: STREAM_ITEMS@ })),
            _ => (s, Err(Fault::Pointer { path, reason: INTO_SCALAR@ })),
        }
    }
}

/// Writes one value under a key that must be there.
pub open spec fn write_field(
    s: Tx,
    parent: NodeId,
    fields: Seq<(Chars, NodeId)>,
    key: Chars,
    v: Json,
    owner: Path,
    depth: nat,
    path: Chars,
    ids: Seq<NodeId>,
) -> Outcome<()> {
    if keyed::has_key(fields, key) {
        put_field(s, parent, key, v, owner, deeper(depth), ids)
    } else {
        (s, Err(Fault::Pointer { path, reason: NO_SUCH_KEY@ }))
    }
}

/// `replace`.
pub open spec fn replace(s: Tx, tokens: Seq<Chars>, v: Json, path: Chars, ids: Seq<NodeId>) -> Outcome<
    (),
> {
    if tokens.len() == 0 {
        reconcile(s, s.root, v, Seq::empty(), 0, ids)
    } else {
        match walk(s, tokens.drop_last(), path) {
            Err(fault) => (s, Err(fault)),
            Ok(parent) => if tokens.last() == ASYNC_STATUS_KEY@ && is_async(s, parent) {
                set_async_status(s, parent, v, path)
            } else {
                write_slot(s, parent, tokens.last(), v, (tokens.len() - 1) as nat, path, ids)
            },
        }
    }
}

/// `add`.
pub open spec fn add_op(s: Tx, tokens: Seq<Chars>, v: Json, path: Chars, ids: Seq<NodeId>) -> Outcome<
    (),
> {
    if tokens.len() == 0 {
        replace(s, tokens, v, path, ids)
    } else {
        match walk(s, tokens.drop_last(), path) {
            Err(fault) => (s, Err(fault)),
            Ok(parent) => add_under(
                s,
                parent,
                tokens.last(),
                v,
                deeper((tokens.len() - 1) as nat),
                path,
                ids,
            ),
        }
    }
}

/// Adds one value under a key of `parent`.
pub open spec fn add_under(
    s: Tx,
    parent: NodeId,
    key: Chars,
    v: Json,
    depth: nat,
    path: Chars,
    ids: Seq<NodeId>,
) -> Outcome<()> {
    let owner = s.owner_of(parent);
    if !s.live(parent) {
        (s, Err(Fault::Pointer { path, reason: BAD_ADD@ }))
    } else {
        match s.kind(parent) {
            Kind::Object(_) => put_field(s, parent, key, v, owner, depth, ids),
            Kind::Store { .. } => put_field(s, parent, key, v, owner, depth, ids),
            Kind::Array(items) => match pointer::index_meaning(key) {
                Some(ArrayIndex::End) => array_add(
                    s,
                    parent,
                    items.len() as int,
                    v,
                    owner,
                    depth,
                    ids,
                ),
                Some(ArrayIndex::At(at)) => if at <= items.len() {
                    array_add(s, parent, at as int, v, owner, depth, ids)
                } else {
                    (s, Err(Fault::Index { path }))
                },
                None => (s, Err(Fault::Index { path })),
            },
            Kind::Async { .. } => if key == ASYNC_RESULT_KEY@ {
                put_async(s, parent, true, v, owner, depth, ids)
            } else if key == ASYNC_REASON_KEY@ {
                put_async(s, parent, false, v, owner, depth, ids)
            } else if key == ASYNC_STATUS_KEY@ {
                set_async_status(s, parent, v, path)
            } else {
                (s, Err(Fault::Pointer { path, reason: ASYNC_CHILDREN@ }))
            },
            _ => (s, Err(Fault::Pointer { path, reason: BAD_ADD@ })),
        }
    }
}

/// `remove`.
pub open spec fn remove_op(s: Tx, tokens: Seq<Chars>, path: Chars) -> Outcome<()> {
    if tokens.len() == 0 {
        (s, Err(Fault::Pointer { path, reason: REMOVE_ROOT@ }))
    } else {
        match walk(s, tokens.drop_last(), path) {
            Err(fault) => (s, Err(fault)),
            Ok(parent) => remove_under(s, parent, tokens.last(), path),
        }
    }
}

/// Removes what one key of `parent` holds.
pub open spec fn remove_under(s: Tx, parent: NodeId, key: Chars, path: Chars) -> Outcome<()> {
    if !s.live(parent) {
        (s, Err(Fault::Pointer { path, reason: BAD_REMOVE@ }))
    } else {
        match s.kind(parent) {
            Kind::Object(fields) => remove_field(s, parent, fields, key, path),
            Kind::Store { fields, .. } => remove_field(s, parent, fields, key, path),
            Kind::Array(items) => match pointer::index_meaning(key) {
                Some(ArrayIndex::At(at)) => if at < items.len() {
                    (install_array(s, parent, items, items.remove(at as int)), Ok(()))
                } else {
                    (s, Err(Fault::Index { path }))
                },
                _ => (s, Err(Fault::Index { path })),
            },
            _ => (s, Err(Fault::Pointer { path, reason: BAD_REMOVE@ })),
        }
    }
}

/// Removes one key of an object or a store.
pub open spec fn remove_field(
    s: Tx,
    parent: NodeId,
    fields: Seq<(Chars, NodeId)>,
    key: Chars,
    path: Chars,
) -> Outcome<()> {
    match keyed::lookup(fields, key) {
        None => (s, Err(Fault::Pointer { path, reason: NO_SUCH_KEY@ })),
        Some(child) => {
            let t = s.touch_dirty(parent);
            (
                t.put_kind(
                    parent,
                    t.kind(parent).with_fields(keyed::without(fields, key)),
                ).release(child),
                Ok(()),
            )
        },
    }
}

/// Where a list of tokens first names the store marker, or its length.
pub open spec fn marker_index(tokens: Seq<Chars>) -> nat
    decreases tokens.len(),
{
    if tokens.len() == 0 {
        0
    } else if tokens[0] == STORE_ID_KEY@ {
        0
    } else {
        1 + marker_index(tokens.drop_first())
    }
}

/// The marker a node should carry after an op on it: a document, or `None` where
/// the op removed it.
pub open spec fn rewritten_marker(
    op: PatchOp,
    rest: Seq<Chars>,
    segments: Path,
    path: Chars,
) -> Result<Option<Json>, Fault> {
    if rest.len() == 0 {
        match op {
            PatchOp::Remove { .. } => Ok(None),
            PatchOp::Add { value, .. } => whole_marker(value@, path),
            PatchOp::Replace { value, .. } => whole_marker(value@, path),
        }
    } else if rest.len() == 1 {
        match pointer::index_meaning(rest[0]) {
            None => Err(Fault::Index { path }),
            Some(index) => match op {
                PatchOp::Remove { .. } => match index {
                    ArrayIndex::At(at) => if at < segments.len() {
                        Ok(Some(marker::path_json(segments.remove(at as int))))
                    } else {
                        Err(Fault::Index { path })
                    },
                    ArrayIndex::End => Err(Fault::Index { path }),
                },
                PatchOp::Replace { value, .. } => match (index, value@) {
                    (ArrayIndex::At(at), Json::Text(segment)) => if at < segments.len() {
                        Ok(Some(marker::path_json(segments.update(at as int, segment))))
                    } else {
                        Err(Fault::Index { path })
                    },
                    _ => Err(Fault::Pointer { path, reason: BAD_STORE_ID@ }),
                },
                PatchOp::Add { value, .. } => match value@ {
                    Json::Text(segment) => match index {
                        ArrayIndex::End => Ok(Some(marker::path_json(segments.push(segment)))),
                        ArrayIndex::At(at) => if at <= segments.len() {
                            Ok(Some(marker::path_json(segments.insert(at as int, segment))))
                        } else {
                            Err(Fault::Index { path })
                        },
                    },
                    _ => Err(Fault::Pointer { path, reason: BAD_STORE_ID@ }),
                },
            },
        }
    } else {
        Err(Fault::Pointer { path, reason: BAD_STORE_ID@ })
    }
}

/// A whole marker, where it spells a store id.
pub open spec fn whole_marker(v: Json, path: Chars) -> Result<Option<Json>, Fault> {
    if marker::store_path(v) is Some {
        Ok(Some(v))
    } else {
        Err(Fault::Pointer { path, reason: BAD_STORE_ID@ })
    }
}

/// The segments of the id an object or a store carries.
pub open spec fn id_segments(s: Tx, id: NodeId, path: Chars) -> Result<Path, Fault> {
    if !s.live(id) {
        Err(Fault::Pointer { path, reason: NO_STORE_ID@ })
    } else {
        match s.kind(id) {
            Kind::Store { id: held, .. } => Ok(held),
            Kind::Object(_) => Ok(Seq::empty()),
            _ => Err(Fault::Pointer { path, reason: NO_STORE_ID@ }),
        }
    }
}

/// The value of a node with another marker, or none.
pub open spec fn remarked(v: Json, marker: Option<Json>, path: Chars) -> Result<Json, Fault> {
    match v {
        Json::Object(fields) => match marker {
            Some(id) => Ok(Json::Object(keyed::put(fields, STORE_ID_KEY@, id))),
            None => Ok(Json::Object(keyed::without(fields, STORE_ID_KEY@))),
        },
        _ => Err(Fault::Pointer { path, reason: NO_STORE_ID@ }),
    }
}

/// An op whose pointer addresses the store marker, or an element of it: a change
/// of that node's identity, written as the value it then has.
pub open spec fn marker_op(
    s: Tx,
    op: PatchOp,
    tokens: Seq<Chars>,
    at: int,
    path: Chars,
    ids: Seq<NodeId>,
) -> Outcome<()> {
    let prefix = tokens.take(at);
    match walk(s, prefix, path) {
        Err(fault) => (s, Err(fault)),
        Ok(id) => match id_segments(s, id, path) {
            Err(fault) => (s, Err(fault)),
            Ok(segments) => match rewritten_marker(op, tokens.skip(at + 1), segments, path) {
                Err(fault) => (s, Err(fault)),
                Ok(mark) => match remarked(node::wire(subtree_value(s.nodes, id)), mark, path) {
                    Err(fault) => (s, Err(fault)),
                    Ok(v) => if prefix.len() == 0 {
                        reconcile(s, s.root, v, Seq::empty(), 0, ids)
                    } else {
                        match walk(s, prefix.drop_last(), path) {
                            Err(fault) => (s, Err(fault)),
                            Ok(parent) => write_slot(
                                s,
                                parent,
                                prefix.last(),
                                v,
                                (prefix.len() - 1) as nat,
                                path,
                                ids,
                            ),
                        }
                    },
                },
            },
        },
    }
}

/// One patch op.
pub open spec fn apply_patch_op(s: Tx, op: PatchOp, ids: Seq<NodeId>) -> Outcome<()> {
    let t = s.unclaim();
    let path = op.path_text();
    match pointer::pointer_tokens(path) {
        None => (t, Err(Fault::Pointer { path, reason: pointer::NO_LEADING_SLASH@ })),
        Some(tokens) => if marker_index(tokens) < tokens.len() {
            marker_op(t, op, tokens, marker_index(tokens) as int, path, ids)
        } else {
            match op {
                PatchOp::Add { value, .. } => add_op(t, tokens, value@, path, ids),
                PatchOp::Remove { .. } => remove_op(t, tokens, path),
                PatchOp::Replace { value, .. } => replace(t, tokens, value@, path, ids),
            }
        },
    }
}

// ------------------------------------------------------------------ stream ops

/// Where an insert lands in a list of `len` rows: `-1` appends, `0` and every
/// other negative prepends, anything else is a position within the list.
pub open spec fn landing(at: i64, len: nat) -> nat {
    if at == -1 {
        len
    } else if at <= 0 {
        0
    } else if at < len {
        at as nat
    } else {
        len
    }
}

/// The cap a limit sets, whatever its sign.
pub open spec fn cap_of(limit: i64) -> nat {
    if limit < 0 {
        (-limit) as nat
    } else {
        limit as nat
    }
}

/// Whether a limit drops rows off the end rather than off the front.
pub open spec fn trims_end(limit: i64, at: i64) -> bool {
    cap_of(limit) > 0 && at == 0
}

/// The rows a limit leaves.
pub open spec fn trimmed(rows: Seq<(Chars, NodeId)>, limit: Option<i64>, at: i64) -> Seq<
    (Chars, NodeId),
> {
    match limit {
        None => rows,
        Some(limit) => if rows.len() <= cap_of(limit) {
            rows
        } else if trims_end(limit, at) {
            rows.take(cap_of(limit) as int)
        } else {
            rows.skip(rows.len() - cap_of(limit))
        },
    }
}

/// Carries out the rows a limit drops off the end, last row first, down to
/// `cap`.
pub open spec fn drop_end(
    s: Tx,
    collection: NodeId,
    rows: Seq<(Chars, NodeId)>,
    cap: nat,
    i: int,
) -> Tx
    decreases i - cap,
{
    if i <= cap || i > rows.len() {
        s
    } else {
        let row = rows[i - 1];
        drop_end(
            s.carry_out(collection, row.0, row.1).log_edit(
                collection,
                Edit::Removed { key: row.0, index: (i - 1) as nat },
            ),
            collection,
            rows,
            cap,
            i - 1,
        )
    }
}

/// Carries out the rows a limit drops off the front, from `i` up to `count`.
pub open spec fn drop_front(
    s: Tx,
    collection: NodeId,
    rows: Seq<(Chars, NodeId)>,
    count: int,
    i: int,
) -> Tx
    decreases count - i,
{
    if i < 0 || i >= count || i >= rows.len() {
        s
    } else {
        drop_front(
            s.carry_out(collection, rows[i].0, rows[i].1).log_edit(
                collection,
                Edit::Removed { key: rows[i].0, index: 0 },
            ),
            collection,
            rows,
            count,
            i + 1,
        )
    }
}

/// Carries out the rows a limit drops.
pub open spec fn drop_overflow(
    s: Tx,
    collection: NodeId,
    rows: Seq<(Chars, NodeId)>,
    limit: Option<i64>,
    at: i64,
) -> Tx {
    match limit {
        None => s,
        Some(limit) => if rows.len() <= cap_of(limit) {
            s
        } else if trims_end(limit, at) {
            drop_end(s, collection, rows, cap_of(limit), rows.len() as int)
        } else {
            drop_front(s, collection, rows, rows.len() - cap_of(limit), 0)
        },
    }
}

/// Carries out every row of `rows`, from `i` on.
pub open spec fn carry_all(s: Tx, collection: NodeId, rows: Seq<(Chars, NodeId)>, i: int) -> Tx
    decreases rows.len() - i,
{
    if i < 0 || i >= rows.len() {
        s
    } else {
        carry_all(s.carry_out(collection, rows[i].0, rows[i].1), collection, rows, i + 1)
    }
}

/// Rewrites a collection's rows.
pub open spec fn put_rows(s: Tx, collection: NodeId, rows: Seq<(Chars, NodeId)>) -> Tx {
    if s.live(collection) {
        match s.kind(collection) {
            Kind::Collection { name, owner, .. } => s.put_kind(
                collection,
                Kind::Collection { name, owner, items: rows },
            ),
            _ => s,
        }
    } else {
        s
    }
}

/// Empties a stream.
pub open spec fn stream_reset(s: Tx, collection: NodeId) -> Tx {
    let rows = s.rows(collection);
    carry_all(
        put_rows(s.touch_dirty(collection), collection, Seq::empty()),
        collection,
        rows,
        0,
    ).log_edit(collection, Edit::Reset)
}

/// Drops the row with this key.
pub open spec fn stream_delete(s: Tx, collection: NodeId, key: Chars) -> Tx {
    let rows = s.rows(collection);
    if keyed::has_key(rows, key) {
        let at = keyed::key_index(rows, key);
        put_rows(
            s.touch_dirty(collection),
            collection,
            rows.remove(at as int),
        ).carry_out(collection, key, rows[at as int].1).log_edit(
            collection,
            Edit::Removed { key, index: at },
        )
    } else {
        s
    }
}

/// The node an insert for this key reconciles into: the row that has the key, or
/// the one that left with it, which comes back.
pub open spec fn claim_row(
    s: Tx,
    collection: NodeId,
    key: Chars,
    depth: nat,
) -> Outcome<Option<NodeId>> {
    match keyed::lookup(s.rows(collection), key) {
        Some(row) => (s, Ok(Some(row))),
        None => match s.carry.get((collection, key)) {
            None => (s, Ok(None)),
            Some(row) => if s.is_ancestor(row, collection) || !s.live(row) {
                (s, Ok(None))
            } else if !s.fits_at(row, depth) {
                (s, Err(Fault::Depth { limit: MAX_DEPTH as nat }))
            } else {
                (
                    Tx { carry: s.carry.remove((collection, key)), ..s }.touch(row).put_parent(
                        row,
                        Some(collection),
                    ),
                    Ok(Some(row)),
                )
            },
        },
    }
}

/// Puts a row where it lands, and drops what the limit no longer allows.
pub open spec fn land_row(
    s: Tx,
    collection: NodeId,
    key: Chars,
    was: Option<NodeId>,
    row: NodeId,
    at: i64,
    limit: Option<i64>,
) -> Tx {
    let held = s.rows(collection);
    let from = keyed::key_index(held, key);
    let rest = keyed::without(held, key);
    let to = landing(at, rest.len());
    let rows = rest.insert(to as int, (key, row));
    let t = put_rows(s, collection, trimmed(rows, limit, at));
    let u = match was {
        Some(old) => if old == row {
            t
        } else {
            t.release_if_mine(collection, old)
        },
        None => t,
    };
    let logged = if !keyed::has_key(held, key) {
        u.log_edit(collection, Edit::Inserted { key, index: to, node: row })
    } else if from == to {
        u
    } else {
        u.log_edit(collection, Edit::Moved { key, from, to })
    };
    drop_overflow(logged, collection, rows, limit, at)
}

/// Upsert, then position, then trim.
pub open spec fn stream_insert(
    s: Tx,
    collection: NodeId,
    key: Chars,
    v: Json,
    at: i64,
    limit: Option<i64>,
    ids: Seq<NodeId>,
) -> Outcome<()> {
    if !s.live(collection) {
        (s, Ok(()))
    } else {
        match s.kind(collection) {
            Kind::Collection { owner, .. } => {
                let depth = deeper(s.depth(collection));
                let (a, claimed) = claim_row(s.touch_dirty(collection), collection, key, depth);
                match claimed {
                    Err(fault) => (a, Err(fault)),
                    Ok(was) => {
                        let (b, child) = reconcile_child(a, collection, was, v, owner, depth, ids);
                        match child {
                            Err(fault) => (b, Err(fault)),
                            Ok(row) => (
                                land_row(b, collection, key, was, row, at, limit),
                                Ok(()),
                            ),
                        }
                    },
                }
            },
            _ => (s, Ok(())),
        }
    }
}

/// One stream op. An op naming a slot the tree does not have is dropped.
pub open spec fn apply_stream_op(s: Tx, op: StreamOp, ids: Seq<NodeId>) -> Outcome<()> {
    let t = s.unclaim();
    match t.streams.get(op.target()) {
        None => (t, Ok(())),
        Some(collection) => if !t.live(collection) {
            (t, Ok(()))
        } else {
            match op {
                StreamOp::Reset { .. } => (stream_reset(t, collection), Ok(())),
                StreamOp::Delete { item_key, .. } => (
                    stream_delete(t, collection, item_key@),
                    Ok(()),
                ),
                StreamOp::Insert { item_key, at, item, limit, .. } => stream_insert(
                    t,
                    collection,
                    item_key@,
                    item@,
                    at,
                    limit,
                    ids,
                ),
            }
        },
    }
}

// ---------------------------------------------------------------------- batches

/// A list of patch ops, from `i` on.
pub open spec fn apply_patches(s: Tx, ops: Seq<PatchOp>, i: int, ids: Seq<NodeId>) -> Outcome<()>
    decreases ops.len() - i,
{
    if i < 0 || i >= ops.len() {
        (s, Ok(()))
    } else {
        let (t, done) = apply_patch_op(s, ops[i], ids);
        match done {
            Ok(_) => apply_patches(t, ops, i + 1, ids),
            Err(fault) => (t, Err(fault)),
        }
    }
}

/// A list of stream ops, from `i` on.
pub open spec fn apply_streams(s: Tx, ops: Seq<StreamOp>, i: int, ids: Seq<NodeId>) -> Outcome<()>
    decreases ops.len() - i,
{
    if i < 0 || i >= ops.len() {
        (s, Ok(()))
    } else {
        let (t, done) = apply_stream_op(s, ops[i], ids);
        match done {
            Ok(_) => apply_streams(t, ops, i + 1, ids),
            Err(fault) => (t, Err(fault)),
        }
    }
}

/// One batch: the patch ops first, then the stream ops, up to the first that
/// fails.
pub open spec fn apply_batch(
    s: Tx,
    ops: Seq<PatchOp>,
    stream_ops: Seq<StreamOp>,
    ids: Seq<NodeId>,
) -> Outcome<()> {
    if s.closed {
        (s, Err(Fault::Closed))
    } else {
        let (t, done) = apply_patches(s, ops, 0, ids);
        match done {
            Ok(_) => apply_streams(t, stream_ops, 0, ids),
            Err(fault) => (t, Err(fault)),
        }
    }
}

/// Empties the root and ends the tree.
pub open spec fn close_tree(s: Tx, ids: Seq<NodeId>) -> Tx {
    let t = reconcile(s, s.root, Json::Null, Seq::empty(), 0, ids).0;
    if t.closed {
        t
    } else {
        Tx { closing: true, closed: true, ..t }
    }
}

} // verus!
