//! The ops of a batch: patch ops, addressed by pointer, and stream ops,
//! addressed by stream.

use vstd::prelude::*;

use crate::state::change::CollectionEdit;
use crate::state::error::{Fault, TreeError};
use crate::state::journal;
use crate::state::marker;
use crate::state::marker::{ASYNC_REASON_KEY, ASYNC_RESULT_KEY, ASYNC_STATUS_KEY, STORE_ID_KEY};
use crate::state::model;
use crate::state::model::{
    Tx, ASYNC_CHILDREN, BAD_ADD, BAD_REMOVE, BAD_STATUS, BAD_STORE_ID, INTO_SCALAR, NO_STORE_ID,
    NO_SUCH_KEY, REMOVE_ROOT, STREAM_ITEMS,
};
use crate::state::node;
use crate::state::node::{AsyncStatus, Kind, NodeId, NodeKind};
use crate::state::pointer;
use crate::state::pointer::ArrayIndex;
use crate::state::reconcile;
use crate::state::table::{Label, RowKey, StreamKey};
use crate::state::text;
use crate::state::text::Chars;
use crate::state::transaction;
use crate::state::transaction::Transaction;
use crate::state::value;
use crate::state::value::{Json, Object, JsonValue};
use crate::state::wire::{PatchOp, Path, StoreId, StreamOp};

verus! {

broadcast use {journal::carries_on, journal::follows_back, journal::stays_writable};

/// What a write path found under a pointer: the half of a kind that decides
/// where a value goes, without the half that holds the children.
enum Container {
    /// An object or a child store: keyed.
    Fields,
    /// A plain JSON array: positional.
    Array,
    /// An async node, whose two slots are not in a list at all.
    Async,
    /// A stream slot. Addressable by no pointer.
    Collection,
    /// A scalar, or an upload slot: nothing to descend into.
    Leaf,
}

/// Which container a node is.
spec fn container(s: Tx, id: NodeId) -> Container {
    if !s.live(id) {
        Container::Leaf
    } else {
        match s.kind(id) {
            Kind::Object(_) => Container::Fields,
            Kind::Store { .. } => Container::Fields,
            Kind::Array(_) => Container::Array,
            Kind::Async { .. } => Container::Async,
            Kind::Collection { .. } => Container::Collection,
            _ => Container::Leaf,
        }
    }
}

/// What a fallible lookup of a marker yields, as contracts see it.
pub open spec fn seen_marker(r: Result<Option<JsonValue>, TreeError>) -> Result<Option<Json>, Fault> {
    match r {
        Ok(Some(value)) => Ok(Some(value@)),
        Ok(None) => Ok(None),
        Err(error) => Err(error@),
    }
}

/// Whether the pointer's tokens name the store marker, and where first.
fn marker_position(tokens: &Vec<String>) -> (at: usize)
    ensures
        at == model::marker_index(text::texts(tokens@)),
        at <= tokens@.len(),
{
    let ghost all = text::texts(tokens@);
    let mut i: usize = 0;
    assert(all.skip(0) =~= all);
    while i < tokens.len()
        invariant
            i <= tokens@.len(),
            all == text::texts(tokens@),
            model::marker_index(all) == i + model::marker_index(all.skip(i as int)),
        decreases tokens.len() - i,
    {
        assert(all.skip(i as int).drop_first() =~= all.skip(i + 1));
        if text::text_eq(tokens[i].as_str(), STORE_ID_KEY) {
            return i;
        }
        i = i + 1;
    }
    assert(all.skip(i as int) =~= Seq::<Chars>::empty());
    i
}

/// A whole marker, where it spells a store id.
fn whole_marker(value: &JsonValue, path: &str) -> (mark: Result<Option<JsonValue>, TreeError>)
    ensures
        seen_marker(mark) == model::whole_marker(value@, path@),
{
    if marker::parse_store_id(value).is_none() {
        return Err(TreeError::pointer(path, BAD_STORE_ID));
    }
    Ok(Some(value.copy()))
}

/// Applies one op to a node's store id, yielding the marker the node should
/// carry afterwards: `None` when the op removed it and the node becomes a plain
/// object.
pub fn rewrite_store_id(
    op: &PatchOp,
    rest: &Vec<String>,
    segments: Vec<String>,
    path: &str,
) -> (mark: Result<Option<JsonValue>, TreeError>)
    ensures
        seen_marker(mark) == model::rewritten_marker(
            *op,
            text::texts(rest@),
            text::texts(segments@),
            path@,
        ),
{
    if rest.len() == 0 {
        return match op {
            PatchOp::Remove { .. } => Ok(None),
            PatchOp::Add { value, .. } => whole_marker(value, path),
            PatchOp::Replace { value, .. } => whole_marker(value, path),
        };
    }
    if rest.len() > 1 {
        return Err(TreeError::pointer(path, BAD_STORE_ID));
    }
    let index = match pointer::array_index(rest[0].as_str()) {
        Some(index) => index,
        None => {
            return Err(TreeError::index(path));
        },
    };
    let ghost before = text::texts(segments@);
    let mut segments = segments;
    match op {
        PatchOp::Remove { .. } => match index {
            ArrayIndex::At(at) => {
                if at >= segments.len() {
                    return Err(TreeError::index(path));
                }
                let _ = segments.remove(at);
                assert(text::texts(segments@) =~= before.remove(at as int));
            },
            ArrayIndex::End => {
                return Err(TreeError::index(path));
            },
        },
        PatchOp::Replace { value, .. } => match (index, value.as_str()) {
            (ArrayIndex::At(at), Some(segment)) => {
                if at >= segments.len() {
                    return Err(TreeError::index(path));
                }
                segments.set(at, segment.clone());
                assert(text::texts(segments@) =~= before.update(at as int, segment@));
            },
            _ => {
                return Err(TreeError::pointer(path, BAD_STORE_ID));
            },
        },
        PatchOp::Add { value, .. } => match value.as_str() {
            Some(segment) => match index {
                ArrayIndex::End => {
                    segments.push(segment.clone());
                    assert(text::texts(segments@) =~= before.push(segment@));
                },
                ArrayIndex::At(at) => {
                    if at > segments.len() {
                        return Err(TreeError::index(path));
                    }
                    segments.insert(at, segment.clone());
                    assert(text::texts(segments@) =~= before.insert(at as int, segment@));
                },
            },
            None => {
                return Err(TreeError::pointer(path, BAD_STORE_ID));
            },
        },
    }
    Ok(Some(marker::path_value(&StoreId::from_segments(segments))))
}

/// Resolves `at` against the post-removal length.
pub fn insertion_index(at: i64, len: usize) -> (index: usize)
    ensures
        index == model::landing(at, len as nat),
        at == -1 ==> index == len,
        at == 0 || at < -1 ==> index == 0,
        0 < at < len ==> index == at,
        at >= len ==> index == len,
{
    if at == -1 {
        len
    } else if at <= 0 {
        0
    } else if (at as u64) < (len as u64) {
        at as usize
    } else {
        len
    }
}

/// The cap a limit sets, whatever its sign.
fn cap(limit: i64) -> (size: u64)
    ensures
        size == model::cap_of(limit),
        limit >= 0 ==> size == limit,
        limit < 0 ==> size == -limit,
{
    if limit >= 0 {
        limit as u64
    } else {
        (-(limit + 1)) as u64 + 1
    }
}

impl Transaction {
    // ------------------------------------------------------------- addressing

    /// Where one token leads from a node.
    fn step_to(&self, id: NodeId, token: &String, path: &str) -> (next: Result<NodeId, TreeError>)
        requires
            self.wf(),
        ensures
            transaction::seen(next) == model::step_to(self@, id, token@, path@),
    {
        match self.get(id) {
            Some(data) => match &data.kind {
                NodeKind::Object(fields) => match node::link_get(fields, token.as_str()) {
                    Some(child) => Ok(child),
                    None => Err(TreeError::pointer(path, NO_SUCH_KEY)),
                },
                NodeKind::Store { fields, .. } => match node::link_get(fields, token.as_str()) {
                    Some(child) => Ok(child),
                    None => Err(TreeError::pointer(path, NO_SUCH_KEY)),
                },
                NodeKind::Array(items) => match pointer::array_index(token.as_str()) {
                    Some(ArrayIndex::At(at)) => {
                        if at < items.len() {
                            Ok(items[at])
                        } else {
                            Err(TreeError::index(path))
                        }
                    },
                    _ => Err(TreeError::index(path)),
                },
                NodeKind::Async { result, reason, .. } => {
                    if text::text_eq(token.as_str(), ASYNC_RESULT_KEY) {
                        Ok(*result)
                    } else if text::text_eq(token.as_str(), ASYNC_REASON_KEY) {
                        Ok(*reason)
                    } else {
                        Err(TreeError::pointer(path, ASYNC_CHILDREN))
                    }
                },
                NodeKind::Collection { .. } => Err(TreeError::pointer(path, STREAM_ITEMS)),
                _ => Err(TreeError::pointer(path, INTO_SCALAR)),
            },
            None => Err(TreeError::pointer(path, INTO_SCALAR)),
        }
    }

    /// Walks the first `count` tokens from the root.
    ///
    /// A node reached through `n` tokens sits exactly `n` levels below the root:
    /// every token descends one node.
    fn walk(&self, tokens: &Vec<String>, count: usize, path: &str) -> (node: Result<
        NodeId,
        TreeError,
    >)
        requires
            self.wf(),
            count <= tokens@.len(),
        ensures
            transaction::seen(node) == model::walk(
                self@,
                text::texts(tokens@).take(count as int),
                path@,
            ),
    {
        proof {
            self.unfold();
            self.arena.unfold();
        }
        let ghost all = text::texts(tokens@).take(count as int);
        let mut node = self.arena.root;
        let mut i: usize = 0;
        assert(all.skip(0) =~= all);
        while i < count
            invariant
                i <= count <= tokens@.len(),
                self.wf(),
                all == text::texts(tokens@).take(count as int),
                model::walk(self@, all, path@) == model::walk_from(
                    self@,
                    node,
                    all.skip(i as int),
                    path@,
                ),
            decreases count - i,
        {
            assert(all.skip(i as int).drop_first() =~= all.skip(i + 1));
            match self.step_to(node, &tokens[i], path) {
                Ok(next) => {
                    node = next;
                },
                Err(error) => {
                    return Err(error);
                },
            }
            i = i + 1;
        }
        assert(all.skip(i as int) =~= Seq::<Chars>::empty());
        Ok(node)
    }

    /// What kind of container a node is.
    fn container_of(&self, id: NodeId) -> (found: Container)
        requires
            self.wf(),
        ensures
            found == container(self@, id),
    {
        match self.get(id) {
            Some(data) => match &data.kind {
                NodeKind::Object(_) => Container::Fields,
                NodeKind::Store { .. } => Container::Fields,
                NodeKind::Array(_) => Container::Array,
                NodeKind::Async { .. } => Container::Async,
                NodeKind::Collection { .. } => Container::Collection,
                _ => Container::Leaf,
            },
            None => Container::Leaf,
        }
    }

    // ----------------------------------------------------------- single slots

    /// Installs one field, reconciling into the node already under that key.
    ///
    /// `depth` is the child's depth.
    fn put_field(
        &mut self,
        parent: NodeId,
        key: &String,
        value: &JsonValue,
        owner: &StoreId,
        depth: usize,
    ) -> (done: Result<(), TreeError>)
        requires
            old(self).wf(),
        ensures
            final(self).wf(),
            journal::carries(old(self)@, final(self)@),
            forall|ids: Seq<NodeId>| #[trigger]
                journal::follows(final(self)@, ids) ==> model::put_field(
                    old(self)@,
                    parent,
                    key@,
                    value@,
                    owner@,
                    depth as nat,
                    ids,
                ) == (final(self)@, transaction::seen(done)),
    {
        proof {
            self.sound();
        }
        let first = match self.fields_of(parent) {
            Some(fields) => fields,
            None => {
                return Ok(());
            },
        };
        let existing = match node::link_get(&first, key.as_str()) {
            Some(id) => Some(self.yield_identity(id, value)),
            None => None,
        };
        let before = self.links_of(parent);
        let child = match self.reconcile_child(parent, existing, value, owner, depth) {
            Ok(child) => child,
            Err(error) => {
                return Err(error);
            },
        };
        if existing == Some(child) {
            return Ok(());
        }
        self.swap_in_field(parent, key, existing, child, &before);
        Ok(())
    }

    /// Puts a node under a key. Where it came from another key of the same
    /// object, the node it displaces takes that key, so both keep their
    /// identity.
    fn swap_in_field(
        &mut self,
        parent: NodeId,
        key: &String,
        existing: Option<NodeId>,
        child: NodeId,
        before: &Vec<(String, NodeId)>,
    )
        requires
            old(self).wf(),
        ensures
            final(self).wf(),
            final(self)@ == model::swap_in_field(
                old(self)@,
                parent,
                key@,
                existing,
                child,
                node::links(before@),
            ),
            journal::carries(old(self)@, final(self)@),
    {
        proof {
            self.sound();
        }
        let mine = match existing {
            Some(id) => self.parent_of(id) == Some(parent),
            None => false,
        };
        self.touch_and_dirty(parent);
        let held = self.links_of(parent);
        let mut fields = node::copy_links(&held);
        node::link_put(&mut fields, key.as_str(), child);
        let from: usize = transaction::position_of(&node::link_nodes(before), child);
        if mine && from < before.len() && before[from].0 != *key {
            let vacated = before[from].0.clone();
            let displaced = node::link_get(&fields, vacated.as_str());
            if let Some(id) = existing {
                node::link_put(&mut fields, vacated.as_str(), id);
            }
            self.put_fields(parent, fields);
            if let Some(id) = displaced {
                self.release_if_still_mine(parent, id);
            }
        } else {
            self.put_fields(parent, fields);
            if let Some(id) = node::link_get(&held, key.as_str()) {
                self.release_if_still_mine(parent, id);
            }
        }
    }

    /// Rewrites the fields of an object or a store, in place.
    fn put_fields(&mut self, id: NodeId, fields: Vec<(String, NodeId)>)
        requires
            old(self).wf(),
            journal::writable(old(self)@, id),
        ensures
            final(self).wf(),
            final(self)@ == old(self)@.put_kind(
                id,
                old(self)@.kind(id).with_fields(node::links(fields@)),
            ),
            journal::carries(old(self)@, final(self)@),
    {
        proof {
            self.sound();
        }
        match self.kind_of(id) {
            Some(NodeKind::Object(_)) => self.put_kind(id, NodeKind::Object(fields)),
            Some(NodeKind::Store { store_id, .. }) => self.put_kind(
                id,
                NodeKind::Store { store_id, fields },
            ),
            Some(other) => self.put_kind(id, other),
            None => {},
        }
    }

    /// Installs one array position, reconciling into the node already there.
    ///
    /// `depth` is the child's depth.
    fn put_index(
        &mut self,
        parent: NodeId,
        index: usize,
        value: &JsonValue,
        owner: &StoreId,
        depth: usize,
    ) -> (done: Result<(), TreeError>)
        requires
            old(self).wf(),
            index < old(self)@.kids(parent).len(),
        ensures
            final(self).wf(),
            journal::carries(old(self)@, final(self)@),
            forall|ids: Seq<NodeId>| #[trigger]
                journal::follows(final(self)@, ids) ==> model::put_index(
                    old(self)@,
                    parent,
                    index as int,
                    value@,
                    owner@,
                    depth as nat,
                    ids,
                ) == (final(self)@, transaction::seen(done)),
    {
        let first = self.children(parent);
        let existing = self.yield_identity(first[index], value);
        let held = self.children(parent);
        let child = match self.reconcile_child(parent, Some(existing), value, owner, depth) {
            Ok(child) => child,
            Err(error) => {
                return Err(error);
            },
        };
        if child == existing {
            return Ok(());
        }
        let mut new = self.children(parent);
        let ghost live = new@;
        if index < new.len() {
            new.set(index, child);
        }
        assert(new@ =~= model::set_at(live, index as int, child));
        // A store adopted out of another position of this same array is a
        // reorder: the node this write displaced takes the position it left.
        let from: usize = transaction::position_of(&held, child);
        if from < held.len() && from != index && self.parent_of(existing) == Some(parent) {
            let ghost put = new@;
            if from < new.len() {
                new.set(from, existing);
            }
            assert(new@ =~= model::set_at(put, from as int, existing));
        }
        self.install_array(parent, held, new);
        Ok(())
    }

    /// Installs one of an async node's two slots.
    fn put_async(
        &mut self,
        parent: NodeId,
        first: bool,
        value: &JsonValue,
        owner: &StoreId,
        depth: usize,
    ) -> (done: Result<(), TreeError>)
        requires
            old(self).wf(),
        ensures
            final(self).wf(),
            journal::carries(old(self)@, final(self)@),
            forall|ids: Seq<NodeId>| #[trigger]
                journal::follows(final(self)@, ids) ==> model::put_async(
                    old(self)@,
                    parent,
                    first,
                    value@,
                    owner@,
                    depth as nat,
                    ids,
                ) == (final(self)@, transaction::seen(done)),
    {
        proof {
            self.sound();
        }
        let id = match self.async_slot(parent, first) {
            Some(id) => id,
            None => {
                return Ok(());
            },
        };
        let existing = self.yield_identity(id, value);
        match self.reconcile_child(parent, Some(existing), value, owner, depth) {
            Ok(child) => {
                self.set_async_slot(parent, first, child);
                Ok(())
            },
            Err(error) => Err(error),
        }
    }

    /// `add /list/i`: the value is inserted at `i`, and every element from there
    /// on keeps its node and moves one slot right.
    ///
    /// The shift moves nodes, not values: an element that only moved keeps its
    /// node, its subscribers and, where it is a stream slot, its items.
    fn array_add(
        &mut self,
        id: NodeId,
        index: usize,
        value: &JsonValue,
        owner: &StoreId,
        depth: usize,
    ) -> (done: Result<(), TreeError>)
        requires
            old(self).wf(),
        ensures
            final(self).wf(),
            journal::carries(old(self)@, final(self)@),
            forall|ids: Seq<NodeId>| #[trigger]
                journal::follows(final(self)@, ids) ==> model::array_add(
                    old(self)@,
                    id,
                    index as int,
                    value@,
                    owner@,
                    depth as nat,
                    ids,
                ) == (final(self)@, transaction::seen(done)),
    {
        let held = self.children(id);
        // A store standing anywhere in this array is not up for adoption by the
        // value being inserted: every element keeps the node it has.
        self.claim_stores(&held);
        let child = match self.reconcile_child(id, None, value, owner, depth) {
            Ok(child) => child,
            Err(error) => {
                return Err(error);
            },
        };
        // Read back rather than shifted from the snapshot: the inserted value
        // may have adopted a node out of this very array.
        let mut new = self.children(id);
        let at = if index <= new.len() {
            index
        } else {
            new.len()
        };
        new.insert(at, child);
        self.install_array(id, held, new);
        Ok(())
    }

    /// `remove /list/i`: the node at `i` leaves the tree, and every element
    /// after it keeps its node and moves one slot left.
    fn array_remove(&mut self, id: NodeId, index: usize)
        requires
            old(self).wf(),
            index < old(self)@.kids(id).len(),
        ensures
            final(self).wf(),
            final(self)@ == model::install_array(
                old(self)@,
                id,
                old(self)@.kids(id),
                old(self)@.kids(id).remove(index as int),
            ),
            journal::carries(old(self)@, final(self)@),
    {
        let held = self.children(id);
        let mut new = self.children(id);
        let _ = new.remove(index);
        self.install_array(id, held, new);
    }

    // --------------------------------------------------------------- patch ops

    /// Writes one async node's status in place, keeping `result` and `reason`.
    fn set_async_status(&mut self, id: NodeId, value: &JsonValue, path: &str) -> (done: Result<
        (),
        TreeError,
    >)
        requires
            old(self).wf(),
        ensures
            final(self).wf(),
            journal::carries(old(self)@, final(self)@),
            (final(self)@, transaction::seen(done)) == model::set_async_status(
                old(self)@,
                id,
                value@,
                path@,
            ),
    {
        proof {
            self.sound();
        }
        match value.as_str() {
            Some(status) => match AsyncStatus::from_wire(status.as_str()) {
                Some(new) => {
                    self.put_status(id, new);
                    Ok(())
                },
                None => Err(TreeError::pointer(path, BAD_STATUS)),
            },
            None => Err(TreeError::pointer(path, BAD_STATUS)),
        }
    }

    /// Writes one value into a slot of `parent` that already holds something,
    /// what a `replace` addresses. `depth` is the parent's own depth.
    fn write_slot(
        &mut self,
        parent: NodeId,
        key: &String,
        value: &JsonValue,
        depth: usize,
        path: &str,
    ) -> (done: Result<(), TreeError>)
        requires
            old(self).wf(),
        ensures
            final(self).wf(),
            journal::carries(old(self)@, final(self)@),
            forall|ids: Seq<NodeId>| #[trigger]
                journal::follows(final(self)@, ids) ==> model::write_slot(
                    old(self)@,
                    parent,
                    key@,
                    value@,
                    depth as nat,
                    path@,
                    ids,
                ) == (final(self)@, transaction::seen(done)),
    {
        proof {
            self.sound();
        }
        let owner = self.owner_of(parent);
        match self.container_of(parent) {
            Container::Fields => {
                let fields = self.links_of(parent);
                if node::link_get(&fields, key.as_str()).is_none() {
                    return Err(TreeError::pointer(path, NO_SUCH_KEY));
                }
                self.put_field(parent, key, value, &owner, transaction::deeper(depth))
            },
            Container::Array => match pointer::array_index(key.as_str()) {
                Some(ArrayIndex::At(at)) => {
                    if at >= self.children(parent).len() {
                        return Err(TreeError::index(path));
                    }
                    self.put_index(parent, at, value, &owner, transaction::deeper(depth))
                },
                _ => Err(TreeError::index(path)),
            },
            Container::Async => {
                if text::text_eq(key.as_str(), ASYNC_RESULT_KEY) {
                    self.put_async(parent, true, value, &owner, transaction::deeper(depth))
                } else if text::text_eq(key.as_str(), ASYNC_REASON_KEY) {
                    self.put_async(parent, false, value, &owner, transaction::deeper(depth))
                } else {
                    Err(TreeError::pointer(path, ASYNC_CHILDREN))
                }
            },
            Container::Collection => Err(TreeError::pointer(path, STREAM_ITEMS)),
            Container::Leaf => Err(TreeError::pointer(path, INTO_SCALAR)),
        }
    }

    fn replace(&mut self, tokens: &Vec<String>, value: &JsonValue, path: &str) -> (done: Result<
        (),
        TreeError,
    >)
        requires
            old(self).wf(),
        ensures
            final(self).wf(),
            journal::carries(old(self)@, final(self)@),
            forall|ids: Seq<NodeId>| #[trigger]
                journal::follows(final(self)@, ids) ==> model::replace(
                    old(self)@,
                    text::texts(tokens@),
                    value@,
                    path@,
                    ids,
                ) == (final(self)@, transaction::seen(done)),
    {
        proof {
            self.sound();
            self.unfold();
            self.arena.unfold();
        }
        if tokens.len() == 0 {
            // The document root. It has no slot to be written into: its id is
            // fixed for the tree's life, so it is reconciled in place whatever
            // the incoming value is.
            let root = self.arena.root;
            return self.reconcile(root, value, &StoreId::root(), 0);
        }
        let last = tokens.len() - 1;
        let key = &tokens[last];
        proof {
            let all = text::texts(tokens@);
            assert(all.drop_last() =~= all.take(last as int));
            assert(all.last() == key@);
        }
        let parent = match self.walk(tokens, last, path) {
            Ok(parent) => parent,
            Err(error) => {
                return Err(error);
            },
        };
        if text::text_eq(key.as_str(), ASYNC_STATUS_KEY) {
            if let Container::Async = self.container_of(parent) {
                return self.set_async_status(parent, value, path);
            }
        }
        self.write_slot(parent, key, value, last, path)
    }

    fn add_op(&mut self, tokens: &Vec<String>, value: &JsonValue, path: &str) -> (done: Result<
        (),
        TreeError,
    >)
        requires
            old(self).wf(),
        ensures
            final(self).wf(),
            journal::carries(old(self)@, final(self)@),
            forall|ids: Seq<NodeId>| #[trigger]
                journal::follows(final(self)@, ids) ==> model::add_op(
                    old(self)@,
                    text::texts(tokens@),
                    value@,
                    path@,
                    ids,
                ) == (final(self)@, transaction::seen(done)),
    {
        proof {
            self.sound();
        }
        // `add` with an empty path replaces the whole document.
        if tokens.len() == 0 {
            return self.replace(tokens, value, path);
        }
        let last = tokens.len() - 1;
        let key = &tokens[last];
        proof {
            let all = text::texts(tokens@);
            assert(all.drop_last() =~= all.take(last as int));
            assert(all.last() == key@);
        }
        let parent = match self.walk(tokens, last, path) {
            Ok(parent) => parent,
            Err(error) => {
                return Err(error);
            },
        };
        let owner = self.owner_of(parent);
        let depth = transaction::deeper(last);
        match self.container_of(parent) {
            Container::Fields => self.put_field(parent, key, value, &owner, depth),
            Container::Array => {
                let len = self.children(parent).len();
                match pointer::array_index(key.as_str()) {
                    Some(ArrayIndex::End) => self.array_add(parent, len, value, &owner, depth),
                    Some(ArrayIndex::At(at)) => {
                        if at > len {
                            return Err(TreeError::index(path));
                        }
                        self.array_add(parent, at, value, &owner, depth)
                    },
                    None => Err(TreeError::index(path)),
                }
            },
            Container::Async => {
                if text::text_eq(key.as_str(), ASYNC_RESULT_KEY) {
                    self.put_async(parent, true, value, &owner, depth)
                } else if text::text_eq(key.as_str(), ASYNC_REASON_KEY) {
                    self.put_async(parent, false, value, &owner, depth)
                } else if text::text_eq(key.as_str(), ASYNC_STATUS_KEY) {
                    self.set_async_status(parent, value, path)
                } else {
                    Err(TreeError::pointer(path, ASYNC_CHILDREN))
                }
            },
            Container::Collection => Err(TreeError::pointer(path, BAD_ADD)),
            Container::Leaf => Err(TreeError::pointer(path, BAD_ADD)),
        }
    }

    fn remove_op(&mut self, tokens: &Vec<String>, path: &str) -> (done: Result<(), TreeError>)
        requires
            old(self).wf(),
        ensures
            final(self).wf(),
            journal::carries(old(self)@, final(self)@),
            (final(self)@, transaction::seen(done)) == model::remove_op(
                old(self)@,
                text::texts(tokens@),
                path@,
            ),
    {
        proof {
            self.sound();
        }
        if tokens.len() == 0 {
            return Err(TreeError::pointer(path, REMOVE_ROOT));
        }
        let last = tokens.len() - 1;
        let key = &tokens[last];
        proof {
            let all = text::texts(tokens@);
            assert(all.drop_last() =~= all.take(last as int));
            assert(all.last() == key@);
        }
        let parent = match self.walk(tokens, last, path) {
            Ok(parent) => parent,
            Err(error) => {
                return Err(error);
            },
        };
        match self.container_of(parent) {
            Container::Fields => {
                let mut fields = self.links_of(parent);
                let child = match node::link_get(&fields, key.as_str()) {
                    Some(child) => child,
                    None => {
                        return Err(TreeError::pointer(path, NO_SUCH_KEY));
                    },
                };
                self.touch_and_dirty(parent);
                node::link_remove(&mut fields, key.as_str());
                self.put_fields(parent, fields);
                self.release(child);
                Ok(())
            },
            Container::Array => match pointer::array_index(key.as_str()) {
                Some(ArrayIndex::At(at)) => {
                    if at >= self.children(parent).len() {
                        return Err(TreeError::index(path));
                    }
                    self.array_remove(parent, at);
                    Ok(())
                },
                _ => Err(TreeError::index(path)),
            },
            Container::Async => Err(TreeError::pointer(path, BAD_REMOVE)),
            Container::Collection => Err(TreeError::pointer(path, BAD_REMOVE)),
            Container::Leaf => Err(TreeError::pointer(path, BAD_REMOVE)),
        }
    }

    /// The segments of the id an object or a store carries.
    fn id_segments(&self, id: NodeId, path: &str) -> (segments: Result<Vec<String>, TreeError>)
        requires
            self.wf(),
        ensures
            match segments {
                Ok(found) => model::id_segments(self@, id, path@) == Ok::<Path, Fault>(
                    text::texts(found@),
                ),
                Err(error) => model::id_segments(self@, id, path@) == Err::<Path, Fault>(error@),
            },
    {
        match self.get(id) {
            Some(data) => match &data.kind {
                NodeKind::Store { store_id, .. } => Ok(store_id.segments()),
                NodeKind::Object(_) => {
                    let segments: Vec<String> = Vec::new();
                    assert(text::texts(segments@) =~= Seq::<Chars>::empty());
                    Ok(segments)
                },
                _ => Err(TreeError::pointer(path, NO_STORE_ID)),
            },
            None => Err(TreeError::pointer(path, NO_STORE_ID)),
        }
    }

    /// One op whose pointer addresses the store marker, or an element of it.
    ///
    /// The tree keeps the id on the node rather than among its fields, so the
    /// op is re-expressed as what it is, a change of that node's identity, and
    /// written through the one write path.
    fn marker_op(&mut self, op: &PatchOp, tokens: &Vec<String>, at: usize, path: &str) -> (done:
        Result<(), TreeError>)
        requires
            old(self).wf(),
            at < tokens@.len(),
        ensures
            final(self).wf(),
            journal::carries(old(self)@, final(self)@),
            forall|ids: Seq<NodeId>| #[trigger]
                journal::follows(final(self)@, ids) ==> model::marker_op(
                    old(self)@,
                    *op,
                    text::texts(tokens@),
                    at as int,
                    path@,
                    ids,
                ) == (final(self)@, transaction::seen(done)),
    {
        broadcast use value::value_views;

        proof {
            self.sound();
            self.unfold();
            self.arena.unfold();
        }
        let ghost all = text::texts(tokens@);
        let id = match self.walk(tokens, at, path) {
            Ok(id) => id,
            Err(error) => {
                return Err(error);
            },
        };
        let segments = match self.id_segments(id, path) {
            Ok(segments) => segments,
            Err(error) => {
                return Err(error);
            },
        };
        let count: usize = tokens.len();
        assert(at < count);
        let rest = tail_of(tokens, at + 1);
        let mark = match rewrite_store_id(op, &rest, segments, path) {
            Ok(mark) => mark,
            Err(error) => {
                return Err(error);
            },
        };
        let value = match self.arena.semantic_deep(id).to_wire() {
            JsonValue::Object(fields) => {
                let mut object = fields;
                match mark {
                    Some(marker) => {
                        let _ = object.insert(STORE_ID_KEY.to_owned(), marker);
                    },
                    None => {
                        let _ = object.remove(STORE_ID_KEY);
                    },
                }
                JsonValue::Object(object)
            },
            _ => {
                return Err(TreeError::pointer(path, NO_STORE_ID));
            },
        };
        if at == 0 {
            // The root's own id: the one node whose identity the tree keeps
            // across a change of store id.
            let root = self.arena.root;
            return self.reconcile(root, &value, &StoreId::root(), 0);
        }
        let last = at - 1;
        proof {
            assert(all.take(at as int).drop_last() =~= all.take(last as int));
            assert(all.take(at as int).last() == tokens@[last as int]@);
        }
        match self.walk(tokens, last, path) {
            Ok(parent) => self.write_slot(parent, &tokens[last], &value, last, path),
            Err(error) => Err(error),
        }
    }

    fn apply_patch_op(&mut self, op: &PatchOp) -> (done: Result<(), TreeError>)
        requires
            old(self).wf(),
        ensures
            final(self).wf(),
            journal::carries(old(self)@, final(self)@),
            forall|ids: Seq<NodeId>| #[trigger]
                journal::follows(final(self)@, ids) ==> model::apply_patch_op(
                    old(self)@,
                    *op,
                    ids,
                ) == (final(self)@, transaction::seen(done)),
    {
        self.unclaim();
        let path = op.path().as_str();
        let tokens = match pointer::tokens(path) {
            Ok(tokens) => tokens,
            Err(error) => {
                return Err(error);
            },
        };
        // A pointer into the store marker addresses a node's identity rather
        // than one of its children.
        let at = marker_position(&tokens);
        if at < tokens.len() {
            return self.marker_op(op, &tokens, at, path);
        }
        match op {
            PatchOp::Add { value, .. } => self.add_op(&tokens, value, path),
            PatchOp::Remove { .. } => self.remove_op(&tokens, path),
            PatchOp::Replace { value, .. } => self.replace(&tokens, value, path),
        }
    }

    // -------------------------------------------------------------- stream ops

    /// Rewrites a collection's rows.
    fn set_items(&mut self, collection: NodeId, rows: Vec<(String, NodeId)>)
        requires
            old(self).wf(),
            journal::writable(old(self)@, collection),
        ensures
            final(self).wf(),
            final(self)@ == model::put_rows(old(self)@, collection, node::links(rows@)),
            journal::carries(old(self)@, final(self)@),
    {
        proof {
            self.sound();
        }
        if let Some(NodeKind::Collection { name, owner, .. }) = self.kind_of(collection) {
            self.put_kind(collection, NodeKind::Collection { name, owner, items: rows });
        }
    }

    fn stream_reset(&mut self, collection: NodeId)
        requires
            old(self).wf(),
        ensures
            final(self).wf(),
            final(self)@ == model::stream_reset(old(self)@, collection),
            journal::carries(old(self)@, final(self)@),
    {
        let rows = self.items(collection);
        self.touch_and_dirty(collection);
        let none: Vec<(String, NodeId)> = Vec::new();
        assert(node::links(none@) =~= Seq::<(Chars, NodeId)>::empty());
        self.set_items(collection, none);
        let ghost mid = self@;
        let ghost list = node::links(rows@);
        proof {
            self.sound();
        }
        let mut i: usize = 0;
        while i < rows.len()
            invariant
                i <= rows@.len(),
                self.wf(),
                list == node::links(rows@),
                journal::carries(mid, self@),
                model::carry_all(self@, collection, list, i as int) == model::carry_all(
                    mid,
                    collection,
                    list,
                    0,
                ),
            decreases rows.len() - i,
        {
            self.carry_out(collection, &rows[i].0, rows[i].1);
            i = i + 1;
        }
        self.record_edit(collection, CollectionEdit::Reset);
    }

    fn stream_delete(&mut self, collection: NodeId, item_key: &String)
        requires
            old(self).wf(),
        ensures
            final(self).wf(),
            final(self)@ == model::stream_delete(old(self)@, collection, item_key@),
            journal::carries(old(self)@, final(self)@),
    {
        proof {
            self.sound();
        }
        let mut rows = self.items(collection);
        let at: usize = node::link_index(&rows, item_key.as_str());
        if at >= rows.len() {
            return;
        }
        let ghost list = node::links(rows@);
        let row = rows.remove(at);
        assert(node::links(rows@) =~= list.remove(at as int));
        self.touch_and_dirty(collection);
        self.set_items(collection, rows);
        self.carry_out(collection, item_key, row.1);
        self.record_edit(
            collection,
            CollectionEdit::Removed { item_key: item_key.clone(), index: at },
        );
    }

    /// The node an insert for this key reconciles into: the row that has the
    /// key, or the one that left with it, which comes back. A reset followed by
    /// re-inserts is the most common refresh, and behaves like the keyed diff it
    /// is rather than destroying every row.
    fn claim_row(&mut self, collection: NodeId, item_key: &String, depth: usize) -> (row: Result<
        Option<NodeId>,
        TreeError,
    >)
        requires
            old(self).wf(),
        ensures
            final(self).wf(),
            journal::carries(old(self)@, final(self)@),
            (final(self)@, transaction::seen(row)) == model::claim_row(
                old(self)@,
                collection,
                item_key@,
                depth as nat,
            ),
    {
        proof {
            self.sound();
            self.unfold();
        }
        let rows = self.items(collection);
        if let Some(row) = node::link_get(&rows, item_key.as_str()) {
            return Ok(Some(row));
        }
        let key = RowKey { collection, item_key: item_key.clone() };
        match self.carried(&key) {
            None => Ok(None),
            Some(row) => {
                if self.is_ancestor(row, collection) || self.get(row).is_none() {
                    return Ok(None);
                }
                if !self.fits_at(row, depth) {
                    return Err(transaction::too_deep());
                }
                self.uncarry(&key);
                self.touch(row);
                self.put_parent(row, Some(collection));
                Ok(Some(row))
            },
        }
    }

    /// Puts a row where it lands, and drops what the limit no longer allows.
    ///
    /// The direction of a trim is chosen by `at`, not by the sign of `limit`.
    fn land_row(
        &mut self,
        collection: NodeId,
        item_key: &String,
        was: Option<NodeId>,
        row: NodeId,
        at: i64,
        limit: Option<i64>,
    )
        requires
            old(self).wf(),
            journal::writable(old(self)@, collection),
        ensures
            final(self).wf(),
            final(self)@ == model::land_row(
                old(self)@,
                collection,
                item_key@,
                was,
                row,
                at,
                limit,
            ),
            journal::carries(old(self)@, final(self)@),
    {
        proof {
            self.sound();
        }
        let held = self.items(collection);
        let from: usize = node::link_index(&held, item_key.as_str());
        let present = from < held.len();
        let mut rows = node::copy_links(&held);
        node::link_remove(&mut rows, item_key.as_str());
        let to: usize = insertion_index(at, rows.len());
        let ghost rest = node::links(rows@);
        rows.insert(to, (item_key.clone(), row));
        assert(node::links(rows@) =~= rest.insert(to as int, (item_key@, row)));
        let kept = trim(&rows, limit, at);
        self.set_items(collection, kept);
        if let Some(other) = was {
            if other != row {
                self.release_if_still_mine(collection, other);
            }
        }
        if !present {
            self.record_edit(
                collection,
                CollectionEdit::Inserted { item_key: item_key.clone(), index: to, node: row },
            );
        } else if from != to {
            self.record_edit(
                collection,
                CollectionEdit::Moved { item_key: item_key.clone(), from, to },
            );
        }
        self.drop_overflow(collection, &rows, limit, at);
    }

    /// Carries out the rows a limit drops: off the end, last row first, each edit
    /// naming the index its row held at the moment it was taken out; or off the
    /// front, where every removal is at index `0`.
    fn drop_overflow(
        &mut self,
        collection: NodeId,
        rows: &Vec<(String, NodeId)>,
        limit: Option<i64>,
        at: i64,
    )
        requires
            old(self).wf(),
        ensures
            final(self).wf(),
            final(self)@ == model::drop_overflow(
                old(self)@,
                collection,
                node::links(rows@),
                limit,
                at,
            ),
            journal::carries(old(self)@, final(self)@),
    {
        proof {
            self.sound();
        }
        let limit = match limit {
            Some(limit) => limit,
            None => {
                return;
            },
        };
        let size: u64 = cap(limit);
        if (rows.len() as u64) <= size {
            return;
        }
        let size: usize = size as usize;
        let ghost list = node::links(rows@);
        if size > 0 && at == 0 {
            let mut i: usize = rows.len();
            while i > size
                invariant
                    size <= i <= rows@.len(),
                    self.wf(),
                    list == node::links(rows@),
                    journal::carries(old(self)@, self@),
                    model::drop_end(self@, collection, list, size as nat, i as int)
                        == model::drop_end(
                        old(self)@,
                        collection,
                        list,
                        size as nat,
                        list.len() as int,
                    ),
                decreases i,
            {
                i = i - 1;
                self.carry_out(collection, &rows[i].0, rows[i].1);
                self.record_edit(
                    collection,
                    CollectionEdit::Removed { item_key: rows[i].0.clone(), index: i },
                );
            }
        } else {
            let count: usize = rows.len() - size;
            let mut i: usize = 0;
            while i < count
                invariant
                    i <= count <= rows@.len(),
                    self.wf(),
                    list == node::links(rows@),
                    journal::carries(old(self)@, self@),
                    model::drop_front(self@, collection, list, count as int, i as int)
                        == model::drop_front(old(self)@, collection, list, count as int, 0),
                decreases count - i,
            {
                self.carry_out(collection, &rows[i].0, rows[i].1);
                self.record_edit(
                    collection,
                    CollectionEdit::Removed { item_key: rows[i].0.clone(), index: 0 },
                );
                i = i + 1;
            }
        }
    }

    /// Upsert, then position, then trim, in that exact order.
    ///
    /// The upsert half keeps the node: an insert for a key the list already
    /// holds reconciles the item's value into the node that key already had.
    fn stream_insert(
        &mut self,
        collection: NodeId,
        item_key: &String,
        item: &JsonValue,
        at: i64,
        limit: Option<i64>,
    ) -> (done: Result<(), TreeError>)
        requires
            old(self).wf(),
        ensures
            final(self).wf(),
            journal::carries(old(self)@, final(self)@),
            forall|ids: Seq<NodeId>| #[trigger]
                journal::follows(final(self)@, ids) ==> model::stream_insert(
                    old(self)@,
                    collection,
                    item_key@,
                    item@,
                    at,
                    limit,
                    ids,
                ) == (final(self)@, transaction::seen(done)),
    {
        proof {
            self.sound();
        }
        let owner = match self.kind_of(collection) {
            Some(NodeKind::Collection { owner, .. }) => owner,
            _ => {
                return Ok(());
            },
        };
        let depth = transaction::deeper(self.depth(collection));
        self.touch_and_dirty(collection);
        let was = match self.claim_row(collection, item_key, depth) {
            Ok(was) => was,
            Err(error) => {
                return Err(error);
            },
        };
        match self.reconcile_child(collection, was, item, &owner, depth) {
            Ok(row) => {
                self.land_row(collection, item_key, was, row, at, limit);
                Ok(())
            },
            Err(error) => Err(error),
        }
    }

    /// Folds one stream op onto its collection node.
    ///
    /// The stream resolves through the tree's own index, never through a
    /// pointer. An op naming a slot the tree does not have is dropped.
    fn apply_stream_op(&mut self, op: &StreamOp) -> (done: Result<(), TreeError>)
        requires
            old(self).wf(),
        ensures
            final(self).wf(),
            journal::carries(old(self)@, final(self)@),
            forall|ids: Seq<NodeId>| #[trigger]
                journal::follows(final(self)@, ids) ==> model::apply_stream_op(
                    old(self)@,
                    *op,
                    ids,
                ) == (final(self)@, transaction::seen(done)),
    {
        self.unclaim();
        proof {
            self.unfold();
            self.arena.unfold();
        }
        let key = StreamKey { owner: op.store_id().copy(), name: op.stream().clone() };
        let collection = match self.arena.streams.get(&key) {
            Some(collection) => collection,
            None => {
                return Ok(());
            },
        };
        if self.get(collection).is_none() {
            return Ok(());
        }
        match op {
            StreamOp::Reset { .. } => {
                self.stream_reset(collection);
                Ok(())
            },
            StreamOp::Delete { item_key, .. } => {
                self.stream_delete(collection, item_key);
                Ok(())
            },
            StreamOp::Insert { item_key, at, item, limit, .. } => self.stream_insert(
                collection,
                item_key,
                item,
                *at,
                *limit,
            ),
        }
    }

    // ------------------------------------------------------------------ batches

    /// Applies one batch: the patch ops first, then the stream ops.
    ///
    /// May be called more than once; every call joins the same transaction. On
    /// an error the ops before it have been applied, and rolling back is what
    /// takes them away.
    pub fn apply(&mut self, ops: &Vec<PatchOp>, stream_ops: &Vec<StreamOp>) -> (done: Result<
        (),
        TreeError,
    >)
        requires
            old(self).wf(),
        ensures
            final(self).wf(),
            journal::carries(old(self)@, final(self)@),
            forall|ids: Seq<NodeId>| #[trigger]
                journal::follows(final(self)@, ids) ==> model::apply_batch(
                    old(self)@,
                    ops@,
                    stream_ops@,
                    ids,
                ) == (final(self)@, transaction::seen(done)),
    {
        proof {
            self.sound();
            self.unfold();
            self.arena.unfold();
        }
        if self.arena.closed {
            return Err(TreeError::Closed);
        }
        let ghost start = self@;
        let mut i: usize = 0;
        while i < ops.len()
            invariant
                i <= ops@.len(),
                self.wf(),
                start == old(self)@,
                !start.closed,
                journal::carries(start, self@),
                forall|ids: Seq<NodeId>| #[trigger]
                    journal::follows(self@, ids) ==> model::apply_patches(start, ops@, 0, ids)
                        == model::apply_patches(self@, ops@, i as int, ids),
            decreases ops.len() - i,
        {
            match self.apply_patch_op(&ops[i]) {
                Ok(_) => {},
                Err(error) => {
                    return Err(error);
                },
            }
            i = i + 1;
        }
        let ghost mid = self@;
        proof {
            self.sound();
        }
        let mut j: usize = 0;
        while j < stream_ops.len()
            invariant
                j <= stream_ops@.len(),
                self.wf(),
                start == old(self)@,
                !start.closed,
                journal::carries(start, mid),
                journal::carries(mid, self@),
                forall|ids: Seq<NodeId>| #[trigger]
                    journal::follows(mid, ids) ==> model::apply_patches(start, ops@, 0, ids) == (
                        mid,
                        Ok::<(), Fault>(()),
                    ),
                forall|ids: Seq<NodeId>| #[trigger]
                    journal::follows(self@, ids) ==> model::apply_streams(
                        mid,
                        stream_ops@,
                        0,
                        ids,
                    ) == model::apply_streams(self@, stream_ops@, j as int, ids),
            decreases stream_ops.len() - j,
        {
            match self.apply_stream_op(&stream_ops[j]) {
                Ok(_) => {},
                Err(error) => {
                    return Err(error);
                },
            }
            j = j + 1;
        }
        Ok(())
    }

    /// Empties the root and refuses every later transaction.
    pub(crate) fn close(&mut self)
        requires
            old(self).wf(),
        ensures
            final(self).wf(),
            journal::carries(old(self)@, final(self)@),
            forall|ids: Seq<NodeId>| #[trigger]
                journal::follows(final(self)@, ids) ==> model::close_tree(old(self)@, ids)
                    == final(self)@,
    {
        broadcast use value::value_views;

        proof {
            self.sound();
            self.unfold();
            self.arena.unfold();
        }
        let root = self.arena.root;
        // `Null` makes no node, so neither cap can refuse this.
        let _ = self.reconcile(root, &JsonValue::Null, &StoreId::root(), 0);
        self.end();
    }
}

/// The rows a limit leaves.
fn trim(rows: &Vec<(String, NodeId)>, limit: Option<i64>, at: i64) -> (kept: Vec<(String, NodeId)>)
    ensures
        node::links(kept@) == model::trimmed(node::links(rows@), limit, at),
{
    let limit = match limit {
        Some(limit) => limit,
        None => {
            return node::copy_links(rows);
        },
    };
    let size: u64 = cap(limit);
    if (rows.len() as u64) <= size {
        return node::copy_links(rows);
    }
    let size: usize = size as usize;
    let ghost list = node::links(rows@);
    let (first, last) = if size > 0 && at == 0 {
        (0usize, size)
    } else {
        (rows.len() - size, rows.len())
    };
    let mut kept: Vec<(String, NodeId)> = Vec::new();
    let mut i: usize = first;
    while i < last
        invariant
            first <= i <= last <= rows@.len(),
            list == node::links(rows@),
            node::links(kept@) == list.subrange(first as int, i as int),
        decreases last - i,
    {
        let ghost before = node::links(kept@);
        kept.push((rows[i].0.clone(), rows[i].1));
        assert(node::links(kept@) =~= before.push(list[i as int]));
        assert(list.subrange(first as int, i + 1) =~= list.subrange(first as int, i as int).push(
            list[i as int],
        ));
        i = i + 1;
    }
    assert(node::links(kept@) =~= model::trimmed(list, Some(limit), at));
    kept
}

/// The tokens from one on.
fn tail_of(tokens: &Vec<String>, from: usize) -> (rest: Vec<String>)
    requires
        from <= tokens@.len(),
    ensures
        text::texts(rest@) == text::texts(tokens@).skip(from as int),
{
    let mut rest: Vec<String> = Vec::new();
    let mut i: usize = from;
    while i < tokens.len()
        invariant
            from <= i <= tokens@.len(),
            rest@.len() == i - from,
            forall|j: int| 0 <= j < i - from ==> (#[trigger] rest@[j])@ == tokens@[from + j]@,
        decreases tokens.len() - i,
    {
        rest.push(tokens[i].clone());
        i = i + 1;
    }
    assert(text::texts(rest@) =~= text::texts(tokens@).skip(from as int));
    rest
}

} // verus!
