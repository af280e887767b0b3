//! Views: handles rooted at one node of a tree.
//!
//! A handle has identity and can be stored; a value is one detached snapshot.
//! Navigation hands out handles, and only `value` and `try_value` read values.

use std::marker::PhantomData;

use vstd::prelude::*;

use crate::state::error::ReadError;
use crate::state::journal::Tree;
use crate::state::keyed;
use crate::state::marker::{ASYNC_REASON_KEY, ASYNC_RESULT_KEY};
use crate::state::node;
use crate::state::node::{AsyncStatus, Kind, NodeId, NodeKind};
use crate::state::text;
use crate::state::text::Chars;
use crate::state::tree::StateTree;
use crate::state::value::JsonValue;
use crate::state::wire::{AsyncError, Path, StoreId, UploadSlot};

verus! {

/// Whether a node is in an open tree.
pub open spec fn alive(tree: Tree, id: NodeId) -> bool {
    !tree.closed && tree.nodes.contains_key(id)
}

/// What a node is, if it exists.
pub open spec fn kind_in(tree: Tree, id: NodeId) -> Option<Kind> {
    if tree.nodes.contains_key(id) {
        Some(tree.nodes[id].kind)
    } else {
        None
    }
}

/// The elements a list-shaped node holds, none for any other.
pub open spec fn elements_in(tree: Tree, id: NodeId) -> Seq<NodeId> {
    match kind_in(tree, id) {
        Some(kind) => kind.ordered(),
        None => Seq::empty(),
    }
}

/// The child under a key, if there is one.
pub open spec fn child_in(tree: Tree, id: NodeId, key: Chars) -> Option<NodeId> {
    match kind_in(tree, id) {
        Some(kind) => kind.child(key),
        None => None,
    }
}

/// The rows of a stream slot, none for any other node.
pub open spec fn rows_in(tree: Tree, id: NodeId) -> Seq<(Chars, NodeId)> {
    match kind_in(tree, id) {
        Some(Kind::Collection { items, .. }) => items,
        _ => Seq::empty(),
    }
}

/// `std::sync::atomic::AtomicPtr`, of which nothing is claimed. It stands in a
/// marker alone, and no value of it is ever made.
#[verifier::external_type_specification]
#[verifier::external_body]
#[verifier::reject_recursive_types(T)]
pub struct ExAtomicPtr<T>(std::sync::atomic::AtomicPtr<T>);

/// A typed view rooted at one node of a retained tree.
///
/// Any subtree is a full view, and passable to a component that knows nothing
/// about the root. The view holds no `T`: it may cross threads whatever `T` is.
#[verifier::reject_recursive_types(T)]
pub struct State<T> {
    node: NodeId,
    marker: PhantomData<std::sync::atomic::AtomicPtr<T>>,
}

impl<T> State<T> {
    /// The node this view is rooted at.
    pub closed spec fn id(&self) -> NodeId {
        self.node
    }

    /// Binds a view to one node.
    pub fn new(node: NodeId) -> (state: State<T>)
        ensures
            state.id() == node,
    {
        State { node, marker: PhantomData }
    }

    /// The node this view is rooted at.
    pub fn node(&self) -> (id: NodeId)
        ensures
            id == self.id(),
    {
        self.node
    }

    /// The node's revision; `0` where it is gone, or no transaction has ever
    /// touched it.
    pub fn revision(&self, tree: &StateTree) -> (revision: u64)
        ensures
            revision == (if tree@.nodes.contains_key(self.id()) {
                tree@.nodes[self.id()].revision
            } else {
                0
            }),
    {
        match tree.node(self.node) {
            Some(node) => node.revision,
            None => 0,
        }
    }

    /// Whether the node is still in an open tree.
    pub fn is_live(&self, tree: &StateTree) -> (live: bool)
        ensures
            live == alive(tree@, self.id()),
    {
        !tree.is_closed() && tree.node(self.node).is_some()
    }

    /// Re-types this view. No data moves.
    pub fn cast<U>(&self) -> (state: State<U>)
        ensures
            state.id() == self.id(),
    {
        State::new(self.node)
    }

    /// The child at `key`.
    ///
    /// Infallible: a key the node does not hold yields a handle on an id no node
    /// ever has, which reads as gone.
    pub fn child<U>(&self, tree: &StateTree, key: &str) -> (state: State<U>)
        ensures
            state.id() == (match child_in(tree@, self.id(), key@) {
                Some(id) => id,
                None => NodeId::none(),
            }),
    {
        match tree.child_by_key(self.node, key) {
            Some(id) => State::new(id),
            None => State::new(NodeId::null()),
        }
    }

    /// The child at `key`, with an absent key reported.
    pub fn field<U>(&self, tree: &StateTree, key: &str) -> (state: Option<State<U>>)
        ensures
            match state {
                Some(found) => child_in(tree@, self.id(), key@) == Some(found.id()),
                None => child_in(tree@, self.id(), key@) is None,
            },
    {
        match tree.child_by_key(self.node, key) {
            Some(id) => Some(State::new(id)),
            None => None,
        }
    }

    /// This subtree's value: one detached snapshot of it.
    pub fn value(&self, tree: &StateTree) -> (value: JsonValue)
        requires
            alive(tree@, self.id()),
        ensures
            value@ == node::hydrated(tree@.nodes[self.id()].sem),
    {
        match tree.to_hydrated(self.node) {
            Some(value) => value,
            None => JsonValue::Null,
        }
    }

    /// This subtree's value, with a node that is gone reported.
    ///
    /// A closed tree reads as gone even where its root node is still there.
    pub fn try_value(&self, tree: &StateTree) -> (value: Result<JsonValue, ReadError>)
        ensures
            match value {
                Ok(found) => alive(tree@, self.id()) && found@ == node::hydrated(
                    tree@.nodes[self.id()].sem,
                ),
                Err(error) => !alive(tree@, self.id()) && error == ReadError::Gone,
            },
    {
        if tree.is_closed() {
            return Err(ReadError::Gone);
        }
        match tree.to_hydrated(self.node) {
            Some(value) => Ok(value),
            None => Err(ReadError::Gone),
        }
    }

    /// A handle on the same node.
    pub fn copy(&self) -> (state: State<T>)
        ensures
            state.id() == self.id(),
    {
        State::new(self.node)
    }
}

impl<T> Clone for State<T> {
    fn clone(&self) -> (state: State<T>)
        ensures
            state.id() == self.id(),
    {
        self.copy()
    }
}

/// Handles on a list of nodes.
pub open spec fn ids_of<T>(list: Seq<State<T>>) -> Seq<NodeId> {
    Seq::new(list.len(), |i: int| list[i].id())
}

/// Handles on a list of nodes.
fn handles<T>(list: &Vec<NodeId>) -> (states: Vec<State<T>>)
    ensures
        ids_of(states@) == list@,
{
    let mut states: Vec<State<T>> = Vec::new();
    let mut i: usize = 0;
    while i < list.len()
        invariant
            i <= list@.len(),
            states@.len() == i,
            forall|j: int| 0 <= j < i ==> (#[trigger] states@[j]).id() == list@[j],
        decreases list.len() - i,
    {
        states.push(State::new(list[i]));
        i = i + 1;
    }
    assert(ids_of(states@) =~= list@);
    states
}

impl<T> State<Vec<T>> {
    /// How many elements the array holds. `0` when the node is not a list.
    pub fn len(&self, tree: &StateTree) -> (count: usize)
        ensures
            count == elements_in(tree@, self.id()).len(),
    {
        tree.ordered_children(self.node).len()
    }

    /// Whether the array is empty.
    pub fn is_empty(&self, tree: &StateTree) -> (empty: bool)
        ensures
            empty == (elements_in(tree@, self.id()).len() == 0),
    {
        self.len(tree) == 0
    }

    /// The element at `index`.
    pub fn at(&self, tree: &StateTree, index: usize) -> (state: Option<State<T>>)
        ensures
            match state {
                Some(found) => index < elements_in(tree@, self.id()).len() && found.id()
                    == elements_in(tree@, self.id())[index as int],
                None => index >= elements_in(tree@, self.id()).len(),
            },
    {
        let list = tree.ordered_children(self.node);
        if index < list.len() {
            Some(State::new(list[index]))
        } else {
            None
        }
    }

    /// The first element.
    pub fn first(&self, tree: &StateTree) -> (state: Option<State<T>>)
        ensures
            match state {
                Some(found) => elements_in(tree@, self.id()).len() > 0 && found.id()
                    == elements_in(tree@, self.id())[0],
                None => elements_in(tree@, self.id()).len() == 0,
            },
    {
        self.at(tree, 0)
    }

    /// The last element.
    pub fn last(&self, tree: &StateTree) -> (state: Option<State<T>>)
        ensures
            match state {
                Some(found) => elements_in(tree@, self.id()).len() > 0 && found.id()
                    == elements_in(tree@, self.id()).last(),
                None => elements_in(tree@, self.id()).len() == 0,
            },
    {
        let len: usize = self.len(tree);
        if len == 0 {
            return None;
        }
        self.at(tree, len - 1)
    }

    /// A handle on every element, in order.
    pub fn iter(&self, tree: &StateTree) -> (states: Vec<State<T>>)
        ensures
            ids_of(states@) == elements_in(tree@, self.id()),
    {
        handles(&tree.ordered_children(self.node))
    }
}

impl<T> State<Option<T>> {
    /// The value view when the node is not `null`.
    pub fn as_some(&self, tree: &StateTree) -> (state: Option<State<T>>)
        ensures
            match state {
                Some(found) => found.id() == self.id() && !is_null(tree@, self.id()),
                None => is_null(tree@, self.id()),
            },
    {
        if self.is_none(tree) {
            return None;
        }
        Some(self.cast())
    }

    /// Whether the node is JSON `null`. A node that is gone is not: `is_live` tells
    /// it apart.
    pub fn is_none(&self, tree: &StateTree) -> (none: bool)
        ensures
            none == is_null(tree@, self.id()),
    {
        match tree.node(self.node) {
            Some(node) => match node.kind {
                NodeKind::Null => true,
                _ => false,
            },
            None => false,
        }
    }
}

/// Whether a node is `null`.
pub open spec fn is_null(tree: Tree, id: NodeId) -> bool {
    kind_in(tree, id) == Some(Kind::Null)
}

/// A stream slot: ordered and keyed.
#[verifier::reject_recursive_types(T)]
pub struct StreamState<T>(State<Vec<T>>);

impl<T> StreamState<T> {
    /// The node this view is rooted at.
    pub closed spec fn id(&self) -> NodeId {
        self.0.id()
    }

    /// Sees a list-shaped view as a keyed one.
    pub fn from_state(state: State<Vec<T>>) -> (stream: StreamState<T>)
        ensures
            stream.id() == state.id(),
    {
        StreamState(state)
    }

    /// How many items the list holds.
    pub fn len(&self, tree: &StateTree) -> (count: usize)
        ensures
            count == elements_in(tree@, self.id()).len(),
    {
        self.0.len(tree)
    }

    /// Whether the list is empty.
    pub fn is_empty(&self, tree: &StateTree) -> (empty: bool)
        ensures
            empty == (elements_in(tree@, self.id()).len() == 0),
    {
        self.len(tree) == 0
    }

    /// The rows, as the tree holds them.
    fn rows(&self, tree: &StateTree) -> (rows: Vec<(String, NodeId)>)
        ensures
            node::links(rows@) == rows_in(tree@, self.id()),
    {
        match tree.node(self.0.node) {
            Some(node) => match node.kind {
                NodeKind::Collection { items, .. } => items,
                _ => {
                    let rows: Vec<(String, NodeId)> = Vec::new();
                    assert(node::links(rows@) =~= Seq::<(Chars, NodeId)>::empty());
                    rows
                },
            },
            None => {
                let rows: Vec<(String, NodeId)> = Vec::new();
                assert(node::links(rows@) =~= Seq::<(Chars, NodeId)>::empty());
                rows
            },
        }
    }

    /// Item keys in list order.
    pub fn keys(&self, tree: &StateTree) -> (keys: Vec<String>)
        ensures
            text::texts(keys@) == Seq::new(
                rows_in(tree@, self.id()).len(),
                |i: int| rows_in(tree@, self.id())[i].0,
            ),
    {
        let rows = self.rows(tree);
        let mut keys: Vec<String> = Vec::new();
        let mut i: usize = 0;
        while i < rows.len()
            invariant
                i <= rows@.len(),
                keys@.len() == i,
                forall|j: int| 0 <= j < i ==> (#[trigger] keys@[j])@ == rows@[j].0@,
            decreases rows.len() - i,
        {
            keys.push(rows[i].0.clone());
            i = i + 1;
        }
        proof {
            let list = rows_in(tree@, self.id());
            assert forall|j: int| 0 <= j < list.len() implies text::texts(keys@)[j] == list[j].0 by {
                assert(list[j] == node::links(rows@)[j]);
            }
            assert(text::texts(keys@) =~= Seq::new(list.len(), |j: int| list[j].0));
        }
        keys
    }

    /// The item with this key. Identity survives repositioning.
    pub fn by_key(&self, tree: &StateTree, item_key: &str) -> (state: Option<State<T>>)
        ensures
            match state {
                Some(found) => keyed::lookup(rows_in(tree@, self.id()), item_key@) == Some(
                    found.id(),
                ),
                None => keyed::lookup(rows_in(tree@, self.id()), item_key@) is None,
            },
    {
        let rows = self.rows(tree);
        match node::link_get(&rows, item_key) {
            Some(id) => Some(State::new(id)),
            None => None,
        }
    }

    /// The item at `index`, in list order.
    pub fn at(&self, tree: &StateTree, index: usize) -> (state: Option<State<T>>)
        ensures
            match state {
                Some(found) => index < elements_in(tree@, self.id()).len() && found.id()
                    == elements_in(tree@, self.id())[index as int],
                None => index >= elements_in(tree@, self.id()).len(),
            },
    {
        self.0.at(tree, index)
    }

    /// `(item_key, item)` in list order.
    pub fn iter(&self, tree: &StateTree) -> (items: Vec<(String, State<T>)>)
        ensures
            Seq::new(items@.len(), |i: int| (items@[i].0@, items@[i].1.id())) == rows_in(
                tree@,
                self.id(),
            ),
    {
        let rows = self.rows(tree);
        let mut items: Vec<(String, State<T>)> = Vec::new();
        let mut i: usize = 0;
        while i < rows.len()
            invariant
                i <= rows@.len(),
                items@.len() == i,
                forall|j: int|
                    0 <= j < i ==> (#[trigger] items@[j]).0@ == rows@[j].0@ && items@[j].1.id()
                        == rows@[j].1,
            decreases rows.len() - i,
        {
            items.push((rows[i].0.clone(), State::new(rows[i].1)));
            i = i + 1;
        }
        proof {
            let list = rows_in(tree@, self.id());
            assert forall|j: int| 0 <= j < list.len() implies (items@[j].0@, items@[j].1.id())
                == list[j] by {
                assert(list[j] == node::links(rows@)[j]);
            }
            assert(Seq::new(items@.len(), |j: int| (items@[j].0@, items@[j].1.id())) =~= list);
        }
        items
    }

    /// The same node seen as an ordinary list.
    pub fn as_state(&self) -> (state: State<Vec<T>>)
        ensures
            state.id() == self.id(),
    {
        self.0.copy()
    }

    /// The node's revision.
    pub fn revision(&self, tree: &StateTree) -> (revision: u64)
        ensures
            revision == (if tree@.nodes.contains_key(self.id()) {
                tree@.nodes[self.id()].revision
            } else {
                0
            }),
    {
        self.0.revision(tree)
    }

    /// The node this view is rooted at.
    pub fn node(&self) -> (id: NodeId)
        ensures
            id == self.id(),
    {
        self.0.node()
    }

    /// The whole list.
    pub fn value(&self, tree: &StateTree) -> (value: JsonValue)
        requires
            alive(tree@, self.id()),
        ensures
            value@ == node::hydrated(tree@.nodes[self.id()].sem),
    {
        self.0.value(tree)
    }

    /// The whole list, with a node that is gone reported.
    pub fn try_value(&self, tree: &StateTree) -> (value: Result<JsonValue, ReadError>)
        ensures
            match value {
                Ok(found) => alive(tree@, self.id()) && found@ == node::hydrated(
                    tree@.nodes[self.id()].sem,
                ),
                Err(error) => !alive(tree@, self.id()) && error == ReadError::Gone,
            },
    {
        self.0.try_value(tree)
    }
}

/// A mounted child store.
#[verifier::reject_recursive_types(S)]
pub struct StoreState<S> {
    state: State<S>,
    /// Read once, when the handle is made, and never re-read: a store id is the
    /// node's identity.
    store_id: Option<StoreId>,
}

/// The id of the store at a node, if it is one.
pub open spec fn store_in(tree: Tree, id: NodeId) -> Option<Path> {
    match kind_in(tree, id) {
        Some(Kind::Store { id: path, .. }) => Some(path),
        _ => None,
    }
}

impl<S> StoreState<S> {
    /// The node this view is rooted at.
    pub closed spec fn id(&self) -> NodeId {
        self.state.id()
    }

    /// The store id the handle was made with.
    pub closed spec fn path(&self) -> Option<Path> {
        match self.store_id {
            Some(id) => Some(id@),
            None => None,
        }
    }

    /// Sees a view as a mounted store; the one place the store id is read.
    pub fn from_state(tree: &StateTree, state: State<S>) -> (store: StoreState<S>)
        ensures
            store.id() == state.id(),
            store.path() == store_in(tree@, state.id()),
    {
        let store_id = match tree.node(state.node()) {
            Some(node) => match node.kind {
                NodeKind::Store { store_id, .. } => Some(store_id),
                _ => None,
            },
            None => None,
        };
        StoreState { state, store_id }
    }

    /// The child's server-authored path, as read when the handle was made, or
    /// `None` when the handle is not on a mounted store node.
    pub fn store_id(&self) -> (id: Option<StoreId>)
        ensures
            match id {
                Some(found) => self.path() == Some(found@),
                None => self.path() is None,
            },
    {
        match &self.store_id {
            Some(id) => Some(id.copy()),
            None => None,
        }
    }

    /// The child's own shape.
    pub fn fields(&self) -> (state: State<S>)
        ensures
            state.id() == self.id(),
    {
        self.state.copy()
    }

    /// The node's revision.
    pub fn revision(&self, tree: &StateTree) -> (revision: u64)
        ensures
            revision == (if tree@.nodes.contains_key(self.id()) {
                tree@.nodes[self.id()].revision
            } else {
                0
            }),
    {
        self.state.revision(tree)
    }

    /// The node this view is rooted at.
    pub fn node(&self) -> (id: NodeId)
        ensures
            id == self.id(),
    {
        self.state.node()
    }

    /// The child store's fields, with the id they were rendered under.
    pub fn value(&self, tree: &StateTree) -> (value: JsonValue)
        requires
            alive(tree@, self.id()),
        ensures
            value@ == node::hydrated(tree@.nodes[self.id()].sem),
    {
        self.state.value(tree)
    }

    /// The same read, with a node that is gone reported.
    pub fn try_value(&self, tree: &StateTree) -> (value: Result<JsonValue, ReadError>)
        ensures
            match value {
                Ok(found) => alive(tree@, self.id()) && found@ == node::hydrated(
                    tree@.nodes[self.id()].sem,
                ),
                Err(error) => !alive(tree@, self.id()) && error == ReadError::Gone,
            },
    {
        self.state.try_value(tree)
    }
}

/// An async node.
#[verifier::reject_recursive_types(T)]
pub struct AsyncState<T>(State<T>);

/// The status of the async node at an id; a node that is anything else, or gone,
/// reads as loading, the one status that promises nothing.
pub open spec fn status_in(tree: Tree, id: NodeId) -> AsyncStatus {
    match kind_in(tree, id) {
        Some(Kind::Async { status, .. }) => status,
        _ => AsyncStatus::Loading,
    }
}

/// The result of the async node at an id, where it is not `null`.
pub open spec fn result_in(tree: Tree, id: NodeId) -> Option<NodeId> {
    match child_in(tree, id, ASYNC_RESULT_KEY@) {
        Some(child) => if kind_in(tree, child) == Some(Kind::Null) {
            None
        } else {
            Some(child)
        },
        None => None,
    }
}

impl<T> AsyncState<T> {
    /// The node this view is rooted at.
    pub closed spec fn id(&self) -> NodeId {
        self.0.id()
    }

    /// Sees a view as an async one.
    pub fn from_state(state: State<T>) -> (view: AsyncState<T>)
        ensures
            view.id() == state.id(),
    {
        AsyncState(state)
    }

    /// Which of the three wire statuses the node is in.
    pub fn status(&self, tree: &StateTree) -> (status: AsyncStatus)
        ensures
            status == status_in(tree@, self.id()),
    {
        match tree.node(self.0.node) {
            Some(node) => match node.kind {
                NodeKind::Async { status, .. } => status,
                _ => AsyncStatus::Loading,
            },
            None => AsyncStatus::Loading,
        }
    }

    /// The `result` subtree. `None` when the wire `result` is `null`.
    pub fn result(&self, tree: &StateTree) -> (state: Option<State<T>>)
        ensures
            match state {
                Some(found) => result_in(tree@, self.id()) == Some(found.id()),
                None => result_in(tree@, self.id()) is None,
            },
    {
        let child: State<T> = match self.0.field(tree, ASYNC_RESULT_KEY) {
            Some(child) => child,
            None => {
                return None;
            },
        };
        match tree.node(child.node) {
            Some(node) => match node.kind {
                NodeKind::Null => None,
                _ => Some(child),
            },
            None => Some(child),
        }
    }

    /// The `reason` subtree; a handle that reads as gone where there is none.
    pub fn reason(&self, tree: &StateTree) -> (state: State<Option<AsyncError>>)
        ensures
            state.id() == (match child_in(tree@, self.id(), ASYNC_REASON_KEY@) {
                Some(id) => id,
                None => NodeId::none(),
            }),
    {
        self.0.child(tree, ASYNC_REASON_KEY)
    }

    /// The node's revision.
    pub fn revision(&self, tree: &StateTree) -> (revision: u64)
        ensures
            revision == (if tree@.nodes.contains_key(self.id()) {
                tree@.nodes[self.id()].revision
            } else {
                0
            }),
    {
        self.0.revision(tree)
    }

    /// The node this view is rooted at.
    pub fn node(&self) -> (id: NodeId)
        ensures
            id == self.id(),
    {
        self.0.node()
    }

    /// The whole async value.
    pub fn value(&self, tree: &StateTree) -> (value: JsonValue)
        requires
            alive(tree@, self.id()),
        ensures
            value@ == node::hydrated(tree@.nodes[self.id()].sem),
    {
        self.0.value(tree)
    }

    /// The same read, with a node that is gone reported.
    pub fn try_value(&self, tree: &StateTree) -> (value: Result<JsonValue, ReadError>)
        ensures
            match value {
                Ok(found) => alive(tree@, self.id()) && found@ == node::hydrated(
                    tree@.nodes[self.id()].sem,
                ),
                Err(error) => !alive(tree@, self.id()) && error == ReadError::Gone,
            },
    {
        self.0.try_value(tree)
    }
}

impl<T> AsyncState<Vec<T>> {
    /// The `result` subtree of a streamed async field, as a keyed collection.
    /// `None` while the result is `null`.
    pub fn ok_stream(&self, tree: &StateTree) -> (stream: Option<StreamState<T>>)
        ensures
            match stream {
                Some(found) => result_in(tree@, self.id()) == Some(found.id()),
                None => result_in(tree@, self.id()) is None,
            },
    {
        match self.result(tree) {
            Some(state) => Some(StreamState::from_state(state)),
            None => None,
        }
    }
}

/// An upload slot. A leaf that knows both halves of its key.
pub struct UploadSlotState(State<UploadSlot>);

/// The key of the upload slot at a node, if it is one.
pub open spec fn upload_in(tree: Tree, id: NodeId) -> Option<(Path, Chars)> {
    match kind_in(tree, id) {
        Some(Kind::Upload { name, owner }) => Some((owner, name)),
        _ => None,
    }
}

impl UploadSlotState {
    /// The node this view is rooted at.
    pub closed spec fn id(&self) -> NodeId {
        self.0.id()
    }

    /// Sees a view as an upload slot.
    pub fn from_state(state: State<UploadSlot>) -> (slot: UploadSlotState)
        ensures
            slot.id() == state.id(),
    {
        UploadSlotState(state)
    }

    /// Both halves of the upload key, or `None` if the slot node is gone.
    pub fn key(&self, tree: &StateTree) -> (key: Option<(StoreId, String)>)
        ensures
            match key {
                Some(found) => upload_in(tree@, self.id()) == Some((found.0@, found.1@)),
                None => upload_in(tree@, self.id()) is None,
            },
    {
        match tree.node(self.0.node) {
            Some(node) => match node.kind {
                NodeKind::UploadSlot { name, owner } => Some((owner, name)),
                _ => None,
            },
            None => None,
        }
    }

    /// The slot's marker.
    pub fn value(&self, tree: &StateTree) -> (value: JsonValue)
        requires
            alive(tree@, self.id()),
        ensures
            value@ == node::hydrated(tree@.nodes[self.id()].sem),
    {
        self.0.value(tree)
    }

    /// The same read, with a node that is gone reported.
    pub fn try_value(&self, tree: &StateTree) -> (value: Result<JsonValue, ReadError>)
        ensures
            match value {
                Ok(found) => alive(tree@, self.id()) && found@ == node::hydrated(
                    tree@.nodes[self.id()].sem,
                ),
                Err(error) => !alive(tree@, self.id()) && error == ReadError::Gone,
            },
    {
        self.0.try_value(tree)
    }

    /// The node's revision.
    pub fn revision(&self, tree: &StateTree) -> (revision: u64)
        ensures
            revision == (if tree@.nodes.contains_key(self.id()) {
                tree@.nodes[self.id()].revision
            } else {
                0
            }),
    {
        self.0.revision(tree)
    }

    /// The node this view is rooted at.
    pub fn node(&self) -> (id: NodeId)
        ensures
            id == self.id(),
    {
        self.0.node()
    }
}

} // verus!
