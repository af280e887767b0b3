//! The retained tree, driven the way an application drives it: one shared tree,
//! callbacks on its nodes, typed reads.

use std::cell::RefCell;
use std::collections::{BTreeMap, HashMap, HashSet};
use std::marker::PhantomData;
use std::rc::{Rc, Weak};
use std::sync::atomic::{AtomicUsize, Ordering};
use std::sync::{Arc, Mutex};

use musubi::state::change::{self, Change, ChangeSet, CollectionEdit};
use musubi::state::error::{ReadError, TreeError};
use musubi::state::model::MAX_DEPTH;
use musubi::state::node::{AsyncStatus, NodeId, NodeKind, Semantic, SemanticValue};
use musubi::state::state as views;
use musubi::state::subscription::SubscriberId;
use musubi::state::transaction;
use musubi::state::tree;
use musubi::state::value::{Number, Object, JsonValue};
use musubi::state::wire::{AsyncError, AsyncErrorKind, AsyncResult, PatchOp, StoreId, StreamOp, UploadSlot};

// ---------------------------------------------------------------- json values

/// A document, from its text.
fn json(text: &str) -> JsonValue {
    from_serde(serde_json::from_str(text).expect("a JSON document"))
}

fn from_serde(value: serde_json::Value) -> JsonValue {
    match value {
        serde_json::Value::Null => JsonValue::Null,
        serde_json::Value::Bool(flag) => JsonValue::Bool(flag),
        serde_json::Value::Number(number) => JsonValue::Number(if let Some(n) = number.as_u64() {
            Number::PosInt(n)
        } else if let Some(n) = number.as_i64() {
            Number::NegInt(n)
        } else {
            Number::Float(number.as_f64().expect("a float").to_bits())
        }),
        serde_json::Value::String(text) => JsonValue::String(text),
        serde_json::Value::Array(items) => JsonValue::Array(items.into_iter().map(from_serde).collect()),
        serde_json::Value::Object(fields) => {
            let mut object = Object::new();

            for (key, value) in fields {
                object.insert(key, from_serde(value));
            }

            JsonValue::Object(object)
        }
    }
}

/// An object with these fields.
fn object(fields: Vec<(&str, JsonValue)>) -> JsonValue {
    let mut object = Object::new();

    for (key, value) in fields {
        object.insert(key.to_owned(), value);
    }

    JsonValue::Object(object)
}

/// A type a document can be read as.
trait Read: Sized {
    fn read(value: &JsonValue) -> Option<Self>;
}

impl Read for JsonValue {
    fn read(value: &JsonValue) -> Option<Self> {
        Some(value.clone())
    }
}

impl Read for i64 {
    fn read(value: &JsonValue) -> Option<Self> {
        match value {
            JsonValue::Number(Number::PosInt(n)) => i64::try_from(*n).ok(),
            JsonValue::Number(Number::NegInt(n)) => Some(*n),
            _ => None,
        }
    }
}

impl Read for bool {
    fn read(value: &JsonValue) -> Option<Self> {
        match value {
            JsonValue::Bool(flag) => Some(*flag),
            _ => None,
        }
    }
}

impl Read for String {
    fn read(value: &JsonValue) -> Option<Self> {
        value.as_str().cloned()
    }
}

impl<T: Read> Read for Vec<T> {
    fn read(value: &JsonValue) -> Option<Self> {
        match value {
            JsonValue::Array(items) => items.iter().map(T::read).collect(),
            _ => None,
        }
    }
}

impl<T: Read> Read for Option<T> {
    fn read(value: &JsonValue) -> Option<Self> {
        match value {
            JsonValue::Null => Some(None),
            other => T::read(other).map(Some),
        }
    }
}

fn member<'a>(value: &'a JsonValue, key: &str) -> Option<&'a JsonValue> {
    match value {
        JsonValue::Object(fields) => fields.get(key),
        _ => None,
    }
}

impl Read for UploadSlot {
    fn read(value: &JsonValue) -> Option<Self> {
        Some(UploadSlot {
            name: String::read(member(value, "__musubi_upload__")?)?,
        })
    }
}

impl Read for AsyncError {
    fn read(value: &JsonValue) -> Option<Self> {
        let kind = match member(value, "kind").and_then(JsonValue::as_str).map(String::as_str) {
            Some("error") => AsyncErrorKind::Error,
            Some("exit") => AsyncErrorKind::Exit,
            _ => return None,
        };

        Some(AsyncError::Structured {
            kind,
            value: member(value, "value")?.clone(),
        })
    }
}

impl<T: Read> Read for AsyncResult<T> {
    fn read(value: &JsonValue) -> Option<Self> {
        let result = member(value, "result")?;
        let reason = Option::<AsyncError>::read(member(value, "reason")?)?;

        match member(value, "status")?.as_str()?.as_str() {
            "loading" => Some(AsyncResult::Loading {
                result: Option::<T>::read(result)?,
                reason,
            }),
            "ok" => Some(AsyncResult::Okay {
                result: T::read(result)?,
                reason,
            }),
            "failed" => Some(AsyncResult::Failed {
                result: Option::<T>::read(result)?,
                reason,
            }),
            _ => None,
        }
    }
}

// --------------------------------------------------- one shared tree, observed

type Callback = Rc<dyn Fn(Change)>;

struct Inner {
    tree: tree::StateTree,
    callbacks: HashMap<u64, Callback>,
}

#[derive(Clone)]
struct StateTree(Rc<RefCell<Inner>>);

/// A committed transaction whose subscribers have not been told yet.
struct Notify {
    inner: change::Notify,
    tree: StateTree,
}

impl Notify {
    fn changes(&self) -> &ChangeSet {
        self.inner.changes()
    }
}

impl std::fmt::Debug for Notify {
    fn fmt(&self, f: &mut std::fmt::Formatter<'_>) -> std::fmt::Result {
        f.debug_list().entries(self.changes().changed()).finish()
    }
}

impl Drop for Notify {
    fn drop(&mut self) {
        let owed: Vec<(Callback, Change)> = {
            let shared = self.tree.0.borrow();

            self.inner
                .owed()
                .iter()
                .filter_map(|owed| {
                    let callback = shared.callbacks.get(&owed.subscriber.as_raw())?;

                    Some((callback.clone(), owed.change))
                })
                .collect()
        };

        for (callback, change) in owed {
            callback(change);
        }
    }
}

/// One observation; dropping it ends it.
struct Subscription {
    tree: Weak<RefCell<Inner>>,
    node: NodeId,
    id: SubscriberId,
}

impl Drop for Subscription {
    fn drop(&mut self) {
        if let Some(shared) = self.tree.upgrade() {
            let mut shared = shared.borrow_mut();

            shared.tree.unsubscribe(self.node, self.id);
            shared.callbacks.remove(&self.id.as_raw());
        }
    }
}

/// An open transaction; dropping it undoes it.
struct Transaction {
    inner: Option<transaction::Transaction>,
    tree: StateTree,
}

impl Transaction {
    fn apply(&mut self, ops: &[PatchOp], stream_ops: &[StreamOp]) -> Result<(), TreeError> {
        self.inner
            .as_mut()
            .expect("open")
            .apply(&ops.to_vec(), &stream_ops.to_vec())
    }

    fn root_id(&self) -> NodeId {
        self.inner.as_ref().expect("open").root_id()
    }

    fn to_hydrated(&self, id: NodeId) -> Option<JsonValue> {
        self.inner.as_ref().expect("open").to_hydrated(id)
    }

    fn commit(mut self) -> Notify {
        let (tree, inner) = self.inner.take().expect("open").commit();

        self.tree.0.borrow_mut().tree = tree;

        Notify {
            inner,
            tree: self.tree.clone(),
        }
    }
}

impl Drop for Transaction {
    fn drop(&mut self) {
        if let Some(open) = self.inner.take() {
            self.tree.0.borrow_mut().tree = open.rollback();
        }
    }
}

impl StateTree {
    fn new() -> StateTree {
        StateTree(Rc::new(RefCell::new(Inner {
            tree: tree::StateTree::new(),
            callbacks: HashMap::new(),
        })))
    }

    fn read<R>(&self, look: impl FnOnce(&tree::StateTree) -> R) -> R {
        look(&self.0.borrow().tree)
    }

    fn apply(&self, ops: &[PatchOp], stream_ops: &[StreamOp]) -> Result<Notify, TreeError> {
        let inner = self
            .0
            .borrow_mut()
            .tree
            .apply(&ops.to_vec(), &stream_ops.to_vec())?;

        Ok(Notify {
            inner,
            tree: self.clone(),
        })
    }

    fn begin(&self) -> Transaction {
        let taken = std::mem::replace(&mut self.0.borrow_mut().tree, tree::StateTree::new());

        Transaction {
            inner: Some(taken.begin()),
            tree: self.clone(),
        }
    }

    fn close(&self) -> Notify {
        let inner = self.0.borrow_mut().tree.close();

        Notify {
            inner,
            tree: self.clone(),
        }
    }

    fn root<T>(&self) -> State<T> {
        State::bind(self, self.read(|tree| tree.root::<T>()))
    }

    fn root_id(&self) -> NodeId {
        self.read(|tree| tree.root_id())
    }

    fn node(&self, id: NodeId) -> Option<tree::Node> {
        self.read(|tree| tree.node(id))
    }

    fn to_wire(&self, id: NodeId) -> Option<JsonValue> {
        self.read(|tree| tree.to_wire(id))
    }

    fn to_hydrated(&self, id: NodeId) -> Option<JsonValue> {
        self.read(|tree| tree.to_hydrated(id))
    }

    fn store_ids(&self) -> Vec<StoreId> {
        self.read(|tree| tree.store_ids())
    }

    fn store_node(&self, id: &StoreId) -> Option<NodeId> {
        self.read(|tree| tree.store_node(id))
    }

    fn len(&self) -> usize {
        self.read(|tree| tree.len())
    }

    fn is_empty(&self) -> bool {
        self.read(|tree| tree.is_empty())
    }

    fn is_closed(&self) -> bool {
        self.read(|tree| tree.is_closed())
    }

    fn subscribe(&self, node: NodeId, callback: impl Fn(Change) + 'static) -> Subscription {
        let mut shared = self.0.borrow_mut();
        let id = shared.tree.subscribe(node);

        shared.callbacks.insert(id.as_raw(), Rc::new(callback));

        Subscription {
            tree: Rc::downgrade(&self.0),
            node,
            id,
        }
    }
}

/// A handle on one node, with the tree it reads.
struct State<T> {
    tree: StateTree,
    view: views::State<T>,
    marker: PhantomData<T>,
}

impl<T> Clone for State<T> {
    fn clone(&self) -> Self {
        State::bind(&self.tree, self.view.clone())
    }
}

impl<T> State<T> {
    fn bind(tree: &StateTree, view: views::State<T>) -> State<T> {
        State {
            tree: tree.clone(),
            view,
            marker: PhantomData,
        }
    }

    fn node(&self) -> NodeId {
        self.view.node()
    }

    fn revision(&self) -> u64 {
        self.tree.read(|tree| self.view.revision(tree))
    }

    fn is_live(&self) -> bool {
        self.tree.read(|tree| self.view.is_live(tree))
    }

    fn cast<U>(&self) -> State<U> {
        State::bind(&self.tree, self.view.cast())
    }

    fn child<U>(&self, key: &str) -> State<U> {
        State::bind(&self.tree, self.tree.read(|tree| self.view.child(tree, key)))
    }

    fn field<U>(&self, key: &str) -> Option<State<U>> {
        let view = self.tree.read(|tree| self.view.field(tree, key))?;

        Some(State::bind(&self.tree, view))
    }

    fn subscribe(&self, callback: impl Fn(Change) + 'static) -> Subscription {
        self.tree.subscribe(self.node(), callback)
    }
}

impl<T: Read> State<T> {
    fn try_value(&self) -> Result<T, ReadError> {
        let value = self.tree.read(|tree| self.view.try_value(tree))?;

        T::read(&value).ok_or(ReadError::Shape("another type".to_owned()))
    }

    fn value(&self) -> T {
        self.try_value().expect("a readable node")
    }
}

impl<T> State<Vec<T>> {
    fn len(&self) -> usize {
        self.tree.read(|tree| self.view.len(tree))
    }

    fn at(&self, index: usize) -> Option<State<T>> {
        let view = self.tree.read(|tree| self.view.at(tree, index))?;

        Some(State::bind(&self.tree, view))
    }

    fn first(&self) -> Option<State<T>> {
        let view = self.tree.read(|tree| self.view.first(tree))?;

        Some(State::bind(&self.tree, view))
    }

    fn last(&self) -> Option<State<T>> {
        let view = self.tree.read(|tree| self.view.last(tree))?;

        Some(State::bind(&self.tree, view))
    }

    fn iter(&self) -> std::vec::IntoIter<State<T>> {
        let views = self.tree.read(|tree| self.view.iter(tree));
        let states: Vec<State<T>> = views
            .into_iter()
            .map(|view| State::bind(&self.tree, view))
            .collect();

        states.into_iter()
    }
}

impl<T> State<Option<T>> {
    fn is_none(&self) -> bool {
        self.tree.read(|tree| self.view.is_none(tree))
    }

    fn as_some(&self) -> Option<State<T>> {
        let view = self.tree.read(|tree| self.view.as_some(tree))?;

        Some(State::bind(&self.tree, view))
    }
}

struct StreamState<T> {
    tree: StateTree,
    view: views::StreamState<T>,
}

impl<T> From<State<Vec<T>>> for StreamState<T> {
    fn from(state: State<Vec<T>>) -> Self {
        StreamState {
            tree: state.tree.clone(),
            view: views::StreamState::from_state(state.view),
        }
    }
}

impl<T> StreamState<T> {
    fn len(&self) -> usize {
        self.tree.read(|tree| self.view.len(tree))
    }

    fn is_empty(&self) -> bool {
        self.tree.read(|tree| self.view.is_empty(tree))
    }

    fn keys(&self) -> Vec<String> {
        self.tree.read(|tree| self.view.keys(tree))
    }

    fn by_key(&self, key: &str) -> Option<State<T>> {
        let view = self.tree.read(|tree| self.view.by_key(tree, key))?;

        Some(State::bind(&self.tree, view))
    }

    fn as_state(&self) -> State<Vec<T>> {
        State::bind(&self.tree, self.view.as_state())
    }

    fn node(&self) -> NodeId {
        self.view.node()
    }
}

struct StoreState<S> {
    tree: StateTree,
    view: views::StoreState<S>,
}

impl<S> From<State<S>> for StoreState<S> {
    fn from(state: State<S>) -> Self {
        StoreState {
            tree: state.tree.clone(),
            view: state.tree.read(|tree| views::StoreState::from_state(tree, state.view.clone())),
        }
    }
}

impl<S> StoreState<S> {
    fn store_id(&self) -> Option<StoreId> {
        self.view.store_id()
    }

    fn fields(&self) -> State<S> {
        State::bind(&self.tree, self.view.fields())
    }

    fn node(&self) -> NodeId {
        self.view.node()
    }

    fn subscribe(&self, callback: impl Fn(Change) + 'static) -> Subscription {
        self.tree.subscribe(self.node(), callback)
    }
}

#[derive(Clone)]
struct AsyncState<T>(State<T>);

impl<T> From<State<T>> for AsyncState<T> {
    fn from(state: State<T>) -> Self {
        AsyncState(state)
    }
}

impl<T> AsyncState<T> {
    fn view(&self) -> views::AsyncState<T> {
        views::AsyncState::from_state(self.0.view.clone())
    }

    fn status(&self) -> AsyncStatus {
        self.0.tree.read(|tree| self.view().status(tree))
    }

    fn result(&self) -> Option<State<T>> {
        let view = self.0.tree.read(|tree| self.view().result(tree))?;

        Some(State::bind(&self.0.tree, view))
    }

    fn revision(&self) -> u64 {
        self.0.tree.read(|tree| self.view().revision(tree))
    }

    fn subscribe(&self, callback: impl Fn(Change) + 'static) -> Subscription {
        self.0.subscribe(callback)
    }
}

impl<T: Read> AsyncState<T> {
    fn value(&self) -> AsyncResult<T> {
        let value = self.0.tree.read(|tree| self.view().try_value(tree));

        AsyncResult::read(&value.expect("a readable node")).expect("an async value")
    }
}

impl<T> AsyncState<Vec<T>> {
    fn ok_stream(&self) -> Option<StreamState<T>> {
        let view = self.0.tree.read(|tree| self.view().ok_stream(tree))?;

        Some(StreamState {
            tree: self.0.tree.clone(),
            view,
        })
    }
}

struct UploadSlotState {
    tree: StateTree,
    view: views::UploadSlotState,
}

impl From<State<UploadSlot>> for UploadSlotState {
    fn from(state: State<UploadSlot>) -> Self {
        UploadSlotState {
            tree: state.tree.clone(),
            view: views::UploadSlotState::from_state(state.view),
        }
    }
}

impl UploadSlotState {
    fn key(&self) -> Option<(StoreId, String)> {
        self.tree.read(|tree| self.view.key(tree))
    }

    fn value(&self) -> UploadSlot {
        let value = self.tree.read(|tree| self.view.try_value(tree));

        UploadSlot::read(&value.expect("a readable node")).expect("an upload slot")
    }

    fn revision(&self) -> u64 {
        self.tree.read(|tree| self.view.revision(tree))
    }

    fn subscribe(&self, callback: impl Fn(Change) + 'static) -> Subscription {
        self.tree.subscribe(self.view.node(), callback)
    }
}

// ------------------------------------------------------------------ helpers

fn edits_of(notify: &Notify, node: NodeId) -> Vec<CollectionEdit> {
    notify.changes().collection_edits(node).to_vec()
}

fn store_id(segments: &[&str]) -> StoreId {
    StoreId::from_segments(segments.iter().map(|segment| segment.to_string()).collect())
}

/// Every node reachable from the root: none is reached twice, none is its own
/// ancestor, and the tree holds nothing the root cannot reach.
fn assert_is_a_tree(tree: &StateTree) -> Vec<NodeId> {
    let mut seen = HashSet::new();
    let mut stack = vec![tree.root_id()];
    let mut nodes = Vec::new();

    while let Some(id) = stack.pop() {
        assert!(seen.insert(id), "node {id:?} is reachable from two parents");
        assert!(nodes.len() < 10_000, "the walk from the root does not end");

        nodes.push(id);
        stack.extend(tree.node(id).expect("live").kind.children());
    }

    for id in &nodes {
        let mut cursor = tree.node(*id).expect("live").parent;
        let mut steps = 0;

        while let Some(current) = cursor {
            assert_ne!(current, *id, "node {id:?} is its own ancestor");

            steps += 1;

            assert!(steps <= MAX_DEPTH + 1, "node {id:?} has no root above it");

            cursor = tree.node(current).expect("live").parent;
        }
    }

    assert_eq!(
        nodes.len(),
        tree.len(),
        "the tree holds nodes the root cannot reach"
    );

    nodes
}

fn replace(path: &str, value: JsonValue) -> PatchOp {
    PatchOp::Replace {
        path: path.to_owned(),
        value,
    }
}

fn add(path: &str, value: JsonValue) -> PatchOp {
    PatchOp::Add {
        path: path.to_owned(),
        value,
    }
}

fn remove(path: &str) -> PatchOp {
    PatchOp::Remove {
        path: path.to_owned(),
    }
}

fn insert_op(item_key: &str, at: i64, item: JsonValue, limit: Option<i64>) -> StreamOp {
    StreamOp::Insert {
        stream: "messages".to_owned(),
        store_id: StoreId::root(),
        item_key: item_key.to_owned(),
        at,
        item,
        limit,
    }
}

fn row_insert_op(segments: &[&str], item_key: &str, item: JsonValue) -> StreamOp {
    StreamOp::Insert {
        stream: "messages".to_owned(),
        store_id: store_id(segments),
        item_key: item_key.to_owned(),
        at: -1,
        item,
        limit: None,
    }
}

fn reset_op() -> StreamOp {
    StreamOp::Reset {
        stream: "messages".to_owned(),
        store_id: StoreId::root(),
    }
}

fn delete_op(item_key: &str) -> StreamOp {
    StreamOp::Delete {
        stream: "messages".to_owned(),
        store_id: StoreId::root(),
        item_key: item_key.to_owned(),
    }
}

fn seeded(value: JsonValue) -> StateTree {
    let tree = StateTree::new();

    commit(&tree, &[replace("", value)], &[]);

    tree
}

fn commit(tree: &StateTree, ops: &[PatchOp], stream_ops: &[StreamOp]) {
    drop(
        tree.apply(ops, stream_ops)
            .expect("the transaction was expected to apply"),
    );
}

#[derive(Clone, Default)]
struct Log(Arc<Mutex<Vec<&'static str>>>);

impl Log {
    fn watch<T>(&self, label: &'static str, state: &State<T>) -> Subscription {
        let log = self.0.clone();

        state.subscribe(move |_| log.lock().expect("test log").push(label))
    }

    fn taken(&self) -> Vec<&'static str> {
        let mut taken = std::mem::take(&mut *self.0.lock().expect("test log"));

        taken.sort_unstable();

        taken
    }
}

fn semantic(tree: &StateTree, id: NodeId) -> SemanticValue {
    tree.node(id).expect("the node is live").semantic
}

fn field_semantic(tree: &StateTree, parent: NodeId, key: &str) -> SemanticValue {
    let semantic = semantic(tree, parent);
    let fields = match semantic.get() {
        Semantic::Object(fields) | Semantic::Store { fields, .. } => fields,
        other => panic!("not an object: {other:?}"),
    };

    fields
        .iter()
        .find(|(name, _)| name == key)
        .map(|(_, value)| value.share())
        .expect("no such key")
}

#[test]
fn null_is_always_equal() {
    let tree = seeded(json(r#"{"a": null}"#));
    let node = tree.root::<JsonValue>().field::<JsonValue>("a").expect("a").node();
    let before = tree.node(node).expect("live").revision;

    commit(&tree, &[replace("/a", json("null"))], &[]);

    assert_eq!(tree.node(node).expect("live").revision, before);
}

#[test]
fn scalars_compare_by_value_and_a_retyped_number_is_a_change() {
    let tree = seeded(json(r#"{"n": 1, "s": "a", "b": true}"#));
    let root = tree.root::<JsonValue>();
    let log = Log::default();
    let number = root.field::<i64>("n").expect("n");
    let _watch = log.watch("n", &number);

    commit(&tree, &[replace("/n", json("1"))], &[]);

    assert!(log.taken().is_empty());

    commit(&tree, &[replace("/n", json("1.0"))], &[]);

    assert_eq!(log.taken(), ["n"]);

    commit(&tree, &[replace("/s", json(r#""b""#))], &[]);
    commit(&tree, &[replace("/b", json("false"))], &[]);

    assert!(!root.field::<bool>("b").expect("b").value());
    assert_eq!(root.field::<String>("s").expect("s").value(), "b");
}

#[test]
fn an_object_compares_by_key_set_and_key_order_is_not_part_of_the_value() {
    let tree = seeded(json(r#"{"o": {"a": 1, "b": 2}}"#));
    let log = Log::default();
    let object = tree.root::<JsonValue>().field::<JsonValue>("o").expect("o");
    let _watch = log.watch("o", &object);

    commit(&tree, &[replace("/o", json(r#"{"b": 2, "a": 1}"#))], &[]);

    assert!(log.taken().is_empty());

    commit(
        &tree,
        &[replace("/o", json(r#"{"a": 1, "b": 2, "c": 3}"#))],
        &[],
    );

    assert_eq!(log.taken(), ["o"]);
}

#[test]
fn a_store_node_compares_by_store_id_and_by_its_fields() {
    let tree = seeded(json(r#"{"__musubi_store_id__": [], "total": 1}"#));
    let log = Log::default();
    let root = tree.root::<JsonValue>();
    let _watch = log.watch("root", &root);

    commit(
        &tree,
        &[replace("", json(r#"{"__musubi_store_id__": [], "total": 1}"#))],
        &[],
    );

    assert!(log.taken().is_empty());

    commit(
        &tree,
        &[replace(
            "",
            json(r#"{"__musubi_store_id__": ["other"], "total": 1}"#),
        )],
        &[],
    );

    assert_eq!(log.taken(), ["root"]);
    assert_eq!(tree.store_ids(), [store_id(&["other"])]);
}

#[test]
fn an_array_compares_by_length_and_by_index() {
    let tree = seeded(json(r#"{"list": [1, 2]}"#));
    let log = Log::default();
    let list = tree
        .root::<JsonValue>()
        .field::<Vec<i64>>("list")
        .expect("list");
    let _watch = log.watch("list", &list.clone().cast::<JsonValue>());

    commit(&tree, &[replace("/list", json("[1, 2]"))], &[]);

    assert!(log.taken().is_empty());

    commit(&tree, &[replace("/list", json("[1, 2, 3]"))], &[]);

    assert_eq!(log.taken(), ["list"]);
    assert_eq!(list.len(), 3);
    assert_eq!(list.at(2).expect("index 2").value(), 3);
    assert_eq!(list.first().expect("first").value(), 1);
    assert_eq!(list.last().expect("last").value(), 3);
    assert_eq!(
        list.iter().map(|item| item.value()).collect::<Vec<i64>>(),
        [1, 2, 3]
    );
}

#[test]
fn a_collection_compares_as_an_ordered_key_sequence() {
    let tree = streaming_tree();
    let messages = messages_state(&tree);
    let log = Log::default();
    let _watch = log.watch("messages", &messages.as_state().cast::<JsonValue>());

    commit(
        &tree,
        &[],
        &[
            insert_op("a", -1, json(r#"{"id": "a"}"#), None),
            insert_op("b", -1, json(r#"{"id": "b"}"#), None),
        ],
    );

    assert_eq!(log.taken(), ["messages"]);
    assert_eq!(keys(&messages), ["a", "b"]);

    commit(
        &tree,
        &[],
        &[
            insert_op("a", 0, json(r#"{"id": "a"}"#), None),
            insert_op("b", -1, json(r#"{"id": "b"}"#), None),
        ],
    );

    assert!(log.taken().is_empty());

    commit(&tree, &[], &[insert_op("b", 0, json(r#"{"id": "b"}"#), None)]);

    assert_eq!(log.taken(), ["messages"]);
    assert_eq!(keys(&messages), ["b", "a"]);
}

#[test]
fn an_async_node_compares_by_status_result_and_reason() {
    let tree = seeded(json(r#"{ "feed": {"__musubi_async__": true, "status": "loading", "result": null, "reason": null} }"#));
    let feed = AsyncState::from(tree.root::<JsonValue>().field::<i64>("feed").expect("feed"));
    let log = Log::default();
    let watched = feed.clone();
    let hits = Arc::new(AtomicUsize::new(0));
    let seen = hits.clone();
    let _watch = watched.subscribe(move |_| {
        seen.fetch_add(1, Ordering::SeqCst);
    });

    assert_eq!(feed.status(), AsyncStatus::Loading);
    assert!(feed.result().is_none());

    commit(
        &tree,
        &[replace(
            "/feed",
            json(r#"{"__musubi_async__": true, "status": "ok", "result": 7, "reason": null}"#),
        )],
        &[],
    );

    assert_eq!(hits.load(Ordering::SeqCst), 1);
    assert_eq!(feed.status(), AsyncStatus::Okay);
    assert_eq!(feed.result().expect("a result").value(), 7);
    assert_eq!(
        feed.value(),
        AsyncResult::Okay {
            result: 7,
            reason: None
        }
    );

    let result = feed.result().expect("a result");
    let result_revision = result.revision();

    commit(
        &tree,
        &[replace(
            "/feed",
            json(r#"{"__musubi_async__": true, "status": "loading", "result": 7, "reason": null}"#),
        )],
        &[],
    );

    assert_eq!(hits.load(Ordering::SeqCst), 2);
    assert_eq!(feed.status(), AsyncStatus::Loading);
    assert_eq!(result.revision(), result_revision);
    let _ = log;
}

#[test]
fn an_op_addressing_an_async_node_writes_the_field_it_names() {
    let tree = seeded(json(r#"{ "feed": {"__musubi_async__": true, "status": "loading", "result": 7, "reason": null} }"#));
    let feed = AsyncState::from(tree.root::<JsonValue>().field::<i64>("feed").expect("feed"));
    let result = feed.result().expect("a result");
    let result_revision = result.revision();

    commit(
        &tree,
        &[
            replace("/feed/status", json(r#""failed""#)),
            replace("/feed/reason", json(r#"{"kind": "error", "value": "nope"}"#)),
        ],
        &[],
    );

    assert_eq!(feed.status(), AsyncStatus::Failed);
    assert_eq!(
        result.revision(),
        result_revision,
        "the preserved result is untouched by either op"
    );
    assert!(matches!(
        feed.value(),
        AsyncResult::Failed {
            result: Some(7),
            reason: Some(AsyncError::Structured { .. })
        }
    ));

    let revision = feed.revision();

    commit(&tree, &[replace("/feed/status", json(r#""failed""#))], &[]);

    assert_eq!(feed.revision(), revision);

    let error = tree
        .apply(&[replace("/feed/status", json(r#""queued""#))], &[])
        .expect_err("an unknown status is refused");

    assert!(matches!(error, TreeError::Pointer { .. }));
    assert_eq!(feed.status(), AsyncStatus::Failed);
}

#[test]
fn an_upload_slot_is_inert_and_carries_both_halves_of_its_key() {
    let tree = seeded(json(r#"{ "__musubi_store_id__": [], "panel": {"__musubi_store_id__": ["panel"], "avatar": {"__musubi_upload__": "avatar"}} }"#));
    let panel = tree.root::<JsonValue>().field::<JsonValue>("panel").expect("panel");
    let slot = UploadSlotState::from(panel.field::<UploadSlot>("avatar").expect("avatar"));
    let hits = Arc::new(AtomicUsize::new(0));
    let seen = hits.clone();
    let _watch = slot.subscribe(move |_| {
        seen.fetch_add(1, Ordering::SeqCst);
    });

    let (owner, name) = slot.key().expect("a live slot");

    assert_eq!(owner, store_id(&["panel"]));
    assert_eq!(name, "avatar");
    assert_eq!(
        slot.value(),
        UploadSlot {
            name: "avatar".to_owned()
        }
    );

    let revision = slot.revision();

    commit(
        &tree,
        &[replace(
            "/panel/avatar",
            json(r#"{"__musubi_upload__": "avatar"}"#),
        )],
        &[],
    );

    assert_eq!(hits.load(Ordering::SeqCst), 0);
    assert_eq!(slot.revision(), revision);
}

#[test]
fn two_kinds_are_never_equal() {
    let tree = seeded(json(r#"{"a": []}"#));
    let log = Log::default();
    let node = tree.root::<JsonValue>().field::<JsonValue>("a").expect("a");
    let _watch = log.watch("a", &node);

    commit(&tree, &[replace("/a", json("{}"))], &[]);

    assert_eq!(log.taken(), ["a"]);
}

#[test]
fn one_to_two_to_one_inside_a_transaction_notifies_nobody() {
    let tree = seeded(json(r#"{"count": 1}"#));
    let count = tree.root::<JsonValue>().field::<i64>("count").expect("count");
    let log = Log::default();
    let _watch = log.watch("count", &count);
    let revision = count.revision();

    commit(
        &tree,
        &[replace("/count", json("2")), replace("/count", json("1"))],
        &[],
    );

    assert!(log.taken().is_empty());
    assert_eq!(count.revision(), revision);
    assert_eq!(count.value(), 1);
}

#[test]
fn one_to_two_to_one_across_two_apply_calls_of_one_transaction_notifies_nobody() {
    let tree = seeded(json(r#"{"count": 1}"#));
    let count = tree.root::<JsonValue>().field::<i64>("count").expect("count");
    let log = Log::default();
    let _watch = log.watch("count", &count);
    let revision = count.revision();

    let mut transaction = tree.begin();

    transaction
        .apply(&[replace("/count", json("2"))], &[])
        .expect("applies");
    transaction
        .apply(&[replace("/count", json("1"))], &[])
        .expect("applies");

    drop(transaction.commit());

    assert!(log.taken().is_empty());
    assert_eq!(count.revision(), revision);
}

#[test]
fn a_failed_op_rolls_the_whole_transaction_back() {
    let tree = seeded(json(r#"{"count": 1, "items": [{"name": "foo"}]}"#));
    let root = tree.root::<JsonValue>();
    let count = root.field::<i64>("count").expect("count");
    let name = root
        .field::<JsonValue>("items")
        .and_then(|items| items.cast::<Vec<JsonValue>>().at(0))
        .and_then(|item| item.field::<String>("name"))
        .expect("items[0].name");
    let log = Log::default();
    let _watch = log.watch("count", &count);
    let before = (
        tree.len(),
        count.revision(),
        name.node(),
        tree.to_wire(tree.root_id()),
    );

    let error = tree
        .apply(
            &[
                replace("/count", json("9")),
                add("/items/-", json(r#"{"name": "new"}"#)),
                replace("/missing/deep", json("1")),
            ],
            &[],
        )
        .expect_err("the third op cannot resolve");

    assert!(matches!(error, TreeError::Pointer { .. }));
    assert!(log.taken().is_empty());
    assert_eq!(
        (
            tree.len(),
            count.revision(),
            name.node(),
            tree.to_wire(tree.root_id())
        ),
        before
    );
    assert_eq!(count.value(), 1);
}

#[test]
fn a_dropped_transaction_rolls_back_and_the_tree_is_untouched() {
    let tree = seeded(json(r#"{"count": 1}"#));
    let count = tree.root::<JsonValue>().field::<i64>("count").expect("count");
    let before = tree.to_wire(tree.root_id());

    {
        let mut transaction = tree.begin();

        transaction
            .apply(&[replace("/count", json("2"))], &[])
            .expect("applies");

        assert_eq!(
            transaction
                .to_hydrated(transaction.root_id())
                .expect("a live root"),
            json(r#"{"count": 2}"#)
        );
    }

    assert_eq!(tree.to_wire(tree.root_id()), before);
    assert_eq!(count.value(), 1);
}

#[test]
fn ops_apply_left_to_right_and_before_stream_ops() {
    let tree = StateTree::new();

    commit(
        &tree,
        &[replace(
            "",
            json(r#"{"__musubi_store_id__": [], "messages": {"__musubi_stream__": "messages"}}"#),
        )],
        &[insert_op("a", -1, json(r#"{"id": "a"}"#), None)],
    );

    let messages = StreamState::from(
        tree.root::<JsonValue>()
            .field::<Vec<JsonValue>>("messages")
            .expect("messages"),
    );

    assert_eq!(keys(&messages), ["a"]);
}

#[test]
fn a_fresh_root_has_revision_zero_until_the_first_patch_lands() {
    let tree = StateTree::new();

    assert_eq!(tree.root::<JsonValue>().revision(), 0);

    commit(&tree, &[replace("", json(r#"{"count": 1}"#))], &[]);

    assert_eq!(tree.root::<JsonValue>().revision(), 1);
}

#[test]
fn only_the_dirty_path_is_recomputed_and_untouched_siblings_keep_everything() {
    let tree = seeded(json(r#"{"count": 1, "items": [{"name": "foo"}]}"#));
    let root = tree.root::<JsonValue>();
    let root_id = root.node();
    let count = root.field::<i64>("count").expect("count");
    let before_revision = count.revision();
    let before_semantic = semantic(&tree, count.node());
    let before_in_parent = field_semantic(&tree, root_id, "count");

    assert!(before_semantic.is_shared_with(&before_in_parent));

    commit(&tree, &[replace("/items/0/name", json(r#""bar""#))], &[]);

    let after_semantic = semantic(&tree, count.node());
    let after_in_parent = field_semantic(&tree, root_id, "count");

    assert_eq!(count.revision(), before_revision);
    assert!(before_semantic.is_shared_with(&after_semantic));
    assert!(before_semantic.is_shared_with(&after_in_parent));
}

#[test]
fn a_removed_node_is_notified_once_and_then_reads_as_dead() {
    let tree = seeded(json(r#"{"a": {"deep": 1}}"#));
    let a = tree.root::<JsonValue>().field::<JsonValue>("a").expect("a");
    let deep = a.field::<i64>("deep").expect("deep");
    let log = Log::default();
    let _watch_a = log.watch("a", &a);
    let _watch_deep = log.watch("deep", &deep);

    commit(&tree, &[remove("/a")], &[]);

    assert_eq!(log.taken(), ["a", "deep"]);
    assert!(!a.is_live());
    assert!(!deep.is_live());
    assert!(matches!(a.try_value(), Err(ReadError::Gone)));
    assert_eq!(a.revision(), 0);

    commit(&tree, &[replace("", json(r#"{"b": 1}"#))], &[]);

    assert!(log.taken().is_empty());
}

#[test]
fn a_replace_reconciles_rather_than_destroying_the_nodes_it_did_not_change() {
    let tree = seeded(json(r#"{"count": 1, "items": [{"name": "foo"}]}"#));
    let root = tree.root::<JsonValue>();
    let root_id = root.node();
    let count = root.field::<i64>("count").expect("count");
    let name = root
        .field::<Vec<JsonValue>>("items")
        .and_then(|items| items.at(0))
        .and_then(|item| item.field::<String>("name"))
        .expect("items[0].name");
    let log = Log::default();
    let _watch = log.watch("name", &name);
    let ids = (root_id, count.node(), name.node());

    commit(
        &tree,
        &[replace("", json(r#"{"count": 1, "items": [{"name": "bar"}]}"#))],
        &[],
    );

    assert_eq!(
        (
            tree.root_id(),
            count.node(),
            root.field::<Vec<JsonValue>>("items")
                .and_then(|items| items.at(0))
                .and_then(|item| item.field::<String>("name"))
                .expect("items[0].name")
                .node()
        ),
        ids
    );
    assert_eq!(log.taken(), ["name"]);
    assert_eq!(name.value(), "bar");
    assert!(name.is_live());
}

#[test]
fn worked_example_of_handoff_section_31() {
    let tree = seeded(json(r#"{"count": 1, "items": [{"name": "foo"}]}"#));
    let root = tree.root::<JsonValue>();
    let count = root.field::<i64>("count").expect("count");
    let items = root.field::<Vec<JsonValue>>("items").expect("items");
    let item = items.at(0).expect("items[0]");
    let name = item.field::<String>("name").expect("name");
    let log = Log::default();

    let _a = log.watch("A", &count);
    let _b = log.watch("B", &items.clone().cast::<JsonValue>());
    let _c = log.watch("C", &item);
    let _d = log.watch("D", &name);
    let _e = log.watch("E", &root);

    let notify = tree
        .apply(&[replace("/items/0/name", json(r#""bar""#))], &[])
        .expect("applies");

    assert_eq!(
        notify.changes().changed(),
        [name.node(), item.node(), items.node(), root.node()]
    );
    assert!(!notify.changes().contains(count.node()));

    drop(notify);

    assert_eq!(log.taken(), ["B", "C", "D", "E"]);
}

fn streaming_tree() -> StateTree {
    seeded(json(r#"{ "__musubi_store_id__": [], "title": "Inbox", "current_user": {"name": "me"}, "feed": {"messages": {"__musubi_stream__": "messages"}} }"#))
}

fn messages_state(tree: &StateTree) -> StreamState<JsonValue> {
    let feed = tree.root::<JsonValue>().field::<JsonValue>("feed").expect("feed");

    StreamState::from(feed.field::<Vec<JsonValue>>("messages").expect("messages"))
}

fn keys(messages: &StreamState<JsonValue>) -> Vec<String> {
    messages
        .keys()
        .into_iter()
        .map(|key| key.to_string())
        .collect()
}

#[test]
fn worked_example_of_a_stream_insert() {
    let tree = streaming_tree();
    let messages = messages_state(&tree);

    commit(
        &tree,
        &[],
        &[
            insert_op("msg-2", -1, json(r#"{"id": "2", "body": "two"}"#), None),
            insert_op("msg-1", -1, json(r#"{"id": "1", "body": "one"}"#), None),
        ],
    );

    let root = tree.root::<JsonValue>();
    let feed = root.field::<JsonValue>("feed").expect("feed");
    let title = root.field::<String>("title").expect("title");
    let message_one = messages.by_key("msg-1").expect("msg-1");
    let log = Log::default();

    let _a = log.watch("A", &title);
    let _b = log.watch("B", &feed);
    let _c = log.watch("C", &messages.as_state().cast::<JsonValue>());
    let _d = log.watch("D", &message_one);
    let _e = log.watch("E", &root);

    let (revision_one, node_one) = (message_one.revision(), message_one.node());
    let node_two = messages.by_key("msg-2").expect("msg-2").node();

    let notify = tree
        .apply(
            &[],
            &[insert_op(
                "msg-3",
                0,
                json(r#"{"id": "3", "body": "hi"}"#),
                Some(-100),
            )],
        )
        .expect("applies");

    let edits = edits_of(&notify, messages.node());

    drop(notify);

    assert_eq!(log.taken(), ["B", "C", "E"]);
    assert_eq!(keys(&messages), ["msg-3", "msg-2", "msg-1"]);
    assert_eq!(message_one.revision(), revision_one);
    assert_eq!(message_one.node(), node_one);
    assert_eq!(messages.by_key("msg-2").expect("msg-2").node(), node_two);
    assert_eq!(
        edits,
        [CollectionEdit::Inserted {
            item_key: "msg-3".to_owned(),
            index: 0,
            node: messages.by_key("msg-3").expect("msg-3").node(),
        }]
    );
}

#[test]
fn a_pure_reposition_moves_the_row_and_leaves_it_unnotified() {
    let tree = streaming_tree();
    let messages = messages_state(&tree);

    commit(
        &tree,
        &[],
        &[
            insert_op("msg-2", -1, json(r#"{"id": "2"}"#), None),
            insert_op("msg-1", -1, json(r#"{"id": "1"}"#), None),
        ],
    );

    let message_one = messages.by_key("msg-1").expect("msg-1");
    let log = Log::default();
    let _c = log.watch("C", &messages.as_state().cast::<JsonValue>());
    let _d = log.watch("D", &message_one);
    let node = message_one.node();

    let notify = tree
        .apply(&[], &[insert_op("msg-1", 0, json(r#"{"id": "1"}"#), None)])
        .expect("applies");
    let edits = edits_of(&notify, messages.node());

    drop(notify);

    assert_eq!(log.taken(), ["C"]);
    assert_eq!(keys(&messages), ["msg-1", "msg-2"]);
    assert_eq!(messages.by_key("msg-1").expect("msg-1").node(), node);
    assert_eq!(
        edits,
        [CollectionEdit::Moved {
            item_key: "msg-1".to_owned(),
            from: 1,
            to: 0,
        }]
    );
}

#[test]
fn a_limit_trim_removes_the_overflow_row_and_kills_its_node() {
    let tree = streaming_tree();
    let messages = messages_state(&tree);

    commit(
        &tree,
        &[],
        &[
            insert_op("a", -1, json(r#"{"id": "a"}"#), Some(-2)),
            insert_op("b", -1, json(r#"{"id": "b"}"#), Some(-2)),
        ],
    );

    let dropped = messages.by_key("a").expect("a");
    let log = Log::default();
    let _watch = log.watch("a", &dropped);

    let notify = tree
        .apply(&[], &[insert_op("c", -1, json(r#"{"id": "c"}"#), Some(-2))])
        .expect("applies");
    let edits = edits_of(&notify, messages.node());

    drop(notify);

    assert_eq!(log.taken(), ["a"]);
    assert!(!dropped.is_live());
    assert_eq!(keys(&messages), ["b", "c"]);
    assert_eq!(
        edits,
        [
            CollectionEdit::Inserted {
                item_key: "c".to_owned(),
                index: 2,
                node: messages.by_key("c").expect("c").node(),
            },
            CollectionEdit::Removed {
                item_key: "a".to_owned(),
                index: 0,
            }
        ]
    );
}

#[test]
fn a_trim_of_several_rows_reports_them_in_removal_order_from_either_end() {
    let front = {
        let tree = streaming_tree();
        let messages = messages_state(&tree);

        commit(
            &tree,
            &[],
            &[
                insert_op("a", -1, json(r#"{"id": "a"}"#), None),
                insert_op("b", -1, json(r#"{"id": "b"}"#), None),
                insert_op("c", -1, json(r#"{"id": "c"}"#), None),
                insert_op("d", -1, json(r#"{"id": "d"}"#), None),
            ],
        );

        let notify = tree
            .apply(&[], &[insert_op("e", -1, json(r#"{"id": "e"}"#), Some(-2))])
            .expect("applies");
        let edits = edits_of(&notify, messages.node());

        drop(notify);

        assert_eq!(keys(&messages), ["d", "e"]);

        edits
    };

    assert_eq!(
        front[1..],
        [
            CollectionEdit::Removed {
                item_key: "a".to_owned(),
                index: 0,
            },
            CollectionEdit::Removed {
                item_key: "b".to_owned(),
                index: 0,
            },
            CollectionEdit::Removed {
                item_key: "c".to_owned(),
                index: 0,
            },
        ]
    );

    let back = {
        let tree = streaming_tree();
        let messages = messages_state(&tree);

        commit(
            &tree,
            &[],
            &[
                insert_op("a", -1, json(r#"{"id": "a"}"#), None),
                insert_op("b", -1, json(r#"{"id": "b"}"#), None),
                insert_op("c", -1, json(r#"{"id": "c"}"#), None),
                insert_op("d", -1, json(r#"{"id": "d"}"#), None),
            ],
        );

        let notify = tree
            .apply(&[], &[insert_op("e", 0, json(r#"{"id": "e"}"#), Some(-2))])
            .expect("applies");
        let edits = edits_of(&notify, messages.node());

        drop(notify);

        assert_eq!(keys(&messages), ["e", "a"]);

        edits
    };

    assert_eq!(
        back[1..],
        [
            CollectionEdit::Removed {
                item_key: "d".to_owned(),
                index: 4,
            },
            CollectionEdit::Removed {
                item_key: "c".to_owned(),
                index: 3,
            },
            CollectionEdit::Removed {
                item_key: "b".to_owned(),
                index: 2,
            },
        ]
    );
}

#[test]
fn a_reset_and_reinsert_refresh_carries_every_row_node_over() {
    let tree = streaming_tree();
    let messages = messages_state(&tree);

    commit(
        &tree,
        &[],
        &[
            insert_op("a", -1, json(r#"{"id": "a", "body": "one"}"#), None),
            insert_op("b", -1, json(r#"{"id": "b", "body": "two"}"#), None),
        ],
    );

    let row_a = messages.by_key("a").expect("a");
    let row_b = messages.by_key("b").expect("b");
    let body_a = row_a.field::<String>("body").expect("body");
    let (node_a, node_b, revision_b) = (row_a.node(), row_b.node(), row_b.revision());
    let log = Log::default();
    let _a = log.watch("a", &row_a);
    let _b = log.watch("b", &row_b);
    let _body = log.watch("body-a", &body_a);

    commit(
        &tree,
        &[],
        &[
            reset_op(),
            insert_op("a", -1, json(r#"{"id": "a", "body": "edited"}"#), None),
            insert_op("b", -1, json(r#"{"id": "b", "body": "two"}"#), None),
        ],
    );

    assert_eq!(messages.by_key("a").expect("a").node(), node_a);
    assert_eq!(messages.by_key("b").expect("b").node(), node_b);
    assert_eq!(log.taken(), ["a", "body-a"]);
    assert_eq!(row_b.revision(), revision_b);
    assert_eq!(body_a.value(), "edited");
    assert!(row_a.is_live());
}

#[test]
fn a_carried_row_that_nothing_reinserts_is_freed_at_commit() {
    let tree = streaming_tree();
    let messages = messages_state(&tree);

    commit(&tree, &[], &[insert_op("a", -1, json(r#"{"id": "a"}"#), None)]);

    let row = messages.by_key("a").expect("a");
    let log = Log::default();
    let _watch = log.watch("a", &row);

    commit(&tree, &[], &[reset_op()]);

    assert_eq!(log.taken(), ["a"]);
    assert!(!row.is_live());
    assert!(messages.is_empty());
}

#[test]
fn an_upsert_keeps_the_row_node_and_pushes_only_the_field_that_moved() {
    let tree = streaming_tree();
    let messages = messages_state(&tree);

    commit(
        &tree,
        &[],
        &[insert_op("a", -1, json(r#"{"id": "a", "body": "hi"}"#), None)],
    );

    let row = messages.by_key("a").expect("a");
    let id = row.field::<String>("id").expect("id");
    let body = row.field::<String>("body").expect("body");
    let (node, id_revision) = (row.node(), id.revision());
    let log = Log::default();
    let _id = log.watch("id", &id);
    let _body = log.watch("body", &body);

    commit(
        &tree,
        &[],
        &[insert_op(
            "a",
            -1,
            json(r#"{"id": "a", "body": "edited"}"#),
            None,
        )],
    );

    assert_eq!(messages.by_key("a").expect("a").node(), node);
    assert_eq!(log.taken(), ["body"]);
    assert_eq!(id.revision(), id_revision);
}

#[test]
fn a_brand_new_row_notifies_the_list_and_neither_the_row_nor_its_siblings() {
    let tree = seeded(json(r#"{ "__musubi_store_id__": [], "feed": {"messages": {"__musubi_stream__": "messages"}}, "list": [{"n": 1}] }"#));
    let messages = messages_state(&tree);

    commit(
        &tree,
        &[],
        &[insert_op("old", -1, json(r#"{"id": "old"}"#), None)],
    );

    let list = tree
        .root::<JsonValue>()
        .field::<Vec<JsonValue>>("list")
        .expect("list");
    let sibling = messages.by_key("old").expect("old");
    let element = list.at(0).expect("list[0]");
    let log = Log::default();
    let _collection = log.watch("collection", &messages.as_state());
    let _sibling = log.watch("sibling", &sibling);
    let _array = log.watch("array", &list);
    let _element = log.watch("element", &element);

    let notify = tree
        .apply(
            &[add("/list/-", json(r#"{"n": 2}"#))],
            &[insert_op("new", -1, json(r#"{"id": "new"}"#), None)],
        )
        .expect("applies");
    let fresh_row = messages.by_key("new").expect("new").node();
    let fresh_element = list.at(1).expect("list[1]").node();

    assert!(notify.changes().contains(messages.node()));
    assert!(notify.changes().contains(list.node()));
    assert!(!notify.changes().contains(fresh_row));
    assert!(!notify.changes().contains(fresh_element));

    drop(notify);

    assert_eq!(log.taken(), ["array", "collection"]);
    assert_eq!(tree.node(fresh_row).expect("the new row").revision, 1);
    assert_eq!(
        tree.node(fresh_element).expect("the new element").revision,
        1
    );
}

#[test]
fn a_stream_row_adopted_out_by_a_patch_records_the_removal_its_delete_no_longer_can() {
    let tree = seeded(json(r#"{ "__musubi_store_id__": [], "feed": {"messages": {"__musubi_stream__": "messages"}}, "slot": null }"#));
    let messages = messages_state(&tree);
    let row = json(r#"{ "__musubi_store_id__": ["a"], "inner": {"__musubi_stream__": "messages"} }"#);

    commit(
        &tree,
        &[],
        &[
            insert_op("a", -1, row.clone(), None),
            insert_op("b", -1, json(r#"{"id": "b"}"#), None),
            row_insert_op(&["a"], "a1", json(r#"{"id": "a1"}"#)),
        ],
    );

    let store = StoreState::from(messages.by_key("a").expect("a"));
    let node = store.node();

    let notify = tree
        .apply(&[replace("/slot", row.clone())], &[delete_op("a")])
        .expect("applies");
    let edits = edits_of(&notify, messages.node());

    drop(notify);

    assert_is_a_tree(&tree);
    assert_eq!(keys(&messages), ["b"]);
    assert_eq!(
        edits,
        [CollectionEdit::Removed {
            item_key: "a".to_owned(),
            index: 0,
        }]
    );
    assert_eq!(
        tree.root::<JsonValue>()
            .field::<JsonValue>("slot")
            .expect("slot")
            .node(),
        node
    );
    assert_eq!(
        store.fields().value(),
        json(r#"{"__musubi_store_id__": ["a"], "inner": [{"id": "a1"}]}"#)
    );
}

#[test]
fn a_stream_row_that_stops_being_the_store_it_was_does_not_keep_its_node() {
    let tree = streaming_tree();
    let messages = messages_state(&tree);

    commit(
        &tree,
        &[],
        &[insert_op(
            "a",
            -1,
            json(r#"{"__musubi_store_id__": ["row", "a"], "n": 1}"#),
            None,
        )],
    );

    let row = StoreState::from(messages.by_key("a").expect("a"));
    let node = row.node();

    assert_eq!(tree.store_node(&store_id(&["row", "a"])), Some(node));

    commit(
        &tree,
        &[],
        &[insert_op(
            "a",
            -1,
            json(r#"{"__musubi_store_id__": ["row", "b"], "n": 1}"#),
            None,
        )],
    );

    let fresh = StoreState::from(messages.by_key("a").expect("a"));

    assert_is_a_tree(&tree);
    assert_ne!(fresh.node(), node);
    assert!(!row.fields().is_live());
    assert_eq!(tree.store_node(&store_id(&["row", "a"])), None);
    assert_eq!(
        tree.store_node(&store_id(&["row", "b"])),
        Some(fresh.node())
    );
    assert_eq!(keys(&messages), ["a"]);
}

#[test]
fn a_delete_drops_the_row_and_a_stream_op_for_an_unknown_slot_is_ignored() {
    let tree = streaming_tree();
    let messages = messages_state(&tree);

    commit(
        &tree,
        &[],
        &[
            insert_op("a", -1, json(r#"{"id": "a"}"#), None),
            insert_op("b", -1, json(r#"{"id": "b"}"#), None),
        ],
    );

    let notify = tree.apply(&[], &[delete_op("a")]).expect("applies");
    let edits = edits_of(&notify, messages.node());

    drop(notify);

    assert_eq!(keys(&messages), ["b"]);
    assert_eq!(
        edits,
        [CollectionEdit::Removed {
            item_key: "a".to_owned(),
            index: 0
        }]
    );

    let before = tree.len();

    commit(
        &tree,
        &[],
        &[StreamOp::Insert {
            stream: "absent".to_owned(),
            store_id: StoreId::root(),
            item_key: "x".to_owned(),
            at: -1,
            item: json(r#"{"id": "x"}"#),
            limit: None,
        }],
    );

    assert_eq!(tree.len(), before);
}

#[test]
fn a_rewrite_into_the_same_list_changes_nothing_and_edits_nothing() {
    let tree = streaming_tree();
    let messages = messages_state(&tree);

    commit(
        &tree,
        &[],
        &[
            insert_op("a", -1, json(r#"{"id": "a"}"#), None),
            insert_op("b", -1, json(r#"{"id": "b"}"#), None),
        ],
    );

    let notify = tree
        .apply(
            &[],
            &[
                reset_op(),
                insert_op("a", -1, json(r#"{"id": "a"}"#), None),
                insert_op("b", -1, json(r#"{"id": "b"}"#), None),
            ],
        )
        .expect("applies");

    assert!(notify.changes().is_empty());
    assert!(
        notify
            .changes()
            .collection_edits(messages.node())
            .is_empty()
    );

    drop(notify);
}

#[test]
fn insert_positioning_and_trimming_match_the_typescript_client() {
    let cases: Vec<(Vec<StreamOp>, Vec<&str>)> = vec![
        (
            vec![
                insert_op("a", -1, json("{}"), None),
                insert_op("b", -1, json("{}"), None),
                insert_op("c", 0, json("{}"), None),
            ],
            vec!["c", "a", "b"],
        ),
        (
            vec![
                insert_op("a", -1, json("{}"), None),
                insert_op("b", -2, json("{}"), None),
                insert_op("c", -7, json("{}"), None),
            ],
            vec!["c", "b", "a"],
        ),
        (
            vec![
                insert_op("a", -1, json("{}"), None),
                insert_op("b", -1, json("{}"), None),
                insert_op("c", 99, json("{}"), None),
            ],
            vec!["a", "b", "c"],
        ),
        (
            vec![
                insert_op("a", -1, json("{}"), None),
                insert_op("b", -1, json("{}"), None),
                insert_op("c", -1, json("{}"), None),
                insert_op("a", 2, json("{}"), None),
            ],
            vec!["b", "c", "a"],
        ),
        (
            vec![
                insert_op("a", -1, json("{}"), None),
                insert_op("b", -1, json("{}"), Some(0)),
            ],
            vec![],
        ),
        (
            vec![
                insert_op("a", -1, json("{}"), Some(-2)),
                insert_op("b", -1, json("{}"), Some(-2)),
                insert_op("c", -1, json("{}"), Some(-2)),
            ],
            vec!["b", "c"],
        ),
        (
            vec![
                insert_op("a", 0, json("{}"), Some(-2)),
                insert_op("b", 0, json("{}"), Some(-2)),
                insert_op("c", 0, json("{}"), Some(-2)),
            ],
            vec!["c", "b"],
        ),
        (
            vec![
                insert_op("a", -1, json("{}"), Some(2)),
                insert_op("b", -1, json("{}"), Some(2)),
                insert_op("c", 1, json("{}"), Some(2)),
            ],
            vec!["c", "b"],
        ),
    ];

    for (ops, expected) in cases {
        let tree = streaming_tree();
        let messages = messages_state(&tree);

        commit(&tree, &[], &ops);

        assert_eq!(keys(&messages), expected, "for {ops:?}");
    }
}

#[test]
fn a_child_store_that_moved_keeps_its_node_its_subtree_and_its_subscribers() {
    let tree = seeded(json(r#"{ "__musubi_store_id__": [], "panel": {"__musubi_store_id__": ["panel"], "total": 1} }"#));
    let panel = StoreState::from(tree.root::<JsonValue>().field::<JsonValue>("panel").expect("panel"));
    let total = panel.fields().field::<i64>("total").expect("total");
    let (node, total_node) = (panel.node(), total.node());
    let log = Log::default();
    let _watch = log.watch("total", &total);

    assert_eq!(panel.store_id(), Some(store_id(&["panel"])));

    commit(
        &tree,
        &[replace(
            "",
            json(r#"{ "__musubi_store_id__": [], "rows": [{"__musubi_store_id__": ["panel"], "total": 1}] }"#),
        )],
        &[],
    );

    let moved = tree
        .root::<JsonValue>()
        .field::<Vec<JsonValue>>("rows")
        .and_then(|rows| rows.at(0))
        .expect("rows[0]");

    assert_eq!(moved.node(), node);
    assert_eq!(total.node(), total_node);
    assert_eq!(total.value(), 1);
    assert!(log.taken().is_empty());
    assert_eq!(tree.store_node(&store_id(&["panel"])), Some(node));
}

#[test]
fn an_unmounted_store_takes_its_subtree_and_its_collections_with_it() {
    let tree = seeded(json(r#"{ "__musubi_store_id__": [], "panel": { "__musubi_store_id__": ["panel"], "rows": {"__musubi_stream__": "rows"} } }"#));

    commit(
        &tree,
        &[],
        &[StreamOp::Insert {
            stream: "rows".to_owned(),
            store_id: store_id(&["panel"]),
            item_key: "r1".to_owned(),
            at: -1,
            item: json(r#"{"id": "r1"}"#),
            limit: None,
        }],
    );

    let panel = tree.root::<JsonValue>().field::<JsonValue>("panel").expect("panel");
    let rows = StreamState::from(panel.field::<Vec<JsonValue>>("rows").expect("rows"));

    assert_eq!(rows.len(), 1);
    assert_eq!(tree.store_ids().len(), 2);

    commit(&tree, &[remove("/panel")], &[]);

    assert!(!panel.is_live());
    assert_eq!(tree.store_ids(), [StoreId::root()]);

    commit(
        &tree,
        &[add(
            "/panel",
            json(r#"{"__musubi_store_id__": ["panel"], "rows": {"__musubi_stream__": "rows"}}"#),
        )],
        &[],
    );

    let fresh = tree.root::<JsonValue>().field::<JsonValue>("panel").expect("panel");
    let fresh_rows = StreamState::from(fresh.field::<Vec<JsonValue>>("rows").expect("rows"));

    assert!(fresh_rows.is_empty());
    assert_ne!(fresh.node(), panel.node());
}

#[test]
fn an_add_that_shifts_a_store_one_slot_right_moves_its_node_rather_than_rebuilding_it() {
    let tree = seeded(json(r#"{ "__musubi_store_id__": [], "rows": [{"__musubi_store_id__": ["panel"], "total": 1}] }"#));
    let rows = tree
        .root::<JsonValue>()
        .field::<Vec<JsonValue>>("rows")
        .expect("rows");
    let panel = StoreState::from(rows.at(0).expect("rows[0]"));
    let total = panel.fields().field::<i64>("total").expect("total");
    let (node, total_node) = (panel.node(), total.node());

    commit(&tree, &[add("/rows/0", json(r#"{"kind": "banner"}"#))], &[]);

    assert_eq!(rows.len(), 2);
    assert_eq!(rows.at(1).expect("rows[1]").node(), node);
    assert_eq!(total.node(), total_node);
    assert!(total.is_live());
    assert_eq!(total.value(), 1);
    assert_eq!(tree.store_node(&store_id(&["panel"])), Some(node));
    assert_eq!(
        rows.at(0).expect("rows[0]").value(),
        json(r#"{"kind": "banner"}"#)
    );
}

#[test]
fn a_store_that_swaps_places_with_its_sibling_keeps_both_nodes() {
    let tree = seeded(json(r#"{ "__musubi_store_id__": [], "rows": [ {"__musubi_store_id__": ["a"], "n": 1}, {"__musubi_store_id__": ["b"], "n": 2} ] }"#));
    let rows = tree
        .root::<JsonValue>()
        .field::<Vec<JsonValue>>("rows")
        .expect("rows");
    let (first, second) = (
        rows.at(0).expect("rows[0]").node(),
        rows.at(1).expect("rows[1]").node(),
    );

    commit(
        &tree,
        &[replace(
            "/rows",
            json(r#"[ {"__musubi_store_id__": ["b"], "n": 2}, {"__musubi_store_id__": ["a"], "n": 1} ]"#),
        )],
        &[],
    );

    assert_eq!(rows.at(0).expect("rows[0]").node(), second);
    assert_eq!(rows.at(1).expect("rows[1]").node(), first);
    assert_eq!(
        rows.value(),
        [
            json(r#"{"__musubi_store_id__": ["b"], "n": 2}"#),
            json(r#"{"__musubi_store_id__": ["a"], "n": 1}"#)
        ]
    );
}

#[test]
fn one_store_id_rendered_under_two_keys_becomes_two_nodes() {
    let tree = seeded(json(r#"{ "__musubi_store_id__": [], "x": {"__musubi_store_id__": ["dup"], "label": "A"}, "y": {"__musubi_store_id__": ["dup"], "label": "B"} }"#));
    let root = tree.root::<JsonValue>();
    let (x, y) = (
        root.field::<JsonValue>("x").expect("x"),
        root.field::<JsonValue>("y").expect("y"),
    );

    assert_ne!(x.node(), y.node());
    assert_eq!(
        x.value(),
        json(r#"{"__musubi_store_id__": ["dup"], "label": "A"}"#)
    );
    assert_eq!(
        y.value(),
        json(r#"{"__musubi_store_id__": ["dup"], "label": "B"}"#)
    );

    commit(&tree, &[remove("/x")], &[]);

    assert!(!x.is_live());
    assert!(y.is_live());
}

#[test]
fn a_node_reparented_after_it_was_dirtied_settles_before_its_new_ancestors() {
    let tree = seeded(json(r#"{ "__musubi_store_id__": [], "p": {"__musubi_store_id__": ["p"], "total": 1}, "a": {"b": {"c": {"old": true}}} }"#));

    commit(
        &tree,
        &[
            replace("/p/total", json("5")),
            replace(
                "",
                json(r#"{ "__musubi_store_id__": [], "a": {"b": {"c": {"__musubi_store_id__": ["p"], "total": 5}}} }"#),
            ),
        ],
        &[],
    );

    assert_eq!(
        tree.root::<JsonValue>().value(),
        json(r#"{ "__musubi_store_id__": [], "a": {"b": {"c": {"__musubi_store_id__": ["p"], "total": 5}}} }"#)
    );
}

#[test]
fn a_store_rendered_under_its_own_descendant_gets_a_node_of_its_own() {
    let tree = seeded(json(r#"{ "__musubi_store_id__": [], "a": {"__musubi_store_id__": ["X"], "inner": {"k": 1}} }"#));
    let outer = tree.root::<JsonValue>().field::<JsonValue>("a").expect("a");

    tree.apply(
        &[add(
            "/a/inner/self",
            json(r#"{"__musubi_store_id__": ["X"], "inner": {"k": 2}}"#),
        )],
        &[],
    )
    .expect("the op applies rather than spinning");

    assert_is_a_tree(&tree);

    let nested = outer
        .field::<JsonValue>("inner")
        .and_then(|inner| inner.field::<JsonValue>("self"))
        .expect("/a/inner/self");

    assert_ne!(nested.node(), outer.node());
    assert!(outer.is_live());
    assert_eq!(
        nested.value(),
        json(r#"{"__musubi_store_id__": ["X"], "inner": {"k": 2}}"#)
    );
}

#[test]
fn a_store_rendered_as_a_child_of_itself_gets_a_node_of_its_own() {
    let tree = seeded(json(r#"{ "__musubi_store_id__": [], "a": {"__musubi_store_id__": ["p"], "n": 1} }"#));
    let panel = tree.root::<JsonValue>().field::<JsonValue>("a").expect("a");

    tree.apply(
        &[
            replace("/a/n", json("2")),
            add("/a/child", json(r#"{"__musubi_store_id__": ["p"], "n": 3}"#)),
        ],
        &[],
    )
    .expect("the ops apply rather than spinning");

    assert_is_a_tree(&tree);

    let child = panel.field::<JsonValue>("child").expect("/a/child");

    assert_ne!(child.node(), panel.node());
    assert_eq!(
        panel.value(),
        json(r#"{ "__musubi_store_id__": ["p"], "n": 2, "child": {"__musubi_store_id__": ["p"], "n": 3} }"#)
    );
}

#[test]
fn a_bare_marker_rendered_under_its_own_subtree_leaves_that_subtree_standing() {
    let tree = seeded(json(r#"{ "__musubi_store_id__": [], "a": {"__musubi_store_id__": ["X"], "inner": {"k": 1}} }"#));

    tree.apply(
        &[add("/a/inner/self", json(r#"{"__musubi_store_id__": ["X"]}"#))],
        &[],
    )
    .expect("the op applies");

    assert_is_a_tree(&tree);
    assert_eq!(
        tree.root::<JsonValue>().value(),
        json(r#"{ "__musubi_store_id__": [], "a": { "__musubi_store_id__": ["X"], "inner": {"k": 1, "self": {"__musubi_store_id__": ["X"]}} } }"#)
    );
}

#[test]
fn one_stream_rendered_under_two_keys_of_one_store_becomes_two_collections() {
    let tree = seeded(json(r#"{ "__musubi_store_id__": [], "panel": { "__musubi_store_id__": ["panel"], "messages": {"__musubi_stream__": "messages"} } }"#));

    commit(
        &tree,
        &[],
        &[row_insert_op(&["panel"], "m1", json(r#"{"id": "m1"}"#))],
    );

    let panel = tree.root::<JsonValue>().field::<JsonValue>("panel").expect("panel");
    let messages = panel
        .field::<Vec<JsonValue>>("messages")
        .expect("messages")
        .node();

    commit(
        &tree,
        &[add(
            "/panel/mirror",
            json(r#"{"__musubi_stream__": "messages"}"#),
        )],
        &[],
    );

    assert_is_a_tree(&tree);
    assert_ne!(
        panel.field::<Vec<JsonValue>>("mirror").expect("mirror").node(),
        messages
    );
    assert_eq!(
        panel.value(),
        json(r#"{ "__musubi_store_id__": ["panel"], "messages": [{"id": "m1"}], "mirror": [] }"#)
    );
}

fn nest(levels: usize) -> JsonValue {
    nest_around(levels, json("1"))
}

fn descend(field: &str, levels: usize) -> String {
    let mut path = field.to_owned();

    for _ in 0..levels {
        path.push_str("/n");
    }

    path
}

#[test]
fn a_value_that_would_nest_past_the_depth_cap_is_refused_and_the_tree_stays_usable() {
    let tree = seeded(json(r#"{"count": 1}"#));
    let mut path = String::new();

    for _ in 0..MAX_DEPTH {
        path.push_str("/n");

        commit(&tree, &[add(&path, json("{}"))], &[]);
    }

    let before = tree.to_wire(tree.root_id());
    let nodes = tree.len();

    path.push_str("/n");

    let error = tree
        .apply(&[add(&path, json("{}"))], &[])
        .expect_err("one level past the cap is refused");

    assert!(matches!(error, TreeError::Depth { .. }));
    assert_eq!(tree.to_wire(tree.root_id()), before);
    assert_eq!(tree.len(), nodes);

    commit(&tree, &[replace("/count", json("2"))], &[]);

    assert_eq!(
        tree.root::<JsonValue>()
            .field::<i64>("count")
            .expect("count")
            .value(),
        2
    );
}

#[test]
fn one_value_is_measured_against_the_same_cap_as_a_run_of_ops() {
    let tree = StateTree::new();

    commit(&tree, &[replace("", nest(MAX_DEPTH + 1))], &[]);

    assert!(
        tree.apply(&[replace("", nest(MAX_DEPTH + 2))], &[])
            .is_err()
    );
    assert!(
        tree.apply(&[], &[insert_op("a", -1, nest(MAX_DEPTH + 2), None)],)
            .is_ok(),
        "a stream op for a slot this tree does not have is still dropped, not refused"
    );
}

#[test]
fn a_stream_item_is_measured_against_the_depth_cap_too() {
    let tree = streaming_tree();

    let error = tree
        .apply(&[], &[insert_op("a", -1, nest(MAX_DEPTH), None)])
        .expect_err("an item deeper than the cap is refused");

    assert!(matches!(error, TreeError::Depth { .. }));
    assert!(messages_state(&tree).is_empty());

    commit(&tree, &[], &[insert_op("a", -1, json(r#"{"id": "a"}"#), None)]);

    assert_eq!(keys(&messages_state(&tree)), ["a"]);
}

fn nest_around(levels: usize, leaf: JsonValue) -> JsonValue {
    let mut value = leaf;

    for _ in 1..levels {
        value = object(vec![("n", value)]);
    }

    value
}

/// The tall child store, around its one field.
fn tall_render(n: JsonValue) -> JsonValue {
    object(vec![
        ("__musubi_store_id__", json(r#"["tall"]"#)),
        ("n", n),
    ])
}

fn tall_store_tree() -> StateTree {
    seeded(object(vec![
        ("__musubi_store_id__", json("[]")),
        ("count", json("1")),
        ("tall", tall_render(nest(200))),
        ("near", nest(50)),
        ("far", nest(120)),
    ]))
}

#[test]
fn an_adoption_that_would_compose_past_the_depth_cap_is_refused() {
    let tree = tall_store_tree();
    let render = tall_render(nest(200));
    let node = tree.store_node(&store_id(&["tall"])).expect("tall");
    let before = tree.to_wire(tree.root_id());
    let nodes = tree.len();

    let error = tree
        .apply(&[replace(&descend("/far", 119), render.clone())], &[])
        .expect_err("an adoption past the cap is refused");

    assert!(matches!(error, TreeError::Depth { .. }));
    assert_eq!(tree.to_wire(tree.root_id()), before);
    assert_eq!(tree.len(), nodes);
    assert_eq!(tree.store_node(&store_id(&["tall"])), Some(node));

    commit(&tree, &[replace("/count", json("2"))], &[]);

    assert_eq!(
        tree.root::<JsonValue>()
            .field::<i64>("count")
            .expect("count")
            .value(),
        2
    );
}

#[test]
fn an_adoption_that_carries_an_already_dirty_node_past_the_cap_is_refused_before_commit() {
    let tree = tall_store_tree();
    let before = tree.to_wire(tree.root_id());
    let nodes = tree.len();

    let error = tree
        .apply(
            &[
                replace(&descend("/tall", 200), json("2")),
                replace(
                    &descend("/far", 119),
                    tall_render(nest_around(200, json("2"))),
                ),
            ],
            &[],
        )
        .expect_err("an adoption past the cap is refused");

    assert!(matches!(error, TreeError::Depth { .. }));
    assert_eq!(tree.to_wire(tree.root_id()), before);
    assert_eq!(tree.len(), nodes);
}

#[test]
fn re_adopting_one_subtree_across_envelopes_is_measured_against_the_cap_every_time() {
    let tree = tall_store_tree();
    let render = tall_render(nest(200));
    let node = tree.store_node(&store_id(&["tall"])).expect("tall");

    commit(
        &tree,
        &[replace(&descend("/near", 49), render.clone())],
        &[],
    );

    assert_is_a_tree(&tree);
    assert_eq!(tree.store_node(&store_id(&["tall"])), Some(node));
    assert_eq!(
        tree.root::<JsonValue>()
            .field::<JsonValue>("tall")
            .expect("tall")
            .value(),
        JsonValue::Null
    );

    let before = tree.to_wire(tree.root_id());

    let error = tree
        .apply(&[replace(&descend("/far", 119), render)], &[])
        .expect_err("the second move is measured against the tree it now has");

    assert!(matches!(error, TreeError::Depth { .. }));
    assert_eq!(tree.to_wire(tree.root_id()), before);
    assert_eq!(tree.store_node(&store_id(&["tall"])), Some(node));
}

#[test]
fn a_store_that_lands_before_its_old_key_is_vacated_keeps_its_node() {
    let tree = seeded(json(r#"{ "__musubi_store_id__": [], "a": {"__musubi_store_id__": ["p"], "n": 1}, "b": {} }"#));
    let panel = StoreState::from(tree.root::<JsonValue>().field::<JsonValue>("a").expect("a"));
    let node = panel.node();
    let hits = Arc::new(AtomicUsize::new(0));
    let seen = hits.clone();
    let _watch = panel.subscribe(move |_| {
        seen.fetch_add(1, Ordering::SeqCst);
    });

    commit(
        &tree,
        &[
            add("/b/w", json(r#"{"__musubi_store_id__": ["p"], "n": 1}"#)),
            replace("/a", json("null")),
        ],
        &[],
    );

    assert_is_a_tree(&tree);
    assert_eq!(tree.store_node(&store_id(&["p"])), Some(node));
    assert_eq!(
        tree.root::<JsonValue>().value(),
        json(r#"{ "__musubi_store_id__": [], "a": null, "b": {"w": {"__musubi_store_id__": ["p"], "n": 1}} }"#)
    );
    assert!(panel.fields().is_live());
    assert_eq!(hits.load(Ordering::SeqCst), 0);

    commit(&tree, &[replace("/b/w/n", json("2"))], &[]);

    assert_eq!(hits.load(Ordering::SeqCst), 1);
}

#[test]
fn a_vacated_key_the_render_drops_altogether_is_removable() {
    let tree = seeded(json(r#"{ "__musubi_store_id__": [], "a": {"__musubi_store_id__": ["p"], "n": 1}, "b": {} }"#));
    let node = tree.root::<JsonValue>().field::<JsonValue>("a").expect("a").node();

    commit(
        &tree,
        &[
            add("/b/w", json(r#"{"__musubi_store_id__": ["p"], "n": 1}"#)),
            remove("/a"),
        ],
        &[],
    );

    assert_is_a_tree(&tree);
    assert_eq!(tree.store_node(&store_id(&["p"])), Some(node));
    assert_eq!(
        tree.root::<JsonValue>().value(),
        json(r#"{ "__musubi_store_id__": [], "b": {"w": {"__musubi_store_id__": ["p"], "n": 1}} }"#)
    );
}

#[test]
fn a_replace_that_lands_a_store_living_elsewhere_moves_its_node() {
    let tree = seeded(json(r#"{ "__musubi_store_id__": [], "panel": {"__musubi_store_id__": ["x"], "n": 1}, "slot": null }"#));
    let panel = StoreState::from(tree.root::<JsonValue>().field::<JsonValue>("panel").expect("panel"));
    let total = panel.fields().field::<i64>("n").expect("n");
    let (node, total_node, nodes) = (panel.node(), total.node(), tree.len());
    let log = Log::default();
    let _watch = log.watch("n", &total);

    commit(
        &tree,
        &[
            replace("/slot", json(r#"{"__musubi_store_id__": ["x"], "n": 1}"#)),
            replace("/panel", json("null")),
        ],
        &[],
    );

    let moved = tree.root::<JsonValue>().field::<JsonValue>("slot").expect("slot");

    assert_is_a_tree(&tree);
    assert_eq!(moved.node(), node);
    assert_eq!(total.node(), total_node);
    assert!(log.taken().is_empty());
    assert_eq!(tree.store_node(&store_id(&["x"])), Some(node));
    assert_eq!(tree.store_ids().len(), 2);
    assert_eq!(tree.len(), nodes);
    assert_eq!(
        tree.root::<JsonValue>().value(),
        json(r#"{ "__musubi_store_id__": [], "panel": null, "slot": {"__musubi_store_id__": ["x"], "n": 1} }"#)
    );
}

#[test]
fn a_store_removed_and_landed_again_in_one_envelope_keeps_its_node() {
    let tree = seeded(json(r#"{ "__musubi_store_id__": [], "left": {"__musubi_store_id__": ["x"], "n": 1}, "right": null }"#));
    let panel = StoreState::from(tree.root::<JsonValue>().field::<JsonValue>("left").expect("left"));
    let node = panel.node();
    let hits = Arc::new(AtomicUsize::new(0));
    let seen = hits.clone();
    let _watch = panel.subscribe(move |_| {
        seen.fetch_add(1, Ordering::SeqCst);
    });

    commit(
        &tree,
        &[
            remove("/left"),
            replace("/right", json(r#"{"__musubi_store_id__": ["x"], "n": 1}"#)),
        ],
        &[],
    );

    assert_is_a_tree(&tree);
    assert_eq!(
        tree.root::<JsonValue>()
            .field::<JsonValue>("right")
            .expect("right")
            .node(),
        node
    );
    assert_eq!(tree.store_node(&store_id(&["x"])), Some(node));
    assert_eq!(hits.load(Ordering::SeqCst), 0);
}

#[test]
fn a_slot_given_a_different_store_id_does_not_reuse_the_old_store_node() {
    let tree = seeded(json(r#"{ "__musubi_store_id__": [], "panel": {"__musubi_store_id__": ["a"], "n": 1} }"#));
    let panel = StoreState::from(tree.root::<JsonValue>().field::<JsonValue>("panel").expect("panel"));

    assert_eq!(panel.store_id(), Some(store_id(&["a"])));

    commit(
        &tree,
        &[replace(
            "/panel",
            json(r#"{"__musubi_store_id__": ["b"], "n": 2}"#),
        )],
        &[],
    );

    let fresh = StoreState::from(tree.root::<JsonValue>().field::<JsonValue>("panel").expect("panel"));

    assert!(!panel.fields().is_live());
    assert_ne!(fresh.node(), panel.node());
    assert_eq!(fresh.store_id(), Some(store_id(&["b"])));
    assert_eq!(tree.store_node(&store_id(&["a"])), None);
    assert_eq!(tree.store_node(&store_id(&["b"])), Some(fresh.node()));

    commit(
        &tree,
        &[replace(
            "/panel",
            json(r#"{"__musubi_store_id__": ["b"], "n": 3}"#),
        )],
        &[],
    );

    assert_eq!(
        tree.root::<JsonValue>()
            .field::<JsonValue>("panel")
            .expect("panel")
            .node(),
        fresh.node()
    );
    assert!(fresh.fields().is_live());
}

#[test]
fn a_stream_item_may_take_a_store_an_earlier_patch_op_placed() {
    let tree = seeded(json(r#"{ "__musubi_store_id__": [], "slot": null, "messages": {"__musubi_stream__": "messages"} }"#));

    commit(
        &tree,
        &[replace(
            "/slot",
            json(r#"{"__musubi_store_id__": ["x"], "n": 1}"#),
        )],
        &[insert_op(
            "a",
            -1,
            json(r#"{"id": "a", "panel": {"__musubi_store_id__": ["x"], "n": 1}}"#),
            None,
        )],
    );

    let nodes = assert_is_a_tree(&tree);
    let messages = StreamState::from(
        tree.root::<JsonValue>()
            .field::<Vec<JsonValue>>("messages")
            .expect("messages"),
    );
    let row = messages.by_key("a").expect("a");
    let panel = row.field::<JsonValue>("panel").expect("panel");

    assert_eq!(tree.store_node(&store_id(&["x"])), Some(panel.node()));
    assert_eq!(tree.store_ids().len(), 2);
    assert_eq!(nodes.len(), tree.len());
    assert_eq!(
        tree.root::<JsonValue>().value(),
        json(r#"{ "__musubi_store_id__": [], "slot": null, "messages": [{"id": "a", "panel": {"__musubi_store_id__": ["x"], "n": 1}}] }"#)
    );
}

#[test]
fn an_add_that_renders_a_store_a_second_time_gives_the_newcomer_its_own_node() {
    let tree = seeded(json(r#"{ "__musubi_store_id__": [], "rows": [{"__musubi_store_id__": ["a"], "n": 1}] }"#));
    let rows = tree
        .root::<JsonValue>()
        .field::<Vec<JsonValue>>("rows")
        .expect("rows");
    let first = rows.at(0).expect("rows[0]").node();

    commit(
        &tree,
        &[add(
            "/rows/1",
            json(r#"{"__musubi_store_id__": ["a"], "n": 1}"#),
        )],
        &[],
    );

    assert_is_a_tree(&tree);
    assert_eq!(rows.len(), 2);
    assert_eq!(rows.at(0).expect("rows[0]").node(), first);
    assert_ne!(rows.at(1).expect("rows[1]").node(), first);
    assert_eq!(
        rows.value(),
        [
            json(r#"{"__musubi_store_id__": ["a"], "n": 1}"#),
            json(r#"{"__musubi_store_id__": ["a"], "n": 1}"#)
        ]
    );
}

#[test]
fn an_add_before_a_store_row_shifts_it_right_and_keeps_its_node() {
    let tree = seeded(json(r#"{ "__musubi_store_id__": [], "rows": [ {"kind": "banner"}, {"__musubi_store_id__": ["a"], "n": 1}, {"__musubi_store_id__": ["b"], "n": 2} ] }"#));
    let rows = tree
        .root::<JsonValue>()
        .field::<Vec<JsonValue>>("rows")
        .expect("rows");
    let panel = StoreState::from(rows.at(1).expect("rows[1]"));
    let (first, second) = (panel.node(), rows.at(2).expect("rows[2]").node());

    commit(&tree, &[add("/rows/0", json(r#"{"kind": "header"}"#))], &[]);

    assert_is_a_tree(&tree);
    assert_eq!(rows.at(2).expect("rows[2]").node(), first);
    assert_eq!(rows.at(3).expect("rows[3]").node(), second);
    assert!(panel.fields().is_live());
    assert_eq!(
        rows.value(),
        [
            json(r#"{"kind": "header"}"#),
            json(r#"{"kind": "banner"}"#),
            json(r#"{"__musubi_store_id__": ["a"], "n": 1}"#),
            json(r#"{"__musubi_store_id__": ["b"], "n": 2}"#)
        ]
    );
}

#[test]
fn a_remove_before_a_store_row_shifts_it_left_and_keeps_its_node() {
    let tree = seeded(json(r#"{ "__musubi_store_id__": [], "rows": [{"kind": "header"}, {"kind": "banner"}, {"__musubi_store_id__": ["a"], "n": 1}] }"#));
    let rows = tree
        .root::<JsonValue>()
        .field::<Vec<JsonValue>>("rows")
        .expect("rows");
    let panel = StoreState::from(rows.at(2).expect("rows[2]"));
    let node = panel.node();

    commit(&tree, &[remove("/rows/0")], &[]);

    assert_is_a_tree(&tree);
    assert_eq!(rows.at(1).expect("rows[1]").node(), node);
    assert!(panel.fields().is_live());
    assert_eq!(
        rows.value(),
        [
            json(r#"{"kind": "banner"}"#),
            json(r#"{"__musubi_store_id__": ["a"], "n": 1}"#)
        ]
    );
}

#[test]
fn a_position_rendered_as_a_plain_value_does_not_destroy_the_store_a_later_one_adopts() {
    let tree = seeded(json(r#"{ "__musubi_store_id__": [], "rows": [{"__musubi_store_id__": ["panel"], "n": 1}] }"#));
    let rows = tree
        .root::<JsonValue>()
        .field::<Vec<JsonValue>>("rows")
        .expect("rows");
    let panel = StoreState::from(rows.at(0).expect("rows[0]"));
    let node = panel.node();

    commit(
        &tree,
        &[replace(
            "/rows",
            json(r#"[{"banner": true}, {"__musubi_store_id__": ["panel"], "n": 1}]"#),
        )],
        &[],
    );

    assert_is_a_tree(&tree);
    assert_eq!(rows.at(1).expect("rows[1]").node(), node);
    assert_ne!(rows.at(0).expect("rows[0]").node(), node);
    assert!(panel.fields().is_live());
    assert_eq!(tree.store_node(&store_id(&["panel"])), Some(node));
    assert_eq!(
        rows.value(),
        [
            json(r#"{"banner": true}"#),
            json(r#"{"__musubi_store_id__": ["panel"], "n": 1}"#)
        ]
    );
}

#[test]
fn a_position_rewritten_as_a_plain_value_exchanges_with_the_copy_that_took_its_id() {
    let tree = seeded(json(r#"{ "__musubi_store_id__": [], "rows": [{"__musubi_store_id__": ["a"], "n": 1}] }"#));
    let rows = tree
        .root::<JsonValue>()
        .field::<Vec<JsonValue>>("rows")
        .expect("rows");
    let panel = StoreState::from(rows.at(0).expect("rows[0]"));
    let node = panel.node();

    commit(
        &tree,
        &[
            add("/rows/1", json(r#"{"__musubi_store_id__": ["a"], "n": 1}"#)),
            replace("/rows/0", json(r#"{"kind": "banner"}"#)),
        ],
        &[],
    );

    assert_is_a_tree(&tree);
    assert_eq!(rows.at(1).expect("rows[1]").node(), node);
    assert!(panel.fields().is_live());
    assert_eq!(tree.store_node(&store_id(&["a"])), Some(node));
    assert_eq!(
        rows.value(),
        [
            json(r#"{"kind": "banner"}"#),
            json(r#"{"__musubi_store_id__": ["a"], "n": 1}"#)
        ]
    );
}

#[test]
fn a_store_and_a_plain_row_that_swap_places_keep_the_store_node() {
    let tree = seeded(json(r#"{ "__musubi_store_id__": [], "rows": [{"__musubi_store_id__": ["panel"], "n": 1}, {"banner": true}] }"#));
    let rows = tree
        .root::<JsonValue>()
        .field::<Vec<JsonValue>>("rows")
        .expect("rows");
    let node = rows.at(0).expect("rows[0]").node();

    commit(
        &tree,
        &[replace(
            "/rows",
            json(r#"[{"banner": true}, {"__musubi_store_id__": ["panel"], "n": 1}]"#),
        )],
        &[],
    );

    assert_is_a_tree(&tree);
    assert_eq!(rows.at(1).expect("rows[1]").node(), node);
    assert_eq!(tree.store_node(&store_id(&["panel"])), Some(node));
}

#[test]
fn a_parent_built_around_an_adopted_child_settles_after_it() {
    let tree = seeded(json(r#"{ "__musubi_store_id__": [], "p": {"__musubi_store_id__": ["p"], "total": 1} }"#));

    commit(
        &tree,
        &[
            replace("/p/total", json("5")),
            add(
                "/q",
                json(r#"{"w": {"__musubi_store_id__": ["p"], "total": 5}}"#),
            ),
            remove("/p"),
        ],
        &[],
    );

    assert_is_a_tree(&tree);
    assert_eq!(
        tree.root::<JsonValue>().value(),
        json(r#"{ "__musubi_store_id__": [], "q": {"w": {"__musubi_store_id__": ["p"], "total": 5}} }"#)
    );
}

#[test]
fn a_node_dirtied_after_it_was_adopted_settles_every_one_of_its_new_ancestors() {
    let tree = seeded(json(r#"{ "__musubi_store_id__": [], "p": {"__musubi_store_id__": ["p"], "total": 1, "inner": {"n": 1}} }"#));

    commit(
        &tree,
        &[
            replace("/p/total", json("5")),
            add(
                "/q",
                json(r#"{ "w": {"__musubi_store_id__": ["p"], "total": 5, "inner": {"n": 2}} }"#),
            ),
            remove("/p"),
        ],
        &[],
    );

    assert_is_a_tree(&tree);
    assert_eq!(
        tree.root::<JsonValue>().value(),
        json(r#"{ "__musubi_store_id__": [], "q": {"w": {"__musubi_store_id__": ["p"], "total": 5, "inner": {"n": 2}}} }"#)
    );
}

#[test]
fn a_reordered_list_of_child_stores_arrives_as_marker_ops_and_keeps_both_nodes() {
    let tree = seeded(json(r#"{ "__musubi_store_id__": [], "rows": [{"__musubi_store_id__": ["a"]}, {"__musubi_store_id__": ["b"]}] }"#));
    let rows = tree
        .root::<JsonValue>()
        .field::<Vec<JsonValue>>("rows")
        .expect("rows");
    let (first, second) = (
        rows.at(0).expect("rows[0]").node(),
        rows.at(1).expect("rows[1]").node(),
    );

    commit(
        &tree,
        &[
            replace("/rows/1/__musubi_store_id__/0", json(r#""a""#)),
            replace("/rows/0/__musubi_store_id__/0", json(r#""b""#)),
        ],
        &[],
    );

    assert_is_a_tree(&tree);
    assert_eq!(rows.at(0).expect("rows[0]").node(), second);
    assert_eq!(rows.at(1).expect("rows[1]").node(), first);
    assert_eq!(
        rows.value(),
        [
            json(r#"{"__musubi_store_id__": ["b"]}"#),
            json(r#"{"__musubi_store_id__": ["a"]}"#)
        ]
    );
    assert_eq!(tree.store_node(&store_id(&["a"])), Some(first));
    assert_eq!(tree.store_node(&store_id(&["b"])), Some(second));
}

#[test]
fn a_reordered_list_of_child_stores_with_fields_keeps_both_nodes_and_both_values() {
    let tree = seeded(json(r#"{ "__musubi_store_id__": [], "rows": [ {"__musubi_store_id__": ["a"], "label": "A"}, {"__musubi_store_id__": ["b"], "label": "B"} ] }"#));
    let rows = tree
        .root::<JsonValue>()
        .field::<Vec<JsonValue>>("rows")
        .expect("rows");
    let (first, second) = (
        rows.at(0).expect("rows[0]").node(),
        rows.at(1).expect("rows[1]").node(),
    );

    commit(
        &tree,
        &[
            replace("/rows/1/label", json(r#""A""#)),
            replace("/rows/1/__musubi_store_id__/0", json(r#""a""#)),
            replace("/rows/0/label", json(r#""B""#)),
            replace("/rows/0/__musubi_store_id__/0", json(r#""b""#)),
        ],
        &[],
    );

    assert_is_a_tree(&tree);
    assert_eq!(rows.at(0).expect("rows[0]").node(), second);
    assert_eq!(rows.at(1).expect("rows[1]").node(), first);
    assert_eq!(
        rows.value(),
        [
            json(r#"{"__musubi_store_id__": ["b"], "label": "B"}"#),
            json(r#"{"__musubi_store_id__": ["a"], "label": "A"}"#)
        ]
    );
    assert_eq!(tree.store_node(&store_id(&["a"])), Some(first));
    assert_eq!(tree.store_node(&store_id(&["b"])), Some(second));
}

#[test]
fn a_row_prepended_before_a_child_store_arrives_as_a_marker_removal() {
    let tree = seeded(json(r#"{ "__musubi_store_id__": [], "rows": [{"__musubi_store_id__": ["a"], "n": 1}] }"#));
    let rows = tree
        .root::<JsonValue>()
        .field::<Vec<JsonValue>>("rows")
        .expect("rows");

    commit(
        &tree,
        &[
            add("/rows/1", json(r#"{"__musubi_store_id__": ["a"], "n": 1}"#)),
            remove("/rows/0/n"),
            remove("/rows/0/__musubi_store_id__"),
            add("/rows/0/kind", json(r#""banner""#)),
        ],
        &[],
    );

    assert_is_a_tree(&tree);
    assert_eq!(
        rows.value(),
        [
            json(r#"{"kind": "banner"}"#),
            json(r#"{"__musubi_store_id__": ["a"], "n": 1}"#)
        ]
    );
    assert_eq!(
        tree.store_node(&store_id(&["a"])),
        Some(rows.at(1).expect("rows[1]").node())
    );
    assert_eq!(tree.store_ids().len(), 2);
}

#[test]
fn a_row_prepended_before_a_child_store_keeps_the_store_node_and_its_subscribers() {
    let tree = seeded(json(r#"{ "__musubi_store_id__": [], "rows": [{"__musubi_store_id__": ["a"], "n": 1}] }"#));
    let rows = tree
        .root::<JsonValue>()
        .field::<Vec<JsonValue>>("rows")
        .expect("rows");
    let panel = StoreState::from(rows.at(0).expect("rows[0]"));
    let node = panel.node();
    let hits = Arc::new(AtomicUsize::new(0));
    let seen = hits.clone();
    let _watch = panel.subscribe(move |_| {
        seen.fetch_add(1, Ordering::SeqCst);
    });

    commit(
        &tree,
        &[
            add("/rows/1", json(r#"{"__musubi_store_id__": ["a"], "n": 1}"#)),
            remove("/rows/0/n"),
            remove("/rows/0/__musubi_store_id__"),
            add("/rows/0/kind", json(r#""banner""#)),
        ],
        &[],
    );

    assert_is_a_tree(&tree);
    assert_eq!(rows.at(1).expect("rows[1]").node(), node);
    assert!(panel.fields().is_live());
    assert_eq!(tree.store_node(&store_id(&["a"])), Some(node));
    assert_eq!(hits.load(Ordering::SeqCst), 0);
    assert_eq!(
        panel.fields().value(),
        json(r#"{"__musubi_store_id__": ["a"], "n": 1}"#)
    );
}

#[test]
fn a_refused_op_after_an_identity_exchange_puts_both_nodes_back() {
    let tree = seeded(json(r#"{ "__musubi_store_id__": [], "rows": [{"__musubi_store_id__": ["a"], "n": 1}] }"#));
    let rows = tree
        .root::<JsonValue>()
        .field::<Vec<JsonValue>>("rows")
        .expect("rows");
    let node = rows.at(0).expect("rows[0]").node();
    let before = tree.to_wire(tree.root_id());
    let nodes = tree.len();

    let error = tree
        .apply(
            &[
                add("/rows/1", json(r#"{"__musubi_store_id__": ["a"], "n": 1}"#)),
                remove("/rows/0/n"),
                remove("/rows/0/__musubi_store_id__"),
                remove("/rows/9"),
            ],
            &[],
        )
        .expect_err("the last op cannot apply");

    assert!(matches!(error, TreeError::Index { .. }));
    assert_is_a_tree(&tree);
    assert_eq!(tree.to_wire(tree.root_id()), before);
    assert_eq!(tree.len(), nodes);
    assert_eq!(rows.at(0).expect("rows[0]").node(), node);
    assert_eq!(tree.store_node(&store_id(&["a"])), Some(node));
}

#[test]
fn a_marker_release_that_exchanges_two_keys_of_one_object_keeps_both_nodes() {
    let tree = seeded(json(r#"{ "__musubi_store_id__": [], "obj": {"a": {"__musubi_store_id__": ["x"], "n": 1}, "b": null} }"#));
    let obj = tree.root::<JsonValue>().field::<JsonValue>("obj").expect("obj");
    let panel = StoreState::from(obj.field::<JsonValue>("a").expect("a"));
    let node = panel.node();

    commit(
        &tree,
        &[
            replace(
                "/obj",
                json(r#"{ "a": {"__musubi_store_id__": ["x"], "n": 1}, "b": {"__musubi_store_id__": ["x"], "n": 1} }"#),
            ),
            remove("/obj/a/__musubi_store_id__"),
        ],
        &[],
    );

    assert_is_a_tree(&tree);
    assert_eq!(obj.field::<JsonValue>("b").expect("b").node(), node);
    assert!(panel.fields().is_live());
    assert_eq!(tree.store_node(&store_id(&["x"])), Some(node));
    assert_eq!(
        obj.value(),
        json(r#"{"a": {"n": 1}, "b": {"__musubi_store_id__": ["x"], "n": 1}}"#)
    );
}

#[test]
fn a_reordered_list_of_stream_bearing_child_stores_keeps_every_item_of_both_streams() {
    let tree = seeded(json(r#"{ "__musubi_store_id__": [], "rows": [ {"__musubi_store_id__": ["a"], "messages": {"__musubi_stream__": "messages"}}, {"__musubi_store_id__": ["b"], "messages": {"__musubi_stream__": "messages"}} ] }"#));
    let rows = tree
        .root::<JsonValue>()
        .field::<Vec<JsonValue>>("rows")
        .expect("rows");
    let (first, second) = (
        rows.at(0).expect("rows[0]").node(),
        rows.at(1).expect("rows[1]").node(),
    );

    commit(
        &tree,
        &[],
        &[
            row_insert_op(&["a"], "a1", json(r#"{"id": "a1"}"#)),
            row_insert_op(&["a"], "a2", json(r#"{"id": "a2"}"#)),
            row_insert_op(&["b"], "b1", json(r#"{"id": "b1"}"#)),
        ],
    );

    commit(
        &tree,
        &[
            replace("/rows/1/__musubi_store_id__/0", json(r#""a""#)),
            replace("/rows/0/__musubi_store_id__/0", json(r#""b""#)),
        ],
        &[],
    );

    assert_is_a_tree(&tree);
    assert_eq!(rows.at(0).expect("rows[0]").node(), second);
    assert_eq!(rows.at(1).expect("rows[1]").node(), first);
    assert_eq!(
        rows.value(),
        [
            json(r#"{"__musubi_store_id__": ["b"], "messages": [{"id": "b1"}]}"#),
            json(r#"{ "__musubi_store_id__": ["a"], "messages": [{"id": "a1"}, {"id": "a2"}] }"#)
        ]
    );
    assert_eq!(tree.store_node(&store_id(&["a"])), Some(first));
    assert_eq!(tree.store_node(&store_id(&["b"])), Some(second));

    commit(
        &tree,
        &[],
        &[row_insert_op(&["a"], "a3", json(r#"{"id": "a3"}"#))],
    );

    assert_eq!(
        rows.at(1).expect("rows[1]").value(),
        json(r#"{ "__musubi_store_id__": ["a"], "messages": [{"id": "a1"}, {"id": "a2"}, {"id": "a3"}] }"#)
    );
}

#[test]
fn a_row_prepended_before_a_stream_bearing_child_store_keeps_its_node_and_its_items() {
    let tree = seeded(json(r#"{ "__musubi_store_id__": [], "rows": [{"__musubi_store_id__": ["a"], "messages": {"__musubi_stream__": "messages"}}] }"#));
    let rows = tree
        .root::<JsonValue>()
        .field::<Vec<JsonValue>>("rows")
        .expect("rows");
    let node = rows.at(0).expect("rows[0]").node();

    commit(
        &tree,
        &[],
        &[
            row_insert_op(&["a"], "a1", json(r#"{"id": "a1"}"#)),
            row_insert_op(&["a"], "a2", json(r#"{"id": "a2"}"#)),
        ],
    );

    commit(
        &tree,
        &[
            add(
                "/rows/1",
                json(r#"{ "__musubi_store_id__": ["a"], "messages": {"__musubi_stream__": "messages"} }"#),
            ),
            remove("/rows/0/messages"),
            remove("/rows/0/__musubi_store_id__"),
            add("/rows/0/kind", json(r#""banner""#)),
        ],
        &[],
    );

    assert_is_a_tree(&tree);
    assert_eq!(
        rows.value(),
        [
            json(r#"{"kind": "banner"}"#),
            json(r#"{ "__musubi_store_id__": ["a"], "messages": [{"id": "a1"}, {"id": "a2"}] }"#)
        ]
    );
    assert_eq!(rows.at(1).expect("rows[1]").node(), node);
    assert_eq!(tree.store_node(&store_id(&["a"])), Some(node));
    assert_eq!(tree.store_ids().len(), 2);

    commit(
        &tree,
        &[],
        &[row_insert_op(&["a"], "a3", json(r#"{"id": "a3"}"#))],
    );

    assert_eq!(
        rows.at(1).expect("rows[1]").value(),
        json(r#"{ "__musubi_store_id__": ["a"], "messages": [{"id": "a1"}, {"id": "a2"}, {"id": "a3"}] }"#)
    );
}

#[test]
fn adding_a_marker_mounts_a_child_store_and_removing_it_unmounts_one() {
    let tree = seeded(json(r#"{"__musubi_store_id__": [], "panel": {"n": 1}}"#));
    let root = tree.root::<JsonValue>();
    let plain = root.field::<JsonValue>("panel").expect("panel").node();

    commit(
        &tree,
        &[add("/panel/__musubi_store_id__", json(r#"["panel"]"#))],
        &[],
    );

    let mounted = StoreState::from(root.field::<JsonValue>("panel").expect("panel"));

    assert_ne!(mounted.node(), plain);
    assert_eq!(mounted.store_id(), Some(store_id(&["panel"])));
    assert_eq!(tree.store_node(&store_id(&["panel"])), Some(mounted.node()));

    commit(
        &tree,
        &[add("/panel/__musubi_store_id__/-", json(r#""0""#))],
        &[],
    );

    assert_eq!(tree.store_node(&store_id(&["panel"])), None);
    assert_eq!(tree.store_ids().len(), 2);

    commit(&tree, &[remove("/panel/__musubi_store_id__")], &[]);

    assert_eq!(tree.store_ids(), [StoreId::root()]);
    assert_eq!(
        tree.root::<JsonValue>().value(),
        json(r#"{"__musubi_store_id__": [], "panel": {"n": 1}}"#)
    );
}

#[test]
fn a_malformed_store_marker_op_is_refused_and_rolls_the_envelope_back() {
    let tree = seeded(json(r#"{ "__musubi_store_id__": [], "panel": {"__musubi_store_id__": ["a"], "n": 1}, "scalar": 1 }"#));
    let before = tree.to_wire(tree.root_id());

    for op in [
        replace("/panel/__musubi_store_id__", json(r#""a""#)),
        replace("/panel/__musubi_store_id__/0", json("7")),
        replace("/panel/__musubi_store_id__/3", json(r#""b""#)),
        remove("/panel/__musubi_store_id__/3"),
        replace("/panel/__musubi_store_id__/0/deeper", json(r#""b""#)),
        add("/scalar/__musubi_store_id__", json(r#"["s"]"#)),
    ] {
        assert!(
            tree.apply(std::slice::from_ref(&op), &[]).is_err(),
            "expected {op:?} to be refused"
        );
    }

    assert_eq!(tree.to_wire(tree.root_id()), before);
}

#[test]
fn the_pointer_walk_handles_escaping_and_the_array_rules() {
    let tree = seeded(json(r#"{"a/b": {"c~d": 1}, "list": [10, 20]}"#));
    let root = tree.root::<JsonValue>();

    commit(&tree, &[replace("/a~1b/c~0d", json("2"))], &[]);

    assert_eq!(
        root.field::<JsonValue>("a/b")
            .and_then(|node| node.field::<i64>("c~d"))
            .expect("a/b.c~d")
            .value(),
        2
    );

    commit(&tree, &[add("/list/-", json("30"))], &[]);
    commit(&tree, &[add("/list/3", json("40"))], &[]);

    assert_eq!(
        root.field::<Vec<i64>>("list").expect("list").value(),
        [10, 20, 30, 40]
    );

    for op in [
        add("/list/9", json("1")),
        add("/list/01", json("1")),
        remove("/list/-"),
        remove("/list/4"),
    ] {
        assert!(
            matches!(
                tree.apply(std::slice::from_ref(&op), &[]),
                Err(TreeError::Index { .. })
            ),
            "expected an index error for {op:?}"
        );
    }
}

#[test]
fn the_pointer_walk_refuses_what_it_cannot_address() {
    let tree = seeded(json(r#"{ "__musubi_store_id__": [], "scalar": 1, "messages": {"__musubi_stream__": "messages"} }"#));

    commit(&tree, &[], &[insert_op("a", -1, json(r#"{"id": "a"}"#), None)]);

    for op in [
        replace("/scalar/deep", json("1")),
        replace("/messages/0", json("1")),
        replace("/missing", json("1")),
        remove("/missing"),
        replace("scalar", json("1")),
        remove(""),
    ] {
        assert!(
            matches!(
                tree.apply(std::slice::from_ref(&op), &[]),
                Err(TreeError::Pointer { .. })
            ),
            "expected a pointer error for {op:?}"
        );
    }
}

#[test]
fn an_add_at_an_index_inserts_and_moves_the_elements_after_it() {
    let tree = seeded(json(r#"{"list": ["a", "b"]}"#));
    let list = tree
        .root::<JsonValue>()
        .field::<Vec<String>>("list")
        .expect("list");
    let first = list.at(0).expect("index 0");
    let second = list.at(1).expect("index 1");
    let log = Log::default();
    let _zero = log.watch("0", &first);
    let _one = log.watch("1", &second);
    let _list = log.watch("list", &list);

    commit(&tree, &[add("/list/0", json(r#""new""#))], &[]);

    assert_eq!(log.taken(), ["list"]);
    assert_eq!(list.value(), ["new", "a", "b"]);
    assert_eq!(first.node(), list.at(1).expect("index 1").node());
    assert_eq!(second.node(), list.at(2).expect("index 2").node());
    assert_eq!(first.value(), "a");
    assert_eq!(second.value(), "b");
    assert_ne!(list.at(0).expect("index 0").node(), first.node());
    assert_eq!(list.at(0).expect("index 0").value(), "new");
}

#[test]
fn a_remove_at_an_index_kills_that_node_and_moves_the_rest() {
    let tree = seeded(json(r#"{"list": ["a", "b", "c"]}"#));
    let list = tree
        .root::<JsonValue>()
        .field::<Vec<String>>("list")
        .expect("list");
    let first = list.at(0).expect("index 0");
    let last = list.at(2).expect("index 2");

    commit(&tree, &[remove("/list/0")], &[]);

    assert_is_a_tree(&tree);
    assert_eq!(list.value(), ["b", "c"]);
    assert!(!first.is_live());
    assert!(last.is_live());
    assert_eq!(last.node(), list.at(1).expect("index 1").node());
    assert_eq!(list.at(0).expect("index 0").value(), "b");
}

#[test]
fn the_elements_an_array_shift_moves_keep_their_nodes_and_their_subscribers() {
    let tree = seeded(json(r#"{"list": ["a", "b", "c"]}"#));
    let list = tree
        .root::<JsonValue>()
        .field::<Vec<String>>("list")
        .expect("list");
    let watched = list.at(2).expect("index 2");
    let node = watched.node();
    let log = Log::default();
    let _c = log.watch("c", &watched);

    commit(&tree, &[add("/list/0", json(r#""new""#))], &[]);

    assert!(log.taken().is_empty());
    assert_eq!(list.at(3).expect("index 3").node(), node);
    assert_eq!(watched.value(), "c");

    commit(&tree, &[replace("/list/3", json(r#""c2""#))], &[]);

    assert_eq!(log.taken(), ["c"]);
    assert_eq!(watched.value(), "c2");
    assert_eq!(list.value(), ["new", "a", "b", "c2"]);
}

#[test]
fn a_stream_slot_an_array_shift_moves_keeps_its_items() {
    let tree = seeded(json(r#"{"rows": [{"__musubi_stream__": "messages"}]}"#));
    let rows = tree
        .root::<JsonValue>()
        .field::<Vec<JsonValue>>("rows")
        .expect("rows");

    commit(
        &tree,
        &[],
        &[insert_op(
            "msg-1",
            -1,
            json(r#"{"id": "1", "body": "one"}"#),
            None,
        )],
    );

    let slot = rows.at(0).expect("rows[0]").node();

    commit(&tree, &[add("/rows/0", json(r#"{"kind": "header"}"#))], &[]);

    assert_is_a_tree(&tree);
    assert_eq!(rows.at(1).expect("rows[1]").node(), slot);
    assert_eq!(
        rows.value(),
        [
            json(r#"{"kind": "header"}"#),
            json(r#"[{"id": "1", "body": "one"}]"#)
        ]
    );

    commit(
        &tree,
        &[],
        &[insert_op(
            "msg-2",
            -1,
            json(r#"{"id": "2", "body": "two"}"#),
            None,
        )],
    );

    assert_eq!(
        rows.value(),
        [
            json(r#"{"kind": "header"}"#),
            json(r#"[{"id": "1", "body": "one"}, {"id": "2", "body": "two"}]"#)
        ]
    );

    commit(&tree, &[remove("/rows/0")], &[]);

    assert_is_a_tree(&tree);
    assert_eq!(rows.at(0).expect("rows[0]").node(), slot);
    assert_eq!(
        rows.value(),
        [json(r#"[{"id": "1", "body": "one"}, {"id": "2", "body": "two"}]"#)]
    );
}

#[test]
fn dropping_a_subscription_unsubscribes() {
    let tree = seeded(json(r#"{"count": 1}"#));
    let count = tree.root::<JsonValue>().field::<i64>("count").expect("count");
    let hits = Arc::new(AtomicUsize::new(0));
    let seen = hits.clone();
    let subscription = count.subscribe(move |_| {
        seen.fetch_add(1, Ordering::SeqCst);
    });

    assert_eq!(tree.node(count.node()).expect("live").subscribers, 1);

    commit(&tree, &[replace("/count", json("2"))], &[]);

    assert_eq!(hits.load(Ordering::SeqCst), 1);

    drop(subscription);

    assert_eq!(tree.node(count.node()).expect("live").subscribers, 0);

    commit(&tree, &[replace("/count", json("3"))], &[]);

    assert_eq!(hits.load(Ordering::SeqCst), 1);
}

#[test]
fn closing_a_tree_empties_it_notifies_once_and_refuses_every_later_transaction() {
    let tree = seeded(json(r#"{"count": 1}"#));
    let root = tree.root::<JsonValue>();
    let count = root.field::<i64>("count").expect("count");
    let log = Log::default();
    let _root = log.watch("root", &root);
    let _count = log.watch("count", &count);

    drop(tree.close());

    assert_eq!(log.taken(), ["count", "root"]);
    assert!(tree.is_closed());
    assert!(!root.is_live());
    assert!(!count.is_live());
    assert_eq!(tree.to_wire(tree.root_id()), Some(JsonValue::Null));
    assert!(matches!(
        tree.apply(&[replace("", json("1"))], &[]),
        Err(TreeError::Closed)
    ));

    let hits = Arc::new(AtomicUsize::new(0));
    let seen = hits.clone();
    let subscription = root.subscribe(move |_| {
        seen.fetch_add(1, Ordering::SeqCst);
    });

    drop(tree.close());
    drop(subscription);

    assert_eq!(hits.load(Ordering::SeqCst), 0);
}

#[test]
fn a_callback_may_read_subscribe_and_even_apply_without_deadlocking() {
    let tree = seeded(json(r#"{"count": 1, "other": 0}"#));
    let count = tree.root::<JsonValue>().field::<i64>("count").expect("count");
    let reader = count.clone();
    let inner_tree = tree.clone();
    let seen = Arc::new(Mutex::new(Vec::new()));
    let recorded = seen.clone();
    let held: Arc<Mutex<Vec<Subscription>>> = Arc::new(Mutex::new(Vec::new()));
    let parked = held.clone();

    let _watch = count.subscribe(move |change| {
        recorded
            .lock()
            .expect("test log")
            .push((change.revision, reader.value()));

        parked
            .lock()
            .expect("test log")
            .push(reader.subscribe(|_| {}));

        drop(
            inner_tree
                .apply(&[replace("/other", json("1"))], &[])
                .expect("applies"),
        );
    });

    commit(&tree, &[replace("/count", json("2"))], &[]);

    assert_eq!(*seen.lock().expect("test log"), [(2, 2)]);
    assert_eq!(held.lock().expect("test log").len(), 1);
}

#[test]
fn a_subscription_outliving_its_tree_drops_without_touching_anything() {
    let tree = seeded(json(r#"{"count": 1}"#));
    let count = tree.root::<JsonValue>().field::<i64>("count").expect("count");
    let subscription = count.subscribe(|_| {});

    drop(tree);
    drop(count);
    drop(subscription);
}

#[derive(Debug, PartialEq)]
struct Row {
    id: String,
    body: String,
}

impl Read for Row {
    fn read(value: &JsonValue) -> Option<Self> {
        Some(Row {
            id: String::read(member(value, "id")?)?,
            body: String::read(member(value, "body")?)?,
        })
    }
}

#[derive(Debug, PartialEq)]
struct Message {
    id: String,
}

impl Read for Message {
    fn read(value: &JsonValue) -> Option<Self> {
        Some(Message {
            id: String::read(member(value, "id")?)?,
        })
    }
}

#[test]
fn value_materializes_and_try_value_reports_what_value_would_raise() {
    let tree = seeded(json(r#"{"row": {"id": "a", "body": "hi"}}"#));
    let row = tree.root::<JsonValue>().field::<Row>("row").expect("row");

    assert_eq!(
        row.value(),
        Row {
            id: "a".to_owned(),
            body: "hi".to_owned()
        }
    );

    let wrong = row.cast::<Vec<i64>>();

    assert!(matches!(wrong.try_value(), Err(ReadError::Shape(_))));

    commit(&tree, &[remove("/row")], &[]);

    assert!(matches!(row.try_value(), Err(ReadError::Gone)));
}

#[test]
fn navigation_never_fails_and_an_absent_key_yields_a_handle_that_reads_as_gone() {
    let fresh = StateTree::new();
    let before_any_patch = fresh.root::<JsonValue>().child::<i64>("count");

    assert!(!before_any_patch.is_live());
    assert!(matches!(before_any_patch.try_value(), Err(ReadError::Gone)));

    let tree = seeded(json(r#"{"row": 1}"#));
    let root = tree.root::<JsonValue>();
    let missing = root.child::<i64>("nope");

    assert!(!missing.is_live());
    assert!(matches!(missing.try_value(), Err(ReadError::Gone)));
    assert_eq!(missing.revision(), 0);
    assert!(!missing.child::<i64>("deeper").is_live());
    assert_eq!(root.child::<i64>("row").value(), 1);

    let hits = Arc::new(AtomicUsize::new(0));
    let seen = hits.clone();
    let subscription = missing.subscribe(move |_| {
        seen.fetch_add(1, Ordering::SeqCst);
    });

    commit(&tree, &[replace("", json(r#"{"row": 2, "nope": 3}"#))], &[]);

    assert_eq!(hits.load(Ordering::SeqCst), 0);
    assert!(!missing.is_live());
    assert!(root.child::<i64>("nope").is_live());

    drop(subscription);

    drop(tree.close());

    assert!(!root.is_live());
    assert!(matches!(root.try_value(), Err(ReadError::Gone)));
    assert!(matches!(
        root.child::<i64>("row").try_value(),
        Err(ReadError::Gone)
    ));
}

#[test]
fn the_two_projections_differ_only_in_how_a_stream_slot_is_rendered() {
    let tree = seeded(json(r#"{ "__musubi_store_id__": [], "attachment": {"__musubi_upload__": "avatar"}, "feed": {"__musubi_async__": true, "status": "ok", "result": 1, "reason": null}, "messages": {"__musubi_stream__": "messages"} }"#));

    commit(&tree, &[], &[insert_op("a", -1, json(r#"{"id": "a"}"#), None)]);

    let root = tree.root_id();

    assert_eq!(
        tree.to_hydrated(root).expect("a live root"),
        json(r#"{ "__musubi_store_id__": [], "attachment": {"__musubi_upload__": "avatar"}, "feed": {"__musubi_async__": true, "status": "ok", "result": 1, "reason": null}, "messages": [{"id": "a"}] }"#)
    );
    assert_eq!(
        tree.to_wire(root).expect("a live root"),
        json(r#"{ "__musubi_store_id__": [], "attachment": {"__musubi_upload__": "avatar"}, "feed": {"__musubi_async__": true, "status": "ok", "result": 1, "reason": null}, "messages": {"__musubi_stream__": "messages"} }"#)
    );
}

#[test]
fn a_wire_projection_seeds_an_identical_tree() {
    let tree = seeded(json(r#"{ "__musubi_store_id__": [], "panel": {"__musubi_store_id__": ["panel"], "rows": [1, 2]}, "messages": {"__musubi_stream__": "messages"} }"#));

    commit(&tree, &[], &[insert_op("a", -1, json(r#"{"id": "a"}"#), None)]);

    let wire = tree.to_wire(tree.root_id()).expect("a live root");
    let reseeded = seeded(wire.clone());

    assert_eq!(reseeded.to_wire(reseeded.root_id()), Some(wire));
    assert_eq!(reseeded.store_ids().len(), 2);
}

#[test]
fn an_optional_node_reads_as_none_only_when_it_is_null() {
    let tree = seeded(json(r#"{"maybe": null}"#));
    let maybe = tree
        .root::<JsonValue>()
        .field::<Option<i64>>("maybe")
        .expect("maybe");

    assert!(maybe.is_none());
    assert!(maybe.as_some().is_none());

    commit(&tree, &[replace("/maybe", json("7"))], &[]);

    assert!(!maybe.is_none());
    assert_eq!(maybe.as_some().expect("a value").value(), 7);
}

#[test]
fn a_stream_async_result_is_a_keyed_collection_of_its_own() {
    let tree = seeded(json(r#"{ "__musubi_store_id__": [], "feed": { "__musubi_async__": true, "status": "ok", "result": {"__musubi_stream__": "messages"}, "reason": null } }"#));

    commit(&tree, &[], &[insert_op("a", -1, json(r#"{"id": "a"}"#), None)]);

    let feed = AsyncState::from(
        tree.root::<JsonValue>()
            .field::<Vec<JsonValue>>("feed")
            .expect("feed"),
    );
    let rows = feed.ok_stream().expect("a materialized result");

    assert_eq!(keys(&rows), ["a"]);

    let row = rows.by_key("a").expect("a");

    let log = Log::default();
    let _row = log.watch("row", &row);

    commit(
        &tree,
        &[replace(
            "/feed",
            json(r#"{ "__musubi_async__": true, "status": "loading", "result": {"__musubi_stream__": "messages"}, "reason": null }"#),
        )],
        &[],
    );

    assert!(log.taken().is_empty());
    assert_eq!(feed.status(), AsyncStatus::Loading);
    assert_eq!(rows.len(), 1);
    assert_eq!(row.node(), rows.by_key("a").expect("a").node());

    let typed = AsyncState::from(
        tree.root::<JsonValue>()
            .field::<Vec<Message>>("feed")
            .expect("feed"),
    );

    assert_eq!(
        typed.value(),
        AsyncResult::Loading {
            result: Some(vec![Message { id: "a".to_owned() }]),
            reason: None
        }
    );
}

#[test]
fn a_node_copy_reports_the_kind_the_arena_holds() {
    let tree = seeded(json(r#"{"list": [1], "count": 2}"#));
    let node = tree.node(tree.root_id()).expect("a live root");

    assert_eq!(node.parent, None);
    assert_eq!(node.revision, 1);
    assert_eq!(node.subscribers, 0);

    let NodeKind::Object(fields) = node.kind else {
        panic!("the root is a plain object");
    };
    let keys: BTreeMap<String, NodeId> = fields
        .into_iter()
        .map(|(key, id)| (key.to_string(), id))
        .collect();

    assert_eq!(keys.keys().collect::<Vec<_>>(), ["count", "list"]);
    assert!(!tree.is_empty());
    assert_eq!(tree.len(), 4);
}

#[test]
fn subscribers_do_not_run_until_the_notify_is_dropped() {
    let tree = seeded(json(r#"{"count": 1}"#));
    let count = tree.root::<JsonValue>().field::<i64>("count").expect("count");
    let hits = Arc::new(AtomicUsize::new(0));
    let seen = hits.clone();
    let _watch = count.subscribe(move |_| {
        seen.fetch_add(1, Ordering::SeqCst);
    });

    let notify = tree
        .apply(&[replace("/count", json("2"))], &[])
        .expect("applies");

    assert_eq!(hits.load(Ordering::SeqCst), 0);
    assert!(!notify.changes().is_empty());
    assert_eq!(count.value(), 2);

    drop(notify);

    assert_eq!(hits.load(Ordering::SeqCst), 1);
}

#[test]
fn a_rolled_back_transaction_restores_a_collection_it_had_already_folded() {
    let tree = streaming_tree();
    let messages = messages_state(&tree);

    commit(&tree, &[], &[insert_op("a", -1, json(r#"{"id": "a"}"#), None)]);

    let node = messages.by_key("a").expect("a").node();
    let before = tree.len();

    let mut transaction = tree.begin();

    transaction
        .apply(
            &[],
            &[reset_op(), insert_op("b", -1, json(r#"{"id": "b"}"#), None)],
        )
        .expect("the fold applies");

    let error = transaction
        .apply(&[replace("/missing", json("1"))], &[])
        .expect_err("nothing resolves there");

    drop(transaction);

    assert!(matches!(error, TreeError::Pointer { .. }));
    assert_eq!(keys(&messages), ["a"]);
    assert_eq!(messages.by_key("a").expect("a").node(), node);
    assert_eq!(tree.len(), before);
}

#[test]
fn every_handle_is_send_and_sync_even_for_a_payload_that_is_neither() {
    fn assert_send_sync<T: Send + Sync>() {}

    // Neither `Send` nor `Sync`.
    #[allow(dead_code)]
    struct Neither(Rc<()>);

    assert_send_sync::<views::State<Neither>>();
    assert_send_sync::<views::StreamState<Neither>>();
    assert_send_sync::<views::StoreState<Neither>>();
    assert_send_sync::<views::AsyncState<Neither>>();
    assert_send_sync::<views::UploadSlotState>();
    assert_send_sync::<tree::StateTree>();
    assert_send_sync::<SubscriberId>();
    assert_send_sync::<ChangeSet>();
    assert_send_sync::<tree::Node>();
    assert_send_sync::<SemanticValue>();
    assert_send_sync::<change::Notify>();
}
