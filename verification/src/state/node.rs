//! Nodes and semantic values.

use std::sync::Arc;

use vstd::prelude::*;

use crate::state::keyed;
use crate::state::marker;
use crate::state::marker::{
    ASYNC_MARKER_KEY, ASYNC_REASON_KEY, ASYNC_RESULT_KEY, ASYNC_STATUS_KEY, STORE_ID_KEY,
    STREAM_MARKER_KEY, UPLOAD_MARKER_KEY,
};
use crate::state::text;
use crate::state::text::Chars;
use crate::state::value;
use crate::state::value::{Json, Number, Object, JsonValue};
use crate::state::wire::{Path, StoreId};

verus! {

/// Whether a number is one the node storage could have handed out as a key.
pub open spec fn is_slot_key(raw: u64) -> bool {
    (raw / 0x1_0000_0000) % 2 == 1
}

/// The key no node ever has.
pub const NULL_KEY: u64 = 0x1_ffff_ffff;

/// Client-local identity of one retained node.
///
/// Stable for the node's lifetime, and not handed out again while the node
/// lives.
#[derive(Clone, Copy, Debug, PartialEq, Eq, PartialOrd, Ord, Hash, Structural)]
pub struct NodeId {
    pub(crate) raw: u64,
}

impl NodeId {
    #[verifier::type_invariant]
    pub(crate) closed spec fn minted(self) -> bool {
        is_slot_key(self.raw)
    }

    /// The id spelled by a key of the node storage.
    pub(crate) fn from_key(raw: u64) -> (id: NodeId)
        requires
            is_slot_key(raw),
        ensures
            id.raw == raw,
    {
        NodeId { raw }
    }

    /// The id no node ever has.
    pub open spec fn none() -> NodeId {
        null_id()
    }

    /// The id no node ever has.
    pub fn null() -> (id: NodeId)
        ensures
            id == NodeId::none(),
    {
        NodeId { raw: NULL_KEY }
    }
}

pub(crate) proof fn minted_key(id: NodeId)
    requires
        id.minted(),
    ensures
        is_slot_key(id.raw),
{
}

pub(crate) proof fn null_key()
    ensures
        NodeId::none().raw == NULL_KEY,
{
}

/// The id no node ever has.
pub closed spec fn null_id() -> NodeId {
    NodeId { raw: NULL_KEY }
}

/// The three wire statuses of an async node.
#[derive(Debug, Clone, Copy, PartialEq, Eq, Structural)]
pub enum AsyncStatus {
    /// The task is running.
    Loading,
    /// The task succeeded.
    Okay,
    /// The task failed.
    Failed,
}

impl AsyncStatus {
    /// The status a wire string spells.
    pub open spec fn wire_meaning(status: Chars) -> Option<AsyncStatus> {
        if status == "loading"@ {
            Some(AsyncStatus::Loading)
        } else if status == "ok"@ {
            Some(AsyncStatus::Okay)
        } else if status == "failed"@ {
            Some(AsyncStatus::Failed)
        } else {
            None
        }
    }

    /// The wire spelling.
    pub open spec fn wire_text(self) -> Chars {
        match self {
            AsyncStatus::Loading => "loading"@,
            AsyncStatus::Okay => "ok"@,
            AsyncStatus::Failed => "failed"@,
        }
    }

    /// Reads the wire `status` string.
    pub fn from_wire(status: &str) -> (found: Option<AsyncStatus>)
        ensures
            found == AsyncStatus::wire_meaning(status@),
    {
        if text::text_eq(status, "loading") {
            Some(AsyncStatus::Loading)
        } else if text::text_eq(status, "ok") {
            Some(AsyncStatus::Okay)
        } else if text::text_eq(status, "failed") {
            Some(AsyncStatus::Failed)
        } else {
            None
        }
    }

    /// The wire spelling, for the hydrated and wire projections.
    pub fn as_wire(self) -> (text: &'static str)
        ensures
            text@ == self.wire_text(),
    {
        match self {
            AsyncStatus::Loading => "loading",
            AsyncStatus::Okay => "ok",
            AsyncStatus::Failed => "failed",
        }
    }
}

/// Every status is read back from its own spelling.
pub proof fn status_round_trip(status: AsyncStatus)
    ensures
        AsyncStatus::wire_meaning(status.wire_text()) == Some(status),
{
    reveal_strlit("loading");
    reveal_strlit("ok");
    reveal_strlit("failed");
    assert("loading"@.len() != "ok"@.len());
    assert("loading"@.len() != "failed"@.len());
    assert("failed"@.len() != "ok"@.len());
}

/// What a node is, and where its children live.
#[derive(Debug, PartialEq)]
#[non_exhaustive]
pub enum NodeKind {
    /// JSON `null`.
    Null,
    /// A JSON boolean.
    Bool(bool),
    /// A JSON number.
    Number(Number),
    /// A JSON string.
    String(String),
    /// A plain JSON array. Children are index-identified.
    Array(Vec<NodeId>),
    /// A plain JSON object, its keys in order. Children are key-identified.
    Object(Vec<(String, NodeId)>),
    /// An object that also carries a store id. Reconciled by store id, not by
    /// position.
    Store {
        /// The server-authored path this node is filed under.
        store_id: StoreId,
        /// The child store's own rendered fields, their keys in order.
        fields: Vec<(String, NodeId)>,
    },
    /// A stream slot: an ordered, keyed collection whose contents arrive in
    /// stream ops and never in patch ops.
    Collection {
        /// The declared stream name.
        name: String,
        /// The nearest enclosing store, resolved once at node creation.
        owner: StoreId,
        /// Item key and child, in list order.
        items: Vec<(String, NodeId)>,
    },
    /// An async value.
    Async {
        /// Which of the three wire statuses this node is in.
        status: AsyncStatus,
        /// The `result` subtree; a `Null` node when the wire result is `null`.
        result: NodeId,
        /// The `reason` subtree; a `Null` node when the wire reason is `null`.
        reason: NodeId,
    },
    /// An upload slot. Inert.
    UploadSlot {
        /// The declared slot name.
        name: String,
        /// The nearest enclosing store, resolved once at node creation.
        owner: StoreId,
    },
}

/// A [`NodeKind`] as contracts see it.
#[verifier::ext_equal]
pub enum Kind {
    Null,
    Bool(bool),
    Number(Number),
    Text(Chars),
    Array(Seq<NodeId>),
    Object(Seq<(Chars, NodeId)>),
    Store { id: Path, fields: Seq<(Chars, NodeId)> },
    Collection { name: Chars, owner: Path, items: Seq<(Chars, NodeId)> },
    Async { status: AsyncStatus, result: NodeId, reason: NodeId },
    Upload { name: Chars, owner: Path },
}

/// A list of keyed children as contracts see it.
pub open spec fn links(list: Seq<(String, NodeId)>) -> Seq<(Chars, NodeId)> {
    Seq::new(list.len(), |i: int| (list[i].0@, list[i].1))
}

impl View for NodeKind {
    type V = Kind;

    open spec fn view(&self) -> Kind {
        match self {
            NodeKind::Null => Kind::Null,
            NodeKind::Bool(flag) => Kind::Bool(*flag),
            NodeKind::Number(number) => Kind::Number(*number),
            NodeKind::String(text) => Kind::Text(text@),
            NodeKind::Array(items) => Kind::Array(items@),
            NodeKind::Object(fields) => Kind::Object(links(fields@)),
            NodeKind::Store { store_id, fields } => Kind::Store {
                id: store_id@,
                fields: links(fields@),
            },
            NodeKind::Collection { name, owner, items } => Kind::Collection {
                name: name@,
                owner: owner@,
                items: links(items@),
            },
            NodeKind::Async { status, result, reason } => Kind::Async {
                status: *status,
                result: *result,
                reason: *reason,
            },
            NodeKind::UploadSlot { name, owner } => Kind::Upload { name: name@, owner: owner@ },
        }
    }
}

impl Kind {
    /// The children, in the order the kind holds them.
    pub open spec fn kids(self) -> Seq<NodeId> {
        match self {
            Kind::Array(items) => items,
            Kind::Object(fields) => keyed::items_of(fields),
            Kind::Store { fields, .. } => keyed::items_of(fields),
            Kind::Collection { items, .. } => keyed::items_of(items),
            Kind::Async { result, reason, .. } => seq![result, reason],
            _ => Seq::empty(),
        }
    }

    /// The keyed children of an object or a store.
    pub open spec fn fields(self) -> Option<Seq<(Chars, NodeId)>> {
        match self {
            Kind::Object(fields) => Some(fields),
            Kind::Store { fields, .. } => Some(fields),
            _ => None,
        }
    }

    /// The same object or store around other fields.
    pub open spec fn with_fields(self, new: Seq<(Chars, NodeId)>) -> Kind {
        match self {
            Kind::Object(_) => Kind::Object(new),
            Kind::Store { id, .. } => Kind::Store { id, fields: new },
            _ => self,
        }
    }

    /// The child one object key, store field or async slot resolves to.
    pub open spec fn child(self, key: Chars) -> Option<NodeId> {
        match self {
            Kind::Object(fields) => keyed::lookup(fields, key),
            Kind::Store { fields, .. } => keyed::lookup(fields, key),
            Kind::Async { result, reason, .. } => if key == ASYNC_RESULT_KEY@ {
                Some(result)
            } else if key == ASYNC_REASON_KEY@ {
                Some(reason)
            } else {
                None
            },
            _ => None,
        }
    }

    /// The children of an array or a collection, in list order.
    pub open spec fn ordered(self) -> Seq<NodeId> {
        match self {
            Kind::Array(items) => items,
            Kind::Collection { items, .. } => keyed::items_of(items),
            _ => Seq::empty(),
        }
    }
}

/// A copy of a list of keyed children.
pub(crate) fn copy_links(list: &Vec<(String, NodeId)>) -> (copy: Vec<(String, NodeId)>)
    ensures
        links(copy@) == links(list@),
{
    let mut copy: Vec<(String, NodeId)> = Vec::new();
    let mut i: usize = 0;
    while i < list.len()
        invariant
            i <= list@.len(),
            copy@.len() == i,
            forall|j: int|
                0 <= j < i ==> (#[trigger] copy@[j]).0@ == list@[j].0@ && copy@[j].1 == list@[j].1,
        decreases list.len() - i,
    {
        copy.push((list[i].0.clone(), list[i].1));
        i = i + 1;
    }
    assert(links(copy@) =~= links(list@));
    copy
}

/// The children of a list, without their keys.
pub(crate) fn link_nodes(list: &Vec<(String, NodeId)>) -> (nodes: Vec<NodeId>)
    ensures
        nodes@ == keyed::items_of(links(list@)),
{
    let mut nodes: Vec<NodeId> = Vec::new();
    let mut i: usize = 0;
    while i < list.len()
        invariant
            i <= list@.len(),
            nodes@.len() == i,
            forall|j: int| 0 <= j < i ==> nodes@[j] == list@[j].1,
        decreases list.len() - i,
    {
        nodes.push(list[i].1);
        i = i + 1;
    }
    assert(nodes@ =~= keyed::items_of(links(list@)));
    nodes
}

/// A copy of a list of nodes.
pub(crate) fn copy_nodes(list: &Vec<NodeId>) -> (copy: Vec<NodeId>)
    ensures
        copy@ == list@,
{
    let mut copy: Vec<NodeId> = Vec::new();
    let mut i: usize = 0;
    while i < list.len()
        invariant
            i <= list@.len(),
            copy@ == list@.take(i as int),
        decreases list.len() - i,
    {
        copy.push(list[i]);
        assert(copy@ =~= list@.take(i + 1));
        i = i + 1;
    }
    assert(list@.take(i as int) =~= list@);
    copy
}

/// Where a key first is in a list of keyed children, or its length.
pub(crate) fn link_index(list: &Vec<(String, NodeId)>, key: &str) -> (at: usize)
    ensures
        at == keyed::key_index(links(list@), key@),
        at <= list@.len(),
{
    let ghost seen = links(list@);
    let mut i: usize = 0;
    while i < list.len()
        invariant
            i <= list@.len(),
            seen == links(list@),
            forall|j: int| 0 <= j < i ==> (#[trigger] seen[j]).0 != key@,
        decreases list.len() - i,
    {
        if text::text_eq(list[i].0.as_str(), key) {
            proof {
                keyed::key_index_is(seen, key@, i as int);
            }
            return i;
        }
        assert(seen[i as int].0 != key@);
        i = i + 1;
    }
    proof {
        keyed::key_index_is(seen, key@, i as int);
    }
    i
}

/// The child filed under a key.
pub(crate) fn link_get(list: &Vec<(String, NodeId)>, key: &str) -> (node: Option<NodeId>)
    ensures
        node == keyed::lookup(links(list@), key@),
{
    let at: usize = link_index(list, key);
    if at < list.len() {
        Some(list[at].1)
    } else {
        None
    }
}

/// Files a child under a key.
pub(crate) fn link_put(list: &mut Vec<(String, NodeId)>, key: &str, node: NodeId)
    ensures
        links(final(list)@) == keyed::put(links(old(list)@), key@, node),
{
    let ghost before = links(list@);
    let at: usize = link_index(list, key);
    proof {
        keyed::key_index_meaning(before, key@);
        keyed::key_slot_meaning(before, key@);
    }
    if at < list.len() {
        list.set(at, (key.to_owned(), node));
        assert(links(list@) =~= keyed::put(before, key@, node));
    } else {
        let mut i: usize = 0;
        while i < list.len() && text::text_lt(list[i].0.as_str(), key)
            invariant
                i <= list@.len(),
                before == links(list@),
                *list == *old(list),
                forall|j: int| 0 <= j < i ==> text::text_less((#[trigger] before[j]).0, key@),
            decreases list.len() - i,
        {
            i = i + 1;
        }
        proof {
            keyed::key_slot_is(before, key@, i as int);
        }
        list.insert(i, (key.to_owned(), node));
        assert(links(list@) =~= keyed::put(before, key@, node));
    }
}

/// Drops a key.
pub(crate) fn link_remove(list: &mut Vec<(String, NodeId)>, key: &str)
    ensures
        links(final(list)@) == keyed::without(links(old(list)@), key@),
{
    let ghost before = links(list@);
    let at: usize = link_index(list, key);
    if at < list.len() {
        let _ = list.remove(at);
        assert(links(list@) =~= keyed::without(before, key@));
    }
}

impl NodeKind {
    /// A copy of the kind.
    pub fn copy(&self) -> (kind: NodeKind)
        ensures
            kind@ == self@,
    {
        match self {
            NodeKind::Null => NodeKind::Null,
            NodeKind::Bool(flag) => NodeKind::Bool(*flag),
            NodeKind::Number(number) => NodeKind::Number(*number),
            NodeKind::String(text) => NodeKind::String(text.clone()),
            NodeKind::Array(items) => NodeKind::Array(copy_nodes(items)),
            NodeKind::Object(fields) => NodeKind::Object(copy_links(fields)),
            NodeKind::Store { store_id, fields } => NodeKind::Store {
                store_id: store_id.copy(),
                fields: copy_links(fields),
            },
            NodeKind::Collection { name, owner, items } => NodeKind::Collection {
                name: name.clone(),
                owner: owner.copy(),
                items: copy_links(items),
            },
            NodeKind::Async { status, result, reason } => NodeKind::Async {
                status: *status,
                result: *result,
                reason: *reason,
            },
            NodeKind::UploadSlot { name, owner } => NodeKind::UploadSlot {
                name: name.clone(),
                owner: owner.copy(),
            },
        }
    }

    /// Every child, in the order the kind holds them.
    pub fn children(&self) -> (nodes: Vec<NodeId>)
        ensures
            nodes@ == self@.kids(),
    {
        match self {
            NodeKind::Array(items) => copy_nodes(items),
            NodeKind::Object(fields) => link_nodes(fields),
            NodeKind::Store { fields, .. } => link_nodes(fields),
            NodeKind::Collection { items, .. } => link_nodes(items),
            NodeKind::Async { result, reason, .. } => {
                let mut nodes: Vec<NodeId> = Vec::new();
                nodes.push(*result);
                nodes.push(*reason);
                assert(nodes@ =~= self@.kids());
                nodes
            },
            _ => Vec::new(),
        }
    }

    /// The children of an array or a collection, in list order.
    pub fn ordered_children(&self) -> (nodes: Vec<NodeId>)
        ensures
            nodes@ == self@.ordered(),
    {
        match self {
            NodeKind::Array(items) => copy_nodes(items),
            NodeKind::Collection { items, .. } => link_nodes(items),
            _ => Vec::new(),
        }
    }

    /// The child one object key, store field or async slot resolves to.
    pub fn child_by_key(&self, key: &str) -> (node: Option<NodeId>)
        ensures
            node == self@.child(key@),
    {
        match self {
            NodeKind::Object(fields) => link_get(fields, key),
            NodeKind::Store { fields, .. } => link_get(fields, key),
            NodeKind::Async { result, reason, .. } => {
                if text::text_eq(key, ASYNC_RESULT_KEY) {
                    Some(*result)
                } else if text::text_eq(key, ASYNC_REASON_KEY) {
                    Some(*reason)
                } else {
                    None
                }
            },
            _ => None,
        }
    }
}

impl Clone for NodeKind {
    fn clone(&self) -> (kind: NodeKind)
        ensures
            kind@ == self@,
    {
        self.copy()
    }
}

/// The recursive definition of a node's value, one variant per kind.
#[derive(Debug)]
pub enum Semantic {
    Null,
    Bool(bool),
    Number(Number),
    String(String),
    Array(Vec<SemanticValue>),
    Object(Vec<(String, SemanticValue)>),
    Store { store_id: StoreId, fields: Vec<(String, SemanticValue)> },
    Collection { name: String, owner: StoreId, items: Vec<(String, SemanticValue)> },
    Async { status: AsyncStatus, result: SemanticValue, reason: SemanticValue },
    UploadSlot { name: String, owner: StoreId },
}

/// A node's value as equality sees it.
///
/// Cheap to clone, and structurally shared: a child that a transaction did not
/// change keeps the allocation it had, so its parent's comparison stops at the
/// pointer.
#[derive(Debug)]
pub struct SemanticValue(Arc<Semantic>);

/// A [`SemanticValue`] as contracts see it.
#[verifier::ext_equal]
pub enum Sem {
    Null,
    Bool(bool),
    Number(Number),
    Text(Chars),
    Array(Seq<Sem>),
    Object(Seq<(Chars, Sem)>),
    Store { id: Path, fields: Seq<(Chars, Sem)> },
    Collection { name: Chars, owner: Path, items: Seq<(Chars, Sem)> },
    Async { status: AsyncStatus, result: Box<Sem>, reason: Box<Sem> },
    Upload { name: Chars, owner: Path },
}

/// A semantic value as contracts see it.
pub closed spec fn sem_view(v: SemanticValue) -> Sem
    decreases v,
{
    match *v.0 {
        Semantic::Null => Sem::Null,
        Semantic::Bool(flag) => Sem::Bool(flag),
        Semantic::Number(number) => Sem::Number(number),
        Semantic::String(text) => Sem::Text(text@),
        Semantic::Array(items) => Sem::Array(
            Seq::new(
                items@.len(),
                |i: int|
                    if 0 <= i < items@.len() {
                        sem_view(items@[i])
                    } else {
                        Sem::Null
                    },
            ),
        ),
        Semantic::Object(fields) => Sem::Object(
            Seq::new(
                fields@.len(),
                |i: int|
                    if 0 <= i < fields@.len() {
                        (fields@[i].0@, sem_view(fields@[i].1))
                    } else {
                        (Seq::empty(), Sem::Null)
                    },
            ),
        ),
        Semantic::Store { store_id, fields } => Sem::Store {
            id: store_id@,
            fields: Seq::new(
                fields@.len(),
                |i: int|
                    if 0 <= i < fields@.len() {
                        (fields@[i].0@, sem_view(fields@[i].1))
                    } else {
                        (Seq::empty(), Sem::Null)
                    },
            ),
        },
        Semantic::Collection { name, owner, items } => Sem::Collection {
            name: name@,
            owner: owner@,
            items: Seq::new(
                items@.len(),
                |i: int|
                    if 0 <= i < items@.len() {
                        (items@[i].0@, sem_view(items@[i].1))
                    } else {
                        (Seq::empty(), Sem::Null)
                    },
            ),
        },
        Semantic::Async { status, result, reason } => Sem::Async {
            status,
            result: Box::new(sem_view(result)),
            reason: Box::new(sem_view(reason)),
        },
        Semantic::UploadSlot { name, owner } => Sem::Upload { name: name@, owner: owner@ },
    }
}

impl View for SemanticValue {
    type V = Sem;

    open spec fn view(&self) -> Sem {
        sem_view(*self)
    }
}

/// A list of semantic values as contracts see it.
pub open spec fn sems(list: Seq<SemanticValue>) -> Seq<Sem> {
    Seq::new(list.len(), |i: int| list[i]@)
}

/// A list of keyed semantic values as contracts see it.
pub open spec fn keyed_sems(list: Seq<(String, SemanticValue)>) -> Seq<(Chars, Sem)> {
    Seq::new(list.len(), |i: int| (list[i].0@, list[i].1@))
}

/// The semantic of a layer as contracts see it.
pub open spec fn layer_view(layer: Semantic) -> Sem {
    match layer {
        Semantic::Null => Sem::Null,
        Semantic::Bool(flag) => Sem::Bool(flag),
        Semantic::Number(number) => Sem::Number(number),
        Semantic::String(text) => Sem::Text(text@),
        Semantic::Array(items) => Sem::Array(sems(items@)),
        Semantic::Object(fields) => Sem::Object(keyed_sems(fields@)),
        Semantic::Store { store_id, fields } => Sem::Store {
            id: store_id@,
            fields: keyed_sems(fields@),
        },
        Semantic::Collection { name, owner, items } => Sem::Collection {
            name: name@,
            owner: owner@,
            items: keyed_sems(items@),
        },
        Semantic::Async { status, result, reason } => Sem::Async {
            status,
            result: Box::new(result@),
            reason: Box::new(reason@),
        },
        Semantic::UploadSlot { name, owner } => Sem::Upload { name: name@, owner: owner@ },
    }
}

proof fn sem_view_is_layer_view(v: SemanticValue)
    ensures
        v@ == layer_view(*v.0),
{
    match *v.0 {
        Semantic::Array(items) => {
            assert(v@->Array_0 =~= sems(items@));
        },
        Semantic::Object(fields) => {
            assert(v@->Object_0 =~= keyed_sems(fields@));
        },
        Semantic::Store { store_id, fields } => {
            assert(v@->Store_fields =~= keyed_sems(fields@));
        },
        Semantic::Collection { name, owner, items } => {
            assert(v@->Collection_items =~= keyed_sems(items@));
        },
        _ => {},
    }
}

/// A value as equality sees it: the two float zeros are one number.
pub open spec fn folded(v: Sem) -> Sem
    decreases v,
{
    match v {
        Sem::Number(number) => Sem::Number(number.canon()),
        Sem::Array(items) => Sem::Array(
            Seq::new(
                items.len(),
                |i: int|
                    if 0 <= i < items.len() {
                        folded(items[i])
                    } else {
                        Sem::Null
                    },
            ),
        ),
        Sem::Object(fields) => Sem::Object(
            Seq::new(
                fields.len(),
                |i: int|
                    if 0 <= i < fields.len() {
                        (fields[i].0, folded(fields[i].1))
                    } else {
                        (Seq::empty(), Sem::Null)
                    },
            ),
        ),
        Sem::Store { id, fields } => Sem::Store {
            id,
            fields: Seq::new(
                fields.len(),
                |i: int|
                    if 0 <= i < fields.len() {
                        (fields[i].0, folded(fields[i].1))
                    } else {
                        (Seq::empty(), Sem::Null)
                    },
            ),
        },
        Sem::Collection { name, owner, items } => Sem::Collection {
            name,
            owner,
            items: Seq::new(
                items.len(),
                |i: int|
                    if 0 <= i < items.len() {
                        (items[i].0, folded(items[i].1))
                    } else {
                        (Seq::empty(), Sem::Null)
                    },
            ),
        },
        Sem::Async { status, result, reason } => Sem::Async {
            status,
            result: Box::new(folded(*result)),
            reason: Box::new(folded(*reason)),
        },
        _ => v,
    }
}

/// A list of values as equality sees it.
pub open spec fn folded_items(items: Seq<Sem>) -> Seq<Sem> {
    Seq::new(items.len(), |i: int| folded(items[i]))
}

/// A list of keyed values as equality sees it.
pub open spec fn folded_fields(fields: Seq<(Chars, Sem)>) -> Seq<(Chars, Sem)> {
    Seq::new(fields.len(), |i: int| (fields[i].0, folded(fields[i].1)))
}

/// Whether two values are equal.
pub open spec fn alike(a: Sem, b: Sem) -> bool {
    folded(a) == folded(b)
}

/// What equality sees of a value with children.
pub proof fn folds(v: Sem)
    ensures
        v matches Sem::Array(items) ==> folded(v) == Sem::Array(folded_items(items)),
        v matches Sem::Object(fields) ==> folded(v) == Sem::Object(folded_fields(fields)),
        v matches Sem::Store { id, fields } ==> folded(v) == (Sem::Store {
            id,
            fields: folded_fields(fields),
        }),
        v matches Sem::Collection { name, owner, items } ==> folded(v) == (Sem::Collection {
            name,
            owner,
            items: folded_fields(items),
        }),
{
    match v {
        Sem::Array(items) => {
            assert(folded(v)->Array_0 =~= folded_items(items));
        },
        Sem::Object(fields) => {
            assert(folded(v)->Object_0 =~= folded_fields(fields));
        },
        Sem::Store { id, fields } => {
            assert(folded(v)->Store_fields =~= folded_fields(fields));
        },
        Sem::Collection { name, owner, items } => {
            assert(folded(v)->Collection_items =~= folded_fields(items));
        },
        _ => {},
    }
}

/// `keys` paired with the values of their children.
pub open spec fn paired(list: Seq<(Chars, NodeId)>, children: Seq<Sem>) -> Seq<(Chars, Sem)> {
    Seq::new(list.len(), |i: int| (list[i].0, children[i]))
}

/// A node's value: its kind around the values of its children.
pub open spec fn assembled(kind: Kind, children: Seq<Sem>) -> Sem {
    match kind {
        Kind::Null => Sem::Null,
        Kind::Bool(flag) => Sem::Bool(flag),
        Kind::Number(number) => Sem::Number(number),
        Kind::Text(text) => Sem::Text(text),
        Kind::Array(_) => Sem::Array(children),
        Kind::Object(fields) => Sem::Object(paired(fields, children)),
        Kind::Store { id, fields } => Sem::Store { id, fields: paired(fields, children) },
        Kind::Collection { name, owner, items } => Sem::Collection {
            name,
            owner,
            items: paired(items, children),
        },
        Kind::Async { status, .. } => Sem::Async {
            status,
            result: Box::new(children[0]),
            reason: Box::new(children[1]),
        },
        Kind::Upload { name, owner } => Sem::Upload { name, owner },
    }
}

/// What equality sees of a node's value rests on what it sees of its kind and of
/// its children's values.
pub proof fn alike_assembled(kind: Kind, a: Seq<Sem>, b: Seq<Sem>)
    requires
        a.len() == b.len() == kind.kids().len(),
        forall|i: int| 0 <= i < a.len() ==> alike(#[trigger] a[i], b[i]),
    ensures
        alike(assembled(kind, a), assembled(kind, b)),
{
    folds(assembled(kind, a));
    folds(assembled(kind, b));
    match kind {
        Kind::Array(_) => {
            assert(folded_items(a) =~= folded_items(b));
        },
        Kind::Object(fields) => {
            assert forall|i: int| 0 <= i < fields.len() implies alike(#[trigger] a[i], b[i]) by {}
            assert(folded_fields(paired(fields, a)) =~= folded_fields(paired(fields, b)));
        },
        Kind::Store { fields, .. } => {
            assert(folded_fields(paired(fields, a)) =~= folded_fields(paired(fields, b)));
        },
        Kind::Collection { items, .. } => {
            assert(folded_fields(paired(items, a)) =~= folded_fields(paired(items, b)));
        },
        Kind::Async { .. } => {
            assert(alike(a[0], b[0]) && alike(a[1], b[1]));
        },
        _ => {},
    }
}

/// Calls `Arc::clone`: the clone points at the same value.
#[verifier::external_body]
fn share(shared: &Arc<Semantic>) -> (clone: Arc<Semantic>)
    ensures
        clone == *shared,
{
    Arc::clone(shared)
}

/// Calls `Arc::ptr_eq`: pointers to the same allocation point at equal values.
/// Which pointers are rests on addresses, and is left unsaid.
#[verifier::external_body]
fn same_allocation(a: &Arc<Semantic>, b: &Arc<Semantic>) -> (same: bool)
    ensures
        same ==> *a == *b,
{
    Arc::ptr_eq(a, b)
}

fn keyed_same(a: &Vec<(String, SemanticValue)>, b: &Vec<(String, SemanticValue)>) -> (equal: bool)
    ensures
        equal == (folded_fields(keyed_sems(a@)) == folded_fields(keyed_sems(b@))),
    decreases a,
{
    if a.len() != b.len() {
        assert(folded_fields(keyed_sems(a@)).len() != folded_fields(keyed_sems(b@)).len());
        return false;
    }
    let mut i: usize = 0;
    while i < a.len()
        invariant
            i <= a@.len(),
            a@.len() == b@.len(),
            forall|j: int|
                0 <= j < i ==> folded_fields(keyed_sems(a@))[j] == folded_fields(
                    keyed_sems(b@),
                )[j],
        decreases a.len() - i,
    {
        if a[i].0 != b[i].0 || !a[i].1.same(&b[i].1) {
            assert(folded_fields(keyed_sems(a@))[i as int] != folded_fields(
                keyed_sems(b@),
            )[i as int]);
            return false;
        }
        i = i + 1;
    }
    assert(folded_fields(keyed_sems(a@)) =~= folded_fields(keyed_sems(b@)));
    true
}

/// Pairs keys with the values of their children.
fn pair_up(list: &Vec<(String, NodeId)>, children: &Vec<SemanticValue>) -> (pairs: Vec<
    (String, SemanticValue),
>)
    requires
        children@.len() == list@.len(),
    ensures
        keyed_sems(pairs@) == paired(links(list@), sems(children@)),
{
    let mut pairs: Vec<(String, SemanticValue)> = Vec::new();
    let mut i: usize = 0;
    while i < list.len()
        invariant
            i <= list@.len(),
            children@.len() == list@.len(),
            pairs@.len() == i,
            forall|j: int|
                0 <= j < i ==> (#[trigger] pairs@[j]).0@ == list@[j].0@ && pairs@[j].1@
                    == children@[j]@,
        decreases list.len() - i,
    {
        pairs.push((list[i].0.clone(), children[i].share()));
        i = i + 1;
    }
    assert(keyed_sems(pairs@) =~= paired(links(list@), sems(children@)));
    pairs
}

impl SemanticValue {
    /// Wraps one computed semantic.
    pub(crate) fn new(semantic: Semantic) -> (value: SemanticValue)
        ensures
            value@ == layer_view(semantic),
    {
        let value = SemanticValue(Arc::new(semantic));
        proof {
            sem_view_is_layer_view(value);
        }
        value
    }

    /// The value of `null`.
    pub(crate) fn null() -> (value: SemanticValue)
        ensures
            value@ == Sem::Null,
    {
        SemanticValue::new(Semantic::Null)
    }

    /// The outermost layer of this value.
    pub fn get(&self) -> (layer: &Semantic)
        ensures
            self@ == layer_view(*layer),
    {
        proof {
            sem_view_is_layer_view(*self);
        }
        &self.0
    }

    /// The same value again, sharing its allocation.
    pub fn share(&self) -> (value: SemanticValue)
        ensures
            value@ == self@,
    {
        SemanticValue(share(&self.0))
    }

    /// A node's value: its kind around the values of its children.
    pub(crate) fn assemble(kind: &NodeKind, children: &Vec<SemanticValue>) -> (value: SemanticValue)
        requires
            children@.len() == kind@.kids().len(),
        ensures
            value@ == assembled(kind@, sems(children@)),
    {
        let layer = match kind {
            NodeKind::Null => Semantic::Null,
            NodeKind::Bool(flag) => Semantic::Bool(*flag),
            NodeKind::Number(number) => Semantic::Number(*number),
            NodeKind::String(text) => Semantic::String(text.clone()),
            NodeKind::Array(_) => {
                let mut items: Vec<SemanticValue> = Vec::new();
                let mut i: usize = 0;
                while i < children.len()
                    invariant
                        i <= children@.len(),
                        items@.len() == i,
                        forall|j: int| 0 <= j < i ==> (#[trigger] items@[j])@ == children@[j]@,
                    decreases children.len() - i,
                {
                    items.push(children[i].share());
                    i = i + 1;
                }
                assert(sems(items@) =~= sems(children@));
                Semantic::Array(items)
            },
            NodeKind::Object(fields) => Semantic::Object(pair_up(fields, children)),
            NodeKind::Store { store_id, fields } => Semantic::Store {
                store_id: store_id.copy(),
                fields: pair_up(fields, children),
            },
            NodeKind::Collection { name, owner, items } => Semantic::Collection {
                name: name.clone(),
                owner: owner.copy(),
                items: pair_up(items, children),
            },
            NodeKind::Async { status, .. } => Semantic::Async {
                status: *status,
                result: children[0].share(),
                reason: children[1].share(),
            },
            NodeKind::UploadSlot { name, owner } => Semantic::UploadSlot {
                name: name.clone(),
                owner: owner.copy(),
            },
        };
        SemanticValue::new(layer)
    }

    /// Whether two values are the same allocation.
    ///
    /// Only ever true of equal values. Equal values need not be.
    pub fn is_shared_with(&self, other: &SemanticValue) -> (same: bool)
        ensures
            same ==> self@ == other@,
    {
        same_allocation(&self.0, &other.0)
    }

    /// Whether two values are equal: at once where they share an allocation,
    /// and by structure otherwise.
    pub fn same(&self, other: &SemanticValue) -> (equal: bool)
        ensures
            equal == alike(self@, other@),
        decreases self,
    {
        proof {
            sem_view_is_layer_view(*self);
            sem_view_is_layer_view(*other);
            folds(self@);
            folds(other@);
        }
        if self.is_shared_with(other) {
            return true;
        }
        match (&*self.0, &*other.0) {
            (Semantic::Null, Semantic::Null) => true,
            (Semantic::Bool(a), Semantic::Bool(b)) => *a == *b,
            (Semantic::Number(a), Semantic::Number(b)) => (*a).same(*b),
            (Semantic::String(a), Semantic::String(b)) => *a == *b,
            (Semantic::Array(a), Semantic::Array(b)) => {
                if a.len() != b.len() {
                    assert(folded_items(sems(a@)).len() != folded_items(sems(b@)).len());
                    return false;
                }
                let mut i: usize = 0;
                while i < a.len()
                    invariant
                        *self.0 matches Semantic::Array(held) && held == a,
                        i <= a@.len(),
                        a@.len() == b@.len(),
                        folded(self@) == Sem::Array(folded_items(sems(a@))),
                        folded(other@) == Sem::Array(folded_items(sems(b@))),
                        forall|j: int|
                            0 <= j < i ==> folded_items(sems(a@))[j] == folded_items(sems(b@))[j],
                    decreases a.len() - i,
                {
                    if !a[i].same(&b[i]) {
                        assert(folded_items(sems(a@))[i as int] != folded_items(
                            sems(b@),
                        )[i as int]);
                        return false;
                    }
                    i = i + 1;
                }
                assert(folded_items(sems(a@)) =~= folded_items(sems(b@)));
                true
            },
            (Semantic::Object(a), Semantic::Object(b)) => keyed_same(a, b),
            (Semantic::Store { store_id: id, fields: a }, Semantic::Store {
                store_id: other_id,
                fields: b,
            }) => id.same(other_id) && keyed_same(a, b),
            (Semantic::Collection { name, owner, items: a }, Semantic::Collection {
                name: other_name,
                owner: other_owner,
                items: b,
            }) => *name == *other_name && owner.same(other_owner) && keyed_same(a, b),
            (Semantic::Async { status, result, reason }, Semantic::Async {
                status: other_status,
                result: other_result,
                reason: other_reason,
            }) => *status == *other_status && result.same(other_result) && reason.same(other_reason),
            (Semantic::UploadSlot { name, owner }, Semantic::UploadSlot {
                name: other_name,
                owner: other_owner,
            }) => *name == *other_name && owner.same(other_owner),
            _ => false,
        }
    }

    /// The hydrated projection of this value: stream slots as arrays, store
    /// nodes carrying their id, upload slots as their marker, async nodes as
    /// their wire shape.
    pub fn to_hydrated(&self) -> (value: JsonValue)
        ensures
            value@ == hydrated(self@),
    {
        self.project(Projection::Hydrated)
    }

    /// The wire projection of this value: as the hydrated one, but for a stream
    /// slot, which is its marker again.
    pub fn to_wire(&self) -> (value: JsonValue)
        ensures
            value@ == wire(self@),
    {
        self.project(Projection::Wire)
    }

    fn project(&self, mode: Projection) -> (value: JsonValue)
        ensures
            value@ == projected(self@, mode),
        decreases self,
    {
        broadcast use value::value_views;

        proof {
            sem_view_is_layer_view(*self);
        }
        match &*self.0 {
            Semantic::Null => JsonValue::Null,
            Semantic::Bool(flag) => JsonValue::Bool(*flag),
            Semantic::Number(number) => JsonValue::Number(*number),
            Semantic::String(text) => JsonValue::String(text.clone()),
            Semantic::Array(items) => {
                let mut list: Vec<JsonValue> = Vec::new();
                let mut i: usize = 0;
                while i < items.len()
                    invariant
                        *self.0 matches Semantic::Array(held) && held == items,
                        i <= items@.len(),
                        list@.len() == i,
                        forall|j: int|
                            0 <= j < i ==> (#[trigger] list@[j])@ == projected(items@[j]@, mode),
                    decreases items.len() - i,
                {
                    list.push(items[i].project(mode));
                    i = i + 1;
                }
                assert(value::values_view(list@) =~= projected(self@, mode)->Array_0);
                JsonValue::Array(list)
            },
            Semantic::Object(fields) => {
                let object = Object::from_entries(project_fields(fields, mode));
                assert(object@ =~= projected(self@, mode)->Object_0);
                JsonValue::Object(object)
            },
            Semantic::Store { store_id, fields } => {
                let mut object = Object::from_entries(project_fields(fields, mode));
                assert(object@ =~= projected_fields(keyed_sems(fields@), mode));
                let _ = object.insert(STORE_ID_KEY.to_owned(), marker::path_value(store_id));
                JsonValue::Object(object)
            },
            Semantic::Collection { name, items, .. } => match mode {
                Projection::Hydrated => {
                    let entries = project_fields(items, mode);
                    let mut list: Vec<JsonValue> = Vec::new();
                    let mut i: usize = 0;
                    while i < entries.len()
                        invariant
                            i <= entries@.len(),
                            list@.len() == i,
                            forall|j: int| 0 <= j < i ==> (#[trigger] list@[j])@ == entries@[j].1@,
                        decreases entries.len() - i,
                    {
                        list.push(entries[i].1.copy());
                        i = i + 1;
                    }
                    proof {
                        assert(value::values_view(list@) =~= projected(
                            self@,
                            Projection::Hydrated,
                        )->Array_0) by {
                            assert forall|j: int| 0 <= j < list@.len() implies (#[trigger] list@[j])@
                                == projected(keyed_sems(items@)[j].1, Projection::Hydrated) by {
                                assert(value::entries_view(entries@)[j].1 == entries@[j].1@);
                            }
                        }
                    }
                    JsonValue::Array(list)
                },
                Projection::Wire => sole_marker_value(STREAM_MARKER_KEY, name),
            },
            Semantic::Async { status, result, reason } => {
                let mut object = Object::new();
                let _ = object.insert(ASYNC_MARKER_KEY.to_owned(), JsonValue::Bool(true));
                let _ = object.insert(
                    ASYNC_STATUS_KEY.to_owned(),
                    JsonValue::String(status.as_wire().to_owned()),
                );
                let _ = object.insert(ASYNC_RESULT_KEY.to_owned(), result.project(mode));
                let _ = object.insert(ASYNC_REASON_KEY.to_owned(), reason.project(mode));
                JsonValue::Object(object)
            },
            Semantic::UploadSlot { name, .. } => sole_marker_value(UPLOAD_MARKER_KEY, name),
        }
    }
}

/// Projects one list of keyed values.
fn project_fields(fields: &Vec<(String, SemanticValue)>, mode: Projection) -> (entries: Vec<
    (String, JsonValue),
>)
    ensures
        value::entries_view(entries@) == projected_fields(keyed_sems(fields@), mode),
    decreases fields,
{
    let mut entries: Vec<(String, JsonValue)> = Vec::new();
    let mut i: usize = 0;
    while i < fields.len()
        invariant
            i <= fields@.len(),
            entries@.len() == i,
            forall|j: int|
                0 <= j < i ==> (#[trigger] entries@[j]).0@ == fields@[j].0@ && entries@[j].1@
                    == projected(fields@[j].1@, mode),
        decreases fields.len() - i,
    {
        entries.push((fields[i].0.clone(), fields[i].1.project(mode)));
        i = i + 1;
    }
    assert(value::entries_view(entries@) =~= projected_fields(keyed_sems(fields@), mode));
    entries
}

/// An object whose only key is a marker.
fn sole_marker_value(key: &str, name: &String) -> (value: JsonValue)
    ensures
        value@ == marker_json(key@, name@),
{
    broadcast use value::value_views;

    let mut object = Object::new();
    let _ = object.insert(key.to_owned(), JsonValue::String(name.clone()));
    assert(object@ =~= seq![(key@, Json::Text(name@))]);
    JsonValue::Object(object)
}

/// Which of the two projections a walk is producing.
#[derive(Debug, Clone, Copy, PartialEq, Eq, Structural)]
pub enum Projection {
    /// What a typed read deserializes from.
    Hydrated,
    /// What the mount cache stores.
    Wire,
}

/// The object whose only key is a marker.
pub open spec fn marker_json(key: Chars, name: Chars) -> Json {
    Json::Object(seq![(key, Json::Text(name))])
}

/// The fields of an async node's projection.
pub open spec fn async_fields(status: AsyncStatus, result: Json, reason: Json) -> Seq<
    (Chars, Json),
> {
    let marked = keyed::put(Seq::empty(), ASYNC_MARKER_KEY@, Json::Bool(true));
    let named = keyed::put(marked, ASYNC_STATUS_KEY@, Json::Text(status.wire_text()));
    keyed::put(keyed::put(named, ASYNC_RESULT_KEY@, result), ASYNC_REASON_KEY@, reason)
}

/// One list of keyed values, projected.
pub open spec fn projected_fields(fields: Seq<(Chars, Sem)>, mode: Projection) -> Seq<
    (Chars, Json),
>
    decreases fields,
{
    Seq::new(
        fields.len(),
        |i: int|
            if 0 <= i < fields.len() {
                (fields[i].0, projected(fields[i].1, mode))
            } else {
                (Seq::empty(), Json::Null)
            },
    )
}

/// A value, projected. The owner of a slot is not: the wire never carried it.
pub open spec fn projected(v: Sem, mode: Projection) -> Json
    decreases v,
{
    match v {
        Sem::Null => Json::Null,
        Sem::Bool(flag) => Json::Bool(flag),
        Sem::Number(number) => Json::Number(number),
        Sem::Text(text) => Json::Text(text),
        Sem::Array(items) => Json::Array(
            Seq::new(
                items.len(),
                |i: int|
                    if 0 <= i < items.len() {
                        projected(items[i], mode)
                    } else {
                        Json::Null
                    },
            ),
        ),
        Sem::Object(fields) => Json::Object(projected_fields(fields, mode)),
        Sem::Store { id, fields } => Json::Object(
            keyed::put(projected_fields(fields, mode), STORE_ID_KEY@, marker::path_json(id)),
        ),
        Sem::Collection { name, items, .. } => match mode {
            Projection::Hydrated => Json::Array(keyed::items_of(projected_fields(items, mode))),
            Projection::Wire => marker_json(STREAM_MARKER_KEY@, name),
        },
        Sem::Async { status, result, reason } => Json::Object(
            async_fields(status, projected(*result, mode), projected(*reason, mode)),
        ),
        Sem::Upload { name, .. } => marker_json(UPLOAD_MARKER_KEY@, name),
    }
}

/// A value, hydrated.
pub open spec fn hydrated(v: Sem) -> Json {
    projected(v, Projection::Hydrated)
}

/// A value, as the wire renders it.
pub open spec fn wire(v: Sem) -> Json {
    projected(v, Projection::Wire)
}

impl Clone for SemanticValue {
    fn clone(&self) -> (value: SemanticValue)
        ensures
            value@ == self@,
    {
        self.share()
    }
}

impl PartialEq for SemanticValue {
    fn eq(&self, other: &SemanticValue) -> (equal: bool) {
        self.same(other)
    }
}

impl vstd::std_specs::cmp::PartialEqSpecImpl for SemanticValue {
    open spec fn obeys_eq_spec() -> bool {
        true
    }

    open spec fn eq_spec(&self, other: &SemanticValue) -> bool {
        alike(self@, other@)
    }
}

} // verus!
