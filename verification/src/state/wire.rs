//! The wire vocabulary the tree itself names.

use vstd::prelude::*;

use crate::state::text;
use crate::state::text::Chars;
use crate::state::value::JsonValue;

verus! {

/// A store path as contracts see it.
pub type Path = Seq<Chars>;

/// A server-authored store path; the root store's path is empty.
///
/// A newtype rather than a list of strings so a path cannot be confused with
/// one. Store ids are server-authored: the client echoes them verbatim.
#[derive(Debug)]
pub struct StoreId(Vec<String>);

impl View for StoreId {
    type V = Path;

    closed spec fn view(&self) -> Path {
        text::texts(self.0@)
    }
}

impl StoreId {
    /// The root store's path, the empty path.
    pub fn root() -> (id: StoreId)
        ensures
            id@ == Seq::<Chars>::empty(),
    {
        let id = StoreId(Vec::new());
        assert(id@ =~= Seq::<Chars>::empty());
        id
    }

    /// A path from its segments, parent first.
    pub fn from_segments(segments: Vec<String>) -> (id: StoreId)
        ensures
            id@ == text::texts(segments@),
    {
        StoreId(segments)
    }

    /// The path segments, parent first.
    pub fn as_slice(&self) -> (segments: &[String])
        ensures
            text::texts(segments@) == self@,
    {
        self.0.as_slice()
    }

    /// The path segments, as a list to work on.
    pub(crate) fn segments(&self) -> (segments: Vec<String>)
        ensures
            text::texts(segments@) == self@,
    {
        text::copy_texts(&self.0)
    }

    /// Whether two paths are the same.
    pub fn same(&self, other: &StoreId) -> (equal: bool)
        ensures
            equal == (self@ == other@),
    {
        text::texts_eq(&self.0, &other.0)
    }

    /// A copy of the path.
    pub fn copy(&self) -> (id: StoreId)
        ensures
            id@ == self@,
    {
        StoreId(text::copy_texts(&self.0))
    }
}

impl Clone for StoreId {
    fn clone(&self) -> (id: StoreId)
        ensures
            id@ == self@,
    {
        self.copy()
    }
}

impl PartialEq for StoreId {
    fn eq(&self, other: &StoreId) -> (equal: bool) {
        self.same(other)
    }
}

impl vstd::std_specs::cmp::PartialEqSpecImpl for StoreId {
    open spec fn obeys_eq_spec() -> bool {
        true
    }

    open spec fn eq_spec(&self, other: &StoreId) -> bool {
        self@ == other@
    }
}

/// A mounted child store: its path, and its own rendered fields.
#[derive(Debug, Clone, PartialEq)]
pub struct StoreField<S> {
    /// The child's server-authored path.
    pub store_id: StoreId,
    /// The child's rendered fields.
    pub state: S,
}

/// An upload slot, by its declared name.
#[derive(Debug, Clone, PartialEq)]
pub struct UploadSlot {
    /// The declared upload name.
    pub name: String,
}

/// The wire shape of an async value.
#[derive(Debug, Clone, PartialEq)]
#[allow(inconsistent_fields)]
pub enum AsyncResult<T> {
    /// The task is running.
    Loading {
        /// The prior value, when one was preserved.
        result: Option<T>,
        /// The prior failure, when one was preserved.
        reason: Option<AsyncError>,
    },
    /// The task succeeded.
    Okay {
        /// The resolved value.
        result: T,
        /// Always `None` in practice; the wire renders the key regardless.
        reason: Option<AsyncError>,
    },
    /// The task failed.
    Failed {
        /// The prior value, when one was preserved.
        result: Option<T>,
        /// Why the task failed.
        reason: Option<AsyncError>,
    },
}

/// Why an async value failed.
#[derive(Debug, Clone, PartialEq)]
pub enum AsyncError {
    /// The classified shape.
    Structured {
        /// Whether the task raised or exited.
        kind: AsyncErrorKind,
        /// The wire-serialized reason term.
        value: JsonValue,
    },
    /// Anything else the server rendered.
    Opaque(JsonValue),
}

/// How a failed async value failed.
#[derive(Debug, Clone, Copy, PartialEq, Eq, Structural)]
pub enum AsyncErrorKind {
    /// The task raised.
    Error,
    /// The task exited.
    Exit,
}

/// One RFC 6902 op, restricted to the three the server can emit.
#[derive(Debug, Clone, PartialEq)]
pub enum PatchOp {
    /// Insert a value at `path`.
    Add {
        /// RFC 6901 pointer into the wire tree.
        path: String,
        /// The value to insert.
        value: JsonValue,
    },
    /// Remove the value at `path`.
    Remove {
        /// RFC 6901 pointer into the wire tree.
        path: String,
    },
    /// Overwrite the value at `path`.
    Replace {
        /// RFC 6901 pointer into the wire tree; `""` addresses the whole tree.
        path: String,
        /// The replacement value.
        value: JsonValue,
    },
}

impl PatchOp {
    /// The pointer the op addresses.
    pub open spec fn path_text(self) -> Chars {
        match self {
            PatchOp::Add { path, .. } => path@,
            PatchOp::Remove { path } => path@,
            PatchOp::Replace { path, .. } => path@,
        }
    }

    /// The pointer the op addresses.
    pub fn path(&self) -> (path: &String)
        ensures
            path@ == self.path_text(),
    {
        match self {
            PatchOp::Add { path, .. } => path,
            PatchOp::Remove { path } => path,
            PatchOp::Replace { path, .. } => path,
        }
    }
}

/// One stream delta, stamped with its owning store.
#[derive(Debug, Clone, PartialEq)]
pub enum StreamOp {
    /// Empty the stream.
    Reset {
        /// The declared stream name.
        stream: String,
        /// The owning store's path.
        store_id: StoreId,
    },
    /// Upsert an item, then position it.
    Insert {
        /// The declared stream name.
        stream: String,
        /// The owning store's path.
        store_id: StoreId,
        /// The item's identity within the stream.
        item_key: String,
        /// `-1` appends, `0` or any other negative prepends, `> 0` inserts at
        /// `min(at, len)`.
        at: i64,
        /// The rendered item.
        item: JsonValue,
        /// Cap on the stream's length after this insert; `None` means no cap.
        limit: Option<i64>,
    },
    /// Drop the entry with this item key.
    Delete {
        /// The declared stream name.
        stream: String,
        /// The owning store's path.
        store_id: StoreId,
        /// The item's identity within the stream.
        item_key: String,
    },
}

impl StreamOp {
    /// The stream the op addresses: its owning store and its declared name.
    pub open spec fn target(self) -> (Path, Chars) {
        match self {
            StreamOp::Reset { stream, store_id } => (store_id@, stream@),
            StreamOp::Insert { stream, store_id, .. } => (store_id@, stream@),
            StreamOp::Delete { stream, store_id, .. } => (store_id@, stream@),
        }
    }

    /// The owning store.
    pub fn store_id(&self) -> (id: &StoreId)
        ensures
            id@ == self.target().0,
    {
        match self {
            StreamOp::Reset { store_id, .. } => store_id,
            StreamOp::Insert { store_id, .. } => store_id,
            StreamOp::Delete { store_id, .. } => store_id,
        }
    }

    /// The declared stream name.
    pub fn stream(&self) -> (name: &String)
        ensures
            name@ == self.target().1,
    {
        match self {
            StreamOp::Reset { stream, .. } => stream,
            StreamOp::Insert { stream, .. } => stream,
            StreamOp::Delete { stream, .. } => stream,
        }
    }
}

} // verus!
