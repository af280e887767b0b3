//! The two error enums.

use vstd::prelude::*;

use crate::state::text::Chars;

verus! {

/// Why a transaction could not be applied.
#[derive(Debug, PartialEq, Eq)]
#[non_exhaustive]
pub enum TreeError {
    /// The pointer did not resolve, or resolved into a non-container.
    Pointer {
        /// The RFC 6901 pointer, as it arrived.
        path: String,
        /// Which rule it broke.
        reason: &'static str,
    },
    /// An array index was out of bounds, or not a valid RFC 6901 index token.
    Index {
        /// The RFC 6901 pointer, as it arrived.
        path: String,
    },
    /// The value would nest past the depth cap.
    Depth {
        /// The cap.
        limit: usize,
    },
    /// The tree holds as many nodes as its storage can.
    Full,
    /// The transaction was applied to a tree that `close` had already ended.
    Closed,
}

/// A [`TreeError`] as contracts see it.
pub enum Fault {
    Pointer { path: Chars, reason: Chars },
    Index { path: Chars },
    Depth { limit: nat },
    Full,
    Closed,
}

impl View for TreeError {
    type V = Fault;

    open spec fn view(&self) -> Fault {
        match self {
            TreeError::Pointer { path, reason } => Fault::Pointer { path: path@, reason: reason@ },
            TreeError::Index { path } => Fault::Index { path: path@ },
            TreeError::Depth { limit } => Fault::Depth { limit: *limit as nat },
            TreeError::Full => Fault::Full,
            TreeError::Closed => Fault::Closed,
        }
    }
}

impl TreeError {
    /// A pointer that broke a rule.
    pub(crate) fn pointer(path: &str, reason: &'static str) -> (error: TreeError)
        ensures
            error@ == (Fault::Pointer { path: path@, reason: reason@ }),
    {
        TreeError::Pointer { path: path.to_owned(), reason }
    }

    /// An index that is malformed or out of bounds.
    pub(crate) fn index(path: &str) -> (error: TreeError)
        ensures
            error@ == (Fault::Index { path: path@ }),
    {
        TreeError::Index { path: path.to_owned() }
    }
}

/// Why a read did not produce a value.
#[derive(Debug, PartialEq, Eq)]
#[non_exhaustive]
pub enum ReadError {
    /// The node has been removed, or the tree was closed.
    Gone,
    /// The node's shape does not match the requested type; why, in words.
    Shape(String),
}

} // verus!
