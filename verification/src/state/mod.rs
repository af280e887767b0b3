//! The retained state tree.

pub mod arena;
pub mod change;
pub mod commit;
pub mod error;
pub mod exchanging;
pub mod faults;
pub mod folding;
pub mod forms;
pub mod granting;
pub mod growth;
pub mod guard;
pub mod identity;
pub mod journal;
pub mod keeping;
pub mod keyed;
pub mod laws;
pub mod marker;
pub mod model;
pub mod moving;
pub mod naming;
pub mod node;
pub mod ops;
pub mod patching;
pub mod placing;
pub mod plain;
pub mod pointer;
pub mod reading;
pub mod reconcile;
pub mod reconciling;
pub mod refusing;
pub mod replay;
pub mod rollback;
pub mod rows;
pub mod sets;
pub mod seeding;
pub mod settlement;
pub mod shape;
pub mod shifting;
pub mod slots;
pub mod state;
pub mod streaming;
pub mod subscription;
pub mod table;
pub mod telling;
pub mod text;
pub mod transaction;
pub mod tree;
pub mod upkeep;
pub mod value;
pub mod wire;
