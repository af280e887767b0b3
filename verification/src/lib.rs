//! The retained reactive state tree of a Musubi client, and the protocol core
//! of the Phoenix channel client it rides on.
//!
//! `state` holds the tree: values, nodes, transactions, change sets and views.
//! `phoenix` holds the wire codec, the endpoint address, the backoff ladder and
//! the socket's decision core.

pub mod phoenix;
pub mod state;
