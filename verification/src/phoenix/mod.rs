//! A Phoenix channel client's protocol core: framing, the endpoint address, the
//! backoff ladder, and the decisions of the one task that owns the socket.

pub mod actor;
pub mod answers;
pub mod backoff;
pub mod channel;
pub mod conduct;
pub mod decimal;
pub mod error;
pub mod forms;
pub mod frame;
pub mod hub;
pub mod json;
pub mod laws;
pub mod socket;
pub mod url;
