//! Error types for the transport, the socket handle, and pushes.

use vstd::prelude::*;

use crate::phoenix::frame::BinaryFrameError;

verus! {

/// A failure at the socket level.
///
/// Transport implementations map their own failures onto it, and nothing here
/// looks into the payload.
#[derive(Debug)]
#[non_exhaustive]
pub enum TransportError {
    /// No socket could be opened.
    Connect {
        /// Transport-supplied description of the failure.
        reason: String,
    },
    /// The socket was closed by the peer or by the transport.
    Closed,
    /// A read or write failed on an otherwise open socket.
    Io {
        /// Transport-supplied description of the failure.
        reason: String,
    },
}

impl TransportError {
    /// Builds a [`TransportError::Connect`].
    pub fn connect(reason: &str) -> (error: TransportError)
        ensures
            error matches TransportError::Connect { reason: held } && held@ == reason@,
    {
        TransportError::Connect { reason: reason.to_owned() }
    }

    /// Builds a [`TransportError::Io`].
    pub fn io(reason: &str) -> (error: TransportError)
        ensures
            error matches TransportError::Io { reason: held } && held@ == reason@,
    {
        TransportError::Io { reason: reason.to_owned() }
    }

    /// The failure in words.
    pub fn message(&self) -> (text: String)
        ensures
            text@ == (match self {
                TransportError::Connect { reason } => "connect failed: "@ + reason@,
                TransportError::Closed => "socket closed"@,
                TransportError::Io { reason } => "socket io failed: "@ + reason@,
            }),
    {
        match self {
            TransportError::Connect { reason } => {
                let mut text = "connect failed: ".to_owned();
                text.append(reason.as_str());
                text
            },
            TransportError::Closed => "socket closed".to_owned(),
            TransportError::Io { reason } => {
                let mut text = "socket io failed: ".to_owned();
                text.append(reason.as_str());
                text
            },
        }
    }
}

/// A part missing from a socket under construction.
///
/// There is no other failure: the socket opens lazily, so nothing is attempted
/// while it is built.
#[derive(Debug, Clone, Copy, PartialEq, Eq, Structural)]
#[non_exhaustive]
pub enum BuildError {
    /// `url` was never set.
    MissingUrl,
    /// `connector` was never set.
    MissingConnector,
    /// `spawner` was never set.
    MissingSpawner,
    /// `timer` was never set.
    MissingTimer,
}

/// The task that owns the socket is no longer running, so the request went
/// nowhere.
#[derive(Debug, Clone, Copy, PartialEq, Eq, Structural)]
pub struct SocketClosed;

/// Why a push, or a join or leave, which are pushes, did not produce a reply.
///
/// A reply with an error status is not one of these: it is a reply, so callers
/// can read the error payload.
#[derive(Debug, Clone, PartialEq, Eq)]
#[non_exhaustive]
pub enum PushError {
    /// The channel had not completed a join when the push was issued.
    NotJoined,
    /// A newer channel was attached to the same topic; this handle is stale.
    Stale,
    /// The socket went away while the push was in flight.
    Disconnected,
    /// No reply arrived before the push timeout.
    Timeout,
    /// The server replied with something that is not a reply payload.
    MalformedReply,
    /// The task that owns the socket is no longer running.
    SocketClosed(SocketClosed),
    /// A binary push could not be framed.
    Unframable(BinaryFrameError),
}

} // verus!
