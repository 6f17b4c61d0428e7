use vstd::prelude::*;

verus! {

/// The failures that the protocol logic can report.
#[derive(Debug, Clone, PartialEq, Eq)]
pub enum ProtoError {
    /// The peer closed its side of the socket (a read returned no bytes).
    Disconnected,
    /// A frame declared a length below four or beyond `i32::MAX`.
    InvalidFrame,
    /// A startup packet was malformed: bad length, bad UTF-8 or no terminator.
    InvalidStartup,
    /// The client sent something other than a query or terminate at an idle point.
    ProtocolViolation,
    /// The backend answered the handshake with an ErrorResponse.
    UpstreamError(String),
    /// The backend asked for an authentication method that is not implemented.
    UnsupportedAuth,
    /// The backend asked for a password and none is configured.
    MissingPassword,
    /// A liveness probe found bytes waiting on an idle connection.
    Unexpected,
    /// A liveness probe found the connection closed.
    Closed,
    /// The client sent a request that the proxy does not serve (cancel requests).
    Unsupported,
    /// Text inside a message was not valid UTF-8.
    InvalidText,
    /// The configuration has no entry for the requested database.
    UnknownDatabase,
}

} // verus!
