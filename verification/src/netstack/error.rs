//! Errors of the userspace network stack.
use vstd::prelude::*;

verus! {

/// Errors of an established TCP stream.
#[derive(Debug, Copy, Clone, PartialEq, Eq, Structural)]
pub enum StreamError {
    /// The connection was reset.
    Reset,
}

/// Error while interacting with the netstack.
#[derive(Debug, Copy, Clone, PartialEq, Eq, Structural)]
pub enum Error {
    /// The remote end of a command or reply channel has closed, so the command can't
    /// complete. Typically the netstack we're talking to has been dropped.
    ChannelClosed,
    /// The request contained invalid parameters; retrying will not resolve this. Common
    /// causes are an invalid address, a handle to a socket that no longer exists, or a
    /// packet too large for the socket's buffer.
    BadRequest,
    /// An error related to TCP stream operations.
    TcpStream(StreamError),
    /// An internal invariant was violated: a bug, likely unrecoverable.
    InvariantViolated,
    /// Response was the wrong type for the given operation.
    WrongType,
}

/// Why binding, listening or connecting a socket failed.
#[derive(Debug, Copy, Clone, PartialEq, Eq, Structural)]
pub enum SocketOpFailure {
    /// The socket was in a state that does not allow the operation.
    InvalidState,
    /// The address or port was unspecified or unusable.
    Unaddressable,
}

/// Why sending on a TCP socket failed.
#[derive(Debug, Copy, Clone, PartialEq, Eq, Structural)]
pub enum TcpSendFailure {
    /// The socket was in a state that does not allow sending.
    InvalidState,
}

/// Why sending on a UDP socket failed.
#[derive(Debug, Copy, Clone, PartialEq, Eq, Structural)]
pub enum UdpSendFailure {
    /// The destination was unusable.
    Unaddressable,
    /// The socket's buffer was full.
    BufferFull,
}

/// A command or reply channel was closed (sending or receiving on it failed).
#[derive(Debug, Copy, Clone, PartialEq, Eq, Structural)]
pub struct ChannelDisconnected;

impl From<StreamError> for Error {
    fn from(value: StreamError) -> (r: Error) {
        Error::TcpStream(value)
    }
}

impl vstd::std_specs::convert::FromSpecImpl<StreamError> for Error {
    open spec fn obeys_from_spec() -> bool {
        true
    }

    open spec fn from_spec(value: StreamError) -> Error {
        Error::TcpStream(value)
    }
}

impl From<ChannelDisconnected> for Error {
    fn from(_value: ChannelDisconnected) -> (r: Error) {
        Error::ChannelClosed
    }
}

impl vstd::std_specs::convert::FromSpecImpl<ChannelDisconnected> for Error {
    open spec fn obeys_from_spec() -> bool {
        true
    }

    open spec fn from_spec(value: ChannelDisconnected) -> Error {
        Error::ChannelClosed
    }
}

impl From<SocketOpFailure> for Error {
    fn from(value: SocketOpFailure) -> (r: Error) {
        match value {
            SocketOpFailure::InvalidState => Error::InvariantViolated,
            SocketOpFailure::Unaddressable => Error::BadRequest,
        }
    }
}

impl vstd::std_specs::convert::FromSpecImpl<SocketOpFailure> for Error {
    open spec fn obeys_from_spec() -> bool {
        true
    }

    open spec fn from_spec(value: SocketOpFailure) -> Error {
        match value {
            SocketOpFailure::InvalidState => Error::InvariantViolated,
            SocketOpFailure::Unaddressable => Error::BadRequest,
        }
    }
}

impl From<TcpSendFailure> for Error {
    fn from(value: TcpSendFailure) -> (r: Error) {
        match value {
            TcpSendFailure::InvalidState => Error::from(StreamError::Reset),
        }
    }
}

impl vstd::std_specs::convert::FromSpecImpl<TcpSendFailure> for Error {
    open spec fn obeys_from_spec() -> bool {
        true
    }

    open spec fn from_spec(value: TcpSendFailure) -> Error {
        Error::TcpStream(StreamError::Reset)
    }
}

impl From<UdpSendFailure> for Error {
    fn from(value: UdpSendFailure) -> (r: Error) {
        match value {
            UdpSendFailure::Unaddressable => Error::BadRequest,
            UdpSendFailure::BufferFull => Error::BadRequest,
        }
    }
}

impl vstd::std_specs::convert::FromSpecImpl<UdpSendFailure> for Error {
    open spec fn obeys_from_spec() -> bool {
        true
    }

    open spec fn from_spec(value: UdpSendFailure) -> Error {
        Error::BadRequest
    }
}

} // verus!
