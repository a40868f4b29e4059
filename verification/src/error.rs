//! Errors that may occur while interacting with a device.
use vstd::prelude::*;

use crate::netstack::error::{Error as NetstackError, StreamError};
use crate::runtime::error::Error as RuntimeError;

verus! {

/// Errors that may occur while interacting with a device.
#[derive(Debug, Copy, Clone, PartialEq, Eq, Structural)]
pub enum Error {
    /// Internal operation failed, likely a bug.
    InternalFailure,
    /// An operation timed out.
    Timeout,
    /// A connection was reset.
    ConnectionReset,
}

impl From<RuntimeError> for Error {
    fn from(value: RuntimeError) -> (r: Error) {
        match value {
            RuntimeError::Timeout => Error::Timeout,
            RuntimeError::RuntimeState => Error::InternalFailure,
        }
    }
}

impl vstd::std_specs::convert::FromSpecImpl<RuntimeError> for Error {
    open spec fn obeys_from_spec() -> bool {
        true
    }

    open spec fn from_spec(value: RuntimeError) -> Error {
        match value {
            RuntimeError::Timeout => Error::Timeout,
            RuntimeError::RuntimeState => Error::InternalFailure,
        }
    }
}

impl From<NetstackError> for Error {
    fn from(value: NetstackError) -> (r: Error) {
        match value {
            NetstackError::WrongType | NetstackError::ChannelClosed | NetstackError::BadRequest
            | NetstackError::InvariantViolated => Error::InternalFailure,
            NetstackError::TcpStream(StreamError::Reset) => Error::ConnectionReset,
        }
    }
}

impl vstd::std_specs::convert::FromSpecImpl<NetstackError> for Error {
    open spec fn obeys_from_spec() -> bool {
        true
    }

    open spec fn from_spec(value: NetstackError) -> Error {
        match value {
            NetstackError::TcpStream(StreamError::Reset) => Error::ConnectionReset,
            _ => Error::InternalFailure,
        }
    }
}

} // verus!
