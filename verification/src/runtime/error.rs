//! Errors of the actor runtime.
use vstd::prelude::*;

verus! {

/// Runtime errors.
#[derive(Debug, Copy, Clone, PartialEq, Eq, Structural)]
pub enum Error {
    /// The runtime encountered an internal error due to an invalid state: an internal
    /// component has panicked, or the runtime is shutting down. It's unlikely the operation
    /// can be retried successfully.
    RuntimeState,
    /// An operation timed out.
    Timeout,
}

/// Why a message could not be delivered to an actor.
#[derive(Debug, Copy, Clone, PartialEq, Eq, Structural)]
pub enum SendFailure {
    /// The actor is not running.
    ActorNotRunning,
    /// The actor stopped.
    ActorStopped,
    /// The actor's handler returned an error.
    HandlerError,
    /// The actor's mailbox is full.
    MailboxFull,
    /// Delivery timed out.
    Timeout,
}

impl From<SendFailure> for Error {
    fn from(err: SendFailure) -> (r: Error) {
        match err {
            SendFailure::ActorNotRunning | SendFailure::ActorStopped | SendFailure::HandlerError
            | SendFailure::MailboxFull => Error::RuntimeState,
            SendFailure::Timeout => Error::Timeout,
        }
    }
}

impl vstd::std_specs::convert::FromSpecImpl<SendFailure> for Error {
    open spec fn obeys_from_spec() -> bool {
        true
    }

    open spec fn from_spec(err: SendFailure) -> Error {
        match err {
            SendFailure::Timeout => Error::Timeout,
            _ => Error::RuntimeState,
        }
    }
}

} // verus!
