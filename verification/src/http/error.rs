//! Errors of HTTP connections.
use vstd::prelude::*;

verus! {

/// General categories of error that can occur during any phase of an HTTP connection.
#[derive(Debug, Copy, Clone, PartialEq, Eq, Structural)]
pub enum Error {
    /// A function argument or field value wasn't populated, or contained an invalid value.
    InvalidParam,
    /// An underlying I/O error prevented a connection from being established, a request from
    /// being sent, or a response from being read.
    Io,
    /// A timeout expired while waiting for the server to respond, or we didn't send request
    /// headers within the time the server expected.
    Timeout,
}

impl Error {
    /// The category of an HTTP library error, given whether it was a timeout and whether it
    /// was a parse error (of a message or of a status). A timeout takes precedence.
    pub fn classify(is_timeout: bool, is_parse: bool, is_parse_status: bool) -> (r: Error)
        ensures
            r == if is_timeout {
                Error::Timeout
            } else if is_parse || is_parse_status {
                Error::InvalidParam
            } else {
                Error::Io
            },
    {
        if is_timeout {
            Error::Timeout
        } else if is_parse || is_parse_status {
            Error::InvalidParam
        } else {
            Error::Io
        }
    }
}

} // verus!
