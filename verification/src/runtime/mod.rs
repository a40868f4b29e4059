//! The actor runtime that ties the node's components together.
pub mod assoc;
pub mod error;
pub mod peer_tracker;
