//! Batches of network packets laid out in a shared backing buffer.
pub mod basic;
pub mod batch;
pub mod buffer;
pub mod layout;
pub mod raw;
