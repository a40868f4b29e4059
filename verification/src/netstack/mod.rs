//! Decisions of the userspace network stack.
pub mod error;
pub mod listener;
