//! The verified core of a Tailscale node: packet batches, the control protocol's cipher, ping
//! and node handling, node keys, TCP listener bookkeeping, peer tracking and error types.
pub mod config;
pub mod control;
pub mod error;
pub mod http;
pub mod keys;
pub mod netstack;
pub mod packet;
pub mod runtime;

pub use error::Error;
pub use packet::basic::BasicBatch;
pub use packet::batch::{Batch, BatchIterator, Packet, PacketMut};
pub use packet::buffer::Buffer;
pub use packet::layout::PacketLayout;
pub use packet::raw::{RawBatch, RawBatchBuilder};
