//! Control-plane protocol: the cipher, nodes and ping handling.
pub mod cipher;
pub mod node;
pub mod ping;
