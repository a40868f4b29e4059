//! HTTP client support.
pub mod error;
