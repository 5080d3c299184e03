//! Core of a caching DNS resolver: the wire codec with name compression,
//! the TTL-aware record cache, and the decision logic of iterative resolution.

pub mod buffer;
pub mod protocol;
pub mod cache;
pub mod client;
pub mod resolver;
pub mod context;
