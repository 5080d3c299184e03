//! Shared server state that the library can hold: query counters, the
//! resolution strategy, and the context's error type.

use vstd::prelude::*;
use std::sync::atomic::{AtomicUsize, Ordering};
use crate::client::ClientError;

verus! {

/// Errors raised while setting up the server context.
#[derive(Debug, Clone, PartialEq, Eq)]
pub enum ContextError {
    /// The locally served zones could not be loaded; the text says why.
    Authority(String),
    /// The network client could not be started.
    Client(ClientError),
    /// A file or socket operation failed; the text says how.
    Io(String),
}

/// Default port of the DNS server.
pub const DEFAULT_DNS_PORT: u16 = 53;

/// Default port of the admin API.
pub const DEFAULT_API_PORT: u16 = 5380;

/// Counters of queries served, shared between tasks.
#[derive(Debug)]
pub struct ServerStatistics {
    pub tcp_query_count: AtomicUsize,
    pub udp_query_count: AtomicUsize,
}

impl ServerStatistics {
    /// Counters starting at zero.
    pub fn new() -> (r: Self) {
        ServerStatistics { tcp_query_count: AtomicUsize::new(0), udp_query_count: AtomicUsize::new(0) }
    }

    /// The number of TCP queries processed so far (other tasks may be counting concurrently).
    pub fn get_tcp_query_count(&self) -> usize {
        self.tcp_query_count.load(Ordering::Acquire)
    }

    /// The number of UDP queries processed so far (other tasks may be counting concurrently).
    pub fn get_udp_query_count(&self) -> usize {
        self.udp_query_count.load(Ordering::Acquire)
    }

    /// Counts one TCP query.
    pub fn count_tcp_query(&self) {
        self.tcp_query_count.fetch_add(1, Ordering::Release);
    }

    /// Counts one UDP query.
    pub fn count_udp_query(&self) {
        self.udp_query_count.fetch_add(1, Ordering::Release);
    }
}

/// How queries that need another server are resolved.
#[derive(Debug, Clone, PartialEq, Eq)]
pub enum ResolveStrategy {
    /// Iteratively, from the closest known name server down.
    Recursive,
    /// By forwarding to an upstream server.
    Forward { host: String, port: u16 },
}

} // verus!
