//! Choosing a host: ranking the hosts against the query, and the selector's
//! key handling.

pub mod filter;
pub mod runner;

pub use filter::{filter_and_rank_hosts, HostMatch};
pub use runner::{Action, Key, Selector};
