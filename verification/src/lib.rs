//! Verified core of a cluster-facing control API: a capacity-bounded,
//! insertion-ordered cache of push-event streams with point and substring
//! queries, the listener state machine and frame parser that feed it, and
//! the pure logic behind command dispatch, port discovery and proxy
//! configuration.

pub mod cache;
pub mod command;
pub mod listener;
pub mod ports;
pub mod proxy;
pub mod registry;
pub mod store;
pub mod text;
