//! Unknown-sessions discovery job for a threshold-cryptography key server
//! cluster.
//!
//! Given a target node, the cluster must agree on which secret-sharing
//! sessions that node holds no share of, so that a joining or recovering
//! node can later be backfilled with the shares it is missing. One node
//! acts as coordinator: it asks every peer the same question. Each peer
//! acts as responder: it scans its own key-share store and reports the
//! sessions whose share records do not list the target. The coordinator
//! merges the answers into one deterministic map from session to the set
//! of responders that reported it missing.

pub mod aggregate;
pub mod ids;
pub mod job;
pub mod laws;
pub mod ordered_set;
pub mod store;
