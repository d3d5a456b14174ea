//! A single node of a gossip-based broadcast service.
//!
//! The node accepts client broadcast requests, records the broadcast values
//! locally, and disseminates them to its peers with a periodic anti-entropy
//! reconciliation step, so that every reachable node eventually holds the
//! same set of values. This crate holds the protocol engine itself: the
//! per-event state machine, the neighbor-knowledge bookkeeping that decides
//! what to gossip, and the invariants both maintain. Reading events from a
//! byte stream, encoding records for the wire, and the thread plumbing
//! around the engine are left to the surrounding process.

pub mod laws;
pub mod message;
pub mod node;
