//! The client side: one connection that is kept alive across losses and shared
//! by many callers, batches of items answered in order, and a cluster of
//! servers with the keyspace spread over them.
//!
//! Calls are pipelined: requests go out in the order they are queued and the
//! server answers them in that order, so the oldest caller waiting is the one
//! a response belongs to ([`pipe`]). A connection that is lost is opened again
//! by the next call, which backs off after repeated failures, and the calls
//! that were in flight are issued once more ([`link`]). A refused token, or a
//! server that does not speak the protocol, ends the client for good.

pub mod batch;
pub mod cluster;
pub mod error;
pub mod laws;
pub mod link;
pub mod pipe;
pub mod ring;
