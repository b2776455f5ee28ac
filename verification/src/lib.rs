//! A streaming bridge between a single-threaded embedding host and a remote
//! chat-completion service.
//!
//! The library holds the verified core: the request model and its validation,
//! the worker's classification of incremental service events into stream
//! messages, the per-request session (relay queue plus dispatcher) with its
//! ordering and termination invariants, and the codec for the prompt and
//! configuration documents. The surrounding process — the network transport,
//! the worker thread, file access and the host registration — drives these
//! functions from outside.

pub mod doc;
pub mod message;
pub mod models;
pub mod session;
pub mod worker;
