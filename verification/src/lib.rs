//! Pung: a messaging service that hides which pairs of users talk to each
//! other. This crate is the round engine: the per-round storage and its
//! encodings, the client's retrieval schedule, and the server's two-phase
//! round state machine.

pub mod client;
pub mod db;
pub mod error;
pub mod pir;
pub mod server;
pub mod util;
