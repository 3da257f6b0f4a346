//! The server of a round: it takes tuples while the round is open for
//! sending, encodes them, serves a fixed number of retrievals to every
//! client, and moves on to the next round.

pub mod model;
pub mod rpc;
