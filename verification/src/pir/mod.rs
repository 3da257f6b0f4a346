//! The values that go to and come from the private retrieval primitive.
//! The primitive itself is outside this crate: a query lets the server
//! answer for one index of a collection without learning the index.

use vstd::prelude::*;
use crate::db::TUPLE_SIZE;
use crate::util::{get_alpha, spec_alpha};

verus! {

/// A query of a client, as it goes over the wire.
pub struct PirQuery {
    pub query: Vec<u8>,
    pub num: u64,
}

/// The answer of a server to a query, as it goes over the wire.
pub struct PirAnswer {
    pub answer: Vec<u8>,
    pub num: u64,
}

/// What a client decodes from an answer: the bytes of one element.
pub struct PirResult {
    pub result: Vec<u8>,
}

/// What the primitive is set up with for one collection: the size of an
/// element, the number of elements, the packing factor and the depth of
/// recursion.
#[derive(PartialEq, Eq, Copy, Clone, Debug, Structural)]
pub struct PirParams {
    pub size: u64,
    pub num: u64,
    pub alpha: u64,
    pub depth: u64,
}

impl PirAnswer {
    /// The bytes of the answer.
    pub fn to_bytes(&self) -> (bytes: Vec<u8>)
        ensures
            bytes@ == self.answer@,
    {
        self.answer.clone()
    }
}

impl PirResult {
    /// The bytes of the element.
    pub fn to_bytes(&self) -> (bytes: Vec<u8>)
        ensures
            bytes@ == self.result@,
    {
        self.result.clone()
    }
}

/// The parameters for a collection of `num` tuples.
pub open spec fn spec_params(num: nat, depth: u64) -> PirParams {
    PirParams { size: TUPLE_SIZE as u64, num: num as u64, alpha: spec_alpha(num) as u64, depth }
}

impl PirParams {
    /// The parameters for a collection of `num` tuples: client and server
    /// derive them from the number alone.
    pub fn for_tuples(num: u64, depth: u64) -> (params: PirParams)
        ensures
            params == spec_params(num as nat, depth),
    {
        PirParams { size: TUPLE_SIZE as u64, num, alpha: get_alpha(num), depth }
    }
}

} // verus!
