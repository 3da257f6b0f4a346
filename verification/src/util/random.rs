//! The random numbers behind decoy retrievals and padding tuples. They
//! come from the ChaCha generator of the `rand` crate; nothing in this
//! crate depends on which numbers come.

use vstd::prelude::*;
use rand::ChaChaRng;
use rand::Rng;

verus! {

/// The ChaCha generator of the `rand` crate.
#[verifier::external_type_specification]
#[verifier::external_body]
pub struct ExChaChaRng(rand::ChaChaRng);

/// Calls `ChaChaRng::new_unseeded`: a generator with the fixed key of
/// zeros.
#[verifier::external_body]
pub(crate) fn unseeded_rng() -> ChaChaRng {
    ChaChaRng::new_unseeded()
}

/// Calls `Rng::next_u64` on the generator. Nothing is taken for granted
/// of the number.
#[verifier::external_body]
pub(crate) fn next_u64(rng: &mut ChaChaRng) -> u64 {
    rng.next_u64()
}

/// Calls `Rng::fill_bytes` on the generator with a buffer of `len` bytes.
/// Taken for granted: the buffer keeps its length.
#[verifier::external_body]
pub(crate) fn random_bytes(rng: &mut ChaChaRng, len: usize) -> (bytes: Vec<u8>)
    ensures
        bytes@.len() == len,
{
    let mut bytes: Vec<u8> = vec![0u8; len];
    rng.fill_bytes(&mut bytes[..]);
    bytes
}

/// The index below `len` that a random number stands for: its remainder.
pub open spec fn spec_index_of(number: u64, len: u64) -> u64 {
    if len == 0 {
        0
    } else {
        number % len
    }
}

/// The index below `len` that a random number stands for; 0 where there
/// is nothing to choose from.
pub fn index_of(number: u64, len: u64) -> (idx: u64)
    ensures
        idx == spec_index_of(number, len),
        len > 0 ==> idx < len,
{
    if len == 0 {
        0
    } else {
        number % len
    }
}

/// A random index below `len`; 0, and no number drawn, where there is
/// nothing to choose from.
pub fn random_index(rng: &mut ChaChaRng, len: u64) -> (idx: u64)
    ensures
        len > 0 ==> idx < len,
        len == 0 ==> idx == 0,
{
    if len == 0 {
        0
    } else {
        let number = next_u64(rng);
        index_of(number, len)
    }
}

/// The index that was found, or a random index below `len` where none
/// was.
pub fn some_or_random(found: Option<u64>, rng: &mut ChaChaRng, len: u64) -> (idx: u64)
    ensures
        found matches Some(i) ==> idx == i,
        found is None && len > 0 ==> idx < len,
        found is None && len == 0 ==> idx == 0,
{
    match found {
        Some(i) => i,
        None => random_index(rng, len),
    }
}

} // verus!
