//! Random bytes from the operating system.

use vstd::prelude::*;
use rand::rngs::OsRng;
use rand::Error;
use rand::RngCore;

verus! {

/// The error of the `rand` crate (`rand_core::Error`): what the operating
/// system's generator reports when it cannot deliver. It is only ever
/// passed through.
#[verifier::external_type_specification]
#[verifier::external_body]
pub struct ExRandomError(Error);

/// Draws `n` bytes from the operating system's generator
/// (`RngCore::try_fill_bytes` of `rand::rngs::OsRng`). A generator that
/// cannot deliver comes back as its error. Nothing is claimed of the bytes
/// but their number: two calls may give any two results. Nothing is claimed
/// of when the generator fails.
#[verifier::external_body]
pub(crate) fn try_random_bytes(n: usize) -> (r: Result<Vec<u8>, Error>)
    ensures
        r matches Ok(out) ==> out@.len() == n,
{
    let mut out = vec![0u8; n];
    match OsRng.try_fill_bytes(&mut out) {
        Ok(()) => Ok(out),
        Err(e) => Err(e),
    }
}

} // verus!
