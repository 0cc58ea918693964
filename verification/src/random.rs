//! Random bytes.
use vstd::prelude::*;

verus! {

/// `rand_core::OsRng::fill_bytes`.
///
/// Fills a buffer of the length asked for with bytes, of which nothing is known. The operating
/// system's generator ends the process by a panic where it fails.
#[verifier::external_body]
pub(crate) fn random_bytes(len: usize) -> (bytes: Vec<u8>)
    ensures
        bytes.len() == len,
{
    let mut bytes = vec![0u8; len];
    rand_core::RngCore::fill_bytes(&mut rand_core::OsRng, &mut bytes);
    bytes
}

} // verus!
