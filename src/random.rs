use vstd::prelude::*;

use rand::Rng;

verus! {

/// Relies on `rand::thread_rng` and `Rng::fill`: `n` random bytes.
#[verifier::external_body]
pub(crate) fn random_bytes(n: usize) -> (r: Vec<u8>)
    ensures
        r@.len() == n,
{
    let mut v = vec![0u8; n];
    rand::thread_rng().fill(&mut v[..]);
    v
}

/// Relies on `rand::thread_rng` and `Rng::gen_range` on an inclusive range,
/// which panics only when the range is empty.
#[verifier::external_body]
pub(crate) fn random_between(lo: usize, hi: usize) -> (r: usize)
    requires
        lo <= hi,
    ensures
        lo <= r <= hi,
{
    rand::thread_rng().gen_range(lo..=hi)
}

/// Relies on `rand::thread_rng` and `Rng::gen::<bool>`: a random choice.
#[verifier::external_body]
pub(crate) fn random_bool() -> bool {
    rand::thread_rng().gen::<bool>()
}

} // verus!
