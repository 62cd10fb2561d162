//! The library's single source of randomness, kept behind one wrapper so
//! every random draw in the crate shares the same narrow assumption.
use rand::Rng;
use vstd::prelude::*;

verus! {

/// Relies on rand::Rng::gen_range over the range 0..n, on the thread-local
/// generator from rand::thread_rng: it panics only on an empty range (ruled
/// out here) and returns a value drawn from within the range.
#[verifier::external_body]
pub(crate) fn random_below(n: usize) -> (r: usize)
    requires
        1 <= n,
    ensures
        r < n,
{
    rand::thread_rng().gen_range(0..n)
}

} // verus!
