//! The random source: a `fastrand` generator, owned by the caller.
use vstd::prelude::*;

verus! {

/// The generator, opaque to proofs: nothing is known of what it yields next.
#[verifier::external_type_specification]
#[verifier::external_body]
pub struct ExRng(fastrand::Rng);

/// Relies on `fastrand::Rng::i64`: a value of the range `lo..hi`; it panics
/// only on an empty range, which `lo < hi` excludes.
#[verifier::external_body]
fn rng_i64(rng: &mut fastrand::Rng, lo: i64, hi: i64) -> (r: i64)
    requires
        lo < hi,
    ensures
        lo <= r < hi,
{
    rng.i64(lo..hi)
}

/// A value drawn uniformly from `[lo, hi)`, or `lo` itself when the range
/// holds no value above it.
pub fn rand_between(rng: &mut fastrand::Rng, lo: i64, hi: i64) -> (r: i64)
    requires
        lo <= hi,
    ensures
        lo <= r <= hi,
        lo < hi ==> r < hi,
        lo == hi ==> r == lo,
{
    if lo < hi {
        rng_i64(rng, lo, hi)
    } else {
        lo
    }
}

} // verus!
