//! The one source of randomness: integer samples for seeding the root
//! iteration.

use vstd::prelude::*;

verus! {

/// Relies on rand::Rng::gen_range over a half-open integer range, through
/// rand::thread_rng: the sample lies in `[lo, hi)`. gen_range panics only
/// on an empty range, which the precondition rules out.
#[verifier::external_body]
pub(crate) fn sample_range(lo: i64, hi: i64) -> (r: i64)
    requires
        lo < hi,
    ensures
        lo <= r < hi,
{
    let mut rng = rand::thread_rng();
    rand::Rng::gen_range(&mut rng, lo..hi)
}

} // verus!
