use vstd::prelude::*;

use rand::Rng;

verus! {

/// Largest id a spawned ball may draw.
pub const MAX_ID: i32 = 100_000_000;

/// Relies on `rand::thread_rng` and `rand::Rng::gen_range` over an inclusive
/// range: the value drawn lies in `1 ..= hi`.
#[verifier::external_body]
pub(crate) fn random_in(hi: i64) -> (r: i64)
    requires
        1 <= hi,
    ensures
        1 <= r <= hi,
{
    rand::thread_rng().gen_range(1..=hi)
}

} // verus!
