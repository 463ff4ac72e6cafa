//! The length of a synthesized click.

use vstd::prelude::*;
use vstd::arithmetic::div_mod::{lemma_fundamental_div_mod, lemma_mod_bound};

verus! {

/// The number of nanoseconds in a second.
pub const NANOS_PER_SECOND: u64 = 1_000_000_000;

/// The number of samples that `duration_nanos` nanoseconds take at
/// `sample_rate` samples per second, rounded to the nearest whole sample, a
/// half rounding up.
pub open spec fn rounded_samples(sample_rate: nat, duration_nanos: nat) -> nat {
    ((sample_rate * duration_nanos + NANOS_PER_SECOND / 2) / (NANOS_PER_SECOND as int)) as nat
}

/// The rounded number of samples is the whole number nearest to the exact
/// product of duration and rate: it differs from it by at most half a sample,
/// and by less than that where it lies below.
pub proof fn lemma_rounded_samples_nearest(sample_rate: nat, duration_nanos: nat)
    ensures
        -(NANOS_PER_SECOND / 2) < rounded_samples(sample_rate, duration_nanos) * NANOS_PER_SECOND
            - sample_rate * duration_nanos <= NANOS_PER_SECOND / 2,
{
    let exact = sample_rate * duration_nanos + NANOS_PER_SECOND / 2;
    lemma_fundamental_div_mod(exact as int, NANOS_PER_SECOND as int);
    lemma_mod_bound(exact as int, NANOS_PER_SECOND as int);
}

/// The number of samples of a click that lasts `duration_nanos` nanoseconds
/// at `sample_rate` samples per second; `None` where that number is beyond
/// the range of `usize`.
pub fn click_len(sample_rate: usize, duration_nanos: u64) -> (n: Option<usize>)
    ensures
        n is Some <==> rounded_samples(sample_rate as nat, duration_nanos as nat) <= usize::MAX,
        n matches Some(len) ==> len == rounded_samples(sample_rate as nat, duration_nanos as nat),
{
    let rate = sample_rate as u128;
    let nanos = duration_nanos as u128;
    assert(rate * nanos + NANOS_PER_SECOND / 2 <= u128::MAX) by (nonlinear_arith)
        requires
            rate <= u64::MAX,
            nanos <= u64::MAX,
            NANOS_PER_SECOND == 1_000_000_000,
    ;
    let scaled = rate * nanos + (NANOS_PER_SECOND / 2) as u128;
    let count = scaled / (NANOS_PER_SECOND as u128);
    if count <= usize::MAX as u128 {
        Some(count as usize)
    } else {
        None
    }
}

} // verus!
