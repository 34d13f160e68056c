//! Differences between consecutive primes.

use crate::divisibility::{divides, prime};
use vstd::prelude::*;

verus! {

/// No element is smaller than an earlier one.
pub open spec fn non_decreasing(s: Seq<u32>) -> bool {
    forall|i: int, j: int| 0 <= i <= j < s.len() ==> s[i] <= s[j]
}

/// `gaps` holds the differences between each element of `s` and the one
/// before it: one gap for each adjacent pair, none where `s` has fewer than
/// two elements.
pub open spec fn are_gaps_of(gaps: Seq<u32>, s: Seq<u32>) -> bool {
    &&& s.len() < 2 ==> gaps.len() == 0
    &&& s.len() >= 2 ==> gaps.len() == s.len() - 1
    &&& forall|i: int| 0 <= i < gaps.len() ==> #[trigger] gaps[i] == s[i + 1] - s[i]
}

/// The gaps between consecutive elements of an ascending sequence: one gap
/// for each adjacent pair, none for fewer than two elements.
///
/// The sequence is meant to hold ascending primes; all that is asked of it
/// is that no element is smaller than the one before, so that every gap
/// fits.
pub fn prime_gaps(primes: &[u32]) -> (gaps: Vec<u32>)
    requires
        non_decreasing(primes@),
    ensures
        are_gaps_of(gaps@, primes@),
{
    let mut gaps: Vec<u32> = Vec::new();
    if primes.len() < 2 {
        return gaps;
    }
    let mut i: usize = 1;
    while i < primes.len()
        invariant
            1 <= i <= primes@.len(),
            non_decreasing(primes@),
            gaps@.len() == i - 1,
            forall|k: int| 0 <= k < gaps@.len() ==> #[trigger] gaps[k] == primes[k + 1] - primes[k],
        decreases primes@.len() - i,
    {
        gaps.push(primes[i] - primes[i - 1]);
        i += 1;
    }
    gaps
}

/// Between distinct primes every gap is at least 1, and at least 2 once the
/// smaller prime is past 2.
pub proof fn lemma_gaps_between_primes(gaps: Seq<u32>, s: Seq<u32>, i: int)
    requires
        are_gaps_of(gaps, s),
        0 <= i < gaps.len(),
        s[i] < s[i + 1],
        prime(s[i] as nat),
        prime(s[i + 1] as nat),
    ensures
        gaps[i] >= 1,
        s[i] > 2 ==> gaps[i] >= 2,
{
    if s[i] > 2 && s[i + 1] == s[i] + 1 {
        let p = s[i] as nat;
        let q = s[i + 1] as nat;
        assert(!divides(2, p));
        assert(!divides(2, q));
    }
}

} // verus!
