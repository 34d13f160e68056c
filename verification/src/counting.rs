//! The table of the prime-counting function.

use crate::divisibility::prime;
use crate::sequence::{
    as_nats, lemma_prime_count_monotone, lemma_primes_upto_holds_the_primes,
    lemma_primes_upto_len, lemma_primes_upto_prefix, prime_count, primes_upto,
};
use crate::sieve::sieve_of_eratosthenes;
use vstd::prelude::*;

verus! {

/// In the primes up to `limit`, the entry at `cursor` is at most `i` exactly
/// when `cursor` is below the number of primes up to `i`.
proof fn lemma_cursor_below_count(limit: nat, i: nat, cursor: int)
    requires
        i <= limit,
        0 <= cursor < prime_count(limit),
    ensures
        primes_upto(limit)[cursor] <= i <==> cursor < prime_count(i),
{
    lemma_primes_upto_prefix(i, limit);
    lemma_primes_upto_holds_the_primes(i);
    lemma_primes_upto_len(i);
    lemma_primes_upto_len(limit);
    if cursor < prime_count(i) {
        assert(primes_upto(limit)[cursor] == primes_upto(i)[cursor]);
    }
}

/// The table of the prime-counting function: the entry at `i`, for every
/// `i` from 0 to `limit`, is the number of primes that do not exceed `i`.
/// The table starts at 0, never falls, and steps up by one exactly at the
/// primes.
///
/// Entries are 32 bits wide and the primes behind them are too, so the
/// bound has to be a 32-bit value; and the table of `limit + 1` entries has
/// to be addressable.
pub fn prime_counting(limit: usize) -> (counts: Vec<u32>)
    requires
        limit <= u32::MAX,
        limit < usize::MAX,
    ensures
        counts@.len() == limit + 1,
        forall|i: int| 0 <= i <= limit ==> #[trigger] counts[i] == prime_count(i as nat),
        counts[0] == 0,
        forall|i: int, j: int| 0 <= i <= j <= limit ==> counts[i] <= counts[j],
        forall|i: int|
            1 <= i <= limit ==> #[trigger] counts[i] == counts[i - 1] + if prime(i as nat) {
                1int
            } else {
                0int
            },
{
    let primes = sieve_of_eratosthenes(limit);
    let mut counts: Vec<u32> = vec![0u32; limit + 1];
    let mut cursor: usize = 0;
    let mut i: usize = 0;
    proof {
        lemma_primes_upto_len(limit as nat);
        assert(as_nats(primes@).len() == primes@.len());
    }
    while i <= limit
        invariant
            i <= limit + 1,
            limit <= u32::MAX,
            limit < usize::MAX,
            counts@.len() == limit + 1,
            as_nats(primes@) == primes_upto(limit as nat),
            primes@.len() == prime_count(limit as nat),
            prime_count(limit as nat) <= limit,
            i <= limit ==> cursor <= prime_count(i as nat),
            cursor <= primes@.len(),
            forall|k: int| 0 <= k < i ==> #[trigger] counts[k] == prime_count(k as nat),
        decreases limit + 1 - i,
    {
        while cursor < primes.len() && primes[cursor] as usize <= i
            invariant
                i <= limit,
                as_nats(primes@) == primes_upto(limit as nat),
                primes@.len() == prime_count(limit as nat),
                cursor <= prime_count(i as nat),
                cursor <= primes@.len(),
            decreases primes@.len() - cursor,
        {
            proof {
                lemma_cursor_below_count(limit as nat, i as nat, cursor as int);
                assert(as_nats(primes@)[cursor as int] == primes[cursor as int] as nat);
            }
            cursor += 1;
        }
        proof {
            lemma_prime_count_monotone(i as nat, limit as nat);
            if cursor < primes@.len() {
                lemma_cursor_below_count(limit as nat, i as nat, cursor as int);
                assert(as_nats(primes@)[cursor as int] == primes[cursor as int] as nat);
            }
            assert(cursor == prime_count(i as nat));
            if i < limit {
                lemma_prime_count_monotone(i as nat, (i + 1) as nat);
            }
        }
        counts.set(i, cursor as u32);
        i += 1;
    }
    proof {
        assert forall|i: int, j: int| 0 <= i <= j <= limit implies counts[i] <= counts[j] by {
            lemma_prime_count_monotone(i as nat, j as nat);
        }
    }
    counts
}

} // verus!
