//! What holds between the routines of this crate, and that each of them
//! returns one answer only. Every statement is over the values that the
//! routines' contracts describe.

use crate::divisibility::prime;
use crate::estimator::{first_primes, primes_in_range};
use crate::gaps::are_gaps_of;
use crate::product::{is_factorization, lemma_factorization_unique, product};
use crate::sequence::{
    as_nats, lemma_primes_upto_holds_the_primes, lemma_primes_upto_len, prime_count, primes_upto,
};
use crate::sieve::within_32_bits;
use vstd::prelude::*;

verus! {

/// Two machine sequences that spell the same natural numbers are equal.
pub proof fn lemma_as_nats_injective(a: Seq<u32>, b: Seq<u32>)
    requires
        as_nats(a) == as_nats(b),
    ensures
        a == b,
{
    assert(a.len() == as_nats(a).len());
    assert(b.len() == as_nats(b).len());
    assert forall|i: int| 0 <= i < a.len() implies a[i] == b[i] by {
        assert(as_nats(a)[i] == a[i] as nat);
        assert(as_nats(b)[i] == b[i] as nat);
    }
    assert(a =~= b);
}

/// Every number that the sieve returns is one that the primality test
/// accepts: with `primes` what `sieve_of_eratosthenes(limit)` returns and
/// `verdict` what `is_prime` returns on its element at `k`, the verdict is
/// `true`.
pub proof fn lemma_sieved_numbers_pass_the_test(
    limit: usize,
    primes: Seq<u32>,
    k: int,
    verdict: bool,
)
    requires
        as_nats(primes) == primes_upto(within_32_bits(limit as nat)),
        0 <= k < primes.len(),
        verdict == prime(primes[k] as nat),
    ensures
        verdict,
{
    lemma_primes_upto_holds_the_primes(within_32_bits(limit as nat));
    assert(as_nats(primes)[k] == primes[k] as nat);
}

/// The factors of a number from 2 on multiply back to it, and each of them
/// is one that the primality test accepts: with `factors` what
/// `prime_factorization(n)` returns and `verdict` what `is_prime` returns on
/// its element at `k`, the product is `n` and the verdict is `true`.
pub proof fn lemma_factors_multiply_back(n: u32, factors: Seq<u32>, k: int, verdict: bool)
    requires
        n >= 2,
        is_factorization(as_nats(factors), n as nat),
        0 <= k < factors.len(),
        verdict == prime(factors[k] as nat),
    ensures
        product(as_nats(factors)) == n,
        verdict,
{
    assert(as_nats(factors)[k] == factors[k] as nat);
}

/// The last entry of the counting table is the number of primes that the
/// sieve returns for the same bound: with `counts` what
/// `prime_counting(limit)` returns and `primes` what
/// `sieve_of_eratosthenes(limit)` returns, the entry at `limit` is the
/// length of `primes`.
pub proof fn lemma_last_count_is_sieve_length(limit: usize, counts: Seq<u32>, primes: Seq<u32>)
    requires
        limit <= u32::MAX,
        counts.len() == limit + 1,
        forall|i: int| 0 <= i <= limit ==> #[trigger] counts[i] == prime_count(i as nat),
        as_nats(primes) == primes_upto(within_32_bits(limit as nat)),
    ensures
        counts[limit as int] == primes.len(),
{
    lemma_primes_upto_len(limit as nat);
    assert(as_nats(primes).len() == primes.len());
}

/// The sieve returns one answer for a bound: any two results that meet its
/// contract are equal.
pub proof fn lemma_sieve_is_deterministic(limit: usize, first: Seq<u32>, second: Seq<u32>)
    requires
        as_nats(first) == primes_upto(within_32_bits(limit as nat)),
        as_nats(second) == primes_upto(within_32_bits(limit as nat)),
    ensures
        first == second,
{
    lemma_as_nats_injective(first, second);
}

/// The first `n` primes are one answer: any two results that meet the
/// contract of `first_n_primes` are equal.
pub proof fn lemma_first_n_primes_is_deterministic(n: usize, first: Seq<u32>, second: Seq<u32>)
    requires
        n <= primes_in_range() ==> as_nats(first) == first_primes(n as nat),
        n > primes_in_range() ==> as_nats(first) == primes_upto(u32::MAX as nat),
        n <= primes_in_range() ==> as_nats(second) == first_primes(n as nat),
        n > primes_in_range() ==> as_nats(second) == primes_upto(u32::MAX as nat),
    ensures
        first == second,
{
    lemma_as_nats_injective(first, second);
}

/// The gaps of a sequence are one answer: any two results that meet the
/// contract of `prime_gaps` are equal.
pub proof fn lemma_prime_gaps_is_deterministic(primes: Seq<u32>, first: Seq<u32>, second: Seq<u32>)
    requires
        are_gaps_of(first, primes),
        are_gaps_of(second, primes),
    ensures
        first == second,
{
    assert(first =~= second);
}

/// The primality test gives one verdict for a number.
pub proof fn lemma_is_prime_is_deterministic(n: u32, first: bool, second: bool)
    requires
        first == prime(n as nat),
        second == prime(n as nat),
    ensures
        first == second,
{
}

/// A number has one factorization: any two results that meet the contract
/// of `prime_factorization` are equal.
pub proof fn lemma_prime_factorization_is_deterministic(n: u32, first: Seq<u32>, second: Seq<u32>)
    requires
        n < 2 ==> first.len() == 0,
        n >= 2 ==> is_factorization(as_nats(first), n as nat),
        n < 2 ==> second.len() == 0,
        n >= 2 ==> is_factorization(as_nats(second), n as nat),
    ensures
        first == second,
{
    if n < 2 {
        assert(first =~= second);
    } else {
        lemma_factorization_unique(as_nats(first), as_nats(second));
        lemma_as_nats_injective(first, second);
    }
}

/// The counting table for a bound is one answer: any two results that meet
/// the contract of `prime_counting` are equal.
pub proof fn lemma_prime_counting_is_deterministic(limit: usize, first: Seq<u32>, second: Seq<u32>)
    requires
        first.len() == limit + 1,
        forall|i: int| 0 <= i <= limit ==> #[trigger] first[i] == prime_count(i as nat),
        second.len() == limit + 1,
        forall|i: int| 0 <= i <= limit ==> #[trigger] second[i] == prime_count(i as nat),
    ensures
        first == second,
{
    assert(first =~= second);
}

} // verus!
