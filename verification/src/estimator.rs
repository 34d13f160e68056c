//! The first `n` primes: an estimate of how far to sieve, and a retry with a
//! doubled bound while the sieve comes back short.

use crate::divisibility::prime;
use crate::infinitude::{
    lemma_nth_prime, lemma_nth_prime_increases, lemma_nth_prime_within, lemma_prime_is_nth,
    lemma_primes_upto_are_the_first, nth_prime,
};
use crate::sequence::{
    as_nats, lemma_prime_count_monotone, lemma_primes_upto_len, prime_count, primes_upto,
    strictly_ascending,
};
use crate::sieve::{lemma_largest_bound_covers, sieve_of_eratosthenes, LARGEST_BOUND};
use vstd::arithmetic::power2::{lemma2_to64, lemma2_to64_rest, lemma_pow2_unfold, pow2};
use vstd::math::min;
use vstd::prelude::*;

verus! {

/// The bound that is sieved first for fewer than six primes.
pub const SMALL_BOUND: usize = 15;

/// The `n` smallest primes in ascending order.
pub open spec fn first_primes(n: nat) -> Seq<nat> {
    Seq::new(n, |k: int| nth_prime(k as nat))
}

/// The number of primes that fit in 32 bits.
pub open spec fn primes_in_range() -> nat {
    prime_count(u32::MAX as nat)
}

/// `first_primes(n)` is strictly ascending, holds primes only, and leaves
/// out no prime up to its last element.
pub proof fn lemma_first_primes_are_the_smallest(n: nat)
    ensures
        first_primes(n).len() == n,
        strictly_ascending(first_primes(n)),
        forall|k: int| 0 <= k < n ==> prime(#[trigger] first_primes(n)[k]),
        forall|q: nat|
            prime(q) && n > 0 && q <= first_primes(n).last() ==> #[trigger] first_primes(
                n,
            ).contains(q),
{
    let s = first_primes(n);
    assert forall|i: int, j: int| 0 <= i < j < s.len() implies s[i] < s[j] by {
        lemma_nth_prime_increases(i as nat, j as nat);
    }
    assert forall|k: int| 0 <= k < n implies prime(#[trigger] s[k]) by {
        lemma_nth_prime(k as nat);
    }
    assert forall|q: nat| prime(q) && n > 0 && q <= s.last() implies #[trigger] s.contains(q) by {
        lemma_prime_is_nth(q);
        let place = (prime_count(q) - 1) as nat;
        if place >= n {
            lemma_nth_prime_increases((n - 1) as nat, place);
        }
        assert(s[place as int] == q);
    }
}

/// At least `n` primes fit in 32 bits exactly when the last of the first
/// `n` primes does.
pub proof fn lemma_first_primes_fit(n: nat)
    requires
        n >= 1,
    ensures
        n <= primes_in_range() <==> nth_prime((n - 1) as nat) <= u32::MAX,
{
    lemma_nth_prime_within((n - 1) as nat, u32::MAX as nat);
}

/// The number of binary digits of `n`.
pub open spec fn bit_length(n: nat) -> nat
    decreases n,
{
    if n == 0 {
        0
    } else {
        1 + bit_length(n / 2)
    }
}

/// Where the search for the first `n` primes starts: 15 for fewer than six
/// primes, and from six on `n * (lg n + lg lg n)` with `lg` the number of
/// binary digits.
///
/// This is the estimate `n * (ln n + ln ln n)` of the `n`-th prime with a
/// margin, in integers: a number has more binary digits than its binary
/// logarithm, which is the natural one over `ln 2`. Nothing rests on the
/// estimate being large enough, since a short bound is doubled.
pub open spec fn starting_bound(n: nat) -> nat {
    if n < 6 {
        SMALL_BOUND as nat
    } else {
        n * (bit_length(n) + bit_length(bit_length(n)))
    }
}

/// A number below the `k`-th power of two has at most `k` binary digits.
proof fn lemma_bit_length_bound(n: nat, k: nat)
    requires
        n < pow2(k),
    ensures
        bit_length(n) <= k,
    decreases k,
{
    if n > 0 {
        if k == 0 {
            lemma2_to64();
        } else {
            lemma_pow2_unfold(k);
            lemma_bit_length_bound(n / 2, (k - 1) as nat);
        }
    }
}

/// The number of binary digits of `n`.
pub fn binary_digits(n: usize) -> (digits: usize)
    ensures
        digits == bit_length(n as nat),
        digits <= 64,
{
    let mut rest: usize = n;
    let mut digits: usize = 0;
    proof {
        lemma2_to64_rest();
        lemma_bit_length_bound(n as nat, 64);
    }
    while rest > 0
        invariant
            digits + bit_length(rest as nat) == bit_length(n as nat),
            bit_length(n as nat) <= 64,
        decreases rest,
    {
        rest = rest / 2;
        digits += 1;
    }
    digits
}

/// The bound at which the search for the first `n` primes starts, cut down
/// to the largest bound that can be sieved.
pub fn initial_bound(n: usize) -> (bound: usize)
    ensures
        bound == min(starting_bound(n as nat) as int, LARGEST_BOUND as int),
{
    if n < 6 {
        return SMALL_BOUND;
    }
    let digits = binary_digits(n);
    let factor = digits + binary_digits(digits);
    match n.checked_mul(factor) {
        Some(bound) => if bound > LARGEST_BOUND {
            LARGEST_BOUND
        } else {
            bound
        },
        None => LARGEST_BOUND,
    }
}

/// The first `count` of the primes up to a bound that holds that many are
/// the first `count` primes.
proof fn lemma_take_is_first_primes(bound: nat, count: nat)
    requires
        count <= prime_count(bound),
    ensures
        primes_upto(bound).take(count as int) == first_primes(count),
{
    lemma_primes_upto_len(bound);
    assert forall|k: int| 0 <= k < count implies primes_upto(bound)[k] == nth_prime(k as nat) by {
        lemma_primes_upto_are_the_first(bound, k);
    }
    assert(primes_upto(bound).take(count as int) =~= first_primes(count));
}

/// The first `n` primes, found by sieving up to `bound` and doubling the
/// bound while fewer than `n` primes come back.
///
/// A bound below 2 counts as 2, and no bound beyond `LARGEST_BOUND` is
/// sieved. The result does not depend on `bound`. Elements are 32 bits
/// wide: where fewer than `n` primes fit, all of those are returned.
pub fn first_n_primes_from_bound(n: usize, bound: usize) -> (primes: Vec<u32>)
    ensures
        n <= primes_in_range() ==> as_nats(primes@) == first_primes(n as nat),
        n > primes_in_range() ==> as_nats(primes@) == primes_upto(u32::MAX as nat),
        primes@.len() == min(n as int, primes_in_range() as int),
{
    proof {
        lemma_primes_upto_len(u32::MAX as nat);
        lemma_largest_bound_covers();
    }
    if n == 0 {
        let primes: Vec<u32> = Vec::new();
        assert(as_nats(primes@) =~= first_primes(0));
        return primes;
    }
    let mut bound: usize = if bound < 2 {
        2
    } else if bound > LARGEST_BOUND {
        LARGEST_BOUND
    } else {
        bound
    };
    let mut primes = sieve_of_eratosthenes(bound);
    while primes.len() < n && bound < LARGEST_BOUND
        invariant
            2 <= bound <= LARGEST_BOUND,
            as_nats(primes@) == primes_upto(bound as nat),
        decreases LARGEST_BOUND - bound,
    {
        bound = if bound > LARGEST_BOUND / 2 {
            LARGEST_BOUND
        } else {
            bound * 2
        };
        primes = sieve_of_eratosthenes(bound);
    }
    let ghost sieved = primes@;
    primes.truncate(n);
    proof {
        lemma_primes_upto_len(bound as nat);
        lemma_prime_count_monotone(bound as nat, LARGEST_BOUND as nat);
        assert(as_nats(sieved).len() == sieved.len());
        if sieved.len() >= n {
            assert(as_nats(primes@) =~= primes_upto(bound as nat).take(n as int));
            lemma_take_is_first_primes(bound as nat, n as nat);
        }
    }
    primes
}

/// The first `n` primes in ascending order.
///
/// Elements are 32 bits wide: where fewer than `n` primes fit, all of those
/// are returned.
pub fn first_n_primes(n: usize) -> (primes: Vec<u32>)
    ensures
        n <= primes_in_range() ==> as_nats(primes@) == first_primes(n as nat),
        n > primes_in_range() ==> as_nats(primes@) == primes_upto(u32::MAX as nat),
        primes@.len() == min(n as int, primes_in_range() as int),
{
    first_n_primes_from_bound(n, initial_bound(n))
}

} // verus!
