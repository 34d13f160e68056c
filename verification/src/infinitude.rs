//! There is no largest prime, so a large enough bound holds as many primes
//! as may be asked for, and the primes can be told apart by their place in
//! the ascending order.

use crate::divisibility::{
    divides, lemma_divides_difference, lemma_divides_multiple, lemma_divides_transitive,
    lemma_larger_does_not_divide, lemma_multiple_divides, prime,
};
use crate::sequence::{lemma_prime_count_monotone, lemma_primes_upto_len, prime_count, primes_upto};
use vstd::prelude::*;

verus! {

/// The product of the numbers from 1 to `m`.
pub open spec fn factorial(m: nat) -> nat
    decreases m,
{
    if m == 0 {
        1
    } else {
        m * factorial((m - 1) as nat)
    }
}

/// Every number from 2 on has a prime divisor.
pub proof fn lemma_prime_divisor_exists(n: nat) -> (p: nat)
    requires
        n >= 2,
    ensures
        prime(p),
        divides(p, n),
    decreases n,
{
    if prime(n) {
        lemma_multiple_divides(n, 1);
        assert(n * 1 == n);
        n
    } else {
        let d = choose|d: nat| 2 <= d < n && #[trigger] divides(d, n);
        let p = lemma_prime_divisor_exists(d);
        lemma_divides_transitive(p, d, n);
        p
    }
}

/// The factorial of `m` is positive and a multiple of every number from 1
/// to `m`.
pub proof fn lemma_factorial_is_a_common_multiple(m: nat, d: nat)
    requires
        1 <= d <= m,
    ensures
        factorial(m) >= 1,
        divides(d, factorial(m)),
    decreases m,
{
    let rest = factorial((m - 1) as nat);
    if m == 1 {
        assert(factorial(0) == 1);
        assert(factorial(1) == 1) by (nonlinear_arith)
            requires
                factorial(1) == 1 * factorial(0),
                factorial(0) == 1,
        ;
        lemma_multiple_divides(1, 1);
    } else if d == m {
        lemma_factorial_is_a_common_multiple((m - 1) as nat, 1);
        lemma_multiple_divides(m, rest);
        assert(m * rest >= 1) by (nonlinear_arith)
            requires
                m >= 1,
                rest >= 1,
        ;
    } else {
        lemma_factorial_is_a_common_multiple((m - 1) as nat, d);
        lemma_divides_multiple(d, rest, m);
        assert(m * rest >= 1) by (nonlinear_arith)
            requires
                m >= 1,
                rest >= 1,
        ;
    }
}

/// Euclid's theorem: beyond every number there is a prime.
pub proof fn lemma_prime_beyond(m: nat) -> (p: nat)
    ensures
        prime(p),
        p > m,
{
    if m == 0 {
        assert forall|d: nat| 2 <= d < 2 implies !#[trigger] divides(d, 2) by {}
        2
    } else {
        lemma_factorial_is_a_common_multiple(m, 1);
        let f = factorial(m);
        let p = lemma_prime_divisor_exists(f + 1);
        if p <= m {
            lemma_factorial_is_a_common_multiple(m, p);
            lemma_divides_difference(p, f + 1, f);
            lemma_larger_does_not_divide(p, 1);
        }
        p
    }
}

/// However many primes are asked for, some bound holds that many.
pub proof fn lemma_enough_primes_exist(n: nat) -> (bound: nat)
    ensures
        prime_count(bound) >= n,
    decreases n,
{
    if n == 0 {
        0
    } else {
        let before = lemma_enough_primes_exist((n - 1) as nat);
        let p = lemma_prime_beyond(before);
        lemma_prime_count_monotone(before, (p - 1) as nat);
        p
    }
}

/// The prime that has exactly `k` primes below it: `nth_prime(0)` is 2,
/// `nth_prime(1)` is 3.
pub open spec fn nth_prime(k: nat) -> nat {
    choose|p: nat| prime(p) && prime_count(p) == k + 1
}

/// Where more than `k` primes lie up to a bound, one of them has exactly `k`
/// primes below it.
proof fn lemma_count_is_reached(k: nat, bound: nat) -> (p: nat)
    requires
        prime_count(bound) > k,
    ensures
        prime(p),
        prime_count(p) == k + 1,
        p <= bound,
    decreases bound,
{
    if bound == 0 {
        0
    } else if prime_count((bound - 1) as nat) > k {
        lemma_count_is_reached(k, (bound - 1) as nat)
    } else {
        bound
    }
}

/// `nth_prime(k)` is a prime, and counting the primes up to it gives
/// `k + 1`.
pub proof fn lemma_nth_prime(k: nat)
    ensures
        prime(nth_prime(k)),
        prime_count(nth_prime(k)) == k + 1,
{
    let bound = lemma_enough_primes_exist(k + 1);
    let p = lemma_count_is_reached(k, bound);
    assert(prime(p) && prime_count(p) == k + 1);
}

/// A prime is the `nth_prime` of the number of primes below it.
pub proof fn lemma_prime_is_nth(p: nat)
    requires
        prime(p),
    ensures
        prime_count(p) >= 1,
        nth_prime((prime_count(p) - 1) as nat) == p,
{
    let k = (prime_count(p) - 1) as nat;
    lemma_nth_prime(k);
    let q = nth_prime(k);
    if q < p {
        lemma_prime_count_monotone(q, (p - 1) as nat);
    }
    if p < q {
        lemma_prime_count_monotone(p, (q - 1) as nat);
    }
}

/// The primes up to a bound are, in order, `nth_prime(0)`, `nth_prime(1)`
/// and so on.
pub proof fn lemma_primes_upto_are_the_first(m: nat, k: int)
    requires
        0 <= k < prime_count(m),
    ensures
        primes_upto(m)[k] == nth_prime(k as nat),
    decreases m,
{
    if m > 0 {
        lemma_primes_upto_len((m - 1) as nat);
        if k < prime_count((m - 1) as nat) {
            lemma_primes_upto_are_the_first((m - 1) as nat, k);
        } else {
            lemma_prime_is_nth(m);
        }
    }
}

/// `nth_prime(k)` lies within a bound exactly when more than `k` primes do.
pub proof fn lemma_nth_prime_within(k: nat, m: nat)
    ensures
        nth_prime(k) <= m <==> k < prime_count(m),
{
    lemma_nth_prime(k);
    let p = nth_prime(k);
    if p <= m {
        lemma_prime_count_monotone(p, m);
    } else {
        lemma_prime_count_monotone(m, (p - 1) as nat);
    }
}

/// Later primes are larger.
pub proof fn lemma_nth_prime_increases(i: nat, j: nat)
    requires
        i < j,
    ensures
        nth_prime(i) < nth_prime(j),
{
    lemma_nth_prime(i);
    lemma_nth_prime(j);
    if nth_prime(j) <= nth_prime(i) {
        lemma_prime_count_monotone(nth_prime(j), nth_prime(i));
    }
}

} // verus!
