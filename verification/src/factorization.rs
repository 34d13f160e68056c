//! Prime factorization by trial division.

use crate::divisibility::{
    divides, lemma_divides_quotient, lemma_divides_transitive, lemma_multiple_divides,
    lemma_odd_has_no_even_divisor, lemma_prime_from_small_divisors, prime,
};
use crate::product::{all_prime, ascending, is_factorization, lemma_product_push, product};
use crate::sequence::as_nats;
use vstd::prelude::*;

verus! {

/// Dividing out a divisor `i` of `m` that no smaller number from 2 on
/// divides: `i` is prime, and what is left of `m` still has no divisor
/// below `i`.
proof fn lemma_divide_out(i: nat, m: nat)
    requires
        2 <= i,
        m >= 1,
        divides(i, m),
        forall|d: nat| 2 <= d < i ==> !#[trigger] divides(d, m),
    ensures
        prime(i),
        m == i * (m / i),
        1 <= m / i < m,
        forall|d: nat| 2 <= d < i ==> !#[trigger] divides(d, m / i),
{
    lemma_divides_quotient(i, m);
    let rest = m / i;
    assert(rest < m) by (nonlinear_arith)
        requires
            m == i * rest,
            2 <= i,
            1 <= rest,
    ;
    assert forall|d: nat| 2 <= d < i implies !#[trigger] divides(d, i) by {
        if divides(d, i) {
            lemma_divides_transitive(d, i, m);
        }
    }
    assert(rest * i == i * rest) by (nonlinear_arith);
    lemma_multiple_divides(rest, i);
    assert forall|d: nat| 2 <= d < i implies !#[trigger] divides(d, rest) by {
        if divides(d, rest) {
            lemma_divides_transitive(d, rest, m);
        }
    }
}

/// What is left after dividing out every factor whose square fits: a number
/// above 1 with no divisor below `i`, itself below the square of `i`, is a
/// prime that is at least `i`.
proof fn lemma_remainder_is_prime(i: nat, m: nat)
    requires
        2 <= m < i * i,
        forall|d: nat| 2 <= d < i ==> !#[trigger] divides(d, m),
    ensures
        prime(m),
        i <= m,
{
    assert forall|d: nat| 2 <= d && d * d <= m implies !#[trigger] divides(d, m) by {
        assert(d < i) by (nonlinear_arith)
            requires
                d * d <= m,
                m < i * i,
        ;
    }
    lemma_prime_from_small_divisors(m);
    assert(divides(m, m)) by {
        lemma_multiple_divides(m, 1);
        assert(m * 1 == m);
    }
}

/// The prime factors of `n` with multiplicity, smallest first; empty for 0
/// and 1.
///
/// Their product is `n`, and no other ascending sequence of primes has that
/// product (`lemma_factorization_unique`).
pub fn prime_factorization(n: u32) -> (factors: Vec<u32>)
    ensures
        n < 2 ==> factors@.len() == 0,
        n >= 2 ==> is_factorization(as_nats(factors@), n as nat),
{
    let mut factors: Vec<u32> = Vec::new();
    if n < 2 {
        return factors;
    }
    let mut m: u32 = n;
    proof {
        assert(as_nats(factors@).len() == 0);
        assert(product(as_nats(factors@)) == 1);
    }
    while m % 2 == 0
        invariant
            1 <= m <= n,
            product(as_nats(factors@)) * m == n,
            forall|k: int| 0 <= k < factors.len() ==> factors[k] == 2,
        decreases m,
    {
        proof {
            let done = as_nats(factors@);
            lemma_product_push(done, 2);
            assert(as_nats(factors@.push(2)) =~= done.push(2));
            assert(product(done) * 2 * (m / 2) == product(done) * m) by (nonlinear_arith)
                requires
                    m == 2 * (m / 2),
            ;
        }
        factors.push(2);
        m = m / 2;
    }

    let mut i: u32 = 3;
    while (i as u64) * (i as u64) <= m as u64
        invariant
            3 <= i <= 65537,
            i * i <= 65537 * 65537,
            i % 2 == 1,
            1 <= m <= n,
            product(as_nats(factors@)) * m == n,
            all_prime(as_nats(factors@)),
            ascending(as_nats(factors@)),
            forall|k: int| 0 <= k < factors.len() ==> factors[k] <= i,
            forall|d: nat| 2 <= d < i ==> !#[trigger] divides(d, m as nat),
        decreases 65537 - i,
    {
        assert(i <= 65535 && (i + 2) * (i + 2) <= 65537 * 65537) by (nonlinear_arith)
            requires
                i * i <= m,
                m <= u32::MAX,
                0 <= i,
        ;
        while m % i == 0
            invariant
                3 <= i <= 65535,
                1 <= m <= n,
                product(as_nats(factors@)) * m == n,
                all_prime(as_nats(factors@)),
                ascending(as_nats(factors@)),
                forall|k: int| 0 <= k < factors.len() ==> factors[k] <= i,
                forall|d: nat| 2 <= d < i ==> !#[trigger] divides(d, m as nat),
            decreases m,
        {
            proof {
                let done = as_nats(factors@);
                lemma_divide_out(i as nat, m as nat);
                lemma_product_push(done, i as nat);
                assert(as_nats(factors@.push(i)) =~= done.push(i as nat));
                assert(product(done) * i * (m / i) == product(done) * m) by (nonlinear_arith)
                    requires
                        m == i * (m / i),
                ;
            }
            factors.push(i);
            m = m / i;
        }
        proof {
            assert(!divides(i as nat, m as nat));
            lemma_odd_has_no_even_divisor((i + 1) as nat, m as nat);
        }
        i += 2;
    }

    if m > 1 {
        proof {
            let done = as_nats(factors@);
            lemma_remainder_is_prime(i as nat, m as nat);
            lemma_product_push(done, m as nat);
            assert(as_nats(factors@.push(m)) =~= done.push(m as nat));
        }
        factors.push(m);
    }
    factors
}

} // verus!
