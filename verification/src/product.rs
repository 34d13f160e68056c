//! Products of sequences and the uniqueness of prime factorizations.

use crate::divisibility::{
    divides, lemma_larger_does_not_divide, lemma_multiple_divides, lemma_prime_divides_factor,
    lemma_prime_divisor_of_prime, prime,
};
use vstd::prelude::*;

verus! {

/// The product of the elements; 1 for the empty sequence.
pub open spec fn product(s: Seq<nat>) -> nat
    decreases s.len(),
{
    if s.len() == 0 {
        1
    } else {
        product(s.drop_last()) * s.last()
    }
}

/// Every element is prime.
pub open spec fn all_prime(s: Seq<nat>) -> bool {
    forall|i: int| 0 <= i < s.len() ==> prime(#[trigger] s[i])
}

/// No element is smaller than an earlier one.
pub open spec fn ascending(s: Seq<nat>) -> bool {
    forall|i: int, j: int| 0 <= i <= j < s.len() ==> s[i] <= s[j]
}

/// `s` lists the prime factors of `n` with multiplicity, smallest first.
pub open spec fn is_factorization(s: Seq<nat>, n: nat) -> bool {
    all_prime(s) && ascending(s) && product(s) == n
}

/// Appending an element multiplies the product by it.
pub proof fn lemma_product_push(s: Seq<nat>, x: nat)
    ensures
        product(s.push(x)) == product(s) * x,
{
    assert(s.push(x).drop_last() =~= s);
}

/// A product of primes is positive, and at least its last factor.
pub proof fn lemma_product_of_primes_bounds(s: Seq<nat>)
    requires
        all_prime(s),
    ensures
        product(s) >= 1,
        s.len() > 0 ==> product(s) >= s.last() && product(s) >= 2,
    decreases s.len(),
{
    if s.len() > 0 {
        let head = s.drop_last();
        lemma_product_of_primes_bounds(head);
        assert(prime(s.last()));
        assert(product(head) * s.last() >= s.last()) by (nonlinear_arith)
            requires
                product(head) >= 1,
        ;
    }
}

/// A prime that divides a product of primes is one of the factors.
pub proof fn lemma_prime_divisor_is_a_factor(p: nat, s: Seq<nat>) -> (k: int)
    requires
        prime(p),
        all_prime(s),
        divides(p, product(s)),
    ensures
        0 <= k < s.len(),
        s[k] == p,
    decreases s.len(),
{
    if s.len() == 0 {
        lemma_larger_does_not_divide(p, 1);
        0
    } else {
        let head = s.drop_last();
        lemma_prime_divides_factor(p, product(head), s.last());
        if divides(p, s.last()) {
            assert(prime(s.last()));
            lemma_prime_divisor_of_prime(p, s.last());
            s.len() - 1
        } else {
            lemma_prime_divisor_is_a_factor(p, head)
        }
    }
}

/// The fundamental theorem of arithmetic, uniqueness half: two ascending
/// sequences of primes with the same product are the same sequence.
pub proof fn lemma_factorization_unique(s: Seq<nat>, t: Seq<nat>)
    requires
        all_prime(s),
        all_prime(t),
        ascending(s),
        ascending(t),
        product(s) == product(t),
    ensures
        s == t,
    decreases s.len(),
{
    lemma_product_of_primes_bounds(s);
    lemma_product_of_primes_bounds(t);
    if s.len() == 0 || t.len() == 0 {
        assert(s =~= t);
    } else {
        let p = s.last();
        let q = t.last();
        let s0 = s.drop_last();
        let t0 = t.drop_last();
        assert(prime(p) && prime(q));
        lemma_product_of_primes_bounds(s0);
        lemma_product_of_primes_bounds(t0);
        assert(p * product(s0) == product(s0) * p) by (nonlinear_arith);
        assert(q * product(t0) == product(t0) * q) by (nonlinear_arith);
        lemma_multiple_divides(p, product(s0));
        lemma_multiple_divides(q, product(t0));
        let k = lemma_prime_divisor_is_a_factor(p, t);
        let j = lemma_prime_divisor_is_a_factor(q, s);
        assert(p == q);
        assert(product(s0) == product(t0)) by (nonlinear_arith)
            requires
                product(s0) * p == product(t0) * p,
                p > 0,
        ;
        lemma_factorization_unique(s0, t0);
        assert(s =~= s0.push(p));
        assert(t =~= t0.push(q));
    }
}

} // verus!
