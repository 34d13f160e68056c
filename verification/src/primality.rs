//! Primality of a single number by trial division.

use crate::divisibility::{
    divides, lemma_odd_has_no_even_divisor, lemma_prime_from_small_divisors,
    lemma_small_divisor_refutes_prime, prime,
};
use vstd::prelude::*;

verus! {

/// Whether `n` is prime, decided by trial division by 2 and by the odd
/// numbers whose square does not exceed `n`.
pub fn is_prime(n: u32) -> (result: bool)
    ensures
        result == prime(n as nat),
{
    if n < 2 {
        return false;
    }
    if n == 2 {
        return true;
    }
    if n % 2 == 0 {
        assert(divides(2, n as nat));
        return false;
    }
    let mut i: u32 = 3;
    while (i as u64) * (i as u64) <= n as u64
        invariant
            3 <= i <= 65537,
            i * i <= 65537 * 65537,
            i % 2 == 1,
            n >= 3,
            forall|d: nat| 2 <= d < i ==> !#[trigger] divides(d, n as nat),
        decreases 65537 - i,
    {
        assert(i <= 65535 && (i + 2) * (i + 2) <= 65537 * 65537) by (nonlinear_arith)
            requires
                i * i <= n,
                n <= u32::MAX,
                0 <= i,
        ;
        if n % i == 0 {
            proof {
                lemma_small_divisor_refutes_prime(i as nat, n as nat);
            }
            return false;
        }
        proof {
            assert(!divides(i as nat, n as nat));
            lemma_odd_has_no_even_divisor((i + 1) as nat, n as nat);
        }
        i += 2;
    }
    proof {
        assert forall|d: nat| 2 <= d && d * d <= n implies !#[trigger] divides(d, n as nat) by {
            assert(d < i) by (nonlinear_arith)
                requires
                    d * d <= n,
                    n < i * i,
            ;
        }
        lemma_prime_from_small_divisors(n as nat);
    }
    true
}

} // verus!
