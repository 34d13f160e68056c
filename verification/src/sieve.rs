//! The sieve of Eratosthenes.

use crate::divisibility::{
    divides, lemma_divides_quotient, lemma_divides_transitive, lemma_multiple_divides,
    lemma_prime_from_small_divisors, lemma_small_divisor_refutes_prime, prime,
};
use crate::sequence::{as_nats, lemma_primes_upto_holds_the_primes, prime_count, primes_upto};
use vstd::arithmetic::div_mod::lemma_fundamental_div_mod_converse;
use vstd::prelude::*;

verus! {

/// The largest bound that is ever sieved. It is one below the largest 32-bit
/// value, which is a multiple of 3, so no 32-bit prime lies above it, and a
/// table with one flag for each number up to it can be addressed.
pub const LARGEST_BOUND: usize = 4_294_967_294;

/// The bound cut down to the largest 32-bit value.
pub open spec fn within_32_bits(limit: nat) -> nat {
    if limit <= u32::MAX {
        limit
    } else {
        u32::MAX as nat
    }
}

/// The largest 32-bit value is composite, so the primes up to it are the
/// primes up to the largest bound that is sieved.
pub proof fn lemma_largest_bound_covers()
    ensures
        primes_upto(u32::MAX as nat) == primes_upto(LARGEST_BOUND as nat),
        prime_count(u32::MAX as nat) == prime_count(LARGEST_BOUND as nat),
{
    assert(divides(3, u32::MAX as nat));
    assert(!prime(u32::MAX as nat));
}

/// `k` is struck out once every candidate below `bound` has been handled:
/// it is a multiple of some `d` from 2 on and below `bound`, and no smaller
/// than the square of `d`, where the striking for `d` starts.
spec fn struck(k: nat, bound: nat) -> bool {
    exists|d: nat| 2 <= d < bound && d * d <= k && #[trigger] divides(d, k)
}

/// Handling the candidate `i` strikes exactly the multiples of `i` from its
/// square on, in addition to what was struck before.
proof fn lemma_struck_step(k: nat, i: nat)
    requires
        2 <= i,
    ensures
        struck(k, i + 1) <==> struck(k, i) || (i * i <= k && divides(i, k)),
{
    if struck(k, i + 1) {
        let d = choose|d: nat| 2 <= d < i + 1 && d * d <= k && #[trigger] divides(d, k);
        if d < i {
            assert(struck(k, i));
        }
    }
    if struck(k, i) {
        let d = choose|d: nat| 2 <= d < i && d * d <= k && #[trigger] divides(d, k);
        assert(2 <= d < i + 1 && d * d <= k && divides(d, k));
    }
    if i * i <= k && divides(i, k) {
        assert(2 <= i < i + 1 && i * i <= k && divides(i, k));
    }
}

/// A candidate that is itself struck out adds nothing: whatever its own
/// striking would reach is already struck.
proof fn lemma_struck_candidate_adds_nothing(k: nat, i: nat)
    requires
        2 <= i,
        struck(i, i),
    ensures
        struck(k, i + 1) <==> struck(k, i),
{
    lemma_struck_step(k, i);
    if i * i <= k && divides(i, k) {
        let d = choose|d: nat| 2 <= d < i && d * d <= i && #[trigger] divides(d, i);
        lemma_divides_transitive(d, i, k);
        assert(d * d <= k) by (nonlinear_arith)
            requires
                d * d <= i,
                i * i <= k,
                2 <= i,
        ;
        assert(struck(k, i));
    }
}

/// Once the square of `bound` exceeds `k`, the numbers from 2 on that are
/// not struck are exactly the primes.
proof fn lemma_unstruck_is_prime(k: nat, bound: nat)
    requires
        2 <= k < bound * bound,
    ensures
        !struck(k, bound) <==> prime(k),
{
    if struck(k, bound) {
        let d = choose|d: nat| 2 <= d < bound && d * d <= k && #[trigger] divides(d, k);
        lemma_small_divisor_refutes_prime(d, k);
    } else {
        assert forall|d: nat| 2 <= d && d * d <= k implies !#[trigger] divides(d, k) by {
            assert(d < bound) by (nonlinear_arith)
                requires
                    d * d <= k,
                    k < bound * bound,
            ;
        }
        lemma_prime_from_small_divisors(k);
    }
}

/// Between one multiple of `i` and the next there is none.
proof fn lemma_no_multiple_between(i: nat, j: nat, k: nat)
    requires
        divides(i, j),
        j < k < j + i,
    ensures
        !divides(i, k),
{
    lemma_divides_quotient(i, j);
    let q = j / i;
    assert(k == q * i + (k - j)) by (nonlinear_arith)
        requires
            j == i * q,
    ;
    lemma_fundamental_div_mod_converse(k as int, i as int, q as int, k - j);
}

/// Adding `i` to a multiple of `i` gives the next multiple.
proof fn lemma_next_multiple(i: nat, j: nat)
    requires
        divides(i, j),
    ensures
        divides(i, j + i),
{
    lemma_divides_quotient(i, j);
    let q = j / i;
    assert(j + i == i * (q + 1)) by (nonlinear_arith)
        requires
            j == i * q,
    ;
    lemma_multiple_divides(i, q + 1);
}

/// All primes up to `limit`, in ascending order.
///
/// Elements are 32 bits wide, so a bound beyond the largest 32-bit value
/// gives all the primes that fit.
pub fn sieve_of_eratosthenes(limit: usize) -> (primes: Vec<u32>)
    ensures
        as_nats(primes@) == primes_upto(within_32_bits(limit as nat)),
        forall|i: int, j: int| 0 <= i < j < primes.len() ==> primes[i] < primes[j],
        forall|p: u32| primes@.contains(p) <==> prime(p as nat) && p <= limit,
        limit < 2 ==> primes@.len() == 0,
{
    let top: usize = if limit > LARGEST_BOUND {
        LARGEST_BOUND
    } else {
        limit
    };
    proof {
        lemma_largest_bound_covers();
    }
    let mut primes: Vec<u32> = Vec::new();
    if top < 2 {
        proof {
            reveal_with_fuel(primes_upto, 2);
            assert(as_nats(primes@) =~= primes_upto(top as nat));
            lemma_sieved_holds_the_primes(primes@, top as nat);
        }
        return primes;
    }
    let mut flags: Vec<bool> = vec![true; top + 1];
    flags.set(0, false);
    flags.set(1, false);
    assert forall|k: int| 2 <= k <= top implies (#[trigger] flags[k] <==> !struck(k as nat, 2)) by {
        assert(flags[k]);
    }

    let mut i: usize = 2;
    while (i as u64) * (i as u64) <= top as u64
        invariant
            2 <= i <= 65536,
            i * i <= 0x1_0000_0000,
            2 <= top <= u32::MAX,
            top < usize::MAX,
            flags.len() == top + 1,
            forall|k: int| 2 <= k <= top ==> (#[trigger] flags[k] <==> !struck(k as nat, i as nat)),
        decreases 65536 - i,
    {
        assert(i < 65536 && i <= top && (i + 1) * (i + 1) <= 0x1_0000_0000) by (nonlinear_arith)
            requires
                2 <= i,
                i * i <= top,
                top <= u32::MAX,
        ;
        if flags[i] {
            let ghost before = flags@;
            let mut j: u64 = (i as u64) * (i as u64);
            proof {
                lemma_multiple_divides(i as nat, i as nat);
            }
            while j <= top as u64
                invariant
                    2 <= i < 65536,
                    top <= u32::MAX,
                    top < usize::MAX,
                    i * i <= j <= top + i,
                    divides(i as nat, j as nat),
                    flags.len() == top + 1,
                    before.len() == top + 1,
                    forall|k: int|
                        0 <= k <= top ==> (#[trigger] flags[k] <==> before[k] && !(i * i <= k < j
                            && divides(i as nat, k as nat))),
                decreases top + i - j,
            {
                let ghost marked = flags@;
                flags.set(j as usize, false);
                proof {
                    assert forall|k: int| 0 <= k <= top implies (#[trigger] flags[k] <==> before[k]
                        && !(i * i <= k < j + i && divides(i as nat, k as nat))) by {
                        if j < k < j + i {
                            lemma_no_multiple_between(i as nat, j as nat, k as nat);
                            assert(flags[k] == marked[k]);
                        }
                    }
                    lemma_next_multiple(i as nat, j as nat);
                }
                j += i as u64;
            }
            proof {
                assert forall|k: int| 2 <= k <= top implies (#[trigger] flags[k] <==> !struck(
                    k as nat,
                    (i + 1) as nat,
                )) by {
                    lemma_struck_step(k as nat, i as nat);
                    assert(before[k] <==> !struck(k as nat, i as nat));
                }
            }
        } else {
            proof {
                assert forall|k: int| 2 <= k <= top implies (#[trigger] flags[k] <==> !struck(
                    k as nat,
                    (i + 1) as nat,
                )) by {
                    lemma_struck_candidate_adds_nothing(k as nat, i as nat);
                }
            }
        }
        i += 1;
    }

    proof {
        assert forall|k: int| 2 <= k <= top implies (#[trigger] flags[k] <==> prime(k as nat)) by {
            lemma_unstruck_is_prime(k as nat, i as nat);
        }
    }
    let mut k: usize = 1;
    proof {
        reveal_with_fuel(primes_upto, 2);
    }
    while k < top
        invariant
            1 <= k <= top <= u32::MAX,
            flags.len() == top + 1,
            forall|m: int| 2 <= m <= top ==> (#[trigger] flags[m] <==> prime(m as nat)),
            as_nats(primes@) == primes_upto(k as nat),
        decreases top - k,
    {
        k += 1;
        if flags[k] {
            primes.push(k as u32);
        }
        assert(as_nats(primes@) =~= primes_upto(k as nat));
    }
    proof {
        lemma_sieved_holds_the_primes(primes@, within_32_bits(limit as nat));
    }
    primes
}

/// A machine sequence that spells `primes_upto(limit)` is strictly ascending
/// and holds exactly the primes up to `limit`.
pub proof fn lemma_sieved_holds_the_primes(s: Seq<u32>, limit: nat)
    requires
        as_nats(s) == primes_upto(limit),
    ensures
        forall|i: int, j: int| 0 <= i < j < s.len() ==> s[i] < s[j],
        forall|p: u32| s.contains(p) <==> prime(p as nat) && p <= limit,
{
    lemma_primes_upto_holds_the_primes(limit);
    let model = primes_upto(limit);
    assert forall|i: int, j: int| 0 <= i < j < s.len() implies s[i] < s[j] by {
        assert(model[i] == s[i] as nat);
        assert(model[j] == s[j] as nat);
    }
    assert forall|p: u32| s.contains(p) <==> prime(p as nat) && p <= limit by {
        if s.contains(p) {
            let i = choose|i: int| 0 <= i < s.len() && s[i] == p;
            assert(model[i] == p as nat);
        }
        if prime(p as nat) && p <= limit {
            assert(model.contains(p as nat));
            let i = choose|i: int| 0 <= i < model.len() && model[i] == p as nat;
            assert(as_nats(s)[i] == s[i] as nat);
            assert(s[i] == p);
        }
    }
}

} // verus!
