//! The primes in ascending order, as a mathematical sequence, and the
//! prime-counting function.

use crate::divisibility::prime;
use vstd::prelude::*;

verus! {

/// The primes from 2 to `m` inclusive, in ascending order.
pub open spec fn primes_upto(m: nat) -> Seq<nat>
    decreases m,
{
    if m == 0 {
        Seq::empty()
    } else if prime(m) {
        primes_upto((m - 1) as nat).push(m)
    } else {
        primes_upto((m - 1) as nat)
    }
}

/// The number of primes that do not exceed `m`.
pub open spec fn prime_count(m: nat) -> nat
    decreases m,
{
    if m == 0 {
        0
    } else if prime(m) {
        prime_count((m - 1) as nat) + 1
    } else {
        prime_count((m - 1) as nat)
    }
}

/// The values of a machine sequence as natural numbers.
pub open spec fn as_nats(s: Seq<u32>) -> Seq<nat> {
    Seq::new(s.len(), |i: int| s[i] as nat)
}

/// Each element is smaller than every later one.
pub open spec fn strictly_ascending(s: Seq<nat>) -> bool {
    forall|i: int, j: int| 0 <= i < j < s.len() ==> s[i] < s[j]
}

/// `primes_upto(m)` has `prime_count(m)` elements, fewer than `m` of them
/// once `m` is positive.
pub proof fn lemma_primes_upto_len(m: nat)
    ensures
        primes_upto(m).len() == prime_count(m),
        prime_count(m) <= m,
        m >= 1 ==> prime_count(m) < m,
    decreases m,
{
    if m > 0 {
        lemma_primes_upto_len((m - 1) as nat);
    }
}

/// `primes_upto(m)` is strictly ascending and holds exactly the primes that
/// do not exceed `m`.
pub proof fn lemma_primes_upto_holds_the_primes(m: nat)
    ensures
        strictly_ascending(primes_upto(m)),
        forall|k: int|
            0 <= k < primes_upto(m).len() ==> prime(#[trigger] primes_upto(m)[k])
                && primes_upto(m)[k] <= m,
        forall|p: nat| prime(p) && p <= m ==> #[trigger] primes_upto(m).contains(p),
    decreases m,
{
    if m > 0 {
        let before = primes_upto((m - 1) as nat);
        lemma_primes_upto_holds_the_primes((m - 1) as nat);
        assert forall|p: nat| prime(p) && p <= m implies #[trigger] primes_upto(m).contains(
            p,
        ) by {
            if p < m {
                assert(before.contains(p));
                let k = choose|k: int| 0 <= k < before.len() && before[k] == p;
                assert(primes_upto(m)[k] == p);
            } else {
                assert(primes_upto(m)[before.len() as int] == p);
            }
        }
    }
}

/// Counting primes is monotone.
pub proof fn lemma_prime_count_monotone(a: nat, b: nat)
    requires
        a <= b,
    ensures
        prime_count(a) <= prime_count(b),
    decreases b,
{
    if a < b {
        lemma_prime_count_monotone(a, (b - 1) as nat);
    }
}

/// The primes up to a smaller bound are the first `prime_count` of the
/// primes up to a larger one, and every later one exceeds the smaller bound.
pub proof fn lemma_primes_upto_prefix(a: nat, b: nat)
    requires
        a <= b,
    ensures
        prime_count(a) <= prime_count(b),
        primes_upto(a) == primes_upto(b).take(prime_count(a) as int),
        forall|k: int| prime_count(a) <= k < prime_count(b) ==> a < #[trigger] primes_upto(b)[k],
    decreases b,
{
    lemma_primes_upto_len(a);
    lemma_primes_upto_len(b);
    if a < b {
        let c = (b - 1) as nat;
        lemma_primes_upto_prefix(a, c);
        lemma_primes_upto_len(c);
        assert(primes_upto(a) =~= primes_upto(b).take(prime_count(a) as int));
    } else {
        assert(primes_upto(a) =~= primes_upto(b).take(prime_count(a) as int));
    }
}

} // verus!
