//! Divisibility and primality over the natural numbers.

use vstd::arithmetic::div_mod::{
    lemma_div_multiples_vanish, lemma_fundamental_div_mod, lemma_mod_multiples_basic,
    lemma_small_mod,
};
use vstd::prelude::*;

verus! {

/// `d` divides `n`: `n` is a multiple of the positive number `d`.
pub open spec fn divides(d: nat, n: nat) -> bool {
    d > 0 && n % d == 0
}

/// `n` is prime: it is at least 2 and nothing strictly between 1 and `n`
/// divides it.
pub open spec fn prime(n: nat) -> bool {
    n >= 2 && forall|d: nat| 2 <= d < n ==> !#[trigger] divides(d, n)
}

/// A number that `d` divides is `d` times its quotient by `d`.
pub proof fn lemma_divides_quotient(d: nat, n: nat)
    requires
        divides(d, n),
    ensures
        n == d * (n / d),
        n > 0 ==> 1 <= n / d <= n && d <= n,
{
    lemma_fundamental_div_mod(n as int, d as int);
    let q = n / d;
    assert(n == d * q);
    if n > 0 {
        assert(1 <= q && q <= n && d <= n) by (nonlinear_arith)
            requires
                n == d * q,
                n > 0,
                d > 0,
        ;
    }
}

/// Every multiple of a positive number is divisible by it.
pub proof fn lemma_multiple_divides(d: nat, k: nat)
    requires
        d > 0,
    ensures
        divides(d, d * k),
        (d * k) / d == k,
{
    lemma_mod_multiples_basic(k as int, d as int);
    lemma_div_multiples_vanish(k as int, d as int);
    assert(k * d == d * k) by (nonlinear_arith);
}

/// Divisibility is transitive.
pub proof fn lemma_divides_transitive(a: nat, b: nat, c: nat)
    requires
        divides(a, b),
        divides(b, c),
    ensures
        divides(a, c),
{
    lemma_divides_quotient(a, b);
    lemma_divides_quotient(b, c);
    let k = (b / a) * (c / b);
    assert(c == a * k) by (nonlinear_arith)
        requires
            b == a * (b / a),
            c == b * (c / b),
            k == (b / a) * (c / b),
    ;
    lemma_multiple_divides(a, k);
}

/// An odd number has no even divisor.
pub proof fn lemma_odd_has_no_even_divisor(d: nat, n: nat)
    requires
        d % 2 == 0,
        d > 0,
        !divides(2, n),
    ensures
        !divides(d, n),
{
    if divides(d, n) {
        lemma_divides_transitive(2, d, n);
    }
}

/// Nothing larger than a positive number divides it.
pub proof fn lemma_larger_does_not_divide(d: nat, n: nat)
    requires
        0 < n < d,
    ensures
        !divides(d, n),
{
    lemma_small_mod(n, d);
}

/// A divisor pairs with a codivisor, and the smaller of the two has a
/// square that does not exceed the number.
pub proof fn lemma_small_divisor_exists(d: nat, n: nat) -> (e: nat)
    requires
        2 <= d < n,
        divides(d, n),
    ensures
        2 <= e < n,
        e * e <= n,
        divides(e, n),
{
    lemma_divides_quotient(d, n);
    let q = n / d;
    assert(2 <= q && q < n) by (nonlinear_arith)
        requires
            n == d * q,
            2 <= d < n,
    ;
    assert(q * d == d * q) by (nonlinear_arith);
    lemma_multiple_divides(q, d);
    if d <= q {
        assert(d * d <= n) by (nonlinear_arith)
            requires
                n == d * q,
                d <= q,
        ;
        d
    } else {
        assert(q * q <= n) by (nonlinear_arith)
            requires
                n == d * q,
                q <= d,
        ;
        q
    }
}

/// Trial division may stop at the square root: a number from 2 on with no
/// divisor whose square fits below it is prime.
pub proof fn lemma_prime_from_small_divisors(n: nat)
    requires
        n >= 2,
        forall|d: nat| 2 <= d && d * d <= n ==> !#[trigger] divides(d, n),
    ensures
        prime(n),
{
    assert forall|d: nat| 2 <= d < n implies !#[trigger] divides(d, n) by {
        if divides(d, n) {
            let e = lemma_small_divisor_exists(d, n);
            assert(divides(e, n));
        }
    }
}

/// A divisor whose square fits below the number is a proper divisor, so the
/// number is composite.
pub proof fn lemma_small_divisor_refutes_prime(d: nat, n: nat)
    requires
        2 <= d,
        d * d <= n,
        divides(d, n),
    ensures
        !prime(n),
        d < n,
{
    assert(d < n) by (nonlinear_arith)
        requires
            2 <= d,
            d * d <= n,
    ;
}

/// A divisor of a number divides its multiples.
pub proof fn lemma_divides_multiple(p: nat, x: nat, k: nat)
    requires
        divides(p, x),
    ensures
        divides(p, x * k),
        divides(p, k * x),
{
    lemma_divides_quotient(p, x);
    let q = (x / p) * k;
    assert(x * k == p * q && k * x == p * q) by (nonlinear_arith)
        requires
            x == p * (x / p),
            q == (x / p) * k,
    ;
    lemma_multiple_divides(p, q);
}

/// A common divisor of two numbers divides their difference.
pub proof fn lemma_divides_difference(p: nat, x: nat, y: nat)
    requires
        divides(p, x),
        divides(p, y),
        y <= x,
    ensures
        divides(p, (x - y) as nat),
{
    lemma_divides_quotient(p, x);
    lemma_divides_quotient(p, y);
    let a = x / p;
    let b = y / p;
    assert(b <= a && x - y == p * (a - b)) by (nonlinear_arith)
        requires
            x == p * a,
            y == p * b,
            y <= x,
            p > 0,
    ;
    lemma_multiple_divides(p, (a - b) as nat);
}

/// Euclid's lemma: a prime that divides a product divides one of the two
/// factors.
pub proof fn lemma_prime_divides_factor(p: nat, a: nat, b: nat)
    requires
        prime(p),
        divides(p, a * b),
    ensures
        divides(p, a) || divides(p, b),
    decreases a,
{
    if a == 0 {
        lemma_small_mod(0, p);
    } else if a == 1 {
        assert(a * b == b) by (nonlinear_arith)
            requires
                a == 1,
        ;
    } else if a >= p {
        let q = a / p;
        let r = a % p;
        lemma_fundamental_div_mod(a as int, p as int);
        assert(r * b <= a * b && a * b - r * b == p * (q * b)) by (nonlinear_arith)
            requires
                a == p * q + r,
        ;
        lemma_multiple_divides(p, q * b);
        lemma_divides_difference(p, a * b, p * (q * b));
        assert(r * b == a * b - p * (q * b));
        lemma_prime_divides_factor(p, r, b);
        if divides(p, r) {
            lemma_small_mod(r, p);
        }
    } else {
        let q = p / a;
        let r = p % a;
        lemma_fundamental_div_mod(p as int, a as int);
        assert(!divides(a, p));
        assert(r * b <= p * b && p * b - r * b == q * (a * b)) by (nonlinear_arith)
            requires
                p == a * q + r,
        ;
        lemma_multiple_divides(p, b);
        lemma_divides_multiple(p, a * b, q);
        lemma_divides_difference(p, p * b, q * (a * b));
        assert(r * b == p * b - q * (a * b));
        lemma_prime_divides_factor(p, r, b);
        lemma_larger_does_not_divide(p, r);
    }
}

/// A prime has no prime divisor but itself.
pub proof fn lemma_prime_divisor_of_prime(p: nat, q: nat)
    requires
        prime(p),
        prime(q),
        divides(p, q),
    ensures
        p == q,
{
    lemma_divides_quotient(p, q);
}

} // verus!
