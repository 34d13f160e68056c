use rust_primes::{is_prime, sieve_of_eratosthenes};

#[test]
fn is_prime_on_named_values() {
    assert!(is_prime(97));
    assert!(!is_prime(1));
    assert!(!is_prime(98));
    assert!(is_prime(2));
}

#[test]
fn is_prime_below_two_is_false() {
    assert!(!is_prime(0));
    assert!(!is_prime(1));
}

#[test]
fn is_prime_small_values() {
    let verdicts: Vec<bool> = (0u32..=20).map(is_prime).collect();
    let expected = vec![
        false, false, true, true, false, true, false, true, false, false, false, true, false,
        true, false, false, false, true, false, true, false,
    ];
    assert_eq!(verdicts, expected);
}

#[test]
fn is_prime_rejects_squares_of_primes() {
    assert!(!is_prime(9));
    assert!(!is_prime(25));
    assert!(!is_prime(49));
    assert!(!is_prime(4_293_001_441));
}

#[test]
fn is_prime_at_the_top_of_the_range() {
    assert!(is_prime(4_294_967_291));
    assert!(!is_prime(4_294_967_295));
    assert!(!is_prime(4_294_967_293));
    assert!(!is_prime(4_294_049_777));
    assert!(is_prime(2_147_483_647));
}

#[test]
fn every_sieved_number_is_prime() {
    for p in sieve_of_eratosthenes(20_000) {
        assert!(is_prime(p));
    }
}

#[test]
fn is_prime_accepts_only_sieved_numbers() {
    let primes = sieve_of_eratosthenes(3_000);
    for n in 0u32..=3_000 {
        assert_eq!(is_prime(n), primes.contains(&n));
    }
}

#[test]
fn is_prime_twice_gives_the_same_verdict() {
    for n in [0u32, 1, 2, 91, 97, 65_537, 4_294_967_291] {
        assert_eq!(is_prime(n), is_prime(n));
    }
}
