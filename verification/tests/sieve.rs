use rust_primes::sieve_of_eratosthenes;

#[test]
fn sieve_up_to_thirty() {
    assert_eq!(sieve_of_eratosthenes(30), vec![2, 3, 5, 7, 11, 13, 17, 19, 23, 29]);
}

#[test]
fn sieve_below_two_is_empty() {
    assert_eq!(sieve_of_eratosthenes(0), Vec::<u32>::new());
    assert_eq!(sieve_of_eratosthenes(1), Vec::<u32>::new());
}

#[test]
fn sieve_includes_a_prime_bound() {
    assert_eq!(sieve_of_eratosthenes(2), vec![2]);
    assert_eq!(sieve_of_eratosthenes(3), vec![2, 3]);
    assert_eq!(sieve_of_eratosthenes(29), vec![2, 3, 5, 7, 11, 13, 17, 19, 23, 29]);
}

#[test]
fn sieve_excludes_a_composite_bound() {
    assert_eq!(sieve_of_eratosthenes(4), vec![2, 3]);
    assert_eq!(sieve_of_eratosthenes(9), vec![2, 3, 5, 7]);
    assert_eq!(sieve_of_eratosthenes(25), vec![2, 3, 5, 7, 11, 13, 17, 19, 23]);
}

#[test]
fn sieve_strikes_squares_of_primes() {
    let primes = sieve_of_eratosthenes(130);
    for square in [4u32, 9, 25, 49, 121] {
        assert!(!primes.contains(&square));
    }
    assert!(primes.contains(&127));
}

#[test]
fn sieve_counts_of_round_bounds() {
    assert_eq!(sieve_of_eratosthenes(100).len(), 25);
    assert_eq!(sieve_of_eratosthenes(1_000).len(), 168);
    assert_eq!(sieve_of_eratosthenes(10_000).len(), 1_229);
    assert_eq!(sieve_of_eratosthenes(1_000_000).len(), 78_498);
}

#[test]
fn sieve_is_strictly_ascending() {
    let primes = sieve_of_eratosthenes(5_000);
    for pair in primes.windows(2) {
        assert!(pair[0] < pair[1]);
    }
    assert_eq!(primes.last(), Some(&4_999));
}

#[test]
fn sieve_agrees_with_naive_trial_division() {
    let primes = sieve_of_eratosthenes(2_000);
    let mut expected = Vec::new();
    for n in 2u32..=2_000 {
        if (2..n).all(|d| n % d != 0) {
            expected.push(n);
        }
    }
    assert_eq!(primes, expected);
}

#[test]
fn sieve_twice_gives_the_same_primes() {
    assert_eq!(sieve_of_eratosthenes(12_345), sieve_of_eratosthenes(12_345));
}
