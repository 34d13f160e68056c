use rust_primes::{is_prime, prime_factorization};

#[test]
fn factorization_of_360() {
    let factors = prime_factorization(360);
    assert_eq!(factors, vec![2, 2, 2, 3, 3, 5]);
    assert_eq!(factors.iter().product::<u32>(), 360);
}

#[test]
fn factorization_of_a_prime() {
    assert_eq!(prime_factorization(17), vec![17]);
    assert_eq!(prime_factorization(2), vec![2]);
    assert_eq!(prime_factorization(3), vec![3]);
}

#[test]
fn factorization_below_two_is_empty() {
    assert_eq!(prime_factorization(1), Vec::<u32>::new());
    assert_eq!(prime_factorization(0), Vec::<u32>::new());
}

#[test]
fn factorization_of_powers_of_two() {
    assert_eq!(prime_factorization(8), vec![2, 2, 2]);
    assert_eq!(prime_factorization(2_147_483_648), vec![2; 31]);
}

#[test]
fn factorization_with_a_large_last_factor() {
    assert_eq!(prime_factorization(2 * 65_537), vec![2, 65_537]);
    assert_eq!(prime_factorization(3 * 1_000_003), vec![3, 1_000_003]);
}

#[test]
fn factorization_of_a_square_of_a_prime() {
    assert_eq!(prime_factorization(49), vec![7, 7]);
    assert_eq!(prime_factorization(4_293_001_441), vec![65_521, 65_521]);
}

#[test]
fn factorization_at_the_top_of_the_range() {
    assert_eq!(prime_factorization(4_294_967_295), vec![3, 5, 17, 257, 65_537]);
    assert_eq!(prime_factorization(4_294_967_291), vec![4_294_967_291]);
    assert_eq!(prime_factorization(4_294_967_294), vec![2, 2_147_483_647]);
}

#[test]
fn factors_multiply_back_and_are_prime() {
    for n in 2u32..=5_000 {
        let factors = prime_factorization(n);
        let product: u64 = factors.iter().map(|&f| f as u64).product();
        assert_eq!(product, n as u64);
        for &f in &factors {
            assert!(is_prime(f));
        }
        for pair in factors.windows(2) {
            assert!(pair[0] <= pair[1]);
        }
    }
}

#[test]
fn factorization_twice_gives_the_same_factors() {
    for n in [0u32, 1, 360, 97, 1_000_000, 4_294_967_295] {
        assert_eq!(prime_factorization(n), prime_factorization(n));
    }
}
