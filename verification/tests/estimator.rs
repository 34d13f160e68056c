use rust_primes::estimator::{
    binary_digits, first_n_primes_from_bound, initial_bound, SMALL_BOUND,
};
use rust_primes::sieve::LARGEST_BOUND;
use rust_primes::{first_n_primes, sieve_of_eratosthenes};

#[test]
fn first_five_primes() {
    assert_eq!(first_n_primes(5), vec![2, 3, 5, 7, 11]);
}

#[test]
fn first_zero_primes() {
    assert_eq!(first_n_primes(0), Vec::<u32>::new());
}

#[test]
fn first_primes_around_the_small_bound() {
    assert_eq!(first_n_primes(1), vec![2]);
    assert_eq!(first_n_primes(6), vec![2, 3, 5, 7, 11, 13]);
    assert_eq!(first_n_primes(7), vec![2, 3, 5, 7, 11, 13, 17]);
}

#[test]
fn first_primes_have_the_length_asked_for() {
    for n in 0usize..=400 {
        assert_eq!(first_n_primes(n).len(), n);
    }
}

#[test]
fn first_primes_known_values() {
    assert_eq!(first_n_primes(100).last(), Some(&541));
    assert_eq!(first_n_primes(1_000).last(), Some(&7_919));
    assert_eq!(first_n_primes(10_000).last(), Some(&104_729));
}

#[test]
fn first_primes_are_a_prefix_of_the_sieve() {
    let sieved = sieve_of_eratosthenes(10_000);
    for n in [1usize, 2, 10, 168, 500, 1_229] {
        assert_eq!(first_n_primes(n), sieved[..n].to_vec());
    }
}

#[test]
fn a_short_bound_is_doubled_until_enough_primes_come_back() {
    let expected = vec![2, 3, 5, 7, 11, 13, 17, 19, 23, 29];
    assert_eq!(first_n_primes_from_bound(10, 3), expected);
    assert_eq!(first_n_primes_from_bound(10, 0), expected);
    assert_eq!(first_n_primes_from_bound(10, 1), expected);
    assert_eq!(first_n_primes_from_bound(10, 29), expected);
    assert_eq!(first_n_primes_from_bound(10, 28), expected);
}

#[test]
fn the_result_does_not_depend_on_the_bound() {
    for bound in [0usize, 2, 15, 100, 7_919, 50_000] {
        assert_eq!(first_n_primes_from_bound(1_000, bound), first_n_primes(1_000));
    }
    assert_eq!(first_n_primes_from_bound(0, 1_000), Vec::<u32>::new());
}

#[test]
fn initial_bound_for_fewer_than_six_primes() {
    assert_eq!(SMALL_BOUND, 15);
    for n in 0usize..6 {
        assert_eq!(initial_bound(n), 15);
    }
}

#[test]
fn initial_bound_from_six_on() {
    assert_eq!(initial_bound(6), 6 * (3 + 2));
    assert_eq!(initial_bound(7), 7 * (3 + 2));
    assert_eq!(initial_bound(8), 8 * (4 + 3));
    assert_eq!(initial_bound(1_000), 1_000 * (10 + 4));
    assert_eq!(initial_bound(65_536), 65_536 * (17 + 5));
}

#[test]
fn initial_bound_is_cut_at_the_largest_bound() {
    assert_eq!(LARGEST_BOUND, 4_294_967_294);
    assert_eq!(initial_bound(200_000_000), LARGEST_BOUND);
    assert_eq!(initial_bound(usize::MAX), LARGEST_BOUND);
}

#[test]
fn initial_bound_holds_enough_primes() {
    for n in [1usize, 5, 6, 7, 10, 100, 1_000, 5_000] {
        assert!(sieve_of_eratosthenes(initial_bound(n)).len() >= n);
    }
}

#[test]
fn binary_digits_of_small_numbers() {
    assert_eq!(binary_digits(0), 0);
    assert_eq!(binary_digits(1), 1);
    assert_eq!(binary_digits(2), 2);
    assert_eq!(binary_digits(3), 2);
    assert_eq!(binary_digits(255), 8);
    assert_eq!(binary_digits(256), 9);
    assert_eq!(binary_digits(usize::MAX), usize::BITS as usize);
}

#[test]
fn first_primes_twice_gives_the_same_primes() {
    assert_eq!(first_n_primes(321), first_n_primes(321));
}
