use rust_primes::{prime_counting, sieve_of_eratosthenes};

#[test]
fn counting_up_to_ten() {
    assert_eq!(prime_counting(10), vec![0, 0, 1, 2, 2, 3, 3, 4, 4, 4, 4]);
}

#[test]
fn counting_below_two() {
    assert_eq!(prime_counting(0), vec![0]);
    assert_eq!(prime_counting(1), vec![0, 0]);
    assert_eq!(prime_counting(2), vec![0, 0, 1]);
}

#[test]
fn counting_has_one_entry_per_number() {
    for limit in [0usize, 1, 2, 17, 100, 1_000] {
        assert_eq!(prime_counting(limit).len(), limit + 1);
    }
}

#[test]
fn counting_known_values() {
    let counts = prime_counting(100_000);
    assert_eq!(counts[100], 25);
    assert_eq!(counts[1_000], 168);
    assert_eq!(counts[10_000], 1_229);
    assert_eq!(counts[100_000], 9_592);
}

#[test]
fn counting_steps_by_one_exactly_at_primes() {
    let limit = 3_000;
    let counts = prime_counting(limit);
    let primes = sieve_of_eratosthenes(limit);
    assert_eq!(counts[0], 0);
    for i in 1..=limit {
        let step = counts[i] - counts[i - 1];
        if primes.contains(&(i as u32)) {
            assert_eq!(step, 1);
        } else {
            assert_eq!(step, 0);
        }
    }
}

#[test]
fn last_count_is_the_number_of_sieved_primes() {
    for limit in 0usize..=300 {
        let counts = prime_counting(limit);
        assert_eq!(counts[limit] as usize, sieve_of_eratosthenes(limit).len());
    }
}

#[test]
fn counting_twice_gives_the_same_table() {
    assert_eq!(prime_counting(777), prime_counting(777));
}
