use rust_primes::{prime_gaps, sieve_of_eratosthenes};

#[test]
fn gaps_of_the_first_six_primes() {
    assert_eq!(prime_gaps(&[2, 3, 5, 7, 11, 13]), vec![1, 2, 2, 4, 2]);
}

#[test]
fn gaps_of_fewer_than_two_elements_are_empty() {
    assert_eq!(prime_gaps(&[2]), Vec::<u32>::new());
    assert_eq!(prime_gaps(&[]), Vec::<u32>::new());
}

#[test]
fn gaps_of_a_pair() {
    assert_eq!(prime_gaps(&[2, 3]), vec![1]);
    assert_eq!(prime_gaps(&[89, 97]), vec![8]);
}

#[test]
fn gaps_of_equal_neighbours_are_zero() {
    assert_eq!(prime_gaps(&[5, 5, 7]), vec![0, 2]);
}

#[test]
fn gaps_at_the_top_of_the_range() {
    assert_eq!(prime_gaps(&[0, 4_294_967_295]), vec![4_294_967_295]);
    assert_eq!(prime_gaps(&[4_294_967_279, 4_294_967_291]), vec![12]);
}

#[test]
fn gaps_of_sieved_primes() {
    let primes = sieve_of_eratosthenes(10_000);
    let gaps = prime_gaps(&primes);
    assert_eq!(gaps.len(), primes.len() - 1);
    assert_eq!(gaps[0], 1);
    for (i, &gap) in gaps.iter().enumerate() {
        assert_eq!(gap, primes[i + 1] - primes[i]);
        if i > 0 {
            assert!(gap >= 2);
            assert_eq!(gap % 2, 0);
        }
    }
    let total: u32 = gaps.iter().sum();
    assert_eq!(total, primes[primes.len() - 1] - primes[0]);
}

#[test]
fn gaps_leave_the_input_as_it_was() {
    let primes = vec![2u32, 3, 5, 7];
    let gaps = prime_gaps(&primes);
    assert_eq!(gaps, vec![1, 2, 2]);
    assert_eq!(primes, vec![2, 3, 5, 7]);
}

#[test]
fn gaps_twice_gives_the_same_gaps() {
    let primes = sieve_of_eratosthenes(500);
    assert_eq!(prime_gaps(&primes), prime_gaps(&primes));
}
