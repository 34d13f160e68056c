//! Exact prime-number routines over native unsigned integers: a sieve, the
//! first `n` primes, prime gaps, a primality test, prime factorization and
//! the prime-counting table.
//!
//! Every routine is verified against a mathematical model: `divisibility`
//! defines what a prime is, `sequence` the ascending sequence of primes and
//! the prime-counting function, `infinitude` the prime at a given place in
//! that sequence, `product` what a factorization is. The module `laws`
//! states what holds between the routines.

pub mod counting;
pub mod divisibility;
pub mod estimator;
pub mod factorization;
pub mod gaps;
pub mod infinitude;
pub mod laws;
pub mod primality;
pub mod product;
pub mod sequence;
pub mod sieve;

pub use counting::prime_counting;
pub use estimator::first_n_primes;
pub use factorization::prime_factorization;
pub use gaps::prime_gaps;
pub use primality::is_prime;
pub use sieve::sieve_of_eratosthenes;
