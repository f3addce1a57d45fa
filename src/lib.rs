//! Greatest common divisors computed three ways: Euclid's method, consecutive
//! integer checking and the middle school procedure, which intersects prime
//! factorizations found with the sieve of Eratosthenes.
pub mod algorithms;
pub mod arith;
pub mod primes;

pub use algorithms::{
    consecutive_gcd, euclid_gcd, gcd, gcd_with_algorithm, middle_school_gcd, GcdAlgorithms,
};
pub use primes::{occurrences, prime_factors, prime_sieve};
