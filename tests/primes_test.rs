use gcd::{occurrences, prime_factors, prime_sieve};

#[test]
fn sieve_up_to_twenty_five() {
    assert_eq!(prime_sieve(25), vec![2, 3, 5, 7, 11, 13, 17, 19, 23]);
}

#[test]
fn sieve_of_zero_and_one_is_empty() {
    assert!(prime_sieve(0).is_empty());
    assert!(prime_sieve(1).is_empty());
}

#[test]
fn sieve_edges() {
    assert_eq!(prime_sieve(2), vec![2]);
    assert_eq!(prime_sieve(4), vec![2, 3]);
    assert_eq!(prime_sieve(49).last(), Some(&47));
    assert_eq!(prime_sieve(1000).len(), 168);
}

#[test]
fn sieve_is_increasing_and_prime() {
    let primes = prime_sieve(500);
    for w in primes.windows(2) {
        assert!(w[0] < w[1]);
    }
    for n in 2..=500u64 {
        let is_prime = (2..n).all(|d| n % d != 0);
        assert_eq!(primes.contains(&n), is_prime);
    }
}

#[test]
fn occurrences_of_sixty() {
    assert_eq!(occurrences(60, 2), 2);
    assert_eq!(occurrences(60, 5), 1);
    assert_eq!(occurrences(60, 3), 1);
    assert_eq!(occurrences(1024, 2), 10);
    assert_eq!(occurrences(7, 7), 1);
}

#[test]
fn factors_of_sixty() {
    let factors = prime_factors(60);
    assert_eq!(factors, vec![(2, 2), (3, 1), (5, 1)]);
    assert_eq!(2u64.pow(2) * 3u64.pow(1) * 5u64.pow(1), 60);
}

#[test]
fn factors_edges() {
    assert!(prime_factors(0).is_empty());
    assert!(prime_factors(1).is_empty());
    assert_eq!(prime_factors(2), vec![(2, 1)]);
    assert_eq!(prime_factors(97), vec![(97, 1)]);
    assert_eq!(prime_factors(1024), vec![(2, 10)]);
}

#[test]
fn factors_multiply_back() {
    for n in 2..=2000u64 {
        let product = prime_factors(n)
            .iter()
            .fold(1u64, |acc, &(p, e)| acc * p.pow(e as u32));
        assert_eq!(product, n);
    }
}
