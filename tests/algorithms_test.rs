use gcd::{
    consecutive_gcd, euclid_gcd, gcd, gcd_with_algorithm, middle_school_gcd, GcdAlgorithms,
};

#[test]
fn scenario_fifteen_twenty_five() {
    assert_eq!(euclid_gcd(15, 25), 5);
    assert_eq!(consecutive_gcd(15, 25), 5);
    assert_eq!(middle_school_gcd(15, 25), 5);
    assert_eq!(gcd_with_algorithm(15, 25, GcdAlgorithms::Euclid), Ok(5));
    assert_eq!(gcd(15, 25), Ok(5));
}

#[test]
fn scenario_coprime() {
    assert_eq!(gcd(17, 13), Ok(1));
    assert_eq!(euclid_gcd(17, 13), 1);
    assert_eq!(consecutive_gcd(17, 13), 1);
    assert_eq!(middle_school_gcd(17, 13), 1);
}

#[test]
fn algorithms_agree_on_small_pairs() {
    for a in 1..=60u64 {
        for b in 1..=60u64 {
            let e = euclid_gcd(a as i64, b as i64);
            assert_eq!(e, consecutive_gcd(a, b));
            assert_eq!(e, middle_school_gcd(a, b));
        }
    }
}

#[test]
fn algorithms_on_larger_values() {
    assert_eq!(euclid_gcd(1071, 462), 21);
    assert_eq!(consecutive_gcd(1071, 462), 21);
    assert_eq!(middle_school_gcd(1071, 462), 21);
    assert_eq!(middle_school_gcd(1 << 10, 3 * (1 << 6)), 64);
    assert_eq!(middle_school_gcd(360, 360), 360);
    assert_eq!(euclid_gcd(i64::MAX, i64::MAX), i64::MAX as u64);
}

#[test]
fn gcd_with_zero_is_magnitude() {
    assert_eq!(gcd(-12, 0), Ok(12));
    assert_eq!(gcd(0, -7), Ok(7));
    assert_eq!(gcd(9, 0), Ok(9));
    assert_eq!(gcd(i64::MIN, 0), Ok(1u64 << 63));
    for algo in [GcdAlgorithms::Euclid, GcdAlgorithms::Consecutive, GcdAlgorithms::Middle] {
        assert_eq!(gcd_with_algorithm(0, 5, algo), Ok(5));
    }
}

#[test]
fn gcd_of_zero_and_zero_is_undefined() {
    assert_eq!(gcd(0, 0), Err("GCD is undefined for input 0 and 0."));
    for algo in [GcdAlgorithms::Euclid, GcdAlgorithms::Consecutive, GcdAlgorithms::Middle] {
        assert_eq!(
            gcd_with_algorithm(0, 0, algo),
            Err("GCD is undefined for input 0 and 0.")
        );
    }
}

#[test]
fn gcd_commutes_and_ignores_signs() {
    for (a, b) in [(12i64, 18i64), (35, 14), (1, 99), (48, 180), (0, 6)] {
        let g = gcd(a, b);
        assert_eq!(g, gcd(b, a));
        assert_eq!(g, gcd(-a, b));
        assert_eq!(g, gcd(a, -b));
        assert_eq!(g, gcd(-a, -b));
    }
}

#[test]
fn dispatcher_runs_each_algorithm() {
    for algo in [GcdAlgorithms::Euclid, GcdAlgorithms::Consecutive, GcdAlgorithms::Middle] {
        assert_eq!(gcd_with_algorithm(-84, 36, algo), Ok(12));
    }
    assert_eq!(gcd_with_algorithm(i64::MIN, i64::MIN, GcdAlgorithms::Euclid), Ok(1u64 << 63));
}
