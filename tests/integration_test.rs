use gcd::gcd;
use rand::Rng;

#[test]
fn gcd_zero_a() {
    assert_eq!(Ok(num_integer::gcd(0, 10)), gcd(0, 10));
}

#[test]
fn gcd_zero_b() {
    assert_eq!(Ok(num_integer::gcd(10, 0)), gcd(10, 0));
}

#[test]
fn gcd_one_to_hundred() {
    for a in 0..=100 {
        for b in 0..=100 {
            if a == 0 && b == 0 {
                assert_eq!(Err("GCD is undefined for input 0 and 0."), gcd(a, b));
                continue;
            }

            assert_eq!(Ok(num_integer::gcd(a, b) as u64), gcd(a, b));
        }
    }
}

#[test]
fn gcd_neg_one_to_hundred() {
    for a in -100..=0 {
        for b in -100..=0 {
            if a == 0 && b == 0 {
                assert_eq!(Err("GCD is undefined for input 0 and 0."), gcd(a, b));
                continue;
            }

            assert_eq!(Ok(num_integer::gcd(a, b) as u64), gcd(a, b));
        }
    }
}

#[test]
fn gcd_random() {
    let mut rng = rand::thread_rng();

    for _ in 0..100 {
        let a: i64 = rng.gen_range(-100000..100000);
        let b: i64 = rng.gen_range(-100000..100000);

        assert_eq!(Ok(num_integer::gcd(a, b) as u64), gcd(a, b));
    }
}
