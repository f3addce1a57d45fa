//! Divisibility, primality and the greatest common divisor as mathematical
//! objects, with the lemmas the algorithms are proved from.
use vstd::arithmetic::div_mod::{lemma_fundamental_div_mod, lemma_fundamental_div_mod_converse};
use vstd::prelude::*;

verus! {

/// `d` divides `n`.
pub open spec fn divides(d: int, n: int) -> bool {
    d != 0 && n % d == 0
}

/// `g` is the greatest common divisor of `a` and `b`: a positive common
/// divisor that every positive common divisor is at most.
pub open spec fn is_gcd(g: int, a: int, b: int) -> bool {
    &&& g > 0
    &&& divides(g, a)
    &&& divides(g, b)
    &&& forall|d: int| d > 0 && #[trigger] divides(d, a) && #[trigger] divides(d, b) ==> d <= g
}

/// `p` is a prime number.
pub open spec fn is_prime(p: int) -> bool {
    p >= 2 && forall|d: int| 2 <= d < p ==> #[trigger] (p % d) != 0
}

/// `base` raised to the power `e`.
pub open spec fn power(base: int, e: nat) -> int
    decreases e,
{
    if e == 0 {
        1
    } else {
        base * power(base, (e - 1) as nat)
    }
}

/// Greatest common divisor of two natural numbers, defined by Euclid's recursion.
pub open spec fn gcd_spec(a: int, b: int) -> int
    decreases b,
{
    if b <= 0 {
        a
    } else {
        gcd_spec(b, a % b)
    }
}

/// A combination of two multiples of `d` is a multiple of `d`.
pub proof fn lemma_divides_combination(d: int, x: int, y: int, q: int)
    requires
        d > 0,
        x % d == 0,
        y % d == 0,
    ensures
        (x + q * y) % d == 0,
{
    lemma_fundamental_div_mod(x, d);
    lemma_fundamental_div_mod(y, d);
    let i = x / d;
    let j = y / d;
    assert(x + q * y == (i + q * j) * d) by (nonlinear_arith)
        requires
            x == d * i,
            y == d * j,
    ;
    lemma_fundamental_div_mod_converse(x + q * y, d, i + q * j, 0);
}

/// A multiple of a multiple of `d` is a multiple of `d`.
pub proof fn lemma_divides_multiple(d: int, x: int, k: int)
    requires
        d > 0,
        x % d == 0,
    ensures
        (k * x) % d == 0,
        (x * k) % d == 0,
{
    lemma_divides_combination(d, 0, x, k);
    assert(x * k == k * x) by (nonlinear_arith);
}

/// Divisibility is transitive.
pub proof fn lemma_divides_trans(a: int, b: int, c: int)
    requires
        a > 0,
        b > 0,
        b % a == 0,
        c % b == 0,
    ensures
        c % a == 0,
{
    lemma_fundamental_div_mod(c, b);
    lemma_divides_multiple(a, b, c / b);
}

/// A positive multiple of `d` is at least `d`.
pub proof fn lemma_divisor_le(d: int, n: int)
    requires
        d > 0,
        n > 0,
        n % d == 0,
    ensures
        d <= n,
{
    lemma_fundamental_div_mod(n, d);
    let k = n / d;
    assert(d <= n) by (nonlinear_arith)
        requires
            d > 0,
            n > 0,
            n == d * k,
    ;
}

/// `gcd_spec(a, b)` is a positive common divisor of `a` and `b`.
pub proof fn lemma_gcd_spec_divides(a: int, b: int)
    requires
        a >= 0,
        b >= 0,
        a > 0 || b > 0,
    ensures
        gcd_spec(a, b) > 0,
        a % gcd_spec(a, b) == 0,
        b % gcd_spec(a, b) == 0,
    decreases b,
{
    if b > 0 {
        lemma_gcd_spec_divides(b, a % b);
        let g = gcd_spec(a, b);
        lemma_fundamental_div_mod(a, b);
        lemma_divides_combination(g, a % b, b, a / b);
        assert(a % b + (a / b) * b == a) by (nonlinear_arith)
            requires
                a == b * (a / b) + (a % b),
        ;
    } else {
        assert(0int % a == 0);
    }
}

/// Every common divisor of `a` and `b` divides `gcd_spec(a, b)`.
pub proof fn lemma_gcd_spec_greatest(a: int, b: int, d: int)
    requires
        d > 0,
        a % d == 0,
        b % d == 0,
    ensures
        gcd_spec(a, b) % d == 0,
    decreases b,
{
    if b > 0 {
        lemma_fundamental_div_mod(a, b);
        lemma_divides_combination(d, a, b, -(a / b));
        assert((a % b) == a + -(a / b) * b) by (nonlinear_arith)
            requires
                a == b * (a / b) + (a % b),
        ;
        lemma_gcd_spec_greatest(b, a % b, d);
    }
}

/// `gcd_spec` gives the greatest common divisor.
pub proof fn lemma_gcd_spec_is_gcd(a: int, b: int)
    requires
        a >= 0,
        b >= 0,
        a > 0 || b > 0,
    ensures
        is_gcd(gcd_spec(a, b), a, b),
{
    let g = gcd_spec(a, b);
    lemma_gcd_spec_divides(a, b);
    assert forall|d: int| d > 0 && #[trigger] divides(d, a) && #[trigger] divides(
        d,
        b,
    ) implies d <= g by {
        lemma_gcd_spec_greatest(a, b, d);
        lemma_divisor_le(d, g);
    }
}

/// There is at most one greatest common divisor.
pub proof fn lemma_gcd_unique(g: int, h: int, a: int, b: int)
    requires
        is_gcd(g, a, b),
        is_gcd(h, a, b),
    ensures
        g == h,
{
}

/// The greatest common divisor does not depend on the order of the arguments.
pub proof fn lemma_is_gcd_commutes(g: int, a: int, b: int)
    requires
        is_gcd(g, a, b),
    ensures
        is_gcd(g, b, a),
{
}

/// Euclid's recursion is symmetric in its arguments.
pub proof fn lemma_gcd_spec_commutes(a: int, b: int)
    requires
        a >= 0,
        b >= 0,
    ensures
        gcd_spec(a, b) == gcd_spec(b, a),
{
    if a > 0 || b > 0 {
        lemma_gcd_spec_is_gcd(a, b);
        lemma_gcd_spec_is_gcd(b, a);
        lemma_is_gcd_commutes(gcd_spec(a, b), a, b);
        lemma_gcd_unique(gcd_spec(a, b), gcd_spec(b, a), b, a);
    } else {
        assert(gcd_spec(a, b) == 0);
        assert(gcd_spec(b, a) == 0);
    }
}

/// Two positive numbers that divide each other are equal.
pub proof fn lemma_divides_antisym(a: int, b: int)
    requires
        a > 0,
        b > 0,
        a % b == 0,
        b % a == 0,
    ensures
        a == b,
{
    lemma_divisor_le(a, b);
    lemma_divisor_le(b, a);
}

/// Scaling both arguments scales the greatest common divisor.
pub proof fn lemma_gcd_spec_scale(k: int, a: int, b: int)
    requires
        a >= 0,
        b >= 0,
        k > 0,
    ensures
        gcd_spec(k * a, k * b) == k * gcd_spec(a, b),
    decreases b,
{
    if b == 0 {
        assert(k * b == 0);
    } else {
        let q = a / b;
        let r = (a % b);
        lemma_fundamental_div_mod(a, b);
        assert(k * a == q * (k * b) + k * r && 0 <= k * r < k * b) by (nonlinear_arith)
            requires
                a == b * q + r,
                0 <= r < b,
                k > 0,
        ;
        lemma_fundamental_div_mod_converse((k * a), (k * b), q, k * r);
        assert(k * b > 0) by (nonlinear_arith)
            requires
                k > 0,
                b > 0,
        ;
        assert((k * a) % (k * b) == k * (a % b));
        lemma_gcd_spec_scale(k, b, a % b);
    }
}

/// What divides `p * y` and has no factor in common with `p` divides `y`.
pub proof fn lemma_coprime_divides(c: int, p: int, y: int)
    requires
        p >= 0,
        y >= 0,
        c > 0,
        (p * y) % c == 0,
        gcd_spec(c, p) == 1,
    ensures
        y % c == 0,
{
    if y > 0 {
        lemma_divides_multiple(c, c, y);
        lemma_gcd_spec_greatest((c * y), (p * y), c);
        lemma_gcd_spec_scale(y, c, p);
        assert(y * (c) == c * y && y * p == p * y) by (nonlinear_arith);
        assert(gcd_spec((c * y), (p * y)) == y);
    }
}

/// A number that a prime does not divide has no factor in common with it.
pub proof fn lemma_prime_coprime(p: int, c: int)
    requires
        is_prime(p),
        c > 0,
        c % p != 0,
    ensures
        gcd_spec(c, p) == 1,
{
    let g = gcd_spec(c, p);
    lemma_gcd_spec_divides(c, p);
    lemma_divisor_le(g, p);
    if g == p {
    } else if g >= 2 {
        assert(p % g != 0);
    }
}

/// Euclid's lemma: a prime that divides a product divides one of its factors.
pub proof fn lemma_prime_divides_product(p: int, x: int, y: int)
    requires
        x >= 0,
        y >= 0,
        is_prime(p),
        (x * y) % p == 0,
        x % p != 0,
    ensures
        y % p == 0,
{
    lemma_prime_coprime(p, x);
    lemma_gcd_spec_commutes(x, p);
    lemma_coprime_divides(p, x, y);
}

/// A prime that does not divide `b` does not change the greatest common
/// divisor when it is multiplied into the other argument.
pub proof fn lemma_gcd_spec_drop_prime(p: int, y: int, b: int)
    requires
        y >= 0,
        is_prime(p),
        b > 0,
        b % p != 0,
    ensures
        gcd_spec((p * y), b) == gcd_spec(y, b),
{
    let py = p * y;
    let g = gcd_spec(py, b);
    let h = gcd_spec(y, b);
    lemma_gcd_spec_divides(py, b);
    lemma_gcd_spec_divides(y, b);
    lemma_divides_multiple(h, y, p);
    lemma_gcd_spec_greatest(py, b, h);
    if g % p == 0 {
        lemma_divides_trans(p, g, b);
    }
    lemma_prime_coprime(p, g);
    lemma_coprime_divides(g, p, y);
    lemma_gcd_spec_greatest(y, b, g);
    lemma_divides_antisym(g, h);
}

/// A power of a positive base is positive.
pub proof fn lemma_power_positive(base: int, e: nat)
    requires
        base > 0,
    ensures
        power(base, e) > 0,
    decreases e,
{
    if e > 0 {
        lemma_power_positive(base, (e - 1) as nat);
        assert(base * power(base, (e - 1) as nat) > 0) by (nonlinear_arith)
            requires
                base > 0,
                power(base, (e - 1) as nat) > 0,
        ;
    }
}

/// Exponents add when powers of one base are multiplied.
pub proof fn lemma_power_add(base: int, x: nat, y: nat)
    ensures
        power(base, x + y) == power(base, x) * power(base, y),
    decreases x,
{
    if x > 0 {
        lemma_power_add(base, (x - 1) as nat, y);
        assert((x + y - 1) as nat == ((x - 1) as nat + y) as nat);
        let u = power(base, (x - 1) as nat);
        let v = power(base, y);
        assert(base * (u * v) == (base * u) * v) by (nonlinear_arith);
    }
}

/// A prime that does not divide `b` does not change the greatest common
/// divisor when any power of it is multiplied into the other argument.
pub proof fn lemma_gcd_spec_drop_prime_power(p: int, e: nat, y: int, b: int)
    requires
        is_prime(p),
        y >= 0,
        b > 0,
        b % p != 0,
    ensures
        gcd_spec(power(p, e) * y, b) == gcd_spec(y, b),
    decreases e,
{
    if e > 0 {
        let rest = power(p, (e - 1) as nat) * y;
        lemma_power_positive(p, (e - 1) as nat);
        assert(rest >= 0) by (nonlinear_arith)
            requires
                power(p, (e - 1) as nat) > 0,
                y >= 0,
                rest == power(p, (e - 1) as nat) * y,
        ;
        assert(power(p, e) * y == p * rest) by (nonlinear_arith)
            requires
                power(p, e) == p * power(p, (e - 1) as nat),
                rest == power(p, (e - 1) as nat) * y,
        ;
        lemma_gcd_spec_drop_prime(p, rest, b);
        lemma_gcd_spec_drop_prime_power(p, (e - 1) as nat, y, b);
    } else {
        assert(power(p, e) * y == y);
    }
}

/// The greatest common divisor of two numbers that a prime `p` divides
/// exactly `x` and `y` times takes the smaller power of `p`.
pub proof fn lemma_gcd_spec_prime_power_min(p: int, x: nat, y: nat, a: int, b: int)
    requires
        is_prime(p),
        a > 0,
        b > 0,
        a % p != 0,
        b % p != 0,
    ensures
        gcd_spec(power(p, x) * a, power(p, y) * b) == power(p, if x <= y { x } else { y }) * gcd_spec(a, b),
    decreases (if x <= y { 0int } else { 1int }),
{
    if x <= y {
        let k = power(p, x);
        let rest = power(p, (y - x) as nat) * b;
        lemma_power_positive(p, x);
        lemma_power_positive(p, (y - x) as nat);
        lemma_power_add(p, x, (y - x) as nat);
        assert(y == x + (y - x) as nat);
        assert(power(p, y) * b == k * rest && rest > 0) by (nonlinear_arith)
            requires
                power(p, y) == k * power(p, (y - x) as nat),
                rest == power(p, (y - x) as nat) * b,
                power(p, (y - x) as nat) > 0,
                b > 0,
        ;
        lemma_gcd_spec_scale(k, a, rest);
        lemma_gcd_spec_commutes(a, rest);
        lemma_gcd_spec_drop_prime_power(p, (y - x) as nat, b, a);
        lemma_gcd_spec_commutes(b, a);
    } else {
        lemma_gcd_spec_prime_power_min(p, y, x, b, a);
        lemma_power_positive(p, x);
        lemma_power_positive(p, y);
        assert(power(p, x) * a > 0 && power(p, y) * b > 0) by (nonlinear_arith)
            requires
                power(p, x) > 0,
                power(p, y) > 0,
                a > 0,
                b > 0,
        ;
        lemma_gcd_spec_commutes(power(p, x) * a, power(p, y) * b);
        lemma_gcd_spec_commutes(a, b);
    }
}

} // verus!
