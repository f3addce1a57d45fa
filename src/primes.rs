//! Primes up to a bound, multiplicities and prime factorizations.
use crate::arith::{
    gcd_spec, is_prime, lemma_coprime_divides, lemma_divides_multiple, lemma_divides_trans,
    lemma_divisor_le, lemma_gcd_spec_divides, lemma_gcd_spec_drop_prime_power,
    lemma_power_positive, lemma_prime_divides_product, power,
};
use vstd::arithmetic::div_mod::lemma_fundamental_div_mod;
use vstd::prelude::*;

verus! {

/// A composite number has a divisor other than 1 no larger than its square root.
proof fn lemma_small_divisor(k: int, d: int) -> (s: int)
    requires
        2 <= d < k,
        k % d == 0,
    ensures
        2 <= s,
        s * s <= k,
        k % s == 0,
{
    if d * d <= k {
        d
    } else {
        lemma_fundamental_div_mod(k, d);
        let e = k / d;
        assert(2 <= e && e * e <= k && k == e * d) by (nonlinear_arith)
            requires
                2 <= d < k,
                k == d * e,
                d * d > k,
        ;
        vstd::arithmetic::div_mod::lemma_mod_multiples_basic(e, d);
        lemma_fundamental_div_mod(k, e);
        vstd::arithmetic::div_mod::lemma_fundamental_div_mod_converse(k, e, d, 0);
        e
    }
}

/// `p * p <= n` exactly when `p <= n / p`.
proof fn lemma_square_le(p: int, n: int)
    requires
        p > 0,
        n >= 0,
    ensures
        (p * p <= n) == (p <= n / p),
{
    lemma_fundamental_div_mod(n, p);
    let q = n / p;
    assert((p * p <= n) == (p <= q)) by (nonlinear_arith)
        requires
            p > 0,
            n == p * q + n % p,
            0 <= n % p < p,
    ;
}

/// The primes up to `n`, in increasing order, found with the sieve of
/// Eratosthenes. The vector of marks it builds has `n + 1` entries.
pub fn prime_sieve(n: u64) -> (r: Vec<u64>)
    requires
        n < usize::MAX,
    ensures
        forall|i: int| 0 <= i < r.len() ==> is_prime(#[trigger] r[i] as int) && r[i] <= n,
        forall|i: int, j: int| 0 <= i < j < r.len() ==> r[i] < r[j],
        forall|q: int| 2 <= q <= n && #[trigger] is_prime(q) ==> r@.contains(q as u64),
        n <= 1 ==> r.len() == 0,
{
    let mut marks: Vec<u64> = Vec::new();
    let mut k: u64 = 0;
    while k <= n
        invariant
            k <= n + 1,
            n < usize::MAX,
            marks.len() == k,
            forall|j: int| 0 <= j < k ==> #[trigger] marks[j] == (if j < 2 { 0 } else { j }),
        decreases n + 1 - k,
    {
        if k < 2 {
            marks.push(0);
        } else {
            marks.push(k);
        }
        k = k + 1;
    }
    let mut p: u64 = 2;
    proof {
        lemma_square_le(2, n as int);
    }
    while p <= n / p
        invariant
            2 <= p,
            n < usize::MAX,
            marks.len() == n + 1,
            forall|j: int|
                0 <= j <= n && #[trigger] marks[j] != 0 ==> marks[j] == j && j >= 2 && forall|
                    d: int,
                | 2 <= d < p && d * d <= j ==> #[trigger] (j % d) != 0,
            forall|j: int| 2 <= j <= n && #[trigger] marks[j] == 0 ==> !is_prime(j),
        decreases n + 1 - p,
    {
        proof {
            lemma_square_le(p as int, n as int);
        }
        assert(p <= n) by (nonlinear_arith)
            requires
                2 <= p,
                p * p <= n,
        ;
        if marks[p as usize] != 0 {
            let mut step: u64 = p * p;
            proof {
                vstd::arithmetic::div_mod::lemma_mod_multiples_basic(p as int, p as int);
            }
            loop
                invariant
                    2 <= p,
                    p * p <= step <= n,
                    step % p == 0,
                    n < usize::MAX,
                    marks.len() == n + 1,
                    marks[p as int] != 0,
                    forall|j: int|
                        0 <= j <= n && #[trigger] marks[j] != 0 ==> marks[j] == j && j >= 2
                            && forall|d: int| 2 <= d < p && d * d <= j ==> #[trigger] (j % d) != 0,
                    forall|j: int| 2 <= j <= n && #[trigger] marks[j] == 0 ==> !is_prime(j),
                    forall|j: int| p * p <= j < step && j % (p as int) == 0 ==> #[trigger] marks[j] == 0,
                ensures
                    forall|j: int| p * p <= j <= n && j % (p as int) == 0 ==> #[trigger] marks[j] == 0,
                    forall|j: int|
                        0 <= j <= n && #[trigger] marks[j] != 0 ==> marks[j] == j && j >= 2
                            && forall|d: int| 2 <= d < p && d * d <= j ==> #[trigger] (j % d) != 0,
                    forall|j: int| 2 <= j <= n && #[trigger] marks[j] == 0 ==> !is_prime(j),
                decreases n - step,
            {
                assert(p < step as int) by (nonlinear_arith)
                    requires
                        2 <= p,
                        p * p <= step,
                ;
                assert(!is_prime(step as int));
                marks.set(step as usize, 0);
                if n - step < p {
                    proof {
                        assert forall|j: int| p * p <= j <= n && j % (p as int) == 0 implies #[trigger] marks[j]
                            == 0 by {
                            if j > step {
                                assert(j >= step + p) by {
                                    lemma_fundamental_div_mod(j, p as int);
                                    lemma_fundamental_div_mod(step as int, p as int);
                                    let a = j / p as int;
                                    let b = step as int / p as int;
                                    assert(j >= step + p) by (nonlinear_arith)
                                        requires
                                            j == p * a,
                                            step == p * b,
                                            j > step,
                                            p > 0,
                                    ;
                                }
                            }
                        }
                    }
                    break ;
                }
                proof {
                    vstd::arithmetic::div_mod::lemma_mod_add_multiples_vanish(
                        step as int,
                        p as int,
                    );
                    assert forall|j: int| p * p <= j < step + p && j % (p as int) == 0 implies #[trigger] marks[j]
                        == 0 by {
                        if step < j {
                            lemma_fundamental_div_mod(j, p as int);
                            lemma_fundamental_div_mod(step as int, p as int);
                            let a = j / p as int;
                            let b = step as int / p as int;
                            assert(j >= step + p) by (nonlinear_arith)
                                requires
                                    j == p * a,
                                    step == p * b,
                                    j > step,
                                    p > 0,
                            ;
                        }
                    }
                }
                step = step + p;
            }
        }
        proof {
            let pi = p as int;
            assert forall|j: int|
                0 <= j <= n && #[trigger] marks[j] != 0 implies marks[j] == j && j >= 2 && forall|
                    d: int,
                | 2 <= d < pi + 1 && d * d <= j ==> #[trigger] (j % d) != 0 by {
                assert forall|d: int| 2 <= d < pi + 1 && d * d <= j implies #[trigger] (j % d)
                    != 0 by {
                    if d == pi && j % pi == 0 {
                        if marks[pi] == 0 {
                            assert(!is_prime(pi));
                            let e = choose|e: int| 2 <= e < pi && #[trigger] (pi % e) == 0;
                            lemma_divides_trans(e, pi, j);
                            assert(e * e <= j) by (nonlinear_arith)
                                requires
                                    2 <= e < pi,
                                    pi * pi <= j,
                            ;
                        }
                    }
                }
            }
        }
        p = p + 1;
        proof {
            lemma_square_le(p as int, n as int);
        }
    }
    proof {
        lemma_square_le(p as int, n as int);
        assert forall|j: int| 2 <= j <= n && #[trigger] marks[j] != 0 implies is_prime(j) by {
            if !is_prime(j) {
                let d = choose|d: int| 2 <= d < j && #[trigger] (j % d) == 0;
                let s = lemma_small_divisor(j, d);
                assert(s < p) by (nonlinear_arith)
                    requires
                        s * s <= j,
                        j <= n,
                        n < p * p,
                        2 <= s,
                        2 <= p,
                ;
            }
        }
    }
    let mut r: Vec<u64> = Vec::new();
    let mut i: usize = 0;
    while i < marks.len()
        invariant
            marks.len() == n + 1,
            i <= marks.len(),
            forall|j: int| 2 <= j <= n ==> (#[trigger] marks[j] != 0) == is_prime(j),
            forall|j: int| 0 <= j <= n && #[trigger] marks[j] != 0 ==> marks[j] == j && j >= 2,
            forall|a: int| 0 <= a < r.len() ==> is_prime(#[trigger] r[a] as int) && r[a] < i,
            forall|a: int, b: int| 0 <= a < b < r.len() ==> r[a] < r[b],
            forall|q: int| 2 <= q < i && #[trigger] is_prime(q) ==> r@.contains(q as u64),
            n <= 1 ==> r.len() == 0,
        decreases marks.len() - i,
    {
        let ghost before = r@;
        if marks[i] != 0 {
            r.push(marks[i]);
        }
        proof {
            assert forall|q: int| 2 <= q < i + 1 && #[trigger] is_prime(q) implies r@.contains(
                q as u64,
            ) by {
                if q == i {
                    assert(r[r.len() - 1] == q);
                } else {
                    assert(before.contains(q as u64));
                    let a = choose|a: int| 0 <= a < before.len() && before[a] == q as u64;
                    assert(r@[a] == q as u64);
                }
            }
        }
        i = i + 1;
    }
    r
}

/// `n` is a multiple of `base^e` and of no higher power of `base`.
pub open spec fn is_multiplicity(n: int, base: int, e: nat) -> bool {
    n % power(base, e) == 0 && n % power(base, e + 1) != 0
}

/// The product of `p^e` over a list of `(p, e)` pairs.
pub open spec fn factor_product(fs: Seq<(u64, u64)>) -> int
    decreases fs.len(),
{
    if fs.len() == 0 {
        1
    } else {
        factor_product(fs.drop_last()) * power(fs.last().0 as int, fs.last().1 as nat)
    }
}

/// A list of `(p, e)` pairs with prime `p` in strictly increasing order and
/// every exponent `e` at least one.
pub open spec fn is_factorization(fs: Seq<(u64, u64)>) -> bool {
    &&& forall|i: int| 0 <= i < fs.len() ==> is_prime(#[trigger] fs[i].0 as int) && fs[i].1 >= 1
    &&& forall|i: int, j: int| 0 <= i < j < fs.len() ==> fs[i].0 < fs[j].0
}

/// `base^e * l` with `l` not a multiple of `base` holds `base` exactly `e` times.
proof fn lemma_multiplicity(base: int, e: nat, l: int)
    requires
        base >= 2,
        l > 0,
        l % base != 0,
    ensures
        is_multiplicity(power(base, e) * l, base, e),
{
    let pe = power(base, e);
    lemma_power_positive(base, e);
    vstd::arithmetic::div_mod::lemma_mod_multiples_basic(l, pe);
    assert(l * pe == pe * l) by (nonlinear_arith);
    let pe1 = power(base, e + 1);
    assert(pe1 == base * pe);
    lemma_power_positive(base, e + 1);
    if (pe * l) % pe1 == 0 {
        lemma_fundamental_div_mod(pe * l, pe1);
        let m = (pe * l) / pe1;
        assert(l == base * m) by (nonlinear_arith)
            requires
                pe * l == pe1 * m,
                pe1 == base * pe,
                pe > 0,
        ;
        vstd::arithmetic::div_mod::lemma_mod_multiples_basic(m, base);
        assert(m * base == base * m) by (nonlinear_arith);
    }
}

/// How many times `prime` divides `n`: the exponent of `prime` in the
/// factorization of `n`. `prime` must divide `n`.
pub fn occurrences(n: u64, prime: u64) -> (r: u64)
    requires
        n > 0,
        prime >= 2,
        n % prime == 0,
    ensures
        r >= 1,
        is_multiplicity(n as int, prime as int, r as nat),
{
    let mut count: u64 = 1;
    let mut leftovers: u64 = n / prime;
    proof {
        lemma_fundamental_div_mod(n as int, prime as int);
        assert(count + leftovers <= n && leftovers >= 1) by (nonlinear_arith)
            requires
                n == prime * leftovers,
                prime >= 2,
                n > 0,
                count == 1,
        ;
        assert(power(prime as int, 0) == 1);
        assert(power(prime as int, 1) == prime);
    }
    while leftovers % prime == 0
        invariant
            prime >= 2,
            count >= 1,
            leftovers >= 1,
            count + leftovers <= n,
            n == power(prime as int, count as nat) * leftovers,
        decreases leftovers,
    {
        proof {
            lemma_fundamental_div_mod(leftovers as int, prime as int);
            let q = leftovers as int / prime as int;
            assert(q >= 1 && q + 1 <= leftovers && q < leftovers) by (nonlinear_arith)
                requires
                    leftovers == prime * q,
                    prime >= 2,
                    leftovers >= 1,
            ;
            let pc = power(prime as int, count as nat);
            assert(pc * leftovers == (prime * pc) * q) by (nonlinear_arith)
                requires
                    leftovers == prime * q,
            ;
            assert(power(prime as int, (count + 1) as nat) == prime * pc);
        }
        count = count + 1;
        leftovers = leftovers / prime;
    }
    proof {
        lemma_multiplicity(prime as int, count as nat, leftovers as int);
    }
    count
}

/// Every number of at least 2 has a prime divisor.
proof fn lemma_prime_divisor(m: int) -> (q: int)
    requires
        m >= 2,
    ensures
        is_prime(q),
        m % q == 0,
    decreases m,
{
    if is_prime(m) {
        vstd::arithmetic::div_mod::lemma_mod_multiples_basic(1, m);
        m
    } else {
        let d = choose|d: int| 2 <= d < m && #[trigger] (m % d) == 0;
        let q = lemma_prime_divisor(d);
        lemma_divides_trans(q, d, m);
        q
    }
}

/// The product of a factorization is positive.
pub proof fn lemma_factor_product_positive(fs: Seq<(u64, u64)>)
    requires
        is_factorization(fs),
    ensures
        factor_product(fs) > 0,
    decreases fs.len(),
{
    if fs.len() > 0 {
        let init = fs.drop_last();
        assert(is_factorization(init));
        lemma_factor_product_positive(init);
        let pw = power(fs.last().0 as int, fs.last().1 as nat);
        assert(is_prime(fs[fs.len() - 1].0 as int));
        lemma_power_positive(fs.last().0 as int, fs.last().1 as nat);
        assert(factor_product(init) * pw > 0) by (nonlinear_arith)
            requires
                factor_product(init) > 0,
                pw > 0,
        ;
    }
}

/// A prime does not divide any power of another prime.
proof fn lemma_prime_not_dividing_power(p: int, q: int, e: nat)
    requires
        is_prime(p),
        is_prime(q),
        p != q,
    ensures
        power(q, e) % p != 0,
    decreases e,
{
    if e > 0 {
        lemma_prime_not_dividing_power(p, q, (e - 1) as nat);
        if p < q {
            assert(q % p != 0);
        } else {
            assert(q % p == q) by {
                vstd::arithmetic::div_mod::lemma_small_mod(q as nat, p as nat);
            }
        }
        lemma_power_positive(q, (e - 1) as nat);
        if power(q, e) % p == 0 {
            lemma_prime_divides_product(p, q, power(q, (e - 1) as nat));
        }
    } else {
        vstd::arithmetic::div_mod::lemma_small_mod(1, p as nat);
    }
}

/// A prime that is none of the primes of a factorization does not divide its product.
pub proof fn lemma_prime_not_dividing_product(p: int, fs: Seq<(u64, u64)>)
    requires
        is_prime(p),
        is_factorization(fs),
        forall|i: int| 0 <= i < fs.len() ==> #[trigger] fs[i].0 != p,
    ensures
        factor_product(fs) % p != 0,
    decreases fs.len(),
{
    if fs.len() > 0 {
        let init = fs.drop_last();
        let q = fs.last().0 as int;
        let e = fs.last().1 as nat;
        assert(is_factorization(init));
        assert(fs[fs.len() - 1].0 != p);
        assert(is_prime(fs[fs.len() - 1].0 as int));
        lemma_prime_not_dividing_product(p, init);
        lemma_prime_not_dividing_power(p, q, e);
        lemma_factor_product_positive(init);
        lemma_power_positive(q, e);
        if factor_product(fs) % p == 0 {
            lemma_prime_divides_product(p, factor_product(init), power(q, e));
        }
    } else {
        vstd::arithmetic::div_mod::lemma_small_mod(1, p as nat);
    }
}

/// `gcd_spec(1, x)` is 1.
proof fn lemma_gcd_spec_one(x: int)
    requires
        x > 0,
    ensures
        gcd_spec(1, x) == 1,
{
    lemma_gcd_spec_divides(1, x);
    lemma_divisor_le(gcd_spec(1, x), 1);
}

/// The prime factorization of `n`: each prime that divides `n`, in increasing
/// order, with its exponent. The product of the factorization is `n`.
pub fn prime_factors(n: u64) -> (r: Vec<(u64, u64)>)
    requires
        n < usize::MAX,
    ensures
        is_factorization(r@),
        forall|i: int|
            0 <= i < r.len() ==> is_multiplicity(n as int, #[trigger] r[i].0 as int, r[i].1 as nat),
        forall|q: int| #[trigger] is_prime(q) && n > 0 && (n as int) % q == 0 ==> exists|i: int|
            0 <= i < r.len() && r[i].0 == q,
        n > 0 ==> factor_product(r@) == n,
        n == 0 ==> r.len() == 0,
{
    let ps = prime_sieve(n);
    let mut out: Vec<(u64, u64)> = Vec::new();
    let ghost mut rest: int = n as int;
    let mut i: usize = 0;
    while i < ps.len()
        invariant
            n < usize::MAX,
            forall|a: int| 0 <= a < ps.len() ==> is_prime(#[trigger] ps[a] as int) && ps[a] <= n,
            forall|a: int, b: int| 0 <= a < b < ps.len() ==> ps[a] < ps[b],
            forall|q: int| 2 <= q <= n && #[trigger] is_prime(q) ==> ps@.contains(q as u64),
            i <= ps.len(),
            is_factorization(out@),
            forall|k: int, j: int| 0 <= k < out.len() && i <= j < ps.len() ==> out[k].0 < ps[j],
            forall|k: int|
                0 <= k < out.len() ==> is_multiplicity(
                    n as int,
                    #[trigger] out[k].0 as int,
                    out[k].1 as nat,
                ),
            forall|j: int|
                0 <= j < i && n % #[trigger] ps[j] == 0 ==> exists|k: int|
                    0 <= k < out.len() && out[k].0 == ps[j],
            n > 0 ==> factor_product(out@) * rest == n && rest >= 1,
            n == 0 ==> out.len() == 0,
            forall|j: int| 0 <= j < i ==> rest % (#[trigger] ps[j] as int) != 0,
        decreases ps.len() - i,
    {
        let p = ps[i];
        assert(is_prime(ps[i as int] as int));
        let ghost before = out@;
        if n % p == 0 {
            let e = occurrences(n, p);
            proof {
                let pi = p as int;
                let big_p = factor_product(out@);
                let pe = power(pi, e as nat);
                assert forall|k: int| 0 <= k < out.len() implies #[trigger] out[k].0 != pi by {
                    assert(out[k].0 < ps[i as int]);
                }
                lemma_prime_not_dividing_product(pi, out@);
                lemma_factor_product_positive(out@);
                lemma_power_positive(pi, e as nat);
                lemma_gcd_spec_drop_prime_power(pi, e as nat, 1, big_p);
                lemma_gcd_spec_one(big_p);
                assert(pe * 1 == pe);
                assert(rest >= 0);
                lemma_coprime_divides(pe, big_p, rest);
                lemma_fundamental_div_mod(rest, pe);
                let rest2 = rest / pe;
                assert(big_p * pe * rest2 == n && rest2 >= 1) by (nonlinear_arith)
                    requires
                        big_p * rest == n,
                        rest == pe * rest2 + 0,
                        rest >= 1,
                        pe > 0,
                ;
                if rest2 % pi == 0 {
                    lemma_fundamental_div_mod(rest2, pi);
                    let m = rest2 / pi;
                    assert(n == power(pi, (e + 1) as nat) * (big_p * m)) by (nonlinear_arith)
                        requires
                            big_p * pe * rest2 == n,
                            rest2 == pi * m,
                            power(pi, (e + 1) as nat) == pi * pe,
                    ;
                    lemma_power_positive(pi, (e + 1) as nat);
                    vstd::arithmetic::div_mod::lemma_mod_multiples_basic(
                        big_p * m,
                        power(pi, (e + 1) as nat),
                    );
                    assert(big_p * m * power(pi, (e + 1) as nat) == n) by (nonlinear_arith)
                        requires
                            n == power(pi, (e + 1) as nat) * (big_p * m),
                    ;
                }
                assert forall|j: int| 0 <= j < i implies rest2 % (#[trigger] ps[j] as int) != 0 by {
                    assert(is_prime(ps[j] as int));
                    if rest2 % (ps[j] as int) == 0 {
                        lemma_divides_multiple(ps[j] as int, rest2, pe);
                    }
                }
                rest = rest2;
            }
            out.push((p, e));
            proof {
                assert(out@.drop_last() =~= before);
                assert(is_factorization(out@)) by {
                    assert forall|a: int, b: int| 0 <= a < b < out.len() implies out[a].0
                        < out[b].0 by {
                        if b == out.len() - 1 {
                            assert(before[a].0 < ps[i as int]);
                        }
                    }
                }
                assert forall|j: int|
                    0 <= j < i + 1 && n % #[trigger] ps[j] == 0 implies exists|k: int|
                    0 <= k < out.len() && out[k].0 == ps[j] by {
                    if j == i {
                        assert(out[out.len() - 1].0 == ps[j]);
                    } else {
                        let k = choose|k: int| 0 <= k < before.len() && before[k].0 == ps[j];
                        assert(out[k].0 == ps[j]);
                    }
                }
            }
        } else {
            proof {
                if n > 0 && rest % (p as int) == 0 {
                    lemma_factor_product_positive(out@);
                    lemma_divides_multiple(p as int, rest, factor_product(out@));
                }
            }
        }
        i = i + 1;
    }
    proof {
        if n > 0 {
            lemma_factor_product_positive(out@);
            if rest > 1 {
                let q = lemma_prime_divisor(rest);
                vstd::arithmetic::div_mod::lemma_mod_multiples_basic(factor_product(out@), rest);
                assert(factor_product(out@) * rest == rest * factor_product(out@)) by (nonlinear_arith);
                lemma_divisor_le(rest, n as int);
                lemma_divisor_le(q, rest);
                assert(ps@.contains(q as u64));
                let j = choose|j: int| 0 <= j < ps.len() && ps@[j] == q as u64;
                assert(rest % (ps[j] as int) != 0);
            }
            assert(rest == 1);
            assert(factor_product(out@) * 1 == factor_product(out@));
            assert forall|q: int| #[trigger] is_prime(q) && n > 0 && (n as int) % q == 0 implies exists|k: int|
                0 <= k < out.len() && out[k].0 == q by {
                lemma_divisor_le(q, n as int);
                assert(ps@.contains(q as u64));
                let j = choose|j: int| 0 <= j < ps.len() && ps@[j] == q as u64;
                assert(n % ps[j] == 0);
            }
        }
    }
    out
}

/// The product of a list of pairs, taken from its first pair.
pub proof fn lemma_factor_product_first(fs: Seq<(u64, u64)>)
    requires
        fs.len() > 0,
    ensures
        factor_product(fs) == power(fs[0].0 as int, fs[0].1 as nat) * factor_product(fs.drop_first()),
    decreases fs.len(),
{
    let first = power(fs[0].0 as int, fs[0].1 as nat);
    if fs.len() == 1 {
        assert(fs.drop_last().len() == 0);
        assert(fs.drop_first().len() == 0);
        assert(fs.last() == fs[0]);
        assert(factor_product(fs.drop_last()) == 1);
        assert(factor_product(fs.drop_first()) == 1);
    } else {
        let init = fs.drop_last();
        lemma_factor_product_first(init);
        assert(init[0] == fs[0]);
        assert(init.drop_first() =~= fs.drop_first().drop_last());
        assert(fs.drop_first().last() == fs.last());
        let x = factor_product(init.drop_first());
        let last = power(fs.last().0 as int, fs.last().1 as nat);
        assert((first * x) * last == first * (x * last)) by (nonlinear_arith);
    }
}

/// Every pair of the list has a positive base.
pub open spec fn bases_positive(fs: Seq<(u64, u64)>) -> bool {
    forall|i: int| 0 <= i < fs.len() ==> #[trigger] fs[i].0 >= 1
}

/// The product of pairs with positive bases is positive.
pub proof fn lemma_factor_product_at_least_one(fs: Seq<(u64, u64)>)
    requires
        bases_positive(fs),
    ensures
        factor_product(fs) >= 1,
    decreases fs.len(),
{
    if fs.len() > 0 {
        let init = fs.drop_last();
        assert(bases_positive(init));
        lemma_factor_product_at_least_one(init);
        assert(fs[fs.len() - 1].0 >= 1);
        lemma_power_positive(fs.last().0 as int, fs.last().1 as nat);
        let pw = power(fs.last().0 as int, fs.last().1 as nat);
        assert(factor_product(init) * pw >= 1) by (nonlinear_arith)
            requires
                factor_product(init) >= 1,
                pw >= 1,
        ;
    }
}

/// With positive bases, the product of a prefix is at most the whole product,
/// and one pair more multiplies it by that pair's power.
pub proof fn lemma_factor_product_prefix(fs: Seq<(u64, u64)>, k: int)
    requires
        bases_positive(fs),
        0 <= k < fs.len(),
    ensures
        factor_product(fs.take(k + 1)) == factor_product(fs.take(k)) * power(
            fs[k].0 as int,
            fs[k].1 as nat,
        ),
        power(fs[k].0 as int, fs[k].1 as nat) <= factor_product(fs.take(k + 1)),
        factor_product(fs.take(k)) <= factor_product(fs.take(k + 1)),
        factor_product(fs.take(k + 1)) <= factor_product(fs),
    decreases fs.len() - k,
{
    assert(fs.take(k + 1).drop_last() =~= fs.take(k));
    let pre = fs.take(k);
    assert(bases_positive(pre));
    lemma_factor_product_at_least_one(pre);
    assert(fs[k].0 >= 1);
    lemma_power_positive(fs[k].0 as int, fs[k].1 as nat);
    let pw = power(fs[k].0 as int, fs[k].1 as nat);
    let x = factor_product(pre);
    assert(pw <= x * pw && x <= x * pw) by (nonlinear_arith)
        requires
            x >= 1,
            pw >= 1,
    ;
    if k + 1 == fs.len() {
        assert(fs.take(k + 1) =~= fs);
    } else {
        lemma_factor_product_prefix(fs, k + 1);
    }
}

} // verus!
