//! Three ways to compute the greatest common divisor, a dispatcher that picks
//! one of them and a cross-check that runs all three.
use crate::arith::{
    gcd_spec, is_gcd, is_prime, lemma_divisor_le, lemma_gcd_spec_commutes,
    lemma_gcd_spec_drop_prime_power, lemma_gcd_spec_is_gcd, lemma_gcd_spec_prime_power_min,
    lemma_gcd_unique, lemma_power_positive, power,
};
use crate::primes::{
    bases_positive, factor_product, is_factorization, lemma_factor_product_first,
    lemma_factor_product_positive, lemma_factor_product_prefix, lemma_prime_not_dividing_product,
    prime_factors,
};
use vstd::prelude::*;

verus! {

/// The pairs `(p, min(e, f))` for each prime `p` that occurs as `(p, e)` in
/// `fa` and as `(p, f)` in `fb`, both lists being in increasing order of prime.
pub open spec fn common_factors(fa: Seq<(u64, u64)>, fb: Seq<(u64, u64)>) -> Seq<(u64, u64)>
    decreases fa.len() + fb.len(),
{
    if fa.len() == 0 || fb.len() == 0 {
        Seq::empty()
    } else if fa[0].0 == fb[0].0 {
        seq![(fa[0].0, if fa[0].1 <= fb[0].1 { fa[0].1 } else { fb[0].1 })] + common_factors(
            fa.drop_first(),
            fb.drop_first(),
        )
    } else if fa[0].0 < fb[0].0 {
        common_factors(fa.drop_first(), fb)
    } else {
        common_factors(fa, fb.drop_first())
    }
}

/// The rest of a factorization after its first pair is a factorization whose
/// product the first prime does not divide.
proof fn lemma_factorization_tail(fs: Seq<(u64, u64)>)
    requires
        is_factorization(fs),
        fs.len() > 0,
    ensures
        is_factorization(fs.drop_first()),
        factor_product(fs.drop_first()) % (fs[0].0 as int) != 0,
        factor_product(fs.drop_first()) > 0,
        factor_product(fs) == power(fs[0].0 as int, fs[0].1 as nat) * factor_product(
            fs.drop_first(),
        ),
{
    let tail = fs.drop_first();
    assert(is_factorization(tail)) by {
        assert forall|i: int, j: int| 0 <= i < j < tail.len() implies tail[i].0 < tail[j].0 by {
            assert(tail[i] == fs[i + 1] && tail[j] == fs[j + 1]);
        }
        assert forall|i: int| 0 <= i < tail.len() implies is_prime(#[trigger] tail[i].0 as int)
            && tail[i].1 >= 1 by {
            assert(tail[i] == fs[i + 1]);
        }
    }
    assert(is_prime(fs[0].0 as int));
    assert forall|i: int| 0 <= i < tail.len() implies #[trigger] tail[i].0 != fs[0].0 as int by {
        assert(fs[0].0 < fs[i + 1].0);
    }
    lemma_prime_not_dividing_product(fs[0].0 as int, tail);
    lemma_factor_product_positive(tail);
    lemma_factor_product_first(fs);
}

/// A prime below every prime of a factorization does not divide its product.
proof fn lemma_smaller_prime_not_dividing(p: int, fs: Seq<(u64, u64)>)
    requires
        is_prime(p),
        is_factorization(fs),
        fs.len() > 0,
        p < fs[0].0,
    ensures
        factor_product(fs) % p != 0,
{
    assert forall|i: int| 0 <= i < fs.len() implies #[trigger] fs[i].0 != p by {
        if i > 0 {
            assert(fs[0].0 < fs[i].0);
        }
    }
    lemma_prime_not_dividing_product(p, fs);
}

/// The middle school procedure is right: the product of the common factors of
/// two factorizations is the greatest common divisor of their products.
proof fn lemma_common_factors_gcd(fa: Seq<(u64, u64)>, fb: Seq<(u64, u64)>)
    requires
        is_factorization(fa),
        is_factorization(fb),
    ensures
        factor_product(common_factors(fa, fb)) == gcd_spec(factor_product(fa), factor_product(fb)),
        bases_positive(common_factors(fa, fb)),
    decreases fa.len() + fb.len(),
{
    let c = common_factors(fa, fb);
    lemma_factor_product_positive(fa);
    lemma_factor_product_positive(fb);
    let a = factor_product(fa);
    let b = factor_product(fb);
    if fa.len() == 0 {
        crate::arith::lemma_gcd_spec_divides(1, b);
        lemma_divisor_le(gcd_spec(1, b), 1);
    } else if fb.len() == 0 {
        lemma_gcd_spec_commutes(a, 1);
        crate::arith::lemma_gcd_spec_divides(1, a);
        lemma_divisor_le(gcd_spec(1, a), 1);
    } else {
        lemma_factorization_tail(fa);
        lemma_factorization_tail(fb);
        let pa = fa[0].0 as int;
        let pb = fb[0].0 as int;
        let ta = factor_product(fa.drop_first());
        let tb = factor_product(fb.drop_first());
        let wa = power(pa, fa[0].1 as nat);
        let wb = power(pb, fb[0].1 as nat);
        assert(is_prime(pa));
        assert(is_prime(pb));
        if pa == pb {
            let e = if fa[0].1 <= fb[0].1 {
                fa[0].1
            } else {
                fb[0].1
            };
            let rest = common_factors(fa.drop_first(), fb.drop_first());
            lemma_common_factors_gcd(fa.drop_first(), fb.drop_first());
            lemma_gcd_spec_prime_power_min(pa, fa[0].1 as nat, fb[0].1 as nat, ta, tb);
            assert(c == seq![(fa[0].0, e)] + rest);
            assert(c.drop_first() =~= rest);
            lemma_factor_product_first(c);
            assert(bases_positive(c)) by {
                assert forall|i: int| 0 <= i < c.len() implies #[trigger] c[i].0 >= 1 by {
                    if i > 0 {
                        assert(c[i] == rest[i - 1]);
                    }
                }
            }
        } else if pa < pb {
            lemma_common_factors_gcd(fa.drop_first(), fb);
            lemma_smaller_prime_not_dividing(pa, fb);
            lemma_gcd_spec_drop_prime_power(pa, fa[0].1 as nat, ta, b);
        } else {
            lemma_common_factors_gcd(fa, fb.drop_first());
            lemma_smaller_prime_not_dividing(pb, fa);
            lemma_power_positive(pb, fb[0].1 as nat);
            assert(wb * tb >= 0) by (nonlinear_arith)
                requires
                    wb > 0,
                    tb > 0,
            ;
            lemma_gcd_spec_commutes(a, wb * tb);
            lemma_gcd_spec_drop_prime_power(pb, fb[0].1 as nat, tb, a);
            lemma_gcd_spec_commutes(tb, a);
        }
    }
}

/// `base` raised to the power `e`, multiplied out one factor at a time.
fn prime_power(base: u64, e: u64) -> (r: u64)
    requires
        base >= 1,
        power(base as int, e as nat) <= u64::MAX,
    ensures
        r == power(base as int, e as nat),
{
    let mut r: u64 = 1;
    let mut k: u64 = 0;
    while k < e
        invariant
            base >= 1,
            k <= e,
            r == power(base as int, k as nat),
            power(base as int, e as nat) <= u64::MAX,
        decreases e - k,
    {
        proof {
            lemma_power_monotone(base as int, (k + 1) as nat, e as nat);
            assert(power(base as int, (k + 1) as nat) == base * power(base as int, k as nat));
            assert(r * base == base * r) by (nonlinear_arith);
        }
        r = r * base;
        k = k + 1;
    }
    r
}

/// Powers of a positive base grow with the exponent.
proof fn lemma_power_monotone(base: int, x: nat, y: nat)
    requires
        base >= 1,
        x <= y,
    ensures
        power(base, x) <= power(base, y),
    decreases y,
{
    if x < y {
        lemma_power_monotone(base, x, (y - 1) as nat);
        lemma_power_positive(base, (y - 1) as nat);
        let w = power(base, (y - 1) as nat);
        assert(w <= base * w) by (nonlinear_arith)
            requires
                base >= 1,
                w > 0,
        ;
    }
}

/// Uses the middle school procedure to find the greatest common divisor of two
/// positive numbers: factorize both, intersect the factorizations keeping the
/// smaller exponent of each common prime, and multiply the result out. Each
/// factorization sieves up to its number.
pub fn middle_school_gcd(a: u64, b: u64) -> (r: u64)
    requires
        0 < a < usize::MAX,
        0 < b < usize::MAX,
    ensures
        is_gcd(r as int, a as int, b as int),
{
    let factors_a = prime_factors(a);
    let factors_b = prime_factors(b);
    let ghost fa = factors_a@;
    let ghost fb = factors_b@;
    let mut index_a: usize = 0;
    let mut index_b: usize = 0;
    let mut intersection: Vec<(u64, u64)> = Vec::new();
    assert(fa.subrange(0, fa.len() as int) =~= fa);
    assert(fb.subrange(0, fb.len() as int) =~= fb);
    assert(intersection@ + common_factors(fa, fb) =~= common_factors(fa, fb));
    while index_a < factors_a.len() && index_b < factors_b.len()
        invariant
            fa == factors_a@,
            fb == factors_b@,
            index_a <= fa.len(),
            index_b <= fb.len(),
            intersection@ + common_factors(
                fa.subrange(index_a as int, fa.len() as int),
                fb.subrange(index_b as int, fb.len() as int),
            ) == common_factors(fa, fb),
        decreases fa.len() - index_a + fb.len() - index_b,
    {
        let ghost sa = fa.subrange(index_a as int, fa.len() as int);
        let ghost sb = fb.subrange(index_b as int, fb.len() as int);
        assert(sa.drop_first() =~= fa.subrange(index_a + 1, fa.len() as int));
        assert(sb.drop_first() =~= fb.subrange(index_b + 1, fb.len() as int));
        let ghost before = intersection@;
        let pa = factors_a[index_a].0;
        let pb = factors_b[index_b].0;
        if pa == pb {
            let ea = factors_a[index_a].1;
            let eb = factors_b[index_b].1;
            let e = if ea <= eb {
                ea
            } else {
                eb
            };
            intersection.push((pa, e));
            index_a = index_a + 1;
            index_b = index_b + 1;
            proof {
                let rest = common_factors(sa.drop_first(), sb.drop_first());
                assert(common_factors(sa, sb) == seq![(pa, e)] + rest);
                assert(intersection@ + rest =~= before + (seq![(pa, e)] + rest));
            }
        } else if pa > pb {
            index_b = index_b + 1;
        } else {
            index_a = index_a + 1;
        }
    }
    proof {
        let sa = fa.subrange(index_a as int, fa.len() as int);
        let sb = fb.subrange(index_b as int, fb.len() as int);
        assert(common_factors(sa, sb) == Seq::<(u64, u64)>::empty());
        assert(intersection@ =~= common_factors(fa, fb));
        lemma_common_factors_gcd(fa, fb);
        lemma_gcd_spec_is_gcd(a as int, b as int);
        lemma_divisor_le(gcd_spec(a as int, b as int), a as int);
    }
    let ghost c = intersection@;
    let mut acc: u64 = 1;
    let mut k: usize = 0;
    while k < intersection.len()
        invariant
            c == intersection@,
            bases_positive(c),
            k <= c.len(),
            acc == factor_product(c.take(k as int)),
            factor_product(c) == gcd_spec(a as int, b as int),
            gcd_spec(a as int, b as int) <= a,
        decreases c.len() - k,
    {
        proof {
            lemma_factor_product_prefix(c, k as int);
        }
        let (prime, exponent) = intersection[k];
        assert(prime >= 1);
        let w = prime_power(prime, exponent);
        acc = acc * w;
        k = k + 1;
    }
    proof {
        assert(c.take(c.len() as int) =~= c);
    }
    acc
}

/// The algorithms that `gcd_with_algorithm` can use.
pub enum GcdAlgorithms {
    Euclid,
    Middle,
    Consecutive,
}

/// The absolute value of `x`.
pub open spec fn magnitude(x: int) -> int {
    if x < 0 {
        -x
    } else {
        x
    }
}

/// The message of the error for two zero inputs, whose greatest common
/// divisor is undefined.
pub open spec fn undefined_message() -> Seq<char> {
    "GCD is undefined for input 0 and 0."@
}

/// The absolute value of `x`, which fits in `u64` for every `i64`.
fn unsigned_magnitude(x: i64) -> (r: u64)
    ensures
        r == magnitude(x as int),
{
    if x >= 0 {
        x as u64
    } else {
        let below: i64 = -(x + 1);
        below as u64 + 1
    }
}

/// Euclid's method on two natural numbers, the first of them positive.
fn euclid_loop(a: u64, b: u64) -> (r: u64)
    requires
        a > 0 || b > 0,
    ensures
        r == gcd_spec(a as int, b as int),
{
    let mut x: u64 = a;
    let mut y: u64 = b;
    while y != 0
        invariant
            x > 0 || y > 0,
            gcd_spec(x as int, y as int) == gcd_spec(a as int, b as int),
        decreases y,
    {
        let rem: u64 = x % y;
        x = y;
        y = rem;
    }
    x
}

/// Uses Euclid's method to find the greatest common divisor of two positive
/// numbers: replace the pair by the smaller number and the remainder of the
/// larger divided by it, until the remainder is zero.
pub fn euclid_gcd(a: i64, b: i64) -> (r: u64)
    requires
        a > 0,
        b > 0,
    ensures
        is_gcd(r as int, a as int, b as int),
{
    let r = euclid_loop(a as u64, b as u64);
    proof {
        lemma_gcd_spec_is_gcd(a as int, b as int);
    }
    r
}

/// Uses consecutive integer checking to find the greatest common divisor of
/// two positive numbers: count down from the smaller of them to the first
/// number that divides both.
pub fn consecutive_gcd(a: u64, b: u64) -> (r: u64)
    requires
        a > 0,
        b > 0,
    ensures
        is_gcd(r as int, a as int, b as int),
{
    let smaller: u64 = if a < b {
        a
    } else {
        b
    };
    let mut t: u64 = smaller;
    loop
        invariant
            a > 0,
            b > 0,
            smaller == if a < b { a } else { b },
            1 <= t <= smaller,
            forall|d: int| t < d <= smaller ==> !(#[trigger] (a as int % d) == 0 && b as int % d == 0),
        decreases t,
    {
        if a % t == 0 && b % t == 0 {
            proof {
                assert forall|d: int|
                    d > 0 && #[trigger] crate::arith::divides(d, a as int)
                        && #[trigger] crate::arith::divides(d, b as int) implies d <= t by {
                    lemma_divisor_le(d, a as int);
                    lemma_divisor_le(d, b as int);
                    if d > t {
                        assert(a as int % d == 0);
                    }
                }
            }
            return t;
        }
        proof {
            if t == 1 {
                vstd::arithmetic::div_mod::lemma_mod_multiples_basic(a as int, 1);
                vstd::arithmetic::div_mod::lemma_mod_multiples_basic(b as int, 1);
            }
        }
        t = t - 1;
    }
}

/// Uses the chosen algorithm to find the greatest common divisor of `a` and
/// `b`, which is that of their absolute values. When one of them is zero the
/// result is the absolute value of the other, without running the algorithm;
/// when both are, the greatest common divisor is undefined and this is an error.
pub fn gcd_with_algorithm(a: i64, b: i64, algo: GcdAlgorithms) -> (r: Result<u64, &'static str>)
    requires
        algo is Middle ==> magnitude(a as int) < usize::MAX && magnitude(b as int) < usize::MAX,
    ensures
        a == 0 && b == 0 ==> r is Err && r->Err_0@ == undefined_message(),
        !(a == 0 && b == 0) ==> r is Ok && is_gcd(
            r->Ok_0 as int,
            magnitude(a as int),
            magnitude(b as int),
        ),
{
    let a = unsigned_magnitude(a);
    let b = unsigned_magnitude(b);
    if a == 0 && b == 0 {
        Err("GCD is undefined for input 0 and 0.")
    } else if a == 0 || b == 0 {
        let g: u64 = if a == 0 {
            b
        } else {
            a
        };
        proof {
            lemma_gcd_spec_is_gcd(a as int, b as int);
            assert(gcd_spec(a as int, 0) == a);
            assert(gcd_spec(0, b as int) == gcd_spec(b as int, 0));
        }
        Ok(g)
    } else {
        match algo {
            GcdAlgorithms::Euclid => {
                let g = euclid_loop(a, b);
                proof {
                    lemma_gcd_spec_is_gcd(a as int, b as int);
                }
                Ok(g)
            },
            GcdAlgorithms::Consecutive => Ok(consecutive_gcd(a, b)),
            GcdAlgorithms::Middle => Ok(middle_school_gcd(a, b)),
        }
    }
}

/// Finds the greatest common divisor of `a` and `b` with all three algorithms
/// and returns it when they agree. An error when both inputs are zero, or when
/// the algorithms disagree, which the proofs show never happens.
pub fn gcd(a: i64, b: i64) -> (r: Result<u64, &'static str>)
    requires
        magnitude(a as int) < usize::MAX,
        magnitude(b as int) < usize::MAX,
    ensures
        a == 0 && b == 0 ==> r is Err && r->Err_0@ == undefined_message(),
        !(a == 0 && b == 0) ==> r is Ok && is_gcd(
            r->Ok_0 as int,
            magnitude(a as int),
            magnitude(b as int),
        ),
{
    let euclid = gcd_with_algorithm(a, b, GcdAlgorithms::Euclid);
    let consecutive = gcd_with_algorithm(a, b, GcdAlgorithms::Consecutive);
    let middle = gcd_with_algorithm(a, b, GcdAlgorithms::Middle);
    match (euclid, consecutive, middle) {
        (Ok(x), Ok(y), Ok(z)) => {
            proof {
                lemma_gcd_unique(x as int, y as int, magnitude(a as int), magnitude(b as int));
                lemma_gcd_unique(x as int, z as int, magnitude(a as int), magnitude(b as int));
            }
            if x != y || x != z {
                Err("GCD does not match across all algorithms.")
            } else {
                Ok(x)
            }
        },
        (Err(e), Err(_), Err(_)) => Err(e),
        _ => Err("GCD does not match across all algorithms."),
    }
}

/// The three algorithms agree: on positive inputs Euclid's method, consecutive
/// integer checking and the middle school procedure all return a greatest
/// common divisor, and there is only one.
pub proof fn lemma_algorithms_agree(a: int, b: int, euclid: int, consecutive: int, middle: int)
    requires
        a > 0,
        b > 0,
        is_gcd(euclid, a, b),
        is_gcd(consecutive, a, b),
        is_gcd(middle, a, b),
    ensures
        euclid == consecutive,
        consecutive == middle,
{
    lemma_gcd_unique(euclid, consecutive, a, b);
    lemma_gcd_unique(consecutive, middle, a, b);
}

/// With one input zero and the other not, the greatest common divisor is the
/// absolute value of the other.
pub proof fn lemma_gcd_with_zero(a: int, g: int)
    requires
        a != 0,
        is_gcd(g, magnitude(a), magnitude(0)),
    ensures
        g == magnitude(a),
{
    lemma_gcd_spec_is_gcd(magnitude(a), 0);
    lemma_gcd_unique(g, gcd_spec(magnitude(a), 0), magnitude(a), 0);
}

/// The greatest common divisor does not depend on the order of the inputs nor
/// on their signs.
pub proof fn lemma_gcd_symmetric(
    a: int,
    b: int,
    g: int,
    swapped: int,
    neg_a: int,
    neg_b: int,
    neg_both: int,
)
    requires
        is_gcd(g, magnitude(a), magnitude(b)),
        is_gcd(swapped, magnitude(b), magnitude(a)),
        is_gcd(neg_a, magnitude(-a), magnitude(b)),
        is_gcd(neg_b, magnitude(a), magnitude(-b)),
        is_gcd(neg_both, magnitude(-a), magnitude(-b)),
    ensures
        g == swapped,
        g == neg_a,
        g == neg_b,
        g == neg_both,
{
    crate::arith::lemma_is_gcd_commutes(swapped, magnitude(b), magnitude(a));
    lemma_gcd_unique(g, swapped, magnitude(a), magnitude(b));
    assert(magnitude(-a) == magnitude(a) && magnitude(-b) == magnitude(b));
    lemma_gcd_unique(g, neg_a, magnitude(a), magnitude(b));
    lemma_gcd_unique(g, neg_b, magnitude(a), magnitude(b));
    lemma_gcd_unique(g, neg_both, magnitude(a), magnitude(b));
}

} // verus!
