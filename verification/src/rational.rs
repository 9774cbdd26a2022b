//! Rational coefficients in lowest terms.
use crate::modular::{gcd, lemma_gcd_divides};
use crate::rank_scan::normalize::{abs, gcd_i128};
use crate::rank_scan::Rational;
use vstd::prelude::*;

verus! {

/// `n / d` in lowest terms with a positive denominator, as (numerator, denominator).
pub open spec fn normalize_spec(n: int, d: int) -> (int, int) {
    let g = gcd(abs(n) as nat, abs(d) as nat) as int;
    if d < 0 {
        (-n / g, -d / g)
    } else {
        (n / g, d / g)
    }
}

/// The rational is `n / d` in lowest terms.
pub open spec fn is_normalized_of(r: Rational, n: int, d: int) -> bool {
    (r.numer as int, r.denom as int) == normalize_spec(n, d)
}

proof fn lemma_exact_div(x: int, g: int)
    requires
        g > 0,
        abs(x) % g == 0,
    ensures
        x == (x / g) * g,
        -x == (-x / g) * g,
        x >= 0 ==> x / g == abs(x) / g,
        x < 0 ==> x / g == -(abs(x) / g),
        x >= 0 ==> -x / g == -(abs(x) / g),
        x < 0 ==> -x / g == abs(x) / g,
{
    vstd::arithmetic::div_mod::lemma_fundamental_div_mod(abs(x), g);
    let q = abs(x) / g;
    assert(abs(x) == q * g) by (nonlinear_arith)
        requires
            abs(x) == g * q + abs(x) % g,
            abs(x) % g == 0,
    ;
    if x >= 0 {
        vstd::arithmetic::div_mod::lemma_fundamental_div_mod_converse(x, g, q, 0);
        assert(-x == (-q) * g + 0) by (nonlinear_arith)
            requires
                x == q * g,
        ;
        vstd::arithmetic::div_mod::lemma_fundamental_div_mod_converse(-x, g, -q, 0);
    } else {
        vstd::arithmetic::div_mod::lemma_fundamental_div_mod_converse(-x, g, q, 0);
        assert(x == (-q) * g + 0) by (nonlinear_arith)
            requires
                -x == q * g,
        ;
        vstd::arithmetic::div_mod::lemma_fundamental_div_mod_converse(x, g, -q, 0);
    }
}

/// Both parts of a fraction fit in `i64`.
pub open spec fn fits_i64(p: (int, int)) -> bool {
    i64::MIN <= p.0 <= i64::MAX && i64::MIN <= p.1 <= i64::MAX
}

/// `n / d` in lowest terms as a rational, or `None` when it does not fit.
pub open spec fn lowest(n: int, d: int) -> Option<Rational> {
    let p = normalize_spec(n, d);
    if fits_i64(p) {
        Some(Rational { numer: p.0 as i64, denom: p.1 as i64 })
    } else {
        None
    }
}

/// `n / d` in lowest terms, with the sign on the numerator; `None` when that
/// does not fit in `i64`.
pub fn rational_new_wide(n: i128, d: i128) -> (r: Option<Rational>)
    requires
        d != 0,
        n > i128::MIN,
        d > i128::MIN,
    ensures
        r == lowest(n as int, d as int),
        r matches Some(q) ==> is_normalized_of(q, n as int, d as int),
        r is None ==> {
            let (a, b) = normalize_spec(n as int, d as int);
            !(i64::MIN <= a <= i64::MAX && i64::MIN <= b <= i64::MAX)
        },
{
    let g = gcd_i128(n, d);
    proof {
        lemma_gcd_divides(abs(n as int) as nat, abs(d as int) as nat);
        lemma_exact_div(n as int, g as int);
        lemma_exact_div(d as int, g as int);
    }
    let an: i128 = if n < 0 { -n } else { n };
    let ad: i128 = if d < 0 { -d } else { d };
    let qn = an / g;
    let qd = ad / g;
    let a: i128 = if (n < 0) != (d < 0) { -qn } else { qn };
    let b: i128 = qd;
    proof {
        assert((a as int, b as int) == normalize_spec(n as int, d as int));
    }
    if a < i64::MIN as i128 || a > i64::MAX as i128 || b < i64::MIN as i128 || b > i64::MAX as i128 {
        return None;
    }
    Some(Rational { numer: a as i64, denom: b as i64 })
}

/// `n / d` in lowest terms, with the sign on the numerator.
pub fn rational_new(n: i64, d: i64) -> (r: Rational)
    requires
        d != 0,
        n != i64::MIN,
        d != i64::MIN,
    ensures
        is_normalized_of(r, n as int, d as int),
        r.denom > 0,
{
    proof {
        lemma_gcd_divides(abs(n as int) as nat, abs(d as int) as nat);
        let g = gcd(abs(n as int) as nat, abs(d as int) as nat) as int;
        lemma_exact_div(n as int, g);
        lemma_exact_div(d as int, g);
        lemma_quotient_bounds(n as int, g);
        lemma_quotient_bounds(d as int, g);
        lemma_quotient_bounds(-n as int, g);
        lemma_quotient_bounds(-d as int, g);
    }
    match rational_new_wide(n as i128, d as i128) {
        Some(q) => {
            proof {
                lemma_positive_denominator(d as int);
            }
            q
        },
        None => Rational { numer: 0, denom: 1 },
    }
}

proof fn lemma_quotient_bounds(x: int, g: int)
    requires
        g >= 1,
        x == (x / g) * g,
    ensures
        abs(x / g) <= abs(x),
{
    let q = x / g;
    assert(abs(q) <= abs(q) * g) by (nonlinear_arith)
        requires
            g >= 1,
    ;
    assert(abs(x) == abs(q) * g) by (nonlinear_arith)
        requires
            x == q * g,
            g >= 1,
    ;
}

/// Lowest terms of a fraction with a nonzero denominator have a positive
/// denominator.
pub proof fn lemma_positive_denominator(d: int)
    requires
        d != 0,
    ensures
        normalize_spec(0, d).1 > 0,
        forall|n: int| #[trigger] normalize_spec(n, d).1 > 0,
{
    assert forall|n: int| #[trigger] normalize_spec(n, d).1 > 0 by {
        lemma_gcd_divides(abs(n) as nat, abs(d) as nat);
        let g = gcd(abs(n) as nat, abs(d) as nat) as int;
        lemma_exact_div(d, g);
        if d < 0 {
            assert(-d / g > 0) by (nonlinear_arith)
                requires
                    -d == (-d / g) * g,
                    g > 0,
                    -d > 0,
            ;
        } else {
            assert(d / g > 0) by (nonlinear_arith)
                requires
                    d == (d / g) * g,
                    g > 0,
                    d > 0,
            ;
        }
    }
}

/// The integer `n` as a rational.
pub fn rational_from_integer(n: i64) -> (r: Rational)
    ensures
        r == (Rational { numer: n, denom: 1 }),
{
    Rational { numer: n, denom: 1 }
}

/// `a + b` in lowest terms, or `None` when that leaves `i64`.
pub fn rational_add(a: Rational, b: Rational) -> (r: Option<Rational>)
    requires
        a.denom > 0,
        b.denom > 0,
    ensures
        r == lowest(a.numer * b.denom + b.numer * a.denom, a.denom * b.denom),
        r matches Some(q) ==> is_normalized_of(q, a.numer * b.denom + b.numer * a.denom, a.denom * b.denom) && q.denom > 0,
        r is None ==> {
            let (x, y) = normalize_spec(a.numer * b.denom + b.numer * a.denom, a.denom * b.denom);
            !(i64::MIN <= x <= i64::MAX && i64::MIN <= y <= i64::MAX)
        },
{
    proof {
        assert((a.numer as int) * (b.denom as int) <= i64::MAX * i64::MAX) by (nonlinear_arith)
            requires
                i64::MIN <= a.numer <= i64::MAX,
                0 < b.denom <= i64::MAX,
        ;
        assert((a.numer as int) * (b.denom as int) >= i64::MIN * i64::MAX) by (nonlinear_arith)
            requires
                i64::MIN <= a.numer <= i64::MAX,
                0 < b.denom <= i64::MAX,
        ;
        assert((b.numer as int) * (a.denom as int) <= i64::MAX * i64::MAX) by (nonlinear_arith)
            requires
                i64::MIN <= b.numer <= i64::MAX,
                0 < a.denom <= i64::MAX,
        ;
        assert((b.numer as int) * (a.denom as int) >= i64::MIN * i64::MAX) by (nonlinear_arith)
            requires
                i64::MIN <= b.numer <= i64::MAX,
                0 < a.denom <= i64::MAX,
        ;
        assert((a.denom as int) * (b.denom as int) <= i64::MAX * i64::MAX) by (nonlinear_arith)
            requires
                0 < a.denom <= i64::MAX,
                0 < b.denom <= i64::MAX,
        ;
        assert((a.denom as int) * (b.denom as int) > 0) by (nonlinear_arith)
            requires
                0 < a.denom,
                0 < b.denom,
        ;
    }
    let n = (a.numer as i128) * (b.denom as i128) + (b.numer as i128) * (a.denom as i128);
    let d = (a.denom as i128) * (b.denom as i128);
    proof {
        assert(n as int == a.numer * b.denom + b.numer * a.denom);
        assert(d as int == a.denom * b.denom);
    }
    let r = rational_new_wide(n, d);
    proof {
        lemma_positive_denominator(d as int);
    }
    r
}

/// A rational with a positive denominator.
pub open spec fn valid(r: Rational) -> bool {
    r.denom > 0
}

/// The rational `r` has the value `n / d`.
pub open spec fn has_value(r: Rational, n: int, d: int) -> bool {
    r.numer * d == n * r.denom
}

/// A rational in lowest terms of `n / d` has the value `n / d`, and is zero
/// exactly when `n` is.
pub proof fn lemma_normalized_value(r: Rational, n: int, d: int)
    requires
        d != 0,
        is_normalized_of(r, n, d),
    ensures
        has_value(r, n, d),
        r.numer == 0 <==> n == 0,
{
    lemma_gcd_divides(abs(n) as nat, abs(d) as nat);
    let g = gcd(abs(n) as nat, abs(d) as nat) as int;
    lemma_exact_div(n, g);
    lemma_exact_div(d, g);
    if d < 0 {
        let a = -n / g;
        let b = -d / g;
        assert(a * d == n * b) by (nonlinear_arith)
            requires
                -n == a * g,
                -d == b * g,
        ;
        assert(a == 0 <==> n == 0) by (nonlinear_arith)
            requires
                -n == a * g,
                g > 0,
        ;
    } else {
        let a = n / g;
        let b = d / g;
        assert(a * d == n * b) by (nonlinear_arith)
            requires
                n == a * g,
                d == b * g,
        ;
        assert(a == 0 <==> n == 0) by (nonlinear_arith)
            requires
                n == a * g,
                g > 0,
        ;
    }
}

proof fn lemma_product_bounds(x: i64, y: i64)
    ensures
        -0x4000_0000_0000_0000_0000_0000_0000_0000 <= (x as int) * (y as int) <= 0x4000_0000_0000_0000_0000_0000_0000_0000,
        y > 0 ==> i64::MIN * i64::MAX <= (x as int) * (y as int) <= i64::MAX * i64::MAX,
{
    assert(-0x4000_0000_0000_0000_0000_0000_0000_0000 <= (x as int) * (y as int) <= 0x4000_0000_0000_0000_0000_0000_0000_0000)
        by (nonlinear_arith)
        requires
            -0x8000_0000_0000_0000 <= x <= 0x7fff_ffff_ffff_ffff,
            -0x8000_0000_0000_0000 <= y <= 0x7fff_ffff_ffff_ffff,
    ;
    if y > 0 {
        assert(i64::MIN * i64::MAX <= (x as int) * (y as int) <= i64::MAX * i64::MAX) by (nonlinear_arith)
            requires
                i64::MIN <= x <= i64::MAX,
                0 < y <= i64::MAX,
        ;
    }
}

/// `a * b` in lowest terms, or `None` when that leaves `i64`.
pub fn rational_mul(a: Rational, b: Rational) -> (r: Option<Rational>)
    requires
        a.denom > 0,
        b.denom > 0,
    ensures
        r == lowest(a.numer * b.numer, a.denom * b.denom),
        r matches Some(q) ==> is_normalized_of(q, a.numer * b.numer, a.denom * b.denom) && q.denom > 0,
        r is None ==> {
            let (x, y) = normalize_spec(a.numer * b.numer, a.denom * b.denom);
            !(i64::MIN <= x <= i64::MAX && i64::MIN <= y <= i64::MAX)
        },
{
    proof {
        lemma_product_bounds(a.numer, b.numer);
        lemma_product_bounds(a.denom, b.denom);
        assert((a.denom as int) * (b.denom as int) > 0) by (nonlinear_arith)
            requires
                0 < a.denom,
                0 < b.denom,
        ;
    }
    let n = (a.numer as i128) * (b.numer as i128);
    let d = (a.denom as i128) * (b.denom as i128);
    proof {
        assert(n as int == a.numer * b.numer);
        assert(d as int == a.denom * b.denom);
    }
    let r = rational_new_wide(n, d);
    proof {
        lemma_positive_denominator(d as int);
        if let Some(q) = r {
            assert(is_normalized_of(q, n as int, d as int));
            assert(normalize_spec(n as int, d as int).1 > 0);
        }
    }
    r
}

/// `a - b` in lowest terms, or `None` when that leaves `i64`.
pub fn rational_sub(a: Rational, b: Rational) -> (r: Option<Rational>)
    requires
        a.denom > 0,
        b.denom > 0,
    ensures
        r == lowest(a.numer * b.denom - b.numer * a.denom, a.denom * b.denom),
        r matches Some(q) ==> is_normalized_of(q, a.numer * b.denom - b.numer * a.denom, a.denom * b.denom) && q.denom > 0,
        r is None ==> {
            let (x, y) = normalize_spec(a.numer * b.denom - b.numer * a.denom, a.denom * b.denom);
            !(i64::MIN <= x <= i64::MAX && i64::MIN <= y <= i64::MAX)
        },
{
    proof {
        lemma_product_bounds(a.numer, b.denom);
        lemma_product_bounds(b.numer, a.denom);
        lemma_product_bounds(a.denom, b.denom);
        assert((a.denom as int) * (b.denom as int) > 0) by (nonlinear_arith)
            requires
                0 < a.denom,
                0 < b.denom,
        ;
    }
    let n = (a.numer as i128) * (b.denom as i128) - (b.numer as i128) * (a.denom as i128);
    let d = (a.denom as i128) * (b.denom as i128);
    proof {
        assert(n as int == a.numer * b.denom - b.numer * a.denom);
        assert(d as int == a.denom * b.denom);
    }
    let r = rational_new_wide(n, d);
    proof {
        lemma_positive_denominator(d as int);
    }
    r
}

/// `-a` in lowest terms, or `None` when that leaves `i64`.
pub fn rational_neg(a: Rational) -> (r: Option<Rational>)
    requires
        a.denom > 0,
    ensures
        r == lowest(-a.numer, a.denom as int),
        r matches Some(q) ==> is_normalized_of(q, -a.numer, a.denom as int) && q.denom > 0,
        r is None ==> {
            let (x, y) = normalize_spec(-a.numer, a.denom as int);
            !(i64::MIN <= x <= i64::MAX && i64::MIN <= y <= i64::MAX)
        },
{
    let n = -(a.numer as i128);
    let d = a.denom as i128;
    let r = rational_new_wide(n, d);
    proof {
        lemma_positive_denominator(d as int);
    }
    r
}

/// `a / b` in lowest terms, or `None` when that leaves `i64`.
pub fn rational_div(a: Rational, b: Rational) -> (r: Option<Rational>)
    requires
        a.denom > 0,
        b.denom > 0,
        b.numer != 0,
    ensures
        r == lowest(a.numer * b.denom, a.denom * b.numer),
        r matches Some(q) ==> is_normalized_of(q, a.numer * b.denom, a.denom * b.numer) && q.denom > 0,
        r is None ==> {
            let (x, y) = normalize_spec(a.numer * b.denom, a.denom * b.numer);
            !(i64::MIN <= x <= i64::MAX && i64::MIN <= y <= i64::MAX)
        },
{
    proof {
        lemma_product_bounds(a.numer, b.denom);
        lemma_product_bounds(a.denom, b.numer);
        assert((a.denom as int) * (b.numer as int) != 0) by (nonlinear_arith)
            requires
                0 < a.denom,
                b.numer != 0,
        ;
    }
    let n = (a.numer as i128) * (b.denom as i128);
    let d = (a.denom as i128) * (b.numer as i128);
    proof {
        assert(n as int == a.numer * b.denom);
        assert(d as int == a.denom * b.numer);
    }
    let r = rational_new_wide(n, d);
    proof {
        lemma_positive_denominator(d as int);
        if let Some(q) = r {
            assert(is_normalized_of(q, n as int, d as int));
            assert(normalize_spec(n as int, d as int).1 > 0);
        }
    }
    r
}

} // verus!
