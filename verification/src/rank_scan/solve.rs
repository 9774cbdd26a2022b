//! Linear recurrences with rational coefficients: finding one from a kernel
//! vector of a Hankel window, checking it against a sequence, and predicting
//! the next term with it.
use crate::kze2::linalg::swap_entries;
use crate::rank_scan::normalize::{mode_factor, mode_factor_exec, NormalizeMode};
use crate::rank_scan::Rational;
use crate::rational::{
    lowest, has_value, is_normalized_of, lemma_normalized_value, rational_add, rational_div, rational_mul, rational_neg,
    rational_sub,
};
use vstd::prelude::*;

verus! {

/// A recurrence `sum_{k <= order} coeffs[k] * a(n + k) = 0`.
#[derive(Clone, Debug)]
pub struct RecurrenceCandidate {
    pub order: usize,
    pub coeffs: Vec<Rational>,
}

/// Every rational has a positive denominator.
pub open spec fn all_valid(s: Seq<Rational>) -> bool {
    forall|i: int| 0 <= i < s.len() ==> (#[trigger] s[i]).denom > 0
}

/// The fraction `a + b`.
pub open spec fn fadd(a: (int, int), b: (int, int)) -> (int, int) {
    (a.0 * b.1 + b.0 * a.1, a.1 * b.1)
}

/// The fraction `a * b`.
pub open spec fn fmul(a: (int, int), b: (int, int)) -> (int, int) {
    (a.0 * b.0, a.1 * b.1)
}

/// The fraction of a rational.
pub open spec fn frac(r: Rational) -> (int, int) {
    (r.numer as int, r.denom as int)
}

/// `sum_{j < k} coeffs[j] * values[n + j]`, as a fraction.
pub open spec fn window_sum(coeffs: Seq<Rational>, values: Seq<Rational>, n: int, k: int) -> (int, int)
    decreases k,
{
    if k <= 0 {
        (0, 1)
    } else {
        fadd(window_sum(coeffs, values, n, k - 1), fmul(frac(coeffs[k - 1]), frac(values[n + k - 1])))
    }
}

/// The recurrence of the given order holds at every place of the sequence.
pub open spec fn recurrence_holds(coeffs: Seq<Rational>, values: Seq<Rational>, order: int) -> bool {
    forall|n: int| 0 <= n < values.len() - order ==> (#[trigger] window_sum(coeffs, values, n, order + 1)).0 == 0
}

/// The last place below `k` that holds a nonzero value, or -1.
pub open spec fn last_nonzero(values: Seq<Rational>, k: int) -> int
    decreases k,
{
    if k <= 0 {
        -1
    } else if values[k - 1].numer != 0 {
        k - 1
    } else {
        last_nonzero(values, k - 1)
    }
}

proof fn lemma_window_den(coeffs: Seq<Rational>, values: Seq<Rational>, n: int, k: int)
    requires
        all_valid(coeffs),
        all_valid(values),
        0 <= n,
        k <= coeffs.len(),
        n + k <= values.len(),
    ensures
        window_sum(coeffs, values, n, k).1 > 0,
    decreases k,
{
    if k > 0 {
        lemma_window_den(coeffs, values, n, k - 1);
        let w = window_sum(coeffs, values, n, k - 1);
        let c = coeffs[k - 1];
        let v = values[n + k - 1];
        assert(w.1 * (c.denom * v.denom) > 0) by (nonlinear_arith)
            requires
                w.1 > 0,
                c.denom > 0,
                v.denom > 0,
        ;
    }
}

proof fn lemma_cancel(a: int, b: int, m: int)
    requires
        m != 0,
        a * m == b * m,
    ensures
        a == b,
{
    assert((a - b) * m == 0) by (nonlinear_arith)
        requires
            a * m == b * m,
    ;
    vstd::arithmetic::mul::lemma_mul_is_commutative(a - b, m);
    if a - b != 0 {
        vstd::arithmetic::mul::lemma_mul_nonzero(a - b, m);
    }
}

/// A rational with the value of `x` plus one with the value of `y` has the
/// value of `x + y`.
proof fn lemma_add_value(z: Rational, p: Rational, q: Rational, x: (int, int), y: (int, int))
    requires
        p.denom > 0,
        q.denom > 0,
        has_value(p, x.0, x.1),
        has_value(q, y.0, y.1),
        has_value(z, p.numer * q.denom + q.numer * p.denom, p.denom * q.denom),
    ensures
        has_value(z, fadd(x, y).0, fadd(x, y).1),
{
    let (pn, pd, qn, qd) = (p.numer as int, p.denom as int, q.numer as int, q.denom as int);
    let (zn, zd) = (z.numer as int, z.denom as int);
    let (x0, x1, y0, y1) = (x.0, x.1, y.0, y.1);
    let m = pd * qd;
    let u = pn * x1;
    let w = qn * y1;
    assert((pn * qd) * (x1 * y1) == (pn * x1) * (qd * y1)) by (nonlinear_arith);
    assert((qn * pd) * (x1 * y1) == (qn * y1) * (pd * x1)) by (nonlinear_arith);
    assert((pn * qd + qn * pd) * (x1 * y1) == (pn * qd) * (x1 * y1) + (qn * pd) * (x1 * y1)) by (nonlinear_arith);
    assert(u * (qd * y1) + w * (pd * x1) == (x0 * pd) * (qd * y1) + (y0 * qd) * (pd * x1)) by {
        assert(u == x0 * pd);
        assert(w == y0 * qd);
    }
    assert((x0 * pd) * (qd * y1) == (x0 * y1) * (pd * qd)) by (nonlinear_arith);
    assert((y0 * qd) * (pd * x1) == (y0 * x1) * (pd * qd)) by (nonlinear_arith);
    assert((x0 * y1 + y0 * x1) * m == (x0 * y1) * m + (y0 * x1) * m) by (nonlinear_arith);
    assert((zn * (x1 * y1)) * m == ((x0 * y1 + y0 * x1) * zd) * m) by (nonlinear_arith)
        requires
            zn * m == (pn * qd + qn * pd) * zd,
            (pn * qd + qn * pd) * (x1 * y1) == (x0 * y1 + y0 * x1) * m,
    ;
    assert(m > 0) by (nonlinear_arith)
        requires
            m == pd * qd,
            pd > 0,
            qd > 0,
    ;
    lemma_cancel(zn * (x1 * y1), (x0 * y1 + y0 * x1) * zd, m);
}

/// A rational with the value of `x` times one with the value of `y` has the
/// value of `x * y`.
proof fn lemma_mul_value(z: Rational, p: Rational, q: Rational, x: (int, int), y: (int, int))
    requires
        p.denom > 0,
        q.denom > 0,
        has_value(p, x.0, x.1),
        has_value(q, y.0, y.1),
        has_value(z, p.numer * q.numer, p.denom * q.denom),
    ensures
        has_value(z, fmul(x, y).0, fmul(x, y).1),
{
    let (pn, pd, qn, qd) = (p.numer as int, p.denom as int, q.numer as int, q.denom as int);
    let (zn, zd) = (z.numer as int, z.denom as int);
    let (x0, x1, y0, y1) = (x.0, x.1, y.0, y.1);
    let m = pd * qd;
    let u = pn * x1;
    let w = qn * y1;
    assert((pn * qn) * (x1 * y1) == u * w) by (nonlinear_arith)
        requires
            u == pn * x1,
            w == qn * y1,
    ;
    assert(u * w == (x0 * pd) * (y0 * qd)) by {
        assert(u == x0 * pd);
        assert(w == y0 * qd);
    }
    assert((x0 * pd) * (y0 * qd) == (x0 * y0) * m) by (nonlinear_arith)
        requires
            m == pd * qd,
    ;
    assert((zn * (x1 * y1)) * m == ((x0 * y0) * zd) * m) by (nonlinear_arith)
        requires
            zn * m == (pn * qn) * zd,
            (pn * qn) * (x1 * y1) == (x0 * y0) * m,
    ;
    assert(m > 0) by (nonlinear_arith)
        requires
            m == pd * qd,
            pd > 0,
            qd > 0,
    ;
    lemma_cancel(zn * (x1 * y1), (x0 * y0) * zd, m);
}

/// `a * b` in lowest terms, or `None` when it leaves `i64`.
pub open spec fn mul_rat(a: Rational, b: Rational) -> Option<Rational> {
    lowest(a.numer * b.numer, a.denom * b.denom)
}

/// `a + b` in lowest terms, or `None` when it leaves `i64`.
pub open spec fn add_rat(a: Rational, b: Rational) -> Option<Rational> {
    lowest(a.numer * b.denom + b.numer * a.denom, a.denom * b.denom)
}

/// `a - b` in lowest terms, or `None` when it leaves `i64`.
pub open spec fn sub_rat(a: Rational, b: Rational) -> Option<Rational> {
    lowest(a.numer * b.denom - b.numer * a.denom, a.denom * b.denom)
}

/// `a / b` in lowest terms, or `None` when it leaves `i64`.
pub open spec fn div_rat(a: Rational, b: Rational) -> Option<Rational> {
    lowest(a.numer * b.denom, a.denom * b.numer)
}

/// The partial sum `sum_{j < k} coeffs[j] * values[start + j]` as it is
/// accumulated in `i64` rationals, each product and each sum in lowest
/// terms; `None` once a step leaves `i64`.
pub open spec fn window_rat(coeffs: Seq<Rational>, values: Seq<Rational>, start: int, k: int) -> Option<Rational>
    decreases k,
{
    if k <= 0 {
        Some(Rational { numer: 0, denom: 1 })
    } else {
        match window_rat(coeffs, values, start, k - 1) {
            Some(sum) => match mul_rat(coeffs[k - 1], values[start + k - 1]) {
                Some(p) => add_rat(sum, p),
                None => None,
            },
            None => None,
        }
    }
}

/// Once a partial sum leaves `i64`, every later one does.
proof fn lemma_window_none(coeffs: Seq<Rational>, values: Seq<Rational>, start: int, j: int, k: int)
    requires
        0 <= j <= k,
        window_rat(coeffs, values, start, j) is None,
    ensures
        window_rat(coeffs, values, start, k) is None,
    decreases k - j,
{
    if j < k {
        lemma_window_none(coeffs, values, start, j + 1, k);
    }
}

/// `sum_{j < k} coeffs[j] * values[start + j]` as a rational in lowest
/// terms, or `None` when a partial sum leaves `i64`.
fn window_value(coeffs: &Vec<Rational>, values: &[Rational], start: usize, k: usize) -> (r: Option<Rational>)
    requires
        all_valid(coeffs@),
        all_valid(values@),
        k <= coeffs@.len(),
        start + k <= values@.len(),
    ensures
        r == window_rat(coeffs@, values@, start as int, k as int),
        r matches Some(s) ==> s.denom > 0 && has_value(
            s,
            window_sum(coeffs@, values@, start as int, k as int).0,
            window_sum(coeffs@, values@, start as int, k as int).1,
        ),
{
    let vlen = values.len();
    let mut sum = Rational { numer: 0, denom: 1 };
    let mut j: usize = 0;
    while j < k
        invariant
            vlen == values@.len(),
            all_valid(coeffs@),
            all_valid(values@),
            k <= coeffs@.len(),
            start + k <= values@.len(),
            j <= k,
            sum.denom > 0,
            window_rat(coeffs@, values@, start as int, j as int) == Some(sum),
            has_value(
                sum,
                window_sum(coeffs@, values@, start as int, j as int).0,
                window_sum(coeffs@, values@, start as int, j as int).1,
            ),
        decreases k - j,
    {
        let c = coeffs[j];
        let v = values[start + j];
        proof {
            assert(c.denom > 0 && v.denom > 0);
        }
        let prod = match rational_mul(c, v) {
            Some(x) => x,
            None => {
                proof {
                    lemma_window_none(coeffs@, values@, start as int, j + 1, k as int);
                }
                return None;
            },
        };
        let next = match rational_add(sum, prod) {
            Some(x) => x,
            None => {
                proof {
                    lemma_window_none(coeffs@, values@, start as int, j + 1, k as int);
                }
                return None;
            },
        };
        proof {
            lemma_window_den(coeffs@, values@, start as int, j as int);
            let w = window_sum(coeffs@, values@, start as int, j as int);
            assert(c.denom * v.denom > 0) by (nonlinear_arith)
                requires
                    c.denom > 0,
                    v.denom > 0,
            ;
            assert(sum.denom * prod.denom > 0) by (nonlinear_arith)
                requires
                    sum.denom > 0,
                    prod.denom > 0,
            ;
            lemma_normalized_value(prod, c.numer * v.numer, c.denom * v.denom);
            lemma_normalized_value(next, sum.numer * prod.denom + prod.numer * sum.denom, sum.denom * prod.denom);
            assert(has_value(c, frac(c).0, frac(c).1));
            assert(has_value(v, frac(v).0, frac(v).1));
            lemma_mul_value(prod, c, v, frac(c), frac(v));
            lemma_add_value(next, sum, prod, w, fmul(frac(c), frac(v)));
            assert(window_sum(coeffs@, values@, start as int, j + 1) == fadd(w, fmul(frac(c), frac(v))));
        }
        sum = next;
        j += 1;
    }
    Some(sum)
}

/// The window at `n` sums to zero as computed in `i64` rationals.
pub open spec fn window_checks(coeffs: Seq<Rational>, values: Seq<Rational>, n: int, order: int) -> bool {
    window_rat(coeffs, values, n, order + 1) matches Some(s) && s.numer == 0
}

/// Whether the recurrence holds at every place of the sequence where all its
/// terms are known. A partial sum that leaves `i64` counts as a failure.
pub fn verify_recurrence(values: &[Rational], recurrence: &RecurrenceCandidate) -> (r: bool)
    requires
        all_valid(values@),
        all_valid(recurrence.coeffs@),
        recurrence.order > 0 && values@.len() > recurrence.order ==> recurrence.coeffs@.len() > recurrence.order,
    ensures
        r ==> recurrence.order > 0 && values@.len() > recurrence.order && recurrence_holds(
            recurrence.coeffs@,
            values@,
            recurrence.order as int,
        ),
        (recurrence.order == 0 || values@.len() <= recurrence.order) ==> !r,
        r == (recurrence.order > 0 && values@.len() > recurrence.order && forall|n: int|
            0 <= n < values@.len() - recurrence.order ==> #[trigger] window_checks(
                recurrence.coeffs@,
                values@,
                n,
                recurrence.order as int,
            )),
{
    let order = recurrence.order;
    if order == 0 || values.len() <= order {
        return false;
    }
    let vlen = values.len();
    let limit = vlen - order;
    let mut n: usize = 0;
    while n < limit
        invariant
            vlen == values@.len(),
            all_valid(values@),
            all_valid(recurrence.coeffs@),
            order == recurrence.order,
            recurrence.coeffs@.len() > order,
            limit == values@.len() - order,
            values@.len() > order,
            n <= limit,
            forall|t: int| 0 <= t < n ==> (#[trigger] window_sum(recurrence.coeffs@, values@, t, order + 1)).0 == 0,
            forall|t: int| 0 <= t < n ==> #[trigger] window_checks(recurrence.coeffs@, values@, t, order as int),
        decreases limit - n,
    {
        match window_value(&recurrence.coeffs, values, n, order + 1) {
            Some(sum) => {
                if sum.numer != 0 {
                    proof {
                        assert(!window_checks(recurrence.coeffs@, values@, n as int, order as int));
                    }
                    return false;
                }
                proof {
                    lemma_window_den(recurrence.coeffs@, values@, n as int, order + 1);
                    let w = window_sum(recurrence.coeffs@, values@, n as int, order + 1);
                    assert(sum.numer * w.1 == w.0 * sum.denom);
                    assert(sum.numer * w.1 == 0) by (nonlinear_arith)
                        requires
                            sum.numer == 0,
                    ;
                    assert(w.0 == 0) by (nonlinear_arith)
                        requires
                            w.0 * sum.denom == 0,
                            sum.denom > 0,
                    ;
                }
            },
            None => {
                proof {
                    assert(!window_checks(recurrence.coeffs@, values@, n as int, order as int));
                }
                return false;
            },
        }
        proof {
            assert(window_checks(recurrence.coeffs@, values@, n as int, order as int));
        }
        n += 1;
    }
    true
}

/// The term after the sequence that the recurrence gives:
/// `-sum_{k < order} coeffs[k] * a(len - order + k)`, taking the last
/// coefficient as 1; `None` for order 0, a sequence shorter than the order,
/// or a partial sum that leaves `i64`.
pub fn predict_next_value(values: &[Rational], recurrence: &RecurrenceCandidate) -> (r: Option<Rational>)
    requires
        all_valid(values@),
        all_valid(recurrence.coeffs@),
        recurrence.order > 0 && values@.len() >= recurrence.order ==> recurrence.coeffs@.len() >= recurrence.order,
    ensures
        (recurrence.order == 0 || values@.len() < recurrence.order) ==> r is None,
        (recurrence.order > 0 && values@.len() >= recurrence.order) ==> r == match window_rat(
            recurrence.coeffs@,
            values@,
            values@.len() - recurrence.order,
            recurrence.order as int,
        ) {
            Some(s) => lowest(-s.numer, s.denom as int),
            None => None,
        },
        r matches Some(x) ==> x.denom > 0 && has_value(
            x,
            -window_sum(
                recurrence.coeffs@,
                values@,
                values@.len() - recurrence.order,
                recurrence.order as int,
            ).0,
            window_sum(recurrence.coeffs@, values@, values@.len() - recurrence.order, recurrence.order as int).1,
        ),
{
    let order = recurrence.order;
    if order == 0 || values.len() < order {
        return None;
    }
    let start = values.len() - order;
    let sum = match window_value(&recurrence.coeffs, values, start, order) {
        Some(s) => s,
        None => {
            return None;
        },
    };
    let neg = rational_neg(sum);
    proof {
        if let Some(x) = neg {
            lemma_normalized_value(x, -sum.numer, sum.denom as int);
            let w = window_sum(recurrence.coeffs@, values@, start as int, order as int);
            assert(x.numer * w.1 == -w.0 * x.denom) by (nonlinear_arith)
                requires
                    x.numer * sum.denom == -sum.numer * x.denom,
                    sum.numer * w.1 == w.0 * sum.denom,
                    sum.denom > 0,
            ;
        }
    }
    neg
}

/// The place of the last nonzero value, if any.
pub fn last_nonzero_index(values: &[Rational]) -> (r: Option<usize>)
    ensures
        match r {
            Some(i) => last_nonzero(values@, values@.len() as int) == i as int && i < values@.len(),
            None => last_nonzero(values@, values@.len() as int) < 0,
        },
{
    let mut k: usize = values.len();
    while k > 0
        invariant
            k <= values@.len(),
            last_nonzero(values@, values@.len() as int) == last_nonzero(values@, k as int),
        decreases k,
    {
        if values[k - 1].numer != 0 {
            return Some(k - 1);
        }
        k -= 1;
    }
    None
}

proof fn lemma_last_nonzero_bounds(values: Seq<Rational>, k: int)
    requires
        0 <= k <= values.len(),
    ensures
        -1 <= last_nonzero(values, k) < k,
        last_nonzero(values, k) >= 0 ==> values[last_nonzero(values, k)].numer != 0,
    decreases k,
{
    if k > 0 {
        lemma_last_nonzero_bounds(values, k - 1);
    }
}

/// `value * inv` for each of `values[..=last]`, or `None` when a product
/// leaves `i64`.
fn scale_prefix(values: &[Rational], last: usize, inv: Rational) -> (r: Option<Vec<Rational>>)
    requires
        all_valid(values@),
        last < values@.len(),
        inv.denom > 0,
    ensures
        r matches Some(out) ==> out@.len() == last + 1 && all_valid(out@) && (forall|k: int|
            0 <= k <= last ==> #[trigger] has_value(
                out@[k],
                values@[k].numer * inv.numer,
                values@[k].denom * inv.denom,
            )) && forall|k: int|
            0 <= k <= last ==> #[trigger] is_normalized_of(
                out@[k],
                values@[k].numer * inv.numer,
                values@[k].denom * inv.denom,
            ),
        r is Some <==> forall|k: int| 0 <= k <= last ==> #[trigger] mul_rat(values@[k], inv) is Some,
        r matches Some(out) ==> forall|k: int| 0 <= k <= last ==> #[trigger] mul_rat(values@[k], inv) == Some(out@[k]),
{
    let mut out: Vec<Rational> = Vec::new();
    let mut k: usize = 0;
    while k <= last
        invariant
            all_valid(values@),
            last < values@.len(),
            inv.denom > 0,
            k <= last + 1,
            out@.len() == k,
            all_valid(out@),
            forall|t: int|
                0 <= t < k ==> #[trigger] has_value(out@[t], values@[t].numer * inv.numer, values@[t].denom * inv.denom),
            forall|t: int|
                0 <= t < k ==> #[trigger] is_normalized_of(out@[t], values@[t].numer * inv.numer, values@[t].denom * inv.denom),
            forall|t: int| 0 <= t < k ==> #[trigger] mul_rat(values@[t], inv) == Some(out@[t]),
        decreases last + 1 - k,
    {
        let v = values[k];
        proof {
            assert(v.denom > 0);
        }
        match rational_mul(v, inv) {
            Some(x) => {
                proof {
                    assert(v.denom * inv.denom > 0) by (nonlinear_arith)
                        requires
                            v.denom > 0,
                            inv.denom > 0,
                    ;
                    lemma_normalized_value(x, v.numer * inv.numer, v.denom * inv.denom);
                }
                out.push(x);
            },
            None => {
                proof {
                    assert(mul_rat(values@[k as int], inv) is None);
                }
                return None;
            },
        }
        k += 1;
    }
    Some(out)
}

/// The coefficients up to the last nonzero one, each multiplied by the
/// inverse of that one, as computed in `i64` rationals; `None` when all are
/// zero or a step leaves `i64`.
pub open spec fn norm_rat(values: Seq<Rational>) -> Option<Seq<Rational>> {
    let l = last_nonzero(values, values.len() as int);
    if l < 0 {
        None
    } else {
        match div_rat(Rational { numer: 1, denom: 1 }, values[l]) {
            Some(inv) => if forall|k: int| 0 <= k <= l ==> #[trigger] mul_rat(values[k], inv) is Some {
                Some(Seq::new((l + 1) as nat, |k: int| mul_rat(values[k], inv)->0))
            } else {
                None
            },
            None => None,
        }
    }
}

/// The coefficients up to the last nonzero one, divided by it; `None` when
/// all are zero or a quotient leaves `i64`.
pub fn normalize_recurrence(values: &[Rational]) -> (r: Option<Vec<Rational>>)
    requires
        all_valid(values@),
    ensures
        last_nonzero(values@, values@.len() as int) < 0 ==> r is None,
        match norm_rat(values@) {
            Some(s) => r matches Some(out) && out@ == s,
            None => r is None,
        },
        r matches Some(out) ==> {
            let l = last_nonzero(values@, values@.len() as int);
            &&& 0 <= l < values@.len()
            &&& out@.len() == l + 1
            &&& all_valid(out@)
            &&& forall|k: int|
                0 <= k <= l ==> #[trigger] has_value(
                    out@[k],
                    values@[k].numer * values@[l].denom,
                    values@[k].denom * values@[l].numer,
                )
        },
{
    let last = match last_nonzero_index(values) {
        Some(i) => i,
        None => {
            return None;
        },
    };
    let scale = values[last];
    proof {
        lemma_last_nonzero_bounds(values@, values@.len() as int);
    }
    if scale.numer == 0 {
        return None;
    }
    proof {
        assert(scale.denom > 0);
    }
    let one = Rational { numer: 1, denom: 1 };
    let inv = match rational_div(one, scale) {
        Some(x) => x,
        None => {
            return None;
        },
    };
    proof {
        assert(div_rat(one, values@[last as int]) == Some(inv));
        assert(1 * scale.denom == scale.denom);
        assert(one.denom * scale.numer == scale.numer);
        lemma_normalized_value(inv, scale.denom as int, scale.numer as int);
    }
    let out = scale_prefix(values, last, inv);
    proof {
        if let Some(o) = &out {
            assert forall|k: int| 0 <= k <= last implies #[trigger] has_value(
                o@[k],
                values@[k].numer * values@[last as int].denom,
                values@[k].denom * values@[last as int].numer,
            ) by {
                let v = values@[k];
                let x = o@[k];
                assert(has_value(o@[k], values@[k].numer * inv.numer, values@[k].denom * inv.denom));
                assert(v.denom > 0);
                let (xn, xd, vn, vd, sn, sd, inn, ind) = (
                    x.numer as int,
                    x.denom as int,
                    v.numer as int,
                    v.denom as int,
                    scale.numer as int,
                    scale.denom as int,
                    inv.numer as int,
                    inv.denom as int,
                );
                assert((xn * (vd * sn)) * ind == (xn * (vd * ind)) * sn) by (nonlinear_arith);
                assert((xn * (vd * ind)) * sn == ((vn * inn) * xd) * sn);
                assert(((vn * inn) * xd) * sn == (vn * xd) * (inn * sn)) by (nonlinear_arith);
                assert((vn * xd) * (inn * sn) == (vn * xd) * (sd * ind));
                assert((vn * xd) * (sd * ind) == ((vn * sd) * xd) * ind) by (nonlinear_arith);
                lemma_cancel(xn * (vd * sn), (vn * sd) * xd, ind);
            }
            let l = last as int;
            assert(o@ =~= Seq::new((l + 1) as nat, |k: int| mul_rat(values@[k], inv)->0));
        }
    }
    out
}

/// Whether two recurrences have the same order and the same coefficients
/// once each is divided by its last nonzero coefficient.
pub fn equivalent_recurrence(a: &RecurrenceCandidate, b: &RecurrenceCandidate) -> (r: bool)
    requires
        all_valid(a.coeffs@),
        all_valid(b.coeffs@),
    ensures
        r ==> a.order == b.order,
        r ==> {
            let la = last_nonzero(a.coeffs@, a.coeffs@.len() as int);
            let lb = last_nonzero(b.coeffs@, b.coeffs@.len() as int);
            &&& la == lb
            &&& 0 <= la
            &&& forall|k: int|
                0 <= k <= la ==> #[trigger] same_ratio(a.coeffs@[k], a.coeffs@[la], b.coeffs@[k], b.coeffs@[lb])
        },
        a.order != b.order ==> !r,
        r == (a.order == b.order && norm_rat(a.coeffs@) is Some && norm_rat(b.coeffs@) is Some && norm_rat(a.coeffs@)->0
            == norm_rat(b.coeffs@)->0),
{
    if a.order != b.order {
        return false;
    }
    let norm_a = match normalize_recurrence(a.coeffs.as_slice()) {
        Some(v) => v,
        None => {
            return false;
        },
    };
    let norm_b = match normalize_recurrence(b.coeffs.as_slice()) {
        Some(v) => v,
        None => {
            return false;
        },
    };
    if norm_a.len() != norm_b.len() {
        proof {
            assert(norm_a@ != norm_b@);
        }
        return false;
    }
    let mut k: usize = 0;
    while k < norm_a.len()
        invariant
            k <= norm_a@.len(),
            norm_a@.len() == norm_b@.len(),
            a.order == b.order,
            norm_rat(a.coeffs@) == Some(norm_a@),
            norm_rat(b.coeffs@) == Some(norm_b@),
            forall|t: int| 0 <= t < k ==> norm_a@[t] == norm_b@[t],
        decreases norm_a@.len() - k,
    {
        if norm_a[k].numer != norm_b[k].numer || norm_a[k].denom != norm_b[k].denom {
            proof {
                assert(norm_a@[k as int] != norm_b@[k as int]);
                assert(norm_a@ != norm_b@);
            }
            return false;
        }
        k += 1;
    }
    proof {
        assert(norm_a@ =~= norm_b@);
        let la = last_nonzero(a.coeffs@, a.coeffs@.len() as int);
        assert forall|t: int| 0 <= t <= la implies #[trigger] same_ratio(
            a.coeffs@[t],
            a.coeffs@[la],
            b.coeffs@[t],
            b.coeffs@[la],
        ) by {
            let x = norm_a@[t];
            assert(norm_a@[t] == norm_b@[t]);
            let (p, sp, q, sq) = (a.coeffs@[t], a.coeffs@[la], b.coeffs@[t], b.coeffs@[la]);
            assert(has_value(x, p.numer * sp.denom, p.denom * sp.numer));
            assert(has_value(x, q.numer * sq.denom, q.denom * sq.numer));
            assert(x.denom > 0);
            assert((p.numer * sp.denom) * (q.denom * sq.numer) == (q.numer * sq.denom) * (p.denom * sp.numer))
                by (nonlinear_arith)
                requires
                    x.numer * (p.denom * sp.numer) == (p.numer * sp.denom) * x.denom,
                    x.numer * (q.denom * sq.numer) == (q.numer * sq.denom) * x.denom,
                    x.denom > 0,
            ;
        }
    }
    true
}

/// `p / sp` and `q / sq` are the same ratio.
pub open spec fn same_ratio(p: Rational, sp: Rational, q: Rational, sq: Rational) -> bool {
    (p.numer * sp.denom) * (q.denom * sq.numer) == (q.numer * sq.denom) * (p.denom * sp.numer)
}

/// Every row of the matrix has `cols` valid entries.
pub open spec fn valid_matrix(matrix: Seq<Vec<Rational>>, cols: int) -> bool {
    forall|r: int| 0 <= r < matrix.len() ==> (#[trigger] matrix[r])@.len() == cols && all_valid(matrix[r]@)
}

proof fn lemma_normalize_equal(a: int)
    requires
        a > 0,
    ensures
        crate::rational::normalize_spec(a, a) == (1int, 1int),
{
    assert(crate::modular::gcd(a as nat, 0) == a as nat);
    assert(a % a == 0) by {
        vstd::arithmetic::div_mod::lemma_mod_self_0(a);
    }
    assert(crate::modular::gcd(a as nat, a as nat) == crate::modular::gcd(a as nat, (a % a) as nat));
    vstd::arithmetic::div_mod::lemma_div_by_self(a);
}

/// Row `row` of the matrix divided, from column `col` on, by `pivot`; `None`
/// when a quotient leaves `i64`.
fn divide_row(row: &Vec<Rational>, col: usize, pivot: Rational) -> (r: Option<Vec<Rational>>)
    requires
        all_valid(row@),
        col <= row@.len(),
        pivot.denom > 0,
        pivot.numer != 0,
    ensures
        r matches Some(out) ==> out@.len() == row@.len() && all_valid(out@),
        r is Some <==> forall|c: int| col <= c < row@.len() ==> #[trigger] div_rat(row@[c], pivot) is Some,
        r matches Some(out) ==> forall|c: int|
            0 <= c < row@.len() ==> if c < col {
                #[trigger] out@[c] == row@[c]
            } else {
                div_rat(row@[c], pivot) == Some(out@[c])
            },
{
    let mut out: Vec<Rational> = Vec::new();
    let mut c: usize = 0;
    while c < row.len()
        invariant
            all_valid(row@),
            pivot.denom > 0,
            pivot.numer != 0,
            c <= row@.len(),
            out@.len() == c,
            all_valid(out@),
            forall|t: int| col <= t < c ==> #[trigger] div_rat(row@[t], pivot) is Some,
            forall|t: int|
                0 <= t < c ==> if t < col {
                    #[trigger] out@[t] == row@[t]
                } else {
                    div_rat(row@[t], pivot) == Some(out@[t])
                },
        decreases row@.len() - c,
    {
        if c < col {
            out.push(row[c]);
        } else {
            proof {
                assert(row@[c as int].denom > 0);
            }
            match rational_div(row[c], pivot) {
                Some(x) => out.push(x),
                None => {
                    proof {
                        assert(div_rat(row@[c as int], pivot) is None);
                    }
                    return None;
                },
            }
        }
        c += 1;
    }
    Some(out)
}

/// `target - factor * pivot` in lowest terms, or `None` when a step leaves
/// `i64`.
pub open spec fn sub_scaled_rat(target: Rational, factor: Rational, pivot: Rational) -> Option<Rational> {
    match mul_rat(factor, pivot) {
        Some(p) => sub_rat(target, p),
        None => None,
    }
}

/// Row `target` less `factor` times row `pivot`, from column `col` on;
/// `None` when an entry leaves `i64`.
fn subtract_scaled(target: &Vec<Rational>, pivot: &Vec<Rational>, factor: Rational, col: usize) -> (r: Option<
    Vec<Rational>,
>)
    requires
        all_valid(target@),
        all_valid(pivot@),
        target@.len() == pivot@.len(),
        factor.denom > 0,
    ensures
        r matches Some(out) ==> out@.len() == target@.len() && all_valid(out@),
        r is Some <==> forall|c: int|
            col <= c < target@.len() ==> #[trigger] sub_scaled_rat(target@[c], factor, pivot@[c]) is Some,
        r matches Some(out) ==> forall|c: int|
            0 <= c < target@.len() ==> if c < col {
                #[trigger] out@[c] == target@[c]
            } else {
                sub_scaled_rat(target@[c], factor, pivot@[c]) == Some(out@[c])
            },
{
    let mut out: Vec<Rational> = Vec::new();
    let mut c: usize = 0;
    while c < target.len()
        invariant
            all_valid(target@),
            all_valid(pivot@),
            target@.len() == pivot@.len(),
            factor.denom > 0,
            c <= target@.len(),
            out@.len() == c,
            all_valid(out@),
            forall|t: int| col <= t < c ==> #[trigger] sub_scaled_rat(target@[t], factor, pivot@[t]) is Some,
            forall|t: int|
                0 <= t < c ==> if t < col {
                    #[trigger] out@[t] == target@[t]
                } else {
                    sub_scaled_rat(target@[t], factor, pivot@[t]) == Some(out@[t])
                },
        decreases target@.len() - c,
    {
        if c < col {
            out.push(target[c]);
        } else {
            proof {
                assert(target@[c as int].denom > 0);
                assert(pivot@[c as int].denom > 0);
            }
            let prod = match rational_mul(factor, pivot[c]) {
                Some(x) => x,
                None => {
                    proof {
                        assert(sub_scaled_rat(target@[c as int], factor, pivot@[c as int]) is None);
                    }
                    return None;
                },
            };
            match rational_sub(target[c], prod) {
                Some(x) => out.push(x),
                None => {
                    proof {
                        assert(sub_scaled_rat(target@[c as int], factor, pivot@[c as int]) is None);
                    }
                    return None;
                },
            }
        }
        c += 1;
    }
    Some(out)
}

/// A nonzero vector in the kernel of the matrix, found by reducing it to row
/// echelon form: the last free column is set to 1 and the pivot columns are
/// solved for. `None` for a matrix without rows, one of full column rank, or
/// an entry that leaves `i64` on the way.
fn kernel_vector(matrix: Vec<Vec<Rational>>) -> (r: Option<Vec<Rational>>)
    requires
        matrix@.len() > 0 ==> valid_matrix(matrix@, matrix@[0]@.len() as int),
    ensures
        matrix@.len() == 0 ==> r is None,
        r matches Some(v) ==> v@.len() == matrix@[0]@.len() && all_valid(v@) && exists|f: int|
            0 <= f < v@.len() && #[trigger] v@[f] == (Rational { numer: 1, denom: 1 }),
{
    let mut matrix = matrix;
    let rows = matrix.len();
    if rows == 0 {
        return None;
    }
    let cols = matrix[0].len();
    let mut pivot_cols: Vec<usize> = Vec::new();
    let mut row: usize = 0;
    let mut col: usize = 0;
    while col < cols
        invariant
            rows == matrix@.len(),
            valid_matrix(matrix@, cols as int),
            row <= rows,
            col <= cols,
            pivot_cols@.len() == row,
            forall|t: int| 0 <= t < pivot_cols@.len() ==> #[trigger] pivot_cols@[t] < col,
        decreases cols - col,
    {
        if row >= rows {
            break;
        }
        let mut pivot: Option<usize> = None;
        let mut r: usize = row;
        while r < rows
            invariant
                rows == matrix@.len(),
                valid_matrix(matrix@, cols as int),
                row <= r <= rows,
                col < cols,
                pivot matches Some(p) ==> row <= p < rows,
            decreases rows - r,
        {
            if matrix[r][col].numer != 0 {
                pivot = Some(r);
                break;
            }
            r += 1;
        }
        let pivot_row = match pivot {
            Some(p) => p,
            None => {
                col += 1;
                continue;
            },
        };
        proof {
            assert(matrix@[pivot_row as int]@.len() == cols);
        }
        swap_entries(&mut matrix, row, pivot_row, Vec::new());
        proof {
            assert(valid_matrix(matrix@, cols as int)) by {
                assert forall|t: int| 0 <= t < matrix@.len() implies (#[trigger] matrix@[t])@.len() == cols && all_valid(
                    matrix@[t]@,
                ) by {}
            }
            assert(matrix@[row as int]@.len() == cols);
            assert(all_valid(matrix@[row as int]@));
        }
        let pivot_val = matrix[row][col];
        if pivot_val.numer == 0 {
            return None;
        }
        proof {
            assert(pivot_val.denom > 0);
        }
        let scaled = match divide_row(&matrix[row], col, pivot_val) {
            Some(x) => x,
            None => {
                return None;
            },
        };
        matrix.set(row, scaled);
        let snapshot = matrix[row].clone();
        proof {
            assert(snapshot@ == matrix@[row as int]@);
        }
        let mut t: usize = 0;
        while t < rows
            invariant
                rows == matrix@.len(),
                valid_matrix(matrix@, cols as int),
                row < rows,
                col < cols,
                snapshot@.len() == cols,
                all_valid(snapshot@),
                t <= rows,
            decreases rows - t,
        {
            if t != row {
                let factor = matrix[t][col];
                proof {
                    assert(matrix@[t as int]@.len() == cols);
                    assert(factor.denom > 0);
                }
                if factor.numer != 0 {
                    let updated = match subtract_scaled(&matrix[t], &snapshot, factor, col) {
                        Some(x) => x,
                        None => {
                            return None;
                        },
                    };
                    matrix.set(t, updated);
                }
            }
            t += 1;
        }
        pivot_cols.push(col);
        row += 1;
        col += 1;
    }
    let mut free_cols: Vec<usize> = Vec::new();
    let mut c: usize = 0;
    while c < cols
        invariant
            c <= cols,
            forall|t: int| 0 <= t < free_cols@.len() ==> #[trigger] free_cols@[t] < cols,
            forall|t: int, u: int|
                0 <= t < free_cols@.len() && 0 <= u < pivot_cols@.len() ==> #[trigger] free_cols@[t] != #[trigger] pivot_cols@[u],
        decreases cols - c,
    {
        let mut is_pivot = false;
        let mut k: usize = 0;
        while k < pivot_cols.len()
            invariant
                k <= pivot_cols@.len(),
                !is_pivot ==> forall|u: int| 0 <= u < k ==> #[trigger] pivot_cols@[u] != c,
            decreases pivot_cols@.len() - k,
        {
            if pivot_cols[k] == c {
                is_pivot = true;
            }
            k += 1;
        }
        if !is_pivot {
            free_cols.push(c);
        }
        c += 1;
    }
    if free_cols.len() == 0 {
        return None;
    }
    let free_col = free_cols[free_cols.len() - 1];
    proof {
        assert forall|u: int| 0 <= u < pivot_cols@.len() implies #[trigger] pivot_cols@[u] != free_col by {
            assert(free_cols@[free_cols@.len() - 1] != pivot_cols@[u]);
        }
    }
    let mut vec: Vec<Rational> = Vec::new();
    let mut c: usize = 0;
    while c < cols
        invariant
            c <= cols,
            vec@.len() == c,
            all_valid(vec@),
        decreases cols - c,
    {
        vec.push(Rational { numer: 0, denom: 1 });
        c += 1;
    }
    vec.set(free_col, Rational { numer: 1, denom: 1 });
    let mut k: usize = 0;
    while k < pivot_cols.len()
        invariant
            rows == matrix@.len(),
            valid_matrix(matrix@, cols as int),
            pivot_cols@.len() <= rows,
            forall|t: int| 0 <= t < pivot_cols@.len() ==> #[trigger] pivot_cols@[t] < cols,
            free_col < cols,
            vec@.len() == cols,
            all_valid(vec@),
            vec@[free_col as int] == (Rational { numer: 1, denom: 1 }),
            forall|t: int| 0 <= t < pivot_cols@.len() ==> #[trigger] pivot_cols@[t] != free_col,
            k <= pivot_cols@.len(),
        decreases pivot_cols@.len() - k,
    {
        let coeff = matrix[k][free_col];
        proof {
            assert(matrix@[k as int]@.len() == cols);
            assert(coeff.denom > 0);
        }
        if coeff.numer != 0 {
            match rational_neg(coeff) {
                Some(x) => {
                    vec.set(pivot_cols[k], x);
                },
                None => {
                    return None;
                },
            }
        }
        k += 1;
    }
    proof {
        assert(vec@[free_col as int] == (Rational { numer: 1, denom: 1 }));
    }
    Some(vec)
}

/// A recurrence of order at most `order` that the Hankel window of the
/// sequence starting at `offset` admits: a kernel vector of the
/// `order x (order + 1)` window, cut after its last nonzero entry and divided
/// by it. `None` for order 0, a sequence too short for the window, a kernel
/// vector whose only nonzero entry is the first, or an entry that leaves
/// `i64` on the way.
pub fn solve_recurrence(values: &[Rational], order: usize, offset: usize) -> (r: Option<RecurrenceCandidate>)
    requires
        all_valid(values@),
        values@.len() < usize::MAX,
        offset == 0 || offset + 2 * order <= usize::MAX,
    ensures
        (order == 0 || values@.len() < offset + 2 * order) ==> r is None,
        r matches Some(c) ==> 1 <= c.order <= order && c.coeffs@.len() == c.order + 1 && all_valid(c.coeffs@)
            && c.coeffs@[c.order as int] == (Rational { numer: 1, denom: 1 }),
{
    if order == 0 {
        return None;
    }
    let needed: usize = if order <= (usize::MAX - offset) / 2 {
        offset + 2 * order
    } else {
        usize::MAX
    };
    let vlen = values.len();
    if vlen < needed {
        return None;
    }
    proof {
        assert(offset + 2 * order <= values@.len());
    }
    let rows = order;
    let cols = order + 1;
    let mut matrix: Vec<Vec<Rational>> = Vec::new();
    let mut rr: usize = 0;
    while rr < rows
        invariant
            all_valid(values@),
            vlen == values@.len(),
            rows == order,
            cols == order + 1,
            offset + 2 * order <= values@.len(),
            rr <= rows,
            matrix@.len() == rr,
            valid_matrix(matrix@, cols as int),
        decreases rows - rr,
    {
        let mut line: Vec<Rational> = Vec::new();
        let mut cc: usize = 0;
        while cc < cols
            invariant
                all_valid(values@),
                vlen == values@.len(),
                cols == order + 1,
                rr < order,
                offset + 2 * order <= values@.len(),
                cc <= cols,
                line@.len() == cc,
                all_valid(line@),
            decreases cols - cc,
        {
            line.push(values[offset + rr + cc]);
            cc += 1;
        }
        matrix.push(line);
        rr += 1;
    }
    let coeffs = match kernel_vector(matrix) {
        Some(v) => v,
        None => {
            return None;
        },
    };
    let last_idx = match last_nonzero_index(coeffs.as_slice()) {
        Some(i) => i,
        None => {
            return None;
        },
    };
    if last_idx == 0 {
        return None;
    }
    let scale = coeffs[last_idx];
    if scale.numer == 0 {
        return None;
    }
    proof {
        assert(scale.denom > 0);
    }
    let one = Rational { numer: 1, denom: 1 };
    let inv = match rational_div(one, scale) {
        Some(x) => x,
        None => {
            return None;
        },
    };
    proof {
        assert(1 * scale.denom == scale.denom);
        assert(one.denom * scale.numer == scale.numer);
        lemma_normalized_value(inv, scale.denom as int, scale.numer as int);
    }
    let scaled = match scale_prefix(coeffs.as_slice(), last_idx, inv) {
        Some(x) => x,
        None => {
            return None;
        },
    };
    proof {
        let a = scale.denom * inv.denom;
        assert(scale.numer * inv.numer == a);
        assert(a > 0) by (nonlinear_arith)
            requires
                a == scale.denom * inv.denom,
                scale.denom > 0,
                inv.denom > 0,
        ;
        lemma_normalize_equal(a);
        assert(is_normalized_of(scaled@[last_idx as int], scale.numer * inv.numer, scale.denom * inv.denom));
    }
    Some(RecurrenceCandidate { order: last_idx, coeffs: scaled })
}

/// The largest loop order of the list (0 for an empty list).
pub open spec fn max_loop(loops: Seq<usize>) -> int
    decreases loops.len(),
{
    if loops.len() == 0 {
        0
    } else {
        let rest = max_loop(loops.drop_last());
        if loops.len() == 1 || loops.last() > rest {
            loops.last() as int
        } else {
            rest
        }
    }
}

/// The loop order after the last one of the list (staying at `usize::MAX`).
pub open spec fn next_loop(loops: Seq<usize>) -> nat {
    if max_loop(loops) >= usize::MAX {
        usize::MAX as nat
    } else {
        (max_loop(loops) + 1) as nat
    }
}

proof fn lemma_max_loop_bounds(loops: Seq<usize>)
    ensures
        0 <= max_loop(loops) <= usize::MAX,
    decreases loops.len(),
{
    if loops.len() > 0 {
        lemma_max_loop_bounds(loops.drop_last());
    }
}

/// A predicted term of the normalized sequence taken back to the raw
/// coefficients at the next loop order: multiplied by the normalization
/// factor there. `None` for an empty list of loops, a factor that cannot be
/// computed, or a product that leaves `i64`.
pub fn map_predict_next_c(predict_next_d: Rational, mode: NormalizeMode, loops: &[usize]) -> (r: Option<Rational>)
    requires
        predict_next_d.denom > 0,
    ensures
        loops@.len() == 0 ==> r is None,
        (loops@.len() > 0 && mode == NormalizeMode::Plain) ==> r == Some(predict_next_d),
        (loops@.len() > 0 && mode_factor(mode, next_loop(loops@)) > i64::MAX) ==> r is None,
        r matches Some(x) ==> x.denom > 0 && (mode == NormalizeMode::Plain || is_normalized_of(
            x,
            predict_next_d.numer * mode_factor(mode, next_loop(loops@)),
            predict_next_d.denom as int,
        )),
{
    if loops.len() == 0 {
        return None;
    }
    let mut last_loop: usize = loops[0];
    let mut i: usize = 1;
    proof {
        assert(loops@.subrange(0, 1).drop_last() =~= Seq::<usize>::empty());
    }
    while i < loops.len()
        invariant
            1 <= i <= loops@.len(),
            last_loop as int == max_loop(loops@.subrange(0, i as int)),
        decreases loops@.len() - i,
    {
        proof {
            assert(loops@.subrange(0, i + 1).drop_last() =~= loops@.subrange(0, i as int));
        }
        if loops[i] > last_loop {
            last_loop = loops[i];
        }
        i += 1;
    }
    proof {
        assert(loops@.subrange(0, loops@.len() as int) =~= loops@);
    }
    let next = last_loop.saturating_add(1);
    if let NormalizeMode::Plain = mode {
        return Some(predict_next_d);
    }
    let factor = match mode_factor_exec(mode, next) {
        Ok(f) => f,
        Err(_) => {
            return None;
        },
    };
    let product = rational_mul(predict_next_d, Rational { numer: factor, denom: 1 });
    proof {
        if let Some(x) = product {
            assert(predict_next_d.denom * 1 == predict_next_d.denom);
        }
    }
    product
}

} // verus!
