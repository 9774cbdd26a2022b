//! Hankel rank curves of coefficient sequences, computed modulo primes.
use crate::error::ExperimentError;
use crate::kze2::linalg::swap_entries;
use crate::modular::{lemma_mod_ops, lemma_small, pow};
use crate::rank_scan::span::{imat, in_row_span, inverts, lemma_full_span, lemma_tracks_elim, lemma_tracks_init, lemma_tracks_scale, lemma_tracks_span, lemma_tracks_swap, tracks};
use crate::rank_scan::Rational;
use vstd::prelude::*;

verus! {

/// The largest prime for which products of residues fit in an `i64`.
pub const MAX_PRIME: i64 = 3037000499;

/// A usable modulus.
pub open spec fn prime_ok(p: int) -> bool {
    2 <= p <= MAX_PRIME
}

/// Every entry is a residue modulo `p`.
pub open spec fn reduced_matrix(m: Seq<Vec<i64>>, p: int) -> bool {
    forall|i: int, j: int| 0 <= i < m.len() && 0 <= j < m[i]@.len() ==> 0 <= #[trigger] m[i]@[j] < p
}

/// All rows have `cols` entries.
pub open spec fn rectangular(m: Seq<Vec<i64>>, cols: int) -> bool {
    forall|i: int| 0 <= i < m.len() ==> #[trigger] m[i]@.len() == cols
}

/// Every entry is zero.
pub open spec fn all_zero(m: Seq<Vec<i64>>) -> bool {
    forall|i: int, j: int| 0 <= i < m.len() && 0 <= j < m[i]@.len() ==> #[trigger] m[i]@[j] == 0
}

/// The largest `n` with `2n + 1 <= len`: the largest Hankel size the data allows, minus one.
pub fn compute_nmax(len: usize) -> (r: usize)
    ensures
        len == 0 ==> r == 0,
        len > 0 ==> r == (len - 1) / 2,
{
    if len == 0 {
        0
    } else {
        (len - 1) / 2
    }
}

/// The common value of the last `len` entries, when they are all equal.
pub fn detect_plateau(curve: &[usize], len: usize) -> (r: Option<usize>)
    ensures
        r is Some <==> (len > 0 && curve@.len() >= len && forall|i: int|
            curve@.len() - len <= i < curve@.len() ==> #[trigger] curve@[i] == curve@.last()),
        r matches Some(v) ==> v == curve@.last(),
{
    if curve.len() < len || len == 0 {
        return None;
    }
    let n = curve.len();
    let last = curve[n - 1];
    let mut i = n - len;
    while i < n
        invariant
            n == curve@.len(),
            len > 0,
            n >= len,
            last == curve@.last(),
            n - len <= i <= n,
            forall|k: int| n - len <= k < i ==> #[trigger] curve@[k] == last,
        decreases n - i,
    {
        if curve[i] != last {
            return None;
        }
        i += 1;
    }
    Some(last)
}

/// `value mod p` in `[0, p)`.
pub fn mod_i64(value: i64, p: i64) -> (r: i64)
    requires
        p > 0,
    ensures
        r == value as int % p as int,
        0 <= r < p,
{
    let mut v = value % p;
    proof {
        crate::modular::lemma_trunc_rem(value as int, p as int);
        vstd::arithmetic::div_mod::lemma_mod_bound(value as int, p as int);
    }
    if v < 0 {
        v += p;
    }
    v
}

/// `base^exp mod p` by repeated squaring; 1 when `exp <= 0`.
pub fn mod_pow(base: i64, exp: i64, p: i64) -> (r: i64)
    requires
        prime_ok(p as int),
    ensures
        exp <= 0 ==> r == 1,
        exp > 0 ==> r == pow(base as int, exp as nat) % p as int,
        0 <= r <= p,
{
    let ghost b0 = base as int;
    let ghost pi = p as int;
    let mut b = mod_i64(base, p);
    let mut e = exp;
    if e <= 0 {
        return 1;
    }
    let mut out: i64 = 1;
    proof {
        crate::modular::lemma_pow_mod(b0, exp as nat, pi);
        assert((1 * pow(b as int, e as nat)) % pi == pow(b0, exp as nat) % pi);
    }
    while e > 0
        invariant
            prime_ok(pi),
            pi == p,
            0 <= b < p,
            0 <= out < p,
            e >= 0,
            exp > 0,
            (out * pow(b as int, e as nat)) % pi == pow(b0, exp as nat) % pi,
        decreases e,
    {
        let ghost (o0, b1, e0) = (out as int, b as int, e as int);
        proof {
            assert(b1 * b1 <= MAX_PRIME * MAX_PRIME) by (nonlinear_arith)
                requires
                    0 <= b1 < MAX_PRIME,
            ;
            assert(o0 * b1 <= MAX_PRIME * MAX_PRIME) by (nonlinear_arith)
                requires
                    0 <= b1 < MAX_PRIME,
                    0 <= o0 <= MAX_PRIME,
            ;
        }
        let odd = e & 1 == 1;
        proof {
            assert((e & 1 == 1) == (e % 2 == 1)) by (bit_vector)
                requires
                    e >= 0,
            ;
            assert(e >> 1 == e / 2) by (bit_vector)
                requires
                    e >= 0,
            ;
        }
        if odd {
            out = mod_i64(out * b, p);
        }
        b = mod_i64(b * b, p);
        e = e >> 1;
        proof {
            let h = (e0 / 2) as nat;
            lemma_pow_square(b1, h);
            if e0 % 2 == 1 {
                assert(e0 as nat == 2 * h + 1);
                lemma_pow_step(b1, 2 * h);
                // o0 * b1^(2h+1) == (o0*b1) * (b1^2)^h
                assert(o0 * pow(b1, (2 * h + 1) as nat) == (o0 * b1) * pow(b1 * b1, h)) by (nonlinear_arith)
                    requires
                        pow(b1, (2 * h + 1) as nat) == b1 * pow(b1, 2 * h),
                        pow(b1, 2 * h) == pow(b1 * b1, h),
                ;
                lemma_mul_pow_mod(o0 * b1, b1 * b1, h, pi);
                assert(out as int == (o0 * b1) % pi);
                assert(b as int == (b1 * b1) % pi);
                assert(e as int == h);
                assert((out * pow(b as int, e as nat)) % pi == (o0 * pow(b1, e0 as nat)) % pi);
            } else {
                assert(e0 as nat == 2 * h);
                lemma_pow_square(b1, h);
                assert(o0 * pow(b1, e0 as nat) == o0 * pow(b1 * b1, h));
                lemma_mul_pow_mod(o0, b1 * b1, h, pi);
                lemma_small(o0, pi);
                assert(out as int == o0);
                assert(b as int == (b1 * b1) % pi);
                assert(e as int == h);
                assert((out * pow(b as int, e as nat)) % pi == (o0 * pow(b1, e0 as nat)) % pi);
            }
        }
    }
    proof {
        assert(pow(b as int, 0) == 1);
        lemma_small(out as int, pi);
    }
    out
}

/// `(x * y^h) mod p` only depends on `x mod p` and `y mod p`.
proof fn lemma_mul_pow_mod(x: int, y: int, h: nat, p: int)
    requires
        p > 0,
    ensures
        ((x % p) * pow(y % p, h)) % p == (x * pow(y, h)) % p,
{
    crate::modular::lemma_pow_mod(y, h, p);
    lemma_mod_ops(x, pow(y, h), p);
    lemma_mod_ops(x, pow(y % p, h), p);
    lemma_mod_ops(x % p, pow(y % p, h), p);
    assert(((x % p) * pow(y % p, h)) % p == ((x % p) * (pow(y % p, h) % p)) % p);
    assert((x * pow(y, h)) % p == ((x % p) * (pow(y, h) % p)) % p);
}

proof fn lemma_pow_step(b: int, e: nat)
    ensures
        pow(b, e + 1) == b * pow(b, e),
{
    assert(((e + 1) as nat - 1) as nat == e);
}

proof fn lemma_pow_square(b: int, h: nat)
    ensures
        pow(b, 2 * h) == pow(b * b, h),
    decreases h,
{
    if h > 0 {
        lemma_pow_square(b, (h - 1) as nat);
        lemma_pow_step(b, (2 * (h - 1) + 1) as nat);
        lemma_pow_step(b, (2 * (h - 1)) as nat);
        assert(2 * h == (2 * (h - 1) + 1) + 1);
        assert(pow(b, 2 * h) == b * (b * pow(b, (2 * (h - 1)) as nat)));
        assert(b * (b * pow(b * b, (h - 1) as nat)) == (b * b) * pow(b * b, (h - 1) as nat)) by (nonlinear_arith);
    }
}

/// `value^(p-2) mod p`: the inverse of `value` when `p` is prime, by Fermat's little theorem.
pub fn mod_inv(value: i64, p: i64) -> (r: i64)
    requires
        prime_ok(p as int),
    ensures
        p > 2 ==> r == pow(value as int, (p - 2) as nat) % p as int,
        p == 2 ==> r == 1,
{
    mod_pow(value, p - 2, p)
}

/// A copy of `m`.
pub(crate) fn copy_matrix_i64(m: &[Vec<i64>]) -> (r: Vec<Vec<i64>>)
    ensures
        r@.len() == m@.len(),
        forall|i: int| 0 <= i < m@.len() ==> (#[trigger] r@[i])@ == m@[i]@,
{
    let mut out: Vec<Vec<i64>> = Vec::with_capacity(m.len());
    let mut i: usize = 0;
    while i < m.len()
        invariant
            i <= m@.len(),
            out@.len() == i,
            forall|t: int| 0 <= t < i ==> (#[trigger] out@[t])@ == m@[t]@,
        decreases m@.len() - i,
    {
        let row = &m[i];
        let mut copy: Vec<i64> = Vec::with_capacity(row.len());
        let mut j: usize = 0;
        while j < row.len()
            invariant
                j <= row@.len(),
                copy@ == row@.subrange(0, j as int),
            decreases row@.len() - j,
        {
            copy.push(row[j]);
            j += 1;
        }
        assert(copy@ =~= row@);
        out.push(copy);
        i += 1;
    }
    out
}

/// Entries `c >= from` of `row` times `inv`, reduced; the others kept.
pub fn scale_row_mod(row: &Vec<i64>, inv: i64, from: usize, p: i64) -> (r: Vec<i64>)
    requires
        prime_ok(p as int),
        0 <= inv <= p,
        forall|c: int| 0 <= c < row@.len() ==> 0 <= #[trigger] row@[c] < p,
    ensures
        r@.len() == row@.len(),
        forall|c: int| 0 <= c < row@.len() ==> 0 <= #[trigger] r@[c] < p,
        forall|c: int| 0 <= c < from && c < row@.len() ==> #[trigger] r@[c] == row@[c],
        forall|c: int| from <= c < row@.len() ==> #[trigger] r@[c] == (row@[c] * inv) % (p as int),
{
    let mut out: Vec<i64> = Vec::with_capacity(row.len());
    let mut c: usize = 0;
    while c < row.len()
        invariant
            prime_ok(p as int),
            0 <= inv <= p,
            forall|t: int| 0 <= t < row@.len() ==> 0 <= #[trigger] row@[t] < p,
            c <= row@.len(),
            out@.len() == c,
            forall|t: int| 0 <= t < c ==> 0 <= #[trigger] out@[t] < p,
            forall|t: int| 0 <= t < from && t < c ==> #[trigger] out@[t] == row@[t],
            forall|t: int| from <= t < c ==> #[trigger] out@[t] == (row@[t] * inv) % (p as int),
        decreases row@.len() - c,
    {
        if c < from {
            out.push(row[c]);
        } else {
            let v = row[c];
            proof {
                assert(v * inv <= MAX_PRIME * MAX_PRIME) by (nonlinear_arith)
                    requires
                        0 <= v < MAX_PRIME,
                        0 <= inv <= MAX_PRIME,
                ;
                assert(0 <= v * inv) by (nonlinear_arith)
                    requires
                        0 <= v,
                        0 <= inv,
                ;
            }
            out.push(mod_i64(v * inv, p));
        }
        c += 1;
    }
    out
}

/// Entries `c >= from` of `row - factor * pivot`, reduced; the others kept.
pub fn eliminate_row_mod(row: &Vec<i64>, pivot: &Vec<i64>, factor: i64, from: usize, p: i64) -> (r: Vec<i64>)
    requires
        prime_ok(p as int),
        0 <= factor < p,
        pivot@.len() == row@.len(),
        forall|c: int| 0 <= c < row@.len() ==> 0 <= #[trigger] row@[c] < p,
        forall|c: int| 0 <= c < row@.len() ==> 0 <= #[trigger] pivot@[c] < p,
    ensures
        r@.len() == row@.len(),
        forall|c: int| 0 <= c < row@.len() ==> 0 <= #[trigger] r@[c] < p,
        forall|c: int| 0 <= c < from && c < row@.len() ==> #[trigger] r@[c] == row@[c],
        forall|c: int| from <= c < row@.len() ==> #[trigger] r@[c] == (row@[c] - factor * pivot@[c]) % (p as int),
{
    let mut out: Vec<i64> = Vec::with_capacity(row.len());
    let mut c: usize = 0;
    while c < row.len()
        invariant
            prime_ok(p as int),
            0 <= factor < p,
            pivot@.len() == row@.len(),
            forall|t: int| 0 <= t < row@.len() ==> 0 <= #[trigger] row@[t] < p,
            forall|t: int| 0 <= t < row@.len() ==> 0 <= #[trigger] pivot@[t] < p,
            c <= row@.len(),
            out@.len() == c,
            forall|t: int| 0 <= t < c ==> 0 <= #[trigger] out@[t] < p,
            forall|t: int| 0 <= t < from && t < c ==> #[trigger] out@[t] == row@[t],
            forall|t: int| from <= t < c ==> #[trigger] out@[t] == (row@[t] - factor * pivot@[t]) % (p as int),
        decreases row@.len() - c,
    {
        if c < from {
            out.push(row[c]);
        } else {
            let v = row[c];
            let w = pivot[c];
            proof {
                assert(factor * w <= MAX_PRIME * MAX_PRIME) by (nonlinear_arith)
                    requires
                        0 <= w < MAX_PRIME,
                        0 <= factor < MAX_PRIME,
                ;
                assert(0 <= factor * w) by (nonlinear_arith)
                    requires
                        0 <= w,
                        0 <= factor,
                ;
            }
            out.push(mod_i64(v - factor * w, p));
        }
        c += 1;
    }
    out
}

/// `sum_{k < n} a[k] * x[k]` over the integers.
pub open spec fn idot(a: Seq<i64>, x: Seq<int>, n: int) -> int
    decreases n,
{
    if n <= 0 {
        0
    } else {
        idot(a, x, n - 1) + a[n - 1] * x[n - 1]
    }
}

/// Every one of the first `rows` rows meets `x` in a multiple of `p`.
pub open spec fn kills_i(m: Seq<Vec<i64>>, x: Seq<int>, rows: int, cols: int, p: int) -> bool {
    forall|i: int| 0 <= i < rows ==> #[trigger] idot(m[i]@, x, cols) % p == 0
}

/// Column `j` is a combination of the columns before it, modulo `p`.
pub open spec fn col_dependent(m: Seq<Vec<i64>>, rows: int, cols: int, j: int, p: int) -> bool {
    exists|x: Seq<int>|
        x.len() == cols && #[trigger] x[j] == 1 && (forall|k: int| j < k < cols ==> x[k] == 0) && kills_i(m, x, rows, cols, p)
}

/// The number of the first `c` columns that are not combinations of the
/// columns before them, modulo `p`.
pub open spec fn new_cols(m: Seq<Vec<i64>>, rows: int, cols: int, c: int, p: int) -> nat
    decreases c,
{
    if c <= 0 {
        0
    } else {
        new_cols(m, rows, cols, c - 1, p) + if col_dependent(m, rows, cols, c - 1, p) {
            0nat
        } else {
            1nat
        }
    }
}

/// The rank of a matrix modulo `p`: the number of its columns that are not
/// combinations of the columns before them.
pub open spec fn rank_spec(m: Seq<Vec<i64>>, p: int) -> nat {
    if m.len() == 0 {
        0
    } else {
        new_cols(m, m.len() as int, m[0]@.len() as int, m[0]@.len() as int, p)
    }
}

/// `sum_{k < n} m(i, k) * x[k]`, for a matrix given by its entries.
pub open spec fn fdot(m: spec_fn(int, int) -> int, i: int, x: Seq<int>, n: int) -> int
    decreases n,
{
    if n <= 0 {
        0
    } else {
        fdot(m, i, x, n - 1) + m(i, n - 1) * x[n - 1]
    }
}

/// Column `j` of the matrix with entries `m` is a combination of the columns
/// before it, modulo `p`.
pub open spec fn fcol_dependent(m: spec_fn(int, int) -> int, rows: int, cols: int, j: int, p: int) -> bool {
    exists|x: Seq<int>|
        x.len() == cols && #[trigger] x[j] == 1 && (forall|k: int| j < k < cols ==> x[k] == 0) && (forall|i: int|
            0 <= i < rows ==> #[trigger] fdot(m, i, x, cols) % p == 0)
}

/// The number of the first `c` columns of the matrix with entries `m` that
/// are not combinations of the columns before them, modulo `p`.
pub open spec fn fnew_cols(m: spec_fn(int, int) -> int, rows: int, cols: int, c: int, p: int) -> nat
    decreases c,
{
    if c <= 0 {
        0
    } else {
        fnew_cols(m, rows, cols, c - 1, p) + if fcol_dependent(m, rows, cols, c - 1, p) {
            0nat
        } else {
            1nat
        }
    }
}

/// The rank modulo `p` of the `rows`-by-`cols` matrix with entries `m`.
pub open spec fn matrix_rank(m: spec_fn(int, int) -> int, rows: int, cols: int, p: int) -> nat {
    fnew_cols(m, rows, cols, cols, p)
}

proof fn lemma_fdot_row(a: Seq<i64>, m: spec_fn(int, int) -> int, i: int, x: Seq<int>, n: int)
    requires
        forall|k: int| 0 <= k < n ==> a[k] as int == #[trigger] m(i, k),
    ensures
        idot(a, x, n) == fdot(m, i, x, n),
    decreases n,
{
    if n > 0 {
        lemma_fdot_row(a, m, i, x, n - 1);
        assert(a[n - 1] as int == m(i, n - 1));
    }
}

/// The rank of a matrix is that of its entries.
pub proof fn lemma_rank_entries(mat: Seq<Vec<i64>>, m: spec_fn(int, int) -> int, rows: int, cols: int, p: int)
    requires
        mat.len() == rows,
        rows > 0,
        mat[0]@.len() == cols,
        forall|i: int, j: int| 0 <= i < rows && 0 <= j < cols ==> mat[i]@[j] as int == #[trigger] m(i, j),
    ensures
        rank_spec(mat, p) == matrix_rank(m, rows, cols, p),
{
    assert forall|x: Seq<int>, i: int| 0 <= i < rows implies #[trigger] idot(mat[i]@, x, cols) == fdot(m, i, x, cols) by {
        assert forall|k: int| 0 <= k < cols implies mat[i]@[k] as int == #[trigger] m(i, k) by {}
        lemma_fdot_row(mat[i]@, m, i, x, cols);
    }
    assert forall|j: int| #[trigger] col_dependent(mat, rows, cols, j, p) == fcol_dependent(m, rows, cols, j, p) by {
        if col_dependent(mat, rows, cols, j, p) {
            let x = choose|x: Seq<int>|
                x.len() == cols && #[trigger] x[j] == 1 && (forall|k: int| j < k < cols ==> x[k] == 0) && kills_i(mat, x, rows, cols, p);
            assert forall|i: int| 0 <= i < rows implies #[trigger] fdot(m, i, x, cols) % p == 0 by {
                assert(idot(mat[i]@, x, cols) == fdot(m, i, x, cols));
            }
        }
        if fcol_dependent(m, rows, cols, j, p) {
            let x = choose|x: Seq<int>|
                x.len() == cols && #[trigger] x[j] == 1 && (forall|k: int| j < k < cols ==> x[k] == 0) && (forall|i: int|
                    0 <= i < rows ==> #[trigger] fdot(m, i, x, cols) % p == 0);
            assert forall|i: int| 0 <= i < rows implies #[trigger] idot(mat[i]@, x, cols) % p == 0 by {
                assert(idot(mat[i]@, x, cols) == fdot(m, i, x, cols));
            }
            assert(kills_i(mat, x, rows, cols, p));
        }
    }
    lemma_new_cols_match(mat, m, rows, cols, cols, p);
}

proof fn lemma_new_cols_match(mat: Seq<Vec<i64>>, m: spec_fn(int, int) -> int, rows: int, cols: int, c: int, p: int)
    requires
        forall|j: int| #[trigger] col_dependent(mat, rows, cols, j, p) == fcol_dependent(m, rows, cols, j, p),
    ensures
        new_cols(mat, rows, cols, c, p) == fnew_cols(m, rows, cols, c, p),
    decreases c,
{
    if c > 0 {
        lemma_new_cols_match(mat, m, rows, cols, c - 1, p);
        assert(col_dependent(mat, rows, cols, c - 1, p) == fcol_dependent(m, rows, cols, c - 1, p));
    }
}

/// The rank modulo `p` of the `size`-square Hankel matrix of the residues of
/// the values: `H[i][j] = values[i + j] mod p`.
pub open spec fn hankel_rank(values: Seq<Rational>, p: int, size: int) -> nat {
    matrix_rank(|i: int, j: int| residue(values[i + j], p), size, size, p)
}

/// `idot` of a combination of rows, modulo `p`.
proof fn lemma_idot_comb(p: int, v: Seq<i64>, a: Seq<i64>, b: Seq<i64>, alpha: int, beta: int, x: Seq<int>, n: int)
    requires
        p > 0,
        forall|k: int| 0 <= k < n ==> #[trigger] v[k] == (alpha * a[k] + beta * b[k]) % p,
    ensures
        idot(v, x, n) % p == (alpha * idot(a, x, n) + beta * idot(b, x, n)) % p,
    decreases n,
{
    if n > 0 {
        lemma_idot_comb(p, v, a, b, alpha, beta, x, n - 1);
        let sv = idot(v, x, n - 1);
        let sa = idot(a, x, n - 1);
        let sb = idot(b, x, n - 1);
        let y = x[n - 1];
        let av = a[n - 1] as int;
        let bv = b[n - 1] as int;
        let w = alpha * av + beta * bv;
        assert(v[n - 1] == w % p);
        lemma_mod_ops(w, y, p);
        lemma_mod_ops(sv, (w % p) * y, p);
        lemma_mod_ops(sv, w * y, p);
        lemma_mod_ops(alpha * sa + beta * sb, w * y, p);
        assert((sv + v[n - 1] * y) % p == (sv % p + ((w % p) * y) % p) % p);
        assert(((w % p) * y) % p == (w * y) % p);
        assert((sv % p + (w * y) % p) % p == (sv + w * y) % p);
        assert((sv + w * y) % p == (alpha * sa + beta * sb + w * y) % p) by {
            lemma_mod_ops(sv, w * y, p);
            lemma_mod_ops(alpha * sa + beta * sb, w * y, p);
        }
        assert(w * y == alpha * (av * y) + beta * (bv * y)) by (nonlinear_arith)
            requires
                w == alpha * av + beta * bv,
        ;
        assert(alpha * (sa + av * y) == alpha * sa + alpha * (av * y)) by (nonlinear_arith);
        assert(beta * (sb + bv * y) == beta * sb + beta * (bv * y)) by (nonlinear_arith);
    }
}

/// A row that is 0 outside `k1` and `k2` meets `x` in those two terms.
proof fn lemma_idot_two(a: Seq<i64>, x: Seq<int>, n: int, k1: int, k2: int)
    requires
        k1 != k2,
        forall|k: int| 0 <= k < n && k != k1 && k != k2 ==> #[trigger] (a[k] * x[k]) == 0,
    ensures
        idot(a, x, n) == (if 0 <= k1 < n {
            a[k1] * x[k1]
        } else {
            0
        }) + (if 0 <= k2 < n {
            a[k2] * x[k2]
        } else {
            0
        }),
    decreases n,
{
    if n > 0 {
        lemma_idot_two(a, x, n - 1, k1, k2);
        assert(a[n - 1] * x[n - 1] == a[n - 1] * x[n - 1]);
    }
}

/// Columns `a..b` all dependent leave the count unchanged.
proof fn lemma_new_cols_flat(m: Seq<Vec<i64>>, rows: int, cols: int, a: int, b: int, p: int)
    requires
        0 <= a <= b,
        forall|k: int| a <= k < b ==> #[trigger] col_dependent(m, rows, cols, k, p),
    ensures
        new_cols(m, rows, cols, b, p) == new_cols(m, rows, cols, a, p),
    decreases b - a,
{
    if a < b {
        lemma_new_cols_flat(m, rows, cols, a, b - 1, p);
        assert(col_dependent(m, rows, cols, b - 1, p));
    }
}

/// The rank of `matrix` modulo `p`, by Gaussian elimination: for a prime
/// `p` (every nonzero residue inverted by Fermat's little theorem), the
/// number of columns that are not combinations of the columns before them.
pub fn rank_mod_p(matrix: &[Vec<i64>], p: i64) -> (r: usize)
    requires
        prime_ok(p as int),
        matrix@.len() > 0 ==> rectangular(matrix@, matrix@[0]@.len() as int),
        reduced_matrix(matrix@, p as int),
    ensures
        r <= matrix@.len(),
        matrix@.len() > 0 ==> r <= matrix@[0]@.len(),
        r == 0 <==> all_zero(matrix@),
        crate::linear_mod::inverses_ok(p as int) ==> r == rank_spec(matrix@, p as int),
{
    rank_and_basis_mod_p(matrix, p).0
}

/// The rank of `matrix` modulo `p` by row reduction, and the rows that the
/// reduction takes as pivots, in the order it takes them; for a prime `p`,
/// every row of `matrix` is a combination of those rows.
#[verifier::spinoff_prover]
#[verifier::rlimit(50)]
pub fn rank_and_basis_mod_p(matrix: &[Vec<i64>], p: i64) -> (res: (usize, Vec<usize>))
    requires
        prime_ok(p as int),
        matrix@.len() > 0 ==> rectangular(matrix@, matrix@[0]@.len() as int),
        reduced_matrix(matrix@, p as int),
    ensures
        res.0 <= matrix@.len(),
        matrix@.len() > 0 ==> res.0 <= matrix@[0]@.len(),
        res.0 == 0 <==> all_zero(matrix@),
        crate::linear_mod::inverses_ok(p as int) ==> res.0 == rank_spec(matrix@, p as int),
        res.1@.len() == res.0,
        forall|a: int| 0 <= a < res.1@.len() ==> #[trigger] res.1@[a] < matrix@.len(),
        forall|a: int, b: int| 0 <= a < b < res.1@.len() ==> #[trigger] res.1@[a] != #[trigger] res.1@[b],
        crate::linear_mod::inverses_ok(p as int) ==> forall|i: int|
            0 <= i < matrix@.len() ==> #[trigger] in_row_span(imat(matrix@), res.1@, i, matrix@[0]@.len() as int, p as int),
{
    let ghost good = crate::linear_mod::inverses_ok(p as int);
    let ghost pp = p as int;
    let mut mat = copy_matrix_i64(matrix);
    let nrows = mat.len();
    if nrows == 0 {
        return (0, Vec::new());
    }
    let ncols = mat[0].len();
    let ghost rows = nrows as int;
    let ghost cols = ncols as int;
    let ghost mut pcols: Seq<int> = Seq::empty();
    proof {
        assert forall|x: Seq<int>| x.len() == ncols implies (kills_i(matrix@, x, rows, cols, pp) <==> kills_i(mat@, x, rows, cols, pp)) by {
            if kills_i(matrix@, x, rows, cols, pp) {
                assert forall|i: int| 0 <= i < rows implies #[trigger] idot(mat@[i]@, x, cols) % pp == 0 by {
                    assert(mat@[i]@ == matrix@[i]@);
                    assert(idot(matrix@[i]@, x, cols) % pp == 0);
                }
            }
            if kills_i(mat@, x, rows, cols, pp) {
                assert forall|i: int| 0 <= i < rows implies #[trigger] idot(matrix@[i]@, x, cols) % pp == 0 by {
                    assert(mat@[i]@ == matrix@[i]@);
                    assert(idot(mat@[i]@, x, cols) % pp == 0);
                }
            }
        }
    }
    let mut indices: Vec<usize> = Vec::with_capacity(nrows);
    let mut t: usize = 0;
    while t < nrows
        invariant
            t <= nrows,
            indices@.len() == t,
            forall|q: int| 0 <= q < t ==> #[trigger] indices@[q] == q,
        decreases nrows - t,
    {
        indices.push(t);
        t += 1;
    }
    let ghost mut tt = lemma_tracks_init(imat(matrix@), imat(mat@), indices@, rows, cols, pp);
    let ghost mut pos: Seq<int> = Seq::new(nrows as nat, |i: int| i);
    let mut basis: Vec<usize> = Vec::new();
    let mut rank: usize = 0;
    let mut row: usize = 0;
    let mut col: usize = 0;
    while col < ncols
        invariant
            prime_ok(p as int),
            pp == p as int,
            good == crate::linear_mod::inverses_ok(pp),
            rows == nrows as int,
            cols == ncols as int,
            nrows == mat@.len(),
            nrows == matrix@.len(),
            nrows > 0,
            ncols == matrix@[0]@.len(),
            rectangular(matrix@, ncols as int),
            rectangular(mat@, ncols as int),
            reduced_matrix(mat@, p as int),
            col <= ncols,
            rank == row,
            nrows == indices@.len(),
            basis@ == indices@.subrange(0, row as int),
            forall|a: int| 0 <= a < nrows ==> #[trigger] indices@[a] < nrows,
            forall|a: int, b: int| 0 <= a < b < nrows ==> #[trigger] indices@[a] != #[trigger] indices@[b],
            row < nrows,
            row <= col,
            row == 0 ==> forall|i: int| 0 <= i < nrows ==> (#[trigger] mat@[i])@ == matrix@[i]@,
            row == 0 ==> forall|i: int, j: int| 0 <= i < nrows && 0 <= j < col ==> #[trigger] matrix@[i]@[j] == 0,
            row > 0 ==> !all_zero(matrix@),
            pcols.len() == row,
            forall|i: int| 0 <= i < row ==> 0 <= #[trigger] pcols[i] < col,
            forall|i: int, j: int| 0 <= i < j < row ==> #[trigger] pcols[i] < #[trigger] pcols[j],
            good ==> forall|i: int, t: int| 0 <= i < row && 0 <= t < nrows ==> #[trigger] mat@[t]@[pcols[i]] == (if t == i {
                1i64
            } else {
                0i64
            }),
            good ==> forall|k: int, t: int| 0 <= k < col && row <= t < nrows && !pcols.contains(k) ==> #[trigger] mat@[t]@[k] == 0,
            good ==> forall|x: Seq<int>| x.len() == ncols ==> (kills_i(matrix@, x, rows, cols, pp) <==> kills_i(mat@, x, rows, cols, pp)),
            good ==> forall|k: int| 0 <= k < col ==> (#[trigger] col_dependent(matrix@, rows, cols, k, pp) <==> !pcols.contains(k)),
            good ==> rank == new_cols(matrix@, rows, cols, col as int, pp),
            good ==> tracks(tt, imat(matrix@), imat(mat@), indices@, basis@, row as int, rows, cols, pp),
            inverts(pos, indices@, rows),
        decreases ncols - col,
    {
        let mut pivot: usize = row;
        while pivot < nrows && mat[pivot][col] % p == 0
            invariant
                nrows == mat@.len(),
                rectangular(mat@, ncols as int),
                reduced_matrix(mat@, p as int),
                col < ncols,
                row <= pivot <= nrows,
                prime_ok(p as int),
                forall|i: int| row <= i < pivot ==> #[trigger] mat@[i]@[col as int] == 0,
            decreases nrows - pivot,
        {
            proof {
                lemma_small(mat@[pivot as int]@[col as int] as int, p as int);
            }
            pivot += 1;
        }
        if pivot == nrows {
            proof {
                if row == 0 {
                    assert forall|i: int, j: int| 0 <= i < nrows && 0 <= j < col + 1 implies #[trigger] matrix@[i]@[j]
                        == 0 by {
                        if j == col {
                            assert(mat@[i]@ == matrix@[i]@);
                            assert(mat@[i]@[col as int] == 0);
                        }
                    }
                }
                if good {
                    let c = col as int;
                    let x = Seq::new(
                        ncols as nat,
                        |k: int|
                            if k == c {
                                1int
                            } else if pcols.contains(k) {
                                -(mat@[choose|i: int| 0 <= i < pcols.len() && pcols[i] == k]@[c] as int)
                            } else {
                                0int
                            },
                    );
                    assert forall|t: int| 0 <= t < rows implies #[trigger] idot(mat@[t]@, x, cols) % pp == 0 by {
                        if t < row {
                            let pc = pcols[t];
                            assert(pcols.contains(pc));
                            let ch = choose|i: int| 0 <= i < pcols.len() && pcols[i] == pc;
                            if ch < t {
                                assert(pcols[ch] < pcols[t]);
                            } else if ch > t {
                                assert(pcols[t] < pcols[ch]);
                            }
                            assert(x[pc] == -(mat@[t]@[c] as int));
                            assert forall|k: int| 0 <= k < cols && k != pc && k != c implies #[trigger] (mat@[t]@[k] * x[k]) == 0 by {
                                if pcols.contains(k) {
                                    let i = choose|i: int| 0 <= i < pcols.len() && pcols[i] == k;
                                    assert(i != t);
                                    assert(0 <= i < row && 0 <= t < nrows);
                                    assert(mat@[t]@[pcols[i]] == 0);
                                    assert(mat@[t]@[k] == 0);
                                } else {
                                    assert(x[k] == 0);
                                }
                            }
                            lemma_idot_two(mat@[t]@, x, cols, pc, c);
                            assert(mat@[t]@[pcols[t]] == 1);
                            assert(x[c] == 1);
                            assert(0 <= pc < cols && 0 <= c < cols);
                            assert(idot(mat@[t]@, x, cols) == mat@[t]@[pc] * x[pc] + mat@[t]@[c] * x[c]);
                            let (a1, b1, c1, d1) = (mat@[t]@[pc] as int, x[pc], mat@[t]@[c] as int, x[c]);
                            assert(a1 * b1 + c1 * d1 == 0) by (nonlinear_arith)
                                requires
                                    a1 == 1,
                                    b1 == -c1,
                                    d1 == 1,
                            ;
                            assert(idot(mat@[t]@, x, cols) == 0);
                            lemma_small(0, pp);
                        } else {
                            assert forall|k: int| 0 <= k < cols && k != c && k != cols implies #[trigger] (mat@[t]@[k] * x[k]) == 0 by {
                                if pcols.contains(k) {
                                    let i = choose|i: int| 0 <= i < pcols.len() && pcols[i] == k;
                                    assert(i != t);
                                    assert(0 <= i < row && 0 <= t < nrows);
                                    assert(mat@[t]@[pcols[i]] == 0);
                                    assert(mat@[t]@[k] == 0);
                                } else {
                                    assert(x[k] == 0);
                                }
                            }
                            lemma_idot_two(mat@[t]@, x, cols, c, cols);
                            assert(mat@[t]@[c] == 0);
                            assert(idot(mat@[t]@, x, cols) == 0);
                            lemma_small(0, pp);
                        }
                    }
                    assert(x.len() == ncols);
                    assert(kills_i(mat@, x, rows, cols, pp));
                    assert(kills_i(matrix@, x, rows, cols, pp));
                    assert forall|k: int| c < k < cols implies x[k] == 0 by {
                        if pcols.contains(k) {
                            let i = choose|i: int| 0 <= i < pcols.len() && pcols[i] == k;
                            assert(pcols[i] < col);
                        }
                    }
                    assert(x[c] == 1);
                    assert(col_dependent(matrix@, rows, cols, c, pp));
                    assert(!pcols.contains(c)) by {
                        if pcols.contains(c) {
                            let i = choose|i: int| 0 <= i < pcols.len() && pcols[i] == c;
                            assert(pcols[i] < col);
                        }
                    }
                }
            }
            col += 1;
            continue;
        }
        proof {
            lemma_small(mat@[pivot as int]@[col as int] as int, p as int);
            if row == 0 {
                assert(matrix@[pivot as int]@[col as int] != 0);
            }
        }
        let ghost m0 = mat@;
        swap_entries(&mut mat, row, pivot, Vec::new());
        let ghost before = indices@;
        let ghost basis0 = basis@;
        swap_entries(&mut indices, row, pivot, 0);
        proof {
            assert forall|a: int, b: int| 0 <= a < b < nrows implies #[trigger] indices@[a] != #[trigger] indices@[b] by {
                let fa = if a == row { pivot as int } else if a == pivot { row as int } else { a };
                let fb = if b == row { pivot as int } else if b == pivot { row as int } else { b };
                assert(indices@[a] == before[fa]);
                assert(indices@[b] == before[fb]);
                if fa < fb {
                } else {
                    assert(before[fb] != before[fa]);
                }
            }
            assert forall|a: int| 0 <= a < nrows implies #[trigger] indices@[a] < nrows by {
                let fa = if a == row { pivot as int } else if a == pivot { row as int } else { a };
                assert(indices@[a] == before[fa]);
            }
            assert(before.subrange(0, row as int) =~= indices@.subrange(0, row as int));
        }
        basis.push(indices[row]);
        proof {
            assert(basis@ =~= indices@.subrange(0, row + 1));
            let ia = before[row as int] as int;
            let ib = before[pivot as int] as int;
            let pos2 = pos.update(ib, row as int).update(ia, pivot as int);
            assert forall|i: int| 0 <= i < rows implies 0 <= #[trigger] pos2[i] < rows && indices@[pos2[i]] == i by {
                if i != ia && i != ib {
                    assert(before[pos[i]] == i);
                    assert(pos[i] != row && pos[i] != pivot);
                    assert(indices@[pos[i]] == before[pos[i]]);
                }
            }
            pos = pos2;
            if good {
                assert forall|j: int| 0 <= j < rows implies #[trigger] mat@[j] == m0[if j == row { pivot as int } else if j == pivot {
                    row as int
                } else {
                    j
                }] by {}
                assert forall|j: int| 0 <= j < rows implies #[trigger] indices@[j] == before[if j == row { pivot as int } else if j == pivot {
                    row as int
                } else {
                    j
                }] by {}
                tt = lemma_tracks_swap(tt, imat(matrix@), imat(m0), imat(mat@), before, indices@, basis0, basis@, rows, cols, pp, row as int, pivot as int);
            }
        }
        proof {
            assert forall|t: int| 0 <= t < nrows implies #[trigger] mat@[t] == m0[if t == row { pivot as int } else if t == pivot {
                row as int
            } else {
                t
            }] by {}
            if good {
                assert forall|x: Seq<int>| x.len() == ncols implies (kills_i(m0, x, rows, cols, pp) <==> kills_i(mat@, x, rows, cols, pp)) by {
                    if kills_i(m0, x, rows, cols, pp) {
                        assert forall|i: int| 0 <= i < rows implies #[trigger] idot(mat@[i]@, x, cols) % pp == 0 by {
                            let s = if i == row { pivot as int } else if i == pivot { row as int } else { i };
                            assert(mat@[i] == m0[s]);
                            assert(idot(m0[s]@, x, cols) % pp == 0);
                        }
                    }
                    if kills_i(mat@, x, rows, cols, pp) {
                        assert forall|i: int| 0 <= i < rows implies #[trigger] idot(m0[i]@, x, cols) % pp == 0 by {
                            let s = if i == row { pivot as int } else if i == pivot { row as int } else { i };
                            assert(mat@[s] == m0[i]);
                            assert(idot(mat@[s]@, x, cols) % pp == 0);
                        }
                    }
                }
            }
        }
        let inv = mod_inv(mat[row][col], p);
        proof {
            vstd::arithmetic::div_mod::lemma_mod_bound(pow(mat@[row as int]@[col as int] as int, (p - 2) as nat), p as int);
        }
        let ghost m1 = mat@;
        let ghost v = mat@[row as int]@[col as int] as int;
        let scaled = scale_row_mod(&mat[row], inv, col, p);
        mat.set(row, scaled);
        proof {
            if good {
                assert(m1[row as int] == m0[pivot as int]);
                assert forall|k: int| 0 <= k < col implies #[trigger] m1[row as int]@[k] == 0 by {
                    if pcols.contains(k) {
                        let i = choose|i: int| 0 <= i < pcols.len() && pcols[i] == k;
                        assert(m0[pivot as int]@[pcols[i]] == 0);
                    } else {
                        assert(m0[pivot as int]@[k] == 0);
                    }
                }
                assert(1 <= v < pp);
                assert(((inv as int) * v) % pp == 1) by {
                    if p > 2 {
                        assert(((pow(v, (pp - 2) as nat) % pp) * v) % pp == 1);
                    } else {
                        assert(v == 1);
                    }
                }
                let a = m1[row as int]@;
                let nr = mat@[row as int]@;
                assert forall|k: int| 0 <= k < cols implies #[trigger] nr[k] == ((inv as int) * a[k] + 0 * a[k]) % pp by {
                    if k < col {
                        assert(a[k] == 0);
                        lemma_small(0, pp);
                    } else {
                        assert(a[k] * inv == (inv as int) * a[k]) by (nonlinear_arith);
                    }
                }
                assert forall|e: int| 0 <= e < cols implies #[trigger] mat@[row as int]@[e] == ((inv as int) * m1[row as int]@[e]) % pp by {
                    assert(nr[e] == ((inv as int) * a[e] + 0 * a[e]) % pp);
                }
                assert(basis@.contains(indices@[row as int])) by {
                    assert(basis@[row as int] == indices@[row as int]);
                }
                tt = lemma_tracks_scale(tt, imat(matrix@), imat(m1), imat(mat@), indices@, basis@, rows, cols, pp, row as int, inv as int);
                assert forall|x: Seq<int>| x.len() == ncols implies (kills_i(m1, x, rows, cols, pp) <==> kills_i(mat@, x, rows, cols, pp)) by {
                    lemma_idot_comb(pp, nr, a, a, inv as int, 0, x, cols);
                    let y = idot(a, x, cols);
                    let c = inv as int;
                    assert(idot(nr, x, cols) % pp == (c * y) % pp);
                    if kills_i(m1, x, rows, cols, pp) {
                        assert forall|i: int| 0 <= i < rows implies #[trigger] idot(mat@[i]@, x, cols) % pp == 0 by {
                            if i == row {
                                assert(y % pp == 0);
                                lemma_mod_ops(c, y, pp);
                                assert((c * (y % pp)) % pp == 0);
                            } else {
                                assert(mat@[i] == m1[i]);
                                assert(idot(m1[i]@, x, cols) % pp == 0);
                            }
                        }
                    }
                    if kills_i(mat@, x, rows, cols, pp) {
                        assert forall|i: int| 0 <= i < rows implies #[trigger] idot(m1[i]@, x, cols) % pp == 0 by {
                            if i == row {
                                assert(idot(nr, x, cols) % pp == 0);
                                assert((c * y) % pp == 0);
                                lemma_mod_ops(v, c * y, pp);
                                assert((v * ((c * y) % pp)) % pp == 0);
                                assert((v * (c * y)) % pp == 0);
                                assert(v * (c * y) == (c * v) * y) by (nonlinear_arith);
                                lemma_mod_ops(c * v, y, pp);
                                assert((((c * v) % pp) * y) % pp == 0);
                                assert(y % pp == 0);
                            } else {
                                assert(mat@[i] == m1[i]);
                                assert(idot(mat@[i]@, x, cols) % pp == 0);
                            }
                        }
                    }
                }
                assert(nr[col as int] == 1) by {
                    assert(v * inv == (inv as int) * v) by (nonlinear_arith);
                }
                assert(!col_dependent(matrix@, rows, cols, col as int, pp)) by {
                    if col_dependent(matrix@, rows, cols, col as int, pp) {
                        let j = col as int;
                        let x = choose|x: Seq<int>|
                            x.len() == cols && #[trigger] x[j] == 1 && (forall|k: int| j < k < cols ==> x[k] == 0) && kills_i(
                                matrix@,
                                x,
                                rows,
                                cols,
                                pp,
                            );
                        assert(x.len() == cols && x[j] == 1 && (forall|k: int| j < k < cols ==> x[k] == 0));
                        assert(kills_i(m1, x, rows, cols, pp));
                        assert(kills_i(mat@, x, rows, cols, pp));
                        assert forall|k: int| 0 <= k < col implies #[trigger] nr[k] == 0 by {
                            assert(nr[k] == m1[row as int]@[k]);
                            assert(m1[row as int]@[k] == 0);
                        }
                        assert forall|k: int| 0 <= k < cols && k != col && k != cols implies #[trigger] (nr[k] * x[k]) == 0 by {
                            if k < col {
                                assert(nr[k] == 0);
                            } else {
                                assert(j < k < cols);
                                assert(x[k] == 0);
                            }
                        }
                        lemma_idot_two(nr, x, cols, col as int, cols);
                        assert(idot(mat@[row as int]@, x, cols) % pp == 0);
                        lemma_small(1, pp);
                    }
                }
            }
        }
        let pivot_row_vals = mat[row].clone();
        let ghost pv = pivot_row_vals@;
        proof {
            assert(pv == mat@[row as int]@);
            if good {
                assert forall|k: int| 0 <= k < col implies #[trigger] pv[k] == 0 by {
                    assert(pv[k] == m1[row as int]@[k]);
                }
            }
        }
        proof {
            assert forall|j: int| row + 1 <= j < rows implies !basis@.contains(#[trigger] indices@[j]) by {
                if basis@.contains(indices@[j]) {
                    let q = choose|q: int| 0 <= q < basis@.len() && basis@[q] == indices@[j];
                    assert(basis@[q] == indices@[q]);
                }
            }
        }
        let mut r: usize = 0;
        while r < nrows
            invariant
                good ==> tracks(tt, imat(matrix@), imat(mat@), indices@, basis@, row + 1, rows, cols, pp),
                good ==> forall|k: int| 0 <= k < rows && !basis@.contains(k as usize) ==> #[trigger] tt[row as int][k] == 0,
                good ==> forall|j: int| row + 1 <= j < rows ==> !basis@.contains(#[trigger] indices@[j]),
                forall|j: int| 0 <= j < rows ==> #[trigger] indices@[j] < rows,
                prime_ok(p as int),
                pp == p as int,
                good == crate::linear_mod::inverses_ok(pp),
                rows == nrows as int,
                cols == ncols as int,
                nrows == mat@.len(),
                ncols == matrix@[0]@.len(),
                nrows == matrix@.len(),
                rectangular(mat@, ncols as int),
                reduced_matrix(mat@, p as int),
                row < nrows,
                col < ncols,
                pivot_row_vals@.len() == ncols,
                pv == pivot_row_vals@,
                forall|c: int| 0 <= c < ncols ==> 0 <= #[trigger] pivot_row_vals@[c] < p,
                r <= nrows,
                mat@[row as int]@ == pv,
                pv[col as int] == 1 || !good,
                good ==> forall|k: int| 0 <= k < col ==> #[trigger] pv[k] == 0,
                forall|t: int, k: int| 0 <= t < nrows && 0 <= k < col ==> #[trigger] mat@[t]@[k] == m1[t]@[k] || t == row,
                forall|t: int| 0 <= t < r && t != row ==> #[trigger] mat@[t]@[col as int] == 0 || !good,
                forall|t: int| r <= t < nrows && t != row ==> #[trigger] mat@[t] == m1[t],
                good ==> forall|x: Seq<int>| x.len() == ncols ==> (kills_i(matrix@, x, rows, cols, pp) <==> kills_i(mat@, x, rows, cols, pp)),
            decreases nrows - r,
        {
            if r != row {
                let factor = mat[r][col];
                if factor != 0 {
                    let ghost m2 = mat@;
                    let next = eliminate_row_mod(&mat[r], &pivot_row_vals, factor, col, p);
                    mat.set(r, next);
                    proof {
                        if good {
                            let a = m2[r as int]@;
                            let f = factor as int;
                            assert forall|k: int| 0 <= k < cols implies #[trigger] next@[k] == (1 * a[k] + (-f) * pv[k]) % pp by {
                                if k < col {
                                    lemma_small(a[k] as int, pp);
                                } else {
                                    assert(a[k] - factor * pv[k] == 1 * a[k] + (-f) * pv[k]) by (nonlinear_arith)
                                        requires
                                            f == factor,
                                    ;
                                }
                            }
                            assert forall|x: Seq<int>| x.len() == ncols implies (kills_i(m2, x, rows, cols, pp) <==> kills_i(mat@, x, rows, cols, pp)) by {
                                lemma_idot_comb(pp, next@, a, pv, 1, -f, x, cols);
                                let ya = idot(a, x, cols);
                                let yb = idot(pv, x, cols);
                                assert(mat@[row as int]@ == pv);
                                if kills_i(m2, x, rows, cols, pp) {
                                    assert forall|i: int| 0 <= i < rows implies #[trigger] idot(mat@[i]@, x, cols) % pp == 0 by {
                                        if i == r {
                                            assert(idot(m2[row as int]@, x, cols) % pp == 0);
                                            assert(idot(m2[r as int]@, x, cols) % pp == 0);
                                            crate::modular::lemma_lin_mod(1, ya, -f, yb, pp);
                                            assert(1 * (ya % pp) + (-f) * (yb % pp) == 0);
                                            lemma_small(0, pp);
                                        } else {
                                            assert(mat@[i] == m2[i]);
                                            assert(idot(m2[i]@, x, cols) % pp == 0);
                                        }
                                    }
                                }
                                if kills_i(mat@, x, rows, cols, pp) {
                                    assert forall|i: int| 0 <= i < rows implies #[trigger] idot(m2[i]@, x, cols) % pp == 0 by {
                                        if i == r {
                                            assert(idot(mat@[row as int]@, x, cols) % pp == 0);
                                            assert(yb % pp == 0);
                                            assert(idot(mat@[r as int]@, x, cols) % pp == 0);
                                            assert((1 * ya + (-f) * yb) % pp == 0);
                                            crate::modular::lemma_lin_mod(1, 1 * ya + (-f) * yb, f, yb, pp);
                                            lemma_small(0, pp);
                                            assert(f * (yb % pp) == 0) by (nonlinear_arith)
                                            requires
                                                yb % pp == 0,
                                        ;
                                        assert(1 * ((1 * ya + (-f) * yb) % pp) + f * (yb % pp) == 0);
                                            assert(1 * (1 * ya + (-f) * yb) + f * yb == ya) by (nonlinear_arith);
                                            assert(ya % pp == 0);
                                            assert(a == m2[r as int]@);
                                        } else {
                                            assert(mat@[i] == m2[i]);
                                            assert(idot(mat@[i]@, x, cols) % pp == 0);
                                        }
                                    }
                                }
                            }
                            assert(next@[col as int] == 0) by {
                                assert(a[col as int] - factor * pv[col as int] == 0);
                                lemma_small(0, pp);
                            }
                            assert(m2[row as int]@ == pv);
                            tt = lemma_tracks_elim(tt, imat(matrix@), imat(m2), imat(mat@), indices@, basis@, row + 1, rows, cols, pp, row as int, r as int, f);
                        }
                    }
                }
            }
            r += 1;
        }
        proof {
            if good {
                let c = col as int;
                let pc2 = pcols.push(c);
                assert forall|i: int, t: int| 0 <= i < row + 1 && 0 <= t < nrows implies #[trigger] mat@[t]@[pc2[i]] == (if t == i {
                    1i64
                } else {
                    0i64
                }) by {
                    if i < row {
                        assert(pc2[i] == pcols[i]);
                        let s = if t == row { pivot as int } else if t == pivot { row as int } else { t };
                        if t != row {
                            assert(mat@[t]@[pcols[i]] == m1[t]@[pcols[i]]);
                            assert(m1[t] == m0[s]);
                        } else {
                            assert(pv[pcols[i]] == 0);
                        }
                    } else {
                        if t != row {
                            assert(mat@[t]@[c] == 0);
                        }
                    }
                }
            }
        }
        proof {
            if good {
                assert forall|k: int, t: int| 0 <= k < col && row + 1 <= t < nrows && !pcols.contains(k) implies #[trigger] mat@[t]@[k] == 0 by {
                    let s = if t == pivot { row as int } else { t };
                    assert(mat@[t]@[k] == m1[t]@[k]);
                    assert(m1[t] == m0[s]);
                    assert(m0[s]@[k] == 0);
                }
            }
        }
        rank += 1;
        row += 1;
        proof {
            let ghost old_pcols = pcols;
            pcols = pcols.push(col as int);
            if good {
                assert forall|k: int| 0 <= k < col + 1 implies (#[trigger] col_dependent(matrix@, rows, cols, k, pp) <==> !pcols.contains(k)) by {
                    if k < col {
                        assert(pcols.contains(k) <==> old_pcols.contains(k)) by {
                            if pcols.contains(k) {
                                let i = choose|i: int| 0 <= i < pcols.len() && pcols[i] == k;
                                if i < old_pcols.len() {
                                    assert(old_pcols[i] == k);
                                }
                            }
                            if old_pcols.contains(k) {
                                let i = choose|i: int| 0 <= i < old_pcols.len() && old_pcols[i] == k;
                                assert(pcols[i] == k);
                            }
                        }
                    } else {
                        assert(pcols[row - 1] == col);
                    }
                }
                assert forall|k: int, t: int| 0 <= k < col + 1 && row <= t < nrows && !pcols.contains(k) implies #[trigger] mat@[t]@[k] == 0 by {
                    if k == col {
                        assert(pcols[row - 1] == col);
                    } else {
                        if old_pcols.contains(k) {
                            let i = choose|i: int| 0 <= i < old_pcols.len() && old_pcols[i] == k;
                            assert(pcols[i] == k);
                        }
                    }
                }
            }
        }
        if row >= nrows {
            proof {
                if good {
                    assert forall|k: int| col + 1 <= k < cols implies #[trigger] col_dependent(matrix@, rows, cols, k, pp) by {
                        let x = Seq::new(
                            ncols as nat,
                            |j: int|
                                if j == k {
                                    1int
                                } else if pcols.contains(j) {
                                    -(mat@[choose|i: int| 0 <= i < pcols.len() && pcols[i] == j]@[k] as int)
                                } else {
                                    0int
                                },
                        );
                        assert(!pcols.contains(k)) by {
                            if pcols.contains(k) {
                                let i = choose|i: int| 0 <= i < pcols.len() && pcols[i] == k;
                                assert(pcols[i] < col + 1);
                            }
                        }
                        assert forall|t: int| 0 <= t < rows implies #[trigger] idot(mat@[t]@, x, cols) % pp == 0 by {
                            let pc = pcols[t];
                            assert(pcols.contains(pc));
                            let ch = choose|i: int| 0 <= i < pcols.len() && pcols[i] == pc;
                            if ch < t {
                                assert(pcols[ch] < pcols[t]);
                            } else if ch > t {
                                assert(pcols[t] < pcols[ch]);
                            }
                            assert(x[pc] == -(mat@[t]@[k] as int));
                            assert forall|j: int| 0 <= j < cols && j != pc && j != k implies #[trigger] (mat@[t]@[j] * x[j]) == 0 by {
                                if pcols.contains(j) {
                                    let i = choose|i: int| 0 <= i < pcols.len() && pcols[i] == j;
                                    assert(i != t);
                                    assert(0 <= i < row && 0 <= t < nrows);
                                    assert(mat@[t]@[pcols[i]] == 0);
                                    assert(mat@[t]@[j] == 0);
                                } else {
                                    assert(x[j] == 0);
                                }
                            }
                            lemma_idot_two(mat@[t]@, x, cols, pc, k);
                            assert(mat@[t]@[pcols[t]] == 1);
                            assert(x[k] == 1);
                            assert(0 <= pc < cols && 0 <= k < cols && pc != k);
                            assert(idot(mat@[t]@, x, cols) == mat@[t]@[pc] * x[pc] + mat@[t]@[k] * x[k]);
                            let (a1, b1, c1, d1) = (mat@[t]@[pc] as int, x[pc], mat@[t]@[k] as int, x[k]);
                            assert(a1 * b1 + c1 * d1 == 0) by (nonlinear_arith)
                                requires
                                    a1 == 1,
                                    b1 == -c1,
                                    d1 == 1,
                            ;
                            assert(idot(mat@[t]@, x, cols) == 0);
                            lemma_small(0, pp);
                        }
                        assert(x.len() == ncols);
                        assert(kills_i(mat@, x, rows, cols, pp));
                        assert(kills_i(matrix@, x, rows, cols, pp));
                        assert forall|j: int| k < j < cols implies x[j] == 0 by {
                            if pcols.contains(j) {
                                let i = choose|i: int| 0 <= i < pcols.len() && pcols[i] == j;
                                assert(pcols[i] < col + 1);
                            }
                        }
                        assert(x[k] == 1);
                    }
                    lemma_new_cols_flat(matrix@, rows, cols, col + 1, cols, pp);
                }
            }
            proof {
                assert forall|a: int, b: int| 0 <= a < b < basis@.len() implies #[trigger] basis@[a] != #[trigger] basis@[b] by {
                    assert(basis@[a] == indices@[a]);
                    assert(basis@[b] == indices@[b]);
                }
                assert forall|a: int| 0 <= a < basis@.len() implies #[trigger] basis@[a] < nrows by {
                    assert(basis@[a] == indices@[a]);
                }
                if good {
                    lemma_full_span(imat(matrix@), indices@, basis@, pos, rows, cols, pp);
                }
            }
            return (rank, basis);
        }
        col += 1;
    }
    proof {
        assert forall|a: int, b: int| 0 <= a < b < basis@.len() implies #[trigger] basis@[a] != #[trigger] basis@[b] by {
            assert(basis@[a] == indices@[a]);
            assert(basis@[b] == indices@[b]);
        }
        assert forall|a: int| 0 <= a < basis@.len() implies #[trigger] basis@[a] < nrows by {
            assert(basis@[a] == indices@[a]);
        }
        if good {
            assert forall|j: int, e: int| row <= j < rows && 0 <= e < cols implies #[trigger] mat@[j]@[e] == 0 by {
                if pcols.contains(e) {
                    let i = choose|i: int| 0 <= i < pcols.len() && pcols[i] == e;
                    assert(mat@[j]@[pcols[i]] == 0);
                }
            }
            lemma_tracks_span(tt, imat(matrix@), imat(mat@), indices@, basis@, pos, row as int, rows, cols, pp);
        }
    }
    (rank, basis)
}

/// The `size`-by-`size` Hankel matrix `H[i][j] = values[i + j]`.
pub fn hankel_mod(values: &[i64], size: usize) -> (r: Vec<Vec<i64>>)
    requires
        size > 0 ==> 2 * size - 1 <= values@.len(),
    ensures
        r@.len() == size,
        rectangular(r@, size as int),
        forall|i: int, j: int| 0 <= i < size && 0 <= j < size ==> #[trigger] r@[i]@[j] == values@[i + j],
{
    let mut matrix: Vec<Vec<i64>> = Vec::with_capacity(size);
    let vlen = values.len();
    let mut i: usize = 0;
    while i < size
        invariant
            vlen == values@.len(),
            size > 0 ==> 2 * size - 1 <= values@.len(),
            i <= size,
            matrix@.len() == i,
            rectangular(matrix@, size as int),
            forall|t: int, j: int| 0 <= t < i && 0 <= j < size ==> #[trigger] matrix@[t]@[j] == values@[t + j],
        decreases size - i,
    {
        let mut row: Vec<i64> = Vec::with_capacity(size);
        let mut j: usize = 0;
        while j < size
            invariant
                vlen == values@.len(),
                size > 0 ==> 2 * size - 1 <= values@.len(),
                i < size,
                j <= size,
                row@.len() == j,
                forall|t: int| 0 <= t < j ==> #[trigger] row@[t] == values@[i + t],
            decreases size - j,
        {
            assert(i + j < values@.len());
            row.push(values[i + j]);
            j += 1;
        }
        matrix.push(row);
        i += 1;
    }
    matrix
}

/// The entries of `matrix` at rows `rows` and columns `cols`.
pub fn submatrix(matrix: &[Vec<i64>], rows: &[usize], cols: &[usize]) -> (r: Vec<Vec<i64>>)
    requires
        forall|k: int| 0 <= k < rows@.len() ==> #[trigger] rows@[k] < matrix@.len(),
        forall|k: int, c: int|
            #![trigger rows@[k], cols@[c]]
            0 <= k < rows@.len() && 0 <= c < cols@.len() ==> cols@[c] < matrix@[rows@[k] as int]@.len(),
    ensures
        r@.len() == rows@.len(),
        rectangular(r@, cols@.len() as int),
        forall|k: int, c: int|
            0 <= k < rows@.len() && 0 <= c < cols@.len() ==> #[trigger] r@[k]@[c] == matrix@[rows@[k] as int]@[cols@[c] as int],
{
    let mut out: Vec<Vec<i64>> = Vec::with_capacity(rows.len());
    let mut k: usize = 0;
    while k < rows.len()
        invariant
            forall|t: int| 0 <= t < rows@.len() ==> #[trigger] rows@[t] < matrix@.len(),
            forall|t: int, c: int|
                #![trigger rows@[t], cols@[c]]
                0 <= t < rows@.len() && 0 <= c < cols@.len() ==> cols@[c] < matrix@[rows@[t] as int]@.len(),
            k <= rows@.len(),
            out@.len() == k,
            rectangular(out@, cols@.len() as int),
            forall|t: int, c: int|
                0 <= t < k && 0 <= c < cols@.len() ==> #[trigger] out@[t]@[c] == matrix@[rows@[t] as int]@[cols@[c] as int],
        decreases rows@.len() - k,
    {
        let r = rows[k];
        let mut row: Vec<i64> = Vec::with_capacity(cols.len());
        let mut c: usize = 0;
        while c < cols.len()
            invariant
                forall|t: int, c2: int|
                    #![trigger rows@[t], cols@[c2]]
                    0 <= t < rows@.len() && 0 <= c2 < cols@.len() ==> cols@[c2] < matrix@[rows@[t] as int]@.len(),
                k < rows@.len(),
                r == rows@[k as int],
                r < matrix@.len(),
                c <= cols@.len(),
                row@.len() == c,
                forall|t: int| 0 <= t < c ==> #[trigger] row@[t] == matrix@[r as int]@[cols@[t] as int],
            decreases cols@.len() - c,
        {
            assert(cols@[c as int] < matrix@[rows@[k as int] as int]@.len());
            row.push(matrix[r][cols[c]]);
            c += 1;
        }
        out.push(row);
        k += 1;
    }
    out
}

/// One step of the 64-bit linear congruential generator.
pub fn lcg_next(state: u64) -> (r: u64)
    ensures
        r == crate::kze2::lcg_step_spec(state),
{
    crate::kze2::lcg_step(state)
}

/// `k` distinct indices below `n` (or all of them when `k >= n`), in
/// increasing order, drawn by a shuffle seeded with `seed`.
pub fn sample_indices(n: usize, k: usize, seed: u64) -> (r: Vec<usize>)
    ensures
        r@.len() == if k < n { k } else { n },
        forall|a: int| 0 <= a < r@.len() ==> #[trigger] r@[a] < n,
        forall|a: int, b: int| 0 <= a < b < r@.len() ==> #[trigger] r@[a] < #[trigger] r@[b],
{
    let mut indices: Vec<usize> = Vec::with_capacity(n);
    let mut t: usize = 0;
    while t < n
        invariant
            t <= n,
            indices@.len() == t,
            forall|q: int| 0 <= q < t ==> #[trigger] indices@[q] == q,
        decreases n - t,
    {
        indices.push(t);
        t += 1;
    }
    // indices stays a permutation of 0..n: entries below n, pairwise distinct
    let mut state = seed;
    let mut i = n;
    while i > 1
        invariant
            indices@.len() == n,
            i <= n,
            forall|q: int| 0 <= q < n ==> #[trigger] indices@[q] < n,
            forall|a: int, b: int| 0 <= a < b < n ==> #[trigger] indices@[a] != #[trigger] indices@[b],
        decreases i,
    {
        i -= 1;
        state = lcg_next(state);
        let j = (state % (i as u64 + 1)) as usize;
        let ghost before = indices@;
        swap_entries(&mut indices, i, j, 0);
        proof {
            assert forall|a: int, b: int| 0 <= a < b < n implies #[trigger] indices@[a] != #[trigger] indices@[b] by {
                let sa = if a == i { j as int } else if a == j { i as int } else { a };
                let sb = if b == i { j as int } else if b == j { i as int } else { b };
                assert(indices@[a] == before[sa]);
                assert(indices@[b] == before[sb]);
                if sa < sb {
                } else {
                    assert(before[sb] != before[sa]);
                }
            }
        }
    }
    let keep = if k < n { k } else { n };
    // mark the kept indices, then read them back in increasing order
    let mut marked: Vec<bool> = Vec::with_capacity(n);
    let mut t: usize = 0;
    while t < n
        invariant
            t <= n,
            marked@.len() == t,
            forall|q: int| 0 <= q < t ==> !#[trigger] marked@[q],
        decreases n - t,
    {
        marked.push(false);
        t += 1;
    }
    let mut a: usize = 0;
    while a < keep
        invariant
            keep <= n,
            indices@.len() == n,
            marked@.len() == n,
            a <= keep,
            forall|q: int| 0 <= q < n ==> #[trigger] indices@[q] < n,
            forall|x: int, y: int| 0 <= x < y < n ==> #[trigger] indices@[x] != #[trigger] indices@[y],
            forall|v: int| 0 <= v < n ==> (#[trigger] marked@[v] <==> exists|q: int| 0 <= q < a && indices@[q] == v),
        decreases keep - a,
    {
        let v = indices[a];
        marked.set(v, true);
        proof {
            assert forall|w: int| 0 <= w < n implies (#[trigger] marked@[w] <==> exists|q: int| 0 <= q < a + 1 && indices@[q] == w) by {
                if w == v {
                    assert(indices@[a as int] == w);
                }
                if marked@[w] && w != v {
                    let q = choose|q: int| 0 <= q < a && indices@[q] == w;
                    assert(0 <= q < a + 1 && indices@[q] == w);
                }
                if exists|q: int| 0 <= q < a + 1 && indices@[q] == w {
                    let q = choose|q: int| 0 <= q < a + 1 && indices@[q] == w;
                    if q < a {
                        assert(exists|q2: int| 0 <= q2 < a && indices@[q2] == w);
                    }
                }
            }
        }
        a += 1;
    }
    let mut out: Vec<usize> = Vec::with_capacity(keep);
    let ghost mut count: int = 0;
    let mut v: usize = 0;
    while v < n
        invariant
            keep <= n,
            indices@.len() == n,
            marked@.len() == n,
            v <= n,
            forall|w: int| 0 <= w < n ==> (#[trigger] marked@[w] <==> exists|q: int| 0 <= q < keep && indices@[q] == w),
            forall|x: int, y: int| 0 <= x < y < n ==> #[trigger] indices@[x] != #[trigger] indices@[y],
            forall|q: int| 0 <= q < n ==> #[trigger] indices@[q] < n,
            forall|x: int| 0 <= x < out@.len() ==> #[trigger] out@[x] < v,
            forall|x: int, y: int| 0 <= x < y < out@.len() ==> #[trigger] out@[x] < #[trigger] out@[y],
            out@.len() == marked_below(marked@, v as int),
        decreases n - v,
    {
        if marked[v] {
            out.push(v);
        }
        v += 1;
    }
    proof {
        lemma_marked_count(marked@, indices@, keep as int, n as int);
    }
    out
}

/// The number of marks among the first `v` entries.
pub open spec fn marked_below(marks: Seq<bool>, v: int) -> int
    decreases v,
{
    if v <= 0 {
        0
    } else {
        marked_below(marks, v - 1) + if marks[v - 1] { 1int } else { 0int }
    }
}

/// Marking the first `keep` entries of a sequence of distinct values below `n`
/// marks exactly `keep` values.
proof fn lemma_marked_count(marks: Seq<bool>, indices: Seq<usize>, keep: int, n: int)
    requires
        0 <= keep <= n,
        marks.len() == n,
        indices.len() == n,
        forall|q: int| 0 <= q < n ==> #[trigger] indices[q] < n,
        forall|x: int, y: int| 0 <= x < y < n ==> #[trigger] indices[x] != #[trigger] indices[y],
        forall|w: int| 0 <= w < n ==> (#[trigger] marks[w] <==> exists|q: int| 0 <= q < keep && indices[q] == w),
    ensures
        marked_below(marks, n) == keep,
{
    let s = Set::new(|w: int| 0 <= w < n && marks[w]);
    lemma_marked_below_is_card(marks, n);
    let img = Set::new(|w: int| exists|q: int| 0 <= q < keep && indices[q] == w);
    assert(s =~= img);
    lemma_image_card(indices, keep, n);
}

proof fn lemma_marked_below_is_card(marks: Seq<bool>, v: int)
    requires
        0 <= v <= marks.len(),
    ensures
        marked_below(marks, v) == Set::new(|w: int| 0 <= w < v && marks[w]).len(),
        Set::new(|w: int| 0 <= w < v && marks[w]).finite(),
    decreases v,
{
    let s = Set::new(|w: int| 0 <= w < v && marks[w]);
    if v == 0 {
        assert(s =~= Set::empty());
    } else {
        lemma_marked_below_is_card(marks, v - 1);
        let prev = Set::new(|w: int| 0 <= w < v - 1 && marks[w]);
        if marks[v - 1] {
            assert(s =~= prev.insert(v - 1));
        } else {
            assert(s =~= prev);
        }
    }
}

proof fn lemma_image_card(indices: Seq<usize>, keep: int, n: int)
    requires
        0 <= keep <= n,
        indices.len() == n,
        forall|x: int, y: int| 0 <= x < y < n ==> #[trigger] indices[x] != #[trigger] indices[y],
    ensures
        Set::new(|w: int| exists|q: int| 0 <= q < keep && indices[q] == w).len() == keep,
        Set::new(|w: int| exists|q: int| 0 <= q < keep && indices[q] == w).finite(),
    decreases keep,
{
    let s = Set::new(|w: int| exists|q: int| 0 <= q < keep && indices[q] == w);
    if keep == 0 {
        assert(s =~= Set::empty());
    } else {
        lemma_image_card(indices, keep - 1, n);
        let prev = Set::new(|w: int| exists|q: int| 0 <= q < keep - 1 && indices[q] == w);
        let e = indices[keep - 1] as int;
        assert(s =~= prev.insert(e)) by {
            assert forall|w: int| #[trigger] s.contains(w) implies prev.insert(e).contains(w) by {
                let q = choose|q: int| 0 <= q < keep && indices[q] == w;
                if q < keep - 1 {
                    assert(prev.contains(w));
                }
            }
            assert(s.contains(e)) by {
                assert(0 <= keep - 1 < keep && indices[keep - 1] == e);
            }
        }
        assert(!prev.contains(e)) by {
            if prev.contains(e) {
                let q = choose|q: int| 0 <= q < keep - 1 && indices[q] == e;
                assert(indices[q] != indices[keep - 1]);
            }
        }
    }
}

/// Residues of the values modulo `p`; `None` when a denominator is divisible by `p`.
pub fn values_to_mod(values: &[Rational], p: i64) -> (r: Option<Vec<i64>>)
    requires
        prime_ok(p as int),
    ensures
        r is None <==> unusable(values@, p as int),
        r matches Some(v) ==> v@.len() == values@.len() && forall|k: int|
            0 <= k < values@.len() ==> #[trigger] v@[k] == residue(values@[k], p as int),
{
    let mut out: Vec<i64> = Vec::with_capacity(values.len());
    let mut k: usize = 0;
    while k < values.len()
        invariant
            prime_ok(p as int),
            k <= values@.len(),
            out@.len() == k,
            forall|t: int| 0 <= t < k ==> (#[trigger] values@[t]).denom as int % p as int != 0,
            forall|t: int| 0 <= t < k ==> #[trigger] out@[t] == residue(values@[t], p as int),
        decreases values@.len() - k,
    {
        match coeff_mod(&values[k], p) {
            Some(v) => out.push(v),
            None => {
                return None;
            },
        }
        k += 1;
    }
    Some(out)
}

/// `numer * denom^(p-2) mod p`: the residue of `numer / denom` modulo the prime `p`.
pub open spec fn residue(c: Rational, p: int) -> int {
    ((c.numer as int % p) * (if p > 2 {
        pow(c.denom as int % p, (p - 2) as nat) % p
    } else {
        1
    })) % p
}

pub proof fn lemma_residue_bound(c: Rational, p: int)
    requires
        p > 0,
    ensures
        0 <= residue(c, p) < p,
{
    let x = (c.numer as int % p) * (if p > 2 {
        pow(c.denom as int % p, (p - 2) as nat) % p
    } else {
        1
    });
    vstd::arithmetic::div_mod::lemma_mod_bound(x, p);
}

/// The residue of one coefficient, unless its denominator vanishes modulo `p`.
pub fn coeff_mod(c: &Rational, p: i64) -> (r: Option<i64>)
    requires
        prime_ok(p as int),
    ensures
        r is None <==> c.denom as int % p as int == 0,
        r matches Some(v) ==> v == residue(*c, p as int) && 0 <= v < p,
{
    let denom_mod = mod_i64(c.denom, p);
    if denom_mod == 0 {
        return None;
    }
    let inv = mod_inv(denom_mod, p);
    let numer = mod_i64(c.numer, p);
    proof {
        if p > 2 {
            vstd::arithmetic::div_mod::lemma_mod_bound(pow(denom_mod as int, (p - 2) as nat), p as int);
        }
        assert(numer * inv <= MAX_PRIME * MAX_PRIME) by (nonlinear_arith)
            requires
                0 <= numer < MAX_PRIME,
                0 <= inv <= MAX_PRIME,
        ;
        assert(0 <= numer * inv) by (nonlinear_arith)
            requires
                0 <= numer,
                0 <= inv,
        ;
    }
    Some(mod_i64(numer * inv, p))
}

/// Residues of a matrix of coefficients modulo `p`.
pub fn matrix_to_mod(matrix: &[Vec<Rational>], p: i64) -> (r: Option<Vec<Vec<i64>>>)
    requires
        prime_ok(p as int),
    ensures
        r is None <==> exists|i: int, j: int|
            0 <= i < matrix@.len() && 0 <= j < matrix@[i]@.len() && (#[trigger] matrix@[i]@[j]).denom as int % p as int == 0,
        r matches Some(m) ==> m@.len() == matrix@.len() && (forall|i: int|
            0 <= i < matrix@.len() ==> #[trigger] m@[i]@.len() == matrix@[i]@.len()) && (forall|i: int, j: int|
            0 <= i < matrix@.len() && 0 <= j < matrix@[i]@.len() ==> #[trigger] m@[i]@[j] == residue(
                matrix@[i]@[j],
                p as int,
            )) && reduced_matrix(m@, p as int),
{
    let mut out: Vec<Vec<i64>> = Vec::with_capacity(matrix.len());
    let mut i: usize = 0;
    while i < matrix.len()
        invariant
            prime_ok(p as int),
            i <= matrix@.len(),
            out@.len() == i,
            forall|t: int, j: int|
                0 <= t < i && 0 <= j < matrix@[t]@.len() ==> (#[trigger] matrix@[t]@[j]).denom as int % p as int != 0,
            forall|t: int| 0 <= t < i ==> #[trigger] out@[t]@.len() == matrix@[t]@.len(),
            forall|t: int, j: int|
                0 <= t < i && 0 <= j < matrix@[t]@.len() ==> #[trigger] out@[t]@[j] == residue(matrix@[t]@[j], p as int),
            reduced_matrix(out@, p as int),
        decreases matrix@.len() - i,
    {
        let row = &matrix[i];
        let mut row_out: Vec<i64> = Vec::with_capacity(row.len());
        let mut j: usize = 0;
        while j < row.len()
            invariant
                prime_ok(p as int),
                i < matrix@.len(),
                row@ == matrix@[i as int]@,
                j <= row@.len(),
                row_out@.len() == j,
                forall|t: int| 0 <= t < j ==> (#[trigger] row@[t]).denom as int % p as int != 0,
                forall|t: int| 0 <= t < j ==> #[trigger] row_out@[t] == residue(row@[t], p as int),
                forall|t: int| 0 <= t < j ==> 0 <= #[trigger] row_out@[t] < p,
            decreases row@.len() - j,
        {
            match coeff_mod(&row[j], p) {
                Some(v) => row_out.push(v),
                None => {
                    proof {
                        assert(0 <= i < matrix@.len() && 0 <= j < matrix@[i as int]@.len() && matrix@[i as int]@[j as int].denom as int % p as int == 0);
                    }
                    return None;
                },
            }
            j += 1;
        }
        out.push(row_out);
        i += 1;
    }
    Some(out)
}

/// The largest entry, or 0 for none.
fn max_or_zero(ranks: &Vec<usize>) -> (r: usize)
    ensures
        forall|k: int| 0 <= k < ranks@.len() ==> #[trigger] ranks@[k] <= r,
        ranks@.len() == 0 ==> r == 0,
        ranks@.len() > 0 ==> exists|k: int| 0 <= k < ranks@.len() && ranks@[k] == r,
{
    let mut best: usize = 0;
    let mut k: usize = 0;
    while k < ranks.len()
        invariant
            k <= ranks@.len(),
            forall|t: int| 0 <= t < k ==> #[trigger] ranks@[t] <= best,
            k == 0 ==> best == 0,
            k > 0 ==> exists|t: int| 0 <= t < k && ranks@[t] == best,
        decreases ranks@.len() - k,
    {
        if k == 0 || ranks[k] > best {
            best = ranks[k];
        }
        k += 1;
    }
    best
}

/// Some denominator vanishes modulo `p`.
pub open spec fn unusable(values: Seq<Rational>, p: int) -> bool {
    exists|t: int| 0 <= t < values.len() && (#[trigger] values[t]).denom as int % p == 0
}

/// Every prime is usable.
pub open spec fn primes_ok(primes: Seq<i64>) -> bool {
    forall|k: int| 0 <= k < primes.len() ==> prime_ok(#[trigger] primes[k] as int)
}

/// The primes modulo which no denominator vanishes, with the residues of the values.
fn usable_primes(values: &[Rational], primes: &[i64]) -> (r: Vec<(i64, Vec<i64>)>)
    requires
        primes_ok(primes@),
    ensures
        forall|k: int| 0 <= k < r@.len() ==> prime_ok(#[trigger] r@[k].0 as int),
        forall|k: int| 0 <= k < r@.len() ==> (#[trigger] r@[k]).1@.len() == values@.len(),
        forall|k: int, t: int| 0 <= k < r@.len() && 0 <= t < values@.len() ==> #[trigger] r@[k].1@[t] == residue(values@[t], r@[k].0 as int),
        r@.len() == 0 <==> forall|k: int| 0 <= k < primes@.len() ==> unusable(values@, #[trigger] primes@[k] as int),
        forall|q: int| 0 <= q < r@.len() ==> primes@.contains(#[trigger] r@[q].0) && !unusable(values@, r@[q].0 as int),
        forall|k: int| 0 <= k < primes@.len() && !unusable(values@, #[trigger] primes@[k] as int) ==> exists|q: int|
            0 <= q < r@.len() && #[trigger] r@[q].0 == primes@[k],
{
    let mut out: Vec<(i64, Vec<i64>)> = Vec::new();
    let mut k: usize = 0;
    while k < primes.len()
        invariant
            primes_ok(primes@),
            k <= primes@.len(),
            forall|q: int| 0 <= q < out@.len() ==> prime_ok(#[trigger] out@[q].0 as int),
            forall|q: int| 0 <= q < out@.len() ==> (#[trigger] out@[q]).1@.len() == values@.len(),
            forall|q: int, t: int| 0 <= q < out@.len() && 0 <= t < values@.len() ==> #[trigger] out@[q].1@[t] == residue(values@[t], out@[q].0 as int),
            out@.len() == 0 <==> forall|q: int| 0 <= q < k ==> unusable(values@, #[trigger] primes@[q] as int),
            forall|q: int| 0 <= q < out@.len() ==> primes@.contains(#[trigger] out@[q].0) && !unusable(values@, out@[q].0 as int),
            forall|q: int| 0 <= q < k && !unusable(values@, #[trigger] primes@[q] as int) ==> exists|w: int|
                0 <= w < out@.len() && #[trigger] out@[w].0 == primes@[q],
        decreases primes@.len() - k,
    {
        let p = primes[k];
        let ghost before = out@;
        match values_to_mod(values, p) {
            Some(vals) => {
                out.push((p, vals));
                proof {
                    assert(!unusable(values@, primes@[k as int] as int));
                    assert(primes@[k as int] == p);
                    assert forall|q: int| 0 <= q < out@.len() implies primes@.contains(#[trigger] out@[q].0) && !unusable(values@, out@[q].0 as int) by {
                        if q < before.len() {
                            assert(out@[q] == before[q]);
                        }
                    }
                    assert forall|q: int| 0 <= q < k + 1 && !unusable(values@, #[trigger] primes@[q] as int) implies exists|w: int|
                        0 <= w < out@.len() && #[trigger] out@[w].0 == primes@[q] by {
                        if q < k {
                            let w = choose|w: int| 0 <= w < before.len() && #[trigger] before[w].0 == primes@[q];
                            assert(out@[w] == before[w]);
                        } else {
                            assert(out@[before.len() as int].0 == primes@[q]);
                        }
                    }
                }
            },
            None => {},
        }
        proof {
            if out@.len() == 0 {
                assert forall|q: int| 0 <= q < k + 1 implies unusable(values@, #[trigger] primes@[q] as int) by {
                    if q < k {
                    }
                }
            }
        }
        k += 1;
    }
    out
}

/// Every prime of the list inverts each nonzero residue by Fermat's little
/// theorem (as every prime does).
pub open spec fn all_inverses_ok(primes: Seq<i64>) -> bool {
    forall|k: int| 0 <= k < primes.len() ==> crate::linear_mod::inverses_ok(#[trigger] primes[k] as int)
}

/// Entry `n` of a rank curve: 0 when the values are too few for the
/// `(n+1)`-square Hankel matrix; else (for primes that all invert) the largest
/// Hankel rank modulo the primes that the values' denominators leave usable.
pub open spec fn curve_entry_ok(values: Seq<Rational>, primes: Seq<i64>, n: int, c: int) -> bool {
    &&& values.len() < 2 * n + 1 ==> c == 0
    &&& all_inverses_ok(primes) && 2 * n + 1 <= values.len() ==> {
        &&& forall|k: int|
            0 <= k < primes.len() && !unusable(values, primes[k] as int) ==> #[trigger] hankel_rank(values, primes[k] as int, n + 1)
                <= c
        &&& exists|k: int|
            0 <= k < primes.len() && !unusable(values, primes[k] as int) && c == #[trigger] hankel_rank(
                values,
                primes[k] as int,
                n + 1,
            )
    }
}

/// For each `n <= nmax`, the largest rank modulo the usable primes of the
/// `(n+1)`-square Hankel matrix of the values (0 when the values are too few).
pub fn rank_curve_mod_p(values: &[Rational], primes: &[i64], nmax: usize) -> (r: Result<Vec<usize>, ExperimentError>)
    requires
        primes_ok(primes@),
        nmax < usize::MAX,
    ensures
        r is Err <==> forall|k: int| 0 <= k < primes@.len() ==> unusable(values@, #[trigger] primes@[k] as int),
        r matches Ok(curve) ==> curve@.len() == nmax + 1 && forall|n: int|
            0 <= n <= nmax ==> #[trigger] curve@[n] <= n + 1,
        r matches Ok(curve) ==> forall|n: int| 0 <= n <= nmax ==> curve_entry_ok(values@, primes@, n, #[trigger] curve@[n] as int),
{
    let mod_values = usable_primes(values, primes);
    if mod_values.len() == 0 {
        return Err(ExperimentError::InvalidConfig("no usable primes for mod-p rank".to_string()));
    }
    let ghost good = all_inverses_ok(primes@);
    let mut out: Vec<usize> = Vec::with_capacity(nmax + 1);
    let mut n: usize = 0;
    while n <= nmax
        invariant
            nmax < usize::MAX,
            n <= nmax + 1,
            out@.len() == n,
            mod_values@.len() > 0,
            good == all_inverses_ok(primes@),
            forall|q: int| 0 <= q < n ==> #[trigger] out@[q] <= q + 1,
            forall|q: int| 0 <= q < n ==> curve_entry_ok(values@, primes@, q, #[trigger] out@[q] as int),
            forall|k: int| 0 <= k < mod_values@.len() ==> prime_ok(#[trigger] mod_values@[k].0 as int),
            forall|k: int| 0 <= k < mod_values@.len() ==> (#[trigger] mod_values@[k]).1@.len() == values@.len(),
            forall|k: int, t: int| 0 <= k < mod_values@.len() && 0 <= t < values@.len() ==> #[trigger] mod_values@[k].1@[t] == residue(values@[t], mod_values@[k].0 as int),
            forall|q: int| 0 <= q < mod_values@.len() ==> primes@.contains(#[trigger] mod_values@[q].0) && !unusable(values@, mod_values@[q].0 as int),
            forall|k: int| 0 <= k < primes@.len() && !unusable(values@, #[trigger] primes@[k] as int) ==> exists|q: int|
                0 <= q < mod_values@.len() && #[trigger] mod_values@[q].0 == primes@[k],
        decreases nmax + 1 - n,
    {
        let m = n + 1;
        let ghost enough = 2 * n + 1 <= values@.len();
        let mut ranks: Vec<usize> = Vec::new();
        let mut k: usize = 0;
        while k < mod_values.len()
            invariant
                m == n + 1,
                enough == (2 * n + 1 <= values@.len()),
                good == all_inverses_ok(primes@),
                k <= mod_values@.len(),
                forall|q: int| 0 <= q < ranks@.len() ==> #[trigger] ranks@[q] <= m,
                forall|q: int| 0 <= q < mod_values@.len() ==> prime_ok(#[trigger] mod_values@[q].0 as int),
                forall|q: int| 0 <= q < mod_values@.len() ==> (#[trigger] mod_values@[q]).1@.len() == values@.len(),
                forall|q: int, t: int| 0 <= q < mod_values@.len() && 0 <= t < values@.len() ==> #[trigger] mod_values@[q].1@[t] == residue(values@[t], mod_values@[q].0 as int),
                forall|q: int| 0 <= q < mod_values@.len() ==> primes@.contains(#[trigger] mod_values@[q].0) && !unusable(values@, mod_values@[q].0 as int),
                !enough ==> ranks@.len() == 0,
                enough ==> ranks@.len() == k,
                enough && good ==> forall|q: int| 0 <= q < ranks@.len() ==> #[trigger] ranks@[q] == hankel_rank(values@, mod_values@[q].0 as int, m as int),
            decreases mod_values@.len() - k,
        {
            let (p, vals) = (&mod_values[k].0, &mod_values[k].1);
            if vals.len() >= n && vals.len() - n > n {
                let matrix = hankel_mod(vals.as_slice(), m);
                proof {
                    assert forall|i: int, j: int| 0 <= i < matrix@.len() && 0 <= j < matrix@[i]@.len() implies 0 <= #[trigger] matrix@[i]@[j] < *p by {
                        assert(matrix@[i]@[j] == vals@[i + j]);
                        lemma_residue_bound(values@[i + j], *p as int);
                    }
                }
                let rank = rank_mod_p(matrix.as_slice(), *p);
                proof {
                    if good {
                        let pk = *p as int;
                        let f = |i: int, j: int| residue(values@[i + j], pk);
                        assert forall|i: int, j: int| 0 <= i < m && 0 <= j < m implies matrix@[i]@[j] as int == #[trigger] f(i, j) by {
                            assert(matrix@[i]@[j] == vals@[i + j]);
                        }
                        lemma_rank_entries(matrix@, f, m as int, m as int, pk);
                        assert(primes@.contains(mod_values@[k as int].0));
                        let w = choose|w: int| 0 <= w < primes@.len() && primes@[w] == mod_values@[k as int].0;
                        assert(crate::linear_mod::inverses_ok(primes@[w] as int));
                        assert(rank == hankel_rank(values@, pk, m as int));
                    }
                }
                let ghost before = ranks@;
                ranks.push(rank);
                proof {
                    if enough && good {
                        assert forall|q: int| 0 <= q < ranks@.len() implies #[trigger] ranks@[q] == hankel_rank(values@, mod_values@[q].0 as int, m as int) by {
                            if q < before.len() {
                                assert(ranks@[q] == before[q]);
                            }
                        }
                    }
                }
            } else {
                proof {
                    assert(!enough);
                }
            }
            k += 1;
        }
        let estimate = max_or_zero(&ranks);
        proof {
            if enough && good {
                assert forall|kk: int| 0 <= kk < primes@.len() && !unusable(values@, primes@[kk] as int) implies #[trigger] hankel_rank(
                    values@,
                    primes@[kk] as int,
                    n + 1,
                ) <= estimate by {
                    let q = choose|q: int| 0 <= q < mod_values@.len() && #[trigger] mod_values@[q].0 == primes@[kk];
                    assert(ranks@[q] <= estimate);
                }
                let q = choose|q: int| 0 <= q < ranks@.len() && ranks@[q] == estimate;
                assert(primes@.contains(mod_values@[q].0));
                let kk = choose|kk: int| 0 <= kk < primes@.len() && primes@[kk] == mod_values@[q].0;
                assert(estimate == hankel_rank(values@, primes@[kk] as int, n + 1));
            }
            assert(curve_entry_ok(values@, primes@, n as int, estimate as int));
        }
        let ghost before_out = out@;
        out.push(estimate);
        proof {
            assert forall|q: int| 0 <= q < n + 1 implies curve_entry_ok(values@, primes@, q, #[trigger] out@[q] as int) by {
                if q < n {
                    assert(out@[q] == before_out[q]);
                }
            }
        }
        n += 1;
    }
    Ok(out)
}


/// The rank modulo `p` of the residues of a matrix of coefficients.
pub open spec fn residue_rank(m: Seq<Vec<Rational>>, p: int) -> nat {
    matrix_rank(|i: int, j: int| residue(m[i]@[j], p), m.len() as int, m[0]@.len() as int, p)
}

/// Some denominator of the matrix vanishes modulo `p`.
pub open spec fn unusable_matrix(m: Seq<Vec<Rational>>, p: int) -> bool {
    exists|i: int, j: int| 0 <= i < m.len() && 0 <= j < m[i]@.len() && (#[trigger] m[i]@[j]).denom as int % p == 0
}

/// All rows of a coefficient matrix have `cols` entries.
pub open spec fn rectangular_rat(m: Seq<Vec<Rational>>, cols: int) -> bool {
    forall|i: int| 0 <= i < m.len() ==> #[trigger] m[i]@.len() == cols
}

/// The largest rank of `matrix` modulo the primes for which no denominator
/// vanishes; 0 for a matrix without rows or columns.
pub fn rank_matrix_mod_p(matrix: &[Vec<Rational>], primes: &[i64]) -> (r: Result<usize, ExperimentError>)
    requires
        primes_ok(primes@),
        matrix@.len() > 0 ==> rectangular_rat(matrix@, matrix@[0]@.len() as int),
    ensures
        (matrix@.len() == 0 || matrix@[0]@.len() == 0) ==> r == Ok::<usize, ExperimentError>(0),
        (matrix@.len() > 0 && matrix@[0]@.len() > 0) ==> (r is Err <==> forall|k: int|
            0 <= k < primes@.len() ==> unusable_matrix(matrix@, #[trigger] primes@[k] as int)),
        r matches Ok(rank) ==> rank <= matrix@.len() && (matrix@.len() > 0 ==> rank <= matrix@[0]@.len()),
        r matches Ok(rank) ==> matrix@.len() > 0 && matrix@[0]@.len() > 0 && all_inverses_ok(primes@) ==> {
            &&& forall|k: int|
                0 <= k < primes@.len() && !unusable_matrix(matrix@, primes@[k] as int) ==> #[trigger] residue_rank(
                    matrix@,
                    primes@[k] as int,
                ) <= rank
            &&& exists|k: int|
                0 <= k < primes@.len() && !unusable_matrix(matrix@, primes@[k] as int) && rank == #[trigger] residue_rank(
                    matrix@,
                    primes@[k] as int,
                )
        },
{
    if matrix.len() == 0 || matrix[0].len() == 0 {
        return Ok(0);
    }
    let ghost ncols = matrix@[0]@.len();
    let ghost good = all_inverses_ok(primes@);
    let mut ranks: Vec<usize> = Vec::new();
    let ghost mut which: Seq<int> = Seq::empty();
    let mut k: usize = 0;
    while k < primes.len()
        invariant
            primes_ok(primes@),
            good == all_inverses_ok(primes@),
            matrix@.len() > 0,
            ncols == matrix@[0]@.len(),
            rectangular_rat(matrix@, ncols as int),
            k <= primes@.len(),
            forall|q: int| 0 <= q < ranks@.len() ==> #[trigger] ranks@[q] <= matrix@.len() && ranks@[q] <= ncols,
            ranks@.len() == 0 <==> forall|q: int| 0 <= q < k ==> unusable_matrix(matrix@, #[trigger] primes@[q] as int),
            which.len() == ranks@.len(),
            forall|q: int| 0 <= q < which.len() ==> 0 <= #[trigger] which[q] < k && !unusable_matrix(matrix@, primes@[which[q]] as int),
            good ==> forall|q: int| 0 <= q < ranks@.len() ==> #[trigger] ranks@[q] == residue_rank(matrix@, primes@[which[q]] as int),
            forall|q: int| 0 <= q < k && !unusable_matrix(matrix@, #[trigger] primes@[q] as int) ==> exists|w: int|
                0 <= w < which.len() && #[trigger] which[w] == q,
        decreases primes@.len() - k,
    {
        let p = primes[k];
        let ghost before = ranks@;
        let ghost wb = which;
        match matrix_to_mod(matrix, p) {
            Some(m) => {
                proof {
                    assert(!unusable_matrix(matrix@, primes@[k as int] as int));
                    assert(rectangular(m@, m@[0]@.len() as int));
                }
                let rank = rank_mod_p(m.as_slice(), p);
                proof {
                    if good {
                        assert(crate::linear_mod::inverses_ok(primes@[k as int] as int));
                        let f = |i: int, j: int| residue(matrix@[i]@[j], p as int);
                        assert forall|i: int, j: int| 0 <= i < matrix@.len() && 0 <= j < ncols implies m@[i]@[j] as int == #[trigger] f(i, j) by {
                            assert(matrix@[i]@.len() == ncols);
                        }
                        lemma_rank_entries(m@, f, matrix@.len() as int, ncols as int, p as int);
                    }
                }
                ranks.push(rank);
                proof {
                    which = which.push(k as int);
                    assert forall|q: int| 0 <= q < which.len() implies 0 <= #[trigger] which[q] < k + 1 && !unusable_matrix(matrix@, primes@[which[q]] as int) by {
                        if q < wb.len() {
                            assert(which[q] == wb[q]);
                        }
                    }
                    if good {
                        assert forall|q: int| 0 <= q < ranks@.len() implies #[trigger] ranks@[q] == residue_rank(matrix@, primes@[which[q]] as int) by {
                            if q < before.len() {
                                assert(ranks@[q] == before[q]);
                                assert(which[q] == wb[q]);
                            }
                        }
                    }
                    assert forall|q: int| 0 <= q < k + 1 && !unusable_matrix(matrix@, #[trigger] primes@[q] as int) implies exists|w: int|
                        0 <= w < which.len() && #[trigger] which[w] == q by {
                        if q < k {
                            let w = choose|w: int| 0 <= w < wb.len() && #[trigger] wb[w] == q;
                            assert(which[w] == q);
                        } else {
                            assert(which[wb.len() as int] == q);
                        }
                    }
                }
            },
            None => {},
        }
        proof {
            if ranks@.len() == 0 {
                assert forall|q: int| 0 <= q < k + 1 implies unusable_matrix(matrix@, #[trigger] primes@[q] as int) by {
                    if q < k {
                    }
                }
            }
        }
        k += 1;
    }
    if ranks.len() == 0 {
        return Err(ExperimentError::InvalidConfig("no usable primes for matrix mod-p rank".to_string()));
    }
    let best = max_or_zero(&ranks);
    proof {
        if good {
            assert forall|kk: int| 0 <= kk < primes@.len() && !unusable_matrix(matrix@, primes@[kk] as int) implies #[trigger] residue_rank(
                matrix@,
                primes@[kk] as int,
            ) <= best by {
                let w = choose|w: int| 0 <= w < which.len() && #[trigger] which[w] == kk;
                assert(ranks@[w] <= best);
            }
            let q = choose|q: int| 0 <= q < ranks@.len() && ranks@[q] == best;
            assert(best == residue_rank(matrix@, primes@[which[q]] as int));
        }
    }
    Ok(best)
}

/// Like [`rank_curve_mod_p`], but each Hankel matrix is cut down to the rows
/// and columns that [`sample_indices`] draws (columns with the next seed).
pub fn rank_curve_subsample(
    values: &[Rational],
    primes: &[i64],
    nmax: usize,
    sample_size: usize,
    seed: u64,
) -> (r: Result<Vec<usize>, ExperimentError>)
    requires
        primes_ok(primes@),
        nmax < usize::MAX,
    ensures
        r is Err <==> forall|k: int| 0 <= k < primes@.len() ==> unusable(values@, #[trigger] primes@[k] as int),
        r matches Ok(curve) ==> curve@.len() == nmax + 1 && forall|n: int|
            0 <= n <= nmax ==> #[trigger] curve@[n] <= n + 1 && curve@[n] <= sample_size,
{
    let mod_values = usable_primes(values, primes);
    if mod_values.len() == 0 {
        return Err(ExperimentError::InvalidConfig("no usable primes for mod-p rank".to_string()));
    }
    let mut out: Vec<usize> = Vec::with_capacity(nmax + 1);
    let mut n: usize = 0;
    while n <= nmax
        invariant
            nmax < usize::MAX,
            n <= nmax + 1,
            out@.len() == n,
            forall|q: int| 0 <= q < n ==> #[trigger] out@[q] <= q + 1 && out@[q] <= sample_size,
            forall|k: int| 0 <= k < mod_values@.len() ==> prime_ok(#[trigger] mod_values@[k].0 as int),
            forall|k: int| 0 <= k < mod_values@.len() ==> (#[trigger] mod_values@[k]).1@.len() == values@.len(),
            forall|k: int, t: int| 0 <= k < mod_values@.len() && 0 <= t < values@.len() ==> #[trigger] mod_values@[k].1@[t] == residue(values@[t], mod_values@[k].0 as int),
        decreases nmax + 1 - n,
    {
        let m = n + 1;
        let size = if sample_size < m { sample_size } else { m };
        let rows = sample_indices(m, size, seed);
        let cols = sample_indices(m, size, seed.wrapping_add(1));
        let mut ranks: Vec<usize> = Vec::new();
        let mut k: usize = 0;
        while k < mod_values.len()
            invariant
                m == n + 1,
                size <= m,
                size <= sample_size,
                rows@.len() == size,
                cols@.len() == size,
                forall|a: int| 0 <= a < rows@.len() ==> #[trigger] rows@[a] < m,
                forall|a: int| 0 <= a < cols@.len() ==> #[trigger] cols@[a] < m,
                k <= mod_values@.len(),
                forall|q: int| 0 <= q < ranks@.len() ==> #[trigger] ranks@[q] <= size,
                forall|q: int| 0 <= q < mod_values@.len() ==> prime_ok(#[trigger] mod_values@[q].0 as int),
                forall|q: int| 0 <= q < mod_values@.len() ==> (#[trigger] mod_values@[q]).1@.len() == values@.len(),
                forall|q: int, t: int| 0 <= q < mod_values@.len() && 0 <= t < values@.len() ==> #[trigger] mod_values@[q].1@[t] == residue(values@[t], mod_values@[q].0 as int),
            decreases mod_values@.len() - k,
        {
            let (p, vals) = (&mod_values[k].0, &mod_values[k].1);
            if vals.len() >= n && vals.len() - n > n {
                let matrix = hankel_mod(vals.as_slice(), m);
                let sub = submatrix(matrix.as_slice(), rows.as_slice(), cols.as_slice());
                proof {
                    assert forall|i: int, j: int| 0 <= i < sub@.len() && 0 <= j < sub@[i]@.len() implies 0 <= #[trigger] sub@[i]@[j] < *p by {
                        let (a, b) = (rows@[i] as int, cols@[j] as int);
                        assert(sub@[i]@[j] == matrix@[a]@[b]);
                        assert(matrix@[a]@[b] == vals@[a + b]);
                        lemma_residue_bound(values@[a + b], *p as int);
                    }
                }
                let rank = rank_mod_p(sub.as_slice(), *p);
                ranks.push(rank);
            }
            k += 1;
        }
        let estimate = max_or_zero(&ranks);
        proof {
            if ranks@.len() > 0 {
                let w = choose|w: int| 0 <= w < ranks@.len() && ranks@[w] == estimate;
                assert(ranks@[w] <= size);
            }
        }
        out.push(estimate);
        n += 1;
    }
    Ok(out)
}

} // verus!
