//! Dense matrices and vectors over a prime field.
use crate::error::ExperimentError;
use crate::kze2::field::{lemma_fp_eq, Field, Fp};
use crate::modular::{gcd, lemma_mod_ops, lemma_small};
use crate::rank_scan::span::{
    in_row_span, inverts, lemma_full_span, lemma_tracks_elim, lemma_tracks_init, lemma_tracks_scale, lemma_tracks_span,
    lemma_tracks_swap, tracks,
};
use vstd::prelude::*;

verus! {

pub type Matrix = Vec<Vec<Fp>>;

pub type Vector = Vec<Fp>;

/// Every entry of `v` (of length `n`) is a residue of `field`.
pub open spec fn is_vec(field: Field, v: Seq<Fp>, n: int) -> bool {
    &&& v.len() == n
    &&& forall|k: int| 0 <= k < n ==> field.holds(#[trigger] v[k])
}

/// `m` has `rows` rows of `cols` residues each.
pub open spec fn is_mat(field: Field, m: Seq<Vec<Fp>>, rows: int, cols: int) -> bool {
    &&& m.len() == rows
    &&& forall|i: int| 0 <= i < rows ==> #[trigger] m[i]@.len() == cols
    &&& forall|i: int, j: int| 0 <= i < rows && 0 <= j < cols ==> field.holds(#[trigger] m[i]@[j])
}

/// Integer value of entry `(i, j)`.
#[verifier::inline]
pub open spec fn ent(m: Seq<Vec<Fp>>, i: int, j: int) -> int {
    m[i]@[j].val()
}

/// The values of a matrix's entries.
pub open spec fn fmat(m: Seq<Vec<Fp>>) -> Seq<Seq<int>> {
    Seq::new(m.len(), |i: int| Seq::new(m[i]@.len(), |j: int| m[i]@[j].val()))
}

/// `sum_{k < n} a[k] * b[k]` over the integers.
pub open spec fn dot_spec(a: Seq<Fp>, b: Seq<Fp>, n: int) -> int
    decreases n,
{
    if n <= 0 {
        0
    } else {
        dot_spec(a, b, n - 1) + a[n - 1].val() * b[n - 1].val()
    }
}

/// `sum_{k < n} v[k] * m[k][col]` over the integers: entry `col` of `v * m`.
pub open spec fn col_spec(v: Seq<Fp>, m: Seq<Vec<Fp>>, col: int, n: int) -> int
    decreases n,
{
    if n <= 0 {
        0
    } else {
        col_spec(v, m, col, n - 1) + v[n - 1].val() * m[n - 1]@[col].val()
    }
}

/// `prod` is `left * right` modulo the field's prime, with `inner` summed terms.
pub open spec fn is_product(
    field: Field,
    prod: Seq<Vec<Fp>>,
    left: Seq<Vec<Fp>>,
    right: Seq<Vec<Fp>>,
    rows: int,
    cols: int,
    inner: int,
) -> bool {
    &&& is_mat(field, prod, rows, cols)
    &&& forall|i: int, j: int|
        0 <= i < rows && 0 <= j < cols ==> #[trigger] ent(prod, i, j) == field.of(
            col_spec(left[i]@, right, j, inner),
        )
}

/// `m` is the `n`-by-`n` identity.
pub open spec fn is_identity(m: Seq<Vec<Fp>>, n: int) -> bool {
    &&& m.len() == n
    &&& forall|i: int| 0 <= i < n ==> #[trigger] m[i]@.len() == n
    &&& forall|i: int, j: int|
        0 <= i < n && 0 <= j < n ==> #[trigger] ent(m, i, j) == (if i == j {
            1int
        } else {
            0int
        })
}

/// Entries `k < n` of `v` are `alpha * a[k] + beta * b[k]` modulo `p`.
pub open spec fn lin_comb(
    p: int,
    v: Seq<Fp>,
    a: Seq<Fp>,
    b: Seq<Fp>,
    alpha: int,
    beta: int,
    n: int,
) -> bool {
    forall|k: int|
        0 <= k < n ==> #[trigger] v[k].val() == (alpha * a[k].val() + beta * b[k].val()) % p
}

/// `col_spec` is linear in its row vector, modulo `p`.
pub proof fn lemma_col_spec_linear(
    p: int,
    v: Seq<Fp>,
    a: Seq<Fp>,
    b: Seq<Fp>,
    alpha: int,
    beta: int,
    m: Seq<Vec<Fp>>,
    col: int,
    n: int,
)
    requires
        p > 0,
        lin_comb(p, v, a, b, alpha, beta, n),
    ensures
        col_spec(v, m, col, n) % p == (alpha * col_spec(a, m, col, n) + beta * col_spec(
            b,
            m,
            col,
            n,
        )) % p,
    decreases n,
{
    if n > 0 {
        lemma_col_spec_linear(p, v, a, b, alpha, beta, m, col, n - 1);
        let sv = col_spec(v, m, col, n - 1);
        let sa = col_spec(a, m, col, n - 1);
        let sb = col_spec(b, m, col, n - 1);
        let x = m[n - 1]@[col].val();
        let av = a[n - 1].val();
        let bv = b[n - 1].val();
        let w = alpha * av + beta * bv;
        assert(v[n - 1].val() == w % p);
        lemma_mod_ops(w, x, p);
        lemma_mod_ops(sv, (w % p) * x, p);
        lemma_mod_ops(sv, w * x, p);
        lemma_mod_ops(alpha * sa + beta * sb, w * x, p);
        assert((sv + v[n - 1].val() * x) % p == (sv % p + ((w % p) * x) % p) % p);
        assert(((w % p) * x) % p == (w * x) % p);
        assert((sv % p + (w * x) % p) % p == (sv + w * x) % p);
        lemma_mod_ops(alpha * sa + beta * sb, w * x, p);
        assert((sv + w * x) % p == (alpha * sa + beta * sb + w * x) % p) by {
            lemma_mod_ops(sv, w * x, p);
            lemma_mod_ops(alpha * sa + beta * sb, w * x, p);
        }
        lemma_expand(alpha, beta, sa, sb, av, bv, x);
    }
}

proof fn lemma_expand(alpha: int, beta: int, sa: int, sb: int, av: int, bv: int, x: int)
    ensures
        alpha * sa + beta * sb + (alpha * av + beta * bv) * x == alpha * (sa + av * x) + beta * (sb
            + bv * x),
{
    assert((alpha * av + beta * bv) * x == alpha * (av * x) + beta * (bv * x)) by (nonlinear_arith);
    assert(alpha * (sa + av * x) == alpha * sa + alpha * (av * x)) by (nonlinear_arith);
    assert(beta * (sb + bv * x) == beta * sb + beta * (bv * x)) by (nonlinear_arith);
}

proof fn lemma_neg_mul(f: int, y: int)
    ensures
        (-f) * y == -(f * y),
        1 * y == y,
{
    assert((-f) * y == -(f * y)) by (nonlinear_arith);
}

/// The row `e_i` picks row `i` of `m`.
pub proof fn lemma_col_spec_unit(v: Seq<Fp>, m: Seq<Vec<Fp>>, col: int, i: int, n: int)
    requires
        0 <= i,
        v.len() >= n,
        forall|k: int| 0 <= k < n ==> #[trigger] v[k].val() == (if k == i { 1int } else { 0int }),
    ensures
        col_spec(v, m, col, n) == (if i < n { m[i]@[col].val() } else { 0 }),
    decreases n,
{
    if n > 0 {
        lemma_col_spec_unit(v, m, col, i, n - 1);
    }
}

/// `col_spec` only reads the first `n` rows.
pub proof fn lemma_col_spec_ext(v1: Seq<Fp>, v2: Seq<Fp>, m1: Seq<Vec<Fp>>, m2: Seq<Vec<Fp>>, col: int, n: int)
    requires
        forall|k: int| 0 <= k < n ==> #[trigger] v1[k].val() == v2[k].val(),
        forall|k: int| 0 <= k < n ==> #[trigger] m1[k]@[col].val() == m2[k]@[col].val(),
    ensures
        col_spec(v1, m1, col, n) == col_spec(v2, m2, col, n),
    decreases n,
{
    if n > 0 {
        lemma_col_spec_ext(v1, v2, m1, m2, col, n - 1);
    }
}

/// The integer values of a vector.
pub open spec fn rvals(v: Seq<Fp>) -> Seq<int> {
    v.map_values(|x: Fp| x.val())
}

/// The integer values of a matrix.
pub open spec fn mvals(m: Seq<Vec<Fp>>) -> Seq<Seq<int>> {
    m.map_values(|r: Vec<Fp>| rvals(r@))
}

/// `sum_{k < n} a[k] * b[k]`.
pub open spec fn idot(a: Seq<int>, b: Seq<int>, n: int) -> int
    decreases n,
{
    if n <= 0 {
        0
    } else {
        idot(a, b, n - 1) + a[n - 1] * b[n - 1]
    }
}

/// `sum_{k < n} v[k] * m[k][c]`.
pub open spec fn icol(v: Seq<int>, m: Seq<Seq<int>>, c: int, n: int) -> int
    decreases n,
{
    if n <= 0 {
        0
    } else {
        icol(v, m, c, n - 1) + v[n - 1] * m[n - 1][c]
    }
}

/// The row vector `v * m` modulo `p`, as `vec_mat_mul` computes it.
pub open spec fn vm(p: int, v: Seq<int>, m: Seq<Seq<int>>) -> Seq<int> {
    if m.len() == 0 {
        Seq::empty()
    } else {
        Seq::new(m[0].len(), |c: int| icol(v, m, c, v.len() as int) % p)
    }
}

/// The column vector `m * v` modulo `p`, as `mat_vec_mul` computes it.
pub open spec fn mv(p: int, m: Seq<Seq<int>>, v: Seq<int>) -> Seq<int> {
    Seq::new(m.len(), |i: int| idot(m[i], v, v.len() as int) % p)
}

pub proof fn lemma_col_spec_vals(v: Seq<Fp>, m: Seq<Vec<Fp>>, c: int, n: int)
    requires
        n <= v.len(),
        n <= m.len(),
        0 <= c,
        forall|k: int| 0 <= k < n ==> c < #[trigger] m[k]@.len(),
    ensures
        col_spec(v, m, c, n) == icol(rvals(v), mvals(m), c, n),
    decreases n,
{
    if n > 0 {
        lemma_col_spec_vals(v, m, c, n - 1);
    }
}

pub proof fn lemma_dot_spec_vals(a: Seq<Fp>, b: Seq<Fp>, n: int)
    requires
        n <= a.len(),
        n <= b.len(),
    ensures
        dot_spec(a, b, n) == idot(rvals(a), rvals(b), n),
    decreases n,
{
    if n > 0 {
        lemma_dot_spec_vals(a, b, n - 1);
    }
}

/// A row of `n` zeros.
fn zero_row(n: usize, field: &Field) -> (r: Vector)
    ensures
        r.len() == n,
        forall|k: int| 0 <= k < n ==> (#[trigger] r@[k]).val() == 0,
{
    let mut row: Vector = Vec::with_capacity(n);
    let mut k: usize = 0;
    while k < n
        invariant
            k <= n,
            row.len() == k,
            forall|t: int| 0 <= t < k ==> (#[trigger] row@[t]).val() == 0,
        decreases n - k,
    {
        row.push(field.zero());
        k += 1;
    }
    row
}

/// A copy of a row.
fn copy_row(row: &Vector) -> (r: Vector)
    ensures
        r@ == row@,
{
    let mut out: Vector = Vec::with_capacity(row.len());
    let mut k: usize = 0;
    while k < row.len()
        invariant
            k <= row.len(),
            out@ == row@.subrange(0, k as int),
        decreases row.len() - k,
    {
        out.push(row[k]);
        k += 1;
    }
    out
}

/// A copy of a matrix.
fn copy_matrix(m: &Matrix) -> (r: Matrix)
    ensures
        r.len() == m.len(),
        forall|i: int| 0 <= i < m.len() ==> (#[trigger] r@[i])@ == m@[i]@,
{
    let mut out: Matrix = Vec::with_capacity(m.len());
    let mut i: usize = 0;
    while i < m.len()
        invariant
            i <= m.len(),
            out.len() == i,
            forall|t: int| 0 <= t < i ==> (#[trigger] out@[t])@ == m@[t]@,
        decreases m.len() - i,
    {
        out.push(copy_row(&m[i]));
        i += 1;
    }
    out
}

/// Exchanges entries `a` and `b`.
pub fn swap_entries<T>(v: &mut Vec<T>, a: usize, b: usize, placeholder: T)
    requires
        a < old(v).len(),
        b < old(v).len(),
    ensures
        final(v)@ == old(v)@.update(a as int, old(v)@[b as int]).update(b as int, old(v)@[a as int]),
{
    if a == b {
        proof {
            assert(v@ =~= old(v)@.update(a as int, old(v)@[b as int]).update(
                b as int,
                old(v)@[a as int],
            ));
        }
        return ;
    }
    let mut hold = placeholder;
    v.set_and_swap(a, &mut hold);
    v.set_and_swap(b, &mut hold);
    v.set_and_swap(a, &mut hold);
    proof {
        assert(v@ =~= old(v)@.update(a as int, old(v)@[b as int]).update(
            b as int,
            old(v)@[a as int],
        ));
    }
}

/// The `rows`-by-`cols` zero matrix.
pub fn zeros(rows: usize, cols: usize, field: &Field) -> (r: Matrix)
    ensures
        r.len() == rows,
        forall|i: int| 0 <= i < rows ==> #[trigger] r@[i]@.len() == cols,
        forall|i: int, j: int| 0 <= i < rows && 0 <= j < cols ==> #[trigger] ent(r@, i, j) == 0,
{
    let mut out: Matrix = Vec::with_capacity(rows);
    let mut i: usize = 0;
    while i < rows
        invariant
            i <= rows,
            out.len() == i,
            forall|t: int| 0 <= t < i ==> #[trigger] out@[t]@.len() == cols,
            forall|t: int, j: int| 0 <= t < i && 0 <= j < cols ==> #[trigger] ent(out@, t, j) == 0,
        decreases rows - i,
    {
        out.push(zero_row(cols, field));
        i += 1;
    }
    out
}

/// The `size`-by-`size` identity matrix.
pub fn identity(size: usize, field: &Field) -> (r: Matrix)
    requires
        field.wf(),
    ensures
        is_identity(r@, size as int),
        is_mat(*field, r@, size as int, size as int),
{
    let mut out: Matrix = Vec::with_capacity(size);
    let mut i: usize = 0;
    while i < size
        invariant
            field.wf(),
            i <= size,
            out.len() == i,
            forall|t: int| 0 <= t < i ==> #[trigger] out@[t]@.len() == size,
            forall|t: int, j: int|
                0 <= t < i && 0 <= j < size ==> #[trigger] ent(out@, t, j) == (if t == j {
                    1int
                } else {
                    0int
                }),
        decreases size - i,
    {
        let mut row = zero_row(size, field);
        row.set(i, field.one());
        out.push(row);
        i += 1;
    }
    out
}

/// `sum_k left[k] * right[k]` modulo the prime.
pub fn dot(left: &[Fp], right: &[Fp], field: &Field) -> (r: Fp)
    requires
        field.wf(),
        right@.len() >= left@.len(),
        forall|k: int| 0 <= k < left@.len() ==> field.holds(#[trigger] left@[k]),
        forall|k: int| 0 <= k < left@.len() ==> field.holds(#[trigger] right@[k]),
    ensures
        r.val() == field.of(dot_spec(left@, right@, left@.len() as int)),
        r.val() == field.of(idot(rvals(left@), rvals(right@), left@.len() as int)),
        field.holds(r),
{
    proof {
        lemma_dot_spec_vals(left@, right@, left@.len() as int);
    }
    let mut acc = field.zero();
    proof {
        lemma_small(0, field.modulus());
    }
    let mut idx: usize = 0;
    while idx < left.len()
        invariant
            field.wf(),
            idx <= left@.len(),
            right@.len() >= left@.len(),
            forall|k: int| 0 <= k < left@.len() ==> field.holds(#[trigger] left@[k]),
            forall|k: int| 0 <= k < left@.len() ==> field.holds(#[trigger] right@[k]),
            acc.val() == field.of(dot_spec(left@, right@, idx as int)),
            field.holds(acc),
        decreases left@.len() - idx,
    {
        let prod = field.mul(left[idx], right[idx]);
        acc = field.add(acc, prod);
        proof {
            let s = dot_spec(left@, right@, idx as int);
            let x = left@[idx as int].val() * right@[idx as int].val();
            lemma_mod_ops(s, x, field.modulus());
        }
        idx += 1;
    }
    acc
}

/// The row vector `vec * mat`.
pub fn vec_mat_mul(vec: &[Fp], mat: &Matrix, field: &Field) -> (r: Vector)
    requires
        field.wf(),
        mat.len() == vec@.len(),
        is_vec(*field, vec@, vec@.len() as int),
        mat.len() > 0 ==> is_mat(*field, mat@, mat.len() as int, mat@[0]@.len() as int),
    ensures
        mat.len() == 0 ==> r.len() == 0,
        mat.len() > 0 ==> is_vec(*field, r@, mat@[0]@.len() as int),
        forall|c: int|
            0 <= c < r.len() ==> (#[trigger] r@[c]).val() == field.of(
                col_spec(vec@, mat@, c, vec@.len() as int),
            ),
        rvals(r@) == vm(field.modulus(), rvals(vec@), mvals(mat@)),
{
    if mat.len() == 0 {
        proof {
            assert(rvals(Seq::<Fp>::empty()) =~= Seq::<int>::empty());
        }
        return Vec::new();
    }
    let cols = mat[0].len();
    let mut out = zero_row(cols, field);
    let ghost p = field.modulus();
    proof {
        lemma_small(0, p);
    }
    let mut row_idx: usize = 0;
    while row_idx < vec.len()
        invariant
            field.wf(),
            p == field.modulus(),
            mat.len() == vec@.len(),
            cols == mat@[0]@.len(),
            is_vec(*field, vec@, vec@.len() as int),
            is_mat(*field, mat@, mat.len() as int, cols as int),
            row_idx <= vec@.len(),
            out.len() == cols,
            forall|c: int| 0 <= c < cols ==> field.holds(#[trigger] out@[c]),
            forall|c: int|
                0 <= c < cols ==> (#[trigger] out@[c]).val() == field.of(
                    col_spec(vec@, mat@, c, row_idx as int),
                ),
        decreases vec@.len() - row_idx,
    {
        let value = vec[row_idx];
        if !value.is_zero() {
            let mut col: usize = 0;
            while col < cols
                invariant
                    field.wf(),
                    p == field.modulus(),
                    mat.len() == vec@.len(),
                    cols == mat@[0]@.len(),
                    is_vec(*field, vec@, vec@.len() as int),
                    is_mat(*field, mat@, mat.len() as int, cols as int),
                    row_idx < vec@.len(),
                    value == vec@[row_idx as int],
                    col <= cols,
                    out.len() == cols,
                    forall|c: int| 0 <= c < cols ==> field.holds(#[trigger] out@[c]),
                    forall|c: int|
                        0 <= c < col ==> (#[trigger] out@[c]).val() == field.of(
                            col_spec(vec@, mat@, c, row_idx + 1),
                        ),
                    forall|c: int|
                        col <= c < cols ==> (#[trigger] out@[c]).val() == field.of(
                            col_spec(vec@, mat@, c, row_idx as int),
                        ),
                decreases cols - col,
            {
                assert(mat@[row_idx as int]@.len() == cols);
                let prod = field.mul(value, mat[row_idx][col]);
                let next = field.add(out[col], prod);
                proof {
                    let s = col_spec(vec@, mat@, col as int, row_idx as int);
                    let x = value.val() * mat@[row_idx as int]@[col as int].val();
                    lemma_mod_ops(s, x, p);
                }
                out.set(col, next);
                col += 1;
            }
        } else {
            assert forall|c: int| 0 <= c < cols implies (#[trigger] out@[c]).val() == field.of(
                col_spec(vec@, mat@, c, row_idx + 1),
            ) by {
                assert(vec@[row_idx as int].val() == 0);
                assert(col_spec(vec@, mat@, c, row_idx + 1) == col_spec(
                    vec@,
                    mat@,
                    c,
                    row_idx as int,
                ) + 0 * mat@[row_idx as int]@[c].val());
            }
        }
        row_idx += 1;
    }
    proof {
        assert forall|c: int| 0 <= c < cols implies #[trigger] rvals(out@)[c] == vm(p, rvals(vec@), mvals(mat@))[c] by {
            lemma_col_spec_vals(vec@, mat@, c, vec@.len() as int);
        }
        assert(rvals(out@) =~= vm(p, rvals(vec@), mvals(mat@)));
    }
    out
}

/// The column vector `mat * vec`.
pub fn mat_vec_mul(mat: &Matrix, vec: &[Fp], field: &Field) -> (r: Vector)
    requires
        field.wf(),
        is_vec(*field, vec@, vec@.len() as int),
        mat.len() > 0 ==> is_mat(*field, mat@, mat.len() as int, vec@.len() as int),
    ensures
        is_vec(*field, r@, mat.len() as int),
        forall|i: int|
            0 <= i < mat.len() ==> (#[trigger] r@[i]).val() == field.of(
                dot_spec(mat@[i]@, vec@, vec@.len() as int),
            ),
        rvals(r@) == mv(field.modulus(), mvals(mat@), rvals(vec@)),
{
    let mut out: Vector = Vec::with_capacity(mat.len());
    let mut row_idx: usize = 0;
    while row_idx < mat.len()
        invariant
            field.wf(),
            is_vec(*field, vec@, vec@.len() as int),
            mat.len() > 0 ==> is_mat(*field, mat@, mat.len() as int, vec@.len() as int),
            row_idx <= mat.len(),
            out.len() == row_idx,
            forall|c: int| 0 <= c < row_idx ==> field.holds(#[trigger] out@[c]),
            forall|i: int|
                0 <= i < row_idx ==> (#[trigger] out@[i]).val() == field.of(
                    dot_spec(mat@[i]@, vec@, vec@.len() as int),
                ),
        decreases mat.len() - row_idx,
    {
        let row = &mat[row_idx];
        assert(row@.len() == vec@.len());
        let value = dot(row.as_slice(), vec, field);
        out.push(value);
        row_idx += 1;
    }
    proof {
        assert forall|i: int| 0 <= i < mat.len() implies #[trigger] rvals(out@)[i] == mv(field.modulus(), mvals(mat@), rvals(vec@))[i] by {
            lemma_dot_spec_vals(mat@[i]@, vec@, vec@.len() as int);
        }
        assert(rvals(out@) =~= mv(field.modulus(), mvals(mat@), rvals(vec@)));
    }
    out
}

/// The product `left * right`.
pub fn mat_mul(left: &Matrix, right: &Matrix, field: &Field) -> (r: Matrix)
    requires
        field.wf(),
        left.len() > 0 ==> is_mat(*field, left@, left.len() as int, right.len() as int),
        left.len() > 0 ==> right.len() > 0,
        left.len() > 0 ==> is_mat(*field, right@, right.len() as int, right@[0]@.len() as int),
    ensures
        left.len() == 0 ==> r.len() == 0,
        left.len() > 0 ==> is_product(
            *field,
            r@,
            left@,
            right@,
            left.len() as int,
            right@[0]@.len() as int,
            right.len() as int,
        ),
{
    if left.len() == 0 {
        return Vec::new();
    }
    let rows = left.len();
    let cols = right[0].len();
    let mut out: Matrix = Vec::with_capacity(rows);
    let mut row: usize = 0;
    while row < rows
        invariant
            field.wf(),
            rows == left.len(),
            rows > 0,
            right.len() > 0,
            cols == right@[0]@.len(),
            is_mat(*field, left@, rows as int, right.len() as int),
            is_mat(*field, right@, right.len() as int, cols as int),
            row <= rows,
            out.len() == row,
            is_product(*field, out@, left@, right@, row as int, cols as int, right.len() as int),
        decreases rows - row,
    {
        let left_row = &left[row];
        assert(left_row@.len() == right.len());
        assert(is_vec(*field, left_row@, right.len() as int));
        let next = vec_mat_mul(left_row.as_slice(), right, field);
        out.push(next);
        proof {
            assert forall|i: int, j: int|
                0 <= i < row + 1 && 0 <= j < cols implies #[trigger] ent(out@, i, j)
                == field.of(col_spec(left@[i]@, right@, j, right.len() as int)) by {
                if i < row {
                } else {
                    assert(out@[i]@ == next@);
                }
            }
        }
        row += 1;
    }
    out
}

/// The rows of `mat` at `rows`, in that order.
pub fn select_rows(mat: &Matrix, rows: &[usize]) -> (r: Matrix)
    requires
        forall|k: int| 0 <= k < rows@.len() ==> #[trigger] rows@[k] < mat.len(),
    ensures
        r.len() == rows@.len(),
        forall|k: int| 0 <= k < rows@.len() ==> (#[trigger] r@[k])@ == mat@[rows@[k] as int]@,
{
    let mut out: Matrix = Vec::with_capacity(rows.len());
    let mut k: usize = 0;
    while k < rows.len()
        invariant
            forall|t: int| 0 <= t < rows@.len() ==> #[trigger] rows@[t] < mat.len(),
            k <= rows@.len(),
            out.len() == k,
            forall|t: int| 0 <= t < k ==> (#[trigger] out@[t])@ == mat@[rows@[t] as int]@,
        decreases rows@.len() - k,
    {
        let idx = rows[k];
        out.push(copy_row(&mat[idx]));
        k += 1;
    }
    out
}

/// The columns of `mat` at `cols`, in that order.
pub fn select_cols(mat: &Matrix, cols: &[usize]) -> (r: Matrix)
    requires
        forall|i: int, k: int|
            #![trigger cols@[k], mat@[i]]
            0 <= i < mat.len() && 0 <= k < cols@.len() ==> cols@[k] < mat@[i]@.len(),
    ensures
        r.len() == mat.len(),
        forall|i: int| 0 <= i < mat.len() ==> #[trigger] r@[i]@.len() == cols@.len(),
        forall|i: int, k: int|
            0 <= i < mat.len() && 0 <= k < cols@.len() ==> #[trigger] r@[i]@[k] == mat@[i]@[cols@[k] as int],
{
    let mut out: Matrix = Vec::with_capacity(mat.len());
    let mut i: usize = 0;
    while i < mat.len()
        invariant
            forall|t: int, k: int|
                #![trigger cols@[k], mat@[t]]
                0 <= t < mat.len() && 0 <= k < cols@.len() ==> cols@[k] < mat@[t]@.len(),
            i <= mat.len(),
            out.len() == i,
            forall|t: int| 0 <= t < i ==> #[trigger] out@[t]@.len() == cols@.len(),
            forall|t: int, k: int|
                0 <= t < i && 0 <= k < cols@.len() ==> #[trigger] out@[t]@[k] == mat@[t]@[cols@[k] as int],
        decreases mat.len() - i,
    {
        let row = &mat[i];
        let mut next: Vector = Vec::with_capacity(cols.len());
        let mut k: usize = 0;
        while k < cols.len()
            invariant
                forall|t: int, k2: int|
                    #![trigger cols@[k2], mat@[t]]
                    0 <= t < mat.len() && 0 <= k2 < cols@.len() ==> cols@[k2] < mat@[t]@.len(),
                i < mat.len(),
                row@ == mat@[i as int]@,
                k <= cols@.len(),
                next.len() == k,
                forall|t: int| 0 <= t < k ==> #[trigger] next@[t] == mat@[i as int]@[cols@[t] as int],
            decreases cols@.len() - k,
        {
            let c = cols[k];
            assert(c < mat@[i as int]@.len());
            next.push(row[c]);
            k += 1;
        }
        out.push(next);
        i += 1;
    }
    out
}

/// Column `col` of `mat`.
pub fn select_col(mat: &Matrix, col: usize) -> (r: Vector)
    requires
        forall|i: int| 0 <= i < mat.len() ==> col < #[trigger] mat@[i]@.len(),
    ensures
        r.len() == mat.len(),
        forall|i: int| 0 <= i < mat.len() ==> #[trigger] r@[i] == mat@[i]@[col as int],
{
    let mut out: Vector = Vec::with_capacity(mat.len());
    let mut i: usize = 0;
    while i < mat.len()
        invariant
            forall|t: int| 0 <= t < mat.len() ==> col < #[trigger] mat@[t]@.len(),
            i <= mat.len(),
            out.len() == i,
            forall|t: int| 0 <= t < i ==> #[trigger] out@[t] == mat@[t]@[col as int],
        decreases mat.len() - i,
    {
        out.push(mat[i][col]);
        i += 1;
    }
    out
}

/// The rows of the identity of size `total_rows` at `indices`.
pub fn selection_rows(indices: &[usize], total_rows: usize, field: &Field) -> (r: Matrix)
    requires
        field.wf(),
        forall|k: int| 0 <= k < indices@.len() ==> #[trigger] indices@[k] < total_rows,
    ensures
        is_mat(*field, r@, indices@.len() as int, total_rows as int),
        forall|k: int, j: int|
            0 <= k < indices@.len() && 0 <= j < total_rows ==> #[trigger] ent(r@, k, j) == (if j
                == indices@[k] {
                1int
            } else {
                0int
            }),
{
    let mut out: Matrix = Vec::with_capacity(indices.len());
    let mut k: usize = 0;
    while k < indices.len()
        invariant
            field.wf(),
            forall|t: int| 0 <= t < indices@.len() ==> #[trigger] indices@[t] < total_rows,
            k <= indices@.len(),
            out.len() == k,
            is_mat(*field, out@, k as int, total_rows as int),
            forall|t: int, j: int|
                0 <= t < k && 0 <= j < total_rows ==> #[trigger] ent(out@, t, j) == (if j
                    == indices@[t] {
                    1int
                } else {
                    0int
                }),
        decreases indices@.len() - k,
    {
        let idx = indices[k];
        let mut row = zero_row(total_rows, field);
        row.set(idx, field.one());
        out.push(row);
        k += 1;
    }
    out
}

/// The columns of the identity of size `total_cols` at `indices`.
pub fn selection_cols(indices: &[usize], total_cols: usize, field: &Field) -> (r: Matrix)
    requires
        field.wf(),
        forall|k: int| 0 <= k < indices@.len() ==> #[trigger] indices@[k] < total_cols,
    ensures
        is_mat(*field, r@, total_cols as int, indices@.len() as int),
        forall|i: int, k: int|
            0 <= i < total_cols && 0 <= k < indices@.len() ==> #[trigger] ent(r@, i, k) == (if i
                == indices@[k] {
                1int
            } else {
                0int
            }),
{
    let n = indices.len();
    let mut out: Matrix = Vec::with_capacity(total_cols);
    let mut i: usize = 0;
    while i < total_cols
        invariant
            field.wf(),
            n == indices@.len(),
            forall|t: int| 0 <= t < n ==> #[trigger] indices@[t] < total_cols,
            i <= total_cols,
            out.len() == i,
            is_mat(*field, out@, i as int, n as int),
            forall|t: int, k: int|
                0 <= t < i && 0 <= k < n ==> #[trigger] ent(out@, t, k) == (if t == indices@[k] {
                    1int
                } else {
                    0int
                }),
        decreases total_cols - i,
    {
        let mut row = zero_row(n, field);
        let mut k: usize = 0;
        while k < n
            invariant
                field.wf(),
                n == indices@.len(),
                k <= n,
                row.len() == n,
                forall|t: int| 0 <= t < n ==> field.holds(#[trigger] row@[t]),
                forall|t: int|
                    0 <= t < k ==> (#[trigger] row@[t]).val() == (if i == indices@[t] {
                        1int
                    } else {
                        0int
                    }),
                forall|t: int| k <= t < n ==> (#[trigger] row@[t]).val() == 0,
            decreases n - k,
        {
            if indices[k] == i {
                row.set(k, field.one());
            }
            k += 1;
        }
        out.push(row);
        i += 1;
    }
    out
}

/// Entries `k >= from` of `row` multiplied by `c`; the others kept.
fn scale_row_from(row: &Vector, c: Fp, from: usize, field: &Field) -> (r: Vector)
    requires
        field.wf(),
        field.holds(c),
        is_vec(*field, row@, row@.len() as int),
    ensures
        is_vec(*field, r@, row@.len() as int),
        forall|k: int| 0 <= k < from && k < row@.len() ==> #[trigger] r@[k] == row@[k],
        forall|k: int|
            from <= k < row@.len() ==> (#[trigger] r@[k]).val() == field.of(c.val() * row@[k].val()),
{
    let mut out: Vector = Vec::with_capacity(row.len());
    let mut k: usize = 0;
    while k < row.len()
        invariant
            field.wf(),
            field.holds(c),
            is_vec(*field, row@, row@.len() as int),
            k <= row@.len(),
            out.len() == k,
            forall|t: int| 0 <= t < k ==> field.holds(#[trigger] out@[t]),
            forall|t: int| 0 <= t < k && t < from ==> #[trigger] out@[t] == row@[t],
            forall|t: int|
                from <= t < k ==> (#[trigger] out@[t]).val() == field.of(c.val() * row@[t].val()),
        decreases row@.len() - k,
    {
        if k < from {
            out.push(row[k]);
        } else {
            proof {
                lemma_mod_ops(c.val(), row@[k as int].val(), field.modulus());
            }
            out.push(field.mul(c, row[k]));
        }
        k += 1;
    }
    out
}

/// Entries `k >= from` of `row - factor * pivot`; the others kept.
fn sub_scaled_row_from(row: &Vector, pivot: &Vector, factor: Fp, from: usize, field: &Field) -> (r: Vector)
    requires
        field.wf(),
        field.holds(factor),
        is_vec(*field, row@, row@.len() as int),
        is_vec(*field, pivot@, row@.len() as int),
    ensures
        is_vec(*field, r@, row@.len() as int),
        forall|k: int| 0 <= k < from && k < row@.len() ==> #[trigger] r@[k] == row@[k],
        forall|k: int|
            from <= k < row@.len() ==> (#[trigger] r@[k]).val() == field.of(
                row@[k].val() - factor.val() * pivot@[k].val(),
            ),
{
    let mut out: Vector = Vec::with_capacity(row.len());
    let mut k: usize = 0;
    while k < row.len()
        invariant
            field.wf(),
            field.holds(factor),
            is_vec(*field, row@, row@.len() as int),
            is_vec(*field, pivot@, row@.len() as int),
            k <= row@.len(),
            out.len() == k,
            forall|t: int| 0 <= t < k ==> field.holds(#[trigger] out@[t]),
            forall|t: int| 0 <= t < k && t < from ==> #[trigger] out@[t] == row@[t],
            forall|t: int|
                from <= t < k ==> (#[trigger] out@[t]).val() == field.of(
                    row@[t].val() - factor.val() * pivot@[t].val(),
                ),
        decreases row@.len() - k,
    {
        if k < from {
            out.push(row[k]);
        } else {
            let sub = field.mul(factor, pivot[k]);
            proof {
                lemma_mod_ops(row@[k as int].val(), factor.val() * pivot@[k as int].val(), field.modulus());
            }
            out.push(field.sub(row[k], sub));
        }
        k += 1;
    }
    out
}

/// Column indices are strictly increasing and below `cols`.
pub open spec fn increasing_below(s: Seq<usize>, bound: int) -> bool {
    &&& forall|k: int| 0 <= k < s.len() ==> #[trigger] s[k] < bound
    &&& forall|a: int, b: int| 0 <= a < b < s.len() ==> #[trigger] s[a] < #[trigger] s[b]
}

/// Indices are pairwise distinct and below `bound`.
pub open spec fn distinct_below(s: Seq<usize>, bound: int) -> bool {
    &&& forall|k: int| 0 <= k < s.len() ==> #[trigger] s[k] < bound
    &&& forall|a: int, b: int| 0 <= a < b < s.len() ==> #[trigger] s[a] != #[trigger] s[b]
}

/// Every entry of the matrix is zero.
pub open spec fn mat_zero(m: Seq<Vec<Fp>>) -> bool {
    forall|i: int, j: int| 0 <= i < m.len() && 0 <= j < m[i]@.len() ==> (#[trigger] m[i]@[j]).val() == 0
}

/// Every one of the first `rows` rows meets `x` in a multiple of `p`.
pub open spec fn kills_rect(m: Seq<Vec<Fp>>, x: Seq<int>, rows: int, cols: int, p: int) -> bool {
    forall|i: int| 0 <= i < rows ==> #[trigger] vdot(m[i]@, x, cols) % p == 0
}

/// Column `j` is a combination of the columns before it, modulo `p`.
pub open spec fn col_in_span(m: Seq<Vec<Fp>>, rows: int, cols: int, j: int, p: int) -> bool {
    exists|x: Seq<int>|
        x.len() == cols && #[trigger] x[j] == 1 && (forall|k: int| j < k < cols ==> x[k] == 0) && kills_rect(m, x, rows, cols, p)
}

/// The number of the first `n` columns of `m` that are not combinations of
/// the columns before them, modulo `p`.
pub open spec fn new_column_count(m: Seq<Vec<Fp>>, rows: int, cols: int, p: int, n: int) -> nat
    decreases n,
{
    if n <= 0 {
        0
    } else {
        new_column_count(m, rows, cols, p, n - 1) + if col_in_span(m, rows, cols, n - 1, p) {
            0nat
        } else {
            1nat
        }
    }
}

/// The rank of `m` modulo `p`: the number of its columns that are not
/// combinations of the columns before them.
pub open spec fn column_rank(m: Seq<Vec<Fp>>, rows: int, cols: int, p: int) -> nat {
    new_column_count(m, rows, cols, p, cols)
}

/// In an increasing list of exactly the new columns, those below `n` come
/// first, and there are as many as there are new columns below `n`.
proof fn lemma_pivots_prefix(s: Seq<usize>, m: Seq<Vec<Fp>>, rows: int, cols: int, p: int, n: int) -> (k: int)
    requires
        0 <= n <= cols <= usize::MAX,
        increasing_below(s, cols),
        forall|j: int| 0 <= j < cols ==> (s.contains(j as usize) <==> !#[trigger] col_in_span(m, rows, cols, j, p)),
    ensures
        0 <= k <= s.len(),
        forall|a: int| 0 <= a < k ==> #[trigger] s[a] < n,
        forall|a: int| k <= a < s.len() ==> #[trigger] s[a] >= n,
        k == new_column_count(m, rows, cols, p, n),
    decreases n,
{
    if n == 0 {
        0
    } else {
        let k = lemma_pivots_prefix(s, m, rows, cols, p, n - 1);
        let c = n - 1;
        if col_in_span(m, rows, cols, c, p) {
            assert forall|a: int| k <= a < s.len() implies #[trigger] s[a] >= n by {
                if s[a] == c {
                    assert(s.contains(c as usize));
                }
            }
            k
        } else {
            assert(s.contains(c as usize));
            let a = choose|a: int| 0 <= a < s.len() && s[a] == c as usize;
            assert(a == k) by {
                if a < k {
                    assert(s[a] < c);
                } else if a > k {
                    assert(s[k] < s[a]);
                }
            }
            assert forall|b: int| k + 1 <= b < s.len() implies #[trigger] s[b] >= n by {
                assert(s[k] < s[b]);
            }
            k + 1
        }
    }
}

/// An increasing list of exactly the new columns has as many entries as
/// there are new columns.
pub proof fn lemma_pivots_count(s: Seq<usize>, m: Seq<Vec<Fp>>, rows: int, cols: int, p: int)
    requires
        0 <= cols <= usize::MAX,
        increasing_below(s, cols),
        forall|j: int| 0 <= j < cols ==> (s.contains(j as usize) <==> !#[trigger] col_in_span(m, rows, cols, j, p)),
    ensures
        s.len() == column_rank(m, rows, cols, p),
{
    let k = lemma_pivots_prefix(s, m, rows, cols, p, cols);
    if k < s.len() {
        assert(s[k] >= cols);
    }
}

/// Every nonzero residue modulo `p` has an inverse: `p` is prime.
pub open spec fn units_invertible(p: int) -> bool {
    forall|v: int| 1 <= v < p ==> #[trigger] gcd(p as nat, v as nat) == 1
}

/// Reduces `mat` to reduced row-echelon form: its pivot columns (exactly
/// the columns that are not combinations of the columns before them) and, in
/// the same order, the rows of `mat` the pivots were taken from, which span
/// every row of `mat`.
#[verifier::spinoff_prover]
fn reduce_pivots(mat: &Matrix, field: &Field) -> (r: Result<(Vec<usize>, Vec<usize>), ExperimentError>)
    requires
        field.wf(),
        mat.len() > 0 ==> is_mat(*field, mat@, mat.len() as int, mat@[0]@.len() as int),
    ensures
        mat.len() == 0 ==> (r matches Ok(v) && v.0.len() == 0 && v.1.len() == 0),
        r matches Ok(v) ==> v.1.len() == v.0.len() && distinct_below(v.1@, mat.len() as int),
        r matches Ok(v) ==> mat.len() > 0 ==> increasing_below(v.0@, mat@[0]@.len() as int)
            && v.0.len() <= mat.len() && v.0.len() <= mat@[0]@.len(),
        mat_zero(mat@) ==> (r matches Ok(v) && v.0.len() == 0),
        units_invertible(field.modulus()) ==> r is Ok,
        r matches Ok(v) ==> (v.0.len() == 0 <==> mat_zero(mat@)),
        r matches Ok(v) ==> mat.len() > 0 ==> forall|j: int|
            0 <= j < mat@[0]@.len() ==> (v.0@.contains(j as usize) <==> !#[trigger] col_in_span(
                mat@,
                mat.len() as int,
                mat@[0]@.len() as int,
                j,
                field.modulus(),
            )),
        r matches Ok(v) ==> forall|i: int|
            0 <= i < mat.len() ==> #[trigger] in_row_span(fmat(mat@), v.1@, i, mat@[0]@.len() as int, field.modulus()),
{
    if mat.len() == 0 {
        return Ok((Vec::new(), Vec::new()));
    }
    let rows = mat.len();
    let cols = mat[0].len();
    let ghost p = field.modulus();
    let ghost nr = rows as int;
    let ghost nc = cols as int;
    let mut work = copy_matrix(mat);
    proof {
        assert forall|x: Seq<int>| x.len() == nc implies (kills_rect(mat@, x, nr, nc, p) <==> kills_rect(work@, x, nr, nc, p)) by {
            if kills_rect(mat@, x, nr, nc, p) {
                assert forall|i: int| 0 <= i < nr implies #[trigger] vdot(work@[i]@, x, nc) % p == 0 by {
                    assert(work@[i]@ == mat@[i]@);
                    assert(vdot(mat@[i]@, x, nc) % p == 0);
                }
            }
            if kills_rect(work@, x, nr, nc, p) {
                assert forall|i: int| 0 <= i < nr implies #[trigger] vdot(mat@[i]@, x, nc) % p == 0 by {
                    assert(work@[i]@ == mat@[i]@);
                    assert(vdot(work@[i]@, x, nc) % p == 0);
                }
            }
        }
    }
    let mut pivot_row: usize = 0;
    let mut pivots: Vec<usize> = Vec::new();
    let mut row_ids: Vec<usize> = Vec::with_capacity(rows);
    let mut t: usize = 0;
    while t < rows
        invariant
            t <= rows,
            row_ids.len() == t,
            forall|k: int| 0 <= k < t ==> #[trigger] row_ids@[k] == k,
        decreases rows - t,
    {
        row_ids.push(t);
        t += 1;
    }
    proof {
        assert forall|j: int| 0 <= j < nr implies #[trigger] fmat(work@)[j] == fmat(mat@)[j] by {
            assert(fmat(work@)[j] =~= fmat(mat@)[j]);
        }
    }
    let ghost mut tt = lemma_tracks_init(fmat(mat@), fmat(work@), row_ids@, nr, nc, p);
    let ghost mut pos: Seq<int> = Seq::new(rows as nat, |i: int| i);
    let mut pivot_ids: Vec<usize> = Vec::new();
    let mut col: usize = 0;
    while col < cols
        invariant
            field.wf(),
            p == field.modulus(),
            nr == rows as int,
            nc == cols as int,
            rows == mat.len(),
            rows > 0,
            cols == mat@[0]@.len(),
            is_mat(*field, mat@, rows as int, cols as int),
            is_mat(*field, work@, rows as int, cols as int),
            col <= cols,
            pivot_row < rows,
            pivot_row <= col,
            pivot_row == 0 ==> forall|i: int| 0 <= i < rows ==> (#[trigger] work@[i])@ == mat@[i]@,
            pivot_row == 0 ==> forall|i: int, c: int| 0 <= i < rows && 0 <= c < col ==> (#[trigger] mat@[i]@[c]).val() == 0,
            pivot_row > 0 ==> !mat_zero(mat@),
            pivots.len() == pivot_row,
            row_ids.len() == rows,
            distinct_below(row_ids@, rows as int),
            pivot_ids.len() == pivot_row,
            forall|k: int| 0 <= k < pivot_row ==> #[trigger] pivot_ids@[k] == row_ids@[k],
            increasing_below(pivots@, col as int),
            forall|i: int, t: int| 0 <= i < pivot_row && 0 <= t < rows ==> #[trigger] ent(work@, t, pivots@[i] as int) == (if t == i {
                1int
            } else {
                0int
            }),
            forall|k: int, t: int| 0 <= k < col && pivot_row <= t < rows && !pivots@.contains(k as usize) ==> #[trigger] ent(work@, t, k) == 0,
            forall|x: Seq<int>| x.len() == nc ==> (kills_rect(mat@, x, nr, nc, p) <==> kills_rect(work@, x, nr, nc, p)),
            forall|k: int| 0 <= k < col ==> (#[trigger] col_in_span(mat@, nr, nc, k, p) <==> !pivots@.contains(k as usize)),
            tracks(tt, fmat(mat@), fmat(work@), row_ids@, pivot_ids@, pivot_row as int, nr, nc, p),
            inverts(pos, row_ids@, nr),
        decreases cols - col,
    {
        let mut row = pivot_row;
        while row < rows && work[row][col].is_zero()
            invariant
                is_mat(*field, work@, rows as int, cols as int),
                rows == work.len(),
                col < cols,
                pivot_row <= row <= rows,
                forall|i: int| pivot_row <= i < row ==> (#[trigger] work@[i]@[col as int]).val() == 0,
            decreases rows - row,
        {
            row += 1;
        }
        if row == rows {
            proof {
                if pivot_row == 0 {
                    assert forall|i: int, c: int| 0 <= i < rows && 0 <= c < col + 1 implies (#[trigger] mat@[i]@[c]).val()
                        == 0 by {
                        if c == col {
                            assert(work@[i]@ == mat@[i]@);
                        }
                    }
                }
                let c = col as int;
                let pc = pivots@;
                let x = Seq::new(
                    cols as nat,
                    |k: int|
                        if k == c {
                            1int
                        } else if pc.contains(k as usize) {
                            -ent(work@, choose|i: int| 0 <= i < pc.len() && pc[i] == k as usize, c)
                        } else {
                            0int
                        },
                );
                assert forall|t: int| 0 <= t < nr implies #[trigger] vdot(work@[t]@, x, nc) % p == 0 by {
                    if t < pivot_row {
                        let q = pc[t] as int;
                        assert(pc.contains(q as usize));
                        let ch = choose|i: int| 0 <= i < pc.len() && pc[i] == q as usize;
                        if ch < t {
                            assert(pc[ch] < pc[t]);
                        } else if ch > t {
                            assert(pc[t] < pc[ch]);
                        }
                        assert(x[q] == -ent(work@, t, c));
                        assert forall|k: int| 0 <= k < nc && k != q && k != c implies #[trigger] (work@[t]@[k].val() * x[k]) == 0 by {
                            if pc.contains(k as usize) {
                                let i = choose|i: int| 0 <= i < pc.len() && pc[i] == k as usize;
                                assert(i != t);
                                assert(ent(work@, t, pc[i] as int) == 0);
                                assert(work@[t]@[k].val() == 0);
                            } else {
                                assert(x[k] == 0);
                            }
                        }
                        lemma_vdot_two(work@[t]@, x, nc, q, c);
                        assert(ent(work@, t, pc[t] as int) == 1);
                        let (a1, b1, c1, d1) = (work@[t]@[q].val() as int, x[q], work@[t]@[c].val() as int, x[c]);
                        assert(a1 * b1 + c1 * d1 == 0) by (nonlinear_arith)
                            requires
                                a1 == 1,
                                b1 == -c1,
                                d1 == 1,
                        ;
                        lemma_small(0, p);
                    } else {
                        assert forall|k: int| 0 <= k < nc && k != c && k != nc implies #[trigger] (work@[t]@[k].val() * x[k]) == 0 by {
                            if pc.contains(k as usize) {
                                let i = choose|i: int| 0 <= i < pc.len() && pc[i] == k as usize;
                                assert(i != t);
                                assert(ent(work@, t, pc[i] as int) == 0);
                                assert(work@[t]@[k].val() == 0);
                            } else {
                                assert(x[k] == 0);
                            }
                        }
                        lemma_vdot_two(work@[t]@, x, nc, c, nc);
                        assert(work@[t]@[c].val() == 0);
                        lemma_small(0, p);
                    }
                }
                assert(x.len() == nc);
                assert(kills_rect(work@, x, nr, nc, p));
                assert(kills_rect(mat@, x, nr, nc, p));
                assert forall|k: int| c < k < nc implies x[k] == 0 by {
                    if pc.contains(k as usize) {
                        let i = choose|i: int| 0 <= i < pc.len() && pc[i] == k as usize;
                        assert(pc[i] < col);
                    }
                }
                assert(x[c] == 1);
                assert(col_in_span(mat@, nr, nc, c, p));
                assert(!pc.contains(col)) by {
                    if pc.contains(col) {
                        let i = choose|i: int| 0 <= i < pc.len() && pc[i] == col;
                        assert(pc[i] < col);
                    }
                }
                assert forall|k: int, t: int| 0 <= k < col + 1 && pivot_row <= t < rows && !pc.contains(k as usize) implies #[trigger] ent(work@, t, k) == 0 by {
                    if k == col {
                        assert(work@[t]@[c].val() == 0);
                    }
                }
            }
            col += 1;
            continue;
        }
        proof {
            if pivot_row == 0 {
                assert(work@[row as int]@ == mat@[row as int]@);
                assert(!mat_zero(mat@));
            }
        }
        let ghost w0 = work@;
        swap_entries(&mut work, pivot_row, row, Vec::new());
        let ghost old_ids = row_ids@;
        swap_entries(&mut row_ids, pivot_row, row, 0);
        proof {
            assert forall|a: int, b: int| 0 <= a < b < rows implies #[trigger] row_ids@[a] != #[trigger] row_ids@[b] by {
                let ia = if a == pivot_row { row as int } else if a == row { pivot_row as int } else { a };
                let ib = if b == pivot_row { row as int } else if b == row { pivot_row as int } else { b };
                assert(row_ids@[a] == old_ids[ia]);
                assert(row_ids@[b] == old_ids[ib]);
                if ia < ib {
                    assert(old_ids[ia] != old_ids[ib]);
                } else {
                    assert(old_ids[ib] != old_ids[ia]);
                }
            }
            assert forall|a: int| 0 <= a < rows implies #[trigger] row_ids@[a] < rows by {
                let ia = if a == pivot_row { row as int } else if a == row { pivot_row as int } else { a };
                assert(row_ids@[a] == old_ids[ia]);
            }
            assert forall|k: int| 0 <= k < pivot_row implies #[trigger] pivot_ids@[k] == row_ids@[k] by {
                assert(row_ids@[k] == old_ids[k]);
            }
        }
        let ghost gb = row_ids@.subrange(0, pivot_row + 1);
        proof {
            let ia = old_ids[pivot_row as int] as int;
            let ib = old_ids[row as int] as int;
            let pos2 = pos.update(ib, pivot_row as int).update(ia, row as int);
            assert forall|i: int| 0 <= i < nr implies 0 <= #[trigger] pos2[i] < nr && row_ids@[pos2[i]] == i by {
                if i != ia && i != ib {
                    assert(old_ids[pos[i]] == i);
                    assert(pos[i] != row && pos[i] != pivot_row);
                }
            }
            pos = pos2;
            assert(gb =~= pivot_ids@.push(row_ids@[pivot_row as int]));
            assert forall|j: int| 0 <= j < nr implies #[trigger] fmat(work@)[j] == fmat(w0)[if j == pivot_row { row as int } else if j == row {
                pivot_row as int
            } else {
                j
            }] by {}
            assert forall|j: int| 0 <= j < nr implies #[trigger] row_ids@[j] == old_ids[if j == pivot_row { row as int } else if j == row {
                pivot_row as int
            } else {
                j
            }] by {}
            tt = lemma_tracks_swap(tt, fmat(mat@), fmat(w0), fmat(work@), old_ids, row_ids@, pivot_ids@, gb, nr, nc, p, pivot_row as int, row as int);
        }
        assert(is_mat(*field, work@, rows as int, cols as int));
        proof {
            assert forall|x: Seq<int>| x.len() == nc implies (kills_rect(w0, x, nr, nc, p) <==> kills_rect(work@, x, nr, nc, p)) by {
                if kills_rect(w0, x, nr, nc, p) {
                    assert forall|i: int| 0 <= i < nr implies #[trigger] vdot(work@[i]@, x, nc) % p == 0 by {
                        let s = if i == pivot_row { row as int } else if i == row { pivot_row as int } else { i };
                        assert(work@[i] == w0[s]);
                        assert(vdot(w0[s]@, x, nc) % p == 0);
                    }
                }
                if kills_rect(work@, x, nr, nc, p) {
                    assert forall|i: int| 0 <= i < nr implies #[trigger] vdot(w0[i]@, x, nc) % p == 0 by {
                        let s = if i == pivot_row { row as int } else if i == row { pivot_row as int } else { i };
                        assert(work@[s] == w0[i]);
                        assert(vdot(work@[s]@, x, nc) % p == 0);
                    }
                }
            }
            assert forall|k: int| 0 <= k < col implies #[trigger] work@[pivot_row as int]@[k].val() == 0 by {
                assert(work@[pivot_row as int] == w0[row as int]);
                if pivots@.contains(k as usize) {
                    let i = choose|i: int| 0 <= i < pivots@.len() && pivots@[i] == k as usize;
                    assert(ent(w0, row as int, pivots@[i] as int) == 0);
                } else {
                    assert(ent(w0, row as int, k) == 0);
                }
            }
        }
        let pivot = work[pivot_row][col];
        let inv = match field.inv(pivot) {
            Some(x) => x,
            None => {
                proof {
                    if units_invertible(field.modulus()) {
                        assert(gcd(field.modulus() as nat, pivot.val() as nat) == 1);
                    }
                }
                return Err(ExperimentError::InvalidConfig("non-invertible pivot; check prime".to_string()));
            },
        };
        let ghost w1 = work@;
        let scaled = scale_row_from(&work[pivot_row], inv, col, field);
        work.set(pivot_row, scaled);
        assert(is_mat(*field, work@, rows as int, cols as int));
        proof {
            let a = w1[pivot_row as int]@;
            let nrw = work@[pivot_row as int]@;
            let cv = inv.val();
            let v = pivot.val();
            assert forall|k: int| 0 <= k < nc implies #[trigger] nrw[k].val() == (cv * a[k].val() + 0 * a[k].val()) % p by {
                if k < col {
                    assert(a[k].val() == 0);
                    lemma_small(0, p);
                }
            }
            assert(lin_comb(p, nrw, a, a, cv, 0, nc));
            assert(((cv * v) % p) == 1) by {
                assert(cv * v == v * cv) by (nonlinear_arith);
            }
            assert forall|x: Seq<int>| x.len() == nc implies (kills_rect(w1, x, nr, nc, p) <==> kills_rect(work@, x, nr, nc, p)) by {
                lemma_vdot_linear(p, nrw, a, a, cv, 0, x, nc);
                let y = vdot(a, x, nc);
                assert(vdot(nrw, x, nc) % p == (cv * y) % p);
                if kills_rect(w1, x, nr, nc, p) {
                    assert forall|i: int| 0 <= i < nr implies #[trigger] vdot(work@[i]@, x, nc) % p == 0 by {
                        if i == pivot_row {
                            assert(y % p == 0);
                            lemma_mod_ops(cv, y, p);
                            assert((cv * (y % p)) % p == 0);
                        } else {
                            assert(work@[i] == w1[i]);
                            assert(vdot(w1[i]@, x, nc) % p == 0);
                        }
                    }
                }
                if kills_rect(work@, x, nr, nc, p) {
                    assert forall|i: int| 0 <= i < nr implies #[trigger] vdot(w1[i]@, x, nc) % p == 0 by {
                        if i == pivot_row {
                            assert(vdot(nrw, x, nc) % p == 0);
                            assert((cv * y) % p == 0);
                            lemma_mod_ops(v, cv * y, p);
                            assert((v * ((cv * y) % p)) % p == 0);
                            assert((v * (cv * y)) % p == 0);
                            assert(v * (cv * y) == (cv * v) * y) by (nonlinear_arith);
                            lemma_mod_ops(cv * v, y, p);
                            assert((((cv * v) % p) * y) % p == 0);
                            assert(y % p == 0);
                        } else {
                            assert(work@[i] == w1[i]);
                            assert(vdot(work@[i]@, x, nc) % p == 0);
                        }
                    }
                }
            }
            assert(nrw[col as int].val() == 1) by {
                lemma_mod_ops(cv, v, p);
            }
            assert forall|k: int| 0 <= k < col implies #[trigger] nrw[k].val() == 0 by {
                assert(nrw[k] == a[k]);
            }
            assert forall|e: int| 0 <= e < nc implies #[trigger] fmat(work@)[pivot_row as int][e] == (cv * fmat(w1)[pivot_row as int][e]) % p by {
                assert(nrw[e].val() == (cv * a[e].val() + 0 * a[e].val()) % p);
            }
            assert forall|j: int| 0 <= j < nr && j != pivot_row implies #[trigger] fmat(work@)[j] == fmat(w1)[j] by {
                assert(work@[j] == w1[j]);
            }
            assert(gb.contains(row_ids@[pivot_row as int])) by {
                assert(gb[pivot_row as int] == row_ids@[pivot_row as int]);
            }
            tt = lemma_tracks_scale(tt, fmat(mat@), fmat(w1), fmat(work@), row_ids@, gb, nr, nc, p, pivot_row as int, cv);
            assert forall|j: int| pivot_row + 1 <= j < nr implies !gb.contains(#[trigger] row_ids@[j]) by {
                if gb.contains(row_ids@[j]) {
                    let q = choose|q: int| 0 <= q < gb.len() && gb[q] == row_ids@[j];
                    assert(gb[q] == row_ids@[q]);
                }
            }
            assert(!col_in_span(mat@, nr, nc, col as int, p)) by {
                if col_in_span(mat@, nr, nc, col as int, p) {
                    let jj = col as int;
                    let x = choose|x: Seq<int>|
                        x.len() == nc && #[trigger] x[jj] == 1 && (forall|k: int| jj < k < nc ==> x[k] == 0) && kills_rect(
                            mat@,
                            x,
                            nr,
                            nc,
                            p,
                        );
                    assert(x.len() == nc && x[jj] == 1 && (forall|k: int| jj < k < nc ==> x[k] == 0));
                    assert(kills_rect(w1, x, nr, nc, p));
                    assert(kills_rect(work@, x, nr, nc, p));
                    assert forall|k: int| 0 <= k < nc && k != jj && k != nc implies #[trigger] (nrw[k].val() * x[k]) == 0 by {
                        if k < col {
                            assert(nrw[k].val() == 0);
                        } else {
                            assert(jj < k < nc);
                            assert(x[k] == 0);
                        }
                    }
                    lemma_vdot_two(nrw, x, nc, jj, nc);
                    assert(vdot(work@[pivot_row as int]@, x, nc) % p == 0);
                    lemma_small(1, p);
                }
            }
        }
        let pv = work[pivot_row].clone();
        let ghost pvs = pv@;
        proof {
            assert(pvs == work@[pivot_row as int]@);
        }
        let mut r: usize = 0;
        while r < rows
            invariant
                field.wf(),
                p == field.modulus(),
                nr == rows as int,
                nc == cols as int,
                rows == work.len(),
                is_mat(*field, work@, rows as int, cols as int),
                pivot_row < rows,
                col < cols,
                r <= rows,
                pvs == pv@,
                work@[pivot_row as int]@ == pvs,
                pvs.len() == cols,
                pvs[col as int].val() == 1,
                forall|k: int| 0 <= k < col ==> #[trigger] pvs[k].val() == 0,
                forall|t: int, k: int| 0 <= t < rows && 0 <= k < col ==> #[trigger] work@[t]@[k] == w1[t]@[k] || t == pivot_row,
                forall|t: int| 0 <= t < r && t != pivot_row ==> #[trigger] work@[t]@[col as int].val() == 0,
                forall|t: int| r <= t < rows && t != pivot_row ==> #[trigger] work@[t] == w1[t],
                forall|x: Seq<int>| x.len() == nc ==> (kills_rect(mat@, x, nr, nc, p) <==> kills_rect(work@, x, nr, nc, p)),
                tracks(tt, fmat(mat@), fmat(work@), row_ids@, gb, pivot_row + 1, nr, nc, p),
                forall|k: int| 0 <= k < nr && !gb.contains(k as usize) ==> #[trigger] tt[pivot_row as int][k] == 0,
                forall|j: int| pivot_row + 1 <= j < nr ==> !gb.contains(#[trigger] row_ids@[j]),
                forall|j: int| 0 <= j < nr ==> #[trigger] row_ids@[j] < nr,
            decreases rows - r,
        {
            if r != pivot_row {
                let factor = work[r][col];
                if !factor.is_zero() {
                    let ghost w2 = work@;
                    let next = sub_scaled_row_from(&work[r], &pv, factor, col, field);
                    work.set(r, next);
                    proof {
                        let a = w2[r as int]@;
                        let f = factor.val();
                        assert forall|k: int| 0 <= k < nc implies #[trigger] next@[k].val() == (1 * a[k].val() + (-f) * pvs[k].val()) % p by {
                            if k < col {
                                lemma_small(a[k].val() as int, p);
                            } else {
                                assert(a[k].val() - f * pvs[k].val() == 1 * a[k].val() + (-f) * pvs[k].val()) by (nonlinear_arith);
                            }
                        }
                        assert(lin_comb(p, next@, a, pvs, 1, -f, nc));
                        assert forall|x: Seq<int>| x.len() == nc implies (kills_rect(w2, x, nr, nc, p) <==> kills_rect(work@, x, nr, nc, p)) by {
                            lemma_vdot_linear(p, next@, a, pvs, 1, -f, x, nc);
                            let ya = vdot(a, x, nc);
                            let yb = vdot(pvs, x, nc);
                            if kills_rect(w2, x, nr, nc, p) {
                                assert forall|i: int| 0 <= i < nr implies #[trigger] vdot(work@[i]@, x, nc) % p == 0 by {
                                    if i == r {
                                        assert(vdot(w2[pivot_row as int]@, x, nc) % p == 0);
                                        assert(vdot(w2[r as int]@, x, nc) % p == 0);
                                        crate::modular::lemma_lin_mod(1, ya, -f, yb, p);
                                        assert(w2[pivot_row as int]@ == pvs);
                                        assert(yb % p == 0);
                                        assert(ya % p == 0);
                                        let (u1, u2) = (ya % p, yb % p);
                                        assert(1 * u1 + (-f) * u2 == 0) by (nonlinear_arith)
                                            requires
                                                u1 == 0,
                                                u2 == 0,
                                        ;
                                        lemma_small(0, p);
                                    } else {
                                        assert(work@[i] == w2[i]);
                                        assert(vdot(w2[i]@, x, nc) % p == 0);
                                    }
                                }
                            }
                            if kills_rect(work@, x, nr, nc, p) {
                                assert forall|i: int| 0 <= i < nr implies #[trigger] vdot(w2[i]@, x, nc) % p == 0 by {
                                    if i == r {
                                        assert(vdot(work@[pivot_row as int]@, x, nc) % p == 0);
                                        assert(yb % p == 0);
                                        assert(vdot(work@[r as int]@, x, nc) % p == 0);
                                        assert((1 * ya + (-f) * yb) % p == 0);
                                        crate::modular::lemma_lin_mod(1, 1 * ya + (-f) * yb, f, yb, p);
                                        lemma_small(0, p);
                                        assert(f * (yb % p) == 0) by (nonlinear_arith)
                                            requires
                                                yb % p == 0,
                                        ;
                                        assert(1 * ((1 * ya + (-f) * yb) % p) + f * (yb % p) == 0);
                                        assert(1 * (1 * ya + (-f) * yb) + f * yb == ya) by (nonlinear_arith);
                                        assert(ya % p == 0);
                                    } else {
                                        assert(work@[i] == w2[i]);
                                        assert(vdot(work@[i]@, x, nc) % p == 0);
                                    }
                                }
                            }
                        }
                        assert(next@[col as int].val() == 0) by {
                            assert(a[col as int].val() - f * pvs[col as int].val() == 0);
                            lemma_small(0, p);
                        }
                        assert forall|e: int| 0 <= e < nc implies #[trigger] fmat(work@)[r as int][e] == (1 * fmat(w2)[r as int][e] + (-f)
                            * fmat(w2)[pivot_row as int][e]) % p by {
                            assert(w2[pivot_row as int]@ == pvs);
                            assert(next@[e].val() == (1 * a[e].val() + (-f) * pvs[e].val()) % p);
                        }
                        assert forall|j: int| 0 <= j < nr && j != r implies #[trigger] fmat(work@)[j] == fmat(w2)[j] by {
                            assert(work@[j] == w2[j]);
                        }
                        tt = lemma_tracks_elim(tt, fmat(mat@), fmat(w2), fmat(work@), row_ids@, gb, pivot_row + 1, nr, nc, p, pivot_row as int, r as int, f);
                    }
                }
            }
            r += 1;
        }
        let ghost old_piv = pivots@;
        pivots.push(col);
        let ghost old_pids = pivot_ids@;
        pivot_ids.push(row_ids[pivot_row]);
        proof {
            assert forall|k: int| 0 <= k < pivot_row + 1 implies #[trigger] pivot_ids@[k] == row_ids@[k] by {
                if k < pivot_row {
                    assert(pivot_ids@[k] == old_pids[k]);
                }
            }
            assert(pivot_ids@ =~= gb);
        }
        pivot_row += 1;
        proof {
            assert forall|i: int, t: int| 0 <= i < pivot_row && 0 <= t < rows implies #[trigger] ent(work@, t, pivots@[i] as int) == (if t == i {
                1int
            } else {
                0int
            }) by {
                if i < pivot_row - 1 {
                    assert(pivots@[i] == old_piv[i]);
                    let q = old_piv[i] as int;
                    if t != pivot_row - 1 {
                        assert(work@[t]@[q] == w1[t]@[q]);
                        let s = if t == row { (pivot_row - 1) as int } else { t };
                        assert(w1[t] == w0[s]);
                    } else {
                        assert(pvs[q].val() == 0);
                    }
                } else {
                    assert(pivots@[i] == col);
                }
            }
            assert forall|k: int, t: int| 0 <= k < col + 1 && pivot_row <= t < rows && !pivots@.contains(k as usize) implies #[trigger] ent(work@, t, k) == 0 by {
                if k == col {
                    assert(pivots@[pivot_row - 1] == col);
                } else {
                    if old_piv.contains(k as usize) {
                        let i = choose|i: int| 0 <= i < old_piv.len() && old_piv[i] == k as usize;
                        assert(pivots@[i] == k as usize);
                    }
                    let s = if t == row { (pivot_row - 1) as int } else { t };
                    assert(work@[t]@[k] == w1[t]@[k]);
                    assert(w1[t] == w0[s]);
                    assert(ent(w0, s, k) == 0);
                }
            }
            assert forall|k: int| 0 <= k < col + 1 implies (#[trigger] col_in_span(mat@, nr, nc, k, p) <==> !pivots@.contains(k as usize)) by {
                if k < col {
                    assert(pivots@.contains(k as usize) <==> old_piv.contains(k as usize)) by {
                        if pivots@.contains(k as usize) {
                            let i = choose|i: int| 0 <= i < pivots@.len() && pivots@[i] == k as usize;
                            if i < old_piv.len() {
                                assert(old_piv[i] == k as usize);
                            }
                        }
                        if old_piv.contains(k as usize) {
                            let i = choose|i: int| 0 <= i < old_piv.len() && old_piv[i] == k as usize;
                            assert(pivots@[i] == k as usize);
                        }
                    }
                } else {
                    assert(pivots@[pivot_row - 1] == col);
                }
            }
        }
        if pivot_row == rows {
            proof {
                let pc = pivots@;
                assert forall|k: int| col + 1 <= k < nc implies #[trigger] col_in_span(mat@, nr, nc, k, p) by {
                    let x = Seq::new(
                        cols as nat,
                        |j: int|
                            if j == k {
                                1int
                            } else if pc.contains(j as usize) {
                                -ent(work@, choose|i: int| 0 <= i < pc.len() && pc[i] == j as usize, k)
                            } else {
                                0int
                            },
                    );
                    assert(!pc.contains(k as usize)) by {
                        if pc.contains(k as usize) {
                            let i = choose|i: int| 0 <= i < pc.len() && pc[i] == k as usize;
                            assert(pc[i] < col + 1);
                        }
                    }
                    assert forall|t: int| 0 <= t < nr implies #[trigger] vdot(work@[t]@, x, nc) % p == 0 by {
                        let q = pc[t] as int;
                        assert(pc.contains(q as usize));
                        let ch = choose|i: int| 0 <= i < pc.len() && pc[i] == q as usize;
                        if ch < t {
                            assert(pc[ch] < pc[t]);
                        } else if ch > t {
                            assert(pc[t] < pc[ch]);
                        }
                        assert(x[q] == -ent(work@, t, k));
                        assert forall|j: int| 0 <= j < nc && j != q && j != k implies #[trigger] (work@[t]@[j].val() * x[j]) == 0 by {
                            if pc.contains(j as usize) {
                                let i = choose|i: int| 0 <= i < pc.len() && pc[i] == j as usize;
                                assert(i != t);
                                assert(ent(work@, t, pc[i] as int) == 0);
                                assert(work@[t]@[j].val() == 0);
                            } else {
                                assert(x[j] == 0);
                            }
                        }
                        lemma_vdot_two(work@[t]@, x, nc, q, k);
                        assert(ent(work@, t, pc[t] as int) == 1);
                        let (a1, b1, c1, d1) = (work@[t]@[q].val() as int, x[q], work@[t]@[k].val() as int, x[k]);
                        assert(a1 * b1 + c1 * d1 == 0) by (nonlinear_arith)
                            requires
                                a1 == 1,
                                b1 == -c1,
                                d1 == 1,
                        ;
                        lemma_small(0, p);
                    }
                    assert(x.len() == nc);
                    assert(kills_rect(work@, x, nr, nc, p));
                    assert(kills_rect(mat@, x, nr, nc, p));
                    assert forall|j: int| k < j < nc implies x[j] == 0 by {
                        if pc.contains(j as usize) {
                            let i = choose|i: int| 0 <= i < pc.len() && pc[i] == j as usize;
                            assert(pc[i] < col + 1);
                        }
                    }
                    assert(x[k] == 1);
                }
            }
            proof {
                assert forall|a: int, c: int| 0 <= a < c < pivot_ids.len() implies #[trigger] pivot_ids@[a] != #[trigger] pivot_ids@[c] by {
                    assert(pivot_ids@[a] == row_ids@[a]);
                    assert(pivot_ids@[c] == row_ids@[c]);
                }
                assert forall|a: int| 0 <= a < pivot_ids.len() implies #[trigger] pivot_ids@[a] < rows by {
                    assert(pivot_ids@[a] == row_ids@[a]);
                }
                assert(pivot_ids@ =~= row_ids@.subrange(0, nr));
                lemma_full_span(fmat(mat@), row_ids@, pivot_ids@, pos, nr, nc, p);
            }
            return Ok((pivots, pivot_ids));
        }
        col += 1;
    }
    proof {
        if pivot_row == 0 {
            assert forall|i: int, j: int| 0 <= i < mat@.len() && 0 <= j < mat@[i]@.len() implies (#[trigger] mat@[i]@[j]).val()
                == 0 by {
                assert(mat@[i]@.len() == cols);
            }
        }
    }
    proof {
        assert forall|a: int, c: int| 0 <= a < c < pivot_ids.len() implies #[trigger] pivot_ids@[a] != #[trigger] pivot_ids@[c] by {
            assert(pivot_ids@[a] == row_ids@[a]);
            assert(pivot_ids@[c] == row_ids@[c]);
        }
        assert forall|a: int| 0 <= a < pivot_ids.len() implies #[trigger] pivot_ids@[a] < rows by {
            assert(pivot_ids@[a] == row_ids@[a]);
        }
        assert forall|j: int, e: int| pivot_row <= j < nr && 0 <= e < nc implies #[trigger] fmat(work@)[j][e] == 0 by {
            if pivots@.contains(e as usize) {
                let i = choose|i: int| 0 <= i < pivots@.len() && pivots@[i] == e as usize;
                assert(ent(work@, j, pivots@[i] as int) == 0);
            } else {
                assert(ent(work@, j, e) == 0);
            }
        }
        assert(pivot_ids@ =~= row_ids@.subrange(0, pivot_row as int));
        lemma_tracks_span(tt, fmat(mat@), fmat(work@), row_ids@, pivot_ids@, pos, pivot_row as int, nr, nc, p);
    }
    Ok((pivots, pivot_ids))
}

/// The pivot columns of the reduced row-echelon form of `mat`: exactly the
/// columns that are not combinations of the columns before them.
pub fn pivot_columns(mat: &Matrix, field: &Field) -> (r: Result<Vec<usize>, ExperimentError>)
    requires
        field.wf(),
        mat.len() > 0 ==> is_mat(*field, mat@, mat.len() as int, mat@[0]@.len() as int),
    ensures
        mat.len() == 0 ==> (r matches Ok(v) && v.len() == 0),
        r matches Ok(piv) ==> mat.len() > 0 ==> increasing_below(piv@, mat@[0]@.len() as int)
            && piv.len() <= mat.len() && piv.len() <= mat@[0]@.len(),
        mat_zero(mat@) ==> (r matches Ok(v) && v.len() == 0),
        units_invertible(field.modulus()) ==> r is Ok,
        r matches Ok(piv) ==> (piv.len() == 0 <==> mat_zero(mat@)),
        r matches Ok(piv) ==> mat.len() > 0 ==> forall|j: int|
            0 <= j < mat@[0]@.len() ==> (piv@.contains(j as usize) <==> !#[trigger] col_in_span(
                mat@,
                mat.len() as int,
                mat@[0]@.len() as int,
                j,
                field.modulus(),
            )),
{
    match reduce_pivots(mat, field) {
        Ok((pivots, _)) => Ok(pivots),
        Err(e) => Err(e),
    }
}

/// Indices of rows of `mat` that the elimination of `mat` keeps as pivot
/// rows, as many as the rank of `mat`; every row of `mat` is a combination
/// of them.
pub fn independent_row_indices(mat: &Matrix, field: &Field) -> (r: Result<Vec<usize>, ExperimentError>)
    requires
        field.wf(),
        mat.len() > 0 ==> is_mat(*field, mat@, mat.len() as int, mat@[0]@.len() as int),
    ensures
        mat.len() == 0 ==> (r matches Ok(v) && v.len() == 0),
        r matches Ok(ids) ==> distinct_below(ids@, mat.len() as int) && (mat.len() > 0 ==> ids.len()
            <= mat@[0]@.len()),
        mat_zero(mat@) ==> (r matches Ok(v) && v.len() == 0),
        units_invertible(field.modulus()) ==> r is Ok,
        r matches Ok(ids) ==> (ids.len() == 0 <==> mat_zero(mat@)),
        r matches Ok(ids) ==> mat.len() > 0 ==> ids.len() == column_rank(
            mat@,
            mat.len() as int,
            mat@[0]@.len() as int,
            field.modulus(),
        ),
        r matches Ok(ids) ==> forall|i: int|
            0 <= i < mat.len() ==> #[trigger] in_row_span(fmat(mat@), ids@, i, mat@[0]@.len() as int, field.modulus()),
{
    match reduce_pivots(mat, field) {
        Ok((cols, ids)) => {
            if mat.len() > 0 {
                let nc = mat[0].len();
                proof {
                    lemma_pivots_count(cols@, mat@, mat.len() as int, nc as int, field.modulus());
                }
            }
            Ok(ids)
        },
        Err(e) => Err(e),
    }
}

/// `sum_{k < n} a[k] * x[k]` over the integers.
pub open spec fn vdot(a: Seq<Fp>, x: Seq<int>, n: int) -> int
    decreases n,
{
    if n <= 0 {
        0
    } else {
        vdot(a, x, n - 1) + a[n - 1].val() * x[n - 1]
    }
}

/// `vdot` is linear in its row, modulo `p`.
proof fn lemma_vdot_linear(p: int, v: Seq<Fp>, a: Seq<Fp>, b: Seq<Fp>, alpha: int, beta: int, x: Seq<int>, n: int)
    requires
        p > 0,
        lin_comb(p, v, a, b, alpha, beta, n),
    ensures
        vdot(v, x, n) % p == (alpha * vdot(a, x, n) + beta * vdot(b, x, n)) % p,
    decreases n,
{
    if n > 0 {
        lemma_vdot_linear(p, v, a, b, alpha, beta, x, n - 1);
        let sv = vdot(v, x, n - 1);
        let sa = vdot(a, x, n - 1);
        let sb = vdot(b, x, n - 1);
        let y = x[n - 1];
        let av = a[n - 1].val();
        let bv = b[n - 1].val();
        let w = alpha * av + beta * bv;
        assert(v[n - 1].val() == w % p);
        lemma_mod_ops(w, y, p);
        lemma_mod_ops(sv, (w % p) * y, p);
        lemma_mod_ops(sv, w * y, p);
        lemma_mod_ops(alpha * sa + beta * sb, w * y, p);
        assert((sv + v[n - 1].val() * y) % p == (sv % p + ((w % p) * y) % p) % p);
        assert(((w % p) * y) % p == (w * y) % p);
        assert((sv % p + (w * y) % p) % p == (sv + w * y) % p);
        assert((sv + w * y) % p == (alpha * sa + beta * sb + w * y) % p) by {
            lemma_mod_ops(sv, w * y, p);
            lemma_mod_ops(alpha * sa + beta * sb, w * y, p);
        }
        lemma_expand(alpha, beta, sa, sb, av, bv, y);
    }
}

/// A row that is 0 outside `k1` and `k2` meets `x` in those two terms.
proof fn lemma_vdot_two(a: Seq<Fp>, x: Seq<int>, n: int, k1: int, k2: int)
    requires
        k1 != k2,
        forall|k: int| 0 <= k < n && k != k1 && k != k2 ==> #[trigger] (a[k].val() * x[k]) == 0,
    ensures
        vdot(a, x, n) == (if 0 <= k1 < n {
            a[k1].val() * x[k1]
        } else {
            0
        }) + (if 0 <= k2 < n {
            a[k2].val() * x[k2]
        } else {
            0
        }),
    decreases n,
{
    if n > 0 {
        lemma_vdot_two(a, x, n - 1, k1, k2);
        assert(a[n - 1].val() * x[n - 1] == a[n - 1].val() * x[n - 1]);
    }
}

/// The matrix sends `x` to 0 modulo `p`.
pub open spec fn kills(m: Seq<Vec<Fp>>, x: Seq<int>, n: int, p: int) -> bool {
    forall|i: int| 0 <= i < n ==> #[trigger] vdot(m[i]@, x, n) % p == 0
}

/// The square matrix of size `n` sends some vector that is not 0 modulo `p`
/// to 0: it has no inverse modulo `p`.
pub open spec fn singular_mod(m: Seq<Vec<Fp>>, n: int, p: int) -> bool {
    exists|x: Seq<int>| x.len() == n && (exists|j: int| 0 <= j < n && #[trigger] x[j] % p != 0) && kills(m, x, n, p)
}

/// `sum_k b[k] * w[k][j]` over the first `n` rows of `w`.
pub open spec fn rsum(b: Seq<int>, w: Seq<Vec<Fp>>, j: int, n: int) -> int
    decreases n,
{
    if n <= 0 {
        0
    } else {
        rsum(b, w, j, n - 1) + b[n - 1] * w[n - 1]@[j].val()
    }
}

/// One term of `rsum`.
pub open spec fn rterm(b: Seq<int>, w: Seq<Vec<Fp>>, j: int, k: int) -> int {
    b[k] * w[k]@[j].val()
}

/// Two sums whose terms agree but at `c` and `d` differ by those terms.
proof fn lemma_rsum_diff(b: Seq<int>, w: Seq<Vec<Fp>>, b2: Seq<int>, w2: Seq<Vec<Fp>>, j: int, m: int, c: int, d: int)
    requires
        0 <= m,
        forall|k: int| 0 <= k < m && k != c && k != d ==> #[trigger] rterm(b2, w2, j, k) == rterm(b, w, j, k),
    ensures
        rsum(b2, w2, j, m) - rsum(b, w, j, m) == (if 0 <= c < m {
            rterm(b2, w2, j, c) - rterm(b, w, j, c)
        } else {
            0
        }) + (if 0 <= d < m && d != c {
            rterm(b2, w2, j, d) - rterm(b, w, j, d)
        } else {
            0
        }),
    decreases m,
{
    if m > 0 {
        lemma_rsum_diff(b, w, b2, w2, j, m - 1, c, d);
        let k = m - 1;
        if k != c && k != d {
            assert(rterm(b2, w2, j, k) == rterm(b, w, j, k));
        }
    }
}

/// Adding a multiple of `p` leaves the residue.
proof fn lemma_mod_shift(a: int, e: int, p: int)
    requires
        p > 0,
        e % p == 0,
    ensures
        (a + e) % p == a % p,
{
    lemma_mod_ops(a, e, p);
    vstd::arithmetic::div_mod::lemma_mod_bound(a, p);
    lemma_small(a % p, p);
    assert((a % p + 0) == a % p);
}

/// Swapping two rows of `w` and the same two entries of `b` keeps the sum.
proof fn lemma_rsum_swap(b: Seq<int>, w: Seq<Vec<Fp>>, w2: Seq<Vec<Fp>>, j: int, n: int, c: int, d: int)
    requires
        0 <= c < n,
        0 <= d < n,
        b.len() == n,
        w.len() == n,
        w2 == w.update(c, w[d]).update(d, w[c]),
    ensures
        rsum(b.update(c, b[d]).update(d, b[c]), w2, j, n) == rsum(b, w, j, n),
{
    let b2 = b.update(c, b[d]).update(d, b[c]);
    assert forall|k: int| 0 <= k < n && k != c && k != d implies #[trigger] rterm(b2, w2, j, k) == rterm(b, w, j, k) by {
        assert(w2[k] == w[k]);
        assert(b2[k] == b[k]);
    }
    lemma_rsum_diff(b, w, b2, w2, j, n, c, d);
    if c != d {
        assert(rterm(b2, w2, j, c) == rterm(b, w, j, d));
        assert(rterm(b2, w2, j, d) == rterm(b, w, j, c));
    }
}

/// Scaling row `c` of `w` by `s` (modulo `p`) and entry `c` of `b` by `v`,
/// with `v * s = 1` modulo `p`, keeps the sum modulo `p`.
proof fn lemma_rsum_scale(b: Seq<int>, w: Seq<Vec<Fp>>, w2: Seq<Vec<Fp>>, j: int, n: int, c: int, v: int, s: int, p: int)
    requires
        p > 0,
        0 <= c < n,
        b.len() == n,
        w2.len() == w.len(),
        forall|k: int| 0 <= k < n && k != c ==> #[trigger] w2[k] == w[k],
        w2[c]@[j].val() == (s * w[c]@[j].val() + 0 * w[c]@[j].val()) % p,
        (s * v) % p == 1,
    ensures
        rsum(b.update(c, b[c] * v), w2, j, n) % p == rsum(b, w, j, n) % p,
{
    let b2 = b.update(c, b[c] * v);
    assert forall|k: int| 0 <= k < n && k != c && k != c implies #[trigger] rterm(b2, w2, j, k) == rterm(b, w, j, k) by {}
    lemma_rsum_diff(b, w, b2, w2, j, n, c, c);
    let x = w[c]@[j].val() as int;
    let bc = b[c];
    let y = w2[c]@[j].val() as int;
    assert(y == (s * x) % p);
    lemma_mod_ops(bc * v, s * x, p);
    assert((bc * v * y) % p == (bc * v * (s * x)) % p);
    assert(bc * v * (s * x) == (bc * x) * (s * v)) by (nonlinear_arith);
    lemma_mod_ops(bc * x, s * v, p);
    assert(((bc * x) * (s * v)) % p == (bc * x) % p);
    let e = bc * v * y - bc * x;
    lemma_mod_ops(bc * v * y, bc * x, p);
    assert(e % p == 0) by {
        vstd::arithmetic::div_mod::lemma_mod_bound(bc * x, p);
        lemma_small((bc * x) % p, p);
        assert(((bc * v * y) % p - (bc * x) % p) == 0);
        lemma_small(0, p);
    }
    assert(rsum(b2, w2, j, n) == rsum(b, w, j, n) + e);
    lemma_mod_shift(rsum(b, w, j, n), e, p);
}

/// Subtracting `f` times row `c` from row `r` of `w` (modulo `p`) and adding
/// `f` times entry `r` to entry `c` of `b` keeps the sum modulo `p`.
proof fn lemma_rsum_elim(b: Seq<int>, w: Seq<Vec<Fp>>, w2: Seq<Vec<Fp>>, j: int, n: int, r: int, c: int, f: int, p: int)
    requires
        p > 0,
        0 <= c < n,
        0 <= r < n,
        r != c,
        b.len() == n,
        w2.len() == w.len(),
        forall|k: int| 0 <= k < n && k != r ==> #[trigger] w2[k] == w[k],
        w2[r]@[j].val() == (1 * w[r]@[j].val() + (-f) * w[c]@[j].val()) % p,
    ensures
        rsum(b.update(c, b[c] + f * b[r]), w2, j, n) % p == rsum(b, w, j, n) % p,
{
    let b2 = b.update(c, b[c] + f * b[r]);
    assert forall|k: int| 0 <= k < n && k != c && k != r implies #[trigger] rterm(b2, w2, j, k) == rterm(b, w, j, k) by {}
    lemma_rsum_diff(b, w, b2, w2, j, n, c, r);
    let xr = w[r]@[j].val() as int;
    let xc = w[c]@[j].val() as int;
    let y = w2[r]@[j].val() as int;
    let br = b[r];
    let bc = b[c];
    assert(w2[c] == w[c]);
    assert(y == (xr - f * xc) % p) by {
        assert(1 * xr + (-f) * xc == xr - f * xc) by (nonlinear_arith);
    }
    let e = br * y - br * (xr - f * xc);
    lemma_mod_ops(br, xr - f * xc, p);
    assert((br * y) % p == (br * (xr - f * xc)) % p);
    lemma_mod_ops(br * y, br * (xr - f * xc), p);
    assert(e % p == 0) by {
        vstd::arithmetic::div_mod::lemma_mod_bound(br * (xr - f * xc), p);
        lemma_small((br * (xr - f * xc)) % p, p);
        lemma_small(0, p);
    }
    assert(rterm(b2, w2, j, r) - rterm(b, w, j, r) + rterm(b2, w2, j, c) - rterm(b, w, j, c) == e) by (nonlinear_arith)
        requires
            rterm(b2, w2, j, r) == br * y,
            rterm(b, w, j, r) == br * xr,
            rterm(b2, w2, j, c) == (bc + f * br) * xc,
            rterm(b, w, j, c) == bc * xc,
            e == br * y - br * (xr - f * xc),
    ;
    lemma_mod_shift(rsum(b, w, j, n), e, p);
}

/// Against the identity, the sum picks entry `j` of `b`.
proof fn lemma_rsum_identity(b: Seq<int>, w: Seq<Vec<Fp>>, j: int, m: int)
    requires
        0 <= m,
        forall|k: int| 0 <= k < m ==> #[trigger] w[k]@[j].val() == (if k == j { 1int } else { 0int }),
    ensures
        rsum(b, w, j, m) == (if 0 <= j < m { b[j] } else { 0 }),
    decreases m,
{
    if m > 0 {
        lemma_rsum_identity(b, w, j, m - 1);
        assert(w[m - 1]@[j].val() == (if m - 1 == j { 1int } else { 0int }));
    }
}

/// Congruent coefficients give congruent sums.
proof fn lemma_rsum_congruent(b: Seq<int>, b2: Seq<int>, w: Seq<Vec<Fp>>, j: int, m: int, p: int)
    requires
        p > 0,
        0 <= m,
        forall|k: int| 0 <= k < m ==> #[trigger] b[k] % p == b2[k] % p,
    ensures
        rsum(b, w, j, m) % p == rsum(b2, w, j, m) % p,
    decreases m,
{
    if m > 0 {
        lemma_rsum_congruent(b, b2, w, j, m - 1, p);
        let k = m - 1;
        let x = w[k]@[j].val() as int;
        lemma_mod_ops(b[k], x, p);
        lemma_mod_ops(b2[k], x, p);
        assert((b[k] * x) % p == (b2[k] * x) % p);
        lemma_mod_ops(rsum(b, w, j, m - 1), b[k] * x, p);
        lemma_mod_ops(rsum(b2, w, j, m - 1), b2[k] * x, p);
    }
}

/// `col_spec` is `rsum` over the values of the row.
proof fn lemma_col_spec_rsum(v: Seq<Fp>, m: Seq<Vec<Fp>>, col: int, n: int)
    requires
        0 <= n <= v.len(),
    ensures
        col_spec(v, m, col, n) == rsum(Seq::new(v.len(), |k: int| v[k].val() as int), m, col, n),
    decreases n,
{
    if n > 0 {
        lemma_col_spec_rsum(v, m, col, n - 1);
    }
}

/// Each row `i` of `b` combines the rows of `w` into row `i` of `t`, modulo
/// `p`.
pub open spec fn carries(b: Seq<Seq<int>>, w: Seq<Vec<Fp>>, t: Seq<Seq<int>>, n: int, p: int) -> bool {
    &&& b.len() == n
    &&& forall|i: int| 0 <= i < n ==> (#[trigger] b[i]).len() == n
    &&& forall|i: int, j: int| 0 <= i < n && 0 <= j < n ==> #[trigger] rsum(b[i], w, j, n) % p == t[i][j]
}

/// `b` with entries `c` and `d` of every row exchanged.
pub open spec fn swap_cols(b: Seq<Seq<int>>, c: int, d: int) -> Seq<Seq<int>> {
    Seq::new(b.len(), |i: int| b[i].update(c, b[i][d]).update(d, b[i][c]))
}

/// `b` with entry `c` of every row multiplied by `v`.
pub open spec fn scale_col(b: Seq<Seq<int>>, c: int, v: int) -> Seq<Seq<int>> {
    Seq::new(b.len(), |i: int| b[i].update(c, b[i][c] * v))
}

/// `b` with `f` times entry `r` added to entry `c` of every row.
pub open spec fn add_col(b: Seq<Seq<int>>, c: int, r: int, f: int) -> Seq<Seq<int>> {
    Seq::new(b.len(), |i: int| b[i].update(c, b[i][c] + f * b[i][r]))
}

proof fn lemma_carry_swap(b: Seq<Seq<int>>, w: Seq<Vec<Fp>>, w2: Seq<Vec<Fp>>, t: Seq<Seq<int>>, n: int, p: int, c: int, d: int)
    requires
        carries(b, w, t, n, p),
        0 <= c < n,
        0 <= d < n,
        w.len() == n,
        w2 == w.update(c, w[d]).update(d, w[c]),
    ensures
        carries(swap_cols(b, c, d), w2, t, n, p),
{
    let b2 = swap_cols(b, c, d);
    assert forall|i: int, j: int| 0 <= i < n && 0 <= j < n implies #[trigger] rsum(b2[i], w2, j, n) % p == t[i][j] by {
        lemma_rsum_swap(b[i], w, w2, j, n, c, d);
    }
}

proof fn lemma_carry_scale(
    b: Seq<Seq<int>>,
    w: Seq<Vec<Fp>>,
    w2: Seq<Vec<Fp>>,
    t: Seq<Seq<int>>,
    n: int,
    p: int,
    c: int,
    v: int,
    s: int,
)
    requires
        p > 0,
        carries(b, w, t, n, p),
        0 <= c < n,
        w.len() == n,
        w2.len() == n,
        forall|k: int| 0 <= k < n && k != c ==> #[trigger] w2[k] == w[k],
        lin_comb(p, w2[c]@, w[c]@, w[c]@, s, 0, n),
        (s * v) % p == 1,
    ensures
        carries(scale_col(b, c, v), w2, t, n, p),
{
    let b2 = scale_col(b, c, v);
    assert forall|i: int, j: int| 0 <= i < n && 0 <= j < n implies #[trigger] rsum(b2[i], w2, j, n) % p == t[i][j] by {
        assert(w2[c]@[j].val() == (s * w[c]@[j].val() + 0 * w[c]@[j].val()) % p);
        lemma_rsum_scale(b[i], w, w2, j, n, c, v, s, p);
    }
}

proof fn lemma_carry_elim(
    b: Seq<Seq<int>>,
    w: Seq<Vec<Fp>>,
    w2: Seq<Vec<Fp>>,
    t: Seq<Seq<int>>,
    n: int,
    p: int,
    r: int,
    c: int,
    f: int,
)
    requires
        p > 0,
        carries(b, w, t, n, p),
        0 <= c < n,
        0 <= r < n,
        r != c,
        w.len() == n,
        w2.len() == n,
        forall|k: int| 0 <= k < n && k != r ==> #[trigger] w2[k] == w[k],
        lin_comb(p, w2[r]@, w[r]@, w[c]@, 1, -f, n),
    ensures
        carries(add_col(b, c, r, f), w2, t, n, p),
{
    let b2 = add_col(b, c, r, f);
    assert forall|i: int, j: int| 0 <= i < n && 0 <= j < n implies #[trigger] rsum(b2[i], w2, j, n) % p == t[i][j] by {
        assert(w2[r]@[j].val() == (1 * w[r]@[j].val() + (-f) * w[c]@[j].val()) % p);
        lemma_rsum_elim(b[i], w, w2, j, n, r, c, f, p);
    }
}

/// A unit coefficient row picks one row of `w`.
proof fn lemma_rsum_unit(b: Seq<int>, w: Seq<Vec<Fp>>, j: int, i: int, m: int)
    requires
        0 <= m,
        0 <= i,
        forall|k: int| 0 <= k < m ==> #[trigger] b[k] == (if k == i { 1int } else { 0int }),
    ensures
        rsum(b, w, j, m) == (if i < m { w[i]@[j].val() as int } else { 0 }),
    decreases m,
{
    if m > 0 {
        lemma_rsum_unit(b, w, j, i, m - 1);
    }
}

/// The inverse of a square matrix: `r * mat` is the identity. A matrix that
/// sends some vector other than 0 to 0 has none and gives an error; modulo a
/// prime every other square matrix gets its inverse.
#[verifier::spinoff_prover]
pub fn invert(mat: &Matrix, field: &Field) -> (r: Result<Matrix, ExperimentError>)
    requires
        field.wf(),
        mat.len() > 0 ==> is_mat(*field, mat@, mat.len() as int, mat@[0]@.len() as int),
    ensures
        mat.len() == 0 ==> (r matches Ok(m) && m.len() == 0),
        (mat.len() > 0 && mat@[0]@.len() != mat.len()) ==> r is Err,
        r matches Ok(inv) ==> mat.len() > 0 ==> is_mat(*field, inv@, mat.len() as int, mat.len() as int)
            && mat@[0]@.len() == mat.len() && (forall|i: int, j: int|
            0 <= i < mat.len() && 0 <= j < mat.len() ==> #[trigger] field.of(
                col_spec(inv@[i]@, mat@, j, mat.len() as int),
            ) == (if i == j {
                1int
            } else {
                0int
            })),
        mat.len() > 0 && mat@[0]@.len() == mat.len() && singular_mod(mat@, mat.len() as int, field.modulus()) ==> r is Err,
        units_invertible(field.modulus()) && mat.len() > 0 && mat@[0]@.len() == mat.len() && !singular_mod(
            mat@,
            mat.len() as int,
            field.modulus(),
        ) ==> r is Ok,
        r matches Ok(inv) ==> mat.len() > 0 ==> forall|i: int, j: int|
            0 <= i < mat.len() && 0 <= j < mat.len() ==> #[trigger] field.of(col_spec(mat@[i]@, inv@, j, mat.len() as int)) == (if i
                == j {
                1int
            } else {
                0int
            }),
        r matches Err(ExperimentError::InvalidConfig(msg)) ==> if mat@[0]@.len() != mat.len() {
            msg@ == "matrix not square"@
        } else if units_invertible(field.modulus()) {
            msg@ == "matrix not invertible"@
        } else {
            msg@ == "matrix not invertible"@ || msg@ == "non-invertible pivot; check prime"@
        },
{
    let n = mat.len();
    if n == 0 {
        return Ok(Vec::new());
    }
    if mat[0].len() != n {
        return Err(ExperimentError::InvalidConfig("matrix not square".to_string()));
    }
    let ghost p = field.modulus();
    let mut work = copy_matrix(mat);
    let mut inv = identity(n, field);
    let ghost tm = Seq::new(n as nat, |i: int| Seq::new(n as nat, |j: int| mat@[i]@[j].val() as int));
    let ghost ti = Seq::new(n as nat, |i: int| Seq::new(n as nat, |j: int| if i == j { 1int } else { 0int }));
    let ghost mut bm: Seq<Seq<int>> = Seq::new(n as nat, |i: int| Seq::new(n as nat, |k: int| if k == i { 1int } else { 0int }));
    proof {
        assert forall|i: int, j: int| 0 <= i < n && 0 <= j < n implies #[trigger] rsum(bm[i], work@, j, n as int) % p == tm[i][j] by {
            lemma_rsum_unit(bm[i], work@, j, i, n as int);
            assert(work@[i]@ == mat@[i]@);
            lemma_small(mat@[i]@[j].val() as int, p);
        }
        assert forall|i: int, j: int| 0 <= i < n && 0 <= j < n implies #[trigger] rsum(bm[i], inv@, j, n as int) % p == ti[i][j] by {
            lemma_rsum_unit(bm[i], inv@, j, i, n as int);
            assert(ent(inv@, i, j) == (if i == j { 1int } else { 0int }));
            lemma_small(ent(inv@, i, j), p);
        }
        assert(carries(bm, work@, tm, n as int, p));
        assert(carries(bm, inv@, ti, n as int, p));
    }
    proof {
        assert forall|x: Seq<int>| x.len() == n implies (kills(mat@, x, n as int, p) <==> kills(work@, x, n as int, p)) by {
            if kills(mat@, x, n as int, p) {
                assert forall|i: int| 0 <= i < n implies #[trigger] vdot(work@[i]@, x, n as int) % p == 0 by {
                    assert(work@[i]@ == mat@[i]@);
                    assert(vdot(mat@[i]@, x, n as int) % p == 0);
                }
            }
            if kills(work@, x, n as int, p) {
                assert forall|i: int| 0 <= i < n implies #[trigger] vdot(mat@[i]@, x, n as int) % p == 0 by {
                    assert(work@[i]@ == mat@[i]@);
                    assert(vdot(work@[i]@, x, n as int) % p == 0);
                }
            }
        }
        assert forall|i: int, j: int| 0 <= i < n && 0 <= j < n implies #[trigger] ent(work@, i, j)
            == field.of(col_spec(inv@[i]@, mat@, j, n as int)) by {
            lemma_col_spec_unit(inv@[i]@, mat@, j, i, n as int);
            lemma_small(ent(mat@, i, j), p);
        }
    }
    let mut col: usize = 0;
    while col < n
        invariant
            field.wf(),
            p == field.modulus(),
            n == mat.len(),
            n > 0,
            mat@[0]@.len() == n,
            is_mat(*field, mat@, n as int, n as int),
            is_mat(*field, work@, n as int, n as int),
            is_mat(*field, inv@, n as int, n as int),
            col <= n,
            carries(bm, work@, tm, n as int, p),
            carries(bm, inv@, ti, n as int, p),
            forall|i: int, j: int|
                0 <= i < n && 0 <= j < n ==> #[trigger] ent(work@, i, j) == field.of(
                    col_spec(inv@[i]@, mat@, j, n as int),
                ),
            forall|i: int, c: int|
                0 <= i < n && 0 <= c < col ==> #[trigger] ent(work@, i, c) == (if i == c {
                    1int
                } else {
                    0int
                }),
            forall|x: Seq<int>| x.len() == n ==> (kills(mat@, x, n as int, p) <==> kills(work@, x, n as int, p)),
        decreases n - col,
    {
        let mut pivot = col;
        while pivot < n && work[pivot][col].is_zero()
            invariant
                is_mat(*field, work@, n as int, n as int),
                n == work.len(),
                col < n,
                col <= pivot <= n,
                forall|i: int| col <= i < pivot ==> #[trigger] ent(work@, i, col as int) == 0,
            decreases n - pivot,
        {
            pivot += 1;
        }
        if pivot == n {
            proof {
                let x = Seq::new(n as nat, |k: int| if k < col { -ent(work@, k, col as int) } else if k == col { 1int } else { 0int });
                assert forall|i: int| 0 <= i < n implies #[trigger] vdot(work@[i]@, x, n as int) % p == 0 by {
                    if i < col {
                        assert forall|k: int| 0 <= k < n && k != i && k != col implies #[trigger] (work@[i]@[k].val() * x[k]) == 0 by {
                            if k < col {
                                assert(ent(work@, i, k) == 0);
                            }
                        }
                        lemma_vdot_two(work@[i]@, x, n as int, i, col as int);
                        assert(ent(work@, i, i) == 1);
                    } else {
                        assert forall|k: int| 0 <= k < n && k != col && k != n implies #[trigger] (work@[i]@[k].val() * x[k]) == 0 by {
                            if k < col {
                                assert(ent(work@, i, k) == 0);
                            }
                        }
                        lemma_vdot_two(work@[i]@, x, n as int, col as int, n as int);
                        assert(ent(work@, i, col as int) == 0);
                    }
                }
                assert(kills(work@, x, n as int, p));
                assert(x[col as int] % p != 0) by {
                    lemma_small(1, p);
                }
                assert(x.len() == n);
                assert(kills(mat@, x, n as int, p));
                assert(singular_mod(mat@, n as int, p));
            }
            return Err(ExperimentError::InvalidConfig("matrix not invertible".to_string()));
        }
        let ghost w0 = work@;
        let ghost i0 = inv@;
        swap_entries(&mut work, col, pivot, Vec::new());
        swap_entries(&mut inv, col, pivot, Vec::new());
        proof {
            lemma_carry_swap(bm, w0, work@, tm, n as int, p, col as int, pivot as int);
            lemma_carry_swap(bm, i0, inv@, ti, n as int, p, col as int, pivot as int);
            bm = swap_cols(bm, col as int, pivot as int);
        }
        proof {
            assert forall|i: int, j: int| 0 <= i < n && 0 <= j < n implies #[trigger] ent(work@, i, j)
                == field.of(col_spec(inv@[i]@, mat@, j, n as int)) by {
                let s = if i == col { pivot as int } else if i == pivot { col as int } else { i };
                assert(work@[i] == w0[s]);
                assert(inv@[i] == i0[s]);
            }
            assert forall|i: int, c: int| 0 <= i < n && 0 <= c < col implies #[trigger] ent(work@, i, c)
                == (if i == c { 1int } else { 0int }) by {
                let s = if i == col { pivot as int } else if i == pivot { col as int } else { i };
                assert(work@[i] == w0[s]);
            }
            assert forall|x: Seq<int>| x.len() == n implies (kills(w0, x, n as int, p) <==> kills(work@, x, n as int, p)) by {
                if kills(w0, x, n as int, p) {
                    assert forall|i: int| 0 <= i < n implies #[trigger] vdot(work@[i]@, x, n as int) % p == 0 by {
                        let s = if i == col { pivot as int } else if i == pivot { col as int } else { i };
                        assert(work@[i] == w0[s]);
                        assert(vdot(w0[s]@, x, n as int) % p == 0);
                    }
                }
                if kills(work@, x, n as int, p) {
                    assert forall|i: int| 0 <= i < n implies #[trigger] vdot(w0[i]@, x, n as int) % p == 0 by {
                        let s = if i == col { pivot as int } else if i == pivot { col as int } else { i };
                        assert(work@[s] == w0[i]);
                        assert(vdot(work@[s]@, x, n as int) % p == 0);
                    }
                }
            }
        }
        let pivot_val = work[col][col];
        let inv_pivot = match field.inv(pivot_val) {
            Some(x) => x,
            None => {
                return Err(ExperimentError::InvalidConfig("non-invertible pivot; check prime".to_string()));
            },
        };
        let ghost w1 = work@;
        let ghost i1 = inv@;
        let wrow = scale_row_from(&work[col], inv_pivot, 0, field);
        let irow = scale_row_from(&inv[col], inv_pivot, 0, field);
        work.set(col, wrow);
        inv.set(col, irow);
        proof {
            let c = inv_pivot.val();
            assert(lin_comb(p, inv@[col as int]@, i1[col as int]@, i1[col as int]@, c, 0, n as int));
            assert forall|j: int| 0 <= j < n implies #[trigger] ent(work@, col as int, j) == field.of(
                col_spec(inv@[col as int]@, mat@, j, n as int),
            ) by {
                lemma_col_spec_linear(p, inv@[col as int]@, i1[col as int]@, i1[col as int]@, c, 0, mat@, j, n as int);
                let sa = col_spec(i1[col as int]@, mat@, j, n as int);
                crate::modular::lemma_lin_mod(c, sa, 0, sa, p);
                assert(ent(w1, col as int, j) == sa % p);
            }
            assert forall|i: int, cc: int| 0 <= i < n && 0 <= cc < col implies #[trigger] ent(work@, i, cc)
                == (if i == cc { 1int } else { 0int }) by {
                if i == col {
                    assert(ent(w1, i, cc) == 0);
                    lemma_small(0, p);
                }
            }
            assert(ent(work@, col as int, col as int) == 1) by {
                lemma_mod_ops(c, pivot_val.val(), p);
                assert(c * pivot_val.val() == pivot_val.val() * c) by (nonlinear_arith);
            }
            assert(lin_comb(p, work@[col as int]@, w1[col as int]@, w1[col as int]@, c, 0, n as int));
            assert((c * pivot_val.val()) % p == 1);
            lemma_carry_scale(bm, w1, work@, tm, n as int, p, col as int, pivot_val.val() as int, c);
            lemma_carry_scale(bm, i1, inv@, ti, n as int, p, col as int, pivot_val.val() as int, c);
            bm = scale_col(bm, col as int, pivot_val.val() as int);
            assert forall|x: Seq<int>| x.len() == n implies (kills(w1, x, n as int, p) <==> kills(work@, x, n as int, p)) by {
                lemma_vdot_linear(p, work@[col as int]@, w1[col as int]@, w1[col as int]@, c, 0, x, n as int);
                let y = vdot(w1[col as int]@, x, n as int);
                let v = pivot_val.val();
                assert(vdot(work@[col as int]@, x, n as int) % p == (c * y) % p);
                assert(((c * v) % p) == 1) by {
                    assert(c * v == v * c) by (nonlinear_arith);
                }
                if kills(w1, x, n as int, p) {
                    assert forall|i: int| 0 <= i < n implies #[trigger] vdot(work@[i]@, x, n as int) % p == 0 by {
                        if i == col {
                            assert(y % p == 0);
                            lemma_mod_ops(c, y, p);
                            assert((c * (y % p)) % p == 0);
                        } else {
                            assert(work@[i] == w1[i]);
                        }
                    }
                }
                if kills(work@, x, n as int, p) {
                    assert forall|i: int| 0 <= i < n implies #[trigger] vdot(w1[i]@, x, n as int) % p == 0 by {
                        if i == col {
                            assert((c * y) % p == 0);
                            lemma_mod_ops(v, c * y, p);
                            assert((v * ((c * y) % p)) % p == 0);
                            assert((v * (c * y)) % p == 0);
                            assert(v * (c * y) == (c * v) * y) by (nonlinear_arith);
                            lemma_mod_ops(c * v, y, p);
                            assert((((c * v) % p) * y) % p == 0);
                            assert(y % p == 0);
                        } else {
                            assert(work@[i] == w1[i]);
                        }
                    }
                }
            }
        }
        let mut row: usize = 0;
        while row < n
            invariant
                field.wf(),
                p == field.modulus(),
                n == mat.len(),
                n > 0,
                is_mat(*field, mat@, n as int, n as int),
                is_mat(*field, work@, n as int, n as int),
                is_mat(*field, inv@, n as int, n as int),
                col < n,
                row <= n,
                carries(bm, work@, tm, n as int, p),
                carries(bm, inv@, ti, n as int, p),
                ent(work@, col as int, col as int) == 1,
                forall|i: int, j: int|
                    0 <= i < n && 0 <= j < n ==> #[trigger] ent(work@, i, j) == field.of(
                        col_spec(inv@[i]@, mat@, j, n as int),
                    ),
                forall|i: int, c: int|
                    0 <= i < n && 0 <= c < col ==> #[trigger] ent(work@, i, c) == (if i == c {
                        1int
                    } else {
                        0int
                    }),
                forall|i: int| 0 <= i < row && i != col ==> #[trigger] ent(work@, i, col as int) == 0,
                forall|x: Seq<int>| x.len() == n ==> (kills(mat@, x, n as int, p) <==> kills(work@, x, n as int, p)),
            decreases n - row,
        {
            if row != col {
                let factor = work[row][col];
                if !factor.is_zero() {
                    let ghost w2 = work@;
                    let ghost i2 = inv@;
                    let wrow = sub_scaled_row_from(&work[row], &work[col], factor, 0, field);
                    let irow = sub_scaled_row_from(&inv[row], &inv[col], factor, 0, field);
                    work.set(row, wrow);
                    inv.set(row, irow);
                    proof {
                        let f = factor.val();
                        assert forall|k: int| 0 <= k < n implies #[trigger] inv@[row as int]@[k].val()
                            == (1 * i2[row as int]@[k].val() + (-f) * i2[col as int]@[k].val()) % p by {
                            lemma_neg_mul(f, i2[col as int]@[k].val());
                            lemma_neg_mul(f, i2[row as int]@[k].val());
                        }
                        assert(lin_comb(p, inv@[row as int]@, i2[row as int]@, i2[col as int]@, 1, -f, n as int));
                        assert forall|j: int| 0 <= j < n implies #[trigger] ent(work@, row as int, j)
                            == field.of(col_spec(inv@[row as int]@, mat@, j, n as int)) by {
                            lemma_col_spec_linear(p, inv@[row as int]@, i2[row as int]@, i2[col as int]@, 1, -f, mat@, j, n as int);
                            let sa = col_spec(i2[row as int]@, mat@, j, n as int);
                            let sb = col_spec(i2[col as int]@, mat@, j, n as int);
                            crate::modular::lemma_lin_mod(1, sa, -f, sb, p);
                            assert(ent(w2, row as int, j) == sa % p);
                            assert(ent(w2, col as int, j) == sb % p);
                            lemma_neg_mul(f, sb % p);
                            lemma_neg_mul(f, sa % p);
                            assert(ent(w2, row as int, j) - f * ent(w2, col as int, j) == 1 * (sa % p) + (-f) * (sb % p));
                        }
                        assert forall|i: int, cc: int| 0 <= i < n && 0 <= cc < col implies #[trigger] ent(work@, i, cc)
                            == (if i == cc { 1int } else { 0int }) by {
                            if i == row {
                                assert(ent(w2, col as int, cc) == 0);
                                lemma_small(ent(w2, row as int, cc), p);
                                assert(ent(w2, row as int, cc) - f * ent(w2, col as int, cc) == ent(w2, row as int, cc));
                            }
                        }
                        assert(ent(work@, row as int, col as int) == 0) by {
                            assert(ent(w2, row as int, col as int) - f * ent(w2, col as int, col as int) == 0);
                            lemma_small(0, p);
                        }
                        assert forall|k: int| 0 <= k < n implies #[trigger] work@[row as int]@[k].val()
                            == (1 * w2[row as int]@[k].val() + (-f) * w2[col as int]@[k].val()) % p by {
                            lemma_neg_mul(f, w2[col as int]@[k].val());
                        }
                        assert(lin_comb(p, work@[row as int]@, w2[row as int]@, w2[col as int]@, 1, -f, n as int));
                        lemma_carry_elim(bm, w2, work@, tm, n as int, p, row as int, col as int, f);
                        lemma_carry_elim(bm, i2, inv@, ti, n as int, p, row as int, col as int, f);
                        bm = add_col(bm, col as int, row as int, f);
                        assert forall|x: Seq<int>| x.len() == n implies (kills(w2, x, n as int, p) <==> kills(work@, x, n as int, p)) by {
                            lemma_vdot_linear(p, work@[row as int]@, w2[row as int]@, w2[col as int]@, 1, -f, x, n as int);
                            let a = vdot(w2[row as int]@, x, n as int);
                            let b = vdot(w2[col as int]@, x, n as int);
                            assert(work@[col as int] == w2[col as int]);
                            if kills(w2, x, n as int, p) {
                                assert forall|i: int| 0 <= i < n implies #[trigger] vdot(work@[i]@, x, n as int) % p == 0 by {
                                    if i == row {
                                        crate::modular::lemma_lin_mod(1, a, -f, b, p);
                                        assert(a % p == 0 && b % p == 0);
                                        assert(1 * (a % p) + (-f) * (b % p) == 0);
                                    } else {
                                        assert(work@[i] == w2[i]);
                                    }
                                }
                            }
                            if kills(work@, x, n as int, p) {
                                assert forall|i: int| 0 <= i < n implies #[trigger] vdot(w2[i]@, x, n as int) % p == 0 by {
                                    if i == row {
                                        assert(vdot(work@[col as int]@, x, n as int) % p == 0);
                                        assert(b % p == 0);
                                        assert((1 * a + (-f) * b) % p == 0);
                                        crate::modular::lemma_lin_mod(1, 1 * a + (-f) * b, f, b, p);
                                        assert((1 * ((1 * a + (-f) * b) % p) + f * (b % p)) % p == 0);
                                        assert(1 * (1 * a + (-f) * b) + f * b == a) by (nonlinear_arith);
                                    } else {
                                        assert(work@[i] == w2[i]);
                                    }
                                }
                            }
                        }
                    }
                }
            }
            row += 1;
        }
        col += 1;
    }
    proof {
        assert forall|i: int, j: int| 0 <= i < n && 0 <= j < n implies #[trigger] field.of(
            col_spec(inv@[i]@, mat@, j, n as int),
        ) == (if i == j { 1int } else { 0int }) by {
            assert(ent(work@, i, j) == (if i == j { 1int } else { 0int }));
        }
        if singular_mod(mat@, n as int, p) {
            let x = choose|x: Seq<int>| x.len() == n && (exists|j: int| 0 <= j < n && #[trigger] x[j] % p != 0) && kills(mat@, x, n as int, p);
            let j = choose|j: int| 0 <= j < n && #[trigger] x[j] % p != 0;
            assert(kills(work@, x, n as int, p));
            assert forall|k: int| 0 <= k < n && k != j && k != n implies #[trigger] (work@[j]@[k].val() * x[k]) == 0 by {
                assert(ent(work@, j, k) == 0);
            }
            lemma_vdot_two(work@[j]@, x, n as int, j, n as int);
            assert(ent(work@, j, j) == 1);
            assert(vdot(work@[j]@, x, n as int) % p == 0);
        }
    }
    proof {
        assert forall|i: int, j: int| 0 <= i < n && 0 <= j < n implies #[trigger] field.of(
            col_spec(mat@[i]@, inv@, j, n as int),
        ) == (if i == j { 1int } else { 0int }) by {
            assert forall|k: int| 0 <= k < n implies #[trigger] bm[i][k] % p == Seq::new(
                mat@[i]@.len(),
                |q: int| mat@[i]@[q].val() as int,
            )[k] % p by {
                assert forall|q: int| 0 <= q < n implies #[trigger] work@[q]@[k].val() == (if q == k { 1int } else { 0int }) by {
                    assert(ent(work@, q, k) == (if q == k { 1int } else { 0int }));
                }
                lemma_rsum_identity(bm[i], work@, k, n as int);
                assert(rsum(bm[i], work@, k, n as int) % p == tm[i][k]);
                lemma_small(mat@[i]@[k].val() as int, p);
            }
            lemma_col_spec_rsum(mat@[i]@, inv@, j, n as int);
            lemma_rsum_congruent(bm[i], Seq::new(mat@[i]@.len(), |q: int| mat@[i]@[q].val() as int), inv@, j, n as int, p);
            assert(rsum(bm[i], inv@, j, n as int) % p == ti[i][j]);
        }
    }
    Ok(inv)
}

} // verus!
