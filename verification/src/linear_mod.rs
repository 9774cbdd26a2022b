//! Linear equations modulo a prime: what it means for a vector to solve a
//! system, and how the row operations of elimination keep the solutions.
use crate::modular::{lemma_mod_ops, lemma_mul_congruent, pow};
use vstd::prelude::*;

verus! {

/// `sum_{c < n} row[c] * x[c]`.
pub open spec fn row_dot(row: Seq<i64>, x: Seq<int>, n: int) -> int
    decreases n,
{
    if n <= 0 {
        0
    } else {
        row_dot(row, x, n - 1) + row[n - 1] * x[n - 1]
    }
}

/// `x` solves every row of the augmented matrix modulo `p`: the first `ncols`
/// entries of a row are its coefficients, entry `ncols` its right-hand side.
pub open spec fn solves_aug(aug: Seq<Vec<i64>>, x: Seq<int>, ncols: int, p: int) -> bool {
    forall|i: int| 0 <= i < aug.len() ==> #[trigger] row_dot(aug[i]@, x, ncols) % p == (aug[i]@[ncols] as int) % p
}

/// `x` solves `matrix * x = rhs` modulo `p`.
pub open spec fn solves(matrix: Seq<Vec<i64>>, rhs: Seq<i64>, x: Seq<int>, ncols: int, p: int) -> bool {
    forall|i: int| 0 <= i < matrix.len() ==> #[trigger] row_dot(matrix[i]@, x, ncols) % p == (rhs[i] as int) % p
}

/// The integers of a vector of `i64`.
pub open spec fn ints(v: Seq<i64>) -> Seq<int> {
    v.map_values(|e: i64| e as int)
}

/// `v^(p-2)` inverts every nonzero residue `v` modulo `p`, as Fermat's little
/// theorem gives for a prime `p`.
pub open spec fn inverses_ok(p: int) -> bool {
    forall|v: int| 1 <= v < p ==> #[trigger] ((pow(v, (p - 2) as nat) % p) * v) % p == 1
}

/// Scaling a row scales its products with every vector.
pub proof fn lemma_row_dot_scale(s: Seq<i64>, old: Seq<i64>, x: Seq<int>, n: int, inv: int, p: int)
    requires
        p > 0,
        0 <= n,
        n <= s.len(),
        n <= old.len(),
        forall|c: int| 0 <= c < n ==> #[trigger] (s[c] as int) % p == (old[c] * inv) % p,
    ensures
        row_dot(s, x, n) % p == (inv * row_dot(old, x, n)) % p,
    decreases n,
{
    if n > 0 {
        lemma_row_dot_scale(s, old, x, n - 1, inv, p);
        let a = row_dot(s, x, n - 1);
        let b = row_dot(old, x, n - 1);
        let sc = s[n - 1] as int;
        let oc = old[n - 1] as int;
        let xc = x[n - 1];
        lemma_mul_congruent(sc, oc * inv, xc, p);
        assert((oc * inv) * xc == inv * (oc * xc)) by (nonlinear_arith);
        lemma_mod_ops(a, sc * xc, p);
        lemma_mod_ops(inv * b, inv * (oc * xc), p);
        assert(inv * b + inv * (oc * xc) == inv * (b + oc * xc)) by (nonlinear_arith);
    }
}

/// Subtracting a multiple of another row subtracts the same multiple of its
/// products.
pub proof fn lemma_row_dot_elim(nr: Seq<i64>, old: Seq<i64>, pv: Seq<i64>, x: Seq<int>, n: int, f: int, p: int)
    requires
        p > 0,
        0 <= n,
        n <= nr.len(),
        n <= old.len(),
        n <= pv.len(),
        forall|c: int| 0 <= c < n ==> #[trigger] (nr[c] as int) % p == (old[c] - f * pv[c]) % p,
    ensures
        row_dot(nr, x, n) % p == (row_dot(old, x, n) - f * row_dot(pv, x, n)) % p,
    decreases n,
{
    if n > 0 {
        lemma_row_dot_elim(nr, old, pv, x, n - 1, f, p);
        let a = row_dot(nr, x, n - 1);
        let b = row_dot(old, x, n - 1);
        let d = row_dot(pv, x, n - 1);
        let nc = nr[n - 1] as int;
        let oc = old[n - 1] as int;
        let pc = pv[n - 1] as int;
        let xc = x[n - 1];
        lemma_mul_congruent(nc, oc - f * pc, xc, p);
        assert((oc - f * pc) * xc == oc * xc - f * (pc * xc)) by (nonlinear_arith);
        lemma_mod_ops(a, nc * xc, p);
        lemma_mod_ops(b - f * d, oc * xc - f * (pc * xc), p);
        assert((b - f * d) + (oc * xc - f * (pc * xc)) == (b + oc * xc) - f * (d + pc * xc)) by (nonlinear_arith);
    }
}

/// Rows that agree entry by entry modulo `p` have products that agree modulo `p`.
pub proof fn lemma_row_dot_congruent(a: Seq<i64>, b: Seq<i64>, x: Seq<int>, n: int, p: int)
    requires
        p > 0,
        0 <= n,
        n <= a.len(),
        n <= b.len(),
        forall|c: int| 0 <= c < n ==> #[trigger] (a[c] as int) % p == (b[c] as int) % p,
    ensures
        row_dot(a, x, n) % p == row_dot(b, x, n) % p,
    decreases n,
{
    if n > 0 {
        lemma_row_dot_congruent(a, b, x, n - 1, p);
        lemma_mul_congruent(a[n - 1] as int, b[n - 1] as int, x[n - 1], p);
        lemma_mod_ops(row_dot(a, x, n - 1), a[n - 1] * x[n - 1], p);
        lemma_mod_ops(row_dot(b, x, n - 1), b[n - 1] * x[n - 1], p);
        lemma_mod_ops(row_dot(a, x, n - 1), b[n - 1] * x[n - 1], p);
        lemma_mod_ops(row_dot(b, x, n - 1), a[n - 1] * x[n - 1], p);
        lemma_mod_ops(row_dot(a, x, n - 1) % p, (a[n - 1] * x[n - 1]) % p, p);
        lemma_mod_ops(row_dot(b, x, n - 1) % p, (b[n - 1] * x[n - 1]) % p, p);
        vstd::arithmetic::div_mod::lemma_add_mod_noop(row_dot(a, x, n - 1), a[n - 1] * x[n - 1], p);
        vstd::arithmetic::div_mod::lemma_add_mod_noop(row_dot(b, x, n - 1), b[n - 1] * x[n - 1], p);
    }
}

/// A row whose products vanish at every entry but `q` has the product of
/// entry `q`.
pub proof fn lemma_row_dot_single(r: Seq<i64>, x: Seq<int>, n: int, q: int)
    requires
        0 <= q < n,
        forall|c: int| 0 <= c < n && c != q ==> #[trigger] (r[c] * x[c]) == 0,
    ensures
        row_dot(r, x, n) == r[q] * x[q],
    decreases n,
{
    if n - 1 > q {
        lemma_row_dot_single(r, x, n - 1, q);
        assert(r[n - 1] * x[n - 1] == 0);
    } else {
        lemma_row_dot_zero_products(r, x, n - 1);
    }
}

/// A row whose products all vanish has product zero.
pub proof fn lemma_row_dot_zero_products(r: Seq<i64>, x: Seq<int>, n: int)
    requires
        forall|c: int| 0 <= c < n ==> #[trigger] (r[c] * x[c]) == 0,
    ensures
        row_dot(r, x, n) == 0,
    decreases n,
{
    if n > 0 {
        lemma_row_dot_zero_products(r, x, n - 1);
        assert(r[n - 1] * x[n - 1] == 0);
    }
}

/// Every product with a zero row vanishes.
pub proof fn lemma_row_dot_zero(r: Seq<i64>, x: Seq<int>, n: int)
    requires
        forall|c: int| 0 <= c < n ==> #[trigger] r[c] == 0,
    ensures
        row_dot(r, x, n) == 0,
    decreases n,
{
    if n > 0 {
        lemma_row_dot_zero(r, x, n - 1);
        assert(r[n - 1] == 0);
        assert(r[n - 1] * x[n - 1] == 0);
    }
}


/// Subtracting `f` times a solved equation keeps an equation solved, and
/// unsolved.
pub proof fn lemma_elim_equiv(od: int, nd: int, pd: int, oc: int, nc: int, pc: int, f: int, p: int)
    requires
        p > 0,
        nd % p == (od - f * pd) % p,
        nc % p == (oc - f * pc) % p,
        pd % p == pc % p,
    ensures
        (nd % p == nc % p) == (od % p == oc % p),
{
    lemma_mul_congruent(pd, pc, f, p);
    assert(pd * f == f * pd && pc * f == f * pc) by (nonlinear_arith);
    vstd::arithmetic::div_mod::lemma_mod_equivalence(f * pd, f * pc, p);
    vstd::arithmetic::div_mod::lemma_mod_equivalence(od - f * pd, oc - f * pc, p);
    vstd::arithmetic::div_mod::lemma_mod_equivalence(od, oc, p);
    vstd::arithmetic::div_mod::lemma_mod_equivalence(nd, nc, p);
    let a = od - oc;
    let b = f * pd - f * pc;
    assert((od - f * pd) - (oc - f * pc) == a - b);
    lemma_mod_ops(a, b, p);
    vstd::arithmetic::div_mod::lemma_mod_equivalence(nd, od - f * pd, p);
    vstd::arithmetic::div_mod::lemma_mod_equivalence(nc, oc - f * pc, p);
    assert((nd - nc) == (nd - (od - f * pd)) + ((od - f * pd) - (oc - f * pc)) + ((oc - f * pc) - nc));
    lemma_mod_ops(nd - (od - f * pd), ((od - f * pd) - (oc - f * pc)) + ((oc - f * pc) - nc), p);
    lemma_mod_ops((od - f * pd) - (oc - f * pc), (oc - f * pc) - nc, p);
    assert(((oc - f * pc) - nc) == -(nc - (oc - f * pc)));
    vstd::arithmetic::div_mod::lemma_mod_equivalence(oc - f * pc, nc, p);
}

/// Multiplying by a unit keeps an equation solved, and unsolved.
pub proof fn lemma_scale_equiv(od: int, sd: int, oc: int, sc: int, inv: int, pv: int, p: int)
    requires
        p > 0,
        (inv * pv) % p == 1,
        sd % p == (inv * od) % p,
        sc % p == (inv * oc) % p,
    ensures
        (sd % p == sc % p) == (od % p == oc % p),
{
    if od % p == oc % p {
        lemma_mul_congruent(od, oc, inv, p);
        assert(od * inv == inv * od && oc * inv == inv * oc) by (nonlinear_arith);
    }
    if sd % p == sc % p {
        lemma_mul_congruent(inv * od, inv * oc, pv, p);
        assert((inv * od) * pv == (inv * pv) * od && (inv * oc) * pv == (inv * pv) * oc) by (nonlinear_arith);
        lemma_mod_ops(inv * pv, od, p);
        lemma_mod_ops(inv * pv, oc, p);
        assert(1 * od == od && 1 * oc == oc);
    }
}

} // verus!
