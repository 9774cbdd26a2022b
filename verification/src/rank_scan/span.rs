//! Row spans modulo a prime: which rows a row reduction keeps as a basis, and
//! how every other row is a combination of them.
use crate::linear_mod::{row_dot, solves};
use crate::modular::lemma_mod_ops;
use vstd::prelude::*;

verus! {

/// The entries of a matrix of `i64`, as integers.
pub open spec fn imat(m: Seq<Vec<i64>>) -> Seq<Seq<int>> {
    Seq::new(m.len(), |i: int| Seq::new(m[i]@.len(), |j: int| m[i]@[j] as int))
}

/// `sum_{k < n} y[k] * rows[k][e]`.
pub open spec fn comb(y: Seq<int>, rows: Seq<Seq<int>>, e: int, n: int) -> int
    decreases n,
{
    if n <= 0 {
        0
    } else {
        comb(y, rows, e, n - 1) + y[n - 1] * rows[n - 1][e]
    }
}

/// The coefficient vector that picks row `b` alone.
pub open spec fn unit(b: int, n: int) -> Seq<int> {
    Seq::new(n as nat, |k: int| if k == b { 1int } else { 0int })
}

/// `y` has one coefficient per row and vanishes outside the rows of `basis`.
pub open spec fn supported(y: Seq<int>, basis: Seq<usize>, n: int) -> bool {
    &&& y.len() == n
    &&& forall|k: int| 0 <= k < n && !basis.contains(k as usize) ==> #[trigger] y[k] == 0
}

/// Row `i` of the matrix is, modulo `p`, a combination of the rows listed in
/// `basis`.
pub open spec fn in_row_span(matrix: Seq<Seq<int>>, basis: Seq<usize>, i: int, cols: int, p: int) -> bool {
    exists|y: Seq<int>|
        #[trigger] supported(y, basis, matrix.len() as int) && forall|e: int|
            0 <= e < cols ==> #[trigger] comb(y, matrix, e, matrix.len() as int) % p == (matrix[i][e]) % p
}

/// Combinations are linear in their coefficients.
pub proof fn lemma_comb_lin(z: Seq<int>, a: int, u: Seq<int>, b: int, w: Seq<int>, rows: Seq<Seq<int>>, e: int, n: int)
    requires
        forall|k: int| 0 <= k < n ==> #[trigger] z[k] == a * u[k] + b * w[k],
    ensures
        comb(z, rows, e, n) == a * comb(u, rows, e, n) + b * comb(w, rows, e, n),
    decreases n,
{
    if n > 0 {
        lemma_comb_lin(z, a, u, b, w, rows, e, n - 1);
        let (zk, uk, wk, r) = (z[n - 1], u[n - 1], w[n - 1], rows[n - 1][e]);
        let (cu, cw) = (comb(u, rows, e, n - 1), comb(w, rows, e, n - 1));
        assert(a * cu + b * cw + zk * r == a * (cu + uk * r) + b * (cw + wk * r)) by (nonlinear_arith)
            requires
                zk == a * uk + b * wk,
        ;
    }
}

/// The unit coefficient vector picks its row.
pub proof fn lemma_comb_unit(bb: int, rows: Seq<Seq<int>>, e: int, n: int, m: int)
    requires
        0 <= bb < n,
        0 <= m <= n,
    ensures
        comb(unit(bb, n), rows, e, m) == if bb < m {
            rows[bb][e]
        } else {
            0
        },
    decreases m,
{
    if m > 0 {
        lemma_comb_unit(bb, rows, e, n, m - 1);
    }
}

/// For coefficients that vanish outside the distinct rows `sel[..m]`, the
/// combination is the sum over those rows, with the coefficients read through
/// `sel`.
pub proof fn lemma_comb_select(
    y: Seq<int>,
    rows: Seq<Seq<int>>,
    sel: Seq<usize>,
    col: Seq<i64>,
    x: Seq<int>,
    e: int,
    m: int,
)
    requires
        0 <= m <= sel.len(),
        y.len() == rows.len(),
        forall|a: int| 0 <= a < sel.len() ==> #[trigger] sel[a] < rows.len(),
        forall|a: int, c: int| 0 <= a < c < sel.len() ==> #[trigger] sel[a] != #[trigger] sel[c],
        forall|k: int| 0 <= k < rows.len() && (forall|a: int| 0 <= a < m ==> #[trigger] sel[a] != k) ==> #[trigger] y[k] == 0,
        forall|a: int| 0 <= a < m ==> #[trigger] col[a] == rows[sel[a] as int][e],
        forall|a: int| 0 <= a < m ==> #[trigger] x[a] == y[sel[a] as int],
    ensures
        comb(y, rows, e, rows.len() as int) == row_dot(col, x, m),
    decreases m,
{
    let n = rows.len() as int;
    if m == 0 {
        lemma_comb_lin(y, 0, y, 0, y, rows, e, n);
    } else {
        let bb = sel[m - 1] as int;
        let yb = y[bb];
        let y2 = y.update(bb, 0);
        let ub = unit(bb, n);
        assert forall|k: int| 0 <= k < n implies #[trigger] y2[k] == 1 * y[k] + (-yb) * ub[k] by {}
        lemma_comb_lin(y2, 1, y, -yb, ub, rows, e, n);
        lemma_comb_unit(bb, rows, e, n, n);
        assert forall|k: int| 0 <= k < n && (forall|a: int| 0 <= a < m - 1 ==> #[trigger] sel[a] != k) implies #[trigger] y2[k]
            == 0 by {
            if k != bb {
                assert forall|a: int| 0 <= a < m implies #[trigger] sel[a] != k by {
                    if a < m - 1 {
                    } else {
                        assert(sel[a] == bb);
                    }
                }
            }
        }
        assert forall|a: int| 0 <= a < m - 1 implies #[trigger] x[a] == y2[sel[a] as int] by {
            assert(sel[a] != sel[m - 1]);
        }
        lemma_comb_select(y2, rows, sel, col, x, e, m - 1);
        let (r, c) = (rows[bb][e], col[m - 1] as int);
        assert(r == c);
        assert(x[m - 1] == yb);
        assert(1 * comb(y, rows, e, n) + (-yb) * r + c * yb == comb(y, rows, e, n)) by (nonlinear_arith)
            requires
                r == c,
        ;
    }
}

/// A reduction's bookkeeping: row `j` of `cur` is, modulo `p`, the combination
/// `t[j]` of the rows of `orig`; from row `from` on, a row's coefficients are 1
/// at its own original row and vanish outside it and the rows of `basis`.
#[verifier::opaque]
pub open spec fn tracks(
    t: Seq<Seq<int>>,
    orig: Seq<Seq<int>>,
    cur: Seq<Seq<int>>,
    idx: Seq<usize>,
    basis: Seq<usize>,
    from: int,
    n: int,
    cols: int,
    p: int,
) -> bool {
    &&& t.len() == n
    &&& forall|j: int| 0 <= j < n ==> (#[trigger] t[j]).len() == n
    &&& forall|j: int, e: int|
        0 <= j < n && 0 <= e < cols ==> #[trigger] comb(t[j], orig, e, n) % p == (cur[j][e]) % p
    &&& forall|j: int| from <= j < n ==> #[trigger] t[j][idx[j] as int] == 1
    &&& forall|j: int, k: int|
        from <= j < n && 0 <= k < n && k != idx[j] && !basis.contains(k as usize) ==> #[trigger] t[j][k] == 0
}

/// `pos` inverts the permutation `idx` of the rows.
pub open spec fn inverts(pos: Seq<int>, idx: Seq<usize>, n: int) -> bool {
    &&& pos.len() == n
    &&& forall|i: int| 0 <= i < n ==> 0 <= #[trigger] pos[i] < n && idx[pos[i]] == i
}

/// At the start every row is itself.
pub proof fn lemma_tracks_init(orig: Seq<Seq<int>>, cur: Seq<Seq<int>>, idx: Seq<usize>, n: int, cols: int, p: int) -> (t: Seq<
    Seq<int>,
>)
    requires
        n == orig.len(),
        n == cur.len(),
        n == idx.len(),
        p > 0,
        forall|j: int| 0 <= j < n ==> #[trigger] cur[j] == orig[j],
        forall|j: int| 0 <= j < n ==> #[trigger] idx[j] == j,
    ensures
        tracks(t, orig, cur, idx, Seq::empty(), 0, n, cols, p),
{
    let t = Seq::new(n as nat, |j: int| unit(j, n));
    assert forall|j: int, e: int| 0 <= j < n && 0 <= e < cols implies #[trigger] comb(t[j], orig, e, n) % p == (
    cur[j][e]) % p by {
        lemma_comb_unit(j, orig, e, n, n);
    }
    reveal(tracks);
    t
}

/// Swapping rows `a` and `b` of the reduction (and of its permutation), then
/// taking the original row now at `a` into the basis.
pub proof fn lemma_tracks_swap(
    t: Seq<Seq<int>>,
    orig: Seq<Seq<int>>,
    cur: Seq<Seq<int>>,
    cur2: Seq<Seq<int>>,
    idx: Seq<usize>,
    idx2: Seq<usize>,
    basis: Seq<usize>,
    basis2: Seq<usize>,
    n: int,
    cols: int,
    p: int,
    a: int,
    b: int,
) -> (t2: Seq<Seq<int>>)
    requires
        tracks(t, orig, cur, idx, basis, a, n, cols, p),
        0 <= a <= b < n,
        cur2.len() == n,
        idx2.len() == n,
        forall|j: int| 0 <= j < n ==> #[trigger] cur2[j] == cur[if j == a { b } else if j == b { a } else { j }],
        forall|j: int| 0 <= j < n ==> #[trigger] idx2[j] == idx[if j == a { b } else if j == b { a } else { j }],
        basis2 == basis.push(idx2[a]),
    ensures
        tracks(t2, orig, cur2, idx2, basis2, a, n, cols, p),
{
    reveal(tracks);
    let t2 = Seq::new(n as nat, |j: int| t[if j == a { b } else if j == b { a } else { j }]);
    assert forall|j: int, e: int| 0 <= j < n && 0 <= e < cols implies #[trigger] comb(t2[j], orig, e, n) % p == (
    cur2[j][e]) % p by {
        let s = if j == a { b } else if j == b { a } else { j };
        assert(t2[j] == t[s] && cur2[j] == cur[s]);
    }
    assert forall|j: int| a <= j < n implies #[trigger] t2[j][idx2[j] as int] == 1 by {
        let s = if j == a { b } else if j == b { a } else { j };
        assert(t2[j] == t[s] && idx2[j] == idx[s]);
    }
    assert forall|j: int, k: int| a <= j < n && 0 <= k < n && k != idx2[j] && !basis2.contains(k as usize) implies #[trigger] t2[j][k]
        == 0 by {
        let s = if j == a { b } else if j == b { a } else { j };
        assert(t2[j] == t[s] && idx2[j] == idx[s]);
        if basis.contains(k as usize) {
            let q = choose|q: int| 0 <= q < basis.len() && basis[q] == k as usize;
            assert(basis2[q] == basis[q]);
        }
    }
    t2
}

/// Scaling the pivot row `a` by `c`: from then on the bookkeeping starts at
/// `a + 1`, and the pivot row's coefficients vanish outside the basis.
pub proof fn lemma_tracks_scale(
    t: Seq<Seq<int>>,
    orig: Seq<Seq<int>>,
    cur: Seq<Seq<int>>,
    cur2: Seq<Seq<int>>,
    idx: Seq<usize>,
    basis: Seq<usize>,
    n: int,
    cols: int,
    p: int,
    a: int,
    c: int,
) -> (t2: Seq<Seq<int>>)
    requires
        tracks(t, orig, cur, idx, basis, a, n, cols, p),
        0 <= a < n,
        p > 0,
        basis.contains(idx[a]),
        cur2.len() == n,
        forall|j: int| 0 <= j < n && j != a ==> #[trigger] cur2[j] == cur[j],
        forall|e: int| 0 <= e < cols ==> #[trigger] cur2[a][e] == (c * cur[a][e]) % p,
    ensures
        tracks(t2, orig, cur2, idx, basis, a + 1, n, cols, p),
        t2[a].len() == n,
        forall|k: int| 0 <= k < n && !basis.contains(k as usize) ==> #[trigger] t2[a][k] == 0,
{
    reveal(tracks);
    let ta = t[a];
    let sa = Seq::new(n as nat, |k: int| c * ta[k]);
    let t2 = t.update(a, sa);
    assert forall|j: int, e: int| 0 <= j < n && 0 <= e < cols implies #[trigger] comb(t2[j], orig, e, n) % p == (
    cur2[j][e]) % p by {
        if j == a {
            assert forall|k: int| 0 <= k < n implies #[trigger] sa[k] == c * ta[k] + 0 * ta[k] by {}
            lemma_comb_lin(sa, c, ta, 0, ta, orig, e, n);
            let y = comb(ta, orig, e, n);
            assert(y % p == (cur[a][e]) % p);
            lemma_mod_ops(c, y, p);
            lemma_mod_ops(c, cur[a][e], p);
            vstd::arithmetic::div_mod::lemma_mod_twice(c * cur[a][e], p);
        } else {
            assert(t2[j] == t[j]);
        }
    }
    assert forall|k: int| 0 <= k < n && !basis.contains(k as usize) implies #[trigger] t2[a][k] == 0 by {
        assert(k != idx[a]);
        assert(ta[k] == 0);
    }
    t2
}

/// Subtracting `f` times the pivot row `q` from row `r`.
pub proof fn lemma_tracks_elim(
    t: Seq<Seq<int>>,
    orig: Seq<Seq<int>>,
    cur: Seq<Seq<int>>,
    cur2: Seq<Seq<int>>,
    idx: Seq<usize>,
    basis: Seq<usize>,
    from: int,
    n: int,
    cols: int,
    p: int,
    q: int,
    r: int,
    f: int,
) -> (t2: Seq<Seq<int>>)
    requires
        tracks(t, orig, cur, idx, basis, from, n, cols, p),
        0 <= q < from <= n,
        0 <= r < n,
        r != q,
        p > 0,
        forall|k: int| 0 <= k < n && !basis.contains(k as usize) ==> #[trigger] t[q][k] == 0,
        forall|j: int| from <= j < n ==> !basis.contains(#[trigger] idx[j]),
        forall|j: int| 0 <= j < n ==> #[trigger] idx[j] < n,
        cur2.len() == n,
        forall|j: int| 0 <= j < n && j != r ==> #[trigger] cur2[j] == cur[j],
        forall|e: int| 0 <= e < cols ==> #[trigger] cur2[r][e] == (1 * cur[r][e] + (-f) * cur[q][e]) % p,
    ensures
        tracks(t2, orig, cur2, idx, basis, from, n, cols, p),
        t2[q] == t[q],
{
    reveal(tracks);
    let tr = t[r];
    let tq = t[q];
    let sr = Seq::new(n as nat, |k: int| 1 * tr[k] + (-f) * tq[k]);
    let t2 = t.update(r, sr);
    assert forall|j: int, e: int| 0 <= j < n && 0 <= e < cols implies #[trigger] comb(t2[j], orig, e, n) % p == (
    cur2[j][e]) % p by {
        if j == r {
            lemma_comb_lin(sr, 1, tr, -f, tq, orig, e, n);
            let (y1, y2) = (comb(tr, orig, e, n), comb(tq, orig, e, n));
            crate::modular::lemma_lin_mod(1, y1, -f, y2, p);
            crate::modular::lemma_lin_mod(1, cur[r][e], -f, cur[q][e], p);
            vstd::arithmetic::div_mod::lemma_mod_twice(1 * cur[r][e] + (-f) * cur[q][e], p);
            assert(comb(sr, orig, e, n) == 1 * y1 + (-f) * y2);
        } else {
            assert(t2[j] == t[j]);
            assert(cur2[j] == cur[j]);
        }
    }
    assert forall|j: int| from <= j < n implies #[trigger] t2[j][idx[j] as int] == 1 by {
        if j == r {
            assert(!basis.contains(idx[j]));
            assert(tq[idx[j] as int] == 0);
        }
    }
    assert forall|j: int, k: int| from <= j < n && 0 <= k < n && k != idx[j] && !basis.contains(k as usize) implies #[trigger] t2[j][k]
        == 0 by {
        if j == r {
            assert(tq[k] == 0);
            assert(tr[k] == 0);
        }
    }
    t2
}

/// When the rows from `from` on have become zero, every row of `orig` lies in
/// the span of the basis rows, which are the first `from` rows of the
/// permutation.
pub proof fn lemma_tracks_span(
    t: Seq<Seq<int>>,
    orig: Seq<Seq<int>>,
    cur: Seq<Seq<int>>,
    idx: Seq<usize>,
    basis: Seq<usize>,
    pos: Seq<int>,
    from: int,
    n: int,
    cols: int,
    p: int,
)
    requires
        tracks(t, orig, cur, idx, basis, from, n, cols, p),
        inverts(pos, idx, n),
        n == orig.len(),
        n == idx.len(),
        0 <= from <= n,
        p > 0,
        basis == idx.subrange(0, from),
        forall|j: int, e: int| from <= j < n && 0 <= e < cols ==> #[trigger] cur[j][e] == 0,
    ensures
        forall|i: int| 0 <= i < n ==> #[trigger] in_row_span(orig, basis, i, cols, p),
{
    reveal(tracks);
    assert forall|i: int| 0 <= i < n implies #[trigger] in_row_span(orig, basis, i, cols, p) by {
        let j = pos[i];
        if j < from {
            let y = unit(i, n);
            assert(basis[j] == idx[j]);
            assert(basis.contains(i as usize));
            assert forall|e: int| 0 <= e < cols implies #[trigger] comb(y, orig, e, n) % p == (orig[i][e]) % p by {
                lemma_comb_unit(i, orig, e, n, n);
            }
            assert(supported(y, basis, n));
        } else {
            let tj = t[j];
            let ui = unit(i, n);
            let y = Seq::new(n as nat, |k: int| (-1) * tj[k] + 1 * ui[k]);
            assert(idx[j] == i);
            assert forall|k: int| 0 <= k < n && !basis.contains(k as usize) implies #[trigger] y[k] == 0 by {
                if k == i {
                    assert(tj[k] == 1);
                } else {
                    assert(tj[k] == 0);
                }
            }
            assert(supported(y, basis, n));
            assert forall|e: int| 0 <= e < cols implies #[trigger] comb(y, orig, e, n) % p == (orig[i][e]) % p by {
                lemma_comb_lin(y, -1, tj, 1, ui, orig, e, n);
                lemma_comb_unit(i, orig, e, n, n);
                let c = comb(tj, orig, e, n);
                let v = orig[i][e];
                assert(c % p == 0) by {
                    assert(cur[j][e] == 0);
                }
                lemma_mod_ops(v, c, p);
                vstd::arithmetic::div_mod::lemma_mod_twice(v, p);
                assert((-1) * c + 1 * v == v - c);
            }
        }
    }
}

/// When every row is a basis row, every row lies in the basis's span.
pub proof fn lemma_full_span(orig: Seq<Seq<int>>, idx: Seq<usize>, basis: Seq<usize>, pos: Seq<int>, n: int, cols: int, p: int)
    requires
        inverts(pos, idx, n),
        n == orig.len(),
        n == idx.len(),
        basis == idx.subrange(0, n),
    ensures
        forall|i: int| 0 <= i < n ==> #[trigger] in_row_span(orig, basis, i, cols, p),
{
    assert forall|i: int| 0 <= i < n implies #[trigger] in_row_span(orig, basis, i, cols, p) by {
        let y = unit(i, n);
        assert(basis[pos[i]] == i);
        assert(basis.contains(i as usize));
        assert forall|e: int| 0 <= e < cols implies #[trigger] comb(y, orig, e, n) % p == (orig[i][e]) % p by {
            lemma_comb_unit(i, orig, e, n, n);
        }
        assert(supported(y, basis, n));
    }
}

/// A row in the span of no rows is zero.
pub proof fn lemma_span_empty(matrix: Seq<Seq<int>>, basis: Seq<usize>, i: int, e: int, cols: int, p: int)
    requires
        in_row_span(matrix, basis, i, cols, p),
        basis.len() == 0,
        0 <= e < cols,
        0 <= matrix[i][e] < p,
    ensures
        matrix[i][e] == 0,
{
    let n = matrix.len() as int;
    let y = choose|y: Seq<int>|
        #[trigger] supported(y, basis, n) && forall|e: int|
            0 <= e < cols ==> #[trigger] comb(y, matrix, e, n) % p == (matrix[i][e]) % p;
    assert forall|k: int| 0 <= k < n implies #[trigger] y[k] == 0 * y[k] + 0 * y[k] by {
        assert(!basis.contains(k as usize));
    }
    lemma_comb_lin(y, 0, y, 0, y, matrix, e, n);
    crate::modular::lemma_small(matrix[i][e], p);
}

/// A row in the span of the rows `sel` (listing at least the basis rows)
/// solves the system whose column `a` is row `sel[a]`: `bt` holds those rows
/// transposed.
pub proof fn lemma_span_solves(
    matrix: Seq<Seq<int>>,
    basis: Seq<usize>,
    sel: Seq<usize>,
    bt: Seq<Vec<i64>>,
    rhs: Seq<i64>,
    i: int,
    cols: int,
    p: int,
) -> (x: Seq<int>)
    requires
        in_row_span(matrix, basis, i, cols, p),
        forall|e: int| 0 <= e < cols ==> #[trigger] rhs[e] as int == matrix[i][e],
        matrix.len() <= usize::MAX,
        forall|a: int| 0 <= a < sel.len() ==> #[trigger] sel[a] < matrix.len(),
        forall|a: int, c: int| 0 <= a < c < sel.len() ==> #[trigger] sel[a] != #[trigger] sel[c],
        forall|v: usize| #[trigger] basis.contains(v) ==> sel.contains(v),
        bt.len() == cols,
        forall|e: int, a: int| 0 <= e < cols && 0 <= a < sel.len() ==> #[trigger] bt[e]@[a] == matrix[sel[a] as int][e],
    ensures
        solves(bt, rhs, x, sel.len() as int, p),
{
    let n = matrix.len() as int;
    let m = sel.len() as int;
    let y = choose|y: Seq<int>|
        #[trigger] supported(y, basis, n) && forall|e: int|
            0 <= e < cols ==> #[trigger] comb(y, matrix, e, n) % p == (matrix[i][e]) % p;
    let x = Seq::new(m as nat, |a: int| y[sel[a] as int]);
    assert forall|k: int| 0 <= k < n && (forall|a: int| 0 <= a < m ==> #[trigger] sel[a] != k) implies #[trigger] y[k] == 0 by {
        if basis.contains(k as usize) {
            assert(sel.contains(k as usize));
            let a = choose|a: int| 0 <= a < m && sel[a] == k as usize;
            assert(sel[a] != k);
        }
    }
    assert forall|e: int| 0 <= e < bt.len() implies #[trigger] row_dot(bt[e]@, x, m) % p == (rhs[e] as int) % p by {
        assert forall|a: int| 0 <= a < m implies #[trigger] bt[e]@[a] == matrix[sel[a] as int][e] by {}
        lemma_comb_select(y, matrix, sel, bt[e]@, x, e, m);
    }
    x
}

} // verus!
