//! The ladder symbol word by word, and what the closed-form marginal counts
//! say of it.
use crate::ladder::{
    binom, case_count, count_fixed, fixed_seq, marginal_count_spec, overlap_conflict, position_count, special_conflict,
    special_count, z_cases_spec, ID_ONE_MINUS_Z, ID_ONE_MINUS_ZBAR, ID_Z, ID_ZBAR, NUM_LETTERS,
};
use crate::modular::pow;
use vstd::prelude::*;

verus! {

/// How many letters `x` the word holds at positions `lo..hi`.
pub open spec fn letter_count(w: Seq<usize>, lo: int, hi: int, x: usize) -> int
    decreases hi - lo,
{
    if hi <= lo {
        0
    } else {
        letter_count(w, lo, hi - 1, x) + if w[hi - 1] == x {
            1int
        } else {
            0int
        }
    }
}

/// Position `p` holds `1-z` or `1-zbar`, and every other position `z` or
/// `zbar`.
pub open spec fn sole_special(w: Seq<usize>, p: int) -> bool {
    &&& 0 <= p < w.len()
    &&& (w[p] == ID_ONE_MINUS_Z || w[p] == ID_ONE_MINUS_ZBAR)
    &&& forall|i: int| 0 <= i < w.len() && i != p ==> (#[trigger] w[i] == ID_Z || w[i] == ID_ZBAR)
}

/// The coefficient that the letter at `p` gives: after `1-z`, `+1` when
/// exactly `L` of the later letters are `z` and `-1` when `L - 1` are; after
/// `1-zbar`, `-1` when exactly `L` of the later letters are `zbar` and `+1`
/// when `L - 1` are.
pub open spec fn special_value(loop_value: int, w: Seq<usize>, p: int) -> int {
    if w[p] == ID_ONE_MINUS_Z {
        let c = letter_count(w, p + 1, w.len() as int, ID_Z);
        (if c == loop_value {
            1int
        } else {
            0int
        }) - (if c == loop_value - 1 {
            1int
        } else {
            0int
        })
    } else {
        let c = letter_count(w, p + 1, w.len() as int, ID_ZBAR);
        (if c == loop_value - 1 {
            1int
        } else {
            0int
        }) - (if c == loop_value {
            1int
        } else {
            0int
        })
    }
}

/// The coefficient of the word `w` in the ladder symbol of loop order `L`:
/// its words hold one letter `1-z` or `1-zbar`, at one of the positions
/// `0..=L`, and `z` or `zbar` everywhere else; any other word has
/// coefficient 0.
pub open spec fn ladder_coefficient(loop_value: int, w: Seq<usize>) -> int {
    if exists|p: int| 0 <= p <= loop_value && #[trigger] sole_special(w, p) {
        special_value(loop_value, w, choose|p: int| 0 <= p <= loop_value && #[trigger] sole_special(w, p))
    } else {
        0
    }
}

proof fn lemma_count_fixed_letters(w: Seq<usize>, f: Seq<Option<usize>>, lo: int, hi: int, x: usize)
    requires
        0 <= lo,
        hi <= w.len(),
        f.len() == w.len(),
        forall|i: int| 0 <= i < w.len() ==> #[trigger] f[i] == Some(w[i]),
    ensures
        count_fixed(f, lo, hi, Some(x)) == letter_count(w, lo, hi, x),
        count_fixed(f, lo, hi, None) == 0,
    decreases hi - lo,
{
    if hi > lo {
        lemma_count_fixed_letters(w, f, lo, hi - 1, x);
    }
}

proof fn lemma_letter_count_sum(w: Seq<usize>, lo: int, hi: int)
    requires
        0 <= lo <= hi <= w.len(),
        forall|i: int| lo <= i < hi ==> (#[trigger] w[i] == ID_Z || w[i] == ID_ZBAR),
    ensures
        letter_count(w, lo, hi, ID_Z) + letter_count(w, lo, hi, ID_ZBAR) == hi - lo,
        0 <= letter_count(w, lo, hi, ID_Z),
        0 <= letter_count(w, lo, hi, ID_ZBAR),
    decreases hi - lo,
{
    if hi > lo {
        lemma_letter_count_sum(w, lo, hi - 1);
    }
}

/// With every letter fixed, the count at a position is the coefficient that a
/// sole special letter there gives, and 0 anywhere else.
proof fn lemma_position_fixed(loop_value: int, w: Seq<usize>, f: Seq<Option<usize>>, s: usize, p: int)
    requires
        loop_value >= 0,
        w.len() == 2 * loop_value,
        f.len() == w.len(),
        forall|i: int| 0 <= i < w.len() ==> #[trigger] f[i] == Some(w[i]),
        forall|i: int| 0 <= i < w.len() ==> #[trigger] w[i] < NUM_LETTERS,
        s == ID_ONE_MINUS_Z || s == ID_ONE_MINUS_ZBAR,
        0 <= p,
    ensures
        position_count(loop_value, w.len() as int, f, s, p) == if p < w.len() && w[p] == s && sole_special(w, p) {
            special_value(loop_value, w, p)
        } else {
            0
        },
{
    let n = w.len() as int;
    if p < n && w[p] == s {
        if sole_special(w, p) {
            assert(!special_conflict(f, p)) by {
                if special_conflict(f, p) {
                    let idx = choose|idx: int| 0 <= idx < f.len() && idx != p && (#[trigger] f[idx] matches Some(id) && id >= ID_ONE_MINUS_Z);
                    assert(f[idx] == Some(w[idx]));
                }
            }
            let m = n - p - 1;
            lemma_count_fixed_letters(w, f, p + 1, n, ID_Z);
            lemma_count_fixed_letters(w, f, p + 1, n, ID_ZBAR);
            lemma_count_fixed_letters(w, f, 0, p, ID_Z);
            lemma_letter_count_sum(w, p + 1, n);
            let fz = letter_count(w, p + 1, n, ID_Z);
            let fzb = letter_count(w, p + 1, n, ID_ZBAR);
            assert(count_fixed(f, p + 1, n, Some(ID_Z)) as int == fz);
            assert(count_fixed(f, p + 1, n, Some(ID_ZBAR)) as int == fzb);
            assert(count_fixed(f, 0, p, None) as int == 0);
            assert(fz + fzb == m);
            assert(pow(2, 0) == 1);
            assert(binom(0, 0) == 1);
            let (z1, s1, z2, s2) = z_cases_spec(loop_value, m, s);
            assert(case_count(z1, s1, m, fz, 0, 0) == if z1 == fz {
                s1
            } else {
                0
            });
            assert(case_count(z2, s2, m, fz, 0, 0) == if z2 == fz {
                s2
            } else {
                0
            });
        } else {
            assert(special_conflict(f, p)) by {
                let i = choose|i: int| 0 <= i < w.len() && i != p && !(#[trigger] w[i] == ID_Z || w[i] == ID_ZBAR);
                assert(f[i] == Some(w[i]));
                assert(w[i] >= ID_ONE_MINUS_Z);
            }
        }
    } else if p < n {
        assert(f[p] == Some(w[p]));
    }
}

/// The counts of the positions below `upto` add up to the coefficient of the
/// sole special letter `s` below `upto`, if there is one.
proof fn lemma_special_fixed(loop_value: int, w: Seq<usize>, f: Seq<Option<usize>>, s: usize, upto: int)
    requires
        loop_value >= 0,
        w.len() == 2 * loop_value,
        f.len() == w.len(),
        forall|i: int| 0 <= i < w.len() ==> #[trigger] f[i] == Some(w[i]),
        forall|i: int| 0 <= i < w.len() ==> #[trigger] w[i] < NUM_LETTERS,
        s == ID_ONE_MINUS_Z || s == ID_ONE_MINUS_ZBAR,
        0 <= upto,
    ensures
        special_count(loop_value, w.len() as int, f, s, upto) == if exists|q: int|
            0 <= q < upto && w[q] == s && #[trigger] sole_special(w, q) {
            special_value(loop_value, w, choose|q: int| 0 <= q < upto && w[q] == s && #[trigger] sole_special(w, q))
        } else {
            0
        },
    decreases upto,
{
    if upto > 0 {
        lemma_special_fixed(loop_value, w, f, s, upto - 1);
        lemma_position_fixed(loop_value, w, f, s, upto - 1);
        let p = upto - 1;
        if exists|q: int| 0 <= q < upto && w[q] == s && #[trigger] sole_special(w, q) {
            let q = choose|q: int| 0 <= q < upto && w[q] == s && #[trigger] sole_special(w, q);
            if q == p {
                assert(!exists|q2: int| 0 <= q2 < p && w[q2] == s && #[trigger] sole_special(w, q2)) by {
                    if exists|q2: int| 0 <= q2 < p && w[q2] == s && #[trigger] sole_special(w, q2) {
                        let q2 = choose|q2: int| 0 <= q2 < p && w[q2] == s && #[trigger] sole_special(w, q2);
                        assert(w[q2] == ID_Z || w[q2] == ID_ZBAR);
                    }
                }
            } else {
                assert(sole_special(w, q));
                assert(exists|q2: int| 0 <= q2 < p && w[q2] == s && #[trigger] sole_special(w, q2));
                let q2 = choose|q2: int| 0 <= q2 < p && w[q2] == s && #[trigger] sole_special(w, q2);
                assert(q2 == q) by {
                    if q2 != q {
                        assert(w[q2] == ID_Z || w[q2] == ID_ZBAR);
                    }
                }
                if p < w.len() && w[p] == s && sole_special(w, p) {
                    assert(w[q] == ID_Z || w[q] == ID_ZBAR);
                }
            }
        } else {
            assert(!(p < w.len() && w[p] == s && sole_special(w, p)));
            assert(!exists|q2: int| 0 <= q2 < p && w[q2] == s && #[trigger] sole_special(w, q2)) by {
                if exists|q2: int| 0 <= q2 < p && w[q2] == s && #[trigger] sole_special(w, q2) {
                    let q2 = choose|q2: int| 0 <= q2 < p && w[q2] == s && #[trigger] sole_special(w, q2);
                    assert(0 <= q2 < upto && w[q2] == s && sole_special(w, q2));
                }
            }
        }
    }
}

/// The marginal count of a whole word of length `2L`, however it is split
/// into a prefix and a suffix, is the coefficient of that word in the ladder
/// symbol of loop order `L`: the closed form counts each ladder word with its
/// sign.
pub proof fn law_marginal_of_word(loop_value: int, w: Seq<usize>, k: int)
    requires
        loop_value >= 0,
        w.len() == 2 * loop_value,
        0 <= k <= w.len(),
        forall|i: int| 0 <= i < w.len() ==> #[trigger] w[i] < NUM_LETTERS,
    ensures
        marginal_count_spec(loop_value, w.subrange(0, k), w.subrange(k, w.len() as int)) == ladder_coefficient(loop_value, w),
{
    let n = 2 * loop_value;
    let prefix = w.subrange(0, k);
    let suffix = w.subrange(k, w.len() as int);
    assert(!overlap_conflict(prefix, suffix, n));
    let f = fixed_seq(prefix, suffix, n);
    assert forall|i: int| 0 <= i < w.len() implies #[trigger] f[i] == Some(w[i]) by {
        if i < k {
            assert(prefix[i] == w[i]);
        } else {
            assert(suffix[i - k] == w[i]);
        }
    }
    lemma_special_fixed(loop_value, w, f, ID_ONE_MINUS_Z, loop_value + 1);
    lemma_special_fixed(loop_value, w, f, ID_ONE_MINUS_ZBAR, loop_value + 1);
    if exists|p: int| 0 <= p <= loop_value && #[trigger] sole_special(w, p) {
        let p = choose|p: int| 0 <= p <= loop_value && #[trigger] sole_special(w, p);
        if w[p] == ID_ONE_MINUS_Z {
            assert(exists|q: int| 0 <= q < loop_value + 1 && w[q] == ID_ONE_MINUS_Z && #[trigger] sole_special(w, q));
            let q = choose|q: int| 0 <= q < loop_value + 1 && w[q] == ID_ONE_MINUS_Z && #[trigger] sole_special(w, q);
            assert(q == p) by {
                if q != p {
                    assert(w[q] == ID_Z || w[q] == ID_ZBAR);
                }
            }
            assert(!exists|q: int| 0 <= q < loop_value + 1 && w[q] == ID_ONE_MINUS_ZBAR && #[trigger] sole_special(w, q)) by {
                if exists|q: int| 0 <= q < loop_value + 1 && w[q] == ID_ONE_MINUS_ZBAR && #[trigger] sole_special(w, q) {
                    let q = choose|q: int| 0 <= q < loop_value + 1 && w[q] == ID_ONE_MINUS_ZBAR && #[trigger] sole_special(w, q);
                    assert(q != p);
                    assert(w[q] == ID_Z || w[q] == ID_ZBAR);
                }
            }
        } else {
            assert(exists|q: int| 0 <= q < loop_value + 1 && w[q] == ID_ONE_MINUS_ZBAR && #[trigger] sole_special(w, q));
            let q = choose|q: int| 0 <= q < loop_value + 1 && w[q] == ID_ONE_MINUS_ZBAR && #[trigger] sole_special(w, q);
            assert(q == p) by {
                if q != p {
                    assert(w[q] == ID_Z || w[q] == ID_ZBAR);
                }
            }
            assert(!exists|q: int| 0 <= q < loop_value + 1 && w[q] == ID_ONE_MINUS_Z && #[trigger] sole_special(w, q)) by {
                if exists|q: int| 0 <= q < loop_value + 1 && w[q] == ID_ONE_MINUS_Z && #[trigger] sole_special(w, q) {
                    let q = choose|q: int| 0 <= q < loop_value + 1 && w[q] == ID_ONE_MINUS_Z && #[trigger] sole_special(w, q);
                    assert(q != p);
                    assert(w[q] == ID_Z || w[q] == ID_ZBAR);
                }
            }
        }
    } else {
        assert(!exists|q: int| 0 <= q < loop_value + 1 && w[q] == ID_ONE_MINUS_Z && #[trigger] sole_special(w, q));
        assert(!exists|q: int| 0 <= q < loop_value + 1 && w[q] == ID_ONE_MINUS_ZBAR && #[trigger] sole_special(w, q));
    }
}

/// The word `1-z` followed by `2L - 1` letters, the first `L` of them `z`
/// and the rest `zbar`, has coefficient `+1` for every loop order `L >= 1`,
/// and so has the marginal count that fixes it whole.
pub proof fn law_leading_one_minus_z(loop_value: int)
    requires
        loop_value >= 1,
    ensures
        ({
            let w = Seq::new((2 * loop_value) as nat, |i: int| if i == 0 {
                ID_ONE_MINUS_Z
            } else if i <= loop_value {
                ID_Z
            } else {
                ID_ZBAR
            });
            &&& ladder_coefficient(loop_value, w) == 1
            &&& marginal_count_spec(loop_value, w, Seq::empty()) == 1
        }),
{
    let n = 2 * loop_value;
    let w = Seq::new(n as nat, |i: int| if i == 0 {
        ID_ONE_MINUS_Z
    } else if i <= loop_value {
        ID_Z
    } else {
        ID_ZBAR
    });
    assert(sole_special(w, 0));
    assert forall|p: int| 0 <= p <= loop_value && #[trigger] sole_special(w, p) implies p == 0 by {
        if p != 0 {
            assert(w[0] == ID_Z || w[0] == ID_ZBAR);
        }
    }
    lemma_letter_count_prefix_z(w, loop_value, n);
    assert(letter_count(w, 1, n, ID_Z) == loop_value);
    law_marginal_of_word(loop_value, w, n);
    assert(w.subrange(0, n) =~= w);
    assert(w.subrange(n, n) =~= Seq::<usize>::empty());
}

/// In that word, the letters `1..hi` hold `min(hi, L + 1) - 1` letters `z`.
proof fn lemma_letter_count_prefix_z(w: Seq<usize>, loop_value: int, hi: int)
    requires
        loop_value >= 1,
        1 <= hi <= 2 * loop_value,
        w.len() == 2 * loop_value,
        forall|i: int| 0 <= i < w.len() ==> #[trigger] w[i] == if i == 0 {
            ID_ONE_MINUS_Z
        } else if i <= loop_value {
            ID_Z
        } else {
            ID_ZBAR
        },
    ensures
        letter_count(w, 1, hi, ID_Z) == if hi <= loop_value + 1 {
            hi - 1
        } else {
            loop_value
        },
    decreases hi,
{
    if hi > 1 {
        lemma_letter_count_prefix_z(w, loop_value, hi - 1);
    }
}

/// Fixing one more position changes each count by that position alone.
proof fn lemma_count_update(f: Seq<Option<usize>>, lo: int, hi: int, v: Option<usize>, j: int, w: Option<usize>)
    requires
        0 <= lo,
        hi <= f.len(),
        0 <= j < f.len(),
    ensures
        count_fixed(f.update(j, w), lo, hi, v) as int == count_fixed(f, lo, hi, v) as int - (if lo <= j < hi && f[j] == v {
            1int
        } else {
            0int
        }) + (if lo <= j < hi && w == v {
            1int
        } else {
            0int
        }),
    decreases hi - lo,
{
    if hi > lo {
        lemma_count_update(f, lo, hi - 1, v, j, w);
    }
}

/// A count with twice the free prefix positions is twice the count.
proof fn lemma_case_double(zr: int, sign: int, m: int, fz: int, fs: int, fp: int)
    requires
        fp >= 1,
        fs >= 0,
    ensures
        case_count(zr, sign, m, fz, fs, fp) == 2 * case_count(zr, sign, m, fz, fs, fp - 1),
{
    if !(zr < 0 || zr > m || zr < fz || zr - fz > fs) {
        let a = pow(2, (fp - 1) as nat);
        assert(pow(2, fp as nat) == 2 * a);
        let b = binom(fs as nat, (zr - fz) as nat) as int;
        assert(sign * (2 * a) * b == 2 * (sign * a * b)) by (nonlinear_arith);
    }
}

/// Pascal's rule on one free suffix position: it holds `z` or `zbar`.
proof fn lemma_case_pascal(zr: int, sign: int, m: int, fz: int, fs: int, fp: int)
    requires
        fs >= 1,
        fz >= 0,
        fp >= 0,
    ensures
        case_count(zr, sign, m, fz, fs, fp) == case_count(zr, sign, m, fz + 1, fs - 1, fp) + case_count(zr, sign, m, fz, fs - 1, fp),
{
    let t = zr - fz;
    let a = pow(2, fp as nat);
    if !(zr < 0 || zr > m || t < 0 || t > fs) {
        if t == 0 {
            assert(binom(fs as nat, 0) == 1);
            assert(binom((fs - 1) as nat, 0) == 1);
        } else if t == fs {
            assert(binom(fs as nat, fs as nat) == 1);
            assert(binom((fs - 1) as nat, (fs - 1) as nat) == 1);
        } else {
            assert(binom(fs as nat, t as nat) == binom((fs - 1) as nat, (t - 1) as nat) + binom((fs - 1) as nat, t as nat));
        }
        let (b, b1, b2) = (binom(fs as nat, t as nat) as int, binom((fs - 1) as nat, (t - 1) as nat) as int, binom((fs - 1) as nat, t as nat) as int);
        let c1 = if t >= 1 { sign * a * b1 } else { 0 };
        let c2 = if t <= fs - 1 { sign * a * b2 } else { 0 };
        assert(b == (if t >= 1 { b1 } else { 0 }) + (if t <= fs - 1 { b2 } else { 0 }));
        assert(sign * a * b == c1 + c2) by (nonlinear_arith)
            requires
                b == (if t >= 1 { b1 } else { 0 }) + (if t <= fs - 1 { b2 } else { 0 }),
                c1 == if t >= 1 { sign * a * b1 } else { 0 },
                c2 == if t <= fs - 1 { sign * a * b2 } else { 0 },
        ;
    }
}

/// The special letter's own position, fixed to each letter: only the
/// special letter itself keeps the count.
proof fn lemma_position_at_free(loop_value: int, f: Seq<Option<usize>>, j: int, s: usize, x: usize)
    requires
        loop_value >= 0,
        f.len() == 2 * loop_value,
        0 <= j < f.len(),
        f[j] is None,
        s == ID_ONE_MINUS_Z || s == ID_ONE_MINUS_ZBAR,
    ensures
        position_count(loop_value, f.len() as int, f.update(j, Some(x)), s, j) == if x == s {
            position_count(loop_value, f.len() as int, f, s, j)
        } else {
            0
        },
{
    let n = f.len() as int;
    let g = f.update(j, Some(x));
    assert(g[j] == Some(x));
    if x == s {
        assert(special_conflict(g, j) == special_conflict(f, j)) by {
            if special_conflict(g, j) {
                let idx = choose|idx: int| 0 <= idx < g.len() && idx != j && (#[trigger] g[idx] matches Some(id) && id >= ID_ONE_MINUS_Z);
                assert(g[idx] == f[idx]);
            }
            if special_conflict(f, j) {
                let idx = choose|idx: int| 0 <= idx < f.len() && idx != j && (#[trigger] f[idx] matches Some(id) && id >= ID_ONE_MINUS_Z);
                assert(g[idx] == f[idx]);
            }
        }
        lemma_count_update(f, j + 1, n, Some(ID_Z), j, Some(x));
        lemma_count_update(f, j + 1, n, Some(ID_ZBAR), j, Some(x));
        lemma_count_update(f, 0, j, None, j, Some(x));
    }
}

/// A position that another fixed letter or another special letter rules out
/// counts nothing, whatever the free position holds.
proof fn lemma_position_blocked(loop_value: int, f: Seq<Option<usize>>, j: int, s: usize, p: int, x: usize)
    requires
        loop_value >= 0,
        f.len() == 2 * loop_value,
        0 <= j < f.len(),
        f[j] is None,
        0 <= p < f.len(),
        p != j,
        (f[p] matches Some(id) && id != s) || special_conflict(f, p),
    ensures
        position_count(loop_value, f.len() as int, f.update(j, Some(x)), s, p) == 0,
        position_count(loop_value, f.len() as int, f, s, p) == 0,
{
    let g = f.update(j, Some(x));
    assert(g[p] == f[p]);
    if special_conflict(f, p) {
        let idx = choose|idx: int| 0 <= idx < f.len() && idx != p && (#[trigger] f[idx] matches Some(id) && id >= ID_ONE_MINUS_Z);
        assert(g[idx] == f[idx]);
        assert(special_conflict(g, p));
    }
}

/// Fixing the free position `j` (away from `p`) to `z` or `zbar` keeps the
/// position open and splits its count; to a special letter it rules it out.
proof fn lemma_position_open(loop_value: int, f: Seq<Option<usize>>, j: int, s: usize, p: int)
    requires
        loop_value >= 0,
        f.len() == 2 * loop_value,
        0 <= j < f.len(),
        f[j] is None,
        forall|i: int| 0 <= i < f.len() ==> (#[trigger] f[i] matches Some(id) ==> id < NUM_LETTERS),
        s == ID_ONE_MINUS_Z || s == ID_ONE_MINUS_ZBAR,
        0 <= p < f.len(),
        p != j,
        !(f[p] matches Some(id) && id != s),
        !special_conflict(f, p),
    ensures
        position_count(loop_value, f.len() as int, f, s, p) == position_count(loop_value, f.len() as int, f.update(j, Some(ID_Z)), s, p)
            + position_count(loop_value, f.len() as int, f.update(j, Some(ID_ZBAR)), s, p),
        position_count(loop_value, f.len() as int, f.update(j, Some(ID_ONE_MINUS_Z)), s, p) == 0,
        position_count(loop_value, f.len() as int, f.update(j, Some(ID_ONE_MINUS_ZBAR)), s, p) == 0,
{
    let n = f.len() as int;
    let m = n - p - 1;
    let f0 = f.update(j, Some(ID_Z));
    let f1 = f.update(j, Some(ID_ZBAR));
    let f2 = f.update(j, Some(ID_ONE_MINUS_Z));
    let f3 = f.update(j, Some(ID_ONE_MINUS_ZBAR));
    assert(f0[p] == f[p] && f1[p] == f[p] && f2[p] == f[p] && f3[p] == f[p]);
    assert(f2[j] == Some(ID_ONE_MINUS_Z) && f3[j] == Some(ID_ONE_MINUS_ZBAR));
    assert(special_conflict(f2, p));
    assert(special_conflict(f3, p));
    assert(!special_conflict(f0, p)) by {
        if special_conflict(f0, p) {
            let idx = choose|idx: int| 0 <= idx < f0.len() && idx != p && (#[trigger] f0[idx] matches Some(id) && id >= ID_ONE_MINUS_Z);
            if idx != j {
                assert(f0[idx] == f[idx]);
            }
        }
    }
    assert(!special_conflict(f1, p)) by {
        if special_conflict(f1, p) {
            let idx = choose|idx: int| 0 <= idx < f1.len() && idx != p && (#[trigger] f1[idx] matches Some(id) && id >= ID_ONE_MINUS_Z);
            if idx != j {
                assert(f1[idx] == f[idx]);
            }
        }
    }
    let fz = count_fixed(f, p + 1, n, Some(ID_Z)) as int;
    let fzb = count_fixed(f, p + 1, n, Some(ID_ZBAR)) as int;
    let fp = count_fixed(f, 0, p, None) as int;
    let fs = m - fz - fzb;
    assert forall|t: int| p + 1 <= t < n implies (#[trigger] f[t]) is None || f[t] == Some(ID_Z) || f[t] == Some(ID_ZBAR) by {
        if let Some(id) = f[t] {
            if id >= ID_ONE_MINUS_Z {
                assert(special_conflict(f, p));
            }
        }
    }
    crate::ladder::lemma_count_fixed_sum(f, p + 1, n);
    lemma_count_update(f, p + 1, n, Some(ID_Z), j, Some(ID_Z));
    lemma_count_update(f, p + 1, n, Some(ID_ZBAR), j, Some(ID_Z));
    lemma_count_update(f, 0, p, None, j, Some(ID_Z));
    lemma_count_update(f, p + 1, n, Some(ID_Z), j, Some(ID_ZBAR));
    lemma_count_update(f, p + 1, n, Some(ID_ZBAR), j, Some(ID_ZBAR));
    lemma_count_update(f, 0, p, None, j, Some(ID_ZBAR));
    let (z1, s1, z2, s2) = z_cases_spec(loop_value, m, s);
    if j < p {
        assert(fp >= 1);
        assert(count_fixed(f0, 0, p, None) as int == fp - 1);
        assert(count_fixed(f1, 0, p, None) as int == fp - 1);
        lemma_case_double(z1, s1, m, fz, fs, fp);
        lemma_case_double(z2, s2, m, fz, fs, fp);
    } else {
        lemma_count_update(f, p + 1, n, None, j, Some(ID_Z));
        assert(count_fixed(f, p + 1, n, None) >= 1);
        assert(fs >= 1);
        assert(count_fixed(f0, p + 1, n, Some(ID_Z)) as int == fz + 1);
        assert(count_fixed(f0, p + 1, n, Some(ID_ZBAR)) as int == fzb);
        assert(count_fixed(f1, p + 1, n, Some(ID_Z)) as int == fz);
        assert(count_fixed(f1, p + 1, n, Some(ID_ZBAR)) as int == fzb + 1);
        lemma_case_pascal(z1, s1, m, fz, fs, fp);
        lemma_case_pascal(z2, s2, m, fz, fs, fp);
    }
}

/// The four letters a free position can take split the count of one
/// position of the special letter.
proof fn lemma_position_extend(loop_value: int, f: Seq<Option<usize>>, j: int, s: usize, p: int)
    requires
        loop_value >= 0,
        f.len() == 2 * loop_value,
        0 <= j < f.len(),
        f[j] is None,
        forall|i: int| 0 <= i < f.len() ==> (#[trigger] f[i] matches Some(id) ==> id < NUM_LETTERS),
        s == ID_ONE_MINUS_Z || s == ID_ONE_MINUS_ZBAR,
        0 <= p,
    ensures
        position_count(loop_value, f.len() as int, f, s, p) == position_count(loop_value, f.len() as int, f.update(j, Some(ID_Z)), s, p)
            + position_count(loop_value, f.len() as int, f.update(j, Some(ID_ZBAR)), s, p) + position_count(
            loop_value,
            f.len() as int,
            f.update(j, Some(ID_ONE_MINUS_Z)),
            s,
            p,
        ) + position_count(loop_value, f.len() as int, f.update(j, Some(ID_ONE_MINUS_ZBAR)), s, p),
{
    if p >= f.len() {
    } else if p == j {
        lemma_position_at_free(loop_value, f, j, s, ID_Z);
        lemma_position_at_free(loop_value, f, j, s, ID_ZBAR);
        lemma_position_at_free(loop_value, f, j, s, ID_ONE_MINUS_Z);
        lemma_position_at_free(loop_value, f, j, s, ID_ONE_MINUS_ZBAR);
    } else if (f[p] matches Some(id) && id != s) || special_conflict(f, p) {
        lemma_position_blocked(loop_value, f, j, s, p, ID_Z);
        lemma_position_blocked(loop_value, f, j, s, p, ID_ZBAR);
        lemma_position_blocked(loop_value, f, j, s, p, ID_ONE_MINUS_Z);
        lemma_position_blocked(loop_value, f, j, s, p, ID_ONE_MINUS_ZBAR);
    } else {
        lemma_position_open(loop_value, f, j, s, p);
    }
}

/// The same split, summed over the positions `0..upto` of the special letter.
proof fn lemma_special_extend(loop_value: int, f: Seq<Option<usize>>, j: int, s: usize, upto: int)
    requires
        loop_value >= 0,
        f.len() == 2 * loop_value,
        0 <= j < f.len(),
        f[j] is None,
        forall|i: int| 0 <= i < f.len() ==> (#[trigger] f[i] matches Some(id) ==> id < NUM_LETTERS),
        s == ID_ONE_MINUS_Z || s == ID_ONE_MINUS_ZBAR,
        0 <= upto,
    ensures
        special_count(loop_value, f.len() as int, f, s, upto) == special_count(loop_value, f.len() as int, f.update(j, Some(ID_Z)), s, upto)
            + special_count(loop_value, f.len() as int, f.update(j, Some(ID_ZBAR)), s, upto) + special_count(
            loop_value,
            f.len() as int,
            f.update(j, Some(ID_ONE_MINUS_Z)),
            s,
            upto,
        ) + special_count(loop_value, f.len() as int, f.update(j, Some(ID_ONE_MINUS_ZBAR)), s, upto),
    decreases upto,
{
    if upto > 0 {
        lemma_special_extend(loop_value, f, j, s, upto - 1);
        lemma_position_extend(loop_value, f, j, s, upto - 1);
    }
}

/// A marginal count is the sum of the four counts that fix one more letter
/// after the prefix: the closed form splits over the letters of every free
/// position, as a sum of coefficients over the words that agree with the
/// prefix and the suffix does. With [`law_marginal_of_word`] this makes every
/// marginal count the signed sum of the coefficients of the ladder words of
/// length `2L` that start with the prefix and end with the suffix.
pub proof fn law_marginal_extend(loop_value: int, prefix: Seq<usize>, suffix: Seq<usize>)
    requires
        loop_value >= 0,
        prefix.len() + suffix.len() < 2 * loop_value,
        forall|i: int| 0 <= i < prefix.len() ==> #[trigger] prefix[i] < NUM_LETTERS,
        forall|i: int| 0 <= i < suffix.len() ==> #[trigger] suffix[i] < NUM_LETTERS,
    ensures
        marginal_count_spec(loop_value, prefix, suffix) == marginal_count_spec(loop_value, prefix.push(ID_Z), suffix)
            + marginal_count_spec(loop_value, prefix.push(ID_ZBAR), suffix) + marginal_count_spec(
            loop_value,
            prefix.push(ID_ONE_MINUS_Z),
            suffix,
        ) + marginal_count_spec(loop_value, prefix.push(ID_ONE_MINUS_ZBAR), suffix),
{
    let n = 2 * loop_value;
    let j = prefix.len() as int;
    let f = fixed_seq(prefix, suffix, n);
    assert(!overlap_conflict(prefix, suffix, n));
    assert forall|i: int| 0 <= i < f.len() implies (#[trigger] f[i] matches Some(id) ==> id < NUM_LETTERS) by {
        if i < prefix.len() {
            assert(f[i] == Some(prefix[i]));
        } else if n - suffix.len() <= i {
            assert(f[i] == Some(suffix[i - (n - suffix.len())]));
        }
    }
    assert(f[j] is None);
    let xs = seq![ID_Z, ID_ZBAR, ID_ONE_MINUS_Z, ID_ONE_MINUS_ZBAR];
    assert forall|q: int| 0 <= q < 4 implies #[trigger] fixed_seq(prefix.push(xs[q]), suffix, n) =~= f.update(j, Some(xs[q]))
        && !overlap_conflict(prefix.push(xs[q]), suffix, n) by {
        let pp = prefix.push(xs[q]);
        assert forall|pos: int| 0 <= pos < n implies #[trigger] fixed_seq(pp, suffix, n)[pos] == f.update(j, Some(xs[q]))[pos] by {
            if pos < j {
                assert(pp[pos] == prefix[pos]);
            }
        }
    }
    assert(fixed_seq(prefix.push(xs[0]), suffix, n) =~= f.update(j, Some(ID_Z)));
    assert(fixed_seq(prefix.push(xs[1]), suffix, n) =~= f.update(j, Some(ID_ZBAR)));
    assert(fixed_seq(prefix.push(xs[2]), suffix, n) =~= f.update(j, Some(ID_ONE_MINUS_Z)));
    assert(fixed_seq(prefix.push(xs[3]), suffix, n) =~= f.update(j, Some(ID_ONE_MINUS_ZBAR)));
    assert(!overlap_conflict(prefix.push(xs[0]), suffix, n));
    assert(!overlap_conflict(prefix.push(xs[1]), suffix, n));
    assert(!overlap_conflict(prefix.push(xs[2]), suffix, n));
    assert(!overlap_conflict(prefix.push(xs[3]), suffix, n));
    lemma_special_extend(loop_value, f, j, ID_ONE_MINUS_Z, loop_value + 1);
    lemma_special_extend(loop_value, f, j, ID_ONE_MINUS_ZBAR, loop_value + 1);
}

} // verus!
