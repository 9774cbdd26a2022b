//! Linear dependencies among the marginal observables of the symbols:
//! supports, bases modulo a prime, and sparse relations.
use crate::error::ExperimentError;
use crate::kze2::linalg::swap_entries;
use crate::hankel_subblock::{is_permutation_of, solve_linear_system_mod_p};
use crate::linear_mod::{inverses_ok, ints, row_dot, solves};
use crate::output::{csv_record, csv_record_text};
use crate::rank_scan::rank::{mod_i64, prime_ok, rectangular, reduced_matrix, MAX_PRIME};
use crate::rank_scan::Rational;
use crate::text::{
    decimal_digits, i64_to_text, index_of, int_text, push_char, split_on, split_once, split_spec, str_eq, str_less,
    str_lt, strings_view, trim, trim_spec, u64_to_text,
};
use vstd::prelude::*;
use vstd::string::StrSliceExecFns;

verus! {

/// Which families of observables a run looks at.
#[derive(Clone, Copy, Debug, PartialEq, Eq, Structural)]
pub enum SpanFamilyFilter {
    All,
    Prefix,
    Suffix,
    PrefixSuffix,
}

/// The name of a family filter.
pub open spec fn filter_name(f: SpanFamilyFilter) -> Seq<char> {
    match f {
        SpanFamilyFilter::All => "all"@,
        SpanFamilyFilter::Prefix => "prefix"@,
        SpanFamilyFilter::Suffix => "suffix"@,
        SpanFamilyFilter::PrefixSuffix => "prefix-suffix"@,
    }
}

impl SpanFamilyFilter {
    pub fn as_str(self) -> (r: &'static str)
        ensures
            r@ == filter_name(self),
    {
        match self {
            Self::All => "all",
            Self::Prefix => "prefix",
            Self::Suffix => "suffix",
            Self::PrefixSuffix => "prefix-suffix",
        }
    }

    /// Whether observables of `family` pass the filter.
    pub fn matches(self, family: &str) -> (r: bool)
        ensures
            r == (self == SpanFamilyFilter::All || family@ == filter_name(self)),
    {
        match self {
            Self::All => true,
            Self::Prefix => str_eq(family, "prefix"),
            Self::Suffix => str_eq(family, "suffix"),
            Self::PrefixSuffix => str_eq(family, "prefix-suffix"),
        }
    }
}

/// The coefficients a sparse relation may use.
#[derive(Clone, Copy, Debug, PartialEq, Eq, Structural)]
pub enum CoefSet {
    Pm1,
    Pm2,
}

/// The name of a coefficient set.
pub open spec fn coef_set_name(c: CoefSet) -> Seq<char> {
    match c {
        CoefSet::Pm1 => "pm1"@,
        CoefSet::Pm2 => "pm2"@,
    }
}

impl CoefSet {
    pub fn as_str(self) -> (r: &'static str)
        ensures
            r@ == coef_set_name(self),
    {
        match self {
            Self::Pm1 => "pm1",
            Self::Pm2 => "pm2",
        }
    }
}

/// Where the observables come from and what to look for among them.
#[derive(Clone, Debug)]
pub struct EsymbSpanDepsConfig {
    pub input: String,
    pub out_dir: String,
    pub family: SpanFamilyFilter,
    pub support_max: usize,
    pub coef_set: CoefSet,
    pub top_k: usize,
    pub export_forbidden: bool,
    pub export_equiv_classes: bool,
}

/// Counts and rank of one family of observables.
#[derive(Clone, Debug)]
pub struct SpanStats {
    pub family: String,
    pub total: usize,
    pub nonzero: usize,
    pub trivial: usize,
    pub rank: usize,
    pub nullity: usize,
}

/// A relation `sum c_i * id_i = 0` with small integer coefficients.
#[derive(Clone, Debug)]
pub struct SparseRelation {
    pub family: String,
    pub terms: Vec<(i32, String)>,
}

/// How a search for sparse relations went.
#[derive(Clone, Debug)]
pub struct SparseSearchStats {
    pub family: String,
    pub attempts: usize,
    pub hits_mod_p: usize,
    pub verified: usize,
}

/// One observable chosen for the basis of its family.
#[derive(Clone, Debug)]
pub struct BasisKey {
    pub family: String,
    pub key: String,
    pub index: usize,
}

/// An observable written in the basis of its family modulo `prime`.
#[derive(Clone, Debug)]
pub struct BasisExpansion {
    pub family: String,
    pub key: String,
    pub prime: i64,
    pub coeffs: Vec<i64>,
}

/// The loop orders at which an observable is nonzero, as a bit mask.
#[derive(Clone, Debug)]
pub struct SupportMaskRow {
    pub key: String,
    pub bitmask: u64,
    pub nnz: usize,
}

/// How many observables share a support mask.
#[derive(Clone, Copy, Debug)]
pub struct MaskHistogramRow {
    pub bitmask: u64,
    pub count: usize,
}

/// A prefix and a suffix that occur together in a nonzero observable.
#[derive(Clone, Debug)]
pub struct AllowedEdge {
    pub prefix: String,
    pub suffix: String,
}

/// The `u=` and `v=` settings of a params field from part `i` on: every part
/// must hold an `=`; later settings win.
pub open spec fn uv_scan(parts: Seq<Seq<char>>, i: int, u: Option<Seq<char>>, v: Option<Seq<char>>) -> Option<
    (Seq<char>, Seq<char>),
>
    decreases parts.len() - i,
{
    if i < 0 || i >= parts.len() {
        match (u, v) {
            (Some(u), Some(v)) => Some((u, v)),
            _ => None,
        }
    } else {
        let eq = index_of(parts[i], '=');
        if eq < 0 {
            None
        } else {
            let key = trim_spec(parts[i].subrange(0, eq));
            let value = trim_spec(parts[i].subrange(eq + 1, parts[i].len() as int));
            if key == seq!['u'] {
                uv_scan(parts, i + 1, Some(value), v)
            } else if key == seq!['v'] {
                uv_scan(parts, i + 1, u, Some(value))
            } else {
                uv_scan(parts, i + 1, u, v)
            }
        }
    }
}

spec fn opt_view(x: Option<String>) -> Option<Seq<char>> {
    match x {
        Some(s) => Some(s@),
        None => None,
    }
}

/// The prefix and suffix named in a `prefix-suffix` params field.
pub fn parse_prefix_suffix_params(params: &str) -> (r: Option<(String, String)>)
    ensures
        match uv_scan(split_spec(params@, ','), 0, None, None) {
            Some(t) => r matches Some(x) && x.0@ == t.0 && x.1@ == t.1,
            None => r is None,
        },
{
    let parts = split_on(params, ',');
    let ghost pv = strings_view(parts@);
    let mut prefix: Option<String> = None;
    let mut suffix: Option<String> = None;
    let mut i: usize = 0;
    while i < parts.len()
        invariant
            pv == strings_view(parts@),
            pv == split_spec(params@, ','),
            i <= parts@.len(),
            uv_scan(pv, i as int, opt_view(prefix), opt_view(suffix)) == uv_scan(pv, 0, None, None),
        decreases parts@.len() - i,
    {
        proof {
            assert(pv[i as int] == parts@[i as int]@);
            reveal_strlit("u");
            reveal_strlit("v");
            assert("u"@ =~= seq!['u']);
            assert("v"@ =~= seq!['v']);
        }
        match split_once(parts[i].as_str(), '=') {
            None => {
                return None;
            },
            Some((k, val)) => {
                let key = trim(k.as_str());
                let value = trim(val.as_str());
                if str_eq(key.as_str(), "u") {
                    prefix = Some(value);
                } else if str_eq(key.as_str(), "v") {
                    suffix = Some(value);
                }
            },
        }
        i += 1;
    }
    match (prefix, suffix) {
        (Some(u), Some(v)) => Some((u, v)),
        _ => None,
    }
}

/// `sum_{k < m} coeffs[k] * rows[k][col]`.
pub open spec fn comb_col(coeffs: Seq<i64>, rows: Seq<Vec<i64>>, col: int, m: int) -> int
    decreases m,
{
    if m <= 0 {
        0
    } else {
        comb_col(coeffs, rows, col, m - 1) + coeffs[m - 1] * rows[m - 1]@[col]
    }
}

/// Whether `sum_k coeffs[k] * basis_rows[k]` (over as many terms as both
/// lists have) equals `target` modulo `p`, entry by entry; with no basis rows,
/// whether `target` vanishes modulo `p`.
pub fn verify_expansion_mod_p(basis_rows: &[Vec<i64>], coeffs: &[i64], target: &[i64], p: i64) -> (r: bool)
    requires
        prime_ok(p as int),
        reduced_matrix(basis_rows@, p as int),
        forall|k: int| 0 <= k < coeffs@.len() ==> 0 <= #[trigger] coeffs@[k] < p,
        forall|k: int| 0 <= k < basis_rows@.len() ==> #[trigger] basis_rows@[k]@.len() >= target@.len(),
    ensures
        r == (forall|col: int|
            0 <= col < target@.len() ==> comb_col(
                coeffs@,
                basis_rows@,
                col,
                if coeffs@.len() < basis_rows@.len() {
                    coeffs@.len() as int
                } else {
                    basis_rows@.len() as int
                },
            ) % p as int == #[trigger] target@[col] as int % p as int),
{
    let m = if coeffs.len() < basis_rows.len() { coeffs.len() } else { basis_rows.len() };
    let ncols = target.len();
    let mut col: usize = 0;
    while col < ncols
        invariant
            prime_ok(p as int),
            reduced_matrix(basis_rows@, p as int),
            forall|k: int| 0 <= k < coeffs@.len() ==> 0 <= #[trigger] coeffs@[k] < p,
            forall|k: int| 0 <= k < basis_rows@.len() ==> #[trigger] basis_rows@[k]@.len() >= target@.len(),
            m <= coeffs@.len(),
            m <= basis_rows@.len(),
            m == coeffs@.len() || m == basis_rows@.len(),
            ncols == target@.len(),
            col <= ncols,
            forall|c: int| 0 <= c < col ==> comb_col(coeffs@, basis_rows@, c, m as int) % p as int == #[trigger] target@[c] as int
                % p as int,
        decreases ncols - col,
    {
        let mut sum: i64 = 0;
        let mut k: usize = 0;
        proof {
            crate::modular::lemma_small(0, p as int);
        }
        while k < m
            invariant
                prime_ok(p as int),
                reduced_matrix(basis_rows@, p as int),
                forall|t: int| 0 <= t < coeffs@.len() ==> 0 <= #[trigger] coeffs@[t] < p,
                forall|t: int| 0 <= t < basis_rows@.len() ==> #[trigger] basis_rows@[t]@.len() >= target@.len(),
                m <= coeffs@.len(),
                m <= basis_rows@.len(),
                col < target@.len(),
                k <= m,
                0 <= sum < p,
                sum as int == comb_col(coeffs@, basis_rows@, col as int, k as int) % p as int,
            decreases m - k,
        {
            let c = coeffs[k];
            let b = basis_rows[k][col];
            proof {
                assert(0 <= b < p);
                assert(c * b <= (MAX_PRIME - 1) * (MAX_PRIME - 1)) by (nonlinear_arith)
                    requires
                        0 <= c < MAX_PRIME,
                        0 <= b < MAX_PRIME,
                ;
                assert(0 <= c * b) by (nonlinear_arith)
                    requires
                        0 <= c,
                        0 <= b,
                ;
                crate::modular::lemma_mod_ops(comb_col(coeffs@, basis_rows@, col as int, k as int), c * b, p as int);
            }
            sum = mod_i64(sum + c * b, p);
            k += 1;
        }
        let t = mod_i64(target[col], p);
        proof {
            crate::modular::lemma_mod_ops(comb_col(coeffs@, basis_rows@, col as int, m as int), 0, p as int);
            crate::modular::lemma_small(sum as int, p as int);
        }
        if sum != t {
            return false;
        }
        col += 1;
    }
    true
}


/// The system `sum_k x_k * basis_rows[k][j] = target[j]` (for `j` below the
/// length of `target`) as a matrix: row `j` holds entry `j` of each basis row.
fn basis_system(basis_rows: &[Vec<i64>], nrows: usize) -> (r: Vec<Vec<i64>>)
    requires
        forall|k: int| 0 <= k < basis_rows@.len() ==> #[trigger] basis_rows@[k]@.len() >= nrows,
    ensures
        r@.len() == nrows,
        rectangular(r@, basis_rows@.len() as int),
        forall|j: int, k: int| 0 <= j < nrows && 0 <= k < basis_rows@.len() ==> #[trigger] r@[j]@[k] == basis_rows@[k]@[j],
{
    let mut out: Vec<Vec<i64>> = Vec::with_capacity(nrows);
    let mut j: usize = 0;
    while j < nrows
        invariant
            forall|k: int| 0 <= k < basis_rows@.len() ==> #[trigger] basis_rows@[k]@.len() >= nrows,
            j <= nrows,
            out@.len() == j,
            rectangular(out@, basis_rows@.len() as int),
            forall|t: int, k: int| 0 <= t < j && 0 <= k < basis_rows@.len() ==> #[trigger] out@[t]@[k] == basis_rows@[k]@[t],
        decreases nrows - j,
    {
        let mut row: Vec<i64> = Vec::with_capacity(basis_rows.len());
        let mut k: usize = 0;
        while k < basis_rows.len()
            invariant
                forall|q: int| 0 <= q < basis_rows@.len() ==> #[trigger] basis_rows@[q]@.len() >= nrows,
                j < nrows,
                k <= basis_rows@.len(),
                row@.len() == k,
                forall|q: int| 0 <= q < k ==> #[trigger] row@[q] == basis_rows@[q]@[j as int],
            decreases basis_rows@.len() - k,
        {
            row.push(basis_rows[k][j]);
            k += 1;
        }
        out.push(row);
        j += 1;
    }
    out
}

proof fn lemma_system_dot(basis_rows: Seq<Vec<i64>>, sys_row: Seq<i64>, x: Seq<i64>, j: int, m: int)
    requires
        0 <= m <= basis_rows.len(),
        m <= sys_row.len(),
        m <= x.len(),
        forall|k: int| 0 <= k < m ==> #[trigger] sys_row[k] == basis_rows[k]@[j],
    ensures
        row_dot(sys_row, ints(x), m) == comb_col(x, basis_rows, j, m),
    decreases m,
{
    if m > 0 {
        lemma_system_dot(basis_rows, sys_row, x, j, m - 1);
        assert(ints(x)[m - 1] == x[m - 1] as int);
        assert(sys_row[m - 1] * x[m - 1] == x[m - 1] * basis_rows[m - 1]@[j]) by (nonlinear_arith)
            requires
                sys_row[m - 1] == basis_rows[m - 1]@[j],
        ;
    }
}

/// Whether `sum_k x_k * basis_rows[k]` equals `target` modulo `p` at every
/// entry of `target`.
pub open spec fn expands_to(basis_rows: Seq<Vec<i64>>, x: Seq<i64>, target: Seq<i64>, p: int) -> bool {
    forall|j: int| 0 <= j < target.len() ==> #[trigger] comb_col(x, basis_rows, j, basis_rows.len() as int) % p == (target[j] as int) % p
}

/// Coefficients `x` with `sum_k x_k * basis_rows[k] = target` modulo `p`, by
/// Gauss-Jordan elimination (zero at free basis rows); the empty list for an
/// empty basis; `None` when elimination finds the system inconsistent. For a
/// prime `p` the coefficients returned do expand to `target`, and `None` means
/// that no coefficients do.
pub fn solve_coeffs_mod_p(basis_rows: &[Vec<i64>], target: &[i64], p: i64) -> (r: Option<Vec<i64>>)
    requires
        prime_ok(p as int),
        forall|k: int| 0 <= k < basis_rows@.len() ==> #[trigger] basis_rows@[k]@.len() >= target@.len(),
        basis_rows@.len() < usize::MAX,
    ensures
        basis_rows@.len() == 0 ==> (r matches Some(x) && x@.len() == 0),
        (basis_rows@.len() > 0 && target@.len() == 0) ==> (r matches Some(x) && x@.len() == basis_rows@.len() && forall|k: int|
            0 <= k < x@.len() ==> #[trigger] x@[k] == 0),
        r matches Some(x) ==> x@.len() == basis_rows@.len() && forall|k: int| 0 <= k < x@.len() ==> 0 <= #[trigger] x@[k] < p,
        (inverses_ok(p as int) && basis_rows@.len() > 0) ==> (r matches Some(x) ==> expands_to(basis_rows@, x@, target@, p as int)),
        (inverses_ok(p as int) && r is None) ==> forall|x: Seq<i64>|
            x.len() == basis_rows@.len() ==> !#[trigger] expands_to(basis_rows@, x, target@, p as int),
{
    if basis_rows.len() == 0 {
        return Some(Vec::new());
    }
    let ncols = basis_rows.len();
    if target.len() == 0 {
        let mut zeros: Vec<i64> = Vec::with_capacity(ncols);
        let mut k: usize = 0;
        while k < ncols
            invariant
                k <= ncols,
                zeros@.len() == k,
                forall|q: int| 0 <= q < k ==> #[trigger] zeros@[q] == 0,
            decreases ncols - k,
        {
            zeros.push(0);
            k += 1;
        }
        return Some(zeros);
    }
    let system = basis_system(basis_rows, target.len());
    proof {
        assert(system@[0]@.len() == ncols);
    }
    let r = solve_linear_system_mod_p(system.as_slice(), target, p);
    proof {
        let pi = p as int;
        let nb = ncols as int;
        assert forall|x: Seq<i64>| x.len() == nb implies #[trigger] expands_to(basis_rows@, x, target@, pi) == solves(system@, target@, ints(x), nb, pi) by {
            assert forall|j: int| 0 <= j < target@.len() implies #[trigger] row_dot(system@[j]@, ints(x), nb) == comb_col(x, basis_rows@, j, nb) by {
                lemma_system_dot(basis_rows@, system@[j]@, x, j, nb);
            }
            if expands_to(basis_rows@, x, target@, pi) {
                assert forall|j: int| 0 <= j < system@.len() implies #[trigger] row_dot(system@[j]@, ints(x), nb) % pi == (target@[j] as int) % pi by {
                    assert(comb_col(x, basis_rows@, j, nb) % pi == (target@[j] as int) % pi);
                }
            }
            if solves(system@, target@, ints(x), nb, pi) {
                assert forall|j: int| 0 <= j < target@.len() implies #[trigger] comb_col(x, basis_rows@, j, nb) % pi == (target@[j] as int) % pi by {
                    assert(row_dot(system@[j]@, ints(x), nb) % pi == (target@[j] as int) % pi);
                }
            }
        }
    }
    r
}

/// `sign * (a * left[i] + b * right[i])` modulo `p`, with `sign` -1 when `c`
/// is 1 and 1 otherwise, over as many entries as both lists have.
pub fn combine_target_mod(left: &[i64], right: &[i64], a: i32, b: i32, c: i32, p: i64) -> (r: Vec<i64>)
    requires
        p > 0,
        forall|i: int|
            0 <= i < left@.len() && i < right@.len() ==> i64::MIN < a * #[trigger] left@[i] + b * #[trigger] right@[i] <= i64::MAX
                && i64::MIN < a * left@[i] && a * left@[i] <= i64::MAX && i64::MIN <= b * right@[i] <= i64::MAX,
    ensures
        r@.len() == if left@.len() < right@.len() {
            left@.len()
        } else {
            right@.len()
        },
        forall|i: int| 0 <= i < r@.len() ==> #[trigger] r@[i] == ((if c == 1 {
            -1int
        } else {
            1int
        }) * (a * left@[i] + b * right@[i])) % p as int,
{
    let n = if left.len() < right.len() { left.len() } else { right.len() };
    let mut out: Vec<i64> = Vec::with_capacity(n);
    let a = a as i64;
    let b = b as i64;
    let mut i: usize = 0;
    while i < n
        invariant
            p > 0,
            n <= left@.len(),
            n <= right@.len(),
            forall|t: int|
                0 <= t < left@.len() && t < right@.len() ==> i64::MIN < a * #[trigger] left@[t] + b * #[trigger] right@[t] <= i64::MAX
                    && i64::MIN < a * left@[t] && a * left@[t] <= i64::MAX && i64::MIN <= b * right@[t] <= i64::MAX,
            i <= n,
            out@.len() == i,
            forall|t: int| 0 <= t < i ==> #[trigger] out@[t] == ((if c == 1 {
                -1int
            } else {
                1int
            }) * (a * left@[t] + b * right@[t])) % p as int,
        decreases n - i,
    {
        let x = left[i];
        let y = right[i];
        let inner = a * x + b * y;
        let value = if c == 1 { mod_i64(-inner, p) } else { mod_i64(inner, p) };
        proof {
            if c == 1 {
                assert((-1int) * (a * x + b * y) == -(inner as int));
            } else {
                assert(1int * (a * x + b * y) == inner as int);
            }
        }
        out.push(value);
        i += 1;
    }
    out
}

/// One term `c*id` of a relation.
pub open spec fn relation_term(t: (i32, String)) -> Seq<char> {
    int_text(t.0 as int) + seq!['*'] + t.1@
}

/// The terms joined by `;`.
pub open spec fn relation_key_spec(terms: Seq<(i32, String)>) -> Seq<char>
    decreases terms.len(),
{
    if terms.len() == 0 {
        Seq::empty()
    } else if terms.len() == 1 {
        relation_term(terms[0])
    } else {
        relation_key_spec(terms.drop_last()) + seq![';'] + relation_term(terms.last())
    }
}

/// The key that identifies a relation: its terms `c*id` joined by `;`.
pub fn relation_key(terms: &[(i32, String)]) -> (r: String)
    ensures
        r@ == relation_key_spec(terms@),
{
    let mut out = String::new();
    let mut i: usize = 0;
    while i < terms.len()
        invariant
            i <= terms@.len(),
            out@ == relation_key_spec(terms@.subrange(0, i as int)),
        decreases terms@.len() - i,
    {
        let ghost before = out@;
        if i > 0 {
            push_char(&mut out, ';');
        }
        out.append(i64_to_text(terms[i].0 as i64).as_str());
        push_char(&mut out, '*');
        out.append(terms[i].1.as_str());
        proof {
            let q = terms@.subrange(0, i + 1);
            assert(q.drop_last() =~= terms@.subrange(0, i as int));
            assert(q.last() == terms@[i as int]);
            if i == 0 {
                assert(out@ =~= relation_term(q[0]));
            } else {
                assert(out@ =~= before + seq![';'] + relation_term(q.last()));
            }
        }
        i += 1;
    }
    proof {
        assert(terms@.subrange(0, terms@.len() as int) =~= terms@);
    }
    out
}

/// A coefficient as `n` or `n/d`.
pub open spec fn coeff_text(c: Rational) -> Seq<char> {
    if c.denom == 1 {
        int_text(c.numer as int)
    } else {
        int_text(c.numer as int) + seq!['/'] + int_text(c.denom as int)
    }
}

/// Writes a coefficient as `n` or `n/d`.
pub fn format_coeff(value: &Rational) -> (r: String)
    ensures
        r@ == coeff_text(*value),
{
    if value.denom == 1 {
        return i64_to_text(value.numer);
    }
    let mut out = i64_to_text(value.numer);
    push_char(&mut out, '/');
    out.append(i64_to_text(value.denom).as_str());
    out
}

/// The coefficients `(a, b)` in `{1, 2} x {-2, -1, 1, 2}` with `ratio = -b/a`,
/// taken in the order `(1,-1), (1,1), (1,-2), (1,2), (2,-1), (2,1)`, or none.
pub open spec fn pm2_pair(ratio: Rational) -> Option<(i32, i32)> {
    if ratio == (Rational { numer: 1, denom: 1 }) {
        Some((1i32, -1i32))
    } else if ratio == (Rational { numer: -1i64, denom: 1 }) {
        Some((1i32, 1i32))
    } else if ratio == (Rational { numer: 2, denom: 1 }) {
        Some((1i32, -2i32))
    } else if ratio == (Rational { numer: -2i64, denom: 1 }) {
        Some((1i32, 2i32))
    } else if ratio == (Rational { numer: 1, denom: 2 }) {
        Some((2i32, -1i32))
    } else if ratio == (Rational { numer: -1i64, denom: 2 }) {
        Some((2i32, 1i32))
    } else {
        None
    }
}

/// The small coefficients `(a, b)` of a relation `a*x + b*y = 0` whose ratio
/// `x / y` is `ratio`; never an error.
pub fn ratio_to_coeffs_pm2(ratio: &Rational) -> (r: Result<Option<(i32, i32)>, ExperimentError>)
    ensures
        r == Ok::<Option<(i32, i32)>, ExperimentError>(pm2_pair(*ratio)),
{
    let (n, d) = (ratio.numer, ratio.denom);
    if n == 1 && d == 1 {
        Ok(Some((1, -1)))
    } else if n == -1 && d == 1 {
        Ok(Some((1, 1)))
    } else if n == 2 && d == 1 {
        Ok(Some((1, -2)))
    } else if n == -2 && d == 1 {
        Ok(Some((1, 2)))
    } else if n == 1 && d == 2 {
        Ok(Some((2, -1)))
    } else if n == -1 && d == 2 {
        Ok(Some((2, 1)))
    } else {
        Ok(None)
    }
}


/// The fraction `n / d` is in lowest terms: no integer above 1 divides both.
pub open spec fn lowest_terms(n: int, d: int) -> bool {
    forall|t: int| 2 <= t ==> !(#[trigger] (n % t) == 0 && d % t == 0)
}

/// The pair found for a ratio writes a relation that the ratio satisfies:
/// `(a, b)` with `a` in `{1, 2}` and `b` in `{-2, -1, 1, 2}` and
/// `a * ratio + b == 0`, so `a*x + b*y = 0` holds for every `x / y` equal to
/// the ratio. And a ratio in lowest terms (positive denominator) that
/// satisfies such a relation always gets a pair.
pub proof fn law_pm2_relation(ratio: Rational)
    ensures
        pm2_pair(ratio) matches Some(ab) ==> (ab.0 == 1 || ab.0 == 2) && (ab.1 == 1 || ab.1 == -1 || ab.1 == 2 || ab.1 == -2)
            && ab.0 * ratio.numer + ab.1 * ratio.denom == 0,
        (ratio.denom > 0 && lowest_terms(ratio.numer as int, ratio.denom as int) && exists|a: int, b: int|
            (a == 1 || a == 2) && (b == 1 || b == -1 || b == 2 || b == -2) && #[trigger] (a * ratio.numer + b * ratio.denom) == 0)
            ==> pm2_pair(ratio) is Some,
{
    let n = ratio.numer as int;
    let d = ratio.denom as int;
    if d > 0 && lowest_terms(n, d) && exists|a: int, b: int|
        (a == 1 || a == 2) && (b == 1 || b == -1 || b == 2 || b == -2) && #[trigger] (a * ratio.numer + b * ratio.denom) == 0 {
        let (a, b) = choose|a: int, b: int|
            (a == 1 || a == 2) && (b == 1 || b == -1 || b == 2 || b == -2) && #[trigger] (a * ratio.numer + b * ratio.denom) == 0;
        assert(a * n + b * d == 0);
        if a == 1 || b == 2 || b == -2 {
            // `n` is a multiple of `d`, so `d` is 1 and `n` is `-b` or `-b/2`.
            let k: int = if a == 1 {
                -b
            } else {
                -b / 2
            };
            assert(n == k * d) by (nonlinear_arith)
                requires
                    a * n + b * d == 0,
                    a == 1 || b == 2 || b == -2,
                    a == 1 || a == 2,
                    k == if a == 1 {
                        -b
                    } else {
                        -b / 2
                    },
                    b == 1 || b == -1 || b == 2 || b == -2,
            ;
            if d >= 2 {
                vstd::arithmetic::div_mod::lemma_mod_multiples_basic(k, d);
                vstd::arithmetic::div_mod::lemma_mod_self_0(d);
                assert(n % d == 0 && d % d == 0);
                assert(!(n % d == 0 && d % d == 0));
            }
            assert(d == 1);
        } else {
            assert(a == 2);
            // `2n = -b d` with `b` odd: `d = 2|n|`, so `|n|` is 1 and `d` is 2.
            assert(2 * n == -b * d) by (nonlinear_arith)
                requires
                    a * n + b * d == 0,
                    a == 2,
            ;
            let m: int = if n < 0 {
                -n
            } else {
                n
            };
            assert(d == 2 * m) by (nonlinear_arith)
                requires
                    2 * n == -b * d,
                    b == 1 || b == -1,
                    d > 0,
                    m == if n < 0 {
                        -n
                    } else {
                        n
                    },
            ;
            if m >= 2 {
                vstd::arithmetic::div_mod::lemma_mod_multiples_basic(2, m);
                vstd::arithmetic::div_mod::lemma_mod_self_0(m);
                if n < 0 {
                    vstd::arithmetic::div_mod::lemma_mod_multiples_basic(-1, m);
                    assert(n == -1 * m);
                }
                assert(n % m == 0 && d % m == 0);
                assert(!(n % m == 0 && d % m == 0));
            }
            assert(m == 1);
        }
    }
}

/// Bit `j` of `m`.
pub open spec fn bit_set(m: u64, j: u64) -> bool {
    (m >> j) & 1u64 == 1u64
}

proof fn lemma_set_bit(m: u64, i: u64, j: u64)
    requires
        i < 64,
        j < 64,
    ensures
        bit_set(m | (1u64 << i), j) == (i == j || bit_set(m, j)),
{
    assert(((m | (1u64 << i)) >> j) & 1u64 == 1u64 <==> (i == j || (m >> j) & 1u64 == 1u64)) by (bit_vector)
        requires
            i < 64,
            j < 64,
    ;
}

proof fn lemma_zero_bits(j: u64)
    requires
        j < 64,
    ensures
        !bit_set(0u64, j),
{
    assert((0u64 >> j) & 1u64 != 1u64) by (bit_vector)
        requires
            j < 64,
    ;
}

/// The number of nonzero values among the first `n`.
pub open spec fn count_nonzero(values: Seq<Rational>, n: int) -> nat
    decreases n,
{
    if n <= 0 {
        0
    } else {
        count_nonzero(values, n - 1) + if values[n - 1].numer != 0 {
            1nat
        } else {
            0nat
        }
    }
}

/// How many of the masks equal `m`.
pub open spec fn count_mask(masks: Seq<u64>, m: u64) -> nat
    decreases masks.len(),
{
    if masks.len() == 0 {
        0
    } else {
        count_mask(masks.drop_last(), m) + if masks.last() == m {
            1nat
        } else {
            0nat
        }
    }
}

/// The masks of the rows.
pub open spec fn row_masks(rows: Seq<SupportMaskRow>) -> Seq<u64> {
    rows.map_values(|r: SupportMaskRow| r.bitmask)
}

/// The support of a list of at most 64 values: bit `j` is set exactly when
/// value `j` is nonzero.
pub fn support_mask(values: &Vec<Rational>) -> (r: (u64, usize))
    requires
        values@.len() <= 64,
    ensures
        forall|j: u64| j < 64 ==> #[trigger] bit_set(r.0, j) == (j < values@.len() && values@[j as int].numer != 0),
        r.1 == count_nonzero(values@, values@.len() as int),
{
    let mut mask: u64 = 0;
    let mut nnz: usize = 0;
    let mut idx: usize = 0;
    proof {
        assert forall|j: u64| j < 64 implies #[trigger] bit_set(mask, j) == (j < 0 && values@[j as int].numer != 0) by {
            lemma_zero_bits(j);
        }
    }
    while idx < values.len()
        invariant
            values@.len() <= 64,
            idx <= values@.len(),
            nnz == count_nonzero(values@, idx as int),
            nnz <= idx,
            forall|j: u64| j < 64 ==> #[trigger] bit_set(mask, j) == (j < idx && values@[j as int].numer != 0),
        decreases values@.len() - idx,
    {
        if values[idx].numer != 0 {
            let ghost m0 = mask;
            mask = mask | (1u64 << (idx as u64));
            proof {
                assert forall|j: u64| j < 64 implies #[trigger] bit_set(mask, j) == (j < idx + 1 && values@[j as int].numer != 0) by {
                    lemma_set_bit(m0, idx as u64, j);
                }
            }
            nnz += 1;
        } else {
            proof {
                assert forall|j: u64| j < 64 implies #[trigger] bit_set(mask, j) == (j < idx + 1 && values@[j as int].numer != 0) by {
                    if j == idx as u64 {
                    }
                }
            }
        }
        idx += 1;
    }
    (mask, nnz)
}

/// The support mask of each observable, in order, and how many observables
/// share each mask, by increasing mask; an error once an observable has more
/// than 64 values.
pub fn compute_support_masks(items: &[(String, Vec<Rational>)]) -> (r: Result<(Vec<SupportMaskRow>, Vec<MaskHistogramRow>), ExperimentError>)
    ensures
        r is Err <==> exists|a: int| 0 <= a < items@.len() && (#[trigger] items@[a]).1@.len() > 64,
        r matches Ok(t) ==> t.0@.len() == items@.len() && (forall|a: int|
            0 <= a < items@.len() ==> (#[trigger] t.0@[a]).key@ == items@[a].0@ && t.0@[a].nnz == count_nonzero(
                items@[a].1@,
                items@[a].1@.len() as int,
            ) && forall|j: u64| j < 64 ==> #[trigger] bit_set(t.0@[a].bitmask, j) == (j < items@[a].1@.len()
                && items@[a].1@[j as int].numer != 0)) && (forall|q: int, w: int|
            0 <= q < w < t.1@.len() ==> (#[trigger] t.1@[q]).bitmask < (#[trigger] t.1@[w]).bitmask) && (forall|q: int|
            0 <= q < t.1@.len() ==> (#[trigger] t.1@[q]).count == count_mask(row_masks(t.0@), t.1@[q].bitmask) && t.1@[q].count
                > 0) && (forall|m: u64|
            #[trigger] count_mask(row_masks(t.0@), m) > 0 ==> exists|q: int| 0 <= q < t.1@.len() && (#[trigger] t.1@[q]).bitmask == m),
{
    let mut rows: Vec<SupportMaskRow> = Vec::new();
    let mut hist: Vec<MaskHistogramRow> = Vec::new();
    let mut i: usize = 0;
    while i < items.len()
        invariant
            i <= items@.len(),
            forall|a: int| 0 <= a < i ==> (#[trigger] items@[a]).1@.len() <= 64,
            rows@.len() == i,
            forall|a: int|
                0 <= a < i ==> (#[trigger] rows@[a]).key@ == items@[a].0@ && rows@[a].nnz == count_nonzero(
                    items@[a].1@,
                    items@[a].1@.len() as int,
                ) && forall|j: u64| j < 64 ==> #[trigger] bit_set(rows@[a].bitmask, j) == (j < items@[a].1@.len()
                    && items@[a].1@[j as int].numer != 0),
            forall|q: int, w: int| 0 <= q < w < hist@.len() ==> (#[trigger] hist@[q]).bitmask < (#[trigger] hist@[w]).bitmask,
            forall|q: int| 0 <= q < hist@.len() ==> (#[trigger] hist@[q]).count == count_mask(row_masks(rows@), hist@[q].bitmask)
                && hist@[q].count > 0,
            forall|m: u64| #[trigger] count_mask(row_masks(rows@), m) > 0 ==> exists|q: int| 0 <= q < hist@.len() && (#[trigger] hist@[q]).bitmask == m,
        decreases items@.len() - i,
    {
        if items[i].1.len() > 64 {
            return Err(ExperimentError::InvalidConfig("support mask requires <= 64 loops".to_string()));
        }
        let (mask, nnz) = support_mask(&items[i].1);
        let ghost rows0 = rows@;
        let ghost hist0 = hist@;
        rows.push(SupportMaskRow { key: items[i].0.clone(), bitmask: mask, nnz });
        proof {
            assert(row_masks(rows@) =~= row_masks(rows0).push(mask));
            assert forall|m: u64| #[trigger] count_mask(row_masks(rows@), m) == count_mask(row_masks(rows0), m) + if m == mask {
                1nat
            } else {
                0nat
            } by {
                lemma_count_mask_push(row_masks(rows0), mask, m);
            }
        }
        let mut q: usize = 0;
        while q < hist.len() && hist[q].bitmask < mask
            invariant
                q <= hist@.len(),
                forall|t: int| 0 <= t < q ==> (#[trigger] hist@[t]).bitmask < mask,
            decreases hist@.len() - q,
        {
            q += 1;
        }
        if q < hist.len() && hist[q].bitmask == mask {
            let c = hist[q].count;
            proof {
                assert(c == count_mask(row_masks(rows0), mask));
                assert(count_mask(row_masks(rows@), mask) == c + 1);
                assert(c < usize::MAX) by {
                    lemma_count_mask_bound(row_masks(rows0), mask);
                }
            }
            hist.set(q, MaskHistogramRow { bitmask: mask, count: c + 1 });
        } else {
            hist.insert(q, MaskHistogramRow { bitmask: mask, count: 1 });
            proof {
                assert(count_mask(row_masks(rows0), mask) == 0) by {
                    if count_mask(row_masks(rows0), mask) > 0 {
                        let w = choose|w: int| 0 <= w < hist0.len() && (#[trigger] hist0[w]).bitmask == mask;
                        if w < q {
                        } else {
                        }
                    }
                }
            }
        }
        proof {
            assert forall|w: int| 0 <= w < hist@.len() implies (#[trigger] hist@[w]).count == count_mask(row_masks(rows@), hist@[w].bitmask)
                && hist@[w].count > 0 by {
                let m = hist@[w].bitmask;
                if m != mask {
                    let w0 = if w < q || (q < hist0.len() && hist0[q as int].bitmask == mask) { w } else { w - 1 };
                    assert(hist@[w] == hist0[w0]);
                }
            }
            assert forall|m: u64| #[trigger] count_mask(row_masks(rows@), m) > 0 implies exists|w: int| 0 <= w < hist@.len() && (#[trigger] hist@[w]).bitmask == m by {
                if m == mask {
                    assert(hist@[q as int].bitmask == mask);
                } else {
                    let w0 = choose|w: int| 0 <= w < hist0.len() && (#[trigger] hist0[w]).bitmask == m;
                    let w = if w0 < q || (q < hist0.len() && hist0[q as int].bitmask == mask) { w0 } else { w0 + 1 };
                    assert(hist@[w] == hist0[w0]);
                }
            }
            assert forall|a: int, b: int| 0 <= a < b < hist@.len() implies (#[trigger] hist@[a]).bitmask < (#[trigger] hist@[b]).bitmask by {
                if !(q < hist0.len() && hist0[q as int].bitmask == mask) {
                    let a0 = if a < q { a } else { a - 1 };
                    let b0 = if b < q { b } else { b - 1 };
                    if a == q {
                        assert(hist@[b] == hist0[b0]);
                    } else if b == q {
                        assert(hist@[a] == hist0[a0]);
                    } else {
                        assert(hist@[a] == hist0[a0]);
                        assert(hist@[b] == hist0[b0]);
                    }
                }
            }
            assert forall|a: int| 0 <= a < i + 1 implies (#[trigger] rows@[a]).key@ == items@[a].0@ && rows@[a].nnz == count_nonzero(
                items@[a].1@,
                items@[a].1@.len() as int,
            ) && forall|j: u64| j < 64 ==> #[trigger] bit_set(rows@[a].bitmask, j) == (j < items@[a].1@.len()
                && items@[a].1@[j as int].numer != 0) by {
                if a < i {
                    assert(rows@[a] == rows0[a]);
                }
            }
        }
        i += 1;
    }
    let out = (rows, hist);
    proof {
        assert forall|m: u64| #[trigger] count_mask(row_masks(out.0@), m) > 0 implies exists|q: int| 0 <= q < out.1@.len() && (#[trigger] out.1@[q]).bitmask == m by {
            assert(count_mask(row_masks(rows@), m) > 0);
            let q = choose|q: int| 0 <= q < hist@.len() && (#[trigger] hist@[q]).bitmask == m;
            assert(out.1@[q].bitmask == m);
        }
    }
    Ok(out)
}

proof fn lemma_count_mask_push(masks: Seq<u64>, x: u64, m: u64)
    ensures
        count_mask(masks.push(x), m) == count_mask(masks, m) + if x == m {
            1nat
        } else {
            0nat
        },
{
    assert(masks.push(x).drop_last() =~= masks);
}

proof fn lemma_count_mask_bound(masks: Seq<u64>, m: u64)
    ensures
        count_mask(masks, m) <= masks.len(),
    decreases masks.len(),
{
    if masks.len() > 0 {
        lemma_count_mask_bound(masks.drop_last(), m);
    }
}

proof fn lemma_count_mask_member(masks: Seq<u64>, a: int)
    requires
        0 <= a < masks.len(),
    ensures
        count_mask(masks, masks[a]) > 0,
    decreases masks.len(),
{
    if a < masks.len() - 1 {
        lemma_count_mask_member(masks.drop_last(), a);
    }
}


/// `a` sorts before `b`: by prefix, then by suffix.
pub open spec fn edge_less(a: AllowedEdge, b: AllowedEdge) -> bool {
    if a.prefix@ != b.prefix@ {
        str_lt(a.prefix@, b.prefix@)
    } else {
        str_lt(a.suffix@, b.suffix@)
    }
}

fn edge_before(a: &AllowedEdge, b: &AllowedEdge) -> (r: bool)
    ensures
        r == edge_less(*a, *b),
{
    if !str_eq(a.prefix.as_str(), b.prefix.as_str()) {
        return str_less(a.prefix.as_str(), b.prefix.as_str());
    }
    str_less(a.suffix.as_str(), b.suffix.as_str())
}

proof fn lemma_edge_less_irrefl(a: AllowedEdge)
    ensures
        !edge_less(a, a),
{
    crate::text::lemma_str_lt_irrefl_asym(a.suffix@, a.suffix@);
}

proof fn lemma_edge_less_trans(a: AllowedEdge, b: AllowedEdge, c: AllowedEdge)
    requires
        edge_less(a, b),
        edge_less(b, c),
    ensures
        edge_less(a, c),
{
    if a.prefix@ != b.prefix@ && b.prefix@ != c.prefix@ {
        crate::text::lemma_str_lt_trans(a.prefix@, b.prefix@, c.prefix@);
        if a.prefix@ == c.prefix@ {
            crate::text::lemma_str_lt_irrefl_asym(a.prefix@, b.prefix@);
        }
    } else if a.prefix@ == b.prefix@ && b.prefix@ == c.prefix@ {
        crate::text::lemma_str_lt_trans(a.suffix@, b.suffix@, c.suffix@);
    }
}

/// Sorts the edges by prefix, then suffix.
pub fn sort_edges(edges: &mut Vec<AllowedEdge>)
    ensures
        is_permutation_of(final(edges)@, old(edges)@),
        forall|i: int, j: int| 0 <= i < j < final(edges)@.len() ==> !edge_less(#[trigger] final(edges)@[j], #[trigger] final(edges)@[i]),
{
    let n = edges.len();
    let ghost orig = edges@;
    let ghost mut f: Seq<int> = Seq::new(n as nat, |t: int| t);
    let mut i: usize = 0;
    while i < n
        invariant
            n == edges@.len(),
            orig.len() == n,
            i <= n,
            f.len() == n,
            forall|t: int| 0 <= t < n ==> 0 <= #[trigger] f[t] < n && edges@[t] == orig[f[t]],
            forall|s: int, t: int| 0 <= s < t < n ==> #[trigger] f[s] != #[trigger] f[t],
            forall|a: int, b: int| 0 <= a < i && a <= b < n ==> !edge_less(#[trigger] edges@[b], #[trigger] edges@[a]),
        decreases n - i,
    {
        let mut m: usize = i;
        let mut k: usize = i + 1;
        proof {
            lemma_edge_less_irrefl(edges@[i as int]);
        }
        while k < n
            invariant
                n == edges@.len(),
                i <= m < n,
                i < k <= n,
                forall|t: int| i <= t < k ==> !edge_less(#[trigger] edges@[t], edges@[m as int]),
            decreases n - k,
        {
            if edge_before(&edges[k], &edges[m]) {
                proof {
                    assert forall|t: int| i <= t < k + 1 implies !edge_less(#[trigger] edges@[t], edges@[k as int]) by {
                        if t < k {
                            if edge_less(edges@[t], edges@[k as int]) {
                                lemma_edge_less_trans(edges@[t], edges@[k as int], edges@[m as int]);
                            }
                        } else {
                            lemma_edge_less_irrefl(edges@[t]);
                        }
                    }
                }
                m = k;
            }
            k += 1;
        }
        let ghost before = edges@;
        swap_entries(edges, i, m, AllowedEdge { prefix: String::new(), suffix: String::new() });
        proof {
            let f0 = f;
            f = f.update(i as int, f0[m as int]).update(m as int, f0[i as int]);
            assert forall|t: int| 0 <= t < n implies 0 <= #[trigger] f[t] < n && edges@[t] == orig[f[t]] by {
                if t != i && t != m {
                    assert(f[t] == f0[t]);
                }
            }
            assert forall|s: int, t: int| 0 <= s < t < n implies #[trigger] f[s] != #[trigger] f[t] by {
                let fs = if s == i { m as int } else if s == m { i as int } else { s };
                let ft = if t == i { m as int } else if t == m { i as int } else { t };
                assert(f[s] == f0[fs]);
                assert(f[t] == f0[ft]);
                if fs > ft {
                    assert(f0[ft] != f0[fs]);
                }
            }
            assert forall|a: int, b: int| 0 <= a < i + 1 && a <= b < n implies !edge_less(#[trigger] edges@[b], #[trigger] edges@[a]) by {
                let fb = if b == i { m as int } else if b == m { i as int } else { b };
                assert(edges@[b] == before[fb]);
                if a < i {
                    assert(edges@[a] == before[a]);
                } else {
                    assert(edges@[a] == before[m as int]);
                }
            }
        }
        i += 1;
    }
}

/// The edges of the allowed prefix-suffix graph: the prefix and suffix of each
/// nonzero `prefix-suffix` observable (given by its params and whether it is
/// trivial), sorted; an error when a params field does not name both.
pub fn build_allowed_edges(items: &[(String, bool)]) -> (r: Result<Vec<AllowedEdge>, ExperimentError>)
    ensures
        r is Err <==> exists|a: int|
            0 <= a < items@.len() && !(#[trigger] items@[a]).1 && uv_scan(split_spec(items@[a].0@, ','), 0, None, None) is None,
        r matches Ok(edges) ==> forall|i: int, j: int| 0 <= i < j < edges@.len() ==> !edge_less(#[trigger] edges@[j], #[trigger] edges@[i]),
{
    let mut edges: Vec<AllowedEdge> = Vec::new();
    let mut nonzero: usize = 0;
    let mut a: usize = 0;
    while a < items.len()
        invariant
            a <= items@.len(),
            edges@.len() == nonzero,
            nonzero <= a,
            forall|t: int| 0 <= t < a && !(#[trigger] items@[t]).1 ==> uv_scan(split_spec(items@[t].0@, ','), 0, None, None) is Some,
        decreases items@.len() - a,
    {
        if items[a].1 {
            a += 1;
            continue;
        }
        nonzero += 1;
        match parse_prefix_suffix_params(items[a].0.as_str()) {
            Some((prefix, suffix)) => {
                edges.push(AllowedEdge { prefix, suffix });
            },
            None => {
                return Err(ExperimentError::InvalidConfig("invalid prefix-suffix params".to_string()));
            },
        }
        a += 1;
    }
    sort_edges(&mut edges);
    if edges.len() != nonzero {
        return Err(ExperimentError::InvalidConfig("allowed graph edge count mismatch".to_string()));
    }
    Ok(edges)
}

/// A CSV table: a header record, then one record per row.
pub open spec fn csv_table(header: Seq<Seq<char>>, rows: Seq<Seq<Seq<char>>>) -> Seq<char> {
    csv_record(header) + csv_rows(rows)
}

/// The records of the rows.
pub open spec fn csv_rows(rows: Seq<Seq<Seq<char>>>) -> Seq<char>
    decreases rows.len(),
{
    if rows.len() == 0 {
        Seq::empty()
    } else {
        csv_rows(rows.drop_last()) + csv_record(rows.last())
    }
}

/// The fields of an allowed edge.
pub open spec fn edge_fields(e: AllowedEdge) -> Seq<Seq<char>> {
    seq![e.prefix@, e.suffix@]
}

/// The allowed graph as CSV.
pub fn render_allowed_graph_csv(edges: &[AllowedEdge]) -> (r: String)
    ensures
        r@ == csv_table(seq!["prefix_id"@, "suffix_id"@], edges@.map_values(|e: AllowedEdge| edge_fields(e))),
{
    let header = vec![String::from_str("prefix_id"), String::from_str("suffix_id")];
    let mut out = csv_record_text(&header);
    proof {
        assert(strings_view(header@) =~= seq!["prefix_id"@, "suffix_id"@]);
    }
    let ghost rows = edges@.map_values(|e: AllowedEdge| edge_fields(e));
    let ghost head = out@;
    let mut i: usize = 0;
    proof {
        assert(rows.subrange(0, 0) =~= Seq::<Seq<Seq<char>>>::empty());
    }
    while i < edges.len()
        invariant
            i <= edges@.len(),
            rows == edges@.map_values(|e: AllowedEdge| edge_fields(e)),
            out@ == head + csv_rows(rows.subrange(0, i as int)),
        decreases edges@.len() - i,
    {
        let fields = vec![edges[i].prefix.clone(), edges[i].suffix.clone()];
        let line = csv_record_text(&fields);
        out.append(line.as_str());
        proof {
            assert(strings_view(fields@) =~= edge_fields(edges@[i as int]));
            let q = rows.subrange(0, i + 1);
            assert(q.drop_last() =~= rows.subrange(0, i as int));
            assert(q.last() == edge_fields(edges@[i as int]));
        }
        i += 1;
    }
    proof {
        assert(rows.subrange(0, edges@.len() as int) =~= rows);
    }
    out
}

/// The fields of a support mask row.
pub open spec fn mask_fields(m: SupportMaskRow) -> Seq<Seq<char>> {
    seq![m.key@, decimal_digits(m.bitmask as nat), decimal_digits(m.nnz as nat)]
}

/// The support masks as CSV.
pub fn render_support_mask_csv(rows: &[SupportMaskRow]) -> (r: String)
    ensures
        r@ == csv_table(seq!["key"@, "bitmask"@, "nnz_count"@], rows@.map_values(|m: SupportMaskRow| mask_fields(m))),
{
    let header = vec![String::from_str("key"), String::from_str("bitmask"), String::from_str("nnz_count")];
    let mut out = csv_record_text(&header);
    proof {
        assert(strings_view(header@) =~= seq!["key"@, "bitmask"@, "nnz_count"@]);
    }
    let ghost table = rows@.map_values(|m: SupportMaskRow| mask_fields(m));
    let ghost head = out@;
    let mut i: usize = 0;
    proof {
        assert(table.subrange(0, 0) =~= Seq::<Seq<Seq<char>>>::empty());
    }
    while i < rows.len()
        invariant
            i <= rows@.len(),
            table == rows@.map_values(|m: SupportMaskRow| mask_fields(m)),
            out@ == head + csv_rows(table.subrange(0, i as int)),
        decreases rows@.len() - i,
    {
        let fields = vec![rows[i].key.clone(), u64_to_text(rows[i].bitmask), u64_to_text(rows[i].nnz as u64)];
        let line = csv_record_text(&fields);
        out.append(line.as_str());
        proof {
            assert(strings_view(fields@) =~= mask_fields(rows@[i as int]));
            let q = table.subrange(0, i + 1);
            assert(q.drop_last() =~= table.subrange(0, i as int));
        }
        i += 1;
    }
    proof {
        assert(table.subrange(0, rows@.len() as int) =~= table);
    }
    out
}

/// The fields of a histogram row.
pub open spec fn histogram_fields(h: MaskHistogramRow) -> Seq<Seq<char>> {
    seq![decimal_digits(h.bitmask as nat), decimal_digits(h.count as nat)]
}

/// The mask histogram as CSV.
pub fn render_mask_histogram_csv(rows: &[MaskHistogramRow]) -> (r: String)
    ensures
        r@ == csv_table(seq!["bitmask"@, "count"@], rows@.map_values(|h: MaskHistogramRow| histogram_fields(h))),
{
    let header = vec![String::from_str("bitmask"), String::from_str("count")];
    let mut out = csv_record_text(&header);
    proof {
        assert(strings_view(header@) =~= seq!["bitmask"@, "count"@]);
    }
    let ghost table = rows@.map_values(|h: MaskHistogramRow| histogram_fields(h));
    let ghost head = out@;
    let mut i: usize = 0;
    proof {
        assert(table.subrange(0, 0) =~= Seq::<Seq<Seq<char>>>::empty());
    }
    while i < rows.len()
        invariant
            i <= rows@.len(),
            table == rows@.map_values(|h: MaskHistogramRow| histogram_fields(h)),
            out@ == head + csv_rows(table.subrange(0, i as int)),
        decreases rows@.len() - i,
    {
        let fields = vec![u64_to_text(rows[i].bitmask), u64_to_text(rows[i].count as u64)];
        let line = csv_record_text(&fields);
        out.append(line.as_str());
        proof {
            assert(strings_view(fields@) =~= histogram_fields(rows@[i as int]));
            let q = table.subrange(0, i + 1);
            assert(q.drop_last() =~= table.subrange(0, i as int));
        }
        i += 1;
    }
    proof {
        assert(table.subrange(0, rows@.len() as int) =~= table);
    }
    out
}

/// The fields of a basis key.
pub open spec fn basis_key_fields(k: BasisKey) -> Seq<Seq<char>> {
    seq![k.family@, decimal_digits(k.index as nat), k.key@]
}

/// The basis keys as CSV.
pub fn render_basis_keys_csv(keys: &[BasisKey]) -> (r: String)
    ensures
        r@ == csv_table(seq!["family"@, "basis_index"@, "key"@], keys@.map_values(|k: BasisKey| basis_key_fields(k))),
{
    let header = vec![String::from_str("family"), String::from_str("basis_index"), String::from_str("key")];
    let mut out = csv_record_text(&header);
    proof {
        assert(strings_view(header@) =~= seq!["family"@, "basis_index"@, "key"@]);
    }
    let ghost table = keys@.map_values(|k: BasisKey| basis_key_fields(k));
    let ghost head = out@;
    let mut i: usize = 0;
    proof {
        assert(table.subrange(0, 0) =~= Seq::<Seq<Seq<char>>>::empty());
    }
    while i < keys.len()
        invariant
            i <= keys@.len(),
            table == keys@.map_values(|k: BasisKey| basis_key_fields(k)),
            out@ == head + csv_rows(table.subrange(0, i as int)),
        decreases keys@.len() - i,
    {
        let fields = vec![keys[i].family.clone(), u64_to_text(keys[i].index as u64), keys[i].key.clone()];
        let line = csv_record_text(&fields);
        out.append(line.as_str());
        proof {
            assert(strings_view(fields@) =~= basis_key_fields(keys@[i as int]));
            let q = table.subrange(0, i + 1);
            assert(q.drop_last() =~= table.subrange(0, i as int));
        }
        i += 1;
    }
    proof {
        assert(table.subrange(0, keys@.len() as int) =~= table);
    }
    out
}

/// The fields of a `(family, params)` key.
pub open spec fn key_fields(k: (String, String)) -> Seq<Seq<char>> {
    seq![k.0@, k.1@]
}

/// The observable keys as CSV.
pub fn render_keys_csv(rows: &[(String, String)]) -> (r: String)
    ensures
        r@ == csv_table(seq!["family"@, "params"@], rows@.map_values(|k: (String, String)| key_fields(k))),
{
    let header = vec![String::from_str("family"), String::from_str("params")];
    let mut out = csv_record_text(&header);
    proof {
        assert(strings_view(header@) =~= seq!["family"@, "params"@]);
    }
    let ghost table = rows@.map_values(|k: (String, String)| key_fields(k));
    let ghost head = out@;
    let mut i: usize = 0;
    proof {
        assert(table.subrange(0, 0) =~= Seq::<Seq<Seq<char>>>::empty());
    }
    while i < rows.len()
        invariant
            i <= rows@.len(),
            table == rows@.map_values(|k: (String, String)| key_fields(k)),
            out@ == head + csv_rows(table.subrange(0, i as int)),
        decreases rows@.len() - i,
    {
        let fields = vec![rows[i].0.clone(), rows[i].1.clone()];
        let line = csv_record_text(&fields);
        out.append(line.as_str());
        proof {
            assert(strings_view(fields@) =~= key_fields(rows@[i as int]));
            let q = table.subrange(0, i + 1);
            assert(q.drop_last() =~= table.subrange(0, i as int));
        }
        i += 1;
    }
    proof {
        assert(table.subrange(0, rows@.len() as int) =~= table);
    }
    out
}


/// `a * first[i] + b * second[i] + c * third[i]` modulo `p`, over as many
/// entries as all three lists have.
pub fn combine_target_mod3(first: &[i64], second: &[i64], third: &[i64], a: i32, b: i32, c: i32, p: i64) -> (r: Vec<i64>)
    requires
        p > 0,
        forall|i: int|
            #![trigger first@[i], second@[i], third@[i]]
            0 <= i < first@.len() && i < second@.len() && i < third@.len() ==> fits3(a as int, b as int, c as int, first@[i] as int, second@[i] as int, third@[i] as int),
    ensures
        r@.len() == min3(first@.len() as int, second@.len() as int, third@.len() as int),
        forall|i: int| 0 <= i < r@.len() ==> #[trigger] r@[i] == (a * first@[i] + b * second@[i] + c * third@[i]) % p as int,
{
    let n = if first.len() < second.len() { first.len() } else { second.len() };
    let n = if n < third.len() { n } else { third.len() };
    let a64 = a as i64;
    let b64 = b as i64;
    let c64 = c as i64;
    let mut out: Vec<i64> = Vec::with_capacity(n);
    let mut i: usize = 0;
    while i < n
        invariant
            p > 0,
            a64 == a,
            b64 == b,
            c64 == c,
            n == min3(first@.len() as int, second@.len() as int, third@.len() as int),
            forall|t: int|
                #![trigger first@[t], second@[t], third@[t]]
                0 <= t < first@.len() && t < second@.len() && t < third@.len() ==> fits3(a as int, b as int, c as int, first@[t] as int, second@[t] as int, third@[t] as int),
            i <= n,
            out@.len() == i,
            forall|t: int| 0 <= t < i ==> #[trigger] out@[t] == (a * first@[t] + b * second@[t] + c * third@[t]) % p as int,
        decreases n - i,
    {
        let x = first[i];
        let y = second[i];
        let z = third[i];
        let value = mod_i64(a64 * x + b64 * y + c64 * z, p);
        out.push(value);
        i += 1;
    }
    out
}

/// Whether `a * x + b * y + c * z` and its partial sums and products fit in
/// an `i64`.
pub open spec fn fits3(a: int, b: int, c: int, x: int, y: int, z: int) -> bool {
    &&& i64::MIN <= a * x <= i64::MAX
    &&& i64::MIN <= b * y <= i64::MAX
    &&& i64::MIN <= c * z <= i64::MAX
    &&& i64::MIN <= a * x + b * y <= i64::MAX
    &&& i64::MIN <= a * x + b * y + c * z <= i64::MAX
}

/// The least of three numbers.
pub open spec fn min3(x: int, y: int, z: int) -> int {
    let m = if x < y {
        x
    } else {
        y
    };
    if m < z {
        m
    } else {
        z
    }
}

/// The place the order map gives `id` (its first entry for it), or
/// `usize::MAX` for an id it does not hold.
pub open spec fn order_of(order_map: Seq<(String, usize)>, id: Seq<char>) -> int
    decreases order_map.len(),
{
    if order_map.len() == 0 {
        usize::MAX as int
    } else if order_map[0].0@ == id {
        order_map[0].1 as int
    } else {
        order_of(order_map.drop_first(), id)
    }
}

/// The order of observable ids: by their place in the order map, then by text.
pub open spec fn id_lt(order_map: Seq<(String, usize)>, a: Seq<char>, b: Seq<char>) -> bool {
    order_of(order_map, a) < order_of(order_map, b) || (order_of(order_map, a) == order_of(order_map, b) && str_lt(a, b))
}

/// The order of observable ids is a strict total order: irreflexive,
/// transitive, and any two distinct ids are comparable.
pub proof fn lemma_id_lt_order(order_map: Seq<(String, usize)>, a: Seq<char>, b: Seq<char>, c: Seq<char>)
    ensures
        !id_lt(order_map, a, a),
        id_lt(order_map, a, b) && id_lt(order_map, b, c) ==> id_lt(order_map, a, c),
        a == b || id_lt(order_map, a, b) || id_lt(order_map, b, a),
{
    crate::text::lemma_str_lt_irrefl_asym(a, a);
    crate::text::lemma_str_lt_total(a, b);
    if str_lt(a, b) && str_lt(b, c) {
        crate::text::lemma_str_lt_trans(a, b, c);
    }
}

fn order_lookup(order_map: &[(String, usize)], id: &str) -> (r: usize)
    ensures
        r == order_of(order_map@, id@),
{
    let mut i: usize = 0;
    proof {
        assert(order_map@.subrange(0, order_map@.len() as int) =~= order_map@);
    }
    while i < order_map.len()
        invariant
            i <= order_map@.len(),
            order_of(order_map@, id@) == order_of(order_map@.subrange(i as int, order_map@.len() as int), id@),
        decreases order_map@.len() - i,
    {
        let ghost rest = order_map@.subrange(i as int, order_map@.len() as int);
        proof {
            assert(rest.drop_first() =~= order_map@.subrange(i + 1, order_map@.len() as int));
            assert(rest[0] == order_map@[i as int]);
        }
        if str_eq(order_map[i].0.as_str(), id) {
            return order_map[i].1;
        }
        i += 1;
    }
    usize::MAX
}

/// Whether id `left` sorts before id `right`.
pub fn id_before(order_map: &[(String, usize)], left: &str, right: &str) -> (r: bool)
    ensures
        r == id_lt(order_map@, left@, right@),
{
    let lo = order_lookup(order_map, left);
    let ro = order_lookup(order_map, right);
    if lo != ro {
        return lo < ro;
    }
    str_less(left, right)
}

/// The terms with a nonzero coefficient.
pub open spec fn nonzero_terms(terms: Seq<(i32, String)>) -> Seq<(i32, String)> {
    terms.filter(nonzero_term())
}

/// Whether a term's coefficient is nonzero.
pub open spec fn nonzero_term() -> spec_fn((i32, String)) -> bool {
    |t: (i32, String)| t.0 != 0
}

/// The terms with every coefficient negated.
pub open spec fn negate_terms(terms: Seq<(i32, String)>) -> Seq<(i32, String)> {
    terms.map_values(|t: (i32, String)| ((-t.0) as i32, t.1))
}

/// Whether the terms are in the order of their ids.
pub open spec fn terms_in_id_order(order_map: Seq<(String, usize)>, terms: Seq<(i32, String)>) -> bool {
    forall|i: int, j: int| 0 <= i < j < terms.len() ==> !id_lt(order_map, (#[trigger] terms[j]).1@, (#[trigger] terms[i]).1@)
}

/// The views of terms, coefficient and id text.
pub open spec fn term_views(terms: Seq<(i32, String)>) -> Seq<(i32, Seq<char>)> {
    terms.map_values(|t: (i32, String)| (t.0, t.1@))
}

/// Whether `out` is `terms` normalized: the zero terms dropped, the rest in
/// the order of their ids, all negated when the first is negative.
pub open spec fn is_normalized_terms(order_map: Seq<(String, usize)>, terms: Seq<(i32, String)>, out: Seq<(i32, String)>) -> bool {
    exists|sorted: Seq<(i32, String)>|
        #![trigger is_permutation_of(sorted, nonzero_terms(terms))]
        is_permutation_of(sorted, nonzero_terms(terms)) && terms_in_id_order(order_map, sorted) && term_views(out) == term_views(
            if sorted.len() > 0 && sorted[0].0 < 0 {
                negate_terms(sorted)
            } else {
                sorted
            },
        )
}

fn sort_terms_by_id(terms: &mut Vec<(i32, String)>, order_map: &[(String, usize)])
    ensures
        is_permutation_of(final(terms)@, old(terms)@),
        terms_in_id_order(order_map@, final(terms)@),
{
    let n = terms.len();
    let ghost orig = terms@;
    let ghost mut f: Seq<int> = Seq::new(n as nat, |t: int| t);
    let mut i: usize = 0;
    while i < n
        invariant
            n == terms@.len(),
            orig.len() == n,
            i <= n,
            f.len() == n,
            forall|t: int| 0 <= t < n ==> 0 <= #[trigger] f[t] < n && terms@[t] == orig[f[t]],
            forall|s: int, t: int| 0 <= s < t < n ==> #[trigger] f[s] != #[trigger] f[t],
            forall|a: int, b: int| 0 <= a < i && a <= b < n ==> !id_lt(order_map@, (#[trigger] terms@[b]).1@, (#[trigger] terms@[a]).1@),
        decreases n - i,
    {
        let mut m: usize = i;
        let mut k: usize = i + 1;
        proof {
            lemma_id_lt_order(order_map@, terms@[i as int].1@, terms@[i as int].1@, terms@[i as int].1@);
        }
        while k < n
            invariant
                n == terms@.len(),
                i <= m < n,
                i < k <= n,
                forall|t: int| i <= t < k ==> !id_lt(order_map@, (#[trigger] terms@[t]).1@, terms@[m as int].1@),
            decreases n - k,
        {
            if id_before(order_map, terms[k].1.as_str(), terms[m].1.as_str()) {
                proof {
                    assert forall|t: int| i <= t < k + 1 implies !id_lt(order_map@, (#[trigger] terms@[t]).1@, terms@[k as int].1@) by {
                        lemma_id_lt_order(order_map@, terms@[t].1@, terms@[k as int].1@, terms@[m as int].1@);
                    }
                }
                m = k;
            }
            k += 1;
        }
        let ghost before = terms@;
        swap_entries(terms, i, m, (0i32, String::new()));
        proof {
            let f0 = f;
            f = f.update(i as int, f0[m as int]).update(m as int, f0[i as int]);
            assert forall|t: int| 0 <= t < n implies 0 <= #[trigger] f[t] < n && terms@[t] == orig[f[t]] by {
                if t != i && t != m {
                    assert(f[t] == f0[t]);
                }
            }
            assert forall|s: int, t: int| 0 <= s < t < n implies #[trigger] f[s] != #[trigger] f[t] by {
                let fs = if s == i { m as int } else if s == m { i as int } else { s };
                let ft = if t == i { m as int } else if t == m { i as int } else { t };
                assert(f[s] == f0[fs]);
                assert(f[t] == f0[ft]);
                if fs < ft {
                } else {
                    assert(f0[ft] != f0[fs]);
                }
            }
            assert forall|a: int, b: int| 0 <= a < i + 1 && a <= b < n implies !id_lt(order_map@, (#[trigger] terms@[b]).1@, (#[trigger] terms@[a]).1@) by {
                let fb = if b == i { m as int } else if b == m { i as int } else { b };
                assert(terms@[b] == before[fb]);
                if a < i {
                    assert(terms@[a] == before[a]);
                } else {
                    assert(terms@[a] == before[m as int]);
                }
            }
        }
        i += 1;
    }
    proof {
        assert(is_permutation_of(terms@, orig)) by {
            assert(f.len() == terms@.len());
        }
    }
}

/// The terms of a relation in normal form: zero terms dropped, the rest in the
/// order of their ids, and all negated when the first coefficient is negative.
pub fn normalize_terms(terms: Vec<(i32, String)>, order_map: &[(String, usize)]) -> (r: Vec<(i32, String)>)
    requires
        forall|i: int| 0 <= i < terms@.len() ==> (#[trigger] terms@[i]).0 != i32::MIN,
    ensures
        is_normalized_terms(order_map@, terms@, r@),
{
    let mut kept: Vec<(i32, String)> = Vec::new();
    let mut i: usize = 0;
    proof {
        reveal(Seq::filter);
        assert(terms@.subrange(0, 0).filter(nonzero_term()) =~= Seq::<(i32, String)>::empty());
    }
    while i < terms.len()
        invariant
            i <= terms@.len(),
            kept@ == terms@.subrange(0, i as int).filter(nonzero_term()),
        decreases terms@.len() - i,
    {
        proof {
            let q = terms@.subrange(0, i + 1);
            assert(q.drop_last() =~= terms@.subrange(0, i as int));
            assert(q.last() == terms@[i as int]);
            reveal(Seq::filter);
            assert(q.filter(nonzero_term()) == if terms@[i as int].0 != 0 {
                terms@.subrange(0, i as int).filter(nonzero_term()).push(terms@[i as int])
            } else {
                terms@.subrange(0, i as int).filter(nonzero_term())
            });
        }
        if terms[i].0 != 0 {
            kept.push((terms[i].0, terms[i].1.clone()));
            proof {
                assert(kept@.last() == terms@[i as int]);
            }
        }
        i += 1;
    }
    proof {
        assert(terms@.subrange(0, terms@.len() as int) =~= terms@);
    }
    let ghost filtered = kept@;
    proof {
        assert forall|t: int| 0 <= t < filtered.len() implies (#[trigger] filtered[t]).0 != i32::MIN by {
            assert(filtered.contains(filtered[t]));
            terms@.lemma_filter_contains_rev(nonzero_term(), filtered[t]);
            let j = choose|j: int| 0 <= j < terms@.len() && terms@[j] == filtered[t];
        }
    }
    sort_terms_by_id(&mut kept, order_map);
    let ghost sorted = kept@;
    proof {
        assert forall|t: int| 0 <= t < sorted.len() implies (#[trigger] sorted[t]).0 != i32::MIN by {
            let f = choose|f: Seq<int>|
                f.len() == sorted.len() && (forall|t: int| 0 <= t < f.len() ==> 0 <= #[trigger] f[t] < filtered.len() && sorted[t] == filtered[f[t]])
                    && (forall|s: int, t: int| 0 <= s < t < f.len() ==> #[trigger] f[s] != #[trigger] f[t]);
            assert(sorted[t] == filtered[f[t]]);
        }
    }
    if kept.len() > 0 && kept[0].0 < 0 {
        let mut out: Vec<(i32, String)> = Vec::with_capacity(kept.len());
        let mut j: usize = 0;
        while j < kept.len()
            invariant
                kept@ == sorted,
                forall|t: int| 0 <= t < sorted.len() ==> (#[trigger] sorted[t]).0 != i32::MIN,
                j <= sorted.len(),
                out@.len() == j,
                forall|t: int| 0 <= t < j ==> (#[trigger] out@[t]).0 == -sorted[t].0 && out@[t].1@ == sorted[t].1@,
            decreases sorted.len() - j,
        {
            out.push((-kept[j].0, kept[j].1.clone()));
            j += 1;
        }
        proof {
            assert(term_views(out@) =~= term_views(negate_terms(sorted)));
            assert(is_permutation_of(sorted, nonzero_terms(terms@)));
        }
        return out;
    }
    proof {
        assert(is_permutation_of(sorted, nonzero_terms(terms@)));
    }
    kept
}


/// The views of rows of strings.
pub open spec fn rows_view(rows: Seq<Vec<String>>) -> Seq<Seq<Seq<char>>> {
    rows.map_values(|r: Vec<String>| strings_view(r@))
}

/// A CSV table of the given header and rows.
pub fn render_rows(header: &Vec<String>, rows: &Vec<Vec<String>>) -> (r: String)
    ensures
        r@ == csv_table(strings_view(header@), rows_view(rows@)),
{
    let mut out = csv_record_text(header);
    let ghost head = out@;
    let ghost table = rows_view(rows@);
    let mut i: usize = 0;
    proof {
        assert(table.subrange(0, 0) =~= Seq::<Seq<Seq<char>>>::empty());
    }
    while i < rows.len()
        invariant
            i <= rows@.len(),
            table == rows_view(rows@),
            out@ == head + csv_rows(table.subrange(0, i as int)),
        decreases rows@.len() - i,
    {
        let line = csv_record_text(&rows[i]);
        out.append(line.as_str());
        proof {
            let q = table.subrange(0, i + 1);
            assert(q.drop_last() =~= table.subrange(0, i as int));
        }
        i += 1;
    }
    proof {
        assert(table.subrange(0, rows@.len() as int) =~= table);
    }
    out
}

/// The order of relations in the report: by family, then support size, then
/// key.
pub open spec fn relation_lt(a: SparseRelation, b: SparseRelation) -> bool {
    if a.family@ != b.family@ {
        str_lt(a.family@, b.family@)
    } else if a.terms@.len() != b.terms@.len() {
        a.terms@.len() < b.terms@.len()
    } else {
        str_lt(relation_key_spec(a.terms@), relation_key_spec(b.terms@))
    }
}

/// Whether relation `a` sorts before relation `b`.
pub fn relation_before(a: &SparseRelation, b: &SparseRelation) -> (r: bool)
    ensures
        r == relation_lt(*a, *b),
{
    if !str_eq(a.family.as_str(), b.family.as_str()) {
        return str_less(a.family.as_str(), b.family.as_str());
    }
    if a.terms.len() != b.terms.len() {
        return a.terms.len() < b.terms.len();
    }
    let key_a = relation_key(a.terms.as_slice());
    let key_b = relation_key(b.terms.as_slice());
    str_less(key_a.as_str(), key_b.as_str())
}

/// Whether some relation of the list has the key of `terms`.
pub open spec fn key_present(relations: Seq<SparseRelation>, terms: Seq<(i32, String)>) -> bool {
    exists|i: int| 0 <= i < relations.len() && #[trigger] relation_key_spec(relations[i].terms@) == relation_key_spec(terms)
}

/// Adds the relation of `terms`, in normal form, unless that is empty or a
/// relation with the same key is there already.
pub fn insert_relation(
    relations: &mut Vec<SparseRelation>,
    family: &str,
    terms: Vec<(i32, String)>,
    order_map: &[(String, usize)],
)
    requires
        forall|i: int| 0 <= i < terms@.len() ==> (#[trigger] terms@[i]).0 != i32::MIN,
    ensures
        exists|n: Seq<(i32, String)>|
            #![trigger is_normalized_terms(order_map@, terms@, n)]
            is_normalized_terms(order_map@, terms@, n) && if n.len() == 0 || key_present(old(relations)@, n) {
                final(relations)@ == old(relations)@
            } else {
                &&& final(relations)@.len() == old(relations)@.len() + 1
                &&& final(relations)@.drop_last() == old(relations)@
                &&& final(relations)@.last().family@ == family@
                &&& final(relations)@.last().terms@ == n
            },
{
    let ghost t0 = terms@;
    let normalized = normalize_terms(terms, order_map);
    let ghost n = normalized@;
    if normalized.len() == 0 {
        return;
    }
    let key = relation_key(normalized.as_slice());
    let ghost start = relations@;
    let mut i: usize = 0;
    while i < relations.len()
        invariant
            i <= relations@.len(),
            relations@ == start,
            start == old(relations)@,
            is_normalized_terms(order_map@, t0, n),
            t0 == terms@,
            n.len() > 0,
            key@ == relation_key_spec(n),
            forall|t: int| 0 <= t < i ==> #[trigger] relation_key_spec(relations@[t].terms@) != relation_key_spec(n),
        decreases relations@.len() - i,
    {
        let existing = relation_key(relations[i].terms.as_slice());
        if str_eq(existing.as_str(), key.as_str()) {
            proof {
                assert(relation_key_spec(relations@[i as int].terms@) == relation_key_spec(n));
                assert(key_present(relations@, n));
            }
            return;
        }
        i += 1;
    }
    let ghost before = relations@;
    relations.push(SparseRelation { family: family.to_string(), terms: normalized });
    proof {
        assert(relations@.drop_last() =~= before);
    }
}


/// The fields of the statistics of one family.
pub open spec fn span_stats_fields(st: SpanStats) -> Seq<Seq<char>> {
    seq![
        st.family@,
        decimal_digits(st.total as nat),
        decimal_digits(st.nonzero as nat),
        decimal_digits(st.trivial as nat),
        decimal_digits(st.rank as nat),
        decimal_digits(st.nullity as nat),
    ]
}

/// Whether the statistics are in the order of their families.
pub open spec fn stats_by_family(stats: Seq<SpanStats>) -> bool {
    forall|i: int, j: int| 0 <= i < j < stats.len() ==> !str_lt((#[trigger] stats[j]).family@, (#[trigger] stats[i]).family@)
}

fn sort_stats_by_family(stats: &mut Vec<SpanStats>)
    ensures
        is_permutation_of(final(stats)@, old(stats)@),
        stats_by_family(final(stats)@),
{
    let n = stats.len();
    let ghost orig = stats@;
    let ghost mut f: Seq<int> = Seq::new(n as nat, |t: int| t);
    let mut i: usize = 0;
    while i < n
        invariant
            n == stats@.len(),
            orig.len() == n,
            i <= n,
            f.len() == n,
            forall|t: int| 0 <= t < n ==> 0 <= #[trigger] f[t] < n && stats@[t] == orig[f[t]],
            forall|s: int, t: int| 0 <= s < t < n ==> #[trigger] f[s] != #[trigger] f[t],
            forall|a: int, b: int| 0 <= a < i && a <= b < n ==> !str_lt((#[trigger] stats@[b]).family@, (#[trigger] stats@[a]).family@),
        decreases n - i,
    {
        let mut m: usize = i;
        let mut k: usize = i + 1;
        proof {
            crate::text::lemma_str_lt_irrefl_asym(stats@[i as int].family@, stats@[i as int].family@);
        }
        while k < n
            invariant
                n == stats@.len(),
                i <= m < n,
                i < k <= n,
                forall|t: int| i <= t < k ==> !str_lt((#[trigger] stats@[t]).family@, stats@[m as int].family@),
            decreases n - k,
        {
            if str_less(stats[k].family.as_str(), stats[m].family.as_str()) {
                proof {
                    assert forall|t: int| i <= t < k + 1 implies !str_lt((#[trigger] stats@[t]).family@, stats@[k as int].family@) by {
                        crate::text::lemma_str_lt_irrefl_asym(stats@[t].family@, stats@[k as int].family@);
                        if str_lt(stats@[t].family@, stats@[k as int].family@) {
                            crate::text::lemma_str_lt_trans(stats@[t].family@, stats@[k as int].family@, stats@[m as int].family@);
                        }
                    }
                }
                m = k;
            }
            k += 1;
        }
        let ghost before = stats@;
        let placeholder = SpanStats { family: String::new(), total: 0, nonzero: 0, trivial: 0, rank: 0, nullity: 0 };
        swap_entries(stats, i, m, placeholder);
        proof {
            let f0 = f;
            f = f.update(i as int, f0[m as int]).update(m as int, f0[i as int]);
            assert forall|t: int| 0 <= t < n implies 0 <= #[trigger] f[t] < n && stats@[t] == orig[f[t]] by {
                if t != i && t != m {
                    assert(f[t] == f0[t]);
                }
            }
            assert forall|s: int, t: int| 0 <= s < t < n implies #[trigger] f[s] != #[trigger] f[t] by {
                let fs = if s == i { m as int } else if s == m { i as int } else { s };
                let ft = if t == i { m as int } else if t == m { i as int } else { t };
                assert(f[s] == f0[fs]);
                assert(f[t] == f0[ft]);
                if fs < ft {
                } else {
                    assert(f0[ft] != f0[fs]);
                }
            }
            assert forall|a: int, b: int| 0 <= a < i + 1 && a <= b < n implies !str_lt((#[trigger] stats@[b]).family@, (#[trigger] stats@[a]).family@) by {
                let fb = if b == i { m as int } else if b == m { i as int } else { b };
                assert(stats@[b] == before[fb]);
                if a < i {
                    assert(stats@[a] == before[a]);
                } else {
                    assert(stats@[a] == before[m as int]);
                }
            }
        }
        i += 1;
    }
    proof {
        assert(is_permutation_of(stats@, orig)) by {
            assert(f.len() == stats@.len());
        }
    }
}

fn copy_stats(st: &SpanStats) -> (r: SpanStats)
    ensures
        r.family@ == st.family@,
        r.total == st.total,
        r.nonzero == st.nonzero,
        r.trivial == st.trivial,
        r.rank == st.rank,
        r.nullity == st.nullity,
{
    SpanStats {
        family: st.family.clone(),
        total: st.total,
        nonzero: st.nonzero,
        trivial: st.trivial,
        rank: st.rank,
        nullity: st.nullity,
    }
}

/// The statistics of each family as CSV, in the order of the families.
pub fn render_span_stats_csv(stats: &[SpanStats]) -> (r: String)
    ensures
        exists|sorted: Seq<SpanStats>|
            #![trigger stats_by_family(sorted)]
            sorted.len() == stats@.len() && stats_by_family(sorted) && (exists|f: Seq<int>|
                #![trigger f.len()]
                f.len() == sorted.len() && (forall|t: int| 0 <= t < f.len() ==> 0 <= #[trigger] f[t] < stats@.len()
                    && span_stats_fields(sorted[t]) == span_stats_fields(stats@[f[t]])) && (forall|s: int, t: int|
                    0 <= s < t < f.len() ==> #[trigger] f[s] != #[trigger] f[t])) && r@ == csv_table(
                seq!["family"@, "total"@, "nonzero"@, "trivial"@, "rank"@, "nullity"@],
                sorted.map_values(|st: SpanStats| span_stats_fields(st)),
            ),
{
    let mut rows: Vec<SpanStats> = Vec::with_capacity(stats.len());
    let mut i: usize = 0;
    while i < stats.len()
        invariant
            i <= stats@.len(),
            rows@.len() == i,
            forall|t: int| 0 <= t < i ==> span_stats_fields(#[trigger] rows@[t]) == span_stats_fields(stats@[t]) && rows@[t].family@
                == stats@[t].family@,
        decreases stats@.len() - i,
    {
        rows.push(copy_stats(&stats[i]));
        i += 1;
    }
    let ghost copied = rows@;
    sort_stats_by_family(&mut rows);
    let header = vec![
        String::from_str("family"),
        String::from_str("total"),
        String::from_str("nonzero"),
        String::from_str("trivial"),
        String::from_str("rank"),
        String::from_str("nullity"),
    ];
    let mut table: Vec<Vec<String>> = Vec::with_capacity(rows.len());
    let mut j: usize = 0;
    while j < rows.len()
        invariant
            j <= rows@.len(),
            table@.len() == j,
            forall|t: int| 0 <= t < j ==> strings_view((#[trigger] table@[t])@) == span_stats_fields(rows@[t]),
        decreases rows@.len() - j,
    {
        let st = &rows[j];
        let fields = vec![
            st.family.clone(),
            u64_to_text(st.total as u64),
            u64_to_text(st.nonzero as u64),
            u64_to_text(st.trivial as u64),
            u64_to_text(st.rank as u64),
            u64_to_text(st.nullity as u64),
        ];
        proof {
            assert(strings_view(fields@) =~= span_stats_fields(rows@[j as int]));
        }
        table.push(fields);
        j += 1;
    }
    let out = render_rows(&header, &table);
    proof {
        assert(strings_view(header@) =~= seq!["family"@, "total"@, "nonzero"@, "trivial"@, "rank"@, "nullity"@]);
        assert(rows_view(table@) =~= rows@.map_values(|st: SpanStats| span_stats_fields(st)));
        let f = choose|f: Seq<int>|
            #![trigger f.len()]
            f.len() == rows@.len() && (forall|t: int| 0 <= t < f.len() ==> 0 <= #[trigger] f[t] < copied.len() && rows@[t] == copied[f[t]])
                && (forall|s: int, t: int| 0 <= s < t < f.len() ==> #[trigger] f[s] != #[trigger] f[t]);
        assert forall|t: int| 0 <= t < f.len() implies 0 <= #[trigger] f[t] < stats@.len() && span_stats_fields(rows@[t])
            == span_stats_fields(stats@[f[t]]) by {
            assert(rows@[t] == copied[f[t]]);
        }
        assert(stats_by_family(rows@));
    }
    out
}

/// One cell `c*id` of the relation table, or empty past the last term.
pub open spec fn term_cell(terms: Seq<(i32, String)>, k: int) -> Seq<char> {
    if k < terms.len() {
        relation_term(terms[k])
    } else {
        Seq::empty()
    }
}

/// The fields of a relation: family, support size, and its first four terms.
pub open spec fn relation_fields(rel: SparseRelation) -> Seq<Seq<char>> {
    seq![
        rel.family@,
        decimal_digits(rel.terms@.len()),
        term_cell(rel.terms@, 0),
        term_cell(rel.terms@, 1),
        term_cell(rel.terms@, 2),
        term_cell(rel.terms@, 3),
    ]
}

fn term_cell_text(terms: &Vec<(i32, String)>, k: usize) -> (r: String)
    ensures
        r@ == term_cell(terms@, k as int),
{
    if k < terms.len() {
        let mut out = i64_to_text(terms[k].0 as i64);
        push_char(&mut out, '*');
        out.append(terms[k].1.as_str());
        out
    } else {
        String::new()
    }
}

/// The sparse relations as CSV.
pub fn render_span_deps_csv(relations: &[SparseRelation]) -> (r: String)
    ensures
        r@ == csv_table(
            seq!["family"@, "support"@, "term1"@, "term2"@, "term3"@, "term4"@],
            relations@.map_values(|rel: SparseRelation| relation_fields(rel)),
        ),
{
    let header = vec![
        String::from_str("family"),
        String::from_str("support"),
        String::from_str("term1"),
        String::from_str("term2"),
        String::from_str("term3"),
        String::from_str("term4"),
    ];
    let mut table: Vec<Vec<String>> = Vec::with_capacity(relations.len());
    let mut j: usize = 0;
    while j < relations.len()
        invariant
            j <= relations@.len(),
            table@.len() == j,
            forall|t: int| 0 <= t < j ==> strings_view((#[trigger] table@[t])@) == relation_fields(relations@[t]),
        decreases relations@.len() - j,
    {
        let rel = &relations[j];
        let fields = vec![
            rel.family.clone(),
            u64_to_text(rel.terms.len() as u64),
            term_cell_text(&rel.terms, 0),
            term_cell_text(&rel.terms, 1),
            term_cell_text(&rel.terms, 2),
            term_cell_text(&rel.terms, 3),
        ];
        proof {
            assert(strings_view(fields@) =~= relation_fields(relations@[j as int]));
        }
        table.push(fields);
        j += 1;
    }
    let out = render_rows(&header, &table);
    proof {
        assert(strings_view(header@) =~= seq!["family"@, "support"@, "term1"@, "term2"@, "term3"@, "term4"@]);
        assert(rows_view(table@) =~= relations@.map_values(|rel: SparseRelation| relation_fields(rel)));
    }
    out
}

/// The coefficients joined by `;`.
pub open spec fn coeff_list(coeffs: Seq<i64>) -> Seq<char>
    decreases coeffs.len(),
{
    if coeffs.len() == 0 {
        Seq::empty()
    } else if coeffs.len() == 1 {
        int_text(coeffs[0] as int)
    } else {
        coeff_list(coeffs.drop_last()) + seq![';'] + int_text(coeffs.last() as int)
    }
}

fn coeff_list_text(coeffs: &Vec<i64>) -> (r: String)
    ensures
        r@ == coeff_list(coeffs@),
{
    let mut out = String::new();
    let mut i: usize = 0;
    while i < coeffs.len()
        invariant
            i <= coeffs@.len(),
            out@ == coeff_list(coeffs@.subrange(0, i as int)),
        decreases coeffs@.len() - i,
    {
        let ghost before = out@;
        if i > 0 {
            push_char(&mut out, ';');
        }
        out.append(i64_to_text(coeffs[i]).as_str());
        proof {
            let q = coeffs@.subrange(0, i + 1);
            assert(q.drop_last() =~= coeffs@.subrange(0, i as int));
            if i == 0 {
                assert(out@ =~= int_text(q[0] as int));
            } else {
                assert(out@ =~= before + seq![';'] + int_text(q.last() as int));
            }
        }
        i += 1;
    }
    proof {
        assert(coeffs@.subrange(0, coeffs@.len() as int) =~= coeffs@);
    }
    out
}

/// The fields of a basis expansion.
pub open spec fn expansion_fields(e: BasisExpansion) -> Seq<Seq<char>> {
    seq![e.family@, e.key@, int_text(e.prime as int), coeff_list(e.coeffs@)]
}

/// The basis expansions as CSV.
pub fn render_basis_expansions_csv(expansions: &[BasisExpansion]) -> (r: String)
    ensures
        r@ == csv_table(
            seq!["family"@, "key"@, "prime"@, "coeffs"@],
            expansions@.map_values(|e: BasisExpansion| expansion_fields(e)),
        ),
{
    let header = vec![String::from_str("family"), String::from_str("key"), String::from_str("prime"), String::from_str("coeffs")];
    let mut table: Vec<Vec<String>> = Vec::with_capacity(expansions.len());
    let mut j: usize = 0;
    while j < expansions.len()
        invariant
            j <= expansions@.len(),
            table@.len() == j,
            forall|t: int| 0 <= t < j ==> strings_view((#[trigger] table@[t])@) == expansion_fields(expansions@[t]),
        decreases expansions@.len() - j,
    {
        let e = &expansions[j];
        let fields = vec![e.family.clone(), e.key.clone(), i64_to_text(e.prime), coeff_list_text(&e.coeffs)];
        proof {
            assert(strings_view(fields@) =~= expansion_fields(expansions@[j as int]));
        }
        table.push(fields);
        j += 1;
    }
    let out = render_rows(&header, &table);
    proof {
        assert(strings_view(header@) =~= seq!["family"@, "key"@, "prime"@, "coeffs"@]);
        assert(rows_view(table@) =~= expansions@.map_values(|e: BasisExpansion| expansion_fields(e)));
    }
    out
}

} // verus!
