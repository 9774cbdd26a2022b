//! Prefix-suffix sub-blocks of the symbol's Hankel matrix: their ranks modulo
//! primes and the linear dependencies among their rows and columns.
use crate::error::ExperimentError;
use crate::kze2::linalg::swap_entries;
use crate::linear_mod::{
    inverses_ok, ints, lemma_elim_equiv, lemma_row_dot_congruent, lemma_row_dot_elim, lemma_row_dot_scale,
    lemma_row_dot_single, lemma_row_dot_zero, lemma_scale_equiv, row_dot, solves, solves_aug,
};
use crate::modular::{lemma_mod_ops, lemma_small, pow};
use crate::rank_scan::rank::{
    all_zero, primes_ok, copy_matrix_i64, rank_and_basis_mod_p, eliminate_row_mod, matrix_to_mod, mod_i64, mod_inv, prime_ok, rank_mod_p,
    rank_spec, rectangular, rectangular_rat, reduced_matrix, residue, scale_row_mod, unusable_matrix, MAX_PRIME,
};
use crate::rank_scan::span::{imat, in_row_span, lemma_span_empty, lemma_span_solves};
use crate::rank_scan::Rational;
use crate::output::{csv_field, escape_csv_field};
use crate::rank_scan::solve::add_rat;
use crate::rational::{is_normalized_of, rational_add, rational_from_integer, rational_new};
use crate::text::{
    decimal_digits, i64_to_text, index_of, int_text, parse_i64, u64_to_text, parse_signed_spec, parse_unsigned_spec, parse_usize_opt, push_char, split_on,
    split_once, split_spec, str_eq, str_less, str_lt, strings_view, strip_prefix, trim, trim_spec,
};
use vstd::prelude::*;
use vstd::string::StrSliceExecFns;

verus! {

/// Where the observables come from and what to compute from them.
#[derive(Clone, Debug)]
pub struct EsymbHankelSubblockConfig {
    pub input: String,
    pub out_dir: String,
    pub r: usize,
    pub k: usize,
    pub loops: Option<Vec<usize>>,
    pub primes: Vec<i64>,
    pub exact: bool,
}

/// The size and rank of one sub-block at one loop order.
#[derive(Clone, Copy, Debug)]
pub struct HankelSubblockStats {
    pub loop_index: usize,
    pub nrows: usize,
    pub ncols: usize,
    pub rank_mod_p: usize,
}

/// One row (or column) written as a combination of basis rows modulo `prime`.
#[derive(Clone, Debug)]
pub struct HankelDependency {
    pub loop_index: usize,
    pub prime: i64,
    pub id: String,
    pub terms: Vec<(i64, String)>,
}

/// What the sub-block analysis found.
#[derive(Clone, Debug)]
pub struct HankelSubblockReport {
    pub loops: Vec<usize>,
    pub stats: Vec<HankelSubblockStats>,
    pub row_deps: Vec<HankelDependency>,
    pub col_deps: Vec<HankelDependency>,
    pub nrows: usize,
    pub ncols: usize,
}

/// `"cL"` followed by a loop order, with white space around.
pub open spec fn loop_field_spec(value: Seq<char>) -> Option<int> {
    let t = trim_spec(value);
    if t.len() >= 2 && t[0] == 'c' && t[1] == 'L' {
        parse_unsigned_spec(t.subrange(2, t.len() as int), usize::MAX as int)
    } else {
        None
    }
}

/// The loop order of a column named `cL<n>`.
pub fn parse_loop_field(value: &str) -> (r: Option<usize>)
    ensures
        match loop_field_spec(value@) {
            Some(v) => r == Some(v as usize),
            None => r is None,
        },
        r matches Some(x) ==> loop_field_spec(value@) == Some(x as int),
{
    let trimmed = trim(value);
    let prefix = "cL";
    proof {
        reveal_strlit("cL");
    }
    match strip_prefix(trimmed.as_str(), prefix) {
        Some(rest) => {
            proof {
                let t = trim_spec(value@);
                assert(prefix@ =~= seq!['c', 'L']);
                assert(t.subrange(0, 2)[0] == t[0]);
                assert(t.subrange(0, 2)[1] == t[1]);
            }
            parse_usize_opt(rest.as_str())
        },
        None => {
            proof {
                let t = trim_spec(value@);
                if t.len() >= 2 && t[0] == 'c' && t[1] == 'L' {
                    assert(t.subrange(0, 2) =~= prefix@);
                }
            }
            None
        },
    }
}

/// The fields of a CSV line, read from position `i` on: inside quotes a doubled
/// quote is a quote; `None` when a quote is left open.
pub open spec fn csv_scan(s: Seq<char>, i: int, in_quotes: bool, fields: Seq<Seq<char>>, cur: Seq<char>) -> Option<
    Seq<Seq<char>>,
>
    decreases s.len() - i,
{
    if i < 0 || i >= s.len() {
        if in_quotes {
            None
        } else {
            Some(fields.push(cur))
        }
    } else {
        let ch = s[i];
        if in_quotes {
            if ch == '"' {
                if i + 1 < s.len() && s[i + 1] == '"' {
                    csv_scan(s, i + 2, true, fields, cur.push('"'))
                } else {
                    csv_scan(s, i + 1, false, fields, cur)
                }
            } else {
                csv_scan(s, i + 1, true, fields, cur.push(ch))
            }
        } else if ch == '"' {
            csv_scan(s, i + 1, true, fields, cur)
        } else if ch == ',' {
            csv_scan(s, i + 1, false, fields.push(cur), Seq::empty())
        } else {
            csv_scan(s, i + 1, false, fields, cur.push(ch))
        }
    }
}

/// The fields of one CSV line.
pub fn parse_csv_line(line: &str) -> (r: Result<Vec<String>, ExperimentError>)
    ensures
        match csv_scan(line@, 0, false, Seq::empty(), Seq::empty()) {
            Some(f) => r matches Ok(v) && strings_view(v@) == f,
            None => r is Err,
        },
{
    let n = line.unicode_len();
    let mut fields: Vec<String> = Vec::new();
    let mut current = String::new();
    let mut in_quotes = false;
    let mut i: usize = 0;
    proof {
        assert(strings_view(fields@) =~= Seq::<Seq<char>>::empty());
        assert(current@ =~= Seq::<char>::empty());
    }
    while i < n
        invariant
            n == line@.len(),
            i <= n,
            csv_scan(line@, i as int, in_quotes, strings_view(fields@), current@) == csv_scan(
                line@,
                0,
                false,
                Seq::empty(),
                Seq::empty(),
            ),
        decreases n - i,
    {
        let ch = line.get_char(i);
        if in_quotes {
            if ch == '"' {
                if i + 1 < n && line.get_char(i + 1) == '"' {
                    push_char(&mut current, '"');
                    i += 2;
                } else {
                    in_quotes = false;
                    i += 1;
                }
            } else {
                push_char(&mut current, ch);
                i += 1;
            }
        } else if ch == '"' {
            in_quotes = true;
            i += 1;
        } else if ch == ',' {
            let done = current;
            proof {
                crate::text::lemma_strings_view_push(fields@, done);
            }
            fields.push(done);
            current = String::new();
            proof {
                assert(current@ =~= Seq::<char>::empty());
            }
            i += 1;
        } else {
            push_char(&mut current, ch);
            i += 1;
        }
    }
    if in_quotes {
        return Err(ExperimentError::InvalidConfig("observables CSV has unterminated quote".to_string()));
    }
    proof {
        crate::text::lemma_strings_view_push(fields@, current);
    }
    fields.push(current);
    Ok(fields)
}

/// What has been read of `r=..,k=..,u=..,v=..` so far.
pub struct ParamsSoFar {
    pub r: Option<usize>,
    pub k: Option<usize>,
    pub u: Option<String>,
}

/// The `key=value` settings of a params field from part `i` on: blank parts and
/// parts without `=` are skipped, later settings win, other keys are ignored;
/// `None` when `r` or `k` is not a number or one of the four is missing.
pub open spec fn params_scan(
    parts: Seq<Seq<char>>,
    i: int,
    r: Option<int>,
    k: Option<int>,
    u: Option<Seq<char>>,
    v: Option<Seq<char>>,
) -> Option<(int, int, Seq<char>, Seq<char>)>
    decreases parts.len() - i,
{
    if i < 0 || i >= parts.len() {
        match (r, k, u, v) {
            (Some(r), Some(k), Some(u), Some(v)) => Some((r, k, u, v)),
            _ => None,
        }
    } else {
        let t = trim_spec(parts[i]);
        let eq = index_of(t, '=');
        if t.len() == 0 || eq < 0 {
            params_scan(parts, i + 1, r, k, u, v)
        } else {
            let key = trim_spec(t.subrange(0, eq));
            let value = trim_spec(t.subrange(eq + 1, t.len() as int));
            if key == seq!['r'] {
                match parse_unsigned_spec(value, usize::MAX as int) {
                    Some(x) => params_scan(parts, i + 1, Some(x), k, u, v),
                    None => None,
                }
            } else if key == seq!['k'] {
                match parse_unsigned_spec(value, usize::MAX as int) {
                    Some(x) => params_scan(parts, i + 1, r, Some(x), u, v),
                    None => None,
                }
            } else if key == seq!['u'] {
                params_scan(parts, i + 1, r, k, Some(value), v)
            } else if key == seq!['v'] {
                params_scan(parts, i + 1, r, k, u, Some(value))
            } else {
                params_scan(parts, i + 1, r, k, u, v)
            }
        }
    }
}

/// The prefix length, suffix length, prefix and suffix named in a params field.
pub open spec fn params_spec(params: Seq<char>) -> Option<(int, int, Seq<char>, Seq<char>)> {
    params_scan(split_spec(params, ','), 0, None, None, None, None)
}

spec fn opt_int(x: Option<usize>) -> Option<int> {
    match x {
        Some(v) => Some(v as int),
        None => None,
    }
}

spec fn opt_view(x: Option<String>) -> Option<Seq<char>> {
    match x {
        Some(v) => Some(v@),
        None => None,
    }
}

fn params_error(what: &str, params: &str) -> (r: String)
    ensures
        r@ == what@ + " in params: "@ + params@,
{
    let mut msg = String::new();
    msg.append(what);
    msg.append(" in params: ");
    msg.append(params);
    proof {
        assert(msg@ =~= what@ + " in params: "@ + params@);
    }
    msg
}

/// Reads `r=<n>,k=<n>,u=<word>,v=<word>`.
pub fn parse_params(params: &str) -> (res: Result<(usize, usize, String, String), ExperimentError>)
    ensures
        match params_spec(params@) {
            Some(t) => res matches Ok(x) && x.0 as int == t.0 && x.1 as int == t.1 && x.2@ == t.2 && x.3@ == t.3,
            None => res is Err,
        },
{
    let parts = split_on(params, ',');
    let ghost pv = strings_view(parts@);
    let mut r: Option<usize> = None;
    let mut k: Option<usize> = None;
    let mut u: Option<String> = None;
    let mut v: Option<String> = None;
    let mut i: usize = 0;
    while i < parts.len()
        invariant
            pv == strings_view(parts@),
            pv == split_spec(params@, ','),
            i <= parts@.len(),
            params_scan(pv, i as int, opt_int(r), opt_int(k), opt_view(u), opt_view(v)) == params_spec(params@),
        decreases parts@.len() - i,
    {
        let trimmed = trim(parts[i].as_str());
        proof {
            assert(pv[i as int] == parts@[i as int]@);
        }
        if trimmed.unicode_len() == 0 {
            i += 1;
            continue;
        }
        let ghost (r0, k0, u0, v0) = (opt_int(r), opt_int(k), opt_view(u), opt_view(v));
        match split_once(trimmed.as_str(), '=') {
            None => {
                i += 1;
                continue;
            },
            Some((key_raw, value_raw)) => {
                let key = trim(key_raw.as_str());
                let value = trim(value_raw.as_str());
                proof {
                    reveal_strlit("r");
                    reveal_strlit("k");
                    reveal_strlit("u");
                    reveal_strlit("v");
                    assert("r"@ =~= seq!['r']);
                    assert("k"@ =~= seq!['k']);
                    assert("u"@ =~= seq!['u']);
                    assert("v"@ =~= seq!['v']);
                    let t = trimmed@;
                    let eq = index_of(t, '=');
                    assert(t == trim_spec(pv[i as int]));
                    assert(t.len() > 0 && eq >= 0);
                    assert(key@ == trim_spec(t.subrange(0, eq)));
                    assert(value@ == trim_spec(t.subrange(eq + 1, t.len() as int)));
                }
                if str_eq(key.as_str(), "r") {
                    match parse_usize_opt(value.as_str()) {
                        Some(x) => {
                            r = Some(x);
                        },
                        None => {
                            return Err(ExperimentError::InvalidConfig(params_error("invalid r", params)));
                        },
                    }
                } else if str_eq(key.as_str(), "k") {
                    match parse_usize_opt(value.as_str()) {
                        Some(x) => {
                            k = Some(x);
                        },
                        None => {
                            return Err(ExperimentError::InvalidConfig(params_error("invalid k", params)));
                        },
                    }
                } else if str_eq(key.as_str(), "u") {
                    u = Some(value);
                } else if str_eq(key.as_str(), "v") {
                    v = Some(value);
                }
                proof {
                    assert(params_scan(pv, i as int, r0, k0, u0, v0) == params_scan(
                        pv,
                        i + 1,
                        opt_int(r),
                        opt_int(k),
                        opt_view(u),
                        opt_view(v),
                    ));
                }
                i += 1;
            },
        }
    }
    match (r, k, u, v) {
        (Some(r), Some(k), Some(u), Some(v)) => Ok((r, k, u, v)),
        (None, _, _, _) => Err(ExperimentError::InvalidConfig(params_error("missing r", params))),
        (_, None, _, _) => Err(ExperimentError::InvalidConfig(params_error("missing k", params))),
        (_, _, None, _) => Err(ExperimentError::InvalidConfig(params_error("missing u", params))),
        (_, _, _, None) => Err(ExperimentError::InvalidConfig(params_error("missing v", params))),
    }
}

/// A coefficient written `n` or `n/d` (with white space allowed around the
/// parts), in lowest terms; `None` when it is malformed or `d` is zero.
pub open spec fn coeff_spec(text: Seq<char>) -> Option<Rational> {
    let t = trim_spec(text);
    let slash = index_of(t, '/');
    if t.len() == 0 {
        None
    } else if slash >= 0 {
        match (
            parse_signed_spec(trim_spec(t.subrange(0, slash))),
            parse_signed_spec(trim_spec(t.subrange(slash + 1, t.len() as int))),
        ) {
            (Some(n), Some(d)) => if d == 0 || n == i64::MIN || d == i64::MIN {
                None
            } else {
                Some(choose|q: Rational| is_normalized_of(q, n, d))
            },
            _ => None,
        }
    } else {
        match parse_signed_spec(t) {
            Some(n) => Some(Rational { numer: n as i64, denom: 1 }),
            None => None,
        }
    }
}

/// Reads one coefficient of the observables table.
pub fn parse_coeff(text: &str) -> (r: Result<Rational, ExperimentError>)
    ensures
        match coeff_spec(text@) {
            Some(q) => r == Ok::<Rational, ExperimentError>(q),
            None => r is Err,
        },
{
    let trimmed = trim(text);
    if trimmed.unicode_len() == 0 {
        return Err(ExperimentError::InvalidConfig("empty coeff in observables CSV".to_string()));
    }
    match split_once(trimmed.as_str(), '/') {
        Some((num, denom)) => {
            let num_t = trim(num.as_str());
            let denom_t = trim(denom.as_str());
            let n = parse_i64(num_t.as_str());
            let d = parse_i64(denom_t.as_str());
            match (n, d) {
                (Some(n), Some(d)) => {
                    proof {
                        let t = trimmed@;
                        let slash = index_of(t, '/');
                        assert(num_t@ == trim_spec(t.subrange(0, slash)));
                        assert(denom_t@ == trim_spec(t.subrange(slash + 1, t.len() as int)));
                    }
                    if d == 0 || n == i64::MIN || d == i64::MIN {
                        return Err(ExperimentError::InvalidConfig("zero denominator in coeff".to_string()));
                    }
                    let q = rational_new(n, d);
                    proof {
                        let w = choose|x: Rational| is_normalized_of(x, n as int, d as int);
                        assert(is_normalized_of(q, n as int, d as int));
                        assert(w == q);
                    }
                    Ok(q)
                },
                _ => Err(ExperimentError::InvalidConfig("invalid coeff".to_string())),
            }
        },
        None => match parse_i64(trimmed.as_str()) {
            Some(n) => Ok(rational_from_integer(n)),
            None => Err(ExperimentError::InvalidConfig("invalid coeff".to_string())),
        },
    }
}


/// The transpose of a matrix whose rows are no longer than its first one;
/// missing entries of shorter rows read as zero.
pub fn transpose_mod_p(matrix: &[Vec<i64>]) -> (r: Vec<Vec<i64>>)
    requires
        forall|i: int| 0 <= i < matrix@.len() ==> #[trigger] matrix@[i]@.len() <= matrix@[0]@.len(),
    ensures
        matrix@.len() == 0 ==> r@.len() == 0,
        matrix@.len() > 0 ==> r@.len() == matrix@[0]@.len(),
        forall|j: int| 0 <= j < r@.len() ==> #[trigger] r@[j]@.len() == matrix@.len(),
        forall|j: int, i: int|
            0 <= j < r@.len() && 0 <= i < matrix@.len() ==> #[trigger] r@[j]@[i] == if j < matrix@[i]@.len() {
                matrix@[i]@[j]
            } else {
                0
            },
{
    if matrix.len() == 0 {
        return Vec::new();
    }
    let nrows = matrix.len();
    let ncols = matrix[0].len();
    let mut out: Vec<Vec<i64>> = Vec::with_capacity(ncols);
    let mut j: usize = 0;
    while j < ncols
        invariant
            nrows == matrix@.len(),
            nrows > 0,
            ncols == matrix@[0]@.len(),
            forall|i: int| 0 <= i < matrix@.len() ==> #[trigger] matrix@[i]@.len() <= ncols,
            j <= ncols,
            out@.len() == j,
            forall|t: int| 0 <= t < j ==> #[trigger] out@[t]@.len() == nrows,
            forall|t: int, i: int|
                0 <= t < j && 0 <= i < nrows ==> #[trigger] out@[t]@[i] == if t < matrix@[i]@.len() {
                    matrix@[i]@[t]
                } else {
                    0
                },
        decreases ncols - j,
    {
        let mut col: Vec<i64> = Vec::with_capacity(nrows);
        let mut i: usize = 0;
        while i < nrows
            invariant
                nrows == matrix@.len(),
                j < ncols,
                i <= nrows,
                col@.len() == i,
                forall|t: int| 0 <= t < i ==> #[trigger] col@[t] == if j < matrix@[t]@.len() {
                    matrix@[t]@[j as int]
                } else {
                    0
                },
            decreases nrows - i,
        {
            if j < matrix[i].len() {
                col.push(matrix[i][j]);
            } else {
                col.push(0);
            }
            i += 1;
        }
        out.push(col);
        j += 1;
    }
    out
}

/// The indices of the rows that Gaussian elimination modulo `p` picks as
/// pivots, in the order it picks them; for a prime `p` they span every row.
pub fn row_basis_indices_mod_p(matrix: &[Vec<i64>], p: i64) -> (r: Vec<usize>)
    requires
        prime_ok(p as int),
        matrix@.len() > 0 ==> rectangular(matrix@, matrix@[0]@.len() as int),
        reduced_matrix(matrix@, p as int),
    ensures
        r@.len() <= matrix@.len(),
        matrix@.len() > 0 ==> r@.len() <= matrix@[0]@.len(),
        forall|a: int| 0 <= a < r@.len() ==> #[trigger] r@[a] < matrix@.len(),
        forall|a: int, b: int| 0 <= a < b < r@.len() ==> #[trigger] r@[a] != #[trigger] r@[b],
        r@.len() == 0 <==> all_zero(matrix@),
        inverses_ok(p as int) ==> r@.len() == rank_spec(matrix@, p as int),
        inverses_ok(p as int) ==> forall|i: int|
            0 <= i < matrix@.len() ==> #[trigger] in_row_span(imat(matrix@), r@, i, matrix@[0]@.len() as int, p as int),
{
    rank_and_basis_mod_p(matrix, p).1
}


/// Row `i` of `matrix` followed by `rhs[i]`, all reduced modulo `p`.
fn augmented_mod_p(matrix: &[Vec<i64>], rhs: &[i64], p: i64) -> (r: Vec<Vec<i64>>)
    requires
        prime_ok(p as int),
        matrix@.len() > 0,
        rhs@.len() == matrix@.len(),
        rectangular(matrix@, matrix@[0]@.len() as int),
        matrix@[0]@.len() < usize::MAX,
    ensures
        r@.len() == matrix@.len(),
        rectangular(r@, matrix@[0]@.len() + 1int),
        reduced_matrix(r@, p as int),
        forall|i: int, c: int|
            0 <= i < matrix@.len() && 0 <= c < matrix@[0]@.len() ==> #[trigger] r@[i]@[c] == matrix@[i]@[c] as int
                % p as int,
        forall|i: int| 0 <= i < matrix@.len() ==> #[trigger] r@[i]@[matrix@[0]@.len() as int] == rhs@[i] as int % p as int,
{
    let nrows = matrix.len();
    let ncols = matrix[0].len();
    let mut out: Vec<Vec<i64>> = Vec::with_capacity(nrows);
    let mut i: usize = 0;
    while i < nrows
        invariant
            prime_ok(p as int),
            nrows == matrix@.len(),
            rhs@.len() == nrows,
            ncols == matrix@[0]@.len(),
            ncols < usize::MAX,
            rectangular(matrix@, ncols as int),
            i <= nrows,
            out@.len() == i,
            rectangular(out@, ncols + 1int),
            reduced_matrix(out@, p as int),
            forall|t: int, c: int| 0 <= t < i && 0 <= c < ncols ==> #[trigger] out@[t]@[c] == matrix@[t]@[c] as int % p as int,
            forall|t: int| 0 <= t < i ==> #[trigger] out@[t]@[ncols as int] == rhs@[t] as int % p as int,
        decreases nrows - i,
    {
        let mut row: Vec<i64> = Vec::with_capacity(ncols + 1);
        let mut c: usize = 0;
        while c < ncols
            invariant
                prime_ok(p as int),
                i < nrows,
                nrows == matrix@.len(),
                ncols == matrix@[0]@.len(),
                rectangular(matrix@, ncols as int),
                c <= ncols,
                row@.len() == c,
                forall|t: int| 0 <= t < c ==> 0 <= #[trigger] row@[t] < p,
                forall|t: int| 0 <= t < c ==> #[trigger] row@[t] == matrix@[i as int]@[t] as int % p as int,
            decreases ncols - c,
        {
            assert(matrix@[i as int]@.len() == ncols);
            row.push(mod_i64(matrix[i][c], p));
            c += 1;
        }
        row.push(mod_i64(rhs[i], p));
        out.push(row);
        i += 1;
    }
    out
}

/// Row `i` is the pivot row of one of the first `col` columns.
pub open spec fn is_pivot_row(pivot_rows: Seq<Option<usize>>, col: int, i: int) -> bool {
    exists|q: int| 0 <= q < col && #[trigger] pivot_rows[q] == Some(i as usize)
}

/// A solution `x` of `matrix * x = rhs` modulo `p` by Gauss-Jordan elimination,
/// zero at the free columns; `None` when elimination leaves a row `0 = c` with
/// `c` nonzero, or when there are no rows or `rhs` has another length. For a
/// prime `p` (where `v^(p-2)` inverts `v`), a returned vector solves the system
/// and `None` means that nothing does.
pub fn solve_linear_system_mod_p(matrix: &[Vec<i64>], rhs: &[i64], p: i64) -> (r: Option<Vec<i64>>)
    requires
        prime_ok(p as int),
        matrix@.len() > 0 ==> rectangular(matrix@, matrix@[0]@.len() as int),
        matrix@.len() > 0 ==> matrix@[0]@.len() < usize::MAX,
    ensures
        (matrix@.len() == 0 || rhs@.len() != matrix@.len()) ==> r is None,
        r matches Some(x) ==> x@.len() == matrix@[0]@.len() && forall|c: int| 0 <= c < x@.len() ==> 0 <= #[trigger] x@[c] < p,
        inverses_ok(p as int) ==> (r matches Some(x) ==> solves(matrix@, rhs@, ints(x@), matrix@[0]@.len() as int, p as int)),
        (inverses_ok(p as int) && matrix@.len() > 0 && rhs@.len() == matrix@.len() && r is None) ==> forall|x: Seq<int>|
            !#[trigger] solves(matrix@, rhs@, x, matrix@[0]@.len() as int, p as int),
{
    if matrix.len() == 0 {
        return None;
    }
    let nrows = matrix.len();
    let ncols = matrix[0].len();
    if rhs.len() != nrows {
        return None;
    }
    let mut mat = augmented_mod_p(matrix, rhs, p);
    let ghost aug0 = mat@;
    let ghost good = inverses_ok(p as int);
    let ghost pi = p as int;
    let ghost nc = ncols as int;
    proof {
        assert forall|x: Seq<int>| #[trigger] solves_aug(aug0, x, nc, pi) == solves(matrix@, rhs@, x, nc, pi) by {
            assert forall|i: int| 0 <= i < nrows implies #[trigger] row_dot(aug0[i]@, x, nc) % pi == row_dot(
                matrix@[i]@,
                x,
                nc,
            ) % pi && (aug0[i]@[nc] as int) % pi == (rhs@[i] as int) % pi by {
                assert(matrix@[i]@.len() == ncols);
                assert forall|c: int| 0 <= c < nc implies #[trigger] (aug0[i]@[c] as int) % pi == (matrix@[i]@[c] as int) % pi by {
                    lemma_mod_ops(matrix@[i]@[c] as int, 0, pi);
                }
                lemma_row_dot_congruent(aug0[i]@, matrix@[i]@, x, nc, pi);
                lemma_mod_ops(rhs@[i] as int, 0, pi);
            }
            if solves_aug(aug0, x, nc, pi) {
                assert forall|i: int| 0 <= i < matrix@.len() implies #[trigger] row_dot(matrix@[i]@, x, nc) % pi == (rhs@[i] as int) % pi by {
                    assert(row_dot(aug0[i]@, x, nc) % pi == (aug0[i]@[nc] as int) % pi);
                }
            }
            if solves(matrix@, rhs@, x, nc, pi) {
                assert forall|i: int| 0 <= i < aug0.len() implies #[trigger] row_dot(aug0[i]@, x, nc) % pi == (aug0[i]@[nc] as int) % pi by {
                    assert(row_dot(matrix@[i]@, x, nc) % pi == (rhs@[i] as int) % pi);
                }
            }
        }
    }
    let mut pivot_rows: Vec<Option<usize>> = Vec::with_capacity(ncols);
    let mut t: usize = 0;
    while t < ncols
        invariant
            t <= ncols,
            pivot_rows@.len() == t,
            forall|q: int| 0 <= q < t ==> (#[trigger] pivot_rows@[q]) is None,
        decreases ncols - t,
    {
        pivot_rows.push(None);
        t += 1;
    }
    let mut row: usize = 0;
    let mut col: usize = 0;
    while col < ncols
        invariant_except_break
            row < nrows,
        invariant
            prime_ok(p as int),
            pi == p as int,
            nc == ncols as int,
            good == inverses_ok(pi),
            nrows == mat@.len(),
            nrows > 0,
            ncols < usize::MAX,
            rectangular(mat@, ncols + 1int),
            reduced_matrix(mat@, p as int),
            pivot_rows@.len() == ncols,
            col <= ncols,
            row <= nrows,
            row <= col,
            forall|q: int| 0 <= q < ncols ==> (#[trigger] pivot_rows@[q] matches Some(pr) ==> pr < row),
            forall|q: int| col <= q < ncols ==> (#[trigger] pivot_rows@[q]) is None,
            forall|i: int| 0 <= i < row ==> #[trigger] is_pivot_row(pivot_rows@, col as int, i),
            forall|q1: int, q2: int|
                #![trigger pivot_rows@[q1], pivot_rows@[q2]]
                0 <= q1 < q2 < col && pivot_rows@[q1] is Some && pivot_rows@[q2] is Some ==> pivot_rows@[q1]->0 < pivot_rows@[q2]->0,
            forall|q: int, i: int|
                #![trigger mat@[i]@[q], pivot_rows@[q]]
                0 <= q < col && pivot_rows@[q] is None && row <= i < nrows ==> mat@[i]@[q] == 0,
            good ==> forall|q: int, i: int|
                #![trigger mat@[i]@[q], pivot_rows@[q]]
                0 <= q < col && 0 <= i < nrows && pivot_rows@[q] is Some ==> mat@[i]@[q] == (if i == pivot_rows@[q]->0 {
                    1int
                } else {
                    0int
                }),
            good ==> forall|x: Seq<int>| #[trigger] solves_aug(mat@, x, nc, pi) == solves_aug(aug0, x, nc, pi),
        ensures
            col == ncols || row == nrows,
        decreases ncols - col,
    {
        let mut pivot: usize = row;
        while pivot < nrows && mod_i64(mat[pivot][col], p) == 0
            invariant
                nrows == mat@.len(),
                rectangular(mat@, ncols + 1int),
                reduced_matrix(mat@, p as int),
                col < ncols,
                row <= pivot <= nrows,
                prime_ok(p as int),
                forall|i: int| row <= i < pivot ==> #[trigger] mat@[i]@[col as int] == 0,
            decreases nrows - pivot,
        {
            proof {
                lemma_small(mat@[pivot as int]@[col as int] as int, p as int);
            }
            pivot += 1;
        }
        if pivot == nrows {
            proof {
                assert forall|q: int, i: int|
                    #![trigger mat@[i]@[q], pivot_rows@[q]]
                    0 <= q < col + 1 && pivot_rows@[q] is None && row <= i < nrows implies mat@[i]@[q] == 0 by {
                    if q == col {
                        assert(mat@[i]@[col as int] == 0);
                    }
                }
                assert forall|i: int| 0 <= i < row implies #[trigger] is_pivot_row(pivot_rows@, col + 1, i) by {
                    assert(is_pivot_row(pivot_rows@, col as int, i));
                    let q = choose|q: int| 0 <= q < col && #[trigger] pivot_rows@[q] == Some(i as usize);
                    assert(0 <= q < col + 1 && pivot_rows@[q] == Some(i as usize));
                }
            }
            col += 1;
            continue;
        }
        let ghost m0 = mat@;
        swap_entries(&mut mat, row, pivot, Vec::new());
        let ghost m1 = mat@;
        proof {
            assert forall|x: Seq<int>| #[trigger] solves_aug(m1, x, nc, pi) == solves_aug(m0, x, nc, pi) by {
                if solves_aug(m1, x, nc, pi) {
                    assert forall|i: int| 0 <= i < m0.len() implies #[trigger] row_dot(m0[i]@, x, nc) % pi == (m0[i]@[nc] as int) % pi by {
                        let j = if i == row { pivot as int } else if i == pivot { row as int } else { i };
                        assert(m1[j] == m0[i]);
                        assert(row_dot(m1[j]@, x, nc) % pi == (m1[j]@[nc] as int) % pi);
                    }
                }
                if solves_aug(m0, x, nc, pi) {
                    assert forall|i: int| 0 <= i < m1.len() implies #[trigger] row_dot(m1[i]@, x, nc) % pi == (m1[i]@[nc] as int) % pi by {
                        let j = if i == row { pivot as int } else if i == pivot { row as int } else { i };
                        assert(m1[i] == m0[j]);
                        assert(row_dot(m0[j]@, x, nc) % pi == (m0[j]@[nc] as int) % pi);
                    }
                }
            }
        }
        let pivot_val = mod_i64(mat[row][col], p);
        let inv = mod_inv(pivot_val, p);
        proof {
            vstd::arithmetic::div_mod::lemma_mod_bound(pow(pivot_val as int, (p - 2) as nat), p as int);
            assert(m1[row as int]@[col as int] == m0[pivot as int]@[col as int]);
            lemma_small(m1[row as int]@[col as int] as int, pi);
            assert(pivot_val == m1[row as int]@[col as int]);
            assert(pivot_val != 0);
            if p == 2 {
                assert(pow(pivot_val as int, 0) == 1);
                lemma_small(1, 2);
            }
            assert(inv == pow(pivot_val as int, (p - 2) as nat) % pi);
            if good {
                assert(((pow(pivot_val as int, (p - 2) as nat) % pi) * pivot_val) % pi == 1);
            }
            // entries left of the pivot column are zero in the pivot row
            if good {
                assert forall|c: int| 0 <= c < col implies #[trigger] m1[row as int]@[c] == 0 by {
                    assert(m1[row as int] == m0[pivot as int]);
                    if pivot_rows@[c] is None {
                        assert(m0[pivot as int]@[c] == 0);
                    } else {
                        assert(pivot_rows@[c]->0 < row);
                        assert(m0[pivot as int]@[c] == (if pivot as int == pivot_rows@[c]->0 { 1int } else { 0int }));
                    }
                }
            }
        }
        let scaled = scale_row_mod(&mat[row], inv, col, p);
        mat.set(row, scaled);
        let ghost m2 = mat@;
        proof {
            if good {
                assert((inv * pivot_val) % pi == 1) by {
                    assert(inv * pivot_val == (pow(pivot_val as int, (p - 2) as nat) % pi) * pivot_val);
                }
                assert(m2[row as int]@[col as int] == (m1[row as int]@[col as int] * inv) % pi);
                assert(m1[row as int]@[col as int] * inv == inv * pivot_val) by (nonlinear_arith)
                    requires
                        m1[row as int]@[col as int] == pivot_val,
                ;
                let o = m1[row as int]@;
                let sr = m2[row as int]@;
                assert forall|c: int| 0 <= c < nc implies #[trigger] (sr[c] as int) % pi == (o[c] * inv) % pi by {
                    if c < col {
                        assert(o[c] == 0);
                        assert(sr[c] == 0);
                        lemma_small(0, pi);
                        assert(o[c] * inv == 0) by (nonlinear_arith)
                            requires
                                o[c] == 0,
                        ;
                    } else {
                        lemma_mod_ops(o[c] * inv, 0, pi);
                    }
                }
                lemma_mod_ops(o[nc] * inv, 0, pi);
                assert forall|x: Seq<int>| #[trigger] solves_aug(m2, x, nc, pi) == solves_aug(m1, x, nc, pi) by {
                    lemma_row_dot_scale(sr, o, x, nc, inv as int, pi);
                    assert(row_dot(o, x, nc) * inv == inv * row_dot(o, x, nc)) by (nonlinear_arith);
                    assert((o[nc] * inv) == inv * o[nc]) by (nonlinear_arith);
                    lemma_scale_equiv(row_dot(o, x, nc), row_dot(sr, x, nc), o[nc] as int, sr[nc] as int, inv as int, pivot_val as int, pi);
                    if solves_aug(m2, x, nc, pi) {
                        assert forall|i: int| 0 <= i < m1.len() implies #[trigger] row_dot(m1[i]@, x, nc) % pi == (m1[i]@[nc] as int) % pi by {
                            assert(row_dot(m2[i]@, x, nc) % pi == (m2[i]@[nc] as int) % pi);
                            if i != row {
                                assert(m2[i] == m1[i]);
                            }
                        }
                    }
                    if solves_aug(m1, x, nc, pi) {
                        assert forall|i: int| 0 <= i < m2.len() implies #[trigger] row_dot(m2[i]@, x, nc) % pi == (m2[i]@[nc] as int) % pi by {
                            assert(row_dot(m1[i]@, x, nc) % pi == (m1[i]@[nc] as int) % pi);
                            if i != row {
                                assert(m2[i] == m1[i]);
                            }
                        }
                    }
                }
                lemma_small(1, pi);
            }
        }
        let pivot_row_vals = mat[row].clone();
        let mut r: usize = 0;
        while r < nrows
            invariant
                prime_ok(p as int),
                pi == p as int,
                nc == ncols as int,
                good == inverses_ok(pi),
                nrows == mat@.len(),
                rectangular(mat@, ncols + 1int),
                reduced_matrix(mat@, p as int),
                row < nrows,
                col < ncols,
                r <= nrows,
                pivot_row_vals@ == m2[row as int]@,
                mat@[row as int] == m2[row as int],
                pivot_row_vals@.len() == ncols + 1,
                forall|c: int| 0 <= c < ncols + 1 ==> 0 <= #[trigger] pivot_row_vals@[c] < p,
                good ==> forall|c: int| 0 <= c < col ==> #[trigger] pivot_row_vals@[c] == 0,
                good ==> pivot_row_vals@[col as int] == 1,
                forall|i: int| r <= i < nrows ==> #[trigger] mat@[i] == m2[i],
                forall|i: int, c: int| 0 <= i < nrows && 0 <= c < col ==> #[trigger] mat@[i]@[c] == m2[i]@[c],
                good ==> forall|i: int| 0 <= i < r && i != row ==> #[trigger] mat@[i]@[col as int] == 0,
                good ==> forall|x: Seq<int>| #[trigger] solves_aug(mat@, x, nc, pi) == solves_aug(m2, x, nc, pi),
            decreases nrows - r,
        {
            if r != row {
                let factor = mod_i64(mat[r][col], p);
                if factor != 0 {
                    let ghost before = mat@;
                    let next = eliminate_row_mod(&mat[r], &pivot_row_vals, factor, col, p);
                    mat.set(r, next);
                    proof {
                        let o = before[r as int]@;
                        let nr = mat@[r as int]@;
                        let pv = pivot_row_vals@;
                        lemma_small(o[col as int] as int, pi);
                        assert(factor == o[col as int]);
                        if good {
                            assert(nr[col as int] == (o[col as int] - factor * pv[col as int]) % pi);
                            assert(pv[col as int] == 1);
                            assert(factor * pv[col as int] == factor) by (nonlinear_arith)
                                requires
                                    pv[col as int] == 1,
                            ;
                            lemma_small(0, pi);
                            assert(nr[col as int] == 0);
                            assert forall|c: int| 0 <= c <= nc implies #[trigger] (nr[c] as int) % pi == (o[c] - factor * pv[c]) % pi by {
                                if c < col {
                                    assert(pv[c] == 0);
                                    assert(factor * pv[c] == 0) by (nonlinear_arith)
                                        requires
                                            pv[c] == 0,
                                    ;
                                    lemma_small(o[c] as int, pi);
                                } else {
                                    lemma_mod_ops(o[c] - factor * pv[c], 0, pi);
                                }
                            }
                            assert forall|x: Seq<int>| #[trigger] solves_aug(mat@, x, nc, pi) == solves_aug(before, x, nc, pi) by {
                                lemma_row_dot_elim(nr, o, pv, x, nc, factor as int, pi);
                                if solves_aug(mat@, x, nc, pi) {
                                    assert(row_dot(mat@[row as int]@, x, nc) % pi == (mat@[row as int]@[nc] as int) % pi);
                                    lemma_elim_equiv(row_dot(o, x, nc), row_dot(nr, x, nc), row_dot(pv, x, nc), o[nc] as int, nr[nc] as int, pv[nc] as int, factor as int, pi);
                                    assert forall|i: int| 0 <= i < before.len() implies #[trigger] row_dot(before[i]@, x, nc) % pi == (before[i]@[nc] as int) % pi by {
                                        assert(row_dot(mat@[i]@, x, nc) % pi == (mat@[i]@[nc] as int) % pi);
                                        if i != r {
                                            assert(mat@[i] == before[i]);
                                        }
                                    }
                                }
                                if solves_aug(before, x, nc, pi) {
                                    assert(row_dot(before[row as int]@, x, nc) % pi == (before[row as int]@[nc] as int) % pi);
                                    lemma_elim_equiv(row_dot(o, x, nc), row_dot(nr, x, nc), row_dot(pv, x, nc), o[nc] as int, nr[nc] as int, pv[nc] as int, factor as int, pi);
                                    assert forall|i: int| 0 <= i < mat@.len() implies #[trigger] row_dot(mat@[i]@, x, nc) % pi == (mat@[i]@[nc] as int) % pi by {
                                        assert(row_dot(before[i]@, x, nc) % pi == (before[i]@[nc] as int) % pi);
                                        if i != r {
                                            assert(mat@[i] == before[i]);
                                        }
                                    }
                                }
                            }
                        }
                    }
                } else {
                    proof {
                        lemma_small(mat@[r as int]@[col as int] as int, pi);
                    }
                }
            }
            r += 1;
        }
        let ghost pivot_rows_before = pivot_rows@;
        pivot_rows.set(col, Some(row));
        proof {
            assert forall|q: int, i: int|
                #![trigger mat@[i]@[q], pivot_rows@[q]]
                0 <= q < col + 1 && pivot_rows@[q] is None && row + 1 <= i < nrows implies mat@[i]@[q] == 0 by {
                assert(q != col);
                assert(mat@[i]@[q] == m2[i]@[q]);
                assert(m2[i] == m1[i] || i == row);
                assert(m1[i]@[q] == m0[if i == pivot { row as int } else { i }]@[q]);
            }
            if good {
                assert forall|q: int, i: int|
                    #![trigger mat@[i]@[q], pivot_rows@[q]]
                    0 <= q < col + 1 && 0 <= i < nrows && pivot_rows@[q] is Some implies mat@[i]@[q] == (if i == pivot_rows@[q]->0 {
                        1int
                    } else {
                        0int
                    }) by {
                    if q == col {
                        if i == row {
                            assert(mat@[i] == m2[i]);
                        }
                    } else {
                        assert(mat@[i]@[q] == m2[i]@[q]);
                        if i == row {
                            assert(m2[i]@[q] == m1[i]@[q]);
                            assert(m1[i] == m0[pivot as int]);
                        } else {
                            assert(m2[i] == m1[i]);
                            assert(m1[i] == m0[if i == pivot { row as int } else { i }]);
                        }
                    }
                }
            }
            assert forall|i: int| 0 <= i < row + 1 implies #[trigger] is_pivot_row(pivot_rows@, col + 1, i) by {
                if i == row {
                    assert(pivot_rows@[col as int] == Some(i as usize));
                } else {
                    assert(is_pivot_row(pivot_rows_before, col as int, i));
                    let q = choose|q: int| 0 <= q < col && #[trigger] pivot_rows_before[q] == Some(i as usize);
                    assert(pivot_rows@[q] == pivot_rows_before[q]);
                    assert(0 <= q < col + 1 && pivot_rows@[q] == Some(i as usize));
                }
            }
        }
        row += 1;
        col += 1;
        if row >= nrows {
            break;
        }
    }
    let mut i: usize = 0;
    while i < nrows
        invariant
            prime_ok(p as int),
            pi == p as int,
            nc == ncols as int,
            good == inverses_ok(pi),
            aug0.len() == nrows,
            matrix@.len() == nrows,
            ncols == matrix@[0]@.len(),
            nrows == mat@.len(),
            rectangular(mat@, ncols + 1int),
            reduced_matrix(mat@, p as int),
            good ==> forall|x: Seq<int>| #[trigger] solves_aug(mat@, x, nc, pi) == solves_aug(aug0, x, nc, pi),
            forall|x: Seq<int>| #[trigger] solves_aug(aug0, x, nc, pi) == solves(matrix@, rhs@, x, nc, pi),
            i <= nrows,
            forall|t: int| 0 <= t < i ==> ((forall|c: int| 0 <= c < ncols ==> #[trigger] mat@[t]@[c] == 0) ==> #[trigger] mat@[t]@[ncols as int] == 0),
        decreases nrows - i,
    {
        let mut all_zero_row = true;
        let mut c: usize = 0;
        while c < ncols
            invariant
                prime_ok(p as int),
                i < nrows,
                nrows == mat@.len(),
                rectangular(mat@, ncols + 1int),
                reduced_matrix(mat@, p as int),
                c <= ncols,
                all_zero_row == (forall|q: int| 0 <= q < c ==> #[trigger] mat@[i as int]@[q] == 0),
            decreases ncols - c,
        {
            if mod_i64(mat[i][c], p) != 0 {
                proof {
                    lemma_small(mat@[i as int]@[c as int] as int, p as int);
                }
                all_zero_row = false;
            } else {
                proof {
                    lemma_small(mat@[i as int]@[c as int] as int, p as int);
                }
            }
            c += 1;
        }
        if all_zero_row && mod_i64(mat[i][ncols], p) != 0 {
            proof {
                let zr = mat@[i as int]@;
                assert(c == ncols);
                assert(forall|q: int| 0 <= q < ncols ==> #[trigger] mat@[i as int]@[q] == 0);
                assert(zr.len() == ncols + 1);
                assert(0 <= mat@[i as int]@[ncols as int] < p);
                lemma_small(mat@[i as int]@[ncols as int] as int, pi);
                assert forall|q: int| 0 <= q < nc implies #[trigger] zr[q] == 0 by {
                    assert(mat@[i as int]@[q] == 0);
                }
                if good {
                    assert forall|x: Seq<int>| !#[trigger] solves(matrix@, rhs@, x, nc, pi) by {
                        lemma_row_dot_zero(zr, x, nc);
                        lemma_small(0, pi);
                        assert(row_dot(zr, x, nc) % pi != (zr[nc] as int) % pi);
                        assert(!solves_aug(mat@, x, nc, pi));
                        assert(!solves_aug(aug0, x, nc, pi));
                    }
                }
            }
            return None;
        }
        proof {
            if all_zero_row {
                lemma_small(mat@[i as int]@[ncols as int] as int, p as int);
            }
        }
        i += 1;
    }
    let mut solution: Vec<i64> = Vec::with_capacity(ncols);
    let mut c: usize = 0;
    while c < ncols
        invariant
            prime_ok(p as int),
            nrows == mat@.len(),
            rectangular(mat@, ncols + 1int),
            reduced_matrix(mat@, p as int),
            pivot_rows@.len() == ncols,
            forall|q: int| 0 <= q < ncols ==> (#[trigger] pivot_rows@[q] matches Some(pr) ==> pr < nrows),
            c <= ncols,
            solution@.len() == c,
            forall|t: int| 0 <= t < c ==> 0 <= #[trigger] solution@[t] < p,
            forall|t: int|
                0 <= t < c ==> #[trigger] solution@[t] == (match pivot_rows@[t] {
                    Some(pr) => mat@[pr as int]@[ncols as int],
                    None => 0i64,
                }),
        decreases ncols - c,
    {
        match pivot_rows[c] {
            Some(r) => solution.push(mod_i64(mat[r][ncols], p)),
            None => solution.push(0),
        }
        proof {
            if let Some(r) = pivot_rows@[c as int] {
                lemma_small(mat@[r as int]@[ncols as int] as int, p as int);
            }
        }
        c += 1;
    }
    proof {
        if good {
            let x = ints(solution@);
            assert forall|i: int| 0 <= i < nrows implies #[trigger] row_dot(mat@[i]@, x, nc) % pi == (mat@[i]@[nc] as int) % pi by {
                let ri = mat@[i]@;
                if i < row {
                    assert(is_pivot_row(pivot_rows@, col as int, i));
                    let q = choose|q: int| 0 <= q < col && #[trigger] pivot_rows@[q] == Some(i as usize);
                    assert forall|cc: int| 0 <= cc < nc && cc != q implies #[trigger] (ri[cc] * x[cc]) == 0 by {
                        if pivot_rows@[cc] is Some {
                            assert(cc < col);
                            if q < cc {
                                assert(pivot_rows@[q]->0 < pivot_rows@[cc]->0);
                            } else {
                                assert(pivot_rows@[cc]->0 < pivot_rows@[q]->0);
                            }
                            assert(mat@[i]@[cc] == (if i == pivot_rows@[cc]->0 { 1int } else { 0int }));
                            assert(ri[cc] == 0);
                            assert(ri[cc] * x[cc] == 0) by (nonlinear_arith)
                                requires
                                    ri[cc] == 0,
                            ;
                        } else {
                            assert(solution@[cc] == 0);
                            assert(x[cc] == 0);
                            assert(ri[cc] * x[cc] == 0) by (nonlinear_arith)
                                requires
                                    x[cc] == 0,
                            ;
                        }
                    }
                    lemma_row_dot_single(ri, x, nc, q);
                    assert(ri[q] == 1);
                    assert(x[q] == ri[nc]);
                } else {
                    assert forall|cc: int| 0 <= cc < ncols implies #[trigger] mat@[i]@[cc] == 0 by {
                        if cc < col {
                            if pivot_rows@[cc] is Some {
                                assert(pivot_rows@[cc]->0 < row);
                            }
                        }
                    }
                    assert(mat@[i]@[nc] == 0);
                    lemma_row_dot_zero(ri, x, nc);
                }
            }
            assert(solves_aug(mat@, x, nc, pi));
            assert(solves_aug(aug0, x, nc, pi));
        }
    }
    Some(solution)
}


/// The residue of `value` modulo `prime` taken in `(-prime/2, prime/2]`; the
/// value itself when `prime` is zero.
pub open spec fn centered_residue(value: int, prime: int) -> int {
    if prime == 0 {
        value
    } else {
        let v = value % prime;
        if v > prime / 2 {
            v - prime
        } else {
            v
        }
    }
}

/// A coefficient modulo `prime`, written as its centered residue.
pub fn format_mod_coeff(value: i64, prime: i64) -> (r: String)
    requires
        prime >= 0,
    ensures
        r@ == int_text(centered_residue(value as int, prime as int)),
{
    if prime == 0 {
        return i64_to_text(value);
    }
    let mut v = mod_i64(value, prime);
    let half = prime / 2;
    if v > half {
        v -= prime;
    }
    i64_to_text(v)
}

/// One term `c*id` of a dependency.
pub open spec fn term_text(term: (i64, String), prime: int) -> Seq<char> {
    int_text(centered_residue(term.0 as int, prime)) + seq!['*'] + term.1@
}

/// The terms joined by `" + "`, or `"0"` when there are none.
pub open spec fn terms_text(terms: Seq<(i64, String)>, prime: int) -> Seq<char>
    decreases terms.len(),
{
    if terms.len() == 0 {
        seq!['0']
    } else if terms.len() == 1 {
        term_text(terms[0], prime)
    } else {
        terms_text(terms.drop_last(), prime) + seq![' ', '+', ' '] + term_text(terms.last(), prime)
    }
}

/// The right-hand side of a dependency, as the tables print it.
pub fn format_terms(terms: &[(i64, String)], prime: i64) -> (r: String)
    requires
        prime >= 0,
    ensures
        r@ == terms_text(terms@, prime as int),
{
    if terms.len() == 0 {
        let r = String::from_str("0");
        proof {
            reveal_strlit("0");
        }
        return r;
    }
    let mut out = String::new();
    let mut i: usize = 0;
    while i < terms.len()
        invariant
            prime >= 0,
            terms@.len() > 0,
            i <= terms@.len(),
            i == 0 ==> out@.len() == 0,
            i > 0 ==> out@ == terms_text(terms@.subrange(0, i as int), prime as int),
        decreases terms@.len() - i,
    {
        let ghost before = out@;
        if i > 0 {
            out.append(" + ");
            proof {
                reveal_strlit(" + ");
            }
        }
        let c = format_mod_coeff(terms[i].0, prime);
        out.append(c.as_str());
        out.append("*");
        proof {
            reveal_strlit("*");
        }
        out.append(terms[i].1.as_str());
        proof {
            let s = terms@.subrange(0, i + 1);
            assert(s.drop_last() =~= terms@.subrange(0, i as int));
            assert(s.last() == terms@[i as int]);
            if i == 0 {
                assert(out@ =~= term_text(terms@[0], prime as int));
            } else {
                assert(out@ =~= before + seq![' ', '+', ' '] + term_text(terms@[i as int], prime as int));
            }
        }
        i += 1;
    }
    proof {
        assert(terms@.subrange(0, terms@.len() as int) =~= terms@);
    }
    out
}

/// `[a, b, ...]` of the decimal texts, or `[]`.
pub open spec fn list_text(items: Seq<Seq<char>>) -> Seq<char> {
    seq!['['] + crate::text::str_seq_join(items, seq![',', ' ']) + seq![']']
}

/// A list of counts as `[a, b, ...]`.
pub fn format_usize_list(values: &[usize]) -> (r: String)
    ensures
        r@ == list_text(values@.map_values(|v: usize| decimal_digits(v as nat))),
{
    let mut out = String::from_str("[");
    proof {
        reveal_strlit("[");
        reveal_strlit(", ");
        reveal_strlit("]");
        assert(", "@ =~= seq![',', ' ']);
    }
    let ghost items = values@.map_values(|v: usize| decimal_digits(v as nat));
    let mut i: usize = 0;
    while i < values.len()
        invariant
            i <= values@.len(),
            items == values@.map_values(|v: usize| decimal_digits(v as nat)),
            out@ == seq!['['] + crate::text::str_seq_join(items.subrange(0, i as int), seq![',', ' ']),
        decreases values@.len() - i,
    {
        let ghost before = out@;
        if i > 0 {
            out.append(", ");
        }
        let t = u64_to_text(values[i] as u64);
        out.append(t.as_str());
        proof {
            let s = items.subrange(0, i + 1);
            assert(s.drop_last() =~= items.subrange(0, i as int));
            assert(items[i as int] == decimal_digits(values@[i as int] as nat));
            assert(s.last() == items[i as int]);
            reveal_strlit(", ");
            assert(", "@ =~= seq![',', ' ']);
            if i == 0 {
                assert(out@ =~= seq!['['] + s[0]);
            } else {
                assert(out@ =~= before + seq![',', ' '] + s.last());
            }
        }
        i += 1;
    }
    out.append("]");
    proof {
        assert(items.subrange(0, values@.len() as int) =~= items);
    }
    out
}

/// A list of integers as `[a, b, ...]`.
#[verifier::spinoff_prover]
pub fn format_i64_list(values: &[i64]) -> (r: String)
    ensures
        r@ == list_text(values@.map_values(|v: i64| int_text(v as int))),
{
    let mut out = String::from_str("[");
    proof {
        reveal_strlit("[");
        reveal_strlit(", ");
        reveal_strlit("]");
        assert(", "@ =~= seq![',', ' ']);
    }
    let ghost items = values@.map_values(|v: i64| int_text(v as int));
    let mut i: usize = 0;
    while i < values.len()
        invariant
            i <= values@.len(),
            items == values@.map_values(|v: i64| int_text(v as int)),
            out@ == seq!['['] + crate::text::str_seq_join(items.subrange(0, i as int), seq![',', ' ']),
        decreases values@.len() - i,
    {
        let ghost before = out@;
        if i > 0 {
            out.append(", ");
        }
        let t = i64_to_text(values[i]);
        out.append(t.as_str());
        proof {
            let s = items.subrange(0, i + 1);
            assert(s.drop_last() =~= items.subrange(0, i as int));
            assert(items[i as int] == int_text(values@[i as int] as int));
            assert(s.last() == items[i as int]);
            reveal_strlit(", ");
            assert(", "@ =~= seq![',', ' ']);
            if i == 0 {
                assert(out@ =~= seq!['['] + s[0]);
            } else {
                assert(out@ =~= before + seq![',', ' '] + s.last());
            }
        }
        i += 1;
    }
    out.append("]");
    proof {
        assert(items.subrange(0, values@.len() as int) =~= items);
    }
    out
}


fn concat_error(a: &str, b: &str, c: &str) -> (r: String)
    ensures
        r@ == a@ + b@ + c@,
{
    let mut msg = String::new();
    msg.append(a);
    msg.append(b);
    msg.append(c);
    proof {
        assert(msg@ =~= a@ + b@ + c@);
    }
    msg
}

/// The rows of `matrix` at `idx`, and their ids.
fn pick_rows(matrix: &[Vec<i64>], ids: &[String], idx: &Vec<usize>) -> (r: (Vec<Vec<i64>>, Vec<String>))
    requires
        ids@.len() == matrix@.len(),
        forall|a: int| 0 <= a < idx@.len() ==> #[trigger] idx@[a] < matrix@.len(),
    ensures
        r.0@.len() == idx@.len(),
        r.1@.len() == idx@.len(),
        forall|a: int| 0 <= a < idx@.len() ==> (#[trigger] r.0@[a])@ == matrix@[idx@[a] as int]@,
        forall|a: int| 0 <= a < idx@.len() ==> (#[trigger] r.1@[a])@ == ids@[idx@[a] as int]@,
{
    let mut rows: Vec<Vec<i64>> = Vec::with_capacity(idx.len());
    let mut names: Vec<String> = Vec::with_capacity(idx.len());
    let mut a: usize = 0;
    while a < idx.len()
        invariant
            ids@.len() == matrix@.len(),
            forall|t: int| 0 <= t < idx@.len() ==> #[trigger] idx@[t] < matrix@.len(),
            a <= idx@.len(),
            rows@.len() == a,
            names@.len() == a,
            forall|t: int| 0 <= t < a ==> (#[trigger] rows@[t])@ == matrix@[idx@[t] as int]@,
            forall|t: int| 0 <= t < a ==> (#[trigger] names@[t])@ == ids@[idx@[t] as int]@,
        decreases idx@.len() - a,
    {
        let k = idx[a];
        rows.push(matrix[k].clone());
        names.push(ids[k].clone());
        a += 1;
    }
    (rows, names)
}

/// The number of `false` entries among the first `n`.
pub open spec fn count_false(s: Seq<bool>, n: int) -> nat
    decreases n,
{
    if n <= 0 {
        0
    } else {
        count_false(s, n - 1) + if s[n - 1] {
            0nat
        } else {
            1nat
        }
    }
}

proof fn lemma_count_false_step(s: Seq<bool>, n: int)
    requires
        0 <= n,
    ensures
        count_false(s, n + 1) == count_false(s, n) + if s[n] {
            0nat
        } else {
            1nat
        },
        count_false(s, n) <= n,
    decreases n,
{
    if n > 0 {
        lemma_count_false_step(s, n - 1);
    }
}

proof fn lemma_count_false_same(s: Seq<bool>, t: Seq<bool>, n: int)
    requires
        0 <= n,
        forall|x: int| 0 <= x < n ==> s[x] == t[x],
    ensures
        count_false(s, n) == count_false(t, n),
    decreases n,
{
    if n > 0 {
        lemma_count_false_same(s, t, n - 1);
    }
}

/// Each row of `matrix` outside the row basis that elimination picks, written
/// as a combination of the basis rows modulo `prime`. For a prime, a
/// rectangular matrix with one id per row always succeeds.
pub fn compute_dependencies_mod_p(
    matrix: &[Vec<i64>],
    row_ids: &[String],
    loop_index: usize,
    prime: i64,
) -> (r: Result<Vec<HankelDependency>, ExperimentError>)
    requires
        prime_ok(prime as int),
        reduced_matrix(matrix@, prime as int),
        matrix@.len() < usize::MAX,
    ensures
        matrix@.len() != row_ids@.len() ==> r is Err,
        (matrix@.len() == row_ids@.len() && matrix@.len() == 0) ==> (r matches Ok(d) && d@.len() == 0),
        (matrix@.len() == row_ids@.len() && matrix@.len() > 0 && !rectangular(matrix@, matrix@[0]@.len() as int)) ==> r is Err,
        r matches Ok(deps) ==> deps@.len() <= matrix@.len() && forall|d: int|
            0 <= d < deps@.len() ==> (#[trigger] deps@[d]).loop_index == loop_index && deps@[d].prime == prime
                && (exists|i: int| 0 <= i < row_ids@.len() && deps@[d].id@ == row_ids@[i]@) && forall|t: int|
                0 <= t < deps@[d].terms@.len() ==> 0 < (#[trigger] deps@[d].terms@[t]).0 < prime,
        inverses_ok(prime as int) ==> (r matches Ok(deps) ==> forall|d: int|
            0 <= d < deps@.len() ==> #[trigger] dependency_of(matrix@, row_ids@, deps@[d], prime as int)),
        inverses_ok(prime as int) ==> (r matches Ok(deps) ==> deps@.len() + rank_spec(matrix@, prime as int) == matrix@.len()),
        (inverses_ok(prime as int) && matrix@.len() == row_ids@.len() && (matrix@.len() > 0 ==> rectangular(
            matrix@,
            matrix@[0]@.len() as int,
        ))) ==> r is Ok,
{
    if matrix.len() != row_ids.len() {
        return Err(ExperimentError::InvalidConfig("row id count does not match matrix rows".to_string()));
    }
    if matrix.len() == 0 {
        return Ok(Vec::new());
    }
    let nrows = matrix.len();
    let ncols = matrix[0].len();
    let mut i: usize = 0;
    while i < nrows
        invariant
            nrows == matrix@.len(),
            ncols == matrix@[0]@.len(),
            i <= nrows,
            forall|t: int| 0 <= t < i ==> #[trigger] matrix@[t]@.len() == ncols,
        decreases nrows - i,
    {
        if matrix[i].len() != ncols {
            return Err(ExperimentError::InvalidConfig("matrix row length mismatch".to_string()));
        }
        i += 1;
    }
    let basis_indices = row_basis_indices_mod_p(matrix, prime);
    let mut is_basis: Vec<bool> = Vec::with_capacity(nrows);
    let mut t: usize = 0;
    while t < nrows
        invariant
            t <= nrows,
            is_basis@.len() == t,
            forall|x: int| 0 <= x < t ==> !#[trigger] is_basis@[x],
        decreases nrows - t,
    {
        is_basis.push(false);
        t += 1;
    }
    let mut sorted: Vec<usize> = Vec::new();
    let mut q: usize = 0;
    while q < nrows
        invariant
            nrows == is_basis@.len(),
            q <= nrows,
            sorted@.len() > 0 ==> basis_indices@.len() > 0,
            forall|x: int| 0 <= x < q ==> (#[trigger] is_basis@[x] <==> basis_indices@.contains(x as usize)),
            forall|x: int| q <= x < nrows ==> !#[trigger] is_basis@[x],
            forall|x: usize| #[trigger] sorted@.contains(x) <==> (x < q && basis_indices@.contains(x)),
            sorted@.len() + count_false(is_basis@, q as int) == q,
            forall|a: int| 0 <= a < sorted@.len() ==> #[trigger] sorted@[a] < q,
            forall|a: int, b: int| 0 <= a < b < sorted@.len() ==> #[trigger] sorted@[a] < #[trigger] sorted@[b],
        decreases nrows - q,
    {
        let mut found = false;
        let mut a: usize = 0;
        while a < basis_indices.len()
            invariant
                a <= basis_indices@.len(),
                found ==> basis_indices@.len() > 0,
                found == exists|b: int| 0 <= b < a && basis_indices@[b] == q,
            decreases basis_indices@.len() - a,
        {
            if basis_indices[a] == q {
                found = true;
            }
            a += 1;
        }
        let ghost s0 = sorted@;
        let ghost ib0 = is_basis@;
        proof {
            assert(found == basis_indices@.contains(q));
            lemma_count_false_step(ib0, q as int);
        }
        if found {
            sorted.push(q);
            is_basis.set(q, true);
        }
        proof {
            assert forall|x: int| 0 <= x < q + 1 implies (#[trigger] is_basis@[x] <==> basis_indices@.contains(x as usize)) by {
                if x < q {
                    assert(is_basis@[x] == ib0[x]);
                }
            }
            assert forall|x: usize| #[trigger] sorted@.contains(x) <==> (x < q + 1 && basis_indices@.contains(x)) by {
                if sorted@.contains(x) && x != q {
                    let k = choose|k: int| 0 <= k < sorted@.len() && sorted@[k] == x;
                    assert(k < s0.len());
                    assert(s0.contains(x));
                }
                if x < q && basis_indices@.contains(x) {
                    assert(s0.contains(x));
                    let k = choose|k: int| 0 <= k < s0.len() && s0[k] == x;
                    assert(sorted@[k] == x);
                }
                if x == q && found {
                    assert(sorted@[s0.len() as int] == q);
                }
            }
            lemma_count_false_step(is_basis@, q as int);
            assert forall|x: int| 0 <= x < q implies is_basis@[x] == ib0[x] by {}
            lemma_count_false_same(is_basis@, ib0, q as int);
        }
        q += 1;
    }
    proof {
        assert(sorted@.no_duplicates()) by {
            assert forall|a: int, b: int| 0 <= a < sorted@.len() && 0 <= b < sorted@.len() && a != b implies sorted@[a] != sorted@[b] by {
                if a < b {
                    assert(sorted@[a] < sorted@[b]);
                } else {
                    assert(sorted@[b] < sorted@[a]);
                }
            }
        }
        assert(basis_indices@.no_duplicates()) by {
            assert forall|a: int, b: int| 0 <= a < basis_indices@.len() && 0 <= b < basis_indices@.len() && a != b implies basis_indices@[a]
                != basis_indices@[b] by {
                if a < b {
                    assert(basis_indices@[a] != basis_indices@[b]);
                } else {
                    assert(basis_indices@[b] != basis_indices@[a]);
                }
            }
        }
        assert(sorted@.to_set() =~= basis_indices@.to_set()) by {
            assert forall|x: usize| sorted@.to_set().contains(x) <==> basis_indices@.to_set().contains(x) by {
                if basis_indices@.contains(x) {
                    let k = choose|k: int| 0 <= k < basis_indices@.len() && basis_indices@[k] == x;
                    assert(x < nrows);
                }
            }
        }
        sorted@.unique_seq_to_set();
        basis_indices@.unique_seq_to_set();
        assert(sorted@.len() == basis_indices@.len());
    }
    let (basis_rows, basis_ids) = pick_rows(matrix, row_ids, &sorted);
    let ghost nb = basis_rows@.len() as int;
    proof {
        lemma_increasing_len(sorted@, nrows as int);
        assert forall|a: int| 0 <= a < basis_rows@.len() implies #[trigger] basis_rows@[a]@.len() <= ncols by {
            assert(basis_rows@[a]@ == matrix@[sorted@[a] as int]@);
        }
        if basis_rows@.len() > 0 {
            assert(basis_rows@[0]@.len() == ncols);
        }
    }
    let basis_t = transpose_mod_p(basis_rows.as_slice());
    proof {
        assert forall|v: usize| #[trigger] basis_indices@.contains(v) implies sorted@.contains(v) by {
            let k = choose|k: int| 0 <= k < basis_indices@.len() && basis_indices@[k] == v;
            assert(v < nrows);
        }
        assert forall|a: int, b: int| 0 <= a < b < nb implies #[trigger] sorted@[a] != #[trigger] sorted@[b] by {
            assert(sorted@[a] < sorted@[b]);
        }
        if basis_rows@.len() > 0 {
            assert(basis_indices@.len() > 0);
            assert(ncols > 0);
        }
        assert forall|j: int, c: int| 0 <= j < basis_t@.len() && 0 <= c < basis_t@[j]@.len() implies 0 <= #[trigger] basis_t@[j]@[c] < prime by {
            let k = sorted@[c] as int;
            assert(basis_rows@[c]@ == matrix@[k]@);
        }
        assert forall|j: int, a: int| 0 <= j < basis_t@.len() && 0 <= a < nb implies #[trigger] basis_t@[j]@[a] == matrix@[sorted@[a] as int]@[j] by {
            assert(basis_rows@[a]@ == matrix@[sorted@[a] as int]@);
        }
    }
    let mut deps: Vec<HankelDependency> = Vec::new();
    let mut row_idx: usize = 0;
    while row_idx < nrows
        invariant
            prime_ok(prime as int),
            nrows == matrix@.len(),
            nrows == row_ids@.len(),
            nrows == is_basis@.len(),
            ncols == matrix@[0]@.len(),
            rectangular(matrix@, ncols as int),
            reduced_matrix(matrix@, prime as int),
            basis_ids@.len() == basis_rows@.len(),
            nb == basis_rows@.len(),
            sorted@.len() == nb,
            forall|a: int| 0 <= a < nb ==> #[trigger] sorted@[a] < nrows,
            forall|a: int| 0 <= a < nb ==> (#[trigger] basis_ids@[a])@ == row_ids@[sorted@[a] as int]@,
            basis_rows@.len() == 0 ==> basis_t@.len() == 0,
            basis_rows@.len() > 0 ==> basis_t@.len() == ncols,
            forall|j: int| 0 <= j < basis_t@.len() ==> #[trigger] basis_t@[j]@.len() == basis_rows@.len(),
            forall|j: int, a: int|
                0 <= j < basis_t@.len() && 0 <= a < nb ==> #[trigger] basis_t@[j]@[a] == matrix@[sorted@[a] as int]@[j],
            basis_rows@.len() <= nrows,
            basis_rows@.len() > 0 ==> ncols > 0,
            nrows < usize::MAX,
            row_idx <= nrows,
            deps@.len() <= row_idx,
            deps@.len() == count_false(is_basis@, row_idx as int),
            forall|d: int|
                0 <= d < deps@.len() ==> (#[trigger] deps@[d]).loop_index == loop_index && deps@[d].prime == prime
                    && (exists|i: int| 0 <= i < row_ids@.len() && deps@[d].id@ == row_ids@[i]@) && forall|t: int|
                    0 <= t < deps@[d].terms@.len() ==> 0 < (#[trigger] deps@[d].terms@[t]).0 < prime,
            forall|d: int|
                0 <= d < deps@.len() ==> (inverses_ok(prime as int) ==> #[trigger] dependency_of(
                    matrix@,
                    row_ids@,
                    deps@[d],
                    prime as int,
                )),
            inverses_ok(prime as int) ==> forall|i: int|
                0 <= i < nrows ==> #[trigger] in_row_span(imat(matrix@), basis_indices@, i, ncols as int, prime as int),
            forall|v: usize| #[trigger] basis_indices@.contains(v) ==> sorted@.contains(v),
            basis_rows@.len() == 0 ==> basis_indices@.len() == 0,
            forall|a: int, b: int| 0 <= a < b < nb ==> #[trigger] sorted@[a] != #[trigger] sorted@[b],
        decreases nrows - row_idx,
    {
        proof {
            lemma_count_false_step(is_basis@, row_idx as int);
        }
        if is_basis[row_idx] {
            row_idx += 1;
            continue;
        }
        let row = &matrix[row_idx];
        let mut terms: Vec<(i64, String)> = Vec::new();
        let ghost mut sel: Seq<int> = Seq::empty();
        let ghost good = inverses_ok(prime as int);
        if basis_rows.len() == 0 {
            let mut c: usize = 0;
            while c < row.len()
                invariant
                    c <= row@.len(),
                    row_idx < nrows,
                    nrows == row_ids@.len(),
                    forall|e: int| 0 <= e < c ==> #[trigger] row@[e] == 0,
                    good == inverses_ok(prime as int),
                    good ==> in_row_span(imat(matrix@), basis_indices@, row_idx as int, ncols as int, prime as int),
                    basis_indices@.len() == 0,
                    row@ == matrix@[row_idx as int]@,
                    row@.len() == ncols,
                    nrows == matrix@.len(),
                    reduced_matrix(matrix@, prime as int),
                decreases row@.len() - c,
            {
                if row[c] != 0 {
                    proof {
                        if good {
                            lemma_span_empty(imat(matrix@), basis_indices@, row_idx as int, c as int, ncols as int, prime as int);
                        }
                    }
                    return Err(ExperimentError::InvalidConfig(
                        concat_error("row ", row_ids[row_idx].as_str(), " is not in span of empty basis"),
                    ));
                }
                c += 1;
            }
            proof {
                assert forall|e: int| 0 <= e < ncols implies term_comb(terms@, sel, matrix@, e) % (prime as int) == (
                matrix@[row_idx as int]@[e] as int) % (prime as int) by {
                    assert(row@[e] == 0);
                }
            }
        } else {
            proof {
                assert(basis_t@.len() > 0);
                assert(basis_t@[0]@.len() == basis_rows@.len());
                assert forall|j: int| 0 <= j < basis_t@.len() implies #[trigger] basis_t@[j]@.len() == basis_t@[0]@.len() by {}
            }
            match solve_linear_system_mod_p(basis_t.as_slice(), row.as_slice(), prime) {
                None => {
                    proof {
                        if good {
                            let x = lemma_span_solves(imat(matrix@), basis_indices@, sorted@, basis_t@, row@, row_idx as int, ncols as int, prime as int);
                            assert(solves(basis_t@, row@, x, basis_t@[0]@.len() as int, prime as int));
                        }
                    }
                    return Err(ExperimentError::InvalidConfig(
                        concat_error("row ", row_ids[row_idx].as_str(), " is not in span of basis"),
                    ));
                },
                Some(solution) => {
                    let ghost xs = ints(solution@);
                    let mut k: usize = 0;
                    while k < solution.len() && k < basis_ids.len()
                        invariant
                            prime_ok(prime as int),
                            forall|c: int| 0 <= c < solution@.len() ==> 0 <= #[trigger] solution@[c] < prime,
                            forall|t: int| 0 <= t < terms@.len() ==> 0 < (#[trigger] terms@[t]).0 < prime,
                            xs == ints(solution@),
                            k <= solution@.len(),
                            solution@.len() == nb,
                            basis_ids@.len() == nb,
                            basis_t@.len() == ncols,
                            nrows == matrix@.len(),
                            nrows == row_ids@.len(),
                            sorted@.len() == nb,
                            forall|a: int| 0 <= a < nb ==> #[trigger] sorted@[a] < nrows,
                            forall|a: int| 0 <= a < nb ==> (#[trigger] basis_ids@[a])@ == row_ids@[sorted@[a] as int]@,
                            forall|j: int, a: int|
                                0 <= j < basis_t@.len() && 0 <= a < nb ==> #[trigger] basis_t@[j]@[a] == matrix@[sorted@[a] as int]@[j],
                            sel.len() == terms@.len(),
                            forall|t: int| 0 <= t < sel.len() ==> 0 <= #[trigger] sel[t] < nrows,
                            forall|t: int| 0 <= t < sel.len() ==> (#[trigger] terms@[t]).1@ == row_ids@[sel[t]]@,
                            forall|c: int|
                                0 <= c < ncols ==> #[trigger] term_comb(terms@, sel, matrix@, c) == row_dot(
                                    basis_t@[c]@,
                                    xs,
                                    k as int,
                                ),
                        decreases solution@.len() - k,
                    {
                        let value = mod_i64(solution[k], prime);
                        proof {
                            lemma_small(solution@[k as int] as int, prime as int);
                            assert(xs[k as int] == solution@[k as int] as int);
                        }
                        if value != 0 {
                            let ghost old_terms = terms@;
                            let ghost old_sel = sel;
                            terms.push((value, basis_ids[k].clone()));
                            proof {
                                sel = sel.push(sorted@[k as int] as int);
                                assert(terms@.drop_last() =~= old_terms);
                                assert(sel.drop_last() =~= old_sel);
                                assert forall|t: int| 0 <= t < sel.len() implies (#[trigger] terms@[t]).1@ == row_ids@[sel[t]]@ by {
                                    if t < old_sel.len() {
                                        assert(terms@[t] == old_terms[t]);
                                    }
                                }
                                assert forall|c: int| 0 <= c < ncols implies #[trigger] term_comb(terms@, sel, matrix@, c) == row_dot(
                                    basis_t@[c]@,
                                    xs,
                                    k + 1,
                                ) by {
                                    assert(term_comb(terms@, sel, matrix@, c) == term_comb(old_terms, old_sel, matrix@, c)
                                        + value * matrix@[sorted@[k as int] as int]@[c]);
                                    let m = matrix@[sorted@[k as int] as int]@[c] as int;
                                    assert(basis_t@[c]@[k as int] == m);
                                    assert(term_comb(old_terms, old_sel, matrix@, c) == row_dot(basis_t@[c]@, xs, k as int));
                                    assert(value * m == m * xs[k as int]) by (nonlinear_arith)
                                        requires
                                            value == xs[k as int],
                                    ;
                                }
                            }
                        } else {
                            proof {
                                assert forall|c: int| 0 <= c < ncols implies #[trigger] term_comb(terms@, sel, matrix@, c) == row_dot(
                                    basis_t@[c]@,
                                    xs,
                                    k + 1,
                                ) by {
                                    let m = basis_t@[c]@[k as int] as int;
                                    assert(m * xs[k as int] == 0) by (nonlinear_arith)
                                        requires
                                            xs[k as int] == 0,
                                    ;
                                }
                            }
                        }
                        k += 1;
                    }
                    proof {
                        if good {
                            assert forall|e: int| 0 <= e < ncols implies term_comb(terms@, sel, matrix@, e) % (prime as int) == (
                            matrix@[row_idx as int]@[e] as int) % (prime as int) by {
                                assert(row_dot(basis_t@[e]@, xs, nb) % (prime as int) == (row@[e] as int) % (prime as int));
                            }
                        }
                    }
                },
            }
        }
        let dep = HankelDependency { loop_index, prime, id: row_ids[row_idx].clone(), terms };
        proof {
            assert(dep.id@ == row_ids@[row_idx as int]@);
            if good {
                assert(recombines_with(matrix@, row_ids@, dep, row_idx as int, prime as int, sel));
                assert(recombines(matrix@, row_ids@, dep, row_idx as int, prime as int));
                assert(dependency_of(matrix@, row_ids@, dep, prime as int));
            }
        }
        deps.push(dep);
        row_idx += 1;
    }
    Ok(deps)
}


/// `sum_t terms[t].0 * matrix[sel[t]][c]`: column `c` of the combination of
/// the selected rows that the terms describe.
pub open spec fn term_comb(terms: Seq<(i64, String)>, sel: Seq<int>, matrix: Seq<Vec<i64>>, c: int) -> int
    decreases terms.len(),
{
    if terms.len() == 0 {
        0
    } else {
        term_comb(terms.drop_last(), sel.drop_last(), matrix, c) + terms.last().0 * matrix[sel[terms.len() - 1]]@[c]
    }
}

/// The terms of `dep` name rows `sel` of the matrix by their ids, and their
/// combination equals row `i` in every column, modulo `p`.
pub open spec fn recombines_with(
    matrix: Seq<Vec<i64>>,
    row_ids: Seq<String>,
    dep: HankelDependency,
    i: int,
    p: int,
    sel: Seq<int>,
) -> bool {
    &&& sel.len() == dep.terms@.len()
    &&& forall|t: int| 0 <= t < sel.len() ==> 0 <= #[trigger] sel[t] < matrix.len()
    &&& forall|t: int| 0 <= t < sel.len() ==> (#[trigger] dep.terms@[t]).1@ == row_ids[sel[t]]@
    &&& forall|c: int|
        0 <= c < matrix[0]@.len() ==> #[trigger] term_comb(dep.terms@, sel, matrix, c) % p == (matrix[i]@[c] as int) % p
}

/// Row `i` is the combination that the terms of `dep` describe.
pub open spec fn recombines(matrix: Seq<Vec<i64>>, row_ids: Seq<String>, dep: HankelDependency, i: int, p: int) -> bool {
    exists|sel: Seq<int>| #[trigger] recombines_with(matrix, row_ids, dep, i, p, sel)
}

/// `dep` names a row of the matrix by its id and writes that row, modulo `p`,
/// as a combination of other rows named by their ids.
pub open spec fn dependency_of(matrix: Seq<Vec<i64>>, row_ids: Seq<String>, dep: HankelDependency, p: int) -> bool {
    exists|i: int| 0 <= i < matrix.len() && row_ids[i]@ == dep.id@ && #[trigger] recombines(matrix, row_ids, dep, i, p)
}

/// A strictly increasing sequence of values below `n` has at most `n` entries.
proof fn lemma_increasing_len(s: Seq<usize>, n: int)
    requires
        n >= 0,
        forall|a: int| 0 <= a < s.len() ==> #[trigger] s[a] < n,
        forall|a: int, b: int| 0 <= a < b < s.len() ==> #[trigger] s[a] < #[trigger] s[b],
    ensures
        s.len() <= n,
    decreases s.len(),
{
    if s.len() > 0 {
        let d = s.drop_last();
        let m = s.last() as int;
        assert forall|a: int| 0 <= a < d.len() implies #[trigger] d[a] < m by {
            assert(d[a] == s[a]);
            assert(s[a] < s[s.len() - 1]);
        }
        assert forall|a: int, b: int| 0 <= a < b < d.len() implies #[trigger] d[a] < #[trigger] d[b] by {
            assert(d[a] == s[a] && d[b] == s[b]);
        }
        lemma_increasing_len(d, m);
        assert(m < n);
    }
}


/// `out` holds the entries of `inp`, each once, in some order.
pub open spec fn is_permutation_of<T>(out: Seq<T>, inp: Seq<T>) -> bool {
    out.len() == inp.len() && exists|f: Seq<int>|
        f.len() == out.len() && (forall|t: int| 0 <= t < f.len() ==> 0 <= #[trigger] f[t] < inp.len() && out[t] == inp[f[t]])
            && (forall|s: int, t: int| 0 <= s < t < f.len() ==> #[trigger] f[s] != #[trigger] f[t])
}

/// The order of dependencies in the tables: by loop order, prime, id, then
/// the printed terms.
pub open spec fn dep_less(a: HankelDependency, b: HankelDependency) -> bool {
    if a.loop_index != b.loop_index {
        a.loop_index < b.loop_index
    } else if a.prime != b.prime {
        a.prime < b.prime
    } else if a.id@ != b.id@ {
        str_lt(a.id@, b.id@)
    } else {
        str_lt(terms_text(a.terms@, a.prime as int), terms_text(b.terms@, b.prime as int))
    }
}

/// Whether `a` comes before `b` in the tables.
pub fn dependency_before(a: &HankelDependency, b: &HankelDependency) -> (r: bool)
    requires
        a.prime >= 0,
        b.prime >= 0,
    ensures
        r == dep_less(*a, *b),
{
    if a.loop_index != b.loop_index {
        return a.loop_index < b.loop_index;
    }
    if a.prime != b.prime {
        return a.prime < b.prime;
    }
    if !str_eq(a.id.as_str(), b.id.as_str()) {
        return str_less(a.id.as_str(), b.id.as_str());
    }
    let ta = format_terms(a.terms.as_slice(), a.prime);
    let tb = format_terms(b.terms.as_slice(), b.prime);
    str_less(ta.as_str(), tb.as_str())
}

/// The order of the sampled dependencies: fewer terms first, then table order.
pub open spec fn sample_less(a: HankelDependency, b: HankelDependency) -> bool {
    if a.terms@.len() != b.terms@.len() {
        a.terms@.len() < b.terms@.len()
    } else {
        dep_less(a, b)
    }
}

/// The table order, or the sample order when `by_support`.
pub open spec fn order_less(by_support: bool, a: HankelDependency, b: HankelDependency) -> bool {
    if by_support {
        sample_less(a, b)
    } else {
        dep_less(a, b)
    }
}

fn order_before(by_support: bool, a: &HankelDependency, b: &HankelDependency) -> (r: bool)
    requires
        a.prime >= 0,
        b.prime >= 0,
    ensures
        r == order_less(by_support, *a, *b),
{
    if by_support && a.terms.len() != b.terms.len() {
        return a.terms.len() < b.terms.len();
    }
    dependency_before(a, b)
}

/// Sorts the dependencies into table order.
pub fn sort_dependencies(deps: &mut Vec<HankelDependency>)
    requires
        forall|i: int| 0 <= i < old(deps)@.len() ==> (#[trigger] old(deps)@[i]).prime >= 0,
    ensures
        is_permutation_of(final(deps)@, old(deps)@),
        forall|i: int| 0 <= i < final(deps)@.len() ==> (#[trigger] final(deps)@[i]).prime >= 0,
        forall|i: int, j: int| 0 <= i < j < final(deps)@.len() ==> !dep_less(#[trigger] final(deps)@[j], #[trigger] final(deps)@[i]),
{
    sort_deps_by(deps, false);
}

/// Sorts the dependencies into sample order.
pub fn sort_for_sample(deps: &mut Vec<HankelDependency>)
    requires
        forall|i: int| 0 <= i < old(deps)@.len() ==> (#[trigger] old(deps)@[i]).prime >= 0,
    ensures
        is_permutation_of(final(deps)@, old(deps)@),
        forall|i: int| 0 <= i < final(deps)@.len() ==> (#[trigger] final(deps)@[i]).prime >= 0,
        forall|i: int, j: int| 0 <= i < j < final(deps)@.len() ==> !sample_less(#[trigger] final(deps)@[j], #[trigger] final(deps)@[i]),
{
    sort_deps_by(deps, true);
}

fn sort_deps_by(deps: &mut Vec<HankelDependency>, by_support: bool)
    requires
        forall|i: int| 0 <= i < old(deps)@.len() ==> (#[trigger] old(deps)@[i]).prime >= 0,
    ensures
        is_permutation_of(final(deps)@, old(deps)@),
        forall|i: int| 0 <= i < final(deps)@.len() ==> (#[trigger] final(deps)@[i]).prime >= 0,
        forall|i: int, j: int| 0 <= i < j < final(deps)@.len() ==> !order_less(by_support, #[trigger] final(deps)@[j], #[trigger] final(deps)@[i]),
{
    let n = deps.len();
    let ghost orig = deps@;
    let ghost mut f: Seq<int> = Seq::new(n as nat, |t: int| t);
    let mut i: usize = 0;
    while i < n
        invariant
            n == deps@.len(),
            orig.len() == n,
            forall|t: int| 0 <= t < n ==> (#[trigger] orig[t]).prime >= 0,
            i <= n,
            f.len() == n,
            forall|t: int| 0 <= t < n ==> 0 <= #[trigger] f[t] < n && deps@[t] == orig[f[t]],
            forall|s: int, t: int| 0 <= s < t < n ==> #[trigger] f[s] != #[trigger] f[t],
            forall|a: int, b: int| 0 <= a < i && a <= b < n ==> !order_less(by_support, #[trigger] deps@[b], #[trigger] deps@[a]),
        decreases n - i,
    {
        let mut m: usize = i;
        let mut k: usize = i + 1;
        proof {
            assert forall|t: int| 0 <= t < n implies #[trigger] deps@[t].prime >= 0 by {
                assert(deps@[t] == orig[f[t]]);
            }
            lemma_order_less_irrefl(by_support, deps@[i as int]);
        }
        while k < n
            invariant
                n == deps@.len(),
                forall|t: int| 0 <= t < n ==> #[trigger] deps@[t].prime >= 0,
                i <= m < n,
                i < k <= n,
                forall|t: int| i <= t < k ==> !order_less(by_support, #[trigger] deps@[t], deps@[m as int]),
            decreases n - k,
        {
            proof {
                assert(deps@[k as int].prime >= 0);
                assert(deps@[m as int].prime >= 0);
            }
            if order_before(by_support, &deps[k], &deps[m]) {
                proof {
                    assert forall|t: int| i <= t < k + 1 implies !order_less(by_support, #[trigger] deps@[t], deps@[k as int]) by {
                        if t < k {
                            if order_less(by_support, deps@[t], deps@[k as int]) {
                                lemma_order_less_trans(by_support, deps@[t], deps@[k as int], deps@[m as int]);
                            }
                        } else {
                            lemma_order_less_irrefl(by_support, deps@[t]);
                        }
                    }
                }
                m = k;
            }
            k += 1;
        }
        let ghost before = deps@;
        let placeholder = HankelDependency { loop_index: 0, prime: 0, id: String::new(), terms: Vec::new() };
        swap_entries(deps, i, m, placeholder);
        proof {
            let f0 = f;
            f = f.update(i as int, f0[m as int]).update(m as int, f0[i as int]);
            assert forall|t: int| 0 <= t < n implies 0 <= #[trigger] f[t] < n && deps@[t] == orig[f[t]] by {
                if t == i {
                } else if t == m {
                } else {
                    assert(f[t] == f0[t]);
                }
            }
            assert forall|s: int, t: int| 0 <= s < t < n implies #[trigger] f[s] != #[trigger] f[t] by {
                let fs = if s == i { m as int } else if s == m { i as int } else { s };
                let ft = if t == i { m as int } else if t == m { i as int } else { t };
                assert(f[s] == f0[fs]);
                assert(f[t] == f0[ft]);
                if fs < ft {
                } else {
                    assert(fs != ft);
                    assert(f0[ft] != f0[fs]);
                }
            }
            assert forall|a: int, b: int| 0 <= a < i + 1 && a <= b < n implies !order_less(by_support, #[trigger] deps@[b], #[trigger] deps@[a]) by {
                if a < i {
                    let fb = if b == i { m as int } else if b == m { i as int } else { b };
                    assert(deps@[b] == before[fb]);
                    assert(deps@[a] == before[a]);
                } else {
                    let fb = if b == i { m as int } else if b == m { i as int } else { b };
                    assert(deps@[b] == before[fb]);
                    assert(deps@[a] == before[m as int]);
                }
            }
        }
        i += 1;
    }
    proof {
        assert(is_permutation_of(deps@, orig)) by {
            assert(f.len() == deps@.len());
        }
        assert forall|t: int| 0 <= t < n implies (#[trigger] deps@[t]).prime >= 0 by {
            assert(deps@[t] == orig[f[t]]);
        }
    }
}

proof fn lemma_order_less_irrefl(by_support: bool, a: HankelDependency)
    ensures
        !order_less(by_support, a, a),
{
    lemma_dep_less_irrefl(a);
}

proof fn lemma_order_less_trans(by_support: bool, a: HankelDependency, b: HankelDependency, c: HankelDependency)
    requires
        order_less(by_support, a, b),
        order_less(by_support, b, c),
    ensures
        order_less(by_support, a, c),
{
    if by_support {
        if a.terms@.len() == b.terms@.len() && b.terms@.len() == c.terms@.len() {
            lemma_dep_less_trans(a, b, c);
        }
    } else {
        lemma_dep_less_trans(a, b, c);
    }
}

proof fn lemma_dep_less_irrefl(a: HankelDependency)
    ensures
        !dep_less(a, a),
{
    crate::text::lemma_str_lt_irrefl_asym(terms_text(a.terms@, a.prime as int), terms_text(a.terms@, a.prime as int));
}

proof fn lemma_dep_less_trans(a: HankelDependency, b: HankelDependency, c: HankelDependency)
    requires
        dep_less(a, b),
        dep_less(b, c),
    ensures
        dep_less(a, c),
{
    if a.loop_index == b.loop_index && b.loop_index == c.loop_index && a.prime == b.prime && b.prime == c.prime {
        if a.id@ != b.id@ && b.id@ != c.id@ {
            crate::text::lemma_str_lt_trans(a.id@, b.id@, c.id@);
            if a.id@ == c.id@ {
                crate::text::lemma_str_lt_irrefl_asym(a.id@, b.id@);
            }
        } else if a.id@ == b.id@ && b.id@ == c.id@ {
            crate::text::lemma_str_lt_trans(
                terms_text(a.terms@, a.prime as int),
                terms_text(b.terms@, b.prime as int),
                terms_text(c.terms@, c.prime as int),
            );
        }
    }
}

/// Sorts the statistics by loop order.
pub fn sort_stats(stats: &mut Vec<HankelSubblockStats>)
    ensures
        is_permutation_of(final(stats)@, old(stats)@),
        forall|i: int, j: int| 0 <= i < j < final(stats)@.len() ==> (#[trigger] final(stats)@[i]).loop_index <= (#[trigger] final(stats)@[j]).loop_index,
{
    let n = stats.len();
    let ghost orig = stats@;
    let ghost mut f: Seq<int> = Seq::new(n as nat, |t: int| t);
    let mut i: usize = 0;
    while i < n
        invariant
            n == stats@.len(),
            orig.len() == n,
            i <= n,
            f.len() == n,
            forall|t: int| 0 <= t < n ==> 0 <= #[trigger] f[t] < n && stats@[t] == orig[f[t]],
            forall|s: int, t: int| 0 <= s < t < n ==> #[trigger] f[s] != #[trigger] f[t],
            forall|a: int, b: int| 0 <= a < i && a <= b < n ==> (#[trigger] stats@[a]).loop_index <= (#[trigger] stats@[b]).loop_index,
        decreases n - i,
    {
        let mut m: usize = i;
        let mut k: usize = i + 1;
        while k < n
            invariant
                n == stats@.len(),
                i <= m < n,
                i < k <= n,
                forall|t: int| i <= t < k ==> stats@[m as int].loop_index <= (#[trigger] stats@[t]).loop_index,
            decreases n - k,
        {
            if stats[k].loop_index < stats[m].loop_index {
                m = k;
            }
            k += 1;
        }
        let ghost before = stats@;
        let placeholder = stats[i];
        swap_entries(stats, i, m, placeholder);
        proof {
            let f0 = f;
            f = f.update(i as int, f0[m as int]).update(m as int, f0[i as int]);
            assert forall|t: int| 0 <= t < n implies 0 <= #[trigger] f[t] < n && stats@[t] == orig[f[t]] by {
                if t != i && t != m {
                    assert(f[t] == f0[t]);
                }
            }
            assert forall|s: int, t: int| 0 <= s < t < n implies #[trigger] f[s] != #[trigger] f[t] by {
                let fs = if s == i { m as int } else if s == m { i as int } else { s };
                let ft = if t == i { m as int } else if t == m { i as int } else { t };
                assert(f[s] == f0[fs]);
                assert(f[t] == f0[ft]);
                if fs > ft {
                    assert(f0[ft] != f0[fs]);
                }
            }
            assert forall|a: int, b: int| 0 <= a < i + 1 && a <= b < n implies (#[trigger] stats@[a]).loop_index <= (#[trigger] stats@[b]).loop_index by {
                let fb = if b == i { m as int } else if b == m { i as int } else { b };
                assert(stats@[b] == before[fb]);
                if a < i {
                    assert(stats@[a] == before[a]);
                } else {
                    assert(stats@[a] == before[m as int]);
                }
            }
        }
        i += 1;
    }
}


/// The largest rank of `matrix` modulo a usable prime (the smallest such prime
/// on ties), that prime, and the matrix reduced modulo it; rank 0 with the
/// first prime for a matrix without rows or columns.
pub fn rank_and_prime(matrix: &[Vec<Rational>], primes: &[i64]) -> (r: Result<(usize, i64, Vec<Vec<i64>>), ExperimentError>)
    requires
        primes_ok(primes@),
        matrix@.len() > 0 ==> rectangular_rat(matrix@, matrix@[0]@.len() as int),
    ensures
        (matrix@.len() == 0 || matrix@[0]@.len() == 0) ==> (match r {
            Ok(t) => primes@.len() > 0 && t.0 == 0 && t.1 == primes@[0] && t.2@.len() == 0,
            Err(_) => primes@.len() == 0,
        }),
        (matrix@.len() > 0 && matrix@[0]@.len() > 0) ==> (r is Err <==> forall|k: int|
            0 <= k < primes@.len() ==> unusable_matrix(matrix@, #[trigger] primes@[k] as int)),
        (matrix@.len() > 0 && matrix@[0]@.len() > 0) ==> (r matches Ok(t) ==> primes@.contains(t.1)
            && !unusable_matrix(matrix@, t.1 as int) && t.0 <= matrix@.len() && t.0 <= matrix@[0]@.len()
            && t.2@.len() == matrix@.len() && rectangular(t.2@, matrix@[0]@.len() as int) && reduced_matrix(
            t.2@,
            t.1 as int,
        ) && (forall|i: int, j: int|
            0 <= i < matrix@.len() && 0 <= j < matrix@[0]@.len() ==> #[trigger] t.2@[i]@[j] == residue(
                matrix@[i]@[j],
                t.1 as int,
            ))),
        r matches Ok(t) ==> (inverses_ok(t.1 as int) ==> t.0 == rank_spec(t.2@, t.1 as int)),
{
    if matrix.len() == 0 || matrix[0].len() == 0 {
        proof {
            if primes.len() > 0 {
                assert(rank_spec(Seq::<Vec<i64>>::empty(), primes@[0] as int) == 0);
            }
        }
        if primes.len() == 0 {
            return Err(ExperimentError::InvalidConfig("no primes supplied".to_string()));
        }
        return Ok((0, primes[0], Vec::new()));
    }
    let ghost ncols = matrix@[0]@.len();
    let mut best: Option<(usize, i64, Vec<Vec<i64>>)> = None;
    let mut k: usize = 0;
    while k < primes.len()
        invariant
            primes_ok(primes@),
            matrix@.len() > 0,
            ncols == matrix@[0]@.len(),
            ncols > 0,
            rectangular_rat(matrix@, ncols as int),
            k <= primes@.len(),
            best is None <==> forall|q: int| 0 <= q < k ==> unusable_matrix(matrix@, #[trigger] primes@[q] as int),
            best matches Some(t) ==> primes@.contains(t.1) && !unusable_matrix(matrix@, t.1 as int) && t.0
                <= matrix@.len() && t.0 <= ncols && t.2@.len() == matrix@.len() && rectangular(t.2@, ncols as int)
                && reduced_matrix(t.2@, t.1 as int) && (forall|i: int, j: int|
                0 <= i < matrix@.len() && 0 <= j < ncols ==> #[trigger] t.2@[i]@[j] == residue(matrix@[i]@[j], t.1 as int)),
            best matches Some(t) ==> (inverses_ok(t.1 as int) ==> t.0 == rank_spec(t.2@, t.1 as int)),
        decreases primes@.len() - k,
    {
        let p = primes[k];
        match matrix_to_mod(matrix, p) {
            Some(m) => {
                proof {
                    assert(!unusable_matrix(matrix@, primes@[k as int] as int));
                    assert(rectangular(m@, ncols as int));
                    assert(m@[0]@.len() == ncols);
                    assert(primes@.contains(p)) by {
                        assert(primes@[k as int] == p);
                    }
                    assert forall|i: int, j: int| 0 <= i < matrix@.len() && 0 <= j < ncols implies #[trigger] m@[i]@[j]
                        == residue(matrix@[i]@[j], p as int) by {
                        assert(matrix@[i]@.len() == ncols);
                    }
                }
                let rank = rank_mod_p(m.as_slice(), p);
                let replace = match &best {
                    None => true,
                    Some(t) => rank > t.0 || (rank == t.0 && p < t.1),
                };
                if replace {
                    best = Some((rank, p, m));
                }
            },
            None => {},
        }
        proof {
            if best is None {
                assert forall|q: int| 0 <= q < k + 1 implies unusable_matrix(matrix@, #[trigger] primes@[q] as int) by {
                    if q < k {
                    }
                }
            }
        }
        k += 1;
    }
    match best {
        Some(t) => Ok(t),
        None => Err(ExperimentError::InvalidConfig("no usable primes for matrix mod-p rank".to_string())),
    }
}

/// One line of the statistics table.
pub open spec fn stats_line(s: HankelSubblockStats, r: usize, k: usize) -> Seq<char> {
    decimal_digits(s.loop_index as nat) + seq![','] + decimal_digits(r as nat) + seq![','] + decimal_digits(k as nat)
        + seq![','] + decimal_digits(s.nrows as nat) + seq![','] + decimal_digits(s.ncols as nat) + seq![',']
        + decimal_digits(s.rank_mod_p as nat) + seq!['\n']
}

/// The lines of the statistics table.
pub open spec fn stats_lines(stats: Seq<HankelSubblockStats>, r: usize, k: usize) -> Seq<char>
    decreases stats.len(),
{
    if stats.len() == 0 {
        Seq::empty()
    } else {
        stats_lines(stats.drop_last(), r, k) + stats_line(stats.last(), r, k)
    }
}

fn stats_line_text(s: HankelSubblockStats, r: usize, k: usize) -> (out: String)
    ensures
        out@ == stats_line(s, r, k),
{
    let mut out = u64_to_text(s.loop_index as u64);
    push_char(&mut out, ',');
    out.append(u64_to_text(r as u64).as_str());
    push_char(&mut out, ',');
    out.append(u64_to_text(k as u64).as_str());
    push_char(&mut out, ',');
    out.append(u64_to_text(s.nrows as u64).as_str());
    push_char(&mut out, ',');
    out.append(u64_to_text(s.ncols as u64).as_str());
    push_char(&mut out, ',');
    out.append(u64_to_text(s.rank_mod_p as u64).as_str());
    push_char(&mut out, '\n');
    proof {
        assert(out@ =~= stats_line(s, r, k));
    }
    out
}

/// The statistics table as CSV.
pub fn render_stats_csv(cfg: &EsymbHankelSubblockConfig, stats: &[HankelSubblockStats]) -> (out: String)
    ensures
        out@ == "loop,r,k,nrows,ncols,rank_mod_p\n"@ + stats_lines(stats@, cfg.r, cfg.k),
{
    let mut out = String::from_str("loop,r,k,nrows,ncols,rank_mod_p\n");
    let mut i: usize = 0;
    proof {
        assert(out@ =~= "loop,r,k,nrows,ncols,rank_mod_p\n"@ + stats_lines(stats@.subrange(0, 0), cfg.r, cfg.k));
    }
    while i < stats.len()
        invariant
            i <= stats@.len(),
            out@ == "loop,r,k,nrows,ncols,rank_mod_p\n"@ + stats_lines(stats@.subrange(0, i as int), cfg.r, cfg.k),
        decreases stats@.len() - i,
    {
        let line = stats_line_text(stats[i], cfg.r, cfg.k);
        out.append(line.as_str());
        proof {
            let q = stats@.subrange(0, i + 1);
            assert(q.drop_last() =~= stats@.subrange(0, i as int));
        }
        i += 1;
    }
    proof {
        assert(stats@.subrange(0, stats@.len() as int) =~= stats@);
    }
    out
}

/// One line of a dependency table.
pub open spec fn dep_line(d: HankelDependency, r: usize, k: usize) -> Seq<char> {
    decimal_digits(d.loop_index as nat) + seq![','] + decimal_digits(r as nat) + seq![','] + decimal_digits(k as nat)
        + seq![','] + int_text(d.prime as int) + seq![','] + csv_field(d.id@) + seq![','] + csv_field(
        terms_text(d.terms@, d.prime as int),
    ) + seq!['\n']
}

/// The lines of a dependency table.
pub open spec fn dep_lines(deps: Seq<HankelDependency>, r: usize, k: usize) -> Seq<char>
    decreases deps.len(),
{
    if deps.len() == 0 {
        Seq::empty()
    } else {
        dep_lines(deps.drop_last(), r, k) + dep_line(deps.last(), r, k)
    }
}

fn dep_line_text(d: &HankelDependency, r: usize, k: usize) -> (out: String)
    requires
        d.prime >= 0,
    ensures
        out@ == dep_line(*d, r, k),
{
    let mut out = u64_to_text(d.loop_index as u64);
    push_char(&mut out, ',');
    out.append(u64_to_text(r as u64).as_str());
    push_char(&mut out, ',');
    out.append(u64_to_text(k as u64).as_str());
    push_char(&mut out, ',');
    out.append(i64_to_text(d.prime).as_str());
    push_char(&mut out, ',');
    out.append(escape_csv_field(d.id.as_str()).as_str());
    push_char(&mut out, ',');
    let terms = format_terms(d.terms.as_slice(), d.prime);
    out.append(escape_csv_field(terms.as_str()).as_str());
    push_char(&mut out, '\n');
    proof {
        assert(out@ =~= dep_line(*d, r, k));
    }
    out
}

/// A dependency table as CSV, its id column headed `label`.
pub fn render_deps_csv(cfg: &EsymbHankelSubblockConfig, deps: &[HankelDependency], label: &str) -> (out: String)
    requires
        forall|i: int| 0 <= i < deps@.len() ==> (#[trigger] deps@[i]).prime >= 0,
    ensures
        out@ == "loop,r,k,prime,"@ + csv_field(label@) + ",terms\n"@ + dep_lines(deps@, cfg.r, cfg.k),
{
    let mut out = String::from_str("loop,r,k,prime,");
    out.append(escape_csv_field(label).as_str());
    out.append(",terms\n");
    let ghost head = out@;
    let mut i: usize = 0;
    proof {
        assert(out@ =~= head + dep_lines(deps@.subrange(0, 0), cfg.r, cfg.k));
    }
    while i < deps.len()
        invariant
            forall|t: int| 0 <= t < deps@.len() ==> (#[trigger] deps@[t]).prime >= 0,
            head == "loop,r,k,prime,"@ + csv_field(label@) + ",terms\n"@,
            i <= deps@.len(),
            out@ == head + dep_lines(deps@.subrange(0, i as int), cfg.r, cfg.k),
        decreases deps@.len() - i,
    {
        let line = dep_line_text(&deps[i], cfg.r, cfg.k);
        out.append(line.as_str());
        proof {
            let q = deps@.subrange(0, i + 1);
            assert(q.drop_last() =~= deps@.subrange(0, i as int));
            assert(q.last() == deps@[i as int]);
        }
        i += 1;
    }
    proof {
        assert(deps@.subrange(0, deps@.len() as int) =~= deps@);
    }
    out
}


/// One `prefix-suffix` row of the observables table: its prefix, suffix and
/// the coefficient at each loop order.
#[derive(Clone, Debug)]
pub struct ObservableRow {
    pub u: String,
    pub v: String,
    pub values: Vec<Rational>,
}

/// The rows of the observables table for one prefix and suffix length.
#[derive(Clone, Debug)]
pub struct ObservablesTable {
    pub loops: Vec<usize>,
    pub rows: Vec<ObservableRow>,
    pub u_order: Vec<String>,
    pub v_order: Vec<String>,
}

/// No two entries of `names` are the same text.
pub open spec fn distinct_texts(names: Seq<String>) -> bool {
    forall|a: int, b: int| 0 <= a < b < names.len() ==> (#[trigger] names[a])@ != (#[trigger] names[b])@
}

/// Whether `name` is among `names`.
fn contains_text(names: &Vec<String>, name: &str) -> (r: bool)
    ensures
        r == exists|a: int| 0 <= a < names@.len() && (#[trigger] names@[a])@ == name@,
{
    let mut a: usize = 0;
    while a < names.len()
        invariant
            a <= names@.len(),
            forall|t: int| 0 <= t < a ==> (#[trigger] names@[t])@ != name@,
        decreases names@.len() - a,
    {
        if str_eq(names[a].as_str(), name) {
            return true;
        }
        a += 1;
    }
    false
}

/// `text` without its trailing carriage returns.
pub open spec fn strip_cr(text: Seq<char>) -> Seq<char>
    decreases text.len(),
{
    if text.len() > 0 && text.last() == '\r' {
        strip_cr(text.drop_last())
    } else {
        text
    }
}

/// `text` without trailing carriage returns.
fn trim_trailing_cr(text: &str) -> (r: String)
    ensures
        r@ == strip_cr(text@),
        r@.len() <= text@.len(),
        r@ == text@.subrange(0, r@.len() as int),
        forall|t: int| r@.len() <= t < text@.len() ==> text@[t] == '\r',
        r@.len() > 0 ==> r@.last() != '\r',
{
    let mut j = text.unicode_len();
    proof {
        assert(text@.subrange(0, j as int) =~= text@);
    }
    while j > 0 && text.get_char(j - 1) == '\r'
        invariant
            j <= text@.len(),
            forall|t: int| j <= t < text@.len() ==> text@[t] == '\r',
            strip_cr(text@) == strip_cr(text@.subrange(0, j as int)),
        decreases j,
    {
        proof {
            assert(text@.subrange(0, j as int).drop_last() =~= text@.subrange(0, j - 1));
        }
        j -= 1;
    }
    crate::text::substring(text, 0, j)
}

/// A column of values for a loop order: `cL<n>`, other than the two named
/// columns.
pub open spec fn is_loop_column(field: Seq<char>) -> bool {
    field != "family"@ && field != "params"@ && loop_field_spec(field) is Some
}

/// The header's columns: where `family` and `params` stand, and each `cL<n>`
/// column with its loop order, left to right.
fn read_header(header: &Vec<String>) -> (r: Result<(usize, usize, Vec<(usize, usize)>), ExperimentError>)
    ensures
        r matches Ok(t) ==> t.0 < header@.len() && t.1 < header@.len() && t.2@.len() > 0 && (forall|a: int|
            0 <= a < t.2@.len() ==> (#[trigger] t.2@[a]).0 < header@.len() && loop_field_spec(header@[t.2@[a].0 as int]@)
                == Some(t.2@[a].1 as int)) && (forall|a: int, b: int|
            0 <= a < b < t.2@.len() ==> (#[trigger] t.2@[a]).0 < (#[trigger] t.2@[b]).0),
        r is Ok <==> (exists|i: int| 0 <= i < header@.len() && (#[trigger] header@[i])@ == "family"@) && (exists|i: int|
            0 <= i < header@.len() && (#[trigger] header@[i])@ == "params"@) && (exists|i: int|
            0 <= i < header@.len() && is_loop_column(#[trigger] header@[i]@)),
        r matches Ok(t) ==> (forall|i: int| t.0 < i < header@.len() ==> (#[trigger] header@[i])@ != "family"@) && (forall|i: int|
            t.1 < i < header@.len() ==> (#[trigger] header@[i])@ != "params"@),
        r matches Ok(t) ==> header@[t.0 as int]@ == "family"@ && header@[t.1 as int]@ == "params"@ && forall|i: int|
            0 <= i < header@.len() && is_loop_column(#[trigger] header@[i]@) ==> exists|a: int|
                0 <= a < t.2@.len() && (#[trigger] t.2@[a]).0 == i,
        r matches Ok(t) ==> forall|a: int| 0 <= a < t.2@.len() ==> is_loop_column(header@[(#[trigger] t.2@[a]).0 as int]@),
{
    let mut family_idx: Option<usize> = None;
    let mut params_idx: Option<usize> = None;
    let mut loops: Vec<(usize, usize)> = Vec::new();
    let mut idx: usize = 0;
    proof {
        reveal_strlit("family");
        reveal_strlit("params");
    }
    while idx < header.len()
        invariant
            idx <= header@.len(),
            family_idx matches Some(f) ==> f < header@.len(),
            params_idx matches Some(f) ==> f < header@.len(),
            forall|a: int| 0 <= a < loops@.len() ==> (#[trigger] loops@[a]).0 < idx && loop_field_spec(
                header@[loops@[a].0 as int]@,
            ) == Some(loops@[a].1 as int),
            forall|a: int, b: int| 0 <= a < b < loops@.len() ==> (#[trigger] loops@[a]).0 < (#[trigger] loops@[b]).0,
            family_idx matches Some(f) ==> header@[f as int]@ == "family"@ && forall|t: int| f < t < idx ==> (#[trigger] header@[t])@ != "family"@,
            params_idx matches Some(f) ==> forall|t: int| f < t < idx ==> (#[trigger] header@[t])@ != "params"@,
            family_idx is None ==> forall|t: int| 0 <= t < idx ==> (#[trigger] header@[t])@ != "family"@,
            params_idx matches Some(f) ==> header@[f as int]@ == "params"@,
            params_idx is None ==> forall|t: int| 0 <= t < idx ==> (#[trigger] header@[t])@ != "params"@,
            forall|t: int| 0 <= t < idx && is_loop_column(#[trigger] header@[t]@) ==> exists|a: int|
                0 <= a < loops@.len() && (#[trigger] loops@[a]).0 == t,
            forall|a: int| 0 <= a < loops@.len() ==> is_loop_column(header@[(#[trigger] loops@[a]).0 as int]@),
        decreases header@.len() - idx,
    {
        proof {
            reveal_strlit("family");
            reveal_strlit("params");
        }
        let ghost old_loops = loops@;
        let field = header[idx].as_str();
        if str_eq(field, "family") {
            family_idx = Some(idx);
        } else if str_eq(field, "params") {
            params_idx = Some(idx);
        } else {
            match parse_loop_field(field) {
                Some(l) => {
                    loops.push((idx, l));
                    proof {
                        assert(loops@[loops@.len() - 1].0 == idx);
                    }
                },
                None => {},
            }
        }
        proof {
            assert forall|t: int| 0 <= t < idx + 1 && is_loop_column(#[trigger] header@[t]@) implies exists|a: int|
                0 <= a < loops@.len() && (#[trigger] loops@[a]).0 == t by {
                if t == idx {
                    assert(loops@[loops@.len() - 1].0 == idx);
                } else {
                    let a = choose|a: int| 0 <= a < old_loops.len() && (#[trigger] old_loops[a]).0 == t;
                    assert(loops@[a] == old_loops[a]);
                }
            }
            assert forall|a: int| 0 <= a < loops@.len() implies is_loop_column(header@[(#[trigger] loops@[a]).0 as int]@) by {
                if a < old_loops.len() {
                    assert(loops@[a] == old_loops[a]);
                }
            }
        }
        idx += 1;
    }
    let family_idx = match family_idx {
        Some(f) => f,
        None => {
            return Err(ExperimentError::InvalidConfig("observables CSV missing family column".to_string()));
        },
    };
    let params_idx = match params_idx {
        Some(f) => f,
        None => {
            return Err(ExperimentError::InvalidConfig("observables CSV missing params column".to_string()));
        },
    };
    if loops.len() == 0 {
        return Err(ExperimentError::InvalidConfig("observables CSV missing cL* columns".to_string()));
    }
    proof {
        assert(is_loop_column(header@[loops@[0].0 as int]@));
    }
    Ok((family_idx, params_idx, loops))
}

/// Each key is listed in `names`, and each listed name is one of the keys.
pub open spec fn covers(keys: Seq<Seq<char>>, names: Seq<String>) -> bool {
    &&& forall|a: int| 0 <= a < keys.len() ==> exists|b: int| 0 <= b < names.len() && (#[trigger] names[b])@ == #[trigger] keys[a]
    &&& forall|b: int| 0 <= b < names.len() ==> exists|a: int| 0 <= a < keys.len() && (#[trigger] names[b])@ == #[trigger] keys[a]
}

/// The prefixes of the rows.
pub open spec fn row_us(rows: Seq<ObservableRow>) -> Seq<Seq<char>> {
    rows.map_values(|r: ObservableRow| r.u@)
}

/// The suffixes of the rows.
pub open spec fn row_vs(rows: Seq<ObservableRow>) -> Seq<Seq<char>> {
    rows.map_values(|r: ObservableRow| r.v@)
}

/// Every row has one value per loop order, and its prefix and suffix are
/// listed; every listed prefix and suffix has a row; no name is listed twice.
pub open spec fn table_ok(rows: Seq<ObservableRow>, u_order: Seq<String>, v_order: Seq<String>, nloops: int) -> bool {
    &&& distinct_texts(u_order)
    &&& distinct_texts(v_order)
    &&& forall|a: int| 0 <= a < rows.len() ==> (#[trigger] rows[a]).values@.len() == nloops
    &&& covers(row_us(rows), u_order)
    &&& covers(row_vs(rows), v_order)
}

proof fn lemma_covers_push(keys: Seq<Seq<char>>, names0: Seq<String>, names: Seq<String>, k: Seq<char>)
    requires
        covers(keys, names0),
        exists|b: int| 0 <= b < names.len() && (#[trigger] names[b])@ == k,
        names.len() >= names0.len(),
        forall|b: int| 0 <= b < names0.len() ==> #[trigger] names[b] == names0[b],
        forall|b: int| 0 <= b < names.len() ==> b < names0.len() || (#[trigger] names[b])@ == k,
    ensures
        covers(keys.push(k), names),
{
    let ks = keys.push(k);
    assert forall|a: int| 0 <= a < ks.len() implies exists|b: int| 0 <= b < names.len() && (#[trigger] names[b])@ == #[trigger] ks[a] by {
        if a < keys.len() {
            assert(ks[a] == keys[a]);
            let b = choose|b: int| 0 <= b < names0.len() && (#[trigger] names0[b])@ == keys[a];
            assert(names[b] == names0[b]);
        }
    }
    assert forall|b: int| 0 <= b < names.len() implies exists|a: int| 0 <= a < ks.len() && (#[trigger] names[b])@ == #[trigger] ks[a] by {
        if b < names0.len() {
            assert(names[b] == names0[b]);
            let a = choose|a: int| 0 <= a < keys.len() && (#[trigger] names0[b])@ == #[trigger] keys[a];
            assert(ks[a] == keys[a]);
        } else {
            assert(ks[keys.len() as int] == k);
        }
    }
}

/// Appends `name` to `names` unless it is there already.
fn note_name(names: &mut Vec<String>, name: &String)
    requires
        distinct_texts(old(names)@),
    ensures
        distinct_texts(final(names)@),
        final(names)@.len() >= old(names)@.len(),
        exists|b: int| 0 <= b < final(names)@.len() && (#[trigger] final(names)@[b])@ == name@,
        forall|b: int| 0 <= b < old(names)@.len() ==> #[trigger] final(names)@[b] == old(names)@[b],
        forall|b: int| 0 <= b < final(names)@.len() ==> b < old(names)@.len() || (#[trigger] final(names)@[b])@ == name@,
{
    if contains_text(names, name.as_str()) {
        return;
    }
    let ghost before = names@;
    names.push(name.clone());
    proof {
        assert forall|a: int, b: int| 0 <= a < b < names@.len() implies (#[trigger] names@[a])@ != (#[trigger] names@[b])@ by {
            if b == names@.len() - 1 {
                assert(names@[a] == before[a]);
            } else {
                assert(names@[a] == before[a] && names@[b] == before[b]);
            }
        }
        assert(names@[names@.len() - 1]@ == name@);
    }
}

/// Adds one row to the table.
fn add_row(
    rows: &mut Vec<ObservableRow>,
    u_order: &mut Vec<String>,
    v_order: &mut Vec<String>,
    row: ObservableRow,
    Ghost(nloops): Ghost<int>,
)
    requires
        table_ok(old(rows)@, old(u_order)@, old(v_order)@, nloops),
        row.values@.len() == nloops,
    ensures
        table_ok(final(rows)@, final(u_order)@, final(v_order)@, nloops),
        final(rows)@ == old(rows)@.push(row),
        final(u_order)@.len() >= old(u_order)@.len(),
        forall|b: int| 0 <= b < old(u_order)@.len() ==> #[trigger] final(u_order)@[b] == old(u_order)@[b],
        exists|b: int| 0 <= b < final(u_order)@.len() && (#[trigger] final(u_order)@[b])@ == row.u@,
        final(v_order)@.len() >= old(v_order)@.len(),
        forall|b: int| 0 <= b < old(v_order)@.len() ==> #[trigger] final(v_order)@[b] == old(v_order)@[b],
        exists|b: int| 0 <= b < final(v_order)@.len() && (#[trigger] final(v_order)@[b])@ == row.v@,
{
    let ghost (rows0, u0, v0) = (rows@, u_order@, v_order@);
    note_name(u_order, &row.u);
    note_name(v_order, &row.v);
    let ghost r = row;
    rows.push(row);
    proof {
        lemma_covers_push(row_us(rows0), u0, u_order@, r.u@);
        lemma_covers_push(row_vs(rows0), v0, v_order@, r.v@);
        assert(row_us(rows@) =~= row_us(rows0).push(r.u@));
        assert(row_vs(rows@) =~= row_vs(rows0).push(r.v@));
        assert forall|a: int| 0 <= a < rows@.len() implies (#[trigger] rows@[a]).values@.len() == nloops by {
            if a < rows0.len() {
                assert(rows@[a] == rows0[a]);
            }
        }
    }
}

/// The last column named `name`.
pub open spec fn last_column(header: Seq<Seq<char>>, name: Seq<char>) -> int {
    choose|i: int| 0 <= i < header.len() && header[i] == name && forall|t: int| i < t < header.len() ==> header[t] != name
}

/// A data line the table reader accepts: blank, or a CSV record with the
/// header's columns whose family is not `prefix-suffix`, or whose params read
/// and either name other lengths or come with a coefficient in every loop
/// column.
pub open spec fn data_line_ok(header: Seq<Seq<char>>, line: Seq<char>, target_r: int, target_k: int) -> bool {
    let raw = strip_cr(line);
    ||| trim_spec(raw).len() == 0
    ||| (csv_scan(raw, 0, false, Seq::empty(), Seq::empty()) matches Some(f) && f.len() >= header.len() && (trim_spec(
        f[last_column(header, "family"@)],
    ) != "prefix-suffix"@ || (params_spec(trim_spec(f[last_column(header, "params"@)])) matches Some(t) && (t.0 != target_r
        || t.1 != target_k || forall|j: int| 0 <= j < header.len() && is_loop_column(#[trigger] header[j]) ==> coeff_spec(f[j]) is Some))))
}

/// A header the table reader accepts: `family` and `params` columns and a
/// column of values for some loop order.
pub open spec fn header_ok(header: Seq<Seq<char>>) -> bool {
    &&& exists|i: int| 0 <= i < header.len() && #[trigger] header[i] == "family"@
    &&& exists|i: int| 0 <= i < header.len() && #[trigger] header[i] == "params"@
    &&& exists|i: int| 0 <= i < header.len() && is_loop_column(#[trigger] header[i])
}

/// The coefficients of a record in the loop columns, in column order.
fn row_values(fields: &Vec<String>, loops: &Vec<(usize, usize)>) -> (r: Result<Vec<Rational>, ExperimentError>)
    requires
        forall|a: int| 0 <= a < loops@.len() ==> (#[trigger] loops@[a]).0 < fields@.len(),
    ensures
        r is Ok <==> forall|a: int| 0 <= a < loops@.len() ==> coeff_spec(fields@[(#[trigger] loops@[a]).0 as int]@) is Some,
        r matches Ok(v) ==> v@.len() == loops@.len() && forall|a: int| 0 <= a < loops@.len() ==> coeff_spec(
            fields@[(#[trigger] loops@[a]).0 as int]@,
        ) == Some(v@[a]),
{
    let mut values: Vec<Rational> = Vec::with_capacity(loops.len());
    let mut c: usize = 0;
    while c < loops.len()
        invariant
            c <= loops@.len(),
            values@.len() == c,
            forall|a: int| 0 <= a < loops@.len() ==> (#[trigger] loops@[a]).0 < fields@.len(),
            forall|a: int| 0 <= a < c ==> coeff_spec(fields@[(#[trigger] loops@[a]).0 as int]@) == Some(values@[a]),
        decreases loops@.len() - c,
    {
        let value = match parse_coeff(fields[loops[c].0].as_str()) {
            Ok(x) => x,
            Err(e) => {
                proof {
                    assert(!(coeff_spec(fields@[loops@[c as int].0 as int]@) is Some));
                }
                return Err(e);
            },
        };
        values.push(value);
        c += 1;
    }
    Ok(values)
}

/// The `prefix-suffix` rows with prefix length `target_r` and suffix length
/// `target_k` of an observables table given by its lines (header first), with
/// the prefixes and suffixes in order of first appearance.
#[verifier::rlimit(60)]
pub fn parse_observables(lines: &[String], target_r: usize, target_k: usize) -> (r: Result<ObservablesTable, ExperimentError>)
    ensures
        lines@.len() == 0 ==> r is Err,
        r matches Ok(t) ==> t.loops@.len() > 0 && table_ok(t.rows@, t.u_order@, t.v_order@, t.loops@.len() as int),
        r is Ok <==> (lines@.len() > 0 && (csv_scan(lines@[0]@, 0, false, Seq::empty(), Seq::empty()) matches Some(h)
            && header_ok(h) && forall|i: int| 1 <= i < lines@.len() ==> #[trigger] data_line_ok(h, lines@[i]@, target_r as int, target_k as int))),
{
    if lines.len() == 0 {
        return Err(ExperimentError::InvalidConfig("empty observables CSV".to_string()));
    }
    let header = match parse_csv_line(lines[0].as_str()) {
        Ok(h) => h,
        Err(e) => {
            return Err(e);
        },
    };
    let ghost h = strings_view(header@);
    proof {
        assert forall|i: int| 0 <= i < header@.len() implies #[trigger] h[i] == header@[i]@ by {}
    }
    let (family_idx, params_idx, loops) = match read_header(&header) {
        Ok(t) => t,
        Err(e) => {
            proof {
                if header_ok(h) {
                    let i = choose|i: int| 0 <= i < h.len() && #[trigger] h[i] == "family"@;
                    assert(header@[i]@ == "family"@);
                    let j = choose|j: int| 0 <= j < h.len() && #[trigger] h[j] == "params"@;
                    assert(header@[j]@ == "params"@);
                    let q = choose|q: int| 0 <= q < h.len() && is_loop_column(#[trigger] h[q]);
                    assert(is_loop_column(header@[q]@));
                }
            }
            return Err(e);
        },
    };
    proof {
        assert(h[family_idx as int] == "family"@);
        assert(h[params_idx as int] == "params"@);
        assert(last_column(h, "family"@) == family_idx) by {
            let i = last_column(h, "family"@);
            assert(0 <= i < h.len() && h[i] == "family"@ && forall|t: int| i < t < h.len() ==> h[t] != "family"@);
            if i < family_idx {
            } else if i > family_idx {
                assert(header@[i]@ != "family"@);
            }
        }
        assert(last_column(h, "params"@) == params_idx) by {
            let i = last_column(h, "params"@);
            assert(0 <= i < h.len() && h[i] == "params"@ && forall|t: int| i < t < h.len() ==> h[t] != "params"@);
            if i < params_idx {
            } else if i > params_idx {
                assert(header@[i]@ != "params"@);
            }
        }
        assert(header_ok(h)) by {
            assert(h[family_idx as int] == "family"@);
            assert(h[params_idx as int] == "params"@);
            assert(is_loop_column(h[loops@[0].0 as int]));
        }
    }
    let mut loop_values: Vec<usize> = Vec::new();
    let mut a: usize = 0;
    while a < loops.len()
        invariant
            a <= loops@.len(),
            loop_values@.len() == a,
        decreases loops@.len() - a,
    {
        loop_values.push(loops[a].1);
        a += 1;
    }
    let mut rows: Vec<ObservableRow> = Vec::new();
    let mut u_order: Vec<String> = Vec::new();
    let mut v_order: Vec<String> = Vec::new();
    proof {
        reveal_strlit("prefix-suffix");
        assert(row_us(rows@) =~= Seq::<Seq<char>>::empty());
        assert(row_vs(rows@) =~= Seq::<Seq<char>>::empty());
    }
    let mut line_idx: usize = 1;
    while line_idx < lines.len()
        invariant
            1 <= line_idx <= lines@.len(),
            h == strings_view(header@),
            lines@.len() > 0,
            csv_scan(lines@[0]@, 0, false, Seq::empty(), Seq::empty()) == Some(h),
            header_ok(h),
            family_idx < header@.len(),
            params_idx < header@.len(),
            last_column(h, "family"@) == family_idx,
            last_column(h, "params"@) == params_idx,
            loop_values@.len() == loops@.len(),
            loops@.len() > 0,
            forall|a: int| 0 <= a < loops@.len() ==> (#[trigger] loops@[a]).0 < header@.len(),
            forall|i: int| 0 <= i < header@.len() && is_loop_column(#[trigger] header@[i]@) ==> exists|a: int|
                0 <= a < loops@.len() && (#[trigger] loops@[a]).0 == i,
            forall|a: int| 0 <= a < loops@.len() ==> is_loop_column(header@[(#[trigger] loops@[a]).0 as int]@),
            table_ok(rows@, u_order@, v_order@, loops@.len() as int),
            forall|i: int| 1 <= i < line_idx ==> #[trigger] data_line_ok(h, lines@[i]@, target_r as int, target_k as int),
        decreases lines@.len() - line_idx,
    {
        let ghost line = lines@[line_idx as int]@;
        let raw = trim_trailing_cr(lines[line_idx].as_str());
        let blank = trim(raw.as_str());
        if blank.unicode_len() == 0 {
            proof {
                assert(data_line_ok(h, line, target_r as int, target_k as int));
            }
            line_idx += 1;
            continue;
        }
        let fields = match parse_csv_line(raw.as_str()) {
            Ok(f) => f,
            Err(e) => {
                proof {
                    assert(!data_line_ok(h, line, target_r as int, target_k as int));
                }
                return Err(e);
            },
        };
        let ghost fv = strings_view(fields@);
        if fields.len() < header.len() {
            proof {
                assert(!data_line_ok(h, line, target_r as int, target_k as int));
            }
            return Err(ExperimentError::InvalidConfig("observables CSV row has too few columns".to_string()));
        }
        proof {
            assert(fv[family_idx as int] == fields@[family_idx as int]@);
            assert(fv[params_idx as int] == fields@[params_idx as int]@);
        }
        let family = trim(fields[family_idx].as_str());
        if !str_eq(family.as_str(), "prefix-suffix") {
            proof {
                assert(data_line_ok(h, line, target_r as int, target_k as int));
            }
            line_idx += 1;
            continue;
        }
        let params = trim(fields[params_idx].as_str());
        let (r, k, u, v) = match parse_params(params.as_str()) {
            Ok(t) => t,
            Err(e) => {
                proof {
                    assert(!data_line_ok(h, line, target_r as int, target_k as int));
                }
                return Err(e);
            },
        };
        if r != target_r || k != target_k {
            proof {
                assert(data_line_ok(h, line, target_r as int, target_k as int));
            }
            line_idx += 1;
            continue;
        }
        let values = match row_values(&fields, &loops) {
            Ok(x) => x,
            Err(e) => {
                proof {
                    let a = choose|a: int| 0 <= a < loops@.len() && !(coeff_spec(fields@[(#[trigger] loops@[a]).0 as int]@) is Some);
                    let j = loops@[a].0 as int;
                    assert(fv[j] == fields@[j]@);
                    assert(h[j] == header@[j]@);
                    assert(is_loop_column(h[j]));
                    assert(!data_line_ok(h, line, target_r as int, target_k as int));
                }
                return Err(e);
            },
        };
        proof {
            assert forall|j: int| 0 <= j < h.len() && is_loop_column(#[trigger] h[j]) implies coeff_spec(fv[j]) is Some by {
                assert(h[j] == header@[j]@);
                let a = choose|a: int| 0 <= a < loops@.len() && (#[trigger] loops@[a]).0 == j;
                assert(fv[j] == fields@[j]@);
            }
            assert(data_line_ok(h, line, target_r as int, target_k as int));
        }
        add_row(&mut rows, &mut u_order, &mut v_order, ObservableRow { u, v, values }, Ghost(loops@.len() as int));
        line_idx += 1;
    }
    Ok(ObservablesTable { loops: loop_values, rows, u_order, v_order })
}


/// The position of the last occurrence of `value` in `list`.
fn last_position(list: &Vec<usize>, value: usize) -> (r: Option<usize>)
    ensures
        r is None <==> forall|a: int| 0 <= a < list@.len() ==> list@[a] != value,
        r matches Some(a) ==> a < list@.len() && list@[a as int] == value && forall|b: int|
            a < b < list@.len() ==> list@[b] != value,
{
    let mut found: Option<usize> = None;
    let mut a: usize = 0;
    while a < list.len()
        invariant
            a <= list@.len(),
            found is None <==> forall|t: int| 0 <= t < a ==> list@[t] != value,
            found matches Some(f) ==> f < a && list@[f as int] == value && forall|b: int| f < b < a ==> list@[b] != value,
        decreases list@.len() - a,
    {
        if list[a] == value {
            found = Some(a);
        }
        a += 1;
    }
    found
}

/// The summed values for each prefix-suffix pair, in order of first appearance.
struct PairValues {
    u: String,
    v: String,
    values: Vec<Rational>,
}

/// The values of one row at the chosen loop positions.
fn select_values(row: &ObservableRow, positions: &Vec<usize>) -> (r: Vec<Rational>)
    requires
        forall|a: int| 0 <= a < positions@.len() ==> #[trigger] positions@[a] < row.values@.len(),
    ensures
        r@.len() == positions@.len(),
        forall|a: int| 0 <= a < positions@.len() ==> #[trigger] r@[a] == row.values@[positions@[a] as int],
{
    let mut out: Vec<Rational> = Vec::with_capacity(positions.len());
    let mut a: usize = 0;
    while a < positions.len()
        invariant
            forall|t: int| 0 <= t < positions@.len() ==> #[trigger] positions@[t] < row.values@.len(),
            a <= positions@.len(),
            out@.len() == a,
            forall|t: int| 0 <= t < a ==> #[trigger] out@[t] == row.values@[positions@[t] as int],
        decreases positions@.len() - a,
    {
        out.push(row.values[positions[a]]);
        a += 1;
    }
    out
}

/// Adds `add` entrywise into `acc`; an error when a sum leaves `i64`.
fn add_values(acc: &mut Vec<Rational>, add: &Vec<Rational>) -> (r: Result<(), ExperimentError>)
    requires
        old(acc)@.len() == add@.len(),
        forall|a: int| 0 <= a < old(acc)@.len() ==> (#[trigger] old(acc)@[a]).denom > 0,
        forall|a: int| 0 <= a < add@.len() ==> (#[trigger] add@[a]).denom > 0,
    ensures
        final(acc)@.len() == old(acc)@.len(),
        forall|a: int| 0 <= a < final(acc)@.len() ==> (#[trigger] final(acc)@[a]).denom > 0,
        r is Ok <==> forall|a: int| 0 <= a < add@.len() ==> #[trigger] add_rat(old(acc)@[a], add@[a]) is Some,
        r is Ok ==> forall|a: int| 0 <= a < add@.len() ==> #[trigger] add_rat(old(acc)@[a], add@[a]) == Some(final(acc)@[a]),
{
    let mut a: usize = 0;
    while a < acc.len()
        invariant
            acc@.len() == add@.len(),
            add@.len() == old(acc)@.len(),
            forall|t: int| a <= t < acc@.len() ==> #[trigger] acc@[t] == old(acc)@[t],
            forall|t: int| 0 <= t < a ==> #[trigger] add_rat(old(acc)@[t], add@[t]) == Some(acc@[t]),
            forall|t: int| 0 <= t < acc@.len() ==> (#[trigger] acc@[t]).denom > 0,
            forall|t: int| 0 <= t < add@.len() ==> (#[trigger] add@[t]).denom > 0,
            a <= acc@.len(),
        decreases acc@.len() - a,
    {
        match rational_add(acc[a], add[a]) {
            Some(sum) => {
                acc.set(a, sum);
            },
            None => {
                proof {
                    assert(add_rat(old(acc)@[a as int], add@[a as int]) is None);
                }
                return Err(ExperimentError::InvalidConfig("coefficient sum overflows".to_string()));
            },
        }
        a += 1;
    }
    Ok(())
}

/// The value at position `loop_idx` of the last of the first `n` pairs with
/// prefix `u` and suffix `v`; zero when there is none.
spec fn pair_cell(pairs: Seq<PairValues>, u: Seq<char>, v: Seq<char>, loop_idx: int, n: int) -> Rational
    decreases n,
{
    if n <= 0 {
        Rational { numer: 0, denom: 1 }
    } else if pairs[n - 1].u@ == u && pairs[n - 1].v@ == v {
        pairs[n - 1].values@[loop_idx]
    } else {
        pair_cell(pairs, u, v, loop_idx, n - 1)
    }
}

/// The value at position `pos` of the last of the first `n` rows with prefix
/// `u` and suffix `v`; zero when there is none.
pub open spec fn row_cell(rows: Seq<ObservableRow>, u: Seq<char>, v: Seq<char>, pos: int, n: int) -> Rational
    decreases n,
{
    if n <= 0 {
        Rational { numer: 0, denom: 1 }
    } else if rows[n - 1].u@ == u && rows[n - 1].v@ == v {
        rows[n - 1].values@[pos]
    } else {
        row_cell(rows, u, v, pos, n - 1)
    }
}

/// The matrix of values at position `loop_idx`: rows by prefix, columns by
/// suffix, the value of the last pair with that prefix and suffix, zero
/// where a pair has no row.
fn build_matrix(u_order: &Vec<String>, v_order: &Vec<String>, pairs: &Vec<PairValues>, loop_idx: usize) -> (r: Vec<Vec<Rational>>)
    requires
        forall|q: int| 0 <= q < pairs@.len() ==> loop_idx < (#[trigger] pairs@[q]).values@.len(),
    ensures
        r@.len() == u_order@.len(),
        rectangular_rat(r@, v_order@.len() as int),
        forall|i: int, j: int|
            0 <= i < r@.len() && 0 <= j < v_order@.len() ==> (#[trigger] r@[i]@[j]) == pair_cell(
                pairs@,
                u_order@[i]@,
                v_order@[j]@,
                loop_idx as int,
                pairs@.len() as int,
            ),
{
    let mut out: Vec<Vec<Rational>> = Vec::with_capacity(u_order.len());
    let mut i: usize = 0;
    while i < u_order.len()
        invariant
            i <= u_order@.len(),
            out@.len() == i,
            rectangular_rat(out@, v_order@.len() as int),
            forall|q: int| 0 <= q < pairs@.len() ==> loop_idx < (#[trigger] pairs@[q]).values@.len(),
            forall|t: int, j: int|
                0 <= t < i && 0 <= j < v_order@.len() ==> (#[trigger] out@[t]@[j]) == pair_cell(
                    pairs@,
                    u_order@[t]@,
                    v_order@[j]@,
                    loop_idx as int,
                    pairs@.len() as int,
                ),
        decreases u_order@.len() - i,
    {
        let mut row: Vec<Rational> = Vec::with_capacity(v_order.len());
        let mut j: usize = 0;
        while j < v_order.len()
            invariant
                i < u_order@.len(),
                j <= v_order@.len(),
                row@.len() == j,
                forall|q: int| 0 <= q < pairs@.len() ==> loop_idx < (#[trigger] pairs@[q]).values@.len(),
                forall|t: int| 0 <= t < j ==> (#[trigger] row@[t]) == pair_cell(
                    pairs@,
                    u_order@[i as int]@,
                    v_order@[t]@,
                    loop_idx as int,
                    pairs@.len() as int,
                ),
            decreases v_order@.len() - j,
        {
            let mut value = Rational { numer: 0, denom: 1 };
            let mut q: usize = 0;
            while q < pairs.len()
                invariant
                    i < u_order@.len(),
                    j < v_order@.len(),
                    q <= pairs@.len(),
                    forall|w: int| 0 <= w < pairs@.len() ==> loop_idx < (#[trigger] pairs@[w]).values@.len(),
                    value == pair_cell(pairs@, u_order@[i as int]@, v_order@[j as int]@, loop_idx as int, q as int),
                decreases pairs@.len() - q,
            {
                if str_eq(pairs[q].u.as_str(), u_order[i].as_str()) && str_eq(pairs[q].v.as_str(), v_order[j].as_str()) {
                    value = pairs[q].values[loop_idx];
                }
                q += 1;
            }
            row.push(value);
            j += 1;
        }
        proof {
            assert forall|t: int| 0 <= t < out@.len() + 1 implies #[trigger] out@.push(row)[t]@.len() == v_order@.len() by {
                if t < out@.len() {
                    assert(out@.push(row)[t] == out@[t]);
                }
            }
        }
        out.push(row);
        i += 1;
    }
    out
}

/// A cell is zero or the value of one of the pairs.
proof fn lemma_pair_cell_some(pairs: Seq<PairValues>, u: Seq<char>, v: Seq<char>, loop_idx: int, n: int)
    requires
        n <= pairs.len(),
    ensures
        pair_cell(pairs, u, v, loop_idx, n) == (Rational { numer: 0, denom: 1 }) || exists|q: int|
            0 <= q < pairs.len() && pairs[q].values@[loop_idx] == pair_cell(pairs, u, v, loop_idx, n),
    decreases n,
{
    if n > 0 {
        lemma_pair_cell_some(pairs, u, v, loop_idx, n - 1);
    }
}

/// Pairs that copy the rows one for one, at the chosen positions, have the
/// rows' cells.
proof fn lemma_pair_row_cell(
    pairs: Seq<PairValues>,
    rows: Seq<ObservableRow>,
    positions: Seq<usize>,
    loop_idx: int,
    u: Seq<char>,
    v: Seq<char>,
    n: int,
)
    requires
        n <= pairs.len() == rows.len(),
        0 <= loop_idx < positions.len(),
        forall|q: int| 0 <= q < pairs.len() ==> (#[trigger] pairs[q]).u@ == rows[q].u@ && pairs[q].v@ == rows[q].v@,
        forall|q: int, t: int|
            0 <= q < pairs.len() && 0 <= t < positions.len() ==> (#[trigger] pairs[q].values@[t]) == rows[q].values@[positions[t] as int],
        forall|q: int| 0 <= q < pairs.len() ==> (#[trigger] pairs[q]).values@.len() == positions.len(),
    ensures
        pair_cell(pairs, u, v, loop_idx, n) == row_cell(rows, u, v, positions[loop_idx] as int, n),
    decreases n,
{
    if n > 0 {
        lemma_pair_row_cell(pairs, rows, positions, loop_idx, u, v, n - 1);
        assert(pairs[n - 1].values@[loop_idx] == rows[n - 1].values@[positions[loop_idx] as int]);
    }
}

/// `pos` is the place of the last occurrence of `value` in `list`.
pub open spec fn is_last_pos(list: Seq<usize>, value: usize, pos: int) -> bool {
    0 <= pos < list.len() && list[pos] == value && forall|b: int| pos < b < list.len() ==> list[b] != value
}

/// `m` is, modulo `p`, the sub-block of the table at loop position `pos`:
/// rows by prefix, columns by suffix, each entry the residue of the table's
/// value there (zero where the table has no row).
pub open spec fn residue_block(m: Seq<Vec<i64>>, table: ObservablesTable, pos: int, p: int) -> bool {
    &&& m.len() == table.u_order@.len()
    &&& forall|i: int| 0 <= i < m.len() ==> (#[trigger] m[i])@.len() == table.v_order@.len()
    &&& forall|i: int, j: int|
        0 <= i < m.len() && 0 <= j < table.v_order@.len() ==> (#[trigger] m[i]@[j]) == residue(
            row_cell(table.rows@, table.u_order@[i]@, table.v_order@[j]@, pos, table.rows@.len() as int),
            p,
        )
}

/// `ids` are the names with `prefix` put before each.
pub open spec fn ids_of(ids: Seq<String>, prefix: Seq<char>, names: Seq<String>) -> bool {
    &&& ids.len() == names.len()
    &&& forall|i: int| 0 <= i < ids.len() ==> (#[trigger] ids[i])@ == prefix + names[i]@
}

/// `mt` is `m` transposed, with `cols` rows.
pub open spec fn transposed(mt: Seq<Vec<i64>>, m: Seq<Vec<i64>>, cols: int) -> bool {
    &&& mt.len() == cols
    &&& forall|j: int| 0 <= j < cols ==> (#[trigger] mt[j])@.len() == m.len()
    &&& forall|j: int, i: int| 0 <= j < cols && 0 <= i < m.len() ==> #[trigger] mt[j]@[i] == m[i]@[j]
}

/// A row dependency of the report: modulo its prime (one of the primes),
/// it writes a row of its loop's sub-block, named `u=<prefix>`, as a
/// combination of other rows, whenever that prime has all its inverses.
pub open spec fn row_dep_ok(table: ObservablesTable, primes: Seq<i64>, d: HankelDependency) -> bool {
    exists|pos: int, m: Seq<Vec<i64>>, ids: Seq<String>|
        #![trigger residue_block(m, table, pos, d.prime as int), ids_of(ids, "u="@, table.u_order@)]
        is_last_pos(table.loops@, d.loop_index, pos) && primes.contains(d.prime) && residue_block(m, table, pos, d.prime as int)
            && ids_of(ids, "u="@, table.u_order@) && (inverses_ok(d.prime as int) ==> dependency_of(m, ids, d, d.prime as int))
}

/// A column dependency of the report: the same for a column of its loop's
/// sub-block, named `v=<suffix>`.
pub open spec fn col_dep_ok(table: ObservablesTable, primes: Seq<i64>, d: HankelDependency) -> bool {
    exists|pos: int, m: Seq<Vec<i64>>, mt: Seq<Vec<i64>>, ids: Seq<String>|
        #![trigger residue_block(m, table, pos, d.prime as int), transposed(mt, m, table.v_order@.len() as int), ids_of(ids, "v="@, table.v_order@)]
        is_last_pos(table.loops@, d.loop_index, pos) && primes.contains(d.prime) && residue_block(m, table, pos, d.prime as int)
            && transposed(mt, m, table.v_order@.len() as int) && ids_of(ids, "v="@, table.v_order@) && (inverses_ok(d.prime as int)
            ==> dependency_of(mt, ids, d, d.prime as int))
}

/// The rank of a loop's row: that of the table's sub-block at the loop's
/// (last) position, modulo one of the primes, whenever that prime has all
/// its inverses.
pub open spec fn block_rank_ok(table: ObservablesTable, primes: Seq<i64>, s: HankelSubblockStats) -> bool {
    exists|pos: int, p: i64, m: Seq<Vec<i64>>|
        #![trigger residue_block(m, table, pos, p as int)]
        is_last_pos(table.loops@, s.loop_index, pos) && primes.contains(p) && residue_block(m, table, pos, p as int) && (
        inverses_ok(p as int) ==> s.rank_mod_p == rank_spec(m, p as int))
}

/// The ids `prefix=<name>` for a list of names.
fn prefixed_ids(prefix: &str, names: &Vec<String>) -> (r: Vec<String>)
    ensures
        r@.len() == names@.len(),
        forall|a: int| 0 <= a < names@.len() ==> (#[trigger] r@[a])@ == prefix@ + names@[a]@,
{
    let mut out: Vec<String> = Vec::with_capacity(names.len());
    let mut a: usize = 0;
    while a < names.len()
        invariant
            a <= names@.len(),
            out@.len() == a,
            forall|t: int| 0 <= t < a ==> (#[trigger] out@[t])@ == prefix@ + names@[t]@,
        decreases names@.len() - a,
    {
        let mut id = String::new();
        id.append(prefix);
        id.append(names[a].as_str());
        out.push(id);
        a += 1;
    }
    out
}

/// Each chosen loop order, if any are chosen, is one of the table's.
pub open spec fn loops_listed(chosen: Option<Vec<usize>>, table_loops: Seq<usize>) -> bool {
    match chosen {
        Some(list) => forall|a: int| 0 <= a < list@.len() ==> table_loops.contains(#[trigger] list@[a]),
        None => true,
    }
}

/// A table of integer counts in which no two rows share a prefix and a suffix.
pub open spec fn plain_counts(rows: Seq<ObservableRow>) -> bool {
    &&& forall|a: int, t: int| 0 <= a < rows.len() && 0 <= t < rows[a].values@.len() ==> (#[trigger] rows[a].values@[t]).denom == 1
    &&& forall|a: int, b: int| 0 <= a < b < rows.len() ==> !((#[trigger] rows[a]).u@ == (#[trigger] rows[b]).u@ && rows[a].v@ == rows[b].v@)
}

/// The sub-block analysis of an observables table: for each chosen loop order
/// the matrix of summed values by prefix and suffix, its largest rank modulo the
/// primes, and (when `exact`) its row and column dependencies.
pub fn hankel_subblock_analysis(cfg: &EsymbHankelSubblockConfig, table: &ObservablesTable) -> (r: Result<
    HankelSubblockReport,
    ExperimentError,
>)
    requires
        primes_ok(cfg.primes@),
        table_ok(table.rows@, table.u_order@, table.v_order@, table.loops@.len() as int),
        forall|a: int, t: int|
            0 <= a < table.rows@.len() && 0 <= t < table.rows@[a].values@.len() ==> (#[trigger] table.rows@[a].values@[t]).denom > 0,
        table.u_order@.len() < usize::MAX,
        table.v_order@.len() < usize::MAX,
    ensures
        cfg.primes@.len() == 0 ==> r is Err,
        (table.u_order@.len() == 0 || table.v_order@.len() == 0) ==> r is Err,
        (cfg.loops matches Some(list) && exists|a: int| 0 <= a < list@.len() && !table.loops@.contains(#[trigger] list@[a])) ==> r is Err,
        r matches Ok(rep) ==> rep.nrows == table.u_order@.len() && rep.ncols == table.v_order@.len() && rep.loops@ == (
        match cfg.loops {
            Some(list) => list@,
            None => table.loops@,
        }) && is_permutation_of(rep.stats@.map_values(|s: HankelSubblockStats| s.loop_index), rep.loops@) && (forall|a: int|
            0 <= a < rep.stats@.len() ==> (#[trigger] rep.stats@[a]).nrows == rep.nrows && rep.stats@[a].ncols == rep.ncols
                && rep.stats@[a].rank_mod_p <= rep.nrows && rep.stats@[a].rank_mod_p <= rep.ncols) && (forall|a: int, b: int|
            0 <= a < b < rep.stats@.len() ==> (#[trigger] rep.stats@[a]).loop_index <= (#[trigger] rep.stats@[b]).loop_index)
            && (forall|a: int, b: int|
            0 <= a < b < rep.row_deps@.len() ==> !dep_less(#[trigger] rep.row_deps@[b], #[trigger] rep.row_deps@[a]))
            && (forall|a: int, b: int|
            0 <= a < b < rep.col_deps@.len() ==> !dep_less(#[trigger] rep.col_deps@[b], #[trigger] rep.col_deps@[a]))
            && (!cfg.exact ==> rep.row_deps@.len() == 0 && rep.col_deps@.len() == 0),
        ((!cfg.exact || crate::rank_scan::rank::all_inverses_ok(cfg.primes@)) && cfg.primes@.len() > 0 && table.u_order@.len() > 0
            && table.v_order@.len() > 0 && loops_listed(cfg.loops, table.loops@) && plain_counts(table.rows@)) ==> r is Ok,
        r matches Ok(rep) ==> plain_counts(table.rows@) ==> forall|a: int|
            0 <= a < rep.stats@.len() ==> block_rank_ok(*table, cfg.primes@, #[trigger] rep.stats@[a]),
        r matches Ok(rep) ==> plain_counts(table.rows@) ==> forall|a: int|
            0 <= a < rep.row_deps@.len() ==> row_dep_ok(*table, cfg.primes@, #[trigger] rep.row_deps@[a]),
        r matches Ok(rep) ==> plain_counts(table.rows@) ==> forall|a: int|
            0 <= a < rep.col_deps@.len() ==> col_dep_ok(*table, cfg.primes@, #[trigger] rep.col_deps@[a]),
{
    let ghost plain = plain_counts(table.rows@);
    if cfg.primes.len() == 0 {
        return Err(ExperimentError::InvalidConfig("--primes must not be empty".to_string()));
    }
    if table.u_order.len() == 0 || table.v_order.len() == 0 {
        return Err(ExperimentError::InvalidConfig("no prefix-suffix rows for requested r,k".to_string()));
    }
    let loops: Vec<usize> = match &cfg.loops {
        Some(list) => {
            let mut a: usize = 0;
            while a < list.len()
                invariant
                    a <= list@.len(),
                    forall|t: int| 0 <= t < a ==> table.loops@.contains(#[trigger] list@[t]),
                    cfg.loops matches Some(l) && l@ == list@,
                decreases list@.len() - a,
            {
                match last_position(&table.loops, list[a]) {
                    None => {
                        proof {
                            assert(!table.loops@.contains(list@[a as int]));
                            assert(!loops_listed(cfg.loops, table.loops@));
                        }
                        return Err(ExperimentError::InvalidConfig("loop not found in observables CSV".to_string()));
                    },
                    Some(_) => {},
                }
                a += 1;
            }
            list.clone()
        },
        None => table.loops.clone(),
    };
    proof {
        assert forall|t: int| 0 <= t < loops@.len() implies table.loops@.contains(#[trigger] loops@[t]) by {
            if cfg.loops is None {
                assert(table.loops@[t] == loops@[t]);
            }
        }
    }
    let mut positions: Vec<usize> = Vec::with_capacity(loops.len());
    let mut a: usize = 0;
    while a < loops.len()
        invariant
            a <= loops@.len(),
            positions@.len() == a,
            forall|t: int| 0 <= t < a ==> #[trigger] positions@[t] < table.loops@.len(),
            forall|t: int| 0 <= t < a ==> is_last_pos(table.loops@, loops@[t], #[trigger] positions@[t] as int),
            forall|t: int| 0 <= t < loops@.len() ==> table.loops@.contains(#[trigger] loops@[t]),
        decreases loops@.len() - a,
    {
        match last_position(&table.loops, loops[a]) {
            Some(pos) => positions.push(pos),
            None => {
                proof {
                    assert(table.loops@.contains(loops@[a as int]));
                }
                return Err(ExperimentError::InvalidConfig("loop not found in observables CSV".to_string()));
            },
        }
        a += 1;
    }
    let mut pairs: Vec<PairValues> = Vec::new();
    let mut ri: usize = 0;
    while ri < table.rows.len()
        invariant
            ri <= table.rows@.len(),
            table_ok(table.rows@, table.u_order@, table.v_order@, table.loops@.len() as int),
            forall|a: int, t: int|
                0 <= a < table.rows@.len() && 0 <= t < table.rows@[a].values@.len() ==> (#[trigger] table.rows@[a].values@[t]).denom > 0,
            forall|t: int| 0 <= t < positions@.len() ==> #[trigger] positions@[t] < table.loops@.len(),
            forall|q: int| 0 <= q < pairs@.len() ==> (#[trigger] pairs@[q]).values@.len() == positions@.len(),
            forall|q: int, t: int| 0 <= q < pairs@.len() && 0 <= t < pairs@[q].values@.len() ==> (#[trigger] pairs@[q].values@[t]).denom > 0,
            plain == plain_counts(table.rows@),
            plain ==> pairs@.len() == ri && forall|q: int| 0 <= q < ri ==> (#[trigger] pairs@[q]).u@ == table.rows@[q].u@ && pairs@[q].v@ == table.rows@[q].v@,
            plain ==> forall|q: int, t: int| 0 <= q < pairs@.len() && 0 <= t < pairs@[q].values@.len() ==> (#[trigger] pairs@[q].values@[t]).denom == 1,
            plain ==> forall|q: int, t: int|
                0 <= q < pairs@.len() && 0 <= t < positions@.len() ==> (#[trigger] pairs@[q].values@[t]) == table.rows@[q].values@[positions@[t] as int],
        decreases table.rows@.len() - ri,
    {
        let row = &table.rows[ri];
        proof {
            assert(row.values@.len() == table.loops@.len());
        }
        let selected = select_values(row, &positions);
        let mut q: usize = 0;
        let mut merged = false;
        while q < pairs.len()
            invariant
                q <= pairs@.len(),
                selected@.len() == positions@.len(),
                forall|t: int| 0 <= t < selected@.len() ==> (#[trigger] selected@[t]).denom > 0,
                forall|w: int| 0 <= w < pairs@.len() ==> (#[trigger] pairs@[w]).values@.len() == positions@.len(),
                forall|w: int, t: int| 0 <= w < pairs@.len() && 0 <= t < pairs@[w].values@.len() ==> (#[trigger] pairs@[w].values@[t]).denom > 0,
                ri < table.rows@.len(),
                *row == table.rows@[ri as int],
                plain == plain_counts(table.rows@),
                plain ==> !merged && pairs@.len() == ri && forall|w: int| 0 <= w < ri ==> (#[trigger] pairs@[w]).u@ == table.rows@[w].u@ && pairs@[w].v@ == table.rows@[w].v@,
                plain ==> forall|w: int, t: int| 0 <= w < pairs@.len() && 0 <= t < pairs@[w].values@.len() ==> (#[trigger] pairs@[w].values@[t]).denom == 1,
                plain ==> forall|w: int, t: int|
                    0 <= w < pairs@.len() && 0 <= t < positions@.len() ==> (#[trigger] pairs@[w].values@[t]) == table.rows@[w].values@[positions@[t] as int],
            decreases pairs@.len() - q,
        {
            proof {
                if plain && q < pairs@.len() {
                    assert(!((table.rows@[q as int]).u@ == (table.rows@[ri as int]).u@ && table.rows@[q as int].v@ == table.rows@[ri as int].v@));
                }
            }
            if !merged && str_eq(pairs[q].u.as_str(), row.u.as_str()) && str_eq(pairs[q].v.as_str(), row.v.as_str()) {
                let mut vals = pairs[q].values.clone();
                proof {
                    assert(vals@ == pairs@[q as int].values@);
                }
                add_values(&mut vals, &selected)?;
                let entry = PairValues { u: pairs[q].u.clone(), v: pairs[q].v.clone(), values: vals };
                pairs.set(q, entry);
                merged = true;
            }
            q += 1;
        }
        if !merged {
            let ghost old_pairs = pairs@;
            pairs.push(PairValues { u: row.u.clone(), v: row.v.clone(), values: selected });
            proof {
                if plain {
                    assert forall|w: int| 0 <= w < ri + 1 implies (#[trigger] pairs@[w]).u@ == table.rows@[w].u@ && pairs@[w].v@ == table.rows@[w].v@ by {
                        if w < ri {
                            assert(pairs@[w] == old_pairs[w]);
                        }
                    }
                    assert forall|w: int, t: int| 0 <= w < pairs@.len() && 0 <= t < pairs@[w].values@.len() implies (#[trigger] pairs@[w].values@[t]).denom == 1 by {
                        if w < ri {
                            assert(pairs@[w] == old_pairs[w]);
                        } else {
                            assert(pairs@[w].values@[t] == table.rows@[ri as int].values@[positions@[t] as int]);
                        }
                    }
                    assert forall|w: int, t: int|
                        0 <= w < pairs@.len() && 0 <= t < positions@.len() implies (#[trigger] pairs@[w].values@[t]) == table.rows@[w].values@[positions@[t] as int] by {
                        if w < ri {
                            assert(pairs@[w] == old_pairs[w]);
                        }
                    }
                }
            }
        }
        ri += 1;
    }
    let nrows = table.u_order.len();
    let ncols = table.v_order.len();
    let mut stats: Vec<HankelSubblockStats> = Vec::new();
    let mut row_deps: Vec<HankelDependency> = Vec::new();
    let mut col_deps: Vec<HankelDependency> = Vec::new();
    let row_ids = prefixed_ids("u=", &table.u_order);
    let col_ids = prefixed_ids("v=", &table.v_order);
    let mut li: usize = 0;
    while li < loops.len()
        invariant
            primes_ok(cfg.primes@),
            cfg.primes@.len() > 0,
            nrows == table.u_order@.len(),
            ncols == table.v_order@.len(),
            nrows > 0,
            ncols > 0,
            nrows < usize::MAX,
            ncols < usize::MAX,
            row_ids@.len() == nrows,
            col_ids@.len() == ncols,
            positions@.len() == loops@.len(),
            forall|q: int| 0 <= q < pairs@.len() ==> (#[trigger] pairs@[q]).values@.len() == positions@.len(),
            forall|q: int, t: int| 0 <= q < pairs@.len() && 0 <= t < pairs@[q].values@.len() ==> (#[trigger] pairs@[q].values@[t]).denom > 0,
            li <= loops@.len(),
            stats@.len() == li,
            forall|a: int| 0 <= a < li ==> (#[trigger] stats@[a]).loop_index == loops@[a],
            forall|a: int| 0 <= a < stats@.len() ==> (#[trigger] stats@[a]).nrows == nrows && stats@[a].ncols == ncols
                && stats@[a].rank_mod_p <= nrows && stats@[a].rank_mod_p <= ncols,
            forall|a: int| 0 <= a < row_deps@.len() ==> (#[trigger] row_deps@[a]).prime >= 0,
            forall|a: int| 0 <= a < col_deps@.len() ==> (#[trigger] col_deps@[a]).prime >= 0,
            !cfg.exact ==> row_deps@.len() == 0 && col_deps@.len() == 0,
            plain == plain_counts(table.rows@),
            plain ==> forall|q: int, t: int| 0 <= q < pairs@.len() && 0 <= t < pairs@[q].values@.len() ==> (#[trigger] pairs@[q].values@[t]).denom == 1,
            forall|t: int| 0 <= t < loops@.len() ==> is_last_pos(table.loops@, loops@[t], #[trigger] positions@[t] as int),
            plain ==> pairs@.len() == table.rows@.len(),
            plain ==> forall|q: int| 0 <= q < pairs@.len() ==> (#[trigger] pairs@[q]).u@ == table.rows@[q].u@ && pairs@[q].v@ == table.rows@[q].v@,
            plain ==> forall|q: int, t: int|
                0 <= q < pairs@.len() && 0 <= t < positions@.len() ==> (#[trigger] pairs@[q].values@[t]) == table.rows@[q].values@[positions@[t] as int],
            table.u_order@.len() == nrows,
            table.v_order@.len() == ncols,
            plain ==> forall|a: int| 0 <= a < stats@.len() ==> block_rank_ok(*table, cfg.primes@, #[trigger] stats@[a]),
            plain ==> forall|a: int| 0 <= a < row_deps@.len() ==> row_dep_ok(*table, cfg.primes@, #[trigger] row_deps@[a]),
            plain ==> forall|a: int| 0 <= a < col_deps@.len() ==> col_dep_ok(*table, cfg.primes@, #[trigger] col_deps@[a]),
            ids_of(row_ids@, "u="@, table.u_order@),
            ids_of(col_ids@, "v="@, table.v_order@),
        decreases loops@.len() - li,
    {
        let loop_value = loops[li];
        let matrix = build_matrix(&table.u_order, &table.v_order, &pairs, li);
        proof {
            assert(matrix@[0]@.len() == ncols);
            if plain {
                let p0 = cfg.primes@[0] as int;
                assert(prime_ok(p0));
                assert(!unusable_matrix(matrix@, p0)) by {
                    assert forall|i: int, j: int| 0 <= i < matrix@.len() && 0 <= j < matrix@[i]@.len() implies !((#[trigger] matrix@[i]@[j]).denom as int % p0 == 0) by {
                        assert(matrix@[i]@.len() == ncols);
                        lemma_pair_cell_some(pairs@, table.u_order@[i]@, table.v_order@[j]@, li as int, pairs@.len() as int);
                        if matrix@[i]@[j] != (Rational { numer: 0, denom: 1 }) {
                            let q = choose|q: int| 0 <= q < pairs@.len() && pairs@[q].values@[li as int] == matrix@[i]@[j];
                            assert(pairs@[q].values@[li as int].denom == 1);
                        }
                        assert(matrix@[i]@[j].denom == 1);
                        assert(1int % p0 == 1) by (nonlinear_arith)
                            requires
                                p0 >= 2,
                        ;
                    }
                }
            }
        }
        let (rank, prime, mod_matrix) = rank_and_prime(matrix.as_slice(), cfg.primes.as_slice())?;
        let entry = HankelSubblockStats { loop_index: loop_value, nrows, ncols, rank_mod_p: rank };
        proof {
            if plain {
                let pos = positions@[li as int] as int;
                let m = mod_matrix@;
                assert(residue_block(m, *table, pos, prime as int)) by {
                    assert forall|i: int, j: int| 0 <= i < m.len() && 0 <= j < table.v_order@.len() implies (#[trigger] m[i]@[j])
                        == residue(
                        row_cell(table.rows@, table.u_order@[i]@, table.v_order@[j]@, pos, table.rows@.len() as int),
                        prime as int,
                    ) by {
                        lemma_pair_row_cell(
                            pairs@,
                            table.rows@,
                            positions@,
                            li as int,
                            table.u_order@[i]@,
                            table.v_order@[j]@,
                            pairs@.len() as int,
                        );
                        assert(m[i]@[j] == residue(matrix@[i]@[j], prime as int));
                    }
                }
                assert(is_last_pos(table.loops@, entry.loop_index, pos));
                assert(block_rank_ok(*table, cfg.primes@, entry));
            }
        }
        let ghost st0 = stats@;
        stats.push(entry);
        proof {
            if plain {
                assert forall|a: int| 0 <= a < stats@.len() implies block_rank_ok(*table, cfg.primes@, #[trigger] stats@[a]) by {
                    if a < st0.len() {
                        assert(stats@[a] == st0[a]);
                    }
                }
            }
        }
        if cfg.exact {
            proof {
                let k = choose|k: int| 0 <= k < cfg.primes@.len() && cfg.primes@[k] == prime;
                assert(prime_ok(cfg.primes@[k] as int));
                if crate::rank_scan::rank::all_inverses_ok(cfg.primes@) {
                    assert(inverses_ok(cfg.primes@[k] as int));
                }
                assert(mod_matrix@.len() == row_ids@.len());
                assert(rectangular(mod_matrix@, mod_matrix@[0]@.len() as int));
            }
            let mut deps = compute_dependencies_mod_p(mod_matrix.as_slice(), row_ids.as_slice(), loop_value, prime)?;
            let ghost rd0 = row_deps@;
            let ghost nd = deps@;
            row_deps.append(&mut deps);
            proof {
                assert forall|a: int| 0 <= a < row_deps@.len() implies (#[trigger] row_deps@[a]).prime >= 0 by {
                    if a >= rd0.len() {
                        assert(row_deps@[a] == nd[a - rd0.len()]);
                    }
                }
                if plain {
                    let pos = positions@[li as int] as int;
                    assert forall|a: int| 0 <= a < row_deps@.len() implies row_dep_ok(*table, cfg.primes@, #[trigger] row_deps@[a]) by {
                        if a < rd0.len() {
                            assert(row_deps@[a] == rd0[a]);
                        } else {
                            let dd = nd[a - rd0.len()];
                            assert(row_deps@[a] == dd);
                            assert(residue_block(mod_matrix@, *table, pos, dd.prime as int));
                            assert(ids_of(row_ids@, "u="@, table.u_order@));
                            assert(is_last_pos(table.loops@, dd.loop_index, pos));
                        }
                    }
                }
            }
            proof {
                assert forall|j: int| 0 <= j < mod_matrix@.len() implies #[trigger] mod_matrix@[j]@.len() <= mod_matrix@[0]@.len() by {}
            }
            let col_matrix = transpose_mod_p(mod_matrix.as_slice());
            proof {
                assert(col_matrix@.len() == ncols);
                assert forall|j: int, i: int| 0 <= j < col_matrix@.len() && 0 <= i < col_matrix@[j]@.len() implies 0 <= #[trigger] col_matrix@[j]@[i] < prime by {
                    assert(col_matrix@[j]@[i] == mod_matrix@[i]@[j]);
                }
                assert(transposed(col_matrix@, mod_matrix@, table.v_order@.len() as int));
                assert(col_matrix@.len() == col_ids@.len());
                assert(rectangular(col_matrix@, col_matrix@[0]@.len() as int));
            }
            let mut deps = compute_dependencies_mod_p(col_matrix.as_slice(), col_ids.as_slice(), loop_value, prime)?;
            let ghost cd0 = col_deps@;
            let ghost nc2 = deps@;
            col_deps.append(&mut deps);
            proof {
                assert forall|a: int| 0 <= a < col_deps@.len() implies (#[trigger] col_deps@[a]).prime >= 0 by {
                    if a >= cd0.len() {
                        assert(col_deps@[a] == nc2[a - cd0.len()]);
                    }
                }
                if plain {
                    let pos = positions@[li as int] as int;
                    assert forall|a: int| 0 <= a < col_deps@.len() implies col_dep_ok(*table, cfg.primes@, #[trigger] col_deps@[a]) by {
                        if a < cd0.len() {
                            assert(col_deps@[a] == cd0[a]);
                        } else {
                            let dd = nc2[a - cd0.len()];
                            assert(col_deps@[a] == dd);
                            assert(residue_block(mod_matrix@, *table, pos, dd.prime as int));
                            assert(transposed(col_matrix@, mod_matrix@, table.v_order@.len() as int));
                            assert(ids_of(col_ids@, "v="@, table.v_order@));
                            assert(is_last_pos(table.loops@, dd.loop_index, pos));
                        }
                    }
                }
            }
        }
        li += 1;
    }
    let ghost rd_unsorted = row_deps@;
    let ghost cd_unsorted = col_deps@;
    sort_dependencies(&mut row_deps);
    sort_dependencies(&mut col_deps);
    proof {
        if plain {
            let f = choose|f: Seq<int>|
                #![trigger f.len()]
                f.len() == row_deps@.len() && (forall|t: int|
                    0 <= t < f.len() ==> 0 <= #[trigger] f[t] < rd_unsorted.len() && row_deps@[t] == rd_unsorted[f[t]]) && (forall|s: int, t: int|
                    0 <= s < t < f.len() ==> #[trigger] f[s] != #[trigger] f[t]);
            assert forall|a: int| 0 <= a < row_deps@.len() implies row_dep_ok(*table, cfg.primes@, #[trigger] row_deps@[a]) by {
                assert(row_deps@[a] == rd_unsorted[f[a]]);
            }
            let g = choose|g: Seq<int>|
                #![trigger g.len()]
                g.len() == col_deps@.len() && (forall|t: int|
                    0 <= t < g.len() ==> 0 <= #[trigger] g[t] < cd_unsorted.len() && col_deps@[t] == cd_unsorted[g[t]]) && (forall|s: int, t: int|
                    0 <= s < t < g.len() ==> #[trigger] g[s] != #[trigger] g[t]);
            assert forall|a: int| 0 <= a < col_deps@.len() implies col_dep_ok(*table, cfg.primes@, #[trigger] col_deps@[a]) by {
                assert(col_deps@[a] == cd_unsorted[g[a]]);
            }
        }
    }
    let ghost unsorted = stats@;
    sort_stats(&mut stats);
    proof {
        let f = choose|f: Seq<int>|
            #![trigger f.len()]
            f.len() == stats@.len() && (forall|t: int| 0 <= t < f.len() ==> 0 <= #[trigger] f[t] < unsorted.len() && stats@[t] == unsorted[f[t]])
                && (forall|s: int, t: int| 0 <= s < t < f.len() ==> #[trigger] f[s] != #[trigger] f[t]);
        let keys = stats@.map_values(|s: HankelSubblockStats| s.loop_index);
        assert forall|t: int| 0 <= t < f.len() implies 0 <= #[trigger] f[t] < loops@.len() && keys[t] == loops@[f[t]] by {
            assert(stats@[t] == unsorted[f[t]]);
        }
        assert(is_permutation_of(keys, loops@));
        assert forall|a: int| 0 <= a < stats@.len() implies (#[trigger] stats@[a]).nrows == nrows && stats@[a].ncols == ncols
            && stats@[a].rank_mod_p <= nrows && stats@[a].rank_mod_p <= ncols by {
            assert(stats@[a] == unsorted[f[a]]);
        }
        if plain {
            assert forall|a: int| 0 <= a < stats@.len() implies block_rank_ok(*table, cfg.primes@, #[trigger] stats@[a]) by {
                assert(stats@[a] == unsorted[f[a]]);
            }
        }
    }
    Ok(HankelSubblockReport { loops, stats, row_deps, col_deps, nrows, ncols })
}

/// The head of the report: the parameters of the run.
pub open spec fn md_head(cfg: EsymbHankelSubblockConfig, loops: Seq<usize>) -> Seq<char> {
    "# esymb_hankel_subblock\n\nloops = "@ + list_text(loops.map_values(|v: usize| decimal_digits(v as nat)))
        + "\n\nr = "@ + decimal_digits(cfg.r as nat) + "\n\nk = "@ + decimal_digits(cfg.k as nat) + "\n\nprimes = "@
        + list_text(cfg.primes@.map_values(|v: i64| int_text(v as int))) + "\n\nexact = "@ + (if cfg.exact {
        "true"@
    } else {
        "false"@
    }) + "\n\n"@
}

/// One row of the rank summary.
pub open spec fn md_rank_row(s: HankelSubblockStats) -> Seq<char> {
    "| "@ + decimal_digits(s.loop_index as nat) + " | "@ + decimal_digits(s.nrows as nat) + " | "@ + decimal_digits(
        s.ncols as nat,
    ) + " | "@ + decimal_digits(s.rank_mod_p as nat) + " |\n"@
}

/// The rows of the rank summary.
pub open spec fn md_rank_rows(stats: Seq<HankelSubblockStats>) -> Seq<char>
    decreases stats.len(),
{
    if stats.len() == 0 {
        Seq::empty()
    } else {
        md_rank_rows(stats.drop_last()) + md_rank_row(stats.last())
    }
}

/// The rank summary section, its rows in the given order.
pub open spec fn md_ranks(stats: Seq<HankelSubblockStats>) -> Seq<char> {
    "## rank_summary\n\n"@ + if stats.len() == 0 {
        "_none_\n\n"@
    } else {
        "| loop | nrows | ncols | rank_mod_p |\n| --- | --- | --- | --- |\n"@ + md_rank_rows(stats) + "\n"@
    }
}

/// One sampled dependency.
pub open spec fn md_sample_line(d: HankelDependency) -> Seq<char> {
    "- L"@ + decimal_digits(d.loop_index as nat) + " (p="@ + int_text(d.prime as int) + ") "@ + d.id@ + " = "@
        + terms_text(d.terms@, d.prime as int) + "\n"@
}

/// The lines of the sampled dependencies.
pub open spec fn md_sample_lines(deps: Seq<HankelDependency>) -> Seq<char>
    decreases deps.len(),
{
    if deps.len() == 0 {
        Seq::empty()
    } else {
        md_sample_lines(deps.drop_last()) + md_sample_line(deps.last())
    }
}

/// The sample of at most twenty dependencies, in the given order.
pub open spec fn md_samples(deps: Seq<HankelDependency>) -> Seq<char> {
    if deps.len() == 0 {
        "_none_\n"@
    } else {
        md_sample_lines(deps.take(if deps.len() < 20 {
            deps.len() as int
        } else {
            20
        }))
    }
}

/// The note that closes an exact report.
pub open spec fn md_note() -> Seq<char> {
    "Dependencies are computed over a finite field using the smallest prime that attains the max mod-p rank per loop. Rows or columns that are identical or proportional mod p suggest candidate state merges for prefix/suffix blocks.\n"@
}

/// The whole report, from the statistics sorted by loop and the dependencies
/// in sample order.
pub open spec fn md_spec(
    cfg: EsymbHankelSubblockConfig,
    loops: Seq<usize>,
    stats: Seq<HankelSubblockStats>,
    rows: Seq<HankelDependency>,
    cols: Seq<HankelDependency>,
) -> Seq<char> {
    md_head(cfg, loops) + md_ranks(stats) + if cfg.exact {
        "## sample_row_deps\n\n"@ + md_samples(rows) + "\n## sample_col_deps\n\n"@ + md_samples(cols)
            + "\n## state_merge_note\n\n"@ + md_note()
    } else {
        Seq::empty()
    }
}

fn md_head_text(cfg: &EsymbHankelSubblockConfig, loops: &[usize]) -> (r: String)
    ensures
        r@ == md_head(*cfg, loops@),
{
    let mut out = String::from_str("# esymb_hankel_subblock\n\nloops = ");
    out.append(format_usize_list(loops).as_str());
    out.append("\n\nr = ");
    out.append(u64_to_text(cfg.r as u64).as_str());
    out.append("\n\nk = ");
    out.append(u64_to_text(cfg.k as u64).as_str());
    out.append("\n\nprimes = ");
    out.append(format_i64_list(cfg.primes.as_slice()).as_str());
    out.append("\n\nexact = ");
    if cfg.exact {
        out.append("true");
    } else {
        out.append("false");
    }
    out.append("\n\n");
    proof {
        assert(out@ =~= md_head(*cfg, loops@));
    }
    out
}

fn md_ranks_text(stats: &[HankelSubblockStats]) -> (r: String)
    ensures
        r@ == md_ranks(stats@),
{
    let mut out = String::from_str("## rank_summary\n\n");
    if stats.len() == 0 {
        out.append("_none_\n\n");
        return out;
    }
    out.append("| loop | nrows | ncols | rank_mod_p |\n| --- | --- | --- | --- |\n");
    let ghost head = out@;
    let mut i: usize = 0;
    proof {
        assert(out@ =~= head + md_rank_rows(stats@.subrange(0, 0)));
    }
    while i < stats.len()
        invariant
            i <= stats@.len(),
            out@ == head + md_rank_rows(stats@.subrange(0, i as int)),
        decreases stats@.len() - i,
    {
        let st = stats[i];
        let ghost before = out@;
        out.append("| ");
        out.append(u64_to_text(st.loop_index as u64).as_str());
        out.append(" | ");
        out.append(u64_to_text(st.nrows as u64).as_str());
        out.append(" | ");
        out.append(u64_to_text(st.ncols as u64).as_str());
        out.append(" | ");
        out.append(u64_to_text(st.rank_mod_p as u64).as_str());
        out.append(" |\n");
        proof {
            assert(out@ =~= before + md_rank_row(st));
            let q = stats@.subrange(0, i + 1);
            assert(q.drop_last() =~= stats@.subrange(0, i as int));
        }
        i += 1;
    }
    out.append("\n");
    proof {
        assert(stats@.subrange(0, stats@.len() as int) =~= stats@);
    }
    out
}

fn md_samples_text(deps: &[HankelDependency]) -> (r: String)
    requires
        forall|i: int| 0 <= i < deps@.len() ==> (#[trigger] deps@[i]).prime >= 0,
    ensures
        r@ == md_samples(deps@),
{
    if deps.len() == 0 {
        return String::from_str("_none_\n");
    }
    let limit = if deps.len() < 20 { deps.len() } else { 20 };
    let mut out = String::new();
    let mut i: usize = 0;
    proof {
        assert(out@ =~= md_sample_lines(deps@.take(0)));
    }
    while i < limit
        invariant
            limit <= deps@.len(),
            forall|t: int| 0 <= t < deps@.len() ==> (#[trigger] deps@[t]).prime >= 0,
            i <= limit,
            out@ == md_sample_lines(deps@.take(i as int)),
        decreases limit - i,
    {
        let d = &deps[i];
        let ghost before = out@;
        out.append("- L");
        out.append(u64_to_text(d.loop_index as u64).as_str());
        out.append(" (p=");
        out.append(i64_to_text(d.prime).as_str());
        out.append(") ");
        out.append(d.id.as_str());
        out.append(" = ");
        out.append(format_terms(d.terms.as_slice(), d.prime).as_str());
        out.append("\n");
        proof {
            assert(out@ =~= before + md_sample_line(*d));
            let q = deps@.take(i + 1);
            assert(q.drop_last() =~= deps@.take(i as int));
            assert(q.last() == deps@[i as int]);
        }
        i += 1;
    }
    out
}

/// Copies of the dependencies.
fn clone_deps(deps: &[HankelDependency]) -> (r: Vec<HankelDependency>)
    ensures
        r@.len() == deps@.len(),
        forall|i: int| 0 <= i < deps@.len() ==> (#[trigger] r@[i]).prime == deps@[i].prime,
        forall|i: int| 0 <= i < deps@.len() ==> dep_equiv(#[trigger] r@[i], deps@[i]),
{
    let mut out: Vec<HankelDependency> = Vec::with_capacity(deps.len());
    let mut i: usize = 0;
    while i < deps.len()
        invariant
            i <= deps@.len(),
            out@.len() == i,
            forall|t: int| 0 <= t < i ==> (#[trigger] out@[t]).prime == deps@[t].prime,
            forall|t: int| 0 <= t < i ==> dep_equiv(#[trigger] out@[t], deps@[t]),
        decreases deps@.len() - i,
    {
        let c = deps[i].clone_dep();
        proof {
            assert(c.terms@.len() == deps@[i as int].terms@.len());
        }
        out.push(c);
        i += 1;
    }
    out
}

/// Two dependencies print the same.
pub open spec fn dep_equiv(a: HankelDependency, b: HankelDependency) -> bool {
    &&& a.loop_index == b.loop_index
    &&& a.prime == b.prime
    &&& a.id@ == b.id@
    &&& a.terms@.len() == b.terms@.len()
    &&& forall|t: int| 0 <= t < a.terms@.len() ==> (#[trigger] a.terms@[t]).0 == b.terms@[t].0 && a.terms@[t].1@ == b.terms@[t].1@
}

/// The Markdown report: the run's parameters, the ranks by loop order, and
/// (when `exact`) up to twenty dependencies of rows and of columns, fewest
/// terms first.
pub fn render_md(
    cfg: &EsymbHankelSubblockConfig,
    loops: &[usize],
    stats: &[HankelSubblockStats],
    row_deps: &[HankelDependency],
    col_deps: &[HankelDependency],
) -> (r: String)
    requires
        forall|i: int| 0 <= i < row_deps@.len() ==> (#[trigger] row_deps@[i]).prime >= 0,
        forall|i: int| 0 <= i < col_deps@.len() ==> (#[trigger] col_deps@[i]).prime >= 0,
    ensures
        exists|s: Seq<HankelSubblockStats>, rs: Seq<HankelDependency>, cs: Seq<HankelDependency>|
            #![trigger md_spec(*cfg, loops@, s, rs, cs)]
            is_permutation_of(s, stats@) && (forall|a: int, b: int| 0 <= a < b < s.len() ==> (#[trigger] s[a]).loop_index <= (#[trigger] s[b]).loop_index)
                && rs.len() == row_deps@.len() && cs.len() == col_deps@.len() && (forall|a: int, b: int|
                0 <= a < b < rs.len() ==> !sample_less(#[trigger] rs[b], #[trigger] rs[a])) && (forall|a: int, b: int|
                0 <= a < b < cs.len() ==> !sample_less(#[trigger] cs[b], #[trigger] cs[a])) && r@ == md_spec(*cfg, loops@, s, rs, cs),
{
    let mut out = md_head_text(cfg, loops);
    let mut sorted_stats: Vec<HankelSubblockStats> = Vec::with_capacity(stats.len());
    let mut i: usize = 0;
    while i < stats.len()
        invariant
            i <= stats@.len(),
            sorted_stats@ == stats@.subrange(0, i as int),
        decreases stats@.len() - i,
    {
        sorted_stats.push(stats[i]);
        i += 1;
    }
    proof {
        assert(sorted_stats@ =~= stats@);
    }
    sort_stats(&mut sorted_stats);
    out.append(md_ranks_text(sorted_stats.as_slice()).as_str());
    let mut rows = clone_deps(row_deps);
    let mut cols = clone_deps(col_deps);
    sort_for_sample(&mut rows);
    sort_for_sample(&mut cols);
    if cfg.exact {
        out.append("## sample_row_deps\n\n");
        out.append(md_samples_text(rows.as_slice()).as_str());
        out.append("\n## sample_col_deps\n\n");
        out.append(md_samples_text(cols.as_slice()).as_str());
        out.append("\n## state_merge_note\n\n");
        out.append(
            "Dependencies are computed over a finite field using the smallest prime that attains the max mod-p rank per loop. Rows or columns that are identical or proportional mod p suggest candidate state merges for prefix/suffix blocks.\n",
        );
    }
    proof {
        assert(out@ =~= md_spec(*cfg, loops@, sorted_stats@, rows@, cols@));
    }
    out
}

impl HankelDependency {
    /// A copy of the dependency.
    pub fn clone_dep(&self) -> (r: HankelDependency)
        ensures
            r.loop_index == self.loop_index,
            r.prime == self.prime,
            r.id@ == self.id@,
            r.terms@.len() == self.terms@.len(),
            forall|t: int| 0 <= t < self.terms@.len() ==> (#[trigger] r.terms@[t]).0 == self.terms@[t].0 && r.terms@[t].1@
                == self.terms@[t].1@,
    {
        let mut terms: Vec<(i64, String)> = Vec::with_capacity(self.terms.len());
        let mut t: usize = 0;
        while t < self.terms.len()
            invariant
                t <= self.terms@.len(),
                terms@.len() == t,
                forall|q: int| 0 <= q < t ==> (#[trigger] terms@[q]).0 == self.terms@[q].0 && terms@[q].1@ == self.terms@[q].1@,
            decreases self.terms@.len() - t,
        {
            terms.push((self.terms[t].0, self.terms[t].1.clone()));
            t += 1;
        }
        HankelDependency { loop_index: self.loop_index, prime: self.prime, id: self.id.clone(), terms }
    }
}

} // verus!
