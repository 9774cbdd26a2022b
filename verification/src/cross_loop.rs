//! Integer helpers, the settings of a run and the report records of the
//! cross-loop analysis.
use crate::modular::pow;
use vstd::prelude::*;

verus! {

/// The rank of the images of the suffix classes, with the columns that are
/// zero and those that carry pivots.
#[derive(Clone, Debug)]
pub struct ImageRankReport {
    pub rank: usize,
    pub row_count: usize,
    pub zero_columns: Vec<usize>,
    pub pivot_columns: Vec<usize>,
    pub row_limit_hit: bool,
}

/// A column that lower loops could not express, with some of its words.
#[derive(Clone, Debug)]
pub struct ResidualSummary {
    pub column: usize,
    pub word_count: usize,
    pub sample_words: Vec<String>,
}

/// What a cross-loop run was asked for: a weight (or a loop order and the
/// weight per loop), or a range of weights to scan; how many distinct
/// suffixes; and whether constraints are exported and mappings skipped.
#[derive(Clone, Copy, Debug)]
pub struct CrossLoopSettings {
    pub weight: Option<usize>,
    pub weight_min: Option<usize>,
    pub weight_max: Option<usize>,
    pub loop_value: Option<usize>,
    pub weight_per_loop: usize,
    pub suffix_count: usize,
    pub export_constraints: bool,
    pub no_mapping: bool,
}

/// How a cross-loop run proceeds.
#[derive(Clone, Copy, Debug, PartialEq, Eq, Structural)]
pub enum CrossLoopMode {
    /// Each suffix is scanned over the weights `weight_min..=weight_max`.
    Scan { weight_min: usize, weight_max: usize },
    /// The one suffix at one weight.
    Single { weight: usize },
}

/// The weight of a single-weight run: the one given, else the loop order
/// times the weight per loop.
pub open spec fn single_weight(s: CrossLoopSettings) -> Result<usize, Seq<char>> {
    match s.weight {
        Some(w) => Ok(w),
        None => match s.loop_value {
            Some(l) => if l * s.weight_per_loop <= usize::MAX {
                Ok((l * s.weight_per_loop) as usize)
            } else {
                Err("loop * weight-per-loop overflow"@)
            },
            None => Err("missing --weight <n> (or --loop <n>)"@),
        },
    }
}

/// The mode the settings ask for, or why they are refused. Some suffix is
/// needed; a weight bound makes it a scan, which needs both bounds;
/// otherwise a single weight, exported constraints only with mappings, and
/// exactly one suffix.
pub open spec fn cross_loop_mode_spec(s: CrossLoopSettings) -> Result<CrossLoopMode, Seq<char>> {
    if s.suffix_count == 0 {
        Err("missing --suffix <letters...> or --suffixes-toml <path>"@)
    } else if s.weight_min is Some || s.weight_max is Some {
        match (s.weight_min, s.weight_max) {
            (Some(a), Some(b)) => Ok(CrossLoopMode::Scan { weight_min: a, weight_max: b }),
            (None, _) => Err("missing --weight-min <n>"@),
            (Some(_), None) => Err("missing --weight-max <n>"@),
        }
    } else {
        match single_weight(s) {
            Err(e) => Err(e),
            Ok(w) => if s.export_constraints && s.no_mapping {
                Err("--export-constraints requires mapping"@)
            } else if s.suffix_count != 1 {
                Err("single-weight mode requires exactly one --suffix"@)
            } else {
                Ok(CrossLoopMode::Single { weight: w })
            },
        }
    }
}

/// Decides how a cross-loop run proceeds from its settings.
pub fn cross_loop_mode(s: &CrossLoopSettings) -> (r: Result<CrossLoopMode, String>)
    ensures
        match r {
            Ok(m) => cross_loop_mode_spec(*s) == Ok::<CrossLoopMode, Seq<char>>(m),
            Err(e) => cross_loop_mode_spec(*s) == Err::<CrossLoopMode, Seq<char>>(e@),
        },
{
    if s.suffix_count == 0 {
        return Err("missing --suffix <letters...> or --suffixes-toml <path>".to_string());
    }
    if s.weight_min.is_some() || s.weight_max.is_some() {
        let weight_min = match s.weight_min {
            Some(w) => w,
            None => {
                return Err("missing --weight-min <n>".to_string());
            },
        };
        let weight_max = match s.weight_max {
            Some(w) => w,
            None => {
                return Err("missing --weight-max <n>".to_string());
            },
        };
        return Ok(CrossLoopMode::Scan { weight_min, weight_max });
    }
    let weight = match s.weight {
        Some(w) => w,
        None => match s.loop_value {
            Some(l) => match l.checked_mul(s.weight_per_loop) {
                Some(w) => w,
                None => {
                    return Err("loop * weight-per-loop overflow".to_string());
                },
            },
            None => {
                return Err("missing --weight <n> (or --loop <n>)".to_string());
            },
        },
    };
    if s.export_constraints && s.no_mapping {
        return Err("--export-constraints requires mapping".to_string());
    }
    if s.suffix_count != 1 {
        return Err("single-weight mode requires exactly one --suffix".to_string());
    }
    Ok(CrossLoopMode::Single { weight })
}

/// `a` and `b` hold the same letters in the same order.
fn same_ids(a: &Vec<usize>, b: &Vec<usize>) -> (r: bool)
    ensures
        r == (a@ == b@),
{
    if a.len() != b.len() {
        return false;
    }
    let mut i: usize = 0;
    while i < a.len()
        invariant
            a@.len() == b@.len(),
            i <= a@.len(),
            forall|t: int| 0 <= t < i ==> a@[t] == b@[t],
        decreases a@.len() - i,
    {
        if a[i] != b[i] {
            return false;
        }
        i += 1;
    }
    assert(a@ =~= b@);
    true
}

/// The suffix at `i` is the first with its letters.
pub open spec fn first_suffix(ids: Seq<Vec<usize>>, i: int) -> bool {
    forall|j: int| 0 <= j < i ==> (#[trigger] ids[j])@ != ids[i]@
}

/// The positions of the suffixes (as letter ids) to keep: each one whose
/// letters no earlier suffix has, in order.
pub fn dedup_suffixes(ids: &Vec<Vec<usize>>) -> (r: Vec<usize>)
    ensures
        forall|a: int, b: int| 0 <= a < b < r@.len() ==> #[trigger] r@[a] < #[trigger] r@[b],
        forall|a: int| 0 <= a < r@.len() ==> #[trigger] r@[a] < ids@.len(),
        forall|i: int| 0 <= i < ids@.len() ==> (r@.contains(i as usize) <==> first_suffix(ids@, i)),
{
    let mut out: Vec<usize> = Vec::new();
    let mut i: usize = 0;
    while i < ids.len()
        invariant
            i <= ids@.len(),
            forall|a: int, b: int| 0 <= a < b < out@.len() ==> #[trigger] out@[a] < #[trigger] out@[b],
            forall|a: int| 0 <= a < out@.len() ==> #[trigger] out@[a] < i,
            forall|t: int| 0 <= t < i ==> (out@.contains(t as usize) <==> first_suffix(ids@, t)),
        decreases ids@.len() - i,
    {
        let mut j: usize = 0;
        let mut fresh = true;
        while j < i
            invariant
                i < ids@.len(),
                j <= i,
                fresh == forall|t: int| 0 <= t < j ==> (#[trigger] ids@[t])@ != ids@[i as int]@,
            decreases i - j,
        {
            if same_ids(&ids[j], &ids[i]) {
                fresh = false;
            }
            j += 1;
        }
        let ghost o0 = out@;
        if fresh {
            out.push(i);
        }
        proof {
            assert forall|t: int| 0 <= t < i + 1 implies (out@.contains(t as usize) <==> first_suffix(ids@, t)) by {
                if t < i {
                    if o0.contains(t as usize) {
                        let k = choose|k: int| 0 <= k < o0.len() && o0[k] == t as usize;
                        assert(out@[k] == t as usize);
                    }
                    if out@.contains(t as usize) {
                        let k = choose|k: int| 0 <= k < out@.len() && out@[k] == t as usize;
                        assert(k < o0.len());
                        assert(o0[k] == t as usize);
                    }
                } else {
                    if fresh {
                        assert(out@[o0.len() as int] == i);
                    } else {
                        if out@.contains(t as usize) {
                            let k = choose|k: int| 0 <= k < out@.len() && out@[k] == t as usize;
                            assert(o0[k] < i);
                        }
                    }
                }
            }
        }
        i += 1;
    }
    out
}

/// Some power `base^k` with `k <= exp` leaves `i64`.
pub open spec fn power_overflows(base: int, exp: int) -> bool {
    exists|k: nat| k <= exp && !(i64::MIN <= #[trigger] pow(base, k) <= i64::MAX)
}

/// `base^exp` in `i64`, or none for a negative exponent or once a partial
/// power leaves `i64`.
pub fn pow_i64(base: i64, exp: i64) -> (r: Option<i64>)
    ensures
        r is None <==> (exp < 0 || power_overflows(base as int, exp as int)),
        r matches Some(v) ==> v == pow(base as int, exp as nat),
{
    if exp < 0 {
        return None;
    }
    let mut out: i64 = 1;
    let mut i: i64 = 0;
    while i < exp
        invariant
            0 <= i <= exp,
            out == pow(base as int, i as nat),
            forall|k: nat| k <= i ==> i64::MIN <= #[trigger] pow(base as int, k) <= i64::MAX,
        decreases exp - i,
    {
        proof {
            assert(pow(base as int, (i + 1) as nat) == base * pow(base as int, i as nat));
        }
        match out.checked_mul(base) {
            Some(v) => {
                proof {
                    assert(v == pow(base as int, (i + 1) as nat)) by (nonlinear_arith)
                        requires
                            v == out * base,
                            out == pow(base as int, i as nat),
                            pow(base as int, (i + 1) as nat) == base * pow(base as int, i as nat),
                    ;
                    assert forall|k: nat| k <= i + 1 implies i64::MIN <= #[trigger] pow(base as int, k) <= i64::MAX by {
                        if k == i + 1 {
                        }
                    }
                }
                out = v;
            },
            None => {
                proof {
                    assert(out * base == pow(base as int, (i + 1) as nat)) by (nonlinear_arith)
                        requires
                            out == pow(base as int, i as nat),
                            pow(base as int, (i + 1) as nat) == base * pow(base as int, i as nat),
                    ;
                    assert(!(i64::MIN <= pow(base as int, (i + 1) as nat) <= i64::MAX));
                }
                return None;
            },
        }
        i += 1;
    }
    Some(out)
}

/// `n!` as an integer.
pub open spec fn factorial_spec(n: nat) -> int
    decreases n,
{
    if n == 0 {
        1
    } else {
        n * factorial_spec((n - 1) as nat)
    }
}

proof fn lemma_factorial_grows(a: nat, b: nat)
    requires
        a <= b,
    ensures
        1 <= factorial_spec(a) <= factorial_spec(b),
    decreases b,
{
    if b > 0 && a < b {
        lemma_factorial_grows(a, (b - 1) as nat);
        assert(factorial_spec((b - 1) as nat) <= b * factorial_spec((b - 1) as nat)) by (nonlinear_arith)
            requires
                b >= 1,
                factorial_spec((b - 1) as nat) >= 1,
        ;
    } else if b > 0 {
        lemma_factorial_grows((b - 1) as nat, (b - 1) as nat);
        assert(b * factorial_spec((b - 1) as nat) >= 1) by (nonlinear_arith)
            requires
                b >= 1,
                factorial_spec((b - 1) as nat) >= 1,
        ;
    }
}

/// `n!` in `i64`, or none for negative `n` or when it does not fit.
pub fn factorial(n: i64) -> (r: Option<i64>)
    ensures
        r is None <==> (n < 0 || factorial_spec(n as nat) > i64::MAX),
        r matches Some(v) ==> v == factorial_spec(n as nat),
{
    if n < 0 {
        return None;
    }
    let mut out: i64 = 1;
    let mut k: i64 = 1;
    proof {
        assert(factorial_spec(1) == 1) by {
            assert(factorial_spec(0) == 1);
        }
    }
    while k < n
        invariant
            1 <= k,
            n >= 1 ==> k <= n,
            n == 0 ==> k == 1,
            out == factorial_spec(k as nat),
        decreases n - k,
    {
        let m = k + 1;
        proof {
            assert(factorial_spec(m as nat) == m * factorial_spec(k as nat));
            lemma_factorial_grows(k as nat, k as nat);
        }
        match out.checked_mul(m) {
            Some(v) => {
                out = v;
            },
            None => {
                proof {
                    lemma_factorial_grows(m as nat, n as nat);
                    assert(out * m > i64::MAX) by (nonlinear_arith)
                        requires
                            out >= 1,
                            m >= 2,
                            !(i64::MIN <= out * m <= i64::MAX),
                    ;
                }
                return None;
            },
        }
        k = m;
    }
    proof {
        if n == 0 {
            assert(factorial_spec(0) == 1);
        }
    }
    Some(out)
}

/// The product of the odd numbers from 1 to `n`.
pub open spec fn odd_product(n: int) -> int
    decreases n + 2,
{
    if n <= 0 {
        1
    } else if n % 2 == 1 {
        n * odd_product(n - 2)
    } else {
        odd_product(n - 1)
    }
}

proof fn lemma_odd_product_positive(n: int)
    ensures
        odd_product(n) >= 1,
    decreases n + 2,
{
    if n > 0 {
        if n % 2 == 1 {
            lemma_odd_product_positive(n - 2);
            assert(n * odd_product(n - 2) >= 1) by (nonlinear_arith)
                requires
                    n >= 1,
                    odd_product(n - 2) >= 1,
            ;
        } else {
            lemma_odd_product_positive(n - 1);
        }
    }
}

/// The product of the odd numbers up to `n` (`n!!` for odd `n`), or none for
/// negative `n` or when a partial product leaves `i64`.
pub fn double_factorial_odd(n: i64) -> (r: Option<i64>)
    ensures
        n < 0 ==> r is None,
        r matches Some(v) ==> v == odd_product(n as int),
        (n >= 0 && r is None) ==> odd_product(n as int) > i64::MAX,
{
    if n < 0 {
        return None;
    }
    let mut out: i64 = 1;
    let mut k: i64 = if n % 2 == 0 { n - 1 } else { n };
    proof {
        if n % 2 == 0 && n > 0 {
            assert(odd_product(n as int) == odd_product(n - 1));
        }
    }
    while k >= 1
        invariant
            -1 <= k <= n,
            k % 2 == 1 || k == -1,
            out >= 1,
            out * odd_product(k as int) == odd_product(n as int),
        decreases k + 1,
    {
        proof {
            assert(odd_product(k as int) == k * odd_product(k - 2));
            lemma_odd_product_positive(k - 2);
        }
        match out.checked_mul(k) {
            Some(v) => {
                proof {
                    assert(v * odd_product(k - 2) == odd_product(n as int)) by (nonlinear_arith)
                        requires
                            v == out * k,
                            out * odd_product(k as int) == odd_product(n as int),
                            odd_product(k as int) == k * odd_product(k - 2),
                    ;
                    assert(v >= 1) by (nonlinear_arith)
                        requires
                            v == out * k,
                            out >= 1,
                            k >= 1,
                    ;
                }
                out = v;
            },
            None => {
                proof {
                    assert(out * k > i64::MAX) by (nonlinear_arith)
                        requires
                            out >= 1,
                            k >= 1,
                            !(i64::MIN <= out * k <= i64::MAX),
                    ;
                    assert(odd_product(n as int) >= out * k) by (nonlinear_arith)
                        requires
                            out * odd_product(k as int) == odd_product(n as int),
                            odd_product(k as int) == k * odd_product(k - 2),
                            odd_product(k - 2) >= 1,
                            out >= 1,
                            k >= 1,
                    ;
                }
                return None;
            },
        }
        k -= 2;
    }
    proof {
        assert(odd_product(k as int) == 1);
    }
    Some(out)
}

} // verus!
