//! The screen's verdicts and the choice among normalization candidates.
use crate::rank_scan::normalize::{mode_order, NormalizeMode};
use crate::rank_scan::{Rational, ScreenStatus};
use crate::text::{decimal_value, is_digit, parse_unsigned_spec, parse_usize_opt, push_char, str_eq};
use vstd::prelude::*;
use vstd::string::StrSliceExecFns;

verus! {

/// How strongly a verdict is preferred: a pass first, a trivial sequence last.
pub open spec fn status_rank(s: ScreenStatus) -> int {
    match s {
        ScreenStatus::Pass => 0,
        ScreenStatus::Inconclusive => 1,
        ScreenStatus::Fail => 2,
        ScreenStatus::Trivial => 3,
    }
}

pub fn status_priority(status: ScreenStatus) -> (r: usize)
    ensures
        r == status_rank(status),
{
    match status {
        ScreenStatus::Pass => 0,
        ScreenStatus::Inconclusive => 1,
        ScreenStatus::Fail => 2,
        ScreenStatus::Trivial => 3,
    }
}

/// The number of trailing entries equal to the last one (0 for an empty curve).
pub fn plateau_tail_len(curve: &[usize]) -> (r: usize)
    ensures
        curve@.len() == 0 ==> r == 0,
        curve@.len() > 0 ==> 1 <= r <= curve@.len(),
        forall|i: int| curve@.len() - r <= i < curve@.len() ==> #[trigger] curve@[i] == curve@.last(),
        r < curve@.len() ==> curve@[curve@.len() - r - 1] != curve@.last(),
{
    let n = curve.len();
    if n == 0 {
        return 0;
    }
    let last = curve[n - 1];
    let mut count: usize = 1;
    while count < n && curve[n - 1 - count] == last
        invariant
            n == curve@.len(),
            n > 0,
            last == curve@.last(),
            1 <= count <= n,
            forall|i: int| n - count <= i < n ==> #[trigger] curve@[i] == last,
        decreases n - count,
    {
        count += 1;
    }
    count
}

/// Every value is zero.
pub open spec fn all_values_zero(values: Seq<Rational>) -> bool {
    forall|i: int| 0 <= i < values.len() ==> (#[trigger] values[i]).numer == 0
}

/// How a sequence is judged: a zero sequence is trivial; a plateau passes when
/// its rank is within `r_budget` and fails otherwise; without a plateau, a last
/// rank above `r_budget` fails and anything else stays inconclusive.
pub open spec fn classify_spec(
    values: Seq<Rational>,
    ranks: Seq<usize>,
    plateau_rank: Option<usize>,
    r_budget: int,
) -> ScreenStatus {
    if all_values_zero(values) {
        ScreenStatus::Trivial
    } else {
        match plateau_rank {
            Some(rank) => if rank <= r_budget {
                ScreenStatus::Pass
            } else {
                ScreenStatus::Fail
            },
            None => {
                let last = if ranks.len() > 0 {
                    ranks.last() as int
                } else {
                    0
                };
                if last > r_budget {
                    ScreenStatus::Fail
                } else {
                    ScreenStatus::Inconclusive
                }
            },
        }
    }
}

pub fn classify_screen(
    values: &[Rational],
    rank_mod_p: &[usize],
    plateau_rank: Option<usize>,
    nmax: usize,
    r_budget: usize,
) -> (r: ScreenStatus)
    ensures
        r == classify_spec(values@, rank_mod_p@, plateau_rank, r_budget as int),
{
    let mut i: usize = 0;
    let mut all_zero = true;
    while i < values.len()
        invariant
            i <= values@.len(),
            all_zero == forall|t: int| 0 <= t < i ==> (#[trigger] values@[t]).numer == 0,
        decreases values@.len() - i,
    {
        if values[i].numer != 0 {
            all_zero = false;
        }
        i += 1;
    }
    if all_zero {
        return ScreenStatus::Trivial;
    }
    if let Some(rank) = plateau_rank {
        if rank <= r_budget {
            return ScreenStatus::Pass;
        }
        return ScreenStatus::Fail;
    }
    let last_rank = if rank_mod_p.len() > 0 {
        rank_mod_p[rank_mod_p.len() - 1]
    } else {
        0
    };
    if last_rank > r_budget {
        return ScreenStatus::Fail;
    }
    ScreenStatus::Inconclusive
}

/// What the choice among normalization candidates looks at.
#[derive(Clone, Copy, Debug)]
pub struct CandidateKey {
    pub status: ScreenStatus,
    pub plateau_rank: Option<usize>,
    pub last_rank: usize,
    pub plateau_tail_len: usize,
    pub mode: NormalizeMode,
}

/// The rank a candidate is judged by: its plateau, else its last rank.
pub open spec fn judged_rank(c: CandidateKey) -> int {
    match c.plateau_rank {
        Some(r) => r as int,
        None => c.last_rank as int,
    }
}

/// `a` comes before `b`: a better verdict, then a lower rank, then a longer
/// plateau, then the normalization's own order.
pub open spec fn candidate_less(a: CandidateKey, b: CandidateKey) -> bool {
    if status_rank(a.status) != status_rank(b.status) {
        status_rank(a.status) < status_rank(b.status)
    } else if judged_rank(a) != judged_rank(b) {
        judged_rank(a) < judged_rank(b)
    } else if a.plateau_tail_len != b.plateau_tail_len {
        a.plateau_tail_len > b.plateau_tail_len
    } else {
        mode_order(a.mode) < mode_order(b.mode)
    }
}

pub fn candidate_before(a: &CandidateKey, b: &CandidateKey) -> (r: bool)
    ensures
        r == candidate_less(*a, *b),
{
    let pa = status_priority(a.status);
    let pb = status_priority(b.status);
    if pa != pb {
        return pa < pb;
    }
    let ra = match a.plateau_rank {
        Some(r) => r,
        None => a.last_rank,
    };
    let rb = match b.plateau_rank {
        Some(r) => r,
        None => b.last_rank,
    };
    if ra != rb {
        return ra < rb;
    }
    if a.plateau_tail_len != b.plateau_tail_len {
        return a.plateau_tail_len > b.plateau_tail_len;
    }
    a.mode.order_key() < b.mode.order_key()
}

/// The index of the chosen candidate: the first one that no other comes before.
pub fn choose_candidate(candidates: &[CandidateKey]) -> (r: usize)
    requires
        candidates@.len() > 0,
    ensures
        r < candidates@.len(),
        forall|j: int| 0 <= j < candidates@.len() ==> !candidate_less(#[trigger] candidates@[j], candidates@[r as int]),
        forall|j: int| 0 <= j < r ==> candidate_less(candidates@[r as int], #[trigger] candidates@[j]),
{
    let mut best: usize = 0;
    let mut i: usize = 1;
    while i < candidates.len()
        invariant
            1 <= i <= candidates@.len(),
            best < i,
            forall|j: int| 0 <= j < i ==> !candidate_less(#[trigger] candidates@[j], candidates@[best as int]),
            forall|j: int| 0 <= j < best ==> candidate_less(candidates@[best as int], #[trigger] candidates@[j]),
        decreases candidates@.len() - i,
    {
        if candidate_before(&candidates[i], &candidates[best]) {
            proof {
                let (c, b) = (candidates@[i as int], candidates@[best as int]);
                assert forall|j: int| 0 <= j < i implies candidate_less(c, #[trigger] candidates@[j]) by {
                    lemma_candidate_less_total(candidates@[j], b);
                    if candidate_less(b, candidates@[j]) {
                        lemma_candidate_less_trans(c, b, candidates@[j]);
                    }
                }
                assert forall|j: int| 0 <= j < i + 1 implies !candidate_less(#[trigger] candidates@[j], c) by {
                    if j < i {
                        lemma_candidate_less_asym(c, candidates@[j]);
                    } else {
                        lemma_candidate_less_asym(c, c);
                    }
                }
            }
            best = i;
        }
        i += 1;
    }
    best
}

/// The candidate order is a strict order: never both ways.
pub proof fn lemma_candidate_less_asym(a: CandidateKey, b: CandidateKey)
    ensures
        !(candidate_less(a, b) && candidate_less(b, a)),
{
}

/// The candidate order is transitive.
pub proof fn lemma_candidate_less_trans(a: CandidateKey, b: CandidateKey, c: CandidateKey)
    requires
        candidate_less(a, b),
        candidate_less(b, c),
    ensures
        candidate_less(a, c),
{
}

/// Of two candidates whose keys differ, one comes before the other; and a
/// candidate that does not come before another one ties with it or comes after.
pub proof fn lemma_candidate_less_total(a: CandidateKey, b: CandidateKey)
    ensures
        !candidate_less(a, b) ==> candidate_less(b, a) || (status_rank(a.status) == status_rank(b.status)
            && judged_rank(a) == judged_rank(b) && a.plateau_tail_len == b.plateau_tail_len && mode_order(a.mode)
            == mode_order(b.mode)),
{
}

/// The screen's verdicts: a sequence of zeros is trivial; any other sequence
/// passes exactly when its rank curve has a plateau at a rank within the
/// budget, is inconclusive exactly when it has no plateau and its last rank is
/// within the budget, and fails otherwise (a plateau, or without one the last
/// rank, above the budget).
pub proof fn law_screen_verdicts(values: Seq<Rational>, ranks: Seq<usize>, plateau_rank: Option<usize>, r_budget: int)
    ensures
        ({
            let s = classify_spec(values, ranks, plateau_rank, r_budget);
            let zero = forall|i: int| 0 <= i < values.len() ==> (#[trigger] values[i]).numer == 0;
            let last = if ranks.len() > 0 {
                ranks[ranks.len() - 1] as int
            } else {
                0
            };
            &&& (s == ScreenStatus::Trivial <==> zero)
            &&& (s == ScreenStatus::Pass <==> !zero && (plateau_rank matches Some(k) && k <= r_budget))
            &&& (s == ScreenStatus::Inconclusive <==> !zero && plateau_rank is None && last <= r_budget)
            &&& (s == ScreenStatus::Fail <==> !zero && (match plateau_rank {
                Some(k) => k > r_budget,
                None => last > r_budget,
            }))
        }),
{
}

/// The chosen candidate (one that no other comes before): a pass whenever
/// some candidate passes, else an inconclusive one whenever some is, and
/// trivial only when all are; among the candidates of its verdict, the
/// lowest rank (its plateau's, else its last); among those of its verdict and
/// rank, the longest plateau tail; and then the first normalization.
pub proof fn law_chosen_candidate(keys: Seq<CandidateKey>, c: int)
    requires
        0 <= c < keys.len(),
        forall|j: int| 0 <= j < keys.len() ==> !candidate_less(#[trigger] keys[j], keys[c]),
    ensures
        forall|j: int| 0 <= j < keys.len() && (#[trigger] keys[j]).status == ScreenStatus::Pass ==> keys[c].status == ScreenStatus::Pass,
        forall|j: int|
            0 <= j < keys.len() && (#[trigger] keys[j]).status == ScreenStatus::Inconclusive ==> (keys[c].status == ScreenStatus::Pass
                || keys[c].status == ScreenStatus::Inconclusive),
        forall|j: int| 0 <= j < keys.len() && (#[trigger] keys[j]).status != ScreenStatus::Trivial ==> keys[c].status != ScreenStatus::Trivial,
        forall|j: int|
            0 <= j < keys.len() && (#[trigger] keys[j]).status == keys[c].status ==> (match keys[c].plateau_rank {
                Some(r) => r,
                None => keys[c].last_rank,
            }) <= (match keys[j].plateau_rank {
                Some(r) => r,
                None => keys[j].last_rank,
            }),
        forall|j: int|
            0 <= j < keys.len() && (#[trigger] keys[j]).status == keys[c].status && (match keys[c].plateau_rank {
                Some(r) => r,
                None => keys[c].last_rank,
            }) == (match keys[j].plateau_rank {
                Some(r) => r,
                None => keys[j].last_rank,
            }) ==> keys[j].plateau_tail_len <= keys[c].plateau_tail_len,
        forall|j: int|
            0 <= j < keys.len() && (#[trigger] keys[j]).status == keys[c].status && (match keys[c].plateau_rank {
                Some(r) => r,
                None => keys[c].last_rank,
            }) == (match keys[j].plateau_rank {
                Some(r) => r,
                None => keys[j].last_rank,
            }) && keys[j].plateau_tail_len == keys[c].plateau_tail_len ==> mode_order(keys[c].mode) <= mode_order(
                keys[j].mode,
            ),
{
}

/// `|x|` of an integer.
pub open spec fn abs_int(x: int) -> int {
    if x < 0 {
        -x
    } else {
        x
    }
}

/// Numerator and denominator both lie within `bound` in absolute value.
pub fn coeff_within_bound(coeff: &Rational, bound: i64) -> (r: bool)
    requires
        coeff.numer != i64::MIN,
        coeff.denom != i64::MIN,
    ensures
        r == (abs_int(coeff.numer as int) <= bound && abs_int(coeff.denom as int) <= bound),
{
    let numer = if coeff.numer < 0 {
        -coeff.numer
    } else {
        coeff.numer
    };
    let denom = if coeff.denom < 0 {
        -coeff.denom
    } else {
        coeff.denom
    };
    numer <= bound && denom <= bound
}

/// The largest coefficient size a kept recurrence may have.
pub const COEFF_BOUND: i64 = 1000000;

/// A recurrence is kept when all its coefficients are small and it predicts
/// an integer for the next loop order.
pub fn candidate_filters_pass(coeffs: &[Rational], predict_next_c: Option<Rational>) -> (r: bool)
    requires
        forall|i: int| 0 <= i < coeffs@.len() ==> (#[trigger] coeffs@[i]).numer != i64::MIN && coeffs@[i].denom != i64::MIN,
    ensures
        r == ((forall|i: int|
            0 <= i < coeffs@.len() ==> abs_int((#[trigger] coeffs@[i]).numer as int) <= COEFF_BOUND && abs_int(
                coeffs@[i].denom as int,
            ) <= COEFF_BOUND) && (predict_next_c matches Some(v) && v.denom == 1)),
{
    let mut i: usize = 0;
    while i < coeffs.len()
        invariant
            i <= coeffs@.len(),
            forall|t: int| 0 <= t < coeffs@.len() ==> (#[trigger] coeffs@[t]).numer != i64::MIN && coeffs@[t].denom != i64::MIN,
            forall|t: int|
                0 <= t < i ==> abs_int((#[trigger] coeffs@[t]).numer as int) <= COEFF_BOUND && abs_int(coeffs@[t].denom as int)
                    <= COEFF_BOUND,
        decreases coeffs@.len() - i,
    {
        if !coeff_within_bound(&coeffs[i], COEFF_BOUND) {
            return false;
        }
        i += 1;
    }
    match predict_next_c {
        Some(v) => v.denom == 1,
        None => false,
    }
}

/// The views of the strings of a word.
pub open spec fn word_view(word: Seq<String>) -> Seq<Seq<char>> {
    word.map_values(|s: String| s@)
}

/// The word is `a b a b ... a b`: of even length at least two, with the
/// first two letters repeated throughout.
pub open spec fn is_repeated_pair(word: Seq<Seq<char>>) -> bool {
    &&& word.len() >= 2
    &&& word.len() % 2 == 0
    &&& forall|i: int| 0 <= i < word.len() ==> #[trigger] word[i] == word[i % 2]
}

/// The repeated pair `(a, b)` of a word `a b a b ... a b`, if it is one.
#[verifier::spinoff_prover]
pub fn repeated_pair(word: &[String]) -> (r: Option<(String, String)>)
    ensures
        r is Some <==> is_repeated_pair(word_view(word@)),
        r matches Some(pair) ==> pair.0@ == word@[0]@ && pair.1@ == word@[1]@,
{
    let n = word.len();
    if n < 2 || n % 2 != 0 {
        return None;
    }
    let first = word[0].as_str();
    let second = word[1].as_str();
    let mut idx: usize = 0;
    while idx < n
        invariant
            n == word@.len(),
            n >= 2,
            n % 2 == 0,
            idx % 2 == 0,
            idx <= n,
            first@ == word@[0]@,
            second@ == word@[1]@,
            forall|i: int| 0 <= i < idx ==> #[trigger] word@[i]@ == word@[i % 2]@,
        decreases n - idx,
    {
        if !str_eq(word[idx].as_str(), first) || !str_eq(word[idx + 1].as_str(), second) {
            proof {
                let w = word_view(word@);
                if word@[idx as int]@ != first@ {
                    assert(w[idx as int] != w[idx as int % 2]);
                } else {
                    assert(w[idx + 1] != w[(idx + 1) % 2]);
                }
            }
            return None;
        }
        proof {
            assert((idx + 1) as int % 2 == 1);
            assert((idx + 2) as int % 2 == 0);
            assert forall|i: int| 0 <= i < idx + 2 implies #[trigger] word@[i]@ == word@[i % 2]@ by {
                if i == idx {
                    assert(i % 2 == 0);
                } else if i == idx + 1 {
                    assert(i % 2 == 1);
                }
            }
        }
        idx += 2;
    }
    proof {
        let w = word_view(word@);
        assert forall|i: int| 0 <= i < w.len() implies #[trigger] w[i] == w[i % 2] by {
            assert(word@[i]@ == word@[i % 2]@);
        }
    }
    Some((word[0].clone(), word[1].clone()))
}

/// The position of the first `_l` (either case of the letter) in a name.
pub open spec fn is_loop_marker(s: Seq<char>, i: int) -> bool {
    0 <= i && i + 1 < s.len() && s[i] == '_' && (s[i + 1] == 'l' || s[i + 1] == 'L')
}

/// The run of decimal digits of `s` from position `k` on.
pub open spec fn digit_run(s: Seq<char>, k: int) -> Seq<char>
    decreases s.len() - k,
{
    if 0 <= k < s.len() && is_digit(s[k]) {
        seq![s[k]] + digit_run(s, k + 1)
    } else {
        Seq::empty()
    }
}

/// The loop order written in a file name: the digits right after its first
/// `_l`, read as a number.
pub fn parse_loop_index(name: &str) -> (r: Option<usize>)
    ensures
        (forall|i: int| !is_loop_marker(name@, i)) ==> r is None,
        forall|i: int|
            is_loop_marker(name@, i) && (forall|j: int| 0 <= j < i ==> !is_loop_marker(name@, j)) ==> (match parse_unsigned_spec(
                #[trigger] digit_run(name@, i + 2),
                usize::MAX as int,
            ) {
                Some(v) => r == Some(v as usize),
                None => r is None,
            }),
{
    let n = name.unicode_len();
    let mut start: usize = 0;
    let mut found = false;
    while n > 0 && start < n - 1
        invariant_except_break
            !found,
        invariant
            n == name@.len(),
            start <= n,
            forall|j: int| 0 <= j < start ==> !is_loop_marker(name@, j),
        ensures
            start <= n,
            forall|j: int| 0 <= j < start ==> !is_loop_marker(name@, j),
            found ==> is_loop_marker(name@, start as int),
            !found ==> start + 1 >= n,
        decreases n - start,
    {
        let c0 = name.get_char(start);
        let c1 = name.get_char(start + 1);
        if c0 == '_' && (c1 == 'l' || c1 == 'L') {
            found = true;
            break;
        }
        start += 1;
    }
    if !found {
        proof {
            assert forall|i: int| !is_loop_marker(name@, i) by {
                if i >= start {
                    assert(!(i + 1 < name@.len()));
                }
            }
        }
        return None;
    }
    let mut digits = String::new();
    let mut k: usize = start + 2;
    while k < n && ('0' <= name.get_char(k) && name.get_char(k) <= '9')
        invariant
            n == name@.len(),
            start + 2 <= k <= n,
            digit_run(name@, start + 2) == digits@ + digit_run(name@, k as int),
        decreases n - k,
    {
        let c = name.get_char(k);
        push_char(&mut digits, c);
        proof {
            assert(digit_run(name@, k as int) == seq![c] + digit_run(name@, k + 1));
            assert(digits@ + digit_run(name@, k + 1) =~= (digits@.drop_last() + seq![c]) + digit_run(name@, k + 1));
        }
        k += 1;
    }
    proof {
        assert(digit_run(name@, k as int) == Seq::<char>::empty());
        assert(digits@ =~= digit_run(name@, start + 2));
    }
    parse_usize_opt(digits.as_str())
}

} // verus!
