//! The scan of one sequence: its normalizations are screened by the ranks of
//! their Hankel matrices, the best one is chosen, and a recurrence is solved
//! for when the screen allows it.
use crate::error::{error_text, ExperimentError};
use crate::rank_scan::family::{FamilyType, SequenceSpec};
use crate::rank_scan::normalize::{
    mode_factor, mode_name, normalize_values, rational_ok, NormalizeChoice, NormalizeMode,
};
use crate::rank_scan::rank::{compute_nmax, curve_entry_ok, detect_plateau, primes_ok, rank_curve_mod_p, rank_curve_subsample, unusable};
use crate::rank_scan::screen::{
    candidate_filters_pass, choose_candidate, classify_screen, classify_spec, plateau_tail_len, CandidateKey,
};
use crate::rank_scan::solve::{
    all_valid, equivalent_recurrence, map_predict_next_c, predict_next_value, recurrence_holds, solve_recurrence,
    verify_recurrence, RecurrenceCandidate,
};
use crate::rank_scan::{Rational, ScreenStatus};
use crate::rational::{is_normalized_of, lemma_positive_denominator};
use vstd::prelude::*;

verus! {

/// A recurrence found for a sequence.
#[derive(Clone, Debug)]
pub struct Recurrence {
    pub order: usize,
    pub coeffs: Vec<Rational>,
}

/// The settings that the scan of one sequence reads.
#[derive(Clone, Debug)]
pub struct ScanSettings {
    pub loops: Vec<usize>,
    pub r_budget: usize,
    pub primes: Vec<i64>,
    pub subsample_rank: bool,
    pub subsample_size: usize,
    pub seed: u64,
    pub plateau_len: usize,
    pub normalize: NormalizeChoice,
    pub skip_trivial: bool,
    pub attempt_solve_inconclusive: bool,
}

/// One normalization of a sequence and what its screen found. The ranks
/// computed in floating point are left empty here.
#[derive(Clone, Debug)]
pub struct CandidateResult {
    pub mode: NormalizeMode,
    pub normalized_values: Vec<Rational>,
    pub nmax: usize,
    pub rank_mod_p: Vec<usize>,
    pub rank_float: Vec<usize>,
    pub rank_subsample: Vec<usize>,
    pub plateau_rank: Option<usize>,
    pub screen_status: ScreenStatus,
    pub last_rank: usize,
    pub plateau_tail_len: usize,
}

/// The normalizations tried, and why those that failed were skipped.
#[derive(Clone, Debug)]
pub struct NormalizeSummary {
    pub tried: Vec<NormalizeMode>,
    pub skipped: Vec<String>,
}

/// Everything the scan found about one sequence.
#[derive(Clone, Debug)]
pub struct SequenceAnalysis {
    pub spec: SequenceSpec,
    pub values: Vec<Rational>,
    pub normalized_values: Vec<Rational>,
    pub normalize_mode: NormalizeMode,
    pub normalize_candidates_tried: Vec<NormalizeMode>,
    pub normalize_skipped: Vec<String>,
    pub nmax: usize,
    pub rank_mod_p: Vec<usize>,
    pub rank_float: Vec<usize>,
    pub rank_subsample: Vec<usize>,
    pub plateau_rank: Option<usize>,
    pub screen_status: ScreenStatus,
    pub recovered: bool,
    pub candidate_solve_attempted: bool,
    pub candidate_recurrence: Option<Recurrence>,
    pub candidate_predict_next_d: Option<Rational>,
    pub candidate_predict_next_c: Option<Rational>,
    pub recurrence: Option<Recurrence>,
    pub predict_next_d: Option<Rational>,
    pub predict_next_c: Option<Rational>,
}

/// The normalizations to try: the chosen one, or for `auto` those that suit
/// the family.
pub open spec fn modes_for(choice: NormalizeChoice, family: FamilyType) -> Seq<NormalizeMode> {
    match choice {
        NormalizeChoice::Plain => seq![NormalizeMode::Plain],
        NormalizeChoice::OddDoubleFactorial => seq![NormalizeMode::OddDoubleFactorial],
        NormalizeChoice::EvenDoubleFactorial => seq![NormalizeMode::EvenDoubleFactorial],
        NormalizeChoice::FactorialLm1 => seq![NormalizeMode::FactorialLm1],
        NormalizeChoice::CentralBinomialLm1 => seq![NormalizeMode::CentralBinomialLm1],
        NormalizeChoice::Auto => if family == FamilyType::PowLast {
            seq![NormalizeMode::Plain, NormalizeMode::OddDoubleFactorial]
        } else {
            seq![
                NormalizeMode::Plain,
                NormalizeMode::OddDoubleFactorial,
                NormalizeMode::EvenDoubleFactorial,
                NormalizeMode::FactorialLm1,
                NormalizeMode::CentralBinomialLm1,
            ]
        },
    }
}

fn modes_vec(choice: NormalizeChoice, family: FamilyType) -> (r: Vec<NormalizeMode>)
    ensures
        r@ == modes_for(choice, family),
{
    match choice {
        NormalizeChoice::Plain => vec![NormalizeMode::Plain],
        NormalizeChoice::OddDoubleFactorial => vec![NormalizeMode::OddDoubleFactorial],
        NormalizeChoice::EvenDoubleFactorial => vec![NormalizeMode::EvenDoubleFactorial],
        NormalizeChoice::FactorialLm1 => vec![NormalizeMode::FactorialLm1],
        NormalizeChoice::CentralBinomialLm1 => vec![NormalizeMode::CentralBinomialLm1],
        NormalizeChoice::Auto => if family == FamilyType::PowLast {
            vec![NormalizeMode::Plain, NormalizeMode::OddDoubleFactorial]
        } else {
            vec![
                NormalizeMode::Plain,
                NormalizeMode::OddDoubleFactorial,
                NormalizeMode::EvenDoubleFactorial,
                NormalizeMode::FactorialLm1,
                NormalizeMode::CentralBinomialLm1,
            ]
        },
    }
}

/// The normalized values are those of the mode: the raw values themselves,
/// or each divided by the factor of its loop order, in lowest terms.
pub open spec fn normalized_by(out: Seq<Rational>, raw: Seq<Rational>, loops: Seq<usize>, mode: NormalizeMode) -> bool {
    out.len() == raw.len() && all_valid(out) && forall|i: int|
        0 <= i < out.len() ==> if mode == NormalizeMode::Plain {
            #[trigger] out[i] == raw[i]
        } else {
            is_normalized_of(out[i], raw[i].numer as int, raw[i].denom * mode_factor(mode, loops[i] as nat))
        }
}

/// What the screen of a candidate reports, given its normalized values.
pub open spec fn screened(c: CandidateResult, r_budget: int, plateau_len: int) -> bool {
    &&& c.nmax == (if c.normalized_values@.len() == 0 { 0 } else { (c.normalized_values@.len() - 1) / 2 })
    &&& c.rank_mod_p@.len() == c.nmax + 1
    &&& (forall|n: int| 0 <= n < c.rank_mod_p@.len() ==> #[trigger] c.rank_mod_p@[n] <= n + 1)
    &&& c.rank_float@.len() == 0
    &&& c.last_rank == c.rank_mod_p@.last()
    &&& (c.plateau_rank is Some <==> (plateau_len > 0 && c.rank_mod_p@.len() >= plateau_len && forall|i: int|
        c.rank_mod_p@.len() - plateau_len <= i < c.rank_mod_p@.len() ==> #[trigger] c.rank_mod_p@[i]
            == c.rank_mod_p@.last()))
    &&& (c.plateau_rank matches Some(v) ==> v == c.rank_mod_p@.last())
    &&& c.screen_status == classify_spec(c.normalized_values@, c.rank_mod_p@, c.plateau_rank, r_budget)
}

/// Each entry of the candidate's rank curve is the rank of the Hankel matrix
/// of that size of its normalized values modulo the primes.
pub open spec fn curve_matches(c: CandidateResult, primes: Seq<i64>) -> bool {
    forall|n: int| 0 <= n < c.rank_mod_p@.len() ==> curve_entry_ok(c.normalized_values@, primes, n, #[trigger] c.rank_mod_p@[n] as int)
}

/// The key by which a candidate is chosen.
pub open spec fn key_of(c: CandidateResult) -> CandidateKey {
    CandidateKey {
        status: c.screen_status,
        plateau_rank: c.plateau_rank,
        last_rank: c.last_rank,
        plateau_tail_len: c.plateau_tail_len,
        mode: c.mode,
    }
}

/// No prime of the list can reduce the values: each divides a denominator.
pub open spec fn no_usable_prime(values: Seq<Rational>, primes: Seq<i64>) -> bool {
    forall|k: int| 0 <= k < primes.len() ==> #[trigger] unusable(values, primes[k] as int)
}

/// Some normalization of the raw values that the screen may try has no
/// usable prime.
pub open spec fn some_normalization_unusable(raw: Seq<Rational>, loops: Seq<usize>, primes: Seq<i64>) -> bool {
    exists|m: NormalizeMode, v: Seq<Rational>| #[trigger] normalized_by(v, raw, loops, m) && no_usable_prime(v, primes)
}

/// The screen of one normalization of the sequence.
fn screen_candidate(
    mode: NormalizeMode,
    normalized_values: Vec<Rational>,
    settings: &ScanSettings,
) -> (r: Result<CandidateResult, ExperimentError>)
    requires
        primes_ok(settings.primes@),
        normalized_values@.len() < usize::MAX,
    ensures
        r matches Ok(c) ==> c.mode == mode && c.normalized_values@ == normalized_values@ && screened(
            c,
            settings.r_budget as int,
            settings.plateau_len as int,
        ) && curve_matches(c, settings.primes@),
        r is Err <==> no_usable_prime(normalized_values@, settings.primes@),
{
    let nmax = compute_nmax(normalized_values.len());
    let rank_mod_p = rank_curve_mod_p(normalized_values.as_slice(), settings.primes.as_slice(), nmax)?;
    let rank_subsample = if settings.subsample_rank {
        rank_curve_subsample(
            normalized_values.as_slice(),
            settings.primes.as_slice(),
            nmax,
            settings.subsample_size,
            settings.seed,
        )?
    } else {
        Vec::new()
    };
    let plateau_rank = detect_plateau(rank_mod_p.as_slice(), settings.plateau_len);
    let screen_status = classify_screen(
        normalized_values.as_slice(),
        rank_mod_p.as_slice(),
        plateau_rank,
        nmax,
        settings.r_budget,
    );
    let last_rank = rank_mod_p[rank_mod_p.len() - 1];
    let tail = plateau_tail_len(rank_mod_p.as_slice());
    Ok(
        CandidateResult {
            mode,
            normalized_values,
            nmax,
            rank_mod_p,
            rank_float: Vec::new(),
            rank_subsample,
            plateau_rank,
            screen_status,
            last_rank,
            plateau_tail_len: tail,
        },
    )
}

/// The message recorded for a normalization that failed.
pub open spec fn skip_text(mode: NormalizeMode, err: ExperimentError) -> Seq<char> {
    mode_name(mode) + ":"@ + error_text(err)
}

/// Screens each normalization that the settings ask for; those that cannot
/// be computed are skipped with the reason. When none can, the raw values are
/// screened as they are.
pub fn build_candidates(
    spec: &SequenceSpec,
    raw_values: &[Rational],
    settings: &ScanSettings,
) -> (r: Result<(Vec<CandidateResult>, NormalizeSummary), ExperimentError>)
    requires
        primes_ok(settings.primes@),
        raw_values@.len() < usize::MAX,
        forall|i: int| 0 <= i < raw_values@.len() ==> rational_ok(#[trigger] raw_values@[i]),
    ensures
        r matches Ok((cands, summary)) ==> {
            &&& summary.tried@ == modes_for(settings.normalize, spec.family)
            &&& cands@.len() >= 1
            &&& summary.skipped@.len() + cands@.len() == summary.tried@.len() || (cands@.len() == 1
                && summary.skipped@.len() == summary.tried@.len() && cands@[0].mode == NormalizeMode::Plain
                && cands@[0].normalized_values@ == raw_values@)
            &&& forall|k: int|
                0 <= k < cands@.len() ==> screened(#[trigger] cands@[k], settings.r_budget as int, settings.plateau_len as int)
                    && curve_matches(cands@[k], settings.primes@)
                    && normalized_by(cands@[k].normalized_values@, raw_values@, settings.loops@, cands@[k].mode)
        },
        r is Err ==> some_normalization_unusable(raw_values@, settings.loops@, settings.primes@),
{
    let modes = modes_vec(settings.normalize, spec.family);
    let mut out: Vec<CandidateResult> = Vec::new();
    let mut tried: Vec<NormalizeMode> = Vec::new();
    let mut skipped: Vec<String> = Vec::new();
    let mut i: usize = 0;
    while i < modes.len()
        invariant
            primes_ok(settings.primes@),
            raw_values@.len() < usize::MAX,
            forall|t: int| 0 <= t < raw_values@.len() ==> rational_ok(#[trigger] raw_values@[t]),
            modes@ == modes_for(settings.normalize, spec.family),
            i <= modes@.len(),
            tried@ == modes@.subrange(0, i as int),
            skipped@.len() + out@.len() == i,
            forall|k: int|
                0 <= k < out@.len() ==> screened(#[trigger] out@[k], settings.r_budget as int, settings.plateau_len as int)
                    && curve_matches(out@[k], settings.primes@)
                    && normalized_by(out@[k].normalized_values@, raw_values@, settings.loops@, out@[k].mode),
        decreases modes@.len() - i,
    {
        let mode = modes[i];
        tried.push(mode);
        proof {
            assert(tried@ =~= modes@.subrange(0, i + 1));
        }
        match normalize_values(raw_values, settings.loops.as_slice(), mode) {
            Ok(values) => {
                let ghost vv = values@;
                let cand = match screen_candidate(mode, values, settings) {
                    Ok(c) => c,
                    Err(e) => {
                        proof {
                            assert(normalized_by(vv, raw_values@, settings.loops@, mode));
                        }
                        return Err(e);
                    },
                };
                out.push(cand);
            },
            Err(err) => {
                let mut text = String::from_str(mode.as_str());
                text.append(":");
                text.append(err.message().as_str());
                skipped.push(text);
            },
        }
        i += 1;
    }
    proof {
        assert(modes@.subrange(0, modes@.len() as int) =~= modes@);
    }
    if out.len() == 0 {
        let fallback = vstd::slice::slice_to_vec(raw_values);
        proof {
            assert(normalized_by(raw_values@, raw_values@, settings.loops@, NormalizeMode::Plain));
        }
        let cand = match screen_candidate(NormalizeMode::Plain, fallback, settings) {
            Ok(c) => c,
            Err(e) => {
                return Err(e);
            },
        };
        out.push(cand);
        proof {
            assert(normalized_by(out@[0].normalized_values@, raw_values@, settings.loops@, NormalizeMode::Plain));
        }
    }
    Ok((out, NormalizeSummary { tried, skipped }))
}

/// The keys of the candidates.
fn candidate_keys(cands: &Vec<CandidateResult>) -> (r: Vec<CandidateKey>)
    ensures
        r@.len() == cands@.len(),
        forall|k: int| 0 <= k < cands@.len() ==> #[trigger] r@[k] == key_of(cands@[k]),
{
    let mut keys: Vec<CandidateKey> = Vec::new();
    let mut k: usize = 0;
    while k < cands.len()
        invariant
            k <= cands@.len(),
            keys@.len() == k,
            forall|t: int| 0 <= t < k ==> #[trigger] keys@[t] == key_of(cands@[t]),
        decreases cands@.len() - k,
    {
        let c = &cands[k];
        keys.push(
            CandidateKey {
                status: c.screen_status,
                plateau_rank: c.plateau_rank,
                last_rank: c.last_rank,
                plateau_tail_len: c.plateau_tail_len,
                mode: c.mode,
            },
        );
        k += 1;
    }
    keys
}

/// Whether a sequence has a nonzero value.
pub open spec fn has_nonzero(values: Seq<Rational>) -> bool {
    exists|i: int| 0 <= i < values.len() && (#[trigger] values[i]).numer != 0
}

fn any_nonzero(values: &[Rational]) -> (r: bool)
    ensures
        r == has_nonzero(values@),
{
    let mut i: usize = 0;
    while i < values.len()
        invariant
            i <= values@.len(),
            forall|t: int| 0 <= t < i ==> (#[trigger] values@[t]).numer == 0,
        decreases values@.len() - i,
    {
        if values[i].numer != 0 {
            return true;
        }
        i += 1;
    }
    false
}

/// A recurrence that solving from the start and from the second term both
/// find, and that holds on the whole sequence; `None` otherwise.
fn confirmed_recurrence(values: &Vec<Rational>, rank: usize) -> (r: Option<RecurrenceCandidate>)
    requires
        all_valid(values@),
        values@.len() + 3 < usize::MAX,
        2 * rank <= values@.len() + 2,
    ensures
        r matches Some(c) ==> c.order > 0 && c.coeffs@.len() == c.order + 1 && all_valid(c.coeffs@) && recurrence_holds(
            c.coeffs@,
            values@,
            c.order as int,
        ),
{
    let first = solve_recurrence(values.as_slice(), rank, 0)?;
    let second = solve_recurrence(values.as_slice(), rank, 1)?;
    if !equivalent_recurrence(&first, &second) {
        return None;
    }
    if !verify_recurrence(values.as_slice(), &first) {
        return None;
    }
    Some(first)
}

/// Whether the filters can take every coefficient's absolute value.
fn coeffs_in_range(coeffs: &Vec<Rational>) -> (r: bool)
    ensures
        r == forall|i: int|
            0 <= i < coeffs@.len() ==> (#[trigger] coeffs@[i]).numer != i64::MIN && coeffs@[i].denom != i64::MIN,
{
    let mut i: usize = 0;
    while i < coeffs.len()
        invariant
            i <= coeffs@.len(),
            forall|t: int| 0 <= t < i ==> (#[trigger] coeffs@[t]).numer != i64::MIN && coeffs@[t].denom != i64::MIN,
        decreases coeffs@.len() - i,
    {
        if coeffs[i].numer == i64::MIN || coeffs[i].denom == i64::MIN {
            return false;
        }
        i += 1;
    }
    true
}

fn copy_rationals(v: &Vec<Rational>) -> (r: Vec<Rational>)
    ensures
        r@ == v@,
{
    let mut out: Vec<Rational> = Vec::new();
    let mut i: usize = 0;
    while i < v.len()
        invariant
            i <= v@.len(),
            out@ == v@.subrange(0, i as int),
        decreases v@.len() - i,
    {
        out.push(v[i]);
        proof {
            assert(out@ =~= v@.subrange(0, i + 1));
        }
        i += 1;
    }
    proof {
        assert(v@.subrange(0, v@.len() as int) =~= v@);
    }
    out
}

/// Scans one sequence: screens its normalizations, keeps the best, and, when
/// the screen passes (or, if asked, when it is inconclusive), solves for a
/// recurrence that holds on the normalized values and predicts the next term
/// with it.
pub fn analyze_sequence(spec: &SequenceSpec, raw_values: &[Rational], settings: &ScanSettings) -> (r: Result<
    SequenceAnalysis,
    ExperimentError,
>)
    requires
        primes_ok(settings.primes@),
        raw_values@.len() + 3 < usize::MAX,
        forall|i: int| 0 <= i < raw_values@.len() ==> rational_ok(#[trigger] raw_values@[i]),
    ensures
        r matches Ok(a) ==> {
            &&& a.values@ == raw_values@
            &&& a.normalize_candidates_tried@ == modes_for(settings.normalize, spec.family)
            &&& normalized_by(a.normalized_values@, raw_values@, settings.loops@, a.normalize_mode)
            &&& a.rank_float@.len() == 0
            &&& (a.recurrence matches Some(rec) ==> (a.screen_status == ScreenStatus::Pass || (a.screen_status
                == ScreenStatus::Trivial && !settings.skip_trivial)) && rec.order > 0
                && recurrence_holds(rec.coeffs@, a.normalized_values@, rec.order as int))
            &&& (a.candidate_recurrence matches Some(rec) ==> rec.order > 0 && recurrence_holds(
                rec.coeffs@,
                a.normalized_values@,
                rec.order as int,
            ))
            &&& (a.predict_next_d is None ==> a.predict_next_c is None)
            &&& (a.recurrence is None ==> a.predict_next_d is None)
            &&& (a.candidate_solve_attempted ==> settings.attempt_solve_inconclusive)
            &&& a.recovered == (a.screen_status == ScreenStatus::Pass && has_nonzero(raw_values@))
        },
        r is Err ==> some_normalization_unusable(raw_values@, settings.loops@, settings.primes@),
{
    let (candidates, summary) = build_candidates(spec, raw_values, settings)?;
    let keys = candidate_keys(&candidates);
    let best = choose_candidate(keys.as_slice());
    let mut candidates = candidates;
    let chosen = candidates.remove(best);
    proof {
        assert(screened(chosen, settings.r_budget as int, settings.plateau_len as int));
        assert(normalized_by(chosen.normalized_values@, raw_values@, settings.loops@, chosen.mode));
    }
    let mut recurrence: Option<Recurrence> = None;
    let mut predict_next_d: Option<Rational> = None;
    let allow_solve = match chosen.screen_status {
        ScreenStatus::Pass => true,
        ScreenStatus::Trivial => !settings.skip_trivial,
        _ => false,
    };
    let mut screen_status = chosen.screen_status;
    let mut candidate_solve_attempted = false;
    let mut candidate_recurrence: Option<Recurrence> = None;
    let mut candidate_predict_next_d: Option<Rational> = None;
    let mut candidate_predict_next_c: Option<Rational> = None;
    proof {
        assert(all_valid(chosen.normalized_values@));
    }
    if allow_solve {
        if let Some(rank) = chosen.plateau_rank {
            if rank > 0 && rank <= settings.r_budget {
                match confirmed_recurrence(&chosen.normalized_values, rank) {
                    Some(candidate) => {
                        predict_next_d = predict_next_value(chosen.normalized_values.as_slice(), &candidate);
                        recurrence = Some(Recurrence { order: candidate.order, coeffs: candidate.coeffs });
                    },
                    None => {},
                }
            }
        }
    } else if settings.attempt_solve_inconclusive && screen_status == ScreenStatus::Inconclusive {
        let order = chosen.nmax.saturating_add(1);
        if order <= settings.r_budget {
            candidate_solve_attempted = true;
            if let Some(candidate) = solve_recurrence(chosen.normalized_values.as_slice(), order, 0) {
                if verify_recurrence(chosen.normalized_values.as_slice(), &candidate) {
                    candidate_predict_next_d = predict_next_value(chosen.normalized_values.as_slice(), &candidate);
                    candidate_predict_next_c = match candidate_predict_next_d {
                        Some(value) => map_predict_next_c(value, chosen.mode, settings.loops.as_slice()),
                        None => None,
                    };
                    let pass = if coeffs_in_range(&candidate.coeffs) {
                        candidate_filters_pass(candidate.coeffs.as_slice(), candidate_predict_next_c)
                    } else {
                        false
                    };
                    let kept = copy_rationals(&candidate.coeffs);
                    candidate_recurrence = Some(Recurrence { order: candidate.order, coeffs: kept });
                    if pass {
                        screen_status = ScreenStatus::Pass;
                        recurrence = Some(Recurrence { order: candidate.order, coeffs: candidate.coeffs });
                        predict_next_d = candidate_predict_next_d;
                    }
                }
            }
        }
    }
    let predict_next_c = match predict_next_d {
        Some(value) => map_predict_next_c(value, chosen.mode, settings.loops.as_slice()),
        None => None,
    };
    let recovered = screen_status == ScreenStatus::Pass && any_nonzero(raw_values);
    Ok(
        SequenceAnalysis {
            spec: spec.clone(),
            values: vstd::slice::slice_to_vec(raw_values),
            normalized_values: chosen.normalized_values,
            normalize_mode: chosen.mode,
            normalize_candidates_tried: summary.tried,
            normalize_skipped: summary.skipped,
            nmax: chosen.nmax,
            rank_mod_p: chosen.rank_mod_p,
            rank_float: chosen.rank_float,
            rank_subsample: chosen.rank_subsample,
            plateau_rank: chosen.plateau_rank,
            screen_status,
            recovered,
            candidate_solve_attempted,
            candidate_recurrence,
            candidate_predict_next_d,
            candidate_predict_next_c,
            recurrence,
            predict_next_d,
            predict_next_c,
        },
    )
}

} // verus!
