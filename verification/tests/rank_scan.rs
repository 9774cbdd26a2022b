use mpl_experiments::rank_scan::normalize::{
    central_binomial_lm1, even_double_factorial, factorial_lm1, normalize_values, odd_double_factorial, NormalizeMode,
};
use mpl_experiments::error::ExperimentError;
use mpl_experiments::rank_scan::discover::discover_letters_and_pairs;
use mpl_experiments::rank_scan::rank::{compute_nmax, rank_curve_mod_p};
use mpl_experiments::rank_scan::screen::{choose_candidate, CandidateKey};
use mpl_experiments::rank_scan::solve::{
    equivalent_recurrence, last_nonzero_index, map_predict_next_c, normalize_recurrence, predict_next_value,
    solve_recurrence, verify_recurrence, RecurrenceCandidate,
};
use mpl_experiments::rank_scan::analysis::{analyze_sequence, build_candidates, ScanSettings};
use mpl_experiments::rank_scan::family::{FamilyType, SequenceSource, SequenceSpec};
use mpl_experiments::rank_scan::normalize::NormalizeChoice;
use mpl_experiments::rank_scan::{Rational, ScreenStatus};
use mpl_experiments::rational::{rational_mul, rational_neg};

fn whole(n: i64) -> Rational {
    Rational { numer: n, denom: 1 }
}

#[test]
fn odd_double_factorial_values() {
    let expected = [1, 1, 3, 15, 105, 945];
    for (idx, &value) in expected.iter().enumerate() {
        let loop_index = idx + 1;
        let coeff = odd_double_factorial(loop_index).expect("odd double factorial");
        assert_eq!(coeff, value);
    }
}

#[test]
fn even_double_factorial_values() {
    let expected = [1, 2, 8, 48, 384, 3840];
    for (idx, &value) in expected.iter().enumerate() {
        let loop_index = idx + 1;
        let coeff = even_double_factorial(loop_index).expect("even double factorial");
        assert_eq!(coeff, value);
    }
}

#[test]
fn central_binomial_values() {
    let expected = [1, 2, 6, 20, 70, 252];
    for (idx, &value) in expected.iter().enumerate() {
        let loop_index = idx + 1;
        let coeff = central_binomial_lm1(loop_index).expect("central binomial");
        assert_eq!(coeff, value);
    }
}

#[test]
fn normalize_and_rank_plateau() {
    let loops = vec![1, 2, 3, 4, 5, 6];
    let values = vec![whole(-2), whole(16), whole(-384), whole(15360), whole(-860160), whole(61931520)];
    let normalized =
        normalize_values(&values, &loops, NormalizeMode::OddDoubleFactorial).expect("normalize");
    let expected = vec![whole(-2), whole(16), whole(-128), whole(1024), whole(-8192), whole(65536)];
    assert_eq!(normalized, expected);
    let nmax = compute_nmax(normalized.len());
    let curve = rank_curve_mod_p(&normalized, &[101], nmax).expect("rank");
    assert_eq!(curve, vec![1, 1, 1]);
}

#[test]
fn rank_curve_constant_sequence() {
    let values = vec![whole(1), whole(1), whole(1), whole(1)];
    let nmax = compute_nmax(values.len());
    let curve = rank_curve_mod_p(&values, &[101], nmax).expect("rank curve");
    assert_eq!(curve, vec![1, 1]);
}

#[test]
fn normalize_tiebreak_order_prefers_none() {
    let mut candidates = Vec::new();
    for mode in [NormalizeMode::OddDoubleFactorial, NormalizeMode::Plain, NormalizeMode::EvenDoubleFactorial] {
        candidates.push(CandidateKey {
            status: ScreenStatus::Inconclusive,
            plateau_rank: Some(1),
            last_rank: 1,
            plateau_tail_len: 1,
            mode,
        });
    }
    let chosen = choose_candidate(&candidates);
    assert_eq!(candidates[chosen].mode, NormalizeMode::Plain);
}

#[test]
fn factorial_lm1_values() {
    let expected = [1, 1, 2, 6, 24, 120];
    for (idx, &value) in expected.iter().enumerate() {
        assert_eq!(factorial_lm1(idx + 1).expect("factorial"), value);
    }
}

#[test]
fn central_binomial_overflows_past_i64() {
    // C(66, 33) fits in i64, C(68, 34) does not.
    assert_eq!(central_binomial_lm1(34).expect("fits"), 7219428434016265740);
    assert!(central_binomial_lm1(35).is_err());
}

#[test]
fn odd_double_factorial_overflow_is_error() {
    assert!(odd_double_factorial(40).is_err());
}

#[test]
fn normalize_values_rejects_length_mismatch() {
    let values = vec![whole(1), whole(2)];
    assert!(normalize_values(&values, &[1], NormalizeMode::Plain).is_err());
}

#[test]
fn normalize_values_reduces_fractions() {
    let values = vec![Rational { numer: 3, denom: 2 }, whole(6)];
    let loops = vec![3, 4];
    let out = normalize_values(&values, &loops, NormalizeMode::FactorialLm1).expect("normalize");
    // 3/2 / 2! = 3/4, 6 / 3! = 1
    assert_eq!(out, vec![Rational { numer: 3, denom: 4 }, whole(1)]);
    let central = normalize_values(&[whole(-20)], &[4], NormalizeMode::CentralBinomialLm1).expect("central");
    assert_eq!(central, vec![whole(-1)]);
}

#[test]
fn choose_candidate_prefers_pass_then_lower_rank() {
    let a = CandidateKey {
        status: ScreenStatus::Fail,
        plateau_rank: Some(1),
        last_rank: 1,
        plateau_tail_len: 3,
        mode: NormalizeMode::Plain,
    };
    let b = CandidateKey { status: ScreenStatus::Pass, plateau_rank: Some(3), ..a };
    let c = CandidateKey { status: ScreenStatus::Pass, plateau_rank: Some(2), ..a };
    let cands = vec![a, b, c];
    assert_eq!(choose_candidate(&cands), 2);
}

#[test]
fn solve_fibonacci_recurrence() {
    let values: Vec<Rational> = [1, 1, 2, 3, 5, 8].iter().map(|&v| whole(v)).collect();
    let rec = solve_recurrence(&values, 2, 0).expect("recurrence");
    assert_eq!(rec.order, 2);
    assert!(verify_recurrence(&values, &rec));
    let next = predict_next_value(&values, &rec).expect("next");
    assert_eq!(next, whole(13));
}

#[test]
fn solve_normalized_recurrence() {
    let normalized: Vec<Rational> = [-2, 16, -128, 1024, -8192, 65536].iter().map(|&v| whole(v)).collect();
    let rec = solve_recurrence(&normalized, 1, 0).expect("recurrence");
    let rho = rational_neg(rec.coeffs[0]).expect("negation");
    assert_eq!(rho, whole(-8));
}

#[test]
fn recurrence_checks_and_predictions() {
    let values: Vec<Rational> = [1, 1, 2, 3, 5, 8].iter().map(|&v| whole(v)).collect();
    let fib = RecurrenceCandidate { order: 2, coeffs: vec![whole(-1), whole(-1), whole(1)] };
    assert!(verify_recurrence(&values, &fib));
    let wrong = RecurrenceCandidate { order: 2, coeffs: vec![whole(-1), whole(-2), whole(1)] };
    assert!(!verify_recurrence(&values, &wrong));
    let none = RecurrenceCandidate { order: 0, coeffs: vec![whole(1)] };
    assert!(!verify_recurrence(&values, &none));
    assert!(predict_next_value(&values, &none).is_none());
    let scaled = RecurrenceCandidate { order: 2, coeffs: vec![whole(-3), whole(-3), whole(3)] };
    assert!(equivalent_recurrence(&fib, &scaled));
    assert!(!equivalent_recurrence(&fib, &wrong));
    let halves = normalize_recurrence(&[whole(1), whole(4), whole(2), whole(0)]).expect("normalized");
    assert_eq!(halves, vec![Rational { numer: 1, denom: 2 }, whole(2), whole(1)]);
    assert_eq!(last_nonzero_index(&[whole(0), whole(3), whole(0)]), Some(1));
    assert_eq!(last_nonzero_index(&[whole(0)]), None);
    assert!(normalize_recurrence(&[whole(0), whole(0)]).is_none());
    let short: Vec<Rational> = [1, 2, 3].iter().map(|&v| whole(v)).collect();
    assert!(solve_recurrence(&short, 2, 0).is_none());
    assert!(solve_recurrence(&values, 0, 0).is_none());
}

#[test]
fn predictions_map_back_to_raw_coefficients() {
    let d = Rational { numer: 3, denom: 2 };
    assert_eq!(map_predict_next_c(d, NormalizeMode::Plain, &[1, 2]), Some(d));
    assert_eq!(map_predict_next_c(d, NormalizeMode::OddDoubleFactorial, &[]), None);
    // the next loop after 3 is 4, and (2*4-3)!! = 15
    assert_eq!(map_predict_next_c(d, NormalizeMode::OddDoubleFactorial, &[3, 1]), Some(Rational { numer: 45, denom: 2 }));
    assert_eq!(rational_mul(whole(6), Rational { numer: 1, denom: 4 }), Some(Rational { numer: 3, denom: 2 }));
}

fn settings(normalize: NormalizeChoice) -> ScanSettings {
    ScanSettings {
        loops: vec![1, 2, 3, 4, 5, 6],
        r_budget: 2,
        primes: vec![101, 103],
        subsample_rank: false,
        subsample_size: 0,
        seed: 1,
        plateau_len: 2,
        normalize,
        skip_trivial: true,
        attempt_solve_inconclusive: false,
    }
}

fn pow_last_spec() -> SequenceSpec {
    SequenceSpec {
        family: FamilyType::PowLast,
        params: vec!["x=a".to_string(), "y=b".to_string()],
        source: SequenceSource::ExactWords { words: vec![vec!["a".to_string()]] },
    }
}

#[test]
fn analyze_geometric_sequence_finds_its_recurrence() {
    let values: Vec<Rational> = [1, 2, 4, 8, 16, 32].iter().map(|&v| whole(v)).collect();
    let analysis = analyze_sequence(&pow_last_spec(), &values, &settings(NormalizeChoice::Plain)).expect("analysis");
    assert_eq!(analysis.rank_mod_p, vec![1, 1, 1]);
    assert_eq!(analysis.plateau_rank, Some(1));
    assert_eq!(analysis.screen_status, ScreenStatus::Pass);
    assert!(analysis.recovered);
    let rec = analysis.recurrence.expect("recurrence");
    assert_eq!(rec.order, 1);
    assert_eq!(rec.coeffs, vec![whole(-2), whole(1)]);
    assert_eq!(analysis.predict_next_d, Some(whole(64)));
    assert_eq!(analysis.predict_next_c, Some(whole(64)));
    assert!(!analysis.candidate_solve_attempted);
}

#[test]
fn zero_sequence_is_trivial() {
    let values: Vec<Rational> = [0, 0, 0, 0, 0].iter().map(|&v| whole(v)).collect();
    let mut cfg = settings(NormalizeChoice::Plain);
    cfg.loops = vec![1, 2, 3, 4, 5];
    let analysis = analyze_sequence(&pow_last_spec(), &values, &cfg).expect("analysis");
    assert_eq!(analysis.screen_status, ScreenStatus::Trivial);
    assert!(!analysis.recovered);
    assert!(analysis.recurrence.is_none());
}

#[test]
fn auto_normalization_tries_the_family_modes() {
    let values: Vec<Rational> = [1, 1, 3, 15, 105, 945].iter().map(|&v| whole(v)).collect();
    let (cands, summary) = build_candidates(&pow_last_spec(), &values, &settings(NormalizeChoice::Auto)).expect("candidates");
    assert_eq!(summary.tried, vec![NormalizeMode::Plain, NormalizeMode::OddDoubleFactorial]);
    assert!(summary.skipped.is_empty());
    assert_eq!(cands.len(), 2);
    assert_eq!(cands[1].normalized_values, vec![whole(1); 6]);
    let mismatch = build_candidates(&pow_last_spec(), &values[..3], &settings(NormalizeChoice::OddDoubleFactorial)).expect("fallback");
    assert_eq!(mismatch.1.skipped, vec!["odd-double-factorial:invalid config: normalize values: length mismatch".to_string()]);
    assert_eq!(mismatch.0.len(), 1);
    assert_eq!(mismatch.0[0].mode, NormalizeMode::Plain);
}

fn word(letters: &[&str]) -> Vec<String> {
    letters.iter().map(|l| l.to_string()).collect()
}

#[test]
fn letters_and_pairs_are_sorted_and_unique() {
    let loops = vec![1usize, 2];
    let words = vec![
        Some(vec![word(&["b", "a"]), word(&["a", "b"])]),
        Some(vec![word(&["x", "y", "x", "y"]), word(&["a", "b", "a", "c"]), word(&["x", "y"])]),
    ];
    let found = discover_letters_and_pairs(&loops, &words, true).expect("discovery");
    assert_eq!(found.letters, word(&["a", "b", "c", "x", "y"]));
    let pair = |a: &str, b: &str| (a.to_string(), b.to_string());
    assert_eq!(found.pairs, vec![pair("a", "b"), pair("b", "a"), pair("x", "y")]);
    let no_pairs = discover_letters_and_pairs(&loops, &words, false).expect("discovery");
    assert!(no_pairs.pairs.is_empty());
    assert_eq!(no_pairs.letters.len(), 5);
    let missing = vec![words[0].clone(), None];
    match discover_letters_and_pairs(&loops, &missing, true) {
        Err(ExperimentError::InvalidConfig(msg)) => assert_eq!(msg, "missing loop file for L=2"),
        other => panic!("unexpected {:?}", other.map(|d| d.letters)),
    }
}
