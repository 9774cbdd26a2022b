use mpl_experiments::acceptors::{
    build_automaton_acceptors, AutomatonAcceptorRef, SpecAutomaton, SpecAutomatonAcceptor, SpecChannel, SpecConstraints,
    SpecRule,
};
use mpl_experiments::experiment::{summarize_weights, WeightRun};
use mpl_experiments::filtration::{filtration_row, full_run_allowed, FiltrationMode, FullRunOutcome};
use mpl_experiments::kze2::words::words_upto;
use mpl_experiments::output::{BasisStats, ErrorCode, Status};
use mpl_experiments::word_stats::{pair_counts_from_words, triplet_counts_from_words};

fn names() -> Vec<(String, usize)> {
    vec![("a".to_string(), 0), ("b".to_string(), 1), ("c".to_string(), 2)]
}

fn channels() -> Vec<Option<SpecChannel>> {
    vec![Some(SpecChannel::Int(1)), Some(SpecChannel::Text("2".to_string())), Some(SpecChannel::Int(1))]
}

fn spec_of(list: Vec<SpecAutomatonAcceptor>) -> SpecConstraints {
    SpecConstraints { automaton: Some(SpecAutomaton { acceptors: Some(list) }) }
}

fn kgram(k: usize) -> SpecAutomatonAcceptor {
    SpecAutomatonAcceptor::KGram {
        k,
        mode: "forbidden".to_string(),
        triplets: vec![("a".to_string(), "b".to_string(), "c".to_string())],
    }
}

fn rule(if_seen: &str, forbid: &[&str]) -> SpecRule {
    SpecRule { if_seen: if_seen.to_string(), forbid: forbid.iter().map(|s| s.to_string()).collect() }
}

#[test]
fn plan_without_automaton_is_empty() {
    let plan = build_automaton_acceptors(&SpecConstraints { automaton: None }, &names(), &channels()).unwrap();
    assert!(plan.order.is_empty() && plan.kgrams.is_empty() && plan.genealogical.is_empty() && plan.channel_pairs.is_empty());
}

#[test]
fn plan_orders_acceptors_by_kind() {
    let spec = spec_of(vec![
        kgram(3),
        SpecAutomatonAcceptor::Genealogical { seen: Some("letter".to_string()), rules: vec![rule("a", &["c", "b"])] },
        SpecAutomatonAcceptor::Genealogical { seen: None, rules: vec![] },
        kgram(3),
        SpecAutomatonAcceptor::ChannelPairs { mode: "allowed".to_string(), symmetric: None, pairs: vec![(1, 2)] },
    ]);
    let plan = build_automaton_acceptors(&spec, &names(), &channels()).unwrap();
    assert_eq!(
        plan.order,
        vec![
            AutomatonAcceptorRef::KGram(0),
            AutomatonAcceptorRef::Genealogical(0),
            AutomatonAcceptorRef::KGram(1),
            AutomatonAcceptorRef::ChannelPairs(0),
        ]
    );
    assert_eq!(plan.kgrams[0].ids, vec![(0, 1, 2)]);
    assert_eq!(plan.genealogical[0].rules, vec![(0, vec![1, 2])]);
    assert_eq!(plan.genealogical[0].key_count, 3);
    assert_eq!(plan.channel_pairs[0].letter_to_channel, vec![1, 2, 1]);
    assert!(!plan.channel_pairs[0].symmetric);
}

#[test]
fn plan_refuses_bad_specs() {
    assert!(build_automaton_acceptors(&spec_of(vec![kgram(2)]), &names(), &channels()).is_err());
    let dup_forbid = SpecAutomatonAcceptor::Genealogical { seen: Some("letter".to_string()), rules: vec![rule("a", &["b", "b"])] };
    assert!(build_automaton_acceptors(&spec_of(vec![dup_forbid]), &names(), &channels()).is_err());
    let dup_rule = SpecAutomatonAcceptor::Genealogical {
        seen: Some("letter".to_string()),
        rules: vec![rule("a", &["b", "c"]), rule("a", &["c", "b"])],
    };
    assert!(build_automaton_acceptors(&spec_of(vec![dup_rule]), &names(), &channels()).is_err());
    let unknown = SpecAutomatonAcceptor::Genealogical { seen: None, rules: vec![rule("7", &["1"])] };
    assert!(build_automaton_acceptors(&spec_of(vec![unknown]), &names(), &channels()).is_err());
    let pairs = SpecAutomatonAcceptor::ChannelPairs { mode: "forbidden".to_string(), symmetric: Some(true), pairs: vec![(1, 9)] };
    assert!(build_automaton_acceptors(&spec_of(vec![pairs]), &names(), &channels()).is_err());
    let bad_mode = SpecAutomatonAcceptor::Genealogical { seen: Some("other".to_string()), rules: vec![] };
    assert!(build_automaton_acceptors(&spec_of(vec![bad_mode]), &names(), &channels()).is_err());
}

#[test]
fn plan_refuses_modes_lists_and_channels() {
    let kgram_mode = SpecAutomatonAcceptor::KGram { k: 3, mode: "sometimes".to_string(), triplets: vec![] };
    assert!(build_automaton_acceptors(&spec_of(vec![kgram_mode]), &names(), &channels()).is_err());
    let empty_allowed = SpecAutomatonAcceptor::KGram { k: 3, mode: "allowed".to_string(), triplets: vec![] };
    assert!(build_automaton_acceptors(&spec_of(vec![empty_allowed]), &names(), &channels()).is_err());
    let empty_pairs = SpecAutomatonAcceptor::ChannelPairs { mode: "allowed".to_string(), symmetric: None, pairs: vec![] };
    assert!(build_automaton_acceptors(&spec_of(vec![empty_pairs]), &names(), &channels()).is_err());
    let forbidden_empty = SpecAutomatonAcceptor::ChannelPairs { mode: "forbidden".to_string(), symmetric: None, pairs: vec![] };
    let plan = build_automaton_acceptors(&spec_of(vec![forbidden_empty]), &names(), &channels()).unwrap();
    assert_eq!(plan.channel_pairs.len(), 1);
    let missing = vec![Some(SpecChannel::Int(1)), None, Some(SpecChannel::Int(2))];
    let by_channel = SpecAutomatonAcceptor::Genealogical { seen: None, rules: vec![] };
    assert!(build_automaton_acceptors(&spec_of(vec![by_channel]), &names(), &missing).is_err());
    let by_letter = SpecAutomatonAcceptor::Genealogical { seen: Some("letter".to_string()), rules: vec![] };
    assert!(build_automaton_acceptors(&spec_of(vec![by_letter]), &names(), &missing).is_ok());
    let same_channel = SpecAutomatonAcceptor::Genealogical { seen: None, rules: vec![rule("2", &["1", "01"])] };
    assert!(build_automaton_acceptors(&spec_of(vec![same_channel]), &names(), &channels()).is_err());
}

#[test]
fn filtration_chooses_full_or_count_only() {
    assert!(full_run_allowed(FiltrationMode::Full, Status::Done, 100, Some(10)));
    assert!(!full_run_allowed(FiltrationMode::CountOnly, Status::Done, 1, None));
    assert!(!full_run_allowed(FiltrationMode::Auto, Status::Done, 100, Some(10)));
    assert!(full_run_allowed(FiltrationMode::Auto, Status::Done, 10, Some(10)));
    assert!(!full_run_allowed(FiltrationMode::Auto, Status::Failed, 1, None));
}

fn stats() -> BasisStats {
    BasisStats {
        dim: 4,
        rank: 3,
        ncols: 5,
        rows_attempted: 7,
        rows_inserted: 6,
        samples_used: 2,
        envs_total: 9,
        constraints_insufficient_samples: 0,
    }
}

#[test]
fn filtration_row_flags_nondeterminism() {
    let full = Some(FullRunOutcome { status: Status::Done, error_code: None, stats: stats() });
    let row = filtration_row(0, "base", 3, FiltrationMode::Full, Status::Done, None, 12, full, 3, "sig", &["sig".to_string(), "other".to_string()], "exact");
    assert_eq!(row.status, Status::Failed);
    assert_eq!(row.error_code, Some(ErrorCode::NonDeterministicOutput));
    assert_eq!(row.rank, Some(3));
    let row = filtration_row(0, "base", 3, FiltrationMode::Full, Status::Done, None, 12, full, 3, "sig", &["sig".to_string(), "sig".to_string()], "exact");
    assert_eq!(row.status, Status::Done);
    assert_eq!(row.dim, Some(4));
    let row = filtration_row(1, "top", 2, FiltrationMode::CountOnly, Status::Done, None, 5, None, 1, "", &[], "exact");
    assert_eq!(row.status, Status::Done);
    assert_eq!(row.dim, None);
    assert_eq!(row.n_words_allowed, 5);
    assert_eq!(row.sample_table, "exact");
}

#[test]
fn pair_and_triplet_tables_count_active_words() {
    let words = vec![vec![0, 1, 0, 1], vec![2, 2], vec![1, 0]];
    let pairs = pair_counts_from_words(&words, &[0, 2, 7]);
    assert_eq!(pairs, vec![((0, 1), 2), ((1, 0), 2)]);
    let triplets = triplet_counts_from_words(&words, &[0, 1]);
    assert_eq!(triplets, vec![((0, 1, 0), 1), ((1, 0, 1), 1)]);
}

#[test]
fn weight_summaries_and_totals() {
    let runs = vec![
        WeightRun::CountFailed { weight: 1, code: ErrorCode::FuelExhausted },
        WeightRun::Computed { weight: 2, n_words_allowed: 4, words: vec![vec![0, 1], vec![1, 0]], active_cols: vec![0, 1], stats: stats() },
        WeightRun::Computed { weight: 3, n_words_allowed: 8, words: vec![vec![0, 1, 2]], active_cols: vec![0], stats: stats() },
    ];
    let tables = summarize_weights(3, &runs);
    assert_eq!(tables.summaries.len(), 3);
    assert_eq!(tables.summaries[0].status, Status::Failed);
    assert_eq!(tables.summaries[0].topology.n_edges, 0);
    assert_eq!(tables.summaries[1].n_active_words, 2);
    assert_eq!(tables.summaries[1].topology.n_edges, 2);
    assert_eq!(tables.pairs_total, vec![((0, 1), 2), ((1, 0), 1), ((1, 2), 1)]);
    assert_eq!(tables.triplets_total, vec![((0, 1, 2), 1)]);
    assert_eq!(tables.pairs_by_weight.len(), 2);
}

#[test]
fn words_over_empty_alphabet() {
    let words = words_upto(3, 0);
    assert_eq!(words, vec![Vec::<u8>::new()]);
}
