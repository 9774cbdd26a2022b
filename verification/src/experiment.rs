//! The summaries of an experiment's weights: from what the word count and the
//! basis computation gave at each weight, the letter-graph metrics of the
//! active words and the pair and triplet counts, per weight and in total.
use crate::output::{BasisStats, ErrorCode, Status, WeightSummary};
use crate::topology::{
    components_below, compute_skeleton2_metrics, compute_topology_metrics, directed_edges, edges_below,
    keys_distinct, max_out_degree_below, triangles_below, triplet_total, SKELETON_MAX_VERTICES,
};
use crate::word_stats::{
    active_pair_slots, active_pairs, active_triplet_slots, active_triplets, add_pair_table, add_triplet_table,
    pair_counts_from_words, pair_entry, pair_sum, pair_table_ok, triplet_counts_from_words, triplet_entry, triplet_sum,
    triplet_table_ok, pair_lt,
};
use vstd::prelude::*;

verus! {

/// What the word count and the basis computation gave at one weight.
pub enum WeightRun {
    /// The count failed.
    CountFailed { weight: usize, code: ErrorCode },
    /// The count succeeded and the basis computation failed.
    BasisFailed { weight: usize, n_words_allowed: usize, stats: BasisStats, code: ErrorCode },
    /// Both succeeded: the basis words, the columns of its active words, and
    /// its figures.
    Computed { weight: usize, n_words_allowed: usize, words: Vec<Vec<usize>>, active_cols: Vec<usize>, stats: BasisStats },
}

/// The summaries of the weights and the pair and triplet counts.
pub struct ExperimentTables {
    pub summaries: Vec<WeightSummary>,
    pub pairs_total: Vec<((usize, usize), u64)>,
    pub pairs_by_weight: Vec<(usize, Vec<((usize, usize), u64)>)>,
    pub triplets_total: Vec<((usize, usize, usize), u64)>,
    pub triplets_by_weight: Vec<(usize, Vec<((usize, usize, usize), u64)>)>,
}

/// The pair windows of the active words of the first `i` runs.
pub open spec fn run_pair_slots(runs: Seq<WeightRun>, i: int) -> nat
    decreases i,
{
    if i <= 0 {
        0
    } else {
        run_pair_slots(runs, i - 1) + match runs[i - 1] {
            WeightRun::Computed { words, active_cols, .. } => active_pair_slots(words@, active_cols@, active_cols@.len() as int),
            _ => 0nat,
        }
    }
}

/// The triplet windows of the active words of the first `i` runs.
pub open spec fn run_triplet_slots(runs: Seq<WeightRun>, i: int) -> nat
    decreases i,
{
    if i <= 0 {
        0
    } else {
        run_triplet_slots(runs, i - 1) + match runs[i - 1] {
            WeightRun::Computed { words, active_cols, .. } => active_triplet_slots(words@, active_cols@, active_cols@.len() as int),
            _ => 0nat,
        }
    }
}

/// The occurrences of the pair `key` in the active words of the first `i` runs.
pub open spec fn run_pairs(runs: Seq<WeightRun>, key: (usize, usize), i: int) -> nat
    decreases i,
{
    if i <= 0 {
        0
    } else {
        run_pairs(runs, key, i - 1) + match runs[i - 1] {
            WeightRun::Computed { words, active_cols, .. } => active_pairs(words@, active_cols@, key, active_cols@.len() as int),
            _ => 0nat,
        }
    }
}

/// The occurrences of the triplet `key` in the active words of the first `i`
/// runs.
pub open spec fn run_triplets(runs: Seq<WeightRun>, key: (usize, usize, usize), i: int) -> nat
    decreases i,
{
    if i <= 0 {
        0
    } else {
        run_triplets(runs, key, i - 1) + match runs[i - 1] {
            WeightRun::Computed { words, active_cols, .. } => active_triplets(words@, active_cols@, key, active_cols@.len() as int),
            _ => 0nat,
        }
    }
}

/// The number of computed runs among the first `i`.
pub open spec fn computed_count(runs: Seq<WeightRun>, i: int) -> nat
    decreases i,
{
    if i <= 0 {
        0
    } else {
        computed_count(runs, i - 1) + if runs[i - 1] is Computed {
            1nat
        } else {
            0nat
        }
    }
}

/// The basis figures of a weight that was not computed.
pub open spec fn no_stats() -> BasisStats {
    BasisStats {
        dim: 0,
        rank: 0,
        ncols: 0,
        rows_attempted: 0,
        rows_inserted: 0,
        samples_used: 0,
        envs_total: 0,
        constraints_insufficient_samples: 0,
    }
}

/// The metrics of a summary are those of the letter graph given by the pair
/// table `pairs` over `n` letters, with `active` active words.
pub open spec fn metrics_of(s: WeightSummary, n: int, pairs: Seq<((usize, usize), u64)>, active: int) -> bool {
    &&& s.topology.n_vertices == n
    &&& s.topology.n_active_words == active
    &&& s.topology.n_edges == directed_edges(pairs, n, pairs.len() as int)
    &&& s.topology.weakly_connected_components == components_below(pairs, n, n)
    &&& s.topology.max_out_degree == max_out_degree_below(pairs, n, n)
    &&& s.skeleton2.n_vertices == n
    &&& s.skeleton2.n_edges_undirected == edges_below(pairs, n, n)
    &&& s.skeleton2.triangles == triangles_below(pairs, n, n)
}

/// The summary of one weight: a failed count has no words and empty graphs;
/// a failed basis keeps its count and figures, with empty graphs; a computed
/// basis has the graphs of the pairs in its active words.
pub open spec fn summary_of(run: WeightRun, s: WeightSummary, n: int) -> bool {
    match run {
        WeightRun::CountFailed { weight, code } => {
            &&& s.weight == weight && s.n_words_allowed == 0 && s.n_active_words == 0 && s.stats == no_stats()
            &&& s.status == Status::Failed && s.error_code == Some(code)
            &&& metrics_of(s, n, Seq::empty(), 0)
        },
        WeightRun::BasisFailed { weight, n_words_allowed, stats, code } => {
            &&& s.weight == weight && s.n_words_allowed == n_words_allowed && s.n_active_words == 0 && s.stats == stats
            &&& s.status == Status::Failed && s.error_code == Some(code)
            &&& metrics_of(s, n, Seq::empty(), 0)
        },
        WeightRun::Computed { weight, n_words_allowed, words, active_cols, stats } => {
            &&& s.weight == weight && s.n_words_allowed == n_words_allowed && s.n_active_words == active_cols@.len()
            &&& s.stats == stats && s.status == Status::Done && s.error_code is None
            &&& exists|pairs: Seq<((usize, usize), u64)>|
                pair_table_ok(pairs) && (forall|k: (usize, usize)| #[trigger] pair_entry(pairs, k) == active_pairs(
                    words@,
                    active_cols@,
                    k,
                    active_cols@.len() as int,
                )) && metrics_of(s, n, pairs, active_cols@.len() as int)
        },
    }
}

/// The per-weight tables `p` (pairs) and `q` (triplets) of a computed run:
/// its weight and the counts in its active words.
pub open spec fn weight_tables_of(
    run: WeightRun,
    p: (usize, Vec<((usize, usize), u64)>),
    q: (usize, Vec<((usize, usize, usize), u64)>),
) -> bool {
    match run {
        WeightRun::Computed { weight, words, active_cols, .. } => {
            &&& p.0 == weight && pair_table_ok(p.1@)
            &&& forall|k: (usize, usize)| #[trigger] pair_entry(p.1@, k) == active_pairs(
                words@,
                active_cols@,
                k,
                active_cols@.len() as int,
            )
            &&& q.0 == weight && triplet_table_ok(q.1@)
            &&& forall|k: (usize, usize, usize)| #[trigger] triplet_entry(q.1@, k) == active_triplets(
                words@,
                active_cols@,
                k,
                active_cols@.len() as int,
            )
        },
        _ => true,
    }
}

/// The count of computed runs only grows, by one at each computed run.
proof fn lemma_computed_count_mono(runs: Seq<WeightRun>, i: int, j: int)
    requires
        0 <= i <= j,
    ensures
        computed_count(runs, i) <= computed_count(runs, j),
    decreases j - i,
{
    if i < j {
        lemma_computed_count_mono(runs, i, j - 1);
    }
}

proof fn lemma_triplet_total_sum(t: Seq<((usize, usize, usize), u64)>, k: int)
    requires
        0 <= k <= t.len(),
    ensures
        triplet_total(t, k) == triplet_sum(t.subrange(0, k)),
    decreases k,
{
    if k > 0 {
        lemma_triplet_total_sum(t, k - 1);
        assert(t.subrange(0, k).drop_last() =~= t.subrange(0, k - 1));
    }
}

proof fn lemma_pair_keys_distinct(t: Seq<((usize, usize), u64)>)
    requires
        pair_table_ok(t),
    ensures
        keys_distinct(t),
{
    assert forall|i: int, j: int| 0 <= i < j < t.len() implies (#[trigger] t[i]).0 != (#[trigger] t[j]).0 by {
        assert(pair_lt(t[i].0, t[j].0));
    }
}

/// The run slots are sums that only grow.
proof fn lemma_run_slots_mono(runs: Seq<WeightRun>, i: int, j: int)
    requires
        0 <= i <= j,
    ensures
        run_pair_slots(runs, i) <= run_pair_slots(runs, j),
        run_triplet_slots(runs, i) <= run_triplet_slots(runs, j),
    decreases j - i,
{
    if i < j {
        lemma_run_slots_mono(runs, i, j - 1);
    }
}

/// The metrics of the letter graph of a pair table.
fn weight_metrics(
    weight: usize,
    stats: BasisStats,
    n_words_allowed: usize,
    n_active: usize,
    status: Status,
    code: Option<ErrorCode>,
    alpha_len: usize,
    pairs: &Vec<((usize, usize), u64)>,
    triplets: &Vec<((usize, usize, usize), u64)>,
) -> (s: WeightSummary)
    requires
        alpha_len <= SKELETON_MAX_VERTICES,
        pair_table_ok(pairs@),
        triplet_sum(triplets@) <= u64::MAX,
    ensures
        s.weight == weight && s.stats == stats && s.n_words_allowed == n_words_allowed && s.n_active_words == n_active
            && s.status == status && s.error_code == code,
        metrics_of(s, alpha_len as int, pairs@, n_active as int),
{
    proof {
        lemma_pair_keys_distinct(pairs@);
        lemma_triplet_total_sum(triplets@, triplets@.len() as int);
        assert(triplets@.subrange(0, triplets@.len() as int) =~= triplets@);
        assert(alpha_len * alpha_len <= u64::MAX) by (nonlinear_arith)
            requires
                alpha_len <= 1048576,
        ;
    }
    let topology = compute_topology_metrics(alpha_len, pairs.as_slice(), n_active);
    let skeleton2 = compute_skeleton2_metrics(alpha_len, pairs.as_slice(), triplets.as_slice());
    WeightSummary { weight, stats, n_words_allowed, n_active_words: n_active, topology, skeleton2, status, error_code: code }
}

/// The summaries of an experiment's weights, in the order of the runs, with
/// the pair and triplet counts of each computed weight (in the order of the
/// runs) and over all of them. Counts are tables sorted by key.
pub fn summarize_weights(alpha_len: usize, runs: &Vec<WeightRun>) -> (r: ExperimentTables)
    requires
        alpha_len <= SKELETON_MAX_VERTICES,
        run_pair_slots(runs@, runs@.len() as int) <= u64::MAX,
        run_triplet_slots(runs@, runs@.len() as int) <= u64::MAX,
    ensures
        r.summaries@.len() == runs@.len(),
        forall|i: int| 0 <= i < runs@.len() ==> summary_of(#[trigger] runs@[i], r.summaries@[i], alpha_len as int),
        pair_table_ok(r.pairs_total@),
        forall|k: (usize, usize)| #[trigger] pair_entry(r.pairs_total@, k) == run_pairs(runs@, k, runs@.len() as int),
        triplet_table_ok(r.triplets_total@),
        forall|k: (usize, usize, usize)| #[trigger] triplet_entry(r.triplets_total@, k) == run_triplets(
            runs@,
            k,
            runs@.len() as int,
        ),
        r.pairs_by_weight@.len() == computed_count(runs@, runs@.len() as int),
        r.triplets_by_weight@.len() == computed_count(runs@, runs@.len() as int),
        forall|t: int|
            0 <= t < runs@.len() && (#[trigger] runs@[t]) is Computed ==> computed_count(runs@, t) < r.pairs_by_weight@.len()
                && weight_tables_of(
                runs@[t],
                r.pairs_by_weight@[computed_count(runs@, t) as int],
                r.triplets_by_weight@[computed_count(runs@, t) as int],
            ),
{
    let empty_pairs: Vec<((usize, usize), u64)> = Vec::new();
    let empty_triplets: Vec<((usize, usize, usize), u64)> = Vec::new();
    let zero = BasisStats {
        dim: 0,
        rank: 0,
        ncols: 0,
        rows_attempted: 0,
        rows_inserted: 0,
        samples_used: 0,
        envs_total: 0,
        constraints_insufficient_samples: 0,
    };
    let mut summaries: Vec<WeightSummary> = Vec::new();
    let mut pairs_total: Vec<((usize, usize), u64)> = Vec::new();
    let mut triplets_total: Vec<((usize, usize, usize), u64)> = Vec::new();
    let mut pairs_by_weight: Vec<(usize, Vec<((usize, usize), u64)>)> = Vec::new();
    let mut triplets_by_weight: Vec<(usize, Vec<((usize, usize, usize), u64)>)> = Vec::new();
    let mut i: usize = 0;
    while i < runs.len()
        invariant
            alpha_len <= SKELETON_MAX_VERTICES,
            run_pair_slots(runs@, runs@.len() as int) <= u64::MAX,
            run_triplet_slots(runs@, runs@.len() as int) <= u64::MAX,
            empty_pairs@.len() == 0,
            empty_triplets@.len() == 0,
            zero == no_stats(),
            i <= runs@.len(),
            summaries@.len() == i,
            forall|t: int| 0 <= t < i ==> summary_of(#[trigger] runs@[t], summaries@[t], alpha_len as int),
            pair_table_ok(pairs_total@),
            pair_sum(pairs_total@) == run_pair_slots(runs@, i as int),
            forall|k: (usize, usize)| #[trigger] pair_entry(pairs_total@, k) == run_pairs(runs@, k, i as int),
            triplet_table_ok(triplets_total@),
            triplet_sum(triplets_total@) == run_triplet_slots(runs@, i as int),
            forall|k: (usize, usize, usize)| #[trigger] triplet_entry(triplets_total@, k) == run_triplets(runs@, k, i as int),
            pairs_by_weight@.len() == computed_count(runs@, i as int),
            triplets_by_weight@.len() == computed_count(runs@, i as int),
            forall|t: int|
                0 <= t < i && (#[trigger] runs@[t]) is Computed ==> computed_count(runs@, t) < pairs_by_weight@.len()
                    && weight_tables_of(
                    runs@[t],
                    pairs_by_weight@[computed_count(runs@, t) as int],
                    triplets_by_weight@[computed_count(runs@, t) as int],
                ),
        decreases runs@.len() - i,
    {
        proof {
            lemma_run_slots_mono(runs@, i as int + 1, runs@.len() as int);
            assert(empty_pairs@ =~= Seq::<((usize, usize), u64)>::empty());
            assert(triplet_sum(empty_triplets@) == 0);
        }
        let ghost s0 = summaries@;
        let ghost pw0 = pairs_by_weight@;
        let ghost tw0 = triplets_by_weight@;
        match &runs[i] {
            WeightRun::CountFailed { weight, code } => {
                let s = weight_metrics(*weight, zero, 0, 0, Status::Failed, Some(*code), alpha_len, &empty_pairs, &empty_triplets);
                summaries.push(s);
            },
            WeightRun::BasisFailed { weight, n_words_allowed, stats, code } => {
                let s = weight_metrics(
                    *weight,
                    *stats,
                    *n_words_allowed,
                    0,
                    Status::Failed,
                    Some(*code),
                    alpha_len,
                    &empty_pairs,
                    &empty_triplets,
                );
                summaries.push(s);
            },
            WeightRun::Computed { weight, n_words_allowed, words, active_cols, stats } => {
                let pairs = pair_counts_from_words(words.as_slice(), active_cols.as_slice());
                let triplets = triplet_counts_from_words(words.as_slice(), active_cols.as_slice());
                let s = weight_metrics(
                    *weight,
                    *stats,
                    *n_words_allowed,
                    active_cols.len(),
                    Status::Done,
                    None,
                    alpha_len,
                    &pairs,
                    &triplets,
                );
                proof {
                    assert(pair_table_ok(pairs@) && (forall|k: (usize, usize)| #[trigger] pair_entry(pairs@, k) == active_pairs(
                        words@,
                        active_cols@,
                        k,
                        active_cols@.len() as int,
                    )) && metrics_of(s, alpha_len as int, pairs@, active_cols@.len() as int));
                }
                summaries.push(s);
                add_pair_table(&mut pairs_total, &pairs);
                add_triplet_table(&mut triplets_total, &triplets);
                pairs_by_weight.push((*weight, pairs));
                triplets_by_weight.push((*weight, triplets));
            },
        }
        proof {
            assert forall|t: int| 0 <= t < i + 1 implies summary_of(#[trigger] runs@[t], summaries@[t], alpha_len as int) by {
                if t < i {
                    assert(summaries@[t] == s0[t]);
                }
            }
            assert forall|t: int|
                0 <= t < i + 1 && (#[trigger] runs@[t]) is Computed implies computed_count(runs@, t) < pairs_by_weight@.len()
                    && weight_tables_of(
                    runs@[t],
                    pairs_by_weight@[computed_count(runs@, t) as int],
                    triplets_by_weight@[computed_count(runs@, t) as int],
                ) by {
                if t < i {
                    lemma_computed_count_mono(runs@, t + 1, i as int);
                    assert(pairs_by_weight@[computed_count(runs@, t) as int] == pw0[computed_count(runs@, t) as int]);
                    assert(triplets_by_weight@[computed_count(runs@, t) as int] == tw0[computed_count(runs@, t) as int]);
                }
            }
        }
        i += 1;
    }
    ExperimentTables { summaries, pairs_total, pairs_by_weight, triplets_total, triplets_by_weight }
}

} // verus!
