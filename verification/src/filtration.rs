//! The decisions of a filtration run for one layer and weight: whether the
//! full basis computation runs or only the word count, whether repeated runs
//! are compared, and the summary row that comes out.
use crate::output::{BasisStats, ErrorCode, Status};
use vstd::prelude::*;

verus! {

/// How a layer of a filtration is run.
#[derive(Clone, Copy, Debug, PartialEq, Eq, Structural)]
pub enum FiltrationMode {
    Full,
    CountOnly,
    Auto,
}

/// The name of a mode.
pub open spec fn mode_name(m: FiltrationMode) -> Seq<char> {
    match m {
        FiltrationMode::Full => "full"@,
        FiltrationMode::CountOnly => "count_only"@,
        FiltrationMode::Auto => "auto"@,
    }
}

impl FiltrationMode {
    pub fn as_str(self) -> (r: &'static str)
        ensures
            r@ == mode_name(self),
    {
        match self {
            Self::Full => "full",
            Self::CountOnly => "count_only",
            Self::Auto => "auto",
        }
    }
}

/// What the full run reported for the weight.
#[derive(Clone, Copy, Debug)]
pub struct FullRunOutcome {
    pub status: Status,
    pub error_code: Option<ErrorCode>,
    pub stats: BasisStats,
}

/// The summary row of one layer and weight.
#[derive(Clone, Debug)]
pub struct FiltrationSummaryRow {
    pub layer_index: usize,
    pub layer_name: String,
    pub weight: usize,
    pub mode: FiltrationMode,
    pub status: Status,
    pub error_code: Option<ErrorCode>,
    pub n_words_allowed: usize,
    pub dim: Option<usize>,
    pub rank: Option<usize>,
    pub basis_ncols: Option<usize>,
    pub rows_attempted: Option<u64>,
    pub rows_inserted: Option<u64>,
    pub samples_used: Option<u64>,
    pub envs_total: Option<u64>,
    pub constraints_insufficient_samples: Option<u64>,
    /// The name of the sample table the layer's spec chose.
    pub sample_table: String,
}

/// The full computation runs: always for a `Full` layer whose count
/// succeeded, never for a `CountOnly` one, and for an `Auto` one when the
/// count succeeded and does not exceed the limit (if there is one).
pub open spec fn full_run_spec(mode: FiltrationMode, count_status: Status, n_words: usize, limit: Option<u64>) -> bool {
    match mode {
        FiltrationMode::Full => count_status == Status::Done,
        FiltrationMode::CountOnly => false,
        FiltrationMode::Auto => count_status == Status::Done && match limit {
            Some(l) => n_words <= l,
            None => true,
        },
    }
}

/// Whether the full computation runs for a layer whose count came out with
/// `count_status` and `n_words` allowed words.
pub fn full_run_allowed(mode: FiltrationMode, count_status: Status, n_words: usize, limit: Option<u64>) -> (r: bool)
    ensures
        r == full_run_spec(mode, count_status, n_words, limit),
{
    let count_ok = match count_status {
        Status::Done => true,
        Status::Failed => false,
    };
    let within = match limit {
        Some(l) => (n_words as u64) <= l,
        None => true,
    };
    match mode {
        FiltrationMode::Full => count_ok,
        FiltrationMode::CountOnly => false,
        FiltrationMode::Auto => count_ok && within,
    }
}

/// Repeated runs are compared when more than one run is asked for, the count
/// succeeded, and the full run (when there is one) succeeded too.
pub open spec fn repeat_check_spec(repeats: usize, count_status: Status, full: Option<FullRunOutcome>) -> bool {
    repeats > 1 && count_status == Status::Done && match full {
        Some(f) => f.status == Status::Done,
        None => true,
    }
}

/// Whether the runs after the first are compared with it.
pub fn repeat_check(repeats: usize, count_status: Status, full: Option<FullRunOutcome>) -> (r: bool)
    ensures
        r == repeat_check_spec(repeats, count_status, full),
{
    let count_ok = match count_status {
        Status::Done => true,
        Status::Failed => false,
    };
    let full_ok = match full {
        Some(f) => match f.status {
            Status::Done => true,
            Status::Failed => false,
        },
        None => true,
    };
    repeats > 1 && count_ok && full_ok
}

/// Some repeated run's signature differs from the first run's.
pub open spec fn any_mismatch(baseline: Seq<char>, repeated: Seq<String>) -> bool {
    exists|i: int| 0 <= i < repeated.len() && (#[trigger] repeated[i])@ != baseline
}

/// The row of a layer and weight. `full` is the full run's outcome when one
/// was made; `baseline` is the first run's signature and `repeated` those of
/// the runs after it, both read only when the runs are compared. Status and
/// error code come from the full run when there is one, else from the count;
/// the basis figures appear only for a successful full run; a differing
/// repeated run turns the row into a `NonDeterministicOutput` failure.
pub fn filtration_row(
    layer_index: usize,
    layer_name: &str,
    weight: usize,
    mode: FiltrationMode,
    count_status: Status,
    count_error: Option<ErrorCode>,
    n_words_allowed: usize,
    full: Option<FullRunOutcome>,
    repeats: usize,
    baseline: &str,
    repeated: &[String],
    sample_table: &str,
) -> (r: FiltrationSummaryRow)
    ensures
        r.layer_index == layer_index && r.layer_name@ == layer_name@ && r.weight == weight && r.mode == mode,
        r.sample_table@ == sample_table@,
        r.n_words_allowed == n_words_allowed,
        repeat_check_spec(repeats, count_status, full) && any_mismatch(baseline@, repeated@) ==> r.status
            == Status::Failed && r.error_code == Some(ErrorCode::NonDeterministicOutput),
        !(repeat_check_spec(repeats, count_status, full) && any_mismatch(baseline@, repeated@)) ==> match full {
            Some(f) => r.status == f.status && r.error_code == f.error_code,
            None => r.status == count_status && r.error_code == count_error,
        },
        match full {
            Some(f) => if f.status == Status::Done {
                &&& r.dim == Some(f.stats.dim)
                &&& r.rank == Some(f.stats.rank)
                &&& r.basis_ncols == Some(f.stats.ncols)
                &&& r.rows_attempted == Some(f.stats.rows_attempted as u64)
                &&& r.rows_inserted == Some(f.stats.rows_inserted as u64)
                &&& r.samples_used == Some(f.stats.samples_used as u64)
                &&& r.envs_total == Some(f.stats.envs_total as u64)
                &&& r.constraints_insufficient_samples == Some(f.stats.constraints_insufficient_samples as u64)
            } else {
                r.dim is None && r.rank is None && r.basis_ncols is None && r.rows_attempted is None
                    && r.rows_inserted is None && r.samples_used is None && r.envs_total is None
                    && r.constraints_insufficient_samples is None
            },
            None => r.dim is None && r.rank is None && r.basis_ncols is None && r.rows_attempted is None
                && r.rows_inserted is None && r.samples_used is None && r.envs_total is None
                && r.constraints_insufficient_samples is None,
        },
{
    let mut row = FiltrationSummaryRow {
        layer_index,
        layer_name: layer_name.to_string(),
        weight,
        mode,
        status: count_status,
        error_code: count_error,
        n_words_allowed,
        dim: None,
        rank: None,
        basis_ncols: None,
        rows_attempted: None,
        rows_inserted: None,
        samples_used: None,
        envs_total: None,
        constraints_insufficient_samples: None,
        sample_table: sample_table.to_string(),
    };
    match full {
        Some(f) => {
            row.status = f.status;
            row.error_code = f.error_code;
            match f.status {
                Status::Done => {
                    row.dim = Some(f.stats.dim);
                    row.rank = Some(f.stats.rank);
                    row.basis_ncols = Some(f.stats.ncols);
                    row.rows_attempted = Some(f.stats.rows_attempted as u64);
                    row.rows_inserted = Some(f.stats.rows_inserted as u64);
                    row.samples_used = Some(f.stats.samples_used as u64);
                    row.envs_total = Some(f.stats.envs_total as u64);
                    row.constraints_insufficient_samples = Some(f.stats.constraints_insufficient_samples as u64);
                },
                Status::Failed => {},
            }
        },
        None => {},
    }
    if repeat_check(repeats, count_status, full) {
        let mut mismatch = false;
        let mut i: usize = 0;
        while i < repeated.len()
            invariant
                i <= repeated@.len(),
                mismatch == exists|t: int| 0 <= t < i && (#[trigger] repeated@[t])@ != baseline@,
            decreases repeated@.len() - i,
        {
            if !crate::text::str_eq(repeated[i].as_str(), baseline) {
                mismatch = true;
            }
            i += 1;
        }
        if mismatch {
            row.status = Status::Failed;
            row.error_code = Some(ErrorCode::NonDeterministicOutput);
        }
    }
    row
}

} // verus!
