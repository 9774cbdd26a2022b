//! Settings and checks of the penta-ladder symbol generator.
use crate::error::ExperimentError;
use crate::ladder::sorted_distinct;
use crate::text::str_eq;
use vstd::prelude::*;
use vstd::string::StrSliceExecFns;

verus! {

/// The family of marginals a penta-ladder run computes.
#[derive(Clone, Copy, Debug, PartialEq, Eq, Structural)]
pub enum PentaladderFamily {
    Prefix,
    Suffix,
    PrefixSuffix,
}

/// The name of a penta-ladder family.
pub open spec fn penta_family_name(f: PentaladderFamily) -> Seq<char> {
    match f {
        PentaladderFamily::Prefix => "prefix"@,
        PentaladderFamily::Suffix => "suffix"@,
        PentaladderFamily::PrefixSuffix => "prefix-suffix"@,
    }
}

impl PentaladderFamily {
    pub fn as_str(self) -> (r: &'static str)
        ensures
            r@ == penta_family_name(self),
    {
        match self {
            Self::Prefix => "prefix",
            Self::Suffix => "suffix",
            Self::PrefixSuffix => "prefix-suffix",
        }
    }

    /// The family with the given name.
    pub fn parse(value: &str) -> (r: Option<PentaladderFamily>)
        ensures
            r matches Some(f) ==> penta_family_name(f) == value@,
            r is None ==> forall|f: PentaladderFamily| penta_family_name(f) != value@,
    {
        if str_eq(value, "prefix") {
            Some(Self::Prefix)
        } else if str_eq(value, "suffix") {
            Some(Self::Suffix)
        } else if str_eq(value, "prefix-suffix") {
            Some(Self::PrefixSuffix)
        } else {
            proof {
                assert forall|f: PentaladderFamily| penta_family_name(f) != value@ by {
                    match f {
                        PentaladderFamily::Prefix => {},
                        PentaladderFamily::Suffix => {},
                        PentaladderFamily::PrefixSuffix => {},
                    }
                }
            }
            None
        }
    }
}

/// The largest number of terms a generated symbol file may hold by default.
pub const PENTA_DEFAULT_MAX_TERMS: u64 = 5000000;

/// The largest loop order whose integrability is checked by default.
pub const DEFAULT_VALIDATE_INTEGRABILITY_MAX_LOOP: usize = 4;

/// What a penta-ladder run generates.
#[derive(Clone, Debug)]
pub struct PentaladderGenConfig {
    pub out_dir: String,
    pub loops: Vec<usize>,
    pub prefix_len: usize,
    pub suffix_len: usize,
    pub family: PentaladderFamily,
    pub stats_only: bool,
    pub emit_jsonl: bool,
    pub max_terms: u64,
    pub data_dir: Option<String>,
    pub validate: bool,
    pub validate_integrability_max_loop: usize,
    pub matrix_rank: bool,
}

impl Default for PentaladderGenConfig {
    fn default() -> (r: Self)
        ensures
            r.out_dir@.len() == 0,
            r.loops@.len() == 0,
            r.prefix_len == 2,
            r.suffix_len == 2,
            r.family == PentaladderFamily::PrefixSuffix,
            !r.stats_only,
            !r.emit_jsonl,
            r.max_terms == PENTA_DEFAULT_MAX_TERMS,
            r.data_dir is None,
            r.validate,
            r.validate_integrability_max_loop == DEFAULT_VALIDATE_INTEGRABILITY_MAX_LOOP,
            !r.matrix_rank,
    {
        PentaladderGenConfig {
            out_dir: String::new(),
            loops: Vec::new(),
            prefix_len: 2,
            suffix_len: 2,
            family: PentaladderFamily::PrefixSuffix,
            stats_only: false,
            emit_jsonl: false,
            max_terms: PENTA_DEFAULT_MAX_TERMS,
            data_dir: None,
            validate: true,
            validate_integrability_max_loop: DEFAULT_VALIDATE_INTEGRABILITY_MAX_LOOP,
            matrix_rank: false,
        }
    }
}

/// What a penta-ladder run wrote.
#[derive(Clone, Debug)]
pub struct PentaladderGenReport {
    pub out_dir: String,
    pub loops: Vec<usize>,
    pub data_dir: Option<String>,
    pub wrote_jsonl: bool,
}

/// Where the two-loop symbol comes from.
#[derive(Clone, Copy, Debug, PartialEq, Eq, Structural)]
pub enum Psi2Source {
    Golden,
    Recursive,
}

impl Default for Psi2Source {
    fn default() -> (r: Self)
        ensures
            r == Psi2Source::Golden,
    {
        Psi2Source::Golden
    }
}

/// Where a term of the two-loop symbol comes from in the integration.
#[derive(Clone, Copy, Debug, PartialEq, Eq, Structural)]
pub enum OriginKind {
    EndpointUpper,
    EndpointLower,
    LastEntryConst,
    LastEntryLinear,
}

/// The name of an origin.
pub open spec fn origin_name(o: OriginKind) -> Seq<char> {
    match o {
        OriginKind::EndpointUpper => "endpoint_upper"@,
        OriginKind::EndpointLower => "endpoint_lower"@,
        OriginKind::LastEntryConst => "last_entry_const"@,
        OriginKind::LastEntryLinear => "last_entry_linear"@,
    }
}

impl OriginKind {
    pub fn as_str(self) -> (r: &'static str)
        ensures
            r@ == origin_name(self),
    {
        match self {
            Self::EndpointUpper => "endpoint_upper",
            Self::EndpointLower => "endpoint_lower",
            Self::LastEntryConst => "last_entry_const",
            Self::LastEntryLinear => "last_entry_linear",
        }
    }
}

/// The prefix and suffix lengths fit a word of loop order `x`, and `2x`
/// fits in `usize`.
pub open spec fn lengths_fit_pentaladder(family: PentaladderFamily, prefix_len: usize, suffix_len: usize, x: usize) -> bool {
    2 * x <= usize::MAX && match family {
        PentaladderFamily::Prefix => prefix_len <= 2 * x,
        PentaladderFamily::Suffix => suffix_len <= 2 * x,
        PentaladderFamily::PrefixSuffix => prefix_len + suffix_len <= 2 * x,
    }
}

/// The settings a run accepts: an output directory, some loop orders none of
/// them 0, a term budget when terms are written, the matrix only for the
/// prefix-suffix family, and lengths that fit the least loop order.
pub open spec fn settings_ok_pentaladder(out_dir: Seq<char>, loops: Seq<usize>, emit_jsonl: bool, max_terms: u64, matrix_rank: bool, family: PentaladderFamily, prefix_len: usize, suffix_len: usize) -> bool {
    &&& out_dir.len() > 0
    &&& loops.len() > 0
    &&& !(emit_jsonl && max_terms == 0)
    &&& !(matrix_rank && family != PentaladderFamily::PrefixSuffix)
    &&& !loops.contains(0)
    &&& forall|x: usize| #[trigger] loops.contains(x) && (forall|y: usize| loops.contains(y) ==> x <= y) ==> lengths_fit_pentaladder(family, prefix_len, suffix_len, x)
}

/// The loop orders of a run, sorted without repeats, once its settings are
/// checked as for the ladders.
pub fn prepare_pentaladder_loops(cfg: &PentaladderGenConfig) -> (r: Result<Vec<usize>, ExperimentError>)
    ensures
        r is Ok <==> settings_ok_pentaladder(cfg.out_dir@, cfg.loops@, cfg.emit_jsonl, cfg.max_terms, cfg.matrix_rank, cfg.family, cfg.prefix_len, cfg.suffix_len),
        cfg.out_dir@.len() == 0 ==> r is Err,
        cfg.loops@.len() == 0 ==> r is Err,
        (cfg.emit_jsonl && cfg.max_terms == 0) ==> r is Err,
        (cfg.matrix_rank && cfg.family != PentaladderFamily::PrefixSuffix) ==> r is Err,
        cfg.loops@.contains(0) ==> r is Err,
        r matches Ok(loops) ==> loops@.len() > 0 && (forall|a: int, b: int| 0 <= a < b < loops@.len() ==> #[trigger] loops@[a] < #[trigger] loops@[b])
            && (forall|x: usize| loops@.contains(x) <==> cfg.loops@.contains(x)) && (match cfg.family {
            PentaladderFamily::Prefix => cfg.prefix_len <= 2 * loops@[0],
            PentaladderFamily::Suffix => cfg.suffix_len <= 2 * loops@[0],
            PentaladderFamily::PrefixSuffix => cfg.prefix_len + cfg.suffix_len <= 2 * loops@[0],
        }),
{
    if cfg.out_dir.unicode_len() == 0 {
        return Err(ExperimentError::InvalidConfig("missing out_dir".to_string()));
    }
    if cfg.loops.len() == 0 {
        return Err(ExperimentError::InvalidConfig("loops list is empty".to_string()));
    }
    if cfg.emit_jsonl && cfg.max_terms == 0 {
        return Err(ExperimentError::InvalidConfig("max_terms must be >= 1 when emitting jsonl".to_string()));
    }
    if cfg.matrix_rank && cfg.family != PentaladderFamily::PrefixSuffix {
        return Err(ExperimentError::InvalidConfig("matrix_rank requires prefix-suffix family".to_string()));
    }
    let loops = sorted_distinct(&cfg.loops);
    if loops[0] == 0 {
        return Err(ExperimentError::InvalidConfig("loops must be >= 1".to_string()));
    }
    proof {
        if cfg.loops@.contains(0) {
            assert(loops@.contains(0));
            let w = choose|w: int| 0 <= w < loops@.len() && loops@[w] == 0;
            if w > 0 {
                assert(loops@[0] < loops@[w]);
            }
        }
    }
    proof {
        assert forall|x: usize| #[trigger] cfg.loops@.contains(x) implies loops@[0] <= x by {
            assert(loops@.contains(x));
            let w = choose|w: int| 0 <= w < loops@.len() && loops@[w] == x;
            if w > 0 {
                assert(loops@[0] < loops@[w]);
            }
        }
        assert(cfg.loops@.contains(loops@[0])) by {
            assert(loops@.contains(loops@[0]));
        }
    }
    let min_len = match loops[0].checked_mul(2) {
        Some(v) => v,
        None => {
            return Err(ExperimentError::InvalidConfig("loop * 2 overflow".to_string()));
        },
    };
    match cfg.family {
        PentaladderFamily::Prefix => {
            if cfg.prefix_len > min_len {
                return Err(ExperimentError::InvalidConfig("prefix length exceeds min word length".to_string()));
            }
        },
        PentaladderFamily::Suffix => {
            if cfg.suffix_len > min_len {
                return Err(ExperimentError::InvalidConfig("suffix length exceeds min word length".to_string()));
            }
        },
        PentaladderFamily::PrefixSuffix => {
            let sum = if cfg.prefix_len > usize::MAX - cfg.suffix_len {
                usize::MAX
            } else {
                cfg.prefix_len + cfg.suffix_len
            };
            if sum > min_len {
                return Err(ExperimentError::InvalidConfig("prefix-suffix lengths exceed min word length".to_string()));
            }
        },
    }
    Ok(loops)
}

/// A word of a symbol of loop order at least two must end in an allowed letter.
pub fn validate_last_entry_names(word: &[String], allowed: &[String], loop_value: usize) -> (r: Result<(), ExperimentError>)
    ensures
        loop_value < 2 ==> r is Ok,
        loop_value >= 2 ==> (r is Ok <==> (word@.len() > 0 && exists|a: int|
            0 <= a < allowed@.len() && (#[trigger] allowed@[a])@ == word@[word@.len() - 1]@)),
{
    if loop_value < 2 {
        return Ok(());
    }
    if word.len() == 0 {
        return Err(ExperimentError::InvalidConfig("empty word in last-entry check".to_string()));
    }
    let last = word[word.len() - 1].as_str();
    let mut a: usize = 0;
    while a < allowed.len()
        invariant
            a <= allowed@.len(),
            word@.len() > 0,
            last@ == word@[word@.len() - 1]@,
            forall|t: int| 0 <= t < a ==> (#[trigger] allowed@[t])@ != last@,
        decreases allowed@.len() - a,
    {
        if str_eq(allowed[a].as_str(), last) {
            proof {
                assert(allowed@[a as int]@ == word@[word@.len() - 1]@);
            }
            return Ok(());
        }
        a += 1;
    }
    Err(ExperimentError::InvalidConfig("last-entry violation".to_string()))
}

} // verus!
