//! The rank scan over loop orders: sequences of symbol coefficients are
//! screened for low-rank Hankel matrices modulo primes.
pub mod analysis;
pub mod discover;
pub mod family;
pub mod normalize;
pub mod observables;
pub mod rank;
pub mod report;
pub mod screen;
pub mod solve;
pub mod span;

use vstd::prelude::*;

verus! {

/// A rational coefficient `numer / denom`, by its numerator and denominator.
#[derive(Clone, Copy, Debug, PartialEq, Eq, Structural)]
pub struct Rational {
    pub numer: i64,
    pub denom: i64,
}

/// Whether the alphabet was given or read off the data.
#[derive(Clone, Copy, Debug, PartialEq, Eq, Structural)]
pub enum AlphabetMode {
    Manual,
    Auto,
}

/// The name of an alphabet mode.
pub open spec fn alphabet_mode_name(m: AlphabetMode) -> Seq<char> {
    match m {
        AlphabetMode::Manual => "manual"@,
        AlphabetMode::Auto => "auto"@,
    }
}

impl AlphabetMode {
    pub fn as_str(self) -> (r: &'static str)
        ensures
            r@ == alphabet_mode_name(self),
    {
        match self {
            Self::Manual => "manual",
            Self::Auto => "auto",
        }
    }
}

/// Whether the letter pairs were given or read off the data.
#[derive(Clone, Copy, Debug, PartialEq, Eq, Structural)]
pub enum PairsMode {
    Manual,
    Auto,
}

/// The name of a pairs mode.
pub open spec fn pairs_mode_name(m: PairsMode) -> Seq<char> {
    match m {
        PairsMode::Manual => "manual"@,
        PairsMode::Auto => "auto"@,
    }
}

impl PairsMode {
    pub fn as_str(self) -> (r: &'static str)
        ensures
            r@ == pairs_mode_name(self),
    {
        match self {
            Self::Manual => "manual",
            Self::Auto => "auto",
        }
    }
}

/// What is known of one loop order's data file.
#[derive(Clone, Debug)]
pub struct LoopMeta {
    pub loop_index: usize,
    pub merged_terms: usize,
    pub source: String,
    pub name: String,
}

/// The header line of a symbol file.
#[derive(Clone, Debug)]
pub struct EsymbMeta {
    pub name: String,
    pub loop_index: usize,
    pub merged_terms: usize,
}

/// The verdict of the rank screen on one sequence.
#[derive(Clone, Copy, Debug, PartialEq, Eq, Structural)]
pub enum ScreenStatus {
    Pass,
    Fail,
    Inconclusive,
    Trivial,
}

/// The name of a verdict.
pub open spec fn screen_status_name(s: ScreenStatus) -> Seq<char> {
    match s {
        ScreenStatus::Pass => "pass"@,
        ScreenStatus::Fail => "fail"@,
        ScreenStatus::Inconclusive => "inconclusive"@,
        ScreenStatus::Trivial => "trivial"@,
    }
}

impl ScreenStatus {
    pub fn as_str(self) -> (r: &'static str)
        ensures
            r@ == screen_status_name(self),
    {
        match self {
            Self::Pass => "pass",
            Self::Fail => "fail",
            Self::Inconclusive => "inconclusive",
            Self::Trivial => "trivial",
        }
    }
}

} // verus!
