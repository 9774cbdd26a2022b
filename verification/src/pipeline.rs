//! The options of the expression simplifier.
use vstd::prelude::*;

verus! {

/// How the simplifier runs: the rewrite budget (iterations, e-graph nodes,
/// time), the rewrite mode, whether rewriting and the symbol guard are on,
/// and the symbol-aware search's fuel, weight limit and penalties (each
/// falling back to its default when absent).
#[derive(Clone, Debug)]
pub struct SimplifyOptions {
    pub iters: usize,
    pub node_limit: usize,
    pub time_limit_ms: u64,
    pub aggressive: bool,
    pub no_rewrite: bool,
    pub no_symbol_guard: bool,
    pub symbol_aware: bool,
    pub symbol_fuel: Option<u64>,
    pub symbol_weight_limit: Option<usize>,
    pub unknown_penalty: Option<u64>,
    pub non_integrable_penalty: Option<u64>,
    pub conflict_penalty: Option<u64>,
}

} // verus!
