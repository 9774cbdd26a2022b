//! Verified computations behind the multiple-polylog experiments: finite-field
//! linear algebra, Hankel-matrix rank scans, spectral learning of weighted
//! automata, and the combinatorics of ladder symbols.
pub mod acceptors;
pub mod args;
pub mod cross_loop;
pub mod error;
pub mod experiment;
pub mod filtration;
pub mod hankel_subblock;
pub mod kze2;
pub mod ladder;
pub mod ladder_symbol;
pub mod laws;
pub mod linear_mod;
pub mod m3_random;
pub mod modular;
pub mod output;
pub mod path1_toy;
pub mod pentaladder;
pub mod pipeline;
pub mod text;
pub mod topology;
pub mod word_stats;
pub mod rank_scan;
pub mod rational;
pub mod span_deps;
pub mod span_summary;
