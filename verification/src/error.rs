//! The error type shared by the experiments.
use vstd::prelude::*;

verus! {

/// Why an experiment refused its input.
#[derive(Debug)]
pub enum ExperimentError {
    /// The configuration or the data does not allow the computation.
    InvalidConfig(String),
}

/// The text with which an error is reported.
pub open spec fn error_text(e: ExperimentError) -> Seq<char> {
    match e {
        ExperimentError::InvalidConfig(msg) => "invalid config: "@ + msg@,
    }
}

impl ExperimentError {
    /// The text with which the error is reported.
    pub fn message(&self) -> (r: String)
        ensures
            r@ == error_text(*self),
    {
        match self {
            ExperimentError::InvalidConfig(msg) => {
                let mut out = String::from_str("invalid config: ");
                out.append(msg.as_str());
                out
            },
        }
    }
}

} // verus!
