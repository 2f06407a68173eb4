//! The ways a run can fail.
use vstd::prelude::*;

use crate::blocks::CodeBlockParseError;

verus! {

/// Why a run produced no document. Every failure ends the run.
#[derive(Debug, Clone, Copy, PartialEq, Eq, Structural)]
pub enum RunError {
    /// An end marker without a start marker before it.
    MissingBlockStart,
    /// A start marker without an end marker after it.
    MissingBlockEnd,
    /// The request bytes are malformed or incomplete.
    RequestParseFailure,
    /// The interpreter could not be set up, or a block failed to load, to
    /// run, or to give a text value.
    EvaluationFailure,
}

impl RunError {
    /// The run error that a pairing error becomes.
    pub fn from_pairing(e: CodeBlockParseError) -> (r: RunError)
        ensures
            r == pairing_run_error(e),
    {
        match e {
            CodeBlockParseError::MissingBlockStart => RunError::MissingBlockStart,
            CodeBlockParseError::MissingBlockEnd => RunError::MissingBlockEnd,
        }
    }

    /// A human-readable rendering of the error.
    pub fn message(&self) -> (r: String)
        ensures
            r@ == (match self {
                RunError::MissingBlockStart => "Missing code block start"@,
                RunError::MissingBlockEnd => "Missing code block end"@,
                RunError::RequestParseFailure => "Malformed or incomplete request"@,
                RunError::EvaluationFailure => "Script evaluation failed"@,
            }),
    {
        match self {
            RunError::MissingBlockStart => "Missing code block start".to_owned(),
            RunError::MissingBlockEnd => "Missing code block end".to_owned(),
            RunError::RequestParseFailure => "Malformed or incomplete request".to_owned(),
            RunError::EvaluationFailure => "Script evaluation failed".to_owned(),
        }
    }
}

/// The run error of each pairing error.
pub open spec fn pairing_run_error(e: CodeBlockParseError) -> RunError {
    match e {
        CodeBlockParseError::MissingBlockStart => RunError::MissingBlockStart,
        CodeBlockParseError::MissingBlockEnd => RunError::MissingBlockEnd,
    }
}

} // verus!
