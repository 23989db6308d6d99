//! Error taxonomy of the crate.
//!
//! Structural processing failures carry a [`ProcessResult`]; resolver
//! construction and identifier parsing failures carry a description.

use vstd::prelude::*;
use vstd::string::StringExecFns;

use crate::process_state::{describe_text, ProcessResult};

verus! {

/// A typed failure surfaced to the immediate caller.
#[derive(Debug, Clone)]
pub enum Error {
    /// Processing a dump failed; the payload says why.
    ProcessError(ProcessResult),
    /// A resolver could not be constructed from its symbol source.
    ResolverError(String),
    /// A debug identifier string could not be parsed.
    ParseIdError(String),
}

impl Error {
    /// A human-readable description of this error: the fixed text of a
    /// processing outcome, or the fixed prefix of the error kind followed
    /// by its description.
    pub fn message(&self) -> (r: String)
        ensures
            match self {
                Error::ProcessError(pr) => r@ == describe_text(*pr),
                Error::ResolverError(desc) => r@ == "Resolver Error: "@ + desc@,
                Error::ParseIdError(desc) => r@ == "CodeModule ID Parse Error: "@ + desc@,
            },
    {
        match self {
            Error::ProcessError(result) => String::from_str(result.describe()),
            Error::ResolverError(desc) => String::from_str("Resolver Error: ").concat(
                desc.as_str(),
            ),
            Error::ParseIdError(desc) => String::from_str("CodeModule ID Parse Error: ").concat(
                desc.as_str(),
            ),
        }
    }
}

} // verus!
