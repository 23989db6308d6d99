//! A stack frame augmented with source information.

use vstd::prelude::*;

use crate::code_module::CodeModule;
use crate::stack_frame::{FrameTrust, StackFrame};

verus! {

/// A resolved stack frame: everything a [`StackFrame`] carries, plus the
/// function name, source file and source line found for its instruction.
/// The extra fields are empty (and the line zero) when resolution found no
/// match.
#[derive(Debug)]
pub struct ResolvedStackFrame {
    pub instruction: u64,
    pub trust: FrameTrust,
    pub module: Option<CodeModule>,
    pub function_name: String,
    pub source_file_name: String,
    pub source_line: i64,
}

impl ResolvedStackFrame {
    /// The program counter location of the underlying frame.
    pub fn instruction(&self) -> (r: u64)
        ensures
            r == self.instruction,
    {
        self.instruction
    }

    /// How the underlying frame's instruction address was recovered.
    pub fn trust(&self) -> (r: FrameTrust)
        ensures
            r == self.trust,
    {
        self.trust
    }

    /// The module of the underlying frame, when known.
    pub fn module(&self) -> (r: Option<&CodeModule>)
        ensures
            match r {
                Some(m) => self.module == Some(*m),
                None => self.module is None,
            },
    {
        self.module.as_ref()
    }

    /// The name of the function containing the instruction; empty when
    /// symbols were missing.
    pub fn function_name(&self) -> (r: String)
        ensures
            r@ == self.function_name@,
    {
        self.function_name.clone()
    }

    /// The source file declaring the instruction; empty when unknown.
    pub fn source_file_name(&self) -> (r: String)
        ensures
            r@ == self.source_file_name@,
    {
        self.source_file_name.clone()
    }

    /// The source line declaring the instruction; zero when unknown.
    pub fn source_line(&self) -> (r: i64)
        ensures
            r == self.source_line,
    {
        self.source_line
    }
}

} // verus!
