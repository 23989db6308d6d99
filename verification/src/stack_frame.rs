//! Stack frames and the trust ranking of how each frame was recovered.

use vstd::prelude::*;

use crate::code_module::{module_contains, CodeModule};

verus! {

/// How well the instruction pointer of a walked frame is trusted, least
/// reliable first. The order is a confidence signal for consumers; it is
/// never combined arithmetically.
#[derive(Debug, PartialEq, Eq, Structural, Clone, Copy)]
pub enum FrameTrust {
    /// Unknown trust.
    Unknown,
    /// Scanned the stack, found this (lowest precision).
    Scan,
    /// Found while scanning the stack, bounded by call frame info.
    CFIScan,
    /// Derived from the frame pointer.
    FramePointer,
    /// Derived from call frame info.
    CFI,
    /// Explicitly provided by some external stack walker.
    Prewalked,
    /// Given as the instruction pointer in a thread context (highest).
    Context,
}

/// Position of a trust level in the reliability order, least first.
pub open spec fn trust_rank(t: FrameTrust) -> int {
    match t {
        FrameTrust::Unknown => 0,
        FrameTrust::Scan => 1,
        FrameTrust::CFIScan => 2,
        FrameTrust::FramePointer => 3,
        FrameTrust::CFI => 4,
        FrameTrust::Prewalked => 5,
        FrameTrust::Context => 6,
    }
}

/// One reconstructed stack frame: an absolute instruction address, the
/// trust of its recovery, and the module owning the address when one is
/// known. The module is a copied descriptor; absence means the address
/// fell outside every known module range.
#[derive(Debug, Clone)]
pub struct StackFrame {
    pub instruction: u64,
    pub trust: FrameTrust,
    pub module: Option<CodeModule>,
}

impl StackFrame {
    /// A present module really owns the frame's instruction address and is
    /// well formed.
    pub open spec fn wf(&self) -> bool {
        match self.module {
            Some(m) => m.wf() && module_contains(&m, self.instruction),
            None => true,
        }
    }

    /// Builds a frame with no module attribution.
    pub fn new(instruction: u64, trust: FrameTrust) -> (r: StackFrame)
        ensures
            r.instruction == instruction,
            r.trust == trust,
            r.module is None,
            r.wf(),
    {
        StackFrame { instruction, trust, module: None }
    }

    /// Builds a frame attributed to `module`.
    pub fn with_module(instruction: u64, trust: FrameTrust, module: CodeModule) -> (r: StackFrame)
        requires
            module.wf(),
            module_contains(&module, instruction),
        ensures
            r.instruction == instruction,
            r.trust == trust,
            r.module == Some(module),
            r.wf(),
    {
        StackFrame { instruction, trust, module: Some(module) }
    }

    /// The program counter location as an absolute virtual address.
    pub fn instruction(&self) -> (r: u64)
        ensures
            r == self.instruction,
    {
        self.instruction
    }

    /// The module containing this frame's instruction, when known.
    pub fn module(&self) -> (r: Option<&CodeModule>)
        ensures
            match r {
                Some(m) => self.module == Some(*m),
                None => self.module is None,
            },
    {
        self.module.as_ref()
    }

    /// How the instruction address was recovered.
    pub fn trust(&self) -> (r: FrameTrust)
        ensures
            r == self.trust,
    {
        self.trust
    }
}

} // verus!
