//! The ordered frame list of one thread.

use vstd::prelude::*;

use crate::stack_frame::{FrameTrust, StackFrame};

verus! {

/// One thread of the crashed process: its identifier and its frames,
/// innermost (crashing) frame first. The order is significant and is never
/// reordered or deduplicated.
#[derive(Debug)]
pub struct CallStack {
    pub thread_id: u32,
    pub frames: Vec<StackFrame>,
}

impl CallStack {
    /// Every frame is well formed, the first frame (when any) carries
    /// context trust, and later frames never do.
    pub open spec fn wf(&self) -> bool {
        &&& forall|i: int| 0 <= i < self.frames.len() ==> (#[trigger] self.frames[i]).wf()
        &&& self.frames.len() >= 1 ==> self.frames[0].trust == FrameTrust::Context
        &&& forall|i: int|
            1 <= i < self.frames.len() ==> (#[trigger] self.frames[i]).trust
                != FrameTrust::Context
    }

    /// Builds a call stack from a walked frame list.
    pub fn new(thread_id: u32, frames: Vec<StackFrame>) -> (r: CallStack)
        ensures
            r.thread_id == thread_id,
            r.frames == frames,
    {
        CallStack { thread_id, frames }
    }

    /// The thread identifier of this call stack.
    pub fn thread_id(&self) -> (r: u32)
        ensures
            r == self.thread_id,
    {
        self.thread_id
    }

    /// The frames of the call stack, innermost first.
    pub fn frames(&self) -> (r: &Vec<StackFrame>)
        ensures
            r == &self.frames,
    {
        &self.frames
    }
}

} // verus!
