//! The aggregate result of processing one crash snapshot.

use vstd::prelude::*;

use crate::call_stack::CallStack;
use crate::code_module::{CodeModule, CodeModuleId};
use crate::errors::Error;
use crate::frame_info::FrameInfoMap;
use crate::minidump::{
    decode_dump, dump_ok, header_ok, module_count_of, modules_end, requesting_count,
    thread_context_at, thread_count_of, thread_id_at, thread_pos, thread_stack_at,
    threads_bad_id_from, threads_ok_from,
};
use crate::stack_frame::{trust_rank, FrameTrust};
use crate::stack_walker::{stores_wf, walk_stack, walked_frames_ok, MAX_FRAMES};
use crate::symbol_store::SymbolStore;

verus! {

/// Result of processing a minidump buffer. Every structural failure mode
/// is a distinct variant so callers can tell them apart.
#[derive(Debug, PartialEq, Eq, Structural, Clone, Copy)]
pub enum ProcessResult {
    /// The dump was processed successfully.
    Success,
    /// The minidump file was not found.
    MinidumpNotFound,
    /// The minidump buffer had no header.
    NoMinidumpHeader,
    /// The minidump has no thread list.
    ErrorNoThreadList,
    /// There was an error getting one thread's data from the dump.
    ErrorGettingThread,
    /// There was an error getting a thread id from the thread's data.
    ErrorGettingThreadId,
    /// There was more than one requesting thread.
    DuplicateRequestingThreads,
    /// The dump processing was interrupted (not fatal).
    SymbolSupplierInterrupted,
}

/// The fixed description of each processing outcome; every variant has
/// its own text.
pub open spec fn describe_text(pr: ProcessResult) -> Seq<char> {
    match pr {
        ProcessResult::Success => "Dump processed successfully"@,
        ProcessResult::MinidumpNotFound => "Minidump file was not found"@,
        ProcessResult::NoMinidumpHeader => "Minidump file had no header"@,
        ProcessResult::ErrorNoThreadList => "Minidump file has no thread list"@,
        ProcessResult::ErrorGettingThread => "Error getting one thread's data"@,
        ProcessResult::ErrorGettingThreadId => "Error getting a thread id"@,
        ProcessResult::DuplicateRequestingThreads => "There was more than one requesting thread"@,
        ProcessResult::SymbolSupplierInterrupted => "Processing was interrupted (not fatal)"@,
    }
}

impl ProcessResult {
    /// A human-readable description of this outcome: exactly the fixed
    /// text of the variant.
    pub fn describe(&self) -> (r: &'static str)
        ensures
            r@ == describe_text(*self),
    {
        match self {
            ProcessResult::Success => "Dump processed successfully",
            ProcessResult::MinidumpNotFound => "Minidump file was not found",
            ProcessResult::NoMinidumpHeader => "Minidump file had no header",
            ProcessResult::ErrorNoThreadList => "Minidump file has no thread list",
            ProcessResult::ErrorGettingThread => "Error getting one thread's data",
            ProcessResult::ErrorGettingThreadId => "Error getting a thread id",
            ProcessResult::DuplicateRequestingThreads => "There was more than one requesting thread",
            ProcessResult::SymbolSupplierInterrupted => "Processing was interrupted (not fatal)",
        }
    }
}

/// The descriptions surface each reason verbatim: distinct outcomes never
/// collapse into the same text.
pub proof fn lemma_describe_texts_distinct(a: ProcessResult, b: ProcessResult)
    requires
        a != b,
    ensures
        describe_text(a) != describe_text(b),
{
    reveal_strlit("Dump processed successfully");
    reveal_strlit("Minidump file was not found");
    reveal_strlit("Minidump file had no header");
    reveal_strlit("Minidump file has no thread list");
    reveal_strlit("Error getting one thread's data");
    reveal_strlit("Error getting a thread id");
    reveal_strlit("There was more than one requesting thread");
    reveal_strlit("Processing was interrupted (not fatal)");
    assert("Dump processed successfully"@[0] == 'D');
    assert("Minidump file was not found"@[0] == 'M');
    assert("Minidump file had no header"@[0] == 'M');
    assert("Minidump file was not found"@[14] == 'w');
    assert("Minidump file had no header"@[14] == 'h');
    assert("Dump processed successfully"@.len() == 27);
    assert("Minidump file was not found"@.len() == 27);
    assert("Minidump file had no header"@.len() == 27);
    assert("Minidump file has no thread list"@.len() == 32);
    assert("Error getting one thread's data"@.len() == 31);
    assert("Error getting a thread id"@.len() == 25);
    assert("There was more than one requesting thread"@.len() == 41);
    assert("Processing was interrupted (not fatal)"@.len() == 38);
}

/// Some frame of some thread is attributed to exactly the module `m`.
pub open spec fn some_frame_has_module(threads: Seq<CallStack>, m: CodeModule) -> bool {
    exists|a: int, b: int|
        0 <= a < threads.len() && 0 <= b < threads[a].frames@.len()
            && threads[a].frames@[b].module == Some(m)
}

/// Some frame strictly before position (`tb`, `fb`), in thread order then
/// frame order, is attributed to a module with identifier `id`.
pub open spec fn id_in_threads_upto(
    threads: Seq<CallStack>,
    id: CodeModuleId,
    tb: int,
    fb: int,
) -> bool {
    exists|a: int, b: int|
        #![trigger threads[a].frames@[b]]
        {
            &&& 0 <= a < threads.len()
            &&& 0 <= b < threads[a].frames@.len()
            &&& (a < tb || (a == tb && b < fb))
            &&& match threads[a].frames@[b].module {
                Some(m) => m.id == id,
                None => false,
            }
        }
}

/// Some frame of some thread is attributed to a module with identifier
/// `id`.
pub open spec fn id_in_threads(threads: Seq<CallStack>, id: CodeModuleId) -> bool {
    id_in_threads_upto(threads, id, threads.len() as int, 0)
}

/// Whether some module of `v` carries identifier `id`.
fn contains_id(v: &Vec<CodeModule>, id: CodeModuleId) -> (r: bool)
    ensures
        r == exists|i: int| 0 <= i < v@.len() && (#[trigger] v@[i]).id == id,
{
    let n = v.len();
    let mut i: usize = 0;
    while i < n
        invariant
            0 <= i <= n,
            n == v@.len(),
            forall|j: int| 0 <= j < i ==> (#[trigger] v@[j]).id != id,
        decreases n - i,
    {
        if v[i].id == id {
            return true;
        }
        i = i + 1;
    }
    false
}

/// Snapshot of the state of a process during its crash: one call stack
/// per thread, in dump order.
#[derive(Debug)]
pub struct ProcessState {
    pub threads: Vec<CallStack>,
}

impl ProcessState {
    /// Every thread's call stack is well formed.
    pub open spec fn wf(&self) -> bool {
        forall|t: int| 0 <= t < self.threads@.len() ==> (#[trigger] self.threads@[t]).wf()
    }

    /// Processes a minidump supplied as raw binary data. The optional
    /// `frame_infos` map supplies per-module `STACK CFI` records that let
    /// the walker unwind frames with omitted frame pointers.
    ///
    /// Processing succeeds exactly on structurally well-formed buffers
    /// and then holds one call stack per thread of the dump, each well
    /// formed and walked from that thread's stored register context: the
    /// thread id is the stored one, a zero stored instruction pointer
    /// yields an empty stack, and otherwise the first frame carries the
    /// stored instruction pointer with context trust, later frames carry
    /// weaker trusts and nonzero addresses, and a thread stored without
    /// stack memory keeps exactly its context frame. Every structural
    /// defect of the buffer surfaces as its own `ProcessResult` code,
    /// mirroring [`decode_dump`].
    pub fn from_minidump_buffer(buffer: &[u8], frame_infos: Option<&FrameInfoMap>) -> (r: Result<
        ProcessState,
        Error,
    >)
        ensures
            (r is Ok) == dump_ok(buffer@),
            match r {
                Ok(state) => {
                    let me = modules_end(buffer@, 16, module_count_of(buffer@));
                    &&& header_ok(buffer@)
                    &&& thread_count_of(buffer@) >= 1
                    &&& state.threads@.len() == thread_count_of(buffer@)
                    &&& state.wf()
                    &&& forall|t: int|
                        0 <= t < state.threads@.len() ==> {
                            let tp = thread_pos(buffer@, me, t);
                            let ctx = thread_context_at(buffer@, tp);
                            let frames = (#[trigger] state.threads@[t]).frames@;
                            &&& state.threads@[t].thread_id == thread_id_at(buffer@, tp)
                            &&& (ctx.instruction == 0 <==> frames.len() == 0)
                            &&& frames.len() <= MAX_FRAMES
                            &&& (frames.len() >= 1 ==> frames[0].instruction == ctx.instruction
                                && frames[0].trust == FrameTrust::Context)
                            &&& forall|i: int|
                                1 <= i < frames.len() ==> 0 < trust_rank(
                                    (#[trigger] frames[i]).trust,
                                ) < trust_rank(FrameTrust::Context) && frames[i].instruction != 0
                            &&& (ctx.instruction != 0 && thread_stack_at(buffer@, tp).len() == 0
                                ==> frames.len() == 1)
                        }
                },
                Err(e) => match e {
                    Error::ProcessError(pr) => {
                        let me = modules_end(buffer@, 16, module_count_of(buffer@));
                        let tc = thread_count_of(buffer@);
                        &&& (pr is NoMinidumpHeader <==> !header_ok(buffer@))
                        &&& (pr is ErrorNoThreadList <==> header_ok(buffer@) && (tc == 0 || me
                            < 0))
                        &&& (pr is ErrorGettingThreadId <==> header_ok(buffer@) && tc >= 1 && me
                            >= 0 && threads_bad_id_from(buffer@, me, tc))
                        &&& (pr is ErrorGettingThread <==> header_ok(buffer@) && tc >= 1 && me
                            >= 0 && !threads_ok_from(buffer@, me, tc) && !threads_bad_id_from(
                            buffer@,
                            me,
                            tc,
                        ))
                        &&& (pr is DuplicateRequestingThreads <==> header_ok(buffer@) && tc >= 1
                            && me >= 0 && threads_ok_from(buffer@, me, tc) && requesting_count(
                            buffer@,
                            me,
                            tc,
                        ) > 1)
                        &&& (pr is NoMinidumpHeader || pr is ErrorNoThreadList || pr
                            is ErrorGettingThreadId || pr is ErrorGettingThread || pr
                            is DuplicateRequestingThreads)
                    },
                    _ => false,
                },
            },
    {
        let dump = match decode_dump(buffer) {
            Ok(d) => d,
            Err(pr) => {
                return Err(Error::ProcessError(pr));
            },
        };
        let mut stores: Vec<(CodeModuleId, SymbolStore)> = Vec::new();
        match frame_infos {
            Some(infos) => {
                let entries = infos.entries();
                let n = entries.len();
                let mut i: usize = 0;
                while i < n
                    invariant
                        0 <= i <= n,
                        n == entries@.len(),
                        stores_wf(stores@),
                    decreases n - i,
                {
                    let store = SymbolStore::from_buffer(entries[i].1.as_slice());
                    stores.push((entries[i].0, store));
                    i = i + 1;
                }
            },
            None => {},
        }
        let ghost me = modules_end(buffer@, 16, module_count_of(buffer@));
        let mut threads: Vec<CallStack> = Vec::new();
        let n = dump.threads.len();
        let mut t: usize = 0;
        while t < n
            invariant
                0 <= t <= n,
                n == dump.threads@.len(),
                threads@.len() == t,
                crate::stack_walker::modules_wf(dump.modules@),
                stores_wf(stores@),
                me == modules_end(buffer@, 16, module_count_of(buffer@)),
                forall|i: int|
                    0 <= i < dump.threads@.len() ==> {
                        let tp = thread_pos(buffer@, me, i);
                        &&& (#[trigger] dump.threads@[i]).thread_id == thread_id_at(buffer@, tp)
                        &&& dump.threads@[i].context == thread_context_at(buffer@, tp)
                        &&& dump.threads@[i].memory.bytes@ == thread_stack_at(buffer@, tp)
                    },
                forall|j: int| 0 <= j < threads@.len() ==> (#[trigger] threads@[j]).wf(),
                forall|j: int|
                    0 <= j < threads@.len() ==> {
                        let tp = thread_pos(buffer@, me, j);
                        let ctx = thread_context_at(buffer@, tp);
                        let frames = (#[trigger] threads@[j]).frames@;
                        &&& threads@[j].thread_id == thread_id_at(buffer@, tp)
                        &&& (ctx.instruction == 0 <==> frames.len() == 0)
                        &&& frames.len() <= MAX_FRAMES
                        &&& (frames.len() >= 1 ==> frames[0].instruction == ctx.instruction
                            && frames[0].trust == FrameTrust::Context)
                        &&& forall|i: int|
                            1 <= i < frames.len() ==> 0 < trust_rank(
                                (#[trigger] frames[i]).trust,
                            ) < trust_rank(FrameTrust::Context) && frames[i].instruction != 0
                        &&& (ctx.instruction != 0 && thread_stack_at(buffer@, tp).len() == 0
                            ==> frames.len() == 1)
                    },
            decreases n - t,
        {
            let td = &dump.threads[t];
            let frames = walk_stack(&td.context, &td.memory, &dump.modules, &stores, &td.prewalked);
            let cs = CallStack::new(td.thread_id, frames);
            proof {
                assert(cs.wf());
                assert(walked_frames_ok(dump.modules@, &td.context, cs.frames@));
            }
            threads.push(cs);
            t = t + 1;
            proof {
                assert forall|j: int|
                    0 <= j < threads@.len() implies {
                    let tp = thread_pos(buffer@, me, j);
                    let ctx = thread_context_at(buffer@, tp);
                    let frames = (#[trigger] threads@[j]).frames@;
                    &&& threads@[j].thread_id == thread_id_at(buffer@, tp)
                    &&& (ctx.instruction == 0 <==> frames.len() == 0)
                    &&& frames.len() <= MAX_FRAMES
                    &&& (frames.len() >= 1 ==> frames[0].instruction == ctx.instruction
                        && frames[0].trust == FrameTrust::Context)
                    &&& forall|i: int|
                        1 <= i < frames.len() ==> 0 < trust_rank((#[trigger] frames[i]).trust)
                            < trust_rank(FrameTrust::Context) && frames[i].instruction != 0
                    &&& (ctx.instruction != 0 && thread_stack_at(buffer@, tp).len() == 0
                        ==> frames.len() == 1)
                } by {
                    if j < threads@.len() - 1 {
                        assert(threads@[j] == threads@.drop_last()[j]);
                    } else {
                        assert(threads@[j] == cs);
                        assert(dump.threads@[j].context == thread_context_at(
                            buffer@,
                            thread_pos(buffer@, me, j),
                        ));
                    }
                }
            }
        }
        Ok(ProcessState { threads })
    }

    /// The call stacks of the dump's threads, in dump order.
    pub fn threads(&self) -> (r: &Vec<CallStack>)
        ensures
            r == &self.threads,
    {
        &self.threads
    }

    /// Every module referenced by some frame of some thread, collapsed by
    /// module identifier: the result lists one module per distinct
    /// identifier, each taken from a frame, and covers every identifier
    /// any frame references.
    pub fn referenced_modules(&self) -> (r: Vec<CodeModule>)
        ensures
            forall|i: int, j: int|
                0 <= i < j < r@.len() ==> (#[trigger] r@[i]).id != (#[trigger] r@[j]).id,
            forall|i: int|
                0 <= i < r@.len() ==> some_frame_has_module(self.threads@, #[trigger] r@[i]),
            forall|id: CodeModuleId|
                id_in_threads(self.threads@, id) ==> exists|i: int|
                    0 <= i < r@.len() && (#[trigger] r@[i]).id == id,
    {
        let mut out: Vec<CodeModule> = Vec::new();
        let nt = self.threads.len();
        let mut t: usize = 0;
        while t < nt
            invariant
                0 <= t <= nt,
                nt == self.threads@.len(),
                forall|i: int, j: int|
                    0 <= i < j < out@.len() ==> (#[trigger] out@[i]).id != (#[trigger] out@[j]).id,
                forall|i: int|
                    0 <= i < out@.len() ==> some_frame_has_module(self.threads@, #[trigger] out@[i]),
                forall|id: CodeModuleId|
                    id_in_threads_upto(self.threads@, id, t as int, 0) ==> exists|i: int|
                        0 <= i < out@.len() && (#[trigger] out@[i]).id == id,
            decreases nt - t,
        {
            let nf = self.threads[t].frames.len();
            let mut f: usize = 0;
            while f < nf
                invariant
                    0 <= t < nt,
                    0 <= f <= nf,
                    nt == self.threads@.len(),
                    nf == self.threads@[t as int].frames@.len(),
                    forall|i: int, j: int|
                        0 <= i < j < out@.len() ==> (#[trigger] out@[i]).id != (
                        #[trigger] out@[j]).id,
                    forall|i: int|
                        0 <= i < out@.len() ==> some_frame_has_module(
                            self.threads@,
                            #[trigger] out@[i],
                        ),
                    forall|id: CodeModuleId|
                        id_in_threads_upto(self.threads@, id, t as int, f as int) ==> exists|
                            i: int,
                        |
                            0 <= i < out@.len() && (#[trigger] out@[i]).id == id,
                decreases nf - f,
            {
                let ghost out_before = out@;
                match &self.threads[t].frames[f].module {
                    Some(m) => {
                        if !contains_id(&out, m.id) {
                            out.push(m.clone());
                            proof {
                                assert(self.threads@[t as int].frames@[f as int].module == Some(
                                    out@[out@.len() - 1],
                                ));
                            }
                        }
                    },
                    None => {},
                }
                proof {
                    assert forall|id: CodeModuleId|
                        #![trigger id_in_threads_upto(self.threads@, id, t as int, f + 1)]
                        id_in_threads_upto(
                            self.threads@,
                            id,
                            t as int,
                            f + 1,
                        ) implies exists|i: int|
                        0 <= i < out@.len() && out@[i].id == id by {
                        let (a, b) = choose|a: int, b: int|
                            #![trigger self.threads@[a].frames@[b]]
                            {
                                &&& 0 <= a < self.threads@.len()
                                &&& 0 <= b < self.threads@[a].frames@.len()
                                &&& (a < t as int || (a == t as int && b < f + 1))
                                &&& match self.threads@[a].frames@[b].module {
                                    Some(m) => m.id == id,
                                    None => false,
                                }
                            };
                        if a < t as int || (a == t as int && b < f as int) {
                            assert(id_in_threads_upto(self.threads@, id, t as int, f as int));
                            let w = choose|i: int|
                                0 <= i < out_before.len() && (#[trigger] out_before[i]).id == id;
                            assert(out@[w].id == id);
                        } else {
                            assert(a == t as int && b == f as int);
                        }
                    }
                }
                f = f + 1;
            }
            proof {
                assert forall|id: CodeModuleId|
                    #![trigger id_in_threads_upto(self.threads@, id, t + 1, 0)]
                    id_in_threads_upto(self.threads@, id, t + 1, 0) implies id_in_threads_upto(
                    self.threads@,
                    id,
                    t as int,
                    nf as int,
                ) by {
                    let (a, b) = choose|a: int, b: int|
                        #![trigger self.threads@[a].frames@[b]]
                        {
                            &&& 0 <= a < self.threads@.len()
                            &&& 0 <= b < self.threads@[a].frames@.len()
                            &&& (a < t + 1 || (a == t + 1 && b < 0))
                            &&& match self.threads@[a].frames@[b].module {
                                Some(m) => m.id == id,
                                None => false,
                            }
                        };
                    assert(a < t as int || (a == t as int && b < nf as int));
                }
            }
            t = t + 1;
        }
        proof {
            assert forall|id: CodeModuleId|
                #![trigger id_in_threads_upto(self.threads@, id, nt as int, 0)]
                id_in_threads(self.threads@, id) implies id_in_threads_upto(
                self.threads@,
                id,
                nt as int,
                0,
            ) by {
            }
        }
        out
    }
}

} // verus!
