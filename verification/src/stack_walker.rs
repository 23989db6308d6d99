//! Reconstruction of one thread's call stack from its register context,
//! raw stack memory, the loaded modules, and optional per-module CFI data.
//!
//! Strategies are tried per frame in trust-descending order: call-frame
//! information, then frame pointer chasing, then a bounded scan of stack
//! memory for a plausible return address. Walking stops when no strategy
//! yields a plausible caller, when the recovered stack pointer fails to
//! increase, when a recovered instruction address is zero, or at the
//! frame-count limit.

use vstd::prelude::*;

use crate::cfi_eval::{
    eval_rule, parse_rules, rule_value, rules_of, tok_cfa, tok_ra, tok_rbp, CfiEnv,
};
use crate::code_module::{module_contains, CodeModule, CodeModuleId};
use crate::memory::{mem_word, StackMemory};
use crate::stack_frame::{trust_rank, FrameTrust, StackFrame};
use crate::symbol_store::{cfi_contains, find_cfi_spec, SymbolStore};

verus! {

/// The most frames one walk will produce.
pub const MAX_FRAMES: usize = 1024;

/// How many words a stack scan examines at most.
pub const SCAN_WORDS: u64 = 40;

/// The saved register state a thread context supplies to the walker.
#[derive(Debug, PartialEq, Eq, Structural, Clone, Copy)]
pub struct Context {
    pub instruction: u64,
    pub stack_pointer: u64,
    pub frame_pointer: u64,
}

/// Every module descriptor is well formed.
pub open spec fn modules_wf(ms: Seq<CodeModule>) -> bool {
    forall|i: int| 0 <= i < ms.len() ==> (#[trigger] ms[i]).wf()
}

/// Every per-module symbol store keeps its lookup structures sorted.
pub open spec fn stores_wf(ss: Seq<(CodeModuleId, SymbolStore)>) -> bool {
    forall|i: int| 0 <= i < ss.len() ==> (#[trigger] ss[i]).1.wf()
}

/// The frame's module field is the first loaded module containing its
/// instruction, or absent when no module does.
pub open spec fn attributed(modules: Seq<CodeModule>, f: StackFrame) -> bool {
    match f.module {
        Some(m) => exists|k: int|
            0 <= k < modules.len() && #[trigger] modules[k] == m && module_contains(
                &modules[k],
                f.instruction,
            ) && (forall|j: int| 0 <= j < k ==> !module_contains(&#[trigger] modules[j], f.instruction)),
        None => forall|k: int|
            0 <= k < modules.len() ==> !module_contains(&#[trigger] modules[k], f.instruction),
    }
}

/// Index of the first loaded module at or after `k` containing `addr`.
pub open spec fn module_index_from(modules: Seq<CodeModule>, addr: u64, k: int) -> Option<int>
    decreases modules.len() - k,
{
    if k < 0 || k >= modules.len() {
        None
    } else if module_contains(&modules[k], addr) {
        Some(k)
    } else {
        module_index_from(modules, addr, k + 1)
    }
}

proof fn lemma_module_index_from_at(modules: Seq<CodeModule>, addr: u64, k: int, i: int)
    requires
        0 <= k <= i < modules.len(),
        module_contains(&modules[i], addr),
        forall|j: int| k <= j < i ==> !module_contains(&#[trigger] modules[j], addr),
    ensures
        module_index_from(modules, addr, k) == Some(i),
    decreases i - k,
{
    if k < i {
        lemma_module_index_from_at(modules, addr, k + 1, i);
    }
}

proof fn lemma_module_index_from_none(modules: Seq<CodeModule>, addr: u64, k: int)
    requires
        0 <= k,
        forall|j: int| k <= j < modules.len() ==> !module_contains(&#[trigger] modules[j], addr),
    ensures
        module_index_from(modules, addr, k) is None,
    decreases modules.len() - k,
{
    if k < modules.len() {
        lemma_module_index_from_none(modules, addr, k + 1);
    }
}

/// Index of the first store entry at or after `k` supplied for `id`.
pub open spec fn store_index_from(
    stores: Seq<(CodeModuleId, SymbolStore)>,
    id: CodeModuleId,
    k: int,
) -> Option<int>
    decreases stores.len() - k,
{
    if k < 0 || k >= stores.len() {
        None
    } else if stores[k].0 == id {
        Some(k)
    } else {
        store_index_from(stores, id, k + 1)
    }
}

proof fn lemma_store_index_from_at(
    stores: Seq<(CodeModuleId, SymbolStore)>,
    id: CodeModuleId,
    k: int,
    i: int,
)
    requires
        0 <= k <= i < stores.len(),
        stores[i].0 == id,
        forall|j: int| k <= j < i ==> (#[trigger] stores[j]).0 != id,
    ensures
        store_index_from(stores, id, k) == Some(i),
    decreases i - k,
{
    if k < i {
        lemma_store_index_from_at(stores, id, k + 1, i);
    }
}

proof fn lemma_store_index_from_none(
    stores: Seq<(CodeModuleId, SymbolStore)>,
    id: CodeModuleId,
    k: int,
)
    requires
        0 <= k,
        forall|j: int| k <= j < stores.len() ==> (#[trigger] stores[j]).0 != id,
    ensures
        store_index_from(stores, id, k) is None,
    decreases stores.len() - k,
{
    if k < stores.len() {
        lemma_store_index_from_none(stores, id, k + 1);
    }
}

/// Structure of a walked stack: a zero instruction pointer yields no
/// frames; otherwise the first frame carries the context's instruction
/// with context trust, every later frame was recovered by a weaker
/// strategy and has a nonzero address, and every frame is attributed to
/// the loaded module owning its address.
pub open spec fn walked_frames_ok(
    modules: Seq<CodeModule>,
    ctx: &Context,
    frames: Seq<StackFrame>,
) -> bool {
    &&& (ctx.instruction == 0 <==> frames.len() == 0)
    &&& frames.len() <= MAX_FRAMES
    &&& (frames.len() >= 1 ==> frames[0].instruction == ctx.instruction && frames[0].trust
        == FrameTrust::Context)
    &&& forall|i: int|
        1 <= i < frames.len() ==> 0 < trust_rank((#[trigger] frames[i]).trust) < trust_rank(
            FrameTrust::Context,
        ) && frames[i].instruction != 0
    &&& forall|i: int|
        0 <= i < frames.len() ==> (#[trigger] frames[i]).wf() && attributed(modules, frames[i])
}

/// Finds the first loaded module containing `addr`.
pub fn module_index(modules: &Vec<CodeModule>, addr: u64) -> (r: Option<usize>)
    ensures
        match r {
            Some(k) => 0 <= k < modules@.len() && module_contains(&modules@[k as int], addr) && (
            forall|j: int| 0 <= j < k ==> !module_contains(&#[trigger] modules@[j], addr)),
            None => forall|j: int|
                0 <= j < modules@.len() ==> !module_contains(&#[trigger] modules@[j], addr),
        },
{
    let n = modules.len();
    let mut i: usize = 0;
    while i < n
        invariant
            0 <= i <= n,
            n == modules@.len(),
            forall|j: int| 0 <= j < i ==> !module_contains(&#[trigger] modules@[j], addr),
        decreases n - i,
    {
        if modules[i].contains(addr) {
            return Some(i);
        }
        i = i + 1;
    }
    None
}

/// Builds a frame for `instruction`, attributing it to the owning module.
fn make_frame(modules: &Vec<CodeModule>, instruction: u64, trust: FrameTrust) -> (f: StackFrame)
    requires
        modules_wf(modules@),
    ensures
        f.instruction == instruction,
        f.trust == trust,
        f.wf(),
        attributed(modules@, f),
{
    match module_index(modules, instruction) {
        Some(k) => {
            let m = modules[k].clone();
            StackFrame::with_module(instruction, trust, m)
        },
        None => StackFrame::new(instruction, trust),
    }
}

/// Finds the symbol store supplied for module `id` (first match).
fn find_store<'a>(stores: &'a Vec<(CodeModuleId, SymbolStore)>, id: &CodeModuleId) -> (r: Option<
    &'a SymbolStore,
>)
    requires
        stores_wf(stores@),
    ensures
        match r {
            Some(s) => s.wf() && exists|i: int|
                0 <= i < stores@.len() && (#[trigger] stores@[i]).0 == *id && stores@[i].1 == *s
                    && store_index_from(stores@, *id, 0) == Some(i),
            None => store_index_from(stores@, *id, 0) is None,
        },
{
    let n = stores.len();
    let mut i: usize = 0;
    while i < n
        invariant
            0 <= i <= n,
            n == stores@.len(),
            stores_wf(stores@),
            forall|j: int| 0 <= j < i ==> (#[trigger] stores@[j]).0 != *id,
        decreases n - i,
    {
        if stores[i].0 == *id {
            proof {
                lemma_store_index_from_at(stores@, *id, 0, i as int);
            }
            return Some(&stores[i].1);
        }
        i = i + 1;
    }
    proof {
        lemma_store_index_from_none(stores@, *id, 0);
    }
    None
}

/// What call-frame information recovers for a callee at `ip`: the
/// effective program of the first covering CFI window is split into
/// rules; its `.cfa` rule, evaluated against the callee state, gives the
/// caller's stack pointer, its `.ra` rule (with `.cfa` available) the
/// return address, and its `$rbp` rule, when present, the caller's frame
/// pointer. Recovery fails without a covering window, on malformed rule
/// text, when a required rule is missing or its program fails, on a zero
/// return address, and on a stack pointer that would not increase.
pub open spec fn cfi_recover_spec(
    ip: u64,
    sp: u64,
    fp: u64,
    module: &CodeModule,
    store: &SymbolStore,
    mem: &StackMemory,
) -> Option<(u64, u64, u64)> {
    if ip < module.base_address {
        None
    } else {
        let rel = (ip - module.base_address) as u64;
        match find_cfi_spec(store, rel) {
            None => None,
            Some(text) => match rules_of(text) {
                None => None,
                Some(rules) => {
                    let env0 = CfiEnv { cfa_set: false, cfa: 0, ip, sp, fp };
                    match rule_value(rules, tok_cfa(), env0, mem) {
                        None => None,
                        Some(cfa) => {
                            let env1 = CfiEnv { cfa_set: true, cfa, ip, sp, fp };
                            match rule_value(rules, tok_ra(), env1, mem) {
                                None => None,
                                Some(ra) => {
                                    let nfp = match rule_value(rules, tok_rbp(), env1, mem) {
                                        Some(v) => v,
                                        None => fp,
                                    };
                                    if ra == 0 || cfa <= sp {
                                        None
                                    } else {
                                        Some((ra, cfa, nfp))
                                    }
                                },
                            }
                        },
                    }
                },
            },
        }
    }
}

/// Recovers the caller's state from call-frame information; returns
/// exactly what [`cfi_recover_spec`] prescribes. Success implies a
/// nonzero return address, a stack pointer above the callee's, and a
/// CFI window covering the address.
pub fn try_cfi(
    ip: u64,
    sp: u64,
    fp: u64,
    module: &CodeModule,
    store: &SymbolStore,
    mem: &StackMemory,
) -> (r: Option<(u64, u64, u64)>)
    requires
        store.wf(),
    ensures
        r == cfi_recover_spec(ip, sp, fp, module, store, mem),
        match r {
            Some(t) => t.0 != 0 && t.1 > sp && ip >= module.base_address && exists|i: int|
                0 <= i < store.cfi@.len() && cfi_contains(
                    &#[trigger] store.cfi@[i],
                    (ip - module.base_address) as u64,
                ),
            None => true,
        },
{
    proof {
        reveal_strlit(".cfa");
        reveal_strlit(".ra");
        reveal_strlit("$rbp");
        assert(".cfa"@ =~= tok_cfa());
        assert(".ra"@ =~= tok_ra());
        assert("$rbp"@ =~= tok_rbp());
    }
    if ip < module.base_address {
        return None;
    }
    let rel = ip - module.base_address;
    let text = match store.find_cfi(rel) {
        Some(t) => t,
        None => {
            return None;
        },
    };
    let rules = match parse_rules(text.as_str()) {
        Some(r) => r,
        None => {
            return None;
        },
    };
    let env0 = CfiEnv { cfa_set: false, cfa: 0, ip, sp, fp };
    let cfa = match eval_rule(&rules, ".cfa", &env0, mem) {
        Some(v) => v,
        None => {
            return None;
        },
    };
    let env1 = CfiEnv { cfa_set: true, cfa, ip, sp, fp };
    let ra = match eval_rule(&rules, ".ra", &env1, mem) {
        Some(v) => v,
        None => {
            return None;
        },
    };
    let new_fp = match eval_rule(&rules, "$rbp", &env1, mem) {
        Some(v) => v,
        None => fp,
    };
    if ra == 0 || cfa <= sp {
        return None;
    }
    Some((ra, cfa, new_fp))
}

/// What frame pointer chasing recovers/// What frame pointer chasing recovers: the saved frame pointer sits at
/// the frame pointer, the return address one word above, and the caller's
/// stack pointer two words above; it fails on an unreadable word, a zero
/// return address, or a stack pointer that would not increase.
pub open spec fn fp_recover_spec(sp: u64, fp: u64, mem: &StackMemory) -> Option<(u64, u64, u64)> {
    if fp > u64::MAX - 16 {
        None
    } else {
        match (mem_word(mem, fp), mem_word(mem, (fp + 8) as u64)) {
            (Some(sfp), Some(ra)) => if ra != 0 && fp + 16 > sp {
                Some((ra, (fp + 16) as u64, sfp))
            } else {
                None
            },
            _ => None,
        }
    }
}

/// Recovers the caller's state through the frame pointer chain; returns
/// exactly what [`fp_recover_spec`] prescribes.
pub fn try_frame_pointer(sp: u64, fp: u64, mem: &StackMemory) -> (r: Option<(u64, u64, u64)>)
    ensures
        r == fp_recover_spec(sp, fp, mem),
        match r {
            Some(t) => t.0 != 0 && t.1 > sp,
            None => true,
        },
{
    if fp > u64::MAX - 16 {
        return None;
    }
    let saved_fp = match mem.read_word(fp) {
        Some(v) => v,
        None => {
            return None;
        },
    };
    let ret = match mem.read_word(fp + 8) {
        Some(v) => v,
        None => {
            return None;
        },
    };
    if ret == 0 {
        return None;
    }
    let new_sp = fp + 16;
    if new_sp <= sp {
        return None;
    }
    Some((ret, new_sp, saved_fp))
}

/// What a bounded stack scan starting at the aligned address `start`
/// finds from word index `k` on: the first word that is nonzero and lies
/// inside some loaded module, together with the stack pointer just above
/// it. The scan stops at the word limit, at an unreadable word, and at
/// the address space's end.
pub open spec fn scan_from_spec(
    mem: &StackMemory,
    modules: Seq<CodeModule>,
    start: u64,
    k: int,
    limit: int,
) -> Option<(u64, u64)>
    decreases limit - k,
{
    if k < 0 || k >= limit {
        None
    } else if start + 8 * k > u64::MAX {
        None
    } else {
        let addr = (start + 8 * k) as u64;
        match mem_word(mem, addr) {
            None => None,
            Some(w) => if w != 0 && addr <= u64::MAX - 8 && (exists|j: int|
                0 <= j < modules.len() && module_contains(&#[trigger] modules[j], w)) {
                Some((w, (addr + 8) as u64))
            } else {
                scan_from_spec(mem, modules, start, k + 1, limit)
            },
        }
    }
}

/// What scanning recovers from stack pointer `sp`: the scan starts at
/// `sp` aligned up to a word boundary and examines at most `limit` words.
pub open spec fn scan_spec(mem: &StackMemory, modules: Seq<CodeModule>, sp: u64, limit: int) -> Option<
    (u64, u64),
> {
    let rem = sp % 8;
    if rem == 0 {
        scan_from_spec(mem, modules, sp, 0, limit)
    } else if sp > u64::MAX - (8 - rem) {
        None
    } else {
        scan_from_spec(mem, modules, (sp + (8 - rem)) as u64, 0, limit)
    }
}

/// Scans stack memory upward from the stack pointer for a word that lies
/// inside some loaded module; returns exactly what [`scan_spec`]
/// prescribes. On success the candidate return address is nonzero and
/// the recovered stack pointer lies above the callee's.
pub fn try_scan(sp: u64, mem: &StackMemory, modules: &Vec<CodeModule>, limit: u64) -> (r: Option<
    (u64, u64),
>)
    requires
        modules_wf(modules@),
    ensures
        r == scan_spec(mem, modules@, sp, limit as int),
        match r {
            Some(t) => t.0 != 0 && t.1 > sp && exists|k: int|
                0 <= k < modules@.len() && module_contains(&#[trigger] modules@[k], t.0),
            None => true,
        },
{
    let rem = sp % 8;
    let start: u64;
    if rem == 0 {
        start = sp;
    } else {
        if sp > u64::MAX - (8 - rem) {
            return None;
        }
        start = sp + (8 - rem);
    }
    let mut k: u64 = 0;
    while k < limit
        invariant
            start >= sp,
            0 <= k <= limit,
            modules_wf(modules@),
            scan_spec(mem, modules@, sp, limit as int) == scan_from_spec(
                mem,
                modules@,
                start,
                k as int,
                limit as int,
            ),
        decreases limit - k,
    {
        if k > (u64::MAX - start) / 8 {
            proof {
                assert(start + 8 * (k as int) > u64::MAX);
            }
            return None;
        }
        proof {
            assert(start + 8 * (k as int) <= u64::MAX);
        }
        let addr = start + 8 * k;
        let w = match mem.read_word(addr) {
            Some(w) => w,
            None => {
                return None;
            },
        };
        if w != 0 && addr <= u64::MAX - 8 {
            match module_index(modules, w) {
                Some(_) => {
                    return Some((w, addr + 8));
                },
                None => {},
            }
        }
        k = k + 1;
    }
    None
}

/// What one unwinding step recovers from callee state (`ip`, `sp`,
/// `fp`), trying the strategies in trust-descending order: call-frame
/// information when the address lies in a loaded module with supplied
/// CFI data, then the frame pointer chain, then a bounded stack scan,
/// whose trust records whether CFI data informed it.
pub open spec fn unwind_step_spec(
    ip: u64,
    sp: u64,
    fp: u64,
    modules: Seq<CodeModule>,
    stores: Seq<(CodeModuleId, SymbolStore)>,
    mem: &StackMemory,
) -> Option<(u64, u64, u64, FrameTrust)> {
    let midx = module_index_from(modules, ip, 0);
    let had_cfi = match midx {
        Some(k) => store_index_from(stores, modules[k].id, 0) is Some,
        None => false,
    };
    let cfi_res = match midx {
        Some(k) => match store_index_from(stores, modules[k].id, 0) {
            Some(si) => cfi_recover_spec(ip, sp, fp, &modules[k], &stores[si].1, mem),
            None => None,
        },
        None => None,
    };
    match cfi_res {
        Some(t) => Some((t.0, t.1, t.2, FrameTrust::CFI)),
        None => match fp_recover_spec(sp, fp, mem) {
            Some(t) => Some((t.0, t.1, t.2, FrameTrust::FramePointer)),
            None => match scan_spec(mem, modules, sp, SCAN_WORDS as int) {
                Some(t) => Some(
                    (
                        t.0,
                        t.1,
                        fp,
                        if had_cfi {
                            FrameTrust::CFIScan
                        } else {
                            FrameTrust::Scan
                        },
                    ),
                ),
                None => None,
            },
        },
    }
}

/// The (address, trust) pair of each frame after the first.
pub open spec fn frame_pairs(frames: Seq<StackFrame>) -> Seq<(u64, FrameTrust)> {
    Seq::new((frames.len() - 1) as nat, |i: int| (frames[i + 1].instruction, frames[i + 1].trust))
}

/// The frames recovered after the context frame from callee state
/// (`ip`, `sp`, `fp`), with at most `fuel` further frames: each step
/// takes what [`unwind_step_spec`] recovers, and walking ends at a failed
/// step, a zero address, or a stack pointer that does not increase.
pub open spec fn walk_tail_spec(
    ip: u64,
    sp: u64,
    fp: u64,
    modules: Seq<CodeModule>,
    stores: Seq<(CodeModuleId, SymbolStore)>,
    mem: &StackMemory,
    fuel: nat,
) -> Seq<(u64, FrameTrust)>
    decreases fuel,
{
    if fuel == 0 {
        Seq::empty()
    } else {
        match unwind_step_spec(ip, sp, fp, modules, stores, mem) {
            None => Seq::empty(),
            Some(t) => if t.0 == 0 || t.1 <= sp {
                Seq::empty()
            } else {
                seq![(t.0, t.3)] + walk_tail_spec(
                    t.0,
                    t.1,
                    t.2,
                    modules,
                    stores,
                    mem,
                    (fuel - 1) as nat,
                )
            },
        }
    }
}

/// Walks one thread's stack. The first frame is seeded from the context;
/// later frames are recovered by the strongest strategy that yields a
/// plausible caller: whenever [`unwind_step_spec`] recovers a plausible
/// caller from the context, walking continues past the context frame
/// with exactly that strategy's trust and address. A thread with no
/// valid instruction pointer yields no frames, and nothing is unwound
/// without stack memory. Prewalked frame addresses, when supplied,
/// bypass the unwinding strategies entirely.
pub fn walk_stack(
    ctx: &Context,
    memory: &StackMemory,
    modules: &Vec<CodeModule>,
    cfi_stores: &Vec<(CodeModuleId, SymbolStore)>,
    prewalked: &Vec<u64>,
) -> (frames: Vec<StackFrame>)
    requires
        modules_wf(modules@),
        stores_wf(cfi_stores@),
    ensures
        walked_frames_ok(modules@, ctx, frames@),
        ctx.instruction != 0 && memory.bytes@.len() == 0 ==> frames@.len() == 1,
        ctx.instruction != 0 && memory.bytes@.len() > 0 && prewalked@.len() == 0 ==> match
            unwind_step_spec(
            ctx.instruction,
            ctx.stack_pointer,
            ctx.frame_pointer,
            modules@,
            cfi_stores@,
            memory,
        ) {
            Some(t) => if t.0 != 0 && t.1 > ctx.stack_pointer {
                frames@.len() >= 2 && frames@[1].instruction == t.0 && frames@[1].trust == t.3
            } else {
                frames@.len() == 1
            },
            None => frames@.len() == 1,
        },
        ctx.instruction != 0 && memory.bytes@.len() > 0 && prewalked@.len() == 0 ==> frame_pairs(
            frames@,
        ) == walk_tail_spec(
            ctx.instruction,
            ctx.stack_pointer,
            ctx.frame_pointer,
            modules@,
            cfi_stores@,
            memory,
            (MAX_FRAMES - 1) as nat,
        ),
{
    let mut frames: Vec<StackFrame> = Vec::new();
    if ctx.instruction == 0 {
        return frames;
    }
    frames.push(make_frame(modules, ctx.instruction, FrameTrust::Context));
    if memory.bytes.len() == 0 {
        return frames;
    }
    if prewalked.len() > 0 {
        let n = prewalked.len();
        let mut i: usize = 0;
        while i < n && frames.len() < MAX_FRAMES
            invariant
                0 <= i <= n,
                n == prewalked@.len(),
                modules_wf(modules@),
                ctx.instruction != 0,
                1 <= frames@.len() <= MAX_FRAMES,
                frames@[0].instruction == ctx.instruction,
                frames@[0].trust == FrameTrust::Context,
                forall|j: int|
                    1 <= j < frames@.len() ==> (#[trigger] frames@[j]).trust
                        == FrameTrust::Prewalked && frames@[j].instruction != 0,
                forall|j: int|
                    0 <= j < frames@.len() ==> (#[trigger] frames@[j]).wf() && attributed(
                        modules@,
                        frames@[j],
                    ),
            decreases n - i,
        {
            let a = prewalked[i];
            if a == 0 {
                break;
            }
            frames.push(make_frame(modules, a, FrameTrust::Prewalked));
            i = i + 1;
        }
        return frames;
    }
    let mut ip = ctx.instruction;
    let mut sp = ctx.stack_pointer;
    let mut fp = ctx.frame_pointer;
    proof {
        assert(frame_pairs(frames@) =~= Seq::<(u64, FrameTrust)>::empty());
        assert(frame_pairs(frames@) + walk_tail_spec(
            ip,
            sp,
            fp,
            modules@,
            cfi_stores@,
            memory,
            (MAX_FRAMES - 1) as nat,
        ) =~= walk_tail_spec(
            ctx.instruction,
            ctx.stack_pointer,
            ctx.frame_pointer,
            modules@,
            cfi_stores@,
            memory,
            (MAX_FRAMES - 1) as nat,
        ));
    }
    while frames.len() < MAX_FRAMES
        invariant
            modules_wf(modules@),
            stores_wf(cfi_stores@),
            ctx.instruction != 0,
            1 <= frames@.len() <= MAX_FRAMES,
            frames@[0].instruction == ctx.instruction,
            frames@[0].trust == FrameTrust::Context,
            forall|j: int|
                1 <= j < frames@.len() ==> (#[trigger] frames@[j]).trust != FrameTrust::Context
                    && frames@[j].trust != FrameTrust::Unknown && frames@[j].instruction != 0,
            forall|j: int|
                0 <= j < frames@.len() ==> (#[trigger] frames@[j]).wf() && attributed(
                    modules@,
                    frames@[j],
                ),
            frames@.len() == 1 ==> ip == ctx.instruction && sp == ctx.stack_pointer && fp
                == ctx.frame_pointer,
            frames@.len() >= 2 ==> match unwind_step_spec(
                ctx.instruction,
                ctx.stack_pointer,
                ctx.frame_pointer,
                modules@,
                cfi_stores@,
                memory,
            ) {
                Some(t) => t.0 != 0 && t.1 > ctx.stack_pointer && frames@[1].instruction == t.0
                    && frames@[1].trust == t.3,
                None => false,
            },
            walk_tail_spec(
                ctx.instruction,
                ctx.stack_pointer,
                ctx.frame_pointer,
                modules@,
                cfi_stores@,
                memory,
                (MAX_FRAMES - 1) as nat,
            ) == frame_pairs(frames@) + walk_tail_spec(
                ip,
                sp,
                fp,
                modules@,
                cfi_stores@,
                memory,
                (MAX_FRAMES - frames@.len()) as nat,
            ),
        ensures
            frames@.len() == 1 ==> match unwind_step_spec(
                ctx.instruction,
                ctx.stack_pointer,
                ctx.frame_pointer,
                modules@,
                cfi_stores@,
                memory,
            ) {
                Some(t) => !(t.0 != 0 && t.1 > ctx.stack_pointer),
                None => true,
            },
            walk_tail_spec(
                ctx.instruction,
                ctx.stack_pointer,
                ctx.frame_pointer,
                modules@,
                cfi_stores@,
                memory,
                (MAX_FRAMES - 1) as nat,
            ) == frame_pairs(frames@),
        decreases MAX_FRAMES - frames@.len(),
    {
        let mut new_ip: u64 = 0;
        let mut new_sp: u64 = 0;
        let mut new_fp: u64 = fp;
        let mut trust: FrameTrust = FrameTrust::Unknown;
        let mut found = false;
        let mut had_cfi = false;
        let ghost step = unwind_step_spec(ip, sp, fp, modules@, cfi_stores@, memory);
        match module_index(modules, ip) {
            Some(k) => {
                proof {
                    lemma_module_index_from_at(modules@, ip, 0, k as int);
                }
                let m = &modules[k];
                match find_store(cfi_stores, &m.id) {
                    Some(store) => {
                        had_cfi = true;
                        match try_cfi(ip, sp, fp, m, store, memory) {
                            Some(t) => {
                                new_ip = t.0;
                                new_sp = t.1;
                                new_fp = t.2;
                                trust = FrameTrust::CFI;
                                found = true;
                            },
                            None => {},
                        }
                        proof {
                            let si = choose|si: int|
                                0 <= si < cfi_stores@.len() && (#[trigger] cfi_stores@[si]).0
                                    == m.id && cfi_stores@[si].1 == *store && store_index_from(
                                    cfi_stores@,
                                    m.id,
                                    0,
                                ) == Some(si);
                            assert(cfi_recover_spec(ip, sp, fp, &modules@[k as int], &cfi_stores@[si].1, memory)
                                == cfi_recover_spec(ip, sp, fp, m, store, memory));
                        }
                    },
                    None => {},
                }
            },
            None => {
                proof {
                    lemma_module_index_from_none(modules@, ip, 0);
                }
            },
        }
        if !found {
            match try_frame_pointer(sp, fp, memory) {
                Some(t) => {
                    new_ip = t.0;
                    new_sp = t.1;
                    new_fp = t.2;
                    trust = FrameTrust::FramePointer;
                    found = true;
                },
                None => {},
            }
        }
        if !found {
            match try_scan(sp, memory, modules, SCAN_WORDS) {
                Some(t) => {
                    new_ip = t.0;
                    new_sp = t.1;
                    trust = if had_cfi {
                        FrameTrust::CFIScan
                    } else {
                        FrameTrust::Scan
                    };
                    found = true;
                },
                None => {},
            }
        }
        proof {
            if found {
                assert(step == Some((new_ip, new_sp, new_fp, trust)));
            } else {
                assert(step is None);
            }
        }
        if !found {
            proof {
                assert(walk_tail_spec(
                    ip,
                    sp,
                    fp,
                    modules@,
                    cfi_stores@,
                    memory,
                    (MAX_FRAMES - frames@.len()) as nat,
                ) =~= Seq::<(u64, FrameTrust)>::empty());
            }
            break;
        }
        if new_ip == 0 || new_sp <= sp {
            proof {
                assert(walk_tail_spec(
                    ip,
                    sp,
                    fp,
                    modules@,
                    cfi_stores@,
                    memory,
                    (MAX_FRAMES - frames@.len()) as nat,
                ) =~= Seq::<(u64, FrameTrust)>::empty());
            }
            break;
        }
        let ghost frames_old = frames@;
        let ghost fuel = (MAX_FRAMES - frames@.len()) as nat;
        proof {
            assert(walk_tail_spec(ip, sp, fp, modules@, cfi_stores@, memory, fuel) == seq![
                (new_ip, trust),
            ] + walk_tail_spec(
                new_ip,
                new_sp,
                new_fp,
                modules@,
                cfi_stores@,
                memory,
                (fuel - 1) as nat,
            ));
        }
        frames.push(make_frame(modules, new_ip, trust));
        ip = new_ip;
        sp = new_sp;
        fp = new_fp;
        proof {
            assert(frame_pairs(frames@) =~= frame_pairs(frames_old).push((new_ip, trust)));
            assert(frame_pairs(frames_old) + (seq![(new_ip, trust)] + walk_tail_spec(
                ip,
                sp,
                fp,
                modules@,
                cfi_stores@,
                memory,
                (fuel - 1) as nat,
            )) =~= frame_pairs(frames@) + walk_tail_spec(
                ip,
                sp,
                fp,
                modules@,
                cfi_stores@,
                memory,
                (fuel - 1) as nat,
            ));
            assert((fuel - 1) as nat == (MAX_FRAMES - frames@.len()) as nat);
        }
    }
    frames
}

} // verus!
