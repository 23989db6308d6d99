//! Decoding of the compact binary minidump layout the crate consumes.
//!
//! This layout is the crate's own interchange format for crash
//! snapshots, not the platform minidump container: container decoding is
//! a collaborator concern outside this crate, and a caller who has a
//! platform dump converts it to this layout first. The layout is
//! sequential and little-endian:
//!
//! - header, 16 bytes: the magic `MDMP`, a format version (1), the module
//!   count, and the thread count, each 32 bits;
//! - per module: base address and size (64 bits each), then four
//!   length-prefixed ASCII strings (16-bit length): code file, code
//!   identifier, debug file, debug identifier;
//! - per thread: thread id (32 bits), a requesting flag (8 bits), the
//!   instruction pointer, stack pointer and frame pointer (64 bits each),
//!   the stack base address (64 bits), the stack byte count (32 bits) and
//!   bytes, then a prewalked-address count (16 bits) and that many 64-bit
//!   addresses.
//!
//! Decoding is tolerant of bad module records (a module whose strings are
//! not ASCII or whose debug identifier does not parse is skipped) and
//! strict about structure: a short or mismatched header, a missing thread
//! list, a truncated thread, or more than one requesting thread each
//! surface as their own failure code.

use vstd::prelude::*;
use vstd::slice::slice_to_vec;

use crate::code_module::CodeModule;
use crate::memory::{
    le_value, lemma_le_value_bound, lemma_pow256_8, lemma_pow256_mono, pow256, StackMemory,
};
use crate::process_state::ProcessResult;
use crate::stack_walker::{modules_wf, Context};
use crate::tokens::{ascii_bytes_to_string, check_ascii};

verus! {

/// The buffer begins with a well-formed header: long enough, the `MDMP`
/// magic, and format version 1.
pub open spec fn header_ok(b: Seq<u8>) -> bool {
    &&& b.len() >= 16
    &&& b[0] == 77
    &&& b[1] == 68
    &&& b[2] == 77
    &&& b[3] == 80
    &&& le_value(b.subrange(4, 8)) == 1
}

/// The module count of a buffer with a well-formed header.
pub open spec fn module_count_of(b: Seq<u8>) -> int {
    le_value(b.subrange(8, 12))
}

/// The thread count of a buffer with a well-formed header.
pub open spec fn thread_count_of(b: Seq<u8>) -> int {
    le_value(b.subrange(12, 16))
}

/// End of the length-prefixed string at `pos`, or -1 when it runs past
/// the buffer.
pub open spec fn string_end(b: Seq<u8>, pos: int) -> int {
    if pos < 0 || pos + 2 > b.len() {
        -1
    } else {
        let sl = le_value(b.subrange(pos, pos + 2));
        if pos + 2 + sl > b.len() {
            -1
        } else {
            pos + 2 + sl
        }
    }
}

/// End of the module record at `pos`, or -1 when it is truncated.
pub open spec fn module_end(b: Seq<u8>, pos: int) -> int {
    if pos < 0 || pos + 16 > b.len() {
        -1
    } else {
        string_end(b, string_end(b, string_end(b, string_end(b, pos + 16))))
    }
}

/// End of `n` consecutive module records starting at `pos`, or -1 when
/// one of them is truncated.
pub open spec fn modules_end(b: Seq<u8>, pos: int, n: int) -> int
    decreases n,
{
    if n <= 0 {
        pos
    } else {
        modules_end(b, module_end(b, pos), n - 1)
    }
}

/// End of the thread record at `pos`, or -1 when it is truncated.
pub open spec fn thread_end(b: Seq<u8>, pos: int) -> int {
    if pos < 0 || pos + 41 > b.len() {
        -1
    } else {
        let sl = le_value(b.subrange(pos + 37, pos + 41));
        if pos + 41 + sl + 2 > b.len() {
            -1
        } else {
            let pc = le_value(b.subrange(pos + 41 + sl, pos + 41 + sl + 2));
            if pos + 41 + sl + 2 + 8 * pc > b.len() {
                -1
            } else {
                pos + 41 + sl + 2 + 8 * pc
            }
        }
    }
}

/// All of `t` consecutive thread records starting at `pos` are intact.
pub open spec fn threads_ok_from(b: Seq<u8>, pos: int, t: int) -> bool
    decreases t,
{
    t <= 0 || (thread_end(b, pos) >= 0 && threads_ok_from(b, thread_end(b, pos), t - 1))
}

/// Walking `t` thread records from `pos`, the first structural failure is
/// a thread whose id cannot even be read.
pub open spec fn threads_bad_id_from(b: Seq<u8>, pos: int, t: int) -> bool
    decreases t,
{
    if t <= 0 {
        false
    } else if pos < 0 || pos + 4 > b.len() {
        true
    } else if thread_end(b, pos) < 0 {
        false
    } else {
        threads_bad_id_from(b, thread_end(b, pos), t - 1)
    }
}

/// Position of thread record `i` among records starting at `start`.
pub open spec fn thread_pos(b: Seq<u8>, start: int, i: int) -> int
    decreases i,
{
    if i <= 0 {
        start
    } else {
        thread_pos(b, thread_end(b, start), i - 1)
    }
}

/// How many of `t` consecutive thread records carry a set requesting
/// flag.
pub open spec fn requesting_count(b: Seq<u8>, pos: int, t: int) -> int
    decreases t,
{
    if t <= 0 {
        0
    } else {
        (if 0 <= pos + 4 < b.len() && b[pos + 4] != 0 {
            1int
        } else {
            0
        }) + requesting_count(b, thread_end(b, pos), t - 1)
    }
}

/// The buffer is a structurally well-formed dump: a sound header, at
/// least one thread, intact module and thread sections, and at most one
/// requesting thread.
pub open spec fn dump_ok(b: Seq<u8>) -> bool {
    &&& header_ok(b)
    &&& thread_count_of(b) >= 1
    &&& modules_end(b, 16, module_count_of(b)) >= 0
    &&& threads_ok_from(b, modules_end(b, 16, module_count_of(b)), thread_count_of(b))
    &&& requesting_count(b, modules_end(b, 16, module_count_of(b)), thread_count_of(b)) <= 1
}

/// The thread id stored at thread position `tp`.
pub open spec fn thread_id_at(b: Seq<u8>, tp: int) -> int {
    le_value(b.subrange(tp, tp + 4))
}

/// The requesting flag stored at thread position `tp`.
pub open spec fn thread_requesting_at(b: Seq<u8>, tp: int) -> bool {
    b[tp + 4] != 0
}

/// The register context stored at thread position `tp`.
pub open spec fn thread_context_at(b: Seq<u8>, tp: int) -> Context {
    Context {
        instruction: le_value(b.subrange(tp + 5, tp + 13)) as u64,
        stack_pointer: le_value(b.subrange(tp + 13, tp + 21)) as u64,
        frame_pointer: le_value(b.subrange(tp + 21, tp + 29)) as u64,
    }
}

/// The stack base address stored at thread position `tp`.
pub open spec fn thread_stack_base_at(b: Seq<u8>, tp: int) -> int {
    le_value(b.subrange(tp + 29, tp + 37))
}

/// The stack memory excerpt stored at thread position `tp`.
pub open spec fn thread_stack_at(b: Seq<u8>, tp: int) -> Seq<u8> {
    b.subrange(tp + 41, tp + 41 + le_value(b.subrange(tp + 37, tp + 41)))
}

proof fn lemma_modules_end_neg(b: Seq<u8>, pos: int, n: int)
    requires
        pos < 0,
        n >= 1,
    ensures
        modules_end(b, pos, n) == -1,
    decreases n,
{
    assert(module_end(b, pos) == -1);
    if n == 1 {
        assert(modules_end(b, pos, 1) == modules_end(b, -1, 0));
    } else {
        lemma_modules_end_neg(b, -1, n - 1);
    }
}

proof fn lemma_thread_pos_step(b: Seq<u8>, start: int, i: int)
    requires
        i >= 0,
    ensures
        thread_pos(b, start, i + 1) == thread_end(b, thread_pos(b, start, i)),
    decreases i,
{
    if i == 0 {
        assert(thread_pos(b, start, 1) == thread_pos(b, thread_end(b, start), 0));
    } else {
        lemma_thread_pos_step(b, thread_end(b, start), i - 1);
        assert(thread_pos(b, start, i + 1) == thread_pos(b, thread_end(b, start), i));
        assert(thread_pos(b, start, i) == thread_pos(b, thread_end(b, start), i - 1));
    }
}

/// The decoded state of one thread.
#[derive(Debug)]
pub struct ThreadData {
    pub thread_id: u32,
    pub requesting: bool,
    pub context: Context,
    pub memory: StackMemory,
    pub prewalked: Vec<u64>,
}

/// Everything a dump supplies: the loaded modules and the threads.
#[derive(Debug)]
pub struct DumpData {
    pub modules: Vec<CodeModule>,
    pub threads: Vec<ThreadData>,
}

proof fn lemma_le_fits(s: Seq<u8>, n: nat)
    requires
        s.len() == n,
        n <= 8,
    ensures
        0 <= le_value(s) < pow256(n),
        pow256(n) <= 0x1_0000_0000_0000_0000,
{
    lemma_le_value_bound(s);
    lemma_pow256_8();
    assert(pow256(8) == 256 * pow256(7));
    assert(pow256(7) == 256 * pow256(6));
    assert(pow256(6) == 256 * pow256(5));
    assert(pow256(5) == 256 * pow256(4));
    assert(pow256(4) == 256 * pow256(3));
    assert(pow256(3) == 256 * pow256(2));
    assert(pow256(2) == 256 * pow256(1));
    assert(pow256(1) == 256 * pow256(0));
}

/// Reads `width` little-endian bytes at `pos` as an integer, returning
/// the value and the position after it; fails exactly when they run past
/// the end of the buffer.
fn read_le(buf: &[u8], pos: usize, width: usize) -> (r: Option<(u64, usize)>)
    requires
        1 <= width <= 8,
    ensures
        match r {
            Some(t) => {
                &&& pos + width <= buf@.len()
                &&& t.1 == pos + width
                &&& t.0 == le_value(buf@.subrange(pos as int, pos + width))
                &&& (width <= 4 ==> t.0 <= 0xFFFF_FFFFu64)
                &&& (width <= 2 ==> t.0 <= 0xFFFFu64)
                &&& (width <= 1 ==> t.0 <= 0xFFu64)
            },
            None => pos + width > buf@.len(),
        },
{
    let n = buf.len();
    if pos >= n || n - pos < width {
        return None;
    }
    let ghost w = buf@.subrange(pos as int, pos + width);
    proof {
        lemma_le_fits(w, width as nat);
    }
    let mut acc: u64 = 0;
    let mut i: usize = width;
    while i > 0
        invariant
            0 <= i <= width,
            1 <= width <= 8,
            pos + width <= n,
            n == buf@.len(),
            w == buf@.subrange(pos as int, pos + width),
            acc == le_value(w.skip(i as int)),
            acc < pow256((width - i) as nat),
        decreases i,
    {
        proof {
            lemma_le_value_bound(w.skip(i - 1));
            assert(w.skip(i - 1).skip(1) =~= w.skip(i as int));
            assert(w.skip(i - 1)[0] == w[i - 1]);
            assert(le_value(w.skip(i - 1)) == w[i - 1] + 256 * le_value(w.skip(i as int)));
            lemma_le_fits(w, width as nat);
            assert(pow256((width - i + 1) as nat) == 256 * pow256((width - i) as nat));
            lemma_pow256_mono((width - i + 1) as nat, 8);
            lemma_pow256_8();
        }
        let b = buf[pos + i - 1];
        assert(b == w[i - 1]);
        acc = acc * 256 + (b as u64);
        i = i - 1;
    }
    proof {
        assert(w.skip(0) =~= w);
        lemma_le_value_bound(w);
        assert(pow256(4) == 0x1_0000_0000) by {
            assert(pow256(4) == 256 * pow256(3));
            assert(pow256(3) == 256 * pow256(2));
            assert(pow256(2) == 256 * pow256(1));
            assert(pow256(1) == 256 * pow256(0));
        }
        assert(pow256(2) == 0x1_0000) by {
            assert(pow256(2) == 256 * pow256(1));
            assert(pow256(1) == 256 * pow256(0));
        }
        assert(pow256(1) == 256);
        if width <= 4 {
            lemma_pow256_mono(width as nat, 4);
        }
        if width <= 2 {
            lemma_pow256_mono(width as nat, 2);
        }
    }
    Some((acc, pos + width))
}

/// Reads one length-prefixed ASCII string. Fails exactly on truncation;
/// a non-ASCII payload is consumed but yields no string.
fn read_string(buf: &[u8], pos: usize) -> (r: Option<(Option<String>, usize)>)
    ensures
        (r is Some) == (string_end(buf@, pos as int) >= 0),
        match r {
            Some(t) => {
                &&& t.1 == string_end(buf@, pos as int)
                &&& pos + 2 <= t.1 <= buf@.len()
            },
            None => true,
        },
{
    let (len64, p) = match read_le(buf, pos, 2) {
        Some(t) => t,
        None => {
            return None;
        },
    };
    let len = len64 as usize;
    let n = buf.len();
    if n - p < len {
        return None;
    }
    let bytes = &buf[p..p + len];
    if check_ascii(bytes) {
        Some((Some(ascii_bytes_to_string(bytes)), p + len))
    } else {
        Some((None, p + len))
    }
}

/// Decodes a whole dump buffer into modules and threads.
///
/// Decoding succeeds exactly on structurally well-formed buffers
/// ([`dump_ok`]), and each failure code is tied to its defect: a missing
/// or mismatched header is `NoMinidumpHeader`; a sound header with a zero
/// thread count, or a dump truncated inside the module section, is
/// `ErrorNoThreadList`; a thread whose id cannot even be read is
/// `ErrorGettingThreadId`; a thread truncated later is
/// `ErrorGettingThread`; two threads marked as requesting are
/// `DuplicateRequestingThreads`. On success every decoded thread carries
/// exactly the id, requesting flag, register context and stack excerpt
/// stored at its record position.
pub fn decode_dump(buffer: &[u8]) -> (r: Result<DumpData, ProcessResult>)
    ensures
        (r is Ok) == dump_ok(buffer@),
        match r {
            Ok(d) => {
                let me = modules_end(buffer@, 16, module_count_of(buffer@));
                &&& header_ok(buffer@)
                &&& thread_count_of(buffer@) >= 1
                &&& d.threads@.len() == thread_count_of(buffer@)
                &&& modules_wf(d.modules@)
                &&& forall|i: int|
                    0 <= i < d.threads@.len() ==> {
                        let tp = thread_pos(buffer@, me, i);
                        &&& (#[trigger] d.threads@[i]).thread_id == thread_id_at(buffer@, tp)
                        &&& d.threads@[i].requesting == thread_requesting_at(buffer@, tp)
                        &&& d.threads@[i].context == thread_context_at(buffer@, tp)
                        &&& d.threads@[i].memory.base == thread_stack_base_at(buffer@, tp)
                        &&& d.threads@[i].memory.bytes@ == thread_stack_at(buffer@, tp)
                    }
            },
            Err(pr) => {
                let me = modules_end(buffer@, 16, module_count_of(buffer@));
                let tc = thread_count_of(buffer@);
                &&& (pr is NoMinidumpHeader <==> !header_ok(buffer@))
                &&& (pr is ErrorNoThreadList <==> header_ok(buffer@) && (tc == 0 || me < 0))
                &&& (pr is ErrorGettingThreadId <==> header_ok(buffer@) && tc >= 1 && me >= 0
                    && threads_bad_id_from(buffer@, me, tc))
                &&& (pr is ErrorGettingThread <==> header_ok(buffer@) && tc >= 1 && me >= 0
                    && !threads_ok_from(buffer@, me, tc) && !threads_bad_id_from(buffer@, me, tc))
                &&& (pr is DuplicateRequestingThreads <==> header_ok(buffer@) && tc >= 1 && me
                    >= 0 && threads_ok_from(buffer@, me, tc) && requesting_count(buffer@, me, tc)
                    > 1)
                &&& (pr is NoMinidumpHeader || pr is ErrorNoThreadList || pr
                    is ErrorGettingThreadId || pr is ErrorGettingThread || pr
                    is DuplicateRequestingThreads)
            },
        },
{
    let n = buffer.len();
    if n < 16 || !(buffer[0] == 77 && buffer[1] == 68 && buffer[2] == 77 && buffer[3] == 80) {
        return Err(ProcessResult::NoMinidumpHeader);
    }
    let version = match read_le(buffer, 4, 4) {
        Some(t) => t.0,
        None => {
            return Err(ProcessResult::NoMinidumpHeader);
        },
    };
    if version != 1 {
        return Err(ProcessResult::NoMinidumpHeader);
    }
    let module_count = match read_le(buffer, 8, 4) {
        Some(t) => t.0,
        None => {
            return Err(ProcessResult::NoMinidumpHeader);
        },
    };
    let thread_count = match read_le(buffer, 12, 4) {
        Some(t) => t.0,
        None => {
            return Err(ProcessResult::NoMinidumpHeader);
        },
    };
    proof {
        assert(header_ok(buffer@));
    }
    if thread_count == 0 {
        return Err(ProcessResult::ErrorNoThreadList);
    }
    let ghost me_full = modules_end(buffer@, 16, module_count_of(buffer@));
    let mut pos: usize = 16;
    let mut modules: Vec<CodeModule> = Vec::new();
    let mut m: u64 = 0;
    while m < module_count
        invariant
            16 <= pos <= n,
            n == buffer@.len(),
            0 <= m <= module_count,
            modules_wf(modules@),
            header_ok(buffer@),
            module_count == module_count_of(buffer@),
            thread_count == thread_count_of(buffer@),
            thread_count >= 1,
            me_full == modules_end(buffer@, 16, module_count_of(buffer@)),
            me_full == modules_end(buffer@, pos as int, module_count - m),
        decreases module_count - m,
    {
        let ghost pos0 = pos as int;
        let ghost rem = module_count - m;
        let (base_address, p0) = match read_le(buffer, pos, 8) {
            Some(t) => t,
            None => {
                proof {
                    assert(module_end(buffer@, pos0) == -1);
                    assert(me_full == modules_end(buffer@, module_end(buffer@, pos0), rem - 1));
                    if rem >= 2 {
                        lemma_modules_end_neg(buffer@, module_end(buffer@, pos0), rem - 1);
                    }
                    assert(me_full < 0);
                }
                return Err(ProcessResult::ErrorNoThreadList);
            },
        };
        let (size, p1) = match read_le(buffer, p0, 8) {
            Some(t) => t,
            None => {
                proof {
                    assert(module_end(buffer@, pos0) == -1);
                    assert(me_full == modules_end(buffer@, module_end(buffer@, pos0), rem - 1));
                    if rem >= 2 {
                        lemma_modules_end_neg(buffer@, module_end(buffer@, pos0), rem - 1);
                    }
                    assert(me_full < 0);
                }
                return Err(ProcessResult::ErrorNoThreadList);
            },
        };
        let (code_file, p2) = match read_string(buffer, p1) {
            Some(t) => t,
            None => {
                proof {
                    assert(string_end(buffer@, p1 as int) < 0);
                    assert(module_end(buffer@, pos0) == -1);
                    assert(me_full == modules_end(buffer@, module_end(buffer@, pos0), rem - 1));
                    if rem >= 2 {
                        lemma_modules_end_neg(buffer@, module_end(buffer@, pos0), rem - 1);
                    }
                    assert(me_full < 0);
                }
                return Err(ProcessResult::ErrorNoThreadList);
            },
        };
        let (code_identifier, p3) = match read_string(buffer, p2) {
            Some(t) => t,
            None => {
                proof {
                    assert(string_end(buffer@, p2 as int) < 0);
                    assert(module_end(buffer@, pos0) == -1);
                    assert(me_full == modules_end(buffer@, module_end(buffer@, pos0), rem - 1));
                    if rem >= 2 {
                        lemma_modules_end_neg(buffer@, module_end(buffer@, pos0), rem - 1);
                    }
                    assert(me_full < 0);
                }
                return Err(ProcessResult::ErrorNoThreadList);
            },
        };
        let (debug_file, p4) = match read_string(buffer, p3) {
            Some(t) => t,
            None => {
                proof {
                    assert(string_end(buffer@, p3 as int) < 0);
                    assert(module_end(buffer@, pos0) == -1);
                    assert(me_full == modules_end(buffer@, module_end(buffer@, pos0), rem - 1));
                    if rem >= 2 {
                        lemma_modules_end_neg(buffer@, module_end(buffer@, pos0), rem - 1);
                    }
                    assert(me_full < 0);
                }
                return Err(ProcessResult::ErrorNoThreadList);
            },
        };
        let (debug_identifier, p5) = match read_string(buffer, p4) {
            Some(t) => t,
            None => {
                proof {
                    assert(string_end(buffer@, p4 as int) < 0);
                    assert(module_end(buffer@, pos0) < 0);
                    assert(me_full == modules_end(buffer@, module_end(buffer@, pos0), rem - 1));
                    if rem >= 2 {
                        lemma_modules_end_neg(buffer@, module_end(buffer@, pos0), rem - 1);
                    }
                    assert(me_full < 0);
                }
                return Err(ProcessResult::ErrorNoThreadList);
            },
        };
        match (code_file, code_identifier, debug_file, debug_identifier) {
            (Some(cf), Some(ci), Some(df), Some(di)) => {
                match CodeModule::new(base_address, size, cf, ci, df, di) {
                    Some(module) => {
                        modules.push(module);
                    },
                    None => {},
                }
            },
            _ => {},
        }
        proof {
            assert(module_end(buffer@, pos0) == p5);
            assert(me_full == modules_end(buffer@, p5 as int, rem - 1));
        }
        pos = p5;
        m = m + 1;
    }
    proof {
        assert(me_full == pos as int);
    }
    let ghost me = pos as int;
    let mut threads: Vec<ThreadData> = Vec::new();
    let mut requesting_seen: u64 = 0;
    let mut t: u64 = 0;
    while t < thread_count
        invariant
            pos <= n,
            n == buffer@.len(),
            0 <= t <= thread_count,
            threads@.len() == t,
            requesting_seen <= t,
            header_ok(buffer@),
            module_count == module_count_of(buffer@),
            thread_count == thread_count_of(buffer@),
            thread_count >= 1,
            me == modules_end(buffer@, 16, module_count_of(buffer@)),
            me >= 0,
            pos as int == thread_pos(buffer@, me, t as int),
            threads_ok_from(buffer@, me, thread_count as int) == threads_ok_from(
                buffer@,
                pos as int,
                thread_count - t,
            ),
            threads_bad_id_from(buffer@, me, thread_count as int) == threads_bad_id_from(
                buffer@,
                pos as int,
                thread_count - t,
            ),
            requesting_count(buffer@, me, thread_count as int) == requesting_seen
                + requesting_count(buffer@, pos as int, thread_count - t),
            forall|i: int|
                0 <= i < t ==> {
                    let tp = thread_pos(buffer@, me, i);
                    &&& (#[trigger] threads@[i]).thread_id == thread_id_at(buffer@, tp)
                    &&& threads@[i].requesting == thread_requesting_at(buffer@, tp)
                    &&& threads@[i].context == thread_context_at(buffer@, tp)
                    &&& threads@[i].memory.base == thread_stack_base_at(buffer@, tp)
                    &&& threads@[i].memory.bytes@ == thread_stack_at(buffer@, tp)
                },
        decreases thread_count - t,
    {
        let ghost pos0 = pos as int;
        let ghost rem = thread_count - t;
        let (tid64, q0) = match read_le(buffer, pos, 4) {
            Some(t) => t,
            None => {
                proof {
                    assert(thread_end(buffer@, pos0) == -1);
                    assert(threads_bad_id_from(buffer@, pos0, rem));
                }
                return Err(ProcessResult::ErrorGettingThreadId);
            },
        };
        let thread_id = tid64 as u32;
        let (req, q1) = match read_le(buffer, q0, 1) {
            Some(t) => t,
            None => {
                proof {
                    assert(thread_end(buffer@, pos0) == -1);
                    assert(!threads_bad_id_from(buffer@, pos0, rem));
                }
                return Err(ProcessResult::ErrorGettingThread);
            },
        };
        let requesting = req != 0;
        let (instruction, q2) = match read_le(buffer, q1, 8) {
            Some(t) => t,
            None => {
                proof {
                    assert(thread_end(buffer@, pos0) == -1);
                    assert(!threads_bad_id_from(buffer@, pos0, rem));
                }
                return Err(ProcessResult::ErrorGettingThread);
            },
        };
        let (stack_pointer, q3) = match read_le(buffer, q2, 8) {
            Some(t) => t,
            None => {
                proof {
                    assert(thread_end(buffer@, pos0) == -1);
                    assert(!threads_bad_id_from(buffer@, pos0, rem));
                }
                return Err(ProcessResult::ErrorGettingThread);
            },
        };
        let (frame_pointer, q4) = match read_le(buffer, q3, 8) {
            Some(t) => t,
            None => {
                proof {
                    assert(thread_end(buffer@, pos0) == -1);
                    assert(!threads_bad_id_from(buffer@, pos0, rem));
                }
                return Err(ProcessResult::ErrorGettingThread);
            },
        };
        let (stack_base, q5) = match read_le(buffer, q4, 8) {
            Some(t) => t,
            None => {
                proof {
                    assert(thread_end(buffer@, pos0) == -1);
                    assert(!threads_bad_id_from(buffer@, pos0, rem));
                }
                return Err(ProcessResult::ErrorGettingThread);
            },
        };
        let (stack_len64, q6) = match read_le(buffer, q5, 4) {
            Some(t) => t,
            None => {
                proof {
                    assert(thread_end(buffer@, pos0) == -1);
                    assert(!threads_bad_id_from(buffer@, pos0, rem));
                }
                return Err(ProcessResult::ErrorGettingThread);
            },
        };
        let stack_len = stack_len64 as usize;
        let n2 = buffer.len();
        if n2 - q6 < stack_len {
            proof {
                assert(thread_end(buffer@, pos0) == -1);
                assert(!threads_bad_id_from(buffer@, pos0, rem));
            }
            return Err(ProcessResult::ErrorGettingThread);
        }
        let stack_bytes = slice_to_vec(&buffer[q6..q6 + stack_len]);
        let (prewalked_count, q7) = match read_le(buffer, q6 + stack_len, 2) {
            Some(t) => t,
            None => {
                proof {
                    assert(thread_end(buffer@, pos0) == -1);
                    assert(!threads_bad_id_from(buffer@, pos0, rem));
                }
                return Err(ProcessResult::ErrorGettingThread);
            },
        };
        let mut p = q7;
        let mut prewalked: Vec<u64> = Vec::new();
        let mut k: u64 = 0;
        while k < prewalked_count
            invariant
                0 <= k <= prewalked_count,
                p == q7 + 8 * k,
                q7 >= 2,
                p <= buffer@.len(),
                n == buffer@.len(),
                pos0 + 41 <= buffer@.len(),
                q7 == pos0 + 41 + le_value(buffer@.subrange(pos0 + 37, pos0 + 41)) + 2,
                prewalked_count == le_value(
                    buffer@.subrange(q7 - 2, q7 as int),
                ),
                header_ok(buffer@),
                thread_count_of(buffer@) >= 1,
                me == modules_end(buffer@, 16, module_count_of(buffer@)),
                me >= 0,
                threads_bad_id_from(buffer@, me, thread_count_of(buffer@))
                    == threads_bad_id_from(buffer@, pos0, rem),
                threads_ok_from(buffer@, me, thread_count_of(buffer@)) == threads_ok_from(
                    buffer@,
                    pos0,
                    rem,
                ),
                rem >= 1,
                pos0 >= 0,
                pos0 + 4 <= buffer@.len(),
            decreases prewalked_count - k,
        {
            let (a, pn) = match read_le(buffer, p, 8) {
                Some(t) => t,
                None => {
                    proof {
                        assert(pos0 + 41 + le_value(buffer@.subrange(pos0 + 37, pos0 + 41)) + 2
                            + 8 * le_value(buffer@.subrange(q7 - 2, q7 as int)) > buffer@.len());
                        assert(thread_end(buffer@, pos0) == -1);
                        assert(!threads_bad_id_from(buffer@, pos0, rem));
                    }
                    return Err(ProcessResult::ErrorGettingThread);
                },
            };
            prewalked.push(a);
            p = pn;
            k = k + 1;
        }
        if requesting {
            requesting_seen = requesting_seen + 1;
        }
        proof {
            assert(thread_end(buffer@, pos0) == p);
            assert(buffer@.subrange(pos0 + 4, pos0 + 5)[0] == buffer@[pos0 + 4]);
            lemma_thread_pos_step(buffer@, me, t as int);
        }
        threads.push(
            ThreadData {
                thread_id,
                requesting,
                context: Context { instruction, stack_pointer, frame_pointer },
                memory: StackMemory { base: stack_base, bytes: stack_bytes },
                prewalked,
            },
        );
        pos = p;
        t = t + 1;
        proof {
            assert forall|i: int|
                0 <= i < t implies {
                let tp = thread_pos(buffer@, me, i);
                &&& (#[trigger] threads@[i]).thread_id == thread_id_at(buffer@, tp)
                &&& threads@[i].requesting == thread_requesting_at(buffer@, tp)
                &&& threads@[i].context == thread_context_at(buffer@, tp)
                &&& threads@[i].memory.base == thread_stack_base_at(buffer@, tp)
                &&& threads@[i].memory.bytes@ == thread_stack_at(buffer@, tp)
            } by {
                if i < t - 1 {
                    assert(threads@[i] == threads@.drop_last()[i]);
                }
            }
        }
    }
    if requesting_seen > 1 {
        return Err(ProcessResult::DuplicateRequestingThreads);
    }
    Ok(DumpData { modules, threads })
}

} // verus!
