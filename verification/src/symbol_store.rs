//! Parsing and indexing of Breakpad-style text symbol files.
//!
//! A symbol file is line-oriented: `MODULE`, `FILE`, `FUNC` (with line-data
//! continuation records), `PUBLIC`, `STACK CFI INIT` / `STACK CFI` and
//! `STACK WIN` records, one per line, with hexadecimal addresses and sizes
//! and decimal line numbers and file indices. The store is tolerant:
//! malformed or unknown lines are skipped, and only the absence of any
//! `MODULE` line marks the store as corrupt.
//!
//! Records with overlapping ranges are tolerated; lookups select the
//! record with the lowest start address whose range contains the queried
//! address (documented policy; well-formed files have disjoint ranges).

use vstd::prelude::*;
use vstd::string::StringExecFns;

use crate::digits::{
    all_dec_bytes, all_hex_bytes, dec_bytes_value, hex_bytes_value, is_hex_byte,
    parse_dec_bytes_u32, parse_hex_bytes_u64,
};
use crate::tokens::{
    all_ascii, ascii_bytes_to_string, ascii_chars, cfi_keyword, check_ascii, file_keyword,
    first_token, func_keyword, init_keyword, is_kw_cfi, is_kw_file, is_kw_func, is_kw_init,
    is_kw_module, is_kw_public, is_kw_stack, is_kw_win, lemma_find_nl_eq, lines_of,
    module_keyword, next_token, public_keyword, rest_after_token, rest_bounds, stack_keyword,
    trimmed_rest, win_keyword,
};

verus! {

/// One source-line record inside a function: a sub-range of the function
/// mapped to a line of a source file.
#[derive(Debug, PartialEq, Eq, Structural, Clone, Copy)]
pub struct LineRecord {
    pub address: u64,
    pub size: u64,
    pub line: u32,
    pub file_index: u32,
}

/// A `FUNC` record: an address range, parameter size, display name, and
/// the source-line sub-ranges that followed it.
#[derive(Debug)]
pub struct FuncRecord {
    pub address: u64,
    pub size: u64,
    pub param_size: u64,
    pub name: String,
    pub lines: Vec<LineRecord>,
}

/// A `PUBLIC` record: a symbol with no size or line information.
#[derive(Debug)]
pub struct PublicRecord {
    pub address: u64,
    pub param_size: u64,
    pub name: String,
}

/// A `FILE` record: a source path referenced by line records.
#[derive(Debug)]
pub struct FileRecord {
    pub index: u32,
    pub path: String,
}

/// An incremental `STACK CFI` rule update inside an `INIT` window.
#[derive(Debug)]
pub struct CfiDelta {
    pub address: u64,
    pub rules: String,
}

/// A `STACK CFI INIT` record: a call-frame-information program valid over
/// an address range, with its incremental updates.
#[derive(Debug)]
pub struct CfiRecord {
    pub address: u64,
    pub size: u64,
    pub rules: String,
    pub deltas: Vec<CfiDelta>,
}

/// A `STACK WIN` record, kept verbatim.
#[derive(Debug)]
pub struct WinRecord {
    pub wtype: u64,
    pub address: u64,
    pub size: u64,
    pub info: String,
}

/// `addr` lies inside the function's range.
pub open spec fn func_contains(f: &FuncRecord, addr: u64) -> bool {
    f.address <= addr && addr < f.address + f.size
}

/// `addr` lies inside the line record's range.
pub open spec fn line_contains(l: LineRecord, addr: u64) -> bool {
    l.address <= addr && addr < l.address + l.size
}

/// `addr` lies inside the CFI window.
pub open spec fn cfi_contains(c: &CfiRecord, addr: u64) -> bool {
    c.address <= addr && addr < c.address + c.size
}

pub open spec fn funcs_sorted(s: Seq<FuncRecord>) -> bool {
    forall|i: int, j: int| 0 <= i < j < s.len() ==> s[i].address <= s[j].address
}

pub open spec fn publics_sorted(s: Seq<PublicRecord>) -> bool {
    forall|i: int, j: int| 0 <= i < j < s.len() ==> s[i].address <= s[j].address
}

pub open spec fn cfi_sorted(s: Seq<CfiRecord>) -> bool {
    forall|i: int, j: int| 0 <= i < j < s.len() ==> s[i].address <= s[j].address
}

/// The effective rule text of window `c` at `addr`, considering the first
/// `k` deltas: the initial rules followed by every delta whose address is
/// at or below `addr`, in file order, separated by single spaces.
pub open spec fn cfi_effective_upto(c: &CfiRecord, addr: u64, k: int) -> Seq<char>
    decreases k,
{
    if k <= 0 {
        c.rules@
    } else {
        let p = cfi_effective_upto(c, addr, k - 1);
        if c.deltas[k - 1].address <= addr {
            p + seq![' '] + c.deltas[k - 1].rules@
        } else {
            p
        }
    }
}

/// Index of the first CFI window at or after `k` containing `addr`.
pub open spec fn cfi_window_from(s: Seq<CfiRecord>, addr: u64, k: int) -> Option<int>
    decreases s.len() - k,
{
    if k < 0 || k >= s.len() {
        None
    } else if cfi_contains(&s[k], addr) {
        Some(k)
    } else {
        cfi_window_from(s, addr, k + 1)
    }
}

/// The effective CFI program text at `addr`: the rules of the first
/// window containing it, with every applicable update applied, or
/// nothing when no window covers it.
pub open spec fn find_cfi_spec(store: &SymbolStore, addr: u64) -> Option<Seq<char>> {
    match cfi_window_from(store.cfi@, addr, 0) {
        Some(i) => Some(
            cfi_effective_upto(&store.cfi@[i], addr, store.cfi@[i].deltas@.len() as int),
        ),
        None => None,
    }
}

proof fn lemma_cfi_window_from_at(s: Seq<CfiRecord>, addr: u64, k: int, i: int)
    requires
        0 <= k <= i < s.len(),
        cfi_contains(&s[i], addr),
        forall|j: int| k <= j < i ==> !cfi_contains(&#[trigger] s[j], addr),
    ensures
        cfi_window_from(s, addr, k) == Some(i),
    decreases i - k,
{
    if k < i {
        lemma_cfi_window_from_at(s, addr, k + 1, i);
    }
}

proof fn lemma_cfi_window_from_none(s: Seq<CfiRecord>, addr: u64, k: int)
    requires
        0 <= k,
        forall|j: int| k <= j < s.len() ==> !cfi_contains(&#[trigger] s[j], addr),
    ensures
        cfi_window_from(s, addr, k) is None,
    decreases s.len() - k,
{
    if k < s.len() {
        lemma_cfi_window_from_none(s, addr, k + 1);
    }
}

/// The value of a whole hexadecimal field, when it is one.
pub open spec fn hex_token_value(t: Seq<u8>) -> Option<u64> {
    if t.len() > 0 && all_hex_bytes(t) && hex_bytes_value(t) <= u64::MAX {
        Some(hex_bytes_value(t) as u64)
    } else {
        None
    }
}

/// The header a well-formed `FUNC` line declares: address, size,
/// parameter size, and the raw name field.
pub open spec fn func_header_of(l: Seq<u8>) -> Option<(u64, u64, u64, Seq<u8>)> {
    let t0 = first_token(l);
    let r0 = rest_after_token(l);
    let t1 = first_token(r0);
    let r1 = rest_after_token(r0);
    let t2 = first_token(r1);
    let r2 = rest_after_token(r1);
    let t3 = first_token(r2);
    let r3 = rest_after_token(r2);
    if t0 == func_keyword() {
        match (hex_token_value(t1), hex_token_value(t2), hex_token_value(t3)) {
            (Some(a), Some(sz), Some(p)) => Some((a, sz, p, trimmed_rest(r3))),
            _ => None,
        }
    } else {
        None
    }
}

/// The header a well-formed `PUBLIC` line declares: address, parameter
/// size, and the raw name field.
pub open spec fn public_header_of(l: Seq<u8>) -> Option<(u64, u64, Seq<u8>)> {
    let t0 = first_token(l);
    let r0 = rest_after_token(l);
    let t1 = first_token(r0);
    let r1 = rest_after_token(r0);
    let t2 = first_token(r1);
    let r2 = rest_after_token(r1);
    if t0 == public_keyword() {
        match (hex_token_value(t1), hex_token_value(t2)) {
            (Some(a), Some(p)) => Some((a, p, trimmed_rest(r2))),
            _ => None,
        }
    } else {
        None
    }
}

/// The header a well-formed `STACK CFI INIT` line declares: address,
/// size, and the raw rule text.
pub open spec fn cfi_init_of(l: Seq<u8>) -> Option<(u64, u64, Seq<u8>)> {
    let t0 = first_token(l);
    let r0 = rest_after_token(l);
    let t1 = first_token(r0);
    let r1 = rest_after_token(r0);
    let t2 = first_token(r1);
    let r2 = rest_after_token(r1);
    let t3 = first_token(r2);
    let r3 = rest_after_token(r2);
    let t4 = first_token(r3);
    let r4 = rest_after_token(r3);
    if t0 == stack_keyword() && t1 == cfi_keyword() && t2 == init_keyword() {
        match (hex_token_value(t3), hex_token_value(t4)) {
            (Some(a), Some(sz)) => Some((a, sz, trimmed_rest(r4))),
            _ => None,
        }
    } else {
        None
    }
}

/// The value of a whole decimal field that fits 32 bits, when it is one.
pub open spec fn dec_token_value(t: Seq<u8>) -> Option<u32> {
    if t.len() > 0 && all_dec_bytes(t) && dec_bytes_value(t) <= u32::MAX {
        Some(dec_bytes_value(t) as u32)
    } else {
        None
    }
}

/// The content a well-formed `FILE` line declares: index and raw path.
pub open spec fn file_header_of(l: Seq<u8>) -> Option<(u32, Seq<u8>)> {
    let t0 = first_token(l);
    let r0 = rest_after_token(l);
    let t1 = first_token(r0);
    let r1 = rest_after_token(r0);
    if t0 == file_keyword() {
        match dec_token_value(t1) {
            Some(i) => Some((i, trimmed_rest(r1))),
            None => None,
        }
    } else {
        None
    }
}

/// The content a well-formed `STACK WIN` line declares: type, address,
/// size, and the raw trailing data.
pub open spec fn win_header_of(l: Seq<u8>) -> Option<(u64, u64, u64, Seq<u8>)> {
    let t0 = first_token(l);
    let r0 = rest_after_token(l);
    let t1 = first_token(r0);
    let r1 = rest_after_token(r0);
    let t2 = first_token(r1);
    let r2 = rest_after_token(r1);
    let t3 = first_token(r2);
    let r3 = rest_after_token(r2);
    let t4 = first_token(r3);
    let r4 = rest_after_token(r3);
    if t0 == stack_keyword() && t1 == win_keyword() {
        match (hex_token_value(t2), hex_token_value(t3), hex_token_value(t4)) {
            (Some(w), Some(a), Some(sz)) => Some((w, a, sz, trimmed_rest(r4))),
            _ => None,
        }
    } else {
        None
    }
}

/// `f` is an element of `s`.
pub open spec fn func_in(s: Seq<FuncRecord>, f: FuncRecord) -> bool {
    exists|i: int| 0 <= i < s.len() && s[i] == f
}

/// `p` is an element of `s`.
pub open spec fn public_in(s: Seq<PublicRecord>, p: PublicRecord) -> bool {
    exists|i: int| 0 <= i < s.len() && s[i] == p
}

/// `c` is an element of `s`.
pub open spec fn cfi_in(s: Seq<CfiRecord>, c: CfiRecord) -> bool {
    exists|i: int| 0 <= i < s.len() && s[i] == c
}

/// `fr` is an element of `s`.
pub open spec fn file_in(s: Seq<FileRecord>, fr: FileRecord) -> bool {
    exists|i: int| 0 <= i < s.len() && s[i] == fr
}

/// `w` is an element of `s`.
pub open spec fn win_in(s: Seq<WinRecord>, w: WinRecord) -> bool {
    exists|i: int| 0 <= i < s.len() && s[i] == w
}

/// Some file record of `s` carries exactly index `idx` and the path the
/// ASCII bytes `path` denote.
pub open spec fn has_file(s: Seq<FileRecord>, idx: u32, path: Seq<u8>) -> bool {
    exists|i: int|
        0 <= i < s.len() && (#[trigger] s[i]).index == idx && s[i].path@ == ascii_chars(path)
}

/// Some `STACK WIN` record of `s` carries exactly the given fields.
pub open spec fn has_win(s: Seq<WinRecord>, w: u64, a: u64, sz: u64, info: Seq<u8>) -> bool {
    exists|i: int|
        0 <= i < s.len() && (#[trigger] s[i]).wtype == w && s[i].address == a && s[i].size == sz
            && s[i].info@ == ascii_chars(info)
}

/// Some function record of `s` carries exactly the header fields
/// (`a`, `sz`, `p`) and the name the ASCII bytes `nm` denote.
pub open spec fn has_func(s: Seq<FuncRecord>, a: u64, sz: u64, p: u64, nm: Seq<u8>) -> bool {
    exists|i: int|
        0 <= i < s.len() && (#[trigger] s[i]).address == a && s[i].size == sz && s[i].param_size
            == p && s[i].name@ == ascii_chars(nm)
}

/// Some public record of `s` carries exactly the given header fields.
pub open spec fn has_public(s: Seq<PublicRecord>, a: u64, p: u64, nm: Seq<u8>) -> bool {
    exists|i: int|
        0 <= i < s.len() && (#[trigger] s[i]).address == a && s[i].param_size == p && s[i].name@
            == ascii_chars(nm)
}

/// Some CFI window of `s` carries exactly the given header fields.
pub open spec fn has_cfi(s: Seq<CfiRecord>, a: u64, sz: u64, rules: Seq<u8>) -> bool {
    exists|i: int|
        0 <= i < s.len() && (#[trigger] s[i]).address == a && s[i].size == sz && s[i].rules@
            == ascii_chars(rules)
}

/// Line `l` is a well-formed `FUNC` line declaring exactly the header
/// fields of `f` (the attached line records are not compared).
pub open spec fn line_declares_func(l: Seq<u8>, f: FuncRecord) -> bool {
    match func_header_of(l) {
        Some(h) => f.address == h.0 && f.size == h.1 && f.param_size == h.2 && f.name@
            == ascii_chars(h.3),
        None => false,
    }
}

/// Line `l` is a well-formed `PUBLIC` line declaring exactly `p`.
pub open spec fn line_declares_public(l: Seq<u8>, p: PublicRecord) -> bool {
    match public_header_of(l) {
        Some(h) => p.address == h.0 && p.param_size == h.1 && p.name@ == ascii_chars(h.2),
        None => false,
    }
}

/// Line `l` is a well-formed `STACK CFI INIT` line declaring exactly the
/// header fields of `c` (the attached deltas are not compared).
pub open spec fn line_declares_cfi(l: Seq<u8>, c: CfiRecord) -> bool {
    match cfi_init_of(l) {
        Some(h) => c.address == h.0 && c.size == h.1 && c.rules@ == ascii_chars(h.2),
        None => false,
    }
}

/// Line `l` is a well-formed `FILE` line declaring exactly `fr`.
pub open spec fn line_declares_file(l: Seq<u8>, fr: FileRecord) -> bool {
    match file_header_of(l) {
        Some(h) => fr.index == h.0 && fr.path@ == ascii_chars(h.1),
        None => false,
    }
}

/// Line `l` is a well-formed `STACK WIN` line declaring exactly `w`.
pub open spec fn line_declares_win(l: Seq<u8>, w: WinRecord) -> bool {
    match win_header_of(l) {
        Some(h) => w.wtype == h.0 && w.address == h.1 && w.size == h.2 && w.info@ == ascii_chars(
            h.3,
        ),
        None => false,
    }
}

/// Some line among `lines` declares `fr`.
pub open spec fn file_from_lines(lines: Seq<Seq<u8>>, fr: FileRecord) -> bool {
    exists|j: int| 0 <= j < lines.len() && line_declares_file(#[trigger] lines[j], fr)
}

/// Some line among `lines` declares `w`.
pub open spec fn win_from_lines(lines: Seq<Seq<u8>>, w: WinRecord) -> bool {
    exists|j: int| 0 <= j < lines.len() && line_declares_win(#[trigger] lines[j], w)
}

/// Some line among `lines` declares the header of `f`.
pub open spec fn func_from_lines(lines: Seq<Seq<u8>>, f: FuncRecord) -> bool {
    exists|j: int| 0 <= j < lines.len() && line_declares_func(#[trigger] lines[j], f)
}

/// Some line among `lines` declares `p`.
pub open spec fn public_from_lines(lines: Seq<Seq<u8>>, p: PublicRecord) -> bool {
    exists|j: int| 0 <= j < lines.len() && line_declares_public(#[trigger] lines[j], p)
}

/// Some line among `lines` declares the header of `c`.
pub open spec fn cfi_from_lines(lines: Seq<Seq<u8>>, c: CfiRecord) -> bool {
    exists|j: int| 0 <= j < lines.len() && line_declares_cfi(#[trigger] lines[j], c)
}

/// `a` and `b` carry the same `FUNC` header fields.
pub open spec fn func_header_matches(a: FuncRecord, b: FuncRecord) -> bool {
    a.address == b.address && a.size == b.size && a.param_size == b.param_size && a.name@
        == b.name@
}

/// `a` and `b` carry the same `STACK CFI INIT` header fields.
pub open spec fn cfi_header_matches(a: CfiRecord, b: CfiRecord) -> bool {
    a.address == b.address && a.size == b.size && a.rules@ == b.rules@
}

/// Some line of the buffer is a `MODULE` record.
pub open spec fn has_module_line(b: Seq<u8>) -> bool {
    exists|i: int|
        0 <= i < lines_of(b).len() && first_token(#[trigger] lines_of(b)[i])
            == module_keyword()
}

/// An indexed, immutable store of the records of one symbol file.
#[derive(Debug)]
pub struct SymbolStore {
    pub module_seen: bool,
    pub module_id: Option<String>,
    pub files: Vec<FileRecord>,
    pub funcs: Vec<FuncRecord>,
    pub publics: Vec<PublicRecord>,
    pub cfi: Vec<CfiRecord>,
    pub win: Vec<WinRecord>,
}

impl SymbolStore {
    /// Function, public and CFI records are sorted by start address.
    pub open spec fn wf(&self) -> bool {
        &&& funcs_sorted(self.funcs@)
        &&& publics_sorted(self.publics@)
        &&& cfi_sorted(self.cfi@)
    }

    /// The store covers `l`: a well-formed `FUNC`, `PUBLIC` or
    /// `STACK CFI INIT` line with an ASCII trailing field has a record
    /// with exactly its header fields.
    pub open spec fn covers_line(&self, l: Seq<u8>) -> bool {
        &&& match func_header_of(l) {
            Some(h) => all_ascii(h.3) ==> has_func(self.funcs@, h.0, h.1, h.2, h.3),
            None => true,
        }
        &&& match public_header_of(l) {
            Some(h) => all_ascii(h.2) ==> has_public(self.publics@, h.0, h.1, h.2),
            None => true,
        }
        &&& match cfi_init_of(l) {
            Some(h) => all_ascii(h.2) ==> has_cfi(self.cfi@, h.0, h.1, h.2),
            None => true,
        }
        &&& match file_header_of(l) {
            Some(h) => all_ascii(h.1) ==> has_file(self.files@, h.0, h.1),
            None => true,
        }
        &&& match win_header_of(l) {
            Some(h) => all_ascii(h.3) ==> has_win(self.win@, h.0, h.1, h.2, h.3),
            None => true,
        }
    }

    /// No `MODULE` line was seen: the store violates the one essential
    /// structural invariant of the format.
    pub fn corrupt(&self) -> (r: bool)
        ensures
            r == !self.module_seen,
    {
        !self.module_seen
    }

    /// Parses a complete symbol buffer. Construction is total: bad records
    /// are skipped, and the store is corrupt exactly when no line of the
    /// buffer is a `MODULE` record.
    pub fn from_buffer(buffer: &[u8]) -> (s: SymbolStore)
        ensures
            s.wf(),
            s.module_seen == has_module_line(buffer@),
            forall|i: int|
                0 <= i < lines_of(buffer@).len() ==> s.covers_line(#[trigger] lines_of(buffer@)[i]),
            forall|i: int|
                0 <= i < s.funcs@.len() ==> func_from_lines(lines_of(buffer@), #[trigger] s.funcs@[i]),
            forall|i: int|
                0 <= i < s.publics@.len() ==> public_from_lines(
                    lines_of(buffer@),
                    #[trigger] s.publics@[i],
                ),
            forall|i: int|
                0 <= i < s.cfi@.len() ==> cfi_from_lines(lines_of(buffer@), #[trigger] s.cfi@[i]),
            forall|i: int|
                0 <= i < s.files@.len() ==> file_from_lines(
                    lines_of(buffer@),
                    #[trigger] s.files@[i],
                ),
            forall|i: int|
                0 <= i < s.win@.len() ==> win_from_lines(lines_of(buffer@), #[trigger] s.win@[i]),
    {
        let ghost lns = lines_of(buffer@);
        let mut b = Builder::new();
        let ghost mut processed: Seq<Seq<u8>> = Seq::empty();
        let n = buffer.len();
        let mut pos: usize = 0;
        let mut done = false;
        proof {
            assert(buffer@.skip(0) =~= buffer@);
            assert(lns =~= processed + lines_of(buffer@.skip(0)));
        }
        while !done
            invariant
                pos <= n,
                n == buffer@.len(),
                b.wf(),
                !done ==> lns == processed + lines_of(buffer@.skip(pos as int)),
                done ==> lns == processed,
                b.module_seen <==> exists|i: int|
                    0 <= i < processed.len() && first_token(#[trigger] processed[i])
                        == module_keyword(),
                forall|i: int| 0 <= i < processed.len() ==> b.covers(#[trigger] processed[i]),
                forall|i: int|
                    0 <= i < b.funcs@.len() ==> func_from_lines(processed, #[trigger] b.funcs@[i]),
                b.cur_func_present ==> func_from_lines(processed, b.cur_func),
                forall|i: int|
                    0 <= i < b.publics@.len() ==> public_from_lines(
                        processed,
                        #[trigger] b.publics@[i],
                    ),
                forall|i: int|
                    0 <= i < b.cfi@.len() ==> cfi_from_lines(processed, #[trigger] b.cfi@[i]),
                b.cur_cfi_present ==> cfi_from_lines(processed, b.cur_cfi),
                forall|i: int|
                    0 <= i < b.files@.len() ==> file_from_lines(processed, #[trigger] b.files@[i]),
                forall|i: int|
                    0 <= i < b.win@.len() ==> win_from_lines(processed, #[trigger] b.win@[i]),
            decreases n - pos, (if done { 0int } else { 1int }),
        {
            let mut e: usize = pos;
            while e < n && buffer[e] != 10
                invariant
                    pos <= e <= n,
                    n == buffer@.len(),
                    forall|i: int| pos <= i < e ==> buffer@[i] != 10,
                decreases n - e,
            {
                e = e + 1;
            }
            let ghost suffix = buffer@.skip(pos as int);
            proof {
                assert forall|j: int| 0 <= j < e - pos implies suffix[j] != 10 by {
                    assert(buffer@[pos + j] != 10);
                }
                lemma_find_nl_eq(suffix, e - pos);
            }
            let line = &buffer[pos..e];
            let ghost was_seen = b.module_seen;
            let ghost b_prev = b;
            b.absorb_line(line);
            proof {
                assert(line@ =~= suffix.take(e - pos));
                if e == n {
                    assert(lines_of(suffix) =~= seq![suffix]);
                    assert(suffix =~= line@);
                } else {
                    assert(lines_of(suffix) =~= seq![line@] + lines_of(suffix.skip(e - pos + 1)));
                    assert(suffix.skip(e - pos + 1) =~= buffer@.skip(e + 1));
                }
                let before = processed;
                processed = processed.push(line@);
                assert(b.module_seen <==> exists|i: int|
                    0 <= i < processed.len() && first_token(#[trigger] processed[i])
                        == module_keyword()) by {
                    if b.module_seen {
                        if was_seen {
                            let w = choose|i: int|
                                0 <= i < before.len() && first_token(#[trigger] before[i])
                                    == module_keyword();
                            assert(processed[w] == before[w]);
                            assert(first_token(processed[w]) == module_keyword());
                        } else {
                            assert(processed[processed.len() - 1] == line@);
                            assert(first_token(processed[processed.len() - 1])
                                == module_keyword());
                        }
                    } else {
                        if exists|i: int|
                            0 <= i < processed.len() && first_token(#[trigger] processed[i])
                                == module_keyword() {
                            let w = choose|i: int|
                                0 <= i < processed.len() && first_token(#[trigger] processed[i])
                                    == module_keyword();
                            if w < processed.len() - 1 {
                                assert(processed[w] == before[w]);
                                assert(first_token(before[w]) == module_keyword());
                            } else {
                                assert(processed[w] == line@);
                            }
                        }
                    }
                }
                assert forall|i: int|
                    0 <= i < b.funcs@.len() implies func_from_lines(
                    processed,
                    #[trigger] b.funcs@[i],
                ) by {
                    let g = b.funcs@[i];
                    assert(func_in(b.funcs@, g));
                    if func_in(b_prev.funcs@, g) {
                        let k = choose|k: int| 0 <= k < b_prev.funcs@.len() && b_prev.funcs@[k]
                            == g;
                        let j = choose|j: int|
                            0 <= j < before.len() && line_declares_func(#[trigger] before[j], g);
                        assert(processed[j] == before[j]);
                    } else {
                        assert(b_prev.cur_func_present && g == b_prev.cur_func);
                        let j = choose|j: int|
                            0 <= j < before.len() && line_declares_func(
                                #[trigger] before[j],
                                b_prev.cur_func,
                            );
                        assert(processed[j] == before[j]);
                    }
                }
                if b.cur_func_present {
                    assert(func_from_lines(processed, b.cur_func)) by {
                        if line_declares_func(line@, b.cur_func) {
                            assert(processed[processed.len() - 1] == line@);
                        } else {
                            assert(b_prev.cur_func_present && func_header_matches(
                                b.cur_func,
                                b_prev.cur_func,
                            ));
                            let j = choose|j: int|
                                0 <= j < before.len() && line_declares_func(
                                    #[trigger] before[j],
                                    b_prev.cur_func,
                                );
                            assert(line_declares_func(before[j], b.cur_func));
                            assert(processed[j] == before[j]);
                        }
                    }
                }
                assert forall|i: int|
                    0 <= i < b.publics@.len() implies public_from_lines(
                    processed,
                    #[trigger] b.publics@[i],
                ) by {
                    let g = b.publics@[i];
                    assert(public_in(b.publics@, g));
                    if public_in(b_prev.publics@, g) {
                        let k = choose|k: int| 0 <= k < b_prev.publics@.len()
                            && b_prev.publics@[k] == g;
                        let j = choose|j: int|
                            0 <= j < before.len() && line_declares_public(
                                #[trigger] before[j],
                                g,
                            );
                        assert(processed[j] == before[j]);
                    } else {
                        assert(line_declares_public(line@, g));
                        assert(processed[processed.len() - 1] == line@);
                    }
                }
                assert forall|i: int|
                    0 <= i < b.cfi@.len() implies cfi_from_lines(
                    processed,
                    #[trigger] b.cfi@[i],
                ) by {
                    let g = b.cfi@[i];
                    assert(cfi_in(b.cfi@, g));
                    if cfi_in(b_prev.cfi@, g) {
                        let k = choose|k: int| 0 <= k < b_prev.cfi@.len() && b_prev.cfi@[k] == g;
                        let j = choose|j: int|
                            0 <= j < before.len() && line_declares_cfi(#[trigger] before[j], g);
                        assert(processed[j] == before[j]);
                    } else {
                        assert(b_prev.cur_cfi_present && g == b_prev.cur_cfi);
                        let j = choose|j: int|
                            0 <= j < before.len() && line_declares_cfi(
                                #[trigger] before[j],
                                b_prev.cur_cfi,
                            );
                        assert(processed[j] == before[j]);
                    }
                }
                if b.cur_cfi_present {
                    assert(cfi_from_lines(processed, b.cur_cfi)) by {
                        if line_declares_cfi(line@, b.cur_cfi) {
                            assert(processed[processed.len() - 1] == line@);
                        } else {
                            assert(b_prev.cur_cfi_present && cfi_header_matches(
                                b.cur_cfi,
                                b_prev.cur_cfi,
                            ));
                            let j = choose|j: int|
                                0 <= j < before.len() && line_declares_cfi(
                                    #[trigger] before[j],
                                    b_prev.cur_cfi,
                                );
                            assert(line_declares_cfi(before[j], b.cur_cfi));
                            assert(processed[j] == before[j]);
                        }
                    }
                }
                assert forall|i: int|
                    0 <= i < b.files@.len() implies file_from_lines(
                    processed,
                    #[trigger] b.files@[i],
                ) by {
                    let g = b.files@[i];
                    assert(file_in(b.files@, g));
                    if file_in(b_prev.files@, g) {
                        let k = choose|k: int| 0 <= k < b_prev.files@.len() && b_prev.files@[k]
                            == g;
                        let j = choose|j: int|
                            0 <= j < before.len() && line_declares_file(#[trigger] before[j], g);
                        assert(processed[j] == before[j]);
                    } else {
                        assert(line_declares_file(line@, g));
                        assert(processed[processed.len() - 1] == line@);
                    }
                }
                assert forall|i: int|
                    0 <= i < b.win@.len() implies win_from_lines(
                    processed,
                    #[trigger] b.win@[i],
                ) by {
                    let g = b.win@[i];
                    assert(win_in(b.win@, g));
                    if win_in(b_prev.win@, g) {
                        let k = choose|k: int| 0 <= k < b_prev.win@.len() && b_prev.win@[k] == g;
                        let j = choose|j: int|
                            0 <= j < before.len() && line_declares_win(#[trigger] before[j], g);
                        assert(processed[j] == before[j]);
                    } else {
                        assert(line_declares_win(line@, g));
                        assert(processed[processed.len() - 1] == line@);
                    }
                }
            }
            if e == n {
                done = true;
                proof {
                    assert(lns =~= processed);
                }
            } else {
                pos = e + 1;
            }
        }
        let ghost b_done = b;
        let s = b.finish();
        proof {
            assert(lns == lines_of(buffer@));
            assert forall|i: int|
                0 <= i < s.funcs@.len() implies func_from_lines(
                lines_of(buffer@),
                #[trigger] s.funcs@[i],
            ) by {
                let g = s.funcs@[i];
                assert(func_in(s.funcs@, g));
            }
            assert forall|i: int|
                0 <= i < s.publics@.len() implies public_from_lines(
                lines_of(buffer@),
                #[trigger] s.publics@[i],
            ) by {
                let g = s.publics@[i];
                assert(public_in(b_done.publics@, g));
            }
            assert forall|i: int|
                0 <= i < s.cfi@.len() implies cfi_from_lines(
                lines_of(buffer@),
                #[trigger] s.cfi@[i],
            ) by {
                let g = s.cfi@[i];
                assert(cfi_in(s.cfi@, g));
            }
            assert forall|i: int|
                0 <= i < s.files@.len() implies file_from_lines(
                lines_of(buffer@),
                #[trigger] s.files@[i],
            ) by {
                assert(file_in(b_done.files@, s.files@[i]));
            }
            assert forall|i: int|
                0 <= i < s.win@.len() implies win_from_lines(
                lines_of(buffer@),
                #[trigger] s.win@[i],
            ) by {
                assert(win_in(b_done.win@, s.win@[i]));
            }
        }
        s
    }
}

impl SymbolStore {
    /// Finds the `FUNC` record covering `addr`: the record with the lowest
    /// start address whose range contains it.
    pub fn find_function(&self, addr: u64) -> (r: Option<&FuncRecord>)
        requires
            self.wf(),
        ensures
            match r {
                Some(f) => exists|i: int|
                    0 <= i < self.funcs@.len() && *f == #[trigger] self.funcs@[i] && func_contains(
                        &self.funcs@[i],
                        addr,
                    ) && (forall|j: int| 0 <= j < i ==> !func_contains(&#[trigger] self.funcs@[j], addr)),
                None => forall|i: int|
                    0 <= i < self.funcs@.len() ==> !func_contains(&#[trigger] self.funcs@[i], addr),
            },
    {
        let n = self.funcs.len();
        let mut i: usize = 0;
        while i < n && self.funcs[i].address <= addr
            invariant
                0 <= i <= n,
                n == self.funcs@.len(),
                funcs_sorted(self.funcs@),
                forall|j: int| 0 <= j < i ==> !func_contains(&#[trigger] self.funcs@[j], addr),
            decreases n - i,
        {
            if addr - self.funcs[i].address < self.funcs[i].size {
                return Some(&self.funcs[i]);
            }
            i = i + 1;
        }
        proof {
            assert forall|k: int| 0 <= k < n implies !func_contains(
                &#[trigger] self.funcs@[k],
                addr,
            ) by {
                if k > i {
                    assert(self.funcs@[i as int].address <= self.funcs@[k].address);
                }
            }
        }
        None
    }

    /// Finds the `PUBLIC` record applicable at `addr`: the last record
    /// whose start address is at or below it.
    pub fn find_public(&self, addr: u64) -> (r: Option<&PublicRecord>)
        requires
            self.wf(),
        ensures
            match r {
                Some(p) => exists|i: int|
                    0 <= i < self.publics@.len() && *p == #[trigger] self.publics@[i]
                        && self.publics@[i].address <= addr && (forall|j: int|
                        i < j < self.publics@.len() ==> (#[trigger] self.publics@[j]).address
                            > addr),
                None => forall|i: int|
                    0 <= i < self.publics@.len() ==> (#[trigger] self.publics@[i]).address > addr,
            },
    {
        let n = self.publics.len();
        let mut i: usize = 0;
        let mut best: usize = 0;
        let mut have = false;
        while i < n && self.publics[i].address <= addr
            invariant
                0 <= i <= n,
                n == self.publics@.len(),
                publics_sorted(self.publics@),
                have ==> i >= 1 && best == i - 1 && self.publics@[best as int].address <= addr,
                !have ==> i == 0,
            decreases n - i,
        {
            best = i;
            have = true;
            i = i + 1;
        }
        proof {
            assert forall|k: int| i <= k < n implies (#[trigger] self.publics@[k]).address
                > addr by {
                if k > i {
                    assert(self.publics@[i as int].address <= self.publics@[k].address);
                }
            }
        }
        if have {
            Some(&self.publics[best])
        } else {
            None
        }
    }

    /// Finds the path declared for source-file index `index` (first
    /// declaration wins).
    pub fn find_file(&self, index: u32) -> (r: Option<&FileRecord>)
        ensures
            match r {
                Some(fr) => exists|i: int|
                    0 <= i < self.files@.len() && *fr == #[trigger] self.files@[i]
                        && self.files@[i].index == index && (forall|j: int|
                        0 <= j < i ==> (#[trigger] self.files@[j]).index != index),
                None => forall|i: int|
                    0 <= i < self.files@.len() ==> (#[trigger] self.files@[i]).index != index,
            },
    {
        let n = self.files.len();
        let mut i: usize = 0;
        while i < n
            invariant
                0 <= i <= n,
                n == self.files@.len(),
                forall|j: int| 0 <= j < i ==> (#[trigger] self.files@[j]).index != index,
            decreases n - i,
        {
            if self.files[i].index == index {
                return Some(&self.files[i]);
            }
            i = i + 1;
        }
        None
    }

    /// Finds the effective CFI program at `addr`: the rules of the first
    /// window containing it, followed by every incremental update at or
    /// below it, in file order; exactly what [`find_cfi_spec`] prescribes.
    pub fn find_cfi(&self, addr: u64) -> (r: Option<String>)
        requires
            self.wf(),
        ensures
            (r is Some) == (find_cfi_spec(self, addr) is Some),
            r matches Some(s2) ==> Some(s2@) == find_cfi_spec(self, addr),
            match r {
                Some(s) => exists|i: int|
                    0 <= i < self.cfi@.len() && cfi_contains(&#[trigger] self.cfi@[i], addr) && (
                    forall|j: int| 0 <= j < i ==> !cfi_contains(&#[trigger] self.cfi@[j], addr))
                        && s@ == cfi_effective_upto(
                        &self.cfi@[i],
                        addr,
                        self.cfi@[i].deltas@.len() as int,
                    ),
                None => forall|i: int|
                    0 <= i < self.cfi@.len() ==> !cfi_contains(&#[trigger] self.cfi@[i], addr),
            },
    {
        let n = self.cfi.len();
        let mut i: usize = 0;
        while i < n && self.cfi[i].address <= addr
            invariant
                0 <= i <= n,
                n == self.cfi@.len(),
                cfi_sorted(self.cfi@),
                forall|j: int| 0 <= j < i ==> !cfi_contains(&#[trigger] self.cfi@[j], addr),
            decreases n - i,
        {
            if addr - self.cfi[i].address < self.cfi[i].size {
                let c = &self.cfi[i];
                let mut out = c.rules.clone();
                let m = c.deltas.len();
                let mut k: usize = 0;
                while k < m
                    invariant
                        0 <= k <= m,
                        m == c.deltas@.len(),
                        out@ == cfi_effective_upto(c, addr, k as int),
                    decreases m - k,
                {
                    if c.deltas[k].address <= addr {
                        out.append(" ");
                        out.append(c.deltas[k].rules.as_str());
                        proof {
                            reveal_strlit(" ");
                            assert(" "@ =~= seq![' ']);
                            assert(out@ =~= cfi_effective_upto(c, addr, k + 1));
                        }
                    }
                    k = k + 1;
                }
                proof {
                    lemma_cfi_window_from_at(self.cfi@, addr, 0, i as int);
                }
                return Some(out);
            }
            i = i + 1;
        }
        proof {
            assert forall|k: int| 0 <= k < n implies !cfi_contains(
                &#[trigger] self.cfi@[k],
                addr,
            ) by {
                if k > i {
                    assert(self.cfi@[i as int].address <= self.cfi@[k].address);
                }
            }
            lemma_cfi_window_from_none(self.cfi@, addr, 0);
        }
        None
    }
}

impl FuncRecord {
    /// Finds the line record of this function covering `addr` (first match
    /// in file order).
    pub fn find_line(&self, addr: u64) -> (r: Option<LineRecord>)
        ensures
            match r {
                Some(l) => exists|i: int|
                    0 <= i < self.lines@.len() && l == #[trigger] self.lines@[i] && line_contains(
                        self.lines@[i],
                        addr,
                    ) && (forall|j: int|
                        0 <= j < i ==> !line_contains(#[trigger] self.lines@[j], addr)),
                None => forall|i: int|
                    0 <= i < self.lines@.len() ==> !line_contains(#[trigger] self.lines@[i], addr),
            },
    {
        let n = self.lines.len();
        let mut i: usize = 0;
        while i < n
            invariant
                0 <= i <= n,
                n == self.lines@.len(),
                forall|j: int| 0 <= j < i ==> !line_contains(#[trigger] self.lines@[j], addr),
            decreases n - i,
        {
            let l = self.lines[i];
            if l.address <= addr && addr - l.address < l.size {
                return Some(l);
            }
            i = i + 1;
        }
        None
    }
}

proof fn lemma_keywords_distinct()
    ensures
        module_keyword() != func_keyword(),
        module_keyword() != public_keyword(),
        module_keyword() != stack_keyword(),
        module_keyword() != file_keyword(),
        func_keyword() != public_keyword(),
        func_keyword() != stack_keyword(),
        func_keyword() != file_keyword(),
        public_keyword() != stack_keyword(),
        public_keyword() != file_keyword(),
        stack_keyword() != file_keyword(),
        cfi_keyword() != win_keyword(),
        init_keyword() != cfi_keyword(),
        init_keyword() != win_keyword(),
{
    assert(module_keyword().len() == 6 && module_keyword()[0] == 77);
    assert(func_keyword().len() == 4 && func_keyword()[0] == 70 && func_keyword()[1] == 85);
    assert(public_keyword().len() == 6 && public_keyword()[0] == 80);
    assert(stack_keyword().len() == 5 && stack_keyword()[0] == 83);
    assert(file_keyword().len() == 4 && file_keyword()[0] == 70 && file_keyword()[1] == 73);
    assert(cfi_keyword().len() == 3 && cfi_keyword()[0] == 67);
    assert(win_keyword().len() == 3 && win_keyword()[0] == 87);
    assert(init_keyword().len() == 4 && init_keyword()[0] == 73);
}

proof fn lemma_hex_token_not_keyword(t: Seq<u8>)
    requires
        all_hex_bytes(t),
    ensures
        t != func_keyword(),
        t != public_keyword(),
        t != stack_keyword(),
        t != module_keyword(),
        t != file_keyword(),
{
    if t == func_keyword() {
        assert(t[1] == 85 && is_hex_byte(t[1]));
    }
    if t == public_keyword() {
        assert(t[0] == 80 && is_hex_byte(t[0]));
    }
    if t == stack_keyword() {
        assert(t[0] == 83 && is_hex_byte(t[0]));
    }
    if t == module_keyword() {
        assert(t[0] == 77 && is_hex_byte(t[0]));
    }
    if t == file_keyword() {
        assert(t[1] == 73 && is_hex_byte(t[1]));
    }
}

proof fn lemma_has_func_transfer(olds: Seq<FuncRecord>, news: Seq<FuncRecord>, a: u64, sz: u64, p: u64, nm: Seq<u8>)
    requires
        forall|g: FuncRecord| func_in(olds, g) ==> func_in(news, g),
        has_func(olds, a, sz, p, nm),
    ensures
        has_func(news, a, sz, p, nm),
{
    let i = choose|i: int|
        0 <= i < olds.len() && (#[trigger] olds[i]).address == a && olds[i].size == sz
            && olds[i].param_size == p && olds[i].name@ == ascii_chars(nm);
    assert(func_in(olds, olds[i]));
    let j = choose|j: int| 0 <= j < news.len() && news[j] == olds[i];
    assert(news[j].address == a);
}

proof fn lemma_has_public_transfer(olds: Seq<PublicRecord>, news: Seq<PublicRecord>, a: u64, p: u64, nm: Seq<u8>)
    requires
        forall|g: PublicRecord| public_in(olds, g) ==> public_in(news, g),
        has_public(olds, a, p, nm),
    ensures
        has_public(news, a, p, nm),
{
    let i = choose|i: int|
        0 <= i < olds.len() && (#[trigger] olds[i]).address == a && olds[i].param_size == p
            && olds[i].name@ == ascii_chars(nm);
    assert(public_in(olds, olds[i]));
    let j = choose|j: int| 0 <= j < news.len() && news[j] == olds[i];
    assert(news[j].address == a);
}

proof fn lemma_has_cfi_transfer(olds: Seq<CfiRecord>, news: Seq<CfiRecord>, a: u64, sz: u64, rules: Seq<u8>)
    requires
        forall|g: CfiRecord| cfi_in(olds, g) ==> cfi_in(news, g),
        has_cfi(olds, a, sz, rules),
    ensures
        has_cfi(news, a, sz, rules),
{
    let i = choose|i: int|
        0 <= i < olds.len() && (#[trigger] olds[i]).address == a && olds[i].size == sz
            && olds[i].rules@ == ascii_chars(rules);
    assert(cfi_in(olds, olds[i]));
    let j = choose|j: int| 0 <= j < news.len() && news[j] == olds[i];
    assert(news[j].address == a);
}

/// Accumulates records while a symbol buffer is parsed line by line.
struct Builder {
    module_seen: bool,
    module_id: Option<String>,
    files: Vec<FileRecord>,
    funcs: Vec<FuncRecord>,
    publics: Vec<PublicRecord>,
    cfi: Vec<CfiRecord>,
    win: Vec<WinRecord>,
    cur_func_present: bool,
    cur_func: FuncRecord,
    cur_cfi_present: bool,
    cur_cfi: CfiRecord,
}

impl Builder {
    spec fn wf(&self) -> bool {
        &&& funcs_sorted(self.funcs@)
        &&& publics_sorted(self.publics@)
        &&& cfi_sorted(self.cfi@)
    }

    /// Like [`SymbolStore::covers_line`], allowing the record still under
    /// construction to stand for its line.
    spec fn covers(&self, l: Seq<u8>) -> bool {
        &&& match func_header_of(l) {
            Some(h) => all_ascii(h.3) ==> has_func(self.funcs@, h.0, h.1, h.2, h.3) || (
            self.cur_func_present && self.cur_func.address == h.0 && self.cur_func.size == h.1
                && self.cur_func.param_size == h.2 && self.cur_func.name@ == ascii_chars(h.3)),
            None => true,
        }
        &&& match public_header_of(l) {
            Some(h) => all_ascii(h.2) ==> has_public(self.publics@, h.0, h.1, h.2),
            None => true,
        }
        &&& match cfi_init_of(l) {
            Some(h) => all_ascii(h.2) ==> has_cfi(self.cfi@, h.0, h.1, h.2) || (
            self.cur_cfi_present && self.cur_cfi.address == h.0 && self.cur_cfi.size == h.1
                && self.cur_cfi.rules@ == ascii_chars(h.2)),
            None => true,
        }
        &&& match file_header_of(l) {
            Some(h) => all_ascii(h.1) ==> has_file(self.files@, h.0, h.1),
            None => true,
        }
        &&& match win_header_of(l) {
            Some(h) => all_ascii(h.3) ==> has_win(self.win@, h.0, h.1, h.2, h.3),
            None => true,
        }
    }

    fn new() -> (r: Builder)
        ensures
            r.wf(),
            !r.module_seen,
            !r.cur_func_present,
            !r.cur_cfi_present,
            r.funcs@.len() == 0,
            r.publics@.len() == 0,
            r.cfi@.len() == 0,
            r.files@.len() == 0,
            r.win@.len() == 0,
    {
        Builder {
            module_seen: false,
            module_id: None,
            files: Vec::new(),
            funcs: Vec::new(),
            publics: Vec::new(),
            cfi: Vec::new(),
            win: Vec::new(),
            cur_func_present: false,
            cur_func: FuncRecord {
                address: 0,
                size: 0,
                param_size: 0,
                name: String::new(),
                lines: Vec::new(),
            },
            cur_cfi_present: false,
            cur_cfi: CfiRecord { address: 0, size: 0, rules: String::new(), deltas: Vec::new() },
        }
    }

    /// Moves the function under construction, if any, into the index.
    fn flush_func(&mut self)
        requires
            old(self).wf(),
        ensures
            final(self).wf(),
            !final(self).cur_func_present,
            final(self).module_seen == old(self).module_seen,
            final(self).module_id == old(self).module_id,
            final(self).cur_cfi_present == old(self).cur_cfi_present,
            final(self).cur_cfi == old(self).cur_cfi,
            final(self).publics == old(self).publics,
            final(self).cfi == old(self).cfi,
            final(self).files == old(self).files,
            final(self).win == old(self).win,
            forall|g: FuncRecord| func_in(old(self).funcs@, g) ==> func_in(final(self).funcs@, g),
            forall|g: FuncRecord|
                func_in(final(self).funcs@, g) ==> func_in(old(self).funcs@, g) || (old(
                    self,
                ).cur_func_present && g == old(self).cur_func),
            forall|l: Seq<u8>| #[trigger] old(self).covers(l) ==> final(self).covers(l),
    {
        if self.cur_func_present {
            let mut f = FuncRecord {
                address: 0,
                size: 0,
                param_size: 0,
                name: String::new(),
                lines: Vec::new(),
            };
            core::mem::swap(&mut f, &mut self.cur_func);
            insert_func_sorted(&mut self.funcs, f);
            self.cur_func_present = false;
            proof {
                assert forall|l: Seq<u8>| #[trigger] old(self).covers(l) implies self.covers(
                    l,
                ) by {
                    match func_header_of(l) {
                        Some(h) => {
                            if all_ascii(h.3) {
                                if has_func(old(self).funcs@, h.0, h.1, h.2, h.3) {
                                    lemma_has_func_transfer(
                                        old(self).funcs@,
                                        self.funcs@,
                                        h.0,
                                        h.1,
                                        h.2,
                                        h.3,
                                    );
                                } else {
                                    let j = choose|j: int|
                                        0 <= j < self.funcs@.len() && self.funcs@[j] == old(
                                            self,
                                        ).cur_func;
                                    assert(self.funcs@[j].address == h.0);
                                }
                            }
                        },
                        None => {},
                    }
                }
            }
        }
    }

    /// Moves the CFI window under construction, if any, into the index.
    fn flush_cfi(&mut self)
        requires
            old(self).wf(),
        ensures
            final(self).wf(),
            !final(self).cur_cfi_present,
            final(self).module_seen == old(self).module_seen,
            final(self).module_id == old(self).module_id,
            final(self).cur_func_present == old(self).cur_func_present,
            final(self).cur_func == old(self).cur_func,
            final(self).publics == old(self).publics,
            final(self).funcs == old(self).funcs,
            final(self).files == old(self).files,
            final(self).win == old(self).win,
            forall|g: CfiRecord|
                cfi_in(final(self).cfi@, g) ==> cfi_in(old(self).cfi@, g) || (old(
                    self,
                ).cur_cfi_present && g == old(self).cur_cfi),
            forall|l: Seq<u8>| #[trigger] old(self).covers(l) ==> final(self).covers(l),
    {
        if self.cur_cfi_present {
            let mut c = CfiRecord {
                address: 0,
                size: 0,
                rules: String::new(),
                deltas: Vec::new(),
            };
            core::mem::swap(&mut c, &mut self.cur_cfi);
            insert_cfi_sorted(&mut self.cfi, c);
            self.cur_cfi_present = false;
            proof {
                assert forall|l: Seq<u8>| #[trigger] old(self).covers(l) implies self.covers(
                    l,
                ) by {
                    match cfi_init_of(l) {
                        Some(h) => {
                            if all_ascii(h.2) {
                                if has_cfi(old(self).cfi@, h.0, h.1, h.2) {
                                    lemma_has_cfi_transfer(
                                        old(self).cfi@,
                                        self.cfi@,
                                        h.0,
                                        h.1,
                                        h.2,
                                    );
                                } else {
                                    let j = choose|j: int|
                                        0 <= j < self.cfi@.len() && self.cfi@[j] == old(
                                            self,
                                        ).cur_cfi;
                                    assert(self.cfi@[j].address == h.0);
                                }
                            }
                        },
                        None => {},
                    }
                }
            }
        }
    }

    /// Applies one record line. Sets the module flag exactly when the
    /// line's first field is `MODULE`; a well-formed `FUNC`, `PUBLIC` or
    /// `STACK CFI INIT` line opens or indexes its record, and everything
    /// previously indexed stays indexed; malformed lines have no effect.
    #[verifier::rlimit(60)]
    #[verifier::spinoff_prover]
    fn absorb_line(&mut self, line: &[u8])
        requires
            old(self).wf(),
        ensures
            final(self).wf(),
            final(self).module_seen == (old(self).module_seen || first_token(line@)
                == module_keyword()),
            final(self).covers(line@),
            forall|l: Seq<u8>| #[trigger] old(self).covers(l) ==> final(self).covers(l),
            forall|g: FuncRecord|
                func_in(final(self).funcs@, g) ==> func_in(old(self).funcs@, g) || (old(
                    self,
                ).cur_func_present && g == old(self).cur_func),
            final(self).cur_func_present ==> (old(self).cur_func_present && func_header_matches(
                final(self).cur_func,
                old(self).cur_func,
            )) || line_declares_func(line@, final(self).cur_func),
            forall|g: PublicRecord|
                public_in(final(self).publics@, g) ==> public_in(old(self).publics@, g)
                    || line_declares_public(line@, g),
            forall|g: CfiRecord|
                cfi_in(final(self).cfi@, g) ==> cfi_in(old(self).cfi@, g) || (old(
                    self,
                ).cur_cfi_present && g == old(self).cur_cfi),
            final(self).cur_cfi_present ==> (old(self).cur_cfi_present && cfi_header_matches(
                final(self).cur_cfi,
                old(self).cur_cfi,
            )) || line_declares_cfi(line@, final(self).cur_cfi),
            forall|g: FileRecord|
                file_in(final(self).files@, g) ==> file_in(old(self).files@, g)
                    || line_declares_file(line@, g),
            forall|g: WinRecord|
                win_in(final(self).win@, g) ==> win_in(old(self).win@, g) || line_declares_win(
                    line@,
                    g,
                ),
    {
        proof {
            assert(line@.skip(0) =~= line@);
            lemma_keywords_distinct();
        }
        let (t0s, t0e) = next_token(line, 0);
        if t0e == t0s {
            proof {
                assert(first_token(line@).len() == 0);
            }
            return;
        }
        if is_kw_module(&line[t0s..t0e]) {
            // MODULE <os> <arch> <debug id> <debug file>
            self.module_seen = true;
            let (o_s, o_e) = next_token(line, t0e);
            let (a_s, a_e) = next_token(line, o_e);
            let (i_s, i_e) = next_token(line, a_e);
            if i_e > i_s && matches!(self.module_id, None) {
                if check_ascii(&line[i_s..i_e]) {
                    self.module_id = Some(ascii_bytes_to_string(&line[i_s..i_e]));
                }
            }
            return;
        }
        proof {
            assert(first_token(line@) != module_keyword());
        }
        if is_kw_func(&line[t0s..t0e]) {
            // FUNC <address> <size> <param size> <name>
            let (a_s, a_e) = next_token(line, t0e);
            let (s_s, s_e) = next_token(line, a_e);
            let (p_s, p_e) = next_token(line, s_e);
            let (n_s, n_e) = rest_bounds(line, p_e);
            proof {
                let l = line@;
                assert(first_token(rest_after_token(l)) == l.subrange(a_s as int, a_e as int));
                assert(rest_after_token(rest_after_token(l)) == l.skip(a_e as int));
                assert(first_token(l.skip(a_e as int)) == l.subrange(s_s as int, s_e as int));
                assert(rest_after_token(l.skip(a_e as int)) == l.skip(s_e as int));
                assert(first_token(l.skip(s_e as int)) == l.subrange(p_s as int, p_e as int));
                assert(rest_after_token(l.skip(s_e as int)) == l.skip(p_e as int));
                assert(trimmed_rest(l.skip(p_e as int)) == l.subrange(n_s as int, n_e as int));
            }
            let address = match parse_hex_bytes_u64(&line[a_s..a_e]) {
                Some(v) => v,
                None => {
                    return;
                },
            };
            let size = match parse_hex_bytes_u64(&line[s_s..s_e]) {
                Some(v) => v,
                None => {
                    return;
                },
            };
            let param_size = match parse_hex_bytes_u64(&line[p_s..p_e]) {
                Some(v) => v,
                None => {
                    return;
                },
            };
            if !check_ascii(&line[n_s..n_e]) {
                return;
            }
            let name = ascii_bytes_to_string(&line[n_s..n_e]);
            proof {
                assert(func_header_of(line@) == Some(
                    (address, size, param_size, line@.subrange(n_s as int, n_e as int)),
                ));
            }
            self.flush_func();
            let ghost mid = *self;
            self.cur_func = FuncRecord { address, size, param_size, name, lines: Vec::new() };
            self.cur_func_present = true;
            proof {
                assert(self.covers(line@));
                assert forall|l: Seq<u8>| #[trigger] old(self).covers(l) implies self.covers(
                    l,
                ) by {
                    assert(mid.covers(l));
                    assert(!mid.cur_func_present);
                    assert(self.funcs@ == mid.funcs@);
                }
            }
            return;
        }
        if is_kw_public(&line[t0s..t0e]) {
            // PUBLIC <address> <param size> <name>
            let (a_s, a_e) = next_token(line, t0e);
            let (p_s, p_e) = next_token(line, a_e);
            let (n_s, n_e) = rest_bounds(line, p_e);
            proof {
                let l = line@;
                assert(first_token(rest_after_token(l)) == l.subrange(a_s as int, a_e as int));
                assert(rest_after_token(rest_after_token(l)) == l.skip(a_e as int));
                assert(first_token(l.skip(a_e as int)) == l.subrange(p_s as int, p_e as int));
                assert(rest_after_token(l.skip(a_e as int)) == l.skip(p_e as int));
                assert(trimmed_rest(l.skip(p_e as int)) == l.subrange(n_s as int, n_e as int));
            }
            let address = match parse_hex_bytes_u64(&line[a_s..a_e]) {
                Some(v) => v,
                None => {
                    return;
                },
            };
            let param_size = match parse_hex_bytes_u64(&line[p_s..p_e]) {
                Some(v) => v,
                None => {
                    return;
                },
            };
            if !check_ascii(&line[n_s..n_e]) {
                return;
            }
            let name = ascii_bytes_to_string(&line[n_s..n_e]);
            proof {
                assert(public_header_of(line@) == Some(
                    (address, param_size, line@.subrange(n_s as int, n_e as int)),
                ));
            }
            let rec = PublicRecord { address, param_size, name };
            let ghost grec = rec;
            insert_public_sorted(&mut self.publics, rec);
            proof {
                let j = choose|j: int| 0 <= j < self.publics@.len() && self.publics@[j] == grec;
                assert(self.publics@[j].address == address);
                assert(has_public(
                    self.publics@,
                    address,
                    param_size,
                    line@.subrange(n_s as int, n_e as int),
                ));
                assert(self.covers(line@));
                assert forall|l: Seq<u8>| #[trigger] old(self).covers(l) implies self.covers(
                    l,
                ) by {
                    match public_header_of(l) {
                        Some(h) => {
                            if all_ascii(h.2) && has_public(old(self).publics@, h.0, h.1, h.2) {
                                lemma_has_public_transfer(
                                    old(self).publics@,
                                    self.publics@,
                                    h.0,
                                    h.1,
                                    h.2,
                                );
                            }
                        },
                        None => {},
                    }
                }
            }
            return;
        }
        if is_kw_file(&line[t0s..t0e]) {
            // FILE <index> <path>
            let (i_s, i_e) = next_token(line, t0e);
            let (p_s, p_e) = rest_bounds(line, i_e);
            proof {
                let l = line@;
                assert(first_token(rest_after_token(l)) == l.subrange(i_s as int, i_e as int));
                assert(rest_after_token(rest_after_token(l)) == l.skip(i_e as int));
                assert(trimmed_rest(l.skip(i_e as int)) == l.subrange(p_s as int, p_e as int));
            }
            let index = match parse_dec_bytes_u32(&line[i_s..i_e]) {
                Some(v) => v,
                None => {
                    return;
                },
            };
            if !check_ascii(&line[p_s..p_e]) {
                return;
            }
            let path = ascii_bytes_to_string(&line[p_s..p_e]);
            proof {
                assert(file_header_of(line@) == Some(
                    (index, line@.subrange(p_s as int, p_e as int)),
                ));
            }
            let ghost files_before = self.files@;
            self.files.push(FileRecord { index, path });
            proof {
                assert(self.files@[self.files@.len() - 1].index == index);
                assert(has_file(self.files@, index, line@.subrange(p_s as int, p_e as int)));
                assert forall|g: FileRecord|
                    file_in(self.files@, g) implies file_in(files_before, g)
                    || line_declares_file(line@, g) by {
                    let i = choose|i: int| 0 <= i < self.files@.len() && self.files@[i] == g;
                    if i < files_before.len() {
                        assert(files_before[i] == g);
                    }
                }
                assert forall|l2: Seq<u8>| #[trigger] old(self).covers(l2) implies self.covers(
                    l2,
                ) by {
                    match file_header_of(l2) {
                        Some(h) => {
                            if all_ascii(h.1) && has_file(files_before, h.0, h.1) {
                                let i = choose|i: int|
                                    0 <= i < files_before.len() && (#[trigger] files_before[i]).index
                                        == h.0 && files_before[i].path@ == ascii_chars(h.1);
                                assert(self.files@[i].index == h.0);
                            }
                        },
                        None => {},
                    }
                }
            }
            return;
        }
        if is_kw_stack(&line[t0s..t0e]) {
            // STACK CFI INIT / STACK CFI / STACK WIN
            let (k_s, k_e) = next_token(line, t0e);
            proof {
                let l = line@;
                assert(first_token(rest_after_token(l)) == l.subrange(k_s as int, k_e as int));
                assert(rest_after_token(rest_after_token(l)) == l.skip(k_e as int));
            }
            if is_kw_cfi(&line[k_s..k_e]) {
                let (t_s, t_e) = next_token(line, k_e);
                proof {
                    let l = line@;
                    assert(first_token(l.skip(k_e as int)) == l.subrange(t_s as int, t_e as int));
                    assert(rest_after_token(l.skip(k_e as int)) == l.skip(t_e as int));
                }
                if is_kw_init(&line[t_s..t_e]) {
                    // STACK CFI INIT <address> <size> <rules>
                    let (a_s, a_e) = next_token(line, t_e);
                    let (s_s, s_e) = next_token(line, a_e);
                    let (r_s, r_e) = rest_bounds(line, s_e);
                    proof {
                        let l = line@;
                        assert(first_token(l.skip(t_e as int)) == l.subrange(
                            a_s as int,
                            a_e as int,
                        ));
                        assert(rest_after_token(l.skip(t_e as int)) == l.skip(a_e as int));
                        assert(first_token(l.skip(a_e as int)) == l.subrange(
                            s_s as int,
                            s_e as int,
                        ));
                        assert(rest_after_token(l.skip(a_e as int)) == l.skip(s_e as int));
                        assert(trimmed_rest(l.skip(s_e as int)) == l.subrange(
                            r_s as int,
                            r_e as int,
                        ));
                    }
                    let address = match parse_hex_bytes_u64(&line[a_s..a_e]) {
                        Some(v) => v,
                        None => {
                            return;
                        },
                    };
                    let size = match parse_hex_bytes_u64(&line[s_s..s_e]) {
                        Some(v) => v,
                        None => {
                            return;
                        },
                    };
                    if !check_ascii(&line[r_s..r_e]) {
                        return;
                    }
                    let rules = ascii_bytes_to_string(&line[r_s..r_e]);
                    proof {
                        assert(cfi_init_of(line@) == Some(
                            (address, size, line@.subrange(r_s as int, r_e as int)),
                        ));
                    }
                    self.flush_cfi();
                    let ghost mid = *self;
                    self.cur_cfi = CfiRecord { address, size, rules, deltas: Vec::new() };
                    self.cur_cfi_present = true;
                    proof {
                        assert(self.covers(line@));
                        assert forall|l: Seq<u8>| #[trigger] old(self).covers(
                            l,
                        ) implies self.covers(l) by {
                            assert(mid.covers(l));
                            assert(!mid.cur_cfi_present);
                            assert(self.cfi@ == mid.cfi@);
                        }
                    }
                    return;
                }
                // STACK CFI <address> <rules>, inside the open window
                let address = match parse_hex_bytes_u64(&line[t_s..t_e]) {
                    Some(v) => v,
                    None => {
                        return;
                    },
                };
                let (r_s, r_e) = rest_bounds(line, t_e);
                if !check_ascii(&line[r_s..r_e]) {
                    return;
                }
                if self.cur_cfi_present && self.cur_cfi.address <= address && address
                    - self.cur_cfi.address < self.cur_cfi.size {
                    let rules = ascii_bytes_to_string(&line[r_s..r_e]);
                    self.cur_cfi.deltas.push(CfiDelta { address, rules });
                }
                return;
            }
            if is_kw_win(&line[k_s..k_e]) {
                // STACK WIN <type> <address> <size> <rest>
                let (t_s, t_e) = next_token(line, k_e);
                let (a_s, a_e) = next_token(line, t_e);
                let (s_s, s_e) = next_token(line, a_e);
                let (r_s, r_e) = rest_bounds(line, s_e);
                proof {
                    let l = line@;
                    assert(first_token(l.skip(k_e as int)) == l.subrange(t_s as int, t_e as int));
                    assert(rest_after_token(l.skip(k_e as int)) == l.skip(t_e as int));
                    assert(first_token(l.skip(t_e as int)) == l.subrange(a_s as int, a_e as int));
                    assert(rest_after_token(l.skip(t_e as int)) == l.skip(a_e as int));
                    assert(first_token(l.skip(a_e as int)) == l.subrange(s_s as int, s_e as int));
                    assert(rest_after_token(l.skip(a_e as int)) == l.skip(s_e as int));
                    assert(trimmed_rest(l.skip(s_e as int)) == l.subrange(r_s as int, r_e as int));
                }
                let wtype = match parse_hex_bytes_u64(&line[t_s..t_e]) {
                    Some(v) => v,
                    None => {
                        return;
                    },
                };
                let address = match parse_hex_bytes_u64(&line[a_s..a_e]) {
                    Some(v) => v,
                    None => {
                        return;
                    },
                };
                let size = match parse_hex_bytes_u64(&line[s_s..s_e]) {
                    Some(v) => v,
                    None => {
                        return;
                    },
                };
                if !check_ascii(&line[r_s..r_e]) {
                    return;
                }
                let info = ascii_bytes_to_string(&line[r_s..r_e]);
                proof {
                    assert(win_header_of(line@) == Some(
                        (wtype, address, size, line@.subrange(r_s as int, r_e as int)),
                    ));
                }
                let ghost win_before = self.win@;
                self.win.push(WinRecord { wtype, address, size, info });
                proof {
                    assert(self.win@[self.win@.len() - 1].wtype == wtype);
                    assert(has_win(
                        self.win@,
                        wtype,
                        address,
                        size,
                        line@.subrange(r_s as int, r_e as int),
                    ));
                    assert forall|g: WinRecord|
                        win_in(self.win@, g) implies win_in(win_before, g) || line_declares_win(
                        line@,
                        g,
                    ) by {
                        let i = choose|i: int| 0 <= i < self.win@.len() && self.win@[i] == g;
                        if i < win_before.len() {
                            assert(win_before[i] == g);
                        }
                    }
                    assert forall|l2: Seq<u8>| #[trigger] old(self).covers(l2) implies self.covers(
                        l2,
                    ) by {
                        match win_header_of(l2) {
                            Some(h) => {
                                if all_ascii(h.3) && has_win(win_before, h.0, h.1, h.2, h.3) {
                                    let i = choose|i: int|
                                        0 <= i < win_before.len() && (#[trigger] win_before[i]).wtype
                                            == h.0 && win_before[i].address == h.1
                                            && win_before[i].size == h.2 && win_before[i].info@
                                            == ascii_chars(h.3);
                                    assert(self.win@[i].wtype == h.0);
                                }
                            },
                            None => {},
                        }
                    }
                }
            }
            return;
        }
        // A line-data continuation record: <address> <size> <line> <file>
        let address = match parse_hex_bytes_u64(&line[t0s..t0e]) {
            Some(v) => v,
            None => {
                return;
            },
        };
        proof {
            lemma_hex_token_not_keyword(line@.subrange(t0s as int, t0e as int));
        }
        if !self.cur_func_present {
            return;
        }
        let (s_s, s_e) = next_token(line, t0e);
        let size = match parse_hex_bytes_u64(&line[s_s..s_e]) {
            Some(v) => v,
            None => {
                return;
            },
        };
        let (l_s, l_e) = next_token(line, s_e);
        let linenum = match parse_dec_bytes_u32(&line[l_s..l_e]) {
            Some(v) => v,
            None => {
                return;
            },
        };
        let (f_s, f_e) = next_token(line, l_e);
        let file_index = match parse_dec_bytes_u32(&line[f_s..f_e]) {
            Some(v) => v,
            None => {
                return;
            },
        };
        self.cur_func.lines.push(LineRecord { address, size, line: linenum, file_index });
    }

    /// Flushes open records and returns the finished store, which covers
    /// every line the builder covered.
    fn finish(self) -> (s: SymbolStore)
        requires
            self.wf(),
        ensures
            s.wf(),
            s.module_seen == self.module_seen,
            forall|l: Seq<u8>| #[trigger] self.covers(l) ==> s.covers_line(l),
            forall|g: FuncRecord|
                func_in(s.funcs@, g) ==> func_in(self.funcs@, g) || (self.cur_func_present && g
                    == self.cur_func),
            forall|g: CfiRecord|
                cfi_in(s.cfi@, g) ==> cfi_in(self.cfi@, g) || (self.cur_cfi_present && g
                    == self.cur_cfi),
            s.publics == self.publics,
            s.files == self.files,
            s.win == self.win,
    {
        let mut b = self;
        b.flush_func();
        b.flush_cfi();
        proof {
            assert(!b.cur_func_present && !b.cur_cfi_present);
        }
        let ghost done = b;
        let Builder { module_seen, module_id, files, funcs, publics, cfi, win, .. } = b;
        let s = SymbolStore { module_seen, module_id, files, funcs, publics, cfi, win };
        proof {
            assert forall|l: Seq<u8>| #[trigger] self.covers(l) implies s.covers_line(l) by {
                assert(done.covers(l));
            }
        }
        s
    }
}

/// Inserts `f` before the first record with a greater start address,
/// keeping the records sorted and the file order of equal addresses.
fn insert_func_sorted(funcs: &mut Vec<FuncRecord>, f: FuncRecord)
    requires
        funcs_sorted(old(funcs)@),
    ensures
        funcs_sorted(final(funcs)@),
        exists|k: int| 0 <= k <= old(funcs)@.len() && final(funcs)@ == old(funcs)@.insert(k, f),
        forall|g: FuncRecord| func_in(old(funcs)@, g) ==> func_in(final(funcs)@, g),
        forall|g: FuncRecord| func_in(final(funcs)@, g) ==> func_in(old(funcs)@, g) || g == f,
        func_in(final(funcs)@, f),
{
    let ghost prev = funcs@;
    let n = funcs.len();
    let mut idx: usize = 0;
    while idx < n && funcs[idx].address <= f.address
        invariant
            0 <= idx <= n,
            n == funcs@.len(),
            funcs@ == prev,
            funcs_sorted(prev),
            forall|i: int| 0 <= i < idx ==> prev[i].address <= f.address,
        decreases n - idx,
    {
        idx = idx + 1;
    }
    proof {
        assert forall|i: int| idx <= i < prev.len() implies prev[i].address > f.address by {
            if i > idx {
                assert(prev[idx as int].address <= prev[i].address);
            }
        }
    }
    funcs.insert(idx, f);
    proof {
        assert(funcs@ =~= prev.insert(idx as int, f));
        let cur = funcs@;
        assert(cur[idx as int] == f);
        assert forall|g: FuncRecord| func_in(prev, g) implies func_in(cur, g) by {
            let i = choose|i: int| 0 <= i < prev.len() && prev[i] == g;
            if i < idx {
                assert(cur[i] == g);
            } else {
                assert(cur[i + 1] == g);
            }
        }
        assert forall|g: FuncRecord| func_in(cur, g) implies func_in(prev, g) || g == f by {
            let i = choose|i: int| 0 <= i < cur.len() && cur[i] == g;
            if i < idx {
                assert(prev[i] == g);
            } else if i > idx {
                assert(prev[i - 1] == g);
            }
        }
        assert forall|i: int, j: int|
            0 <= i < j < cur.len() implies cur[i].address <= cur[j].address by {
            if i < idx {
                assert(cur[i] == prev[i]);
            } else if i > idx {
                assert(cur[i] == prev[i - 1]);
            }
            if j < idx {
                assert(cur[j] == prev[j]);
            } else if j > idx {
                assert(cur[j] == prev[j - 1]);
            }
        }
    }
}

/// Inserts `p` before the first record with a greater start address.
fn insert_public_sorted(publics: &mut Vec<PublicRecord>, p: PublicRecord)
    requires
        publics_sorted(old(publics)@),
    ensures
        publics_sorted(final(publics)@),
        exists|k: int| 0 <= k <= old(publics)@.len() && final(publics)@ == old(publics)@.insert(
            k,
            p,
        ),
        forall|g: PublicRecord| public_in(old(publics)@, g) ==> public_in(final(publics)@, g),
        forall|g: PublicRecord| public_in(final(publics)@, g) ==> public_in(old(publics)@, g) || g
            == p,
        public_in(final(publics)@, p),
{
    let ghost prev = publics@;
    let n = publics.len();
    let mut idx: usize = 0;
    while idx < n && publics[idx].address <= p.address
        invariant
            0 <= idx <= n,
            n == publics@.len(),
            publics@ == prev,
            publics_sorted(prev),
            forall|i: int| 0 <= i < idx ==> prev[i].address <= p.address,
        decreases n - idx,
    {
        idx = idx + 1;
    }
    proof {
        assert forall|i: int| idx <= i < prev.len() implies prev[i].address > p.address by {
            if i > idx {
                assert(prev[idx as int].address <= prev[i].address);
            }
        }
    }
    publics.insert(idx, p);
    proof {
        assert(publics@ =~= prev.insert(idx as int, p));
        let cur = publics@;
        assert(cur[idx as int] == p);
        assert forall|g: PublicRecord| public_in(prev, g) implies public_in(cur, g) by {
            let i = choose|i: int| 0 <= i < prev.len() && prev[i] == g;
            if i < idx {
                assert(cur[i] == g);
            } else {
                assert(cur[i + 1] == g);
            }
        }
        assert forall|g: PublicRecord| public_in(cur, g) implies public_in(prev, g) || g == p by {
            let i = choose|i: int| 0 <= i < cur.len() && cur[i] == g;
            if i < idx {
                assert(prev[i] == g);
            } else if i > idx {
                assert(prev[i - 1] == g);
            }
        }
        assert forall|i: int, j: int|
            0 <= i < j < cur.len() implies cur[i].address <= cur[j].address by {
            if i < idx {
                assert(cur[i] == prev[i]);
            } else if i > idx {
                assert(cur[i] == prev[i - 1]);
            }
            if j < idx {
                assert(cur[j] == prev[j]);
            } else if j > idx {
                assert(cur[j] == prev[j - 1]);
            }
        }
    }
}

/// Inserts `c` before the first window with a greater start address.
fn insert_cfi_sorted(cfi: &mut Vec<CfiRecord>, c: CfiRecord)
    requires
        cfi_sorted(old(cfi)@),
    ensures
        cfi_sorted(final(cfi)@),
        exists|k: int| 0 <= k <= old(cfi)@.len() && final(cfi)@ == old(cfi)@.insert(k, c),
        forall|g: CfiRecord| cfi_in(old(cfi)@, g) ==> cfi_in(final(cfi)@, g),
        forall|g: CfiRecord| cfi_in(final(cfi)@, g) ==> cfi_in(old(cfi)@, g) || g == c,
        cfi_in(final(cfi)@, c),
{
    let ghost prev = cfi@;
    let n = cfi.len();
    let mut idx: usize = 0;
    while idx < n && cfi[idx].address <= c.address
        invariant
            0 <= idx <= n,
            n == cfi@.len(),
            cfi@ == prev,
            cfi_sorted(prev),
            forall|i: int| 0 <= i < idx ==> prev[i].address <= c.address,
        decreases n - idx,
    {
        idx = idx + 1;
    }
    proof {
        assert forall|i: int| idx <= i < prev.len() implies prev[i].address > c.address by {
            if i > idx {
                assert(prev[idx as int].address <= prev[i].address);
            }
        }
    }
    cfi.insert(idx, c);
    proof {
        assert(cfi@ =~= prev.insert(idx as int, c));
        let cur = cfi@;
        assert(cur[idx as int] == c);
        assert forall|g: CfiRecord| cfi_in(prev, g) implies cfi_in(cur, g) by {
            let i = choose|i: int| 0 <= i < prev.len() && prev[i] == g;
            if i < idx {
                assert(cur[i] == g);
            } else {
                assert(cur[i + 1] == g);
            }
        }
        assert forall|g: CfiRecord| cfi_in(cur, g) implies cfi_in(prev, g) || g == c by {
            let i = choose|i: int| 0 <= i < cur.len() && cur[i] == g;
            if i < idx {
                assert(prev[i] == g);
            } else if i > idx {
                assert(prev[i - 1] == g);
            }
        }
        assert forall|i: int, j: int|
            0 <= i < j < cur.len() implies cur[i].address <= cur[j].address by {
            if i < idx {
                assert(cur[i] == prev[i]);
            } else if i > idx {
                assert(cur[i] == prev[i - 1]);
            }
            if j < idx {
                assert(cur[j] == prev[j]);
            } else if j > idx {
                assert(cur[j] == prev[j - 1]);
            }
        }
    }
}

} // verus!
