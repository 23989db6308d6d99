//! Source line resolution of stack frames against one symbol store.
//!
//! A resolver is built once from a symbol buffer and is immutable
//! afterwards; it is either usable or corrupt, fixed at construction.
//! Queries never fail: an address without symbols resolves to empty
//! fields, which is the common case in real crashes.

use vstd::prelude::*;
use vstd::string::StringExecFns;

use crate::errors::Error;
use crate::resolved_stack_frame::ResolvedStackFrame;
use crate::stack_frame::StackFrame;
use crate::symbol_store::{
    cfi_from_lines, func_contains, func_from_lines, has_module_line, line_contains,
    public_from_lines, FuncRecord, SymbolStore,
};
use crate::tokens::lines_of;

verus! {

/// The resolved fields say "no match": empty names and a zero line.
pub open spec fn unresolved_fields(r: &ResolvedStackFrame) -> bool {
    &&& r.function_name@.len() == 0
    &&& r.source_file_name@.len() == 0
    &&& r.source_line == 0
}

/// Index `i` is the first `FUNC` record of `store` containing `rel`.
pub open spec fn func_first_match(store: &SymbolStore, rel: u64, i: int) -> bool {
    &&& 0 <= i < store.funcs@.len()
    &&& func_contains(&store.funcs@[i], rel)
    &&& forall|j: int| 0 <= j < i ==> !func_contains(&#[trigger] store.funcs@[j], rel)
}

/// No `FUNC` record of `store` contains `rel`.
pub open spec fn no_func_match(store: &SymbolStore, rel: u64) -> bool {
    forall|i: int| 0 <= i < store.funcs@.len() ==> !func_contains(&#[trigger] store.funcs@[i], rel)
}

/// Index `i` is the last `PUBLIC` record of `store` at or below `rel`.
pub open spec fn public_last_match(store: &SymbolStore, rel: u64, i: int) -> bool {
    &&& 0 <= i < store.publics@.len()
    &&& store.publics@[i].address <= rel
    &&& forall|j: int|
        i < j < store.publics@.len() ==> (#[trigger] store.publics@[j]).address > rel
}

/// No `PUBLIC` record of `store` lies at or below `rel`.
pub open spec fn no_public_match(store: &SymbolStore, rel: u64) -> bool {
    forall|i: int| 0 <= i < store.publics@.len() ==> (#[trigger] store.publics@[i]).address > rel
}

/// Index `i` is the first line record of `f` containing `rel`.
pub open spec fn line_first_match(f: &FuncRecord, rel: u64, i: int) -> bool {
    &&& 0 <= i < f.lines@.len()
    &&& line_contains(f.lines@[i], rel)
    &&& forall|j: int| 0 <= j < i ==> !line_contains(#[trigger] f.lines@[j], rel)
}

/// No line record of `f` contains `rel`.
pub open spec fn no_line_match(f: &FuncRecord, rel: u64) -> bool {
    forall|i: int| 0 <= i < f.lines@.len() ==> !line_contains(#[trigger] f.lines@[i], rel)
}

/// The source file fields `r` must carry for a line record with file
/// index `idx`: the path of the first `FILE` record declaring `idx`, or
/// empty when none does.
pub open spec fn file_fields_ok(store: &SymbolStore, idx: u32, r: &ResolvedStackFrame) -> bool {
    ||| exists|i: int|
        0 <= i < store.files@.len() && (#[trigger] store.files@[i]).index == idx
            && r.source_file_name@ == store.files@[i].path@ && (forall|j: int|
            0 <= j < i ==> (#[trigger] store.files@[j]).index != idx)
    ||| (forall|i: int| 0 <= i < store.files@.len() ==> (#[trigger] store.files@[i]).index != idx)
        && r.source_file_name@.len() == 0
}

/// The line fields `r` must carry once function `f` matched at `rel`.
pub open spec fn line_fields_ok(
    store: &SymbolStore,
    f: &FuncRecord,
    rel: u64,
    r: &ResolvedStackFrame,
) -> bool {
    ||| exists|i: int|
        #![trigger f.lines@[i]]
        line_first_match(f, rel, i) && r.source_line == f.lines@[i].line && file_fields_ok(
            store,
            f.lines@[i].file_index,
            r,
        )
    ||| no_line_match(f, rel) && r.source_file_name@.len() == 0 && r.source_line == 0
}

/// What resolution returns for `frame` against `store`: the frame's own
/// fields unchanged; against a corrupt store nothing ever matches, and
/// otherwise the source fields are filled from the first matching `FUNC`
/// record, else the applicable `PUBLIC` record, else left empty.
/// Addresses are looked up relative to the frame's module; a frame with
/// no module resolves to empty fields.
pub open spec fn resolution_ok(
    store: &SymbolStore,
    frame: &StackFrame,
    r: &ResolvedStackFrame,
) -> bool {
    &&& r.instruction == frame.instruction
    &&& r.trust == frame.trust
    &&& r.module == frame.module
    &&& !store.module_seen ==> unresolved_fields(r)
    &&& store.module_seen ==> match frame.module {
        None => unresolved_fields(r),
        Some(m) => {
            if frame.instruction < m.base_address {
                unresolved_fields(r)
            } else {
                let rel = (frame.instruction - m.base_address) as u64;
                ||| exists|i: int|
                    #![trigger store.funcs@[i]]
                    func_first_match(store, rel, i) && r.function_name@ == store.funcs@[i].name@
                        && line_fields_ok(store, &store.funcs@[i], rel, r)
                ||| no_func_match(store, rel) && exists|i: int|
                    #![trigger store.publics@[i]]
                    public_last_match(store, rel, i) && r.function_name@
                        == store.publics@[i].name@ && r.source_file_name@.len() == 0
                        && r.source_line == 0
                ||| no_func_match(store, rel) && no_public_match(store, rel) && unresolved_fields(
                    r,
                )
            }
        },
    }
}

/// Source line resolver for stack frames, backed by one parsed symbol
/// store.
#[derive(Debug)]
pub struct Resolver {
    pub store: SymbolStore,
}

impl Resolver {
    /// The underlying store keeps its lookup structures sorted.
    pub open spec fn wf(&self) -> bool {
        self.store.wf()
    }

    /// Builds a resolver from a symbol buffer. Fails exactly when the
    /// buffer is empty; garbage content yields a usable, corrupt resolver.
    /// The resolver's store indexes exactly the buffer's records: it
    /// covers every well-formed record line, and every indexed record was
    /// declared by some line.
    pub fn from_buffer(buffer: &[u8]) -> (r: Result<Resolver, Error>)
        ensures
            match r {
                Ok(res) => {
                    &&& buffer@.len() > 0
                    &&& res.wf()
                    &&& res.store.module_seen == has_module_line(buffer@)
                    &&& forall|i: int|
                        0 <= i < lines_of(buffer@).len() ==> res.store.covers_line(
                            #[trigger] lines_of(buffer@)[i],
                        )
                    &&& forall|i: int|
                        0 <= i < res.store.funcs@.len() ==> func_from_lines(
                            lines_of(buffer@),
                            #[trigger] res.store.funcs@[i],
                        )
                    &&& forall|i: int|
                        0 <= i < res.store.publics@.len() ==> public_from_lines(
                            lines_of(buffer@),
                            #[trigger] res.store.publics@[i],
                        )
                    &&& forall|i: int|
                        0 <= i < res.store.cfi@.len() ==> cfi_from_lines(
                            lines_of(buffer@),
                            #[trigger] res.store.cfi@[i],
                        )
                },
                Err(e) => buffer@.len() == 0 && e is ResolverError,
            },
    {
        if buffer.len() == 0 {
            return Err(Error::ResolverError(String::from_str("Could not load symbols")));
        }
        Ok(Resolver { store: SymbolStore::from_buffer(buffer) })
    }

    /// Whether this resolver is corrupt; a corrupt resolver is still safe
    /// to query and never matches.
    pub fn corrupt(&self) -> (r: bool)
        ensures
            r == !self.store.module_seen,
    {
        !self.store.module_seen
    }

    /// Tries to locate the frame's instruction in the loaded symbols.
    /// Never fails: without a match the result carries the frame's fields
    /// and empty source information.
    pub fn resolve_frame(&self, frame: &StackFrame) -> (r: ResolvedStackFrame)
        requires
            self.wf(),
        ensures
            resolution_ok(&self.store, frame, &r),
    {
        let mut out = ResolvedStackFrame {
            instruction: frame.instruction,
            trust: frame.trust,
            module: match &frame.module {
                Some(m) => Some(m.clone()),
                None => None,
            },
            function_name: String::new(),
            source_file_name: String::new(),
            source_line: 0,
        };
        if !self.store.module_seen {
            return out;
        }
        let m = match &frame.module {
            Some(m) => m,
            None => {
                return out;
            },
        };
        if frame.instruction < m.base_address {
            return out;
        }
        let rel = frame.instruction - m.base_address;
        match self.store.find_function(rel) {
            Some(f) => {
                out.function_name = f.name.clone();
                match f.find_line(rel) {
                    Some(l) => {
                        out.source_line = l.line as i64;
                        match self.store.find_file(l.file_index) {
                            Some(fr) => {
                                out.source_file_name = fr.path.clone();
                            },
                            None => {},
                        }
                    },
                    None => {},
                }
            },
            None => {
                match self.store.find_public(rel) {
                    Some(p) => {
                        out.function_name = p.name.clone();
                    },
                    None => {},
                }
            },
        }
        out
    }
}

} // verus!
