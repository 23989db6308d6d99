//! Module identifiers and descriptors of loaded binary modules.
//!
//! A `CodeModuleId` is a 128-bit build UUID plus a 32-bit age counter,
//! written canonically as 32 uppercase hexadecimal digits immediately
//! followed by the age in unpadded uppercase hexadecimal. A `CodeModule`
//! describes one binary loaded into the crashed process; its identity
//! (equality and ordering) is decided solely by its identifier.

use vstd::prelude::*;
use vstd::string::StringExecFns;
use vstd::string::StrSliceExecFns;
use vstd::std_specs::cmp::PartialEqSpec;
use vstd::std_specs::cmp::PartialOrdSpec;
use core::cmp::Ordering;

use crate::digits::{
    all_hex_chars, hex_chars_value, lemma_hex_chars_value_bound, lemma_pow16_32,
    lemma_to_hex_fixed_ok, lemma_to_hex_min_ok, parse_hex_chars_u128, parse_hex_chars_u32,
    push_hex_fixed, push_hex_min, to_hex_fixed, to_hex_min,
};
use crate::errors::Error;

verus! {

/// Unique identifier of a `CodeModule`: a build UUID and an age counter.
#[derive(Debug, PartialEq, Eq, Structural, Hash, Clone, Copy)]
pub struct CodeModuleId {
    pub uuid: u128,
    pub age: u32,
}

/// The canonical text of `s` parses as an identifier: at least 33
/// characters, a 32-digit hexadecimal UUID, and a hexadecimal age that
/// fits 32 bits.
pub open spec fn id_parse_ok(s: Seq<char>) -> bool {
    &&& s.len() >= 33
    &&& all_hex_chars(s.subrange(0, 32))
    &&& all_hex_chars(s.subrange(32, s.len() as int))
    &&& hex_chars_value(s.subrange(32, s.len() as int)) <= u32::MAX
}

/// The identifier a well-formed identifier string denotes.
pub open spec fn id_of_chars(s: Seq<char>) -> CodeModuleId {
    CodeModuleId {
        uuid: hex_chars_value(s.subrange(0, 32)) as u128,
        age: hex_chars_value(s.subrange(32, s.len() as int)) as u32,
    }
}

/// Canonical text of an identifier: 32 fixed uppercase UUID digits, then
/// the age unpadded.
pub open spec fn id_format(id: CodeModuleId) -> Seq<char> {
    to_hex_fixed(id.uuid as int, 32) + to_hex_min(id.age as nat)
}

/// Strict lexicographic order on (uuid, age).
pub open spec fn id_lt(a: CodeModuleId, b: CodeModuleId) -> bool {
    a.uuid < b.uuid || (a.uuid == b.uuid && a.age < b.age)
}

impl CodeModuleId {
    /// Builds an identifier directly from its two components.
    pub fn new(uuid: u128, age: u32) -> (r: CodeModuleId)
        ensures
            r.uuid == uuid,
            r.age == age,
    {
        CodeModuleId { uuid, age }
    }

    /// Parses the canonical text form. Succeeds exactly on strings of 33 or
    /// more hexadecimal digits whose age part fits 32 bits; either case of
    /// digit is accepted.
    pub fn parse(input: &str) -> (r: Result<CodeModuleId, Error>)
        ensures
            match r {
                Ok(id) => id_parse_ok(input@) && id == id_of_chars(input@),
                Err(e) => !id_parse_ok(input@) && e is ParseIdError,
            },
    {
        let n = input.unicode_len();
        if n < 33 {
            return Err(Error::ParseIdError(String::from_str("Invalid input string length")));
        }
        let uuid = match parse_hex_chars_u128(input, 0, 32) {
            Some(v) => v,
            None => {
                return Err(Error::ParseIdError(String::from_str("Could not parse UUID")));
            },
        };
        let age = match parse_hex_chars_u32(input, 32, n) {
            Some(v) => v,
            None => {
                return Err(Error::ParseIdError(String::from_str("Could not parse age")));
            },
        };
        proof {
            lemma_hex_chars_value_bound(input@.subrange(0, 32));
            lemma_pow16_32();
        }
        Ok(CodeModuleId { uuid, age })
    }

    /// Renders the canonical text form.
    pub fn format(&self) -> (r: String)
        ensures
            r@ == id_format(*self),
    {
        proof {
            lemma_pow16_32();
        }
        let mut out = String::new();
        push_hex_fixed(&mut out, self.uuid, 32);
        push_hex_min(&mut out, self.age);
        out
    }

    /// The UUID part of the identifier.
    pub fn uuid(&self) -> (r: u128)
        ensures
            r == self.uuid,
    {
        self.uuid
    }

    /// The age part of the identifier. On Windows this is an incrementing
    /// build counter; on other platforms it is usually zero.
    pub fn age(&self) -> (r: u32)
        ensures
            r == self.age,
    {
        self.age
    }

    /// Compares identifiers lexicographically on (uuid, age).
    pub fn lt(&self, other: &CodeModuleId) -> (r: bool)
        ensures
            r == id_lt(*self, *other),
    {
        self.uuid < other.uuid || (self.uuid == other.uuid && self.age < other.age)
    }
}

/// Round trip: parsing the canonical text of any identifier yields the
/// identifier back.
pub proof fn lemma_id_round_trip(id: CodeModuleId)
    ensures
        id_parse_ok(id_format(id)),
        id_of_chars(id_format(id)) == id,
{
    let s = id_format(id);
    lemma_pow16_32();
    lemma_to_hex_fixed_ok(id.uuid as int, 32);
    lemma_to_hex_min_ok(id.age as nat);
    assert(s.subrange(0, 32) =~= to_hex_fixed(id.uuid as int, 32));
    assert(s.subrange(32, s.len() as int) =~= to_hex_min(id.age as nat));
}

/// Descriptor of one code module loaded into the crashed process. The
/// parsed identifier is stored beside its text; well-formedness ties the
/// two together.
#[derive(Debug)]
pub struct CodeModule {
    pub base_address: u64,
    pub size: u64,
    pub code_file: String,
    pub code_identifier: String,
    pub debug_file: String,
    pub debug_identifier: String,
    pub id: CodeModuleId,
}

/// `addr` lies inside the module's loaded range.
pub open spec fn module_contains(m: &CodeModule, addr: u64) -> bool {
    m.base_address <= addr && addr < m.base_address + m.size
}

impl CodeModule {
    /// The stored identifier is exactly the parse of the identifier text.
    pub open spec fn wf(&self) -> bool {
        &&& id_parse_ok(self.debug_identifier@)
        &&& self.id == id_of_chars(self.debug_identifier@)
    }

    /// Builds a descriptor; fails exactly when the debug identifier text
    /// does not parse.
    pub fn new(
        base_address: u64,
        size: u64,
        code_file: String,
        code_identifier: String,
        debug_file: String,
        debug_identifier: String,
    ) -> (r: Option<CodeModule>)
        ensures
            match r {
                Some(m) => {
                    &&& m.wf()
                    &&& m.base_address == base_address
                    &&& m.size == size
                    &&& m.code_file@ == code_file@
                    &&& m.code_identifier@ == code_identifier@
                    &&& m.debug_file@ == debug_file@
                    &&& m.debug_identifier@ == debug_identifier@
                },
                None => !id_parse_ok(debug_identifier@),
            },
    {
        match CodeModuleId::parse(debug_identifier.as_str()) {
            Ok(id) => Some(
                CodeModule {
                    base_address,
                    size,
                    code_file,
                    code_identifier,
                    debug_file,
                    debug_identifier,
                    id,
                },
            ),
            Err(_) => None,
        }
    }

    /// The unique identifier of this module.
    pub fn id(&self) -> (r: CodeModuleId)
        ensures
            r == self.id,
    {
        self.id
    }

    /// The base address the module was loaded at.
    pub fn base_address(&self) -> (r: u64)
        ensures
            r == self.base_address,
    {
        self.base_address
    }

    /// The size of the module's loaded range.
    pub fn size(&self) -> (r: u64)
        ensures
            r == self.size,
    {
        self.size
    }

    /// The path the module was loaded from.
    pub fn code_file(&self) -> (r: String)
        ensures
            r@ == self.code_file@,
    {
        self.code_file.clone()
    }

    /// An identifying string for the specific build of the module.
    pub fn code_identifier(&self) -> (r: String)
        ensures
            r@ == self.code_identifier@,
    {
        self.code_identifier.clone()
    }

    /// The file holding this module's debugging information.
    pub fn debug_file(&self) -> (r: String)
        ensures
            r@ == self.debug_file@,
    {
        self.debug_file.clone()
    }

    /// The text form of this module's debug identifier.
    pub fn debug_identifier(&self) -> (r: String)
        ensures
            r@ == self.debug_identifier@,
    {
        self.debug_identifier.clone()
    }

    /// Whether `addr` falls inside this module's loaded range.
    pub fn contains(&self, addr: u64) -> (r: bool)
        ensures
            r == module_contains(self, addr),
    {
        self.base_address <= addr && addr - self.base_address < self.size
    }
}

impl Clone for CodeModule {
    /// Clones every field; the copy equals the value it was made from.
    fn clone(&self) -> (r: Self)
        ensures
            r == *self,
    {
        CodeModule {
            base_address: self.base_address,
            size: self.size,
            code_file: self.code_file.clone(),
            code_identifier: self.code_identifier.clone(),
            debug_file: self.debug_file.clone(),
            debug_identifier: self.debug_identifier.clone(),
            id: self.id,
        }
    }
}

impl PartialEq for CodeModule {
    /// Module equality is identifier equality.
    fn eq(&self, other: &Self) -> (r: bool) {
        self.id == other.id
    }
}

impl vstd::std_specs::cmp::PartialEqSpecImpl for CodeModule {
    open spec fn obeys_eq_spec() -> bool {
        true
    }

    open spec fn eq_spec(&self, other: &CodeModule) -> bool {
        self.id == other.id
    }
}

impl PartialOrd for CodeModule {
    /// Module ordering is lexicographic on the identifier.
    fn partial_cmp(&self, other: &Self) -> (r: Option<Ordering>) {
        if self.id.uuid < other.id.uuid || (self.id.uuid == other.id.uuid && self.id.age
            < other.id.age) {
            Some(Ordering::Less)
        } else if self.id.uuid == other.id.uuid && self.id.age == other.id.age {
            Some(Ordering::Equal)
        } else {
            Some(Ordering::Greater)
        }
    }
}

impl vstd::std_specs::cmp::PartialOrdSpecImpl for CodeModule {
    open spec fn obeys_partial_cmp_spec() -> bool {
        true
    }

    open spec fn partial_cmp_spec(&self, other: &CodeModule) -> Option<Ordering> {
        if id_lt(self.id, other.id) {
            Some(Ordering::Less)
        } else if self.id == other.id {
            Some(Ordering::Equal)
        } else {
            Some(Ordering::Greater)
        }
    }
}

/// Equality and ordering of modules always agree: two modules are equal
/// exactly when their ordering compares them equal.
pub proof fn lemma_module_order_consistent(a: &CodeModule, b: &CodeModule)
    ensures
        a.eq_spec(b) <==> a.partial_cmp_spec(b) == Some(Ordering::Equal),
{
}

/// Modules with the same debug identifier text agree under equality and
/// ordering: both relations are decided by the identifier alone.
pub proof fn lemma_module_identity_by_id(a: &CodeModule, b: &CodeModule)
    requires
        a.wf(),
        b.wf(),
        a.debug_identifier@ == b.debug_identifier@,
    ensures
        a.eq_spec(b),
        a.partial_cmp_spec(b) == Some(Ordering::Equal),
{
}

} // verus!
