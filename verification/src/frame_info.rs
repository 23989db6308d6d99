//! Caller-supplied frame information, keyed by module identifier.
//!
//! The map carries, per module, the raw bytes of that module's symbol
//! records holding `STACK CFI` / `STACK WIN` data. Entries are kept sorted
//! by identifier so that symbol assembly for the walker is deterministic.

use vstd::prelude::*;

use crate::code_module::{id_lt, CodeModuleId};

verus! {

/// Entries of a map, strictly sorted by identifier.
pub open spec fn entries_sorted(s: Seq<(CodeModuleId, Vec<u8>)>) -> bool {
    forall|i: int, j: int| 0 <= i < j < s.len() ==> id_lt(s[i].0, s[j].0)
}

/// Some entry carries `id`.
pub open spec fn entries_have_key(s: Seq<(CodeModuleId, Vec<u8>)>, id: CodeModuleId) -> bool {
    exists|i: int| 0 <= i < s.len() && s[i].0 == id
}

proof fn lemma_sorted_unique(s: Seq<(CodeModuleId, Vec<u8>)>, i: int, j: int)
    requires
        entries_sorted(s),
        0 <= i < s.len(),
        0 <= j < s.len(),
        s[i].0 == s[j].0,
    ensures
        i == j,
{
    if i < j {
        assert(id_lt(s[i].0, s[j].0));
    }
    if j < i {
        assert(id_lt(s[j].0, s[i].0));
    }
}

/// Frame information for modules: an ordered mapping from module
/// identifier to raw symbol-record bytes.
#[derive(Debug)]
pub struct FrameInfoMap {
    pub entries: Vec<(CodeModuleId, Vec<u8>)>,
}

impl FrameInfoMap {
    /// Entries are strictly sorted by identifier, so keys are unique.
    pub open spec fn wf(&self) -> bool {
        entries_sorted(self.entries@)
    }

    /// Builds an empty map.
    pub fn new() -> (r: FrameInfoMap)
        ensures
            r.wf(),
            r.entries@.len() == 0,
    {
        FrameInfoMap { entries: Vec::new() }
    }

    /// Number of modules with frame information.
    pub fn len(&self) -> (r: usize)
        ensures
            r == self.entries@.len(),
    {
        self.entries.len()
    }

    /// Inserts frame information for `id`, replacing any previous entry.
    pub fn insert(&mut self, id: CodeModuleId, data: Vec<u8>)
        requires
            old(self).wf(),
        ensures
            final(self).wf(),
            entries_have_key(final(self).entries@, id),
            forall|i: int|
                0 <= i < final(self).entries@.len() && (#[trigger] final(self).entries@[i]).0 == id
                    ==> final(self).entries@[i].1@ == data@,
            forall|k: CodeModuleId|
                k != id ==> (entries_have_key(final(self).entries@, k) <==> entries_have_key(
                    old(self).entries@,
                    k,
                )),
            forall|i: int, j: int|
                #![trigger final(self).entries@[i], old(self).entries@[j]]
                {
                    let new_entries = final(self).entries@;
                    let old_entries = old(self).entries@;
                    0 <= i < new_entries.len() && 0 <= j < old_entries.len() && new_entries[i].0
                        == old_entries[j].0 && new_entries[i].0 != id ==> new_entries[i].1
                        == old_entries[j].1
                },
    {
        let ghost prev = self.entries@;
        let n = self.entries.len();
        let mut idx: usize = 0;
        while idx < n && (self.entries[idx].0.uuid < id.uuid || (self.entries[idx].0.uuid
            == id.uuid && self.entries[idx].0.age < id.age))
            invariant
                0 <= idx <= n,
                n == self.entries@.len(),
                self.entries@ == prev,
                entries_sorted(prev),
                forall|i: int| 0 <= i < idx ==> id_lt((#[trigger] self.entries@[i]).0, id),
            decreases n - idx,
        {
            idx = idx + 1;
        }
        if idx < n && self.entries[idx].0 == id {
            self.entries.remove(idx);
            self.entries.insert(idx, (id, data));
            proof {
                assert(self.entries@ =~= prev.update(idx as int, (id, data)));
                assert(self.entries@[idx as int].0 == id);
                let cur = self.entries@;
                assert forall|i: int| 0 <= i < cur.len() && (#[trigger] cur[i]).0 == id implies i
                    == idx by {
                    if i != idx {
                        lemma_sorted_unique(prev, i, idx as int);
                    }
                }
                assert forall|i: int, j: int|
                    0 <= i < cur.len() && 0 <= j < prev.len() && (#[trigger] cur[i]).0 == (
                    #[trigger] prev[j]).0 && cur[i].0 != id implies cur[i].1 == prev[j].1 by {
                    lemma_sorted_unique(prev, i, j);
                }
                assert forall|k: CodeModuleId| k != id implies (entries_have_key(cur, k)
                    <==> entries_have_key(prev, k)) by {
                    if entries_have_key(cur, k) {
                        let w = choose|w: int| 0 <= w < cur.len() && cur[w].0 == k;
                        assert(prev[w].0 == k);
                    }
                    if entries_have_key(prev, k) {
                        let w = choose|w: int| 0 <= w < prev.len() && prev[w].0 == k;
                        assert(cur[w].0 == k);
                    }
                }
            }
        } else {
            proof {
                assert forall|i: int| idx <= i < prev.len() implies id_lt(
                    id,
                    (#[trigger] prev[i]).0,
                ) by {
                    assert(!id_lt(prev[idx as int].0, id));
                    assert(prev[idx as int].0 != id);
                    if i != idx {
                        assert(id_lt(prev[idx as int].0, prev[i].0));
                    }
                }
            }
            self.entries.insert(idx, (id, data));
            proof {
                assert(self.entries@ =~= prev.insert(idx as int, (id, data)));
                assert(self.entries@[idx as int].0 == id);
                let cur = self.entries@;
                assert forall|i: int| 0 <= i < cur.len() && (#[trigger] cur[i]).0 == id implies i
                    == idx by {
                    if i < idx {
                        assert(cur[i] == prev[i]);
                    } else if i > idx {
                        assert(cur[i] == prev[i - 1]);
                    }
                }
                assert forall|i: int, j: int|
                    0 <= i < cur.len() && 0 <= j < prev.len() && (#[trigger] cur[i]).0 == (
                    #[trigger] prev[j]).0 && cur[i].0 != id implies cur[i].1 == prev[j].1 by {
                    if i < idx {
                        assert(cur[i] == prev[i]);
                        lemma_sorted_unique(prev, i, j);
                    } else if i > idx {
                        assert(cur[i] == prev[i - 1]);
                        lemma_sorted_unique(prev, i - 1, j);
                    }
                }
                assert forall|k: CodeModuleId| k != id implies (entries_have_key(cur, k)
                    <==> entries_have_key(prev, k)) by {
                    if entries_have_key(cur, k) {
                        let w = choose|w: int| 0 <= w < cur.len() && cur[w].0 == k;
                        if w < idx {
                            assert(prev[w].0 == k);
                        } else {
                            assert(prev[w - 1].0 == k);
                        }
                    }
                    if entries_have_key(prev, k) {
                        let w = choose|w: int| 0 <= w < prev.len() && prev[w].0 == k;
                        if w < idx {
                            assert(cur[w].0 == k);
                        } else {
                            assert(cur[w + 1].0 == k);
                        }
                    }
                }
            }
        }
    }

    /// Looks up the frame information stored for `id`.
    pub fn get(&self, id: &CodeModuleId) -> (r: Option<&Vec<u8>>)
        ensures
            match r {
                Some(v) => exists|i: int|
                    0 <= i < self.entries@.len() && (#[trigger] self.entries@[i]).0 == *id
                        && self.entries@[i].1 == *v && (forall|j: int|
                        0 <= j < i ==> (#[trigger] self.entries@[j]).0 != *id),
                None => !entries_have_key(self.entries@, *id),
            },
    {
        let n = self.entries.len();
        let mut idx: usize = 0;
        while idx < n
            invariant
                0 <= idx <= n,
                n == self.entries@.len(),
                forall|i: int| 0 <= i < idx ==> (#[trigger] self.entries@[i]).0 != *id,
            decreases n - idx,
        {
            if self.entries[idx].0 == *id {
                proof {
                    assert(entries_have_key(self.entries@, *id));
                }
                return Some(&self.entries[idx].1);
            }
            idx = idx + 1;
        }
        None
    }

    /// The entries in identifier order.
    pub fn entries(&self) -> (r: &Vec<(CodeModuleId, Vec<u8>)>)
        ensures
            r == &self.entries,
    {
        &self.entries
    }
}

} // verus!
