//! The raw stack memory excerpt of one thread.

use vstd::prelude::*;

verus! {

/// A contiguous excerpt of the crashed process's stack: the bytes of
/// `[base, base + bytes.len())`.
#[derive(Debug)]
pub struct StackMemory {
    pub base: u64,
    pub bytes: Vec<u8>,
}

/// Little-endian value of a byte string.
pub open spec fn le_value(s: Seq<u8>) -> int
    decreases s.len(),
{
    if s.len() == 0 {
        0
    } else {
        s[0] + 256 * le_value(s.skip(1))
    }
}

/// 256 to the power `n`.
pub open spec fn pow256(n: nat) -> int
    decreases n,
{
    if n == 0 {
        1
    } else {
        256 * pow256((n - 1) as nat)
    }
}

pub proof fn lemma_le_value_bound(s: Seq<u8>)
    ensures
        0 <= le_value(s) < pow256(s.len()),
    decreases s.len(),
{
    if s.len() > 0 {
        lemma_le_value_bound(s.skip(1));
    }
}

pub proof fn lemma_pow256_pos(n: nat)
    ensures
        pow256(n) >= 1,
    decreases n,
{
    if n > 0 {
        lemma_pow256_pos((n - 1) as nat);
    }
}

pub proof fn lemma_pow256_mono(a: nat, b: nat)
    requires
        a <= b,
    ensures
        pow256(a) <= pow256(b),
    decreases b,
{
    if a < b {
        lemma_pow256_mono(a, (b - 1) as nat);
        lemma_pow256_pos((b - 1) as nat);
    }
}

pub proof fn lemma_pow256_8()
    ensures
        pow256(8) == 0x1_0000_0000_0000_0000,
{
    assert(pow256(0) == 1);
    assert(pow256(1) == 0x100);
    assert(pow256(2) == 0x1_0000);
    assert(pow256(3) == 0x100_0000);
    assert(pow256(4) == 0x1_0000_0000);
    assert(pow256(5) == 0x100_0000_0000);
    assert(pow256(6) == 0x1_0000_0000_0000);
    assert(pow256(7) == 0x100_0000_0000_0000);
    assert(pow256(8) == 0x1_0000_0000_0000_0000);
}

/// The 64-bit little-endian word stored at absolute address `addr`, when
/// the full word lies inside the excerpt.
pub open spec fn mem_word(m: &StackMemory, addr: u64) -> Option<u64> {
    if m.base <= addr && addr - m.base + 8 <= m.bytes@.len() {
        Some(le_value(m.bytes@.subrange(addr - m.base, addr - m.base + 8)) as u64)
    } else {
        None
    }
}

impl StackMemory {
    /// Reads the 64-bit little-endian word at absolute address `addr`.
    pub fn read_word(&self, addr: u64) -> (r: Option<u64>)
        ensures
            r == mem_word(self, addr),
    {
        if addr < self.base {
            return None;
        }
        let off = addr - self.base;
        let len = self.bytes.len() as u64;
        if off >= len || len - off < 8 {
            return None;
        }
        let ghost w = self.bytes@.subrange(off as int, off as int + 8);
        proof {
            lemma_le_value_bound(w);
            lemma_pow256_8();
        }
        let o = off as usize;
        let mut acc: u64 = 0;
        let mut i: usize = 8;
        while i > 0
            invariant
                0 <= i <= 8,
                o == off,
                off + 8 <= self.bytes@.len(),
                self.bytes@.len() <= usize::MAX,
                w == self.bytes@.subrange(off as int, off as int + 8),
                acc == le_value(w.skip(i as int)),
                acc < pow256((8 - i) as nat),
        decreases i,
        {
            proof {
                lemma_le_value_bound(w.skip(i - 1));
                assert(pow256((8 - (i - 1)) as nat) == 256 * pow256((8 - i) as nat));
                assert(w.skip(i - 1).skip(1) =~= w.skip(i as int));
                assert(w.skip(i - 1)[0] == w[i - 1]);
                assert(le_value(w.skip(i - 1)) == w[i - 1] + 256 * le_value(w.skip(i as int)));
                lemma_pow256_8();
                assert(pow256((8 - i + 1) as nat) <= pow256(8)) by {
                    if i > 1 {
                        assert(pow256(8) == 256 * pow256(7));
                        assert(pow256(7) == 256 * pow256(6));
                        assert(pow256(6) == 256 * pow256(5));
                        assert(pow256(5) == 256 * pow256(4));
                        assert(pow256(4) == 256 * pow256(3));
                        assert(pow256(3) == 256 * pow256(2));
                        assert(pow256(2) == 256 * pow256(1));
                        assert(pow256(1) == 256 * pow256(0));
                    }
                }
            }
            let b = self.bytes[o + i - 1];
            assert(b == w[i - 1]);
            acc = acc * 256 + (b as u64);
            i = i - 1;
        }
        proof {
            assert(w.skip(0) =~= w);
        }
        Some(acc)
    }
}

} // verus!
