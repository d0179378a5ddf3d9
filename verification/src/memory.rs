//! The memory that an allocator manages, one word at a time.
//!
//! Free blocks carry their list links in their own first word, so an
//! allocator reads and writes the memory it hands out. `Memory` is one run of
//! words with the address of its first byte.

use vstd::prelude::*;

verus! {

/// Bytes in a word.
pub const WORD: usize = 8;

/// The words at the addresses `[base, base + WORD * words.len())`.
pub struct Memory {
    base: usize,
    words: Vec<usize>,
}

impl Memory {
    /// Address of the first byte.
    pub closed spec fn lo(&self) -> int {
        self.base as int
    }

    /// Address after the last byte.
    pub closed spec fn hi(&self) -> int {
        self.base + WORD * self.words@.len()
    }

    /// The word at address `a`.
    pub closed spec fn word(&self, a: int) -> usize {
        self.words@[(a - self.base) / WORD as int]
    }

    pub open spec fn wf(&self) -> bool {
        &&& 0 < self.lo() <= self.hi() <= usize::MAX
        &&& self.lo() % WORD as int == 0
        &&& self.hi() % WORD as int == 0
    }

    /// A word starts at `a`.
    pub open spec fn mapped(&self, a: int) -> bool {
        self.lo() <= a < self.hi() && a % WORD as int == 0
    }

    /// `[from, to)` is memory.
    pub open spec fn spans(&self, from: int, to: int) -> bool {
        self.lo() <= from && to <= self.hi()
    }

    /// The two memories lie at the same addresses.
    pub open spec fn same_place(&self, other: &Memory) -> bool {
        self.lo() == other.lo() && self.hi() == other.hi()
    }

    /// The memories lie at the same addresses and differ at most in the words
    /// at which `touched` holds.
    pub open spec fn same_outside(&self, other: &Memory, touched: spec_fn(int) -> bool) -> bool {
        &&& self.same_place(other)
        &&& forall|a: int|
            self.mapped(a) && !touched(a) ==> #[trigger] self.word(a) == other.word(a)
    }

    /// Memory made of `words`, the first of which has the address `base`.
    pub fn new(base: usize, words: Vec<usize>) -> (mem: Memory)
        requires
            0 < base,
            base % WORD == 0,
            base + WORD * words@.len() <= usize::MAX,
        ensures
            mem.wf(),
            mem.lo() == base,
            mem.hi() == base + WORD * words@.len(),
            forall|i: int| 0 <= i < words@.len() ==> mem.word(base + WORD * i) == #[trigger] words@[i],
    {
        let mem = Memory { base, words };
        assert forall|i: int| 0 <= i < words@.len() implies mem.word(base + WORD * i)
            == #[trigger] words@[i] by {
            assert((WORD * i) / WORD as int == i);
        }
        mem
    }

    pub fn base(&self) -> (r: usize)
        ensures
            r == self.lo(),
    {
        self.base
    }

    /// Size in bytes.
    pub fn size(&self) -> (r: usize)
        requires
            self.wf(),
        ensures
            r == self.hi() - self.lo(),
    {
        self.words.len() * WORD
    }

    pub fn read(&self, a: usize) -> (v: usize)
        requires
            self.wf(),
            self.mapped(a as int),
        ensures
            v == self.word(a as int),
    {
        self.words[(a - self.base) / WORD]
    }

    pub fn write(&mut self, a: usize, v: usize)
        requires
            old(self).wf(),
            old(self).mapped(a as int),
        ensures
            final(self).wf(),
            final(self).word(a as int) == v,
            final(self).same_outside(old(self), |x: int| x == a),
    {
        let i: usize = (a - self.base) / WORD;
        self.words[i] = v;
        assert forall|x: int| self.mapped(x) && x != a implies #[trigger] self.word(x) == old(
            self,
        ).word(x) by {
            assert((x - self.base) / WORD as int != i);
        }
    }
}

} // verus!
