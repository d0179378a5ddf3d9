//! Intrusive single-linked free list.
//!
//! Each free block stores the address of the next free block in its first
//! word. This is the classic "free-list-in-place" trick: it costs zero
//! metadata bytes per free object.
//!
//! A block that is in a list belongs to the list: nothing else may write its
//! first word until it is popped again.

use crate::memory::Memory;
use vstd::prelude::*;

verus! {

/// A list of free blocks, threaded through the first word of each. An address
/// of zero ends it.
pub struct FreeList {
    head: usize,
    len: usize,
    nodes: Ghost<Seq<usize>>,
}

/// A walk along a list, front to back.
pub struct FreeListIter {
    cur: usize,
    rest: Ghost<Seq<usize>>,
}

/// The address stored in the word of block `i`: that of the block after it.
pub open spec fn link(nodes: Seq<usize>, i: int) -> usize {
    if i + 1 < nodes.len() {
        nodes[i + 1]
    } else {
        0
    }
}

/// The blocks are distinct words of `mem`, each of which holds the address of
/// the next.
pub open spec fn threaded(nodes: Seq<usize>, mem: &Memory) -> bool {
    &&& mem.wf()
    &&& nodes.no_duplicates()
    &&& forall|i: int| 0 <= i < nodes.len() ==> mem.mapped(#[trigger] nodes[i] as int)
    &&& forall|i: int|
        0 <= i < nodes.len() ==> mem.word(nodes[i] as int) == #[trigger] link(nodes, i)
}

/// `a` is the address of a block of the list.
pub open spec fn is_node(nodes: Seq<usize>, a: int) -> bool {
    0 <= a <= usize::MAX && nodes.contains(a as usize)
}

/// The list without its first occurrence of `x`.
pub open spec fn without(nodes: Seq<usize>, x: usize) -> Seq<usize> {
    if nodes.contains(x) {
        nodes.remove(nodes.index_of_first(x).unwrap())
    } else {
        nodes
    }
}

/// Writes outside the blocks of a list do not disturb it.
pub proof fn lemma_threaded_frame(nodes: Seq<usize>, before: &Memory, after: &Memory)
    requires
        threaded(nodes, before),
        after.wf(),
        after.same_place(before),
        forall|i: int|
            0 <= i < nodes.len() ==> after.word(#[trigger] nodes[i] as int) == before.word(
                nodes[i] as int,
            ),
    ensures
        threaded(nodes, after),
{
    assert forall|i: int| 0 <= i < nodes.len() implies after.word(nodes[i] as int)
        == #[trigger] link(nodes, i) by {
        assert(before.word(nodes[i] as int) == link(nodes, i));
    }
}

/// The word of the first block leads to the rest of the list.
proof fn lemma_threaded_rest(nodes: Seq<usize>, mem: &Memory)
    requires
        threaded(nodes, mem),
        nodes.len() > 0,
    ensures
        threaded(nodes.drop_first(), mem),
        mem.word(nodes[0] as int) == link(nodes.drop_first(), -1),
{
    let rest = nodes.drop_first();
    assert(mem.word(nodes[0] as int) == link(nodes, 0));
    assert forall|i: int| 0 <= i < rest.len() implies mem.word(rest[i] as int) == #[trigger] link(
        rest,
        i,
    ) by {
        assert(mem.word(nodes[i + 1] as int) == link(nodes, i + 1));
    }
}

/// A block whose word leads to the list extends it in front.
proof fn lemma_threaded_push(nodes: Seq<usize>, block: usize, before: &Memory, after: &Memory)
    requires
        threaded(nodes, before),
        before.mapped(block as int),
        !nodes.contains(block),
        after.wf(),
        after.same_outside(before, |a: int| a == block),
        after.word(block as int) == link(nodes, -1),
    ensures
        threaded(seq![block] + nodes, after),
{
    let longer = seq![block] + nodes;
    assert forall|i: int, j: int|
        0 <= i < longer.len() && 0 <= j < longer.len() && i != j implies longer[i] != longer[j] by {
        if i == 0 {
            assert(nodes.contains(nodes[j - 1]));
        } else if j == 0 {
            assert(nodes.contains(nodes[i - 1]));
        }
    }
    assert forall|i: int| 0 <= i < longer.len() implies after.mapped(#[trigger] longer[i] as int) by {
        if i > 0 {
            assert(before.mapped(nodes[i - 1] as int));
        }
    }
    assert forall|i: int| 0 <= i < longer.len() implies after.word(longer[i] as int)
        == #[trigger] link(longer, i) by {
        if i > 0 {
            assert(nodes.contains(nodes[i - 1]));
            assert(before.mapped(nodes[i - 1] as int));
            assert(before.word(nodes[i - 1] as int) == link(nodes, i - 1));
        }
    }
}

/// Distinct words of one memory are no more than its bytes.
pub proof fn lemma_threaded_len(nodes: Seq<usize>, mem: &Memory)
    requires
        mem.wf(),
        nodes.no_duplicates(),
        forall|i: int| 0 <= i < nodes.len() ==> mem.mapped(#[trigger] nodes[i] as int),
    ensures
        nodes.len() <= mem.hi() - mem.lo(),
{
    let s = nodes.map_values(|x: usize| x as int);
    assert(s.no_duplicates());
    s.unique_seq_to_set();
    let all = vstd::set_lib::set_int_range(mem.lo(), mem.hi());
    vstd::set_lib::lemma_int_range(mem.lo(), mem.hi());
    assert(s.to_set().subset_of(all));
    vstd::set_lib::lemma_len_subset(s.to_set(), all);
}

proof fn lemma_without(nodes: Seq<usize>, i: int)
    requires
        nodes.no_duplicates(),
        0 <= i < nodes.len(),
    ensures
        nodes.contains(nodes[i]),
        without(nodes, nodes[i]) == nodes.remove(i),
        forall|j: int|
            0 <= j < nodes.len() - 1 ==> #[trigger] nodes.remove(i)[j] == nodes[if j < i {
                j
            } else {
                j + 1
            }],
        nodes.remove(i).no_duplicates(),
{
    nodes.index_of_first_ensures(nodes[i]);
}

/// Unlinking block `i` takes one write, to the block before it.
proof fn lemma_unlink(nodes: Seq<usize>, i: int, before: &Memory, after: &Memory)
    requires
        threaded(nodes, before),
        0 <= i < nodes.len(),
        after.wf(),
        after.same_place(before),
        forall|j: int|
            0 <= j < nodes.len() && j != i - 1 ==> after.word(#[trigger] nodes[j] as int)
                == before.word(nodes[j] as int),
        i > 0 ==> after.word(nodes[i - 1] as int) == link(nodes, i),
    ensures
        threaded(nodes.remove(i), after),
{
    let rest = nodes.remove(i);
    lemma_without(nodes, i);
    assert forall|j: int| 0 <= j < rest.len() implies after.mapped(#[trigger] rest[j] as int) by {
        assert(before.mapped(nodes[if j < i {
            j
        } else {
            j + 1
        }] as int));
    }
    assert forall|j: int| 0 <= j < rest.len() implies after.word(rest[j] as int) == #[trigger] link(
        rest,
        j,
    ) by {
        let k = if j < i {
            j
        } else {
            j + 1
        };
        assert(rest[j] == nodes[k]);
        assert(before.word(nodes[k] as int) == link(nodes, k));
        if j + 1 < rest.len() {
            assert(rest[j + 1] == nodes[if j + 1 < i {
                j + 1
            } else {
                j + 2
            }]);
        }
    }
}

impl View for FreeList {
    type V = Seq<usize>;

    /// Addresses of the blocks, the one to be popped next first.
    closed spec fn view(&self) -> Seq<usize> {
        self.nodes@
    }
}

impl View for FreeListIter {
    type V = Seq<usize>;

    /// Addresses still to come.
    closed spec fn view(&self) -> Seq<usize> {
        self.rest@
    }
}

impl FreeList {
    #[verifier::type_invariant]
    spec fn inv(self) -> bool {
        &&& self.len == self.nodes@.len()
        &&& self.head == link(self.nodes@, -1)
        &&& forall|i: int| 0 <= i < self.nodes@.len() ==> #[trigger] self.nodes@[i] != 0
    }

    pub fn new() -> (r: FreeList)
        ensures
            r@ == Seq::<usize>::empty(),
    {
        FreeList { head: 0, len: 0, nodes: Ghost(Seq::empty()) }
    }

    #[inline]
    pub fn is_empty(&self) -> (r: bool)
        ensures
            r == (self@.len() == 0),
    {
        proof {
            use_type_invariant(self);
        }
        self.head == 0
    }

    #[inline]
    pub fn len(&self) -> (r: usize)
        ensures
            r == self@.len(),
    {
        proof {
            use_type_invariant(self);
        }
        self.len
    }

    /// Puts `block` in front. Only its first word is written.
    #[inline]
    pub fn push(&mut self, mem: &mut Memory, block: usize)
        requires
            threaded(old(self)@, old(mem)),
            old(mem).mapped(block as int),
            !old(self)@.contains(block),
        ensures
            final(self)@ == seq![block] + old(self)@,
            threaded(final(self)@, final(mem)),
            final(mem).same_outside(old(mem), |a: int| a == block),
    {
        proof {
            use_type_invariant(&*self);
        }
        let ghost nodes = seq![block] + self@;
        mem.write(block, self.head);
        proof {
            lemma_threaded_push(self@, block, old(mem), mem);
            lemma_threaded_len(nodes, mem);
        }
        *self = FreeList { head: block, len: self.len + 1, nodes: Ghost(nodes) };
    }

    /// Takes the front block. Memory is only read.
    #[inline]
    pub fn pop(&mut self, mem: &Memory) -> (r: Option<usize>)
        requires
            threaded(old(self)@, mem),
        ensures
            match r {
                Some(block) => {
                    &&& old(self)@.len() > 0
                    &&& block == old(self)@[0]
                    &&& final(self)@ == old(self)@.drop_first()
                },
                None => old(self)@.len() == 0 && final(self)@ == old(self)@,
            },
            threaded(final(self)@, mem),
    {
        proof {
            use_type_invariant(&*self);
        }
        if self.head == 0 {
            return None;
        }
        let block: usize = self.head;
        let ghost nodes = self@.drop_first();
        proof {
            lemma_threaded_rest(self@, mem);
        }
        let next: usize = mem.read(block);
        *self = FreeList { head: next, len: self.len - 1, nodes: Ghost(nodes) };
        Some(block)
    }

    /// Unlinks `target` wherever it is in the list. At most one word is
    /// written, that of the block before it.
    pub fn remove(&mut self, mem: &mut Memory, target: usize) -> (found: bool)
        requires
            threaded(old(self)@, old(mem)),
        ensures
            found == old(self)@.contains(target),
            final(self)@ == without(old(self)@, target),
            threaded(final(self)@, final(mem)),
            final(mem).same_outside(old(mem), |a: int| is_node(old(self)@, a)),
    {
        proof {
            use_type_invariant(&*self);
        }
        let ghost nodes = self@;
        let mut prev: usize = 0;
        let mut node: usize = self.head;
        let ghost mut i: int = 0;
        while node != 0 && node != target
            invariant
                threaded(nodes, mem),
                forall|j: int| 0 <= j < nodes.len() ==> #[trigger] nodes[j] != 0,
                0 <= i <= nodes.len(),
                node == link(nodes, i - 1),
                prev == if i == 0 {
                    0
                } else {
                    nodes[i - 1]
                },
                forall|j: int| 0 <= j < i ==> #[trigger] nodes[j] != target,
            decreases nodes.len() - i,
        {
            assert(i < nodes.len() && node == nodes[i]);
            assert(mem.word(nodes[i] as int) == link(nodes, i));
            prev = node;
            node = mem.read(node);
            proof {
                i = i + 1;
            }
        }
        if node == 0 {
            assert(!nodes.contains(target));
            return false;
        }
        assert(i < nodes.len() && node == nodes[i]);
        assert(mem.word(nodes[i] as int) == link(nodes, i));
        let next: usize = mem.read(node);
        let ghost rest = nodes.remove(i);
        proof {
            lemma_without(nodes, i);
        }
        if prev == 0 {
            *self = FreeList { head: next, len: self.len - 1, nodes: Ghost(rest) };
        } else {
            mem.write(prev, next);
            *self = FreeList { head: self.head, len: self.len - 1, nodes: Ghost(rest) };
            assert(is_node(nodes, prev as int));
        }
        proof {
            lemma_unlink(nodes, i, old(mem), mem);
        }
        true
    }

    /// Starts a walk along the list.
    pub fn iter(&self) -> (r: FreeListIter)
        ensures
            r@ == self@,
    {
        proof {
            use_type_invariant(self);
        }
        FreeListIter { cur: self.head, rest: Ghost(self@) }
    }
}

impl Default for FreeList {
    fn default() -> (r: FreeList)
        ensures
            r@ == Seq::<usize>::empty(),
    {
        FreeList::new()
    }
}

impl FreeListIter {
    #[verifier::type_invariant]
    spec fn inv(self) -> bool {
        &&& self.cur == link(self.rest@, -1)
        &&& forall|i: int| 0 <= i < self.rest@.len() ==> #[trigger] self.rest@[i] != 0
    }

    /// The next block of the walk, in a memory in which the list has not been
    /// changed since the walk began.
    pub fn next(&mut self, mem: &Memory) -> (r: Option<usize>)
        requires
            threaded(old(self)@, mem),
        ensures
            match r {
                Some(block) => {
                    &&& old(self)@.len() > 0
                    &&& block == old(self)@[0]
                    &&& final(self)@ == old(self)@.drop_first()
                },
                None => old(self)@.len() == 0 && final(self)@ == old(self)@,
            },
            threaded(final(self)@, mem),
    {
        proof {
            use_type_invariant(&*self);
        }
        if self.cur == 0 {
            return None;
        }
        let block: usize = self.cur;
        let ghost nodes = self@.drop_first();
        proof {
            lemma_threaded_rest(self@, mem);
        }
        *self = FreeListIter { cur: mem.read(block), rest: Ghost(nodes) };
        Some(block)
    }
}

/// Taking a block out of a list leaves the others in their order; a list
/// without the block stays as it is.
pub proof fn law_without(nodes: Seq<usize>, i: int)
    requires
        nodes.no_duplicates(),
        0 <= i < nodes.len(),
    ensures
        without(nodes, nodes[i]) == nodes.remove(i),
        without(nodes, nodes[i]).insert(i, nodes[i]) == nodes,
        forall|x: usize| !nodes.contains(x) ==> #[trigger] without(nodes, x) == nodes,
{
    lemma_without(nodes, i);
    assert(nodes.remove(i).insert(i, nodes[i]) =~= nodes);
}

/// A list lies in its own blocks: the word of each holds the address of the
/// next, and that of the last holds zero.
pub proof fn law_threaded(nodes: Seq<usize>, mem: &Memory, i: int)
    requires
        threaded(nodes, mem),
        0 <= i < nodes.len(),
    ensures
        mem.mapped(nodes[i] as int),
        i + 1 < nodes.len() ==> mem.word(nodes[i] as int) == nodes[i + 1],
        i + 1 == nodes.len() ==> mem.word(nodes[i] as int) == 0,
{
    assert(mem.word(nodes[i] as int) == link(nodes, i));
}

} // verus!
