//! Sets of free frame blocks, one ordered set of page numbers per order.

use crate::blocks::Block;
use crate::frame_model::MAX_ORDER;
use std::collections::BTreeSet;
use vstd::prelude::*;
use vstd::std_specs::cmp::OrdSpec;
use vstd::std_specs::iter::IteratorSpec;

verus! {

/// `lists[k]` holds the first page of every free block of `2^k` pages.
pub struct FrameLists {
    lists: Vec<BTreeSet<usize>>,
}

/// The block of `lists[o]` that starts at `a`.
spec fn listed(lists: Seq<BTreeSet<usize>>, b: Block) -> bool {
    &&& 0 <= b.order < lists.len()
    &&& 0 <= b.addr <= usize::MAX
    &&& lists[b.order]@.contains(b.addr as usize)
}

impl View for FrameLists {
    type V = Set<Block>;

    closed spec fn view(&self) -> Set<Block> {
        Set::new(|b: Block| listed(self.lists@, b))
    }
}

proof fn lemma_increasing<K: Ord>(s: Seq<K>, i: int, j: int)
    requires
        vstd::laws_cmp::obeys_cmp::<K>(),
        vstd::std_specs::btree::increasing_seq(s),
        0 <= i < j < s.len(),
    ensures
        s[i].cmp_spec(&s[j]) is Less,
{
    broadcast use vstd::std_specs::btree::group_btree_axioms;

}

/// The least page number of a set.
fn least_of(s: &BTreeSet<usize>) -> (r: Option<usize>)
    ensures
        match r {
            Some(x) => s@.contains(x) && forall|y: usize| #[trigger] s@.contains(y) ==> x <= y,
            None => s@.is_empty(),
        },
{
    broadcast use vstd::std_specs::btree::group_btree_axioms;

    for x in it: s.iter()
        invariant
            it.index() == 0,
            it.seq().unref().to_set() == s@,
            vstd::std_specs::btree::increasing_seq(it.seq()),
    {
        let ghost all = it.seq();
        proof {
            broadcast use vstd::laws_cmp::group_laws_cmp;

            assert(vstd::laws_cmp::obeys_cmp::<&usize>());
            assert(all.unref()[0] == *x);
            assert(all.unref().contains(*x));
            assert forall|y: usize| #[trigger] s@.contains(y) implies *x <= y by {
                assert(all.unref().contains(y));
                let i = choose|i: int| 0 <= i < all.unref().len() && all.unref()[i] == y;
                if i > 0 {
                    lemma_increasing(all, 0, i);
                }
            }
        }
        return Some(*x);
    }
    proof {
        assert(s@ =~= Set::empty());
    }
    None
}

impl FrameLists {
    #[verifier::type_invariant]
    spec fn inv(self) -> bool {
        self.lists@.len() == MAX_ORDER + 1
    }

    pub fn new() -> (r: FrameLists)
        ensures
            r@ == Set::<Block>::empty(),
    {
        let mut lists: Vec<BTreeSet<usize>> = Vec::with_capacity(MAX_ORDER + 1);
        let mut k: usize = 0;
        while k <= MAX_ORDER
            invariant
                k <= MAX_ORDER + 1,
                lists@.len() == k,
                forall|o: int| 0 <= o < k ==> (#[trigger] lists@[o])@ == Set::<usize>::empty(),
            decreases MAX_ORDER + 1 - k,
        {
            lists.push(BTreeSet::new());
            k = k + 1;
        }
        let r = FrameLists { lists };
        assert(r@ =~= Set::empty());
        r
    }

    /// The lowest block of order `k`.
    pub fn least(&self, k: usize) -> (r: Option<usize>)
        requires
            k <= MAX_ORDER,
        ensures
            match r {
                Some(a) => {
                    &&& self@.contains(Block { addr: a as int, order: k as int })
                    &&& forall|b: Block| #[trigger]
                        self@.contains(b) && b.order == k ==> a <= b.addr
                },
                None => forall|b: Block| #[trigger] self@.contains(b) ==> b.order != k,
            },
    {
        proof {
            use_type_invariant(self);
        }
        let r = least_of(&self.lists[k]);
        proof {
            assert forall|b: Block| #[trigger] self@.contains(b) && b.order == k implies self.lists@[k as int]@.contains(
            b.addr as usize) by {}
        }
        r
    }

    /// Adds the block of order `k` at `a`.
    pub fn insert(&mut self, k: usize, a: usize)
        requires
            k <= MAX_ORDER,
        ensures
            final(self)@ == old(self)@.insert(Block { addr: a as int, order: k as int }),
    {
        broadcast use vstd::std_specs::btree::group_btree_axioms;

        proof {
            use_type_invariant(&*self);
        }
        self.lists[k].insert(a);
        assert(self@ =~= old(self)@.insert(Block { addr: a as int, order: k as int }));
    }

    /// Removes the block of order `k` at `a`, and says whether it was there.
    pub fn remove(&mut self, k: usize, a: usize) -> (found: bool)
        requires
            k <= MAX_ORDER,
        ensures
            found == old(self)@.contains(Block { addr: a as int, order: k as int }),
            final(self)@ == old(self)@.remove(Block { addr: a as int, order: k as int }),
    {
        broadcast use vstd::std_specs::btree::group_btree_axioms;

        proof {
            use_type_invariant(&*self);
        }
        let found = self.lists[k].remove(&a);
        assert(self@ =~= old(self)@.remove(Block { addr: a as int, order: k as int }));
        found
    }
}

} // verus!
