//! Page frame allocators.
//!
//! `BuddyFrameAllocator` hands out physically contiguous runs and merges freed
//! pages with their neighbours again. `HybridFrameAllocator` puts a small
//! stack of single pages in front of it, so that the usual request is one pop.
//! `LegacyStackFrameAllocator` is a bump pointer with a stack of recycled
//! pages: fast, but a page that has been freed never becomes part of a run
//! again.

use crate::blocks;
use crate::blocks::Block;
use crate::buddy;
use crate::frame_model;
use crate::frame_model::MAX_ORDER;
use crate::frame_set::FrameLists;
use crate::powers;
use vstd::prelude::*;

verus! {

/// Number of a physical page.
#[derive(Debug, Clone, Copy, PartialEq, Eq, Structural)]
pub struct PhysPageNum(pub usize);

/// The pages `[start, start + n)` from the last to the first, so that the last
/// entry is the base of the run.
pub open spec fn run_down(start: int, n: int) -> Seq<PhysPageNum> {
    Seq::new(n as nat, |i: int| PhysPageNum((start + n - 1 - i) as usize))
}

/// The pages of the run, from the last to the first.
pub(crate) fn collect_down(start: usize, n: usize) -> (r: Vec<PhysPageNum>)
    requires
        start + n <= usize::MAX,
    ensures
        r@ == run_down(start as int, n as int),
{
    let mut v: Vec<PhysPageNum> = Vec::new();
    let mut left: usize = n;
    while left > 0
        invariant
            left <= n,
            start + n <= usize::MAX,
            v@ == run_down(start as int, n as int).take(n - left),
        decreases left,
    {
        left = left - 1;
        v.push(PhysPageNum(start + left));
        assert(v@ =~= run_down(start as int, n as int).take(n - left));
    }
    assert(v@ =~= run_down(start as int, n as int));
    v
}

/// A buddy allocator as a value.
#[verifier::ext_equal]
pub struct FrameView {
    /// Free blocks of pages.
    pub blocks: Set<Block>,
    /// First page of the arena.
    pub base: int,
    /// Page after the last of the arena.
    pub end: int,
}

impl FrameView {
    pub open spec fn with_blocks(self, blocks: Set<Block>) -> FrameView {
        FrameView { blocks, ..self }
    }
}

pub struct BuddyFrameAllocator {
    free_lists: FrameLists,
    base: usize,
    end: usize,
}

impl View for BuddyFrameAllocator {
    type V = FrameView;

    closed spec fn view(&self) -> FrameView {
        FrameView { blocks: self.free_lists@, base: self.base as int, end: self.end as int }
    }
}

impl BuddyFrameAllocator {
    pub open spec fn wf(&self) -> bool {
        frame_model::frames_ok(self@.blocks)
    }

    pub fn new() -> (r: BuddyFrameAllocator)
        ensures
            r.wf(),
            r@ == (FrameView { blocks: Set::empty(), base: 0, end: 0 }),
    {
        BuddyFrameAllocator { free_lists: FrameLists::new(), base: 0, end: 0 }
    }

    /// Makes `[l, r)` the arena and all of its pages free.
    pub fn init(&mut self, l: PhysPageNum, r: PhysPageNum)
        requires
            old(self).wf(),
            l.0 <= r.0,
            forall|x: int| l.0 <= x < r.0 ==> !#[trigger] frame_model::is_free(old(self)@.blocks, x),
        ensures
            final(self).wf(),
            final(self)@ == (FrameView {
                blocks: frame_model::given(old(self)@.blocks, l.0 as int, r.0 as int),
                base: l.0 as int,
                end: r.0 as int,
            }),
    {
        self.base = l.0;
        self.end = r.0;
        self.add_block(l.0, r.0 - l.0);
    }

    /// Greedily decomposes `[start, start + len)` into power-of-two-aligned
    /// blocks and seeds the free lists. Each block is the largest that is both
    /// aligned and short enough.
    fn add_block(&mut self, start: usize, len: usize)
        requires
            old(self).wf(),
            start + len <= usize::MAX,
            forall|x: int|
                start <= x < start + len ==> !#[trigger] frame_model::is_free(old(self)@.blocks, x),
        ensures
            final(self).wf(),
            final(self)@ == old(self)@.with_blocks(
                frame_model::given(old(self)@.blocks, start as int, start + len),
            ),
    {
        let ghost before = self@.blocks;
        let ghost cut = frame_model::frame_cut();
        let mut s: usize = start;
        let e: usize = start + len;
        let ghost all = cut.pieces(start as int, e as int).to_set();
        proof {
            assert(before.union(cut.pieces(start as int, e as int).to_set()) =~= before.union(all));
        }
        while s < e
            invariant
                start <= s <= e,
                e == start + len,
                cut == frame_model::frame_cut(),
                self.base == old(self).base,
                self.end == old(self).end,
                self.free_lists@.union(cut.pieces(s as int, e as int).to_set()) == before.union(
                    all,
                ),
            decreases e - s,
        {
            let align_order: usize = if s == 0 {
                MAX_ORDER
            } else {
                powers::alignment_of(s)
            };
            let max_size: usize = e - s;
            let size_order: usize = powers::floor_log2(max_size);
            let mut k: usize = if align_order <= size_order {
                align_order
            } else {
                size_order
            };
            if k > MAX_ORDER {
                k = MAX_ORDER;
            }
            proof {
                powers::lemma_aligned_zero(0);
                blocks::lemma_largest_is_min(
                    s as int,
                    e - s,
                    align_order as int,
                    size_order as int,
                    MAX_ORDER as int,
                );
                blocks::lemma_largest_fit(s as int, e - s, MAX_ORDER as int);
                powers::lemma_p2_values();
                powers::lemma_p2_fits(k as int);
                powers::lemma_shl(k);
                let ps = cut.pieces(s as int, e as int);
                let b = cut.first(s as int, e as int);
                let rest = cut.pieces(s + powers::p2(k as int), e as int);
                assert(ps =~= seq![b] + rest);
                assert(ps.to_set() =~= rest.to_set().insert(b)) by {
                    assert forall|c: Block| ps.contains(c) <==> c == b || rest.contains(c) by {
                        if ps.contains(c) {
                            let i = choose|i: int| 0 <= i < ps.len() && ps[i] == c;
                            if i > 0 {
                                assert(rest[i - 1] == c);
                            }
                        }
                        if rest.contains(c) {
                            let i = choose|i: int| 0 <= i < rest.len() && rest[i] == c;
                            assert(ps[i + 1] == c);
                        }
                        assert(ps[0] == b);
                    }
                }
                assert(self.free_lists@.insert(b).union(rest.to_set()) =~= self.free_lists@.union(
                    ps.to_set(),
                ));
            }
            self.free_lists.insert(k, s);
            s = s + (1usize << k);
        }
        proof {
            powers::lemma_p2_pos(0);
            assert(cut.pieces(s as int, e as int).to_set() =~= Set::empty());
            assert(self.free_lists@ =~= before.union(all));
            frame_model::lemma_given(before, start as int, e as int);
        }
    }

    /// Allocates one block of `2^order` pages, splitting a larger free block
    /// if needed. Returns its first page.
    pub(crate) fn alloc_order(&mut self, order: usize) -> (r: Option<usize>)
        requires
            old(self).wf(),
        ensures
            final(self).wf(),
            ({
                let s = old(self)@.blocks;
                match r {
                    Some(a) => {
                        &&& frame_model::can_take(s, order as int)
                        &&& a == frame_model::grant(s, order as int).addr
                        &&& final(self)@ == old(self)@.with_blocks(
                            frame_model::taken(s, order as int),
                        )
                    },
                    None => !frame_model::can_take(s, order as int) && final(self)@ == old(self)@,
                }
            }),
    {
        let ghost s = self@.blocks;
        let mut j: usize = order;
        while j <= MAX_ORDER
            invariant
                order <= j,
                order > MAX_ORDER ==> j == order,
                s == self.free_lists@,
                *self == *old(self),
                frame_model::frames_ok(s),
                forall|b: Block| #[trigger] s.contains(b) ==> !(order <= b.order < j),
            decreases MAX_ORDER + 1 - j,
        {
            if let Some(block) = self.free_lists.least(j) {
                let ghost b = Block { addr: block as int, order: j as int };
                proof {
                    assert(frame_model::is_pick(s, order as int, b));
                    frame_model::lemma_pick_unique(s, order as int, b);
                    frame_model::lemma_taken(s, order as int);
                }
                self.free_lists.remove(j, block);
                // Split the larger block down to the requested order. Each
                // step yields an upper half that goes back to its list.
                let mut k: usize = j;
                proof {
                    assert(s.remove(b).union(blocks::upper_halves(b.addr, j as int, j as int))
                        =~= s.remove(b));
                }
                while k > order
                    invariant
                        order <= k <= j <= MAX_ORDER,
                        self.base == old(self).base,
                        self.end == old(self).end,
                        block == b.addr,
                        b.order == j,
                        b.end() <= usize::MAX,
                        self.free_lists@ == s.remove(b).union(
                            blocks::upper_halves(b.addr, k as int, j as int),
                        ),
                    decreases k,
                {
                    k = k - 1;
                    proof {
                        powers::lemma_p2_mono(k as int, j as int);
                        powers::lemma_p2_fits(k as int);
                        powers::lemma_shl(k);
                    }
                    self.free_lists.insert(k, block + (1usize << k));
                    assert(self.free_lists@ =~= s.remove(b).union(
                        blocks::upper_halves(b.addr, k as int, j as int),
                    ));
                }
                return Some(block);
            }
            j = j + 1;
        }
        None
    }

    /// Takes back the block of `2^order` pages at `ppn`, merging it with its
    /// buddy as long as that is free too.
    pub(crate) fn dealloc_order(&mut self, ppn: usize, order: usize)
        requires
            old(self).wf(),
            order <= MAX_ORDER,
            ({
                let c = Block { addr: ppn as int, order: order as int };
                &&& c.natural()
                &&& c.end() <= usize::MAX
                &&& forall|b: Block| #[trigger] old(self)@.blocks.contains(b) ==> b.disjoint(c)
            }),
        ensures
            final(self).wf(),
            final(self)@ == old(self)@.with_blocks(
                frame_model::merged(
                    old(self)@.blocks,
                    (Block { addr: ppn as int, order: order as int }),
                ),
            ),
    {
        let ghost whole = Block { addr: ppn as int, order: order as int };
        let ghost want = frame_model::merged(self@.blocks, whole);
        proof {
            frame_model::lemma_merged(self@.blocks, whole);
        }
        let mut p: usize = ppn;
        let mut k: usize = order;
        while k < MAX_ORDER
            invariant_except_break
                frame_model::merged(
                    self.free_lists@,
                    (Block { addr: p as int, order: k as int }),
                ) == want,
            invariant
                k <= MAX_ORDER,
                self.base == old(self).base,
                self.end == old(self).end,
                powers::aligned(p as int, k as int),
            ensures
                self.free_lists@.insert(Block { addr: p as int, order: k as int }) == want,
            decreases MAX_ORDER - k,
        {
            let ghost c = Block { addr: p as int, order: k as int };
            let ghost was = self.free_lists@;
            proof {
                powers::lemma_flip(p, k);
                powers::lemma_buddy(p as int, k as int);
            }
            let buddy: usize = p ^ (1usize << k);
            if self.free_lists.remove(k, buddy) {
                p = if p <= buddy {
                    p
                } else {
                    buddy
                };
                k = k + 1;
                assert(c.parent() == (Block { addr: p as int, order: k as int }));
            } else {
                assert(self.free_lists@ =~= was);
                break;
            }
        }
        self.free_lists.insert(k, p);
    }

    /// One page.
    pub fn allocate(&mut self) -> (r: Option<PhysPageNum>)
        requires
            old(self).wf(),
        ensures
            final(self).wf(),
            ({
                let s = old(self)@.blocks;
                match r {
                    Some(p) => {
                        &&& frame_model::can_take(s, 0)
                        &&& p.0 == frame_model::grant(s, 0).addr
                        &&& final(self)@ == old(self)@.with_blocks(frame_model::taken(s, 0))
                    },
                    None => !frame_model::can_take(s, 0) && final(self)@ == old(self)@,
                }
            }),
    {
        match self.alloc_order(0) {
            Some(p) => Some(PhysPageNum(p)),
            None => None,
        }
    }

    /// Hands out `pages` physically contiguous frames: the low end of the
    /// smallest power-of-two block that holds them. The rest of the block goes
    /// back to the free lists. Each frame is freed on its own, and the block
    /// is whole again once all of them are.
    ///
    /// The frames come in decreasing order, so the last one is the base of the
    /// run.
    pub fn alloc_more(&mut self, pages: usize) -> (r: Option<Vec<PhysPageNum>>)
        requires
            old(self).wf(),
        ensures
            final(self).wf(),
            ({
                let s = old(self)@.blocks;
                let o = frame_model::order_of(pages as int);
                match r {
                    Some(v) => if pages == 0 {
                        v@ == Seq::<PhysPageNum>::empty() && final(self)@ == old(self)@
                    } else {
                        &&& frame_model::can_take(s, o)
                        &&& v@ == run_down(frame_model::grant(s, o).addr, pages as int)
                        &&& final(self)@ == old(self)@.with_blocks(
                            frame_model::taken_run(s, pages as int),
                        )
                    },
                    None => {
                        &&& pages > 0
                        &&& !frame_model::can_take(s, o)
                        &&& final(self)@ == old(self)@
                    },
                }
            }),
    {
        let ghost s = self@.blocks;
        if pages == 0 {
            return Some(Vec::new());
        }
        let order: usize = ceil_log2(pages);
        let start: usize = match self.alloc_order(order) {
            Some(start) => start,
            None => {
                return None;
            },
        };
        let ghost c = frame_model::grant(s, order as int);
        proof {
            frame_model::lemma_taken(s, order as int);
            buddy::lemma_least_order(pages as int, 0);
            powers::lemma_p2_fits(order as int);
            powers::lemma_shl(order);
        }
        let block_end: usize = start + (1usize << order);
        let used_end: usize = start + pages;
        if used_end < block_end {
            proof {
                assert forall|x: int|
                    used_end <= x < block_end implies !#[trigger] frame_model::is_free(
                    self@.blocks,
                    x,
                ) by {
                    assert(c.has(x));
                }
            }
            self.add_block(used_end, block_end - used_end);
        } else {
            proof {
                powers::lemma_p2_pos(0);
                let cut = frame_model::frame_cut();
                assert(cut.pieces(used_end as int, block_end as int).to_set() =~= Set::empty());
                assert(frame_model::taken_run(s, pages as int) =~= self@.blocks);
            }
        }
        Some(collect_down(start, pages))
    }

    /// Takes back one page of the arena.
    pub fn dealloc(&mut self, ppn: PhysPageNum)
        requires
            old(self).wf(),
            old(self)@.base <= ppn.0 < old(self)@.end,
            !frame_model::is_free(old(self)@.blocks, ppn.0 as int),
        ensures
            final(self).wf(),
            final(self)@ == old(self)@.with_blocks(
                frame_model::merged(old(self)@.blocks, frame_model::page(ppn.0 as int)),
            ),
    {
        proof {
            frame_model::lemma_page_apart(self@.blocks, ppn.0 as int);
        }
        self.dealloc_order(ppn.0, 0);
    }
}

/// The least `k` with `2^k >= n`.
pub fn ceil_log2(n: usize) -> (r: usize)
    ensures
        r == frame_model::order_of(n as int),
        r <= usize::BITS,
{
    let r: usize = powers::ceil_log2(n);
    proof {
        buddy::lemma_least_order_is(n as int, 0, r as int);
    }
    r
}

} // verus!
