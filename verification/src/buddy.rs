//! Buddy allocator.
//!
//! The classic Knuth scheme: memory is split into power-of-two blocks; each
//! order keeps a free list; on alloc we split a larger block when needed,
//! on free we coalesce with the buddy if it is also free.
//!
//! Coalescing is optimistic: a block is merged with its buddy exactly if the
//! buddy is found in the free list of its order. Regions need not be aligned
//! to anything, and a buddy that was never part of a region is never found.

use crate::blocks;
use crate::blocks::{Block, Cut};
use crate::buddy_laws;
use crate::buddy_model;
use crate::buddy_model::BuddyView;
use crate::linked_list;
use crate::linked_list::FreeList;
use crate::memory::Memory;
use crate::powers;
use vstd::prelude::*;

verus! {

/// Smallest block this allocator hands out: 64 bytes.
pub const MIN_ORDER: usize = 6;

/// Number of block orders. The largest block has order 31, which is 2 GiB and
/// covers any plausible kernel heap.
pub const MAX_ORDER: usize = 32;

/// Bytes in a block of order `MIN_ORDER`.
pub const MIN_BLOCK: usize = 64;

pub struct BuddyAllocator {
    free_lists: [FreeList; MAX_ORDER],
    /// Total managed bytes (sum of every block cut from a region).
    total: usize,
    /// Currently-in-use bytes (sum of granted block sizes).
    used: usize,
    /// Bytes lost to alignment when adding regions.
    waste: usize,
    live: Ghost<Seq<Set<usize>>>,
    regions: Ghost<Set<int>>,
}

/// The least order from `o` on whose blocks hold `n` bytes.
pub open spec fn least_order(n: int, o: int) -> int
    decreases
            (if n <= powers::p2(o) {
                0
            } else {
                n - powers::p2(o)
            }),
{
    if n <= powers::p2(o) || o < 0 {
        o
    } else {
        proof {
            powers::lemma_p2_step(o);
        }
        least_order(n, o + 1)
    }
}

/// The order of the block that a request for `size` bytes at a multiple of
/// `align` is served with: the least that holds both numbers.
pub open spec fn order_needed(size: int, align: int) -> int {
    least_order(
        if size >= align {
            size
        } else {
            align
        },
        MIN_ORDER as int,
    )
}

/// How a region is cut into blocks.
pub open spec fn heap_cut() -> Cut {
    Cut { min: MIN_ORDER as int, cap: MAX_ORDER as int, stop: MAX_ORDER as int }
}

/// The first multiple of `MIN_BLOCK` from `start` on.
pub open spec fn round_up(start: int) -> int {
    (start + MIN_BLOCK - 1) / MIN_BLOCK as int * MIN_BLOCK
}

/// A region after its blocks have joined the free lists. What lies before the
/// first block and after the last is wasted.
pub open spec fn after_add(v: BuddyView, start: int, end: int) -> BuddyView {
    let first = round_up(start);
    let got = heap_cut().reached(first, end) - first;
    BuddyView {
        free: buddy_model::pushed_all(v.free, heap_cut().pieces(first, end)),
        total: v.total + got,
        waste: v.waste + (end - start) - got,
        ..v.entered(start, end)
    }
}

/// The block that is handed out for order `o`: the front block of the first
/// list from `o` on that has one, or its lowest piece.
pub open spec fn alloc_block(v: BuddyView, o: int) -> Block {
    Block { addr: v.free[buddy_model::first_nonempty(v.free, o)][0] as int, order: o }
}

/// The heap after a block of order `o` has been handed out.
pub open spec fn after_alloc(v: BuddyView, o: int) -> BuddyView {
    let j = buddy_model::first_nonempty(v.free, o);
    let c = alloc_block(v, o);
    v.with_free(buddy_model::halved(buddy_model::popped(v.free, j), c.addr, o, j)).granted(c)
}

/// The heap after the block `c` has been given back.
pub open spec fn after_dealloc(v: BuddyView, c: Block) -> BuddyView {
    v.revoked(c).with_free(buddy_model::merged(v.free, c.addr, c.order))
}

/// A block of order `o` can be handed out.
pub open spec fn can_alloc(v: BuddyView, o: int) -> bool {
    o < MAX_ORDER && buddy_model::first_nonempty(v.free, o) < MAX_ORDER
}

pub proof fn lemma_least_order(n: int, o: int)
    requires
        0 <= o,
    ensures
        o <= least_order(n, o),
        n <= powers::p2(least_order(n, o)),
        least_order(n, o) > o ==> powers::p2(least_order(n, o) - 1) < n,
    decreases
            (if n <= powers::p2(o) {
                0
            } else {
                n - powers::p2(o)
            }),
{
    if n > powers::p2(o) {
        powers::lemma_p2_step(o);
        lemma_least_order(n, o + 1);
    }
}

/// The least order is the only one that holds `n` bytes while the one below
/// does not.
pub proof fn lemma_least_order_is(n: int, o: int, r: int)
    requires
        0 <= o <= r,
        n <= powers::p2(r),
        r > o ==> powers::p2(r - 1) < n,
    ensures
        least_order(n, o) == r,
{
    lemma_least_order(n, o);
    let l = least_order(n, o);
    if l < r {
        powers::lemma_p2_mono(l, r - 1);
    } else if r < l {
        powers::lemma_p2_mono(r, l - 1);
    }
}

impl View for BuddyAllocator {
    type V = BuddyView;

    closed spec fn view(&self) -> BuddyView {
        BuddyView {
            free: Seq::new(MAX_ORDER as nat, |o: int| self.free_lists@[o]@),
            live: self.live@,
            regions: self.regions@,
            total: self.total as int,
            used: self.used as int,
            waste: self.waste as int,
        }
    }
}

/// All free lists are threaded through `mem`.
pub open spec fn all_threaded(free: Seq<Seq<usize>>, mem: &Memory) -> bool {
    forall|o: int| 0 <= o < free.len() ==> linked_list::threaded(#[trigger] free[o], mem)
}

/// Writes inside the block in hand do not disturb the free lists.
proof fn lemma_hand_frame(v: BuddyView, c: Block, before: &Memory, after: &Memory, at: int)
    requires
        v.inv(Some(c), before.lo(), before.hi()),
        all_threaded(v.free, before),
        after.wf(),
        after.same_outside(before, |a: int| a == at),
        c.has(at),
    ensures
        all_threaded(v.free, after),
{
    assert forall|o: int| 0 <= o < v.free.len() implies linked_list::threaded(
        #[trigger] v.free[o],
        after,
    ) by {
        let l = v.free[o];
        assert forall|i: int| 0 <= i < l.len() implies after.word(#[trigger] l[i] as int)
            == before.word(l[i] as int) by {
            assert(before.mapped(l[i] as int));
            if l[i] as int == at {
                let b = Block { addr: l[i] as int, order: o };
                assert(l.contains(l[i]));
                assert(buddy_model::free_blocks(v.free).contains(b));
                let all = v.blocks(Some(c));
                assert(all.contains(b) && all.contains(c));
                blocks::lemma_block_pos(b);
                assert(b.has(at));
                blocks::lemma_tiling_unique(all, b, c, at);
                assert(buddy_model::hand_set(Some(c)).contains(c));
                assert(false);
            }
        }
        linked_list::lemma_threaded_frame(l, before, after);
    }
}

/// Writes to the blocks of one free list do not disturb the others.
proof fn lemma_list_frame(v: BuddyView, hand: Option<Block>, k: int, before: &Memory, after: &Memory)
    requires
        v.inv(hand, before.lo(), before.hi()),
        all_threaded(v.free, before),
        0 <= k < v.free.len(),
        after.wf(),
        after.same_outside(before, |a: int| linked_list::is_node(v.free[k], a)),
    ensures
        forall|o: int|
            0 <= o < v.free.len() && o != k ==> linked_list::threaded(#[trigger] v.free[o], after),
{
    assert forall|o: int| 0 <= o < v.free.len() && o != k implies linked_list::threaded(
        #[trigger] v.free[o],
        after,
    ) by {
        let l = v.free[o];
        assert forall|i: int| 0 <= i < l.len() implies after.word(#[trigger] l[i] as int)
            == before.word(l[i] as int) by {
            let x = l[i] as int;
            assert(before.mapped(x));
            if linked_list::is_node(v.free[k], x) {
                let b = Block { addr: x, order: o };
                let d = Block { addr: x, order: k };
                assert(l.contains(l[i]));
                assert(buddy_model::free_blocks(v.free).contains(b));
                assert(buddy_model::free_blocks(v.free).contains(d));
                let all = v.blocks(hand);
                assert(all.contains(b) && all.contains(d));
                blocks::lemma_block_pos(b);
                blocks::lemma_block_pos(d);
                assert(b.has(x) && d.has(x));
                blocks::lemma_tiling_unique(all, b, d, x);
                assert(false);
            }
        }
        linked_list::lemma_threaded_frame(l, before, after);
    }
}

impl BuddyAllocator {
    /// The heap is consistent, and its free lists are laid out in `mem`.
    pub open spec fn wf(&self, mem: &Memory) -> bool {
        &&& mem.wf()
        &&& all_threaded(self@.free, mem)
        &&& self@.inv(None, mem.lo(), mem.hi())
    }

    pub fn new() -> (r: BuddyAllocator)
        ensures
            r@ == BuddyView::empty(),
            forall|mem: &Memory| mem.wf() ==> #[trigger] r.wf(mem),
    {
        let r = BuddyAllocator {
            free_lists: [
                FreeList::new(),
                FreeList::new(),
                FreeList::new(),
                FreeList::new(),
                FreeList::new(),
                FreeList::new(),
                FreeList::new(),
                FreeList::new(),
                FreeList::new(),
                FreeList::new(),
                FreeList::new(),
                FreeList::new(),
                FreeList::new(),
                FreeList::new(),
                FreeList::new(),
                FreeList::new(),
                FreeList::new(),
                FreeList::new(),
                FreeList::new(),
                FreeList::new(),
                FreeList::new(),
                FreeList::new(),
                FreeList::new(),
                FreeList::new(),
                FreeList::new(),
                FreeList::new(),
                FreeList::new(),
                FreeList::new(),
                FreeList::new(),
                FreeList::new(),
                FreeList::new(),
                FreeList::new(),
            ],
            total: 0,
            used: 0,
            waste: 0,
            live: Ghost(Seq::new(MAX_ORDER as nat, |o: int| Set::empty())),
            regions: Ghost(Set::empty()),
        };
        proof {
            let v = BuddyView::empty();
            assert(r@.free =~= v.free);
            assert(r@ == v);
            buddy_model::lemma_weight_zero(buddy_model::free_counts(v.free));
            buddy_model::lemma_weight_zero(buddy_model::live_counts(v.live));
            assert(v.blocks(None) =~= Set::empty());
        }
        r
    }

    pub fn total(&self) -> (r: usize)
        ensures
            r == self@.total,
    {
        self.total
    }

    pub fn used(&self) -> (r: usize)
        ensures
            r == self@.used,
    {
        self.used
    }

    pub fn waste(&self) -> (r: usize)
        ensures
            r == self@.waste,
    {
        self.waste
    }

    /// Add a memory region `[start, end)` to be managed. Its bytes must be
    /// memory that is in no region yet. The region is cut into blocks, each
    /// the largest that is aligned to its own size and fits.
    pub fn add_region(&mut self, mem: &mut Memory, start: usize, end: usize)
        requires
            old(self).wf(old(mem)),
            start <= end,
            old(mem).spans(start as int, end as int),
            forall|x: int| start <= x < end ==> !#[trigger] old(self)@.regions.contains(x),
        ensures
            final(self).wf(final(mem)),
            final(self)@ == after_add(old(self)@, start as int, end as int),
            final(mem).same_outside(old(mem), |a: int| start <= a < end),
    {
        let ghost v0 = self@;
        let ghost cut = heap_cut();
        let ghost first = round_up(start as int);
        proof {
            v0.lemma_enter(start as int, end as int, mem.lo(), mem.hi());
            v0.entered(start as int, end as int).lemma_counts_fit(None, mem.lo(), mem.hi());
            powers::lemma_p2_values();
        }
        self.regions = Ghost(
            self.regions@.union(vstd::set_lib::set_int_range(start as int, end as int)),
        );
        // Align start up to MIN_ORDER granularity.
        let rem: usize = start % MIN_BLOCK;
        let pad: usize = if rem == 0 {
            0
        } else {
            MIN_BLOCK - rem
        };
        assert(first == start + pad);
        if pad > end - start {
            self.waste = self.waste + (end - start);
            assert(cut.done(first, end as int));
            assert(self@.free =~= v0.free);
            assert(self@ == after_add(v0, start as int, end as int));
            return ;
        }
        self.waste = self.waste + pad;
        let mut cur: usize = start + pad;
        proof {
            reveal(powers::aligned);
            assert(self@.free =~= v0.free);
            assert forall|b: Block| #[trigger] v0.blocks(None).contains(b) implies b.end() <= cur
                || end <= b.addr || cur == end by {
                blocks::lemma_block_pos(b);
                if b.end() > cur && end > b.addr && cur < end {
                    let x = if b.addr >= cur {
                        b.addr
                    } else {
                        cur as int
                    };
                    assert(b.has(x));
                    assert(v0.regions.contains(x));
                }
            }
        }
        while end - cur >= MIN_BLOCK
            invariant_except_break
                buddy_model::pushed_all(self@.free, cut.pieces(cur as int, end as int))
                    == buddy_model::pushed_all(v0.free, cut.pieces(first, end as int)),
                cut.reached(cur as int, end as int) == cut.reached(first, end as int),
            invariant
                cut == heap_cut(),
                powers::p2(MIN_ORDER as int) == MIN_BLOCK,
                start <= first <= cur <= end,
                powers::aligned(cur as int, MIN_ORDER as int),
                mem.wf(),
                mem.spans(start as int, end as int),
                all_threaded(self@.free, mem),
                self@.free.len() == MAX_ORDER,
                self@ == (BuddyView {
                    free: self@.free,
                    total: v0.total + (cur - first),
                    waste: v0.waste + (first - start),
                    ..v0.entered(start as int, end as int)
                }),
                (BuddyView { waste: self@.waste + (end - cur), ..self@ }).inv(
                    None,
                    mem.lo(),
                    mem.hi(),
                ),
                forall|b: Block| #[trigger]
                    self@.blocks(None).contains(b) ==> b.end() <= cur || end <= b.addr || cur
                        == end,
                mem.same_outside(old(mem), |a: int| start <= a < end),
            ensures
                self@.free == buddy_model::pushed_all(v0.free, cut.pieces(first, end as int)),
                cut.reached(first, end as int) == cur,
            decreases end - cur,
        {
            // Pick the largest power-of-two block that:
            //   (a) is aligned to its own size starting at `cur`, and
            //   (b) fits within [cur, end).
            let low_bits: usize = powers::alignment_of(cur);
            let span: usize = end - cur;
            let span_order: usize = powers::floor_log2(span);
            let fit: usize = if low_bits <= span_order {
                low_bits
            } else {
                span_order
            };
            let order: usize = if fit >= MIN_ORDER {
                fit
            } else {
                MIN_ORDER
            };
            proof {
                powers::lemma_p2_values();
                if low_bits < MIN_ORDER {
                    powers::lemma_aligned_mono(cur as int, low_bits + 1, MIN_ORDER as int);
                }
                if span_order < MIN_ORDER {
                    powers::lemma_p2_mono(span_order + 1, MIN_ORDER as int);
                }
                blocks::lemma_largest_is_min(
                    cur as int,
                    span as int,
                    low_bits as int,
                    span_order as int,
                    MAX_ORDER as int,
                );
            }
            if order >= MAX_ORDER {
                assert(cut.done(cur as int, end as int));
                break;
            }
            let ghost piece = cut.first(cur as int, end as int);
            let ghost v1 = self@;
            let ghost w1 = BuddyView { waste: v1.waste + (end - cur), ..v1 };
            let ghost m1 = *mem;
            proof {
                powers::lemma_p2_fits(order as int);
                powers::lemma_p2_mono(order as int, span_order as int);
                powers::lemma_shl(order);
                powers::lemma_aligned_mono(cur as int, order as int, low_bits as int);
                blocks::lemma_block_pos(piece);
                assert(!cut.done(cur as int, end as int));
                assert(piece == (Block { addr: cur as int, order: order as int }));
                assert(w1.blocks(None) == v1.blocks(None));
                w1.lemma_fresh(piece, mem.lo(), mem.hi());
                w1.salvaged(piece).lemma_counts_fit(Some(piece), mem.lo(), mem.hi());
                assert(w1.salvaged(piece).blocks(Some(piece)).contains(piece));
                buddy_model::lemma_block_bounds(
                    w1.salvaged(piece),
                    Some(piece),
                    mem.lo(),
                    mem.hi(),
                    piece,
                );
                w1.salvaged(piece).lemma_put(piece, mem.lo(), mem.hi());
            }
            let size: usize = 1usize << order;
            assert(v1.free[order as int] == self.free_lists@[order as int]@);
            self.free_lists[order].push(mem, cur);
            self.total = self.total + size;
            proof {
                assert(piece.has(piece.addr));
                lemma_hand_frame(w1.salvaged(piece), piece, &m1, mem, cur as int);
                let f2 = buddy_model::pushed(v1.free, order as int, cur as int);
                assert(self@.free =~= f2);
                assert(all_threaded(f2, mem)) by {
                    assert forall|k: int| 0 <= k < f2.len() implies linked_list::threaded(
                        #[trigger] f2[k],
                        mem,
                    ) by {
                        if k != order {
                            assert(f2[k] == v1.free[k]);
                        }
                    }
                }
                let all = cut.pieces(cur as int, end as int);
                assert(all.drop_first() =~= cut.pieces(piece.end(), end as int));
                assert(all[0] == piece);
                powers::lemma_p2_aligned(MIN_ORDER as int, order as int);
                powers::lemma_aligned_add(cur as int, size as int, MIN_ORDER as int);
                assert forall|b: Block| #[trigger] self@.blocks(None).contains(b) implies b.end()
                    <= cur + size || end <= b.addr by {
                    if b != piece {
                        assert(v1.blocks(None).contains(b));
                    }
                }
                assert((BuddyView { waste: self@.waste + (end - (cur + size)), ..self@ })
                    == w1.salvaged(piece).with_free(f2));
            }
            cur = cur + size;
        }
        self.waste = self.waste + (end - cur);
        proof {
            assert(self@.free =~= buddy_model::pushed_all(v0.free, cut.pieces(first, end as int)));
            assert(self@ == after_add(v0, start as int, end as int));
        }
    }

    /// Round the request up to the next power of two and return its order.
    /// Returns at least `MIN_ORDER`.
    #[inline]
    pub fn order_for(size: usize, align: usize) -> (r: usize)
        ensures
            r == order_needed(size as int, align as int),
            MIN_ORDER <= r <= usize::BITS,
            size <= powers::p2(r as int),
            align <= powers::p2(r as int),
            r == 6 || powers::p2(r - 1) < size || powers::p2(r - 1) < align,
    {
        let need: usize = if size >= align {
            size
        } else {
            align
        };
        let log: usize = powers::ceil_log2(need);
        let order: usize = if log >= MIN_ORDER {
            log
        } else {
            MIN_ORDER
        };
        proof {
            if log < MIN_ORDER {
                powers::lemma_p2_mono(log as int, MIN_ORDER as int);
            }
            lemma_least_order_is(need as int, MIN_ORDER as int, order as int);
        }
        order
    }

    /// Allocate a block large enough to satisfy `size`/`align`: the front
    /// block of the first list that has one, split down to the order needed.
    /// Only memory that was free is written.
    pub fn allocate(&mut self, mem: &mut Memory, size: usize, align: usize) -> (r: Option<usize>)
        requires
            old(self).wf(old(mem)),
        ensures
            final(self).wf(final(mem)),
            ({
                let o = order_needed(size as int, align as int);
                match r {
                    Some(p) => {
                        &&& can_alloc(old(self)@, o)
                        &&& p == alloc_block(old(self)@, o).addr
                        &&& final(self)@ == after_alloc(old(self)@, o)
                        &&& ({
                            let taken = final(self)@.used - old(self)@.used;
                            &&& size <= taken
                            &&& align <= taken
                            &&& taken == 64 || 64 < taken < 2 * size || 64 < taken < 2 * align
                        })
                    },
                    None => {
                        &&& !can_alloc(old(self)@, o)
                        &&& final(self)@ == old(self)@
                        &&& *final(mem) == *old(mem)
                    },
                }
            }),
            final(mem).same_outside(
                old(mem),
                |a: int| blocks::covers(buddy_model::free_blocks(old(self)@.free), a),
            ),
    {
        let order: usize = Self::order_for(size, align);
        if order >= MAX_ORDER {
            return None;
        }
        let ghost v0 = self@;
        // Find the smallest order that has a free block.
        let mut have: usize = order;
        while have < MAX_ORDER && self.free_lists[have].is_empty()
            invariant
                order <= have <= MAX_ORDER,
                self@ == v0,
                v0.free.len() == MAX_ORDER,
                buddy_model::first_nonempty(v0.free, order as int) == buddy_model::first_nonempty(
                    v0.free,
                    have as int,
                ),
            decreases MAX_ORDER - have,
        {
            assert(v0.free[have as int] == self.free_lists@[have as int]@);
            have = have + 1;
        }
        if have >= MAX_ORDER {
            return None;
        }
        assert(v0.free[have as int] == self.free_lists@[have as int]@);
        let ghost j = have as int;
        proof {
            v0.lemma_take(j, mem.lo(), mem.hi());
        }
        // Pop one block and split down to `order`.
        let block: usize = match self.free_lists[have].pop(mem) {
            Some(b) => b,
            None => {
                assert(false);
                return None;
            },
        };
        let ghost f = buddy_model::popped(v0.free, j);
        let ghost whole = Block { addr: block as int, order: j };
        assert(self@.free =~= f);
        assert(buddy_model::halved(f, block as int, j, j) =~= f);
        while have > order
            invariant
                MIN_ORDER <= order <= have <= j < MAX_ORDER,
                mem.wf(),
                all_threaded(self@.free, mem),
                self@ == v0.with_free(buddy_model::halved(f, block as int, have as int, j)),
                f.len() == MAX_ORDER,
                self@.inv(
                    Some((Block { addr: block as int, order: have as int })),
                    mem.lo(),
                    mem.hi(),
                ),
                whole == (Block { addr: block as int, order: j }),
                mem.same_outside(old(mem), |a: int| whole.has(a)),
            decreases have,
        {
            let ghost v1 = self@;
            let ghost c = Block { addr: block as int, order: have as int };
            let ghost m1 = *mem;
            proof {
                v1.lemma_halve(c, mem.lo(), mem.hi());
                powers::lemma_p2_mono(have as int, j);
                assert(v1.blocks(Some(c)).contains(c));
                buddy_model::lemma_block_bounds(v1, Some(c), mem.lo(), mem.hi(), c);
                powers::lemma_aligned_half(block as int, have - 1);
                powers::lemma_aligned_mono(block + powers::p2(have - 1), 3, have - 1);
                reveal(powers::aligned);
                powers::lemma_p2_values();
            }
            have = have - 1;
            proof {
                powers::lemma_shl(have);
            }
            let buddy: usize = block + (1usize << have);
            assert(v1.free[have as int] == self.free_lists@[have as int]@);
            self.free_lists[have].push(mem, buddy);
            proof {
                lemma_hand_frame(v1, c, &m1, mem, buddy as int);
                let f2 = buddy_model::pushed(v1.free, have as int, buddy as int);
                assert(self@.free =~= f2);
                assert(f2 =~= buddy_model::halved(f, block as int, have as int, j));
                assert(all_threaded(self@.free, mem)) by {
                    assert forall|o: int| 0 <= o < f2.len() implies linked_list::threaded(
                        #[trigger] f2[o],
                        mem,
                    ) by {
                        if o != have {
                            assert(f2[o] == v1.free[o]);
                        }
                    }
                }
            }
        }
        let ghost c = Block { addr: block as int, order: order as int };
        proof {
            powers::lemma_shl(order);
            self@.lemma_grant(c, mem.lo(), mem.hi());
            self@.granted(c).lemma_counts_fit(None, mem.lo(), mem.hi());
        }
        let ghost v2 = self@;
        self.used = self.used + (1usize << order);
        self.live = Ghost(self.live@.update(order as int, self.live@[order as int].insert(block)));
        proof {
            assert(self@.free =~= v2.free);
            assert(self@ == v2.granted(c));
            assert(self@ == after_alloc(v0, order as int));
            buddy_laws::law_least_block(size as int, align as int);
            assert forall|a: int| #[trigger] whole.has(a) implies blocks::covers(
                buddy_model::free_blocks(v0.free),
                a,
            ) by {
                assert(buddy_model::free_blocks(v0.free).contains(whole));
            }
        }
        Some(block)
    }

    /// Free the block that `allocate` returned for the same `size` and
    /// `align`, and coalesce upwards while the buddy is free. Only memory
    /// that was free or is being freed is written.
    pub fn dealloc(&mut self, mem: &mut Memory, ptr: usize, size: usize, align: usize)
        requires
            old(self).wf(old(mem)),
            order_needed(size as int, align as int) < MAX_ORDER,
            old(self)@.live[order_needed(size as int, align as int)].contains(ptr),
        ensures
            final(self).wf(final(mem)),
            final(self)@ == after_dealloc(
                old(self)@,
                (Block { addr: ptr as int, order: order_needed(size as int, align as int) }),
            ),
            final(mem).same_outside(
                old(mem),
                |a: int|
                    (Block { addr: ptr as int, order: order_needed(size as int, align as int) }).has(a)
                        || blocks::covers(buddy_model::free_blocks(old(self)@.free), a),
            ),
    {
        let order: usize = Self::order_for(size, align);
        let ghost v0 = self@;
        let ghost c0 = Block { addr: ptr as int, order: order as int };
        let mut addr: usize = ptr;
        let mut o: usize = order;
        proof {
            powers::lemma_shl(order);
            v0.lemma_revoke(order as int, ptr as int, mem.lo(), mem.hi());
        }
        self.used = self.used - (1usize << order);
        self.live = Ghost(self.live@.update(order as int, self.live@[order as int].remove(ptr)));
        assert(self@.free =~= v0.free);
        assert(self@ == v0.revoked(c0));
        // Coalesce upwards while the buddy is free.
        while o + 1 < MAX_ORDER
            invariant_except_break
                buddy_model::merged(self@.free, addr as int, o as int) == buddy_model::merged(
                    v0.free,
                    ptr as int,
                    order as int,
                ),
            invariant
                MIN_ORDER <= order <= o < MAX_ORDER,
                mem.wf(),
                mem.same_place(old(mem)),
                all_threaded(self@.free, mem),
                self@ == v0.revoked(c0).with_free(self@.free),
                self@.free.len() == MAX_ORDER,
                self@.inv(
                    Some((Block { addr: addr as int, order: o as int })),
                    mem.lo(),
                    mem.hi(),
                ),
                forall|b: Block| #[trigger]
                    buddy_model::free_blocks(self@.free).contains(b) ==> buddy_model::free_blocks(
                        v0.free,
                    ).contains(b),
                forall|x: int|
                    (Block { addr: addr as int, order: o as int }).has(x) ==> c0.has(x)
                        || #[trigger] blocks::covers(buddy_model::free_blocks(v0.free), x),
                mem.same_outside(
                    old(mem),
                    |a: int| c0.has(a) || blocks::covers(buddy_model::free_blocks(v0.free), a),
                ),
            ensures
                buddy_model::pushed(self@.free, o as int, addr as int) == buddy_model::merged(
                    v0.free,
                    ptr as int,
                    order as int,
                ),
            decreases MAX_ORDER - o,
        {
            let ghost v1 = self@;
            let ghost m1 = *mem;
            let ghost c = Block { addr: addr as int, order: o as int };
            proof {
                assert(v1.blocks(Some(c)).contains(c));
                buddy_model::lemma_block_bounds(v1, Some(c), mem.lo(), mem.hi(), c);
                powers::lemma_flip(addr, o);
                powers::lemma_shl(o);
                blocks::lemma_buddy_block(c);
            }
            let buddy: usize = addr ^ (1usize << o);
            assert(v1.free[o as int] == self.free_lists@[o as int]@);
            let found: bool = self.free_lists[o].remove(mem, buddy);
            proof {
                lemma_list_frame(v1, Some(c), o as int, &m1, mem);
                lemma_dealloc_frame(v0, c0, v1, o as int, old(mem), &m1, mem);
                let f2 = buddy_model::removed(v1.free, o as int, buddy as int);
                assert(self@.free =~= f2);
                assert(all_threaded(f2, mem)) by {
                    assert forall|k: int| 0 <= k < f2.len() implies linked_list::threaded(
                        #[trigger] f2[k],
                        mem,
                    ) by {
                        if k != o {
                            assert(f2[k] == v1.free[k]);
                        }
                    }
                }
                if !found {
                    assert(f2 =~= v1.free);
                } else {
                    v1.lemma_merge(c, mem.lo(), mem.hi());
                    assert forall|x: int| c.parent().has(x) implies c0.has(x)
                        || #[trigger] blocks::covers(buddy_model::free_blocks(v0.free), x) by {
                        if !c.has(x) {
                            assert(c.buddy().has(x));
                            assert(buddy_model::free_blocks(v0.free).contains(c.buddy()));
                        }
                    }
                }
            }
            if !found {
                break;
            }
            addr = addr & !(1usize << o);
            o = o + 1;
        }
        let ghost v2 = self@;
        let ghost m2 = *mem;
        let ghost c = Block { addr: addr as int, order: o as int };
        proof {
            assert(v2.blocks(Some(c)).contains(c));
            buddy_model::lemma_block_bounds(v2, Some(c), mem.lo(), mem.hi(), c);
            blocks::lemma_block_pos(c);
            v2.lemma_put(c, mem.lo(), mem.hi());
            assert(c.has(c.addr));
        }
        assert(v2.free[o as int] == self.free_lists@[o as int]@);
        self.free_lists[o].push(mem, addr);
        proof {
            lemma_hand_frame(v2, c, &m2, mem, addr as int);
            let f2 = buddy_model::pushed(v2.free, o as int, addr as int);
            assert(self@.free =~= f2);
            assert forall|k: int| 0 <= k < f2.len() implies linked_list::threaded(
                #[trigger] f2[k],
                mem,
            ) by {
                if k != o {
                    assert(f2[k] == v2.free[k]);
                }
            }
            assert(self@ == v2.with_free(f2));
        }
    }
}

/// Unlinking from a free list writes only memory that was free.
proof fn lemma_dealloc_frame(
    v0: BuddyView,
    c0: Block,
    v1: BuddyView,
    o: int,
    m0: &Memory,
    m1: &Memory,
    m2: &Memory,
)
    requires
        0 <= o < v1.free.len(),
        m1.same_outside(
            m0,
            |a: int| c0.has(a) || blocks::covers(buddy_model::free_blocks(v0.free), a),
        ),
        m2.same_outside(m1, |a: int| linked_list::is_node(v1.free[o], a)),
        forall|b: Block| #[trigger]
            buddy_model::free_blocks(v1.free).contains(b) ==> buddy_model::free_blocks(
                v0.free,
            ).contains(b),
    ensures
        m2.same_outside(
            m0,
            |a: int| c0.has(a) || blocks::covers(buddy_model::free_blocks(v0.free), a),
        ),
{
    assert forall|a: int|
        m2.mapped(a) && !(c0.has(a) || blocks::covers(
            buddy_model::free_blocks(v0.free),
            a,
        )) implies #[trigger] m2.word(a) == m0.word(a) by {
        if linked_list::is_node(v1.free[o], a) {
            let b = Block { addr: a, order: o };
            blocks::lemma_block_pos(b);
            assert(buddy_model::free_blocks(v1.free).contains(b));
            assert(b.has(a));
            assert(false);
        }
        assert(m2.word(a) == m1.word(a));
        assert(m1.mapped(a));
    }
}

} // verus!
