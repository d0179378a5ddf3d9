//! Two-tier frame allocator.
//!
//! A small stack of free single pages stands in front of a buddy allocator
//! that manages the whole arena. A request pops the stack, a freed page is
//! pushed onto it. When the stack is empty it is refilled with one contiguous
//! block, so the cost of splitting is paid once per refill. When it is full
//! its oldest pages go back to the buddy allocator, which merges them with
//! their neighbours. Runs of pages come straight from the buddy allocator,
//! which alone can keep them contiguous; if it has none, the stack is emptied
//! into it and the request is tried once more.

use crate::blocks::Block;
use crate::buddy;
use crate::frame_allocator;
use crate::frame_allocator::{BuddyFrameAllocator, FrameView, PhysPageNum};
use crate::frame_model;
use crate::linked_list;
use crate::powers;
use vstd::prelude::*;

verus! {

/// Pages pulled from the buddy allocator per refill.
pub const CACHE_REFILL: usize = 16;

/// Cache size at which a drain is triggered.
pub const CACHE_HIGH: usize = 64;

/// Cache size that is drained down to.
pub const CACHE_LOW: usize = 16;

/// The largest order from `o` down to zero of which a block can be taken, or
/// -1.
pub open spec fn ladder(s: Set<Block>, o: int) -> int
    decreases o + 1,
{
    if o < 0 {
        -1
    } else if frame_model::can_take(s, o) {
        o
    } else {
        ladder(s, o - 1)
    }
}

/// The pages after the first of a block of `n` pages at `start`, from the last
/// to the second.
pub open spec fn spare(start: int, n: int) -> Seq<usize> {
    Seq::new((n - 1) as nat, |i: int| (start + n - 1 - i) as usize)
}

/// A hybrid allocator as a value.
#[verifier::ext_equal]
pub struct HybridView {
    /// Cached pages, the one to be handed out next last.
    pub cache: Seq<usize>,
    pub backing: FrameView,
}

impl HybridView {
    pub open spec fn inv(self) -> bool {
        &&& frame_model::frames_ok(self.backing.blocks)
        &&& self.cache.no_duplicates()
        &&& forall|i: int|
            0 <= i < self.cache.len() ==> (#[trigger] self.cache[i]) < usize::MAX
                && !frame_model::is_free(self.backing.blocks, self.cache[i] as int)
    }

    /// The page is free, in the cache or below it.
    pub open spec fn is_free(self, p: int) -> bool {
        linked_list::is_node(self.cache, p) || frame_model::is_free(self.backing.blocks, p)
    }

    /// The order of the block that an empty cache is refilled with, or -1.
    pub open spec fn refill_order(self) -> int {
        ladder(self.backing.blocks, frame_model::order_of(CACHE_REFILL as int))
    }

    /// The page that is handed out next.
    pub open spec fn next(self) -> Option<usize> {
        if self.cache.len() > 0 {
            Some(self.cache.last())
        } else if self.refill_order() >= 0 {
            Some(frame_model::grant(self.backing.blocks, self.refill_order()).addr as usize)
        } else {
            None
        }
    }

    /// The allocator after a request for one page.
    pub open spec fn after_alloc(self) -> HybridView {
        let o = self.refill_order();
        if self.cache.len() > 0 {
            HybridView { cache: self.cache.drop_last(), ..self }
        } else if o >= 0 {
            self.refilled(o)
        } else {
            self
        }
    }

    /// The allocator after a block of order `o` has been taken from below: its
    /// first page is handed out, the others are cached.
    pub open spec fn refilled(self, o: int) -> HybridView {
        let s = self.backing.blocks;
        HybridView {
            cache: self.cache + spare(frame_model::grant(s, o).addr, powers::p2(o)),
            backing: self.backing.with_blocks(frame_model::taken(s, o)),
        }
    }

    /// The allocator after its `n` oldest cached pages went back.
    pub open spec fn drained(self, n: int) -> HybridView {
        HybridView {
            cache: self.cache.skip(n),
            backing: self.backing.with_blocks(
                frame_model::returned(self.backing.blocks, self.cache.take(n)),
            ),
        }
    }

    /// The allocator after page `p` has been given back.
    pub open spec fn after_dealloc(self, p: usize) -> HybridView {
        let w = HybridView { cache: self.cache.push(p), ..self };
        if w.cache.len() >= CACHE_HIGH {
            w.drained(w.cache.len() - CACHE_LOW)
        } else {
            w
        }
    }

    /// The allocator as a request for `n` contiguous pages finds it, after the
    /// cache was emptied if that was needed.
    pub open spec fn readied(self, n: int) -> HybridView {
        if n == 0 || frame_model::can_take(self.backing.blocks, frame_model::order_of(n)) {
            self
        } else {
            self.drained(self.cache.len() as int)
        }
    }
}

/// What the ladder finds.
pub proof fn lemma_ladder(s: Set<Block>, o: int)
    ensures
        -1 <= ladder(s, o),
        o >= 0 ==> ladder(s, o) <= o,
        ladder(s, o) >= 0 ==> frame_model::can_take(s, ladder(s, o)),
        forall|k: int| ladder(s, o) < k <= o && 0 <= k ==> !#[trigger] frame_model::can_take(s, k),
    decreases o + 1,
{
    if o >= 0 && !frame_model::can_take(s, o) {
        lemma_ladder(s, o - 1);
    }
}

/// What a refill does.
pub proof fn lemma_refilled(h: HybridView, o: int)
    requires
        h.inv(),
        0 <= o,
        frame_model::can_take(h.backing.blocks, o),
    ensures
        ({
            let c = frame_model::grant(h.backing.blocks, o);
            let w = h.refilled(o);
            &&& w.inv()
            &&& c.natural()
            &&& c.end() <= usize::MAX
            &&& h.is_free(c.addr)
            &&& forall|x: int| w.is_free(x) <==> h.is_free(x) && x != c.addr
            &&& frame_model::tidy(h.backing.blocks) ==> frame_model::tidy(w.backing.blocks)
        }),
{
    let s = h.backing.blocks;
    let c = frame_model::grant(s, o);
    let w = h.refilled(o);
    let t = frame_model::taken(s, o);
    let n = powers::p2(o);
    let extra = spare(c.addr, n);
    frame_model::lemma_taken(s, o);
    powers::lemma_p2_pos(o);
    assert forall|i: int| 0 <= i < extra.len() implies extra[i] == c.addr + n - 1 - i && c.has(
        (#[trigger] extra[i]) as int,
    ) && extra[i] != c.addr && frame_model::is_free(s, extra[i] as int) by {}
    assert forall|i: int| 0 <= i < w.cache.len() implies (#[trigger] w.cache[i]) < usize::MAX
        && !frame_model::is_free(t, w.cache[i] as int) by {
        if i < h.cache.len() {
            assert(w.cache[i] == h.cache[i]);
        } else {
            assert(w.cache[i] == extra[i - h.cache.len()]);
        }
    }
    assert forall|i: int, j: int|
        0 <= i < w.cache.len() && 0 <= j < w.cache.len() && i != j implies w.cache[i]
        != w.cache[j] by {
        let m = h.cache.len();
        if i < m && j >= m {
            assert(w.cache[j] == extra[j - m]);
            assert(w.cache[i] == h.cache[i]);
        } else if i >= m && j < m {
            assert(w.cache[i] == extra[i - m]);
            assert(w.cache[j] == h.cache[j]);
        } else if i >= m && j >= m {
            assert(w.cache[i] == extra[i - m]);
            assert(w.cache[j] == extra[j - m]);
        }
    }
    assert(c.has(c.addr));
    assert forall|x: int| w.is_free(x) <==> h.is_free(x) && x != c.addr by {
        if linked_list::is_node(w.cache, x) {
            let i = choose|i: int| 0 <= i < w.cache.len() && w.cache[i] == x as usize;
            if i < h.cache.len() {
                assert(h.cache[i] == x as usize);
                assert(h.cache.contains(x as usize));
                assert(!frame_model::is_free(s, x));
            } else {
                assert(w.cache[i] == extra[i - h.cache.len()]);
            }
        }
        if linked_list::is_node(h.cache, x) {
            let i = choose|i: int| 0 <= i < h.cache.len() && h.cache[i] == x as usize;
            assert(w.cache[i] == x as usize);
            assert(w.cache.contains(x as usize));
            assert(!frame_model::is_free(s, x));
        }
        if c.has(x) && x != c.addr {
            let i = c.addr + n - 1 - x;
            assert(extra[i] == x);
            assert(w.cache[h.cache.len() + i] == x as usize);
            assert(w.cache.contains(x as usize));
        }
    }
}

/// What a drain does: every page stays free.
pub proof fn lemma_drained(h: HybridView, n: int)
    requires
        h.inv(),
        0 <= n <= h.cache.len(),
    ensures
        h.drained(n).inv(),
        forall|x: int| h.drained(n).is_free(x) <==> h.is_free(x),
        forall|x: int|
            n == h.cache.len() ==> (frame_model::is_free(h.drained(n).backing.blocks, x)
                <==> h.is_free(x)),
        frame_model::tidy(h.backing.blocks) ==> frame_model::tidy(h.drained(n).backing.blocks),
{
    let s = h.backing.blocks;
    let out = h.cache.take(n);
    let w = h.drained(n);
    assert forall|i: int| 0 <= i < out.len() implies (#[trigger] out[i]) < usize::MAX
        && !frame_model::is_free(s, out[i] as int) by {
        assert(out[i] == h.cache[i]);
    }
    frame_model::lemma_returned(s, out);
    assert forall|i: int| 0 <= i < w.cache.len() implies (#[trigger] w.cache[i]) < usize::MAX
        && !frame_model::is_free(w.backing.blocks, w.cache[i] as int) by {
        assert(w.cache[i] == h.cache[n + i]);
        if out.contains(w.cache[i]) {
            let j = choose|j: int| 0 <= j < out.len() && out[j] == w.cache[i];
            assert(h.cache[j] == h.cache[n + i]);
        }
    }
    assert forall|x: usize| #[trigger] h.cache.contains(x) <==> out.contains(x) || w.cache.contains(x) by {
        if h.cache.contains(x) {
            let i = choose|i: int| 0 <= i < h.cache.len() && h.cache[i] == x;
            if i < n {
                assert(out[i] == x);
            } else {
                assert(w.cache[i - n] == x);
            }
        }
        if out.contains(x) {
            let i = choose|i: int| 0 <= i < out.len() && out[i] == x;
            assert(h.cache[i] == x);
        }
        if w.cache.contains(x) {
            let i = choose|i: int| 0 <= i < w.cache.len() && w.cache[i] == x;
            assert(h.cache[n + i] == x);
        }
    }
}

/// What pushing a page that is not free onto the cache does.
proof fn lemma_pushed(h: HybridView, p: usize)
    requires
        h.inv(),
        !h.is_free(p as int),
        p < usize::MAX,
    ensures
        ({
            let w = HybridView { cache: h.cache.push(p), ..h };
            &&& w.inv()
            &&& forall|x: int| w.is_free(x) <==> h.is_free(x) || x == p
        }),
{
    let w = HybridView { cache: h.cache.push(p), ..h };
    assert forall|x: usize| #[trigger] w.cache.contains(x) <==> h.cache.contains(x) || x == p by {
        if w.cache.contains(x) {
            let i = choose|i: int| 0 <= i < w.cache.len() && w.cache[i] == x;
            if i < h.cache.len() {
                assert(h.cache[i] == x);
            }
        }
        if h.cache.contains(x) {
            let i = choose|i: int| 0 <= i < h.cache.len() && h.cache[i] == x;
            assert(w.cache[i] == x);
        }
        assert(w.cache[h.cache.len() as int] == p);
    }
    assert forall|i: int, j: int|
        0 <= i < w.cache.len() && 0 <= j < w.cache.len() && i != j implies w.cache[i]
        != w.cache[j] by {
        if i == h.cache.len() {
            assert(h.cache.contains(h.cache[j]));
        } else if j == h.cache.len() {
            assert(h.cache.contains(h.cache[i]));
        }
    }
}

/// What giving a page back does.
pub proof fn lemma_after_dealloc(h: HybridView, p: usize)
    requires
        h.inv(),
        !h.is_free(p as int),
        p < usize::MAX,
    ensures
        h.after_dealloc(p).inv(),
        forall|x: int| h.after_dealloc(p).is_free(x) <==> h.is_free(x) || x == p,
        frame_model::tidy(h.backing.blocks) ==> frame_model::tidy(
            h.after_dealloc(p).backing.blocks,
        ),
{
    lemma_pushed(h, p);
    let w = HybridView { cache: h.cache.push(p), ..h };
    if w.cache.len() >= CACHE_HIGH {
        lemma_drained(w, w.cache.len() - CACHE_LOW);
    }
}

/// What a request for one page does.
pub proof fn lemma_after_alloc(h: HybridView)
    requires
        h.inv(),
    ensures
        h.after_alloc().inv(),
        match h.next() {
            Some(p) => {
                &&& p < usize::MAX
                &&& h.is_free(p as int)
                &&& forall|x: int| h.after_alloc().is_free(x) <==> h.is_free(x) && x != p
            },
            None => {
                &&& h.after_alloc() == h
                &&& forall|x: int| !h.is_free(x)
            },
        },
        frame_model::tidy(h.backing.blocks) ==> frame_model::tidy(h.after_alloc().backing.blocks),
{
    let w = h.after_alloc();
    let o = h.refill_order();
    let s = h.backing.blocks;
    lemma_ladder(s, frame_model::order_of(CACHE_REFILL as int));
    buddy::lemma_least_order(CACHE_REFILL as int, 0);
    if h.cache.len() > 0 {
        let p = h.cache.last();
        assert(h.cache.contains(p));
        assert forall|x: usize| #[trigger] w.cache.contains(x) <==> h.cache.contains(x) && x != p by {
            if h.cache.contains(x) && x != p {
                let i = choose|i: int| 0 <= i < h.cache.len() && h.cache[i] == x;
                assert(w.cache[i] == x);
            }
            if w.cache.contains(x) {
                let i = choose|i: int| 0 <= i < w.cache.len() && w.cache[i] == x;
                assert(h.cache[i] == x);
            }
        }
    } else if o >= 0 {
        lemma_refilled(h, o);
    } else {
        assert forall|x: int| !h.is_free(x) by {
            if frame_model::is_free(s, x) {
                let b = choose|b: Block| #[trigger] s.contains(b) && b.has(x);
                assert(frame_model::can_take(s, 0));
            }
        }
    }
}

pub struct HybridFrameAllocator {
    cache: Vec<usize>,
    backing: BuddyFrameAllocator,
}

impl View for HybridFrameAllocator {
    type V = HybridView;

    closed spec fn view(&self) -> HybridView {
        HybridView { cache: self.cache@, backing: self.backing@ }
    }
}

/// Gives pages back to the buddy allocator, in order.
fn give_back(backing: &mut BuddyFrameAllocator, pages: &Vec<usize>)
    requires
        old(backing).wf(),
        pages@.no_duplicates(),
        forall|i: int|
            0 <= i < pages@.len() ==> (#[trigger] pages@[i]) < usize::MAX && !frame_model::is_free(
                old(backing)@.blocks,
                pages@[i] as int,
            ),
    ensures
        final(backing).wf(),
        final(backing)@ == old(backing)@.with_blocks(
            frame_model::returned(old(backing)@.blocks, pages@),
        ),
{
    let ghost want = frame_model::returned(backing@.blocks, pages@);
    let mut i: usize = 0;
    assert(pages@.skip(0) =~= pages@);
    while i < pages.len()
        invariant
            i <= pages@.len(),
            backing.wf(),
            backing@ == old(backing)@.with_blocks(backing@.blocks),
            frame_model::returned(backing@.blocks, pages@.skip(i as int)) == want,
            pages@.no_duplicates(),
            forall|k: int|
                i <= k < pages@.len() ==> (#[trigger] pages@[k]) < usize::MAX
                    && !frame_model::is_free(backing@.blocks, pages@[k] as int),
        decreases pages@.len() - i,
    {
        let p: usize = pages[i];
        let ghost s = backing@.blocks;
        proof {
            frame_model::lemma_page_apart(s, p as int);
            frame_model::lemma_merged(s, frame_model::page(p as int));
            assert(pages@.skip(i as int)[0] == p);
            assert(pages@.skip(i as int).drop_first() =~= pages@.skip(i + 1));
        }
        backing.dealloc_order(p, 0);
        i = i + 1;
    }
    assert(pages@.skip(i as int) =~= Seq::empty());
}

impl HybridFrameAllocator {
    pub open spec fn wf(&self) -> bool {
        self@.inv()
    }

    pub fn new() -> (r: HybridFrameAllocator)
        ensures
            r.wf(),
            r@.cache == Seq::<usize>::empty(),
            r@.backing == (FrameView { blocks: Set::empty(), base: 0, end: 0 }),
    {
        HybridFrameAllocator {
            cache: Vec::with_capacity(CACHE_HIGH),
            backing: BuddyFrameAllocator::new(),
        }
    }

    /// Makes `[l, r)` the arena and all of its pages free.
    pub fn init(&mut self, l: PhysPageNum, r: PhysPageNum)
        requires
            old(self).wf(),
            l.0 <= r.0,
            forall|x: int| l.0 <= x < r.0 ==> !#[trigger] old(self)@.is_free(x),
        ensures
            final(self).wf(),
            final(self)@ == (HybridView {
                cache: old(self)@.cache,
                backing: FrameView {
                    blocks: frame_model::given(
                        old(self)@.backing.blocks,
                        l.0 as int,
                        r.0 as int,
                    ),
                    base: l.0 as int,
                    end: r.0 as int,
                },
            }),
    {
        let ghost h = self@;
        proof {
            assert forall|x: int| l.0 <= x < r.0 implies !#[trigger] frame_model::is_free(
                h.backing.blocks,
                x,
            ) by {
                assert(!h.is_free(x));
            }
            frame_model::lemma_given(h.backing.blocks, l.0 as int, r.0 as int);
            assert forall|i: int| 0 <= i < h.cache.len() implies !(l.0 <= #[trigger] h.cache[i]
                < r.0) by {
                assert(h.cache.contains(h.cache[i]));
                assert(h.is_free(h.cache[i] as int));
            }
        }
        self.backing.init(l, r);
    }

    /// Takes one block from below: its first page is returned, the others
    /// are cached. One big block is preferred, smaller ones are taken if the
    /// arena is fragmented.
    fn refill_one(&mut self) -> (r: Option<usize>)
        requires
            old(self).wf(),
        ensures
            final(self).wf(),
            ({
                let o = old(self)@.refill_order();
                match r {
                    Some(p) => {
                        &&& o >= 0
                        &&& p == frame_model::grant(old(self)@.backing.blocks, o).addr
                        &&& final(self)@ == old(self)@.refilled(o)
                    },
                    None => o < 0 && final(self)@ == old(self)@,
                }
            }),
    {
        let ghost h = self@;
        let ghost s = h.backing.blocks;
        let ghost found = h.refill_order();
        let mut order: usize = frame_allocator::ceil_log2(CACHE_REFILL);
        proof {
            powers::lemma_p2_values();
            buddy::lemma_least_order_is(CACHE_REFILL as int, 0, 4);
        }
        loop
            invariant
                order <= 4,
                self@ == h,
                h == old(self)@,
                h.inv(),
                s == h.backing.blocks,
                found == h.refill_order(),
                ladder(s, order as int) == found,
            decreases order,
        {
            if let Some(start) = self.backing.alloc_order(order) {
                let ghost c = frame_model::grant(s, order as int);
                proof {
                    frame_model::lemma_taken(s, order as int);
                    lemma_refilled(h, order as int);
                    powers::lemma_p2_values();
                    powers::lemma_p2_mono(order as int, 4);
                    powers::lemma_p2_fits(order as int);
                    powers::lemma_shl(order);
                }
                let block: usize = 1usize << order;
                let ghost n = powers::p2(order as int);
                let mut i: usize = block - 1;
                assert(h.cache + spare(c.addr, n).take(0) =~= h.cache);
                while i > 0
                    invariant
                        i < block,
                        block == n,
                        start == c.addr,
                        c.addr + n <= usize::MAX,
                        self.backing@ == h.backing.with_blocks(
                            frame_model::taken(s, order as int),
                        ),
                        self.cache@ == h.cache + spare(c.addr, n).take(n - 1 - i),
                    decreases i,
                {
                    self.cache.push(start + i);
                    i = i - 1;
                    assert(self.cache@ =~= h.cache + spare(c.addr, n).take(n - 1 - i));
                }
                assert(spare(c.addr, n).take(n - 1) =~= spare(c.addr, n));
                return Some(start);
            }
            if order == 0 {
                assert(ladder(s, -1) == -1);
                return None;
            }
            order = order - 1;
        }
    }

    /// Gives the `n` oldest cached pages back.
    fn drain(&mut self, n: usize)
        requires
            old(self).wf(),
            n <= old(self)@.cache.len(),
        ensures
            final(self).wf(),
            final(self)@ == old(self)@.drained(n as int),
    {
        let ghost h = self@;
        proof {
            lemma_drained(h, n as int);
        }
        let mut out: Vec<usize> = self.cache.split_off(n);
        std::mem::swap(&mut self.cache, &mut out);
        proof {
            assert(out@ =~= h.cache.take(n as int));
            assert(self.cache@ =~= h.cache.skip(n as int));
            assert forall|i: int| 0 <= i < out@.len() implies (#[trigger] out@[i]) < usize::MAX
                && !frame_model::is_free(h.backing.blocks, out@[i] as int) by {
                assert(out@[i] == h.cache[i]);
            }
        }
        give_back(&mut self.backing, &out);
    }

    /// Drains the oldest pages; the hottest stay near the top of the stack.
    fn drain_to_low(&mut self)
        requires
            old(self).wf(),
        ensures
            final(self).wf(),
            final(self)@ == if old(self)@.cache.len() <= CACHE_LOW {
                old(self)@
            } else {
                old(self)@.drained(old(self)@.cache.len() - CACHE_LOW)
            },
    {
        if self.cache.len() <= CACHE_LOW {
            return ;
        }
        let n: usize = self.cache.len() - CACHE_LOW;
        self.drain(n);
    }

    fn drain_all(&mut self)
        requires
            old(self).wf(),
        ensures
            final(self).wf(),
            final(self)@ == old(self)@.drained(old(self)@.cache.len() as int),
    {
        let n: usize = self.cache.len();
        self.drain(n);
    }

    /// One page.
    pub fn allocate(&mut self) -> (r: Option<PhysPageNum>)
        requires
            old(self).wf(),
        ensures
            final(self).wf(),
            match r {
                Some(p) => old(self)@.next() == Some(p.0),
                None => old(self)@.next() is None,
            },
            final(self)@ == old(self)@.after_alloc(),
    {
        proof {
            lemma_after_alloc(self@);
        }
        if let Some(p) = self.cache.pop() {
            Some(PhysPageNum(p))
        } else {
            match self.refill_one() {
                Some(p) => Some(PhysPageNum(p)),
                None => None,
            }
        }
    }

    /// `pages` contiguous pages, in decreasing order.
    pub fn alloc_more(&mut self, pages: usize) -> (r: Option<Vec<PhysPageNum>>)
        requires
            old(self).wf(),
        ensures
            final(self).wf(),
            ({
                let h = old(self)@.readied(pages as int);
                let s = h.backing.blocks;
                let o = frame_model::order_of(pages as int);
                match r {
                    Some(v) => if pages == 0 {
                        v@ == Seq::<PhysPageNum>::empty() && final(self)@ == h
                    } else {
                        &&& frame_model::can_take(s, o)
                        &&& v@ == frame_allocator::run_down(
                            frame_model::grant(s, o).addr,
                            pages as int,
                        )
                        &&& final(self)@ == (HybridView {
                            cache: h.cache,
                            backing: h.backing.with_blocks(
                                frame_model::taken_run(s, pages as int),
                            ),
                        })
                    },
                    None => pages > 0 && !frame_model::can_take(s, o) && final(self)@ == h,
                }
            }),
    {
        let ghost h = self@;
        if let Some(v) = self.backing.alloc_more(pages) {
            proof {
                if pages > 0 {
                    lemma_run_taken(h, pages as int);
                }
            }
            return Some(v);
        }
        // The buddy allocator is too fragmented, but the cache may be hoarding
        // adjacent pages. Flush it and retry once.

        self.drain_all();
        let ghost w = self@;
        let r = self.backing.alloc_more(pages);
        proof {
            if r is Some {
                lemma_run_taken(w, pages as int);
            }
        }
        r
    }

    /// Takes back one page.
    pub fn dealloc(&mut self, ppn: PhysPageNum)
        requires
            old(self).wf(),
            ppn.0 < usize::MAX,
            !old(self)@.is_free(ppn.0 as int),
        ensures
            final(self).wf(),
            final(self)@ == old(self)@.after_dealloc(ppn.0),
    {
        proof {
            lemma_pushed(self@, ppn.0);
        }
        self.cache.push(ppn.0);
        if self.cache.len() >= CACHE_HIGH {
            self.drain_to_low();
        }
    }
}

/// Taking a run leaves the cache as it is.
pub proof fn lemma_run_taken(h: HybridView, n: int)
    requires
        h.inv(),
        0 < n,
        frame_model::can_take(h.backing.blocks, frame_model::order_of(n)),
    ensures
        ({
            let s = h.backing.blocks;
            let c = frame_model::grant(s, frame_model::order_of(n));
            let w = HybridView {
                cache: h.cache,
                backing: h.backing.with_blocks(frame_model::taken_run(s, n)),
            };
            &&& w.inv()
            &&& forall|x: int| h.is_free(x) <==> w.is_free(x) || c.addr <= x < c.addr + n
            &&& forall|x: int| c.addr <= x < c.addr + n ==> !w.is_free(x)
        }),
{
    let s = h.backing.blocks;
    let c = frame_model::grant(s, frame_model::order_of(n));
    let w = HybridView {
        cache: h.cache,
        backing: h.backing.with_blocks(frame_model::taken_run(s, n)),
    };
    frame_model::lemma_taken_run(s, n);
    assert forall|x: int| c.addr <= x < c.addr + n implies !w.is_free(x) by {
        assert(frame_model::is_free(s, x));
        if linked_list::is_node(h.cache, x) {
            let i = choose|i: int| 0 <= i < h.cache.len() && h.cache[i] == x as usize;
            assert(!frame_model::is_free(s, h.cache[i] as int));
        }
    }
    assert forall|i: int| 0 <= i < w.cache.len() implies (#[trigger] w.cache[i]) < usize::MAX
        && !frame_model::is_free(w.backing.blocks, w.cache[i] as int) by {
        assert(!frame_model::is_free(s, h.cache[i] as int));
    }
}

} // verus!
