//! The frame allocators side by side.

use crate::blocks::Block;
use crate::frame_allocator;
use crate::frame_allocator::{BuddyFrameAllocator, FrameView, PhysPageNum};
use crate::frame_hybrid;
use crate::frame_hybrid::{HybridFrameAllocator, HybridView};
use crate::frame_model;
use crate::linked_list;
use crate::powers;
use vstd::prelude::*;

verus! {

/// A stack allocator as a value.
#[verifier::ext_equal]
pub struct StackView {
    /// First page that was never handed out.
    pub current: int,
    /// Page after the last of the arena.
    pub end: int,
    /// Pages that were given back, the one to be handed out next last.
    pub recycled: Seq<usize>,
}

impl StackView {
    pub open spec fn inv(self) -> bool {
        &&& 0 <= self.current <= self.end <= usize::MAX
        &&& self.recycled.no_duplicates()
        &&& forall|i: int|
            0 <= i < self.recycled.len() ==> !(self.current <= #[trigger] self.recycled[i]
                < self.end)
    }

    pub open spec fn is_free(self, p: int) -> bool {
        self.current <= p < self.end || linked_list::is_node(self.recycled, p)
    }

    /// The page that is handed out next.
    pub open spec fn next(self) -> Option<usize> {
        if self.recycled.len() > 0 {
            Some(self.recycled.last())
        } else if self.current == self.end {
            None
        } else {
            Some(self.current as usize)
        }
    }

    pub open spec fn after_alloc(self) -> StackView {
        if self.recycled.len() > 0 {
            StackView { recycled: self.recycled.drop_last(), ..self }
        } else if self.current == self.end {
            self
        } else {
            StackView { current: self.current + 1, ..self }
        }
    }

    pub open spec fn after_dealloc(self, p: usize) -> StackView {
        StackView { recycled: self.recycled.push(p), ..self }
    }
}

/// A bump pointer with a stack of recycled pages.
pub struct LegacyStackFrameAllocator {
    current: usize,
    end: usize,
    recycled: Vec<usize>,
}

impl View for LegacyStackFrameAllocator {
    type V = StackView;

    closed spec fn view(&self) -> StackView {
        StackView {
            current: self.current as int,
            end: self.end as int,
            recycled: self.recycled@,
        }
    }
}

impl LegacyStackFrameAllocator {
    pub open spec fn wf(&self) -> bool {
        self@.inv()
    }

    pub fn new(l: usize, r: usize) -> (a: LegacyStackFrameAllocator)
        ensures
            l <= r ==> a.wf(),
            a@ == (StackView { current: l as int, end: r as int, recycled: Seq::empty() }),
    {
        LegacyStackFrameAllocator { current: l, end: r, recycled: Vec::new() }
    }

    /// One page: the last that was given back, or else the next new one.
    pub fn allocate(&mut self) -> (r: Option<PhysPageNum>)
        requires
            old(self).wf(),
        ensures
            final(self).wf(),
            match r {
                Some(p) => old(self)@.next() == Some(p.0),
                None => old(self)@.next() is None,
            },
            final(self)@ == old(self)@.after_alloc(),
    {
        proof {
            lemma_stack_alloc(self@);
        }
        if let Some(p) = self.recycled.pop() {
            Some(PhysPageNum(p))
        } else if self.current == self.end {
            None
        } else {
            self.current = self.current + 1;
            Some(PhysPageNum(self.current - 1))
        }
    }

    /// The next `pages` new pages, in decreasing order. Recycled pages are
    /// never considered, and the last page of the arena is never reached.
    pub fn alloc_more(&mut self, pages: usize) -> (r: Option<Vec<PhysPageNum>>)
        requires
            old(self).wf(),
            old(self)@.current + pages <= usize::MAX,
        ensures
            final(self).wf(),
            match r {
                Some(v) => {
                    &&& old(self)@.current + pages < old(self)@.end
                    &&& v@ == frame_allocator::run_down(old(self)@.current, pages as int)
                    &&& final(self)@ == (StackView {
                        current: old(self)@.current + pages,
                        ..old(self)@
                    })
                },
                None => {
                    &&& old(self)@.current + pages >= old(self)@.end
                    &&& final(self)@ == old(self)@
                },
            },
    {
        if self.current + pages >= self.end {
            None
        } else {
            let start: usize = self.current;
            self.current = self.current + pages;
            Some(frame_allocator::collect_down(start, pages))
        }
    }

    /// Takes back one page.
    pub fn dealloc(&mut self, ppn: PhysPageNum)
        requires
            old(self).wf(),
            !old(self)@.is_free(ppn.0 as int),
        ensures
            final(self).wf(),
            final(self)@ == old(self)@.after_dealloc(ppn.0),
    {
        proof {
            lemma_stack_dealloc(self@, ppn.0);
        }
        self.recycled.push(ppn.0);
    }
}

proof fn lemma_stack_alloc(v: StackView)
    requires
        v.inv(),
    ensures
        v.after_alloc().inv(),
        match v.next() {
            Some(p) => {
                &&& v.is_free(p as int)
                &&& forall|x: int| v.after_alloc().is_free(x) <==> v.is_free(x) && x != p
            },
            None => forall|x: int| !v.is_free(x),
        },
{
    let w = v.after_alloc();
    if v.recycled.len() > 0 {
        let p = v.recycled.last();
        assert(v.recycled.contains(p));
        assert forall|x: usize| #[trigger]
            w.recycled.contains(x) <==> v.recycled.contains(x) && x != p by {
            if v.recycled.contains(x) && x != p {
                let i = choose|i: int| 0 <= i < v.recycled.len() && v.recycled[i] == x;
                assert(w.recycled[i] == x);
            }
            if w.recycled.contains(x) {
                let i = choose|i: int| 0 <= i < w.recycled.len() && w.recycled[i] == x;
                assert(v.recycled[i] == x);
            }
        }
    }
}

proof fn lemma_stack_dealloc(v: StackView, p: usize)
    requires
        v.inv(),
        !v.is_free(p as int),
    ensures
        v.after_dealloc(p).inv(),
        forall|x: int| v.after_dealloc(p).is_free(x) <==> v.is_free(x) || x == p,
{
    let w = v.after_dealloc(p);
    assert forall|x: usize| #[trigger]
        w.recycled.contains(x) <==> v.recycled.contains(x) || x == p by {
        if w.recycled.contains(x) {
            let i = choose|i: int| 0 <= i < w.recycled.len() && w.recycled[i] == x;
            if i < v.recycled.len() {
                assert(v.recycled[i] == x);
            }
        }
        if v.recycled.contains(x) {
            let i = choose|i: int| 0 <= i < v.recycled.len() && v.recycled[i] == x;
            assert(w.recycled[i] == x);
        }
        assert(w.recycled[v.recycled.len() as int] == p);
    }
    assert forall|i: int, j: int|
        0 <= i < w.recycled.len() && 0 <= j < w.recycled.len() && i != j implies w.recycled[i]
        != w.recycled[j] by {
        if i == v.recycled.len() {
            assert(v.recycled.contains(v.recycled[j]));
        } else if j == v.recycled.len() {
            assert(v.recycled.contains(v.recycled[i]));
        }
    }
}

/// Any of the three allocators.
pub enum Tier {
    Stack(LegacyStackFrameAllocator),
    Buddy(BuddyFrameAllocator),
    Hybrid(HybridFrameAllocator),
}

/// Any of the three allocators as a value.
pub enum TierView {
    Stack(StackView),
    Buddy(FrameView),
    Hybrid(HybridView),
}

impl View for Tier {
    type V = TierView;

    open spec fn view(&self) -> TierView {
        match *self {
            Tier::Stack(a) => TierView::Stack(a@),
            Tier::Buddy(a) => TierView::Buddy(a@),
            Tier::Hybrid(a) => TierView::Hybrid(a@),
        }
    }
}

impl TierView {
    pub open spec fn inv(self) -> bool {
        match self {
            TierView::Stack(v) => v.inv(),
            TierView::Buddy(v) => frame_model::frames_ok(v.blocks),
            TierView::Hybrid(v) => v.inv(),
        }
    }

    pub open spec fn is_free(self, p: int) -> bool {
        match self {
            TierView::Stack(v) => v.is_free(p),
            TierView::Buddy(v) => frame_model::is_free(v.blocks, p),
            TierView::Hybrid(v) => v.is_free(p),
        }
    }

    /// Buddies that are both free have been merged.
    pub open spec fn tidy(self) -> bool {
        match self {
            TierView::Stack(v) => true,
            TierView::Buddy(v) => frame_model::tidy(v.blocks),
            TierView::Hybrid(v) => frame_model::tidy(v.backing.blocks),
        }
    }

    /// The page is one that may be given back.
    pub open spec fn accepts(self, p: int) -> bool {
        match self {
            TierView::Stack(v) => true,
            TierView::Buddy(v) => v.base <= p < v.end,
            TierView::Hybrid(v) => p < usize::MAX,
        }
    }

    /// The page that is handed out next.
    pub open spec fn next(self) -> Option<usize> {
        match self {
            TierView::Stack(v) => v.next(),
            TierView::Buddy(v) => if frame_model::can_take(v.blocks, 0) {
                Some(frame_model::grant(v.blocks, 0).addr as usize)
            } else {
                None
            },
            TierView::Hybrid(v) => v.next(),
        }
    }

    /// The allocator after a request for one page.
    pub open spec fn after_alloc(self) -> TierView {
        match self {
            TierView::Stack(v) => TierView::Stack(v.after_alloc()),
            TierView::Buddy(v) => if frame_model::can_take(v.blocks, 0) {
                TierView::Buddy(v.with_blocks(frame_model::taken(v.blocks, 0)))
            } else {
                self
            },
            TierView::Hybrid(v) => TierView::Hybrid(v.after_alloc()),
        }
    }

    /// The allocator after page `p` has been given back.
    pub open spec fn after_dealloc(self, p: usize) -> TierView {
        match self {
            TierView::Stack(v) => TierView::Stack(v.after_dealloc(p)),
            TierView::Buddy(v) => TierView::Buddy(
                v.with_blocks(frame_model::merged(v.blocks, frame_model::page(p as int))),
            ),
            TierView::Hybrid(v) => TierView::Hybrid(v.after_dealloc(p)),
        }
    }

    /// First page of the run that a request for `n > 0` contiguous pages is
    /// answered with.
    pub open spec fn run(self, n: int) -> Option<int> {
        match self {
            TierView::Stack(v) => if v.current + n < v.end {
                Some(v.current)
            } else {
                None
            },
            TierView::Buddy(v) => run_in(v.blocks, n),
            TierView::Hybrid(v) => run_in(v.readied(n).backing.blocks, n),
        }
    }

    /// The allocator after a request for `n` contiguous pages.
    pub open spec fn after_run(self, n: int) -> TierView {
        match self {
            TierView::Stack(v) => if v.current + n < v.end {
                TierView::Stack(StackView { current: v.current + n, ..v })
            } else {
                self
            },
            TierView::Buddy(v) => TierView::Buddy(v.with_blocks(after_run_in(v.blocks, n))),
            TierView::Hybrid(v) => {
                let w = v.readied(n);
                TierView::Hybrid(
                    HybridView {
                        cache: w.cache,
                        backing: w.backing.with_blocks(after_run_in(w.backing.blocks, n)),
                    },
                )
            },
        }
    }

    /// The free pages.
    pub open spec fn pages(self) -> Set<int> {
        Set::new(|p: int| self.is_free(p))
    }
}

pub open spec fn run_in(s: Set<Block>, n: int) -> Option<int> {
    if frame_model::can_take(s, frame_model::order_of(n)) {
        Some(frame_model::grant(s, frame_model::order_of(n)).addr)
    } else {
        None
    }
}

pub open spec fn after_run_in(s: Set<Block>, n: int) -> Set<Block> {
    if n > 0 && frame_model::can_take(s, frame_model::order_of(n)) {
        frame_model::taken_run(s, n)
    } else {
        s
    }
}

/// What a request for one page does.
pub proof fn lemma_tier_alloc(t: TierView)
    requires
        t.inv(),
    ensures
        t.after_alloc().inv(),
        match t.next() {
            Some(p) => {
                &&& t.is_free(p as int)
                &&& forall|x: int| t.after_alloc().is_free(x) <==> t.is_free(x) && x != p
            },
            None => forall|x: int| !t.is_free(x),
        },
        t.tidy() ==> t.after_alloc().tidy(),
        forall|x: int| t.after_alloc().accepts(x) <==> t.accepts(x),
{
    match t {
        TierView::Stack(v) => {
            lemma_stack_alloc(v);
        },
        TierView::Buddy(v) => {
            let s = v.blocks;
            if frame_model::can_take(s, 0) {
                frame_model::lemma_taken(s, 0);
                let c = frame_model::grant(s, 0);
                powers::lemma_p2_values();
                assert(forall|x: int| c.has(x) <==> x == c.addr);
            } else {
                assert forall|x: int| !t.is_free(x) by {
                    if frame_model::is_free(s, x) {
                        let b = choose|b: Block| #[trigger] s.contains(b) && b.has(x);
                        assert(b.natural());
                        assert(frame_model::can_take(s, 0));
                    }
                }
            }
        },
        TierView::Hybrid(v) => {
            frame_hybrid::lemma_after_alloc(v);
        },
    }
}

/// What giving a page back does.
pub proof fn lemma_tier_dealloc(t: TierView, p: usize)
    requires
        t.inv(),
        !t.is_free(p as int),
        t.accepts(p as int),
        p < usize::MAX,
    ensures
        t.after_dealloc(p).inv(),
        forall|x: int| t.after_dealloc(p).is_free(x) <==> t.is_free(x) || x == p,
        t.tidy() ==> t.after_dealloc(p).tidy(),
        forall|x: int| t.after_dealloc(p).accepts(x) <==> t.accepts(x),
{
    match t {
        TierView::Stack(v) => {
            lemma_stack_dealloc(v, p);
        },
        TierView::Buddy(v) => {
            frame_model::lemma_page_apart(v.blocks, p as int);
            frame_model::lemma_merged(v.blocks, frame_model::page(p as int));
        },
        TierView::Hybrid(v) => {
            frame_hybrid::lemma_after_dealloc(v, p);
        },
    }
}

impl Tier {
    pub open spec fn wf(&self) -> bool {
        self@.inv()
    }

    pub fn build_stack(base: usize, end: usize) -> (r: Tier)
        requires
            base <= end,
        ensures
            r.wf(),
            r@ == TierView::Stack(
                (StackView { current: base as int, end: end as int, recycled: Seq::empty() }),
            ),
    {
        Tier::Stack(LegacyStackFrameAllocator::new(base, end))
    }

    pub fn build_buddy(base: usize, end: usize) -> (r: Tier)
        requires
            base <= end,
        ensures
            r.wf(),
            r@ == TierView::Buddy(
                (FrameView {
                    blocks: frame_model::given(Set::empty(), base as int, end as int),
                    base: base as int,
                    end: end as int,
                }),
            ),
    {
        let mut a = BuddyFrameAllocator::new();
        a.init(PhysPageNum(base), PhysPageNum(end));
        Tier::Buddy(a)
    }

    pub fn build_hybrid(base: usize, end: usize) -> (r: Tier)
        requires
            base <= end,
        ensures
            r.wf(),
            r@ == TierView::Hybrid(
                (HybridView {
                    cache: Seq::empty(),
                    backing: FrameView {
                        blocks: frame_model::given(Set::empty(), base as int, end as int),
                        base: base as int,
                        end: end as int,
                    },
                }),
            ),
    {
        let mut a = HybridFrameAllocator::new();
        a.init(PhysPageNum(base), PhysPageNum(end));
        Tier::Hybrid(a)
    }

    /// One page.
    pub fn allocate(&mut self) -> (r: Option<PhysPageNum>)
        requires
            old(self).wf(),
        ensures
            final(self).wf(),
            match r {
                Some(p) => old(self)@.next() == Some(p.0),
                None => old(self)@.next() is None,
            },
            final(self)@ == old(self)@.after_alloc(),
    {
        match self {
            Tier::Stack(a) => a.allocate(),
            Tier::Buddy(a) => a.allocate(),
            Tier::Hybrid(a) => a.allocate(),
        }
    }

    /// `n` contiguous pages, in decreasing order.
    pub fn alloc_more(&mut self, n: usize) -> (r: Option<Vec<PhysPageNum>>)
        requires
            old(self).wf(),
            old(self)@ matches TierView::Stack(v) ==> v.current + n <= usize::MAX,
        ensures
            final(self).wf(),
            n > 0 ==> match r {
                Some(v) => {
                    &&& old(self)@.run(n as int) is Some
                    &&& v@ == frame_allocator::run_down(
                        old(self)@.run(n as int).unwrap(),
                        n as int,
                    )
                },
                None => old(self)@.run(n as int) is None,
            },
            n == 0 ==> match old(self)@ {
                TierView::Stack(v) => (r is Some) == (v.current < v.end),
                _ => r is Some,
            },
            n == 0 && r is Some ==> r.unwrap()@ == Seq::<PhysPageNum>::empty(),
            final(self)@ == old(self)@.after_run(n as int),
    {
        match self {
            Tier::Stack(a) => a.alloc_more(n),
            Tier::Buddy(a) => a.alloc_more(n),
            Tier::Hybrid(a) => a.alloc_more(n),
        }
    }

    /// Takes back one page.
    pub fn dealloc(&mut self, p: PhysPageNum)
        requires
            old(self).wf(),
            !old(self)@.is_free(p.0 as int),
            old(self)@.accepts(p.0 as int),
        ensures
            final(self).wf(),
            final(self)@ == old(self)@.after_dealloc(p.0),
    {
        match self {
            Tier::Stack(a) => a.dealloc(p),
            Tier::Buddy(a) => a.dealloc(p),
            Tier::Hybrid(a) => a.dealloc(p),
        }
    }
}

} // verus!
