//! What the frame allocators hand out and take back, step by step.

use crate::blocks;
use crate::blocks::Block;
use crate::buddy;
use crate::frame_allocator::{FrameView, PhysPageNum};
use crate::frame_bench;
use crate::frame_bench::TierKind;
use crate::frame_hybrid;
use crate::frame_hybrid::HybridView;
use crate::frame_model;
use crate::frame_tier::{StackView, TierView};
use crate::frames;
use crate::memory::Memory;
use crate::powers;
use vstd::prelude::*;

verus! {

/// A run of `n` pages is taken from the smallest block that holds it: half of
/// that would be too small.
pub proof fn law_run_block(n: int)
    requires
        0 < n,
    ensures
        ({
            let o = frame_model::order_of(n);
            &&& 0 <= o
            &&& n <= powers::p2(o)
            &&& powers::p2(o) < 2 * n
            &&& o == 0 || powers::p2(o - 1) < n
        }),
{
    let o = frame_model::order_of(n);
    buddy::lemma_least_order(n, 0);
    powers::lemma_p2_values();
    if o > 0 {
        powers::lemma_p2_step(o - 1);
    }
}

/// A request for `2^o` pages can be served exactly if some free block has so
/// many pages or more. `b` is a free block.
pub proof fn law_can_take(s: Set<Block>, o: int, b: Block)
    ensures
        s.contains(b) && b.order >= o ==> frame_model::can_take(s, o),
        (forall|c: Block| #[trigger] s.contains(c) ==> c.order < o) ==> !frame_model::can_take(
            s,
            o,
        ),
{
}

/// Of the free blocks that are large enough the smallest is taken, and of those
/// the one at the lowest address: `b`. Its low end is handed out. The upper half
/// of each split is free, and all other free blocks stay as they are.
pub proof fn law_take(s: Set<Block>, o: int, b: Block, d: Block)
    requires
        s.contains(b),
        b.order >= o,
        forall|c: Block| #[trigger]
            s.contains(c) && c.order >= o ==> b.order < c.order || (b.order == c.order && b.addr
                <= c.addr),
    ensures
        frame_model::can_take(s, o),
        frame_model::grant(s, o).addr == b.addr,
        frame_model::grant(s, o).order == o,
        frame_model::taken(s, o).contains(d) <==> (s.contains(d) && d != b) || (o <= d.order
            < b.order && d.addr == b.addr + powers::p2(d.order)),
{
    frame_model::lemma_pick_unique(s, o, b);
}

/// A block whose buddy is not free, or that is of the largest order, is free as
/// it is once it has been given back. The buddy is the other half of the
/// aligned block of twice the size.
pub proof fn law_given_back_alone(s: Set<Block>, c: Block)
    requires
        0 <= c.order,
        c.order == 32 || !s.contains(
            (Block {
                addr: if c.addr % powers::p2(c.order + 1) == 0 {
                    c.addr + powers::p2(c.order)
                } else {
                    c.addr - powers::p2(c.order)
                },
                order: c.order,
            }),
        ),
    ensures
        frame_model::merged(s, c) == s.insert(c),
{
    reveal(powers::aligned);
}

/// A block whose buddy is free becomes one with it: the free blocks are as if
/// the buddy had not been free and the block of twice the size had been given
/// back.
pub proof fn law_given_back_merges(s: Set<Block>, c: Block, b: Block)
    requires
        0 <= c.order < 32,
        s.contains(b),
        b.order == c.order,
        b.addr == if c.addr % powers::p2(c.order + 1) == 0 {
            c.addr + powers::p2(c.order)
        } else {
            c.addr - powers::p2(c.order)
        },
    ensures
        frame_model::merged(s, c) == frame_model::merged(
            s.remove(b),
            (Block {
                addr: if b.addr < c.addr {
                    b.addr
                } else {
                    c.addr
                },
                order: c.order + 1,
            }),
        ),
{
    reveal(powers::aligned);
    powers::lemma_p2_pos(c.order);
    assert(b == c.buddy());
}

/// Pages are given back one by one, in their order.
pub proof fn law_returned(s: Set<Block>, p: usize, rest: Seq<usize>)
    ensures
        frame_model::returned(s, Seq::empty()) == s,
        frame_model::returned(s, seq![p] + rest) == frame_model::returned(
            frame_model::merged(s, (Block { addr: p as int, order: 0 })),
            rest,
        ),
{
    let all = seq![p] + rest;
    assert(all.drop_first() =~= rest);
}

/// A run of pages that becomes free is cut from its start on: the first block
/// is the largest, of up to 2^32 pages, whose size divides its address and
/// fits; the rest is a run of its own. An empty run adds nothing.
pub proof fn law_cut(s: Set<Block>, start: int, end: int, k: int)
    requires
        0 <= start,
    ensures
        end <= start ==> frame_model::given(s, start, end) == s,
        0 <= k <= 32 && start % powers::p2(k) == 0 && start + powers::p2(k) <= end && (k == 32
            || start % powers::p2(k + 1) != 0 || end < start + powers::p2(k + 1))
            ==> frame_model::given(s, start, end) == frame_model::given(
            s.insert(Block { addr: start, order: k }),
            start + powers::p2(k),
            end,
        ),
{
    let cut = frame_model::frame_cut();
    powers::lemma_p2_values();
    if end <= start {
        assert(cut.pieces(start, end) =~= Seq::empty());
        assert(frame_model::given(s, start, end) =~= s);
    }
    if 0 <= k <= 32 && start % powers::p2(k) == 0 && start + powers::p2(k) <= end && (k == 32
        || start % powers::p2(k + 1) != 0 || end < start + powers::p2(k + 1)) {
        let room = end - start;
        powers::lemma_p2_pos(k);
        reveal(powers::aligned);
        blocks::lemma_largest_fit(start, room, 32);
        let l = blocks::largest_fit(start, room, 32);
        assert(blocks::fits(start, room, k));
        if l < k {
            assert(!blocks::fits(start, room, k));
        } else if l > k {
            powers::lemma_aligned_mono(start, k + 1, l);
            powers::lemma_p2_mono(k + 1, l);
        }
        let b = cut.first(start, end);
        assert(b == (Block { addr: start, order: k }));
        assert(!cut.done(start, end));
        let rest = cut.pieces(b.end(), end);
        let all = cut.pieces(start, end);
        assert(all == seq![b] + rest);
        assert forall|d: Block| frame_model::given(s, start, end).contains(d)
            <==> frame_model::given(s.insert(b), b.end(), end).contains(d) by {
            if all.contains(d) {
                let i = choose|i: int| 0 <= i < all.len() && all[i] == d;
                if i > 0 {
                    assert(rest[i - 1] == d);
                }
            }
            if rest.contains(d) {
                let i = choose|i: int| 0 <= i < rest.len() && rest[i] == d;
                assert(all[i + 1] == d);
            }
            assert(all[0] == b);
        }
        assert(frame_model::given(s, start, end) =~= frame_model::given(
            s.insert(b),
            b.end(),
            end,
        ));
    }
}

/// A run of `n` pages is the low end of a block of `2^o` pages that is taken;
/// what is left of the block becomes free again.
pub proof fn law_run_taken(s: Set<Block>, n: int, o: int)
    requires
        0 < n,
        0 <= o,
        n <= powers::p2(o),
        o == 0 || powers::p2(o - 1) < n,
    ensures
        ({
            let a = frame_model::grant(s, o).addr;
            frame_model::taken_run(s, n) == frame_model::given(
                frame_model::taken(s, o),
                a + n,
                a + powers::p2(o),
            )
        }),
        frame_model::order_of(n) == o,
{
    buddy::lemma_least_order_is(n, 0, o);
}

/// As long as pages are cached, the one that was cached last is handed out, and
/// the allocator below is not asked.
pub proof fn law_hybrid_cached(h: HybridView)
    requires
        h.cache.len() > 0,
    ensures
        h.next() == Some(h.cache[h.cache.len() - 1]),
        h.after_alloc().cache == h.cache.drop_last(),
        h.after_alloc().backing == h.backing,
{
}

/// An empty cache is refilled with a block of 16 pages, or with the largest
/// smaller one if there is none: `2^o` pages. The first is handed out, the
/// others are cached so that they follow in ascending order.
pub proof fn law_hybrid_refill(h: HybridView, o: int)
    requires
        h.inv(),
        h.cache.len() == 0,
        0 <= o <= 4,
        frame_model::can_take(h.backing.blocks, o),
        o == 4 || !frame_model::can_take(h.backing.blocks, o + 1),
    ensures
        ({
            let s = h.backing.blocks;
            let a = frame_model::grant(s, o).addr;
            let w = h.after_alloc();
            &&& h.next() == Some(a as usize)
            &&& w.backing.blocks == frame_model::taken(s, o)
            &&& w.backing.base == h.backing.base
            &&& w.backing.end == h.backing.end
            &&& w.cache.len() == powers::p2(o) - 1
            &&& forall|i: int|
                0 <= i < w.cache.len() ==> (#[trigger] w.cache[w.cache.len() - 1 - i]) == a + 1 + i
        }),
{
    let s = h.backing.blocks;
    lemma_refill_order(h, o);
    powers::lemma_p2_pos(o);
    frame_model::lemma_taken(s, o);
    let a = frame_model::grant(s, o).addr;
    let w = h.after_alloc();
    assert(w.cache =~= frame_hybrid::spare(a, powers::p2(o)));
}

proof fn lemma_refill_order(h: HybridView, o: int)
    requires
        0 <= o <= 4,
        frame_model::can_take(h.backing.blocks, o),
        o == 4 || !frame_model::can_take(h.backing.blocks, o + 1),
    ensures
        h.refill_order() == o,
{
    let s = h.backing.blocks;
    powers::lemma_p2_values();
    buddy::lemma_least_order_is(16, 0, 4);
    frame_hybrid::lemma_ladder(s, 4);
    let l = h.refill_order();
    if l < o {
        assert(!frame_model::can_take(s, o));
    } else if o < l {
        let b = choose|b: Block| #[trigger] s.contains(b) && b.order >= l;
        assert(s.contains(b) && b.order >= o + 1);
    }
}

/// With nothing cached and nothing free below, a request is refused and changes
/// nothing.
pub proof fn law_hybrid_empty(h: HybridView)
    requires
        h.cache.len() == 0,
        forall|b: Block| #[trigger] h.backing.blocks.contains(b) ==> b.order < 0,
    ensures
        h.next() is None,
        h.after_alloc() == h,
{
    let s = h.backing.blocks;
    powers::lemma_p2_values();
    buddy::lemma_least_order_is(16, 0, 4);
    frame_hybrid::lemma_ladder(s, 4);
}

/// A page that is given back is cached. When that makes 64, the 16 that were
/// cached last stay and the others go to the allocator below, the oldest
/// first.
pub proof fn law_hybrid_freed(h: HybridView, p: usize)
    ensures
        h.cache.len() < 63 ==> h.after_dealloc(p).cache == h.cache.push(p) && h.after_dealloc(
            p,
        ).backing == h.backing,
        h.cache.len() >= 63 ==> ({
            let all = h.cache.push(p);
            let n = all.len() - 16;
            let w = h.after_dealloc(p);
            &&& w.cache.len() == 16
            &&& w.cache == all.subrange(n, all.len() as int)
            &&& w.backing.blocks == frame_model::returned(h.backing.blocks, all.subrange(0, n))
            &&& w.backing.base == h.backing.base
            &&& w.backing.end == h.backing.end
        }),
{
    let all = h.cache.push(p);
    if h.cache.len() >= 63 {
        let n = all.len() - 16;
        assert(all.skip(n) =~= all.subrange(n, all.len() as int));
        assert(all.take(n) =~= all.subrange(0, n));
    }
}

/// A run bypasses the cache. Only if the allocator below cannot serve it, all
/// cached pages go back there first, the oldest first.
pub proof fn law_hybrid_run(h: HybridView, n: int, o: int)
    requires
        0 < n,
        0 <= o,
        n <= powers::p2(o),
        o == 0 || powers::p2(o - 1) < n,
    ensures
        frame_model::can_take(h.backing.blocks, o) ==> h.readied(n) == h,
        !frame_model::can_take(h.backing.blocks, o) ==> {
            &&& h.readied(n).cache.len() == 0
            &&& h.readied(n).backing.blocks == frame_model::returned(h.backing.blocks, h.cache)
            &&& h.readied(n).backing.base == h.backing.base
            &&& h.readied(n).backing.end == h.backing.end
        },
        h.readied(0) == h,
{
    buddy::lemma_least_order_is(n, 0, o);
    assert(h.cache.take(h.cache.len() as int) =~= h.cache);
}

/// A page is free if it is cached or free below.
pub proof fn law_hybrid_free(h: HybridView, p: usize)
    ensures
        h.is_free(p as int) <==> h.cache.contains(p) || frame_model::is_free(
            h.backing.blocks,
            p as int,
        ),
        frame_model::is_free(h.backing.blocks, p as int) <==> exists|b: Block| #[trigger]
            h.backing.blocks.contains(b) && b.addr <= p < b.addr + powers::p2(b.order),
{
    let s = h.backing.blocks;
    if exists|b: Block| #[trigger] s.contains(b) && b.addr <= p < b.addr + powers::p2(b.order) {
        let b = choose|b: Block| #[trigger]
            s.contains(b) && b.addr <= p < b.addr + powers::p2(b.order);
        assert(b.has(p as int));
    }
}

/// The stack allocator hands out the page that was given back last, or else the
/// next page that was never handed out, until the arena is used up.
pub proof fn law_stack(v: StackView, p: usize)
    requires
        v.inv(),
    ensures
        v.recycled.len() > 0 ==> {
            &&& v.next() == Some(v.recycled[v.recycled.len() - 1])
            &&& v.after_alloc().recycled == v.recycled.drop_last()
            &&& v.after_alloc().current == v.current
            &&& v.after_alloc().end == v.end
        },
        v.recycled.len() == 0 && v.current < v.end ==> {
            &&& v.next() == Some(v.current as usize)
            &&& v.after_alloc().current == v.current + 1
            &&& v.after_alloc().end == v.end
            &&& v.after_alloc().recycled.len() == 0
        },
        v.recycled.len() == 0 && v.current == v.end ==> v.next() is None && v.after_alloc() == v,
        v.after_dealloc(p).recycled == v.recycled.push(p),
        v.after_dealloc(p).current == v.current,
        v.after_dealloc(p).end == v.end,
        v.is_free(p as int) <==> v.current <= p < v.end || v.recycled.contains(p),
{
}

/// A run of the stack allocator consists of pages that were never handed out,
/// and never reaches the last page of the arena.
pub proof fn law_stack_run(v: StackView, n: int)
    ensures
        v.current + n < v.end ==> TierView::Stack(v).run(n) == Some(v.current)
            && TierView::Stack(v).after_run(n) == TierView::Stack(
            (StackView { current: v.current + n, end: v.end, recycled: v.recycled }),
        ),
        v.end <= v.current + n ==> TierView::Stack(v).run(n) is None && TierView::Stack(
            v,
        ).after_run(n) == TierView::Stack(v),
{
}

/// An allocator of any kind does what its kind does.
pub proof fn law_kinds(v: StackView, f: FrameView, h: HybridView, p: usize)
    ensures
        TierView::Stack(v).next() == v.next(),
        TierView::Stack(v).after_alloc() == TierView::Stack(v.after_alloc()),
        TierView::Stack(v).after_dealloc(p) == TierView::Stack(v.after_dealloc(p)),
        TierView::Hybrid(h).next() == h.next(),
        TierView::Hybrid(h).after_alloc() == TierView::Hybrid(h.after_alloc()),
        TierView::Hybrid(h).after_dealloc(p) == TierView::Hybrid(h.after_dealloc(p)),
        frame_model::can_take(f.blocks, 0) ==> {
            &&& TierView::Buddy(f).next() == Some(frame_model::grant(f.blocks, 0).addr as usize)
            &&& TierView::Buddy(f).after_alloc() == TierView::Buddy(
                (FrameView {
                    blocks: frame_model::taken(f.blocks, 0),
                    base: f.base,
                    end: f.end,
                }),
            )
        },
        !frame_model::can_take(f.blocks, 0) ==> TierView::Buddy(f).next() is None
            && TierView::Buddy(f).after_alloc() == TierView::Buddy(f),
        TierView::Buddy(f).after_dealloc(p) == TierView::Buddy(
            (FrameView {
                blocks: frame_model::merged(f.blocks, (Block { addr: p as int, order: 0 })),
                base: f.base,
                end: f.end,
            }),
        ),
{
}

/// A run of a buddy or hybrid allocator comes from its free blocks.
pub proof fn law_kinds_run(f: FrameView, h: HybridView, n: int, o: int)
    requires
        0 < n,
        0 <= o,
        n <= powers::p2(o),
        o == 0 || powers::p2(o - 1) < n,
    ensures
        frame_model::can_take(f.blocks, o) ==> {
            &&& TierView::Buddy(f).run(n) == Some(frame_model::grant(f.blocks, o).addr)
            &&& TierView::Buddy(f).after_run(n) == TierView::Buddy(
                (FrameView {
                    blocks: frame_model::taken_run(f.blocks, n),
                    base: f.base,
                    end: f.end,
                }),
            )
        },
        !frame_model::can_take(f.blocks, o) ==> TierView::Buddy(f).run(n) is None
            && TierView::Buddy(f).after_run(n) == TierView::Buddy(f),
        ({
            let w = h.readied(n);
            let below = TierView::Buddy(w.backing);
            &&& TierView::Hybrid(h).run(n) == below.run(n)
            &&& below.after_run(n) matches TierView::Buddy(g) && TierView::Hybrid(h).after_run(n)
                == TierView::Hybrid((HybridView { cache: w.cache, backing: g }))
        }),
{
    buddy::lemma_least_order_is(n, 0, o);
    assert(f.with_blocks(f.blocks) == f);
}

/// A page has 4096 bytes. An address lies in the page below it and in or before
/// the page above it.
pub proof fn law_pages(a: int)
    ensures
        frames::page_floor(a) * 4096 <= a < frames::page_floor(a) * 4096 + 4096,
        frames::page_ceil(a) * 4096 - 4096 < a <= frames::page_ceil(a) * 4096,
{
}

/// A wiped page holds nothing but zeros: each of its 4096 bytes belongs to a
/// word that is zero. `a` is the address of a word.
pub proof fn law_wiped(mem: &Memory, p: PhysPageNum, a: int)
    requires
        frames::page_clean(mem, p),
        mem.mapped(a),
        p.0 * 4096 <= a < p.0 * 4096 + 4096,
    ensures
        mem.word(a) == 0,
        frames::in_page(p, a),
{
    assert(frames::in_page(p, a));
}

/// What lies outside the 4096 bytes of a page is not in it, and a page is memory
/// if all of its bytes are.
pub proof fn law_page_bounds(mem: &Memory, p: PhysPageNum, a: int)
    ensures
        frames::in_page(p, a) <==> p.0 * 4096 <= a < p.0 * 4096 + 4096,
        frames::page_mapped(mem, p.0 as int) <==> mem.lo() <= p.0 * 4096 && p.0 * 4096 + 4096
            <= mem.hi(),
{
}

/// The arena of the kernel: its free blocks are joined by those of the run, its
/// bounds are those of the run, and the cache stays.
pub proof fn law_inited(h: HybridView, l: int, r: int)
    ensures
        frames::inited(h, l, r).cache == h.cache,
        frames::inited(h, l, r).backing.blocks == frame_model::given(h.backing.blocks, l, r),
        frames::inited(h, l, r).backing.base == l,
        frames::inited(h, l, r).backing.end == r,
{
}

/// The benchmark has an arena of 256 pages, and 1024 rounds on a working set of
/// 64 pages. A fresh allocator has all pages of its arena free, none of them
/// handed out before.
pub proof fn law_bench(base: int, end: int)
    ensures
        frame_bench::ARENA == 256,
        frame_bench::CHURN_ROUNDS == 1024,
        frame_bench::WORKING_SET == 64,
        frame_bench::fresh(TierKind::Stack, base, end) == TierView::Stack(
            (StackView { current: base, end, recycled: Seq::empty() }),
        ),
        ({
            let blocks = frame_model::given(Set::empty(), base, end);
            let arena = FrameView { blocks, base, end };
            &&& frame_bench::fresh(TierKind::Buddy, base, end) == TierView::Buddy(arena)
            &&& frame_bench::fresh(TierKind::Hybrid, base, end) == TierView::Hybrid(
                (HybridView { cache: Seq::empty(), backing: arena }),
            )
        }),
{
}

/// Pages are taken one after the other and collected in that order, and given
/// back from the first to the last.
pub proof fn law_take_and_give(t: TierView, n: int, p: PhysPageNum, rest: Seq<PhysPageNum>)
    requires
        0 <= n,
    ensures
        frame_bench::take(t, 0) == (t, Seq::<PhysPageNum>::empty()),
        ({
            let (u, v) = frame_bench::take(t, n);
            let (x, w) = frame_bench::take(t, n + 1);
            &&& x == u.after_alloc()
            &&& w.len() == v.len() + 1
            &&& w.drop_last() == v
            &&& w.last().0 == u.next().unwrap()
        }),
        frame_bench::give(t, Seq::empty()) == t,
        frame_bench::give(t, seq![p] + rest) == frame_bench::give(t.after_dealloc(p.0), rest),
{
    let (u, v) = frame_bench::take(t, n);
    let (x, w) = frame_bench::take(t, n + 1);
    assert(w.drop_last() =~= v);
    let all = seq![p] + rest;
    assert(all.drop_first() =~= rest);
}

/// Round `i` of the churn gives back one page of the working set, the one that a
/// linear congruential generator names, and puts the page that it takes in its
/// place.
pub proof fn law_churn(t: TierView, held: Seq<PhysPageNum>, i: int, rounds: int)
    requires
        held.len() == 64,
        0 <= i <= usize::MAX,
    ensures
        rounds <= i ==> frame_bench::churned(t, held, i, rounds) == (t, held),
        i < rounds ==> ({
            let j = (i * 1664525 + 1013904223) % (usize::MAX + 1) % 64;
            let u = t.after_dealloc(held[j].0);
            let taken = PhysPageNum(u.next().unwrap());
            frame_bench::churned(t, held, i, rounds) == frame_bench::churned(
                u.after_alloc(),
                held.update(j, taken),
                i + 1,
                rounds,
            )
        }),
{
    let m = usize::MAX + 1;
    let a = (i * 1664525) % m;
    vstd::arithmetic::div_mod::lemma_add_mod_noop(i * 1664525, 1013904223, m);
    vstd::arithmetic::div_mod::lemma_add_mod_noop(a, 1013904223, m);
    vstd::arithmetic::div_mod::lemma_mod_twice(i * 1664525, m);
    let k = i as usize;
    assert(k.wrapping_mul(1664525) == a);
    assert(k.wrapping_mul(1664525).wrapping_add(1013904223) == (a + 1013904223) % m);
}

/// An arena has a run of `k` pages exactly if the least power of two of at least
/// `k` pages, `2^o`, fits between its first multiple of that size, `a`, and its
/// end.
pub proof fn law_arena_run(base: int, end: int, k: int, o: int, a: int)
    requires
        0 < k,
        0 <= o,
        0 <= base,
        k <= powers::p2(o),
        o == 0 || powers::p2(o - 1) < k,
        base <= a < base + powers::p2(o),
        a % powers::p2(o) == 0,
    ensures
        frame_bench::arena_has_run(base, end, k) <==> o <= 32 && a + powers::p2(o) <= end,
{
    buddy::lemma_least_order_is(k, 0, o);
    reveal(powers::aligned);
    if o <= 32 && a + powers::p2(o) <= end {
        let c = Block { addr: a, order: o };
        assert(c.natural());
        assert(base <= c.addr && c.end() <= end);
    }
    if frame_bench::arena_has_run(base, end, k) {
        let c = choose|c: Block|
            c.natural() && c.order == o && base <= #[trigger] c.addr && c.end() <= end;
        if c.addr < a {
            powers::lemma_aligned_gap(c.addr, a, o);
        }
    }
}

} // verus!
