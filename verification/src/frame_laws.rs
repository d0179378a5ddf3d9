//! What holds of the frame allocators.

use crate::blocks;
use crate::blocks::Block;
use crate::buddy;
use crate::frame_allocator;
use crate::frame_hybrid;
use crate::frame_hybrid::{HybridView, CACHE_HIGH, CACHE_REFILL};
use crate::frame_model;
use crate::frame_model::MAX_ORDER;
use crate::powers;
use vstd::prelude::*;

verus! {

/// An aligned run of `2^o` pages is free.
pub open spec fn has_free_run(s: Set<Block>, o: int) -> bool {
    exists|c: Block|
        c.natural() && c.order == o && forall|x: int| #[trigger]
            c.has(x) ==> frame_model::is_free(s, x)
}

/// As long as freed buddies are merged, a block of `2^o` pages can be taken
/// exactly if an aligned run of so many pages is free.
pub proof fn law_block_found(s: Set<Block>, o: int)
    requires
        frame_model::frames_ok(s),
        frame_model::tidy(s),
        0 <= o <= MAX_ORDER,
    ensures
        frame_model::can_take(s, o) <==> has_free_run(s, o),
{
    if frame_model::can_take(s, o) {
        frame_model::lemma_taken(s, o);
        let c = frame_model::grant(s, o);
        assert(c.natural() && c.order == o);
        assert forall|x: int| #[trigger] c.has(x) implies frame_model::is_free(s, x) by {}
    }
    if has_free_run(s, o) {
        let c = choose|c: Block|
            c.natural() && c.order == o && forall|x: int| #[trigger]
                c.has(x) ==> frame_model::is_free(s, x);
        assert forall|x: int| c.has(x) implies #[trigger] blocks::covers(s, x) by {
            assert(frame_model::is_free(s, x));
        }
        let b = blocks::lemma_enclosing_block(s, c, MAX_ORDER as int);
        assert(s.contains(b) && b.order >= o);
    }
}

/// A run of `n` pages consists of `n` consecutive pages that were free before
/// and are not free afterwards; nothing else changes hands.
pub proof fn law_run(s: Set<Block>, n: int)
    requires
        frame_model::frames_ok(s),
        0 < n,
        frame_model::can_take(s, frame_model::order_of(n)),
    ensures
        ({
            let a = frame_model::grant(s, frame_model::order_of(n)).addr;
            let t = frame_model::taken_run(s, n);
            &&& forall|x: int| frame_model::is_free(s, x) <==> frame_model::is_free(t, x) || a <= x
                < a + n
            &&& forall|x: int| a <= x < a + n ==> !frame_model::is_free(t, x)
            &&& 0 <= a
            &&& a + n <= usize::MAX
        }),
{
    frame_model::lemma_taken_run(s, n);
}

/// Taking pages and giving them back never leaves two free buddies unmerged.
pub proof fn law_stays_tidy(s: Set<Block>, o: int, n: int, p: int)
    requires
        frame_model::frames_ok(s),
        frame_model::tidy(s),
    ensures
        0 <= o && frame_model::can_take(s, o) ==> frame_model::tidy(frame_model::taken(s, o)),
        0 < n && frame_model::can_take(s, frame_model::order_of(n)) ==> frame_model::tidy(
            frame_model::taken_run(s, n),
        ),
        0 <= p < usize::MAX && !frame_model::is_free(s, p) ==> frame_model::tidy(
            frame_model::merged(s, frame_model::page(p)),
        ),
{
    if 0 <= o && frame_model::can_take(s, o) {
        frame_model::lemma_taken(s, o);
    }
    if 0 < n && frame_model::can_take(s, frame_model::order_of(n)) {
        frame_model::lemma_taken_run(s, n);
    }
    if 0 <= p < usize::MAX && !frame_model::is_free(s, p) {
        frame_model::lemma_page_apart(s, p);
        frame_model::lemma_merged(s, frame_model::page(p));
    }
}

/// A fresh arena is free as a whole, and tidy.
pub proof fn law_fresh_arena(base: int, end: int)
    requires
        0 <= base <= end <= usize::MAX,
    ensures
        ({
            let s = frame_model::given(Set::empty(), base, end);
            &&& frame_model::frames_ok(s)
            &&& frame_model::tidy(s)
            &&& forall|x: int| frame_model::is_free(s, x) <==> base <= x < end
        }),
{
    let none = Set::<Block>::empty();
    assert forall|x: int| !frame_model::is_free(none, x) by {}
    frame_model::lemma_given(none, base, end);
    frame_model::lemma_given_tidy(none, base, end);
    let s = frame_model::given(none, base, end);
    assert forall|x: int| frame_model::is_free(s, x) <==> base <= x < end by {
        assert(!frame_model::is_free(none, x));
    }
}

/// The blocks of a tidy arena are determined by its free pages: however the
/// same pages came to be free, they form the same blocks.
pub proof fn law_blocks_determined(s: Set<Block>, t: Set<Block>)
    requires
        frame_model::frames_ok(s),
        frame_model::frames_ok(t),
        frame_model::tidy(s),
        frame_model::tidy(t),
        forall|x: int| frame_model::is_free(s, x) <==> frame_model::is_free(t, x),
    ensures
        s == t,
{
    assert(blocks::orders_below(s, MAX_ORDER + 1)) by {
        assert forall|b: Block| #[trigger] s.contains(b) implies 0 <= b.order < MAX_ORDER + 1 by {
            assert(b.natural());
        }
    }
    assert(blocks::orders_below(t, MAX_ORDER + 1)) by {
        assert forall|b: Block| #[trigger] t.contains(b) implies 0 <= b.order < MAX_ORDER + 1 by {
            assert(b.natural());
        }
    }
    assert forall|x: int| blocks::covers(s, x) <==> blocks::covers(t, x) by {
        assert(frame_model::is_free(s, x) <==> frame_model::is_free(t, x));
    }
    blocks::lemma_coalesced_unique(s, t, MAX_ORDER as int);
}

/// Once every page of a run has been given back, in whatever order, the free
/// blocks are those from before the run was taken.
pub proof fn law_run_given_back(s: Set<Block>, n: int, pages: Seq<usize>)
    requires
        frame_model::frames_ok(s),
        frame_model::tidy(s),
        0 < n,
        frame_model::can_take(s, frame_model::order_of(n)),
        pages.no_duplicates(),
        ({
            let a = frame_model::grant(s, frame_model::order_of(n)).addr;
            forall|x: usize| #[trigger] pages.contains(x) <==> a <= x < a + n
        }),
    ensures
        frame_model::returned(frame_model::taken_run(s, n), pages) == s,
{
    let a = frame_model::grant(s, frame_model::order_of(n)).addr;
    let t = frame_model::taken_run(s, n);
    frame_model::lemma_taken_run(s, n);
    assert forall|i: int| 0 <= i < pages.len() implies (#[trigger] pages[i]) < usize::MAX
        && !frame_model::is_free(t, pages[i] as int) by {
        assert(pages.contains(pages[i]));
    }
    frame_model::lemma_returned(t, pages);
    assert forall|x: int|
        frame_model::is_free(frame_model::returned(t, pages), x) <==> frame_model::is_free(
            s,
            x,
        ) by {
        if a <= x < a + n {
            assert(pages.contains(x as usize));
        }
    }
    law_blocks_determined(frame_model::returned(t, pages), s);
}

/// The entries of a run are in decreasing order, and the last one is its base.
pub proof fn law_run_order(start: int, n: int)
    requires
        0 <= start,
        0 < n,
        start + n <= usize::MAX,
    ensures
        ({
            let v = frame_allocator::run_down(start, n);
            &&& v.len() == n
            &&& v.last().0 == start
            &&& forall|i: int| 0 <= i < n ==> (#[trigger] v[i]).0 == start + n - 1 - i
        }),
{
}

/// A request for a run of a hybrid allocator fails only if no aligned run is
/// free, whether its pages are cached or not.
pub proof fn law_cache_hides_nothing(h: HybridView, n: int)
    requires
        h.inv(),
        frame_model::tidy(h.backing.blocks),
        0 < n,
        frame_model::order_of(n) <= MAX_ORDER,
    ensures
        frame_model::can_take(h.readied(n).backing.blocks, frame_model::order_of(n))
            <==> exists|c: Block|
            c.natural() && c.order == frame_model::order_of(n) && forall|x: int| #[trigger]
                c.has(x) ==> h.is_free(x),
{
    let o = frame_model::order_of(n);
    let s = h.backing.blocks;
    buddy::lemma_least_order(n, 0);
    if frame_model::can_take(s, o) {
        law_block_found(s, o);
        let c = choose|c: Block|
            c.natural() && c.order == o && forall|x: int| #[trigger]
                c.has(x) ==> frame_model::is_free(s, x);
        assert forall|x: int| #[trigger] c.has(x) implies h.is_free(x) by {}
    } else {
        let m = h.cache.len() as int;
        let w = h.drained(m);
        frame_hybrid::lemma_drained(h, m);
        law_block_found(w.backing.blocks, o);
        if frame_model::can_take(w.backing.blocks, o) {
            let c = choose|c: Block|
                c.natural() && c.order == o && forall|x: int| #[trigger]
                    c.has(x) ==> frame_model::is_free(w.backing.blocks, x);
            assert forall|x: int| #[trigger] c.has(x) implies h.is_free(x) by {
                assert(frame_model::is_free(w.backing.blocks, x));
            }
        }
        if exists|c: Block|
            c.natural() && c.order == o && forall|x: int| #[trigger] c.has(x) ==> h.is_free(x) {
            let c = choose|c: Block|
                c.natural() && c.order == o && forall|x: int| #[trigger] c.has(x) ==> h.is_free(x);
            assert forall|x: int| #[trigger] c.has(x) implies frame_model::is_free(
                w.backing.blocks,
                x,
            ) by {
                assert(h.is_free(x));
            }
            assert(has_free_run(w.backing.blocks, o));
        }
    }
}

/// A hybrid allocator never loses a page: what is handed out stops being
/// free, what is given back is free again, and a request for one page fails
/// only if nothing is free.
pub proof fn law_hybrid_pages(h: HybridView, p: usize)
    requires
        h.inv(),
    ensures
        h.next() is None <==> forall|x: int| !h.is_free(x),
        h.next() is Some ==> forall|x: int|
            h.after_alloc().is_free(x) <==> h.is_free(x) && x != h.next().unwrap(),
        p < usize::MAX && !h.is_free(p as int) ==> forall|x: int|
            h.after_dealloc(p).is_free(x) <==> h.is_free(x) || x == p,
{
    frame_hybrid::lemma_after_alloc(h);
    if p < usize::MAX && !h.is_free(p as int) {
        frame_hybrid::lemma_after_dealloc(h, p);
    }
}

/// The cache never stays full: it is smaller than its limit after every
/// request and every free.
pub proof fn law_cache_bounded(h: HybridView, p: usize)
    requires
        h.inv(),
        h.cache.len() < CACHE_HIGH,
    ensures
        h.after_alloc().cache.len() < CACHE_HIGH,
        h.after_dealloc(p).cache.len() < CACHE_HIGH,
{
    let o = h.refill_order();
    frame_hybrid::lemma_ladder(h.backing.blocks, frame_model::order_of(CACHE_REFILL as int));
    powers::lemma_p2_values();
    buddy::lemma_least_order_is(CACHE_REFILL as int, 0, 4);
    if o >= 0 {
        powers::lemma_p2_mono(o, 4);
    }
}

} // verus!
