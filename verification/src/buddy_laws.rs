//! What holds of a buddy heap whatever it is asked to do.

use crate::blocks;
use crate::blocks::Block;
use crate::buddy;
use crate::buddy::{MAX_ORDER, MIN_ORDER};
use crate::buddy_model;
use crate::buddy_model::BuddyView;
use crate::linked_list;
use crate::memory::Memory;
use crate::powers;
use vstd::prelude::*;

verus! {

/// No two free blocks can be merged any further.
pub open spec fn tidy(v: BuddyView) -> bool {
    blocks::coalesced(buddy_model::free_blocks(v.free), MAX_ORDER - 1)
}

/// Byte `x` lies in a free block.
pub open spec fn is_free(v: BuddyView, x: int) -> bool {
    blocks::covers(buddy_model::free_blocks(v.free), x)
}

/// Byte `x` lies in a block that is handed out.
pub open spec fn is_live(v: BuddyView, x: int) -> bool {
    blocks::covers(buddy_model::live_blocks(v.live), x)
}

/// Nothing is handed out.
pub open spec fn idle(v: BuddyView) -> bool {
    forall|b: Block| !#[trigger] buddy_model::live_blocks(v.live).contains(b)
}

proof fn lemma_free_tiling(v: BuddyView, hand: Option<Block>, lo: int, hi: int)
    requires
        v.inv(hand, lo, hi),
    ensures
        blocks::tiling(buddy_model::free_blocks(v.free)),
        blocks::orders_below(buddy_model::free_blocks(v.free), MAX_ORDER as int),
{
    blocks::lemma_tiling_subset(buddy_model::free_blocks(v.free), v.blocks(hand));
    assert forall|b: Block| #[trigger]
        buddy_model::free_blocks(v.free).contains(b) implies 0 <= b.order < MAX_ORDER by {
        assert(v.blocks(hand).contains(b));
    }
}

proof fn lemma_first_nonempty(free: Seq<Seq<usize>>, o: int)
    requires
        0 <= o <= free.len(),
    ensures
        o <= buddy_model::first_nonempty(free, o) <= free.len(),
        buddy_model::first_nonempty(free, o) < free.len() ==> free[buddy_model::first_nonempty(
            free,
            o,
        )].len() > 0,
        forall|k: int|
            o <= k < buddy_model::first_nonempty(free, o) ==> (#[trigger] free[k]).len() == 0,
    decreases free.len() - o,
{
    if o < free.len() && free[o].len() == 0 {
        lemma_first_nonempty(free, o + 1);
    }
}

/// Halving the block in hand down to order `to`.
proof fn lemma_halved(v: BuddyView, c: Block, to: int, lo: int, hi: int)
    requires
        v.inv(Some(c), lo, hi),
        MIN_ORDER <= to <= c.order,
    ensures
        v.with_free(buddy_model::halved(v.free, c.addr, to, c.order)).inv(
            Some((Block { addr: c.addr, order: to })),
            lo,
            hi,
        ),
        buddy_model::free_blocks(buddy_model::halved(v.free, c.addr, to, c.order))
            == buddy_model::free_blocks(v.free).union(
            blocks::upper_halves(c.addr, to, c.order),
        ),
    decreases c.order - to,
{
    let h = buddy_model::halved(v.free, c.addr, to, c.order);
    if to == c.order {
        assert(h =~= v.free);
        assert(v.with_free(h) == v);
        assert(buddy_model::free_blocks(v.free).union(blocks::upper_halves(c.addr, to, c.order))
            =~= buddy_model::free_blocks(v.free));
    } else {
        let k = c.order - 1;
        let up = c.addr + powers::p2(k);
        let half = Block { addr: c.addr, order: k };
        assert(v.blocks(Some(c)).contains(c));
        v.lemma_halve(c, lo, hi);
        let v1 = v.with_free(buddy_model::pushed(v.free, k, up));
        buddy_model::lemma_pushed(v.free, k, up);
        lemma_halved(v1, half, to, lo, hi);
        assert(buddy_model::halved(v1.free, c.addr, to, k) =~= h);
        assert(blocks::upper_halves(c.addr, to, c.order) =~= blocks::upper_halves(
            c.addr,
            to,
            k,
        ).insert((Block { addr: up, order: k })));
        assert(buddy_model::free_blocks(h) =~= buddy_model::free_blocks(v.free).union(
            blocks::upper_halves(c.addr, to, c.order),
        ));
    }
}

/// What handing out a block does to the heap.
pub proof fn lemma_after_alloc(v: BuddyView, o: int, lo: int, hi: int)
    requires
        v.inv(None, lo, hi),
        MIN_ORDER <= o,
        buddy::can_alloc(v, o),
    ensures
        ({
            let c = buddy::alloc_block(v, o);
            let w = buddy::after_alloc(v, o);
            &&& w.inv(None, lo, hi)
            &&& buddy_model::live_blocks(w.live) == buddy_model::live_blocks(v.live).insert(c)
            &&& !buddy_model::live_blocks(v.live).contains(c)
            &&& c.natural()
            &&& forall|x: int| is_free(v, x) <==> is_free(w, x) || c.has(x)
            &&& forall|x: int| c.has(x) ==> !is_free(w, x)
            &&& tidy(v) ==> tidy(w)
        }),
{
    let c = buddy::alloc_block(v, o);
    let w = buddy::after_alloc(v, o);
    let j = buddy_model::first_nonempty(v.free, o);
    lemma_first_nonempty(v.free, o);
    let whole = Block { addr: c.addr, order: j };
    let f0 = buddy_model::free_blocks(v.free);
    v.lemma_take(j, lo, hi);
    let v1 = v.with_free(buddy_model::popped(v.free, j));
    lemma_halved(v1, whole, o, lo, hi);
    let v2 = v1.with_free(buddy_model::halved(v1.free, c.addr, o, j));
    v2.lemma_grant(c, lo, hi);
    assert(w == v2.granted(c));
    assert(v2.blocks(Some(c)).contains(c));
    buddy_model::lemma_block_bounds(v2, Some(c), lo, hi, c);
    blocks::lemma_block_pos(c);
    assert(buddy_model::hand_set(Some(c)).contains(c));
    assert(!buddy_model::live_blocks(v.live).contains(c));
    buddy_model::lemma_live_insert(v.live, o, c.addr);
    lemma_free_tiling(v, None, lo, hi);
    blocks::lemma_tiling_split_down(f0, whole, o);
    let u = blocks::upper_halves(whole.addr, o, whole.order);
    let f2 = buddy_model::free_blocks(w.free);
    assert(f2 == f0.remove(whole).union(u));
    assert forall|x: int| is_free(v, x) <==> is_free(w, x) || c.has(x) by {
        if is_free(v, x) {
            let b = choose|b: Block| #[trigger] f0.contains(b) && b.has(x);
            if b == whole {
                if !c.has(x) {
                    assert(blocks::covers(u, x));
                    let d = choose|d: Block| #[trigger] u.contains(d) && d.has(x);
                    assert(f2.contains(d));
                }
            } else {
                assert(f2.contains(b));
            }
        }
        if is_free(w, x) {
            let b = choose|b: Block| #[trigger] f2.contains(b) && b.has(x);
            if u.contains(b) {
                assert(whole.has(x));
                assert(f0.contains(whole));
            } else {
                assert(f0.contains(b));
            }
        }
        if c.has(x) {
            assert(whole.has(x));
            assert(f0.contains(whole));
        }
    }
    assert forall|x: int| c.has(x) implies !is_free(w, x) by {
        if is_free(w, x) {
            let b = choose|b: Block| #[trigger] f2.contains(b) && b.has(x);
            assert(buddy_model::live_blocks(w.live).contains(c));
            assert(w.blocks(None).contains(b) && w.blocks(None).contains(c));
            blocks::lemma_tiling_unique(w.blocks(None), b, c, x);
            assert(false);
        }
    }
    if tidy(v) {
        blocks::lemma_coalesced_split_down(f0, whole, o, MAX_ORDER - 1);
    }
}

/// Merging the block in hand upwards and putting the result into its list.
proof fn lemma_merged(v: BuddyView, c: Block, lo: int, hi: int)
    requires
        v.inv(Some(c), lo, hi),
    ensures
        ({
            let w = v.with_free(buddy_model::merged(v.free, c.addr, c.order));
            &&& w.inv(None, lo, hi)
            &&& forall|x: int| is_free(w, x) <==> is_free(v, x) || c.has(x)
            &&& tidy(v) ==> tidy(w)
        }),
    decreases MAX_ORDER - c.order,
{
    let f0 = buddy_model::free_blocks(v.free);
    let w = v.with_free(buddy_model::merged(v.free, c.addr, c.order));
    assert(v.blocks(Some(c)).contains(c));
    buddy_model::lemma_block_bounds(v, Some(c), lo, hi, c);
    blocks::lemma_buddy_block(c);
    lemma_free_tiling(v, Some(c), lo, hi);
    let b = c.buddy();
    if c.order + 1 < MAX_ORDER && linked_list::is_node(v.free[c.order], b.addr) {
        let p = c.parent();
        v.lemma_merge(c, lo, hi);
        let v1 = v.with_free(buddy_model::removed(v.free, c.order, b.addr));
        lemma_merged(v1, p, lo, hi);
        let f1 = buddy_model::free_blocks(v1.free);
        assert forall|x: int| is_free(w, x) <==> is_free(v, x) || c.has(x) by {
            if is_free(v, x) {
                let d = choose|d: Block| #[trigger] f0.contains(d) && d.has(x);
                if d != b {
                    assert(f1.contains(d));
                } else {
                    assert(p.has(x));
                }
            }
            if is_free(v1, x) {
                let d = choose|d: Block| #[trigger] f1.contains(d) && d.has(x);
                assert(f0.contains(d));
            }
            if b.has(x) {
                assert(f0.contains(b));
            }
        }
        if tidy(v) {
            assert(tidy(v1));
        }
    } else {
        v.lemma_put(c, lo, hi);
        let f1 = buddy_model::free_blocks(w.free);
        assert(f1 == f0.insert(c));
        assert forall|x: int| is_free(w, x) <==> is_free(v, x) || c.has(x) by {
            if is_free(v, x) {
                let d = choose|d: Block| #[trigger] f0.contains(d) && d.has(x);
                assert(f1.contains(d));
            }
            if c.has(x) {
                assert(f1.contains(c));
            }
        }
        if tidy(v) {
            if c.order < MAX_ORDER - 1 {
                assert(!f0.contains(b));
            }
            blocks::lemma_coalesced_insert(f0, c, MAX_ORDER - 1);
        }
    }
}

/// What taking a block back does to the heap.
pub proof fn lemma_after_dealloc(v: BuddyView, c: Block, lo: int, hi: int)
    requires
        v.inv(None, lo, hi),
        buddy_model::live_blocks(v.live).contains(c),
    ensures
        ({
            let w = buddy::after_dealloc(v, c);
            &&& w.inv(None, lo, hi)
            &&& buddy_model::live_blocks(w.live) == buddy_model::live_blocks(v.live).remove(c)
            &&& forall|x: int| is_free(w, x) <==> is_free(v, x) || c.has(x)
            &&& tidy(v) ==> tidy(w)
        }),
{
    v.lemma_revoke(c.order, c.addr, lo, hi);
    buddy_model::lemma_live_remove(v.live, c.order, c.addr);
    lemma_merged(v.revoked(c), c, lo, hi);
}

proof fn lemma_pushed_all(free: Seq<Seq<usize>>, pieces: Seq<Block>)
    requires
        forall|i: int|
            0 <= i < pieces.len() ==> 0 <= (#[trigger] pieces[i]).order < free.len() && 0
                <= pieces[i].addr <= usize::MAX,
    ensures
        buddy_model::free_blocks(buddy_model::pushed_all(free, pieces))
            == buddy_model::free_blocks(free).union(pieces.to_set()),
    decreases pieces.len(),
{
    let f = buddy_model::free_blocks(free);
    if pieces.len() == 0 {
        assert(f.union(pieces.to_set()) =~= f);
    } else {
        let b = pieces[0];
        let rest = pieces.drop_first();
        let g = buddy_model::pushed(free, b.order, b.addr);
        buddy_model::lemma_pushed(free, b.order, b.addr);
        assert forall|i: int| 0 <= i < rest.len() implies 0 <= (#[trigger] rest[i]).order
            < g.len() && 0 <= rest[i].addr <= usize::MAX by {
            assert(rest[i] == pieces[i + 1]);
        }
        lemma_pushed_all(g, rest);
        assert forall|c: Block| pieces.to_set().contains(c) <==> c == b || rest.to_set().contains(
            c,
        ) by {
            if pieces.contains(c) {
                let i = choose|i: int| 0 <= i < pieces.len() && pieces[i] == c;
                if i > 0 {
                    assert(rest[i - 1] == c);
                }
            }
            if rest.contains(c) {
                let i = choose|i: int| 0 <= i < rest.len() && rest[i] == c;
                assert(pieces[i + 1] == c);
            }
            assert(pieces.contains(b));
        }
        assert(buddy_model::free_blocks(g).union(rest.to_set()) =~= f.union(pieces.to_set()));
    }
}

// ---------------------------------------------------------------------------
// Laws

/// A new region makes free exactly the bytes from its first aligned address to
/// the end of its last block. Two regions are merged only by freeing: the heap
/// stays tidy if the bytes next to the new blocks were not free.
pub proof fn law_add_region(v: BuddyView, start: int, end: int, lo: int, hi: int)
    requires
        v.inv(None, lo, hi),
        lo <= start <= end <= hi,
        forall|x: int| start <= x < end ==> !#[trigger] v.regions.contains(x),
    ensures
        ({
            let w = buddy::after_add(v, start, end);
            let first = buddy::round_up(start);
            let last = buddy::heap_cut().reached(first, end);
            &&& forall|x: int| is_free(w, x) <==> is_free(v, x) || first <= x < last
            &&& tidy(v) && !is_free(v, first - 1) && !is_free(v, last) ==> tidy(w)
            &&& w.total + w.waste == v.total + v.waste + (end - start)
            &&& w.live == v.live
        }),
{
    let w = buddy::after_add(v, start, end);
    let cut = buddy::heap_cut();
    let first = buddy::round_up(start);
    let last = cut.reached(first, end);
    let pieces = cut.pieces(first, end);
    let p = pieces.to_set();
    let f = buddy_model::free_blocks(v.free);
    let g = buddy_model::free_blocks(w.free);
    assert(powers::aligned(first, MIN_ORDER as int)) by {
        reveal(powers::aligned);
        powers::lemma_p2_values();
    }
    blocks::lemma_pieces(cut, first, end, MAX_ORDER - 1);
    assert forall|i: int| 0 <= i < pieces.len() implies 0 <= (#[trigger] pieces[i]).order
        < v.free.len() && 0 <= pieces[i].addr <= usize::MAX by {
        assert(pieces.contains(pieces[i]));
        assert(p.contains(pieces[i]));
        blocks::lemma_block_pos(pieces[i]);
    }
    lemma_pushed_all(v.free, pieces);
    assert(g == f.union(p));
    assert forall|x: int| is_free(w, x) <==> is_free(v, x) || first <= x < last by {
        if is_free(w, x) {
            let b = choose|b: Block| #[trigger] g.contains(b) && b.has(x);
            if p.contains(b) {
                assert(blocks::covers(p, x));
            } else {
                assert(f.contains(b));
            }
        }
        if is_free(v, x) {
            let b = choose|b: Block| #[trigger] f.contains(b) && b.has(x);
            assert(g.contains(b));
        }
        if first <= x < last {
            assert(blocks::covers(p, x));
            let b = choose|b: Block| #[trigger] p.contains(b) && b.has(x);
            assert(g.contains(b));
        }
    }
    if tidy(v) && !is_free(v, first - 1) && !is_free(v, last) {
        lemma_free_tiling(v, None, lo, hi);
        assert forall|b: Block| #[trigger]
            g.contains(b) && b.order < MAX_ORDER - 1 implies !g.contains(b.buddy()) by {
            let c = b.buddy();
            blocks::lemma_buddy_block(b);
            if f.contains(b) && p.contains(c) {
                lemma_regions_apart(v, start, end, b, c, lo, hi);
            } else if p.contains(b) && f.contains(c) {
                lemma_regions_apart(v, start, end, c, b, lo, hi);
            }
        }
    }
}

/// A free block that is the buddy of a piece of a new region touches the
/// region at one of its ends.
proof fn lemma_regions_apart(
    v: BuddyView,
    start: int,
    end: int,
    b: Block,
    c: Block,
    lo: int,
    hi: int,
)
    requires
        v.inv(None, lo, hi),
        lo <= start <= end <= hi,
        forall|x: int| start <= x < end ==> !#[trigger] v.regions.contains(x),
        buddy_model::free_blocks(v.free).contains(b),
        buddy::heap_cut().pieces(buddy::round_up(start), end).to_set().contains(c),
        b == c.buddy(),
    ensures
        is_free(v, buddy::round_up(start) - 1) || is_free(
            v,
            buddy::heap_cut().reached(buddy::round_up(start), end),
        ),
{
    let cut = buddy::heap_cut();
    let first = buddy::round_up(start);
    let last = cut.reached(first, end);
    let p = cut.pieces(first, end).to_set();
    assert(powers::aligned(first, MIN_ORDER as int)) by {
        reveal(powers::aligned);
        powers::lemma_p2_values();
    }
    blocks::lemma_pieces(cut, first, end, MAX_ORDER - 1);
    blocks::lemma_block_pos(b);
    blocks::lemma_block_pos(c);
    assert(v.blocks(None).contains(b));
    powers::lemma_buddy(c.addr, c.order);
    assert(c.has(c.addr) && c.has(c.end() - 1));
    assert(blocks::covers(p, c.addr) && blocks::covers(p, c.end() - 1));
    if b.addr < c.addr {
        let x = b.end() - 1;
        assert(b.has(x));
        assert(v.regions.contains(x));
        assert(x == first - 1);
        assert(is_free(v, x));
    } else {
        let x = b.addr;
        assert(b.has(x));
        assert(v.regions.contains(x));
        assert(x >= end);
        assert(x == last);
        assert(is_free(v, x));
    }
}

/// A granted block holds the bytes that were asked for, starts at a multiple
/// of the alignment, and lies inside the regions that were added.
pub proof fn law_alloc_fits(v: BuddyView, size: int, align: int, k: int, lo: int, hi: int)
    requires
        v.inv(None, lo, hi),
        0 <= k,
        align == powers::p2(k),
        buddy::can_alloc(v, buddy::order_needed(size, align)),
    ensures
        ({
            let c = buddy::alloc_block(v, buddy::order_needed(size, align));
            &&& c.size() >= size
            &&& c.addr % align == 0
            &&& lo <= c.addr
            &&& c.end() <= hi
            &&& forall|x: int| c.has(x) ==> #[trigger] v.regions.contains(x)
        }),
{
    let o = buddy::order_needed(size, align);
    let n = if size >= align {
        size
    } else {
        align
    };
    buddy::lemma_least_order(n, MIN_ORDER as int);
    let c = buddy::alloc_block(v, o);
    let w = buddy::after_alloc(v, o);
    lemma_after_alloc(v, o, lo, hi);
    assert(buddy_model::live_blocks(w.live).contains(c));
    assert(w.blocks(None).contains(c));
    buddy_model::lemma_block_bounds(w, None, lo, hi, c);
    if k > o {
        powers::lemma_p2_mono(o, k);
    }
    powers::lemma_aligned_mono(c.addr, k, o);
    reveal(powers::aligned);
}

/// No two blocks that are handed out share a byte, and none shares a byte
/// with a free block.
pub proof fn law_no_overlap(v: BuddyView, b: Block, c: Block, lo: int, hi: int)
    requires
        v.inv(None, lo, hi),
        buddy_model::live_blocks(v.live).contains(b),
        b != c,
        buddy_model::live_blocks(v.live).contains(c) || buddy_model::free_blocks(v.free).contains(
            c,
        ),
    ensures
        b.disjoint(c),
{
    assert(v.blocks(None).contains(b));
    assert(v.blocks(None).contains(c));
}

/// A block is granted from free memory only: it shares no byte with any block
/// that is handed out already.
pub proof fn law_alloc_fresh(v: BuddyView, o: int, b: Block, lo: int, hi: int)
    requires
        v.inv(None, lo, hi),
        MIN_ORDER <= o,
        buddy::can_alloc(v, o),
        buddy_model::live_blocks(v.live).contains(b),
    ensures
        b.disjoint(buddy::alloc_block(v, o)),
{
    lemma_after_alloc(v, o, lo, hi);
    let w = buddy::after_alloc(v, o);
    let c = buddy::alloc_block(v, o);
    assert(buddy_model::live_blocks(w.live).contains(b));
    assert(buddy_model::live_blocks(w.live).contains(c));
    law_no_overlap(w, b, c, lo, hi);
}

/// Every managed byte is either in use or free, and neither granting nor
/// taking back changes how many there are.
pub proof fn law_bytes_conserved(v: BuddyView, o: int, c: Block, lo: int, hi: int)
    requires
        v.inv(None, lo, hi),
    ensures
        v.total == v.used + buddy_model::weight(buddy_model::free_counts(v.free)),
        0 <= v.used <= v.total,
        buddy::after_alloc(v, o).total == v.total,
        buddy::after_alloc(v, o).used == v.used + powers::p2(o),
        buddy::after_dealloc(v, c).total == v.total,
        buddy::after_dealloc(v, c).used == v.used - c.size(),
{
    v.lemma_counts_fit(None, lo, hi);
}

/// Freeing coalesces fully: a heap in which nothing can be merged stays so.
pub proof fn law_stays_tidy(v: BuddyView, o: int, c: Block, lo: int, hi: int)
    requires
        v.inv(None, lo, hi),
        tidy(v),
    ensures
        MIN_ORDER <= o && buddy::can_alloc(v, o) ==> tidy(buddy::after_alloc(v, o)),
        buddy_model::live_blocks(v.live).contains(c) ==> tidy(buddy::after_dealloc(v, c)),
{
    if MIN_ORDER <= o && buddy::can_alloc(v, o) {
        lemma_after_alloc(v, o, lo, hi);
    }
    if buddy_model::live_blocks(v.live).contains(c) {
        lemma_after_dealloc(v, c, lo, hi);
    }
}

/// In a tidy heap a request is refused only if no aligned run of free bytes
/// of its size is left.
pub proof fn law_alloc_succeeds(v: BuddyView, o: int, lo: int, hi: int)
    requires
        v.inv(None, lo, hi),
        tidy(v),
        MIN_ORDER <= o < MAX_ORDER,
    ensures
        buddy::can_alloc(v, o) <==> exists|c: Block|
            c.natural() && c.order == o && forall|x: int| c.has(x) ==> #[trigger] is_free(v, x),
{
    lemma_first_nonempty(v.free, o);
    let f = buddy_model::free_blocks(v.free);
    if buddy::can_alloc(v, o) {
        lemma_after_alloc(v, o, lo, hi);
        let c = buddy::alloc_block(v, o);
        assert(c.natural() && c.order == o && forall|x: int|
            c.has(x) ==> #[trigger] is_free(v, x));
    }
    if exists|c: Block|
        c.natural() && c.order == o && forall|x: int| c.has(x) ==> #[trigger] is_free(v, x) {
        let c = choose|c: Block|
            c.natural() && c.order == o && forall|x: int| c.has(x) ==> #[trigger] is_free(v, x);
        lemma_free_tiling(v, None, lo, hi);
        assert forall|x: int| c.has(x) implies #[trigger] blocks::covers(f, x) by {
            assert(is_free(v, x));
        }
        let b = blocks::lemma_enclosing_block(f, c, MAX_ORDER - 1);
        assert(f.contains(b));
        assert(v.free[b.order].len() > 0);
    }
}

/// What was granted and is given back leaves no trace: the free blocks are
/// those of before.
pub proof fn law_round_trip(v: BuddyView, o: int, lo: int, hi: int)
    requires
        v.inv(None, lo, hi),
        tidy(v),
        MIN_ORDER <= o,
        buddy::can_alloc(v, o),
    ensures
        ({
            let c = buddy::alloc_block(v, o);
            let w = buddy::after_dealloc(buddy::after_alloc(v, o), c);
            &&& buddy_model::free_blocks(w.free) == buddy_model::free_blocks(v.free)
            &&& buddy_model::live_blocks(w.live) == buddy_model::live_blocks(v.live)
            &&& w.used == v.used
            &&& w.total == v.total
        }),
{
    let c = buddy::alloc_block(v, o);
    let w1 = buddy::after_alloc(v, o);
    let w = buddy::after_dealloc(w1, c);
    lemma_after_alloc(v, o, lo, hi);
    assert(buddy_model::live_blocks(w1.live).contains(c));
    lemma_after_dealloc(w1, c, lo, hi);
    assert(buddy_model::live_blocks(w.live) =~= buddy_model::live_blocks(v.live));
    lemma_free_tiling(v, None, lo, hi);
    lemma_free_tiling(w, None, lo, hi);
    let f = buddy_model::free_blocks(v.free);
    let g = buddy_model::free_blocks(w.free);
    assert forall|x: int| blocks::covers(f, x) <==> blocks::covers(g, x) by {
        assert(is_free(v, x) <==> is_free(w1, x) || c.has(x));
        assert(is_free(w, x) <==> is_free(w1, x) || c.has(x));
    }
    blocks::lemma_coalesced_unique(f, g, MAX_ORDER - 1);
}

/// Once everything is given back, in whatever order, the free blocks are the
/// same again: they depend on the managed bytes alone.
pub proof fn law_idle_heap_unique(v: BuddyView, w: BuddyView, lo: int, hi: int)
    requires
        v.inv(None, lo, hi),
        w.inv(None, lo, hi),
        tidy(v),
        tidy(w),
        idle(v),
        idle(w),
        forall|x: int| is_free(v, x) || is_live(v, x) <==> is_free(w, x) || is_live(w, x),
    ensures
        buddy_model::free_blocks(v.free) == buddy_model::free_blocks(w.free),
{
    lemma_free_tiling(v, None, lo, hi);
    lemma_free_tiling(w, None, lo, hi);
    let f = buddy_model::free_blocks(v.free);
    let g = buddy_model::free_blocks(w.free);
    assert forall|x: int| blocks::covers(f, x) <==> blocks::covers(g, x) by {
        assert(!is_live(v, x));
        assert(!is_live(w, x));
        assert(is_free(v, x) <==> is_free(w, x));
    }
    blocks::lemma_coalesced_unique(f, g, MAX_ORDER - 1);
}

/// Granting and taking back move bytes between free and in use; they never
/// gain or lose one.
pub proof fn law_managed_bytes(v: BuddyView, o: int, c: Block, x: int, lo: int, hi: int)
    requires
        v.inv(None, lo, hi),
    ensures
        MIN_ORDER <= o && buddy::can_alloc(v, o) ==> ({
            let w = buddy::after_alloc(v, o);
            (is_free(w, x) || is_live(w, x)) == (is_free(v, x) || is_live(v, x))
        }),
        buddy_model::live_blocks(v.live).contains(c) ==> ({
            let w = buddy::after_dealloc(v, c);
            (is_free(w, x) || is_live(w, x)) == (is_free(v, x) || is_live(v, x))
        }),
{
    let l = buddy_model::live_blocks(v.live);
    if MIN_ORDER <= o && buddy::can_alloc(v, o) {
        lemma_after_alloc(v, o, lo, hi);
        let w = buddy::after_alloc(v, o);
        let d = buddy::alloc_block(v, o);
        let m = buddy_model::live_blocks(w.live);
        assert(is_free(v, x) <==> is_free(w, x) || d.has(x));
        if is_live(v, x) {
            let b = choose|b: Block| #[trigger] l.contains(b) && b.has(x);
            assert(m.contains(b));
        }
        if is_live(w, x) {
            let b = choose|b: Block| #[trigger] m.contains(b) && b.has(x);
            if b != d {
                assert(l.contains(b));
            }
        }
        if d.has(x) {
            assert(m.contains(d));
        }
    }
    if l.contains(c) {
        lemma_after_dealloc(v, c, lo, hi);
        let w = buddy::after_dealloc(v, c);
        let m = buddy_model::live_blocks(w.live);
        assert(is_free(w, x) <==> is_free(v, x) || c.has(x));
        if is_live(v, x) {
            let b = choose|b: Block| #[trigger] l.contains(b) && b.has(x);
            if b != c {
                assert(m.contains(b));
            }
        }
        if is_live(w, x) {
            let b = choose|b: Block| #[trigger] m.contains(b) && b.has(x);
            assert(l.contains(b));
        }
    }
}

/// Once everything has been given back, no byte counts as used.
pub proof fn law_idle_unused(v: BuddyView, lo: int, hi: int)
    requires
        v.inv(None, lo, hi),
        idle(v),
    ensures
        v.used == 0,
        v.total == buddy_model::weight(buddy_model::free_counts(v.free)),
{
    let counts = buddy_model::live_counts(v.live);
    assert forall|o: int| 0 <= o < counts.len() implies counts[o] == 0 by {
        assert forall|x: usize| !v.live[o].contains(x) by {
            let b = Block { addr: x as int, order: o };
            assert(!buddy_model::live_blocks(v.live).contains(b));
        }
        assert(v.live[o] =~= Set::empty());
    }
    buddy_model::lemma_weight_zero(counts);
}

/// A free block belongs to its list until it is granted, and a granted block
/// belongs to whoever asked for it: writes outside the free blocks leave the
/// free lists intact.
pub proof fn law_client_writes(v: BuddyView, before: &Memory, after: &Memory)
    requires
        v.inv(None, before.lo(), before.hi()),
        buddy::all_threaded(v.free, before),
        after.wf(),
        after.same_outside(before, |a: int| !is_free(v, a)),
    ensures
        buddy::all_threaded(v.free, after),
{
    assert forall|o: int| 0 <= o < v.free.len() implies linked_list::threaded(
        #[trigger] v.free[o],
        after,
    ) by {
        let l = v.free[o];
        assert forall|i: int| 0 <= i < l.len() implies after.word(#[trigger] l[i] as int)
            == before.word(l[i] as int) by {
            let b = Block { addr: l[i] as int, order: o };
            assert(before.mapped(l[i] as int));
            assert(l.contains(l[i]));
            blocks::lemma_block_pos(b);
            assert(buddy_model::free_blocks(v.free).contains(b));
            assert(b.has(l[i] as int));
            assert(is_free(v, l[i] as int));
        }
        linked_list::lemma_threaded_frame(l, before, after);
    }
}

/// A request takes the smallest block that can serve it: its size is a power of
/// two of at least 64 that is no less than the size and the alignment, and
/// above 64 half of it would be too small.
pub proof fn law_least_block(size: int, align: int)
    requires
        0 <= size,
        0 <= align,
    ensures
        ({
            let o = buddy::order_needed(size, align);
            &&& 6 <= o
            &&& size <= powers::p2(o)
            &&& align <= powers::p2(o)
            &&& 64 <= powers::p2(o)
            &&& o == 6 || powers::p2(o - 1) < size || powers::p2(o - 1) < align
            &&& powers::p2(o) == 64 || powers::p2(o) < 2 * size || powers::p2(o) < 2 * align
        }),
{
    let n = if size >= align {
        size
    } else {
        align
    };
    let o = buddy::order_needed(size, align);
    buddy::lemma_least_order(n, MIN_ORDER as int);
    powers::lemma_p2_values();
    powers::lemma_p2_mono(6, o);
    if o > 6 {
        powers::lemma_p2_step(o - 1);
    }
}

/// A request for a block of order `o` is refused exactly if all lists from `o`
/// on are empty. Else it takes the front block of the first list that is not,
/// list `j`, and hands out its lower end; the upper half of each split goes to
/// the list of its order, and nothing else changes.
pub proof fn law_grant(v: BuddyView, o: int, j: int, lo: int, hi: int)
    requires
        v.inv(None, lo, hi),
        6 <= o <= j < 32,
        forall|k: int| o <= k < j ==> (#[trigger] v.free[k]).len() == 0,
        v.free[j].len() > 0,
    ensures
        buddy::can_alloc(v, o),
        ({
            let c = buddy::alloc_block(v, o);
            let w = buddy::after_alloc(v, o);
            &&& c.addr == v.free[j][0]
            &&& c.order == o
            &&& w.free.len() == 32
            &&& w.free[j] == v.free[j].drop_first()
            &&& forall|k: int|
                o <= k < j ==> (#[trigger] w.free[k]) == seq![(c.addr + powers::p2(k)) as usize]
            &&& forall|k: int| 0 <= k < o || j < k < 32 ==> (#[trigger] w.free[k]) == v.free[k]
            &&& w.live[o] == v.live[o].insert(v.free[j][0])
            &&& forall|k: int| 0 <= k < 32 && k != o ==> (#[trigger] w.live[k]) == v.live[k]
            &&& w.used == v.used + powers::p2(o)
            &&& w.total == v.total
            &&& w.waste == v.waste
            &&& w.regions == v.regions
        }),
{
    lemma_first_nonempty(v.free, o);
    let f = buddy_model::first_nonempty(v.free, o);
    assert(f == j) by {
        if f < j {
            assert(v.free[f].len() == 0);
        } else if j < f {
            assert(v.free[j].len() == 0);
        }
    }
    let w = buddy::after_alloc(v, o);
    assert forall|k: int| o <= k < j implies (#[trigger] w.free[k]) == seq![
        (v.free[j][0] + powers::p2(k)) as usize,
    ] by {
        assert(v.free[k].len() == 0);
        assert(v.free[k] =~= Seq::empty());
        assert(w.free[k] =~= seq![(v.free[j][0] + powers::p2(k)) as usize]);
    }
    assert(w.free[j] == v.free[j].drop_first());
}

/// What is refused: every list that could serve the request is empty, or it is
/// for 4 GiB or more.
pub proof fn law_refusal(v: BuddyView, o: int)
    requires
        v.free.len() == 32,
        6 <= o,
    ensures
        !buddy::can_alloc(v, o) <==> 32 <= o || forall|k: int|
            o <= k < 32 ==> (#[trigger] v.free[k]).len() == 0,
{
    if o < 32 {
        lemma_first_nonempty(v.free, o);
        let f = buddy_model::first_nonempty(v.free, o);
        if f < 32 {
            assert(v.free[f].len() > 0);
        }
    }
}

/// A block that is given back while its buddy is not free, or that is of the
/// last order, goes to the front of its list, and nothing else is freed. The
/// buddy is the other half of the aligned block of twice the size.
pub proof fn law_given_back_alone(v: BuddyView, c: Block, buddy: int)
    requires
        v.free.len() == 32,
        v.live.len() == 32,
        0 <= c.order < 32,
        buddy == if c.addr % powers::p2(c.order + 1) == 0 {
            c.addr + powers::p2(c.order)
        } else {
            c.addr - powers::p2(c.order)
        },
        c.order == 31 || forall|i: int|
            0 <= i < v.free[c.order].len() ==> (#[trigger] v.free[c.order][i]) != buddy,
    ensures
        ({
            let w = buddy::after_dealloc(v, c);
            &&& w.free == v.free.update(c.order, seq![c.addr as usize] + v.free[c.order])
            &&& w.live == v.live.update(c.order, v.live[c.order].remove(c.addr as usize))
            &&& w.used == v.used - powers::p2(c.order)
            &&& w.total == v.total
            &&& w.waste == v.waste
            &&& w.regions == v.regions
        }),
{
    reveal(powers::aligned);
    let l = v.free[c.order];
    if c.order < 31 && linked_list::is_node(l, buddy) {
        let i = choose|i: int| 0 <= i < l.len() && l[i] == buddy as usize;
        assert(l[i] != buddy);
    }
}

/// A block that is given back while its buddy is free is merged with it: the
/// free lists are as if the buddy, entry `i` of its list, had not been free
/// and the block of twice the size had been given back.
pub proof fn law_given_back_merges(v: BuddyView, c: Block, i: int)
    requires
        v.free.len() == 32,
        0 <= c.order < 31,
        v.free[c.order].no_duplicates(),
        0 <= i < v.free[c.order].len(),
        v.free[c.order][i] == if c.addr % powers::p2(c.order + 1) == 0 {
            c.addr + powers::p2(c.order)
        } else {
            c.addr - powers::p2(c.order)
        },
    ensures
        ({
            let rest = v.with_free(v.free.update(c.order, v.free[c.order].remove(i)));
            let whole = Block {
                addr: if c.addr % powers::p2(c.order + 1) == 0 {
                    c.addr
                } else {
                    c.addr - powers::p2(c.order)
                },
                order: c.order + 1,
            };
            &&& buddy::after_dealloc(v, c).free == buddy::after_dealloc(rest, whole).free
            &&& buddy::after_dealloc(v, c).live == v.live.update(
                c.order,
                v.live[c.order].remove(c.addr as usize),
            )
            &&& buddy::after_dealloc(v, c).used == v.used - powers::p2(c.order)
            &&& buddy::after_dealloc(v, c).total == v.total
        }),
{
    reveal(powers::aligned);
    let l = v.free[c.order];
    let b = l[i];
    assert(l.contains(b));
    linked_list::law_without(l, i);
    let rest = v.with_free(v.free.update(c.order, l.remove(i)));
    assert(buddy_model::removed(v.free, c.order, b as int) == rest.free);
}

/// A region that starts between two multiples of 64 is cut from the upper one
/// on; the bytes before it are wasted. Less than 64 bytes are wasted whole.
pub proof fn law_region_start(v: BuddyView, start: int, end: int, first: int)
    requires
        start <= first < start + 64,
        first % 64 == 0,
    ensures
        first <= end ==> buddy::after_add(v, start, end).free == buddy::after_add(
            v,
            first,
            end,
        ).free,
        first <= end ==> buddy::after_add(v, start, end).total == buddy::after_add(
            v,
            first,
            end,
        ).total,
        first <= end ==> buddy::after_add(v, start, end).waste == buddy::after_add(
            v,
            first,
            end,
        ).waste + (first - start),
        end - first < 64 ==> buddy::after_add(v, start, end).free == v.free,
        end - first < 64 ==> buddy::after_add(v, start, end).total == v.total,
        end - first < 64 ==> buddy::after_add(v, start, end).waste == v.waste + (end - start),
        buddy::after_add(v, start, end).live == v.live,
        buddy::after_add(v, start, end).used == v.used,
        forall|x: int| #[trigger]
            buddy::after_add(v, start, end).regions.contains(x) <==> v.regions.contains(x) || start
                <= x < end,
{
    powers::lemma_p2_values();
    assert(buddy::round_up(start) == first);
    assert(buddy::round_up(first) == first);
}

/// From a multiple of 64 on, the first block of a region is the largest whose
/// size divides its address and fits; the rest is a region of its own. It is
/// put in front of its list.
pub proof fn law_region_cut(v: BuddyView, start: int, end: int, k: int)
    requires
        v.free.len() == 32,
        0 <= start,
        start % 64 == 0,
        6 <= k < 32,
        start % powers::p2(k) == 0,
        start + powers::p2(k) <= end,
        start % powers::p2(k + 1) != 0 || end < start + powers::p2(k + 1),
    ensures
        ({
            let next = start + powers::p2(k);
            let w = v.with_free(v.free.update(k, seq![start as usize] + v.free[k]));
            &&& buddy::after_add(v, start, end).free == buddy::after_add(w, next, end).free
            &&& buddy::after_add(v, start, end).total == buddy::after_add(w, next, end).total
                + powers::p2(k)
            &&& buddy::after_add(v, start, end).waste == buddy::after_add(w, next, end).waste
        }),
{
    let cut = buddy::heap_cut();
    let room = end - start;
    powers::lemma_p2_values();
    powers::lemma_p2_mono(6, k);
    powers::lemma_p2_pos(k);
    reveal(powers::aligned);
    blocks::lemma_largest_fit(start, room, MAX_ORDER as int);
    let l = blocks::largest_fit(start, room, MAX_ORDER as int);
    assert(blocks::fits(start, room, k));
    if l < k {
        assert(!blocks::fits(start, room, k));
    } else if l > k {
        powers::lemma_aligned_mono(start, k + 1, l);
        powers::lemma_p2_mono(k + 1, l);
    }
    assert(l == k);
    let b = cut.first(start, end);
    assert(!cut.done(start, end));
    let all = cut.pieces(start, end);
    let next = b.end();
    assert(buddy::round_up(start) == start);
    assert(next % 64 == 0) by {
        powers::lemma_p2_aligned(6, k);
        powers::lemma_aligned_add(start, powers::p2(k), 6);
    }
    assert(buddy::round_up(next) == next);
    assert(all == seq![b] + cut.pieces(next, end));
    assert(all.drop_first() =~= cut.pieces(next, end));
    assert(all[0] == b);
}

/// As long as a region is below 4 GiB, the only bytes of it that are wasted are
/// those before its first and after its last multiple of 64.
pub proof fn law_region_used(v: BuddyView, start: int, end: int, first: int, x: int, lo: int, hi: int)
    requires
        v.inv(None, lo, hi),
        lo <= start <= end <= hi,
        end - start < 0x1_0000_0000,
        forall|y: int| start <= y < end ==> !#[trigger] v.regions.contains(y),
        start <= first < start + 64,
        first % 64 == 0,
        first <= x,
        x < end - end % 64,
    ensures
        is_free(buddy::after_add(v, start, end), x),
        buddy::after_add(v, start, end).total == v.total + (end - end % 64 - first),
{
    let cut = buddy::heap_cut();
    powers::lemma_p2_values();
    assert(buddy::round_up(start) == first);
    law_add_region(v, start, end, lo, hi);
    let last = cut.reached(first, end);
    assert(powers::aligned(first, MIN_ORDER as int)) by {
        reveal(powers::aligned);
    }
    blocks::lemma_pieces(cut, first, end, MAX_ORDER - 1);
    lemma_reached_aligned(first, end);
    if end - last >= 64 {
        let room = end - last;
        blocks::lemma_largest_fit(last, room, MAX_ORDER as int);
        assert(!blocks::fits(last, room, MAX_ORDER as int));
        assert(false);
    }
    assert(last == end - end % 64);
}

proof fn lemma_reached_aligned(addr: int, end: int)
    requires
        addr % 64 == 0,
    ensures
        buddy::heap_cut().reached(addr, end) % 64 == 0,
    decreases end - addr,
{
    let cut = buddy::heap_cut();
    powers::lemma_p2_values();
    if !cut.done(addr, end) {
        let b = cut.first(addr, end);
        let room = end - addr;
        blocks::lemma_largest_fit(addr, room, MAX_ORDER as int);
        reveal(powers::aligned);
        assert(blocks::fits(addr, room, 6));
        if b.order < 6 {
            assert(!blocks::fits(addr, room, 6));
        }
        powers::lemma_p2_aligned(6, b.order);
        powers::lemma_aligned_add(addr, powers::p2(b.order), 6);
        powers::lemma_p2_pos(b.order);
        lemma_reached_aligned(b.end(), end);
    }
}

/// A heap without memory has nothing free and nothing in use.
pub proof fn law_empty()
    ensures
        ({
            let v = BuddyView::empty();
            &&& v.free.len() == 32
            &&& v.live.len() == 32
            &&& forall|o: int| 0 <= o < 32 ==> (#[trigger] v.free[o]).len() == 0
            &&& forall|o: int, x: usize| 0 <= o < 32 ==> !(#[trigger] v.live[o].contains(x))
            &&& v.total == 0
            &&& v.used == 0
            &&& v.waste == 0
            &&& forall|x: int| !v.regions.contains(x)
        }),
{
}

/// A byte is free if it lies in a block that a free list names, and live if it
/// lies in a block that is handed out: entry `a` of order `o`.
pub proof fn law_free_and_live(v: BuddyView, o: int, a: usize, x: int)
    requires
        v.free.len() == 32,
        v.live.len() == 32,
        0 <= o < 32,
        a <= x < a + powers::p2(o),
    ensures
        v.free[o].contains(a) ==> is_free(v, x),
        v.live[o].contains(a) ==> is_live(v, x),
        (forall|i: int| 0 <= i < 32 ==> (#[trigger] v.free[i]).len() == 0) ==> !is_free(v, x),
{
    let b = Block { addr: a as int, order: o };
    assert(b.has(x));
    if v.free[o].contains(a) {
        assert(buddy_model::free_blocks(v.free).contains(b));
    }
    if v.live[o].contains(a) {
        assert(buddy_model::live_blocks(v.live).contains(b));
    }
    if is_free(v, x) {
        let c = choose|c: Block| #[trigger]
            buddy_model::free_blocks(v.free).contains(c) && c.has(x);
        assert(v.free[c.order].len() > 0);
    }
}

} // verus!
