//! Free page frames as a set of power-of-two blocks of page numbers.

use crate::blocks;
use crate::blocks::{Block, Cut};
use crate::buddy;
use crate::powers;
use vstd::prelude::*;

verus! {

/// Largest block order: `2^32` pages are enough for any practical memory.
pub const MAX_ORDER: usize = 32;

/// The blocks are naturally aligned, apart from each other, and below the end
/// of the page numbers.
pub open spec fn frames_ok(s: Set<Block>) -> bool {
    &&& blocks::tiling(s)
    &&& forall|b: Block| #[trigger] s.contains(b) ==> b.order <= MAX_ORDER && b.end() <= usize::MAX
}

/// No two blocks that could be merged are left apart.
pub open spec fn tidy(s: Set<Block>) -> bool {
    blocks::coalesced(s, MAX_ORDER as int)
}

/// Page `p` lies in a free block.
pub open spec fn is_free(s: Set<Block>, p: int) -> bool {
    blocks::covers(s, p)
}

/// Some free block has order `o` or more.
pub open spec fn can_take(s: Set<Block>, o: int) -> bool {
    exists|b: Block| #[trigger] s.contains(b) && b.order >= o
}

/// `b` is the lowest of the smallest blocks of order `o` or more.
pub open spec fn is_pick(s: Set<Block>, o: int, b: Block) -> bool {
    &&& s.contains(b)
    &&& b.order >= o
    &&& forall|c: Block| #[trigger]
        s.contains(c) && c.order >= o ==> b.order < c.order || (b.order == c.order && b.addr
            <= c.addr)
}

/// The block that is split for a request of order `o`.
pub open spec fn pick(s: Set<Block>, o: int) -> Block {
    choose|b: Block| is_pick(s, o, b)
}

/// What is handed out for a request of order `o`: the low end of the pick.
pub open spec fn grant(s: Set<Block>, o: int) -> Block {
    Block { addr: pick(s, o).addr, order: o }
}

/// The free blocks after a request of order `o`.
pub open spec fn taken(s: Set<Block>, o: int) -> Set<Block> {
    let b = pick(s, o);
    s.remove(b).union(blocks::upper_halves(b.addr, o, b.order))
}

/// The free blocks after `c` has been given back and merged with its buddy as
/// long as that is free.
pub open spec fn merged(s: Set<Block>, c: Block) -> Set<Block>
    decreases MAX_ORDER - c.order,
{
    if c.order < MAX_ORDER && s.contains(c.buddy()) {
        merged(s.remove(c.buddy()), c.parent())
    } else {
        s.insert(c)
    }
}

pub open spec fn page(p: int) -> Block {
    Block { addr: p, order: 0 }
}

/// The free blocks after these pages have been given back one by one.
pub open spec fn returned(s: Set<Block>, pages: Seq<usize>) -> Set<Block>
    decreases pages.len(),
{
    if pages.len() == 0 {
        s
    } else {
        returned(merged(s, page(pages[0] as int)), pages.drop_first())
    }
}

/// How a run of pages is cut into blocks.
pub open spec fn frame_cut() -> Cut {
    Cut { min: 0, cap: MAX_ORDER as int, stop: MAX_ORDER + 1 }
}

/// The free blocks after the run `[start, end)` has been added.
pub open spec fn given(s: Set<Block>, start: int, end: int) -> Set<Block> {
    s.union(frame_cut().pieces(start, end).to_set())
}

/// The order of the smallest block that holds `n` pages.
pub open spec fn order_of(n: int) -> int {
    buddy::least_order(n, 0)
}

/// The free blocks after `n` contiguous pages have been taken from the low
/// end of a block and the rest of it has been put back.
pub open spec fn taken_run(s: Set<Block>, n: int) -> Set<Block> {
    let c = grant(s, order_of(n));
    given(taken(s, order_of(n)), c.addr + n, c.end())
}

pub proof fn lemma_pick_unique(s: Set<Block>, o: int, b: Block)
    requires
        is_pick(s, o, b),
    ensures
        pick(s, o) == b,
{
    let c = pick(s, o);
    assert(is_pick(s, o, c));
}

/// If any block is large enough, one is picked.
pub proof fn lemma_pick(s: Set<Block>, o: int)
    requires
        frames_ok(s),
        can_take(s, o),
    ensures
        is_pick(s, o, pick(s, o)),
{
    let b = choose|b: Block| #[trigger] s.contains(b) && b.order >= o;
    let c = lemma_descend(s, o, b);
    lemma_pick_unique(s, o, c);
}

proof fn lemma_descend(s: Set<Block>, o: int, b: Block) -> (r: Block)
    requires
        frames_ok(s),
        s.contains(b),
        b.order >= o,
    ensures
        is_pick(s, o, r),
    decreases b.order, b.addr,
{
    if is_pick(s, o, b) {
        b
    } else {
        let c = choose|c: Block| #[trigger]
            s.contains(c) && c.order >= o && !(b.order < c.order || (b.order == c.order && b.addr
                <= c.addr));
        lemma_descend(s, o, c)
    }
}

/// What taking a block of order `o` does to the free blocks.
pub proof fn lemma_taken(s: Set<Block>, o: int)
    requires
        frames_ok(s),
        0 <= o,
        can_take(s, o),
    ensures
        ({
            let c = grant(s, o);
            let t = taken(s, o);
            &&& frames_ok(t)
            &&& c.natural()
            &&& o <= MAX_ORDER
            &&& c.end() <= usize::MAX
            &&& forall|b: Block| #[trigger] t.contains(b) ==> b.disjoint(c)
            &&& forall|x: int| is_free(s, x) <==> is_free(t, x) || c.has(x)
            &&& forall|x: int| c.has(x) ==> !is_free(t, x)
            &&& tidy(s) ==> tidy(t)
        }),
{
    let b = pick(s, o);
    let c = grant(s, o);
    let t = taken(s, o);
    let h = blocks::upper_halves(b.addr, o, b.order);
    lemma_pick(s, o);
    blocks::lemma_tiling_split_down(s, b, o);
    assert forall|d: Block| #[trigger] t.contains(d) implies d.disjoint(c) && d.order <= MAX_ORDER
        && d.end() <= usize::MAX by {
        if h.contains(d) {
            assert(b.encloses(d));
        } else {
            assert(s.contains(d) && d != b);
            assert(d.disjoint(b));
            assert(b.encloses(c));
        }
    }
    blocks::lemma_tiling_subset(t, s.remove(b).union(h).insert(c));
    assert forall|x: int| is_free(s, x) <==> is_free(t, x) || c.has(x) by {
        if is_free(s, x) {
            let d = choose|d: Block| #[trigger] s.contains(d) && d.has(x);
            if d == b {
                if !c.has(x) {
                    let e = choose|e: Block| #[trigger] h.contains(e) && e.has(x);
                    assert(t.contains(e));
                }
            } else {
                assert(t.contains(d));
            }
        }
        if is_free(t, x) {
            let d = choose|d: Block| #[trigger] t.contains(d) && d.has(x);
            if h.contains(d) {
                assert(b.encloses(d));
                assert(s.contains(b) && b.has(x));
            } else {
                assert(s.contains(d));
            }
        }
        if c.has(x) {
            assert(b.encloses(c));
            assert(s.contains(b) && b.has(x));
        }
    }
    assert forall|x: int| c.has(x) implies !is_free(t, x) by {
        if is_free(t, x) {
            let d = choose|d: Block| #[trigger] t.contains(d) && d.has(x);
            assert(d.disjoint(c));
        }
    }
    if tidy(s) {
        blocks::lemma_coalesced_split_down(s, b, o, MAX_ORDER as int);
    }
}

/// What giving `c` back does to the free blocks.
pub proof fn lemma_merged(s: Set<Block>, c: Block)
    requires
        frames_ok(s),
        c.natural(),
        c.order <= MAX_ORDER,
        c.end() <= usize::MAX,
        forall|b: Block| #[trigger] s.contains(b) ==> b.disjoint(c),
    ensures
        frames_ok(merged(s, c)),
        forall|x: int| is_free(merged(s, c), x) <==> is_free(s, x) || c.has(x),
        tidy(s) ==> tidy(merged(s, c)),
    decreases MAX_ORDER - c.order,
{
    let m = merged(s, c);
    let b = c.buddy();
    blocks::lemma_buddy_block(c);
    if c.order < MAX_ORDER && s.contains(b) {
        let t = s.remove(b);
        let p = c.parent();
        blocks::lemma_tiling_subset(t, s);
        blocks::lemma_tiling_insert(s, c);
        assert(s.insert(c).contains(c) && s.insert(c).contains(b));
        blocks::lemma_tiling_merge(s.insert(c), c);
        assert forall|d: Block| #[trigger] t.contains(d) implies d.disjoint(p) by {
            blocks::lemma_block_pos(c);
            assert(d != c) by {
                if d == c {
                    assert(s.contains(c));
                    assert(c.disjoint(c));
                }
            }
            assert(s.insert(c).contains(d));
        }
        lemma_parent_end(c);
        lemma_merged(t, p);
        assert forall|x: int| is_free(m, x) <==> is_free(s, x) || c.has(x) by {
            if is_free(s, x) {
                let d = choose|d: Block| #[trigger] s.contains(d) && d.has(x);
                if d != b {
                    assert(t.contains(d));
                } else {
                    assert(p.has(x));
                }
            }
            if is_free(t, x) {
                let d = choose|d: Block| #[trigger] t.contains(d) && d.has(x);
                assert(s.contains(d));
            }
            if b.has(x) {
                assert(s.contains(b));
            }
        }
    } else {
        blocks::lemma_tiling_insert(s, c);
        assert forall|x: int| is_free(m, x) <==> is_free(s, x) || c.has(x) by {
            if is_free(s, x) {
                let d = choose|d: Block| #[trigger] s.contains(d) && d.has(x);
                assert(m.contains(d));
            }
            if is_free(m, x) && !c.has(x) {
                let d = choose|d: Block| #[trigger] m.contains(d) && d.has(x);
                assert(s.contains(d));
            }
            if c.has(x) {
                assert(m.contains(c));
            }
        }
        if tidy(s) {
            blocks::lemma_coalesced_insert(s, c, MAX_ORDER as int);
        }
    }
}

/// A block and its buddy end where their parent ends.
proof fn lemma_parent_end(c: Block)
    requires
        c.natural(),
    ensures
        c.parent().end() == if c.end() >= c.buddy().end() {
            c.end()
        } else {
            c.buddy().end()
        },
{
    powers::lemma_buddy(c.addr, c.order);
}

/// A page that is not free is apart from every free block.
pub proof fn lemma_page_apart(s: Set<Block>, p: int)
    requires
        !is_free(s, p),
        0 <= p,
    ensures
        forall|b: Block| #[trigger] s.contains(b) ==> b.disjoint(page(p)),
        page(p).natural(),
        page(p).end() == p + 1,
        forall|x: int| page(p).has(x) <==> x == p,
{
    powers::lemma_p2_values();
    powers::lemma_aligned_zero(p);
    assert forall|b: Block| #[trigger] s.contains(b) implies b.disjoint(page(p)) by {
        assert(!b.has(p));
    }
}

/// What giving pages back one by one does to the free blocks.
pub proof fn lemma_returned(s: Set<Block>, pages: Seq<usize>)
    requires
        frames_ok(s),
        pages.no_duplicates(),
        forall|i: int|
            0 <= i < pages.len() ==> (#[trigger] pages[i]) < usize::MAX && !is_free(
                s,
                pages[i] as int,
            ),
    ensures
        frames_ok(returned(s, pages)),
        forall|x: int|
            is_free(returned(s, pages), x) <==> is_free(s, x) || (0 <= x <= usize::MAX
                && pages.contains(x as usize)),
        tidy(s) ==> tidy(returned(s, pages)),
    decreases pages.len(),
{
    if pages.len() > 0 {
        let p = pages[0];
        let rest = pages.drop_first();
        lemma_page_apart(s, p as int);
        lemma_merged(s, page(p as int));
        let t = merged(s, page(p as int));
        assert forall|i: int| 0 <= i < rest.len() implies (#[trigger] rest[i]) < usize::MAX
            && !is_free(t, rest[i] as int) by {
            assert(rest[i] == pages[i + 1]);
            assert(pages[0] != pages[i + 1]);
        }
        lemma_returned(t, rest);
        assert forall|x: usize| pages.contains(x) <==> x == p || rest.contains(x) by {
            if pages.contains(x) {
                let i = choose|i: int| 0 <= i < pages.len() && pages[i] == x;
                if i > 0 {
                    assert(rest[i - 1] == x);
                }
            }
            if rest.contains(x) {
                let i = choose|i: int| 0 <= i < rest.len() && rest[i] == x;
                assert(pages[i + 1] == x);
            }
            assert(pages.contains(p));
        }
    }
}

/// What adding a run does to the free blocks.
pub proof fn lemma_given(s: Set<Block>, start: int, end: int)
    requires
        frames_ok(s),
        0 <= start <= end <= usize::MAX,
        forall|x: int| start <= x < end ==> !#[trigger] is_free(s, x),
    ensures
        frames_ok(given(s, start, end)),
        forall|x: int| is_free(given(s, start, end), x) <==> is_free(s, x) || start <= x < end,
{
    let p = frame_cut().pieces(start, end).to_set();
    let g = given(s, start, end);
    lemma_frame_pieces(start, end);
    assert forall|b: Block, c: Block| #[trigger]
        g.contains(b) && #[trigger] g.contains(c) && b != c implies b.disjoint(c) by {
        if s.contains(b) && p.contains(c) {
            lemma_piece_apart(s, b, c, start, end);
        } else if p.contains(b) && s.contains(c) {
            lemma_piece_apart(s, c, b, start, end);
        }
    }
    assert forall|x: int| is_free(g, x) <==> is_free(s, x) || start <= x < end by {
        if is_free(s, x) {
            let d = choose|d: Block| #[trigger] s.contains(d) && d.has(x);
            assert(g.contains(d));
        }
        if start <= x < end {
            assert(blocks::covers(p, x));
            let d = choose|d: Block| #[trigger] p.contains(d) && d.has(x);
            assert(g.contains(d));
        }
        if is_free(g, x) {
            let d = choose|d: Block| #[trigger] g.contains(d) && d.has(x);
            if !s.contains(d) {
                assert(p.contains(d));
                assert(blocks::covers(p, x));
            }
        }
    }
}

proof fn lemma_piece_apart(s: Set<Block>, b: Block, c: Block, start: int, end: int)
    requires
        s.contains(b),
        start <= c.addr,
        c.end() <= end,
        forall|x: int| start <= x < end ==> !#[trigger] is_free(s, x),
    ensures
        b.disjoint(c),
{
    blocks::lemma_block_pos(b);
    blocks::lemma_block_pos(c);
    if !b.disjoint(c) {
        let x = if b.addr >= c.addr {
            b.addr
        } else {
            c.addr
        };
        assert(b.has(x) && c.has(x));
        assert(is_free(s, x));
    }
}

/// The blocks that a run of pages is cut into fill it.
pub proof fn lemma_frame_pieces(start: int, end: int)
    requires
        0 <= start <= end,
    ensures
        ({
            let p = frame_cut().pieces(start, end).to_set();
            &&& blocks::tiling(p)
            &&& tidy(p)
            &&& forall|b: Block| #[trigger]
                p.contains(b) ==> 0 <= b.order <= MAX_ORDER && start <= b.addr && b.end() <= end
            &&& forall|x: int| blocks::covers(p, x) <==> start <= x < end
        }),
{
    let cut = frame_cut();
    powers::lemma_aligned_zero(start);
    blocks::lemma_pieces(cut, start, end, MAX_ORDER as int);
    let r = cut.reached(start, end);
    powers::lemma_p2_values();
    if r < end {
        blocks::lemma_largest_fit(r, end - r, MAX_ORDER as int);
    }
}

/// A run that is added next to pages that are not free keeps the blocks tidy.
pub proof fn lemma_given_tidy(s: Set<Block>, start: int, end: int)
    requires
        frames_ok(s),
        0 <= start <= end <= usize::MAX,
        forall|x: int| start <= x < end ==> !#[trigger] is_free(s, x),
        tidy(s),
        !is_free(s, start - 1),
        !is_free(s, end),
    ensures
        tidy(given(s, start, end)),
{
    let p = frame_cut().pieces(start, end).to_set();
    lemma_frame_pieces(start, end);
    assert forall|b: Block| #[trigger] p.contains(b) implies !s.contains(b.buddy()) by {
        let d = b.buddy();
        blocks::lemma_buddy_block(b);
        powers::lemma_buddy(b.addr, b.order);
        if s.contains(d) {
            blocks::lemma_block_pos(d);
            lemma_piece_apart(s, d, b, start, end);
            if d.addr < b.addr {
                assert(d.end() == b.addr);
                if d.end() > start {
                    assert(d.has(d.end() - 1));
                    assert(is_free(s, d.end() - 1));
                } else {
                    assert(d.has(start - 1));
                    assert(is_free(s, start - 1));
                }
            } else {
                assert(d.addr == b.end());
                assert(d.has(d.addr));
                if d.addr < end {
                    assert(is_free(s, d.addr));
                } else {
                    assert(is_free(s, end));
                }
            }
        }
    }
    lemma_join_tidy(s, p);
}

proof fn lemma_join_tidy(s: Set<Block>, p: Set<Block>)
    requires
        blocks::tiling(s),
        blocks::tiling(p),
        tidy(s),
        tidy(p),
        forall|b: Block| #[trigger] p.contains(b) ==> !s.contains(b.buddy()),
    ensures
        tidy(s.union(p)),
{
    let g = s.union(p);
    assert forall|b: Block| #[trigger] g.contains(b) && b.order < MAX_ORDER implies !g.contains(
        b.buddy(),
    ) by {
        blocks::lemma_buddy_block(b);
        if s.contains(b) {
            if p.contains(b.buddy()) {
                assert(!s.contains(b.buddy().buddy()));
            }
        }
    }
}

/// What taking `n` contiguous pages does to the free blocks.
pub proof fn lemma_taken_run(s: Set<Block>, n: int)
    requires
        frames_ok(s),
        0 < n,
        can_take(s, order_of(n)),
    ensures
        ({
            let c = grant(s, order_of(n));
            let t = taken_run(s, n);
            &&& frames_ok(t)
            &&& c.natural()
            &&& 0 < n <= c.size()
            &&& c.end() <= usize::MAX
            &&& forall|x: int| is_free(s, x) <==> is_free(t, x) || c.addr <= x < c.addr + n
            &&& forall|x: int| c.addr <= x < c.addr + n ==> !is_free(t, x)
            &&& tidy(s) ==> tidy(t)
        }),
{
    let o = order_of(n);
    let c = grant(s, o);
    let u = taken(s, o);
    let start = c.addr + n;
    let t = taken_run(s, n);
    buddy::lemma_least_order(n, 0);
    lemma_taken(s, o);
    assert forall|x: int| start <= x < c.end() implies !#[trigger] is_free(u, x) by {
        assert(c.has(x));
    }
    lemma_given(u, start, c.end());
    assert forall|x: int| c.addr <= x < start implies !is_free(t, x) by {
        assert(c.has(x));
    }
    assert forall|x: int| is_free(s, x) <==> is_free(t, x) || c.addr <= x < start by {
        assert(c.has(x) <==> c.addr <= x < start || start <= x < c.end());
    }
    if tidy(s) {
        let p = frame_cut().pieces(start, c.end()).to_set();
        lemma_frame_pieces(start, c.end());
        assert forall|b: Block| #[trigger] p.contains(b) implies !u.contains(b.buddy()) by {
            blocks::lemma_buddy_block(b);
            blocks::lemma_block_pos(b);
            let d = b.buddy();
            if b.order >= o {
                powers::lemma_p2_mono(o, b.order);
            }
            assert(b.parent().encloses(b) && b.parent().has(b.addr) && c.has(b.addr));
            blocks::lemma_nest(b.parent(), c, b.addr);
            assert(b.parent().encloses(d));
            if u.contains(d) {
                blocks::lemma_block_pos(d);
                assert(d.disjoint(c));
            }
        }
        lemma_join_tidy(u, p);
    }
}

} // verus!
