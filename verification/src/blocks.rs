//! Sets of buddy blocks.
//!
//! A block of order `k` is a run of `2^k` units that starts at a multiple of
//! `2^k`. A unit is a byte for the kernel heap and a page for the frame
//! allocator; nothing here depends on which.

use crate::powers;
use vstd::prelude::*;

verus! {

/// The run of `2^order` units that starts at `addr`.
pub struct Block {
    pub addr: int,
    pub order: int,
}

impl Block {
    pub open spec fn size(self) -> int {
        powers::p2(self.order)
    }

    /// First unit after the block.
    pub open spec fn end(self) -> int {
        self.addr + powers::p2(self.order)
    }

    pub open spec fn has(self, x: int) -> bool {
        self.addr <= x < self.end()
    }

    /// The block starts at a multiple of its size.
    pub open spec fn natural(self) -> bool {
        &&& 0 <= self.order
        &&& 0 <= self.addr
        &&& powers::aligned(self.addr, self.order)
    }

    pub open spec fn disjoint(self, other: Block) -> bool {
        self.end() <= other.addr || other.end() <= self.addr
    }

    /// `other` lies inside this block.
    pub open spec fn encloses(self, other: Block) -> bool {
        self.addr <= other.addr && other.end() <= self.end()
    }

    /// The other half of the parent.
    pub open spec fn buddy(self) -> Block {
        Block { addr: powers::buddy_of(self.addr, self.order), order: self.order }
    }

    /// The block of the next order that this one is a half of.
    pub open spec fn parent(self) -> Block {
        Block { addr: powers::parent_of(self.addr, self.order), order: self.order + 1 }
    }
}

/// Natural blocks, no two of which share a unit.
pub open spec fn tiling(s: Set<Block>) -> bool {
    &&& forall|b: Block| #[trigger] s.contains(b) ==> b.natural()
    &&& forall|b: Block, c: Block| #[trigger]
        s.contains(b) && #[trigger] s.contains(c) && b != c ==> b.disjoint(c)
}

/// `x` lies in some block of `s`.
pub open spec fn covers(s: Set<Block>, x: int) -> bool {
    exists|b: Block| #[trigger] s.contains(b) && b.has(x)
}

/// No block below order `top` lies in `s` together with its buddy: everything
/// that can be merged has been merged.
pub open spec fn coalesced(s: Set<Block>, top: int) -> bool {
    forall|b: Block| #[trigger] s.contains(b) && b.order < top ==> !s.contains(b.buddy())
}

/// Every block of `s` has an order below `limit`.
pub open spec fn orders_below(s: Set<Block>, limit: int) -> bool {
    forall|b: Block| #[trigger] s.contains(b) ==> 0 <= b.order < limit
}

/// What is left over when the block of order `from` at `addr` is halved down
/// to order `to`: the upper half of each step.
pub open spec fn upper_halves(addr: int, to: int, from: int) -> Set<Block> {
    Set::new(|b: Block| to <= b.order < from && b.addr == addr + powers::p2(b.order))
}

pub proof fn lemma_block_pos(b: Block)
    ensures
        b.size() > 0,
        b.addr < b.end(),
{
    powers::lemma_p2_pos(b.order);
}

/// A block that meets no block of a tiling can join it.
pub proof fn lemma_tiling_insert(s: Set<Block>, c: Block)
    requires
        tiling(s),
        c.natural(),
        forall|b: Block| #[trigger] s.contains(b) ==> b.disjoint(c),
    ensures
        tiling(s.insert(c)),
{
}

pub proof fn lemma_tiling_subset(s: Set<Block>, t: Set<Block>)
    requires
        tiling(t),
        forall|b: Block| #[trigger] s.contains(b) ==> t.contains(b),
    ensures
        tiling(s),
{
}

/// Two blocks of a tiling that share a unit are the same block.
pub proof fn lemma_tiling_unique(s: Set<Block>, b: Block, c: Block, x: int)
    requires
        tiling(s),
        s.contains(b),
        s.contains(c),
        b.has(x),
        c.has(x),
    ensures
        b == c,
{
}

/// Natural blocks either do not meet or nest.
pub proof fn lemma_nest(b: Block, c: Block, x: int)
    requires
        b.natural(),
        c.natural(),
        b.order <= c.order,
        b.has(x),
        c.has(x),
    ensures
        c.encloses(b),
{
    powers::lemma_nested(b.addr, b.order, c.addr, c.order);
}

/// Nested natural blocks of one order are equal.
pub proof fn lemma_nest_same(b: Block, c: Block, x: int)
    requires
        b.natural(),
        c.natural(),
        b.order == c.order,
        b.has(x),
        c.has(x),
    ensures
        b == c,
{
    lemma_nest(b, c, x);
    lemma_nest(c, b, x);
}

/// A block and its buddy tile their parent.
pub proof fn lemma_buddy_block(b: Block)
    requires
        b.natural(),
    ensures
        b.buddy().natural(),
        b.parent().natural(),
        b.buddy().buddy() == b,
        b.buddy().parent() == b.parent(),
        b.disjoint(b.buddy()),
        b != b.buddy(),
        b.parent().encloses(b),
        b.parent().encloses(b.buddy()),
        forall|x: int| b.parent().has(x) <==> b.has(x) || b.buddy().has(x),
        b.parent().size() == 2 * b.size(),
{
    powers::lemma_buddy(b.addr, b.order);
    if !powers::aligned(b.addr, b.order + 1) {
        if b.addr < powers::p2(b.order) {
            powers::lemma_aligned_zero(0);
            if b.addr > 0 {
                powers::lemma_aligned_gap(0, b.addr, b.order);
            } else {
                assert(b.addr == 0);
            }
        }
    }
}

/// Halving a block of a tiling keeps it a tiling.
pub proof fn lemma_tiling_split(s: Set<Block>, b: Block)
    requires
        tiling(s),
        s.contains(b),
        b.order > 0,
    ensures
        ({
            let lo = Block { addr: b.addr, order: b.order - 1 };
            let hi = Block { addr: b.addr + powers::p2(b.order - 1), order: b.order - 1 };
            &&& tiling(s.remove(b).insert(lo).insert(hi))
            &&& lo.natural()
            &&& hi.natural()
            &&& hi == lo.buddy()
            &&& b == lo.parent()
            &&& forall|x: int| b.has(x) <==> lo.has(x) || hi.has(x)
        }),
{
    let lo = Block { addr: b.addr, order: b.order - 1 };
    let hi = Block { addr: b.addr + powers::p2(b.order - 1), order: b.order - 1 };
    powers::lemma_aligned_half(b.addr, b.order - 1);
    lemma_buddy_block(lo);
    let t = s.remove(b);
    lemma_tiling_subset(t, s);
    assert forall|c: Block| #[trigger] t.contains(c) implies c.disjoint(lo) && c.disjoint(hi) by {
        assert(s.contains(c) && c != b);
        lemma_block_pos(c);
    }
    lemma_tiling_insert(t, lo);
    lemma_tiling_insert(t.insert(lo), hi);
}

/// Merging a block with its buddy keeps a tiling.
pub proof fn lemma_tiling_merge(s: Set<Block>, b: Block)
    requires
        tiling(s),
        s.contains(b),
        s.contains(b.buddy()),
    ensures
        tiling(s.remove(b).remove(b.buddy()).insert(b.parent())),
        forall|c: Block| #[trigger]
            s.contains(c) && c != b && c != b.buddy() ==> c.disjoint(b.parent()),
{
    lemma_buddy_block(b);
    let t = s.remove(b).remove(b.buddy());
    lemma_tiling_subset(t, s);
    assert forall|c: Block| #[trigger]
        s.contains(c) && c != b && c != b.buddy() implies c.disjoint(b.parent()) by {
        lemma_block_pos(c);
        assert(c.disjoint(b));
        assert(c.disjoint(b.buddy()));
    }
    lemma_tiling_insert(t, b.parent());
}

/// Halving a block again and again keeps a tiling: it is replaced by its
/// lowest piece and the upper half of each step.
pub proof fn lemma_tiling_split_down(s: Set<Block>, b: Block, to: int)
    requires
        tiling(s),
        s.contains(b),
        0 <= to <= b.order,
    ensures
        ({
            let low = Block { addr: b.addr, order: to };
            let t = s.remove(b).union(upper_halves(b.addr, to, b.order)).insert(low);
            &&& tiling(t)
            &&& low.natural()
            &&& b.encloses(low)
            &&& forall|c: Block| #[trigger]
                upper_halves(b.addr, to, b.order).contains(c) ==> b.encloses(c) && c.disjoint(low)
                    && c.natural() && !s.contains(c)
            &&& forall|x: int|
                b.has(x) <==> low.has(x) || covers(upper_halves(b.addr, to, b.order), x)
        }),
    decreases b.order - to,
{
    let low = Block { addr: b.addr, order: to };
    let t = s.remove(b).union(upper_halves(b.addr, to, b.order)).insert(low);
    if to == b.order {
        assert(upper_halves(b.addr, to, b.order) =~= Set::empty());
        assert(t =~= s);
    } else {
        let lo = Block { addr: b.addr, order: b.order - 1 };
        let hi = Block { addr: b.addr + powers::p2(b.order - 1), order: b.order - 1 };
        lemma_tiling_split(s, b);
        lemma_buddy_block(lo);
        lemma_block_pos(lo);
        lemma_block_pos(hi);
        assert(!s.contains(lo) && !s.contains(hi)) by {
            assert(b.has(lo.addr) && lo.has(lo.addr));
            assert(b.has(hi.addr) && hi.has(hi.addr));
            if s.contains(lo) {
                lemma_tiling_unique(s, b, lo, lo.addr);
            }
            if s.contains(hi) {
                lemma_tiling_unique(s, b, hi, hi.addr);
            }
        }
        let s2 = s.remove(b).insert(lo).insert(hi);
        lemma_tiling_split_down(s2, lo, to);
        let u = upper_halves(b.addr, to, b.order);
        let u2 = upper_halves(b.addr, to, b.order - 1);
        assert(u =~= u2.insert(hi));
        let t2 = s2.remove(lo).union(u2).insert(low);
        assert(t2 =~= t);
        assert forall|c: Block| #[trigger] u.contains(c) implies b.encloses(c) && c.disjoint(low)
            && c.natural() && !s.contains(c) by {
            lemma_block_pos(c);
            if c != hi {
                assert(u2.contains(c));
                assert(lo.encloses(c));
                if s.contains(c) {
                    assert(b.has(c.addr) && c.has(c.addr));
                    lemma_tiling_unique(s, b, c, c.addr);
                    assert(false);
                }
            } else {
                lemma_block_pos(low);
            }
        }
        assert forall|x: int| b.has(x) <==> low.has(x) || covers(u, x) by {
            if b.has(x) {
                if hi.has(x) {
                    assert(u.contains(hi));
                } else {
                    assert(lo.has(x));
                    if !low.has(x) {
                        assert(covers(u2, x));
                        let c = choose|c: Block| #[trigger] u2.contains(c) && c.has(x);
                        assert(u.contains(c));
                    }
                }
            }
        }
    }
}

/// Taking one block apart leaves nothing that could be merged.
pub proof fn lemma_coalesced_split_down(s: Set<Block>, b: Block, to: int, top: int)
    requires
        tiling(s),
        coalesced(s, top),
        s.contains(b),
        0 <= to <= b.order,
    ensures
        coalesced(s.remove(b).union(upper_halves(b.addr, to, b.order)), top),
{
    let u = upper_halves(b.addr, to, b.order);
    let t = s.remove(b).union(u);
    lemma_tiling_split_down(s, b, to);
    assert forall|c: Block| #[trigger] t.contains(c) && c.order < top implies !t.contains(
        c.buddy(),
    ) by {
        lemma_buddy_block(c);
        let d = c.buddy();
        if u.contains(c) {
            lemma_upper_half_buddy(s, b, to, c);
        } else if u.contains(d) {
            lemma_upper_half_buddy(s, b, to, d);
        }
    }
}

proof fn lemma_upper_half_buddy(s: Set<Block>, b: Block, to: int, c: Block)
    requires
        tiling(s),
        s.contains(b),
        0 <= to <= b.order,
        upper_halves(b.addr, to, b.order).contains(c),
    ensures
        !s.contains(c.buddy()),
        !upper_halves(b.addr, to, b.order).contains(c.buddy()),
{
    let lo = Block { addr: b.addr, order: c.order };
    powers::lemma_aligned_mono(b.addr, c.order + 1, b.order);
    powers::lemma_aligned_half(b.addr, c.order);
    powers::lemma_p2_mono(c.order, b.order);
    lemma_buddy_block(lo);
    assert(c == lo.buddy());
    lemma_block_pos(lo);
    lemma_block_pos(b);
    if s.contains(lo) {
        assert(b.has(b.addr) && lo.has(b.addr));
        lemma_tiling_unique(s, b, lo, b.addr);
        assert(false);
    }
}

/// Adding a block whose buddy is absent leaves nothing that could be merged.
pub proof fn lemma_coalesced_insert(s: Set<Block>, c: Block, top: int)
    requires
        tiling(s),
        coalesced(s, top),
        c.natural(),
        c.order < top ==> !s.contains(c.buddy()),
    ensures
        coalesced(s.insert(c), top),
{
    lemma_buddy_block(c);
    assert forall|b: Block| #[trigger]
        s.insert(c).contains(b) && b.order < top implies !s.insert(c).contains(b.buddy()) by {
        if b != c {
            assert(s.contains(b));
            lemma_buddy_block(b);
            if b.buddy() == c {
                assert(c.buddy() == b);
            }
        }
    }
}

/// When everything mergeable is merged, a natural block all of whose units
/// are covered lies inside a single block.
pub proof fn lemma_enclosing_block(s: Set<Block>, c: Block, top: int) -> (b: Block)
    requires
        tiling(s),
        coalesced(s, top),
        c.natural(),
        c.order <= top,
        forall|x: int| c.has(x) ==> #[trigger] covers(s, x),
    ensures
        s.contains(b),
        b.order >= c.order,
        b.encloses(c),
    decreases c.order,
{
    lemma_block_pos(c);
    if c.order == 0 {
        assert(covers(s, c.addr));
        let b = choose|b: Block| #[trigger] s.contains(b) && b.has(c.addr);
        lemma_nest(c, b, c.addr);
        b
    } else {
        let k = c.order - 1;
        let lo = Block { addr: c.addr, order: k };
        powers::lemma_aligned_half(c.addr, k);
        lemma_buddy_block(lo);
        let hi = lo.buddy();
        assert(lo.parent() == c);
        assert(forall|x: int| lo.has(x) ==> c.has(x));
        assert(forall|x: int| hi.has(x) ==> c.has(x));
        let p = lemma_enclosing_block(s, lo, top);
        let q = lemma_enclosing_block(s, hi, top);
        lemma_block_pos(lo);
        lemma_block_pos(hi);
        if p.order > k {
            assert(p.has(lo.addr) && c.has(lo.addr));
            lemma_nest(c, p, lo.addr);
            p
        } else if q.order > k {
            assert(q.has(hi.addr) && c.has(hi.addr));
            lemma_nest(c, q, hi.addr);
            q
        } else {
            assert(p.has(lo.addr) && lo.has(lo.addr));
            assert(q.has(hi.addr) && hi.has(hi.addr));
            lemma_nest_same(p, lo, lo.addr);
            lemma_nest_same(q, hi, hi.addr);
            assert(false);
            p
        }
    }
}

/// A merged set of blocks is fixed by the units that it covers.
pub proof fn lemma_coalesced_unique(s: Set<Block>, t: Set<Block>, top: int)
    requires
        tiling(s),
        tiling(t),
        coalesced(s, top),
        coalesced(t, top),
        orders_below(s, top + 1),
        orders_below(t, top + 1),
        forall|x: int| covers(s, x) <==> covers(t, x),
    ensures
        s == t,
{
    assert forall|b: Block| s.contains(b) implies t.contains(b) by {
        lemma_coalesced_within(s, t, top, b);
    }
    assert forall|b: Block| t.contains(b) implies s.contains(b) by {
        lemma_coalesced_within(t, s, top, b);
    }
    assert(s =~= t);
}

proof fn lemma_coalesced_within(s: Set<Block>, t: Set<Block>, top: int, b: Block)
    requires
        tiling(s),
        tiling(t),
        coalesced(s, top),
        coalesced(t, top),
        orders_below(s, top + 1),
        orders_below(t, top + 1),
        forall|x: int| covers(s, x) <==> covers(t, x),
        s.contains(b),
    ensures
        t.contains(b),
{
    lemma_block_pos(b);
    assert(forall|x: int| b.has(x) ==> covers(s, x));
    let c = lemma_enclosing_block(t, b, top);
    assert(forall|x: int| c.has(x) ==> covers(t, x));
    let d = lemma_enclosing_block(s, c, top);
    assert(b.has(b.addr) && d.has(b.addr));
    lemma_tiling_unique(s, b, d, b.addr);
    assert(c.has(b.addr));
    lemma_nest_same(b, c, b.addr);
}

// ---------------------------------------------------------------------------
// Cutting a run into blocks

/// A block of order `k` can start at `addr` and take no more than `room`.
pub open spec fn fits(addr: int, room: int, k: int) -> bool {
    powers::aligned(addr, k) && powers::p2(k) <= room
}

/// The largest order up to `cap` that fits.
pub open spec fn largest_fit(addr: int, room: int, cap: int) -> int
    decreases cap,
{
    if cap <= 0 {
        0
    } else if fits(addr, room, cap) {
        cap
    } else {
        largest_fit(addr, room, cap - 1)
    }
}

/// How runs are cut: blocks have at least order `min`, no order above `cap`
/// is tried, and cutting ends at the first block whose order reaches `stop`.
pub struct Cut {
    pub min: int,
    pub cap: int,
    pub stop: int,
}

impl Cut {
    pub open spec fn valid(self) -> bool {
        0 <= self.min <= self.cap && self.stop > self.min
    }

    /// Nothing more is cut from `[addr, end)`.
    pub open spec fn done(self, addr: int, end: int) -> bool {
        addr + powers::p2(self.min) > end || largest_fit(addr, end - addr, self.cap) >= self.stop
    }

    /// The first block cut from `[addr, end)`.
    pub open spec fn first(self, addr: int, end: int) -> Block {
        Block { addr, order: largest_fit(addr, end - addr, self.cap) }
    }

    /// The blocks that `[addr, end)` is cut into, lowest first: each is the
    /// largest that fits at its address.
    pub open spec fn pieces(self, addr: int, end: int) -> Seq<Block>
        decreases end - addr,
    {
        if self.done(addr, end) {
            Seq::empty()
        } else {
            let b = self.first(addr, end);
            proof {
                powers::lemma_p2_pos(self.min);
                powers::lemma_p2_pos(b.order);
                powers::lemma_p2_values();
                if self.cap >= 0 {
                    lemma_largest_fit(addr, end - addr, self.cap);
                }
            }
            seq![b] + self.pieces(b.end(), end)
        }
    }

    /// First unit of `[addr, end)` that is in none of its pieces.
    pub open spec fn reached(self, addr: int, end: int) -> int
        decreases end - addr,
    {
        if self.done(addr, end) {
            addr
        } else {
            let b = self.first(addr, end);
            proof {
                powers::lemma_p2_pos(self.min);
                powers::lemma_p2_pos(b.order);
                powers::lemma_p2_values();
                if self.cap >= 0 {
                    lemma_largest_fit(addr, end - addr, self.cap);
                }
            }
            self.reached(b.end(), end)
        }
    }
}

pub proof fn lemma_largest_fit(addr: int, room: int, cap: int)
    requires
        0 <= cap,
        room >= 1,
    ensures
        0 <= largest_fit(addr, room, cap) <= cap,
        fits(addr, room, largest_fit(addr, room, cap)),
        forall|k: int|
            largest_fit(addr, room, cap) < k <= cap ==> !#[trigger] fits(addr, room, k),
    decreases cap,
{
    powers::lemma_aligned_zero(addr);
    powers::lemma_p2_values();
    if cap > 0 {
        if !fits(addr, room, cap) {
            lemma_largest_fit(addr, room, cap - 1);
        }
    }
}

/// The largest order that fits is found from the alignment of the start and
/// the logarithm of the room.
pub proof fn lemma_largest_is_min(addr: int, room: int, low: int, log: int, cap: int)
    requires
        0 <= low,
        0 <= log,
        0 <= cap,
        powers::aligned(addr, low),
        low < cap ==> !powers::aligned(addr, low + 1),
        powers::p2(log) <= room < powers::p2(log + 1),
    ensures
        largest_fit(addr, room, cap) == if low <= log && low <= cap {
            low
        } else if log <= cap {
            log
        } else {
            cap
        },
{
    let m = if low <= log && low <= cap {
        low
    } else if log <= cap {
        log
    } else {
        cap
    };
    powers::lemma_p2_mono(0, log);
    lemma_largest_fit(addr, room, cap);
    powers::lemma_aligned_mono(addr, m, low);
    powers::lemma_p2_mono(m, log);
    assert(fits(addr, room, m));
    let l = largest_fit(addr, room, cap);
    if l > m {
        powers::lemma_aligned_mono(addr, m + 1, l);
        powers::lemma_p2_mono(m + 1, l);
        if m == low {
            assert(false);
        } else {
            assert(m == log);
            assert(false);
        }
    }
}

/// The pieces of a run tile its start, nothing among them can be merged, and
/// their orders lie in bounds.
pub proof fn lemma_pieces(cut: Cut, addr: int, end: int, top: int)
    requires
        cut.valid(),
        0 <= addr,
        powers::aligned(addr, cut.min),
        top <= cut.cap,
    ensures
        ({
            let s = cut.pieces(addr, end).to_set();
            &&& tiling(s)
            &&& coalesced(s, top)
            &&& forall|b: Block| #[trigger]
                s.contains(b) ==> cut.min <= b.order <= cut.cap && b.order < cut.stop && addr
                    <= b.addr && b.end() <= end
            &&& forall|x: int| covers(s, x) <==> addr <= x < cut.reached(addr, end)
            &&& addr <= cut.reached(addr, end)
            &&& addr <= end ==> cut.reached(addr, end) <= end
            &&& cut.pieces(addr, end).no_duplicates()
            &&& cut.done(cut.reached(addr, end), end)
        }),
    decreases end - addr,
{
    let p = cut.pieces(addr, end);
    let s = p.to_set();
    powers::lemma_p2_pos(cut.min);
    if cut.done(addr, end) {
        assert(p =~= Seq::empty());
        assert(forall|x: int| !covers(s, x));
    } else {
        let b = cut.first(addr, end);
        let room = end - addr;
        lemma_largest_fit(addr, room, cut.cap);
        assert(fits(addr, room, cut.min));
        let k = b.order;
        assert(k >= cut.min);
        lemma_block_pos(b);
        powers::lemma_p2_aligned(cut.min, k);
        powers::lemma_aligned_add(addr, b.size(), cut.min);
        lemma_pieces(cut, b.end(), end, top);
        let q = cut.pieces(b.end(), end);
        let t = q.to_set();
        assert(p == seq![b] + q);
        assert(s =~= t.insert(b)) by {
            assert forall|c: Block| s.contains(c) <==> t.insert(b).contains(c) by {
                if s.contains(c) {
                    let i = choose|i: int| 0 <= i < p.len() && p[i] == c;
                    if i > 0 {
                        assert(q[i - 1] == c);
                    }
                }
                if t.contains(c) {
                    let i = choose|i: int| 0 <= i < q.len() && q[i] == c;
                    assert(p[i + 1] == c);
                }
                assert(p[0] == b);
            }
        }
        assert forall|c: Block| #[trigger] t.contains(c) implies c.disjoint(b) by {}
        assert(b.natural());
        lemma_tiling_insert(t, b);
        if k < top {
            lemma_buddy_block(b);
            if t.contains(b.buddy()) {
                assert(b.buddy().addr == addr + powers::p2(k));
                powers::lemma_p2_step(k);
                assert(powers::aligned(addr, k + 1));
                assert(fits(addr, room, k + 1));
                assert(false);
            }
        }
        lemma_coalesced_insert(t, b, top);
        assert forall|x: int| covers(s, x) <==> addr <= x < cut.reached(addr, end) by {
            if covers(s, x) {
                let c = choose|c: Block| #[trigger] s.contains(c) && c.has(x);
                if c != b {
                    assert(t.contains(c));
                    assert(covers(t, x));
                }
            }
            if addr <= x < cut.reached(addr, end) {
                if x < b.end() {
                    assert(s.contains(b) && b.has(x));
                } else {
                    assert(covers(t, x));
                    let c = choose|c: Block| #[trigger] t.contains(c) && c.has(x);
                    assert(s.contains(c));
                }
            }
        }
        assert(!t.contains(b));
        assert(!q.contains(b)) by {
            if q.contains(b) {
                assert(t.contains(b));
            }
        }
        assert forall|i: int, j: int| 0 <= i < p.len() && 0 <= j < p.len() && i != j implies p[i]
            != p[j] by {
            if i == 0 {
                assert(q.contains(q[j - 1]));
            } else if j == 0 {
                assert(q.contains(q[i - 1]));
            } else {
                assert(q[i - 1] != q[j - 1]);
            }
        }
    }
}

} // verus!
