//! What a buddy heap knows: which blocks are free, which are handed out, and
//! how many bytes that makes.
//!
//! Every operation of the heap moves one block at a time. Between two moves
//! that block is in hand: neither free nor handed out.

use crate::blocks;
use crate::blocks::Block;
use crate::buddy::{MAX_ORDER, MIN_ORDER};
use crate::linked_list;
use crate::powers;
use vstd::prelude::*;

verus! {

/// The state of a buddy heap.
pub struct BuddyView {
    /// Free blocks of each order, the one to be taken next first.
    pub free: Seq<Seq<usize>>,
    /// Blocks of each order that are handed out.
    pub live: Seq<Set<usize>>,
    /// Bytes of all regions added so far.
    pub regions: Set<int>,
    pub total: int,
    pub used: int,
    pub waste: int,
}

/// The blocks that the free lists name.
pub open spec fn free_blocks(free: Seq<Seq<usize>>) -> Set<Block> {
    Set::new(
        |b: Block| 0 <= b.order < free.len() && linked_list::is_node(free[b.order], b.addr),
    )
}

/// The blocks that are handed out.
pub open spec fn live_blocks(live: Seq<Set<usize>>) -> Set<Block> {
    Set::new(
        |b: Block|
            0 <= b.order < live.len() && 0 <= b.addr <= usize::MAX && live[b.order].contains(
                b.addr as usize,
            ),
    )
}

/// Bytes in `counts[k]` blocks of each order `k`.
pub open spec fn weight(counts: Seq<nat>) -> int
    decreases counts.len(),
{
    if counts.len() == 0 {
        0
    } else {
        weight(counts.drop_last()) + counts.last() * powers::p2(counts.len() - 1)
    }
}

pub open spec fn free_counts(free: Seq<Seq<usize>>) -> Seq<nat> {
    free.map_values(|l: Seq<usize>| l.len())
}

pub open spec fn live_counts(live: Seq<Set<usize>>) -> Seq<nat> {
    live.map_values(|l: Set<usize>| l.len())
}

pub open spec fn hand_set(hand: Option<Block>) -> Set<Block> {
    match hand {
        Some(c) => Set::empty().insert(c),
        None => Set::empty(),
    }
}

pub open spec fn hand_size(hand: Option<Block>) -> int {
    match hand {
        Some(c) => c.size(),
        None => 0,
    }
}

/// The free lists with `a` put in front of list `o`.
pub open spec fn pushed(free: Seq<Seq<usize>>, o: int, a: int) -> Seq<Seq<usize>> {
    free.update(o, seq![a as usize] + free[o])
}

/// The free lists with `a` taken out of list `o`.
pub open spec fn removed(free: Seq<Seq<usize>>, o: int, a: int) -> Seq<Seq<usize>> {
    free.update(o, linked_list::without(free[o], a as usize))
}

/// The free lists with the front block of list `o` taken.
pub open spec fn popped(free: Seq<Seq<usize>>, o: int) -> Seq<Seq<usize>> {
    free.update(o, free[o].drop_first())
}

/// The least order from `o` on that has a free block, or the number of lists
/// if there is none.
pub open spec fn first_nonempty(free: Seq<Seq<usize>>, o: int) -> int
    decreases free.len() - o,
{
    if o >= free.len() || o < 0 {
        free.len() as int
    } else if free[o].len() > 0 {
        o
    } else {
        first_nonempty(free, o + 1)
    }
}

/// The free lists after the block of order `from` at `addr` has been halved
/// down to order `to`: the upper half of each step is in front of its list.
pub open spec fn halved(free: Seq<Seq<usize>>, addr: int, to: int, from: int) -> Seq<Seq<usize>> {
    Seq::new(
        free.len(),
        |o: int|
            if to <= o < from {
                seq![(addr + powers::p2(o)) as usize] + free[o]
            } else {
                free[o]
            },
    )
}

/// The free lists after the block of order `o` at `a` has been given back:
/// while its buddy is free and the order is not the last, the two become one
/// block of the next order.
pub open spec fn merged(free: Seq<Seq<usize>>, a: int, o: int) -> Seq<Seq<usize>>
    decreases free.len() - o,
{
    let buddy = powers::buddy_of(a, o);
    if 0 <= o && o + 1 < free.len() && linked_list::is_node(free[o], buddy) {
        merged(removed(free, o, buddy), powers::parent_of(a, o), o + 1)
    } else {
        pushed(free, o, a)
    }
}

/// The free lists with the given blocks put in front of their lists one after
/// the other.
pub open spec fn pushed_all(free: Seq<Seq<usize>>, pieces: Seq<Block>) -> Seq<Seq<usize>>
    decreases pieces.len(),
{
    if pieces.len() == 0 {
        free
    } else {
        pushed_all(pushed(free, pieces[0].order, pieces[0].addr), pieces.drop_first())
    }
}

impl BuddyView {
    pub open spec fn empty() -> BuddyView {
        BuddyView {
            free: Seq::new(MAX_ORDER as nat, |o: int| Seq::empty()),
            live: Seq::new(MAX_ORDER as nat, |o: int| Set::empty()),
            regions: Set::empty(),
            total: 0,
            used: 0,
            waste: 0,
        }
    }

    pub open spec fn with_free(self, free: Seq<Seq<usize>>) -> BuddyView {
        BuddyView { free, ..self }
    }

    /// Block `c` is handed out.
    pub open spec fn granted(self, c: Block) -> BuddyView {
        BuddyView {
            live: self.live.update(c.order, self.live[c.order].insert(c.addr as usize)),
            used: self.used + c.size(),
            ..self
        }
    }

    /// Block `c` is no longer handed out.
    pub open spec fn revoked(self, c: Block) -> BuddyView {
        BuddyView {
            live: self.live.update(c.order, self.live[c.order].remove(c.addr as usize)),
            used: self.used - c.size(),
            ..self
        }
    }

    /// Block `c` has been cut from what was waste.
    pub open spec fn salvaged(self, c: Block) -> BuddyView {
        BuddyView { total: self.total + c.size(), waste: self.waste - c.size(), ..self }
    }

    /// The region `[start, end)` has been added, and all of it is waste.
    pub open spec fn entered(self, start: int, end: int) -> BuddyView {
        BuddyView {
            regions: self.regions.union(vstd::set_lib::set_int_range(start, end)),
            waste: self.waste + (end - start),
            ..self
        }
    }

    /// All blocks: free, handed out and in hand.
    pub open spec fn blocks(self, hand: Option<Block>) -> Set<Block> {
        free_blocks(self.free).union(live_blocks(self.live)).union(hand_set(hand))
    }

    /// The lists are sets of distinct blocks, and no block is counted twice.
    pub open spec fn lists_ok(self, hand: Option<Block>) -> bool {
        &&& self.free.len() == MAX_ORDER
        &&& self.live.len() == MAX_ORDER
        &&& forall|o: int| 0 <= o < MAX_ORDER ==> (#[trigger] self.free[o]).no_duplicates()
        &&& forall|o: int| 0 <= o < MAX_ORDER ==> (#[trigger] self.live[o]).finite()
        &&& free_blocks(self.free).disjoint(live_blocks(self.live))
        &&& hand_set(hand).disjoint(free_blocks(self.free))
        &&& hand_set(hand).disjoint(live_blocks(self.live))
    }

    /// No two blocks overlap, and all lie inside the regions.
    pub open spec fn blocks_ok(self, hand: Option<Block>) -> bool {
        let all = self.blocks(hand);
        &&& blocks::tiling(all)
        &&& forall|b: Block| #[trigger] all.contains(b) ==> MIN_ORDER <= b.order < MAX_ORDER
        &&& forall|b: Block, x: int| #[trigger]
            all.contains(b) && #[trigger] b.has(x) ==> self.regions.contains(x)
    }

    /// The byte counts agree with the blocks and the regions.
    pub open spec fn counts_ok(self, hand: Option<Block>) -> bool {
        &&& self.used == weight(live_counts(self.live))
        &&& self.total == self.used + weight(free_counts(self.free)) + hand_size(hand)
        &&& self.regions.finite()
        &&& self.total + self.waste == self.regions.len()
    }

    /// The regions lie in `[lo, hi)`.
    pub open spec fn bounds_ok(self, lo: int, hi: int) -> bool {
        &&& 0 < lo <= hi <= usize::MAX
        &&& forall|x: int| #[trigger] self.regions.contains(x) ==> lo <= x < hi
    }

    /// The heap is consistent while `hand` is on the move.
    pub open spec fn inv(self, hand: Option<Block>, lo: int, hi: int) -> bool {
        &&& self.lists_ok(hand)
        &&& self.blocks_ok(hand)
        &&& self.counts_ok(hand)
        &&& self.bounds_ok(lo, hi)
    }
}

pub proof fn lemma_weight_update(c: Seq<nat>, o: int, n: nat)
    requires
        0 <= o < c.len(),
    ensures
        weight(c.update(o, n)) == weight(c) + (n - c[o]) * powers::p2(o),
        n == c[o] + 1 ==> weight(c.update(o, n)) == weight(c) + powers::p2(o),
        n == c[o] - 1 ==> weight(c.update(o, n)) == weight(c) - powers::p2(o),
    decreases c.len(),
{
    let d = c.update(o, n);
    let q = powers::p2(o);
    assert(1 * q == q && (-1) * q == -q) by (nonlinear_arith);
    let k = c.len() - 1;
    if o == k {
        assert(d.drop_last() =~= c.drop_last());
        let p = powers::p2(k);
        let m = c[o];
        assert(n * p == m * p + (n - m) * p) by (nonlinear_arith);
    } else {
        assert(d.drop_last() =~= c.drop_last().update(o, n));
        lemma_weight_update(c.drop_last(), o, n);
    }
}

pub proof fn lemma_weight_nonneg(c: Seq<nat>)
    ensures
        weight(c) >= 0,
    decreases c.len(),
{
    if c.len() > 0 {
        lemma_weight_nonneg(c.drop_last());
        powers::lemma_p2_pos(c.len() - 1);
        let p = powers::p2(c.len() - 1);
        let m = c.last();
        assert(m * p >= 0) by (nonlinear_arith)
            requires
                m >= 0,
                p > 0,
        ;
    }
}

pub proof fn lemma_weight_zero(c: Seq<nat>)
    requires
        forall|o: int| 0 <= o < c.len() ==> c[o] == 0,
    ensures
        weight(c) == 0,
    decreases c.len(),
{
    if c.len() > 0 {
        lemma_weight_zero(c.drop_last());
        let p = powers::p2(c.len() - 1);
        assert(0 * p == 0) by (nonlinear_arith);
    }
}

/// What pushing does to the set of free blocks and to their weight.
pub proof fn lemma_pushed(free: Seq<Seq<usize>>, o: int, a: int)
    requires
        0 <= o < free.len(),
        0 <= a <= usize::MAX,
    ensures
        free_blocks(pushed(free, o, a)) == free_blocks(free).insert(Block { addr: a, order: o }),
        weight(free_counts(pushed(free, o, a))) == weight(free_counts(free)) + powers::p2(o),
        free[o].no_duplicates() && !free[o].contains(a as usize) ==> pushed(
            free,
            o,
            a,
        )[o].no_duplicates(),
{
    let l = free[o];
    let m = seq![a as usize] + l;
    let f = pushed(free, o, a);
    assert forall|x: usize| m.contains(x) <==> x == a as usize || l.contains(x) by {
        if m.contains(x) {
            let i = choose|i: int| 0 <= i < m.len() && m[i] == x;
            if i > 0 {
                assert(l[i - 1] == x);
            }
        }
        if l.contains(x) {
            let i = choose|i: int| 0 <= i < l.len() && l[i] == x;
            assert(m[i + 1] == x);
        }
        assert(m[0] == a as usize);
    }
    assert(free_blocks(f) =~= free_blocks(free).insert(Block { addr: a, order: o }));
    assert(free_counts(f) =~= free_counts(free).update(o, l.len() + 1));
    lemma_weight_update(free_counts(free), o, l.len() + 1);
    if l.no_duplicates() && !l.contains(a as usize) {
        assert forall|i: int, j: int| 0 <= i < m.len() && 0 <= j < m.len() && i != j implies m[i]
            != m[j] by {
            if i == 0 {
                assert(l.contains(l[j - 1]));
            } else if j == 0 {
                assert(l.contains(l[i - 1]));
            }
        }
    }
}

/// What removing does to the set of free blocks and to their weight.
pub proof fn lemma_removed(free: Seq<Seq<usize>>, o: int, a: int)
    requires
        0 <= o < free.len(),
        free[o].no_duplicates(),
        linked_list::is_node(free[o], a),
    ensures
        free_blocks(removed(free, o, a)) == free_blocks(free).remove(Block { addr: a, order: o }),
        weight(free_counts(removed(free, o, a))) == weight(free_counts(free)) - powers::p2(o),
        removed(free, o, a)[o].no_duplicates(),
{
    let l = free[o];
    let x = a as usize;
    let i = l.index_of_first(x).unwrap();
    l.index_of_first_ensures(x);
    let m = l.remove(i);
    let f = removed(free, o, a);
    assert(m.no_duplicates());
    assert forall|y: usize| m.contains(y) <==> y != x && l.contains(y) by {
        if m.contains(y) {
            let j = choose|j: int| 0 <= j < m.len() && m[j] == y;
            if j < i {
                assert(l[j] == y);
            } else {
                assert(l[j + 1] == y);
            }
        }
        if y != x && l.contains(y) {
            let j = choose|j: int| 0 <= j < l.len() && l[j] == y;
            if j < i {
                assert(m[j] == y);
            } else {
                assert(m[j - 1] == y);
            }
        }
    }
    assert(free_blocks(f) =~= free_blocks(free).remove(Block { addr: a, order: o }));
    assert(free_counts(f) =~= free_counts(free).update(o, (l.len() - 1) as nat));
    lemma_weight_update(free_counts(free), o, (l.len() - 1) as nat);
}

/// Taking the front block is removing it.
pub proof fn lemma_popped(free: Seq<Seq<usize>>, o: int)
    requires
        0 <= o < free.len(),
        free[o].no_duplicates(),
        free[o].len() > 0,
    ensures
        popped(free, o) == removed(free, o, free[o][0] as int),
        linked_list::is_node(free[o], free[o][0] as int),
{
    let l = free[o];
    l.index_of_first_ensures(l[0]);
    assert(l.contains(l[0]));
    assert(l.remove(0) =~= l.drop_first());
}

/// What handing a block out does to the set of live blocks.
pub proof fn lemma_live_insert(live: Seq<Set<usize>>, o: int, a: int)
    requires
        0 <= o < live.len(),
        0 <= a <= usize::MAX,
        live[o].finite(),
        !live[o].contains(a as usize),
    ensures
        ({
            let l = live.update(o, live[o].insert(a as usize));
            &&& live_blocks(l) == live_blocks(live).insert(Block { addr: a, order: o })
            &&& weight(live_counts(l)) == weight(live_counts(live)) + powers::p2(o)
        }),
{
    let l = live.update(o, live[o].insert(a as usize));
    assert(live_blocks(l) =~= live_blocks(live).insert(Block { addr: a, order: o }));
    assert(live_counts(l) =~= live_counts(live).update(o, live[o].len() + 1));
    lemma_weight_update(live_counts(live), o, live[o].len() + 1);
}

/// What taking a block back does to the set of live blocks.
pub proof fn lemma_live_remove(live: Seq<Set<usize>>, o: int, a: int)
    requires
        0 <= o < live.len(),
        0 <= a <= usize::MAX,
        live[o].finite(),
        live[o].contains(a as usize),
    ensures
        ({
            let l = live.update(o, live[o].remove(a as usize));
            &&& live_blocks(l) == live_blocks(live).remove(Block { addr: a, order: o })
            &&& weight(live_counts(l)) == weight(live_counts(live)) - powers::p2(o)
        }),
{
    let l = live.update(o, live[o].remove(a as usize));
    let n = (live[o].len() - 1) as nat;
    assert(live_blocks(l) =~= live_blocks(live).remove(Block { addr: a, order: o }));
    assert(live_counts(l) =~= live_counts(live).update(o, n));
    lemma_weight_update(live_counts(live), o, n);
}

/// A block of the heap lies in memory and is not at address zero.
pub proof fn lemma_block_bounds(v: BuddyView, hand: Option<Block>, lo: int, hi: int, b: Block)
    requires
        v.inv(hand, lo, hi),
        v.blocks(hand).contains(b),
    ensures
        lo <= b.addr,
        b.end() <= hi,
        b.natural(),
        MIN_ORDER <= b.order < MAX_ORDER,
        b.addr % 64 == 0,
{
    blocks::lemma_block_pos(b);
    assert(b.has(b.addr));
    assert(b.has(b.end() - 1));
    powers::lemma_aligned_mono(b.addr, MIN_ORDER as int, b.order);
    reveal(powers::aligned);
    powers::lemma_p2_values();
}

impl BuddyView {
    /// Take the front block of list `o` in hand.
    pub proof fn lemma_take(self, o: int, lo: int, hi: int)
        requires
            self.inv(None, lo, hi),
            0 <= o < MAX_ORDER,
            self.free[o].len() > 0,
        ensures
            ({
                let c = Block { addr: self.free[o][0] as int, order: o };
                &&& free_blocks(self.free).contains(c)
                &&& self.with_free(popped(self.free, o)).inv(Some(c), lo, hi)
                &&& free_blocks(popped(self.free, o)) == free_blocks(self.free).remove(c)
            }),
    {
        let a = self.free[o][0] as int;
        lemma_popped(self.free, o);
        let c = Block { addr: a, order: o };
        lemma_removed(self.free, o, a);
        let v = self.with_free(popped(self.free, o));
        assert(v.blocks(Some(c)) =~= self.blocks(None));
    }

    /// Halve the block in hand: its upper half becomes free.
    pub proof fn lemma_halve(self, c: Block, lo: int, hi: int)
        requires
            self.inv(Some(c), lo, hi),
            c.order > MIN_ORDER,
        ensures
            ({
                let k = c.order - 1;
                let up = c.addr + powers::p2(k);
                let half = Block { addr: c.addr, order: k };
                &&& c.addr < up < c.end()
                &&& up <= usize::MAX
                &&& !linked_list::is_node(self.free[k], up)
                &&& self.with_free(pushed(self.free, k, up)).inv(Some(half), lo, hi)
            }),
    {
        let k = c.order - 1;
        let half = Block { addr: c.addr, order: k };
        let upper = Block { addr: c.addr + powers::p2(k), order: k };
        let all = self.blocks(Some(c));
        assert(all.contains(c));
        blocks::lemma_tiling_split(all, c);
        lemma_block_bounds(self, Some(c), lo, hi, c);
        blocks::lemma_block_pos(half);
        blocks::lemma_block_pos(upper);
        powers::lemma_p2_step(k);
        assert(!all.contains(upper) && !all.contains(half)) by {
            assert(c.has(upper.addr) && upper.has(upper.addr));
            assert(c.has(half.addr) && half.has(half.addr));
            if all.contains(upper) {
                blocks::lemma_tiling_unique(all, c, upper, upper.addr);
            }
            if all.contains(half) {
                blocks::lemma_tiling_unique(all, c, half, half.addr);
            }
        }
        lemma_pushed(self.free, k, upper.addr);
        let v = self.with_free(pushed(self.free, k, upper.addr));
        assert(!free_blocks(self.free).contains(upper));
        assert(v.blocks(Some(half)) =~= all.remove(c).insert(half).insert(upper));
        assert(v.lists_ok(Some(half)));
        assert(v.blocks_ok(Some(half)));
        assert(v.counts_ok(Some(half)));
    }

    /// Hand the block out.
    pub proof fn lemma_grant(self, c: Block, lo: int, hi: int)
        requires
            self.inv(Some(c), lo, hi),
        ensures
            self.granted(c).inv(None, lo, hi),
    {
        assert(self.blocks(Some(c)).contains(c));
        lemma_block_bounds(self, Some(c), lo, hi, c);
        blocks::lemma_block_pos(c);
        assert(!live_blocks(self.live).contains(c));
        lemma_live_insert(self.live, c.order, c.addr);
        let v = self.granted(c);
        assert(v.blocks(None) =~= self.blocks(Some(c)));
    }

    /// Take a block that is handed out back in hand.
    pub proof fn lemma_revoke(self, o: int, a: int, lo: int, hi: int)
        requires
            self.inv(None, lo, hi),
            0 <= o < MAX_ORDER,
            0 <= a <= usize::MAX,
            self.live[o].contains(a as usize),
        ensures
            ({
                let c = Block { addr: a, order: o };
                &&& self.revoked(c).inv(Some(c), lo, hi)
                &&& self.used >= c.size()
                &&& live_blocks(self.live).contains(c)
            }),
    {
        let c = Block { addr: a, order: o };
        lemma_live_remove(self.live, o, a);
        let v = self.revoked(c);
        assert(v.blocks(Some(c)) =~= self.blocks(None));
        lemma_weight_nonneg(live_counts(v.live));
    }

    /// Merge the block in hand with its buddy, which is free.
    pub proof fn lemma_merge(self, c: Block, lo: int, hi: int)
        requires
            self.inv(Some(c), lo, hi),
            c.order + 1 < MAX_ORDER,
            linked_list::is_node(self.free[c.order], c.buddy().addr),
        ensures
            self.with_free(removed(self.free, c.order, c.buddy().addr)).inv(
                Some(c.parent()),
                lo,
                hi,
            ),
            free_blocks(self.free).contains(c.buddy()),
            free_blocks(removed(self.free, c.order, c.buddy().addr)) == free_blocks(
                self.free,
            ).remove(c.buddy()),
    {
        let b = c.buddy();
        let p = c.parent();
        let all = self.blocks(Some(c));
        assert(all.contains(c));
        assert(free_blocks(self.free).contains(b));
        assert(all.contains(b));
        blocks::lemma_buddy_block(c);
        blocks::lemma_tiling_merge(all, c);
        blocks::lemma_block_pos(c);
        assert(!all.contains(p)) by {
            assert(p.has(c.addr) && c.has(c.addr));
            if all.contains(p) {
                blocks::lemma_tiling_unique(all, c, p, c.addr);
            }
        }
        lemma_removed(self.free, c.order, b.addr);
        let v = self.with_free(removed(self.free, c.order, b.addr));
        assert(v.blocks(Some(p)) =~= all.remove(c).remove(b).insert(p));
        assert(v.lists_ok(Some(p)));
        assert forall|d: Block, x: int| #[trigger]
            v.blocks(Some(p)).contains(d) && #[trigger] d.has(x) implies v.regions.contains(x) by {
            if d == p {
                if c.has(x) {
                } else {
                    assert(b.has(x));
                }
            } else {
                assert(all.contains(d));
            }
        }
        assert(v.blocks_ok(Some(p)));
        assert(v.counts_ok(Some(p)));
    }

    /// Put the block in hand into its free list.
    pub proof fn lemma_put(self, c: Block, lo: int, hi: int)
        requires
            self.inv(Some(c), lo, hi),
        ensures
            self.with_free(pushed(self.free, c.order, c.addr)).inv(None, lo, hi),
            free_blocks(pushed(self.free, c.order, c.addr)) == free_blocks(self.free).insert(c),
            !linked_list::is_node(self.free[c.order], c.addr),
    {
        assert(self.blocks(Some(c)).contains(c));
        lemma_block_bounds(self, Some(c), lo, hi, c);
        blocks::lemma_block_pos(c);
        assert(!free_blocks(self.free).contains(c));
        lemma_pushed(self.free, c.order, c.addr);
        let v = self.with_free(pushed(self.free, c.order, c.addr));
        assert(v.blocks(None) =~= self.blocks(Some(c)));
    }

    /// Put a stretch of the regions that is in no block yet in hand.
    pub proof fn lemma_fresh(self, c: Block, lo: int, hi: int)
        requires
            self.inv(None, lo, hi),
            c.natural(),
            MIN_ORDER <= c.order < MAX_ORDER,
            forall|x: int| #[trigger] c.has(x) ==> self.regions.contains(x),
            forall|b: Block| #[trigger] self.blocks(None).contains(b) ==> b.disjoint(c),
        ensures
            self.salvaged(c).inv(Some(c), lo, hi),
    {
        let all = self.blocks(None);
        blocks::lemma_block_pos(c);
        assert(!all.contains(c));
        blocks::lemma_tiling_insert(all, c);
        let v = self.salvaged(c);
        assert(v.blocks(Some(c)) =~= all.insert(c));
    }

    /// Enter a new region; all of it counts as waste until it is cut up.
    pub proof fn lemma_enter(self, start: int, end: int, lo: int, hi: int)
        requires
            self.inv(None, lo, hi),
            lo <= start <= end <= hi,
            forall|x: int| start <= x < end ==> !#[trigger] self.regions.contains(x),
        ensures
            self.entered(start, end).inv(None, lo, hi),
    {
        let r = vstd::set_lib::set_int_range(start, end);
        vstd::set_lib::lemma_int_range(start, end);
        assert(self.regions.disjoint(r));
        vstd::set_lib::lemma_set_disjoint_lens(self.regions, r);
        let v = self.entered(start, end);
        assert(v.blocks(None) == self.blocks(None));
    }

    /// All bytes ever counted fit into an address.
    pub proof fn lemma_counts_fit(self, hand: Option<Block>, lo: int, hi: int)
        requires
            self.inv(hand, lo, hi),
        ensures
            self.total + self.waste <= hi - lo,
            0 <= self.used <= self.total,
    {
        let all = vstd::set_lib::set_int_range(lo, hi);
        vstd::set_lib::lemma_int_range(lo, hi);
        assert(self.regions.subset_of(all));
        vstd::set_lib::lemma_len_subset(self.regions, all);
        lemma_weight_nonneg(live_counts(self.live));
        lemma_weight_nonneg(free_counts(self.free));
        if let Some(c) = hand {
            blocks::lemma_block_pos(c);
        }
    }
}

} // verus!
