//! What the figures of a heap snapshot mean.

use crate::blocks;
use crate::blocks::Block;
use crate::buddy_model;
use crate::heap;
use crate::heap::{HeapView, Layout};
use crate::powers;
use crate::slab;
use crate::slab::{SlabView, REFILL_BYTES};
use vstd::prelude::*;

verus! {

/// The bytes of some blocks.
pub open spec fn bytes_of(s: Set<Block>) -> Set<int> {
    Set::new(|a: int| blocks::covers(s, a))
}

/// The blocks that the buddy allocator has granted directly, not as slabs.
pub open spec fn direct_blocks(h: HeapView) -> Set<Block> {
    Set::new(
        |b: Block|
            buddy_model::live_blocks(h.buddy.live).contains(b) && forall|i: int|
                0 <= i < h.slabs.len() ==> !(#[trigger] h.slabs[i]).slabs.contains(b),
    )
}

/// The slabs of the first `k` classes.
spec fn slabs_upto(vs: Seq<SlabView>, k: int) -> Set<Block> {
    Set::new(|b: Block| exists|i: int| 0 <= i < k && (#[trigger] vs[i]).slabs.contains(b))
}

/// Blocks that lie apart have no byte in common.
proof fn lemma_bytes_union(s: Set<Block>, t: Set<Block>)
    requires
        forall|b: Block, c: Block| #[trigger]
            s.contains(b) && #[trigger] t.contains(c) ==> b.disjoint(c),
    ensures
        bytes_of(s.union(t)) == bytes_of(s).union(bytes_of(t)),
        bytes_of(s).disjoint(bytes_of(t)),
{
    let u = s.union(t);
    assert forall|a: int| blocks::covers(u, a) <==> blocks::covers(s, a) || blocks::covers(t, a) by {
        if blocks::covers(u, a) {
            let b = choose|b: Block| #[trigger] u.contains(b) && b.has(a);
            assert(s.contains(b) || t.contains(b));
        }
        if blocks::covers(s, a) {
            let b = choose|b: Block| #[trigger] s.contains(b) && b.has(a);
            assert(u.contains(b));
        }
        if blocks::covers(t, a) {
            let b = choose|b: Block| #[trigger] t.contains(b) && b.has(a);
            assert(u.contains(b));
        }
    }
    assert(bytes_of(u) =~= bytes_of(s).union(bytes_of(t)));
    assert forall|a: int| bytes_of(s).contains(a) implies !bytes_of(t).contains(a) by {
        let b = choose|b: Block| #[trigger] s.contains(b) && b.has(a);
        if bytes_of(t).contains(a) {
            let c = choose|c: Block| #[trigger] t.contains(c) && c.has(a);
            assert(b.disjoint(c));
        }
    }
}

/// One more block adds its own bytes.
proof fn lemma_bytes_insert(s: Set<Block>, b: Block)
    requires
        blocks::tiling(s.insert(b)),
        !s.contains(b),
        bytes_of(s).finite(),
    ensures
        bytes_of(s.insert(b)).finite(),
        bytes_of(s.insert(b)).len() == bytes_of(s).len() + b.size(),
{
    let one = Set::<Block>::empty().insert(b);
    assert(s.insert(b) =~= s.union(one));
    assert forall|c: Block, d: Block| #[trigger]
        s.contains(c) && #[trigger] one.contains(d) implies c.disjoint(d) by {
        assert(s.insert(b).contains(c) && s.insert(b).contains(b));
    }
    lemma_bytes_union(s, one);
    blocks::lemma_block_pos(b);
    vstd::set_lib::lemma_int_range(b.addr, b.end());
    let range = vstd::set_lib::set_int_range(b.addr, b.end());
    assert forall|a: int| bytes_of(one).contains(a) <==> range.contains(a) by {
        if b.has(a) {
            assert(one.contains(b));
        }
    }
    assert(bytes_of(one) =~= range);
    vstd::set_lib::lemma_set_disjoint_lens(bytes_of(s), range);
}

/// What counts as used are the bytes of the granted blocks.
proof fn lemma_used_bytes(live: Seq<Set<usize>>)
    requires
        forall|o: int| 0 <= o < live.len() ==> (#[trigger] live[o]).finite(),
        blocks::tiling(buddy_model::live_blocks(live)),
    ensures
        bytes_of(buddy_model::live_blocks(live)).finite(),
        bytes_of(buddy_model::live_blocks(live)).len() == buddy_model::weight(
            buddy_model::live_counts(live),
        ),
    decreases buddy_model::weight(buddy_model::live_counts(live)),
{
    let all = buddy_model::live_blocks(live);
    let counts = buddy_model::live_counts(live);
    if exists|b: Block| all.contains(b) {
        let b = choose|b: Block| all.contains(b);
        let a = b.addr as usize;
        let o = b.order;
        let rest = live.update(o, live[o].remove(a));
        buddy_model::lemma_live_remove(live, o, b.addr);
        buddy_model::lemma_weight_nonneg(buddy_model::live_counts(rest));
        powers::lemma_p2_pos(o);
        assert(b == (Block { addr: b.addr, order: o }));
        let others = buddy_model::live_blocks(rest);
        assert(others == all.remove(b));
        blocks::lemma_tiling_subset(others, all);
        lemma_used_bytes(rest);
        assert(others.insert(b) =~= all);
        lemma_bytes_insert(others, b);
    } else {
        assert forall|o: int| 0 <= o < counts.len() implies counts[o] == 0 by {
            assert forall|x: usize| !live[o].contains(x) by {
                let b = Block { addr: x as int, order: o };
                assert(!all.contains(b));
            }
            assert(live[o] =~= Set::empty());
        }
        buddy_model::lemma_weight_zero(counts);
        assert(bytes_of(all) =~= Set::empty());
    }
}

/// Slabs of one size have that many bytes each.
proof fn lemma_slab_bytes(slabs: Set<Block>, bytes: int)
    requires
        slabs.finite(),
        blocks::tiling(slabs),
        forall|s: Block| #[trigger] slabs.contains(s) ==> s.size() == bytes,
    ensures
        bytes_of(slabs).finite(),
        bytes_of(slabs).len() == slabs.len() * bytes,
    decreases slabs.len(),
{
    if slabs.len() == 0 {
        assert(slabs =~= Set::empty());
        assert(bytes_of(slabs) =~= Set::empty());
        assert(slabs.len() * bytes == 0) by (nonlinear_arith)
            requires
                slabs.len() == 0,
        ;
    } else {
        let s = slabs.choose();
        let rest = slabs.remove(s);
        blocks::lemma_tiling_subset(rest, slabs);
        lemma_slab_bytes(rest, bytes);
        assert(rest.insert(s) =~= slabs);
        lemma_bytes_insert(rest, s);
        assert(slabs.len() * bytes == rest.len() * bytes + bytes) by (nonlinear_arith)
            requires
                slabs.len() == rest.len() + 1,
        ;
    }
}

proof fn lemma_provisioned(h: HeapView, k: int, lo: int, hi: int)
    requires
        h.inv(lo, hi),
        0 <= k <= h.slabs.len(),
    ensures
        bytes_of(slabs_upto(h.slabs, k)).finite(),
        bytes_of(slabs_upto(h.slabs, k)).len() == heap::provisioned_bytes(h.slabs, k),
        heap::provisioned_bytes(h.slabs, k) % 4096 == 0,
    decreases k,
{
    let vs = h.slabs;
    if k == 0 {
        assert(bytes_of(slabs_upto(vs, k)) =~= Set::empty());
    } else {
        lemma_provisioned(h, k - 1, lo, hi);
        let v = vs[k - 1];
        let bytes = REFILL_BYTES[k - 1] as int;
        let below = slabs_upto(vs, k - 1);
        assert(slab::fully_cut(v, bytes));
        assert(v.backed(h.buddy));
        blocks::lemma_tiling_subset(v.slabs, h.buddy.blocks(None));
        lemma_slab_bytes(v.slabs, bytes);
        assert forall|b: Block, c: Block| #[trigger]
            below.contains(b) && #[trigger] v.slabs.contains(c) implies b.disjoint(c) by {
            let i = choose|i: int| 0 <= i < k - 1 && (#[trigger] vs[i]).slabs.contains(b);
            assert(vs[i].slabs.contains(b) && vs[k - 1].slabs.contains(c));
        }
        lemma_bytes_union(below, v.slabs);
        assert(slabs_upto(vs, k) =~= below.union(v.slabs)) by {
            assert forall|b: Block| slabs_upto(vs, k).contains(b) <==> below.union(v.slabs).contains(
                b,
            ) by {
                if slabs_upto(vs, k).contains(b) {
                    let i = choose|i: int| 0 <= i < k && (#[trigger] vs[i]).slabs.contains(b);
                    if i < k - 1 {
                        assert(below.contains(b));
                    }
                }
                if below.contains(b) {
                    let i = choose|i: int| 0 <= i < k - 1 && (#[trigger] vs[i]).slabs.contains(b);
                    assert(vs[i].slabs.contains(b));
                }
                if v.slabs.contains(b) {
                    assert(vs[k - 1].slabs.contains(b));
                }
            }
        }
        vstd::set_lib::lemma_set_disjoint_lens(bytes_of(below), bytes_of(v.slabs));
        let n = v.slabs.len();
        slab::lemma_class_sizes(k - 1);
        assert(bytes == 4096 || bytes == 8192) by {
            let i = k - 1;
            assert(i == 0 || i == 1 || i == 2 || i == 3 || i == 4 || i == 5 || i == 6 || i == 7);
        }
        assert((n * bytes) % 4096 == 0);
    }
}

/// The figures of a snapshot are ordered: what is free in the caches is part
/// of what was provisioned to them, that is part of what the buddy allocator
/// has granted, and that is part of its memory. Slabs come in whole pages.
/// What is granted beyond the slabs are the bytes that were granted directly.
pub proof fn law_snapshot(h: HeapView, lo: int, hi: int)
    requires
        h.inv(lo, hi),
    ensures
        ({
            let n = h.slabs.len() as int;
            let provisioned = heap::provisioned_bytes(h.slabs, n);
            &&& 0 <= heap::free_bytes(h.slabs, n) <= provisioned
            &&& provisioned <= h.buddy.used <= h.buddy.total
            &&& provisioned % 4096 == 0
            &&& bytes_of(direct_blocks(h)).finite()
            &&& h.buddy.used - provisioned == bytes_of(direct_blocks(h)).len()
        }),
{
    let n = h.slabs.len() as int;
    let live = buddy_model::live_blocks(h.buddy.live);
    let slabs = slabs_upto(h.slabs, n);
    let direct = direct_blocks(h);
    heap::lemma_slab_bytes(h.slabs, lo, hi);
    h.buddy.lemma_counts_fit(None, lo, hi);
    lemma_provisioned(h, n, lo, hi);
    blocks::lemma_tiling_subset(live, h.buddy.blocks(None));
    lemma_used_bytes(h.buddy.live);
    assert forall|b: Block| live.contains(b) <==> slabs.union(direct).contains(b) by {
        if slabs.contains(b) {
            let i = choose|i: int| 0 <= i < n && (#[trigger] h.slabs[i]).slabs.contains(b);
            assert(h.slabs[i].backed(h.buddy));
        }
        if live.contains(b) && !slabs.contains(b) {
            assert forall|i: int| 0 <= i < h.slabs.len() implies !(#[trigger] h.slabs[i]).slabs.contains(
                b,
            ) by {
                if h.slabs[i].slabs.contains(b) {
                    assert(slabs.contains(b));
                }
            }
        }
    }
    assert(live =~= slabs.union(direct));
    assert forall|b: Block, c: Block| #[trigger]
        slabs.contains(b) && #[trigger] direct.contains(c) implies b.disjoint(c) by {
        let i = choose|i: int| 0 <= i < n && (#[trigger] h.slabs[i]).slabs.contains(b);
        assert(!h.slabs[i].slabs.contains(c));
        assert(slabs.union(direct).contains(b) && slabs.union(direct).contains(c));
        assert(live.contains(b) && live.contains(c));
    }
    lemma_bytes_union(slabs, direct);
    assert(bytes_of(direct).subset_of(bytes_of(live)));
    vstd::set_lib::lemma_set_subset_finite(bytes_of(live), bytes_of(direct));
    vstd::set_lib::lemma_set_disjoint_lens(bytes_of(slabs), bytes_of(direct));
}

/// The blocks that were granted directly are the live allocations that no slab
/// class serves.
pub proof fn law_direct_blocks(h: HeapView, l: Layout, p: usize)
    requires
        l.class() is None,
    ensures
        h.granted(l, p) <==> direct_blocks(h).contains(
            Block { addr: p as int, order: l.order() },
        ),
{
}

} // verus!
