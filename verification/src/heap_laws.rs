//! What holds of a heap as a whole.

use crate::blocks;
use crate::blocks::Block;
use crate::buddy;
use crate::buddy_laws;
use crate::buddy_model;
use crate::heap;
use crate::heap::{HeapView, Layout};
use crate::linked_list;
use crate::memory::Memory;
use crate::powers;
use crate::slab;
use crate::slab::{SlabView, CLASS_SIZES, REFILL_BYTES};
use crate::stats;
use vstd::prelude::*;

verus! {

/// The two layouts are served from one free list.
pub open spec fn same_kind(l: Layout, m: Layout) -> bool {
    l.class() == m.class() && (l.class() is None ==> l.order() == m.order())
}

/// The bytes that are handed out for `l` at `p`.
pub open spec fn holds(l: Layout, p: usize, a: int) -> bool {
    p <= a < p + l.room()
}

/// The granted buddy block in which an allocation lies.
proof fn lemma_home(h: HeapView, l: Layout, p: usize, lo: int, hi: int) -> (b: Block)
    requires
        h.inv(lo, hi),
        h.granted(l, p),
    ensures
        buddy_model::live_blocks(h.buddy.live).contains(b),
        h.buddy.blocks(None).contains(b),
        b.addr <= p,
        p + l.room() <= b.end(),
        lo <= b.addr,
        b.end() <= hi,
        l.room() > 0,
        match l.class() {
            Some(i) => 0 <= i < h.slabs.len() && h.slabs[i].slabs.contains(b)
                && h.slabs[i].objs.contains(p) && h.slabs[i].obj_size == l.room(),
            None => b == (Block { addr: p as int, order: l.order() }),
        },
{
    heap::lemma_class(l);
    let b = match l.class() {
        Some(i) => {
            let v = h.slabs[i];
            slab::lemma_class_sizes(i);
            powers::lemma_p2_pos(i + 3);
            assert(v.inv(lo, hi) && v.backed(h.buddy));
            choose|s: Block| #[trigger] v.slabs.contains(s) && slab::inside(s, p, v.obj_size)
        },
        None => {
            let b = Block { addr: p as int, order: l.order() };
            blocks::lemma_block_pos(b);
            b
        },
    };
    assert(h.buddy.blocks(None).contains(b));
    buddy_model::lemma_block_bounds(h.buddy, None, lo, hi, b);
    b
}

/// Two live allocations never overlap.
pub proof fn law_no_overlap(
    h: HeapView,
    l: Layout,
    p: usize,
    m: Layout,
    q: usize,
    lo: int,
    hi: int,
)
    requires
        h.inv(lo, hi),
        h.granted(l, p),
        h.granted(m, q),
        p != q || !same_kind(l, m),
    ensures
        p + l.room() <= q || q + m.room() <= p,
{
    heap::lemma_class(l);
    heap::lemma_class(m);
    let b = lemma_home(h, l, p, lo, hi);
    let c = lemma_home(h, m, q, lo, hi);
    if b != c {
        assert(b.disjoint(c));
    } else {
        match (l.class(), m.class()) {
            (Some(i), Some(j)) => {
                if i != j {
                    blocks::lemma_block_pos(b);
                    assert(h.slabs[i].slabs.contains(b) && h.slabs[j].slabs.contains(c));
                    assert(b.disjoint(c));
                } else {
                    assert(h.slabs[i].inv(lo, hi));
                    assert(h.slabs[i].objs.contains(p) && h.slabs[i].objs.contains(q));
                }
            },
            (Some(i), None) => {
                assert(!h.slabs[i].slabs.contains(c));
            },
            (None, Some(j)) => {
                assert(!h.slabs[j].slabs.contains(b));
            },
            (None, None) => {},
        }
    }
}

/// No byte of a live allocation is free, so the heap does not write to it.
pub proof fn law_live_is_not_free(h: HeapView, l: Layout, p: usize, a: int, lo: int, hi: int)
    requires
        h.inv(lo, hi),
        h.granted(l, p),
        holds(l, p, a),
    ensures
        !h.is_free(a),
{
    heap::lemma_class(l);
    let b = lemma_home(h, l, p, lo, hi);
    assert(b.has(a));
    if buddy_laws::is_free(h.buddy, a) {
        let f = choose|f: Block| #[trigger]
            buddy_model::free_blocks(h.buddy.free).contains(f) && f.has(a);
        let all = h.buddy.blocks(None);
        assert(all.contains(f) && all.contains(b));
        blocks::lemma_tiling_unique(all, f, b, a);
    }
    if exists|i: int| 0 <= i < h.slabs.len() && #[trigger] h.in_free_object(i, a) {
        let i = choose|i: int| 0 <= i < h.slabs.len() && #[trigger] h.in_free_object(i, a);
        let v = h.slabs[i];
        assert(v.inv(lo, hi) && v.backed(h.buddy));
        let x = choose|x: usize| #[trigger] v.free.contains(x) && x <= a < x + v.obj_size;
        assert(v.objs.contains(x));
        let s = choose|s: Block| #[trigger] v.slabs.contains(s) && slab::inside(s, x, v.obj_size);
        let all = h.buddy.blocks(None);
        assert(s.has(a));
        assert(all.contains(s) && all.contains(b));
        blocks::lemma_tiling_unique(all, s, b, a);
        match l.class() {
            Some(j) => {
                if i != j {
                    assert(h.slabs[i].slabs.contains(s) && h.slabs[j].slabs.contains(b));
                    assert(s.disjoint(b));
                } else if x != p {
                    assert(v.objs.contains(x) && v.objs.contains(p));
                }
            },
            None => {
                assert(!h.slabs[i].slabs.contains(b));
            },
        }
    }
}

/// What a request is answered is aligned, large enough, in memory, and made
/// of bytes that were free. It is live afterwards.
pub proof fn law_alloc_fits(h: HeapView, l: Layout, lo: int, hi: int)
    requires
        h.inv(lo, hi),
        l.valid(),
        h.served(l) is Some,
    ensures
        ({
            let p = h.served(l).unwrap();
            &&& p != 0
            &&& p % l.align == 0
            &&& l.size <= l.room()
            &&& lo <= p
            &&& p + l.room() <= hi
            &&& forall|a: int| holds(l, p, a) ==> #[trigger] h.is_free(a)
            &&& h.after_alloc(l).granted(l, p)
        }),
{
    heap::lemma_class(l);
    law_alloc_fresh(h, l, lo, hi);
    let p = h.served(l).unwrap();
    let k = choose|k: int| 0 <= k && l.align == #[trigger] powers::p2(k);
    match l.class() {
        Some(i) => {
            slab::lemma_class_sizes(i);
            let v = h.slabs[i];
            let bytes = REFILL_BYTES[i] as int;
            let w = v.stocked(h.buddy, bytes);
            assert(v.inv(lo, hi) && v.backed(h.buddy));
            slab::lemma_stocked(h.slabs, h.buddy, i, lo, hi);
            assert(w.free.contains(p));
            assert(w.objs.contains(p));
            if k > i + 3 {
                powers::lemma_p2_mono(i + 3, k);
            }
            assert(p as int % l.align as int == 0) by {
                reveal(powers::aligned);
                powers::lemma_aligned_mono(p as int, k, i + 3);
            }
            let s = choose|s: Block| #[trigger]
                w.slabs.contains(s) && slab::inside(s, p, w.obj_size);
            if v.refills(h.buddy, bytes) {
                assert forall|a: int| holds(l, p, a) implies #[trigger] h.is_free(a) by {
                    assert(buddy_laws::is_free(h.buddy, a));
                }
            } else {
                assert forall|a: int| holds(l, p, a) implies #[trigger] h.is_free(a) by {
                    assert(v.free.contains(p));
                    assert(h.in_free_object(i, a));
                }
            }
        },
        None => {
            let o = l.order();
            let c = buddy::alloc_block(h.buddy, o);
            buddy::lemma_least_order(l.need(), buddy::MIN_ORDER as int);
            buddy_laws::lemma_after_alloc(h.buddy, o, lo, hi);
            buddy_laws::law_alloc_fits(h.buddy, l.want(), l.align as int, k, lo, hi);
            assert forall|a: int| holds(l, p, a) implies #[trigger] h.is_free(a) by {
                assert(c.has(a));
            }
        },
    }
}

/// What a request is answered was not live before and is live afterwards.
pub proof fn law_alloc_fresh(h: HeapView, l: Layout, lo: int, hi: int)
    requires
        h.inv(lo, hi),
        h.served(l) is Some,
    ensures
        !h.granted(l, h.served(l).unwrap()),
        h.after_alloc(l).granted(l, h.served(l).unwrap()),
{
    heap::lemma_class(l);
    let p = h.served(l).unwrap();
    match l.class() {
        Some(i) => {
            let w = h.slabs[i].stocked(h.buddy, REFILL_BYTES[i] as int);
            slab::lemma_stocked(h.slabs, h.buddy, i, lo, hi);
            assert(w.free.contains(p));
            assert(!w.free.drop_first().contains(p)) by {
                if w.free.drop_first().contains(p) {
                    let n = choose|n: int|
                        0 <= n < w.free.drop_first().len() && w.free.drop_first()[n] == p;
                    assert(w.free[n + 1] == w.free[0]);
                }
            }
        },
        None => {
            let o = l.order();
            let c = buddy::alloc_block(h.buddy, o);
            buddy::lemma_least_order(l.need(), buddy::MIN_ORDER as int);
            buddy_laws::lemma_after_alloc(h.buddy, o, lo, hi);
            let w = buddy::after_alloc(h.buddy, o);
            assert(w.blocks(None).contains(c));
            buddy_model::lemma_block_bounds(w, None, lo, hi, c);
            assert forall|i: int| 0 <= i < h.slabs.len() implies !(#[trigger] h.slabs[i]).slabs.contains(
                c,
            ) by {
                assert(h.slabs[i].backed(h.buddy));
            }
        },
    }
}

/// A request leaves every live allocation live.
pub proof fn law_alloc_keeps(h: HeapView, l: Layout, m: Layout, q: usize, lo: int, hi: int)
    requires
        h.inv(lo, hi),
        h.granted(m, q),
    ensures
        h.after_alloc(l).granted(m, q),
{
    heap::lemma_class(l);
    heap::lemma_class(m);
    let w = h.after_alloc(l);
    match l.class() {
        Some(i) => {
            let bytes = REFILL_BYTES[i] as int;
            let v = h.slabs[i];
            let st = v.stocked(h.buddy, bytes);
            assert(v.inv(lo, hi) && v.backed(h.buddy));
            slab::lemma_class_sizes(i);
            slab::lemma_stocked(h.slabs, h.buddy, i, lo, hi);
            let o = buddy::order_needed(bytes, v.obj_size);
            let c = buddy::alloc_block(h.buddy, o);
            if v.refills(h.buddy, bytes) {
                buddy::lemma_least_order(bytes, buddy::MIN_ORDER as int);
                buddy_laws::lemma_after_alloc(h.buddy, o, lo, hi);
            }
            match m.class() {
                Some(j) => {
                    if i == j {
                        if w.slabs[i].free.contains(q) {
                            let k = choose|k: int|
                                0 <= k < w.slabs[i].free.len() && w.slabs[i].free[k] == q;
                            assert(st.free[k + 1] == q);
                            assert(st.free.contains(q));
                        }
                    }
                },
                None => {
                    let b = Block { addr: q as int, order: m.order() };
                    assert forall|j: int| 0 <= j < w.slabs.len() implies !(#[trigger] w.slabs[j]).slabs.contains(
                        b,
                    ) by {
                        assert(!h.slabs[j].slabs.contains(b));
                    }
                },
            }
        },
        None => {
            if buddy::can_alloc(h.buddy, l.order()) {
                buddy::lemma_least_order(l.need(), buddy::MIN_ORDER as int);
                buddy_laws::lemma_after_alloc(h.buddy, l.order(), lo, hi);
            }
        },
    }
}

/// More memory leaves every live allocation live.
pub proof fn law_add_region_keeps(h: HeapView, start: int, end: int, m: Layout, q: usize)
    ensures
        ({
            let w = HeapView { buddy: buddy::after_add(h.buddy, start, end), ..h };
            w.granted(m, q) <==> h.granted(m, q)
        }),
{
    let w = HeapView { buddy: buddy::after_add(h.buddy, start, end), ..h };
    let b = Block { addr: q as int, order: m.order() };
    assert(w.buddy.live == h.buddy.live && w.slabs == h.slabs);
    assert forall|i: int| 0 <= i < h.slabs.len() implies (!(#[trigger] h.slabs[i]).slabs.contains(b)
        <==> !w.slabs[i].slabs.contains(b)) by {}
}

/// Giving one allocation back leaves every other one live, and ends the one
/// that was given back.
pub proof fn law_dealloc_keeps(
    h: HeapView,
    l: Layout,
    p: usize,
    m: Layout,
    q: usize,
    lo: int,
    hi: int,
)
    requires
        h.inv(lo, hi),
        h.granted(l, p),
    ensures
        !h.after_dealloc(l, p).granted(l, p),
        h.granted(m, q) && (p != q || !same_kind(l, m)) ==> h.after_dealloc(l, p).granted(m, q),
{
    heap::lemma_class(l);
    heap::lemma_class(m);
    let w = h.after_dealloc(l, p);
    match l.class() {
        Some(i) => {
            let v = h.slabs[i];
            let longer = seq![p] + v.free;
            assert(longer[0] == p);
            assert(longer.contains(p));
            if h.granted(m, q) && (p != q || !same_kind(l, m)) {
                match m.class() {
                    Some(j) => {
                        if i == j && w.slabs[i].free.contains(q) {
                            let k = choose|k: int| 0 <= k < longer.len() && longer[k] == q;
                            assert(v.free[k - 1] == q);
                            assert(v.free.contains(q));
                        }
                    },
                    None => {
                        let b = Block { addr: q as int, order: m.order() };
                        assert forall|j: int|
                            0 <= j < w.slabs.len() implies !(#[trigger] w.slabs[j]).slabs.contains(
                            b,
                        ) by {
                            assert(!h.slabs[j].slabs.contains(b));
                        }
                    },
                }
            }
        },
        None => {
            let b = Block { addr: p as int, order: l.order() };
            buddy_laws::lemma_after_dealloc(h.buddy, b, lo, hi);
        },
    }
}

/// An object that was given back to its slab class is the next to be handed
/// out there.
pub proof fn law_last_in_first_out(h: HeapView, l: Layout, p: usize)
    requires
        l.class() is Some,
        h.slabs.len() == CLASS_SIZES@.len(),
    ensures
        h.after_dealloc(l, p).served(l) == Some(p),
        h.after_dealloc(l, p).after_alloc(l).slabs == h.slabs,
        h.after_dealloc(l, p).after_alloc(l).buddy == h.buddy,
{
    heap::lemma_class(l);
    let i = l.class().unwrap();
    let v = h.slabs[i];
    let w = v.after_dealloc(p);
    assert(w.free.drop_first() =~= v.free);
    assert(w.with_free(v.free) == v);
    assert(h.slabs.update(i, w).update(i, v) =~= h.slabs);
}

/// Owners of allocations may write to all of their bytes: writes outside what
/// is free leave the heap intact.
pub proof fn law_client_writes(h: HeapView, before: &Memory, after: &Memory)
    requires
        h.inv(before.lo(), before.hi()),
        h.threaded(before),
        after.wf(),
        after.same_outside(before, |a: int| !h.is_free(a)),
    ensures
        h.threaded(after),
{
    assert forall|a: int| after.mapped(a) && buddy_laws::is_free(h.buddy, a) implies #[trigger] after.word(
        a,
    ) == before.word(a) by {
        assert(h.is_free(a));
    }
    buddy_laws::law_client_writes(h.buddy, before, after);
    assert forall|i: int| 0 <= i < h.slabs.len() implies linked_list::threaded(
        (#[trigger] h.slabs[i]).free,
        after,
    ) by {
        let v = h.slabs[i];
        assert(v.inv(before.lo(), before.hi()));
        assert(linked_list::threaded(v.free, before));
        assert forall|k: int| 0 <= k < v.free.len() implies after.word(#[trigger] v.free[k] as int)
            == before.word(v.free[k] as int) by {
            let x = v.free[k];
            assert(v.free.contains(x));
            assert(h.in_free_object(i, x as int));
            assert(h.is_free(x as int));
            assert(before.mapped(x as int));
        }
        linked_list::lemma_threaded_frame(v.free, before, after);
    }
}

/// Every request is counted once as slab or buddy, and once as served or not;
/// a request that is not served changes nothing else that is counted.
pub proof fn law_requests_counted(h: HeapView, l: Layout)
    requires
        h.slabs.len() == CLASS_SIZES@.len(),
    ensures
        ({
            let s = h.stats;
            let t = h.after_alloc(l).stats;
            &&& (t.slab_hits, t.buddy_calls) == if l.class() is Some {
                (s.slab_hits.wrapping_add(1), s.buddy_calls)
            } else {
                (s.slab_hits, s.buddy_calls.wrapping_add(1))
            }
            &&& (t.allocs, t.oom) == if h.served(l) is Some {
                (s.allocs.wrapping_add(1), s.oom)
            } else {
                (s.allocs, s.oom.wrapping_add(1))
            }
            &&& h.served(l) is None ==> t.bytes_allocated == s.bytes_allocated
            &&& t.frees == s.frees
            &&& t.bytes_freed == s.bytes_freed
        }),
{
}

/// A request below the threshold is refused only if its class is empty and
/// the buddy allocator cannot refill it.
pub proof fn law_slab_refusal(h: HeapView, l: Layout, lo: int, hi: int)
    requires
        h.inv(lo, hi),
        l.class() is Some,
    ensures
        ({
            let i = l.class().unwrap();
            h.served(l) is None <==> h.slabs[i].free.len() == 0 && !buddy::can_alloc(
                h.buddy,
                buddy::order_needed(REFILL_BYTES[i] as int, CLASS_SIZES[i] as int),
            )
        }),
{
    heap::lemma_class(l);
    let i = l.class().unwrap();
    let v = h.slabs[i];
    assert(v.inv(lo, hi) && v.obj_size == CLASS_SIZES[i]);
    slab::lemma_class_sizes(i);
    let bytes = REFILL_BYTES[i] as int;
    let size = v.obj_size;
    assert(bytes / size > 0) by (nonlinear_arith)
        requires
            0 < size <= bytes,
    ;
}

/// Requests and frees never leave two free buddies unmerged. A heap without
/// memory has none.
pub proof fn law_stays_tidy(h: HeapView, l: Layout, p: usize, lo: int, hi: int)
    requires
        h.inv(lo, hi),
        buddy_laws::tidy(h.buddy),
    ensures
        buddy_laws::tidy(HeapView::empty().buddy),
        buddy_laws::tidy(h.after_alloc(l).buddy),
        h.granted(l, p) ==> buddy_laws::tidy(h.after_dealloc(l, p).buddy),
{
    heap::lemma_class(l);
    match l.class() {
        Some(i) => {
            let bytes = REFILL_BYTES[i] as int;
            let v = h.slabs[i];
            assert(v.inv(lo, hi));
            slab::lemma_class_sizes(i);
            if v.refills(h.buddy, bytes) {
                buddy::lemma_least_order(bytes, buddy::MIN_ORDER as int);
                buddy_laws::lemma_after_alloc(
                    h.buddy,
                    buddy::order_needed(bytes, v.obj_size),
                    lo,
                    hi,
                );
            }
        },
        None => {
            if buddy::can_alloc(h.buddy, l.order()) {
                buddy::lemma_least_order(l.need(), buddy::MIN_ORDER as int);
                buddy_laws::lemma_after_alloc(h.buddy, l.order(), lo, hi);
            }
            if h.granted(l, p) {
                buddy_laws::lemma_after_dealloc(
                    h.buddy,
                    Block { addr: p as int, order: l.order() },
                    lo,
                    hi,
                );
            }
        },
    }
}

/// As long as freed buddies are merged, a request above the threshold is
/// served exactly if an aligned run of the bytes that it takes is free.
pub proof fn law_large_served(h: HeapView, l: Layout, lo: int, hi: int)
    requires
        h.inv(lo, hi),
        l.class() is None,
        buddy_laws::tidy(h.buddy),
        l.order() < buddy::MAX_ORDER,
    ensures
        h.served(l) is Some <==> exists|c: Block|
            c.natural() && c.size() == l.room() && c.order == l.order() && forall|x: int|
                c.has(x) ==> #[trigger] buddy_laws::is_free(h.buddy, x),
{
    let o = l.order();
    buddy::lemma_least_order(l.need(), buddy::MIN_ORDER as int);
    buddy_laws::law_alloc_succeeds(h.buddy, o, lo, hi);
    if buddy::can_alloc(h.buddy, o) {
        let c = choose|c: Block|
            c.natural() && c.order == o && forall|x: int|
                c.has(x) ==> #[trigger] buddy_laws::is_free(h.buddy, x);
        assert(c.size() == l.room());
    }
}

proof fn lemma_all_free(vs: Seq<SlabView>, k: int, lo: int, hi: int)
    requires
        slab::set_inv(vs, lo, hi),
        0 <= k <= vs.len(),
        forall|i: int, x: usize| 0 <= i < vs.len() ==> !#[trigger] vs[i].is_live(x),
    ensures
        heap::free_bytes(vs, k) == heap::provisioned_bytes(vs, k),
    decreases k,
{
    if k > 0 {
        lemma_all_free(vs, k - 1, lo, hi);
        let v = vs[k - 1];
        assert(v.inv(lo, hi));
        v.free.unique_seq_to_set();
        assert(v.free.to_set() =~= v.objs) by {
            assert forall|x: usize| v.objs.contains(x) implies v.free.to_set().contains(x) by {
                assert(!vs[k - 1].is_live(x));
            }
            assert forall|x: usize| v.free.to_set().contains(x) implies v.objs.contains(x) by {
                assert(v.free.contains(x));
            }
        }
    }
}

/// Once every object has been given back, all that was provisioned is free:
/// the caches keep their slabs and lose nothing.
pub proof fn law_nothing_lost(h: HeapView, lo: int, hi: int)
    requires
        h.inv(lo, hi),
        forall|i: int, x: usize| 0 <= i < h.slabs.len() ==> !#[trigger] h.slabs[i].is_live(x),
    ensures
        heap::free_bytes(h.slabs, h.slabs.len() as int) == heap::provisioned_bytes(
            h.slabs,
            h.slabs.len() as int,
        ),
{
    lemma_all_free(h.slabs, h.slabs.len() as int, lo, hi);
}

/// The slab classes serve exactly what needs at most 1024 bytes and is aligned
/// to at most 1024. What is handed out has a power of two of bytes, enough for
/// the size and the alignment, and unless it is the least that there is (8
/// bytes of a class, 64 of the buddy allocator), half of it would not do.
pub proof fn law_room(l: Layout)
    ensures
        l.class() is Some <==> l.size <= 1024 && l.align <= 1024,
        l.size <= l.room(),
        l.align <= l.room(),
        match l.class() {
            Some(i) => {
                &&& 0 <= i < 8
                &&& l.room() == powers::p2(i + 3)
                &&& l.room() == 8 || l.room() < 2 * l.size || l.room() < 2 * l.align
            },
            None => {
                &&& 6 <= l.order()
                &&& l.room() == powers::p2(l.order())
                &&& l.room() < 2 * l.size || l.room() < 2 * l.align
            },
        },
{
    heap::lemma_class(l);
    powers::lemma_p2_values();
    match l.class() {
        Some(i) => {
            slab::lemma_class_sizes(i);
            if i > 0 {
                slab::lemma_class_sizes(i - 1);
                powers::lemma_p2_step(i + 2);
            }
        },
        None => {
            buddy_laws::law_least_block(l.want(), l.align as int);
            powers::lemma_p2_mono(6, l.order());
            powers::lemma_p2_step(9);
        },
    }
}

/// The slab classes have objects of 8, 16, 32, ..., 1024 bytes. Class `i` is
/// the one for `need` bytes if they fit and would not fit one class below.
pub proof fn law_classes(i: int, need: int)
    ensures
        CLASS_SIZES@.len() == 8,
        0 <= i < 8 ==> CLASS_SIZES[i] == powers::p2(i + 3),
        CLASS_SIZES[0] == 8,
        CLASS_SIZES[7] == 1024,
        slab::is_class_for(i, need) <==> 0 <= i < 8 && need <= powers::p2(i + 3) && (i == 0
            || powers::p2(i + 2) < need),
{
    powers::lemma_p2_values();
    if 0 <= i < 8 {
        slab::lemma_class_sizes(i);
        if i > 0 {
            slab::lemma_class_sizes(i - 1);
        }
    }
}

/// A small request is served with the object that comes first in the cache of
/// its class. Nothing else changes.
pub proof fn law_small_cached(h: HeapView, l: Layout, i: int)
    requires
        h.slabs.len() == 8,
        l.class() == Some(i),
        h.slabs[i].free.len() > 0,
    ensures
        h.served(l) == Some(h.slabs[i].free[0]),
        h.after_alloc(l).buddy == h.buddy,
        ({
            let v = h.slabs[i];
            let w = h.after_alloc(l).slabs[i];
            &&& w.free == v.free.drop_first()
            &&& w.objs == v.objs
            &&& w.slabs == v.slabs
            &&& w.obj_size == v.obj_size
            &&& w.provisioned == v.provisioned
        }),
        h.after_alloc(l).slabs.len() == 8,
        forall|j: int|
            0 <= j < 8 && j != i ==> (#[trigger] h.after_alloc(l).slabs[j]) == h.slabs[j],
{
    heap::lemma_class(l);
}

/// A small request that finds the cache of its class empty takes a block from
/// the buddy allocator: 4096 bytes for objects of up to 256 bytes, 8192 bytes
/// for larger ones. It is cut into objects, without a gap. The first is handed
/// out and the others are cached, in the order of their addresses.
pub proof fn law_small_refill(h: HeapView, l: Layout, i: int, o: int, lo: int, hi: int)
    requires
        h.inv(lo, hi),
        l.class() == Some(i),
        h.slabs[i].free.len() == 0,
        o == if l.room() <= 256 {
            12
        } else {
            13int
        },
    ensures
        h.after_alloc(l).slabs.len() == 8,
        forall|j: int|
            0 <= j < 8 && j != i ==> (#[trigger] h.after_alloc(l).slabs[j]) == h.slabs[j],
        !buddy::can_alloc(h.buddy, o) ==> h.served(l) is None && h.after_alloc(l).buddy == h.buddy
            && h.after_alloc(l).slabs[i] == h.slabs[i],
        buddy::can_alloc(h.buddy, o) ==> ({
            let base = buddy::alloc_block(h.buddy, o).addr;
            let n = powers::p2(o) / l.room();
            let w = h.after_alloc(l).slabs[i];
            &&& h.served(l) == Some(base as usize)
            &&& h.after_alloc(l).buddy == buddy::after_alloc(h.buddy, o)
            &&& h.after_alloc(l).buddy.used == h.buddy.used + powers::p2(o)
            &&& n * l.room() == powers::p2(o)
            &&& w.free.len() == n - 1
            &&& forall|k: int|
                0 <= k < n - 1 ==> (#[trigger] w.free[k]) == base + (k + 1) * l.room()
            &&& w.provisioned == h.slabs[i].provisioned + n
            &&& w.obj_size == h.slabs[i].obj_size
        }),
{
    heap::lemma_class(l);
    law_room(l);
    let v = h.slabs[i];
    assert(v.inv(lo, hi) && v.backed(h.buddy) && v.obj_size == CLASS_SIZES[i]);
    slab::lemma_class_sizes(i);
    powers::lemma_p2_values();
    if i < 5 {
        powers::lemma_p2_mono(i + 3, 8);
    } else if i > 5 {
        powers::lemma_p2_mono(9, i + 3);
    }
    let bytes = REFILL_BYTES[i] as int;
    assert(i == 0 || i == 1 || i == 2 || i == 3 || i == 4 || i == 5 || i == 6 || i == 7);
    assert(bytes == powers::p2(o));
    powers::lemma_p2_step(11);
    powers::lemma_p2_step(12);
    buddy::lemma_least_order_is(bytes, buddy::MIN_ORDER as int, o);
    assert(buddy::order_needed(bytes, v.obj_size) == o);
    if buddy::can_alloc(h.buddy, o) {
        slab::law_carving(v, h.buddy, i, lo, hi);
    }
}

/// A small object that is given back comes first in the cache of its class.
/// Nothing else changes.
pub proof fn law_small_freed(h: HeapView, l: Layout, p: usize, i: int)
    requires
        h.slabs.len() == 8,
        l.class() == Some(i),
    ensures
        h.after_dealloc(l, p).buddy == h.buddy,
        ({
            let v = h.slabs[i];
            let w = h.after_dealloc(l, p).slabs[i];
            &&& w.free.len() == v.free.len() + 1
            &&& w.free[0] == p
            &&& w.free.drop_first() == v.free
            &&& w.objs == v.objs
            &&& w.slabs == v.slabs
            &&& w.obj_size == v.obj_size
            &&& w.provisioned == v.provisioned
        }),
        h.after_dealloc(l, p).slabs.len() == 8,
        forall|j: int|
            0 <= j < 8 && j != i ==> (#[trigger] h.after_dealloc(l, p).slabs[j]) == h.slabs[j],
{
    heap::lemma_class(l);
    assert((seq![p] + h.slabs[i].free).drop_first() =~= h.slabs[i].free);
}

/// A large request goes to the buddy allocator, and so does what is given back
/// of it. The caches stay as they are.
pub proof fn law_large(h: HeapView, l: Layout, p: usize)
    requires
        l.class() is None,
    ensures
        ({
            let o = l.order();
            &&& buddy::can_alloc(h.buddy, o) ==> h.served(l) == Some(
                buddy::alloc_block(h.buddy, o).addr as usize,
            ) && h.after_alloc(l).buddy == buddy::after_alloc(h.buddy, o)
            &&& !buddy::can_alloc(h.buddy, o) ==> h.served(l) is None && h.after_alloc(l).buddy
                == h.buddy
            &&& h.after_alloc(l).slabs == h.slabs
            &&& h.after_dealloc(l, p).slabs == h.slabs
            &&& h.after_dealloc(l, p).buddy == buddy::after_dealloc(
                h.buddy,
                (Block { addr: p as int, order: o }),
            )
        }),
{
}

/// What the counters say of a request, one by one. They wrap at 2^64.
pub proof fn law_counters(h: HeapView, l: Layout)
    requires
        h.stats.class_hits.len() == 8,
    ensures
        ({
            let s = h.stats;
            let t = h.after_alloc(l).stats;
            let small = l.size <= 1024 && l.align <= 1024;
            let bytes = if l.size == 0 {
                1
            } else {
                l.size as int
            };
            &&& t.slab_hits == (s.slab_hits + if small {
                1int
            } else {
                0
            }) % 0x1_0000_0000_0000_0000
            &&& t.buddy_calls == (s.buddy_calls + if small {
                0int
            } else {
                1
            }) % 0x1_0000_0000_0000_0000
            &&& h.served(l) is Some ==> {
                &&& t.allocs == (s.allocs + 1) % 0x1_0000_0000_0000_0000
                &&& t.bytes_allocated == (s.bytes_allocated + bytes) % 0x1_0000_0000_0000_0000
                &&& t.oom == s.oom
            }
            &&& h.served(l) is None ==> {
                &&& t.allocs == s.allocs
                &&& t.bytes_allocated == s.bytes_allocated
                &&& t.oom == (s.oom + 1) % 0x1_0000_0000_0000_0000
            }
            &&& t.frees == s.frees
            &&& t.bytes_freed == s.bytes_freed
        }),
{
    law_room(l);
    let s = h.stats;
    assert(h.after_alloc(l).stats == h.counted(l));
    stats::law_events(s, l.want() as usize, 0);
    match l.class() {
        Some(i) => {
            stats::law_events(s, 0, i);
            stats::law_events(s.slab_recorded(i), l.want() as usize, 0);
        },
        None => {
            stats::law_events(s.buddy_recorded(), l.want() as usize, 0);
        },
    }
}

/// A small request is counted once for the class whose objects it is served
/// with, class `i` if they have `2^(i + 3)` bytes; a large one for no class.
pub proof fn law_class_counters(h: HeapView, l: Layout, i: int)
    requires
        h.stats.class_hits.len() == 8,
        0 <= i < 8,
    ensures
        h.after_alloc(l).stats.class_hits.len() == 8,
        l.size <= 1024 && l.align <= 1024 && l.room() == powers::p2(i + 3) ==> h.after_alloc(
            l,
        ).stats.class_hits[i] == (h.stats.class_hits[i] + 1) % 0x1_0000_0000_0000_0000,
        !(l.size <= 1024 && l.align <= 1024 && l.room() == powers::p2(i + 3)) ==> h.after_alloc(
            l,
        ).stats.class_hits[i] == h.stats.class_hits[i],
{
    law_room(l);
    assert(h.after_alloc(l).stats == h.counted(l));
    if l.class() is Some {
        let c = l.class().unwrap();
        stats::law_events(h.stats, 0, c);
        if i < c {
            powers::lemma_p2_mono(i + 3, c + 3);
        } else if c < i {
            powers::lemma_p2_mono(c + 3, i + 3);
        }
    }
}

/// What the counters say of a free, one by one.
pub proof fn law_free_counters(h: HeapView, l: Layout, p: usize)
    requires
        h.stats.class_hits.len() == 8,
    ensures
        ({
            let s = h.stats;
            let u = h.after_dealloc(l, p).stats;
            let bytes = if l.size == 0 {
                1
            } else {
                l.size as int
            };
            &&& u.frees == (s.frees + 1) % 0x1_0000_0000_0000_0000
            &&& u.bytes_freed == (s.bytes_freed + bytes) % 0x1_0000_0000_0000_0000
            &&& u.allocs == s.allocs
            &&& u.bytes_allocated == s.bytes_allocated
            &&& u.slab_hits == s.slab_hits
            &&& u.buddy_calls == s.buddy_calls
            &&& u.oom == s.oom
            &&& u.class_hits == s.class_hits
        }),
{
    stats::law_events(h.stats, l.want() as usize, 0);
    assert(h.after_dealloc(l, p).stats == h.stats.free_recorded(l.want() as usize));
}

/// What is live: for a small layout an object of its class that is not free,
/// for a large one a block of the buddy allocator that is not a slab.
pub proof fn law_granted(h: HeapView, l: Layout, p: usize)
    requires
        h.slabs.len() == 8,
        h.buddy.live.len() == 32,
    ensures
        match l.class() {
            Some(i) => h.granted(l, p) <==> h.slabs[i].objs.contains(p)
                && !h.slabs[i].free.contains(p),
            None => h.granted(l, p) <==> l.order() < 32 && h.buddy.live[l.order()].contains(p)
                && forall|i: int|
                0 <= i < 8 ==> !(#[trigger] h.slabs[i]).slabs.contains(
                    (Block { addr: p as int, order: l.order() }),
                ),
        },
{
    law_room(l);
}

/// The figures of a snapshot are sums over the eight classes: the objects of
/// each, all or those that are free, times their size.
pub proof fn law_snapshot_sums(vs: Seq<SlabView>)
    requires
        vs.len() == 8,
        forall|i: int| 0 <= i < 8 ==> (#[trigger] vs[i]).obj_size == powers::p2(i + 3),
    ensures
        heap::provisioned_bytes(vs, 8) == 8 * vs[0].provisioned + 16 * vs[1].provisioned + 32
            * vs[2].provisioned + 64 * vs[3].provisioned + 128 * vs[4].provisioned + 256
            * vs[5].provisioned + 512 * vs[6].provisioned + 1024 * vs[7].provisioned,
        heap::free_bytes(vs, 8) == 8 * vs[0].free.len() + 16 * vs[1].free.len() + 32
            * vs[2].free.len() + 64 * vs[3].free.len() + 128 * vs[4].free.len() + 256
            * vs[5].free.len() + 512 * vs[6].free.len() + 1024 * vs[7].free.len(),
{
    powers::lemma_p2_values();
    reveal_with_fuel(heap::provisioned_bytes, 9);
    reveal_with_fuel(heap::free_bytes, 9);
    assert(vs[0].obj_size == 8 && vs[1].obj_size == 16 && vs[2].obj_size == 32 && vs[3].obj_size
        == 64 && vs[4].obj_size == 128 && vs[5].obj_size == 256 && vs[6].obj_size == 512
        && vs[7].obj_size == 1024);
}

/// An empty heap has no memory, no objects and no history, and one cache for
/// each class.
pub proof fn law_empty(i: int)
    requires
        0 <= i < 8,
    ensures
        ({
            let h = HeapView::empty();
            &&& h.slabs.len() == 8
            &&& h.slabs[i].free.len() == 0
            &&& h.slabs[i].objs == Set::<usize>::empty()
            &&& h.slabs[i].slabs == Set::<Block>::empty()
            &&& h.slabs[i].provisioned == 0
            &&& h.slabs[i].obj_size == powers::p2(i + 3)
            &&& h.buddy.total == 0
            &&& h.buddy.used == 0
            &&& h.buddy.waste == 0
            &&& h.stats.allocs == 0
            &&& h.stats.frees == 0
            &&& h.stats.bytes_allocated == 0
            &&& h.stats.bytes_freed == 0
            &&& h.stats.slab_hits == 0
            &&& h.stats.buddy_calls == 0
            &&& h.stats.oom == 0
            &&& h.stats.class_hits.len() == 8
            &&& h.stats.class_hits[i] == 0
        }),
{
    slab::lemma_class_sizes(i);
}

/// A layout is valid exactly if its alignment is a power of two and its size,
/// rounded up to it, is one that an object can have.
pub proof fn law_valid(l: Layout, k: int)
    requires
        0 <= k,
    ensures
        powers::p2(k) == l.align && l.size + l.align - 1 <= isize::MAX ==> l.valid(),
        l.valid() ==> l.align != 0 && l.size + l.align - 1 <= isize::MAX,
        l.valid() && powers::p2(k) <= l.align < powers::p2(k + 1) ==> l.align == powers::p2(k),
{
    if l.valid() {
        let j = choose|j: int| 0 <= j && l.align == #[trigger] powers::p2(j);
        powers::lemma_p2_pos(j);
        if j < k {
            powers::lemma_p2_mono(j, k);
        } else if k < j {
            powers::lemma_p2_mono(k + 1, j);
        }
    }
}

} // verus!
