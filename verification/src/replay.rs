//! Runs a workload on a heap.

use crate::heap::{Heap, HeapView, Layout};
use crate::heap_laws;
use crate::memory::Memory;
use crate::powers;
use crate::workload;
use crate::workload::{Op, Workload, GROWTH_ROUNDS, GROWTH_STEPS};
use vstd::prelude::*;

verus! {

/// The heap and the pointers in the slots after the first `k` operations, or
/// `None` if one of them was refused.
pub open spec fn state(h: HeapView, ops: Seq<(Layout, Op)>, k: int) -> Option<
    (HeapView, Map<usize, usize>),
>
    decreases k,
{
    if k <= 0 {
        Some((h, Map::empty()))
    } else {
        match state(h, ops, k - 1) {
            None => None,
            Some((g, m)) => {
                let l = ops[k - 1].0;
                match ops[k - 1].1 {
                    Op::Alloc { slot } => match g.served(l) {
                        Some(p) => Some((g.after_alloc(l), m.insert(slot, p))),
                        None => None,
                    },
                    Op::Free { slot } => Some((g.after_dealloc(l, m[slot]), m.remove(slot))),
                }
            },
        }
    }
}

/// The operation after the first `k` is refused.
pub open spec fn refused(h: HeapView, ops: Seq<(Layout, Op)>, k: int) -> bool {
    &&& 0 <= k < ops.len()
    &&& state(h, ops, k) is Some
    &&& ops[k].1 is Alloc
    &&& state(h, ops, k).unwrap().0.served(ops[k].0) is None
}

/// The slots hold live allocations of their layouts, no two the same.
spec fn tracked_by(h: HeapView, held: Map<usize, Layout>, m: Map<usize, usize>) -> bool {
    &&& m.dom() == held.dom()
    &&& forall|s: usize| #[trigger] m.dom().contains(s) ==> h.granted(held[s], m[s])
    &&& forall|s: usize, t: usize| #[trigger]
        m.dom().contains(s) && #[trigger] m.dom().contains(t) && s != t ==> m[s] != m[t]
            || !heap_laws::same_kind(held[s], held[t])
}

proof fn lemma_alloc_step(
    h: HeapView,
    held: Map<usize, Layout>,
    m: Map<usize, usize>,
    l: Layout,
    slot: usize,
    lo: int,
    hi: int,
)
    requires
        h.inv(lo, hi),
        tracked_by(h, held, m),
        h.served(l) is Some,
    ensures
        tracked_by(
            h.after_alloc(l),
            held.insert(slot, l),
            m.insert(slot, h.served(l).unwrap()),
        ),
{
    let p = h.served(l).unwrap();
    let w = h.after_alloc(l);
    let held2 = held.insert(slot, l);
    let m2 = m.insert(slot, p);
    heap_laws::law_alloc_fresh(h, l, lo, hi);
    assert forall|s: usize| #[trigger] m2.dom().contains(s) implies w.granted(held2[s], m2[s]) by {
        if s != slot {
            assert(m.dom().contains(s));
            heap_laws::law_alloc_keeps(h, l, held[s], m[s], lo, hi);
        }
    }
    assert forall|s: usize, t: usize| #[trigger]
        m2.dom().contains(s) && #[trigger] m2.dom().contains(t) && s != t implies m2[s] != m2[t]
        || !heap_laws::same_kind(held2[s], held2[t]) by {
        if s == slot {
            assert(m.dom().contains(t));
            assert(h.granted(held[t], m[t]));
        } else if t == slot {
            assert(m.dom().contains(s));
            assert(h.granted(held[s], m[s]));
        } else {
            assert(m.dom().contains(s) && m.dom().contains(t));
        }
    }
    assert(m2.dom() =~= held2.dom());
}

proof fn lemma_free_step(
    h: HeapView,
    held: Map<usize, Layout>,
    m: Map<usize, usize>,
    slot: usize,
    lo: int,
    hi: int,
)
    requires
        h.inv(lo, hi),
        tracked_by(h, held, m),
        held.dom().contains(slot),
    ensures
        h.granted(held[slot], m[slot]),
        tracked_by(h.after_dealloc(held[slot], m[slot]), held.remove(slot), m.remove(slot)),
{
    assert(m.dom().contains(slot));
    let w = h.after_dealloc(held[slot], m[slot]);
    let held2 = held.remove(slot);
    let m2 = m.remove(slot);
    assert forall|s: usize| #[trigger] m2.dom().contains(s) implies w.granted(held2[s], m2[s]) by {
        assert(m.dom().contains(s));
        heap_laws::law_dealloc_keeps(h, held[slot], m[slot], held[s], m[s], lo, hi);
    }
    assert forall|s: usize, t: usize| #[trigger]
        m2.dom().contains(s) && #[trigger] m2.dom().contains(t) && s != t implies m2[s] != m2[t]
        || !heap_laws::same_kind(held2[s], held2[t]) by {
        assert(m.dom().contains(s) && m.dom().contains(t));
    }
    assert(m2.dom() =~= held2.dom());
}

/// A prefix of a stream that can be run can be run.
proof fn lemma_runnable_prefix(ops: Seq<(Layout, Op)>, slots: usize, k: int)
    requires
        workload::runnable(ops, slots),
        0 <= k <= ops.len(),
    ensures
        workload::runnable(ops.take(k), slots),
    decreases ops.len(),
{
    if k == ops.len() {
        assert(ops.take(k) =~= ops);
    } else {
        lemma_runnable_prefix(ops.drop_last(), slots, k);
        assert(ops.drop_last().take(k) =~= ops.take(k));
    }
}

/// Operation `k` of a run. An allocation asks the heap for its layout; what is
/// handed out is in its slot from then on, and a refusal ends the run. A free
/// gives back what is in its slot, which is empty then. Other slots are left
/// alone.
pub proof fn law_run_step(h: HeapView, ops: Seq<(Layout, Op)>, k: int, other: usize)
    requires
        0 <= k < ops.len(),
        state(h, ops, k) is Some,
    ensures
        state(h, ops, 0) == Some((h, Map::<usize, usize>::empty())),
        ({
            let (g, m) = state(h, ops, k).unwrap();
            let l = ops[k].0;
            let end = state(h, ops, k + 1);
            match ops[k].1 {
                Op::Alloc { slot } => {
                    &&& end is Some <==> g.served(l) is Some
                    &&& end is None <==> refused(h, ops, k)
                    &&& end is Some ==> {
                        &&& end.unwrap().0 == g.after_alloc(l)
                        &&& end.unwrap().1.dom().contains(slot)
                        &&& end.unwrap().1[slot] == g.served(l).unwrap()
                        &&& other != slot ==> (end.unwrap().1.dom().contains(other)
                            <==> m.dom().contains(other))
                        &&& other != slot && m.dom().contains(other) ==> end.unwrap().1[other]
                            == m[other]
                    }
                },
                Op::Free { slot } => {
                    &&& end is Some
                    &&& !refused(h, ops, k)
                    &&& end.unwrap().0 == g.after_dealloc(l, m[slot])
                    &&& !end.unwrap().1.dom().contains(slot)
                    &&& other != slot ==> (end.unwrap().1.dom().contains(other)
                        <==> m.dom().contains(other))
                    &&& other != slot && m.dom().contains(other) ==> end.unwrap().1[other]
                        == m[other]
                },
            }
        }),
{
}

/// How many of the first `k` operations are allocations that no slab class
/// serves.
pub open spec fn direct_count(ops: Seq<(Layout, Op)>, k: int) -> int
    decreases k,
{
    if k <= 0 {
        0
    } else {
        direct_count(ops, k - 1) + if ops[k - 1].1 is Alloc && ops[k - 1].0.class() is None {
            1int
        } else {
            0int
        }
    }
}

proof fn lemma_direct_count(ops: Seq<(Layout, Op)>, k: int)
    ensures
        0 <= direct_count(ops, k) <= workload::alloc_count(ops, k),
    decreases k,
{
    if k > 0 {
        lemma_direct_count(ops, k - 1);
    }
}

/// As long as the counters do not wrap, a run counts each of its allocations
/// once: as a call of the buddy allocator if no slab class serves it, and as a
/// slab hit otherwise.
pub proof fn law_run_counts(h: HeapView, ops: Seq<(Layout, Op)>, k: int)
    requires
        0 <= k <= ops.len(),
        state(h, ops, k) is Some,
    ensures
        ({
            let s = state(h, ops, k).unwrap().0.stats;
            let direct = direct_count(ops, k);
            let small = workload::alloc_count(ops, k) - direct;
            &&& h.stats.buddy_calls + direct <= u64::MAX ==> s.buddy_calls == h.stats.buddy_calls
                + direct
            &&& h.stats.slab_hits + small <= u64::MAX ==> s.slab_hits == h.stats.slab_hits + small
        }),
    decreases k,
{
    if k > 0 {
        lemma_direct_count(ops, k - 1);
        law_run_counts(h, ops, k - 1);
    }
}

/// The first `k` operations of round `c` of the growth workload: of the nine
/// allocations the last two are too large for the slab classes.
proof fn lemma_growth_round(c: int, k: int)
    requires
        0 <= c < GROWTH_ROUNDS,
        0 <= k <= 18,
    ensures
        ({
            let ops = workload::burst_ops(workload::growth_layouts(), GROWTH_STEPS as int);
            &&& direct_count(ops, c * 18 + k) == 2 * c + if k <= 7 {
                0
            } else if k == 8 {
                1
            } else {
                2int
            }
            &&& workload::alloc_count(ops, c * 18 + k) == 9 * c + if k <= 9 {
                k
            } else {
                9
            }
        }),
    decreases c, k,
{
    let ls = workload::growth_layouts();
    let ops = workload::burst_ops(ls, GROWTH_STEPS as int);
    if k > 0 {
        lemma_growth_round(c, k - 1);
        workload::lemma_burst_split(GROWTH_STEPS as int, c, k - 1);
        assert(ops[c * 18 + k - 1] == workload::burst_op(ls, GROWTH_STEPS as int, c * 18 + k - 1));
        if k <= 9 {
            let l = ls[c * 9 + k - 1];
            vstd::arithmetic::div_mod::lemma_fundamental_div_mod_converse(
                c * 9 + k - 1,
                GROWTH_STEPS as int,
                c,
                k - 1,
            );
            powers::lemma_p2_values();
            if k <= 7 {
                powers::lemma_p2_mono(k - 1, 6);
            } else {
                powers::lemma_p2_mono(7, k - 1);
                powers::lemma_p2_mono(k - 1, 8);
            }
            assert(l.class() is None <==> k >= 8);
        }
    } else if c > 0 {
        lemma_growth_round(c - 1, 18);
    }
}

/// A run of the growth workload makes 4000 calls of the buddy allocator and
/// 14000 slab hits, as long as these counters do not wrap.
pub proof fn law_growth_counts(h: HeapView)
    requires
        ({
            let ops = workload::burst_ops(workload::growth_layouts(), GROWTH_STEPS as int);
            state(h, ops, ops.len() as int) is Some
        }),
    ensures
        ({
            let ops = workload::burst_ops(workload::growth_layouts(), GROWTH_STEPS as int);
            let s = state(h, ops, ops.len() as int).unwrap().0.stats;
            &&& h.stats.buddy_calls + 4000 <= u64::MAX ==> s.buddy_calls == h.stats.buddy_calls
                + 4000
            &&& h.stats.slab_hits + 14000 <= u64::MAX ==> s.slab_hits == h.stats.slab_hits + 14000
        }),
{
    let ops = workload::burst_ops(workload::growth_layouts(), GROWTH_STEPS as int);
    lemma_growth_round(GROWTH_ROUNDS - 1, 18);
    law_run_counts(h, ops, ops.len() as int);
}

/// A stream of layouts that slab classes serve makes no call of the buddy
/// allocator: none of its requests is routed there.
pub proof fn law_slab_only(h: HeapView, ops: Seq<(Layout, Op)>, k: int)
    requires
        0 <= k <= ops.len(),
        forall|i: int| 0 <= i < ops.len() ==> (#[trigger] ops[i]).0.class() is Some,
        state(h, ops, k) is Some,
    ensures
        state(h, ops, k).unwrap().0.stats.buddy_calls == h.stats.buddy_calls,
    decreases k,
{
    if k > 0 {
        law_slab_only(h, ops, k - 1);
        assert(ops[k - 1].0.class() is Some);
    }
}

/// A stream whose sizes are from 8 to 1024 bytes makes no call of the buddy
/// allocator.
pub proof fn law_small_sizes_slab_only(h: HeapView, ops: Seq<(Layout, Op)>, k: int)
    requires
        0 <= k <= ops.len(),
        workload::sizes_within(ops, 8, 1024),
        state(h, ops, k) is Some,
    ensures
        state(h, ops, k).unwrap().0.stats.buddy_calls == h.stats.buddy_calls,
{
    assert forall|i: int| 0 <= i < ops.len() implies (#[trigger] ops[i]).0.class() is Some by {}
    law_slab_only(h, ops, k);
}

/// Performs the operations in order. Returns the number of allocations, or
/// `None` if one was refused; the run ends there.
pub fn run(heap: &mut Heap, mem: &mut Memory, w: &Workload) -> (r: Option<usize>)
    requires
        old(heap).wf(old(mem)),
        workload::runnable(w.ops@, w.slots),
    ensures
        final(heap).wf(final(mem)),
        match r {
            Some(n) => {
                let end = state(old(heap)@, w.ops@, w.ops@.len() as int);
                &&& end is Some
                &&& final(heap)@ == end.unwrap().0
                &&& n == workload::alloc_count(w.ops@, w.ops@.len() as int)
                &&& workload::balanced(w.ops@, w.slots) ==> end.unwrap().1 == Map::<
                    usize,
                    usize,
                >::empty()
            },
            None => exists|k: int| #[trigger]
                refused(old(heap)@, w.ops@, k) && final(heap)@ == state(
                    old(heap)@,
                    w.ops@,
                    k,
                ).unwrap().0.after_alloc(w.ops@[k].0),
        },
{
    let ghost h0 = heap@;
    let ghost ops = w.ops@;
    let ghost mut m: Map<usize, usize> = Map::empty();
    let mut slots: Vec<usize> = Vec::new();
    while slots.len() < w.slots
        invariant
            slots@.len() <= w.slots,
        decreases w.slots - slots@.len(),
    {
        slots.push(0);
    }
    let mut allocs: usize = 0;
    let mut i: usize = 0;
    proof {
        assert(ops.take(0) =~= Seq::empty());
        assert(m.dom() =~= workload::held(ops.take(0)).dom());
    }
    while i < w.ops.len()
        invariant
            i <= ops.len(),
            ops == w.ops@,
            h0 == old(heap)@,
            slots@.len() == w.slots,
            heap.wf(mem),
            workload::runnable(ops, w.slots),
            state(h0, ops, i as int) == Some((heap@, m)),
            tracked_by(heap@, workload::held(ops.take(i as int)), m),
            forall|s: usize| #[trigger] m.dom().contains(s) ==> s < w.slots && slots@[s as int] == m[s],
            allocs == workload::alloc_count(ops, i as int),
            allocs <= i,
        decreases ops.len() - i,
    {
        let (l, op) = w.ops[i];
        let ghost h = heap@;
        let ghost before = ops.take(i as int);
        let ghost next = ops.take(i + 1);
        proof {
            lemma_runnable_prefix(ops, w.slots, i + 1);
            assert(next.drop_last() =~= before);
            assert(next.last() == ops[i as int]);
        }
        match op {
            Op::Alloc { slot } => {
                match heap.allocate(mem, l) {
                    Some(p) => {
                        proof {
                            lemma_alloc_step(
                                h,
                                workload::held(before),
                                m,
                                l,
                                slot,
                                mem.lo(),
                                mem.hi(),
                            );
                            m = m.insert(slot, p);
                        }
                        slots[slot] = p;
                        allocs = allocs + 1;
                    },
                    None => {
                        assert(refused(h0, ops, i as int));
                        return None;
                    },
                }
            },
            Op::Free { slot } => {
                proof {
                    assert(workload::held(before).dom().contains(slot));
                    lemma_free_step(h, workload::held(before), m, slot, mem.lo(), mem.hi());
                    assert(m.dom().contains(slot));
                }
                let p: usize = slots[slot];
                heap.dealloc(mem, p, l);
                slots[slot] = 0;
                proof {
                    m = m.remove(slot);
                }
            },
        }
        i = i + 1;
    }
    proof {
        assert(ops.take(ops.len() as int) =~= ops);
        if workload::balanced(ops, w.slots) {
            assert(m =~= Map::empty());
        }
    }
    Some(allocs)
}

} // verus!
