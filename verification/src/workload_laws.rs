//! What the benchmark workloads consist of, operation by operation.

use crate::heap::Layout;
use crate::mixed;
use crate::mixed::{MixedAction, MixedOpsView, MixedView, Pending, SizeRange};
use crate::powers;
use crate::workload;
use crate::workload::{Op, BURST, GROWTH_ROUNDS, GROWTH_STEPS, SMALL_SIZES};
use vstd::prelude::*;

verus! {

/// Burst `c` of `b` operations allocates its slots in ascending order, each
/// with its own layout, and then frees them in descending order, each with the
/// layout that it was allocated with. `k` is a position in the burst.
pub proof fn law_burst(layouts: Seq<Layout>, b: int, c: int, k: int)
    requires
        0 < b,
        0 <= k < b,
        0 <= c,
        c * b + b <= layouts.len() <= usize::MAX,
    ensures
        ({
            let ops = workload::burst_ops(layouts, b);
            let slot = c * b + k;
            let alloc = 2 * (c * b) + k;
            let free = 2 * (c * b) + 2 * b - 1 - k;
            &&& ops.len() == 2 * layouts.len()
            &&& 0 <= alloc < free < ops.len()
            &&& ops[alloc].0 == layouts[slot]
            &&& ops[alloc].1 == (Op::Alloc { slot: slot as usize })
            &&& ops[free].0 == layouts[slot]
            &&& ops[free].1 == (Op::Free { slot: slot as usize })
        }),
{
    let ops = workload::burst_ops(layouts, b);
    workload::lemma_burst_split(b, c, k);
    workload::lemma_burst_split(b, c, 2 * b - 1 - k);
    assert(0 <= c * b) by (nonlinear_arith)
        requires
            0 <= c,
            0 < b,
    ;
    assert(ops[2 * (c * b) + k] == workload::burst_op(layouts, b, 2 * (c * b) + k));
    assert(ops[2 * (c * b) + 2 * b - 1 - k] == workload::burst_op(
        layouts,
        b,
        2 * (c * b) + 2 * b - 1 - k,
    ));
}

/// Allocation `k` of round `c`: 16 bytes at first, then twice as many as before,
/// 4096 at last. It is freed as the `k`-th from the end of its round.
pub open spec fn grows_at(ops: Seq<(Layout, Op)>, c: int, k: int) -> bool {
    let slot = (9 * c + k) as usize;
    let l = ops[18 * c + k].0;
    &&& ops[18 * c + k].1 == (Op::Alloc { slot })
    &&& ops[18 * c + 17 - k] == (l, Op::Free { slot })
    &&& l.align == 8
    &&& k == 0 ==> l.size == 16
    &&& k > 0 ==> l.size == 2 * ops[18 * c + k - 1].0.size
    &&& k == 8 ==> l.size == 4096
}

/// The growth workload makes 2000 rounds of nine allocations. The first of a
/// round is of 16 bytes, each further one of exactly twice the size of the one
/// before, and the last of 4096 bytes. Then the round is freed, the largest
/// first. `c` is a round, `k` an allocation of it.
pub proof fn law_growth(c: int, k: int)
    requires
        0 <= c < 2000,
        0 <= k < 9,
    ensures
        ({
            let ops = workload::burst_ops(workload::growth_layouts(), GROWTH_STEPS as int);
            let l = ops[18 * c + k].0;
            &&& ops.len() == 36000
            &&& ops[18 * c + k].1 == (Op::Alloc { slot: (9 * c + k) as usize })
            &&& ops[18 * c + 17 - k] == (l, Op::Free { slot: (9 * c + k) as usize })
            &&& l.align == 8
            &&& k == 0 ==> l.size == 16
            &&& k > 0 ==> l.size == 2 * ops[18 * c + k - 1].0.size
            &&& k == 8 ==> l.size == 4096
        }),
{
    let ls = workload::growth_layouts();
    law_burst(ls, 9, c, k);
    lemma_growth_layout(c, k);
    if k > 0 {
        law_burst(ls, 9, c, k - 1);
        lemma_growth_layout(c, k - 1);
        powers::lemma_p2_step(k - 1);
    }
    powers::lemma_p2_values();
}

proof fn lemma_growth_layout(c: int, k: int)
    requires
        0 <= c < 2000,
        0 <= k < 9,
    ensures
        workload::growth_layouts()[9 * c + k].size == 16 * powers::p2(k),
        workload::growth_layouts()[9 * c + k].align == 8,
{
    vstd::arithmetic::div_mod::lemma_fundamental_div_mod_converse(9 * c + k, 9, c, k);
    powers::lemma_p2_values();
    powers::lemma_p2_mono(k, 8);
}

/// The small workload makes bursts of 256 allocations of the sizes that were
/// picked, and frees each burst in reverse. `c` is a burst, `k` an allocation of
/// it.
pub proof fn law_small(picks: Seq<usize>, c: int, k: int)
    requires
        picks.len() <= usize::MAX,
        0 <= c,
        256 * c + 256 <= picks.len(),
        0 <= k < 256,
        picks[256 * c + k] < 14,
    ensures
        ({
            let ops = workload::burst_ops(workload::small_layouts(picks), BURST as int);
            let slot = (256 * c + k) as usize;
            let l = ops[512 * c + k].0;
            let sizes = seq![8int, 16, 24, 32, 48, 64, 96, 128, 200, 256, 384, 512, 768, 1024];
            &&& ops.len() == 2 * picks.len()
            &&& ops[512 * c + k].1 == (Op::Alloc { slot })
            &&& ops[512 * c + 511 - k] == (l, Op::Free { slot })
            &&& l.align == 8
            &&& l.size == sizes[picks[256 * c + k] as int]
        }),
{
    let ls = workload::small_layouts(picks);
    law_burst(ls, 256, c, k);
    let p = picks[256 * c + k] as int;
    assert(p == 0 || p == 1 || p == 2 || p == 3 || p == 4 || p == 5 || p == 6 || p == 7 || p == 8
        || p == 9 || p == 10 || p == 11 || p == 12 || p == 13);
    assert(ls[256 * c + k] == workload::byte_layout(SMALL_SIZES[p]));
}

/// The picks are drawn one after the other, each below 14: the first from the
/// seed, each further one from the state that the one before has left.
pub proof fn law_small_draws(seed: u64, n: int, k: int)
    requires
        0 <= k < n,
    ensures
        workload::small_picks(seed, n).len() == n,
        workload::small_state(seed, 0) == seed,
        (workload::small_picks(seed, n)[k], workload::small_state(seed, k + 1))
            == workload::fastrand_usize(workload::small_state(seed, k), 14, usize::BITS),
{
}

/// Bursts are of 256 allocations, and growth goes through nine sizes in each of
/// 2000 rounds.
pub proof fn law_lengths()
    ensures
        BURST == 256,
        GROWTH_ROUNDS == 2000,
        GROWTH_STEPS == 9,
        SMALL_SIZES@.len() == 14,
{
}

/// A slot is held from its allocation on, with its layout, until it is freed.
pub proof fn law_held(ops: Seq<(Layout, Op)>, l: Layout, slot: usize, other: usize)
    ensures
        workload::held(Seq::empty()) == Map::<usize, Layout>::empty(),
        ({
            let h = workload::held(ops);
            let a = workload::held(ops.push((l, Op::Alloc { slot })));
            let f = workload::held(ops.push((l, Op::Free { slot })));
            &&& a.dom().contains(slot)
            &&& a[slot] == l
            &&& !f.dom().contains(slot)
            &&& other != slot ==> (a.dom().contains(other) <==> h.dom().contains(other))
            &&& other != slot ==> (f.dom().contains(other) <==> h.dom().contains(other))
            &&& other != slot && h.dom().contains(other) ==> a[other] == h[other] && f[other]
                == h[other]
        }),
{
    assert(ops.push((l, Op::Alloc { slot })).drop_last() =~= ops);
    assert(ops.push((l, Op::Free { slot })).drop_last() =~= ops);
}

/// What may follow in a consistent stream: an allocation for an empty slot that
/// there is, or the free of a held slot with its layout. In a stream that can
/// be run, the slot of an allocation may also be held.
pub proof fn law_consistent(ops: Seq<(Layout, Op)>, slots: usize, l: Layout, slot: usize)
    ensures
        workload::consistent(Seq::empty(), slots),
        workload::consistent(ops.push((l, Op::Alloc { slot })), slots) <==> workload::consistent(
            ops,
            slots,
        ) && slot < slots && !workload::held(ops).dom().contains(slot),
        workload::consistent(ops.push((l, Op::Free { slot })), slots) <==> workload::consistent(
            ops,
            slots,
        ) && workload::held(ops).dom().contains(slot) && workload::held(ops)[slot] == l,
        workload::runnable(Seq::empty(), slots),
        workload::runnable(ops.push((l, Op::Alloc { slot })), slots) <==> workload::runnable(
            ops,
            slots,
        ) && slot < slots,
        workload::runnable(ops.push((l, Op::Free { slot })), slots) <==> workload::runnable(
            ops,
            slots,
        ) && workload::held(ops).dom().contains(slot) && workload::held(ops)[slot] == l,
        workload::balanced(ops, slots) ==> workload::consistent(ops, slots)
            && !workload::held(ops).dom().contains(slot),
{
    assert(ops.push((l, Op::Alloc { slot })).drop_last() =~= ops);
    assert(ops.push((l, Op::Free { slot })).drop_last() =~= ops);
}

/// Only allocations are counted, each once.
pub proof fn law_alloc_count(ops: Seq<(Layout, Op)>, k: int)
    requires
        0 <= k < ops.len(),
    ensures
        workload::alloc_count(ops, 0) == 0,
        ops[k].1 is Alloc ==> workload::alloc_count(ops, k + 1) == workload::alloc_count(ops, k)
            + 1,
        ops[k].1 is Free ==> workload::alloc_count(ops, k + 1) == workload::alloc_count(ops, k),
{
}

/// A mixed workload draws its sizes from three ranges: 1 to 1024 bytes below
/// 0.70, 1024 to 9215 below 0.95, 8192 to 65535 above. A size in the range is
/// as far from its low end as `offset`.
pub proof fn law_mixed_ranges(bits: u32, offset: int)
    ensures
        ({
            let r = mixed::range_of(bits);
            let size = r.low() + offset;
            &&& bits < 0x3F33_3333 ==> r.width() == 1024 && size == 1 + offset
            &&& 0x3F33_3333 <= bits < 0x3F73_3333 ==> r.width() == 8192 && size == 1024 + offset
            &&& 0x3F73_3333 <= bits ==> r.width() == 57344 && size == 8192 + offset
        }),
        SizeRange::Small.low() == 1 && SizeRange::Small.width() == 1024,
        SizeRange::Mid.low() == 1024 && SizeRange::Mid.width() == 8192,
        SizeRange::Large.low() == 8192 && SizeRange::Large.width() == 57344,
        bits < 0x3F33_3333 <==> mixed::range_of(bits) == SizeRange::Small,
        0x3F73_3333 <= bits <==> mixed::range_of(bits) == SizeRange::Large,
        mixed::ALLOC_SHARE == 0x3F0C_CCCD,
{
}

/// An allocation takes the next slot and leaves everything else.
pub proof fn law_mixed_alloc(v: MixedOpsView, l: Layout)
    requires
        0 <= v.next_slot < usize::MAX,
    ensures
        ({
            let w = v.after_alloc(l);
            &&& w.ops.len() == v.ops.len() + 1
            &&& w.ops.drop_last() == v.ops
            &&& w.ops.last().0 == l
            &&& w.ops.last().1 matches Op::Alloc { slot } && slot == v.next_slot
            &&& w.live.drop_last() == v.live
            &&& w.live.last() == v.next_slot
            &&& w.live.len() == v.live.len() + 1
            &&& w.next_slot == v.next_slot + 1
        }),
{
    let w = v.after_alloc(l);
    assert(w.ops.drop_last() =~= v.ops);
    assert(w.live.drop_last() =~= v.live);
}

/// A free takes the drawn entry of the held slots, whose place the last one
/// takes, with the layout that it is held with.
pub proof fn law_mixed_free(v: MixedOpsView, pick: int)
    requires
        0 <= pick < v.live.len(),
    ensures
        ({
            let w = v.after_free(pick);
            &&& w.ops.len() == v.ops.len() + 1
            &&& w.ops.drop_last() == v.ops
            &&& w.ops.last().0 == workload::held(v.ops)[v.live[pick]]
            &&& w.ops.last().1 == (Op::Free { slot: v.live[pick] })
            &&& w.live.len() == v.live.len() - 1
            &&& forall|i: int| 0 <= i < w.live.len() ==> (#[trigger] w.live[i]) == if i == pick {
                v.live[v.live.len() - 1]
            } else {
                v.live[i]
            }
            &&& w.next_slot == v.next_slot
        }),
{
    assert(v.after_free(pick).ops.drop_last() =~= v.ops);
}

/// At the end the held slots are freed from the last to the first, each with
/// its layout, and nothing that was done before changes. `i` counts what is
/// freed.
pub proof fn law_mixed_drained(v: MixedOpsView, i: int)
    requires
        v.inv(),
        0 <= i < v.live.len(),
    ensures
        v.drained().len() == v.ops.len() + v.live.len(),
        v.drained().take(v.ops.len() as int) == v.ops,
        v.drained()[v.ops.len() + i].1 == (Op::Free { slot: v.live[v.live.len() - 1 - i] }),
        v.drained()[v.ops.len() + i].0 == workload::held(v.ops)[v.live[v.live.len() - 1 - i]],
    decreases v.live.len(),
{
    let n = v.live.len() as int;
    let w = v.after_free(n - 1);
    let slot = v.live[n - 1];
    mixed::lemma_mixed_free(v, n - 1);
    assert(w.ops.drop_last() =~= v.ops);
    assert(w.live =~= v.live.drop_last());
    if n == 1 {
        assert(v.drained() == w.drained());
        assert(w.drained() == w.ops);
        assert(w.ops.take(v.ops.len() as int) =~= v.ops);
    } else {
        law_mixed_drained(w, 0);
        assert(v.drained() == w.drained());
        assert(w.ops == v.drained().take(w.ops.len() as int));
        assert(v.drained()[v.ops.len() as int] == w.ops[v.ops.len() as int]);
        assert(v.drained().take(v.ops.len() as int) =~= v.ops) by {
            assert forall|t: int| 0 <= t < v.ops.len() implies v.drained()[t] == v.ops[t] by {
                assert(v.drained().take(w.ops.len() as int)[t] == w.ops[t]);
                assert(w.ops.drop_last()[t] == v.ops[t]);
            }
        }
        if i > 0 {
            law_mixed_drained(w, i - 1);
            let other = v.live[n - 1 - i];
            assert(w.live[w.live.len() - 1 - (i - 1)] == other);
            assert(other != slot);
            assert(v.live.contains(other));
            law_held(v.ops, workload::held(v.ops)[slot], slot, other);
            assert(w.ops == v.ops.push((workload::held(v.ops)[slot], Op::Free { slot })));
            assert(workload::held(v.ops).dom().contains(other));
        }
    }
}

/// A run of `n` steps starts with nothing done and the generator at its seed.
pub proof fn law_mixed_start(n: int, seed: u64)
    ensures
        ({
            let v = MixedView::start(n, seed);
            &&& v.built.ops.len() == 0
            &&& v.built.live.len() == 0
            &&& v.built.next_slot == 0
            &&& v.left == n
            &&& v.steps == n
            &&& n == 0 ==> v.next() == MixedAction::Done
            &&& n != 0 ==> v.next() == MixedAction::Draw(seed)
        }),
{
}

/// A run asks for numbers, each from the state that the generator is in, until
/// no step is left. With nothing held, a number is for a size.
pub proof fn law_mixed_asks(v: MixedView)
    ensures
        v.next() == MixedAction::Done <==> v.left == 0,
        v.left != 0 ==> v.next() == MixedAction::Draw(v.state),
{
}

/// A number that decides about a step: below 0.55 the step allocates, and a
/// number for the size is asked for; else it frees the held slot that is drawn.
pub proof fn law_mixed_choice(v: MixedView, bits: u32, state: u64)
    requires
        v.left > 0,
        v.pending == Pending::Choice,
    ensures
        bits < 0x3F0C_CCCD ==> ({
            let w = v.after(bits, state);
            &&& w.built == v.built
            &&& w.left == v.left
            &&& w.steps == v.steps
            &&& w.state == state
            &&& w.pending == Pending::Size
        }),
        0x3F0C_CCCD <= bits ==> ({
            let w = v.after(bits, state);
            let drawn = workload::fastrand_usize(
                state,
                v.built.live.len() as usize,
                usize::BITS,
            );
            &&& w.built == v.built.after_free(drawn.0 as int)
            &&& w.left == v.left - 1
            &&& w.steps == v.steps
            &&& w.state == drawn.1
            &&& w.pending == Pending::Size <==> w.built.live.len() == 0
        }),
{
}

/// A number that decides about a size: the step allocates so many bytes, with
/// an alignment of eight, as are drawn in the range of the number.
pub proof fn law_mixed_size(v: MixedView, bits: u32, state: u64)
    requires
        v.left > 0,
        v.pending == Pending::Size,
    ensures
        ({
            let w = v.after(bits, state);
            let (low, width) = if bits < 0x3F33_3333 {
                (1int, 1024usize)
            } else if bits < 0x3F73_3333 {
                (1024int, 8192usize)
            } else {
                (8192int, 57344usize)
            };
            let drawn = workload::fastrand_usize(state, width, usize::BITS);
            let l = Layout { size: (low + drawn.0) as usize, align: 8 };
            &&& w.built == v.built.after_alloc(l)
            &&& w.left == v.left - 1
            &&& w.steps == v.steps
            &&& w.state == drawn.1
            &&& w.pending == Pending::Choice
        }),
{
}

/// Once no step is left, numbers change nothing.
pub proof fn law_mixed_over(v: MixedView, bits: u32, state: u64)
    requires
        v.left == 0,
    ensures
        v.after(bits, state) == v,
{
}

} // verus!
