//! Streams of allocations and frees that allocators are compared on.
//!
//! A stream fixes the sizes and the order, so that all allocators see the same
//! sequence. What is allocated is put into a slot and freed from there.

use crate::heap::Layout;
use crate::powers;
use crate::workload_laws;
use vstd::prelude::*;

verus! {

/// Allocations per burst of the small workload.
pub const BURST: usize = 256;

/// Sizes of the small workload.
pub const SMALL_SIZES: [usize; 14] = [8, 16, 24, 32, 48, 64, 96, 128, 200, 256, 384, 512, 768, 1024];

/// Rounds of the growth workload.
pub const GROWTH_ROUNDS: usize = 2000;

#[derive(Debug, Clone, Copy, PartialEq, Eq, Structural)]
pub enum Op {
    /// Allocate and store the resulting pointer at `slot`.
    Alloc { slot: usize },
    /// Free the pointer previously stored at `slot`.
    Free { slot: usize },
}

/// A stream of operations and the number of slots it needs.
pub struct Workload {
    pub ops: Vec<(Layout, Op)>,
    pub slots: usize,
}

/// Operation `i` allocates for `slot`.
pub open spec fn allocs(ops: Seq<(Layout, Op)>, i: int, slot: usize) -> bool {
    0 <= i < ops.len() && ops[i].1 == (Op::Alloc { slot })
}

/// Operation `i` frees `slot`.
pub open spec fn frees(ops: Seq<(Layout, Op)>, i: int, slot: usize) -> bool {
    0 <= i < ops.len() && ops[i].1 == (Op::Free { slot })
}

/// The last operation that allocates for `slot` is `i`.
pub open spec fn is_last_alloc(ops: Seq<(Layout, Op)>, slot: usize, i: int) -> bool {
    &&& allocs(ops, i, slot)
    &&& forall|j: int| i < j < ops.len() ==> !#[trigger] allocs(ops, j, slot)
}

/// How many of the first `k` operations are allocations.
pub open spec fn alloc_count(ops: Seq<(Layout, Op)>, k: int) -> int
    decreases k,
{
    if k <= 0 {
        0
    } else {
        alloc_count(ops, k - 1) + if ops[k - 1].1 is Alloc {
            1int
        } else {
            0int
        }
    }
}

/// Looks for the layout that `slot` was last allocated with, from the end of
/// the stream backwards.
pub fn last_layout(ops: &Vec<(Layout, Op)>, slot: usize) -> (r: Option<Layout>)
    ensures
        match r {
            Some(l) => exists|i: int| #[trigger] is_last_alloc(ops@, slot, i) && ops@[i].0 == l,
            None => forall|i: int| !#[trigger] allocs(ops@, i, slot),
        },
{
    let mut i: usize = ops.len();
    while i > 0
        invariant
            i <= ops@.len(),
            forall|j: int| i <= j < ops@.len() ==> !#[trigger] allocs(ops@, j, slot),
        decreases i,
    {
        i = i - 1;
        if let Op::Alloc { slot: s } = ops[i].1 {
            if s == slot {
                assert(is_last_alloc(ops@, slot, i as int));
                return Some(ops[i].0);
            }
        }
    }
    None
}

/// The slots that the operations so far have allocated and not freed, each
/// with its layout.
pub open spec fn held(ops: Seq<(Layout, Op)>) -> Map<usize, Layout>
    decreases ops.len(),
{
    if ops.len() == 0 {
        Map::empty()
    } else {
        let h = held(ops.drop_last());
        match ops.last().1 {
            Op::Alloc { slot } => h.insert(slot, ops.last().0),
            Op::Free { slot } => h.remove(slot),
        }
    }
}

/// Every slot is allocated when it is empty and freed when it is full, with the
/// layout that it was allocated with.
pub open spec fn consistent(ops: Seq<(Layout, Op)>, slots: usize) -> bool
    decreases ops.len(),
{
    if ops.len() == 0 {
        true
    } else {
        let h = held(ops.drop_last());
        &&& consistent(ops.drop_last(), slots)
        &&& match ops.last().1 {
            Op::Alloc { slot } => slot < slots && !h.dom().contains(slot),
            Op::Free { slot } => h.dom().contains(slot) && h[slot] == ops.last().0,
        }
    }
}

/// Besides that, nothing is left allocated at the end.
pub open spec fn balanced(ops: Seq<(Layout, Op)>, slots: usize) -> bool {
    consistent(ops, slots) && held(ops) == Map::<usize, Layout>::empty()
}

/// What can be run: a slot is freed when it is full, with the layout that it was
/// last allocated with. An allocation may overwrite a slot that is full; what
/// was in it stays allocated.
pub open spec fn runnable(ops: Seq<(Layout, Op)>, slots: usize) -> bool
    decreases ops.len(),
{
    if ops.len() == 0 {
        true
    } else {
        let h = held(ops.drop_last());
        &&& runnable(ops.drop_last(), slots)
        &&& match ops.last().1 {
            Op::Alloc { slot } => slot < slots,
            Op::Free { slot } => h.dom().contains(slot) && h[slot] == ops.last().0,
        }
    }
}

/// A consistent stream can be run.
pub proof fn law_consistent_runs(ops: Seq<(Layout, Op)>, slots: usize)
    requires
        consistent(ops, slots),
    ensures
        runnable(ops, slots),
    decreases ops.len(),
{
    if ops.len() > 0 {
        law_consistent_runs(ops.drop_last(), slots);
    }
}

/// Operation `i` is the only one that allocates for `slot`.
pub open spec fn only_alloc(ops: Seq<(Layout, Op)>, slot: usize, i: int) -> bool {
    &&& allocs(ops, i, slot)
    &&& forall|k: int| #[trigger] allocs(ops, k, slot) ==> k == i
}

/// Operation `j` is the only one that frees `slot`.
pub open spec fn only_free(ops: Seq<(Layout, Op)>, slot: usize, j: int) -> bool {
    &&& frees(ops, j, slot)
    &&& forall|k: int| #[trigger] frees(ops, k, slot) ==> k == j
}

/// A slot that nothing allocates is neither held nor freed.
proof fn lemma_never_held(ops: Seq<(Layout, Op)>, slots: usize, slot: usize)
    requires
        consistent(ops, slots),
        forall|k: int| !#[trigger] allocs(ops, k, slot),
    ensures
        !held(ops).dom().contains(slot),
        forall|k: int| !#[trigger] frees(ops, k, slot),
    decreases ops.len(),
{
    if ops.len() > 0 {
        let init = ops.drop_last();
        let n = init.len() as int;
        assert forall|k: int| !#[trigger] allocs(init, k, slot) by {
            assert(!allocs(ops, k, slot));
        }
        lemma_never_held(init, slots, slot);
        assert(!allocs(ops, n, slot));
        assert forall|k: int| !#[trigger] frees(ops, k, slot) by {
            if k < n {
                assert(!frees(init, k, slot));
            }
        }
    }
}

/// A slot that is allocated once is held from then on until it is freed, and
/// it is freed at most once.
proof fn lemma_allocated_once(ops: Seq<(Layout, Op)>, slots: usize, slot: usize, i: int)
    requires
        consistent(ops, slots),
        only_alloc(ops, slot, i),
    ensures
        held(ops).dom().contains(slot) ==> held(ops)[slot] == ops[i].0 && forall|k: int|
            !#[trigger] frees(ops, k, slot),
        !held(ops).dom().contains(slot) ==> exists|j: int|
            i < j && #[trigger] only_free(ops, slot, j) && ops[j].0 == ops[i].0,
    decreases ops.len(),
{
    let init = ops.drop_last();
    let n = init.len() as int;
    assert forall|k: int| allocs(init, k, slot) == (k < n && #[trigger] allocs(ops, k, slot)) by {}
    assert forall|k: int| frees(init, k, slot) == (k < n && #[trigger] frees(ops, k, slot)) by {}
    if i == n {
        assert forall|k: int| !#[trigger] allocs(init, k, slot) by {
            if allocs(init, k, slot) {
                assert(allocs(ops, k, slot));
            }
        }
        lemma_never_held(init, slots, slot);
        assert forall|k: int| !#[trigger] frees(ops, k, slot) by {
            assert(!frees(init, k, slot));
        }
    } else {
        assert(allocs(init, i, slot));
        assert forall|k: int| #[trigger] allocs(init, k, slot) implies k == i by {
            assert(allocs(ops, k, slot));
        }
        lemma_allocated_once(init, slots, slot, i);
        assert(!allocs(ops, n, slot));
        if frees(ops, n, slot) {
            assert forall|k: int| #[trigger] frees(ops, k, slot) implies k == n by {
                if k < n {
                    assert(frees(init, k, slot));
                }
            }
            assert(only_free(ops, slot, n));
        } else if held(init).dom().contains(slot) {
            assert forall|k: int| !#[trigger] frees(ops, k, slot) by {
                if k < n {
                    assert(!frees(init, k, slot));
                }
            }
        } else {
            let j = choose|j: int|
                i < j && #[trigger] only_free(init, slot, j) && init[j].0 == init[i].0;
            assert(frees(init, j, slot));
            assert(frees(ops, j, slot));
            assert forall|k: int| #[trigger] frees(ops, k, slot) implies k == j by {
                assert(k < n);
                assert(frees(init, k, slot));
            }
            assert(only_free(ops, slot, j));
        }
    }
}

/// In a balanced stream, a slot that is allocated once is freed once, later
/// and with the same layout.
pub proof fn law_freed_once(ops: Seq<(Layout, Op)>, slots: usize, slot: usize, i: int)
    requires
        balanced(ops, slots),
        only_alloc(ops, slot, i),
    ensures
        exists|j: int| i < j && #[trigger] only_free(ops, slot, j) && ops[j].0 == ops[i].0,
{
    lemma_allocated_once(ops, slots, slot, i);
}

/// Slots are used in ascending order, each for one allocation.
pub open spec fn slots_in_order(ops: Seq<(Layout, Op)>) -> bool {
    forall|i: int, slot: usize| #[trigger] allocs(ops, i, slot) ==> slot == alloc_count(ops, i)
}

/// The number of allocations only grows.
pub proof fn lemma_alloc_count(ops: Seq<(Layout, Op)>, i: int, j: int)
    requires
        0 <= i <= j,
    ensures
        0 <= alloc_count(ops, i) <= alloc_count(ops, j),
        alloc_count(ops, j) - alloc_count(ops, i) <= j - i,
        i < j && ops[i].1 is Alloc ==> alloc_count(ops, i) < alloc_count(ops, j),
    decreases j,
{
    if j > 0 {
        if i < j {
            lemma_alloc_count(ops, i, j - 1);
        } else {
            lemma_alloc_count(ops, 0, j - 1);
        }
    }
}

/// The number of allocations before a point does not depend on what comes
/// after it.
pub proof fn lemma_alloc_count_prefix(a: Seq<(Layout, Op)>, b: Seq<(Layout, Op)>, k: int)
    requires
        forall|i: int| 0 <= i < k ==> a[i] == b[i],
    ensures
        alloc_count(a, k) == alloc_count(b, k),
    decreases k,
{
    if k > 0 {
        lemma_alloc_count_prefix(a, b, k - 1);
    }
}

/// A slot below the number of allocations has been allocated.
proof fn lemma_slot_allocated(ops: Seq<(Layout, Op)>, k: int, slot: int) -> (i: int)
    requires
        0 <= k <= ops.len(),
        slots_in_order(ops),
        0 <= slot < alloc_count(ops, k),
    ensures
        0 <= i < k,
        ops[i].1 is Alloc,
        alloc_count(ops, i) == slot,
    decreases k,
{
    if slot < alloc_count(ops, k - 1) {
        lemma_slot_allocated(ops, k - 1, slot)
    } else {
        k - 1
    }
}

/// With slots used in order, each of them is allocated exactly once, and a
/// later allocation has a higher slot.
pub proof fn law_slots_in_order(ops: Seq<(Layout, Op)>, slot: usize)
    requires
        slots_in_order(ops),
        slot < alloc_count(ops, ops.len() as int),
    ensures
        exists|i: int| #[trigger] only_alloc(ops, slot, i),
        forall|i: int, j: int, s: usize, t: usize|
            i < j && #[trigger] allocs(ops, i, s) && #[trigger] allocs(ops, j, t) ==> s < t,
{
    assert forall|i: int, j: int, s: usize, t: usize|
        i < j && #[trigger] allocs(ops, i, s) && #[trigger] allocs(ops, j, t) implies s < t by {
        lemma_alloc_count(ops, i, j);
    }
    let i = lemma_slot_allocated(ops, ops.len() as int, slot as int);
    match ops[i].1 {
        Op::Alloc { slot: s } => {
            assert(allocs(ops, i, s));
            assert(s == slot);
        },
        Op::Free { slot: s } => {},
    }
    assert(only_alloc(ops, slot, i)) by {
        assert forall|k: int| #[trigger] allocs(ops, k, slot) implies k == i by {
            if k < i {
                assert(allocs(ops, k, slot) && allocs(ops, i, slot));
            } else if k > i {
                assert(allocs(ops, i, slot) && allocs(ops, k, slot));
            }
        }
    }
}

/// Operation `t` of bursts of `b` allocations, each followed by the frees in
/// reverse order. Slot `i` has the layout `layouts[i]`.
pub open spec fn burst_op(layouts: Seq<Layout>, b: int, t: int) -> (Layout, Op) {
    let c = t / (2 * b);
    let k = t % (2 * b);
    if k < b {
        let slot = c * b + k;
        (layouts[slot], Op::Alloc { slot: slot as usize })
    } else {
        let slot = c * b + (2 * b - 1 - k);
        (layouts[slot], Op::Free { slot: slot as usize })
    }
}

/// All operations of the bursts.
pub open spec fn burst_ops(layouts: Seq<Layout>, b: int) -> Seq<(Layout, Op)> {
    Seq::new(2 * layouts.len(), |t: int| burst_op(layouts, b, t))
}

/// Every operation is on a size from `low` to `high`, aligned to eight bytes.
pub open spec fn sizes_within(ops: Seq<(Layout, Op)>, low: int, high: int) -> bool {
    forall|t: int|
        0 <= t < ops.len() ==> low <= (#[trigger] ops[t]).0.size <= high && ops[t].0.align == 8
}

/// `t` as a burst and a position in it.
pub proof fn lemma_burst_split(b: int, c: int, k: int)
    requires
        b > 0,
        0 <= k < 2 * b,
        0 <= c,
    ensures
        (c * (2 * b) + k) / (2 * b) == c,
        (c * (2 * b) + k) % (2 * b) == k,
        c * (2 * b) == 2 * (c * b),
{
    vstd::arithmetic::div_mod::lemma_fundamental_div_mod_converse(c * (2 * b) + k, 2 * b, c, k);
    assert(c * (2 * b) == 2 * (c * b)) by (nonlinear_arith);
}

/// What is held in burst `c` after `k` of its operations.
spec fn burst_held(layouts: Seq<Layout>, b: int, c: int, k: int) -> Map<usize, Layout> {
    let n = if k <= b {
        k
    } else {
        2 * b - k
    };
    Map::new(|s: usize| c * b <= s < c * b + n, |s: usize| layouts[s as int])
}

proof fn lemma_burst_held(layouts: Seq<Layout>, b: int, c: int, k: int)
    requires
        b > 0,
        0 <= c,
        0 <= k < 2 * b,
        layouts.len() <= usize::MAX,
        c * b + b <= layouts.len() || (c * b == layouts.len() && k == 0),
    ensures
        ({
            let ops = burst_ops(layouts, b).take(c * (2 * b) + k);
            &&& held(ops) == burst_held(layouts, b, c, k)
            &&& consistent(ops, layouts.len() as usize)
        }),
    decreases c, k,
{
    let all = burst_ops(layouts, b);
    let t = c * (2 * b) + k;
    let ops = all.take(t);
    lemma_burst_split(b, c, k);
    assert(0 <= c * b) by (nonlinear_arith)
        requires
            0 <= c,
            0 < b,
    ;
    if t == 0 {
        assert(c == 0) by (nonlinear_arith)
            requires
                c * (2 * b) + k == 0,
                0 <= c,
                0 <= k,
                0 < b,
        ;
        assert(ops =~= Seq::empty());
        assert(held(ops) =~= burst_held(layouts, b, c, k));
    } else {
        let (c1, k1) = if k > 0 {
            (c, k - 1)
        } else {
            (c - 1, 2 * b - 1)
        };
        assert(c1 * (2 * b) + k1 == t - 1) by (nonlinear_arith)
            requires
                t == c * (2 * b) + k,
                (c1 == c && k1 == k - 1) || (c1 == c - 1 && k1 == 2 * b - 1 && k == 0),
        ;
        assert(c == 0 ==> c * (2 * b) == 0) by (nonlinear_arith);
        assert((c - 1) * b == c * b - b) by (nonlinear_arith);
        lemma_burst_held(layouts, b, c1, k1);
        lemma_burst_split(b, c1, k1);
        assert(ops.drop_last() =~= all.take(t - 1));
        assert(ops.last() == burst_op(layouts, b, t - 1));
        assert(held(ops) =~= burst_held(layouts, b, c, k));
    }
}

/// Bursts free everything that they allocate, with the right layouts.
pub proof fn law_bursts_balanced(layouts: Seq<Layout>, b: int)
    requires
        b > 0,
        layouts.len() % b as nat == 0,
        layouts.len() <= usize::MAX,
    ensures
        balanced(burst_ops(layouts, b), layouts.len() as usize),
{
    let c = layouts.len() as int / b;
    vstd::arithmetic::div_mod::lemma_fundamental_div_mod(layouts.len() as int, b);
    assert(b * c == c * b) by (nonlinear_arith);
    assert(c >= 0) by (nonlinear_arith)
        requires
            c == layouts.len() as int / b,
            b > 0,
    ;
    lemma_burst_held(layouts, b, c, 0);
    lemma_burst_split(b, c, 0);
    let ops = burst_ops(layouts, b);
    assert(ops.take(c * (2 * b)) =~= ops);
    assert(burst_held(layouts, b, c, 0) =~= Map::<usize, Layout>::empty());
}

/// The operations of bursts have the sizes of their layouts.
proof fn lemma_burst_sizes(layouts: Seq<Layout>, b: int, low: int, high: int)
    requires
        b > 0,
        layouts.len() % b as nat == 0,
        forall|i: int|
            0 <= i < layouts.len() ==> low <= (#[trigger] layouts[i]).size <= high
                && layouts[i].align == 8,
    ensures
        sizes_within(burst_ops(layouts, b), low, high),
{
    let ops = burst_ops(layouts, b);
    let n = layouts.len() as int;
    let q = n / b;
    vstd::arithmetic::div_mod::lemma_fundamental_div_mod(n, b);
    assert forall|t: int| 0 <= t < ops.len() implies low <= (#[trigger] ops[t]).0.size <= high
        && ops[t].0.align == 8 by {
        let c = t / (2 * b);
        let k = t % (2 * b);
        vstd::arithmetic::div_mod::lemma_fundamental_div_mod(t, 2 * b);
        assert(0 <= c < q && 0 <= c * b && c * b + b <= n) by (nonlinear_arith)
            requires
                t == (2 * b) * c + k,
                0 <= k < 2 * b,
                0 <= t < 2 * n,
                n == b * q,
                b > 0,
        ;
        let slot = if k < b {
            c * b + k
        } else {
            c * b + (2 * b - 1 - k)
        };
        assert(0 <= slot < n);
        assert(ops[t].0 == layouts[slot]);
    }
}

pub open spec fn byte_layout(size: usize) -> Layout {
    Layout { size, align: 8 }
}

/// The layouts of the small workload, by slot.
pub open spec fn small_layouts(picks: Seq<usize>) -> Seq<Layout> {
    picks.map_values(|p: usize| byte_layout(SMALL_SIZES[p as int]))
}

/// Bursts of allocations of the picked sizes, each followed by its frees, the
/// most recent allocation first.
pub fn small_lifo_from(picks: &Vec<usize>) -> (w: Workload)
    requires
        picks@.len() % BURST as nat == 0,
        forall|i: int| 0 <= i < picks@.len() ==> (#[trigger] picks@[i]) < 14,
    ensures
        w.ops@ == burst_ops(small_layouts(picks@), BURST as int),
        w.slots == picks@.len(),
        balanced(w.ops@, w.slots),
        sizes_within(w.ops@, 8, 1024),
{
    let ghost ls = small_layouts(picks@);
    let ghost all = burst_ops(ls, BURST as int);
    let mut ops: Vec<(Layout, Op)> = Vec::new();
    let cycles: usize = picks.len() / BURST;
    let mut c: usize = 0;
    assert(all.take(0) =~= Seq::empty());
    while c < cycles
        invariant
            c <= cycles,
            cycles * BURST == picks@.len(),
            picks@.len() <= usize::MAX,
            ls == small_layouts(picks@),
            all == burst_ops(ls, BURST as int),
            forall|i: int| 0 <= i < picks@.len() ==> (#[trigger] picks@[i]) < 14,
            ops@ == all.take(c * 512),
        decreases cycles - c,
    {
        let mut i: usize = 0;
        while i < BURST
            invariant
                i <= BURST,
                c < cycles,
                cycles * BURST == picks@.len(),
                picks@.len() <= usize::MAX,
                ls == small_layouts(picks@),
                all == burst_ops(ls, BURST as int),
                forall|i: int| 0 <= i < picks@.len() ==> (#[trigger] picks@[i]) < 14,
                ops@ == all.take(c * 512 + i),
            decreases BURST - i,
        {
            let slot: usize = c * BURST + i;
            proof {
                lemma_burst_split(BURST as int, c as int, i as int);
                assert(all[c * 512 + i] == burst_op(ls, BURST as int, c * 512 + i));
                assert(ls[slot as int] == byte_layout(SMALL_SIZES[picks@[slot as int] as int]));
            }
            let s: usize = SMALL_SIZES[picks[slot]];
            ops.push((Layout { size: s, align: 8 }, Op::Alloc { slot }));
            assert(ops@ =~= all.take(c * 512 + i + 1));
            i = i + 1;
        }
        // Free in reverse: the most recent allocation of this burst first.
        while i > 0
            invariant
                i <= BURST,
                c < cycles,
                cycles * BURST == picks@.len(),
                picks@.len() <= usize::MAX,
                ls == small_layouts(picks@),
                all == burst_ops(ls, BURST as int),
                ops@ == all.take(c * 512 + 512 - i),
            decreases i,
        {
            i = i - 1;
            let slot: usize = c * BURST + i;
            let layout = last_layout(&ops, slot);
            proof {
                let at = c * 512 + i;
                lemma_burst_split(BURST as int, c as int, i as int);
                assert(ops@[at] == burst_op(ls, BURST as int, at));
                assert(allocs(ops@, at, slot));
                let k = choose|k: int| #[trigger]
                    is_last_alloc(ops@, slot, k) && ops@[k].0 == layout.unwrap();
                assert(ops@[k] == burst_op(ls, BURST as int, k));
                lemma_burst_split(BURST as int, c as int, 511 - i);
                assert(all[c * 512 + 511 - i] == burst_op(ls, BURST as int, c * 512 + 511 - i));
            }
            if let Some(l) = layout {
                ops.push((l, Op::Free { slot }));
            }
            assert(ops@ =~= all.take(c * 512 + 512 - i));
        }
        c = c + 1;
        assert(ops@ == all.take(c * 512));
    }
    proof {
        assert(all.take(cycles * 512) =~= all);
        law_bursts_balanced(ls, BURST as int);
        assert forall|i: int| 0 <= i < ls.len() implies 8 <= (#[trigger] ls[i]).size <= 1024
            && ls[i].align == 8 by {
            let p = picks@[i] as int;
            assert(p == 0 || p == 1 || p == 2 || p == 3 || p == 4 || p == 5 || p == 6 || p == 7 || p
                == 8 || p == 9 || p == 10 || p == 11 || p == 12 || p == 13);
        }
        lemma_burst_sizes(ls, BURST as int, 8, 1024);
    }
    Workload { ops, slots: cycles * BURST }
}

/// Allocations per round of the growth workload: 16, 32, ..., 4096.
pub const GROWTH_STEPS: usize = 9;

/// The layouts of the growth workload, by slot.
pub open spec fn growth_layouts() -> Seq<Layout> {
    Seq::new(
        (GROWTH_ROUNDS * GROWTH_STEPS) as nat,
        |i: int| byte_layout((16 * powers::p2(i % GROWTH_STEPS as int)) as usize),
    )
}

/// Many short-lived buffers that grow: 16, 32, ..., 4096 bytes are allocated,
/// then freed in reverse.
pub fn workload_growth() -> (w: Workload)
    ensures
        w.ops@ == burst_ops(growth_layouts(), GROWTH_STEPS as int),
        w.slots == GROWTH_ROUNDS * GROWTH_STEPS,
        balanced(w.ops@, w.slots),
        sizes_within(w.ops@, 16, 4096),
        w.ops@.len() == 36000,
        forall|c: int, k: int|
            0 <= c < 2000 && 0 <= k < 9 ==> #[trigger] workload_laws::grows_at(w.ops@, c, k),
{
    let ghost ls = growth_layouts();
    let ghost all = burst_ops(ls, GROWTH_STEPS as int);
    let mut ops: Vec<(Layout, Op)> = Vec::new();
    let mut next_slot: usize = 0;
    let mut c: usize = 0;
    assert(all.take(0) =~= Seq::empty());
    while c < GROWTH_ROUNDS
        invariant
            c <= GROWTH_ROUNDS,
            ls == growth_layouts(),
            all == burst_ops(ls, GROWTH_STEPS as int),
            next_slot == c * GROWTH_STEPS,
            ops@ == all.take(c * 18),
        decreases GROWTH_ROUNDS - c,
    {
        let mut s: usize = 16;
        let mut these: Vec<(Layout, usize)> = Vec::new();
        proof {
            powers::lemma_p2_values();
        }
        while s <= 4096
            invariant
                c < GROWTH_ROUNDS,
                ls == growth_layouts(),
                all == burst_ops(ls, GROWTH_STEPS as int),
                these@.len() <= 9,
                these@.len() == 9 <==> s > 4096,
                s == 16 * powers::p2(these@.len() as int),
                s <= 8192,
                next_slot == c * GROWTH_STEPS + these@.len(),
                forall|j: int|
                    0 <= j < these@.len() ==> (#[trigger] these@[j]).1 == c * GROWTH_STEPS + j
                        && these@[j].0 == ls[c * GROWTH_STEPS + j],
                ops@ == all.take(c * 18 + these@.len()),
            decreases 8192 - s,
        {
            let l = Layout { size: s, align: 8 };
            let ghost j = these@.len() as int;
            proof {
                lemma_burst_split(GROWTH_STEPS as int, c as int, j);
                assert(all[c * 18 + j] == burst_op(ls, GROWTH_STEPS as int, c * 18 + j));
                vstd::arithmetic::div_mod::lemma_fundamental_div_mod_converse(
                    next_slot as int,
                    GROWTH_STEPS as int,
                    c as int,
                    j,
                );
                powers::lemma_p2_step(j);
                powers::lemma_p2_values();
                assert(ls[next_slot as int] == byte_layout(s));
            }
            ops.push((l, Op::Alloc { slot: next_slot }));
            these.push((l, next_slot));
            next_slot = next_slot + 1;
            s = s * 2;
            proof {
                assert(ops@ =~= all.take(c * 18 + j + 1));
                if j + 1 == 9 {
                    assert(s == 8192);
                } else {
                    powers::lemma_p2_mono(j + 1, 8);
                }
            }
        }
        let mut k: usize = these.len();
        while k > 0
            invariant
                c < GROWTH_ROUNDS,
                ls == growth_layouts(),
                all == burst_ops(ls, GROWTH_STEPS as int),
                these@.len() == 9,
                k <= 9,
                forall|j: int|
                    0 <= j < these@.len() ==> (#[trigger] these@[j]).1 == c * GROWTH_STEPS + j
                        && these@[j].0 == ls[c * GROWTH_STEPS + j],
                ops@ == all.take(c * 18 + 18 - k),
            decreases k,
        {
            k = k - 1;
            proof {
                lemma_burst_split(GROWTH_STEPS as int, c as int, 17 - k);
                assert(all[c * 18 + 17 - k] == burst_op(
                    ls,
                    GROWTH_STEPS as int,
                    c * 18 + 17 - k,
                ));
            }
            let (l, slot) = these[k];
            ops.push((l, Op::Free { slot }));
            assert(ops@ =~= all.take(c * 18 + 18 - k));
        }
        c = c + 1;
    }
    proof {
        assert(all.take(36000) =~= all);
        law_bursts_balanced(ls, GROWTH_STEPS as int);
        powers::lemma_p2_values();
        assert forall|i: int| 0 <= i < ls.len() implies 16 <= (#[trigger] ls[i]).size <= 4096
            && ls[i].align == 8 by {
            powers::lemma_p2_mono(0, i % GROWTH_STEPS as int);
            powers::lemma_p2_mono(i % GROWTH_STEPS as int, 8);
        }
        lemma_burst_sizes(ls, GROWTH_STEPS as int, 16, 4096);
        assert forall|c: int, k: int| 0 <= c < 2000 && 0 <= k < 9 implies #[trigger] workload_laws::grows_at(
            all,
            c,
            k,
        ) by {
            workload_laws::law_growth(c, k);
        }
    }
    Workload { ops, slots: next_slot }
}

/// What `Rng::usize` of the crate `fastrand` draws below `n` from the state
/// `seed`, and the state after it. It depends on the width of `usize`, which is
/// `bits`: where that is 32, half of what the generator puts out is used.
pub uninterp spec fn fastrand_usize(seed: u64, n: usize, bits: u32) -> (usize, u64);

/// Draws a number below `n` with `fastrand::Rng::usize`, from a generator in
/// the state `seed`, and reads the state after it. The contract claims that
/// both are determined by the arguments and the width of `usize`, and that the
/// number is below `n`; it does not say how the numbers are distributed.
#[verifier::external_body]
pub(crate) fn draw_below(seed: u64, n: usize) -> (r: (usize, u64))
    requires
        n > 0,
    ensures
        r == fastrand_usize(seed, n, usize::BITS),
        r.0 < n,
{
    let mut rng = fastrand::Rng::with_seed(seed);
    let drawn = rng.usize(..n);
    (drawn, rng.get_seed())
}

/// The state after `k` draws of a small size.
pub open spec fn small_state(seed: u64, k: int) -> u64
    decreases k,
{
    if k <= 0 {
        seed
    } else {
        fastrand_usize(small_state(seed, k - 1), 14, usize::BITS).1
    }
}

/// The sizes that are drawn for the small workload.
pub open spec fn small_picks(seed: u64, n: int) -> Seq<usize> {
    Seq::new(n as nat, |k: int| fastrand_usize(small_state(seed, k), 14, usize::BITS).0)
}

/// Bursts of allocations of random small sizes with their frees, `n`
/// allocations rounded down to whole bursts.
pub fn workload_small_lifo(n: usize, seed: u64) -> (w: Workload)
    ensures
        ({
            let m = n as int / BURST as int * BURST;
            &&& w.ops@ == burst_ops(small_layouts(small_picks(seed, m)), BURST as int)
            &&& w.slots == m
            &&& balanced(w.ops@, w.slots)
            &&& forall|k: int| 0 <= k < m ==> (#[trigger] small_picks(seed, m)[k]) < 14
            &&& sizes_within(w.ops@, 8, 1024)
        }),
{
    let cycles: usize = n / BURST;
    let m: usize = cycles * BURST;
    let mut picks: Vec<usize> = Vec::new();
    let mut state: u64 = seed;
    while picks.len() < m
        invariant
            picks@.len() <= m,
            picks@ == small_picks(seed, picks@.len() as int),
            state == small_state(seed, picks@.len() as int),
            forall|i: int| 0 <= i < picks@.len() ==> (#[trigger] picks@[i]) < 14,
        decreases m - picks@.len(),
    {
        let ghost k = picks@.len() as int;
        let (drawn, next) = draw_below(state, 14);
        state = next;
        picks.push(drawn);
        assert(picks@ =~= small_picks(seed, k + 1));
    }
    assert(picks@ == small_picks(seed, m as int));
    small_lifo_from(&picks)
}

} // verus!
