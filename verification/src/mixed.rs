//! Random allocations and frees of mixed sizes.
//!
//! Whether a step allocates and how large it gets depends on numbers between
//! zero and one. They are drawn by whoever runs the builder, which says when
//! it needs one and from which state of the generator.

use crate::heap::Layout;
use crate::workload;
use crate::workload::{Op, Workload};
use vstd::prelude::*;

verus! {

/// How large an allocation of the mixed workload is.
#[derive(Debug, Clone, Copy, PartialEq, Eq, Structural)]
pub enum SizeRange {
    /// 1 to 1024 bytes.
    Small,
    /// 1 to 9 KiB.
    Mid,
    /// 8 to 64 KiB.
    Large,
}

/// Shares of the mixed workload, as bit patterns of single-precision numbers
/// between zero and one. Such patterns are ordered as the numbers are.
pub const ALLOC_SHARE: u32 = 0x3F0C_CCCD;  // 0.55

pub const SMALL_SHARE: u32 = 0x3F33_3333;  // 0.70

pub const SMALL_AND_MID_SHARE: u32 = 0x3F73_3333;  // 0.95

/// The range that a number drawn between zero and one stands for: 70% small,
/// 25% middle, 5% large.
pub open spec fn range_of(bits: u32) -> SizeRange {
    if bits < SMALL_SHARE {
        SizeRange::Small
    } else if bits < SMALL_AND_MID_SHARE {
        SizeRange::Mid
    } else {
        SizeRange::Large
    }
}

impl SizeRange {
    /// The range that is drawn.
    pub fn of_draw(bits: u32) -> (r: SizeRange)
        ensures
            r == range_of(bits),
    {
        if bits < SMALL_SHARE {
            SizeRange::Small
        } else if bits < SMALL_AND_MID_SHARE {
            SizeRange::Mid
        } else {
            SizeRange::Large
        }
    }

    /// The smallest size.
    pub open spec fn low(self) -> int {
        match self {
            SizeRange::Small => 1,
            SizeRange::Mid => 1024,
            SizeRange::Large => 8192,
        }
    }

    /// How many sizes there are.
    pub open spec fn width(self) -> int {
        match self {
            SizeRange::Small => 1024,
            SizeRange::Mid => 8192,
            SizeRange::Large => 57344,
        }
    }

    /// How many sizes there are.
    pub fn span(&self) -> (r: usize)
        ensures
            r == self.width(),
    {
        match self {
            SizeRange::Small => 1024,
            SizeRange::Mid => 8 * 1024,
            SizeRange::Large => 56 * 1024,
        }
    }

    /// The size at `offset`.
    pub fn size(&self, offset: usize) -> (r: usize)
        requires
            offset < self.width(),
        ensures
            r == self.low() + offset,
    {
        match self {
            SizeRange::Small => 1 + offset,
            SizeRange::Mid => 1024 + offset,
            SizeRange::Large => 8 * 1024 + offset,
        }
    }
}

/// A slot that is held was last allocated with the layout that it is held
/// with.
proof fn lemma_held_layout(ops: Seq<(Layout, Op)>, slot: usize)
    requires
        workload::held(ops).dom().contains(slot),
    ensures
        exists|i: int| workload::allocs(ops, i, slot),
        forall|i: int| #[trigger] workload::is_last_alloc(ops, slot, i) ==> ops[i].0 == workload::held(ops)[slot],
    decreases ops.len(),
{
    if ops.len() > 0 {
        let init = ops.drop_last();
        let n = init.len() as int;
        if ops.last().1 == (Op::Alloc { slot }) {
            assert(workload::allocs(ops, n, slot));
            assert forall|i: int| #[trigger] workload::is_last_alloc(ops, slot, i) implies ops[i].0 == workload::held(
                ops,
            )[slot] by {
                if i < n {
                    assert(!workload::allocs(ops, n, slot));
                }
            }
        } else {
            lemma_held_layout(init, slot);
            let k = choose|k: int| workload::allocs(init, k, slot);
            assert(workload::allocs(ops, k, slot));
            assert forall|i: int| #[trigger] workload::is_last_alloc(ops, slot, i) implies ops[i].0 == workload::held(
                ops,
            )[slot] by {
                assert(i != n);
                assert(workload::allocs(init, i, slot));
                assert forall|j: int| i < j < init.len() implies !#[trigger] workload::allocs(
                    init,
                    j,
                    slot,
                ) by {
                    assert(!workload::allocs(ops, j, slot));
                }
                assert(workload::is_last_alloc(init, slot, i));
            }
        }
    }
}

/// More slots do no harm.
proof fn lemma_consistent_mono(ops: Seq<(Layout, Op)>, slots: usize, more: usize)
    requires
        workload::consistent(ops, slots),
        slots <= more,
    ensures
        workload::consistent(ops, more),
    decreases ops.len(),
{
    if ops.len() > 0 {
        lemma_consistent_mono(ops.drop_last(), slots, more);
    }
}

/// Slots that are held lie below the number of slots.
proof fn lemma_held_below(ops: Seq<(Layout, Op)>, slots: usize, slot: usize)
    requires
        workload::consistent(ops, slots),
        workload::held(ops).dom().contains(slot),
    ensures
        slot < slots,
    decreases ops.len(),
{
    if ops.len() > 0 {
        if ops.last().1 != (Op::Alloc { slot }) {
            lemma_held_below(ops.drop_last(), slots, slot);
        }
    }
}

/// A mixed workload as a value: the operations so far, the slots that are
/// held, and the number of slots used.
#[verifier::ext_equal]
pub struct MixedOpsView {
    pub ops: Seq<(Layout, Op)>,
    pub live: Seq<usize>,
    pub next_slot: int,
}

impl MixedOpsView {
    pub open spec fn inv(self) -> bool {
        &&& 0 <= self.next_slot <= usize::MAX
        &&& workload::consistent(self.ops, self.next_slot as usize)
        &&& self.live.no_duplicates()
        &&& forall|s: usize| #[trigger] workload::held(self.ops).dom().contains(s) <==> self.live.contains(s)
    }

    pub open spec fn after_alloc(self, l: Layout) -> MixedOpsView {
        MixedOpsView {
            ops: self.ops.push((l, Op::Alloc { slot: self.next_slot as usize })),
            live: self.live.push(self.next_slot as usize),
            next_slot: self.next_slot + 1,
        }
    }

    /// The operation that frees `slot`.
    pub open spec fn free_of(self, slot: usize) -> (Layout, Op) {
        (workload::held(self.ops)[slot], Op::Free { slot })
    }

    /// Entry `pick` of the live slots is freed; the last one takes its place.
    pub open spec fn after_free(self, pick: int) -> MixedOpsView {
        MixedOpsView {
            ops: self.ops.push(self.free_of(self.live[pick])),
            live: self.live.update(pick, self.live.last()).drop_last(),
            next_slot: self.next_slot,
        }
    }

    /// The live slots are freed, the last one first.
    pub open spec fn drained(self) -> Seq<(Layout, Op)>
        decreases self.live.len(),
    {
        if self.live.len() == 0 {
            self.ops
        } else {
            self.after_free(self.live.len() - 1).drained()
        }
    }
}

proof fn lemma_mixed_alloc(v: MixedOpsView, l: Layout)
    requires
        v.inv(),
        v.next_slot < usize::MAX,
    ensures
        v.after_alloc(l).inv(),
{
    let w = v.after_alloc(l);
    let slot = v.next_slot as usize;
    assert(w.ops.drop_last() =~= v.ops);
    lemma_consistent_mono(v.ops, slot, w.next_slot as usize);
    if workload::held(v.ops).dom().contains(slot) {
        lemma_held_below(v.ops, slot, slot);
    }
    assert forall|s: usize| #[trigger] workload::held(w.ops).dom().contains(s) <==> w.live.contains(s) by {
        if v.live.contains(s) {
            let i = choose|i: int| 0 <= i < v.live.len() && v.live[i] == s;
            assert(w.live[i] == s);
        }
        if w.live.contains(s) {
            let i = choose|i: int| 0 <= i < w.live.len() && w.live[i] == s;
            if i < v.live.len() {
                assert(v.live[i] == s);
            }
        }
        assert(w.live[v.live.len() as int] == slot);
        assert(workload::held(v.ops).dom().contains(s) <==> v.live.contains(s));
    }
    assert(!v.live.contains(slot)) by {
        assert(workload::held(v.ops).dom().contains(slot) <==> v.live.contains(slot));
    }
}

pub proof fn lemma_mixed_free(v: MixedOpsView, pick: int)
    requires
        v.inv(),
        0 <= pick < v.live.len(),
    ensures
        v.after_free(pick).inv(),
        workload::held(v.ops).dom().contains(v.live[pick]),
{
    let w = v.after_free(pick);
    let slot = v.live[pick];
    let n = v.live.len() - 1;
    assert(v.live.contains(slot));
    assert(w.ops.drop_last() =~= v.ops);
    assert forall|i: int| 0 <= i < n implies #[trigger] w.live[i] == if i == pick {
        v.live[n]
    } else {
        v.live[i]
    } by {}
    assert forall|s: usize| #[trigger] workload::held(w.ops).dom().contains(s) <==> w.live.contains(s) by {
        assert(workload::held(v.ops).dom().contains(s) <==> v.live.contains(s));
        if v.live.contains(s) && s != slot {
            let i = choose|i: int| 0 <= i < v.live.len() && v.live[i] == s;
            if i == n {
                assert(w.live[pick] == s);
            } else {
                assert(w.live[i] == s);
            }
        }
        if w.live.contains(s) {
            let i = choose|i: int| 0 <= i < w.live.len() && w.live[i] == s;
            if i == pick {
                assert(v.live[n] == s);
            } else {
                assert(v.live[i] == s);
            }
        }
    }
}

/// A workload of random allocations and frees that is built step by step, from
/// draws that are made outside.
pub struct MixedOps {
    ops: Vec<(Layout, Op)>,
    live: Vec<usize>,
    next_slot: usize,
}

impl View for MixedOps {
    type V = MixedOpsView;

    closed spec fn view(&self) -> MixedOpsView {
        MixedOpsView { ops: self.ops@, live: self.live@, next_slot: self.next_slot as int }
    }
}

impl MixedOps {
    pub open spec fn wf(&self) -> bool {
        self@.inv()
    }

    pub fn new() -> (r: MixedOps)
        ensures
            r.wf(),
            r@ == (MixedOpsView { ops: Seq::empty(), live: Seq::empty(), next_slot: 0 }),
    {
        MixedOps { ops: Vec::new(), live: Vec::new(), next_slot: 0 }
    }

    /// How many slots are held. With none, only an allocation can follow.
    pub fn live(&self) -> (r: usize)
        ensures
            r == self@.live.len(),
    {
        self.live.len()
    }

    /// Adds an allocation into a new slot.
    pub fn allocate(&mut self, range: SizeRange, offset: usize)
        requires
            old(self).wf(),
            offset < range.width(),
            old(self)@.next_slot < usize::MAX,
        ensures
            final(self).wf(),
            final(self)@ == old(self)@.after_alloc(workload::byte_layout((range.low() + offset) as usize)),
    {
        let l = Layout { size: range.size(offset), align: 8 };
        proof {
            lemma_mixed_alloc(self@, l);
        }
        let slot: usize = self.next_slot;
        self.next_slot = self.next_slot + 1;
        self.ops.push((l, Op::Alloc { slot }));
        self.live.push(slot);
    }

    /// Adds the free of the slot that is entry `pick` of the held ones.
    pub fn free(&mut self, pick: usize)
        requires
            old(self).wf(),
            pick < old(self)@.live.len(),
        ensures
            final(self).wf(),
            final(self)@ == old(self)@.after_free(pick as int),
    {
        let ghost v = self@;
        proof {
            lemma_mixed_free(v, pick as int);
            lemma_held_layout(v.ops, v.live[pick as int]);
        }
        let slot: usize = self.live.swap_remove(pick);
        if let Some(l) = workload::last_layout(&self.ops, slot) {
            self.ops.push((l, Op::Free { slot }));
        }
        proof {
            assert(self.live@ =~= v.after_free(pick as int).live);
        }
    }

    /// What the number decides: 55% of the steps allocate.
    pub fn chooses_alloc(bits: u32) -> (r: bool)
        ensures
            r == (bits < ALLOC_SHARE),
    {
        bits < ALLOC_SHARE
    }

    /// Adds an allocation. Its range is drawn with `bits`, its size in that
    /// range with the generator in the state `seed`. Returns the state after.
    pub fn allocate_random(&mut self, bits: u32, seed: u64) -> (next: u64)
        requires
            old(self).wf(),
            old(self)@.next_slot < usize::MAX,
        ensures
            final(self).wf(),
            ({
                let range = range_of(bits);
                let drawn = workload::fastrand_usize(seed, range.width() as usize, usize::BITS);
                &&& next == drawn.1
                &&& drawn.0 < range.width()
                &&& final(self)@ == old(self)@.after_alloc(
                    workload::byte_layout((range.low() + drawn.0) as usize),
                )
            }),
    {
        let range = SizeRange::of_draw(bits);
        let (drawn, next) = workload::draw_below(seed, range.span());
        self.allocate(range, drawn);
        next
    }

    /// Adds the free of a held slot that is drawn with the generator in the
    /// state `seed`. Returns the state after.
    pub fn free_random(&mut self, seed: u64) -> (next: u64)
        requires
            old(self).wf(),
            old(self)@.live.len() > 0,
        ensures
            final(self).wf(),
            ({
                let live = old(self)@.live.len();
                let drawn = workload::fastrand_usize(seed, live as usize, usize::BITS);
                &&& next == drawn.1
                &&& drawn.0 < live
                &&& final(self)@ == old(self)@.after_free(drawn.0 as int)
            }),
    {
        let (drawn, next) = workload::draw_below(seed, self.live.len());
        self.free(drawn);
        next
    }

    /// Frees what is still held, the last slot first.
    pub fn finish(self) -> (w: Workload)
        requires
            self.wf(),
        ensures
            w.ops@ == self@.drained(),
            w.slots == self@.next_slot,
            workload::balanced(w.ops@, w.slots),
    {
        let mut m = self;
        let ghost want = m@.drained();
        while m.live.len() > 0
            invariant
                m.wf(),
                m@.drained() == want,
                m.next_slot == self.next_slot,
            decreases m.live@.len(),
        {
            let last: usize = m.live.len() - 1;
            m.free(last);
        }
        proof {
            assert forall|s: usize| !workload::held(m@.ops).dom().contains(s) by {
                assert(!m@.live.contains(s));
            }
            assert(workload::held(m@.ops) =~= Map::empty());
        }
        Workload { ops: m.ops, slots: m.next_slot }
    }
}

impl MixedOpsView {
    /// The operations add up: every slot was allocated in turn, with a size
    /// from 1 to 65535, and what is not held any more was freed.
    pub open spec fn tallied(self) -> bool {
        &&& workload::alloc_count(self.ops, self.ops.len() as int) == self.next_slot
        &&& self.live.len() == 2 * self.next_slot - self.ops.len()
        &&& workload::slots_in_order(self.ops)
        &&& workload::sizes_within(self.ops, 1, 65535)
    }
}

/// A held slot has the layout of one of the operations.
proof fn lemma_held_is_op(ops: Seq<(Layout, Op)>, slot: usize)
    requires
        workload::held(ops).dom().contains(slot),
    ensures
        exists|i: int| 0 <= i < ops.len() && (#[trigger] ops[i]).0 == workload::held(ops)[slot],
    decreases ops.len(),
{
    if ops.len() > 0 {
        let init = ops.drop_last();
        if ops.last().1 == (Op::Alloc { slot }) {
            assert(ops[ops.len() - 1].0 == workload::held(ops)[slot]);
        } else {
            lemma_held_is_op(init, slot);
            let i = choose|i: int|
                0 <= i < init.len() && (#[trigger] init[i]).0 == workload::held(init)[slot];
            assert(ops[i].0 == workload::held(ops)[slot]);
        }
    }
}

/// One more operation keeps the slots in order if it is a free, or an
/// allocation for the next slot.
proof fn lemma_in_order_push(ops: Seq<(Layout, Op)>, op: (Layout, Op))
    requires
        workload::slots_in_order(ops),
        op.1 matches Op::Alloc { slot } ==> slot == workload::alloc_count(ops, ops.len() as int),
    ensures
        workload::slots_in_order(ops.push(op)),
        workload::alloc_count(ops.push(op), ops.len() as int) == workload::alloc_count(
            ops,
            ops.len() as int,
        ),
{
    let more = ops.push(op);
    workload::lemma_alloc_count_prefix(more, ops, ops.len() as int);
    assert forall|i: int, slot: usize| #[trigger] workload::allocs(more, i, slot) implies slot
        == workload::alloc_count(more, i) by {
        workload::lemma_alloc_count_prefix(more, ops, i);
        if i < ops.len() {
            assert(workload::allocs(ops, i, slot));
        }
    }
}

proof fn lemma_tally_alloc(v: MixedOpsView, l: Layout)
    requires
        v.tallied(),
        0 <= v.next_slot <= usize::MAX,
        1 <= l.size <= 65535,
        l.align == 8,
    ensures
        v.after_alloc(l).tallied(),
{
    lemma_in_order_push(v.ops, (l, Op::Alloc { slot: v.next_slot as usize }));
}

proof fn lemma_tally_free(v: MixedOpsView, pick: int)
    requires
        v.inv(),
        v.tallied(),
        0 <= pick < v.live.len(),
    ensures
        v.after_free(pick).tallied(),
{
    let slot = v.live[pick];
    lemma_mixed_free(v, pick);
    lemma_held_is_op(v.ops, slot);
    lemma_in_order_push(v.ops, v.free_of(slot));
}

/// What is freed at the end keeps the tally, and each held slot is one more
/// operation.
proof fn lemma_tally_drained(v: MixedOpsView)
    requires
        v.inv(),
        v.tallied(),
    ensures
        v.drained().len() == v.ops.len() + v.live.len(),
        workload::alloc_count(v.drained(), v.drained().len() as int) == v.next_slot,
        workload::slots_in_order(v.drained()),
        workload::sizes_within(v.drained(), 1, 65535),
    decreases v.live.len(),
{
    if v.live.len() > 0 {
        let last = v.live.len() - 1;
        lemma_mixed_free(v, last);
        lemma_tally_free(v, last);
        lemma_tally_drained(v.after_free(last));
    }
}

/// What the builder needs next.
#[derive(Debug, Clone, Copy, PartialEq, Eq, Structural)]
pub enum MixedAction {
    /// A number between zero and one, drawn from the generator in this state.
    Draw(u64),
    /// Nothing: all steps have been made.
    Done,
}

/// What the next number is for.
#[derive(Debug, Clone, Copy, PartialEq, Eq, Structural)]
pub enum Pending {
    /// It decides between an allocation and a free.
    Choice,
    /// It decides how large an allocation is.
    Size,
}

/// A run of the builder as a value.
#[verifier::ext_equal]
pub struct MixedView {
    pub built: MixedOpsView,
    /// Steps in all.
    pub steps: int,
    /// Steps that are still to be made.
    pub left: int,
    /// State of the generator.
    pub state: u64,
    pub pending: Pending,
}

impl MixedView {
    /// `n` steps from a generator in the state `seed`. With nothing held, the
    /// first one allocates.
    pub open spec fn start(n: int, seed: u64) -> MixedView {
        MixedView {
            built: MixedOpsView { ops: Seq::empty(), live: Seq::empty(), next_slot: 0 },
            steps: n,
            left: n,
            state: seed,
            pending: Pending::Size,
        }
    }

    pub open spec fn inv(self) -> bool {
        &&& self.built.inv()
        &&& self.built.tallied()
        &&& 0 <= self.left <= self.steps <= usize::MAX
        &&& self.built.ops.len() == self.steps - self.left
        &&& self.pending == Pending::Choice ==> self.built.live.len() > 0
    }

    pub open spec fn next(self) -> MixedAction {
        if self.left == 0 {
            MixedAction::Done
        } else {
            MixedAction::Draw(self.state)
        }
    }

    /// The run after an allocation of a size in `range`, drawn in the state
    /// `state`.
    pub open spec fn grown(self, range: SizeRange, state: u64) -> MixedView {
        let drawn = workload::fastrand_usize(state, range.width() as usize, usize::BITS);
        MixedView {
            built: self.built.after_alloc(
                workload::byte_layout((range.low() + drawn.0) as usize),
            ),
            left: self.left - 1,
            state: drawn.1,
            pending: Pending::Choice,
            ..self
        }
    }

    /// The run after a held slot has been freed, drawn in the state `state`.
    pub open spec fn shrunk(self, state: u64) -> MixedView {
        let drawn = workload::fastrand_usize(state, self.built.live.len() as usize, usize::BITS);
        let built = self.built.after_free(drawn.0 as int);
        MixedView {
            built,
            left: self.left - 1,
            state: drawn.1,
            pending: if built.live.len() == 0 {
                Pending::Size
            } else {
                Pending::Choice
            },
            ..self
        }
    }

    /// The run after it got its number, with the generator then in the state
    /// `state`. 55% of the choices are for an allocation.
    pub open spec fn after(self, bits: u32, state: u64) -> MixedView {
        if self.left == 0 {
            self
        } else if self.pending == Pending::Size {
            self.grown(range_of(bits), state)
        } else if bits < ALLOC_SHARE {
            MixedView { state, pending: Pending::Size, ..self }
        } else {
            self.shrunk(state)
        }
    }

    /// The run after `k` numbers that `draw` gives for the states in which
    /// they are asked for.
    pub open spec fn played(self, draw: spec_fn(u64) -> (u32, u64), k: int) -> MixedView
        decreases k,
    {
        if k <= 0 {
            self
        } else {
            let v = self.played(draw, k - 1);
            let (bits, state) = draw(v.state);
            v.after(bits, state)
        }
    }

    /// How many numbers are asked for at most.
    spec fn draws_left(self) -> int {
        2 * self.left - if self.left > 0 && self.pending == Pending::Size {
            1int
        } else {
            0int
        }
    }
}

/// However the numbers fall, a run of `n` steps is done after `2 * n` of them.
pub proof fn law_mixed_ends(n: int, seed: u64, draw: spec_fn(u64) -> (u32, u64), k: int)
    requires
        0 <= n,
        2 * n <= k,
    ensures
        MixedView::start(n, seed).played(draw, k).next() == MixedAction::Done,
{
    lemma_played(n, seed, draw, k);
}

proof fn lemma_played(n: int, seed: u64, draw: spec_fn(u64) -> (u32, u64), k: int)
    requires
        0 <= n,
        0 <= k,
    ensures
        ({
            let v = MixedView::start(n, seed).played(draw, k);
            &&& 0 <= v.left
            &&& v.left == 0 || v.draws_left() <= 2 * n - k
        }),
    decreases k,
{
    if k > 0 {
        lemma_played(n, seed, draw, k - 1);
    }
}

/// A workload of `n` steps allocates its slots in ascending order, frees each
/// of them, has between `n` and `2 * n` operations, and sizes from 1 to 65535
/// bytes.
pub proof fn law_mixed_adds_up(v: MixedView)
    requires
        v.inv(),
        v.left == 0,
    ensures
        ({
            let ops = v.built.drained();
            let slots = v.built.next_slot;
            &&& ops.len() == 2 * slots
            &&& v.steps <= ops.len() <= 2 * v.steps
            &&& workload::alloc_count(ops, ops.len() as int) == slots
            &&& workload::slots_in_order(ops)
            &&& workload::sizes_within(ops, 1, 65535)
        }),
{
    workload::lemma_alloc_count(v.built.ops, 0, v.built.ops.len() as int);
    lemma_tally_drained(v.built);
}

/// Builds a workload of a given number of random steps. Equal numbers make
/// equal workloads.
pub struct MixedWorkload {
    built: MixedOps,
    steps: Ghost<int>,
    left: usize,
    state: u64,
    pending: Pending,
}

impl View for MixedWorkload {
    type V = MixedView;

    closed spec fn view(&self) -> MixedView {
        MixedView {
            built: self.built@,
            steps: self.steps@,
            left: self.left as int,
            state: self.state,
            pending: self.pending,
        }
    }
}

impl MixedWorkload {
    pub open spec fn wf(&self) -> bool {
        self@.inv()
    }

    /// A workload of `n` steps, from a generator in the state `seed`.
    pub fn new(n: usize, seed: u64) -> (r: MixedWorkload)
        ensures
            r.wf(),
            r@ == MixedView::start(n as int, seed),
    {
        MixedWorkload {
            built: MixedOps::new(),
            steps: Ghost(n as int),
            left: n,
            state: seed,
            pending: Pending::Size,
        }
    }

    /// What is needed next.
    pub fn action(&self) -> (r: MixedAction)
        ensures
            r == self@.next(),
    {
        if self.left == 0 {
            MixedAction::Done
        } else {
            MixedAction::Draw(self.state)
        }
    }

    /// Takes the number, given by its bits, and the state of the generator
    /// after it was drawn.
    pub fn feed(&mut self, bits: u32, state: u64)
        requires
            old(self).wf(),
        ensures
            final(self).wf(),
            final(self)@ == old(self)@.after(bits, state),
    {
        if self.left == 0 {
            return ;
        }
        let ghost v = self@.built;
        match self.pending {
            Pending::Size => {
                proof {
                    workload::lemma_alloc_count(v.ops, 0, v.ops.len() as int);
                }
                self.state = self.built.allocate_random(bits, state);
                self.left = self.left - 1;
                self.pending = Pending::Choice;
                proof {
                    let range = range_of(bits);
                    let drawn = workload::fastrand_usize(state, range.width() as usize, usize::BITS);
                    lemma_tally_alloc(
                        v,
                        workload::byte_layout((range.low() + drawn.0) as usize),
                    );
                }
            },
            Pending::Choice => {
                if MixedOps::chooses_alloc(bits) {
                    self.state = state;
                    self.pending = Pending::Size;
                } else {
                    self.state = self.built.free_random(state);
                    self.left = self.left - 1;
                    self.pending = if self.built.live() == 0 {
                        Pending::Size
                    } else {
                        Pending::Choice
                    };
                    proof {
                        let drawn = workload::fastrand_usize(state, v.live.len() as usize, usize::BITS);
                        lemma_tally_free(v, drawn.0 as int);
                    }
                }
            },
        }
    }

    /// Frees what is still held once all steps have been made.
    pub fn finish(self) -> (w: Workload)
        requires
            self.wf(),
            self@.left == 0,
        ensures
            w.ops@ == self@.built.drained(),
            w.slots == self@.built.next_slot,
            workload::balanced(w.ops@, w.slots),
            w.ops@.len() == 2 * w.slots,
            self@.steps <= w.ops@.len() <= 2 * self@.steps,
            workload::alloc_count(w.ops@, w.ops@.len() as int) == w.slots,
            workload::slots_in_order(w.ops@),
            workload::sizes_within(w.ops@, 1, 65535),
    {
        proof {
            law_mixed_adds_up(self@);
        }
        self.built.finish()
    }
}

} // verus!
