//! A small two-level kernel heap.
//!
//! Requests of at most 1024 bytes go to the slab cache of their class, all
//! others to the buddy allocator, which also feeds the caches. The slab layer
//! makes most requests a single pop.
//!
//! A heap is plain state: whoever shares one guards it with a lock.

use crate::blocks;
use crate::blocks::Block;
use crate::buddy;
use crate::buddy::BuddyAllocator;
use crate::buddy_laws;
use crate::buddy_model;
use crate::buddy_model::BuddyView;
use crate::heap_laws;
use crate::linked_list;
use crate::memory::Memory;
use crate::powers;
use crate::slab;
use crate::slab::{SlabSet, SlabView, CLASS_SIZES, REFILL_BYTES};
use crate::stats::{AllocStats, StatsView};
use vstd::prelude::*;

verus! {

/// Threshold above which allocations skip slab and go straight to buddy.
pub const SLAB_THRESHOLD: usize = 1024;

/// Size and alignment of a request.
#[derive(Debug, Clone, Copy, PartialEq, Eq, Structural)]
pub struct Layout {
    pub size: usize,
    pub align: usize,
}

/// `n` is a power of two.
pub open spec fn is_power(n: int) -> bool {
    exists|k: int| 0 <= k && n == #[trigger] powers::p2(k)
}

impl Layout {
    /// The alignment is a power of two, and the size, rounded up to it, is one
    /// that an object can have.
    pub open spec fn valid(self) -> bool {
        &&& is_power(self.align as int)
        &&& self.size + self.align - 1 <= isize::MAX
    }

    /// The layout with this size and alignment, if it is a valid one.
    pub fn from_size_align(size: usize, align: usize) -> (r: Option<Layout>)
        ensures
            ({
                let l = Layout { size, align };
                r == if l.valid() {
                    Some(l)
                } else {
                    None
                }
            }),
    {
        if align == 0 {
            proof {
                assert forall|k: int| 0 <= k implies 0 != #[trigger] powers::p2(k) by {
                    powers::lemma_p2_pos(k);
                }
            }
            return None;
        }
        let log: usize = powers::floor_log2(align);
        proof {
            powers::lemma_shl(log);
            if is_power(align as int) {
                let k = choose|k: int| 0 <= k && align == #[trigger] powers::p2(k);
                if k < log {
                    powers::lemma_p2_mono(k, log as int);
                } else if k > log {
                    powers::lemma_p2_mono(log + 1, k);
                }
            }
        }
        let max: usize = isize::MAX as usize;
        if align != 1usize << log || align - 1 > max || size > max - (align - 1) {
            return None;
        }
        Some(Layout { size, align })
    }

    pub fn size(&self) -> (r: usize)
        ensures
            r == self.size,
    {
        self.size
    }

    pub fn align(&self) -> (r: usize)
        ensures
            r == self.align,
    {
        self.align
    }

    /// Bytes that are looked for: at least one.
    pub open spec fn want(self) -> int {
        if self.size >= 1 {
            self.size as int
        } else {
            1
        }
    }

    /// The size or the alignment, whichever is more.
    pub open spec fn need(self) -> int {
        if self.want() >= self.align {
            self.want()
        } else {
            self.align as int
        }
    }

    /// The slab class that serves this layout, unless the buddy allocator
    /// does.
    pub open spec fn class(self) -> Option<int> {
        if self.need() <= SLAB_THRESHOLD {
            Some(least_class(self.need(), 0))
        } else {
            None
        }
    }

    /// The order of the buddy block that serves this layout, unless a slab
    /// class does.
    pub open spec fn order(self) -> int {
        buddy::order_needed(self.want(), self.align as int)
    }

    /// Bytes of what is handed out for this layout.
    pub open spec fn room(self) -> int {
        match self.class() {
            Some(i) => CLASS_SIZES[i] as int,
            None => powers::p2(self.order()),
        }
    }
}

/// The least class from `i` on whose objects have `need` bytes.
pub open spec fn least_class(need: int, i: int) -> int
    decreases CLASS_SIZES@.len() - i,
{
    if i + 1 >= CLASS_SIZES@.len() || need <= CLASS_SIZES[i] {
        i
    } else {
        least_class(need, i + 1)
    }
}

proof fn lemma_least_class_from(need: int, i: int, from: int)
    requires
        slab::is_class_for(i, need),
        0 <= from <= i,
    ensures
        least_class(need, from) == i,
    decreases i - from,
{
    slab::lemma_class_sizes(from);
    if from < i {
        slab::lemma_class_sizes(i - 1);
        powers::lemma_p2_mono(from + 3, i + 2);
        lemma_least_class_from(need, i, from + 1);
    }
}

/// There is one least class.
pub proof fn lemma_least_class(need: int, i: int)
    requires
        slab::is_class_for(i, need),
    ensures
        least_class(need, 0) == i,
{
    lemma_least_class_from(need, i, 0);
}

/// Every layout that the threshold admits has its class.
pub proof fn lemma_class(l: Layout)
    ensures
        match l.class() {
            Some(i) => slab::is_class_for(i, l.need()),
            None => l.need() > SLAB_THRESHOLD,
        },
{
    reveal_with_fuel(least_class, 8);
}

/// A heap as a value.
#[verifier::ext_equal]
pub struct HeapView {
    pub buddy: BuddyView,
    pub slabs: Seq<SlabView>,
    pub stats: StatsView,
}

impl HeapView {
    pub open spec fn empty() -> HeapView {
        HeapView {
            buddy: BuddyView::empty(),
            slabs: Seq::new(8, |i: int| SlabView::empty(CLASS_SIZES[i] as int)),
            stats: StatsView::zero(),
        }
    }

    /// What a request for `l` is answered.
    pub open spec fn served(self, l: Layout) -> Option<usize> {
        match l.class() {
            Some(i) => self.slabs[i].served(self.buddy, REFILL_BYTES[i] as int),
            None => if buddy::can_alloc(self.buddy, l.order()) {
                Some(buddy::alloc_block(self.buddy, l.order()).addr as usize)
            } else {
                None
            },
        }
    }

    /// The statistics after a request for `l`.
    pub open spec fn counted(self, l: Layout) -> StatsView {
        let s = match l.class() {
            Some(i) => self.stats.slab_recorded(i),
            None => self.stats.buddy_recorded(),
        };
        match self.served(l) {
            Some(p) => s.alloc_recorded(l.want() as usize),
            None => s.oom_recorded(),
        }
    }

    /// The heap after a request for `l`.
    pub open spec fn after_alloc(self, l: Layout) -> HeapView {
        match l.class() {
            Some(i) => HeapView {
                buddy: self.slabs[i].drained(self.buddy, REFILL_BYTES[i] as int),
                slabs: self.slabs.update(
                    i,
                    self.slabs[i].after_alloc(self.buddy, REFILL_BYTES[i] as int),
                ),
                stats: self.counted(l),
            },
            None => HeapView {
                buddy: if buddy::can_alloc(self.buddy, l.order()) {
                    buddy::after_alloc(self.buddy, l.order())
                } else {
                    self.buddy
                },
                slabs: self.slabs,
                stats: self.counted(l),
            },
        }
    }

    /// The heap after what was handed out for `l` at `p` has been given back.
    pub open spec fn after_dealloc(self, l: Layout, p: usize) -> HeapView {
        let stats = self.stats.free_recorded(l.want() as usize);
        match l.class() {
            Some(i) => HeapView {
                slabs: self.slabs.update(i, self.slabs[i].after_dealloc(p)),
                stats,
                ..self
            },
            None => HeapView {
                buddy: buddy::after_dealloc(self.buddy, Block { addr: p as int, order: l.order() }),
                stats,
                ..self
            },
        }
    }

    /// Something of the kind that serves `l` has been handed out at `p` and
    /// not been given back.
    pub open spec fn granted(self, l: Layout, p: usize) -> bool {
        match l.class() {
            Some(i) => self.slabs[i].is_live(p),
            None => {
                let b = Block { addr: p as int, order: l.order() };
                &&& buddy_model::live_blocks(self.buddy.live).contains(b)
                &&& forall|i: int|
                    0 <= i < self.slabs.len() ==> !(#[trigger] self.slabs[i]).slabs.contains(b)
            },
        }
    }

    /// The byte at `a` belongs to a free object of class `i`.
    pub open spec fn in_free_object(self, i: int, a: int) -> bool {
        exists|x: usize| #[trigger]
            self.slabs[i].free.contains(x) && x <= a < x + self.slabs[i].obj_size
    }

    /// The byte at `a` is free, so the heap may write to it.
    pub open spec fn is_free(self, a: int) -> bool {
        buddy_laws::is_free(self.buddy, a) || exists|i: int|
            0 <= i < self.slabs.len() && #[trigger] self.in_free_object(i, a)
    }

    pub open spec fn inv(self, lo: int, hi: int) -> bool {
        &&& self.buddy.inv(None, lo, hi)
        &&& slab::set_inv(self.slabs, lo, hi)
        &&& slab::set_backed(self.slabs, self.buddy)
    }

    /// The free lists are laid out in `mem`.
    pub open spec fn threaded(self, mem: &Memory) -> bool {
        &&& buddy::all_threaded(self.buddy.free, mem)
        &&& slab::set_threaded(self.slabs, mem)
    }
}

/// Bytes of all objects of the first `k` classes.
pub open spec fn provisioned_bytes(vs: Seq<SlabView>, k: int) -> int
    decreases k,
{
    if k <= 0 {
        0
    } else {
        provisioned_bytes(vs, k - 1) + vs[k - 1].provisioned * vs[k - 1].obj_size
    }
}

/// Bytes of the free objects of the first `k` classes.
pub open spec fn free_bytes(vs: Seq<SlabView>, k: int) -> int
    decreases k,
{
    if k <= 0 {
        0
    } else {
        free_bytes(vs, k - 1) + vs[k - 1].free.len() * vs[k - 1].obj_size
    }
}

/// Lightweight snapshot of internal counters, safe to log.
#[derive(Debug, Clone, Copy, PartialEq, Eq, Structural)]
pub struct HeapSnapshot {
    pub buddy_total: usize,
    pub buddy_used: usize,
    pub buddy_waste: usize,
    pub slab_provisioned: usize,
    pub slab_free: usize,
}

/// The bytes of the objects of one size.
spec fn bytes_of(objs: Set<usize>, size: int) -> Set<int> {
    Set::new(|a: int| exists|x: usize| #[trigger] objs.contains(x) && x <= a < x + size)
}

/// Objects that lie apart have as many bytes as there are objects, times the
/// size of one.
proof fn lemma_bytes_of(objs: Set<usize>, size: int)
    requires
        objs.finite(),
        size > 0,
        forall|x: usize, y: usize| #[trigger]
            objs.contains(x) && #[trigger] objs.contains(y) && x < y ==> x + size <= y,
    ensures
        bytes_of(objs, size).finite(),
        bytes_of(objs, size).len() == objs.len() * size,
    decreases objs.len(),
{
    if objs.len() == 0 {
        assert(bytes_of(objs, size) =~= Set::empty());
        assert(objs.len() * size == 0) by (nonlinear_arith)
            requires
                objs.len() == 0,
        ;
    } else {
        let x = objs.choose();
        let rest = objs.remove(x);
        lemma_bytes_of(rest, size);
        let own = vstd::set_lib::set_int_range(x as int, x + size);
        vstd::set_lib::lemma_int_range(x as int, x + size);
        let b = bytes_of(rest, size);
        assert(b.disjoint(own)) by {
            assert forall|a: int| b.contains(a) implies !own.contains(a) by {
                let y = choose|y: usize| #[trigger] rest.contains(y) && y <= a < y + size;
                assert(objs.contains(y) && objs.contains(x));
            }
        }
        assert(bytes_of(objs, size) =~= b.union(own)) by {
            assert forall|a: int| bytes_of(objs, size).contains(a) implies b.union(own).contains(
                a,
            ) by {
                let y = choose|y: usize| #[trigger] objs.contains(y) && y <= a < y + size;
                if y != x {
                    assert(rest.contains(y));
                }
            }
            assert forall|a: int| b.union(own).contains(a) implies bytes_of(objs, size).contains(
                a,
            ) by {
                if b.contains(a) {
                    let y = choose|y: usize| #[trigger] rest.contains(y) && y <= a < y + size;
                    assert(objs.contains(y));
                } else {
                    assert(objs.contains(x));
                }
            }
        }
        vstd::set_lib::lemma_set_disjoint_lens(b, own);
        assert(objs.len() * size == rest.len() * size + size) by (nonlinear_arith)
            requires
                objs.len() == rest.len() + 1,
        ;
    }
}

/// The bytes of the objects of the first `k` classes.
spec fn bytes_upto(vs: Seq<SlabView>, k: int) -> Set<int> {
    Set::new(
        |a: int|
            exists|i: int|
                0 <= i < k && #[trigger] bytes_of(vs[i].objs, vs[i].obj_size).contains(a),
    )
}

proof fn lemma_bytes_upto(vs: Seq<SlabView>, k: int, lo: int, hi: int)
    requires
        slab::set_inv(vs, lo, hi),
        0 <= k <= vs.len(),
    ensures
        bytes_upto(vs, k).finite(),
        bytes_upto(vs, k).len() == provisioned_bytes(vs, k),
    decreases k,
{
    if k == 0 {
        assert(bytes_upto(vs, k) =~= Set::empty());
    } else {
        lemma_bytes_upto(vs, k - 1, lo, hi);
        let v = vs[k - 1];
        assert(v.inv(lo, hi));
        lemma_bytes_of(v.objs, v.obj_size);
        let own = bytes_of(v.objs, v.obj_size);
        let below = bytes_upto(vs, k - 1);
        assert(below.disjoint(own)) by {
            assert forall|a: int| below.contains(a) implies !own.contains(a) by {
                let i = choose|i: int|
                    0 <= i < k - 1 && #[trigger] bytes_of(vs[i].objs, vs[i].obj_size).contains(a);
                if own.contains(a) {
                    lemma_byte_owner(vs, i, lo, hi, a);
                    lemma_byte_owner(vs, k - 1, lo, hi, a);
                    let s = choose|s: Block| #[trigger] vs[i].slabs.contains(s) && s.has(a);
                    let t = choose|t: Block| #[trigger] vs[k - 1].slabs.contains(t) && t.has(a);
                    assert(s.disjoint(t));
                }
            }
        }
        assert(bytes_upto(vs, k) =~= below.union(own)) by {
            assert forall|a: int| below.union(own).contains(a) implies bytes_upto(vs, k).contains(
                a,
            ) by {
                if below.contains(a) {
                    let i = choose|i: int|
                        0 <= i < k - 1 && #[trigger] bytes_of(vs[i].objs, vs[i].obj_size).contains(
                            a,
                        );
                    assert(0 <= i < k);
                }
            }
            assert forall|a: int| bytes_upto(vs, k).contains(a) implies below.union(own).contains(
                a,
            ) by {
                let i = choose|i: int|
                    0 <= i < k && #[trigger] bytes_of(vs[i].objs, vs[i].obj_size).contains(a);
                if i < k - 1 {
                    assert(below.contains(a));
                }
            }
        }
        vstd::set_lib::lemma_set_disjoint_lens(below, own);
    }
}

/// A byte of an object of class `i` is memory that the class owns.
pub proof fn lemma_byte_owner(vs: Seq<SlabView>, i: int, lo: int, hi: int, a: int)
    requires
        slab::set_inv(vs, lo, hi),
        0 <= i < vs.len(),
        exists|x: usize| #[trigger]
            vs[i].objs.contains(x) && x <= a < x + vs[i].obj_size,
    ensures
        vs[i].owns(a),
        lo <= a < hi,
{
    let v = vs[i];
    assert(v.inv(lo, hi));
    let x = choose|x: usize| #[trigger] v.objs.contains(x) && x <= a < x + v.obj_size;
    let s = choose|s: Block| #[trigger] v.slabs.contains(s) && slab::inside(s, x, v.obj_size);
    assert(v.slabs.contains(s) && s.has(a));
}

/// The objects of all classes fit in memory together.
pub proof fn lemma_slab_bytes(vs: Seq<SlabView>, lo: int, hi: int)
    requires
        slab::set_inv(vs, lo, hi),
        lo <= hi,
    ensures
        provisioned_bytes(vs, vs.len() as int) <= hi - lo,
        forall|k: int|
            0 <= k <= vs.len() ==> 0 <= #[trigger] free_bytes(vs, k) <= provisioned_bytes(vs, k)
                <= provisioned_bytes(vs, vs.len() as int),
{
    let n = vs.len() as int;
    lemma_bytes_upto(vs, n, lo, hi);
    let all = vstd::set_lib::set_int_range(lo, hi);
    vstd::set_lib::lemma_int_range(lo, hi);
    assert(bytes_upto(vs, n).subset_of(all)) by {
        assert forall|a: int| bytes_upto(vs, n).contains(a) implies all.contains(a) by {
            let i = choose|i: int|
                0 <= i < n && #[trigger] bytes_of(vs[i].objs, vs[i].obj_size).contains(a);
            lemma_byte_owner(vs, i, lo, hi, a);
        }
    }
    vstd::set_lib::lemma_len_subset(bytes_upto(vs, n), all);
    assert forall|k: int| 0 <= k <= n implies 0 <= #[trigger] free_bytes(vs, k)
        <= provisioned_bytes(vs, k) <= provisioned_bytes(vs, n) by {
        lemma_free_bytes(vs, k, lo, hi);
        lemma_provisioned_mono(vs, k, n, lo, hi);
    }
}

proof fn lemma_free_bytes(vs: Seq<SlabView>, k: int, lo: int, hi: int)
    requires
        slab::set_inv(vs, lo, hi),
        0 <= k <= vs.len(),
    ensures
        0 <= free_bytes(vs, k) <= provisioned_bytes(vs, k),
    decreases k,
{
    if k > 0 {
        lemma_free_bytes(vs, k - 1, lo, hi);
        let v = vs[k - 1];
        assert(v.inv(lo, hi));
        v.free.unique_seq_to_set();
        assert(v.free.to_set().subset_of(v.objs)) by {
            assert forall|x: usize| v.free.to_set().contains(x) implies v.objs.contains(x) by {
                assert(v.free.contains(x));
            }
        }
        vstd::set_lib::lemma_len_subset(v.free.to_set(), v.objs);
        assert(0 <= v.free.len() * v.obj_size <= v.provisioned * v.obj_size) by (nonlinear_arith)
            requires
                0 <= v.free.len() <= v.provisioned,
                v.obj_size > 0,
        ;
    }
}

proof fn lemma_provisioned_mono(vs: Seq<SlabView>, j: int, k: int, lo: int, hi: int)
    requires
        slab::set_inv(vs, lo, hi),
        0 <= j <= k <= vs.len(),
    ensures
        provisioned_bytes(vs, j) <= provisioned_bytes(vs, k),
    decreases k,
{
    if j < k {
        lemma_provisioned_mono(vs, j, k - 1, lo, hi);
        let v = vs[k - 1];
        assert(v.inv(lo, hi));
        assert(0 <= v.provisioned * v.obj_size) by (nonlinear_arith)
            requires
                0 <= v.provisioned,
                v.obj_size > 0,
        ;
    }
}

pub struct Heap {
    buddy: BuddyAllocator,
    slabs: SlabSet,
    stats: AllocStats,
}

impl View for Heap {
    type V = HeapView;

    closed spec fn view(&self) -> HeapView {
        HeapView { buddy: self.buddy@, slabs: self.slabs@, stats: self.stats@ }
    }
}

impl Heap {
    /// The heap is consistent, and its free lists are laid out in `mem`.
    pub open spec fn wf(&self, mem: &Memory) -> bool {
        &&& mem.wf()
        &&& self@.inv(mem.lo(), mem.hi())
        &&& self@.threaded(mem)
    }

    pub fn new() -> (r: Heap)
        ensures
            r@ == HeapView::empty(),
            forall|mem: &Memory| mem.wf() ==> #[trigger] r.wf(mem),
    {
        let r = Heap { buddy: BuddyAllocator::new(), slabs: SlabSet::new(), stats: AllocStats::new() };
        proof {
            assert forall|mem: &Memory| mem.wf() implies #[trigger] r.wf(mem) by {
                assert(r.buddy.wf(mem));
                assert(r.slabs.wf(mem));
                assert(slab::set_backed(r.slabs@, r.buddy@));
            }
        }
        r
    }

    /// Adds the memory `[start, start + size)` to the heap. It belongs to the
    /// heap from then on.
    pub fn add_region(&mut self, mem: &mut Memory, start: usize, size: usize)
        requires
            old(self).wf(old(mem)),
            old(mem).spans(start as int, start + size),
            forall|x: int|
                start <= x < start + size ==> !#[trigger] old(self)@.buddy.regions.contains(x),
        ensures
            final(self).wf(final(mem)),
            final(self)@ == (HeapView {
                buddy: buddy::after_add(old(self)@.buddy, start as int, start + size),
                ..old(self)@
            }),
            final(mem).same_outside(old(mem), |a: int| start <= a < start + size),
    {
        let ghost h = self@;
        self.buddy.add_region(mem, start, start + size);
        proof {
            assert forall|i: int| 0 <= i < h.slabs.len() implies linked_list::threaded(
                (#[trigger] h.slabs[i]).free,
                mem,
            ) by {
                let v = h.slabs[i];
                assert(v.inv(mem.lo(), mem.hi()) && v.backed(h.buddy));
                assert forall|a: int| mem.mapped(a) && v.owns(a) implies #[trigger] mem.word(a)
                    == old(mem).word(a) by {
                    let s = choose|s: Block| #[trigger] v.slabs.contains(s) && s.has(a);
                    assert(h.buddy.blocks(None).contains(s));
                    assert(h.buddy.regions.contains(a));
                }
                slab::lemma_cache_frame(v, old(mem), mem);
            }
            assert forall|i: int| 0 <= i < h.slabs.len() implies (#[trigger] h.slabs[i]).backed(
                self.buddy@,
            ) by {
                assert(h.slabs[i].backed(h.buddy));
            }
        }
    }

    pub fn stats(&self) -> (r: &AllocStats)
        ensures
            r@ == self@.stats,
    {
        &self.stats
    }

    /// Snapshot of fragmentation info, useful for tests and benches.
    pub fn snapshot(&self, mem: &Memory) -> (r: HeapSnapshot)
        requires
            self.wf(mem),
        ensures
            r.buddy_total == self@.buddy.total,
            r.buddy_used == self@.buddy.used,
            r.buddy_waste == self@.buddy.waste,
            r.slab_provisioned == provisioned_bytes(self@.slabs, self@.slabs.len() as int),
            r.slab_free == free_bytes(self@.slabs, self@.slabs.len() as int),
    {
        let ghost vs = self@.slabs;
        proof {
            lemma_slab_bytes(vs, mem.lo(), mem.hi());
        }
        let mut slab_free: usize = 0;
        let mut slab_provisioned: usize = 0;
        let mut i: usize = 0;
        while i < CLASS_SIZES.len()
            invariant
                i <= CLASS_SIZES@.len(),
                vs == self.slabs@,
                vs.len() == 8,
                slab_free == free_bytes(vs, i as int),
                slab_provisioned == provisioned_bytes(vs, i as int),
                provisioned_bytes(vs, 8) <= usize::MAX,
                forall|k: int|
                    0 <= k <= 8 ==> 0 <= #[trigger] free_bytes(vs, k) <= provisioned_bytes(vs, k)
                        <= provisioned_bytes(vs, 8),
            decreases CLASS_SIZES@.len() - i,
        {
            let c = self.slabs.cache(i);
            proof {
                assert(free_bytes(vs, i + 1) <= provisioned_bytes(vs, 8));
                assert(0 <= free_bytes(vs, i as int));
            }
            slab_free = slab_free + c.free_count() * c.obj_size();
            slab_provisioned = slab_provisioned + c.provisioned() * c.obj_size();
            i = i + 1;
        }
        HeapSnapshot {
            buddy_total: self.buddy.total(),
            buddy_used: self.buddy.used(),
            buddy_waste: self.buddy.waste(),
            slab_provisioned,
            slab_free,
        }
    }

    /// Allocates `layout`. Returns `None` when out of memory.
    pub fn allocate(&mut self, mem: &mut Memory, layout: Layout) -> (r: Option<usize>)
        requires
            old(self).wf(old(mem)),
        ensures
            final(self).wf(final(mem)),
            r == old(self)@.served(layout),
            final(self)@ == old(self)@.after_alloc(layout),
            r is Some ==> final(self)@.granted(layout, r.unwrap()),
            final(mem).same_outside(old(mem), |a: int| buddy_laws::is_free(old(self)@.buddy, a)),
    {
        let ghost h = self@;
        let size: usize = if layout.size >= 1 {
            layout.size
        } else {
            1
        };
        let align: usize = if layout.align >= 1 {
            layout.align
        } else {
            1
        };
        proof {
            lemma_class(layout);
        }
        let class: Option<usize> = if size <= SLAB_THRESHOLD {
            SlabSet::class_for(size, align)
        } else {
            None
        };
        let result: Option<usize> = match class {
            Some(idx) => {
                proof {
                    lemma_least_class(layout.need(), idx as int);
                }
                self.stats.record_slab(idx);
                self.slabs.allocate(idx, &mut self.buddy, mem)
            },
            None => {
                self.stats.record_buddy();
                let r = self.buddy.allocate(mem, size, align);
                proof {
                    let o = layout.order();
                    if buddy::can_alloc(h.buddy, o) {
                        buddy::lemma_least_order(layout.need(), buddy::MIN_ORDER as int);
                        buddy_laws::lemma_after_alloc(h.buddy, o, mem.lo(), mem.hi());
                    }
                    assert forall|i: int| 0 <= i < h.slabs.len() implies (#[trigger] h.slabs[i]).backed(
                        self.buddy@,
                    ) && linked_list::threaded(h.slabs[i].free, mem) by {
                        let v = h.slabs[i];
                        assert(v.inv(mem.lo(), mem.hi()) && v.backed(h.buddy));
                        slab::lemma_unfree(v, h.buddy, mem.lo(), mem.hi());
                        assert forall|a: int| mem.mapped(a) && v.owns(a) implies #[trigger] mem.word(
                            a,
                        ) == old(mem).word(a) by {
                            assert(!buddy_laws::is_free(h.buddy, a));
                        }
                        slab::lemma_cache_frame(v, old(mem), mem);
                    }
                }
                r
            },
        };
        proof {
            if h.served(layout) is Some {
                heap_laws::law_alloc_fresh(h, layout, mem.lo(), mem.hi());
            }
        }
        if result.is_some() {
            self.stats.record_alloc(size);
        } else {
            self.stats.record_oom();
        }
        result
    }

    /// Takes back what was handed out for `layout` at `ptr`.
    pub fn dealloc(&mut self, mem: &mut Memory, ptr: usize, layout: Layout)
        requires
            old(self).wf(old(mem)),
            old(self)@.granted(layout, ptr),
        ensures
            final(self).wf(final(mem)),
            final(self)@ == old(self)@.after_dealloc(layout, ptr),
            final(mem).same_outside(
                old(mem),
                |a: int| old(self)@.is_free(a) || ptr <= a < ptr + layout.room(),
            ),
    {
        let ghost h = self@;
        let size: usize = if layout.size >= 1 {
            layout.size
        } else {
            1
        };
        let align: usize = if layout.align >= 1 {
            layout.align
        } else {
            1
        };
        proof {
            lemma_class(layout);
        }
        let class: Option<usize> = if size <= SLAB_THRESHOLD {
            SlabSet::class_for(size, align)
        } else {
            None
        };
        match class {
            Some(idx) => {
                proof {
                    lemma_least_class(layout.need(), idx as int);
                    slab::lemma_class_sizes(idx as int);
                }
                self.slabs.dealloc(mem, idx, ptr);
                proof {
                    let v = h.slabs[idx as int];
                    assert(v.inv(mem.lo(), mem.hi()) && v.backed(h.buddy));
                    lemma_byte_owner(h.slabs, idx as int, mem.lo(), mem.hi(), ptr as int);
                    slab::lemma_unfree(v, h.buddy, mem.lo(), mem.hi());
                    assert(!buddy_laws::is_free(h.buddy, ptr as int));
                    buddy_laws::law_client_writes(h.buddy, old(mem), mem);
                }
            },
            None => {
                let ghost o = layout.order();
                let ghost b = Block { addr: ptr as int, order: o };
                self.buddy.dealloc(mem, ptr, size, align);
                proof {
                    buddy_laws::lemma_after_dealloc(h.buddy, b, mem.lo(), mem.hi());
                    assert forall|i: int| 0 <= i < h.slabs.len() implies (#[trigger] h.slabs[i]).backed(
                        self.buddy@,
                    ) && linked_list::threaded(h.slabs[i].free, mem) by {
                        let v = h.slabs[i];
                        assert(v.inv(mem.lo(), mem.hi()) && v.backed(h.buddy));
                        slab::lemma_unfree(v, h.buddy, mem.lo(), mem.hi());
                        assert forall|a: int| mem.mapped(a) && v.owns(a) implies #[trigger] mem.word(
                            a,
                        ) == old(mem).word(a) by {
                            assert(!buddy_laws::is_free(h.buddy, a));
                            let s = choose|s: Block| #[trigger] v.slabs.contains(s) && s.has(a);
                            let all = h.buddy.blocks(None);
                            assert(all.contains(s) && all.contains(b));
                            assert(s.disjoint(b));
                        }
                        slab::lemma_cache_frame(v, old(mem), mem);
                    }
                }
            },
        }
        self.stats.record_free(size);
    }
}

} // verus!
