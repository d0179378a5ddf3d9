//! Slab allocator layered on top of the buddy allocator.
//!
//! Each `SlabCache` owns one size class. Free objects are linked through
//! their own storage, so per-object metadata is zero. When a cache is empty
//! it pulls a slab (a contiguous power-of-two run) from the buddy allocator
//! and partitions it into objects. A slab never goes back.
//!
//! Why slab on top of buddy?
//!   * Pure buddy rounds 24 bytes up to 64.
//!   * The kernel allocates many same-sized fixed objects. A slab gives them
//!     a hot per-class free list.
//!   * Refills are rare once a steady state is reached, so the usual cost of
//!     an allocation is one pop.

use crate::blocks;
use crate::blocks::Block;
use crate::buddy;
use crate::buddy::BuddyAllocator;
use crate::buddy_laws;
use crate::buddy_model;
use crate::buddy_model::BuddyView;
use crate::linked_list;
use crate::linked_list::FreeList;
use crate::memory::Memory;
use crate::powers;
use vstd::prelude::*;

verus! {

/// Size classes managed by slab. Anything larger goes straight to buddy.
pub const CLASS_SIZES: [usize; 8] = [8, 16, 32, 64, 128, 256, 512, 1024];

/// How many bytes to pull from buddy per slab refill, by class index.
pub const REFILL_BYTES: [usize; 8] = [4096, 4096, 4096, 4096, 4096, 4096, 8192, 8192];

/// What a cache holds.
#[verifier::ext_equal]
pub struct SlabView {
    /// Free objects, the one to be handed out next first.
    pub free: Seq<usize>,
    /// All objects, free and handed out.
    pub objs: Set<usize>,
    /// Blocks of the buddy allocator that the objects were cut from.
    pub slabs: Set<Block>,
    pub obj_size: int,
    pub provisioned: int,
}

/// `n` objects of `size` bytes in a row, the first at `base`.
pub open spec fn row(base: int, size: int, n: int) -> Seq<usize> {
    Seq::new(n as nat, |i: int| (base + i * size) as usize)
}

/// The object `x` of `size` bytes lies inside the block `s`.
pub open spec fn inside(s: Block, x: usize, size: int) -> bool {
    s.addr <= x && x + size <= s.end()
}

pub open spec fn in_some(slabs: Set<Block>, x: usize, size: int) -> bool {
    exists|s: Block| #[trigger] slabs.contains(s) && inside(s, x, size)
}

impl SlabView {
    pub open spec fn empty(obj_size: int) -> SlabView {
        SlabView {
            free: Seq::empty(),
            objs: Set::empty(),
            slabs: Set::empty(),
            obj_size,
            provisioned: 0,
        }
    }

    /// The object at `x` has been handed out.
    pub open spec fn is_live(self, x: usize) -> bool {
        self.objs.contains(x) && !self.free.contains(x)
    }

    /// The slab `s` has been cut into objects that fill its first `bytes`
    /// bytes. They come before all other free objects, in address order.
    pub open spec fn carved(self, s: Block, bytes: int) -> SlabView {
        let fresh = row(s.addr, self.obj_size, bytes / self.obj_size);
        SlabView {
            free: fresh + self.free,
            objs: self.objs.union(fresh.to_set()),
            slabs: self.slabs.insert(s),
            obj_size: self.obj_size,
            provisioned: self.provisioned + bytes / self.obj_size,
        }
    }

    pub open spec fn with_free(self, free: Seq<usize>) -> SlabView {
        SlabView { free, ..self }
    }

    /// A request finds the cache empty, and the buddy allocator has a slab.
    pub open spec fn refills(self, bv: BuddyView, bytes: int) -> bool {
        self.free.len() == 0 && buddy::can_alloc(bv, buddy::order_needed(bytes, self.obj_size))
    }

    /// The cache as a request finds it, after a refill if there was one.
    pub open spec fn stocked(self, bv: BuddyView, bytes: int) -> SlabView {
        if self.refills(bv, bytes) {
            self.carved(buddy::alloc_block(bv, buddy::order_needed(bytes, self.obj_size)), bytes)
        } else {
            self
        }
    }

    /// The buddy allocator after a request.
    pub open spec fn drained(self, bv: BuddyView, bytes: int) -> BuddyView {
        if self.refills(bv, bytes) {
            buddy::after_alloc(bv, buddy::order_needed(bytes, self.obj_size))
        } else {
            bv
        }
    }

    /// What a request is answered.
    pub open spec fn served(self, bv: BuddyView, bytes: int) -> Option<usize> {
        let w = self.stocked(bv, bytes);
        if w.free.len() > 0 {
            Some(w.free[0])
        } else {
            None
        }
    }

    /// The cache after a request.
    pub open spec fn after_alloc(self, bv: BuddyView, bytes: int) -> SlabView {
        let w = self.stocked(bv, bytes);
        if w.free.len() > 0 {
            w.with_free(w.free.drop_first())
        } else {
            w
        }
    }

    /// The cache after the object at `x` has been given back.
    pub open spec fn after_dealloc(self, x: usize) -> SlabView {
        self.with_free(seq![x] + self.free)
    }

    /// Some slab of this cache holds the byte at `a`.
    pub open spec fn owns(self, a: int) -> bool {
        blocks::covers(self.slabs, a)
    }

    /// The slabs are granted blocks of the buddy allocator.
    pub open spec fn backed(self, bv: BuddyView) -> bool {
        self.slabs.subset_of(buddy_model::live_blocks(bv.live))
    }

    /// The objects lie apart in the slabs, and those lie in `[lo, hi)`.
    pub open spec fn inv(self, lo: int, hi: int) -> bool {
        &&& self.obj_size > 0
        &&& self.obj_size % 8 == 0
        &&& self.free.no_duplicates()
        &&& forall|x: usize| #[trigger] self.free.contains(x) ==> self.objs.contains(x)
        &&& self.objs.finite()
        &&& self.provisioned == self.objs.len()
        &&& forall|x: usize| #[trigger]
            self.objs.contains(x) ==> x % 8 == 0 && in_some(self.slabs, x, self.obj_size)
        &&& forall|x: usize, y: usize| #[trigger]
            self.objs.contains(x) && #[trigger] self.objs.contains(y) && x < y ==> x + self.obj_size
                <= y
        &&& forall|s: Block| #[trigger] self.slabs.contains(s) ==> lo <= s.addr && s.end() <= hi
    }
}

/// Where the objects of one slab lie.
proof fn lemma_row(base: int, size: int, bytes: int, end: int)
    requires
        0 <= base,
        base % 8 == 0,
        0 < size,
        size % 8 == 0,
        0 <= bytes,
        base + bytes <= end <= usize::MAX,
    ensures
        ({
            let n = bytes / size;
            let r = row(base, size, n);
            &&& 0 <= n <= bytes
            &&& r.no_duplicates()
            &&& forall|i: int|
                0 <= i < n ==> #[trigger] r[i] == base + i * size && base <= r[i] && r[i] + size <= end
                    && r[i] % 8 == 0
            &&& forall|i: int, j: int|
                0 <= i < j < n ==> #[trigger] r[i] + size <= #[trigger] r[j]
        }),
{
    let n = bytes / size;
    let r = row(base, size, n);
    assert(0 <= n <= bytes && n * size <= bytes) by (nonlinear_arith)
        requires
            n == bytes / size,
            0 < size,
            0 <= bytes,
    ;
    assert forall|i: int| 0 <= i < n implies #[trigger] r[i] == base + i * size && base <= r[i]
        && r[i] + size <= end && r[i] % 8 == 0 by {
        assert(0 <= i * size && i * size + size <= n * size) by (nonlinear_arith)
            requires
                0 <= i < n,
                0 < size,
        ;
        assert((base + i * size) % 8 == 0) by {
            let k = size / 8;
            assert(i * size == 8 * (i * k)) by (nonlinear_arith)
                requires
                    size == 8 * k,
            ;
        }
    }
    assert forall|i: int, j: int| 0 <= i < j < n implies #[trigger] r[i] + size
        <= #[trigger] r[j] by {
        assert(i * size + size <= j * size) by (nonlinear_arith)
            requires
                i < j,
                0 < size,
        ;
    }
}

/// No more objects than bytes of memory.
proof fn lemma_objs_len(s: Set<usize>, lo: int, hi: int)
    requires
        s.finite(),
        lo <= hi,
        forall|x: usize| #[trigger] s.contains(x) ==> lo <= x < hi,
    ensures
        s.len() <= hi - lo,
{
    let t = s.map(|x: usize| x as int);
    let all = vstd::set_lib::set_int_range(lo, hi);
    vstd::set_lib::lemma_int_range(lo, hi);
    assert(vstd::relations::injective_on(|x: usize| x as int, s));
    vstd::set_lib::lemma_map_size(s, t, |x: usize| x as int);
    assert(t.subset_of(all));
    vstd::set_lib::lemma_len_subset(t, all);
}

/// The slab that the object `x` was cut from.
proof fn lemma_obj_slab(v: SlabView, lo: int, hi: int, x: usize) -> (s: Block)
    requires
        v.inv(lo, hi),
        v.objs.contains(x),
    ensures
        v.slabs.contains(s),
        inside(s, x, v.obj_size),
        s.has(x as int),
        lo <= x,
        x + v.obj_size <= hi,
{
    choose|s: Block| #[trigger] v.slabs.contains(s) && inside(s, x, v.obj_size)
}

/// A slab holds nothing that the buddy allocator has free.
pub proof fn lemma_unfree(v: SlabView, bv: BuddyView, lo: int, hi: int)
    requires
        v.backed(bv),
        bv.inv(None, lo, hi),
    ensures
        forall|a: int| v.owns(a) ==> !#[trigger] buddy_laws::is_free(bv, a),
{
    assert forall|a: int| v.owns(a) implies !#[trigger] buddy_laws::is_free(bv, a) by {
        if buddy_laws::is_free(bv, a) {
            let s = choose|s: Block| #[trigger] v.slabs.contains(s) && s.has(a);
            let f = choose|f: Block| #[trigger]
                buddy_model::free_blocks(bv.free).contains(f) && f.has(a);
            let all = bv.blocks(None);
            assert(all.contains(s) && all.contains(f));
            blocks::lemma_tiling_unique(all, s, f, a);
        }
    }
}

/// A fresh slab keeps the cache consistent.
proof fn lemma_carved(v: SlabView, bv: BuddyView, bytes: int, lo: int, hi: int)
    requires
        v.inv(lo, hi),
        v.backed(bv),
        bv.inv(None, lo, hi),
        0 <= bytes,
        buddy::can_alloc(bv, buddy::order_needed(bytes, v.obj_size)),
    ensures
        ({
            let o = buddy::order_needed(bytes, v.obj_size);
            let c = buddy::alloc_block(bv, o);
            let w = v.carved(c, bytes);
            let n = bytes / v.obj_size;
            &&& w.inv(lo, hi)
            &&& w.backed(buddy::after_alloc(bv, o))
            &&& v.backed(buddy::after_alloc(bv, o))
            &&& 0 <= w.provisioned <= hi - lo
            &&& 0 <= n
            &&& !v.slabs.contains(c)
            &&& c.natural()
            &&& lo <= c.addr
            &&& c.end() <= hi
            &&& forall|i: int|
                0 <= i < n ==> {
                    let x = #[trigger] row(c.addr, v.obj_size, n)[i];
                    &&& x == c.addr + i * v.obj_size
                    &&& inside(c, x, v.obj_size)
                    &&& x % 8 == 0
                    &&& !v.objs.contains(x)
                }
            &&& row(c.addr, v.obj_size, n).no_duplicates()
        }),
{
    let o = buddy::order_needed(bytes, v.obj_size);
    let c = buddy::alloc_block(bv, o);
    let bw = buddy::after_alloc(bv, o);
    let w = v.carved(c, bytes);
    let n = bytes / v.obj_size;
    let r = row(c.addr, v.obj_size, n);
    buddy::lemma_least_order(
        if bytes >= v.obj_size {
            bytes
        } else {
            v.obj_size
        },
        buddy::MIN_ORDER as int,
    );
    buddy_laws::lemma_after_alloc(bv, o, lo, hi);
    let live = buddy_model::live_blocks(bv.live);
    assert(bw.blocks(None).contains(c));
    buddy_model::lemma_block_bounds(bw, None, lo, hi, c);
    lemma_row(c.addr, v.obj_size, bytes, c.end());
    assert forall|x: usize, i: int| #[trigger]
        v.objs.contains(x) && 0 <= i < n implies x + v.obj_size <= #[trigger] r[i] || r[i]
        + v.obj_size <= x by {
        let s = lemma_obj_slab(v, lo, hi, x);
        assert(bw.blocks(None).contains(s));
        assert(s.disjoint(c));
    }
    assert forall|i: int| 0 <= i < n implies !v.objs.contains(#[trigger] r[i]) by {
        if v.objs.contains(r[i]) {
            let s = lemma_obj_slab(v, lo, hi, r[i]);
            assert(bw.blocks(None).contains(s));
            assert(s.disjoint(c));
        }
    }
    r.unique_seq_to_set();
    let fresh = r.to_set();
    assert forall|x: usize| #[trigger] fresh.contains(x) implies !v.objs.contains(x) && inside(
        c,
        x,
        v.obj_size,
    ) && x % 8 == 0 by {
        let i = choose|i: int| 0 <= i < n && r[i] == x;
    }
    vstd::set_lib::lemma_set_disjoint_lens(v.objs, fresh);
    assert(w.objs.len() == v.objs.len() + n);
    assert forall|x: usize| #[trigger] w.objs.contains(x) implies x % 8 == 0 && in_some(
        w.slabs,
        x,
        w.obj_size,
    ) && lo <= x < hi by {
        if v.objs.contains(x) {
            let s = lemma_obj_slab(v, lo, hi, x);
            assert(w.slabs.contains(s));
        } else {
            assert(w.slabs.contains(c));
        }
    }
    lemma_objs_len(w.objs, lo, hi);
    assert forall|x: usize, y: usize| #[trigger]
        w.objs.contains(x) && #[trigger] w.objs.contains(y) && x < y implies x + w.obj_size
        <= y by {
        if v.objs.contains(x) {
            if !v.objs.contains(y) {
                let j = choose|j: int| 0 <= j < n && r[j] == y;
                assert(x + v.obj_size <= r[j] || r[j] + v.obj_size <= x);
            }
        } else {
            let i = choose|i: int| 0 <= i < n && r[i] == x;
            if v.objs.contains(y) {
                assert(y + v.obj_size <= r[i] || r[i] + v.obj_size <= y);
            } else {
                let j = choose|j: int| 0 <= j < n && r[j] == y;
                if j < i {
                    assert(r[j] + v.obj_size <= r[i]);
                } else if i < j {
                    assert(r[i] + v.obj_size <= r[j]);
                }
            }
        }
    }
    assert forall|i: int, j: int|
        0 <= i < w.free.len() && 0 <= j < w.free.len() && i != j implies w.free[i] != w.free[j] by {
        if i < n && j >= n {
            assert(v.free.contains(w.free[j]));
            assert(w.free[i] == r[i]);
        } else if j < n && i >= n {
            assert(v.free.contains(w.free[i]));
            assert(w.free[j] == r[j]);
        }
    }
    assert forall|x: usize| #[trigger] w.free.contains(x) implies w.objs.contains(x) by {
        let i = choose|i: int| 0 <= i < w.free.len() && w.free[i] == x;
        if i < n {
            assert(r[i] == x);
        } else {
            assert(v.free.contains(x));
        }
    }
    assert(w.slabs.subset_of(buddy_model::live_blocks(bw.live)));
}

/// A cache is not disturbed by what happens outside its slabs.
pub proof fn lemma_cache_frame(v: SlabView, before: &Memory, after: &Memory)
    requires
        v.inv(before.lo(), before.hi()),
        linked_list::threaded(v.free, before),
        after.wf(),
        after.same_outside(before, |a: int| !v.owns(a)),
    ensures
        linked_list::threaded(v.free, after),
{
    assert forall|i: int| 0 <= i < v.free.len() implies after.word(#[trigger] v.free[i] as int)
        == before.word(v.free[i] as int) by {
        let x = v.free[i];
        assert(v.free.contains(x));
        let s = lemma_obj_slab(v, before.lo(), before.hi(), x);
        assert(v.owns(x as int));
        assert(before.mapped(x as int));
    }
    linked_list::lemma_threaded_frame(v.free, before, after);
}

pub struct SlabCache {
    free: FreeList,
    obj_size: usize,
    /// Total objects ever provisioned into this cache.
    provisioned: usize,
    objs: Ghost<Set<usize>>,
    slabs: Ghost<Set<Block>>,
}

impl View for SlabCache {
    type V = SlabView;

    closed spec fn view(&self) -> SlabView {
        SlabView {
            free: self.free@,
            objs: self.objs@,
            slabs: self.slabs@,
            obj_size: self.obj_size as int,
            provisioned: self.provisioned as int,
        }
    }
}

impl SlabCache {
    /// The cache is consistent, and its free list is laid out in `mem`.
    pub open spec fn wf(&self, mem: &Memory) -> bool {
        &&& self@.inv(mem.lo(), mem.hi())
        &&& linked_list::threaded(self@.free, mem)
    }

    pub fn new(obj_size: usize) -> (r: SlabCache)
        ensures
            r@ == SlabView::empty(obj_size as int),
    {
        SlabCache {
            free: FreeList::new(),
            obj_size,
            provisioned: 0,
            objs: Ghost(Set::empty()),
            slabs: Ghost(Set::empty()),
        }
    }

    pub fn obj_size(&self) -> (r: usize)
        ensures
            r == self@.obj_size,
    {
        self.obj_size
    }

    pub fn free_count(&self) -> (r: usize)
        ensures
            r == self@.free.len(),
    {
        self.free.len()
    }

    pub fn provisioned(&self) -> (r: usize)
        ensures
            r == self@.provisioned,
    {
        self.provisioned
    }

    /// Refill this cache by pulling `bytes` from `buddy` and slicing it.
    /// Returns false if the buddy refused (out of memory).
    fn refill(&mut self, buddy: &mut BuddyAllocator, mem: &mut Memory, bytes: usize) -> (r: bool)
        requires
            old(buddy).wf(old(mem)),
            old(self).wf(old(mem)),
            old(self)@.backed(old(buddy)@),
        ensures
            final(buddy).wf(final(mem)),
            final(self).wf(final(mem)),
            final(self)@.backed(final(buddy)@),
            ({
                let o = buddy::order_needed(bytes as int, old(self)@.obj_size);
                &&& r == buddy::can_alloc(old(buddy)@, o)
                &&& r ==> {
                    &&& final(self)@ == old(self)@.carved(
                        buddy::alloc_block(old(buddy)@, o),
                        bytes as int,
                    )
                    &&& final(buddy)@ == buddy::after_alloc(old(buddy)@, o)
                }
                &&& !r ==> {
                    &&& final(self)@ == old(self)@
                    &&& final(buddy)@ == old(buddy)@
                    &&& *final(mem) == *old(mem)
                }
            }),
            final(mem).same_outside(old(mem), |a: int| buddy_laws::is_free(old(buddy)@, a)),
    {
        let ghost v = self@;
        let ghost bv = buddy@;
        let ghost o = buddy::order_needed(bytes as int, v.obj_size);
        let ghost c = buddy::alloc_block(bv, o);
        let base: usize = match buddy.allocate(mem, bytes, self.obj_size) {
            Some(base) => base,
            None => {
                return false;
            },
        };
        let n: usize = bytes / self.obj_size;
        let ghost r = row(c.addr, v.obj_size, n as int);
        let ghost bw = buddy@;
        let ghost granted = *mem;
        proof {
            buddy::lemma_least_order(
                if bytes >= v.obj_size {
                    bytes as int
                } else {
                    v.obj_size
                },
                buddy::MIN_ORDER as int,
            );
            lemma_carved(v, bv, bytes as int, mem.lo(), mem.hi());
            buddy_laws::lemma_after_alloc(bv, o, mem.lo(), mem.hi());
            lemma_unfree(v, bv, mem.lo(), mem.hi());
            assert forall|a: int| mem.mapped(a) && v.owns(a) implies #[trigger] mem.word(a) == old(
                mem,
            ).word(a) by {
                assert(!buddy_laws::is_free(bv, a));
            }
            lemma_cache_frame(v, old(mem), mem);
            assert(r.subrange(n as int, n as int) + v.free =~= v.free);
        }
        // Push objects high-address first. Subsequent pops then yield
        // ascending addresses.
        let mut i: usize = n;
        while i > 0
            invariant
                i <= n,
                self.obj_size == v.obj_size,
                self.provisioned == v.provisioned,
                self.objs@ == v.objs,
                self.slabs@ == v.slabs,
                self.free@ == r.subrange(i as int, n as int) + v.free,
                linked_list::threaded(self.free@, mem),
                buddy@ == bw,
                base == c.addr,
                n == r.len(),
                r.no_duplicates(),
                c.end() <= mem.hi(),
                mem.lo() <= c.addr,
                v.inv(mem.lo(), mem.hi()),
                forall|k: int|
                    0 <= k < n ==> {
                        let x = #[trigger] r[k];
                        &&& x == c.addr + k * v.obj_size
                        &&& inside(c, x, v.obj_size)
                        &&& x % 8 == 0
                        &&& !v.objs.contains(x)
                    },
                mem.same_outside(&granted, |a: int| c.has(a)),
            decreases i,
        {
            let ghost was = *mem;
            i = i - 1;
            assert(r[i as int] == c.addr + i * v.obj_size);
            assert(0 <= i * v.obj_size) by (nonlinear_arith)
                requires
                    0 <= i,
                    v.obj_size > 0,
            ;
            let addr: usize = base + i * self.obj_size;
            proof {
                let tail = r.subrange(i + 1, n as int);
                assert(!(tail + v.free).contains(addr)) by {
                    if (tail + v.free).contains(addr) {
                        let k = choose|k: int|
                            0 <= k < (tail + v.free).len() && (tail + v.free)[k] == addr;
                        if k < tail.len() {
                            assert(r[i + 1 + k] == addr);
                        } else {
                            assert(v.free.contains(v.free[k - tail.len()]));
                        }
                    }
                }
                assert(seq![addr] + (tail + v.free) =~= r.subrange(i as int, n as int) + v.free);
            }
            self.free.push(mem, addr);
            proof {
                assert(c.has(addr as int));
                assert forall|a: int| mem.mapped(a) && !c.has(a) implies #[trigger] mem.word(a)
                    == granted.word(a) by {
                    assert(mem.word(a) == was.word(a));
                    assert(was.mapped(a));
                }
            }
        }
        self.provisioned = self.provisioned + n;
        self.objs = Ghost(self.objs@.union(r.to_set()));
        self.slabs = Ghost(self.slabs@.insert(c));
        proof {
            assert(r.subrange(0, n as int) =~= r);
            assert(self@ == v.carved(c, bytes as int));
            assert forall|a: int| mem.mapped(a) && !(|x: int| !buddy_laws::is_free(bw, x))(
                a,
            ) implies #[trigger] mem.word(a) == granted.word(a) by {
                assert(!c.has(a));
            }
            buddy_laws::law_client_writes(bw, &granted, mem);
            assert forall|a: int| mem.mapped(a) && !buddy_laws::is_free(bv, a) implies #[trigger] mem.word(
                a,
            ) == old(mem).word(a) by {
                assert(!c.has(a));
                assert(granted.mapped(a));
                assert(mem.word(a) == granted.word(a));
            }
        }
        true
    }

    /// An object, from the free list or else from a slab of `refill` bytes.
    pub fn allocate(
        &mut self,
        buddy: &mut BuddyAllocator,
        mem: &mut Memory,
        refill: usize,
    ) -> (r: Option<usize>)
        requires
            old(buddy).wf(old(mem)),
            old(self).wf(old(mem)),
            old(self)@.backed(old(buddy)@),
        ensures
            final(buddy).wf(final(mem)),
            final(self).wf(final(mem)),
            final(self)@.backed(final(buddy)@),
            r == old(self)@.served(old(buddy)@, refill as int),
            final(self)@ == old(self)@.after_alloc(old(buddy)@, refill as int),
            final(buddy)@ == old(self)@.drained(old(buddy)@, refill as int),
            final(mem).same_outside(
                old(mem),
                |a: int|
                    old(self)@.refills(old(buddy)@, refill as int) && buddy_laws::is_free(
                        old(buddy)@,
                        a,
                    ),
            ),
    {
        if self.free.is_empty() && !self.refill(buddy, mem, refill) {
            return None;
        }
        let ghost w = self@;
        let r = self.free.pop(mem);
        proof {
            if w.free.len() > 0 {
                let rest = w.free.drop_first();
                assert forall|x: usize| #[trigger] rest.contains(x) implies w.objs.contains(x) by {
                    let k = choose|k: int| 0 <= k < rest.len() && rest[k] == x;
                    assert(w.free[k + 1] == x);
                    assert(w.free.contains(x));
                }
            }
        }
        r
    }

    /// Takes back the object at `ptr`. Only its first word is written.
    pub fn dealloc(&mut self, mem: &mut Memory, ptr: usize)
        requires
            old(self).wf(old(mem)),
            old(self)@.is_live(ptr),
        ensures
            final(self).wf(final(mem)),
            final(self)@ == old(self)@.after_dealloc(ptr),
            final(mem).same_outside(old(mem), |a: int| a == ptr),
    {
        let ghost v = self@;
        proof {
            let s = lemma_obj_slab(v, mem.lo(), mem.hi(), ptr);
        }
        self.free.push(mem, ptr);
        proof {
            let longer = seq![ptr] + v.free;
            assert forall|x: usize| #[trigger] longer.contains(x) implies v.objs.contains(x) by {
                let k = choose|k: int| 0 <= k < longer.len() && longer[k] == x;
                if k > 0 {
                    assert(v.free[k - 1] == x);
                    assert(v.free.contains(x));
                }
            }
        }
    }
}

/// The caches of all classes are consistent, and their slabs lie apart.
pub open spec fn set_inv(vs: Seq<SlabView>, lo: int, hi: int) -> bool {
    &&& vs.len() == CLASS_SIZES@.len()
    &&& forall|i: int|
        0 <= i < vs.len() ==> (#[trigger] vs[i]).inv(lo, hi) && vs[i].obj_size == CLASS_SIZES[i]
    &&& forall|i: int, j: int, s: Block, t: Block|
        0 <= i < vs.len() && 0 <= j < vs.len() && i != j && #[trigger] vs[i].slabs.contains(s)
            && #[trigger] vs[j].slabs.contains(t) ==> s.disjoint(t)
    &&& forall|i: int, x: usize|
        0 <= i < vs.len() && #[trigger] vs[i].objs.contains(x) ==> x % CLASS_SIZES[i] == 0
    &&& forall|i: int| 0 <= i < vs.len() ==> fully_cut(#[trigger] vs[i], REFILL_BYTES[i] as int)
}

/// The slabs have `bytes` bytes each, and their objects fill them.
pub open spec fn fully_cut(v: SlabView, bytes: int) -> bool {
    &&& v.slabs.finite()
    &&& forall|s: Block| #[trigger] v.slabs.contains(s) ==> s.size() == bytes
    &&& v.provisioned * v.obj_size == v.slabs.len() * bytes
}

/// The slabs of all classes are granted blocks of the buddy allocator.
pub open spec fn set_backed(vs: Seq<SlabView>, bv: BuddyView) -> bool {
    forall|i: int| 0 <= i < vs.len() ==> (#[trigger] vs[i]).backed(bv)
}

/// The free lists of all classes are laid out in `mem`.
pub open spec fn set_threaded(vs: Seq<SlabView>, mem: &Memory) -> bool {
    forall|i: int| 0 <= i < vs.len() ==> linked_list::threaded((#[trigger] vs[i]).free, mem)
}

/// `i` is the least class whose objects have at least `need` bytes.
pub open spec fn is_class_for(i: int, need: int) -> bool {
    &&& 0 <= i < CLASS_SIZES@.len()
    &&& need <= CLASS_SIZES[i]
    &&& i > 0 ==> CLASS_SIZES[i - 1] < need
}

/// Class `i` has `2^(i + 3)` bytes.
pub proof fn lemma_class_sizes(i: int)
    requires
        0 <= i < 8,
    ensures
        CLASS_SIZES[i] == powers::p2(i + 3),
        CLASS_SIZES[i] <= 1024,
        4096 <= REFILL_BYTES[i] <= 8192,
{
    powers::lemma_p2_values();
    assert(i == 0 || i == 1 || i == 2 || i == 3 || i == 4 || i == 5 || i == 6 || i == 7);
}

/// Objects that are cut from the front of a slab are naturally aligned.
proof fn lemma_carved_aligned(v: SlabView, bv: BuddyView, i: int, lo: int, hi: int)
    requires
        bv.inv(None, lo, hi),
        0 <= i < 8,
        v.obj_size == CLASS_SIZES[i],
        v.inv(lo, hi),
        v.backed(bv),
        buddy::can_alloc(bv, buddy::order_needed(REFILL_BYTES[i] as int, v.obj_size)),
        forall|x: usize| #[trigger] v.objs.contains(x) ==> x % CLASS_SIZES[i] == 0,
    ensures
        ({
            let bytes = REFILL_BYTES[i] as int;
            let c = buddy::alloc_block(bv, buddy::order_needed(bytes, v.obj_size));
            forall|x: usize| #[trigger]
                v.carved(c, bytes).objs.contains(x) ==> x % CLASS_SIZES[i] == 0
        }),
{
    let bytes = REFILL_BYTES[i] as int;
    let size = v.obj_size;
    let o = buddy::order_needed(bytes, size);
    let c = buddy::alloc_block(bv, o);
    let n = bytes / size;
    lemma_class_sizes(i);
    lemma_carved(v, bv, bytes, lo, hi);
    buddy::lemma_least_order(bytes, buddy::MIN_ORDER as int);
    powers::lemma_p2_values();
    if o < 10 {
        powers::lemma_p2_mono(o, 9);
    }
    powers::lemma_aligned_mono(c.addr, i + 3, o);
    assert(c.addr % size == 0) by {
        reveal(powers::aligned);
    }
    assert forall|x: usize| #[trigger] v.carved(c, bytes).objs.contains(x) implies x
        % CLASS_SIZES[i] == 0 by {
        if !v.objs.contains(x) {
            let r = row(c.addr, size, n);
            let k = choose|k: int| 0 <= k < r.len() && r[k] == x;
            assert(r[k] == c.addr + k * size);
            vstd::arithmetic::div_mod::lemma_mod_multiples_vanish(k, c.addr, size);
            assert(size * k + c.addr == c.addr + k * size) by (nonlinear_arith);
        }
    }
}

/// A fresh slab has exactly the bytes of a refill, and the objects of its class
/// fill it.
proof fn lemma_carved_fully(v: SlabView, bv: BuddyView, i: int, lo: int, hi: int)
    requires
        bv.inv(None, lo, hi),
        0 <= i < 8,
        v.obj_size == CLASS_SIZES[i],
        v.inv(lo, hi),
        v.backed(bv),
        buddy::can_alloc(bv, buddy::order_needed(REFILL_BYTES[i] as int, v.obj_size)),
        fully_cut(v, REFILL_BYTES[i] as int),
    ensures
        ({
            let bytes = REFILL_BYTES[i] as int;
            let c = buddy::alloc_block(bv, buddy::order_needed(bytes, v.obj_size));
            fully_cut(v.carved(c, bytes), bytes)
        }),
{
    let bytes = REFILL_BYTES[i] as int;
    let size = v.obj_size;
    let c = buddy::alloc_block(bv, buddy::order_needed(bytes, size));
    let w = v.carved(c, bytes);
    lemma_class_sizes(i);
    lemma_carved(v, bv, bytes, lo, hi);
    powers::lemma_p2_values();
    powers::lemma_p2_step(11);
    powers::lemma_p2_step(12);
    assert(i == 0 || i == 1 || i == 2 || i == 3 || i == 4 || i == 5 || i == 6 || i == 7);
    buddy::lemma_least_order_is(
        bytes,
        buddy::MIN_ORDER as int,
        if i < 6 {
            12
        } else {
            13
        },
    );
    assert(c.size() == bytes);
    let n = bytes / size;
    assert(n * size == bytes) by {
        let m = seq![512int, 256, 128, 64, 32, 16, 16, 8][i];
        assert(m * size == bytes);
        vstd::arithmetic::div_mod::lemma_fundamental_div_mod_converse(bytes, size, m, 0);
    }
    assert((v.provisioned + n) * size == v.provisioned * size + n * size) by (nonlinear_arith);
    let k = v.slabs.len();
    assert((k + 1) * bytes == k * bytes + bytes) by (nonlinear_arith);
}

/// What a request to class `i` finds: aligned objects, of which the fresh ones
/// lie where the buddy allocator was free.
pub proof fn lemma_stocked(vs: Seq<SlabView>, bv: BuddyView, i: int, lo: int, hi: int)
    requires
        set_inv(vs, lo, hi),
        set_backed(vs, bv),
        bv.inv(None, lo, hi),
        0 <= i < vs.len(),
    ensures
        ({
            let bytes = REFILL_BYTES[i] as int;
            let w = vs[i].stocked(bv, bytes);
            &&& w.inv(lo, hi)
            &&& w.obj_size == CLASS_SIZES[i]
            &&& w.backed(vs[i].drained(bv, bytes))
            &&& vs[i].objs.subset_of(w.objs)
            &&& forall|x: usize| #[trigger] w.objs.contains(x) ==> x % CLASS_SIZES[i] == 0
            &&& forall|x: usize, a: int|
                vs[i].refills(bv, bytes) && #[trigger] w.free.contains(x) && x <= a < x + w.obj_size
                    ==> #[trigger] buddy_laws::is_free(bv, a)
            &&& forall|x: usize| #[trigger] w.free.contains(x) ==> !vs[i].is_live(x)
        }),
{
    let bytes = REFILL_BYTES[i] as int;
    let v = vs[i];
    let w = v.stocked(bv, bytes);
    assert(v.inv(lo, hi) && v.backed(bv) && v.obj_size == CLASS_SIZES[i]);
    lemma_class_sizes(i);
    assert(forall|x: usize| #[trigger] v.objs.contains(x) ==> vs[i].objs.contains(x));
    if v.refills(bv, bytes) {
        let o = buddy::order_needed(bytes, v.obj_size);
        let c = buddy::alloc_block(bv, o);
        let r = row(c.addr, v.obj_size, bytes / v.obj_size);
        buddy::lemma_least_order(bytes, buddy::MIN_ORDER as int);
        lemma_carved(v, bv, bytes, lo, hi);
        lemma_carved_aligned(v, bv, i, lo, hi);
        buddy_laws::lemma_after_alloc(bv, o, lo, hi);
        assert forall|x: usize, a: int| #[trigger]
            w.free.contains(x) && x <= a < x + w.obj_size implies #[trigger] buddy_laws::is_free(
            bv,
            a,
        ) by {
            let k = choose|k: int| 0 <= k < w.free.len() && w.free[k] == x;
            assert(r[k] == x);
            assert(c.has(a));
        }
        assert forall|x: usize| #[trigger] w.free.contains(x) implies !v.is_live(x) by {
            let k = choose|k: int| 0 <= k < w.free.len() && w.free[k] == x;
            assert(r[k] == x);
        }
    }
}

/// Objects of a fresh slab are handed out in ascending address order.
pub proof fn law_refill_ascending(v: SlabView, bv: BuddyView, bytes: int, lo: int, hi: int)
    requires
        v.inv(lo, hi),
        v.backed(bv),
        bv.inv(None, lo, hi),
        0 <= bytes,
        v.refills(bv, bytes),
    ensures
        ({
            let w = v.stocked(bv, bytes);
            forall|i: int, j: int| 0 <= i < j < w.free.len() ==> w.free[i] < w.free[j]
        }),
{
    let c = buddy::alloc_block(bv, buddy::order_needed(bytes, v.obj_size));
    let r = row(c.addr, v.obj_size, bytes / v.obj_size);
    let w = v.stocked(bv, bytes);
    lemma_carved(v, bv, bytes, lo, hi);
    assert(w.free =~= r);
    assert forall|i: int, j: int| 0 <= i < j < w.free.len() implies w.free[i] < w.free[j] by {
        let size = v.obj_size;
        assert(r[i] == c.addr + i * size && r[j] == c.addr + j * size);
        assert(i * size < j * size) by (nonlinear_arith)
            requires
                i < j,
                0 < size,
        ;
    }
}

/// What a cache does with a request, whatever the size of its objects and of
/// its refills. As long as it has a free object, the first is handed out. Else
/// it takes the least block that holds `bytes` bytes, cuts as many objects from
/// its start as `bytes` bytes hold, and hands out the first of them. If there
/// is no such block, the request is refused and nothing changes.
pub proof fn law_cache(v: SlabView, bv: BuddyView, bytes: int, n: int, lo: int, hi: int)
    requires
        v.inv(lo, hi),
        v.backed(bv),
        bv.inv(None, lo, hi),
        0 <= bytes,
        n * v.obj_size <= bytes < (n + 1) * v.obj_size,
    ensures
        v.after_alloc(bv, bytes).obj_size == v.obj_size,
        v.free.len() > 0 ==> {
            &&& v.served(bv, bytes) == Some(v.free[0])
            &&& v.after_alloc(bv, bytes).free == v.free.drop_first()
            &&& v.after_alloc(bv, bytes).provisioned == v.provisioned
            &&& v.after_alloc(bv, bytes).objs == v.objs
            &&& v.drained(bv, bytes) == bv
        },
        v.free.len() == 0 ==> ({
            let o = buddy::order_needed(bytes, v.obj_size);
            let base = buddy::alloc_block(bv, o).addr;
            let w = v.after_alloc(bv, bytes);
            &&& buddy::can_alloc(bv, o) ==> {
                &&& v.drained(bv, bytes) == buddy::after_alloc(bv, o)
                &&& w.provisioned == v.provisioned + n
                &&& n > 0 ==> v.served(bv, bytes) == Some(base as usize)
                &&& n == 0 ==> v.served(bv, bytes) is None
                &&& w.free.len() == if n > 0 {
                    n - 1
                } else {
                    0
                }
                &&& forall|k: int|
                    0 <= k < w.free.len() ==> (#[trigger] w.free[k]) == base + (k + 1) * v.obj_size
            }
            &&& !buddy::can_alloc(bv, o) ==> {
                &&& v.served(bv, bytes) is None
                &&& w == v
                &&& v.drained(bv, bytes) == bv
            }
        }),
{
    let size = v.obj_size;
    let o = buddy::order_needed(bytes, size);
    assert(bytes < n * size + size) by (nonlinear_arith)
        requires
            bytes < (n + 1) * size,
    ;
    vstd::arithmetic::div_mod::lemma_fundamental_div_mod_converse(
        bytes,
        size,
        n,
        bytes - n * size,
    );
    assert(0 <= n) by (nonlinear_arith)
        requires
            0 <= bytes < (n + 1) * size,
            0 < size,
    ;
    if v.free.len() == 0 && buddy::can_alloc(bv, o) {
        let c = buddy::alloc_block(bv, o);
        lemma_carved(v, bv, bytes, lo, hi);
        let r = row(c.addr, size, n);
        let st = v.stocked(bv, bytes);
        assert(st.free =~= r);
        buddy::lemma_least_order(
            if bytes >= size {
                bytes
            } else {
                size
            },
            buddy::MIN_ORDER as int,
        );
        buddy_laws::lemma_after_alloc(bv, o, lo, hi);
        let bw = buddy::after_alloc(bv, o);
        assert(bw.blocks(None).contains(c));
        buddy_model::lemma_block_bounds(bw, None, lo, hi, c);
        let w = v.after_alloc(bv, bytes);
        assert forall|k: int| 0 <= k < w.free.len() implies (#[trigger] w.free[k]) == c.addr + (k
            + 1) * size by {
            assert(0 <= (k + 1) * size <= n * size) by (nonlinear_arith)
                requires
                    0 <= k + 1 <= n,
                    0 < size,
            ;
            assert(w.free[k] == r[k + 1]);
        }
    }
}

/// An object that is given back to its cache comes first there.
pub proof fn law_cache_freed(v: SlabView, x: usize)
    ensures
        v.after_dealloc(x).free.len() == v.free.len() + 1,
        v.after_dealloc(x).free[0] == x,
        v.after_dealloc(x).free.drop_first() == v.free,
        v.after_dealloc(x).objs == v.objs,
        v.after_dealloc(x).slabs == v.slabs,
        v.after_dealloc(x).obj_size == v.obj_size,
        v.after_dealloc(x).provisioned == v.provisioned,
        v.is_live(x) <==> v.objs.contains(x) && !v.free.contains(x),
{
    assert((seq![x] + v.free).drop_first() =~= v.free);
}

/// A refill of class `i` cuts the block into objects without a gap: they start
/// at multiples of their size from its start on and fill it.
pub proof fn law_carving(v: SlabView, bv: BuddyView, i: int, lo: int, hi: int)
    requires
        v.inv(lo, hi),
        v.backed(bv),
        bv.inv(None, lo, hi),
        0 <= i < 8,
        v.obj_size == CLASS_SIZES[i],
        v.free.len() == 0,
        v.refills(bv, REFILL_BYTES[i] as int),
    ensures
        ({
            let bytes = REFILL_BYTES[i] as int;
            let base = buddy::alloc_block(bv, buddy::order_needed(bytes, v.obj_size)).addr;
            let n = bytes / v.obj_size;
            let w = v.stocked(bv, bytes);
            &&& n * v.obj_size == bytes
            &&& n > 1
            &&& w.free.len() == n
            &&& forall|k: int| 0 <= k < n ==> (#[trigger] w.free[k]) == base + k * v.obj_size
            &&& w.provisioned == v.provisioned + n
            &&& w.obj_size == v.obj_size
        }),
{
    let bytes = REFILL_BYTES[i] as int;
    let size = v.obj_size;
    let n = bytes / size;
    let c = buddy::alloc_block(bv, buddy::order_needed(bytes, size));
    lemma_class_sizes(i);
    lemma_carved(v, bv, bytes, lo, hi);
    let m = seq![512int, 256, 128, 64, 32, 16, 16, 8][i];
    assert(i == 0 || i == 1 || i == 2 || i == 3 || i == 4 || i == 5 || i == 6 || i == 7);
    assert(m * size == bytes);
    vstd::arithmetic::div_mod::lemma_fundamental_div_mod_converse(bytes, size, m, 0);
    let w = v.stocked(bv, bytes);
    let r = row(c.addr, size, n);
    assert(w.free =~= r);
    buddy::lemma_least_order(bytes, buddy::MIN_ORDER as int);
    buddy_laws::lemma_after_alloc(bv, c.order, lo, hi);
    let bw = buddy::after_alloc(bv, c.order);
    assert(bw.blocks(None).contains(c));
    buddy_model::lemma_block_bounds(bw, None, lo, hi, c);
    assert forall|k: int| 0 <= k < n implies (#[trigger] w.free[k]) == c.addr + k * size by {
        assert(0 <= k * size <= n * size) by (nonlinear_arith)
            requires
                0 <= k < n,
                0 < size,
        ;
        assert(w.free[k] == r[k]);
    }
}

/// No two caches own one byte.
proof fn lemma_owners(vs: Seq<SlabView>, lo: int, hi: int, i: int, j: int, a: int)
    requires
        set_inv(vs, lo, hi),
        0 <= i < vs.len(),
        0 <= j < vs.len(),
        vs[i].owns(a),
        vs[j].owns(a),
    ensures
        i == j,
{
    let s = choose|s: Block| #[trigger] vs[i].slabs.contains(s) && s.has(a);
    let t = choose|t: Block| #[trigger] vs[j].slabs.contains(t) && t.has(a);
    if i != j {
        assert(s.disjoint(t));
    }
}

/// A request to class `i` keeps the caches consistent.
proof fn lemma_set_alloc(
    vs: Seq<SlabView>,
    bv: BuddyView,
    i: int,
    w: SlabView,
    before: &Memory,
    after: &Memory,
)
    requires
        set_inv(vs, before.lo(), before.hi()),
        set_backed(vs, bv),
        set_threaded(vs, before),
        bv.inv(None, before.lo(), before.hi()),
        0 <= i < vs.len(),
        w == vs[i].after_alloc(bv, REFILL_BYTES[i] as int),
        w.inv(before.lo(), before.hi()),
        linked_list::threaded(w.free, after),
        w.backed(vs[i].drained(bv, REFILL_BYTES[i] as int)),
        after.wf(),
        after.same_outside(before, |a: int| buddy_laws::is_free(bv, a)),
    ensures
        set_inv(vs.update(i, w), after.lo(), after.hi()),
        set_backed(vs.update(i, w), vs[i].drained(bv, REFILL_BYTES[i] as int)),
        set_threaded(vs.update(i, w), after),
{
    let lo = before.lo();
    let hi = before.hi();
    let bytes = REFILL_BYTES[i] as int;
    let v = vs[i];
    let bw = v.drained(bv, bytes);
    let ws = vs.update(i, w);
    let o = buddy::order_needed(bytes, v.obj_size);
    lemma_class_sizes(i);
    assert(v.inv(lo, hi) && v.obj_size == CLASS_SIZES[i]);
    assert(fully_cut(v, bytes));
    assert(forall|x: usize| #[trigger] v.objs.contains(x) ==> vs[i].objs.contains(x));
    if v.refills(bv, bytes) {
        buddy::lemma_least_order(bytes, buddy::MIN_ORDER as int);
        buddy_laws::lemma_after_alloc(bv, o, lo, hi);
        lemma_carved_aligned(v, bv, i, lo, hi);
        lemma_carved_fully(v, bv, i, lo, hi);
    }
    assert forall|j: int| 0 <= j < ws.len() implies fully_cut(
        #[trigger] ws[j],
        REFILL_BYTES[j] as int,
    ) by {
        assert(fully_cut(vs[j], REFILL_BYTES[j] as int));
    }
    assert forall|j: int| 0 <= j < ws.len() implies (#[trigger] ws[j]).backed(bw)
        && linked_list::threaded(ws[j].free, after) by {
        if j != i {
            assert(vs[j].backed(bv));
            lemma_unfree(vs[j], bv, lo, hi);
            assert forall|a: int| after.mapped(a) && vs[j].owns(a) implies #[trigger] after.word(a)
                == before.word(a) by {
                assert(!buddy_laws::is_free(bv, a));
            }
            assert(linked_list::threaded(vs[j].free, before));
            assert(vs[j].inv(lo, hi));
            lemma_cache_frame(vs[j], before, after);
        }
    }
    assert forall|j: int, k: int, s: Block, t: Block|
        0 <= j < ws.len() && 0 <= k < ws.len() && j != k && #[trigger] ws[j].slabs.contains(s)
            && #[trigger] ws[k].slabs.contains(t) implies s.disjoint(t) by {
        if vs[j].slabs.contains(s) && vs[k].slabs.contains(t) {
            assert(s.disjoint(t));
        } else {
            let all = bw.blocks(None);
            assert(vs[j].backed(bv) && vs[k].backed(bv));
            assert(ws[j].backed(bw) && ws[k].backed(bw));
            assert(all.contains(s) && all.contains(t));
            assert(s != t);
        }
    }
    assert forall|j: int, x: usize|
        0 <= j < ws.len() && #[trigger] ws[j].objs.contains(x) implies x % CLASS_SIZES[j] == 0 by {
        if j != i {
            assert(vs[j].objs.contains(x));
        } else if !v.refills(bv, bytes) {
            assert(v.objs.contains(x));
        }
    }
}

pub struct SlabSet {
    caches: [SlabCache; 8],
}

impl View for SlabSet {
    type V = Seq<SlabView>;

    /// The caches, by class.
    closed spec fn view(&self) -> Seq<SlabView> {
        Seq::new(8, |i: int| self.caches@[i]@)
    }
}

impl SlabSet {
    /// The caches are consistent, and their free lists are laid out in `mem`.
    pub open spec fn wf(&self, mem: &Memory) -> bool {
        &&& set_inv(self@, mem.lo(), mem.hi())
        &&& set_threaded(self@, mem)
    }

    pub fn new() -> (r: SlabSet)
        ensures
            r@ == Seq::new(8, |i: int| SlabView::empty(CLASS_SIZES[i] as int)),
            forall|mem: &Memory| mem.wf() ==> #[trigger] r.wf(mem),
            forall|bv: BuddyView| #[trigger] set_backed(r@, bv),
    {
        let r = SlabSet {
            caches: [
                SlabCache::new(CLASS_SIZES[0]),
                SlabCache::new(CLASS_SIZES[1]),
                SlabCache::new(CLASS_SIZES[2]),
                SlabCache::new(CLASS_SIZES[3]),
                SlabCache::new(CLASS_SIZES[4]),
                SlabCache::new(CLASS_SIZES[5]),
                SlabCache::new(CLASS_SIZES[6]),
                SlabCache::new(CLASS_SIZES[7]),
            ],
        };
        proof {
            let vs = Seq::new(8, |i: int| SlabView::empty(CLASS_SIZES[i] as int));
            assert(r@ =~= vs);
            assert forall|mem: &Memory| mem.wf() implies #[trigger] r.wf(mem) by {
                assert forall|i: int| 0 <= i < 8 implies (#[trigger] vs[i]).inv(mem.lo(), mem.hi())
                    && linked_list::threaded(vs[i].free, mem) && fully_cut(
                    vs[i],
                    REFILL_BYTES[i] as int,
                ) by {
                    lemma_class_sizes(i);
                    assert(i == 0 || i == 1 || i == 2 || i == 3 || i == 4 || i == 5 || i == 6 || i
                        == 7);
                }
            }
        }
        r
    }

    /// Class index for `size`/`align`, or `None` if the request is too big.
    ///
    /// The class sizes are `2^3..2^10`, so the index is a logarithm. Since
    /// every class size is a power of two and so is the alignment, an object
    /// of the class is aligned as required.
    #[inline]
    pub fn class_for(size: usize, align: usize) -> (r: Option<usize>)
        ensures
            ({
                let need = if size >= align {
                    size as int
                } else {
                    align as int
                };
                match r {
                    Some(i) => is_class_for(i as int, need),
                    None => need > CLASS_SIZES[7],
                }
            }),
    {
        let mut need: usize = if size >= align {
            size
        } else {
            align
        };
        if need < 8 {
            need = 8;
        }
        if need > 1024 {
            return None;
        }
        let log: usize = powers::ceil_log2(need);
        proof {
            powers::lemma_p2_values();
            if log > 10 {
                powers::lemma_p2_mono(10, log - 1);
            }
            if log < 3 {
                powers::lemma_p2_mono(log as int, 3);
            }
            lemma_class_sizes(log - 3);
            if log > 3 {
                lemma_class_sizes(log - 4);
            }
        }
        // 8 -> 0, 16 -> 1, ..., 1024 -> 7
        Some(log - 3)
    }

    /// An object of class `idx`.
    pub fn allocate(&mut self, idx: usize, buddy: &mut BuddyAllocator, mem: &mut Memory) -> (r:
        Option<usize>)
        requires
            idx < CLASS_SIZES@.len(),
            old(buddy).wf(old(mem)),
            old(self).wf(old(mem)),
            set_backed(old(self)@, old(buddy)@),
        ensures
            final(buddy).wf(final(mem)),
            final(self).wf(final(mem)),
            set_backed(final(self)@, final(buddy)@),
            ({
                let v = old(self)@[idx as int];
                let bytes = REFILL_BYTES[idx as int] as int;
                &&& r == v.served(old(buddy)@, bytes)
                &&& final(self)@ == old(self)@.update(idx as int, v.after_alloc(old(buddy)@, bytes))
                &&& final(buddy)@ == v.drained(old(buddy)@, bytes)
            }),
            final(mem).same_outside(old(mem), |a: int| buddy_laws::is_free(old(buddy)@, a)),
    {
        let ghost vs = self@;
        proof {
            assert(vs[idx as int].inv(mem.lo(), mem.hi()));
            assert(vs[idx as int].backed(buddy@));
            assert(linked_list::threaded(vs[idx as int].free, mem));
        }
        let r = self.caches[idx].allocate(buddy, mem, REFILL_BYTES[idx]);
        proof {
            let w = self@[idx as int];
            assert(self@ =~= vs.update(idx as int, w));
            lemma_set_alloc(vs, old(buddy)@, idx as int, w, old(mem), mem);
        }
        r
    }

    /// Takes back the object of class `idx` at `ptr`. Only its first word is
    /// written.
    pub fn dealloc(&mut self, mem: &mut Memory, idx: usize, ptr: usize)
        requires
            idx < CLASS_SIZES@.len(),
            old(self).wf(old(mem)),
            old(self)@[idx as int].is_live(ptr),
        ensures
            final(self).wf(final(mem)),
            final(self)@ == old(self)@.update(
                idx as int,
                old(self)@[idx as int].after_dealloc(ptr),
            ),
            forall|bv: BuddyView| #[trigger]
                set_backed(old(self)@, bv) ==> set_backed(final(self)@, bv),
            final(mem).same_outside(old(mem), |a: int| a == ptr),
    {
        let ghost vs = self@;
        let ghost i = idx as int;
        proof {
            assert(vs[i].inv(mem.lo(), mem.hi()));
            assert(linked_list::threaded(vs[i].free, mem));
        }
        self.caches[idx].dealloc(mem, ptr);
        proof {
            let ws = vs.update(i, vs[i].after_dealloc(ptr));
            assert(self@ =~= ws);
            let s = lemma_obj_slab(vs[i], mem.lo(), mem.hi(), ptr);
            assert(vs[i].owns(ptr as int));
            assert forall|j: int| 0 <= j < ws.len() implies linked_list::threaded(
                (#[trigger] ws[j]).free,
                mem,
            ) by {
                if j != i {
                    assert(linked_list::threaded(vs[j].free, old(mem)));
                    assert(vs[j].inv(mem.lo(), mem.hi()));
                    if vs[j].owns(ptr as int) {
                        lemma_owners(vs, mem.lo(), mem.hi(), i, j, ptr as int);
                    }
                    lemma_cache_frame(vs[j], old(mem), mem);
                }
            }
            assert forall|j: int| 0 <= j < ws.len() implies (#[trigger] ws[j]).inv(
                mem.lo(),
                mem.hi(),
            ) && ws[j].obj_size == CLASS_SIZES[j] by {
                assert(vs[j].inv(mem.lo(), mem.hi()));
            }
            assert forall|j: int, k: int, s: Block, t: Block|
                0 <= j < ws.len() && 0 <= k < ws.len() && j != k && #[trigger] ws[j].slabs.contains(
                    s,
                ) && #[trigger] ws[k].slabs.contains(t) implies s.disjoint(t) by {
                assert(vs[j].slabs.contains(s) && vs[k].slabs.contains(t));
            }
            assert forall|j: int, x: usize|
                0 <= j < ws.len() && #[trigger] ws[j].objs.contains(x) implies x % CLASS_SIZES[j]
                == 0 by {
                assert(vs[j].objs.contains(x));
            }
            assert forall|j: int| 0 <= j < ws.len() implies fully_cut(
                #[trigger] ws[j],
                REFILL_BYTES[j] as int,
            ) by {
                assert(fully_cut(vs[j], REFILL_BYTES[j] as int));
            }
            assert forall|b: BuddyView| #[trigger] set_backed(vs, b) implies set_backed(ws, b) by {
                assert forall|j: int| 0 <= j < ws.len() implies (#[trigger] ws[j]).backed(b) by {
                    assert(vs[j].backed(b));
                }
            }
        }
    }

    pub fn cache(&self, idx: usize) -> (r: &SlabCache)
        requires
            idx < CLASS_SIZES@.len(),
        ensures
            r@ == self@[idx as int],
    {
        &self.caches[idx]
    }
}

} // verus!
