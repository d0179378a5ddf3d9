//! Per-allocator statistics.
//!
//! The counters are as wide as the hardware's and wrap around.

use vstd::prelude::*;

verus! {

/// Number of slab size classes.
pub const CLASSES: usize = 8;

/// The counters as values.
#[verifier::ext_equal]
pub struct StatsView {
    pub allocs: u64,
    pub frees: u64,
    pub bytes_allocated: u64,
    pub bytes_freed: u64,
    pub slab_hits: u64,
    pub buddy_calls: u64,
    pub oom: u64,
    pub class_hits: Seq<u64>,
}

impl StatsView {
    pub open spec fn zero() -> StatsView {
        StatsView {
            allocs: 0,
            frees: 0,
            bytes_allocated: 0,
            bytes_freed: 0,
            slab_hits: 0,
            buddy_calls: 0,
            oom: 0,
            class_hits: Seq::new(CLASSES as nat, |i: int| 0u64),
        }
    }

    /// One more request for `bytes` bytes was served.
    pub open spec fn alloc_recorded(self, bytes: usize) -> StatsView {
        StatsView {
            allocs: self.allocs.wrapping_add(1),
            bytes_allocated: self.bytes_allocated.wrapping_add(bytes as u64),
            ..self
        }
    }

    /// `bytes` bytes were given back.
    pub open spec fn free_recorded(self, bytes: usize) -> StatsView {
        StatsView {
            frees: self.frees.wrapping_add(1),
            bytes_freed: self.bytes_freed.wrapping_add(bytes as u64),
            ..self
        }
    }

    /// One more request went to slab class `idx`.
    pub open spec fn slab_recorded(self, idx: int) -> StatsView {
        StatsView {
            slab_hits: self.slab_hits.wrapping_add(1),
            class_hits: self.class_hits.update(idx, self.class_hits[idx].wrapping_add(1)),
            ..self
        }
    }

    /// One more request went to the buddy allocator.
    pub open spec fn buddy_recorded(self) -> StatsView {
        StatsView { buddy_calls: self.buddy_calls.wrapping_add(1), ..self }
    }

    /// One more request could not be served.
    pub open spec fn oom_recorded(self) -> StatsView {
        StatsView { oom: self.oom.wrapping_add(1), ..self }
    }
}

pub struct AllocStats {
    allocs: u64,
    frees: u64,
    bytes_allocated: u64,
    bytes_freed: u64,
    slab_hits: u64,
    buddy_calls: u64,
    oom: u64,
    /// Per-class slab hits for the 8 classes (8..1024).
    pub class_hits: [u64; CLASSES],
}

impl View for AllocStats {
    type V = StatsView;

    closed spec fn view(&self) -> StatsView {
        StatsView {
            allocs: self.allocs,
            frees: self.frees,
            bytes_allocated: self.bytes_allocated,
            bytes_freed: self.bytes_freed,
            slab_hits: self.slab_hits,
            buddy_calls: self.buddy_calls,
            oom: self.oom,
            class_hits: self.class_hits@,
        }
    }
}

impl AllocStats {
    pub fn new() -> (r: AllocStats)
        ensures
            r@ == StatsView::zero(),
    {
        let r = AllocStats {
            allocs: 0,
            frees: 0,
            bytes_allocated: 0,
            bytes_freed: 0,
            slab_hits: 0,
            buddy_calls: 0,
            oom: 0,
            class_hits: [0, 0, 0, 0, 0, 0, 0, 0],
        };
        assert(r@.class_hits =~= StatsView::zero().class_hits);
        r
    }

    #[inline]
    pub fn record_alloc(&mut self, bytes: usize)
        ensures
            final(self)@ == old(self)@.alloc_recorded(bytes),
    {
        self.allocs = self.allocs.wrapping_add(1);
        self.bytes_allocated = self.bytes_allocated.wrapping_add(bytes as u64);
    }

    #[inline]
    pub fn record_free(&mut self, bytes: usize)
        ensures
            final(self)@ == old(self)@.free_recorded(bytes),
    {
        self.frees = self.frees.wrapping_add(1);
        self.bytes_freed = self.bytes_freed.wrapping_add(bytes as u64);
    }

    #[inline]
    pub fn record_slab(&mut self, idx: usize)
        requires
            idx < CLASSES,
        ensures
            final(self)@ == old(self)@.slab_recorded(idx as int),
    {
        self.slab_hits = self.slab_hits.wrapping_add(1);
        self.class_hits[idx] = self.class_hits[idx].wrapping_add(1);
    }

    #[inline]
    pub fn record_buddy(&mut self)
        ensures
            final(self)@ == old(self)@.buddy_recorded(),
    {
        self.buddy_calls = self.buddy_calls.wrapping_add(1);
    }

    #[inline]
    pub fn record_oom(&mut self)
        ensures
            final(self)@ == old(self)@.oom_recorded(),
    {
        self.oom = self.oom.wrapping_add(1);
    }

    /// Slab hits of class `idx`.
    pub fn class_hits_of(&self, idx: usize) -> (r: u64)
        requires
            idx < CLASSES,
        ensures
            r == self@.class_hits[idx as int],
    {
        self.class_hits[idx]
    }

    pub fn allocs(&self) -> (r: u64)
        ensures
            r == self@.allocs,
    {
        self.allocs
    }

    pub fn frees(&self) -> (r: u64)
        ensures
            r == self@.frees,
    {
        self.frees
    }

    pub fn bytes_allocated(&self) -> (r: u64)
        ensures
            r == self@.bytes_allocated,
    {
        self.bytes_allocated
    }

    pub fn bytes_freed(&self) -> (r: u64)
        ensures
            r == self@.bytes_freed,
    {
        self.bytes_freed
    }

    pub fn slab_hits(&self) -> (r: u64)
        ensures
            r == self@.slab_hits,
    {
        self.slab_hits
    }

    pub fn buddy_calls(&self) -> (r: u64)
        ensures
            r == self@.buddy_calls,
    {
        self.buddy_calls
    }

    pub fn oom(&self) -> (r: u64)
        ensures
            r == self@.oom,
    {
        self.oom
    }
}

/// Each event moves its own counters, by one or by its bytes, and no other. The
/// counters wrap at 2^64.
pub proof fn law_events(s: StatsView, bytes: usize, idx: int)
    requires
        s.class_hits.len() == 8,
        0 <= idx < 8,
    ensures
        ({
            let t = s.alloc_recorded(bytes);
            &&& t.allocs == (s.allocs + 1) % 0x1_0000_0000_0000_0000
            &&& t.bytes_allocated == (s.bytes_allocated + bytes) % 0x1_0000_0000_0000_0000
            &&& t == (StatsView { allocs: t.allocs, bytes_allocated: t.bytes_allocated, ..s })
        }),
        ({
            let t = s.free_recorded(bytes);
            &&& t.frees == (s.frees + 1) % 0x1_0000_0000_0000_0000
            &&& t.bytes_freed == (s.bytes_freed + bytes) % 0x1_0000_0000_0000_0000
            &&& t == (StatsView { frees: t.frees, bytes_freed: t.bytes_freed, ..s })
        }),
        ({
            let t = s.slab_recorded(idx);
            &&& t.slab_hits == (s.slab_hits + 1) % 0x1_0000_0000_0000_0000
            &&& t.class_hits.len() == 8
            &&& t.class_hits[idx] == (s.class_hits[idx] + 1) % 0x1_0000_0000_0000_0000
            &&& forall|i: int|
                0 <= i < 8 && i != idx ==> (#[trigger] t.class_hits[i]) == s.class_hits[i]
            &&& t == (StatsView { slab_hits: t.slab_hits, class_hits: t.class_hits, ..s })
        }),
        ({
            let t = s.buddy_recorded();
            &&& t.buddy_calls == (s.buddy_calls + 1) % 0x1_0000_0000_0000_0000
            &&& t == (StatsView { buddy_calls: t.buddy_calls, ..s })
        }),
        ({
            let t = s.oom_recorded();
            &&& t.oom == (s.oom + 1) % 0x1_0000_0000_0000_0000
            &&& t == (StatsView { oom: t.oom, ..s })
        }),
{
}

/// Counters start at zero.
pub proof fn law_start(i: int)
    requires
        0 <= i < 8,
    ensures
        ({
            let s = StatsView::zero();
            &&& s.allocs == 0
            &&& s.frees == 0
            &&& s.bytes_allocated == 0
            &&& s.bytes_freed == 0
            &&& s.slab_hits == 0
            &&& s.buddy_calls == 0
            &&& s.oom == 0
            &&& s.class_hits.len() == 8
            &&& s.class_hits[i] == 0
        }),
{
}

} // verus!
