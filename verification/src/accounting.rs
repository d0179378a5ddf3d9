//! What the statistics of a heap say about everything it was asked for.

use crate::buddy;
use crate::heap;
use crate::heap::{HeapView, Layout, SLAB_THRESHOLD};
use crate::stats::{StatsView, CLASSES};
use vstd::prelude::*;

verus! {

/// A call of a heap.
pub enum Call {
    /// Memory was added.
    Region { start: int, end: int },
    /// Something was asked for.
    Alloc(Layout),
    /// Something was given back.
    Free(Layout, usize),
}

/// The heap after a call.
pub open spec fn after_call(h: HeapView, call: Call) -> HeapView {
    match call {
        Call::Region { start, end } => HeapView {
            buddy: buddy::after_add(h.buddy, start, end),
            ..h
        },
        Call::Alloc(l) => h.after_alloc(l),
        Call::Free(l, p) => h.after_dealloc(l, p),
    }
}

/// The heap after the first `k` calls.
pub open spec fn history(h: HeapView, calls: Seq<Call>, k: int) -> HeapView
    decreases k,
{
    if k <= 0 {
        h
    } else {
        after_call(history(h, calls, k - 1), calls[k - 1])
    }
}

/// What happened, counted.
#[verifier::ext_equal]
pub struct Tally {
    /// Requests.
    pub requests: int,
    /// Requests that are small enough for the slab caches.
    pub small: int,
    /// Requests that are not.
    pub large: int,
    /// Requests that each slab class was in charge of.
    pub by_class: Seq<int>,
    /// Requests that were served, and their bytes.
    pub served: int,
    pub bytes: int,
    /// Requests that were not.
    pub refused: int,
    /// What was given back, and its bytes.
    pub frees: int,
    pub freed_bytes: int,
}

impl Tally {
    pub open spec fn zero() -> Tally {
        Tally {
            requests: 0,
            small: 0,
            large: 0,
            by_class: Seq::new(CLASSES as nat, |i: int| 0int),
            served: 0,
            bytes: 0,
            refused: 0,
            frees: 0,
            freed_bytes: 0,
        }
    }

    /// With one more call, of the heap `h`.
    pub open spec fn with(self, h: HeapView, call: Call) -> Tally {
        match call {
            Call::Region { start, end } => self,
            Call::Alloc(l) => {
                let small = l.size <= SLAB_THRESHOLD && l.align <= SLAB_THRESHOLD;
                let served = h.served(l) is Some;
                Tally {
                    requests: self.requests + 1,
                    small: self.small + one_if(small),
                    large: self.large + one_if(!small),
                    by_class: match l.class() {
                        Some(i) => self.by_class.update(i, self.by_class[i] + 1),
                        None => self.by_class,
                    },
                    served: self.served + one_if(served),
                    bytes: self.bytes + if served {
                        l.want()
                    } else {
                        0
                    },
                    refused: self.refused + one_if(!served),
                    ..self
                }
            },
            Call::Free(l, p) => Tally {
                frees: self.frees + 1,
                freed_bytes: self.freed_bytes + l.want(),
                ..self
            },
        }
    }

    /// No count is more than a counter can hold.
    pub open spec fn fits(self) -> bool {
        &&& self.requests <= u64::MAX
        &&& self.bytes <= u64::MAX
        &&& self.frees <= u64::MAX
        &&& self.freed_bytes <= u64::MAX
    }

    /// The statistics show these counts.
    pub open spec fn shown_by(self, s: StatsView) -> bool {
        &&& s.slab_hits == self.small
        &&& s.buddy_calls == self.large
        &&& s.class_hits.len() == CLASSES
        &&& self.by_class.len() == CLASSES
        &&& forall|i: int| 0 <= i < CLASSES ==> (#[trigger] s.class_hits[i]) == self.by_class[i]
        &&& s.allocs == self.served
        &&& s.bytes_allocated == self.bytes
        &&& s.oom == self.refused
        &&& s.frees == self.frees
        &&& s.bytes_freed == self.freed_bytes
    }

    spec fn adds_up(self) -> bool {
        &&& 0 <= self.small
        &&& 0 <= self.large
        &&& 0 <= self.served
        &&& 0 <= self.refused
        &&& 0 <= self.bytes
        &&& 0 <= self.frees
        &&& 0 <= self.freed_bytes
        &&& self.small + self.large == self.requests
        &&& self.served + self.refused == self.requests
        &&& self.by_class.len() == CLASSES
        &&& forall|i: int| 0 <= i < CLASSES ==> 0 <= (#[trigger] self.by_class[i]) <= self.small
        &&& total(self.by_class) == self.small
    }
}

pub open spec fn one_if(b: bool) -> int {
    if b {
        1
    } else {
        0
    }
}

/// The sum over the slab classes.
pub open spec fn total(by_class: Seq<int>) -> int {
    by_class[0] + by_class[1] + by_class[2] + by_class[3] + by_class[4] + by_class[5] + by_class[6]
        + by_class[7]
}

/// The first `k` calls, counted.
pub open spec fn tally(h: HeapView, calls: Seq<Call>, k: int) -> Tally
    decreases k,
{
    if k <= 0 {
        Tally::zero()
    } else {
        tally(h, calls, k - 1).with(history(h, calls, k - 1), calls[k - 1])
    }
}

proof fn lemma_tally(h: HeapView, calls: Seq<Call>, k: int)
    requires
        0 <= k <= calls.len(),
    ensures
        tally(h, calls, k).adds_up(),
    decreases k,
{
    if k > 0 {
        lemma_tally(h, calls, k - 1);
        let t = tally(h, calls, k - 1);
        match calls[k - 1] {
            Call::Alloc(l) => {
                heap::lemma_class(l);
                if l.class() is Some {
                    let i = l.class().unwrap();
                    assert(i == 0 || i == 1 || i == 2 || i == 3 || i == 4 || i == 5 || i == 6 || i
                        == 7);
                    assert(total(t.by_class.update(i, t.by_class[i] + 1)) == total(t.by_class)
                        + 1);
                }
            },
            _ => {},
        }
    }
}

/// As long as no counter wraps, the statistics of a heap are the counts of
/// everything it was asked for: each request counts once as slab or buddy, by
/// its size and alignment, once for its class if it has one, and once as
/// served, with its bytes, or as refused.
pub proof fn law_statistics(h: HeapView, calls: Seq<Call>, k: int)
    requires
        h.stats == StatsView::zero(),
        h.slabs.len() == CLASSES,
        0 <= k <= calls.len(),
        tally(h, calls, k).fits(),
    ensures
        ({
            let t = tally(h, calls, k);
            let s = history(h, calls, k).stats;
            &&& t.shown_by(s)
            &&& s.slab_hits + s.buddy_calls == t.requests
            &&& s.allocs + s.oom == t.requests
            &&& s.slab_hits == s.class_hits[0] + s.class_hits[1] + s.class_hits[2]
                + s.class_hits[3] + s.class_hits[4] + s.class_hits[5] + s.class_hits[6]
                + s.class_hits[7]
        }),
    decreases k,
{
    lemma_tally(h, calls, k);
    if k > 0 {
        lemma_tally(h, calls, k - 1);
        let t = tally(h, calls, k - 1);
        let g = history(h, calls, k - 1);
        law_statistics(h, calls, k - 1);
        match calls[k - 1] {
            Call::Alloc(l) => {
                heap::lemma_class(l);
                if l.class() is Some {
                    let i = l.class().unwrap();
                    assert(0 <= i < CLASSES);
                    assert(t.by_class[i] <= t.small);
                    assert(g.stats.class_hits[i] == t.by_class[i]);
                }
            },
            _ => {},
        }
    }
}

} // verus!
