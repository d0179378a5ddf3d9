//! Physical page frames of the kernel.

use crate::config::PAGE_SIZE;
use crate::frame_allocator;
use crate::frame_allocator::{FrameView, PhysPageNum};
use crate::frame_hybrid;
use crate::frame_hybrid::{HybridFrameAllocator, HybridView};
use crate::frame_model;
use crate::memory::{Memory, WORD};
use vstd::prelude::*;

verus! {

/// A physical address.
#[derive(Debug, Clone, Copy, PartialEq, Eq, Structural)]
pub struct PhysAddr(pub usize);

pub open spec fn page_floor(a: int) -> int {
    a / PAGE_SIZE as int
}

pub open spec fn page_ceil(a: int) -> int {
    (a + PAGE_SIZE - 1) / PAGE_SIZE as int
}

impl PhysAddr {
    /// The page that the address lies in.
    pub fn floor(&self) -> (r: PhysPageNum)
        ensures
            r.0 == page_floor(self.0 as int),
    {
        PhysPageNum(self.0 / PAGE_SIZE)
    }

    /// The first page that starts at the address or after it.
    pub fn ceil(&self) -> (r: PhysPageNum)
        ensures
            r.0 == page_ceil(self.0 as int),
    {
        if self.0 == 0 {
            PhysPageNum(0)
        } else {
            PhysPageNum((self.0 - 1) / PAGE_SIZE + 1)
        }
    }
}

/// The address lies in page `p`.
pub open spec fn in_page(p: PhysPageNum, a: int) -> bool {
    p.0 * PAGE_SIZE <= a < p.0 * PAGE_SIZE + PAGE_SIZE
}

/// Page `p` is memory.
pub open spec fn page_mapped(mem: &Memory, p: int) -> bool {
    mem.spans(p * PAGE_SIZE, p * PAGE_SIZE + PAGE_SIZE)
}

/// All words of page `p` are zero.
pub open spec fn page_clean(mem: &Memory, p: PhysPageNum) -> bool {
    forall|a: int| mem.mapped(a) && in_page(p, a) ==> #[trigger] mem.word(a) == 0
}

/// A frame that is in use. Whoever drops it gives the page back.
pub struct FrameTracker {
    pub ppn: PhysPageNum,
}

impl FrameTracker {
    /// Starts the use of a page: it is wiped first.
    pub fn new(ppn: PhysPageNum, mem: &mut Memory) -> (r: FrameTracker)
        requires
            old(mem).wf(),
            page_mapped(old(mem), ppn.0 as int),
        ensures
            r.ppn == ppn,
            final(mem).wf(),
            page_clean(final(mem), ppn),
            final(mem).same_outside(old(mem), |a: int| in_page(ppn, a)),
    {
        let start: usize = ppn.0 * PAGE_SIZE;
        let mut off: usize = 0;
        while off < PAGE_SIZE
            invariant
                off <= PAGE_SIZE,
                off % WORD == 0,
                start == ppn.0 * PAGE_SIZE,
                mem.wf(),
                page_mapped(mem, ppn.0 as int),
                forall|a: int|
                    mem.mapped(a) && start <= a < start + off ==> #[trigger] mem.word(a) == 0,
                mem.same_outside(old(mem), |a: int| in_page(ppn, a)),
            decreases PAGE_SIZE - off,
        {
            let ghost was = *mem;
            mem.write(start + off, 0);
            proof {
                assert forall|a: int|
                    mem.mapped(a) && start <= a < start + off + WORD implies #[trigger] mem.word(a)
                    == 0 by {
                    if a != start + off {
                        assert(a < start + off);
                        assert(was.mapped(a));
                        assert(was.word(a) == 0);
                    }
                }
                assert forall|a: int| mem.mapped(a) && !in_page(ppn, a) implies #[trigger] mem.word(
                    a,
                ) == old(mem).word(a) by {
                    assert(was.mapped(a));
                    assert(was.word(a) == old(mem).word(a));
                }
            }
            off = off + WORD;
        }
        FrameTracker { ppn }
    }
}

/// Every free page is memory.
pub open spec fn frames_mapped(h: HybridView, mem: &Memory) -> bool {
    forall|x: int| #[trigger] h.is_free(x) ==> page_mapped(mem, x)
}

/// Hands the pages between the end of the kernel and the end of memory to the
/// allocator.
pub fn init_frame_allocator(fa: &mut HybridFrameAllocator, ekernel: PhysAddr, memory_end: PhysAddr)
    requires
        old(fa).wf(),
        page_ceil(ekernel.0 as int) <= page_floor(memory_end.0 as int),
        forall|x: int|
            page_ceil(ekernel.0 as int) <= x < page_floor(memory_end.0 as int) ==> !#[trigger] old(
                fa,
            )@.is_free(x),
    ensures
        final(fa).wf(),
        final(fa)@ == inited(
            old(fa)@,
            page_ceil(ekernel.0 as int),
            page_floor(memory_end.0 as int),
        ),
{
    fa.init(ekernel.ceil(), memory_end.floor());
}

/// The allocator after `[l, r)` has become its arena.
pub open spec fn inited(h: HybridView, l: int, r: int) -> HybridView {
    HybridView {
        cache: h.cache,
        backing: FrameView {
            blocks: frame_model::given(h.backing.blocks, l, r),
            base: l,
            end: r,
        },
    }
}

/// One wiped frame.
pub fn frame_alloc(fa: &mut HybridFrameAllocator, mem: &mut Memory) -> (r: Option<FrameTracker>)
    requires
        old(fa).wf(),
        old(mem).wf(),
        frames_mapped(old(fa)@, old(mem)),
    ensures
        final(fa).wf(),
        final(mem).wf(),
        frames_mapped(final(fa)@, final(mem)),
        final(fa)@ == old(fa)@.after_alloc(),
        match r {
            Some(t) => {
                &&& old(fa)@.next() == Some(t.ppn.0)
                &&& page_clean(final(mem), t.ppn)
                &&& final(mem).same_outside(old(mem), |a: int| in_page(t.ppn, a))
            },
            None => old(fa)@.next() is None && *final(mem) == *old(mem),
        },
{
    proof {
        frame_hybrid::lemma_after_alloc(fa@);
    }
    match fa.allocate() {
        Some(p) => {
            proof {
                assert(old(fa)@.is_free(p.0 as int));
            }
            let t = FrameTracker::new(p, mem);
            proof {
                assert forall|x: int| #[trigger] fa@.is_free(x) implies page_mapped(mem, x) by {
                    assert(old(fa)@.is_free(x));
                }
            }
            Some(t)
        },
        None => None,
    }
}

/// `num` contiguous wiped frames, in decreasing order.
pub fn frame_alloc_more(fa: &mut HybridFrameAllocator, mem: &mut Memory, num: usize) -> (r: Option<
    Vec<FrameTracker>,
>)
    requires
        old(fa).wf(),
        old(mem).wf(),
        frames_mapped(old(fa)@, old(mem)),
    ensures
        final(fa).wf(),
        final(mem).wf(),
        frames_mapped(final(fa)@, final(mem)),
        ({
            let h = old(fa)@.readied(num as int);
            let s = h.backing.blocks;
            let o = frame_model::order_of(num as int);
            let a = frame_model::grant(s, o).addr;
            match r {
                Some(v) => if num == 0 {
                    &&& v@.len() == 0
                    &&& final(fa)@ == h
                    &&& *final(mem) == *old(mem)
                } else {
                    &&& frame_model::can_take(s, o)
                    &&& final(fa)@ == (HybridView {
                        cache: h.cache,
                        backing: h.backing.with_blocks(frame_model::taken_run(s, num as int)),
                    })
                    &&& v@.len() == num
                    &&& forall|i: int|
                        0 <= i < num ==> (#[trigger] v@[i]).ppn == frame_allocator::run_down(
                            a,
                            num as int,
                        )[i] && page_clean(final(mem), v@[i].ppn)
                    &&& final(mem).same_outside(
                        old(mem),
                        |x: int| a * PAGE_SIZE <= x < (a + num) * PAGE_SIZE,
                    )
                },
                None => {
                    &&& num > 0
                    &&& !frame_model::can_take(s, o)
                    &&& final(fa)@ == h
                    &&& *final(mem) == *old(mem)
                },
            }
        }),
{
    let ghost f = fa@;
    let ghost h = f.readied(num as int);
    let ghost s = h.backing.blocks;
    let ghost o = frame_model::order_of(num as int);
    let ghost a = frame_model::grant(s, o).addr;
    proof {
        frame_hybrid::lemma_drained(f, f.cache.len() as int);
        if num > 0 && frame_model::can_take(s, o) {
            frame_hybrid::lemma_run_taken(h, num as int);
            frame_model::lemma_taken_run(s, num as int);
        }
    }
    let v = match fa.alloc_more(num) {
        Some(v) => v,
        None => {
            proof {
                assert forall|x: int| #[trigger] fa@.is_free(x) implies page_mapped(mem, x) by {
                    assert(f.is_free(x));
                }
            }
            return None;
        },
    };
    proof {
        assert forall|x: int| #[trigger] fa@.is_free(x) implies page_mapped(mem, x) by {
            assert(h.is_free(x));
            assert(f.is_free(x));
        }
        assert forall|i: int| 0 <= i < num implies page_mapped(
            mem,
            (#[trigger] v@[i]).0 as int,
        ) && v@[i].0 == a + num - 1 - i by {
            assert(h.is_free(a + num - 1 - i));
            assert(f.is_free(a + num - 1 - i));
        }
    }
    let mut out: Vec<FrameTracker> = Vec::new();
    let mut i: usize = 0;
    while i < v.len()
        invariant
            i <= v@.len(),
            v@.len() == num,
            mem.wf(),
            mem.same_place(old(mem)),
            frames_mapped(fa@, mem),
            fa.wf(),
            out@.len() == i,
            num > 0 ==> 0 <= a,
            forall|k: int|
                0 <= k < num ==> page_mapped(mem, (#[trigger] v@[k]).0 as int) && v@[k].0 == a + num
                    - 1 - k,
            forall|k: int|
                0 <= k < i ==> (#[trigger] out@[k]).ppn == v@[k] && page_clean(mem, out@[k].ppn),
            mem.same_outside(old(mem), |x: int| a * PAGE_SIZE <= x < (a + num) * PAGE_SIZE),
            i == 0 ==> *mem == *old(mem),
        decreases v@.len() - i,
    {
        let ghost was = *mem;
        let p = v[i];
        let t = FrameTracker::new(p, mem);
        proof {
            assert forall|k: int| 0 <= k < i implies page_clean(mem, (#[trigger] out@[k]).ppn) by {
                let q = out@[k].ppn;
                assert(q.0 == a + num - 1 - k);
                assert(p.0 == a + num - 1 - i);
                assert forall|x: int| mem.mapped(x) && in_page(q, x) implies #[trigger] mem.word(x)
                    == 0 by {
                    assert(!in_page(p, x));
                    assert(was.mapped(x));
                    assert(mem.word(x) == was.word(x));
                }
            }
            assert forall|x: int|
                mem.mapped(x) && !(a * PAGE_SIZE <= x < (a + num)
                    * PAGE_SIZE) implies #[trigger] mem.word(x) == old(mem).word(x) by {
                assert(p.0 == a + num - 1 - i);
                assert(!in_page(p, x));
                assert(was.mapped(x));
                assert(mem.word(x) == was.word(x));
            }
            assert forall|x: int| #[trigger] fa@.is_free(x) implies page_mapped(mem, x) by {}
        }
        out.push(t);
        i = i + 1;
    }
    Some(out)
}

/// Gives a frame back.
pub fn frame_dealloc(fa: &mut HybridFrameAllocator, ppn: PhysPageNum)
    requires
        old(fa).wf(),
        ppn.0 < usize::MAX,
        !old(fa)@.is_free(ppn.0 as int),
    ensures
        final(fa).wf(),
        final(fa)@ == old(fa)@.after_dealloc(ppn.0),
{
    fa.dealloc(ppn);
}

} // verus!
