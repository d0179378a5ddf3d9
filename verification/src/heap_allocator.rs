//! The kernel's own heap.

use crate::buddy;
use crate::config::KERNEL_HEAP_SIZE;
use crate::heap;
use crate::heap::{Heap, HeapSnapshot, HeapView};
use crate::memory::Memory;
use crate::stats::AllocStats;
use vstd::prelude::*;

verus! {

/// Gives the kernel heap its memory, which starts at `space`.
pub fn init_heap(heap: &mut Heap, mem: &mut Memory, space: usize)
    requires
        old(heap).wf(old(mem)),
        old(mem).spans(space as int, space + KERNEL_HEAP_SIZE),
        forall|x: int|
            space <= x < space + KERNEL_HEAP_SIZE ==> !#[trigger] old(
                heap,
            )@.buddy.regions.contains(x),
    ensures
        final(heap).wf(final(mem)),
        final(heap)@ == (HeapView {
            buddy: buddy::after_add(old(heap)@.buddy, space as int, space + KERNEL_HEAP_SIZE),
            ..old(heap)@
        }),
        final(mem).same_outside(old(mem), |a: int| space <= a < space + KERNEL_HEAP_SIZE),
{
    heap.add_region(mem, space, KERNEL_HEAP_SIZE);
}

/// The state of the kernel heap for a debug shell or a panic dump.
pub fn heap_stats<'a>(heap: &'a Heap, mem: &Memory) -> (r: (HeapSnapshot, &'a AllocStats))
    requires
        heap.wf(mem),
    ensures
        r.0.buddy_total == heap@.buddy.total,
        r.0.buddy_used == heap@.buddy.used,
        r.0.buddy_waste == heap@.buddy.waste,
        r.0.slab_provisioned == heap::provisioned_bytes(heap@.slabs, heap@.slabs.len() as int),
        r.0.slab_free == heap::free_bytes(heap@.slabs, heap@.slabs.len() as int),
        r.1@ == heap@.stats,
{
    (heap.snapshot(mem), heap.stats())
}

} // verus!
