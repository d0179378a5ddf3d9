//! The heap allocator, from outside.

use kalloc::buddy::BuddyAllocator;
use kalloc::heap::{Heap, Layout};
use kalloc::memory::Memory;
use kalloc::slab::{SlabSet, CLASS_SIZES};

const BASE: usize = 0x10_0000;

fn region(size: usize) -> Memory {
    Memory::new(BASE, vec![0usize; size / 8])
}

fn layout(size: usize, align: usize) -> Layout {
    Layout::from_size_align(size, align).unwrap()
}

#[test]
fn buddy_basic_alloc_free() {
    let mut buf = region(1 << 20);
    let mut a = BuddyAllocator::new();
    let (start, end) = (buf.base(), buf.base() + buf.size());
    a.add_region(&mut buf, start, end);
    let p = a.allocate(&mut buf, 64, 8).unwrap();
    assert_eq!(a.used(), 64);
    a.dealloc(&mut buf, p, 64, 8);
    assert_eq!(a.used(), 0);
}

#[test]
fn buddy_coalesces_buddies() {
    let mut buf = region(1 << 20);
    let mut a = BuddyAllocator::new();
    let (start, end) = (buf.base(), buf.base() + buf.size());
    a.add_region(&mut buf, start, end);
    let total = a.total();
    let mut ptrs = vec![];
    for _ in 0..16 {
        ptrs.push(a.allocate(&mut buf, 64, 8).unwrap());
    }
    for p in ptrs {
        a.dealloc(&mut buf, p, 64, 8);
    }
    // After freeing in any order the allocator should not have leaked.
    assert_eq!(a.used(), 0);
    assert_eq!(a.total(), total);
    // We should be able to satisfy a large allocation again, proving that
    // small frees coalesced back up to a big block.
    let big = a.allocate(&mut buf, 1 << 19, 8).unwrap();
    a.dealloc(&mut buf, big, 1 << 19, 8);
}

#[test]
fn slab_class_routing() {
    assert_eq!(SlabSet::class_for(1, 1), Some(0)); // -> 8
    assert_eq!(SlabSet::class_for(8, 8), Some(0));
    assert_eq!(SlabSet::class_for(9, 1), Some(1)); // -> 16
    assert_eq!(SlabSet::class_for(1024, 8), Some(7));
    assert_eq!(SlabSet::class_for(1025, 8), None);
    // Alignment may force a larger class.
    assert_eq!(SlabSet::class_for(8, 16), Some(1));
}

#[test]
fn heap_round_trip_many_layouts() {
    let mut buf = region(4 * 1024 * 1024);
    let mut heap = Heap::new();
    let (start, size) = (buf.base(), buf.size());
    heap.add_region(&mut buf, start, size);
    let layouts = [
        layout(1, 1),
        layout(7, 1),
        layout(64, 8),
        layout(200, 16),
        layout(1024, 8),
        layout(4096, 4096),
        layout(65536, 8),
    ];
    let mut allocs = vec![];
    for l in &layouts {
        let p = heap.allocate(&mut buf, *l).expect("alloc failed");
        // Touch the memory to ensure it's writable.
        for a in (p..p + l.size()).step_by(8) {
            buf.write(a, 0xABAB_ABAB);
        }
        allocs.push((p, *l));
    }
    for (p, l) in &allocs {
        for a in (*p..*p + l.size()).step_by(8) {
            assert_eq!(buf.read(a), 0xABAB_ABAB);
        }
    }
    for (p, l) in allocs {
        heap.dealloc(&mut buf, p, l);
    }
    let s = heap.snapshot(&buf);
    // Every block went back but for the slabs, which stay cached.
    assert_eq!(s.buddy_used, s.slab_provisioned);
    assert_eq!(s.slab_free, s.slab_provisioned);
}

#[test]
fn slab_hit_rate_dominates_for_small_allocs() {
    let mut buf = region(4 * 1024 * 1024);
    let mut heap = Heap::new();
    let (start, size) = (buf.base(), buf.size());
    heap.add_region(&mut buf, start, size);
    for _ in 0..10_000 {
        let l = layout(48, 8);
        let p = heap.allocate(&mut buf, l).unwrap();
        heap.dealloc(&mut buf, p, l);
    }
    // 10000 allocs, only the first one (and refills) hit buddy.
    let st = heap.stats();
    let routed = st.slab_hits() + st.buddy_calls();
    assert!(st.slab_hits() as f64 * 100.0 / routed as f64 > 99.0);
    assert!(st.buddy_calls() < 10);
}

#[test]
fn class_sizes_are_monotonic_powers_of_two() {
    for w in CLASS_SIZES.windows(2) {
        assert!(w[1] == w[0] * 2);
    }
}

#[test]
fn alignment_is_respected() {
    let mut buf = region(1 << 20);
    let mut heap = Heap::new();
    let (start, size) = (buf.base(), buf.size());
    heap.add_region(&mut buf, start, size);
    for align_log2 in 0..12 {
        let align = 1usize << align_log2;
        let l = layout(64, align);
        let p = heap.allocate(&mut buf, l).expect("alloc");
        assert_eq!(p & (align - 1), 0, "align={align}");
        heap.dealloc(&mut buf, p, l);
    }
}
