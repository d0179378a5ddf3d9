//! Exact figures of the heap and its parts.

use kalloc::buddy::BuddyAllocator;
use kalloc::heap::{Heap, Layout};
use kalloc::heap_allocator::{heap_stats, init_heap};
use kalloc::linked_list::FreeList;
use kalloc::memory::Memory;
use kalloc::slab::{SlabCache, SlabSet};
use kalloc::stats::AllocStats;

const BASE: usize = 0x10_0000;

fn region(size: usize) -> Memory {
    Memory::new(BASE, vec![0usize; size / 8])
}

fn heap_over(buf: &mut Memory) -> Heap {
    let mut heap = Heap::new();
    let (start, size) = (buf.base(), buf.size());
    heap.add_region(buf, start, size);
    heap
}

fn layout(size: usize, align: usize) -> Layout {
    Layout::from_size_align(size, align).unwrap()
}

#[test]
fn memory_reads_what_was_written() {
    let mut m = region(64);
    m.write(BASE + 8, 7);
    m.write(BASE + 16, 9);
    assert_eq!(m.read(BASE), 0);
    assert_eq!(m.read(BASE + 8), 7);
    assert_eq!(m.read(BASE + 16), 9);
    assert_eq!(m.base(), BASE);
    assert_eq!(m.size(), 64);
}

#[test]
fn free_list_is_last_in_first_out() {
    let mut m = region(256);
    let mut l = FreeList::new();
    assert!(l.is_empty());
    for i in 0..4 {
        l.push(&mut m, BASE + 64 * i);
    }
    assert_eq!(l.len(), 4);
    let mut it = l.iter();
    let mut seen = vec![];
    while let Some(p) = it.next(&m) {
        seen.push(p - BASE);
    }
    assert_eq!(seen, vec![192, 128, 64, 0]);
    assert!(l.remove(&mut m, BASE + 128));
    assert!(!l.remove(&mut m, BASE + 128));
    assert!(l.remove(&mut m, BASE + 192));
    assert_eq!(l.pop(&m), Some(BASE + 64));
    assert_eq!(l.pop(&m), Some(BASE));
    assert_eq!(l.pop(&m), None);
    assert!(FreeList::default().is_empty());
}

#[test]
fn region_is_cut_into_aligned_blocks() {
    let mut m = Memory::new(BASE + 8, vec![0usize; 32]);
    let mut a = BuddyAllocator::new();
    a.add_region(&mut m, BASE + 8, BASE + 8 + 256);
    // 64 bytes at +0x40 and 128 bytes at +0x80; the rest is too short.
    assert_eq!(a.total(), 192);
    assert_eq!(a.waste(), 64);
    assert_eq!(a.allocate(&mut m, 100, 1), Some(BASE + 0x80));
    assert_eq!(a.allocate(&mut m, 1, 1), Some(BASE + 0x40));
    assert_eq!(a.allocate(&mut m, 1, 1), None);
    assert_eq!(a.used(), 192);
}

#[test]
fn empty_and_tiny_regions_are_wasted() {
    let mut m = region(256);
    let mut a = BuddyAllocator::new();
    a.add_region(&mut m, BASE, BASE);
    a.add_region(&mut m, BASE + 8, BASE + 72);
    assert_eq!(a.total(), 0);
    assert_eq!(a.waste(), 64);
    assert_eq!(a.allocate(&mut m, 8, 8), None);
}

#[test]
fn block_is_split_from_its_low_end() {
    let mut m = region(1 << 16);
    let mut a = BuddyAllocator::new();
    a.add_region(&mut m, BASE, BASE + (1 << 16));
    let p = a.allocate(&mut m, 64, 8).unwrap();
    let q = a.allocate(&mut m, 64, 8).unwrap();
    let r = a.allocate(&mut m, 65, 8).unwrap();
    assert_eq!((p, q, r), (BASE, BASE + 64, BASE + 128));
    assert_eq!(a.used(), 64 + 64 + 128);
    // Freed in another order, the pieces become one block again.
    a.dealloc(&mut m, q, 64, 8);
    a.dealloc(&mut m, r, 65, 8);
    a.dealloc(&mut m, p, 64, 8);
    assert_eq!(a.allocate(&mut m, 1 << 16, 8), Some(BASE));
}

#[test]
fn alignment_forces_a_larger_block() {
    assert_eq!(BuddyAllocator::order_for(1, 1), 6);
    assert_eq!(BuddyAllocator::order_for(64, 64), 6);
    assert_eq!(BuddyAllocator::order_for(65, 1), 7);
    assert_eq!(BuddyAllocator::order_for(1, 4096), 12);
}

#[test]
fn merging_stops_at_the_edge_of_a_region() {
    // Two regions that are not buddies of anything outside them.
    let mut m = region(4096);
    let mut a = BuddyAllocator::new();
    a.add_region(&mut m, BASE + 64, BASE + 192);
    let p = a.allocate(&mut m, 64, 8).unwrap();
    let q = a.allocate(&mut m, 64, 8).unwrap();
    a.dealloc(&mut m, p, 64, 8);
    a.dealloc(&mut m, q, 64, 8);
    assert_eq!(a.allocate(&mut m, 128, 8), None);
    assert_eq!(a.total(), 128);
}

#[test]
fn slab_hands_out_ascending_addresses() {
    let mut m = region(1 << 16);
    let mut b = BuddyAllocator::new();
    b.add_region(&mut m, BASE, BASE + (1 << 16));
    let mut c = SlabCache::new(48);
    assert_eq!(c.obj_size(), 48);
    let p0 = c.allocate(&mut b, &mut m, 4096).unwrap();
    let p1 = c.allocate(&mut b, &mut m, 4096).unwrap();
    assert_eq!((p0, p1), (BASE, BASE + 48));
    assert_eq!(c.provisioned(), 85);
    assert_eq!(c.free_count(), 83);
    assert_eq!(b.used(), 4096);
    c.dealloc(&mut m, p0);
    assert_eq!(c.allocate(&mut b, &mut m, 4096), Some(p0));
}

#[test]
fn slab_refuses_when_buddy_does() {
    let mut m = region(4096);
    let mut b = BuddyAllocator::new();
    b.add_region(&mut m, BASE, BASE + 2048);
    let mut s = SlabSet::new();
    assert_eq!(s.allocate(0, &mut b, &mut m), None);
    assert_eq!(s.cache(0).provisioned(), 0);
    assert_eq!(s.cache(7).obj_size(), 1024);
}

#[test]
fn slab_set_counts_objects() {
    let mut m = region(1 << 16);
    let mut b = BuddyAllocator::new();
    b.add_region(&mut m, BASE, BASE + (1 << 16));
    let mut s = SlabSet::new();
    let p = s.allocate(7, &mut b, &mut m).unwrap();
    assert_eq!(p % 1024, 0);
    assert_eq!(s.cache(7).provisioned(), 8);
    assert_eq!(s.cache(7).free_count(), 7);
    s.dealloc(&mut m, 7, p);
    assert_eq!(s.cache(7).free_count(), 8);
    assert_eq!(SlabSet::class_for(0, 0), Some(0));
    assert_eq!(SlabSet::class_for(1, 2048), None);
    assert_eq!(SlabSet::class_for(513, 512), Some(7));
}

#[test]
fn layouts_are_checked() {
    assert!(Layout::from_size_align(8, 0).is_none());
    assert!(Layout::from_size_align(8, 3).is_none());
    assert!(Layout::from_size_align(isize::MAX as usize, 2).is_none());
    let l = Layout::from_size_align(isize::MAX as usize, 1).unwrap();
    assert_eq!((l.size(), l.align()), (isize::MAX as usize, 1));
}

#[test]
fn freed_object_is_reused_first() {
    let mut m = region(1 << 16);
    let mut h = heap_over(&mut m);
    let l = layout(24, 8);
    let p = h.allocate(&mut m, l).unwrap();
    let q = h.allocate(&mut m, l).unwrap();
    assert_eq!(q, p + 32);
    h.dealloc(&mut m, p, l);
    assert_eq!(h.allocate(&mut m, layout(32, 8)), Some(p));
}

#[test]
fn live_contents_survive_other_calls() {
    let mut m = region(1 << 20);
    let mut h = heap_over(&mut m);
    let big = layout(5000, 8);
    let p = h.allocate(&mut m, big).unwrap();
    for i in 0..625 {
        m.write(p + 8 * i, i * 3);
    }
    let mut others = vec![];
    for i in 0..200 {
        let l = layout(1 + i * 13, 8);
        others.push((h.allocate(&mut m, l).unwrap(), l));
    }
    for (q, l) in others {
        h.dealloc(&mut m, q, l);
    }
    for i in 0..625 {
        assert_eq!(m.read(p + 8 * i), i * 3);
    }
}

#[test]
fn live_allocations_do_not_overlap() {
    let mut m = region(1 << 18);
    let mut h = heap_over(&mut m);
    let mut spans = vec![];
    for i in 0..120 {
        let l = layout(1 + (i * 37) % 1500, 1 << (i % 8));
        let p = h.allocate(&mut m, l).unwrap();
        assert_eq!(p % l.align(), 0);
        spans.push((p, p + l.size()));
    }
    spans.sort();
    for w in spans.windows(2) {
        assert!(w[0].1 <= w[1].0);
    }
}

#[test]
fn statistics_count_requests() {
    let mut m = region(1 << 16);
    let mut h = heap_over(&mut m);
    let small = layout(0, 1);
    let p = h.allocate(&mut m, small).unwrap();
    let large = layout(2000, 8);
    let q = h.allocate(&mut m, large).unwrap();
    assert_eq!(h.allocate(&mut m, layout(1 << 20, 8)), None);
    h.dealloc(&mut m, p, small);
    h.dealloc(&mut m, q, large);
    let st = h.stats();
    assert_eq!((st.allocs(), st.frees(), st.oom()), (2, 2, 1));
    assert_eq!((st.bytes_allocated(), st.bytes_freed()), (2001, 2001));
    assert_eq!((st.slab_hits(), st.buddy_calls()), (1, 2));
    assert_eq!(st.class_hits, [1, 0, 0, 0, 0, 0, 0, 0]);
}

#[test]
fn statistics_add_up_over_many_requests() {
    let mut m = region(1 << 16);
    let mut h = heap_over(&mut m);
    let (mut small, mut served, mut refused, mut total) = (0, 0, 0, 0);
    for i in 0..300 {
        let l = layout((i * 67) % 3000, 1 << (i % 12));
        if l.size() <= 1024 && l.align() <= 1024 {
            small += 1;
        }
        match h.allocate(&mut m, l) {
            Some(_) => {
                served += 1;
                total += l.size().max(1) as u64;
            }
            None => refused += 1,
        }
    }
    assert!(served > 0 && refused > 0);
    let st = h.stats();
    assert_eq!((st.slab_hits(), st.slab_hits() + st.buddy_calls()), (small, 300));
    assert_eq!((st.allocs(), st.oom(), st.bytes_allocated()), (served, refused, total));
    let by_class: u64 = (0..8).map(|i| st.class_hits_of(i)).sum();
    assert_eq!(by_class, small);
}

#[test]
fn snapshot_figures_are_ordered() {
    let mut m = region(1 << 17);
    let mut h = heap_over(&mut m);
    let mut direct = vec![];
    for i in 0..40 {
        let l = layout(1 + i * 97, 8);
        let p = h.allocate(&mut m, l).unwrap();
        if l.size() > 1024 {
            direct.push((p, l));
        }
        let s = h.snapshot(&m);
        assert!(s.slab_free <= s.slab_provisioned);
        assert!(s.slab_provisioned <= s.buddy_used && s.buddy_used <= s.buddy_total);
        assert_eq!(s.slab_provisioned % 4096, 0);
        let granted: usize = direct.iter().map(|(_, l)| l.size().next_power_of_two()).sum();
        assert_eq!(s.buddy_used - s.slab_provisioned, granted);
    }
    assert_eq!(h.snapshot(&m), h.snapshot(&m));
}

#[test]
fn large_request_is_served_once_neighbours_are_merged() {
    let mut m = region(1 << 16);
    let mut h = heap_over(&mut m);
    let l = layout(4096, 8);
    let got: Vec<usize> = (0..16).map(|_| h.allocate(&mut m, l).unwrap()).collect();
    assert_eq!(h.allocate(&mut m, l), None);
    for p in got {
        h.dealloc(&mut m, p, l);
    }
    assert_eq!(h.allocate(&mut m, layout(1 << 16, 8)), Some(BASE));
}

#[test]
fn snapshot_adds_up() {
    let mut m = region(1 << 16);
    let mut h = heap_over(&mut m);
    h.allocate(&mut m, layout(8, 8)).unwrap();
    h.allocate(&mut m, layout(1000, 8)).unwrap();
    h.allocate(&mut m, layout(3000, 8)).unwrap();
    let s = h.snapshot(&m);
    assert_eq!(s.buddy_total, 1 << 16);
    assert_eq!(s.buddy_used, 4096 + 8192 + 4096);
    assert_eq!(s.buddy_waste, 0);
    assert_eq!(s.slab_provisioned, 4096 + 8192);
    assert_eq!(s.slab_free, 4096 - 8 + 8192 - 1024);
}

#[test]
fn counters_record_single_events() {
    let mut st = AllocStats::new();
    st.record_alloc(10);
    st.record_free(4);
    st.record_slab(3);
    st.record_buddy();
    st.record_oom();
    assert_eq!((st.allocs(), st.bytes_allocated()), (1, 10));
    assert_eq!((st.frees(), st.bytes_freed()), (1, 4));
    assert_eq!((st.slab_hits(), st.buddy_calls(), st.oom()), (1, 1, 1));
    assert_eq!(st.class_hits[3], 1);
}

#[test]
fn kernel_heap_is_sixteen_mebibytes() {
    let mut m = region(0x100_0000);
    let mut h = Heap::new();
    init_heap(&mut h, &mut m, BASE);
    // A boxed number and a growing vector.
    let boxed = h.allocate(&mut m, layout(4, 4)).unwrap();
    m.write(boxed, 5);
    let mut cap = 4;
    let mut v = h.allocate(&mut m, layout(8 * cap, 8)).unwrap();
    for i in 0..500 {
        if i == cap {
            let bigger = h.allocate(&mut m, layout(16 * cap, 8)).unwrap();
            for k in 0..cap {
                let x = m.read(v + 8 * k);
                m.write(bigger + 8 * k, x);
            }
            h.dealloc(&mut m, v, layout(8 * cap, 8));
            v = bigger;
            cap *= 2;
        }
        m.write(v + 8 * i, i);
    }
    for i in 0..500 {
        assert_eq!(m.read(v + 8 * i), i);
    }
    assert_eq!(m.read(boxed), 5);
    assert!(BASE <= v && v < BASE + 0x100_0000);
    let (snap, st) = heap_stats(&h, &m);
    assert_eq!(snap.buddy_total, 0x100_0000);
    assert_eq!(st.allocs(), 1 + 8);
    assert_eq!(st.frees(), 7);
}

#[test]
fn heap_test() {
    let mut m = region(1 << 16);
    let mut h = heap_over(&mut m);
    let space = BASE..BASE + (1 << 16);
    let one = layout(4, 4);
    let a = h.allocate(&mut m, one).unwrap();
    m.write(a, 5);
    assert_eq!(m.read(a), 5);
    assert!(space.contains(&a));
    h.dealloc(&mut m, a, one);
    // A row of 500 numbers that doubles whenever it is full.
    let row = |cap: usize| layout(8 * cap, 8);
    let mut cap = 4;
    let mut v = h.allocate(&mut m, row(cap)).unwrap();
    for i in 0..500 {
        if i == cap {
            let w = h.allocate(&mut m, row(2 * cap)).unwrap();
            for k in 0..cap {
                let x = m.read(v + 8 * k);
                m.write(w + 8 * k, x);
            }
            h.dealloc(&mut m, v, row(cap));
            v = w;
            cap = 2 * cap;
        }
        m.write(v + 8 * i, i);
    }
    for i in 0..500 {
        assert_eq!(m.read(v + 8 * i), i);
    }
    assert!(space.contains(&v));
    h.dealloc(&mut m, v, row(cap));
    let s = h.snapshot(&m);
    assert_eq!(s.buddy_used, s.slab_provisioned);
}
