//! The frame allocators.

use kalloc::frame_allocator::{ceil_log2, BuddyFrameAllocator, PhysPageNum};
use kalloc::frame_bench::{
    build, give_pages, mixed_churn, per_op, run_after_churn, take_pages, TierKind, ARENA,
    CHURN_ROUNDS, WORKING_SET,
};
use kalloc::frame_hybrid::HybridFrameAllocator;
use kalloc::frame_tier::{LegacyStackFrameAllocator, Tier};
use kalloc::frames::{
    frame_alloc, frame_alloc_more, frame_dealloc, init_frame_allocator, FrameTracker, PhysAddr,
};
use kalloc::memory::Memory;

const PAGE: usize = 4096;

fn numbers(v: &[PhysPageNum]) -> Vec<usize> {
    v.iter().map(|p| p.0).collect()
}

fn buddy_over(l: usize, r: usize) -> BuddyFrameAllocator {
    let mut a = BuddyFrameAllocator::new();
    a.init(PhysPageNum(l), PhysPageNum(r));
    a
}

fn hybrid_over(l: usize, r: usize) -> HybridFrameAllocator {
    let mut a = HybridFrameAllocator::new();
    a.init(PhysPageNum(l), PhysPageNum(r));
    a
}

#[test]
fn logarithm_is_rounded_up() {
    let want = [0, 0, 1, 2, 2, 3, 3, 3, 3, 4];
    for n in 0..10 {
        assert_eq!(ceil_log2(n), want[n]);
    }
    assert_eq!(ceil_log2(256), 8);
    assert_eq!(ceil_log2(257), 9);
}

#[test]
fn buddy_takes_the_smallest_then_lowest_block() {
    // Pages 5..24 are cut into 5, 6..8, 8..16, 16..24.
    let mut a = buddy_over(5, 24);
    assert_eq!(a.allocate(), Some(PhysPageNum(5)));
    assert_eq!(a.allocate(), Some(PhysPageNum(6)));
    assert_eq!(a.allocate(), Some(PhysPageNum(7)));
    assert_eq!(a.allocate(), Some(PhysPageNum(8)));
    let run = a.alloc_more(8).unwrap();
    assert_eq!(numbers(&run), vec![23, 22, 21, 20, 19, 18, 17, 16]);
    assert!(a.alloc_more(8).is_none());
}

#[test]
fn run_leaves_its_tail_free() {
    let mut a = buddy_over(0, 8);
    let run = a.alloc_more(5).unwrap();
    assert_eq!(numbers(&run), vec![4, 3, 2, 1, 0]);
    assert_eq!(a.allocate(), Some(PhysPageNum(5)));
    assert_eq!(numbers(&a.alloc_more(2).unwrap()), vec![7, 6]);
    assert!(a.allocate().is_none());
    assert_eq!(a.alloc_more(0).unwrap().len(), 0);
}

#[test]
fn run_is_whole_again_once_given_back() {
    let mut a = buddy_over(64, 128);
    let run = a.alloc_more(37).unwrap();
    for p in [3, 36, 0, 1, 2].iter().map(|i| run[*i]) {
        a.dealloc(p);
    }
    for (i, p) in run.iter().enumerate() {
        if ![0, 1, 2, 3, 36].contains(&i) {
            a.dealloc(*p);
        }
    }
    assert_eq!(a.alloc_more(64).unwrap().last(), Some(&PhysPageNum(64)));
}

#[test]
fn hybrid_caches_a_block_of_sixteen() {
    let mut a = hybrid_over(256, 512);
    let first: Vec<usize> = (0..5).map(|_| a.allocate().unwrap().0).collect();
    assert_eq!(first, vec![256, 257, 258, 259, 260]);
    for p in &first {
        a.dealloc(PhysPageNum(*p));
    }
    // The page that was freed last comes first.
    let again: Vec<usize> = (0..5).map(|_| a.allocate().unwrap().0).collect();
    assert_eq!(again, vec![260, 259, 258, 257, 256]);
}

#[test]
fn hybrid_falls_back_to_smaller_blocks() {
    let mut a = hybrid_over(0, 6);
    let mut got: Vec<usize> = (0..6).map(|_| a.allocate().unwrap().0).collect();
    assert!(a.allocate().is_none());
    got.sort();
    assert_eq!(got, vec![0, 1, 2, 3, 4, 5]);
}

#[test]
fn hybrid_flushes_its_cache_for_a_run() {
    let mut a = hybrid_over(0, 16);
    let p = a.allocate().unwrap();
    a.dealloc(p);
    // All sixteen pages are cached, so the first try below finds nothing.
    assert_eq!(a.alloc_more(16).unwrap().len(), 16);
    assert!(a.alloc_more(1).is_none());
}

#[test]
fn hybrid_drains_its_oldest_pages() {
    let mut a = hybrid_over(0, 128);
    let got: Vec<PhysPageNum> = (0..128).map(|_| a.allocate().unwrap()).collect();
    for p in &got {
        a.dealloc(*p);
    }
    // The cache was drained, so half of the arena can be taken at once.
    assert_eq!(a.alloc_more(64).unwrap().last(), Some(&PhysPageNum(0)));
}

#[test]
fn stack_never_merges_recycled_pages() {
    let mut a = LegacyStackFrameAllocator::new(10, 20);
    assert_eq!(numbers(&a.alloc_more(4).unwrap()), vec![13, 12, 11, 10]);
    assert_eq!(a.allocate(), Some(PhysPageNum(14)));
    a.dealloc(PhysPageNum(12));
    assert_eq!(a.allocate(), Some(PhysPageNum(12)));
    // The last page of the arena is never part of a run.
    assert!(a.alloc_more(5).is_none());
    assert_eq!(numbers(&a.alloc_more(4).unwrap()), vec![18, 17, 16, 15]);
    assert_eq!(a.allocate(), Some(PhysPageNum(19)));
    assert!(a.allocate().is_none());
}

#[test]
fn tiers_dispatch() {
    let mut tiers = vec![Tier::build_stack(0, 4), Tier::build_buddy(0, 4), Tier::build_hybrid(0, 4)];
    for t in tiers.iter_mut() {
        let p = t.allocate().unwrap();
        assert_eq!(p.0, 0);
        t.dealloc(p);
    }
    assert!(tiers[0].alloc_more(4).is_none());
    assert_eq!(tiers[1].alloc_more(4).unwrap().len(), 4);
    assert_eq!(tiers[2].alloc_more(4).unwrap().len(), 4);
}

#[test]
fn contiguous_runs_after_churn() {
    for k in [2, 4, 8, 32, 256] {
        assert!(!run_after_churn(TierKind::Stack, 512, 512 + ARENA, k));
        assert!(run_after_churn(TierKind::Buddy, 512, 512 + ARENA, k));
        assert!(run_after_churn(TierKind::Hybrid, 512, 512 + ARENA, k));
    }
    assert!(!run_after_churn(TierKind::Buddy, 512, 512 + ARENA, 257));
    assert!(!run_after_churn(TierKind::Hybrid, 513, 513 + 256, 256));
    assert!(run_after_churn(TierKind::Hybrid, 513, 513 + 256, 128));
}

#[test]
fn throughput_takes_and_gives_the_whole_arena() {
    for kind in [TierKind::Stack, TierKind::Buddy, TierKind::Hybrid] {
        let mut t = build(kind, 256, 256 + ARENA);
        let v = take_pages(&mut t, ARENA);
        assert!(t.allocate().is_none());
        let mut n = numbers(&v);
        n.sort();
        assert_eq!(n, (256..512).collect::<Vec<usize>>());
        give_pages(&mut t, &v);
        assert!(t.allocate().is_some());
    }
}

#[test]
fn mixed_churn_keeps_the_working_set_distinct() {
    for kind in [TierKind::Stack, TierKind::Buddy, TierKind::Hybrid] {
        let mut t = build(kind, 0, ARENA);
        let mut held = take_pages(&mut t, WORKING_SET);
        mixed_churn(&mut t, &mut held, CHURN_ROUNDS);
        let mut n = numbers(&held);
        n.sort();
        n.dedup();
        assert_eq!(n.len(), WORKING_SET);
        assert!(n.iter().all(|p| *p < ARENA));
    }
}

#[test]
fn average_of_measured_time() {
    assert_eq!(per_op(10, 30, 2048), 9);
    assert_eq!(per_op(30, 30, 2048), 0);
    assert_eq!(per_op(31, 30, 2048), 0);
}

#[test]
fn addresses_round_to_pages() {
    assert_eq!(PhysAddr(0).ceil(), PhysPageNum(0));
    assert_eq!(PhysAddr(1).ceil(), PhysPageNum(1));
    assert_eq!(PhysAddr(PAGE).ceil(), PhysPageNum(1));
    assert_eq!(PhysAddr(PAGE + 1).ceil(), PhysPageNum(2));
    assert_eq!(PhysAddr(2 * PAGE - 1).floor(), PhysPageNum(1));
}

#[test]
fn frames_are_wiped() {
    let mut m = Memory::new(2 * PAGE, vec![7usize; 4 * PAGE / 8]);
    let t = FrameTracker::new(PhysPageNum(3), &mut m);
    assert_eq!(t.ppn, PhysPageNum(3));
    assert_eq!(m.read(3 * PAGE - 8), 7);
    for a in (3 * PAGE..4 * PAGE).step_by(8) {
        assert_eq!(m.read(a), 0);
    }
    assert_eq!(m.read(4 * PAGE), 7);
}

#[test]
fn frame_allocator_test() {
    let mut m = Memory::new(PAGE, vec![1usize; 31 * PAGE / 8]);
    let mut fa = HybridFrameAllocator::new();
    init_frame_allocator(&mut fa, PhysAddr(3 * PAGE + 5), PhysAddr(32 * PAGE + 7));
    let mut v: Vec<FrameTracker> = Vec::new();
    for _ in 0..5 {
        v.push(frame_alloc(&mut fa, &mut m).unwrap());
    }
    let first: Vec<usize> = v.iter().map(|t| t.ppn.0).collect();
    // Pages 16..32 are the block of sixteen that is preferred.
    assert_eq!(first, vec![16, 17, 18, 19, 20]);
    for t in v.drain(..) {
        frame_dealloc(&mut fa, t.ppn);
    }
    for _ in 0..5 {
        v.push(frame_alloc(&mut fa, &mut m).unwrap());
    }
    assert_eq!(v[0].ppn.0, 20);
    assert_eq!(m.read(16 * PAGE), 0);
    assert_eq!(m.read(25 * PAGE), 1);
}

#[test]
fn frame_allocator_alloc_more_test() {
    let mut m = Memory::new(PAGE, vec![1usize; 31 * PAGE / 8]);
    let mut fa = HybridFrameAllocator::new();
    init_frame_allocator(&mut fa, PhysAddr(8 * PAGE), PhysAddr(32 * PAGE));
    let frames = frame_alloc_more(&mut fa, &mut m, 5).unwrap();
    let got: Vec<usize> = frames.iter().map(|t| t.ppn.0).collect();
    assert_eq!(got, vec![12, 11, 10, 9, 8]);
    assert_eq!(m.read(8 * PAGE), 0);
    assert_eq!(m.read(13 * PAGE), 1);
    for t in frames {
        frame_dealloc(&mut fa, t.ppn);
    }
    let again = frame_alloc_more(&mut fa, &mut m, 5).unwrap();
    assert_eq!(again.len(), 5);
    assert!(frame_alloc_more(&mut fa, &mut m, 40).is_none());
    assert_eq!(frame_alloc_more(&mut fa, &mut m, 0).unwrap().len(), 0);
}
