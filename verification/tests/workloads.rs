//! Workloads and their runs on the heap.

use kalloc::heap::{Heap, Layout};
use kalloc::memory::Memory;
use kalloc::replay::run;
use kalloc::mixed::{
    MixedAction, MixedOps, MixedWorkload, SizeRange, ALLOC_SHARE, SMALL_AND_MID_SHARE, SMALL_SHARE,
};
use kalloc::workload::{
    last_layout, small_lifo_from, workload_growth, workload_small_lifo, Op, Workload, SMALL_SIZES,
};

const BASE: usize = 0x10_0000;

fn heap_of(size: usize) -> (Heap, Memory) {
    let mut m = Memory::new(BASE, vec![0usize; size / 8]);
    let mut h = Heap::new();
    h.add_region(&mut m, BASE, size);
    (h, m)
}

fn bytes(size: usize) -> Layout {
    Layout { size, align: 8 }
}

/// Every slot is freed once, with the layout it was allocated with.
fn check_balance(w: &Workload) {
    let mut held: Vec<Option<Layout>> = vec![None; w.slots];
    for (l, op) in &w.ops {
        match op {
            Op::Alloc { slot } => {
                assert!(held[*slot].is_none());
                held[*slot] = Some(*l);
            }
            Op::Free { slot } => {
                assert_eq!(held[*slot], Some(*l));
                held[*slot] = None;
            }
        }
    }
    assert!(held.iter().all(|l| l.is_none()));
}

#[test]
fn growth_doubles_and_unwinds() {
    let w = workload_growth();
    assert_eq!((w.ops.len(), w.slots), (36_000, 18_000));
    assert_eq!(w.ops[0], (bytes(16), Op::Alloc { slot: 0 }));
    assert_eq!(w.ops[8], (bytes(4096), Op::Alloc { slot: 8 }));
    assert_eq!(w.ops[9], (bytes(4096), Op::Free { slot: 8 }));
    assert_eq!(w.ops[17], (bytes(16), Op::Free { slot: 0 }));
    assert_eq!(w.ops[18], (bytes(16), Op::Alloc { slot: 9 }));
    check_balance(&w);
}

#[test]
fn small_bursts_use_the_picked_sizes() {
    let picks: Vec<usize> = (0..256).map(|i| i % 14).collect();
    let w = small_lifo_from(&picks);
    assert_eq!((w.ops.len(), w.slots), (512, 256));
    assert_eq!(w.ops[2], (bytes(24), Op::Alloc { slot: 2 }));
    assert_eq!(w.ops[256], (bytes(SMALL_SIZES[255 % 14]), Op::Free { slot: 255 }));
    assert_eq!(w.ops[511], (bytes(8), Op::Free { slot: 0 }));
    check_balance(&w);
}

#[test]
fn small_workload_draws_its_sizes() {
    let w = workload_small_lifo(1000, 0xC0FFEE);
    assert_eq!((w.ops.len(), w.slots), (1536, 768));
    let mut rng = fastrand::Rng::with_seed(0xC0FFEE);
    for (l, op) in &w.ops {
        if matches!(op, Op::Alloc { .. }) {
            assert_eq!(l.size(), SMALL_SIZES[rng.usize(..14)]);
            assert_eq!(l.align(), 8);
        }
        assert!(8 <= l.size() && l.size() <= 1024);
    }
    // The sizes do vary.
    assert!(w.ops[..256].iter().any(|(l, _)| l.size() != w.ops[0].0.size()));
    check_balance(&w);
    assert_eq!(workload_small_lifo(255, 1).ops.len(), 0);
}

#[test]
fn layouts_are_found_from_the_end() {
    let ops = vec![
        (bytes(8), Op::Alloc { slot: 0 }),
        (bytes(8), Op::Free { slot: 0 }),
        (bytes(16), Op::Alloc { slot: 0 }),
        (bytes(32), Op::Alloc { slot: 1 }),
    ];
    assert_eq!(last_layout(&ops, 0), Some(bytes(16)));
    assert_eq!(last_layout(&ops, 1), Some(bytes(32)));
    assert_eq!(last_layout(&ops, 2), None);
}

#[test]
fn mixed_workload_frees_what_it_holds() {
    let mut b = MixedOps::new();
    assert_eq!(b.live(), 0);
    b.allocate(SizeRange::Small, 0);
    b.allocate(SizeRange::Mid, 8191);
    b.allocate(SizeRange::Large, 100);
    assert_eq!(b.live(), 3);
    b.free(0);
    // The last slot has taken the place of the freed one.
    b.free(0);
    let w = b.finish();
    assert_eq!(w.slots, 3);
    assert_eq!(
        w.ops,
        vec![
            (bytes(1), Op::Alloc { slot: 0 }),
            (bytes(9215), Op::Alloc { slot: 1 }),
            (bytes(8292), Op::Alloc { slot: 2 }),
            (bytes(1), Op::Free { slot: 0 }),
            (bytes(8292), Op::Free { slot: 2 }),
            (bytes(9215), Op::Free { slot: 1 }),
        ]
    );
    assert_eq!((SizeRange::Small.span(), SizeRange::Mid.span(), SizeRange::Large.span()), (1024, 8192, 57344));
    assert_eq!(SizeRange::Large.size(57343), 65535);
}

#[test]
fn shares_are_single_precision_numbers() {
    assert_eq!(ALLOC_SHARE, 0.55f32.to_bits());
    assert_eq!(SMALL_SHARE, 0.70f32.to_bits());
    assert_eq!(SMALL_AND_MID_SHARE, 0.95f32.to_bits());
    let mut rng = fastrand::Rng::with_seed(5);
    for _ in 0..1000 {
        let x = rng.f32();
        assert_eq!(MixedOps::chooses_alloc(x.to_bits()), x < 0.55);
        let want = if x < 0.70 {
            SizeRange::Small
        } else if x < 0.95 {
            SizeRange::Mid
        } else {
            SizeRange::Large
        };
        assert_eq!(SizeRange::of_draw(x.to_bits()), want);
    }
}

#[test]
fn mixed_workload_draws_sizes_and_slots() {
    // The same draws, made in one go.
    let mut rng = fastrand::Rng::with_seed(0xDEAD_BEEF);
    let mut live: Vec<usize> = Vec::new();
    let mut want: Vec<(usize, Op)> = Vec::new();
    let mut slots = 0;
    for _ in 0..400 {
        if live.is_empty() || rng.f32() < 0.55 {
            let r = rng.f32();
            let size = if r < 0.70 {
                1 + rng.usize(..1024)
            } else if r < 0.95 {
                1024 + rng.usize(..8192)
            } else {
                8192 + rng.usize(..57344)
            };
            want.push((size, Op::Alloc { slot: slots }));
            live.push(slots);
            slots += 1;
        } else {
            let pick = rng.usize(..live.len());
            want.push((0, Op::Free { slot: live.swap_remove(pick) }));
        }
    }

    let mut b = MixedWorkload::new(400, 0xDEAD_BEEF);
    let mut draws = 0;
    while let MixedAction::Draw(state) = b.action() {
        let mut rng = fastrand::Rng::with_seed(state);
        let bits = rng.f32().to_bits();
        b.feed(bits, rng.get_seed());
        draws += 1;
    }
    assert!(400 <= draws && draws <= 800);
    // Once done it stays done.
    b.feed(0, 1);
    assert_eq!(b.action(), MixedAction::Done);
    let w = b.finish();
    assert_eq!(w.slots, slots);
    for (i, (size, op)) in want.iter().enumerate() {
        assert_eq!(w.ops[i].1, *op);
        if matches!(op, Op::Alloc { .. }) {
            assert_eq!(w.ops[i].0, bytes(*size));
        }
    }
    check_balance(&w);
    assert_eq!(w.ops.len(), 2 * w.slots);
    assert!(400 <= w.ops.len() && w.ops.len() <= 800);
    let mut next = 0;
    for (l, op) in &w.ops {
        assert!(1 <= l.size() && l.size() <= 65535 && l.align() == 8);
        if let Op::Alloc { slot } = op {
            assert_eq!(*slot, next);
            next += 1;
        }
    }
    let (mut h, mut m) = heap_of(1 << 24);
    assert_eq!(run(&mut h, &mut m, &w), Some(slots));
}

#[test]
fn mixed_workload_of_no_steps_is_empty() {
    let b = MixedWorkload::new(0, 9);
    assert_eq!(b.action(), MixedAction::Done);
    let w = b.finish();
    assert_eq!((w.ops.len(), w.slots), (0, 0));
}

#[test]
fn full_slot_is_overwritten() {
    let (mut h, mut m) = heap_of(1 << 16);
    let w = Workload {
        ops: vec![
            (bytes(2000), Op::Alloc { slot: 0 }),
            (bytes(24), Op::Alloc { slot: 0 }),
            (bytes(24), Op::Free { slot: 0 }),
        ],
        slots: 1,
    };
    assert_eq!(run(&mut h, &mut m, &w), Some(2));
    // What was overwritten is still allocated.
    let s = h.snapshot(&m);
    assert_eq!(s.buddy_used - s.slab_provisioned, 2048);
    assert_eq!((h.stats().allocs(), h.stats().frees()), (2, 1));
}

#[test]
fn growth_runs_on_the_heap() {
    let (mut h, mut m) = heap_of(1 << 20);
    let w = workload_growth();
    assert_eq!(run(&mut h, &mut m, &w), Some(18_000));
    let st = h.stats();
    assert_eq!((st.allocs(), st.frees()), (18_000, 18_000));
    // 2048 and 4096 bytes are above the slab classes.
    assert_eq!((st.slab_hits(), st.buddy_calls()), (14_000, 4_000));
    let s = h.snapshot(&m);
    assert_eq!(s.slab_free, s.slab_provisioned);
    assert_eq!(s.buddy_used, s.slab_provisioned);
}

#[test]
fn small_bursts_never_miss_the_slabs() {
    let (mut h, mut m) = heap_of(1 << 20);
    let w = workload_small_lifo(2560, 0xC0FFEE);
    assert_eq!(run(&mut h, &mut m, &w), Some(2560));
    assert_eq!(h.stats().buddy_calls(), 0);
    assert_eq!(h.stats().slab_hits(), 2560);
}

#[test]
fn run_ends_when_memory_runs_out() {
    let (mut h, mut m) = heap_of(8192);
    let w = workload_growth();
    assert_eq!(run(&mut h, &mut m, &w), None);
    assert_eq!(h.stats().oom(), 1);
}
