//! System calls and the programs that use them.

use kalloc::config::{USER_HEAP_BASE, USER_HEAP_MAX_SIZE};
use kalloc::heap::HeapSnapshot;
use kalloc::heaptest::{stats_diff, us_per_call, Action, GrowShrink};
use kalloc::manager::{insert_into_pid2process, pid2process, Process, ProcessTable};
use kalloc::process::{
    arg_list, sbrk_target, sys_exec, sys_fork, sys_heap_stats, sys_kill, sys_sbrk, sys_waitpid,
    Child, SignalFlags, TrapContext, UserHeapStats, SIGABRT, SIGFPE, SIGILL, SIGINT, SIGNAL_MASK,
    SIGSEGV,
};
use kalloc::stats::AllocStats;
use kalloc::user::{
    heap_stats_ok, read_heap_stats, wait, wait_again, waitpid, waitpid_nb, KernelHeapStats,
};
use kalloc::user_bench::{quantum, us_per_page, worker_done, ForkTimes};

fn child(pid: usize, is_zombie: bool, exit_code: i32) -> Child {
    Child { pid, is_zombie, exit_code }
}

#[test]
fn fork_returns_zero_to_the_child() {
    let mut cx = TrapContext { x: [9; 32] };
    assert_eq!(sys_fork(17, &mut cx), 17);
    assert_eq!(cx.x[10], 0);
    assert_eq!(cx.x[9], 9);
    assert_eq!(cx.x[11], 9);
}

#[test]
fn arguments_end_at_the_first_zero() {
    assert_eq!(arg_list(&vec![5, 6, 0, 7]), Some(vec![5, 6]));
    assert_eq!(arg_list(&vec![0]), Some(vec![]));
    assert_eq!(arg_list(&vec![1, 2]), None);
    assert_eq!(sys_exec(&vec![5, 6], true), 2);
    assert_eq!(sys_exec(&vec![5, 6], false), -1);
}

#[test]
fn waiting_for_children() {
    let mut code = -7;
    let mut none = vec![];
    assert_eq!(sys_waitpid(&mut none, -1, &mut code), -1);
    let mut c = vec![child(2, false, 0), child(3, true, 33), child(4, true, 44)];
    assert_eq!(sys_waitpid(&mut c, 9, &mut code), -1);
    assert_eq!(sys_waitpid(&mut c, 2, &mut code), -2);
    assert_eq!(code, -7);
    assert_eq!(sys_waitpid(&mut c, 4, &mut code), 4);
    assert_eq!(code, 44);
    assert_eq!(sys_waitpid(&mut c, -1, &mut code), 3);
    assert_eq!(code, 33);
    assert_eq!(sys_waitpid(&mut c, 3, &mut code), -1);
    assert_eq!(c, vec![child(2, false, 0)]);
    assert_eq!(sys_waitpid(&mut c, -1, &mut code), -2);
}

#[test]
fn programs_yield_while_a_child_runs() {
    let mut code = 0;
    let mut c = vec![child(2, false, 0)];
    assert_eq!(wait(&mut c, &mut code), None);
    assert_eq!(waitpid(&mut c, 2, &mut code), None);
    assert_eq!(waitpid_nb(&mut c, 2, &mut code), -2);
    c[0].is_zombie = true;
    c[0].exit_code = 5;
    assert_eq!(waitpid(&mut c, 2, &mut code), Some(2));
    assert_eq!(code, 5);
    assert_eq!(wait(&mut c, &mut code), Some(-1));
    assert_eq!(wait_again(-2), None);
    assert_eq!(wait_again(-1), Some(-1));
    assert_eq!(wait_again(12), Some(12));
}

#[test]
fn signals_are_checked_and_added() {
    assert_eq!(SIGINT | SIGILL | SIGABRT | SIGFPE | SIGSEGV, SIGNAL_MASK);
    assert_eq!((SIGINT, SIGILL, SIGABRT, SIGFPE, SIGSEGV), (1 << 2, 1 << 4, 1 << 6, 1 << 8, 1 << 11));
    assert!(SignalFlags::from_bits(1).is_none());
    assert_eq!(SignalFlags::from_bits(SIGINT).unwrap().bits(), 4);
    let mut t = ProcessTable::new();
    insert_into_pid2process(&mut t, 1, Process { pid: 1, signals: SIGILL });
    insert_into_pid2process(&mut t, 2, Process { pid: 2, signals: 0 });
    assert_eq!(sys_kill(&mut t, 1, SIGINT), 0);
    assert_eq!(sys_kill(&mut t, 1, 1 << 3), -1);
    assert_eq!(sys_kill(&mut t, 7, SIGINT), -1);
    assert_eq!(pid2process(&t, 1).unwrap().signals, SIGILL | SIGINT);
    assert_eq!(pid2process(&t, 2).unwrap().signals, 0);
}

#[test]
fn heap_top_stays_in_bounds() {
    let base = USER_HEAP_BASE;
    let mut top = base;
    assert_eq!(sys_sbrk(&mut top, 0, false), base as isize);
    assert_eq!(sys_sbrk(&mut top, 4096, true), base as isize);
    assert_eq!(top, base + 4096);
    assert_eq!(sys_sbrk(&mut top, 4096, false), -1);
    assert_eq!(top, base + 4096);
    assert_eq!(sys_sbrk(&mut top, -4096, true), (base + 4096) as isize);
    assert_eq!(top, base);
    assert_eq!(sys_sbrk(&mut top, -1, true), -1);
    assert_eq!(sys_sbrk(&mut top, i32::MIN, true), -1);
    assert_eq!(sbrk_target(base, USER_HEAP_MAX_SIZE as i32), Some(base + USER_HEAP_MAX_SIZE));
    assert_eq!(sbrk_target(base + 1, USER_HEAP_MAX_SIZE as i32), None);
    assert_eq!(sbrk_target(usize::MAX, 1), None);
}

fn sample() -> (HeapSnapshot, AllocStats) {
    let snap = HeapSnapshot {
        buddy_total: 0x0102_0304,
        buddy_used: 2,
        buddy_waste: 99,
        slab_provisioned: 3,
        slab_free: 4,
    };
    let mut st = AllocStats::new();
    st.record_alloc(7);
    st.record_alloc(8);
    st.record_free(5);
    st.record_slab(0);
    st.record_buddy();
    st.record_oom();
    (snap, st)
}

#[test]
fn heap_statistics_are_laid_out_in_words() {
    let (snap, st) = sample();
    let bytes = UserHeapStats::gather(&snap, &st).to_bytes();
    assert_eq!(bytes.len(), 88);
    assert_eq!(&bytes[..8], &[4, 3, 2, 1, 0, 0, 0, 0]);
    assert_eq!(bytes[8], 2);
    assert_eq!(bytes[32], 2);
    assert_eq!(bytes[48], 15);
    assert_eq!(bytes[80], 1);
}

#[test]
fn heap_statistics_fill_a_split_buffer() {
    let (snap, st) = sample();
    let bytes = UserHeapStats::gather(&snap, &st).to_bytes();
    let mut parts = vec![vec![0xEE; 5], vec![], vec![0xEE; 60], vec![0xEE; 30]];
    assert_eq!(sys_heap_stats(&mut parts, &snap, &st), 0);
    let flat: Vec<u8> = parts.concat();
    assert_eq!(&flat[..88], &bytes[..]);
    assert_eq!(&flat[88..], &[0xEE; 7]);
    assert_eq!(parts[1].len(), 0);
    let mut short = vec![vec![0u8; 40]];
    assert_eq!(sys_heap_stats(&mut short, &snap, &st), -1);
    assert_eq!(&short[0][..], &bytes[..40]);
    assert_eq!(sys_heap_stats(&mut vec![], &snap, &st), -1);
}

#[test]
fn programs_read_the_statistics() {
    let (snap, st) = sample();
    let mut out = KernelHeapStats::default();
    assert_eq!(out.oom, 0);
    // The buffer lies on two pages.
    let mut parts = vec![vec![0u8; 24], vec![0u8; 64]];
    let answer = sys_heap_stats(&mut parts, &snap, &st);
    assert!(read_heap_stats(&mut out, answer, &parts.concat()));
    assert_eq!((out.buddy_total, out.buddy_used), (0x0102_0304, 2));
    assert_eq!((out.slab_provisioned, out.slab_free), (3, 4));
    assert_eq!((out.allocs, out.frees), (2, 1));
    assert_eq!((out.bytes_allocated, out.bytes_freed), (15, 5));
    assert_eq!((out.slab_hits, out.buddy_calls, out.oom), (1, 1, 1));
}

#[test]
fn failed_readings_are_reported() {
    for (answer, ok) in [(0, true), (-1, false), (1, false), (isize::MIN, false)] {
        assert_eq!(heap_stats_ok(answer), ok);
        let mut out = KernelHeapStats::default();
        let mut bytes = vec![0u8; 88];
        bytes[8] = 7;
        assert_eq!(read_heap_stats(&mut out, answer, &bytes), ok);
        assert_eq!((out.buddy_total, out.buddy_used, out.slab_free), (0, 7, 0));
    }
    // The kernel reaches only part of the buffer.
    let (snap, st) = sample();
    let mut parts = vec![vec![0u8; 40]];
    let answer = sys_heap_stats(&mut parts, &snap, &st);
    let mut bytes = parts.concat();
    bytes.resize(88, 0);
    let mut out = KernelHeapStats::default();
    assert!(!read_heap_stats(&mut out, answer, &bytes));
    assert_eq!((out.allocs, out.frees), (2, 0));
}

#[test]
fn workers_stop_at_the_deadline() {
    assert!(!worker_done(99, 100));
    assert!(worker_done(100, 100));
    assert!(worker_done(101, 100));
    assert!(!worker_done(-5, 0));
}

fn play(pages: usize, limit: usize) -> (bool, usize, u64, Vec<usize>) {
    let mut top = USER_HEAP_BASE;
    let mut test = GrowShrink::new(pages);
    let mut touched = vec![];
    loop {
        match test.action() {
            Action::ReadStats => test.feed(0),
            Action::Sbrk(d) => {
                let room = sbrk_target(top, d).map_or(false, |t| t <= limit);
                let r = sys_sbrk(&mut top, d, room);
                test.feed(r);
            }
            Action::Touch(a) => {
                touched.push(a);
                test.feed(a as u32 as isize);
            }
            Action::Finish(ok) => return (ok, top, test.checksum, touched),
        }
    }
}

#[test]
fn growing_and_shrinking_restores_the_heap() {
    let (ok, top, sum, touched) = play(64, usize::MAX);
    assert!(ok);
    assert_eq!(top, USER_HEAP_BASE);
    let want: Vec<usize> = (0..64).map(|i| USER_HEAP_BASE + i * 4096).collect();
    assert_eq!(touched, want);
    assert_eq!(sum, want.iter().map(|a| *a as u64).sum::<u64>());
    let (ok, top, sum, touched) = play(0, usize::MAX);
    assert_eq!((ok, top, sum, touched.len()), (true, USER_HEAP_BASE, 0, 0));
}

#[test]
fn growing_fails_when_memory_runs_out() {
    let (ok, top, _, touched) = play(64, USER_HEAP_BASE + 10 * 4096);
    assert!(!ok);
    assert_eq!(top, USER_HEAP_BASE + 10 * 4096);
    assert!(touched.is_empty());
    let mut t = GrowShrink::new(4);
    t.feed(-1);
    assert_eq!(t.action(), Action::Finish(false));
}

#[test]
fn test_stops_at_the_first_refusal() {
    // One page: read, grow, read, ask, touch, shrink, read.
    let answers = [0, 5, 7, 9000, 1, 9000, -3];
    let mut t = GrowShrink::new(1);
    for a in answers {
        assert!(!matches!(t.action(), Action::Finish(_)));
        t.feed(a);
    }
    // The last two readings may fail.
    assert_eq!(t.action(), Action::Finish(true));
    for stop in [0usize, 1, 5] {
        let mut t = GrowShrink::new(1);
        for (i, a) in answers.iter().enumerate() {
            t.feed(if i == stop { -1 } else { *a });
            assert_eq!(t.action() == Action::Finish(false), i >= stop);
        }
    }
}

#[test]
fn differences_of_statistics() {
    let before = KernelHeapStats::default();
    let after = KernelHeapStats {
        buddy_total: 16384,
        buddy_used: 5000,
        slab_provisioned: 4096,
        allocs: 10,
        frees: 4,
        bytes_allocated: 1000,
        bytes_freed: 300,
        slab_hits: 7,
        buddy_calls: 3,
        oom: 2,
        slab_free: 0,
    };
    let d = stats_diff(&before, &after);
    assert_eq!((d.allocs, d.frees, d.bytes_allocated, d.bytes_freed), (10, 4, 1000, 300));
    assert_eq!((d.slab_hits, d.buddy_calls, d.hit_pct, d.oom), (7, 3, 70, 2));
    assert_eq!((d.buddy_used_kb, d.buddy_total_kb, d.slab_provisioned_kb), (4, 16, 4));
    assert_eq!(stats_diff(&after, &after).hit_pct, 0);
    assert_eq!(us_per_call(3, 64), 46);
    assert_eq!(us_per_call(3, 0), 0);
}

#[test]
fn averages_of_measured_times() {
    let mut t = ForkTimes::new();
    t.record(100, 130, 190);
    t.record(200, 225, 300);
    assert_eq!(t.averages(), (27, 67));
    assert_eq!(us_per_page(100, 8), 12);
    assert_eq!(us_per_page(-9, 2), -4);
    assert_eq!(us_per_page(100, 0), 0);
    assert_eq!(quantum(7), 207);
    assert_eq!(quantum(u64::MAX), 199);
}
