//! Scheduler and process table.

use kalloc::manager::{
    add_task, fetch_task, insert_into_pid2process, pid2process, remove_from_pid2process,
    wakeup_task, Process, ProcessTable, Task, TaskManager, TaskStatus, BIG_STRIDE,
};

fn task(id: usize, priority: u64) -> Task {
    Task { id, stride: 0, priority, status: TaskStatus::Running }
}

#[test]
fn least_stride_is_picked_first_in_first_out() {
    let mut m = TaskManager::new();
    assert_eq!(m.fetch(), None);
    for (id, stride) in [(1, 5), (2, 3), (3, 3)] {
        m.add(Task { stride, ..task(id, 16) });
    }
    let t = m.fetch().unwrap();
    assert_eq!((t.id, t.stride), (2, 3 + BIG_STRIDE / 16));
    assert_eq!(m.fetch().unwrap().id, 3);
    assert_eq!(m.fetch().unwrap().id, 1);
    assert_eq!(m.fetch(), None);
}

#[test]
fn low_priorities_are_raised_and_strides_wrap() {
    let mut m = TaskManager::new();
    m.add(Task { stride: u64::MAX, ..task(1, 0) });
    assert_eq!(m.fetch().unwrap().stride, BIG_STRIDE / 2 - 1);
    m.add(task(2, 1));
    assert_eq!(m.fetch().unwrap().stride, BIG_STRIDE / 2);
}

#[test]
fn turns_are_shared_by_priority() {
    for (lo, hi, rounds, want) in [(2, 16, 900, (100, 800)), (4, 16, 500, (100, 400)), (8, 16, 300, (100, 200))] {
        let mut m = TaskManager::new();
        m.add(task(0, lo));
        m.add(task(1, hi));
        let mut turns = (0, 0);
        for _ in 0..rounds {
            let t = m.fetch().unwrap();
            if t.id == 0 {
                turns.0 += 1;
            } else {
                turns.1 += 1;
            }
            m.add(t);
        }
        assert_eq!(turns, want);
    }
}

#[test]
fn woken_task_is_ready() {
    let mut m = TaskManager::new();
    wakeup_task(&mut m, Task { status: TaskStatus::Blocked, ..task(4, 16) });
    add_task(&mut m, task(5, 16));
    assert_eq!(fetch_task(&mut m).unwrap().status, TaskStatus::Ready);
    assert_eq!(fetch_task(&mut m).unwrap().status, TaskStatus::Running);
    assert_eq!(fetch_task(&mut m), None);
}

#[test]
fn process_table_finds_by_number() {
    let mut t = ProcessTable::new();
    assert_eq!(pid2process(&t, 3), None);
    insert_into_pid2process(&mut t, 3, Process { pid: 3, signals: 0 });
    insert_into_pid2process(&mut t, 9, Process { pid: 9, signals: 4 });
    assert_eq!(pid2process(&t, 9), Some(Process { pid: 9, signals: 4 }));
    remove_from_pid2process(&mut t, 9);
    assert_eq!(pid2process(&t, 9), None);
    assert_eq!(pid2process(&t, 3), Some(Process { pid: 3, signals: 0 }));
}
