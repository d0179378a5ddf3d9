//! Stride scheduler and the table of processes.
//!
//! Each pick selects the ready task with the smallest accumulated stride and
//! advances it by `BIG_STRIDE / priority`, so that tasks of high priority
//! accumulate stride more slowly and are picked more often.

use std::collections::{BTreeMap, VecDeque};
use vstd::prelude::*;

verus! {

/// What is divided by a priority to get the stride of one turn.
pub const BIG_STRIDE: u64 = 0x10_0000;

/// The least priority that counts.
pub const MIN_PRIORITY: u64 = 2;

#[derive(Debug, Clone, Copy, PartialEq, Eq, Structural)]
pub enum TaskStatus {
    Ready,
    Running,
    Blocked,
}

/// What the scheduler knows of a task.
#[derive(Debug, Clone, Copy, PartialEq, Eq, Structural)]
pub struct Task {
    pub id: usize,
    pub stride: u64,
    pub priority: u64,
    pub status: TaskStatus,
}

/// The stride of one turn.
pub open spec fn pass(priority: u64) -> int {
    if priority >= MIN_PRIORITY {
        BIG_STRIDE as int / priority as int
    } else {
        BIG_STRIDE as int / MIN_PRIORITY as int
    }
}

impl Task {
    /// The task after it was picked.
    pub open spec fn advanced(self) -> Task {
        Task { stride: self.stride.wrapping_add(pass(self.priority) as u64), ..self }
    }

    /// The task after it was woken up.
    pub open spec fn woken(self) -> Task {
        Task { status: TaskStatus::Ready, ..self }
    }
}

/// `i` is the first of the tasks with the least stride.
pub open spec fn is_first_min(q: Seq<Task>, i: int) -> bool {
    &&& 0 <= i < q.len()
    &&& forall|j: int| 0 <= j < q.len() ==> q[i].stride <= (#[trigger] q[j]).stride
    &&& forall|j: int| 0 <= j < i ==> q[i].stride < (#[trigger] q[j]).stride
}

/// The position of the task that is picked.
pub open spec fn first_min(q: Seq<Task>) -> int {
    choose|i: int| is_first_min(q, i)
}

pub proof fn lemma_first_min_unique(q: Seq<Task>, i: int)
    requires
        is_first_min(q, i),
    ensures
        first_min(q) == i,
{
    let j = first_min(q);
    assert(is_first_min(q, j));
    assert(q[i].stride <= q[j].stride && q[j].stride <= q[i].stride);
    if i < j {
        assert(q[j].stride < q[i].stride);
    } else if j < i {
        assert(q[i].stride < q[j].stride);
    }
}

/// A queue that is not empty has a task to pick.
pub proof fn lemma_first_min(q: Seq<Task>)
    requires
        q.len() > 0,
    ensures
        is_first_min(q, first_min(q)),
    decreases q.len(),
{
    let i = lemma_some_min(q);
    lemma_first_min_unique(q, i);
}

proof fn lemma_some_min(q: Seq<Task>) -> (i: int)
    requires
        q.len() > 0,
    ensures
        is_first_min(q, i),
    decreases q.len(),
{
    let last = q.len() - 1;
    if last == 0 {
        0
    } else {
        let init = q.drop_last();
        let i = lemma_some_min(init);
        let r = if q[last].stride < q[i].stride {
            last
        } else {
            i
        };
        assert forall|j: int| 0 <= j < q.len() implies q[r].stride <= (#[trigger] q[j]).stride by {
            if j < last {
                assert(init[j] == q[j]);
            }
        }
        assert forall|j: int| 0 <= j < r implies q[r].stride < (#[trigger] q[j]).stride by {
            assert(init[j] == q[j]);
        }
        r
    }
}

/// The ready tasks.
pub struct TaskManager {
    ready_queue: VecDeque<Task>,
}

impl View for TaskManager {
    type V = Seq<Task>;

    /// The ready tasks, in the order in which they became ready.
    closed spec fn view(&self) -> Seq<Task> {
        self.ready_queue@
    }
}

impl TaskManager {
    pub fn new() -> (r: TaskManager)
        ensures
            r@ == Seq::<Task>::empty(),
    {
        TaskManager { ready_queue: VecDeque::new() }
    }

    pub fn add(&mut self, task: Task)
        ensures
            final(self)@ == old(self)@.push(task),
    {
        self.ready_queue.push_back(task);
    }

    /// Picks the task with the smallest stride, the first of them if there are
    /// several, and advances it.
    pub fn fetch(&mut self) -> (r: Option<Task>)
        ensures
            match r {
                Some(t) => {
                    let i = first_min(old(self)@);
                    &&& is_first_min(old(self)@, i)
                    &&& t == old(self)@[i].advanced()
                    &&& final(self)@ == old(self)@.remove(i)
                },
                None => old(self)@.len() == 0 && final(self)@ == old(self)@,
            },
    {
        if self.ready_queue.len() == 0 {
            return None;
        }
        let ghost q = self@;
        // Linear scan for the task with the smallest stride.
        let mut min_idx: usize = 0;
        let mut min_stride: u64 = u64::MAX;
        let mut i: usize = 0;
        while i < self.ready_queue.len()
            invariant
                q == self.ready_queue@,
                i <= q.len(),
                q.len() > 0,
                min_idx < q.len(),
                i == 0 ==> min_idx == 0 && min_stride == u64::MAX,
                i > 0 ==> min_idx < i && min_stride == q[min_idx as int].stride,
                forall|j: int| 0 <= j < i ==> min_stride <= (#[trigger] q[j]).stride,
                forall|j: int| 0 <= j < min_idx ==> min_stride < (#[trigger] q[j]).stride,
            decreases q.len() - i,
        {
            let s: u64 = self.ready_queue[i].stride;
            if s < min_stride {
                min_stride = s;
                min_idx = i;
            }
            i = i + 1;
        }
        proof {
            assert(is_first_min(q, min_idx as int));
            lemma_first_min_unique(q, min_idx as int);
        }
        match self.ready_queue.remove(min_idx) {
            Some(task) => {
                let prio: u64 = if task.priority >= MIN_PRIORITY {
                    task.priority
                } else {
                    MIN_PRIORITY
                };
                Some(Task { stride: task.stride.wrapping_add(BIG_STRIDE / prio), ..task })
            },
            None => None,
        }
    }
}

pub fn add_task(manager: &mut TaskManager, task: Task)
    ensures
        final(manager)@ == old(manager)@.push(task),
{
    manager.add(task);
}

/// Makes a task ready and queues it.
pub fn wakeup_task(manager: &mut TaskManager, task: Task)
    ensures
        final(manager)@ == old(manager)@.push(task.woken()),
{
    add_task(manager, Task { status: TaskStatus::Ready, ..task });
}

pub fn fetch_task(manager: &mut TaskManager) -> (r: Option<Task>)
    ensures
        match r {
            Some(t) => {
                let i = first_min(old(manager)@);
                &&& is_first_min(old(manager)@, i)
                &&& t == old(manager)@[i].advanced()
                &&& final(manager)@ == old(manager)@.remove(i)
            },
            None => old(manager)@.len() == 0 && final(manager)@ == old(manager)@,
        },
{
    manager.fetch()
}

/// What others may do to a process.
#[derive(Debug, Clone, Copy, PartialEq, Eq, Structural)]
pub struct Process {
    pub pid: usize,
    /// Signals that are pending.
    pub signals: u32,
}

/// Processes by their number.
pub struct ProcessTable {
    map: BTreeMap<usize, Process>,
}

impl View for ProcessTable {
    type V = Map<usize, Process>;

    closed spec fn view(&self) -> Map<usize, Process> {
        self.map@
    }
}

impl ProcessTable {
    pub fn new() -> (r: ProcessTable)
        ensures
            r@ == Map::<usize, Process>::empty(),
    {
        ProcessTable { map: BTreeMap::new() }
    }
}

pub fn pid2process(table: &ProcessTable, pid: usize) -> (r: Option<Process>)
    ensures
        r == if table@.dom().contains(pid) {
            Some(table@[pid])
        } else {
            None
        },
{
    broadcast use vstd::std_specs::btree::group_btree_axioms;

    match table.map.get(&pid) {
        Some(p) => Some(*p),
        None => None,
    }
}

pub fn insert_into_pid2process(table: &mut ProcessTable, pid: usize, process: Process)
    ensures
        final(table)@ == old(table)@.insert(pid, process),
{
    broadcast use vstd::std_specs::btree::group_btree_axioms;

    table.map.insert(pid, process);
}

/// Forgets a process that is in the table.
pub fn remove_from_pid2process(table: &mut ProcessTable, pid: usize)
    requires
        old(table)@.dom().contains(pid),
    ensures
        final(table)@ == old(table)@.remove(pid),
{
    broadcast use vstd::std_specs::btree::group_btree_axioms;

    table.map.remove(&pid);
}

} // verus!
