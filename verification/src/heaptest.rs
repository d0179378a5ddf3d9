//! Decisions and figures of the programs that exercise the kernel from user
//! space.
//!
//! The programs alternate system calls and decisions. The decisions are here;
//! whoever runs a program performs the actions and hands back the answers.

use crate::config::{PAGE_SIZE, USER_HEAP_BASE, USER_HEAP_MAX_SIZE};
use crate::process;
use crate::user::KernelHeapStats;
use vstd::prelude::*;

verus! {

/// What a heap test does next.
#[derive(Debug, Clone, Copy, PartialEq, Eq, Structural)]
pub enum Action {
    /// Read the heap counters and answer with the code of the call.
    ReadStats,
    /// Change the heap by so many bytes and answer with the result.
    Sbrk(i32),
    /// Write the low half of the address to the word at the address, and
    /// answer with what is read back.
    Touch(usize),
    /// The test is over.
    Finish(bool),
}

/// Where a grow-then-shrink test stands.
#[derive(Debug, Clone, Copy, PartialEq, Eq, Structural)]
pub enum Step {
    ReadFirst,
    /// So many pages are still to be added.
    Grow(usize),
    ReadGrown,
    AskTop,
    /// The pages from the first address up to the second are to be touched.
    Touch(usize, usize),
    /// So many pages are still to be removed.
    Shrink(usize),
    ReadLast,
    Passed,
    Failed,
}

/// The heap is grown page by page, every page is touched, and the heap is
/// shrunk again.
#[derive(Debug, Clone, Copy, PartialEq, Eq, Structural)]
pub struct GrowShrink {
    pub pages: usize,
    pub step: Step,
    pub checksum: u64,
}

/// The step in which `n` pages are to be added.
pub open spec fn growing(n: usize) -> Step {
    if n > 0 {
        Step::Grow(n)
    } else {
        Step::ReadGrown
    }
}

/// The step in which the pages from `a` to `end` are to be touched.
pub open spec fn touching(a: usize, end: usize, pages: usize) -> Step {
    if a < end {
        Step::Touch(a, end)
    } else {
        shrinking(pages)
    }
}

/// The step in which `n` pages are to be removed.
pub open spec fn shrinking(n: usize) -> Step {
    if n > 0 {
        Step::Shrink(n)
    } else {
        Step::ReadLast
    }
}

impl GrowShrink {
    /// The test makes sense: the touched pages end where the heap ends.
    pub open spec fn inv(self) -> bool {
        &&& self.pages * PAGE_SIZE <= isize::MAX
        &&& match self.step {
            Step::Touch(a, end) => a < end <= isize::MAX && (end - a) % PAGE_SIZE as int == 0,
            Step::Grow(n) => 0 < n <= self.pages,
            Step::Shrink(n) => 0 < n <= self.pages,
            _ => true,
        }
    }

    /// What is done next.
    pub open spec fn next(self) -> Action {
        match self.step {
            Step::ReadFirst => Action::ReadStats,
            Step::Grow(n) => Action::Sbrk(4096),
            Step::ReadGrown => Action::ReadStats,
            Step::AskTop => Action::Sbrk(0),
            Step::Touch(a, end) => Action::Touch(a),
            Step::Shrink(n) => Action::Sbrk(-4096i32),
            Step::ReadLast => Action::ReadStats,
            Step::Passed => Action::Finish(true),
            Step::Failed => Action::Finish(false),
        }
    }

    pub open spec fn at(self, step: Step) -> GrowShrink {
        GrowShrink { step, ..self }
    }

    /// The test after its action has been answered. The first reading of the
    /// counters and every change of the heap must succeed.
    pub open spec fn after(self, answer: isize) -> GrowShrink {
        match self.step {
            Step::ReadFirst => self.at(
                if answer == 0 {
                    growing(self.pages)
                } else {
                    Step::Failed
                },
            ),
            Step::Grow(n) => self.at(
                if answer >= 0 {
                    growing((n - 1) as usize)
                } else {
                    Step::Failed
                },
            ),
            Step::ReadGrown => self.at(Step::AskTop),
            Step::AskTop => self.at(
                touching(
                    (answer - self.pages * PAGE_SIZE) as usize,
                    answer as usize,
                    self.pages,
                ),
            ),
            Step::Touch(a, end) => GrowShrink {
                checksum: self.checksum.wrapping_add(answer as u32 as u64),
                ..self.at(touching((a + PAGE_SIZE) as usize, end, self.pages))
            },
            Step::Shrink(n) => self.at(
                if answer >= 0 {
                    shrinking((n - 1) as usize)
                } else {
                    Step::Failed
                },
            ),
            Step::ReadLast => self.at(Step::Passed),
            Step::Passed => self,
            Step::Failed => self,
        }
    }

    /// The answer is one that the action can have: the pages that were added
    /// lie below the top of the heap.
    pub open spec fn plausible(self, answer: isize) -> bool {
        self.step is AskTop ==> answer >= self.pages * PAGE_SIZE
    }

    /// A test of `pages` pages.
    pub fn new(pages: usize) -> (r: GrowShrink)
        requires
            pages * PAGE_SIZE <= isize::MAX,
        ensures
            r.inv(),
            r == (GrowShrink { pages, step: Step::ReadFirst, checksum: 0 }),
    {
        GrowShrink { pages, step: Step::ReadFirst, checksum: 0 }
    }

    /// What is to be done next.
    pub fn action(&self) -> (r: Action)
        ensures
            r == self.next(),
    {
        match self.step {
            Step::ReadFirst | Step::ReadGrown | Step::ReadLast => Action::ReadStats,
            Step::Grow(_) => Action::Sbrk(PAGE_SIZE as i32),
            Step::AskTop => Action::Sbrk(0),
            Step::Touch(a, _) => Action::Touch(a),
            Step::Shrink(_) => Action::Sbrk(-(PAGE_SIZE as i32)),
            Step::Passed => Action::Finish(true),
            Step::Failed => Action::Finish(false),
        }
    }

    /// Takes the answer to the action.
    pub fn feed(&mut self, answer: isize)
        requires
            old(self).inv(),
            old(self).plausible(answer),
        ensures
            final(self).inv(),
            *final(self) == old(self).after(answer),
    {
        match self.step {
            Step::ReadFirst => {
                self.step = if answer == 0 {
                    if self.pages > 0 {
                        Step::Grow(self.pages)
                    } else {
                        Step::ReadGrown
                    }
                } else {
                    Step::Failed
                };
            },
            Step::Grow(n) => {
                self.step = if answer >= 0 {
                    if n > 1 {
                        Step::Grow(n - 1)
                    } else {
                        Step::ReadGrown
                    }
                } else {
                    Step::Failed
                };
            },
            Step::ReadGrown => {
                self.step = Step::AskTop;
            },
            Step::AskTop => {
                let end: usize = answer as usize;
                self.touch_from(end - self.pages * PAGE_SIZE, end);
            },
            Step::Touch(a, end) => {
                self.checksum = self.checksum.wrapping_add(answer as u32 as u64);
                self.touch_from(a + PAGE_SIZE, end);
            },
            Step::Shrink(n) => {
                self.step = if answer >= 0 {
                    if n > 1 {
                        Step::Shrink(n - 1)
                    } else {
                        Step::ReadLast
                    }
                } else {
                    Step::Failed
                };
            },
            Step::ReadLast => {
                self.step = Step::Passed;
            },
            Step::Passed => {},
            Step::Failed => {},
        }
    }

    fn touch_from(&mut self, a: usize, end: usize)
        requires
            old(self).pages * PAGE_SIZE <= isize::MAX,
            a <= end <= isize::MAX,
            (end - a) % PAGE_SIZE as int == 0,
        ensures
            final(self).inv(),
            *final(self) == old(self).at(touching(a, end, old(self).pages)),
    {
        self.step = if a < end {
            Step::Touch(a, end)
        } else if self.pages > 0 {
            Step::Shrink(self.pages)
        } else {
            Step::ReadLast
        };
    }
}

/// What a kernel that can map any memory answers.
pub open spec fn kernel_answer(action: Action, top: usize) -> isize {
    match action {
        Action::ReadStats => 0,
        Action::Sbrk(delta) => process::sbrk_answer(top, delta, true),
        Action::Touch(a) => a as u32 as isize,
        Action::Finish(ok) => 0,
    }
}

/// The top of the heap after the action.
pub open spec fn kernel_top(action: Action, top: usize) -> usize {
    match action {
        Action::Sbrk(delta) => process::after_sbrk(top, delta, true),
        _ => top,
    }
}

/// The test and the top of the heap after `k` actions.
pub open spec fn simulated(t: GrowShrink, top: usize, k: int) -> (GrowShrink, usize)
    decreases k,
{
    if k <= 0 {
        (t, top)
    } else {
        let a = t.next();
        simulated(t.after(kernel_answer(a, top)), kernel_top(a, top), k - 1)
    }
}

/// The sum over the low halves of the addresses of `n` pages from `a` on.
pub open spec fn page_sum(start: u64, a: int, n: int) -> u64
    decreases n,
{
    if n <= 0 {
        start
    } else {
        page_sum(
            start.wrapping_add(kernel_answer(Action::Touch(a as usize), 0) as u32 as u64),
            a + PAGE_SIZE,
            n - 1,
        )
    }
}

proof fn lemma_simulated_add(t: GrowShrink, top: usize, i: int, j: int)
    requires
        0 <= i,
        0 <= j,
    ensures
        simulated(t, top, i + j) == simulated(
            simulated(t, top, i).0,
            simulated(t, top, i).1,
            j,
        ),
    decreases i,
{
    if i > 0 {
        let a = t.next();
        lemma_simulated_add(t.after(kernel_answer(a, top)), kernel_top(a, top), i - 1, j);
    }
}

spec fn room(top: int, n: int) -> bool {
    &&& USER_HEAP_BASE <= top
    &&& top + n * PAGE_SIZE <= USER_HEAP_BASE + USER_HEAP_MAX_SIZE
    &&& top + n * PAGE_SIZE <= isize::MAX
}

proof fn lemma_grow(t: GrowShrink, top: usize, n: usize)
    requires
        t.step == growing(n),
        room(top as int, n as int),
    ensures
        simulated(t, top, n as int) == (t.at(Step::ReadGrown), (top + n * PAGE_SIZE) as usize),
    decreases n,
{
    if n > 0 {
        let a = t.next();
        let u = t.after(kernel_answer(a, top));
        lemma_grow(u, (top + PAGE_SIZE) as usize, (n - 1) as usize);
        assert(kernel_top(a, top) == (top + PAGE_SIZE) as usize);
    } else {
        assert(t == t.at(Step::ReadGrown));
    }
}

proof fn lemma_touch(t: GrowShrink, top: usize, a: usize, end: usize, n: int)
    requires
        0 <= n,
        end == a + n * PAGE_SIZE,
        t.step == touching(a, end, t.pages),
    ensures
        simulated(t, top, n) == (
            (GrowShrink {
                checksum: page_sum(t.checksum, a as int, n),
                ..t.at(shrinking(t.pages))
            }),
            top,
        ),
    decreases n,
{
    if n > 0 {
        let u = t.after(kernel_answer(t.next(), top));
        lemma_touch(u, top, (a + PAGE_SIZE) as usize, end, n - 1);
    }
}

proof fn lemma_shrink(t: GrowShrink, top: usize, n: usize)
    requires
        t.step == shrinking(n),
        room(top - n * PAGE_SIZE, n as int),
    ensures
        simulated(t, top, n as int) == (t.at(Step::ReadLast), (top - n * PAGE_SIZE) as usize),
    decreases n,
{
    if n > 0 {
        let a = t.next();
        let u = t.after(kernel_answer(a, top));
        lemma_shrink(u, (top - PAGE_SIZE) as usize, (n - 1) as usize);
        assert(kernel_top(a, top) == (top - PAGE_SIZE) as usize);
    } else {
        assert(t == t.at(Step::ReadLast));
    }
}

/// On a kernel that can map the memory, the test passes, touches every page
/// that it added, and leaves the heap as it was.
pub proof fn law_grow_shrink_passes(pages: usize, top: usize)
    requires
        USER_HEAP_BASE <= top,
        top + pages * PAGE_SIZE <= USER_HEAP_BASE + USER_HEAP_MAX_SIZE,
        top + pages * PAGE_SIZE <= isize::MAX,
    ensures
        simulated(
            (GrowShrink { pages, step: Step::ReadFirst, checksum: 0 }),
            top,
            3 * pages + 4,
        ) == (
            (GrowShrink {
                pages,
                step: Step::Passed,
                checksum: page_sum(0, top as int, pages as int),
            }),
            top,
        ),
{
    let t0 = GrowShrink { pages, step: Step::ReadFirst, checksum: 0 };
    let high = (top + pages * PAGE_SIZE) as usize;
    reveal_with_fuel(simulated, 2);
    // Read, then grow.
    let t1 = t0.at(growing(pages));
    assert(simulated(t0, top, 1) == (t1, top));
    lemma_grow(t1, top, pages);
    lemma_simulated_add(t0, top, 1, pages as int);
    let t2 = t0.at(Step::ReadGrown);
    assert(simulated(t0, top, 1 + pages) == (t2, high));
    // Read, ask for the top.
    let t3 = t0.at(Step::AskTop);
    assert(simulated(t2, high, 1) == (t3, high));
    lemma_simulated_add(t0, top, 1 + pages, 1);
    let t4 = t0.at(touching(top, high, pages));
    assert(t3.after(high as isize) == t4);
    assert(simulated(t3, high, 1) == (t4, high));
    lemma_simulated_add(t0, top, 2 + pages, 1);
    // Touch.
    lemma_touch(t4, high, top, high, pages as int);
    lemma_simulated_add(t0, top, 3 + pages, pages as int);
    let t5 = GrowShrink {
        checksum: page_sum(0, top as int, pages as int),
        ..t0.at(shrinking(pages))
    };
    assert(simulated(t0, top, 3 + 2 * pages) == (t5, high));
    // Shrink, read.
    lemma_shrink(t5, high, pages);
    lemma_simulated_add(t0, top, 3 + 2 * pages, pages as int);
    let t6 = t5.at(Step::ReadLast);
    assert(simulated(t0, top, 3 + 3 * pages) == (t6, top));
    assert(simulated(t6, top, 1) == (t6.at(Step::Passed), top));
    lemma_simulated_add(t0, top, 3 + 3 * pages, 1);
}

/// The test after the first `k` answers, whatever they are.
pub open spec fn fed(t: GrowShrink, answers: Seq<isize>, k: int) -> GrowShrink
    decreases k,
{
    if k <= 0 {
        t
    } else {
        fed(t, answers, k - 1).after(answers[k - 1])
    }
}

/// Answer `i` of a test of `n` pages lets it go on. Number 0 is the first
/// reading. The `n` numbers after it add a page each, and the last `n` but the
/// final reading remove one each; they must not be refused.
pub open spec fn lets_go_on(n: int, answers: Seq<isize>, i: int) -> bool {
    if i == 0 {
        answers[i] == 0
    } else if i <= n || 2 * n + 3 <= i <= 3 * n + 2 {
        answers[i] >= 0
    } else {
        true
    }
}

/// None of the first `k` answers stops the test.
pub open spec fn all_go_on(n: int, answers: Seq<isize>, k: int) -> bool {
    forall|i: int| 0 <= i < k ==> #[trigger] lets_go_on(n, answers, i)
}

/// What a test of `n` pages does as number `k`, as long as nothing stops it.
/// Answer `n + 2` is the top of the grown heap.
pub open spec fn planned(n: int, answers: Seq<isize>, k: int) -> Action {
    if k == 0 {
        Action::ReadStats
    } else if k <= n {
        Action::Sbrk(4096)
    } else if k == n + 1 {
        Action::ReadStats
    } else if k == n + 2 {
        Action::Sbrk(0)
    } else if k <= 2 * n + 2 {
        Action::Touch((answers[n + 2] - (2 * n + 3 - k) * PAGE_SIZE) as usize)
    } else if k <= 3 * n + 2 {
        Action::Sbrk(-4096i32)
    } else if k == 3 * n + 3 {
        Action::ReadStats
    } else {
        Action::Finish(true)
    }
}

/// The step that goes with the planned action.
spec fn planned_step(n: int, answers: Seq<isize>, k: int) -> Step {
    if k == 0 {
        Step::ReadFirst
    } else if k <= n {
        Step::Grow((n + 1 - k) as usize)
    } else if k == n + 1 {
        Step::ReadGrown
    } else if k == n + 2 {
        Step::AskTop
    } else if k <= 2 * n + 2 {
        Step::Touch(
            (answers[n + 2] - (2 * n + 3 - k) * PAGE_SIZE) as usize,
            answers[n + 2] as usize,
        )
    } else if k <= 3 * n + 2 {
        Step::Shrink((3 * n + 3 - k) as usize)
    } else if k == 3 * n + 3 {
        Step::ReadLast
    } else {
        Step::Passed
    }
}

proof fn lemma_fed(pages: usize, answers: Seq<isize>, k: int)
    requires
        pages * PAGE_SIZE <= isize::MAX,
        0 <= k <= answers.len(),
        pages + 2 < k ==> answers[pages + 2] >= pages * PAGE_SIZE,
    ensures
        ({
            let t = fed((GrowShrink { pages, step: Step::ReadFirst, checksum: 0 }), answers, k);
            &&& t.pages == pages
            &&& t.step == if all_go_on(pages as int, answers, k) {
                planned_step(pages as int, answers, k)
            } else {
                Step::Failed
            }
        }),
    decreases k,
{
    if k > 0 {
        let n = pages as int;
        lemma_fed(pages, answers, k - 1);
        assert(all_go_on(n, answers, k) <==> all_go_on(n, answers, k - 1) && lets_go_on(
            n,
            answers,
            k - 1,
        )) by {
            if all_go_on(n, answers, k) {
                assert(lets_go_on(n, answers, k - 1));
            }
        }
    }
}

/// Whatever is answered, the test does what is planned until an answer stops
/// it, and then it fails and asks for nothing more. So it adds and removes as
/// many pages as it was made for, and it passes exactly if the first reading
/// and every change of the heap succeed.
pub proof fn law_grow_shrink_outcome(pages: usize, answers: Seq<isize>, k: int)
    requires
        pages * PAGE_SIZE <= isize::MAX,
        0 <= k <= answers.len(),
        pages + 2 < k ==> answers[pages + 2] >= pages * PAGE_SIZE,
    ensures
        fed((GrowShrink { pages, step: Step::ReadFirst, checksum: 0 }), answers, k).next()
            == if all_go_on(pages as int, answers, k) {
            planned(pages as int, answers, k)
        } else {
            Action::Finish(false)
        },
{
    lemma_fed(pages, answers, k);
}

/// The course of a test of `n` pages, as long as the first reading is answered
/// zero and no change of the heap is refused: a reading, `n` pages of 4096 bytes
/// that are added, a reading, the question for the top, the `n` pages below the
/// top that are touched in ascending order, `n` pages that are removed, a
/// reading, and the test has passed.
pub proof fn law_course(n: usize, answers: Seq<isize>, k: int)
    requires
        n * 4096 <= isize::MAX,
        0 <= k <= answers.len(),
        n + 2 < k ==> answers[n + 2] >= n * 4096,
        0 < k ==> answers[0] == 0,
        forall|i: int|
            0 < i < k && (i <= n || 2 * n + 3 <= i <= 3 * n + 2) ==> (#[trigger] answers[i]) >= 0,
    ensures
        ({
            let t = GrowShrink { pages: n, step: Step::ReadFirst, checksum: 0 };
            let a = fed(t, answers, k).next();
            &&& k == 0 || k == n + 1 || k == 3 * n + 3 ==> a == Action::ReadStats
            &&& 1 <= k <= n ==> a == Action::Sbrk(4096)
            &&& k == n + 2 ==> a == Action::Sbrk(0)
            &&& n + 3 <= k <= 2 * n + 2 ==> a == Action::Touch(
                (answers[n + 2] - 4096 * n + 4096 * (k - n - 3)) as usize,
            )
            &&& 2 * n + 3 <= k <= 3 * n + 2 ==> a == Action::Sbrk(-4096i32)
            &&& 3 * n + 4 <= k ==> a == Action::Finish(true)
        }),
{
    law_grow_shrink_outcome(n, answers, k);
    assert forall|i: int| 0 <= i < k implies #[trigger] lets_go_on(n as int, answers, i) by {
        if i > 0 {
            assert(i <= n || 2 * n + 3 <= i <= 3 * n + 2 ==> answers[i] >= 0);
        }
    }
    assert(all_go_on(n as int, answers, k));
}

/// A first reading that is not answered zero, or a change of the heap that is
/// refused, ends the test: it has failed, whatever is answered later. `i` is
/// the number of that answer.
pub proof fn law_failure(n: usize, answers: Seq<isize>, k: int, i: int)
    requires
        n * 4096 <= isize::MAX,
        0 <= i < k <= answers.len(),
        n + 2 < k ==> answers[n + 2] >= n * 4096,
        i == 0 ==> answers[0] != 0,
        i > 0 ==> answers[i] < 0 && (i <= n || 2 * n + 3 <= i <= 3 * n + 2),
    ensures
        fed((GrowShrink { pages: n, step: Step::ReadFirst, checksum: 0 }), answers, k).next()
            == Action::Finish(false),
{
    law_grow_shrink_outcome(n, answers, k);
    assert(!lets_go_on(n as int, answers, i));
}

/// The checksum is the sum of the words that were read back, each by its low
/// 32 bits, modulo 2^64. Nothing but a touch changes it.
pub proof fn law_checksum(t: GrowShrink, answer: isize)
    ensures
        t.next() is Touch ==> t.after(answer).checksum == (t.checksum + answer as int
            % 0x1_0000_0000) % 0x1_0000_0000_0000_0000,
        !(t.next() is Touch) ==> t.after(answer).checksum == t.checksum,
        t.after(answer).pages == t.pages,
{
    assert(answer as u32 == answer as int % 0x1_0000_0000) by {
        lemma_low_half(answer);
    }
}

proof fn lemma_low_half(x: isize)
    ensures
        x as u32 == x as int % 0x1_0000_0000,
{
    let y = x as i64;
    assert(x as u32 == y as u32) by (bit_vector)
        requires
            y == x as i64,
    ;
    let z = y as u64;
    assert(y as u32 == z as u32 && z as u32 == z % 0x1_0000_0000) by (bit_vector)
        requires
            z == y as u64,
    ;
    if y < 0 {
        assert(z == y + 0x1_0000_0000_0000_0000) by (bit_vector)
            requires
                y < 0,
                z == y as u64,
        ;
    } else {
        assert(z == y) by (bit_vector)
            requires
                0 <= y,
                z == y as u64,
        ;
    }
}

/// What happened between two readings of the heap counters.
#[derive(Debug, Clone, Copy, PartialEq, Eq, Structural)]
pub struct StatsDiff {
    pub allocs: u64,
    pub frees: u64,
    pub bytes_allocated: u64,
    pub bytes_freed: u64,
    pub slab_hits: u64,
    pub buddy_calls: u64,
    /// Requests that the slab caches took, in percent, rounded down.
    pub hit_pct: u64,
    pub oom: u64,
    pub buddy_used_kb: u64,
    pub buddy_total_kb: u64,
    pub slab_provisioned_kb: u64,
}

/// No counter went backwards.
pub open spec fn no_reset(before: KernelHeapStats, after: KernelHeapStats) -> bool {
    &&& before.allocs <= after.allocs
    &&& before.frees <= after.frees
    &&& before.bytes_allocated <= after.bytes_allocated
    &&& before.bytes_freed <= after.bytes_freed
    &&& before.slab_hits <= after.slab_hits
    &&& before.buddy_calls <= after.buddy_calls
}

/// Compares two readings of the heap counters.
pub fn stats_diff(before: &KernelHeapStats, after: &KernelHeapStats) -> (r: StatsDiff)
    requires
        no_reset(*before, *after),
        (after.slab_hits - before.slab_hits) * 100 <= u64::MAX,
        (after.slab_hits - before.slab_hits) + (after.buddy_calls - before.buddy_calls) <= u64::MAX,
    ensures
        r.allocs == after.allocs - before.allocs,
        r.frees == after.frees - before.frees,
        r.bytes_allocated == after.bytes_allocated - before.bytes_allocated,
        r.bytes_freed == after.bytes_freed - before.bytes_freed,
        r.slab_hits == after.slab_hits - before.slab_hits,
        r.buddy_calls == after.buddy_calls - before.buddy_calls,
        r.hit_pct == if r.slab_hits + r.buddy_calls > 0 {
            100 * r.slab_hits as int / (r.slab_hits + r.buddy_calls)
        } else {
            0
        },
        r.oom == after.oom,
        r.buddy_used_kb == after.buddy_used / 1024,
        r.buddy_total_kb == after.buddy_total / 1024,
        r.slab_provisioned_kb == after.slab_provisioned / 1024,
{
    let slab: u64 = after.slab_hits - before.slab_hits;
    let buddy: u64 = after.buddy_calls - before.buddy_calls;
    let total_routed: u64 = slab + buddy;
    let hit_pct: u64 = if total_routed > 0 {
        100u64 * slab / total_routed
    } else {
        0
    };
    StatsDiff {
        allocs: after.allocs - before.allocs,
        frees: after.frees - before.frees,
        bytes_allocated: after.bytes_allocated - before.bytes_allocated,
        bytes_freed: after.bytes_freed - before.bytes_freed,
        slab_hits: slab,
        buddy_calls: buddy,
        hit_pct,
        oom: after.oom,
        buddy_used_kb: after.buddy_used / 1024,
        buddy_total_kb: after.buddy_total / 1024,
        slab_provisioned_kb: after.slab_provisioned / 1024,
    }
}

/// Microseconds per call, of calls that took so many milliseconds together.
pub fn us_per_call(ms: u64, calls: u64) -> (r: u64)
    requires
        ms * 1000 <= u64::MAX,
    ensures
        r == if calls > 0 {
            ms as int * 1000 / calls as int
        } else {
            0
        },
{
    if calls > 0 {
        ms * 1000 / calls
    } else {
        0
    }
}

} // verus!
