//! What holds of the stride scheduler.

use crate::manager;
use crate::manager::{Task, TaskStatus, BIG_STRIDE, MIN_PRIORITY};
use vstd::prelude::*;

verus! {

/// Half a `BIG_STRIDE`: the most that one turn can cost.
pub open spec fn max_pass() -> int {
    BIG_STRIDE as int / MIN_PRIORITY as int
}

/// The queue after the picked task has had its turn and is ready again.
pub open spec fn round(q: Seq<Task>) -> Seq<Task> {
    let i = manager::first_min(q);
    q.remove(i).push(q[i].advanced())
}

/// The queue after `k` turns.
pub open spec fn rounds(q: Seq<Task>, k: int) -> Seq<Task>
    decreases k,
{
    if k <= 0 {
        q
    } else {
        round(rounds(q, k - 1))
    }
}

/// How many of the next `k` turns go to the task `id`.
pub open spec fn picks(q: Seq<Task>, k: int, id: usize) -> int
    decreases k,
{
    if k <= 0 {
        0
    } else {
        let u = rounds(q, k - 1);
        picks(q, k - 1, id) + if u[manager::first_min(u)].id == id {
            1int
        } else {
            0int
        }
    }
}

/// No two ready tasks are further apart than one turn can carry them.
pub open spec fn close(q: Seq<Task>) -> bool {
    forall|i: int, j: int|
        0 <= i < q.len() && 0 <= j < q.len() ==> (#[trigger] q[i]).stride - (#[trigger] q[j]).stride
            <= max_pass()
}

/// The next turn does not wrap the stride of the task that gets it.
pub open spec fn no_wrap(q: Seq<Task>) -> bool {
    let t = q[manager::first_min(q)];
    t.stride + manager::pass(t.priority) <= u64::MAX
}

/// None of the next `k` turns wraps a stride.
pub open spec fn none_wraps(q: Seq<Task>, k: int) -> bool {
    forall|j: int| 0 <= j < k ==> no_wrap(#[trigger] rounds(q, j))
}

pub open spec fn distinct(q: Seq<Task>) -> bool {
    forall|i: int, j: int|
        0 <= i < q.len() && 0 <= j < q.len() && i != j ==> (#[trigger] q[i]).id != (
        #[trigger] q[j]).id
}

/// The task `id` is ready with this stride and this priority.
pub open spec fn stands(q: Seq<Task>, id: usize, stride: int, priority: u64) -> bool {
    exists|i: int|
        0 <= i < q.len() && (#[trigger] q[i]).id == id && q[i].stride == stride && q[i].priority
            == priority
}

/// A higher priority never makes a turn more expensive, and no turn costs
/// more than half a `BIG_STRIDE`.
pub proof fn law_pass_order(p: u64, r: u64)
    requires
        p <= r,
    ensures
        0 <= manager::pass(r) <= manager::pass(p) <= max_pass(),
{
    let d = if p >= MIN_PRIORITY {
        p as int
    } else {
        MIN_PRIORITY as int
    };
    let e = if r >= MIN_PRIORITY {
        r as int
    } else {
        MIN_PRIORITY as int
    };
    let b = BIG_STRIDE as int;
    vstd::arithmetic::div_mod::lemma_div_is_ordered_by_denominator(b, d, e);
    vstd::arithmetic::div_mod::lemma_div_is_ordered_by_denominator(b, MIN_PRIORITY as int, d);
    vstd::arithmetic::div_mod::lemma_div_pos_is_pos(b, e);
}

proof fn lemma_remove(q: Seq<Task>, i: int)
    requires
        0 <= i < q.len(),
    ensures
        forall|j: int|
            0 <= j < q.len() - 1 ==> #[trigger] q.remove(i)[j] == q[if j < i {
                j
            } else {
                j + 1
            }],
        q.remove(i).len() == q.len() - 1,
{
}

/// A turn keeps the strides close together.
pub proof fn law_stays_close(q: Seq<Task>)
    requires
        q.len() > 0,
        close(q),
        no_wrap(q),
    ensures
        close(round(q)),
        round(q).len() == q.len(),
{
    manager::lemma_first_min(q);
    let i = manager::first_min(q);
    let t = q[i];
    law_pass_order(t.priority, t.priority);
    lemma_remove(q, i);
    let u = round(q);
    let last = q.len() - 1;
    assert(u[last] == t.advanced());
    assert(t.advanced().stride == t.stride + manager::pass(t.priority));
    assert forall|j: int| 0 <= j < last implies t.stride <= (#[trigger] u[j]).stride && exists|k: int|
        0 <= k < q.len() && q[k] == u[j] by {
        let k = if j < i {
            j
        } else {
            j + 1
        };
        assert(u[j] == q[k]);
    }
    assert forall|j: int, k: int| 0 <= j < u.len() && 0 <= k < u.len() implies (
    #[trigger] u[j]).stride - (#[trigger] u[k]).stride <= max_pass() by {
        if j < last && k < last {
            let j2 = choose|x: int| 0 <= x < q.len() && q[x] == u[j];
            let k2 = choose|x: int| 0 <= x < q.len() && q[x] == u[k];
            assert(q[j2].stride - q[k2].stride <= max_pass());
        } else if j < last {
            let j2 = choose|x: int| 0 <= x < q.len() && q[x] == u[j];
            assert(q[j2].stride - q[i].stride <= max_pass());
        } else if k < last {
            let k2 = choose|x: int| 0 <= x < q.len() && q[x] == u[k];
            assert(q[i].stride <= q[k2].stride);
        }
    }
}

/// A turn advances the picked task by its pass and leaves the others alone.
proof fn lemma_round_stands(q: Seq<Task>, id: usize, stride: int, priority: u64)
    requires
        q.len() > 0,
        distinct(q),
        stands(q, id, stride, priority),
        no_wrap(q),
    ensures
        distinct(round(q)),
        stands(
            round(q),
            id,
            stride + if q[manager::first_min(q)].id == id {
                manager::pass(priority)
            } else {
                0
            },
            priority,
        ),
{
    manager::lemma_first_min(q);
    let i = manager::first_min(q);
    lemma_remove(q, i);
    let u = round(q);
    let last = q.len() - 1;
    law_pass_order(priority, priority);
    let k = choose|k: int|
        0 <= k < q.len() && (#[trigger] q[k]).id == id && q[k].stride == stride && q[k].priority
            == priority;
    assert(u[last] == q[i].advanced());
    if k == i {
        assert(u[last].id == id);
    } else {
        let j = if k < i {
            k
        } else {
            k - 1
        };
        assert(u[j] == q[k]);
        assert(q[k].id != q[i].id);
    }
    assert forall|a: int, b: int| 0 <= a < u.len() && 0 <= b < u.len() && a != b implies (
    #[trigger] u[a]).id != (#[trigger] u[b]).id by {
        let a2 = if a == last {
            i
        } else if a < i {
            a
        } else {
            a + 1
        };
        let b2 = if b == last {
            i
        } else if b < i {
            b
        } else {
            b + 1
        };
        assert(u[a].id == q[a2].id && u[b].id == q[b2].id);
    }
}

proof fn lemma_rounds(q: Seq<Task>, k: int, id: usize, stride: int, priority: u64)
    requires
        q.len() > 0,
        0 <= k,
        close(q),
        distinct(q),
        none_wraps(q, k),
        stands(q, id, stride, priority),
    ensures
        close(rounds(q, k)),
        distinct(rounds(q, k)),
        rounds(q, k).len() == q.len(),
        stands(
            rounds(q, k),
            id,
            stride + picks(q, k, id) * manager::pass(priority),
            priority,
        ),
    decreases k,
{
    if k > 0 {
        lemma_rounds(q, k - 1, id, stride, priority);
        let u = rounds(q, k - 1);
        let n = picks(q, k - 1, id);
        let s = stride + n * manager::pass(priority);
        assert(no_wrap(u));
        law_stays_close(u);
        lemma_round_stands(u, id, s, priority);
        let p = manager::pass(priority);
        assert((n + 1) * p == n * p + p) by (nonlinear_arith);
    }
}

/// Proportional share: after any number of turns in which no stride wraps,
/// what two tasks have been charged differs by at most half a `BIG_STRIDE`.
/// Since a turn is charged `BIG_STRIDE / priority`, the turns are shared in
/// proportion to the priorities.
pub proof fn law_fair_share(q: Seq<Task>, k: int, a: Task, b: Task)
    requires
        0 <= k,
        close(q),
        distinct(q),
        none_wraps(q, k),
        q.contains(a),
        q.contains(b),
    ensures
        ({
            let charged_a = a.stride + picks(q, k, a.id) * manager::pass(a.priority);
            let charged_b = b.stride + picks(q, k, b.id) * manager::pass(b.priority);
            &&& charged_a - charged_b <= max_pass()
            &&& charged_b - charged_a <= max_pass()
        }),
{
    let i = choose|i: int| 0 <= i < q.len() && q[i] == a;
    let j = choose|j: int| 0 <= j < q.len() && q[j] == b;
    assert(stands(q, a.id, a.stride as int, a.priority));
    assert(stands(q, b.id, b.stride as int, b.priority));
    lemma_rounds(q, k, a.id, a.stride as int, a.priority);
    lemma_rounds(q, k, b.id, b.stride as int, b.priority);
}

/// A turn costs what is left of 2^20 when it is divided by the priority,
/// rounded down. Priorities below two count as two. So the cost times the
/// priority is 2^20 up to less than the priority, and as long as the priority
/// is at most 2^20 a turn is not free.
pub proof fn law_turn_cost(p: u64)
    ensures
        2 <= p ==> manager::pass(p) * p <= 0x10_0000 < (manager::pass(p) + 1) * p,
        2 <= p <= 0x10_0000 ==> manager::pass(p) >= 1,
        p < 2 ==> manager::pass(p) == 0x8_0000,
        0 <= manager::pass(p) <= 0x8_0000,
{
    law_pass_order(p, p);
    if 2 <= p {
        let b = BIG_STRIDE as int;
        let d = p as int;
        let c = manager::pass(p);
        vstd::arithmetic::div_mod::lemma_fundamental_div_mod(b, d);
        vstd::arithmetic::div_mod::lemma_mod_bound(b, d);
        assert(c * d == d * c) by (nonlinear_arith);
        assert((c + 1) * d == c * d + d) by (nonlinear_arith);
        if d <= b && c < 1 {
            assert((c + 1) * d <= d) by (nonlinear_arith)
                requires
                    c < 1,
                    d > 0,
            ;
        }
    }
}

/// A task that is picked is charged for one turn, modulo 2^64, and is
/// otherwise the same task.
pub proof fn law_charged(t: Task, c: int)
    requires
        0 <= c,
        2 <= t.priority,
        c * t.priority <= 0x10_0000 < (c + 1) * t.priority,
    ensures
        t.advanced().stride == t.stride + c || t.advanced().stride == t.stride + c
            - 0x1_0000_0000_0000_0000,
        t.advanced().id == t.id,
        t.advanced().priority == t.priority,
        t.advanced().status == t.status,
{
    let d = t.priority as int;
    let e = manager::pass(t.priority);
    law_turn_cost(t.priority);
    if c < e {
        assert((c + 1) * d <= e * d) by (nonlinear_arith)
            requires
                c + 1 <= e,
                d > 0,
        ;
    } else if e < c {
        assert((e + 1) * d <= c * d) by (nonlinear_arith)
            requires
                e + 1 <= c,
                d > 0,
        ;
    }
}

/// No ready task has a smaller stride than the one that is picked, and of
/// those with the same stride the one that has been ready for longest is
/// picked.
pub proof fn law_pick(q: Seq<Task>, j: int)
    requires
        0 <= j < q.len(),
    ensures
        0 <= manager::first_min(q) < q.len(),
        q[manager::first_min(q)].stride <= q[j].stride,
        q[manager::first_min(q)].stride == q[j].stride ==> manager::first_min(q) <= j,
        manager::is_first_min(q, manager::first_min(q)),
{
    manager::lemma_first_min(q);
}

/// A task that is woken up is ready and otherwise the same task.
pub proof fn law_woken(t: Task)
    ensures
        t.woken().status == TaskStatus::Ready,
        t.woken().id == t.id,
        t.woken().stride == t.stride,
        t.woken().priority == t.priority,
{
}

/// The turns of two tasks that were close together are shared in proportion to
/// their priorities. What rounding costs is less than the priority in 2^20;
/// but for that, the turns of one divided by its priority are at most those of
/// the other divided by its priority, and one.
pub proof fn law_proportional(q: Seq<Task>, k: int, a: Task, b: Task)
    requires
        0 <= k,
        close(q),
        distinct(q),
        none_wraps(q, k),
        q.contains(a),
        q.contains(b),
        2 <= a.priority,
        2 <= b.priority,
    ensures
        picks(q, k, a.id) * (0x10_0000 - a.priority + 1) * b.priority <= (picks(q, k, b.id)
            + b.priority) * 0x10_0000 * a.priority,
        // Without rounding, where the priorities divide 2^20.
        0x10_0000int % (a.priority as int) == 0 && 0x10_0000int % (b.priority as int) == 0 ==> picks(q, k, a.id)
            * b.priority <= (picks(q, k, b.id) + b.priority) * a.priority,
{
    law_fair_share(q, k, a, b);
    law_turn_cost(a.priority);
    law_turn_cost(b.priority);
    lemma_picks(q, k, a.id);
    lemma_picks(q, k, b.id);
    let na = picks(q, k, a.id);
    let nb = picks(q, k, b.id);
    let pa = a.priority as int;
    let pb = b.priority as int;
    let ca = manager::pass(a.priority);
    let cb = manager::pass(b.priority);
    let big = 0x10_0000int;
    let i = choose|i: int| 0 <= i < q.len() && q[i] == a;
    let j = choose|j: int| 0 <= j < q.len() && q[j] == b;
    assert(q[j].stride - q[i].stride <= max_pass());
    assert(na * ca <= nb * cb + big);
    lemma_share(na, nb, pa, pb, ca, cb, big);
    if big % pa == 0 && big % pb == 0 {
        vstd::arithmetic::div_mod::lemma_fundamental_div_mod(big, pa);
        vstd::arithmetic::div_mod::lemma_fundamental_div_mod(big, pb);
        assert(ca * pa == big) by (nonlinear_arith)
            requires
                big == pa * (big / pa),
                ca * pa <= big < (ca + 1) * pa,
                pa > 0,
        ;
        assert(cb * pb == big) by (nonlinear_arith)
            requires
                big == pb * (big / pb),
                cb * pb <= big < (cb + 1) * pb,
                pb > 0,
        ;
        lemma_share_exact(na, nb, pa, pb, ca, cb, big);
    }
}

proof fn lemma_share(na: int, nb: int, pa: int, pb: int, ca: int, cb: int, big: int)
    requires
        0 <= na,
        0 <= nb,
        0 < pa,
        0 < pb,
        0 <= ca,
        0 <= cb,
        0 < big,
        big < (ca + 1) * pa,
        cb * pb <= big,
        na * ca <= nb * cb + big,
    ensures
        na * (big - pa + 1) * pb <= (nb + pb) * big * pa,
{
    assert((ca + 1) * pa == ca * pa + pa) by (nonlinear_arith);
    let u = ca * pa;
    assert(na * (big - pa + 1) <= na * u) by (nonlinear_arith)
        requires
            big - pa + 1 <= u,
            0 <= na,
    ;
    assert(na * u == na * ca * pa) by (nonlinear_arith)
        requires
            u == ca * pa,
    ;
    let x = na * ca;
    let y = nb * cb + big;
    assert(x * pa <= y * pa) by (nonlinear_arith)
        requires
            x <= y,
            0 < pa,
    ;
    let l = na * (big - pa + 1);
    assert(l <= y * pa);
    assert(l * pb <= y * pa * pb) by (nonlinear_arith)
        requires
            l <= y * pa,
            0 < pb,
    ;
    assert(y * pb == nb * (cb * pb) + big * pb) by (nonlinear_arith)
        requires
            y == nb * cb + big,
    ;
    let w = cb * pb;
    assert(nb * w <= nb * big) by (nonlinear_arith)
        requires
            w <= big,
            0 <= nb,
    ;
    assert((nb + pb) * big == nb * big + big * pb) by (nonlinear_arith);
    let z = y * pb;
    let t = (nb + pb) * big;
    assert(z <= t);
    assert(z * pa <= t * pa) by (nonlinear_arith)
        requires
            z <= t,
            0 < pa,
    ;
    assert(y * pa * pb == z * pa) by (nonlinear_arith)
        requires
            z == y * pb,
    ;
}

proof fn lemma_share_exact(na: int, nb: int, pa: int, pb: int, ca: int, cb: int, big: int)
    requires
        0 <= na,
        0 <= nb,
        0 < pa,
        0 < pb,
        0 < big,
        ca * pa == big,
        cb * pb == big,
        na * ca <= nb * cb + big,
    ensures
        na * pb <= (nb + pb) * pa,
{
    // Both sides times `big`.
    let x = na * ca;
    let y = nb * cb + big;
    assert(x * (pa * pb) <= y * (pa * pb)) by (nonlinear_arith)
        requires
            x <= y,
            0 < pa,
            0 < pb,
    ;
    assert(x * (pa * pb) == na * pb * big) by (nonlinear_arith)
        requires
            x == na * ca,
            ca * pa == big,
    ;
    assert(y * (pa * pb) == nb * (cb * pb) * pa + big * (pa * pb)) by (nonlinear_arith)
        requires
            y == nb * cb + big,
    ;
    assert(nb * big * pa + big * (pa * pb) == (nb + pb) * pa * big) by (nonlinear_arith);
    let l = na * pb;
    let r = (nb + pb) * pa;
    assert(l * big <= r * big);
    assert(l <= r) by (nonlinear_arith)
        requires
            l * big <= r * big,
            0 < big,
    ;
}

proof fn lemma_picks(q: Seq<Task>, k: int, id: usize)
    ensures
        0 <= picks(q, k, id),
        0 <= k ==> picks(q, k, id) <= k,
    decreases k,
{
    if k > 0 {
        lemma_picks(q, k - 1, id);
    }
}

/// The turns of the first `m` tasks.
spec fn picks_upto(q: Seq<Task>, k: int, m: int) -> int
    decreases m,
{
    if m <= 0 {
        0
    } else {
        picks_upto(q, k, m - 1) + picks(q, k, q[m - 1].id)
    }
}

/// Turns neither bring new tasks nor lose any.
proof fn lemma_same_tasks(q: Seq<Task>, k: int, j: int)
    requires
        q.len() > 0,
        0 <= j < q.len(),
    ensures
        rounds(q, k).len() == q.len(),
        exists|i: int| 0 <= i < q.len() && (#[trigger] q[i]).id == rounds(q, k)[j].id,
    decreases k,
{
    if k <= 0 {
        assert(q[j].id == rounds(q, k)[j].id);
    } else {
        lemma_same_tasks(q, k - 1, 0);
        let u = rounds(q, k - 1);
        manager::lemma_first_min(u);
        let i = manager::first_min(u);
        lemma_remove(u, i);
        let j2 = if j == q.len() - 1 {
            i
        } else if j < i {
            j
        } else {
            j + 1
        };
        lemma_same_tasks(q, k - 1, j2);
        assert(round(u)[j].id == u[j2].id);
    }
}

/// One more turn is one more for exactly one of the tasks.
proof fn lemma_picks_step(q: Seq<Task>, k: int, m: int, i: int)
    requires
        0 < k,
        distinct(q),
        0 <= m <= q.len(),
        0 <= i < q.len(),
        q[i].id == rounds(q, k - 1)[manager::first_min(rounds(q, k - 1))].id,
    ensures
        picks_upto(q, k, m) == picks_upto(q, k - 1, m) + if i < m {
            1int
        } else {
            0int
        },
    decreases m,
{
    if m > 0 {
        lemma_picks_step(q, k, m - 1, i);
        if i != m - 1 {
            assert(q[i].id != q[m - 1].id);
        }
    }
}

/// Every turn goes to one of the tasks.
proof fn lemma_picks_total(q: Seq<Task>, k: int)
    requires
        0 <= k,
        q.len() > 0,
        distinct(q),
    ensures
        picks_upto(q, k, q.len() as int) == k,
    decreases k,
{
    if k > 0 {
        lemma_picks_total(q, k - 1);
        let u = rounds(q, k - 1);
        lemma_same_tasks(q, k - 1, 0);
        manager::lemma_first_min(u);
        lemma_same_tasks(q, k - 1, manager::first_min(u));
        let i = choose|i: int| 0 <= i < q.len() && (#[trigger] q[i]).id == u[manager::first_min(u)].id;
        lemma_picks_step(q, k, q.len() as int, i);
    } else {
        lemma_no_picks(q, q.len() as int);
    }
}

proof fn lemma_no_picks(q: Seq<Task>, m: int)
    ensures
        picks_upto(q, 0, m) == 0,
    decreases m,
{
    if m > 0 {
        lemma_no_picks(q, m - 1);
    }
}

/// As long as a task gets no turn, the others cannot run far ahead of it.
proof fn lemma_waiting(q: Seq<Task>, k: int, a: Task, m: int)
    requires
        0 <= k,
        close(q),
        distinct(q),
        none_wraps(q, k),
        q.contains(a),
        picks(q, k, a.id) == 0,
        forall|i: int| 0 <= i < q.len() ==> (#[trigger] q[i]).priority <= 0x10_0000,
        0 <= m <= q.len(),
    ensures
        picks_upto(q, k, m) <= m * 0x10_0000,
    decreases m,
{
    if m > 0 {
        lemma_waiting(q, k, a, m - 1);
        let b = q[m - 1];
        assert(q.contains(b));
        law_fair_share(q, k, b, a);
        law_turn_cost(b.priority);
        lemma_picks(q, k, b.id);
        let i = choose|i: int| 0 <= i < q.len() && q[i] == a;
        assert(q[i].stride - q[m - 1].stride <= max_pass());
        let n = picks(q, k, b.id);
        let c = manager::pass(b.priority);
        assert(picks(q, k, a.id) * manager::pass(a.priority) == 0) by (nonlinear_arith)
            requires
                picks(q, k, a.id) == 0,
        ;
        assert(n <= n * c) by (nonlinear_arith)
            requires
                0 <= n,
                1 <= c,
        ;
    }
}

/// No ready task waits forever: each gets a turn among the next 2^20 for every
/// ready task, and one more.
pub proof fn law_no_starvation(q: Seq<Task>, k: int, a: Task)
    requires
        close(q),
        distinct(q),
        none_wraps(q, k),
        q.contains(a),
        forall|i: int| 0 <= i < q.len() ==> (#[trigger] q[i]).priority <= 0x10_0000,
        k > q.len() * 0x10_0000,
    ensures
        picks(q, k, a.id) >= 1,
{
    lemma_picks(q, k, a.id);
    if picks(q, k, a.id) == 0 {
        let i = choose|i: int| 0 <= i < q.len() && q[i] == a;
        lemma_picks_total(q, k);
        lemma_waiting(q, k, a, q.len() as int);
    }
}

} // verus!
