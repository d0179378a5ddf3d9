//! Figures of the user-space benchmarks.

use vstd::prelude::*;

verus! {

/// Work units that a worker does between two looks at the clock.
pub const QUANTUM: u64 = 200;

/// Quotient of signed numbers, rounded towards zero.
pub open spec fn quotient(a: int, b: int) -> int {
    if a >= 0 {
        a / b
    } else {
        -((-a) / b)
    }
}

/// Times of fork and of the wait after it, summed up over rounds.
#[derive(Debug, Clone, Copy, PartialEq, Eq, Structural)]
pub struct ForkTimes {
    pub fork_us: i64,
    pub wait_us: i64,
    pub rounds: i64,
}

impl ForkTimes {
    pub fn new() -> (r: ForkTimes)
        ensures
            r == (ForkTimes { fork_us: 0, wait_us: 0, rounds: 0 }),
    {
        ForkTimes { fork_us: 0, wait_us: 0, rounds: 0 }
    }

    /// Adds a round: fork was called at `t0` and returned at `t1`, the child
    /// had been waited for at `t2`.
    pub fn record(&mut self, t0: isize, t1: isize, t2: isize)
        requires
            isize::MIN <= t1 - t0 <= isize::MAX,
            isize::MIN <= t2 - t1 <= isize::MAX,
            i64::MIN <= old(self).fork_us + (t1 - t0) <= i64::MAX,
            i64::MIN <= old(self).wait_us + (t2 - t1) <= i64::MAX,
            old(self).rounds < i64::MAX,
        ensures
            *final(self) == (ForkTimes {
                fork_us: (old(self).fork_us + (t1 - t0)) as i64,
                wait_us: (old(self).wait_us + (t2 - t1)) as i64,
                rounds: (old(self).rounds + 1) as i64,
            }),
    {
        self.fork_us = self.fork_us + (t1 - t0) as i64;
        self.wait_us = self.wait_us + (t2 - t1) as i64;
        self.rounds = self.rounds + 1;
    }

    /// Average times of fork and of the wait.
    pub fn averages(&self) -> (r: (i64, i64))
        requires
            self.rounds > 0,
        ensures
            r.0 == quotient(self.fork_us as int, self.rounds as int),
            r.1 == quotient(self.wait_us as int, self.rounds as int),
    {
        (self.fork_us / self.rounds, self.wait_us / self.rounds)
    }
}

/// Average time per page.
pub fn us_per_page(us: isize, pages: usize) -> (r: isize)
    requires
        pages <= isize::MAX,
    ensures
        r == if pages == 0 {
            0
        } else {
            quotient(us as int, pages as int)
        },
{
    if pages == 0 {
        0
    } else {
        us / pages as isize
    }
}

/// A worker that looks at the clock at `now` stops: its deadline has come.
pub fn worker_done(now: isize, deadline: isize) -> (r: bool)
    ensures
        r == (now >= deadline),
{
    now >= deadline
}

/// The work of a worker after one more quantum.
pub fn quantum(work: u64) -> (r: u64)
    ensures
        r == work.wrapping_add(QUANTUM),
{
    let mut w: u64 = work;
    let mut i: u64 = 0;
    while i < QUANTUM
        invariant
            i <= QUANTUM,
            w == work.wrapping_add(i),
        decreases QUANTUM - i,
    {
        w = w.wrapping_add(1);
        i = i + 1;
    }
    w
}

/// A quotient is rounded towards zero: what it leaves is smaller than the
/// divisor and has the sign of the dividend.
pub proof fn law_quotient(a: int, b: int)
    requires
        0 < b,
    ensures
        0 <= a ==> 0 <= a - quotient(a, b) * b < b,
        a <= 0 ==> -b < a - quotient(a, b) * b <= 0,
{
    if a >= 0 {
        vstd::arithmetic::div_mod::lemma_fundamental_div_mod(a, b);
        vstd::arithmetic::div_mod::lemma_mod_bound(a, b);
        assert(quotient(a, b) * b == b * (a / b)) by (nonlinear_arith)
            requires
                quotient(a, b) == a / b,
        ;
    } else {
        let c = -a;
        vstd::arithmetic::div_mod::lemma_fundamental_div_mod(c, b);
        vstd::arithmetic::div_mod::lemma_mod_bound(c, b);
        assert(quotient(a, b) * b == -(b * (c / b))) by (nonlinear_arith)
            requires
                quotient(a, b) == -(c / b),
        ;
    }
}

/// A quantum is 200 units of work.
pub proof fn law_quantum(work: u64)
    ensures
        work.wrapping_add(QUANTUM) == (work + 200) % 0x1_0000_0000_0000_0000,
{
}

} // verus!
