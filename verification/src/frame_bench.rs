//! Workloads that compare the frame allocators.
//!
//! Each runs against a fresh allocator over one arena: throughput on single
//! pages, contiguous runs after a full churn, and a mixed churn on a small
//! working set.

use crate::blocks;
use crate::blocks::Block;
use crate::buddy;
use crate::frame_allocator::{FrameView, PhysPageNum};
use crate::frame_hybrid;
use crate::frame_hybrid::HybridView;
use crate::frame_laws;
use crate::frame_model;
use crate::frame_model::MAX_ORDER;
use crate::frame_tier;
use crate::frame_tier::{StackView, Tier, TierView};
use crate::powers;
use vstd::prelude::*;

verus! {

/// Pages of the arena that the workloads run on.
pub const ARENA: usize = 256;

/// Rounds of the mixed churn.
pub const CHURN_ROUNDS: usize = 1024;

/// Pages that the mixed churn holds.
pub const WORKING_SET: usize = 64;

#[derive(Debug, Clone, Copy, PartialEq, Eq, Structural)]
pub enum TierKind {
    Stack,
    Buddy,
    Hybrid,
}

/// A fresh allocator over `[base, end)`.
pub open spec fn fresh(kind: TierKind, base: int, end: int) -> TierView {
    let arena = FrameView { blocks: frame_model::given(Set::empty(), base, end), base, end };
    match kind {
        TierKind::Stack => TierView::Stack(
            StackView { current: base, end, recycled: Seq::empty() },
        ),
        TierKind::Buddy => TierView::Buddy(arena),
        TierKind::Hybrid => TierView::Hybrid(
            HybridView { cache: Seq::empty(), backing: arena },
        ),
    }
}

/// The allocator after `n` requests for one page, and the pages handed out.
pub open spec fn take(t: TierView, n: int) -> (TierView, Seq<PhysPageNum>)
    decreases n,
{
    if n <= 0 {
        (t, Seq::empty())
    } else {
        let (u, v) = take(t, n - 1);
        (u.after_alloc(), v.push(PhysPageNum(u.next().unwrap())))
    }
}

/// The allocator after the pages have been given back in order.
pub open spec fn give(t: TierView, v: Seq<PhysPageNum>) -> TierView
    decreases v.len(),
{
    if v.len() == 0 {
        t
    } else {
        give(t.after_dealloc(v[0].0), v.drop_first())
    }
}

/// The page of the working set that round `i` replaces.
pub open spec fn victim(i: usize) -> int {
    (i.wrapping_mul(1664525).wrapping_add(1013904223) % WORKING_SET) as int
}

/// The allocator and the working set after the rounds from `i` on, each of
/// which gives one page back and takes another.
pub open spec fn churned(t: TierView, held: Seq<PhysPageNum>, i: int, rounds: int) -> (
    TierView,
    Seq<PhysPageNum>,
)
    decreases rounds - i,
{
    if i >= rounds {
        (t, held)
    } else {
        let j = victim(i as usize);
        let u = t.after_dealloc(held[j].0);
        churned(u.after_alloc(), held.update(j, PhysPageNum(u.next().unwrap())), i + 1, rounds)
    }
}

/// The pages of `v` are held: distinct, not free, and known to the allocator.
pub open spec fn held_from(t: TierView, v: Seq<PhysPageNum>) -> bool {
    &&& v.no_duplicates()
    &&& forall|i: int|
        0 <= i < v.len() ==> !t.is_free((#[trigger] v[i]).0 as int) && t.accepts(v[i].0 as int)
            && v[i].0 < usize::MAX
}

/// An aligned run of the smallest power of two of at least `k` pages lies in
/// `[base, end)`.
pub open spec fn arena_has_run(base: int, end: int, k: int) -> bool {
    &&& frame_model::order_of(k) <= MAX_ORDER
    &&& exists|c: Block|
        c.natural() && c.order == frame_model::order_of(k) && base <= #[trigger] c.addr && c.end()
            <= end
}

pub open spec fn has_page(v: Seq<PhysPageNum>, x: int) -> bool {
    0 <= x <= usize::MAX && v.contains(PhysPageNum(x as usize))
}

/// A fresh allocator has every page of its arena free.
pub proof fn lemma_fresh(kind: TierKind, base: int, end: int)
    requires
        0 <= base <= end <= usize::MAX,
    ensures
        ({
            let t = fresh(kind, base, end);
            &&& t.inv()
            &&& t.tidy()
            &&& forall|x: int| t.is_free(x) <==> base <= x < end
            &&& forall|x: int| base <= x < end ==> t.accepts(x)
            &&& t.pages().finite()
            &&& t.pages().len() == end - base
        }),
{
    let t = fresh(kind, base, end);
    frame_laws::law_fresh_arena(base, end);
    vstd::set_lib::lemma_int_range(base, end);
    assert(t.pages() =~= vstd::set_lib::set_int_range(base, end));
}

/// As long as enough pages are free, each request is served with one of them.
pub proof fn lemma_take(t: TierView, n: int)
    requires
        t.inv(),
        0 <= n,
        t.pages().finite(),
        n <= t.pages().len(),
        forall|x: int| t.is_free(x) ==> #[trigger] t.accepts(x) && x < usize::MAX,
    ensures
        ({
            let (u, v) = take(t, n);
            &&& u.inv()
            &&& v.len() == n
            &&& held_from(u, v)
            &&& forall|x: int| t.is_free(x) <==> u.is_free(x) || has_page(v, x)
            &&& t.tidy() ==> u.tidy()
            &&& forall|x: int| u.accepts(x) <==> t.accepts(x)
            &&& u.pages().finite()
            &&& u.pages().len() == t.pages().len() - n
        }),
    decreases n,
{
    if n > 0 {
        lemma_take(t, n - 1);
        let (u, v) = take(t, n - 1);
        let w = u.after_alloc();
        frame_tier::lemma_tier_alloc(u);
        let some = u.pages().choose();
        assert(u.pages().contains(some));
        assert(u.is_free(some));
        let p = u.next().unwrap();
        assert(w.pages() =~= u.pages().remove(p as int));
        let q = PhysPageNum(p);
        let z = v.push(q);
        assert forall|i: int, j: int|
            0 <= i < z.len() && 0 <= j < z.len() && i != j implies z[i] != z[j] by {
            if i == n - 1 {
                assert(!u.is_free(v[j].0 as int));
            } else if j == n - 1 {
                assert(!u.is_free(v[i].0 as int));
            }
        }
        assert forall|i: int| 0 <= i < z.len() implies !w.is_free((#[trigger] z[i]).0 as int)
            && w.accepts(z[i].0 as int) && z[i].0 < usize::MAX by {
            if i < n - 1 {
                assert(z[i] == v[i]);
            } else {
                assert(t.is_free(p as int));
                assert(t.accepts(p as int));
            }
        }
        assert forall|x: int| has_page(z, x) <==> has_page(v, x) || x == p by {
            if has_page(z, x) {
                let i = choose|i: int| 0 <= i < z.len() && z[i] == PhysPageNum(x as usize);
                if i < n - 1 {
                    assert(v[i] == PhysPageNum(x as usize));
                }
            }
            if has_page(v, x) {
                let i = choose|i: int| 0 <= i < v.len() && v[i] == PhysPageNum(x as usize);
                assert(z[i] == PhysPageNum(x as usize));
            }
            assert(z[n - 1] == PhysPageNum(p));
        }
    }
}

/// Pages that are given back are free again, and nothing else is.
pub proof fn lemma_give(t: TierView, v: Seq<PhysPageNum>)
    requires
        t.inv(),
        held_from(t, v),
    ensures
        ({
            let u = give(t, v);
            &&& u.inv()
            &&& forall|x: int| u.is_free(x) <==> t.is_free(x) || has_page(v, x)
            &&& t.tidy() ==> u.tidy()
            &&& forall|x: int| u.accepts(x) <==> t.accepts(x)
        }),
    decreases v.len(),
{
    if v.len() > 0 {
        let p = v[0].0;
        let rest = v.drop_first();
        let w = t.after_dealloc(p);
        frame_tier::lemma_tier_dealloc(t, p);
        lemma_held_rest(t, v);
        lemma_give(w, rest);
        assert forall|x: int| has_page(v, x) <==> has_page(rest, x) || x == p by {
            if has_page(v, x) {
                let i = choose|i: int| 0 <= i < v.len() && v[i] == PhysPageNum(x as usize);
                if i > 0 {
                    assert(rest[i - 1] == PhysPageNum(x as usize));
                }
            }
            if has_page(rest, x) {
                let i = choose|i: int| 0 <= i < rest.len() && rest[i] == PhysPageNum(x as usize);
                assert(v[i + 1] == PhysPageNum(x as usize));
            }
            assert(v[0] == PhysPageNum(p));
        }
    }
}

proof fn lemma_held_rest(t: TierView, v: Seq<PhysPageNum>)
    requires
        t.inv(),
        held_from(t, v),
        v.len() > 0,
    ensures
        held_from(t.after_dealloc(v[0].0), v.drop_first()),
{
    frame_tier::lemma_tier_dealloc(t, v[0].0);
    let rest = v.drop_first();
    let w = t.after_dealloc(v[0].0);
    assert forall|i: int| 0 <= i < rest.len() implies !w.is_free((#[trigger] rest[i]).0 as int)
        && w.accepts(rest[i].0 as int) && rest[i].0 < usize::MAX by {
        assert(rest[i] == v[i + 1]);
        assert(v[0] != v[i + 1]);
    }
}

/// One round of the mixed churn: the page that is given back makes sure that
/// the request after it is served.
proof fn lemma_round(t: TierView, held: Seq<PhysPageNum>, j: int)
    requires
        t.inv(),
        held_from(t, held),
        0 <= j < held.len(),
        forall|x: int| t.is_free(x) ==> #[trigger] t.accepts(x) && x < usize::MAX,
    ensures
        ({
            let u = t.after_dealloc(held[j].0);
            let w = u.after_alloc();
            let next = held.update(j, PhysPageNum(u.next().unwrap()));
            &&& u.inv()
            &&& u.next() is Some
            &&& w.inv()
            &&& held_from(w, next)
            &&& forall|x: int| w.is_free(x) ==> #[trigger] w.accepts(x) && x < usize::MAX
            &&& forall|x: int|
                w.is_free(x) || has_page(next, x) <==> t.is_free(x) || has_page(held, x)
            &&& t.tidy() ==> w.tidy()
        }),
{
    let p = held[j].0;
    let u = t.after_dealloc(p);
    let w = u.after_alloc();
    frame_tier::lemma_tier_dealloc(t, p);
    frame_tier::lemma_tier_alloc(u);
    assert(u.is_free(p as int));
    let q = u.next().unwrap();
    let next = held.update(j, PhysPageNum(q));
    assert(t.is_free(q as int) || q == p);
    assert forall|x: int| w.is_free(x) implies #[trigger] w.accepts(x) && x < usize::MAX by {
        if x != p {
            assert(t.is_free(x));
            assert(t.accepts(x));
        }
    }
    assert forall|i: int| 0 <= i < next.len() implies !w.is_free((#[trigger] next[i]).0 as int)
        && w.accepts(next[i].0 as int) && next[i].0 < usize::MAX by {
        if i != j {
            assert(next[i] == held[i]);
            assert(held[i] != held[j]);
        } else if q != p {
            assert(t.accepts(q as int));
        }
    }
    assert forall|i: int, k: int|
        0 <= i < next.len() && 0 <= k < next.len() && i != k implies next[i] != next[k] by {
        if i == j {
            assert(held[k] != held[j]);
            assert(!t.is_free(held[k].0 as int));
        } else if k == j {
            assert(held[i] != held[j]);
            assert(!t.is_free(held[i].0 as int));
        }
    }
    assert forall|x: int|
        w.is_free(x) || has_page(next, x) <==> t.is_free(x) || has_page(held, x) by {
        if has_page(next, x) {
            let i = choose|i: int| 0 <= i < next.len() && next[i] == PhysPageNum(x as usize);
            if i != j {
                assert(held[i] == PhysPageNum(x as usize));
            } else if q == p {
                assert(held[j] == PhysPageNum(x as usize));
            }
        }
        if has_page(held, x) {
            let i = choose|i: int| 0 <= i < held.len() && held[i] == PhysPageNum(x as usize);
            if i != j {
                assert(next[i] == PhysPageNum(x as usize));
            } else if q == p {
                assert(next[j] == PhysPageNum(x as usize));
            }
        }
        if w.is_free(x) && x == p {
            assert(held[j] == PhysPageNum(x as usize));
        }
        if t.is_free(x) && x == q {
            assert(next[j] == PhysPageNum(x as usize));
        }
    }
}

/// Requests do not turn one kind of allocator into another.
proof fn lemma_kind(t: TierView, n: int)
    ensures
        take(t, n).0 is Stack <==> t is Stack,
        take(t, n).0 is Buddy <==> t is Buddy,
        take(t, n).0 is Hybrid <==> t is Hybrid,
    decreases n,
{
    if n > 0 {
        lemma_kind(t, n - 1);
    }
}

/// Nor do pages that are given back. A stack allocator does not turn them into
/// new ones.
proof fn lemma_kind_give(t: TierView, v: Seq<PhysPageNum>)
    ensures
        give(t, v) is Stack <==> t is Stack,
        give(t, v) is Buddy <==> t is Buddy,
        give(t, v) is Hybrid <==> t is Hybrid,
        t matches TierView::Stack(a) ==> give(t, v) matches TierView::Stack(b) && a.current
            == b.current && a.end == b.end,
    decreases v.len(),
{
    if v.len() > 0 {
        lemma_kind_give(t.after_dealloc(v[0].0), v.drop_first());
    }
}

/// A fresh stack allocator hands out its new pages in order.
proof fn lemma_stack_used_up(base: int, end: int, n: int)
    requires
        base <= end,
        0 <= n <= end - base,
    ensures
        take(fresh(TierKind::Stack, base, end), n).0 == TierView::Stack(
            StackView { current: base + n, end, recycled: Seq::empty() },
        ),
    decreases n,
{
    if n > 0 {
        lemma_stack_used_up(base, end, n - 1);
    }
}

proof fn lemma_free_run(s: Set<Block>, base: int, end: int, o: int)
    requires
        forall|x: int| frame_model::is_free(s, x) <==> base <= x < end,
    ensures
        frame_laws::has_free_run(s, o) <==> exists|c: Block|
            c.natural() && c.order == o && base <= #[trigger] c.addr && c.end() <= end,
{
    if frame_laws::has_free_run(s, o) {
        let c = choose|c: Block|
            c.natural() && c.order == o && forall|x: int| #[trigger]
                c.has(x) ==> frame_model::is_free(s, x);
        blocks::lemma_block_pos(c);
        assert(c.has(c.addr) && c.has(c.end() - 1));
    }
    if exists|c: Block|
        c.natural() && c.order == o && base <= #[trigger] c.addr && c.end() <= end {
        let c = choose|c: Block|
            c.natural() && c.order == o && base <= #[trigger] c.addr && c.end() <= end;
        assert forall|x: int| #[trigger] c.has(x) implies frame_model::is_free(s, x) by {}
    }
}

/// With a whole arena free and merged, a run is found exactly if the arena has
/// one.
proof fn lemma_run_of_arena(t: TierView, base: int, end: int, k: int)
    requires
        t.inv(),
        t.tidy(),
        0 < k,
        !(t is Stack),
        forall|x: int| t.is_free(x) <==> base <= x < end,
    ensures
        t.run(k) is Some <==> arena_has_run(base, end, k),
{
    let o = frame_model::order_of(k);
    buddy::lemma_least_order(k, 0);
    match t {
        TierView::Stack(v) => {},
        TierView::Buddy(v) => {
            let s = v.blocks;
            assert forall|x: int| frame_model::is_free(s, x) <==> base <= x < end by {
                assert(t.is_free(x) <==> base <= x < end);
            }
            if o <= MAX_ORDER {
                frame_laws::law_block_found(s, o);
                lemma_free_run(s, base, end, o);
            }
        },
        TierView::Hybrid(v) => {
            frame_hybrid::lemma_drained(v, v.cache.len() as int);
            let w = v.drained(v.cache.len() as int);
            let s = w.backing.blocks;
            assert forall|x: int| frame_model::is_free(s, x) <==> base <= x < end by {
                assert(t.is_free(x) <==> base <= x < end);
            }
            if o <= MAX_ORDER {
                frame_laws::law_cache_hides_nothing(v, k);
                frame_laws::law_block_found(s, o);
                lemma_free_run(s, base, end, o);
                if frame_model::can_take(v.backing.blocks, o) {
                    frame_laws::law_block_found(v.backing.blocks, o);
                    let c = choose|c: Block|
                        c.natural() && c.order == o && forall|x: int| #[trigger]
                            c.has(x) ==> frame_model::is_free(v.backing.blocks, x);
                    assert forall|x: int| #[trigger] c.has(x) implies frame_model::is_free(s, x) by {
                        assert(v.is_free(x));
                        assert(t.is_free(x));
                    }
                    assert(frame_laws::has_free_run(s, o));
                }
            }
        },
    }
}

/// An arena that is itself one aligned block of `2^m` pages has a run of every
/// length up to its own.
pub proof fn law_aligned_arena(base: int, m: int, k: int)
    requires
        0 <= base,
        0 <= m <= MAX_ORDER,
        powers::aligned(base, m),
        0 < k <= powers::p2(m),
    ensures
        arena_has_run(base, base + powers::p2(m), k),
{
    let o = frame_model::order_of(k);
    buddy::lemma_least_order(k, 0);
    if o > m {
        powers::lemma_p2_mono(m, o - 1);
    }
    powers::lemma_p2_mono(o, m);
    powers::lemma_aligned_mono(base, o, m);
    let c = Block { addr: base, order: o };
    assert(c.natural() && base <= c.addr && c.end() <= base + powers::p2(m));
}

/// A fresh allocator of one kind over `[base, end)`.
pub fn build(kind: TierKind, base: usize, end: usize) -> (t: Tier)
    requires
        base <= end,
    ensures
        t.wf(),
        t@ == fresh(kind, base as int, end as int),
{
    match kind {
        TierKind::Stack => Tier::build_stack(base, end),
        TierKind::Buddy => Tier::build_buddy(base, end),
        TierKind::Hybrid => Tier::build_hybrid(base, end),
    }
}

/// Takes `n` single pages from an allocator that has as many free.
pub fn take_pages(t: &mut Tier, n: usize) -> (v: Vec<PhysPageNum>)
    requires
        old(t).wf(),
        old(t)@.pages().finite(),
        n <= old(t)@.pages().len(),
        forall|x: int| old(t)@.is_free(x) ==> #[trigger] old(t)@.accepts(x) && x < usize::MAX,
    ensures
        final(t).wf(),
        final(t)@ == take(old(t)@, n as int).0,
        v@ == take(old(t)@, n as int).1,
        held_from(final(t)@, v@),
{
    let ghost t0 = t@;
    let mut v: Vec<PhysPageNum> = Vec::with_capacity(n);
    let mut i: usize = 0;
    while i < n
        invariant
            i <= n,
            t.wf(),
            t0.inv(),
            t0.pages().finite(),
            n <= t0.pages().len(),
            forall|x: int| t0.is_free(x) ==> #[trigger] t0.accepts(x) && x < usize::MAX,
            t@ == take(t0, i as int).0,
            v@ == take(t0, i as int).1,
        decreases n - i,
    {
        proof {
            lemma_take(t0, i + 1);
            lemma_take(t0, i as int);
            let u = t@;
            frame_tier::lemma_tier_alloc(u);
            let some = u.pages().choose();
            assert(u.pages().contains(some));
            assert(u.is_free(some));
        }
        if let Some(p) = t.allocate() {
            v.push(p);
        }
        i = i + 1;
    }
    proof {
        lemma_take(t0, n as int);
    }
    v
}

/// Gives held pages back, in order.
pub fn give_pages(t: &mut Tier, v: &Vec<PhysPageNum>)
    requires
        old(t).wf(),
        held_from(old(t)@, v@),
    ensures
        final(t).wf(),
        final(t)@ == give(old(t)@, v@),
{
    let ghost want = give(t@, v@);
    let mut i: usize = 0;
    assert(v@.skip(0) =~= v@);
    while i < v.len()
        invariant
            i <= v@.len(),
            t.wf(),
            held_from(t@, v@.skip(i as int)),
            give(t@, v@.skip(i as int)) == want,
        decreases v@.len() - i,
    {
        proof {
            let rest = v@.skip(i as int);
            assert(rest[0] == v@[i as int]);
            assert(rest.drop_first() =~= v@.skip(i + 1));
            lemma_held_rest(t@, rest);
        }
        t.dealloc(v[i]);
        i = i + 1;
    }
    assert(v@.skip(i as int) =~= Seq::empty());
}

/// Takes every page of a fresh arena, gives all of them back, and asks for `k`
/// contiguous pages. The buddy and the hybrid allocator have merged the pages
/// again, so the answer is yes if the arena ever had such a run. The stack
/// allocator has used up its new pages and never looks at recycled ones.
pub fn run_after_churn(kind: TierKind, base: usize, end: usize, k: usize) -> (r: bool)
    requires
        base <= end,
        end + k <= usize::MAX,
    ensures
        r == match kind {
            TierKind::Stack => false,
            _ => k == 0 || arena_has_run(base as int, end as int, k as int),
        },
{
    let mut t = build(kind, base, end);
    let ghost t0 = t@;
    proof {
        lemma_fresh(kind, base as int, end as int);
        lemma_take(t0, end - base);
        if kind == TierKind::Stack {
            lemma_stack_used_up(base as int, end as int, end - base);
        }
    }
    let v = take_pages(&mut t, end - base);
    proof {
        let u = t@;
        lemma_give(u, v@);
        assert forall|x: int| u.is_free(x) implies false by {
            assert(u.pages().contains(x));
            assert(u.pages().len() == 0);
        }
        lemma_kind(t0, end - base);
        lemma_kind_give(u, v@);
    }
    give_pages(&mut t, &v);
    proof {
        let w = t@;
        assert forall|x: int| w.is_free(x) <==> base <= x < end by {}
        if k > 0 && kind != TierKind::Stack {
            lemma_run_of_arena(w, base as int, end as int, k as int);
        }
    }
    t.alloc_more(k).is_some()
}

/// Gives back and takes single pages of a working set, `rounds` times.
pub fn mixed_churn(t: &mut Tier, held: &mut Vec<PhysPageNum>, rounds: usize)
    requires
        old(t).wf(),
        old(held)@.len() == WORKING_SET,
        held_from(old(t)@, old(held)@),
        forall|x: int| old(t)@.is_free(x) ==> #[trigger] old(t)@.accepts(x) && x < usize::MAX,
    ensures
        final(t).wf(),
        (final(t)@, final(held)@) == churned(old(t)@, old(held)@, 0, rounds as int),
        held_from(final(t)@, final(held)@),
        forall|x: int|
            final(t)@.is_free(x) || has_page(final(held)@, x) <==> old(t)@.is_free(x) || has_page(
                old(held)@,
                x,
            ),
{
    let ghost t0 = t@;
    let ghost h0 = held@;
    let mut i: usize = 0;
    while i < rounds
        invariant
            i <= rounds,
            t.wf(),
            held@.len() == WORKING_SET,
            held_from(t@, held@),
            forall|x: int| t@.is_free(x) ==> #[trigger] t@.accepts(x) && x < usize::MAX,
            churned(t@, held@, i as int, rounds as int) == churned(t0, h0, 0, rounds as int),
            forall|x: int|
                t@.is_free(x) || has_page(held@, x) <==> t0.is_free(x) || has_page(h0, x),
        decreases rounds - i,
    {
        let j: usize = i.wrapping_mul(1664525).wrapping_add(1013904223) % WORKING_SET;
        let ghost tb = t@;
        let ghost hb = held@;
        proof {
            lemma_round(t@, held@, j as int);
        }
        let old_page = held[j];
        t.dealloc(old_page);
        if let Some(p) = t.allocate() {
            held[j] = p;
        }
        proof {
            assert(held@ == hb.update(j as int, PhysPageNum(tb.after_dealloc(hb[j as int].0).next().unwrap())));
        }
        i = i + 1;
    }
}

/// Average of a measured time over a number of operations, in thousandths of
/// its unit.
pub fn per_op(t0: u64, t1: u64, ops: u64) -> (r: u64)
    requires
        ops > 0,
        t1 > t0 ==> (t1 - t0) * 1000 <= u64::MAX,
    ensures
        r == if t1 > t0 {
            (t1 - t0) as int * 1000 / ops as int
        } else {
            0
        },
{
    if t1 > t0 {
        (t1 - t0) * 1000 / ops
    } else {
        0
    }
}

} // verus!
