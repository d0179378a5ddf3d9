//! What holds of the system calls.

use crate::config::{USER_HEAP_BASE, USER_HEAP_MAX_SIZE};
use crate::heap::HeapSnapshot;
use crate::process;
use crate::process::{Child, UserHeapStats, SIGNAL_MASK};
use crate::stats::StatsView;
use crate::user;
use vstd::prelude::*;

verus! {

/// The top of the heap is between its base and its limit.
pub open spec fn heap_in_bounds(top: usize) -> bool {
    USER_HEAP_BASE <= top <= USER_HEAP_BASE + USER_HEAP_MAX_SIZE
}

/// No change takes the heap out of its bounds.
pub proof fn law_sbrk_in_bounds(top: usize, delta: i32, resized: bool)
    requires
        heap_in_bounds(top),
    ensures
        heap_in_bounds(process::after_sbrk(top, delta, resized)),
{
}

/// A request is refused exactly if it would leave the bounds or the memory
/// could not be mapped. A refused request changes nothing, and an accepted one
/// is answered with the top from before.
pub proof fn law_sbrk_refusal(top: usize, delta: i32, resized: bool)
    requires
        heap_in_bounds(top),
        top <= isize::MAX,
    ensures
        process::sbrk_answer(top, delta, resized) == -1 <==> delta != 0 && (!resized || top + delta
            < USER_HEAP_BASE || top + delta > USER_HEAP_BASE + USER_HEAP_MAX_SIZE),
        process::sbrk_answer(top, delta, resized) == -1 ==> process::after_sbrk(top, delta, resized)
            == top,
        process::sbrk_answer(top, delta, resized) != -1 ==> process::sbrk_answer(
            top,
            delta,
            resized,
        ) == top && process::after_sbrk(top, delta, resized) == top + delta,
{
}

/// Shrinking by what the heap has grown restores it.
pub proof fn law_sbrk_undo(top: usize, delta: i32)
    requires
        heap_in_bounds(top),
        delta != i32::MIN,
        process::moved_top(top, delta) is Some,
    ensures
        process::after_sbrk(process::after_sbrk(top, delta, true), (-delta) as i32, true) == top,
        process::sbrk_answer(process::after_sbrk(top, delta, true), (-delta) as i32, true) == (top
            + delta) as isize,
{
}

/// Signals are only ever added, and only signals that exist.
pub proof fn law_kill_adds(pending: u32, signal: u32)
    requires
        signal & !SIGNAL_MASK == 0,
        pending & !SIGNAL_MASK == 0,
    ensures
        (pending | signal) & pending == pending,
        (pending | signal) & signal == signal,
        (pending | signal) & !SIGNAL_MASK == 0,
{
    assert((pending | signal) & pending == pending) by (bit_vector);
    assert((pending | signal) & signal == signal) by (bit_vector);
    let m = SIGNAL_MASK;
    assert((pending | signal) & !m == 0) by (bit_vector)
        requires
            signal & !m == 0,
            pending & !m == 0,
    ;
}

/// A child is waited for once: after its exit code has been collected, no
/// child of that number is left.
pub proof fn law_reaped_once(children: Seq<Child>, pid: isize)
    requires
        0 <= pid,
        process::has_exited(children, pid),
        forall|i: int, j: int|
            0 <= i < children.len() && 0 <= j < children.len() && i != j ==> (
            #[trigger] children[i]).pid != (#[trigger] children[j]).pid,
    ensures
        process::wait_answer(children, pid) == pid,
        process::after_wait(children, pid).len() == children.len() - 1,
        process::wait_answer(process::after_wait(children, pid), pid) == -1,
{
    let i = process::first_exited(children, pid);
    assert(process::is_first_exited(children, pid, i));
    process::lemma_first_exited(children, pid, i);
    let rest = process::after_wait(children, pid);
    assert forall|k: int| 0 <= k < rest.len() implies !(#[trigger] rest[k]).answers(pid) by {
        let j = if k < i {
            k
        } else {
            k + 1
        };
        assert(rest[k] == children[j]);
        assert(children[j].pid != children[i].pid);
    }
}

/// A wait that is answered -1 or -2 changes nothing.
pub proof fn law_idle_wait(children: Seq<Child>, pid: isize, code: i32)
    requires
        !process::has_exited(children, pid),
    ensures
        process::wait_answer(children, pid) == if process::has_child(children, pid) {
            -2int
        } else {
            -1int
        },
        process::after_wait(children, pid) == children,
        process::code_after_wait(children, pid, code) == code,
{
}

/// A wait that finds a child takes it: the number that is answered and the exit
/// code that is stored are those of the child that is removed, whatever they
/// are, and putting that very child back gives the children from before. Child
/// `i` is the first that has exited and that the wait means.
pub proof fn law_wait_takes(children: Seq<Child>, pid: isize, code: i32, i: int)
    requires
        0 <= i < children.len(),
        children[i].is_zombie,
        pid == -1 || children[i].pid == pid as usize,
        forall|j: int|
            0 <= j < i && (#[trigger] children[j]).is_zombie ==> pid != -1 && children[j].pid
                != pid as usize,
    ensures
        process::wait_answer(children, pid) == children[i].pid as isize,
        process::code_after_wait(children, pid, code) == children[i].exit_code,
        process::after_wait(children, pid).len() == children.len() - 1,
        process::after_wait(children, pid).insert(i, children[i]) == children,
        forall|j: int|
            0 <= j < children.len() - 1 ==> #[trigger] process::after_wait(children, pid)[j]
                == children[if j < i {
                j
            } else {
                j + 1
            }],
{
    assert(process::is_first_exited(children, pid, i));
    process::lemma_first_exited(children, pid, i);
    assert(children.remove(i).insert(i, children[i]) =~= children);
}

/// A wait that finds no child to take changes nothing. It is answered -2 if a
/// child that it means, such as child `i`, is still running, and -1 if there
/// is none.
pub proof fn law_wait_waits(children: Seq<Child>, pid: isize, code: i32, i: int)
    requires
        forall|j: int|
            0 <= j < children.len() && (#[trigger] children[j]).is_zombie ==> pid != -1
                && children[j].pid != pid as usize,
    ensures
        process::after_wait(children, pid) == children,
        process::code_after_wait(children, pid, code) == code,
        0 <= i < children.len() && (pid == -1 || children[i].pid == pid as usize)
            ==> process::wait_answer(children, pid) == -2,
        (forall|j: int|
            0 <= j < children.len() ==> pid != -1 && (#[trigger] children[j]).pid != pid as usize)
            ==> process::wait_answer(children, pid) == -1,
{
    if process::has_exited(children, pid) {
        let i = choose|i: int| process::is_first_exited(children, pid, i);
        assert(children[i].is_zombie);
    }
    if 0 <= i < children.len() && (pid == -1 || children[i].pid == pid as usize) {
        assert(children[i].answers(pid));
    }
}

/// The heap of a process lies from 1 GiB to 2 GiB. A change moves its top by
/// the bytes that were asked for, if it stays there and the memory could be
/// mapped, and is answered with the top from before. Anything else changes
/// nothing and is answered -1, but for a change by nothing.
pub proof fn law_sbrk(top: usize, delta: i32, resized: bool)
    requires
        0x4000_0000 <= top <= 0x8000_0000,
        top <= isize::MAX,
    ensures
        delta != 0 && resized && 0x4000_0000 <= top + delta <= 0x8000_0000 ==> process::sbrk_answer(
            top,
            delta,
            resized,
        ) == top && process::after_sbrk(top, delta, resized) - top == delta,
        delta != 0 && !(resized && 0x4000_0000 <= top + delta <= 0x8000_0000)
            ==> process::sbrk_answer(top, delta, resized) == -1 && process::after_sbrk(
            top,
            delta,
            resized,
        ) == top,
        delta == 0 ==> process::sbrk_answer(top, delta, resized) == top && process::after_sbrk(
            top,
            delta,
            resized,
        ) == top,
{
}

/// Where the heap is to end is exactly so far from its top, and asked for only
/// if it lies from 1 GiB to 2 GiB.
pub proof fn law_sbrk_target(top: usize, delta: i32)
    ensures
        match process::moved_top(top, delta) {
            Some(t) => t - top == delta && 0x4000_0000 <= t <= 0x8000_0000,
            None => top + delta < 0x4000_0000 || 0x8000_0000 < top + delta,
        },
{
}

/// Signal number `n` can be sent exactly if it is an interrupt (2), an illegal
/// instruction (4), an abort (6), an arithmetic error (8) or a memory fault
/// (11), and it is one bit of the set of pending signals.
pub proof fn law_signals(n: u32)
    requires
        n < 32,
    ensures
        (1u32 << n) & !SIGNAL_MASK == 0 <==> n == 2 || n == 4 || n == 6 || n == 8 || n == 11,
        process::SIGINT == 1u32 << 2u32,
        process::SIGILL == 1u32 << 4u32,
        process::SIGABRT == 1u32 << 6u32,
        process::SIGFPE == 1u32 << 8u32,
        process::SIGSEGV == 1u32 << 11u32,
{
    assert((1u32 << n) & !0b1001_0101_0100u32 == 0 <==> n == 2 || n == 4 || n == 6 || n == 8 || n
        == 11) by (bit_vector)
        requires
            n < 32,
    ;
    assert(0b100u32 == 1u32 << 2u32 && 0b1_0000u32 == 1u32 << 4u32 && 0b100_0000u32 == 1u32 << 6u32
        && 0b1_0000_0000u32 == 1u32 << 8u32 && 0b1000_0000_0000u32 == 1u32 << 11u32)
        by (bit_vector);
}

/// A set of signals can be sent exactly if each of its signals can.
pub proof fn law_signal_sets(a: u32, b: u32)
    ensures
        (a | b) & !SIGNAL_MASK == 0 <==> a & !SIGNAL_MASK == 0 && b & !SIGNAL_MASK == 0,
{
    let m = SIGNAL_MASK;
    assert((a | b) & !m == 0 <==> a & !m == 0 && b & !m == 0) by (bit_vector);
}

/// The arguments end at the first zero: no address before it is zero, and
/// where it lies is determined.
pub proof fn law_list_end(words: Seq<usize>, n: int, m: int)
    requires
        process::is_list_end(words, n),
    ensures
        0 <= n < words.len(),
        words[n] == 0,
        0 <= m < n ==> words[m] != 0,
        process::is_list_end(words, m) ==> m == n,
{
}

/// The kernel writes its counters as eleven words of eight bytes, the least
/// byte first, in this order.
pub proof fn law_stats_layout(snap: HeapSnapshot, st: StatsView)
    ensures
        ({
            let b = process::words_to_bytes(UserHeapStats::of(snap, st).words());
            let le = |w: u64| vstd::bytes::spec_u64_to_le_bytes(w);
            &&& b.len() == 88
            &&& b.subrange(0, 8) == le(snap.buddy_total as u64)
            &&& b.subrange(8, 16) == le(snap.buddy_used as u64)
            &&& b.subrange(16, 24) == le(snap.slab_provisioned as u64)
            &&& b.subrange(24, 32) == le(snap.slab_free as u64)
            &&& b.subrange(32, 40) == le(st.allocs)
            &&& b.subrange(40, 48) == le(st.frees)
            &&& b.subrange(48, 56) == le(st.bytes_allocated)
            &&& b.subrange(56, 64) == le(st.bytes_freed)
            &&& b.subrange(64, 72) == le(st.slab_hits)
            &&& b.subrange(72, 80) == le(st.buddy_calls)
            &&& b.subrange(80, 88) == le(st.oom)
        }),
{
    let words = UserHeapStats::of(snap, st).words();
    assert forall|k: int| 0 <= k < 11 implies process::words_to_bytes(words).subrange(
        8 * k,
        8 * k + 8,
    ) == vstd::bytes::spec_u64_to_le_bytes(#[trigger] words[k]) by {
        user::lemma_word_bytes(words, k);
    }
    user::lemma_word_bytes(words, 0);
    assert(words[0] == snap.buddy_total as u64 && words[1] == snap.buddy_used as u64 && words[2]
        == snap.slab_provisioned as u64 && words[3] == snap.slab_free as u64);
    assert(words[4] == st.allocs && words[5] == st.frees && words[6] == st.bytes_allocated
        && words[7] == st.bytes_freed);
    assert(words[8] == st.slab_hits && words[9] == st.buddy_calls && words[10] == st.oom);
}

/// What is copied to a buffer fills it from its front, as far as both reach;
/// what lies behind stays.
pub proof fn law_copied(dst: Seq<u8>, src: Seq<u8>, i: int)
    requires
        0 <= i < dst.len(),
    ensures
        process::overwritten(dst, src).len() == dst.len(),
        i < src.len() ==> process::overwritten(dst, src)[i] == src[i],
        src.len() <= i ==> process::overwritten(dst, src)[i] == dst[i],
{
}

/// The bytes of a buffer are those of its pieces, one piece after the other.
pub proof fn law_joined(chunks: Seq<Vec<u8>>, piece: Vec<u8>)
    ensures
        process::joined(Seq::<Vec<u8>>::empty()).len() == 0,
        process::joined(chunks.push(piece)).len() == process::joined(chunks).len() + piece@.len(),
        forall|i: int|
            0 <= i < process::joined(chunks).len() ==> #[trigger] process::joined(
                chunks.push(piece),
            )[i] == process::joined(chunks)[i],
        forall|i: int|
            0 <= i < piece@.len() ==> #[trigger] piece@[i] == process::joined(chunks.push(piece))[i
                + process::joined(chunks).len()],
{
    assert(chunks.push(piece).drop_last() =~= chunks);
    assert(process::joined(chunks.push(piece)) == process::joined(chunks) + piece@);
}

} // verus!
