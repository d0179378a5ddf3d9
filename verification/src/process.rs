//! System calls on processes.
//!
//! Each takes the part of the kernel's state that it decides on, and what the
//! rest of the kernel has answered where it had to be asked first.

use crate::config::{USER_HEAP_BASE, USER_HEAP_MAX_SIZE};
use crate::heap::HeapSnapshot;
use crate::manager;
use crate::manager::{Process, ProcessTable};
use crate::stats::{AllocStats, StatsView};
use vstd::prelude::*;

verus! {

/// Registers of a task that was interrupted.
pub struct TrapContext {
    pub x: [usize; 32],
}

/// Finishes a fork: the new task returns at once and sees zero, the parent
/// sees the number of the new process.
pub fn sys_fork(new_pid: usize, child: &mut TrapContext) -> (r: isize)
    ensures
        r == new_pid as isize,
        final(child).x@ == old(child).x@.update(10, 0),
{
    child.x[10] = 0;
    new_pid as isize
}

/// Where the list of argument addresses ends: at the first zero.
pub open spec fn is_list_end(words: Seq<usize>, n: int) -> bool {
    &&& 0 <= n < words.len()
    &&& words[n] == 0
    &&& forall|i: int| 0 <= i < n ==> #[trigger] words[i] != 0
}

/// The addresses of the arguments: those before the first zero, or `None` if
/// there is none.
pub fn arg_list(words: &Vec<usize>) -> (r: Option<Vec<usize>>)
    ensures
        match r {
            Some(v) => is_list_end(words@, v@.len() as int) && v@ == words@.take(v@.len() as int),
            None => !words@.contains(0),
        },
{
    let mut v: Vec<usize> = Vec::new();
    let mut i: usize = 0;
    while i < words.len()
        invariant
            i <= words@.len(),
            v@ == words@.take(i as int),
            forall|k: int| 0 <= k < i ==> #[trigger] words@[k] != 0,
        decreases words@.len() - i,
    {
        let p: usize = words[i];
        if p == 0 {
            return Some(v);
        }
        v.push(p);
        assert(v@ =~= words@.take(i + 1));
        i = i + 1;
    }
    None
}

/// Finishes an exec: the number of arguments if the program could be opened,
/// -1 if not.
pub fn sys_exec(args: &Vec<usize>, opened: bool) -> (r: isize)
    ensures
        r == if opened {
            args@.len() as isize as int
        } else {
            -1
        },
{
    if opened {
        args.len() as isize
    } else {
        -1
    }
}

/// A child process, as its parent sees it.
#[derive(Debug, Clone, Copy, PartialEq, Eq, Structural)]
pub struct Child {
    pub pid: usize,
    pub is_zombie: bool,
    pub exit_code: i32,
}

impl Child {
    /// A wait for `pid` is a wait for this child. -1 means any.
    pub open spec fn answers(self, pid: isize) -> bool {
        pid == -1 || pid as usize == self.pid
    }
}

/// `i` is the first child that has exited and that `pid` means.
pub open spec fn is_first_exited(children: Seq<Child>, pid: isize, i: int) -> bool {
    &&& 0 <= i < children.len()
    &&& children[i].is_zombie
    &&& children[i].answers(pid)
    &&& forall|j: int|
        0 <= j < i ==> !((#[trigger] children[j]).is_zombie && children[j].answers(pid))
}

/// Some child is the one that `pid` means.
pub open spec fn has_child(children: Seq<Child>, pid: isize) -> bool {
    exists|i: int| 0 <= i < children.len() && (#[trigger] children[i]).answers(pid)
}

/// Some child that `pid` means has exited.
pub open spec fn has_exited(children: Seq<Child>, pid: isize) -> bool {
    exists|i: int| is_first_exited(children, pid, i)
}

/// The child that a wait for `pid` takes.
pub open spec fn first_exited(children: Seq<Child>, pid: isize) -> int {
    choose|i: int| is_first_exited(children, pid, i)
}

/// What a wait for `pid` is answered.
pub open spec fn wait_answer(children: Seq<Child>, pid: isize) -> isize {
    if !has_child(children, pid) {
        -1isize
    } else if !has_exited(children, pid) {
        -2isize
    } else {
        children[first_exited(children, pid)].pid as isize
    }
}

/// The children after a wait for `pid`.
pub open spec fn after_wait(children: Seq<Child>, pid: isize) -> Seq<Child> {
    if has_exited(children, pid) {
        children.remove(first_exited(children, pid))
    } else {
        children
    }
}

/// The exit code that is stored after a wait for `pid`.
pub open spec fn code_after_wait(children: Seq<Child>, pid: isize, code: i32) -> i32 {
    if has_exited(children, pid) {
        children[first_exited(children, pid)].exit_code
    } else {
        code
    }
}

pub proof fn lemma_first_exited(children: Seq<Child>, pid: isize, i: int)
    requires
        is_first_exited(children, pid, i),
    ensures
        first_exited(children, pid) == i,
        has_exited(children, pid),
        has_child(children, pid),
{
    let j = first_exited(children, pid);
    assert(is_first_exited(children, pid, j));
    assert(children[i].is_zombie && children[j].is_zombie);
}

/// If there is no child that `pid` means, returns -1. If there is one but none
/// of them has exited, returns -2. Else the first that has exited is removed,
/// its exit code is stored, and its number is returned.
pub fn sys_waitpid(children: &mut Vec<Child>, pid: isize, exit_code: &mut i32) -> (r: isize)
    ensures
        r == wait_answer(old(children)@, pid),
        final(children)@ == after_wait(old(children)@, pid),
        *final(exit_code) == code_after_wait(old(children)@, pid, *old(exit_code)),
{
    let ghost c = children@;
    let mut known: bool = false;
    let mut i: usize = 0;
    while i < children.len()
        invariant
            children@ == c,
            c == old(children)@,
            *exit_code == *old(exit_code),
            i <= c.len(),
            known <==> exists|k: int| 0 <= k < i && (#[trigger] c[k]).answers(pid),
            forall|k: int| 0 <= k < i ==> !((#[trigger] c[k]).is_zombie && c[k].answers(pid)),
        decreases c.len() - i,
    {
        let child = children[i];
        if pid == -1 || pid as usize == child.pid {
            assert(c[i as int].answers(pid));
            known = true;
            if child.is_zombie {
                proof {
                    lemma_first_exited(c, pid, i as int);
                }
                let found = children.remove(i);
                *exit_code = found.exit_code;
                return found.pid as isize;
            }
        }
        i = i + 1;
    }
    if known {
        -2
    } else {
        -1
    }
}

/// A set of signals.
#[derive(Debug, Clone, Copy, PartialEq, Eq, Structural)]
pub struct SignalFlags {
    bits: u32,
}

/// All signals that exist: SIGINT, SIGILL, SIGABRT, SIGFPE and SIGSEGV.
pub const SIGNAL_MASK: u32 = 0b1001_0101_0100;

pub const SIGINT: u32 = 0b100;

pub const SIGILL: u32 = 0b1_0000;

pub const SIGABRT: u32 = 0b100_0000;

pub const SIGFPE: u32 = 0b1_0000_0000;

pub const SIGSEGV: u32 = 0b1000_0000_0000;

impl SignalFlags {
    pub closed spec fn spec_bits(self) -> u32 {
        self.bits
    }

    /// The set with these bits, unless some of them stand for no signal.
    pub fn from_bits(bits: u32) -> (r: Option<SignalFlags>)
        ensures
            match r {
                Some(f) => bits & !SIGNAL_MASK == 0 && f.spec_bits() == bits,
                None => bits & !SIGNAL_MASK != 0,
            },
    {
        if bits & !SIGNAL_MASK == 0 {
            Some(SignalFlags { bits })
        } else {
            None
        }
    }

    pub fn bits(&self) -> (r: u32)
        ensures
            r == self.spec_bits(),
    {
        self.bits
    }
}

/// Adds signals to those that are pending for a process. Returns -1 if there
/// is no such process or no such signal, else 0.
pub fn sys_kill(table: &mut ProcessTable, pid: usize, signal: u32) -> (r: isize)
    ensures
        ({
            let t = old(table)@;
            if t.dom().contains(pid) && signal & !SIGNAL_MASK == 0 {
                &&& r == 0
                &&& final(table)@ == t.insert(
                    pid,
                    (Process { signals: t[pid].signals | signal, ..t[pid] }),
                )
            } else {
                r == -1 && final(table)@ == t
            }
        }),
{
    match manager::pid2process(table, pid) {
        Some(process) => {
            match SignalFlags::from_bits(signal) {
                Some(flag) => {
                    let signals: u32 = process.signals | flag.bits();
                    manager::insert_into_pid2process(table, pid, Process { signals, ..process });
                    0
                },
                None => -1,
            }
        },
        None => -1,
    }
}

/// The top of the heap after a change by `delta`, if that is allowed: no lower
/// than its base, no higher than its limit.
pub open spec fn moved_top(top: usize, delta: i32) -> Option<usize> {
    if USER_HEAP_BASE <= top + delta <= USER_HEAP_BASE + USER_HEAP_MAX_SIZE {
        Some((top + delta) as usize)
    } else {
        None
    }
}

/// Where the heap is to end after a change by `delta`.
pub fn sbrk_target(top: usize, delta: i32) -> (r: Option<usize>)
    ensures
        r == moved_top(top, delta),
{
    let new_top: Option<usize> = if delta >= 0 {
        top.checked_add(delta as usize)
    } else {
        top.checked_sub((-(delta as i64)) as usize)
    };
    match new_top {
        Some(t) => {
            if t < USER_HEAP_BASE || t > USER_HEAP_BASE + USER_HEAP_MAX_SIZE {
                None
            } else {
                Some(t)
            }
        },
        None => None,
    }
}

/// What a change of the heap by `delta` is answered: the previous top, or -1 if
/// it is not allowed or the memory could not be mapped.
pub open spec fn sbrk_answer(top: usize, delta: i32, resized: bool) -> isize {
    if delta == 0 || (moved_top(top, delta) is Some && resized) {
        top as isize
    } else {
        -1isize
    }
}

/// The top of the heap after that.
pub open spec fn after_sbrk(top: usize, delta: i32, resized: bool) -> usize {
    match moved_top(top, delta) {
        Some(t) => if delta != 0 && resized {
            t
        } else {
            top
        },
        None => top,
    }
}

/// Extends (or shrinks) the user heap by `delta` bytes. Returns the previous
/// top, or -1 if the change is not allowed or the memory could not be mapped.
/// A `delta` of zero asks for the top. `resized` is what mapping the memory up
/// to the new top has answered; it does not matter where nothing is mapped.
pub fn sys_sbrk(heap_top: &mut usize, delta: i32, resized: bool) -> (r: isize)
    ensures
        r == sbrk_answer(*old(heap_top), delta, resized),
        *final(heap_top) == after_sbrk(*old(heap_top), delta, resized),
{
    let cur: usize = *heap_top;
    if delta == 0 {
        return cur as isize;
    }
    match sbrk_target(cur, delta) {
        Some(new_top) => {
            if !resized {
                return -1;
            }
            *heap_top = new_top;
            cur as isize
        },
        None => -1,
    }
}

/// Counters of the kernel heap, as user space sees them: eleven words in this
/// order, each little-endian.
#[derive(Debug, Clone, Copy, PartialEq, Eq, Structural)]
pub struct UserHeapStats {
    pub buddy_total: u64,
    pub buddy_used: u64,
    pub slab_provisioned: u64,
    pub slab_free: u64,
    pub allocs: u64,
    pub frees: u64,
    pub bytes_allocated: u64,
    pub bytes_freed: u64,
    pub slab_hits: u64,
    pub buddy_calls: u64,
    pub oom: u64,
}

/// Bytes of a `UserHeapStats`.
pub const STATS_BYTES: usize = 88;

impl UserHeapStats {
    pub open spec fn words(self) -> Seq<u64> {
        seq![
            self.buddy_total,
            self.buddy_used,
            self.slab_provisioned,
            self.slab_free,
            self.allocs,
            self.frees,
            self.bytes_allocated,
            self.bytes_freed,
            self.slab_hits,
            self.buddy_calls,
            self.oom,
        ]
    }

    pub open spec fn of(snap: HeapSnapshot, st: StatsView) -> UserHeapStats {
        UserHeapStats {
            buddy_total: snap.buddy_total as u64,
            buddy_used: snap.buddy_used as u64,
            slab_provisioned: snap.slab_provisioned as u64,
            slab_free: snap.slab_free as u64,
            allocs: st.allocs,
            frees: st.frees,
            bytes_allocated: st.bytes_allocated,
            bytes_freed: st.bytes_freed,
            slab_hits: st.slab_hits,
            buddy_calls: st.buddy_calls,
            oom: st.oom,
        }
    }

    pub fn gather(snap: &HeapSnapshot, st: &AllocStats) -> (r: UserHeapStats)
        ensures
            r == UserHeapStats::of(*snap, st@),
    {
        UserHeapStats {
            buddy_total: snap.buddy_total as u64,
            buddy_used: snap.buddy_used as u64,
            slab_provisioned: snap.slab_provisioned as u64,
            slab_free: snap.slab_free as u64,
            allocs: st.allocs(),
            frees: st.frees(),
            bytes_allocated: st.bytes_allocated(),
            bytes_freed: st.bytes_freed(),
            slab_hits: st.slab_hits(),
            buddy_calls: st.buddy_calls(),
            oom: st.oom(),
        }
    }

    /// The words as bytes.
    pub fn to_bytes(&self) -> (r: Vec<u8>)
        ensures
            r@ == words_to_bytes(self.words()),
            r@.len() == STATS_BYTES,
    {
        let words: [u64; 11] = [
            self.buddy_total,
            self.buddy_used,
            self.slab_provisioned,
            self.slab_free,
            self.allocs,
            self.frees,
            self.bytes_allocated,
            self.bytes_freed,
            self.slab_hits,
            self.buddy_calls,
            self.oom,
        ];
        assert(words@ =~= self.words());
        let mut out: Vec<u8> = Vec::new();
        let mut i: usize = 0;
        assert(words@.take(0) =~= Seq::empty());
        while i < 11
            invariant
                i <= 11,
                out@ == words_to_bytes(words@.take(i as int)),
                out@.len() == 8 * i,
            decreases 11 - i,
        {
            let mut b: Vec<u8> = vstd::bytes::u64_to_le_bytes(words[i]);
            out.append(&mut b);
            proof {
                let t = words@.take(i + 1);
                assert(t.drop_last() =~= words@.take(i as int));
                assert(t.last() == words@[i as int]);
            }
            i = i + 1;
        }
        assert(words@.take(11) =~= words@);
        out
    }
}

/// Words as little-endian bytes, one after the other.
pub open spec fn words_to_bytes(words: Seq<u64>) -> Seq<u8>
    decreases words.len(),
{
    if words.len() == 0 {
        Seq::empty()
    } else {
        words_to_bytes(words.drop_last()) + vstd::bytes::spec_u64_to_le_bytes(words.last())
    }
}

/// The bytes of a buffer that comes in pieces.
pub open spec fn joined(chunks: Seq<Vec<u8>>) -> Seq<u8>
    decreases chunks.len(),
{
    if chunks.len() == 0 {
        Seq::empty()
    } else {
        joined(chunks.drop_last()) + chunks.last()@
    }
}

/// The pieces are as long as before.
pub open spec fn same_shape(a: Seq<Vec<u8>>, b: Seq<Vec<u8>>) -> bool {
    &&& a.len() == b.len()
    &&& forall|i: int| 0 <= i < a.len() ==> (#[trigger] a[i])@.len() == b[i]@.len()
}

/// `dst` with its front overwritten by as much of `src` as fits.
pub open spec fn overwritten(dst: Seq<u8>, src: Seq<u8>) -> Seq<u8> {
    Seq::new(
        dst.len(),
        |i: int|
            if i < src.len() {
                src[i]
            } else {
                dst[i]
            },
    )
}

/// Copies as much of `src` as fits, from byte `from` on, to the front of a
/// piece. Returns how many bytes that was.
fn copy_chunk(chunk: &mut Vec<u8>, src: &Vec<u8>, from: usize) -> (n: usize)
    requires
        from <= src@.len(),
    ensures
        n == if old(chunk)@.len() < src@.len() - from {
            old(chunk)@.len() as int
        } else {
            src@.len() - from
        },
        final(chunk)@ == overwritten(old(chunk)@, src@.skip(from as int)),
{
    let room: usize = src.len() - from;
    let n: usize = if chunk.len() < room {
        chunk.len()
    } else {
        room
    };
    let mut j: usize = 0;
    while j < n
        invariant
            j <= n,
            n <= chunk@.len(),
            chunk@.len() == old(chunk)@.len(),
            from + n <= src@.len() <= usize::MAX,
            forall|k: int| 0 <= k < j ==> #[trigger] chunk@[k] == src@[from + k],
            forall|k: int| j <= k < chunk@.len() ==> #[trigger] chunk@[k] == old(chunk)@[k],
        decreases n - j,
    {
        chunk[j] = src[from + j];
        j = j + 1;
    }
    assert(chunk@ =~= overwritten(old(chunk)@, src@.skip(from as int)));
    n
}

proof fn lemma_joined_step(c: Seq<Vec<u8>>, i: int)
    requires
        0 <= i < c.len(),
    ensures
        joined(c.take(i + 1)) == joined(c.take(i)) + c[i]@,
{
    assert(c.take(i + 1).drop_last() =~= c.take(i));
}

/// Copies `src` to a buffer that comes in pieces. Returns how many bytes were
/// written.
fn copy_out(src: &Vec<u8>, chunks: &mut Vec<Vec<u8>>) -> (written: usize)
    ensures
        same_shape(final(chunks)@, old(chunks)@),
        joined(final(chunks)@) == overwritten(joined(old(chunks)@), src@),
        written == if joined(old(chunks)@).len() < src@.len() {
            joined(old(chunks)@).len()
        } else {
            src@.len()
        },
{
    let ghost c = chunks@;
    let total: usize = src.len();
    let mut written: usize = 0;
    let mut i: usize = 0;
    assert(c.take(0) =~= Seq::empty());
    while i < chunks.len()
        invariant
            i <= c.len(),
            total == src@.len(),
            same_shape(chunks@, c),
            forall|k: int| i <= k < c.len() ==> #[trigger] chunks@[k] == c[k],
            joined(chunks@.take(i as int)) == overwritten(joined(c.take(i as int)), src@),
            written == if joined(c.take(i as int)).len() < src@.len() {
                joined(c.take(i as int)).len()
            } else {
                src@.len()
            },
        decreases c.len() - i,
    {
        let ghost was = chunks@;
        let n: usize = copy_chunk(&mut chunks[i], src, written);
        proof {
            lemma_joined_step(c, i as int);
            lemma_joined_step(chunks@, i as int);
            assert(chunks@.take(i as int) =~= was.take(i as int));
            let front = joined(c.take(i as int));
            assert(overwritten(front, src@) + chunks@[i as int]@ =~= overwritten(
                front + c[i as int]@,
                src@,
            )) by {
                let l = front.len() as int;
                let new = chunks@[i as int]@;
                assert forall|k: int| 0 <= k < new.len() implies #[trigger] new[k] == (if l + k
                    < src@.len() {
                    src@[l + k]
                } else {
                    c[i as int]@[k]
                }) by {
                    if l < src@.len() {
                        assert(written == l);
                    }
                }
            }
        }
        written = written + n;
        i = i + 1;
    }
    proof {
        assert(c.take(c.len() as int) =~= c);
        assert(chunks@.take(c.len() as int) =~= chunks@);
    }
    written
}

/// Copies the heap counters to the user's buffer. Returns 0, or -1 if the
/// buffer is too small.
pub fn sys_heap_stats(buffers: &mut Vec<Vec<u8>>, snap: &HeapSnapshot, st: &AllocStats) -> (r:
    isize)
    ensures
        same_shape(final(buffers)@, old(buffers)@),
        joined(final(buffers)@) == overwritten(
            joined(old(buffers)@),
            words_to_bytes(UserHeapStats::of(*snap, st@).words()),
        ),
        r == if joined(old(buffers)@).len() >= STATS_BYTES {
            0int
        } else {
            -1
        },
{
    if buffers.len() == 0 {
        assert(joined(buffers@) =~= Seq::empty());
        assert(overwritten(joined(buffers@), words_to_bytes(UserHeapStats::of(*snap, st@).words())) =~= Seq::empty());
        return -1;
    }
    let s = UserHeapStats::gather(snap, st);
    let src = s.to_bytes();
    let written: usize = copy_out(&src, buffers);
    if written == STATS_BYTES {
        0
    } else {
        -1
    }
}

} // verus!
