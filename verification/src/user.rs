//! User side of the system calls.

use crate::heap::HeapSnapshot;
use crate::process;
use crate::process::{Child, UserHeapStats, STATS_BYTES};
use crate::stats::StatsView;
use vstd::prelude::*;

verus! {

/// Counters of the kernel heap as a program reads them. The order of the
/// fields is that of `UserHeapStats`.
#[derive(Debug, Clone, Copy, PartialEq, Eq, Structural)]
pub struct KernelHeapStats {
    pub buddy_total: u64,
    pub buddy_used: u64,
    pub slab_provisioned: u64,
    pub slab_free: u64,
    pub allocs: u64,
    pub frees: u64,
    pub bytes_allocated: u64,
    pub bytes_freed: u64,
    pub slab_hits: u64,
    pub buddy_calls: u64,
    pub oom: u64,
}

impl Default for KernelHeapStats {
    fn default() -> (r: KernelHeapStats)
        ensures
            r.words() == Seq::new(11, |i: int| 0u64),
    {
        let r = KernelHeapStats {
            buddy_total: 0,
            buddy_used: 0,
            slab_provisioned: 0,
            slab_free: 0,
            allocs: 0,
            frees: 0,
            bytes_allocated: 0,
            bytes_freed: 0,
            slab_hits: 0,
            buddy_calls: 0,
            oom: 0,
        };
        assert(r.words() =~= Seq::new(11, |i: int| 0u64));
        r
    }
}

/// Word `k` of a row of words lies in its own eight bytes.
pub proof fn lemma_word_bytes(words: Seq<u64>, k: int)
    requires
        0 <= k < words.len(),
    ensures
        process::words_to_bytes(words).len() == 8 * words.len(),
        process::words_to_bytes(words).subrange(8 * k, 8 * k + 8)
            == vstd::bytes::spec_u64_to_le_bytes(words[k]),
    decreases words.len(),
{
    vstd::bytes::lemma_auto_spec_u64_to_from_le_bytes();
    let init = words.drop_last();
    let all = process::words_to_bytes(words);
    let last = vstd::bytes::spec_u64_to_le_bytes(words.last());
    assert(last.len() == 8);
    lemma_bytes_len(init);
    if k == words.len() - 1 {
        assert(all.subrange(8 * k, 8 * k + 8) =~= last);
    } else {
        lemma_word_bytes(init, k);
        assert(all.subrange(8 * k, 8 * k + 8) =~= process::words_to_bytes(init).subrange(
            8 * k,
            8 * k + 8,
        ));
    }
}

proof fn lemma_bytes_len(words: Seq<u64>)
    ensures
        process::words_to_bytes(words).len() == 8 * words.len(),
    decreases words.len(),
{
    vstd::bytes::lemma_auto_spec_u64_to_from_le_bytes();
    if words.len() > 0 {
        assert(vstd::bytes::spec_u64_to_le_bytes(words.last()).len() == 8);
        lemma_bytes_len(words.drop_last());
    }
}

/// The word that starts at byte `8 * k`.
pub open spec fn word_at(bytes: Seq<u8>, k: int) -> u64 {
    vstd::bytes::spec_u64_from_le_bytes(bytes.subrange(8 * k, 8 * k + 8))
}

/// The words of a whole buffer.
pub open spec fn stats_words(bytes: Seq<u8>) -> Seq<u64> {
    Seq::new(11, |k: int| word_at(bytes, k))
}

fn read_word(bytes: &Vec<u8>, k: usize) -> (r: u64)
    requires
        bytes@.len() == STATS_BYTES,
        k < 11,
    ensures
        r == word_at(bytes@, k as int),
{
    vstd::bytes::u64_from_le_bytes(
        vstd::slice::slice_subrange(bytes.as_slice(), 8 * k, 8 * k + 8),
    )
}

impl KernelHeapStats {
    pub open spec fn words(self) -> Seq<u64> {
        seq![
            self.buddy_total,
            self.buddy_used,
            self.slab_provisioned,
            self.slab_free,
            self.allocs,
            self.frees,
            self.bytes_allocated,
            self.bytes_freed,
            self.slab_hits,
            self.buddy_calls,
            self.oom,
        ]
    }

    /// The counters that these bytes hold.
    pub fn from_bytes(bytes: &Vec<u8>) -> (r: KernelHeapStats)
        requires
            bytes@.len() == STATS_BYTES,
        ensures
            r.words() == stats_words(bytes@),
    {
        let r = KernelHeapStats {
            buddy_total: read_word(bytes, 0),
            buddy_used: read_word(bytes, 1),
            slab_provisioned: read_word(bytes, 2),
            slab_free: read_word(bytes, 3),
            allocs: read_word(bytes, 4),
            frees: read_word(bytes, 5),
            bytes_allocated: read_word(bytes, 6),
            bytes_freed: read_word(bytes, 7),
            slab_hits: read_word(bytes, 8),
            buddy_calls: read_word(bytes, 9),
            oom: read_word(bytes, 10),
        };
        assert(r.words() =~= stats_words(bytes@));
        r
    }
}

/// Reading back the bytes that the kernel writes gives the same words.
pub proof fn law_stats_read_back(words: Seq<u64>, k: int)
    requires
        0 <= k < words.len(),
    ensures
        process::words_to_bytes(words).len() == 8 * words.len(),
        word_at(process::words_to_bytes(words), k) == words[k],
{
    vstd::bytes::lemma_auto_spec_u64_to_from_le_bytes();
    lemma_word_bytes(words, k);
    assert(vstd::bytes::spec_u64_from_le_bytes(vstd::bytes::spec_u64_to_le_bytes(words[k]))
        == words[k]);
}

/// The answer of the kernel to a request for the heap counters says that they
/// have arrived.
pub fn heap_stats_ok(answer: isize) -> (r: bool)
    ensures
        r == (answer == 0),
{
    answer == 0
}

/// Takes the heap counters from the system call: `answer` is what the kernel
/// answered, `bytes` what lies in the buffer after the call, and the buffer is
/// all of `out`. Any answer but zero is a failure.
pub fn read_heap_stats(out: &mut KernelHeapStats, answer: isize, bytes: &Vec<u8>) -> (r: bool)
    requires
        bytes@.len() == STATS_BYTES,
    ensures
        r == (answer == 0),
        final(out).words() == stats_words(bytes@),
{
    *out = KernelHeapStats::from_bytes(bytes);
    heap_stats_ok(answer)
}

/// Every counter arrives in its own field: when the kernel reaches a whole
/// buffer, in whatever pieces, what it leaves there reads as the words that it
/// has gathered.
pub proof fn law_heap_stats_arrive(buffer: Seq<u8>, s: UserHeapStats)
    requires
        buffer.len() == STATS_BYTES,
    ensures
        stats_words(process::overwritten(buffer, process::words_to_bytes(s.words()))) == s.words(),
{
    let words = s.words();
    let after = process::overwritten(buffer, process::words_to_bytes(words));
    lemma_bytes_len(words);
    assert(after =~= process::words_to_bytes(words));
    assert forall|k: int| 0 <= k < 11 implies #[trigger] stats_words(after)[k] == words[k] by {
        law_stats_read_back(words, k);
    }
    assert(stats_words(after) =~= words);
}

/// A program that reads the counters that the kernel has written to its buffer
/// finds each in the field of its name.
pub proof fn law_counters_by_name(
    buffer: Seq<u8>,
    snap: HeapSnapshot,
    st: StatsView,
    out: KernelHeapStats,
)
    requires
        buffer.len() == 88,
        out.words() == stats_words(
            process::overwritten(
                buffer,
                process::words_to_bytes(UserHeapStats::of(snap, st).words()),
            ),
        ),
    ensures
        out.buddy_total == snap.buddy_total as u64,
        out.buddy_used == snap.buddy_used as u64,
        out.slab_provisioned == snap.slab_provisioned as u64,
        out.slab_free == snap.slab_free as u64,
        out.allocs == st.allocs,
        out.frees == st.frees,
        out.bytes_allocated == st.bytes_allocated,
        out.bytes_freed == st.bytes_freed,
        out.slab_hits == st.slab_hits,
        out.buddy_calls == st.buddy_calls,
        out.oom == st.oom,
{
    let s = UserHeapStats::of(snap, st);
    law_heap_stats_arrive(buffer, s);
    let a = out.words();
    let b = s.words();
    assert(a[0] == b[0] && a[1] == b[1] && a[2] == b[2] && a[3] == b[3] && a[4] == b[4] && a[5]
        == b[5] && a[6] == b[6] && a[7] == b[7] && a[8] == b[8] && a[9] == b[9] && a[10] == b[10]);
}

/// A program reads each counter from its own eight bytes, in this order.
pub proof fn law_fields_by_place(bytes: Seq<u8>, out: KernelHeapStats)
    requires
        bytes.len() == 88,
        out.words() == stats_words(bytes),
    ensures
        ({
            let word = |k: int|
                vstd::bytes::spec_u64_from_le_bytes(bytes.subrange(8 * k, 8 * k + 8));
            &&& out.buddy_total == word(0)
            &&& out.buddy_used == word(1)
            &&& out.slab_provisioned == word(2)
            &&& out.slab_free == word(3)
            &&& out.allocs == word(4)
            &&& out.frees == word(5)
            &&& out.bytes_allocated == word(6)
            &&& out.bytes_freed == word(7)
            &&& out.slab_hits == word(8)
            &&& out.buddy_calls == word(9)
            &&& out.oom == word(10)
        }),
{
    let a = out.words();
    let b = stats_words(bytes);
    assert(a[0] == b[0] && a[1] == b[1] && a[2] == b[2] && a[3] == b[3] && a[4] == b[4] && a[5]
        == b[5] && a[6] == b[6] && a[7] == b[7] && a[8] == b[8] && a[9] == b[9] && a[10] == b[10]);
}

/// A wait is tried again exactly if it was answered -2; any other answer is
/// handed on as it is.
pub proof fn law_wait_outcome(answer: isize)
    ensures
        wait_outcome(answer) is None <==> answer == -2,
        wait_outcome(answer) is Some ==> wait_outcome(answer).unwrap() == answer,
{
}

/// What a program does with the answer to a wait: -2 means that it yields and
/// asks again (`None`), anything else is the result.
pub open spec fn wait_outcome(answer: isize) -> Option<isize> {
    if answer == -2 {
        None
    } else {
        Some(answer)
    }
}

/// One try of waiting for any child.
pub fn wait(children: &mut Vec<Child>, exit_code: &mut i32) -> (r: Option<isize>)
    ensures
        r == wait_outcome(process::wait_answer(old(children)@, -1isize)),
        final(children)@ == process::after_wait(old(children)@, -1isize),
        *final(exit_code) == process::code_after_wait(old(children)@, -1isize, *old(exit_code)),
{
    wait_again(process::sys_waitpid(children, -1, exit_code))
}

/// One try of waiting for the child `pid`.
pub fn waitpid(children: &mut Vec<Child>, pid: usize, exit_code: &mut i32) -> (r: Option<isize>)
    ensures
        r == wait_outcome(process::wait_answer(old(children)@, pid as isize)),
        final(children)@ == process::after_wait(old(children)@, pid as isize),
        *final(exit_code) == process::code_after_wait(
            old(children)@,
            pid as isize,
            *old(exit_code),
        ),
{
    wait_again(process::sys_waitpid(children, pid as isize, exit_code))
}

/// Waits for the child `pid` without yielding.
pub fn waitpid_nb(children: &mut Vec<Child>, pid: usize, exit_code: &mut i32) -> (r: isize)
    ensures
        r == process::wait_answer(old(children)@, pid as isize),
        final(children)@ == process::after_wait(old(children)@, pid as isize),
        *final(exit_code) == process::code_after_wait(
            old(children)@,
            pid as isize,
            *old(exit_code),
        ),
{
    process::sys_waitpid(children, pid as isize, exit_code)
}

/// What to do with the answer to a wait for a child or a thread.
pub fn wait_again(answer: isize) -> (r: Option<isize>)
    ensures
        r == wait_outcome(answer),
{
    if answer == -2 {
        None
    } else {
        Some(answer)
    }
}

} // verus!
