# kalloc

A verified two-level kernel heap (slab caches over a buddy allocator), the page
frame allocators next to it, a stride scheduler, and the system calls that make
them visible to programs.

* `src/` is the library. Every function states what it does in `requires` and
  `ensures`, and Verus proves it. The proof functions named `law_*`, most of
  them in modules named `*_laws`, state what holds of several operations
  together.
* `app/` is the program around it: the host benchmark against two other
  allocators, the heap behind a spinlock, the kernel's shared state, and the
  user programs.
* `tests/` runs the library on concrete values.

The heap works on a `Memory`: a run of words with the address of its first
byte. Addresses are plain numbers, and every operation says which words it may
write. A caller that shares a heap between threads guards it with a lock, as
`app/locked.rs` does.

Random sizes of the workloads come from the crate `fastrand`. That its draws
are below their bound and depend on nothing but its state and the width of
`usize` is the one fact that is taken from outside; see `draw_below` in
`src/workload.rs`.
