//! Sizes and addresses of the kernel.

use vstd::prelude::*;

verus! {

pub const USER_STACK_SIZE: usize = 8192;

pub const KERNEL_STACK_SIZE: usize = 8192;

pub const KERNEL_HEAP_SIZE: usize = 0x100_0000;

pub const PAGE_SIZE: usize = 0x1000;

pub const PAGE_SIZE_BITS: usize = 0xc;

pub const TRAMPOLINE: usize = usize::MAX - PAGE_SIZE + 1;

pub const TRAP_CONTEXT_BASE: usize = TRAMPOLINE - PAGE_SIZE;

/// Base of the per-process user heap, well above any plausible thread stack.
pub const USER_HEAP_BASE: usize = 0x4000_0000;

/// Hard cap on user heap size (1 GiB). Growing past it is refused.
pub const USER_HEAP_MAX_SIZE: usize = 0x4000_0000;

/// Sizes of memory: pages of 4096 bytes, stacks of two pages, a kernel heap of
/// 16 MiB, and the heap of a program from 1 GiB on, of at most 1 GiB. The two
/// highest pages of the address space hold the trampoline and, below it, the
/// context of a trap.
pub proof fn law_sizes()
    ensures
        PAGE_SIZE == 4096,
        PAGE_SIZE_BITS == 12,
        USER_STACK_SIZE == 2 * PAGE_SIZE,
        KERNEL_STACK_SIZE == 2 * PAGE_SIZE,
        KERNEL_HEAP_SIZE == 16 * 1024 * 1024,
        USER_HEAP_BASE == 1024 * 1024 * 1024,
        USER_HEAP_MAX_SIZE == 1024 * 1024 * 1024,
        TRAMPOLINE + 4096 == usize::MAX + 1,
        TRAP_CONTEXT_BASE + 4096 == TRAMPOLINE,
{
}

} // verus!
