//! Memory management and scheduling of a small kernel, verified.
//!
//! The kernel heap has two levels. A request of at most 1024 bytes is served
//! from the slab cache of its size class (`slab`), any other by the buddy
//! allocator (`buddy`), which also feeds the caches. `heap` routes the
//! requests and counts them (`stats`). Free blocks are linked through their
//! own first word (`linked_list`), in the memory that `memory` stands for.
//! `buddy_laws` and `heap_laws` state what holds of the heap as a whole: live
//! allocations are aligned, large enough and apart from each other, the heap
//! never writes to them, and freed neighbours are merged again. `accounting`
//! and `snapshot_laws` state what its figures mean.
//!
//! Page frames are handed out by the allocators of `frame_allocator`,
//! `frame_hybrid` and `frame_tier`; `frame_model` describes their free pages
//! as blocks, `frame_laws` states what holds of them, `frame_service_laws`
//! which pages they hand out, `frames` ties them to physical memory, and
//! `frame_bench` compares them.
//!
//! `manager` is the stride scheduler with the table of processes, `process`
//! the system calls, `user` and `heaptest` what programs make of them.
//! `workload` and `mixed` build streams of allocations and frees,
//! `workload_laws` states what they consist of, and `replay` runs one on a heap.
//!
//! `powers` and `blocks` hold what the two buddy systems share: powers of two,
//! and naturally aligned blocks.

use vstd::prelude::*;

pub mod accounting;
pub mod blocks;
pub mod buddy;
pub mod buddy_laws;
pub mod buddy_model;
pub mod config;
pub mod frame_allocator;
pub mod frame_bench;
pub mod frame_hybrid;
pub mod frame_laws;
pub mod frame_model;
pub mod frame_service_laws;
pub mod frame_set;
pub mod frame_tier;
pub mod frames;
pub mod heap;
pub mod heap_allocator;
pub mod heap_laws;
pub mod heaptest;
pub mod linked_list;
pub mod manager;
pub mod manager_laws;
pub mod memory;
pub mod mixed;
pub mod powers;
pub mod process;
pub mod process_laws;
pub mod replay;
pub mod slab;
pub mod snapshot_laws;
pub mod stats;
pub mod user;
pub mod user_bench;
pub mod workload;
pub mod workload_laws;

verus! {

} // verus!
