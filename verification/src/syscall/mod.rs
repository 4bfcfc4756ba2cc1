//! The system calls of a task, as steps of the kernel's state.

pub mod process;

use vstd::prelude::*;

verus! {

/// Number of the call that ends the task.
pub const SYSCALL_EXIT: usize = 93;

/// Number of the call that gives up the processor.
pub const SYSCALL_YIELD: usize = 124;

/// Number of the call that reads the time.
pub const SYSCALL_GET_TIME: usize = 169;

/// Number of the call that moves the end of the heap.
pub const SYSCALL_SBRK: usize = 214;

/// Number of the call that unmaps memory.
pub const SYSCALL_MUNMAP: usize = 215;

/// Number of the call that maps memory.
pub const SYSCALL_MMAP: usize = 222;

/// Number of the call that reports on the task.
pub const SYSCALL_TASK_INFO: usize = 410;

} // verus!
