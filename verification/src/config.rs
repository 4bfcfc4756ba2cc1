//! Constants shared by the memory and task subsystems.

use vstd::prelude::*;

verus! {

/// Bytes in one page.
pub const PAGE_SIZE: u64 = 4096;

/// Width of the offset inside a page.
pub const PAGE_SIZE_BITS: u64 = 12;

/// Entries in one page-table node.
pub const PTE_COUNT: usize = 512;

/// One past the largest virtual address (39 bits).
pub const VA_LIMIT: u64 = 0x80_0000_0000;

/// One past the largest virtual page number (27 bits).
pub const VPN_LIMIT: u64 = 0x800_0000;

/// One past the largest physical address (56 bits).
pub const PA_LIMIT: u64 = 0x100_0000_0000_0000;

/// One past the largest physical page number (44 bits).
pub const PPN_LIMIT: u64 = 0x1000_0000_0000;

/// Number of distinct system-call numbers that are counted per task.
pub const MAX_SYSCALL_NUM: usize = 500;

/// Stride added per turn to a task that never chose a priority.
pub const DEFAULT_PASS: usize = 16;

} // verus!
