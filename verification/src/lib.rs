//! Resource management for a small RV64 kernel, with every operation
//! specified and proved.
//!
//! * [`mm`]: the SV39 virtual memory. Typed addresses, the allocator of
//!   physical frames, the three-level page table, and address spaces made
//!   of areas; on top of them the requests to map, unmap and resolve
//!   memory.
//! * [`task`]: tasks and the stride scheduler that picks the next one.
//! * [`kernel`]: the state of the whole: the memory, the kernel's own
//!   address space, the ready tasks and the running one.
//! * [`syscall`]: the system calls of a task as steps of that state.
//!
//! Physical memory is a value of its own, [`mm::frame_allocator::PhysMemory`]:
//! page tables live in its frames, and what a table maps is defined by the
//! walk that the hardware would make through them.

pub mod config;
pub mod kernel;
pub mod mm;
pub mod syscall;
pub mod task;
