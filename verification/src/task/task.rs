//! What the kernel keeps of one task.

use crate::config::{MAX_SYSCALL_NUM, VA_LIMIT};
use crate::mm::frame_allocator::PhysMemory;
use crate::mm::address::VirtAddr;
use crate::mm::memory_set::{
    area_resized, can_append_to, can_shrink_to, frames_passed, MemorySet,
};
use vstd::prelude::*;

verus! {

/// Where a task stands in its life.
#[derive(Clone, Copy, Debug, PartialEq, Eq, Structural)]
pub enum TaskStatus {
    /// Made, never run.
    UnInit,
    /// Waiting in the ready queue.
    Ready,
    /// On the processor.
    Running,
    /// Ended; its memory is given back.
    Exited,
}

/// One task: its number, its address space and what the kernel counts for
/// it.
pub struct TaskControlBlock {
    /// The task's number.
    pub pid: usize,
    /// Where the task stands in its life.
    pub task_status: TaskStatus,
    /// The task's address space.
    pub memory_set: MemorySet,
    /// How often the task made each system call, by the call's number.
    pub syscall_times: Vec<u32>,
    /// The time in milliseconds at which the task first ran.
    pub time: usize,
    /// The lowest address of the heap.
    pub heap_bottom: usize,
    /// The address after the heap's last byte.
    pub program_brk: usize,
}

impl TaskControlBlock {
    /// The address space is consistent, there is a counter for each
    /// system-call number, and the heap ends at or after its bottom, inside
    /// the 39-bit space and the range of a signed number.
    pub open spec fn wf(&self, mem: &PhysMemory) -> bool {
        &&& self.memory_set.wf(mem)
        &&& self.syscall_times@.len() == MAX_SYSCALL_NUM
        &&& self.heap_bottom <= self.program_brk
        &&& self.program_brk <= VA_LIMIT
        &&& self.program_brk <= isize::MAX
    }

    /// The end of the heap after a move by `size` bytes.
    pub open spec fn spec_new_brk(&self, size: i32) -> int {
        self.program_brk + size
    }

    /// The end of the heap can move by `size` bytes: it stays at or after
    /// the heap's bottom and in the range of addresses, and the heap's
    /// area, the first that starts at the page of the bottom, can be cut or
    /// extended to the new end.
    pub open spec fn can_move_brk(&self, mem: &PhysMemory, size: i32) -> bool {
        let new_brk = self.spec_new_brk(size);
        &&& self.heap_bottom <= new_brk <= VA_LIMIT
        &&& new_brk <= isize::MAX
        &&& if size < 0 {
            can_shrink_to(&self.memory_set, self.heap_bottom as u64, new_brk as u64)
        } else {
            can_append_to(&self.memory_set, mem, self.heap_bottom as u64, new_brk as u64)
        }
    }

    /// A task with the given number and address space that never ran and
    /// made no call; its heap is empty and starts at `heap_bottom`.
    pub fn new(pid: usize, memory_set: MemorySet, heap_bottom: usize) -> (t: TaskControlBlock)
        ensures
            t.pid == pid,
            t.task_status == TaskStatus::UnInit,
            t.memory_set == memory_set,
            t.syscall_times@ == Seq::new(MAX_SYSCALL_NUM as nat, |i: int| 0u32),
            t.time == 0,
            t.heap_bottom == heap_bottom,
            t.program_brk == heap_bottom,
    {
        let syscall_times: Vec<u32> = vec![0u32; MAX_SYSCALL_NUM];
        proof {
            assert(syscall_times@ =~= Seq::new(MAX_SYSCALL_NUM as nat, |i: int| 0u32));
        }
        TaskControlBlock {
            pid,
            task_status: TaskStatus::UnInit,
            memory_set,
            syscall_times,
            time: 0,
            heap_bottom,
            program_brk: heap_bottom,
        }
    }

    /// Moves the end of the heap by `size` bytes, up or down: the heap's
    /// area is extended or cut to the pages that the heap then touches. The
    /// result is the end of the heap before the move, or nothing where the
    /// move cannot be made; then nothing changes.
    #[verifier::rlimit(50)]
    pub fn change_program_brk(&mut self, mem: &mut PhysMemory, size: i32) -> (r: Option<usize>)
        requires
            old(self).wf(old(mem)),
        ensures
            final(self).wf(final(mem)),
            final(mem).wf(),
            final(self).pid == old(self).pid,
            final(self).task_status == old(self).task_status,
            final(self).syscall_times == old(self).syscall_times,
            final(self).time == old(self).time,
            final(self).heap_bottom == old(self).heap_bottom,
            final(self).memory_set.table().root() == old(self).memory_set.table().root(),
            r is Some <==> old(self).can_move_brk(old(mem), size),
            r is None ==> *final(self) == *old(self) && *final(mem) == *old(mem),
            r matches Some(brk) ==> {
                &&& brk == old(self).program_brk
                &&& final(self).program_brk == old(self).spec_new_brk(size)
                &&& area_resized(
                    &old(self).memory_set,
                    old(mem),
                    &final(self).memory_set,
                    final(mem),
                    old(self).heap_bottom as u64,
                    final(self).program_brk as u64,
                )
            },
            frames_passed(&old(self).memory_set, old(mem), &final(self).memory_set, final(mem)),
    {
        proof {
            self.memory_set.lemma_owned_allocated(mem);
        }
        let old_brk: usize = self.program_brk;
        let new_brk: usize = if size < 0 {
            let down: u64 = (-(size as i64)) as u64;
            if down > (old_brk - self.heap_bottom) as u64 {
                return None;
            }
            old_brk - (down as usize)
        } else {
            let up: u64 = size as u64;
            if up > VA_LIMIT - (old_brk as u64) || up > (isize::MAX as usize - old_brk) as u64 {
                return None;
            }
            old_brk + (up as usize)
        };
        let done: bool = if size < 0 {
            self.memory_set.shrink_to(
                mem,
                VirtAddr(self.heap_bottom as u64),
                VirtAddr(new_brk as u64),
            )
        } else {
            self.memory_set.append_to(mem, VirtAddr(self.heap_bottom as u64), VirtAddr(new_brk as u64))
        };
        if done {
            self.program_brk = new_brk;
            Some(old_brk)
        } else {
            None
        }
    }

    /// The task's number.
    pub fn getpid(&self) -> (pid: usize)
        ensures
            pid == self.pid,
    {
        self.pid
    }

    /// The root frame of the task's address space.
    pub fn get_user_token(&self) -> (t: u64)
        ensures
            t == self.memory_set.table().root(),
    {
        self.memory_set.token()
    }

    /// Counts one more call of the system call with the given number. A
    /// counter that is full stays full; a number that has no counter
    /// changes nothing.
    pub fn inc_call_times(&mut self, syscall_id: usize)
        ensures
            final(self).pid == old(self).pid,
            final(self).task_status == old(self).task_status,
            final(self).memory_set == old(self).memory_set,
            final(self).time == old(self).time,
            final(self).heap_bottom == old(self).heap_bottom,
            final(self).program_brk == old(self).program_brk,
            final(self).syscall_times@ == spec_counted(old(self).syscall_times@, syscall_id),
    {
        if syscall_id < self.syscall_times.len() {
            let n: u32 = self.syscall_times[syscall_id];
            if n < u32::MAX {
                self.syscall_times.set(syscall_id, n + 1);
            }
        }
        proof {
            assert(self.syscall_times@ =~= spec_counted(old(self).syscall_times@, syscall_id));
        }
    }
}

/// The counters after one more call of the system call `syscall_id`.
pub open spec fn spec_counted(times: Seq<u32>, syscall_id: usize) -> Seq<u32> {
    if syscall_id < times.len() && times[syscall_id as int] < u32::MAX {
        times.update(syscall_id as int, (times[syscall_id as int] + 1) as u32)
    } else {
        times
    }
}

} // verus!
