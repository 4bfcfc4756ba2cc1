//! The system calls that concern the task itself: its end, its turn, its
//! memory and what the kernel knows about it.

use crate::kernel::{
    counted, lemma_tasks_rearranged, lemma_tasks_untouched, readmitted, scheduled, spaces_apart,
    tasks_ok, with_status, Kernel,
};
use crate::mm::address::PhysAddr;
use crate::mm::frame_allocator::PhysMemory;
use crate::mm::memory_set::{area_resized, frames_passed, MemorySet};
use crate::mm::{
    alloc_granted, alloc_virtual_memory, can_alloc, can_free, free_granted,
    free_virtual_memory, spec_translate, translate,
};
use crate::syscall::{
    SYSCALL_EXIT, SYSCALL_GET_TIME, SYSCALL_MMAP, SYSCALL_MUNMAP, SYSCALL_TASK_INFO,
    SYSCALL_YIELD,
};
use crate::task::manager::{pids_of, selection_table};
use crate::task::task::{spec_counted, TaskControlBlock, TaskStatus};
use vstd::prelude::*;

verus! {

/// A time in seconds and microseconds.
#[derive(Debug)]
pub struct TimeVal {
    pub sec: usize,
    pub usec: usize,
}

/// What the kernel reports on a task.
pub struct TaskInfo {
    /// Where the task stands in its life.
    pub status: TaskStatus,
    /// How often the task made each system call, by the call's number.
    pub syscall_times: Vec<u32>,
    /// The time in milliseconds since the task first ran.
    pub time: usize,
}

/// The running task changed its address space by a request of its own: the
/// kernel's address space and the other tasks are as consistent as they
/// were and map what they mapped.
#[verifier::rlimit(50)]
proof fn lemma_current_changed(
    rest: Seq<TaskControlBlock>,
    t0: TaskControlBlock,
    t1: TaskControlBlock,
    kernel_space: &MemorySet,
    mem1: &PhysMemory,
    mem2: &PhysMemory,
)
    requires
        kernel_space.wf(mem1),
        tasks_ok(seq![t0] + rest, mem1, kernel_space),
        frames_passed(&t0.memory_set, mem1, &t1.memory_set, mem2),
        t1.wf(mem2),
    ensures
        kernel_space.wf(mem2),
        tasks_ok(seq![t1] + rest, mem2, kernel_space),
{
    let all0 = seq![t0] + rest;
    let all1 = seq![t1] + rest;
    let ms0 = t0.memory_set;
    let ms1 = t1.memory_set;
    let touched = Set::new(|q: u64| ms0.owns(q) || ms1.owns(q));
    let f = |k: int| k + 1;
    assert(all0[0] == t0);
    assert(all0[0].wf(mem1));
    assert forall|k: int| 0 <= k < rest.len() implies {
        &&& 0 <= #[trigger] f(k) < all0.len()
        &&& rest[k].memory_set == all0[f(k)].memory_set
        &&& rest[k].wf(mem1)
    } by {
        assert(all0[k + 1] == rest[k]);
        assert(all0[k + 1].wf(mem1));
    }
    lemma_tasks_rearranged(all0, rest, f, mem1, kernel_space);
    kernel_space.lemma_owned_allocated(mem1);
    t1.memory_set.lemma_owned_allocated(mem2);
    assert(spaces_apart(&all0[0].memory_set, kernel_space));
    assert forall|q: u64| #[trigger] kernel_space.owns(q) implies !touched.contains(q) by {
        assert(mem1.is_allocated(q));
    }
    assert forall|i: int, q: u64|
        0 <= i < rest.len() && #[trigger] rest[i].memory_set.owns(q) implies !touched.contains(
        q,
    ) by {
        assert(all0[i + 1] == rest[i]);
        assert(spaces_apart(&all0[0].memory_set, &all0[i + 1].memory_set));
        assert(rest[i].wf(mem1));
        rest[i].memory_set.lemma_owned_allocated(mem1);
        assert(mem1.is_allocated(q));
    }
    lemma_tasks_untouched(rest, kernel_space, mem1, mem2, touched);
    assert forall|i: int| 0 <= i < all1.len() implies (#[trigger] all1[i]).wf(mem2)
        && spaces_apart(&all1[i].memory_set, kernel_space) by {
        if i > 0 {
            assert(all1[i] == rest[i - 1]);
            assert(rest[i - 1].wf(mem2));
        } else {
            assert forall|q: u64| !(ms1.owns(q) && kernel_space.owns(q)) by {
                if ms1.owns(q) {
                    assert(touched.contains(q));
                }
            }
        }
    }
    assert forall|i: int, j: int|
        0 <= i < all1.len() && 0 <= j < all1.len() && i != j implies spaces_apart(
        &(#[trigger] all1[i]).memory_set,
        &(#[trigger] all1[j]).memory_set,
    ) by {
        if i > 0 && j > 0 {
            assert(all1[i] == rest[i - 1]);
            assert(all1[j] == rest[j - 1]);
            assert(spaces_apart(&rest[i - 1].memory_set, &rest[j - 1].memory_set));
        } else {
            let k = if i > 0 {
                i
            } else {
                j
            };
            assert(all1[k] == rest[k - 1]);
            assert forall|q: u64| !(ms1.owns(q) && rest[k - 1].memory_set.owns(q)) by {
                if ms1.owns(q) {
                    assert(touched.contains(q));
                }
            }
        }
    }
}

/// The running task ends: the call is counted, the task's frames go back
/// to the allocator, and the next task is put on the processor.
pub fn sys_exit(kernel: &mut Kernel, exit_code: i32)
    requires
        old(kernel).wf(),
    ensures
        final(kernel).wf(),
        final(kernel).kernel_space == old(kernel).kernel_space,
        final(kernel).satp == old(kernel).satp,
        final(kernel).clock_ms == old(kernel).clock_ms,
        final(kernel).mem.state().start == old(kernel).mem.state().start,
        final(kernel).mem.state().end == old(kernel).mem.state().end,
        match old(kernel).current {
            Some(t0) => {
                &&& forall|q: u64| #[trigger]
                    final(kernel).mem.is_allocated(q) <==> (old(kernel).mem.is_allocated(q)
                        && !t0.memory_set.owns(q))
                &&& final(kernel).mem.state() == old(kernel).mem.state().after_deallocs(
                    t0.memory_set.release_order(),
                )
            },
            None => final(kernel).mem == old(kernel).mem,
        },
        ({
            let table1 = match old(kernel).current {
                Some(t0) => old(kernel).manager.table().remove(t0.pid),
                None => old(kernel).manager.table(),
            };
            &&& final(kernel).manager.table() == selection_table(
                table1,
                pids_of(old(kernel).manager.queue()),
            )
            &&& scheduled(
                old(kernel).manager.queue(),
                final(kernel).manager.table(),
                old(kernel).clock_ms,
                final(kernel).manager.queue(),
                final(kernel).current,
            )
        }),
{
    kernel.inc_call_times(SYSCALL_EXIT);
    kernel.exit_current_and_run_next();
}

/// The running task gives up the processor: the call is counted, the
/// task's stride grows by its pass, the task goes to the end of the ready
/// queue, and the next task is put on the processor. The result is 0.
pub fn sys_yield(kernel: &mut Kernel) -> (r: isize)
    requires
        old(kernel).wf(),
    ensures
        r == 0,
        final(kernel).wf(),
        final(kernel).mem == old(kernel).mem,
        final(kernel).kernel_space == old(kernel).kernel_space,
        final(kernel).satp == old(kernel).satp,
        final(kernel).clock_ms == old(kernel).clock_ms,
        match old(kernel).current {
            None => {
                &&& final(kernel).manager.table() == selection_table(
                    old(kernel).manager.table(),
                    pids_of(old(kernel).manager.queue()),
                )
                &&& scheduled(
                    old(kernel).manager.queue(),
                    final(kernel).manager.table(),
                    old(kernel).clock_ms,
                    final(kernel).manager.queue(),
                    final(kernel).current,
                )
            },
            Some(t0) => exists|t1: TaskControlBlock|
                {
                    let queue1 = old(kernel).manager.queue().push(
                        with_status(t1, TaskStatus::Ready),
                    );
                    let table1 = readmitted(old(kernel).manager.table(), t0.pid);
                    &&& #[trigger] counted(t0, t1, SYSCALL_YIELD)
                    &&& final(kernel).manager.table() == selection_table(table1, pids_of(queue1))
                    &&& scheduled(
                        queue1,
                        final(kernel).manager.table(),
                        old(kernel).clock_ms,
                        final(kernel).manager.queue(),
                        final(kernel).current,
                    )
                },
        },
{
    kernel.inc_call_times(SYSCALL_YIELD);
    kernel.suspend_current_and_run_next();
    0
}

/// Reads the time for the running task. The call is counted; the time is
/// not delivered, and the result is -1.
pub fn sys_get_time(kernel: &mut Kernel, ts: usize, tz: usize) -> (r: isize)
    requires
        old(kernel).wf(),
    ensures
        r == -1,
        final(kernel).wf(),
        final(kernel).mem == old(kernel).mem,
        final(kernel).kernel_space == old(kernel).kernel_space,
        final(kernel).satp == old(kernel).satp,
        final(kernel).clock_ms == old(kernel).clock_ms,
        final(kernel).manager == old(kernel).manager,
        match old(kernel).current {
            Some(t0) => final(kernel).current matches Some(t1) && counted(
                t0,
                t1,
                SYSCALL_GET_TIME,
            ),
            None => final(kernel).current is None,
        },
{
    kernel.inc_call_times(SYSCALL_GET_TIME);
    -1
}

/// Reports on the running task: its status, its call counters with this
/// call counted, and the time since it first ran. The report comes with
/// the physical address behind the task's address `ti`, where it is to be
/// stored. The result is 0 with a report, and -1 with none where no task
/// runs or the address is not mapped in the task's address space.
pub fn sys_task_info(kernel: &mut Kernel, ti: usize) -> (r: (isize, Option<(PhysAddr, TaskInfo)>))
    requires
        old(kernel).wf(),
    ensures
        final(kernel).wf(),
        final(kernel).mem == old(kernel).mem,
        final(kernel).kernel_space == old(kernel).kernel_space,
        final(kernel).satp == old(kernel).satp,
        final(kernel).clock_ms == old(kernel).clock_ms,
        final(kernel).manager == old(kernel).manager,
        match old(kernel).current {
            Some(t0) => {
                &&& final(kernel).current matches Some(t1) && counted(t0, t1, SYSCALL_TASK_INFO)
                &&& match spec_translate(&old(kernel).mem, t0.memory_set.table().root(), ti) {
                    Some(pa) => {
                        &&& r.0 == 0
                        &&& r.1 matches Some((target, info))
                        &&& target == pa
                        &&& info.status == t0.task_status
                        &&& info.syscall_times@ == spec_counted(
                            t0.syscall_times@,
                            SYSCALL_TASK_INFO,
                        )
                        &&& info.time == if old(kernel).clock_ms >= t0.time {
                            old(kernel).clock_ms - t0.time
                        } else {
                            0
                        }
                    },
                    None => r.0 == -1 && r.1 is None,
                }
            },
            None => final(kernel).current is None && r.0 == -1 && r.1 is None,
        },
{
    kernel.inc_call_times(SYSCALL_TASK_INFO);
    proof {
        kernel.kernel_space.lemma_owned_allocated(&kernel.mem);
    }
    match &kernel.current {
        None => (-1, None),
        Some(task) => {
            match translate(&kernel.mem, task.get_user_token(), ti) {
                Err(_) => (-1, None),
                Ok(target) => {
                    let time: usize = if kernel.clock_ms >= task.time {
                        kernel.clock_ms - task.time
                    } else {
                        0
                    };
                    let info = TaskInfo {
                        status: task.task_status,
                        syscall_times: task.syscall_times.clone(),
                        time,
                    };
                    (0, Some((target, info)))
                },
            }
        },
    }
}

/// Maps memory for the running task: the call is counted, and the request
/// goes to the task's address space. The result is 0 where the request is
/// granted, and -1 where it is not or no task runs; then no memory
/// changes.
#[verifier::rlimit(50)]
pub fn sys_mmap(kernel: &mut Kernel, start: usize, len: usize, port: usize) -> (r: isize)
    requires
        old(kernel).wf(),
    ensures
        final(kernel).wf(),
        final(kernel).kernel_space == old(kernel).kernel_space,
        final(kernel).satp == old(kernel).satp,
        final(kernel).clock_ms == old(kernel).clock_ms,
        final(kernel).manager == old(kernel).manager,
        r == 0 || r == -1,
        match old(kernel).current {
            Some(t0) => {
                &&& final(kernel).current matches Some(t1)
                &&& t1.pid == t0.pid
                &&& t1.task_status == t0.task_status
                &&& t1.time == t0.time
                &&& t1.heap_bottom == t0.heap_bottom
                &&& t1.program_brk == t0.program_brk
                &&& t1.syscall_times@ == spec_counted(t0.syscall_times@, SYSCALL_MMAP)
                &&& r == 0 <==> can_alloc(&t0.memory_set, &old(kernel).mem, start, len, port)
                &&& r == 0 ==> alloc_granted(
                    &t0.memory_set,
                    &old(kernel).mem,
                    &t1.memory_set,
                    &final(kernel).mem,
                    start,
                    len,
                    port,
                )
                &&& r == -1 ==> t1.memory_set == t0.memory_set
                    && final(kernel).mem == old(kernel).mem
            },
            None => {
                &&& r == -1
                &&& final(kernel).current is None
                &&& final(kernel).mem == old(kernel).mem
            },
        },
{
    kernel.inc_call_times(SYSCALL_MMAP);
    let ghost k1 = *kernel;
    match kernel.current.take() {
        None => -1,
        Some(mut task) => {
            let ghost t0 = task;
            proof {
                assert(k1.tasks()[0].wf(&k1.mem));
            }
            let r = if start % 4096 != 0 || port > 7 || port == 0 {
                -1
            } else {
                alloc_virtual_memory(&mut task.memory_set, &mut kernel.mem, start, len, port)
            };
            kernel.current = Some(task);
            proof {
                if r == 0 {
                    assert(k1.tasks() =~= seq![t0] + k1.manager.queue());
                    lemma_current_changed(
                        k1.manager.queue(),
                        t0,
                        task,
                        &k1.kernel_space,
                        &k1.mem,
                        &kernel.mem,
                    );
                    assert(kernel.tasks() =~= seq![task] + k1.manager.queue());
                } else {
                    assert(kernel.tasks() =~= k1.tasks());
                }
            }
            r
        },
    }
}

/// Unmaps memory of the running task: the call is counted, and the
/// request goes to the task's address space. The result is 0 where the
/// request is granted, and -1 where it is not or no task runs; then no
/// memory changes.
#[verifier::rlimit(50)]
pub fn sys_munmap(kernel: &mut Kernel, start: usize, len: usize) -> (r: isize)
    requires
        old(kernel).wf(),
    ensures
        final(kernel).wf(),
        final(kernel).kernel_space == old(kernel).kernel_space,
        final(kernel).satp == old(kernel).satp,
        final(kernel).clock_ms == old(kernel).clock_ms,
        final(kernel).manager == old(kernel).manager,
        r == 0 || r == -1,
        match old(kernel).current {
            Some(t0) => {
                &&& final(kernel).current matches Some(t1)
                &&& t1.pid == t0.pid
                &&& t1.task_status == t0.task_status
                &&& t1.time == t0.time
                &&& t1.heap_bottom == t0.heap_bottom
                &&& t1.program_brk == t0.program_brk
                &&& t1.syscall_times@ == spec_counted(t0.syscall_times@, SYSCALL_MUNMAP)
                &&& r == 0 <==> can_free(&t0.memory_set, &old(kernel).mem, start, len)
                &&& r == 0 ==> free_granted(
                    &t0.memory_set,
                    &old(kernel).mem,
                    &t1.memory_set,
                    &final(kernel).mem,
                    start,
                    len,
                )
                &&& r == -1 ==> t1.memory_set == t0.memory_set
                    && final(kernel).mem == old(kernel).mem
            },
            None => {
                &&& r == -1
                &&& final(kernel).current is None
                &&& final(kernel).mem == old(kernel).mem
            },
        },
{
    kernel.inc_call_times(SYSCALL_MUNMAP);
    let ghost k1 = *kernel;
    match kernel.current.take() {
        None => -1,
        Some(mut task) => {
            let ghost t0 = task;
            proof {
                assert(k1.tasks()[0].wf(&k1.mem));
            }
            let r = if start % 4096 != 0 {
                -1
            } else {
                free_virtual_memory(&mut task.memory_set, &mut kernel.mem, start, len)
            };
            kernel.current = Some(task);
            proof {
                if r == 0 {
                    assert(k1.tasks() =~= seq![t0] + k1.manager.queue());
                    lemma_current_changed(
                        k1.manager.queue(),
                        t0,
                        task,
                        &k1.kernel_space,
                        &k1.mem,
                        &kernel.mem,
                    );
                    assert(kernel.tasks() =~= seq![task] + k1.manager.queue());
                } else {
                    assert(kernel.tasks() =~= k1.tasks());
                }
            }
            r
        },
    }
}

/// Moves the end of the running task's heap by `size` bytes. The result
/// is the end of the heap before the move, and -1 where the move cannot
/// be made or no task runs; then nothing changes.
#[verifier::rlimit(50)]
pub fn sys_sbrk(kernel: &mut Kernel, size: i32) -> (r: isize)
    requires
        old(kernel).wf(),
    ensures
        final(kernel).wf(),
        final(kernel).kernel_space == old(kernel).kernel_space,
        final(kernel).satp == old(kernel).satp,
        final(kernel).clock_ms == old(kernel).clock_ms,
        final(kernel).manager == old(kernel).manager,
        match old(kernel).current {
            Some(t0) => {
                &&& final(kernel).current matches Some(t1)
                &&& t1.pid == t0.pid
                &&& t1.task_status == t0.task_status
                &&& t1.time == t0.time
                &&& t1.heap_bottom == t0.heap_bottom
                &&& t1.syscall_times == t0.syscall_times
                &&& if t0.can_move_brk(&old(kernel).mem, size) {
                    &&& r == t0.program_brk
                    &&& t1.program_brk == t0.spec_new_brk(size)
                    &&& area_resized(
                        &t0.memory_set,
                        &old(kernel).mem,
                        &t1.memory_set,
                        &final(kernel).mem,
                        t0.heap_bottom as u64,
                        t1.program_brk as u64,
                    )
                } else {
                    &&& r == -1
                    &&& t1 == t0
                    &&& final(kernel).mem == old(kernel).mem
                }
            },
            None => {
                &&& r == -1
                &&& final(kernel).current is None
                &&& final(kernel).mem == old(kernel).mem
            },
        },
{
    let ghost k0 = *kernel;
    match kernel.current.take() {
        None => -1,
        Some(mut task) => {
            let ghost t0 = task;
            proof {
                assert(k0.tasks()[0].wf(&k0.mem));
            }
            let moved = task.change_program_brk(&mut kernel.mem, size);
            kernel.current = Some(task);
            proof {
                assert(k0.tasks() =~= seq![t0] + k0.manager.queue());
                lemma_current_changed(
                    k0.manager.queue(),
                    t0,
                    task,
                    &k0.kernel_space,
                    &k0.mem,
                    &kernel.mem,
                );
                assert(kernel.tasks() =~= seq![task] + k0.manager.queue());
            }
            match moved {
                Some(old_brk) => old_brk as isize,
                None => -1,
            }
        },
    }
}

} // verus!
