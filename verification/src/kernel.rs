//! The kernel's state: the physical memory, the kernel's own address
//! space, the ready tasks and the running one. Every frame that is handed
//! out belongs to at most one address space.

use crate::config::{DEFAULT_PASS, PPN_LIMIT, VA_LIMIT, VPN_LIMIT};
use crate::mm::address::{PhysPageNum, VirtAddr};
use crate::mm::frame_allocator::PhysMemory;
use crate::mm::init;
use crate::mm::memory_set::{MapPermission, MapType, MemorySet, PERM_R, PERM_U, PERM_W};
use crate::mm::page_table::{spec_frames_needed, spec_nodes_taken};
use crate::mm::spec_satp;
use crate::task::manager::{
    add_task, advanced, fetch_task, lemma_next_position, next_position, pids_of, selection_table,
    StrideTable,
    TaskManager,
};
use crate::task::task::{spec_counted, TaskControlBlock, TaskStatus};
use vstd::prelude::*;

verus! {

/// Two address spaces own no frame in common.
pub open spec fn spaces_apart(a: &MemorySet, b: &MemorySet) -> bool {
    forall|q: u64| #![trigger a.owns(q)] #![trigger b.owns(q)] !(a.owns(q) && b.owns(q))
}

/// Every task is consistent, and no two of the tasks' address spaces and
/// the kernel's own have a frame in common.
pub open spec fn tasks_ok(
    tasks: Seq<TaskControlBlock>,
    mem: &PhysMemory,
    kernel_space: &MemorySet,
) -> bool {
    &&& forall|i: int|
        0 <= i < tasks.len() ==> (#[trigger] tasks[i]).wf(mem) && spaces_apart(
            &tasks[i].memory_set,
            kernel_space,
        )
    &&& forall|i: int, j: int|
        0 <= i < tasks.len() && 0 <= j < tasks.len() && i != j ==> spaces_apart(
            &(#[trigger] tasks[i]).memory_set,
            &(#[trigger] tasks[j]).memory_set,
        )
}

/// A selection of tasks, in any order and with other bookkeeping but the
/// same address spaces, is as consistent as the tasks it is made from.
#[verifier::rlimit(50)]
pub proof fn lemma_tasks_rearranged(
    tasks: Seq<TaskControlBlock>,
    others: Seq<TaskControlBlock>,
    from: spec_fn(int) -> int,
    mem: &PhysMemory,
    kernel_space: &MemorySet,
)
    requires
        tasks_ok(tasks, mem, kernel_space),
        forall|k: int|
            0 <= k < others.len() ==> {
                &&& 0 <= #[trigger] from(k) < tasks.len()
                &&& others[k].memory_set == tasks[from(k)].memory_set
                &&& others[k].wf(mem)
            },
        forall|k: int, l: int|
            0 <= k < others.len() && 0 <= l < others.len() && k != l ==> #[trigger] from(k)
                != #[trigger] from(l),
    ensures
        tasks_ok(others, mem, kernel_space),
{
    assert forall|k: int| 0 <= k < others.len() implies (#[trigger] others[k]).wf(mem)
        && spaces_apart(&others[k].memory_set, kernel_space) by {
        let i = from(k);
        assert(tasks[i].wf(mem));
    }
    assert forall|k: int, l: int|
        0 <= k < others.len() && 0 <= l < others.len() && k != l implies spaces_apart(
        &(#[trigger] others[k]).memory_set,
        &(#[trigger] others[l]).memory_set,
    ) by {
        let i = from(k);
        let j = from(l);
        assert(spaces_apart(&tasks[i].memory_set, &tasks[j].memory_set));
    }
}

/// What happens to frames that none of the tasks and not the kernel own
/// leaves them all consistent.
#[verifier::rlimit(50)]
pub proof fn lemma_tasks_untouched(
    tasks: Seq<TaskControlBlock>,
    kernel_space: &MemorySet,
    mem1: &PhysMemory,
    mem2: &PhysMemory,
    touched: Set<u64>,
)
    requires
        kernel_space.wf(mem1),
        tasks_ok(tasks, mem1, kernel_space),
        mem2.wf(),
        mem2.state().start == mem1.state().start,
        mem2.state().end == mem1.state().end,
        forall|q: u64| #[trigger] kernel_space.owns(q) ==> !touched.contains(q),
        forall|i: int, q: u64|
            0 <= i < tasks.len() && #[trigger] tasks[i].memory_set.owns(q) ==> !touched.contains(q),
        forall|q: u64|
            !touched.contains(q) && mem1.is_allocated(q) ==> #[trigger] mem2.is_allocated(q),
        forall|q: u64|
            !touched.contains(q) && mem1.contains(q) ==> #[trigger] mem2.frame(q) == mem1.frame(q),
    ensures
        kernel_space.wf(mem2),
        tasks_ok(tasks, mem2, kernel_space),
        forall|u: u64| #[trigger] kernel_space.walk(mem2, u) == kernel_space.walk(mem1, u),
        forall|i: int, u: u64|
            0 <= i < tasks.len() ==> #[trigger] tasks[i].memory_set.walk(mem2, u)
                == tasks[i].memory_set.walk(mem1, u),
{
    kernel_space.lemma_untouched(mem1, mem2, touched);
    assert forall|i: int| 0 <= i < tasks.len() implies (#[trigger] tasks[i]).wf(mem2) by {
        assert(tasks[i].wf(mem1));
        assert forall|q: u64| #[trigger] tasks[i].memory_set.owns(q) implies !touched.contains(
            q,
        ) by {}
        tasks[i].memory_set.lemma_untouched(mem1, mem2, touched);
    }
    assert forall|i: int, u: u64| 0 <= i < tasks.len() implies #[trigger] tasks[i].memory_set.walk(
        mem2,
        u,
    ) == tasks[i].memory_set.walk(mem1, u) by {
        assert(tasks[i].wf(mem1));
        assert forall|q: u64| #[trigger] tasks[i].memory_set.owns(q) implies !touched.contains(
            q,
        ) by {}
        tasks[i].memory_set.lemma_untouched(mem1, mem2, touched);
    }
}

/// The task as it goes on the processor: it is running, and a task that
/// never ran before gets the clock's time as the time of its first run.
pub open spec fn started(t: TaskControlBlock, clock_ms: usize) -> TaskControlBlock {
    TaskControlBlock {
        task_status: TaskStatus::Running,
        time: if t.task_status is UnInit {
            clock_ms
        } else {
            t.time
        },
        ..t
    }
}

/// The task with another status.
pub open spec fn with_status(t: TaskControlBlock, status: TaskStatus) -> TaskControlBlock {
    TaskControlBlock { task_status: status, ..t }
}

/// The second task is the first with one more call of the system call
/// `syscall_id` counted.
pub open spec fn counted(t0: TaskControlBlock, t1: TaskControlBlock, syscall_id: usize) -> bool {
    &&& t1.pid == t0.pid
    &&& t1.task_status == t0.task_status
    &&& t1.memory_set == t0.memory_set
    &&& t1.time == t0.time
    &&& t1.heap_bottom == t0.heap_bottom
    &&& t1.program_brk == t0.program_brk
    &&& t1.syscall_times@ == spec_counted(t0.syscall_times@, syscall_id)
}

/// The stride table when a task that has run for a turn goes back to the
/// ready queue: its stride has grown by its pass, and a task that had no
/// row has a fresh one.
pub open spec fn readmitted(table: StrideTable, pid: usize) -> StrideTable {
    if table.contains_key(pid) {
        table.insert(pid, advanced(table[pid]))
    } else {
        table.insert(pid, (0usize, DEFAULT_PASS))
    }
}

/// The outcome of choosing the next task from `queue` with the stride
/// table `table`: the chosen task is on the processor and out of the
/// queue, or, where none can be chosen, the processor is idle and the
/// queue as it was.
pub open spec fn scheduled(
    queue: Seq<TaskControlBlock>,
    table: StrideTable,
    clock_ms: usize,
    queue_after: Seq<TaskControlBlock>,
    current_after: Option<TaskControlBlock>,
) -> bool {
    let pos = next_position(table, pids_of(queue));
    if pos < queue.len() {
        &&& current_after == Some(started(queue[pos], clock_ms))
        &&& queue_after == queue.remove(pos)
    } else {
        &&& current_after is None
        &&& queue_after == queue
    }
}

/// The kernel's state.
pub struct Kernel {
    /// The physical memory and its allocator.
    pub mem: PhysMemory,
    /// The kernel's own address space.
    pub kernel_space: MemorySet,
    /// The value of the address-translation register.
    pub satp: u64,
    /// The time in milliseconds that the platform read last.
    pub clock_ms: usize,
    /// The ready tasks and their strides.
    pub manager: TaskManager,
    /// The task that is on the processor.
    pub current: Option<TaskControlBlock>,
}

impl Kernel {
    /// All tasks: the running one, if there is one, and then the ready
    /// ones.
    pub open spec fn tasks(&self) -> Seq<TaskControlBlock> {
        match self.current {
            Some(t) => seq![t] + self.manager.queue(),
            None => self.manager.queue(),
        }
    }

    /// The kernel's address space and every task are consistent, and no
    /// frame belongs to two address spaces.
    pub open spec fn wf(&self) -> bool {
        &&& self.kernel_space.wf(&self.mem)
        &&& tasks_ok(self.tasks(), &self.mem, &self.kernel_space)
    }

    /// A kernel over the frames `l..r` with no task: the kernel's address
    /// space has an empty table in the first frame. The result is nothing
    /// where the range has no frame.
    pub fn new(l: PhysPageNum, r: PhysPageNum) -> (k: Option<Kernel>)
        requires
            l.0 <= r.0 <= PPN_LIMIT,
            (r.0 - l.0) * 512 <= usize::MAX,
        ensures
            match k {
                Some(kernel) => {
                    &&& l.0 < r.0
                    &&& kernel.wf()
                    &&& kernel.kernel_space.table().root() == l.0
                    &&& kernel.satp == spec_satp(l.0)
                    &&& kernel.clock_ms == 0
                    &&& kernel.current is None
                    &&& kernel.manager.queue().len() == 0
                    &&& kernel.manager.table() == Map::<usize, (usize, usize)>::empty()
                    &&& forall|q: u64| #[trigger] kernel.mem.is_allocated(q) <==> q == l.0
                },
                None => l.0 == r.0,
            },
    {
        match init(l, r) {
            None => None,
            Some((mem, kernel_space, satp)) => Some(
                Kernel {
                    mem,
                    kernel_space,
                    satp,
                    clock_ms: 0,
                    manager: TaskManager::new(),
                    current: None,
                },
            ),
        }
    }

    /// The conditions under which a task can be made: a frame is free for
    /// the root of its table, and the bottom of its heap lies in the 39-bit
    /// space and in the range of a signed number.
    pub open spec fn can_spawn(&self, heap_bottom: usize) -> bool {
        &&& self.mem.state().free_count() > 0
        &&& heap_bottom <= VA_LIMIT
        &&& heap_bottom <= isize::MAX
    }

    /// Makes a task with an address space of its own, which holds nothing
    /// but the empty area of the heap, readable and writable in user mode,
    /// and puts the task in the ready queue. The result says whether the
    /// task was made; where it was not, nothing changes.
    #[verifier::rlimit(50)]
    pub fn spawn(&mut self, pid: usize, heap_bottom: usize) -> (r: bool)
        requires
            old(self).wf(),
        ensures
            final(self).wf(),
            final(self).kernel_space == old(self).kernel_space,
            final(self).satp == old(self).satp,
            final(self).clock_ms == old(self).clock_ms,
            final(self).current == old(self).current,
            r == old(self).can_spawn(heap_bottom),
            !r ==> final(self).mem == old(self).mem && final(self).manager == old(self).manager,
            r ==> {
                let t = final(self).manager.queue().last();
                &&& final(self).manager.queue().len() == old(self).manager.queue().len() + 1
                &&& final(self).manager.queue().drop_last() == old(self).manager.queue()
                &&& t.pid == pid
                &&& t.task_status == TaskStatus::UnInit
                &&& t.heap_bottom == heap_bottom
                &&& t.program_brk == heap_bottom
                &&& t.memory_set.areas().len() == 1
                &&& t.memory_set.areas()[0].start() == heap_bottom / 4096
                &&& t.memory_set.areas()[0].end() == heap_bottom / 4096
                &&& t.memory_set.areas()[0].kind() == MapType::Framed
                &&& t.memory_set.areas()[0].perm() == (MapPermission { bits: 22 })
                &&& old(self).mem.state().next_frame() == Some(t.memory_set.table().root())
                &&& forall|u: u64|
                    u < VPN_LIMIT ==> #[trigger] t.memory_set.walk(&final(self).mem, u) is None
                &&& final(self).manager.table() == if old(self).manager.table().contains_key(pid) {
                    old(self).manager.table()
                } else {
                    old(self).manager.table().insert(pid, (0usize, DEFAULT_PASS))
                }
                &&& forall|q: u64| #[trigger]
                    final(self).mem.is_allocated(q) <==> (old(self).mem.is_allocated(q)
                        || t.memory_set.owns(q))
                &&& final(self).mem.state() == old(self).mem.state().after_alloc()
                &&& t.memory_set.table().node_frames() == seq![t.memory_set.table().root()]
            },
    {
        let ghost k0 = *self;
        proof {
            self.kernel_space.lemma_owned_allocated(&self.mem);
            self.mem.lemma_wf();
            self.mem.state().lemma_alloc();
        }
        if heap_bottom as u64 > VA_LIMIT || heap_bottom > isize::MAX as usize {
            return false;
        }
        if !self.mem.has_free_frames(1) {
            return false;
        }
        match MemorySet::new_bare(&mut self.mem) {
            None => false,
            Some(mut memory_set) => {
                let ghost ms1 = memory_set;
                let ghost mem1 = self.mem;
                let ghost root = memory_set.table().root();
                let base = VirtAddr((heap_bottom as u64 / 4096) * 4096);
                let permission = MapPermission { bits: PERM_R + PERM_W + PERM_U };
                proof {
                    assert forall|q: u64| #[trigger] ms1.owns(q) implies q == root by {
                        if ms1.holds_frame(q) {
                            let i = choose|i: int|
                                0 <= i < ms1.areas().len() && (
                                #[trigger] ms1.areas()[i]).frames().contains(q);
                        }
                    }
                    assert(spec_frames_needed(&mem1, root, base.0 / 4096, base.0 / 4096, 1) == 0);
                }
                match memory_set.insert_framed_area(&mut self.mem, base, base, permission) {
                    Ok(()) => {},
                    Err(_) => {
                        proof {
                            assert(false);
                        }
                    },
                }
                proof {
                    mem1.state().lemma_taken_shift(0, 0, 0);
                    assert(spec_nodes_taken(&mem1, root, base.0 / 4096, base.0 / 4096, 1)
                        =~= Seq::<u64>::empty());
                    assert(ms1.table().node_frames() + Seq::<u64>::empty() =~= seq![root]);
                }
                let task = TaskControlBlock::new(pid, memory_set, heap_bottom);
                proof {
                    let touched = Set::new(|q: u64| memory_set.owns(q) || q == root);
                    memory_set.lemma_owned_allocated(&self.mem);
                    assert(memory_set.areas()[0] == memory_set.areas().last());
                    assert forall|q: u64| #[trigger] k0.kernel_space.owns(q) implies !touched.contains(
                        q,
                    ) by {
                        assert(k0.mem.is_allocated(q));
                        assert(mem1.is_allocated(q));
                    }
                    assert forall|i: int, q: u64|
                        0 <= i < k0.tasks().len() && #[trigger] k0.tasks()[i].memory_set.owns(
                            q,
                        ) implies !touched.contains(q) by {
                        assert(k0.tasks()[i].wf(&k0.mem));
                        k0.tasks()[i].memory_set.lemma_owned_allocated(&k0.mem);
                        assert(k0.mem.is_allocated(q));
                        assert(mem1.is_allocated(q));
                    }
                    assert forall|q: u64|
                        !touched.contains(q) && k0.mem.is_allocated(q) implies 
                        #[trigger] self.mem.is_allocated(q) by {
                        assert(mem1.is_allocated(q));
                    }
                    assert forall|q: u64|
                        !touched.contains(q)
                            && k0.mem.contains(q) implies #[trigger] self.mem.frame(
                        q,
                    ) == k0.mem.frame(q) by {
                        assert(mem1.frame(q) == k0.mem.frame(q));
                    }
                    lemma_tasks_untouched(k0.tasks(), &k0.kernel_space, &k0.mem, &self.mem, touched);
                    assert forall|q: u64| #[trigger]
                        self.mem.is_allocated(q) <==> (k0.mem.is_allocated(q) || memory_set.owns(
                            q,
                        )) by {
                        if ms1.table().owned().contains(root) {
                            assert(ms1.owns(root));
                        }
                    }
                }
                add_task(&mut self.manager, task);
                proof {
                    let old_tasks = k0.tasks();
                    let n = old_tasks.len() as int;
                    let new_tasks = self.tasks();
                    assert(new_tasks =~= old_tasks.push(task));
                    assert(self.manager.queue().drop_last() =~= k0.manager.queue());
                    assert forall|i: int| 0 <= i < new_tasks.len() implies (
                    #[trigger] new_tasks[i]).wf(&self.mem) && spaces_apart(
                        &new_tasks[i].memory_set,
                        &self.kernel_space,
                    ) by {
                        if i < n {
                            assert(old_tasks[i].wf(&self.mem));
                        } else {
                            assert forall|q: u64|
                                !(memory_set.owns(q) && self.kernel_space.owns(q)) by {
                                if self.kernel_space.owns(q) {
                                    assert(k0.mem.is_allocated(q));
                                }
                            }
                        }
                    }
                    assert forall|i: int, j: int|
                        0 <= i < new_tasks.len() && 0 <= j < new_tasks.len() && i
                            != j implies spaces_apart(
                        &(#[trigger] new_tasks[i]).memory_set,
                        &(#[trigger] new_tasks[j]).memory_set,
                    ) by {
                        if i < n && j < n {
                            assert(spaces_apart(
                                &old_tasks[i].memory_set,
                                &old_tasks[j].memory_set,
                            ));
                        } else {
                            let k = if i < n {
                                i
                            } else {
                                j
                            };
                            assert(old_tasks[k].wf(&k0.mem));
                            old_tasks[k].memory_set.lemma_owned_allocated(&k0.mem);
                            assert forall|q: u64|
                                !(memory_set.owns(q) && old_tasks[k].memory_set.owns(q)) by {
                                if old_tasks[k].memory_set.owns(q) {
                                    assert(k0.mem.is_allocated(q));
                                }
                            }
                        }
                    }
                }
                true
            },
        }
    }

    /// The root frame of the running task's address space.
    pub fn get_current_token(&self) -> (t: Option<u64>)
        ensures
            t == match self.current {
                Some(task) => Some(task.memory_set.table().root()),
                None => None::<u64>,
            },
    {
        match &self.current {
            Some(task) => Some(task.get_user_token()),
            None => None,
        }
    }

    /// Counts one more call of a system call for the running task.
    pub fn inc_call_times(&mut self, syscall_id: usize)
        requires
            old(self).wf(),
        ensures
            final(self).wf(),
            final(self).mem == old(self).mem,
            final(self).kernel_space == old(self).kernel_space,
            final(self).satp == old(self).satp,
            final(self).clock_ms == old(self).clock_ms,
            final(self).manager == old(self).manager,
            match old(self).current {
                Some(t0) => final(self).current matches Some(t1) && counted(t0, t1, syscall_id),
                None => final(self).current is None,
            },
    {
        let ghost k0 = *self;
        match self.current.take() {
            None => {},
            Some(mut task) => {
                task.inc_call_times(syscall_id);
                self.current = Some(task);
                proof {
                    let f = |k: int| k;
                    assert forall|k: int| 0 <= k < self.tasks().len() implies {
                        &&& 0 <= #[trigger] f(k) < k0.tasks().len()
                        &&& self.tasks()[k].memory_set == k0.tasks()[f(k)].memory_set
                        &&& self.tasks()[k].wf(&self.mem)
                    } by {
                        assert(k0.tasks()[k].wf(&k0.mem));
                    }
                    lemma_tasks_rearranged(
                        k0.tasks(),
                        self.tasks(),
                        f,
                        &self.mem,
                        &self.kernel_space,
                    );
                }
            },
        }
    }

    /// Puts the next task on an idle processor: the first ready task whose
    /// stride is the least of the stride table. Where no task can be
    /// chosen, the processor stays idle. Where a task is running, nothing
    /// changes.
    #[verifier::rlimit(50)]
    pub fn run_next(&mut self)
        requires
            old(self).wf(),
        ensures
            final(self).wf(),
            final(self).mem == old(self).mem,
            final(self).kernel_space == old(self).kernel_space,
            final(self).satp == old(self).satp,
            final(self).clock_ms == old(self).clock_ms,
            old(self).current is Some
                ==> final(self).current == old(self).current
                    && final(self).manager == old(self).manager,
            old(self).current is None ==> {
                &&& final(self).manager.table() == selection_table(
                    old(self).manager.table(),
                    pids_of(old(self).manager.queue()),
                )
                &&& scheduled(
                    old(self).manager.queue(),
                    final(self).manager.table(),
                    old(self).clock_ms,
                    final(self).manager.queue(),
                    final(self).current,
                )
            },
    {
        let ghost k0 = *self;
        if self.current.is_some() {
            return;
        }
        match fetch_task(&mut self.manager) {
            None => {},
            Some(mut task) => {
                let ghost pos = next_position(self.manager.table(), pids_of(k0.manager.queue()));
                proof {
                    lemma_next_position(self.manager.table(), pids_of(k0.manager.queue()));
                }
                if let TaskStatus::UnInit = task.task_status {
                    task.time = self.clock_ms;
                }
                task.task_status = TaskStatus::Running;
                self.current = Some(task);
                proof {
                    let f = |k: int|
                        if k == 0 {
                            pos
                        } else if k - 1 < pos {
                            k - 1
                        } else {
                            k
                        };
                    let old_tasks = k0.tasks();
                    let new_tasks = self.tasks();
                    assert(new_tasks[0] == task);
                    assert forall|k: int| 0 <= k < new_tasks.len() implies {
                        &&& 0 <= #[trigger] f(k) < old_tasks.len()
                        &&& new_tasks[k].memory_set == old_tasks[f(k)].memory_set
                        &&& new_tasks[k].wf(&self.mem)
                    } by {
                        assert(old_tasks[f(k)].wf(&k0.mem));
                    }
                    lemma_tasks_rearranged(old_tasks, new_tasks, f, &self.mem, &self.kernel_space);
                }
            },
        }
    }

    /// Takes the running task off the processor after its turn and puts
    /// the next one on: the task's stride grows by its pass, the task goes
    /// to the end of the ready queue, and the next task is chosen.
    #[verifier::rlimit(50)]
    pub fn suspend_current_and_run_next(&mut self)
        requires
            old(self).wf(),
        ensures
            final(self).wf(),
            final(self).mem == old(self).mem,
            final(self).kernel_space == old(self).kernel_space,
            final(self).satp == old(self).satp,
            final(self).clock_ms == old(self).clock_ms,
            ({
                let queue1 = match old(self).current {
                    Some(t0) => old(self).manager.queue().push(with_status(t0, TaskStatus::Ready)),
                    None => old(self).manager.queue(),
                };
                let table1 = match old(self).current {
                    Some(t0) => readmitted(old(self).manager.table(), t0.pid),
                    None => old(self).manager.table(),
                };
                &&& final(self).manager.table() == selection_table(table1, pids_of(queue1))
                &&& scheduled(
                    queue1,
                    final(self).manager.table(),
                    old(self).clock_ms,
                    final(self).manager.queue(),
                    final(self).current,
                )
            }),
    {
        let ghost k0 = *self;
        match self.current.take() {
            None => {},
            Some(mut task) => {
                task.task_status = TaskStatus::Ready;
                self.manager.advance_stride(task.pid);
                add_task(&mut self.manager, task);
                proof {
                    assert(self.manager.table() =~= readmitted(k0.manager.table(), task.pid));
                    let n = k0.manager.queue().len() as int;
                    let f = |k: int|
                        if k == n {
                            0
                        } else {
                            k + 1
                        };
                    let old_tasks = k0.tasks();
                    let new_tasks = self.tasks();
                    assert forall|k: int| 0 <= k < new_tasks.len() implies {
                        &&& 0 <= #[trigger] f(k) < old_tasks.len()
                        &&& new_tasks[k].memory_set == old_tasks[f(k)].memory_set
                        &&& new_tasks[k].wf(&self.mem)
                    } by {
                        assert(old_tasks[f(k)].wf(&k0.mem));
                    }
                    lemma_tasks_rearranged(old_tasks, new_tasks, f, &self.mem, &self.kernel_space);
                }
            },
        }
        self.run_next();
    }

    /// Ends the running task and puts the next one on the processor: the
    /// task's row leaves the stride table, every frame of its address
    /// space goes back to the allocator, and the next task is chosen.
    #[verifier::rlimit(50)]
    pub fn exit_current_and_run_next(&mut self)
        requires
            old(self).wf(),
        ensures
            final(self).wf(),
            final(self).kernel_space == old(self).kernel_space,
            final(self).satp == old(self).satp,
            final(self).clock_ms == old(self).clock_ms,
            final(self).mem.state().start == old(self).mem.state().start,
            final(self).mem.state().end == old(self).mem.state().end,
            match old(self).current {
                Some(t0) => {
                    &&& forall|q: u64| #[trigger]
                        final(self).mem.is_allocated(q) <==> (old(self).mem.is_allocated(q)
                            && !t0.memory_set.owns(q))
                    &&& final(self).mem.state() == old(self).mem.state().after_deallocs(
                        t0.memory_set.release_order(),
                    )
                },
                None => final(self).mem == old(self).mem,
            },
            ({
                let table1 = match old(self).current {
                    Some(t0) => old(self).manager.table().remove(t0.pid),
                    None => old(self).manager.table(),
                };
                &&& final(self).manager.table() == selection_table(
                    table1,
                    pids_of(old(self).manager.queue()),
                )
                &&& scheduled(
                    old(self).manager.queue(),
                    final(self).manager.table(),
                    old(self).clock_ms,
                    final(self).manager.queue(),
                    final(self).current,
                )
            }),
    {
        let ghost k0 = *self;
        match self.current.take() {
            None => {},
            Some(mut task) => {
                task.task_status = TaskStatus::Exited;
                self.manager.forget(task.pid);
                let ghost ms = task.memory_set;
                proof {
                    assert(k0.tasks()[0].wf(&k0.mem));
                    ms.lemma_owned_allocated(&k0.mem);
                    ms.table().lemma_wf(&k0.mem);
                }
                task.memory_set.release(&mut self.mem);
                proof {
                    let old_tasks = k0.tasks();
                    let rest = self.tasks();
                    let touched = Set::new(|q: u64| ms.owns(q));
                    let f = |k: int| k + 1;
                    assert forall|k: int| 0 <= k < rest.len() implies {
                        &&& 0 <= #[trigger] f(k) < old_tasks.len()
                        &&& rest[k].memory_set == old_tasks[f(k)].memory_set
                        &&& rest[k].wf(&k0.mem)
                    } by {
                        assert(old_tasks[f(k)].wf(&k0.mem));
                    }
                    lemma_tasks_rearranged(old_tasks, rest, f, &k0.mem, &k0.kernel_space);
                    assert(spaces_apart(&old_tasks[0].memory_set, &k0.kernel_space));
                    assert forall|i: int, q: u64|
                        0 <= i < rest.len() && #[trigger] rest[i].memory_set.owns(
                            q,
                        ) implies !touched.contains(q) by {
                        assert(spaces_apart(
                            &old_tasks[0].memory_set,
                            &old_tasks[i + 1].memory_set,
                        ));
                    }
                    lemma_tasks_untouched(rest, &k0.kernel_space, &k0.mem, &self.mem, touched);
                }
            },
        }
        self.run_next();
    }
}

} // verus!
