use kernel_core::mm::address::PhysPageNum;
use kernel_core::mm::frame_allocator::PhysMemory;
use kernel_core::mm::memory_set::MemorySet;
use kernel_core::task::manager::{add_task, fetch_task, TaskManager};
use kernel_core::task::task::{TaskControlBlock, TaskStatus};

fn memory() -> PhysMemory {
    PhysMemory::new(PhysPageNum(0x80000), PhysPageNum(0x80040))
}

fn task(mem: &mut PhysMemory, pid: usize) -> TaskControlBlock {
    TaskControlBlock::new(pid, MemorySet::new_bare(mem).unwrap(), 0x10000)
}

#[test]
fn a_new_scheduler_has_nothing_to_give() {
    let mut tm = TaskManager::new();
    assert!(tm.task_vec.is_empty());
    assert!(tm.stride_map.is_empty());
    assert!(fetch_task(&mut tm).is_none());
    assert!(tm.fetch_min().is_none());
    assert_eq!(tm.min_stride(), None);
    assert!(tm.stride_map.is_empty());
}

#[test]
fn a_new_task_has_no_calls_and_an_empty_heap() {
    let mut mem = memory();
    let t = task(&mut mem, 7);
    assert_eq!(t.getpid(), 7);
    assert_eq!(t.task_status, TaskStatus::UnInit);
    assert_eq!(t.syscall_times, vec![0u32; 500]);
    assert_eq!(t.time, 0);
    assert_eq!(t.heap_bottom, 0x10000);
    assert_eq!(t.program_brk, 0x10000);
    assert_eq!(t.get_user_token(), 0x80000);
}

#[test]
fn add_task_gives_a_row_of_stride_zero_and_the_default_pass() {
    let mut mem = memory();
    let mut tm = TaskManager::new();
    add_task(&mut tm, task(&mut mem, 4));
    assert_eq!(tm.stride_map.get(&4), Some(&(0, 16)));
    assert_eq!(tm.task_vec.len(), 1);
    // a row that is there stays as it is
    tm.stride_map.insert(9, (48, 12));
    add_task(&mut tm, task(&mut mem, 9));
    assert_eq!(tm.stride_map.get(&9), Some(&(48, 12)));
    assert_eq!(tm.task_vec.len(), 2);
    assert_eq!(tm.task_vec[1].pid, 9);
}

#[test]
fn check_map_manager_keeps_an_existing_row() {
    let mut tm = TaskManager::new();
    tm.check_map_manager(3);
    assert_eq!(tm.stride_map.get(&3), Some(&(0, 16)));
    tm.advance_stride(3);
    tm.check_map_manager(3);
    assert_eq!(tm.stride_map.get(&3), Some(&(16, 16)));
    assert_eq!(tm.stride_map.len(), 1);
}

#[test]
fn tasks_added_before_any_row_exists_come_out_first_in_first_out() {
    let mut mem = memory();
    let mut tm = TaskManager::new();
    for pid in [5usize, 3, 9, 1] {
        let t = task(&mut mem, pid);
        tm.add(t);
    }
    assert!(tm.stride_map.is_empty());
    let mut order = Vec::new();
    while let Some(t) = fetch_task(&mut tm) {
        order.push(t.pid);
    }
    assert_eq!(order, vec![5, 3, 9, 1]);
    assert!(tm.task_vec.is_empty());
    // the first fetch gave every queued task its row
    assert_eq!(tm.stride_map.len(), 4);
    for pid in [5usize, 3, 9, 1] {
        assert_eq!(tm.stride_map.get(&pid), Some(&(0, 16)));
    }
    assert!(fetch_task(&mut tm).is_none());
}

#[test]
fn each_task_runs_once_before_any_runs_twice() {
    let mut mem = memory();
    let mut tm = TaskManager::new();
    for pid in [5usize, 3, 9] {
        let t = task(&mut mem, pid);
        tm.add(t);
    }
    let mut order = Vec::new();
    for _ in 0..6 {
        let t = fetch_task(&mut tm).unwrap();
        order.push(t.pid);
        tm.advance_stride(t.pid);
        add_task(&mut tm, t);
    }
    assert_eq!(order, vec![5, 3, 9, 5, 3, 9]);
}

#[test]
fn the_least_stride_runs_next() {
    let mut mem = memory();
    let mut tm = TaskManager::new();
    tm.stride_map.insert(1, (30, 16));
    tm.stride_map.insert(2, (10, 16));
    tm.stride_map.insert(3, (20, 16));
    for pid in [1usize, 2, 3] {
        add_task(&mut tm, task(&mut mem, pid));
    }
    assert_eq!(tm.min_stride(), Some(10));
    assert_eq!(fetch_task(&mut tm).unwrap().pid, 2);
    // the row of the task that left stays: its stride is still the least
    assert_eq!(tm.min_stride(), Some(10));
    assert!(fetch_task(&mut tm).is_none());
    assert_eq!(tm.task_vec.len(), 2);
    tm.forget(2);
    assert_eq!(fetch_task(&mut tm).unwrap().pid, 3);
    tm.forget(3);
    assert_eq!(fetch_task(&mut tm).unwrap().pid, 1);
}

#[test]
fn equal_strides_are_served_in_queue_order() {
    let mut mem = memory();
    let mut tm = TaskManager::new();
    tm.stride_map.insert(1, (7, 16));
    tm.stride_map.insert(2, (7, 16));
    tm.stride_map.insert(3, (7, 16));
    for pid in [3usize, 1, 2] {
        add_task(&mut tm, task(&mut mem, pid));
    }
    assert_eq!(fetch_task(&mut tm).unwrap().pid, 3);
    assert_eq!(fetch_task(&mut tm).unwrap().pid, 1);
    assert_eq!(fetch_task(&mut tm).unwrap().pid, 2);
}

#[test]
fn a_queued_task_without_a_row_waits() {
    let mut mem = memory();
    let mut tm = TaskManager::new();
    add_task(&mut tm, task(&mut mem, 1));
    let t = task(&mut mem, 2);
    tm.add(t);
    assert_eq!(fetch_task(&mut tm).unwrap().pid, 1);
    // the table is not empty, so no row is made for task 2
    assert!(fetch_task(&mut tm).is_none());
    assert_eq!(tm.stride_map.get(&2), None);
    tm.check_map_manager(2);
    assert_eq!(fetch_task(&mut tm).unwrap().pid, 2);
}

#[test]
fn a_task_with_half_the_pass_runs_twice_as_often() {
    let mut mem = memory();
    let mut tm = TaskManager::new();
    tm.stride_map.insert(1, (0, 10));
    tm.stride_map.insert(2, (0, 20));
    add_task(&mut tm, task(&mut mem, 1));
    add_task(&mut tm, task(&mut mem, 2));
    let mut turns = [0usize; 3];
    let mut last = [0usize; 3];
    let mut order = Vec::new();
    for round in 0..300 {
        let t = fetch_task(&mut tm).unwrap();
        turns[t.pid] += 1;
        if round < 9 {
            order.push(t.pid);
        }
        tm.advance_stride(t.pid);
        add_task(&mut tm, t);
        for pid in 1..3usize {
            let stride = tm.stride_map.get(&pid).unwrap().0;
            assert!(stride >= last[pid]);
            last[pid] = stride;
        }
        assert!(turns[1] + 2 >= 2 * turns[2]);
        assert!(turns[1] <= 2 * turns[2] + 1);
    }
    assert_eq!(order, vec![1, 2, 1, 2, 1, 1, 2, 1, 1]);
    assert_eq!(turns[1], 200);
    assert_eq!(turns[2], 100);
    assert_eq!(tm.stride_map.get(&1), Some(&(2000, 10)));
    assert_eq!(tm.stride_map.get(&2), Some(&(2000, 20)));
}

#[test]
fn a_stride_stops_at_the_largest_number() {
    let mut tm = TaskManager::new();
    tm.stride_map.insert(1, (usize::MAX - 5, 10));
    tm.advance_stride(1);
    assert_eq!(tm.stride_map.get(&1), Some(&(usize::MAX, 10)));
    tm.advance_stride(1);
    assert_eq!(tm.stride_map.get(&1), Some(&(usize::MAX, 10)));
    tm.stride_map.insert(2, (usize::MAX - 10, 10));
    tm.advance_stride(2);
    assert_eq!(tm.stride_map.get(&2), Some(&(usize::MAX, 10)));
    // a task without a row is left alone
    tm.advance_stride(3);
    assert_eq!(tm.stride_map.get(&3), None);
}

#[test]
fn counting_calls_by_number() {
    let mut mem = memory();
    let mut t = task(&mut mem, 1);
    t.inc_call_times(93);
    t.inc_call_times(93);
    t.inc_call_times(499);
    t.inc_call_times(500);
    t.inc_call_times(usize::MAX);
    assert_eq!(t.syscall_times[93], 2);
    assert_eq!(t.syscall_times[499], 1);
    assert_eq!(t.syscall_times.len(), 500);
    assert_eq!(t.syscall_times.iter().map(|n| *n as usize).sum::<usize>(), 3);
    t.syscall_times[7] = u32::MAX;
    t.inc_call_times(7);
    assert_eq!(t.syscall_times[7], u32::MAX);
}
