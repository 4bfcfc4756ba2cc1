use kernel_core::kernel::Kernel;
use kernel_core::mm::address::{PhysAddr, PhysPageNum, VirtPageNum};
use kernel_core::syscall::process::{
    sys_exit, sys_get_time, sys_mmap, sys_munmap, sys_sbrk, sys_task_info, sys_yield, TimeVal,
};
use kernel_core::syscall::{
    SYSCALL_EXIT, SYSCALL_GET_TIME, SYSCALL_MMAP, SYSCALL_MUNMAP, SYSCALL_SBRK,
    SYSCALL_TASK_INFO, SYSCALL_YIELD,
};
use kernel_core::task::task::TaskStatus;

fn kernel(frames: u64) -> Kernel {
    Kernel::new(PhysPageNum(0x80000), PhysPageNum(0x80000 + frames)).unwrap()
}

fn free_frames(k: &Kernel) -> usize {
    let mut n = 0;
    while k.mem.has_free_frames(n + 1) {
        n += 1;
    }
    n
}

fn running(k: &Kernel) -> usize {
    k.current.as_ref().unwrap().pid
}

#[test]
fn call_numbers() {
    assert_eq!(
        [
            SYSCALL_EXIT,
            SYSCALL_YIELD,
            SYSCALL_GET_TIME,
            SYSCALL_SBRK,
            SYSCALL_MUNMAP,
            SYSCALL_MMAP,
            SYSCALL_TASK_INFO
        ],
        [93, 124, 169, 214, 215, 222, 410]
    );
}

#[test]
fn a_new_kernel_is_idle() {
    let k = kernel(16);
    assert!(k.current.is_none());
    assert!(k.manager.task_vec.is_empty());
    assert_eq!(k.satp, (8u64 << 60) | 0x80000);
    assert_eq!(k.clock_ms, 0);
    assert_eq!(k.get_current_token(), None);
    assert_eq!(free_frames(&k), 15);
    assert!(Kernel::new(PhysPageNum(3), PhysPageNum(3)).is_none());
}

#[test]
fn spawning_takes_one_frame_and_queues_the_task() {
    let mut k = kernel(4);
    assert!(k.spawn(1, 0x10000));
    assert!(k.spawn(2, 0x10000));
    assert!(k.spawn(3, 0x10800));
    assert_eq!(free_frames(&k), 0);
    assert!(!k.spawn(4, 0x10000));
    assert_eq!(k.manager.task_vec.len(), 3);
    assert_eq!(k.manager.stride_map.get(&4), None);
    let t = &k.manager.task_vec[2];
    assert_eq!(t.pid, 3);
    assert_eq!(t.task_status, TaskStatus::UnInit);
    assert_eq!(t.heap_bottom, 0x10800);
    assert_eq!(t.program_brk, 0x10800);
    assert_eq!(t.memory_set.area_count(), 1);
    assert_eq!(t.memory_set.area_range(0), (VirtPageNum(0x10), VirtPageNum(0x10)));
    assert_eq!(t.memory_set.area_kind(0), kernel_core::mm::memory_set::MapType::Framed);
    // a heap that starts outside the address space is refused
    let mut k = kernel(4);
    assert!(!k.spawn(1, (1usize << 39) + 1));
    assert_eq!(free_frames(&k), 3);
    assert!(k.spawn(1, 1usize << 39));
}

#[test]
fn yield_rotates_through_the_tasks() {
    let mut k = kernel(16);
    for pid in 1..4 {
        assert!(k.spawn(pid, 0x10000));
    }
    k.clock_ms = 5;
    k.run_next();
    assert_eq!(running(&k), 1);
    assert_eq!(k.current.as_ref().unwrap().task_status, TaskStatus::Running);
    assert_eq!(k.current.as_ref().unwrap().time, 5);
    let mut order = Vec::new();
    for step in 0..6 {
        k.clock_ms = 10 + step;
        assert_eq!(sys_yield(&mut k), 0);
        order.push(running(&k));
        for t in k.manager.task_vec.iter() {
            assert_eq!(t.task_status == TaskStatus::Ready, t.syscall_times[SYSCALL_YIELD] > 0);
        }
    }
    assert_eq!(order, vec![2, 3, 1, 2, 3, 1]);
    // each task yielded twice and keeps the time of its first run
    let t = k.current.as_ref().unwrap();
    assert_eq!(t.syscall_times[SYSCALL_YIELD], 2);
    assert_eq!(t.time, 5);
    assert_eq!(k.manager.stride_map.get(&1), Some(&(32, 16)));
    assert_eq!(k.manager.stride_map.get(&2), Some(&(32, 16)));
    assert_eq!(k.manager.task_vec[0].time, 10);
    assert_eq!(k.manager.task_vec[1].time, 11);
}

#[test]
fn a_single_task_yields_to_itself() {
    let mut k = kernel(16);
    assert!(k.spawn(1, 0x10000));
    k.run_next();
    assert_eq!(sys_yield(&mut k), 0);
    assert_eq!(running(&k), 1);
    assert!(k.manager.task_vec.is_empty());
    assert_eq!(k.manager.stride_map.get(&1), Some(&(16, 16)));
}

#[test]
fn yield_on_an_idle_processor_starts_the_next_task() {
    let mut k = kernel(16);
    assert_eq!(sys_yield(&mut k), 0);
    assert!(k.current.is_none());
    assert!(k.spawn(1, 0x10000));
    assert_eq!(sys_yield(&mut k), 0);
    assert_eq!(running(&k), 1);
}

#[test]
fn exit_gives_the_memory_back_and_runs_the_next_task() {
    let mut k = kernel(32);
    assert!(k.spawn(1, 0x10000));
    assert!(k.spawn(2, 0x10000));
    k.run_next();
    let free_before = free_frames(&k);
    assert_eq!(sys_mmap(&mut k, 0x20000, 0x3000, 3), 0);
    let token = k.get_current_token().unwrap();
    assert!(free_frames(&k) < free_before);
    sys_exit(&mut k, 0);
    assert_eq!(running(&k), 2);
    // the frames of the task's pages, nodes and root are free again
    assert_eq!(free_frames(&k), free_before + 1);
    assert!(!k.mem.frame_is_allocated(PhysPageNum(token)));
    assert_eq!(k.manager.stride_map.get(&1), None);
    assert!(k.manager.task_vec.is_empty());
    sys_exit(&mut k, 0);
    assert!(k.current.is_none());
    assert_eq!(free_frames(&k), 31);
    sys_exit(&mut k, 0);
    assert!(k.current.is_none());
}

#[test]
fn mmap_and_munmap_work_on_the_running_task() {
    let mut k = kernel(64);
    assert!(k.spawn(1, 0x10000));
    assert!(k.spawn(2, 0x10000));
    k.run_next();
    assert_eq!(sys_mmap(&mut k, 0x20000, 0x2000, 0b011), 0);
    assert_eq!(sys_mmap(&mut k, 0x21000, 0x1000, 0b011), -1);
    assert_eq!(sys_mmap(&mut k, 0x20001, 0x1000, 0b011), -1);
    assert_eq!(sys_mmap(&mut k, 0x30000, 0x1000, 0), -1);
    assert_eq!(sys_mmap(&mut k, 0x30000, 0x1000, 8), -1);
    {
        let t = k.current.as_ref().unwrap();
        assert_eq!(t.syscall_times[SYSCALL_MMAP], 5);
        assert!(t.memory_set.translate(&k.mem, VirtPageNum(0x20)).is_some());
        assert!(t.memory_set.translate(&k.mem, VirtPageNum(0x21)).is_some());
        // the other task does not see the mapping
        let other = &k.manager.task_vec[0];
        assert_eq!(other.memory_set.translate(&k.mem, VirtPageNum(0x20)), None);
        assert_eq!(other.syscall_times[SYSCALL_MMAP], 0);
    }
    assert_eq!(sys_munmap(&mut k, 0x20000, 0x1000), -1);
    assert_eq!(sys_munmap(&mut k, 0x20800, 0x1000), -1);
    assert_eq!(sys_munmap(&mut k, 0x20000, 0x2000), 0);
    assert_eq!(sys_munmap(&mut k, 0x20000, 0x2000), -1);
    let t = k.current.as_ref().unwrap();
    assert_eq!(t.syscall_times[SYSCALL_MUNMAP], 4);
    assert_eq!(t.memory_set.translate(&k.mem, VirtPageNum(0x20)), None);
}

#[test]
fn memory_calls_without_a_task_fail() {
    let mut k = kernel(16);
    assert_eq!(sys_mmap(&mut k, 0x20000, 0x1000, 1), -1);
    assert_eq!(sys_munmap(&mut k, 0x20000, 0x1000), -1);
    assert_eq!(sys_sbrk(&mut k, 0), -1);
    assert_eq!(sys_get_time(&mut k, 0, 0), -1);
    let (code, report) = sys_task_info(&mut k, 0);
    assert_eq!(code, -1);
    assert!(report.is_none());
    assert_eq!(free_frames(&k), 15);
}

#[test]
fn get_time_counts_the_call_and_fails() {
    let mut k = kernel(16);
    assert!(k.spawn(1, 0x10000));
    k.run_next();
    let ts = TimeVal { sec: 0, usec: 0 };
    assert_eq!(ts.sec + ts.usec, 0);
    assert_eq!(sys_get_time(&mut k, 0x10000, 0), -1);
    assert_eq!(sys_get_time(&mut k, 0x10000, 0), -1);
    assert_eq!(k.current.as_ref().unwrap().syscall_times[SYSCALL_GET_TIME], 2);
}

#[test]
fn task_info_reports_status_calls_and_time() {
    let mut k = kernel(64);
    assert!(k.spawn(1, 0x10000));
    k.clock_ms = 100;
    k.run_next();
    assert_eq!(sys_mmap(&mut k, 0x40000, 0x1000, 3), 0);
    assert_eq!(sys_get_time(&mut k, 0, 0), -1);
    k.clock_ms = 250;
    let (code, report) = sys_task_info(&mut k, 0x40010);
    assert_eq!(code, 0);
    let (target, info) = report.unwrap();
    let frame = k
        .current
        .as_ref()
        .unwrap()
        .memory_set
        .translate(&k.mem, VirtPageNum(0x40))
        .unwrap()
        .ppn();
    assert_eq!(target, PhysAddr(frame.0 * 4096 + 0x10));
    assert_eq!(info.status, TaskStatus::Running);
    assert_eq!(info.time, 150);
    assert_eq!(info.syscall_times.len(), 500);
    assert_eq!(info.syscall_times[SYSCALL_MMAP], 1);
    assert_eq!(info.syscall_times[SYSCALL_GET_TIME], 1);
    assert_eq!(info.syscall_times[SYSCALL_TASK_INFO], 1);
    assert_eq!(info.syscall_times[SYSCALL_YIELD], 0);
    // an address that is not mapped gets no report, but the call counts
    let (code, report) = sys_task_info(&mut k, 0x50000);
    assert_eq!(code, -1);
    assert!(report.is_none());
    assert_eq!(k.current.as_ref().unwrap().syscall_times[SYSCALL_TASK_INFO], 2);
    // a clock behind the first run reports no time
    k.clock_ms = 50;
    let (_, report) = sys_task_info(&mut k, 0x40000);
    assert_eq!(report.unwrap().1.time, 0);
}

#[test]
fn sbrk_moves_the_end_of_the_heap() {
    let mut k = kernel(64);
    assert!(k.spawn(1, 0x10000));
    k.run_next();
    let free = free_frames(&k);
    assert_eq!(sys_sbrk(&mut k, 0), 0x10000);
    assert_eq!(free_frames(&k), free);
    assert_eq!(sys_sbrk(&mut k, 1), 0x10000);
    assert_eq!(sys_sbrk(&mut k, 0x1fff), 0x10001);
    {
        let t = k.current.as_ref().unwrap();
        assert_eq!(t.program_brk, 0x12000);
        assert_eq!(t.heap_bottom, 0x10000);
        assert_eq!(t.memory_set.area_range(0), (VirtPageNum(0x10), VirtPageNum(0x12)));
        let e = t.memory_set.translate(&k.mem, VirtPageNum(0x10)).unwrap();
        // Valid, Read, Write, User
        assert_eq!(e.flags().bits, 0b10111);
        assert!(t.memory_set.translate(&k.mem, VirtPageNum(0x11)).is_some());
        assert_eq!(t.memory_set.translate(&k.mem, VirtPageNum(0x12)), None);
    }
    // two pages and the two nodes of the walk
    assert_eq!(free_frames(&k), free - 4);
    // below the bottom of the heap
    assert_eq!(sys_sbrk(&mut k, -0x2001), -1);
    assert_eq!(k.current.as_ref().unwrap().program_brk, 0x12000);
    assert_eq!(sys_sbrk(&mut k, -0x1000), 0x12000);
    assert_eq!(free_frames(&k), free - 3);
    assert_eq!(sys_sbrk(&mut k, -0x1000), 0x11000);
    assert_eq!(sys_sbrk(&mut k, 0), 0x10000);
    assert_eq!(free_frames(&k), free - 2);
    let t = k.current.as_ref().unwrap();
    assert_eq!(t.memory_set.translate(&k.mem, VirtPageNum(0x10)), None);
    // the call is not counted
    assert_eq!(t.syscall_times[SYSCALL_SBRK], 0);
}

#[test]
fn sbrk_into_mapped_memory_or_without_frames_fails() {
    let mut k = kernel(8);
    assert!(k.spawn(1, 0x10000));
    k.run_next();
    assert_eq!(sys_mmap(&mut k, 0x12000, 0x1000, 3), 0);
    let free = free_frames(&k);
    assert_eq!(free, 3);
    // the third page of the heap is mapped already
    assert_eq!(sys_sbrk(&mut k, 0x2001), -1);
    assert_eq!(free_frames(&k), free);
    assert_eq!(sys_sbrk(&mut k, 0x2000), 0x10000);
    assert_eq!(free_frames(&k), 1);
    assert_eq!(sys_munmap(&mut k, 0x12000, 0x1000), 0);
    assert_eq!(free_frames(&k), 2);
    // four more pages than frames are free
    assert_eq!(sys_sbrk(&mut k, 0x6000), -1);
    assert_eq!(free_frames(&k), 2);
    assert_eq!(k.current.as_ref().unwrap().program_brk, 0x12000);
    assert_eq!(sys_sbrk(&mut k, i32::MAX), -1);
}
