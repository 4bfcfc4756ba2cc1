use kernel_core::mm::address::PhysPageNum;
use kernel_core::mm::frame_allocator::{PhysMemory, StackFrameAllocator};

#[test]
fn fresh_frames_come_lowest_first() {
    let mut a = StackFrameAllocator::new(PhysPageNum(10), PhysPageNum(13));
    assert_eq!(a.alloc_ppn(), Some(PhysPageNum(10)));
    assert_eq!(a.alloc_ppn(), Some(PhysPageNum(11)));
    assert_eq!(a.alloc_ppn(), Some(PhysPageNum(12)));
    assert_eq!(a.alloc_ppn(), None);
    assert_eq!(a.alloc_ppn(), None);
}

#[test]
fn the_frame_released_last_is_reused_first() {
    let mut a = StackFrameAllocator::new(PhysPageNum(10), PhysPageNum(20));
    let p0 = a.alloc_ppn().unwrap();
    let p1 = a.alloc_ppn().unwrap();
    let p2 = a.alloc_ppn().unwrap();
    a.dealloc_ppn(p0);
    a.dealloc_ppn(p2);
    assert_eq!(a.alloc_ppn(), Some(p2));
    assert_eq!(a.alloc_ppn(), Some(p0));
    assert_eq!(a.alloc_ppn(), Some(PhysPageNum(13)));
    assert!(a.is_allocated(p1));
}

#[test]
fn allocation_status_follows_alloc_and_release() {
    let mut a = StackFrameAllocator::new(PhysPageNum(4), PhysPageNum(8));
    assert!(!a.is_allocated(PhysPageNum(4)));
    let p = a.alloc_ppn().unwrap();
    assert!(a.is_allocated(p));
    assert!(!a.is_allocated(PhysPageNum(5)));
    assert!(!a.is_allocated(PhysPageNum(3)));
    assert!(!a.is_allocated(PhysPageNum(8)));
    a.dealloc_ppn(p);
    assert!(!a.is_allocated(p));
}

#[test]
fn free_count_is_fresh_frames_and_released_ones() {
    let mut a = StackFrameAllocator::new(PhysPageNum(0), PhysPageNum(3));
    assert!(a.has_free(3));
    assert!(!a.has_free(4));
    let p = a.alloc_ppn().unwrap();
    assert!(a.has_free(2));
    assert!(!a.has_free(3));
    a.dealloc_ppn(p);
    assert!(a.has_free(3));
    assert!(!a.has_free(4));
    assert!(a.has_free(0));
}

#[test]
fn an_empty_range_has_no_frame() {
    let mut a = StackFrameAllocator::new(PhysPageNum(7), PhysPageNum(7));
    assert_eq!(a.alloc_ppn(), None);
    assert!(!a.has_free(1));
}

#[test]
fn live_frames_are_never_the_same() {
    let mut mem = PhysMemory::new(PhysPageNum(100), PhysPageNum(108));
    let mut live = Vec::new();
    for round in 0..40usize {
        if round % 3 == 2 {
            if !live.is_empty() {
                let f = live.remove(round % live.len());
                mem.frame_dealloc(f);
            }
        } else if let Some(f) = mem.frame_alloc() {
            live.push(f);
        }
        for i in 0..live.len() {
            for j in (i + 1)..live.len() {
                assert_ne!(live[i].ppn(), live[j].ppn());
            }
            assert!(mem.frame_is_allocated(live[i].ppn()));
        }
    }
}

#[test]
fn a_reused_frame_is_zeroed() {
    let mut mem = PhysMemory::new(PhysPageNum(0x80), PhysPageNum(0x84));
    let f = mem.frame_alloc().unwrap();
    let ppn = f.ppn();
    assert_eq!(ppn, PhysPageNum(0x80));
    mem.write(ppn, 0, 0xdead_beef);
    mem.write(ppn, 511, 7);
    assert_eq!(mem.read(ppn, 0), 0xdead_beef);
    assert_eq!(mem.read(ppn, 511), 7);
    mem.frame_dealloc(f);
    // the contents stay until the frame is handed out again
    assert_eq!(mem.read(ppn, 0), 0xdead_beef);
    let g = mem.frame_alloc().unwrap();
    assert_eq!(g.ppn(), ppn);
    for i in 0..512 {
        assert_eq!(mem.read(ppn, i), 0);
    }
}

#[test]
fn writing_a_word_changes_no_other_word() {
    let mut mem = PhysMemory::new(PhysPageNum(0), PhysPageNum(2));
    mem.write(PhysPageNum(0), 5, 11);
    mem.write(PhysPageNum(1), 5, 22);
    assert_eq!(mem.read(PhysPageNum(0), 5), 11);
    assert_eq!(mem.read(PhysPageNum(1), 5), 22);
    assert_eq!(mem.read(PhysPageNum(0), 4), 0);
    assert_eq!(mem.read(PhysPageNum(0), 6), 0);
    assert_eq!(mem.read(PhysPageNum(1), 0), 0);
}

#[test]
fn memory_exhaustion_gives_nothing() {
    let mut mem = PhysMemory::new(PhysPageNum(0), PhysPageNum(2));
    assert_eq!(mem.range(), (PhysPageNum(0), PhysPageNum(2)));
    assert!(mem.has_frame(PhysPageNum(1)));
    assert!(!mem.has_frame(PhysPageNum(2)));
    let a = mem.frame_alloc().unwrap();
    let b = mem.frame_alloc().unwrap();
    assert!(mem.frame_alloc().is_none());
    assert!(!mem.has_free_frames(1));
    mem.frame_dealloc(a);
    assert!(mem.has_free_frames(1));
    let c = mem.frame_alloc().unwrap();
    assert_eq!(c.ppn(), PhysPageNum(0));
    assert_eq!(b.ppn(), PhysPageNum(1));
}
