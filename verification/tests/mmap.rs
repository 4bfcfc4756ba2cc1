use kernel_core::mm::address::{PhysAddr, PhysPageNum, VirtAddr, VirtPageNum};
use kernel_core::mm::frame_allocator::PhysMemory;
use kernel_core::mm::memory_set::{MapPermission, MapType, MemorySet, PERM_R, PERM_W};
use kernel_core::mm::page_table::PTEFlags;
use kernel_core::mm::{alloc_virtual_memory, free_virtual_memory, init, translate, NotMapped};

fn setup(frames: u64) -> (PhysMemory, MemorySet) {
    let mut mem = PhysMemory::new(PhysPageNum(0x80000), PhysPageNum(0x80000 + frames));
    let ms = MemorySet::new_bare(&mut mem).unwrap();
    (mem, ms)
}

fn free_frames(mem: &PhysMemory) -> usize {
    let mut n = 0;
    while mem.has_free_frames(n + 1) {
        n += 1;
    }
    n
}

fn snapshot(ms: &MemorySet, mem: &PhysMemory, pages: u64) -> Vec<Option<u64>> {
    (0..pages).map(|v| ms.translate(mem, VirtPageNum(v)).map(|e| e.bits)).collect()
}

#[test]
fn mmap_over_mapped_pages_is_rejected_and_changes_nothing() {
    let (mut mem, mut ms) = setup(64);
    ms.insert_framed_area(
        &mut mem,
        VirtAddr(0x1000),
        VirtAddr(0x3000),
        MapPermission { bits: PERM_R | PERM_W },
    )
    .unwrap();
    let before = snapshot(&ms, &mem, 16);
    let free = free_frames(&mem);
    assert_eq!(alloc_virtual_memory(&mut ms, &mut mem, 0x2000, 0x2000, 0b010), -1);
    assert_eq!(snapshot(&ms, &mem, 16), before);
    assert_eq!(free_frames(&mem), free);
    assert_eq!(ms.area_count(), 1);
    assert_eq!(ms.area_range(0), (VirtPageNum(1), VirtPageNum(3)));
}

#[test]
fn munmap_undoes_mmap_and_cannot_be_repeated() {
    let (mut mem, mut ms) = setup(64);
    let before = snapshot(&ms, &mem, 32);
    assert_eq!(alloc_virtual_memory(&mut ms, &mut mem, 0x10000, 0x3000, 0b011), 0);
    for v in 0x10..0x13u64 {
        let e = ms.translate(&mem, VirtPageNum(v)).unwrap();
        // Valid, Read, Write, User
        assert_eq!(e.flags(), PTEFlags { bits: 0b10111 });
    }
    assert_eq!(ms.translate(&mem, VirtPageNum(0x13)), None);
    assert_eq!(free_virtual_memory(&mut ms, &mut mem, 0x10000, 0x3000), 0);
    assert_eq!(snapshot(&ms, &mem, 32), before);
    assert_eq!(ms.area_count(), 0);
    assert_eq!(free_virtual_memory(&mut ms, &mut mem, 0x10000, 0x3000), -1);
    assert_eq!(snapshot(&ms, &mem, 32), before);
}

#[test]
fn an_unaligned_start_is_rejected_without_allocating() {
    let (mut mem, mut ms) = setup(64);
    let free = free_frames(&mem);
    assert_eq!(alloc_virtual_memory(&mut ms, &mut mem, 0x1001, 0x1000, 0b001), -1);
    assert_eq!(free_frames(&mem), free);
    assert_eq!(ms.area_count(), 0);
    assert_eq!(ms.translate(&mem, VirtPageNum(1)), None);
    assert_eq!(ms.translate(&mem, VirtPageNum(2)), None);
    assert_eq!(free_virtual_memory(&mut ms, &mut mem, 0x1001, 0x1000), -1);
}

#[test]
fn permission_words_outside_one_to_seven_are_rejected() {
    let (mut mem, mut ms) = setup(64);
    let free = free_frames(&mem);
    assert_eq!(alloc_virtual_memory(&mut ms, &mut mem, 0x1000, 0x1000, 0), -1);
    assert_eq!(alloc_virtual_memory(&mut ms, &mut mem, 0x1000, 0x1000, 8), -1);
    assert_eq!(alloc_virtual_memory(&mut ms, &mut mem, 0x1000, 0x1000, 0b1001), -1);
    assert_eq!(alloc_virtual_memory(&mut ms, &mut mem, 0x1000, 0x1000, usize::MAX), -1);
    assert_eq!(free_frames(&mem), free);
    assert_eq!(ms.area_count(), 0);
}

#[test]
fn each_permission_word_sets_its_bits_and_user() {
    let (mut mem, mut ms) = setup(64);
    for port in 1..8usize {
        let start = port * 0x1000;
        assert_eq!(alloc_virtual_memory(&mut ms, &mut mem, start, 1, port), 0);
        let e = ms.translate(&mem, VirtPageNum(port as u64)).unwrap();
        assert_eq!(e.flags().bits, 1 | ((port as u8) << 1) | 16);
        assert_eq!(e.readable(), port & 1 != 0);
        assert_eq!(e.writable(), port & 2 != 0);
        assert_eq!(e.executable(), port & 4 != 0);
        assert!(e.flags().user());
    }
    assert_eq!(ms.area_count(), 7);
    assert_eq!(ms.area_kind(3), MapType::Framed);
}

#[test]
fn the_length_is_rounded_up_to_whole_pages() {
    let (mut mem, mut ms) = setup(64);
    assert_eq!(alloc_virtual_memory(&mut ms, &mut mem, 0x4000, 0x1001, 1), 0);
    assert!(ms.translate(&mem, VirtPageNum(4)).is_some());
    assert!(ms.translate(&mem, VirtPageNum(5)).is_some());
    assert_eq!(ms.translate(&mem, VirtPageNum(6)), None);
    assert_eq!(ms.area_range(0), (VirtPageNum(4), VirtPageNum(6)));
    // a shorter length that touches the same pages unmaps the same area
    assert_eq!(free_virtual_memory(&mut ms, &mut mem, 0x4000, 0x1800), 0);
    assert_eq!(ms.translate(&mem, VirtPageNum(4)), None);
    assert_eq!(ms.translate(&mem, VirtPageNum(5)), None);
}

#[test]
fn a_range_beyond_the_address_space_is_rejected() {
    let (mut mem, mut ms) = setup(64);
    let limit: usize = 1 << 39;
    assert_eq!(alloc_virtual_memory(&mut ms, &mut mem, limit, 0x1000, 1), -1);
    assert_eq!(alloc_virtual_memory(&mut ms, &mut mem, limit - 0x1000, 0x1001, 1), -1);
    assert_eq!(alloc_virtual_memory(&mut ms, &mut mem, 0x1000, usize::MAX, 1), -1);
    assert_eq!(free_virtual_memory(&mut ms, &mut mem, limit, 0x1000), -1);
    assert_eq!(free_virtual_memory(&mut ms, &mut mem, 0x1000, usize::MAX), -1);
    // the last page of the space can be mapped
    assert_eq!(alloc_virtual_memory(&mut ms, &mut mem, limit - 0x1000, 0x1000, 1), 0);
    assert!(ms.translate(&mem, VirtPageNum((1 << 27) - 1)).is_some());
    assert_eq!(free_virtual_memory(&mut ms, &mut mem, limit - 0x1000, 0x1000), 0);
}

#[test]
fn mmap_without_enough_frames_is_rejected_whole() {
    // root taken; 2 nodes + 2 pages needed, 3 frames there
    let (mut mem, mut ms) = setup(4);
    assert_eq!(free_frames(&mem), 3);
    assert_eq!(alloc_virtual_memory(&mut ms, &mut mem, 0x1000, 0x2000, 3), -1);
    assert_eq!(free_frames(&mem), 3);
    assert_eq!(ms.translate(&mem, VirtPageNum(1)), None);
    assert_eq!(alloc_virtual_memory(&mut ms, &mut mem, 0x1000, 0x1000, 3), 0);
    assert_eq!(free_frames(&mem), 0);
}

#[test]
fn a_request_of_no_length_maps_nothing() {
    let (mut mem, mut ms) = setup(16);
    let free = free_frames(&mem);
    assert_eq!(alloc_virtual_memory(&mut ms, &mut mem, 0x1000, 0, 1), 0);
    assert_eq!(free_frames(&mem), free);
    assert_eq!(ms.translate(&mem, VirtPageNum(1)), None);
    assert_eq!(ms.area_count(), 1);
    assert_eq!(ms.area_range(0), (VirtPageNum(1), VirtPageNum(1)));
    // nothing to unmap
    assert_eq!(free_virtual_memory(&mut ms, &mut mem, 0x1000, 0), -1);
    // the page can still be mapped, and unmapped
    assert_eq!(alloc_virtual_memory(&mut ms, &mut mem, 0x1000, 0x1000, 1), 0);
    assert_eq!(free_virtual_memory(&mut ms, &mut mem, 0x1000, 0x1000), 0);
    assert_eq!(ms.area_count(), 1);
}

#[test]
fn munmap_takes_whole_areas_only() {
    let (mut mem, mut ms) = setup(64);
    assert_eq!(alloc_virtual_memory(&mut ms, &mut mem, 0x1000, 0x2000, 3), 0);
    assert_eq!(alloc_virtual_memory(&mut ms, &mut mem, 0x3000, 0x2000, 3), 0);
    assert_eq!(alloc_virtual_memory(&mut ms, &mut mem, 0x8000, 0x1000, 3), 0);
    let full = snapshot(&ms, &mem, 16);
    let free = free_frames(&mem);
    // part of an area
    assert_eq!(free_virtual_memory(&mut ms, &mut mem, 0x1000, 0x1000), -1);
    assert_eq!(free_virtual_memory(&mut ms, &mut mem, 0x2000, 0x1000), -1);
    // one area and half of the next
    assert_eq!(free_virtual_memory(&mut ms, &mut mem, 0x1000, 0x3000), -1);
    // across a gap
    assert_eq!(free_virtual_memory(&mut ms, &mut mem, 0x3000, 0x6000), -1);
    // wholly unmapped
    assert_eq!(free_virtual_memory(&mut ms, &mut mem, 0x6000, 0x1000), -1);
    assert_eq!(snapshot(&ms, &mem, 16), full);
    assert_eq!(free_frames(&mem), free);
    assert_eq!(ms.area_count(), 3);
    // two adjacent areas at once
    assert_eq!(free_virtual_memory(&mut ms, &mut mem, 0x1000, 0x4000), 0);
    assert_eq!(ms.area_count(), 1);
    assert_eq!(ms.area_range(0), (VirtPageNum(8), VirtPageNum(9)));
    assert_eq!(free_frames(&mem), free + 4);
    for v in 1..5u64 {
        assert_eq!(ms.translate(&mem, VirtPageNum(v)), None);
    }
    assert_eq!(ms.translate(&mem, VirtPageNum(8)).map(|e| e.bits), full[8]);
}

#[test]
fn translate_adds_the_offset_to_the_frame() {
    let (mut mem, mut ms) = setup(64);
    assert_eq!(alloc_virtual_memory(&mut ms, &mut mem, 0x10000, 0x2000, 3), 0);
    let frame = ms.translate(&mem, VirtPageNum(0x10)).unwrap().ppn();
    let next = ms.translate(&mem, VirtPageNum(0x11)).unwrap().ppn();
    let token = ms.token();
    assert_eq!(translate(&mem, token, 0x10000), Ok(PhysAddr(frame.0 * 4096)));
    assert_eq!(translate(&mem, token, 0x10abc), Ok(PhysAddr(frame.0 * 4096 + 0xabc)));
    assert_eq!(translate(&mem, token, 0x11fff), Ok(PhysAddr(next.0 * 4096 + 0xfff)));
    assert_eq!(translate(&mem, token, 0x12000), Err(NotMapped));
    assert_eq!(translate(&mem, token, 0), Err(NotMapped));
    // another address space does not see the mapping
    let other = MemorySet::new_bare(&mut mem).unwrap();
    assert_eq!(translate(&mem, other.token(), 0x10000), Err(NotMapped));
    // a token that names no frame of the memory maps nothing
    assert_eq!(translate(&mem, 3, 0x10000), Err(NotMapped));
    // of the address the low 39 bits count
    assert_eq!(
        translate(&mem, token, (1usize << 39) + 0x10abc),
        Ok(PhysAddr(frame.0 * 4096 + 0xabc))
    );
}

#[test]
fn init_sets_up_memory_and_the_kernel_space() {
    let (mem, kernel_space, satp) = init(PhysPageNum(0x80000), PhysPageNum(0x80010)).unwrap();
    assert_eq!(kernel_space.token(), 0x80000);
    assert_eq!(satp, (8u64 << 60) | 0x80000);
    assert_eq!(kernel_space.area_count(), 0);
    assert!(mem.frame_is_allocated(PhysPageNum(0x80000)));
    assert!(!mem.frame_is_allocated(PhysPageNum(0x80001)));
    assert_eq!(free_frames(&mem), 15);
    assert_eq!(kernel_space.translate(&mem, VirtPageNum(0x80000)), None);
    assert!(init(PhysPageNum(5), PhysPageNum(5)).is_none());
}

#[test]
fn munmap_gives_frames_back_area_by_area() {
    let (mut mem, mut ms) = setup(64);
    assert_eq!(alloc_virtual_memory(&mut ms, &mut mem, 0x1000, 0x2000, 3), 0);
    assert_eq!(alloc_virtual_memory(&mut ms, &mut mem, 0x3000, 0x1000, 3), 0);
    let f1 = ms.translate(&mem, VirtPageNum(1)).unwrap().ppn();
    let f2 = ms.translate(&mem, VirtPageNum(2)).unwrap().ppn();
    let f3 = ms.translate(&mem, VirtPageNum(3)).unwrap().ppn();
    assert_eq!([f1, f2, f3], [PhysPageNum(0x80001), PhysPageNum(0x80004), PhysPageNum(0x80005)]);
    assert_eq!(free_virtual_memory(&mut ms, &mut mem, 0x1000, 0x3000), 0);
    // given back: f2, f1 of the first area, then f3 of the second
    assert_eq!(mem.frame_alloc().unwrap().ppn(), f3);
    assert_eq!(mem.frame_alloc().unwrap().ppn(), f1);
    assert_eq!(mem.frame_alloc().unwrap().ppn(), f2);
    assert_eq!(mem.frame_alloc().unwrap().ppn(), PhysPageNum(0x80006));
}
