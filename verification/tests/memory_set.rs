use kernel_core::mm::address::{PhysPageNum, VirtAddr, VirtPageNum};
use kernel_core::mm::frame_allocator::PhysMemory;
use kernel_core::mm::memory_set::{
    MapArea, MapPermission, MapType, MemorySet, PERM_R, PERM_U, PERM_W, PERM_X,
};
use kernel_core::mm::page_table::{MapError, PTEFlags};

fn memory(frames: u64) -> PhysMemory {
    PhysMemory::new(PhysPageNum(0x80000), PhysPageNum(0x80000 + frames))
}

fn free_frames(mem: &PhysMemory) -> usize {
    let mut n = 0;
    while mem.has_free_frames(n + 1) {
        n += 1;
    }
    n
}

fn rw() -> MapPermission {
    MapPermission { bits: PERM_R | PERM_W }
}

#[test]
fn permission_bits_are_those_of_the_table_entry() {
    assert_eq!([PERM_R, PERM_W, PERM_X, PERM_U], [2, 4, 8, 16]);
    assert_eq!(MapPermission::from_bits(0), Some(MapPermission { bits: 0 }));
    assert_eq!(MapPermission::from_bits(30), Some(MapPermission { bits: 30 }));
    assert_eq!(MapPermission::from_bits(1), None);
    assert_eq!(MapPermission::from_bits(32), None);
    assert_eq!(MapPermission::from_bits(0x80), None);
    assert_eq!(MapPermission { bits: 22 }.flags(), PTEFlags { bits: 22 });
}

#[test]
fn a_new_area_covers_the_pages_that_its_addresses_touch() {
    let a = MapArea::new(VirtAddr(0x1001), VirtAddr(0x2fff), MapType::Framed, rw());
    assert_eq!(a.get_start(), VirtPageNum(1));
    assert_eq!(a.get_end(), VirtPageNum(3));
    assert_eq!(a.map_type(), MapType::Framed);
    assert_eq!(a.map_perm(), rw());
    let b = MapArea::new(VirtAddr(0x3000), VirtAddr(0x3000), MapType::Identical, rw());
    assert_eq!(b.get_start(), VirtPageNum(3));
    assert_eq!(b.get_end(), VirtPageNum(3));
}

#[test]
fn a_bare_address_space_maps_nothing() {
    let mut mem = memory(8);
    let ms = MemorySet::new_bare(&mut mem).unwrap();
    assert_eq!(ms.token(), 0x80000);
    assert_eq!(ms.area_count(), 0);
    assert_eq!(ms.translate(&mem, VirtPageNum(0)), None);
    assert!(!ms.interval_valid(&mem, VirtPageNum(0), VirtPageNum(1000)));
    assert_eq!(free_frames(&mem), 7);
    let mut none = memory(0);
    assert!(MemorySet::new_bare(&mut none).is_none());
}

#[test]
fn activation_value_is_mode_eight_and_the_root() {
    let mut mem = memory(8);
    let ms = MemorySet::new_bare(&mut mem).unwrap();
    assert_eq!(ms.activate(), (8u64 << 60) | 0x80000);
}

#[test]
fn a_framed_area_gets_a_zeroed_frame_for_each_page() {
    let mut mem = memory(16);
    let mut ms = MemorySet::new_bare(&mut mem).unwrap();
    assert_eq!(ms.insert_framed_area(&mut mem, VirtAddr(0x5000), VirtAddr(0x7001), rw()), Ok(()));
    assert_eq!(ms.area_count(), 1);
    assert_eq!(ms.area_range(0), (VirtPageNum(5), VirtPageNum(8)));
    assert_eq!(ms.area_kind(0), MapType::Framed);
    // root, two nodes and three pages
    assert_eq!(free_frames(&mem), 16 - 6);
    let mut frames = Vec::new();
    for v in 5..8u64 {
        let e = ms.translate(&mem, VirtPageNum(v)).unwrap();
        assert_eq!(e.flags(), PTEFlags { bits: 1 | PERM_R | PERM_W });
        assert!(mem.frame_is_allocated(e.ppn()));
        for i in 0..512 {
            assert_eq!(mem.read(e.ppn(), i), 0);
        }
        frames.push(e.ppn());
    }
    assert_ne!(frames[0], frames[1]);
    assert_ne!(frames[1], frames[2]);
    assert_ne!(frames[0], frames[2]);
    assert_eq!(ms.translate(&mem, VirtPageNum(4)), None);
    assert_eq!(ms.translate(&mem, VirtPageNum(8)), None);
}

#[test]
fn an_identical_area_maps_each_page_to_its_own_number() {
    let mut mem = memory(16);
    let mut ms = MemorySet::new_bare(&mut mem).unwrap();
    let area = MapArea::new(
        VirtAddr(0x8020_0000),
        VirtAddr(0x8020_3000),
        MapType::Identical,
        MapPermission { bits: PERM_R | PERM_X },
    );
    let before = free_frames(&mem);
    assert_eq!(ms.push(&mut mem, area), Ok(()));
    // only the two nodes of the walk
    assert_eq!(free_frames(&mem), before - 2);
    for v in 0x80200..0x80203u64 {
        let e = ms.translate(&mem, VirtPageNum(v)).unwrap();
        assert_eq!(e.ppn(), PhysPageNum(v));
        assert_eq!(e.flags(), PTEFlags { bits: 1 | PERM_R | PERM_X });
    }
    assert!(ms.remove_area_with_start_vpn(&mut mem, VirtPageNum(0x80200)));
    assert_eq!(ms.translate(&mem, VirtPageNum(0x80200)), None);
    assert_eq!(free_frames(&mem), before - 2);
}

#[test]
fn an_overlapping_area_is_refused_and_nothing_changes() {
    let mut mem = memory(32);
    let mut ms = MemorySet::new_bare(&mut mem).unwrap();
    ms.insert_framed_area(&mut mem, VirtAddr(0x1000), VirtAddr(0x3000), rw()).unwrap();
    let free = free_frames(&mem);
    let e1 = ms.translate(&mem, VirtPageNum(1));
    let e2 = ms.translate(&mem, VirtPageNum(2));
    assert_eq!(
        ms.insert_framed_area(&mut mem, VirtAddr(0x2000), VirtAddr(0x5000), rw()),
        Err(MapError::AlreadyMapped)
    );
    assert_eq!(
        ms.insert_framed_area(&mut mem, VirtAddr(0), VirtAddr(0x1001), rw()),
        Err(MapError::AlreadyMapped)
    );
    assert_eq!(free_frames(&mem), free);
    assert_eq!(ms.area_count(), 1);
    assert_eq!(ms.translate(&mem, VirtPageNum(1)), e1);
    assert_eq!(ms.translate(&mem, VirtPageNum(2)), e2);
    assert_eq!(ms.translate(&mem, VirtPageNum(0)), None);
    assert_eq!(ms.translate(&mem, VirtPageNum(3)), None);
    assert_eq!(ms.translate(&mem, VirtPageNum(4)), None);
}

#[test]
fn a_permission_without_access_is_refused() {
    let mut mem = memory(32);
    let mut ms = MemorySet::new_bare(&mut mem).unwrap();
    let free = free_frames(&mem);
    assert_eq!(
        ms.insert_framed_area(
            &mut mem,
            VirtAddr(0x1000),
            VirtAddr(0x3000),
            MapPermission { bits: PERM_U }
        ),
        Err(MapError::InvalidPermission)
    );
    assert_eq!(free_frames(&mem), free);
    assert_eq!(ms.area_count(), 0);
}

#[test]
fn an_area_is_mapped_whole_or_not_at_all() {
    // root + 2 nodes + 3 pages = 6 frames needed; 5 there
    let mut mem = memory(5);
    let mut ms = MemorySet::new_bare(&mut mem).unwrap();
    assert_eq!(free_frames(&mem), 4);
    assert_eq!(
        ms.insert_framed_area(&mut mem, VirtAddr(0x1000), VirtAddr(0x4000), rw()),
        Err(MapError::OutOfFrames)
    );
    assert_eq!(free_frames(&mem), 4);
    assert_eq!(ms.area_count(), 0);
    for v in 0..6u64 {
        assert_eq!(ms.translate(&mem, VirtPageNum(v)), None);
    }
    // two pages fit exactly
    assert_eq!(ms.insert_framed_area(&mut mem, VirtAddr(0x1000), VirtAddr(0x3000), rw()), Ok(()));
    assert_eq!(free_frames(&mem), 0);
    assert!(ms.translate(&mem, VirtPageNum(1)).is_some());
    assert!(ms.translate(&mem, VirtPageNum(2)).is_some());
}

#[test]
fn removing_an_area_by_its_first_page() {
    let mut mem = memory(32);
    let mut ms = MemorySet::new_bare(&mut mem).unwrap();
    ms.insert_framed_area(&mut mem, VirtAddr(0x1000), VirtAddr(0x3000), rw()).unwrap();
    ms.insert_framed_area(&mut mem, VirtAddr(0x3000), VirtAddr(0x4000), rw()).unwrap();
    let free = free_frames(&mem);
    assert_eq!(ms.find_area(VirtPageNum(3)), 1);
    assert_eq!(ms.find_area(VirtPageNum(1)), 0);
    assert_eq!(ms.find_area(VirtPageNum(2)), 2);
    // no area starts at page 2
    assert!(!ms.remove_area_with_start_vpn(&mut mem, VirtPageNum(2)));
    assert_eq!(free_frames(&mem), free);
    assert_eq!(ms.area_count(), 2);
    assert!(ms.remove_area_with_start_vpn(&mut mem, VirtPageNum(1)));
    assert_eq!(ms.area_count(), 1);
    assert_eq!(ms.area_range(0), (VirtPageNum(3), VirtPageNum(4)));
    assert_eq!(free_frames(&mem), free + 2);
    assert_eq!(ms.translate(&mem, VirtPageNum(1)), None);
    assert_eq!(ms.translate(&mem, VirtPageNum(2)), None);
    assert!(ms.translate(&mem, VirtPageNum(3)).is_some());
    assert!(!ms.remove_area_with_start_vpn(&mut mem, VirtPageNum(1)));
}

#[test]
fn released_frames_are_reused_zeroed() {
    let mut mem = memory(32);
    let mut ms = MemorySet::new_bare(&mut mem).unwrap();
    ms.insert_framed_area(&mut mem, VirtAddr(0x1000), VirtAddr(0x2000), rw()).unwrap();
    let frame = ms.translate(&mem, VirtPageNum(1)).unwrap().ppn();
    mem.write(frame, 3, 0x5ec2e7);
    assert!(ms.remove_area_with_start_vpn(&mut mem, VirtPageNum(1)));
    assert!(!mem.frame_is_allocated(frame));
    ms.insert_framed_area(&mut mem, VirtAddr(0x9000), VirtAddr(0xa000), rw()).unwrap();
    let again = ms.translate(&mem, VirtPageNum(9)).unwrap().ppn();
    assert_eq!(again, frame);
    assert_eq!(mem.read(again, 3), 0);
}

#[test]
fn releasing_an_address_space_frees_every_frame() {
    let mut mem = memory(64);
    let mut other = MemorySet::new_bare(&mut mem).unwrap();
    other.insert_framed_area(&mut mem, VirtAddr(0x1000), VirtAddr(0x2000), rw()).unwrap();
    let kept = other.translate(&mem, VirtPageNum(1)).unwrap();
    let before = free_frames(&mem);
    let mut ms = MemorySet::new_bare(&mut mem).unwrap();
    ms.insert_framed_area(&mut mem, VirtAddr(0x1000), VirtAddr(0x6000), rw()).unwrap();
    ms.insert_framed_area(&mut mem, VirtAddr(0x4000_0000), VirtAddr(0x4000_2000), rw()).unwrap();
    assert!(free_frames(&mem) < before);
    ms.release(&mut mem);
    assert_eq!(free_frames(&mem), before);
    // the other address space is as it was
    assert_eq!(other.translate(&mem, VirtPageNum(1)), Some(kept));
    assert!(mem.frame_is_allocated(kept.ppn()));
}

#[test]
fn two_address_spaces_do_not_share_frames() {
    let mut mem = memory(64);
    let mut a = MemorySet::new_bare(&mut mem).unwrap();
    let mut b = MemorySet::new_bare(&mut mem).unwrap();
    a.insert_framed_area(&mut mem, VirtAddr(0x1000), VirtAddr(0x3000), rw()).unwrap();
    b.insert_framed_area(&mut mem, VirtAddr(0x1000), VirtAddr(0x3000), rw()).unwrap();
    assert_ne!(a.token(), b.token());
    for v in 1..3u64 {
        for w in 1..3u64 {
            assert_ne!(
                a.translate(&mem, VirtPageNum(v)).unwrap().ppn(),
                b.translate(&mem, VirtPageNum(w)).unwrap().ppn()
            );
        }
    }
}

#[test]
fn an_area_grows_and_shrinks_at_its_end() {
    let mut mem = memory(64);
    let mut ms = MemorySet::new_bare(&mut mem).unwrap();
    ms.insert_framed_area(&mut mem, VirtAddr(0x10000), VirtAddr(0x10000), rw()).unwrap();
    ms.insert_framed_area(&mut mem, VirtAddr(0x14000), VirtAddr(0x15000), rw()).unwrap();
    assert_eq!(ms.area_range(0), (VirtPageNum(0x10), VirtPageNum(0x10)));
    let free = free_frames(&mem);
    // grow by one byte: one page
    assert!(ms.append_to(&mut mem, VirtAddr(0x10000), VirtAddr(0x10001)));
    assert_eq!(ms.area_range(0), (VirtPageNum(0x10), VirtPageNum(0x11)));
    assert_eq!(free_frames(&mem), free - 1);
    let first = ms.translate(&mem, VirtPageNum(0x10)).unwrap();
    assert!(ms.append_to(&mut mem, VirtAddr(0x10000), VirtAddr(0x13000)));
    assert_eq!(ms.area_range(0), (VirtPageNum(0x10), VirtPageNum(0x13)));
    assert_eq!(free_frames(&mem), free - 3);
    assert_eq!(ms.translate(&mem, VirtPageNum(0x10)), Some(first));
    // the next page would run into the other area
    assert!(!ms.append_to(&mut mem, VirtAddr(0x10000), VirtAddr(0x15000)));
    assert_eq!(ms.area_range(0), (VirtPageNum(0x10), VirtPageNum(0x13)));
    assert_eq!(free_frames(&mem), free - 3);
    // an end before the area's end is no growth
    assert!(!ms.append_to(&mut mem, VirtAddr(0x10000), VirtAddr(0x11000)));
    // no area starts at this page
    assert!(!ms.append_to(&mut mem, VirtAddr(0x11000), VirtAddr(0x12000)));
    assert!(!ms.shrink_to(&mut mem, VirtAddr(0x11000), VirtAddr(0x12000)));
    assert!(ms.shrink_to(&mut mem, VirtAddr(0x10000), VirtAddr(0x10800)));
    assert_eq!(ms.area_range(0), (VirtPageNum(0x10), VirtPageNum(0x11)));
    assert_eq!(free_frames(&mem), free - 1);
    assert_eq!(ms.translate(&mem, VirtPageNum(0x10)), Some(first));
    assert_eq!(ms.translate(&mem, VirtPageNum(0x11)), None);
    assert_eq!(ms.translate(&mem, VirtPageNum(0x12)), None);
    assert!(ms.translate(&mem, VirtPageNum(0x14)).is_some());
    // an end after the area's end is no cut
    assert!(!ms.shrink_to(&mut mem, VirtAddr(0x10000), VirtAddr(0x12000)));
    assert!(ms.shrink_to(&mut mem, VirtAddr(0x10000), VirtAddr(0x10000)));
    assert_eq!(ms.area_range(0), (VirtPageNum(0x10), VirtPageNum(0x10)));
    assert_eq!(free_frames(&mem), free);
}

#[test]
fn growth_that_needs_more_frames_than_are_free_changes_nothing() {
    let mut mem = memory(5);
    let mut ms = MemorySet::new_bare(&mut mem).unwrap();
    ms.insert_framed_area(&mut mem, VirtAddr(0x10000), VirtAddr(0x11000), rw()).unwrap();
    assert_eq!(free_frames(&mem), 1);
    assert!(!ms.append_to(&mut mem, VirtAddr(0x10000), VirtAddr(0x13000)));
    assert_eq!(free_frames(&mem), 1);
    assert_eq!(ms.area_range(0), (VirtPageNum(0x10), VirtPageNum(0x11)));
    assert!(ms.append_to(&mut mem, VirtAddr(0x10000), VirtAddr(0x12000)));
    assert_eq!(free_frames(&mem), 0);
}

#[test]
fn each_page_takes_its_frame_before_the_nodes_of_its_walk() {
    let mut mem = memory(32);
    let mut ms = MemorySet::new_bare(&mut mem).unwrap();
    assert_eq!(ms.token(), 0x80000);
    // pages 511 and 512 lie in two last-level nodes under one middle node
    ms.insert_framed_area(&mut mem, VirtAddr(511 * 4096), VirtAddr(513 * 4096), rw()).unwrap();
    // page 511: its frame, the middle node, the last-level node; page 512:
    // its frame, the second last-level node
    assert_eq!(ms.translate(&mem, VirtPageNum(511)).unwrap().ppn(), PhysPageNum(0x80001));
    assert_eq!(ms.translate(&mem, VirtPageNum(512)).unwrap().ppn(), PhysPageNum(0x80004));
    for f in 0x80000..0x80006u64 {
        assert!(mem.frame_is_allocated(PhysPageNum(f)));
    }
    assert!(!mem.frame_is_allocated(PhysPageNum(0x80006)));
    // the root's entry leads to the middle node, that node's entries to the
    // last-level nodes
    assert_eq!(mem.read(PhysPageNum(0x80000), 0), (0x80002 << 10) | 1);
    assert_eq!(mem.read(PhysPageNum(0x80002), 0), (0x80003 << 10) | 1);
    assert_eq!(mem.read(PhysPageNum(0x80002), 1), (0x80005 << 10) | 1);
    assert_eq!(mem.read(PhysPageNum(0x80003), 511), (0x80001 << 10) | 7);
    assert_eq!(mem.read(PhysPageNum(0x80005), 0), (0x80004 << 10) | 7);
}

#[test]
fn frames_come_back_last_page_first_and_are_reused_in_turn() {
    let mut mem = memory(32);
    let mut ms = MemorySet::new_bare(&mut mem).unwrap();
    ms.insert_framed_area(&mut mem, VirtAddr(0x5000), VirtAddr(0x8000), rw()).unwrap();
    let frames: Vec<PhysPageNum> =
        (5..8u64).map(|v| ms.translate(&mem, VirtPageNum(v)).unwrap().ppn()).collect();
    assert_eq!(frames, vec![PhysPageNum(0x80001), PhysPageNum(0x80004), PhysPageNum(0x80005)]);
    assert!(ms.remove_area_with_start_vpn(&mut mem, VirtPageNum(5)));
    // the frame of the first page came back last, so it is handed out first
    ms.insert_framed_area(&mut mem, VirtAddr(0x5000), VirtAddr(0x8000), rw()).unwrap();
    let again: Vec<PhysPageNum> =
        (5..8u64).map(|v| ms.translate(&mem, VirtPageNum(v)).unwrap().ppn()).collect();
    assert_eq!(again, frames);
    // releasing the whole address space gives back the areas' frames, then
    // the nodes, the root last
    ms.release(&mut mem);
    let order: Vec<PhysPageNum> = (0..6).map(|_| mem.frame_alloc().unwrap().ppn()).collect();
    assert_eq!(
        order,
        vec![
            PhysPageNum(0x80000),
            PhysPageNum(0x80002),
            PhysPageNum(0x80003),
            PhysPageNum(0x80001),
            PhysPageNum(0x80004),
            PhysPageNum(0x80005)
        ]
    );
}
