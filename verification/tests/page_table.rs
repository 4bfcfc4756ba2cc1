use kernel_core::mm::address::{PhysPageNum, VirtPageNum};
use kernel_core::mm::frame_allocator::PhysMemory;
use kernel_core::mm::page_table::{
    MapError, PTEFlags, PageTable, PageTableEntry, UnmapError, PTE_A, PTE_D, PTE_G, PTE_R, PTE_U,
    PTE_V, PTE_W, PTE_X,
};
use std::cell::RefCell;

fn memory(frames: u64) -> PhysMemory {
    PhysMemory::new(PhysPageNum(0x80000), PhysPageNum(0x80000 + frames))
}

fn free_frames(mem: &PhysMemory) -> usize {
    let mut n = 0;
    while mem.has_free_frames(n + 1) {
        n += 1;
    }
    n
}

#[test]
fn entry_layout_is_flags_low_and_page_number_from_bit_ten() {
    let e = PageTableEntry::new(PhysPageNum(0x12345), PTEFlags { bits: PTE_V | PTE_R | PTE_W });
    assert_eq!(e.bits, (0x12345u64 << 10) | 0x7);
    assert_eq!(e.ppn(), PhysPageNum(0x12345));
    assert_eq!(e.flags(), PTEFlags { bits: 0x7 });
    assert!(e.is_valid());
    assert!(e.readable());
    assert!(e.writable());
    assert!(!e.executable());
    let top = PageTableEntry::new(PhysPageNum((1 << 44) - 1), PTEFlags { bits: 0xff });
    assert_eq!(top.bits, (((1u64 << 44) - 1) << 10) | 0xff);
    assert_eq!(top.ppn(), PhysPageNum((1 << 44) - 1));
    assert_eq!(PageTableEntry::empty().bits, 0);
    assert!(!PageTableEntry::empty().is_valid());
}

#[test]
fn flag_bits_are_v_r_w_x_u_g_a_d_from_bit_zero() {
    assert_eq!(
        [PTE_V, PTE_R, PTE_W, PTE_X, PTE_U, PTE_G, PTE_A, PTE_D],
        [1, 2, 4, 8, 16, 32, 64, 128]
    );
    let f = PTEFlags { bits: PTE_X | PTE_U };
    assert!(!f.valid());
    assert!(!f.readable());
    assert!(!f.writable());
    assert!(f.executable());
    assert!(f.user());
    assert!(f.is_leaf());
    assert_eq!(f.with_valid(), PTEFlags { bits: PTE_V | PTE_X | PTE_U });
    assert_eq!(f.with_valid().with_valid(), f.with_valid());
    assert!(!PTEFlags { bits: PTE_V | PTE_U | PTE_G | PTE_A | PTE_D }.is_leaf());
    assert!(PTEFlags { bits: PTE_R }.is_leaf());
    assert!(PTEFlags { bits: PTE_W }.is_leaf());
}

#[test]
fn map_then_translate_gives_the_frame_and_the_flags() {
    let mut mem = memory(16);
    let mut pt = PageTable::new(&mut mem).unwrap();
    let vpn = VirtPageNum(0x12345);
    let flags = PTEFlags { bits: PTE_R | PTE_X | PTE_U };
    assert_eq!(pt.translate(&mem, vpn), None);
    assert_eq!(pt.map(&mut mem, vpn, PhysPageNum(0x777), flags), Ok(()));
    let e = pt.translate(&mem, vpn).unwrap();
    assert_eq!(e.ppn(), PhysPageNum(0x777));
    assert_eq!(e.flags(), PTEFlags { bits: PTE_V | PTE_R | PTE_X | PTE_U });
    assert_eq!(pt.find_pte(&mem, vpn), Some(e));
    assert_eq!(pt.unmap(&mut mem, vpn), Ok(()));
    assert_eq!(pt.translate(&mem, vpn), None);
    assert_eq!(pt.find_pte(&mem, vpn), None);
}

#[test]
fn mapping_a_mapped_page_fails_and_changes_nothing() {
    let mut mem = memory(16);
    let mut pt = PageTable::new(&mut mem).unwrap();
    let vpn = VirtPageNum(42);
    let rw = PTEFlags { bits: PTE_R | PTE_W };
    assert_eq!(pt.map(&mut mem, vpn, PhysPageNum(1), rw), Ok(()));
    let before = pt.translate(&mem, vpn);
    let free = free_frames(&mem);
    assert_eq!(
        pt.map(&mut mem, vpn, PhysPageNum(2), PTEFlags { bits: PTE_X }),
        Err(MapError::AlreadyMapped)
    );
    assert_eq!(pt.translate(&mem, vpn), before);
    assert_eq!(free_frames(&mem), free);
    assert_eq!(pt.unmap(&mut mem, vpn), Ok(()));
    assert_eq!(pt.map(&mut mem, vpn, PhysPageNum(2), PTEFlags { bits: PTE_X }), Ok(()));
    assert_eq!(pt.translate(&mem, vpn).unwrap().ppn(), PhysPageNum(2));
}

#[test]
fn unmapping_an_unmapped_page_fails() {
    let mut mem = memory(16);
    let mut pt = PageTable::new(&mut mem).unwrap();
    assert_eq!(pt.unmap(&mut mem, VirtPageNum(1)), Err(UnmapError::NotMapped));
    let r = PTEFlags { bits: PTE_R };
    pt.map(&mut mem, VirtPageNum(1), PhysPageNum(1), r).unwrap();
    // same last-level node, other entry
    assert_eq!(pt.unmap(&mut mem, VirtPageNum(2)), Err(UnmapError::NotMapped));
    // same middle node, other last-level node
    assert_eq!(pt.unmap(&mut mem, VirtPageNum(512)), Err(UnmapError::NotMapped));
    assert_eq!(pt.unmap(&mut mem, VirtPageNum(1)), Ok(()));
    assert_eq!(pt.unmap(&mut mem, VirtPageNum(1)), Err(UnmapError::NotMapped));
}

#[test]
fn flags_without_access_are_refused() {
    let mut mem = memory(16);
    let mut pt = PageTable::new(&mut mem).unwrap();
    let free = free_frames(&mem);
    assert_eq!(
        pt.map(&mut mem, VirtPageNum(1), PhysPageNum(1), PTEFlags { bits: PTE_U }),
        Err(MapError::InvalidPermission)
    );
    assert_eq!(
        pt.map(&mut mem, VirtPageNum(1), PhysPageNum(1), PTEFlags { bits: 0 }),
        Err(MapError::InvalidPermission)
    );
    assert_eq!(free_frames(&mem), free);
    assert_eq!(pt.translate(&mem, VirtPageNum(1)), None);
}

#[test]
fn a_walk_takes_the_nodes_that_it_lacks() {
    let mut mem = memory(16);
    let mut pt = PageTable::new(&mut mem).unwrap();
    assert_eq!(free_frames(&mem), 15);
    let r = PTEFlags { bits: PTE_R };
    assert_eq!(pt.missing_nodes_at(&mem, VirtPageNum(0)), 2);
    pt.map(&mut mem, VirtPageNum(0), PhysPageNum(1), r).unwrap();
    assert_eq!(free_frames(&mem), 13);
    assert_eq!(pt.missing_nodes_at(&mem, VirtPageNum(1)), 0);
    assert_eq!(pt.missing_nodes_at(&mem, VirtPageNum(512)), 1);
    assert_eq!(pt.missing_nodes_at(&mem, VirtPageNum(1 << 18)), 2);
    pt.map(&mut mem, VirtPageNum(1), PhysPageNum(1), r).unwrap();
    assert_eq!(free_frames(&mem), 13);
    pt.map(&mut mem, VirtPageNum(512), PhysPageNum(1), r).unwrap();
    assert_eq!(free_frames(&mem), 12);
    pt.map(&mut mem, VirtPageNum(1 << 18), PhysPageNum(1), r).unwrap();
    assert_eq!(free_frames(&mem), 10);
    // nodes stay when their pages are unmapped
    pt.unmap(&mut mem, VirtPageNum(1 << 18)).unwrap();
    assert_eq!(free_frames(&mem), 10);
    assert_eq!(pt.missing_nodes_at(&mem, VirtPageNum(1 << 18)), 0);
}

#[test]
fn a_walk_that_lacks_more_nodes_than_frames_are_free_is_refused() {
    let mut mem = memory(2);
    let mut pt = PageTable::new(&mut mem).unwrap();
    assert_eq!(free_frames(&mem), 1);
    let r = PTEFlags { bits: PTE_R };
    assert_eq!(
        pt.map(&mut mem, VirtPageNum(0), PhysPageNum(1), r),
        Err(MapError::OutOfFrames)
    );
    assert_eq!(free_frames(&mem), 1);
    assert_eq!(pt.missing_nodes_at(&mem, VirtPageNum(0)), 2);
    assert_eq!(pt.translate(&mem, VirtPageNum(0)), None);
}

#[test]
fn no_table_where_no_frame_is_free() {
    let mut mem = memory(0);
    assert!(PageTable::new(&mut mem).is_none());
    let mut mem = memory(1);
    let pt = PageTable::new(&mut mem).unwrap();
    assert_eq!(pt.token(), 0x80000);
    assert!(PageTable::new(&mut mem).is_none());
}

#[test]
fn other_pages_keep_their_mapping() {
    let mut mem = memory(32);
    let mut pt = PageTable::new(&mut mem).unwrap();
    let r = PTEFlags { bits: PTE_R };
    let pages = [0u64, 1, 511, 512, 513, (1 << 18) - 1, 1 << 18, (1 << 27) - 1];
    for (i, p) in pages.iter().enumerate() {
        pt.map(&mut mem, VirtPageNum(*p), PhysPageNum(1000 + i as u64), r).unwrap();
    }
    for (i, p) in pages.iter().enumerate() {
        assert_eq!(pt.translate(&mem, VirtPageNum(*p)).unwrap().ppn(), PhysPageNum(1000 + i as u64));
    }
    pt.unmap(&mut mem, VirtPageNum(512)).unwrap();
    for (i, p) in pages.iter().enumerate() {
        if *p == 512 {
            assert_eq!(pt.translate(&mem, VirtPageNum(*p)), None);
        } else {
            assert_eq!(
                pt.translate(&mem, VirtPageNum(*p)).unwrap().ppn(),
                PhysPageNum(1000 + i as u64)
            );
        }
    }
    assert_eq!(pt.translate(&mem, VirtPageNum(2)), None);
}

#[test]
fn a_view_from_the_token_sees_the_same_mappings() {
    let mut mem = memory(16);
    let mut pt = PageTable::new(&mut mem).unwrap();
    pt.map(&mut mem, VirtPageNum(7), PhysPageNum(70), PTEFlags { bits: PTE_W | PTE_R }).unwrap();
    let view = PageTable::from_token(pt.token());
    assert_eq!(view.token(), pt.token());
    assert_eq!(view.translate(&mem, VirtPageNum(7)), pt.translate(&mem, VirtPageNum(7)));
    assert_eq!(view.translate(&mem, VirtPageNum(8)), None);
    // the mode bits of a register value do not count
    let with_mode = PageTable::from_token((8u64 << 60) | pt.token());
    assert_eq!(with_mode.token(), pt.token());
    // a token that names no frame of the memory maps nothing
    let stray = PageTable::from_token(5);
    assert_eq!(stray.translate(&mem, VirtPageNum(7)), None);
}

#[test]
fn interval_checks_scan_the_half_open_range() {
    let mut mem = memory(16);
    let mut pt = PageTable::new(&mut mem).unwrap();
    let r = PTEFlags { bits: PTE_R };
    pt.map(&mut mem, VirtPageNum(1), PhysPageNum(1), r).unwrap();
    pt.map(&mut mem, VirtPageNum(2), PhysPageNum(2), r).unwrap();
    assert!(pt.interval_valid(&mem, VirtPageNum(0), VirtPageNum(2)));
    assert!(pt.interval_valid(&mem, VirtPageNum(2), VirtPageNum(4)));
    assert!(!pt.interval_valid(&mem, VirtPageNum(3), VirtPageNum(9)));
    assert!(!pt.interval_valid(&mem, VirtPageNum(0), VirtPageNum(1)));
    assert!(!pt.interval_valid(&mem, VirtPageNum(1), VirtPageNum(1)));
    assert!(!pt.interval_valid(&mem, VirtPageNum(2), VirtPageNum(1)));
    assert!(!pt.interval_invalid(&mem, VirtPageNum(1), VirtPageNum(3)));
    assert!(pt.interval_invalid(&mem, VirtPageNum(1), VirtPageNum(4)));
    assert!(pt.interval_invalid(&mem, VirtPageNum(0), VirtPageNum(2)));
    assert!(!pt.interval_invalid(&mem, VirtPageNum(5), VirtPageNum(5)));
}

#[test]
fn interval_op_calls_back_for_each_page_in_order() {
    let seen = RefCell::new(Vec::new());
    PageTable::interval_op(VirtPageNum(3), VirtPageNum(7), |v: VirtPageNum| {
        seen.borrow_mut().push(v.0)
    });
    assert_eq!(*seen.borrow(), vec![3, 4, 5, 6]);
    let none = RefCell::new(0);
    PageTable::interval_op(VirtPageNum(7), VirtPageNum(7), |_v: VirtPageNum| {
        *none.borrow_mut() += 1
    });
    assert_eq!(*none.borrow(), 0);
}

#[test]
fn frames_needed_counts_pages_and_new_nodes() {
    let mut mem = memory(64);
    let mut pt = PageTable::new(&mut mem).unwrap();
    // three pages in one last-level node of an empty table: 3 frames and 2 nodes
    assert_eq!(pt.frames_needed(&mem, VirtPageNum(0x10), VirtPageNum(0x13), 1), 5);
    assert_eq!(pt.frames_needed(&mem, VirtPageNum(0x10), VirtPageNum(0x13), 0), 2);
    // two pages across two last-level nodes: 2 frames, 1 middle node, 2 last-level nodes
    assert_eq!(pt.frames_needed(&mem, VirtPageNum(511), VirtPageNum(513), 1), 5);
    assert_eq!(pt.frames_needed(&mem, VirtPageNum(4), VirtPageNum(4), 1), 0);
    pt.map(&mut mem, VirtPageNum(0), PhysPageNum(1), PTEFlags { bits: PTE_R }).unwrap();
    assert_eq!(pt.frames_needed(&mem, VirtPageNum(0x10), VirtPageNum(0x13), 1), 3);
    assert_eq!(pt.frames_needed(&mem, VirtPageNum(511), VirtPageNum(513), 1), 3);
}

#[test]
fn releasing_a_table_frees_all_its_nodes() {
    let mut mem = memory(16);
    let mut pt = PageTable::new(&mut mem).unwrap();
    let r = PTEFlags { bits: PTE_R };
    pt.map(&mut mem, VirtPageNum(0), PhysPageNum(1), r).unwrap();
    pt.map(&mut mem, VirtPageNum(1 << 18), PhysPageNum(1), r).unwrap();
    assert_eq!(free_frames(&mem), 16 - 5);
    pt.release(&mut mem);
    assert_eq!(free_frames(&mem), 16);
}
