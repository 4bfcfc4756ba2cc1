use kernel_core::mm::address::{PhysAddr, PhysPageNum, VirtAddr, VirtPageNum};

#[test]
fn floor_and_ceil_of_virtual_addresses() {
    assert_eq!(VirtAddr(0).floor(), VirtPageNum(0));
    assert_eq!(VirtAddr(0).ceil(), VirtPageNum(0));
    assert_eq!(VirtAddr(1).floor(), VirtPageNum(0));
    assert_eq!(VirtAddr(1).ceil(), VirtPageNum(1));
    assert_eq!(VirtAddr(0x1000).floor(), VirtPageNum(1));
    assert_eq!(VirtAddr(0x1000).ceil(), VirtPageNum(1));
    assert_eq!(VirtAddr(0x1fff).floor(), VirtPageNum(1));
    assert_eq!(VirtAddr(0x1fff).ceil(), VirtPageNum(2));
    assert_eq!(VirtAddr(0x13000).ceil(), VirtPageNum(0x13));
}

#[test]
fn floor_and_ceil_of_physical_addresses() {
    assert_eq!(PhysAddr(0x8020_0abc).floor(), PhysPageNum(0x80200));
    assert_eq!(PhysAddr(0x8020_0abc).ceil(), PhysPageNum(0x80201));
    assert_eq!(PhysAddr(0x8020_0000).ceil(), PhysPageNum(0x80200));
    assert_eq!(PhysAddr(0).ceil(), PhysPageNum(0));
}

#[test]
fn page_offset_is_the_low_twelve_bits() {
    assert_eq!(VirtAddr(0x12345).page_offset(), 0x345);
    assert_eq!(VirtAddr(0x12000).page_offset(), 0);
    assert_eq!(PhysAddr(0x8020_0fff).page_offset(), 0xfff);
    assert!(VirtAddr(0x12000).aligned());
    assert!(!VirtAddr(0x12001).aligned());
    assert!(PhysAddr(0).aligned());
    assert!(!PhysAddr(0xfff).aligned());
}

#[test]
fn indexes_are_three_groups_of_nine_bits_root_first() {
    let vpn = VirtPageNum((5 << 18) | (7 << 9) | 11);
    assert_eq!(vpn.indexes(), [5, 7, 11]);
    assert_eq!(VirtPageNum(0).indexes(), [0, 0, 0]);
    assert_eq!(VirtPageNum(0x7ff_ffff).indexes(), [511, 511, 511]);
    assert_eq!(VirtPageNum(512).indexes(), [0, 1, 0]);
    assert_eq!(VirtPageNum(511).indexes(), [0, 0, 511]);
    assert_eq!(VirtPageNum(262144).indexes(), [1, 0, 0]);
}

#[test]
fn conversion_from_a_number_keeps_the_low_bits() {
    assert_eq!(VirtAddr::from(0x1234), VirtAddr(0x1234));
    assert_eq!(VirtAddr::from((1u64 << 39) + 5), VirtAddr(5));
    assert_eq!(VirtAddr::from(u64::MAX), VirtAddr((1u64 << 39) - 1));
    assert_eq!(PhysAddr::from((1u64 << 56) + 9), PhysAddr(9));
    assert_eq!(VirtPageNum::from((1u64 << 27) + 3), VirtPageNum(3));
    assert_eq!(PhysPageNum::from((1u64 << 44) + 4), PhysPageNum(4));
    assert_eq!(PhysPageNum::from(0x80200), PhysPageNum(0x80200));
}

#[test]
fn start_addresses_and_steps() {
    assert_eq!(VirtPageNum(3).start_addr(), VirtAddr(0x3000));
    assert_eq!(PhysPageNum(0x80200).start_addr(), PhysAddr(0x8020_0000));
    assert_eq!(VirtPageNum(3).step(), VirtPageNum(4));
}
