use rcore_os::config::PAGE_SIZE;
use rcore_os::mm::address::{PhysAddr, PhysPageNum, VPNRange, VirtAddr, VirtPageNum};

#[test]
fn virt_addr_floor_ceil_offset() {
    let va = VirtAddr(0x1234);
    assert_eq!(va.floor(), VirtPageNum(1));
    assert_eq!(va.ceil(), VirtPageNum(2));
    assert_eq!(va.page_offset(), 0x234);
    assert!(!va.aligned());
    let aligned = VirtAddr(0x2000);
    assert_eq!(aligned.floor(), VirtPageNum(2));
    assert_eq!(aligned.ceil(), VirtPageNum(2));
    assert!(aligned.aligned());
    assert_eq!(VirtAddr(0).ceil(), VirtPageNum(0));
}

#[test]
fn phys_addr_floor_ceil_offset() {
    let pa = PhysAddr(0x8020_0fff);
    assert_eq!(pa.floor(), PhysPageNum(0x80200));
    assert_eq!(pa.ceil(), PhysPageNum(0x80201));
    assert_eq!(pa.page_offset(), 0xfff);
    assert!(!pa.aligned());
    assert!(PhysAddr(0x8020_0000).aligned());
    assert_eq!(PhysAddr(0).ceil(), PhysPageNum(0));
    assert_eq!(PhysAddr(1).ceil(), PhysPageNum(1));
}

#[test]
fn indexes_match_documented_example() {
    // The virtual address 0x012345678 splits into VPN[2] = 0, VPN[1] = 0x91
    // and VPN[0] = 0x145, root level first.
    let vpn = VirtAddr(0x0_1234_5678).floor();
    assert_eq!(vpn, VirtPageNum(0x12345));
    assert_eq!(vpn.indexes(), [0, 0x91, 0x145]);
    assert_eq!(VirtPageNum(0x7ff_ffff).indexes(), [511, 511, 511]);
}

#[test]
fn conversions_keep_address_bits() {
    assert_eq!(PhysAddr::from(0x8020_0000usize), PhysAddr(0x8020_0000));
    assert_eq!(PhysPageNum::from((1usize << 44) | 5), PhysPageNum(5));
    assert_eq!(PhysAddr::from(PhysPageNum(0x80200)), PhysAddr(0x8020_0000));
    assert_eq!(VirtAddr::from(VirtPageNum(3)), VirtAddr(0x3000));
    assert_eq!(VirtAddr::from(0x10_0000usize), VirtAddr(0x10_0000));
    assert_eq!(VirtAddr::from(usize::MAX - PAGE_SIZE + 1), VirtAddr(0x7f_ffff_f000));
    assert_eq!(PhysAddr::from(usize::MAX), PhysAddr(0xff_ffff_ffff_ffff));
}

#[test]
fn vpn_range_bounds() {
    let r = VPNRange::new(VirtPageNum(3), VirtPageNum(9));
    assert_eq!(r.get_start(), VirtPageNum(3));
    assert_eq!(r.get_end(), VirtPageNum(9));
}
