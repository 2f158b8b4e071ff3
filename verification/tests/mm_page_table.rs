use rcore_os::mm::address::{PhysPageNum, VirtPageNum};
use rcore_os::mm::frame_allocator::StackFrameAllocator;
use rcore_os::mm::page_table::{PTEFlags, PageTable, PageTableEntry};
use rcore_os::mm::phys_mem::PhysMemory;

fn setup(frames: usize) -> (StackFrameAllocator, PhysMemory) {
    let mem = PhysMemory::new(100, frames);
    let mut a = StackFrameAllocator::new();
    a.init(PhysPageNum(100), PhysPageNum(100 + frames));
    (a, mem)
}

#[test]
fn entry_fields() {
    let e = PageTableEntry::new(PhysPageNum(0x80200), PTEFlags { bits: PTEFlags::V | PTEFlags::R | PTEFlags::X });
    assert_eq!(e.bits, (0x80200 << 10) | 0b1011);
    assert_eq!(e.ppn(), PhysPageNum(0x80200));
    assert_eq!(e.flags(), PTEFlags { bits: 0b1011 });
    assert!(e.is_valid() && e.readable() && e.executable());
    assert!(!e.writable());
    let z = PageTableEntry::empty();
    assert!(!z.is_valid());
    assert_eq!(z.ppn(), PhysPageNum(0));
}

#[test]
fn flags_operations() {
    let rw = PTEFlags { bits: PTEFlags::R }.union(PTEFlags { bits: PTEFlags::W });
    assert_eq!(rw.bits, 6);
    assert!(rw.intersects(PTEFlags::W));
    assert!(!rw.intersects(PTEFlags::X));
    assert_eq!(PTEFlags::empty().bits, 0);
    assert_eq!(PTEFlags::from_bits(0xff), Some(PTEFlags { bits: 0xff }));
}

#[test]
fn map_then_translate_finds_frame() {
    let (mut a, mut mem) = setup(8);
    let mut pt = PageTable::new(&mut a, &mut mem);
    assert_eq!(pt.token(), (8usize << 60) | 100);
    let vpn = VirtPageNum(0x12345);
    assert!(pt.translate(&mem, vpn).is_none());
    pt.map(&mut a, &mut mem, vpn, PhysPageNum(0x200), PTEFlags { bits: PTEFlags::R | PTEFlags::W });
    // the root, a middle table and a leaf table
    assert_eq!(a.free_frames(), 5);
    let e = pt.translate(&mem, vpn).unwrap();
    assert!(e.is_valid() && e.readable() && e.writable() && !e.executable());
    assert_eq!(e.ppn(), PhysPageNum(0x200));
    assert_eq!(e.flags().bits, 0b111);
    // a neighbour in the same leaf table is reachable but not mapped
    let n = pt.translate(&mem, VirtPageNum(0x12346)).unwrap();
    assert!(!n.is_valid());
    // a page under another root entry needs no table yet
    assert!(pt.translate(&mem, VirtPageNum(0x12345 + (1 << 18))).is_none());
}

#[test]
fn second_map_in_same_leaf_table_takes_no_frame() {
    let (mut a, mut mem) = setup(8);
    let mut pt = PageTable::new(&mut a, &mut mem);
    pt.map(&mut a, &mut mem, VirtPageNum(0x400), PhysPageNum(1), PTEFlags { bits: PTEFlags::R });
    let left = a.free_frames();
    pt.map(&mut a, &mut mem, VirtPageNum(0x401), PhysPageNum(2), PTEFlags { bits: PTEFlags::R });
    assert_eq!(a.free_frames(), left);
    pt.map(&mut a, &mut mem, VirtPageNum(0x600), PhysPageNum(3), PTEFlags { bits: PTEFlags::R });
    assert_eq!(a.free_frames(), left - 1);
    assert_eq!(pt.translate(&mem, VirtPageNum(0x401)).unwrap().ppn(), PhysPageNum(2));
    assert_eq!(pt.translate(&mem, VirtPageNum(0x600)).unwrap().ppn(), PhysPageNum(3));
}

#[test]
fn unmap_undoes_map() {
    let (mut a, mut mem) = setup(8);
    let mut pt = PageTable::new(&mut a, &mut mem);
    pt.map(&mut a, &mut mem, VirtPageNum(7), PhysPageNum(0x99), PTEFlags { bits: PTEFlags::R | PTEFlags::U });
    pt.map(&mut a, &mut mem, VirtPageNum(8), PhysPageNum(0x98), PTEFlags { bits: PTEFlags::R });
    pt.unmap(&mut mem, VirtPageNum(7));
    assert!(!pt.translate(&mem, VirtPageNum(7)).unwrap().is_valid());
    assert_eq!(pt.translate(&mem, VirtPageNum(8)).unwrap().ppn(), PhysPageNum(0x98));
    // the page can be mapped again
    pt.map(&mut a, &mut mem, VirtPageNum(7), PhysPageNum(0x97), PTEFlags { bits: PTEFlags::W });
    assert_eq!(pt.translate(&mem, VirtPageNum(7)).unwrap().ppn(), PhysPageNum(0x97));
}

#[test]
fn from_token_reads_root() {
    let (mut a, mut mem) = setup(4);
    let mut pt = PageTable::new(&mut a, &mut mem);
    pt.map(&mut a, &mut mem, VirtPageNum(5), PhysPageNum(0x55), PTEFlags { bits: PTEFlags::R });
    let other = PageTable::from_token(pt.token());
    assert_eq!(other.token(), pt.token());
    assert_eq!(other.translate(&mem, VirtPageNum(5)).unwrap().ppn(), PhysPageNum(0x55));
}
