use rcore_os::mm::address::PhysPageNum;
use rcore_os::mm::frame_allocator::{frame_alloc, frame_dealloc, FrameTracker, StackFrameAllocator};
use rcore_os::mm::phys_mem::PhysMemory;

#[test]
fn frames_come_in_order_then_run_out() {
    let mut a = StackFrameAllocator::new();
    a.init(PhysPageNum(10), PhysPageNum(13));
    assert_eq!(a.free_frames(), 3);
    assert_eq!(a.allocate(), Some(PhysPageNum(10)));
    assert_eq!(a.allocate(), Some(PhysPageNum(11)));
    assert_eq!(a.allocate(), Some(PhysPageNum(12)));
    assert_eq!(a.allocate(), None);
    assert_eq!(a.free_frames(), 0);
}

#[test]
fn freed_frame_is_handed_out_next() {
    let mut a = StackFrameAllocator::new();
    a.init(PhysPageNum(10), PhysPageNum(20));
    let f0 = a.allocate().unwrap();
    let f1 = a.allocate().unwrap();
    let _f2 = a.allocate().unwrap();
    a.dealloc(f0);
    a.dealloc(f1);
    assert_eq!(a.free_frames(), 9);
    assert_eq!(a.allocate(), Some(f1));
    assert_eq!(a.allocate(), Some(f0));
    assert_eq!(a.allocate(), Some(PhysPageNum(13)));
}

#[test]
fn frame_alloc_clears_the_frame() {
    let mut mem = PhysMemory::new(100, 4);
    let mut a = StackFrameAllocator::new();
    a.init(PhysPageNum(100), PhysPageNum(104));
    mem.write_bytes(100, 0, &[1, 2, 3]);
    assert_eq!(mem.read_page(100)[..3], [1, 2, 3]);
    let f = frame_alloc(&mut a, &mut mem).unwrap();
    assert_eq!(f.ppn, PhysPageNum(100));
    assert!(mem.read_page(100).iter().all(|b| *b == 0));
    frame_dealloc(&mut a, f.ppn);
    assert_eq!(frame_alloc(&mut a, &mut mem).unwrap().ppn, PhysPageNum(100));
}

#[test]
fn frame_tracker_zeroes_its_page() {
    let mut mem = PhysMemory::new(7, 2);
    mem.write_word(8, 3, 0xdead_beef);
    assert_eq!(mem.read_word(8, 3), 0xdead_beef);
    let t = FrameTracker::new(PhysPageNum(8), &mut mem);
    assert_eq!(t.ppn, PhysPageNum(8));
    assert_eq!(mem.read_word(8, 3), 0);
}

#[test]
fn physical_memory_words_are_little_endian() {
    let mut mem = PhysMemory::new(0, 1);
    mem.write_word(0, 1, 0x0102_0304_0506_0708);
    let page = mem.read_page(0);
    assert_eq!(page[8..16], [8, 7, 6, 5, 4, 3, 2, 1]);
    assert_eq!(mem.read_word(0, 0), 0);
}
