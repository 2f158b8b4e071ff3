use rcore_os::config::{MEMORY_END, PAGE_SIZE, TRAMPOLINE};
use rcore_os::mm::address::{PhysPageNum, VirtAddr, VirtPageNum};
use rcore_os::mm::frame_allocator::StackFrameAllocator;
use rcore_os::mm::memory_set::{KernelLayout, MapArea, MapPermission, MapType, MemorySet};
use rcore_os::mm::page_table::PageTable;
use rcore_os::mm::phys_mem::PhysMemory;
use rcore_os::task::id::RecycleAllocator;
use rcore_os::task::process::fork;

fn setup(frames: usize) -> (StackFrameAllocator, PhysMemory) {
    let mem = PhysMemory::new(0x1000, frames);
    let mut a = StackFrameAllocator::new();
    a.init(PhysPageNum(0x1000), PhysPageNum(0x1000 + frames));
    (a, mem)
}

const URW: u8 = MapPermission::U | MapPermission::R | MapPermission::W;

#[test]
fn map_area_covers_pages_of_range() {
    let a = MapArea::new(VirtAddr(0x1234), VirtAddr(0x5001), MapType::Framed, MapPermission { bits: URW });
    let mut pt_alloc = StackFrameAllocator::new();
    pt_alloc.init(PhysPageNum(0x10), PhysPageNum(0x20));
    let mut mem = PhysMemory::new(0x10, 0x10);
    let mut pt = PageTable::new(&mut pt_alloc, &mut mem);
    let mut area = a;
    area.map(&mut pt, &mut pt_alloc, &mut mem);
    // pages 1 ..= 5 are mapped, page 0 and 6 are not
    for v in 1..6 {
        let e = pt.translate(&mem, VirtPageNum(v)).unwrap();
        assert!(e.is_valid() && e.readable() && e.writable());
    }
    assert!(!pt.translate(&mem, VirtPageNum(0)).unwrap().is_valid());
    assert!(!pt.translate(&mem, VirtPageNum(6)).unwrap().is_valid());
    // 2 tables + root + 5 frames taken
    assert_eq!(pt_alloc.free_frames(), 16 - 8);
    area.unmap(&mut pt, &mut pt_alloc, &mut mem);
    assert!(!pt.translate(&mem, VirtPageNum(3)).unwrap().is_valid());
    assert_eq!(pt_alloc.free_frames(), 16 - 3);
}

#[test]
fn identical_area_maps_same_page_number() {
    let (mut a, mut mem) = setup(8);
    let mut pt = PageTable::new(&mut a, &mut mem);
    let mut area = MapArea::new(VirtAddr(0x8020_0000), VirtAddr(0x8020_2000), MapType::Identical,
        MapPermission { bits: MapPermission::R | MapPermission::X });
    area.map(&mut pt, &mut a, &mut mem);
    let e = pt.translate(&mem, VirtPageNum(0x80201)).unwrap();
    assert_eq!(e.ppn(), PhysPageNum(0x80201));
    assert!(e.executable() && !e.writable());
}

#[test]
fn push_copies_data_page_by_page() {
    let (mut a, mut mem) = setup(16);
    let mut ms = MemorySet::new_bare(&mut a, &mut mem);
    let data: Vec<u8> = (0..5000u32).map(|i| (i % 251) as u8).collect();
    let area = MapArea::new(VirtAddr(0x10000), VirtAddr(0x12000), MapType::Framed, MapPermission { bits: URW });
    ms.push(area, Some(&data), &mut a, &mut mem);
    let p0 = ms.translate(&mem, VirtPageNum(0x10)).unwrap().ppn();
    let p1 = ms.translate(&mem, VirtPageNum(0x11)).unwrap().ppn();
    assert_ne!(p0, p1);
    let page0 = mem.read_page(p0.0);
    let page1 = mem.read_page(p1.0);
    assert_eq!(page0[..], data[..PAGE_SIZE]);
    assert_eq!(page1[..5000 - PAGE_SIZE], data[PAGE_SIZE..]);
    assert!(page1[5000 - PAGE_SIZE..].iter().all(|b| *b == 0));
}

#[test]
fn insert_framed_area_maps_zeroed_user_pages() {
    let (mut a, mut mem) = setup(16);
    let mut ms = MemorySet::new_bare(&mut a, &mut mem);
    ms.insert_framed_area(VirtAddr(0x1000), VirtAddr(0x3000), MapPermission { bits: URW }, &mut a, &mut mem);
    for v in 1..3 {
        let e = ms.translate(&mem, VirtPageNum(v)).unwrap();
        assert_eq!(e.flags().bits, URW | 1);
        assert!(mem.read_page(e.ppn().0).iter().all(|b| *b == 0));
    }
    assert!(ms.translate(&mem, VirtPageNum(3)).map_or(true, |e| !e.is_valid()));
}

#[test]
fn append_to_extends_area_and_shrink_to_keeps_it() {
    let (mut a, mut mem) = setup(16);
    let mut ms = MemorySet::new_bare(&mut a, &mut mem);
    ms.insert_framed_area(VirtAddr(0x1000), VirtAddr(0x2000), MapPermission { bits: URW }, &mut a, &mut mem);
    assert!(ms.append_to(VirtAddr(0x1000), VirtAddr(0x4000), &mut a, &mut mem));
    for v in 1..4 {
        assert!(ms.translate(&mem, VirtPageNum(v)).unwrap().is_valid());
    }
    assert!(!ms.append_to(VirtAddr(0x9000), VirtAddr(0xa000), &mut a, &mut mem));
    // shrinking to the current end maps nothing new and finds the area
    assert!(ms.shrink_to(VirtAddr(0x1000), VirtAddr(0x4000), &mut a, &mut mem));
    assert!(!ms.shrink_to(VirtAddr(0x5000), VirtAddr(0x6000), &mut a, &mut mem));
}

fn kernel_layout() -> KernelLayout {
    KernelLayout {
        stext: 0x8020_0000,
        etext: 0x8020_2000,
        srodata: 0x8020_2000,
        erodata: 0x8020_3000,
        sdata: 0x8020_3000,
        edata: 0x8020_4000,
        sbss_with_stack: 0x8020_4000,
        ebss: 0x8020_6000,
        ekernel: 0x8020_6000,
        strampoline: 0x8020_1000,
    }
}

#[test]
fn kernel_space_remap_test() {
    let (mut a, mut mem) = setup(256);
    let l = kernel_layout();
    let ks = MemorySet::new_kernel(l, &mut a, &mut mem);
    let mid_text = VirtAddr((l.stext + l.etext) / 2).floor();
    let mid_rodata = VirtAddr((l.srodata + l.erodata) / 2).floor();
    let mid_data = VirtAddr((l.sdata + l.edata) / 2).floor();
    assert!(!ks.translate(&mem, mid_text).unwrap().writable());
    assert!(!ks.translate(&mem, mid_rodata).unwrap().writable());
    assert!(!ks.translate(&mem, mid_data).unwrap().executable());
    // identity mapping of the rest of memory and of the devices
    let last = VirtAddr(MEMORY_END - 1).floor();
    assert_eq!(ks.translate(&mem, last).unwrap().ppn(), PhysPageNum(last.0));
    assert_eq!(ks.translate(&mem, VirtPageNum(0x10001)).unwrap().ppn(), PhysPageNum(0x10001));
    // the trampoline at the top maps the trampoline code
    let t = ks.translate(&mem, VirtAddr::from(TRAMPOLINE).floor()).unwrap();
    assert_eq!(t.ppn(), PhysPageNum(0x80201));
    assert!(t.executable() && !t.writable());
    // a page between the devices and the kernel is not mapped
    assert!(ks.translate(&mem, VirtPageNum(0x20000)).map_or(true, |e| !e.is_valid()));
}

fn tiny_elf() -> Vec<u8> {
    let mut e: Vec<u8> = Vec::new();
    e.extend_from_slice(&[0x7f, b'E', b'L', b'F', 2, 1, 1, 0, 0, 0, 0, 0, 0, 0, 0, 0]);
    e.extend_from_slice(&2u16.to_le_bytes()); // type: executable
    e.extend_from_slice(&0xf3u16.to_le_bytes()); // machine: RISC-V
    e.extend_from_slice(&1u32.to_le_bytes()); // version
    e.extend_from_slice(&0x10000u64.to_le_bytes()); // entry
    e.extend_from_slice(&64u64.to_le_bytes()); // program header offset
    e.extend_from_slice(&0u64.to_le_bytes()); // section header offset
    e.extend_from_slice(&0u32.to_le_bytes()); // flags
    e.extend_from_slice(&64u16.to_le_bytes()); // header size
    e.extend_from_slice(&56u16.to_le_bytes()); // program header size
    e.extend_from_slice(&1u16.to_le_bytes()); // program header count
    e.extend_from_slice(&0u16.to_le_bytes());
    e.extend_from_slice(&0u16.to_le_bytes());
    e.extend_from_slice(&0u16.to_le_bytes());
    assert_eq!(e.len(), 64);
    e.extend_from_slice(&1u32.to_le_bytes()); // load
    e.extend_from_slice(&5u32.to_le_bytes()); // read and execute
    e.extend_from_slice(&120u64.to_le_bytes()); // offset
    e.extend_from_slice(&0x10000u64.to_le_bytes()); // virtual address
    e.extend_from_slice(&0x10000u64.to_le_bytes()); // physical address
    e.extend_from_slice(&8u64.to_le_bytes()); // file size
    e.extend_from_slice(&0x1000u64.to_le_bytes()); // memory size
    e.extend_from_slice(&0x1000u64.to_le_bytes()); // align
    assert_eq!(e.len(), 120);
    e.extend_from_slice(&[0x13, 0, 0, 0, 0x6f, 0, 0, 0]);
    e
}

#[test]
fn from_elf_loads_segment_stack_and_trap_context() {
    let (mut a, mut mem) = setup(32);
    let elf = tiny_elf();
    let (ms, sp, entry) = MemorySet::from_elf(&elf, 0x8020_1000, &mut a, &mut mem).unwrap();
    assert_eq!(entry, 0x10000);
    // one guard page above the segment's end page, then 8 KiB of stack
    assert_eq!(sp, 0x14000);
    let code = ms.translate(&mem, VirtPageNum(0x10)).unwrap();
    assert_eq!(code.flags().bits, 16 | 2 | 8 | 1);
    let page = mem.read_page(code.ppn().0);
    assert_eq!(page[..8], [0x13, 0, 0, 0, 0x6f, 0, 0, 0]);
    assert!(page[8..].iter().all(|b| *b == 0));
    assert!(ms.translate(&mem, VirtPageNum(0x11)).map_or(true, |e| !e.is_valid()));
    for v in 0x12..0x14 {
        assert_eq!(ms.translate(&mem, VirtPageNum(v)).unwrap().flags().bits, 16 | 2 | 4 | 1);
    }
    let trap = ms.translate(&mem, VirtPageNum(0x7ff_fffe)).unwrap();
    assert_eq!(trap.flags().bits, 2 | 4 | 1);
    let t = ms.translate(&mem, VirtPageNum(0x7ff_ffff)).unwrap();
    assert_eq!(t.ppn(), PhysPageNum(0x80201));
}

#[test]
fn from_elf_rejects_unknown_segment_type() {
    let (mut a, mut mem) = setup(32);
    let mut elf = tiny_elf();
    elf[64..68].copy_from_slice(&0x1234_5678u32.to_le_bytes());
    assert!(MemorySet::from_elf(&elf, 0x8020_1000, &mut a, &mut mem).is_none());
}

#[test]
fn from_elf_rejects_segment_outside_file() {
    let (mut a, mut mem) = setup(32);
    let mut elf = tiny_elf();
    // file size 0x100 reaches past the end of the file
    elf[64 + 32..64 + 40].copy_from_slice(&0x100u64.to_le_bytes());
    assert!(MemorySet::from_elf(&elf, 0x8020_1000, &mut a, &mut mem).is_none());
}

#[test]
fn from_elf_rejects_when_frames_run_short() {
    let (mut a, mut mem) = setup(8);
    let elf = tiny_elf();
    assert!(MemorySet::from_elf(&elf, 0x8020_1000, &mut a, &mut mem).is_none());
}

#[test]
fn token_selects_sv39_and_root() {
    let (mut a, mut mem) = setup(4);
    let ms = MemorySet::new_bare(&mut a, &mut mem);
    assert_eq!(ms.token(), (8usize << 60) | 0x1000);
}

#[test]
fn from_elf_checked_rejects_unreadable_headers() {
    let (mut a, mut mem) = setup(32);
    let mut elf = tiny_elf();
    elf[1] = b'X';
    assert!(MemorySet::from_elf_checked(&elf, 0x8020_1000, &mut a, &mut mem).is_none());
    let (mut a, mut mem) = setup(32);
    let elf = tiny_elf();
    assert!(MemorySet::from_elf_checked(&elf[..40], 0x8020_1000, &mut a, &mut mem).is_none());
    // a program header table at an offset that is no multiple of 8
    let (mut a, mut mem) = setup(32);
    let mut elf = tiny_elf();
    elf[32..40].copy_from_slice(&60u64.to_le_bytes());
    assert!(MemorySet::from_elf_checked(&elf, 0x8020_1000, &mut a, &mut mem).is_none());
    let (mut a, mut mem) = setup(32);
    let elf = tiny_elf();
    let (_, sp, entry) = MemorySet::from_elf_checked(&elf, 0x8020_1000, &mut a, &mut mem).unwrap();
    assert_eq!((sp, entry), (0x14000, 0x10000));
}

#[test]
fn from_elf_reads_a_file_at_any_address() {
    for shift in 1..8 {
        let (mut a, mut mem) = setup(32);
        let mut bytes = vec![0u8; shift];
        bytes.extend_from_slice(&tiny_elf());
        let (_, sp, entry) = MemorySet::from_elf(&bytes[shift..], 0x8020_1000, &mut a, &mut mem).unwrap();
        assert_eq!((sp, entry), (0x14000, 0x10000));
    }
}

#[test]
fn fork_copies_the_address_space_and_clones_the_files() {
    let (mut a, mut mem) = setup(64);
    let mut parent = MemorySet::new_bare(&mut a, &mut mem);
    let data: Vec<u8> = (0..6000u32).map(|i| (i % 253) as u8).collect();
    let area = MapArea::new(VirtAddr(0x10000), VirtAddr(0x12000), MapType::Framed, MapPermission { bits: URW });
    parent.push(area, Some(&data), &mut a, &mut mem);
    parent.insert_framed_area(VirtAddr(0x20000), VirtAddr(0x21000), MapPermission { bits: URW }, &mut a, &mut mem);
    let mut pids = RecycleAllocator::new();
    assert_eq!(pids.allocate(), 0);
    let mut children = vec![9usize];
    let files = vec![Some("stdin"), None, Some("log")];
    let child = fork(0, &parent, &files, 0x5000, &mut pids, &mut children, 0x8020_0000, &mut a, &mut mem);
    assert_eq!(child.pid, 1);
    assert_eq!(child.parent, 0);
    assert!(!child.is_zombie);
    assert_eq!(child.exit_code, 0);
    assert!(child.children.is_empty());
    assert_eq!(children, vec![9, 1]);
    assert_eq!(child.fd_table, files);
    assert_eq!(child.main_res.tid, 0);
    assert_eq!(child.main_res.user_stack_base, 0x5000);
    for v in [0x10usize, 0x11, 0x20] {
        let pp = parent.translate(&mem, VirtPageNum(v)).unwrap().ppn();
        let cp = child.memory_set.translate(&mem, VirtPageNum(v)).unwrap().ppn();
        assert_ne!(pp, cp);
        assert_eq!(mem.read_page(pp.0), mem.read_page(cp.0));
    }
    let cp = child.memory_set.translate(&mem, VirtPageNum(0x11)).unwrap().ppn();
    assert_eq!(mem.read_page(cp.0)[..6000 - PAGE_SIZE], data[PAGE_SIZE..]);
    let t = child.memory_set.translate(&mem, VirtAddr::from(TRAMPOLINE).floor()).unwrap();
    assert_eq!(t.ppn(), PhysPageNum(0x80200));
    assert!(t.executable() && !t.writable());
    // the parent's frames are left as they were
    let pp = parent.translate(&mem, VirtPageNum(0x10)).unwrap().ppn();
    assert_eq!(mem.read_page(pp.0)[..PAGE_SIZE], data[..PAGE_SIZE]);
}
