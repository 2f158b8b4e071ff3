use std::collections::BTreeMap;
use rcore_os::config::{KERNEL_STACK_SIZE, PAGE_SIZE, TRAMPOLINE, TRAP_CONTEXT_BASE, USER_STACK_SIZE};
use rcore_os::mm::address::{PhysPageNum, VirtAddr, VirtPageNum};
use rcore_os::mm::frame_allocator::StackFrameAllocator;
use rcore_os::mm::memory_set::MemorySet;
use rcore_os::mm::phys_mem::PhysMemory;
use rcore_os::task::context::TaskContext;
use rcore_os::task::id::{kernel_stack_alloc, kernel_stack_position, pid_alloc, trap_cx_bottom_from_tid,
    user_stack_bottom_from_tid, KernelStack, RecycleAllocator};
use rcore_os::task::manager::{insert_into_pid2process, pid2process, remove_from_pid2process, TaskManager};
use rcore_os::task::pid;

#[test]
fn recycle_allocator_reuses_latest_freed_id() {
    let mut a = RecycleAllocator::new();
    assert_eq!(a.allocate(), 0);
    assert_eq!(a.allocate(), 1);
    assert_eq!(a.allocate(), 2);
    a.dealloc(0);
    a.dealloc(1);
    assert_eq!(a.allocate(), 1);
    assert_eq!(a.allocate(), 0);
    assert_eq!(a.allocate(), 3);
    assert_eq!(pid_alloc(&mut a).0, 4);
}

#[test]
fn pid_allocator_reuses_freed_pid() {
    let mut a = pid::PidAllocator::new();
    let p0 = a.allocate();
    let p1 = a.allocate();
    assert_eq!((p0.0, p1.0), (0, 1));
    a.dealloc(p0.0);
    assert_eq!(pid::pid_alloc(&mut a).0, 0);
    assert_eq!(a.allocate().0, 2);
}

#[test]
fn kernel_stacks_are_separated_by_guard_pages() {
    assert_eq!(kernel_stack_position(0), (TRAMPOLINE - KERNEL_STACK_SIZE, TRAMPOLINE));
    let (b1, t1) = kernel_stack_position(1);
    assert_eq!(t1, TRAMPOLINE - (KERNEL_STACK_SIZE + PAGE_SIZE));
    assert_eq!(b1, t1 - KERNEL_STACK_SIZE);
    assert_eq!(KernelStack(2).get_top(), TRAMPOLINE - 2 * (KERNEL_STACK_SIZE + PAGE_SIZE));
    assert_eq!(pid::kernel_stack_position(3).1, TRAMPOLINE - 3 * (KERNEL_STACK_SIZE + PAGE_SIZE));
}

#[test]
fn thread_resources_positions() {
    assert_eq!(trap_cx_bottom_from_tid(0), TRAP_CONTEXT_BASE);
    assert_eq!(trap_cx_bottom_from_tid(2), TRAP_CONTEXT_BASE - 2 * PAGE_SIZE);
    assert_eq!(user_stack_bottom_from_tid(0x1_0000, 2), 0x1_0000 + 2 * (PAGE_SIZE + USER_STACK_SIZE));
}

#[test]
fn kernel_stack_alloc_maps_stack_in_kernel_space() {
    let mut mem = PhysMemory::new(0x100, 16);
    let mut a = StackFrameAllocator::new();
    a.init(PhysPageNum(0x100), PhysPageNum(0x110));
    let mut ks = MemorySet::new_bare(&mut a, &mut mem);
    let mut ids = RecycleAllocator::new();
    let s0 = kernel_stack_alloc(&mut ids, &mut ks, &mut a, &mut mem);
    assert_eq!(s0.0, 0);
    let top = VirtAddr::from(TRAMPOLINE).floor().0;
    for v in top - 2..top {
        let e = ks.translate(&mem, VirtPageNum(v)).unwrap();
        assert!(e.is_valid() && e.readable() && e.writable() && !e.executable());
    }
    assert!(ks.translate(&mem, VirtPageNum(top)).map_or(true, |e| !e.is_valid()));
    assert!(ks.translate(&mem, VirtPageNum(top - 3)).map_or(true, |e| !e.is_valid()));
    let s1 = kernel_stack_alloc(&mut ids, &mut ks, &mut a, &mut mem);
    assert_eq!(s1.0, 1);
    assert!(ks.translate(&mem, VirtPageNum(top - 4)).unwrap().is_valid());
}

#[test]
fn task_context_initial_values() {
    let z = TaskContext::zero_init();
    assert_eq!((z.ra, z.sp, z.s), (0, 0, [0; 12]));
    let c = TaskContext::goto_trap_return(0x8020_1234, 0xffff_0000);
    assert_eq!((c.ra, c.sp, c.s), (0x8020_1234, 0xffff_0000, [0; 12]));
}

#[test]
fn ready_queue_is_first_in_first_out() {
    let mut m = TaskManager::new();
    assert_eq!(m.fetch(), None);
    m.add("a");
    m.add("b");
    assert_eq!(m.fetch(), Some("a"));
    m.add("c");
    assert_eq!(m.fetch(), Some("b"));
    assert_eq!(m.fetch(), Some("c"));
    assert_eq!(m.fetch(), None);
}

#[test]
fn pid_map_insert_find_remove() {
    let mut map: BTreeMap<usize, &str> = BTreeMap::new();
    assert_eq!(pid2process(&map, 1), None);
    insert_into_pid2process(&mut map, 1, "init");
    insert_into_pid2process(&mut map, 2, "shell");
    assert_eq!(pid2process(&map, 2), Some("shell"));
    remove_from_pid2process(&mut map, 2);
    assert_eq!(pid2process(&map, 2), None);
    assert_eq!(pid2process(&map, 1), Some("init"));
}
