use rcore_os::config::{PAGE_SIZE, TRAP_CONTEXT_BASE, USER_STACK_SIZE};
use rcore_os::mm::address::{PhysPageNum, VirtAddr, VirtPageNum};
use rcore_os::mm::frame_allocator::StackFrameAllocator;
use rcore_os::mm::memory_set::MemorySet;
use rcore_os::mm::phys_mem::PhysMemory;
use rcore_os::sync::condvar::CondVar;
use rcore_os::sync::mutex::{Mutex, MutexBlocking, MutexSpin};
use rcore_os::task::exit::{adopt_children, exit_outcome, release_process_tables, ExitOutcome, ProcessExitState, IDLE_PID};
use std::collections::BTreeMap;
use rcore_os::task::id::{RecycleAllocator, TaskUserResource};
use rcore_os::task::manager::TaskManager;
use rcore_os::task::process::{clone_fd_table, exec_arg_layout, initial_fd_table, register_child, register_process};
use rcore_os::task::processor::Processor;

#[test]
fn blocking_mutex_hands_over_in_order() {
    let mut m = MutexBlocking::new();
    assert!(!m.lock(1usize));
    assert!(m.lock(2));
    assert!(m.lock(3));
    assert_eq!(m.unlock(), Some(2));
    assert_eq!(m.unlock(), Some(3));
    assert_eq!(m.unlock(), None);
    // free again: the next thread gets it at once
    assert!(!m.lock(4));
}

#[test]
fn spin_mutex_makes_later_threads_retry() {
    let mut m = MutexSpin::new();
    assert!(!Mutex::<usize>::lock(&mut m, 1));
    assert!(Mutex::<usize>::lock(&mut m, 2));
    assert_eq!(Mutex::<usize>::unlock(&mut m), None);
    assert!(!Mutex::<usize>::lock(&mut m, 2));
}

#[test]
fn condvar_wakes_waiters_in_order_and_releases_the_mutex() {
    let mut c = CondVar::new();
    let mut m = MutexBlocking::new();
    assert!(!m.lock(1usize));
    assert!(m.lock(2));
    // thread 1 waits: the mutex goes to thread 2
    assert_eq!(c.wait(&mut m, 1), Some(2));
    c.wait_no_sched(5);
    assert_eq!(c.wait_with_mutex(&mut m, 2), None);
    assert_eq!(c.signal(), Some(1));
    assert_eq!(c.signal(), Some(5));
    assert_eq!(c.signal(), Some(2));
    assert_eq!(c.signal(), None);
}

#[test]
fn ready_queue_remove_takes_first_equal_thread() {
    let mut q = TaskManager::new();
    for t in [3usize, 5, 3, 7] {
        q.add(t);
    }
    q.remove(&3);
    q.remove(&9);
    assert_eq!(q.fetch(), Some(5));
    assert_eq!(q.fetch(), Some(3));
    assert_eq!(q.fetch(), Some(7));
    assert_eq!(q.fetch(), None);
}

#[test]
fn processor_runs_threads_round_robin() {
    let mut p = Processor::new();
    let mut q = TaskManager::new();
    assert!(!p.run_next(&mut q));
    assert_eq!(p.current(), None::<&str>);
    q.add("a");
    q.add("b");
    assert!(p.run_next(&mut q));
    assert_eq!(p.current(), Some("a"));
    p.suspend_current(&mut q);
    assert_eq!(p.current(), None);
    assert!(p.run_next(&mut q));
    assert_eq!(p.current(), Some("b"));
    assert_eq!(p.take_current(), Some("b"));
    assert!(p.run_next(&mut q));
    assert_eq!(p.current(), Some("a"));
    assert!(!p.run_next(&mut q));
}

#[test]
fn exit_outcomes() {
    assert_eq!(exit_outcome(1, 5, 3), ExitOutcome::ThreadExit);
    assert_eq!(exit_outcome(0, 5, 3), ExitOutcome::ProcessExit);
    assert_eq!(exit_outcome(0, IDLE_PID, 0), ExitOutcome::Shutdown { failure: false });
    assert_eq!(exit_outcome(0, IDLE_PID, -1), ExitOutcome::Shutdown { failure: true });
}

#[test]
fn exiting_process_gives_children_to_initproc() {
    let mut children = vec![4, 5];
    let mut init_children = vec![1, 2];
    adopt_children(&mut children, &mut init_children);
    assert_eq!(init_children, vec![1, 2, 4, 5]);
    assert!(children.is_empty());
    let mut tasks = vec![Some("main"), None, Some("t2")];
    let mut fds = vec![Some(0), Some(1)];
    release_process_tables(&mut tasks, &mut fds);
    assert_eq!(tasks, vec![Some("main")]);
    assert!(fds.is_empty());
}

#[test]
fn fork_clones_descriptor_table() {
    let table = vec![Some(String::from("stdin")), None, Some(String::from("file"))];
    let child = clone_fd_table(&table);
    assert_eq!(child, table);
}

#[test]
fn exec_places_arguments_below_stack_top() {
    // "ls" and "-l": argv (3 pointers) right below the top, then "ls\0", then "-l\0"
    let top = 0x1_0000;
    let layout = exec_arg_layout(top, &vec![2, 2]);
    assert_eq!(layout.argv_base, top - 24);
    assert_eq!(layout.arg_ptrs, vec![top - 24 - 3, top - 24 - 6]);
    assert_eq!(layout.user_sp, (top - 30) / 8 * 8);
    let empty = exec_arg_layout(top, &vec![]);
    assert_eq!((empty.argv_base, empty.user_sp), (top - 8, top - 8));
}

#[test]
fn thread_resources_place_stack_and_trap_context() {
    let mut mem = PhysMemory::new(0x100, 32);
    let mut a = StackFrameAllocator::new();
    a.init(PhysPageNum(0x100), PhysPageNum(0x120));
    let mut space = MemorySet::new_bare(&mut a, &mut mem);
    let mut tids = RecycleAllocator::new();
    let base = 0x10_0000;
    let r0 = TaskUserResource::new(&mut tids, base);
    let mut r1 = TaskUserResource::new(&mut tids, base);
    assert_eq!((r0.tid, r1.tid), (0, 1));
    assert_eq!(r1.user_stack_base(), base);
    assert_eq!(r1.user_stack_top(), base + (PAGE_SIZE + USER_STACK_SIZE) + USER_STACK_SIZE);
    assert_eq!(r1.trap_cx_user_va(), TRAP_CONTEXT_BASE - PAGE_SIZE);
    r1.alloc_user_res(&mut space, &mut a, &mut mem);
    let stack_lo = VirtAddr::from(base + PAGE_SIZE + USER_STACK_SIZE).floor().0;
    for v in stack_lo..stack_lo + USER_STACK_SIZE / PAGE_SIZE {
        let e = space.translate(&mem, VirtPageNum(v)).unwrap();
        assert!(e.is_valid() && e.readable() && e.writable() && !e.executable());
    }
    assert!(space.translate(&mem, VirtPageNum(stack_lo - 1)).map_or(true, |e| !e.is_valid()));
    let trap_vpn = VirtAddr::from(r1.trap_cx_user_va()).floor().0;
    let e = space.translate(&mem, VirtPageNum(trap_vpn)).unwrap();
    assert!(e.is_valid() && e.readable() && e.writable());
    assert_eq!(r1.trap_cx_ppn(&space, &mem), e.ppn());
    r1.dealloc_tid(&mut tids);
    r1.alloc_tid(&mut tids);
    assert_eq!(r1.tid, 1);
    assert_eq!(r0.tid, 0);
}

#[test]
fn exiting_process_becomes_zombie_and_leaves_the_ready_queue() {
    let mut p = ProcessExitState {
        is_zombie: false,
        exit_code: 0,
        children: vec![7usize, 8],
        tasks: vec![Some(10usize), None, Some(12)],
        fd_table: vec![Some(0u8), None],
    };
    let mut pids = BTreeMap::new();
    pids.insert(3usize, "p3");
    pids.insert(4usize, "p4");
    let mut init_children = vec![5usize];
    let mut parent_of = BTreeMap::new();
    parent_of.insert(5usize, 0usize);
    parent_of.insert(7usize, 3usize);
    parent_of.insert(8usize, 3usize);
    parent_of.insert(9usize, 4usize);
    let mut ready = TaskManager::new();
    for t in [12usize, 20, 10] {
        ready.add(t);
    }
    p.exit_process(3, -5, &mut pids, &mut parent_of, &mut init_children, &mut ready);
    assert!(p.is_zombie);
    assert_eq!(p.exit_code, -5);
    assert_eq!(init_children, vec![5, 7, 8]);
    assert_eq!(parent_of.get(&7), Some(&0));
    assert_eq!(parent_of.get(&8), Some(&0));
    assert_eq!(parent_of.get(&9), Some(&4));
    assert_eq!(parent_of.len(), 4);
    assert!(p.children.is_empty());
    assert_eq!(p.tasks, vec![Some(10)]);
    assert!(p.fd_table.is_empty());
    assert_eq!(pids.len(), 1);
    assert!(pids.get(&3).is_none());
    assert_eq!(ready.fetch(), Some(20));
    assert_eq!(ready.fetch(), None);
}

#[test]
fn new_and_forked_processes_are_registered() {
    assert_eq!(initial_fd_table("stdin", "stdout"), vec![Some("stdin"), Some("stdout"), Some("stdout")]);
    let mut pids = BTreeMap::new();
    let mut ready = TaskManager::new();
    register_process(&mut pids, &mut ready, 0, "initproc", "t0");
    let mut children = vec!["older"];
    register_child(&mut children, &mut pids, &mut ready, 1, "child", "t1");
    assert_eq!(children, vec!["older", "child"]);
    assert_eq!(pids.get(&0), Some(&"initproc"));
    assert_eq!(pids.get(&1), Some(&"child"));
    assert_eq!(ready.fetch(), Some("t0"));
    assert_eq!(ready.fetch(), Some("t1"));
}
