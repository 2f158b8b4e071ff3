use rcore_os::task::manager::TaskManager;
use rcore_os::task::id::RecycleAllocator;
use rcore_os::loader::{app_names, get_app_data, get_app_data_by_name};
use rcore_os::net::port_table::{listen, Port, PortFd};
use rcore_os::syscall::net::sys_listen;
use rcore_os::syscall::thread::{sys_thread_create, sys_wait_tid};

#[test]
fn wait_tid_outcomes() {
    // slot 0: the caller; 1: exited with 7; 2: running; 3: reaped
    let mut tasks = vec![Some(None), Some(Some(7)), Some(None), None];
    assert_eq!(sys_wait_tid(&mut tasks, 0, 0), -1);
    assert_eq!(sys_wait_tid(&mut tasks, 0, 3), -1);
    assert_eq!(sys_wait_tid(&mut tasks, 0, 2), -2);
    assert_eq!(sys_wait_tid(&mut tasks, 0, 1), 7);
    assert_eq!(tasks[1], None);
    assert_eq!(sys_wait_tid(&mut tasks, 0, 1), -1);
}

#[test]
fn thread_create_fills_its_slot() {
    let mut tids = RecycleAllocator::new();
    assert_eq!(tids.allocate(), 0);
    let mut tasks: Vec<Option<&str>> = vec![Some("main")];
    let mut ready = TaskManager::new();
    assert_eq!(sys_thread_create(&mut tasks, &mut ready, &mut tids, "t1"), 1);
    assert_eq!(tasks, vec![Some("main"), Some("t1")]);
    // ids 2 and 3 are handed out elsewhere
    assert_eq!(tids.allocate(), 2);
    assert_eq!(tids.allocate(), 3);
    assert_eq!(sys_thread_create(&mut tasks, &mut ready, &mut tids, "t4"), 4);
    assert_eq!(tasks, vec![Some("main"), Some("t1"), None, None, Some("t4")]);
    // a given-back id is taken again
    tids.dealloc(2);
    assert_eq!(sys_thread_create(&mut tasks, &mut ready, &mut tids, "t2"), 2);
    assert_eq!(tasks, vec![Some("main"), Some("t1"), Some("t2"), None, Some("t4")]);
    assert_eq!(ready.fetch(), Some("t1"));
    assert_eq!(ready.fetch(), Some("t4"));
    assert_eq!(ready.fetch(), Some("t2"));
    assert_eq!(ready.fetch(), None);
}

#[derive(Debug, PartialEq)]
enum FileKind {
    Console,
    Listener(usize),
}

impl From<PortFd> for FileKind {
    fn from(p: PortFd) -> FileKind {
        FileKind::Listener(p.0)
    }
}

#[test]
fn listen_gives_a_descriptor_for_the_port() {
    let mut ports: Vec<Option<Port<usize>>> = Vec::new();
    assert_eq!(listen(&mut ports, 80), Some(0));
    let mut fds = vec![Some(FileKind::Console), None, Some(FileKind::Console)];
    assert_eq!(sys_listen(&mut ports, &mut fds, 8080), 1);
    assert_eq!(ports[1].as_ref().map(|p| p.port), Some(8080));
    assert_eq!(fds[1], Some(FileKind::Listener(1)));
    assert_eq!(sys_listen(&mut ports, &mut fds, 22), 2);
    assert_eq!(fds[3], Some(FileKind::Listener(2)));
}

#[test]
fn application_names_and_data() {
    let blob = b"initproc\0user_shell\0hello\0";
    let names = app_names(blob, 3);
    assert_eq!(names, vec![b"initproc".to_vec(), b"user_shell".to_vec(), b"hello".to_vec()]);
    let starts = [0x8040_0000usize, 0x8040_3000, 0x8040_8000, 0x8040_9000];
    assert_eq!(get_app_data(&starts, 1), (0x8040_3000, 0x5000));
    assert_eq!(get_app_data_by_name(&names, &starts, b"hello"), Some((0x8040_8000, 0x1000)));
    assert_eq!(get_app_data_by_name(&names, &starts, b"initproc"), Some((0x8040_0000, 0x3000)));
    assert_eq!(get_app_data_by_name(&names, &starts, b"nope"), None);
    assert_eq!(app_names(b"", 0), Vec::<Vec<u8>>::new());
}
