use rcore_os::syscall::fs::{alloc_fd, sys_close, sys_dup, sys_pipe};
use rcore_os::syscall::process::{sys_waitpid, ChildStatus};
use rcore_os::syscall::{sys_call, syscall_supported, Syscall};

#[test]
fn syscall_numbers_decode() {
    assert_eq!(sys_call(57, [3, 0, 0]), Syscall::Close { fd: 3 });
    assert_eq!(sys_call(64, [1, 0x1000, 5]), Syscall::Write { fd: 1, buf: 0x1000, len: 5 });
    assert_eq!(sys_call(93, [usize::MAX, 0, 0]), Syscall::Exit { exit_code: -1 });
    assert_eq!(sys_call(260, [usize::MAX, 0x2000, 0]), Syscall::WaitPid { pid: -1, exit_code_ptr: 0x2000 });
    assert_eq!(sys_call(124, [0, 0, 0]), Syscall::Yield);
    assert_eq!(sys_call(1002, [4, 0, 0]), Syscall::WaitTid { tid: 4 });
    assert!(!syscall_supported(9999));
    assert!(syscall_supported(57) && syscall_supported(1002));
}

#[test]
fn fd_allocation_fills_lowest_hole() {
    let mut t: Vec<Option<&str>> = vec![Some("stdin"), None, Some("stdout")];
    assert_eq!(alloc_fd(&mut t), 1);
    assert_eq!(t.len(), 3);
    t[1] = Some("file");
    assert_eq!(alloc_fd(&mut t), 3);
    assert_eq!(t.len(), 4);
}

#[test]
fn close_and_dup() {
    let mut t: Vec<Option<&str>> = vec![Some("stdin"), Some("stdout"), Some("stderr")];
    assert_eq!(sys_close(&mut t, 7), -1);
    assert_eq!(sys_close(&mut t, 1), 0);
    assert_eq!(t[1], None);
    assert_eq!(sys_close(&mut t, 1), -1);
    assert_eq!(sys_dup(&mut t, 1), -1);
    assert_eq!(sys_dup(&mut t, 0), 1);
    assert_eq!(t[1], Some("stdin"));
    assert_eq!(sys_dup(&mut t, 2), 3);
    assert_eq!(t, vec![Some("stdin"), Some("stdin"), Some("stderr"), Some("stderr")]);
}

#[test]
fn waitpid_reaps_exited_child() {
    let mut c = vec![
        ChildStatus { pid: 3, is_zombie: false, exit_code: 0 },
        ChildStatus { pid: 4, is_zombie: true, exit_code: 7 },
        ChildStatus { pid: 5, is_zombie: true, exit_code: 9 },
    ];
    assert_eq!(sys_waitpid(&mut c, 9), (-1, None));
    assert_eq!(sys_waitpid(&mut c, 3), (-2, None));
    assert_eq!(sys_waitpid(&mut c, -1), (4, Some(7)));
    assert_eq!(c.len(), 2);
    assert_eq!(sys_waitpid(&mut c, 5), (5, Some(9)));
    assert_eq!(sys_waitpid(&mut c, -1), (-2, None));
    assert_eq!(c, vec![ChildStatus { pid: 3, is_zombie: false, exit_code: 0 }]);
}

#[test]
fn pipe_ends_take_the_two_lowest_free_descriptors() {
    let mut t = vec![Some("stdin"), None, Some("stderr")];
    assert_eq!(sys_pipe(&mut t, "r", "w"), (1, 3));
    assert_eq!(t, vec![Some("stdin"), Some("r"), Some("stderr"), Some("w")]);
    let mut full = vec![Some("a")];
    assert_eq!(sys_pipe(&mut full, "r", "w"), (1, 2));
    assert_eq!(full, vec![Some("a"), Some("r"), Some("w")]);
}
