//! System calls: decoding a call from its number and arguments, and the
//! decisions that the file and process calls take over a process's state.
use vstd::prelude::*;

pub mod fs;
pub mod process;
pub mod thread;
pub mod net;

verus! {

/// Call number of `dup`.
pub const SYSCALL_DUP: usize = 24;
/// Call number of `open`.
pub const SYSCALL_OPEN: usize = 56;
/// Call number of `close`.
pub const SYSCALL_CLOSE: usize = 57;
/// Call number of `pipe`.
pub const SYSCALL_PIPE: usize = 59;
/// Call number of `read`.
pub const SYSCALL_READ: usize = 63;
/// Call number of `write`.
pub const SYSCALL_WRITE: usize = 64;
/// Call number of `exit`.
pub const SYSCALL_EXIT: usize = 93;
/// Call number of `sleep`.
pub const SYSCALL_SLEEP: usize = 101;
/// Call number of `yield`.
pub const SYSCALL_YIELD: usize = 124;
/// Call number of `kill`.
pub const SYSCALL_KILL: usize = 129;
/// Call number of `get_time`.
pub const SYSCALL_GET_TIME: usize = 169;
/// Call number of `getpid`.
pub const SYSCALL_GETPID: usize = 172;
/// Call number of `fork`.
pub const SYSCALL_FORK: usize = 220;
/// Call number of `exec`.
pub const SYSCALL_EXEC: usize = 221;
/// Call number of `waitpid`.
pub const SYSCALL_WAITPID: usize = 260;
/// Call number of `thread_create`.
pub const SYSCALL_THREAD_CREATE: usize = 1000;
/// Call number of `gettid`.
pub const SYSCALL_GET_TID: usize = 1001;
/// Call number of `waittid`.
pub const SYSCALL_WAIT_TID: usize = 1002;

/// A decoded system call with its arguments; addresses are user addresses.
#[derive(Copy, Clone, Debug, PartialEq, Eq, Structural)]
pub enum Syscall {
    Dup { fd: usize },
    Open { path: usize, flags: u32 },
    Close { fd: usize },
    Pipe { pipe: usize },
    Read { fd: usize, buf: usize, len: usize },
    Write { fd: usize, buf: usize, len: usize },
    Exit { exit_code: i32 },
    Sleep { ms: usize },
    Yield,
    Kill { pid: usize, signum: i32 },
    GetTime,
    GetPid,
    Fork,
    Exec { path: usize, args: usize },
    WaitPid { pid: isize, exit_code_ptr: usize },
    ThreadCreate { entry: usize, arg: usize },
    GetTid,
    WaitTid { tid: usize },
}

/// The call that number `id` with arguments `args` stands for, or `None`
/// for an unsupported number.
pub open spec fn decode_spec(id: usize, args: [usize; 3]) -> Option<Syscall> {
    let a = args@;
    if id == SYSCALL_DUP {
        Some(Syscall::Dup { fd: a[0] })
    } else if id == SYSCALL_OPEN {
        Some(Syscall::Open { path: a[0], flags: a[1] as u32 })
    } else if id == SYSCALL_CLOSE {
        Some(Syscall::Close { fd: a[0] })
    } else if id == SYSCALL_PIPE {
        Some(Syscall::Pipe { pipe: a[0] })
    } else if id == SYSCALL_READ {
        Some(Syscall::Read { fd: a[0], buf: a[1], len: a[2] })
    } else if id == SYSCALL_WRITE {
        Some(Syscall::Write { fd: a[0], buf: a[1], len: a[2] })
    } else if id == SYSCALL_EXIT {
        Some(Syscall::Exit { exit_code: a[0] as i32 })
    } else if id == SYSCALL_SLEEP {
        Some(Syscall::Sleep { ms: a[0] })
    } else if id == SYSCALL_YIELD {
        Some(Syscall::Yield)
    } else if id == SYSCALL_KILL {
        Some(Syscall::Kill { pid: a[0], signum: a[1] as i32 })
    } else if id == SYSCALL_GET_TIME {
        Some(Syscall::GetTime)
    } else if id == SYSCALL_GETPID {
        Some(Syscall::GetPid)
    } else if id == SYSCALL_FORK {
        Some(Syscall::Fork)
    } else if id == SYSCALL_EXEC {
        Some(Syscall::Exec { path: a[0], args: a[1] })
    } else if id == SYSCALL_WAITPID {
        Some(Syscall::WaitPid { pid: a[0] as isize, exit_code_ptr: a[1] })
    } else if id == SYSCALL_THREAD_CREATE {
        Some(Syscall::ThreadCreate { entry: a[0], arg: a[1] })
    } else if id == SYSCALL_GET_TID {
        Some(Syscall::GetTid)
    } else if id == SYSCALL_WAIT_TID {
        Some(Syscall::WaitTid { tid: a[0] })
    } else {
        None
    }
}

/// Law: a call's arguments are taken in register order. Whatever the call,
/// its first field is `args[0]`, its second `args[1]` and its third
/// `args[2]` (narrowed to the field's type), and `read` and `write` decode
/// the same arguments into the same descriptor, buffer and length.
pub proof fn lemma_decode_takes_args_in_order(args: [usize; 3])
    ensures
        decode_spec(SYSCALL_READ, args) matches Some(Syscall::Read { fd, buf, len })
            && fd == args@[0] && buf == args@[1] && len == args@[2],
        decode_spec(SYSCALL_WRITE, args) matches Some(Syscall::Write { fd, buf, len })
            && fd == args@[0] && buf == args@[1] && len == args@[2],
        decode_spec(SYSCALL_OPEN, args) matches Some(Syscall::Open { path, flags })
            && path == args@[0] && flags == args@[1] as u32,
        decode_spec(SYSCALL_KILL, args) matches Some(Syscall::Kill { pid, signum })
            && pid == args@[0] && signum == args@[1] as i32,
        decode_spec(SYSCALL_EXEC, args) matches Some(Syscall::Exec { path, args: argv })
            && path == args@[0] && argv == args@[1],
        decode_spec(SYSCALL_WAITPID, args) matches Some(Syscall::WaitPid { pid, exit_code_ptr })
            && pid == args@[0] as isize && exit_code_ptr == args@[1],
        decode_spec(SYSCALL_THREAD_CREATE, args) matches Some(Syscall::ThreadCreate { entry, arg })
            && entry == args@[0] && arg == args@[1],
        decode_spec(SYSCALL_DUP, args) == Some(Syscall::Dup { fd: args@[0] }),
        decode_spec(SYSCALL_CLOSE, args) == Some(Syscall::Close { fd: args@[0] }),
        decode_spec(SYSCALL_PIPE, args) == Some(Syscall::Pipe { pipe: args@[0] }),
        decode_spec(SYSCALL_EXIT, args) == Some(Syscall::Exit { exit_code: args@[0] as i32 }),
        decode_spec(SYSCALL_SLEEP, args) == Some(Syscall::Sleep { ms: args@[0] }),
        decode_spec(SYSCALL_WAIT_TID, args) == Some(Syscall::WaitTid { tid: args@[0] }),
        ({
            let r = decode_spec(SYSCALL_READ, args);
            let w = decode_spec(SYSCALL_WRITE, args);
            r matches Some(Syscall::Read { fd: rf, buf: rb, len: rl }) && w matches Some(Syscall::Write { fd: wf, buf: wb, len: wl })
                && rf == wf && rb == wb && rl == wl
        }),
{
}

/// Decodes system call `syscall_id` with arguments `args` into the call
/// that the kernel's dispatcher runs. The number must be a supported one.
pub fn sys_call(syscall_id: usize, args: [usize; 3]) -> (call: Syscall)
    requires
        decode_spec(syscall_id, args) is Some,
    ensures
        decode_spec(syscall_id, args) == Some(call),
{
    let a0 = args[0];
    let a1 = args[1];
    let a2 = args[2];
    match syscall_id {
        SYSCALL_DUP => Syscall::Dup { fd: a0 },
        SYSCALL_OPEN => Syscall::Open { path: a0, flags: a1 as u32 },
        SYSCALL_CLOSE => Syscall::Close { fd: a0 },
        SYSCALL_PIPE => Syscall::Pipe { pipe: a0 },
        SYSCALL_READ => Syscall::Read { fd: a0, buf: a1, len: a2 },
        SYSCALL_WRITE => Syscall::Write { fd: a0, buf: a1, len: a2 },
        SYSCALL_EXIT => Syscall::Exit { exit_code: a0 as i32 },
        SYSCALL_SLEEP => Syscall::Sleep { ms: a0 },
        SYSCALL_YIELD => Syscall::Yield,
        SYSCALL_KILL => Syscall::Kill { pid: a0, signum: a1 as i32 },
        SYSCALL_GET_TIME => Syscall::GetTime,
        SYSCALL_GETPID => Syscall::GetPid,
        SYSCALL_FORK => Syscall::Fork,
        SYSCALL_EXEC => Syscall::Exec { path: a0, args: a1 },
        SYSCALL_WAITPID => Syscall::WaitPid { pid: a0 as isize, exit_code_ptr: a1 },
        SYSCALL_THREAD_CREATE => Syscall::ThreadCreate { entry: a0, arg: a1 },
        SYSCALL_GET_TID => Syscall::GetTid,
        SYSCALL_WAIT_TID => Syscall::WaitTid { tid: a0 },
        _ => Syscall::Yield,
    }
}

/// Whether `syscall_id` is the number of a supported call.
pub fn syscall_supported(syscall_id: usize) -> (r: bool)
    ensures
        forall|args: [usize; 3]| r == (#[trigger] decode_spec(syscall_id, args) is Some),
{
    syscall_id == SYSCALL_DUP || syscall_id == SYSCALL_OPEN || syscall_id == SYSCALL_CLOSE
        || syscall_id == SYSCALL_PIPE || syscall_id == SYSCALL_READ || syscall_id == SYSCALL_WRITE
        || syscall_id == SYSCALL_EXIT || syscall_id == SYSCALL_SLEEP || syscall_id == SYSCALL_YIELD
        || syscall_id == SYSCALL_KILL || syscall_id == SYSCALL_GET_TIME || syscall_id == SYSCALL_GETPID
        || syscall_id == SYSCALL_FORK || syscall_id == SYSCALL_EXEC || syscall_id == SYSCALL_WAITPID
        || syscall_id == SYSCALL_THREAD_CREATE || syscall_id == SYSCALL_GET_TID || syscall_id == SYSCALL_WAIT_TID
}


} // verus!
