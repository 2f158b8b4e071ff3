//! File-descriptor decisions of the file system calls over a process's
//! descriptor table, whose slots hold open files or nothing.
use vstd::prelude::*;

verus! {

/// The lowest free descriptor of `table`, or one past its end when none is
/// free.
pub open spec fn lowest_free_fd<F>(table: Seq<Option<F>>) -> int {
    if exists|i: int| 0 <= i < table.len() && table[i] is None {
        choose|i: int| 0 <= i < table.len() && table[i] is None && forall|j: int| 0 <= j < i ==> table[j] is Some
    } else {
        table.len() as int
    }
}

/// Finds the lowest free descriptor of `fd_table`, adding an empty slot at
/// the end when none is free.
pub fn alloc_fd<F>(fd_table: &mut Vec<Option<F>>) -> (fd: usize)
    requires
        old(fd_table)@.len() < usize::MAX,
    ensures
        fd < final(fd_table)@.len(),
        final(fd_table)@[fd as int] is None,
        forall|j: int| 0 <= j < fd ==> final(fd_table)@[j] is Some,
        final(fd_table)@ == if fd < old(fd_table)@.len() {
            old(fd_table)@
        } else {
            old(fd_table)@.push(None)
        },
        fd == lowest_free_fd(old(fd_table)@),
{
    let mut i: usize = 0;
    while i < fd_table.len()
        invariant
            i <= fd_table@.len(),
            fd_table@ == old(fd_table)@,
            forall|j: int| 0 <= j < i ==> fd_table@[j] is Some,
        decreases fd_table@.len() - i,
    {
        if fd_table[i].is_none() {
            proof {
                let t = fd_table@;
                assert(exists|k: int| 0 <= k < t.len() && t[k] is None);
                let c = lowest_free_fd(t);
                assert(t[c] is None && forall|j: int| 0 <= j < c ==> t[j] is Some);
                if c < i {
                    assert(t[c] is Some);
                } else if c > i {
                    assert(t[i as int] is Some);
                }
            }
            return i;
        }
        i = i + 1;
    }
    fd_table.push(None);
    fd_table.len() - 1
}

/// Closes descriptor `fd`: -1 when it is out of range or not open, else the
/// slot is emptied and 0 is returned.
pub fn sys_close<F>(fd_table: &mut Vec<Option<F>>, fd: usize) -> (r: isize)
    ensures
        r == if fd < old(fd_table)@.len() && old(fd_table)@[fd as int] is Some { 0isize } else { -1isize },
        final(fd_table)@ == if r == 0 { old(fd_table)@.update(fd as int, None) } else { old(fd_table)@ },
{
    if fd >= fd_table.len() {
        return -1;
    }
    if fd_table[fd].is_none() {
        return -1;
    }
    fd_table.set(fd, None);
    0
}

/// Duplicates descriptor `fd` into the lowest free descriptor: -1 when `fd`
/// is out of range or not open, else the new descriptor, whose slot holds a
/// clone of the file.
pub fn sys_dup<F: Clone>(fd_table: &mut Vec<Option<F>>, fd: usize) -> (r: isize)
    requires
        old(fd_table)@.len() < isize::MAX,
    ensures
        !(fd < old(fd_table)@.len() && old(fd_table)@[fd as int] is Some) ==> r == -1 && final(fd_table)@ == old(fd_table)@,
        (fd < old(fd_table)@.len() && old(fd_table)@[fd as int] is Some) ==> {
            let n = lowest_free_fd(old(fd_table)@);
            &&& r == n
            &&& final(fd_table)@.len() == if n < old(fd_table)@.len() { old(fd_table)@.len() } else { old(fd_table)@.len() + 1 }
            &&& forall|j: int| 0 <= j < final(fd_table)@.len() && j != n ==> #[trigger] final(fd_table)@[j] == old(fd_table)@[j]
            &&& final(fd_table)@[n] matches Some(f) && cloned(old(fd_table)@[fd as int]->0, f)
        },
{
    if fd >= fd_table.len() {
        return -1;
    }
    if fd_table[fd].is_none() {
        return -1;
    }
    let ghost t0 = fd_table@;
    let new_fd = alloc_fd(fd_table);
    let file = match &fd_table[fd] {
        Some(f) => f.clone(),
        None => {
            return -1;
        },
    };
    fd_table.set(new_fd, Some(file));
    new_fd as isize
}

/// Installs the two ends of a new pipe: the read end in the lowest free
/// descriptor, then the write end in the lowest one free after that.
/// Returns the two descriptors, which the caller hands to the program.
pub fn sys_pipe<F>(fd_table: &mut Vec<Option<F>>, pipe_read: F, pipe_write: F) -> (fds: (usize, usize))
    requires
        old(fd_table)@.len() + 1 < usize::MAX,
    ensures
        ({
            let t0 = if fds.0 < old(fd_table)@.len() { old(fd_table)@ } else { old(fd_table)@.push(None) };
            &&& fds.0 == lowest_free_fd(old(fd_table)@)
            &&& fds.1 == lowest_free_fd(t0.update(fds.0 as int, Some(pipe_read)))
            &&& fds.0 != fds.1
            &&& final(fd_table)@[fds.0 as int] == Some(pipe_read)
            &&& final(fd_table)@[fds.1 as int] == Some(pipe_write)
            &&& forall|j: int| 0 <= j < old(fd_table)@.len() && j != fds.0 && j != fds.1 ==> #[trigger] final(fd_table)@[j] == old(fd_table)@[j]
        }),
{
    let read_fd = alloc_fd(fd_table);
    fd_table.set(read_fd, Some(pipe_read));
    let write_fd = alloc_fd(fd_table);
    fd_table.set(write_fd, Some(pipe_write));
    (read_fd, write_fd)
}

} // verus!
