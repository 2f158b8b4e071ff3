//! Decisions of the thread system calls over a process's table of threads,
//! indexed by thread id. A slot is `None` once its thread has been reaped
//! (or was never used); a thread's entry is its exit code, `None` while it
//! runs.
use vstd::prelude::*;
use crate::task::manager::TaskManager;
use crate::task::id::{lemma_id_alloc_fresh, RecycleAllocator};

verus! {

/// Creates a thread of the calling process: takes the next thread id from
/// the process's allocator `tids`, records the new thread `new_task` in that
/// slot of the process's thread table, first growing the table with empty
/// slots as needed, puts it at the back of the ready queue, and returns the
/// id. The id is one no live thread holds: where every thread in the table
/// holds an id of `tids`, the slot taken was empty.
pub fn sys_thread_create<T: Clone>(
    tasks: &mut Vec<Option<T>>,
    ready: &mut TaskManager<T>,
    tids: &mut RecycleAllocator,
    new_task: T,
) -> (r: isize)
    requires
        old(tids)@.wf(),
        old(tids)@.can_alloc(),
        old(tids)@.alloc_spec().1 < isize::MAX,
    ensures
        final(tids)@.wf(),
        final(tids)@ == old(tids)@.alloc_spec().0,
        r == old(tids)@.alloc_spec().1,
        !old(tids)@.in_use(r as usize),
        final(tids)@.in_use(r as usize),
        (forall|j: int| 0 <= j < old(tasks)@.len() && #[trigger] old(tasks)@[j] is Some ==> old(tids)@.in_use(j as usize))
            ==> (r >= old(tasks)@.len() || old(tasks)@[r as int] is None),
        final(ready)@ == old(ready)@.push(new_task),
        final(tasks)@.len() == if r < old(tasks)@.len() { old(tasks)@.len() as int } else { r + 1 },
        final(tasks)@[r as int] matches Some(t) && cloned(new_task, t),
        forall|j: int| 0 <= j < old(tasks)@.len() && j != r ==> #[trigger] final(tasks)@[j] == old(tasks)@[j],
        forall|j: int| old(tasks)@.len() <= j < final(tasks)@.len() && j != r ==> #[trigger] final(tasks)@[j] is None,
{
    proof {
        lemma_id_alloc_fresh(old(tids)@);
    }
    let new_tid = tids.allocate();
    let queued = new_task.clone();
    ready.add(new_task);
    while tasks.len() < new_tid + 1
        invariant
            new_tid < isize::MAX,
            tasks@.len() <= if new_tid < old(tasks)@.len() { old(tasks)@.len() as int } else { new_tid + 1 },
            tasks@.len() >= old(tasks)@.len(),
            forall|j: int| 0 <= j < old(tasks)@.len() ==> #[trigger] tasks@[j] == old(tasks)@[j],
            forall|j: int| old(tasks)@.len() <= j < tasks@.len() ==> #[trigger] tasks@[j] is None,
        decreases new_tid + 1 - tasks@.len(),
    {
        tasks.push(None);
    }
    tasks.set(new_tid, Some(queued));
    proof {
        if forall|j: int| 0 <= j < old(tasks)@.len() && #[trigger] old(tasks)@[j] is Some ==> old(tids)@.in_use(j as usize) {
            if new_tid < old(tasks)@.len() && old(tasks)@[new_tid as int] is Some {
                assert(old(tids)@.in_use(new_tid));
            }
        }
    }
    new_tid as isize
}

/// Waits for thread `tid` of the calling thread's process, the caller being
/// thread `current_tid`: -1 when `tid` is the caller itself or its slot is
/// empty, -2 while it still runs; once it has exited its slot is emptied and
/// its exit code returned.
pub fn sys_wait_tid(tasks: &mut Vec<Option<Option<i32>>>, current_tid: usize, tid: usize) -> (r: i32)
    requires
        tid == current_tid || tid < old(tasks)@.len(),
    ensures
        tid == current_tid ==> r == -1 && final(tasks)@ == old(tasks)@,
        tid != current_tid ==> match old(tasks)@[tid as int] {
            None => r == -1 && final(tasks)@ == old(tasks)@,
            Some(None) => r == -2 && final(tasks)@ == old(tasks)@,
            Some(Some(code)) => r == code && final(tasks)@ == old(tasks)@.update(tid as int, None),
        },
{
    if current_tid == tid {
        return -1;
    }
    match tasks[tid] {
        None => -1,
        Some(None) => -2,
        Some(Some(exit_code)) => {
            tasks.set(tid, None);
            exit_code
        },
    }
}

} // verus!
