//! What happens when a thread exits: a secondary thread just records its
//! exit code; the main thread takes its whole process down, handing the
//! children to the initial process; and the idle process's exit stops the
//! machine.
use vstd::prelude::*;
use std::collections::BTreeMap;
use vstd::std_specs::cmp::PartialEqSpec;
use crate::task::manager::{first_equal, remove_from_pid2process, TaskManager};

verus! {

/// Process id of the idle (initial) process.
pub const IDLE_PID: usize = 0;

/// What an exiting thread's exit leads to.
#[derive(Copy, Clone, Debug, PartialEq, Eq, Structural)]
pub enum ExitOutcome {
    /// A secondary thread exits; its process goes on.
    ThreadExit,
    /// The main thread exits: the process becomes a zombie, its other
    /// threads and resources are released and its children adopted.
    ProcessExit,
    /// The idle process exits: the machine shuts down, reporting a failure
    /// when the exit code is not 0.
    Shutdown { failure: bool },
}

/// The outcome when thread `tid` of process `pid` exits with `exit_code`.
pub fn exit_outcome(tid: usize, pid: usize, exit_code: i32) -> (o: ExitOutcome)
    ensures
        o == if tid != 0 {
            ExitOutcome::ThreadExit
        } else if pid == IDLE_PID {
            ExitOutcome::Shutdown { failure: exit_code != 0 }
        } else {
            ExitOutcome::ProcessExit
        },
{
    if tid != 0 {
        ExitOutcome::ThreadExit
    } else if pid == IDLE_PID {
        ExitOutcome::Shutdown { failure: exit_code != 0 }
    } else {
        ExitOutcome::ProcessExit
    }
}

/// The initial process adopts the children of an exiting process: they join
/// the end of its children, in their order, and the exiting process has
/// none left.
pub fn adopt_children<C>(children: &mut Vec<C>, initproc_children: &mut Vec<C>)
    ensures
        final(initproc_children)@ == old(initproc_children)@ + old(children)@,
        final(children)@ == Seq::<C>::empty(),
{
    initproc_children.append(children);
}

/// The parent links, by process id, once each process of `children` has the
/// initial process as its parent; the others keep theirs.
pub open spec fn reparented(parent_of: Map<usize, usize>, children: Seq<usize>) -> Map<usize, usize> {
    Map::new(
        |pid: usize| parent_of.dom().contains(pid) || children.contains(pid),
        |pid: usize| if children.contains(pid) { IDLE_PID } else { parent_of[pid] },
    )
}

/// Makes the initial process the parent of each of `children`, given by
/// process id, in the parent links `parent_of`.
pub fn reparent_children(parent_of: &mut BTreeMap<usize, usize>, children: &Vec<usize>)
    ensures
        final(parent_of)@ == reparented(old(parent_of)@, children@),
{
    let mut i: usize = 0;
    while i < children.len()
        invariant
            i <= children@.len(),
            parent_of@ == reparented(old(parent_of)@, children@.take(i as int)),
        decreases children@.len() - i,
    {
        let c = children[i];
        parent_of.insert(c, IDLE_PID);
        proof {
            let before = children@.take(i as int);
            let after = children@.take(i + 1);
            assert forall|pid: usize| after.contains(pid) <==> before.contains(pid) || pid == c by {
                if after.contains(pid) {
                    let j = choose|j: int| 0 <= j < after.len() && after[j] == pid;
                    if j < i {
                        assert(before[j] == pid);
                    }
                }
                if before.contains(pid) {
                    let j = choose|j: int| 0 <= j < before.len() && before[j] == pid;
                    assert(after[j] == pid);
                }
                if pid == c {
                    assert(after[i as int] == pid);
                }
            }
            assert(parent_of@ =~= reparented(old(parent_of)@, after));
        }
        i = i + 1;
    }
    proof {
        assert(children@.take(children@.len() as int) =~= children@);
    }
}

/// An exiting process keeps only its main thread's slot and no open file.
pub fn release_process_tables<T, F>(tasks: &mut Vec<Option<T>>, fd_table: &mut Vec<Option<F>>)
    ensures
        final(tasks)@ == old(tasks)@.take(if old(tasks)@.len() > 1 { 1int } else { old(tasks)@.len() as int }),
        final(fd_table)@ == Seq::<Option<F>>::empty(),
{
    fd_table.clear();
    while tasks.len() > 1
        invariant
            tasks@ == old(tasks)@.take(tasks@.len() as int),
            tasks@.len() <= old(tasks)@.len(),
            old(tasks)@.len() > 1 ==> tasks@.len() >= 1,
            old(tasks)@.len() <= 1 ==> tasks@.len() == old(tasks)@.len(),
        decreases tasks@.len(),
    {
        tasks.pop();
        proof {
            assert(tasks@ =~= old(tasks)@.take(tasks@.len() as int));
        }
    }
    proof {
        assert(tasks@ =~= old(tasks)@.take(if old(tasks)@.len() > 1 { 1int } else { old(tasks)@.len() as int }));
    }
}

/// The ready queue `q` once the thread of slot `slot` has been taken out of
/// it: the first queued thread equal to it leaves; an empty slot or a
/// thread not queued changes nothing.
pub open spec fn dequeue_slot<T: PartialEq>(q: Seq<T>, slot: Option<T>) -> Seq<T> {
    match slot {
        Some(t) => if first_equal(q, t) < q.len() { q.remove(first_equal(q, t)) } else { q },
        None => q,
    }
}

/// The ready queue `q` once the threads of the first `n` slots of `tasks`
/// have been taken out of it, slot by slot.
pub open spec fn dequeue_slots<T: PartialEq>(q: Seq<T>, tasks: Seq<Option<T>>, n: nat) -> Seq<T>
    decreases n,
{
    if n == 0 {
        q
    } else {
        dequeue_slot(dequeue_slots(q, tasks, (n - 1) as nat), tasks[n - 1])
    }
}

/// What exiting changes of a process: whether it is a zombie, its exit
/// code, its children by process id, its threads by id, and its open files.
pub struct ProcessExitState<T, F> {
    pub is_zombie: bool,
    pub exit_code: i32,
    pub children: Vec<usize>,
    pub tasks: Vec<Option<T>>,
    pub fd_table: Vec<Option<F>>,
}

impl<T: PartialEq, F> ProcessExitState<T, F> {
    /// The main thread of process `pid` exits with `exit_code`: the process
    /// leaves the process map and becomes a zombie with that exit code, the
    /// initial process adopts its children, each of which gets it as its
    /// parent in `parent_of`, each of its threads leaves the ready queue, and
    /// it keeps only its main thread's slot and no open file. The process
    /// must be in the map. The removal from the ready queue is stated for
    /// thread types whose `==` follows its specification.
    pub fn exit_process<P>(
        &mut self,
        pid: usize,
        exit_code: i32,
        pid2pcb: &mut BTreeMap<usize, P>,
        parent_of: &mut BTreeMap<usize, usize>,
        initproc_children: &mut Vec<usize>,
        ready: &mut TaskManager<T>,
    )
        requires
            old(pid2pcb)@.contains_key(pid),
        ensures
            final(pid2pcb)@ == old(pid2pcb)@.remove(pid),
            final(parent_of)@ == reparented(old(parent_of)@, old(self).children@),
            final(self).is_zombie,
            final(self).exit_code == exit_code,
            final(initproc_children)@ == old(initproc_children)@ + old(self).children@,
            final(self).children@ == Seq::<usize>::empty(),
            T::obeys_eq_spec() ==> final(ready)@ == dequeue_slots(old(ready)@, old(self).tasks@, old(self).tasks@.len()),
            final(self).tasks@ == old(self).tasks@.take(if old(self).tasks@.len() > 1 { 1int } else { old(self).tasks@.len() as int }),
            final(self).fd_table@ == Seq::<Option<F>>::empty(),
    {
        remove_from_pid2process(pid2pcb, pid);
        self.is_zombie = true;
        self.exit_code = exit_code;
        reparent_children(parent_of, &self.children);
        adopt_children(&mut self.children, initproc_children);
        let mut i: usize = 0;
        while i < self.tasks.len()
            invariant
                i <= self.tasks@.len(),
                self.tasks@ == old(self).tasks@,
                T::obeys_eq_spec() ==> ready@ == dequeue_slots(old(ready)@, old(self).tasks@, i as nat),
            decreases self.tasks@.len() - i,
        {
            let ghost prev = ready@;
            match &self.tasks[i] {
                Some(task) => {
                    ready.remove(task);
                    proof {
                        assert(self.tasks@[i as int] == Some(*task));
                    }
                },
                None => {},
            }
            proof {
                assert(dequeue_slots(old(ready)@, old(self).tasks@, (i + 1) as nat)
                    == dequeue_slot(dequeue_slots(old(ready)@, old(self).tasks@, i as nat), old(self).tasks@[i as int]));
            }
            i = i + 1;
        }
        release_process_tables(&mut self.tasks, &mut self.fd_table);
    }
}

} // verus!
