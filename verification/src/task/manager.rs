//! The ready queue of threads and the map from process ids to processes.
use vstd::prelude::*;
use std::collections::{BTreeMap, VecDeque};
use vstd::std_specs::cmp::PartialEqSpec;

verus! {

broadcast use vstd::laws_cmp::group_laws_cmp;

/// First-in first-out queue of ready threads.
pub struct TaskManager<T> {
    ready_queue: VecDeque<T>,
}

impl<T> View for TaskManager<T> {
    type V = Seq<T>;

    closed spec fn view(&self) -> Seq<T> {
        self.ready_queue@
    }
}

impl<T> TaskManager<T> {
    /// An empty queue.
    pub fn new() -> (m: Self)
        ensures
            m@ == Seq::<T>::empty(),
    {
        TaskManager { ready_queue: VecDeque::new() }
    }

    /// Puts `task` at the back of the queue.
    pub fn add(&mut self, task: T)
        ensures
            final(self)@ == old(self)@.push(task),
    {
        self.ready_queue.push_back(task);
    }

    /// Takes the thread at the front of the queue, `None` when it is empty.
    pub fn fetch(&mut self) -> (t: Option<T>)
        ensures
            old(self)@.len() == 0 ==> t is None && final(self)@ == old(self)@,
            old(self)@.len() > 0 ==> t == Some(old(self)@[0]) && final(self)@ == old(self)@.drop_first(),
    {
        self.ready_queue.pop_front()
    }
}

/// The position of the first thread of `q` equal to `task`, or the length
/// of `q` when there is none.
pub open spec fn first_equal<T: PartialEq>(q: Seq<T>, task: T) -> int {
    if exists|i: int| 0 <= i < q.len() && q[i].eq_spec(&task) {
        choose|i: int| 0 <= i < q.len() && q[i].eq_spec(&task) && forall|j: int| 0 <= j < i ==> !q[j].eq_spec(&task)
    } else {
        q.len() as int
    }
}

impl<T: PartialEq> TaskManager<T> {
    /// Takes `task` out of the queue: the first queued thread equal to it
    /// leaves, the others keep their order; when none is equal nothing
    /// changes. Stated for types whose `==` follows its specification.
    pub fn remove(&mut self, task: &T)
        ensures
            T::obeys_eq_spec() ==> {
                let i = first_equal(old(self)@, *task);
                &&& 0 <= i <= old(self)@.len()
                &&& i < old(self)@.len() ==> final(self)@ == old(self)@.remove(i)
                &&& i == old(self)@.len() ==> final(self)@ == old(self)@
            },
    {
        let mut i: usize = 0;
        while i < self.ready_queue.len()
            invariant
                i <= self.ready_queue@.len(),
                self.ready_queue@ == old(self)@,
                T::obeys_eq_spec() ==> forall|j: int| 0 <= j < i ==> !(#[trigger] self.ready_queue@[j]).eq_spec(task),
            decreases self.ready_queue@.len() - i,
        {
            if self.ready_queue[i] == *task {
                proof {
                    if T::obeys_eq_spec() {
                        let q = self.ready_queue@;
                        assert(q[i as int].eq_spec(task));
                        let c = first_equal(q, *task);
                        assert(0 <= c < q.len() && q[c].eq_spec(task) && forall|j: int| 0 <= j < c ==> !q[j].eq_spec(task));
                        if c < i {
                            assert(!q[c].eq_spec(task));
                        } else if c > i {
                            assert(!q[i as int].eq_spec(task));
                        }
                    }
                }
                self.ready_queue.remove(i);
                return;
            }
            i = i + 1;
        }
    }
}

/// Law: the queue is first-in first-out: with threads waiting, adding one and
/// then fetching gives the oldest waiting thread and leaves the others, then
/// the added one, in order.
pub proof fn lemma_ready_queue_fifo<T>(q: Seq<T>, t: T)
    requires
        q.len() > 0,
    ensures
        q.push(t)[0] == q[0],
        q.push(t).drop_first() == q.drop_first().push(t),
{
    assert(q.push(t).drop_first() =~= q.drop_first().push(t));
}

/// The process with id `pid`, cloned out of `pid2pcb`.
pub fn pid2process<P: Clone>(pid2pcb: &BTreeMap<usize, P>, pid: usize) -> (p: Option<P>)
    ensures
        p is None <==> !pid2pcb@.contains_key(pid),
        p matches Some(q) ==> cloned(pid2pcb@[pid], q),
{
    match pid2pcb.get(&pid) {
        Some(p) => Some(p.clone()),
        None => None,
    }
}

/// Records `process` under id `pid`.
pub fn insert_into_pid2process<P>(pid2pcb: &mut BTreeMap<usize, P>, pid: usize, process: P)
    ensures
        final(pid2pcb)@ == old(pid2pcb)@.insert(pid, process),
{
    pid2pcb.insert(pid, process);
}

/// Forgets the process with id `pid`, which must be recorded.
pub fn remove_from_pid2process<P>(pid2pcb: &mut BTreeMap<usize, P>, pid: usize)
    requires
        old(pid2pcb)@.contains_key(pid),
    ensures
        final(pid2pcb)@ == old(pid2pcb)@.remove(pid),
{
    let removed = pid2pcb.remove(&pid);
}

} // verus!
