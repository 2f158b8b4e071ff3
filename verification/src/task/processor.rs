//! The processor: which thread runs, and the scheduling decisions that hand
//! it over. The context switch itself is done by the caller.
use vstd::prelude::*;
use crate::task::context::TaskContext;
use crate::task::manager::TaskManager;

verus! {

/// The thread on the processor, and the idle context the scheduler loop
/// runs in between threads.
pub struct Processor<T> {
    current: Option<T>,
    idle_task_cx: TaskContext,
}

impl<T> Processor<T> {
    /// The thread on the processor, if any.
    pub closed spec fn running(&self) -> Option<T> {
        self.current
    }

    /// The idle context.
    pub closed spec fn idle_cx(&self) -> TaskContext {
        self.idle_task_cx
    }

    /// A processor with no thread on it and a zero idle context.
    pub fn new() -> (p: Self)
        ensures
            p.running() is None,
            p.idle_cx().ra == 0,
            p.idle_cx().sp == 0,
    {
        Processor { current: None, idle_task_cx: TaskContext::zero_init() }
    }

    /// Takes the thread off the processor, leaving it idle.
    pub fn take_current(&mut self) -> (t: Option<T>)
        ensures
            t == old(self).running(),
            final(self).running() is None,
            final(self).idle_cx() == old(self).idle_cx(),
    {
        self.current.take()
    }

    /// One round of the scheduler loop: the thread at the front of the
    /// ready queue, if any, leaves the queue and gets the processor.
    /// Returns whether a thread got it.
    pub fn run_next(&mut self, manager: &mut TaskManager<T>) -> (switched: bool)
        ensures
            switched == (old(manager)@.len() > 0),
            switched ==> final(self).running() == Some(old(manager)@[0]) && final(manager)@ == old(manager)@.drop_first(),
            !switched ==> final(self).running() == old(self).running() && final(manager)@ == old(manager)@,
            final(self).idle_cx() == old(self).idle_cx(),
    {
        match manager.fetch() {
            Some(task) => {
                self.current = Some(task);
                true
            },
            None => false,
        }
    }

    /// The running thread gives up the processor: it goes to the back of the
    /// ready queue.
    pub fn suspend_current(&mut self, manager: &mut TaskManager<T>)
        ensures
            final(self).running() is None,
            final(manager)@ == match old(self).running() {
                Some(t) => old(manager)@.push(t),
                None => old(manager)@,
            },
            final(self).idle_cx() == old(self).idle_cx(),
    {
        match self.take_current() {
            Some(task) => manager.add(task),
            None => {},
        }
    }
}

impl<T: Clone> Processor<T> {
    /// A clone of the thread on the processor.
    pub fn current(&self) -> (t: Option<T>)
        ensures
            t is None <==> self.running() is None,
            t matches Some(c) ==> cloned(self.running()->0, c),
    {
        match &self.current {
            Some(task) => Some(task.clone()),
            None => None,
        }
    }
}

/// Law: scheduling is round robin. When the running thread `t` gives up the
/// processor while the threads `q` are ready, each round of the scheduler
/// takes the front thread and leaves the rest (`skip(k + 1)` after `k + 1`
/// rounds), so the threads of `q` run first, in their order, and `t` runs
/// after all of them.
pub proof fn lemma_round_robin<T>(q: Seq<T>, t: T, k: int)
    requires
        0 <= k <= q.len(),
    ensures
        q.push(t).skip(k).drop_first() == q.push(t).skip(k + 1),
        k < q.len() ==> q.push(t).skip(k)[0] == q[k],
        k == q.len() ==> q.push(t).skip(k)[0] == t,
{
    assert(q.push(t).skip(k).drop_first() =~= q.push(t).skip(k + 1));
}

} // verus!
