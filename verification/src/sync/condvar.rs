//! Condition variables: a first-in first-out queue of threads waiting for a
//! condition. The queue decides who waits and who is woken; the scheduler
//! blocks and wakes them.
use vstd::prelude::*;
use std::collections::VecDeque;
use crate::sync::mutex::Mutex;

verus! {

/// A condition variable.
pub struct CondVar<T> {
    wait_queue: VecDeque<T>,
}

impl<T> View for CondVar<T> {
    type V = Seq<T>;

    /// The waiting threads, longest waiting first.
    closed spec fn view(&self) -> Seq<T> {
        self.wait_queue@
    }
}

impl<T> CondVar<T> {
    /// A condition variable nobody waits on.
    pub fn new() -> (c: Self)
        ensures
            c@ == Seq::<T>::empty(),
    {
        CondVar { wait_queue: VecDeque::new() }
    }

    /// The condition holds: the longest waiting thread, if any, leaves the
    /// queue and is returned to be woken.
    pub fn signal(&mut self) -> (woken: Option<T>)
        ensures
            old(self)@.len() > 0 ==> woken == Some(old(self)@[0]) && final(self)@ == old(self)@.drop_first(),
            old(self)@.len() == 0 ==> woken is None && final(self)@ == old(self)@,
    {
        self.wait_queue.pop_front()
    }

    /// Thread `current` starts waiting while holding `mutex`: the mutex is
    /// released (returning the thread it is handed to, to be woken) and
    /// `current` joins the back of the queue. Once woken, `current` asks for
    /// the mutex again.
    pub fn wait<M: Mutex<T>>(&mut self, mutex: &mut M, current: T) -> (woken: Option<T>)
        requires
            old(mutex).can_unlock(),
        ensures
            final(self)@ == old(self)@.push(current),
            woken is None <==> !old(mutex).has_waiters(),
            woken is None <==> !final(mutex).is_locked(),
    {
        let woken = mutex.unlock();
        self.wait_queue.push_back(current);
        woken
    }

    /// Thread `current` joins the back of the queue without touching any
    /// lock; the caller blocks it.
    pub fn wait_no_sched(&mut self, current: T)
        ensures
            final(self)@ == old(self)@.push(current),
    {
        self.wait_queue.push_back(current);
    }

    /// The same as `wait`: releases `mutex` and queues `current`.
    pub fn wait_with_mutex<M: Mutex<T>>(&mut self, mutex: &mut M, current: T) -> (woken: Option<T>)
        requires
            old(mutex).can_unlock(),
        ensures
            final(self)@ == old(self)@.push(current),
            woken is None <==> !old(mutex).has_waiters(),
            woken is None <==> !final(mutex).is_locked(),
    {
        self.wait(mutex, current)
    }
}

/// Law: signals wake waiters in the order in which they started waiting:
/// after `a` and then `b` wait on a condition nobody waited on, two signals
/// wake `a` and then `b` and leave nobody waiting.
pub proof fn lemma_condvar_fifo<T>(q: Seq<T>, a: T, b: T)
    requires
        q.len() == 0,
    ensures
        q.push(a).push(b)[0] == a,
        q.push(a).push(b).drop_first()[0] == b,
        q.push(a).push(b).drop_first().drop_first().len() == 0,
{
}

} // verus!
