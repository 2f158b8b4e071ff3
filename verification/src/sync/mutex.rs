//! Mutual-exclusion locks. A lock decides, for the thread that asks, whether
//! it holds the lock or must wait; the scheduler does the waiting and waking
//! with the answer.
use vstd::prelude::*;
use std::collections::VecDeque;

verus! {

/// A lock that threads take and release. `lock` answers whether the calling
/// thread must wait; `unlock` names the thread, if any, that the lock is
/// handed to and that must be woken.
pub trait Mutex<T> {
    /// Whether some thread holds the lock.
    spec fn is_locked(&self) -> bool;

    /// Whether threads sleep waiting to be handed the lock.
    spec fn has_waiters(&self) -> bool;

    /// Whether the lock may be released now.
    spec fn can_unlock(&self) -> bool;

    /// Asks for the lock on behalf of thread `current`. The lock is held
    /// afterwards (by `current`, unless it must wait); the answer says
    /// whether `current` must wait, which is when the lock was held already.
    fn lock(&mut self, current: T) -> (must_wait: bool)
        ensures
            final(self).is_locked(),
            must_wait == old(self).is_locked(),
    ;

    /// Releases the lock. A sleeping waiter, if there is one, is handed the
    /// lock and returned to be woken; otherwise the lock is free afterwards.
    fn unlock(&mut self) -> (woken: Option<T>)
        requires
            old(self).can_unlock(),
        ensures
            woken is None <==> !old(self).has_waiters(),
            woken is None <==> !final(self).is_locked(),
    ;
}

/// A lock whose waiters yield the processor and try again.
pub struct MutexSpin {
    locked: bool,
}

impl MutexSpin {
    /// Whether the lock is held.
    pub closed spec fn held(&self) -> bool {
        self.locked
    }

    /// A free lock.
    pub fn new() -> (m: Self)
        ensures
            !m.held(),
    {
        MutexSpin { locked: false }
    }
}

impl<T> Mutex<T> for MutexSpin {
    open spec fn is_locked(&self) -> bool {
        self.held()
    }

    open spec fn has_waiters(&self) -> bool {
        false
    }

    /// A spin lock may be released at any time.
    open spec fn can_unlock(&self) -> bool {
        true
    }

    /// One attempt: takes the lock if it is free; otherwise the caller yields
    /// and asks again.
    fn lock(&mut self, current: T) -> (must_wait: bool) {
        if self.locked {
            true
        } else {
            self.locked = true;
            false
        }
    }

    /// Frees the lock; nobody is woken, as waiters retry by themselves.
    fn unlock(&mut self) -> (woken: Option<T>) {
        self.locked = false;
        None
    }
}

/// A lock whose waiters sleep in a first-in first-out queue and are handed
/// the lock one by one.
pub struct MutexBlocking<T> {
    locked: bool,
    wait_queue: VecDeque<T>,
}

/// The state after thread `t` asks for a lock in state `s` (held, waiters).
pub open spec fn lock_next<T>(s: (bool, Seq<T>), t: T) -> (bool, Seq<T>) {
    if s.0 {
        (true, s.1.push(t))
    } else {
        (true, s.1)
    }
}

/// The state after the holder releases a lock in state `s`, and the thread
/// woken: the longest waiting one, who then holds the lock; with nobody
/// waiting the lock becomes free.
pub open spec fn unlock_next<T>(s: (bool, Seq<T>)) -> ((bool, Seq<T>), Option<T>) {
    if s.1.len() > 0 {
        ((true, s.1.drop_first()), Some(s.1[0]))
    } else {
        ((false, s.1), None)
    }
}

impl<T> View for MutexBlocking<T> {
    type V = (bool, Seq<T>);

    /// Whether the lock is held, and the waiting threads, longest waiting first.
    closed spec fn view(&self) -> (bool, Seq<T>) {
        (self.locked, self.wait_queue@)
    }
}

impl<T> MutexBlocking<T> {
    /// Threads wait only while the lock is held.
    pub open spec fn wf(&self) -> bool {
        self@.1.len() > 0 ==> self@.0
    }

    /// A free lock with nobody waiting.
    pub fn new() -> (m: Self)
        ensures
            m@ == (false, Seq::<T>::empty()),
            m.wf(),
    {
        MutexBlocking { locked: false, wait_queue: VecDeque::new() }
    }
}

impl<T> Mutex<T> for MutexBlocking<T> {
    open spec fn is_locked(&self) -> bool {
        self@.0
    }

    open spec fn has_waiters(&self) -> bool {
        self@.1.len() > 0
    }

    /// A blocking lock is released only by its holder, while it is held.
    open spec fn can_unlock(&self) -> bool {
        self@.0
    }

    /// Takes the lock if it is free; otherwise `current` joins the back of
    /// the queue and must block until it is handed the lock.
    fn lock(&mut self, current: T) -> (must_wait: bool)
        ensures
            final(self)@ == lock_next(old(self)@, current),
            old(self).wf() ==> final(self).wf(),
    {
        if self.locked {
            self.wait_queue.push_back(current);
            true
        } else {
            self.locked = true;
            false
        }
    }

    /// Hands the lock to the longest waiting thread, which is returned to be
    /// woken; with nobody waiting the lock becomes free.
    fn unlock(&mut self) -> (woken: Option<T>)
        ensures
            (final(self)@, woken) == unlock_next(old(self)@),
            old(self).wf() ==> final(self).wf(),
    {
        match self.wait_queue.pop_front() {
            Some(waking_task) => Some(waking_task),
            None => {
                self.locked = false;
                None
            },
        }
    }
}

/// Law: a blocking lock hands itself over in first-in first-out order. When
/// threads `a` and then `b` ask for a held lock with nobody waiting, the next
/// two releases wake `a` and then `b`, and the lock is still held by `b`.
pub proof fn lemma_mutex_fifo_handoff<T>(a: T, b: T)
    ensures
        ({
            let s0 = (true, Seq::<T>::empty());
            let s2 = lock_next(lock_next(s0, a), b);
            let (s3, w1) = unlock_next(s2);
            let (s4, w2) = unlock_next(s3);
            &&& w1 == Some(a)
            &&& w2 == Some(b)
            &&& s4 == (true, Seq::<T>::empty())
        }),
{
    let s0 = (true, Seq::<T>::empty());
    let s2 = lock_next(lock_next(s0, a), b);
    assert(s2.1 =~= seq![a, b]);
    assert(unlock_next(s2).0.1 =~= seq![b]);
    assert(unlock_next(unlock_next(s2).0).0.1 =~= Seq::<T>::empty());
}

/// The threads woken by `n` releases of a lock in state `s`, in order.
pub open spec fn woken_by_releases<T>(s: (bool, Seq<T>), n: nat) -> Seq<Option<T>>
    decreases n,
{
    if n == 0 {
        Seq::empty()
    } else {
        let (s1, w) = unlock_next(s);
        seq![w] + woken_by_releases(s1, (n - 1) as nat)
    }
}

/// While threads `q` wait for a held lock, the next `n` releases wake the
/// first `n` of them, in order.
proof fn lemma_releases_wake_in_order<T>(q: Seq<T>, n: nat)
    requires
        n <= q.len(),
    ensures
        woken_by_releases((true, q), n) == Seq::new(n, |i: int| Some(q[i])),
    decreases n,
{
    if n > 0 {
        lemma_releases_wake_in_order(q.drop_first(), (n - 1) as nat);
        assert(unlock_next((true, q)) == ((true, q.drop_first()), Some(q[0])));
        assert(woken_by_releases((true, q), n) =~= Seq::new(n, |i: int| Some(q[i])));
    }
}

/// Law: every thread told to wait is eventually handed the lock. When
/// thread `t` asks for a held lock while threads `q` wait, `t` must wait,
/// and the releases that follow wake each thread of `q` in order and then
/// `t`, which then holds the lock.
pub proof fn lemma_waiter_is_handed_the_lock<T>(q: Seq<T>, t: T)
    ensures
        lock_next((true, q), t).0,
        woken_by_releases(lock_next((true, q), t), q.len() + 1)
            == Seq::new(q.len(), |i: int| Some(q[i])).push(Some(t)),
{
    let s1 = lock_next((true, q), t);
    assert(s1.1 =~= q.push(t));
    lemma_releases_wake_in_order(q.push(t), q.len() + 1);
    assert(Seq::new(q.len() + 1, |i: int| Some(q.push(t)[i])) =~= Seq::new(q.len(), |i: int| Some(q[i])).push(Some(t)));
}

/// Law: taking and then releasing a free lock leaves it free with nobody
/// waiting, and wakes nobody.
pub proof fn lemma_mutex_lock_unlock_roundtrip<T>(s: (bool, Seq<T>), t: T)
    requires
        !s.0,
        s.1.len() == 0,
    ensures
        unlock_next(lock_next(s, t)) == ((false, s.1), None::<T>),
{
}

} // verus!
