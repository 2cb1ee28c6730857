use vstd::prelude::*;

use crate::queue::WaitQueue;

verus! {

/// A spinning mutex: a bare flag. A contending caller yields the CPU and
/// tries again; there is no queue and no owner tracking, and no fairness
/// is guaranteed.
pub struct MutexSpin {
    locked: bool,
}

impl View for MutexSpin {
    type V = bool;

    closed spec fn view(&self) -> bool {
        self.locked
    }
}

impl MutexSpin {
    pub fn new() -> (m: MutexSpin)
        ensures
            m@ == false,
    {
        MutexSpin { locked: false }
    }

    /// One acquisition attempt: succeeds exactly when the mutex was free.
    /// On failure the caller is expected to yield cooperatively and retry.
    pub fn try_acquire(&mut self) -> (acquired: bool)
        ensures
            acquired == !old(self)@,
            final(self)@ == true,
    {
        if !self.locked {
            self.locked = true;
            true
        } else {
            false
        }
    }

    pub fn unlock(&mut self)
        ensures
            final(self)@ == false,
    {
        self.locked = false;
    }

    pub fn is_locked(&self) -> (b: bool)
        ensures
            b == self@,
    {
        self.locked
    }
}

/// Abstract state of a blocking mutex: the lock flag and the FIFO queue of
/// blocked thread ids.
#[verifier::ext_equal]
pub ghost struct MutexView {
    pub locked: bool,
    pub queue: Seq<usize>,
}

impl MutexView {
    /// Waiters exist only while the mutex is held: unlock hands the mutex
    /// to the front waiter rather than ever leaving it free with a
    /// non-empty queue.
    pub open spec fn wf(self) -> bool {
        self.queue.len() > 0 ==> self.locked
    }
}

/// State after `lock` by `tid`: take the mutex when free, otherwise join
/// the queue (the caller then blocks).
pub open spec fn lock_spec(s: MutexView, tid: usize) -> MutexView {
    if !s.locked {
        MutexView { locked: true, queue: s.queue }
    } else {
        MutexView { locked: s.locked, queue: s.queue.push(tid) }
    }
}

/// State after `unlock`: with waiters present the front waiter leaves the
/// queue and the mutex stays locked (ownership handoff); otherwise the
/// mutex becomes free.
pub open spec fn unlock_spec(s: MutexView) -> MutexView {
    if s.queue.len() > 0 {
        MutexView { locked: true, queue: s.queue.subrange(1, s.queue.len() as int) }
    } else {
        MutexView { locked: false, queue: s.queue }
    }
}

/// A blocking mutex over a FIFO wait queue. On unlock with waiters the
/// dequeued thread is woken and becomes the owner atomically, so the mutex
/// is never observed free while threads wait.
pub struct MutexBlocking {
    locked: bool,
    queue: WaitQueue,
}

impl View for MutexBlocking {
    type V = MutexView;

    closed spec fn view(&self) -> MutexView {
        MutexView { locked: self.locked, queue: self.queue@ }
    }
}

impl MutexBlocking {
    pub fn new() -> (m: MutexBlocking)
        ensures
            m@ == (MutexView { locked: false, queue: Seq::<usize>::empty() }),
            m@.wf(),
    {
        MutexBlocking { locked: false, queue: WaitQueue::new() }
    }

    /// Acquire or enqueue: returns true when the caller took the mutex and
    /// may proceed, false when it was enqueued and must block; once woken
    /// it already owns the mutex.
    pub fn lock(&mut self, tid: usize) -> (acquired: bool)
        ensures
            final(self)@ == lock_spec(old(self)@, tid),
            acquired == !old(self)@.locked,
            final(self)@.wf() <== old(self)@.wf(),
    {
        if !self.locked {
            self.locked = true;
            true
        } else {
            self.queue.push(tid);
            false
        }
    }

    /// Release: with waiters present the front waiter is dequeued and
    /// returned so the scheduler can wake it; it owns the mutex from this
    /// moment. With no waiters the mutex becomes free.
    pub fn unlock(&mut self) -> (woken: Option<usize>)
        requires
            old(self)@.wf(),
        ensures
            final(self)@ == unlock_spec(old(self)@),
            woken == (if old(self)@.queue.len() > 0 {
                Some(old(self)@.queue[0])
            } else {
                None::<usize>
            }),
            final(self)@.wf(),
    {
        let next = self.queue.pop();
        if next.is_none() {
            self.locked = false;
        }
        next
    }

    pub fn is_locked(&self) -> (b: bool)
        ensures
            b == self@.locked,
    {
        self.locked
    }

    pub fn waiters(&self) -> (n: usize)
        ensures
            n == self@.queue.len(),
    {
        self.queue.len()
    }
}

/// One event of a blocking-mutex trajectory: a `lock` or an `unlock`, each
/// by the given thread.
pub enum MutexEvent {
    Lock(usize),
    Unlock(usize),
}

/// A blocking-mutex trajectory together with the set of threads currently
/// inside the critical section: a thread enters when its `lock` acquires
/// the mutex or when an `unlock` hands the mutex to it, and leaves with
/// its own `unlock`.
#[verifier::ext_equal]
pub ghost struct MutexTraj {
    pub m: MutexView,
    pub inside: Set<usize>,
}

pub open spec fn traj_init() -> MutexTraj {
    MutexTraj { m: MutexView { locked: false, queue: Seq::<usize>::empty() }, inside: Set::empty() }
}

/// A thread only calls `lock` when it is neither inside the critical
/// section nor already waiting, and only calls `unlock` while inside.
pub open spec fn traj_valid(s: MutexTraj, e: MutexEvent) -> bool {
    match e {
        MutexEvent::Lock(tid) => !s.inside.contains(tid) && !s.m.queue.contains(tid),
        MutexEvent::Unlock(tid) => s.inside.contains(tid),
    }
}

pub open spec fn traj_step(s: MutexTraj, e: MutexEvent) -> MutexTraj {
    match e {
        MutexEvent::Lock(tid) => MutexTraj {
            m: lock_spec(s.m, tid),
            inside: if !s.m.locked {
                s.inside.insert(tid)
            } else {
                s.inside
            },
        },
        MutexEvent::Unlock(tid) => MutexTraj {
            m: unlock_spec(s.m),
            inside: if s.m.queue.len() > 0 {
                s.inside.remove(tid).insert(s.m.queue[0])
            } else {
                s.inside.remove(tid)
            },
        },
    }
}

/// The mutual-exclusion invariant: at most one thread is inside the
/// critical section, the mutex is locked exactly while one is, no thread
/// is simultaneously inside and waiting, and the queue holds no thread
/// twice.
pub open spec fn traj_inv(s: MutexTraj) -> bool {
    &&& s.inside.finite()
    &&& s.inside.len() <= 1
    &&& s.m.locked <==> s.inside.len() == 1
    &&& s.m.wf()
    &&& forall|t: usize| s.inside.contains(t) ==> !s.m.queue.contains(t)
    &&& forall|i: int, j: int|
        0 <= i < j < s.m.queue.len() ==> s.m.queue[i] != s.m.queue[j]
}

/// Mutual exclusion of the blocking mutex: every valid `lock`/`unlock`
/// step preserves the invariant above, so from the initial state no two
/// threads are ever inside the critical section at once, and the mutex is
/// locked exactly while some thread holds it or a handed-off waiter has
/// just been woken.
pub proof fn lemma_mutex_exclusion_step(s: MutexTraj, e: MutexEvent)
    requires
        traj_inv(s),
        traj_valid(s, e),
    ensures
        traj_inv(traj_step(s, e)),
{
    let s2 = traj_step(s, e);
    match e {
        MutexEvent::Lock(tid) => {
            if !s.m.locked {
                assert(s.inside.len() == 0);
                assert(s.inside.insert(tid).len() == 1);
            } else {
                assert(forall|i: int|
                    0 <= i < s2.m.queue.len() ==> s2.m.queue[i] == (if i < s.m.queue.len() {
                        s.m.queue[i]
                    } else {
                        tid
                    }));
            }
        },
        MutexEvent::Unlock(tid) => {
            assert(s.inside.len() == 1);
            assert(s.inside.remove(tid).len() == 0);
            if s.m.queue.len() > 0 {
                let w = s.m.queue[0];
                assert(s.inside.remove(tid).insert(w).len() == 1);
                assert(forall|i: int|
                    0 <= i < s2.m.queue.len() ==> s2.m.queue[i] == s.m.queue[i + 1]);
                assert(forall|t: usize|
                    s2.inside.contains(t) ==> !s2.m.queue.contains(t)) by {
                    assert(forall|i: int|
                        0 <= i < s2.m.queue.len() ==> s2.m.queue[i] != w);
                };
            }
        },
    }
}

/// The machine state after a whole trajectory of events.
pub open spec fn traj_run(events: Seq<MutexEvent>) -> MutexTraj
    decreases events.len(),
{
    if events.len() == 0 {
        traj_init()
    } else {
        traj_step(traj_run(events.drop_last()), events.last())
    }
}

pub open spec fn traj_all_valid(events: Seq<MutexEvent>) -> bool
    decreases events.len(),
{
    events.len() > 0 ==> traj_all_valid(events.drop_last()) && traj_valid(
        traj_run(events.drop_last()),
        events.last(),
    )
}

/// Mutual exclusion over any valid trajectory from a fresh mutex.
pub proof fn lemma_mutex_exclusion(events: Seq<MutexEvent>)
    requires
        traj_all_valid(events),
    ensures
        traj_inv(traj_run(events)),
    decreases events.len(),
{
    if events.len() > 0 {
        lemma_mutex_exclusion(events.drop_last());
        lemma_mutex_exclusion_step(traj_run(events.drop_last()), events.last());
    }
}

/// The mutex state along a trajectory of lock/unlock events, from a fresh
/// mutex.
pub open spec fn mutex_run(events: Seq<MutexEvent>) -> MutexView
    decreases events.len(),
{
    if events.len() == 0 {
        MutexView { locked: false, queue: Seq::<usize>::empty() }
    } else {
        let pre = mutex_run(events.drop_last());
        match events.last() {
            MutexEvent::Lock(tid) => lock_spec(pre, tid),
            MutexEvent::Unlock(_) => unlock_spec(pre),
        }
    }
}

/// The threads that blocked on the mutex along a trajectory, in blocking
/// order.
pub open spec fn mutex_blocked_seq(events: Seq<MutexEvent>) -> Seq<usize>
    decreases events.len(),
{
    if events.len() == 0 {
        Seq::<usize>::empty()
    } else {
        let pre = mutex_run(events.drop_last());
        let b = mutex_blocked_seq(events.drop_last());
        match events.last() {
            MutexEvent::Lock(tid) => if pre.locked {
                b.push(tid)
            } else {
                b
            },
            MutexEvent::Unlock(_) => b,
        }
    }
}

/// The threads the mutex handed ownership to on unlock, in waking order.
pub open spec fn mutex_woken_seq(events: Seq<MutexEvent>) -> Seq<usize>
    decreases events.len(),
{
    if events.len() == 0 {
        Seq::<usize>::empty()
    } else {
        let pre = mutex_run(events.drop_last());
        let w = mutex_woken_seq(events.drop_last());
        match events.last() {
            MutexEvent::Lock(_) => w,
            MutexEvent::Unlock(_) => if pre.queue.len() > 0 {
                w.push(pre.queue[0])
            } else {
                w
            },
        }
    }
}

/// FIFO wake order of the blocking mutex: along any trajectory the
/// threads woken so far are exactly the first `k` that blocked, in the
/// same order, where `k` is the number of handoffs; the still-queued
/// threads are the remainder, in blocking order.
pub proof fn lemma_mutex_fifo(events: Seq<MutexEvent>)
    ensures
        mutex_woken_seq(events).len() <= mutex_blocked_seq(events).len(),
        mutex_woken_seq(events) == mutex_blocked_seq(events).take(
            mutex_woken_seq(events).len() as int,
        ),
        mutex_run(events).queue == mutex_blocked_seq(events).skip(
            mutex_woken_seq(events).len() as int,
        ),
    decreases events.len(),
{
    if events.len() > 0 {
        lemma_mutex_fifo(events.drop_last());
        let pre = mutex_run(events.drop_last());
        let b = mutex_blocked_seq(events.drop_last());
        let w = mutex_woken_seq(events.drop_last());
        let k: int = w.len() as int;
        match events.last() {
            MutexEvent::Lock(tid) => {
                if pre.locked {
                    assert(b.push(tid).skip(k) =~= b.skip(k).push(tid));
                    assert(b.push(tid).take(k) =~= b.take(k));
                }
            },
            MutexEvent::Unlock(_) => {
                if pre.queue.len() > 0 {
                    assert(pre.queue[0] == b[k]);
                    assert(w.push(b[k]) =~= b.take(k + 1));
                    assert(pre.queue.subrange(1, pre.queue.len() as int) =~= b.skip(k + 1));
                }
            },
        }
    }
}

} // verus!
