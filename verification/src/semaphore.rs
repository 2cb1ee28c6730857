use vstd::prelude::*;

use crate::queue::WaitQueue;

verus! {

/// Abstract state of a counting semaphore: a signed count and the FIFO
/// queue of blocked thread ids. Whenever the count is negative, its
/// magnitude is the number of blocked waiters.
#[verifier::ext_equal]
pub ghost struct SemView {
    pub count: int,
    pub queue: Seq<usize>,
}

impl SemView {
    /// The queue holds exactly the threads that found the count exhausted:
    /// a non-negative count means nobody waits, a negative count `-k` means
    /// exactly `k` waiters.
    pub open spec fn wf(self) -> bool {
        &&& self.count >= 0 ==> self.queue.len() == 0
        &&& self.count < 0 ==> self.queue.len() == -self.count
    }
}

/// State after a `down` by thread `tid`: the count drops by one, and the
/// caller joins the queue exactly when the new count is negative.
pub open spec fn down_spec(s: SemView, tid: usize) -> SemView {
    SemView {
        count: s.count - 1,
        queue: if s.count - 1 < 0 {
            s.queue.push(tid)
        } else {
            s.queue
        },
    }
}

/// State after an `up`: the count rises by one, and when the new count is
/// still non-positive the front waiter leaves the queue (it is woken).
pub open spec fn up_spec(s: SemView) -> SemView {
    SemView {
        count: s.count + 1,
        queue: if s.count + 1 <= 0 && s.queue.len() > 0 {
            s.queue.subrange(1, s.queue.len() as int)
        } else {
            s.queue
        },
    }
}

/// A counting semaphore over a FIFO wait queue. `count` may go negative
/// while threads are blocked.
pub struct Semaphore {
    count: i32,
    queue: WaitQueue,
}

impl View for Semaphore {
    type V = SemView;

    closed spec fn view(&self) -> SemView {
        SemView { count: self.count as int, queue: self.queue@ }
    }
}

impl Semaphore {
    pub fn new(res_count: usize) -> (s: Semaphore)
        requires
            res_count <= i32::MAX,
        ensures
            s@ == (SemView { count: res_count as int, queue: Seq::<usize>::empty() }),
            s@.wf(),
    {
        Semaphore { count: res_count as i32, queue: WaitQueue::new() }
    }

    /// Decrement the count; the caller proceeds when the old count was
    /// positive and otherwise is enqueued and must block.
    pub fn down(&mut self, tid: usize) -> (proceed: bool)
        requires
            old(self)@.count > i32::MIN,
        ensures
            final(self)@ == down_spec(old(self)@, tid),
            proceed == (old(self)@.count > 0),
            final(self)@.wf() <== old(self)@.wf(),
    {
        self.count = self.count - 1;
        if self.count < 0 {
            self.queue.push(tid);
            false
        } else {
            true
        }
    }

    /// Increment the count; when waiters are present (old count negative)
    /// the front waiter is dequeued and returned so the scheduler can wake
    /// it.
    pub fn up(&mut self) -> (woken: Option<usize>)
        requires
            old(self)@.count < i32::MAX,
            old(self)@.wf(),
        ensures
            final(self)@ == up_spec(old(self)@),
            woken == (if old(self)@.count < 0 {
                Some(old(self)@.queue[0])
            } else {
                None::<usize>
            }),
            final(self)@.wf(),
    {
        self.count = self.count + 1;
        if self.count <= 0 {
            self.queue.pop()
        } else {
            None
        }
    }

    pub fn count(&self) -> (c: i32)
        ensures
            c == self@.count,
    {
        self.count
    }

    pub fn waiters(&self) -> (n: usize)
        ensures
            n == self@.queue.len(),
    {
        self.queue.len()
    }
}

/// One event of a semaphore trajectory: a `down` by the given thread, or an
/// `up` (by any thread).
pub enum SemEvent {
    Down(usize),
    Up,
}

/// The state a fresh semaphore with `n` initial units starts in.
pub open spec fn sem_init(n: usize) -> SemView {
    SemView { count: n as int, queue: Seq::<usize>::empty() }
}

pub open spec fn sem_step(s: SemView, e: SemEvent) -> SemView {
    match e {
        SemEvent::Down(tid) => down_spec(s, tid),
        SemEvent::Up => up_spec(s),
    }
}

/// The state of a semaphore created with `n` units after the given
/// trajectory of `down`/`up` events.
pub open spec fn sem_run(n: usize, events: Seq<SemEvent>) -> SemView
    decreases events.len(),
{
    if events.len() == 0 {
        sem_init(n)
    } else {
        sem_step(sem_run(n, events.drop_last()), events.last())
    }
}

pub open spec fn downs(events: Seq<SemEvent>) -> int
    decreases events.len(),
{
    if events.len() == 0 {
        0
    } else {
        downs(events.drop_last()) + if events.last() is Down {
            1int
        } else {
            0int
        }
    }
}

pub open spec fn ups(events: Seq<SemEvent>) -> int
    decreases events.len(),
{
    if events.len() == 0 {
        0
    } else {
        ups(events.drop_last()) + if events.last() is Up {
            1int
        } else {
            0int
        }
    }
}

/// Conservation along any trajectory: the count is always the initial unit
/// count minus the downs plus the ups, and the queue length is exactly the
/// negative part of the count.
pub proof fn lemma_semaphore_conservation(n: usize, events: Seq<SemEvent>)
    ensures
        sem_run(n, events).count == n - downs(events) + ups(events),
        sem_run(n, events).wf(),
    decreases events.len(),
{
    if events.len() > 0 {
        lemma_semaphore_conservation(n, events.drop_last());
    }
}

/// Balance law: at every observation point at which no thread is blocked,
/// `count + |wait queue|` equals the initial unit count minus the total
/// downs plus the total ups. (While threads are blocked the whole balance
/// sits in the negative count and the queue mirrors it; see
/// `lemma_semaphore_conservation`.)
pub proof fn lemma_semaphore_balance(n: usize, events: Seq<SemEvent>)
    requires
        sem_run(n, events).queue.len() == 0,
    ensures
        sem_run(n, events).count + sem_run(n, events).queue.len() == n - downs(events) + ups(
            events,
        ),
{
    lemma_semaphore_conservation(n, events);
}

/// The threads that blocked along a trajectory, in blocking order.
pub open spec fn blocked_seq(n: usize, events: Seq<SemEvent>) -> Seq<usize>
    decreases events.len(),
{
    if events.len() == 0 {
        Seq::<usize>::empty()
    } else {
        let pre = sem_run(n, events.drop_last());
        let b = blocked_seq(n, events.drop_last());
        match events.last() {
            SemEvent::Down(tid) => if pre.count - 1 < 0 {
                b.push(tid)
            } else {
                b
            },
            SemEvent::Up => b,
        }
    }
}

/// The threads woken along a trajectory, in waking order.
pub open spec fn woken_seq(n: usize, events: Seq<SemEvent>) -> Seq<usize>
    decreases events.len(),
{
    if events.len() == 0 {
        Seq::<usize>::empty()
    } else {
        let pre = sem_run(n, events.drop_last());
        let w = woken_seq(n, events.drop_last());
        match events.last() {
            SemEvent::Down(_) => w,
            SemEvent::Up => if pre.count < 0 {
                w.push(pre.queue[0])
            } else {
                w
            },
        }
    }
}

/// FIFO wake order: along any trajectory, the threads woken so far are
/// exactly the first `k` threads that blocked, in the same order, where `k`
/// is the number of wakes; the still-blocked threads are the remainder, in
/// blocking order.
pub proof fn lemma_semaphore_fifo(n: usize, events: Seq<SemEvent>)
    ensures
        woken_seq(n, events).len() <= blocked_seq(n, events).len(),
        woken_seq(n, events) == blocked_seq(n, events).take(woken_seq(n, events).len() as int),
        sem_run(n, events).queue == blocked_seq(n, events).skip(woken_seq(n, events).len() as int),
    decreases events.len(),
{
    if events.len() > 0 {
        lemma_semaphore_fifo(n, events.drop_last());
        lemma_semaphore_conservation(n, events.drop_last());
        let pre = sem_run(n, events.drop_last());
        let b = blocked_seq(n, events.drop_last());
        let w = woken_seq(n, events.drop_last());
        let k: int = w.len() as int;
        match events.last() {
            SemEvent::Down(tid) => {
                if pre.count - 1 < 0 {
                    assert(b.push(tid).skip(k) =~= b.skip(k).push(tid));
                    assert(b.push(tid).take(k) =~= b.take(k));
                }
            },
            SemEvent::Up => {
                if pre.count < 0 {
                    assert(pre.queue[0] == b[k]);
                    assert(w.push(b[k]) =~= b.take(k + 1));
                    assert(pre.queue.subrange(1, pre.queue.len() as int) =~= b.skip(k + 1));
                }
            },
        }
    }
}

} // verus!
