use vstd::prelude::*;

use crate::condvar::{CondWaiter, Condvar};
use crate::detect::{DeadlockDetect, DetectView, zero_row};
use crate::mutex::{MutexBlocking, MutexSpin};
use crate::semaphore::Semaphore;
use crate::task::{TaskControlBlock, TaskStatus};

verus! {

/// The two mutex flavours a slot of the mutex table can hold.
pub enum MutexKind {
    Spin(MutexSpin),
    Blocking(MutexBlocking),
}

/// A per-class detector instance together with the number of primitives
/// that predate it. Primitives created while detection was off are not
/// tracked; a slot id `s >= base` corresponds to the dense detector
/// resource id `s - base`.
pub struct ClassDetect {
    pub base: usize,
    pub detect: DeadlockDetect,
}

/// Abstract state of an optional per-class detector.
#[verifier::ext_equal]
pub ghost struct ClassView {
    pub base: int,
    pub d: DetectView,
}

pub open spec fn class_view(cd: Option<ClassDetect>) -> Option<ClassView> {
    match cd {
        Option::None => Option::None,
        Option::Some(c) => Option::Some(ClassView { base: c.base as int, d: c.detect@ }),
    }
}

/// A well-formed class detector covers exactly the threads of the process
/// and the primitives created since it was instantiated.
pub open spec fn class_wf(cd: Option<ClassView>, list_len: nat, threads: nat) -> bool {
    match cd {
        Option::None => true,
        Option::Some(c) => c.d.wf() && c.d.threads() == threads && 0 <= c.base && c.base
            + c.d.resources() == list_len,
    }
}

/// The class detector after a new primitive of capacity `amount` is
/// registered.
pub open spec fn class_after_resource(cd: Option<ClassView>, amount: u32) -> Option<ClassView> {
    match cd {
        Option::None => Option::None,
        Option::Some(c) => Option::Some(
            ClassView { base: c.base, d: crate::detect::resource_added(c.d, amount) },
        ),
    }
}

/// The class detector after a new thread is registered.
pub open spec fn class_after_thread(cd: Option<ClassView>) -> Option<ClassView> {
    match cd {
        Option::None => Option::None,
        Option::Some(c) => Option::Some(
            ClassView { base: c.base, d: crate::detect::thread_added(c.d) },
        ),
    }
}

/// A detector freshly instantiated over `threads` existing threads and no
/// resources: `base` pre-existing primitives stay untracked.
pub open spec fn fresh_class(base: nat, threads: nat) -> ClassView {
    ClassView {
        base: base as int,
        d: DetectView {
            avail: Seq::<u32>::empty(),
            alloc: Seq::new(threads, |i: int| Seq::<u32>::empty()),
            need: Seq::new(threads, |i: int| Seq::<u32>::empty()),
            cap: Seq::<int>::empty(),
        },
    }
}

/// Every thread id in the queue names an existing thread.
pub open spec fn tids_ok(q: Seq<usize>, threads: nat) -> bool {
    forall|k: int| 0 <= k < q.len() ==> #[trigger] q[k] < threads
}

/// Every condvar waiter names an existing thread and an allocated mutex
/// slot.
pub open spec fn cond_entries_ok(
    q: Seq<CondWaiter>,
    mutexes: Seq<Option<MutexKind>>,
    threads: nat,
) -> bool {
    forall|k: int|
        0 <= k < q.len() ==> (#[trigger] q[k]).tid < threads && q[k].mutex_id < mutexes.len()
            && mutexes[q[k].mutex_id as int] is Some
}

/// How often thread `t` sits in one wait queue of thread ids.
pub open spec fn queue_count(q: Seq<usize>, t: usize) -> nat
    decreases q.len(),
{
    if q.len() == 0 {
        0
    } else {
        queue_count(q.drop_last(), t) + if q.last() == t {
            1nat
        } else {
            0nat
        }
    }
}

/// How often thread `t` waits in one condvar queue.
pub open spec fn cv_count(q: Seq<CondWaiter>, t: usize) -> nat
    decreases q.len(),
{
    if q.len() == 0 {
        0
    } else {
        cv_count(q.drop_last(), t) + if q.last().tid == t {
            1nat
        } else {
            0nat
        }
    }
}

/// How often thread `t` sleeps on the timer list.
pub open spec fn timer_count(ts: Seq<(usize, usize)>, t: usize) -> nat
    decreases ts.len(),
{
    if ts.len() == 0 {
        0
    } else {
        timer_count(ts.drop_last(), t) + if ts.last().1 == t {
            1nat
        } else {
            0nat
        }
    }
}

/// The occurrences of `t` in one mutex slot's wait queue (spinning
/// mutexes have none).
pub open spec fn mutex_slot_count(s: Option<MutexKind>, t: usize) -> nat {
    match s {
        Option::Some(MutexKind::Blocking(m)) => queue_count(m@.queue, t),
        _ => 0,
    }
}

pub open spec fn mutex_slots_count(ms: Seq<Option<MutexKind>>, t: usize) -> nat
    decreases ms.len(),
{
    if ms.len() == 0 {
        0
    } else {
        mutex_slots_count(ms.drop_last(), t) + mutex_slot_count(ms.last(), t)
    }
}

pub open spec fn sem_slot_count(s: Option<Semaphore>, t: usize) -> nat {
    match s {
        Option::Some(x) => queue_count(x@.queue, t),
        Option::None => 0,
    }
}

pub open spec fn sem_slots_count(ss: Seq<Option<Semaphore>>, t: usize) -> nat
    decreases ss.len(),
{
    if ss.len() == 0 {
        0
    } else {
        sem_slots_count(ss.drop_last(), t) + sem_slot_count(ss.last(), t)
    }
}

pub open spec fn cv_slot_count(s: Option<Condvar>, t: usize) -> nat {
    match s {
        Option::Some(c) => cv_count(c@, t),
        Option::None => 0,
    }
}

pub open spec fn cv_slots_count(cs: Seq<Option<Condvar>>, t: usize) -> nat
    decreases cs.len(),
{
    if cs.len() == 0 {
        0
    } else {
        cv_slots_count(cs.drop_last(), t) + cv_slot_count(cs.last(), t)
    }
}

pub proof fn lemma_queue_count_push(q: Seq<usize>, x: usize, t: usize)
    ensures
        queue_count(q.push(x), t) == queue_count(q, t) + if x == t {
            1nat
        } else {
            0nat
        },
{
    assert(q.push(x).drop_last() =~= q);
}

pub proof fn lemma_queue_count_drop_first(q: Seq<usize>, t: usize)
    requires
        q.len() > 0,
    ensures
        queue_count(q, t) == queue_count(q.subrange(1, q.len() as int), t) + if q[0] == t {
            1nat
        } else {
            0nat
        },
    decreases q.len(),
{
    let rest = q.subrange(1, q.len() as int);
    if q.len() == 1 {
        assert(rest =~= Seq::<usize>::empty());
        assert(queue_count(rest, t) == 0);
        assert(q.drop_last() =~= Seq::<usize>::empty());
        assert(queue_count(q.drop_last(), t) == 0);
        assert(queue_count(q, t) == queue_count(q.drop_last(), t) + if q.last() == t {
            1nat
        } else {
            0nat
        });
        assert(q.last() == q[0]);
    } else {
        lemma_queue_count_drop_first(q.drop_last(), t);
        assert(q.drop_last()[0] == q[0]);
        assert(rest.drop_last() =~= q.drop_last().subrange(1, q.drop_last().len() as int));
        assert(rest.last() == q.last());
    }
}

pub proof fn lemma_cv_count_push(q: Seq<CondWaiter>, x: CondWaiter, t: usize)
    ensures
        cv_count(q.push(x), t) == cv_count(q, t) + if x.tid == t {
            1nat
        } else {
            0nat
        },
{
    assert(q.push(x).drop_last() =~= q);
}

pub proof fn lemma_cv_count_drop_first(q: Seq<CondWaiter>, t: usize)
    requires
        q.len() > 0,
    ensures
        cv_count(q, t) == cv_count(q.subrange(1, q.len() as int), t) + if q[0].tid == t {
            1nat
        } else {
            0nat
        },
    decreases q.len(),
{
    let rest = q.subrange(1, q.len() as int);
    if q.len() == 1 {
        assert(rest =~= Seq::<CondWaiter>::empty());
        assert(cv_count(rest, t) == 0);
        assert(q.drop_last() =~= Seq::<CondWaiter>::empty());
        assert(cv_count(q.drop_last(), t) == 0);
        assert(cv_count(q, t) == cv_count(q.drop_last(), t) + if q.last().tid == t {
            1nat
        } else {
            0nat
        });
        assert(q.last() == q[0]);
    } else {
        lemma_cv_count_drop_first(q.drop_last(), t);
        assert(q.drop_last()[0] == q[0]);
        assert(rest.drop_last() =~= q.drop_last().subrange(1, q.drop_last().len() as int));
        assert(rest.last() == q.last());
    }
}

pub proof fn lemma_timer_count_push(ts: Seq<(usize, usize)>, x: (usize, usize), t: usize)
    ensures
        timer_count(ts.push(x), t) == timer_count(ts, t) + if x.1 == t {
            1nat
        } else {
            0nat
        },
{
    assert(ts.push(x).drop_last() =~= ts);
}

pub proof fn lemma_timer_count_remove(ts: Seq<(usize, usize)>, i: int, t: usize)
    requires
        0 <= i < ts.len(),
    ensures
        timer_count(ts, t) == timer_count(ts.remove(i), t) + if ts[i].1 == t {
            1nat
        } else {
            0nat
        },
    decreases ts.len(),
{
    let rest = ts.remove(i);
    if i == ts.len() - 1 {
        assert(rest =~= ts.drop_last());
    } else {
        lemma_timer_count_remove(ts.drop_last(), i, t);
        assert(rest.drop_last() =~= ts.drop_last().remove(i));
        assert(rest.last() == ts.last());
    }
}

pub proof fn lemma_mutex_slots_push(ms: Seq<Option<MutexKind>>, v: Option<MutexKind>, t: usize)
    ensures
        mutex_slots_count(ms.push(v), t) == mutex_slots_count(ms, t) + mutex_slot_count(v, t),
{
    assert(ms.push(v).drop_last() =~= ms);
}

pub proof fn lemma_mutex_slots_update(
    ms: Seq<Option<MutexKind>>,
    i: int,
    v: Option<MutexKind>,
    t: usize,
)
    requires
        0 <= i < ms.len(),
    ensures
        mutex_slots_count(ms.update(i, v), t) + mutex_slot_count(ms[i], t) == mutex_slots_count(
            ms,
            t,
        ) + mutex_slot_count(v, t),
    decreases ms.len(),
{
    let m2 = ms.update(i, v);
    if i == ms.len() - 1 {
        assert(m2.drop_last() =~= ms.drop_last());
        assert(m2.last() == v);
        assert(ms.last() == ms[i]);
    } else {
        lemma_mutex_slots_update(ms.drop_last(), i, v, t);
        assert(m2.drop_last() =~= ms.drop_last().update(i, v));
        assert(m2.last() == ms.last());
    }
}

pub proof fn lemma_sem_slots_push(ss: Seq<Option<Semaphore>>, v: Option<Semaphore>, t: usize)
    ensures
        sem_slots_count(ss.push(v), t) == sem_slots_count(ss, t) + sem_slot_count(v, t),
{
    assert(ss.push(v).drop_last() =~= ss);
}

pub proof fn lemma_sem_slots_update(
    ss: Seq<Option<Semaphore>>,
    i: int,
    v: Option<Semaphore>,
    t: usize,
)
    requires
        0 <= i < ss.len(),
    ensures
        sem_slots_count(ss.update(i, v), t) + sem_slot_count(ss[i], t) == sem_slots_count(ss, t)
            + sem_slot_count(v, t),
    decreases ss.len(),
{
    let s2 = ss.update(i, v);
    if i == ss.len() - 1 {
        assert(s2.drop_last() =~= ss.drop_last());
        assert(s2.last() == v);
        assert(ss.last() == ss[i]);
    } else {
        lemma_sem_slots_update(ss.drop_last(), i, v, t);
        assert(s2.drop_last() =~= ss.drop_last().update(i, v));
        assert(s2.last() == ss.last());
    }
}

pub proof fn lemma_cv_slots_push(cs: Seq<Option<Condvar>>, v: Option<Condvar>, t: usize)
    ensures
        cv_slots_count(cs.push(v), t) == cv_slots_count(cs, t) + cv_slot_count(v, t),
{
    assert(cs.push(v).drop_last() =~= cs);
}

pub proof fn lemma_cv_slots_update(cs: Seq<Option<Condvar>>, i: int, v: Option<Condvar>, t: usize)
    requires
        0 <= i < cs.len(),
    ensures
        cv_slots_count(cs.update(i, v), t) + cv_slot_count(cs[i], t) == cv_slots_count(cs, t)
            + cv_slot_count(v, t),
    decreases cs.len(),
{
    let c2 = cs.update(i, v);
    if i == cs.len() - 1 {
        assert(c2.drop_last() =~= cs.drop_last());
        assert(c2.last() == v);
        assert(cs.last() == cs[i]);
    } else {
        lemma_cv_slots_update(cs.drop_last(), i, v, t);
        assert(c2.drop_last() =~= cs.drop_last().update(i, v));
        assert(c2.last() == cs.last());
    }
}

/// Two states with the same queue-bearing fields queue every thread
/// equally often.
pub proof fn lemma_queued_count_same(a: ProcessSync, b: ProcessSync, t: usize)
    requires
        a.mutexes@ == b.mutexes@,
        a.semaphores@ == b.semaphores@,
        a.condvars@ == b.condvars@,
        a.timers@ == b.timers@,
    ensures
        a.queued_count(t) == b.queued_count(t),
{
}

/// Per-process synchronization state: the thread table, the three
/// primitive slot tables, the optional per-class deadlock detectors, and
/// the pending sleep timers. The scheduler and the timer are external:
/// blocking and waking show up here as thread-status transitions, and the
/// current time is handed in where needed.
pub struct ProcessSync {
    pub tasks: Vec<TaskControlBlock>,
    pub mutexes: Vec<Option<MutexKind>>,
    pub semaphores: Vec<Option<Semaphore>>,
    pub condvars: Vec<Option<Condvar>>,
    pub mutex_detect: Option<ClassDetect>,
    pub semaphore_detect: Option<ClassDetect>,
    pub timers: Vec<(usize, usize)>,
}

impl ProcessSync {
    /// How often thread `t` sits in wait queues of this process, over all
    /// blocking mutexes, semaphores, condition variables and the timer
    /// list.
    pub open spec fn queued_count(self, t: usize) -> nat {
        mutex_slots_count(self.mutexes@, t) + sem_slots_count(self.semaphores@, t)
            + cv_slots_count(self.condvars@, t) + timer_count(self.timers@, t)
    }

    /// The process-wide invariant: detectors cover the threads and the
    /// primitives created since they were enabled, primitives are
    /// well-formed, every queued thread id or mutex slot reference is in
    /// range, and a thread sits in at most one wait queue — and is
    /// blocked while it does.
    pub open spec fn wf(self) -> bool {
        &&& forall|t: usize| #[trigger] self.queued_count(t) <= 1
        &&& forall|t: usize|
            #[trigger] self.queued_count(t) == 1 ==> t < self.tasks@.len()
                && self.tasks@[t as int].task_status is Blocked
        &&& class_wf(class_view(self.mutex_detect), self.mutexes@.len(), self.tasks@.len())
        &&& class_wf(
            class_view(self.semaphore_detect),
            self.semaphores@.len(),
            self.tasks@.len(),
        )
        &&& forall|i: int|
            0 <= i < self.mutexes@.len() ==> (#[trigger] self.mutexes@[i] matches Some(
                MutexKind::Blocking(m),
            ) ==> m@.wf() && tids_ok(m@.queue, self.tasks@.len()))
        &&& forall|i: int|
            0 <= i < self.semaphores@.len() ==> (#[trigger] self.semaphores@[i] matches Some(s)
                ==> s@.wf() && tids_ok(s@.queue, self.tasks@.len()))
        &&& forall|i: int|
            0 <= i < self.condvars@.len() ==> (#[trigger] self.condvars@[i] matches Some(c)
                ==> cond_entries_ok(c@, self.mutexes@, self.tasks@.len()))
        &&& forall|k: int|
            0 <= k < self.timers@.len() ==> (#[trigger] self.timers@[k]).1 < self.tasks@.len()
    }

    /// A process with no threads registered and no primitives yet;
    /// detection starts disabled.
    pub fn new() -> (p: ProcessSync)
        ensures
            p.wf(),
            p.tasks@ == Seq::<TaskControlBlock>::empty(),
            p.mutexes@ == Seq::<Option<MutexKind>>::empty(),
            p.semaphores@ == Seq::<Option<Semaphore>>::empty(),
            p.condvars@ == Seq::<Option<Condvar>>::empty(),
            p.mutex_detect is None,
            p.semaphore_detect is None,
            p.timers@ == Seq::<(usize, usize)>::empty(),
    {
        ProcessSync {
            tasks: Vec::new(),
            mutexes: Vec::new(),
            semaphores: Vec::new(),
            condvars: Vec::new(),
            mutex_detect: None,
            semaphore_detect: None,
            timers: Vec::new(),
        }
    }

    /// Register a newly spawned thread: it gets the next dense tid,
    /// starts ready, and is added to both detectors when they exist.
    pub fn create_thread(&mut self) -> (tid: usize)
        requires
            old(self).wf(),
        ensures
            final(self).wf(),
            tid == old(self).tasks@.len(),
            final(self).tasks@ == old(self).tasks@.push(
                TaskControlBlock { task_status: TaskStatus::Ready, time: None },
            ),
            final(self).mutexes@ == old(self).mutexes@,
            final(self).semaphores@ == old(self).semaphores@,
            final(self).condvars@ == old(self).condvars@,
            final(self).timers@ == old(self).timers@,
            class_view(final(self).mutex_detect) == class_after_thread(
                class_view(old(self).mutex_detect),
            ),
            class_view(final(self).semaphore_detect) == class_after_thread(
                class_view(old(self).semaphore_detect),
            ),
    {
        let tid = self.tasks.len();
        self.tasks.push(TaskControlBlock { task_status: TaskStatus::Ready, time: None });
        if let Some(cd) = &mut self.mutex_detect {
            cd.detect.push_thread_id(tid);
        }
        if let Some(cd) = &mut self.semaphore_detect {
            cd.detect.push_thread_id(tid);
        }
        proof {
            assert forall|t: usize| #[trigger] self.queued_count(t) == old(self).queued_count(
                t,
            ) by {
                lemma_queued_count_same(*self, *old(self), t);
            }
        }
        tid
    }

    /// Instantiate the per-class detectors (idempotent per class). All
    /// existing threads are registered with a fresh detector; primitives
    /// that already exist stay untracked, so the detector's dense
    /// resource ids start at the current table lengths.
    pub fn enable_deadlock_detect(&mut self)
        requires
            old(self).wf(),
        ensures
            final(self).wf(),
            final(self).tasks@ == old(self).tasks@,
            final(self).mutexes@ == old(self).mutexes@,
            final(self).semaphores@ == old(self).semaphores@,
            final(self).condvars@ == old(self).condvars@,
            final(self).timers@ == old(self).timers@,
            old(self).mutex_detect is Some ==> class_view(final(self).mutex_detect) == class_view(
                old(self).mutex_detect,
            ),
            old(self).mutex_detect is None ==> class_view(final(self).mutex_detect) == Some(
                fresh_class(old(self).mutexes@.len(), old(self).tasks@.len()),
            ),
            old(self).semaphore_detect is Some ==> class_view(final(self).semaphore_detect)
                == class_view(old(self).semaphore_detect),
            old(self).semaphore_detect is None ==> class_view(final(self).semaphore_detect)
                == Some(fresh_class(old(self).semaphores@.len(), old(self).tasks@.len())),
    {
        let threads = self.tasks.len();
        if self.mutex_detect.is_none() {
            let d = fresh_detector(threads);
            self.mutex_detect = Some(ClassDetect { base: self.mutexes.len(), detect: d });
        }
        if self.semaphore_detect.is_none() {
            let d = fresh_detector(threads);
            self.semaphore_detect = Some(ClassDetect { base: self.semaphores.len(), detect: d });
        }
        proof {
            assert forall|t: usize| #[trigger] self.queued_count(t) == old(self).queued_count(
                t,
            ) by {
                lemma_queued_count_same(*self, *old(self), t);
            }
        }
    }
}

/// A detector with all `threads` existing threads registered and no
/// resources yet.
fn fresh_detector(threads: usize) -> (d: DeadlockDetect)
    ensures
        d@ == (fresh_class(0, threads as nat).d),
        d@.wf(),
{
    let mut d = DeadlockDetect::new();
    let mut i: usize = 0;
    while i < threads
        invariant
            i <= threads,
            d@.wf(),
            d@.threads() == i,
            d@.resources() == 0,
            d@.avail == Seq::<u32>::empty(),
            d@.cap == Seq::<int>::empty(),
            forall|k: int| 0 <= k < i ==> #[trigger] d@.alloc[k] == Seq::<u32>::empty(),
            forall|k: int| 0 <= k < i ==> #[trigger] d@.need[k] == Seq::<u32>::empty(),
        decreases threads - i,
    {
        d.push_thread_id(i);
        proof {
            assert(zero_row(0) =~= Seq::<u32>::empty());
        }
        i = i + 1;
    }
    proof {
        assert(d@.alloc =~= fresh_class(0, threads as nat).d.alloc);
        assert(d@.need =~= fresh_class(0, threads as nat).d.need);
        assert(d@ =~~= fresh_class(0, threads as nat).d);
    }
    d
}

/// One child of a process, as the wait/exit bookkeeping sees it.
#[derive(Copy, Clone, Debug, PartialEq, Eq, Structural)]
pub struct ChildProc {
    pub pid: usize,
    /// True once the child has exited and waits to be reaped.
    pub zombie: bool,
    pub exit_code: i32,
}

/// The process-lifecycle state the syscall surface reads and writes: its
/// own pid, its scheduling priority, and its children. Address spaces,
/// signal delivery and the scheduler itself are external collaborators.
pub struct Process {
    pub pid: usize,
    pub priority: u16,
    pub children: Vec<ChildProc>,
}

} // verus!
