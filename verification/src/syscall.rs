use vstd::prelude::*;

use crate::condvar::{CondWaiter, Condvar};
use crate::detect::{grant_after, grant_ok, release_spec, request_spec, DetectView};
use crate::mutex::{lock_spec, unlock_spec, MutexBlocking, MutexSpin, MutexView};
use crate::process::{
    class_view, mutex_slot_count, queue_count, ChildProc, ClassView, MutexKind, Process,
    ProcessSync,
};
use crate::semaphore::{down_spec, up_spec, SemView, Semaphore};
use crate::task::{TaskControlBlock, TaskStatus};

verus! {

/// The code an acquisition syscall returns when the deadlock detector
/// refuses the request as unsafe.
pub const DEADLOCK_CODE: isize = -0xdead;

/// `a` is `b` with at most the entry at `i` changed.
pub open spec fn seq_same_except<T>(a: Seq<T>, b: Seq<T>, i: int) -> bool {
    a.len() == b.len() && forall|k: int| 0 <= k < a.len() && k != i ==> a[k] == b[k]
}

pub open spec fn slot_is_spin(s: Option<MutexKind>, locked: bool) -> bool {
    s matches Some(MutexKind::Spin(m)) && m@ == locked
}

pub open spec fn slot_is_blocking(s: Option<MutexKind>, v: MutexView) -> bool {
    s matches Some(MutexKind::Blocking(m)) && m@ == v
}

/// Whether the detector of a class, if any, covers slot `id` (slots
/// predating the detector are untracked) and lets thread `tid` acquire
/// it.
pub open spec fn class_acquire_ok(cv: Option<ClassView>, tid: int, id: int) -> bool {
    match cv {
        Option::None => true,
        Option::Some(c) => id < c.base || grant_ok(
            request_spec(c.d, tid, id - c.base),
            tid,
            id - c.base,
        ),
    }
}

/// The class detector after the acquisition bookkeeping of `sys_*_lock` /
/// `sys_semaphore_down` ran for slot `id` (a no-op on uncovered slots).
pub open spec fn class_after_acquire(cv: Option<ClassView>, tid: int, id: int) -> Option<
    ClassView,
> {
    match cv {
        Option::None => Option::None,
        Option::Some(c) => if id < c.base {
            cv
        } else {
            Option::Some(
                ClassView {
                    base: c.base,
                    d: grant_after(request_spec(c.d, tid, id - c.base), tid, id - c.base),
                },
            )
        },
    }
}

/// The class detector after the release bookkeeping of `sys_*_unlock` /
/// `sys_semaphore_up` ran for slot `id` (a no-op on uncovered slots).
pub open spec fn class_after_release(cv: Option<ClassView>, tid: int, id: int) -> Option<
    ClassView,
> {
    match cv {
        Option::None => Option::None,
        Option::Some(c) => if id < c.base {
            cv
        } else {
            Option::Some(ClassView { base: c.base, d: release_spec(c.d, tid, id - c.base) })
        },
    }
}

/// The machine-limit bound a covered acquisition needs: the outstanding
/// request count of this thread for this slot is not yet saturated.
pub open spec fn class_request_ok(cv: Option<ClassView>, tid: int, id: int) -> bool {
    match cv {
        Option::None => true,
        Option::Some(c) => id < c.base || c.d.need[tid][id - c.base] < u32::MAX,
    }
}

/// Mutex create syscall: a new mutex occupies the next slot (this core
/// never frees slots, so the lowest free slot is the end of the table)
/// and, when a detector is enabled, is registered with it as a
/// single-unit resource.
pub fn sys_mutex_create(p: &mut ProcessSync, blocking: bool) -> (id: isize)
    requires
        old(p).wf(),
        old(p).mutexes@.len() + 1 <= isize::MAX,
    ensures
        final(p).wf(),
        id == old(p).mutexes@.len(),
        final(p).mutexes@.len() == old(p).mutexes@.len() + 1,
        seq_same_except(final(p).mutexes@, old(p).mutexes@.push(None), id as int),
        blocking ==> slot_is_blocking(
            final(p).mutexes@[id as int],
            MutexView { locked: false, queue: Seq::<usize>::empty() },
        ),
        !blocking ==> slot_is_spin(final(p).mutexes@[id as int], false),
        final(p).tasks@ == old(p).tasks@,
        final(p).semaphores@ == old(p).semaphores@,
        final(p).condvars@ == old(p).condvars@,
        final(p).timers@ == old(p).timers@,
        class_view(final(p).semaphore_detect) == class_view(old(p).semaphore_detect),
        class_view(final(p).mutex_detect) == crate::process::class_after_resource(
            class_view(old(p).mutex_detect),
            1,
        ),
    {
        let id = p.mutexes.len();
        if blocking {
            p.mutexes.push(Some(MutexKind::Blocking(MutexBlocking::new())));
        } else {
            p.mutexes.push(Some(MutexKind::Spin(MutexSpin::new())));
        }
        if let Some(cd) = &mut p.mutex_detect {
            let rid = id - cd.base;
            cd.detect.push_resource_id(rid, 1);
        }
        proof {
            let v = p.mutexes@.last();
            assert forall|t: usize| #[trigger] p.queued_count(t) == old(p).queued_count(t) by {
                assert(p.mutexes@ =~= old(p).mutexes@.push(v));
                crate::process::lemma_mutex_slots_push(old(p).mutexes@, v, t);
                assert(queue_count(Seq::<usize>::empty(), t) == 0);
                assert(mutex_slot_count(v, t) == 0);
            }
        }
        id as isize
    }

/// Mutex lock syscall for thread `tid`. With a detector covering the
/// slot, the request is recorded first, and a grant the safety check
/// refuses returns `DEADLOCK_CODE`: the request stays on the books, the
/// mutex is untouched and the caller does not block. Otherwise a free
/// mutex is taken at once; a held blocking mutex enqueues the caller,
/// which blocks until ownership is handed to it; a held spinning mutex is
/// left unchanged (the caller yields and attempts again). The returned 0
/// is what the call delivers to user space once the thread runs again.
pub fn sys_mutex_lock(p: &mut ProcessSync, tid: usize, mutex_id: usize) -> (r: isize)
    requires
        old(p).wf(),
        tid < old(p).tasks@.len(),
        mutex_id < old(p).mutexes@.len(),
        old(p).mutexes@[mutex_id as int] is Some,
        old(p).tasks@[tid as int].task_status is Ready,
        class_request_ok(class_view(old(p).mutex_detect), tid as int, mutex_id as int),
    ensures
        final(p).wf(),
        final(p).semaphores@ == old(p).semaphores@,
        final(p).condvars@ == old(p).condvars@,
        final(p).timers@ == old(p).timers@,
        class_view(final(p).semaphore_detect) == class_view(old(p).semaphore_detect),
        class_view(final(p).mutex_detect) == class_after_acquire(
            class_view(old(p).mutex_detect),
            tid as int,
            mutex_id as int,
        ),
        !class_acquire_ok(class_view(old(p).mutex_detect), tid as int, mutex_id as int) ==> r
            == DEADLOCK_CODE && final(p).mutexes@ == old(p).mutexes@
            && final(p).tasks@ == old(p).tasks@,
        class_acquire_ok(class_view(old(p).mutex_detect), tid as int, mutex_id as int) ==> r == 0
            && seq_same_except(final(p).mutexes@, old(p).mutexes@, mutex_id as int) && {
            ||| (old(p).mutexes@[mutex_id as int] matches Some(MutexKind::Spin(m))
                && slot_is_spin(final(p).mutexes@[mutex_id as int], true) && final(p).tasks@
                == old(p).tasks@)
            ||| (old(p).mutexes@[mutex_id as int] matches Some(MutexKind::Blocking(m)) && {
                &&& slot_is_blocking(final(p).mutexes@[mutex_id as int], lock_spec(m@, tid))
                &&& !m@.locked ==> final(p).tasks@ == old(p).tasks@
                &&& m@.locked ==> final(p).tasks@ == old(p).tasks@.update(
                    tid as int,
                    TaskControlBlock {
                        task_status: TaskStatus::Blocked,
                        time: old(p).tasks@[tid as int].time,
                    },
                )
            })
        },
    {
        let mut refused = false;
        if let Some(cd) = &mut p.mutex_detect {
            if mutex_id >= cd.base {
                let rid = mutex_id - cd.base;
                cd.detect.request_one(tid, rid);
                if !cd.detect.try_allocate(tid, rid) {
                    refused = true;
                }
            }
        }
        if refused {
            proof {
                assert forall|t: usize| #[trigger] p.queued_count(t) == old(p).queued_count(
                    t,
                ) by {
                    crate::process::lemma_queued_count_same(*p, *old(p), t);
                }
            }
            return DEADLOCK_CODE;
        }
        let ghost mid_slot = p.mutexes@[mutex_id as int];
        let slot = &mut p.mutexes[mutex_id];
        match slot {
            Some(MutexKind::Spin(m)) => {
                m.try_acquire();
            },
            Some(MutexKind::Blocking(m)) => {
                let acquired = m.lock(tid);
                if !acquired {
                    p.tasks[tid].task_status = TaskStatus::Blocked;
                }
            },
            None => {},
        }
        proof {
            let v = p.mutexes@[mutex_id as int];
            assert forall|t: usize| #[trigger] p.queued_count(t) == old(p).queued_count(t) + (
            match mid_slot {
                Some(MutexKind::Blocking(m)) => if m@.locked && t == tid {
                    1nat
                } else {
                    0nat
                },
                _ => 0nat,
            }) by {
                assert(p.mutexes@ =~= old(p).mutexes@.update(mutex_id as int, v));
                crate::process::lemma_mutex_slots_update(old(p).mutexes@, mutex_id as int, v, t);
                match mid_slot {
                    Some(MutexKind::Blocking(m)) => {
                        if m@.locked {
                            crate::process::lemma_queue_count_push(m@.queue, tid, t);
                        }
                    },
                    _ => {},
                }
            }
            assert(old(p).queued_count(tid) == 0);
        }
        0
    }

/// Mutex unlock syscall for thread `tid`. With a detector covering the
/// slot, one held unit is returned to the pool first. A spinning mutex
/// simply becomes free. A blocking mutex with waiters hands ownership to
/// the front waiter, which is woken and owns the mutex from that moment;
/// with no waiters it becomes free.
pub fn sys_mutex_unlock(p: &mut ProcessSync, tid: usize, mutex_id: usize) -> (r: isize)
    requires
        old(p).wf(),
        tid < old(p).tasks@.len(),
        mutex_id < old(p).mutexes@.len(),
        old(p).mutexes@[mutex_id as int] is Some,
    ensures
        final(p).wf(),
        r == 0,
        final(p).semaphores@ == old(p).semaphores@,
        final(p).condvars@ == old(p).condvars@,
        final(p).timers@ == old(p).timers@,
        class_view(final(p).semaphore_detect) == class_view(old(p).semaphore_detect),
        class_view(final(p).mutex_detect) == class_after_release(
            class_view(old(p).mutex_detect),
            tid as int,
            mutex_id as int,
        ),
        seq_same_except(final(p).mutexes@, old(p).mutexes@, mutex_id as int),
        old(p).mutexes@[mutex_id as int] matches Some(MutexKind::Spin(m)) ==> slot_is_spin(
            final(p).mutexes@[mutex_id as int],
            false,
        ) && final(p).tasks@ == old(p).tasks@,
        old(p).mutexes@[mutex_id as int] matches Some(MutexKind::Blocking(m)) ==> {
            &&& slot_is_blocking(final(p).mutexes@[mutex_id as int], unlock_spec(m@))
            &&& m@.queue.len() == 0 ==> final(p).tasks@ == old(p).tasks@
            &&& m@.queue.len() > 0 ==> final(p).tasks@ == old(p).tasks@.update(
                m@.queue[0] as int,
                TaskControlBlock {
                    task_status: TaskStatus::Ready,
                    time: old(p).tasks@[m@.queue[0] as int].time,
                },
            )
        },
    {
        if let Some(cd) = &mut p.mutex_detect {
            if mutex_id >= cd.base {
                let rid = mutex_id - cd.base;
                cd.detect.deallocate_one(tid, rid);
            }
        }
        let ghost mid_slot = p.mutexes@[mutex_id as int];
        let slot = &mut p.mutexes[mutex_id];
        match slot {
            Some(MutexKind::Spin(m)) => {
                m.unlock();
            },
            Some(MutexKind::Blocking(m)) => {
                let woken = m.unlock();
                if let Some(w) = woken {
                    p.tasks[w].task_status = TaskStatus::Ready;
                }
            },
            None => {},
        }
        proof {
            let v = p.mutexes@[mutex_id as int];
            assert forall|t: usize| #[trigger] p.queued_count(t) + (
            match mid_slot {
                Some(MutexKind::Blocking(m)) => if m@.queue.len() > 0 && t == m@.queue[0] {
                    1nat
                } else {
                    0nat
                },
                _ => 0nat,
            }) == old(p).queued_count(t) by {
                assert(p.mutexes@ =~= old(p).mutexes@.update(mutex_id as int, v));
                crate::process::lemma_mutex_slots_update(old(p).mutexes@, mutex_id as int, v, t);
                match mid_slot {
                    Some(MutexKind::Blocking(m)) => {
                        if m@.queue.len() > 0 {
                            crate::process::lemma_queue_count_drop_first(m@.queue, t);
                        }
                    },
                    _ => {},
                }
            }
        }
        0
    }

pub open spec fn slot_is_sem(s: Option<Semaphore>, v: SemView) -> bool {
    s matches Some(x) && x@ == v
}

pub open spec fn slot_is_cv(s: Option<Condvar>, q: Seq<CondWaiter>) -> bool {
    s matches Some(c) && c@ == q
}

/// Semaphore create syscall: the new semaphore starts with `res_count`
/// units and occupies the next slot; with a detector enabled it is
/// registered as a resource of that capacity.
pub fn sys_semaphore_create(p: &mut ProcessSync, res_count: usize) -> (id: isize)
    requires
        old(p).wf(),
        old(p).semaphores@.len() + 1 <= isize::MAX,
        res_count <= i32::MAX,
    ensures
        final(p).wf(),
        id == old(p).semaphores@.len(),
        final(p).semaphores@.len() == old(p).semaphores@.len() + 1,
        seq_same_except(final(p).semaphores@, old(p).semaphores@.push(None), id as int),
        slot_is_sem(
            final(p).semaphores@[id as int],
            SemView { count: res_count as int, queue: Seq::<usize>::empty() },
        ),
        final(p).tasks@ == old(p).tasks@,
        final(p).mutexes@ == old(p).mutexes@,
        final(p).condvars@ == old(p).condvars@,
        final(p).timers@ == old(p).timers@,
        class_view(final(p).mutex_detect) == class_view(old(p).mutex_detect),
        class_view(final(p).semaphore_detect) == crate::process::class_after_resource(
            class_view(old(p).semaphore_detect),
            res_count as u32,
        ),
    {
        let id = p.semaphores.len();
        p.semaphores.push(Some(Semaphore::new(res_count)));
        if let Some(cd) = &mut p.semaphore_detect {
            let rid = id - cd.base;
            cd.detect.push_resource_id(rid, res_count as u32);
        }
        proof {
            let v = p.semaphores@.last();
            assert forall|t: usize| #[trigger] p.queued_count(t) == old(p).queued_count(t) by {
                assert(p.semaphores@ =~= old(p).semaphores@.push(v));
                crate::process::lemma_sem_slots_push(old(p).semaphores@, v, t);
                assert(queue_count(Seq::<usize>::empty(), t) == 0);
                assert(crate::process::sem_slot_count(v, t) == 0);
            }
        }
        id as isize
    }

/// Semaphore down syscall for thread `tid`. With a detector covering the
/// slot the request is recorded and checked first: an unsafe grant
/// returns `DEADLOCK_CODE` with the semaphore untouched and the caller
/// not blocked. Otherwise the count drops by one and the caller blocks
/// (is enqueued) exactly when the old count was not positive.
pub fn sys_semaphore_down(p: &mut ProcessSync, tid: usize, sem_id: usize) -> (r: isize)
    requires
        old(p).wf(),
        tid < old(p).tasks@.len(),
        sem_id < old(p).semaphores@.len(),
        old(p).semaphores@[sem_id as int] is Some,
        old(p).semaphores@[sem_id as int] matches Some(s) ==> s@.count > i32::MIN,
        old(p).tasks@[tid as int].task_status is Ready,
        class_request_ok(class_view(old(p).semaphore_detect), tid as int, sem_id as int),
    ensures
        final(p).wf(),
        final(p).mutexes@ == old(p).mutexes@,
        final(p).condvars@ == old(p).condvars@,
        final(p).timers@ == old(p).timers@,
        class_view(final(p).mutex_detect) == class_view(old(p).mutex_detect),
        class_view(final(p).semaphore_detect) == class_after_acquire(
            class_view(old(p).semaphore_detect),
            tid as int,
            sem_id as int,
        ),
        !class_acquire_ok(class_view(old(p).semaphore_detect), tid as int, sem_id as int) ==> r
            == DEADLOCK_CODE && final(p).semaphores@ == old(p).semaphores@
            && final(p).tasks@ == old(p).tasks@,
        class_acquire_ok(class_view(old(p).semaphore_detect), tid as int, sem_id as int) ==> r
            == 0 && seq_same_except(final(p).semaphores@, old(p).semaphores@, sem_id as int) && (
        old(p).semaphores@[sem_id as int] matches Some(s) ==> {
            &&& slot_is_sem(final(p).semaphores@[sem_id as int], down_spec(s@, tid))
            &&& s@.count > 0 ==> final(p).tasks@ == old(p).tasks@
            &&& s@.count <= 0 ==> final(p).tasks@ == old(p).tasks@.update(
                tid as int,
                TaskControlBlock {
                    task_status: TaskStatus::Blocked,
                    time: old(p).tasks@[tid as int].time,
                },
            )
        }),
    {
        let mut refused = false;
        if let Some(cd) = &mut p.semaphore_detect {
            if sem_id >= cd.base {
                let rid = sem_id - cd.base;
                cd.detect.request_one(tid, rid);
                if !cd.detect.try_allocate(tid, rid) {
                    refused = true;
                }
            }
        }
        if refused {
            proof {
                assert forall|t: usize| #[trigger] p.queued_count(t) == old(p).queued_count(
                    t,
                ) by {
                    crate::process::lemma_queued_count_same(*p, *old(p), t);
                }
            }
            return DEADLOCK_CODE;
        }
        let ghost mid_slot = p.semaphores@[sem_id as int];
        let slot = &mut p.semaphores[sem_id];
        match slot {
            Some(s) => {
                let proceed = s.down(tid);
                if !proceed {
                    p.tasks[tid].task_status = TaskStatus::Blocked;
                }
            },
            None => {},
        }
        proof {
            let v = p.semaphores@[sem_id as int];
            assert forall|t: usize| #[trigger] p.queued_count(t) == old(p).queued_count(t) + (
            match mid_slot {
                Some(x) => if x@.count <= 0 && t == tid {
                    1nat
                } else {
                    0nat
                },
                _ => 0nat,
            }) by {
                assert(p.semaphores@ =~= old(p).semaphores@.update(sem_id as int, v));
                crate::process::lemma_sem_slots_update(old(p).semaphores@, sem_id as int, v, t);
                match mid_slot {
                    Some(x) => {
                        if x@.count <= 0 {
                            crate::process::lemma_queue_count_push(x@.queue, tid, t);
                        }
                    },
                    _ => {},
                }
            }
            assert(old(p).queued_count(tid) == 0);
        }
        0
    }

/// Semaphore up syscall for thread `tid`. With a detector covering the
/// slot one held unit is returned first. The count rises by one; when
/// waiters were present the front waiter is dequeued and woken.
pub fn sys_semaphore_up(p: &mut ProcessSync, tid: usize, sem_id: usize) -> (r: isize)
    requires
        old(p).wf(),
        tid < old(p).tasks@.len(),
        sem_id < old(p).semaphores@.len(),
        old(p).semaphores@[sem_id as int] is Some,
        old(p).semaphores@[sem_id as int] matches Some(s) ==> s@.count < i32::MAX,
    ensures
        final(p).wf(),
        r == 0,
        final(p).mutexes@ == old(p).mutexes@,
        final(p).condvars@ == old(p).condvars@,
        final(p).timers@ == old(p).timers@,
        class_view(final(p).mutex_detect) == class_view(old(p).mutex_detect),
        class_view(final(p).semaphore_detect) == class_after_release(
            class_view(old(p).semaphore_detect),
            tid as int,
            sem_id as int,
        ),
        seq_same_except(final(p).semaphores@, old(p).semaphores@, sem_id as int),
        old(p).semaphores@[sem_id as int] matches Some(s) ==> {
            &&& slot_is_sem(final(p).semaphores@[sem_id as int], up_spec(s@))
            &&& s@.count >= 0 ==> final(p).tasks@ == old(p).tasks@
            &&& s@.count < 0 ==> final(p).tasks@ == old(p).tasks@.update(
                s@.queue[0] as int,
                TaskControlBlock {
                    task_status: TaskStatus::Ready,
                    time: old(p).tasks@[s@.queue[0] as int].time,
                },
            )
        },
    {
        if let Some(cd) = &mut p.semaphore_detect {
            if sem_id >= cd.base {
                let rid = sem_id - cd.base;
                cd.detect.deallocate_one(tid, rid);
            }
        }
        let ghost mid_slot = p.semaphores@[sem_id as int];
        let slot = &mut p.semaphores[sem_id];
        match slot {
            Some(s) => {
                let woken = s.up();
                if let Some(w) = woken {
                    p.tasks[w].task_status = TaskStatus::Ready;
                }
            },
            None => {},
        }
        proof {
            let v = p.semaphores@[sem_id as int];
            assert forall|t: usize| #[trigger] p.queued_count(t) + (
            match mid_slot {
                Some(x) => if x@.count < 0 && t == x@.queue[0] {
                    1nat
                } else {
                    0nat
                },
                _ => 0nat,
            }) == old(p).queued_count(t) by {
                assert(p.semaphores@ =~= old(p).semaphores@.update(sem_id as int, v));
                crate::process::lemma_sem_slots_update(old(p).semaphores@, sem_id as int, v, t);
                match mid_slot {
                    Some(x) => {
                        if x@.count < 0 {
                            crate::process::lemma_queue_count_drop_first(x@.queue, t);
                        }
                    },
                    _ => {},
                }
            }
        }
        0
    }

/// Condvar create syscall: a new, empty condition variable in the next
/// slot. Condition variables are never tracked by a detector.
pub fn sys_condvar_create(p: &mut ProcessSync) -> (id: isize)
    requires
        old(p).wf(),
        old(p).condvars@.len() + 1 <= isize::MAX,
    ensures
        final(p).wf(),
        id == old(p).condvars@.len(),
        final(p).condvars@.len() == old(p).condvars@.len() + 1,
        seq_same_except(final(p).condvars@, old(p).condvars@.push(None), id as int),
        slot_is_cv(final(p).condvars@[id as int], Seq::<CondWaiter>::empty()),
        final(p).tasks@ == old(p).tasks@,
        final(p).mutexes@ == old(p).mutexes@,
        final(p).semaphores@ == old(p).semaphores@,
        final(p).timers@ == old(p).timers@,
        class_view(final(p).mutex_detect) == class_view(old(p).mutex_detect),
        class_view(final(p).semaphore_detect) == class_view(old(p).semaphore_detect),
    {
        let id = p.condvars.len();
        p.condvars.push(Some(Condvar::new()));
        proof {
            let v = p.condvars@.last();
            assert forall|t: usize| #[trigger] p.queued_count(t) == old(p).queued_count(t) by {
                assert(p.condvars@ =~= old(p).condvars@.push(v));
                crate::process::lemma_cv_slots_push(old(p).condvars@, v, t);
                assert(crate::process::cv_count(Seq::<CondWaiter>::empty(), t) == 0);
                assert(crate::process::cv_slot_count(v, t) == 0);
            }
        }
        id as isize
    }

/// Condvar signal syscall: with no waiter this is a no-op — the whole
/// process state is exactly as before. Otherwise the front waiter leaves
/// the queue and contends for the mutex it recorded at wait time: a free
/// blocking mutex is handed to it and it is woken; a held one enqueues it
/// (it stays blocked until the holder unlocks); with a spinning mutex the
/// waiter is simply woken and will spin for it.
pub fn sys_condvar_signal(p: &mut ProcessSync, condvar_id: usize) -> (r: isize)
    requires
        old(p).wf(),
        condvar_id < old(p).condvars@.len(),
        old(p).condvars@[condvar_id as int] is Some,
    ensures
        final(p).wf(),
        r == 0,
        final(p).semaphores@ == old(p).semaphores@,
        final(p).timers@ == old(p).timers@,
        class_view(final(p).mutex_detect) == class_view(old(p).mutex_detect),
        class_view(final(p).semaphore_detect) == class_view(old(p).semaphore_detect),
        seq_same_except(final(p).condvars@, old(p).condvars@, condvar_id as int),
        old(p).condvars@[condvar_id as int] matches Some(c) ==> {
            &&& c@.len() == 0 ==> final(p).condvars@ == old(p).condvars@ && final(p).mutexes@
                == old(p).mutexes@ && final(p).tasks@ == old(p).tasks@
            &&& c@.len() > 0 ==> {
                let w = c@[0];
                &&& slot_is_cv(
                    final(p).condvars@[condvar_id as int],
                    c@.subrange(1, c@.len() as int),
                )
                &&& seq_same_except(final(p).mutexes@, old(p).mutexes@, w.mutex_id as int)
                &&& (old(p).mutexes@[w.mutex_id as int] matches Some(MutexKind::Spin(m))
                    ==> final(p).mutexes@ == old(p).mutexes@ && final(p).tasks@ == old(
                    p,
                ).tasks@.update(
                    w.tid as int,
                    TaskControlBlock {
                        task_status: TaskStatus::Ready,
                        time: old(p).tasks@[w.tid as int].time,
                    },
                ))
                &&& (old(p).mutexes@[w.mutex_id as int] matches Some(MutexKind::Blocking(m))
                    ==> {
                    &&& slot_is_blocking(
                        final(p).mutexes@[w.mutex_id as int],
                        lock_spec(m@, w.tid),
                    )
                    &&& !m@.locked ==> final(p).tasks@ == old(p).tasks@.update(
                        w.tid as int,
                        TaskControlBlock {
                            task_status: TaskStatus::Ready,
                            time: old(p).tasks@[w.tid as int].time,
                        },
                    )
                    &&& m@.locked ==> final(p).tasks@ == old(p).tasks@
                })
            }
        },
    {
        let ghost cv0 = p.condvars@[condvar_id as int];
        let cv = &mut p.condvars[condvar_id];
        let woken = match cv {
            Some(c) => c.signal(),
            None => None,
        };
        if let Some(w) = woken {
            let wtid = w.tid;
            let wmid = w.mutex_id;
            let ghost m0 = p.mutexes@[wmid as int];
            let slot = &mut p.mutexes[wmid];
            match slot {
                Some(MutexKind::Spin(_)) => {
                    p.tasks[wtid].task_status = TaskStatus::Ready;
                },
                Some(MutexKind::Blocking(m)) => {
                    let acquired = m.lock(wtid);
                    if acquired {
                        p.tasks[wtid].task_status = TaskStatus::Ready;
                    }
                },
                None => {},
            }
            proof {
                let cv1 = p.condvars@[condvar_id as int];
                let m1 = p.mutexes@[wmid as int];
                assert forall|t: usize| #[trigger] p.queued_count(t) + (if t == w.tid {
                    1nat
                } else {
                    0nat
                }) == old(p).queued_count(t) + (match m0 {
                    Some(MutexKind::Blocking(m)) => if m@.locked && t == w.tid {
                        1nat
                    } else {
                        0nat
                    },
                    _ => 0nat,
                }) by {
                    assert(p.condvars@ =~= old(p).condvars@.update(condvar_id as int, cv1));
                    assert(p.mutexes@ =~= old(p).mutexes@.update(wmid as int, m1));
                    crate::process::lemma_cv_slots_update(
                        old(p).condvars@,
                        condvar_id as int,
                        cv1,
                        t,
                    );
                    crate::process::lemma_mutex_slots_update(old(p).mutexes@, wmid as int, m1, t);
                    match cv0 {
                        Some(c) => {
                            crate::process::lemma_cv_count_drop_first(c@, t);
                        },
                        _ => {},
                    }
                    match m0 {
                        Some(MutexKind::Blocking(m)) => {
                            if m@.locked {
                                crate::process::lemma_queue_count_push(m@.queue, w.tid, t);
                            }
                        },
                        _ => {},
                    }
                }
            }
        } else {
            proof {
                assert(p.condvars@ =~= old(p).condvars@);
                assert forall|t: usize| #[trigger] p.queued_count(t) == old(p).queued_count(
                    t,
                ) by {
                    crate::process::lemma_queued_count_same(*p, *old(p), t);
                }
            }
        }
        0
    }

/// Condvar wait syscall for thread `tid`: the caller joins the condvar
/// queue together with the mutex it must get back, the mutex is unlocked
/// exactly as in `sys_mutex_unlock` (but without detector bookkeeping,
/// as the kernel releases it on the caller's behalf), and the caller
/// blocks. It runs again once a signal hands it the mutex back.
pub fn sys_condvar_wait(p: &mut ProcessSync, tid: usize, condvar_id: usize, mutex_id: usize) -> (r:
    isize)
    requires
        old(p).wf(),
        tid < old(p).tasks@.len(),
        condvar_id < old(p).condvars@.len(),
        old(p).condvars@[condvar_id as int] is Some,
        mutex_id < old(p).mutexes@.len(),
        old(p).mutexes@[mutex_id as int] is Some,
        old(p).tasks@[tid as int].task_status is Ready,
    ensures
        final(p).wf(),
        r == 0,
        final(p).semaphores@ == old(p).semaphores@,
        final(p).timers@ == old(p).timers@,
        class_view(final(p).mutex_detect) == class_view(old(p).mutex_detect),
        class_view(final(p).semaphore_detect) == class_view(old(p).semaphore_detect),
        seq_same_except(final(p).condvars@, old(p).condvars@, condvar_id as int),
        seq_same_except(final(p).mutexes@, old(p).mutexes@, mutex_id as int),
        old(p).condvars@[condvar_id as int] matches Some(c) ==> slot_is_cv(
            final(p).condvars@[condvar_id as int],
            c@.push(CondWaiter { tid, mutex_id }),
        ),
        old(p).mutexes@[mutex_id as int] matches Some(MutexKind::Spin(m)) ==> slot_is_spin(
            final(p).mutexes@[mutex_id as int],
            false,
        ) && final(p).tasks@ == old(p).tasks@.update(
            tid as int,
            TaskControlBlock {
                task_status: TaskStatus::Blocked,
                time: old(p).tasks@[tid as int].time,
            },
        ),
        old(p).mutexes@[mutex_id as int] matches Some(MutexKind::Blocking(m)) ==> {
            &&& slot_is_blocking(final(p).mutexes@[mutex_id as int], unlock_spec(m@))
            &&& m@.queue.len() == 0 ==> final(p).tasks@ == old(p).tasks@.update(
                tid as int,
                TaskControlBlock {
                    task_status: TaskStatus::Blocked,
                    time: old(p).tasks@[tid as int].time,
                },
            )
            &&& m@.queue.len() > 0 ==> final(p).tasks@ == old(p).tasks@.update(
                m@.queue[0] as int,
                TaskControlBlock {
                    task_status: TaskStatus::Ready,
                    time: old(p).tasks@[m@.queue[0] as int].time,
                },
            ).update(
                tid as int,
                TaskControlBlock {
                    task_status: TaskStatus::Blocked,
                    time: old(p).tasks@[tid as int].time,
                },
            )
        },
    {
        let ghost cv0 = p.condvars@[condvar_id as int];
        let cv = &mut p.condvars[condvar_id];
        match cv {
            Some(c) => c.wait_enqueue(tid, mutex_id),
            None => {},
        }
        let ghost m0 = p.mutexes@[mutex_id as int];
        let slot = &mut p.mutexes[mutex_id];
        match slot {
            Some(MutexKind::Spin(m)) => {
                m.unlock();
            },
            Some(MutexKind::Blocking(m)) => {
                let woken = m.unlock();
                if let Some(w) = woken {
                    p.tasks[w].task_status = TaskStatus::Ready;
                }
            },
            None => {},
        }
        p.tasks[tid].task_status = TaskStatus::Blocked;
        proof {
            let cv1 = p.condvars@[condvar_id as int];
            let m1 = p.mutexes@[mutex_id as int];
            assert forall|t: usize| #[trigger] p.queued_count(t) + (match m0 {
                Some(MutexKind::Blocking(m)) => if m@.queue.len() > 0 && t == m@.queue[0] {
                    1nat
                } else {
                    0nat
                },
                _ => 0nat,
            }) == old(p).queued_count(t) + (if t == tid {
                1nat
            } else {
                0nat
            }) by {
                assert(p.condvars@ =~= old(p).condvars@.update(condvar_id as int, cv1));
                assert(p.mutexes@ =~= old(p).mutexes@.update(mutex_id as int, m1));
                crate::process::lemma_cv_slots_update(old(p).condvars@, condvar_id as int, cv1, t);
                crate::process::lemma_mutex_slots_update(old(p).mutexes@, mutex_id as int, m1, t);
                match cv0 {
                    Some(c) => {
                        crate::process::lemma_cv_count_push(
                            c@,
                            CondWaiter { tid, mutex_id },
                            t,
                        );
                    },
                    _ => {},
                }
                match m0 {
                    Some(MutexKind::Blocking(m)) => {
                        if m@.queue.len() > 0 {
                            crate::process::lemma_queue_count_drop_first(m@.queue, t);
                        }
                    },
                    _ => {},
                }
            }
            assert(old(p).queued_count(tid) == 0);
        }
        0
    }

/// Enable-deadlock-detection syscall: 1 instantiates the detectors for
/// both primitive classes (idempotent), 0 is accepted and changes
/// nothing, and any other argument is an invalid-argument error.
pub fn sys_enable_deadlock_detect(p: &mut ProcessSync, enabled: usize) -> (r: isize)
    requires
        old(p).wf(),
    ensures
        final(p).wf(),
        final(p).tasks@ == old(p).tasks@,
        final(p).mutexes@ == old(p).mutexes@,
        final(p).semaphores@ == old(p).semaphores@,
        final(p).condvars@ == old(p).condvars@,
        final(p).timers@ == old(p).timers@,
        enabled == 1 ==> r == 0 && {
            &&& old(p).mutex_detect is Some ==> class_view(final(p).mutex_detect) == class_view(
                old(p).mutex_detect,
            )
            &&& old(p).mutex_detect is None ==> class_view(final(p).mutex_detect) == Some(
                crate::process::fresh_class(old(p).mutexes@.len(), old(p).tasks@.len()),
            )
            &&& old(p).semaphore_detect is Some ==> class_view(final(p).semaphore_detect)
                == class_view(old(p).semaphore_detect)
            &&& old(p).semaphore_detect is None ==> class_view(final(p).semaphore_detect) == Some(
                crate::process::fresh_class(old(p).semaphores@.len(), old(p).tasks@.len()),
            )
        },
        enabled != 1 ==> class_view(final(p).mutex_detect) == class_view(old(p).mutex_detect)
            && class_view(final(p).semaphore_detect) == class_view(old(p).semaphore_detect),
        enabled == 0 ==> r == 0,
        enabled != 0 && enabled != 1 ==> r == -1,
    {
        match enabled {
            1 => {
                p.enable_deadlock_detect();
                0
            },
            0 => 0,
            _ => -1,
        }
    }

/// Sleep syscall for thread `tid`: the wake time is registered with the
/// timer bookkeeping and the caller blocks until `timer_wake_due` (driven
/// by the external timer interrupt) releases it.
pub fn sys_sleep(p: &mut ProcessSync, tid: usize, ms: usize, now_ms: usize) -> (r: isize)
    requires
        old(p).wf(),
        tid < old(p).tasks@.len(),
        old(p).tasks@[tid as int].task_status is Ready,
        now_ms + ms <= usize::MAX,
    ensures
        final(p).wf(),
        r == 0,
        final(p).mutexes@ == old(p).mutexes@,
        final(p).semaphores@ == old(p).semaphores@,
        final(p).condvars@ == old(p).condvars@,
        class_view(final(p).mutex_detect) == class_view(old(p).mutex_detect),
        class_view(final(p).semaphore_detect) == class_view(old(p).semaphore_detect),
        final(p).timers@ == old(p).timers@.push(((now_ms + ms) as usize, tid)),
        final(p).tasks@ == old(p).tasks@.update(
            tid as int,
            TaskControlBlock {
                task_status: TaskStatus::Blocked,
                time: old(p).tasks@[tid as int].time,
            },
        ),
    {
        let expire = now_ms + ms;
        p.timers.push((expire, tid));
        p.tasks[tid].task_status = TaskStatus::Blocked;
        proof {
            assert forall|t: usize| #[trigger] p.queued_count(t) == old(p).queued_count(t) + (
            if t == tid {
                1nat
            } else {
                0nat
            }) by {
                assert(p.timers@ =~= old(p).timers@.push((expire, tid)));
                crate::process::lemma_timer_count_push(old(p).timers@, (expire, tid), t);
            }
            assert(old(p).queued_count(tid) == 0);
        }
        0
    }

/// One step of the external timer interrupt: remove the first due timer,
/// if any, and wake its thread. The host calls this until it returns
/// `None`.
pub fn timer_wake_due(p: &mut ProcessSync, now_ms: usize) -> (woken: Option<usize>)
    requires
        old(p).wf(),
    ensures
        final(p).wf(),
        final(p).mutexes@ == old(p).mutexes@,
        final(p).semaphores@ == old(p).semaphores@,
        final(p).condvars@ == old(p).condvars@,
        class_view(final(p).mutex_detect) == class_view(old(p).mutex_detect),
        class_view(final(p).semaphore_detect) == class_view(old(p).semaphore_detect),
        woken is None ==> final(p).timers@ == old(p).timers@ && final(p).tasks@ == old(p).tasks@
            && (forall|k: int|
            0 <= k < old(p).timers@.len() ==> (#[trigger] old(p).timers@[k]).0 > now_ms),
        woken matches Some(tid) ==> exists|i: int|
            {
                &&& 0 <= i < old(p).timers@.len()
                &&& (#[trigger] old(p).timers@[i]).0 <= now_ms
                &&& forall|k: int| 0 <= k < i ==> (#[trigger] old(p).timers@[k]).0 > now_ms
                &&& tid == old(p).timers@[i].1
                &&& final(p).timers@ == old(p).timers@.remove(i)
                &&& final(p).tasks@ == old(p).tasks@.update(
                    tid as int,
                    TaskControlBlock {
                        task_status: TaskStatus::Ready,
                        time: old(p).tasks@[tid as int].time,
                    },
                )
            },
    {
        let n = p.timers.len();
        let mut i: usize = 0;
        while i < n
            invariant
                i <= n,
                n == p.timers@.len(),
                *p == *old(p),
                old(p).wf(),
                forall|k: int| 0 <= k < i ==> (#[trigger] p.timers@[k]).0 > now_ms,
            decreases n - i,
        {
            let (expire, tid) = p.timers[i];
            if expire <= now_ms {
                p.timers.remove(i);
                proof {
                    assert(tid < p.tasks@.len());
                }
                p.tasks[tid].task_status = TaskStatus::Ready;
                proof {
                    assert forall|t: usize| #[trigger] p.queued_count(t) + (if t == tid {
                        1nat
                    } else {
                        0nat
                    }) == old(p).queued_count(t) by {
                        assert(p.timers@ =~= old(p).timers@.remove(i as int));
                        crate::process::lemma_timer_count_remove(old(p).timers@, i as int, t);
                    }
                }
                return Some(tid);
            }
            i = i + 1;
        }
        None
    }

/// getpid syscall: the process's own id.
pub fn sys_getpid(p: &Process) -> (r: isize)
    requires
        p.pid <= isize::MAX,
    ensures
        r == p.pid,
{
    p.pid as isize
}

/// Whether a child entry matches the pid argument of `sys_waitpid`
/// (-1 matches any child).
pub open spec fn child_matches(c: ChildProc, pid: isize) -> bool {
    pid == -1 || c.pid as int == pid as int
}

/// waitpid syscall. If no child matches the given pid, returns -1. If a
/// matching child exists but none of them has exited yet, returns -2.
/// Otherwise the first matching zombie is reaped: it leaves the children
/// list and its pid and exit code are returned (the kernel's syscall
/// layer then writes the exit code through a user-space pointer).
pub fn sys_waitpid(p: &mut Process, pid: isize) -> (r: (isize, Option<i32>))
    requires
        forall|k: int|
            0 <= k < old(p).children@.len() ==> (#[trigger] old(p).children@[k]).pid
                <= isize::MAX,
    ensures
        final(p).pid == old(p).pid,
        final(p).priority == old(p).priority,
        (forall|k: int|
            0 <= k < old(p).children@.len() ==> !child_matches(
                #[trigger] old(p).children@[k],
                pid,
            )) ==> r.0 == -1 && r.1 is None && final(p).children@ == old(p).children@,
        (exists|k: int|
            0 <= k < old(p).children@.len() && child_matches(#[trigger] old(p).children@[k], pid))
            && (forall|k: int|
            0 <= k < old(p).children@.len() && child_matches(#[trigger] old(p).children@[k], pid)
                ==> !old(p).children@[k].zombie) ==> r.0 == -2 && r.1 is None
            && final(p).children@ == old(p).children@,
        (exists|k: int|
            0 <= k < old(p).children@.len() && child_matches(#[trigger] old(p).children@[k], pid)
                && old(p).children@[k].zombie) ==> exists|i: int|
            {
                &&& 0 <= i < old(p).children@.len()
                &&& child_matches(#[trigger] old(p).children@[i], pid)
                &&& old(p).children@[i].zombie
                &&& forall|k: int|
                    0 <= k < i ==> !(child_matches(#[trigger] old(p).children@[k], pid) && old(
                        p,
                    ).children@[k].zombie)
                &&& r.0 == old(p).children@[i].pid
                &&& r.1 == Some(old(p).children@[i].exit_code)
                &&& final(p).children@ == old(p).children@.remove(i)
            },
    {
        let n = p.children.len();
        let mut any: bool = false;
        let mut i: usize = 0;
        while i < n
            invariant
                i <= n,
                n == p.children@.len(),
                p.children@ == old(p).children@,
                p.pid == old(p).pid,
                p.priority == old(p).priority,
                any == exists|k: int|
                    0 <= k < i && child_matches(#[trigger] p.children@[k], pid),
            decreases n - i,
        {
            let c = p.children[i];
            if pid == -1 || (pid >= 0 && c.pid == pid as usize) {
                any = true;
            }
            i = i + 1;
        }
        if !any {
            return (-1, None);
        }
        let mut j: usize = 0;
        while j < n
            invariant
                j <= n,
                n == p.children@.len(),
                p.children@ == old(p).children@,
                p.pid == old(p).pid,
                p.priority == old(p).priority,
                forall|k: int|
                    0 <= k < n ==> (#[trigger] p.children@[k]).pid <= isize::MAX,
                forall|k: int|
                    0 <= k < j ==> !(child_matches(#[trigger] p.children@[k], pid)
                        && p.children@[k].zombie),
            decreases n - j,
        {
            let c = p.children[j];
            let matched = pid == -1 || (pid >= 0 && c.pid == pid as usize);
            if matched && c.zombie {
                p.children.remove(j);
                return (c.pid as isize, Some(c.exit_code));
            }
            j = j + 1;
        }
        (-2, None)
    }

/// fork syscall: the new child, whose pid the external pid allocator
/// hands in, is registered with the parent and its pid returned. (The
/// address-space copy and the child's zeroed return value are the
/// external collaborators' business.)
pub fn sys_fork(p: &mut Process, new_pid: usize) -> (r: isize)
    requires
        new_pid <= isize::MAX,
    ensures
        r == new_pid,
        final(p).pid == old(p).pid,
        final(p).priority == old(p).priority,
        final(p).children@ == old(p).children@.push(
            ChildProc { pid: new_pid, zombie: false, exit_code: 0 },
        ),
{
    p.children.push(ChildProc { pid: new_pid, zombie: false, exit_code: 0 });
    new_pid as isize
}

/// set-priority syscall: priorities below 2 are invalid (-1); otherwise
/// the priority is stored, saturated to the u16 range, and the requested
/// value is returned.
pub fn sys_set_priority(p: &mut Process, prio: isize) -> (r: isize)
    ensures
        final(p).pid == old(p).pid,
        final(p).children@ == old(p).children@,
        prio < 2 ==> r == -1 && final(p).priority == old(p).priority,
        prio >= 2 ==> r == prio && final(p).priority == (if prio <= u16::MAX {
            prio as u16
        } else {
            u16::MAX
        }),
{
    if prio < 2 {
        return -1;
    }
    let clamped: u16 = if prio <= 65535 {
        prio as u16
    } else {
        65535
    };
    p.priority = clamped;
    prio
}

} // verus!
