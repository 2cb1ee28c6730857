use kernel_sync::process::{MutexKind, ProcessSync};
use kernel_sync::semaphore::Semaphore;
use kernel_sync::syscall::{
    sys_condvar_create, sys_condvar_signal, sys_condvar_wait, sys_enable_deadlock_detect,
    sys_mutex_create, sys_mutex_lock, sys_mutex_unlock, sys_semaphore_create, sys_semaphore_down,
    sys_semaphore_up, sys_sleep, timer_wake_due, DEADLOCK_CODE,
};
use kernel_sync::task::TaskStatus;

fn status(p: &ProcessSync, tid: usize) -> TaskStatus {
    p.tasks[tid].task_status
}

fn blocking_mutex(p: &ProcessSync, id: usize) -> (bool, usize) {
    match p.mutexes[id].as_ref().unwrap() {
        MutexKind::Blocking(m) => (m.is_locked(), m.waiters()),
        MutexKind::Spin(_) => panic!("expected a blocking mutex"),
    }
}

#[test]
fn dining_philosophers_deadlock_is_detected() {
    // Two blocking mutexes, detection enabled before creation. Thread A
    // takes m0, thread B takes m1; each then asks for the other's mutex
    // and must be refused instead of blocking.
    let mut p = ProcessSync::new();
    let _main = p.create_thread();
    let a = p.create_thread();
    let b = p.create_thread();
    assert_eq!(sys_enable_deadlock_detect(&mut p, 1), 0);
    assert_eq!(sys_mutex_create(&mut p, true), 0);
    assert_eq!(sys_mutex_create(&mut p, true), 1);
    assert_eq!(sys_mutex_lock(&mut p, a, 0), 0);
    assert_eq!(sys_mutex_lock(&mut p, b, 1), 0);
    assert_eq!(sys_mutex_lock(&mut p, a, 1), DEADLOCK_CODE);
    assert_eq!(sys_mutex_lock(&mut p, b, 0), DEADLOCK_CODE);
    // neither thread blocked and neither mutex gained a waiter
    assert_eq!(status(&p, a), TaskStatus::Ready);
    assert_eq!(status(&p, b), TaskStatus::Ready);
    assert_eq!(blocking_mutex(&p, 0), (true, 0));
    assert_eq!(blocking_mutex(&p, 1), (true, 0));
}

#[test]
fn dining_philosophers_without_detection_block() {
    // Same interleaving with detection off: every call reports 0 and the
    // two crossing locks leave both threads blocked for good.
    let mut p = ProcessSync::new();
    let _main = p.create_thread();
    let a = p.create_thread();
    let b = p.create_thread();
    assert_eq!(sys_mutex_create(&mut p, true), 0);
    assert_eq!(sys_mutex_create(&mut p, true), 1);
    assert_eq!(sys_mutex_lock(&mut p, a, 0), 0);
    assert_eq!(sys_mutex_lock(&mut p, b, 1), 0);
    assert_eq!(sys_mutex_lock(&mut p, a, 1), 0);
    assert_eq!(sys_mutex_lock(&mut p, b, 0), 0);
    assert_eq!(status(&p, a), TaskStatus::Blocked);
    assert_eq!(status(&p, b), TaskStatus::Blocked);
    assert_eq!(blocking_mutex(&p, 0), (true, 1));
    assert_eq!(blocking_mutex(&p, 1), (true, 1));
}

#[test]
fn semaphore_as_barrier() {
    // Semaphore with zero units: A's down blocks until B's up; B sets the
    // shared flag before the up, so A observes it once runnable again.
    let mut p = ProcessSync::new();
    let a = p.create_thread();
    let b = p.create_thread();
    assert_eq!(sys_semaphore_create(&mut p, 0), 0);
    let mut x: usize = 0;
    assert_eq!(sys_semaphore_down(&mut p, a, 0), 0);
    assert_eq!(status(&p, a), TaskStatus::Blocked);
    x = 1;
    assert_eq!(sys_semaphore_up(&mut p, b, 0), 0);
    assert_eq!(status(&p, a), TaskStatus::Ready);
    assert_eq!(x, 1);
}

#[test]
fn mutex_ownership_handoff() {
    // Unlocking with a waiter hands the mutex over: it never becomes free
    // in between, and the woken thread owns it.
    let mut p = ProcessSync::new();
    let t1 = p.create_thread();
    let t2 = p.create_thread();
    assert_eq!(sys_mutex_create(&mut p, true), 0);
    assert_eq!(sys_mutex_lock(&mut p, t1, 0), 0);
    assert_eq!(sys_mutex_lock(&mut p, t2, 0), 0);
    assert_eq!(status(&p, t2), TaskStatus::Blocked);
    assert_eq!(blocking_mutex(&p, 0), (true, 1));
    assert_eq!(sys_mutex_unlock(&mut p, t1, 0), 0);
    // handoff: still locked, queue drained, t2 woken as the owner
    assert_eq!(blocking_mutex(&p, 0), (true, 0));
    assert_eq!(status(&p, t2), TaskStatus::Ready);
    assert_eq!(sys_mutex_unlock(&mut p, t2, 0), 0);
    assert_eq!(blocking_mutex(&p, 0), (false, 0));
}

#[test]
fn spin_mutex_lock_and_unlock() {
    let mut p = ProcessSync::new();
    let t1 = p.create_thread();
    assert_eq!(sys_mutex_create(&mut p, false), 0);
    assert_eq!(sys_mutex_lock(&mut p, t1, 0), 0);
    let locked = match p.mutexes[0].as_ref().unwrap() {
        MutexKind::Spin(m) => m.is_locked(),
        MutexKind::Blocking(_) => panic!("expected a spinning mutex"),
    };
    assert!(locked);
    assert_eq!(sys_mutex_unlock(&mut p, t1, 0), 0);
    let locked = match p.mutexes[0].as_ref().unwrap() {
        MutexKind::Spin(m) => m.is_locked(),
        MutexKind::Blocking(_) => panic!("expected a spinning mutex"),
    };
    assert!(!locked);
}

#[test]
fn fifo_wake_order_on_a_semaphore() {
    // The k-th thread to block is the k-th to wake.
    let mut p = ProcessSync::new();
    let t1 = p.create_thread();
    let t2 = p.create_thread();
    let t3 = p.create_thread();
    let up_by = p.create_thread();
    assert_eq!(sys_semaphore_create(&mut p, 0), 0);
    assert_eq!(sys_semaphore_down(&mut p, t1, 0), 0);
    assert_eq!(sys_semaphore_down(&mut p, t2, 0), 0);
    assert_eq!(sys_semaphore_down(&mut p, t3, 0), 0);
    assert_eq!(status(&p, t1), TaskStatus::Blocked);
    assert_eq!(status(&p, t2), TaskStatus::Blocked);
    assert_eq!(status(&p, t3), TaskStatus::Blocked);
    assert_eq!(sys_semaphore_up(&mut p, up_by, 0), 0);
    assert_eq!(status(&p, t1), TaskStatus::Ready);
    assert_eq!(status(&p, t2), TaskStatus::Blocked);
    assert_eq!(status(&p, t3), TaskStatus::Blocked);
    assert_eq!(sys_semaphore_up(&mut p, up_by, 0), 0);
    assert_eq!(status(&p, t2), TaskStatus::Ready);
    assert_eq!(status(&p, t3), TaskStatus::Blocked);
    assert_eq!(sys_semaphore_up(&mut p, up_by, 0), 0);
    assert_eq!(status(&p, t3), TaskStatus::Ready);
}

#[test]
fn semaphore_count_balances_downs_and_ups() {
    // count = initial - downs + ups at every point; while waiters exist
    // the queue length mirrors the negative count.
    let mut s = Semaphore::new(2);
    let _ = s.down(1);
    let _ = s.down(2);
    assert_eq!(s.count(), 0);
    assert_eq!(s.waiters(), 0);
    let proceed = s.down(3);
    assert!(!proceed);
    assert_eq!(s.count(), -1);
    assert_eq!(s.waiters(), 1);
    let woken = s.up();
    assert_eq!(woken, Some(3));
    assert_eq!(s.count(), 0);
    assert_eq!(s.waiters(), 0);
    let _ = s.up();
    assert_eq!(s.count(), 1);
}

#[test]
fn signal_on_empty_condvar_changes_nothing() {
    let mut p = ProcessSync::new();
    let t1 = p.create_thread();
    assert_eq!(sys_mutex_create(&mut p, true), 0);
    assert_eq!(sys_condvar_create(&mut p), 0);
    assert_eq!(sys_mutex_lock(&mut p, t1, 0), 0);
    let tasks_before = p.tasks.clone();
    let mutex_before = blocking_mutex(&p, 0);
    let cv_len_before = match p.condvars[0].as_ref() {
        Some(c) => c.len(),
        None => panic!("condvar slot must be allocated"),
    };
    assert_eq!(sys_condvar_signal(&mut p, 0), 0);
    assert_eq!(p.tasks, tasks_before);
    assert_eq!(blocking_mutex(&p, 0), mutex_before);
    let cv_len_after = match p.condvars[0].as_ref() {
        Some(c) => c.len(),
        None => panic!("condvar slot must be allocated"),
    };
    assert_eq!(cv_len_after, cv_len_before);
}

#[test]
fn condvar_wait_releases_mutex_and_signal_hands_it_back() {
    let mut p = ProcessSync::new();
    let t1 = p.create_thread();
    let t2 = p.create_thread();
    assert_eq!(sys_mutex_create(&mut p, true), 0);
    assert_eq!(sys_condvar_create(&mut p), 0);
    assert_eq!(sys_mutex_lock(&mut p, t1, 0), 0);
    assert_eq!(sys_condvar_wait(&mut p, t1, 0, 0), 0);
    // the wait released the mutex and blocked the caller
    assert_eq!(status(&p, t1), TaskStatus::Blocked);
    assert_eq!(blocking_mutex(&p, 0), (false, 0));
    // another thread takes the mutex, then signals: the waiter queues on
    // the mutex and is woken only by the unlock's handoff
    assert_eq!(sys_mutex_lock(&mut p, t2, 0), 0);
    assert_eq!(sys_condvar_signal(&mut p, 0), 0);
    assert_eq!(status(&p, t1), TaskStatus::Blocked);
    assert_eq!(blocking_mutex(&p, 0), (true, 1));
    assert_eq!(sys_mutex_unlock(&mut p, t2, 0), 0);
    assert_eq!(status(&p, t1), TaskStatus::Ready);
    assert_eq!(blocking_mutex(&p, 0), (true, 0));
}

#[test]
fn untracked_primitives_predating_detection_return_zero() {
    // Mutexes created before enabling detection are not tracked: requests
    // against them never report deadlock; primitives created afterwards
    // are tracked as usual.
    let mut p = ProcessSync::new();
    let t1 = p.create_thread();
    let t2 = p.create_thread();
    assert_eq!(sys_mutex_create(&mut p, true), 0);
    assert_eq!(sys_mutex_create(&mut p, true), 1);
    assert_eq!(sys_enable_deadlock_detect(&mut p, 1), 0);
    assert_eq!(sys_mutex_create(&mut p, true), 2);
    // the untracked mutex blocks a second taker instead of refusing it
    assert_eq!(sys_mutex_lock(&mut p, t1, 0), 0);
    assert_eq!(sys_mutex_lock(&mut p, t2, 0), 0);
    assert_eq!(status(&p, t2), TaskStatus::Blocked);
    // the tracked one goes through the detector
    assert_eq!(sys_mutex_lock(&mut p, t1, 2), 0);
    assert_eq!(blocking_mutex(&p, 2), (true, 0));
}

#[test]
fn unsafe_request_is_refused_before_anyone_blocks_on_it() {
    // Three threads, two single-unit mutexes. T0 holds m0 and has an
    // outstanding need for m1; T1 holds m1 and needs m0. T2's request for
    // m0 cannot be part of any completion order and is refused.
    let mut p = ProcessSync::new();
    let t0 = p.create_thread();
    let t1 = p.create_thread();
    let t2 = p.create_thread();
    assert_eq!(sys_enable_deadlock_detect(&mut p, 1), 0);
    assert_eq!(sys_mutex_create(&mut p, true), 0);
    assert_eq!(sys_mutex_create(&mut p, true), 1);
    assert_eq!(sys_mutex_lock(&mut p, t0, 0), 0);
    assert_eq!(sys_mutex_lock(&mut p, t1, 1), 0);
    assert_eq!(sys_mutex_lock(&mut p, t0, 1), DEADLOCK_CODE);
    assert_eq!(sys_mutex_lock(&mut p, t1, 0), DEADLOCK_CODE);
    assert_eq!(sys_mutex_lock(&mut p, t2, 0), DEADLOCK_CODE);
    assert_eq!(status(&p, t2), TaskStatus::Ready);
}

#[test]
fn enable_deadlock_detect_arguments() {
    let mut p = ProcessSync::new();
    assert_eq!(sys_enable_deadlock_detect(&mut p, 0), 0);
    assert!(p.mutex_detect.is_none());
    assert_eq!(sys_enable_deadlock_detect(&mut p, 2), -1);
    assert!(p.mutex_detect.is_none());
    assert_eq!(sys_enable_deadlock_detect(&mut p, 1), 0);
    assert!(p.mutex_detect.is_some());
    assert!(p.semaphore_detect.is_some());
    // idempotent
    assert_eq!(sys_enable_deadlock_detect(&mut p, 1), 0);
    assert!(p.mutex_detect.is_some());
}

#[test]
fn sleep_blocks_until_the_timer_expires() {
    let mut p = ProcessSync::new();
    let t1 = p.create_thread();
    assert_eq!(sys_sleep(&mut p, t1, 10, 100), 0);
    assert_eq!(status(&p, t1), TaskStatus::Blocked);
    assert_eq!(p.timers, vec![(110, t1)]);
    assert_eq!(timer_wake_due(&mut p, 105), None);
    assert_eq!(status(&p, t1), TaskStatus::Blocked);
    assert_eq!(timer_wake_due(&mut p, 110), Some(t1));
    assert_eq!(status(&p, t1), TaskStatus::Ready);
    assert!(p.timers.is_empty());
    assert_eq!(timer_wake_due(&mut p, 200), None);
}

#[derive(Clone, Copy, PartialEq)]
enum Step {
    WantLock,
    Crit,
    Unlock,
    Finished,
}

#[test]
fn producer_consumer_with_condvar() {
    // Two producers and two consumers exchange 100 items each over a
    // one-slot buffer guarded by a blocking mutex and one condvar; a
    // cooperative round-robin host runs whichever threads are not
    // blocked. Exactly 200 items are exchanged and nobody stays blocked.
    let mut p = ProcessSync::new();
    let mut tids: Vec<usize> = Vec::new();
    for _ in 0..4 {
        tids.push(p.create_thread());
    }
    assert_eq!(sys_mutex_create(&mut p, true), 0);
    assert_eq!(sys_condvar_create(&mut p), 0);
    let m = 0;
    let c = 0;

    let mut pc = [Step::WantLock; 4];
    let mut quota = [100usize; 4]; // items left per thread
    let mut buffer: usize = 0; // one-slot buffer fill level
    let mut produced: usize = 0;
    let mut consumed: usize = 0;

    let mut rounds: usize = 0;
    while pc.iter().any(|s| *s != Step::Finished) {
        rounds += 1;
        assert!(rounds < 100_000, "the exchange must terminate");
        for i in 0..4 {
            let tid = tids[i];
            if pc[i] == Step::Finished || p.tasks[tid].task_status != TaskStatus::Ready {
                continue;
            }
            let is_producer = i < 2;
            match pc[i] {
                Step::WantLock => {
                    assert_eq!(sys_mutex_lock(&mut p, tid, m), 0);
                    // once this thread is runnable again it owns the mutex
                    pc[i] = Step::Crit;
                }
                Step::Crit => {
                    let full = buffer == 1;
                    if is_producer {
                        if full {
                            assert_eq!(sys_condvar_wait(&mut p, tid, c, m), 0);
                            // re-check the predicate on wake
                        } else {
                            buffer += 1;
                            produced += 1;
                            quota[i] -= 1;
                            assert_eq!(sys_condvar_signal(&mut p, c), 0);
                            pc[i] = Step::Unlock;
                        }
                    } else {
                        if buffer == 0 {
                            assert_eq!(sys_condvar_wait(&mut p, tid, c, m), 0);
                        } else {
                            buffer -= 1;
                            consumed += 1;
                            quota[i] -= 1;
                            assert_eq!(sys_condvar_signal(&mut p, c), 0);
                            pc[i] = Step::Unlock;
                        }
                    }
                }
                Step::Unlock => {
                    assert_eq!(sys_mutex_unlock(&mut p, tid, m), 0);
                    pc[i] = if quota[i] == 0 { Step::Finished } else { Step::WantLock };
                }
                Step::Finished => {}
            }
        }
    }
    assert_eq!(produced, 200);
    assert_eq!(consumed, 200);
    for tid in tids {
        assert_eq!(status(&p, tid), TaskStatus::Ready);
    }
    assert_eq!(blocking_mutex(&p, m), (false, 0));
}
