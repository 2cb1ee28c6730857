use kernel_sync::process::{ChildProc, Process};
use kernel_sync::syscall::{sys_fork, sys_getpid, sys_set_priority, sys_waitpid};
use kernel_sync::task::{TaskControlBlock, TaskStatus};
use kernel_sync::time::TimeVal;

fn fresh_process(pid: usize) -> Process {
    Process { pid, priority: 16, children: Vec::new() }
}

#[test]
fn getpid_returns_the_own_pid() {
    let p = fresh_process(7);
    assert_eq!(sys_getpid(&p), 7);
}

#[test]
fn fork_registers_a_child_and_returns_its_pid() {
    let mut p = fresh_process(1);
    assert_eq!(sys_fork(&mut p, 5), 5);
    assert_eq!(p.children, vec![ChildProc { pid: 5, zombie: false, exit_code: 0 }]);
}

#[test]
fn waitpid_without_children_is_an_error() {
    let mut p = fresh_process(1);
    assert_eq!(sys_waitpid(&mut p, -1), (-1, None));
    assert_eq!(sys_waitpid(&mut p, 9), (-1, None));
}

#[test]
fn waitpid_on_a_running_child_asks_to_retry() {
    let mut p = fresh_process(1);
    sys_fork(&mut p, 5);
    assert_eq!(sys_waitpid(&mut p, -1), (-2, None));
    assert_eq!(sys_waitpid(&mut p, 5), (-2, None));
    assert_eq!(sys_waitpid(&mut p, 6), (-1, None));
    assert_eq!(p.children.len(), 1);
}

#[test]
fn waitpid_reaps_the_first_matching_zombie() {
    let mut p = fresh_process(1);
    p.children = vec![
        ChildProc { pid: 5, zombie: false, exit_code: 0 },
        ChildProc { pid: 6, zombie: true, exit_code: 3 },
        ChildProc { pid: 7, zombie: true, exit_code: 4 },
    ];
    assert_eq!(sys_waitpid(&mut p, -1), (6, Some(3)));
    assert_eq!(p.children.len(), 2);
    assert_eq!(sys_waitpid(&mut p, 7), (7, Some(4)));
    assert_eq!(p.children, vec![ChildProc { pid: 5, zombie: false, exit_code: 0 }]);
}

#[test]
fn set_priority_validates_and_saturates() {
    let mut p = fresh_process(1);
    assert_eq!(sys_set_priority(&mut p, 1), -1);
    assert_eq!(p.priority, 16);
    assert_eq!(sys_set_priority(&mut p, 0), -1);
    assert_eq!(sys_set_priority(&mut p, -3), -1);
    assert_eq!(sys_set_priority(&mut p, 5), 5);
    assert_eq!(p.priority, 5);
    assert_eq!(sys_set_priority(&mut p, 1_000_000), 1_000_000);
    assert_eq!(p.priority, u16::MAX);
}

#[test]
fn time_from_us_splits_seconds_and_microseconds() {
    let t = TimeVal::from_us(3_500_042);
    assert_eq!(t.sec, 3);
    assert_eq!(t.usec, 500_042);
    let t = TimeVal::from_us(999_999);
    assert_eq!(t.sec, 0);
    assert_eq!(t.usec, 999_999);
    let t = TimeVal::from_us(2_000_000);
    assert_eq!(t.sec, 2);
    assert_eq!(t.usec, 0);
}

#[test]
fn time_now_has_subsecond_microseconds() {
    let t = TimeVal::now();
    assert!(t.usec < 1_000_000);
}

#[test]
fn set_time_start_records_only_the_first_time() {
    let mut tcb = TaskControlBlock { task_status: TaskStatus::Ready, time: None };
    tcb.set_time_start(42);
    assert_eq!(tcb.time, Some(42));
    tcb.set_time_start(99);
    assert_eq!(tcb.time, Some(42));
    assert_eq!(tcb.task_status, TaskStatus::Ready);
}
