use vstd::prelude::*;

verus! {

/// The status of a task in its lifecycle.
#[derive(Copy, Clone, Debug, PartialEq, Eq, Structural)]
pub enum TaskStatus {
    /// uninitialized
    UnInit,
    /// ready to run (or running: the single CPU's scheduler, an external
    /// collaborator, picks among the ready threads)
    Ready,
    /// running
    Running,
    /// blocked on a wait queue or on the timer
    Blocked,
    /// exited
    Exited,
}

/// The task control block of a thread, as the synchronization core sees
/// it: its status, and the first time it was scheduled. The saved register
/// context lives with the external context-switching code.
#[derive(Copy, Clone, Debug, PartialEq, Eq, Structural)]
pub struct TaskControlBlock {
    /// The task status in its lifecycle.
    pub task_status: TaskStatus,
    /// The first time (us) of being scheduled.
    pub time: Option<usize>,
}

impl TaskControlBlock {
    /// Record the first time the task runs; the current clock reading is
    /// handed in by the timer, an external collaborator. Later calls
    /// change nothing.
    pub fn set_time_start(&mut self, now_us: usize)
        ensures
            final(self).task_status == old(self).task_status,
            old(self).time is None ==> final(self).time == Some(now_us),
            old(self).time is Some ==> final(self).time == old(self).time,
    {
        if self.time.is_none() {
            self.time = Some(now_us);
        }
    }
}

} // verus!
