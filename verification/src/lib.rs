//! Synchronization core of a small single-CPU teaching kernel that runs
//! multi-threaded user processes cooperatively.
//!
//! The crate models the kernel's per-process synchronization state as plain
//! data: FIFO wait queues, spinning and blocking mutexes, counting
//! semaphores, condition variables, a Banker's-style deadlock detector, and
//! the per-process table that ties them to the syscall surface. The
//! scheduler, the timer and user memory are external collaborators: the
//! syscall-level functions here take the calling thread's id (and, where
//! needed, the current time) as arguments and record blocking and waking as
//! thread-status transitions, which a host loop acts on.

pub mod condvar;
pub mod detect;
pub mod mutex;
pub mod process;
pub mod queue;
pub mod semaphore;
pub mod syscall;
pub mod task;
pub mod time;
