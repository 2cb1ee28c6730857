use vstd::prelude::*;

verus! {

/// One blocked `wait` call: the waiting thread and the mutex it must
/// reacquire when it is signalled. A condition variable is not bound to a
/// mutex at construction, so each waiter records its own.
#[derive(Clone, Copy, PartialEq, Eq, Structural)]
pub struct CondWaiter {
    pub tid: usize,
    pub mutex_id: usize,
}

/// A condition variable: nothing but a FIFO queue of blocked waiters.
pub struct Condvar {
    queue: Vec<CondWaiter>,
}

impl View for Condvar {
    type V = Seq<CondWaiter>;

    closed spec fn view(&self) -> Seq<CondWaiter> {
        self.queue@
    }
}

impl Condvar {
    pub fn new() -> (c: Condvar)
        ensures
            c@ == Seq::<CondWaiter>::empty(),
    {
        Condvar { queue: Vec::new() }
    }

    /// Record that `tid` starts waiting and will need `mutex_id` back on
    /// wake. The caller unlocks the mutex and blocks the thread around
    /// this call.
    pub fn wait_enqueue(&mut self, tid: usize, mutex_id: usize)
        ensures
            final(self)@ == old(self)@.push(CondWaiter { tid, mutex_id }),
    {
        self.queue.push(CondWaiter { tid, mutex_id });
    }

    /// Dequeue the front waiter, if any; it will then contend for its
    /// mutex. Signalling an empty condition variable changes nothing.
    pub fn signal(&mut self) -> (w: Option<CondWaiter>)
        ensures
            old(self)@.len() == 0 ==> w is None && *final(self) == *old(self),
            old(self)@.len() > 0 ==> w == Some(old(self)@[0]) && final(self)@ == old(
                self,
            )@.subrange(1, old(self)@.len() as int),
    {
        if self.queue.len() == 0 {
            None
        } else {
            Some(self.queue.remove(0))
        }
    }

    pub fn len(&self) -> (n: usize)
        ensures
            n == self@.len(),
    {
        self.queue.len()
    }
}

} // verus!
