use vstd::prelude::*;

verus! {

/// A FIFO queue of blocked thread ids: threads enter at the back and leave
/// at the front. Callers guarantee that a thread id sits in at most one
/// wait queue of its process at a time; the queue itself does not
/// deduplicate.
pub struct WaitQueue {
    items: Vec<usize>,
}

impl View for WaitQueue {
    type V = Seq<usize>;

    closed spec fn view(&self) -> Seq<usize> {
        self.items@
    }
}

impl WaitQueue {
    pub fn new() -> (q: WaitQueue)
        ensures
            q@ == Seq::<usize>::empty(),
    {
        WaitQueue { items: Vec::new() }
    }

    /// Enqueue a thread at the back.
    pub fn push(&mut self, tid: usize)
        ensures
            final(self)@ == old(self)@.push(tid),
    {
        self.items.push(tid);
    }

    /// Dequeue the thread at the front; `None` on an empty queue.
    pub fn pop(&mut self) -> (r: Option<usize>)
        ensures
            old(self)@.len() == 0 ==> r is None && final(self)@ == old(self)@,
            old(self)@.len() > 0 ==> r == Some(old(self)@[0]) && final(self)@ == old(self)@.subrange(
                1,
                old(self)@.len() as int,
            ),
    {
        if self.items.len() == 0 {
            None
        } else {
            Some(self.items.remove(0))
        }
    }

    pub fn len(&self) -> (n: usize)
        ensures
            n == self@.len(),
    {
        self.items.len()
    }
}

} // verus!
