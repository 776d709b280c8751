//! The per-frame render submission queue: draw requests produced by render
//! hooks, consumed in order by the renderer.
use std::collections::VecDeque;

use vstd::prelude::*;

verus! {

pub struct RenderQueue<T> {
    deque: VecDeque<T>,
}

impl<T> View for RenderQueue<T> {
    type V = Seq<T>;

    closed spec fn view(&self) -> Seq<T> {
        self.deque@
    }
}

impl<T> RenderQueue<T> {
    pub fn new() -> (r: Self)
        ensures
            r@ == Seq::<T>::empty(),
    {
        RenderQueue { deque: VecDeque::new() }
    }

    /// Adds a draw request at the back.
    pub fn enqueue(&mut self, item: T)
        ensures
            final(self)@ == old(self)@.push(item),
    {
        self.deque.push_back(item);
    }

    /// Takes the oldest draw request, if any.
    pub fn dequeue(&mut self) -> (r: Option<T>)
        ensures
            old(self)@.len() == 0 ==> r is None && final(self)@ == old(self)@,
            old(self)@.len() > 0 ==> r == Some(old(self)@[0]) && final(self)@ == old(self)@.drop_first(),
    {
        self.deque.pop_front()
    }

    /// Takes every draw request, oldest first, leaving the queue empty.
    pub fn drain(&mut self) -> (r: Vec<T>)
        ensures
            r@ == old(self)@,
            final(self)@ == Seq::<T>::empty(),
    {
        let mut out: Vec<T> = Vec::new();
        while self.deque.len() > 0
            invariant
                out@ + self.deque@ == old(self)@,
            decreases self.deque@.len(),
        {
            match self.deque.pop_front() {
                Some(item) => {
                    out.push(item);
                    assert(out@ + self.deque@ =~= old(self)@);
                },
                None => {},
            }
        }
        assert(out@ =~= old(self)@);
        out
    }

    pub fn len(&self) -> (r: usize)
        ensures
            r == self@.len(),
    {
        self.deque.len()
    }
}

} // verus!
