//! The shared work queue of the scheduler: a bounded FIFO container
//! of pending paths. A push never blocks: when the queue is full it
//! fails immediately and hands the item back, so the caller can divert
//! it to a private overflow stack.

use vstd::prelude::*;

verus! {

/// A bounded FIFO queue. Its capacity is fixed at construction; a
/// push onto a full queue is refused and returns the item.
pub struct BoundedQueue<T> {
    items: Vec<T>,
    cap: usize,
}

impl<T> BoundedQueue<T> {
    /// The queued items, front first.
    pub closed spec fn view(self) -> Seq<T> {
        self.items@
    }

    /// The fixed capacity.
    pub closed spec fn spec_cap(self) -> nat {
        self.cap as nat
    }

    /// An empty queue with capacity `cap`.
    pub fn new(cap: usize) -> (q: BoundedQueue<T>)
        ensures
            q.view() == Seq::<T>::empty(),
            q.spec_cap() == cap,
    {
        let items: Vec<T> = Vec::new();
        proof {
            assert(items@ =~= Seq::<T>::empty());
        }
        BoundedQueue { items, cap }
    }

    /// How many items are queued.
    pub fn len(&self) -> (n: usize)
        ensures
            n == self.view().len(),
    {
        self.items.len()
    }

    /// Whether the queue holds no item.
    pub fn is_empty(&self) -> (r: bool)
        ensures
            r == (self.view().len() == 0),
    {
        self.items.len() == 0
    }

    /// Whether the queue is at capacity, so that the next push would
    /// be refused.
    pub fn is_full(&self) -> (r: bool)
        ensures
            r == (self.view().len() >= self.spec_cap()),
    {
        self.items.len() >= self.cap
    }

    /// Pushes `x` at the back, or hands it back when the queue is
    /// full. Never blocks.
    pub fn push(&mut self, x: T) -> (r: Result<(), T>)
        ensures
            final(self).spec_cap() == old(self).spec_cap(),
            old(self).view().len() < old(self).spec_cap() ==> r is Ok && final(self).view()
                == old(self).view().push(x),
            old(self).view().len() >= old(self).spec_cap() ==> r == Err::<(), T>(x)
                && final(self).view() == old(self).view(),
    {
        if self.items.len() < self.cap {
            self.items.push(x);
            Ok(())
        } else {
            Err(x)
        }
    }

    /// Pops the front item, or returns nothing when the queue is
    /// empty.
    pub fn pop(&mut self) -> (r: Option<T>)
        ensures
            final(self).spec_cap() == old(self).spec_cap(),
            old(self).view().len() == 0 ==> r is None && final(self).view() == old(self).view(),
            old(self).view().len() > 0 ==> r == Some(old(self).view()[0]) && final(self).view()
                == old(self).view().drop_first(),
    {
        if self.items.len() == 0 {
            None
        } else {
            let x = self.items.remove(0);
            proof {
                assert(self.items@ =~= old(self).view().drop_first());
            }
            Some(x)
        }
    }
}

} // verus!
