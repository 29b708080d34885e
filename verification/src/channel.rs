//! Bounded message queues: the only way the transport and application
//! layers exchange commands and notices with the engine.
//!
//! A full queue refuses the message and hands it back, so a producer can
//! apply backpressure (retry, park, yield) instead of losing it silently.
//! The queues are plain values; whatever task or thread structure the
//! embedding application uses wraps them on the outside.

use vstd::prelude::*;

verus! {

/// A first-in first-out queue holding at most `capacity` messages.
pub struct BoundedQueue<T> {
    pub items: Vec<T>,
    pub capacity: usize,
}

impl<T> BoundedQueue<T> {
    /// A queue never holds more than its capacity.
    pub open spec fn wf(self) -> bool {
        &&& 1 <= self.capacity
        &&& self.items@.len() <= self.capacity
    }

    /// An empty queue with room for `capacity` messages.
    pub fn new(capacity: usize) -> (q: BoundedQueue<T>)
        requires
            1 <= capacity,
        ensures
            q.wf(),
            q.items@.len() == 0,
            q.capacity == capacity,
    {
        BoundedQueue { items: Vec::new(), capacity }
    }

    /// How many messages are queued.
    pub fn len(&self) -> (n: usize)
        ensures
            n == self.items@.len(),
    {
        self.items.len()
    }

    /// Enqueues a message, or hands it back unchanged when the queue is
    /// full so the producer can back off and retry.
    pub fn try_send(&mut self, message: T) -> (r: Result<(), T>)
        ensures
            final(self).capacity == old(self).capacity,
            old(self).items@.len() < old(self).capacity ==> r is Ok && final(self).items@ == old(
                self,
            ).items@.push(message),
            old(self).items@.len() >= old(self).capacity ==> (r matches Err(m) && m == message)
                && *final(self) == *old(self),
            old(self).wf() ==> final(self).wf(),
    {
        if self.items.len() < self.capacity {
            self.items.push(message);
            Ok(())
        } else {
            Err(message)
        }
    }

    /// Dequeues the oldest message, or `None` when the queue is empty.
    pub fn try_recv(&mut self) -> (r: Option<T>)
        ensures
            final(self).capacity == old(self).capacity,
            old(self).items@.len() == 0 ==> r is None && *final(self) == *old(self),
            old(self).items@.len() > 0 ==> (r matches Some(m) && m == old(self).items@[0])
                && final(self).items@ == old(self).items@.subrange(
                1,
                old(self).items@.len() as int,
            ),
            old(self).wf() ==> final(self).wf(),
    {
        if self.items.len() == 0 {
            None
        } else {
            let m = self.items.remove(0);
            proof {
                assert(self.items@ =~= old(self).items@.subrange(
                    1,
                    old(self).items@.len() as int,
                ));
            }
            Some(m)
        }
    }
}

} // verus!
