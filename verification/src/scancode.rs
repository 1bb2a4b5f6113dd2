//! Bounded queue of raw keyboard scancodes, filled by the keyboard interrupt
//! handler (sole producer) and drained by the keyboard task (sole consumer).
//! A push onto a full queue drops the scancode rather than blocking, and a
//! successful push reports the registered waker so the handler can wake the
//! consuming task exactly once per push.

use vstd::prelude::*;

verus! {

pub struct ScancodeQueue {
    items: Vec<u8>,
    cap: usize,
    waker: Option<usize>,
}

impl View for ScancodeQueue {
    type V = Seq<u8>;

    closed spec fn view(&self) -> Seq<u8> {
        self.items@
    }
}

impl ScancodeQueue {
    pub closed spec fn cap_spec(self) -> usize {
        self.cap
    }

    /// The task to wake when a scancode arrives, if one registered itself.
    pub closed spec fn waker_spec(self) -> Option<usize> {
        self.waker
    }

    pub open spec fn wf(self) -> bool {
        self@.len() <= self.cap_spec() && self.cap_spec() > 0
    }

    pub fn new(capacity: usize) -> (r: ScancodeQueue)
        requires
            capacity > 0,
        ensures
            r.wf(),
            r@ =~= Seq::<u8>::empty(),
            r.cap_spec() == capacity,
            r.waker_spec() is None,
    {
        ScancodeQueue { items: Vec::new(), cap: capacity, waker: None }
    }

    pub fn len(&self) -> (r: usize)
        ensures
            r == self@.len(),
    {
        self.items.len()
    }

    pub fn is_empty(&self) -> (r: bool)
        ensures
            r == (self@.len() == 0),
    {
        self.items.len() == 0
    }

    pub fn capacity(&self) -> (r: usize)
        ensures
            r == self.cap_spec(),
    {
        self.cap
    }

    /// The consuming task records itself as the one to wake on new input.
    pub fn register_waker(&mut self, id: usize)
        ensures
            final(self)@ == old(self)@,
            final(self).cap_spec() == old(self).cap_spec(),
            final(self).waker_spec() == Some(id),
            old(self).wf() ==> final(self).wf(),
    {
        self.waker = Some(id);
    }

    /// Appends a scancode unless the queue is full; a full queue drops it
    /// and leaves the queued entries untouched.
    pub fn push(&mut self, scancode: u8) -> (accepted: bool)
        requires
            old(self).wf(),
        ensures
            final(self).wf(),
            final(self).cap_spec() == old(self).cap_spec(),
            final(self).waker_spec() == old(self).waker_spec(),
            accepted == (old(self)@.len() < old(self).cap_spec()),
            accepted ==> final(self)@ == old(self)@.push(scancode),
            !accepted ==> final(self)@ == old(self)@,
    {
        if self.items.len() < self.cap {
            self.items.push(scancode);
            true
        } else {
            false
        }
    }

    /// The interrupt handler's operation: push the scancode and, exactly when
    /// the push succeeded and a waker is registered, report which task to
    /// wake. A dropped scancode wakes nobody.
    pub fn push_scancode(&mut self, scancode: u8) -> (wake: Option<usize>)
        requires
            old(self).wf(),
        ensures
            final(self).wf(),
            final(self).cap_spec() == old(self).cap_spec(),
            final(self).waker_spec() == old(self).waker_spec(),
            old(self)@.len() < old(self).cap_spec() ==> final(self)@ == old(self)@.push(scancode)
                && wake == old(self).waker_spec(),
            old(self)@.len() >= old(self).cap_spec() ==> final(self)@ == old(self)@
                && wake is None,
    {
        let accepted = self.push(scancode);
        if accepted {
            match self.waker {
                Some(id) => Some(id),
                None => None,
            }
        } else {
            None
        }
    }

    /// Removes and returns the oldest scancode, in arrival (FIFO) order.
    pub fn pop(&mut self) -> (r: Option<u8>)
        requires
            old(self).wf(),
        ensures
            final(self).wf(),
            final(self).cap_spec() == old(self).cap_spec(),
            final(self).waker_spec() == old(self).waker_spec(),
            old(self)@.len() == 0 ==> r is None && final(self)@ == old(self)@,
            old(self)@.len() > 0 ==> r == Some(old(self)@[0]) && final(self)@ == old(self)@.skip(
                1,
            ),
    {
        if self.items.len() == 0 {
            None
        } else {
            let s = self.items.remove(0);
            proof {
                assert(self.items@ =~= old(self)@.skip(1));
            }
            Some(s)
        }
    }
}

} // verus!
