//! Tasks as explicit poll-based state machines: a task exposes one step
//! ("advance, report ready or pending") and a completion state. The kernel's
//! own tasks live here: the keyboard task that drains the scancode queue and
//! never finishes, and an immediately-ready task.

use vstd::prelude::*;
use crate::scancode::ScancodeQueue;

verus! {

#[derive(Clone, Copy, PartialEq, Eq, Structural, Debug)]
pub enum PollResult {
    Ready,
    Pending,
}

/// A cooperatively scheduled unit of work. `poll` advances the task one
/// step; it reports `Ready` exactly when the step completes the task, and
/// whether a step completes the task is a function of the task's own state
/// (`completes_now`), never of the shared queue.
pub trait KernelFuture: Sized {
    spec fn completed(&self) -> bool;

    /// Whether the next poll will finish the task.
    spec fn completes_now(&self) -> bool;

    /// How one poll may change the task: every poll leaves the task in this
    /// relation to its state before the poll, so a caller can follow a
    /// surviving task across scheduling passes.
    spec fn poll_step(pre: Self, post: Self) -> bool;

    fn poll(&mut self, id: usize, queue: &mut ScancodeQueue) -> (r: PollResult)
        requires
            !old(self).completed(),
            old(queue).wf(),
        ensures
            final(queue).wf(),
            final(queue).cap_spec() == old(queue).cap_spec(),
            (r == PollResult::Ready) == old(self).completes_now(),
            final(self).completed() == old(self).completes_now(),
            Self::poll_step(*old(self), *final(self)),
    ;
}

/// A task that is ready on its first poll, like an async block that never
/// awaits anything unready.
pub struct ImmediateTask {
    done: bool,
}

impl ImmediateTask {
    pub fn new() -> (r: ImmediateTask)
        ensures
            !r.completed(),
            r.completes_now(),
    {
        ImmediateTask { done: false }
    }
}

impl KernelFuture for ImmediateTask {
    closed spec fn completed(&self) -> bool {
        self.done
    }

    closed spec fn completes_now(&self) -> bool {
        true
    }

    /// A poll marks the task done.
    closed spec fn poll_step(pre: ImmediateTask, post: ImmediateTask) -> bool {
        post.done
    }

    fn poll(&mut self, _id: usize, _queue: &mut ScancodeQueue) -> (r: PollResult) {
        self.done = true;
        PollResult::Ready
    }
}

/// The keyboard task: on each poll it registers its waker with the queue,
/// drains every queued scancode in FIFO order into its record of received
/// codes, and suspends. It never completes.
pub struct KeyboardTask {
    received: Vec<u8>,
}

impl KeyboardTask {
    pub fn new() -> (r: KeyboardTask)
        ensures
            !r.completed(),
            r.received_spec() =~= Seq::<u8>::empty(),
    {
        KeyboardTask { received: Vec::new() }
    }

    /// Every scancode the task has consumed so far, oldest first.
    pub closed spec fn received_spec(self) -> Seq<u8> {
        self.received@
    }

    pub fn received(&self) -> (r: &Vec<u8>)
        ensures
            r@ == self.received_spec(),
    {
        &self.received
    }
}

impl KernelFuture for KeyboardTask {
    open spec fn completed(&self) -> bool {
        false
    }

    open spec fn completes_now(&self) -> bool {
        false
    }

    /// A poll only appends newly arrived scancodes: what was received
    /// before stays a prefix of what is received after.
    closed spec fn poll_step(pre: KeyboardTask, post: KeyboardTask) -> bool {
        pre.received@.is_prefix_of(post.received@)
    }

    fn poll(&mut self, id: usize, queue: &mut ScancodeQueue) -> (r: PollResult)
        ensures
            final(self).received_spec() == old(self).received_spec() + old(queue)@,
            final(queue)@.len() == 0,
            final(queue).waker_spec() == Some(id),
            r == PollResult::Pending,
    {
        queue.register_waker(id);
        let ghost q0 = queue@;
        let ghost r0 = self.received@;
        let ghost mut drained: int = 0;
        while !queue.is_empty()
            invariant
                queue.wf(),
                queue.cap_spec() == old(queue).cap_spec(),
                queue.waker_spec() == Some(id),
                0 <= drained <= q0.len(),
                queue@ == q0.skip(drained),
                self.received@ == r0 + q0.take(drained),
            decreases queue@.len(),
        {
            match queue.pop() {
                Some(s) => {
                    self.received.push(s);
                    proof {
                        assert(q0.skip(drained).skip(1) =~= q0.skip(drained + 1));
                        assert(q0.take(drained).push(q0.skip(drained)[0]) =~= q0.take(
                            drained + 1,
                        ));
                        assert(self.received@ =~= r0 + q0.take(drained + 1));
                    }
                    proof {
                        drained = drained + 1;
                    }
                },
                None => {
                    proof {
                        assert(false);
                    }
                },
            }
        }
        proof {
            assert(q0.take(drained) =~= q0);
            assert(self.received@ =~= r0 + q0);
            assert((r0 + q0).subrange(0, r0.len() as int) =~= r0);
        }
        PollResult::Pending
    }
}

/// The fixed set of task kinds this kernel runs; the executor is generic,
/// and this enum lets one executor hold both kinds at once.
pub enum KernelTask {
    Immediate(ImmediateTask),
    Keyboard(KeyboardTask),
}

impl KernelFuture for KernelTask {
    open spec fn completed(&self) -> bool {
        match self {
            KernelTask::Immediate(t) => t.completed(),
            KernelTask::Keyboard(t) => t.completed(),
        }
    }

    open spec fn completes_now(&self) -> bool {
        match self {
            KernelTask::Immediate(t) => t.completes_now(),
            KernelTask::Keyboard(t) => t.completes_now(),
        }
    }

    /// A poll keeps the task's kind and steps the inner state machine.
    open spec fn poll_step(pre: KernelTask, post: KernelTask) -> bool {
        match (pre, post) {
            (KernelTask::Immediate(a), KernelTask::Immediate(b)) => ImmediateTask::poll_step(a, b),
            (KernelTask::Keyboard(a), KernelTask::Keyboard(b)) => KeyboardTask::poll_step(a, b),
            _ => false,
        }
    }

    fn poll(&mut self, id: usize, queue: &mut ScancodeQueue) -> (r: PollResult) {
        match self {
            KernelTask::Immediate(t) => t.poll(id, queue),
            KernelTask::Keyboard(t) => t.poll(id, queue),
        }
    }
}

} // verus!
