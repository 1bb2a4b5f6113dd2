//! Cooperative single-threaded executor. It owns every spawned task, keeps a
//! FIFO queue of runnable task identities, polls each runnable task once per
//! scheduling pass, drops a task the moment it completes, and leaves a
//! pending task suspended until its waker re-enqueues it. The processor-halt
//! between passes is the embedder's business; `run_ready_tasks` is one pass.

use vstd::prelude::*;
use crate::scancode::ScancodeQueue;
use crate::task::KernelFuture;
use crate::task::PollResult;

verus! {

/// A task identity is its slot index; a slot turns to `None` when its task
/// completes and is dropped.
pub struct Executor<T> {
    tasks: Vec<Option<T>>,
    ready: Vec<usize>,
}

impl<T: KernelFuture> Executor<T> {
    pub closed spec fn tasks_spec(self) -> Seq<Option<T>> {
        self.tasks@
    }

    /// The identities waiting to be polled, front first.
    pub closed spec fn ready_spec(self) -> Seq<usize> {
        self.ready@
    }

    pub open spec fn task_runnable(self, id: usize) -> bool {
        self.ready_spec().contains(id)
    }

    pub open spec fn wf(self) -> bool {
        &&& forall|k: int|
            0 <= k < self.ready_spec().len() ==> ((#[trigger] self.ready_spec()[k]) as int)
                < self.tasks_spec().len() && self.tasks_spec()[self.ready_spec()[k] as int] is Some
        &&& forall|k: int, l: int|
            0 <= k < l < self.ready_spec().len() ==> (#[trigger] self.ready_spec()[k]) != (
            #[trigger] self.ready_spec()[l])
        &&& forall|i: int|
            0 <= i < self.tasks_spec().len() && (#[trigger] self.tasks_spec()[i]) is Some
                ==> !self.tasks_spec()[i]->0.completed()
    }

    pub fn new() -> (r: Executor<T>)
        ensures
            r.wf(),
            r.tasks_spec() =~= Seq::<Option<T>>::empty(),
            r.ready_spec() =~= Seq::<usize>::empty(),
    {
        Executor { tasks: Vec::new(), ready: Vec::new() }
    }

    /// Takes ownership of a task, assigns it a fresh identity and enqueues it
    /// as runnable.
    pub fn spawn(&mut self, task: T) -> (id: usize)
        requires
            old(self).wf(),
            !task.completed(),
            old(self).tasks_spec().len() < usize::MAX,
        ensures
            final(self).wf(),
            id == old(self).tasks_spec().len(),
            final(self).tasks_spec() == old(self).tasks_spec().push(Some(task)),
            final(self).ready_spec() == old(self).ready_spec().push(id),
            final(self).task_runnable(id),
    {
        let id = self.tasks.len();
        self.tasks.push(Some(task));
        proof {
            assert forall|k: int|
                0 <= k < self.ready_spec().len() implies ((#[trigger] self.ready_spec()[k]) as int)
                < self.tasks_spec().len() && self.tasks_spec()[self.ready_spec()[k] as int] is Some by {
                assert(old(self).ready_spec()[k] == self.ready_spec()[k]);
            };
        }
        self.ready.push(id);
        proof {
            assert(self.ready_spec().last() == id);
            assert(self.ready_spec().contains(id));
        }
        id
    }

    /// Marks a suspended task runnable again. Waking is idempotent: waking a
    /// task that is already runnable, already complete, or unknown changes
    /// nothing.
    pub fn wake(&mut self, id: usize)
        requires
            old(self).wf(),
        ensures
            final(self).wf(),
            final(self).tasks_spec() == old(self).tasks_spec(),
            if id < old(self).tasks_spec().len() && old(self).tasks_spec()[id as int] is Some
                && !old(self).task_runnable(id) {
                final(self).ready_spec() == old(self).ready_spec().push(id)
            } else {
                final(self).ready_spec() == old(self).ready_spec()
            },
    {
        if id >= self.tasks.len() {
            return ;
        }
        let alive = match &self.tasks[id] {
            Some(_) => true,
            None => false,
        };
        if !alive {
            return ;
        }
        let mut k: usize = 0;
        let n = self.ready.len();
        while k < n
            invariant
                k <= n,
                n == self.ready_spec().len(),
                *self == *old(self),
                old(self).wf(),
                forall|l: int| 0 <= l < k ==> (#[trigger] self.ready_spec()[l]) != id,
            decreases n - k,
        {
            if self.ready[k] == id {
                proof {
                    assert(self.task_runnable(id));
                }
                return ;
            }
            k += 1;
        }
        proof {
            if self.task_runnable(id) {
                let l = choose|l: int|
                    0 <= l < self.ready_spec().len() && self.ready_spec()[l] == id;
                assert(false);
            }
        }
        self.ready.push(id);
        proof {
            assert(self.ready_spec().last() == id);
        }
    }

    pub fn has_runnable(&self) -> (r: bool)
        ensures
            r == (self.ready_spec().len() > 0),
    {
        self.ready.len() > 0
    }

    /// Law: a woken task is runnable again, so the next scheduling pass
    /// polls it. The relation below is what `wake` establishes when it
    /// re-enqueues a suspended task.
    pub proof fn lemma_woken_task_is_runnable(e0: Executor<T>, e1: Executor<T>, id: usize)
        requires
            e1.ready_spec() == e0.ready_spec().push(id),
        ensures
            e1.task_runnable(id),
    {
        assert(e1.ready_spec().last() == id);
    }

    /// Whether the task with this identity has completed and been dropped.
    pub fn task_done(&self, id: usize) -> (r: bool)
        ensures
            r == (id < self.tasks_spec().len() && self.tasks_spec()[id as int] is None),
    {
        if id < self.tasks.len() {
            match &self.tasks[id] {
                Some(_) => false,
                None => true,
            }
        } else {
            false
        }
    }

    /// A view of the task with this identity, if it is still alive.
    pub fn task_ref(&self, id: usize) -> (r: Option<&T>)
        ensures
            match r {
                Some(t) => id < self.tasks_spec().len() && self.tasks_spec()[id as int] == Some(
                    *t,
                ),
                None => !(id < self.tasks_spec().len() && self.tasks_spec()[id as int] is Some),
            },
    {
        if id < self.tasks.len() {
            match &self.tasks[id] {
                Some(t) => Some(t),
                None => None,
            }
        } else {
            None
        }
    }

    /// One scheduling pass: pops and polls every runnable task once. A task
    /// whose poll reports ready is dropped together with its identity; a
    /// pending task stays suspended, absent from the runnable queue, until
    /// something wakes it. Afterwards the runnable queue is empty, so the
    /// embedder may halt the processor until the next interrupt.
    pub fn run_ready_tasks(&mut self, queue: &mut ScancodeQueue)
        requires
            old(self).wf(),
            old(queue).wf(),
        ensures
            final(self).wf(),
            final(queue).wf(),
            final(queue).cap_spec() == old(queue).cap_spec(),
            final(self).ready_spec().len() == 0,
            final(self).tasks_spec().len() == old(self).tasks_spec().len(),
            forall|id: usize|
                id < old(self).tasks_spec().len() && !old(self).task_runnable(id)
                    ==> final(self).tasks_spec()[id as int] == old(self).tasks_spec()[id as int],
            forall|id: usize|
                #[trigger] old(self).task_runnable(id)
                    ==> (final(self).tasks_spec()[id as int] is None)
                        == old(self).tasks_spec()[id as int]->0.completes_now(),
            forall|id: usize|
                #[trigger] old(self).task_runnable(id) ==> (final(self).tasks_spec()[id as int]
                    matches Some(t2) ==> T::poll_step(old(self).tasks_spec()[id as int]->0, t2)),
    {
        let ghost r0 = self.ready_spec();
        let ghost t0 = self.tasks_spec();
        let ghost mut done: int = 0;
        while self.ready.len() > 0
            invariant
                self.wf(),
                queue.wf(),
                queue.cap_spec() == old(queue).cap_spec(),
                0 <= done <= r0.len(),
                self.ready_spec() == r0.skip(done),
                self.tasks_spec().len() == t0.len(),
                forall|k: int|
                    0 <= k < r0.len() ==> ((#[trigger] r0[k]) as int) < t0.len(),
                forall|id: usize|
                    id < t0.len() && !r0.contains(id) ==> self.tasks_spec()[id as int] == t0[id as int],
                forall|k: int|
                    0 <= k < done ==> (self.tasks_spec()[(#[trigger] r0[k]) as int] is None)
                        == t0[r0[k] as int]->0.completes_now(),
                forall|k: int|
                    0 <= k < done ==> (self.tasks_spec()[(#[trigger] r0[k]) as int] matches Some(
                        t2,
                    ) ==> T::poll_step(t0[r0[k] as int]->0, t2)),
                forall|k: int|
                    done <= k < r0.len()
                        ==> self.tasks_spec()[(#[trigger] r0[k]) as int] == t0[r0[k] as int],
                forall|k: int, l: int| 0 <= k < l < r0.len() ==> r0[k] != r0[l],
            decreases self.ready_spec().len(),
        {
            proof {
                assert(self.ready_spec()[0] == r0.skip(done)[0]);
                assert(r0.skip(done)[0] == r0[done]);
            }
            let id = self.ready.remove(0);
            let ghost tp = self.tasks_spec();
            proof {
                assert(self.ready_spec() =~= r0.skip(done).skip(1));
                assert(r0.skip(done).skip(1) =~= r0.skip(done + 1));
                assert(id == r0[done]);
                assert(tp[id as int] == t0[id as int]);
                assert(tp[id as int] is Some);
            }
            let mut slot: Option<T> = None;
            core::mem::swap(&mut self.tasks[id], &mut slot);
            match slot {
                Some(mut task) => {
                    proof {
                        assert(Some(task) == t0[id as int]);
                        assert(!task.completed());
                    }
                    let r = task.poll(id, queue);
                    match r {
                        PollResult::Ready => {
                            // completed: the task and its identity are dropped
                        },
                        PollResult::Pending => {
                            self.tasks[id] = Some(task);
                        },
                    }
                    proof {
                        assert(self.tasks_spec().len() == tp.len());
                        assert forall|k: int| 0 <= k < r0.len() && r0[k] != id implies
                            self.tasks_spec()[(#[trigger] r0[k]) as int] == tp[r0[k] as int] by {};
                        assert((self.tasks_spec()[id as int] is None)
                            == t0[id as int]->0.completes_now());
                        assert(self.tasks_spec()[id as int] matches Some(t2)
                            ==> T::poll_step(t0[id as int]->0, t2));
                        assert forall|idx: usize|
                            idx < t0.len() && !r0.contains(idx) implies #[trigger] self.tasks_spec()[
                            idx as int] == t0[idx as int] by {
                            assert(idx != id) by {
                                if idx == id {
                                    assert(r0[done] == idx);
                                    assert(r0.contains(idx));
                                }
                            };
                        };
                    }
                },
                None => {
                    proof {
                        assert(false);
                    }
                },
            }
            proof {
                done = done + 1;
            }
        }
        proof {
            assert(done == r0.len());
            assert forall|id: usize| #[trigger]
                old(self).task_runnable(id) implies (self.tasks_spec()[id as int] is None) == t0[id as int]->0.completes_now() by {
                let k = choose|k: int| 0 <= k < r0.len() && r0[k] == id;
                assert((self.tasks_spec()[r0[k] as int] is None)
                    == t0[r0[k] as int]->0.completes_now());
            };
        }
    }
}

} // verus!
