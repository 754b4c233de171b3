//! The runtime: a FIFO queue of background tasks and the loop that drives a
//! root task to its result.

use crate::schedule::{
    advanced, drained, drives, finishes, lemma_requeued_push, requeued, resumed_once, round,
    signal_at, Run,
};
use crate::task::{suspends_at_most, Poll, Resumed, Task};
use crate::wake::WakeSignal;
use std::collections::VecDeque;
use vstd::prelude::*;

verus! {

/// A single-threaded cooperative runtime. It owns the background tasks that
/// wait for their turn, oldest first. All of them have the one type `T`; tasks
/// of several kinds are queued as the variants of an enum that is a `Task`.
pub struct MiniRuntime<T: Task<Output = ()>> {
    tasks: VecDeque<T>,
}

impl<T: Task<Output = ()>> View for MiniRuntime<T> {
    type V = Seq<T>;

    /// The queued tasks, oldest first.
    closed spec fn view(&self) -> Seq<T> {
        self.tasks@
    }
}

impl<T: Task<Output = ()>> MiniRuntime<T> {
    /// A runtime with an empty queue.
    pub fn new() -> (runtime: Self)
        ensures
            runtime@ == Seq::<T>::empty(),
    {
        MiniRuntime { tasks: VecDeque::new() }
    }

    /// The number of queued tasks.
    pub fn len(&self) -> (count: usize)
        ensures
            count == self@.len(),
    {
        self.tasks.len()
    }

    /// Appends a background task to the queue. The task is not resumed.
    pub fn spawn(&mut self, future: T)
        ensures
            final(self)@ == old(self)@.push(future),
    {
        self.tasks.push_back(future);
    }

    /// One drain pass: resumes, oldest first, each task that is queued when
    /// the pass starts. A task that suspends again goes to the back of the
    /// queue and is not resumed a second time in this pass; a task that
    /// finishes is discarded.
    pub fn drain_pass(&mut self, wake: &mut WakeSignal)
        ensures
            drained(old(self)@, *old(wake), final(self)@, *final(wake)),
    {
        let count = self.tasks.len();
        let ghost before = self.tasks@;
        let ghost start = *wake;
        let ghost mut outcomes: Seq<Resumed<T>> = Seq::empty();
        let mut done: usize = 0;
        while done < count
            invariant
                count == before.len(),
                done <= count,
                outcomes.len() == done,
                forall|i: int|
                    0 <= i < done ==> (#[trigger] before[i]).resumes(
                        signal_at(start, outcomes, i),
                        outcomes[i],
                    ),
                *wake == signal_at(start, outcomes, done as int),
                self.tasks@ == before.subrange(done as int, count as int) + requeued(outcomes),
            decreases count - done,
        {
            let mut task = self.tasks.pop_front().unwrap();
            let status = task.poll(wake);
            proof {
                let outcome = Resumed { task, wake: *wake, status };
                lemma_requeued_push(outcomes, outcome);
                let longer = outcomes.push(outcome);
                assert forall|i: int| 0 <= i <= done implies signal_at(start, longer, i)
                    == signal_at(start, outcomes, i) by {}
                outcomes = longer;
            }
            match status {
                Poll::Pending => self.tasks.push_back(task),
                Poll::Ready(()) => {},
            }
            done = done + 1;
        }
        assert(resumed_once(before, start, outcomes));
    }

    /// One round: resumes `future` once and, if it suspends, runs one drain
    /// pass with the signal as `future` left it. If it finishes, no queued
    /// task is resumed. A task that has reported `Ready` is not to be handed
    /// in again.
    pub fn turn<F: Task>(&mut self, future: &mut F, wake: &mut WakeSignal) -> (status: Poll<
        F::Output,
    >)
        ensures
            match status {
                Poll::Pending => round(
                    Run { root: *old(future), queue: old(self)@, wake: *old(wake) },
                    Run { root: *final(future), queue: final(self)@, wake: *final(wake) },
                ),
                Poll::Ready(result) => finishes(
                    Run { root: *old(future), queue: old(self)@, wake: *old(wake) },
                    result,
                    Run { root: *final(future), queue: final(self)@, wake: *final(wake) },
                ),
            },
    {
        let ghost from = Run { root: *future, queue: self@, wake: *wake };
        let status = future.poll(wake);
        let ghost step = Resumed { task: *future, wake: *wake, status };
        match &status {
            Poll::Ready(_) => {},
            Poll::Pending => {
                self.drain_pass(wake);
                assert(from.root.resumes(from.wake, step));
            },
        }
        status
    }

    /// Drives `future` to its result: rounds follow one another until the root
    /// task finishes. Whatever is queued at that moment stays queued and is
    /// not resumed. The tasks are resumed with a signal of this call's own,
    /// whose invocation has no effect.
    ///
    /// The call returns when the root task finishes, and only then: a root
    /// task that suspends for ever keeps it going round for ever, which is why
    /// a verified caller has to show a bound on the suspensions. Nothing else
    /// happens between two rounds; a caller that wants to give up the
    /// processor there drives the rounds itself, with `turn`.
    pub fn block_on<F: Task>(&mut self, future: F) -> (result: F::Output)
        requires
            exists|bound: nat| suspends_at_most(future, bound),
        ensures
            exists|start: WakeSignal, passes: nat, end: Run<F, T>|
                {
                    &&& start.wakes() == 0
                    &&& #[trigger] drives(
                        Run { root: future, queue: old(self)@, wake: start },
                        passes,
                        result,
                        end,
                    )
                    &&& final(self)@ == end.queue
                },
    {
        let mut root = future;
        let mut wake = WakeSignal::noop();
        let ghost from = Run { root: future, queue: self@, wake };
        let ghost mut bound: nat = choose|bound: nat| suspends_at_most(future, bound);
        let ghost mut passes: nat = 0;
        loop
            invariant
                from == (Run { root: future, queue: old(self)@, wake: from.wake }),
                from.wake.wakes() == 0,
                suspends_at_most(root, bound),
                advanced(from, passes, Run { root, queue: self@, wake }),
            decreases bound,
        {
            let ghost last = Run { root, queue: self@, wake };
            match self.turn(&mut root, &mut wake) {
                Poll::Ready(result) => {
                    assert(drives(from, passes, result, Run { root, queue: self@, wake }));
                    return result;
                },
                Poll::Pending => {
                    proof {
                        bound = (bound - 1) as nat;
                        passes = passes + 1;
                    }
                },
            }
        }
    }
}

} // verus!
