//! Resumable tasks and the yield point.

use crate::wake::WakeSignal;
use vstd::prelude::*;

verus! {

/// What a task reports when it is resumed.
#[derive(Debug, PartialEq, Eq)]
pub enum Poll<T> {
    /// The task has finished with this result and must not be resumed again.
    Ready(T),
    /// The task stopped at a suspension point and wants to be resumed later.
    Pending,
}

/// What one resumption led to: the task and the wake signal as the resumption
/// left them, and what the task reported.
pub struct Resumed<T: Task> {
    pub task: T,
    pub wake: WakeSignal,
    pub status: Poll<T::Output>,
}

/// A unit of work that can be resumed until it reports its result.
///
/// A task has no error channel: one that fails either finishes with a
/// degenerate result or does not return from `poll`. A task that blocks inside
/// `poll` stalls whoever resumes it.
pub trait Task: Sized {
    /// The result the task finishes with.
    type Output;

    /// Whether resuming `self` with the signal `wake` may lead to `outcome`.
    /// This is a relation: a task whose behaviour depends on more than its own
    /// state admits several outcomes. A task that does not describe itself
    /// admits every outcome.
    open spec fn resumes(&self, wake: WakeSignal, outcome: Resumed<Self>) -> bool {
        true
    }

    /// Resumes the task once. `wake` is the signal the task may invoke to ask
    /// for another resumption.
    fn poll(&mut self, wake: &mut WakeSignal) -> (status: Poll<Self::Output>)
        ensures
            old(self).resumes(
                *old(wake),
                (Resumed { task: *final(self), wake: *final(wake), status }),
            ),
    ;
}

/// Whether `task` reports `Pending` at most `bound` more times, whatever
/// outcomes its resumptions take.
pub open spec fn suspends_at_most<F: Task>(task: F, bound: nat) -> bool
    decreases bound,
{
    forall|wake: WakeSignal, outcome: Resumed<F>|
        #[trigger] task.resumes(wake, outcome) && outcome.status is Pending ==> bound > 0
            && suspends_at_most(outcome.task, (bound - 1) as nat)
}

/// A task that suspends exactly once and then finishes.
pub struct YieldNow {
    yielded: bool,
}

impl YieldNow {
    /// Whether the one suspension has already happened.
    pub closed spec fn yielded(&self) -> bool {
        self.yielded
    }

    /// Whether the one suspension has already happened.
    pub fn has_yielded(&self) -> (yielded: bool)
        ensures
            yielded == self.yielded(),
    {
        self.yielded
    }
}

impl Task for YieldNow {
    type Output = ();

    /// The first resumption suspends and invokes the wake signal once; any
    /// later one finishes and leaves the signal alone.
    open spec fn resumes(&self, wake: WakeSignal, outcome: Resumed<Self>) -> bool {
        &&& outcome.task.yielded()
        &&& if self.yielded() {
            outcome.status == Poll::Ready(()) && outcome.wake == wake
        } else {
            outcome.status == Poll::<()>::Pending && outcome.wake == wake.woken()
        }
    }

    fn poll(&mut self, wake: &mut WakeSignal) -> (status: Poll<()>)
        ensures
            final(self).yielded(),
            status == if old(self).yielded() {
                Poll::Ready(())
            } else {
                Poll::Pending
            },
            *final(wake) == if old(self).yielded() {
                *old(wake)
            } else {
                old(wake).woken()
            },
    {
        if self.yielded {
            Poll::Ready(())
        } else {
            self.yielded = true;
            wake.wake();
            Poll::Pending
        }
    }
}

/// A fresh yield point: it has not suspended yet.
pub fn yield_now() -> (point: YieldNow)
    ensures
        !point.yielded(),
{
    YieldNow { yielded: false }
}

/// A fresh yield point reports `Pending` at its first resumption, invoking the
/// wake signal exactly once, and `Ready` at its second, leaving the signal
/// alone. No third resumption is needed to get there.
pub proof fn lemma_yield_once(
    fresh: YieldNow,
    wake: WakeSignal,
    first: Resumed<YieldNow>,
    second: Resumed<YieldNow>,
)
    requires
        !fresh.yielded(),
        fresh.resumes(wake, first),
        first.task.resumes(first.wake, second),
    ensures
        first.status == Poll::<()>::Pending,
        first.wake.wakes() == WakeSignal::bump(wake.wakes()),
        second.status == Poll::Ready(()),
        second.wake.wakes() == first.wake.wakes(),
{
    wake.lemma_woken();
}

/// A yield point has one suspension left while it is fresh, and none after.
pub proof fn lemma_yield_suspensions(point: YieldNow)
    ensures
        suspends_at_most(point, 1),
        point.yielded() ==> suspends_at_most(point, 0),
{
    assert forall|wake: WakeSignal, outcome: Resumed<YieldNow>|
        #[trigger] point.resumes(wake, outcome) && outcome.status
            is Pending implies suspends_at_most(outcome.task, 0) by {
        assert(outcome.task.yielded());
    }
}

} // verus!
