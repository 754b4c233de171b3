//! The wake signal handed to a task on every resumption.

use core::task::Waker;
use vstd::prelude::*;

verus! {

/// `core::task::Waker`, carried as an opaque value.
#[verifier::external_type_specification]
#[verifier::external_body]
pub struct ExWaker(Waker);

/// `Waker::wake_by_ref`: asks for the task behind the waker to be resumed
/// again. Nothing is claimed of its effect.
pub assume_specification[ Waker::wake_by_ref ](waker: &Waker);

/// Calls `futures::task::noop_waker`, which builds a waker whose wake-up does
/// nothing. The waker is opaque, so nothing is claimed of it.
#[verifier::external_body]
fn noop_waker() -> Waker {
    futures::task::noop_waker()
}

/// A handle a task invokes to ask for another resumption. It counts its
/// invocations, so that "woken exactly once" can be stated and observed.
pub struct WakeSignal {
    waker: Waker,
    wakes: u64,
}

impl WakeSignal {
    /// The waker that an invocation of the signal reaches.
    pub closed spec fn waker(&self) -> Waker {
        self.waker
    }

    /// How many times the signal has been invoked (the count stops at
    /// `u64::MAX`).
    pub closed spec fn wakes(&self) -> nat {
        self.wakes as nat
    }

    /// The count after one more invocation of a signal that stands at `n`.
    pub open spec fn bump(n: nat) -> nat {
        if n < u64::MAX {
            n + 1
        } else {
            n
        }
    }

    /// The signal as one more invocation leaves it.
    pub closed spec fn woken(self) -> WakeSignal {
        WakeSignal {
            waker: self.waker,
            wakes: if self.wakes < u64::MAX {
                (self.wakes + 1) as u64
            } else {
                self.wakes
            },
        }
    }

    /// An invocation adds one to the count and keeps the waker.
    pub proof fn lemma_woken(self)
        ensures
            self.woken().wakes() == Self::bump(self.wakes()),
            self.woken().waker() == self.waker(),
    {
    }

    /// A signal around the given waker, not yet invoked.
    pub fn from_waker(waker: Waker) -> (signal: Self)
        ensures
            signal.waker() == waker,
            signal.wakes() == 0,
    {
        WakeSignal { waker, wakes: 0 }
    }

    /// A signal whose invocation has no effect beyond being counted.
    pub fn noop() -> (signal: Self)
        ensures
            signal.wakes() == 0,
    {
        WakeSignal { waker: noop_waker(), wakes: 0 }
    }

    /// Invokes the signal once.
    pub fn wake(&mut self)
        ensures
            *final(self) == old(self).woken(),
            final(self).waker() == old(self).waker(),
            final(self).wakes() == Self::bump(old(self).wakes()),
    {
        self.waker.wake_by_ref();
        if self.wakes < u64::MAX {
            self.wakes = self.wakes + 1;
        }
    }

    /// The number of invocations so far.
    pub fn wake_count(&self) -> (n: u64)
        ensures
            n == self.wakes(),
    {
        self.wakes
    }
}

} // verus!
