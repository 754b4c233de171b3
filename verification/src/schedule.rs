//! The scheduling rules, stated over plain values: what one drain pass may do
//! to the queue, what a round may do to the root task and the queue, and what
//! follows from both.

use crate::task::{suspends_at_most, Poll, Resumed, Task};
use crate::wake::WakeSignal;
use vstd::prelude::*;

verus! {

/// The signal that the task at position `i` of a pass is resumed with: the
/// one the pass started with for the first task, and for every other task the
/// one that the task before it left behind.
pub open spec fn signal_at<T: Task>(
    wake: WakeSignal,
    outcomes: Seq<Resumed<T>>,
    i: int,
) -> WakeSignal {
    if i <= 0 {
        wake
    } else {
        outcomes[i - 1].wake
    }
}

/// Whether `outcomes` records one resumption of each task of `queue`, from the
/// front to the back, the wake signal going from each task to the next.
pub open spec fn resumed_once<T: Task>(
    queue: Seq<T>,
    wake: WakeSignal,
    outcomes: Seq<Resumed<T>>,
) -> bool {
    &&& outcomes.len() == queue.len()
    &&& forall|i: int|
        0 <= i < queue.len() ==> (#[trigger] queue[i]).resumes(
            signal_at(wake, outcomes, i),
            outcomes[i],
        )
}

/// The tasks that go back to the queue after a pass: those that reported
/// `Pending`, in the order in which they stood in the queue.
pub open spec fn requeued<T: Task>(outcomes: Seq<Resumed<T>>) -> Seq<T> {
    outcomes.filter(|o: Resumed<T>| o.status is Pending).map_values(|o: Resumed<T>| o.task)
}

/// Whether one drain pass may turn the queue `before` into `after` and the
/// wake signal `wake` into `woken`: every task of `before` is resumed once,
/// front to back; the finished ones are discarded and the suspended ones are
/// queued again in their old order.
pub open spec fn drained<T: Task>(
    before: Seq<T>,
    wake: WakeSignal,
    after: Seq<T>,
    woken: WakeSignal,
) -> bool {
    exists|outcomes: Seq<Resumed<T>>|
        {
            &&& #[trigger] resumed_once(before, wake, outcomes)
            &&& after == requeued(outcomes)
            &&& woken == signal_at(wake, outcomes, outcomes.len() as int)
        }
}

/// What a run works on: the root task, the queue of background tasks and the
/// wake signal that every resumption receives.
#[verifier::ext_equal]
pub struct Run<F, T> {
    pub root: F,
    pub queue: Seq<T>,
    pub wake: WakeSignal,
}

/// Whether one round may lead from `from` to `to`: the root task is resumed
/// and suspends, and then one drain pass runs with the signal as the root task
/// left it.
pub open spec fn round<F: Task, T: Task>(from: Run<F, T>, to: Run<F, T>) -> bool {
    exists|step: Resumed<F>|
        {
            &&& #[trigger] from.root.resumes(from.wake, step)
            &&& step.status is Pending
            &&& to.root == step.task
            &&& drained(from.queue, step.wake, to.queue, to.wake)
        }
}

/// Whether the root task may finish with `result` when it is resumed in
/// `from`, which leaves `to`. The queue is not touched.
pub open spec fn finishes<F: Task, T: Task>(
    from: Run<F, T>,
    result: F::Output,
    to: Run<F, T>,
) -> bool {
    &&& from.root.resumes(
        from.wake,
        Resumed { task: to.root, wake: to.wake, status: Poll::Ready(result) },
    )
    &&& to.queue == from.queue
}

/// Whether `passes` rounds, one after the other, may lead from `from` to `to`.
pub open spec fn advanced<F: Task, T: Task>(from: Run<F, T>, passes: nat, to: Run<F, T>) -> bool
    decreases passes,
{
    if passes == 0 {
        to == from
    } else {
        exists|mid: Run<F, T>|
            advanced(from, (passes - 1) as nat, mid) && #[trigger] round(mid, to)
    }
}

/// Whether driving `from` may end in `to` with `result`, after `passes` drain
/// passes: the root task suspends `passes` times, a drain pass follows each
/// suspension, and the next resumption of the root task finishes.
pub open spec fn drives<F: Task, T: Task>(
    from: Run<F, T>,
    passes: nat,
    result: F::Output,
    to: Run<F, T>,
) -> bool {
    exists|last: Run<F, T>| #[trigger] advanced(from, passes, last) && finishes(last, result, to)
}

/// Recording one more outcome appends its task to the requeued ones exactly
/// when it reported `Pending`.
pub proof fn lemma_requeued_push<T: Task>(outcomes: Seq<Resumed<T>>, outcome: Resumed<T>)
    ensures
        requeued(outcomes.push(outcome)) == if outcome.status is Pending {
            requeued(outcomes).push(outcome.task)
        } else {
            requeued(outcomes)
        },
{
    let kept = |o: Resumed<T>| o.status is Pending;
    let longer = outcomes.push(outcome);
    assert(longer.drop_last() == outcomes);
    reveal(Seq::filter);
    assert(longer.filter(kept) == if kept(outcome) {
        outcomes.filter(kept).push(outcome)
    } else {
        outcomes.filter(kept)
    });
}

/// If every task suspended again, the whole queue comes back, task for task.
pub proof fn lemma_requeued_all_pending<T: Task>(outcomes: Seq<Resumed<T>>)
    requires
        forall|i: int| 0 <= i < outcomes.len() ==> (#[trigger] outcomes[i]).status is Pending,
    ensures
        requeued(outcomes).len() == outcomes.len(),
        forall|i: int| 0 <= i < outcomes.len() ==> requeued(outcomes)[i] == outcomes[i].task,
    decreases outcomes.len(),
{
    if outcomes.len() > 0 {
        let shorter = outcomes.drop_last();
        lemma_requeued_all_pending(shorter);
        lemma_requeued_push(shorter, outcomes.last());
        assert(shorter.push(outcomes.last()) == outcomes);
    }
}

/// If every task finished, nothing comes back.
pub proof fn lemma_requeued_all_ready<T: Task>(outcomes: Seq<Resumed<T>>)
    requires
        forall|i: int| 0 <= i < outcomes.len() ==> (#[trigger] outcomes[i]).status is Ready,
    ensures
        requeued(outcomes).len() == 0,
    decreases outcomes.len(),
{
    if outcomes.len() > 0 {
        let shorter = outcomes.drop_last();
        lemma_requeued_all_ready(shorter);
        lemma_requeued_push(shorter, outcomes.last());
        assert(shorter.push(outcomes.last()) == outcomes);
    }
}

/// Where in the pass the task that stands at position `j` of the requeued ones
/// was resumed.
pub open spec fn origin<T: Task>(outcomes: Seq<Resumed<T>>, j: int) -> int
    decreases outcomes.len(),
{
    if outcomes.len() == 0 {
        0
    } else if outcomes.last().status is Pending && j == requeued(outcomes.drop_last()).len() {
        outcomes.len() - 1
    } else {
        origin(outcomes.drop_last(), j)
    }
}

/// The task at position `j` of the requeued ones is the one that was resumed
/// at position `origin(outcomes, j)`, and it reported `Pending`.
pub proof fn lemma_origin<T: Task>(outcomes: Seq<Resumed<T>>, j: int)
    requires
        0 <= j < requeued(outcomes).len(),
    ensures
        0 <= origin(outcomes, j) < outcomes.len(),
        outcomes[origin(outcomes, j)].status is Pending,
        requeued(outcomes)[j] == outcomes[origin(outcomes, j)].task,
    decreases outcomes.len(),
{
    if outcomes.len() == 0 {
        lemma_requeued_all_ready(outcomes);
    } else {
        let shorter = outcomes.drop_last();
        lemma_requeued_push(shorter, outcomes.last());
        assert(shorter.push(outcomes.last()) == outcomes);
        if !(outcomes.last().status is Pending && j == requeued(shorter).len()) {
            lemma_origin(shorter, j);
        }
    }
}

/// Requeued tasks keep their relative order: of two of them, the one in front
/// was resumed first.
pub proof fn lemma_requeued_keeps_order<T: Task>(outcomes: Seq<Resumed<T>>, j: int, k: int)
    requires
        0 <= j < k < requeued(outcomes).len(),
    ensures
        0 <= origin(outcomes, j) < origin(outcomes, k) < outcomes.len(),
    decreases outcomes.len(),
{
    if outcomes.len() == 0 {
        lemma_requeued_all_ready(outcomes);
    } else {
        let shorter = outcomes.drop_last();
        lemma_requeued_push(shorter, outcomes.last());
        assert(shorter.push(outcomes.last()) == outcomes);
        if outcomes.last().status is Pending && k == requeued(shorter).len() {
            lemma_origin(shorter, j);
        } else {
            lemma_requeued_keeps_order(shorter, j, k);
        }
    }
}

/// No more tasks come back than were resumed.
pub proof fn lemma_requeued_len<T: Task>(outcomes: Seq<Resumed<T>>)
    ensures
        requeued(outcomes).len() <= outcomes.len(),
    decreases outcomes.len(),
{
    if outcomes.len() > 0 {
        let shorter = outcomes.drop_last();
        lemma_requeued_len(shorter);
        lemma_requeued_push(shorter, outcomes.last());
        assert(shorter.push(outcomes.last()) == outcomes);
    } else {
        lemma_requeued_all_ready(outcomes);
    }
}

/// A drain pass never makes the queue longer.
pub proof fn lemma_drained_len<T: Task>(
    before: Seq<T>,
    wake: WakeSignal,
    after: Seq<T>,
    woken: WakeSignal,
)
    requires
        drained(before, wake, after, woken),
    ensures
        after.len() <= before.len(),
{
    let outcomes = choose|outcomes: Seq<Resumed<T>>|
        {
            &&& #[trigger] resumed_once(before, wake, outcomes)
            &&& after == requeued(outcomes)
            &&& woken == signal_at(wake, outcomes, outcomes.len() as int)
        };
    lemma_requeued_len(outcomes);
}

/// After a drain pass, every queued task is one that was queued before,
/// resumed once, and reported `Pending`; and of two queued tasks the one in
/// front was in front before the pass.
pub proof fn lemma_drained_keeps_order<T: Task>(
    before: Seq<T>,
    wake: WakeSignal,
    after: Seq<T>,
    woken: WakeSignal,
    j: int,
    k: int,
)
    requires
        drained(before, wake, after, woken),
        0 <= j < k < after.len(),
    ensures
        exists|
            a: int,
            b: int,
            first: Resumed<T>,
            second: Resumed<T>,
            at: WakeSignal,
            then: WakeSignal,
        |
            {
                &&& 0 <= a < b < before.len()
                &&& #[trigger] before[a].resumes(at, first)
                &&& first.status is Pending
                &&& first.task == after[j]
                &&& #[trigger] before[b].resumes(then, second)
                &&& second.status is Pending
                &&& second.task == after[k]
            },
{
    let outcomes = choose|outcomes: Seq<Resumed<T>>|
        {
            &&& #[trigger] resumed_once(before, wake, outcomes)
            &&& after == requeued(outcomes)
            &&& woken == signal_at(wake, outcomes, outcomes.len() as int)
        };
    lemma_origin(outcomes, j);
    lemma_origin(outcomes, k);
    lemma_requeued_keeps_order(outcomes, j, k);
    let a = origin(outcomes, j);
    let b = origin(outcomes, k);
    assert(before[a].resumes(signal_at(wake, outcomes, a), outcomes[a]));
    assert(before[b].resumes(signal_at(wake, outcomes, b), outcomes[b]));
}

/// A drain pass over an empty queue changes nothing.
pub proof fn lemma_drained_empty<T: Task>(wake: WakeSignal, after: Seq<T>, woken: WakeSignal)
    requires
        drained(Seq::<T>::empty(), wake, after, woken),
    ensures
        after == Seq::<T>::empty(),
        woken == wake,
{
    let outcomes = choose|outcomes: Seq<Resumed<T>>|
        {
            &&& #[trigger] resumed_once(Seq::<T>::empty(), wake, outcomes)
            &&& after == requeued(outcomes)
            &&& woken == signal_at(wake, outcomes, outcomes.len() as int)
        };
    lemma_requeued_all_ready(outcomes);
}

/// A drain pass over tasks that can only suspend brings every one of them
/// back, at its old position and one resumption further.
pub proof fn lemma_drained_all_pending<T: Task>(
    before: Seq<T>,
    wake: WakeSignal,
    after: Seq<T>,
    woken: WakeSignal,
)
    requires
        drained(before, wake, after, woken),
        forall|i: int, signal: WakeSignal, outcome: Resumed<T>|
            0 <= i < before.len() && #[trigger] before[i].resumes(signal, outcome)
                ==> outcome.status is Pending,
    ensures
        after.len() == before.len(),
        exists|outcomes: Seq<Resumed<T>>|
            {
                &&& #[trigger] resumed_once(before, wake, outcomes)
                &&& woken == signal_at(wake, outcomes, outcomes.len() as int)
                &&& forall|i: int|
                    0 <= i < before.len() ==> (#[trigger] outcomes[i]).status is Pending
                        && after[i] == outcomes[i].task
            },
{
    let outcomes = choose|outcomes: Seq<Resumed<T>>|
        {
            &&& #[trigger] resumed_once(before, wake, outcomes)
            &&& after == requeued(outcomes)
            &&& woken == signal_at(wake, outcomes, outcomes.len() as int)
        };
    assert forall|i: int| 0 <= i < outcomes.len() implies (#[trigger] outcomes[i]).status
        is Pending by {
        assert(before[i].resumes(signal_at(wake, outcomes, i), outcomes[i]));
    }
    lemma_requeued_all_pending(outcomes);
}

/// A drain pass over tasks that can only finish empties the queue.
pub proof fn lemma_drained_all_ready<T: Task>(
    before: Seq<T>,
    wake: WakeSignal,
    after: Seq<T>,
    woken: WakeSignal,
)
    requires
        drained(before, wake, after, woken),
        forall|i: int, signal: WakeSignal, outcome: Resumed<T>|
            0 <= i < before.len() && #[trigger] before[i].resumes(signal, outcome)
                ==> outcome.status is Ready,
    ensures
        after.len() == 0,
{
    let outcomes = choose|outcomes: Seq<Resumed<T>>|
        {
            &&& #[trigger] resumed_once(before, wake, outcomes)
            &&& after == requeued(outcomes)
            &&& woken == signal_at(wake, outcomes, outcomes.len() as int)
        };
    assert forall|i: int| 0 <= i < outcomes.len() implies (#[trigger] outcomes[i]).status
        is Ready by {
        assert(before[i].resumes(signal_at(wake, outcomes, i), outcomes[i]));
    }
    lemma_requeued_all_ready(outcomes);
}

/// Rounds add up: a run of `first + rest` rounds is a run of `first` rounds
/// followed by a run of `rest` rounds.
pub proof fn lemma_advanced_split<F: Task, T: Task>(
    from: Run<F, T>,
    first: nat,
    rest: nat,
    to: Run<F, T>,
)
    requires
        advanced(from, first + rest, to),
    ensures
        exists|mid: Run<F, T>| #[trigger] advanced(from, first, mid) && advanced(mid, rest, to),
    decreases rest,
{
    if rest == 0 {
        assert(advanced(from, first, to) && advanced(to, 0, to));
    } else {
        let late = choose|late: Run<F, T>|
            advanced(from, (first + rest - 1) as nat, late) && #[trigger] round(late, to);
        lemma_advanced_split(from, first, (rest - 1) as nat, late);
        let mid = choose|mid: Run<F, T>| #[trigger]
            advanced(from, first, mid) && advanced(mid, (rest - 1) as nat, late);
        assert(advanced(mid, rest, to));
        assert(advanced(from, first, mid) && advanced(mid, rest, to));
    }
}

/// The root task goes first: a run of at least one round starts with a
/// resumption of the root task; only when that one has reported `Pending` does
/// the first drain pass run.
pub proof fn lemma_root_goes_first<F: Task, T: Task>(from: Run<F, T>, passes: nat, to: Run<F, T>)
    requires
        passes > 0,
        advanced(from, passes, to),
    ensures
        exists|mid: Run<F, T>| #[trigger]
            round(from, mid) && advanced(mid, (passes - 1) as nat, to),
{
    lemma_advanced_split(from, 1, (passes - 1) as nat, to);
    let mid = choose|mid: Run<F, T>| #[trigger]
        advanced(from, 1, mid) && advanced(mid, (passes - 1) as nat, to);
    let zero = choose|zero: Run<F, T>| advanced(from, 0, zero) && #[trigger] round(zero, mid);
    assert(round(from, mid) && advanced(mid, (passes - 1) as nat, to));
}

/// The root task follows every drain pass: wherever a run is cut after a
/// drain pass, what comes next is a resumption of the root task, with the
/// queue and the signal exactly as that pass left them.
pub proof fn lemma_root_follows_every_pass<F: Task, T: Task>(
    from: Run<F, T>,
    passes: nat,
    result: F::Output,
    to: Run<F, T>,
    cut: nat,
)
    requires
        drives(from, passes, result, to),
        cut <= passes,
    ensures
        exists|mid: Run<F, T>| #[trigger]
            advanced(from, cut, mid) && drives(mid, (passes - cut) as nat, result, to),
{
    let last = choose|last: Run<F, T>| #[trigger]
        advanced(from, passes, last) && finishes(last, result, to);
    lemma_advanced_split(from, cut, (passes - cut) as nat, last);
    let mid = choose|mid: Run<F, T>| #[trigger]
        advanced(from, cut, mid) && advanced(mid, (passes - cut) as nat, last);
    assert(advanced(mid, (passes - cut) as nat, last) && finishes(last, result, to));
    assert(advanced(from, cut, mid) && drives(mid, (passes - cut) as nat, result, to));
}

/// There are no more rounds than the root task has suspensions left: each
/// drain pass answers to one `Pending` of the root task.
pub proof fn lemma_rounds_bounded<F: Task, T: Task>(
    from: Run<F, T>,
    passes: nat,
    to: Run<F, T>,
    bound: nat,
)
    requires
        advanced(from, passes, to),
        suspends_at_most(from.root, bound),
    ensures
        passes <= bound,
        suspends_at_most(to.root, (bound - passes) as nat),
    decreases passes,
{
    if passes > 0 {
        let mid = choose|mid: Run<F, T>|
            advanced(from, (passes - 1) as nat, mid) && #[trigger] round(mid, to);
        lemma_rounds_bounded(from, (passes - 1) as nat, mid, bound);
    }
}

/// When the root task finishes, the queue is abandoned as it stands: it is
/// the queue that the last drain pass left, and no task in it is resumed on
/// the way out.
pub proof fn lemma_queue_abandoned<F: Task, T: Task>(
    from: Run<F, T>,
    passes: nat,
    result: F::Output,
    to: Run<F, T>,
)
    requires
        drives(from, passes, result, to),
    ensures
        exists|last: Run<F, T>| #[trigger] advanced(from, passes, last) && to.queue == last.queue,
        passes == 0 ==> to.queue == from.queue,
{
    let last = choose|last: Run<F, T>| #[trigger]
        advanced(from, passes, last) && finishes(last, result, to);
    assert(advanced(from, passes, last) && to.queue == last.queue);
}

/// A root task that cannot suspend is resumed once, and no drain pass runs.
pub proof fn lemma_immediate_root_runs_no_pass<F: Task, T: Task>(
    from: Run<F, T>,
    passes: nat,
    result: F::Output,
    to: Run<F, T>,
)
    requires
        drives(from, passes, result, to),
        suspends_at_most(from.root, 0),
    ensures
        passes == 0,
        finishes(from, result, to),
        to.queue == from.queue,
{
    let last = choose|last: Run<F, T>| #[trigger]
        advanced(from, passes, last) && finishes(last, result, to);
    lemma_rounds_bounded(from, passes, last, 0);
}

/// A root task that suspends exactly once sees exactly one drain pass between
/// its two resumptions.
pub proof fn lemma_one_suspension_one_pass<F: Task, T: Task>(
    from: Run<F, T>,
    passes: nat,
    result: F::Output,
    to: Run<F, T>,
)
    requires
        drives(from, passes, result, to),
        suspends_at_most(from.root, 1),
        forall|wake: WakeSignal, outcome: Resumed<F>| #[trigger]
            from.root.resumes(wake, outcome) ==> outcome.status is Pending,
    ensures
        passes == 1,
        exists|mid: Run<F, T>| #[trigger] round(from, mid) && finishes(mid, result, to),
{
    let last = choose|last: Run<F, T>| #[trigger]
        advanced(from, passes, last) && finishes(last, result, to);
    lemma_rounds_bounded(from, passes, last, 1);
    if passes == 1 {
        lemma_root_goes_first(from, passes, last);
        let mid = choose|mid: Run<F, T>| #[trigger] round(from, mid) && advanced(mid, 0, last);
        assert(round(from, mid) && finishes(mid, result, to));
    } else {
        assert(last == from);
        assert(from.root.resumes(
            from.wake,
            Resumed { task: to.root, wake: to.wake, status: Poll::Ready(result) },
        ));
    }
}

} // verus!
