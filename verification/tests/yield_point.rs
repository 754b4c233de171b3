use mini_runtime::task::{yield_now, Poll, Task};
use mini_runtime::wake::WakeSignal;
use std::sync::atomic::{AtomicUsize, Ordering};
use std::sync::Arc;
use std::task::{Wake, Waker};

struct CountingWake {
    hits: AtomicUsize,
}

impl Wake for CountingWake {
    fn wake(self: Arc<Self>) {
        self.hits.fetch_add(1, Ordering::SeqCst);
    }

    fn wake_by_ref(self: &Arc<Self>) {
        self.hits.fetch_add(1, Ordering::SeqCst);
    }
}

fn counting_signal() -> (Arc<CountingWake>, WakeSignal) {
    let counter = Arc::new(CountingWake { hits: AtomicUsize::new(0) });
    let signal = WakeSignal::from_waker(Waker::from(counter.clone()));
    (counter, signal)
}

#[test]
fn fresh_yield_point_has_not_yielded() {
    let point = yield_now();
    assert!(!point.has_yielded());
}

#[test]
fn yield_point_first_resume_is_pending() {
    let mut wake = WakeSignal::noop();
    let mut point = yield_now();
    assert_eq!(point.poll(&mut wake), Poll::Pending);
    assert!(point.has_yielded());
}

#[test]
fn yield_point_second_resume_is_ready() {
    let mut wake = WakeSignal::noop();
    let mut point = yield_now();
    assert_eq!(point.poll(&mut wake), Poll::Pending);
    assert_eq!(point.poll(&mut wake), Poll::Ready(()));
}

#[test]
fn yield_point_wakes_exactly_once() {
    let mut wake = WakeSignal::noop();
    let mut point = yield_now();
    assert_eq!(wake.wake_count(), 0);
    assert_eq!(point.poll(&mut wake), Poll::Pending);
    assert_eq!(wake.wake_count(), 1);
    assert_eq!(point.poll(&mut wake), Poll::Ready(()));
    assert_eq!(wake.wake_count(), 1);
}

#[test]
fn yield_point_invokes_the_waker_behind_the_signal() {
    let (counter, mut wake) = counting_signal();
    let mut point = yield_now();
    assert_eq!(counter.hits.load(Ordering::SeqCst), 0);
    assert_eq!(point.poll(&mut wake), Poll::Pending);
    assert_eq!(counter.hits.load(Ordering::SeqCst), 1);
    assert_eq!(point.poll(&mut wake), Poll::Ready(()));
    assert_eq!(counter.hits.load(Ordering::SeqCst), 1);
    assert_eq!(wake.wake_count(), 1);
}

#[test]
fn two_yield_points_are_independent() {
    let mut wake = WakeSignal::noop();
    let mut first = yield_now();
    let mut second = yield_now();
    assert_eq!(first.poll(&mut wake), Poll::Pending);
    assert_eq!(second.poll(&mut wake), Poll::Pending);
    assert_eq!(wake.wake_count(), 2);
    assert_eq!(first.poll(&mut wake), Poll::Ready(()));
    assert!(second.has_yielded());
    assert_eq!(second.poll(&mut wake), Poll::Ready(()));
    assert_eq!(wake.wake_count(), 2);
}

#[test]
fn noop_signal_starts_at_zero_and_counts() {
    let mut wake = WakeSignal::noop();
    assert_eq!(wake.wake_count(), 0);
    wake.wake();
    assert_eq!(wake.wake_count(), 1);
    wake.wake();
    wake.wake();
    assert_eq!(wake.wake_count(), 3);
}

#[test]
fn signal_from_waker_forwards_each_wake() {
    let (counter, mut wake) = counting_signal();
    assert_eq!(wake.wake_count(), 0);
    wake.wake();
    wake.wake();
    assert_eq!(counter.hits.load(Ordering::SeqCst), 2);
    assert_eq!(wake.wake_count(), 2);
}
