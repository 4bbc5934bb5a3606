//! Slot management and driver decisions, exercised with plain values in
//! place of tasks: `take` and `restore` never advance their argument, so
//! any type will do.

use process_queue::queue::ConcurrentProcessQueue;
use process_queue::ready_set::BATCH;

#[test]
fn new_queue_is_finished() {
    let mut q: ConcurrentProcessQueue<u64> = ConcurrentProcessQueue::new();
    assert!(q.is_finished());
    assert_eq!(q.next_ready(), None);
}

#[test]
fn default_queue_is_finished() {
    let q: ConcurrentProcessQueue<u64> = ConcurrentProcessQueue::default();
    assert!(q.is_finished());
}

#[test]
fn push_fills_first_free_slot() {
    let mut q: ConcurrentProcessQueue<u64> = ConcurrentProcessQueue::new();
    assert!(q.push(10));
    assert!(q.push(11));
    assert!(!q.is_finished());
    // Most recently readied slot first.
    assert_eq!(q.next_ready(), Some(1));
    assert_eq!(q.take(1), 11);
    assert_eq!(q.next_ready(), Some(0));
    assert_eq!(q.take(0), 10);
    assert!(q.is_finished());
}

#[test]
fn push_beyond_capacity_is_rejected() {
    let mut q: ConcurrentProcessQueue<u64> = ConcurrentProcessQueue::new();
    for i in 0..BATCH {
        assert!(q.push(i as u64));
    }
    // The eleventh task finds no free slot and is reported back.
    assert!(!q.push(999));
    assert!(!q.push(1000));
    // Nothing was corrupted: all ten tasks are still there, each exactly once.
    let mut seen = vec![false; BATCH];
    for _ in 0..BATCH {
        let i = q.next_ready().expect("a task should be ready");
        let v = q.take(i) as usize;
        assert_eq!(v, i);
        assert!(!seen[v]);
        seen[v] = true;
    }
    assert!(q.is_finished());
    // With slots free again, pushes are accepted once more.
    assert!(q.push(7));
}

#[test]
fn freed_slot_is_reused() {
    let mut q: ConcurrentProcessQueue<u64> = ConcurrentProcessQueue::new();
    assert!(q.push(21));
    assert!(q.push(22));
    assert_eq!(q.next_ready(), Some(1));
    assert_eq!(q.take(1), 22);
    // Slot 1 is free again and is the first free slot.
    assert!(q.push(23));
    assert_eq!(q.next_ready(), Some(1));
    assert_eq!(q.take(1), 23);
}

#[test]
fn stale_wake_is_skipped() {
    let mut q: ConcurrentProcessQueue<u64> = ConcurrentProcessQueue::new();
    assert!(q.push(5));
    assert_eq!(q.next_ready(), Some(0));
    assert_eq!(q.take(0), 5);
    // A wake arriving after the slot was cleared is dropped, not delivered.
    q.wake(0);
    assert_eq!(q.next_ready(), None);
}

#[test]
fn wake_round_trip_reattempts_the_slot() {
    let mut q: ConcurrentProcessQueue<u64> = ConcurrentProcessQueue::new();
    assert!(q.push(31));
    assert!(q.push(32));
    // Both tasks are tried; neither is done, so both go back to waiting.
    let first = q.next_ready().expect("ready");
    let v1 = q.take(first);
    q.restore(first, v1);
    let second = q.next_ready().expect("ready");
    let v2 = q.take(second);
    q.restore(second, v2);
    // No wake has arrived: the driver must suspend.
    assert_eq!(q.next_ready(), None);
    // Slot 0's wake alone makes slot 0 — and only it — ready again.
    q.wake(0);
    assert_eq!(q.next_ready(), Some(0));
    assert_eq!(q.next_ready(), None);
}

#[test]
fn wake_does_not_revive_a_finished_queue() {
    let mut q: ConcurrentProcessQueue<u64> = ConcurrentProcessQueue::new();
    assert!(q.push(8));
    assert_eq!(q.next_ready(), Some(0));
    assert_eq!(q.take(0), 8);
    assert!(q.is_finished());
    // End of sequence is stable under wakes, stale or repeated.
    q.wake(0);
    q.wake(3);
    assert!(q.is_finished());
    assert_eq!(q.next_ready(), None);
    assert!(q.is_finished());
}

#[test]
fn out_of_range_wake_is_dropped() {
    let mut q: ConcurrentProcessQueue<u64> = ConcurrentProcessQueue::new();
    q.wake(BATCH);
    q.wake(usize::MAX);
    assert_eq!(q.next_ready(), None);
}
