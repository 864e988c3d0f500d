//! The queue that survives a crash.

use std::collections::VecDeque;

use ws_deque::persistent::{PersistentMemory, PersistentQueue, Record};

#[test]
fn durable_enqueues_survive_crash() {
    let mut q = PersistentQueue::new();
    for i in 0..100 {
        q.enqueue(i);
    }
    // Power loss: wipe volatile RAM, keep NVM.
    q.crash_now();
    let recovered = q.recover();
    assert_eq!(
        recovered,
        (0..100).collect::<Vec<_>>(),
        "all durable enqueues recovered in order"
    );
}

#[test]
fn unsynced_enqueue_is_lost_on_crash() {
    let mut q = PersistentQueue::new();
    q.enqueue(1); // durable
    q.enqueue(2); // durable
    q.enqueue_unsynced(3); // staged but NOT psync'd
    q.crash_now();
    let recovered = q.recover();
    // 3 was never fenced, so a crash loses it — exactly the NVM durability boundary.
    assert_eq!(
        recovered,
        vec![1, 2],
        "un-acknowledged enqueue not recovered"
    );
}

#[test]
fn dequeues_are_durable_no_resurrection() {
    let mut q = PersistentQueue::new();
    for i in 0..10 {
        q.enqueue(i);
    }
    assert_eq!(q.dequeue(), Some(0));
    assert_eq!(q.dequeue(), Some(1));
    // Crash after durable dequeues: the removed items must NOT come back.
    q.crash_now();
    let recovered = q.recover();
    assert_eq!(
        recovered,
        (2..10).collect::<Vec<_>>(),
        "dequeued items stay gone after crash"
    );
}

#[test]
fn crash_at_every_point_is_consistent() {
    // Crash after each of N operations; recovery must always be a valid prefix with no
    // duplicates and no acknowledged loss.
    for crash_after in 0..=50 {
        let mut q = PersistentQueue::new();
        let mut model: VecDeque<u64> = VecDeque::new();
        for op in 0..50u64 {
            if op % 3 == 2 {
                // dequeue
                let got = q.dequeue();
                let want = model.pop_front();
                assert_eq!(got, want, "dequeue matches model at op {op}");
            } else {
                q.enqueue(op);
                model.push_back(op);
            }
            if op == crash_after {
                break;
            }
        }
        q.crash_now();
        let recovered = q.recover();
        let expected: Vec<u64> = model.into_iter().collect();
        assert_eq!(
            recovered, expected,
            "recovery consistent when crashing after op {crash_after}"
        );
    }
}

#[test]
fn one_psync_pair_per_operation() {
    // One psync per enqueue/dequeue, so the count equals the number of durable operations.
    let mut q = PersistentQueue::new();
    for i in 0..20 {
        q.enqueue(i);
    }
    for _ in 0..5 {
        q.dequeue();
    }
    assert_eq!(q.psync_count(), 25, "one psync per durable enqueue/dequeue");
}

#[test]
fn a_dequeue_of_nothing_is_not_persisted() {
    let mut q = PersistentQueue::default();
    assert_eq!(q.dequeue(), None);
    assert_eq!(q.psync_count(), 0);
    assert!(q.is_empty());
    q.enqueue(4);
    assert_eq!(q.len(), 1);
    assert!(!q.is_empty());
}

#[test]
fn a_later_sync_persists_what_was_staged_before() {
    let mut q = PersistentQueue::new();
    q.enqueue_unsynced(1);
    q.enqueue(2);
    q.crash_now();
    assert_eq!(q.recover(), vec![1, 2]);
    // Recovered values are served again, and a second crash changes nothing.
    assert_eq!(q.dequeue(), Some(1));
    q.crash_now();
    assert_eq!(q.recover(), vec![2]);
    assert_eq!(q.len(), 1);
}

#[test]
fn memory_counts_its_fences() {
    let mut m = PersistentMemory::new();
    m.pwb(Record::Enqueue(1));
    assert_eq!(m.psync_count(), 0);
    m.psync();
    m.pwb(Record::Enqueue(2));
    assert_eq!(m.crash(), vec![Record::Enqueue(1)]);
    m.psync();
    assert_eq!(m.psync_count(), 2);
    m.pwb(Record::Dequeue(0));
    m.psync();
    assert_eq!(m.crash(), vec![Record::Enqueue(1), Record::Dequeue(0)]);
}

#[test]
fn use_after_a_crash_without_recovery_is_exact() {
    let mut q = PersistentQueue::new();
    q.enqueue(1);
    q.crash_now();
    q.enqueue(2);
    assert_eq!(q.dequeue(), Some(2));
    q.crash_now();
    // 1 was never dequeued, and 2 does not come back.
    assert_eq!(q.recover(), vec![1]);
    assert_eq!(q.dequeue(), Some(1));
    q.crash_now();
    assert_eq!(q.recover(), Vec::<u64>::new());
}

#[test]
fn recovery_without_a_crash_keeps_what_is_staged() {
    let mut q = PersistentQueue::new();
    q.enqueue(7);
    q.enqueue_unsynced(7);
    assert_eq!(q.recover(), vec![7]);
    // The next durable operation makes the staged value durable too.
    assert_eq!(q.dequeue(), Some(7));
    assert_eq!(q.dequeue(), None);
    q.crash_now();
    assert_eq!(q.recover(), vec![7]);
}

#[test]
fn a_crash_empties_the_queue_and_keeps_the_log() {
    let mut q = PersistentQueue::new();
    q.enqueue(1);
    q.enqueue_unsynced(2);
    q.crash_now();
    assert_eq!(q.len(), 0);
    assert!(q.is_empty());
    assert_eq!(q.psync_count(), 1);
    q.crash_now();
    assert_eq!(q.dequeue(), None);
    assert_eq!(q.psync_count(), 1);
    assert_eq!(q.recover(), vec![1]);
}
