//! The queue with many producers and one consumer.

use std::sync::atomic::{AtomicUsize, Ordering};
use std::sync::Arc;

use ws_deque::jiffy::{channel, Dequeue, Enqueue, Queue, BUFFER_SIZE};

#[test]
fn single_producer_fifo() {
    let (p, mut c) = channel::<u64>();
    for i in 0..5000u64 {
        p.enqueue(&mut c, i);
    }
    for i in 0..5000u64 {
        assert_eq!(c.dequeue(), Some(i)); // FIFO across many buffers
    }
    assert_eq!(c.dequeue(), None);
}

#[test]
fn empty_then_filled() {
    let (p, mut c) = channel::<u32>();
    assert_eq!(c.dequeue(), None);
    p.enqueue(&mut c, 42);
    assert_eq!(c.dequeue(), Some(42));
    assert_eq!(c.dequeue(), None);
}

struct Counted(Arc<AtomicUsize>);

impl Drop for Counted {
    fn drop(&mut self) {
        self.0.fetch_sub(1, Ordering::SeqCst);
    }
}

#[test]
fn drops_unconsumed_values_once() {
    // A payload that counts live instances detects leak/double-free of un-dequeued items.
    let live = Arc::new(AtomicUsize::new(0));
    {
        let (p, mut c) = channel::<Counted>();
        for _ in 0..2000 {
            live.fetch_add(1, Ordering::SeqCst);
            p.enqueue(&mut c, Counted(Arc::clone(&live)));
        }
        // Consume some, leave the rest to be dropped with the queue.
        for _ in 0..500 {
            drop(c.dequeue().unwrap());
        }
        assert_eq!(live.load(Ordering::SeqCst), 1500);
    }
    assert_eq!(live.load(Ordering::SeqCst), 0, "no leak / double-free");
}

#[test]
fn producers_share_one_order() {
    let (p, mut c) = channel::<(u8, u32)>();
    let q = p.clone();
    for i in 0..10 {
        p.enqueue(&mut c, (0, i));
        q.enqueue(&mut c, (1, i));
    }
    assert!(!c.is_empty());
    for i in 0..10 {
        assert_eq!(c.dequeue(), Some((0, i)));
        assert_eq!(c.dequeue(), Some((1, i)));
    }
    assert!(c.is_empty());
}

#[test]
fn what_is_left_comes_out_once() {
    let (p, mut c) = channel::<String>();
    for i in 0..5 {
        p.enqueue(&mut c, format!("v{i}"));
    }
    assert_eq!(c.dequeue(), Some(String::from("v0")));
    assert_eq!(c.into_remaining(), vec!["v1", "v2", "v3", "v4"]);
}

#[test]
fn the_consumer_waits_for_a_claimed_slot() {
    // A producer has claimed the first slot and is slow; a second one has finished.
    let mut q = Queue::<u32>::new();
    let slow = q.enqueue_step(Enqueue::Start { value: 1 });
    assert!(matches!(slow, Enqueue::Claimed { value: 1, idx: 0 }));
    let mut fast = Enqueue::Start { value: 2 };
    while !matches!(fast, Enqueue::Done) {
        fast = q.enqueue_step(fast);
    }
    assert!(!q.is_empty());
    let look = q.dequeue_step(Dequeue::Start);
    assert!(matches!(look, Dequeue::Look));
    assert!(matches!(q.dequeue_step(look), Dequeue::Done(None)));
    let mut slow = slow;
    while !matches!(slow, Enqueue::Done) {
        slow = q.enqueue_step(slow);
    }
    assert_eq!(q.dequeue(), Some(1));
    assert_eq!(q.dequeue(), Some(2));
    assert_eq!(q.dequeue(), None);
}

#[test]
fn two_producers_cross_a_buffer_boundary_in_every_order() {
    for schedule in 0u32..1 << 10 {
        let mut q = Queue::<u32>::new();
        for i in 0..BUFFER_SIZE as u32 - 1 {
            q.enqueue(i);
        }
        let mut states = [
            Some(Enqueue::Start { value: 7000 }),
            Some(Enqueue::Start { value: 8000 }),
        ];
        let mut at = 0;
        while states.iter().any(|s| s.is_some()) {
            let bit = (schedule >> (at % 10) & 1) as usize;
            let i = if states[bit].is_some() { bit } else { 1 - bit };
            let next = q.enqueue_step(states[i].take().unwrap());
            if !matches!(next, Enqueue::Done) {
                states[i] = Some(next);
            }
            at += 1;
        }
        for i in 0..BUFFER_SIZE as u32 - 1 {
            assert_eq!(q.dequeue(), Some(i));
        }
        let mut last = vec![q.dequeue().unwrap(), q.dequeue().unwrap()];
        last.sort();
        assert_eq!(last, vec![7000, 8000]);
        assert_eq!(q.dequeue(), None);
    }
}
