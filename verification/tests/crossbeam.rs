//! Owners that pop first in, first out, and steals of one value and of batches.

use ws_deque::Steal::{self, Empty, Success};
use ws_deque::Worker;

fn busy_retry<T>(mut f: impl FnMut() -> Steal<T>) -> Steal<T> {
    loop {
        let s = f();
        if !s.is_retry() {
            return s;
        }
    }
}

#[test]
fn smoke() {
    let mut w = Worker::new_fifo();
    let s = w.stealer();
    assert_eq!(w.pop(), None);
    assert_eq!(s.steal(&mut w), Empty);

    w.push(1);
    assert_eq!(w.pop(), Some(1));
    assert_eq!(w.pop(), None);
    assert_eq!(s.steal(&mut w), Empty);

    w.push(2);
    assert_eq!(s.steal(&mut w), Success(2));
    assert_eq!(s.steal(&mut w), Empty);
    assert_eq!(w.pop(), None);

    w.push(3);
    w.push(4);
    w.push(5);
    assert_eq!(s.steal(&mut w), Success(3));
    assert_eq!(s.steal(&mut w), Success(4));
    assert_eq!(s.steal(&mut w), Success(5));
    assert_eq!(s.steal(&mut w), Empty);

    w.push(6);
    w.push(7);
    w.push(8);
    w.push(9);
    assert_eq!(w.pop(), Some(6));
    assert_eq!(s.steal(&mut w), Success(7));
    assert_eq!(w.pop(), Some(8));
    assert_eq!(w.pop(), Some(9));
    assert_eq!(w.pop(), None);
}

#[test]
fn is_empty() {
    let mut w = Worker::new_fifo();
    let s = w.stealer();

    assert!(w.is_empty());
    w.push(1);
    assert!(!w.is_empty());
    w.push(2);
    assert!(!w.is_empty());
    let _ = w.pop();
    assert!(!w.is_empty());
    let _ = w.pop();
    assert!(w.is_empty());

    assert!(s.is_empty(&w));
    w.push(1);
    assert!(!s.is_empty(&w));
    w.push(2);
    assert!(!s.is_empty(&w));
    let _ = s.steal(&mut w);
    assert!(!s.is_empty(&w));
    let _ = s.steal(&mut w);
    assert!(s.is_empty(&w));
}

#[test]
fn crossbeam_steal_steal_fifo() {
    let mut w = Worker::new_fifo();
    for i in 1..=3 {
        w.push(i);
    }

    let s = w.stealer();
    assert_eq!(s.steal(&mut w), Success(1));
    assert_eq!(s.steal(&mut w), Success(2));
    assert_eq!(s.steal(&mut w), Success(3));
}

#[test]
fn steal_lifo() {
    // Stealing always takes from the *top* (oldest), even on a LIFO worker — only the owner's
    // `pop` is LIFO. So a thief sees 1, 2, 3 in order.
    let mut w = Worker::new();
    for i in 1..=3 {
        w.push(i);
    }

    let s = w.stealer();
    assert_eq!(s.steal(&mut w), Success(1));
    assert_eq!(s.steal(&mut w), Success(2));
    assert_eq!(s.steal(&mut w), Success(3));
}

#[test]
fn steal_batch_moves_from_top_no_loss() {
    // A batch steal moves at least one element from the top into `dest`, in top (oldest-first)
    // order, and the union of what's left + what moved is exactly what was pushed, once each.
    let mut w = Worker::new();
    for i in 1..=8 {
        w.push(i);
    }
    let s = w.stealer();
    let mut w2 = Worker::new_fifo();

    let res = busy_retry(|| s.steal_batch(&mut w, &mut w2));
    assert_eq!(res, Success(()), "batch must succeed when work exists");

    let mut moved = Vec::new();
    while let Some(v) = w2.pop() {
        moved.push(v);
    }
    assert!(!moved.is_empty(), "batch moved at least one element");
    // Moved elements come from the top (oldest) end, so they are a prefix 1, 2, ... in order.
    for (k, v) in moved.iter().enumerate() {
        assert_eq!(*v, k + 1, "batch takes the oldest elements in order");
    }

    // Drain the rest and confirm the whole set 1..=8 is accounted for exactly once.
    let mut rest = moved.clone();
    while let Steal::Success(v) = s.steal(&mut w) {
        rest.push(v);
    }
    while let Some(v) = w.pop() {
        rest.push(v);
    }
    rest.sort_unstable();
    assert_eq!(rest, (1..=8).collect::<Vec<_>>(), "no loss, no duplication");
}

#[test]
fn steal_batch_and_pop_returns_one_and_moves_rest() {
    let mut w = Worker::new();
    for i in 1..=6 {
        w.push(i);
    }
    let s = w.stealer();
    let mut w2 = Worker::new_fifo();

    // Returns one stolen element directly (the oldest), and may move more into w2.
    let popped = match busy_retry(|| s.steal_batch_and_pop(&mut w, &mut w2)) {
        Success(v) => v,
        other => panic!("expected Success, got {other:?}"),
    };
    assert_eq!(popped, 1, "the directly-returned element is the oldest");

    // Collect everything and verify the full set is intact, once each.
    let mut all = vec![popped];
    while let Some(v) = w2.pop() {
        all.push(v);
    }
    while let Steal::Success(v) = s.steal(&mut w) {
        all.push(v);
    }
    while let Some(v) = w.pop() {
        all.push(v);
    }
    all.sort_unstable();
    assert_eq!(all, (1..=6).collect::<Vec<_>>(), "no loss, no duplication");
}

#[test]
fn steal_batch_empty_is_empty() {
    let mut w: Worker<i32> = Worker::new();
    let s = w.stealer();
    let mut w2 = Worker::new();
    assert_eq!(s.steal_batch(&mut w, &mut w2), Steal::Empty);
    assert_eq!(s.steal_batch_and_pop(&mut w, &mut w2), Steal::Empty);
}

#[test]
fn an_owner_that_is_fifo_never_shrinks() {
    let mut w = Worker::new_fifo();
    for i in 0..100 {
        w.push(i);
    }
    let grown = w.capacity();
    for i in 0..99 {
        assert_eq!(w.pop(), Some(i));
    }
    assert_eq!(w.capacity(), grown);
}
