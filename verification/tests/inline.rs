//! The deque of `Copy` values.

use ws_deque::chase_lev::{Deque, OwnerState, ThiefState, MIN_CAPACITY};
use ws_deque::inline::InlineWorker;
use ws_deque::Steal;

#[test]
fn push_pop_lifo_inline() {
    let mut w = InlineWorker::<u64>::new();
    for i in 0..10u64 {
        w.push(i);
    }
    for i in (0..10u64).rev() {
        assert_eq!(w.pop(), Some(i));
    }
    assert_eq!(w.pop(), None);
}

#[test]
fn steal_fifo_inline() {
    let mut w = InlineWorker::<u32>::new();
    let s = w.stealer();
    for i in 0..10u32 {
        w.push(i);
    }
    for i in 0..10u32 {
        assert_eq!(s.steal(&mut w), Steal::Success(i));
    }
    assert_eq!(s.steal(&mut w), Steal::Empty);
}

#[derive(Clone, Copy, PartialEq, Debug)]
struct P {
    x: u16,
    y: u16,
}

#[test]
fn small_copy_type_roundtrips() {
    // A 4-byte struct (smaller than 8) must round-trip through the inline cells.
    let mut w = InlineWorker::<P>::new();
    w.push(P { x: 7, y: 9 });
    w.push(P { x: 1, y: 2 });
    assert_eq!(w.pop(), Some(P { x: 1, y: 2 }));
    assert_eq!(w.pop(), Some(P { x: 7, y: 9 }));
}

#[test]
fn grows_and_shrinks_inline() {
    let mut w = InlineWorker::<u64>::with_log_capacity(1);
    let n = 10_000u64;
    for i in 0..n {
        w.push(i);
    }
    assert!(w.capacity() >= n as usize);
    let grown = w.capacity();
    for _ in 0..(n - 5) {
        w.pop();
    }
    assert!(w.capacity() < grown, "inline buffer should shrink");
}

#[test]
fn a_tiny_inline_buffer_grows_to_the_minimum() {
    let mut w = InlineWorker::<u8>::with_log_capacity(0);
    assert_eq!(w.capacity(), 1);
    w.push(1);
    assert_eq!(w.capacity(), MIN_CAPACITY);
    assert_eq!(w.len(), 1);
    assert!(!w.is_empty());
    assert_eq!(InlineWorker::<u8>::default().capacity(), 32);
}

#[test]
fn the_remembered_top_follows_the_thieves() {
    // Push and steal far past the capacity: the buffer never has to grow.
    let mut w = InlineWorker::<u32>::with_log_capacity(4);
    let s = w.stealer().clone();
    for i in 0..1000 {
        w.push(i);
        assert_eq!(s.steal(&mut w), Steal::Success(i));
    }
    assert_eq!(w.capacity(), 16);
    assert!(w.is_empty());
}

/// Runs one pop and one steal in every order of their steps.
fn every_interleaving(values: &[u32], mut check: impl FnMut(Option<u32>, Option<u32>, Vec<u32>)) {
    for schedule in 0u32..1 << 14 {
        let mut d = Deque::<u32>::new(16, MIN_CAPACITY);
        for v in values {
            d.push(*v);
        }
        let mut owner = OwnerState::Popping;
        let mut thief = ThiefState::Stealing;
        let mut step = 0;
        let (popped, stolen) = loop {
            match (owner, thief) {
                (OwnerState::Popped(p), ThiefState::Stole(s)) => break (p, s.success()),
                (OwnerState::Popped(_), _) => thief = d.thief_step(thief),
                (_, ThiefState::Stole(_)) => owner = d.owner_step(owner),
                _ => {
                    if schedule >> step & 1 == 0 {
                        owner = d.owner_step(owner);
                    } else {
                        thief = d.thief_step(thief);
                    }
                    step += 1;
                }
            }
        };
        let mut remaining = Vec::new();
        while let Some(v) = d.pop() {
            remaining.push(v);
        }
        check(popped, stolen, remaining);
    }
}

#[test]
fn loom_inline_owner_pop_vs_thief() {
    every_interleaving(&[1, 2], |owner, stolen, remaining| {
        // Two items, two consumers, plus whatever remains: exact-once total (no value
        // delivered twice, none lost) — even though values are inline bit-copies.
        let consumed = owner.is_some() as usize + stolen.is_some() as usize + remaining.len();
        assert_eq!(consumed, 2, "every pushed value consumed exactly once");
    });
}

#[test]
fn loom_inline_push_then_steal() {
    every_interleaving(&[42], |popped, stolen, _remaining| {
        assert_eq!(stolen.is_some() as usize + popped.is_some() as usize, 1);
    });
}
