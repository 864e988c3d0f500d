//! The boxed deque: order, growth, shrinking, batches, ownership, and every interleaving of small
//! runs.

use std::sync::atomic::{AtomicUsize, Ordering};
use std::sync::Arc;

use ws_deque::chase_lev::{
    grown_capacity, has_work, is_full, pop_case, shrunk_capacity, Deque, OwnerState, PopCase,
    ThiefState, MIN_CAPACITY,
};
use ws_deque::deque::Batch;
use ws_deque::index::{capacity_from_log, slot_of};
use ws_deque::{Steal, Stealer, Worker};

#[test]
fn push_pop_lifo() {
    let mut w = Worker::new();
    for i in 0..10 {
        w.push(i);
    }
    // Owner pops in LIFO order.
    for i in (0..10).rev() {
        assert_eq!(w.pop(), Some(i));
    }
    assert_eq!(w.pop(), None);
    assert!(w.is_empty());
}

#[test]
fn lib_steal_fifo() {
    let mut w = Worker::new();
    let s = w.stealer();
    for i in 0..10 {
        w.push(i);
    }
    // Thieves take from the top in FIFO order.
    for i in 0..10 {
        assert_eq!(s.steal(&mut w), Steal::Success(i));
    }
    assert_eq!(s.steal(&mut w), Steal::Empty);
}

#[test]
fn grows_past_initial_capacity() {
    // Start tiny (2 slots) to force several grows.
    let mut w = Worker::<usize>::with_log_capacity(1);
    let n = 10_000;
    for i in 0..n {
        w.push(i);
    }
    assert_eq!(w.len(), n);
    let mut sum = 0usize;
    while let Some(v) = w.pop() {
        sum += v;
    }
    assert_eq!(sum, (0..n).sum());
}

#[test]
fn shrinks_after_draining() {
    let mut w = Worker::<usize>::with_log_capacity(1);
    let n = 10_000;
    for i in 0..n {
        w.push(i);
    }
    let grown = w.capacity();
    assert!(grown >= n, "should have grown to hold {n}: cap={grown}");

    // Pop almost everything; the buffer should shrink back toward the minimum.
    for _ in 0..(n - 5) {
        w.pop();
    }
    let shrunk = w.capacity();
    assert!(
        shrunk < grown,
        "capacity should shrink: {grown} -> {shrunk}"
    );
    assert!(shrunk >= MIN_CAPACITY, "never below MIN_CAPACITY");

    // Remaining elements are still intact and in LIFO order.
    for expected in (0..5).rev() {
        assert_eq!(w.pop(), Some(expected));
    }
    assert_eq!(w.pop(), None);
}

struct Counted(Arc<AtomicUsize>);

impl Drop for Counted {
    fn drop(&mut self) {
        self.0.fetch_sub(1, Ordering::SeqCst);
    }
}

#[test]
fn drops_remaining_elements_once() {
    // A non-Copy payload that counts live instances detects double-free / leak.
    let live = Arc::new(AtomicUsize::new(0));
    {
        let mut w = Worker::<Counted>::with_log_capacity(1);
        for _ in 0..1000 {
            live.fetch_add(1, Ordering::SeqCst);
            w.push(Counted(Arc::clone(&live)));
        }
        // Take some out (moved to us), drop the rest with the deque.
        for _ in 0..400 {
            drop(w.pop().unwrap());
        }
        assert_eq!(live.load(Ordering::SeqCst), 600);
    }
    // After the Worker is dropped, every element must be accounted for exactly once.
    assert_eq!(live.load(Ordering::SeqCst), 0);
}

#[test]
fn remaining_values_are_handed_out_once() {
    let mut w = Worker::<String>::with_log_capacity(1);
    let s = w.stealer();
    for i in 0..7 {
        w.push(format!("task {i}"));
    }
    assert_eq!(w.pop(), Some(String::from("task 6")));
    assert_eq!(s.steal(&mut w), Steal::Success(String::from("task 0")));
    let rest = w.into_remaining();
    let mut sorted = rest.clone();
    sorted.sort();
    assert_eq!(sorted, vec!["task 1", "task 2", "task 3", "task 4", "task 5"]);
}

#[test]
fn steal_batch_takes_about_half() {
    let mut victim = Worker::<usize>::new();
    let mut thief_dest = Worker::<usize>::new();
    let s = victim.stealer();
    for i in 0..100 {
        victim.push(i);
    }

    // One batch steal should move ~half: 1 returned + ~49 into dest.
    let got = s.steal_batch_and_pop(&mut victim, &mut thief_dest).success();
    assert!(got.is_some());
    let moved = thief_dest.len();
    assert!(
        (40..=55).contains(&(moved + 1)),
        "batch should be about half of 100, got {}",
        moved + 1
    );
    // Victim keeps the rest; nothing is lost.
    assert_eq!(victim.len() + thief_dest.len() + 1, 100);
}

#[test]
fn a_batch_is_half_rounded_up_and_oldest_first() {
    for n in 1..20usize {
        let mut victim = Worker::<usize>::new();
        let mut dest = Worker::<usize>::new();
        let s = victim.stealer();
        for i in 0..n {
            victim.push(i);
        }
        dest.push(1000);
        assert_eq!(s.steal_batch_and_pop(&mut victim, &mut dest), Steal::Success(0));
        let want = (n + 1) / 2;
        assert_eq!(victim.len(), n - want);
        assert_eq!(dest.len(), want);
        for i in (1..want).rev() {
            assert_eq!(dest.pop(), Some(i));
        }
        assert_eq!(dest.pop(), Some(1000));
        assert_eq!(s.steal(&mut victim).success(), if n > want { Some(want) } else { None });
    }
}

/// Runs a batch steal of `available` values over the given outcomes.
fn batch(available: usize, outcomes: &[Steal<u32>]) -> (Option<Steal<u32>>, Vec<u32>) {
    let mut s = Batch::start(available);
    let mut moved = Vec::new();
    for got in outcomes {
        assert!(!matches!(s, Batch::Done(_)), "a complete batch steals no more");
        let (next, value) = s.next(*got);
        moved.extend(value);
        s = next;
    }
    match s {
        Batch::Done(r) => (Some(r), moved),
        _ => (None, moved),
    }
}

#[test]
fn a_batch_ends_where_a_steal_fails() {
    expect_batch(0, &[], Some(Steal::Empty), &[]);
    expect_batch(5, &[], None, &[]);
    expect_batch(5, &[Steal::Retry], Some(Steal::Retry), &[]);
    expect_batch(5, &[Steal::Empty], Some(Steal::Empty), &[]);
    expect_batch(1, &[Steal::Success(1)], Some(Steal::Success(1)), &[]);
    expect_batch(5, &[Steal::Success(1)], None, &[]);
    expect_batch(5, &[Steal::Success(1), Steal::Retry], Some(Steal::Success(1)), &[]);
    expect_batch(5, &[Steal::Success(1), Steal::Success(2)], None, &[2]);
    expect_batch(
        5,
        &[Steal::Success(1), Steal::Success(2), Steal::Empty],
        Some(Steal::Success(1)),
        &[2],
    );
    expect_batch(
        5,
        &[Steal::Success(1), Steal::Success(2), Steal::Success(3)],
        Some(Steal::Success(1)),
        &[2, 3],
    );
}

fn expect_batch(
    available: usize,
    outcomes: &[Steal<u32>],
    result: Option<Steal<u32>>,
    moved: &[u32],
) {
    assert_eq!(batch(available, outcomes), (result, moved.to_vec()));
}

#[test]
fn capacity_doubles_and_halves() {
    let mut w = Worker::<u8>::with_log_capacity(2);
    assert_eq!(w.capacity(), 4);
    for i in 0..3 {
        w.push(i);
    }
    // One slot is left, which counts as full.
    assert_eq!(w.capacity(), 4);
    w.push(3);
    assert_eq!(w.capacity(), 8);
    assert_eq!(Worker::<u8>::new().capacity(), 32);
    assert_eq!(Worker::<u8>::default().capacity(), 32);

    let mut w = Worker::<usize>::with_log_capacity(6);
    assert_eq!(w.capacity(), 64);
    for i in 0..23 {
        w.push(i);
    }
    w.pop();
    w.pop();
    // 21 items in 64 slots are not sparse, 20 are.
    assert_eq!(w.capacity(), 64);
    w.pop();
    assert_eq!(w.capacity(), 32);
}

#[test]
fn the_capacity_is_a_power_of_two_with_a_slot_to_spare() {
    let mut w = Worker::<u32>::new();
    let mut held = Vec::new();
    for round in 0..6u32 {
        for i in 0..200 {
            w.push(1000 * round + i);
            held.push(1000 * round + i);
            assert!(w.capacity().is_power_of_two());
            assert!(w.len() < w.capacity());
        }
        for _ in 0..200 - round {
            assert_eq!(w.pop(), held.pop());
            assert!(w.capacity().is_power_of_two());
            assert!(w.len() < w.capacity());
        }
        assert_eq!(w.len(), held.len());
    }
    while let Some(v) = held.pop() {
        assert_eq!(w.pop(), Some(v));
    }
    assert_eq!(w.pop(), None);
}

#[test]
fn retired_buffers_stay_few() {
    // Growing and shrinking over and over uses the same two buffers again.
    let mut d = Deque::<u32>::new(32, MIN_CAPACITY);
    for _ in 0..1000 {
        for i in 0..32 {
            d.push(i);
        }
        for i in (0..32).rev() {
            assert_eq!(d.pop(), Some(i));
        }
        assert!(d.retired() <= 2, "{} buffers", d.retired());
    }
}

#[test]
fn decisions_of_the_index_protocol() {
    assert_eq!(slot_of(5, 4), 1);
    assert_eq!(slot_of(-1, 8), 7);
    assert_eq!(slot_of(isize::MIN, 16), 0);
    assert_eq!(capacity_from_log(0), 1);
    assert_eq!(capacity_from_log(10), 1024);
    assert!(is_full(3, 0, 4));
    assert!(!is_full(2, 0, 4));
    assert!(is_full(isize::MIN, isize::MAX - 2, 4));
    assert_eq!(grown_capacity(16, 1), 32);
    assert_eq!(grown_capacity(2, 16), 16);
    assert_eq!(shrunk_capacity(64, 20, 0), Some(32));
    assert_eq!(shrunk_capacity(64, 21, 0), None);
    assert_eq!(shrunk_capacity(16, 1, 0), None);
    assert_eq!(pop_case(4, 5), PopCase::Empty);
    assert_eq!(pop_case(5, 5), PopCase::Race);
    assert_eq!(pop_case(6, 5), PopCase::Take);
    assert!(has_work(0, 1));
    assert!(!has_work(0, 0));
    assert!(!has_work(1, 0));
    assert!(has_work(isize::MAX, isize::MIN));
}

#[test]
fn a_lost_race_is_a_retry() {
    let mut d = Deque::<u32>::new(4, 1);
    d.push(7);
    // A thief reads the item, then another one takes it.
    let mut slow = ThiefState::Stealing;
    for _ in 0..4 {
        slow = d.thief_step(slow);
    }
    assert_eq!(slow, ThiefState::SeenItem { top: 0, cell: Some(7) });
    assert_eq!(d.steal(), Steal::Success(7));
    assert_eq!(d.thief_step(slow), ThiefState::Stole(Steal::Retry));
    assert!(Steal::<u32>::Retry.is_retry());
    assert!(!Steal::Success(1).is_retry());
    assert_eq!(Steal::<u32>::Retry.success(), None);
}

#[test]
fn thief_handles_are_interchangeable() {
    let mut w = Worker::new();
    w.push('a');
    w.push('b');
    let s: Stealer<char> = w.stealer();
    let t = s.clone();
    assert_eq!(t.steal(&mut w), Steal::Success('a'));
    assert_eq!(s.steal(&mut w), Steal::Success('b'));
    assert!(t.is_empty(&w));
}

/// Picks, one after the other, every sequence of choices.
struct Chooser {
    path: Vec<(usize, usize)>,
    at: usize,
}

impl Chooser {
    fn pick(&mut self, options: usize) -> usize {
        if self.at == self.path.len() {
            self.path.push((0, options));
        }
        self.at += 1;
        self.path[self.at - 1].0
    }
}

fn explore(mut run: impl FnMut(&mut Chooser)) -> usize {
    let mut chooser = Chooser { path: Vec::new(), at: 0 };
    let mut runs = 0;
    loop {
        chooser.at = 0;
        run(&mut chooser);
        runs += 1;
        while let Some((choice, options)) = chooser.path.pop() {
            if choice + 1 < options {
                chooser.path.push((choice + 1, options));
                break;
            }
        }
        if chooser.path.is_empty() {
            return runs;
        }
    }
}

/// One pop of the owner and one steal, interleaved as the chooser says.
fn race(d: &mut Deque<u32>, chooser: &mut Chooser) -> (Option<u32>, Option<u32>) {
    let mut owner = OwnerState::Popping;
    let mut thief = ThiefState::Stealing;
    loop {
        match (owner, thief) {
            (OwnerState::Popped(popped), ThiefState::Stole(stolen)) => {
                return (popped, stolen.success());
            }
            (OwnerState::Popped(_), _) => thief = d.thief_step(thief),
            (_, ThiefState::Stole(_)) => owner = d.owner_step(owner),
            _ => {
                if chooser.pick(2) == 0 {
                    owner = d.owner_step(owner);
                } else {
                    thief = d.thief_step(thief);
                }
            }
        }
    }
}

#[test]
fn loom_owner_pop_vs_one_thief() {
    let runs = explore(|chooser| {
        let mut worker = Deque::<u32>::new(16, 1); // 16 slots, no grow needed
        worker.push(1);
        worker.push(2);

        // Owner pops concurrently with the single steal.
        let (owner_got, thief_got) = race(&mut worker, chooser);

        // Two items, two consumers, no overlap: between owner and thief at most 2 succeed,
        // and the remaining item (if any) is still poppable. No item is taken twice.
        let mut seen: Vec<u32> = Vec::new();
        seen.extend(owner_got);
        seen.extend(thief_got);
        while let Some(v) = worker.pop() {
            seen.push(v);
        }
        assert_eq!(seen.len(), 2, "every pushed item consumed exactly once");
        seen.sort();
        assert_eq!(seen, vec![1, 2]);
    });
    assert!(runs > 20);
}

#[test]
fn loom_push_then_steal() {
    explore(|chooser| {
        let mut worker = Deque::<u32>::new(16, 1);
        worker.push(42);

        let (popped, stolen) = race(&mut worker, chooser);

        // Exactly one of {thief, owner} gets the single element.
        assert_eq!(stolen.is_some() as usize + popped.is_some() as usize, 1);
        assert_eq!(stolen.or(popped), Some(42));
    });
}

#[test]
fn a_slow_thief_reads_a_buffer_while_it_is_copied_into() {
    for pause in 0..40 {
        let mut d = Deque::<u32>::new(16, MIN_CAPACITY);
        for i in 0..15 {
            d.push(i);
        }
        // The thief holds the buffer of 16 cells, which the deque leaves and comes back to.
        let mut thief = ThiefState::Stealing;
        for _ in 0..3 {
            thief = d.thief_step(thief);
        }
        assert!(matches!(thief, ThiefState::SeenBuffer { top: 0, buffer: 0 }));
        d.push(15);
        assert_eq!(d.capacity(), 32);
        while d.len() > 10 {
            d.pop();
        }
        assert_eq!(d.capacity(), 32);
        // One more pop copies what is left, cell by cell; the thief reads somewhere in between.
        let mut owner = OwnerState::Popping;
        for _ in 0..pause {
            owner = d.owner_step(owner);
        }
        thief = d.thief_step(thief);
        assert_eq!(thief, ThiefState::SeenItem { top: 0, cell: Some(0) });
        while !matches!(owner, OwnerState::Popped(_)) {
            owner = d.owner_step(owner);
        }
        assert_eq!(owner, OwnerState::Popped(Some(9)));
        assert_eq!((d.capacity(), d.retired()), (16, 1));
        assert_eq!(d.thief_step(thief), ThiefState::Stole(Steal::Success(0)));
        for i in 1..9 {
            assert_eq!(d.steal(), Steal::Success(i));
        }
        assert_eq!(d.pop(), None);
    }
}

#[test]
fn a_thief_receives_values_in_push_order() {
    explore(|chooser| {
        let mut d = Deque::<u32>::new(2, 1);
        let mut owner = OwnerState::Pushed;
        let mut thief = ThiefState::Stole(Steal::Empty);
        let mut received = Vec::new();
        let mut value = 0;
        for _ in 0..12 {
            if chooser.pick(2) == 0 {
                if owner == OwnerState::Pushed {
                    owner = OwnerState::Pushing { value };
                    value += 1;
                } else {
                    owner = d.owner_step(owner);
                }
            } else if matches!(thief, ThiefState::Stole(_)) {
                thief = ThiefState::Stealing;
            } else {
                thief = d.thief_step(thief);
                if let ThiefState::Stole(Steal::Success(v)) = thief {
                    received.push(v);
                }
            }
        }
        assert!(received.windows(2).all(|pair| pair[0] < pair[1]));
    });
}

#[test]
fn a_push_that_grows_races_with_two_thieves() {
    explore(|chooser| {
        let mut d = Deque::<u32>::new(2, 1);
        d.push(1);
        let mut owner = OwnerState::Pushing { value: 2 };
        let mut thieves = [ThiefState::Stealing, ThiefState::Stealing];
        loop {
            let mut ready = Vec::new();
            if owner != OwnerState::Pushed {
                ready.push(0);
            }
            for (i, t) in thieves.iter().enumerate() {
                if !matches!(t, ThiefState::Stole(_)) {
                    ready.push(i + 1);
                }
            }
            if ready.is_empty() {
                break;
            }
            match ready[chooser.pick(ready.len())] {
                0 => owner = d.owner_step(owner),
                i => thieves[i - 1] = d.thief_step(thieves[i - 1]),
            }
        }
        let mut seen = Vec::new();
        for t in thieves {
            if let ThiefState::Stole(Steal::Success(v)) = t {
                seen.push(v);
            }
        }
        while let Some(v) = d.pop() {
            seen.push(v);
        }
        seen.sort();
        assert_eq!(seen, vec![1, 2]);
    });
}
