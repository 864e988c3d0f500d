//! The pool with strict priority levels.

use ws_deque::priority::{scan, PriorityWorker};
use ws_deque::Steal;

#[test]
fn pops_highest_priority_first() {
    let mut w = PriorityWorker::<&str, 3>::new();
    w.push("low", 2);
    w.push("high", 0);
    w.push("mid", 1);
    // Even though "low" was pushed first, priority 0 wins.
    assert_eq!(w.pop(), Some("high"));
    assert_eq!(w.pop(), Some("mid"));
    assert_eq!(w.pop(), Some("low"));
    assert_eq!(w.pop(), None);
}

#[test]
fn steal_prefers_higher_priority() {
    let mut w = PriorityWorker::<u32, 2>::new();
    let s = w.stealer();
    w.push(100, 1); // low priority
    w.push(1, 0); // high priority
    // Thief takes the high-priority task first.
    assert_eq!(s.steal(&mut w), Steal::Success(1));
    assert_eq!(s.steal(&mut w), Steal::Success(100));
    assert_eq!(s.steal(&mut w), Steal::Empty);
}

#[test]
fn level_clamps_to_range() {
    let mut w = PriorityWorker::<u32, 2>::new();
    w.push(7, 99); // clamps to level 1 (lowest)
    assert_eq!(w.len(), 1);
    assert_eq!(w.pop(), Some(7));
}

#[test]
fn owners_take_the_newest_and_thieves_the_oldest_of_a_level() {
    let mut w = PriorityWorker::<u32, 4>::default();
    let s = w.stealer().clone();
    assert_eq!(w.levels(), 4);
    assert!(w.is_empty());
    for v in [1, 2, 3] {
        w.push(v, 2);
    }
    w.push(9, 3);
    assert_eq!(w.len(), 4);
    assert!(!w.is_empty());
    assert_eq!(s.steal(&mut w), Steal::Success(1));
    assert_eq!(w.pop(), Some(3));
    assert_eq!(w.pop(), Some(2));
    assert_eq!(s.steal(&mut w), Steal::Success(9));
    assert!(w.is_empty());
}

#[test]
fn a_scan_reports_the_first_task_then_contention() {
    let fold = |answers: &[Steal<u32>]| {
        answers.iter().fold(Steal::Empty, |so_far, answer| scan(so_far, *answer))
    };
    assert_eq!(fold(&[]), Steal::Empty);
    assert_eq!(fold(&[Steal::Empty, Steal::Empty]), Steal::Empty);
    assert_eq!(fold(&[Steal::Empty, Steal::Retry, Steal::Empty]), Steal::Retry);
    assert_eq!(fold(&[Steal::Retry, Steal::Success(4), Steal::Success(5)]), Steal::Success(4));
    assert_eq!(fold(&[Steal::Empty, Steal::Success(4), Steal::Retry]), Steal::Success(4));
}
