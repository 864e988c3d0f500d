//! Queues with multiplicity over a growing array and over linked nodes.

use std::collections::HashSet;

use ws_deque::idempotent::{ConsumerState, IdempotentWorker, PutState, Role, Take};
use ws_deque::linked::{LinkedConsumer, LinkedWorker, NODE_SIZE};

#[test]
fn put_take_fifo() {
    let mut w = IdempotentWorker::new();
    for i in 0..10 {
        w.put(i);
    }
    for i in 0..10 {
        assert_eq!(w.take(), Take::Got(i)); // FIFO: head advances 0,1,2,...
    }
    assert_eq!(w.take(), Take::Empty);
}

#[test]
fn steal_fifo_from_head() {
    let mut w = IdempotentWorker::new();
    let s = w.stealer();
    for i in 0..5 {
        w.put(i);
    }
    for i in 0..5 {
        assert_eq!(s.steal(&mut w), Take::Got(i));
    }
    assert_eq!(s.steal(&mut w), Take::Empty);
}

#[test]
fn grows_and_preserves_order() {
    let mut w = IdempotentWorker::<usize>::new();
    let n = 5_000;
    for i in 0..n {
        w.put(i);
    }
    assert!(w.capacity() > n);
    for i in 0..n {
        assert_eq!(w.take(), Take::Got(i));
    }
    assert_eq!(w.take(), Take::Empty);
}

#[test]
fn bounded_put_rejects_when_full() {
    let mut w = IdempotentWorker::<usize>::bounded(4);
    for i in 0..4 {
        assert!(w.put(i), "slot {i} within capacity");
    }
    assert!(!w.put(99), "put past capacity must return false");
    // The four accepted tasks are still retrievable in order.
    for i in 0..4 {
        assert_eq!(w.take(), Take::Got(i));
    }
    assert_eq!(w.take(), Take::Empty);
}

#[test]
fn no_phantom_tasks() {
    // Every delivered value must be one that was actually put (no reading uninit slots).
    let mut w = IdempotentWorker::<usize>::new();
    let n = 1000;
    for i in 0..n {
        w.put(i * 7 + 1); // distinctive values
    }
    let valid: HashSet<usize> = (0..n).map(|i| i * 7 + 1).collect();
    let s = w.stealer();
    let mut seen = 0;
    while let Take::Got(v) = s.steal(&mut w) {
        assert!(valid.contains(&v), "phantom task {v} never put");
        seen += 1;
    }
    assert_eq!(seen, n);
}

/// A consumer that takes until the queue is empty.
struct Drainer {
    role: Role,
    state: ConsumerState,
    got: Vec<u32>,
    finished: bool,
}

impl Drainer {
    fn new(role: Role) -> Self {
        Drainer { role, state: ConsumerState::Start, got: Vec::new(), finished: false }
    }

    fn step(&mut self, w: &mut IdempotentWorker<u32>, tasks: &[u32]) {
        self.state = w.consumer_step(self.role, self.state);
        match self.state {
            ConsumerState::Done(Some(k)) => {
                self.got.push(tasks[k]);
                self.state = ConsumerState::Start;
            }
            ConsumerState::Done(None) => self.finished = true,
            _ => {}
        }
    }
}

/// Runs two drainers with their steps in the order of the bits of `schedule`.
fn drain_both(
    w: &mut IdempotentWorker<u32>,
    tasks: &[u32],
    roles: (Role, Role),
    schedule: u32,
) -> (Vec<u32>, Vec<u32>) {
    let mut a = Drainer::new(roles.0);
    let mut b = Drainer::new(roles.1);
    let mut at = 0;
    while !a.finished || !b.finished {
        if b.finished || (!a.finished && schedule >> (at % 32) & 1 == 0) {
            a.step(w, tasks);
        } else {
            b.step(w, tasks);
        }
        at += 1;
    }
    (a.got, b.got)
}

#[test]
fn loom_put_take_steal() {
    for schedule in 0u32..1 << 17 {
        let mut w = IdempotentWorker::<u32>::new();
        w.put(1);
        w.put(2);

        let (owner_got, thief_got) =
            drain_both(&mut w, &[1, 2], (Role::Owner, Role::Thief), schedule);

        // Multiplicity contract: every task delivered at least once across both consumers.
        for task in [1u32, 2] {
            let n = owner_got.iter().filter(|&&v| v == task).count()
                + thief_got.iter().filter(|&&v| v == task).count();
            assert!(n >= 1, "task {task} never delivered");
            assert!(
                n <= 2,
                "task {task} delivered {n} times, exceeds 2 consumers"
            );
        }
    }
}

#[test]
fn exclusive_thieves_share_no_task() {
    for schedule in 0u32..1 << 17 {
        let mut w = IdempotentWorker::<u32>::bounded(2);
        w.put(1);
        w.put(2);
        let (a, b) =
            drain_both(&mut w, &[1, 2], (Role::Exclusive, Role::Exclusive), schedule);
        for task in [1u32, 2] {
            let n = a.iter().chain(&b).filter(|&&v| v == task).count();
            assert!(n <= 1, "task {task} taken {n} times");
        }
    }
}

#[test]
fn as_many_exclusive_deliveries_as_tasks_are_each_task_once() {
    let mut w = IdempotentWorker::<usize>::bounded(9);
    for i in 0..9 {
        assert!(w.put(i));
    }
    let thieves = [w.stealer(), w.stealer().clone(), w.stealer()];
    let mut delivered = Vec::new();
    let mut turn = 0;
    while delivered.len() < 9 {
        if let Take::Got(task) = thieves[turn % 3].steal_exclusive(&mut w) {
            delivered.push(task);
        }
        turn += 1;
    }
    delivered.sort_unstable();
    assert_eq!(delivered, (0..9).collect::<Vec<_>>());
    for thief in &thieves {
        assert_eq!(thief.steal_exclusive(&mut w), Take::Empty);
    }
}

#[test]
fn a_task_can_be_delivered_to_two_consumers() {
    let mut w = IdempotentWorker::<u32>::new();
    w.put(9);
    let mut owner = ConsumerState::Start;
    let mut thief = ConsumerState::Start;
    for _ in 0..4 {
        owner = w.consumer_step(Role::Owner, owner);
        thief = w.consumer_step(Role::Thief, thief);
    }
    assert_eq!(owner, ConsumerState::Done(Some(0)));
    assert_eq!(thief, ConsumerState::Done(Some(0)));
    assert_eq!(w.take(), Take::Empty);
}

#[test]
fn an_exclusive_thief_passes_a_claimed_task() {
    let mut w = IdempotentWorker::<u32>::bounded(3);
    let s = w.stealer();
    w.put(5);
    w.put(6);
    // Another thief has claimed the first task, and has not raised the head yet.
    let mut slow = ConsumerState::Start;
    for _ in 0..4 {
        slow = w.consumer_step(Role::Exclusive, slow);
    }
    assert_eq!(slow, ConsumerState::Claimed { head: 0 });
    assert_eq!(s.steal_exclusive(&mut w), Take::Empty);
    assert_eq!(s.steal_exclusive(&mut w), Take::Got(6));
    assert_eq!(s.steal_exclusive(&mut w), Take::Empty);
    // The late write of the slow thief does not bring the head back.
    assert_eq!(w.consumer_step(Role::Exclusive, slow), ConsumerState::Done(Some(0)));
    assert_eq!(w.take(), Take::Empty);
}

#[test]
fn a_put_in_progress_is_not_seen() {
    let mut w = IdempotentWorker::<u32>::new();
    let mut put = PutState::Start { task: 3 };
    put = w.put_step(put);
    assert_eq!(w.take(), Take::Empty);
    assert_eq!(w.tail(), 0);
    put = w.put_step(put);
    put = w.put_step(put);
    assert!(matches!(put, PutState::Done(true)));
    assert_eq!(w.tail(), 1);
    assert_eq!(w.take(), Take::Got(3));
}

#[test]
fn capacities_of_growable_and_bounded_queues() {
    let mut w = IdempotentWorker::<u8>::new();
    assert_eq!(w.capacity(), 16);
    for i in 0..15 {
        w.put(i);
    }
    let before = w.capacity();
    for i in 15..40 {
        w.put(i);
    }
    assert!(w.capacity() >= 2 * before);
    assert_eq!(w.tail(), 40);
    let d = IdempotentWorker::<u8>::default();
    assert_eq!(d.capacity(), 16);
    let mut none = IdempotentWorker::<u8>::bounded(1);
    assert!(none.put(1));
    assert!(!none.put(2));
    assert_eq!(Take::Got(4).got(), Some(4));
    assert_eq!(Take::<u8>::Empty.got(), None);
}

#[test]
fn put_take_fifo_across_many_nodes() {
    let mut w = LinkedWorker::<usize>::new();
    let n = NODE_SIZE * 10 + 7; // force many node links
    for i in 0..n {
        w.put(i);
    }
    assert!(w.node_count() >= 10, "should have linked many nodes");
    for i in 0..n {
        assert_eq!(w.take(), Take::Got(i)); // FIFO
    }
    assert_eq!(w.take(), Take::Empty);
}

#[test]
fn steal_fifo_single_thief() {
    let mut w = LinkedWorker::<usize>::new();
    let mut s = w.stealer();
    let n = NODE_SIZE * 3 + 5;
    for i in 0..n {
        w.put(i);
    }
    for i in 0..n {
        assert_eq!(s.steal(&mut w), Take::Got(i));
    }
    assert_eq!(s.steal(&mut w), Take::Empty);
}

#[test]
fn put_does_not_copy_on_grow() {
    // A purely diagnostic check that growth only *adds* nodes (constant-time put), never a
    // re-allocation of the whole store: node_count grows by exactly 1 per NODE_SIZE puts.
    let mut w = LinkedWorker::<usize>::new();
    assert_eq!(w.node_count(), 1);
    for i in 0..NODE_SIZE {
        w.put(i);
    }
    assert_eq!(
        w.node_count(),
        2,
        "one fresh node linked after filling the first"
    );
}

#[test]
fn a_cloned_linked_thief_starts_at_the_first_node() {
    let mut w = LinkedWorker::<usize>::default();
    let mut s = w.stealer();
    for i in 0..NODE_SIZE + 3 {
        w.put(i);
    }
    for i in 0..NODE_SIZE + 1 {
        assert_eq!(s.steal(&mut w), Take::Got(i));
    }
    let mut t = s.clone();
    assert_eq!(t.steal(&mut w), Take::Got(NODE_SIZE + 1));
    assert_eq!(s.steal(&mut w), Take::Got(NODE_SIZE + 2));
    assert_eq!(t.steal(&mut w), Take::Empty);
}

#[test]
fn linked_consumers_deliver_every_task_in_every_order() {
    for schedule in 0u32..1 << 14 {
        let mut w = LinkedWorker::<u32>::new();
        w.put(10);
        w.put(11);
        let mut states = [LinkedConsumer::Start { node: 0 }; 2];
        let mut finished = [false; 2];
        let mut count = [[0usize; 2]; 2];
        let mut at = 0;
        while !finished[0] || !finished[1] {
            let bit = (schedule >> (at % 32) & 1) as usize;
            let i = if finished[bit] { 1 - bit } else { bit };
            states[i] = w.consumer_step(states[i]);
            if let LinkedConsumer::Done { node, task } = states[i] {
                match task {
                    Some(k) => {
                        count[i][k] += 1;
                        states[i] = LinkedConsumer::Start { node };
                    }
                    None => finished[i] = true,
                }
            }
            at += 1;
        }
        for k in 0..2 {
            assert!(count[0][k] + count[1][k] >= 1);
            assert!(count[0][k] <= 1 && count[1][k] <= 1);
        }
    }
}
