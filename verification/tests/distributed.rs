//! Distributed work stealing, driven step by step.

use std::collections::VecDeque;

use ws_deque::distributed::{deal, DistStats, Message, Node, NodeSpawner, Phase};

/// Runs `task_fn` on every task, one phase of one node at a time; the nodes take turns.
fn run<T, F>(nodes: usize, initial: Vec<T>, mut task_fn: F) -> DistStats
where
    F: FnMut(T, &mut NodeSpawner<T>),
{
    let mut outstanding = initial.len();
    let seeds = deal(nodes, initial);
    let n = seeds.len();
    let mut stats = DistStats::new(n);
    let mut mail: Vec<VecDeque<Message<T>>> = (0..n).map(|_| VecDeque::new()).collect();
    let mut states: Vec<Node<T>> = Vec::new();
    for (id, seed) in seeds.into_iter().enumerate() {
        states.push(Node::new(id, n, seed));
    }
    let mut phases: Vec<Option<Phase<T>>> = (0..n).map(|_| Some(Phase::Mailbox)).collect();
    let mut left = 0;
    let mut turn = 0;
    while left < n {
        let me = turn % n;
        turn += 1;
        let next = match phases[me].take() {
            None => continue,
            Some(Phase::Mailbox) => {
                let message = mail[me].pop_front();
                states[me].on_mail(message)
            }
            Some(Phase::Reply { to, batch }) => {
                let tasks = batch.len();
                mail[to].push_back(Message::Work(batch));
                let (next, moved) = Node::on_reply_sent(tasks, true);
                stats.on_moved(moved);
                next
            }
            Some(Phase::Local) => states[me].on_local(),
            Some(Phase::Run { task }) => {
                task_fn(task, &mut states[me].spawner(&mut outstanding));
                let (next, left) = Node::on_done(outstanding);
                outstanding = left;
                next
            }
            Some(Phase::Check) => states[me].on_count(outstanding),
            Some(Phase::Ask { victim }) => {
                mail[victim].push_back(Message::StealRequest { from: me });
                stats.on_request();
                states[me].on_request_sent(true)
            }
            Some(Phase::Rest) => Phase::Mailbox,
            Some(Phase::Left) => {
                left += 1;
                continue;
            }
        };
        phases[me] = Some(next);
    }
    assert_eq!(outstanding, 0);
    stats
}

#[test]
fn distributes_irregular_tree_to_completion() {
    // A dynamically-unfolding binary tree spread across nodes; every node must be visited
    // exactly once and the run must terminate (distributed termination detection).
    let depth = 16u32;
    let mut count = 0usize;
    run(4, vec![depth], |v: u32, sp| {
        count += 1;
        if v > 0 {
            sp.spawn(v - 1);
            sp.spawn(v - 1);
        }
    });
    let expected = (1usize << (depth + 1)) - 1;
    assert_eq!(
        count,
        expected,
        "every tree node executed once"
    );
}

#[test]
fn parallel_sum_across_nodes() {
    let n = 100_000u64;
    let mut total = 0u64;
    let stats = run(4, (0..n).collect(), |i: u64, _sp| {
        total += i;
    });
    assert_eq!(total, n * (n - 1) / 2);
    // Multi-node => some cross-node stealing happened (load was balanced by messages).
    assert!(stats.nodes == 4);
}

#[test]
fn single_node_completes() {
    let mut count = 0usize;
    run(1, vec![8u32], |v: u32, sp| {
        count += 1;
        if v > 0 {
            sp.spawn(v - 1);
        }
    });
    assert_eq!(count, 9);
}

#[test]
fn imbalanced_seed_is_balanced_by_stealing() {
    // All initial work starts on node 0 (others idle) — they must steal it via messages.
    let n = 50_000usize;
    let mut seen = vec![0usize; n];
    // Seed a single root task that fans out, so node 0 starts with everything.
    let stats = run(4, vec![0usize], |start: usize, sp| {
        if start == 0 {
            for i in 1..=n {
                sp.spawn(i);
            }
        } else {
            seen[start - 1] += 1;
        }
    });
    for (i, c) in seen.iter().enumerate() {
        assert_eq!(
            *c,
            1,
            "task {i} executed exactly once across nodes"
        );
    }
    assert!(stats.steal_messages > 0);
    assert!(stats.migrated_tasks > 0);
}

#[test]
fn tasks_are_dealt_in_turn() {
    assert_eq!(deal(3, vec![0, 1, 2, 3, 4]), vec![vec![0, 3], vec![1, 4], vec![2]]);
    assert_eq!(deal(0, vec![7, 8]), vec![vec![7, 8]]);
    assert_eq!(deal(2, Vec::<u8>::new()), vec![vec![], vec![]]);
}

#[test]
fn a_node_gives_away_half_of_its_surplus() {
    for (len, give) in [(0usize, 0usize), (1, 0), (2, 0), (3, 1), (4, 1), (5, 2), (10, 4)] {
        let mut node = Node::new(0, 2, (0..len).collect::<Vec<usize>>());
        let batch = node.answer();
        assert_eq!(batch, (len - give..len).collect::<Vec<usize>>());
        // The node runs the newest of what it keeps.
        match node.on_local() {
            Phase::Run { task } => assert_eq!(task, len - give - 1),
            _ => assert_eq!(len, 0),
        }
    }
}

#[test]
fn a_node_waits_for_one_reply_at_a_time() {
    let mut node = Node::<u8>::new(0, 2, Vec::new());
    // It draws until it draws the other node.
    let mut victim = None;
    for _ in 0..100 {
        if let Phase::Ask { victim: v } = node.on_count(1) {
            victim = Some(v);
            break;
        }
    }
    assert_eq!(victim, Some(1));
    assert!(matches!(node.on_request_sent(true), Phase::Rest));
    for _ in 0..100 {
        assert!(matches!(node.on_count(1), Phase::Rest));
    }
    // A declined request lets it ask again.
    assert!(matches!(node.on_mail(Some(Message::Work(Vec::new()))), Phase::Mailbox));
    assert!((0..100).any(|_| matches!(node.on_count(1), Phase::Ask { victim: 1 })));
    assert!(matches!(node.on_count(0), Phase::Left));
}

#[test]
fn a_request_that_was_not_delivered_is_not_awaited() {
    let mut node = Node::<u8>::new(1, 2, Vec::new());
    assert!(matches!(node.on_request_sent(false), Phase::Rest));
    assert!((0..100).any(|_| matches!(node.on_count(1), Phase::Ask { victim: 0 })));
    let (next, moved) = Node::<u8>::on_reply_sent(3, false);
    assert!(matches!(next, Phase::Mailbox));
    assert_eq!(moved, 0);
}

#[test]
fn the_statistics_count_requests_and_delivered_tasks() {
    let mut stats = DistStats::new(3);
    assert_eq!((stats.steal_messages, stats.migrated_tasks, stats.nodes), (0, 0, 3));
    // A request counts whether or not it is delivered, a task only if its reply is.
    stats.on_request();
    stats.on_request();
    stats.on_moved(Node::<u8>::on_reply_sent(4, true).1);
    stats.on_moved(Node::<u8>::on_reply_sent(7, false).1);
    assert_eq!((stats.steal_messages, stats.migrated_tasks, stats.nodes), (2, 4, 3));
    let (next, left) = Node::<u8>::on_done(5);
    assert!(matches!(next, Phase::Mailbox));
    assert_eq!(left, 4);
}

#[test]
fn a_lone_node_asks_nobody() {
    let mut node = Node::<u8>::new(0, 1, Vec::new());
    assert!(matches!(node.on_mail(None), Phase::Local));
    assert!(matches!(node.on_local(), Phase::Check));
    assert!(matches!(node.on_count(5), Phase::Rest));
    assert!(matches!(node.on_mail(Some(Message::Work(vec![4, 5]))), Phase::Mailbox));
    assert!(matches!(node.on_local(), Phase::Run { task: 5 }));
}
