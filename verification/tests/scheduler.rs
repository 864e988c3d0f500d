//! The lifeline scheduler, driven step by step.

use ws_deque::scheduler::{
    hypercube_neighbours, probes_of, seed_rng, victims_of, xorshift, Shared, Spawner, Stage,
};

#[test]
fn hypercube_topology_is_connected_and_low_degree() {
    // For n = 8, each node has exactly 3 neighbours (log2 8) and the graph is connected.
    for id in 0..8 {
        let nb = hypercube_neighbours(id, 8);
        assert_eq!(nb.len(), 3, "node {id} should have 3 hypercube neighbours");
    }
    // Non-power-of-two: neighbours clamp to < n, still nonempty for n > 1.
    for id in 0..6 {
        assert!(!hypercube_neighbours(id, 6).is_empty());
    }
    assert!(hypercube_neighbours(0, 1).is_empty());
}

/// Runs `task_fn` on every task, one step of one worker at a time. The workers take turns; with a
/// `shuffle` they move in a pseudo-random order.
fn run<T, F>(workers: usize, initial: Vec<T>, shuffle: Option<u64>, mut task_fn: F)
where
    F: FnMut(T, &mut Spawner<T>),
{
    let mut shared = Shared::new(workers, initial);
    if shared.outstanding() == 0 {
        return;
    }
    let n = shared.workers();
    let mut stages: Vec<Option<Stage<T>>> =
        (0..n).map(|_| Some(Stage::Drain { did_work: false })).collect();
    let mut left = n;
    let mut turn = 0usize;
    let mut rng = shuffle.unwrap_or(1);
    while left > 0 {
        rng = xorshift(rng);
        let me = if shuffle.is_some() { rng as usize % n } else { turn % n };
        turn += 1;
        let next = match stages[me].take() {
            None => continue,
            Some(Stage::Run { task, stolen }) => {
                task_fn(task, &mut Spawner::new(&mut shared, me));
                Stage::Finish { stolen }
            }
            Some(stage) => shared.step(me, stage),
        };
        if matches!(next, Stage::Exit) {
            left -= 1;
        } else {
            stages[me] = Some(next);
        }
    }
    assert!(shared.is_terminated());
    assert_eq!(shared.outstanding(), 0);
    assert_eq!(shared.queued(), 0);
}

#[test]
fn runs_irregular_tree_to_completion() {
    // A dynamically-unfolding tree: each node with value v>0 spawns two children (v-1).
    // The scheduler must execute every node exactly once and then terminate (no hang).
    let depth = 18u32;
    let mut counter = 0usize;
    run(8, vec![depth], None, |v: u32, sp| {
        counter += 1;
        if v > 0 {
            sp.spawn(v - 1);
            sp.spawn(v - 1);
        }
    });
    // Number of nodes in a full binary tree of `depth` levels: 2^(depth+1) - 1.
    let expected = (1usize << (depth + 1)) - 1;
    assert_eq!(counter, expected);
}

#[test]
fn parallel_sum_matches_sequential() {
    // Sum 0..N by spawning a task per element; checks correctness under load balancing.
    let n = 200_000u64;
    let mut total = 0u64;
    run(8, (0..n).collect(), None, |i: u64, _sp| {
        total += i;
    });
    assert_eq!(total, n * (n - 1) / 2);
}

#[test]
fn single_worker_still_completes() {
    let mut counter = 0usize;
    run(1, vec![10u32], None, |v: u32, sp| {
        counter += 1;
        if v > 0 {
            sp.spawn(v - 1);
        }
    });
    assert_eq!(counter, 11);
}

#[test]
fn every_task_runs_once_in_shuffled_orders() {
    for seed in 1..200u64 {
        let workers = 1 + seed as usize % 7;
        let mut seen = vec![0usize; 64];
        run(workers, vec![1usize], Some(seed), |v: usize, sp| {
            seen[v] += 1;
            for child in [2 * v, 2 * v + 1] {
                if child < 64 {
                    sp.spawn(child);
                }
            }
        });
        assert_eq!(seen[0], 0);
        assert!(seen[1..].iter().all(|c| *c == 1), "seed {seed}");
    }
}

#[test]
fn no_work_means_no_run() {
    run(4, Vec::<u8>::new(), None, |_t, _sp| panic!("nothing to run"));
    let shared = Shared::<u8>::new(0, Vec::new());
    assert_eq!(shared.workers(), 1);
    assert_eq!(shared.outstanding(), 0);
}

#[test]
fn neighbours_differ_in_one_bit() {
    assert_eq!(hypercube_neighbours(5, 8), vec![4, 7, 1]);
    assert_eq!(hypercube_neighbours(0, 8), vec![1, 2, 4]);
    assert_eq!(hypercube_neighbours(4, 6), vec![5, 0]);
    for n in 1..40usize {
        for id in 0..n {
            for other in hypercube_neighbours(id, n) {
                assert!(other < n);
                assert_eq!((id ^ other).count_ones(), 1);
                assert!(hypercube_neighbours(other, n).contains(&id));
            }
        }
    }
}

#[test]
fn a_hypercube_is_connected_within_its_dimension() {
    for n in 1..33usize {
        for start in 0..n {
            let mut distance = vec![usize::MAX; n];
            distance[start] = 0;
            let mut frontier = vec![start];
            while let Some(id) = frontier.pop() {
                for other in hypercube_neighbours(id, n) {
                    if distance[other] > distance[id] + 1 {
                        distance[other] = distance[id] + 1;
                        frontier.push(other);
                    }
                }
            }
            for (other, d) in distance.iter().enumerate() {
                assert_eq!(*d, (start ^ other).count_ones() as usize);
            }
        }
    }
}

#[test]
fn random_numbers_are_those_of_xorshift() {
    assert_eq!(xorshift(1), 0x40822041);
    assert_eq!(xorshift(0), 0);
    assert_ne!(seed_rng(0), 0);
    assert_ne!(seed_rng(0), seed_rng(1));
}

#[test]
fn an_idle_worker_draws_logarithmically_many_victims() {
    let drawn = [(1, 1), (2, 1), (3, 2), (4, 2), (5, 3), (8, 3), (9, 4), (16, 4), (1024, 10)];
    for (n, w) in drawn {
        assert_eq!(probes_of(n), w, "{n} workers");
    }
    // Three random victims, less the draws of the worker itself, then three buddies.
    for me in 0..8 {
        let mut random = Vec::new();
        let mut x = seed_rng(me);
        for _ in 0..3 {
            x = xorshift(x);
            if x as usize % 8 != me {
                random.push(x as usize % 8);
            }
        }
        random.extend(hypercube_neighbours(me, 8));
        assert_eq!(victims_of(me, 8), random);
    }
}

#[test]
fn neighbours_are_all_that_differ_in_one_bit() {
    for n in 1..40usize {
        for id in 0..n {
            let mut near = hypercube_neighbours(id, n);
            near.sort_unstable();
            let one_bit: Vec<usize> = (0..n).filter(|o| (id ^ o).count_ones() == 1).collect();
            assert_eq!(near, one_bit);
        }
    }
}

#[test]
fn victims_are_others_and_end_with_the_buddies() {
    for n in 1..20usize {
        for me in 0..n {
            let victims = victims_of(me, n);
            assert!(victims.iter().all(|v| *v < n && *v != me));
            assert!(victims.ends_with(&hypercube_neighbours(me, n)));
        }
    }
}

#[test]
fn a_worker_with_nothing_to_steal_registers_and_sleeps() {
    // Worker 0 has the only task; worker 1 finds nothing while that task runs.
    let mut shared = Shared::new(2, vec![10u32]);
    let busy = shared.step(0, Stage::Drain { did_work: false });
    assert!(matches!(busy, Stage::Run { task: 10, stolen: false }));
    assert_eq!(shared.try_steal(1), None);
    let mut idle = Stage::Drain { did_work: false };
    while !matches!(idle, Stage::Asleep { .. }) {
        idle = shared.step(1, idle);
    }
    // Still asleep as long as nothing happens.
    idle = shared.step(1, idle);
    assert!(matches!(idle, Stage::Asleep { .. }));
    // A spawn wakes it, and it steals the new task.
    shared.spawn(0, 11);
    idle = shared.step(1, idle);
    assert!(matches!(idle, Stage::Drain { did_work: false }));
    while !matches!(idle, Stage::Run { .. }) {
        idle = shared.step(1, idle);
    }
    assert!(matches!(idle, Stage::Run { task: 11, stolen: true }));
    // The last one to finish declares that all is done.
    assert!(matches!(shared.step(1, Stage::Finish { stolen: true }), Stage::Drain { did_work: false }));
    let last = shared.step(0, Stage::Finish { stolen: false });
    assert!(matches!(last, Stage::Declare { exit: false }));
    assert!(!shared.is_terminated());
    shared.step(0, last);
    assert!(shared.is_terminated());
}

#[test]
fn a_spawn_before_sleep_is_not_missed() {
    let mut shared = Shared::new(2, vec![1u32]);
    shared.step(0, Stage::Drain { did_work: false });
    let mut idle = Stage::Drain { did_work: false };
    while !matches!(idle, Stage::Park { .. }) {
        idle = shared.step(1, idle);
    }
    shared.spawn(0, 2);
    assert!(matches!(shared.step(1, idle), Stage::Drain { did_work: false }));
}
