//! Block-based queues, bounded and unbounded.

use ws_deque::blocks::{BlockOwner, BlockThief, Blocks};
use ws_deque::bwos::unbounded::UnboundedBwosWorker;
use ws_deque::bwos::BwosWorker;
use ws_deque::Steal;

#[test]
fn put_pop_lifo_within_block() {
    let mut w = BwosWorker::<u64>::with_blocks(4, 8);
    for i in 0..6 {
        assert!(w.put(i));
    }
    for i in (0..6).rev() {
        assert_eq!(w.pop(), Some(i));
    }
    assert_eq!(w.pop(), None);
}

#[test]
fn put_pop_across_blocks() {
    let mut w = BwosWorker::<u64>::with_blocks(4, 4);
    // 10 items spans 3 blocks (4+4+2).
    for i in 0..10 {
        assert!(w.put(i));
    }
    for i in (0..10).rev() {
        assert_eq!(w.pop(), Some(i), "LIFO across block boundaries");
    }
    assert_eq!(w.pop(), None);
}

#[test]
fn bounded_full_rejects() {
    let mut w = BwosWorker::<u64>::with_blocks(2, 4); // capacity 8
    for i in 0..8 {
        assert!(w.put(i), "slot {i} within capacity");
    }
    assert!(!w.put(99), "put past capacity returns false");
}

#[test]
fn steal_takes_from_front_fifo() {
    let mut w = BwosWorker::<u64>::with_blocks(4, 4);
    let s = w.stealer();
    for i in 0..6 {
        w.put(i);
    }
    // Thief takes from the front (oldest first).
    assert_eq!(s.steal(&mut w), Steal::Success(0));
    assert_eq!(s.steal(&mut w), Steal::Success(1));
}

#[test]
fn loom_owner_pop_vs_thief() {
    // Owner pops while one thief steals from a 2-block, 2-entry queue; every value consumed
    // at most once and none lost, across all interleavings of the per-block protocol.
    for schedule in 0u32..1 << 16 {
        let mut w = Blocks::<u32>::bounded(2, 2);
        w.put(1);
        w.put(2);
        let mut owner = BlockOwner::Popping;
        let mut thief = BlockThief::Stealing;
        let mut step = 0;
        let (owner1, stolen) = loop {
            match (owner, thief) {
                (BlockOwner::Popped(p), BlockThief::Stole { got, .. }) => {
                    break (p, got.success())
                }
                (BlockOwner::Popped(_), _) => thief = w.thief_step(thief),
                (_, BlockThief::Stole { .. }) => owner = w.owner_step(owner),
                _ => {
                    if schedule >> step & 1 == 0 {
                        owner = w.owner_step(owner);
                    } else {
                        thief = w.thief_step(thief);
                    }
                    step += 1;
                }
            }
        };
        let owner2 = w.pop();

        // Two items; each distinct value appears at most once across the three consumers, and
        // together they consume both (no loss).
        let mut got = Vec::new();
        for v in [owner1, stolen, owner2].into_iter().flatten() {
            got.push(v);
        }
        got.sort_unstable();
        got.dedup();
        assert_eq!(
            got,
            vec![1u32, 2],
            "both items consumed exactly once, no duplication"
        );
    }
}

#[test]
fn unbounded_grows_far_past_initial_blocks() {
    // Tiny blocks (size 2), 10_000 items: the queue allocates ~5000 fresh blocks on demand
    // (it is unbounded; the bounded `BwosWorker` would reject) and returns all in LIFO order.
    let mut w = UnboundedBwosWorker::<u64>::with_block_size(2);
    let n = 10_000u64;
    for i in 0..n {
        assert!(w.put(i), "unbounded put always succeeds (item {i})");
    }
    for i in (0..n).rev() {
        assert_eq!(w.pop(), Some(i), "LIFO across thousands of linked blocks");
    }
    assert_eq!(w.pop(), None);
}

#[test]
fn unbounded_steal_from_front() {
    let mut w = UnboundedBwosWorker::<u64>::with_block_size(4);
    let mut s = w.stealer();
    for i in 0..6 {
        w.put(i);
    }
    assert_eq!(s.steal(&mut w), Steal::Success(0));
    assert_eq!(s.steal(&mut w), Steal::Success(1));
}

#[test]
fn capacities_and_block_sizes() {
    assert_eq!(BwosWorker::<u8>::new().capacity(), 4096);
    assert_eq!(BwosWorker::<u8>::default().capacity(), 4096);
    assert_eq!(BwosWorker::<u8>::with_blocks(3, 5).capacity(), 15);
    assert_eq!(UnboundedBwosWorker::<u8>::new().block_size(), 256);
    assert_eq!(UnboundedBwosWorker::<u8>::default().block_size(), 256);
    assert_eq!(UnboundedBwosWorker::<u8>::with_blocks(9, 7).block_size(), 7);
}

#[test]
fn a_fresh_queue_holds_exactly_its_capacity() {
    for (blocks, size) in [(2, 1), (2, 3), (5, 2)] {
        let mut w = BwosWorker::<usize>::with_blocks(blocks, size);
        for i in 0..blocks * size {
            assert!(w.put(i));
        }
        assert!(!w.put(0));
        let s = w.stealer().clone();
        for i in 0..blocks * size {
            assert_eq!(s.steal(&mut w), Steal::Success(i));
        }
        assert_eq!(s.steal(&mut w), Steal::Empty);
    }
}

#[test]
fn owner_and_thief_meet_in_the_middle() {
    let mut w = BwosWorker::<u32>::with_blocks(4, 2);
    let s = w.stealer();
    for i in 0..7 {
        assert!(w.put(i));
    }
    assert_eq!(s.steal(&mut w), Steal::Success(0));
    assert_eq!(w.pop(), Some(6));
    assert_eq!(s.steal(&mut w), Steal::Success(1));
    assert_eq!(w.pop(), Some(5));
    assert_eq!(w.pop(), Some(4));
    assert_eq!(s.steal(&mut w), Steal::Success(2));
    assert_eq!(w.pop(), Some(3));
    assert_eq!(w.pop(), None);
    assert_eq!(s.steal(&mut w), Steal::Empty);
}

#[test]
fn a_block_is_put_into_again_where_nothing_was_stolen() {
    let mut w = BwosWorker::<u32>::with_blocks(2, 2);
    for i in 0..4 {
        assert!(w.put(i));
    }
    // Down to the first block and up again.
    assert_eq!(w.pop(), Some(3));
    assert!(w.put(30));
    assert_eq!(w.pop(), Some(30));
    assert!(w.put(31));
    assert!(!w.put(32));
    assert_eq!(w.pop(), Some(31));
}

#[test]
fn going_back_and_forth_loses_nothing() {
    let mut w = BwosWorker::<u64>::with_blocks(4, 4);
    for i in 0..5 {
        assert!(w.put(i));
    }
    // Down into the first block, and up again.
    assert_eq!(w.pop(), Some(4));
    assert_eq!(w.pop(), Some(3));
    assert!(w.put(10));
    assert!(w.put(11));
    assert_eq!(w.pop(), Some(11));
    assert_eq!(w.pop(), Some(10));
    for i in (0..3).rev() {
        assert_eq!(w.pop(), Some(i));
    }
    assert_eq!(w.pop(), None);
}

#[test]
fn a_put_after_the_thieves_stays_in_reach() {
    // The thief has emptied both blocks: what is put now goes ahead of what was stolen, and the
    // queue refuses when no such slot is left.
    let mut w = BwosWorker::<u32>::with_blocks(2, 2);
    let s = w.stealer();
    for i in 1..=3 {
        assert!(w.put(i));
    }
    for i in 1..=3 {
        assert_eq!(s.steal(&mut w), Steal::Success(i));
    }
    assert_eq!(w.pop(), None);
    assert!(w.put(4));
    assert_eq!(s.steal(&mut w), Steal::Success(4));
    assert!(!w.put(5));
    assert_eq!(w.pop(), None);
    assert_eq!(s.steal(&mut w), Steal::Empty);
}

#[test]
fn every_accepted_value_comes_out_once() {
    // Puts, pops and steals in many mixes; what was accepted comes out, once.
    for mix in 0u32..2000 {
        let mut w = BwosWorker::<u32>::with_blocks(3, 2);
        let s = w.stealer();
        let mut held: Vec<u32> = Vec::new();
        let mut seed = mix.wrapping_mul(2_654_435_761).wrapping_add(12_345);
        for value in 0..40 {
            seed = seed.wrapping_mul(1_664_525).wrapping_add(1_013_904_223);
            match seed >> 30 {
                0 => {
                    assert_eq!(w.pop(), held.pop());
                }
                1 => {
                    let oldest = if held.is_empty() { None } else { Some(held.remove(0)) };
                    assert_eq!(s.steal(&mut w).success(), oldest);
                }
                _ => {
                    if w.put(value) {
                        held.push(value);
                    }
                }
            }
        }
        while let Some(value) = held.pop() {
            assert_eq!(w.pop(), Some(value));
        }
        assert_eq!(w.pop(), None);
    }
}

#[test]
fn a_thief_finds_what_is_put_later() {
    let mut w = UnboundedBwosWorker::<u64>::with_block_size(1);
    let mut s = w.stealer();
    assert!(w.put(1));
    assert!(w.put(2));
    assert_eq!(s.steal(&mut w), Steal::Success(1));
    assert_eq!(s.steal(&mut w), Steal::Success(2));
    assert_eq!(w.pop(), None);
    assert!(w.put(3));
    assert_eq!(s.steal(&mut w), Steal::Success(3));
    assert_eq!(s.steal(&mut w), Steal::Empty);
}

#[test]
fn an_unbounded_queue_never_buries_a_value() {
    let mut w = UnboundedBwosWorker::<u32>::with_block_size(2);
    let mut s = w.stealer();
    for i in 1..=3 {
        assert!(w.put(i));
    }
    for i in 1..=3 {
        assert_eq!(s.steal(&mut w), Steal::Success(i));
    }
    assert_eq!(w.pop(), None);
    assert!(w.put(4));
    assert_eq!(s.steal(&mut w), Steal::Success(4));
    let mut fresh = s.clone();
    assert!(w.put(5));
    assert!(w.put(6));
    assert_eq!(fresh.steal(&mut w), Steal::Success(5));
    assert_eq!(w.pop(), Some(6));
    assert_eq!(w.pop(), None);
}

#[test]
fn interleaved_steals_take_the_oldest_and_pops_the_newest_of_a_block() {
    for schedule in 0u32..1 << 14 {
        let mut b = Blocks::<u32>::bounded(2, 4);
        for i in 1..=4 {
            b.put(i);
        }
        let mut owner = BlockOwner::Popping;
        let mut thief = BlockThief::Stealing;
        let (mut popped, mut stolen) = (Vec::new(), Vec::new());
        for step in 0..14 {
            if schedule >> step & 1 == 0 {
                owner = b.owner_step(owner);
                if let BlockOwner::Popped(p) = owner {
                    popped.extend(p);
                    owner = BlockOwner::Popping;
                }
            } else {
                thief = b.thief_step(thief);
                if let BlockThief::Stole { got, .. } = thief {
                    stolen.extend(got.success());
                    thief = BlockThief::Stealing;
                }
            }
        }
        assert_eq!(popped, (1..=4).rev().take(popped.len()).collect::<Vec<_>>());
        assert_eq!(stolen, (1..=4).take(stolen.len()).collect::<Vec<_>>());
        assert!(popped.len() + stolen.len() <= 4);
    }
}

#[test]
fn a_claimed_block_item_is_a_retry_for_the_slower_thief() {
    let mut b = Blocks::<u32>::growable(4);
    assert!(b.put(7));
    assert_eq!(b.count(), 1);
    assert_eq!(b.size(), 4);
    let mut slow = BlockThief::At { block: 0, limit: 1 };
    for _ in 0..3 {
        slow = b.thief_step(slow);
    }
    assert_eq!(b.steal_from(0), (Steal::Success(7), 0));
    assert_eq!(b.thief_step(slow), BlockThief::Stole { block: 0, got: Steal::Retry });
}
