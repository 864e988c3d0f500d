# ws-deque

Work-stealing queues and schedulers, verified with Verus.

| Module | What it holds |
| --- | --- |
| `deque` (`Worker`, `Stealer`) | the exact-once Chase-Lev deque of boxed values, LIFO or FIFO for its owner |
| `inline` | the same deque for `Copy` values |
| `bwos`, `bwos::unbounded` | block-based queues, bounded and growing |
| `idempotent`, `linked` | queues with multiplicity over a growing array and over linked nodes |
| `jiffy` | a queue with many producers and one consumer |
| `priority` | strict priority levels over deques |
| `persistent` | a queue that survives a crash of its volatile memory |
| `race` | a determinacy race detector for series-parallel computations |
| `scheduler`, `distributed` | a lifeline scheduler and a message-passing runtime |

The memory that an owner and its thieves share is modelled one access at a time: `chase_lev`,
`blocks`, `idempotent`, `linked` and `jiffy` give every operation as a program of steps, and the
whole operations run those programs. What holds when the steps of many parties interleave in any
order is proved in

- `exact_once` and `blocks_once`: no item is lost or delivered twice;
- `multiplicity`: every task at least once, and at most once per consumer;
- `jiffy_fifo`: every value once, in the order of the claims;
- `scheduling` and `distribution`: every task runs once, nobody leaves early, no wake-up is lost.

Steps are atomic and take effect in one order; weaker memory orderings are outside the model.

`app/` puts the queues behind locks for use from many threads, and runs the two runtimes on
threads.
