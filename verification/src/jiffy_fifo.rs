//! First in, first out, exactly once, under every interleaving of producers and consumer.
//!
//! A [`QueueWorld`] is a queue in use by any number of producers and one consumer: its shared
//! memory, where each party stands, the values in the order in which their slots were claimed,
//! and the values delivered so far. [`fifo_exactly_once`] proves, of every schedule, that what
//! was delivered is what was claimed first, in that order. Steps are taken to be atomic and in
//! one order seen by all.

use vstd::prelude::*;

use crate::jiffy;
use crate::jiffy::{Dequeue, Enqueue, QueueMem, Slot, BUFFER_SIZE};

verus! {

/// A queue in use.
pub struct QueueWorld<T> {
    pub mem: QueueMem<T>,
    pub producers: Seq<Enqueue<T>>,
    pub consumer: Dequeue<T>,
    pub claimed: Seq<T>,
    pub delivered: Seq<T>,
}

/// What can happen next in a queue in use.
pub enum QueueEvent<T> {
    /// An idle producer starts to enqueue a value.
    BeginEnqueue { producer: int, value: T },
    /// A producer makes one step.
    Producer { producer: int },
    /// The idle consumer starts to dequeue.
    BeginDequeue,
    /// The consumer makes one step.
    Consumer,
}

/// The slot that a producer has claimed and not filled yet.
pub open spec fn holds<T>(s: Enqueue<T>) -> Option<usize> {
    match s {
        Enqueue::Claimed { value, idx } => Some(idx),
        Enqueue::AtTail { value, idx, buf } => Some(idx),
        Enqueue::Linking { value, idx, buf } => Some(idx),
        Enqueue::LinkCas { value, idx, buf } => Some(idx),
        Enqueue::Advancing { value, idx, buf, next } => Some(idx),
        Enqueue::FromHead { value, idx, buf } => Some(idx),
        Enqueue::Located { value, idx, buf } => Some(idx),
        _ => None,
    }
}

/// The value that a producer has not stored yet.
pub open spec fn carries<T>(s: Enqueue<T>) -> Option<T> {
    match s {
        Enqueue::Start { value } => Some(value),
        Enqueue::Claimed { value, idx } => Some(value),
        Enqueue::AtTail { value, idx, buf } => Some(value),
        Enqueue::Linking { value, idx, buf } => Some(value),
        Enqueue::LinkCas { value, idx, buf } => Some(value),
        Enqueue::Advancing { value, idx, buf, next } => Some(value),
        Enqueue::FromHead { value, idx, buf } => Some(value),
        Enqueue::Located { value, idx, buf } => Some(value),
        _ => None,
    }
}

impl<T> QueueWorld<T> {
    /// A new queue that nobody is using.
    pub open spec fn initial(self) -> bool {
        &&& self.mem.quiescent()
        &&& self.mem.tail == 0
        &&& forall|p: int|
            0 <= p < self.producers.len() ==> (#[trigger] self.producers[p]) is Done
        &&& self.consumer is Done
        &&& self.claimed.len() == 0
        &&& self.delivered.len() == 0
    }

    /// The machine has room for one more claim.
    pub open spec fn within_limits(self) -> bool {
        self.mem.tail < usize::MAX
    }

    /// Whether an event can happen.
    pub open spec fn enabled(self, e: QueueEvent<T>) -> bool {
        &&& self.within_limits()
        &&& match e {
            QueueEvent::BeginEnqueue { producer, value } => 0 <= producer < self.producers.len()
                && self.producers[producer] is Done,
            QueueEvent::Producer { producer } => 0 <= producer < self.producers.len(),
            QueueEvent::BeginDequeue => self.consumer is Done,
            QueueEvent::Consumer => true,
        }
    }

    /// The world after an event.
    pub open spec fn after(self, e: QueueEvent<T>) -> QueueWorld<T> {
        match e {
            QueueEvent::BeginEnqueue { producer, value } => QueueWorld {
                producers: self.producers.update(producer, Enqueue::Start { value }),
                ..self
            },
            QueueEvent::Producer { producer } => {
                let (mem, next) = jiffy::enqueue_next(self.mem, self.producers[producer]);
                QueueWorld {
                    mem,
                    producers: self.producers.update(producer, next),
                    claimed: match self.producers[producer] {
                        Enqueue::Start { value } => self.claimed.push(value),
                        _ => self.claimed,
                    },
                    ..self
                }
            },
            QueueEvent::BeginDequeue => QueueWorld { consumer: Dequeue::Start, ..self },
            QueueEvent::Consumer => {
                let (mem, next) = jiffy::dequeue_next(self.mem, self.consumer);
                QueueWorld {
                    mem,
                    consumer: next,
                    delivered: match (self.consumer, next) {
                        (Dequeue::Done(_), _) => self.delivered,
                        (_, Dequeue::Done(Some(value))) => self.delivered.push(value),
                        _ => self.delivered,
                    },
                    ..self
                }
            },
        }
    }

    /// The next step of every party is safe: no slot that does not exist is used, and no value is
    /// taken that is not there.
    pub open spec fn safe(self) -> bool {
        &&& jiffy::dequeue_ready(self.mem, self.consumer)
        &&& forall|p: int|
            0 <= p < self.producers.len() ==> jiffy::enqueue_ready(
                self.mem,
                #[trigger] self.producers[p],
            )
    }

    /// A slot holds the value of its claim, and is handled iff the head has passed it.
    pub open spec fn slot_inv(self, g: int) -> bool {
        match self.mem.slot(g) {
            Slot::Empty => g >= self.mem.head,
            Slot::Full(value) => self.mem.head <= g < self.mem.tail && value == self.claimed[g],
            Slot::Handled => g < self.mem.head,
        }
    }

    /// A claimed slot is filled, or its producer is on the way.
    pub open spec fn coming(self, g: int) -> bool {
        ||| self.mem.slot(g) is Full
        ||| exists|p: int|
            0 <= p < self.producers.len() && holds(#[trigger] self.producers[p]) == Some(g as usize)
    }

    /// What a producer knows: the slot that it has claimed is empty, and where it looks.
    pub open spec fn producer_inv(self, p: int) -> bool {
        let m = self.mem;
        let s = self.producers[p];
        &&& holds(s) matches Some(idx) ==> {
            &&& m.head <= idx < m.tail
            &&& m.slot(idx as int) is Empty
            &&& carries(s) == Some(self.claimed[idx as int])
        }
        &&& match s {
            Enqueue::AtTail { value, idx, buf } => buf < m.buffers.len(),
            Enqueue::Linking { value, idx, buf } => buf < m.buffers.len() && idx >= (buf + 1)
                * BUFFER_SIZE,
            Enqueue::LinkCas { value, idx, buf } => buf < m.buffers.len() && idx >= (buf + 1)
                * BUFFER_SIZE,
            Enqueue::Advancing { value, idx, buf, next } => next < m.buffers.len() && next == buf
                + 1 && idx >= next * BUFFER_SIZE,
            Enqueue::FromHead { value, idx, buf } => buf < m.buffers.len() && buf * BUFFER_SIZE
                <= idx < m.buffers.len() * BUFFER_SIZE,
            Enqueue::Located { value, idx, buf } => buf < m.buffers.len() && buf * BUFFER_SIZE
                <= idx < (buf + 1) * BUFFER_SIZE,
            Enqueue::Stored { idx, buf } => buf < m.buffers.len() && buf * BUFFER_SIZE <= idx < (buf
                + 1) * BUFFER_SIZE && idx < m.tail,
            Enqueue::EagerCas { buf } => buf < m.buffers.len() && (buf + 1) * BUFFER_SIZE <= m.tail
                + 1,
            _ => true,
        }
    }

    /// Two producers have claimed different slots.
    pub open spec fn apart(self, p: int, q: int) -> bool {
        p != q && holds(self.producers[p]) is Some ==> holds(self.producers[p]) != holds(
            self.producers[q],
        )
    }

    /// What the consumer knows.
    pub open spec fn consumer_inv(self) -> bool {
        let m = self.mem;
        match self.consumer {
            Dequeue::Look => m.head < m.tail,
            Dequeue::Move { next } => next < m.buffers.len() && next * BUFFER_SIZE <= m.head,
            Dequeue::Take => {
                &&& m.head < m.tail
                &&& m.head < (m.head_buf + 1) * BUFFER_SIZE
                &&& m.slot(m.head as int) is Full
            },
            _ => true,
        }
    }

    /// What was delivered is what was claimed first, in that order.
    pub open spec fn in_order(self) -> bool {
        self.delivered == self.claimed.take(self.mem.head as int)
    }

    /// The invariant that every event keeps.
    pub open spec fn inv(self) -> bool {
        let m = self.mem;
        let n = self.producers.len();
        &&& m.shaped()
        &&& m.tail_buf * BUFFER_SIZE <= m.tail
        &&& self.claimed.len() == m.tail
        &&& self.in_order()
        &&& self.consumer_inv()
        &&& forall|g: int| 0 <= g ==> #[trigger] self.slot_inv(g)
        &&& forall|g: int| m.head <= g < m.tail ==> #[trigger] self.coming(g)
        &&& forall|p: int| 0 <= p < n ==> #[trigger] self.producer_inv(p)
        &&& forall|p: int, q: int| 0 <= p < n && 0 <= q < n ==> #[trigger] self.apart(p, q)
    }
}

/// Whether every event of a schedule can happen when its turn comes.
pub open spec fn possible<T>(w: QueueWorld<T>, schedule: Seq<QueueEvent<T>>) -> bool
    decreases schedule.len(),
{
    if schedule.len() == 0 {
        true
    } else {
        &&& possible(w, schedule.drop_last())
        &&& outcome(w, schedule.drop_last()).enabled(schedule.last())
    }
}

/// The world after a schedule.
pub open spec fn outcome<T>(w: QueueWorld<T>, schedule: Seq<QueueEvent<T>>) -> QueueWorld<T>
    decreases schedule.len(),
{
    if schedule.len() == 0 {
        w
    } else {
        outcome(w, schedule.drop_last()).after(schedule.last())
    }
}

proof fn lemma_safe<T>(w: QueueWorld<T>)
    requires
        w.inv(),
        w.within_limits(),
    ensures
        w.safe(),
{
    let m = w.mem;
    jiffy::lemma_buffer_count(m);
    assert(m.placed(m.head_buf as int));
    assert forall|p: int| 0 <= p < w.producers.len() implies jiffy::enqueue_ready(
        m,
        #[trigger] w.producers[p],
    ) by {
        assert(w.producer_inv(p));
        match w.producers[p] {
            Enqueue::AtTail { value, idx, buf } => {
                assert(m.placed(buf as int));
            },
            Enqueue::Linking { value, idx, buf } => {
                assert(m.placed(buf as int));
            },
            Enqueue::LinkCas { value, idx, buf } => {
                assert(m.placed(buf as int));
            },
            Enqueue::FromHead { value, idx, buf } => {
                assert(m.placed(buf as int));
            },
            Enqueue::Located { value, idx, buf } => {
                assert(m.placed(buf as int));
            },
            Enqueue::Stored { idx, buf } => {
                assert(m.placed(buf as int));
            },
            Enqueue::EagerCas { buf } => {
                assert(m.placed(buf as int));
            },
            _ => {},
        }
    }
}

/// A step of a producer that fills no slot and claims none keeps the invariant.
proof fn lemma_producer_moves<T>(w: QueueWorld<T>, n: QueueWorld<T>, p: int)
    requires
        w.inv(),
        0 <= p < w.producers.len(),
        n.producers == w.producers.update(p, n.producers[p]),
        n.consumer == w.consumer,
        n.claimed == w.claimed,
        n.delivered == w.delivered,
        holds(n.producers[p]) == holds(w.producers[p]),
        n.producer_inv(p),
        n.mem.shaped(),
        n.mem.tail == w.mem.tail,
        n.mem.head == w.mem.head,
        n.mem.head_buf == w.mem.head_buf,
        n.mem.tail_buf * BUFFER_SIZE <= n.mem.tail,
        w.mem.buffers.len() <= n.mem.buffers.len(),
        forall|g: int| 0 <= g ==> #[trigger] n.mem.slot(g) == w.mem.slot(g),
    ensures
        n.inv(),
{
    let m = w.mem;
    assert forall|g: int| 0 <= g implies #[trigger] n.slot_inv(g) by {
        assert(w.slot_inv(g));
    }
    assert forall|g: int| m.head <= g < m.tail implies #[trigger] n.coming(g) by {
        assert(w.coming(g));
        if !(m.slot(g) is Full) {
            let q = choose|q: int|
                0 <= q < w.producers.len() && holds(#[trigger] w.producers[q]) == Some(g as usize);
            assert(holds(n.producers[q]) == Some(g as usize));
        }
    }
    assert forall|q: int| 0 <= q < n.producers.len() implies #[trigger] n.producer_inv(q) by {
        assert(w.producer_inv(q));
    }
    assert forall|q: int, r: int|
        0 <= q < n.producers.len() && 0 <= r < n.producers.len() implies #[trigger] n.apart(q, r) by {
        assert(w.apart(q, r));
    }
    match w.consumer {
        Dequeue::Take => {
            assert(n.mem.slot(m.head as int) == m.slot(m.head as int));
        },
        _ => {},
    }
}

proof fn lemma_producer<T>(w: QueueWorld<T>, p: int)
    requires
        w.inv(),
        w.enabled(QueueEvent::Producer { producer: p }),
    ensures
        w.after(QueueEvent::Producer { producer: p }).inv(),
{
    let n = w.after(QueueEvent::Producer { producer: p });
    let m = w.mem;
    let s = w.producers[p];
    let next = jiffy::enqueue_next(m, s).1;
    lemma_safe(w);
    assert(w.producer_inv(p));
    assert(jiffy::enqueue_ready(m, s));
    match s {
        Enqueue::Start { value } => {
            let idx = m.tail as int;
            assert forall|g: int| 0 <= g implies #[trigger] n.mem.slot(g) == m.slot(g) by {}
            assert(n.mem.shaped()) by {
                assert forall|i: int| 0 <= i < m.buffers.len() implies #[trigger] n.mem.placed(
                    i,
                ) by {
                    assert(m.placed(i));
                }
            }
            assert(w.slot_inv(idx));
            assert forall|g: int| 0 <= g implies #[trigger] n.slot_inv(g) by {
                assert(w.slot_inv(g));
            }
            assert forall|g: int| m.head <= g < n.mem.tail implies #[trigger] n.coming(g) by {
                if g == idx {
                    assert(holds(n.producers[p]) == Some(g as usize));
                } else {
                    assert(w.coming(g));
                    if !(m.slot(g) is Full) {
                        let q = choose|q: int|
                            0 <= q < w.producers.len() && holds(#[trigger] w.producers[q]) == Some(
                                g as usize,
                            );
                        assert(holds(n.producers[q]) == Some(g as usize));
                    }
                }
            }
            assert forall|q: int| 0 <= q < n.producers.len() implies #[trigger] n.producer_inv(
                q,
            ) by {
                assert(w.producer_inv(q));
            }
            assert forall|q: int, r: int|
                0 <= q < n.producers.len() && 0 <= r < n.producers.len() implies #[trigger] n.apart(
                q,
                r,
            ) by {
                assert(w.apart(q, r));
                assert(w.producer_inv(q) && w.producer_inv(r));
            }
            assert(n.delivered =~= n.claimed.take(m.head as int));
            match w.consumer {
                Dequeue::Take => {
                    assert(n.mem.slot(m.head as int) == m.slot(m.head as int));
                },
                _ => {},
            }
        },
        Enqueue::Located { value, idx, buf } => {
            let at = idx as int;
            let offset = idx - buf * BUFFER_SIZE;
            assert(m.placed(buf as int));
            assert forall|g: int| 0 <= g implies #[trigger] n.mem.slot(g) == if g == at {
                Slot::Full(value)
            } else {
                m.slot(g)
            } by {
                jiffy::lemma_with_slot(m, buf as int, offset, Slot::Full(value), g);
            }
            assert(n.mem.shaped()) by {
                assert forall|i: int| 0 <= i < m.buffers.len() implies #[trigger] n.mem.placed(
                    i,
                ) by {
                    assert(m.placed(i));
                }
            }
            assert forall|g: int| 0 <= g implies #[trigger] n.slot_inv(g) by {
                assert(w.slot_inv(g));
            }
            assert forall|g: int| m.head <= g < m.tail implies #[trigger] n.coming(g) by {
                assert(w.coming(g));
                if g != at && !(m.slot(g) is Full) {
                    let q = choose|q: int|
                        0 <= q < w.producers.len() && holds(#[trigger] w.producers[q]) == Some(
                            g as usize,
                        );
                    assert(holds(n.producers[q]) == Some(g as usize));
                }
            }
            assert forall|q: int| 0 <= q < n.producers.len() implies #[trigger] n.producer_inv(
                q,
            ) by {
                assert(w.producer_inv(q));
                assert(w.apart(p, q));
            }
            assert forall|q: int, r: int|
                0 <= q < n.producers.len() && 0 <= r < n.producers.len() implies #[trigger] n.apart(
                q,
                r,
            ) by {
                assert(w.apart(q, r));
            }
            match w.consumer {
                Dequeue::Take => {
                    assert(n.mem.slot(m.head as int) == m.slot(m.head as int));
                },
                _ => {},
            }
        },
        Enqueue::LinkCas { value, idx, buf } => {
            assert(m.placed(buf as int));
            assert forall|g: int| 0 <= g implies #[trigger] n.mem.slot(g) == m.slot(g) by {
                jiffy::lemma_linked(m, buf as int, g);
            }
            lemma_linked_shape(m, buf as int);
            lemma_producer_moves(w, n, p);
        },
        Enqueue::EagerCas { buf } => {
            assert(m.placed(buf as int));
            assert forall|g: int| 0 <= g implies #[trigger] n.mem.slot(g) == m.slot(g) by {
                jiffy::lemma_linked(m, buf as int, g);
            }
            lemma_linked_shape(m, buf as int);
            lemma_producer_moves(w, n, p);
        },
        Enqueue::Advancing { value, idx, buf, next: to } => {
            assert(n.mem.shaped()) by {
                assert forall|i: int| 0 <= i < m.buffers.len() implies #[trigger] n.mem.placed(
                    i,
                ) by {
                    assert(m.placed(i));
                }
            }
            assert forall|g: int| 0 <= g implies #[trigger] n.mem.slot(g) == m.slot(g) by {}
            lemma_producer_moves(w, n, p);
        },
        Enqueue::AtTail { value, idx, buf } => {
            assert(m.placed(buf as int));
            lemma_producer_moves(w, n, p);
        },
        Enqueue::Linking { value, idx, buf } => {
            assert(m.placed(buf as int));
            lemma_producer_moves(w, n, p);
        },
        Enqueue::FromHead { value, idx, buf } => {
            assert(m.placed(buf as int));
            lemma_producer_moves(w, n, p);
        },
        Enqueue::Stored { idx, buf } => {
            assert(m.placed(buf as int));
            lemma_producer_moves(w, n, p);
        },
        _ => {
            lemma_producer_moves(w, n, p);
        },
    }
}

proof fn lemma_linked_shape<T>(m: QueueMem<T>, buf: int)
    requires
        m.shaped(),
        0 <= buf < m.buffers.len() < usize::MAX,
        m.buffers[buf].base + BUFFER_SIZE <= usize::MAX,
    ensures
        m.linked(buf).shaped(),
{
    let r = m.linked(buf);
    assert(m.placed(buf));
    assert forall|i: int| 0 <= i < r.buffers.len() implies #[trigger] r.placed(i) by {
        if i < m.buffers.len() {
            assert(m.placed(i));
        }
    }
}

/// A step of the consumer that takes nothing keeps the invariant.
proof fn lemma_consumer_moves<T>(w: QueueWorld<T>, n: QueueWorld<T>)
    requires
        w.inv(),
        n.producers == w.producers,
        n.claimed == w.claimed,
        n.delivered == w.delivered,
        n.mem == (QueueMem { head_buf: n.mem.head_buf, ..w.mem }),
        n.mem.head_buf < n.mem.buffers.len(),
        n.mem.head_buf * BUFFER_SIZE <= n.mem.head,
        n.consumer_inv(),
    ensures
        n.inv(),
{
    let m = w.mem;
    assert forall|i: int| 0 <= i < m.buffers.len() implies #[trigger] n.mem.placed(i) by {
        assert(m.placed(i));
    }
    assert forall|g: int| 0 <= g implies #[trigger] n.mem.slot(g) == m.slot(g) by {}
    assert forall|g: int| 0 <= g implies #[trigger] n.slot_inv(g) by {
        assert(w.slot_inv(g));
    }
    assert forall|g: int| m.head <= g < m.tail implies #[trigger] n.coming(g) by {
        assert(w.coming(g));
    }
    assert forall|q: int| 0 <= q < n.producers.len() implies #[trigger] n.producer_inv(q) by {
        assert(w.producer_inv(q));
    }
    assert forall|q: int, r: int|
        0 <= q < n.producers.len() && 0 <= r < n.producers.len() implies #[trigger] n.apart(q, r) by {
        assert(w.apart(q, r));
    }
}

proof fn lemma_consumer<T>(w: QueueWorld<T>)
    requires
        w.inv(),
        w.enabled(QueueEvent::Consumer),
    ensures
        w.after(QueueEvent::Consumer).inv(),
{
    let n = w.after(QueueEvent::Consumer);
    let m = w.mem;
    let buf = m.head_buf as int;
    let at = m.head as int;
    lemma_safe(w);
    assert(m.placed(buf));
    assert(w.slot_inv(at));
    match w.consumer {
        Dequeue::Take => {
            let offset = m.head - buf * BUFFER_SIZE;
            let value = m.slot(at)->Full_0;
            assert(m.slot(at) == m.buffers[buf].slots[offset]);
            assert forall|g: int| 0 <= g implies #[trigger] n.mem.slot(g) == if g == at {
                Slot::Handled
            } else {
                m.slot(g)
            } by {
                jiffy::lemma_with_slot(m, buf, offset, Slot::Handled, g);
            }
            assert(n.mem.shaped()) by {
                assert forall|i: int| 0 <= i < m.buffers.len() implies #[trigger] n.mem.placed(
                    i,
                ) by {
                    assert(m.placed(i));
                }
            }
            assert forall|g: int| 0 <= g implies #[trigger] n.slot_inv(g) by {
                assert(w.slot_inv(g));
            }
            assert forall|g: int| n.mem.head <= g < m.tail implies #[trigger] n.coming(g) by {
                assert(w.coming(g));
            }
            assert forall|q: int| 0 <= q < n.producers.len() implies #[trigger] n.producer_inv(
                q,
            ) by {
                assert(w.producer_inv(q));
            }
            assert forall|q: int, r: int|
                0 <= q < n.producers.len() && 0 <= r < n.producers.len() implies #[trigger] n.apart(
                q,
                r,
            ) by {
                assert(w.apart(q, r));
            }
            assert(n.delivered =~= n.claimed.take(at + 1));
        },
        Dequeue::Look => {
            if m.head - m.buffers[buf].base < BUFFER_SIZE {
                assert(m.slot(at) == m.buffers[buf].slots[m.head - m.buffers[buf].base]);
            }
            lemma_consumer_moves(w, n);
        },
        _ => {
            lemma_consumer_moves(w, n);
        },
    }
}

proof fn lemma_event<T>(w: QueueWorld<T>, e: QueueEvent<T>)
    requires
        w.inv(),
        w.enabled(e),
    ensures
        w.after(e).inv(),
{
    let n = w.after(e);
    match e {
        QueueEvent::Producer { producer } => {
            lemma_producer(w, producer);
        },
        QueueEvent::Consumer => {
            lemma_consumer(w);
        },
        QueueEvent::BeginDequeue => {
            lemma_consumer_moves(w, n);
        },
        QueueEvent::BeginEnqueue { producer, value } => {
            lemma_producer_moves(w, n, producer);
        },
    }
}

proof fn lemma_schedule<T>(start: QueueWorld<T>, schedule: Seq<QueueEvent<T>>)
    requires
        start.initial(),
        possible(start, schedule),
    ensures
        outcome(start, schedule).inv(),
    decreases schedule.len(),
{
    if schedule.len() == 0 {
        assert(start.delivered =~= start.claimed.take(start.mem.head as int));
        assert forall|p: int| 0 <= p < start.producers.len() implies #[trigger] start.producer_inv(
            p,
        ) by {
            assert(start.producers[p] is Done);
        }
        assert forall|p: int, q: int|
            0 <= p < start.producers.len() && 0 <= q
                < start.producers.len() implies #[trigger] start.apart(p, q) by {
            assert(start.producers[p] is Done);
        }
        assert forall|g: int| 0 <= g implies #[trigger] start.slot_inv(g) by {
            assert(start.mem.slot(g) is Empty);
        }
    } else {
        lemma_schedule(start, schedule.drop_last());
        lemma_event(outcome(start, schedule.drop_last()), schedule.last());
    }
}

/// First in, first out, exactly once: under every interleaving of any number of producers with
/// the consumer, the values delivered are those whose slots were claimed first, in the order of
/// the claims, each once; no party ever uses a slot that does not exist or takes a value that is
/// not there. When nobody is in an operation, what was enqueued is what was delivered, followed
/// by what is in the queue.
pub proof fn fifo_exactly_once<T>(start: QueueWorld<T>, schedule: Seq<QueueEvent<T>>)
    requires
        start.initial(),
        possible(start, schedule),
    ensures
        ({
            let w = outcome(start, schedule);
            &&& w.delivered.len() <= w.claimed.len()
            &&& w.delivered == w.claimed.take(w.delivered.len() as int)
            &&& w.within_limits() ==> w.safe()
            &&& (forall|p: int|
                0 <= p < w.producers.len() ==> (#[trigger] w.producers[p]) is Done) ==> {
                &&& w.mem.quiescent()
                &&& w.claimed == w.delivered + w.mem.contents()
            }
        }),
{
    let w = outcome(start, schedule);
    let m = w.mem;
    lemma_schedule(start, schedule);
    if w.within_limits() {
        lemma_safe(w);
    }
    if forall|p: int| 0 <= p < w.producers.len() ==> (#[trigger] w.producers[p]) is Done {
        assert forall|g: int| m.head <= g < m.tail implies (#[trigger] m.slot(g)) is Full by {
            assert(w.coming(g));
        }
        assert forall|g: int| m.tail <= g implies (#[trigger] m.slot(g)) is Empty by {
            assert(w.slot_inv(g));
        }
        assert forall|k: int| 0 <= k < m.contents().len() implies #[trigger] m.contents()[k]
            == w.claimed[m.head + k] by {
            assert(w.slot_inv(m.head + k));
            assert(m.slot(m.head + k) is Full);
        }
        assert(w.claimed =~= w.delivered + m.contents());
    }
}

} // verus!
