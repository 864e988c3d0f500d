//! A multi-producer, single-consumer FIFO queue built from a linked list of fixed-size buffers.
//!
//! An enqueue claims a slot by one fetch-and-add on the shared tail, finds the buffer of the slot,
//! stores the value and marks the slot as set. The next buffer is linked just before the current
//! one is full. The single consumer reads the slots in order and marks what it has consumed as
//! handled. Buffers are kept as long as the queue.
//!
//! [`Queue`] is the memory that the parties share; [`Queue::enqueue_step`] and
//! [`Queue::dequeue_step`] make one access at a time, and [`crate::jiffy_fifo`] proves what holds
//! when the steps of many producers and of the consumer interleave.

use vstd::prelude::*;

verus! {

/// Slots per buffer.
pub const BUFFER_SIZE: usize = 1024;

/// A slot of a buffer.
pub enum Slot<T> {
    /// Not yet written by a producer.
    Empty,
    /// Written, available to the consumer.
    Full(T),
    /// Already consumed.
    Handled,
}

/// Where a producer stands in an enqueue.
pub enum Enqueue<T> {
    /// About to claim a slot.
    Start { value: T },
    /// Has claimed slot `idx`; about to load the tail buffer.
    Claimed { value: T, idx: usize },
    /// Has loaded the tail buffer; about to compare its range with the slot.
    AtTail { value: T, idx: usize, buf: usize },
    /// The slot is beyond the buffer; about to load the link to the next one.
    Linking { value: T, idx: usize, buf: usize },
    /// There was no next buffer; about to link a fresh one.
    LinkCas { value: T, idx: usize, buf: usize },
    /// There is a next buffer; about to advance the tail buffer to it.
    Advancing { value: T, idx: usize, buf: usize, next: usize },
    /// The tail buffer has advanced past the slot; walks from the head buffer and has got to
    /// `buf`.
    FromHead { value: T, idx: usize, buf: usize },
    /// Has found the buffer of the slot; about to store the value.
    Located { value: T, idx: usize, buf: usize },
    /// The value is stored; about to look whether the next buffer is to be linked early.
    Stored { idx: usize, buf: usize },
    /// The next buffer is to be linked early, and there was none.
    EagerCas { buf: usize },
    /// The enqueue is complete.
    Done,
}

/// Where the consumer stands in a dequeue.
pub enum Dequeue<T> {
    /// About to load the tail.
    Start,
    /// Has seen a claimed slot; about to look at it, or past the end of the head buffer.
    Look,
    /// There is a next buffer; about to move to it.
    Move { next: usize },
    /// The slot is set; about to take its value.
    Take,
    /// The dequeue is complete.
    Done(Option<T>),
}

/// A buffer as a mathematical value.
#[verifier::ext_equal]
pub struct BufferState<T> {
    pub slots: Seq<Slot<T>>,
    pub next: Option<usize>,
    pub base: usize,
}

/// The shared memory of a queue as a mathematical value.
#[verifier::ext_equal]
pub struct QueueMem<T> {
    pub buffers: Seq<BufferState<T>>,
    pub tail: usize,
    pub tail_buf: usize,
    pub head_buf: usize,
    pub head: usize,
}

/// A buffer that was never used.
pub open spec fn fresh_buffer<T>(base: int) -> BufferState<T> {
    BufferState {
        slots: Seq::new(BUFFER_SIZE as nat, |i: int| Slot::Empty),
        next: None,
        base: base as usize,
    }
}

impl<T> QueueMem<T> {
    /// The slot of global index `g`; a slot whose buffer is not linked yet is empty.
    pub open spec fn slot(self, g: int) -> Slot<T> {
        if 0 <= g / BUFFER_SIZE as int && g / (BUFFER_SIZE as int) < self.buffers.len() {
            self.buffers[g / BUFFER_SIZE as int].slots[g % BUFFER_SIZE as int]
        } else {
            Slot::Empty
        }
    }

    /// Buffer `i` is in its place in the list.
    pub open spec fn placed(self, i: int) -> bool {
        let b = self.buffers[i];
        &&& b.base == i * BUFFER_SIZE
        &&& b.slots.len() == BUFFER_SIZE
        &&& b.next == if i + 1 < self.buffers.len() {
            Some((i + 1) as usize)
        } else {
            None
        }
    }

    /// The buffers form a list, and every index leads into it.
    pub open spec fn shaped(self) -> bool {
        &&& 1 <= self.buffers.len() <= usize::MAX
        &&& forall|i: int| 0 <= i < self.buffers.len() ==> #[trigger] self.placed(i)
        &&& self.tail_buf < self.buffers.len()
        &&& self.head_buf < self.buffers.len()
        &&& self.head_buf * BUFFER_SIZE <= self.head <= self.tail
    }

    /// The memory with slot `offset` of buffer `buf` replaced.
    pub open spec fn with_slot(self, buf: int, offset: int, slot: Slot<T>) -> QueueMem<T> {
        QueueMem {
            buffers: self.buffers.update(
                buf,
                BufferState {
                    slots: self.buffers[buf].slots.update(offset, slot),
                    ..self.buffers[buf]
                },
            ),
            ..self
        }
    }

    /// The memory after an attempt to link a fresh buffer behind buffer `buf`.
    pub open spec fn linked(self, buf: int) -> QueueMem<T> {
        if self.buffers[buf].next is None {
            QueueMem {
                buffers: self.buffers.update(
                    buf,
                    BufferState {
                        next: Some(self.buffers.len() as usize),
                        ..self.buffers[buf]
                    },
                ).push(fresh_buffer(self.buffers[buf].base + BUFFER_SIZE)),
                ..self
            }
        } else {
            self
        }
    }

    /// The state between operations: every claimed slot that is not consumed yet is set.
    pub open spec fn quiescent(self) -> bool {
        &&& self.shaped()
        &&& self.tail_buf * BUFFER_SIZE <= self.tail
        &&& forall|g: int| self.head <= g < self.tail ==> (#[trigger] self.slot(g)) is Full
        &&& forall|g: int| self.tail <= g ==> (#[trigger] self.slot(g)) is Empty
    }

    /// The values in the queue between operations, the oldest first.
    pub open spec fn contents(self) -> Seq<T> {
        Seq::new((self.tail - self.head) as nat, |k: int| self.slot(self.head + k)->Full_0)
    }
}

/// The next state of the memory and of a producer after one step of the producer.
pub open spec fn enqueue_next<T>(m: QueueMem<T>, s: Enqueue<T>) -> (QueueMem<T>, Enqueue<T>) {
    match s {
        Enqueue::Start { value } => (
            QueueMem { tail: (m.tail + 1) as usize, ..m },
            Enqueue::Claimed { value, idx: m.tail },
        ),
        Enqueue::Claimed { value, idx } => (m, Enqueue::AtTail { value, idx, buf: m.tail_buf }),
        Enqueue::AtTail { value, idx, buf } => (
            m,
            if idx < m.buffers[buf as int].base {
                Enqueue::FromHead { value, idx, buf: m.head_buf }
            } else if idx - m.buffers[buf as int].base < BUFFER_SIZE {
                Enqueue::Located { value, idx, buf }
            } else {
                Enqueue::Linking { value, idx, buf }
            },
        ),
        Enqueue::Linking { value, idx, buf } => (
            m,
            match m.buffers[buf as int].next {
                Some(next) => Enqueue::Advancing { value, idx, buf, next },
                None => Enqueue::LinkCas { value, idx, buf },
            },
        ),
        Enqueue::LinkCas { value, idx, buf } => (
            m.linked(buf as int),
            Enqueue::Linking { value, idx, buf },
        ),
        Enqueue::Advancing { value, idx, buf, next } => (
            if m.tail_buf == buf {
                QueueMem { tail_buf: next, ..m }
            } else {
                m
            },
            Enqueue::Claimed { value, idx },
        ),
        Enqueue::FromHead { value, idx, buf } => (
            m,
            if idx - m.buffers[buf as int].base < BUFFER_SIZE {
                Enqueue::Located { value, idx, buf }
            } else {
                Enqueue::FromHead { value, idx, buf: m.buffers[buf as int].next.unwrap() }
            },
        ),
        Enqueue::Located { value, idx, buf } => (
            m.with_slot(buf as int, idx - m.buffers[buf as int].base, Slot::Full(value)),
            Enqueue::Stored { idx, buf },
        ),
        Enqueue::Stored { idx, buf } => (
            m,
            if idx - m.buffers[buf as int].base + 2 == BUFFER_SIZE && m.buffers[buf as int].next is None {
                Enqueue::EagerCas { buf }
            } else {
                Enqueue::Done
            },
        ),
        Enqueue::EagerCas { buf } => (m.linked(buf as int), Enqueue::Done),
        Enqueue::Done => (m, Enqueue::Done),
    }
}

/// The next step of a producer uses a buffer that exists, and the slot that it has claimed.
pub open spec fn enqueue_ready<T>(m: QueueMem<T>, s: Enqueue<T>) -> bool {
    match s {
        Enqueue::Start { value } => m.tail < usize::MAX,
        Enqueue::Claimed { value, idx } => true,
        Enqueue::AtTail { value, idx, buf } => buf < m.buffers.len() && (idx
            < m.buffers[buf as int].base ==> m.head_buf * BUFFER_SIZE <= idx),
        Enqueue::Linking { value, idx, buf } => buf < m.buffers.len() && idx
            >= m.buffers[buf as int].base + BUFFER_SIZE,
        Enqueue::LinkCas { value, idx, buf } => buf < m.buffers.len() && idx
            >= m.buffers[buf as int].base + BUFFER_SIZE && m.buffers.len() < usize::MAX,
        Enqueue::Advancing { value, idx, buf, next } => next < m.buffers.len(),
        Enqueue::FromHead { value, idx, buf } => {
            &&& buf < m.buffers.len()
            &&& m.buffers[buf as int].base <= idx
            &&& idx - m.buffers[buf as int].base >= BUFFER_SIZE ==> buf + 1 < m.buffers.len()
        },
        Enqueue::Located { value, idx, buf } => {
            &&& buf < m.buffers.len()
            &&& m.buffers[buf as int].base <= idx
            &&& idx - m.buffers[buf as int].base < BUFFER_SIZE
        },
        Enqueue::Stored { idx, buf } => {
            &&& buf < m.buffers.len()
            &&& m.buffers[buf as int].base <= idx
            &&& idx - m.buffers[buf as int].base < BUFFER_SIZE
        },
        Enqueue::EagerCas { buf } => {
            &&& buf < m.buffers.len() < usize::MAX
            &&& m.buffers[buf as int].base + BUFFER_SIZE <= usize::MAX
        },
        Enqueue::Done => true,
    }
}

/// The next state of the memory and of the consumer after one step of the consumer.
pub open spec fn dequeue_next<T>(m: QueueMem<T>, s: Dequeue<T>) -> (QueueMem<T>, Dequeue<T>) {
    let b = m.buffers[m.head_buf as int];
    let offset = m.head - b.base;
    match s {
        Dequeue::Start => (
            m,
            if m.head >= m.tail {
                Dequeue::Done(None)
            } else {
                Dequeue::Look
            },
        ),
        Dequeue::Look => if offset >= BUFFER_SIZE {
            (
                m,
                match b.next {
                    Some(next) => Dequeue::Move { next },
                    None => Dequeue::Done(None),
                },
            )
        } else {
            match b.slots[offset] {
                Slot::Empty => (m, Dequeue::Done(None)),
                Slot::Handled => (QueueMem { head: (m.head + 1) as usize, ..m }, Dequeue::Start),
                Slot::Full(value) => (m, Dequeue::Take),
            }
        },
        Dequeue::Move { next } => (QueueMem { head_buf: next, ..m }, Dequeue::Start),
        Dequeue::Take => (
            QueueMem {
                head: (m.head + 1) as usize,
                ..m.with_slot(m.head_buf as int, offset, Slot::Handled)
            },
            Dequeue::Done(Some(b.slots[offset]->Full_0)),
        ),
        Dequeue::Done(item) => (m, s),
    }
}

/// The next step of the consumer uses a buffer that exists, and takes a value that is there.
pub open spec fn dequeue_ready<T>(m: QueueMem<T>, s: Dequeue<T>) -> bool {
    match s {
        Dequeue::Look => m.head < m.tail,
        Dequeue::Move { next } => next < m.buffers.len() && next * BUFFER_SIZE <= m.head,
        Dequeue::Take => {
            let b = m.buffers[m.head_buf as int];
            &&& m.head < m.tail
            &&& m.head - b.base < BUFFER_SIZE
            &&& b.slots[m.head - b.base] is Full
        },
        _ => true,
    }
}

/// The consumer answers what it sees: it finds nothing only when no slot is claimed past its head,
/// when the slot at its head is not set yet, or when the buffer of that slot is not linked yet. It
/// takes the value of a set slot, once, and passes a slot that it has handled.
pub proof fn the_consumer_answers_what_it_sees<T>(m: QueueMem<T>, s: Dequeue<T>)
    ensures
        ({
            let (n, t) = dequeue_next(m, s);
            let b = m.buffers[m.head_buf as int];
            let seen = b.slots[m.head - b.base];
            let inside = m.head < b.base + BUFFER_SIZE;
            &&& n.tail == m.tail && n.tail_buf == m.tail_buf
            &&& match s {
                Dequeue::Start => n == m && (t is Look <==> m.head < m.tail) && (t == Dequeue::<
                    T,
                >::Done(None) <==> m.head >= m.tail),
                Dequeue::Look => {
                    &&& !inside && b.next is None ==> n == m && t == Dequeue::<T>::Done(None)
                    &&& !inside && b.next is Some ==> n == m && t == (Dequeue::<T>::Move {
                        next: b.next.unwrap(),
                    })
                    &&& inside && seen is Empty ==> n == m && t == Dequeue::<T>::Done(None)
                    &&& inside && seen is Full ==> n == m && t is Take
                    &&& inside && seen is Handled ==> t is Start && n.head == (m.head + 1) as usize
                        && n.buffers == m.buffers && n.head_buf == m.head_buf
                },
                Dequeue::Move { next } => t is Start && n.head_buf == next && n.head == m.head
                    && n.buffers == m.buffers,
                Dequeue::Take => {
                    &&& t == Dequeue::Done(Some(seen->Full_0))
                    &&& n.head == (m.head + 1) as usize && n.head_buf == m.head_buf
                    &&& m.shaped() && inside ==> n.buffers[m.head_buf as int].slots[m.head
                        - b.base] is Handled
                },
                Dequeue::Done(_) => n == m && t == s,
            }
        }),
{
    if m.shaped() {
        assert(m.placed(m.head_buf as int));
    }
}

/// A producer stores its value into the slot that it has claimed, and into no other: it claims the
/// first slot that nobody has, goes on from buffer to buffer until it has found the one of its
/// slot, and links one where the list ends. The buffer behind is linked by the producer of the last
/// slot but one, if nobody else has.
pub proof fn a_producer_fills_its_slot<T>(m: QueueMem<T>, s: Enqueue<T>)
    requires
        m.shaped(),
        enqueue_ready(m, s),
    ensures
        ({
            let (n, t) = enqueue_next(m, s);
            &&& n.head == m.head && n.head_buf == m.head_buf
            &&& match s {
                Enqueue::Start { value } => n.tail == m.tail + 1 && n.buffers == m.buffers && t == (
                Enqueue::Claimed { value, idx: m.tail }),
                Enqueue::Claimed { value, idx } => n == m && t == (Enqueue::AtTail {
                    value,
                    idx,
                    buf: m.tail_buf,
                }),
                Enqueue::AtTail { value, idx, buf } => {
                    let own = idx as int / BUFFER_SIZE as int;
                    &&& n == m
                    &&& own == buf ==> t == (Enqueue::Located { value, idx, buf })
                    &&& own > buf ==> t == (Enqueue::Linking { value, idx, buf })
                    &&& own < buf ==> t == (Enqueue::FromHead { value, idx, buf: m.head_buf })
                },
                Enqueue::Linking { value, idx, buf } => {
                    &&& n == m
                    &&& buf + 1 < m.buffers.len() ==> t == (Enqueue::Advancing {
                        value,
                        idx,
                        buf,
                        next: (buf + 1) as usize,
                    })
                    &&& buf + 1 == m.buffers.len() ==> t == (Enqueue::LinkCas { value, idx, buf })
                },
                Enqueue::LinkCas { value, idx, buf } => t == (Enqueue::Linking { value, idx, buf })
                    && n.buffers.len() == m.buffers.len() + if buf + 1 == m.buffers.len() {
                    1int
                } else {
                    0
                } && n.tail == m.tail,
                Enqueue::Advancing { value, idx, buf, next } => t == (Enqueue::Claimed {
                    value,
                    idx,
                }) && n.buffers == m.buffers && n.tail == m.tail && (m.tail_buf == buf ==> n.tail_buf
                    == next),
                Enqueue::FromHead { value, idx, buf } => {
                    let own = idx as int / BUFFER_SIZE as int;
                    &&& n == m
                    &&& own == buf ==> t == (Enqueue::Located { value, idx, buf })
                    &&& own > buf ==> t == (Enqueue::FromHead {
                        value,
                        idx,
                        buf: (buf + 1) as usize,
                    })
                },
                Enqueue::Located { value, idx, buf } => {
                    &&& t == (Enqueue::<T>::Stored { idx, buf }) && n.tail == m.tail
                    &&& n.slot(idx as int) == Slot::Full(value)
                    &&& forall|g: int|
                        0 <= g && g != idx ==> #[trigger] n.slot(g) == m.slot(g)
                },
                Enqueue::Stored { idx, buf } => {
                    &&& n == m
                    &&& t is EagerCas <==> (idx + 2) % BUFFER_SIZE as int == 0 && buf + 1
                        == m.buffers.len()
                    &&& t is EagerCas ==> t->EagerCas_buf == buf
                    &&& t is EagerCas || t is Done
                },
                Enqueue::EagerCas { buf } => t is Done && n.buffers.len() == m.buffers.len() + if buf
                    + 1 == m.buffers.len() {
                    1int
                } else {
                    0
                } && n.tail == m.tail,
                Enqueue::Done => n == m && t == s,
            }
        }),
{
    let buf = match s {
        Enqueue::AtTail { value, idx, buf } => buf,
        Enqueue::Linking { value, idx, buf } => buf,
        Enqueue::LinkCas { value, idx, buf } => buf,
        Enqueue::FromHead { value, idx, buf } => buf,
        Enqueue::Located { value, idx, buf } => buf,
        Enqueue::Stored { idx, buf } => buf,
        Enqueue::EagerCas { buf } => buf,
        _ => 0,
    };
    assert(m.placed(buf as int));
    if let Enqueue::Located { value, idx, buf } = s {
        let (n, t) = enqueue_next(m, s);
        assert forall|g: int| 0 <= g implies #[trigger] n.slot(g) == if g == idx {
            Slot::Full(value)
        } else {
            m.slot(g)
        } by {
            lemma_with_slot(m, buf as int, idx - m.buffers[buf as int].base, Slot::Full(value), g);
        }
    }
}

/// A buffer of slots.
pub struct Buffer<T> {
    slots: Vec<Slot<T>>,
    next: Option<usize>,
    base: usize,
}

impl<T> View for Buffer<T> {
    type V = BufferState<T>;

    closed spec fn view(&self) -> BufferState<T> {
        BufferState { slots: self.slots@, next: self.next, base: self.base }
    }
}

impl<T> Buffer<T> {
    /// A buffer of empty slots.
    pub fn new(base: usize) -> (r: Self)
        ensures
            r@ == fresh_buffer::<T>(base as int),
            r@.slots.len() == 1024 && r@.next is None && r@.base == base,
            forall|i: int| 0 <= i < 1024 ==> (#[trigger] r@.slots[i]) is Empty,
    {
        let mut slots: Vec<Slot<T>> = Vec::new();
        while slots.len() < BUFFER_SIZE
            invariant
                slots.len() <= BUFFER_SIZE,
                forall|i: int| 0 <= i < slots.len() ==> (#[trigger] slots@[i]) is Empty,
            decreases BUFFER_SIZE - slots.len(),
        {
            slots.push(Slot::Empty);
        }
        let r = Buffer { slots, next: None, base };
        assert(r@.slots =~= fresh_buffer::<T>(base as int).slots);
        r
    }
}

/// The shared memory of a queue.
pub struct Queue<T> {
    buffers: Vec<Buffer<T>>,
    tail: usize,
    tail_buf: usize,
    head_buf: usize,
    head: usize,
}

impl<T> View for Queue<T> {
    type V = QueueMem<T>;

    closed spec fn view(&self) -> QueueMem<T> {
        QueueMem {
            buffers: Seq::new(self.buffers@.len(), |i: int| self.buffers@[i]@),
            tail: self.tail,
            tail_buf: self.tail_buf,
            head_buf: self.head_buf,
            head: self.head,
        }
    }
}

impl<T> Queue<T> {
    /// An empty queue with one buffer.
    pub fn new() -> (r: Self)
        ensures
            r@.quiescent(),
            r@.contents() == Seq::<T>::empty(),
            r@.tail == 0,
            r@.head == 0,
            r@.buffers.len() == 1,
    {
        let mut buffers: Vec<Buffer<T>> = Vec::new();
        buffers.push(Buffer::new(0));
        let r = Queue { buffers, tail: 0, tail_buf: 0, head_buf: 0, head: 0 };
        proof {
            assert(r@.placed(0));
            assert forall|g: int| 0 <= g implies (#[trigger] r@.slot(g)) is Empty by {}
            assert(r@.contents() =~= Seq::<T>::empty());
        }
        r
    }

    /// Link a fresh buffer behind buffer `buf`, unless there is one.
    fn link_next_buffer(&mut self, buf: usize)
        requires
            old(self)@.shaped(),
            buf < old(self)@.buffers.len(),
            old(self)@.buffers.len() < usize::MAX,
            old(self)@.buffers[buf as int].base + BUFFER_SIZE <= usize::MAX,
        ensures
            final(self)@ == old(self)@.linked(buf as int),
            final(self)@.shaped(),
    {
        let ghost m = self@;
        assert(m.placed(buf as int));
        assert(m.buffers[buf as int] == self.buffers@[buf as int]@);
        if self.buffers[buf].next.is_none() {
            let base = self.buffers[buf].base + BUFFER_SIZE;
            let fresh = self.buffers.len();
            self.buffers[buf].next = Some(fresh);
            self.buffers.push(Buffer::new(base));
            proof {
                assert(self@.buffers =~= m.linked(buf as int).buffers);
                assert forall|i: int| 0 <= i < self@.buffers.len() implies #[trigger] self@.placed(
                    i,
                ) by {
                    if i < m.buffers.len() {
                        assert(m.placed(i));
                    }
                }
            }
        }
    }

    /// One step of a producer.
    pub fn enqueue_step(&mut self, s: Enqueue<T>) -> (r: Enqueue<T>)
        requires
            old(self)@.shaped(),
            enqueue_ready(old(self)@, s),
        ensures
            (final(self)@, r) == enqueue_next(old(self)@, s),
            final(self)@.shaped(),
    {
        let ghost m = self@;
        match s {
            Enqueue::Start { value } => {
                let idx = self.tail;
                self.tail = idx + 1;
                proof {
                    assert forall|i: int| 0 <= i < self@.buffers.len() implies
                        #[trigger] self@.placed(i) by {
                        assert(m.placed(i));
                    }
                }
                Enqueue::Claimed { value, idx }
            },
            Enqueue::Claimed { value, idx } => Enqueue::AtTail { value, idx, buf: self.tail_buf },
            Enqueue::AtTail { value, idx, buf } => {
                let base = self.buffers[buf].base;
                if idx < base {
                    Enqueue::FromHead { value, idx, buf: self.head_buf }
                } else if idx - base < BUFFER_SIZE {
                    Enqueue::Located { value, idx, buf }
                } else {
                    Enqueue::Linking { value, idx, buf }
                }
            },
            Enqueue::Linking { value, idx, buf } => {
                match self.buffers[buf].next {
                    Some(next) => Enqueue::Advancing { value, idx, buf, next },
                    None => Enqueue::LinkCas { value, idx, buf },
                }
            },
            Enqueue::LinkCas { value, idx, buf } => {
                self.link_next_buffer(buf);
                Enqueue::Linking { value, idx, buf }
            },
            Enqueue::Advancing { value, idx, buf, next } => {
                if self.tail_buf == buf {
                    self.tail_buf = next;
                    proof {
                        assert forall|i: int| 0 <= i < self@.buffers.len() implies
                            #[trigger] self@.placed(i) by {
                            assert(m.placed(i));
                        }
                    }
                }
                Enqueue::Claimed { value, idx }
            },
            Enqueue::FromHead { value, idx, buf } => {
                assert(m.placed(buf as int));
                let base = self.buffers[buf].base;
                if idx - base < BUFFER_SIZE {
                    Enqueue::Located { value, idx, buf }
                } else {
                    Enqueue::FromHead { value, idx, buf: self.buffers[buf].next.unwrap() }
                }
            },
            Enqueue::Located { value, idx, buf } => {
                assert(m.placed(buf as int));
                assert(m.buffers[buf as int] == self.buffers@[buf as int]@);
                let offset = idx - self.buffers[buf].base;
                self.buffers[buf].slots[offset] = Slot::Full(value);
                proof {
                    assert(self@ =~= m.with_slot(buf as int, offset as int, Slot::Full(value)));
                    assert forall|i: int| 0 <= i < self@.buffers.len() implies
                        #[trigger] self@.placed(i) by {
                        assert(m.placed(i));
                    }
                }
                Enqueue::Stored { idx, buf }
            },
            Enqueue::Stored { idx, buf } => {
                let offset = idx - self.buffers[buf].base;
                if offset + 2 == BUFFER_SIZE && self.buffers[buf].next.is_none() {
                    Enqueue::EagerCas { buf }
                } else {
                    Enqueue::Done
                }
            },
            Enqueue::EagerCas { buf } => {
                self.link_next_buffer(buf);
                Enqueue::Done
            },
            Enqueue::Done => Enqueue::Done,
        }
    }

    /// One step of the consumer.
    pub fn dequeue_step(&mut self, s: Dequeue<T>) -> (r: Dequeue<T>)
        requires
            old(self)@.shaped(),
            dequeue_ready(old(self)@, s),
        ensures
            (final(self)@, r) == dequeue_next(old(self)@, s),
            final(self)@.shaped(),
    {
        let ghost m = self@;
        let buf = self.head_buf;
        assert(m.placed(buf as int));
        assert(m.buffers[buf as int] == self.buffers@[buf as int]@);
        match s {
            Dequeue::Start => {
                if self.head >= self.tail {
                    Dequeue::Done(None)
                } else {
                    Dequeue::Look
                }
            },
            Dequeue::Look => {
                let offset = self.head - self.buffers[buf].base;
                if offset >= BUFFER_SIZE {
                    match self.buffers[buf].next {
                        Some(next) => Dequeue::Move { next },
                        None => Dequeue::Done(None),
                    }
                } else {
                    match &self.buffers[buf].slots[offset] {
                        Slot::Empty => Dequeue::Done(None),
                        Slot::Handled => {
                            self.head = self.head + 1;
                            proof {
                                assert forall|i: int| 0 <= i < self@.buffers.len() implies
                                    #[trigger] self@.placed(i) by {
                                    assert(m.placed(i));
                                }
                            }
                            Dequeue::Start
                        },
                        Slot::Full(value) => Dequeue::Take,
                    }
                }
            },
            Dequeue::Move { next } => {
                self.head_buf = next;
                proof {
                    assert forall|i: int| 0 <= i < self@.buffers.len() implies
                        #[trigger] self@.placed(i) by {
                        assert(m.placed(i));
                    }
                }
                Dequeue::Start
            },
            Dequeue::Take => {
                let offset = self.head - self.buffers[buf].base;
                let mut taken = Slot::Handled;
                std::mem::swap(&mut self.buffers[buf].slots[offset], &mut taken);
                self.head = self.head + 1;
                proof {
                    assert(self@.buffers =~= m.with_slot(
                        buf as int,
                        offset as int,
                        Slot::Handled,
                    ).buffers);
                    assert forall|i: int| 0 <= i < self@.buffers.len() implies
                        #[trigger] self@.placed(i) by {
                        assert(m.placed(i));
                    }
                }
                match taken {
                    Slot::Full(value) => Dequeue::Done(Some(value)),
                    _ => Dequeue::Done(None),
                }
            },
            Dequeue::Done(item) => Dequeue::Done(item),
        }
    }
}

/// Replacing a slot changes that slot alone.
pub proof fn lemma_with_slot<T>(m: QueueMem<T>, buf: int, offset: int, slot: Slot<T>, g: int)
    requires
        m.shaped(),
        0 <= buf < m.buffers.len(),
        0 <= offset < BUFFER_SIZE,
        0 <= g,
    ensures
        m.with_slot(buf, offset, slot).slot(g) == if g == buf * BUFFER_SIZE + offset {
            slot
        } else {
            m.slot(g)
        },
{
    assert(m.placed(buf));
}

/// Linking a buffer changes no slot.
pub proof fn lemma_linked<T>(m: QueueMem<T>, buf: int, g: int)
    requires
        m.shaped(),
        0 <= buf < m.buffers.len(),
        0 <= g,
    ensures
        m.linked(buf).slot(g) == m.slot(g),
{
    assert(m.placed(buf));
}

/// The number of buffers is far from the machine's limit.
pub proof fn lemma_buffer_count<T>(m: QueueMem<T>)
    requires
        m.shaped(),
    ensures
        (m.buffers.len() - 1) * BUFFER_SIZE <= usize::MAX,
        m.buffers.len() < usize::MAX,
{
    assert(m.placed(m.buffers.len() - 1));
}

impl<T> Enqueue<T> {
    /// Whether the buffer of the claimed slot is found.
    fn is_located(&self) -> (r: bool)
        ensures
            r == (self is Located),
    {
        match self {
            Enqueue::Located { value, idx, buf } => true,
            _ => false,
        }
    }

    /// Whether a fresh buffer is to be linked.
    fn is_linking(&self) -> (r: bool)
        ensures
            r == (self is LinkCas),
    {
        match self {
            Enqueue::LinkCas { value, idx, buf } => true,
            _ => false,
        }
    }
}

/// Only what no consumer sees has changed: where the tail buffer is, and how many there are.
spec fn same_slots<T>(m: QueueMem<T>, n: QueueMem<T>) -> bool {
    &&& n.shaped()
    &&& n.tail == m.tail
    &&& n.head == m.head
    &&& n.head_buf == m.head_buf
    &&& forall|g: int| 0 <= g ==> #[trigger] n.slot(g) == m.slot(g)
}

impl<T> Queue<T> {
    /// Walk the list of buffers, from the tail buffer on, to the one that holds the claimed slot,
    /// and link buffers as needed.
    fn locate_tail_buffer(&mut self, claimed: Enqueue<T>) -> (r: Enqueue<T>)
        requires
            claimed matches Enqueue::Claimed { value, idx } && old(self)@.tail_buf * BUFFER_SIZE <= idx,
            old(self)@.shaped(),
        ensures
            same_slots(old(self)@, final(self)@),
            r is Located,
            enqueue_ready(final(self)@, r),
            r->Located_value == claimed->Claimed_value,
            r->Located_idx == claimed->Claimed_idx,
            final(self)@.tail_buf * BUFFER_SIZE <= r->Located_idx,
    {
        let ghost m = self@;
        let ghost value = claimed->Claimed_value;
        let ghost idx = claimed->Claimed_idx;
        let mut s = claimed;
        loop
            invariant
                m == old(self)@,
                value == claimed->Claimed_value,
                idx == claimed->Claimed_idx,
                same_slots(m, self@),
                s == (Enqueue::Claimed { value, idx }),
                self@.tail_buf * BUFFER_SIZE <= idx,
            decreases idx / BUFFER_SIZE - self@.tail_buf,
        {
            let ghost start = self@;
            let ghost buf = self@.tail_buf;
            assert(start.placed(buf as int));
            s = self.enqueue_step(s);
            s = self.enqueue_step(s);
            if s.is_located() {
                return s;
            }
            s = self.enqueue_step(s);
            if s.is_linking() {
                proof {
                    lemma_buffer_count(self@);
                    assert forall|g: int| 0 <= g implies #[trigger] start.linked(buf as int).slot(g)
                        == m.slot(g) by {
                        lemma_linked(start, buf as int, g);
                        assert(start.slot(g) == m.slot(g));
                    }
                }
                s = self.enqueue_step(s);
                s = self.enqueue_step(s);
            }
            let ghost before = self@;
            assert(before.placed(buf as int));
            s = self.enqueue_step(s);
            assert forall|g: int| 0 <= g implies #[trigger] self@.slot(g) == m.slot(g) by {
                assert(before.slot(g) == m.slot(g));
            }
        }
    }

    /// Add a value at the end.
    pub fn enqueue(&mut self, value: T)
        requires
            old(self)@.quiescent(),
            old(self)@.tail + 2 <= usize::MAX,
        ensures
            final(self)@.quiescent(),
            final(self)@.contents() == old(self)@.contents().push(value),
            final(self)@.head == old(self)@.head,
            final(self)@.tail == old(self)@.tail + 1,
    {
        let ghost m = self@;
        let ghost idx = m.tail as int;
        let s = self.enqueue_step(Enqueue::Start { value });
        let ghost claimed = self@;
        assert forall|g: int| 0 <= g implies #[trigger] claimed.slot(g) == m.slot(g) by {}
        let s = self.locate_tail_buffer(s);
        let ghost located = self@;
        let ghost buf = s->Located_buf as int;
        assert(located.placed(buf));
        let s = self.enqueue_step(s);
        let ghost stored = self@;
        assert forall|g: int| 0 <= g implies #[trigger] stored.slot(g) == if g == idx {
            Slot::Full(value)
        } else {
            m.slot(g)
        } by {
            lemma_with_slot(located, buf, idx - buf * BUFFER_SIZE, Slot::Full(value), g);
            assert(located.slot(g) == claimed.slot(g));
            assert(claimed.slot(g) == m.slot(g));
        }
        assert(stored.placed(buf));
        let s = self.enqueue_step(s);
        proof {
            lemma_buffer_count(stored);
            assert forall|g: int| 0 <= g implies #[trigger] stored.linked(buf).slot(g)
                == stored.slot(g) by {
                lemma_linked(stored, buf, g);
            }
        }
        let s = self.enqueue_step(s);
        proof {
            assert forall|g: int| 0 <= g implies #[trigger] self@.slot(g) == stored.slot(g) by {}
            assert(self@.contents() =~= m.contents().push(value)) by {
                assert forall|k: int| 0 <= k < m.contents().len() implies self@.contents()[k]
                    == #[trigger] m.contents()[k] by {
                    assert(self@.slot(m.head + k) == stored.slot(m.head + k));
                }
            }
        }
    }

    /// Take the oldest value.
    pub fn dequeue(&mut self) -> (r: Option<T>)
        requires
            old(self)@.quiescent(),
        ensures
            final(self)@.quiescent(),
            final(self)@.tail == old(self)@.tail,
            old(self)@.contents().len() == 0 ==> r is None && final(self)@.contents()
                == old(self)@.contents(),
            old(self)@.contents().len() > 0 ==> r == Some(old(self)@.contents()[0])
                && final(self)@.contents() == old(self)@.contents().drop_first(),
            final(self)@.head == old(self)@.head + if old(self)@.contents().len() == 0 {
                0int
            } else {
                1
            },
    {
        let ghost m = self@;
        let mut s = Dequeue::Start;
        loop
            invariant
                m == old(self)@,
                m.quiescent(),
                self@ == (QueueMem { head_buf: self@.head_buf, ..m }),
                self@.shaped(),
                s is Start,
            decreases self@.buffers.len() - self@.head_buf,
        {
            let ghost start = self@;
            let ghost buf = start.head_buf as int;
            assert(start.placed(buf));
            assert forall|g: int| 0 <= g implies #[trigger] start.slot(g) == m.slot(g) by {}
            s = self.dequeue_step(s);
            if let Dequeue::Done(item) = s {
                return item;
            }
            assert(m.slot(m.head as int) is Full);
            s = self.dequeue_step(s);
            match s {
                Dequeue::Move { next } => {
                    s = self.dequeue_step(Dequeue::Move { next });
                },
                _ => {
                    assert(s is Take);
                    let r = self.dequeue_step(Dequeue::Take);
                    proof {
                        let offset = m.head - buf * BUFFER_SIZE;
                        assert forall|g: int| 0 <= g implies #[trigger] self@.slot(g) == if g
                            == m.head {
                            Slot::Handled
                        } else {
                            m.slot(g)
                        } by {
                            lemma_with_slot(start, buf, offset, Slot::Handled, g);
                            assert(start.slot(g) == m.slot(g));
                        }
                        assert(start.slot(m.head as int) == m.slot(m.head as int));
                        assert(self@.contents() =~= m.contents().drop_first());
                    }
                    if let Dequeue::Done(item) = r {
                        return item;
                    }
                    return None;
                },
            }
        }
    }

    /// Whether no slot is claimed past the head.
    pub fn is_empty(&self) -> (r: bool)
        requires
            self@.shaped(),
        ensures
            r == (self@.head >= self@.tail),
    {
        self.head >= self.tail
    }
}

/// A producer handle. Any number of them may enqueue.
pub struct Producer<T> {
    of: Ghost<int>,
    marker: core::marker::PhantomData<T>,
}

impl<T> Producer<T> {
    /// The identity of the queue that this handle enqueues to.
    pub closed spec fn of(&self) -> int {
        self.of@
    }
}

impl<T> Clone for Producer<T> {
    fn clone(&self) -> (p: Self)
        ensures
            p == *self,
    {
        Producer { of: Ghost(self.of@), marker: core::marker::PhantomData }
    }
}

/// The single consumer handle, which holds the queue.
pub struct Consumer<T> {
    queue: Queue<T>,
    id: Ghost<int>,
}

impl<T> View for Consumer<T> {
    type V = Seq<T>;

    /// The values in the queue, the oldest first.
    closed spec fn view(&self) -> Seq<T> {
        self.queue@.contents()
    }
}

/// Create a queue, with its consumer and a producer that can be cloned.
pub fn channel<T>() -> (r: (Producer<T>, Consumer<T>))
    ensures
        r.1.wf(),
        r.1@ == Seq::<T>::empty(),
        r.1.enqueued() == 0,
        r.0.of() == r.1.id(),
{
    let ghost id: int = arbitrary();
    (
        Producer { of: Ghost(id), marker: core::marker::PhantomData },
        Consumer { queue: Queue::new(), id: Ghost(id) },
    )
}

impl<T> Producer<T> {
    /// Enqueue a value at the end of the queue of `consumer`.
    pub fn enqueue(&self, consumer: &mut Consumer<T>, value: T)
        requires
            old(consumer).wf(),
            self.of() == old(consumer).id(),
            old(consumer).enqueued() + 2 <= usize::MAX,
        ensures
            final(consumer).wf(),
            final(consumer).id() == old(consumer).id(),
            final(consumer)@ == old(consumer)@.push(value),
            final(consumer).enqueued() == old(consumer).enqueued() + 1,
    {
        consumer.queue.enqueue(value);
    }
}

impl<T> Consumer<T> {
    /// The state between operations.
    pub closed spec fn wf(&self) -> bool {
        self.queue@.quiescent()
    }

    /// The queue's identity, which its producers carry.
    pub closed spec fn id(&self) -> int {
        self.id@
    }

    /// Number of values ever enqueued.
    pub closed spec fn enqueued(&self) -> int {
        self.queue@.tail as int
    }

    /// Dequeue the oldest value. Returns `None` if the queue is empty.
    pub fn dequeue(&mut self) -> (r: Option<T>)
        requires
            old(self).wf(),
        ensures
            final(self).wf(),
            final(self).id() == old(self).id(),
            old(self)@.len() == 0 ==> r is None && final(self)@ == old(self)@,
            old(self)@.len() > 0 ==> r == Some(old(self)@[0]) && final(self)@ == old(self)@.drop_first(),
            final(self).enqueued() == old(self).enqueued(),
    {
        self.queue.dequeue()
    }

    /// Whether the queue holds nothing.
    pub fn is_empty(&self) -> (r: bool)
        requires
            self.wf(),
        ensures
            r == (self@.len() == 0),
    {
        self.queue.is_empty()
    }

    /// What is left in the queue at its end, the oldest first: each value that was enqueued and
    /// not dequeued, once.
    pub fn into_remaining(self) -> (r: Vec<T>)
        requires
            self.wf(),
        ensures
            r@ == self@,
    {
        let mut queue = self.queue;
        let mut r: Vec<T> = Vec::new();
        let ghost all = queue@.contents();
        loop
            invariant
                queue@.quiescent(),
                all == r@ + queue@.contents(),
            ensures
                r@ == all,
            decreases queue@.contents().len(),
        {
            let ghost before = queue@.contents();
            let ghost taken = r@;
            match queue.dequeue() {
                Some(value) => {
                    r.push(value);
                    assert(all =~= r@ + queue@.contents());
                },
                None => {
                    assert(r@ =~= all);
                    break;
                },
            }
        }
        r
    }
}

} // verus!
