//! Work stealing with multiplicity over a growable array.
//!
//! A task is delivered at least once, and at most once per consumer, rather than exactly once. In
//! return a put is a plain store, and a consumer never retries: it loads the monotone `head`, reads
//! the slot there, and raises `head` behind it. Consumers receive clones; the queue keeps the
//! master copy of every task. Use it where running a task twice is wasteful but not wrong.
//!
//! [`IdempotentWorker::put_step`] and [`IdempotentWorker::consumer_step`] make one shared-memory
//! access at a time; each is a move of [`crate::multiplicity`], which proves what holds when the
//! steps of many consumers interleave.

use vstd::prelude::*;

use crate::multiplicity;
use crate::multiplicity::{Consumer, Shared};

verus! {

/// Initial number of task slots.
pub const INITIAL_CAPACITY: usize = 16;

/// Outcome of a take or a steal.
#[derive(Debug, PartialEq, Eq)]
pub enum Take<T> {
    /// No task currently available at the head.
    Empty,
    /// A task (delivered at least once across all consumers).
    Got(T),
}

impl<T> Take<T> {
    /// The task, if any.
    pub fn got(self) -> (r: Option<T>)
        ensures
            r == match self {
                Take::Got(v) => Some(v),
                Take::Empty => None,
            },
    {
        match self {
            Take::Got(v) => Some(v),
            Take::Empty => None,
        }
    }
}

/// Who consumes, and how.
#[derive(Clone, Copy, Debug, PartialEq, Eq, Structural)]
pub enum Role {
    /// The owner takes.
    Owner,
    /// A thief steals.
    Thief,
    /// A thief claims the task before it takes it.
    Exclusive,
}

/// Where a consumer stands in its current operation.
#[derive(Clone, Copy, Debug, PartialEq, Eq, Structural)]
pub enum ConsumerState {
    /// About to load `head`.
    Start,
    /// Has loaded `head`; about to load the array pointer.
    SeenHead { head: usize },
    /// Has loaded the array pointer; about to read the slot.
    SeenArray { head: usize, array: usize },
    /// Has found a task; about to claim it or to raise `head` behind it.
    SeenTask { head: usize, array: usize },
    /// Has claimed the task; about to raise `head` behind it.
    Claimed { head: usize },
    /// The task is claimed by another; about to raise `head` behind it.
    Passed { head: usize },
    /// The operation is complete, with the number of the task that is delivered.
    Done(Option<usize>),
}

/// Where the owner stands in a put.
pub enum PutState<T> {
    /// About to check for room.
    Start { task: T },
    /// There is room; about to store the task.
    Room { task: T },
    /// The task is stored; about to mark the next slot as empty.
    Stored,
    /// The put is complete.
    Done(bool),
}

/// An array of task slots, each with the number of its task, and the claims of thieves.
pub struct Tasks {
    cells: Vec<Option<usize>>,
    claimed: Vec<bool>,
}

/// An array of task slots as a mathematical value.
#[verifier::ext_equal]
pub struct TaskArray {
    pub cells: Seq<Option<usize>>,
    pub claimed: Seq<bool>,
}

impl View for Tasks {
    type V = TaskArray;

    closed spec fn view(&self) -> TaskArray {
        TaskArray { cells: self.cells@, claimed: self.claimed@ }
    }
}

impl Tasks {
    /// An array of `len` empty slots.
    fn with_len(len: usize) -> (r: Self)
        ensures
            r@.cells.len() == len,
            r@.claimed.len() == len,
            forall|i: int| 0 <= i < len ==> (#[trigger] r@.cells[i]) is None,
            forall|i: int| 0 <= i < len ==> !#[trigger] r@.claimed[i],
    {
        let mut cells: Vec<Option<usize>> = Vec::new();
        let mut claimed: Vec<bool> = Vec::new();
        while cells.len() < len
            invariant
                cells.len() <= len,
                cells.len() == claimed.len(),
                forall|i: int| 0 <= i < cells.len() ==> (#[trigger] cells@[i]) is None,
                forall|i: int| 0 <= i < cells.len() ==> !#[trigger] claimed@[i],
            decreases len - cells.len(),
        {
            cells.push(None);
            claimed.push(false);
        }
        Tasks { cells, claimed }
    }
}

/// The single owner of a queue with multiplicity. Puts at the tail, takes from the head. The last
/// array is the active one; the arrays before it are retired and kept.
pub struct IdempotentWorker<T> {
    boxes: Vec<T>,
    arrays: Vec<Tasks>,
    head: usize,
    tail: usize,
    bounded: bool,
    cap: usize,
    id: Ghost<int>,
}

impl<T> IdempotentWorker<T> {
    /// Every task ever put, in order.
    pub closed spec fn tasks(&self) -> Seq<T> {
        self.boxes@
    }

    /// The identity of the queue, which its thief handles carry. A queue keeps it for good; of the
    /// identities of two queues nothing is known.
    pub closed spec fn id(&self) -> int {
        self.id@
    }

    /// How far the queue is taken.
    pub closed spec fn head(&self) -> int {
        self.head as int
    }

    /// Slots of the active array.
    pub closed spec fn slots(&self) -> int {
        self.arrays@.last()@.cells.len() as int
    }

    /// Number of arrays that growth has retired.
    pub closed spec fn retired(&self) -> int {
        self.arrays@.len() - 1
    }

    /// The array never grows.
    pub closed spec fn is_bounded(&self) -> bool {
        self.bounded
    }

    /// Most tasks that a bounded queue accepts.
    pub closed spec fn limit(&self) -> int {
        self.cap as int
    }

    /// The task at index `k` is claimed by a thief.
    pub closed spec fn claims(&self) -> Set<int> {
        Set::new(|k: int| 0 <= k < self.arrays@[0]@.claimed.len() && self.arrays@[0]@.claimed[k])
    }

    /// What the consumers share.
    pub open spec fn shared(&self) -> Shared {
        Shared { head: self.head(), put: self.tasks().len() as int, claimed: self.claims() }
    }

    /// A slot holds the task of its index, or nothing; the active array holds every task.
    spec fn array_wf(&self, a: int) -> bool {
        let array = self.arrays@[a]@;
        &&& array.cells.len() == array.claimed.len()
        &&& forall|i: int|
            0 <= i < array.cells.len() ==> match #[trigger] array.cells[i] {
                Some(k) => k == i && i < self.tail,
                None => a == self.arrays@.len() - 1 ==> i >= self.tail,
            }
    }

    /// The state between steps.
    pub closed spec fn wf(&self) -> bool {
        &&& self.arrays@.len() >= 1
        &&& self.boxes@.len() == self.tail
        &&& self.head <= self.tail
        &&& self.tail < self.slots()
        &&& self.bounded ==> self.arrays@.len() == 1 && self.tail <= self.cap && self.slots()
            == self.cap + 2
        &&& forall|a: int| 0 <= a < self.arrays@.len() ==> #[trigger] self.array_wf(a)
    }

    /// A consumer in state `s` uses indices that exist.
    pub closed spec fn ready(&self, s: ConsumerState) -> bool {
        match s {
            ConsumerState::SeenHead { head } => head <= self.head,
            ConsumerState::SeenArray { head, array } => head <= self.head && array
                < self.arrays@.len(),
            ConsumerState::SeenTask { head, array } => head <= self.head && head < self.tail
                && array < self.arrays@.len() && head < self.arrays@[array as int]@.cells.len(),
            ConsumerState::Claimed { head } => head <= self.head && head < self.tail,
            ConsumerState::Passed { head } => head <= self.head && head < self.tail,
            _ => true,
        }
    }
}

/// Where a consumer stands, as [`crate::multiplicity`] sees it.
pub open spec fn standing(s: ConsumerState) -> Consumer {
    match s {
        ConsumerState::Start => Consumer::Idle,
        ConsumerState::SeenHead { head } => Consumer::Looking { head: head as int },
        ConsumerState::SeenArray { head, array } => Consumer::Looking { head: head as int },
        ConsumerState::SeenTask { head, array } => Consumer::Holding { head: head as int },
        ConsumerState::Claimed { head } => Consumer::Claimed { head: head as int },
        ConsumerState::Passed { head } => Consumer::Passed { head: head as int },
        ConsumerState::Done(task) => Consumer::Idle,
    }
}

/// What a step from `before` to `after` delivers.
pub open spec fn delivery(before: ConsumerState, after: ConsumerState) -> Option<int> {
    match (before, after) {
        (ConsumerState::Done(_), _) => None,
        (_, ConsumerState::Done(Some(k))) => Some(k as int),
        _ => None,
    }
}

impl<T: Clone> IdempotentWorker<T> {
    /// Create an empty, growable queue.
    pub fn new() -> (w: Self)
        ensures
            w.wf(),
            w.tasks() == Seq::<T>::empty(),
            w.head() == 0,
            w.slots() == INITIAL_CAPACITY,
            w.slots() == 16,
            w.retired() == 0,
            !w.is_bounded(),
            w.claims() == Set::<int>::empty(),
    {
        Self::make(INITIAL_CAPACITY, false, usize::MAX)
    }

    /// Create a bounded queue for up to `capacity` tasks. Its array, which has two slots more,
    /// never grows.
    pub fn bounded(capacity: usize) -> (w: Self)
        requires
            capacity + 2 <= usize::MAX,
        ensures
            w.wf(),
            w.tasks() == Seq::<T>::empty(),
            w.head() == 0,
            w.slots() == capacity + 2,
            w.retired() == 0,
            w.is_bounded(),
            w.limit() == capacity,
            w.claims() == Set::<int>::empty(),
    {
        Self::make(capacity + 2, true, capacity)
    }

    fn make(len: usize, bounded: bool, cap: usize) -> (w: Self)
        requires
            len >= 2,
            bounded ==> len == cap + 2,
        ensures
            w.wf(),
            w.tasks() == Seq::<T>::empty(),
            w.head() == 0,
            w.slots() == len,
            w.retired() == 0,
            w.is_bounded() == bounded,
            w.limit() == cap,
            w.claims() == Set::<int>::empty(),
    {
        let mut arrays: Vec<Tasks> = Vec::new();
        arrays.push(Tasks::with_len(len));
        let w = IdempotentWorker {
            boxes: Vec::new(),
            arrays,
            head: 0,
            tail: 0,
            bounded,
            cap,
            id: Ghost(arbitrary()),
        };
        assert(w.array_wf(0));
        assert(w.claims() =~= Set::<int>::empty());
        w
    }

    /// A thief handle for this queue, and for no other.
    pub fn stealer(&self) -> (s: IdempotentStealer<T>)
        ensures
            s.of() == self.id(),
    {
        IdempotentStealer { of: Ghost(self.id@), marker: core::marker::PhantomData }
    }

    /// Number of tasks ever put. Tasks taken are not subtracted.
    pub fn tail(&self) -> (r: usize)
        requires
            self.wf(),
        ensures
            r == self.tasks().len(),
    {
        self.tail
    }

    /// Current backing-array capacity.
    pub fn capacity(&self) -> (r: usize)
        requires
            self.wf(),
        ensures
            r == self.slots(),
    {
        self.arrays[self.arrays.len() - 1].cells.len()
    }

    /// Grow the task array to double length, copying the slots.
    fn grow(&mut self)
        requires
            old(self).wf(),
            !old(self).bounded,
            2 * old(self).slots() <= usize::MAX,
        ensures
            final(self).wf(),
            final(self).id() == old(self).id(),
            final(self).shared() == old(self).shared(),
            final(self).tasks() == old(self).tasks(),
            final(self).slots() == 2 * old(self).slots(),
            final(self).retired() == old(self).retired() + 1,
            !final(self).bounded,
            final(self).cap == old(self).cap,
            final(self).tail == old(self).tail,
            final(self).head == old(self).head,
            forall|s: ConsumerState| old(self).ready(s) ==> #[trigger] final(self).ready(s),
    {
        let last = self.arrays.len() - 1;
        let len = self.arrays[last].cells.len();
        let ghost active = self.arrays@[last as int]@;
        let ghost before = self.arrays@;
        assert(self.array_wf(last as int));
        let mut bigger = Tasks::with_len(len * 2);
        let mut i: usize = 0;
        while i < len
            invariant
                i <= len,
                last < self.arrays@.len(),
                self.arrays@ == before,
                active == self.arrays@[last as int]@,
                len == active.cells.len(),
                bigger@.cells.len() == 2 * len,
                bigger@.claimed.len() == 2 * len,
                forall|k: int| 0 <= k < i ==> #[trigger] bigger@.cells[k] == active.cells[k],
                forall|k: int| i <= k < 2 * len ==> (#[trigger] bigger@.cells[k]) is None,
            decreases len - i,
        {
            bigger.cells[i] = self.arrays[last].cells[i];
            i += 1;
        }
        self.arrays.push(bigger);
        proof {
            assert forall|a: int| 0 <= a < self.arrays@.len() implies #[trigger] self.array_wf(
                a,
            ) by {
                if a < before.len() {
                    assert(old(self).array_wf(a));
                    assert(self.arrays@[a] == before[a]);
                } else {
                    let array = self.arrays@[a]@;
                    assert forall|i: int| 0 <= i < array.cells.len() implies match
                    #[trigger] array.cells[i] {
                        Some(k) => k == i && i < self.tail,
                        None => i >= self.tail,
                    } by {
                        if i < len {
                            assert(array.cells[i] == active.cells[i]);
                        }
                    }
                }
            }
            assert(self.claims() =~= old(self).claims()) by {
                assert(self.arrays@[0] == before[0]);
            }
            assert forall|s: ConsumerState| old(self).ready(s) implies #[trigger] self.ready(s) by {
                match s {
                    ConsumerState::SeenTask { head, array } => {
                        assert(self.arrays@[array as int] == before[array as int]);
                    },
                    _ => {},
                }
            }
        }
    }

    /// One step of a put. A growable queue enlarges its array as needed; a full bounded queue
    /// refuses the task.
    pub fn put_step(&mut self, s: PutState<T>) -> (r: PutState<T>)
        requires
            old(self).wf(),
            s is Start && !old(self).is_bounded() ==> 2 * (old(self).tasks().len() + 1)
                <= usize::MAX,
            s is Room ==> old(self).tasks().len() + 1 < old(self).slots() && (
            old(self).is_bounded() ==> old(self).tasks().len() < old(self).limit()),
        ensures
            final(self).wf(),
            final(self).id() == old(self).id(),
            multiplicity::puts(old(self).shared(), final(self).shared()),
            final(self).head() == old(self).head(),
            final(self).is_bounded() == old(self).is_bounded(),
            final(self).limit() == old(self).limit(),
            forall|c: ConsumerState| old(self).ready(c) ==> #[trigger] final(self).ready(c),
            match s {
                PutState::Start { task } => {
                    let full = old(self).is_bounded() && old(self).tasks().len() >= old(self).limit();
                    let tight = old(self).tasks().len() + 1 >= old(self).slots();
                    &&& r == if full {
                        PutState::Done(false)
                    } else {
                        PutState::Room { task }
                    }
                    &&& final(self).tasks() == old(self).tasks()
                    &&& final(self).slots() == if !full && tight {
                        2 * old(self).slots()
                    } else {
                        old(self).slots()
                    }
                    &&& final(self).retired() == old(self).retired() + if !full && tight {
                        1int
                    } else {
                        0
                    }
                },
                PutState::Room { task } => {
                    &&& r is Stored
                    &&& final(self).tasks() == old(self).tasks().push(task)
                    &&& final(self).slots() == old(self).slots()
                    &&& final(self).retired() == old(self).retired()
                },
                PutState::Stored => {
                    &&& r == PutState::<T>::Done(true)
                    &&& final(self).shared() == old(self).shared()
                    &&& final(self).tasks() == old(self).tasks()
                    &&& final(self).slots() == old(self).slots()
                    &&& final(self).retired() == old(self).retired()
                },
                PutState::Done(done) => r == s && *final(self) == *old(self),
            },
    {
        match s {
            PutState::Start { task } => {
                if self.bounded && self.tail >= self.cap {
                    return PutState::Done(false);
                }
                let last = self.arrays.len() - 1;
                assert(self.array_wf(last as int));
                if self.tail + 1 >= self.arrays[last].cells.len() {
                    self.grow();
                }
                PutState::Room { task }
            },
            PutState::Room { task } => {
                let last = self.arrays.len() - 1;
                let tail = self.tail;
                let ghost before = self.arrays@;
                assert(self.array_wf(last as int));
                self.boxes.push(task);
                self.arrays[last].cells[tail] = Some(tail);
                assert(self.boxes@.len() == self.boxes.len());
                self.tail = tail + 1;
                proof {
                    assert forall|a: int| 0 <= a < self.arrays@.len() implies
                        #[trigger] self.array_wf(a) by {
                        assert(old(self).array_wf(a));
                    }
                    assert(self.claims() =~= old(self).claims());
                }
                PutState::Stored
            },
            PutState::Stored => {
                let last = self.arrays.len() - 1;
                let tail = self.tail;
                assert(self.array_wf(last as int));
                let ghost before = *self;
                self.arrays[last].cells[tail] = None;
                proof {
                    assert(self.arrays@[last as int]@.cells =~= before.arrays@[last as int]@.cells);
                    assert forall|a: int| 0 <= a < self.arrays@.len() implies
                        #[trigger] self.array_wf(a) by {
                        assert(before.array_wf(a));
                    }
                    assert(self.claims() =~= before.claims());
                }
                PutState::Done(true)
            },
            PutState::Done(done) => PutState::Done(done),
        }
    }

    /// One step of a consumer.
    pub fn consumer_step(&mut self, role: Role, s: ConsumerState) -> (r: ConsumerState)
        requires
            old(self).wf(),
            old(self).ready(s),
            role is Exclusive ==> old(self).is_bounded(),
        ensures
            final(self).wf(),
            final(self).id() == old(self).id(),
            final(self).ready(r),
            final(self).tasks() == old(self).tasks(),
            final(self).slots() == old(self).slots(),
            final(self).retired() == old(self).retired(),
            final(self).is_bounded() == old(self).is_bounded(),
            final(self).limit() == old(self).limit(),
            multiplicity::moves(
                role is Exclusive,
                old(self).shared(),
                standing(s),
                final(self).shared(),
                standing(r),
                delivery(s, r),
            ),
            forall|c: ConsumerState| old(self).ready(c) ==> #[trigger] final(self).ready(c),
            match s {
                ConsumerState::Start => {
                    &&& r == (ConsumerState::SeenHead { head: old(self).head() as usize })
                    &&& final(self).shared() == old(self).shared()
                },
                ConsumerState::SeenHead { head } => {
                    &&& r == if role is Owner && head >= old(self).tasks().len() {
                        ConsumerState::Done(None)
                    } else {
                        ConsumerState::SeenArray { head, array: old(self).retired() as usize }
                    }
                    &&& final(self).shared() == old(self).shared()
                },
                ConsumerState::SeenArray { head, array } => {
                    &&& r == if old(self).holds(array as int, head as int) {
                        ConsumerState::SeenTask { head, array }
                    } else {
                        ConsumerState::Done(None)
                    }
                    &&& final(self).shared() == old(self).shared()
                },
                ConsumerState::SeenTask { head, array } => if role is Exclusive {
                    if old(self).claims().contains(head as int) {
                        &&& r == (ConsumerState::Passed { head })
                        &&& final(self).shared() == old(self).shared()
                    } else {
                        &&& r == (ConsumerState::Claimed { head })
                        &&& final(self).shared() == (Shared {
                            claimed: old(self).claims().insert(head as int),
                            ..old(self).shared()
                        })
                    }
                } else {
                    &&& r == ConsumerState::Done(Some(head))
                    &&& final(self).shared() == multiplicity::raised(old(self).shared(), head + 1)
                    &&& final(self).head() > head && final(self).head() >= old(self).head()
                    &&& final(self).head() == head + 1 || final(self).head() == old(self).head()
                },
                ConsumerState::Claimed { head } => {
                    &&& r == ConsumerState::Done(Some(head))
                    &&& final(self).shared() == multiplicity::raised(old(self).shared(), head + 1)
                    &&& final(self).head() > head && final(self).head() >= old(self).head()
                    &&& final(self).head() == head + 1 || final(self).head() == old(self).head()
                },
                ConsumerState::Passed { head } => {
                    &&& r == ConsumerState::Done(None)
                    &&& final(self).shared() == multiplicity::raised(old(self).shared(), head + 1)
                    &&& final(self).head() > head && final(self).head() >= old(self).head()
                    &&& final(self).head() == head + 1 || final(self).head() == old(self).head()
                },
                ConsumerState::Done(task) => r == s && final(self).shared() == old(self).shared(),
            },
    {
        match s {
            ConsumerState::Start => ConsumerState::SeenHead { head: self.head },
            ConsumerState::SeenHead { head } => {
                if role == Role::Owner && head >= self.tail {
                    ConsumerState::Done(None)
                } else {
                    ConsumerState::SeenArray { head, array: self.arrays.len() - 1 }
                }
            },
            ConsumerState::SeenArray { head, array } => {
                assert(self.array_wf(array as int));
                if head < self.arrays[array].cells.len() {
                    match self.arrays[array].cells[head] {
                        Some(k) => ConsumerState::SeenTask { head, array },
                        None => ConsumerState::Done(None),
                    }
                } else {
                    ConsumerState::Done(None)
                }
            },
            ConsumerState::SeenTask { head, array } => {
                assert(self.array_wf(array as int));
                if role == Role::Exclusive {
                    if self.arrays[array].claimed[head] {
                        ConsumerState::Passed { head }
                    } else {
                        let ghost before = *self;
                        self.arrays[array].claimed[head] = true;
                        proof {
                            assert forall|a: int| 0 <= a < self.arrays@.len() implies
                                #[trigger] self.array_wf(a) by {
                                assert(before.array_wf(a));
                            }
                            assert(self.claims() =~= before.claims().insert(head as int));
                        }
                        ConsumerState::Claimed { head }
                    }
                } else {
                    self.raise(head + 1);
                    ConsumerState::Done(Some(head))
                }
            },
            ConsumerState::Claimed { head } => {
                self.raise(head + 1);
                ConsumerState::Done(Some(head))
            },
            ConsumerState::Passed { head } => {
                self.raise(head + 1);
                ConsumerState::Done(None)
            },
            ConsumerState::Done(task) => ConsumerState::Done(task),
        }
    }

    /// Raise `head` to at least `to`.
    fn raise(&mut self, to: usize)
        requires
            old(self).wf(),
            to <= old(self).tail,
        ensures
            final(self).wf(),
            final(self).id() == old(self).id(),
            final(self).shared() == multiplicity::raised(old(self).shared(), to as int),
            *final(self) == (IdempotentWorker { head: final(self).head, ..*old(self) }),
    {
        if self.head < to {
            self.head = to;
        }
        proof {
            assert forall|a: int| 0 <= a < self.arrays@.len() implies #[trigger] self.array_wf(
                a,
            ) by {
                assert(old(self).array_wf(a));
            }
            assert(self.claims() =~= old(self).claims());
        }
    }

    /// Put a task at the tail. A growable queue enlarges its array as needed and always returns
    /// `true`; a bounded queue returns `false`, and drops the task, once it has accepted as many
    /// tasks as it was made for.
    pub fn put(&mut self, task: T) -> (r: bool)
        requires
            old(self).wf(),
            !old(self).is_bounded() ==> 2 * (old(self).tasks().len() + 1) <= usize::MAX,
        ensures
            final(self).wf(),
            final(self).id() == old(self).id(),
            r == !(old(self).is_bounded() && old(self).tasks().len() >= old(self).limit()),
            final(self).tasks() == if r {
                old(self).tasks().push(task)
            } else {
                old(self).tasks()
            },
            final(self).head() == old(self).head(),
            final(self).claims() == old(self).claims(),
            final(self).is_bounded() == old(self).is_bounded(),
            final(self).limit() == old(self).limit(),
            final(self).slots() == if r && old(self).tasks().len() + 1 >= old(self).slots() {
                2 * old(self).slots()
            } else {
                old(self).slots()
            },
    {
        proof {
            self.lemma_fits();
        }
        let s = self.put_step(PutState::Start { task });
        if let PutState::Done(done) = s {
            return false;
        }
        proof {
            self.lemma_fits();
        }
        let s = self.put_step(s);
        let s = self.put_step(s);
        true
    }

    /// The active array holds every task that was put and no other: a consumer that looks there
    /// finds the task at `h` iff it was put, and gives up otherwise.
    pub proof fn every_task_is_found(&self, h: int)
        requires
            self.wf(),
        ensures
            0 <= h ==> (self.holds(self.retired(), h) <==> h < self.tasks().len()),
            0 <= self.head() <= self.tasks().len(),
    {
        self.lemma_fits();
        assert(self.array_wf(self.arrays@.len() - 1));
    }

    proof fn lemma_fits(&self)
        requires
            self.wf(),
        ensures
            self.tasks().len() < self.slots(),
            self.is_bounded() ==> self.slots() == self.limit() + 2,
            forall|h: int|
                0 <= h <= self.tasks().len() ==> #[trigger] self.holds(self.retired(), h) == (h
                    < self.tasks().len()),
            0 <= self.head() <= self.tasks().len() <= usize::MAX,
            0 <= self.retired() <= usize::MAX,
    {
        assert(self.array_wf(self.arrays@.len() - 1));
        assert(self.arrays@.len() == self.arrays.len());
    }

    /// Take from the head (owner).
    pub fn take(&mut self) -> (r: Take<T>)
        requires
            old(self).wf(),
        ensures
            final(self).wf(),
            final(self).id() == old(self).id(),
            final(self).tasks() == old(self).tasks(),
            final(self).slots() == old(self).slots(),
            final(self).is_bounded() == old(self).is_bounded(),
            final(self).limit() == old(self).limit(),
            final(self).claims() == old(self).claims(),
            taken(old(self).tasks(), old(self).head(), final(self).head(), r),
            match r {
                Take::Got(v) => old(self).head() < old(self).tasks().len() && cloned(
                    old(self).tasks()[old(self).head()],
                    v,
                ) && final(self).head() == old(self).head() + 1,
                Take::Empty => old(self).head() >= old(self).tasks().len() && final(self).head()
                    == old(self).head(),
            },
    {
        self.consume(Role::Owner)
    }

    /// A whole operation of a consumer that claims nothing.
    fn consume(&mut self, role: Role) -> (r: Take<T>)
        requires
            old(self).wf(),
            !(role is Exclusive),
        ensures
            final(self).wf(),
            final(self).id() == old(self).id(),
            final(self).tasks() == old(self).tasks(),
            final(self).slots() == old(self).slots(),
            final(self).is_bounded() == old(self).is_bounded(),
            final(self).limit() == old(self).limit(),
            final(self).claims() == old(self).claims(),
            taken(old(self).tasks(), old(self).head(), final(self).head(), r),
            match r {
                Take::Got(v) => old(self).head() < old(self).tasks().len() && cloned(
                    old(self).tasks()[old(self).head()],
                    v,
                ) && final(self).head() == old(self).head() + 1,
                Take::Empty => old(self).head() >= old(self).tasks().len() && final(self).head()
                    == old(self).head(),
            },
    {
        proof {
            self.lemma_fits();
        }
        let s = self.consumer_step(role, ConsumerState::Start);
        let s = self.consumer_step(role, s);
        proof {
            self.lemma_fits();
        }
        let s = self.consumer_step(role, s);
        let s = self.consumer_step(role, s);
        match s {
            ConsumerState::Done(Some(k)) => {
                let task = self.boxes[k].clone();
                assert(cloned(self.boxes@[k as int], task));
                Take::Got(task)
            },
            _ => Take::Empty,
        }
    }
}

impl<T> IdempotentWorker<T> {
    /// Slot `h` of array `a` exists and holds a task.
    pub closed spec fn holds(&self, a: int, h: int) -> bool {
        0 <= h < self.arrays@[a]@.cells.len() && self.arrays@[a]@.cells[h] is Some
    }
}

/// The task at `head` is delivered, as a clone, and `head` moves behind it; or there is none.
pub open spec fn taken<T: Clone>(tasks: Seq<T>, head: int, after: int, r: Take<T>) -> bool {
    if head < tasks.len() {
        &&& r matches Take::Got(v) && cloned(tasks[head], v)
        &&& after == head + 1
    } else {
        &&& r is Empty
        &&& after == head
    }
}

impl<T: Clone> Default for IdempotentWorker<T> {
    fn default() -> (w: Self)
        ensures
            w.wf(),
            w.tasks() == Seq::<T>::empty(),
            w.head() == 0,
            w.slots() == INITIAL_CAPACITY,
            w.slots() == 16,
            w.retired() == 0,
            !w.is_bounded(),
            w.claims() == Set::<int>::empty(),
    {
        Self::new()
    }
}

/// A thief handle for a queue with multiplicity.
pub struct IdempotentStealer<T> {
    of: Ghost<int>,
    marker: core::marker::PhantomData<T>,
}

impl<T> Clone for IdempotentStealer<T> {
    fn clone(&self) -> (s: Self)
        ensures
            s == *self,
    {
        IdempotentStealer { of: Ghost(self.of@), marker: core::marker::PhantomData }
    }
}

impl<T> IdempotentStealer<T> {
    /// The identity of the queue that this handle steals from.
    pub closed spec fn of(&self) -> int {
        self.of@
    }
}

impl<T: Clone> IdempotentStealer<T> {
    /// Steal from the head.
    pub fn steal(&self, victim: &mut IdempotentWorker<T>) -> (r: Take<T>)
        requires
            old(victim).wf(),
            self.of() == old(victim).id(),
        ensures
            final(victim).wf(),
            final(victim).id() == old(victim).id(),
            final(victim).tasks() == old(victim).tasks(),
            final(victim).slots() == old(victim).slots(),
            final(victim).is_bounded() == old(victim).is_bounded(),
            final(victim).limit() == old(victim).limit(),
            final(victim).claims() == old(victim).claims(),
            taken(old(victim).tasks(), old(victim).head(), final(victim).head(), r),
            match r {
                Take::Got(v) => old(victim).head() < old(victim).tasks().len() && cloned(
                    old(victim).tasks()[old(victim).head()],
                    v,
                ) && final(victim).head() == old(victim).head() + 1,
                Take::Empty => old(victim).head() >= old(victim).tasks().len() && final(victim).head()
                    == old(victim).head(),
            },
    {
        victim.consume(Role::Thief)
    }

    /// Steal from the head of a bounded queue, unless another thief has claimed the task: no two
    /// thieves that steal this way take the same task. Past a claimed task it moves the head, and
    /// reports nothing.
    pub fn steal_exclusive(&self, victim: &mut IdempotentWorker<T>) -> (r: Take<T>)
        requires
            old(victim).wf(),
            self.of() == old(victim).id(),
            old(victim).is_bounded(),
        ensures
            final(victim).wf(),
            final(victim).id() == old(victim).id(),
            final(victim).tasks() == old(victim).tasks(),
            final(victim).slots() == old(victim).slots(),
            final(victim).is_bounded(),
            final(victim).limit() == old(victim).limit(),
            if old(victim).claims().contains(old(victim).head()) && old(victim).head() < old(victim).tasks().len() {
                &&& r is Empty
                &&& final(victim).head() == old(victim).head() + 1
                &&& final(victim).claims() == old(victim).claims()
            } else {
                &&& taken(old(victim).tasks(), old(victim).head(), final(victim).head(), r)
                &&& r is Got <==> old(victim).head() < old(victim).tasks().len()
                &&& r is Got ==> cloned(old(victim).tasks()[old(victim).head()], r->Got_0)
                    && final(victim).head() == old(victim).head() + 1
                &&& r is Empty ==> final(victim).head() == old(victim).head()
                &&& final(victim).claims() == if r is Got {
                    old(victim).claims().insert(old(victim).head())
                } else {
                    old(victim).claims()
                }
            },
    {
        proof {
            victim.lemma_fits();
        }
        let s = victim.consumer_step(Role::Exclusive, ConsumerState::Start);
        let s = victim.consumer_step(Role::Exclusive, s);
        proof {
            victim.lemma_fits();
        }
        let s = victim.consumer_step(Role::Exclusive, s);
        let s = victim.consumer_step(Role::Exclusive, s);
        let s = victim.consumer_step(Role::Exclusive, s);
        match s {
            ConsumerState::Done(Some(k)) => {
                let task = victim.boxes[k].clone();
                assert(cloned(victim.boxes@[k as int], task));
                Take::Got(task)
            },
            _ => Take::Empty,
        }
    }
}

} // verus!
