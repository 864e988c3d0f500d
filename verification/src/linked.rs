//! Work stealing with multiplicity over a linked list of fixed-size nodes.
//!
//! The same contract as [`crate::idempotent`], over another store: when a node is full, the owner
//! links a fresh one behind it and never copies a task. Nodes are never moved or abandoned, so a
//! slow thief can always follow the links. Each thief remembers the node that it got to and walks
//! on from there.

use vstd::prelude::*;

use crate::idempotent;
use crate::multiplicity;
use crate::multiplicity::{Consumer, Shared};

pub use crate::idempotent::Take;

verus! {

/// Tasks per list node.
pub const NODE_SIZE: usize = 64;

/// A fixed-size node of the task list. `base` is the number of the task in its first slot.
pub struct Node {
    cells: Vec<Option<usize>>,
    next: Option<usize>,
    base: usize,
}

impl Node {
    /// A node of empty slots.
    fn new(base: usize) -> (r: Self)
        ensures
            r.base == base,
            r.next is None,
            r.cells@.len() == NODE_SIZE,
            forall|i: int| 0 <= i < NODE_SIZE ==> (#[trigger] r.cells@[i]) is None,
    {
        let mut cells: Vec<Option<usize>> = Vec::new();
        while cells.len() < NODE_SIZE
            invariant
                cells.len() <= NODE_SIZE,
                forall|i: int| 0 <= i < cells.len() ==> (#[trigger] cells@[i]) is None,
            decreases NODE_SIZE - cells.len(),
        {
            cells.push(None);
        }
        Node { cells, next: None, base }
    }
}

/// Where the owner stands in a put.
pub enum LinkedPut<T> {
    /// About to store the task.
    Start { task: T },
    /// The task is stored; about to publish the new tail.
    Stored { offset: usize },
    /// The tail is published; about to link a fresh node if the current one is full.
    Published { offset: usize },
    /// The put is complete.
    Done,
}

/// Where a consumer stands in its current operation.
#[derive(Clone, Copy, Debug, PartialEq, Eq, Structural)]
pub enum LinkedConsumer {
    /// About to load `head`.
    Start { node: usize },
    /// Has loaded `head`; about to load the tail.
    SeenHead { node: usize, head: usize },
    /// Walks to the node of the task at `head`, and has got to `node`.
    Walking { node: usize, head: usize },
    /// Has found the task; about to raise `head` behind it.
    SeenTask { node: usize, head: usize },
    /// The operation is complete at `node`, with the number of the task that is delivered.
    Done { node: usize, task: Option<usize> },
}

/// Where a consumer stands, as [`crate::multiplicity`] sees it.
pub open spec fn standing(s: LinkedConsumer) -> Consumer {
    match s {
        LinkedConsumer::Start { node } => Consumer::Idle,
        LinkedConsumer::SeenHead { node, head } => Consumer::Looking { head: head as int },
        LinkedConsumer::Walking { node, head } => Consumer::Looking { head: head as int },
        LinkedConsumer::SeenTask { node, head } => Consumer::Holding { head: head as int },
        LinkedConsumer::Done { node, task } => Consumer::Idle,
    }
}

/// What a step from `before` to `after` delivers.
pub open spec fn delivery(before: LinkedConsumer, after: LinkedConsumer) -> Option<int> {
    match (before, after) {
        (LinkedConsumer::Done { node: _, task: _ }, _) => None,
        (_, LinkedConsumer::Done { node, task: Some(k) }) => Some(k as int),
        _ => None,
    }
}

/// The single owner of a linked queue with multiplicity. Puts at the tail, takes from the head.
pub struct LinkedWorker<T> {
    boxes: Vec<T>,
    nodes: Vec<Node>,
    head: usize,
    shared_tail: usize,
    tail_node: usize,
    tail: usize,
    id: Ghost<int>,
}

impl<T> LinkedWorker<T> {
    /// The queue's identity, which its thief handles carry.
    pub closed spec fn id(&self) -> int {
        self.id@
    }

    /// Every task ever put, in order.
    pub closed spec fn tasks(&self) -> Seq<T> {
        self.boxes@
    }

    /// How far the queue is taken.
    pub closed spec fn head(&self) -> int {
        self.head as int
    }

    /// Number of tasks that are published to the consumers.
    pub closed spec fn published(&self) -> int {
        self.shared_tail as int
    }

    /// Number of nodes.
    pub closed spec fn nodes(&self) -> int {
        self.nodes@.len() as int
    }

    /// What the consumers share.
    pub open spec fn shared(&self) -> Shared {
        Shared { head: self.head(), put: self.published(), claimed: Set::empty() }
    }

    /// Node `i` is in its place, and its slots hold the tasks of their numbers.
    spec fn node_wf(&self, i: int) -> bool {
        let node = self.nodes@[i];
        &&& node.base == i * NODE_SIZE
        &&& node.cells@.len() == NODE_SIZE
        &&& node.next == if i + 1 < self.nodes@.len() {
            Some((i + 1) as usize)
        } else {
            None
        }
        &&& forall|j: int|
            0 <= j < NODE_SIZE ==> match #[trigger] node.cells@[j] {
                Some(k) => k == node.base + j && k < self.tail,
                None => node.base + j >= self.tail,
            }
    }

    /// The state between steps.
    pub closed spec fn sound(&self) -> bool {
        &&& self.nodes@.len() >= 1
        &&& self.tail_node == self.nodes@.len() - 1
        &&& self.boxes@.len() == self.tail
        &&& self.head <= self.shared_tail <= self.tail <= self.shared_tail + 1
        &&& (self.nodes@.len() - 1) * NODE_SIZE <= self.tail <= self.nodes@.len() * NODE_SIZE
        &&& forall|i: int| 0 <= i < self.nodes@.len() ==> #[trigger] self.node_wf(i)
    }

    /// The state between operations: every task is published, and there is room for one more.
    pub open spec fn wf(&self) -> bool {
        &&& self.sound()
        &&& self.published() == self.tasks().len()
        &&& self.nodes() == self.tasks().len() as int / NODE_SIZE as int + 1
    }

    /// The owner in state `s` of a put goes on where it left off.
    pub closed spec fn put_ready(&self, s: LinkedPut<T>) -> bool {
        match s {
            LinkedPut::Start { task } => self.tail < usize::MAX && self.shared_tail == self.tail
                && self.tail < self.nodes@.len() * NODE_SIZE,
            LinkedPut::Stored { offset } => self.tail == self.shared_tail + 1 && offset + 1
                + self.tail_node * NODE_SIZE == self.tail,
            LinkedPut::Published { offset } => self.tail == self.shared_tail && offset + 1
                + self.tail_node * NODE_SIZE == self.tail,
            LinkedPut::Done => true,
        }
    }

    /// A consumer in state `s` is at a node that exists and not past the task that it looks for.
    pub closed spec fn ready(&self, s: LinkedConsumer) -> bool {
        match s {
            LinkedConsumer::Start { node } => node < self.nodes@.len() && node * NODE_SIZE
                <= self.head,
            LinkedConsumer::SeenHead { node, head } => node < self.nodes@.len() && node * NODE_SIZE
                <= head <= self.head,
            LinkedConsumer::Walking { node, head } => node < self.nodes@.len() && node * NODE_SIZE
                <= head <= self.head && head < self.shared_tail,
            LinkedConsumer::SeenTask { node, head } => node < self.nodes@.len() && node * NODE_SIZE
                <= head <= self.head && head < self.shared_tail,
            LinkedConsumer::Done { node, task } => node < self.nodes@.len() && node * NODE_SIZE
                <= self.head && (task matches Some(k) ==> k < self.tail),
        }
    }
}

impl<T: Clone> LinkedWorker<T> {
    /// Create an empty linked queue.
    pub fn new() -> (w: Self)
        ensures
            w.wf(),
            w.tasks() == Seq::<T>::empty(),
            w.head() == 0,
            w.nodes() == 1,
    {
        let mut nodes: Vec<Node> = Vec::new();
        nodes.push(Node::new(0));
        let w = LinkedWorker {
            boxes: Vec::new(),
            nodes,
            head: 0,
            shared_tail: 0,
            tail_node: 0,
            tail: 0,
            id: Ghost(arbitrary()),
        };
        assert(w.node_wf(0));
        w
    }

    /// A thief handle, at the first node.
    pub fn stealer(&self) -> (s: LinkedStealer<T>)
        ensures
            s.of() == self.id(),
            s.wf(),
            s.node() == 0,
    {
        LinkedStealer {
            cur_node: 0,
            cur_base: 0,
            of: Ghost(self.id@),
            marker: core::marker::PhantomData,
        }
    }

    /// Number of nodes in the list.
    pub fn node_count(&self) -> (r: usize)
        requires
            self.sound(),
        ensures
            r == self.nodes(),
    {
        let mut n: usize = 0;
        let mut node: Option<usize> = Some(0);
        assert(self.nodes@.len() == self.nodes.len());
        while node.is_some()
            invariant
                self.sound(),
                self.nodes@.len() <= usize::MAX,
                n <= self.nodes@.len(),
                node == if n < self.nodes@.len() {
                    Some(n)
                } else {
                    None
                },
            decreases self.nodes@.len() - n,
        {
            let i = node.unwrap();
            assert(self.node_wf(i as int));
            n += 1;
            node = self.nodes[i].next;
        }
        n
    }

    /// One step of a put.
    pub fn put_step(&mut self, s: LinkedPut<T>) -> (r: LinkedPut<T>)
        requires
            old(self).sound(),
            old(self).put_ready(s),
        ensures
            final(self).sound(),
            final(self).put_ready(r),
            final(self).id() == old(self).id(),
            multiplicity::puts(old(self).shared(), final(self).shared()),
            final(self).head() == old(self).head(),
            forall|c: LinkedConsumer| old(self).ready(c) ==> #[trigger] final(self).ready(c),
            match s {
                LinkedPut::Start { task } => {
                    &&& r is Stored
                    &&& final(self).tasks() == old(self).tasks().push(task)
                    &&& final(self).published() == old(self).published()
                    &&& final(self).nodes() == old(self).nodes()
                },
                LinkedPut::Stored { offset } => {
                    &&& r == LinkedPut::<T>::Published { offset }
                    &&& final(self).tasks() == old(self).tasks()
                    &&& final(self).published() == old(self).tasks().len()
                    &&& final(self).nodes() == old(self).nodes()
                },
                LinkedPut::Published { offset } => {
                    &&& r is Done
                    &&& final(self).tasks() == old(self).tasks()
                    &&& final(self).published() == old(self).published()
                    &&& final(self).nodes() == old(self).nodes() + if offset + 1 == NODE_SIZE {
                        1int
                    } else {
                        0
                    }
                },
                LinkedPut::Done => r is Done && *final(self) == *old(self),
            },
    {
        let last = self.tail_node;
        let ghost before = *self;
        assert(self.node_wf(last as int));
        match s {
            LinkedPut::Start { task } => {
                let offset = self.tail - self.nodes[last].base;
                let tail = self.tail;
                self.boxes.push(task);
                self.nodes[last].cells[offset] = Some(tail);
                self.tail = tail + 1;
                proof {
                    assert forall|i: int| 0 <= i < self.nodes@.len() implies
                        #[trigger] self.node_wf(i) by {
                        assert(before.node_wf(i));
                    }
                }
                LinkedPut::Stored { offset }
            },
            LinkedPut::Stored { offset } => {
                self.shared_tail = self.tail;
                proof {
                    assert forall|i: int| 0 <= i < self.nodes@.len() implies
                        #[trigger] self.node_wf(i) by {
                        assert(before.node_wf(i));
                    }
                }
                LinkedPut::Published { offset }
            },
            LinkedPut::Published { offset } => {
                if offset + 1 == NODE_SIZE {
                    let fresh = self.nodes.len();
                    self.nodes[last].next = Some(fresh);
                    self.nodes.push(Node::new(self.tail));
                    self.tail_node = fresh;
                    proof {
                        assert forall|i: int| 0 <= i < self.nodes@.len() implies
                            #[trigger] self.node_wf(i) by {
                            if i < before.nodes@.len() {
                                assert(before.node_wf(i));
                            }
                        }
                    }
                }
                LinkedPut::Done
            },
            LinkedPut::Done => LinkedPut::Done,
        }
    }

    /// Put a task at the tail: store it in the current node, and link a fresh node when it is
    /// full.
    pub fn put(&mut self, task: T)
        requires
            old(self).wf(),
            old(self).tasks().len() < usize::MAX,
        ensures
            final(self).wf(),
            final(self).tasks() == old(self).tasks().push(task),
            final(self).head() == old(self).head(),
            final(self).id() == old(self).id(),
            final(self).nodes() == (old(self).tasks().len() + 1) / 64 + 1,
    {
        let s = self.put_step(LinkedPut::Start { task });
        let s = self.put_step(s);
        let s = self.put_step(s);
    }

    /// One step of a consumer.
    pub fn consumer_step(&mut self, s: LinkedConsumer) -> (r: LinkedConsumer)
        requires
            old(self).sound(),
            old(self).ready(s),
        ensures
            final(self).sound(),
            final(self).ready(r),
            final(self).id() == old(self).id(),
            final(self).tasks() == old(self).tasks(),
            final(self).published() == old(self).published(),
            final(self).nodes() == old(self).nodes(),
            multiplicity::moves(
                false,
                old(self).shared(),
                standing(s),
                final(self).shared(),
                standing(r),
                delivery(s, r),
            ),
            forall|c: LinkedConsumer| old(self).ready(c) ==> #[trigger] final(self).ready(c),
            forall|p: LinkedPut<T>| old(self).put_ready(p) ==> #[trigger] final(self).put_ready(p),
            match s {
                LinkedConsumer::Start { node } => {
                    &&& r == (LinkedConsumer::SeenHead { node, head: old(self).head() as usize })
                    &&& final(self).head() == old(self).head()
                },
                LinkedConsumer::SeenHead { node, head } => {
                    &&& r == if head >= old(self).published() {
                        LinkedConsumer::Done { node, task: None }
                    } else {
                        LinkedConsumer::Walking { node, head }
                    }
                    &&& final(self).head() == old(self).head()
                },
                LinkedConsumer::Walking { node, head } => {
                    &&& r == if head - node * NODE_SIZE >= NODE_SIZE {
                        LinkedConsumer::Walking { node: (node + 1) as usize, head }
                    } else {
                        LinkedConsumer::SeenTask { node, head }
                    }
                    &&& final(self).head() == old(self).head()
                },
                LinkedConsumer::SeenTask { node, head } => {
                    &&& r == (LinkedConsumer::Done { node, task: Some(head) })
                    &&& final(self).head() == if old(self).head() <= head {
                        head + 1
                    } else {
                        old(self).head()
                    }
                },
                LinkedConsumer::Done { node, task } => r == s && *final(self) == *old(self),
            },
    {
        let ghost before = *self;
        match s {
            LinkedConsumer::Start { node } => LinkedConsumer::SeenHead { node, head: self.head },
            LinkedConsumer::SeenHead { node, head } => {
                if head >= self.shared_tail {
                    LinkedConsumer::Done { node, task: None }
                } else {
                    LinkedConsumer::Walking { node, head }
                }
            },
            LinkedConsumer::Walking { node, head } => {
                assert(self.node_wf(node as int));
                let base = self.nodes[node].base;
                if head - base >= NODE_SIZE {
                    match self.nodes[node].next {
                        Some(next) => LinkedConsumer::Walking { node: next, head },
                        None => LinkedConsumer::Done { node, task: None },
                    }
                } else {
                    let offset = head - base;
                    match self.nodes[node].cells[offset] {
                        Some(k) => LinkedConsumer::SeenTask { node, head },
                        None => LinkedConsumer::Done { node, task: None },
                    }
                }
            },
            LinkedConsumer::SeenTask { node, head } => {
                if self.head < head + 1 {
                    self.head = head + 1;
                }
                proof {
                    assert forall|i: int| 0 <= i < self.nodes@.len() implies
                        #[trigger] self.node_wf(i) by {
                        assert(before.node_wf(i));
                    }
                }
                LinkedConsumer::Done { node, task: Some(head) }
            },
            LinkedConsumer::Done { node, task } => LinkedConsumer::Done { node, task },
        }
    }

    /// A whole operation of a consumer that starts its walk at `node`, and where the walk ended.
    fn consume(&mut self, node: usize) -> (r: (Take<T>, usize))
        requires
            old(self).wf(),
            node < old(self).nodes(),
            node * NODE_SIZE <= old(self).head(),
        ensures
            final(self).wf(),
            final(self).id() == old(self).id(),
            final(self).tasks() == old(self).tasks(),
            idempotent::taken(old(self).tasks(), old(self).head(), final(self).head(), r.0),
            match r.0 {
                Take::Got(v) => old(self).head() < old(self).tasks().len() && cloned(
                    old(self).tasks()[old(self).head()],
                    v,
                ) && final(self).head() == old(self).head() + 1,
                Take::Empty => old(self).head() >= old(self).tasks().len() && final(self).head()
                    == old(self).head(),
            },
            r.1 < final(self).nodes(),
            r.1 * NODE_SIZE <= final(self).head(),
            r.1 == if old(self).head() < old(self).tasks().len() {
                old(self).head() / NODE_SIZE as int
            } else {
                node as int
            },
    {
        let s = self.consumer_step(LinkedConsumer::Start { node });
        let mut s = self.consumer_step(s);
        if let LinkedConsumer::Done { node: end, task } = s {
            return (Take::Empty, end);
        }
        let ghost head = self.head;
        loop
            invariant
                self.sound(),
                self.ready(s),
                self.id() == old(self).id(),
                self.tasks() == old(self).tasks(),
                self.published() == old(self).published(),
                self.nodes() == old(self).nodes(),
                self.head() == old(self).head() == head,
                head < self.tasks().len(),
                match s {
                    LinkedConsumer::Walking { node: at, head: h } => h == head,
                    LinkedConsumer::SeenTask { node: at, head: h } => h == head && h - at
                        * NODE_SIZE < NODE_SIZE,
                    _ => false,
                },
            ensures
                s is SeenTask,
            decreases
                    match s {
                        LinkedConsumer::Walking { node: at, head: h } => self.nodes() - at,
                        _ => 0,
                    },
        {
            match s {
                LinkedConsumer::Walking { node: at, head: h } => {
                    s = self.consumer_step(s);
                },
                _ => {
                    break;
                },
            }
        }
        let s = self.consumer_step(s);
        match s {
            LinkedConsumer::Done { node: end, task: Some(k) } => {
                let task = self.boxes[k].clone();
                assert(cloned(self.boxes@[k as int], task));
                (Take::Got(task), end)
            },
            _ => (Take::Empty, node),
        }
    }

    /// Take the head task (owner). Walks from the first node.
    pub fn take(&mut self) -> (r: Take<T>)
        requires
            old(self).wf(),
        ensures
            final(self).wf(),
            final(self).id() == old(self).id(),
            final(self).tasks() == old(self).tasks(),
            idempotent::taken(old(self).tasks(), old(self).head(), final(self).head(), r),
            match r {
                Take::Got(v) => old(self).head() < old(self).tasks().len() && cloned(
                    old(self).tasks()[old(self).head()],
                    v,
                ) && final(self).head() == old(self).head() + 1,
                Take::Empty => old(self).head() >= old(self).tasks().len() && final(self).head()
                    == old(self).head(),
            },
    {
        let (r, end) = self.consume(0);
        r
    }
}

impl<T: Clone> Default for LinkedWorker<T> {
    fn default() -> (w: Self)
        ensures
            w.wf(),
            w.tasks() == Seq::<T>::empty(),
            w.head() == 0,
            w.nodes() == 1,
    {
        Self::new()
    }
}

/// A thief for a linked queue with multiplicity. It remembers the node that it got to.
pub struct LinkedStealer<T> {
    cur_node: usize,
    cur_base: usize,
    of: Ghost<int>,
    marker: core::marker::PhantomData<T>,
}

impl<T> LinkedStealer<T> {
    /// The identity of the queue that this handle steals from.
    pub closed spec fn of(&self) -> int {
        self.of@
    }

    /// The remembered node.
    pub closed spec fn node(&self) -> int {
        self.cur_node as int
    }

    /// The remembered base is that of the remembered node.
    pub closed spec fn wf(&self) -> bool {
        self.cur_base == self.cur_node * NODE_SIZE
    }

    /// The remembered node is one of the queue's, and not past its head.
    pub open spec fn follows(&self, victim: &LinkedWorker<T>) -> bool {
        self.wf() && self.node() < victim.nodes() && self.node() * NODE_SIZE <= victim.head()
    }
}

impl<T> Clone for LinkedStealer<T> {
    /// A handle for the same queue, at the first node.
    fn clone(&self) -> (s: Self)
        ensures
            s.of() == self.of(),
            s.wf(),
            s.node() == 0,
    {
        LinkedStealer {
            cur_node: 0,
            cur_base: 0,
            of: Ghost(self.of@),
            marker: core::marker::PhantomData,
        }
    }
}

impl<T: Clone> LinkedStealer<T> {
    /// Steal the head task: walk on from the remembered node to the one that holds it.
    pub fn steal(&mut self, victim: &mut LinkedWorker<T>) -> (r: Take<T>)
        requires
            old(victim).wf(),
            old(self).of() == old(victim).id(),
            old(self).follows(old(victim)),
        ensures
            final(victim).wf(),
            final(victim).id() == old(victim).id(),
            final(victim).tasks() == old(victim).tasks(),
            idempotent::taken(old(victim).tasks(), old(victim).head(), final(victim).head(), r),
            match r {
                Take::Got(v) => old(victim).head() < old(victim).tasks().len() && cloned(
                    old(victim).tasks()[old(victim).head()],
                    v,
                ) && final(victim).head() == old(victim).head() + 1,
                Take::Empty => old(victim).head() >= old(victim).tasks().len() && final(victim).head()
                    == old(victim).head(),
            },
            final(self).of() == old(self).of(),
            final(self).follows(final(victim)),
            final(self).node() == if r is Got {
                old(victim).head() / NODE_SIZE as int
            } else {
                old(self).node()
            },
    {
        let (r, end) = victim.consume(self.cur_node);
        proof {
            victim.lemma_bases();
        }
        self.cur_node = end;
        self.cur_base = end * NODE_SIZE;
        r
    }
}

impl<T> LinkedWorker<T> {
    proof fn lemma_bases(&self)
        requires
            self.sound(),
        ensures
            forall|i: int| 0 <= i < self.nodes() ==> #[trigger] (i * NODE_SIZE) <= usize::MAX,
    {
        assert forall|i: int| 0 <= i < self.nodes() implies #[trigger] (i * NODE_SIZE)
            <= usize::MAX by {
            assert(self.node_wf(i));
        }
    }
}

} // verus!
