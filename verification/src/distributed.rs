//! Distributed work stealing: nodes that share nothing and balance load by messages.
//!
//! Each node owns its tasks. A starving node sends a steal request to a random other node, which
//! answers with up to half of its surplus. A global count of outstanding tasks decides when all
//! work is done. A [`Node`] is what one node keeps, and a [`Phase`] is where it stands: its methods
//! take it from one phase to the next by what has happened, and a driver delivers the messages,
//! runs the tasks and keeps the count. [`crate::distribution`] proves what holds when the nodes'
//! steps and their messages interleave.

use vstd::prelude::*;

use crate::scheduler;

verus! {

/// A message between nodes.
pub enum Message<T> {
    /// Node `from` is starving.
    StealRequest { from: usize },
    /// Tasks that move to the node that asked for them; none if it was declined.
    Work(Vec<T>),
}

/// Statistics of a distributed run.
#[derive(Debug, Clone, Copy)]
pub struct DistStats {
    /// Steal requests sent across nodes.
    pub steal_messages: usize,
    /// Tasks that moved across nodes.
    pub migrated_tasks: usize,
    pub nodes: usize,
}

impl DistStats {
    /// The statistics of a run of `nodes` nodes that has not started.
    pub fn new(nodes: usize) -> (r: Self)
        ensures
            r == (DistStats { steal_messages: 0, migrated_tasks: 0, nodes }),
    {
        DistStats { steal_messages: 0, migrated_tasks: 0, nodes }
    }

    /// Count a steal request, whether or not it is delivered.
    pub fn on_request(&mut self)
        ensures
            *final(self) == (DistStats {
                steal_messages: old(self).steal_messages.wrapping_add(1),
                ..*old(self)
            }),
    {
        self.steal_messages = self.steal_messages.wrapping_add(1);
    }

    /// Count the tasks that a reply has moved, as [`Node::on_reply_sent`] gives them.
    pub fn on_moved(&mut self, moved: usize)
        ensures
            *final(self) == (DistStats {
                migrated_tasks: old(self).migrated_tasks.wrapping_add(moved),
                ..*old(self)
            }),
    {
        self.migrated_tasks = self.migrated_tasks.wrapping_add(moved);
    }
}

/// Number of tasks that a node with `len` tasks gives away: half of what it has beyond one.
pub open spec fn share(len: int) -> int {
    if len == 0 {
        0
    } else {
        (len - 1) / 2
    }
}

/// Where a node stands, and what its driver does next.
pub enum Phase<T> {
    /// About to look into its mailbox: receive a message and go on with [`Node::on_mail`].
    Mailbox,
    /// Has tasks for node `to`: send them and go on with [`Node::on_reply_sent`].
    Reply { to: usize, batch: Vec<T> },
    /// The mailbox is empty: go on with [`Node::on_local`].
    Local,
    /// Has a task: run it, and go on with [`Node::on_done`].
    Run { task: T },
    /// Has nothing to do: load the count of outstanding tasks and go on with [`Node::on_count`].
    Check,
    /// Asks node `victim` for tasks: count the request with [`DistStats::on_request`], send it, and
    /// go on with [`Node::on_request_sent`].
    Ask { victim: usize },
    /// Yields, and goes on with [`Phase::Mailbox`].
    Rest,
    /// Has left.
    Left,
}

/// A phase as a mathematical value.
pub enum PhaseState<T> {
    Mailbox,
    Reply { to: usize, batch: Seq<T> },
    Local,
    Run { task: T },
    /// The task is done; about to be counted.
    Count,
    Check,
    Ask { victim: usize },
    Rest,
    Left,
}

impl<T> View for Phase<T> {
    type V = PhaseState<T>;

    open spec fn view(&self) -> PhaseState<T> {
        match self {
            Phase::Mailbox => PhaseState::Mailbox,
            Phase::Reply { to, batch } => PhaseState::Reply { to: *to, batch: batch@ },
            Phase::Local => PhaseState::Local,
            Phase::Run { task } => PhaseState::Run { task: *task },
            Phase::Check => PhaseState::Check,
            Phase::Ask { victim } => PhaseState::Ask { victim: *victim },
            Phase::Rest => PhaseState::Rest,
            Phase::Left => PhaseState::Left,
        }
    }
}

/// A message as a mathematical value.
pub enum Mail<T> {
    Request { from: usize },
    Work { tasks: Seq<T> },
}

impl<T> View for Message<T> {
    type V = Mail<T>;

    open spec fn view(&self) -> Mail<T> {
        match self {
            Message::StealRequest { from } => Mail::Request { from: *from },
            Message::Work(batch) => Mail::Work { tasks: batch@ },
        }
    }
}

/// The random number after `x`.
pub fn xorshift(x: u64) -> (r: u64)
    ensures
        r == scheduler::shifted(x),
        ({
            let b = r ^ (r << 17u64) ^ (r << 34u64) ^ (r << 51u64);
            let a = b ^ (b >> 7u64) ^ (b >> 14u64) ^ (b >> 21u64) ^ (b >> 28u64) ^ (b >> 35u64) ^ (b
                >> 42u64) ^ (b >> 49u64) ^ (b >> 56u64) ^ (b >> 63u64);
            x == a ^ (a << 13u64) ^ (a << 26u64) ^ (a << 39u64) ^ (a << 52u64)
        }),
{
    scheduler::xorshift(x)
}

/// A handle that a task uses to emit child tasks, which stay on its node.
pub struct NodeSpawner<'a, T> {
    local: &'a mut Vec<T>,
    outstanding: &'a mut usize,
}

impl<'a, T> NodeSpawner<'a, T> {
    /// A handle for the node with tasks `local`, which counts tasks in `outstanding`.
    pub fn new(local: &'a mut Vec<T>, outstanding: &'a mut usize) -> (r: Self)
        ensures
            *r.local() == *old(local),
            *r.outstanding() == *old(outstanding),
            *final(r.local()) == *final(local),
            *final(r.outstanding()) == *final(outstanding),
    {
        NodeSpawner { local, outstanding }
    }

    /// The tasks of the node.
    pub closed spec fn local(self) -> &'a mut Vec<T> {
        self.local
    }

    /// The count of outstanding tasks.
    pub closed spec fn outstanding(self) -> &'a mut usize {
        self.outstanding
    }

    /// Once a handle is no longer used, the node and the count are what it has left.
    pub proof fn handle_ends(s: NodeSpawner<'a, T>)
        requires
            has_resolved(s),
        ensures
            *s.local() == *final(s.local()),
            *s.outstanding() == *final(s.outstanding()),
    {
    }

    /// Emit a child task.
    pub fn spawn(&mut self, task: T)
        requires
            *old(self).outstanding() < usize::MAX,
        ensures
            final(self).local()@ == old(self).local()@.push(task),
            *final(self).outstanding() == *old(self).outstanding() + 1,
            *final(final(self).local()) == *final(old(self).local()),
            *final(final(self).outstanding()) == *final(old(self).outstanding()),
    {
        *self.outstanding = *self.outstanding + 1;
        self.local.push(task);
    }
}

/// What one node keeps, as a mathematical value.
#[verifier::ext_equal]
pub struct NodeState<T> {
    pub local: Seq<T>,
    pub rng: u64,
    pub pending: bool,
}

impl<T> NodeState<T> {
    /// The tasks that the node gives to one that asks: the newest ones.
    pub open spec fn given(self) -> Seq<T> {
        self.local.skip(self.local.len() - share(self.local.len() as int))
    }

    /// The node after it has given tasks away.
    pub open spec fn answered(self) -> NodeState<T> {
        NodeState {
            local: self.local.take(self.local.len() - share(self.local.len() as int)),
            ..self
        }
    }

    /// The node after the reply to its request has arrived.
    pub open spec fn accepted(self, batch: Seq<T>) -> NodeState<T> {
        NodeState { local: self.local + batch, pending: false, ..self }
    }

    /// The node after it has drawn its next victim, if it is to ask one.
    pub open spec fn drawn(self, n: int) -> NodeState<T> {
        if !self.pending && n > 1 {
            NodeState { rng: scheduler::shifted(self.rng), ..self }
        } else {
            self
        }
    }

    /// The victim that the node asks, if any.
    pub open spec fn victim(self, id: usize, n: usize) -> Option<usize> {
        let drawn = ((scheduler::shifted(self.rng) as usize) % n) as usize;
        if !self.pending && n > 1 && drawn != id {
            Some(drawn)
        } else {
            None
        }
    }
}

/// The node and its phase after a look into the mailbox.
pub open spec fn mail_next<T>(s: NodeState<T>, m: Option<Mail<T>>) -> (
    NodeState<T>,
    PhaseState<T>,
) {
    match m {
        Some(Mail::Request { from }) => (
            s.answered(),
            PhaseState::Reply { to: from, batch: s.given() },
        ),
        Some(Mail::Work { tasks }) => (s.accepted(tasks), PhaseState::Mailbox),
        None => (s, PhaseState::Local),
    }
}

/// The node and its phase after a look at its own tasks.
pub open spec fn local_next<T>(s: NodeState<T>) -> (NodeState<T>, PhaseState<T>) {
    if s.local.len() > 0 {
        (
            NodeState { local: s.local.drop_last(), ..s },
            PhaseState::Run { task: s.local.last() },
        )
    } else {
        (s, PhaseState::Check)
    }
}

/// The node and its phase after a look at the count of outstanding tasks.
pub open spec fn count_next<T>(s: NodeState<T>, id: usize, n: usize, outstanding: int) -> (
    NodeState<T>,
    PhaseState<T>,
) {
    if outstanding == 0 {
        (s, PhaseState::Left)
    } else {
        (
            s.drawn(n as int),
            match s.victim(id, n) {
                Some(victim) => PhaseState::Ask { victim },
                None => PhaseState::Rest,
            },
        )
    }
}

/// The node and its phase after the attempt to send a request.
pub open spec fn request_next<T>(s: NodeState<T>, delivered: bool) -> (
    NodeState<T>,
    PhaseState<T>,
) {
    (
        if delivered {
            NodeState { pending: true, ..s }
        } else {
            s
        },
        PhaseState::Rest,
    )
}

/// A node that is asked gives away half of what it has beyond one task, rounded down: with two or
/// more tasks, twice what it gives is one or two less than what it has. It gives its newest tasks,
/// keeps the others in their order, and declines only if it has at most two.
pub proof fn a_node_gives_half_of_its_surplus<T>(s: NodeState<T>, from: usize)
    ensures
        ({
            let (n, p) = mail_next(s, Some(Mail::Request { from }));
            let given = p->batch;
            let had = s.local.len() as int;
            &&& p is Reply && p->to == from
            &&& n.local + given == s.local
            &&& had <= 1 ==> given.len() == 0
            &&& had >= 2 ==> had - 2 <= 2 * given.len() <= had - 1
            &&& had >= 3 ==> given.len() >= 1
            &&& had >= 1 ==> n.local.len() > given.len()
            &&& n.rng == s.rng && n.pending == s.pending
        }),
{
    let n = s.answered();
    assert(n.local + s.given() =~= s.local);
}

/// A node that is declined or given tasks may ask again, and has the tasks behind its own; an empty
/// mailbox changes nothing.
pub proof fn a_node_keeps_what_it_is_given<T>(s: NodeState<T>, tasks: Seq<T>)
    ensures
        ({
            let (n, p) = mail_next(s, Some(Mail::Work { tasks }));
            &&& p is Mailbox
            &&& n.local.len() == s.local.len() + tasks.len()
            &&& forall|i: int|
                0 <= i < s.local.len() ==> #[trigger] n.local[i] == s.local[i]
            &&& forall|i: int|
                0 <= i < tasks.len() ==> n.local[s.local.len() + i] == #[trigger] tasks[i]
            &&& !n.pending && n.rng == s.rng
        }),
        mail_next(s, None) == (s, PhaseState::<T>::Local),
{
}

/// A node with tasks runs its newest one, and only a node without any looks at the count.
pub proof fn a_node_runs_its_newest_task<T>(s: NodeState<T>)
    ensures
        ({
            let (n, p) = local_next(s);
            &&& s.local.len() == 0 ==> p is Check && n == s
            &&& s.local.len() > 0 ==> p is Run && n.local.push(p->task) == s.local && n.rng == s.rng
                && n.pending == s.pending
        }),
{
    if s.local.len() > 0 {
        assert(s.local.drop_last().push(s.local.last()) =~= s.local);
    }
}

/// A node leaves iff no task is outstanding. Otherwise it asks the node that its next random number
/// falls on, unless that is itself; a node that waits for a reply, or is alone, draws none. It
/// never asks while a request of its own is under way, and one that was not delivered is not.
pub proof fn a_node_asks_one_node_at_a_time<T>(
    s: NodeState<T>,
    id: usize,
    nodes: usize,
    outstanding: int,
    delivered: bool,
)
    requires
        id < nodes,
    ensures
        ({
            let (n, p) = count_next(s, id, nodes, outstanding);
            let next = scheduler::shifted(s.rng);
            let fell = (next as usize) as int % nodes as int;
            &&& p is Left <==> outstanding == 0
            &&& p is Left || p is Ask || p is Rest
            &&& p is Ask <==> outstanding != 0 && !s.pending && nodes > 1 && fell != id
            &&& p is Ask ==> p->victim == fell && p->victim < nodes && p->victim != id
            &&& n.local == s.local && n.pending == s.pending
            &&& n.rng == if outstanding != 0 && !s.pending && nodes > 1 {
                next
            } else {
                s.rng
            }
        }),
        ({
            let (n, p) = request_next(s, delivered);
            &&& p is Rest
            &&& n.pending <==> delivered || s.pending
            &&& n.local == s.local && n.rng == s.rng
        }),
{
}

/// What one node keeps: its number, its tasks, its random numbers, and whether it waits for the
/// reply to a steal request.
pub struct Node<T> {
    id: usize,
    nodes: usize,
    local: Vec<T>,
    rng: u64,
    pending_request: bool,
}

impl<T> View for Node<T> {
    type V = NodeState<T>;

    closed spec fn view(&self) -> NodeState<T> {
        NodeState { local: self.local@, rng: self.rng, pending: self.pending_request }
    }
}

impl<T> Node<T> {
    /// The number of the node.
    pub closed spec fn id(&self) -> usize {
        self.id
    }

    /// Number of nodes.
    pub closed spec fn nodes(&self) -> usize {
        self.nodes
    }

    /// Node `id` of `nodes`, which starts with the tasks `seed`.
    pub fn new(id: usize, nodes: usize, seed: Vec<T>) -> (r: Self)
        requires
            id < nodes,
        ensures
            r.id() == id,
            r.nodes() == nodes,
            r@ == (NodeState { local: seed@, rng: scheduler::seed(id), pending: false }),
    {
        Node { id, nodes, local: seed, rng: scheduler::seed_rng(id), pending_request: false }
    }

    /// Answer a steal request: give away half of what the node has beyond one task.
    pub fn answer(&mut self) -> (batch: Vec<T>)
        ensures
            batch@ == old(self)@.given(),
            final(self)@ == old(self)@.answered(),
            final(self)@.local + batch@ == old(self)@.local,
            old(self)@.local.len() <= 1 ==> batch@.len() == 0,
            old(self)@.local.len() >= 2 ==> old(self)@.local.len() - 2 <= 2 * batch@.len()
                <= old(self)@.local.len() - 1,
            final(self).id() == old(self).id(),
            final(self).nodes() == old(self).nodes(),
    {
        let len = self.local.len();
        let give: usize = if len == 0 {
            0
        } else {
            (len - 1) / 2
        };
        let batch: Vec<T> = if give > 0 {
            self.local.split_off(len - give)
        } else {
            Vec::new()
        };
        assert(batch@ =~= old(self)@.given());
        assert(self.local@ =~= old(self)@.answered().local);
        assert(self.local@ + batch@ =~= old(self)@.local);
        batch
    }

    /// Absorb the reply to a steal request, and allow a new one.
    pub fn accept(&mut self, batch: Vec<T>)
        ensures
            final(self)@ == old(self)@.accepted(batch@),
            final(self)@.local == old(self)@.local + batch@,
            !final(self)@.pending,
            final(self).id() == old(self).id(),
            final(self).nodes() == old(self).nodes(),
    {
        let mut batch = batch;
        self.local.append(&mut batch);
        self.pending_request = false;
    }

    /// What follows a look into the mailbox: answer a request, absorb a reply, or turn to the
    /// node's own tasks.
    pub fn on_mail(&mut self, message: Option<Message<T>>) -> (r: Phase<T>)
        ensures
            final(self).id() == old(self).id(),
            final(self).nodes() == old(self).nodes(),
            (final(self)@, r@) == mail_next(
                old(self)@,
                match message {
                    Some(m) => Some(m@),
                    None => None,
                },
            ),
            match message {
                Some(Message::StealRequest { from }) => {
                    let had = old(self)@.local.len() as int;
                    &&& r@ is Reply && r@->to == from
                    &&& final(self)@.local + r@->batch == old(self)@.local
                    &&& had <= 1 ==> r@->batch.len() == 0
                    &&& had >= 2 ==> had - 2 <= 2 * r@->batch.len() <= had - 1
                },
                Some(Message::Work(batch)) => {
                    &&& r is Mailbox
                    &&& final(self)@.local == old(self)@.local + batch@
                    &&& !final(self)@.pending
                },
                None => r is Local && final(self)@ == old(self)@,
            },
    {
        match message {
            Some(Message::StealRequest { from }) => {
                let batch = self.answer();
                Phase::Reply { to: from, batch }
            },
            Some(Message::Work(batch)) => {
                self.accept(batch);
                Phase::Mailbox
            },
            None => Phase::Local,
        }
    }

    /// What follows the attempt to send a reply, and how many tasks have moved by it.
    pub fn on_reply_sent(tasks: usize, delivered: bool) -> (r: (Phase<T>, usize))
        ensures
            r.0@ == PhaseState::<T>::Mailbox,
            r.1 == if delivered {
                tasks
            } else {
                0
            },
    {
        let moved: usize = if delivered {
            tasks
        } else {
            0
        };
        (Phase::Mailbox, moved)
    }

    /// What follows an empty mailbox: run the newest task of the node, if it has one.
    pub fn on_local(&mut self) -> (r: Phase<T>)
        ensures
            final(self).id() == old(self).id(),
            final(self).nodes() == old(self).nodes(),
            (final(self)@, r@) == local_next(old(self)@),
            match r {
                Phase::Run { task } => old(self)@.local == final(self)@.local.push(task),
                Phase::Check => old(self)@.local.len() == 0 && final(self)@ == old(self)@,
                _ => false,
            },
    {
        match self.local.pop() {
            Some(task) => {
                assert(old(self)@.local =~= self@.local.push(task));
                Phase::Run { task }
            },
            None => Phase::Check,
        }
    }

    /// What follows the end of a task, and the count of outstanding tasks without it.
    pub fn on_done(outstanding: usize) -> (r: (Phase<T>, usize))
        requires
            outstanding > 0,
        ensures
            r.0@ == PhaseState::<T>::Mailbox,
            r.1 == outstanding - 1,
    {
        (Phase::Mailbox, outstanding - 1)
    }

    /// What follows a look at the count of outstanding tasks: leave if there are none, else ask a
    /// random node, unless this one waits for a reply, is alone, or draws itself.
    pub fn on_count(&mut self, outstanding: usize) -> (r: Phase<T>)
        requires
            old(self).id() < old(self).nodes(),
        ensures
            final(self).id() == old(self).id(),
            final(self).nodes() == old(self).nodes(),
            (final(self)@, r@) == count_next(
                old(self)@,
                old(self).id(),
                old(self).nodes(),
                outstanding as int,
            ),
            final(self)@.local == old(self)@.local,
            match r {
                Phase::Left => outstanding == 0,
                Phase::Ask { victim } => outstanding != 0 && !old(self)@.pending && victim
                    == (final(self)@.rng as usize) as int % old(self).nodes() as int && victim
                    != old(self).id(),
                Phase::Rest => outstanding != 0 && (old(self)@.pending || old(self).nodes() <= 1
                    || (final(self)@.rng as usize) as int % old(self).nodes() as int
                    == old(self).id()),
                _ => false,
            },
    {
        if outstanding == 0 {
            return Phase::Left;
        }
        if self.pending_request || self.nodes <= 1 {
            return Phase::Rest;
        }
        self.rng = xorshift(self.rng);
        let victim = (self.rng as usize) % self.nodes;
        if victim != self.id {
            Phase::Ask { victim }
        } else {
            Phase::Rest
        }
    }

    /// What follows the attempt to send a request: the node waits for a reply if it was delivered.
    pub fn on_request_sent(&mut self, delivered: bool) -> (r: Phase<T>)
        ensures
            final(self).id() == old(self).id(),
            final(self).nodes() == old(self).nodes(),
            (final(self)@, r@) == request_next(old(self)@, delivered),
            r is Rest,
            final(self)@.pending == (old(self)@.pending || delivered),
    {
        if delivered {
            self.pending_request = true;
        }
        Phase::Rest
    }

    /// A handle for a running task of this node, which counts tasks in `outstanding`.
    pub fn spawner<'a>(&'a mut self, outstanding: &'a mut usize) -> (r: NodeSpawner<'a, T>)
        ensures
            r.local()@ == old(self)@.local,
            *r.outstanding() == *old(outstanding),
            final(self)@ == (NodeState { local: final(r.local())@, ..old(self)@ }),
            final(self).id() == old(self).id(),
            final(self).nodes() == old(self).nodes(),
            *final(r.outstanding()) == *final(outstanding),
    {
        NodeSpawner { local: &mut self.local, outstanding }
    }
}

/// Deal tasks to `nodes` nodes in turn, at least one.
pub fn deal<T>(nodes: usize, initial: Vec<T>) -> (seeds: Vec<Vec<T>>)
    ensures
        ({
            let n = if nodes == 0 {
                1
            } else {
                nodes as int
            };
            &&& seeds@.map(|k: int, seed: Vec<T>| seed@) == scheduler::shares(initial@, n)
            &&& seeds@.len() == n
            &&& forall|k: int|
                0 <= k < n ==> (#[trigger] seeds@[k])@.len() == (initial@.len() + n - 1 - k) / n
            &&& forall|i: int|
                0 <= i < initial@.len() ==> seeds@[i % n]@[i / n] == #[trigger] initial@[i]
        }),
{
    let n: usize = if nodes == 0 {
        1
    } else {
        nodes
    };
    let mut seeds: Vec<Vec<T>> = Vec::new();
    while seeds.len() < n
        invariant
            seeds@.len() <= n,
            forall|k: int| 0 <= k < seeds@.len() ==> (#[trigger] seeds@[k])@ == Seq::<T>::empty(),
        decreases n - seeds@.len(),
    {
        seeds.push(Vec::new());
    }
    let ghost tasks = initial@;
    let mut i: usize = 0;
    assert(initial.len() == tasks.len());
    for task in it: initial
        invariant
            1 <= n,
            it.seq() == tasks,
            i == it.index(),
            tasks.len() <= usize::MAX,
            seeds@.len() == n,
            forall|k: int|
                0 <= k < n ==> (#[trigger] seeds@[k])@ == scheduler::dealt(
                    tasks.take(i as int),
                    n as int,
                    k,
                ),
    {
        let at = i % n;
        let ghost before = seeds@;
        seeds[at].push(task);
        proof {
            let more = tasks.take(i + 1);
            assert(more.drop_last() =~= tasks.take(i as int));
            assert forall|k: int| 0 <= k < n implies (#[trigger] seeds@[k])@ == scheduler::dealt(
                more,
                n as int,
                k,
            ) by {
                assert(before[k]@ == scheduler::dealt(tasks.take(i as int), n as int, k));
            }
        }
        i += 1;
    }
    assert(tasks.take(tasks.len() as int) =~= tasks);
    proof {
        let all = scheduler::shares(tasks, n as int);
        assert forall|k: int| 0 <= k < n implies (#[trigger] seeds@[k])@.len() == (tasks.len() + n
            - 1 - k) / n as int by {
            scheduler::dealt_in_turn(tasks, n as int, 0, k);
            assert(seeds@[k]@ == all[k]);
        }
        assert forall|i: int| 0 <= i < tasks.len() implies seeds@[i % n as int]@[i / n as int]
            == #[trigger] tasks[i] by {
            scheduler::dealt_in_turn(tasks, n as int, i, 0);
            vstd::arithmetic::div_mod::lemma_mod_bound(i, n as int);
            assert(seeds@[i % n as int]@ == all[i % n as int]);
        }
    }
    seeds
}

} // verus!
