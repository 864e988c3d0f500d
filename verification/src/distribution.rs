//! What distributed work stealing guarantees under every interleaving of nodes and messages.
//!
//! A [`Cluster`] is a distributed run: what each node keeps, the messages on their way, where each
//! node stands, and what was spawned and executed so far. [`every_task_once`] proves, of every
//! schedule, that tasks are neither lost nor duplicated, whether they wait, travel or run;
//! [`run_executes_everything`] that a run executes the tasks that were dealt and those that running
//! tasks spawned, each exactly once;
//! [`leaves_when_done`] that a node leaves only when all work is done, so that no work ever travels
//! to a node that has left; [`stats_are_exact`] what the statistics of a run count;
//! [`one_request_each`] that a node has at most one request on its way.

use vstd::prelude::*;

use vstd::multiset::Multiset;

use crate::distributed;
use crate::distributed::{Mail, NodeState, PhaseState};
use crate::scheduler;
use crate::windows;

verus! {

/// A distributed run.
pub struct Cluster<T> {
    pub nodes: Seq<NodeState<T>>,
    pub phases: Seq<PhaseState<T>>,
    pub boxes: Seq<Seq<Mail<T>>>,
    pub outstanding: int,
    pub steal_messages: int,
    pub migrated_tasks: int,
    pub spawned: Multiset<T>,
    pub executed: Multiset<T>,
}

/// What can happen next.
pub enum ClusterEvent<T> {
    /// The task that a node runs emits another one.
    Spawn { node: int, task: T },
    /// The task that a node runs is done.
    Complete { node: int },
    /// A node makes one step. What it sends arrives unless the receiver has left.
    Step { node: int },
}

/// The tasks in a message.
pub open spec fn cargo<T>(m: Mail<T>) -> Seq<T> {
    match m {
        Mail::Work { tasks } => tasks,
        Mail::Request { from } => Seq::empty(),
    }
}

/// The tasks in a mailbox.
pub open spec fn carried<T>(mailbox: Seq<Mail<T>>) -> Seq<T> {
    windows::concat(Seq::new(mailbox.len(), |k: int| cargo(mailbox[k])))
}

/// The tasks that a node has in hand: the one that it runs, or those that it is about to send.
pub open spec fn in_hand<T>(phase: PhaseState<T>) -> Seq<T> {
    match phase {
        PhaseState::Run { task } => seq![task],
        PhaseState::Reply { to, batch } => batch,
        _ => Seq::empty(),
    }
}

/// Marks for the tasks of a node that are neither in a node nor on their way, and not counted as
/// done yet.
pub open spec fn mark<T>(phase: PhaseState<T>) -> Seq<bool> {
    match phase {
        PhaseState::Run { task } => seq![true],
        PhaseState::Count => seq![true],
        PhaseState::Reply { to, batch } => Seq::new(batch.len(), |k: int| true),
        _ => Seq::empty(),
    }
}

impl<T> Cluster<T> {
    /// The tasks that wait, node by node.
    pub open spec fn waiting(self) -> Seq<Seq<T>> {
        Seq::new(self.nodes.len(), |i: int| self.nodes[i].local)
    }

    /// The tasks that travel, mailbox by mailbox.
    pub open spec fn travelling(self) -> Seq<Seq<T>> {
        Seq::new(self.boxes.len(), |i: int| carried(self.boxes[i]))
    }

    /// The tasks that the nodes have in hand, node by node.
    pub open spec fn held(self) -> Seq<Seq<T>> {
        Seq::new(self.phases.len(), |i: int| in_hand(self.phases[i]))
    }

    /// Marks for the tasks in hand that are not counted as done yet, node by node.
    pub open spec fn marks(self) -> Seq<Seq<bool>> {
        Seq::new(self.phases.len(), |i: int| mark(self.phases[i]))
    }

    /// Tasks have been dealt, and every node is about to start.
    pub open spec fn initial(self) -> bool {
        let n = self.nodes.len();
        &&& 1 <= n <= usize::MAX
        &&& self.boxes.len() == n
        &&& self.phases.len() == n
        &&& forall|i: int| 0 <= i < n ==> (#[trigger] self.boxes[i]).len() == 0
        &&& forall|i: int| 0 <= i < n ==> (#[trigger] self.phases[i]) is Mailbox
        &&& forall|i: int| 0 <= i < n ==> !(#[trigger] self.nodes[i]).pending
        &&& self.outstanding == windows::concat(self.waiting()).len()
        &&& self.steal_messages == 0
        &&& self.migrated_tasks == 0
        &&& self.spawned == windows::concat(self.waiting()).to_multiset()
        &&& self.executed == Multiset::<T>::empty()
    }

    /// Whether an event can happen.
    pub open spec fn enabled(self, e: ClusterEvent<T>) -> bool {
        let n = self.nodes.len();
        match e {
            ClusterEvent::Spawn { node, task } => 0 <= node < n && self.phases[node] is Run,
            ClusterEvent::Complete { node } => 0 <= node < n && self.phases[node] is Run,
            ClusterEvent::Step { node } => 0 <= node < n,
        }
    }

    /// The cluster with message `m` sent to node `to`, unless that has left.
    pub open spec fn sent(self, to: int, m: Mail<T>) -> Cluster<T> {
        if self.phases[to] is Left {
            self
        } else {
            Cluster { boxes: self.boxes.update(to, self.boxes[to].push(m)), ..self }
        }
    }

    /// The cluster with node `node` and its phase replaced.
    pub open spec fn with(self, node: int, next: (NodeState<T>, PhaseState<T>)) -> Cluster<T> {
        Cluster {
            nodes: self.nodes.update(node, next.0),
            phases: self.phases.update(node, next.1),
            ..self
        }
    }

    /// The cluster after an event.
    pub open spec fn after(self, e: ClusterEvent<T>) -> Cluster<T> {
        match e {
            ClusterEvent::Spawn { node, task } => Cluster {
                nodes: self.nodes.update(
                    node,
                    NodeState { local: self.nodes[node].local.push(task), ..self.nodes[node] },
                ),
                outstanding: self.outstanding + 1,
                spawned: self.spawned.add(Multiset::singleton(task)),
                ..self
            },
            ClusterEvent::Complete { node } => match self.phases[node] {
                PhaseState::Run { task } => Cluster {
                    phases: self.phases.update(node, PhaseState::Count),
                    executed: self.executed.add(Multiset::singleton(task)),
                    ..self
                },
                _ => self,
            },
            ClusterEvent::Step { node } => self.stepped(node),
        }
    }

    /// The cluster after one step of a node.
    pub open spec fn stepped(self, node: int) -> Cluster<T> {
        let s = self.nodes[node];
        let mailbox = self.boxes[node];
        match self.phases[node] {
            PhaseState::Mailbox => if mailbox.len() > 0 {
                Cluster { boxes: self.boxes.update(node, mailbox.drop_first()), ..self }.with(
                    node,
                    distributed::mail_next(s, Some(mailbox[0])),
                )
            } else {
                self.with(node, distributed::mail_next(s, None))
            },
            PhaseState::Reply { to, batch } => Cluster {
                migrated_tasks: self.migrated_tasks + if self.phases[to as int] is Left {
                    0
                } else {
                    batch.len() as int
                },
                ..self.sent(to as int, Mail::Work { tasks: batch }).with(
                    node,
                    (s, PhaseState::Mailbox),
                )
            },
            PhaseState::Local => self.with(node, distributed::local_next(s)),
            PhaseState::Run { task } => self,
            PhaseState::Count => Cluster {
                outstanding: self.outstanding - 1,
                ..self.with(node, (s, PhaseState::Mailbox))
            },
            PhaseState::Check => self.with(
                node,
                distributed::count_next(
                    s,
                    node as usize,
                    self.nodes.len() as usize,
                    self.outstanding,
                ),
            ),
            PhaseState::Ask { victim } => Cluster {
                steal_messages: self.steal_messages + 1,
                ..self.sent(victim as int, Mail::Request { from: node as usize }).with(
                    node,
                    distributed::request_next(s, !(self.phases[victim as int] is Left)),
                )
            },
            PhaseState::Rest => self.with(node, (s, PhaseState::Mailbox)),
            PhaseState::Left => self,
        }
    }

    /// Number of tasks that wait, travel, or are in hand and not counted as done yet.
    pub open spec fn tally(self) -> nat {
        windows::concat(self.waiting()).len() + windows::concat(self.travelling()).len()
            + windows::concat(self.marks()).len()
    }

    /// What was spawned is what was executed, what waits, what travels and what is in hand.
    pub open spec fn conserved(self) -> bool {
        self.spawned == self.executed.add(windows::concat(self.waiting()).to_multiset()).add(
            windows::concat(self.travelling()).to_multiset(),
        ).add(windows::concat(self.held()).to_multiset())
    }

    /// Every request in mailbox `i` comes from another node.
    pub open spec fn addressed(self, i: int) -> bool {
        forall|k: int|
            0 <= k < self.boxes[i].len() ==> match #[trigger] self.boxes[i][k] {
                Mail::Request { from } => from < self.nodes.len() && from != i,
                Mail::Work { tasks } => true,
            }
    }

    /// Node `i` has left only if all work is done, and it deals with other nodes.
    pub open spec fn phase_inv(self, i: int) -> bool {
        match self.phases[i] {
            PhaseState::Left => self.outstanding == 0,
            PhaseState::Reply { to, batch } => to < self.nodes.len() && to != i,
            PhaseState::Ask { victim } => victim < self.nodes.len() && victim != i,
            _ => true,
        }
    }

    /// The invariant that every event keeps.
    pub open spec fn inv(self) -> bool {
        let n = self.nodes.len();
        &&& 1 <= n <= usize::MAX
        &&& self.boxes.len() == n
        &&& self.phases.len() == n
        &&& self.outstanding == self.tally()
        &&& self.conserved()
        &&& forall|i: int| 0 <= i < n ==> #[trigger] self.addressed(i)
        &&& forall|i: int| 0 <= i < n ==> #[trigger] self.phase_inv(i)
    }
}

/// Whether every event of a schedule can happen when its turn comes.
pub open spec fn possible<T>(w: Cluster<T>, schedule: Seq<ClusterEvent<T>>) -> bool
    decreases schedule.len(),
{
    if schedule.len() == 0 {
        true
    } else {
        &&& possible(w, schedule.drop_last())
        &&& outcome(w, schedule.drop_last()).enabled(schedule.last())
    }
}

/// The cluster after a schedule.
pub open spec fn outcome<T>(w: Cluster<T>, schedule: Seq<ClusterEvent<T>>) -> Cluster<T>
    decreases schedule.len(),
{
    if schedule.len() == 0 {
        w
    } else {
        outcome(w, schedule.drop_last()).after(schedule.last())
    }
}

/// The whole starts with its first piece.
proof fn lemma_concat_head<A>(pieces: Seq<Seq<A>>)
    requires
        pieces.len() > 0,
    ensures
        windows::concat(pieces) == pieces[0] + windows::concat(pieces.drop_first()),
    decreases pieces.len(),
{
    let tail = pieces.drop_first();
    if pieces.len() == 1 {
        assert(pieces.drop_last() =~= Seq::<Seq<A>>::empty());
        assert(tail =~= Seq::<Seq<A>>::empty());
        assert(windows::concat(pieces) =~= pieces[0] + windows::concat(tail));
    } else {
        let rest = pieces.drop_last();
        lemma_concat_head(rest);
        assert(rest.drop_first() =~= tail.drop_last());
        assert(windows::concat(pieces) =~= pieces[0] + windows::concat(tail));
    }
}

proof fn lemma_carried<T>(mailbox: Seq<Mail<T>>, m: Mail<T>)
    ensures
        carried(mailbox.push(m)) == carried(mailbox) + cargo(m),
        mailbox.len() > 0 ==> carried(mailbox) == cargo(mailbox[0]) + carried(
            mailbox.drop_first(),
        ),
{
    let bags = Seq::new(mailbox.len(), |k: int| cargo(mailbox[k]));
    let more = Seq::new(mailbox.push(m).len(), |k: int| cargo(mailbox.push(m)[k]));
    assert(more.drop_last() =~= bags);
    if mailbox.len() > 0 {
        lemma_concat_head(bags);
        let rest = mailbox.drop_first();
        assert(bags.drop_first() =~= Seq::new(rest.len(), |k: int| cargo(rest[k])));
    }
}

/// The multisets and lengths of what is where change with one piece.
proof fn lemma_piece<A>(before: Seq<Seq<A>>, after: Seq<Seq<A>>, i: int)
    requires
        0 <= i < before.len(),
        after == before.update(i, after[i]),
    ensures
        windows::concat(after).len() == windows::concat(before).len() - before[i].len()
            + after[i].len(),
        windows::concat(after).to_multiset().add(before[i].to_multiset()) == windows::concat(
            before,
        ).to_multiset().add(after[i].to_multiset()),
{
    scheduler::lemma_concat_len(before, i, after[i]);
    windows::lemma_concat_update(before, i, after[i]);
}

/// From `a + x == b + y` and `y == x + z` follows `a == b + z`.
proof fn lemma_more<A>(
    a: Multiset<A>,
    x: Multiset<A>,
    b: Multiset<A>,
    y: Multiset<A>,
    z: Multiset<A>,
)
    requires
        a.add(x) == b.add(y),
        y == x.add(z),
    ensures
        a == b.add(z),
{
    assert forall|t: A| a.count(t) == b.add(z).count(t) by {
        assert(a.add(x).count(t) == a.count(t) + x.count(t));
        assert(b.add(y).count(t) == b.count(t) + y.count(t));
        assert(x.add(z).count(t) == x.count(t) + z.count(t));
    }
    assert(a =~= b.add(z));
}

proof fn lemma_single<T>(task: T)
    ensures
        seq![task].to_multiset() == Multiset::singleton(task),
        Seq::<T>::empty().to_multiset() == Multiset::<T>::empty(),
{
    broadcast use vstd::seq_lib::group_to_multiset_ensures;

    assert(seq![task] =~= Seq::<T>::empty().push(task));
    assert(Seq::<T>::empty().to_multiset() =~= Multiset::<T>::empty());
    assert(seq![task].to_multiset() =~= Multiset::singleton(task));
}

proof fn lemma_empty_bag<T>()
    ensures
        Seq::<T>::empty().to_multiset() == Multiset::<T>::empty(),
{
    broadcast use vstd::seq_lib::group_to_multiset_ensures;

    assert(Seq::<T>::empty().to_multiset() =~= Multiset::<T>::empty());
}

/// The changes that a step of one node makes to what is where.
proof fn lemma_pieces<T>(w: Cluster<T>, n: Cluster<T>, node: int)
    requires
        w.inv(),
        0 <= node < w.nodes.len(),
        n.nodes == w.nodes.update(node, n.nodes[node]),
        n.phases == w.phases.update(node, n.phases[node]),
        n.boxes.len() == w.boxes.len(),
    ensures
        windows::concat(n.waiting()).len() == windows::concat(w.waiting()).len()
            - w.nodes[node].local.len() + n.nodes[node].local.len(),
        windows::concat(n.waiting()).to_multiset().add(w.nodes[node].local.to_multiset())
            == windows::concat(w.waiting()).to_multiset().add(n.nodes[node].local.to_multiset()),
        windows::concat(n.held()).to_multiset().add(in_hand(w.phases[node]).to_multiset())
            == windows::concat(w.held()).to_multiset().add(in_hand(n.phases[node]).to_multiset()),
        windows::concat(n.marks()).len() == windows::concat(w.marks()).len() - mark(
            w.phases[node],
        ).len() + mark(n.phases[node]).len(),
{
    assert(n.waiting() =~= w.waiting().update(node, n.nodes[node].local));
    assert(n.held() =~= w.held().update(node, in_hand(n.phases[node])));
    assert(n.marks() =~= w.marks().update(node, mark(n.phases[node])));
    lemma_piece(w.waiting(), n.waiting(), node);
    lemma_piece(w.held(), n.held(), node);
    lemma_piece(w.marks(), n.marks(), node);
}

/// The change that a message makes to what travels.
proof fn lemma_travel<T>(w: Cluster<T>, n: Cluster<T>, to: int)
    requires
        0 <= to < w.boxes.len(),
        n.boxes == w.boxes.update(to, n.boxes[to]),
    ensures
        windows::concat(n.travelling()).len() == windows::concat(w.travelling()).len() - carried(
            w.boxes[to],
        ).len() + carried(n.boxes[to]).len(),
        windows::concat(n.travelling()).to_multiset().add(carried(w.boxes[to]).to_multiset())
            == windows::concat(w.travelling()).to_multiset().add(
            carried(n.boxes[to]).to_multiset(),
        ),
{
    assert(n.travelling() =~= w.travelling().update(to, carried(n.boxes[to])));
    lemma_piece(w.travelling(), n.travelling(), to);
}

/// A node with a mark counts.
proof fn lemma_marked<T>(w: Cluster<T>, i: int)
    requires
        0 <= i < w.phases.len(),
    ensures
        windows::concat(w.marks()).len() >= mark(w.phases[i]).len(),
{
    scheduler::lemma_concat_len(w.marks(), i, Seq::empty());
    assert(w.marks()[i] == mark(w.phases[i]));
}

/// Mailboxes that keep their requests, or get one from another node, stay addressed.
proof fn lemma_addressed<T>(w: Cluster<T>, n: Cluster<T>)
    requires
        w.inv(),
        n.nodes.len() == w.nodes.len(),
        n.boxes.len() == w.boxes.len(),
        forall|i: int, k: int|
            0 <= i < n.boxes.len() && 0 <= k < n.boxes[i].len() ==> {
                ||| (#[trigger] n.boxes[i][k]) is Work
                ||| w.boxes[i].contains(n.boxes[i][k])
                ||| n.boxes[i][k]->from < n.nodes.len() && n.boxes[i][k]->from != i
            },
    ensures
        forall|i: int| 0 <= i < n.nodes.len() ==> #[trigger] n.addressed(i),
{
    assert forall|i: int| 0 <= i < n.nodes.len() implies #[trigger] n.addressed(i) by {
        assert(w.addressed(i));
        assert forall|k: int| 0 <= k < n.boxes[i].len() implies match #[trigger] n.boxes[i][k] {
            Mail::Request { from } => from < n.nodes.len() && from != i,
            Mail::Work { tasks } => true,
        } by {
            if w.boxes[i].contains(n.boxes[i][k]) {
                let j = choose|j: int|
                    0 <= j < w.boxes[i].len() && w.boxes[i][j] == n.boxes[i][k];
                assert(w.boxes[i][j] == n.boxes[i][k]);
            }
        }
    }
}

proof fn lemma_receive<T>(w: Cluster<T>, node: int)
    requires
        w.inv(),
        0 <= node < w.nodes.len(),
        w.phases[node] is Mailbox,
        w.boxes[node].len() > 0,
    ensures
        w.stepped(node).inv(),
{
    let n = w.stepped(node);
    let mailbox = w.boxes[node];
    let m = mailbox[0];
    let rest = mailbox.drop_first();
    let local = w.nodes[node].local;
    lemma_carried(mailbox, m);
    assert(w.addressed(node));
    lemma_pieces(w, n, node);
    lemma_travel(w, n, node);
    lemma_empty_bag::<T>();
    vstd::seq_lib::lemma_multiset_commutative(cargo(m), carried(rest));
    let t0 = windows::concat(w.travelling()).to_multiset();
    let t1 = windows::concat(n.travelling()).to_multiset();
    let w0 = windows::concat(w.waiting()).to_multiset();
    let w1 = windows::concat(n.waiting()).to_multiset();
    let h0 = windows::concat(w.held()).to_multiset();
    let h1 = windows::concat(n.held()).to_multiset();
    let kept = n.nodes[node].local;
    assert(carried(mailbox).to_multiset() =~= carried(rest).to_multiset().add(
        cargo(m).to_multiset(),
    ));
    lemma_more(
        t0,
        carried(rest).to_multiset(),
        t1,
        carried(mailbox).to_multiset(),
        cargo(m).to_multiset(),
    );
    match m {
        Mail::Request { from } => {
            let given = w.nodes[node].given();
            assert(local =~= kept + given);
            vstd::seq_lib::lemma_multiset_commutative(kept, given);
            lemma_more(
                w0,
                kept.to_multiset(),
                w1,
                local.to_multiset(),
                given.to_multiset(),
            );
            assert(h1 =~= h0.add(given.to_multiset()));
            assert(n.spawned =~= n.executed.add(w1).add(t1).add(h1));
        },
        Mail::Work { tasks } => {
            vstd::seq_lib::lemma_multiset_commutative(local, tasks);
            lemma_more(w1, local.to_multiset(), w0, kept.to_multiset(), tasks.to_multiset());
            assert(n.held() =~= w.held());
            assert(n.spawned =~= n.executed.add(w1).add(t1).add(h1));
        },
    }
    assert forall|i: int, k: int|
        0 <= i < n.boxes.len() && 0 <= k < n.boxes[i].len() implies w.boxes[i].contains(
        #[trigger] n.boxes[i][k],
    ) by {
        if i == node {
            assert(n.boxes[i][k] == mailbox[k + 1]);
        } else {
            assert(n.boxes[i][k] == w.boxes[i][k]);
        }
    }
    lemma_addressed(w, n);
    assert forall|i: int| 0 <= i < n.nodes.len() implies #[trigger] n.phase_inv(i) by {
        assert(w.phase_inv(i));
    }
}

proof fn lemma_send<T>(w: Cluster<T>, node: int)
    requires
        w.inv(),
        0 <= node < w.nodes.len(),
        w.phases[node] is Reply || w.phases[node] is Ask,
    ensures
        w.stepped(node).inv(),
{
    let n = w.stepped(node);
    let (to, m) = match w.phases[node] {
        PhaseState::Reply { to, batch } => (to as int, Mail::Work { tasks: batch }),
        PhaseState::Ask { victim } => (victim as int, Mail::Request { from: node as usize }),
        _ => (0, Mail::Request { from: 0 }),
    };
    assert(w.phase_inv(node));
    assert(0 <= to < w.nodes.len());
    assert(w.phase_inv(to));
    lemma_pieces(w, n, node);
    lemma_marked(w, node);
    lemma_empty_bag::<T>();
    lemma_carried(w.boxes[to], m);
    vstd::seq_lib::lemma_multiset_commutative(carried(w.boxes[to]), cargo(m));
    let t0 = windows::concat(w.travelling()).to_multiset();
    let t1 = windows::concat(n.travelling()).to_multiset();
    let w0 = windows::concat(w.waiting()).to_multiset();
    let w1 = windows::concat(n.waiting()).to_multiset();
    let h0 = windows::concat(w.held()).to_multiset();
    let h1 = windows::concat(n.held()).to_multiset();
    assert(in_hand(w.phases[node]) =~= cargo(m));
    assert(mark(w.phases[node]).len() == cargo(m).len());
    assert(n.waiting() =~= w.waiting());
    assert(h0 =~= h1.add(cargo(m).to_multiset()));
    if w.phases[to] is Left {
        assert(cargo(m) =~= Seq::<T>::empty());
        assert(n.boxes == w.boxes);
        assert(n.travelling() =~= w.travelling());
    } else {
        lemma_travel(w, n, to);
        assert(carried(n.boxes[to]) == carried(w.boxes[to]) + cargo(m));
        lemma_more(
            t1,
            carried(w.boxes[to]).to_multiset(),
            t0,
            carried(n.boxes[to]).to_multiset(),
            cargo(m).to_multiset(),
        );
    }
    assert(n.spawned =~= n.executed.add(w1).add(t1).add(h1));
    assert forall|i: int, k: int|
        0 <= i < n.boxes.len() && 0 <= k < n.boxes[i].len() implies {
        ||| (#[trigger] n.boxes[i][k]) is Work
        ||| w.boxes[i].contains(n.boxes[i][k])
        ||| n.boxes[i][k]->from < n.nodes.len() && n.boxes[i][k]->from != i
    } by {
        if k < w.boxes[i].len() {
            assert(n.boxes[i][k] == w.boxes[i][k]);
        }
    }
    lemma_addressed(w, n);
    assert forall|i: int| 0 <= i < n.nodes.len() implies #[trigger] n.phase_inv(i) by {
        assert(w.phase_inv(i));
    }
}

proof fn lemma_own<T>(w: Cluster<T>, e: ClusterEvent<T>)
    requires
        w.inv(),
        w.enabled(e),
        e matches ClusterEvent::Step { node } ==> {
            &&& !(w.phases[node] is Reply) && !(w.phases[node] is Ask)
            &&& w.phases[node] is Mailbox ==> w.boxes[node].len() == 0
        },
    ensures
        w.after(e).inv(),
{
    let n = w.after(e);
    let node = match e {
        ClusterEvent::Spawn { node, task } => node,
        ClusterEvent::Complete { node } => node,
        ClusterEvent::Step { node } => node,
    };
    assert(n.nodes =~= w.nodes.update(node, n.nodes[node]));
    assert(n.phases =~= w.phases.update(node, n.phases[node]));
    assert(w.phase_inv(node));
    lemma_pieces(w, n, node);
    lemma_marked(w, node);
    lemma_empty_bag::<T>();
    assert(n.travelling() =~= w.travelling());
    let t = windows::concat(w.travelling()).to_multiset();
    let w0 = windows::concat(w.waiting()).to_multiset();
    let w1 = windows::concat(n.waiting()).to_multiset();
    let h0 = windows::concat(w.held()).to_multiset();
    let h1 = windows::concat(n.held()).to_multiset();
    let local = w.nodes[node].local;
    broadcast use vstd::seq_lib::group_to_multiset_ensures;

    match e {
        ClusterEvent::Spawn { node, task } => {
            assert(local.push(task).to_multiset() =~= local.to_multiset().add(
                Multiset::singleton(task),
            ));
            lemma_more(
                w1,
                local.to_multiset(),
                w0,
                local.push(task).to_multiset(),
                Multiset::singleton(task),
            );
            assert(n.held() =~= w.held());
            assert(n.spawned =~= n.executed.add(w1).add(t).add(h1));
        },
        ClusterEvent::Complete { node } => {
            match w.phases[node] {
                PhaseState::Run { task } => {
                    lemma_single(task);
                    assert(n.waiting() =~= w.waiting());
                    assert(h0 =~= h1.add(Multiset::singleton(task)));
                    assert(n.spawned =~= n.executed.add(w1).add(t).add(h1));
                },
                _ => {},
            }
        },
        ClusterEvent::Step { node } => {
            if w.phases[node] is Local && local.len() > 0 {
                let task = local.last();
                lemma_single(task);
                assert(local =~= local.drop_last().push(task));
                assert(local.to_multiset() =~= local.drop_last().to_multiset().add(
                    Multiset::singleton(task),
                ));
                lemma_more(
                    w0,
                    local.drop_last().to_multiset(),
                    w1,
                    local.to_multiset(),
                    Multiset::singleton(task),
                );
                assert(h1 =~= h0.add(Multiset::singleton(task)));
                assert(n.spawned =~= n.executed.add(w1).add(t).add(h1));
            } else {
                assert(n.waiting() =~= w.waiting());
                assert(n.held() =~= w.held());
            }
        },
    }
    assert forall|i: int, k: int|
        0 <= i < n.boxes.len() && 0 <= k < n.boxes[i].len() implies w.boxes[i].contains(
        #[trigger] n.boxes[i][k],
    ) by {
        assert(n.boxes[i][k] == w.boxes[i][k]);
    }
    lemma_addressed(w, n);
    assert forall|i: int| 0 <= i < n.nodes.len() implies #[trigger] n.phase_inv(i) by {
        assert(w.phase_inv(i));
    }
}

proof fn lemma_schedule<T>(start: Cluster<T>, schedule: Seq<ClusterEvent<T>>)
    requires
        start.initial(),
        possible(start, schedule),
    ensures
        outcome(start, schedule).inv(),
    decreases schedule.len(),
{
    if schedule.len() == 0 {
        let travelling = start.travelling();
        assert forall|i: int| 0 <= i < travelling.len() implies (#[trigger] travelling[i]).len()
            == 0 by {
            assert(start.boxes[i].len() == 0);
        }
        windows::lemma_concat_empty(travelling);
        let held = start.held();
        let marks = start.marks();
        assert forall|i: int| 0 <= i < held.len() implies (#[trigger] held[i]).len() == 0 by {
            assert(start.phases[i] is Mailbox);
        }
        assert forall|i: int| 0 <= i < marks.len() implies (#[trigger] marks[i]).len() == 0 by {
            assert(start.phases[i] is Mailbox);
        }
        windows::lemma_concat_empty(held);
        windows::lemma_concat_empty(marks);
        lemma_empty_bag::<T>();
        assert(start.spawned =~= start.executed.add(
            windows::concat(start.waiting()).to_multiset(),
        ).add(windows::concat(travelling).to_multiset()).add(
            windows::concat(held).to_multiset(),
        ));
        assert forall|i: int| 0 <= i < start.nodes.len() implies #[trigger] start.addressed(i) by {
            assert(start.boxes[i].len() == 0);
        }
        assert forall|i: int| 0 <= i < start.nodes.len() implies #[trigger] start.phase_inv(i) by {
            assert(start.phases[i] is Mailbox);
        }
    } else {
        let w = outcome(start, schedule.drop_last());
        lemma_schedule(start, schedule.drop_last());
        match schedule.last() {
            ClusterEvent::Step { node } => {
                if w.phases[node] is Reply || w.phases[node] is Ask {
                    lemma_send(w, node);
                } else if w.phases[node] is Mailbox && w.boxes[node].len() > 0 {
                    lemma_receive(w, node);
                } else {
                    lemma_own(w, schedule.last());
                }
            },
            _ => {
                lemma_own(w, schedule.last());
            },
        }
    }
}

/// Every task exactly once: under every interleaving of nodes and messages, what was spawned is
/// what was executed, what waits, what travels and what is in hand, each task as often as it was
/// spawned; the count of outstanding tasks is exact; and once it is zero, what was executed is what
/// was spawned. A node that is to count a task as done finds it counted as outstanding.
pub proof fn every_task_once<T>(start: Cluster<T>, schedule: Seq<ClusterEvent<T>>)
    requires
        start.initial(),
        possible(start, schedule),
    ensures
        ({
            let w = outcome(start, schedule);
            &&& w.conserved()
            &&& w.outstanding == w.tally()
            &&& w.outstanding == 0 ==> w.executed == w.spawned
            &&& forall|i: int|
                0 <= i < w.phases.len() && (#[trigger] w.phases[i]) is Count ==> w.outstanding > 0
        }),
{
    let w = outcome(start, schedule);
    lemma_schedule(start, schedule);
    assert forall|i: int| 0 <= i < w.phases.len() && (#[trigger] w.phases[i]) is Count implies
        w.outstanding > 0 by {
        lemma_marked(w, i);
    }
    if w.outstanding == 0 {
        let held = w.held();
        assert forall|i: int| 0 <= i < held.len() implies (#[trigger] held[i]).len() == 0 by {
            lemma_marked(w, i);
        }
        windows::lemma_concat_empty(held);
        lemma_empty_bag::<T>();
        assert(windows::concat(w.waiting()) =~= Seq::<T>::empty());
        assert(windows::concat(w.travelling()) =~= Seq::<T>::empty());
        assert(w.executed =~= w.spawned);
    }
}

/// `n` nodes about to start on `tasks`, dealt to them in turn.
pub open spec fn starting<T>(n: int, tasks: Seq<T>) -> Cluster<T> {
    Cluster {
        nodes: Seq::new(
            n as nat,
            |i: int|
                NodeState {
                    local: scheduler::shares(tasks, n)[i],
                    rng: scheduler::seed(i as usize),
                    pending: false,
                },
        ),
        phases: Seq::new(n as nat, |i: int| PhaseState::<T>::Mailbox),
        boxes: Seq::new(n as nat, |i: int| Seq::<Mail<T>>::empty()),
        outstanding: tasks.len() as int,
        steal_messages: 0,
        migrated_tasks: 0,
        spawned: tasks.to_multiset(),
        executed: Multiset::empty(),
    }
}

/// Nodes that were dealt tasks and have not started yet are where every schedule starts.
pub proof fn starting_is_initial<T>(n: int, tasks: Seq<T>)
    requires
        1 <= n <= usize::MAX,
    ensures
        starting(n, tasks).initial(),
{
    scheduler::dealt_is_everything(tasks, n);
    assert(starting(n, tasks).waiting() =~= scheduler::shares(tasks, n));
}

/// The tasks that running tasks spawn in a schedule.
pub open spec fn emitted<T>(schedule: Seq<ClusterEvent<T>>) -> Multiset<T>
    decreases schedule.len(),
{
    if schedule.len() == 0 {
        Multiset::empty()
    } else {
        let before = emitted(schedule.drop_last());
        match schedule.last() {
            ClusterEvent::Spawn { node, task } => before.add(Multiset::singleton(task)),
            _ => before,
        }
    }
}

proof fn lemma_spawned<T>(start: Cluster<T>, schedule: Seq<ClusterEvent<T>>)
    requires
        start.nodes.len() == start.phases.len(),
        possible(start, schedule),
    ensures
        outcome(start, schedule).spawned == start.spawned.add(emitted(schedule)),
        outcome(start, schedule).phases.len() == start.phases.len(),
        outcome(start, schedule).nodes.len() == start.nodes.len(),
    decreases schedule.len(),
{
    if schedule.len() > 0 {
        lemma_spawned(start, schedule.drop_last());
    }
    assert(outcome(start, schedule).spawned =~= start.spawned.add(emitted(schedule)));
}

/// A run executes everything: with `tasks` dealt to `n` nodes, under every interleaving, once a
/// node has left, the tasks that were executed to their end are the initial ones and those that
/// running tasks spawned, each exactly once.
pub proof fn run_executes_everything<T>(
    n: int,
    tasks: Seq<T>,
    schedule: Seq<ClusterEvent<T>>,
    node: int,
)
    requires
        1 <= n <= usize::MAX,
        possible(starting(n, tasks), schedule),
        0 <= node < n,
        outcome(starting(n, tasks), schedule).phases[node] is Left,
    ensures
        outcome(starting(n, tasks), schedule).executed == tasks.to_multiset().add(
            emitted(schedule),
        ),
{
    starting_is_initial(n, tasks);
    lemma_spawned(starting(n, tasks), schedule);
    leaves_when_done(starting(n, tasks), schedule, node);
}

/// Number of steal requests that a step makes, whether or not they are delivered.
pub open spec fn makes_request<T>(w: Cluster<T>, e: ClusterEvent<T>) -> int {
    match e {
        ClusterEvent::Step { node } => if w.phases[node] is Ask {
            1
        } else {
            0
        },
        _ => 0,
    }
}

/// The tasks that a step puts into the mailbox of another node.
pub open spec fn moves<T>(w: Cluster<T>, e: ClusterEvent<T>) -> Seq<T> {
    match e {
        ClusterEvent::Step { node } => match w.phases[node] {
            PhaseState::Reply { to, batch } => if w.phases[to as int] is Left {
                Seq::empty()
            } else {
                batch
            },
            _ => Seq::empty(),
        },
        _ => Seq::empty(),
    }
}

/// The tasks that a step takes out of a mailbox.
pub open spec fn arrives<T>(w: Cluster<T>, e: ClusterEvent<T>) -> Seq<T> {
    match e {
        ClusterEvent::Step { node } => if w.phases[node] is Mailbox && w.boxes[node].len() > 0 {
            cargo(w.boxes[node][0])
        } else {
            Seq::empty()
        },
        _ => Seq::empty(),
    }
}

/// Number of steal requests made in a schedule, whether or not they were delivered.
pub open spec fn asked<T>(start: Cluster<T>, schedule: Seq<ClusterEvent<T>>) -> int
    decreases schedule.len(),
{
    if schedule.len() == 0 {
        0
    } else {
        let rest = schedule.drop_last();
        asked(start, rest) + makes_request(outcome(start, rest), schedule.last())
    }
}

/// Number of tasks that were put into mailboxes in a schedule.
pub open spec fn moved<T>(start: Cluster<T>, schedule: Seq<ClusterEvent<T>>) -> int
    decreases schedule.len(),
{
    if schedule.len() == 0 {
        0
    } else {
        let rest = schedule.drop_last();
        moved(start, rest) + moves(outcome(start, rest), schedule.last()).len()
    }
}

/// Number of tasks that were taken out of mailboxes in a schedule.
pub open spec fn arrived<T>(start: Cluster<T>, schedule: Seq<ClusterEvent<T>>) -> int
    decreases schedule.len(),
{
    if schedule.len() == 0 {
        0
    } else {
        let rest = schedule.drop_last();
        arrived(start, rest) + arrives(outcome(start, rest), schedule.last()).len()
    }
}

/// What a step puts into mailboxes and takes out of them is what changes on the way.
proof fn lemma_travelling<T>(w: Cluster<T>, e: ClusterEvent<T>)
    requires
        w.inv(),
        w.enabled(e),
    ensures
        windows::concat(w.after(e).travelling()).len() == windows::concat(w.travelling()).len()
            + moves(w, e).len() - arrives(w, e).len(),
{
    let n = w.after(e);
    let before = w.travelling();
    let after = n.travelling();
    match e {
        ClusterEvent::Step { node } => {
            let mailbox = w.boxes[node];
            assert(w.phase_inv(node));
            match w.phases[node] {
                PhaseState::Mailbox if mailbox.len() > 0 => {
                    lemma_carried(mailbox, mailbox[0]);
                    assert(after =~= before.update(node, after[node]));
                    lemma_piece(before, after, node);
                },
                PhaseState::Reply { to, batch } if !(w.phases[to as int] is Left) => {
                    lemma_carried(w.boxes[to as int], Mail::Work { tasks: batch });
                    assert(after =~= before.update(to as int, after[to as int]));
                    lemma_piece(before, after, to as int);
                },
                PhaseState::Ask { victim } if !(w.phases[victim as int] is Left) => {
                    lemma_carried(w.boxes[victim as int], Mail::Request { from: node as usize });
                    assert(after =~= before.update(victim as int, after[victim as int]));
                    lemma_piece(before, after, victim as int);
                },
                _ => {
                    assert(after =~= before);
                },
            }
        },
        _ => {
            assert(after =~= before);
        },
    }
}

/// What the statistics of a run count, under every interleaving: `steal_messages` the requests that
/// were made, whether or not they were delivered; `migrated_tasks` the tasks whose reply was
/// delivered, each of which has arrived or is on its way. A reply that cannot be delivered carries
/// no task.
pub proof fn stats_are_exact<T>(start: Cluster<T>, schedule: Seq<ClusterEvent<T>>)
    requires
        start.initial(),
        possible(start, schedule),
    ensures
        ({
            let w = outcome(start, schedule);
            &&& w.steal_messages == asked(start, schedule)
            &&& w.migrated_tasks == moved(start, schedule)
            &&& w.migrated_tasks == arrived(start, schedule) + windows::concat(
                w.travelling(),
            ).len()
            &&& forall|i: int|
                0 <= i < w.phases.len() ==> (#[trigger] w.phases[i] matches PhaseState::Reply {
                    to,
                    batch,
                } ==> w.phases[to as int] is Left ==> batch.len() == 0)
        }),
    decreases schedule.len(),
{
    let w = outcome(start, schedule);
    lemma_schedule(start, schedule);
    if schedule.len() == 0 {
        assert forall|i: int| 0 <= i < w.travelling().len() implies (
        #[trigger] w.travelling()[i]).len() == 0 by {
            assert(w.boxes[i].len() == 0);
            windows::lemma_concat_empty(Seq::new(w.boxes[i].len(), |k: int| cargo(w.boxes[i][k])));
        }
        windows::lemma_concat_empty(w.travelling());
    } else {
        let rest = schedule.drop_last();
        stats_are_exact(start, rest);
        lemma_schedule(start, rest);
        lemma_travelling(outcome(start, rest), schedule.last());
    }
    assert forall|i: int| 0 <= i < w.phases.len() implies (
    #[trigger] w.phases[i] matches PhaseState::Reply { to, batch } ==> w.phases[to as int] is Left
        ==> batch.len() == 0) by {
        assert(w.phase_inv(i));
        lemma_marked(w, i);
        if let PhaseState::Reply { to, batch } = w.phases[i] {
            assert(w.phase_inv(to as int));
        }
    }
}

/// A node leaves only when all work is done: once one has left, every task that was spawned was
/// executed, and no task is in any node or on its way to one.
pub proof fn leaves_when_done<T>(start: Cluster<T>, schedule: Seq<ClusterEvent<T>>, node: int)
    requires
        start.initial(),
        possible(start, schedule),
        0 <= node < outcome(start, schedule).phases.len(),
        outcome(start, schedule).phases[node] is Left,
    ensures
        outcome(start, schedule).outstanding == 0,
        outcome(start, schedule).executed == outcome(start, schedule).spawned,
        windows::concat(outcome(start, schedule).waiting()).len() == 0,
        windows::concat(outcome(start, schedule).travelling()).len() == 0,
{
    lemma_schedule(start, schedule);
    assert(outcome(start, schedule).phase_inv(node));
    every_task_once(start, schedule);
}

/// A node that is asked gives at most half of its tasks, and keeps at least one if it has any; it
/// gives the newest ones.
pub proof fn keeps_its_half<T>(node: NodeState<T>)
    ensures
        node.answered().local + node.given() == node.local,
        2 * node.given().len() <= node.local.len(),
        node.local.len() > 0 ==> node.answered().local.len() > 0,
{
    assert(node.answered().local + node.given() =~= node.local);
}

/// Number of requests from node `i` in a mailbox.
pub open spec fn requests_in<T>(mailbox: Seq<Mail<T>>, i: int) -> nat
    decreases mailbox.len(),
{
    if mailbox.len() == 0 {
        0
    } else {
        requests_in(mailbox.drop_last(), i) + asks(mailbox.last(), i)
    }
}

/// One if a message is a request from node `i`.
pub open spec fn asks<T>(m: Mail<T>, i: int) -> nat {
    match m {
        Mail::Request { from } => if from == i {
            1
        } else {
            0
        },
        Mail::Work { tasks } => 0,
    }
}

/// Number of replies in a mailbox.
pub open spec fn replies_in<T>(mailbox: Seq<Mail<T>>) -> nat
    decreases mailbox.len(),
{
    if mailbox.len() == 0 {
        0
    } else {
        replies_in(mailbox.drop_last()) + replies(mailbox.last())
    }
}

/// One if a message is a reply.
pub open spec fn replies<T>(m: Mail<T>) -> nat {
    if m is Work {
        1
    } else {
        0
    }
}

/// Number of requests from node `i` in all mailboxes.
pub open spec fn requests_of<T>(boxes: Seq<Seq<Mail<T>>>, i: int) -> nat
    decreases boxes.len(),
{
    if boxes.len() == 0 {
        0
    } else {
        requests_of(boxes.drop_last(), i) + requests_in(boxes.last(), i)
    }
}

/// Number of replies to node `i` that nodes are about to send.
pub open spec fn replies_to<T>(phases: Seq<PhaseState<T>>, i: int) -> nat
    decreases phases.len(),
{
    if phases.len() == 0 {
        0
    } else {
        replies_to(phases.drop_last(), i) + answers(phases.last(), i)
    }
}

/// One if a node is about to reply to node `i`.
pub open spec fn answers<T>(phase: PhaseState<T>, i: int) -> nat {
    match phase {
        PhaseState::Reply { to, batch } => if to == i {
            1
        } else {
            0
        },
        _ => 0,
    }
}

impl<T> Cluster<T> {
    /// A node that has not left waits for a reply iff one request of its own, or the reply to it,
    /// is on its way.
    pub open spec fn one_request(self, i: int) -> bool {
        !(self.phases[i] is Left) ==> {
            let on_their_way = requests_of(self.boxes, i) + replies_to(self.phases, i)
                + replies_in(self.boxes[i]);
            on_their_way == if self.nodes[i].pending {
                1int
            } else {
                0
            }
        }
    }

    /// A node that asks does not wait for a reply.
    pub open spec fn asks_once(self, i: int) -> bool {
        self.phases[i] is Ask ==> !self.nodes[i].pending
    }
}

proof fn lemma_replies_update<T>(phases: Seq<PhaseState<T>>, k: int, phase: PhaseState<T>, i: int)
    requires
        0 <= k < phases.len(),
    ensures
        replies_to(phases.update(k, phase), i) == replies_to(phases, i) - answers(phases[k], i)
            + answers(phase, i),
    decreases phases.len(),
{
    let after = phases.update(k, phase);
    if k < phases.len() - 1 {
        lemma_replies_update(phases.drop_last(), k, phase, i);
        assert(after.drop_last() =~= phases.drop_last().update(k, phase));
    } else {
        assert(after.drop_last() =~= phases.drop_last());
    }
}

proof fn lemma_replies_none<T>(phases: Seq<PhaseState<T>>, i: int)
    requires
        forall|k: int| 0 <= k < phases.len() ==> !((#[trigger] phases[k]) is Reply),
    ensures
        replies_to(phases, i) == 0,
    decreases phases.len(),
{
    if phases.len() > 0 {
        let rest = phases.drop_last();
        assert forall|k: int| 0 <= k < rest.len() implies !((#[trigger] rest[k]) is Reply) by {
            assert(!(phases[k] is Reply));
        }
        lemma_replies_none(rest, i);
        assert(!(phases[phases.len() - 1] is Reply));
    }
}

proof fn lemma_mailbox<T>(mailbox: Seq<Mail<T>>, m: Mail<T>, i: int)
    ensures
        requests_in(mailbox.push(m), i) == requests_in(mailbox, i) + asks(m, i),
        replies_in(mailbox.push(m)) == replies_in(mailbox) + replies(m),
        mailbox.len() > 0 ==> requests_in(mailbox, i) == asks(mailbox[0], i) + requests_in(
            mailbox.drop_first(),
            i,
        ),
        mailbox.len() > 0 ==> replies_in(mailbox) == replies(mailbox[0]) + replies_in(
            mailbox.drop_first(),
        ),
    decreases mailbox.len(),
{
    assert(mailbox.push(m).drop_last() =~= mailbox);
    if mailbox.len() > 0 {
        let rest = mailbox.drop_last();
        lemma_mailbox(rest, m, i);
        let tail = mailbox.drop_first();
        if mailbox.len() > 1 {
            assert(tail.drop_last() =~= rest.drop_first());
            assert(tail.last() == mailbox.last());
        } else {
            assert(rest =~= Seq::<Mail<T>>::empty());
            assert(tail =~= Seq::<Mail<T>>::empty());
        }
    }
}

proof fn lemma_requests_update<T>(boxes: Seq<Seq<Mail<T>>>, k: int, mailbox: Seq<Mail<T>>, i: int)
    requires
        0 <= k < boxes.len(),
    ensures
        requests_of(boxes.update(k, mailbox), i) == requests_of(boxes, i) - requests_in(
            boxes[k],
            i,
        ) + requests_in(mailbox, i),
    decreases boxes.len(),
{
    let after = boxes.update(k, mailbox);
    if k < boxes.len() - 1 {
        lemma_requests_update(boxes.drop_last(), k, mailbox, i);
        assert(after.drop_last() =~= boxes.drop_last().update(k, mailbox));
    } else {
        assert(after.drop_last() =~= boxes.drop_last());
    }
}

proof fn lemma_requests_none<T>(boxes: Seq<Seq<Mail<T>>>, i: int)
    requires
        forall|k: int| 0 <= k < boxes.len() ==> (#[trigger] boxes[k]).len() == 0,
    ensures
        requests_of(boxes, i) == 0,
    decreases boxes.len(),
{
    if boxes.len() > 0 {
        let rest = boxes.drop_last();
        assert forall|k: int| 0 <= k < rest.len() implies (#[trigger] rest[k]).len() == 0 by {
            assert(boxes[k].len() == 0);
        }
        lemma_requests_none(rest, i);
        assert(boxes[boxes.len() - 1].len() == 0);
    }
}

proof fn lemma_one_request<T>(start: Cluster<T>, schedule: Seq<ClusterEvent<T>>, i: int)
    requires
        start.initial(),
        possible(start, schedule),
        0 <= i < outcome(start, schedule).nodes.len(),
    ensures
        outcome(start, schedule).one_request(i),
        outcome(start, schedule).asks_once(i),
    decreases schedule.len(),
{
    if schedule.len() == 0 {
        lemma_requests_none(start.boxes, i);
        assert(start.boxes[i].len() == 0);
        assert(start.phases[i] is Mailbox);
        assert forall|k: int| 0 <= k < start.phases.len() implies !((
        #[trigger] start.phases[k]) is Reply) by {
            assert(start.phases[k] is Mailbox);
        }
        lemma_replies_none(start.phases, i);
    } else {
        let w = outcome(start, schedule.drop_last());
        let e = schedule.last();
        let n = w.after(e);
        lemma_schedule(start, schedule.drop_last());
        lemma_one_request(start, schedule.drop_last(), i);
        match e {
            ClusterEvent::Step { node } => {
                lemma_one_request(start, schedule.drop_last(), node);
                assert(w.addressed(node) && w.phase_inv(node));
                let mailbox = w.boxes[node];
                lemma_replies_update(w.phases, node, n.phases[node], i);
                assert(n.phases =~= w.phases.update(node, n.phases[node]));
                match w.phases[node] {
                    PhaseState::Mailbox => {
                        if mailbox.len() > 0 {
                            lemma_mailbox(mailbox, mailbox[0], i);
                            lemma_requests_update(w.boxes, node, mailbox.drop_first(), i);
                        }
                    },
                    PhaseState::Reply { to, batch } => {
                        let m = Mail::Work { tasks: batch };
                        lemma_mailbox(w.boxes[to as int], m, i);
                        lemma_requests_update(w.boxes, to as int, w.boxes[to as int].push(m), i);
                    },
                    PhaseState::Ask { victim } => {
                        let m = Mail::<T>::Request { from: node as usize };
                        let v = victim as int;
                        lemma_mailbox(w.boxes[v], m, i);
                        lemma_requests_update(w.boxes, v, w.boxes[v].push(m), i);
                    },
                    _ => {},
                }
            },
            ClusterEvent::Complete { node } => {
                lemma_replies_update(w.phases, node, n.phases[node], i);
                assert(n.phases =~= w.phases.update(node, n.phases[node]));
            },
            ClusterEvent::Spawn { node, task } => {},
        }
    }
}

/// A node has at most one request on its way: as long as it has not left, it waits for a reply iff
/// one request of its own, or the reply to it, is on its way.
pub proof fn one_request_each<T>(start: Cluster<T>, schedule: Seq<ClusterEvent<T>>, i: int)
    requires
        start.initial(),
        possible(start, schedule),
        0 <= i < outcome(start, schedule).nodes.len(),
    ensures
        outcome(start, schedule).one_request(i),
{
    lemma_one_request(start, schedule, i);
}

} // verus!
