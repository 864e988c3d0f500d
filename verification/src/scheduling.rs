//! What the lifeline scheduler guarantees under every interleaving of its workers.
//!
//! A [`Crew`] is a scheduler at work: what the workers share, where each of them stands, and what
//! was spawned and executed so far. [`every_task_once`] proves, of every schedule, that each task
//! is executed exactly as often as it was spawned once the workers have left, and is never lost or
//! duplicated before; [`run_executes_everything`] that a run executes the tasks that were dealt and
//! those that running tasks spawned, each exactly once; [`exits_when_done`] that a worker leaves
//! only when all work is done; [`never_all_asleep`] that the workers never all sleep while work is
//! left; [`no_lost_wakeup`] that no worker sleeps through work that is published while it looks for
//! some.

use vstd::prelude::*;

use vstd::multiset::Multiset;

use crate::deque;
use crate::hypercube;
use crate::scheduler;
use crate::scheduler::{SharedState, Stage};
use crate::windows;

verus! {

/// A scheduler at work.
pub struct Crew<T> {
    pub state: SharedState<T>,
    pub stages: Seq<Stage<T>>,
    pub spawned: Multiset<T>,
    pub executed: Multiset<T>,
}

/// What can happen next.
pub enum CrewEvent<T> {
    /// The task that a worker runs spawns another one.
    Spawn { worker: int, task: T },
    /// The task that a worker runs is done.
    Complete { worker: int },
    /// A worker makes one step. A steal takes its whole batch in one step.
    Step { worker: int },
    /// A worker loses the race for the tasks of a victim, and goes on to the next one.
    Miss { worker: int },
}

/// The task that a worker has in hand.
pub open spec fn in_hand<T>(stage: Stage<T>) -> Seq<T> {
    match stage {
        Stage::Run { task, stolen } => seq![task],
        _ => Seq::empty(),
    }
}

/// A worker has a task that is not counted as done yet.
pub open spec fn is_busy<T>(stage: Stage<T>) -> bool {
    stage is Run || stage is Finish
}

/// Number of workers with a task that is not counted as done yet.
pub open spec fn busy<T>(stages: Seq<Stage<T>>) -> nat
    decreases stages.len(),
{
    if stages.len() == 0 {
        0
    } else {
        busy(stages.drop_last()) + if is_busy(stages.last()) {
            1nat
        } else {
            0
        }
    }
}

/// The tasks that the workers have in hand.
pub open spec fn hands<T>(stages: Seq<Stage<T>>) -> Seq<Seq<T>> {
    Seq::new(stages.len(), |i: int| in_hand(stages[i]))
}

/// A worker that is past its own deque: it has found it empty, and has put nothing into it since.
pub open spec fn past_own<T>(stage: Stage<T>) -> bool {
    match stage {
        Stage::Steal { snapshot, tried } => true,
        Stage::Check { snapshot } => true,
        Stage::Register { snapshot, next } => true,
        Stage::Park { snapshot } => true,
        Stage::Asleep { snapshot } => true,
        Stage::Declare { exit } => exit,
        Stage::Exit => true,
        _ => false,
    }
}

impl<T> Crew<T> {
    /// Work has been dealt, and every worker is about to start.
    pub open spec fn initial(self) -> bool {
        let n = self.stages.len();
        &&& 1 <= n <= usize::MAX
        &&& self.state.deques.len() == n
        &&& self.state.requests.len() == n
        &&& self.state.outstanding == self.state.queued()
        &&& self.state.outstanding > 0
        &&& 2 * (self.state.outstanding + 1) <= isize::MAX
        &&& !self.state.terminated
        &&& forall|i: int|
            0 <= i < n ==> #[trigger] self.stages[i] == (Stage::<T>::Drain { did_work: false })
        &&& self.spawned == windows::concat(self.state.deques).to_multiset()
        &&& self.executed == Multiset::<T>::empty()
    }

    /// The machine has room for one more task.
    pub open spec fn within_limits(self) -> bool {
        2 * (self.state.outstanding + 2) <= isize::MAX
    }

    /// Whether an event can happen.
    pub open spec fn enabled(self, e: CrewEvent<T>) -> bool {
        &&& self.within_limits()
        &&& match e {
            CrewEvent::Spawn { worker, task } => 0 <= worker < self.stages.len()
                && self.stages[worker] is Run,
            CrewEvent::Complete { worker } => 0 <= worker < self.stages.len()
                && self.stages[worker] is Run,
            CrewEvent::Step { worker } => 0 <= worker < self.stages.len(),
            CrewEvent::Miss { worker } => {
                &&& 0 <= worker < self.stages.len()
                &&& self.stages[worker] matches Stage::Steal { snapshot, tried }
                &&& tried < scheduler::victims(worker as usize, self.state.n()).len()
            },
        }
    }

    /// The crew after an event.
    pub open spec fn after(self, e: CrewEvent<T>) -> Crew<T> {
        match e {
            CrewEvent::Spawn { worker, task } => Crew {
                state: self.state.spawned(worker, task),
                spawned: self.spawned.add(Multiset::singleton(task)),
                ..self
            },
            CrewEvent::Complete { worker } => match self.stages[worker] {
                Stage::Run { task, stolen } => Crew {
                    stages: self.stages.update(worker, Stage::Finish { stolen }),
                    executed: self.executed.add(Multiset::singleton(task)),
                    ..self
                },
                _ => self,
            },
            CrewEvent::Step { worker } => {
                let (state, stage) = scheduler::step_next(
                    self.state,
                    worker as usize,
                    self.stages[worker],
                );
                Crew { state, stages: self.stages.update(worker, stage), ..self }
            },
            CrewEvent::Miss { worker } => match self.stages[worker] {
                Stage::Steal { snapshot, tried } => Crew {
                    stages: self.stages.update(
                        worker,
                        Stage::Steal { snapshot, tried: (tried + 1) as usize },
                    ),
                    ..self
                },
                _ => self,
            },
        }
    }

    /// Nothing is lost and nothing is duplicated: what was spawned is what was executed, what is
    /// queued and what the workers have in hand.
    pub open spec fn conserved(self) -> bool {
        self.spawned == self.executed.add(
            windows::concat(self.state.deques).to_multiset(),
        ).add(windows::concat(hands(self.stages)).to_multiset())
    }

    /// What is known of worker `i`.
    pub open spec fn worker_inv(self, i: int) -> bool {
        let stage = self.stages[i];
        &&& past_own(stage) ==> self.state.deques[i].len() == 0
        &&& stage is Declare || stage is Exit ==> self.state.outstanding == 0
    }

    /// The next step of worker `i` is safe.
    pub open spec fn safe(self, i: int) -> bool {
        &&& self.state.counted()
        &&& self.stages[i] is Finish ==> self.state.outstanding > self.state.queued()
    }

    /// Some worker is about to declare termination.
    pub open spec fn declaring(self) -> bool {
        exists|i: int| 0 <= i < self.stages.len() && (#[trigger] self.stages[i]) is Declare
    }

    /// The invariant that every event keeps.
    pub open spec fn inv(self) -> bool {
        let n = self.stages.len();
        &&& 1 <= n <= usize::MAX
        &&& self.state.deques.len() == n
        &&& self.state.requests.len() == n
        &&& self.state.outstanding == self.state.queued() + busy(self.stages)
        &&& 2 * (self.state.outstanding + 1) <= isize::MAX
        &&& self.state.terminated ==> self.state.outstanding == 0
        &&& self.state.outstanding == 0 ==> self.state.terminated || self.declaring()
        &&& forall|i: int| 0 <= i < n ==> #[trigger] self.worker_inv(i)
        &&& self.conserved()
    }
}

/// Whether every event of a schedule can happen when its turn comes.
pub open spec fn possible<T>(w: Crew<T>, schedule: Seq<CrewEvent<T>>) -> bool
    decreases schedule.len(),
{
    if schedule.len() == 0 {
        true
    } else {
        &&& possible(w, schedule.drop_last())
        &&& outcome(w, schedule.drop_last()).enabled(schedule.last())
    }
}

/// The crew after a schedule.
pub open spec fn outcome<T>(w: Crew<T>, schedule: Seq<CrewEvent<T>>) -> Crew<T>
    decreases schedule.len(),
{
    if schedule.len() == 0 {
        w
    } else {
        outcome(w, schedule.drop_last()).after(schedule.last())
    }
}

proof fn lemma_busy_update<T>(stages: Seq<Stage<T>>, i: int, stage: Stage<T>)
    requires
        0 <= i < stages.len(),
    ensures
        busy(stages.update(i, stage)) == busy(stages) - (if is_busy(stages[i]) {
            1int
        } else {
            0
        }) + (if is_busy(stage) {
            1int
        } else {
            0
        }),
    decreases stages.len(),
{
    let after = stages.update(i, stage);
    if i < stages.len() - 1 {
        lemma_busy_update(stages.drop_last(), i, stage);
        assert(after.drop_last() =~= stages.drop_last().update(i, stage));
    } else {
        assert(after.drop_last() =~= stages.drop_last());
    }
}

proof fn lemma_busy_some<T>(stages: Seq<Stage<T>>, i: int)
    requires
        0 <= i < stages.len(),
        is_busy(stages[i]),
    ensures
        busy(stages) > 0,
    decreases stages.len(),
{
    if i < stages.len() - 1 {
        lemma_busy_some(stages.drop_last(), i);
    }
}

proof fn lemma_busy_none<T>(stages: Seq<Stage<T>>)
    requires
        forall|i: int| 0 <= i < stages.len() ==> !is_busy(#[trigger] stages[i]),
    ensures
        busy(stages) == 0,
    decreases stages.len(),
{
    if stages.len() > 0 {
        let rest = stages.drop_last();
        assert forall|i: int| 0 <= i < rest.len() implies !is_busy(#[trigger] rest[i]) by {
            assert(!is_busy(stages[i]));
        }
        lemma_busy_none(rest);
        assert(!is_busy(stages[stages.len() - 1]));
    }
}

/// What the workers have in hand changes with the stage of one of them.
proof fn lemma_hands_update<T>(stages: Seq<Stage<T>>, i: int, stage: Stage<T>)
    requires
        0 <= i < stages.len(),
    ensures
        windows::concat(hands(stages.update(i, stage))).to_multiset().add(
            in_hand(stages[i]).to_multiset(),
        ) == windows::concat(hands(stages)).to_multiset().add(in_hand(stage).to_multiset()),
{
    assert(hands(stages.update(i, stage)) =~= hands(stages).update(i, in_hand(stage)));
    windows::lemma_concat_update(hands(stages), i, in_hand(stage));
}

proof fn lemma_singletons<T>(task: T)
    ensures
        seq![task].to_multiset() == Multiset::singleton(task),
        Seq::<T>::empty().to_multiset() == Multiset::<T>::empty(),
{
    broadcast use vstd::seq_lib::group_to_multiset_ensures;

    assert(seq![task] =~= Seq::<T>::empty().push(task));
    assert(Seq::<T>::empty().to_multiset() =~= Multiset::<T>::empty());
    assert(seq![task].to_multiset() =~= Multiset::singleton(task));
}

/// A worker moves on with neither a task nor a deque changing.
proof fn lemma_moves_on<T>(w: Crew<T>, n: Crew<T>, i: int)
    requires
        w.inv(),
        0 <= i < w.stages.len(),
        n.stages == w.stages.update(i, n.stages[i]),
        n.state.deques == w.state.deques,
        n.state.requests.len() == w.state.requests.len(),
        n.state.outstanding == w.state.outstanding,
        n.spawned == w.spawned,
        n.executed == w.executed,
        is_busy(n.stages[i]) == is_busy(w.stages[i]),
        in_hand(n.stages[i]) == in_hand(w.stages[i]),
        n.worker_inv(i),
        n.state.terminated ==> n.state.outstanding == 0,
        n.state.outstanding == 0 ==> n.state.terminated || n.declaring(),
    ensures
        n.inv(),
{
    lemma_busy_update(w.stages, i, n.stages[i]);
    assert(hands(n.stages) =~= hands(w.stages));
    assert forall|k: int| 0 <= k < n.stages.len() implies #[trigger] n.worker_inv(k) by {
        assert(w.worker_inv(k));
    }
}

proof fn lemma_spawn<T>(w: Crew<T>, i: int, task: T)
    requires
        w.inv(),
        w.enabled(CrewEvent::Spawn { worker: i, task }),
    ensures
        w.after(CrewEvent::Spawn { worker: i, task }).inv(),
{
    let n = w.after(CrewEvent::Spawn { worker: i, task });
    let own = w.state.deques[i];
    scheduler::lemma_concat_len(w.state.deques, i, own.push(task));
    windows::lemma_concat_update(w.state.deques, i, own.push(task));
    broadcast use vstd::seq_lib::group_to_multiset_ensures;

    lemma_busy_some(w.stages, i);
    assert(own.push(task).to_multiset() == own.to_multiset().insert(task));
    let before = windows::concat(w.state.deques).to_multiset();
    let after = windows::concat(n.state.deques).to_multiset();
    let one = Multiset::singleton(task);
    assert(after =~= before.add(one)) by {
        assert forall|t: T| after.count(t) == before.add(one).count(t) by {
            assert(after.add(own.to_multiset()).count(t) == after.count(t) + own.to_multiset().count(
                t,
            ));
            assert(before.add(own.push(task).to_multiset()).count(t) == before.count(t)
                + own.push(task).to_multiset().count(t));
            assert(own.to_multiset().insert(task).count(t) == own.to_multiset().count(t)
                + one.count(t));
        }
    }
    assert(n.spawned =~= n.executed.add(after).add(
        windows::concat(hands(n.stages)).to_multiset(),
    ));
    assert forall|k: int| 0 <= k < n.stages.len() implies #[trigger] n.worker_inv(k) by {
        assert(w.worker_inv(k));
    }
}

proof fn lemma_complete<T>(w: Crew<T>, i: int)
    requires
        w.inv(),
        w.enabled(CrewEvent::Complete { worker: i }),
    ensures
        w.after(CrewEvent::Complete { worker: i }).inv(),
{
    let n = w.after(CrewEvent::Complete { worker: i });
    match w.stages[i] {
        Stage::Run { task, stolen } => {
            lemma_busy_update(w.stages, i, n.stages[i]);
            lemma_hands_update(w.stages, i, n.stages[i]);
            lemma_singletons(task);
            let before = windows::concat(hands(w.stages)).to_multiset();
            let after = windows::concat(hands(n.stages)).to_multiset();
            assert(before =~= after.add(Multiset::singleton(task)));
            assert(n.spawned =~= n.executed.add(
                windows::concat(n.state.deques).to_multiset(),
            ).add(after));
            assert forall|k: int| 0 <= k < n.stages.len() implies #[trigger] n.worker_inv(k) by {
                assert(w.worker_inv(k));
            }
            lemma_busy_some(w.stages, i);
        },
        _ => {},
    }
}

proof fn lemma_take_own<T>(w: Crew<T>, i: int)
    requires
        w.inv(),
        w.enabled(CrewEvent::Step { worker: i }),
        w.stages[i] is Drain,
        w.state.deques[i].len() > 0,
    ensures
        w.after(CrewEvent::Step { worker: i }).inv(),
{
    let n = w.after(CrewEvent::Step { worker: i });
    let own = w.state.deques[i];
    let task = own.last();
    scheduler::lemma_concat_len(w.state.deques, i, own.drop_last());
    windows::lemma_concat_update(w.state.deques, i, own.drop_last());
    lemma_busy_update(w.stages, i, n.stages[i]);
    lemma_hands_update(w.stages, i, n.stages[i]);
    lemma_singletons(task);
    broadcast use vstd::seq_lib::group_to_multiset_ensures;

    assert(own =~= own.drop_last().push(task));
    let one = Multiset::singleton(task);
    let before = windows::concat(w.state.deques).to_multiset();
    let after = windows::concat(n.state.deques).to_multiset();
    let rest = own.drop_last().to_multiset();
    assert(own.to_multiset() == rest.insert(task));
    assert(before =~= after.add(one)) by {
        assert forall|t: T| before.count(t) == after.add(one).count(t) by {
            assert(after.add(own.to_multiset()).count(t) == after.count(t) + own.to_multiset().count(
                t,
            ));
            assert(before.add(rest).count(t) == before.count(t) + rest.count(t));
            assert(rest.insert(task).count(t) == rest.count(t) + one.count(t));
        }
    }
    let held = windows::concat(hands(w.stages)).to_multiset();
    let holds = windows::concat(hands(n.stages)).to_multiset();
    assert(holds =~= held.add(one));
    assert(n.spawned =~= n.executed.add(after).add(holds));
    assert forall|k: int| 0 <= k < n.stages.len() implies #[trigger] n.worker_inv(k) by {
        assert(w.worker_inv(k));
    }
}

proof fn lemma_steal_counts<T>(s: SharedState<T>, victim: int, me: int)
    requires
        0 <= victim < s.deques.len(),
        0 <= me < s.deques.len(),
        victim != me,
        s.deques[victim].len() > 0,
    ensures
        s.stolen(victim, me).queued() == s.queued() - 1,
        windows::concat(s.deques).to_multiset() == windows::concat(
            s.stolen(victim, me).deques,
        ).to_multiset().add(Multiset::singleton(s.deques[victim][0])),
{
    let from = s.deques[victim];
    let own = s.deques[me];
    let want = deque::batch(from.len() as int);
    let left = from.skip(want);
    let moved = from.subrange(1, want);
    let mid = s.deques.update(victim, left);
    scheduler::lemma_concat_len(s.deques, victim, left);
    scheduler::lemma_concat_len(mid, me, own + moved);
    windows::lemma_concat_update(s.deques, victim, left);
    windows::lemma_concat_update(mid, me, own + moved);
    vstd::seq_lib::lemma_multiset_commutative(own, moved);
    vstd::seq_lib::lemma_multiset_commutative(seq![from[0]], moved);
    vstd::seq_lib::lemma_multiset_commutative(seq![from[0]] + moved, left);
    lemma_singletons(from[0]);
    assert(from =~= (seq![from[0]] + moved) + left);
    let one = Multiset::singleton(from[0]);
    let before = windows::concat(s.deques).to_multiset();
    let middle = windows::concat(mid).to_multiset();
    let after = windows::concat(s.stolen(victim, me).deques).to_multiset();
    assert(s.stolen(victim, me).deques == mid.update(me, own + moved));
    assert forall|t: T| before.count(t) == after.add(one).count(t) by {
        assert(middle.add(from.to_multiset()).count(t) == middle.count(t)
            + from.to_multiset().count(t));
        assert(before.add(left.to_multiset()).count(t) == before.count(t)
            + left.to_multiset().count(t));
        assert(after.add(own.to_multiset()).count(t) == after.count(t) + own.to_multiset().count(
            t,
        ));
        assert(middle.add((own + moved).to_multiset()).count(t) == middle.count(t) + (own
            + moved).to_multiset().count(t));
        assert((own + moved).to_multiset().count(t) == own.to_multiset().count(t)
            + moved.to_multiset().count(t));
        assert(from.to_multiset().count(t) == one.count(t) + moved.to_multiset().count(t)
            + left.to_multiset().count(t));
    }
    assert(before =~= after.add(one));
}

proof fn lemma_steal<T>(w: Crew<T>, i: int)
    requires
        w.inv(),
        w.enabled(CrewEvent::Step { worker: i }),
        w.stages[i] is Steal,
    ensures
        w.after(CrewEvent::Step { worker: i }).inv(),
{
    let n = w.after(CrewEvent::Step { worker: i });
    let s = w.state;
    let order = scheduler::victims(i as usize, s.n());
    assert(w.worker_inv(i));
    lemma_still_declaring(w, n, i);
    match w.stages[i] {
        Stage::Steal { snapshot, tried } => {
            if tried < order.len() {
                let victim = order[tried as int] as int;
                scheduler::lemma_victims_are_others(i as usize, s.n());
                assert(order[tried as int] < s.n());
                if s.deques[victim].len() > 0 {
                    let task = s.deques[victim][0];
                    lemma_steal_counts(s, victim, i);
                    lemma_busy_update(w.stages, i, n.stages[i]);
                    lemma_hands_update(w.stages, i, n.stages[i]);
                    lemma_singletons(task);
                    let one = Multiset::singleton(task);
                    let held = windows::concat(hands(w.stages)).to_multiset();
                    let holds = windows::concat(hands(n.stages)).to_multiset();
                    assert(holds =~= held.add(one));
                    assert(n.spawned =~= n.executed.add(
                        windows::concat(n.state.deques).to_multiset(),
                    ).add(holds));
                    assert forall|k: int| 0 <= k < n.stages.len() implies
                        #[trigger] n.worker_inv(k) by {
                        assert(w.worker_inv(k));
                    }
                } else {
                    lemma_moves_on(w, n, i);
                }
            } else {
                lemma_moves_on(w, n, i);
            }
        },
        _ => {},
    }
}

proof fn lemma_step<T>(w: Crew<T>, i: int)
    requires
        w.inv(),
        w.enabled(CrewEvent::Step { worker: i }),
    ensures
        w.after(CrewEvent::Step { worker: i }).inv(),
{
    let n = w.after(CrewEvent::Step { worker: i });
    let s = w.state;
    assert(w.worker_inv(i));
    match w.stages[i] {
        Stage::Drain { did_work } => {
            if s.deques[i].len() > 0 {
                lemma_take_own(w, i);
            } else {
                lemma_still_declaring(w, n, i);
                lemma_moves_on(w, n, i);
            }
        },
        Stage::Run { task, stolen } => {
            lemma_still_declaring(w, n, i);
            lemma_moves_on(w, n, i);
        },
        Stage::Finish { stolen } => {
            lemma_busy_update(w.stages, i, n.stages[i]);
            lemma_busy_some(w.stages, i);
            assert(hands(n.stages) =~= hands(w.stages));
            assert forall|k: int| 0 <= k < n.stages.len() implies #[trigger] n.worker_inv(k) by {
                assert(w.worker_inv(k));
            }
            if n.state.outstanding == 0 {
                assert(n.stages[i] is Declare);
            }
        },
        Stage::Declare { exit } => {
            lemma_moves_on(w, n, i);
        },
        Stage::Steal { snapshot, tried } => {
            lemma_steal(w, i);
        },
        Stage::Check { snapshot } => {
            if s.outstanding == 0 {
                assert(n.stages[i] is Declare);
            }
            lemma_moves_on(w, n, i);
        },
        Stage::Register { snapshot, next } => {
            let buddies = hypercube::neighbours(i as usize, s.n());
            if next < buddies.len() {
                hypercube::neighbours_are_others(i as usize, s.n(), next as int);
            }
            lemma_still_declaring(w, n, i);
            lemma_moves_on(w, n, i);
        },
        Stage::Park { snapshot } => {
            lemma_still_declaring(w, n, i);
            lemma_moves_on(w, n, i);
        },
        Stage::Asleep { snapshot } => {
            lemma_still_declaring(w, n, i);
            lemma_moves_on(w, n, i);
        },
        Stage::Exit => {
            lemma_still_declaring(w, n, i);
            lemma_moves_on(w, n, i);
        },
    }
}

/// A worker that does not declare termination does not keep another from doing so.
proof fn lemma_still_declaring<T>(w: Crew<T>, n: Crew<T>, i: int)
    requires
        0 <= i < w.stages.len(),
        n.stages == w.stages.update(i, n.stages[i]),
        !(w.stages[i] is Declare),
    ensures
        w.declaring() ==> n.declaring(),
{
    if w.declaring() {
        let k = choose|k: int| 0 <= k < w.stages.len() && (#[trigger] w.stages[k]) is Declare;
        assert(n.stages[k] is Declare);
    }
}

proof fn lemma_schedule<T>(start: Crew<T>, schedule: Seq<CrewEvent<T>>)
    requires
        start.initial(),
        possible(start, schedule),
    ensures
        outcome(start, schedule).inv(),
    decreases schedule.len(),
{
    if schedule.len() == 0 {
        assert forall|i: int| 0 <= i < start.stages.len() implies !is_busy(
            #[trigger] start.stages[i],
        ) by {}
        lemma_busy_none(start.stages);
        assert forall|i: int| 0 <= i < start.stages.len() implies #[trigger] start.worker_inv(i) by {
            assert(start.stages[i] is Drain);
        }
        let held = hands(start.stages);
        assert forall|i: int| 0 <= i < held.len() implies (#[trigger] held[i]).len() == 0 by {
            assert(start.stages[i] is Drain);
        }
        windows::lemma_concat_empty(held);
        if start.state.queued() > 0 {
            lemma_singletons(windows::concat(start.state.deques)[0]);
        }
        assert(start.spawned =~= start.executed.add(
            windows::concat(start.state.deques).to_multiset(),
        ).add(windows::concat(held).to_multiset()));
    } else {
        let w = outcome(start, schedule.drop_last());
        lemma_schedule(start, schedule.drop_last());
        match schedule.last() {
            CrewEvent::Spawn { worker, task } => {
                lemma_spawn(w, worker, task);
            },
            CrewEvent::Complete { worker } => {
                lemma_complete(w, worker);
            },
            CrewEvent::Step { worker } => {
                lemma_step(w, worker);
            },
            CrewEvent::Miss { worker } => {
                let n = w.after(schedule.last());
                assert(w.worker_inv(worker));
                lemma_still_declaring(w, n, worker);
                lemma_moves_on(w, n, worker);
            },
        }
    }
}

/// Every task exactly once: under every interleaving of the workers, what was spawned is what was
/// executed, what is queued and what the workers have in hand, each task as often as it was
/// spawned. Once no task is outstanding, what was executed is what was spawned. The count of
/// outstanding tasks never underflows.
pub proof fn every_task_once<T>(start: Crew<T>, schedule: Seq<CrewEvent<T>>)
    requires
        start.initial(),
        possible(start, schedule),
    ensures
        ({
            let w = outcome(start, schedule);
            &&& w.conserved()
            &&& w.state.outstanding == 0 ==> w.executed == w.spawned
            &&& forall|i: int| 0 <= i < w.stages.len() ==> #[trigger] w.safe(i)
        }),
{
    let w = outcome(start, schedule);
    lemma_schedule(start, schedule);
    assert forall|i: int| 0 <= i < w.stages.len() implies #[trigger] w.safe(i) by {
        if w.stages[i] is Finish {
            lemma_busy_some(w.stages, i);
        }
    }
    if w.state.outstanding == 0 {
        lemma_hands_empty(w);
        assert(w.executed =~= w.spawned);
    }
}

proof fn lemma_hands_empty<T>(w: Crew<T>)
    requires
        w.inv(),
        w.state.outstanding == 0,
    ensures
        windows::concat(hands(w.stages)).to_multiset() == Multiset::<T>::empty(),
        windows::concat(w.state.deques).to_multiset() == Multiset::<T>::empty(),
{
    let held = hands(w.stages);
    assert forall|i: int| 0 <= i < held.len() implies (#[trigger] held[i]).len() == 0 by {
        if is_busy(w.stages[i]) {
            lemma_busy_some(w.stages, i);
        }
    }
    windows::lemma_concat_empty(held);
    assert(windows::concat(w.state.deques) =~= Seq::<T>::empty());
    broadcast use vstd::seq_lib::group_to_multiset_ensures;

    assert(Seq::<T>::empty().to_multiset() =~= Multiset::<T>::empty());
}

/// `n` workers about to start on `tasks`, dealt to them in turn.
pub open spec fn starting<T>(n: int, tasks: Seq<T>) -> Crew<T> {
    Crew {
        state: scheduler::seeded(n, tasks),
        stages: Seq::new(n as nat, |i: int| Stage::<T>::Drain { did_work: false }),
        spawned: tasks.to_multiset(),
        executed: Multiset::empty(),
    }
}

/// What workers share at the start, and where they stand, is where every schedule starts.
pub proof fn starting_is_initial<T>(n: int, tasks: Seq<T>)
    requires
        1 <= n <= usize::MAX,
        0 < tasks.len(),
        2 * (tasks.len() + 1) <= isize::MAX,
    ensures
        starting(n, tasks).initial(),
{
    scheduler::dealt_is_everything(tasks, n);
}

/// The tasks that running tasks spawn in a schedule.
pub open spec fn emitted<T>(schedule: Seq<CrewEvent<T>>) -> Multiset<T>
    decreases schedule.len(),
{
    if schedule.len() == 0 {
        Multiset::empty()
    } else {
        let before = emitted(schedule.drop_last());
        match schedule.last() {
            CrewEvent::Spawn { worker, task } => before.add(Multiset::singleton(task)),
            _ => before,
        }
    }
}

proof fn lemma_spawned<T>(start: Crew<T>, schedule: Seq<CrewEvent<T>>)
    ensures
        outcome(start, schedule).spawned == start.spawned.add(emitted(schedule)),
    decreases schedule.len(),
{
    if schedule.len() > 0 {
        lemma_spawned(start, schedule.drop_last());
    }
    assert(outcome(start, schedule).spawned =~= start.spawned.add(emitted(schedule)));
}

/// Without a task to start with, no task ever runs.
proof fn lemma_nothing_runs<T>(n: int, schedule: Seq<CrewEvent<T>>)
    requires
        1 <= n <= usize::MAX,
        possible(starting(n, Seq::<T>::empty()), schedule),
    ensures
        ({
            let w = outcome(starting(n, Seq::<T>::empty()), schedule);
            &&& w.stages.len() == n
            &&& w.state.deques.len() == n
            &&& forall|i: int| 0 <= i < n ==> (#[trigger] w.state.deques[i]).len() == 0
            &&& forall|i: int| 0 <= i < n ==> !is_busy(#[trigger] w.stages[i])
            &&& w.executed == Multiset::<T>::empty()
        }),
        emitted(schedule) == Multiset::<T>::empty(),
    decreases schedule.len(),
{
    let start = starting(n, Seq::<T>::empty());
    if schedule.len() > 0 {
        let w = outcome(start, schedule.drop_last());
        let after = w.after(schedule.last());
        lemma_nothing_runs(n, schedule.drop_last());
        match schedule.last() {
            CrewEvent::Step { worker } => {
                assert(!is_busy(w.stages[worker]));
                assert(w.state.deques[worker].len() == 0);
                if let Stage::Steal { snapshot, tried } = w.stages[worker] {
                    if tried < scheduler::victims(worker as usize, w.state.n()).len() {
                        scheduler::lemma_victims_are_others(worker as usize, w.state.n());
                        let victim = scheduler::victims(worker as usize, w.state.n())[tried as int];
                        assert(w.state.deques[victim as int].len() == 0);
                    }
                }
                assert(after.state.deques == w.state.deques);
            },
            _ => {},
        }
    }
}

/// A run executes everything: with `tasks` dealt to `n` workers, under every interleaving, once a
/// worker has left, the tasks that were executed to their end are the initial ones and those that
/// running tasks spawned, each exactly once.
pub proof fn run_executes_everything<T>(
    n: int,
    tasks: Seq<T>,
    schedule: Seq<CrewEvent<T>>,
    worker: int,
)
    requires
        1 <= n <= usize::MAX,
        possible(starting(n, tasks), schedule),
        0 <= worker < n,
        outcome(starting(n, tasks), schedule).stages[worker] is Exit,
    ensures
        outcome(starting(n, tasks), schedule).executed == tasks.to_multiset().add(
            emitted(schedule),
        ),
{
    if tasks.len() == 0 {
        broadcast use vstd::seq_lib::group_to_multiset_ensures;

        assert(tasks =~= Seq::<T>::empty());
        assert(tasks.to_multiset() =~= Multiset::<T>::empty());
        lemma_nothing_runs::<T>(n, schedule);
        assert(tasks.to_multiset().add(emitted(schedule)) =~= Multiset::<T>::empty());
    } else {
        lemma_start_fits(starting(n, tasks), schedule);
        starting_is_initial(n, tasks);
        lemma_crew_size(starting(n, tasks), schedule);
        exits_when_done(starting(n, tasks), schedule, worker);
        lemma_spawned(starting(n, tasks), schedule);
    }
}

/// A crew in which something happens starts within the limits of the machine.
proof fn lemma_start_fits<T>(start: Crew<T>, schedule: Seq<CrewEvent<T>>)
    requires
        possible(start, schedule),
        schedule.len() > 0,
    ensures
        start.within_limits(),
    decreases schedule.len(),
{
    if schedule.len() > 1 {
        lemma_start_fits(start, schedule.drop_last());
    }
}

proof fn lemma_crew_size<T>(start: Crew<T>, schedule: Seq<CrewEvent<T>>)
    requires
        possible(start, schedule),
    ensures
        outcome(start, schedule).stages.len() == start.stages.len(),
    decreases schedule.len(),
{
    if schedule.len() > 0 {
        lemma_crew_size(start, schedule.drop_last());
    }
}

/// A worker leaves only when all work is done: once one has left, no task is outstanding, and
/// every task that was spawned was executed.
pub proof fn exits_when_done<T>(start: Crew<T>, schedule: Seq<CrewEvent<T>>, worker: int)
    requires
        start.initial(),
        possible(start, schedule),
        0 <= worker < outcome(start, schedule).stages.len(),
        outcome(start, schedule).stages[worker] is Exit,
    ensures
        outcome(start, schedule).state.outstanding == 0,
        outcome(start, schedule).executed == outcome(start, schedule).spawned,
{
    lemma_schedule(start, schedule);
    assert(outcome(start, schedule).worker_inv(worker));
    every_task_once(start, schedule);
}

/// The workers never all sleep, or leave, while work is left: when each of them sleeps or has left,
/// every task was executed, and termination is declared, so that the sleeping ones wake and leave.
pub proof fn never_all_asleep<T>(start: Crew<T>, schedule: Seq<CrewEvent<T>>)
    requires
        start.initial(),
        possible(start, schedule),
        forall|i: int|
            0 <= i < outcome(start, schedule).stages.len() ==> {
                ||| (#[trigger] outcome(start, schedule).stages[i]) is Asleep
                ||| outcome(start, schedule).stages[i] is Exit
            },
    ensures
        outcome(start, schedule).state.outstanding == 0,
        outcome(start, schedule).state.terminated,
        outcome(start, schedule).executed == outcome(start, schedule).spawned,
{
    let w = outcome(start, schedule);
    lemma_schedule(start, schedule);
    assert forall|i: int| 0 <= i < w.stages.len() implies !is_busy(#[trigger] w.stages[i]) by {}
    lemma_busy_none(w.stages);
    assert forall|i: int| 0 <= i < w.state.deques.len() implies (
    #[trigger] w.state.deques[i]).len() == 0 by {
        assert(w.worker_inv(i));
        assert(past_own(w.stages[i]));
    }
    windows::lemma_concat_empty(w.state.deques);
    every_task_once(start, schedule);
}

/// The generation that a worker has seen before it began to look for work, while it looks for work
/// or sleeps.
pub open spec fn snapshot_of<T>(stage: Stage<T>) -> Option<u64> {
    match stage {
        Stage::Steal { snapshot, tried } => Some(snapshot),
        Stage::Check { snapshot } => Some(snapshot),
        Stage::Register { snapshot, next } => Some(snapshot),
        Stage::Park { snapshot } => Some(snapshot),
        Stage::Asleep { snapshot } => Some(snapshot),
        _ => None,
    }
}

/// Number of tasks that a schedule spawns.
pub open spec fn published<T>(schedule: Seq<CrewEvent<T>>) -> nat
    decreases schedule.len(),
{
    if schedule.len() == 0 {
        0
    } else {
        published(schedule.drop_last()) + if schedule.last() is Spawn {
            1nat
        } else {
            0
        }
    }
}

/// The worker looks for work or sleeps all the time.
pub open spec fn keeps_looking<T>(w: Crew<T>, schedule: Seq<CrewEvent<T>>, worker: int) -> bool
    decreases schedule.len(),
{
    &&& snapshot_of(outcome(w, schedule).stages[worker]) is Some
    &&& schedule.len() > 0 ==> keeps_looking(w, schedule.drop_last(), worker)
}

/// A worker that looks for work keeps the generation that it has seen, and the generation counts
/// what is published.
proof fn lemma_keeps_snapshot<T>(w: Crew<T>, schedule: Seq<CrewEvent<T>>, worker: int)
    requires
        possible(w, schedule),
        0 <= worker < w.stages.len(),
        keeps_looking(w, schedule, worker),
        published(schedule) <= u64::MAX,
    ensures
        outcome(w, schedule).stages.len() == w.stages.len(),
        snapshot_of(outcome(w, schedule).stages[worker]) == snapshot_of(w.stages[worker]),
        ({
            let count = w.state.generation + published(schedule);
            outcome(w, schedule).state.generation == if count > u64::MAX {
                count - u64::MAX - 1
            } else {
                count
            }
        }),
    decreases schedule.len(),
{
    if schedule.len() > 0 {
        let before = outcome(w, schedule.drop_last());
        lemma_keeps_snapshot(w, schedule.drop_last(), worker);
        reveal_with_fuel(keeps_looking, 2);
        assert(snapshot_of(before.stages[worker]) is Some);
        if let CrewEvent::Step { worker: i } = schedule.last() {
            let (state, stage) = scheduler::step_next(
                before.state,
                i as usize,
                before.stages[i],
            );
            assert(snapshot_of(before.stages[i]) is Some && snapshot_of(stage) is Some
                ==> snapshot_of(stage) == snapshot_of(before.stages[i]));
        }
    }
}

/// No wake-up is lost: if anything is published after a worker has begun to look for work, the
/// worker does not fall asleep, and if it sleeps it wakes. (The generation is a 64-bit number: it
/// tells fewer than 2^64 spawns apart.)
pub proof fn no_lost_wakeup<T>(w: Crew<T>, schedule: Seq<CrewEvent<T>>, worker: usize)
    requires
        possible(w, schedule),
        0 <= worker < w.stages.len(),
        w.stages[worker as int] == (Stage::<T>::Steal {
            snapshot: w.state.generation,
            tried: 0,
        }),
        keeps_looking(w, schedule, worker as int),
        0 < published(schedule) <= u64::MAX,
    ensures
        ({
            let v = outcome(w, schedule);
            !(scheduler::step_next(v.state, worker, v.stages[worker as int]).1 is Asleep)
        }),
{
    lemma_keeps_snapshot(w, schedule, worker as int);
}

} // verus!
