//! Priority work stealing: per-task priority over a small set of levels.
//!
//! A priority pool is one deque per level, where level 0 is the highest. A push goes to a level; a
//! pop and a steal scan from the highest level on and take the first task that they find.

use vstd::prelude::*;

use crate::deque::{Stealer, Worker};
use crate::steal::Steal;

verus! {

/// Owner handle of a priority pool with `K` levels. Level 0 is the highest priority.
pub struct PriorityWorker<T, const K: usize> {
    levels: Vec<Worker<T>>,
}

impl<T, const K: usize> View for PriorityWorker<T, K> {
    type V = Seq<Seq<T>>;

    /// The tasks of each level, from the oldest to the newest.
    closed spec fn view(&self) -> Seq<Seq<T>> {
        Seq::new(self.levels@.len(), |i: int| self.levels@[i]@)
    }
}

/// Number of tasks of all levels.
pub open spec fn total<T>(levels: Seq<Seq<T>>) -> nat
    decreases levels.len(),
{
    if levels.len() == 0 {
        0
    } else {
        total(levels.drop_last()) + levels.last().len()
    }
}

/// Level `l` is the highest one with a task.
pub open spec fn is_highest<T>(levels: Seq<Seq<T>>, l: int) -> bool {
    &&& 0 <= l < levels.len()
    &&& levels[l].len() > 0
    &&& forall|i: int| 0 <= i < l ==> (#[trigger] levels[i]).len() == 0
}

/// No level has a task.
pub open spec fn all_empty<T>(levels: Seq<Seq<T>>) -> bool {
    forall|i: int| 0 <= i < levels.len() ==> (#[trigger] levels[i]).len() == 0
}

/// The level that a requested level stands for, with `k` levels.
pub open spec fn clamped(level: int, k: int) -> int {
    if level < k {
        level
    } else {
        k - 1
    }
}

/// The level that a requested level stands for is the smaller of it and the last one: every level
/// that the pool has is its own, and no two of them share their tasks.
pub proof fn a_level_stands_for_itself(level: int, k: int)
    requires
        0 <= level,
        1 <= k,
    ensures
        level < k ==> clamped(level, k) == level,
        level >= k ==> clamped(level, k) == k - 1,
        0 <= clamped(level, k) < k,
        clamped(level, k) <= level,
        forall|other: int|
            0 <= other ==> (level <= other ==> clamped(level, k) <= #[trigger] clamped(other, k)),
        forall|other: int|
            0 <= other < k && level < k && level != other ==> clamped(level, k)
                != #[trigger] clamped(other, k),
{
}

/// Of two tasks that are pushed into an empty pool at two of its levels, in either order, the one
/// of the higher level is found first, and the other one after it.
pub proof fn a_higher_level_goes_first<T>(levels: Seq<Seq<T>>, a: int, b: int, x: T, y: T)
    requires
        0 <= a < b < levels.len(),
        forall|i: int| 0 <= i < levels.len() ==> (#[trigger] levels[i]).len() == 0,
    ensures
        ({
            let k = levels.len() as int;
            let la = clamped(a, k);
            let lb = clamped(b, k);
            let first = levels.update(la, levels[la].push(x));
            let both = first.update(lb, first[lb].push(y));
            let second = levels.update(lb, levels[lb].push(y));
            &&& both == second.update(la, second[la].push(x))
            &&& both[a] == seq![x] && both[b] == seq![y]
            &&& forall|l: int| #[trigger]
                is_highest(both, l) <==> l == a && both[l].last() == x && both[l][0] == x
            &&& forall|l: int| #[trigger]
                is_highest(both.update(a, Seq::empty()), l) <==> l == b && both[l].last() == y
                    && both[l][0] == y
        }),
{
    let k = levels.len() as int;
    let la = clamped(a, k);
    let lb = clamped(b, k);
    let first = levels.update(la, levels[la].push(x));
    let both = first.update(lb, first[lb].push(y));
    let second = levels.update(lb, levels[lb].push(y));
    assert(levels[a].len() == 0 && levels[b].len() == 0);
    assert(both =~= second.update(la, second[la].push(x)));
    assert(both[a] =~= seq![x]);
    assert(both[b] =~= seq![y]);
    let rest = both.update(a, Seq::empty());
    assert(both[a].len() == 1 && rest[b].len() == 1 && rest[a].len() == 0);
    assert forall|i: int| 0 <= i < k && i != a && i != b implies (#[trigger] both[i]).len() == 0
        && rest[i].len() == 0 by {
        assert(levels[i].len() == 0);
    }
}

/// The number of tasks of all levels is the sum over the levels.
pub proof fn every_level_counts<T>(levels: Seq<Seq<T>>, l: int, tasks: Seq<T>)
    ensures
        total(Seq::<Seq<T>>::empty()) == 0,
        total(levels.push(tasks)) == total(levels) + tasks.len(),
        0 <= l < levels.len() ==> total(levels.update(l, tasks)) - tasks.len() == total(levels)
            - levels[l].len(),
{
    assert(levels.push(tasks).drop_last() =~= levels);
    if 0 <= l < levels.len() {
        lemma_total_update(levels, l, tasks);
    }
}

/// What a scan over the levels reports, by what each level answered: the first task, else that
/// the caller should try again if some level was contended, else that there is nothing.
pub open spec fn verdict<T>(answers: Seq<Steal<T>>) -> Steal<T>
    decreases answers.len(),
{
    if answers.len() == 0 {
        Steal::Empty
    } else {
        let before = verdict(answers.drop_last());
        match before {
            Steal::Success(task) => before,
            Steal::Retry => if answers.last() is Success {
                answers.last()
            } else {
                before
            },
            Steal::Empty => answers.last(),
        }
    }
}

/// What a scan knows after one more level: `so_far` of the levels before, and what this level
/// answered.
pub fn scan<T>(so_far: Steal<T>, answer: Steal<T>) -> (r: Steal<T>)
    ensures
        r == match so_far {
            Steal::Success(task) => so_far,
            Steal::Retry => if answer is Success {
                answer
            } else {
                so_far
            },
            Steal::Empty => answer,
        },
{
    match so_far {
        Steal::Success(task) => Steal::Success(task),
        Steal::Retry => match answer {
            Steal::Success(task) => Steal::Success(task),
            _ => Steal::Retry,
        },
        Steal::Empty => answer,
    }
}

/// A scan reports a task iff some level gave one, and then the first of them; it asks to try again
/// iff some level was contended and none gave a task; it reports nothing iff all were empty.
pub proof fn verdict_is_first_task<T>(answers: Seq<Steal<T>>)
    ensures
        match verdict(answers) {
            Steal::Success(task) => exists|l: int|
                0 <= l < answers.len() && #[trigger] answers[l] == Steal::Success(task) && forall|
                    i: int,
                | 0 <= i < l ==> !((#[trigger] answers[i]) is Success),
            Steal::Retry => (exists|l: int|
                0 <= l < answers.len() && (#[trigger] answers[l]) is Retry) && forall|i: int|
                0 <= i < answers.len() ==> !((#[trigger] answers[i]) is Success),
            Steal::Empty => forall|i: int|
                0 <= i < answers.len() ==> (#[trigger] answers[i]) is Empty,
        },
    decreases answers.len(),
{
    if answers.len() > 0 {
        let rest = answers.drop_last();
        let last = answers.len() - 1;
        verdict_is_first_task(rest);
        assert(forall|i: int| 0 <= i < rest.len() ==> rest[i] == answers[i]);
        match verdict(rest) {
            Steal::Success(task) => {
                let l = choose|l: int|
                    0 <= l < rest.len() && #[trigger] rest[l] == Steal::Success(task) && forall|
                        i: int,
                    | 0 <= i < l ==> !((#[trigger] rest[i]) is Success);
                assert(answers[l] == Steal::Success(task));
                assert forall|i: int| 0 <= i < l implies !((#[trigger] answers[i]) is Success) by {
                    assert(!(rest[i] is Success));
                }
            },
            Steal::Retry => {
                let l = choose|l: int| 0 <= l < rest.len() && (#[trigger] rest[l]) is Retry;
                assert(answers[l] is Retry);
                assert forall|i: int| 0 <= i < last implies !((#[trigger] answers[i]) is Success) by {
                    assert(!(rest[i] is Success));
                }
                assert(answers[last] == answers.last());
            },
            Steal::Empty => {
                assert forall|i: int| 0 <= i < last implies (#[trigger] answers[i]) is Empty by {
                    assert(rest[i] is Empty);
                }
                assert(answers[last] == answers.last());
            },
        }
    }
}

proof fn lemma_total_is_zero<T>(levels: Seq<Seq<T>>)
    ensures
        total(levels) == 0 <==> all_empty(levels),
    decreases levels.len(),
{
    if levels.len() > 0 {
        let rest = levels.drop_last();
        lemma_total_is_zero(rest);
        if all_empty(levels) {
            assert forall|i: int| 0 <= i < rest.len() implies (#[trigger] rest[i]).len() == 0 by {
                assert(levels[i].len() == 0);
            }
            assert(levels[levels.len() - 1].len() == 0);
        }
        if total(levels) == 0 {
            assert forall|i: int| 0 <= i < levels.len() implies (#[trigger] levels[i]).len() == 0 by {
                if i < rest.len() {
                    assert(rest[i].len() == 0);
                }
            }
        }
    }
}

proof fn lemma_total_take<T>(levels: Seq<Seq<T>>, n: int)
    requires
        0 <= n < levels.len(),
    ensures
        total(levels.take(n + 1)) == total(levels.take(n)) + levels[n].len(),
        total(levels.take(n + 1)) <= total(levels),
    decreases levels.len(),
{
    assert(levels.take(n + 1).drop_last() =~= levels.take(n));
    if n + 1 < levels.len() {
        let rest = levels.drop_last();
        lemma_total_take(rest, n);
        assert(rest.take(n + 1) =~= levels.take(n + 1));
        assert(rest.take(n) =~= levels.take(n));
    } else {
        assert(levels.take(n + 1) =~= levels);
    }
}

proof fn lemma_total_update<T>(levels: Seq<Seq<T>>, l: int, tasks: Seq<T>)
    requires
        0 <= l < levels.len(),
    ensures
        total(levels.update(l, tasks)) + levels[l].len() == total(levels) + tasks.len(),
    decreases levels.len(),
{
    let rest = levels.drop_last();
    if l < rest.len() {
        lemma_total_update(rest, l, tasks);
        assert(levels.update(l, tasks).drop_last() =~= rest.update(l, tasks));
    } else {
        assert(levels.update(l, tasks).drop_last() =~= rest);
    }
}

/// One empty deque for each of `count` levels.
fn empty_levels<T>(count: usize) -> (levels: Vec<Worker<T>>)
    ensures
        levels@.len() == count,
        forall|i: int|
            0 <= i < count ==> (#[trigger] levels@[i]).wf() && !levels@[i].is_fifo()
                && levels@[i]@.len() == 0,
{
    let mut levels: Vec<Worker<T>> = Vec::new();
    while levels.len() < count
        invariant
            levels.len() <= count,
            forall|i: int|
                0 <= i < levels.len() ==> (#[trigger] levels@[i]).wf() && !levels@[i].is_fifo()
                    && levels@[i]@.len() == 0,
        decreases count - levels.len(),
    {
        levels.push(Worker::new());
    }
    levels
}

impl<T, const K: usize> PriorityWorker<T, K> {
    /// Every level is a deque of its own.
    pub closed spec fn wf(&self) -> bool {
        &&& K >= 1
        &&& self.levels@.len() == K
        &&& forall|i: int|
            0 <= i < K ==> (#[trigger] self.levels@[i]).wf() && !self.levels@[i].is_fifo()
    }

    /// The identities of the deques of the levels. A pool keeps them for good.
    pub closed spec fn ids(&self) -> Seq<int> {
        Seq::new(self.levels@.len(), |i: int| self.levels@[i].id())
    }

    /// Create a priority pool with `K` levels, at least one.
    pub fn new() -> (w: Self)
        requires
            K >= 1,
        ensures
            w.wf(),
            w@.len() == K,
            forall|i: int| 0 <= i < K ==> (#[trigger] w@[i]).len() == 0,
            all_empty(w@),
            total(w@) == 0,
    {
        let w = PriorityWorker { levels: empty_levels(K) };
        proof {
            lemma_total_is_zero(w@);
        }
        w
    }

    /// A thief handle that steals highest-priority-first across all levels.
    pub fn stealer(&self) -> (s: PriorityStealer<T, K>)
        requires
            self.wf(),
        ensures
            s.wf(),
            s.of() == self.ids(),
    {
        let mut levels: Vec<Stealer<T>> = Vec::new();
        while levels.len() < K
            invariant
                self.wf(),
                levels.len() <= K,
                forall|i: int|
                    0 <= i < levels.len() ==> (#[trigger] levels@[i]).of() == self.ids()[i],
            decreases K - levels.len(),
        {
            levels.push(self.levels[levels.len()].stealer());
        }
        let s = PriorityStealer { levels };
        assert(s.of() =~= self.ids());
        s
    }

    /// Number of priority levels.
    pub fn levels(&self) -> (r: usize)
        ensures
            r == K,
    {
        K
    }

    /// Total queued tasks across all levels.
    pub fn len(&self) -> (r: usize)
        requires
            self.wf(),
            total(self@) <= usize::MAX,
        ensures
            r == total(self@),
    {
        let mut n: usize = 0;
        let mut i: usize = 0;
        while i < K
            invariant
                self.wf(),
                i <= K,
                self@.len() == K,
                n == total(self@.take(i as int)),
                total(self@) <= usize::MAX,
            decreases K - i,
        {
            proof {
                lemma_total_take(self@, i as int);
            }
            n = n + self.levels[i].len();
            i += 1;
        }
        assert(self@.take(i as int) =~= self@);
        n
    }

    /// Whether every level is empty.
    pub fn is_empty(&self) -> (r: bool)
        requires
            self.wf(),
        ensures
            r <==> forall|i: int| 0 <= i < self@.len() ==> (#[trigger] self@[i]).len() == 0,
            r == all_empty(self@),
            r == (total(self@) == 0),
    {
        proof {
            lemma_total_is_zero(self@);
        }
        let mut i: usize = 0;
        while i < K
            invariant
                self.wf(),
                i <= K,
                self@.len() == K,
                forall|k: int| 0 <= k < i ==> (#[trigger] self@[k]).len() == 0,
                total(self@) == 0 <==> all_empty(self@),
            decreases K - i,
        {
            if !self.levels[i].is_empty() {
                assert(self@[i as int].len() > 0);
                return false;
            }
            assert(self@[i as int].len() == 0);
            i += 1;
        }
        true
    }

    /// Push `task` at priority `level`; a level past the last one stands for the last one.
    pub fn push(&mut self, task: T, level: usize)
        requires
            old(self).wf(),
            2 * (old(self)@[clamped(level as int, K as int)].len() + 1) <= isize::MAX,
        ensures
            final(self).wf(),
            final(self).ids() == old(self).ids(),
            final(self)@ == old(self)@.update(
                clamped(level as int, K as int),
                old(self)@[clamped(level as int, K as int)].push(task),
            ),
            ({
                let l: int = if level < K {
                    level as int
                } else {
                    K - 1
                };
                &&& final(self)@[l] == old(self)@[l].push(task)
                &&& final(self)@.len() == K
                &&& forall|i: int|
                    0 <= i < K && i != l ==> #[trigger] final(self)@[i] == old(self)@[i]
            }),
            total(final(self)@) == total(old(self)@) + 1,
    {
        let lvl = if level < K {
            level
        } else {
            K - 1
        };
        self.levels[lvl].push(task);
        proof {
            assert(self.ids() =~= old(self).ids());
            assert(self@ =~= old(self)@.update(lvl as int, old(self)@[lvl as int].push(task)));
            lemma_total_update(old(self)@, lvl as int, old(self)@[lvl as int].push(task));
        }
    }

    /// Pop the newest task of the highest level that has one.
    pub fn pop(&mut self) -> (r: Option<T>)
        requires
            old(self).wf(),
        ensures
            final(self).wf(),
            final(self).ids() == old(self).ids(),
            match r {
                Some(task) => exists|l: int| #[trigger]
                    is_highest(old(self)@, l) && task == old(self)@[l].last() && final(self)@
                        == old(self)@.update(l, old(self)@[l].drop_last()),
                None => all_empty(old(self)@) && final(self)@ == old(self)@,
            },
            match r {
                Some(task) => exists|l: int|
                    0 <= l < K && (#[trigger] old(self)@[l]).len() > 0 && task
                        == old(self)@[l].last() && final(self)@ == old(self)@.update(
                        l,
                        old(self)@[l].drop_last(),
                    ) && forall|i: int| 0 <= i < l ==> (#[trigger] old(self)@[i]).len() == 0,
                None => final(self)@ == old(self)@ && forall|i: int|
                    0 <= i < K ==> (#[trigger] old(self)@[i]).len() == 0,
            },
            total(final(self)@) == total(old(self)@) - if r is Some {
                1int
            } else {
                0
            },
    {
        let ghost before = self@;
        let mut i: usize = 0;
        while i < K
            invariant
                self.wf(),
                before == old(self)@,
                before.len() == K,
                self@ == before,
                self.ids() == old(self).ids(),
                i <= K,
                forall|k: int| 0 <= k < i ==> (#[trigger] before[k]).len() == 0,
            decreases K - i,
        {
            let ghost levels = self.levels@;
            let got = self.levels[i].pop();
            assert(self.ids() =~= old(self).ids());
            assert(before[i as int] == levels[i as int]@);
            match got {
                Some(task) => {
                    proof {
                        assert(self@ =~= before.update(i as int, before[i as int].drop_last()));
                        lemma_total_update(before, i as int, before[i as int].drop_last());
                        assert(is_highest(before, i as int));
                    }
                    return Some(task);
                },
                None => {
                    assert(self@ =~= before);
                },
            }
            i += 1;
        }
        None
    }
}

impl<T, const K: usize> Default for PriorityWorker<T, K> {
    fn default() -> (w: Self)
        ensures
            K >= 1 ==> w.wf() && w@.len() == K && all_empty(w@) && total(w@) == 0,
            forall|i: int| 0 <= i < w@.len() ==> (#[trigger] w@[i]).len() == 0,
    {
        let w = PriorityWorker { levels: empty_levels(K) };
        proof {
            lemma_total_is_zero(w@);
        }
        w
    }
}

/// A thief handle of a priority pool.
pub struct PriorityStealer<T, const K: usize> {
    levels: Vec<Stealer<T>>,
}

impl<T, const K: usize> Clone for PriorityStealer<T, K> {
    fn clone(&self) -> (s: Self)
        ensures
            s.wf() == self.wf(),
            s.of() == self.of(),
    {
        let mut levels: Vec<Stealer<T>> = Vec::new();
        while levels.len() < self.levels.len()
            invariant
                levels.len() <= self.levels@.len(),
                forall|i: int|
                    0 <= i < levels.len() ==> (#[trigger] levels@[i]).of() == self.of()[i],
            decreases self.levels@.len() - levels.len(),
        {
            levels.push(self.levels[levels.len()].clone());
        }
        let s = PriorityStealer { levels };
        assert(s.of() =~= self.of());
        s
    }
}

impl<T, const K: usize> PriorityStealer<T, K> {
    /// One thief handle per level.
    pub closed spec fn wf(&self) -> bool {
        self.levels@.len() == K
    }

    /// The identities of the deques that the handles of the levels steal from.
    pub closed spec fn of(&self) -> Seq<int> {
        Seq::new(self.levels@.len(), |i: int| self.levels@[i].of())
    }

    /// Steal the oldest task of the highest level that has one.
    pub fn steal(&self, victim: &mut PriorityWorker<T, K>) -> (r: Steal<T>)
        requires
            self.wf(),
            old(victim).wf(),
            self.of() == old(victim).ids(),
        ensures
            final(victim).wf(),
            final(victim).ids() == old(victim).ids(),
            match r {
                Steal::Success(task) => exists|l: int| #[trigger]
                    is_highest(old(victim)@, l) && task == old(victim)@[l][0] && final(victim)@
                        == old(victim)@.update(l, old(victim)@[l].drop_first()),
                Steal::Retry => false,
                Steal::Empty => all_empty(old(victim)@) && final(victim)@ == old(victim)@,
            },
            match r {
                Steal::Success(task) => exists|l: int|
                    0 <= l < K && (#[trigger] old(victim)@[l]).len() > 0 && task
                        == old(victim)@[l][0] && final(victim)@ == old(victim)@.update(
                        l,
                        old(victim)@[l].drop_first(),
                    ) && forall|i: int| 0 <= i < l ==> (#[trigger] old(victim)@[i]).len() == 0,
                Steal::Retry => false,
                Steal::Empty => final(victim)@ == old(victim)@ && forall|i: int|
                    0 <= i < K ==> (#[trigger] old(victim)@[i]).len() == 0,
            },
            total(final(victim)@) == total(old(victim)@) - if r is Success {
                1int
            } else {
                0
            },
    {
        let ghost before = victim@;
        let mut so_far: Steal<T> = Steal::Empty;
        let mut i: usize = 0;
        while i < K
            invariant
                self.wf(),
                victim.wf(),
                before == old(victim)@,
                before.len() == K,
                victim@ == before,
                victim.ids() == old(victim).ids(),
                self.of() == victim.ids(),
                i <= K,
                so_far is Empty,
                forall|k: int| 0 <= k < i ==> (#[trigger] before[k]).len() == 0,
            decreases K - i,
        {
            let ghost levels = victim.levels@;
            proof {
                assert(self.of()[i as int] == victim.ids()[i as int]);
            }
            let answer = self.levels[i].steal(&mut victim.levels[i]);
            assert(victim.ids() =~= old(victim).ids());
            assert(before[i as int] == levels[i as int]@);
            so_far = scan(so_far, answer);
            if let Steal::Success(task) = so_far {
                proof {
                    assert(victim@ =~= before.update(i as int, before[i as int].drop_first()));
                    lemma_total_update(before, i as int, before[i as int].drop_first());
                    assert(is_highest(before, i as int));
                }
                return Steal::Success(task);
            }
            assert(victim@ =~= before);
            i += 1;
        }
        so_far
    }
}

} // verus!
