//! Work stealing with multiplicity, under every interleaving.
//!
//! A queue with multiplicity is a list of tasks that only grows and a `head` that only moves
//! forward. A consumer loads `head`, looks for the task there, and raises `head` behind it. Two
//! consumers may load the same `head`, so a task can be delivered more than once. This module
//! states the moves of such a queue, of any number of consumers, and what holds after any number
//! of moves in any order: every task that `head` has passed is delivered at least once, each
//! consumer delivers it at most once, nothing is delivered that was not put, and thieves that
//! claim a task before they take it never take the same one, so that as many deliveries as tasks
//! are each task once. The steps of [`crate::idempotent`] and [`crate::linked`] are such moves.

use vstd::prelude::*;

use vstd::set_lib;

use crate::windows;

verus! {

/// What all parties share: how far the queue is taken, how many tasks were put, and which tasks
/// are claimed by a thief.
#[verifier::ext_equal]
pub struct Shared {
    pub head: int,
    pub put: int,
    pub claimed: Set<int>,
}

/// Where a consumer stands in its current operation.
pub enum Consumer {
    /// Between operations.
    Idle,
    /// Has loaded `head`.
    Looking { head: int },
    /// Has found the task at `head`.
    Holding { head: int },
    /// Has claimed the task at `head`.
    Claimed { head: int },
    /// Has found the task at `head` claimed by another.
    Passed { head: int },
}

/// `head` raised to at least `to`.
pub open spec fn raised(s: Shared, to: int) -> Shared {
    Shared {
        head: if s.head < to {
            to
        } else {
            s.head
        },
        ..s
    }
}

/// One move of a consumer, which claims tasks before it takes them iff it is `exclusive`;
/// `delivered` is the task that the move delivers.
pub open spec fn moves(
    exclusive: bool,
    s: Shared,
    c: Consumer,
    next: Shared,
    after: Consumer,
    delivered: Option<int>,
) -> bool {
    match (c, after) {
        (Consumer::Idle, Consumer::Looking { head }) => head == s.head && next == s
            && delivered is None,
        (Consumer::Looking { head }, Consumer::Looking { head: same }) => same == head && next == s
            && delivered is None,
        (Consumer::Looking { head }, Consumer::Idle) => next == s && delivered is None,
        (Consumer::Looking { head }, Consumer::Holding { head: same }) => same == head && 0 <= head
            < s.put && next == s && delivered is None,
        (Consumer::Holding { head }, Consumer::Idle) => !exclusive && next == raised(s, head + 1)
            && delivered == Some(head),
        (Consumer::Holding { head }, Consumer::Claimed { head: same }) => exclusive && same == head
            && !s.claimed.contains(head) && next == (Shared {
            claimed: s.claimed.insert(head),
            ..s
        }) && delivered is None,
        (Consumer::Holding { head }, Consumer::Passed { head: same }) => exclusive && same == head
            && s.claimed.contains(head) && next == s && delivered is None,
        (Consumer::Claimed { head }, Consumer::Idle) => next == raised(s, head + 1) && delivered
            == Some(head),
        (Consumer::Passed { head }, Consumer::Idle) => next == raised(s, head + 1)
            && delivered is None,
        (Consumer::Idle, Consumer::Idle) => next == s && delivered is None,
        _ => false,
    }
}

/// A move that ends an operation with a task leaves `head` behind that task, and no move takes
/// `head` back, or past a task other than the one that the consumer holds.
pub proof fn a_move_raises_the_head(
    exclusive: bool,
    s: Shared,
    c: Consumer,
    next: Shared,
    after: Consumer,
    delivered: Option<int>,
)
    requires
        moves(exclusive, s, c, next, after, delivered),
    ensures
        next.put == s.put,
        next.head >= s.head,
        next.head != s.head ==> after is Idle && match c {
            Consumer::Holding { head } => next.head == head + 1,
            Consumer::Claimed { head } => next.head == head + 1,
            Consumer::Passed { head } => next.head == head + 1,
            _ => false,
        },
        delivered matches Some(k) ==> next.head > k && after is Idle && (c == (Consumer::Holding {
            head: k,
        }) || c == (Consumer::Claimed { head: k })),
        forall|k: int| #[trigger] s.claimed.contains(k) ==> next.claimed.contains(k),
        forall|k: int| #[trigger]
            next.claimed.contains(k) && !s.claimed.contains(k) ==> exclusive && after == (
            Consumer::Claimed { head: k }),
{
}

/// One move of the owner: one more task, or nothing that anybody sees.
pub open spec fn puts(s: Shared, next: Shared) -> bool {
    next == s || next == (Shared { put: s.put + 1, ..s })
}

/// A queue in use: what is shared, where each consumer stands, which of them claim tasks before
/// they take them, and what each has delivered so far.
pub struct Crowd {
    pub shared: Shared,
    pub consumers: Seq<Consumer>,
    pub exclusive: Seq<bool>,
    pub delivered: Seq<Seq<int>>,
}

impl Crowd {
    /// Consumer `c` has task `k` for itself: it has delivered it, or claimed it.
    pub open spec fn has(self, c: int, k: int) -> bool {
        self.delivered[c].contains(k) || self.consumers[c] == (Consumer::Claimed { head: k })
    }

    /// Nobody has done anything yet.
    pub open spec fn initial(self) -> bool {
        &&& self.shared == (Shared { head: 0, put: 0, claimed: Set::empty() })
        &&& self.consumers.len() == self.exclusive.len() == self.delivered.len()
        &&& forall|c: int|
            0 <= c < self.consumers.len() ==> (#[trigger] self.consumers[c]) is Idle
        &&& forall|c: int|
            0 <= c < self.delivered.len() ==> (#[trigger] self.delivered[c]).len() == 0
    }

    /// One move of the owner or of one consumer leads to `next`.
    pub open spec fn steps_to(self, next: Crowd) -> bool {
        ||| puts(self.shared, next.shared) && next == (Crowd { shared: next.shared, ..self })
        ||| exists|c: int| 0 <= c < self.consumers.len() && #[trigger] self.consumes(next, c)
    }

    /// One move of consumer `c` leads to `next`.
    pub open spec fn consumes(self, next: Crowd, c: int) -> bool {
        exists|delivered: Option<int>|
            #![trigger moves(self.exclusive[c], self.shared, self.consumers[c], next.shared, next.consumers[c], delivered)]
            {
                &&& moves(
                    self.exclusive[c],
                    self.shared,
                    self.consumers[c],
                    next.shared,
                    next.consumers[c],
                    delivered,
                )
                &&& next == (Crowd {
                    shared: next.shared,
                    consumers: self.consumers.update(c, next.consumers[c]),
                    exclusive: self.exclusive,
                    delivered: self.delivered.update(
                        c,
                        match delivered {
                            Some(k) => self.delivered[c].push(k),
                            None => self.delivered[c],
                        },
                    ),
                })
            }
    }

    /// What a consumer knows: it looks where it has not been, and what it holds was put.
    pub open spec fn consumer_inv(self, c: int) -> bool {
        match self.consumers[c] {
            Consumer::Idle => true,
            Consumer::Looking { head } => 0 <= head <= self.shared.head && self.below(c, head),
            Consumer::Holding { head } => 0 <= head <= self.shared.head && head < self.shared.put
                && self.below(c, head),
            Consumer::Claimed { head } => 0 <= head <= self.shared.head && head < self.shared.put
                && self.below(c, head) && self.shared.claimed.contains(head) && self.exclusive[c],
            Consumer::Passed { head } => 0 <= head <= self.shared.head && head < self.shared.put
                && self.below(c, head) && self.shared.claimed.contains(head),
        }
    }

    /// What consumer `c` has delivered lies before task `k`.
    pub open spec fn below(self, c: int, k: int) -> bool {
        forall|i: int| 0 <= i < self.delivered[c].len() ==> (#[trigger] self.delivered[c][i]) < k
    }

    /// Consumer `c` has delivered tasks in order, each before `head`.
    pub open spec fn in_order(self, c: int) -> bool {
        &&& forall|i: int, j: int|
            0 <= i < j < self.delivered[c].len() ==> (#[trigger] self.delivered[c][i]) < (
            #[trigger] self.delivered[c][j])
        &&& forall|i: int|
            0 <= i < self.delivered[c].len() ==> 0 <= (#[trigger] self.delivered[c][i])
                < self.shared.head
    }

    /// Some consumer has task `k`.
    pub open spec fn covered(self, k: int) -> bool {
        exists|c: int| 0 <= c < self.consumers.len() && #[trigger] self.has(c, k)
    }

    /// Task `k` is claimed, if an exclusive consumer has it.
    pub open spec fn claims(self, c: int, k: int) -> bool {
        self.exclusive[c] && self.has(c, k) ==> self.shared.claimed.contains(k)
    }

    /// Not both of two exclusive consumers have task `k`.
    pub open spec fn apart(self, c: int, d: int, k: int) -> bool {
        self.exclusive[c] && self.exclusive[d] && c != d ==> !(self.has(c, k) && self.has(d, k))
    }

    /// The invariant that every move keeps.
    pub open spec fn inv(self) -> bool {
        let n = self.consumers.len();
        &&& self.exclusive.len() == n
        &&& self.delivered.len() == n
        &&& 0 <= self.shared.head <= self.shared.put
        &&& forall|c: int| 0 <= c < n ==> #[trigger] self.consumer_inv(c)
        &&& forall|c: int| 0 <= c < n ==> #[trigger] self.in_order(c)
        &&& forall|k: int| 0 <= k < self.shared.head ==> #[trigger] self.covered(k)
        &&& forall|k: int| #[trigger] self.shared.claimed.contains(k) ==> self.covered(k)
        &&& forall|c: int, k: int| 0 <= c < n ==> #[trigger] self.claims(c, k)
        &&& forall|c: int, d: int, k: int|
            0 <= c < n && 0 <= d < n ==> #[trigger] self.apart(c, d, k)
    }
}

proof fn lemma_consumes(w: Crowd, next: Crowd, c: int)
    requires
        w.inv(),
        0 <= c < w.consumers.len(),
        w.consumes(next, c),
    ensures
        next.inv(),
{
    let n = w.consumers.len();
    let s = w.shared;
    let t = next.shared;
    let delivered = choose|delivered: Option<int>|
        #![trigger moves(w.exclusive[c], w.shared, w.consumers[c], next.shared, next.consumers[c], delivered)]
        {
            &&& moves(
                w.exclusive[c],
                w.shared,
                w.consumers[c],
                next.shared,
                next.consumers[c],
                delivered,
            )
            &&& next == (Crowd {
                shared: next.shared,
                consumers: w.consumers.update(c, next.consumers[c]),
                exclusive: w.exclusive,
                delivered: w.delivered.update(
                    c,
                    match delivered {
                        Some(k) => w.delivered[c].push(k),
                        None => w.delivered[c],
                    },
                ),
            })
        };
    assert(w.consumer_inv(c) && w.in_order(c));
    assert(forall|d: int| 0 <= d < n && d != c ==> next.consumers[d] == w.consumers[d]);
    assert(forall|d: int| 0 <= d < n && d != c ==> next.delivered[d] == w.delivered[d]);
    let own = w.delivered[c];
    assert forall|d: int, k: int| 0 <= d < n && #[trigger] w.has(d, k) implies next.has(d, k) by {
        if d == c {
            if own.contains(k) {
                let i = choose|i: int| 0 <= i < own.len() && own[i] == k;
                assert(next.delivered[c][i] == k);
            } else {
                match delivered {
                    Some(x) => {
                        assert(next.delivered[c][own.len() as int] == k);
                    },
                    None => {},
                }
            }
        }
    }
    assert forall|d: int, k: int| 0 <= d < n && #[trigger] next.has(d, k) implies w.has(d, k) || (
    d == c && (delivered == Some(k) || next.consumers[c] == (Consumer::Claimed { head: k }))) by {
        if d == c && next.delivered[c].contains(k) {
            let i = choose|i: int|
                0 <= i < next.delivered[c].len() && next.delivered[c][i] == k;
            if i < own.len() {
                assert(own[i] == k);
            }
        }
    }
    assert forall|d: int| 0 <= d < n implies #[trigger] next.consumer_inv(d) by {
        assert(w.consumer_inv(d));
        if d == c {
            assert(w.in_order(c));
        }
    }
    assert forall|d: int| 0 <= d < n implies #[trigger] next.in_order(d) by {
        assert(w.in_order(d));
        assert(w.consumer_inv(d));
    }
    assert forall|k: int| w.covered(k) implies #[trigger] next.covered(k) by {
        let d = choose|d: int| 0 <= d < n && #[trigger] w.has(d, k);
        assert(next.has(d, k));
    }
    assert forall|k: int| delivered == Some(k) implies #[trigger] next.covered(k) by {
        assert(next.delivered[c][own.len() as int] == k);
        assert(next.has(c, k));
    }
    assert forall|k: int| 0 <= k < t.head implies #[trigger] next.covered(k) by {
        if k < s.head {
            assert(w.covered(k));
        } else {
            match w.consumers[c] {
                Consumer::Passed { head } => {
                    assert(w.shared.claimed.contains(head));
                    assert(w.covered(head));
                },
                _ => {},
            }
        }
    }
    assert forall|k: int| #[trigger] t.claimed.contains(k) implies next.covered(k) by {
        if s.claimed.contains(k) {
            assert(w.covered(k));
        } else {
            assert(next.has(c, k));
        }
    }
    assert forall|d: int, k: int| 0 <= d < n implies #[trigger] next.claims(d, k) by {
        assert(w.claims(d, k));
    }
    assert forall|d: int, e: int, k: int| 0 <= d < n && 0 <= e < n implies #[trigger] next.apart(
        d,
        e,
        k,
    ) by {
        assert(w.apart(d, e, k));
        assert(w.claims(d, k) && w.claims(e, k));
    }
}

proof fn lemma_steps(w: Crowd, next: Crowd)
    requires
        w.inv(),
        w.steps_to(next),
    ensures
        next.inv(),
        next.shared.head >= w.shared.head,
        next.consumers.len() == w.consumers.len(),
        next.exclusive == w.exclusive,
{
    if puts(w.shared, next.shared) && next == (Crowd { shared: next.shared, ..w }) {
        let n = w.consumers.len();
        assert forall|c: int, k: int| 0 <= c < n implies #[trigger] next.has(c, k) == w.has(
            c,
            k,
        ) by {}
        assert forall|c: int| 0 <= c < n implies #[trigger] next.consumer_inv(c) by {
            assert(w.consumer_inv(c));
        }
        assert forall|c: int| 0 <= c < n implies #[trigger] next.in_order(c) by {
            assert(w.in_order(c));
        }
        assert forall|k: int| w.covered(k) implies #[trigger] next.covered(k) by {
            let c = choose|c: int| 0 <= c < n && #[trigger] w.has(c, k);
            assert(next.has(c, k));
        }
        assert forall|k: int| 0 <= k < next.shared.head implies #[trigger] next.covered(k) by {
            assert(w.covered(k));
        }
        assert forall|k: int| #[trigger] next.shared.claimed.contains(k) implies next.covered(k) by {
            assert(w.shared.claimed.contains(k));
            assert(w.covered(k));
        }
        assert forall|c: int, k: int| 0 <= c < n implies #[trigger] next.claims(c, k) by {
            assert(w.claims(c, k));
        }
        assert forall|c: int, d: int, k: int| 0 <= c < n && 0 <= d < n implies #[trigger] next.apart(
            c,
            d,
            k,
        ) by {
            assert(w.apart(c, d, k));
        }
    } else {
        let c = choose|c: int| 0 <= c < w.consumers.len() && #[trigger] w.consumes(next, c);
        lemma_consumes(w, next, c);
    }
}

/// A run: each state leads to the next.
pub open spec fn is_run(run: Seq<Crowd>) -> bool {
    &&& run.len() > 0
    &&& run[0].initial()
    &&& forall|i: int|
        #![trigger run[i]]
        0 < i < run.len() ==> run[i - 1].steps_to(run[i])
}

proof fn lemma_run(run: Seq<Crowd>)
    requires
        is_run(run),
    ensures
        run.last().inv(),
        run.last().consumers.len() == run[0].consumers.len(),
        run.last().exclusive == run[0].exclusive,
    decreases run.len(),
{
    let w = run.last();
    if run.len() == 1 {
        assert forall|k: int| #[trigger] w.shared.claimed.contains(k) implies w.covered(k) by {}
        assert forall|c: int, k: int| 0 <= c < w.consumers.len() implies !#[trigger] w.has(
            c,
            k,
        ) by {
            assert(w.consumers[c] is Idle);
            assert(w.delivered[c].len() == 0);
        }
        assert forall|c: int| 0 <= c < w.consumers.len() implies #[trigger] w.in_order(c) by {
            assert(w.delivered[c].len() == 0);
        }
    } else {
        let rest = run.drop_last();
        assert forall|i: int|
            #![trigger rest[i]]
            0 < i < rest.len() implies rest[i - 1].steps_to(rest[i]) by {
            assert(run[i] == rest[i]);
            assert(run[i - 1] == rest[i - 1]);
        }
        assert(rest[0] == run[0]);
        lemma_run(rest);
        assert(run[run.len() - 1] == w);
        assert(run[run.len() - 2] == rest.last());
        lemma_steps(rest.last(), w);
    }
}

/// At least once: after any moves in any order, every task that `head` has passed was delivered,
/// or is claimed by a consumer that is about to deliver it. So once nobody is in an operation,
/// every task before `head` was delivered.
pub proof fn at_least_once(run: Seq<Crowd>, k: int)
    requires
        is_run(run),
        0 <= k < run.last().shared.head,
    ensures
        exists|c: int|
            0 <= c < run.last().consumers.len() && {
                ||| #[trigger] run.last().delivered[c].contains(k)
                ||| run.last().consumers[c] == (Consumer::Claimed { head: k })
            },
        (forall|c: int|
            0 <= c < run.last().consumers.len() ==> (#[trigger] run.last().consumers[c]) is Idle)
            ==> exists|c: int|
            0 <= c < run.last().consumers.len() && #[trigger] run.last().delivered[c].contains(k),
{
    let w = run.last();
    lemma_run(run);
    assert(w.covered(k));
    let c = choose|c: int| 0 <= c < w.consumers.len() && #[trigger] w.has(c, k);
    assert(w.delivered[c].contains(k) || w.consumers[c] == (Consumer::Claimed { head: k }));
    if forall|c: int| 0 <= c < w.consumers.len() ==> (#[trigger] w.consumers[c]) is Idle {
        assert(w.consumers[c] is Idle);
    }
}

/// How often a task was delivered.
pub open spec fn deliveries(delivered: Seq<Seq<int>>, k: int) -> nat
    decreases delivered.len(),
{
    if delivered.len() == 0 {
        0
    } else {
        deliveries(delivered.drop_last(), k) + delivered.last().to_multiset().count(k)
    }
}

proof fn lemma_increasing_once(s: Seq<int>, k: int)
    requires
        forall|i: int, j: int| 0 <= i < j < s.len() ==> (#[trigger] s[i]) < (#[trigger] s[j]),
    ensures
        s.to_multiset().count(k) <= 1,
{
    assert(s.no_duplicates());
    s.lemma_multiset_has_no_duplicates();
    if s.to_multiset().contains(k) {
        assert(s.to_multiset().count(k) == 1);
    }
}

proof fn lemma_deliveries_bound(delivered: Seq<Seq<int>>, k: int)
    requires
        forall|c: int, i: int, j: int|
            0 <= c < delivered.len() && 0 <= i < j < delivered[c].len() ==> (
            #[trigger] delivered[c][i]) < (#[trigger] delivered[c][j]),
    ensures
        deliveries(delivered, k) <= delivered.len(),
    decreases delivered.len(),
{
    if delivered.len() > 0 {
        let rest = delivered.drop_last();
        assert forall|c: int, i: int, j: int|
            0 <= c < rest.len() && 0 <= i < j < rest[c].len() implies (#[trigger] rest[c][i]) < (
        #[trigger] rest[c][j]) by {
            assert(delivered[c][i] < delivered[c][j]);
        }
        lemma_deliveries_bound(rest, k);
        let last = delivered.last();
        assert forall|i: int, j: int| 0 <= i < j < last.len() implies (#[trigger] last[i]) < (
        #[trigger] last[j]) by {
            assert(delivered[delivered.len() - 1][i] < delivered[delivered.len() - 1][j]);
        }
        lemma_increasing_once(last, k);
    }
}

/// Bounded multiplicity: after any moves in any order, a task was delivered at most as often as
/// there are consumers, since each consumer delivers tasks in order, none of them twice.
pub proof fn multiplicity_is_bounded(run: Seq<Crowd>, k: int)
    requires
        is_run(run),
    ensures
        deliveries(run.last().delivered, k) <= run[0].consumers.len(),
        forall|c: int, i: int, j: int|
            0 <= c < run.last().delivered.len() && 0 <= i < j < run.last().delivered[c].len() ==> (
            #[trigger] run.last().delivered[c][i]) < (#[trigger] run.last().delivered[c][j]),
{
    let w = run.last();
    lemma_run(run);
    assert forall|c: int, i: int, j: int|
        0 <= c < w.delivered.len() && 0 <= i < j < w.delivered[c].len() implies (
    #[trigger] w.delivered[c][i]) < (#[trigger] w.delivered[c][j]) by {
        assert(w.in_order(c));
    }
    lemma_deliveries_bound(w.delivered, k);
}

/// No phantoms: after any moves in any order, what was delivered was put.
pub proof fn no_phantoms(run: Seq<Crowd>, c: int, k: int)
    requires
        is_run(run),
        0 <= c < run.last().delivered.len(),
        run.last().delivered[c].contains(k),
    ensures
        0 <= k < run.last().shared.put,
{
    let w = run.last();
    lemma_run(run);
    assert(w.in_order(c));
    let i = choose|i: int| 0 <= i < w.delivered[c].len() && w.delivered[c][i] == k;
    assert(w.delivered[c][i] < w.shared.head);
}

/// No two thieves: after any moves in any order, no task was delivered by two consumers that
/// claim tasks before they take them.
pub proof fn no_two_thieves(run: Seq<Crowd>, c: int, d: int, k: int)
    requires
        is_run(run),
        0 <= c < run[0].consumers.len(),
        0 <= d < run[0].consumers.len(),
        c != d,
        run[0].exclusive[c],
        run[0].exclusive[d],
    ensures
        !(run.last().delivered[c].contains(k) && run.last().delivered[d].contains(k)),
{
    lemma_run(run);
    assert(run.last().apart(c, d, k));
}

/// The deliveries of a task, counted consumer by consumer, are those in what all delivered.
proof fn lemma_deliveries_total(delivered: Seq<Seq<int>>, k: int)
    ensures
        deliveries(delivered, k) == windows::concat(delivered).to_multiset().count(k),
    decreases delivered.len(),
{
    broadcast use vstd::seq_lib::group_to_multiset_ensures;

    if delivered.len() > 0 {
        lemma_deliveries_total(delivered.drop_last(), k);
        vstd::seq_lib::lemma_multiset_commutative(
            windows::concat(delivered.drop_last()),
            delivered.last(),
        );
    }
}

proof fn lemma_not_delivered(delivered: Seq<Seq<int>>, k: int)
    requires
        forall|c: int| 0 <= c < delivered.len() ==> !(#[trigger] delivered[c]).contains(k),
    ensures
        deliveries(delivered, k) == 0,
    decreases delivered.len(),
{
    broadcast use vstd::seq_lib::group_to_multiset_ensures;

    if delivered.len() > 0 {
        let rest = delivered.drop_last();
        assert forall|c: int| 0 <= c < rest.len() implies !(#[trigger] rest[c]).contains(k) by {
            assert(!delivered[c].contains(k));
        }
        lemma_not_delivered(rest, k);
        assert(!delivered[delivered.len() - 1].contains(k));
    }
}

proof fn lemma_delivered_once(delivered: Seq<Seq<int>>, k: int)
    requires
        forall|c: int, i: int, j: int|
            0 <= c < delivered.len() && 0 <= i < j < delivered[c].len() ==> (
            #[trigger] delivered[c][i]) < (#[trigger] delivered[c][j]),
        forall|c: int, d: int|
            0 <= c < d < delivered.len() ==> !((#[trigger] delivered[c]).contains(k) && (
            #[trigger] delivered[d]).contains(k)),
    ensures
        deliveries(delivered, k) <= 1,
        forall|c: int|
            0 <= c < delivered.len() && (#[trigger] delivered[c]).contains(k) ==> deliveries(
                delivered,
                k,
            ) == 1,
    decreases delivered.len(),
{
    broadcast use vstd::seq_lib::group_to_multiset_ensures;

    if delivered.len() > 0 {
        let rest = delivered.drop_last();
        let last = delivered.last();
        assert forall|c: int, i: int, j: int|
            0 <= c < rest.len() && 0 <= i < j < rest[c].len() implies (#[trigger] rest[c][i]) < (
        #[trigger] rest[c][j]) by {
            assert(delivered[c][i] < delivered[c][j]);
        }
        assert forall|c: int, d: int| 0 <= c < d < rest.len() implies !((
        #[trigger] rest[c]).contains(k) && (#[trigger] rest[d]).contains(k)) by {
            assert(!(delivered[c].contains(k) && delivered[d].contains(k)));
        }
        lemma_delivered_once(rest, k);
        assert forall|i: int, j: int| 0 <= i < j < last.len() implies (#[trigger] last[i]) < (
        #[trigger] last[j]) by {
            assert(delivered[delivered.len() - 1][i] < delivered[delivered.len() - 1][j]);
        }
        lemma_increasing_once(last, k);
        if last.contains(k) {
            assert forall|c: int| 0 <= c < rest.len() implies !(#[trigger] rest[c]).contains(k) by {
                assert(!(delivered[c].contains(k) && delivered[delivered.len() - 1].contains(k)));
            }
            lemma_not_delivered(rest, k);
        }
        assert forall|c: int| 0 <= c < delivered.len() && (#[trigger] delivered[c]).contains(
            k,
        ) implies deliveries(delivered, k) == 1 by {
            if c < rest.len() {
                assert(rest[c].contains(k));
            }
        }
    }
}

proof fn lemma_some_delivered(delivered: Seq<Seq<int>>, k: int) -> (c: int)
    requires
        windows::concat(delivered).contains(k),
    ensures
        0 <= c < delivered.len(),
        delivered[c].contains(k),
    decreases delivered.len(),
{
    let all = windows::concat(delivered);
    let i = choose|i: int| 0 <= i < all.len() && all[i] == k;
    if delivered.len() == 0 {
        0
    } else {
        let before = windows::concat(delivered.drop_last());
        if i < before.len() {
            assert(before[i] == k);
            lemma_some_delivered(delivered.drop_last(), k)
        } else {
            assert(delivered.last()[i - before.len()] == k);
            delivered.len() - 1
        }
    }
}

/// Exactly once, where every consumer claims tasks before it takes them: after any moves in any
/// order, no task was delivered twice, so no more deliveries were made than tasks put. Once as many
/// were made, every task was delivered exactly once, and until another task is put, no move
/// delivers any.
pub proof fn exclusive_deliveries(run: Seq<Crowd>)
    requires
        is_run(run),
        forall|c: int| 0 <= c < run[0].exclusive.len() ==> #[trigger] run[0].exclusive[c],
    ensures
        forall|k: int| #[trigger] deliveries(run.last().delivered, k) <= 1,
        windows::concat(run.last().delivered).len() <= run.last().shared.put,
        windows::concat(run.last().delivered).len() == run.last().shared.put ==> {
            &&& forall|k: int|
                0 <= k < run.last().shared.put ==> #[trigger] deliveries(run.last().delivered, k)
                    == 1
            &&& run.last().shared.head == run.last().shared.put
            &&& forall|next: Crowd| #[trigger]
                run.last().steps_to(next) && next.shared.put == run.last().shared.put
                    ==> next.delivered == run.last().delivered
        },
{
    let w = run.last();
    let n = w.shared.put;
    lemma_exclusive_counts(run);
    if windows::concat(w.delivered).len() == n {
        assert forall|next: Crowd| #[trigger] w.steps_to(next) && next.shared.put == n implies
            next.delivered == w.delivered by {
            let more = run.push(next);
            assert forall|i: int|
                #![trigger more[i]]
                0 < i < more.len() implies more[i - 1].steps_to(more[i]) by {
                if i < run.len() {
                    assert(run[i] == more[i]);
                    assert(run[i - 1] == more[i - 1]);
                }
            }
            assert(more[0] == run[0]);
            lemma_run(run);
            lemma_exclusive_counts(more);
            if !(puts(w.shared, next.shared) && next == (Crowd { shared: next.shared, ..w })) {
                let c = choose|c: int|
                    0 <= c < w.consumers.len() && #[trigger] w.consumes(next, c);
                crate::scheduler::lemma_concat_len(w.delivered, c, next.delivered[c]);
                assert(next.delivered =~= w.delivered);
            }
        }
    }
}

proof fn lemma_exclusive_counts(run: Seq<Crowd>)
    requires
        is_run(run),
        forall|c: int| 0 <= c < run[0].exclusive.len() ==> #[trigger] run[0].exclusive[c],
    ensures
        forall|k: int| #[trigger] deliveries(run.last().delivered, k) <= 1,
        windows::concat(run.last().delivered).len() <= run.last().shared.put,
        windows::concat(run.last().delivered).len() == run.last().shared.put ==> {
            &&& forall|k: int|
                0 <= k < run.last().shared.put ==> #[trigger] deliveries(run.last().delivered, k)
                    == 1
            &&& run.last().shared.head == run.last().shared.put
        },
{
    broadcast use vstd::seq_lib::group_to_multiset_ensures;

    let w = run.last();
    let n = w.shared.put;
    let all = windows::concat(w.delivered);
    lemma_run(run);
    assert forall|k: int| #[trigger] deliveries(w.delivered, k) <= 1 by {
        lemma_exclusive_once(run, k);
    }
    assert forall|k: int| all.to_multiset().contains(k) implies all.to_multiset().count(k)
        == 1 by {
        lemma_deliveries_total(w.delivered, k);
        assert(deliveries(w.delivered, k) <= 1);
    }
    all.lemma_multiset_has_no_duplicates_conv();
    all.unique_seq_to_set();
    let taken = all.to_set();
    let tasks = set_lib::set_int_range(0, w.shared.head);
    assert forall|k: int| taken.contains(k) implies tasks.contains(k) by {
        assert(all.contains(k));
        let c = lemma_some_delivered(w.delivered, k);
        assert(w.in_order(c));
        let i = choose|i: int| 0 <= i < w.delivered[c].len() && w.delivered[c][i] == k;
        assert(w.delivered[c][i] < w.shared.head);
    }
    set_lib::lemma_int_range(0, w.shared.head);
    set_lib::lemma_len_subset(taken, tasks);
    if all.len() == n {
        set_lib::lemma_subset_equality(taken, tasks);
        assert forall|k: int| 0 <= k < n implies #[trigger] deliveries(w.delivered, k) == 1 by {
            assert(tasks.contains(k));
            assert(taken.contains(k));
            assert(all.contains(k));
            let c = lemma_some_delivered(w.delivered, k);
            lemma_exclusive_once(run, k);
        }
    }
}

proof fn lemma_exclusive_once(run: Seq<Crowd>, k: int)
    requires
        is_run(run),
        forall|c: int| 0 <= c < run[0].exclusive.len() ==> #[trigger] run[0].exclusive[c],
    ensures
        deliveries(run.last().delivered, k) <= 1,
        forall|c: int|
            0 <= c < run.last().delivered.len() && (#[trigger] run.last().delivered[c]).contains(k)
                ==> deliveries(run.last().delivered, k) == 1,
{
    let w = run.last();
    multiplicity_is_bounded(run, k);
    lemma_run(run);
    assert forall|c: int, d: int| 0 <= c < d < w.delivered.len() implies !((
    #[trigger] w.delivered[c]).contains(k) && (#[trigger] w.delivered[d]).contains(k)) by {
        no_two_thieves(run, c, d, k);
    }
    lemma_delivered_once(w.delivered, k);
}

/// The head never goes back.
pub proof fn head_is_monotone(run: Seq<Crowd>, next: Crowd)
    requires
        is_run(run),
        run.last().steps_to(next),
    ensures
        run.last().shared.head <= next.shared.head,
{
    lemma_run(run);
    lemma_steps(run.last(), next);
}

} // verus!
