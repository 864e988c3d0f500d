//! Exact-once delivery of the Chase-Lev protocol under every interleaving.
//!
//! A [`World`] is a deque in use: its shared memory, where the owner and each of any number of
//! thieves stand in their current operation, and what has been pushed and taken so far. An
//! [`Event`] lets one party start an operation or make one step; a schedule is any sequence of
//! events. [`exact_once`] proves, of every schedule, that what was pushed is what was taken plus
//! what is still there, each item as often as it was pushed, and that no party ever claims an
//! empty cell; [`ends_are_kept`] that the owner works at the bottom and thieves at the top;
//! [`received_in_push_order`] that a thief receives values in the order of the pushes;
//! [`thieves_read_the_top`] that a thief which reads a buffer that the owner is copying into finds
//! the right item. Steps are taken to be atomic and in one order seen by all.

use vstd::prelude::*;

use vstd::multiset::Multiset;

use crate::chase_lev;
use crate::chase_lev::{Mem, OwnerState, PopCase, ThiefState};
use crate::index;
use crate::steal::Steal;

verus! {

/// A deque in use.
pub struct World<P> {
    pub mem: Mem<P>,
    pub owner: OwnerState<P>,
    pub thieves: Seq<ThiefState<P>>,
    pub pushed: Multiset<P>,
    pub taken: Multiset<P>,
}

/// What can happen next in a deque in use.
pub enum Event<P> {
    /// The idle owner starts to push an item.
    BeginPush { value: P },
    /// The idle owner starts to push an item, with a remembered lower bound of `top` that leaves
    /// room.
    BeginPushFrom { value: P, top: isize },
    /// The idle owner starts to pop.
    BeginPop,
    /// The owner makes one step.
    Owner,
    /// An idle thief starts to steal.
    BeginSteal { thief: int },
    /// A thief makes one step.
    Thief { thief: int },
}

/// The owner is between operations.
pub open spec fn owner_idle<P>(s: OwnerState<P>) -> bool {
    s is Pushed || s is Popped
}

/// What a completed step of the owner delivers.
pub open spec fn delivered_by_owner<P>(before: OwnerState<P>, after: OwnerState<P>) -> Multiset<
    P,
> {
    match (before, after) {
        (OwnerState::Popped(_), _) => Multiset::empty(),
        (_, OwnerState::Popped(Some(item))) => Multiset::singleton(item),
        _ => Multiset::empty(),
    }
}

/// What a completed step of a thief delivers.
pub open spec fn delivered_by_thief<P>(before: ThiefState<P>, after: ThiefState<P>) -> Multiset<
    P,
> {
    match (before, after) {
        (ThiefState::Stole(_), _) => Multiset::empty(),
        (_, ThiefState::Stole(Steal::Success(item))) => Multiset::singleton(item),
        _ => Multiset::empty(),
    }
}

impl<P> World<P> {
    /// Number of items that are in the deque: neither claimed by a consumer nor in the hands of
    /// the owner.
    pub open spec fn live_len(self) -> int {
        match self.owner {
            OwnerState::PopClaimed => self.mem.bottom + 1 - self.mem.top,
            OwnerState::PopSeen { top } => if top < self.mem.bottom {
                self.mem.bottom - self.mem.top
            } else {
                self.mem.bottom + 1 - self.mem.top
            },
            OwnerState::PopRace { top, item } => self.mem.bottom + 1 - self.mem.top,
            OwnerState::PopSettle { top, won } => self.mem.bottom + 1 - self.mem.top,
            _ => self.mem.bottom - self.mem.top,
        }
    }

    /// The items in the deque, from top to bottom.
    pub open spec fn live(self) -> Seq<P> {
        Seq::new(self.live_len() as nat, |k: int| self.mem.live(self.mem.top + k).unwrap())
    }

    /// The item in the hands of the owner: one that is not published yet, or one that it has
    /// claimed and not returned yet.
    pub open spec fn in_hand(self) -> Multiset<P> {
        match self.owner {
            OwnerState::Pushing { value } => Multiset::singleton(value),
            OwnerState::PushSeen { value, top } => Multiset::singleton(value),
            OwnerState::PushCopy { value, top, to, done } => Multiset::singleton(value),
            OwnerState::PushRoom { value } => Multiset::singleton(value),
            OwnerState::PushWritten => Multiset::singleton(
                self.mem.live(self.mem.bottom as int).unwrap(),
            ),
            OwnerState::PopSeen { top } => if top < self.mem.bottom {
                Multiset::singleton(self.mem.live(self.mem.bottom as int).unwrap())
            } else {
                Multiset::empty()
            },
            OwnerState::PopCopy { item, top, to, done } => Multiset::singleton(item),
            OwnerState::PopSettle { top, won: Some(item) } => Multiset::singleton(item),
            _ => Multiset::empty(),
        }
    }

    /// Nothing is lost and nothing is duplicated: what was pushed is what was taken, what is in
    /// the deque and what the owner holds.
    pub open spec fn conserved(self) -> bool {
        self.pushed == self.taken.add(self.live().to_multiset()).add(self.in_hand())
    }

    /// The next step of every party is safe: no cell that does not exist is read, and no empty
    /// cell is claimed.
    pub open spec fn safe(self) -> bool {
        &&& chase_lev::owner_ready(self.mem, self.owner)
        &&& forall|i: int|
            0 <= i < self.thieves.len() ==> chase_lev::thief_ready(
                self.mem,
                #[trigger] self.thieves[i],
            )
    }

    /// The machine has room for one more push.
    pub open spec fn within_limits(self) -> bool {
        &&& self.mem.bottom < isize::MAX
        &&& 2 * self.mem.cap() <= isize::MAX
    }

    /// An empty deque that nobody is using.
    pub open spec fn initial(self) -> bool {
        &&& self.mem.quiescent()
        &&& self.mem.bottom == self.mem.top
        &&& self.mem.top >= 0
        &&& owner_idle(self.owner)
        &&& forall|i: int|
            0 <= i < self.thieves.len() ==> (#[trigger] self.thieves[i]) is Stole
        &&& self.pushed == self.taken
    }

    /// Whether an event can happen.
    pub open spec fn enabled(self, e: Event<P>) -> bool {
        &&& self.within_limits()
        &&& match e {
            Event::BeginPush { value } => owner_idle(self.owner),
            Event::BeginPushFrom { value, top } => {
                &&& owner_idle(self.owner)
                &&& 0 <= top <= self.mem.top
                &&& !chase_lev::full(self.mem.bottom, top, self.mem.cap())
            },
            Event::BeginPop => owner_idle(self.owner),
            Event::Owner => true,
            Event::BeginSteal { thief } => 0 <= thief < self.thieves.len()
                && self.thieves[thief] is Stole,
            Event::Thief { thief } => 0 <= thief < self.thieves.len(),
        }
    }

    /// The world after an event.
    pub open spec fn after(self, e: Event<P>) -> World<P> {
        match e {
            Event::BeginPush { value } => World {
                owner: OwnerState::Pushing { value },
                pushed: self.pushed.add(Multiset::singleton(value)),
                ..self
            },
            Event::BeginPushFrom { value, top } => World {
                owner: OwnerState::PushSeen { value, top },
                pushed: self.pushed.add(Multiset::singleton(value)),
                ..self
            },
            Event::BeginPop => World { owner: OwnerState::Popping, ..self },
            Event::Owner => {
                let (mem, owner) = chase_lev::owner_next(self.mem, self.owner);
                World {
                    mem,
                    owner,
                    taken: self.taken.add(delivered_by_owner(self.owner, owner)),
                    ..self
                }
            },
            Event::BeginSteal { thief } => World {
                thieves: self.thieves.update(thief, ThiefState::Stealing),
                ..self
            },
            Event::Thief { thief } => {
                let (mem, next) = chase_lev::thief_next(self.mem, self.thieves[thief]);
                World {
                    mem,
                    thieves: self.thieves.update(thief, next),
                    taken: self.taken.add(delivered_by_thief(self.thieves[thief], next)),
                    ..self
                }
            },
        }
    }

    /// What the owner knows while it copies items into ring `to`: those that it has copied and
    /// nobody has taken since are there.
    pub open spec fn copy_inv(self, top: isize, to: usize, done: isize) -> bool {
        let m = self.mem;
        &&& 0 <= top <= m.top <= m.bottom
        &&& to < m.rings.len()
        &&& to != m.current
        &&& m.bottom - top < m.rings[to as int].len()
        &&& 0 <= done <= m.bottom - top
        &&& forall|i: int|
            m.top <= i < top + done ==> #[trigger] m.cell(to as int, i) == m.live(i)
    }

    /// What the owner knows.
    pub open spec fn owner_inv(self) -> bool {
        let m = self.mem;
        match self.owner {
            OwnerState::PushSeen { value, top } => {
                &&& 0 <= top <= m.top
                &&& m.bottom - top <= m.cap() - 1
            },
            OwnerState::PushCopy { value, top, to, done } => {
                &&& self.copy_inv(top, to, done)
                &&& m.bottom - top + 1 < m.rings[to as int].len()
            },
            OwnerState::PushRoom { value } => self.live_len() + 1 < m.cap(),
            OwnerState::PushWritten => {
                &&& self.live_len() + 1 < m.cap()
                &&& m.live(m.bottom as int) is Some
            },
            OwnerState::PopSeen { top } => {
                &&& 0 <= top <= m.top <= m.bottom + 1
                &&& top < m.bottom ==> m.top <= m.bottom
                &&& top <= m.bottom ==> m.live(m.bottom as int) is Some
                &&& top > m.bottom ==> top == m.bottom + 1
            },
            OwnerState::PopCopy { item, top, to, done } => self.copy_inv(top, to, done),
            OwnerState::PopRace { top, item } => {
                &&& top == m.bottom
                &&& top <= m.top <= top + 1
                &&& m.live(m.bottom as int) == Some(item)
            },
            OwnerState::PopSettle { top, won } => top == m.bottom && m.top == top + 1,
            _ => true,
        }
    }

    /// What a thief knows: nothing of an index that `top` has passed, and that the item at an
    /// index which `top` has not passed is still there.
    pub open spec fn thief_inv(self, s: ThiefState<P>) -> bool {
        let m = self.mem;
        match s {
            ThiefState::SeenTop { top } => 0 <= top <= m.top,
            ThiefState::SeenWork { top } => {
                &&& 0 <= top <= m.top
                &&& top == m.top ==> self.live_len() > 0
            },
            ThiefState::SeenBuffer { top, buffer } => {
                &&& 0 <= top <= m.top
                &&& buffer < m.rings.len()
                &&& top == m.top ==> self.live_len() > 0 && m.cell(buffer as int, top as int)
                    == m.live(m.top as int)
            },
            ThiefState::SeenItem { top, cell } => {
                &&& 0 <= top <= m.top
                &&& top == m.top ==> self.live_len() > 0 && cell == m.live(m.top as int)
            },
            _ => true,
        }
    }

    /// The shared memory in use.
    pub open spec fn mem_inv(self) -> bool {
        let m = self.mem;
        &&& m.shaped()
        &&& 0 <= m.top
        &&& -1 <= m.bottom
        &&& 0 <= self.live_len() < m.cap()
        &&& forall|k: int| 0 <= k < self.live_len() ==> (#[trigger] m.live(m.top + k)) is Some
    }

    /// The invariant that every event keeps.
    pub open spec fn inv(self) -> bool {
        &&& self.mem_inv()
        &&& self.owner_inv()
        &&& forall|i: int| 0 <= i < self.thieves.len() ==> self.thief_inv(#[trigger] self.thieves[i])
        &&& self.conserved()
    }
}

/// Whether every event of a schedule can happen when its turn comes.
pub open spec fn possible<P>(w: World<P>, schedule: Seq<Event<P>>) -> bool
    decreases schedule.len(),
{
    if schedule.len() == 0 {
        true
    } else {
        &&& possible(w, schedule.drop_last())
        &&& outcome(w, schedule.drop_last()).enabled(schedule.last())
    }
}

/// The world after a schedule.
pub open spec fn outcome<P>(w: World<P>, schedule: Seq<Event<P>>) -> World<P>
    decreases schedule.len(),
{
    if schedule.len() == 0 {
        w
    } else {
        outcome(w, schedule.drop_last()).after(schedule.last())
    }
}

proof fn lemma_safe<P>(w: World<P>)
    requires
        w.inv(),
        w.within_limits(),
    ensures
        w.safe(),
{
    let m = w.mem;
    assert(index::is_capacity(m.rings[m.current as int].len() as int));
    assert forall|i: int| 0 <= i < w.thieves.len() implies chase_lev::thief_ready(
        m,
        #[trigger] w.thieves[i],
    ) by {
        assert(w.thief_inv(w.thieves[i]));
        assert(w.live_len() > 0 ==> m.live(m.top + 0) is Some);
    }
}

proof fn lemma_thief<P>(w: World<P>, thief: int)
    requires
        w.inv(),
        w.enabled(Event::Thief { thief }),
    ensures
        w.after(Event::Thief { thief }).inv(),
{
    let e = Event::<P>::Thief { thief };
    let n = w.after(e);
    let m = w.mem;
    let s = w.thieves[thief];
    let next = chase_lev::thief_next(m, s).1;
    lemma_safe(w);
    assert(w.thief_inv(s));
    assert(index::is_capacity(m.rings[m.current as int].len() as int));
    assert(w.live_len() > 0 ==> m.live(m.top + 0) is Some);
    match s {
        ThiefState::SeenItem { top, cell } if m.top == top => {
            assert forall|k: int| 0 <= k < n.live_len() implies (#[trigger] n.mem.live(
                n.mem.top + k,
            )) is Some by {
                assert(m.live(m.top + (k + 1)) is Some);
            }
            assert forall|i: int| 0 <= i < n.thieves.len() implies n.thief_inv(
                #[trigger] n.thieves[i],
            ) by {
                assert(w.thief_inv(w.thieves[i]));
            }
            assert(n.owner_inv()) by {
                assert forall|r: int, i: int| #[trigger] n.mem.cell(r, i) == m.cell(r, i) by {}
                assert forall|i: int| #[trigger] n.mem.live(i) == m.live(i) by {}
            }
            let live = w.live();
            assert(n.live() =~= live.drop_first());
            assert(live.drop_first() =~= live.remove(0));
            broadcast use vstd::seq_lib::group_to_multiset_ensures;

            assert(live.to_multiset().contains(live[0])) by {
                assert(live.contains(live[0]));
            }
            assert(n.live().to_multiset() == live.to_multiset().remove(live[0]));
            assert(cell.unwrap() == live[0]);
            assert(n.in_hand() == w.in_hand());
            assert(n.taken == w.taken.add(Multiset::singleton(live[0])));
            assert(n.pushed =~= n.taken.add(n.live().to_multiset()).add(n.in_hand()));
        },
        _ => {
            assert(n.mem == m);
            assert(n.live() == w.live());
            assert forall|i: int| 0 <= i < n.thieves.len() implies n.thief_inv(
                #[trigger] n.thieves[i],
            ) by {
                assert(w.thief_inv(w.thieves[i]));
            }
            assert(n.taken =~= w.taken);
        },
    }
}

proof fn lemma_owner_memory_kept<P>(w: World<P>, n: World<P>)
    requires
        w.inv(),
        n.mem == w.mem,
        n.thieves == w.thieves,
        n.live_len() == w.live_len(),
    ensures
        n.mem_inv(),
        forall|i: int| 0 <= i < n.thieves.len() ==> n.thief_inv(#[trigger] n.thieves[i]),
        n.live() == w.live(),
{
    assert forall|i: int| 0 <= i < n.thieves.len() implies n.thief_inv(
        #[trigger] n.thieves[i],
    ) by {
        assert(w.thief_inv(w.thieves[i]));
    }
    assert(n.live() =~= w.live());
}

/// One more ring, which nobody uses yet, keeps what everybody knows.
proof fn lemma_owner_provides<P>(w: World<P>, n: World<P>, cap: int)
    requires
        w.inv(),
        n.mem == w.mem.provided(cap),
        n.thieves == w.thieves,
        n.live_len() == w.live_len(),
        index::is_capacity(cap),
        cap != w.mem.cap(),
    ensures
        n.mem_inv(),
        forall|i: int| 0 <= i < n.thieves.len() ==> n.thief_inv(#[trigger] n.thieves[i]),
        n.live() == w.live(),
        0 <= w.mem.ring_for(cap) < n.mem.rings.len() <= usize::MAX,
        n.mem.rings[w.mem.ring_for(cap)].len() == cap,
        w.mem.ring_for(cap) != n.mem.current,
{
    let m = w.mem;
    chase_lev::lemma_provided(m, cap);
    assert forall|k: int| 0 <= k < n.live_len() implies (#[trigger] n.mem.live(
        n.mem.top + k,
    )) is Some by {
        assert(m.live(m.top + k) is Some);
    }
    assert forall|i: int| 0 <= i < n.thieves.len() implies n.thief_inv(
        #[trigger] n.thieves[i],
    ) by {
        assert(w.thief_inv(w.thieves[i]));
        if let ThiefState::SeenBuffer { top, buffer } = n.thieves[i] {
            assert(n.mem.rings[buffer as int] == m.rings[buffer as int]);
        }
    }
    assert(n.live() =~= w.live());
}

/// Copying one item into a kept ring keeps what everybody knows, also what a thief knows that still
/// reads that ring: the cell of another index than `top` is another cell, and the cell of `top` gets
/// the item that it held.
proof fn lemma_owner_copies<P>(w: World<P>, n: World<P>, top: isize, to: usize, done: isize)
    requires
        w.inv(),
        w.copy_inv(top, to, done),
        w.mem.bottom < isize::MAX,
        done < w.mem.bottom - top,
        n.mem == w.mem.copied(to as int, top.wrapping_add(done)),
        n.thieves == w.thieves,
        n.live_len() == w.live_len(),
    ensures
        n.mem_inv(),
        forall|i: int| 0 <= i < n.thieves.len() ==> n.thief_inv(#[trigger] n.thieves[i]),
        n.live() == w.live(),
        n.copy_inv(top, to, (done + 1) as isize),
        n.mem.rings[to as int].len() == w.mem.rings[to as int].len(),
{
    let m = w.mem;
    let at = top + done;
    let ring = m.rings[to as int];
    let cap = ring.len() as int;
    assert(top.wrapping_add(done) == at);
    assert(index::is_capacity(ring.len() as int));
    chase_lev::lemma_copied(m, to as int, at as isize);
    vstd::arithmetic::div_mod::lemma_mod_bound(at, cap);
    assert(n.mem.rings[to as int] == ring.update(at % cap, m.live(at)));
    assert forall|i: int| top <= i <= m.bottom && i != at implies #[trigger] n.mem.cell(
        to as int,
        i,
    ) == m.cell(to as int, i) by {
        vstd::arithmetic::div_mod::lemma_mod_bound(i, cap);
        if i < at {
            index::lemma_distinct_slots(i, at, cap);
        } else {
            index::lemma_distinct_slots(at, i, cap);
        }
    }
    assert(n.mem.cell(to as int, at) == m.live(at));
    assert forall|i: int| m.top <= i < top + done + 1 implies #[trigger] n.mem.cell(to as int, i)
        == n.mem.live(i) by {
        if i < at {
            assert(m.cell(to as int, i) == m.live(i));
        }
    }
    assert forall|k: int| 0 <= k < n.live_len() implies (#[trigger] n.mem.live(
        n.mem.top + k,
    )) is Some by {
        assert(m.live(m.top + k) is Some);
    }
    assert forall|i: int| 0 <= i < n.thieves.len() implies n.thief_inv(
        #[trigger] n.thieves[i],
    ) by {
        assert(w.thief_inv(w.thieves[i]));
        if let ThiefState::SeenBuffer { top: t, buffer } = n.thieves[i] {
            if buffer == to {
                if m.top != at {
                    assert(n.mem.cell(to as int, m.top as int) == m.cell(to as int, m.top as int));
                }
            } else {
                assert(n.mem.rings[buffer as int] == m.rings[buffer as int]);
            }
        }
    }
    assert(n.live() =~= w.live());
}

/// With every item copied, the other ring becomes the active one.
proof fn lemma_owner_switches<P>(w: World<P>, n: World<P>, top: isize, to: usize, done: isize)
    requires
        w.inv(),
        w.copy_inv(top, to, done),
        done == w.mem.bottom - top,
        n.mem == (Mem { current: to, ..w.mem }),
        n.thieves == w.thieves,
        n.live_len() == w.live_len() == w.mem.bottom - w.mem.top,
    ensures
        n.mem_inv(),
        forall|i: int| 0 <= i < n.thieves.len() ==> n.thief_inv(#[trigger] n.thieves[i]),
        n.live() == w.live(),
        n.mem.cap() == w.mem.rings[to as int].len(),
{
    let m = w.mem;
    assert forall|k: int| 0 <= k < w.live_len() implies #[trigger] n.mem.live(n.mem.top + k)
        == m.live(m.top + k) by {
        assert(m.cell(to as int, m.top + k) == m.live(m.top + k));
    }
    assert forall|k: int| 0 <= k < n.live_len() implies (#[trigger] n.mem.live(
        n.mem.top + k,
    )) is Some by {
        assert(m.live(m.top + k) is Some);
    }
    assert forall|i: int| 0 <= i < n.thieves.len() implies n.thief_inv(
        #[trigger] n.thieves[i],
    ) by {
        assert(w.thief_inv(w.thieves[i]));
        assert(w.live_len() > 0 ==> n.mem.live(n.mem.top + 0) == m.live(m.top + 0));
    }
    assert(n.live() =~= w.live());
}

proof fn lemma_owner_push<P>(w: World<P>)
    requires
        w.inv(),
        w.enabled(Event::Owner),
        w.owner is Pushing || w.owner is PushSeen || w.owner is PushCopy || w.owner is PushRoom
            || w.owner is PushWritten,
    ensures
        w.after(Event::Owner).inv(),
{
    let n = w.after(Event::Owner);
    let m = w.mem;
    assert(index::is_capacity(m.rings[m.current as int].len() as int));
    assert(n.taken =~= w.taken);
    match w.owner {
        OwnerState::Pushing { value } => {
            lemma_owner_memory_kept(w, n);
        },
        OwnerState::PushSeen { value, top } => {
            if chase_lev::full(m.bottom, top, m.cap()) {
                index::lemma_double_half(m.cap());
                lemma_owner_provides(w, n, chase_lev::grown(m.cap(), m.floor));
            } else {
                lemma_owner_memory_kept(w, n);
            }
        },
        OwnerState::PushCopy { value, top, to, done } => {
            if done < m.bottom.wrapping_sub(top) {
                lemma_owner_copies(w, n, top, to, done);
            } else {
                lemma_owner_switches(w, n, top, to, done);
            }
        },
        OwnerState::PushRoom { value } => {
            let cap = m.cap();
            let slot = m.bottom as int % cap;
            vstd::arithmetic::div_mod::lemma_mod_bound(m.bottom as int, cap);
            assert(n.mem.active() == m.active().update(slot, Some(value)));
            chase_lev::lemma_same_capacities(m, n.mem);
            assert forall|k: int| 0 <= k < w.live_len() implies #[trigger] n.mem.live(
                n.mem.top + k,
            ) == m.live(m.top + k) by {
                vstd::arithmetic::div_mod::lemma_mod_bound(m.top + k, cap);
                index::lemma_distinct_slots(m.top + k, m.bottom as int, cap);
            }
            assert forall|i: int| 0 <= i < n.thieves.len() implies n.thief_inv(
                #[trigger] n.thieves[i],
            ) by {
                assert(w.thief_inv(w.thieves[i]));
                assert(w.live_len() > 0 ==> n.mem.live(n.mem.top + 0) == m.live(m.top + 0));
            }
            assert(n.live() =~= w.live());
            assert(n.in_hand() == w.in_hand());
        },
        OwnerState::PushWritten => {
            let item = m.live(m.bottom as int).unwrap();
            assert forall|k: int| 0 <= k < n.live_len() implies (#[trigger] n.mem.live(
                n.mem.top + k,
            )) is Some by {
                if k < w.live_len() {
                    assert(m.live(m.top + k) is Some);
                }
            }
            assert forall|i: int| 0 <= i < n.thieves.len() implies n.thief_inv(
                #[trigger] n.thieves[i],
            ) by {
                assert(w.thief_inv(w.thieves[i]));
            }
            assert(n.live() =~= w.live().push(item));
            broadcast use vstd::seq_lib::group_to_multiset_ensures;

            assert(n.live().to_multiset() == w.live().to_multiset().insert(item));
            assert(n.pushed =~= n.taken.add(n.live().to_multiset()).add(n.in_hand()));
        },
        _ => {},
    }
}

proof fn lemma_owner_pop<P>(w: World<P>)
    requires
        w.inv(),
        w.enabled(Event::Owner),
        w.owner is Popping || w.owner is PopClaimed || w.owner is PopSeen || w.owner is PopCopy
            || w.owner is PopRace || w.owner is PopSettle,
    ensures
        w.after(Event::Owner).inv(),
{
    let n = w.after(Event::Owner);
    let m = w.mem;
    broadcast use vstd::seq_lib::group_to_multiset_ensures;

    assert(index::is_capacity(m.rings[m.current as int].len() as int));
    match w.owner {
        OwnerState::Popping => {
            assert(n.taken =~= w.taken);
            assert forall|k: int| 0 <= k < n.live_len() implies (#[trigger] n.mem.live(
                n.mem.top + k,
            )) is Some by {
                assert(m.live(m.top + k) is Some);
            }
            assert forall|i: int| 0 <= i < n.thieves.len() implies n.thief_inv(
                #[trigger] n.thieves[i],
            ) by {
                assert(w.thief_inv(w.thieves[i]));
            }
            assert(n.live() =~= w.live());
        },
        OwnerState::PopClaimed => {
            assert(n.taken =~= w.taken);
            if m.top < m.bottom {
                let live = w.live();
                assert(m.live(m.top + (m.bottom - m.top)) is Some);
                assert forall|i: int| 0 <= i < n.thieves.len() implies n.thief_inv(
                    #[trigger] n.thieves[i],
                ) by {
                    assert(w.thief_inv(w.thieves[i]));
                }
                assert(n.live() =~= live.drop_last());
                assert(live =~= n.live().push(live.last()));
                assert(live.to_multiset() == n.live().to_multiset().insert(live.last()));
                assert(n.pushed =~= n.taken.add(n.live().to_multiset()).add(n.in_hand()));
            } else {
                lemma_owner_memory_kept(w, n);
                assert(m.top == m.bottom ==> m.live(m.top + 0) is Some);
            }
        },
        OwnerState::PopSeen { top } => {
            match chase_lev::pop_case_spec(m.bottom, top) {
                PopCase::Empty => {
                    assert(n.taken =~= w.taken);
                    assert forall|i: int| 0 <= i < n.thieves.len() implies n.thief_inv(
                        #[trigger] n.thieves[i],
                    ) by {
                        assert(w.thief_inv(w.thieves[i]));
                    }
                    assert(n.live() =~= w.live());
                },
                PopCase::Take => {
                    let size = m.bottom - top;
                    if chase_lev::sparse(m.cap(), size) {
                        index::lemma_double_half(m.cap());
                        index::lemma_base_capacities();
                        assert(n.taken =~= w.taken);
                        lemma_owner_provides(w, n, chase_lev::halved(m.cap()));
                    } else {
                        lemma_owner_memory_kept(w, n);
                    }
                    assert(n.pushed =~= n.taken.add(n.live().to_multiset()).add(n.in_hand()));
                },
                PopCase::Race => {
                    assert(n.taken =~= w.taken);
                    lemma_owner_memory_kept(w, n);
                },
            }
        },
        OwnerState::PopCopy { item, top, to, done } => {
            if done < m.bottom.wrapping_sub(top) {
                assert(n.taken =~= w.taken);
                lemma_owner_copies(w, n, top, to, done);
            } else {
                lemma_owner_switches(w, n, top, to, done);
            }
            assert(n.pushed =~= n.taken.add(n.live().to_multiset()).add(n.in_hand()));
        },
        OwnerState::PopRace { top, item } => {
            assert(n.taken =~= w.taken);
            assert forall|i: int| 0 <= i < n.thieves.len() implies n.thief_inv(
                #[trigger] n.thieves[i],
            ) by {
                assert(w.thief_inv(w.thieves[i]));
            }
            if m.top == top {
                assert(w.live() =~= Seq::empty().push(item));
                assert(w.live().to_multiset() == Seq::<P>::empty().to_multiset().insert(item));
                assert(n.live() =~= Seq::empty());
                assert(n.pushed =~= n.taken.add(n.live().to_multiset()).add(n.in_hand()));
            } else {
                assert(n.live() =~= w.live());
            }
        },
        OwnerState::PopSettle { top, won } => {
            assert forall|i: int| 0 <= i < n.thieves.len() implies n.thief_inv(
                #[trigger] n.thieves[i],
            ) by {
                assert(w.thief_inv(w.thieves[i]));
            }
            assert(n.live() =~= w.live());
            assert(n.pushed =~= n.taken.add(n.live().to_multiset()).add(n.in_hand()));
        },
        _ => {},
    }
}

proof fn lemma_begin<P>(w: World<P>, e: Event<P>)
    requires
        w.inv(),
        w.enabled(e),
        !(e is Owner),
        !(e is Thief),
    ensures
        w.after(e).inv(),
{
    let n = w.after(e);
    assert(index::is_capacity(w.mem.rings[w.mem.current as int].len() as int));
    assert(n.live() =~= w.live());
    assert forall|i: int| 0 <= i < n.thieves.len() implies n.thief_inv(
        #[trigger] n.thieves[i],
    ) by {
        assert(w.thief_inv(w.thieves[i]));
    }
    assert(n.pushed =~= n.taken.add(n.live().to_multiset()).add(n.in_hand()));
}

proof fn lemma_step<P>(w: World<P>, e: Event<P>)
    requires
        w.inv(),
        w.enabled(e),
    ensures
        w.after(e).inv(),
{
    match e {
        Event::Thief { thief } => lemma_thief(w, thief),
        Event::Owner => {
            if owner_idle(w.owner) {
                let n = w.after(e);
                assert(n.taken =~= w.taken);
                assert(n == w);
            } else if w.owner is Pushing || w.owner is PushSeen || w.owner is PushCopy
                || w.owner is PushRoom || w.owner is PushWritten {
                lemma_owner_push(w);
            } else {
                lemma_owner_pop(w);
            }
        },
        _ => lemma_begin(w, e),
    }
}

proof fn lemma_schedule<P>(w: World<P>, schedule: Seq<Event<P>>)
    requires
        w.initial(),
        possible(w, schedule),
    ensures
        outcome(w, schedule).inv(),
    decreases schedule.len(),
{
    if schedule.len() == 0 {
        assert(w.live() =~= Seq::empty());
        broadcast use vstd::seq_lib::group_to_multiset_ensures;

        assert(w.pushed =~= w.taken.add(w.live().to_multiset()).add(w.in_hand()));
        assert(w.inv());
    } else {
        lemma_schedule(w, schedule.drop_last());
        lemma_step(outcome(w, schedule.drop_last()), schedule.last());
    }
}

/// Whatever the schedule of the owner and the thieves, every item that was pushed is taken at
/// most once and is never lost: it was taken by exactly one consumer, or is still in the deque,
/// or is in the hands of the owner; and the next step of every party is safe. When the owner is
/// between operations, what was pushed is exactly what was taken plus the contents.
pub proof fn exact_once<P>(start: World<P>, schedule: Seq<Event<P>>)
    requires
        start.initial(),
        possible(start, schedule),
    ensures
        ({
            let w = outcome(start, schedule);
            &&& w.conserved()
            &&& w.within_limits() ==> w.safe()
            &&& owner_idle(w.owner) ==> {
                &&& w.mem.quiescent()
                &&& w.pushed == w.taken.add(w.mem.contents().to_multiset())
            }
        }),
{
    let w = outcome(start, schedule);
    lemma_schedule(start, schedule);
    if w.within_limits() {
        lemma_safe(w);
    }
    if owner_idle(w.owner) {
        assert(w.live() =~= w.mem.contents());
        assert(w.pushed =~= w.taken.add(w.mem.contents().to_multiset()));
    }
}

/// An event works at the ends: it leaves the deque as it is, or publishes the owner's item at the
/// bottom, or moves the bottom item into the owner's hands, or hands the top item to the thief that
/// made the step; and a thief succeeds in no other way.
pub open spec fn keeps_ends<P>(w: World<P>, e: Event<P>) -> bool {
    let n = w.after(e);
    match e {
        Event::Owner => {
            ||| n.live() == w.live()
            ||| n.live().len() == w.live().len() + 1 && n.live().drop_last() == w.live()
                && w.in_hand() == Multiset::singleton(n.live().last())
            ||| w.live().len() > 0 && n.live() == w.live().drop_last() && n.in_hand()
                == Multiset::singleton(w.live().last())
        },
        Event::Thief { thief } => match (w.thieves[thief], n.thieves[thief]) {
            (ThiefState::Stole(_), _) => n.live() == w.live(),
            (_, ThiefState::Stole(Steal::Success(item))) => {
                &&& w.live().len() > 0
                &&& n.live() == w.live().drop_first()
                &&& item == w.live()[0]
            },
            _ => n.live() == w.live(),
        },
        _ => n.live() == w.live(),
    }
}

proof fn lemma_owner_push_ends<P>(w: World<P>)
    requires
        w.inv(),
        w.enabled(Event::Owner),
        w.owner is Pushing || w.owner is PushSeen || w.owner is PushCopy || w.owner is PushRoom
            || w.owner is PushWritten,
    ensures
        keeps_ends(w, Event::Owner),
{
    let n = w.after(Event::Owner);
    let m = w.mem;
    assert(index::is_capacity(m.rings[m.current as int].len() as int));
    match w.owner {
        OwnerState::PushSeen { value, top } => {
            if chase_lev::full(m.bottom, top, m.cap()) {
                index::lemma_double_half(m.cap());
                lemma_owner_provides(w, n, chase_lev::grown(m.cap(), m.floor));
            }
        },
        OwnerState::PushCopy { value, top, to, done } => {
            if done < m.bottom.wrapping_sub(top) {
                lemma_owner_copies(w, n, top, to, done);
            } else {
                lemma_owner_switches(w, n, top, to, done);
            }
        },
        OwnerState::PushRoom { value } => {
            let cap = m.cap();
            assert forall|k: int| 0 <= k < w.live_len() implies #[trigger] n.mem.live(
                n.mem.top + k,
            ) == m.live(m.top + k) by {
                vstd::arithmetic::div_mod::lemma_mod_bound(m.bottom as int, cap);
                vstd::arithmetic::div_mod::lemma_mod_bound(m.top + k, cap);
                index::lemma_distinct_slots(m.top + k, m.bottom as int, cap);
            }
            assert(n.live() =~= w.live());
        },
        OwnerState::PushWritten => {
            assert(n.live().drop_last() =~= w.live());
        },
        _ => {
            assert(n.live() =~= w.live());
        },
    }
}

proof fn lemma_owner_pop_ends<P>(w: World<P>)
    requires
        w.inv(),
        w.enabled(Event::Owner),
        w.owner is Popping || w.owner is PopClaimed || w.owner is PopSeen || w.owner is PopCopy
            || w.owner is PopRace || w.owner is PopSettle,
    ensures
        keeps_ends(w, Event::Owner),
{
    let n = w.after(Event::Owner);
    let m = w.mem;
    assert(index::is_capacity(m.rings[m.current as int].len() as int));
    match w.owner {
        OwnerState::PopClaimed if m.top < m.bottom => {
            assert(n.live() =~= w.live().drop_last());
        },
        OwnerState::PopSeen { top } => {
            if chase_lev::pop_case_spec(m.bottom, top) == PopCase::Take && chase_lev::sparse(
                m.cap(),
                m.bottom - top,
            ) {
                index::lemma_double_half(m.cap());
                index::lemma_base_capacities();
                lemma_owner_provides(w, n, chase_lev::halved(m.cap()));
            }
            assert(n.live() =~= w.live());
        },
        OwnerState::PopCopy { item, top, to, done } => {
            if done < m.bottom.wrapping_sub(top) {
                lemma_owner_copies(w, n, top, to, done);
            } else {
                lemma_owner_switches(w, n, top, to, done);
            }
        },
        OwnerState::PopRace { top, item } => {
            if m.top == top {
                assert(n.live() =~= w.live().drop_last());
            } else {
                assert(n.live() =~= w.live());
            }
        },
        _ => {
            assert(n.live() =~= w.live());
        },
    }
}

proof fn lemma_ends<P>(w: World<P>, e: Event<P>)
    requires
        w.inv(),
        w.enabled(e),
    ensures
        keeps_ends(w, e),
{
    let n = w.after(e);
    let m = w.mem;
    match e {
        Event::Owner => {
            if owner_idle(w.owner) {
                assert(n.live() =~= w.live());
            } else if w.owner is Pushing || w.owner is PushSeen || w.owner is PushCopy
                || w.owner is PushRoom || w.owner is PushWritten {
                lemma_owner_push_ends(w);
            } else {
                lemma_owner_pop_ends(w);
            }
        },
        Event::Thief { thief } => {
            assert(w.thief_inv(w.thieves[thief]));
            match w.thieves[thief] {
                ThiefState::SeenItem { top, cell } if m.top == top => {
                    assert(n.live() =~= w.live().drop_first());
                },
                _ => {
                    assert(n.live() =~= w.live());
                },
            }
        },
        _ => {
            assert(n.live() =~= w.live());
        },
    }
}

/// The owner works at the bottom and thieves at the top, whatever the schedule.
pub proof fn ends_are_kept<P>(start: World<P>, schedule: Seq<Event<P>>, e: Event<P>)
    requires
        start.initial(),
        possible(start, schedule),
        outcome(start, schedule).enabled(e),
    ensures
        keeps_ends(outcome(start, schedule), e),
{
    lemma_schedule(start, schedule);
    lemma_ends(outcome(start, schedule), e);
}

/// The values that the owner has begun to push, in order.
pub open spec fn begun<P>(schedule: Seq<Event<P>>) -> Seq<P>
    decreases schedule.len(),
{
    if schedule.len() == 0 {
        Seq::empty()
    } else {
        let before = begun(schedule.drop_last());
        match schedule.last() {
            Event::BeginPush { value } => before.push(value),
            Event::BeginPushFrom { value, top } => before.push(value),
            _ => before,
        }
    }
}

/// The value that an event delivers to a thief.
pub open spec fn delivered<P>(w: World<P>, e: Event<P>, thief: int) -> Option<P> {
    if e == (Event::<P>::Thief { thief }) {
        match (w.thieves[thief], w.after(e).thieves[thief]) {
            (ThiefState::Stole(_), _) => None,
            (_, ThiefState::Stole(Steal::Success(item))) => Some(item),
            _ => None,
        }
    } else {
        None
    }
}

/// The values that a thief has received, in order.
pub open spec fn received<P>(start: World<P>, schedule: Seq<Event<P>>, thief: int) -> Seq<P>
    decreases schedule.len(),
{
    if schedule.len() == 0 {
        Seq::empty()
    } else {
        let before = received(start, schedule.drop_last(), thief);
        match delivered(outcome(start, schedule.drop_last()), schedule.last(), thief) {
            Some(item) => before.push(item),
            None => before,
        }
    }
}

/// The values of `got` are those at the places `at` of `all`, and the places increase.
pub open spec fn is_at<P>(got: Seq<P>, all: Seq<P>, at: Seq<int>) -> bool {
    &&& at.len() == got.len()
    &&& forall|i: int|
        0 <= i < at.len() ==> 0 <= (#[trigger] at[i]) < all.len() && all[at[i]] == got[i]
    &&& forall|i: int, j: int| 0 <= i < j < at.len() ==> (#[trigger] at[i]) < (#[trigger] at[j])
}

/// The owner is pushing, and has not published its item yet.
spec fn is_pushing<P>(s: OwnerState<P>) -> bool {
    s is Pushing || s is PushSeen || s is PushCopy || s is PushRoom || s is PushWritten
}

/// The places, in the order of pushes, of the items in the deque.
spec fn places<P>(start: World<P>, schedule: Seq<Event<P>>) -> Seq<int>
    decreases schedule.len(),
{
    if schedule.len() == 0 {
        Seq::empty()
    } else {
        let rest = schedule.drop_last();
        let before = outcome(start, rest).live().len();
        let now = outcome(start, schedule).live().len();
        let at = places(start, rest);
        if now > before {
            at.push(begun(rest).len() - 1)
        } else if now == before {
            at
        } else if schedule.last() is Owner {
            at.drop_last()
        } else {
            at.drop_first()
        }
    }
}

/// The places, in the order of pushes, of the values that a thief has received.
spec fn places_received<P>(start: World<P>, schedule: Seq<Event<P>>, thief: int) -> Seq<int>
    decreases schedule.len(),
{
    if schedule.len() == 0 {
        Seq::empty()
    } else {
        let rest = schedule.drop_last();
        let before = places_received(start, rest, thief);
        match delivered(outcome(start, rest), schedule.last(), thief) {
            Some(item) => before.push(places(start, rest)[0]),
            None => before,
        }
    }
}

/// The places that every schedule keeps: of the items in the deque, and of what a thief has
/// received, all of it pushed before any item that is left.
spec fn placed<P>(start: World<P>, schedule: Seq<Event<P>>, thief: int) -> bool {
    let w = outcome(start, schedule);
    let all = begun(schedule);
    let at = places(start, schedule);
    let got = places_received(start, schedule, thief);
    &&& is_at(w.live(), all, at)
    &&& is_at(received(start, schedule, thief), all, got)
    &&& forall|i: int, j: int|
        0 <= i < got.len() && 0 <= j < at.len() ==> (#[trigger] got[i]) < (#[trigger] at[j])
    &&& is_pushing(w.owner) ==> {
        &&& all.len() > 0
        &&& w.in_hand() == Multiset::singleton(all.last())
        &&& forall|j: int| 0 <= j < at.len() ==> (#[trigger] at[j]) < all.len() - 1
        &&& forall|i: int| 0 <= i < got.len() ==> (#[trigger] got[i]) < all.len() - 1
    }
}

proof fn lemma_placed<P>(start: World<P>, schedule: Seq<Event<P>>, thief: int)
    requires
        start.initial(),
        possible(start, schedule),
    ensures
        placed(start, schedule, thief),
    decreases schedule.len(),
{
    if schedule.len() == 0 {
        assert(start.live() =~= Seq::empty());
    } else {
        let rest = schedule.drop_last();
        let e = schedule.last();
        let w = outcome(start, rest);
        let n = w.after(e);
        lemma_placed(start, rest, thief);
        lemma_schedule(start, rest);
        lemma_step(w, e);
        lemma_ends(w, e);
        assert(w.live().len() == w.live_len() && n.live().len() == n.live_len());
        match e {
            Event::Owner => {
                lemma_placed_owner(w);
                if n.live().len() == w.live().len() + 1 {
                    assert(Multiset::singleton(begun(rest).last()).count(n.live().last()) == 1);
                }
            },
            _ => {},
        }
    }
}

/// Only the last step of a push adds an item, and the owner holds on to its item until then.
proof fn lemma_placed_owner<P>(w: World<P>)
    requires
        w.inv(),
        w.enabled(Event::Owner),
    ensures
        ({
            let n = w.after(Event::Owner);
            &&& n.live_len() > w.live_len() ==> w.owner is PushWritten && n.owner is Pushed
            &&& is_pushing(n.owner) ==> is_pushing(w.owner) && n.in_hand() == w.in_hand()
        }),
{
    let n = w.after(Event::Owner);
    lemma_step(w, Event::Owner);
    lemma_ends(w, Event::Owner);
    if is_pushing(n.owner) {
        assert(n.taken =~= w.taken);
        assert(n.live() == w.live());
        assert forall|p: P| n.in_hand().count(p) == w.in_hand().count(p) by {
            assert(w.pushed.count(p) == w.taken.count(p) + w.live().to_multiset().count(p)
                + w.in_hand().count(p));
            assert(n.pushed.count(p) == n.taken.count(p) + n.live().to_multiset().count(p)
                + n.in_hand().count(p));
        }
        assert(n.in_hand() =~= w.in_hand());
    }
}

/// A thief receives values in the order in which they were pushed, whatever the schedule: what it
/// has received stands, in this order, at increasing places among the values that the owner has
/// begun to push.
pub proof fn received_in_push_order<P>(start: World<P>, schedule: Seq<Event<P>>, thief: int)
    requires
        start.initial(),
        possible(start, schedule),
    ensures
        exists|at: Seq<int>| #[trigger]
            is_at(received(start, schedule, thief), begun(schedule), at),
{
    lemma_placed(start, schedule, thief);
    assert(is_at(
        received(start, schedule, thief),
        begun(schedule),
        places_received(start, schedule, thief),
    ));
}

/// A copy in progress is harmless: whatever the schedule, and wherever the owner stands in copying
/// items into a ring that it keeps, a thief about to read the cell of the current `top` finds the
/// top item there, in whichever ring it reads.
pub proof fn thieves_read_the_top<P>(start: World<P>, schedule: Seq<Event<P>>, thief: int)
    requires
        start.initial(),
        possible(start, schedule),
        0 <= thief < outcome(start, schedule).thieves.len(),
    ensures
        ({
            let w = outcome(start, schedule);
            w.thieves[thief] matches ThiefState::SeenBuffer { top, buffer } ==> top == w.mem.top
                ==> {
                &&& w.live().len() > 0
                &&& w.mem.cell(buffer as int, top as int) == Some(w.live()[0])
                &&& w.mem.cell(buffer as int, top as int) == w.mem.live(top as int)
            }
        }),
{
    let w = outcome(start, schedule);
    lemma_schedule(start, schedule);
    assert(w.thief_inv(w.thieves[thief]));
    assert(w.live_len() > 0 ==> w.mem.live(w.mem.top + 0) is Some);
}

/// `top` never moves back: a step leaves it or advances it by one.
pub proof fn top_is_monotone<P>(start: World<P>, schedule: Seq<Event<P>>, e: Event<P>)
    requires
        start.initial(),
        possible(start, schedule),
        outcome(start, schedule).enabled(e),
    ensures
        ({
            let before = outcome(start, schedule).mem.top;
            let after = outcome(start, schedule).after(e).mem.top;
            after == before || after == before + 1
        }),
{
    let w = outcome(start, schedule);
    lemma_schedule(start, schedule);
    match e {
        Event::Thief { thief } => {
            assert(w.thief_inv(w.thieves[thief]));
        },
        _ => {},
    }
}

} // verus!
