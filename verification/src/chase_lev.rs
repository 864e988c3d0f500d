//! The Chase-Lev index protocol, one shared-memory access at a time.
//!
//! A [`Deque`] is the memory that the owner and the thieves of a work-stealing deque share: the
//! two indices, the active buffer and the retired buffers. It keeps one buffer per capacity: a
//! deque that returns to a capacity takes up the buffer that it has of it, so there are no more
//! buffers than powers of two up to the largest capacity. A thief may still read such a buffer while
//! the owner copies the items into it, cell by cell: at every index that the thief can claim it finds
//! the item that was there before.
//!
//! Every operation is a program of steps, and a step makes at most one access that another party can
//! see: a buffer that is new is seen by nobody before it becomes the active one.
//! [`Deque::owner_step`] and [`Deque::thief_step`] perform one step; [`Deque::push`], [`Deque::pop`]
//! and [`Deque::steal`] run a whole program without interruption. What holds when steps of many
//! parties interleave is proved in [`crate::exact_once`].

use vstd::prelude::*;

use crate::buffer;
use crate::buffer::Buffer;
use crate::index;
use crate::steal::Steal;

verus! {

/// Smallest backing-buffer capacity that a shrink leaves behind.
pub const MIN_CAPACITY: usize = 16;

/// The deque shrinks when fewer than `cap / SHRINK_FACTOR` items remain.
pub const SHRINK_FACTOR: usize = 3;

/// What an owner that has claimed a slot does next, by what it sees in `top`.
#[derive(Clone, Copy, Debug, PartialEq, Eq, Structural)]
pub enum PopCase {
    /// The deque was empty.
    Empty,
    /// Not the last item: no thief can reach it.
    Take,
    /// The last item: race the thieves for it.
    Race,
}

/// Where the owner stands in its current operation.
#[derive(Clone, Copy, Debug, PartialEq, Eq)]
pub enum OwnerState<P> {
    /// About to load `top` for a push.
    Pushing { value: P },
    /// Knows a lower bound of `top`; about to make room.
    PushSeen { value: P, top: isize },
    /// The ring is full. About to copy item `done` from `top` on into ring `to`, or, with all of
    /// them copied, to make that ring the active one.
    PushCopy { value: P, top: isize, to: usize, done: isize },
    /// There is room; about to write the cell.
    PushRoom { value: P },
    /// The cell is written; about to publish the new `bottom`.
    PushWritten,
    /// The push is complete.
    Pushed,
    /// About to claim the bottom slot.
    Popping,
    /// `bottom` is decremented; about to load `top`.
    PopClaimed,
    /// Has loaded `top`; about to act on it.
    PopSeen { top: isize },
    /// Holds its item, and the ring is sparse. About to copy item `done` from `top` on into ring
    /// `to`, or, with all of them copied, to make that ring the active one.
    PopCopy { item: P, top: isize, to: usize, done: isize },
    /// Holds the last item; about to race for it.
    PopRace { top: isize, item: P },
    /// The race is decided; about to restore `bottom`.
    PopSettle { top: isize, won: Option<P> },
    /// The pop is complete.
    Popped(Option<P>),
}

/// Where a thief stands in its current attempt.
#[derive(Clone, Copy, Debug, PartialEq, Eq)]
pub enum ThiefState<P> {
    /// About to load `top`.
    Stealing,
    /// Has loaded `top`; about to load `bottom`.
    SeenTop { top: isize },
    /// Has seen work; about to load the buffer pointer.
    SeenWork { top: isize },
    /// Has loaded the buffer pointer; about to read the cell.
    SeenBuffer { top: isize, buffer: usize },
    /// Has read the cell; about to claim it by advancing `top`.
    SeenItem { top: isize, cell: Option<P> },
    /// The attempt is complete.
    Stole(Steal<P>),
}

/// The shared memory of a deque as a mathematical value. Ring `current` is the active one; the
/// others are retired and kept.
#[verifier::ext_equal]
pub struct Mem<P> {
    pub bottom: isize,
    pub top: isize,
    pub rings: Seq<Seq<Option<P>>>,
    pub current: usize,
    pub floor: int,
}

impl<P> Mem<P> {
    /// The active ring.
    pub open spec fn active(self) -> Seq<Option<P>> {
        self.rings[self.current as int]
    }

    /// Capacity of the active ring.
    pub open spec fn cap(self) -> int {
        self.active().len() as int
    }

    /// The cell of ring `ring` for logical index `i`.
    pub open spec fn cell(self, ring: int, i: int) -> Option<P> {
        self.rings[ring][i % self.rings[ring].len() as int]
    }

    /// The active cell for logical index `i`.
    pub open spec fn live(self, i: int) -> Option<P> {
        self.active()[i % self.cap()]
    }

    /// Every ring can be indexed, and there is one ring per capacity.
    pub open spec fn shaped(self) -> bool {
        &&& self.current < self.rings.len() <= usize::MAX
        &&& forall|r: int, q: int|
            0 <= r < q < self.rings.len() ==> #[trigger] differ(self.rings, r, q)
        &&& forall|r: int| 0 <= r < self.rings.len() ==> index::is_capacity(
            #[trigger] self.rings[r].len() as int,
        )
        &&& index::is_capacity(self.floor)
    }

    /// Number of items while no operation is in progress.
    pub open spec fn count(self) -> int {
        self.bottom.wrapping_sub(self.top) as int
    }

    /// The state between operations: the items fit, with one cell to spare, and every cell of
    /// the live range is filled.
    pub open spec fn quiescent(self) -> bool {
        &&& self.shaped()
        &&& 0 <= self.count() < self.cap()
        &&& forall|k: int| 0 <= k < self.count() ==> (#[trigger] self.live(self.top + k)) is Some
    }

    /// The items from top to bottom.
    pub open spec fn contents(self) -> Seq<P> {
        Seq::new(self.count() as nat, |k: int| self.live(self.top + k).unwrap())
    }

    /// The capacities of the rings, active and retired.
    pub open spec fn kept(self) -> Set<int> {
        Set::new(
            |cap: int|
                exists|r: int| 0 <= r < self.rings.len() && (#[trigger] self.rings[r]).len() == cap,
        )
    }

    /// The ring of `cap` cells to be taken up: the one that is kept, or the next one.
    pub open spec fn ring_for(self, cap: int) -> int {
        match ring_with(self.rings, cap, 0) {
            Some(r) => r,
            None => self.rings.len() as int,
        }
    }

    /// The memory with a ring of `cap` cells among its rings, a fresh one if there was none.
    pub open spec fn provided(self, cap: int) -> Mem<P> {
        match ring_with(self.rings, cap, 0) {
            Some(r) => self,
            None => Mem { rings: self.rings.push(Seq::new(cap as nat, |j: int| None)), ..self },
        }
    }

    /// The memory after the active cell for logical index `i` was copied into ring `to`.
    pub open spec fn copied(self, to: int, i: isize) -> Mem<P> {
        let ring = self.rings[to];
        Mem {
            rings: self.rings.update(
                to,
                ring.update(i as int % ring.len() as int, self.live(i as int)),
            ),
            ..self
        }
    }

    /// The memory after the first `done` items from `top` on were copied into the ring of
    /// `new_cap` cells.
    pub open spec fn copying(self, new_cap: int, top: isize, done: int) -> Mem<P> {
        let p = self.provided(new_cap);
        let to = self.ring_for(new_cap);
        Mem {
            rings: p.rings.update(
                to,
                buffer::relocated(self.active(), p.rings[to], top as int, done),
            ),
            ..p
        }
    }

    /// The memory after a ring of `new_cap` cells, with all items from `top` on, has become the
    /// active one.
    pub open spec fn resized(self, new_cap: int, top: isize) -> Mem<P> {
        Mem {
            current: self.ring_for(new_cap) as usize,
            ..self.copying(new_cap, top, self.bottom.wrapping_sub(top) as int)
        }
    }

    /// The memory after `item` is stored in the active cell at `bottom`.
    pub open spec fn written(self, item: P) -> Mem<P> {
        Mem {
            rings: self.rings.update(
                self.current as int,
                self.active().update(self.bottom as int % self.cap(), Some(item)),
            ),
            ..self
        }
    }
}

/// Two rings have different capacities.
pub open spec fn differ<P>(rings: Seq<Seq<Option<P>>>, r: int, q: int) -> bool {
    rings[r].len() != rings[q].len()
}

/// The first ring with `cap` cells from ring `from` on.
pub open spec fn ring_with<P>(rings: Seq<Seq<Option<P>>>, cap: int, from: int) -> Option<int>
    decreases rings.len() - from,
{
    if !(0 <= from < rings.len()) {
        None
    } else if rings[from].len() == cap {
        Some(from)
    } else {
        ring_with(rings, cap, from + 1)
    }
}

proof fn lemma_ring_with<P>(rings: Seq<Seq<Option<P>>>, cap: int, from: int)
    requires
        0 <= from,
    ensures
        match ring_with(rings, cap, from) {
            Some(r) => from <= r < rings.len() && rings[r].len() == cap,
            None => forall|r: int| from <= r < rings.len() ==> (#[trigger] rings[r]).len() != cap,
        },
    decreases rings.len() - from,
{
    if from < rings.len() && rings[from].len() != cap {
        lemma_ring_with(rings, cap, from + 1);
    }
}

/// The largest capacity of the first `n` rings.
pub open spec fn largest<P>(rings: Seq<Seq<Option<P>>>, n: nat) -> int
    decreases n,
{
    if n == 0 {
        0
    } else {
        let before = largest(rings, (n - 1) as nat);
        let len = rings[n - 1].len() as int;
        if len > before {
            len
        } else {
            before
        }
    }
}

/// Whether a push that knows `top` as a lower bound finds the ring full. One cell stays unused.
pub open spec fn full(bottom: isize, top: isize, cap: int) -> bool {
    bottom.wrapping_sub(top) >= cap - 1
}

/// The capacity that a full ring of `cap` cells grows to.
pub open spec fn grown(cap: int, floor: int) -> int {
    if 2 * cap < floor {
        floor
    } else {
        2 * cap
    }
}

/// Whether a ring of `cap` cells is due for shrinking when `size` items are left.
pub open spec fn sparse(cap: int, size: int) -> bool {
    cap > MIN_CAPACITY && size < cap / SHRINK_FACTOR as int
}

/// The capacity that a sparse ring of `cap` cells shrinks to.
pub open spec fn halved(cap: int) -> int {
    if cap / 2 < MIN_CAPACITY {
        MIN_CAPACITY as int
    } else {
        cap / 2
    }
}

/// The case a claimed `bottom` and a loaded `top` call for.
pub open spec fn pop_case_spec(bottom: isize, top: isize) -> PopCase {
    let size = bottom.wrapping_sub(top);
    if size < 0 {
        PopCase::Empty
    } else if size > 0 {
        PopCase::Take
    } else {
        PopCase::Race
    }
}

/// What the owner's next step may rely on: a growing ring can be doubled and holds the items,
/// and no empty cell is dereferenced.
pub open spec fn owner_ready<P>(m: Mem<P>, s: OwnerState<P>) -> bool {
    match s {
        OwnerState::PushSeen { value, top } => full(m.bottom, top, m.cap()) ==> 2 * m.cap()
            <= isize::MAX && 0 <= m.bottom.wrapping_sub(top) < grown(m.cap(), m.floor),
        OwnerState::PushCopy { value, top, to, done } => to < m.rings.len() && 0 <= done,
        OwnerState::PopSeen { top } => pop_case_spec(m.bottom, top) != PopCase::Empty ==> m.live(
            m.bottom as int,
        ) is Some,
        OwnerState::PopCopy { item, top, to, done } => to < m.rings.len() && 0 <= done,
        _ => true,
    }
}

/// The owner's next step.
pub open spec fn owner_next<P>(m: Mem<P>, s: OwnerState<P>) -> (Mem<P>, OwnerState<P>) {
    match s {
        OwnerState::Pushing { value } => (m, OwnerState::PushSeen { value, top: m.top }),
        OwnerState::PushSeen { value, top } => if full(m.bottom, top, m.cap()) {
            let new_cap = grown(m.cap(), m.floor);
            (
                m.provided(new_cap),
                OwnerState::PushCopy { value, top, to: m.ring_for(new_cap) as usize, done: 0 },
            )
        } else {
            (m, OwnerState::PushRoom { value })
        },
        OwnerState::PushCopy { value, top, to, done } => if done < m.bottom.wrapping_sub(top) {
            (
                m.copied(to as int, top.wrapping_add(done)),
                OwnerState::PushCopy { value, top, to, done: (done + 1) as isize },
            )
        } else {
            (Mem { current: to, ..m }, OwnerState::PushRoom { value })
        },
        OwnerState::PushRoom { value } => (m.written(value), OwnerState::PushWritten),
        OwnerState::PushWritten => (
            Mem { bottom: m.bottom.wrapping_add(1), ..m },
            OwnerState::Pushed,
        ),
        OwnerState::Popping => (
            Mem { bottom: m.bottom.wrapping_sub(1), ..m },
            OwnerState::PopClaimed,
        ),
        OwnerState::PopClaimed => (m, OwnerState::PopSeen { top: m.top }),
        OwnerState::PopSeen { top } => match pop_case_spec(m.bottom, top) {
            PopCase::Empty => (Mem { bottom: top, ..m }, OwnerState::Popped(None)),
            PopCase::Take => {
                let item = m.live(m.bottom as int).unwrap();
                if sparse(m.cap(), m.bottom.wrapping_sub(top) as int) {
                    let new_cap = halved(m.cap());
                    (
                        m.provided(new_cap),
                        OwnerState::PopCopy {
                            item,
                            top,
                            to: m.ring_for(new_cap) as usize,
                            done: 0,
                        },
                    )
                } else {
                    (m, OwnerState::Popped(Some(item)))
                }
            },
            PopCase::Race => (
                m,
                OwnerState::PopRace { top, item: m.live(m.bottom as int).unwrap() },
            ),
        },
        OwnerState::PopCopy { item, top, to, done } => if done < m.bottom.wrapping_sub(top) {
            (
                m.copied(to as int, top.wrapping_add(done)),
                OwnerState::PopCopy { item, top, to, done: (done + 1) as isize },
            )
        } else {
            (Mem { current: to, ..m }, OwnerState::Popped(Some(item)))
        },
        OwnerState::PopRace { top, item } => if m.top == top {
            (
                Mem { top: top.wrapping_add(1), ..m },
                OwnerState::PopSettle { top, won: Some(item) },
            )
        } else {
            (m, OwnerState::PopSettle { top, won: None })
        },
        OwnerState::PopSettle { top, won } => (
            Mem { bottom: top.wrapping_add(1), ..m },
            OwnerState::Popped(won),
        ),
        OwnerState::Pushed => (m, s),
        OwnerState::Popped(_) => (m, s),
    }
}

/// What a thief's next step may rely on: the buffer it holds exists, and the cell it claims is
/// filled.
pub open spec fn thief_ready<P>(m: Mem<P>, s: ThiefState<P>) -> bool {
    match s {
        ThiefState::SeenBuffer { top, buffer } => buffer < m.rings.len(),
        ThiefState::SeenItem { top, cell } => m.top == top ==> cell is Some,
        _ => true,
    }
}

/// A thief's next step.
pub open spec fn thief_next<P>(m: Mem<P>, s: ThiefState<P>) -> (Mem<P>, ThiefState<P>) {
    match s {
        ThiefState::Stealing => (m, ThiefState::SeenTop { top: m.top }),
        ThiefState::SeenTop { top } => if m.bottom.wrapping_sub(top) <= 0 {
            (m, ThiefState::Stole(Steal::Empty))
        } else {
            (m, ThiefState::SeenWork { top })
        },
        ThiefState::SeenWork { top } => (
            m,
            ThiefState::SeenBuffer { top, buffer: m.current },
        ),
        ThiefState::SeenBuffer { top, buffer } => (
            m,
            ThiefState::SeenItem { top, cell: m.cell(buffer as int, top as int) },
        ),
        ThiefState::SeenItem { top, cell } => if m.top == top {
            (
                Mem { top: top.wrapping_add(1), ..m },
                ThiefState::Stole(Steal::Success(cell.unwrap())),
            )
        } else {
            (m, ThiefState::Stole(Steal::Retry))
        },
        ThiefState::Stole(_) => (m, s),
    }
}

/// A thief answers what it sees: it finds the deque empty only when the `bottom` that it loads has
/// not passed its `top`, it retries only when another has moved `top` first, and otherwise it has
/// the item of the cell that it has read.
pub proof fn a_thief_answers_what_it_sees<P>(m: Mem<P>, s: ThiefState<P>)
    ensures
        ({
            let (n, t) = thief_next(m, s);
            match s {
                ThiefState::Stealing => n == m && t == (ThiefState::<P>::SeenTop { top: m.top }),
                ThiefState::SeenTop { top } => {
                    let empty = m.bottom.wrapping_sub(top) <= 0;
                    &&& n == m
                    &&& empty ==> t == ThiefState::<P>::Stole(Steal::Empty)
                    &&& !empty ==> t == (ThiefState::<P>::SeenWork { top })
                },
                ThiefState::SeenWork { top } => n == m && t == (ThiefState::<P>::SeenBuffer {
                    top,
                    buffer: m.current,
                }),
                ThiefState::SeenBuffer { top, buffer } => n == m && t == (ThiefState::SeenItem {
                    top,
                    cell: m.rings[buffer as int][top as int % m.rings[buffer as int].len() as int],
                }),
                ThiefState::SeenItem { top, cell } => if m.top == top {
                    &&& t == ThiefState::Stole(Steal::Success(cell.unwrap()))
                    &&& n.top == top.wrapping_add(1)
                } else {
                    n == m && t == ThiefState::<P>::Stole(Steal::Retry)
                },
                ThiefState::Stole(_) => n == m && t == s,
            }
        }),
{
}

/// The owner answers what it sees: a pop finds the deque empty only when the `top` that it loads
/// has passed the slot that it has claimed, or when it loses the race for the last item; otherwise
/// it has the item of that slot. A push goes on to its end.
pub proof fn the_owner_answers_what_it_sees<P>(m: Mem<P>, s: OwnerState<P>)
    requires
        m.shaped(),
    ensures
        ({
            let (n, t) = owner_next(m, s);
            let item = m.rings[m.current as int][m.bottom as int % m.rings[m.current as int].len()
                as int];
            match s {
                OwnerState::Pushing { value } => t == (OwnerState::PushSeen { value, top: m.top }),
                OwnerState::PushSeen { value, top } => {
                    let full = m.bottom.wrapping_sub(top) + 1 >= m.rings[m.current as int].len();
                    &&& full ==> t is PushCopy && t->PushCopy_value == value && t->PushCopy_top
                        == top && t->PushCopy_done == 0 && n.rings[t->PushCopy_to as int].len()
                        == if 2 * m.rings[m.current as int].len() < m.floor {
                        m.floor
                    } else {
                        2 * m.rings[m.current as int].len() as int
                    }
                    &&& !full ==> n == m && t == (OwnerState::PushRoom { value })
                },
                OwnerState::PushCopy { value, top, to, done } => if done < m.bottom.wrapping_sub(
                    top,
                ) {
                    t == (OwnerState::PushCopy { value, top, to, done: (done + 1) as isize })
                } else {
                    t == (OwnerState::PushRoom { value }) && n.current == to
                },
                OwnerState::PushRoom { value } => t is PushWritten,
                OwnerState::PushWritten => t is Pushed && n.bottom == m.bottom.wrapping_add(1),
                OwnerState::Popping => t is PopClaimed && n.bottom == m.bottom.wrapping_sub(1),
                OwnerState::PopClaimed => n == m && t == (OwnerState::<P>::PopSeen { top: m.top }),
                OwnerState::PopSeen { top } => {
                    let size = m.bottom.wrapping_sub(top);
                    &&& size < 0 ==> t == OwnerState::<P>::Popped(None) && n.bottom == top
                    &&& size == 0 ==> n == m && t == (OwnerState::PopRace {
                        top,
                        item: item.unwrap(),
                    })
                    &&& size > 0 ==> {
                        let cap = m.rings[m.current as int].len() as int;
                        let sparse = cap > 16 && size < cap / 3;
                        &&& !sparse ==> t == OwnerState::Popped(Some(item.unwrap())) && n == m
                        &&& sparse ==> t is PopCopy && t->PopCopy_item == item.unwrap()
                            && t->PopCopy_top == top && t->PopCopy_done == 0
                            && n.rings[t->PopCopy_to as int].len() == if cap < 32 {
                            16
                        } else {
                            cap / 2
                        }
                    }
                },
                OwnerState::PopCopy { item: i, top, to, done } => if done
                    < m.bottom.wrapping_sub(top) {
                    t == (OwnerState::PopCopy { item: i, top, to, done: (done + 1) as isize })
                } else {
                    t == OwnerState::Popped(Some(i)) && n.current == to
                },
                OwnerState::PopRace { top, item: i } => t == (OwnerState::PopSettle {
                    top,
                    won: if m.top == top {
                        Some(i)
                    } else {
                        None
                    },
                }),
                OwnerState::PopSettle { top, won } => t == OwnerState::Popped(won) && n.bottom
                    == top.wrapping_add(1),
                _ => n == m && t == s,
            }
        }),
{
    lemma_rings_fit(m);
    lemma_ring_with(m.rings, grown(m.cap(), m.floor), 0);
    lemma_ring_with(m.rings, halved(m.cap()), 0);
}

/// Whether a push finds a ring of `cap` cells full.
pub fn is_full(bottom: isize, top: isize, cap: usize) -> (r: bool)
    requires
        1 <= cap <= isize::MAX,
    ensures
        r == full(bottom, top, cap as int),
        r == (bottom.wrapping_sub(top) + 1 >= cap),
{
    bottom.wrapping_sub(top) >= cap as isize - 1
}

/// The capacity that a full ring grows to.
pub fn grown_capacity(cap: usize, floor: usize) -> (r: usize)
    requires
        2 * cap <= usize::MAX,
    ensures
        r == grown(cap as int, floor as int),
        r >= 2 * cap && r >= floor,
        r == 2 * cap || r == floor,
{
    let double = cap * 2;
    if double < floor {
        floor
    } else {
        double
    }
}

/// The capacity to shrink to, if `bottom` and `top` leave the ring sparse.
pub fn shrunk_capacity(cap: usize, bottom: isize, top: isize) -> (r: Option<usize>)
    ensures
        r == ({
            let size = bottom.wrapping_sub(top);
            if sparse(cap as int, if size < 0 { 0 } else { size as int }) {
                Some(halved(cap as int) as usize)
            } else {
                None
            }
        }),
        r is Some <==> cap > 16 && cap / 3 > 0 && bottom.wrapping_sub(top) < cap / 3,
        r matches Some(half) ==> (half == cap / 2 || half == 16 > cap / 2) && half >= 16,
{
    let span = bottom.wrapping_sub(top);
    let size: usize = if span < 0 {
        0
    } else {
        span as usize
    };
    if cap > MIN_CAPACITY && size < cap / SHRINK_FACTOR {
        let half = cap / 2;
        Some(
            if half < MIN_CAPACITY {
                MIN_CAPACITY
            } else {
                half
            },
        )
    } else {
        None
    }
}

/// The case a claimed `bottom` and a loaded `top` call for.
pub fn pop_case(bottom: isize, top: isize) -> (r: PopCase)
    ensures
        r == pop_case_spec(bottom, top),
        r is Empty <==> bottom.wrapping_sub(top) < 0,
        r is Race <==> bottom == top,
{
    let size = bottom.wrapping_sub(top);
    if size < 0 {
        PopCase::Empty
    } else if size > 0 {
        PopCase::Take
    } else {
        PopCase::Race
    }
}

/// Whether a thief that loaded `top` and then `bottom` sees work.
pub fn has_work(top: isize, bottom: isize) -> (r: bool)
    ensures
        r == (bottom.wrapping_sub(top) > 0),
{
    bottom.wrapping_sub(top) > 0
}

/// The memory shared by the owner and the thieves of one deque.
#[derive(Clone, Debug)]
pub struct Deque<P> {
    bottom: isize,
    top: isize,
    buffers: Vec<Buffer<P>>,
    current: usize,
    floor: usize,
}

impl<P> View for Deque<P> {
    type V = Mem<P>;

    closed spec fn view(&self) -> Mem<P> {
        Mem {
            bottom: self.bottom,
            top: self.top,
            rings: Seq::new(self.buffers@.len(), |r: int| self.buffers@[r]@),
            current: self.current,
            floor: self.floor as int,
        }
    }
}

/// The owner is about to copy item `done` from `top` on into ring `to`.
spec fn is_copy<P>(s: OwnerState<P>, top: isize, to: int, done: int) -> bool {
    match s {
        OwnerState::PushCopy { value, top: t, to: r, done: d } => t == top && r == to && d == done,
        OwnerState::PopCopy { item, top: t, to: r, done: d } => t == top && r == to && d == done,
        _ => false,
    }
}

/// The item that the owner holds while it copies, and whether it goes on to write it.
spec fn carried<P>(s: OwnerState<P>) -> Option<(P, bool)> {
    match s {
        OwnerState::PushCopy { value, top, to, done } => Some((value, true)),
        OwnerState::PopCopy { item, top, to, done } => Some((item, false)),
        _ => None,
    }
}

/// What is the same with a ring of `cap` cells among the rings: their number grows by one if there
/// was none, and those that were there stay.
pub proof fn lemma_provided<P>(m: Mem<P>, cap: int)
    requires
        m.shaped(),
        index::is_capacity(cap),
    ensures
        m.provided(cap).shaped(),
        m.provided(cap).active() == m.active(),
        0 <= m.ring_for(cap) < m.provided(cap).rings.len(),
        m.provided(cap).rings[m.ring_for(cap)].len() == cap,
        m.ring_for(cap) <= m.rings.len() < usize::MAX,
        m.rings.len() <= m.provided(cap).rings.len() <= m.rings.len() + 1,
        m.provided(cap).rings.len() > m.rings.len() ==> m.ring_for(cap) == m.rings.len(),
        forall|r: int|
            0 <= r < m.rings.len() ==> #[trigger] m.provided(cap).rings[r] == m.rings[r],
        cap != m.cap() ==> m.ring_for(cap) != m.current,
{
    let n = m.provided(cap);
    lemma_ring_with(m.rings, cap, 0);
    lemma_rings_fit(m);
    assert forall|r: int| 0 <= r < n.rings.len() implies index::is_capacity(
        #[trigger] n.rings[r].len() as int,
    ) by {
        if r < m.rings.len() {
            assert(index::is_capacity(m.rings[r].len() as int));
        }
    }
    assert forall|r: int, q: int| 0 <= r < q < n.rings.len() implies #[trigger] differ(
        n.rings,
        r,
        q,
    ) by {
        if q < m.rings.len() {
            assert(differ(m.rings, r, q));
        }
        assert(n.rings[r] == m.rings[r]);
    }
}

/// Rings keep their capacities when a cell is copied, and the active ring stays as it is.
pub proof fn lemma_copied<P>(m: Mem<P>, to: int, i: isize)
    requires
        m.shaped(),
        0 <= to < m.rings.len(),
    ensures
        m.copied(to, i).shaped(),
        to != m.current ==> m.copied(to, i).active() == m.active(),
{
    assert(index::is_capacity(m.rings[to].len() as int));
    vstd::arithmetic::div_mod::lemma_mod_bound(i as int, m.rings[to].len() as int);
    lemma_same_capacities(m, m.copied(to, i));
}

/// Copying one more item.
proof fn lemma_copying<P>(m: Mem<P>, new_cap: int, top: isize, done: isize)
    requires
        m.shaped(),
        index::is_capacity(new_cap),
        new_cap != m.cap(),
        0 <= done < new_cap,
    ensures
        m.copying(new_cap, top, 0) == m.provided(new_cap),
        m.copying(new_cap, top, done + 1) == m.copying(new_cap, top, done as int).copied(
            m.ring_for(new_cap),
            top.wrapping_add(done),
        ),
{
    let p = m.provided(new_cap);
    let to = m.ring_for(new_cap);
    let before = m.copying(new_cap, top, done as int);
    let after = before.copied(to, top.wrapping_add(done));
    lemma_provided(m, new_cap);
    assert(index::is_capacity(m.rings[m.current as int].len() as int));
    buffer::lemma_relocated_none(m.active(), p.rings[to], top as int);
    assert(m.copying(new_cap, top, 0).rings =~= p.rings);
    buffer::lemma_relocated_step(m.active(), p.rings[to], top as int, done as int);
    index::lemma_wrapped_slot(top + done, m.cap());
    index::lemma_wrapped_slot(top + done, new_cap);
    assert(before.active() == m.active());
    assert(m.copying(new_cap, top, done + 1).rings =~= after.rings);
}

/// What is the same of the rings after a resize: their number grows by one if there was no ring of
/// that capacity, and the capacities of those that were there stay.
pub proof fn lemma_resized_rings<P>(m: Mem<P>, new_cap: int, top: isize)
    requires
        m.shaped(),
        index::is_capacity(new_cap),
    ensures
        m.resized(new_cap, top).shaped(),
        m.resized(new_cap, top).cap() == new_cap,
        m.rings.len() <= m.resized(new_cap, top).rings.len() <= m.rings.len() + 1,
        m.resized(new_cap, top).rings.len() > m.rings.len() ==> m.resized(new_cap, top).current
            == m.rings.len(),
        forall|r: int|
            0 <= r < m.rings.len() ==> (#[trigger] m.resized(new_cap, top).rings[r]).len()
                == m.rings[r].len(),
{
    lemma_provided(m, new_cap);
    lemma_same_capacities(
        m.provided(new_cap),
        m.copying(new_cap, top, m.bottom.wrapping_sub(top) as int),
    );
}

/// Relocating the live range into another ring keeps the contents.
pub proof fn lemma_resized<P>(m: Mem<P>, new_cap: int)
    requires
        m.quiescent(),
        index::is_capacity(new_cap),
        m.count() < new_cap,
    ensures
        m.resized(new_cap, m.top).quiescent(),
        m.resized(new_cap, m.top).contents() == m.contents(),
        m.resized(new_cap, m.top).cap() == new_cap,
{
    let n = m.resized(new_cap, m.top);
    lemma_provided(m, new_cap);
    lemma_resized_rings(m, new_cap, m.top);
    assert(index::is_capacity(m.rings[m.current as int].len() as int));
    assert forall|k: int| 0 <= k < n.count() implies #[trigger] n.live(n.top + k) == m.live(
        m.top + k,
    ) by {
        buffer::lemma_relocated_cell(
            m.active(),
            m.provided(new_cap).rings[m.ring_for(new_cap)],
            m.top as int,
            m.count(),
            k,
        );
    }
    assert(n.contents() =~= m.contents());
}

proof fn lemma_pow2_gap(a: int, b: int)
    requires
        vstd::arithmetic::power2::is_pow2(a),
        vstd::arithmetic::power2::is_pow2(b),
        a < b,
    ensures
        2 * a <= b,
        vstd::arithmetic::power2::is_pow2(b / 2),
        b == 2 * (b / 2),
        b >= 2,
    decreases b,
{
    reveal(vstd::arithmetic::power2::is_pow2);
    if a > 1 {
        lemma_pow2_gap(a / 2, b / 2);
    }
}

proof fn lemma_few_powers(caps: Seq<int>, bound: int)
    requires
        caps.len() >= 1,
        caps.no_duplicates(),
        vstd::arithmetic::power2::is_pow2(bound),
        forall|i: int|
            0 <= i < caps.len() ==> vstd::arithmetic::power2::is_pow2(#[trigger] caps[i])
                && caps[i] <= bound,
    ensures
        vstd::arithmetic::power2::pow2((caps.len() - 1) as nat) <= bound,
    decreases caps.len(),
{
    vstd::arithmetic::power2::lemma2_to64();
    reveal(vstd::arithmetic::power2::is_pow2);
    if caps.len() > 1 {
        let out = if exists|i: int| 0 <= i < caps.len() && caps[i] == bound {
            choose|i: int| 0 <= i < caps.len() && caps[i] == bound
        } else {
            0
        };
        let rest = caps.remove(out);
        let half = bound / 2;
        assert forall|i: int| 0 <= i < rest.len() implies vstd::arithmetic::power2::is_pow2(
            #[trigger] rest[i],
        ) && rest[i] <= half && vstd::arithmetic::power2::is_pow2(half) && bound == 2 * half by {
            let j = if i < out {
                i
            } else {
                i + 1
            };
            assert(rest[i] == caps[j]);
            assert(caps[j] != bound);
            lemma_pow2_gap(caps[j], bound);
        }
        assert(rest[0] <= half);
        lemma_few_powers(rest, half);
        vstd::arithmetic::power2::lemma_pow2_unfold((caps.len() - 1) as nat);
    }
}

proof fn lemma_largest<P>(rings: Seq<Seq<Option<P>>>, n: nat)
    requires
        n <= rings.len(),
    ensures
        forall|r: int| 0 <= r < n ==> (#[trigger] rings[r]).len() <= largest(rings, n),
        n > 0 ==> exists|r: int| 0 <= r < n && (#[trigger] rings[r]).len() == largest(rings, n),
    decreases n,
{
    if n > 0 {
        let before = largest(rings, (n - 1) as nat);
        lemma_largest(rings, (n - 1) as nat);
        if rings[n - 1].len() > before {
            assert(rings[n - 1].len() == largest(rings, n));
        } else if n > 1 {
            let r = choose|r: int| 0 <= r < n - 1 && (#[trigger] rings[r]).len() == before;
            assert(rings[r].len() == largest(rings, n));
        } else {
            assert(rings[n - 1].len() == largest(rings, n));
        }
    }
}

impl<P> Mem<P> {
    /// The largest capacity that a ring has.
    pub open spec fn peak(self) -> int {
        largest(self.rings, self.rings.len())
    }
}

/// There is one ring per capacity, and no more rings than powers of two up to the largest of them.
pub proof fn rings_are_few<P>(m: Mem<P>)
    requires
        m.shaped(),
    ensures
        vstd::arithmetic::power2::pow2((m.rings.len() - 1) as nat) <= m.peak(),
        m.kept().finite(),
        m.kept().len() == m.rings.len(),
        m.kept().contains(m.cap()),
        m.kept().contains(m.peak()),
        forall|cap: int| m.kept().contains(cap) ==> cap <= m.peak(),
{
    let caps = Seq::new(m.rings.len(), |r: int| m.rings[r].len() as int);
    lemma_largest(m.rings, m.rings.len());
    assert(caps.no_duplicates()) by {
        assert forall|r: int, q: int|
            0 <= r < caps.len() && 0 <= q < caps.len() && r != q implies caps[r] != caps[q] by {
            assert(differ(m.rings, r, q) || differ(m.rings, q, r));
        }
    }
    let at = choose|r: int|
        0 <= r < m.rings.len() && (#[trigger] m.rings[r]).len() == m.peak();
    assert(index::is_capacity(m.rings[at].len() as int));
    assert forall|r: int| 0 <= r < caps.len() implies vstd::arithmetic::power2::is_pow2(
        #[trigger] caps[r],
    ) && caps[r] <= m.peak() by {
        assert(index::is_capacity(m.rings[r].len() as int));
    }
    lemma_few_powers(caps, m.peak());
    caps.unique_seq_to_set();
    assert(caps.to_set() =~= m.kept()) by {
        assert forall|cap: int| m.kept().contains(cap) implies caps.to_set().contains(cap) by {
            let r = choose|r: int|
                0 <= r < m.rings.len() && (#[trigger] m.rings[r]).len() == cap;
            assert(caps[r] == cap);
        }
        assert forall|cap: int| caps.to_set().contains(cap) implies m.kept().contains(cap) by {
            let r = caps.index_of(cap);
            assert(m.rings[r].len() == cap);
        }
    }
    assert(m.rings[m.current as int].len() == m.cap());
}

/// There are no more rings than indices have bits.
pub proof fn lemma_rings_fit<P>(m: Mem<P>)
    requires
        m.shaped(),
    ensures
        m.rings.len() <= 64,
{
    rings_are_few(m);
    let at = choose|r: int|
        0 <= r < m.rings.len() && (#[trigger] m.rings[r]).len() == m.peak();
    assert(index::is_capacity(m.rings[at].len() as int));
    vstd::arithmetic::power2::lemma2_to64();
    if m.rings.len() > 65 {
        vstd::arithmetic::power2::lemma_pow2_strictly_increases(64, (m.rings.len() - 1) as nat);
    }
}

/// The capacities that are kept after one more ring has become the active one.
proof fn lemma_kept<P>(m: Mem<P>, n: Mem<P>)
    requires
        m.shaped(),
        n.shaped(),
        m.rings.len() <= n.rings.len() <= m.rings.len() + 1,
        n.rings.len() > m.rings.len() ==> n.current == m.rings.len(),
        forall|r: int|
            0 <= r < m.rings.len() ==> (#[trigger] n.rings[r]).len() == m.rings[r].len(),
    ensures
        n.kept() == m.kept().insert(n.cap()),
        n.peak() == if n.cap() > m.peak() {
            n.cap()
        } else {
            m.peak()
        },
{
    assert forall|cap: int| n.kept().contains(cap) == m.kept().insert(n.cap()).contains(cap) by {
        if n.kept().contains(cap) {
            let r = choose|r: int| 0 <= r < n.rings.len() && (#[trigger] n.rings[r]).len() == cap;
            if r < m.rings.len() {
                assert(m.rings[r].len() == cap);
            }
        }
        if m.kept().contains(cap) {
            let r = choose|r: int| 0 <= r < m.rings.len() && (#[trigger] m.rings[r]).len() == cap;
            assert(n.rings[r].len() == cap);
        }
        assert(n.rings[n.current as int].len() == n.cap());
    }
    assert(n.kept() =~= m.kept().insert(n.cap()));
    rings_are_few(m);
    rings_are_few(n);
    assert(n.kept().contains(n.cap()) && n.kept().contains(m.peak()));
    assert(m.kept().insert(n.cap()).contains(n.peak()));
}

/// Writing the cell at `bottom` and publishing it appends one item.
pub proof fn lemma_written<P>(m: Mem<P>, item: P)
    requires
        m.quiescent(),
        m.count() + 1 < m.cap(),
    ensures
        ({
            let n = Mem { bottom: m.bottom.wrapping_add(1), ..m.written(item) };
            &&& n.quiescent()
            &&& n.contents() == m.contents().push(item)
            &&& n.cap() == m.cap()
        }),
{
    let w = m.written(item);
    let n = Mem { bottom: m.bottom.wrapping_add(1), ..w };
    let cap = m.cap();
    assert(m.rings[m.current as int].len() == cap);
    vstd::arithmetic::div_mod::lemma_mod_bound(m.bottom as int, cap);
    index::lemma_wrapped_slot(m.top + m.count(), cap);
    assert(m.bottom as int % cap == (m.top + m.count()) % cap);
    assert(n.active() == m.active().update(m.bottom as int % cap, Some(item)));
    assert forall|r: int| 0 <= r < n.rings.len() implies index::is_capacity(
        #[trigger] n.rings[r].len() as int,
    ) by {
        assert(n.rings[r].len() == m.rings[r].len());
    }
    lemma_same_capacities(m, n);
    assert(n.count() == m.count() + 1);
    assert forall|k: int| 0 <= k < n.count() implies #[trigger] n.live(n.top + k) == (if k
        < m.count() {
        m.live(m.top + k)
    } else {
        Some(item)
    }) by {
        vstd::arithmetic::div_mod::lemma_mod_bound(m.top + k, cap);
        if k < m.count() {
            index::lemma_distinct_slots(m.top + k, m.top + m.count(), cap);
        }
    }
    assert(n.contents() =~= m.contents().push(item));
}

/// Rings keep their capacities when only cells change.
pub proof fn lemma_same_capacities<P>(m: Mem<P>, n: Mem<P>)
    requires
        m.shaped(),
        n.floor == m.floor,
        n.current == m.current,
        n.rings.len() == m.rings.len(),
        forall|r: int|
            0 <= r < m.rings.len() ==> (#[trigger] n.rings[r]).len() == m.rings[r].len(),
    ensures
        n.shaped(),
{
    assert forall|r: int| 0 <= r < n.rings.len() implies index::is_capacity(
        #[trigger] n.rings[r].len() as int,
    ) by {
        assert(index::is_capacity(m.rings[r].len() as int));
    }
    assert forall|r: int, q: int| 0 <= r < q < n.rings.len() implies #[trigger] differ(n.rings, r, q) by {
        assert(differ(m.rings, r, q));
        assert(n.rings[r].len() == m.rings[r].len() && n.rings[q].len() == m.rings[q].len());
    }
}

/// Retreating `bottom` by one drops the last item.
pub proof fn lemma_retreated<P>(m: Mem<P>)
    requires
        m.quiescent(),
        m.count() > 0,
    ensures
        ({
            let n = Mem { bottom: m.bottom.wrapping_sub(1), ..m };
            &&& n.quiescent()
            &&& n.contents() == m.contents().drop_last()
            &&& n.live(n.bottom as int) == Some(m.contents().last())
        }),
{
    let n = Mem { bottom: m.bottom.wrapping_sub(1), ..m };
    let k = m.count() - 1;
    assert(m.rings[m.current as int].len() == m.cap());
    index::lemma_wrapped_slot(m.top + k, m.cap());
    assert(n.bottom as int % m.cap() == (m.top + k) % m.cap());
    assert(m.live(m.top + k) is Some);
    assert forall|j: int| 0 <= j < n.count() implies (#[trigger] n.live(n.top + j)) is Some by {
        assert(m.live(m.top + j) is Some);
    }
    assert(n.contents() =~= m.contents().drop_last());
}

/// Advancing `top` by one drops the first item.
pub proof fn lemma_advanced<P>(m: Mem<P>)
    requires
        m.quiescent(),
        m.count() > 0,
    ensures
        ({
            let n = Mem { top: m.top.wrapping_add(1), ..m };
            &&& n.quiescent()
            &&& n.contents() == m.contents().drop_first()
            &&& m.live(m.top as int) == Some(m.contents()[0])
        }),
{
    let n = Mem { top: m.top.wrapping_add(1), ..m };
    let cap = m.cap();
    assert(m.rings[m.current as int].len() == m.cap());
    assert(m.live(m.top + 0) is Some);
    assert forall|k: int| 0 <= k < n.count() implies #[trigger] n.live(n.top + k) == m.live(
        m.top + (k + 1),
    ) by {
        index::lemma_wrapped_slot(m.top + (k + 1), cap);
        index::lemma_wrapped_slot(n.top + k, cap);
    }
    assert forall|j: int| 0 <= j < n.count() implies (#[trigger] n.live(n.top + j)) is Some by {
        assert(m.live(m.top + (j + 1)) is Some);
    }
    assert(n.contents() =~= m.contents().drop_first());
}

impl<P: Copy> Deque<P> {
    /// An empty deque with one ring of `cap` cells. A full ring grows to at least `floor` cells.
    pub fn new(cap: usize, floor: usize) -> (d: Self)
        requires
            index::is_capacity(cap as int),
            index::is_capacity(floor as int),
        ensures
            d@.quiescent(),
            d@.contents() == Seq::<P>::empty(),
            d@.cap() == cap,
            d@.rings.len() == 1,
            d@.kept() == set![d@.cap()],
            d@.peak() == d@.cap(),
            d@.floor == floor,
            d@.bottom == 0,
            d@.top == 0,
    {
        let mut buffers: Vec<Buffer<P>> = Vec::new();
        buffers.push(Buffer::new(cap));
        let d = Deque { bottom: 0, top: 0, buffers, current: 0, floor };
        proof {
            assert(d@.contents() =~= Seq::<P>::empty());
            reveal_with_fuel(largest, 2);
            assert(d@.rings[0].len() == cap);
            assert(d@.kept() =~= set![d@.cap()]);
        }
        d
    }

    /// Number of items from `top` to `bottom`; zero while `bottom` is behind `top`.
    pub fn len(&self) -> (r: usize)
        ensures
            r == if self@.count() < 0 { 0 } else { self@.count() },
    {
        let span = self.bottom.wrapping_sub(self.top);
        if span < 0 {
            0
        } else {
            span as usize
        }
    }

    /// Capacity of the active ring.
    pub fn capacity(&self) -> (r: usize)
        requires
            self@.shaped(),
        ensures
            r == self@.cap(),
    {
        assert(self@.rings[self.current as int] == self.buffers@[self.current as int]@);
        self.buffers[self.current].capacity()
    }

    /// Number of retired rings.
    pub fn retired(&self) -> (r: usize)
        requires
            self@.shaped(),
        ensures
            r == self@.rings.len() - 1,
    {
        self.buffers.len() - 1
    }

    /// The current value of `top`.
    pub fn top(&self) -> (r: isize)
        ensures
            r == self@.top,
    {
        self.top
    }

    /// The current value of `bottom`.
    pub fn bottom(&self) -> (r: isize)
        ensures
            r == self@.bottom,
    {
        self.bottom
    }

    /// The number of the ring of `cap` cells. Adds a fresh one if there is none.
    fn provide(&mut self, cap: usize) -> (to: usize)
        requires
            old(self)@.shaped(),
            index::is_capacity(cap as int),
        ensures
            final(self)@ == old(self)@.provided(cap as int),
            final(self)@.shaped(),
            to == old(self)@.ring_for(cap as int),
            to < final(self)@.rings.len(),
    {
        let ghost m = self@;
        proof {
            lemma_provided(m, cap as int);
        }
        let mut r: usize = 0;
        while r < self.buffers.len() && self.buffers[r].capacity() != cap
            invariant
                self@ == m,
                r <= m.rings.len(),
                ring_with(m.rings, cap as int, 0) == ring_with(m.rings, cap as int, r as int),
            decreases m.rings.len() - r,
        {
            assert(m.rings[r as int] == self.buffers@[r as int]@);
            r += 1;
        }
        if r == self.buffers.len() {
            self.buffers.push(Buffer::new(cap));
            assert(self@.rings =~= m.provided(cap as int).rings);
        } else {
            assert(m.rings[r as int] == self.buffers@[r as int]@);
        }
        r
    }

    /// Copy the active cell for logical index `i` into ring `to`.
    fn copy_cell(&mut self, to: usize, i: isize)
        requires
            old(self)@.shaped(),
            to < old(self)@.rings.len(),
        ensures
            final(self)@ == old(self)@.copied(to as int, i),
            final(self)@.shaped(),
    {
        let ghost m = self@;
        let current = self.current;
        assert(m.rings[current as int] == self.buffers@[current as int]@);
        assert(m.rings[to as int] == self.buffers@[to as int]@);
        assert(index::is_capacity(m.rings[current as int].len() as int));
        assert(index::is_capacity(m.rings[to as int].len() as int));
        let cell = self.buffers[current].read(i);
        self.buffers[to].write(i, cell);
        proof {
            lemma_copied(m, to as int, i);
            assert(self@.rings =~= m.copied(to as int, i).rings);
        }
    }

    /// One step of the owner.
    pub fn owner_step(&mut self, s: OwnerState<P>) -> (r: OwnerState<P>)
        requires
            old(self)@.shaped(),
            owner_ready(old(self)@, s),
        ensures
            (final(self)@, r) == owner_next(old(self)@, s),
            final(self)@.shaped(),
    {
        let last = self.current;
        let ghost m = self@;
        assert(m.rings[last as int] == self.buffers@[last as int]@);
        assert(m.rings[last as int].len() == m.cap());
        proof {
            index::lemma_double_half(self@.cap());
            index::lemma_base_capacities();
        }
        match s {
            OwnerState::Pushing { value } => OwnerState::PushSeen { value, top: self.top },
            OwnerState::PushSeen { value, top } => {
                let cap = self.buffers[last].capacity();
                if is_full(self.bottom, top, cap) {
                    let new_cap = grown_capacity(cap, self.floor);
                    let to = self.provide(new_cap);
                    OwnerState::PushCopy { value, top, to, done: 0 }
                } else {
                    OwnerState::PushRoom { value }
                }
            },
            OwnerState::PushCopy { value, top, to, done } => {
                if done < self.bottom.wrapping_sub(top) {
                    self.copy_cell(to, top.wrapping_add(done));
                    OwnerState::PushCopy { value, top, to, done: done + 1 }
                } else {
                    self.current = to;
                    OwnerState::PushRoom { value }
                }
            },
            OwnerState::PushRoom { value } => {
                let bottom = self.bottom;
                self.buffers[last].write(bottom, Some(value));
                proof {
                    assert(self@.rings =~= old(self)@.written(value).rings);
                    lemma_same_capacities(m, self@);
                }
                OwnerState::PushWritten
            },
            OwnerState::PushWritten => {
                self.bottom = self.bottom.wrapping_add(1);
                OwnerState::Pushed
            },
            OwnerState::Popping => {
                self.bottom = self.bottom.wrapping_sub(1);
                OwnerState::PopClaimed
            },
            OwnerState::PopClaimed => OwnerState::PopSeen { top: self.top },
            OwnerState::PopSeen { top } => {
                match pop_case(self.bottom, top) {
                    PopCase::Empty => {
                        self.bottom = top;
                        OwnerState::Popped(None)
                    },
                    PopCase::Take => {
                        let item = self.buffers[last].read(self.bottom).unwrap();
                        let cap = self.buffers[last].capacity();
                        if let Some(new_cap) = shrunk_capacity(cap, self.bottom, top) {
                            let to = self.provide(new_cap);
                            OwnerState::PopCopy { item, top, to, done: 0 }
                        } else {
                            OwnerState::Popped(Some(item))
                        }
                    },
                    PopCase::Race => {
                        let item = self.buffers[last].read(self.bottom).unwrap();
                        OwnerState::PopRace { top, item }
                    },
                }
            },
            OwnerState::PopCopy { item, top, to, done } => {
                if done < self.bottom.wrapping_sub(top) {
                    self.copy_cell(to, top.wrapping_add(done));
                    OwnerState::PopCopy { item, top, to, done: done + 1 }
                } else {
                    self.current = to;
                    OwnerState::Popped(Some(item))
                }
            },
            OwnerState::PopRace { top, item } => {
                if self.top == top {
                    self.top = top.wrapping_add(1);
                    OwnerState::PopSettle { top, won: Some(item) }
                } else {
                    OwnerState::PopSettle { top, won: None }
                }
            },
            OwnerState::PopSettle { top, won } => {
                self.bottom = top.wrapping_add(1);
                OwnerState::Popped(won)
            },
            OwnerState::Pushed => s,
            OwnerState::Popped(_) => s,
        }
    }

    /// One step of a thief.
    pub fn thief_step(&mut self, s: ThiefState<P>) -> (r: ThiefState<P>)
        requires
            old(self)@.shaped(),
            thief_ready(old(self)@, s),
        ensures
            (final(self)@, r) == thief_next(old(self)@, s),
            final(self)@.shaped(),
    {
        match s {
            ThiefState::Stealing => ThiefState::SeenTop { top: self.top },
            ThiefState::SeenTop { top } => {
                if has_work(top, self.bottom) {
                    ThiefState::SeenWork { top }
                } else {
                    ThiefState::Stole(Steal::Empty)
                }
            },
            ThiefState::SeenWork { top } => {
                ThiefState::SeenBuffer { top, buffer: self.current }
            },
            ThiefState::SeenBuffer { top, buffer } => {
                assert(self@.rings[buffer as int] == self.buffers@[buffer as int]@);
                let cell = self.buffers[buffer].read(top);
                ThiefState::SeenItem { top, cell }
            },
            ThiefState::SeenItem { top, cell } => {
                if self.top == top {
                    self.top = top.wrapping_add(1);
                    ThiefState::Stole(Steal::Success(cell.unwrap()))
                } else {
                    ThiefState::Stole(Steal::Retry)
                }
            },
            ThiefState::Stole(_) => s,
        }
    }

    /// The steps of a resize, from the first copy to the change of the active ring, without
    /// interruption. `m` is the memory before there was a ring of `new_cap` cells.
    fn copy_all(
        &mut self,
        s: OwnerState<P>,
        Ghost(m): Ghost<Mem<P>>,
        Ghost(new_cap): Ghost<int>,
        Ghost(top): Ghost<isize>,
    ) -> (r: OwnerState<P>)
        requires
            m.shaped(),
            index::is_capacity(new_cap),
            new_cap != m.cap(),
            0 <= m.bottom.wrapping_sub(top) < new_cap,
            old(self)@ == m.provided(new_cap),
            is_copy(s, top, m.ring_for(new_cap), 0),
        ensures
            final(self)@ == m.resized(new_cap, top),
            r == match s {
                OwnerState::PushCopy { value, top: t, to, done } => OwnerState::PushRoom { value },
                OwnerState::PopCopy { item, top: t, to, done } => OwnerState::Popped(Some(item)),
                _ => r,
            },
    {
        let ghost start = s;
        let ghost count = m.bottom.wrapping_sub(top);
        let ghost to = m.ring_for(new_cap);
        let ghost mut k: int = 0;
        let mut s = s;
        proof {
            lemma_provided(m, new_cap);
            lemma_copying(m, new_cap, top, 0);
        }
        loop
            invariant_except_break
                0 <= k <= count,
                self@ == m.copying(new_cap, top, k),
                self@.shaped(),
                is_copy(s, top, to, k),
                carried(s) == carried(start),
            invariant
                m.shaped(),
                index::is_capacity(new_cap),
                new_cap != m.cap(),
                count == m.bottom.wrapping_sub(top),
                count < new_cap,
                to == m.ring_for(new_cap),
                0 <= to < m.provided(new_cap).rings.len() <= usize::MAX,
            ensures
                self@ == m.resized(new_cap, top),
                s == match start {
                    OwnerState::PushCopy { value, top: t, to, done } => OwnerState::PushRoom {
                        value,
                    },
                    OwnerState::PopCopy { item, top: t, to, done } => OwnerState::Popped(
                        Some(item),
                    ),
                    _ => s,
                },
            decreases count - k,
        {
            proof {
                if k < count {
                    lemma_copying(m, new_cap, top, k as isize);
                }
            }
            s = self.owner_step(s);
            proof {
                k = k + 1;
            }
            match s {
                OwnerState::PushCopy { value, top: t, to: r, done } => {},
                OwnerState::PopCopy { item, top: t, to: r, done } => {},
                _ => {
                    break;
                },
            }
        }
        s
    }

    /// Append an item at the bottom. `top` is any lower bound of the current top that leaves the
    /// ring with room, or the current top itself.
    pub fn push_from(&mut self, value: P, top: isize)
        requires
            old(self)@.quiescent(),
            top == old(self)@.top || (!full(old(self)@.bottom, top, old(self)@.cap())
                && old(self)@.bottom.wrapping_sub(top) >= old(self)@.count()),
            full(old(self)@.bottom, top, old(self)@.cap()) ==> 2 * old(self)@.cap() <= isize::MAX,
        ensures
            final(self)@.quiescent(),
            final(self)@.contents() == old(self)@.contents().push(value),
            final(self)@.cap() == if old(self)@.bottom.wrapping_sub(top) >= old(self)@.cap() - 1 {
                if 2 * old(self)@.cap() < old(self)@.floor {
                    old(self)@.floor
                } else {
                    2 * old(self)@.cap()
                }
            } else {
                old(self)@.cap()
            },
            final(self)@.kept() == old(self)@.kept().insert(final(self)@.cap()),
            final(self)@.peak() == if final(self)@.cap() > old(self)@.peak() {
                final(self)@.cap()
            } else {
                old(self)@.peak()
            },
            final(self)@.floor == old(self)@.floor,
            final(self)@.top == old(self)@.top,
            final(self)@.bottom == old(self)@.bottom.wrapping_add(1),
    {
        let ghost m0 = self@;
        assert(m0.rings[m0.current as int].len() == m0.cap());
        let ghost new_cap = grown(m0.cap(), m0.floor);
        proof {
            if full(m0.bottom, top, m0.cap()) {
                index::lemma_double_half(m0.cap());
                lemma_provided(m0, new_cap);
                lemma_resized(m0, new_cap);
                lemma_resized_rings(m0, new_cap, top);
            }
        }
        let mut s = self.owner_step(OwnerState::PushSeen { value, top });
        if let OwnerState::PushCopy { value: v, top: t, to, done } = s {
            s = self.copy_all(s, Ghost(m0), Ghost(new_cap), Ghost(top));
        }
        let ghost m1 = self@;
        proof {
            lemma_written(m1, value);
        }
        let s = self.owner_step(s);
        let s = self.owner_step(s);
        proof {
            lemma_kept(m0, self@);
        }
    }

    /// Append an item at the bottom.
    pub fn push(&mut self, value: P)
        requires
            old(self)@.quiescent(),
            2 * (old(self)@.count() + 1) <= isize::MAX,
        ensures
            final(self)@.quiescent(),
            final(self)@.contents() == old(self)@.contents().push(value),
            final(self)@.cap() == if old(self)@.count() >= old(self)@.cap() - 1 {
                if 2 * old(self)@.cap() < old(self)@.floor {
                    old(self)@.floor
                } else {
                    2 * old(self)@.cap()
                }
            } else {
                old(self)@.cap()
            },
            final(self)@.kept() == old(self)@.kept().insert(final(self)@.cap()),
            final(self)@.peak() == if final(self)@.cap() > old(self)@.peak() {
                final(self)@.cap()
            } else {
                old(self)@.peak()
            },
            final(self)@.floor == old(self)@.floor,
            final(self)@.top == old(self)@.top,
            final(self)@.bottom == old(self)@.bottom.wrapping_add(1),
    {
        if let OwnerState::PushSeen { value, top } = self.owner_step(
            OwnerState::Pushing { value },
        ) {
            self.push_from(value, top);
        }
    }

    /// Remove the item at the bottom.
    pub fn pop(&mut self) -> (r: Option<P>)
        requires
            old(self)@.quiescent(),
        ensures
            final(self)@.quiescent(),
            final(self)@.floor == old(self)@.floor,
            old(self)@.count() == 0 ==> r is None && final(self)@ == old(self)@,
            old(self)@.count() > 0 ==> {
                &&& r == Some(old(self)@.contents().last())
                &&& final(self)@.contents() == old(self)@.contents().drop_last()
            },
            final(self)@.cap() == if old(self)@.count() >= 2 && old(self)@.cap() > 16
                && old(self)@.count() - 1 < old(self)@.cap() / 3 {
                old(self)@.cap() / 2
            } else {
                old(self)@.cap()
            },
            final(self)@.kept() == old(self)@.kept().insert(final(self)@.cap()),
            final(self)@.peak() == old(self)@.peak(),
            final(self)@.top == if old(self)@.count() == 1 {
                old(self)@.top.wrapping_add(1)
            } else {
                old(self)@.top
            },
            final(self)@.bottom == if old(self)@.count() >= 2 {
                old(self)@.bottom.wrapping_sub(1)
            } else {
                old(self)@.bottom
            },
    {
        let ghost m0 = self@;
        assert(m0.rings[m0.current as int].len() == m0.cap());
        let s = self.owner_step(OwnerState::Popping);
        let ghost m1 = self@;
        proof {
            if m0.count() > 0 {
                lemma_retreated(m0);
            }
        }
        let s = self.owner_step(s);
        let mut s = self.owner_step(s);
        proof {
            index::lemma_double_half(m0.cap());
            index::lemma_base_capacities();
            if m0.count() >= 2 && sparse(m0.cap(), m0.count() - 1) {
                lemma_pow2_gap(16, m0.cap());
                lemma_provided(m1, halved(m0.cap()));
                lemma_resized(m1, halved(m0.cap()));
                lemma_resized_rings(m1, halved(m0.cap()), m0.top);
            }
            if m0.count() == 1 {
                lemma_advanced(m0);
            }
        }
        if let OwnerState::PopCopy { item, top, to, done } = s {
            s = self.copy_all(s, Ghost(m1), Ghost(halved(m0.cap())), Ghost(m0.top));
        }
        let r = match s {
            OwnerState::PopRace { top, item } => {
                let s = self.owner_step(s);
                let s = self.owner_step(s);
                match s {
                    OwnerState::Popped(r) => r,
                    _ => None,
                }
            },
            OwnerState::Popped(r) => r,
            _ => None,
        };
        proof {
            lemma_kept(m0, self@);
            rings_are_few(m0);
        }
        r
    }

    /// Remove the item at the top.
    pub fn steal(&mut self) -> (r: Steal<P>)
        requires
            old(self)@.quiescent(),
        ensures
            final(self)@.quiescent(),
            final(self)@.floor == old(self)@.floor,
            final(self)@.rings == old(self)@.rings,
            final(self)@.current == old(self)@.current,
            final(self)@.bottom == old(self)@.bottom,
            old(self)@.count() == 0 ==> r is Empty && final(self)@ == old(self)@,
            old(self)@.count() > 0 ==> {
                &&& r == Steal::Success(old(self)@.contents()[0])
                &&& final(self)@.contents() == old(self)@.contents().drop_first()
                &&& final(self)@.top == old(self)@.top.wrapping_add(1)
            },
    {
        let ghost m0 = self@;
        assert(m0.rings[m0.current as int].len() == m0.cap());
        proof {
            if m0.count() > 0 {
                lemma_advanced(m0);
            }
        }
        let s = self.thief_step(ThiefState::Stealing);
        let s = self.thief_step(s);
        match s {
            ThiefState::SeenWork { top } => {
                let s = self.thief_step(s);
                let s = self.thief_step(s);
                let s = self.thief_step(s);
                match s {
                    ThiefState::Stole(r) => r,
                    _ => Steal::Empty,
                }
            },
            _ => Steal::Empty,
        }
    }
}

} // verus!
