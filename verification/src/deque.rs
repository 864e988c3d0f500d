//! The exact-once Chase-Lev work-stealing deque for arbitrary values.
//!
//! A deque has a single owner, the [`Worker`], that pushes and pops at the bottom, and any number
//! of thieves, each a [`Stealer`], that steal from the top. Every value is boxed; the cells of the
//! cyclic buffer hold handles of boxes.

use vstd::prelude::*;

use crate::boxes::Boxes;
use crate::chase_lev;
use crate::chase_lev::Deque;
use crate::index;
use crate::steal::Steal;

verus! {

/// The single owner of a work-stealing deque. Pushes and pops at the bottom; a FIFO owner pops
/// at the top instead.
pub struct Worker<T> {
    deque: Deque<usize>,
    boxes: Boxes<T>,
    fifo: bool,
    id: Ghost<int>,
}

/// Number of items a batch steal takes from a deque of `available` items: half, rounded up.
pub open spec fn batch(available: int) -> int {
    (available + 1) / 2
}

/// Where a thief stands in a batch steal that returns one value and moves the others.
pub enum Batch<T> {
    /// About to make its first steal; the batch takes `want` values.
    First { want: usize },
    /// Has the value for the caller; about to steal one of at most `left` more.
    More { first: T, left: usize },
    /// The batch is complete.
    Done(Steal<T>),
}

/// A batch steal from a deque that was seen with `available` values.
pub open spec fn batch_start<T>(available: int) -> Batch<T> {
    if available == 0 {
        Batch::Done(Steal::Empty)
    } else {
        Batch::First { want: batch(available) as usize }
    }
}

/// A batch steal after one more steal with outcome `got`, and the value that moves to the thief's
/// own deque. A first steal that fails decides the batch; a later one that fails ends it early.
pub open spec fn batch_next<T>(s: Batch<T>, got: Steal<T>) -> (Batch<T>, Option<T>) {
    match s {
        Batch::First { want } => match got {
            Steal::Success(value) => if want <= 1 {
                (Batch::Done(got), None)
            } else {
                (Batch::More { first: value, left: (want - 1) as usize }, None)
            },
            _ => (Batch::Done(got), None),
        },
        Batch::More { first, left } => match got {
            Steal::Success(value) => if left <= 1 {
                (Batch::Done(Steal::Success(first)), Some(value))
            } else {
                (Batch::More { first, left: (left - 1) as usize }, Some(value))
            },
            _ => (Batch::Done(Steal::Success(first)), None),
        },
        Batch::Done(r) => (s, None),
    }
}

impl<T> Batch<T> {
    /// Start a batch steal from a deque that was seen with `available` values.
    pub fn start(available: usize) -> (r: Self)
        ensures
            r == batch_start::<T>(available as int),
            match r {
                Batch::First { want } => available > 0 && available <= 2 * want <= available + 1,
                Batch::Done(Steal::Empty) => available == 0,
                _ => false,
            },
    {
        if available == 0 {
            Batch::Done(Steal::Empty)
        } else {
            Batch::First { want: available / 2 + available % 2 }
        }
    }

    /// Go on after one more steal with outcome `got`, and return the value that moves to the
    /// thief's own deque.
    pub fn next(self, got: Steal<T>) -> (r: (Self, Option<T>))
        requires
            !(self is Done),
        ensures
            r == batch_next(self, got),
    {
        match self {
            Batch::First { want } => match got {
                Steal::Success(value) => if want <= 1 {
                    (Batch::Done(Steal::Success(value)), None)
                } else {
                    (Batch::More { first: value, left: want - 1 }, None)
                },
                Steal::Empty => (Batch::Done(Steal::Empty), None),
                Steal::Retry => (Batch::Done(Steal::Retry), None),
            },
            Batch::More { first, left } => match got {
                Steal::Success(value) => if left <= 1 {
                    (Batch::Done(Steal::Success(first)), Some(value))
                } else {
                    (Batch::More { first, left: left - 1 }, Some(value))
                },
                _ => (Batch::Done(Steal::Success(first)), None),
            },
            Batch::Done(r) => (Batch::Done(r), None),
        }
    }

    /// The value that the caller has or gets.
    pub open spec fn kept(self) -> Seq<T> {
        match self {
            Batch::More { first, left } => seq![first],
            Batch::Done(Steal::Success(first)) => seq![first],
            _ => Seq::empty(),
        }
    }
}

/// The values that steals with outcomes `gots` have taken.
pub open spec fn stolen<T>(gots: Seq<Steal<T>>) -> Seq<T>
    decreases gots.len(),
{
    if gots.len() == 0 {
        Seq::empty()
    } else {
        match gots.last() {
            Steal::Success(value) => stolen(gots.drop_last()).push(value),
            _ => stolen(gots.drop_last()),
        }
    }
}

/// A batch steal after steals with outcomes `gots`, and the values that have moved. It steals no
/// more once it is complete.
pub open spec fn batch_after<T>(available: int, gots: Seq<Steal<T>>) -> (Batch<T>, Seq<T>)
    decreases gots.len(),
{
    if gots.len() == 0 {
        (batch_start(available), Seq::empty())
    } else {
        let (s, moved) = batch_after(available, gots.drop_last());
        let (n, more) = batch_next(s, gots.last());
        (
            n,
            match more {
                Some(value) => moved.push(value),
                None => moved,
            },
        )
    }
}

/// A batch is half of the values, rounded up: what it leaves is half, rounded down.
pub proof fn a_batch_is_half(available: int)
    requires
        available >= 0,
    ensures
        available <= 2 * batch(available) <= available + 1,
        available - batch(available) == available / 2,
{
}

/// Whether a batch steal makes all these steals.
pub open spec fn batch_steals<T>(available: int, gots: Seq<Steal<T>>) -> bool
    decreases gots.len(),
{
    gots.len() > 0 ==> {
        &&& batch_steals(available, gots.drop_last())
        &&& !(batch_after(available, gots.drop_last()).0 is Done)
    }
}

/// Whatever its steals come to while others interfere, a batch loses nothing and takes nothing
/// twice: the first value that it steals is the caller's, the others have moved, in the order in
/// which they were stolen, and it steals at most half of what it saw, rounded up. It is complete
/// when it has that many, or when a steal has failed.
pub proof fn a_batch_keeps_what_it_steals<T>(available: usize, gots: Seq<Steal<T>>)
    requires
        batch_steals(available as int, gots),
    ensures
        ({
            let (s, moved) = batch_after(available as int, gots);
            &&& stolen(gots) == s.kept() + moved
            &&& 2 * stolen(gots).len() <= available + 1
            &&& (s is Done <==> 2 * stolen(gots).len() >= available || (gots.len() > 0
                && !(gots.last() is Success)))
            &&& match s {
                Batch::First { want } => gots.len() == 0 && available <= 2 * want <= available
                    + 1,
                Batch::More { first, left } => available <= 2 * (left + stolen(gots).len())
                    <= available + 1 && stolen(gots).len() > 0 && first == stolen(gots)[0],
                Batch::Done(r) => {
                    ||| stolen(gots).len() > 0 && r == Steal::Success(stolen(gots)[0])
                    ||| available == 0 && r is Empty
                    ||| stolen(gots).len() == 0 && gots.len() > 0 && r == gots.last()
                },
            }
        }),
    decreases gots.len(),
{
    if gots.len() > 0 {
        a_batch_keeps_what_it_steals(available, gots.drop_last());
        let (s, moved) = batch_after(available as int, gots.drop_last());
        let (n, after) = batch_after(available as int, gots);
        assert(stolen(gots) =~= n.kept() + after);
    } else {
        assert(stolen(gots) =~= batch_start::<T>(available as int).kept() + Seq::<T>::empty());
    }
}

impl<T> View for Worker<T> {
    type V = Seq<T>;

    /// The values from top (oldest) to bottom (newest).
    closed spec fn view(&self) -> Seq<T> {
        let handles = self.deque@.contents();
        Seq::new(handles.len(), |i: int| self.boxes@[handles[i]])
    }
}

impl<T> Worker<T> {
    /// Between operations every handle in the deque is the handle of a box of its own, and there
    /// are no other boxes.
    pub closed spec fn wf(&self) -> bool {
        &&& self.deque@.quiescent()
        &&& self.deque@.floor == 1
        &&& self.boxes.wf()
        &&& self.deque@.contents().no_duplicates()
        &&& self.boxes@.dom() == self.deque@.contents().to_set()
    }

    /// Number of cells of the active buffer.
    pub closed spec fn cap(&self) -> int {
        self.deque@.cap()
    }

    /// Number of retired buffers that are kept.
    pub closed spec fn retired(&self) -> int {
        self.deque@.rings.len() - 1
    }

    /// The capacities of the buffers that are kept, active and retired.
    pub closed spec fn kept(&self) -> Set<int> {
        self.deque@.kept()
    }

    /// The largest capacity that the deque has had.
    pub closed spec fn peak(&self) -> int {
        self.deque@.peak()
    }

    /// Number of boxes that have not been released.
    pub closed spec fn boxed(&self) -> nat {
        self.boxes@.dom().len()
    }

    /// The identity of the deque, which its thief handles carry. A deque keeps it for good; of the
    /// identities of two deques nothing is known.
    pub closed spec fn id(&self) -> int {
        self.id@
    }

    /// Whether the owner pops the oldest value instead of the newest.
    pub closed spec fn is_fifo(&self) -> bool {
        self.fifo
    }

    /// Create a new deque owner with a default initial capacity (32 slots).
    pub fn new() -> (w: Self)
        ensures
            w.wf(),
            w@ == Seq::<T>::empty(),
            w.cap() == 32,
            w.retired() == 0,
            w.kept() == set![w.cap()],
            w.peak() == w.cap(),
            !w.is_fifo(),
    {
        proof {
            vstd::arithmetic::power2::lemma2_to64();
        }
        Self::with_log_capacity(5)
    }

    /// Create a new deque owner that pops the oldest value first.
    pub fn new_fifo() -> (w: Self)
        ensures
            w.wf(),
            w@ == Seq::<T>::empty(),
            w.cap() == 32,
            w.retired() == 0,
            w.kept() == set![w.cap()],
            w.peak() == w.cap(),
            w.is_fifo(),
    {
        let mut w = Self::new();
        w.fifo = true;
        assert(w@ =~= Seq::<T>::empty());
        w
    }

    /// Create a new deque owner with `2^log_initial_cap` initial slots.
    pub fn with_log_capacity(log_initial_cap: u32) -> (w: Self)
        requires
            log_initial_cap < usize::BITS - 1,
        ensures
            w.wf(),
            w@ == Seq::<T>::empty(),
            w.cap() == vstd::arithmetic::power2::pow2(log_initial_cap as nat),
            w.retired() == 0,
            w.kept() == set![w.cap()],
            w.peak() == w.cap(),
            !w.is_fifo(),
    {
        let cap = index::capacity_from_log(log_initial_cap);
        proof {
            index::lemma_base_capacities();
        }
        let w = Worker {
            deque: Deque::new(cap, 1),
            boxes: Boxes::new(),
            fifo: false,
            id: Ghost(arbitrary()),
        };
        assert(w@ =~= Seq::<T>::empty());
        assert(w.boxes@.dom() =~= w.deque@.contents().to_set());
        w
    }

    /// Create a handle that can steal from the top of this deque, and of no other.
    pub fn stealer(&self) -> (s: Stealer<T>)
        ensures
            s.of() == self.id(),
    {
        Stealer { of: Ghost(self.id@), marker: core::marker::PhantomData }
    }

    /// Number of values in the deque.
    pub fn len(&self) -> (r: usize)
        requires
            self.wf(),
        ensures
            r == self@.len(),
    {
        self.deque.len()
    }

    /// Whether the deque is empty.
    pub fn is_empty(&self) -> (r: bool)
        requires
            self.wf(),
        ensures
            r == (self@.len() == 0),
    {
        self.len() == 0
    }

    /// Current backing-buffer capacity (number of slots).
    pub fn capacity(&self) -> (r: usize)
        requires
            self.wf(),
        ensures
            r == self.cap(),
    {
        self.deque.capacity()
    }

    /// Push a value onto the bottom of the deque. A full buffer, which has one slot left, is
    /// replaced by one of twice its capacity and retired. A buffer is kept for each capacity that the
    /// deque has had, and is used again when the deque returns to that capacity.
    pub fn push(&mut self, value: T)
        requires
            old(self).wf(),
            2 * (old(self)@.len() + 1) <= isize::MAX,
        ensures
            final(self).wf(),
            final(self)@ == old(self)@.push(value),
            final(self).is_fifo() == old(self).is_fifo(),
            final(self).id() == old(self).id(),
            final(self).cap() == if old(self)@.len() >= old(self).cap() - 1 {
                2 * old(self).cap()
            } else {
                old(self).cap()
            },
            final(self).kept() == old(self).kept().insert(final(self).cap()),
            final(self).peak() == if final(self).cap() > old(self).peak() {
                final(self).cap()
            } else {
                old(self).peak()
            },
            final(self).peak() > old(self).peak() ==> final(self).peak() <= 2 * final(self)@.len(),
    {
        let ghost handles0 = self.deque@.contents();
        let ghost boxes0 = self.boxes@;
        proof {
            chase_lev::rings_are_few(self.deque@);
        }
        let handle = self.boxes.store(value);
        self.deque.push(handle);
        proof {
            let handles = self.deque@.contents();
            assert(handles == handles0.push(handle));
            assert(!handles0.contains(handle)) by {
                assert(!handles0.to_set().contains(handle));
            }
            assert(handles.to_set() =~= handles0.to_set().insert(handle)) by {
                assert forall|h: usize| handles.to_set().contains(h) implies
                    handles0.to_set().insert(handle).contains(h) by {
                    let i = handles.index_of(h);
                    assert(handles[i] == h);
                    if i < handles0.len() {
                        assert(handles0[i] == h);
                    }
                }
                assert forall|h: usize| handles0.to_set().insert(handle).contains(h) implies
                    handles.to_set().contains(h) by {
                    if h == handle {
                        assert(handles[handles0.len() as int] == h);
                    } else {
                        let i = handles0.index_of(h);
                        assert(handles[i] == h);
                    }
                }
            }
            assert forall|i: int| 0 <= i < handles0.len() implies self.boxes@[handles0[i]]
                == boxes0[handles0[i]] by {
                assert(handles0.contains(handles0[i]));
            }
            assert(self@ =~= old(self)@.push(value));
        }
    }

    /// Release the box of a handle that has just left the deque.
    fn unbox(&mut self, handle: usize, Ghost(before): Ghost<Seq<usize>>) -> (value: T)
        requires
            old(self).deque@.quiescent(),
            old(self).deque@.floor == 1,
            old(self).boxes.wf(),
            before.no_duplicates(),
            old(self).boxes@.dom() == before.to_set(),
            before.len() > 0,
            ({
                ||| handle == before.last() && old(self).deque@.contents() == before.drop_last()
                ||| handle == before[0] && old(self).deque@.contents() == before.drop_first()
            }),
        ensures
            final(self).wf(),
            final(self).deque == old(self).deque,
            final(self).fifo == old(self).fifo,
            final(self).id() == old(self).id(),
            value == old(self).boxes@[handle],
            forall|i: int|
                0 <= i < final(self).deque@.contents().len() ==> final(self).boxes@[#[trigger] final(self).deque@.contents()[i]] == old(self).boxes@[old(self).deque@.contents()[i]],
    {
        let ghost after = self.deque@.contents();
        assert(before.contains(handle));
        let value = self.boxes.release(handle);
        proof {
            assert(after.no_duplicates() && !after.contains(handle));
            assert(after.to_set() =~= before.to_set().remove(handle)) by {
                assert forall|h: usize| before.to_set().remove(handle).contains(h) implies
                    after.to_set().contains(h) by {
                    let i = before.index_of(h);
                    assert(before[i] == h);
                    if handle == before.last() && after == before.drop_last() {
                        assert(after[i] == h);
                    } else {
                        assert(after[i - 1] == h);
                    }
                }
                assert forall|h: usize| after.to_set().contains(h) implies
                    before.to_set().remove(handle).contains(h) by {
                    let i = after.index_of(h);
                    assert(after[i] == h);
                    if handle == before.last() && after == before.drop_last() {
                        assert(before[i] == h);
                    } else {
                        assert(before[i + 1] == h);
                    }
                }
            }
            assert forall|i: int| 0 <= i < after.len() implies self.boxes@[#[trigger] after[i]]
                == old(self).boxes@[after[i]] by {
                assert(after.contains(after[i]));
            }
        }
        value
    }

    /// Take the oldest value from the top.
    fn take_top(&mut self) -> (r: Steal<T>)
        requires
            old(self).wf(),
        ensures
            final(self).wf(),
            final(self).is_fifo() == old(self).is_fifo(),
            final(self).id() == old(self).id(),
            final(self).cap() == old(self).cap(),
            final(self).retired() == old(self).retired(),
            final(self).kept() == old(self).kept(),
            final(self).peak() == old(self).peak(),
            old(self)@.len() == 0 ==> r is Empty && final(self)@ == old(self)@,
            old(self)@.len() > 0 ==> r == Steal::Success(old(self)@[0]) && final(self)@ == old(self)@.drop_first(),
    {
        let ghost before = self.deque@.contents();
        match self.deque.steal() {
            Steal::Success(handle) => {
                let value = self.unbox(handle, Ghost(before));
                assert(self@ =~= old(self)@.drop_first());
                Steal::Success(value)
            },
            Steal::Empty => {
                assert(self@ =~= old(self)@);
                Steal::Empty
            },
            Steal::Retry => {
                assert(false);
                Steal::Retry
            },
        }
    }

    /// Pop a value from the bottom of the deque, or from its top if the owner is FIFO. Returns
    /// `None` if empty. A pop from the bottom that leaves the buffer far below its capacity moves
    /// what is left into a buffer of half the capacity.
    pub fn pop(&mut self) -> (r: Option<T>)
        requires
            old(self).wf(),
        ensures
            final(self).wf(),
            final(self).is_fifo() == old(self).is_fifo(),
            final(self).id() == old(self).id(),
            old(self)@.len() == 0 ==> r is None && final(self)@ == old(self)@,
            old(self)@.len() > 0 && !old(self).is_fifo() ==> r == Some(old(self)@.last()) && final(self)@ == old(self)@.drop_last(),
            old(self)@.len() > 0 && old(self).is_fifo() ==> r == Some(old(self)@[0]) && final(self)@ == old(self)@.drop_first(),
            final(self).cap() == if !old(self).is_fifo() && old(self)@.len() >= 2
                && old(self).cap() > 16 && old(self)@.len() - 1 < old(self).cap() / 3 {
                old(self).cap() / 2
            } else {
                old(self).cap()
            },
            final(self).kept() == old(self).kept().insert(final(self).cap()),
            final(self).peak() == old(self).peak(),
    {
        proof {
            chase_lev::rings_are_few(self.deque@);
        }
        if self.fifo {
            return self.take_top().success();
        }
        let ghost before = self.deque@.contents();
        let popped = self.deque.pop();
        match popped {
            Some(handle) => {
                let value = self.unbox(handle, Ghost(before));
                assert(self@ =~= old(self)@.drop_last());
                Some(value)
            },
            None => {
                assert(self@ =~= old(self)@);
                None
            },
        }
    }

    /// Take apart a deque that nobody uses any more: release the box of every value that is left,
    /// each once, from top to bottom.
    pub fn into_remaining(self) -> (out: Vec<T>)
        requires
            self.wf(),
        ensures
            out@ == self@,
    {
        let mut w = self;
        let mut out: Vec<T> = Vec::new();
        let n = w.len();
        let mut i: usize = 0;
        while i < n
            invariant
                w.wf(),
                i <= n,
                n == self@.len(),
                w@.len() == n - i,
                out@ + w@ == self@,
            decreases n - i,
        {
            let ghost left = w@;
            let ghost done = out@;
            match w.take_top() {
                Steal::Success(value) => {
                    out.push(value);
                    assert(out@ + w@ =~= done + left);
                },
                _ => {},
            }
            i += 1;
        }
        assert(out@ + w@ =~= out@);
        out
    }
}

impl<T> Default for Worker<T> {
    fn default() -> (w: Self)
        ensures
            w.wf(),
            w@ == Seq::<T>::empty(),
            w.cap() == 32,
            w.retired() == 0,
            w.kept() == set![w.cap()],
            w.peak() == w.cap(),
            !w.is_fifo(),
    {
        Self::new()
    }
}

/// A thief handle that steals from the top of a work-stealing deque. Each clone can steal on its
/// own.
pub struct Stealer<T> {
    of: Ghost<int>,
    marker: core::marker::PhantomData<T>,
}

impl<T> Clone for Stealer<T> {
    fn clone(&self) -> (s: Self)
        ensures
            s == *self,
    {
        Stealer { of: Ghost(self.of@), marker: core::marker::PhantomData }
    }
}

impl<T> Stealer<T> {
    /// The identity of the deque that this handle steals from.
    pub closed spec fn of(&self) -> int {
        self.of@
    }

    /// Attempt to steal a value from the top of the deque.
    pub fn steal(&self, victim: &mut Worker<T>) -> (r: Steal<T>)
        requires
            old(victim).wf(),
            self.of() == old(victim).id(),
        ensures
            final(victim).wf(),
            final(victim).is_fifo() == old(victim).is_fifo(),
            final(victim).id() == old(victim).id(),
            final(victim).cap() == old(victim).cap(),
            final(victim).retired() == old(victim).retired(),
            final(victim).kept() == old(victim).kept(),
            final(victim).peak() == old(victim).peak(),
            old(victim)@.len() == 0 ==> r is Empty && final(victim)@ == old(victim)@,
            old(victim)@.len() > 0 ==> r == Steal::Success(old(victim)@[0]) && final(victim)@
                == old(victim)@.drop_first(),
    {
        victim.take_top()
    }

    /// Whether the deque of `victim` is empty.
    pub fn is_empty(&self, victim: &Worker<T>) -> (r: bool)
        requires
            victim.wf(),
            self.of() == victim.id(),
        ensures
            r == (victim@.len() == 0),
    {
        victim.is_empty()
    }

    /// Move up to `limit` values from the top of `victim` onto the bottom of `dest`, oldest
    /// first.
    fn transfer(&self, victim: &mut Worker<T>, dest: &mut Worker<T>, limit: usize)
        requires
            old(victim).wf(),
            self.of() == old(victim).id(),
            old(dest).wf(),
            limit <= old(victim)@.len(),
            2 * (old(dest)@.len() + limit) <= isize::MAX,
        ensures
            final(victim).wf(),
            final(dest).wf(),
            final(victim).is_fifo() == old(victim).is_fifo(),
            final(victim).id() == old(victim).id(),
            final(dest).is_fifo() == old(dest).is_fifo(),
            final(dest).id() == old(dest).id(),
            final(victim).cap() == old(victim).cap(),
            final(victim)@ == old(victim)@.skip(limit as int),
            final(dest)@ == old(dest)@ + old(victim)@.take(limit as int),
    {
        let mut i: usize = 0;
        assert(victim@ =~= old(victim)@.skip(0));
        assert(dest@ =~= old(dest)@ + old(victim)@.take(0));
        while i < limit
            invariant
                victim.wf(),
                dest.wf(),
                i <= limit <= old(victim)@.len(),
                2 * (old(dest)@.len() + limit) <= isize::MAX,
                victim.is_fifo() == old(victim).is_fifo(),
                victim.id() == old(victim).id(),
                self.of() == victim.id(),
                dest.is_fifo() == old(dest).is_fifo(),
                dest.id() == old(dest).id(),
                victim.cap() == old(victim).cap(),
                victim@ == old(victim)@.skip(i as int),
                dest@ == old(dest)@ + old(victim)@.take(i as int),
            decreases limit - i,
        {
            match self.steal(victim) {
                Steal::Success(value) => {
                    dest.push(value);
                },
                _ => {},
            }
            proof {
                assert(victim@ =~= old(victim)@.skip(i + 1));
                assert(old(victim)@.take(i + 1) =~= old(victim)@.take(i as int).push(
                    old(victim)@[i as int],
                ));
                assert(dest@ =~= old(dest)@ + old(victim)@.take(i + 1));
            }
            i += 1;
        }
    }

    /// Steal about half of the victim's values (rounded up), moving them into `dest`.
    pub fn steal_batch(&self, victim: &mut Worker<T>, dest: &mut Worker<T>) -> (r: Steal<()>)
        requires
            old(victim).wf(),
            self.of() == old(victim).id(),
            old(dest).wf(),
            2 * (old(dest)@.len() + (old(victim)@.len() + 1) / 2) <= isize::MAX,
        ensures
            final(victim).wf(),
            final(dest).wf(),
            final(victim).is_fifo() == old(victim).is_fifo(),
            final(victim).id() == old(victim).id(),
            final(dest).is_fifo() == old(dest).is_fifo(),
            final(dest).id() == old(dest).id(),
            old(victim)@.len() == 0 ==> r is Empty && final(victim)@ == old(victim)@ && final(dest)@ == old(dest)@,
            old(victim)@.len() > 0 ==> {
                let want = batch(old(victim)@.len() as int);
                &&& r == Steal::Success(())
                &&& final(victim)@ == old(victim)@.skip(want)
                &&& final(dest)@ == old(dest)@ + old(victim)@.take(want)
            },
            final(victim)@.len() == old(victim)@.len() / 2,
            final(dest)@ + final(victim)@ == old(dest)@ + old(victim)@,
    {
        let available = victim.len();
        if available == 0 {
            return Steal::Empty;
        }
        let want = available / 2 + available % 2;
        self.transfer(victim, dest, want);
        assert(dest@ + victim@ =~= old(dest)@ + old(victim)@);
        Steal::Success(())
    }

    /// Steal about half of the victim's values (rounded up): return the oldest of them directly
    /// and move the others into `dest`, oldest first. Every value of the batch is claimed by a steal
    /// of its own; [`Batch`] says how the batch goes on after each of them.
    pub fn steal_batch_and_pop(&self, victim: &mut Worker<T>, dest: &mut Worker<T>) -> (r: Steal<
        T,
    >)
        requires
            old(victim).wf(),
            self.of() == old(victim).id(),
            old(dest).wf(),
            2 * (old(dest)@.len() + (old(victim)@.len() + 1) / 2) <= isize::MAX,
        ensures
            final(victim).wf(),
            final(dest).wf(),
            final(victim).is_fifo() == old(victim).is_fifo(),
            final(victim).id() == old(victim).id(),
            final(dest).is_fifo() == old(dest).is_fifo(),
            final(dest).id() == old(dest).id(),
            old(victim)@.len() == 0 ==> r is Empty && final(victim)@ == old(victim)@ && final(dest)@ == old(dest)@,
            old(victim)@.len() > 0 ==> {
                let want = batch(old(victim)@.len() as int);
                &&& r == Steal::Success(old(victim)@[0])
                &&& final(victim)@ == old(victim)@.skip(want)
                &&& final(dest)@ == old(dest)@ + old(victim)@.subrange(1, want)
            },
            final(victim)@.len() == old(victim)@.len() / 2,
            old(victim)@.len() > 0 ==> final(dest)@ + final(victim)@ == old(dest)@
                + old(victim)@.drop_first(),
    {
        let available = victim.len();
        let mut s = Batch::start(available);
        let ghost values = victim@;
        let ghost others = dest@;
        let ghost want = batch(values.len() as int);
        let ghost mut k: int = 0;
        assert(victim@ =~= values.skip(0));
        loop
            invariant
                victim.wf(),
                dest.wf(),
                victim.is_fifo() == old(victim).is_fifo(),
                victim.id() == old(victim).id(),
                self.of() == victim.id(),
                dest.is_fifo() == old(dest).is_fifo(),
                dest.id() == old(dest).id(),
                values == old(victim)@,
                others == old(dest)@,
                want == batch(values.len() as int),
                values.len() <= usize::MAX,
                2 * (others.len() + want) <= isize::MAX,
                0 <= k <= want,
                victim@ == values.skip(k),
                k == 0 ==> dest@ == others && s == batch_start::<T>(values.len() as int),
                k > 0 ==> dest@ == others + values.subrange(1, k),
                0 < k < want ==> s == (Batch::More { first: values[0], left: (want - k) as usize }),
                0 < k == want ==> s == Batch::Done(Steal::Success(values[0])),
            decreases want - k,
        {
            match s {
                Batch::Done(r) => {
                    proof {
                        if values.len() > 0 {
                            assert(dest@ + victim@ =~= others + values.drop_first());
                        }
                    }
                    return r;
                },
                open => {
                    let (next, moved) = open.next(self.steal(victim));
                    if let Some(value) = moved {
                        dest.push(value);
                    }
                    s = next;
                },
            }
            proof {
                assert(victim@ =~= values.skip(k + 1));
                if k > 0 {
                    assert(values.subrange(1, k + 1) =~= values.subrange(1, k).push(values[k]));
                    assert(dest@ =~= others + values.subrange(1, k + 1));
                } else {
                    assert(dest@ =~= others + values.subrange(1, 1));
                }
                k = k + 1;
            }
        }
    }
}

/// No value leaks and none is released twice: there are exactly as many boxes as values in the
/// deque.
pub proof fn one_box_per_value<T>(w: Worker<T>)
    requires
        w.wf(),
    ensures
        w.boxed() == w@.len(),
{
    w.deque@.contents().unique_seq_to_set();
}

/// Retired memory is logarithmic: a deque keeps one buffer per capacity, and no more retired ones
/// than the logarithm of the largest capacity it has had. A push raises that to twice the length
/// at most.
pub proof fn retired_is_logarithmic<T>(w: Worker<T>)
    requires
        w.wf(),
    ensures
        vstd::arithmetic::power2::pow2(w.retired() as nat) <= w.peak(),
        w.kept().finite(),
        w.kept().len() == w.retired() + 1,
        w.kept().contains(w.cap()),
        w.kept().contains(w.peak()),
        forall|cap: int| w.kept().contains(cap) ==> cap <= w.peak(),
{
    chase_lev::rings_are_few(w.deque@);
}

/// The capacity is a power of two, and one slot at least is free.
pub proof fn capacity_exceeds_length<T>(w: Worker<T>)
    requires
        w.wf(),
    ensures
        vstd::arithmetic::power2::is_pow2(w.cap()),
        w@.len() < w.cap() <= isize::MAX,
{
    assert(index::is_capacity(w.deque@.rings[w.deque@.current as int].len() as int));
}

} // verus!
