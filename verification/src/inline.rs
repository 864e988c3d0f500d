//! A Chase-Lev deque for `Copy` values, stored in the cells themselves.
//!
//! A `Copy` value has no ownership to track: a thief and the owner that race for a cell both read
//! a copy, and the advance of `top` decides who keeps it. The owner remembers a lower bound of
//! `top` and loads the shared index only when the buffer may be full. Indices may wrap around.

use vstd::prelude::*;

use crate::chase_lev;
use crate::chase_lev::{Deque, MIN_CAPACITY};
use crate::index;
use crate::steal::Steal;

verus! {

/// The single owner of an inline work-stealing deque. Pushes and pops at the bottom.
pub struct InlineWorker<T: Copy> {
    deque: Deque<T>,
    cached_top: isize,
    id: Ghost<int>,
}

impl<T: Copy> View for InlineWorker<T> {
    type V = Seq<T>;

    /// The values from top (oldest) to bottom (newest).
    closed spec fn view(&self) -> Seq<T> {
        self.deque@.contents()
    }
}

impl<T: Copy> InlineWorker<T> {
    /// Between operations the remembered top is at or behind the real one.
    pub closed spec fn wf(&self) -> bool {
        let m = self.deque@;
        &&& m.quiescent()
        &&& m.floor == MIN_CAPACITY
        &&& 0 <= m.top.wrapping_sub(self.cached_top)
        &&& m.bottom.wrapping_sub(self.cached_top) == m.top.wrapping_sub(self.cached_top)
            + m.count()
    }

    /// The identity of the deque, which its thief handles carry. A deque keeps it for good; of the
    /// identities of two deques nothing is known.
    pub closed spec fn id(&self) -> int {
        self.id@
    }

    /// Number of cells of the active buffer.
    pub closed spec fn cap(&self) -> int {
        self.deque@.cap()
    }

    /// Number of retired buffers that are kept.
    pub closed spec fn retired(&self) -> int {
        self.deque@.rings.len() - 1
    }

    /// The largest capacity that the deque has had.
    pub closed spec fn peak(&self) -> int {
        self.deque@.peak()
    }

    /// Create an empty inline deque (default capacity 32).
    pub fn new() -> (w: Self)
        ensures
            w.wf(),
            w@ == Seq::<T>::empty(),
            w.cap() == 32,
            w.retired() == 0,
            w.peak() == w.cap(),
    {
        proof {
            vstd::arithmetic::power2::lemma2_to64();
        }
        Self::with_log_capacity(5)
    }

    /// Create an empty inline deque with `2^log_cap` initial slots.
    pub fn with_log_capacity(log_cap: u32) -> (w: Self)
        requires
            log_cap < usize::BITS - 1,
        ensures
            w.wf(),
            w@ == Seq::<T>::empty(),
            w.cap() == vstd::arithmetic::power2::pow2(log_cap as nat),
            w.retired() == 0,
            w.peak() == w.cap(),
    {
        let cap = index::capacity_from_log(log_cap);
        proof {
            index::lemma_base_capacities();
        }
        InlineWorker {
            deque: Deque::new(cap, MIN_CAPACITY),
            cached_top: 0,
            id: Ghost(arbitrary()),
        }
    }

    /// A thief handle for this deque, and for no other.
    pub fn stealer(&self) -> (s: InlineStealer<T>)
        ensures
            s.of() == self.id(),
    {
        InlineStealer { of: Ghost(self.id@), marker: core::marker::PhantomData }
    }

    /// Number of values.
    pub fn len(&self) -> (r: usize)
        requires
            self.wf(),
        ensures
            r == self@.len(),
    {
        self.deque.len()
    }

    /// Whether the deque is empty.
    pub fn is_empty(&self) -> (r: bool)
        requires
            self.wf(),
        ensures
            r == (self@.len() == 0),
    {
        self.len() == 0
    }

    /// Current backing-buffer capacity.
    pub fn capacity(&self) -> (r: usize)
        requires
            self.wf(),
        ensures
            r == self.cap(),
    {
        self.deque.capacity()
    }

    /// Push a value onto the bottom. A full buffer, which has one slot left, is replaced by one
    /// of twice its capacity, but at least of the minimum capacity.
    pub fn push(&mut self, value: T)
        requires
            old(self).wf(),
            2 * (old(self)@.len() + 1) <= isize::MAX,
        ensures
            final(self).wf(),
            final(self).id() == old(self).id(),
            final(self)@ == old(self)@.push(value),
            final(self).cap() == if old(self)@.len() >= old(self).cap() - 1 {
                if 2 * old(self).cap() < 16 {
                    16
                } else {
                    2 * old(self).cap()
                }
            } else {
                old(self).cap()
            },
            final(self).peak() == if final(self).cap() > old(self).peak() {
                final(self).cap()
            } else {
                old(self).peak()
            },
    {
        assert(self.deque@.rings[self.deque@.current as int].len() == self.deque@.cap());
        let bottom = self.deque.bottom();
        let cap = self.deque.capacity();
        let mut top = self.cached_top;
        if chase_lev::is_full(bottom, top, cap) {
            top = self.deque.top();
            self.cached_top = top;
        }
        self.deque.push_from(value, top);
    }

    /// Pop a value from the bottom. Returns `None` if empty. A pop that leaves the buffer far
    /// below its capacity moves what is left into a buffer of half the capacity.
    pub fn pop(&mut self) -> (r: Option<T>)
        requires
            old(self).wf(),
        ensures
            final(self).wf(),
            final(self).id() == old(self).id(),
            old(self)@.len() == 0 ==> r is None && final(self)@ == old(self)@,
            old(self)@.len() > 0 ==> r == Some(old(self)@.last()) && final(self)@ == old(self)@.drop_last(),
            final(self).cap() == if old(self)@.len() >= 2 && old(self).cap() > 16
                && old(self)@.len() - 1 < old(self).cap() / 3 {
                old(self).cap() / 2
            } else {
                old(self).cap()
            },
            final(self).peak() == old(self).peak(),
    {
        self.deque.pop()
    }
}

impl<T: Copy> Default for InlineWorker<T> {
    fn default() -> (w: Self)
        ensures
            w.wf(),
            w@ == Seq::<T>::empty(),
            w.cap() == 32,
            w.retired() == 0,
            w.peak() == w.cap(),
    {
        Self::new()
    }
}

/// A thief for an inline deque.
pub struct InlineStealer<T: Copy> {
    of: Ghost<int>,
    marker: core::marker::PhantomData<T>,
}

impl<T: Copy> Clone for InlineStealer<T> {
    fn clone(&self) -> (s: Self)
        ensures
            s == *self,
    {
        InlineStealer { of: Ghost(self.of@), marker: core::marker::PhantomData }
    }
}

impl<T: Copy> InlineStealer<T> {
    /// The identity of the deque that this handle steals from.
    pub closed spec fn of(&self) -> int {
        self.of@
    }

    /// Steal a value from the top of the deque.
    pub fn steal(&self, victim: &mut InlineWorker<T>) -> (r: Steal<T>)
        requires
            old(victim).wf(),
            self.of() == old(victim).id(),
        ensures
            final(victim).wf(),
            final(victim).id() == old(victim).id(),
            final(victim).cap() == old(victim).cap(),
            final(victim).peak() == old(victim).peak(),
            final(victim).retired() == old(victim).retired(),
            old(victim)@.len() == 0 ==> r is Empty && final(victim)@ == old(victim)@,
            old(victim)@.len() > 0 ==> r == Steal::Success(old(victim)@[0]) && final(victim)@
                == old(victim)@.drop_first(),
    {
        victim.deque.steal()
    }
}

/// Retired memory is logarithmic: a deque keeps no more retired buffers than the logarithm of the
/// largest capacity it has had.
pub proof fn retired_is_logarithmic<T: Copy>(w: InlineWorker<T>)
    requires
        w.wf(),
    ensures
        vstd::arithmetic::power2::pow2(w.retired() as nat) <= w.peak(),
        w.cap() <= w.peak(),
{
    chase_lev::rings_are_few(w.deque@);
}

/// The capacity is a power of two, and one slot at least is free.
pub proof fn capacity_exceeds_length<T: Copy>(w: InlineWorker<T>)
    requires
        w.wf(),
    ensures
        vstd::arithmetic::power2::is_pow2(w.cap()),
        w@.len() < w.cap() <= isize::MAX,
{
    assert(index::is_capacity(w.deque@.rings[w.deque@.current as int].len() as int));
}

} // verus!
