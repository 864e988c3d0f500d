//! An arena of boxed values.
//!
//! A cell of a shared buffer holds no value but the handle of a box that holds one. Storing a
//! value hands out a handle that no live box has; releasing a handle gives the value back and
//! ends the box. A handle that is not live cannot be released, so no value leaves twice.

use vstd::prelude::*;

verus! {

/// Boxed values by handle.
pub struct Boxes<T> {
    slots: Vec<Option<T>>,
    free: Vec<usize>,
}

impl<T> View for Boxes<T> {
    type V = Map<usize, T>;

    closed spec fn view(&self) -> Map<usize, T> {
        Map::new(
            |h: usize| h < self.slots@.len() && self.slots@[h as int] is Some,
            |h: usize| self.slots@[h as int].unwrap(),
        )
    }
}

impl<T> Boxes<T> {
    /// The free list holds the empty slots, each once.
    pub closed spec fn wf(&self) -> bool {
        &&& self.free@.no_duplicates()
        &&& forall|i: int|
            0 <= i < self.free@.len() ==> (#[trigger] self.free@[i]) < self.slots@.len()
                && self.slots@[self.free@[i] as int] is None
        &&& forall|h: usize|
            h < self.slots@.len() && (#[trigger] self.slots@[h as int]) is None
                ==> self.free@.contains(h)
    }

    /// No boxes.
    pub fn new() -> (b: Self)
        ensures
            b.wf(),
            b@ == Map::<usize, T>::empty(),
    {
        let b = Boxes { slots: Vec::new(), free: Vec::new() };
        assert(b@ =~= Map::<usize, T>::empty());
        b
    }

    /// Box a value.
    pub fn store(&mut self, value: T) -> (handle: usize)
        requires
            old(self).wf(),
        ensures
            final(self).wf(),
            !old(self)@.dom().contains(handle),
            final(self)@ == old(self)@.insert(handle, value),
    {
        let ghost free0 = self.free@;
        let ghost slots0 = self.slots@;
        match self.free.pop() {
            Some(handle) => {
                assert(free0.last() == handle);
                assert(free0[free0.len() - 1] < slots0.len());
                self.slots[handle] = Some(value);
                proof {
                    assert forall|i: int| 0 <= i < self.free@.len() implies (
                    #[trigger] self.free@[i]) < self.slots@.len()
                        && self.slots@[self.free@[i] as int] is None by {
                        assert(self.free@[i] == free0[i]);
                        assert(free0[i] != free0[free0.len() - 1]);
                    }
                    assert forall|h: usize|
                        h < self.slots@.len() && (
                        #[trigger] self.slots@[h as int]) is None implies self.free@.contains(
                        h,
                    ) by {
                        assert(slots0[h as int] is None);
                        let i = choose|i: int| 0 <= i < free0.len() && free0[i] == h;
                        assert(self.free@[i] == h);
                    }
                    assert(self@ =~= old(self)@.insert(handle, value));
                }
                handle
            },
            None => {
                let handle = self.slots.len();
                self.slots.push(Some(value));
                proof {
                    assert forall|h: usize|
                        h < self.slots@.len() && (
                        #[trigger] self.slots@[h as int]) is None implies self.free@.contains(
                        h,
                    ) by {
                        assert(slots0[h as int] is None);
                    }
                    assert(self@ =~= old(self)@.insert(handle, value));
                }
                handle
            },
        }
    }

    /// Unbox the value of a live handle.
    pub fn release(&mut self, handle: usize) -> (value: T)
        requires
            old(self).wf(),
            old(self)@.dom().contains(handle),
        ensures
            final(self).wf(),
            value == old(self)@[handle],
            final(self)@ == old(self)@.remove(handle),
    {
        let ghost free0 = self.free@;
        let ghost slots0 = self.slots@;
        let value = self.slots[handle].take().unwrap();
        self.free.push(handle);
        proof {
            assert(self.free@[free0.len() as int] == handle);
            assert(!free0.contains(handle));
            assert(self.free@.no_duplicates());
            assert forall|h: usize|
                h < self.slots@.len() && (
                #[trigger] self.slots@[h as int]) is None implies self.free@.contains(h) by {
                if h != handle {
                    assert(slots0[h as int] is None);
                    let i = choose|i: int| 0 <= i < free0.len() && free0[i] == h;
                    assert(self.free@[i] == h);
                }
            }
            assert(self@ =~= old(self)@.remove(handle));
        }
        value
    }
}

} // verus!
