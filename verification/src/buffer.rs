//! A power-of-two-sized cyclic buffer of cells.

use vstd::prelude::*;

use crate::index;

verus! {

/// The ring `base` with the `count` items which `ring` holds from logical index `top` on, at the
/// same logical indices. Every other cell of `base` is as it was.
pub open spec fn relocated<P>(
    ring: Seq<Option<P>>,
    base: Seq<Option<P>>,
    top: int,
    count: int,
) -> Seq<Option<P>> {
    Seq::new(
        base.len(),
        |j: int|
            {
                let k = (j - top) % (base.len() as int);
                if k < count {
                    ring[(top + k) % (ring.len() as int)]
                } else {
                    base[j]
                }
            },
    )
}

/// A cyclic buffer of cells; a cell is empty or holds one item. Logical indices wrap modulo the
/// capacity.
#[derive(Clone, Debug)]
pub struct Buffer<P> {
    cells: Vec<Option<P>>,
}

impl<P> View for Buffer<P> {
    type V = Seq<Option<P>>;

    closed spec fn view(&self) -> Seq<Option<P>> {
        self.cells@
    }
}

/// Nothing relocated leaves the ring as it was.
pub proof fn lemma_relocated_none<P>(ring: Seq<Option<P>>, base: Seq<Option<P>>, top: int)
    ensures
        relocated(ring, base, top, 0) == base,
{
    let none = relocated(ring, base, top, 0);
    assert forall|j: int| 0 <= j < base.len() implies #[trigger] none[j] == base[j] by {
        vstd::arithmetic::div_mod::lemma_mod_bound(j - top, base.len() as int);
    }
    assert(none =~= base);
}

/// One more item relocated changes the cell of its index.
pub proof fn lemma_relocated_step<P>(ring: Seq<Option<P>>, base: Seq<Option<P>>, top: int, k: int)
    requires
        0 <= k < base.len(),
        ring.len() > 0,
    ensures
        relocated(ring, base, top, k + 1) == relocated(ring, base, top, k).update(
            (top + k) % (base.len() as int),
            ring[(top + k) % (ring.len() as int)],
        ),
{
    let n = base.len() as int;
    let new_cap = base.len();
    let a = relocated(ring, base, top, k + 1);
    let b = relocated(ring, base, top, k).update(
        (top + k) % n,
        ring[(top + k) % (ring.len() as int)],
    );
    vstd::arithmetic::div_mod::lemma_mod_bound(top + k, n);
    assert forall|j: int| 0 <= j < n implies a[j] == b[j] by {
        let d = (j - top) % n;
        vstd::arithmetic::div_mod::lemma_mod_bound(j - top, n);
        // `d` is `k` exactly for the slot of index `top + k`.
        vstd::arithmetic::div_mod::lemma_small_mod(k as nat, new_cap);
        vstd::arithmetic::div_mod::lemma_small_mod(j as nat, new_cap);
        if j == (top + k) % n {
            vstd::arithmetic::div_mod::lemma_sub_mod_noop(top + k, top, n);
            vstd::arithmetic::div_mod::lemma_sub_mod_noop(j, top, n);
            vstd::arithmetic::div_mod::lemma_mod_twice(top + k, n);
            assert(d == k);
        }
        if d == k {
            vstd::arithmetic::div_mod::lemma_add_mod_noop(j - top, top, n);
            vstd::arithmetic::div_mod::lemma_add_mod_noop(k, top, n);
            assert(j == (top + k) % n);
        }
    }
    assert(a =~= b);
}

/// A relocated ring holds every relocated item at its old logical index.
pub proof fn lemma_relocated_cell<P>(
    ring: Seq<Option<P>>,
    base: Seq<Option<P>>,
    top: int,
    count: int,
    k: int,
)
    requires
        0 <= k < count <= base.len(),
        ring.len() > 0,
    ensures
        relocated(ring, base, top, count)[(top + k) % (base.len() as int)] == ring[(top + k) % (
        ring.len() as int)],
{
    let n = base.len() as int;
    let new_cap = base.len();
    let j = (top + k) % n;
    vstd::arithmetic::div_mod::lemma_mod_bound(top + k, n);
    vstd::arithmetic::div_mod::lemma_small_mod(k as nat, new_cap);
    vstd::arithmetic::div_mod::lemma_sub_mod_noop(top + k, top, n);
    vstd::arithmetic::div_mod::lemma_sub_mod_noop(j, top, n);
    vstd::arithmetic::div_mod::lemma_mod_twice(top + k, n);
    assert((j - top) % n == k);
}

impl<P: Copy> Buffer<P> {
    /// A buffer of `cap` empty cells.
    pub fn new(cap: usize) -> (buffer: Self)
        requires
            index::is_capacity(cap as int),
        ensures
            buffer@ == Seq::new(cap as nat, |j: int| None::<P>),
    {
        let mut cells: Vec<Option<P>> = Vec::with_capacity(cap);
        let mut i: usize = 0;
        while i < cap
            invariant
                i <= cap,
                cells@ == Seq::new(i as nat, |j: int| None::<P>),
            decreases cap - i,
        {
            cells.push(None);
            i += 1;
            assert(cells@ =~= Seq::new(i as nat, |j: int| None::<P>));
        }
        Buffer { cells }
    }

    /// Number of cells.
    pub fn capacity(&self) -> (cap: usize)
        ensures
            cap == self@.len(),
    {
        self.cells.len()
    }

    /// Load the cell at a logical index.
    pub fn read(&self, index: isize) -> (cell: Option<P>)
        requires
            index::is_capacity(self@.len() as int),
        ensures
            cell == self@[index as int % self@.len() as int],
    {
        let slot = index::slot_of(index, self.cells.len());
        self.cells[slot]
    }

    /// Store a cell at a logical index.
    pub fn write(&mut self, index: isize, cell: Option<P>)
        requires
            index::is_capacity(old(self)@.len() as int),
        ensures
            final(self)@ == old(self)@.update(index as int % old(self)@.len() as int, cell),
    {
        let slot = index::slot_of(index, self.cells.len());
        self.cells[slot] = cell;
    }
}

} // verus!
