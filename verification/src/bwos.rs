//! Block-based work stealing: a bounded LIFO queue cut into blocks of fixed size.
//!
//! The owner puts and pops in its current block; thieves scan the blocks in use from the oldest
//! one on and take from the first that has work. Owner and thieves meet only when they work in
//! the same block. The queue holds as many values as all its blocks have slots; `put` returns
//! `false` when the last block is full.
//!
//! A block keeps its top: slots that thieves have taken from are not used again. When the owner has
//! gone back and comes forward again, a put goes on at the bottom of the block, never behind its top.

use vstd::prelude::*;

use crate::blocks;
use crate::blocks::{BlockMem, Blocks};
use crate::steal::Steal;

pub mod unbounded;

verus! {

/// Default entries per block.
pub const BLOCK_SIZE: usize = 256;

/// The single owner of a bounded queue of blocks. Puts and pops at the back (LIFO) within its
/// current block.
pub struct BwosWorker<T: Copy> {
    blocks: Blocks<T>,
    id: Ghost<int>,
}

impl<T: Copy> View for BwosWorker<T> {
    type V = Seq<T>;

    /// The values from front (oldest) to back (newest).
    closed spec fn view(&self) -> Seq<T> {
        self.blocks@.contents()
    }
}

impl<T: Copy> BwosWorker<T> {
    /// The blocks.
    pub closed spec fn mem(&self) -> BlockMem<T> {
        self.blocks@
    }

    /// The identity of the queue, which its thief handles carry. A queue keeps it for good; of the
    /// identities of two queues nothing is known.
    pub closed spec fn id(&self) -> int {
        self.id@
    }

    /// The state between operations.
    pub open spec fn wf(&self) -> bool {
        &&& self.mem().quiescent()
        &&& self@ == self.mem().contents()
        &&& !self.mem().growable
        &&& self.mem().blocks.len() >= 2
        &&& self.mem().blocks.len() * self.mem().size <= usize::MAX
    }

    /// Create a queue with the default block count (16) and size (256), for 4096 values.
    pub fn new() -> (w: Self)
        ensures
            w.wf(),
            w.mem() == blocks::initial_bounded::<T>(16, BLOCK_SIZE),
            w@ == Seq::<T>::empty(),
            w.mem().blocks.len() == 16 && w.mem().size == 256,
    {
        Self::with_blocks(16, BLOCK_SIZE)
    }

    /// Create a queue of `num_blocks` blocks of `block_size` entries.
    pub fn with_blocks(num_blocks: usize, block_size: usize) -> (w: Self)
        requires
            num_blocks >= 2,
            block_size >= 1,
            num_blocks * block_size <= usize::MAX,
        ensures
            w.wf(),
            w.mem() == blocks::initial_bounded::<T>(num_blocks as int, block_size),
            w@ == Seq::<T>::empty(),
            w.mem().blocks.len() == num_blocks && w.mem().size == block_size,
            w.mem().owner == 0,
            forall|i: int|
                0 <= i < num_blocks ==> (#[trigger] w.mem().blocks[i]).committed == 0
                    && w.mem().blocks[i].stolen == 0,
    {
        BwosWorker { blocks: Blocks::bounded(num_blocks, block_size), id: Ghost(arbitrary()) }
    }

    /// A thief handle for this queue, and for no other.
    pub fn stealer(&self) -> (s: BwosStealer<T>)
        ensures
            s.of() == self.id(),
    {
        BwosStealer { of: Ghost(self.id@), marker: core::marker::PhantomData }
    }

    /// Total capacity (number of blocks times entries per block).
    pub fn capacity(&self) -> (r: usize)
        requires
            self.wf(),
        ensures
            r == self.mem().blocks.len() * self.mem().size,
    {
        self.blocks.count() * self.blocks.size()
    }

    /// Put a value at the back. Moves to the next block with a free slot when the current one is
    /// full; returns `false`, and changes nothing, when there is none.
    pub fn put(&mut self, value: T) -> (r: bool)
        requires
            old(self).wf(),
        ensures
            final(self).wf(),
            final(self).id() == old(self).id(),
            r == blocks::can_put(old(self).mem()),
            r <==> exists|i: int|
                old(self).mem().owner <= i < old(self).mem().blocks.len() && (
                #[trigger] old(self).mem().blocks[i]).committed < old(self).mem().size,
            final(self).mem() == if r {
                blocks::put_mem(old(self).mem(), value)
            } else {
                old(self).mem()
            },
            final(self)@ == if r {
                old(self)@.push(value)
            } else {
                old(self)@
            },
    {
        let ghost m = self.blocks@;
        proof {
            blocks::lemma_free_block(m, m.owner as int);
        }
        let r = self.blocks.put(value);
        assert(self.blocks@.blocks.len() == m.blocks.len() && self.blocks@.size == m.size);
        r
    }

    /// Pop from the back (LIFO). Goes back to the previous block when the current one is drained.
    pub fn pop(&mut self) -> (r: Option<T>)
        requires
            old(self).wf(),
        ensures
            final(self).wf(),
            final(self).id() == old(self).id(),
            final(self).mem() == blocks::pop_mem(old(self).mem()),
            old(self)@.len() == 0 ==> r is None && final(self)@ == old(self)@,
            old(self)@.len() > 0 ==> r == Some(old(self)@.last()) && final(self)@ == old(self)@.drop_last(),
    {
        self.blocks.pop()
    }
}

impl<T: Copy> Default for BwosWorker<T> {
    fn default() -> (w: Self)
        ensures
            w.wf(),
            w.mem() == blocks::initial_bounded::<T>(16, BLOCK_SIZE),
            w@ == Seq::<T>::empty(),
            w.mem().blocks.len() == 16 && w.mem().size == 256,
    {
        Self::new()
    }
}

/// A thief handle for a bounded queue of blocks.
pub struct BwosStealer<T: Copy> {
    of: Ghost<int>,
    marker: core::marker::PhantomData<T>,
}

impl<T: Copy> Clone for BwosStealer<T> {
    fn clone(&self) -> (s: Self)
        ensures
            s == *self,
    {
        BwosStealer { of: Ghost(self.of@), marker: core::marker::PhantomData }
    }
}

impl<T: Copy> BwosStealer<T> {
    /// The identity of the queue that this handle steals from.
    pub closed spec fn of(&self) -> int {
        self.of@
    }

    /// Steal a value from the front of the queue: scan the blocks in use, oldest first, and take
    /// the oldest value of the first one with work.
    pub fn steal(&self, victim: &mut BwosWorker<T>) -> (r: Steal<T>)
        requires
            old(victim).wf(),
            self.of() == old(victim).id(),
        ensures
            final(victim).wf(),
            final(victim).id() == old(victim).id(),
            final(victim).mem() == blocks::steal_mem(
                old(victim).mem(),
                blocks::walk(old(victim).mem(), 0, old(victim).mem().produced as int),
            ),
            old(victim)@.len() == 0 ==> r is Empty && final(victim)@ == old(victim)@,
            old(victim)@.len() > 0 ==> r == Steal::Success(old(victim)@[0]) && final(victim)@
                == old(victim)@.drop_first(),
    {
        let (got, block) = victim.blocks.steal_from(0);
        got
    }
}

/// Last in, first out: a pop right after a put that succeeds returns the value and leaves the queue
/// with what it held before.
pub proof fn put_then_pop<T: Copy>(m: BlockMem<T>, value: T)
    requires
        m.quiescent(),
        !m.growable,
        blocks::can_put(m),
    ensures
        blocks::pop_result(blocks::put_mem(m, value)) == Some(value),
        blocks::pop_mem(blocks::put_mem(m, value)).contents() == m.contents(),
{
    blocks::pop_returns_the_newest(m, value);
}

/// The memory of a queue after `values` were put, one after the other.
pub open spec fn after_puts<T>(m: BlockMem<T>, values: Seq<T>) -> BlockMem<T>
    decreases values.len(),
{
    if values.len() == 0 {
        m
    } else {
        blocks::put_mem(after_puts(m, values.drop_last()), values.last())
    }
}

/// The state of a queue that `n` values were put into and nothing was taken from.
spec fn only_put<T>(m: BlockMem<T>, n: int) -> bool {
    &&& m.quiescent()
    &&& !m.growable
    &&& forall|i: int|
        0 <= i < m.blocks.len() ==> {
            &&& (#[trigger] m.blocks[i]).stolen == 0
            &&& i < m.owner ==> m.blocks[i].committed == m.size
            &&& i > m.owner ==> m.blocks[i].committed == 0
        }
    &&& n == m.owner * m.size + m.own().committed
}

/// A queue holds its capacity: of the values put into an unused queue of `count` blocks of `size`
/// entries, as many are accepted as there are entries, all of them are there, and no more.
pub proof fn holds_its_capacity<T: Copy>(count: int, size: usize, values: Seq<T>)
    requires
        2 <= count <= usize::MAX,
        size >= 1,
        values.len() <= count * size,
    ensures
        after_puts(blocks::initial_bounded(count, size), values).contents() == values,
        blocks::can_put(after_puts(blocks::initial_bounded(count, size), values)) == (values.len()
            < count * size),
{
    lemma_only_put(count, size, values);
    let m = after_puts(blocks::initial_bounded(count, size), values);
    lemma_only_put_room(m, values.len() as int);
}

proof fn lemma_only_put_room<T>(m: BlockMem<T>, n: int)
    requires
        only_put(m, n),
    ensures
        blocks::can_put(m) == (n < m.blocks.len() * m.size),
        blocks::target(m) == if m.own().committed < m.size {
            Some(m.owner as int)
        } else if m.owner + 1 < m.blocks.len() {
            Some(m.owner + 1)
        } else {
            None
        },
{
    let o = m.owner as int;
    assert(m.bounded(o));
    reveal_with_fuel(blocks::free_block, 3);
    if o + 1 < m.blocks.len() {
        assert(m.blocks[o + 1].committed == 0);
        assert(n < m.blocks.len() * m.size) by (nonlinear_arith)
            requires
                n == o * m.size + m.own().committed,
                m.own().committed <= m.size,
                m.size >= 1,
                o + 1 < m.blocks.len(),
        ;
    } else {
        assert((n < m.blocks.len() * m.size) == (m.own().committed < m.size)) by (nonlinear_arith)
            requires
                n == o * m.size + m.own().committed,
                o + 1 == m.blocks.len(),
        ;
    }
}

proof fn lemma_only_put<T: Copy>(count: int, size: usize, values: Seq<T>)
    requires
        2 <= count <= usize::MAX,
        size >= 1,
        values.len() <= count * size,
    ensures
        ({
            let m = after_puts(blocks::initial_bounded(count, size), values);
            &&& only_put(m, values.len() as int)
            &&& m.blocks.len() == count
            &&& m.size == size
            &&& m.contents() == values
        }),
    decreases values.len(),
{
    let start = blocks::initial_bounded::<T>(count, size);
    if values.len() == 0 {
        assert forall|i: int| 0 <= i < start.blocks.len() implies #[trigger] start.bounded(i) by {}
        blocks::lemma_unused(start);
        assert(start.contents() =~= values);
    } else {
        lemma_only_put(count, size, values.drop_last());
        let m = after_puts(start, values.drop_last());
        let n = values.len() - 1;
        lemma_only_put_room(m, n);
        blocks::put_is_the_newest(m, values.last());
        let after = blocks::put_mem(m, values.last());
        let o = m.owner as int;
        assert(m.bounded(o));
        assert(m.blocks[o].stolen == 0);
        if m.own().committed == m.size {
            assert((o + 1) * m.size == o * m.size + m.size) by (nonlinear_arith);
        }
        assert(values =~= values.drop_last().push(values.last()));
    }
}

} // verus!
