//! A block-based work-stealing queue without a bound.
//!
//! The blocks form a list: when the last block is full, a fresh one is linked behind it, so a put
//! always succeeds. A thief remembers the block that it got to and starts there the next time. It
//! passes a drained block as soon as the block has a successor; such a block takes no more values,
//! so a thief is always at or behind the front of the queue.

use vstd::prelude::*;

use crate::blocks;
use crate::blocks::{BlockMem, Blocks};
use crate::steal::Steal;

verus! {

/// Default entries per block.
pub const BLOCK_SIZE: usize = 256;

/// The single owner of an unbounded queue of blocks. Puts and pops at the back (LIFO) within its
/// current block.
pub struct UnboundedBwosWorker<T: Copy> {
    blocks: Blocks<T>,
    id: Ghost<int>,
}

impl<T: Copy> View for UnboundedBwosWorker<T> {
    type V = Seq<T>;

    /// The values from front (oldest) to back (newest).
    closed spec fn view(&self) -> Seq<T> {
        self.blocks@.contents()
    }
}

impl<T: Copy> UnboundedBwosWorker<T> {
    /// The blocks.
    pub closed spec fn mem(&self) -> BlockMem<T> {
        self.blocks@
    }

    /// The identity of the queue, which its thief handles carry. A queue keeps it for good; of the
    /// identities of two queues nothing is known.
    pub closed spec fn id(&self) -> int {
        self.id@
    }

    /// No block before `block` holds a value, now or later.
    pub open spec fn passed(&self, block: int) -> bool {
        blocks::sees_all(self.mem(), block)
    }

    /// The state between operations.
    pub open spec fn wf(&self) -> bool {
        &&& self.mem().quiescent()
        &&& self@ == self.mem().contents()
        &&& self.mem().growable
    }

    /// Create a queue with the default block size (256). Blocks are added as the queue grows and
    /// kept as long as the queue.
    pub fn new() -> (w: Self)
        ensures
            w.wf(),
            w.mem() == blocks::initial_growable::<T>(BLOCK_SIZE),
            w@ == Seq::<T>::empty(),
            w.mem().size == 256,
    {
        Self::with_block_size(BLOCK_SIZE)
    }

    /// Create a queue with `block_size` entries per block.
    pub fn with_block_size(block_size: usize) -> (w: Self)
        requires
            block_size >= 1,
        ensures
            w.wf(),
            w.mem() == blocks::initial_growable::<T>(block_size),
            w@ == Seq::<T>::empty(),
            w.mem().size == block_size && w.mem().blocks.len() == 1,
    {
        UnboundedBwosWorker { blocks: Blocks::growable(block_size), id: Ghost(arbitrary()) }
    }

    /// Create a queue with `block_size` entries per block. The queue has no bound, so the number
    /// of blocks is of no consequence.
    pub fn with_blocks(num_blocks: usize, block_size: usize) -> (w: Self)
        requires
            block_size >= 1,
        ensures
            w.wf(),
            w.mem() == blocks::initial_growable::<T>(block_size),
            w@ == Seq::<T>::empty(),
            w.mem().size == block_size && w.mem().blocks.len() == 1,
    {
        Self::with_block_size(block_size)
    }

    /// A thief handle for this queue, and for no other, at the first block.
    pub fn stealer(&self) -> (s: UnboundedBwosStealer<T>)
        requires
            self.wf(),
        ensures
            s.of() == self.id(),
            s.cursor() == 0,
            self.passed(s.cursor()),
    {
        UnboundedBwosStealer { cursor: 0, of: Ghost(self.id@), marker: core::marker::PhantomData }
    }

    /// Entries per block.
    pub fn block_size(&self) -> (r: usize)
        ensures
            r == self.mem().size,
    {
        self.blocks.size()
    }

    /// Put a value at the back. Links a fresh block when the last one is full; always succeeds.
    pub fn put(&mut self, value: T) -> (r: bool)
        requires
            old(self).wf(),
            old(self).mem().blocks.len() < usize::MAX,
        ensures
            final(self).wf(),
            final(self).id() == old(self).id(),
            forall|c: int| old(self).passed(c) ==> #[trigger] final(self).passed(c),
            r,
            final(self).mem() == blocks::put_mem(old(self).mem(), value),
            final(self).mem().blocks.len() <= old(self).mem().blocks.len() + 1,
            final(self)@ == old(self)@.push(value),
    {
        proof {
            blocks::lemma_free_block(self.blocks@, self.blocks@.produced - 1);
            assert forall|c: int| self.passed(c) implies blocks::sees_all(
                #[trigger] blocks::put_mem(self.blocks@, value),
                c,
            ) by {
                blocks::put_keeps_passed(self.blocks@, value, c);
            }
        }
        self.blocks.put(value)
    }

    /// Pop from the back (LIFO). Goes back to the previous block when the current one is drained.
    pub fn pop(&mut self) -> (r: Option<T>)
        requires
            old(self).wf(),
        ensures
            final(self).wf(),
            final(self).id() == old(self).id(),
            forall|c: int| old(self).passed(c) ==> #[trigger] final(self).passed(c),
            final(self).mem() == blocks::pop_mem(old(self).mem()),
            final(self).mem().blocks.len() == old(self).mem().blocks.len(),
            old(self)@.len() == 0 ==> r is None && final(self)@ == old(self)@,
            old(self)@.len() > 0 ==> r == Some(old(self)@.last()) && final(self)@ == old(self)@.drop_last(),
    {
        proof {
            assert forall|c: int| self.passed(c) implies blocks::sees_all(
                #[trigger] blocks::pop_mem(self.blocks@),
                c,
            ) by {
                blocks::pop_keeps_passed(self.blocks@, c);
            }
        }
        self.blocks.pop()
    }
}

impl<T: Copy> Default for UnboundedBwosWorker<T> {
    fn default() -> (w: Self)
        ensures
            w.wf(),
            w.mem() == blocks::initial_growable::<T>(BLOCK_SIZE),
            w@ == Seq::<T>::empty(),
            w.mem().size == 256,
    {
        Self::new()
    }
}

/// A thief handle for an unbounded queue of blocks. It remembers the block that it got to.
pub struct UnboundedBwosStealer<T: Copy> {
    cursor: usize,
    of: Ghost<int>,
    marker: core::marker::PhantomData<T>,
}

impl<T: Copy> Clone for UnboundedBwosStealer<T> {
    /// A handle for the same queue, at the first block.
    fn clone(&self) -> (s: Self)
        ensures
            s.of() == self.of(),
            s.cursor() == 0,
    {
        UnboundedBwosStealer { cursor: 0, of: Ghost(self.of@), marker: core::marker::PhantomData }
    }
}

impl<T: Copy> UnboundedBwosStealer<T> {
    /// The block that the next attempt starts at.
    pub closed spec fn cursor(&self) -> int {
        self.cursor as int
    }

    /// The identity of the queue that this handle steals from.
    pub closed spec fn of(&self) -> int {
        self.of@
    }

    /// Steal the oldest value: walk from the remembered block along the list to the first block
    /// with work, and remember that block.
    pub fn steal(&mut self, victim: &mut UnboundedBwosWorker<T>) -> (r: Steal<T>)
        requires
            old(victim).wf(),
            old(self).of() == old(victim).id(),
            old(victim).passed(old(self).cursor()),
        ensures
            final(victim).wf(),
            final(victim).id() == old(victim).id(),
            final(self).of() == old(self).of(),
            ({
                let m = old(victim).mem();
                let end = blocks::walk(m, old(self).cursor(), m.produced as int);
                &&& final(self).cursor() == end
                &&& final(victim).mem() == blocks::steal_mem(m, end)
            }),
            final(victim).mem().blocks.len() == old(victim).mem().blocks.len(),
            final(victim).passed(final(self).cursor()),
            forall|c: int| old(victim).passed(c) ==> #[trigger] final(victim).passed(c),
            old(victim)@.len() == 0 ==> r is Empty && final(victim)@ == old(victim)@,
            old(victim)@.len() > 0 ==> r == Steal::Success(old(victim)@[0]) && final(victim)@
                == old(victim)@.drop_first(),
    {
        proof {
            blocks::steal_keeps_in_sight(victim.blocks@, self.cursor());
            let w = blocks::walk(victim.blocks@, self.cursor(), victim.blocks@.produced as int);
            assert forall|c: int| victim.passed(c) implies blocks::sees_all(
                #[trigger] blocks::steal_mem(victim.blocks@, w),
                c,
            ) by {
                blocks::steal_keeps_passed(victim.blocks@, w, c);
            }
        }
        let (got, block) = victim.blocks.steal_from(self.cursor);
        self.cursor = block;
        got
    }
}

/// Last in, first out: a pop right after a put returns the value and leaves the queue with what
/// it held before.
pub proof fn put_then_pop<T: Copy>(m: BlockMem<T>, value: T)
    requires
        m.quiescent(),
        m.growable,
        m.blocks.len() < usize::MAX,
    ensures
        blocks::pop_result(blocks::put_mem(m, value)) == Some(value),
        blocks::pop_mem(blocks::put_mem(m, value)).contents() == m.contents(),
{
    blocks::pop_returns_the_newest(m, value);
}

/// Always succeeds: a queue never refuses a put.
pub proof fn never_full<T: Copy>(m: BlockMem<T>)
    requires
        m.growable,
    ensures
        blocks::can_put(m),
{
}

} // verus!
