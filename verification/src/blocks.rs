//! A queue cut into blocks, each of them a small Chase-Lev deque of its own.
//!
//! [`Blocks`] is the memory that the owner and the thieves of a block-based queue share. A block
//! has its own bottom (`committed`, moved by the owner) and its own top (`stolen`, moved by
//! whoever claims an item by compare-and-swap). The owner works in one block at a time: a pop that
//! finds its block drained moves it to the previous one, and a put moves it to the block that
//! takes the value. A slot is used again only after its item was popped, so an index that the top
//! of a block has passed never comes back. Every operation is a program of steps with at most one
//! access that another party can see; [`crate::blocks_once`] proves what holds when they
//! interleave.
//!
//! A bounded queue has all its blocks from the start, and a put takes the first free slot from the
//! owner's block on. A growable queue is a list of blocks: a block is sealed once another is linked
//! behind it, and only the last block, which is not sealed, takes values. So a thief that has
//! passed a sealed and drained block never has to come back to it.

use vstd::prelude::*;

use crate::steal::Steal;
use crate::windows;

verus! {

/// Where the owner stands in its current operation.
#[derive(Clone, Copy, Debug, PartialEq, Eq)]
pub enum BlockOwner<P> {
    /// About to find the block for a value.
    Putting { value: P },
    /// Has entered the block; about to write the slot.
    PutAt { value: P, pos: usize },
    /// The slot is written; about to publish the new bottom.
    PutWritten { pos: usize },
    /// The put is complete.
    Put(bool),
    /// About to look at its block.
    Popping,
    /// Has seen an item; about to claim the bottom slot.
    PopChecked { bottom: usize },
    /// The bottom is decremented; about to load the top.
    PopClaimed { bottom: usize },
    /// Has loaded the top; about to act on it.
    PopSeen { bottom: usize, top: usize },
    /// Holds the last item of the block; about to race for it.
    PopRace { top: usize, item: P },
    /// The race is decided; about to restore the bottom.
    PopSettle { top: usize, won: Option<P> },
    /// The pop is complete.
    Popped(Option<P>),
}

/// Where a thief stands in its current attempt.
#[derive(Clone, Copy, Debug, PartialEq, Eq)]
pub enum BlockThief<P> {
    /// About to load the number of blocks in use.
    Stealing,
    /// About to load the top of a block.
    At { block: usize, limit: usize },
    /// Has loaded the top; about to load the bottom.
    SeenTop { block: usize, limit: usize, top: usize },
    /// Has seen the block drained; about to look for the next one.
    Drained { block: usize, limit: usize },
    /// Has seen work; about to read the slot.
    SeenWork { block: usize, top: usize },
    /// Has read the slot; about to claim it by advancing the top.
    SeenItem { block: usize, top: usize, cell: Option<P> },
    /// The attempt is complete, and ended at `block`.
    Stole { block: usize, got: Steal<P> },
}

/// One block as a mathematical value.
#[verifier::ext_equal]
pub struct BlockState<P> {
    pub slots: Seq<Option<P>>,
    pub committed: usize,
    pub stolen: usize,
}

impl<P> BlockState<P> {
    /// The items of the block when its bottom is `end`.
    pub open spec fn window(self, end: int) -> Seq<P> {
        Seq::new(
            if self.stolen < end {
                (end - self.stolen) as nat
            } else {
                0
            },
            |j: int| self.slots[self.stolen + j].unwrap(),
        )
    }

    /// There is something to take.
    pub open spec fn has_work(self) -> bool {
        self.stolen < self.committed
    }
}

/// The shared memory of a block-based queue as a mathematical value. `owner` is the block that
/// the owner works in, `produced` the number of blocks that thieves look at.
#[verifier::ext_equal]
pub struct BlockMem<P> {
    pub blocks: Seq<BlockState<P>>,
    pub owner: usize,
    pub produced: usize,
    pub size: usize,
    pub growable: bool,
}

/// A block that was never used.
pub open spec fn fresh_block<P>(size: usize) -> BlockState<P> {
    BlockState { slots: Seq::new(size as nat, |j: int| None), committed: 0, stolen: 0 }
}

impl<P> BlockMem<P> {
    /// The block that the owner works in.
    pub open spec fn own(self) -> BlockState<P> {
        self.blocks[self.owner as int]
    }

    /// The memory with another bottom in block `i`.
    pub open spec fn with_committed(self, i: int, committed: int) -> BlockMem<P> {
        BlockMem {
            blocks: self.blocks.update(
                i,
                BlockState { committed: committed as usize, ..self.blocks[i] },
            ),
            ..self
        }
    }

    /// The memory with another top in block `i`.
    pub open spec fn with_stolen(self, i: int, stolen: int) -> BlockMem<P> {
        BlockMem {
            blocks: self.blocks.update(i, BlockState { stolen: stolen as usize, ..self.blocks[i] }),
            ..self
        }
    }

    /// The memory with an item written in block `i`.
    pub open spec fn with_item(self, i: int, pos: int, item: P) -> BlockMem<P> {
        BlockMem {
            blocks: self.blocks.update(
                i,
                BlockState {
                    slots: self.blocks[i].slots.update(pos, Some(item)),
                    ..self.blocks[i]
                },
            ),
            ..self
        }
    }

    /// The memory with a fresh block linked behind the last one, and the owner in it.
    pub open spec fn extended(self) -> BlockMem<P> {
        BlockMem {
            blocks: self.blocks.push(fresh_block(self.size)),
            owner: self.blocks.len() as usize,
            produced: (self.blocks.len() + 1) as usize,
            ..self
        }
    }

    /// The memory with the owner in block `n`.
    pub open spec fn entered(self, n: int) -> BlockMem<P> {
        BlockMem {
            owner: n as usize,
            produced: if self.produced <= n {
                (n + 1) as usize
            } else {
                self.produced
            },
            ..self
        }
    }

    /// The indices of block `i` stay inside the block.
    pub open spec fn bounded(self, i: int) -> bool {
        let b = self.blocks[i];
        &&& b.slots.len() == self.size
        &&& b.committed <= self.size
        &&& b.stolen <= self.size
    }

    /// Every index leads somewhere.
    pub open spec fn shaped(self) -> bool {
        &&& self.size >= 1
        &&& self.owner < self.produced <= self.blocks.len() <= usize::MAX
        &&& self.growable ==> self.produced == self.blocks.len()
        &&& forall|i: int| 0 <= i < self.blocks.len() ==> #[trigger] self.bounded(i)
    }

    /// The items of each block, when the bottom of the owner's block is `end`.
    pub open spec fn pieces(self, end: int) -> Seq<Seq<P>> {
        Seq::new(
            self.blocks.len(),
            |i: int|
                self.blocks[i].window(
                    if i == self.owner {
                        end
                    } else {
                        self.blocks[i].committed as int
                    },
                ),
        )
    }

    /// The items while no operation is in progress, from the oldest to the newest.
    pub open spec fn contents(self) -> Seq<P> {
        windows::concat(self.pieces(self.own().committed as int))
    }

    /// Block `i` holds nothing if it comes behind the owner's.
    pub open spec fn settled(self, i: int) -> bool {
        i > self.owner ==> !self.blocks[i].has_work()
    }

    /// Items are only in the owner's block and in those before it.
    pub open spec fn tidy(self) -> bool {
        forall|i: int| 0 <= i < self.blocks.len() ==> #[trigger] self.settled(i)
    }

    /// The slots of block `i` below its bottom hold items.
    pub open spec fn filled(self, i: int) -> bool {
        forall|j: int|
            0 <= j < self.blocks[i].committed ==> (#[trigger] self.blocks[i].slots[j]) is Some
    }

    /// The state between operations.
    pub open spec fn quiescent(self) -> bool {
        &&& self.shaped()
        &&& self.tidy()
        &&& forall|i: int| 0 <= i < self.blocks.len() ==> #[trigger] self.filled(i)
        &&& forall|i: int|
            0 <= i < self.blocks.len() ==> (#[trigger] self.blocks[i]).stolen
                <= self.blocks[i].committed
    }
}

/// The first block with a free slot from block `from` on.
pub open spec fn free_block<P>(m: BlockMem<P>, from: int) -> Option<int>
    decreases m.blocks.len() - from,
{
    if !(0 <= from < m.blocks.len()) {
        None
    } else if m.blocks[from].committed < m.size {
        Some(from)
    } else {
        free_block(m, from + 1)
    }
}

/// The block that takes the next value, if there is one: of a growable queue the last block, of a
/// bounded one the first with a free slot from the owner's on.
pub open spec fn target<P>(m: BlockMem<P>) -> Option<int> {
    free_block(
        m,
        if m.growable {
            m.produced - 1
        } else {
            m.owner as int
        },
    )
}

/// The next state of the memory and of the owner after one step of the owner.
pub open spec fn owner_next<P>(m: BlockMem<P>, s: BlockOwner<P>) -> (BlockMem<P>, BlockOwner<P>) {
    let o = m.owner as int;
    let b = m.own();
    match s {
        BlockOwner::Putting { value } => match target(m) {
            Some(n) => (m.entered(n), BlockOwner::PutAt { value, pos: m.blocks[n].committed }),
            None => if m.growable {
                (m.extended(), BlockOwner::PutAt { value, pos: 0 })
            } else {
                (m, BlockOwner::Put(false))
            },
        },
        BlockOwner::PutAt { value, pos } => (
            m.with_item(o, pos as int, value),
            BlockOwner::PutWritten { pos },
        ),
        BlockOwner::PutWritten { pos } => (m.with_committed(o, pos + 1), BlockOwner::Put(true)),
        BlockOwner::Put(done) => (m, s),
        BlockOwner::Popping => if b.stolen < b.committed {
            (m, BlockOwner::PopChecked { bottom: b.committed })
        } else if o > 0 {
            (BlockMem { owner: (o - 1) as usize, ..m }, BlockOwner::Popping)
        } else {
            (m, BlockOwner::Popped(None))
        },
        BlockOwner::PopChecked { bottom } => (
            m.with_committed(o, bottom - 1),
            BlockOwner::PopClaimed { bottom },
        ),
        BlockOwner::PopClaimed { bottom } => (m, BlockOwner::PopSeen { bottom, top: b.stolen }),
        BlockOwner::PopSeen { bottom, top } => if top < bottom - 1 {
            (m, BlockOwner::Popped(Some(b.slots[bottom - 1].unwrap())))
        } else if top == bottom - 1 {
            (m, BlockOwner::PopRace { top, item: b.slots[bottom - 1].unwrap() })
        } else {
            (m.with_committed(o, bottom as int), BlockOwner::Popping)
        },
        BlockOwner::PopRace { top, item } => if b.stolen == top {
            (m.with_stolen(o, top + 1), BlockOwner::PopSettle { top, won: Some(item) })
        } else {
            (m, BlockOwner::PopSettle { top, won: None })
        },
        BlockOwner::PopSettle { top, won } => (
            m.with_committed(o, top + 1),
            match won {
                Some(item) => BlockOwner::Popped(Some(item)),
                None => BlockOwner::Popping,
            },
        ),
        BlockOwner::Popped(item) => (m, s),
    }
}

/// The next step of the owner stays inside its block and takes no empty slot.
pub open spec fn owner_ready<P>(m: BlockMem<P>, s: BlockOwner<P>) -> bool {
    match s {
        BlockOwner::Putting { value } => m.growable ==> m.blocks.len() < usize::MAX,
        BlockOwner::PutAt { value, pos } => pos < m.size,
        BlockOwner::PutWritten { pos } => pos < m.size,
        BlockOwner::PopChecked { bottom } => 0 < bottom <= m.size,
        BlockOwner::PopClaimed { bottom } => 0 < bottom <= m.size,
        BlockOwner::PopSeen { bottom, top } => {
            &&& 0 < bottom <= m.size
            &&& top <= bottom - 1 ==> m.own().slots[bottom - 1] is Some
        },
        BlockOwner::PopRace { top, item } => top < m.size,
        BlockOwner::PopSettle { top, won } => top < m.size,
        _ => true,
    }
}

/// The block that a thief looks at behind block `i`. A thief of a bounded queue looks at the blocks
/// that were in use when it started.
pub open spec fn following<P>(m: BlockMem<P>, i: int, limit: int) -> Option<usize> {
    if i + 1 < if m.growable {
        m.produced as int
    } else {
        limit
    } {
        Some((i + 1) as usize)
    } else {
        None
    }
}

/// The next state of the memory and of a thief after one step of the thief.
pub open spec fn thief_next<P>(m: BlockMem<P>, s: BlockThief<P>) -> (BlockMem<P>, BlockThief<P>) {
    match s {
        BlockThief::Stealing => (m, BlockThief::At { block: 0, limit: m.produced }),
        BlockThief::At { block, limit } => (
            m,
            BlockThief::SeenTop { block, limit, top: m.blocks[block as int].stolen },
        ),
        BlockThief::SeenTop { block, limit, top } => (
            m,
            if top < m.blocks[block as int].committed {
                BlockThief::SeenWork { block, top }
            } else {
                BlockThief::Drained { block, limit }
            },
        ),
        BlockThief::Drained { block, limit } => (
            m,
            match following(m, block as int, limit as int) {
                Some(n) => BlockThief::At { block: n, limit },
                None => BlockThief::Stole { block, got: Steal::Empty },
            },
        ),
        BlockThief::SeenWork { block, top } => (
            m,
            BlockThief::SeenItem { block, top, cell: m.blocks[block as int].slots[top as int] },
        ),
        BlockThief::SeenItem { block, top, cell } => if m.blocks[block as int].stolen == top {
            (
                m.with_stolen(block as int, top + 1),
                BlockThief::Stole { block, got: Steal::Success(cell.unwrap()) },
            )
        } else {
            (m, BlockThief::Stole { block, got: Steal::Retry })
        },
        BlockThief::Stole { block, got } => (m, s),
    }
}

/// The next step of a thief stays inside its block and claims no empty slot.
pub open spec fn thief_ready<P>(m: BlockMem<P>, s: BlockThief<P>) -> bool {
    match s {
        BlockThief::Stealing => true,
        BlockThief::At { block, limit } => block < m.blocks.len() && limit <= m.blocks.len(),
        BlockThief::SeenTop { block, limit, top } => block < m.blocks.len() && limit
            <= m.blocks.len(),
        BlockThief::Drained { block, limit } => block < m.blocks.len() && limit <= m.blocks.len(),
        BlockThief::SeenWork { block, top } => block < m.blocks.len() && top < m.size,
        BlockThief::SeenItem { block, top, cell } => {
            &&& block < m.blocks.len()
            &&& top < m.size
            &&& m.blocks[block as int].stolen == top ==> cell is Some
        },
        BlockThief::Stole { block, got } => true,
    }
}

/// There is a slot for one more value.
pub open spec fn can_put<P>(m: BlockMem<P>) -> bool {
    m.growable || target(m) is Some
}

/// The memory with the owner in the block for one more value.
pub open spec fn room<P>(m: BlockMem<P>) -> BlockMem<P> {
    match target(m) {
        Some(n) => m.entered(n),
        None => m.extended(),
    }
}

/// The memory with `value` as the last item of the owner's block.
pub open spec fn appended<P>(m: BlockMem<P>, value: P) -> BlockMem<P> {
    let pos = m.own().committed as int;
    m.with_item(m.owner as int, pos, value).with_committed(m.owner as int, pos + 1)
}

/// The memory after a put that succeeds.
pub open spec fn put_mem<P>(m: BlockMem<P>, value: P) -> BlockMem<P> {
    appended(room(m), value)
}

/// The first block with work on the way back from block `from`, or the first block of all.
pub open spec fn back_to_work<P>(m: BlockMem<P>, from: int) -> int
    decreases from,
{
    if from <= 0 || m.blocks[from].has_work() {
        from
    } else {
        back_to_work(m, from - 1)
    }
}

/// The memory after the newest item of the owner's block is taken.
pub open spec fn take_last<P>(m: BlockMem<P>) -> BlockMem<P> {
    let o = m.owner as int;
    let b = m.own();
    if b.stolen < b.committed - 1 {
        m.with_committed(o, b.committed - 1)
    } else {
        m.with_stolen(o, b.stolen + 1)
    }
}

/// The memory with the owner in the block that it pops from.
pub open spec fn back<P>(m: BlockMem<P>) -> BlockMem<P> {
    BlockMem { owner: back_to_work(m, m.owner as int) as usize, ..m }
}

/// The memory after a pop.
pub open spec fn pop_mem<P>(m: BlockMem<P>) -> BlockMem<P> {
    if back(m).own().has_work() {
        take_last(back(m))
    } else {
        back(m)
    }
}

/// The result of a pop.
pub open spec fn pop_result<P>(m: BlockMem<P>) -> Option<P> {
    let b = back(m).own();
    if b.has_work() {
        Some(b.slots[b.committed - 1].unwrap())
    } else {
        None
    }
}

/// The first block with work on a thief's way from block `from`, or the last one on the way.
pub open spec fn walk<P>(m: BlockMem<P>, from: int, limit: int) -> int
    decreases m.produced + limit - from,
{
    if m.blocks[from].has_work() || following(m, from, limit) is None || limit < 0 {
        from
    } else {
        walk(m, from + 1, limit)
    }
}

/// The memory after the oldest item of block `w` is taken, if it has one.
pub open spec fn steal_mem<P>(m: BlockMem<P>, w: int) -> BlockMem<P> {
    if m.blocks[w].has_work() {
        m.with_stolen(w, m.blocks[w].stolen + 1)
    } else {
        m
    }
}

/// What a thief gets from block `w`.
pub open spec fn steal_result<P>(m: BlockMem<P>, w: int) -> Steal<P> {
    let b = m.blocks[w];
    if b.has_work() {
        Steal::Success(b.slots[b.stolen as int].unwrap())
    } else {
        Steal::Empty
    }
}

/// An unused bounded queue of `count` blocks of `size` slots.
pub open spec fn initial_bounded<P>(count: int, size: usize) -> BlockMem<P> {
    BlockMem {
        blocks: Seq::new(count as nat, |k: int| fresh_block(size)),
        owner: 0,
        produced: 1,
        size,
        growable: false,
    }
}

/// An unused growable queue with blocks of `size` slots.
pub open spec fn initial_growable<P>(size: usize) -> BlockMem<P> {
    BlockMem {
        blocks: seq![fresh_block(size)],
        owner: 0,
        produced: 1,
        size,
        growable: true,
    }
}

/// A thief that starts at block `from` misses nothing: no block before it has work.
pub open spec fn sees_all<P>(m: BlockMem<P>, from: int) -> bool {
    &&& 0 <= from < m.produced
    &&& forall|i: int| 0 <= i < from ==> !(#[trigger] m.blocks[i]).has_work()
}

/// A block with a free slot is found where there is one.
pub proof fn lemma_free_block<P>(m: BlockMem<P>, from: int)
    requires
        0 <= from,
    ensures
        match free_block(m, from) {
            Some(n) => {
                &&& from <= n < m.blocks.len()
                &&& m.blocks[n].committed < m.size
                &&& forall|i: int| from <= i < n ==> (#[trigger] m.blocks[i]).committed >= m.size
            },
            None => forall|i: int|
                from <= i < m.blocks.len() ==> (#[trigger] m.blocks[i]).committed >= m.size,
        },
    decreases m.blocks.len() - from,
{
    if from < m.blocks.len() && m.blocks[from].committed >= m.size {
        lemma_free_block(m, from + 1);
    }
}

/// The newest items are those of the owner's block.
proof fn lemma_ends_with_own<P>(m: BlockMem<P>)
    requires
        m.shaped(),
        m.tidy(),
    ensures
        m.contents() == windows::concat(
            m.pieces(m.own().committed as int).take(m.owner as int),
        ) + m.own().window(m.own().committed as int),
{
    let pieces = m.pieces(m.own().committed as int);
    assert forall|i: int| m.owner < i < pieces.len() implies (#[trigger] pieces[i]).len() == 0 by {
        assert(m.settled(i));
    }
    windows::lemma_concat_last(pieces, m.owner as int);
}

/// The block for one more value has room, and entering it changes no item.
pub proof fn lemma_room<P>(m: BlockMem<P>)
    requires
        m.quiescent(),
        can_put(m),
        m.growable ==> m.blocks.len() < usize::MAX,
    ensures
        room(m).quiescent(),
        room(m).contents() == m.contents(),
        room(m).own().committed < m.size,
        room(m).owner >= m.owner,
        m.growable ==> room(m).owner == room(m).produced - 1,
{
    let r = room(m);
    lemma_free_block(m, if m.growable { m.produced - 1 } else { m.owner as int });
    assert forall|i: int|
        #![trigger r.bounded(i)]
        #![trigger r.filled(i)]
        #![trigger r.settled(i)]
        0 <= i < r.blocks.len() implies r.bounded(i) && r.filled(i) && r.settled(i) by {
        if i < m.blocks.len() {
            assert(m.bounded(i) && m.filled(i) && m.settled(i));
        }
    }
    assert forall|i: int| 0 <= i < r.blocks.len() implies (#[trigger] r.blocks[i]).stolen
        <= r.blocks[i].committed by {
        if i < m.blocks.len() {
            assert(m.blocks[i].stolen <= m.blocks[i].committed);
        }
    }
    let before = m.pieces(m.own().committed as int);
    let after = r.pieces(r.own().committed as int);
    if target(m) is Some {
        assert(after =~= before);
    } else {
        assert(after =~= before.push(r.own().window(0)));
        windows::lemma_concat_push_empty(before, r.own().window(0));
    }
}

/// A value that is put into the owner's block is the newest item.
proof fn lemma_appended<P>(m: BlockMem<P>, value: P)
    requires
        m.quiescent(),
        m.own().committed < m.size,
    ensures
        appended(m, value).quiescent(),
        appended(m, value).contents() == m.contents().push(value),
{
    let r = appended(m, value);
    let o = m.owner as int;
    assert(m.bounded(o) && m.filled(o));
    assert(m.blocks[o].stolen <= m.blocks[o].committed);
    assert(r =~= (BlockMem { blocks: m.blocks.update(o, r.blocks[o]), ..m }));
    lemma_one_changed(m, r, o);
    lemma_ends_with_own(m);
    lemma_ends_with_own(r);
    let before = m.pieces(m.own().committed as int).take(o);
    let after = r.pieces(r.own().committed as int).take(o);
    assert(before =~= after);
    let own = m.own().window(m.own().committed as int);
    let new = r.own().window(r.own().committed as int);
    assert(new =~= own.push(value));
    assert(r.contents() =~= m.contents().push(value));
}

/// A change inside one block keeps the others as they are.
proof fn lemma_one_changed<P>(m: BlockMem<P>, r: BlockMem<P>, k: int)
    requires
        m.quiescent(),
        0 <= k < m.blocks.len(),
        r == (BlockMem { blocks: m.blocks.update(k, r.blocks[k]), ..m }),
        r.bounded(k),
        r.filled(k),
        r.settled(k),
        r.blocks[k].stolen <= r.blocks[k].committed,
    ensures
        r.quiescent(),
{
    assert forall|i: int|
        #![trigger r.bounded(i)]
        #![trigger r.filled(i)]
        #![trigger r.settled(i)]
        0 <= i < r.blocks.len() implies r.bounded(i) && r.filled(i) && r.settled(i) by {
        assert(m.bounded(i) && m.filled(i) && m.settled(i));
    }
    assert forall|i: int| 0 <= i < r.blocks.len() implies (#[trigger] r.blocks[i]).stolen
        <= r.blocks[i].committed by {
        assert(m.blocks[i].stolen <= m.blocks[i].committed);
    }
}

/// Stepping back from a drained block changes no item.
pub proof fn lemma_step_back<P>(m: BlockMem<P>)
    requires
        m.quiescent(),
        !m.own().has_work(),
        m.owner > 0,
    ensures
        (BlockMem { owner: (m.owner - 1) as usize, ..m }).quiescent(),
        (BlockMem { owner: (m.owner - 1) as usize, ..m }).contents() == m.contents(),
{
    let r = BlockMem { owner: (m.owner - 1) as usize, ..m };
    assert forall|i: int|
        #![trigger r.bounded(i)]
        #![trigger r.filled(i)]
        #![trigger r.settled(i)]
        0 <= i < r.blocks.len() implies r.bounded(i) && r.filled(i) && r.settled(i) by {
        assert(m.bounded(i) && m.filled(i) && m.settled(i));
    }
    assert(r.pieces(r.own().committed as int) =~= m.pieces(m.own().committed as int));
}

/// The owner takes the newest item.
proof fn lemma_take_last<P>(m: BlockMem<P>)
    requires
        m.quiescent(),
        m.own().has_work(),
    ensures
        take_last(m).quiescent(),
        m.contents().len() > 0,
        m.own().slots[m.own().committed - 1] == Some(m.contents().last()),
        take_last(m).contents() == m.contents().drop_last(),
{
    let r = take_last(m);
    let o = m.owner as int;
    assert(m.bounded(o) && m.filled(o));
    assert(r =~= (BlockMem { blocks: m.blocks.update(o, r.blocks[o]), ..m }));
    lemma_one_changed(m, r, o);
    lemma_ends_with_own(m);
    lemma_ends_with_own(r);
    let before = m.pieces(m.own().committed as int).take(o);
    let after = r.pieces(r.own().committed as int).take(o);
    assert(before =~= after);
    let own = m.own().window(m.own().committed as int);
    let new = r.own().window(r.own().committed as int);
    assert(new =~= own.drop_last());
    assert(own.last() == m.own().slots[m.own().committed - 1].unwrap());
    assert(r.contents() =~= m.contents().drop_last());
}

/// A thief takes the oldest item of a block; where no block before it has work, that is the
/// oldest item of all.
proof fn lemma_take_first<P>(m: BlockMem<P>, w: int)
    requires
        m.quiescent(),
        0 <= w < m.blocks.len(),
        m.blocks[w].has_work(),
    ensures
        steal_mem(m, w).quiescent(),
        m.blocks[w].slots[m.blocks[w].stolen as int] is Some,
        (forall|i: int| 0 <= i < w ==> !(#[trigger] m.blocks[i]).has_work()) ==> {
            &&& m.contents().len() > 0
            &&& m.contents()[0] == m.blocks[w].slots[m.blocks[w].stolen as int].unwrap()
            &&& steal_mem(m, w).contents() == m.contents().drop_first()
        },
{
    let r = steal_mem(m, w);
    assert(m.bounded(w) && m.filled(w) && m.settled(w));
    assert(r =~= (BlockMem { blocks: m.blocks.update(w, r.blocks[w]), ..m }));
    lemma_one_changed(m, r, w);
    let before = m.pieces(m.own().committed as int);
    let after = r.pieces(r.own().committed as int);
    if forall|i: int| 0 <= i < w ==> !(#[trigger] m.blocks[i]).has_work() {
        assert forall|i: int| 0 <= i < w implies (#[trigger] before[i]).len() == 0 by {
            assert(!m.blocks[i].has_work());
        }
        windows::lemma_concat_first(before, w);
        assert(after[w] =~= before[w].drop_first());
        assert(after =~= before.update(w, before[w].drop_first()));
    }
}

/// A thief that misses nothing ends at the oldest block with work.
proof fn lemma_walk<P>(m: BlockMem<P>, from: int, limit: int)
    requires
        m.quiescent(),
        sees_all(m, from),
        limit == m.produced,
    ensures
        sees_all(m, walk(m, from, limit)),
        !m.blocks[walk(m, from, limit)].has_work() ==> m.contents() == Seq::<P>::empty(),
    decreases m.produced - from,
{
    if !m.blocks[from].has_work() {
        if from + 1 < m.produced {
            lemma_walk(m, from + 1, limit);
        } else {
            let pieces = m.pieces(m.own().committed as int);
            assert forall|i: int| 0 <= i < pieces.len() implies (#[trigger] pieces[i]).len()
                == 0 by {
                assert(m.settled(i));
                assert(!m.blocks[i].has_work());
            }
            windows::lemma_concat_empty(pieces);
        }
    }
}

/// Where neither the owner's block nor a block before it has work, there is nothing.
proof fn lemma_all_drained<P>(m: BlockMem<P>)
    requires
        m.quiescent(),
        m.owner == 0,
        !m.own().has_work(),
    ensures
        m.contents() == Seq::<P>::empty(),
{
    lemma_ends_with_own(m);
    assert(m.pieces(m.own().committed as int).take(0) =~= Seq::empty());
    assert(m.own().window(m.own().committed as int) =~= Seq::empty());
    assert(m.contents() =~= Seq::empty());
}

/// A queue whose blocks were never used is ready for use and empty.
pub proof fn lemma_unused<P>(m: BlockMem<P>)
    requires
        m.shaped(),
        m.owner == 0,
        forall|i: int|
            0 <= i < m.blocks.len() ==> (#[trigger] m.blocks[i]).committed == 0
                && m.blocks[i].stolen == 0,
    ensures
        m.quiescent(),
        m.contents() == Seq::<P>::empty(),
{
    assert forall|i: int|
        #![trigger m.settled(i)]
        #![trigger m.filled(i)]
        0 <= i < m.blocks.len() implies m.settled(i) && m.filled(i) by {
        assert(m.blocks[i].committed == 0);
    }
    lemma_all_drained(m);
}

/// A put fills the next free slot: a bounded queue takes a value iff a block from the owner's on has
/// a slot that was never used, or was popped from, and the first such block takes it. Nothing else
/// changes.
pub proof fn put_fills_the_first_free_slot<P>(m: BlockMem<P>, value: P)
    requires
        m.quiescent(),
        !m.growable,
    ensures
        can_put(m) <==> exists|i: int|
            m.owner <= i < m.blocks.len() && (#[trigger] m.blocks[i]).committed < m.size,
        can_put(m) ==> {
            let n = put_mem(m, value);
            let t = n.owner as int;
            let pos = m.blocks[t].committed;
            &&& m.owner <= t < m.blocks.len()
            &&& pos < m.size
            &&& forall|i: int| m.owner <= i < t ==> (#[trigger] m.blocks[i]).committed == m.size
            &&& n.blocks.len() == m.blocks.len()
            &&& n.blocks[t].committed == pos + 1
            &&& n.blocks[t].stolen == m.blocks[t].stolen
            &&& n.blocks[t].slots == m.blocks[t].slots.update(pos as int, Some(value))
            &&& forall|i: int|
                0 <= i < m.blocks.len() && i != t ==> #[trigger] n.blocks[i] == m.blocks[i]
            &&& n.produced == if t < m.produced {
                m.produced as int
            } else {
                t + 1
            }
            &&& n.size == m.size && !n.growable
        },
{
    lemma_free_block(m, m.owner as int);
    if can_put(m) {
        let t = target(m).unwrap();
        assert(m.blocks[t].committed < m.size);
        assert forall|i: int| m.owner <= i < t implies (#[trigger] m.blocks[i]).committed
            == m.size by {
            assert(m.bounded(i));
        }
        assert(m.bounded(t));
    }
}

/// A put into a growable queue fills the next slot of the last block, or the first slot of a block
/// that it links behind it. Nothing else changes.
pub proof fn put_fills_the_last_block<P>(m: BlockMem<P>, value: P)
    requires
        m.quiescent(),
        m.growable,
        m.blocks.len() < usize::MAX,
    ensures
        can_put(m),
        ({
            let n = put_mem(m, value);
            let full = m.blocks.last().committed == m.size;
            let t = n.owner as int;
            &&& t == if full {
                m.blocks.len() as int
            } else {
                m.blocks.len() - 1
            }
            &&& n.blocks.len() == t + 1
            &&& n.produced == t + 1
            &&& n.blocks[t].committed == if full {
                1
            } else {
                m.blocks[t].committed + 1
            }
            &&& n.blocks[t].stolen == if full {
                0
            } else {
                m.blocks[t].stolen
            }
            &&& n.blocks[t].slots[n.blocks[t].committed - 1] == Some(value)
            &&& forall|i: int| 0 <= i < t ==> #[trigger] n.blocks[i] == m.blocks[i]
            &&& n.size == m.size && n.growable
        }),
{
    lemma_free_block(m, m.produced - 1);
    assert(m.bounded(m.blocks.len() - 1));
}

/// A pop empties from the newest end: the owner goes back to the nearest block with work, at the
/// farthest to the first one, and takes the item at its bottom. The slot is free again, unless it
/// was the block's last item, which is claimed as by a thief. Nothing else changes.
pub proof fn pop_empties_from_the_newest<P>(m: BlockMem<P>)
    requires
        m.quiescent(),
    ensures
        ({
            let n = pop_mem(m);
            let o = n.owner as int;
            let b = m.blocks[o];
            &&& 0 <= o <= m.owner
            &&& forall|i: int|
                o < i <= m.owner ==> (#[trigger] m.blocks[i]).stolen == m.blocks[i].committed
            &&& n.blocks.len() == m.blocks.len()
            &&& forall|i: int|
                0 <= i < m.blocks.len() && i != o ==> #[trigger] n.blocks[i] == m.blocks[i]
            &&& n.blocks[o].slots == b.slots
            &&& n.produced == m.produced && n.size == m.size && n.growable == m.growable
            &&& if b.stolen < b.committed {
                &&& pop_result(m) == Some(b.slots[b.committed - 1].unwrap())
                &&& b.committed - b.stolen > 1 ==> n.blocks[o].committed == b.committed - 1
                    && n.blocks[o].stolen == b.stolen
                &&& b.committed - b.stolen == 1 ==> n.blocks[o].committed == b.committed
                    && n.blocks[o].stolen == b.committed
            } else {
                o == 0 && pop_result(m) is None && n.blocks[o] == b
            }
        }),
{
    lemma_back_to_work(m, m.owner as int);
    let o = back(m).owner as int;
    assert forall|i: int| o < i <= m.owner implies (#[trigger] m.blocks[i]).stolen
        == m.blocks[i].committed by {
        assert(!m.blocks[i].has_work());
    }
}

proof fn lemma_back_to_work<P>(m: BlockMem<P>, from: int)
    requires
        0 <= from,
    ensures
        0 <= back_to_work(m, from) <= from,
        forall|i: int| back_to_work(m, from) < i <= from ==> !(#[trigger] m.blocks[i]).has_work(),
        back_to_work(m, from) == 0 || m.blocks[back_to_work(m, from)].has_work(),
    decreases from,
{
    if from > 0 && !m.blocks[from].has_work() {
        lemma_back_to_work(m, from - 1);
    }
}

/// A steal empties from the oldest end: a thief that starts at block `from` goes on to the first
/// block with work, or to the last in use if there is none, and takes the item at its top. Nothing
/// else changes.
pub proof fn steal_empties_from_the_oldest<P>(m: BlockMem<P>, from: int)
    requires
        m.quiescent(),
        0 <= from < m.produced,
    ensures
        ({
            let w = walk(m, from, m.produced as int);
            let n = steal_mem(m, w);
            let b = m.blocks[w];
            &&& from <= w < m.produced
            &&& forall|i: int|
                from <= i < w ==> (#[trigger] m.blocks[i]).stolen == m.blocks[i].committed
            &&& n.blocks.len() == m.blocks.len()
            &&& forall|i: int|
                0 <= i < m.blocks.len() && i != w ==> #[trigger] n.blocks[i] == m.blocks[i]
            &&& n.owner == m.owner && n.produced == m.produced && n.size == m.size
            &&& n.growable == m.growable
            &&& n.blocks[w].slots == b.slots && n.blocks[w].committed == b.committed
            &&& if b.stolen < b.committed {
                &&& steal_result(m, w) == Steal::Success(b.slots[b.stolen as int].unwrap())
                &&& n.blocks[w].stolen == b.stolen + 1
            } else {
                &&& w == m.produced - 1
                &&& steal_result(m, w) is Empty
                &&& n.blocks[w].stolen == b.stolen
            }
        }),
    decreases m.produced - from,
{
    if !m.blocks[from].has_work() {
        if from + 1 < m.produced {
            steal_empties_from_the_oldest(m, from + 1);
        }
        assert(m.blocks[from].stolen == m.blocks[from].committed);
    }
    assert(m.bounded(walk(m, from, m.produced as int)));
}

/// A thief answers what it sees, block by block: it is done with a block only when its top has
/// reached its bottom, it finds the queue empty only at the end of the blocks in use, it retries
/// only when another has claimed the item first, and otherwise it has the item that it has read.
pub proof fn a_thief_answers_what_it_sees<P>(m: BlockMem<P>, s: BlockThief<P>)
    ensures
        ({
            let (n, t) = thief_next(m, s);
            match s {
                BlockThief::Stealing => t matches BlockThief::At { block, limit } && block == 0
                    && limit == m.produced && n == m,
                BlockThief::At { block, limit } => n == m && t == (BlockThief::<P>::SeenTop {
                    block,
                    limit,
                    top: m.blocks[block as int].stolen,
                }),
                BlockThief::SeenTop { block, limit, top } => {
                    &&& n == m
                    &&& top >= m.blocks[block as int].committed ==> t == (BlockThief::<P>::Drained {
                        block,
                        limit,
                    })
                    &&& top < m.blocks[block as int].committed ==> t == (BlockThief::<P>::SeenWork {
                        block,
                        top,
                    })
                },
                BlockThief::Drained { block, limit } => {
                    let last = block + 1 >= if m.growable {
                        m.produced
                    } else {
                        limit
                    };
                    &&& n == m
                    &&& last ==> t == (BlockThief::<P>::Stole { block, got: Steal::Empty })
                    &&& !last ==> t == (BlockThief::<P>::At { block: (block + 1) as usize, limit })
                },
                BlockThief::SeenWork { block, top } => n == m && t == (BlockThief::<P>::SeenItem {
                    block,
                    top,
                    cell: m.blocks[block as int].slots[top as int],
                }),
                BlockThief::SeenItem { block, top, cell } => {
                    let won = m.blocks[block as int].stolen == top;
                    &&& won ==> t == (BlockThief::<P>::Stole {
                        block,
                        got: Steal::Success(cell.unwrap()),
                    })
                    &&& !won ==> n == m && t == (BlockThief::<P>::Stole { block, got: Steal::Retry })
                },
                BlockThief::Stole { block, got } => n == m && t == s,
            }
        }),
{
}

/// The owner answers what it sees: it refuses a value only when no block from its own on has a free
/// slot, it finds the queue empty only in a first block without work, and a pop that loses the race
/// for the last item of a block goes on.
pub proof fn the_owner_answers_what_it_sees<P>(m: BlockMem<P>, s: BlockOwner<P>)
    requires
        m.shaped(),
    ensures
        ({
            let (n, t) = owner_next(m, s);
            let b = m.blocks[m.owner as int];
            match s {
                BlockOwner::Putting { value } => {
                    let refused = !m.growable && forall|i: int|
                        m.owner <= i < m.blocks.len() ==> (#[trigger] m.blocks[i]).committed
                            == m.size;
                    &&& refused ==> n == m && t == BlockOwner::<P>::Put(false)
                    &&& !refused ==> t is PutAt && t->PutAt_value == value
                },
                BlockOwner::PutAt { value, pos } => t == (BlockOwner::<P>::PutWritten { pos }),
                BlockOwner::PutWritten { pos } => t == BlockOwner::<P>::Put(true),
                BlockOwner::Popping => {
                    &&& b.stolen < b.committed ==> n == m && t == (BlockOwner::<P>::PopChecked {
                        bottom: b.committed,
                    })
                    &&& b.stolen >= b.committed ==> {
                        &&& m.owner > 0 ==> t is Popping && n.owner == m.owner - 1
                        &&& m.owner == 0 ==> n == m && t == BlockOwner::<P>::Popped(None)
                    }
                },
                BlockOwner::PopChecked { bottom } => t == (BlockOwner::<P>::PopClaimed { bottom }),
                BlockOwner::PopClaimed { bottom } => n == m && t == (BlockOwner::<P>::PopSeen {
                    bottom,
                    top: b.stolen,
                }),
                BlockOwner::PopSeen { bottom, top } => {
                    &&& top + 1 < bottom ==> t == BlockOwner::Popped(
                        Some(b.slots[bottom - 1].unwrap()),
                    )
                    &&& top + 1 == bottom ==> t == (BlockOwner::PopRace {
                        top,
                        item: b.slots[bottom - 1].unwrap(),
                    })
                    &&& top >= bottom ==> t is Popping
                },
                BlockOwner::PopRace { top, item } => t == (BlockOwner::PopSettle {
                    top,
                    won: if b.stolen == top {
                        Some(item)
                    } else {
                        None
                    },
                }),
                BlockOwner::PopSettle { top, won: Some(item) } => t == BlockOwner::Popped(
                    Some(item),
                ),
                BlockOwner::PopSettle { top, won: None } => t is Popping,
                _ => n == m && t == s,
            }
        }),
{
    if s is Putting {
        lemma_free_block(m, if m.growable { m.produced - 1 } else { m.owner as int });
        assert forall|i: int| m.owner <= i < m.blocks.len() implies (
        #[trigger] m.blocks[i]).committed <= m.size by {
            assert(m.bounded(i));
        }
    }
}

/// A thief that misses nothing, and steals, still misses nothing from where it ended.
pub proof fn steal_keeps_in_sight<P>(m: BlockMem<P>, from: int)
    requires
        m.quiescent(),
        sees_all(m, from),
    ensures
        ({
            let w = walk(m, from, m.produced as int);
            sees_all(steal_mem(m, w), w)
        }),
{
    let w = walk(m, from, m.produced as int);
    lemma_walk(m, from, m.produced as int);
    assert forall|i: int| 0 <= i < w implies !(#[trigger] steal_mem(m, w).blocks[i]).has_work() by {
        assert(!m.blocks[i].has_work());
    }
}

/// Of a growable queue, a block that a thief may pass stays one that it may pass when a value is
/// put: the last block takes it.
pub proof fn put_keeps_passed<P>(m: BlockMem<P>, value: P, passed: int)
    requires
        m.quiescent(),
        m.growable,
        m.blocks.len() < usize::MAX,
        sees_all(m, passed),
    ensures
        sees_all(put_mem(m, value), passed),
{
    lemma_room(m);
    lemma_free_block(m, m.produced - 1);
    assert forall|i: int| 0 <= i < passed implies !(
    #[trigger] put_mem(m, value).blocks[i]).has_work() by {
        assert(!m.blocks[i].has_work());
    }
}

/// A block that a thief may pass stays one that it may pass when a value is popped.
pub proof fn pop_keeps_passed<P>(m: BlockMem<P>, passed: int)
    requires
        m.quiescent(),
        sees_all(m, passed),
    ensures
        sees_all(pop_mem(m), passed),
{
    lemma_back(m, m.owner as int);
    assert forall|i: int| 0 <= i < passed implies !(#[trigger] pop_mem(m).blocks[i]).has_work() by {
        assert(!m.blocks[i].has_work());
    }
}

/// A block that a thief may pass stays one that it may pass when another thief steals.
pub proof fn steal_keeps_passed<P>(m: BlockMem<P>, w: int, passed: int)
    requires
        0 <= w < m.blocks.len(),
        sees_all(m, passed),
        passed < m.blocks.len(),
    ensures
        sees_all(steal_mem(m, w), passed),
{
    assert forall|i: int| 0 <= i < passed implies !(
    #[trigger] steal_mem(m, w).blocks[i]).has_work() by {
        assert(!m.blocks[i].has_work());
    }
}

proof fn lemma_back<P>(m: BlockMem<P>, from: int)
    requires
        0 <= from,
    ensures
        0 <= back_to_work(m, from) <= from,
    decreases from,
{
    if from > 0 && !m.blocks[from].has_work() {
        lemma_back(m, from - 1);
    }
}

/// A value that is put is the newest item.
pub proof fn put_is_the_newest<P>(m: BlockMem<P>, value: P)
    requires
        m.quiescent(),
        can_put(m),
        m.growable ==> m.blocks.len() < usize::MAX,
    ensures
        put_mem(m, value).quiescent(),
        put_mem(m, value).contents() == m.contents().push(value),
{
    lemma_room(m);
    lemma_appended(room(m), value);
}

/// A pop right after a put returns the value and leaves what was there before.
pub proof fn pop_returns_the_newest<P>(m: BlockMem<P>, value: P)
    requires
        m.quiescent(),
        can_put(m),
        m.growable ==> m.blocks.len() < usize::MAX,
    ensures
        pop_result(put_mem(m, value)) == Some(value),
        pop_mem(put_mem(m, value)).contents() == m.contents(),
{
    let r = put_mem(m, value);
    put_is_the_newest(m, value);
    lemma_room(m);
    let o = room(m).owner as int;
    assert(room(m).blocks[o].stolen <= room(m).blocks[o].committed);
    assert(r.own().has_work());
    assert(back(r) == r);
    lemma_take_last(r);
    assert(r.contents().drop_last() =~= m.contents());
}

/// A thief ends at a block.
proof fn lemma_walk_bound<P>(m: BlockMem<P>, from: int, limit: int)
    requires
        m.shaped(),
        0 <= from < m.blocks.len(),
        0 <= limit <= m.blocks.len(),
    ensures
        from <= walk(m, from, limit) < m.blocks.len(),
    decreases m.blocks.len() - from,
{
    if following(m, from, limit) is Some && !m.blocks[from].has_work() {
        lemma_walk_bound(m, from + 1, limit);
    }
}

/// One block.
pub struct Block<P> {
    slots: Vec<Option<P>>,
    committed: usize,
    stolen: usize,
}

impl<P> View for Block<P> {
    type V = BlockState<P>;

    closed spec fn view(&self) -> BlockState<P> {
        BlockState { slots: self.slots@, committed: self.committed, stolen: self.stolen }
    }
}

impl<P> Block<P> {
    /// A block of `size` empty slots.
    pub fn new(size: usize) -> (r: Self)
        ensures
            r@ == fresh_block::<P>(size),
    {
        let mut slots: Vec<Option<P>> = Vec::new();
        while slots.len() < size
            invariant
                slots.len() <= size,
                forall|j: int| 0 <= j < slots.len() ==> (#[trigger] slots@[j]) is None,
            decreases size - slots.len(),
        {
            slots.push(None);
        }
        let r = Block { slots, committed: 0, stolen: 0 };
        assert(r@.slots =~= fresh_block::<P>(size).slots);
        r
    }
}

/// The shared memory of a block-based queue.
pub struct Blocks<P> {
    blocks: Vec<Block<P>>,
    owner: usize,
    produced: usize,
    size: usize,
    growable: bool,
}

impl<P> View for Blocks<P> {
    type V = BlockMem<P>;

    closed spec fn view(&self) -> BlockMem<P> {
        BlockMem {
            blocks: Seq::new(self.blocks@.len(), |i: int| self.blocks@[i]@),
            owner: self.owner,
            produced: self.produced,
            size: self.size,
            growable: self.growable,
        }
    }
}

impl<P: Copy> Blocks<P> {
    /// One step of the owner.
    pub fn owner_step(&mut self, s: BlockOwner<P>) -> (r: BlockOwner<P>)
        requires
            old(self)@.shaped(),
            owner_ready(old(self)@, s),
        ensures
            (final(self)@, r) == owner_next(old(self)@, s),
            final(self)@.shaped(),
    {
        let o = self.owner;
        let ghost m = self@;
        assert(m.bounded(o as int));
        assert(m.blocks[o as int] == self.blocks@[o as int]@);
        let r = match s {
            BlockOwner::Putting { value } => {
                match self.find_target() {
                    Some(n) => {
                        self.owner = n;
                        if self.produced <= n {
                            self.produced = n + 1;
                        }
                        proof {
                            assert(self@ =~= m.entered(n as int));
                            Self::lemma_same_blocks(m, self@);
                        }
                        BlockOwner::PutAt { value, pos: self.blocks[n].committed }
                    },
                    None => {
                        if self.growable {
                            let fresh = self.blocks.len();
                            self.blocks.push(Block::new(self.size));
                            self.owner = fresh;
                            self.produced = fresh + 1;
                            proof {
                                assert(self@.blocks =~= m.extended().blocks);
                                Self::lemma_same_blocks(m, self@);
                            }
                            BlockOwner::PutAt { value, pos: 0 }
                        } else {
                            BlockOwner::Put(false)
                        }
                    },
                }
            },
            BlockOwner::PutAt { value, pos } => {
                self.blocks[o].slots[pos] = Some(value);
                proof {
                    assert(self@.blocks[o as int].slots =~= m.with_item(
                        o as int,
                        pos as int,
                        value,
                    ).blocks[o as int].slots);
                    assert(self@ =~= m.with_item(o as int, pos as int, value));
                    Self::lemma_kept(m, self@, o as int);
                }
                BlockOwner::PutWritten { pos }
            },
            BlockOwner::PutWritten { pos } => {
                self.set_committed(o, pos + 1);
                BlockOwner::Put(true)
            },
            BlockOwner::Put(done) => BlockOwner::Put(done),
            BlockOwner::Popping => {
                let bottom = self.blocks[o].committed;
                if self.blocks[o].stolen < bottom {
                    BlockOwner::PopChecked { bottom }
                } else if o > 0 {
                    self.owner = o - 1;
                    proof {
                        assert(self@ =~= (BlockMem { owner: (o - 1) as usize, ..m }));
                        Self::lemma_same_blocks(m, self@);
                    }
                    BlockOwner::Popping
                } else {
                    BlockOwner::Popped(None)
                }
            },
            BlockOwner::PopChecked { bottom } => {
                self.set_committed(o, bottom - 1);
                BlockOwner::PopClaimed { bottom }
            },
            BlockOwner::PopClaimed { bottom } => BlockOwner::PopSeen {
                bottom,
                top: self.blocks[o].stolen,
            },
            BlockOwner::PopSeen { bottom, top } => {
                if top < bottom - 1 {
                    BlockOwner::Popped(Some(self.blocks[o].slots[bottom - 1].unwrap()))
                } else if top == bottom - 1 {
                    BlockOwner::PopRace { top, item: self.blocks[o].slots[bottom - 1].unwrap() }
                } else {
                    self.set_committed(o, bottom);
                    BlockOwner::Popping
                }
            },
            BlockOwner::PopRace { top, item } => {
                if self.blocks[o].stolen == top {
                    self.set_stolen(o, top + 1);
                    BlockOwner::PopSettle { top, won: Some(item) }
                } else {
                    BlockOwner::PopSettle { top, won: None }
                }
            },
            BlockOwner::PopSettle { top, won } => {
                self.set_committed(o, top + 1);
                match won {
                    Some(item) => BlockOwner::Popped(Some(item)),
                    None => BlockOwner::Popping,
                }
            },
            BlockOwner::Popped(item) => BlockOwner::Popped(item),
        };
        r
    }

    /// The block that takes the next value.
    fn find_target(&self) -> (r: Option<usize>)
        requires
            self@.shaped(),
        ensures
            match r {
                Some(n) => target(self@) == Some(n as int) && n < self@.blocks.len(),
                None => target(self@) is None,
            },
    {
        let mut n = if self.growable {
            self.produced - 1
        } else {
            self.owner
        };
        while n < self.blocks.len()
            invariant
                self@.shaped(),
                0 <= n <= self@.blocks.len(),
                target(self@) == free_block(self@, n as int),
            decreases self@.blocks.len() - n,
        {
            assert(self@.blocks[n as int] == self.blocks@[n as int]@);
            if self.blocks[n].committed < self.size {
                return Some(n);
            }
            n += 1;
        }
        None
    }

    proof fn lemma_same_blocks(m: BlockMem<P>, after: BlockMem<P>)
        requires
            m.shaped(),
            m.size == after.size,
            m.blocks.len() <= after.blocks.len(),
            forall|i: int| 0 <= i < m.blocks.len() ==> #[trigger] after.blocks[i] == m.blocks[i],
            forall|i: int|
                m.blocks.len() <= i < after.blocks.len() ==> #[trigger] after.blocks[i]
                    == fresh_block::<P>(m.size),
        ensures
            forall|i: int| 0 <= i < after.blocks.len() ==> #[trigger] after.bounded(i),
    {
        assert forall|i: int| 0 <= i < after.blocks.len() implies #[trigger] after.bounded(i) by {
            if i < m.blocks.len() {
                assert(m.bounded(i));
                assert(after.blocks[i] == m.blocks[i]);
            } else {
                assert(after.blocks[i] == fresh_block::<P>(m.size));
            }
        }
    }

    proof fn lemma_kept(m: BlockMem<P>, after: BlockMem<P>, k: int)
        requires
            m.shaped(),
            0 <= k < m.blocks.len(),
            after == (BlockMem { blocks: m.blocks.update(k, after.blocks[k]), ..m }),
            after.blocks[k].slots.len() == m.size,
            after.blocks[k].committed <= m.size,
            after.blocks[k].stolen <= m.size,
        ensures
            after.shaped(),
    {
        assert forall|i: int| 0 <= i < after.blocks.len() implies #[trigger] after.bounded(i) by {
            assert(m.bounded(i));
        }
    }

    fn set_committed(&mut self, i: usize, committed: usize)
        requires
            old(self)@.shaped(),
            i < old(self)@.blocks.len(),
            committed <= old(self)@.size,
        ensures
            final(self)@ == old(self)@.with_committed(i as int, committed as int),
            final(self)@.shaped(),
    {
        let ghost m = self@;
        assert(m.bounded(i as int));
        self.blocks[i].committed = committed;
        proof {
            assert(self@ =~= m.with_committed(i as int, committed as int));
            Self::lemma_kept(m, self@, i as int);
        }
    }

    fn set_stolen(&mut self, i: usize, stolen: usize)
        requires
            old(self)@.shaped(),
            i < old(self)@.blocks.len(),
            stolen <= old(self)@.size,
        ensures
            final(self)@ == old(self)@.with_stolen(i as int, stolen as int),
            final(self)@.shaped(),
    {
        let ghost m = self@;
        assert(m.bounded(i as int));
        self.blocks[i].stolen = stolen;
        proof {
            assert(self@ =~= m.with_stolen(i as int, stolen as int));
            Self::lemma_kept(m, self@, i as int);
        }
    }

    /// A bounded queue of `count` blocks of `size` slots.
    pub fn bounded(count: usize, size: usize) -> (r: Self)
        requires
            count >= 2,
            size >= 1,
        ensures
            r@.quiescent(),
            r@ == initial_bounded::<P>(count as int, size),
            r@.contents() == Seq::<P>::empty(),
            r@.blocks.len() == count && r@.size == size && r@.owner == 0 && !r@.growable,
            forall|i: int|
                0 <= i < count ==> (#[trigger] r@.blocks[i]).committed == 0 && r@.blocks[i].stolen
                    == 0,
    {
        let mut blocks: Vec<Block<P>> = Vec::new();
        let mut i: usize = 0;
        while i < count
            invariant
                i == blocks.len(),
                i <= count,
                forall|k: int|
                    0 <= k < i ==> #[trigger] blocks@[k]@ == fresh_block::<P>(size),
            decreases count - i,
        {
            blocks.push(Block::new(size));
            i += 1;
        }
        let r = Blocks { blocks, owner: 0, produced: 1, size, growable: false };
        proof {
            assert(r@ =~= initial_bounded::<P>(count as int, size));
            lemma_unused(r@);
        }
        r
    }

    /// A growable queue with one block of `size` slots.
    pub fn growable(size: usize) -> (r: Self)
        requires
            size >= 1,
        ensures
            r@.quiescent(),
            r@ == initial_growable::<P>(size),
            r@.contents() == Seq::<P>::empty(),
            r@.blocks.len() == 1 && r@.size == size && r@.growable,
            r@.blocks[0].committed == 0 && r@.blocks[0].stolen == 0,
    {
        let mut blocks: Vec<Block<P>> = Vec::new();
        blocks.push(Block::new(size));
        let r = Blocks { blocks, owner: 0, produced: 1, size, growable: true };
        proof {
            assert(r@ =~= initial_growable::<P>(size));
            lemma_unused(r@);
        }
        r
    }

    /// Number of blocks.
    pub fn count(&self) -> (r: usize)
        ensures
            r == self@.blocks.len(),
    {
        self.blocks.len()
    }

    /// Slots in a block.
    pub fn size(&self) -> (r: usize)
        ensures
            r == self@.size,
    {
        self.size
    }

    /// Puts a value, if there is a slot for it.
    pub fn put(&mut self, value: P) -> (r: bool)
        requires
            old(self)@.quiescent(),
            old(self)@.growable ==> old(self)@.blocks.len() < usize::MAX,
        ensures
            final(self)@.quiescent(),
            r == can_put(old(self)@),
            r <==> old(self)@.growable || exists|i: int|
                old(self)@.owner <= i < old(self)@.blocks.len() && (
                #[trigger] old(self)@.blocks[i]).committed < old(self)@.size,
            final(self)@ == if r {
                put_mem(old(self)@, value)
            } else {
                old(self)@
            },
            final(self)@.contents() == if r {
                old(self)@.contents().push(value)
            } else {
                old(self)@.contents()
            },
    {
        let ghost m = self@;
        proof {
            lemma_free_block(m, if m.growable { m.produced - 1 } else { m.owner as int });
        }
        let s = self.owner_step(BlockOwner::Putting { value });
        if let BlockOwner::Put(done) = s {
            return done;
        }
        proof {
            lemma_room(m);
            lemma_appended(room(m), value);
        }
        let s = self.owner_step(s);
        let s = self.owner_step(s);
        true
    }

    /// Takes the newest item.
    pub fn pop(&mut self) -> (r: Option<P>)
        requires
            old(self)@.quiescent(),
        ensures
            final(self)@.quiescent(),
            r == pop_result(old(self)@),
            final(self)@ == pop_mem(old(self)@),
            old(self)@.contents().len() == 0 ==> r is None && final(self)@.contents()
                == old(self)@.contents(),
            old(self)@.contents().len() > 0 ==> r == Some(old(self)@.contents().last())
                && final(self)@.contents() == old(self)@.contents().drop_last(),
    {
        let ghost m = self@;
        let mut s = BlockOwner::Popping;
        loop
            invariant
                m == old(self)@,
                self@.quiescent(),
                s is Popping,
                self@ == (BlockMem { owner: self@.owner, ..m }),
                back_to_work(m, self@.owner as int) == back_to_work(m, m.owner as int),
                self@.contents() == m.contents(),
            ensures
                self@.own().has_work(),
            decreases self@.owner,
        {
            let ghost before = self@;
            let next = self.owner_step(s);
            match next {
                BlockOwner::Popping => {
                    proof {
                        lemma_step_back(before);
                    }
                    s = next;
                },
                BlockOwner::Popped(item) => {
                    proof {
                        lemma_all_drained(before);
                    }
                    return item;
                },
                _ => {
                    break;
                },
            }
        }
        let ghost found = self@;
        proof {
            lemma_take_last(found);
            assert(found.filled(found.owner as int));
            assert(found.bounded(found.owner as int));
            assert(back_to_work(m, found.owner as int) == found.owner);
            assert(found == back(m));
        }
        let s = self.owner_step(BlockOwner::Popping);
        let s = self.owner_step(s);
        let s = self.owner_step(s);
        let s = self.owner_step(s);
        if let BlockOwner::Popped(item) = s {
            return item;
        }
        let s = self.owner_step(s);
        let s = self.owner_step(s);
        proof {
            assert(self@ =~= take_last(found));
        }
        if let BlockOwner::Popped(item) = s {
            item
        } else {
            None
        }
    }

    /// Takes the oldest item of the first block with work on the way from block `from`, and says
    /// where the way ended. A thief of a bounded queue looks at the blocks in use.
    pub fn steal_from(&mut self, from: usize) -> (r: (Steal<P>, usize))
        requires
            old(self)@.quiescent(),
            from < old(self)@.produced,
        ensures
            final(self)@.quiescent(),
            r.1 == walk(old(self)@, from as int, old(self)@.produced as int),
            r.1 < old(self)@.blocks.len(),
            r.0 == steal_result(old(self)@, r.1 as int),
            final(self)@ == steal_mem(old(self)@, r.1 as int),
            sees_all(old(self)@, from as int) ==> if old(self)@.contents().len() == 0 {
                r.0 is Empty && final(self)@.contents() == old(self)@.contents()
            } else {
                r.0 == Steal::Success(old(self)@.contents()[0]) && final(self)@.contents()
                    == old(self)@.contents().drop_first()
            },
    {
        let ghost m = self@;
        let limit = self.produced;
        let mut block = from;
        proof {
            lemma_walk_bound(m, from as int, limit as int);
            if sees_all(m, from as int) {
                lemma_walk(m, from as int, limit as int);
            }
        }
        loop
            invariant
                m == old(self)@,
                self@ == m,
                m.quiescent(),
                limit == m.produced,
                from < m.produced,
                block < m.blocks.len(),
                walk(m, block as int, limit as int) == walk(m, from as int, limit as int),
                sees_all(m, from as int) ==> {
                    let w = walk(m, from as int, limit as int);
                    &&& sees_all(m, w)
                    &&& !m.blocks[w].has_work() ==> m.contents() == Seq::<P>::empty()
                },
            decreases m.blocks.len() - block,
        {
            assert(m.bounded(block as int));
            let s = self.thief_step(BlockThief::At { block, limit });
            let s = self.thief_step(s);
            if let BlockThief::Drained { block: b, limit: l } = s {
                match self.thief_step(s) {
                    BlockThief::At { block: n, limit: l } => {
                        block = n;
                    },
                    _ => {
                        return (Steal::Empty, block);
                    },
                }
            } else {
                proof {
                    lemma_take_first(m, block as int);
                }
                let s = self.thief_step(s);
                let s = self.thief_step(s);
                if let BlockThief::Stole { block: b, got } = s {
                    return (got, block);
                }
            }
        }
    }

    /// One step of a thief.
    pub fn thief_step(&mut self, s: BlockThief<P>) -> (r: BlockThief<P>)
        requires
            old(self)@.shaped(),
            thief_ready(old(self)@, s),
        ensures
            (final(self)@, r) == thief_next(old(self)@, s),
            final(self)@.shaped(),
    {
        match s {
            BlockThief::Stealing => BlockThief::At { block: 0, limit: self.produced },
            BlockThief::At { block, limit } => BlockThief::SeenTop {
                block,
                limit,
                top: self.blocks[block].stolen,
            },
            BlockThief::SeenTop { block, limit, top } => {
                if top < self.blocks[block].committed {
                    BlockThief::SeenWork { block, top }
                } else {
                    BlockThief::Drained { block, limit }
                }
            },
            BlockThief::Drained { block, limit } => {
                let end = if self.growable {
                    self.produced
                } else {
                    limit
                };
                if block < end && block + 1 < end {
                    BlockThief::At { block: block + 1, limit }
                } else {
                    BlockThief::Stole { block, got: Steal::Empty }
                }
            },
            BlockThief::SeenWork { block, top } => {
                assert(self@.bounded(block as int));
                assert(self@.blocks[block as int] == self.blocks@[block as int]@);
                BlockThief::SeenItem { block, top, cell: self.blocks[block].slots[top] }
            },
            BlockThief::SeenItem { block, top, cell } => {
                if self.blocks[block].stolen == top {
                    self.set_stolen(block, top + 1);
                    BlockThief::Stole { block, got: Steal::Success(cell.unwrap()) }
                } else {
                    BlockThief::Stole { block, got: Steal::Retry }
                }
            },
            BlockThief::Stole { block, got } => BlockThief::Stole { block, got },
        }
    }
}

} // verus!
