//! Delivery of a block-based queue under every interleaving.
//!
//! A [`BlockWorld`] is a queue of blocks in use: its shared memory, where the owner and each of
//! any number of thieves stand, and what has been put and taken so far. [`exact_once`] proves, of
//! every schedule, that what was put is what was taken and what is still there, each item as often
//! as it was put; [`ends_are_kept`] that thieves take the oldest item of a block and the owner works
//! at the other end; [`sealed_for_good`] that a block which a thief of a growable queue has passed
//! gets nothing more. Steps are taken to be atomic and in one order seen by all.

use vstd::prelude::*;

use vstd::multiset::Multiset;

use crate::blocks;
use crate::blocks::{BlockMem, BlockOwner, BlockThief};
use crate::steal::Steal;
use crate::windows;

verus! {

/// A queue of blocks in use.
pub struct BlockWorld<P> {
    pub mem: BlockMem<P>,
    pub owner: BlockOwner<P>,
    pub thieves: Seq<BlockThief<P>>,
    pub put: Multiset<P>,
    pub taken: Multiset<P>,
}

/// What can happen next in a queue of blocks in use.
pub enum BlockEvent<P> {
    /// The idle owner starts to put a value.
    BeginPut { value: P },
    /// The idle owner starts to pop.
    BeginPop,
    /// The owner makes one step.
    Owner,
    /// An idle thief starts to steal, from the first block.
    BeginSteal { thief: int },
    /// An idle thief of a growable queue starts to steal, from a block that it remembers.
    BeginStealAt { thief: int, block: usize },
    /// A thief makes one step.
    Thief { thief: int },
}

/// The owner is between operations.
pub open spec fn owner_idle<P>(s: BlockOwner<P>) -> bool {
    s is Put || s is Popped
}

/// The bottom of the owner's block, with the item that it has claimed and may still lose.
pub open spec fn end_of<P>(m: BlockMem<P>, s: BlockOwner<P>) -> int {
    match s {
        BlockOwner::PopClaimed { bottom } => bottom as int,
        BlockOwner::PopSeen { bottom, top } => if top < bottom - 1 {
            bottom - 1
        } else {
            bottom as int
        },
        BlockOwner::PopRace { top, item } => top + 1,
        BlockOwner::PopSettle { top, won } => top + 1,
        _ => m.own().committed as int,
    }
}

/// What a step of the owner accepts.
pub open spec fn accepted<P>(before: BlockOwner<P>, after: BlockOwner<P>) -> Multiset<P> {
    match (before, after) {
        (BlockOwner::Putting { value }, BlockOwner::PutAt { value: _, pos }) => Multiset::singleton(
            value,
        ),
        _ => Multiset::empty(),
    }
}

/// What a step of the owner delivers.
pub open spec fn delivered_by_owner<P>(before: BlockOwner<P>, after: BlockOwner<P>) -> Multiset<
    P,
> {
    match (before, after) {
        (BlockOwner::Popped(_), _) => Multiset::empty(),
        (_, BlockOwner::Popped(Some(item))) => Multiset::singleton(item),
        _ => Multiset::empty(),
    }
}

/// What a step of a thief delivers.
pub open spec fn delivered_by_thief<P>(before: BlockThief<P>, after: BlockThief<P>) -> Multiset<
    P,
> {
    match (before, after) {
        (BlockThief::Stole { .. }, _) => Multiset::empty(),
        (_, BlockThief::Stole { block, got: Steal::Success(item) }) => Multiset::singleton(item),
        _ => Multiset::empty(),
    }
}

impl<P> BlockWorld<P> {
    /// The bottom of block `i`, with an item that the owner has claimed and may still lose.
    pub open spec fn end(self, i: int) -> int {
        if i == self.mem.owner {
            end_of(self.mem, self.owner)
        } else {
            self.mem.blocks[i].committed as int
        }
    }

    /// The items of each block, from the oldest to the newest.
    pub open spec fn items(self) -> Seq<Seq<P>> {
        self.mem.pieces(end_of(self.mem, self.owner))
    }

    /// The items in the queue, from the oldest to the newest.
    pub open spec fn live(self) -> Seq<P> {
        windows::concat(self.items())
    }

    /// The item in the hands of the owner: one that is not published yet, or one that it has
    /// claimed and not returned yet.
    pub open spec fn in_hand(self) -> Multiset<P> {
        match self.owner {
            BlockOwner::PutAt { value, pos } => Multiset::singleton(value),
            BlockOwner::PutWritten { pos } => Multiset::singleton(
                self.mem.own().slots[pos as int].unwrap(),
            ),
            BlockOwner::PopSeen { bottom, top } => if top < bottom - 1 {
                Multiset::singleton(self.mem.own().slots[bottom - 1].unwrap())
            } else {
                Multiset::empty()
            },
            BlockOwner::PopSettle { top, won: Some(item) } => Multiset::singleton(item),
            _ => Multiset::empty(),
        }
    }

    /// Nothing is lost and nothing is duplicated: what was put is what was taken, what is in the
    /// queue and what the owner holds.
    pub open spec fn conserved(self) -> bool {
        self.put == self.taken.add(self.in_hand()).add(self.live().to_multiset())
    }

    /// The next step of every party is safe: no slot that does not exist is read, and no empty
    /// slot is claimed.
    pub open spec fn safe(self) -> bool {
        &&& blocks::owner_ready(self.mem, self.owner)
        &&& forall|i: int|
            0 <= i < self.thieves.len() ==> blocks::thief_ready(
                self.mem,
                #[trigger] self.thieves[i],
            )
    }

    /// The machine has room for one more block.
    pub open spec fn within_limits(self) -> bool {
        self.mem.growable ==> self.mem.blocks.len() < usize::MAX
    }

    /// An empty queue that nobody is using.
    pub open spec fn initial(self) -> bool {
        &&& self.mem.quiescent()
        &&& self.mem.contents() == Seq::<P>::empty()
        &&& owner_idle(self.owner)
        &&& forall|i: int|
            0 <= i < self.thieves.len() ==> (#[trigger] self.thieves[i]) is Stole
        &&& self.put == self.taken
    }

    /// Whether an event can happen.
    pub open spec fn enabled(self, e: BlockEvent<P>) -> bool {
        &&& self.within_limits()
        &&& match e {
            BlockEvent::BeginPut { value } => owner_idle(self.owner),
            BlockEvent::BeginPop => owner_idle(self.owner),
            BlockEvent::Owner => true,
            BlockEvent::BeginSteal { thief } => 0 <= thief < self.thieves.len()
                && self.thieves[thief] is Stole,
            BlockEvent::BeginStealAt { thief, block } => {
                &&& 0 <= thief < self.thieves.len()
                &&& self.thieves[thief] is Stole
                &&& self.mem.growable
                &&& block < self.mem.produced
            },
            BlockEvent::Thief { thief } => 0 <= thief < self.thieves.len(),
        }
    }

    /// The world after an event.
    pub open spec fn after(self, e: BlockEvent<P>) -> BlockWorld<P> {
        match e {
            BlockEvent::BeginPut { value } => BlockWorld {
                owner: BlockOwner::Putting { value },
                ..self
            },
            BlockEvent::BeginPop => BlockWorld { owner: BlockOwner::Popping, ..self },
            BlockEvent::Owner => {
                let (mem, owner) = blocks::owner_next(self.mem, self.owner);
                BlockWorld {
                    mem,
                    owner,
                    put: self.put.add(accepted(self.owner, owner)),
                    taken: self.taken.add(delivered_by_owner(self.owner, owner)),
                    ..self
                }
            },
            BlockEvent::BeginSteal { thief } => BlockWorld {
                thieves: self.thieves.update(thief, BlockThief::Stealing),
                ..self
            },
            BlockEvent::BeginStealAt { thief, block } => BlockWorld {
                thieves: self.thieves.update(
                    thief,
                    BlockThief::At { block, limit: self.mem.produced },
                ),
                ..self
            },
            BlockEvent::Thief { thief } => {
                let (mem, next) = blocks::thief_next(self.mem, self.thieves[thief]);
                BlockWorld {
                    mem,
                    thieves: self.thieves.update(thief, next),
                    taken: self.taken.add(delivered_by_thief(self.thieves[thief], next)),
                    ..self
                }
            },
        }
    }

    /// What the owner knows.
    pub open spec fn owner_inv(self) -> bool {
        let m = self.mem;
        let b = m.own();
        match self.owner {
            BlockOwner::PutAt { value, pos } => {
                &&& pos < m.size
                &&& pos == b.committed
                &&& m.growable ==> m.owner == m.produced - 1
            },
            BlockOwner::PutWritten { pos } => {
                &&& pos < m.size
                &&& pos == b.committed
                &&& m.growable ==> m.owner == m.produced - 1
                &&& b.slots[pos as int] is Some
            },
            BlockOwner::PopChecked { bottom } => {
                &&& 0 < bottom <= m.size
                &&& bottom == b.committed
                &&& b.stolen <= bottom
            },
            BlockOwner::PopClaimed { bottom } => {
                &&& 0 < bottom <= m.size
                &&& bottom == b.committed + 1
                &&& b.stolen <= bottom
                &&& b.slots[bottom - 1] is Some
            },
            BlockOwner::PopSeen { bottom, top } => {
                &&& 0 < bottom <= m.size
                &&& bottom == b.committed + 1
                &&& top <= b.stolen <= bottom
                &&& top < bottom - 1 ==> b.stolen <= bottom - 1
                &&& b.slots[bottom - 1] is Some
            },
            BlockOwner::PopRace { top, item } => {
                &&& top < m.size
                &&& top == b.committed
                &&& top <= b.stolen <= top + 1
                &&& b.slots[top as int] == Some(item)
            },
            BlockOwner::PopSettle { top, won } => {
                &&& top < m.size
                &&& top == b.committed
                &&& b.stolen == top + 1
                &&& b.slots[top as int] is Some
            },
            _ => true,
        }
    }

    /// What a thief knows: nothing of an index that the top of its block has passed, and that
    /// the item at an index which the top has not passed is still there.
    pub open spec fn thief_inv(self, s: BlockThief<P>) -> bool {
        let m = self.mem;
        match s {
            BlockThief::Stealing => true,
            BlockThief::At { block, limit } => block < m.blocks.len() && limit <= m.blocks.len(),
            BlockThief::SeenTop { block, limit, top } => {
                &&& block < m.blocks.len()
                &&& limit <= m.blocks.len()
                &&& top <= m.blocks[block as int].stolen
            },
            BlockThief::Drained { block, limit } => block < m.blocks.len() && limit
                <= m.blocks.len(),
            BlockThief::SeenWork { block, top } => {
                &&& block < m.blocks.len()
                &&& top < m.size
                &&& top <= m.blocks[block as int].stolen
                &&& top == m.blocks[block as int].stolen ==> top < self.end(block as int)
            },
            BlockThief::SeenItem { block, top, cell } => {
                &&& block < m.blocks.len()
                &&& top < m.size
                &&& top <= m.blocks[block as int].stolen
                &&& top == m.blocks[block as int].stolen ==> {
                    &&& top < self.end(block as int)
                    &&& cell == m.blocks[block as int].slots[top as int]
                }
            },
            BlockThief::Stole { block, got } => true,
        }
    }

    /// The top of block `i` is never ahead of its bottom.
    pub open spec fn ordered(self, i: int) -> bool {
        self.mem.blocks[i].stolen <= self.end(i)
    }

    /// The shared memory in use.
    pub open spec fn mem_inv(self) -> bool {
        let m = self.mem;
        &&& m.shaped()
        &&& m.tidy()
        &&& forall|i: int| 0 <= i < m.blocks.len() ==> #[trigger] m.filled(i)
        &&& forall|i: int| 0 <= i < m.blocks.len() ==> #[trigger] self.ordered(i)
    }

    /// The invariant that every event keeps.
    pub open spec fn inv(self) -> bool {
        &&& self.mem_inv()
        &&& self.owner_inv()
        &&& forall|i: int| 0 <= i < self.thieves.len() ==> self.thief_inv(#[trigger] self.thieves[i])
        &&& self.conserved()
    }
}

/// Whether every event of a schedule can happen when its turn comes.
pub open spec fn possible<P>(w: BlockWorld<P>, schedule: Seq<BlockEvent<P>>) -> bool
    decreases schedule.len(),
{
    if schedule.len() == 0 {
        true
    } else {
        &&& possible(w, schedule.drop_last())
        &&& outcome(w, schedule.drop_last()).enabled(schedule.last())
    }
}

/// The world after a schedule.
pub open spec fn outcome<P>(w: BlockWorld<P>, schedule: Seq<BlockEvent<P>>) -> BlockWorld<P>
    decreases schedule.len(),
{
    if schedule.len() == 0 {
        w
    } else {
        outcome(w, schedule.drop_last()).after(schedule.last())
    }
}

proof fn lemma_safe<P>(w: BlockWorld<P>)
    requires
        w.inv(),
        w.within_limits(),
    ensures
        w.safe(),
{
    let m = w.mem;
    assert(m.bounded(m.owner as int) && m.filled(m.owner as int));
    assert forall|i: int| 0 <= i < w.thieves.len() implies blocks::thief_ready(
        m,
        #[trigger] w.thieves[i],
    ) by {
        assert(w.thief_inv(w.thieves[i]));
        match w.thieves[i] {
            BlockThief::SeenItem { block, top, cell } => {
                assert(m.filled(block as int));
            },
            _ => {},
        }
    }
}

/// Only block `k` changes.
proof fn lemma_block_changed<P>(w: BlockWorld<P>, n: BlockWorld<P>, k: int)
    requires
        w.inv(),
        0 <= k < w.mem.blocks.len(),
        n.mem == (BlockMem { blocks: w.mem.blocks.update(k, n.mem.blocks[k]), ..w.mem }),
        k <= w.mem.owner || !n.mem.blocks[k].has_work(),
        n.mem.bounded(k),
        n.mem.filled(k),
        n.ordered(k),
        k == w.mem.owner || end_of(n.mem, n.owner) == end_of(w.mem, w.owner),
    ensures
        n.mem_inv(),
        n.items() == w.items().update(
            k,
            n.mem.blocks[k].window(n.end(k)),
        ),
        n.live().to_multiset().add(w.mem.blocks[k].window(w.end(k)).to_multiset())
            == w.live().to_multiset().add(n.mem.blocks[k].window(n.end(k)).to_multiset()),
{
    let m = w.mem;
    let after = n.mem;
    assert forall|i: int|
        #![trigger after.settled(i)]
        #![trigger after.bounded(i)]
        #![trigger after.filled(i)]
        0 <= i < after.blocks.len() implies after.settled(i) && after.bounded(i) && after.filled(
        i,
    ) by {
        assert(m.settled(i) && m.bounded(i) && m.filled(i));
    }
    assert forall|i: int| 0 <= i < after.blocks.len() implies #[trigger] n.ordered(
        i,
    ) by {
        assert(w.ordered(i));
    }
    let pieces = w.items();
    let piece = after.blocks[k].window(n.end(k));
    assert(n.items() =~= pieces.update(k, piece));
    windows::lemma_concat_update(pieces, k, piece);
}

/// The items of all blocks stay when those of the changed block do.
proof fn lemma_block_kept<P>(w: BlockWorld<P>, n: BlockWorld<P>, k: int)
    requires
        w.mem.blocks.len() == n.mem.blocks.len(),
        0 <= k < w.mem.blocks.len(),
        n.items() == w.items().update(
            k,
            n.mem.blocks[k].window(n.end(k)),
        ),
        n.mem.blocks[k].window(n.end(k)) == w.mem.blocks[k].window(w.end(k)),
    ensures
        n.live() == w.live(),
{
    assert(n.items() =~= w.items());
}

proof fn lemma_thief<P>(w: BlockWorld<P>, thief: int)
    requires
        w.inv(),
        w.enabled(BlockEvent::Thief { thief }),
    ensures
        w.after(BlockEvent::Thief { thief }).inv(),
{
    let n = w.after(BlockEvent::Thief { thief });
    let m = w.mem;
    let s = w.thieves[thief];
    lemma_safe(w);
    assert(w.thief_inv(s));
    match s {
        BlockThief::SeenItem { block, top, cell } if m.blocks[block as int].stolen == top => {
            let k = block as int;
            assert(m.bounded(k) && m.filled(k) && m.settled(k));
            assert(blocks::thief_ready(m, s));
            assert(w.ordered(k));
            assert(n.mem =~= (BlockMem { blocks: m.blocks.update(k, n.mem.blocks[k]), ..m }));
            lemma_block_changed(w, n, k);
            let before = m.blocks[k].window(w.end(k));
            let after = n.mem.blocks[k].window(n.end(k));
            assert(after =~= before.drop_first());
            assert(before.drop_first() =~= before.remove(0));
            broadcast use vstd::seq_lib::group_to_multiset_ensures;

            assert(before.contains(before[0]));
            assert(after.to_multiset() == before.to_multiset().remove(before[0]));
            assert(cell.unwrap() == before[0]);
            assert forall|i: int| 0 <= i < n.thieves.len() implies n.thief_inv(
                #[trigger] n.thieves[i],
            ) by {
                assert(w.thief_inv(w.thieves[i]));
            }
            assert(n.in_hand() == w.in_hand());
            let x = before[0];
            assert(before.to_multiset() =~= after.to_multiset().add(Multiset::singleton(x)));
            lemma_moved(
                w.live().to_multiset(),
                n.live().to_multiset(),
                before.to_multiset(),
                after.to_multiset(),
                x,
            );
            assert(n.put =~= n.taken.add(n.in_hand()).add(n.live().to_multiset()));
        },
        _ => {
            assert(n.mem == m);
            match s {
                BlockThief::SeenTop { block, limit, top } => {
                    assert(m.bounded(block as int));
                },
                _ => {},
            }
            assert forall|i: int| 0 <= i < n.thieves.len() implies n.thief_inv(
                #[trigger] n.thieves[i],
            ) by {
                assert(w.thief_inv(w.thieves[i]));
            }
            assert forall|i: int| 0 <= i < m.blocks.len() implies
                #[trigger] n.ordered(i) by {
                assert(w.ordered(i));
            }
            assert(n.taken =~= w.taken);
        },
    }
}

/// If one item leaves a block, it leaves the queue.
proof fn lemma_moved<P>(
    live: Multiset<P>,
    rest: Multiset<P>,
    block: Multiset<P>,
    block_rest: Multiset<P>,
    x: P,
)
    requires
        rest.add(block) == live.add(block_rest),
        block == block_rest.add(Multiset::singleton(x)),
    ensures
        live == rest.add(Multiset::singleton(x)),
{
    assert forall|p: P| live.count(p) == rest.add(Multiset::singleton(x)).count(p) by {
        let one = Multiset::singleton(x);
        assert(rest.add(block).count(p) == rest.count(p) + block.count(p));
        assert(live.add(block_rest).count(p) == live.count(p) + block_rest.count(p));
        assert(block_rest.add(one).count(p) == block_rest.count(p) + one.count(p));
        assert(rest.add(one).count(p) == rest.count(p) + one.count(p));
    }
    assert(live =~= rest.add(Multiset::singleton(x)));
}

/// What every thief knows is kept by a step of the owner that moves no top, that lowers the end
/// of its block at most past an item that no thief can reach, and that overwrites no item.
proof fn lemma_thieves_kept<P>(w: BlockWorld<P>, n: BlockWorld<P>)
    requires
        w.inv(),
        n.thieves == w.thieves,
        n.mem.size == w.mem.size,
        w.mem.blocks.len() <= n.mem.blocks.len(),
        forall|i: int|
            0 <= i < w.mem.blocks.len() ==> (#[trigger] n.mem.blocks[i]).stolen
                >= w.mem.blocks[i].stolen,
        forall|i: int|
            0 <= i < w.mem.blocks.len() && (#[trigger] n.mem.blocks[i]).stolen
                == w.mem.blocks[i].stolen && w.mem.blocks[i].stolen < w.end(i) ==> {
                &&& n.mem.blocks[i].stolen < n.end(i)
                &&& n.mem.blocks[i].slots[n.mem.blocks[i].stolen as int]
                    == w.mem.blocks[i].slots[n.mem.blocks[i].stolen as int]
            },
    ensures
        forall|i: int| 0 <= i < n.thieves.len() ==> n.thief_inv(#[trigger] n.thieves[i]),
{
    assert forall|i: int| 0 <= i < n.thieves.len() implies n.thief_inv(
        #[trigger] n.thieves[i],
    ) by {
        assert(w.thief_inv(w.thieves[i]));
        match w.thieves[i] {
            BlockThief::SeenTop { block, limit, top } => {
                assert(n.mem.blocks[block as int].stolen >= w.mem.blocks[block as int].stolen);
            },
            BlockThief::SeenWork { block, top } => {
                assert(n.mem.blocks[block as int].stolen >= w.mem.blocks[block as int].stolen);
            },
            BlockThief::SeenItem { block, top, cell } => {
                assert(n.mem.blocks[block as int].stolen >= w.mem.blocks[block as int].stolen);
            },
            _ => {},
        }
    }
}

/// The memory is between operations as far as the owner is concerned.
proof fn lemma_quiescent<P>(w: BlockWorld<P>)
    requires
        w.mem_inv(),
        end_of(w.mem, w.owner) == w.mem.own().committed,
    ensures
        w.mem.quiescent(),
        w.live() == w.mem.contents(),
{
    let m = w.mem;
    assert forall|i: int| 0 <= i < m.blocks.len() implies (
    #[trigger] m.blocks[i]).stolen <= m.blocks[i].committed by {
        assert(w.ordered(i));
    }
}

#[verifier::rlimit(40)]
proof fn lemma_owner_put<P>(w: BlockWorld<P>)
    requires
        w.inv(),
        w.enabled(BlockEvent::Owner),
        w.owner is Putting || w.owner is PutAt || w.owner is PutWritten,
    ensures
        w.after(BlockEvent::Owner).inv(),
{
    let n = w.after(BlockEvent::Owner);
    let m = w.mem;
    let o = m.owner as int;
    lemma_safe(w);
    assert(m.bounded(o) && m.filled(o) && m.settled(o));
    assert(w.ordered(o));
    let before = m.own().window(w.end(o));
    match w.owner {
        BlockOwner::Putting { value } => {
            lemma_quiescent(w);
            if blocks::can_put(m) {
                blocks::lemma_room(m);
                blocks::lemma_free_block(
                    m,
                    if m.growable {
                        m.produced - 1
                    } else {
                        m.owner as int
                    },
                );
                assert(n.mem == blocks::room(m));
                assert forall|i: int| 0 <= i < n.mem.blocks.len() implies
                    #[trigger] n.ordered(i) by {
                    assert(n.mem.blocks[i].stolen <= n.mem.blocks[i].committed);
                }
                assert forall|i: int| 0 <= i < m.blocks.len() implies (
                #[trigger] n.mem.blocks[i]).stolen == m.blocks[i].stolen && n.mem.blocks[i].slots
                    == m.blocks[i].slots && n.end(i) == w.end(i) by {}
                lemma_thieves_kept(w, n);
                assert(n.taken =~= w.taken);
                assert(n.live() == w.live());
                assert(n.put =~= n.taken.add(n.in_hand()).add(n.live().to_multiset()));
            } else {
                lemma_stutter(w, n);
            }
        },
        BlockOwner::PutAt { value, pos } => {
            assert(n.mem =~= (BlockMem { blocks: m.blocks.update(o, n.mem.blocks[o]), ..m }));
            lemma_block_changed(w, n, o);
            assert(n.mem.own().window(n.end(o)) =~= before);
            lemma_block_kept(w, n, o);
            lemma_thieves_kept(w, n);
            assert(n.taken =~= w.taken);
            assert(n.put =~= w.put);
        },
        BlockOwner::PutWritten { pos } => {
            assert(n.mem =~= (BlockMem { blocks: m.blocks.update(o, n.mem.blocks[o]), ..m }));
            lemma_block_changed(w, n, o);
            let after = n.mem.own().window(n.end(o));
            let value = m.own().slots[pos as int].unwrap();
            assert(after =~= before.push(value));
            broadcast use vstd::seq_lib::group_to_multiset_ensures;

            assert(after.to_multiset() == before.to_multiset().insert(value));
            lemma_moved(
                n.live().to_multiset(),
                w.live().to_multiset(),
                after.to_multiset(),
                before.to_multiset(),
                value,
            );
            lemma_thieves_kept(w, n);
            assert(n.conserved()) by {
                assert(n.put =~= n.taken.add(n.in_hand()).add(n.live().to_multiset()));
            }
        },
        _ => {},
    }
}

#[verifier::rlimit(40)]
proof fn lemma_owner_pop<P>(w: BlockWorld<P>)
    requires
        w.inv(),
        w.enabled(BlockEvent::Owner),
        !(w.owner is Putting || w.owner is PutAt || w.owner is PutWritten),
    ensures
        w.after(BlockEvent::Owner).inv(),
{
    let n = w.after(BlockEvent::Owner);
    let m = w.mem;
    let o = m.owner as int;
    lemma_safe(w);
    assert(m.bounded(o) && m.filled(o) && m.settled(o));
    assert(w.ordered(o));
    let before = m.own().window(w.end(o));
    match w.owner {
        BlockOwner::Popping => {
            if m.own().has_work() {
                lemma_stutter(w, n);
            } else {
                if m.owner > 0 {
                    lemma_quiescent(w);
                    blocks::lemma_step_back(m);
                    assert forall|i: int| 0 <= i < n.mem.blocks.len() implies
                        #[trigger] n.ordered(i) by {
                        assert(n.mem.blocks[i].stolen <= n.mem.blocks[i].committed);
                    }
                    lemma_thieves_kept(w, n);
                    assert(n.live() == w.live());
                    assert(n.taken =~= w.taken);
                    assert(n.put =~= w.put);
                } else {
                    lemma_stutter(w, n);
                }
            }
        },
        BlockOwner::PopChecked { bottom } => {
            assert(n.mem =~= (BlockMem { blocks: m.blocks.update(o, n.mem.blocks[o]), ..m }));
            assert(m.own().slots[bottom - 1] is Some);
            lemma_block_changed(w, n, o);
            assert(n.mem.own().window(n.end(o)) =~= before);
            lemma_block_kept(w, n, o);
            lemma_thieves_kept(w, n);
            assert(n.taken =~= w.taken);
            assert(n.put =~= w.put);
        },
        BlockOwner::PopClaimed { bottom } => {
            let top = m.own().stolen;
            if top < bottom - 1 {
                assert(n.mem =~= (BlockMem { blocks: m.blocks.update(o, n.mem.blocks[o]), ..m }));
                lemma_block_changed(w, n, o);
                let after = n.mem.own().window(n.end(o));
                let value = m.own().slots[bottom - 1].unwrap();
                assert(before =~= after.push(value));
                broadcast use vstd::seq_lib::group_to_multiset_ensures;

                assert(before.to_multiset() == after.to_multiset().insert(value));
                lemma_moved(
                    w.live().to_multiset(),
                    n.live().to_multiset(),
                    before.to_multiset(),
                    after.to_multiset(),
                    value,
                );
                lemma_thieves_kept(w, n);
                assert(n.put =~= n.taken.add(n.in_hand()).add(n.live().to_multiset()));
            } else {
                lemma_stutter(w, n);
            }
        },
        BlockOwner::PopSeen { bottom, top } => {
            if top < bottom - 1 {
                lemma_same_memory(w, n);
                assert(n.put =~= n.taken.add(n.in_hand()).add(n.live().to_multiset()));
            } else if top == bottom - 1 {
                lemma_stutter(w, n);
            } else {
                assert(n.mem =~= (BlockMem { blocks: m.blocks.update(o, n.mem.blocks[o]), ..m }));
                lemma_block_changed(w, n, o);
                assert(n.mem.own().window(n.end(o)) =~= before);
                lemma_block_kept(w, n, o);
                lemma_thieves_kept(w, n);
                assert(n.taken =~= w.taken);
                assert(n.put =~= w.put);
            }
        },
        BlockOwner::PopRace { top, item } => {
            if m.own().stolen == top {
                assert(n.mem =~= (BlockMem { blocks: m.blocks.update(o, n.mem.blocks[o]), ..m }));
                lemma_block_changed(w, n, o);
                let after = n.mem.own().window(n.end(o));
                assert(before =~= after.push(item));
                broadcast use vstd::seq_lib::group_to_multiset_ensures;

                assert(before.to_multiset() == after.to_multiset().insert(item));
                lemma_moved(
                    w.live().to_multiset(),
                    n.live().to_multiset(),
                    before.to_multiset(),
                    after.to_multiset(),
                    item,
                );
                lemma_thieves_kept(w, n);
                assert(n.put =~= n.taken.add(n.in_hand()).add(n.live().to_multiset()));
            } else {
                lemma_stutter(w, n);
            }
        },
        BlockOwner::PopSettle { top, won } => {
            assert(n.mem =~= (BlockMem { blocks: m.blocks.update(o, n.mem.blocks[o]), ..m }));
            lemma_block_changed(w, n, o);
            assert(n.mem.own().window(n.end(o)) =~= before);
            lemma_block_kept(w, n, o);
            lemma_thieves_kept(w, n);
            assert(n.put =~= n.taken.add(n.in_hand()).add(n.live().to_multiset()));
        },
        _ => {
            lemma_stutter(w, n);
        },
    }
}

proof fn lemma_owner<P>(w: BlockWorld<P>)
    requires
        w.inv(),
        w.enabled(BlockEvent::Owner),
    ensures
        w.after(BlockEvent::Owner).inv(),
{
    if w.owner is Putting || w.owner is PutAt || w.owner is PutWritten {
        lemma_owner_put(w);
    } else {
        lemma_owner_pop(w);
    }
}

/// A change of state alone keeps the memory and what the thieves know.
proof fn lemma_same_memory<P>(w: BlockWorld<P>, n: BlockWorld<P>)
    requires
        w.inv(),
        n.mem == w.mem,
        n.thieves == w.thieves,
        end_of(n.mem, n.owner) == end_of(w.mem, w.owner),
    ensures
        n.mem_inv(),
        forall|i: int| 0 <= i < n.thieves.len() ==> n.thief_inv(#[trigger] n.thieves[i]),
        n.live() == w.live(),
{
    assert forall|i: int| 0 <= i < n.mem.blocks.len() implies #[trigger] n.ordered(
        i,
    ) by {
        assert(w.ordered(i));
    }
    lemma_thieves_kept(w, n);
}

/// A step that changes neither the memory nor what is where keeps the invariant.
proof fn lemma_stutter<P>(w: BlockWorld<P>, n: BlockWorld<P>)
    requires
        w.inv(),
        n.mem == w.mem,
        n.thieves == w.thieves,
        n.put =~= w.put,
        n.taken =~= w.taken,
        n.in_hand() =~= w.in_hand(),
        end_of(n.mem, n.owner) == end_of(w.mem, w.owner),
        n.owner_inv(),
    ensures
        n.inv(),
{
    lemma_same_memory(w, n);
}

proof fn lemma_event<P>(w: BlockWorld<P>, e: BlockEvent<P>)
    requires
        w.inv(),
        w.enabled(e),
    ensures
        w.after(e).inv(),
{
    let n = w.after(e);
    match e {
        BlockEvent::Owner => {
            lemma_owner(w);
        },
        BlockEvent::Thief { thief } => {
            lemma_thief(w, thief);
        },
        BlockEvent::BeginPut { value } => {
            lemma_stutter(w, n);
        },
        BlockEvent::BeginPop => {
            lemma_stutter(w, n);
        },
        _ => {
            assert forall|i: int| 0 <= i < n.mem.blocks.len() implies
                #[trigger] n.ordered(i) by {
                assert(w.ordered(i));
            }
            assert forall|i: int| 0 <= i < n.thieves.len() implies n.thief_inv(
                #[trigger] n.thieves[i],
            ) by {
                assert(w.thief_inv(w.thieves[i]));
            }
        },
    }
}

proof fn lemma_schedule<P>(start: BlockWorld<P>, schedule: Seq<BlockEvent<P>>)
    requires
        start.initial(),
        possible(start, schedule),
    ensures
        outcome(start, schedule).inv(),
        outcome(start, schedule).mem.growable == start.mem.growable,
    decreases schedule.len(),
{
    if schedule.len() == 0 {
        let m = start.mem;
        assert forall|i: int| 0 <= i < m.blocks.len() implies #[trigger] start.ordered(
            i,
        ) by {
            assert(m.blocks[i].stolen <= m.blocks[i].committed);
        }
        assert(start.live() =~= Seq::<P>::empty());
        assert(start.live().to_multiset() =~= Multiset::empty()) by {
            start.live().to_multiset_ensures();
        }
        assert(start.put =~= start.taken.add(start.in_hand()).add(
            start.live().to_multiset(),
        ));
    } else {
        lemma_schedule(start, schedule.drop_last());
        lemma_event(outcome(start, schedule.drop_last()), schedule.last());
    }
}

/// Exactly once: under every interleaving of the owner and any number of thieves, what was put is
/// what was taken, what is in the queue and what the owner holds, each item as often as it was put;
/// and no party ever claims an empty slot.
pub proof fn exact_once<P>(start: BlockWorld<P>, schedule: Seq<BlockEvent<P>>)
    requires
        start.initial(),
        possible(start, schedule),
    ensures
        ({
            let w = outcome(start, schedule);
            &&& w.conserved()
            &&& w.within_limits() ==> w.safe()
            &&& owner_idle(w.owner) ==> {
                &&& w.mem.quiescent()
                &&& w.put == w.taken.add(w.mem.contents().to_multiset())
            }
        }),
{
    let w = outcome(start, schedule);
    lemma_schedule(start, schedule);
    if w.within_limits() {
        lemma_safe(w);
    }
    if owner_idle(w.owner) {
        lemma_quiescent(w);
        assert(w.put =~= w.taken.add(w.mem.contents().to_multiset()));
    }
}

/// An owner's step adds the item that it holds as the newest one of its block, and so of the queue.
pub open spec fn adds_newest<P>(w: BlockWorld<P>, n: BlockWorld<P>) -> bool {
    let o = w.mem.owner as int;
    exists|item: P|
        #![trigger Multiset::singleton(item)]
        {
            &&& w.in_hand() == Multiset::singleton(item)
            &&& n.items() == w.items().update(o, w.items()[o].push(item))
            &&& n.live() == w.live().push(item)
        }
}

/// An owner's step moves the newest item of its block, and so of the queue, into the owner's hands.
pub open spec fn takes_newest<P>(w: BlockWorld<P>, n: BlockWorld<P>) -> bool {
    let o = w.mem.owner as int;
    &&& w.items()[o].len() > 0
    &&& n.items() == w.items().update(o, w.items()[o].drop_last())
    &&& n.in_hand() == Multiset::singleton(w.items()[o].last())
    &&& w.live().len() > 0
    &&& n.live() == w.live().drop_last()
    &&& w.live().last() == w.items()[o].last()
}

/// An event works at the ends: the step that publishes a put adds at the end of the owner's block;
/// the step that decides a pop takes the newest item of that block; a thief that succeeds on a
/// block takes its oldest item; and no other event adds, takes or moves an item. A put that finds
/// the last block of a growable queue full first links a block without items.
pub open spec fn keeps_ends<P>(w: BlockWorld<P>, e: BlockEvent<P>) -> bool {
    let n = w.after(e);
    let m = w.mem;
    match e {
        BlockEvent::Owner => match w.owner {
            BlockOwner::Putting { value } => n.items() == if n.mem.blocks.len()
                > m.blocks.len() {
                w.items().push(Seq::empty())
            } else {
                w.items()
            },
            BlockOwner::PutWritten { pos } => adds_newest(w, n),
            BlockOwner::PopClaimed { bottom } => if m.own().stolen < bottom - 1 {
                takes_newest(w, n)
            } else {
                n.items() == w.items()
            },
            BlockOwner::PopRace { top, item } => if m.own().stolen == top {
                takes_newest(w, n)
            } else {
                n.items() == w.items()
            },
            _ => n.items() == w.items(),
        },
        BlockEvent::Thief { thief } => match (w.thieves[thief], n.thieves[thief]) {
            (BlockThief::Stole { .. }, _) => n.items() == w.items(),
            (_, BlockThief::Stole { block, got: Steal::Success(item) }) => {
                let b = block as int;
                &&& 0 <= b < w.items().len()
                &&& w.items()[b].len() > 0
                &&& item == w.items()[b][0]
                &&& n.items() == w.items().update(b, w.items()[b].drop_first())
            },
            _ => n.items() == w.items(),
        },
        _ => n.items() == w.items(),
    }
}

/// Where a step changes the owner's block alone, the items of the others stay.
proof fn lemma_own_items<P>(w: BlockWorld<P>, n: BlockWorld<P>)
    requires
        w.inv(),
        n.mem == (BlockMem {
            blocks: w.mem.blocks.update(w.mem.owner as int, n.mem.blocks[w.mem.owner as int]),
            ..w.mem
        }),
    ensures
        n.items() == w.items().update(w.mem.owner as int, n.items()[w.mem.owner as int]),
        windows::concat(w.items()) == windows::concat(w.items().take(w.mem.owner as int))
            + w.items()[w.mem.owner as int],
        windows::concat(n.items()) == windows::concat(w.items().take(w.mem.owner as int))
            + n.items()[w.mem.owner as int],
{
    let o = w.mem.owner as int;
    assert(n.items() =~= w.items().update(o, n.items()[o]));
    assert forall|i: int| o < i < w.items().len() implies (#[trigger] w.items()[i]).len() == 0 by {
        assert(w.mem.settled(i));
    }
    assert forall|i: int| o < i < n.items().len() implies (#[trigger] n.items()[i]).len() == 0 by {
        assert(w.items()[i].len() == 0);
    }
    windows::lemma_concat_last(w.items(), o);
    windows::lemma_concat_last(n.items(), o);
    assert(n.items().take(o) =~= w.items().take(o));
}

proof fn lemma_owner_put_ends<P>(w: BlockWorld<P>)
    requires
        w.inv(),
        w.enabled(BlockEvent::Owner),
        w.owner is Putting || w.owner is PutAt || w.owner is PutWritten,
    ensures
        keeps_ends(w, BlockEvent::Owner),
{
    let n = w.after(BlockEvent::Owner);
    let m = w.mem;
    let o = m.owner as int;
    assert(m.bounded(o) && m.filled(o) && m.settled(o));
    assert(w.ordered(o));
    let before = w.items()[o];
    match w.owner {
        BlockOwner::Putting { value } => {
            blocks::lemma_free_block(
                m,
                if m.growable {
                    m.produced - 1
                } else {
                    o
                },
            );
            if n.mem.blocks.len() > m.blocks.len() {
                assert(n.items()[m.blocks.len() as int] =~= Seq::empty());
                assert(n.items() =~= w.items().push(Seq::empty()));
            } else {
                assert(n.items() =~= w.items());
            }
        },
        BlockOwner::PutAt { value, pos } => {
            lemma_own_items(w, n);
            assert(n.items()[o] =~= before);
            assert(n.items() =~= w.items());
        },
        BlockOwner::PutWritten { pos } => {
            let item = m.own().slots[pos as int].unwrap();
            lemma_own_items(w, n);
            assert(n.items()[o] =~= before.push(item));
            assert(n.live() =~= w.live().push(item));
            assert(w.in_hand() == Multiset::singleton(item));
        },
        _ => {},
    }
}

proof fn lemma_owner_pop_ends<P>(w: BlockWorld<P>)
    requires
        w.inv(),
        w.enabled(BlockEvent::Owner),
        !(w.owner is Putting || w.owner is PutAt || w.owner is PutWritten),
    ensures
        keeps_ends(w, BlockEvent::Owner),
{
    let n = w.after(BlockEvent::Owner);
    let m = w.mem;
    let o = m.owner as int;
    assert(m.bounded(o) && m.filled(o) && m.settled(o));
    assert(w.ordered(o));
    let before = w.items()[o];
    match w.owner {
        BlockOwner::PopChecked { bottom } => {
            lemma_own_items(w, n);
            assert(n.items()[o] =~= before);
            assert(n.items() =~= w.items());
        },
        BlockOwner::PopClaimed { bottom } => {
            if m.own().stolen < bottom - 1 {
                assert(n.mem.blocks =~= m.blocks.update(o, n.mem.blocks[o]));
                lemma_own_items(w, n);
                assert(n.items()[o] =~= before.drop_last());
                assert(n.live() =~= w.live().drop_last());
            } else {
                assert(n.items() =~= w.items());
            }
        },
        BlockOwner::PopRace { top, item } => {
            if m.own().stolen == top {
                lemma_own_items(w, n);
                assert(n.items()[o] =~= before.drop_last());
                assert(n.live() =~= w.live().drop_last());
            } else {
                assert(n.items() =~= w.items());
            }
        },
        BlockOwner::PopSeen { bottom, top } => {
            if top > bottom - 1 {
                lemma_own_items(w, n);
                assert(n.items()[o] =~= before);
            }
            assert(n.items() =~= w.items());
        },
        BlockOwner::PopSettle { top, won } => {
            lemma_own_items(w, n);
            assert(n.items()[o] =~= before);
            assert(n.items() =~= w.items());
        },
        _ => {
            assert(n.items() =~= w.items());
        },
    }
}

/// The ends of the blocks are kept, whatever the schedule: a thief takes the oldest item of a
/// block, a pop the newest of the owner's block, and a put adds at its end.
pub proof fn ends_are_kept<P>(start: BlockWorld<P>, schedule: Seq<BlockEvent<P>>, e: BlockEvent<P>)
    requires
        start.initial(),
        possible(start, schedule),
        outcome(start, schedule).enabled(e),
    ensures
        keeps_ends(outcome(start, schedule), e),
{
    let w = outcome(start, schedule);
    let n = w.after(e);
    let m = w.mem;
    lemma_schedule(start, schedule);
    match e {
        BlockEvent::Owner => {
            if w.owner is Putting || w.owner is PutAt || w.owner is PutWritten {
                lemma_owner_put_ends(w);
            } else {
                lemma_owner_pop_ends(w);
            }
        },
        BlockEvent::Thief { thief } => {
            assert(w.thief_inv(w.thieves[thief]));
            match w.thieves[thief] {
                BlockThief::SeenItem { block, top, cell } if m.blocks[block as int].stolen
                    == top => {
                    let b = block as int;
                    assert(m.bounded(b) && m.filled(b) && w.ordered(b));
                    assert(n.items()[b] =~= w.items()[b].drop_first());
                    assert(n.items() =~= w.items().update(b, w.items()[b].drop_first()));
                },
                _ => {
                    assert(n.items() =~= w.items());
                },
            }
        },
        _ => {
            assert(n.items() =~= w.items());
        },
    }
}

/// Sealed for good: whatever the schedule, a block of a growable queue that has a successor gets no
/// more items.
pub proof fn sealed_for_good<P>(
    start: BlockWorld<P>,
    schedule: Seq<BlockEvent<P>>,
    e: BlockEvent<P>,
    block: int,
)
    requires
        start.initial(),
        start.mem.growable,
        possible(start, schedule),
        outcome(start, schedule).enabled(e),
        0 <= block < outcome(start, schedule).mem.produced - 1,
    ensures
        outcome(start, schedule).after(e).end(block) <= outcome(start, schedule).end(block),
        block < outcome(start, schedule).after(e).mem.produced - 1,
{
    let w = outcome(start, schedule);
    lemma_schedule(start, schedule);
    if e is Owner && w.owner is Putting {
        blocks::lemma_free_block(w.mem, w.mem.produced - 1);
    }
}

/// Under every interleaving the top of a block never goes back and moves by one item at a time,
/// and the number of blocks in use never shrinks.
pub proof fn tops_are_monotone<P>(
    start: BlockWorld<P>,
    schedule: Seq<BlockEvent<P>>,
    e: BlockEvent<P>,
    block: int,
)
    requires
        start.initial(),
        possible(start, schedule),
        outcome(start, schedule).enabled(e),
        0 <= block < outcome(start, schedule).mem.blocks.len(),
    ensures
        ({
            let before = outcome(start, schedule).mem;
            let after = outcome(start, schedule).after(e).mem;
            &&& after.blocks[block].stolen == before.blocks[block].stolen
                || after.blocks[block].stolen == before.blocks[block].stolen + 1
            &&& after.produced >= before.produced
            &&& after.blocks.len() >= before.blocks.len()
        }),
{
    let w = outcome(start, schedule);
    lemma_schedule(start, schedule);
    if e is Owner && w.owner is Putting {
        blocks::lemma_free_block(
            w.mem,
            if w.mem.growable {
                w.mem.produced - 1
            } else {
                w.mem.owner as int
            },
        );
    }
    match e {
        BlockEvent::Thief { thief } => {
            assert(w.thief_inv(w.thieves[thief]));
        },
        _ => {},
    }
}

} // verus!
