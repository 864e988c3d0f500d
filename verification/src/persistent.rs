//! A crash-recoverable FIFO queue with an explicit persistency model.
//!
//! This simulates non-volatile memory for study and testing: nothing is written to disk, and
//! nothing survives a real process exit or power loss. A `pwb` stages a record, a `psync` makes
//! all staged records durable, and a crash discards what is staged. The queue persists one record
//! per operation. The record of a dequeue names the enqueue that it undoes by its place in the log,
//! so that replaying the durable records gives every value that was durably enqueued and not durably
//! dequeued, once and in order, also where the queue was used after a crash without recovery:
//! [`recovery_is_exact`] proves this of every history, and [`recovery_is_consistent`] that a queue
//! which recovers from each crash comes back as it was at the last `psync`.

use std::collections::VecDeque;

use vstd::prelude::*;

verus! {

/// One persisted record: a value was added, or the value of the enqueue at a place in the log was
/// removed.
#[derive(Clone, Copy, Debug, PartialEq, Eq, Structural)]
pub enum Record {
    Enqueue(u64),
    Dequeue(u128),
}

/// A record as a mathematical value.
pub enum Logged {
    Enqueue(u64),
    Dequeue(int),
}

impl View for Record {
    type V = Logged;

    open spec fn view(&self) -> Logged {
        match *self {
            Record::Enqueue(v) => Logged::Enqueue(v),
            Record::Dequeue(at) => Logged::Dequeue(at as int),
        }
    }
}

/// Records as mathematical values.
pub open spec fn logged(records: Seq<Record>) -> Seq<Logged> {
    records.map(|i: int, r: Record| r@)
}

/// A value in the queue, with the place of its enqueue in the log.
pub type Entry = (int, u64);

/// The entries without the one of the enqueue at place `at`.
pub open spec fn without(entries: Seq<Entry>, at: int) -> Seq<Entry> {
    entries.filter(|e: Entry| e.0 != at)
}

/// The entries that records rebuild: an enqueue adds one at the end, a dequeue removes the one that
/// it names.
pub open spec fn replay(records: Seq<Logged>) -> Seq<Entry>
    decreases records.len(),
{
    if records.len() == 0 {
        Seq::empty()
    } else {
        let before = replay(records.drop_last());
        match records.last() {
            Logged::Enqueue(v) => before.push((records.len() - 1, v)),
            Logged::Dequeue(at) => without(before, at),
        }
    }
}

/// The values of entries.
pub open spec fn values(entries: Seq<Entry>) -> Seq<u64> {
    entries.map(|i: int, e: Entry| e.1)
}

/// A simulated block of non-volatile memory: a log of records, each either durable (it survives a
/// crash) or staged (it is lost on a crash).
pub struct PersistentMemory {
    durable: Vec<Record>,
    volatile: Vec<Record>,
    psyncs: usize,
}

impl PersistentMemory {
    /// The records that survive a crash.
    pub closed spec fn durable(&self) -> Seq<Record> {
        self.durable@
    }

    /// The records that are staged and not durable yet.
    pub closed spec fn staged(&self) -> Seq<Record> {
        self.volatile@
    }

    /// Number of `psync` fences performed.
    pub closed spec fn psyncs(&self) -> int {
        self.psyncs as int
    }

    /// Fresh, empty persistent memory.
    pub fn new() -> (m: Self)
        ensures
            m.durable() == Seq::<Record>::empty(),
            m.staged() == Seq::<Record>::empty(),
            m.psyncs() == 0,
    {
        PersistentMemory { durable: Vec::new(), volatile: Vec::new(), psyncs: 0 }
    }

    /// Stage a record for persistence. It is not durable yet.
    pub fn pwb(&mut self, record: Record)
        ensures
            final(self).durable() == old(self).durable(),
            final(self).staged() == old(self).staged().push(record),
            final(self).psyncs() == old(self).psyncs(),
    {
        self.volatile.push(record);
    }

    /// Make all staged records durable.
    pub fn psync(&mut self)
        requires
            old(self).psyncs() < usize::MAX,
        ensures
            final(self).durable() == old(self).durable() + old(self).staged(),
            final(self).staged() == Seq::<Record>::empty(),
            final(self).psyncs() == old(self).psyncs() + 1,
    {
        self.durable.append(&mut self.volatile);
        self.psyncs = self.psyncs + 1;
    }

    /// Simulate a power loss: everything staged is lost, durable records remain. Returns the durable
    /// records.
    pub fn crash(&mut self) -> (log: Vec<Record>)
        ensures
            log@ == old(self).durable(),
            final(self).durable() == old(self).durable(),
            final(self).staged() == Seq::<Record>::empty(),
            final(self).psyncs() == old(self).psyncs(),
    {
        self.volatile.clear();
        let mut log: Vec<Record> = Vec::new();
        let mut i: usize = 0;
        while i < self.durable.len()
            invariant
                i <= self.durable@.len(),
                log@ == self.durable@.take(i as int),
            decreases self.durable@.len() - i,
        {
            log.push(self.durable[i]);
            i += 1;
            assert(log@ =~= self.durable@.take(i as int));
        }
        assert(log@ =~= self.durable@);
        log
    }

    /// Number of `psync` fences performed.
    pub fn psync_count(&self) -> (r: usize)
        ensures
            r == self.psyncs(),
    {
        self.psyncs
    }
}

impl Default for PersistentMemory {
    fn default() -> (m: Self)
        ensures
            m.durable() == Seq::<Record>::empty(),
            m.staged() == Seq::<Record>::empty(),
            m.psyncs() == 0,
    {
        Self::new()
    }
}

/// A durable queue as a mathematical value: its records, its volatile contents, and how many
/// fences it has performed.
#[verifier::ext_equal]
pub struct QueueState {
    pub durable: Seq<Logged>,
    pub staged: Seq<Logged>,
    pub live: Seq<Entry>,
    pub psyncs: int,
}

impl QueueState {
    /// An empty queue.
    pub open spec fn empty() -> QueueState {
        QueueState { durable: Seq::empty(), staged: Seq::empty(), live: Seq::empty(), psyncs: 0 }
    }

    /// The values in the queue, the oldest first.
    pub open spec fn contents(self) -> Seq<u64> {
        values(self.live)
    }

    /// The place of the next record in the log.
    pub open spec fn next_place(self) -> int {
        (self.durable.len() + self.staged.len()) as int
    }

    /// The queue after `record` is staged and all staged records are made durable.
    pub open spec fn persisted(self, record: Logged) -> QueueState {
        QueueState {
            durable: self.durable + self.staged.push(record),
            staged: Seq::empty(),
            psyncs: self.psyncs + 1,
            ..self
        }
    }

    /// The queue after a durable enqueue.
    pub open spec fn enqueued(self, value: u64) -> QueueState {
        QueueState {
            live: self.live.push((self.next_place(), value)),
            ..self.persisted(Logged::Enqueue(value))
        }
    }

    /// The queue after a durable dequeue. With nothing to remove it changes nothing.
    pub open spec fn dequeued(self) -> QueueState {
        if self.live.len() == 0 {
            self
        } else {
            QueueState {
                live: self.live.drop_first(),
                ..self.persisted(Logged::Dequeue(self.live[0].0))
            }
        }
    }

    /// The queue after an enqueue that is staged and not made durable.
    pub open spec fn staged_only(self, value: u64) -> QueueState {
        QueueState {
            live: self.live.push((self.next_place(), value)),
            staged: self.staged.push(Logged::Enqueue(value)),
            ..self
        }
    }

    /// The queue after a crash: only the durable records are left.
    pub open spec fn crashed(self) -> QueueState {
        QueueState { live: Seq::empty(), staged: Seq::empty(), ..self }
    }

    /// The queue after recovery from the durable records.
    pub open spec fn recovered(self) -> QueueState {
        QueueState { live: replay(self.durable), ..self }
    }
}

/// A durable FIFO queue backed by [`PersistentMemory`]. Each enqueue and each dequeue persists one
/// record with one `pwb` and one `psync`.
pub struct PersistentQueue {
    mem: PersistentMemory,
    live: VecDeque<(u128, u64)>,
}

/// Values with their places as mathematical values.
pub open spec fn entries(values: Seq<(u128, u64)>) -> Seq<Entry> {
    values.map(|i: int, e: (u128, u64)| (e.0 as int, e.1))
}

impl View for PersistentQueue {
    type V = QueueState;

    closed spec fn view(&self) -> QueueState {
        QueueState {
            durable: logged(self.mem.durable()),
            staged: logged(self.mem.staged()),
            live: entries(self.live@),
            psyncs: self.mem.psyncs(),
        }
    }
}

impl PersistentQueue {
    /// Create an empty durable queue.
    pub fn new() -> (q: Self)
        ensures
            q@ == QueueState::empty(),
            q@.contents().len() == 0 && q@.durable.len() == 0 && q@.staged.len() == 0,
            q@.psyncs == 0,
    {
        let q = PersistentQueue { mem: PersistentMemory::new(), live: VecDeque::new() };
        assert(q@ =~= QueueState::empty());
        q
    }

    /// Durable enqueue: once this returns, the value survives a crash.
    pub fn enqueue(&mut self, value: u64)
        requires
            old(self)@.psyncs < usize::MAX,
        ensures
            final(self)@ == old(self)@.enqueued(value),
            final(self)@.contents() == old(self)@.contents().push(value),
            final(self)@.durable == old(self)@.durable + old(self)@.staged + seq![
                Logged::Enqueue(value),
            ],
            final(self)@.staged.len() == 0,
            final(self)@.psyncs == old(self)@.psyncs + 1,
    {
        let place = self.place();
        self.mem.pwb(Record::Enqueue(value));
        self.mem.psync();
        self.live.push_back((place, value));
        assert(self@ =~= old(self)@.enqueued(value));
        assert(self@.durable =~= old(self)@.durable + old(self)@.staged + seq![
            Logged::Enqueue(value),
        ]);
        assert(self@.contents() =~= old(self)@.contents().push(value));
    }

    /// The place of the next record in the log.
    fn place(&self) -> (r: u128)
        ensures
            r == self@.next_place(),
    {
        self.mem.durable.len() as u128 + self.mem.volatile.len() as u128
    }

    /// Durable dequeue: once this returns, a crash does not bring the value back.
    pub fn dequeue(&mut self) -> (r: Option<u64>)
        requires
            old(self)@.live.len() > 0 ==> old(self)@.psyncs < usize::MAX,
        ensures
            final(self)@ == old(self)@.dequeued(),
            old(self)@.contents().len() == 0 ==> r is None && final(self)@ == old(self)@,
            old(self)@.contents().len() > 0 ==> r == Some(old(self)@.contents()[0])
                && final(self)@.contents() == old(self)@.contents().drop_first(),
            old(self)@.contents().len() > 0 ==> final(self)@.durable == old(self)@.durable
                + old(self)@.staged + seq![Logged::Dequeue(old(self)@.live[0].0)]
                && final(self)@.staged.len() == 0 && final(self)@.psyncs == old(self)@.psyncs + 1,
    {
        match self.live.pop_front() {
            Some(entry) => {
                self.mem.pwb(Record::Dequeue(entry.0));
                self.mem.psync();
                assert(self@ =~= old(self)@.dequeued());
                assert(self@.durable =~= old(self)@.durable + old(self)@.staged + seq![
                    Logged::Dequeue(old(self)@.live[0].0),
                ]);
                assert(self@.contents() =~= old(self)@.contents().drop_first());
                Some(entry.1)
            },
            None => {
                assert(self@ =~= old(self)@);
                None
            },
        }
    }

    /// Enqueue without the final `psync`: the value is staged, and a crash loses it.
    pub fn enqueue_unsynced(&mut self, value: u64)
        ensures
            final(self)@ == old(self)@.staged_only(value),
            final(self)@.contents() == old(self)@.contents().push(value),
            final(self)@.durable == old(self)@.durable,
            final(self)@.staged == old(self)@.staged.push(Logged::Enqueue(value)),
            final(self)@.psyncs == old(self)@.psyncs,
    {
        let place = self.place();
        self.mem.pwb(Record::Enqueue(value));
        self.live.push_back((place, value));
        assert(self@ =~= old(self)@.staged_only(value));
        assert(self@.contents() =~= old(self)@.contents().push(value));
    }

    /// Simulate a crash: drop the volatile contents and the staged records.
    pub fn crash_now(&mut self)
        ensures
            final(self)@ == old(self)@.crashed(),
            final(self)@.contents() == Seq::<u64>::empty(),
            final(self)@.durable == old(self)@.durable,
            final(self)@.staged.len() == 0,
            final(self)@.psyncs == old(self)@.psyncs,
    {
        let log = self.mem.crash();
        self.live.clear();
        assert(self@ =~= old(self)@.crashed());
        assert(self@.contents() =~= Seq::<u64>::empty());
    }

    /// Replay the durable records to rebuild the contents, and return them in FIFO order.
    pub fn recover(&mut self) -> (r: Vec<u64>)
        ensures
            final(self)@ == old(self)@.recovered(),
            r@ == values(replay(old(self)@.durable)),
            r@ == final(self)@.contents(),
            final(self)@.durable == old(self)@.durable,
            final(self)@.staged == old(self)@.staged,
            final(self)@.psyncs == old(self)@.psyncs,
    {
        let ghost durable = logged(self.mem.durable());
        let mut rebuilt: VecDeque<(u128, u64)> = VecDeque::new();
        let mut i: usize = 0;
        assert(entries(rebuilt@) =~= Seq::<Entry>::empty());
        while i < self.mem.durable.len()
            invariant
                durable == logged(self.mem.durable()),
                i <= durable.len(),
                entries(rebuilt@) == replay(durable.take(i as int)),
            decreases durable.len() - i,
        {
            assert(durable.take(i + 1).drop_last() =~= durable.take(i as int));
            assert(durable[i as int] == self.mem.durable@[i as int]@);
            match self.mem.durable[i] {
                Record::Enqueue(v) => {
                    let ghost before = rebuilt@;
                    rebuilt.push_back((i as u128, v));
                    assert(entries(rebuilt@) =~= entries(before).push((i as int, v)));
                },
                Record::Dequeue(at) => {
                    proof {
                        lemma_replay_places(durable.take(i as int));
                    }
                    drop_entry(&mut rebuilt, at);
                },
            }
            i += 1;
        }
        assert(durable.take(i as int) =~= durable);
        let mut contents: Vec<u64> = Vec::new();
        let mut k: usize = 0;
        while k < rebuilt.len()
            invariant
                k <= rebuilt@.len(),
                contents@ == values(entries(rebuilt@).take(k as int)),
            decreases rebuilt@.len() - k,
        {
            contents.push(rebuilt[k].1);
            k += 1;
            assert(contents@ =~= values(entries(rebuilt@).take(k as int)));
        }
        assert(entries(rebuilt@).take(k as int) =~= entries(rebuilt@));
        self.live = rebuilt;
        contents
    }

    /// Current live length.
    pub fn len(&self) -> (r: usize)
        ensures
            r == self@.contents().len(),
    {
        self.live.len()
    }

    /// Whether the live queue is empty.
    pub fn is_empty(&self) -> (r: bool)
        ensures
            r == (self@.contents().len() == 0),
    {
        self.live.len() == 0
    }

    /// Number of `psync` fences so far.
    pub fn psync_count(&self) -> (r: usize)
        ensures
            r == self@.psyncs,
    {
        self.mem.psync_count()
    }
}

impl Default for PersistentQueue {
    fn default() -> (q: Self)
        ensures
            q@ == QueueState::empty(),
            q@.contents().len() == 0 && q@.durable.len() == 0 && q@.staged.len() == 0,
            q@.psyncs == 0,
    {
        Self::new()
    }
}

/// Entries of different places, in the order of the log.
pub open spec fn in_order(entries: Seq<Entry>) -> bool {
    forall|i: int, j: int| 0 <= i < j < entries.len() ==> (#[trigger] entries[i]).0 < (
    #[trigger] entries[j]).0
}

/// Remove the entry of place `at`, if there is one.
fn drop_entry(list: &mut VecDeque<(u128, u64)>, at: u128)
    requires
        in_order(entries(old(list)@)),
    ensures
        entries(final(list)@) == without(entries(old(list)@), at as int),
{
    let ghost all = entries(list@);
    let mut k: usize = 0;
    while k < list.len()
        invariant
            list@ == old(list)@,
            all == entries(list@),
            in_order(all),
            k <= all.len(),
            forall|i: int| 0 <= i < k ==> (#[trigger] all[i]).0 != at,
        decreases all.len() - k,
    {
        assert(all[k as int].0 == list@[k as int].0);
        if list[k].0 == at {
            let gone = list.remove(k);
            proof {
                lemma_without(all, at as int, k as int);
                assert(entries(list@) =~= all.remove(k as int));
            }
            return ;
        }
        k += 1;
    }
    proof {
        lemma_without_none(all, at as int);
    }
}

proof fn lemma_without_none(entries: Seq<Entry>, at: int)
    requires
        forall|i: int| 0 <= i < entries.len() ==> (#[trigger] entries[i]).0 != at,
    ensures
        without(entries, at) == entries,
    decreases entries.len(),
{
    reveal(Seq::filter);
    if entries.len() > 0 {
        assert forall|i: int| 0 <= i < entries.drop_last().len() implies (
        #[trigger] entries.drop_last()[i]).0 != at by {
            assert(entries[i].0 != at);
        }
        lemma_without_none(entries.drop_last(), at);
        assert(entries.drop_last().push(entries.last()) =~= entries);
        assert(entries[entries.len() - 1].0 != at);
    }
}

proof fn lemma_without(entries: Seq<Entry>, at: int, k: int)
    requires
        in_order(entries),
        0 <= k < entries.len(),
        entries[k].0 == at,
    ensures
        without(entries, at) == entries.remove(k),
    decreases entries.len(),
{
    reveal(Seq::filter);
    let rest = entries.drop_last();
    assert(in_order(rest)) by {
        assert forall|i: int, j: int| 0 <= i < j < rest.len() implies (#[trigger] rest[i]).0 < (
        #[trigger] rest[j]).0 by {
            assert(entries[i].0 < entries[j].0);
        }
    }
    if k == entries.len() - 1 {
        assert forall|i: int| 0 <= i < rest.len() implies (#[trigger] rest[i]).0 != at by {
            assert(entries[i].0 < entries[k].0);
        }
        lemma_without_none(rest, at);
        assert(entries.remove(k) =~= rest);
    } else {
        lemma_without(rest, at, k);
        assert(entries[k].0 < entries[entries.len() - 1].0);
        assert(entries.remove(k) =~= rest.remove(k).push(entries.last()));
    }
}

/// What records rebuild is in the order of the log.
proof fn lemma_replay_places(records: Seq<Logged>)
    ensures
        in_order(replay(records)),
        forall|i: int| 0 <= i < replay(records).len() ==> (#[trigger] replay(records)[i]).0
            < records.len(),
    decreases records.len(),
{
    if records.len() > 0 {
        let before = replay(records.drop_last());
        lemma_replay_places(records.drop_last());
        match records.last() {
            Logged::Enqueue(v) => {},
            Logged::Dequeue(at) => {
                if exists|k: int| 0 <= k < before.len() && before[k].0 == at {
                    let k = choose|k: int| 0 <= k < before.len() && before[k].0 == at;
                    lemma_without(before, at, k);
                } else {
                    lemma_without_none(before, at);
                }
            },
        }
    }
}

/// Replay is exact: it gives the enqueues that no later record undoes, each once, in the order of
/// the log.
pub proof fn replay_is_exact(records: Seq<Logged>, place: int, value: u64)
    ensures
        in_order(replay(records)),
        replay(records).contains((place, value)) <==> {
            &&& 0 <= place < records.len()
            &&& records[place] == Logged::Enqueue(value)
            &&& forall|j: int|
                place < j < records.len() ==> #[trigger] records[j] != Logged::Dequeue(place)
        },
    decreases records.len(),
{
    lemma_replay_places(records);
    if records.len() > 0 {
        let rest = records.drop_last();
        let before = replay(rest);
        let all = replay(records);
        replay_is_exact(rest, place, value);
        assert forall|j: int| 0 <= j < rest.len() implies #[trigger] rest[j] == records[j] by {}
        lemma_replay_places(rest);
        match records.last() {
            Logged::Enqueue(v) => {
                assert(all == before.push((records.len() - 1, v)));
                if before.contains((place, value)) {
                    let i = before.index_of((place, value));
                    assert(all[i] == (place, value));
                }
                if place == records.len() - 1 && v == value {
                    assert(all[before.len() as int] == (place, value));
                }
                if all.contains((place, value)) {
                    let i = all.index_of((place, value));
                    if i < before.len() {
                        assert(before[i] == (place, value));
                    }
                }
            },
            Logged::Dequeue(at) => {
                if exists|k: int| 0 <= k < before.len() && before[k].0 == at {
                    let k = choose|k: int| 0 <= k < before.len() && before[k].0 == at;
                    lemma_without(before, at, k);
                    assert(all == before.remove(k));
                    if all.contains((place, value)) {
                        let i = all.index_of((place, value));
                        let j = if i < k {
                            i
                        } else {
                            i + 1
                        };
                        assert(before[j] == (place, value));
                        assert(before[j].0 != before[k].0);
                    }
                    if before.contains((place, value)) && place != at {
                        let j = before.index_of((place, value));
                        let i = if j < k {
                            j
                        } else {
                            j - 1
                        };
                        assert(all[i] == (place, value));
                    }
                } else {
                    lemma_without_none(before, at);
                    if before.contains((place, value)) {
                        let j = before.index_of((place, value));
                        assert(before[j].0 != at);
                    }
                }
                assert(records[records.len() - 1] == Logged::Dequeue(at));
            },
        }
        if all.contains((place, value)) && place < rest.len() {
            assert forall|j: int| place < j < records.len() implies #[trigger] records[j]
                != Logged::Dequeue(place) by {
                if j < rest.len() {
                    assert(rest[j] != Logged::Dequeue(place));
                }
            }
        }
    }
}

/// What happens to a durable queue.
pub enum Operation {
    Enqueue(u64),
    Dequeue,
    EnqueueUnsynced(u64),
    /// A crash.
    Crash,
    /// Recovery, after a crash or not.
    Recover,
}

/// The queue after one operation.
pub open spec fn applied(q: QueueState, op: Operation) -> QueueState {
    match op {
        Operation::Enqueue(value) => q.enqueued(value),
        Operation::Dequeue => q.dequeued(),
        Operation::EnqueueUnsynced(value) => q.staged_only(value),
        Operation::Crash => q.crashed(),
        Operation::Recover => q.recovered(),
    }
}

/// A new queue after operations.
pub open spec fn after(ops: Seq<Operation>) -> QueueState
    decreases ops.len(),
{
    if ops.len() == 0 {
        QueueState::empty()
    } else {
        applied(after(ops.drop_last()), ops.last())
    }
}

/// What a history owes: the values that were durably enqueued and not durably dequeued
/// (`settled`), those that the next `psync` adds (`tentative`), and those that the queue serves.
#[verifier::ext_equal]
pub struct Ledger {
    pub settled: Seq<Entry>,
    pub tentative: Seq<Entry>,
    pub live: Seq<Entry>,
}

/// What a history owes after one more operation, if the next record has place `place`.
pub open spec fn noted(l: Ledger, place: int, op: Operation) -> Ledger {
    match op {
        Operation::Enqueue(value) => Ledger {
            settled: l.settled + l.tentative.push((place, value)),
            tentative: Seq::empty(),
            live: l.live.push((place, value)),
        },
        Operation::Dequeue => if l.live.len() == 0 {
            l
        } else {
            Ledger {
                settled: without(l.settled + l.tentative, l.live[0].0),
                tentative: Seq::empty(),
                live: l.live.drop_first(),
            }
        },
        Operation::EnqueueUnsynced(value) => Ledger {
            tentative: l.tentative.push((place, value)),
            live: l.live.push((place, value)),
            ..l
        },
        Operation::Crash => Ledger { tentative: Seq::empty(), live: Seq::empty(), ..l },
        Operation::Recover => Ledger { live: l.settled, ..l },
    }
}

/// What a history owes.
pub open spec fn owed(ops: Seq<Operation>) -> Ledger
    decreases ops.len(),
{
    if ops.len() == 0 {
        Ledger { settled: Seq::empty(), tentative: Seq::empty(), live: Seq::empty() }
    } else {
        noted(owed(ops.drop_last()), after(ops.drop_last()).next_place(), ops.last())
    }
}

proof fn lemma_replay_push(records: Seq<Logged>, record: Logged)
    ensures
        replay(records.push(record)) == match record {
            Logged::Enqueue(v) => replay(records).push((records.len() as int, v)),
            Logged::Dequeue(at) => without(replay(records), at),
        },
{
    assert(records.push(record).drop_last() =~= records);
}

/// Recovery of every history is exact: after any operations, crashes and recoveries, recovery gives
/// every value that was durably enqueued and not durably dequeued, once and in order, and nothing
/// else.
pub proof fn recovery_is_exact(ops: Seq<Operation>)
    ensures
        after(ops).recovered().live == owed(ops).settled,
        after(ops).crashed().recovered().live == owed(ops).settled,
        after(ops).live == owed(ops).live,
        replay(after(ops).durable + after(ops).staged) == owed(ops).settled + owed(ops).tentative,
        after(ops).staged.len() == 0 ==> owed(ops).tentative.len() == 0,
    decreases ops.len(),
{
    let n = after(ops);
    if ops.len() == 0 {
        assert(n.durable + n.staged =~= Seq::<Logged>::empty());
        assert(owed(ops).settled + owed(ops).tentative =~= Seq::<Entry>::empty());
    } else {
        let rest = ops.drop_last();
        let q = after(rest);
        let l = owed(rest);
        recovery_is_exact(rest);
        let records = q.durable + q.staged;
        match ops.last() {
            Operation::Enqueue(value) => {
                lemma_replay_push(records, Logged::Enqueue(value));
                assert(n.durable =~= records.push(Logged::Enqueue(value)));
                assert(n.durable + n.staged =~= n.durable);
                assert(replay(n.durable) =~= owed(ops).settled);
                assert(owed(ops).settled + owed(ops).tentative =~= owed(ops).settled);
            },
            Operation::Dequeue => {
                if q.live.len() > 0 {
                    let record = Logged::Dequeue(q.live[0].0);
                    lemma_replay_push(records, record);
                    assert(n.durable =~= records.push(record));
                    assert(n.durable + n.staged =~= n.durable);
                    assert(owed(ops).settled + owed(ops).tentative =~= owed(ops).settled);
                }
            },
            Operation::EnqueueUnsynced(value) => {
                lemma_replay_push(records, Logged::Enqueue(value));
                assert(n.durable + n.staged =~= records.push(Logged::Enqueue(value)));
                assert(owed(ops).settled + owed(ops).tentative =~= (l.settled + l.tentative).push(
                    (q.next_place(), value),
                ));
            },
            Operation::Crash => {
                assert(n.durable + n.staged =~= n.durable);
                assert(owed(ops).settled + owed(ops).tentative =~= owed(ops).settled);
            },
            Operation::Recover => {},
        }
    }
}

/// Each value that the queue serves is owed, under its place: the queue never serves a value twice,
/// nor one that a durable dequeue removed.
pub proof fn served_is_owed(ops: Seq<Operation>)
    ensures
        after(ops).durable.len() + after(ops).staged.len() <= ops.len(),
        in_order(owed(ops).live),
        in_order(owed(ops).settled + owed(ops).tentative),
        forall|e: Entry| #[trigger]
            owed(ops).live.contains(e) ==> (owed(ops).settled + owed(ops).tentative).contains(e),
    decreases ops.len(),
{
    let n = after(ops);
    let all = owed(ops).settled + owed(ops).tentative;
    recovery_is_exact(ops);
    if ops.len() > 0 {
        let rest = ops.drop_last();
        let q = after(rest);
        let l = owed(rest);
        let before = l.settled + l.tentative;
        served_is_owed(rest);
        recovery_is_exact(rest);
        lemma_replay_places(n.durable + n.staged);
        lemma_replay_places(q.durable + q.staged);
        match ops.last() {
            Operation::Enqueue(value) => {
                lemma_serves_new(before, l.live, (q.next_place(), value));
                assert(all =~= before.push((q.next_place(), value)));
            },
            Operation::EnqueueUnsynced(value) => {
                lemma_serves_new(before, l.live, (q.next_place(), value));
                assert(all =~= before.push((q.next_place(), value)));
            },
            Operation::Dequeue => {
                if l.live.len() > 0 {
                    lemma_serves_rest(before, l.live);
                    assert(all =~= without(before, l.live[0].0));
                }
            },
            Operation::Crash => {},
            Operation::Recover => {
                assert(in_order(l.settled)) by {
                    assert forall|i: int, j: int| 0 <= i < j < l.settled.len() implies (
                    #[trigger] l.settled[i]).0 < (#[trigger] l.settled[j]).0 by {
                        assert(before[i].0 < before[j].0);
                    }
                }
                assert forall|e: Entry| #[trigger] l.settled.contains(e) implies all.contains(
                    e,
                ) by {
                    let i = l.settled.index_of(e);
                    assert(all[i] == e);
                }
            },
        }
    }
}

proof fn lemma_serves_new(all: Seq<Entry>, live: Seq<Entry>, new: Entry)
    requires
        in_order(live),
        forall|e: Entry| #[trigger] live.contains(e) ==> all.contains(e),
        forall|i: int| 0 <= i < all.len() ==> (#[trigger] all[i]).0 < new.0,
    ensures
        in_order(live.push(new)),
        forall|e: Entry| #[trigger] live.push(new).contains(e) ==> all.push(new).contains(e),
{
    assert forall|i: int| 0 <= i < live.len() implies (#[trigger] live[i]).0 < new.0 by {
        assert(live.contains(live[i]));
        let k = all.index_of(live[i]);
        assert(all[k] == live[i]);
    }
    assert forall|e: Entry| #[trigger] live.push(new).contains(e) implies all.push(new).contains(
        e,
    ) by {
        let i = live.push(new).index_of(e);
        if i < live.len() {
            assert(live.contains(live[i]));
            let k = all.index_of(e);
            assert(all.push(new)[k] == e);
        } else {
            assert(all.push(new)[all.len() as int] == e);
        }
    }
}

proof fn lemma_serves_rest(all: Seq<Entry>, live: Seq<Entry>)
    requires
        in_order(all),
        in_order(live),
        live.len() > 0,
        forall|e: Entry| #[trigger] live.contains(e) ==> all.contains(e),
    ensures
        in_order(live.drop_first()),
        forall|e: Entry| #[trigger]
            live.drop_first().contains(e) ==> without(all, live[0].0).contains(e),
{
    let rest = live.drop_first();
    assert(live.contains(live[0]));
    let k = all.index_of(live[0]);
    lemma_without(all, live[0].0, k);
    assert forall|i: int, j: int| 0 <= i < j < rest.len() implies (#[trigger] rest[i]).0 < (
    #[trigger] rest[j]).0 by {
        assert(live[i + 1].0 < live[j + 1].0);
    }
    assert forall|e: Entry| #[trigger] rest.contains(e) implies without(all, live[0].0).contains(
        e,
    ) by {
        let i = rest.index_of(e);
        assert(live[i + 1] == e);
        assert(live.contains(e));
        assert(live[0].0 < live[i + 1].0);
        let j = all.index_of(e);
        let at = if j < k {
            j
        } else {
            j - 1
        };
        assert(all.remove(k)[at] == e);
    }
}

/// A queue that recovers from each crash, at once, and never without one.
pub open spec fn recovers(ops: Seq<Operation>) -> bool {
    forall|i: int|
        0 <= i < ops.len() ==> {
            &&& (#[trigger] ops[i]) is Crash ==> i + 1 < ops.len() && ops[i + 1] is Recover
            &&& ops[i] is Recover ==> i > 0 && ops[i - 1] is Crash
        }
}

/// Between the operations of a queue that recovers from each crash, the volatile contents are what
/// the records, durable and staged, rebuild.
pub proof fn live_is_replayed(ops: Seq<Operation>)
    requires
        recovers(ops),
    ensures
        after(ops).live == replay(after(ops).durable + after(ops).staged),
    decreases ops.len(),
{
    let n = after(ops);
    if ops.len() == 0 {
        assert(n.durable + n.staged =~= Seq::<Logged>::empty());
    } else {
        let rest = ops.drop_last();
        let q = after(rest);
        assert(!(ops.last() is Crash)) by {
            assert(ops[ops.len() - 1] == ops.last());
        }
        if ops.last() is Recover {
            assert(ops[ops.len() - 1] is Recover);
            let before = after(rest.drop_last());
            assert(q == before.crashed());
            assert(n.durable + n.staged =~= n.durable);
        } else {
            assert(recovers(rest)) by {
                assert forall|i: int| 0 <= i < rest.len() implies {
                    &&& (#[trigger] rest[i]) is Crash ==> i + 1 < rest.len() && rest[i
                        + 1] is Recover
                    &&& rest[i] is Recover ==> i > 0 && rest[i - 1] is Crash
                } by {
                    assert(ops[i] == rest[i]);
                }
            }
            let records = q.durable + q.staged;
            live_is_replayed(rest);
            lemma_replay_places(records);
            match ops.last() {
                Operation::Enqueue(value) => {
                    lemma_replay_push(records, Logged::Enqueue(value));
                    assert(n.durable + n.staged =~= records.push(Logged::Enqueue(value)));
                },
                Operation::Dequeue => {
                    if q.live.len() > 0 {
                        let record = Logged::Dequeue(q.live[0].0);
                        lemma_replay_push(records, record);
                        assert(n.durable + n.staged =~= records.push(record));
                        lemma_without(q.live, q.live[0].0, 0);
                        assert(q.live.remove(0) =~= q.live.drop_first());
                    }
                },
                Operation::EnqueueUnsynced(value) => {
                    lemma_replay_push(records, Logged::Enqueue(value));
                    assert(n.durable + n.staged =~= records.push(Logged::Enqueue(value)));
                },
                _ => {},
            }
        }
    }
}

/// Whether an operation leaves nothing staged behind.
pub open spec fn syncs(q: QueueState, op: Operation) -> bool {
    match op {
        Operation::Enqueue(value) => true,
        Operation::Dequeue => q.live.len() > 0,
        Operation::EnqueueUnsynced(value) => false,
        Operation::Crash => false,
        Operation::Recover => true,
    }
}

/// Number of operations up to the last one that leaves nothing staged behind.
pub open spec fn synced(ops: Seq<Operation>) -> nat
    decreases ops.len(),
{
    if ops.len() == 0 {
        0
    } else if syncs(after(ops.drop_last()), ops.last()) {
        ops.len()
    } else {
        synced(ops.drop_last())
    }
}

/// Recovery is consistent: a queue that recovers from each crash comes back, from one more, as it
/// was when the last operation that completed its `psync`, or the last recovery, returned. So every
/// value that was durably enqueued and not durably dequeued is there, once, in order; no value that
/// was durably dequeued comes back; and what was only staged is lost.
pub proof fn recovery_is_consistent(ops: Seq<Operation>)
    requires
        recovers(ops),
    ensures
        after(ops).crashed().recovered().live == after(ops.take(synced(ops) as int)).live,
        synced(ops) <= ops.len(),
        synced(ops) == ops.len() ==> after(ops).crashed().recovered().live == after(ops).live,
    decreases ops.len(),
{
    if ops.len() == 0 {
        assert(ops.take(0) =~= ops);
        assert(after(ops).live =~= replay(after(ops).durable));
    } else {
        let rest = ops.drop_last();
        let q = after(rest);
        assert(ops[ops.len() - 1] == ops.last());
        if syncs(q, ops.last()) {
            assert(ops.take(ops.len() as int) =~= ops);
            live_is_replayed(ops);
            if ops.last() is Recover {
                assert(q == after(rest.drop_last()).crashed());
            }
            assert(after(ops).durable + after(ops).staged =~= after(ops).durable);
        } else {
            assert(recovers(rest)) by {
                assert forall|i: int| 0 <= i < rest.len() implies {
                    &&& (#[trigger] rest[i]) is Crash ==> i + 1 < rest.len() && rest[i
                        + 1] is Recover
                    &&& rest[i] is Recover ==> i > 0 && rest[i - 1] is Crash
                } by {
                    assert(ops[i] == rest[i]);
                }
            }
            recovery_is_consistent(rest);
            assert(after(ops).durable == q.durable);
            assert(ops.take(synced(rest) as int) =~= rest.take(synced(rest) as int));
        }
    }
}

/// An operation that has returned survives a crash: in a queue that recovers from each crash, what
/// recovery gives after an enqueue or a dequeue is what the queue held when it returned.
pub proof fn operations_survive(ops: Seq<Operation>, value: u64)
    requires
        recovers(ops),
    ensures
        ({
            let q = after(ops);
            &&& q.enqueued(value).crashed().recovered().contents() == q.contents().push(value)
            &&& q.live.len() > 0 ==> q.dequeued().crashed().recovered().contents()
                == q.contents().drop_first()
        }),
{
    let q = after(ops);
    lemma_survives(ops, Operation::Enqueue(value));
    assert(q.enqueued(value).contents() =~= q.contents().push(value));
    if q.live.len() > 0 {
        lemma_survives(ops, Operation::Dequeue);
        assert(q.dequeued().contents() =~= q.contents().drop_first());
    }
}

proof fn lemma_survives(ops: Seq<Operation>, op: Operation)
    requires
        recovers(ops),
        op is Enqueue || op is Dequeue && after(ops).live.len() > 0,
    ensures
        applied(after(ops), op).crashed().recovered().live == applied(after(ops), op).live,
{
    let more = ops.push(op);
    assert(more.drop_last() =~= ops);
    assert forall|i: int| 0 <= i < more.len() implies {
        &&& (#[trigger] more[i]) is Crash ==> i + 1 < more.len() && more[i + 1] is Recover
        &&& more[i] is Recover ==> i > 0 && more[i - 1] is Crash
    } by {
        if i < ops.len() {
            assert(ops[i] == more[i]);
        }
    }
    recovery_is_consistent(more);
}

/// A crash empties the queue and keeps what is durable; another one changes nothing, and until
/// something is enqueued or recovered there is nothing to dequeue.
pub proof fn crash_leaves_the_durable(q: QueueState)
    ensures
        q.crashed().contents() == Seq::<u64>::empty(),
        q.crashed().staged == Seq::<Logged>::empty(),
        q.crashed().durable == q.durable,
        q.crashed().psyncs == q.psyncs,
        q.crashed().crashed() == q.crashed(),
        q.crashed().dequeued() == q.crashed(),
{
    assert(q.crashed().contents() =~= Seq::<u64>::empty());
}

/// Number of durable operations: enqueues, and dequeues that removed a value.
pub open spec fn durable_operations(ops: Seq<Operation>) -> nat
    decreases ops.len(),
{
    if ops.len() == 0 {
        0
    } else {
        durable_operations(ops.drop_last()) + if match ops.last() {
            Operation::Enqueue(value) => true,
            Operation::Dequeue => after(ops.drop_last()).live.len() > 0,
            _ => false,
        } {
            1nat
        } else {
            0
        }
    }
}

/// One `psync` per durable operation: the count of fences is the number of durable enqueues and
/// of dequeues that removed a value.
pub proof fn one_psync_per_operation(ops: Seq<Operation>)
    ensures
        after(ops).psyncs == durable_operations(ops),
    decreases ops.len(),
{
    if ops.len() > 0 {
        one_psync_per_operation(ops.drop_last());
    }
}

} // verus!
