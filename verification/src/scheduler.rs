//! A lifeline-graph work-stealing scheduler.
//!
//! Every worker drains its own deque. An idle worker tries random victims, then its lifeline
//! buddies, which are its neighbours in a hypercube. If there is nothing to steal it registers on
//! its buddies' lifelines and sleeps until work is published or all work is done. A global count
//! of outstanding tasks, queued or running, decides when that is.
//!
//! [`Shared`] is what the workers share, and a [`Stage`] is where a worker stands.
//! [`Shared::step`] takes a worker from one stage to the next; a driver runs the tasks, and puts
//! sleeping workers to sleep. [`crate::scheduling`] proves what holds when the steps of all workers
//! interleave.

use vstd::arithmetic::div_mod;
use vstd::arithmetic::logarithm;
use vstd::arithmetic::power;
use vstd::prelude::*;

use crate::deque;
use crate::deque::Worker;
use crate::hypercube;
use crate::steal::Steal;
use crate::windows;

verus! {

/// The lifeline neighbours of worker `id` among `n` workers: those whose number differs in one
/// bit.
pub fn hypercube_neighbours(id: usize, n: usize) -> (out: Vec<usize>)
    requires
        hypercube::fits(n),
    ensures
        out@ == hypercube::neighbours(id, n),
        forall|c: usize| #[trigger]
            out@.contains(c) <==> c < n && exists|h: usize|
                h < usize::BITS && (1usize << h) < n && c == id ^ #[trigger] (1usize << h),
        forall|i: int, j: int|
            0 <= i < j < out@.len() ==> (#[trigger] out@[i] ^ id) < (#[trigger] out@[j] ^ id),
{
    let mut out: Vec<usize> = Vec::new();
    let mut bit: usize = 1;
    let ghost mut k: nat = 0;
    assert(1usize << 0usize == 1) by (bit_vector);
    while bit < n
        invariant
            hypercube::fits(n),
            k < usize::BITS,
            bit == hypercube::bit(k),
            out@ == hypercube::near(id, n, k),
        decreases usize::BITS - k,
    {
        proof {
            hypercube::lemma_fits(n);
            assert(k < usize::BITS - 1);
            hypercube::lemma_step(id, k);
        }
        let neighbour = id ^ bit;
        if neighbour < n && neighbour != id {
            out.push(neighbour);
        }
        bit = bit << 1;
        proof {
            k = k + 1;
        }
    }
    proof {
        hypercube::lemma_near_stops(id, n, k, (usize::BITS - 1) as nat);
        let all = hypercube::neighbours(id, n);
        hypercube::lowest_bit_first(id, n);
        assert(out@ == all);
        assert forall|c: usize| #[trigger] out@.contains(c) <==> c < n && exists|h: usize|
            h < usize::BITS && (1usize << h) < n && c == id ^ #[trigger] (1usize << h) by {
            assert(out@.contains(c) == all.contains(c));
        }
    }
    out
}

/// The start of the random numbers of worker `me`.
pub open spec fn seed(me: usize) -> u64 {
    0x9E3779B97F4A7C15u64 ^ (me as u64).wrapping_mul(0xD1B54A32D192ED03u64).wrapping_add(1)
}

/// The random number after `x`.
pub open spec fn shifted(x: u64) -> u64 {
    let a = x ^ (x << 13u64);
    let b = a ^ (a >> 7u64);
    b ^ (b << 17u64)
}

/// The start of the random numbers of worker `me`.
pub fn seed_rng(me: usize) -> (r: u64)
    ensures
        r == seed(me),
        r ^ 0x9E3779B97F4A7C15u64 == (me as u64).wrapping_mul(0xD1B54A32D192ED03u64).wrapping_add(1),
{
    proof {
        let a = (me as u64).wrapping_mul(0xD1B54A32D192ED03u64).wrapping_add(1);
        assert((0x9E3779B97F4A7C15u64 ^ a) ^ 0x9E3779B97F4A7C15u64 == a) by (bit_vector);
    }
    0x9E3779B97F4A7C15u64 ^ (me as u64).wrapping_mul(0xD1B54A32D192ED03u64).wrapping_add(1)
}

/// The random number after `x`.
pub fn xorshift(x: u64) -> (r: u64)
    ensures
        r == shifted(x),
        ({
            let b = r ^ (r << 17u64) ^ (r << 34u64) ^ (r << 51u64);
            let a = b ^ (b >> 7u64) ^ (b >> 14u64) ^ (b >> 21u64) ^ (b >> 28u64) ^ (b >> 35u64) ^ (b
                >> 42u64) ^ (b >> 49u64) ^ (b >> 56u64) ^ (b >> 63u64);
            x == a ^ (a << 13u64) ^ (a << 26u64) ^ (a << 39u64) ^ (a << 52u64)
        }),
{
    proof {
        lemma_undo(x);
    }
    let a = x ^ (x << 13u64);
    let b = a ^ (a >> 7u64);
    b ^ (b << 17u64)
}

/// A random number gives back the one before it: each shift of a number by `s` bits that is mixed
/// into it comes off again by mixing in the shifts by all multiples of `s`. So no two numbers have
/// the same successor, and only zero is followed by zero.
pub proof fn a_shift_can_be_undone(x: u64)
    ensures
        ({
            let c = shifted(x);
            let b = c ^ (c << 17u64) ^ (c << 34u64) ^ (c << 51u64);
            let a = b ^ (b >> 7u64) ^ (b >> 14u64) ^ (b >> 21u64) ^ (b >> 28u64) ^ (b >> 35u64) ^ (b
                >> 42u64) ^ (b >> 49u64) ^ (b >> 56u64) ^ (b >> 63u64);
            x == a ^ (a << 13u64) ^ (a << 26u64) ^ (a << 39u64) ^ (a << 52u64)
        }),
        forall|y: u64| #[trigger] shifted(y) == shifted(x) ==> y == x,
        shifted(x) == 0 <==> x == 0,
{
    lemma_undo(x);
    lemma_undo(0);
    assert(0u64 ^ (0u64 << 13u64) == 0 && 0u64 ^ (0u64 >> 7u64) == 0 && 0u64 ^ (0u64 << 17u64) == 0)
        by (bit_vector);
    assert forall|y: u64| #[trigger] shifted(y) == shifted(x) implies y == x by {
        lemma_undo(y);
    }
}

proof fn lemma_undo(x: u64)
    ensures
        ({
            let c = shifted(x);
            let b = c ^ (c << 17u64) ^ (c << 34u64) ^ (c << 51u64);
            let a = b ^ (b >> 7u64) ^ (b >> 14u64) ^ (b >> 21u64) ^ (b >> 28u64) ^ (b >> 35u64) ^ (b
                >> 42u64) ^ (b >> 49u64) ^ (b >> 56u64) ^ (b >> 63u64);
            x == a ^ (a << 13u64) ^ (a << 26u64) ^ (a << 39u64) ^ (a << 52u64)
        }),
{
    let a = x ^ (x << 13u64);
    let b = a ^ (a >> 7u64);
    let c = b ^ (b << 17u64);
    assert(b == c ^ (c << 17u64) ^ (c << 34u64) ^ (c << 51u64)) by (bit_vector)
        requires
            c == b ^ (b << 17u64),
    ;
    assert(a == b ^ (b >> 7u64) ^ (b >> 14u64) ^ (b >> 21u64) ^ (b >> 28u64) ^ (b >> 35u64) ^ (b
        >> 42u64) ^ (b >> 49u64) ^ (b >> 56u64) ^ (b >> 63u64)) by (bit_vector)
        requires
            b == a ^ (a >> 7u64),
    ;
    assert(x == a ^ (a << 13u64) ^ (a << 26u64) ^ (a << 39u64) ^ (a << 52u64)) by (bit_vector)
        requires
            a == x ^ (x << 13u64),
    ;
}

/// The starts of the workers' random numbers are spread evenly: from one worker to the next they
/// are one stride apart, once the common pattern is taken off.
pub proof fn seeds_are_a_stride_apart(me: usize)
    ensures
        seed(0) ^ 0x9E3779B97F4A7C15u64 == 1,
        me < usize::MAX ==> seed((me + 1) as usize) ^ 0x9E3779B97F4A7C15u64 == (seed(me)
            ^ 0x9E3779B97F4A7C15u64).wrapping_add(0xD1B54A32D192ED03u64),
{
    let stride: u64 = 0xD1B54A32D192ED03u64;
    let a = (me as u64).wrapping_mul(stride).wrapping_add(1);
    let zero = 0u64.wrapping_mul(stride).wrapping_add(1);
    assert((0x9E3779B97F4A7C15u64 ^ a) ^ 0x9E3779B97F4A7C15u64 == a) by (bit_vector);
    assert((0x9E3779B97F4A7C15u64 ^ zero) ^ 0x9E3779B97F4A7C15u64 == zero) by (bit_vector);
    if me < usize::MAX {
        let b = ((me + 1) as u64).wrapping_mul(stride).wrapping_add(1);
        assert((0x9E3779B97F4A7C15u64 ^ b) ^ 0x9E3779B97F4A7C15u64 == b) by (bit_vector);
        let m: int = 0x1_0000_0000_0000_0000;
        assert((me + 1) * stride == me * stride + stride) by (nonlinear_arith);
        div_mod::lemma_add_mod_noop(me * stride, stride as int, m);
        div_mod::lemma_small_mod(stride as nat, m as nat);
        assert(((me + 1) * stride) % m == ((me * stride) % m + stride) % m);
    }
}

/// The logarithm of `n` to base two, rounded up.
pub open spec fn log2_up(n: int) -> int {
    if n <= 1 {
        0
    } else {
        logarithm::log(2, n - 1) + 1
    }
}

/// Number of random victims that an idle worker tries: the logarithm of the number of workers, and
/// at least one.
pub open spec fn probes(n: usize) -> int {
    if n <= 2 {
        1
    } else {
        log2_up(n as int)
    }
}

/// The `k`-th random number of worker `me`.
pub open spec fn random(me: usize, k: nat) -> u64
    decreases k,
{
    if k == 0 {
        seed(me)
    } else {
        shifted(random(me, (k - 1) as nat))
    }
}

/// The first `k` random victims of worker `me`, without itself.
pub open spec fn random_victims(me: usize, n: usize, k: nat) -> Seq<usize>
    decreases k,
{
    if k == 0 {
        Seq::empty()
    } else {
        let rest = random_victims(me, n, (k - 1) as nat);
        let victim = ((random(me, k) as usize) % n) as usize;
        if victim != me {
            rest.push(victim)
        } else {
            rest
        }
    }
}

/// The victims that an idle worker tries, in order: random ones, then its lifeline buddies.
pub open spec fn victims(me: usize, n: usize) -> Seq<usize> {
    random_victims(me, n, probes(n) as nat) + hypercube::neighbours(me, n)
}

proof fn lemma_log_bounds(m: int)
    requires
        m >= 1,
    ensures
        logarithm::log(2, m) >= 0,
        power::pow(2, logarithm::log(2, m) as nat) <= m,
        m < power::pow(2, (logarithm::log(2, m) + 1) as nat),
    decreases m,
{
    if m < 2 {
        logarithm::lemma_log0(2, m);
        power::lemma_pow0(2);
        power::lemma_pow1(2);
    } else {
        logarithm::lemma_log_s(2, m);
        lemma_log_bounds(m / 2);
        let l = logarithm::log(2, m / 2) as nat;
        reveal(power::pow);
        assert(power::pow(2, l + 1) == 2 * power::pow(2, l));
        assert(power::pow(2, l + 2) == 2 * power::pow(2, l + 1));
    }
}

/// An idle worker tries one random victim among two workers, and with more of them the least
/// number that two to its power reaches the number of workers.
pub proof fn as_many_probes_as_bits(n: usize)
    ensures
        n <= 2 ==> probes(n) == 1,
        n > 2 ==> power::pow(2, (probes(n) - 1) as nat) < n <= power::pow(2, probes(n) as nat),
        probes(n) >= 1,
{
    if n > 2 {
        lemma_log_bounds(n - 1);
    }
}

/// The random numbers of a worker follow one another from its start, and each of the first `k` is a
/// victim in its turn, unless it falls on the worker itself.
pub proof fn each_number_is_a_victim(me: usize, n: usize, k: nat)
    requires
        me < n,
    ensures
        random(me, 0) == seed(me),
        random(me, k + 1) == shifted(random(me, k)),
        random_victims(me, n, 0).len() == 0,
        ({
            let fell = (random(me, k + 1) as usize) as int % n as int;
            let before = random_victims(me, n, k);
            let after = random_victims(me, n, k + 1);
            &&& fell == me ==> after == before
            &&& fell != me ==> after.len() == before.len() + 1 && after.last() == fell
                && after.drop_last() == before
        }),
{
    if random_victims(me, n, k + 1).len() > random_victims(me, n, k).len() {
        assert(random_victims(me, n, k + 1).drop_last() =~= random_victims(me, n, k));
    }
}

/// An idle worker tries its random victims and then every one of its lifeline buddies: with no work
/// at any of its victims, there is none at any node that differs from it in one bit.
pub proof fn every_buddy_is_a_victim(me: usize, n: usize)
    requires
        hypercube::fits(n),
        me < n,
    ensures
        ({
            let drawn = random_victims(me, n, probes(n) as nat);
            let order = victims(me, n);
            &&& forall|i: int| 0 <= i < drawn.len() ==> #[trigger] order[i] == drawn[i]
            &&& order.skip(drawn.len() as int) == hypercube::neighbours(me, n)
            &&& forall|h: usize|
                h < usize::BITS && (me ^ #[trigger] (1usize << h)) < n && (1usize << h) < n
                    ==> order.contains(me ^ (1usize << h))
        }),
{
    let drawn = random_victims(me, n, probes(n) as nat);
    let order = victims(me, n);
    let buddies = hypercube::neighbours(me, n);
    assert(order.skip(drawn.len() as int) =~= buddies);
    hypercube::lowest_bit_first(me, n);
    assert forall|h: usize|
        h < usize::BITS && (me ^ #[trigger] (1usize << h)) < n && (1usize << h) < n implies order.contains(
    me ^ (1usize << h)) by {
        let c = me ^ (1usize << h);
        assert(buddies.contains(c));
        let i = choose|i: int| 0 <= i < buddies.len() && buddies[i] == c;
        assert(order[drawn.len() + i] == c);
    }
}

/// Number of random victims that an idle worker tries among `n` workers.
pub fn probes_of(n: usize) -> (w: usize)
    ensures
        w == probes(n),
        n <= 2 ==> w == 1,
        n > 2 ==> power::pow(2, (w - 1) as nat) < n <= power::pow(2, w as nat),
{
    proof {
        as_many_probes_as_bits(n);
    }
    if n <= 2 {
        return 1;
    }
    let mut rest = n - 1;
    let mut w: usize = 0;
    while rest > 0
        invariant
            n > 2,
            w + rest <= n - 1,
            w + log2_up(rest + 1) == log2_up(n as int),
        decreases rest,
    {
        proof {
            if rest >= 2 {
                logarithm::lemma_log_s(2, rest as int);
            } else {
                logarithm::lemma_log0(2, rest as int);
            }
        }
        rest = rest / 2;
        w += 1;
    }
    w
}

/// The victims that worker `me` tries, in order.
pub fn victims_of(me: usize, n: usize) -> (out: Vec<usize>)
    requires
        hypercube::fits(n),
        me < n,
    ensures
        out@ == victims(me, n),
        out@ == random_victims(me, n, probes(n) as nat) + hypercube::neighbours(me, n),
        forall|i: int| 0 <= i < out@.len() ==> #[trigger] out@[i] < n && out@[i] != me,
{
    let mut out: Vec<usize> = Vec::new();
    let w = probes_of(n);
    let mut rng = seed_rng(me);
    let mut k: usize = 0;
    while k < w
        invariant
            me < n,
            k <= w == probes(n),
            rng == random(me, k as nat),
            out@ == random_victims(me, n, k as nat),
            forall|i: int| 0 <= i < out@.len() ==> #[trigger] out@[i] < n && out@[i] != me,
        decreases w - k,
    {
        rng = xorshift(rng);
        let victim = (rng as usize) % n;
        if victim != me {
            out.push(victim);
        }
        k += 1;
    }
    let ghost drawn = out@;
    let mut buddies = hypercube_neighbours(me, n);
    proof {
        assert forall|i: int| 0 <= i < buddies@.len() implies #[trigger] buddies@[i] < n
            && buddies@[i] != me by {
            hypercube::neighbours_are_others(me, n, i);
        }
    }
    out.append(&mut buddies);
    out
}

/// What the workers share, as a mathematical value.
#[verifier::ext_equal]
pub struct SharedState<T> {
    /// The queued tasks of each worker, from the oldest to the newest.
    pub deques: Seq<Seq<T>>,
    /// The workers that have registered on each worker's lifeline.
    pub requests: Seq<Seq<usize>>,
    /// Tasks that are queued or running.
    pub outstanding: int,
    /// Changes whenever work is published.
    pub generation: u64,
    /// All work is done.
    pub terminated: bool,
}

/// Where a worker stands.
pub enum Stage<T> {
    /// About to pop from its own deque.
    Drain { did_work: bool },
    /// Has a task; the driver runs it, and the task may spawn others.
    Run { task: T, stolen: bool },
    /// The task is done; about to count it.
    Finish { stolen: bool },
    /// Has seen the last task done; about to declare termination.
    Declare { exit: bool },
    /// About to try its next victim. `snapshot` is the generation before the first one.
    Steal { snapshot: u64, tried: usize },
    /// Has found nothing to steal; about to look whether all work is done.
    Check { snapshot: u64 },
    /// About to register on the lifeline of its next buddy.
    Register { snapshot: u64, next: usize },
    /// About to go to sleep, unless something has happened.
    Park { snapshot: u64 },
    /// Asleep until work is published or all work is done.
    Asleep { snapshot: u64 },
    /// Has left.
    Exit,
}

impl<T> SharedState<T> {
    /// Number of workers.
    pub open spec fn n(self) -> usize {
        self.deques.len() as usize
    }

    /// Number of queued tasks.
    pub open spec fn queued(self) -> nat {
        windows::concat(self.deques).len()
    }

    /// The state after worker `me` has spawned `task`: it is queued and counted, the lifeline
    /// requests on `me` are satisfied, and the generation changes.
    pub open spec fn spawned(self, me: int, task: T) -> SharedState<T> {
        SharedState {
            deques: self.deques.update(me, self.deques[me].push(task)),
            requests: self.requests.update(me, Seq::empty()),
            outstanding: self.outstanding + 1,
            generation: self.generation.wrapping_add(1),
            ..self
        }
    }

    /// The state after worker `me` has stolen about half of the tasks of `victim`, if there are
    /// any: it has the oldest in hand and the others in its own deque.
    pub open spec fn stolen(self, victim: int, me: int) -> SharedState<T> {
        let from = self.deques[victim];
        if from.len() == 0 {
            self
        } else {
            let want = deque::batch(from.len() as int);
            SharedState {
                deques: self.deques.update(victim, from.skip(want)).update(
                    me,
                    self.deques[me] + from.subrange(1, want),
                ),
                ..self
            }
        }
    }

    /// The state after worker `me` has registered on the lifeline of `buddy`.
    pub open spec fn registered(self, me: usize, buddy: int) -> SharedState<T> {
        SharedState {
            requests: self.requests.update(
                buddy,
                if self.requests[buddy].contains(me) {
                    self.requests[buddy]
                } else {
                    self.requests[buddy].push(me)
                },
            ),
            ..self
        }
    }

    /// The counts are consistent and within the machine's limits.
    pub open spec fn counted(self) -> bool {
        &&& self.queued() <= self.outstanding
        &&& 2 * (self.outstanding + 1) <= isize::MAX
    }
}

/// The next state and stage after one step of worker `me`.
pub open spec fn step_next<T>(s: SharedState<T>, me: usize, stage: Stage<T>) -> (
    SharedState<T>,
    Stage<T>,
) {
    let own = s.deques[me as int];
    match stage {
        Stage::Drain { did_work } => if own.len() > 0 {
            (
                SharedState { deques: s.deques.update(me as int, own.drop_last()), ..s },
                Stage::Run { task: own.last(), stolen: false },
            )
        } else if did_work {
            (s, Stage::Drain { did_work: false })
        } else {
            (s, Stage::Steal { snapshot: s.generation, tried: 0 })
        },
        Stage::Run { task, stolen } => (s, stage),
        Stage::Finish { stolen } => (
            SharedState { outstanding: s.outstanding - 1, ..s },
            if s.outstanding == 1 {
                Stage::Declare { exit: false }
            } else {
                Stage::Drain { did_work: !stolen }
            },
        ),
        Stage::Declare { exit } => (
            SharedState { terminated: true, ..s },
            if exit {
                Stage::Exit
            } else {
                Stage::Drain { did_work: false }
            },
        ),
        Stage::Steal { snapshot, tried } => if tried < victims(me, s.n()).len() {
            let victim = victims(me, s.n())[tried as int] as int;
            (
                s.stolen(victim, me as int),
                if s.deques[victim].len() > 0 {
                    Stage::Run { task: s.deques[victim][0], stolen: true }
                } else {
                    Stage::Steal { snapshot, tried: (tried + 1) as usize }
                },
            )
        } else {
            (s, Stage::Check { snapshot })
        },
        Stage::Check { snapshot } => (
            s,
            if s.outstanding == 0 {
                Stage::Declare { exit: true }
            } else {
                Stage::Register { snapshot, next: 0 }
            },
        ),
        Stage::Register { snapshot, next } => {
            let buddies = hypercube::neighbours(me, s.n());
            if next < buddies.len() {
                (
                    s.registered(me, buddies[next as int] as int),
                    Stage::Register { snapshot, next: (next + 1) as usize },
                )
            } else {
                (s, Stage::Park { snapshot })
            }
        },
        Stage::Park { snapshot } => (
            s,
            if s.terminated || s.outstanding == 0 {
                Stage::Exit
            } else if s.generation != snapshot {
                Stage::Drain { did_work: false }
            } else {
                Stage::Asleep { snapshot }
            },
        ),
        Stage::Asleep { snapshot } => (
            s,
            if s.terminated {
                Stage::Exit
            } else if s.generation != snapshot {
                Stage::Drain { did_work: false }
            } else {
                Stage::Asleep { snapshot }
            },
        ),
        Stage::Exit => (s, Stage::Exit),
    }
}

/// A worker takes its own newest task first, looks for a task to steal only when it has none, and
/// asks every victim once, in turn. It leaves only when no task is outstanding or termination is
/// declared, and termination is declared only by a worker that has seen no task outstanding.
pub proof fn a_worker_goes_from_stage_to_stage<T>(s: SharedState<T>, me: usize, stage: Stage<T>)
    requires
        me < s.deques.len(),
    ensures
        ({
            let (n, next) = step_next(s, me, stage);
            let own = s.deques[me as int];
            let order = victims(me, s.n());
            let buddies = hypercube::neighbours(me, s.n());
            &&& n.generation == s.generation
            &&& n.terminated == (s.terminated || stage is Declare)
            &&& n.outstanding == s.outstanding - if stage is Finish {
                1int
            } else {
                0
            }
            &&& !(stage is Drain || stage is Steal) ==> n.deques == s.deques
            &&& !(stage is Register) ==> n.requests == s.requests
            &&& match stage {
                Stage::Drain { did_work } => {
                    &&& own.len() > 0 ==> next == (Stage::Run { task: own.last(), stolen: false })
                        && n.deques == s.deques.update(me as int, own.drop_last())
                    &&& own.len() == 0 ==> n == s && next == if did_work {
                        Stage::<T>::Drain { did_work: false }
                    } else {
                        Stage::<T>::Steal { snapshot: s.generation, tried: 0 }
                    }
                },
                Stage::Run { .. } => next == stage,
                Stage::Finish { stolen } => next == if s.outstanding == 1 {
                    Stage::<T>::Declare { exit: false }
                } else {
                    Stage::<T>::Drain { did_work: !stolen }
                },
                Stage::Declare { exit } => next == if exit {
                    Stage::<T>::Exit
                } else {
                    Stage::<T>::Drain { did_work: false }
                },
                Stage::Steal { snapshot, tried } => {
                    let victim = order[tried as int] as int;
                    let from = s.deques[victim];
                    &&& tried >= order.len() ==> n == s && next == (Stage::<T>::Check { snapshot })
                    &&& tried < order.len() && from.len() == 0 ==> n.deques == s.deques && next == (
                    Stage::<T>::Steal { snapshot, tried: (tried + 1) as usize })
                    &&& tried < order.len() && from.len() > 0 ==> {
                        &&& next == (Stage::Run { task: from[0], stolen: true })
                        &&& n.deques == s.deques.update(
                            victim,
                            from.skip((from.len() as int + 1) / 2),
                        ).update(me as int, own + from.subrange(1, (from.len() as int + 1) / 2))
                    }
                },
                Stage::Check { snapshot } => next == if s.outstanding == 0 {
                    Stage::<T>::Declare { exit: true }
                } else {
                    Stage::<T>::Register { snapshot, next: 0 }
                },
                Stage::Register { snapshot, next: b } => {
                    let list = s.requests[buddies[b as int] as int];
                    &&& b >= buddies.len() ==> n == s && next == (Stage::<T>::Park { snapshot })
                    &&& b < buddies.len() ==> next == (Stage::<T>::Register {
                        snapshot,
                        next: (b + 1) as usize,
                    }) && n.requests == s.requests.update(
                        buddies[b as int] as int,
                        if list.contains(me) {
                            list
                        } else {
                            list.push(me)
                        },
                    )
                },
                Stage::Park { snapshot } => {
                    &&& next is Exit <==> s.terminated || s.outstanding == 0
                    &&& next == (Stage::<T>::Asleep { snapshot }) <==> !s.terminated
                        && s.outstanding != 0 && s.generation == snapshot
                    &&& next == (Stage::<T>::Drain { did_work: false }) <==> !s.terminated
                        && s.outstanding != 0 && s.generation != snapshot
                },
                Stage::Asleep { snapshot } => {
                    &&& next is Exit <==> s.terminated
                    &&& next == stage <==> !s.terminated && s.generation == snapshot
                    &&& next == (Stage::<T>::Drain { did_work: false }) <==> !s.terminated
                        && s.generation != snapshot
                },
                Stage::Exit => n == s && next == stage,
            }
        }),
{
}

/// Spawning a task queues it as the newest of its worker, and changes the generation, so that no
/// worker sleeps through it.
pub proof fn spawned_work_wakes_sleepers<T>(
    s: SharedState<T>,
    me: int,
    task: T,
    other: usize,
    snapshot: u64,
)
    requires
        0 <= me < s.deques.len(),
        s.generation == snapshot,
    ensures
        ({
            let n = s.spawned(me, task);
            &&& n.deques[me].last() == task && n.deques[me].drop_last() == s.deques[me]
            &&& forall|i: int|
                0 <= i < s.deques.len() && i != me ==> #[trigger] n.deques[i] == s.deques[i]
            &&& n.deques.len() == s.deques.len()
            &&& n.outstanding == s.outstanding + 1 && n.terminated == s.terminated
            &&& n.generation != s.generation
            &&& !(step_next(n, other, Stage::Asleep { snapshot }).1 is Asleep)
            &&& !(step_next(n, other, Stage::Park { snapshot }).1 is Asleep)
        }),
{
    assert(s.deques[me].push(task).drop_last() =~= s.deques[me]);
}

/// The tasks that fall to worker `k` when tasks are dealt to `n` workers in turn.
pub open spec fn dealt<T>(tasks: Seq<T>, n: int, k: int) -> Seq<T>
    decreases tasks.len(),
{
    if tasks.len() == 0 {
        Seq::empty()
    } else {
        let rest = dealt(tasks.drop_last(), n, k);
        if (tasks.len() - 1) % n == k {
            rest.push(tasks.last())
        } else {
            rest
        }
    }
}

/// Tasks dealt to `n` workers in turn.
pub open spec fn shares<T>(tasks: Seq<T>, n: int) -> Seq<Seq<T>> {
    Seq::new(n as nat, |k: int| dealt(tasks, n, k))
}

/// Dealing hands out every task, once: the shares together hold exactly the tasks.
pub proof fn dealt_is_everything<T>(tasks: Seq<T>, n: int)
    requires
        n > 0,
    ensures
        windows::concat(shares(tasks, n)).to_multiset() == tasks.to_multiset(),
        windows::concat(shares(tasks, n)).len() == tasks.len(),
    decreases tasks.len(),
{
    broadcast use vstd::seq_lib::group_to_multiset_ensures;

    let all = shares(tasks, n);
    if tasks.len() == 0 {
        windows::lemma_concat_empty(all);
        assert(tasks =~= Seq::<T>::empty());
    } else {
        let rest = tasks.drop_last();
        let before = shares(rest, n);
        let k = (tasks.len() - 1) % n;
        vstd::arithmetic::div_mod::lemma_mod_bound(tasks.len() - 1, n);
        dealt_is_everything(rest, n);
        let more = before[k].push(tasks.last());
        assert(all =~= before.update(k, more));
        windows::lemma_concat_update(before, k, more);
        lemma_concat_len(before, k, more);
        assert(more.to_multiset() == before[k].to_multiset().insert(tasks.last()));
        assert(tasks =~= rest.push(tasks.last()));
        let bag = windows::concat(all).to_multiset();
        assert forall|t: T| bag.count(t) == tasks.to_multiset().count(t) by {
            assert(bag.add(before[k].to_multiset()).count(t) == windows::concat(
                before,
            ).to_multiset().add(more.to_multiset()).count(t));
        }
        assert(bag =~= tasks.to_multiset());
    }
}

proof fn lemma_dealt<T>(tasks: Seq<T>, n: int, k: int, j: int)
    requires
        n > 0,
        0 <= k < n,
    ensures
        dealt(tasks, n, k).len() == (tasks.len() + n - 1 - k) / n,
        0 <= j < dealt(tasks, n, k).len() ==> j * n + k < tasks.len() && dealt(tasks, n, k)[j]
            == tasks[j * n + k],
    decreases tasks.len(),
{
    if tasks.len() == 0 {
        assert((n - 1 - k) / n == 0) by (nonlinear_arith)
            requires
                0 <= k < n,
        ;
    } else {
        let rest = tasks.drop_last();
        let last = tasks.len() - 1;
        lemma_dealt(rest, n, k, j);
        let q = last / n;
        let m = last % n;
        div_mod::lemma_fundamental_div_mod(last, n);
        div_mod::lemma_mod_bound(last, n);
        assert(n * q == q * n) by (nonlinear_arith);
        if m == k {
            assert((q * n + n - 1) / n == q && (q * n + n) / n == q + 1) by (nonlinear_arith)
                requires
                    n > 0,
            ;
        } else if m < k {
            assert((q * n + m + n - 1 - k) / n == q && (q * n + m + n - k) / n == q)
                by (nonlinear_arith)
                requires
                    0 <= m < k < n,
            ;
        } else {
            assert((q * n + m + n - 1 - k) / n == q + 1 && (q * n + m + n - k) / n == q + 1)
                by (nonlinear_arith)
                requires
                    0 <= k < m < n,
            ;
        }
        if 0 <= j < dealt(rest, n, k).len() {
            assert(0 <= j * n) by (nonlinear_arith)
                requires
                    0 <= j,
                    n > 0,
            ;
        }
    }
}

/// Tasks are dealt in turn: among `n` workers, task `i` is number `i / n` of worker `i % n`, and
/// every worker has its part of the tasks, rounded up for the first ones and down for the others.
pub proof fn dealt_in_turn<T>(tasks: Seq<T>, n: int, i: int, k: int)
    requires
        n > 0,
    ensures
        shares(tasks, n).len() == n,
        0 <= k < n ==> shares(tasks, n)[k].len() == (tasks.len() + n - 1 - k) / n,
        0 <= i < tasks.len() ==> i / n < shares(tasks, n)[i % n].len() && shares(tasks, n)[i % n][i
            / n] == tasks[i],
{
    if 0 <= k < n {
        lemma_dealt(tasks, n, k, 0);
    }
    if 0 <= i < tasks.len() {
        let q = i / n;
        let m = i % n;
        div_mod::lemma_fundamental_div_mod(i, n);
        div_mod::lemma_mod_bound(i, n);
        div_mod::lemma_div_pos_is_pos(i, n);
        lemma_dealt(tasks, n, m, q);
        let len = tasks.len() as int;
        assert(n * q == q * n) by (nonlinear_arith);
        assert((len + n - 1 - m) / n >= q + 1) by (nonlinear_arith)
            requires
                q * n + m < len,
                n > 0,
        ;
    }
}

/// What `n` workers share after `tasks` are dealt to them.
pub open spec fn seeded<T>(n: int, tasks: Seq<T>) -> SharedState<T> {
    SharedState {
        deques: shares(tasks, n),
        requests: Seq::new(n as nat, |k: int| Seq::empty()),
        outstanding: tasks.len() as int,
        generation: 0,
        terminated: false,
    }
}

/// What the workers share.
pub struct Shared<T> {
    deques: Vec<Worker<T>>,
    requests: Vec<Vec<usize>>,
    lifelines: Vec<Vec<usize>>,
    victims: Vec<Vec<usize>>,
    outstanding: usize,
    generation: u64,
    terminated: bool,
}

impl<T> View for Shared<T> {
    type V = SharedState<T>;

    closed spec fn view(&self) -> SharedState<T> {
        SharedState {
            deques: Seq::new(self.deques@.len(), |i: int| self.deques@[i]@),
            requests: Seq::new(self.requests@.len(), |i: int| self.requests@[i]@),
            outstanding: self.outstanding as int,
            generation: self.generation,
            terminated: self.terminated,
        }
    }
}

proof fn lemma_piece_fits<T>(pieces: Seq<Seq<T>>, i: int)
    requires
        0 <= i < pieces.len(),
    ensures
        pieces[i].len() <= windows::concat(pieces).len(),
    decreases pieces.len(),
{
    if i < pieces.len() - 1 {
        lemma_piece_fits(pieces.drop_last(), i);
    }
}

proof fn lemma_take_fits<T>(pieces: Seq<Seq<T>>, k: int)
    requires
        0 <= k <= pieces.len(),
    ensures
        windows::concat(pieces.take(k)).len() <= windows::concat(pieces).len(),
    decreases pieces.len(),
{
    if k < pieces.len() {
        lemma_take_fits(pieces.drop_last(), k);
        assert(pieces.drop_last().take(k) =~= pieces.take(k));
    } else {
        assert(pieces.take(k) =~= pieces);
    }
}

/// Replacing a piece changes the length of the whole by as much.
pub proof fn lemma_concat_len<T>(pieces: Seq<Seq<T>>, i: int, piece: Seq<T>)
    requires
        0 <= i < pieces.len(),
    ensures
        windows::concat(pieces.update(i, piece)).len() == windows::concat(pieces).len()
            - pieces[i].len() + piece.len(),
    decreases pieces.len(),
{
    let after = pieces.update(i, piece);
    if i < pieces.len() - 1 {
        lemma_concat_len(pieces.drop_last(), i, piece);
        assert(after.drop_last() =~= pieces.drop_last().update(i, piece));
    } else {
        assert(after.drop_last() =~= pieces.drop_last());
    }
}

/// Two different pieces fit into the whole together.
proof fn lemma_two_pieces_fit<T>(pieces: Seq<Seq<T>>, i: int, j: int)
    requires
        0 <= i < pieces.len(),
        0 <= j < pieces.len(),
        i != j,
    ensures
        pieces[i].len() + pieces[j].len() <= windows::concat(pieces).len(),
{
    lemma_concat_len(pieces, i, Seq::empty());
    lemma_piece_fits(pieces.update(i, Seq::empty()), j);
}

impl<T> Shared<T> {
    /// Every worker has a deque, the workers to steal from, and lifeline buddies.
    pub closed spec fn shaped(&self) -> bool {
        let n = self.deques@.len();
        &&& 1 <= n <= usize::MAX
        &&& hypercube::fits(n as usize)
        &&& self.requests@.len() == n
        &&& self.lifelines@.len() == n
        &&& self.victims@.len() == n
        &&& forall|i: int|
            0 <= i < n ==> (#[trigger] self.deques@[i]).wf() && !self.deques@[i].is_fifo()
        &&& forall|i: int|
            0 <= i < n ==> (#[trigger] self.lifelines@[i])@ == hypercube::neighbours(
                i as usize,
                n as usize,
            )
        &&& forall|i: int|
            0 <= i < n ==> (#[trigger] self.victims@[i])@ == victims(i as usize, n as usize)
    }

    /// The state between steps.
    pub open spec fn wf(&self) -> bool {
        &&& self.shaped()
        &&& self@.counted()
    }
}

/// The indices of victims before the `k`-th that have work.
pub open spec fn first_with_work<T>(deques: Seq<Seq<T>>, order: Seq<usize>, k: nat) -> Option<int>
    decreases k,
{
    if k == 0 {
        None
    } else {
        match first_with_work(deques, order, (k - 1) as nat) {
            Some(i) => Some(i),
            None => if deques[order[k - 1] as int].len() > 0 {
                Some(k - 1)
            } else {
                None
            },
        }
    }
}

proof fn lemma_first_with_work<T>(deques: Seq<Seq<T>>, order: Seq<usize>, k: nat)
    requires
        k <= order.len(),
    ensures
        match first_with_work(deques, order, k) {
            Some(i) => 0 <= i < k && deques[order[i] as int].len() > 0 && forall|j: int|
                0 <= j < i ==> deques[#[trigger] order[j] as int].len() == 0,
            None => forall|j: int| 0 <= j < k ==> deques[#[trigger] order[j] as int].len() == 0,
        },
    decreases k,
{
    if k > 0 {
        lemma_first_with_work(deques, order, (k - 1) as nat);
    }
}

/// A worker steals from the first of its victims that has work: all victims before it have none,
/// and if it steals from none then no victim has work.
pub proof fn the_first_victim_with_work<T>(deques: Seq<Seq<T>>, order: Seq<usize>)
    ensures
        match first_with_work(deques, order, order.len()) {
            Some(i) => 0 <= i < order.len() && deques[order[i] as int].len() > 0 && forall|j: int|
                0 <= j < i ==> deques[#[trigger] order[j] as int].len() == 0,
            None => forall|j: int|
                0 <= j < order.len() ==> deques[#[trigger] order[j] as int].len() == 0,
        },
{
    lemma_first_with_work(deques, order, order.len());
}

impl<T> Shared<T> {
    /// Set up `workers` workers, at least one, and deal the initial tasks to them in turn.
    pub fn new(workers: usize, initial: Vec<T>) -> (r: Self)
        requires
            hypercube::fits(workers),
            2 * (initial@.len() + 1) <= isize::MAX,
        ensures
            r.wf(),
            r@ == seeded(
                if workers == 0 {
                    1
                } else {
                    workers as int
                },
                initial@,
            ),
            ({
                let n: int = if workers == 0 {
                    1
                } else {
                    workers as int
                };
                &&& r@.deques.len() == n && r@.requests.len() == n
                &&& forall|k: int|
                    0 <= k < n ==> (#[trigger] r@.deques[k]).len() == (initial@.len() + n - 1 - k)
                        / n
                &&& forall|i: int|
                    0 <= i < initial@.len() ==> r@.deques[i % n][i / n] == #[trigger] initial@[i]
                &&& forall|k: int| 0 <= k < n ==> (#[trigger] r@.requests[k]).len() == 0
                &&& r@.outstanding == initial@.len()
                &&& r@.generation == 0
                &&& !r@.terminated
            }),
    {
        let n: usize = if workers == 0 {
            1
        } else {
            workers
        };
        assert(1usize <= 1usize << ((usize::BITS - 1) as usize)) by (bit_vector);
        let mut deques: Vec<Worker<T>> = Vec::new();
        let mut requests: Vec<Vec<usize>> = Vec::new();
        let mut lifelines: Vec<Vec<usize>> = Vec::new();
        let mut all_victims: Vec<Vec<usize>> = Vec::new();
        let mut i: usize = 0;
        while i < n
            invariant
                i <= n,
                hypercube::fits(n),
                deques@.len() == i,
                requests@.len() == i,
                lifelines@.len() == i,
                all_victims@.len() == i,
                forall|k: int|
                    0 <= k < i ==> (#[trigger] deques@[k]).wf() && !deques@[k].is_fifo()
                        && deques@[k]@ == Seq::<T>::empty(),
                forall|k: int| 0 <= k < i ==> (#[trigger] requests@[k])@ == Seq::<usize>::empty(),
                forall|k: int|
                    0 <= k < i ==> (#[trigger] lifelines@[k])@ == hypercube::neighbours(
                        k as usize,
                        n,
                    ),
                forall|k: int|
                    0 <= k < i ==> (#[trigger] all_victims@[k])@ == victims(k as usize, n),
            decreases n - i,
        {
            deques.push(Worker::new());
            requests.push(Vec::new());
            lifelines.push(hypercube_neighbours(i, n));
            all_victims.push(victims_of(i, n));
            i += 1;
        }
        let mut r = Shared {
            deques,
            requests,
            lifelines,
            victims: all_victims,
            outstanding: 0,
            generation: 0,
            terminated: false,
        };
        let ghost tasks = initial@;
        assert(r@ =~= seeded(n as int, tasks.take(0))) by {
            assert forall|k: int| 0 <= k < n implies r@.deques[k] == #[trigger] dealt(
                tasks.take(0),
                n as int,
                k,
            ) by {
                assert(r.deques@[k]@ == Seq::<T>::empty());
            }
            assert(r@.deques =~= seeded(n as int, tasks.take(0)).deques);
            assert(r@.requests =~= seeded(n as int, tasks.take(0)).requests);
        }
        proof {
            windows::lemma_concat_empty(r@.deques);
        }
        for task in it: initial
            invariant
                1 <= n,
                r.shaped(),
                it.seq() == tasks,
                r@ == seeded(n as int, tasks.take(it.index() as int)),
                r@.queued() == it.index(),
                2 * (tasks.len() + 1) <= isize::MAX,
        {
            let i: usize = r.outstanding;
            let k = i % n;
            let ghost before = r@;
            proof {
                lemma_piece_fits(before.deques, k as int);
                lemma_concat_len(before.deques, k as int, before.deques[k as int].push(task));
            }
            r.deques[k].push(task);
            r.outstanding = i + 1;
            proof {
                let more = tasks.take(i + 1);
                assert(more.drop_last() =~= tasks.take(i as int));
                assert(r@.deques =~= before.deques.update(
                    k as int,
                    before.deques[k as int].push(task),
                ));
                assert forall|j: int| 0 <= j < n implies r@.deques[j] == #[trigger] dealt(
                    more,
                    n as int,
                    j,
                ) by {
                    assert(before.deques[j] == dealt(tasks.take(i as int), n as int, j));
                }
                assert(r@.deques =~= seeded(n as int, more).deques);
                assert(r@.requests =~= seeded(n as int, more).requests);
            }
        }
        assert(tasks.take(tasks.len() as int) =~= tasks);
        proof {
            assert forall|k: int| 0 <= k < n implies (#[trigger] r@.deques[k]).len() == (tasks.len()
                + n - 1 - k) / n as int by {
                dealt_in_turn(tasks, n as int, 0, k);
            }
            assert forall|i: int| 0 <= i < tasks.len() implies r@.deques[i % n as int][i / n as int]
                == #[trigger] tasks[i] by {
                dealt_in_turn(tasks, n as int, i, 0);
            }
        }
        r
    }

    /// Number of workers.
    pub fn workers(&self) -> (r: usize)
        requires
            self.shaped(),
        ensures
            r == self@.deques.len(),
    {
        self.deques.len()
    }

    /// Tasks that are queued or running.
    pub fn outstanding(&self) -> (r: usize)
        ensures
            r == self@.outstanding,
    {
        self.outstanding
    }

    /// Tasks that are queued.
    pub fn queued(&self) -> (r: usize)
        requires
            self.wf(),
        ensures
            r == self@.queued(),
    {
        let mut n: usize = 0;
        let mut i: usize = 0;
        let ghost deques = self@.deques;
        while i < self.deques.len()
            invariant
                self.wf(),
                deques == self@.deques,
                i <= deques.len(),
                n == windows::concat(deques.take(i as int)).len(),
            decreases deques.len() - i,
        {
            proof {
                assert(deques.take(i + 1).drop_last() =~= deques.take(i as int));
                lemma_take_fits(deques, i + 1);
            }
            n = n + self.deques[i].len();
            i += 1;
        }
        assert(deques.take(i as int) =~= deques);
        n
    }

    /// Whether termination is declared.
    pub fn is_terminated(&self) -> (r: bool)
        ensures
            r == self@.terminated,
    {
        self.terminated
    }

    /// Clear the lifeline requests on `me`: it has work now.
    fn clear_lifelines(&mut self, me: usize)
        requires
            old(self).shaped(),
            me < old(self)@.deques.len(),
        ensures
            final(self).shaped(),
            final(self)@ == (SharedState {
                requests: old(self)@.requests.update(me as int, Seq::empty()),
                ..old(self)@
            }),
    {
        self.requests[me].clear();
        assert(self@.requests =~= old(self)@.requests.update(me as int, Seq::empty()));
        assert(self@.deques =~= old(self)@.deques);
    }

    /// Change the work generation, so that sleeping workers look for work again.
    fn signal_work(&mut self)
        requires
            old(self).shaped(),
        ensures
            final(self).shaped(),
            final(self)@ == (SharedState {
                generation: old(self)@.generation.wrapping_add(1),
                ..old(self)@
            }),
    {
        self.generation = self.generation.wrapping_add(1);
        assert(self@.deques =~= old(self)@.deques);
        assert(self@.requests =~= old(self)@.requests);
    }

    /// Queue a new task on the deque of worker `me`, count it, and wake sleeping workers.
    pub fn spawn(&mut self, me: usize, task: T)
        requires
            old(self).wf(),
            me < old(self)@.deques.len(),
            2 * (old(self)@.outstanding + 2) <= isize::MAX,
        ensures
            final(self).wf(),
            final(self)@ == old(self)@.spawned(me as int, task),
            final(self)@.deques == old(self)@.deques.update(
                me as int,
                old(self)@.deques[me as int].push(task),
            ),
            final(self)@.requests == old(self)@.requests.update(me as int, Seq::empty()),
            final(self)@.outstanding == old(self)@.outstanding + 1,
            final(self)@.generation == old(self)@.generation.wrapping_add(1),
            final(self)@.terminated == old(self)@.terminated,
    {
        let ghost before = self@;
        proof {
            lemma_piece_fits(before.deques, me as int);
            lemma_concat_len(before.deques, me as int, before.deques[me as int].push(task));
        }
        self.outstanding = self.outstanding + 1;
        self.deques[me].push(task);
        assert(self@.deques =~= before.deques.update(
            me as int,
            before.deques[me as int].push(task),
        ));
        assert(self@.requests =~= before.requests);
        self.clear_lifelines(me);
        self.signal_work();
        assert(self@ =~= before.spawned(me as int, task));
    }

    /// Pop a task from the deque of worker `me`.
    fn pop_own(&mut self, me: usize) -> (r: Option<T>)
        requires
            old(self).wf(),
            me < old(self)@.deques.len(),
        ensures
            final(self).wf(),
            ({
                let own = old(self)@.deques[me as int];
                if own.len() > 0 {
                    &&& r == Some(own.last())
                    &&& final(self)@ == (SharedState {
                        deques: old(self)@.deques.update(me as int, own.drop_last()),
                        ..old(self)@
                    })
                } else {
                    &&& r is None
                    &&& final(self)@ == old(self)@
                }
            }),
    {
        let ghost before = self@;
        let ghost own = before.deques[me as int];
        proof {
            if own.len() > 0 {
                lemma_concat_len(before.deques, me as int, own.drop_last());
            }
        }
        let r = self.deques[me].pop();
        proof {
            if own.len() > 0 {
                assert(self@.deques =~= before.deques.update(me as int, own.drop_last()));
            } else {
                assert(self@.deques =~= before.deques);
            }
            assert(self@.requests =~= before.requests);
        }
        r
    }

    /// Steal about half of the tasks of `victim`: return the oldest, and move the others into the
    /// deque of worker `me`.
    fn steal_one(&mut self, victim: usize, me: usize) -> (r: Option<T>)
        requires
            old(self).wf(),
            victim < old(self)@.deques.len(),
            me < old(self)@.deques.len(),
            victim != me,
        ensures
            final(self).wf(),
            final(self)@ == old(self)@.stolen(victim as int, me as int),
            r == if old(self)@.deques[victim as int].len() > 0 {
                Some(old(self)@.deques[victim as int][0])
            } else {
                None
            },
    {
        let ghost before = self@;
        let ghost from = before.deques[victim as int];
        let ghost want = deque::batch(from.len() as int);
        proof {
            lemma_two_pieces_fit(before.deques, victim as int, me as int);
            if from.len() > 0 {
                let mid = before.deques.update(victim as int, from.skip(want));
                lemma_concat_len(before.deques, victim as int, from.skip(want));
                lemma_concat_len(
                    mid,
                    me as int,
                    before.deques[me as int] + from.subrange(1, want),
                );
            }
        }
        let mut own = Worker::new();
        std::mem::swap(&mut own, &mut self.deques[me]);
        let stealer = self.deques[victim].stealer();
        let got = stealer.steal_batch_and_pop(&mut self.deques[victim], &mut own);
        std::mem::swap(&mut own, &mut self.deques[me]);
        proof {
            assert(self@.deques =~= before.stolen(victim as int, me as int).deques);
            assert(self@.requests =~= before.requests);
        }
        match got {
            Steal::Success(task) => Some(task),
            _ => None,
        }
    }

    /// Try the victims of worker `me` in order, and return one task of the first that has any.
    pub fn try_steal(&mut self, me: usize) -> (r: Option<T>)
        requires
            old(self).wf(),
            me < old(self)@.deques.len(),
        ensures
            final(self).wf(),
            ({
                let s = old(self)@;
                let order = victims(me, s.n());
                match first_with_work(s.deques, order, order.len()) {
                    Some(i) => {
                        let victim = order[i] as int;
                        &&& r == Some(s.deques[victim][0])
                        &&& final(self)@ == s.stolen(victim, me as int)
                    },
                    None => r is None && final(self)@ == s,
                }
            }),
            match r {
                Some(task) => exists|i: int|
                    #![trigger victims(me, old(self)@.n())[i]]
                    ({
                        let order = victims(me, old(self)@.n());
                        let victim = order[i] as int;
                        let from = old(self)@.deques[victim];
                        &&& 0 <= i < order.len() && from.len() > 0
                        &&& forall|j: int|
                            #![trigger victims(me, old(self)@.n())[j]]
                            0 <= j < i ==> old(self)@.deques[victims(
                                me,
                                old(self)@.n(),
                            )[j] as int].len() == 0
                        &&& final(self)@.deques[victim].len() == from.len() / 2
                        &&& task == from[0]
                        &&& final(self)@.deques[me as int] + final(self)@.deques[victim]
                            == old(self)@.deques[me as int] + from.drop_first()
                    }),
                None => final(self)@ == old(self)@ && forall|i: int|
                    0 <= i < victims(me, old(self)@.n()).len() ==> old(self)@.deques[#[trigger] victims(
                        me,
                        old(self)@.n(),
                    )[i] as int].len() == 0,
            },
    {
        let ghost s = self@;
        let ghost order = victims(me, s.n());
        let mut i: usize = 0;
        while i < self.victims[me].len()
            invariant
                self.wf(),
                self@ == s,
                s == old(self)@,
                me < s.deques.len(),
                order == victims(me, s.n()),
                order == self.victims@[me as int]@,
                i <= order.len(),
                first_with_work(s.deques, order, i as nat) is None,
                forall|j: int| 0 <= j < i ==> s.deques[#[trigger] order[j] as int].len() == 0,
            decreases order.len() - i,
        {
            let victim = self.victims[me][i];
            proof {
                lemma_victims_are_others(me, s.n());
                assert(order[i as int] == victim);
            }
            let got = self.steal_one(victim, me);
            i += 1;
            proof {
                if s.deques[victim as int].len() > 0 {
                    assert(self@.deques[me as int] + self@.deques[victim as int]
                        =~= s.deques[me as int] + s.deques[victim as int].drop_first());
                    assert(victims(me, old(self)@.n())[i - 1] == victim);
                }
                assert(first_with_work(s.deques, order, i as nat) == if s.deques[victim as int].len()
                    > 0 {
                    Some(i - 1)
                } else {
                    None
                });
                if s.deques[victim as int].len() > 0 {
                    lemma_first_stays(s.deques, order, i as nat, order.len());
                }
            }
            if got.is_some() {
                return got;
            }
        }
        None
    }

    /// Register worker `me` on the lifeline of `buddy`, unless it is registered there.
    fn register_at(&mut self, me: usize, buddy: usize)
        requires
            old(self).wf(),
            buddy < old(self)@.deques.len(),
        ensures
            final(self).wf(),
            final(self)@ == old(self)@.registered(me, buddy as int),
    {
        let ghost before = self@;
        let mut found = false;
        let mut i: usize = 0;
        while i < self.requests[buddy].len()
            invariant
                self.wf(),
                self@ == before,
                buddy < before.requests.len(),
                before.requests[buddy as int] == self.requests@[buddy as int]@,
                i <= before.requests[buddy as int].len(),
                found == before.requests[buddy as int].take(i as int).contains(me),
            decreases before.requests[buddy as int].len() - i,
        {
            let ghost list = before.requests[buddy as int];
            proof {
                assert(list.take(i + 1) =~= list.take(i as int).push(list[i as int]));
                let longer = list.take(i + 1);
                if found {
                    let k = choose|k: int| 0 <= k < i && list.take(i as int)[k] == me;
                    assert(longer[k] == me);
                }
                if list[i as int] == me {
                    assert(longer[i as int] == me);
                }
                if longer.contains(me) {
                    let k = choose|k: int| 0 <= k < longer.len() && longer[k] == me;
                    if k < i {
                        assert(list.take(i as int)[k] == me);
                    }
                }
            }
            if self.requests[buddy][i] == me {
                found = true;
            }
            i += 1;
        }
        assert(before.requests[buddy as int].take(i as int) =~= before.requests[buddy as int]);
        if !found {
            self.requests[buddy].push(me);
        }
        proof {
            assert(self@.requests =~= before.registered(me, buddy as int).requests);
            assert(self@.deques =~= before.deques);
        }
    }

    /// A worker in `stage` can make its next step.
    pub open spec fn ready(&self, stage: Stage<T>) -> bool {
        stage is Finish ==> self@.outstanding > self@.queued()
    }

    /// One step of worker `me`. A worker with a task to run stays where it is: the driver takes the
    /// task, runs it, and goes on with [`Stage::Finish`].
    pub fn step(&mut self, me: usize, stage: Stage<T>) -> (r: Stage<T>)
        requires
            old(self).wf(),
            me < old(self)@.deques.len(),
            old(self).ready(stage),
        ensures
            final(self).wf(),
            (final(self)@, r) == step_next(old(self)@, me, stage),
    {
        let ghost s = self@;
        match stage {
            Stage::Drain { did_work } => {
                match self.pop_own(me) {
                    Some(task) => Stage::Run { task, stolen: false },
                    None => {
                        if did_work {
                            Stage::Drain { did_work: false }
                        } else {
                            Stage::Steal { snapshot: self.generation, tried: 0 }
                        }
                    },
                }
            },
            Stage::Run { task, stolen } => Stage::Run { task, stolen },
            Stage::Finish { stolen } => {
                let last = self.outstanding == 1;
                self.outstanding = self.outstanding - 1;
                assert(self@.deques =~= s.deques);
                assert(self@.requests =~= s.requests);
                if last {
                    Stage::Declare { exit: false }
                } else {
                    Stage::Drain { did_work: !stolen }
                }
            },
            Stage::Declare { exit } => {
                self.terminated = true;
                assert(self@.deques =~= s.deques);
                assert(self@.requests =~= s.requests);
                if exit {
                    Stage::Exit
                } else {
                    Stage::Drain { did_work: false }
                }
            },
            Stage::Steal { snapshot, tried } => {
                assert(self.victims@[me as int]@ == victims(me, s.n()));
                if tried < self.victims[me].len() {
                    let victim = self.victims[me][tried];
                    proof {
                        lemma_victims_are_others(me, s.n());
                        assert(victims(me, s.n())[tried as int] == victim);
                    }
                    match self.steal_one(victim, me) {
                        Some(task) => Stage::Run { task, stolen: true },
                        None => Stage::Steal { snapshot, tried: tried + 1 },
                    }
                } else {
                    Stage::Check { snapshot }
                }
            },
            Stage::Check { snapshot } => {
                if self.outstanding == 0 {
                    Stage::Declare { exit: true }
                } else {
                    Stage::Register { snapshot, next: 0 }
                }
            },
            Stage::Register { snapshot, next } => {
                assert(self.lifelines@[me as int]@ == hypercube::neighbours(me, s.n()));
                if next < self.lifelines[me].len() {
                    let buddy = self.lifelines[me][next];
                    proof {
                        hypercube::neighbours_are_others(me, s.n(), next as int);
                    }
                    self.register_at(me, buddy);
                    Stage::Register { snapshot, next: next + 1 }
                } else {
                    Stage::Park { snapshot }
                }
            },
            Stage::Park { snapshot } => {
                if self.terminated || self.outstanding == 0 {
                    Stage::Exit
                } else if self.generation != snapshot {
                    Stage::Drain { did_work: false }
                } else {
                    Stage::Asleep { snapshot }
                }
            },
            Stage::Asleep { snapshot } => {
                if self.terminated {
                    Stage::Exit
                } else if self.generation != snapshot {
                    Stage::Drain { did_work: false }
                } else {
                    Stage::Asleep { snapshot }
                }
            },
            Stage::Exit => Stage::Exit,
        }
    }
}

/// A worker steals from other workers only.
pub proof fn lemma_victims_are_others(me: usize, n: usize)
    requires
        me < n,
    ensures
        forall|i: int|
            0 <= i < victims(me, n).len() ==> #[trigger] victims(me, n)[i] < n && victims(me, n)[i]
                != me,
{
    let drawn = random_victims(me, n, probes(n) as nat);
    lemma_drawn_are_others(me, n, probes(n) as nat);
    assert forall|i: int| 0 <= i < victims(me, n).len() implies #[trigger] victims(me, n)[i] < n
        && victims(me, n)[i] != me by {
        if i < drawn.len() {
            assert(drawn[i] < n);
        } else {
            hypercube::neighbours_are_others(me, n, i - drawn.len());
        }
    }
}

proof fn lemma_drawn_are_others(me: usize, n: usize, k: nat)
    requires
        me < n,
    ensures
        forall|i: int|
            0 <= i < random_victims(me, n, k).len() ==> #[trigger] random_victims(me, n, k)[i] < n
                && random_victims(me, n, k)[i] != me,
    decreases k,
{
    if k > 0 {
        lemma_drawn_are_others(me, n, (k - 1) as nat);
        let rest = random_victims(me, n, (k - 1) as nat);
        assert forall|i: int| 0 <= i < random_victims(me, n, k).len() implies
            #[trigger] random_victims(me, n, k)[i] < n && random_victims(me, n, k)[i] != me by {
            if i < rest.len() {
                assert(rest[i] < n);
            }
        }
    }
}

proof fn lemma_first_stays<T>(deques: Seq<Seq<T>>, order: Seq<usize>, k: nat, m: nat)
    requires
        k <= m,
        first_with_work(deques, order, k) is Some,
    ensures
        first_with_work(deques, order, m) == first_with_work(deques, order, k),
    decreases m,
{
    if k < m {
        lemma_first_stays(deques, order, k, (m - 1) as nat);
    }
}

/// A handle that a task uses to spawn more work onto the deque of its own worker.
pub struct Spawner<'a, T> {
    shared: &'a mut Shared<T>,
    me: usize,
}

impl<'a, T> Spawner<'a, T> {
    /// A handle for worker `me`.
    pub fn new(shared: &'a mut Shared<T>, me: usize) -> (r: Self)
        requires
            me < shared@.deques.len(),
        ensures
            r.worker() == me,
            *r.shared() == *old(shared),
            *final(r.shared()) == *final(shared),
    {
        Spawner { shared, me }
    }

    /// What the workers share.
    pub closed spec fn shared(self) -> &'a mut Shared<T> {
        self.shared
    }

    /// The worker.
    pub closed spec fn worker(self) -> int {
        self.me as int
    }

    /// Once a handle is no longer used, the workers share what it has left.
    pub proof fn handle_ends(s: Spawner<'a, T>)
        requires
            has_resolved(s),
        ensures
            *s.shared() == *final(s.shared()),
    {
    }

    /// Queue a new task on the deque of the worker, count it, and wake sleeping workers.
    pub fn spawn(&mut self, task: T)
        requires
            old(self).shared().wf(),
            old(self).worker() < old(self).shared()@.deques.len(),
            2 * (old(self).shared()@.outstanding + 2) <= isize::MAX,
        ensures
            final(self).shared().wf(),
            final(self).shared()@ == old(self).shared()@.spawned(old(self).worker(), task),
            final(self).worker() == old(self).worker(),
            *final(final(self).shared()) == *final(old(self).shared()),
    {
        self.shared.spawn(self.me, task);
    }
}

} // verus!
