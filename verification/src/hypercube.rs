//! The lifeline graph: a hypercube cut down to `n` nodes.
//!
//! Two nodes are neighbours iff their numbers differ in exactly one bit, as [`one_bit_apart`] proves.
//! [`symmetric`] proves that being neighbours goes both ways, [`all_different`] that no neighbour is
//! listed twice, [`low_degree`] that a node has at most as many neighbours as node numbers have bits,
//! and [`connected`] and [`no_shorter_path`] that the shortest path between two nodes has one edge
//! for each bit in which their numbers differ.

use vstd::prelude::*;

verus! {

/// The number with bit `h` alone.
pub open spec fn bit(h: nat) -> usize {
    1usize << (h as usize)
}

/// Number `x` has bit `h`.
pub open spec fn has(x: usize, h: nat) -> bool {
    (x >> (h as usize)) & 1 == 1
}

/// The neighbours of `id` that differ from it in one of the `k` lowest bits, lowest bit first.
pub open spec fn near(id: usize, n: usize, k: nat) -> Seq<usize>
    decreases k,
{
    if k == 0 {
        Seq::empty()
    } else {
        let rest = near(id, n, (k - 1) as nat);
        let other = id ^ bit((k - 1) as nat);
        if bit((k - 1) as nat) < n && other < n {
            rest.push(other)
        } else {
            rest
        }
    }
}

/// The largest graph: every node number, and every bit of it, fits the machine word.
pub open spec fn fits(n: usize) -> bool {
    n <= isize::MAX + 1
}

/// The highest bit is not below the largest graph.
pub proof fn lemma_fits(n: usize)
    requires
        fits(n),
    ensures
        n <= bit((usize::BITS - 1) as nat),
{
    let top = (usize::BITS - 1) as usize;
    vstd::arithmetic::power2::lemma2_to64();
    vstd::arithmetic::power2::lemma2_to64_rest();
    vstd::bits::lemma_usize_shl_is_mul(1, top);
}

/// The neighbours of `id` among `n` nodes.
pub open spec fn neighbours(id: usize, n: usize) -> Seq<usize> {
    near(id, n, (usize::BITS - 1) as nat)
}

/// Number of the `k` lowest bits that `x` has.
pub open spec fn ones(x: usize, k: nat) -> nat
    decreases k,
{
    if k == 0 {
        0
    } else {
        ones(x, (k - 1) as nat) + if has(x, (k - 1) as nat) {
            1nat
        } else {
            0
        }
    }
}

/// Number of bits in which two node numbers differ.
pub open spec fn distance(a: usize, b: usize) -> nat {
    ones(a ^ b, (usize::BITS - 1) as nat)
}

proof fn lemma_flip(x: usize, h: usize, j: usize)
    by (bit_vector)
    requires
        h < usize::BITS,
        j < usize::BITS,
    ensures
        j != h ==> ((x ^ (1usize << h)) >> j) & 1 == (x >> j) & 1,
        (x >> h) & 1 == 1 ==> ((x ^ (1usize << h)) >> h) & 1 == 0,
        (x >> h) & 1 == 1 ==> x ^ (1usize << h) < x,
        (x >> h) & 1 == 1 ==> (1usize << h) <= x,
        (x >> h) & 1 != 1 ==> (1usize << h) <= x ^ (1usize << h),
        (x >> h) & 1 == 0 || (x >> h) & 1 == 1,
        (x ^ (1usize << h)) ^ (1usize << h) == x,
        x ^ (1usize << h) != x,
        (1usize << h) > 0,
{
}

proof fn lemma_doubled(h: usize)
    by (bit_vector)
    requires
        h < usize::BITS - 1,
    ensures
        (1usize << h) << 1 == 1usize << (h + 1) as usize,
        (1usize << h) < (1usize << (h + 1) as usize),
{
}

pub proof fn lemma_bits_grow(h: nat, k: nat)
    requires
        h <= k < usize::BITS,
    ensures
        bit(h) <= bit(k),
        h < k ==> bit(h) < bit(k),
    decreases k - h,
{
    if h < k {
        lemma_bits_grow(h, (k - 1) as nat);
        lemma_doubled((k - 1) as usize);
    }
}

/// Flipping a bit of a number and doubling a bit, as the machine does them.
pub proof fn lemma_step(id: usize, k: nat)
    requires
        k < usize::BITS - 1,
    ensures
        id ^ bit(k) != id,
        bit(k) << 1 == bit(k + 1),
{
    lemma_flip(id, k as usize, k as usize);
    lemma_doubled(k as usize);
}

/// Bits past the size of the graph add no neighbour.
pub proof fn lemma_near_stops(id: usize, n: usize, k: nat, m: nat)
    requires
        k <= m <= usize::BITS - 1,
        k < usize::BITS,
        n <= bit(k),
    ensures
        near(id, n, m) == near(id, n, k),
    decreases m,
{
    if k < m {
        lemma_near_stops(id, n, k, (m - 1) as nat);
        lemma_bits_grow(k, (m - 1) as nat);
    }
}

/// A neighbour differs in one bit, and every node that differs in one bit is a neighbour.
proof fn lemma_near(id: usize, n: usize, k: nat, c: usize)
    requires
        k <= usize::BITS - 1,
    ensures
        near(id, n, k).contains(c) <==> exists|h: nat|
            h < k && #[trigger] bit(h) < n && c == id ^ bit(h) && c < n,
    decreases k,
{
    if k > 0 {
        let rest = near(id, n, (k - 1) as nat);
        let all = near(id, n, k);
        lemma_near(id, n, (k - 1) as nat, c);
        if all.contains(c) {
            let i = choose|i: int| 0 <= i < all.len() && all[i] == c;
            if i < rest.len() {
                assert(rest[i] == c);
            } else {
                assert(bit((k - 1) as nat) < n);
            }
        }
        if exists|h: nat| h < k && #[trigger] bit(h) < n && c == id ^ bit(h) && c < n {
            let h = choose|h: nat| h < k && #[trigger] bit(h) < n && c == id ^ bit(h) && c < n;
            if h < k - 1 {
                let i = choose|i: int| 0 <= i < rest.len() && rest[i] == c;
                assert(all[i] == c);
            } else {
                assert(all[all.len() - 1] == c);
            }
        }
    }
}

/// Being neighbours goes both ways.
pub proof fn symmetric(a: usize, b: usize, n: usize)
    requires
        a < n,
        b < n,
    ensures
        neighbours(a, n).contains(b) == neighbours(b, n).contains(a),
{
    let k = (usize::BITS - 1) as nat;
    lemma_near(a, n, k, b);
    lemma_near(b, n, k, a);
    if neighbours(a, n).contains(b) {
        let h = choose|h: nat| h < k && #[trigger] bit(h) < n && b == a ^ bit(h) && b < n;
        lemma_flip(a, h as usize, h as usize);
        assert(bit(h) < n && a == b ^ bit(h));
    }
    if neighbours(b, n).contains(a) {
        let h = choose|h: nat| h < k && #[trigger] bit(h) < n && a == b ^ bit(h) && a < n;
        lemma_flip(b, h as usize, h as usize);
        assert(bit(h) < n && b == a ^ bit(h));
    }
}

/// Neighbours are other nodes of the graph.
pub proof fn neighbours_are_others(id: usize, n: usize, i: int)
    requires
        0 <= i < neighbours(id, n).len(),
    ensures
        neighbours(id, n)[i] < n,
        neighbours(id, n)[i] != id,
{
    let c = neighbours(id, n)[i];
    let k = (usize::BITS - 1) as nat;
    assert(neighbours(id, n).contains(c));
    lemma_near(id, n, k, c);
    let h = choose|h: nat| h < k && #[trigger] bit(h) < n && c == id ^ bit(h) && c < n;
    lemma_flip(id, h as usize, h as usize);
}

proof fn lemma_near_len(id: usize, n: usize, k: nat)
    ensures
        near(id, n, k).len() <= k,
    decreases k,
{
    if k > 0 {
        lemma_near_len(id, n, (k - 1) as nat);
    }
}

proof fn lemma_near_full(id: usize, k: nat, bits: nat)
    requires
        k <= bits < usize::BITS,
        id < bit(bits),
    ensures
        near(id, bit(bits), k).len() == k,
    decreases k,
{
    if k > 0 {
        lemma_near_full(id, (k - 1) as nat, bits);
        lemma_bits_grow((k - 1) as nat, bits);
        lemma_flip_below(id, (k - 1) as usize, bits as usize);
    }
}

proof fn lemma_flip_below(x: usize, h: usize, k: usize)
    by (bit_vector)
    requires
        h < k,
        k < usize::BITS,
        x < (1usize << k),
    ensures
        x ^ (1usize << h) < (1usize << k),
{
}

proof fn lemma_flipped(id: usize, h: usize)
    by (bit_vector)
    requires
        h < usize::BITS,
    ensures
        (id ^ (1usize << h)) ^ id == 1usize << h,
{
}

proof fn lemma_near_in_order(id: usize, n: usize, k: nat)
    requires
        k <= usize::BITS - 1,
    ensures
        forall|i: int, j: int|
            0 <= i < j < near(id, n, k).len() ==> (#[trigger] near(id, n, k)[i] ^ id) < (
            #[trigger] near(id, n, k)[j] ^ id),
    decreases k,
{
    if k > 0 {
        let last = (k - 1) as nat;
        let rest = near(id, n, last);
        let all = near(id, n, k);
        lemma_near_in_order(id, n, last);
        assert forall|i: int, j: int| 0 <= i < j < all.len() implies (#[trigger] all[i] ^ id) < (
        #[trigger] all[j] ^ id) by {
            assert(all[i] == rest[i]);
            if j < rest.len() {
                assert((rest[i] ^ id) < (rest[j] ^ id));
            } else {
                let c = rest[i];
                assert(rest.contains(c));
                lemma_near(id, n, last, c);
                let h = choose|h: nat| h < last && #[trigger] bit(h) < n && c == id ^ bit(h) && c < n;
                lemma_flipped(id, h as usize);
                lemma_flipped(id, last as usize);
                lemma_bits_grow(h, last);
            }
        }
    }
}

/// The neighbours of a node are the nodes of the graph that one flipped bit, below the size of the
/// graph, leads to. They are listed by that bit, the lowest first.
pub proof fn lowest_bit_first(id: usize, n: usize)
    requires
        fits(n),
    ensures
        forall|c: usize| #[trigger]
            neighbours(id, n).contains(c) <==> c < n && exists|h: usize|
                h < usize::BITS && (1usize << h) < n && c == id ^ #[trigger] (1usize << h),
        forall|i: int, j: int|
            0 <= i < j < neighbours(id, n).len() ==> (#[trigger] neighbours(id, n)[i] ^ id) < (
            #[trigger] neighbours(id, n)[j] ^ id),
{
    let top = (usize::BITS - 1) as nat;
    lemma_fits(n);
    lemma_near_in_order(id, n, top);
    assert forall|c: usize| #[trigger] neighbours(id, n).contains(c) <==> c < n && exists|h: usize|
        h < usize::BITS && (1usize << h) < n && c == id ^ #[trigger] (1usize << h) by {
        lemma_near(id, n, top, c);
        if neighbours(id, n).contains(c) {
            let h = choose|h: nat| h < top && #[trigger] bit(h) < n && c == id ^ bit(h) && c < n;
            assert((1usize << (h as usize)) < n);
        }
        if c < n && exists|h: usize|
            h < usize::BITS && (1usize << h) < n && c == id ^ #[trigger] (1usize << h) {
            let h = choose|h: usize|
                h < usize::BITS && (1usize << h) < n && c == id ^ #[trigger] (1usize << h);
            assert(bit(h as nat) < n);
            assert(h < top);
        }
    }
}

/// Low degree: with node numbers of `bits` bits a node has at most `bits` neighbours, and exactly
/// that many if the graph is a whole hypercube.
pub proof fn low_degree(id: usize, n: usize, bits: nat)
    requires
        bits < usize::BITS,
        n <= bit(bits),
    ensures
        neighbours(id, n).len() <= bits,
        n == bit(bits) && id < n ==> neighbours(id, n).len() == bits,
{
    lemma_near_stops(id, n, bits, (usize::BITS - 1) as nat);
    lemma_near_len(id, n, bits);
    if n == bit(bits) && id < n {
        lemma_near_full(id, bits, bits);
    }
}

/// A path in the graph of `n` nodes: each node is a neighbour of the one before it.
pub open spec fn is_path(path: Seq<usize>, n: usize) -> bool {
    &&& path.len() > 0
    &&& forall|i: int| 0 <= i < path.len() ==> #[trigger] path[i] < n
    &&& forall|i: int|
        0 < i < path.len() ==> #[trigger] neighbours(path[i - 1], n).contains(path[i])
}

proof fn lemma_ones_flip(x: usize, h: nat, k: nat)
    requires
        h < usize::BITS,
        k <= usize::BITS,
        has(x, h),
    ensures
        ones(x ^ bit(h), k) == ones(x, k) - if h < k {
            1int
        } else {
            0
        },
    decreases k,
{
    if k > 0 {
        lemma_ones_flip(x, h, (k - 1) as nat);
        lemma_flip(x, h as usize, (k - 1) as usize);
    }
}

proof fn lemma_clear_step(x: usize, k: usize)
    by (bit_vector)
    requires
        k < usize::BITS - 1,
        (x >> k) << k == x,
        (x >> k) & 1 == 0,
    ensures
        (x >> (k + 1) as usize) << (k + 1) as usize == x,
{
}

proof fn lemma_clear_ends(x: usize, top: usize)
    by (bit_vector)
    requires
        top < usize::BITS,
        x < (1usize << top),
    ensures
        (x >> 0usize) << 0usize == x,
        (x >> top) << top == x ==> x == 0,
{
}

/// A number without any of the `k` lowest bits is a multiple of `bit(k)`.
proof fn lemma_no_bits(x: usize, k: nat)
    requires
        k < usize::BITS,
        ones(x, k) == 0,
        x < bit((usize::BITS - 1) as nat),
    ensures
        (x >> (k as usize)) << (k as usize) == x,
    decreases k,
{
    if k == 0 {
        lemma_clear_ends(x, (usize::BITS - 1) as usize);
    } else {
        lemma_no_bits(x, (k - 1) as nat);
        lemma_flip(x, (k - 1) as usize, (k - 1) as usize);
        lemma_clear_step(x, (k - 1) as usize);
    }
}

proof fn lemma_some_bit_below(x: usize, k: nat) -> (h: nat)
    requires
        ones(x, k) > 0,
    ensures
        h < k,
        has(x, h),
    decreases k,
{
    if has(x, (k - 1) as nat) {
        (k - 1) as nat
    } else {
        lemma_some_bit_below(x, (k - 1) as nat)
    }
}

/// A number that is not zero has some bit.
proof fn lemma_some_bit(x: usize) -> (h: nat)
    requires
        x != 0,
        x < bit((usize::BITS - 1) as nat),
    ensures
        h < usize::BITS - 1,
        has(x, h),
{
    let k = (usize::BITS - 1) as nat;
    if ones(x, k) == 0 {
        lemma_no_bits(x, k);
        lemma_clear_ends(x, k as usize);
    }
    lemma_some_bit_below(x, k)
}

proof fn lemma_differences(a: usize, b: usize, h: usize, top: usize)
    by (bit_vector)
    requires
        h < usize::BITS,
        top < usize::BITS,
        a < (1usize << top),
        b < (1usize << top),
    ensures
        a & !b < (1usize << top),
        b & !a < (1usize << top),
        a & !b == 0 && b & !a == 0 ==> a == b,
        ((a & !b) >> h) & 1 == 1 ==> (a >> h) & 1 == 1 && ((a ^ b) >> h) & 1 == 1,
        ((b & !a) >> h) & 1 == 1 ==> (b >> h) & 1 == 1 && (a >> h) & 1 != 1 && ((a ^ b) >> h) & 1
            == 1,
        a & !b == 0 && ((b & !a) >> h) & 1 == 1 ==> a ^ (1usize << h) <= b,
        (a ^ (1usize << h)) ^ b == (a ^ b) ^ (1usize << h),
{
}

proof fn lemma_same(a: usize)
    by (bit_vector)
    ensures
        a ^ a == 0,
        forall|h: usize| h < usize::BITS ==> #[trigger] (0usize >> h) & 1 == 0,
{
}

proof fn lemma_ones_zero(k: nat)
    requires
        k <= usize::BITS,
    ensures
        ones(0, k) == 0,
    decreases k,
{
    if k > 0 {
        lemma_ones_zero((k - 1) as nat);
        lemma_same(0);
        assert((0usize >> ((k - 1) as usize)) & 1 == 0);
    }
}

/// Connected: any two nodes are linked by a path with one edge for each bit in which their numbers
/// differ.
pub proof fn connected(a: usize, b: usize, n: usize) -> (path: Seq<usize>)
    requires
        fits(n),
        a < n,
        b < n,
    ensures
        is_path(path, n),
        path[0] == a,
        path.last() == b,
        path.len() == distance(a, b) + 1,
    decreases distance(a, b),
{
    let top = (usize::BITS - 1) as nat;
    lemma_fits(n);
    if a == b {
        lemma_same(a);
        lemma_ones_zero(top);
        seq![a]
    } else {
        lemma_differences(a, b, 0, top as usize);
        let h = if a & !b != 0 {
            lemma_some_bit(a & !b)
        } else {
            lemma_some_bit(b & !a)
        };
        lemma_differences(a, b, h as usize, top as usize);
        let c = a ^ bit(h);
        lemma_flip(a, h as usize, h as usize);
        assert(c < n && bit(h) < n);
        lemma_ones_flip(a ^ b, h, top);
        lemma_near(a, n, top, c);
        assert(neighbours(a, n).contains(c));
        let rest = connected(c, b, n);
        let path = seq![a] + rest;
        assert forall|i: int| 0 <= i < path.len() implies #[trigger] path[i] < n by {
            if i > 0 {
                assert(rest[i - 1] < n);
            }
        }
        assert forall|i: int| 0 < i < path.len() implies #[trigger] neighbours(
            path[i - 1],
            n,
        ).contains(path[i]) by {
            if i > 1 {
                assert(neighbours(rest[i - 1 - 1], n).contains(rest[i - 1]));
            }
        }
        assert(path.last() == rest.last());
        path
    }
}

proof fn lemma_flips_differ(x: usize, a: usize, b: usize)
    by (bit_vector)
    requires
        a != b,
    ensures
        x ^ a != x ^ b,
{
}

proof fn lemma_near_different(id: usize, n: usize, k: nat)
    requires
        k <= usize::BITS - 1,
    ensures
        near(id, n, k).no_duplicates(),
    decreases k,
{
    if k > 0 {
        let rest = near(id, n, (k - 1) as nat);
        let other = id ^ bit((k - 1) as nat);
        lemma_near_different(id, n, (k - 1) as nat);
        lemma_near(id, n, (k - 1) as nat, other);
        if rest.contains(other) {
            let h = choose|h: nat|
                h < k - 1 && #[trigger] bit(h) < n && other == id ^ bit(h) && other < n;
            lemma_bits_grow(h, (k - 1) as nat);
            lemma_flips_differ(id, bit(h), bit((k - 1) as nat));
        }
        assert forall|i: int| 0 <= i < rest.len() implies #[trigger] rest[i] != other by {
            assert(rest.contains(rest[i]));
        }
    }
}

/// No neighbour is listed twice.
pub proof fn all_different(id: usize, n: usize)
    ensures
        neighbours(id, n).no_duplicates(),
{
    lemma_near_different(id, n, (usize::BITS - 1) as nat);
}

proof fn lemma_one_apart(a: usize, b: usize, h: usize, top: usize)
    by (bit_vector)
    requires
        h < top,
        top < usize::BITS,
    ensures
        ((1usize << h) >> h) & 1 == 1,
        (1usize << h) ^ (1usize << h) == 0,
        b == a ^ (1usize << h) ==> a ^ b == 1usize << h,
        (a ^ b) ^ (1usize << h) == 0 ==> b == a ^ (1usize << h),
        (a ^ b) < (1usize << top) ==> (a ^ b) ^ (1usize << h) < (1usize << top),
{
}

/// Two nodes are neighbours iff their numbers differ in exactly one bit.
pub proof fn one_bit_apart(a: usize, b: usize, n: usize)
    requires
        fits(n),
        a < n,
        b < n,
    ensures
        neighbours(a, n).contains(b) <==> distance(a, b) == 1,
{
    let top = (usize::BITS - 1) as nat;
    lemma_fits(n);
    lemma_near(a, n, top, b);
    lemma_xor_below(a, b, top as usize);
    if neighbours(a, n).contains(b) {
        let h = choose|h: nat| h < top && #[trigger] bit(h) < n && b == a ^ bit(h) && b < n;
        lemma_one_apart(a, b, h as usize, top as usize);
        lemma_ones_flip(bit(h), h, top);
        lemma_ones_zero(top);
    }
    if distance(a, b) == 1 {
        let h = lemma_some_bit_below(a ^ b, top);
        lemma_ones_flip(a ^ b, h, top);
        lemma_one_apart(a, b, h as usize, top as usize);
        lemma_no_bits((a ^ b) ^ bit(h), top);
        lemma_clear_ends((a ^ b) ^ bit(h), top as usize);
        lemma_flip(a, h as usize, h as usize);
        assert(bit(h) < n && b == a ^ bit(h) && b < n);
    }
}

proof fn lemma_edge(a: usize, h: usize, c: usize)
    by (bit_vector)
    requires
        h < usize::BITS,
    ensures
        (a ^ (1usize << h)) ^ c == (a ^ c) ^ (1usize << h),
        a ^ c == ((a ^ (1usize << h)) ^ c) ^ (1usize << h),
        ((a ^ c) >> h) & 1 == 1 || (((a ^ (1usize << h)) ^ c) >> h) & 1 == 1,
{
}

/// No path is shorter than the distance: it has an edge for each bit in which the numbers of its
/// ends differ.
pub proof fn no_shorter_path(path: Seq<usize>, n: usize)
    requires
        is_path(path, n),
    ensures
        distance(path[0], path.last()) + 1 <= path.len(),
    decreases path.len(),
{
    let top = (usize::BITS - 1) as nat;
    if path.len() == 1 {
        lemma_same(path[0]);
        lemma_ones_zero(top);
    } else {
        let rest = path.drop_first();
        assert forall|i: int| 0 <= i < rest.len() implies #[trigger] rest[i] < n by {
            assert(path[i + 1] < n);
        }
        assert forall|i: int| 0 < i < rest.len() implies #[trigger] neighbours(
            rest[i - 1],
            n,
        ).contains(rest[i]) by {
            assert(neighbours(path[i + 1 - 1], n).contains(path[i + 1]));
        }
        no_shorter_path(rest, n);
        let a = path[0];
        let b = path[1];
        let c = path.last();
        assert(rest.last() == c);
        assert(neighbours(path[1 - 1], n).contains(path[1]));
        lemma_near(a, n, top, b);
        let h = choose|h: nat| h < top && #[trigger] bit(h) < n && b == a ^ bit(h) && b < n;
        lemma_edge(a, h as usize, c);
        if has(a ^ c, h) {
            lemma_ones_flip(a ^ c, h, top);
        } else {
            lemma_ones_flip(b ^ c, h, top);
        }
    }
}

/// The distance is at most the number of bits of node numbers.
pub proof fn low_diameter(a: usize, b: usize, bits: nat)
    requires
        bits < usize::BITS,
        a < bit(bits),
        b < bit(bits),
    ensures
        distance(a, b) <= bits,
{
    lemma_xor_below(a, b, bits as usize);
    lemma_ones_bound(a ^ b, bits, (usize::BITS - 1) as nat);
}

proof fn lemma_xor_below(a: usize, b: usize, k: usize)
    by (bit_vector)
    requires
        k < usize::BITS,
        a < (1usize << k),
        b < (1usize << k),
    ensures
        a ^ b < (1usize << k),
{
}

proof fn lemma_no_high_bit(x: usize, k: usize, h: usize)
    by (bit_vector)
    requires
        k <= h,
        h < usize::BITS,
        x < (1usize << k),
    ensures
        (x >> h) & 1 == 0,
{
}

proof fn lemma_ones_bound(x: usize, bits: nat, k: nat)
    requires
        bits < usize::BITS,
        k < usize::BITS,
        x < bit(bits),
    ensures
        ones(x, k) <= bits,
        ones(x, k) <= k,
    decreases k,
{
    if k > 0 {
        lemma_ones_bound(x, bits, (k - 1) as nat);
        if k > bits {
            lemma_no_high_bit(x, bits as usize, (k - 1) as usize);
        }
    }
}

} // verus!
