//! Determinacy-race detection for structured fork-join parallelism.
//!
//! A fork-join computation is a series-parallel tree whose leaves are sequential strands. Two
//! strands run logically in parallel iff their lowest common ancestor is a parallel node. A
//! determinacy race is a pair of strands that run in parallel and access the same memory location,
//! at least one of them writing. It is a property of the structure, not of a schedule.
//!
//! Whether two strands run in parallel is answered from two ranks of each: the English order visits
//! the children of every node left to right, the Hebrew order visits those of parallel nodes right
//! to left. [`parallel_iff_orders_disagree`] proves that two strands run in parallel iff the two
//! orders disagree on them, [`races_are_exact`] that what [`Dag::detect_races`] reports are the
//! races, all of them and nothing else, and [`one_report_per_pair`] that each pair of accesses is
//! reported once. [`every_conflict_is_reported`] and [`every_report_is_a_conflict`] say so of the
//! strands where they stand in the tree.

use std::collections::HashMap;

use vstd::prelude::*;

verus! {

/// Identifier of a shared memory location (any stable `usize` key).
pub type Location = usize;

/// A single memory access by a strand.
#[derive(Clone, Copy, Debug)]
pub struct Access {
    pub location: Location,
    pub is_write: bool,
}

/// A node in the series-parallel tree.
pub enum Node {
    /// A leaf that performs a list of memory accesses in order.
    Strand(Vec<Access>),
    /// Children run one after another.
    Series(Vec<Node>),
    /// Children run logically in parallel.
    Parallel(Vec<Node>),
}

/// A series-parallel tree as a mathematical value.
pub enum Tree {
    Strand(Seq<Access>),
    Series(Seq<Tree>),
    Parallel(Seq<Tree>),
}

impl Node {
    /// The tree below a node.
    pub open spec fn tree(self) -> Tree
        decreases self, 0nat,
    {
        match self {
            Node::Strand(accesses) => Tree::Strand(accesses@),
            Node::Series(children) => Tree::Series(trees(children@)),
            Node::Parallel(children) => Tree::Parallel(trees(children@)),
        }
    }
}

/// The trees below nodes.
pub open spec fn trees(nodes: Seq<Node>) -> Seq<Tree>
    decreases nodes, 1nat,
{
    Seq::new(
        nodes.len(),
        |i: int|
            if 0 <= i < nodes.len() {
                nodes[i].tree()
            } else {
                arbitrary()
            },
    )
}

/// The strands of a tree, in English order, each by its accesses.
pub open spec fn leaves(t: Tree) -> Seq<Seq<Access>>
    decreases t, 0nat,
{
    match t {
        Tree::Strand(accesses) => seq![accesses],
        Tree::Series(children) => leaves_of(children, children.len()),
        Tree::Parallel(children) => leaves_of(children, children.len()),
    }
}

/// The strands of the first `n` trees, in English order.
pub open spec fn leaves_of(children: Seq<Tree>, n: nat) -> Seq<Seq<Access>>
    decreases children, n,
{
    if n == 0 || n > children.len() {
        Seq::empty()
    } else {
        leaves_of(children, (n - 1) as nat) + leaves(children[n - 1])
    }
}

/// Number of strands of a tree.
pub open spec fn count(t: Tree) -> nat {
    leaves(t).len()
}

/// Number of strands of the first `n` trees.
pub open spec fn count_of(children: Seq<Tree>, n: nat) -> nat {
    leaves_of(children, n).len()
}

/// Strands `i` and `j` of a tree run logically in parallel: their lowest common ancestor is a
/// parallel node.
pub open spec fn parallel(t: Tree, i: int, j: int) -> bool
    decreases t, 0nat,
{
    match t {
        Tree::Strand(accesses) => false,
        Tree::Series(children) => parallel_of(children, children.len(), i, j, false),
        Tree::Parallel(children) => parallel_of(children, children.len(), i, j, true),
    }
}

/// Strands `i` and `j` of the first `n` children run logically in parallel, where strands of
/// different children do iff `spawned`.
pub open spec fn parallel_of(children: Seq<Tree>, n: nat, i: int, j: int, spawned: bool) -> bool
    decreases children, n,
{
    if n == 0 || n > children.len() {
        false
    } else {
        let base = count_of(children, (n - 1) as nat) as int;
        if i < base && j < base {
            parallel_of(children, (n - 1) as nat, i, j, spawned)
        } else if i >= base && j >= base {
            parallel(children[n - 1], i - base, j - base)
        } else {
            spawned
        }
    }
}

/// Rank of strand `i` of a tree in Hebrew order.
pub open spec fn hebrew(t: Tree, i: int) -> int
    decreases t, 0nat,
{
    match t {
        Tree::Strand(accesses) => 0,
        Tree::Series(children) => hebrew_of(children, children.len(), i, false),
        Tree::Parallel(children) => hebrew_of(children, children.len(), i, true),
    }
}

/// Rank of strand `i` of the first `n` children, visited left to right, or right to left if
/// `reversed`.
pub open spec fn hebrew_of(children: Seq<Tree>, n: nat, i: int, reversed: bool) -> int
    decreases children, n,
{
    if n == 0 || n > children.len() {
        0
    } else {
        let base = count_of(children, (n - 1) as nat) as int;
        if i < base {
            hebrew_of(children, (n - 1) as nat, i, reversed) + if reversed {
                count(children[n - 1]) as int
            } else {
                0
            }
        } else {
            hebrew(children[n - 1], i - base) + if reversed {
                0
            } else {
                base
            }
        }
    }
}

/// Two strands run logically in parallel iff the English and the Hebrew order disagree on them;
/// otherwise the one that comes first in English order comes first in both.
pub proof fn parallel_iff_orders_disagree(t: Tree, i: int, j: int)
    requires
        0 <= i < count(t),
        0 <= j < count(t),
        i != j,
    ensures
        parallel(t, i, j) == ((i < j) != (hebrew(t, i) < hebrew(t, j))),
        hebrew(t, i) != hebrew(t, j),
        0 <= hebrew(t, i) < count(t),
    decreases t, 0nat,
{
    lemma_hebrew_bound(t, i);
    match t {
        Tree::Strand(accesses) => {},
        Tree::Series(children) => {
            lemma_orders_of(children, children.len(), i, j, false);
        },
        Tree::Parallel(children) => {
            lemma_orders_of(children, children.len(), i, j, true);
        },
    }
}

proof fn lemma_orders_of(children: Seq<Tree>, n: nat, i: int, j: int, flag: bool)
    requires
        n <= children.len(),
        0 <= i < count_of(children, n),
        0 <= j < count_of(children, n),
        i != j,
    ensures
        parallel_of(children, n, i, j, flag) == ((i < j) != (hebrew_of(children, n, i, flag)
            < hebrew_of(children, n, j, flag))),
        hebrew_of(children, n, i, flag) != hebrew_of(children, n, j, flag),
    decreases children, n,
{
    if n > 0 {
        let base = count_of(children, (n - 1) as nat) as int;
        if i < base && j < base {
            lemma_orders_of(children, (n - 1) as nat, i, j, flag);
        } else if i >= base && j >= base {
            parallel_iff_orders_disagree(children[n - 1], i - base, j - base);
        } else {
            let (low, high) = if i < j {
                (i, j)
            } else {
                (j, i)
            };
            lemma_hebrew_of_bound(children, (n - 1) as nat, low, flag);
            lemma_hebrew_bound(children[n - 1], high - base);
        }
    }
}

proof fn lemma_hebrew_bound(t: Tree, i: int)
    requires
        0 <= i < count(t),
    ensures
        0 <= hebrew(t, i) < count(t),
    decreases t, 0nat,
{
    match t {
        Tree::Strand(accesses) => {},
        Tree::Series(children) => {
            lemma_hebrew_of_bound(children, children.len(), i, false);
        },
        Tree::Parallel(children) => {
            lemma_hebrew_of_bound(children, children.len(), i, true);
        },
    }
}

proof fn lemma_hebrew_of_bound(children: Seq<Tree>, n: nat, i: int, flag: bool)
    requires
        n <= children.len(),
        0 <= i < count_of(children, n),
    ensures
        0 <= hebrew_of(children, n, i, flag) < count_of(children, n),
    decreases children, n,
{
    if n > 0 {
        let base = count_of(children, (n - 1) as nat) as int;
        if i < base {
            lemma_hebrew_of_bound(children, (n - 1) as nat, i, flag);
        } else {
            lemma_hebrew_bound(children[n - 1], i - base);
        }
    }
}

/// The children of a node.
pub open spec fn children_of(t: Tree) -> Seq<Tree> {
    match t {
        Tree::Strand(accesses) => Seq::empty(),
        Tree::Series(children) => children,
        Tree::Parallel(children) => children,
    }
}

/// The node that a path leads to, from child to child, if there is one.
pub open spec fn at(t: Tree, path: Seq<int>) -> Option<Tree>
    decreases path.len(),
{
    if path.len() == 0 {
        Some(t)
    } else if 0 <= path[0] < children_of(t).len() {
        at(children_of(t)[path[0]], path.drop_first())
    } else {
        None
    }
}

/// Number of strands to the left of a path.
pub open spec fn place(t: Tree, path: Seq<int>) -> int
    decreases path.len(),
{
    if path.len() == 0 || !(0 <= path[0] < children_of(t).len()) {
        0
    } else {
        count_of(children_of(t), path[0] as nat) + place(
            children_of(t)[path[0]],
            path.drop_first(),
        )
    }
}

/// The tree below a node is what its nodes say: a strand with its accesses, or a series or a
/// parallel node with the trees below its children, all of them and in their order.
pub proof fn a_tree_is_its_nodes(node: Node)
    ensures
        match node {
            Node::Strand(accesses) => node.tree() == Tree::Strand(accesses@),
            Node::Series(nodes) => {
                &&& node.tree() is Series
                &&& children_of(node.tree()).len() == nodes@.len()
                &&& forall|i: int|
                    0 <= i < nodes@.len() ==> #[trigger] children_of(node.tree())[i]
                        == nodes@[i].tree()
            },
            Node::Parallel(nodes) => {
                &&& node.tree() is Parallel
                &&& children_of(node.tree()).len() == nodes@.len()
                &&& forall|i: int|
                    0 <= i < nodes@.len() ==> #[trigger] children_of(node.tree())[i]
                        == nodes@[i].tree()
            },
        },
{
}

proof fn lemma_leaves_of_child(children: Seq<Tree>, k: nat, n: nat, i: int)
    requires
        k < n <= children.len(),
        0 <= i < count(children[k as int]),
    ensures
        count_of(children, k) + count(children[k as int]) == count_of(children, k + 1),
        count_of(children, k + 1) <= count_of(children, n),
        leaves_of(children, n)[count_of(children, k) + i] == leaves(children[k as int])[i],
    decreases n,
{
    assert(count_of(children, k + 1) == count_of(children, k) + count(children[k as int]));
    if k + 1 < n {
        lemma_leaves_of_child(children, k, (n - 1) as nat, i);
        assert(leaves_of(children, n) == leaves_of(children, (n - 1) as nat) + leaves(
            children[n - 1],
        ));
    }
}

proof fn lemma_leaves_of_children(t: Tree)
    requires
        !(t is Strand),
    ensures
        leaves(t) == leaves_of(children_of(t), children_of(t).len()),
{
}

/// Every strand of a tree is recorded with exactly its accesses: the one that a path leads to
/// stands where there are as many strands before it as to its left.
pub proof fn every_strand_has_its_place(t: Tree, path: Seq<int>, accesses: Seq<Access>)
    requires
        at(t, path) == Some(Tree::Strand(accesses)),
    ensures
        0 <= place(t, path) < leaves(t).len(),
        leaves(t)[place(t, path)] == accesses,
    decreases path.len(),
{
    if path.len() > 0 {
        let c = children_of(t);
        let k = path[0] as nat;
        every_strand_has_its_place(c[path[0]], path.drop_first(), accesses);
        lemma_leaves_of_children(t);
        lemma_leaves_of_child(c, k, c.len(), place(c[path[0]], path.drop_first()));
    }
}

proof fn lemma_child_of(children: Seq<Tree>, n: nat, i: int) -> (k: nat)
    requires
        n <= children.len(),
        0 <= i < count_of(children, n),
    ensures
        k < n,
        count_of(children, k) <= i < count_of(children, k) + count(children[k as int]),
    decreases n,
{
    if n == 0 {
        0
    } else if i < count_of(children, (n - 1) as nat) {
        lemma_child_of(children, (n - 1) as nat, i)
    } else {
        (n - 1) as nat
    }
}

/// Nothing else is recorded: in every place stands a strand that some path leads to.
pub proof fn every_place_is_a_strand(t: Tree, i: int) -> (path: Seq<int>)
    requires
        0 <= i < leaves(t).len(),
    ensures
        at(t, path) is Some,
        at(t, path)->0 is Strand,
        place(t, path) == i,
    decreases t,
{
    if t is Strand {
        Seq::empty()
    } else {
        let c = children_of(t);
        lemma_leaves_of_children(t);
        let k = lemma_child_of(c, c.len(), i);
        assert(decreases_to!(t => c[k as int]));
        let rest = every_place_is_a_strand(c[k as int], i - count_of(c, k));
        let path = seq![k as int] + rest;
        assert(path.drop_first() =~= rest);
        path
    }
}

/// Two paths part at `k`: the first goes left of the second there.
pub open spec fn part(p: Seq<int>, q: Seq<int>, k: int) -> bool {
    &&& 0 <= k < p.len()
    &&& k < q.len()
    &&& forall|i: int| 0 <= i < k ==> #[trigger] p[i] == q[i]
    &&& p[k] < q[k]
}

/// Paths to two strands part somewhere.
pub proof fn paths_part(t: Tree, p: Seq<int>, q: Seq<int>) -> (k: int)
    requires
        at(t, p) is Some,
        at(t, p)->0 is Strand,
        at(t, q) is Some,
        at(t, q)->0 is Strand,
        p != q,
    ensures
        part(p, q, k) || part(q, p, k),
    decreases p.len(),
{
    if p.len() == 0 || q.len() == 0 {
        assert(p =~= q);
        0
    } else if p[0] != q[0] {
        0
    } else {
        let c = children_of(t)[p[0]];
        if p.drop_first() == q.drop_first() {
            assert(seq![p[0]] + p.drop_first() =~= p);
            assert(seq![q[0]] + q.drop_first() =~= q);
        }
        let k = paths_part(c, p.drop_first(), q.drop_first());
        assert forall|i: int| 0 <= i < k + 1 implies #[trigger] p[i] == q[i] by {
            if i > 0 {
                assert(p.drop_first()[i - 1] == q.drop_first()[i - 1]);
            }
        }
        k + 1
    }
}

proof fn lemma_parallel_of(
    children: Seq<Tree>,
    n: nat,
    a: nat,
    b: nat,
    i: int,
    j: int,
    flag: bool,
)
    requires
        a <= b < n <= children.len(),
        count_of(children, a) <= i < count_of(children, a + 1),
        count_of(children, b) <= j < count_of(children, b + 1),
    ensures
        a < b ==> i < j,
        a < b ==> parallel_of(children, n, i, j, flag) == flag,
        a < b ==> parallel_of(children, n, j, i, flag) == flag,
        a == b ==> parallel_of(children, n, i, j, flag) == parallel(
            children[a as int],
            i - count_of(children, a),
            j - count_of(children, a),
        ),
    decreases n,
{
    if a < b {
        lemma_count_of_monotone(children, a + 1, b);
    }
    if b + 1 < n {
        lemma_count_of_monotone(children, b + 1, (n - 1) as nat);
        lemma_parallel_of(children, (n - 1) as nat, a, b, i, j, flag);
    }
}

/// Strands stand in the order in which their paths part, and run logically in parallel iff the node
/// at which their paths part is a parallel one. The Hebrew order turns them round iff they do.
pub proof fn strands_part_where_their_paths_part(t: Tree, p: Seq<int>, q: Seq<int>, k: int)
    requires
        at(t, p) is Some,
        at(t, p)->0 is Strand,
        at(t, q) is Some,
        at(t, q)->0 is Strand,
        part(p, q, k),
    ensures
        place(t, p) < place(t, q),
        at(t, p.take(k)) is Some,
        parallel(t, place(t, p), place(t, q)) <==> at(t, p.take(k))->0 is Parallel,
        hebrew(t, place(t, p)) != hebrew(t, place(t, q)),
        hebrew(t, place(t, q)) < hebrew(t, place(t, p)) <==> at(t, p.take(k))->0 is Parallel,
        0 <= hebrew(t, place(t, p)) < leaves(t).len(),
    decreases p.len(),
{
    let c = children_of(t);
    let n = c.len();
    let a = p[0] as nat;
    let b = q[0] as nat;
    let pa = p.drop_first();
    let qb = q.drop_first();
    every_strand_has_its_place(t, p, at(t, p)->0->Strand_0);
    every_strand_has_its_place(t, q, at(t, q)->0->Strand_0);
    every_strand_has_its_place(c[p[0]], pa, at(t, p)->0->Strand_0);
    every_strand_has_its_place(c[q[0]], qb, at(t, q)->0->Strand_0);
    assert(count_of(c, a + 1) == count_of(c, a) + count(c[a as int]));
    assert(count_of(c, b + 1) == count_of(c, b) + count(c[b as int]));
    let i = place(t, p);
    let j = place(t, q);
    if k == 0 {
        assert(p.take(0) =~= Seq::<int>::empty());
        lemma_parallel_of(c, n, a, b, i, j, t is Parallel);
    } else {
        assert(p[0] == q[0]);
        assert forall|x: int| 0 <= x < k - 1 implies #[trigger] pa[x] == qb[x] by {
            assert(p[x + 1] == q[x + 1]);
        }
        strands_part_where_their_paths_part(c[p[0]], pa, qb, k - 1);
        lemma_parallel_of(c, n, a, b, i, j, t is Parallel);
        assert(p.take(k).drop_first() =~= pa.take(k - 1));
    }
    parallel_iff_orders_disagree(t, i, j);
}

/// What the analysis records of a strand, as a mathematical value.
#[verifier::ext_equal]
pub struct StrandRecord {
    pub english: usize,
    pub hebrew: usize,
    pub accesses: Seq<Access>,
}

/// What the analysis records of a strand: its two ranks and the accesses it made.
pub struct StrandInfo {
    pub english: usize,
    pub hebrew: usize,
    pub accesses: Vec<Access>,
}

impl View for StrandInfo {
    type V = StrandRecord;

    open spec fn view(&self) -> StrandRecord {
        StrandRecord { english: self.english, hebrew: self.hebrew, accesses: self.accesses@ }
    }
}

/// The records of many strands.
pub open spec fn records(strands: Seq<StrandInfo>) -> Seq<StrandRecord> {
    Seq::new(strands.len(), |k: int| strands[k]@)
}

/// The records of strands after the English pass, with ranks from `from` on.
pub open spec fn english_records(strands: Seq<Seq<Access>>, from: int) -> Seq<StrandRecord> {
    Seq::new(
        strands.len(),
        |k: int|
            StrandRecord {
                english: (from + k) as usize,
                hebrew: usize::MAX,
                accesses: strands[k],
            },
    )
}

proof fn lemma_count_of_monotone(children: Seq<Tree>, m: nat, n: nat)
    requires
        m <= n <= children.len(),
    ensures
        count_of(children, m) <= count_of(children, n),
    decreases n,
{
    if m < n {
        lemma_count_of_monotone(children, m, (n - 1) as nat);
    }
}

/// English order: assign each strand of `node` its rank, children left to right, and record its
/// accesses.
pub fn assign_english(node: &Node, counter: &mut usize, out: &mut Vec<StrandInfo>)
    requires
        *old(counter) + count(node.tree()) <= usize::MAX,
    ensures
        *final(counter) == *old(counter) + count(node.tree()),
        records(final(out)@) == records(old(out)@) + english_records(
            leaves(node.tree()),
            *old(counter) as int,
        ),
        final(out)@.len() == old(out)@.len() + leaves(node.tree()).len(),
        forall|k: int|
            0 <= k < old(out)@.len() ==> {
                &&& (#[trigger] final(out)@[k]).english == old(out)@[k].english
                &&& final(out)@[k].hebrew == old(out)@[k].hebrew
                &&& final(out)@[k].accesses@ == old(out)@[k].accesses@
            },
        forall|k: int|
            old(out)@.len() <= k < final(out)@.len() ==> {
                &&& (#[trigger] final(out)@[k]).english == *old(counter) + k - old(out)@.len()
                &&& final(out)@[k].accesses@ == leaves(node.tree())[k - old(out)@.len()]
            },
    decreases node,
{
    let ghost first = *counter as int;
    let ghost earlier = out@;
    match node {
        Node::Strand(accesses) => {
            let ghost before = out@;
            out.push(
                StrandInfo { english: *counter, hebrew: usize::MAX, accesses: copied(accesses) },
            );
            assert(records(out@) =~= records(before) + english_records(
                leaves(node.tree()),
                *counter as int,
            ));
            *counter = *counter + 1;
        },
        Node::Series(children) => {
            assign_english_all(children, counter, out);
        },
        Node::Parallel(children) => {
            assign_english_all(children, counter, out);
        },
    }
    proof {
        let new = english_records(leaves(node.tree()), first);
        assert(records(out@).len() == out@.len());
        assert forall|k: int| 0 <= k < earlier.len() implies {
            &&& (#[trigger] out@[k]).english == earlier[k].english
            &&& out@[k].hebrew == earlier[k].hebrew
            &&& out@[k].accesses@ == earlier[k].accesses@
        } by {
            assert(records(out@)[k] == records(earlier)[k]);
        }
        assert forall|k: int| earlier.len() <= k < out@.len() implies {
            &&& (#[trigger] out@[k]).english == first + k - earlier.len()
            &&& out@[k].accesses@ == leaves(node.tree())[k - earlier.len()]
        } by {
            assert(records(out@)[k] == new[k - earlier.len()]);
        }
    }
}

/// The accesses once more.
fn copied(accesses: &Vec<Access>) -> (r: Vec<Access>)
    ensures
        r@ == accesses@,
{
    let mut r: Vec<Access> = Vec::new();
    let mut i: usize = 0;
    while i < accesses.len()
        invariant
            i <= accesses.len(),
            r@ == accesses@.take(i as int),
        decreases accesses.len() - i,
    {
        r.push(accesses[i]);
        i += 1;
        assert(r@ =~= accesses@.take(i as int));
    }
    assert(r@ =~= accesses@);
    r
}

/// English order over nodes, left to right.
fn assign_english_all(children: &Vec<Node>, counter: &mut usize, out: &mut Vec<StrandInfo>)
    requires
        *old(counter) + count_of(trees(children@), children@.len()) <= usize::MAX,
    ensures
        *final(counter) == *old(counter) + count_of(trees(children@), children@.len()),
        records(final(out)@) == records(old(out)@) + english_records(
            leaves_of(trees(children@), children@.len()),
            *old(counter) as int,
        ),
    decreases children,
{
    let ghost c = trees(children@);
    let ghost before = records(out@);
    let ghost start = *counter;
    let mut i: usize = 0;
    assert(records(out@) =~= before + english_records(leaves_of(c, 0), start as int));
    while i < children.len()
        invariant
            i <= children.len(),
            c == trees(children@),
            start + count_of(c, children@.len()) <= usize::MAX,
            *counter == start + count_of(c, i as nat),
            records(out@) == before + english_records(leaves_of(c, i as nat), start as int),
        decreases children.len() - i,
    {
        proof {
            lemma_count_of_monotone(c, (i + 1) as nat, children@.len());
            assert(decreases_to!(children => children@));
            assert(decreases_to!(children@ => children@[i as int]));
            assert(c[i as int] == children@[i as int].tree());
            assert(count_of(c, (i + 1) as nat) == count_of(c, i as nat) + count(c[i as int]));
        }
        assign_english(&children[i], counter, out);
        i += 1;
        assert(records(out@) =~= before + english_records(leaves_of(c, i as nat), start as int));
    }
}

/// Number of strands below `node`.
pub fn count_strands(node: &Node) -> (r: usize)
    requires
        count(node.tree()) <= usize::MAX,
    ensures
        r == count(node.tree()),
    decreases node,
{
    match node {
        Node::Strand(accesses) => 1,
        Node::Series(children) => count_strands_all(children),
        Node::Parallel(children) => count_strands_all(children),
    }
}

/// Number of strands below nodes.
fn count_strands_all(children: &Vec<Node>) -> (r: usize)
    requires
        count_of(trees(children@), children@.len()) <= usize::MAX,
    ensures
        r == count_of(trees(children@), children@.len()),
    decreases children,
{
    let ghost c = trees(children@);
    let mut total: usize = 0;
    let mut i: usize = 0;
    while i < children.len()
        invariant
            i <= children.len(),
            c == trees(children@),
            count_of(c, children@.len()) <= usize::MAX,
            total == count_of(c, i as nat),
        decreases children.len() - i,
    {
        proof {
            lemma_count_of_monotone(c, (i + 1) as nat, children@.len());
            assert(decreases_to!(children => children@));
            assert(decreases_to!(children@ => children@[i as int]));
            assert(count_of(c, (i + 1) as nat) == count_of(c, i as nat) + count(c[i as int]));
        }
        total = total + count_strands(&children[i]);
        i += 1;
    }
    total
}

/// The records with the Hebrew ranks of strands `from..from + n` set, the `k`-th of them to
/// `first + rank(k)`.
pub open spec fn ranked(
    strands: Seq<StrandRecord>,
    from: int,
    n: int,
    first: int,
    rank: spec_fn(int) -> int,
) -> Seq<StrandRecord> {
    Seq::new(
        strands.len(),
        |k: int|
            if from <= k < from + n {
                StrandRecord { hebrew: (first + rank(k - from)) as usize, ..strands[k] }
            } else {
                strands[k]
            },
    )
}

/// Hebrew order: assign each strand of `node` its rank, children right to left at parallel nodes
/// and left to right at series nodes. `english_cursor` is the English rank of the first strand.
pub fn hebrew_walk(
    node: &Node,
    hebrew: &mut usize,
    out: &mut Vec<StrandInfo>,
    english_cursor: &mut usize,
)
    requires
        *old(hebrew) + count(node.tree()) <= usize::MAX,
        *old(english_cursor) + count(node.tree()) <= old(out)@.len(),
    ensures
        *final(hebrew) == *old(hebrew) + count(node.tree()),
        *final(english_cursor) == *old(english_cursor) + count(node.tree()),
        records(final(out)@) == ranked(
            records(old(out)@),
            *old(english_cursor) as int,
            count(node.tree()) as int,
            *old(hebrew) as int,
            |k: int| self::hebrew(node.tree(), k),
        ),
        final(out)@.len() == old(out)@.len(),
        forall|k: int|
            0 <= k < old(out)@.len() ==> {
                &&& (#[trigger] final(out)@[k]).english == old(out)@[k].english
                &&& final(out)@[k].accesses@ == old(out)@[k].accesses@
                &&& final(out)@[k].hebrew == if *old(english_cursor) <= k < *old(english_cursor)
                    + leaves(node.tree()).len() {
                    *old(hebrew) + self::hebrew(node.tree(), k - *old(english_cursor))
                } else {
                    old(out)@[k].hebrew as int
                }
            },
    decreases node, 1nat,
{
    let ghost earlier = out@;
    let ghost before = records(out@);
    let ghost from = *english_cursor as int;
    let ghost first = *hebrew as int;
    match node {
        Node::Strand(accesses) => {
            assert(out@.len() == out.len());
            let idx = *english_cursor;
            let rank = *hebrew;
            out[idx].hebrew = rank;
            *hebrew = rank + 1;
            *english_cursor = idx + 1;
            assert(records(out@) =~= ranked(
                before,
                from,
                1,
                first,
                |k: int| self::hebrew(node.tree(), k),
            ));
        },
        Node::Series(children) => {
            hebrew_walk_series(children, hebrew, out, english_cursor);
            assert(records(out@) =~= ranked(
                before,
                from,
                count(node.tree()) as int,
                first,
                |k: int| self::hebrew(node.tree(), k),
            ));
        },
        Node::Parallel(children) => {
            hebrew_walk_parallel(children, hebrew, out, english_cursor);
            assert(records(out@) =~= ranked(
                before,
                from,
                count(node.tree()) as int,
                first,
                |k: int| self::hebrew(node.tree(), k),
            ));
        },
    }
    proof {
        let n = count(node.tree()) as int;
        assert(records(out@).len() == out@.len());
        assert forall|k: int| 0 <= k < earlier.len() implies {
            &&& (#[trigger] out@[k]).english == earlier[k].english
            &&& out@[k].accesses@ == earlier[k].accesses@
            &&& out@[k].hebrew == if from <= k < from + n {
                first + self::hebrew(node.tree(), k - from)
            } else {
                earlier[k].hebrew as int
            }
        } by {
            assert(records(out@)[k] == out@[k]@ && before[k] == earlier[k]@);
            if from <= k < from + n {
                lemma_hebrew_bound(node.tree(), k - from);
            }
        }
    }
}

/// Hebrew order over the children of a series node, left to right.
fn hebrew_walk_series(
    children: &Vec<Node>,
    hebrew: &mut usize,
    out: &mut Vec<StrandInfo>,
    english_cursor: &mut usize,
)
    requires
        *old(hebrew) + count_of(trees(children@), children@.len()) <= usize::MAX,
        *old(english_cursor) + count_of(trees(children@), children@.len()) <= old(out)@.len(),
    ensures
        *final(hebrew) == *old(hebrew) + count_of(trees(children@), children@.len()),
        *final(english_cursor) == *old(english_cursor) + count_of(
            trees(children@),
            children@.len(),
        ),
        records(final(out)@) == ranked(
            records(old(out)@),
            *old(english_cursor) as int,
            count_of(trees(children@), children@.len()) as int,
            *old(hebrew) as int,
            |k: int| hebrew_of(trees(children@), children@.len(), k, false),
        ),
    decreases children, 0nat,
{
    let ghost c = trees(children@);
    let ghost before = records(out@);
    let ghost from = *english_cursor as int;
    let ghost first = *hebrew as int;
    let mut i: usize = 0;
    assert(records(out@) =~= ranked(before, from, 0, first, |k: int| hebrew_of(c, 0, k, false)));
    while i < children.len()
        invariant
            i <= children.len(),
            c == trees(children@),
            out@.len() == before.len(),
            first + count_of(c, children@.len()) <= usize::MAX,
            from + count_of(c, children@.len()) <= out@.len(),
            *hebrew == first + count_of(c, i as nat),
            *english_cursor == from + count_of(c, i as nat),
            records(out@) == ranked(
                before,
                from,
                count_of(c, i as nat) as int,
                first,
                |k: int| hebrew_of(c, i as nat, k, false),
            ),
        decreases children.len() - i,
    {
        let ghost mid = records(out@);
        let ghost n = count_of(c, i as nat) as int;
        proof {
            lemma_count_of_monotone(c, (i + 1) as nat, children@.len());
            assert(decreases_to!(children => children@));
            assert(decreases_to!(children@ => children@[i as int]));
            assert(c[i as int] == children@[i as int].tree());
            assert(count_of(c, (i + 1) as nat) == n + count(c[i as int]));
        }
        hebrew_walk(&children[i], hebrew, out, english_cursor);
        i += 1;
        proof {
            let after = ranked(
                before,
                from,
                count_of(c, i as nat) as int,
                first,
                |k: int| hebrew_of(c, i as nat, k, false),
            );
            assert(records(out@).len() == mid.len());
            assert(records(out@) =~= after);
        }
    }
}

/// The strands of a child rank behind those of all children to its right.
proof fn lemma_hebrew_reversed(children: Seq<Tree>, n: nat, m: nat, k: int)
    requires
        m < n <= children.len(),
        count_of(children, m) <= k < count_of(children, m + 1),
    ensures
        hebrew_of(children, n, k, true) == count_of(children, n) - count_of(children, m + 1)
            + hebrew(children[m as int], k - count_of(children, m)),
    decreases n,
{
    if m + 1 < n {
        lemma_count_of_monotone(children, m + 1, (n - 1) as nat);
        lemma_hebrew_reversed(children, (n - 1) as nat, m, k);
    }
}

/// Hebrew order over the children of a parallel node, right to left.
fn hebrew_walk_parallel(
    children: &Vec<Node>,
    hebrew: &mut usize,
    out: &mut Vec<StrandInfo>,
    english_cursor: &mut usize,
)
    requires
        *old(hebrew) + count_of(trees(children@), children@.len()) <= usize::MAX,
        *old(english_cursor) + count_of(trees(children@), children@.len()) <= old(out)@.len(),
    ensures
        *final(hebrew) == *old(hebrew) + count_of(trees(children@), children@.len()),
        *final(english_cursor) == *old(english_cursor) + count_of(
            trees(children@),
            children@.len(),
        ),
        records(final(out)@) == ranked(
            records(old(out)@),
            *old(english_cursor) as int,
            count_of(trees(children@), children@.len()) as int,
            *old(hebrew) as int,
            |k: int| hebrew_of(trees(children@), children@.len(), k, true),
        ),
    decreases children, 0nat,
{
    let ghost c = trees(children@);
    let ghost len = children@.len();
    let ghost total = count_of(c, len) as int;
    let ghost before = records(out@);
    let ghost from = *english_cursor as int;
    let ghost first = *hebrew as int;
    assert(out@.len() == out.len());
    let mut base = *english_cursor;
    let mut bases: Vec<usize> = Vec::new();
    let mut i: usize = 0;
    while i < children.len()
        invariant
            i <= children.len(),
            len == children@.len(),
            c == trees(children@),
            from + count_of(c, len) <= usize::MAX,
            base == from + count_of(c, i as nat),
            bases@.len() == i,
            forall|k: int| 0 <= k < i ==> #[trigger] bases@[k] == from + count_of(c, k as nat),
        decreases children.len() - i,
    {
        proof {
            lemma_count_of_monotone(c, (i + 1) as nat, len);
            assert(count_of(c, (i + 1) as nat) == count_of(c, i as nat) + count(c[i as int]));
        }
        bases.push(base);
        base = base + count_strands(&children[i]);
        i += 1;
    }
    assert(records(out@) =~= ranked(
        before,
        from + total,
        0,
        first,
        |k: int| hebrew_of(c, len, k + total, true),
    ));
    while i > 0
        invariant
            i <= children.len(),
            len == children@.len(),
            c == trees(children@),
            total == count_of(c, len),
            out@.len() == before.len(),
            first + total <= usize::MAX,
            0 <= from,
            from + total <= out@.len(),
            bases@.len() == len,
            forall|k: int| 0 <= k < len ==> #[trigger] bases@[k] == from + count_of(c, k as nat),
            *hebrew == first + total - count_of(c, i as nat),
            records(out@) == ranked(
                before,
                from + count_of(c, i as nat),
                total - count_of(c, i as nat),
                first,
                |k: int| hebrew_of(c, len, k + count_of(c, i as nat), true),
            ),
        decreases i,
    {
        let ghost mid = records(out@);
        let ghost n = count_of(c, i as nat) as int;
        i -= 1;
        let mut cursor = bases[i];
        proof {
            lemma_count_of_monotone(c, (i + 1) as nat, len);
            assert(decreases_to!(children => children@));
            assert(decreases_to!(children@ => children@[i as int]));
            assert(c[i as int] == children@[i as int].tree());
            assert(n == count_of(c, i as nat) + count(c[i as int]));
        }
        hebrew_walk(&children[i], hebrew, out, &mut cursor);
        proof {
            let low = count_of(c, i as nat) as int;
            let after = ranked(
                before,
                from + low,
                total - low,
                first,
                |k: int| hebrew_of(c, len, k + low, true),
            );
            assert(records(out@).len() == mid.len());
            assert forall|k: int| 0 <= k < before.len() implies #[trigger] records(out@)[k]
                == after[k] by {
                if from + low <= k < from + n {
                    lemma_hebrew_reversed(c, len, i as nat, k - from);
                }
            }
            assert(records(out@) =~= after);
        }
    }
    *english_cursor = base;
    assert(records(out@) =~= ranked(
        before,
        from,
        total,
        first,
        |k: int| hebrew_of(c, len, k, true),
    ));
}

/// A reported determinacy race: two parallel strands touched `location`, at least one writing.
#[derive(Clone, Copy, Debug, PartialEq, Eq, Structural)]
pub struct Race {
    /// The contended memory location.
    pub location: Location,
    /// Strand ids (English ranks) of the two racing accesses.
    pub strand_a: usize,
    pub strand_b: usize,
    /// Whether each access was a write (at least one is always `true`).
    pub write_a: bool,
    pub write_b: bool,
}

/// The two orders disagree on two strands.
pub open spec fn disagree(a: StrandRecord, b: StrandRecord) -> bool {
    (a.english < b.english) != (a.hebrew < b.hebrew)
}

/// Two strands run logically in parallel iff the English and the Hebrew order disagree on them.
pub fn in_parallel(a: &StrandInfo, b: &StrandInfo) -> (r: bool)
    ensures
        r == disagree(a@, b@),
        r <==> (a.english < b.english && b.hebrew <= a.hebrew) || (b.english <= a.english
            && a.hebrew < b.hebrew),
{
    (a.english < b.english) != (a.hebrew < b.hebrew)
}

/// The accesses of the first `n` strands in order, each with the index of its strand.
pub open spec fn accesses_of(strands: Seq<StrandRecord>, n: nat) -> Seq<(usize, Access)>
    decreases n,
{
    if n == 0 {
        Seq::empty()
    } else {
        accesses_of(strands, (n - 1) as nat) + tagged((n - 1) as usize, strands[n - 1].accesses)
    }
}

/// The accesses of one strand, each with the index of the strand.
pub open spec fn tagged(strand: usize, accesses: Seq<Access>) -> Seq<(usize, Access)> {
    Seq::new(accesses.len(), |k: int| (strand, accesses[k]))
}

/// Who accessed a location, in order, and whether by a write.
pub open spec fn accessors(accesses: Seq<(usize, Access)>, location: Location) -> Seq<(usize, bool)>
    decreases accesses.len(),
{
    if accesses.len() == 0 {
        Seq::empty()
    } else {
        let rest = accessors(accesses.drop_last(), location);
        let (strand, access) = accesses.last();
        if access.location == location {
            rest.push((strand, access.is_write))
        } else {
            rest
        }
    }
}

/// The locations that are accessed, in the order of their first access.
pub open spec fn locations(accesses: Seq<(usize, Access)>) -> Seq<Location>
    decreases accesses.len(),
{
    if accesses.len() == 0 {
        Seq::empty()
    } else {
        let rest = locations(accesses.drop_last());
        if rest.contains(accesses.last().1.location) {
            rest
        } else {
            rest.push(accesses.last().1.location)
        }
    }
}

/// Two accesses to one location race: by different strands, one of them a write, and the strands
/// run in parallel.
pub open spec fn conflict(strands: Seq<StrandRecord>, a: (usize, bool), b: (usize, bool)) -> bool {
    &&& a.0 != b.0
    &&& a.1 || b.1
    &&& disagree(strands[a.0 as int], strands[b.0 as int])
}

/// The race of two accesses.
pub open spec fn race_of(
    location: Location,
    strands: Seq<StrandRecord>,
    a: (usize, bool),
    b: (usize, bool),
) -> Race {
    Race {
        location,
        strand_a: strands[a.0 as int].english,
        strand_b: strands[b.0 as int].english,
        write_a: a.1,
        write_b: b.1,
    }
}

/// The races of access `i` with the later accesses before the `n`-th.
pub open spec fn races_with(
    location: Location,
    who: Seq<(usize, bool)>,
    strands: Seq<StrandRecord>,
    i: int,
    n: int,
) -> Seq<Race>
    decreases n - i,
{
    if n <= i + 1 {
        Seq::empty()
    } else {
        let rest = races_with(location, who, strands, i, n - 1);
        if conflict(strands, who[i], who[n - 1]) {
            rest.push(race_of(location, strands, who[i], who[n - 1]))
        } else {
            rest
        }
    }
}

/// The races of the first `n` accesses to a location with later ones.
pub open spec fn races_at(
    location: Location,
    who: Seq<(usize, bool)>,
    strands: Seq<StrandRecord>,
    n: nat,
) -> Seq<Race>
    decreases n,
{
    if n == 0 {
        Seq::empty()
    } else {
        races_at(location, who, strands, (n - 1) as nat) + races_with(
            location,
            who,
            strands,
            n - 1,
            who.len() as int,
        )
    }
}

/// The races at the first `n` locations.
pub open spec fn races_of(strands: Seq<StrandRecord>, n: nat) -> Seq<Race>
    decreases n,
{
    if n == 0 {
        Seq::empty()
    } else {
        let all = accesses_of(strands, strands.len());
        let location = locations(all)[n - 1];
        let who = accessors(all, location);
        races_of(strands, (n - 1) as nat) + races_at(location, who, strands, who.len())
    }
}

/// All races of the strands: location by location, in the order of first access.
pub open spec fn all_races(strands: Seq<StrandRecord>) -> Seq<Race> {
    races_of(strands, locations(accesses_of(strands, strands.len())).len())
}

proof fn lemma_races_with(
    location: Location,
    who: Seq<(usize, bool)>,
    strands: Seq<StrandRecord>,
    i: int,
    n: int,
    r: Race,
)
    requires
        0 <= i < n <= who.len(),
    ensures
        races_with(location, who, strands, i, n).contains(r) <==> exists|j: int|
            i < j < n && conflict(strands, who[i], #[trigger] who[j]) && r == race_of(
                location,
                strands,
                who[i],
                who[j],
            ),
    decreases n - i,
{
    if n > i + 1 {
        let rest = races_with(location, who, strands, i, n - 1);
        let all = races_with(location, who, strands, i, n);
        lemma_races_with(location, who, strands, i, n - 1, r);
        if rest.contains(r) {
            let x = rest.index_of(r);
            assert(all[x] == r);
        }
        if all.contains(r) && !rest.contains(r) {
            let x = all.index_of(r);
            if x < rest.len() {
                assert(rest[x] == r);
            }
            assert(conflict(strands, who[i], who[n - 1]));
        }
        if conflict(strands, who[i], who[n - 1]) {
            assert(all[rest.len() as int] == race_of(location, strands, who[i], who[n - 1]));
        }
    }
}

proof fn lemma_races_at(
    location: Location,
    who: Seq<(usize, bool)>,
    strands: Seq<StrandRecord>,
    n: nat,
    r: Race,
)
    requires
        n <= who.len(),
    ensures
        races_at(location, who, strands, n).contains(r) <==> exists|i: int, j: int|
            0 <= i < n && i < j < who.len() && conflict(
                strands,
                #[trigger] who[i],
                #[trigger] who[j],
            ) && r == race_of(location, strands, who[i], who[j]),
    decreases n,
{
    if n > 0 {
        let rest = races_at(location, who, strands, (n - 1) as nat);
        let last = races_with(location, who, strands, n - 1, who.len() as int);
        let all = races_at(location, who, strands, n);
        lemma_races_at(location, who, strands, (n - 1) as nat, r);
        lemma_races_with(location, who, strands, n - 1, who.len() as int, r);
        if rest.contains(r) {
            assert(all[rest.index_of(r)] == r);
        }
        if last.contains(r) {
            assert(all[rest.len() + last.index_of(r)] == r);
        }
        if all.contains(r) && !rest.contains(r) {
            let x = all.index_of(r);
            if x < rest.len() {
                assert(rest[x] == r);
            }
            assert(last[x - rest.len()] == r);
        }
    }
}

/// Every pair of accesses to a location is checked: the reports are those of two accesses by
/// different strands, the earlier one first, at least one of them a write, where one strand comes
/// first by the one rank and not by the other.
pub proof fn every_pair_is_checked(
    location: Location,
    who: Seq<(usize, bool)>,
    strands: Seq<StrandRecord>,
    r: Race,
)
    ensures
        races_at(location, who, strands, who.len()).contains(r) <==> exists|i: int, j: int|
            ({
                let (sa, wa) = #[trigger] who[i];
                let (sb, wb) = #[trigger] who[j];
                let a = strands[sa as int];
                let b = strands[sb as int];
                &&& 0 <= i < j < who.len() && sa != sb && (wa || wb)
                &&& (a.english < b.english && b.hebrew <= a.hebrew) || (b.english <= a.english
                    && a.hebrew < b.hebrew)
                &&& r == (Race {
                    location,
                    strand_a: a.english,
                    strand_b: b.english,
                    write_a: wa,
                    write_b: wb,
                })
            }),
{
    lemma_races_at(location, who, strands, who.len(), r);
}

/// Check every pair of accesses to one location and append any parallel write-conflicts.
pub fn races_at_location(
    location: Location,
    accessors: &Vec<(usize, bool)>,
    strands: &Vec<StrandInfo>,
    races: &mut Vec<Race>,
)
    requires
        forall|k: int| 0 <= k < accessors@.len() ==> (#[trigger] accessors@[k]).0 < strands@.len(),
    ensures
        final(races)@ == old(races)@ + races_at(
            location,
            accessors@,
            records(strands@),
            accessors@.len(),
        ),
{
    let ghost before = races@;
    let ghost who = accessors@;
    let ghost all = records(strands@);
    let mut i: usize = 0;
    assert(races@ =~= before + races_at(location, who, all, 0));
    while i < accessors.len()
        invariant
            i <= accessors@.len(),
            who == accessors@,
            all == records(strands@),
            forall|k: int| 0 <= k < who.len() ==> (#[trigger] who[k]).0 < strands@.len(),
            races@ == before + races_at(location, who, all, i as nat),
        decreases accessors.len() - i,
    {
        let ghost mid = races@;
        let mut j: usize = i + 1;
        assert(races@ =~= mid + races_with(location, who, all, i as int, j as int));
        while j < accessors.len()
            invariant
                i < j <= accessors@.len(),
                who == accessors@,
                all == records(strands@),
                forall|k: int| 0 <= k < who.len() ==> (#[trigger] who[k]).0 < strands@.len(),
                races@ == mid + races_with(location, who, all, i as int, j as int),
            decreases accessors.len() - j,
        {
            let (sa, wa) = accessors[i];
            let (sb, wb) = accessors[j];
            assert(who[i as int] == (sa, wa) && who[j as int] == (sb, wb));
            if sa != sb && (wa || wb) && in_parallel(&strands[sa], &strands[sb]) {
                races.push(
                    Race {
                        location,
                        strand_a: strands[sa].english,
                        strand_b: strands[sb].english,
                        write_a: wa,
                        write_b: wb,
                    },
                );
            }
            j += 1;
            assert(races@ =~= mid + races_with(location, who, all, i as int, j as int));
        }
        i += 1;
        assert(races@ =~= before + races_at(location, who, all, i as nat));
    }
}

/// The accesses grouped by location, in the order of first access.
spec fn grouped(
    groups: Seq<(Location, Vec<(usize, bool)>)>,
    index: Map<Location, usize>,
    accesses: Seq<(usize, Access)>,
) -> bool {
    let found = locations(accesses);
    &&& groups.len() == found.len()
    &&& forall|g: int|
        0 <= g < groups.len() ==> {
            &&& (#[trigger] groups[g]).0 == found[g]
            &&& groups[g].1@ == accessors(accesses, found[g])
            &&& index.contains_key(found[g])
            &&& index[found[g]] == g
        }
    &&& forall|l: Location| #[trigger]
        index.contains_key(l) ==> index[l] < groups.len() && found[index[l] as int] == l
}

proof fn lemma_no_access(accesses: Seq<(usize, Access)>, location: Location)
    requires
        !locations(accesses).contains(location),
    ensures
        accessors(accesses, location) == Seq::<(usize, bool)>::empty(),
    decreases accesses.len(),
{
    if accesses.len() > 0 {
        let rest = locations(accesses.drop_last());
        let last = accesses.last().1.location;
        if rest.contains(location) {
            let k = choose|k: int| 0 <= k < rest.len() && rest[k] == location;
            assert(locations(accesses)[k] == location);
        }
        if last == location {
            assert(locations(accesses)[locations(accesses).len() - 1] == location
                || rest.contains(location));
        }
        lemma_no_access(accesses.drop_last(), location);
    }
}

/// One more access goes to the group of its location.
fn record_access(
    groups: &mut Vec<(Location, Vec<(usize, bool)>)>,
    index: &mut HashMap<Location, usize>,
    strand: usize,
    access: Access,
    Ghost(accesses): Ghost<Seq<(usize, Access)>>,
)
    requires
        grouped(old(groups)@, old(index)@, accesses),
    ensures
        grouped(final(groups)@, final(index)@, accesses.push((strand, access))),
{
    broadcast use vstd::std_specs::hash::group_hash_axioms;

    let ghost more = accesses.push((strand, access));
    let ghost found = locations(accesses);
    let ghost before = groups@;
    assert(more.drop_last() =~= accesses);
    let at: Option<usize> = match index.get(&access.location) {
        Some(g) => Some(*g),
        None => None,
    };
    match at {
        Some(g) => {
            assert(found[g as int] == access.location);
            groups[g].1.push((strand, access.is_write));
            proof {
                assert(locations(more) == found);
                assert forall|k: int| 0 <= k < groups@.len() implies {
                    &&& (#[trigger] groups@[k]).0 == found[k]
                    &&& groups@[k].1@ == accessors(more, found[k])
                    &&& index@.contains_key(found[k])
                    &&& index@[found[k]] == k
                } by {
                    assert(before[k].0 == found[k]);
                }
            }
        },
        None => {
            let fresh = groups.len();
            let mut who: Vec<(usize, bool)> = Vec::new();
            who.push((strand, access.is_write));
            groups.push((access.location, who));
            index.insert(access.location, fresh);
            proof {
                if found.contains(access.location) {
                    let k = choose|k: int| 0 <= k < found.len() && found[k] == access.location;
                    assert(before[k].0 == found[k]);
                }
                lemma_no_access(accesses, access.location);
                assert(locations(more) == found.push(access.location));
                assert(who@ =~= accessors(more, access.location));
                assert forall|k: int| 0 <= k < groups@.len() implies {
                    &&& (#[trigger] groups@[k]).0 == locations(more)[k]
                    &&& groups@[k].1@ == accessors(more, locations(more)[k])
                    &&& index@.contains_key(locations(more)[k])
                    &&& index@[locations(more)[k]] == k
                } by {
                    if k < before.len() {
                        assert(before[k].0 == found[k]);
                        assert(found.contains(found[k]));
                    }
                }
            }
        },
    }
}

proof fn lemma_accessors_are_strands(accesses: Seq<(usize, Access)>, location: Location, n: int)
    requires
        forall|k: int| 0 <= k < accesses.len() ==> (#[trigger] accesses[k]).0 < n,
    ensures
        forall|k: int|
            0 <= k < accessors(accesses, location).len() ==> (#[trigger] accessors(
                accesses,
                location,
            )[k]).0 < n,
    decreases accesses.len(),
{
    if accesses.len() > 0 {
        let rest = accesses.drop_last();
        assert forall|k: int| 0 <= k < rest.len() implies (#[trigger] rest[k]).0 < n by {
            assert(accesses[k].0 < n);
        }
        lemma_accessors_are_strands(rest, location, n);
        assert(accesses[accesses.len() - 1].0 < n);
        let before = accessors(rest, location);
        assert forall|k: int| 0 <= k < accessors(accesses, location).len() implies (
        #[trigger] accessors(accesses, location)[k]).0 < n by {
            if k < before.len() {
                assert(before[k].0 < n);
            }
        }
    }
}

proof fn lemma_accesses_are_tagged(strands: Seq<StrandRecord>, n: nat)
    requires
        n <= strands.len() <= usize::MAX,
    ensures
        forall|k: int|
            0 <= k < accesses_of(strands, n).len() ==> (#[trigger] accesses_of(strands, n)[k]).0
                < n,
    decreases n,
{
    if n > 0 {
        lemma_accesses_are_tagged(strands, (n - 1) as nat);
        let rest = accesses_of(strands, (n - 1) as nat);
        assert forall|k: int| 0 <= k < accesses_of(strands, n).len() implies (
        #[trigger] accesses_of(strands, n)[k]).0 < n by {
            if k < rest.len() {
                assert(rest[k].0 < n);
            }
        }
    }
}

/// Find all parallel write-conflicts: for each location, examine every pair of accesses to it.
pub fn find_races(strands: &Vec<StrandInfo>) -> (races: Vec<Race>)
    ensures
        races@ == all_races(records(strands@)),
{
    let ghost all = records(strands@);
    let mut groups: Vec<(Location, Vec<(usize, bool)>)> = Vec::new();
    let mut index: HashMap<Location, usize> = HashMap::new();
    let ghost mut seen: Seq<(usize, Access)> = Seq::empty();
    let mut si: usize = 0;
    while si < strands.len()
        invariant
            si <= strands@.len(),
            all == records(strands@),
            seen == accesses_of(all, si as nat),
            grouped(groups@, index@, seen),
        decreases strands.len() - si,
    {
        let ghost before = seen;
        let ghost own = strands@[si as int].accesses@;
        let mut k: usize = 0;
        assert(seen =~= before + tagged(si, own.take(0)));
        while k < strands[si].accesses.len()
            invariant
                si < strands@.len(),
                own == strands@[si as int].accesses@,
                k <= own.len(),
                seen == before + tagged(si, own.take(k as int)),
                grouped(groups@, index@, seen),
            decreases own.len() - k,
        {
            let access = strands[si].accesses[k];
            record_access(&mut groups, &mut index, si, access, Ghost(seen));
            proof {
                seen = seen.push((si, access));
            }
            k += 1;
            assert(seen =~= before + tagged(si, own.take(k as int)));
        }
        proof {
            assert(own.take(k as int) =~= own);
            assert(all[si as int].accesses == own);
        }
        si += 1;
    }
    let mut races: Vec<Race> = Vec::new();
    let mut g: usize = 0;
    proof {
        assert(strands@.len() == strands.len());
        lemma_accesses_are_tagged(all, all.len());
    }
    while g < groups.len()
        invariant
            g <= groups@.len(),
            all == records(strands@),
            seen == accesses_of(all, all.len()),
            grouped(groups@, index@, seen),
            forall|k: int| 0 <= k < seen.len() ==> (#[trigger] seen[k]).0 < all.len(),
            races@ == races_of(all, g as nat),
        decreases groups.len() - g,
    {
        proof {
            assert(groups@[g as int].0 == locations(seen)[g as int]);
            lemma_accessors_are_strands(seen, locations(seen)[g as int], all.len() as int);
        }
        races_at_location(groups[g].0, &groups[g].1, strands, &mut races);
        g += 1;
    }
    races
}

/// Builder for one strand's accesses, handed to the closure passed to [`Dag::strand`].
pub struct StrandBuilder {
    accesses: Vec<Access>,
}

impl View for StrandBuilder {
    type V = Seq<Access>;

    closed spec fn view(&self) -> Seq<Access> {
        self.accesses@
    }
}

impl StrandBuilder {
    /// Record a read of `location` by this strand.
    pub fn read(&mut self, location: Location)
        ensures
            final(self)@ == old(self)@.push((Access { location, is_write: false })),
    {
        self.accesses.push(Access { location, is_write: false });
    }

    /// Record a write of `location` by this strand.
    pub fn write(&mut self, location: Location)
        ensures
            final(self)@ == old(self)@.push((Access { location, is_write: true })),
    {
        self.accesses.push(Access { location, is_write: true });
    }
}

/// A builder for a series-parallel computation. Use [`Dag::series`] and [`Dag::parallel`] to nest
/// composition, and [`Dag::strand`] for leaves that touch memory; then call
/// [`Dag::detect_races`].
pub struct Dag {
    children: Vec<Node>,
}

impl View for Dag {
    type V = Seq<Tree>;

    /// The children of the root, which run in series.
    closed spec fn view(&self) -> Seq<Tree> {
        trees(self.children@)
    }
}

/// What the analysis knows of each strand of a computation.
pub open spec fn analysed(children: Seq<Tree>) -> Seq<StrandRecord> {
    let root = Tree::Series(children);
    Seq::new(
        count(root),
        |k: int|
            StrandRecord {
                english: k as usize,
                hebrew: hebrew(root, k) as usize,
                accesses: leaves(root)[k],
            },
    )
}

impl Dag {
    /// Start an empty computation.
    pub fn new() -> (d: Self)
        ensures
            d@ == Seq::<Tree>::empty(),
    {
        let d = Dag { children: Vec::new() };
        assert(d@ =~= Seq::<Tree>::empty());
        d
    }

    /// Add a strand, recording its memory accesses via the builder closure.
    pub fn strand<F: FnOnce(&mut StrandBuilder)>(&mut self, build: F)
        requires
            forall|b: &mut StrandBuilder| #[trigger] call_requires(build, (b,)),
        ensures
            exists|b: &mut StrandBuilder|
                (*b)@ == Seq::<Access>::empty() && #[trigger] call_ensures(build, (b,), ()) && final(self)@ == old(self)@.push(Tree::Strand((*final(b))@)),
    {
        let ghost before = self.children@;
        let mut sb = StrandBuilder { accesses: Vec::new() };
        assert(sb@ =~= Seq::<Access>::empty());
        build(&mut sb);
        self.children.push(Node::Strand(sb.accesses));
        assert(trees(self.children@) =~= trees(before).push(Tree::Strand(sb@)));
    }

    /// Add a series composition: everything added inside `build` runs in sequence.
    pub fn series<F: FnOnce(&mut Dag)>(&mut self, build: F)
        requires
            forall|d: &mut Dag| #[trigger] call_requires(build, (d,)),
        ensures
            exists|d: &mut Dag|
                (*d)@ == Seq::<Tree>::empty() && #[trigger] call_ensures(build, (d,), ()) && final(self)@ == old(self)@.push(Tree::Series((*final(d))@)),
    {
        let ghost before = self.children@;
        let mut inner = Dag::new();
        build(&mut inner);
        self.children.push(Node::Series(inner.children));
        assert(trees(self.children@) =~= trees(before).push(Tree::Series(inner@)));
    }

    /// Add a parallel composition (a spawn): everything added inside `build` runs logically in
    /// parallel with the others.
    pub fn parallel<F: FnOnce(&mut Dag)>(&mut self, build: F)
        requires
            forall|d: &mut Dag| #[trigger] call_requires(build, (d,)),
        ensures
            exists|d: &mut Dag|
                (*d)@ == Seq::<Tree>::empty() && #[trigger] call_ensures(build, (d,), ()) && final(self)@ == old(self)@.push(Tree::Parallel((*final(d))@)),
    {
        let ghost before = self.children@;
        let mut inner = Dag::new();
        build(&mut inner);
        self.children.push(Node::Parallel(inner.children));
        assert(trees(self.children@) =~= trees(before).push(Tree::Parallel(inner@)));
    }

    /// Analyze the computation and return every determinacy race: location by location, in the
    /// order of first access. With an empty result the program is free of determinacy races.
    pub fn detect_races(&self) -> (races: Vec<Race>)
        requires
            count(Tree::Series(self@)) <= usize::MAX,
        ensures
            races@ == all_races(analysed(self@)),
    {
        let ghost root = Tree::Series(self@);
        let ghost len = self@.len();
        let mut strands: Vec<StrandInfo> = Vec::new();
        let mut english: usize = 0;
        assign_english_all(&self.children, &mut english, &mut strands);
        let mut hebrew: usize = 0;
        let mut cursor: usize = 0;
        hebrew_walk_series(&self.children, &mut hebrew, &mut strands, &mut cursor);
        proof {
            assert(records(Seq::<StrandInfo>::empty()) + english_records(leaves(root), 0)
                =~= english_records(leaves(root), 0));
            assert(records(strands@) =~= analysed(self@)) by {
                assert forall|k: int| 0 <= k < count(root) implies records(strands@)[k]
                    == #[trigger] analysed(self@)[k] by {
                    assert(hebrew_of(self@, len, k, false) == self::hebrew(root, k));
                }
            }
        }
        find_races(&strands)
    }
}

impl Default for Dag {
    fn default() -> (d: Self)
        ensures
            d@ == Seq::<Tree>::empty(),
    {
        Self::new()
    }
}

/// A determinacy race of a computation: two strands that run logically in parallel both access a
/// location, at least one of them writing.
pub open spec fn is_race(children: Seq<Tree>, r: Race) -> bool {
    let root = Tree::Series(children);
    &&& r.strand_a < r.strand_b < count(root)
    &&& parallel(root, r.strand_a as int, r.strand_b as int)
    &&& r.write_a || r.write_b
    &&& leaves(root)[r.strand_a as int].contains(
        Access { location: r.location, is_write: r.write_a },
    )
    &&& leaves(root)[r.strand_b as int].contains(
        Access { location: r.location, is_write: r.write_b },
    )
}

/// How often `x` occurs.
pub open spec fn tally<A>(s: Seq<A>, x: A) -> nat
    decreases s.len(),
{
    if s.len() == 0 {
        0
    } else {
        tally(s.drop_last(), x) + if s.last() == x {
            1nat
        } else {
            0
        }
    }
}

proof fn lemma_tally_push<A>(s: Seq<A>, v: A, x: A)
    ensures
        tally(s.push(v), x) == tally(s, x) + if v == x {
            1nat
        } else {
            0
        },
{
    assert(s.push(v).drop_last() =~= s);
}

proof fn lemma_tally_append<A>(a: Seq<A>, b: Seq<A>, x: A)
    ensures
        tally(a + b, x) == tally(a, x) + tally(b, x),
    decreases b.len(),
{
    if b.len() == 0 {
        assert(a + b =~= a);
    } else {
        lemma_tally_append(a, b.drop_last(), x);
        assert((a + b).drop_last() =~= a + b.drop_last());
    }
}

proof fn lemma_tally_none<A>(s: Seq<A>, x: A)
    requires
        forall|i: int| 0 <= i < s.len() ==> #[trigger] s[i] != x,
    ensures
        tally(s, x) == 0,
    decreases s.len(),
{
    if s.len() > 0 {
        assert(s[s.len() - 1] != x);
        lemma_tally_none(s.drop_last(), x);
    }
}

proof fn lemma_tally_contains<A>(s: Seq<A>, x: A)
    ensures
        tally(s, x) > 0 <==> s.contains(x),
        tally(s, x) == s.to_multiset().count(x),
    decreases s.len(),
{
    broadcast use vstd::seq_lib::group_to_multiset_ensures;

    if s.len() > 0 {
        lemma_tally_contains(s.drop_last(), x);
        assert(s.drop_last().push(s.last()) =~= s);
    }
}

/// The strands of a record are numbered in English order.
spec fn numbered(strands: Seq<StrandRecord>) -> bool {
    &&& strands.len() <= usize::MAX
    &&& forall|k: int| 0 <= k < strands.len() ==> (#[trigger] strands[k]).english == k
}

/// The accessors of a location are strands, in English order.
spec fn in_order(who: Seq<(usize, bool)>, n: int) -> bool {
    &&& forall|k: int| 0 <= k < who.len() ==> (#[trigger] who[k]).0 < n
    &&& forall|i: int, j: int|
        0 <= i <= j < who.len() ==> (#[trigger] who[i]).0 <= (#[trigger] who[j]).0
}

/// What `r` says of its two accesses makes them a race at `location`.
spec fn fits(location: Location, strands: Seq<StrandRecord>, r: Race) -> bool {
    r.location == location && conflict(
        strands,
        (r.strand_a, r.write_a),
        (r.strand_b, r.write_b),
    )
}

proof fn lemma_tally_with(
    location: Location,
    who: Seq<(usize, bool)>,
    strands: Seq<StrandRecord>,
    i: int,
    n: int,
    r: Race,
)
    requires
        numbered(strands),
        in_order(who, strands.len() as int),
        0 <= i < n <= who.len(),
    ensures
        tally(races_with(location, who, strands, i, n), r) == if fits(location, strands, r)
            && who[i] == (r.strand_a, r.write_a) {
            tally(who.take(n), (r.strand_b, r.write_b)) - tally(
                who.take(i + 1),
                (r.strand_b, r.write_b),
            )
        } else {
            0
        },
    decreases n - i,
{
    if n > i + 1 {
        let rest = races_with(location, who, strands, i, n - 1);
        lemma_tally_with(location, who, strands, i, n - 1, r);
        assert(who.take(n).drop_last() =~= who.take(n - 1));
        assert(who[i].0 < strands.len() && who[n - 1].0 < strands.len());
        assert(strands[who[i].0 as int].english == who[i].0);
        assert(strands[who[n - 1].0 as int].english == who[n - 1].0);
        let new = race_of(location, strands, who[i], who[n - 1]);
        lemma_tally_push(rest, new, r);
        assert(new == r <==> location == r.location && who[i] == (r.strand_a, r.write_a)
            && who[n - 1] == (r.strand_b, r.write_b));
    }
}

proof fn lemma_tally_take<A>(s: Seq<A>, n: int, x: A)
    requires
        0 <= n <= s.len(),
        forall|i: int| n <= i < s.len() ==> #[trigger] s[i] != x,
    ensures
        tally(s.take(n), x) == tally(s, x),
{
    assert forall|i: int| 0 <= i < s.skip(n).len() implies #[trigger] s.skip(n)[i] != x by {
        assert(s[n + i] != x);
    }
    lemma_tally_none(s.skip(n), x);
    lemma_tally_append(s.take(n), s.skip(n), x);
    assert(s.take(n) + s.skip(n) =~= s);
}

proof fn lemma_tally_at(
    location: Location,
    who: Seq<(usize, bool)>,
    strands: Seq<StrandRecord>,
    n: nat,
    r: Race,
)
    requires
        numbered(strands),
        in_order(who, strands.len() as int),
        n <= who.len(),
    ensures
        tally(races_at(location, who, strands, n), r) == if fits(location, strands, r)
            && r.strand_a < r.strand_b {
            tally(who.take(n as int), (r.strand_a, r.write_a)) * tally(
                who,
                (r.strand_b, r.write_b),
            )
        } else {
            0
        },
    decreases n,
{
    let x = (r.strand_a, r.write_a);
    let y = (r.strand_b, r.write_b);
    let after = tally(who, y);
    if n == 0 {
        assert(tally(who.take(0), x) * after == 0) by (nonlinear_arith)
            requires
                tally(who.take(0), x) == 0,
        ;
    } else {
        let i = n - 1;
        let before = tally(who.take(i), x);
        lemma_tally_at(location, who, strands, i as nat, r);
        lemma_tally_with(location, who, strands, i, who.len() as int, r);
        lemma_tally_append(
            races_at(location, who, strands, i as nat),
            races_with(location, who, strands, i, who.len() as int),
            r,
        );
        assert(who.take(who.len() as int) =~= who);
        assert(who.take(n as int).drop_last() =~= who.take(i));
        if fits(location, strands, r) && who[i] == x {
            if r.strand_a < r.strand_b {
                assert forall|k: int| 0 <= k < who.take(i + 1).len() implies #[trigger] who.take(
                    i + 1,
                )[k] != y by {
                    assert(who[k].0 <= who[i].0);
                }
                lemma_tally_none(who.take(i + 1), y);
            } else {
                assert forall|k: int| i + 1 <= k < who.len() implies #[trigger] who[k] != y by {
                    assert(who[i].0 <= who[k].0);
                }
                lemma_tally_take(who, i + 1, y);
            }
        }
        assert((before + 1) * after == before * after + after) by (nonlinear_arith);
    }
}

proof fn lemma_tally_accessors(accesses: Seq<(usize, Access)>, location: Location, x: (usize, bool))
    ensures
        tally(accessors(accesses, location), x) == tally(
            accesses,
            (x.0, Access { location, is_write: x.1 }),
        ),
    decreases accesses.len(),
{
    if accesses.len() > 0 {
        let (strand, access) = accesses.last();
        lemma_tally_accessors(accesses.drop_last(), location, x);
        lemma_tally_push(
            accessors(accesses.drop_last(), location),
            (strand, access.is_write),
            x,
        );
        assert(accesses.last() == (x.0, Access { location, is_write: x.1 }) <==> strand == x.0
            && access.location == location && access.is_write == x.1);
    }
}

proof fn lemma_tally_tagged(strand: usize, own: Seq<Access>, at: usize, access: Access)
    ensures
        tally(tagged(strand, own), (at, access)) == if strand == at {
            tally(own, access)
        } else {
            0
        },
    decreases own.len(),
{
    let new = tagged(strand, own);
    if own.len() > 0 {
        lemma_tally_tagged(strand, own.drop_last(), at, access);
        assert(new.drop_last() =~= tagged(strand, own.drop_last()));
        assert(new.last() == (strand, own.last()));
    }
}

proof fn lemma_tally_accesses(strands: Seq<StrandRecord>, n: nat, strand: usize, access: Access)
    requires
        n <= strands.len() <= usize::MAX,
    ensures
        tally(accesses_of(strands, n), (strand, access)) == if strand < n {
            tally(strands[strand as int].accesses, access)
        } else {
            0
        },
    decreases n,
{
    if n > 0 {
        let own = strands[n - 1].accesses;
        let new = tagged((n - 1) as usize, own);
        lemma_tally_accesses(strands, (n - 1) as nat, strand, access);
        lemma_tally_append(accesses_of(strands, (n - 1) as nat), new, (strand, access));
        lemma_tally_tagged((n - 1) as usize, own, strand, access);
    }
}

proof fn lemma_accesses_in_order(strands: Seq<StrandRecord>, n: nat)
    requires
        n <= strands.len() <= usize::MAX,
    ensures
        forall|i: int, j: int|
            0 <= i <= j < accesses_of(strands, n).len() ==> (#[trigger] accesses_of(
                strands,
                n,
            )[i]).0 <= (#[trigger] accesses_of(strands, n)[j]).0,
    decreases n,
{
    if n > 0 {
        lemma_accesses_in_order(strands, (n - 1) as nat);
        lemma_accesses_are_tagged(strands, (n - 1) as nat);
        let rest = accesses_of(strands, (n - 1) as nat);
        let all = accesses_of(strands, n);
        assert forall|i: int, j: int| 0 <= i <= j < all.len() implies (#[trigger] all[i]).0 <= (
        #[trigger] all[j]).0 by {
            if i < rest.len() {
                assert(all[i] == rest[i]);
            }
            if j < rest.len() {
                assert(all[j] == rest[j]);
            }
        }
    }
}

proof fn lemma_accessors_in_order(accesses: Seq<(usize, Access)>, location: Location)
    requires
        forall|i: int, j: int|
            0 <= i <= j < accesses.len() ==> (#[trigger] accesses[i]).0 <= (
            #[trigger] accesses[j]).0,
    ensures
        forall|i: int, j: int|
            0 <= i <= j < accessors(accesses, location).len() ==> (#[trigger] accessors(
                accesses,
                location,
            )[i]).0 <= (#[trigger] accessors(accesses, location)[j]).0,
        accessors(accesses, location).len() > 0 ==> accessors(accesses, location).last().0
            <= accesses.last().0,
    decreases accesses.len(),
{
    if accesses.len() > 0 {
        let rest = accesses.drop_last();
        let before = accessors(rest, location);
        let who = accessors(accesses, location);
        lemma_accessors_in_order(rest, location);
        assert forall|i: int, j: int| 0 <= i <= j < who.len() implies (#[trigger] who[i]).0 <= (
        #[trigger] who[j]).0 by {
            if j < before.len() {
                assert(before[i].0 <= before[j].0);
            } else if i < before.len() {
                assert(before[i].0 <= before[before.len() - 1].0);
                assert(accesses[rest.len() - 1].0 <= accesses[accesses.len() - 1].0);
            }
        }
        if before.len() > 0 {
            assert(rest.len() > 0);
            assert(accesses[rest.len() - 1].0 <= accesses[accesses.len() - 1].0);
        }
    }
}

/// Each location is listed once, and every location that is accessed is listed.
proof fn lemma_locations(accesses: Seq<(usize, Access)>)
    ensures
        locations(accesses).no_duplicates(),
        forall|i: int|
            0 <= i < accesses.len() ==> locations(accesses).contains(
                (#[trigger] accesses[i]).1.location,
            ),
    decreases accesses.len(),
{
    if accesses.len() > 0 {
        let rest = accesses.drop_last();
        let found = locations(rest);
        let all = locations(accesses);
        lemma_locations(rest);
        assert forall|g: int| 0 <= g < found.len() implies all.contains(#[trigger] found[g]) by {
            assert(all[g] == found[g]);
        }
        assert(found.contains(accesses.last().1.location) || all[found.len() as int]
            == accesses.last().1.location);
        assert forall|i: int| 0 <= i < accesses.len() implies all.contains(
            (#[trigger] accesses[i]).1.location,
        ) by {
            if i < rest.len() {
                assert(found.contains(rest[i].1.location));
                let g = found.index_of(rest[i].1.location);
                assert(all.contains(found[g]));
            } else if found.contains(accesses[i].1.location) {
                let g = found.index_of(accesses[i].1.location);
                assert(all.contains(found[g]));
            }
        }
        if !found.contains(accesses.last().1.location) {
            assert forall|g: int| 0 <= g < found.len() implies #[trigger] found[g]
                != accesses.last().1.location by {
                assert(found.contains(found[g]));
            }
        }
    }
}

/// The races at the location of `r`.
spec fn races_there(strands: Seq<StrandRecord>, r: Race) -> Seq<Race> {
    let who = accessors(accesses_of(strands, strands.len()), r.location);
    races_at(r.location, who, strands, who.len())
}

proof fn lemma_tally_of(strands: Seq<StrandRecord>, n: nat, r: Race)
    requires
        numbered(strands),
        n <= locations(accesses_of(strands, strands.len())).len(),
    ensures
        tally(races_of(strands, n), r) == if locations(
            accesses_of(strands, strands.len()),
        ).take(n as int).contains(r.location) {
            tally(races_there(strands, r), r)
        } else {
            0
        },
    decreases n,
{
    let all = accesses_of(strands, strands.len());
    let found = locations(all);
    if n > 0 {
        let location = found[n - 1];
        let who = accessors(all, location);
        let before = found.take(n - 1);
        let upto = found.take(n as int);
        lemma_tally_of(strands, (n - 1) as nat, r);
        lemma_tally_append(
            races_of(strands, (n - 1) as nat),
            races_at(location, who, strands, who.len()),
            r,
        );
        lemma_locations(all);
        assert(upto[n - 1] == location);
        if before.contains(r.location) {
            let g = before.index_of(r.location);
            assert(upto[g] == r.location);
            assert(found[g] != found[n - 1]);
        }
        if upto.contains(r.location) && !before.contains(r.location) {
            let g = upto.index_of(r.location);
            if g < n - 1 {
                assert(before[g] == r.location);
            }
        }
        if location != r.location {
            lemma_accesses_in_order(strands, strands.len());
            lemma_accesses_are_tagged(strands, strands.len());
            lemma_accessors_in_order(all, location);
            lemma_accessors_are_strands(all, location, strands.len() as int);
            lemma_tally_at(location, who, strands, who.len(), r);
        }
    }
}

proof fn lemma_races_of(strands: Seq<StrandRecord>, n: nat, r: Race)
    requires
        n <= locations(accesses_of(strands, strands.len())).len(),
    ensures
        races_of(strands, n).contains(r) <==> locations(
            accesses_of(strands, strands.len()),
        ).take(n as int).contains(r.location) && races_there(strands, r).contains(r),
    decreases n,
{
    let all = accesses_of(strands, strands.len());
    let found = locations(all);
    let upto = found.take(n as int);
    if n == 0 {
        assert(upto.len() == 0);
    } else {
        let rest = races_of(strands, (n - 1) as nat);
        let location = found[n - 1];
        let who = accessors(all, location);
        let last = races_at(location, who, strands, who.len());
        let before = found.take(n - 1);
        lemma_races_of(strands, (n - 1) as nat, r);
        lemma_races_at(location, who, strands, who.len(), r);
        assert(upto[n - 1] == location);
        if before.contains(r.location) {
            assert(upto[before.index_of(r.location)] == r.location);
        }
        if upto.contains(r.location) && !before.contains(r.location) {
            let g = upto.index_of(r.location);
            if g < n - 1 {
                assert(before[g] == r.location);
            }
        }
        let both = races_of(strands, n);
        if rest.contains(r) {
            assert(both[rest.index_of(r)] == r);
        }
        if last.contains(r) {
            assert(both[rest.len() + last.index_of(r)] == r);
        }
        if both.contains(r) && !rest.contains(r) {
            let x = both.index_of(r);
            if x < rest.len() {
                assert(rest[x] == r);
            }
            assert(last[x - rest.len()] == r);
        }
    }
}

proof fn lemma_accessor_is_access(strands: Seq<StrandRecord>, location: Location, x: (usize, bool))
    requires
        strands.len() <= usize::MAX,
    ensures
        accessors(accesses_of(strands, strands.len()), location).contains(x) <==> x.0
            < strands.len() && strands[x.0 as int].accesses.contains(
            Access { location, is_write: x.1 },
        ),
        accesses_of(strands, strands.len()).contains((x.0, Access { location, is_write: x.1 }))
            <==> x.0 < strands.len() && strands[x.0 as int].accesses.contains(
            Access { location, is_write: x.1 },
        ),
{
    let all = accesses_of(strands, strands.len());
    let access = Access { location, is_write: x.1 };
    lemma_tally_accessors(all, location, x);
    lemma_tally_accesses(strands, strands.len(), x.0, access);
    lemma_tally_contains(accessors(all, location), x);
    lemma_tally_contains(all, (x.0, access));
    if x.0 < strands.len() {
        lemma_tally_contains(strands[x.0 as int].accesses, access);
    }
}

/// Every location is checked: the reports on strands are those of an access of one and an access of
/// a later one to the same location, at least one of them a write, where one strand comes first by
/// the one rank and not by the other.
pub proof fn every_location_is_checked(strands: Seq<StrandRecord>, r: Race)
    requires
        strands.len() <= usize::MAX,
    ensures
        all_races(strands).contains(r) <==> exists|x: int, y: int|
            ({
                let a = #[trigger] strands[x];
                let b = #[trigger] strands[y];
                &&& 0 <= x < y < strands.len()
                &&& a.accesses.contains(Access { location: r.location, is_write: r.write_a })
                &&& b.accesses.contains(Access { location: r.location, is_write: r.write_b })
                &&& r.write_a || r.write_b
                &&& (a.english < b.english && b.hebrew <= a.hebrew) || (b.english <= a.english
                    && a.hebrew < b.hebrew)
                &&& r.strand_a == a.english && r.strand_b == b.english
            }),
{
    let all = accesses_of(strands, strands.len());
    let found = locations(all);
    let who = accessors(all, r.location);
    lemma_races_of(strands, found.len(), r);
    assert(found.take(found.len() as int) =~= found);
    lemma_races_at(r.location, who, strands, who.len(), r);
    lemma_accesses_in_order(strands, strands.len());
    lemma_accesses_are_tagged(strands, strands.len());
    lemma_accessors_in_order(all, r.location);
    lemma_accessors_are_strands(all, r.location, strands.len() as int);
    lemma_locations(all);
    if all_races(strands).contains(r) {
        let (i, j) = choose|i: int, j: int|
            0 <= i < who.len() && i < j < who.len() && conflict(
                strands,
                #[trigger] who[i],
                #[trigger] who[j],
            ) && r == race_of(r.location, strands, who[i], who[j]);
        assert(who.contains(who[i]) && who.contains(who[j]));
        lemma_accessor_is_access(strands, r.location, who[i]);
        lemma_accessor_is_access(strands, r.location, who[j]);
        assert(who[i].0 <= who[j].0);
        let x = who[i].0 as int;
        let y = who[j].0 as int;
        assert(strands[x].english == r.strand_a && strands[y].english == r.strand_b);
    }
    if exists|x: int, y: int|
        ({
            let a = #[trigger] strands[x];
            let b = #[trigger] strands[y];
            &&& 0 <= x < y < strands.len()
            &&& a.accesses.contains(Access { location: r.location, is_write: r.write_a })
            &&& b.accesses.contains(Access { location: r.location, is_write: r.write_b })
            &&& r.write_a || r.write_b
            &&& (a.english < b.english && b.hebrew <= a.hebrew) || (b.english <= a.english
                && a.hebrew < b.hebrew)
            &&& r.strand_a == a.english && r.strand_b == b.english
        }) {
        let (x, y) = choose|x: int, y: int|
            ({
                let a = #[trigger] strands[x];
                let b = #[trigger] strands[y];
                &&& 0 <= x < y < strands.len()
                &&& a.accesses.contains(Access { location: r.location, is_write: r.write_a })
                &&& b.accesses.contains(Access { location: r.location, is_write: r.write_b })
                &&& r.write_a || r.write_b
                &&& (a.english < b.english && b.hebrew <= a.hebrew) || (b.english <= a.english
                    && a.hebrew < b.hebrew)
                &&& r.strand_a == a.english && r.strand_b == b.english
            });
        let ax = (x as usize, r.write_a);
        let by = (y as usize, r.write_b);
        lemma_accessor_is_access(strands, r.location, ax);
        lemma_accessor_is_access(strands, r.location, by);
        let i = who.index_of(ax);
        let j = who.index_of(by);
        assert(who[i] == ax && who[j] == by);
        if j <= i {
            assert(who[j].0 <= who[i].0);
        }
        let m = all.index_of((ax.0, Access { location: r.location, is_write: ax.1 }));
        assert(found.contains(all[m].1.location));
        assert(conflict(strands, who[i], who[j]));
    }
}

/// Number of pairs of accesses, by two strands that run logically in parallel and one of them a
/// write, of which `r` is the report.
pub open spec fn pairs(children: Seq<Tree>, r: Race) -> nat {
    let root = Tree::Series(children);
    let access_a = Access { location: r.location, is_write: r.write_a };
    let access_b = Access { location: r.location, is_write: r.write_b };
    if r.strand_a < r.strand_b < count(root) && parallel(
        root,
        r.strand_a as int,
        r.strand_b as int,
    ) && (r.write_a || r.write_b) {
        tally(leaves(root)[r.strand_a as int], access_a) * tally(
            leaves(root)[r.strand_b as int],
            access_b,
        )
    } else {
        0
    }
}

/// One report per pair of accesses: a race is reported as often as two accesses make it up.
pub proof fn one_report_per_pair(children: Seq<Tree>, r: Race)
    requires
        count(Tree::Series(children)) <= usize::MAX,
    ensures
        tally(all_races(analysed(children)), r) == pairs(children, r),
{
    let root = Tree::Series(children);
    let strands = analysed(children);
    let all = accesses_of(strands, strands.len());
    let found = locations(all);
    let who = accessors(all, r.location);
    let a = r.strand_a;
    let b = r.strand_b;
    let access_a = Access { location: r.location, is_write: r.write_a };
    let access_b = Access { location: r.location, is_write: r.write_b };
    lemma_tally_of(strands, found.len(), r);
    assert(found.take(found.len() as int) =~= found);
    lemma_accesses_in_order(strands, strands.len());
    lemma_accesses_are_tagged(strands, strands.len());
    lemma_accessors_in_order(all, r.location);
    lemma_accessors_are_strands(all, r.location, strands.len() as int);
    lemma_tally_at(r.location, who, strands, who.len(), r);
    assert(who.take(who.len() as int) =~= who);
    lemma_tally_accessors(all, r.location, (a, r.write_a));
    lemma_tally_accessors(all, r.location, (b, r.write_b));
    lemma_tally_accesses(strands, strands.len(), a, access_a);
    lemma_tally_accesses(strands, strands.len(), b, access_b);
    if a < count(root) && b < count(root) && a != b {
        parallel_iff_orders_disagree(root, a as int, b as int);
        parallel_iff_orders_disagree(root, b as int, a as int);
    }
    let many_a = tally(who, (a, r.write_a));
    let many_b = tally(who, (b, r.write_b));
    if many_a == 0 || many_b == 0 {
        assert(many_a * many_b == 0) by (nonlinear_arith)
            requires
                many_a == 0 || many_b == 0,
        ;
    }
    lemma_locations(all);
    if !found.contains(r.location) {
        assert forall|i: int| 0 <= i < all.len() implies #[trigger] all[i] != (a, access_a) by {
            assert(found.contains(all[i].1.location));
        }
        lemma_tally_none(all, (a, access_a));
    }
}

/// What is reported are the determinacy races, all of them and nothing else.
pub proof fn races_are_exact(children: Seq<Tree>, r: Race)
    requires
        count(Tree::Series(children)) <= usize::MAX,
    ensures
        all_races(analysed(children)).contains(r) <==> is_race(children, r),
{
    let root = Tree::Series(children);
    one_report_per_pair(children, r);
    lemma_tally_contains(all_races(analysed(children)), r);
    if r.strand_a < r.strand_b < count(root) {
        let by_a = leaves(root)[r.strand_a as int];
        let by_b = leaves(root)[r.strand_b as int];
        let access_a = Access { location: r.location, is_write: r.write_a };
        let access_b = Access { location: r.location, is_write: r.write_b };
        lemma_tally_contains(by_a, access_a);
        lemma_tally_contains(by_b, access_b);
        let many_a = tally(by_a, access_a);
        let many_b = tally(by_b, access_b);
        assert(many_a * many_b > 0 <==> many_a > 0 && many_b > 0) by (nonlinear_arith);
    }
}

proof fn lemma_at_joined(t: Tree, x: Seq<int>, y: Seq<int>)
    requires
        at(t, x) is Some,
    ensures
        at(t, x + y) == at(at(t, x)->0, y),
    decreases x.len(),
{
    if x.len() == 0 {
        assert(x + y =~= y);
    } else {
        lemma_at_joined(children_of(t)[x[0]], x.drop_first(), y);
        assert((x + y).drop_first() =~= x.drop_first() + y);
    }
}

/// Every conflict is reported: where two strands stand below different children of a parallel node,
/// every access of the one to a location and every access of the other to it, one of them a write,
/// make up one report, which gives the places of the two strands.
pub proof fn every_conflict_is_reported(
    children: Seq<Tree>,
    fork: Seq<int>,
    branches: Seq<Tree>,
    i: int,
    j: int,
    p: Seq<int>,
    q: Seq<int>,
    a: Seq<Access>,
    b: Seq<Access>,
    r: Race,
)
    requires
        leaves(Tree::Series(children)).len() <= usize::MAX,
        at(Tree::Series(children), fork) == Some(Tree::Parallel(branches)),
        0 <= i < j < branches.len(),
        at(branches[i], p) == Some(Tree::Strand(a)),
        at(branches[j], q) == Some(Tree::Strand(b)),
        r.strand_a == place(Tree::Series(children), fork + seq![i] + p),
        r.strand_b == place(Tree::Series(children), fork + seq![j] + q),
        r.write_a || r.write_b,
    ensures
        ({
            let report = all_races(analysed(children));
            let access_a = Access { location: r.location, is_write: r.write_a };
            let access_b = Access { location: r.location, is_write: r.write_b };
            &&& a.contains(access_a) && b.contains(access_b) ==> report.contains(r)
            &&& report.to_multiset().count(r) == a.to_multiset().count(access_a)
                * b.to_multiset().count(access_b)
        }),
{
    let root = Tree::Series(children);
    let pa = fork + seq![i] + p;
    let qb = fork + seq![j] + q;
    let k = fork.len() as int;
    assert(pa =~= fork + (seq![i] + p));
    assert(qb =~= fork + (seq![j] + q));
    assert((seq![i] + p).drop_first() =~= p);
    assert((seq![j] + q).drop_first() =~= q);
    lemma_at_joined(root, fork, seq![i] + p);
    lemma_at_joined(root, fork, seq![j] + q);
    assert(part(pa, qb, k));
    assert(pa.take(k) =~= fork);
    strands_part_where_their_paths_part(root, pa, qb, k);
    every_strand_has_its_place(root, pa, a);
    every_strand_has_its_place(root, qb, b);
    one_report_per_pair(children, r);
    races_are_exact(children, r);
    lemma_tally_contains(all_races(analysed(children)), r);
    lemma_tally_contains(a, Access { location: r.location, is_write: r.write_a });
    lemma_tally_contains(b, Access { location: r.location, is_write: r.write_b });
}

/// Every report is a conflict: it gives the places of two strands whose paths part at a parallel
/// node, the left one first, and an access of each to the location, one of them a write.
pub proof fn every_report_is_a_conflict(children: Seq<Tree>, r: Race) -> (w: (
    Seq<int>,
    Seq<int>,
    int,
))
    requires
        leaves(Tree::Series(children)).len() <= usize::MAX,
        all_races(analysed(children)).contains(r),
    ensures
        ({
            let root = Tree::Series(children);
            let (p, q, k) = w;
            &&& part(p, q, k)
            &&& at(root, p.take(k)) matches Some(Tree::Parallel(branches))
            &&& at(root, p) matches Some(Tree::Strand(a)) && place(root, p) == r.strand_a
                && a.contains(Access { location: r.location, is_write: r.write_a })
            &&& at(root, q) matches Some(Tree::Strand(b)) && place(root, q) == r.strand_b
                && b.contains(Access { location: r.location, is_write: r.write_b })
            &&& r.write_a || r.write_b
        }),
{
    let root = Tree::Series(children);
    races_are_exact(children, r);
    let p = every_place_is_a_strand(root, r.strand_a as int);
    let q = every_place_is_a_strand(root, r.strand_b as int);
    every_strand_has_its_place(root, p, at(root, p)->0->Strand_0);
    every_strand_has_its_place(root, q, at(root, q)->0->Strand_0);
    let k = paths_part(root, p, q);
    if part(q, p, k) {
        strands_part_where_their_paths_part(root, q, p, k);
    } else {
        strands_part_where_their_paths_part(root, p, q, k);
    }
    (p, q, k)
}

proof fn lemma_with_in_order(
    location: Location,
    who: Seq<(usize, bool)>,
    strands: Seq<StrandRecord>,
    i: int,
    n: int,
    x: int,
)
    requires
        numbered(strands),
        in_order(who, strands.len() as int),
        0 <= i < n <= who.len(),
    ensures
        0 <= x < races_with(location, who, strands, i, n).len() ==> {
            &&& races_with(location, who, strands, i, n)[x].strand_a == who[i].0
            &&& races_with(location, who, strands, i, n)[x].location == location
        },
    decreases n - i,
{
    if n > i + 1 {
        lemma_with_in_order(location, who, strands, i, n - 1, x);
        assert(who[i].0 < strands.len() && who[n - 1].0 < strands.len());
        assert(strands[who[i].0 as int].english == who[i].0);
        assert(strands[who[n - 1].0 as int].english == who[n - 1].0);
    }
}

proof fn lemma_at_in_order(
    location: Location,
    who: Seq<(usize, bool)>,
    strands: Seq<StrandRecord>,
    n: nat,
    x: int,
    y: int,
)
    requires
        numbered(strands),
        in_order(who, strands.len() as int),
        n <= who.len(),
    ensures
        0 <= x < races_at(location, who, strands, n).len() ==> n > 0 && races_at(
            location,
            who,
            strands,
            n,
        )[x].strand_a <= who[n - 1].0 && races_at(location, who, strands, n)[x].location
            == location,
        0 <= x <= y < races_at(location, who, strands, n).len() ==> races_at(
            location,
            who,
            strands,
            n,
        )[x].strand_a <= races_at(location, who, strands, n)[y].strand_a,
    decreases n,
{
    if n > 0 {
        let rest = races_at(location, who, strands, (n - 1) as nat);
        lemma_at_in_order(location, who, strands, (n - 1) as nat, x, y);
        lemma_with_in_order(
            location,
            who,
            strands,
            n - 1,
            who.len() as int,
            x - rest.len(),
        );
        lemma_with_in_order(
            location,
            who,
            strands,
            n - 1,
            who.len() as int,
            y - rest.len(),
        );
        if n > 1 {
            assert(who[n - 2].0 <= who[n - 1].0);
        }
    }
}

proof fn lemma_of_in_order(strands: Seq<StrandRecord>, n: nat, x: int, y: int)
    requires
        numbered(strands),
        n <= locations(accesses_of(strands, strands.len())).len(),
        0 <= x < y < races_of(strands, n).len(),
    ensures
        races_of(strands, n)[x].location == races_of(strands, n)[y].location ==> races_of(
            strands,
            n,
        )[x].strand_a <= races_of(strands, n)[y].strand_a,
        forall|z: int|
            x < z < y && races_of(strands, n)[x].location == races_of(strands, n)[y].location
                ==> (#[trigger] races_of(strands, n)[z]).location == races_of(
                strands,
                n,
            )[x].location,
    decreases n,
{
    let all = accesses_of(strands, strands.len());
    let found = locations(all);
    let rest = races_of(strands, (n - 1) as nat);
    let location = found[n - 1];
    let who = accessors(all, location);
    let last = races_at(location, who, strands, who.len());
    lemma_accesses_in_order(strands, strands.len());
    lemma_accesses_are_tagged(strands, strands.len());
    lemma_accessors_in_order(all, location);
    lemma_accessors_are_strands(all, location, strands.len() as int);
    assert forall|z: int| 0 <= z < last.len() implies (#[trigger] last[z]).location == location by {
        lemma_at_in_order(location, who, strands, who.len(), z, z);
    }
    if y < rest.len() {
        lemma_of_in_order(strands, (n - 1) as nat, x, y);
        assert forall|z: int|
            x < z < y && races_of(strands, n)[x].location == races_of(strands, n)[y].location implies (
        #[trigger] races_of(strands, n)[z]).location == races_of(strands, n)[x].location by {
            assert(rest[z].location == rest[x].location);
        }
    } else if x >= rest.len() {
        lemma_at_in_order(
            location,
            who,
            strands,
            who.len(),
            x - rest.len(),
            y - rest.len(),
        );
        assert(last[x - rest.len()].location == location);
        assert forall|z: int| x < z < y implies (#[trigger] races_of(strands, n)[z]).location
            == location by {
            assert(last[z - rest.len()].location == location);
        }
    } else {
        assert(last[y - rest.len()].location == location);
        lemma_earlier_location(strands, (n - 1) as nat, x);
        let g = choose|g: int| 0 <= g < n - 1 && #[trigger] found[g] == rest[x].location;
        lemma_locations(all);
        assert(found[g] != found[n - 1]);
    }
}

proof fn lemma_earlier_location(strands: Seq<StrandRecord>, n: nat, x: int)
    requires
        numbered(strands),
        n <= locations(accesses_of(strands, strands.len())).len(),
        0 <= x < races_of(strands, n).len(),
    ensures
        exists|g: int|
            0 <= g < n && #[trigger] locations(accesses_of(strands, strands.len()))[g] == races_of(
                strands,
                n,
            )[x].location,
    decreases n,
{
    let all = accesses_of(strands, strands.len());
    let location = locations(all)[n - 1];
    let who = accessors(all, location);
    let rest = races_of(strands, (n - 1) as nat);
    if x < rest.len() {
        lemma_earlier_location(strands, (n - 1) as nat, x);
    } else {
        lemma_accesses_in_order(strands, strands.len());
        lemma_accesses_are_tagged(strands, strands.len());
        lemma_accessors_in_order(all, location);
        lemma_accessors_are_strands(all, location, strands.len() as int);
        lemma_at_in_order(
            location,
            who,
            strands,
            who.len(),
            x - rest.len(),
            x - rest.len(),
        );
    }
}

/// The reports on one location stand together, in the order of their first strands.
pub proof fn reports_come_location_by_location(children: Seq<Tree>, x: int, y: int)
    requires
        leaves(Tree::Series(children)).len() <= usize::MAX,
        0 <= x < y < all_races(analysed(children)).len(),
        all_races(analysed(children))[x].location == all_races(analysed(children))[y].location,
    ensures
        all_races(analysed(children))[x].strand_a <= all_races(analysed(children))[y].strand_a,
        forall|z: int|
            x < z < y ==> (#[trigger] all_races(analysed(children))[z]).location == all_races(
                analysed(children),
            )[x].location,
{
    let strands = analysed(children);
    lemma_of_in_order(strands, locations(accesses_of(strands, strands.len())).len(), x, y);
}

/// Nothing is reported iff the computation is free of determinacy races.
pub proof fn empty_iff_race_free(children: Seq<Tree>)
    requires
        count(Tree::Series(children)) <= usize::MAX,
    ensures
        all_races(analysed(children)).len() == 0 <==> forall|r: Race| !is_race(children, r),
{
    let report = all_races(analysed(children));
    if report.len() == 0 {
        assert forall|r: Race| !is_race(children, r) by {
            races_are_exact(children, r);
        }
    } else {
        assert(report.contains(report[0]));
        races_are_exact(children, report[0]);
    }
}

/// Computations with the same races, each as often, are reported the same but for the order.
proof fn lemma_same_report(children: Seq<Tree>, other: Seq<Tree>)
    requires
        count(Tree::Series(children)) <= usize::MAX,
        count(Tree::Series(other)) <= usize::MAX,
        forall|r: Race| #[trigger] pairs(children, r) == pairs(other, r),
    ensures
        all_races(analysed(children)).to_multiset() == all_races(analysed(other)).to_multiset(),
{
    let before = all_races(analysed(children));
    let after = all_races(analysed(other));
    assert forall|r: Race| before.to_multiset().count(r) == after.to_multiset().count(r) by {
        one_report_per_pair(children, r);
        one_report_per_pair(other, r);
        lemma_tally_contains(before, r);
        lemma_tally_contains(after, r);
        assert(pairs(children, r) == pairs(other, r));
    }
    assert(before.to_multiset() =~= after.to_multiset());
}

proof fn lemma_pushed(children: Seq<Tree>, more: Tree, n: nat, i: int, j: int)
    requires
        n <= children.len(),
    ensures
        leaves_of(children.push(more), n) == leaves_of(children, n),
        parallel_of(children.push(more), n, i, j, false) == parallel_of(
            children,
            n,
            i,
            j,
            false,
        ),
    decreases n,
{
    if n > 0 {
        lemma_pushed(children, more, (n - 1) as nat, i, j);
        assert(children.push(more)[n - 1] == children[n - 1]);
    }
}

/// A strand that runs after everything else races with nothing: the report stays the same, but for
/// the order.
pub proof fn series_strand_adds_no_race(children: Seq<Tree>, accesses: Seq<Access>)
    requires
        count(Tree::Series(children.push(Tree::Strand(accesses)))) <= usize::MAX,
    ensures
        all_races(analysed(children.push(Tree::Strand(accesses)))).to_multiset() == all_races(
            analysed(children),
        ).to_multiset(),
{
    let strand = Tree::Strand(accesses);
    let more = children.push(strand);
    let root = Tree::Series(children);
    let all = Tree::Series(more);
    lemma_pushed(children, strand, children.len(), 0, 0);
    assert(more[more.len() - 1] == strand);
    assert(leaves(strand) == seq![accesses]);
    assert(leaves(root) == leaves_of(children, children.len()));
    assert(leaves(all) == leaves_of(more, more.len()));
    assert(leaves_of(more, more.len()) == leaves_of(more, children.len()) + leaves(strand));
    assert forall|r: Race| #[trigger] pairs(children, r) == pairs(more, r) by {
        lemma_pushed(children, strand, children.len(), r.strand_a as int, r.strand_b as int);
    }
    lemma_same_report(children, more);
}

/// Everything in one series changes nothing: the report stays the same, but for the order.
pub proof fn series_around_all_adds_no_race(children: Seq<Tree>)
    requires
        count(Tree::Series(children)) <= usize::MAX,
    ensures
        all_races(analysed(seq![Tree::Series(children)])).to_multiset() == all_races(
            analysed(children),
        ).to_multiset(),
{
    let root = Tree::Series(children);
    let around = seq![root];
    let all = Tree::Series(around);
    assert(around[0] == root);
    assert(leaves_of(around, 0) =~= Seq::<Seq<Access>>::empty());
    assert(leaves(all) == leaves_of(around, 1));
    assert(leaves_of(around, 1) == leaves_of(around, 0) + leaves(root));
    assert(leaves(all) =~= leaves(root));
    assert forall|r: Race| #[trigger] pairs(children, r) == pairs(around, r) by {
        if r.strand_a < r.strand_b < count(root) {
            assert(parallel(all, r.strand_a as int, r.strand_b as int) == parallel(
                root,
                r.strand_a as int,
                r.strand_b as int,
            ));
        }
    }
    lemma_same_report(children, around);
}

} // verus!
