//! Sequences cut into consecutive pieces.

use vstd::prelude::*;

verus! {

/// The pieces put together, in order.
pub open spec fn concat<P>(pieces: Seq<Seq<P>>) -> Seq<P>
    decreases pieces.len(),
{
    if pieces.len() == 0 {
        Seq::empty()
    } else {
        concat(pieces.drop_last()) + pieces.last()
    }
}

/// Pieces that are all empty put together to nothing.
pub proof fn lemma_concat_empty<P>(pieces: Seq<Seq<P>>)
    requires
        forall|i: int| 0 <= i < pieces.len() ==> (#[trigger] pieces[i]).len() == 0,
    ensures
        concat(pieces) == Seq::<P>::empty(),
    decreases pieces.len(),
{
    if pieces.len() > 0 {
        assert(pieces[pieces.len() - 1].len() == 0);
        lemma_concat_empty(pieces.drop_last());
        assert(concat(pieces) =~= Seq::<P>::empty());
    }
}

/// Where all pieces behind the `k`-th are empty, the whole is what stands before the `k`-th piece,
/// and that piece.
pub proof fn lemma_concat_last<P>(pieces: Seq<Seq<P>>, k: int)
    requires
        0 <= k < pieces.len(),
        forall|i: int| k < i < pieces.len() ==> (#[trigger] pieces[i]).len() == 0,
    ensures
        concat(pieces) == concat(pieces.take(k)) + pieces[k],
    decreases pieces.len(),
{
    if k == pieces.len() - 1 {
        assert(pieces.drop_last() =~= pieces.take(k));
    } else {
        let shorter = pieces.drop_last();
        lemma_concat_last(shorter, k);
        assert(shorter.take(k) =~= pieces.take(k));
        assert(pieces[pieces.len() - 1].len() == 0);
        assert(concat(pieces) =~= concat(shorter));
    }
}

/// Where all pieces before the `k`-th are empty, dropping the first item of the `k`-th piece drops
/// the first item of the whole.
pub proof fn lemma_concat_first<P>(pieces: Seq<Seq<P>>, k: int)
    requires
        0 <= k < pieces.len(),
        forall|i: int| 0 <= i < k ==> (#[trigger] pieces[i]).len() == 0,
        pieces[k].len() > 0,
    ensures
        concat(pieces).len() > 0,
        concat(pieces)[0] == pieces[k][0],
        concat(pieces.update(k, pieces[k].drop_first())) == concat(pieces).drop_first(),
    decreases pieces.len(),
{
    let updated = pieces.update(k, pieces[k].drop_first());
    if k == pieces.len() - 1 {
        lemma_concat_empty(pieces.drop_last());
        assert(updated.drop_last() =~= pieces.drop_last());
        assert(concat(pieces) =~= pieces[k]);
        assert(concat(updated) =~= pieces[k].drop_first());
    } else {
        let shorter = pieces.drop_last();
        lemma_concat_first(shorter, k);
        assert(updated.drop_last() =~= shorter.update(k, shorter[k].drop_first()));
        assert(concat(updated) =~= concat(pieces).drop_first());
    }
}

/// Replacing a piece replaces its items.
pub proof fn lemma_concat_update<P>(pieces: Seq<Seq<P>>, k: int, piece: Seq<P>)
    requires
        0 <= k < pieces.len(),
    ensures
        concat(pieces.update(k, piece)).to_multiset().add(pieces[k].to_multiset()) == concat(
            pieces,
        ).to_multiset().add(piece.to_multiset()),
    decreases pieces.len(),
{
    let updated = pieces.update(k, piece);
    let shorter = pieces.drop_last();
    let before = concat(shorter);
    let after = concat(updated.drop_last());
    vstd::seq_lib::lemma_multiset_commutative(before, pieces.last());
    vstd::seq_lib::lemma_multiset_commutative(after, updated.last());
    if k == pieces.len() - 1 {
        assert(updated.drop_last() =~= shorter);
    } else {
        lemma_concat_update(shorter, k, piece);
        assert(updated.drop_last() =~= shorter.update(k, piece));
        assert(after.to_multiset().add(shorter[k].to_multiset()) == before.to_multiset().add(
            piece.to_multiset(),
        ));
    }
    assert(concat(updated).to_multiset() == after.to_multiset().add(
        updated.last().to_multiset(),
    ));
    assert(concat(pieces).to_multiset() == before.to_multiset().add(pieces.last().to_multiset()));
    let left = concat(updated).to_multiset().add(pieces[k].to_multiset());
    let right = concat(pieces).to_multiset().add(piece.to_multiset());
    assert forall|p: P| left.count(p) == right.count(p) by {
        let kept = after.to_multiset().add(pieces[k].to_multiset());
        let given = before.to_multiset().add(piece.to_multiset());
        if k < pieces.len() - 1 {
            assert(kept.count(p) == given.count(p));
        }
    }
    assert(left =~= right);
}

/// Adding an empty piece at the end changes nothing.
pub proof fn lemma_concat_push_empty<P>(pieces: Seq<Seq<P>>, piece: Seq<P>)
    requires
        piece.len() == 0,
    ensures
        concat(pieces.push(piece)) == concat(pieces),
{
    assert(pieces.push(piece).drop_last() =~= pieces);
    assert(concat(pieces.push(piece)) =~= concat(pieces));
}

} // verus!
