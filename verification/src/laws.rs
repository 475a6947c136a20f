//! Laws that relate the operations of a segment tree to each other, stated
//! over the sequence of items that a tree stands for: `tree@` is what `get`
//! reads and `set` writes, and `reduce_range` of it is what `fold` returns.

use vstd::prelude::*;
use crate::monoid::Monoid;
use crate::reduction::{
    reduce,
    reduce_range,
    lemma_reduce_single,
    lemma_reduce_range_full,
    lemma_reduce_range_push_front,
    lemma_reduce_range_split,
};
use crate::tree::SegTree;

verus! {

/// Construction: a tree built from the sequence `s` holds as many items as
/// `s`, and `get(i)` on it is `s[i]` at every position `i`.
pub proof fn lemma_construction<M: Monoid>(tree: SegTree<M>, s: Seq<M::Item>, i: int)
    requires
        tree.wf(),
        tree@ == s,
        0 <= i < s.len(),
    ensures
        tree@.len() == s.len(),
        tree@[i] == s[i],
{
}

/// Shape: a well-formed tree is determined by its items. Two trees that hold
/// the same sequence are the same tree, however they were built or updated.
pub proof fn lemma_determined_by_items<M: Monoid>(a: SegTree<M>, b: SegTree<M>)
    requires
        a.wf(),
        b.wf(),
        a@ == b@,
    ensures
        a == b,
    decreases a,
{
    match (a, b) {
        (SegTree::Leaf { val: x }, SegTree::Leaf { val: y }) => {
            assert(a@[0] == x);
            assert(b@[0] == y);
        },
        (
            SegTree::Node { left: al, right: ar, .. },
            SegTree::Node { left: bl, right: br, .. },
        ) => {
            al.lemma_wf();
            ar.lemma_wf();
            bl.lemma_wf();
            br.lemma_wf();
            assert(al@ =~= a@.subrange(0, al@.len() as int));
            assert(bl@ =~= b@.subrange(0, bl@.len() as int));
            assert(ar@ =~= a@.subrange(al@.len() as int, a@.len() as int));
            assert(br@ =~= b@.subrange(bl@.len() as int, b@.len() as int));
            lemma_determined_by_items::<M>(*al, *bl);
            lemma_determined_by_items::<M>(*ar, *br);
        },
        (SegTree::Leaf { .. }, SegTree::Node { left, right, .. }) => {
            left.lemma_wf();
            right.lemma_wf();
        },
        (SegTree::Node { left, right, .. }, SegTree::Leaf { .. }) => {
            left.lemma_wf();
            right.lemma_wf();
        },
    }
}

/// Identities: in a sequence of `n` identities, as `new(n)` builds it, the
/// fold of every range is the identity.
pub proof fn lemma_identities<M: Monoid>(n: nat, i: int, j: int)
    requires
        0 <= i <= j <= n,
    ensures
        reduce_range::<M>(Seq::new(n, |k: int| M::unit()), i, j) == M::unit(),
    decreases j - i,
{
    let s = Seq::new(n, |k: int| M::unit());
    if i < j {
        lemma_identities::<M>(n, i + 1, j);
        lemma_reduce_range_push_front::<M>(s, i, j);
        M::lemma_left_identity(M::unit());
    } else {
        assert(s.subrange(i, j).len() == 0);
    }
}

/// One item: the fold of the range `i..i + 1` is the item at `i`, so `fold`
/// of one position is `get` of it.
pub proof fn lemma_fold_of_one<M: Monoid>(s: Seq<M::Item>, i: int)
    requires
        0 <= i < s.len(),
    ensures
        reduce_range::<M>(s, i, i + 1) == s[i],
{
    assert(s.subrange(i, i + 1) =~= seq![s[i]]);
    lemma_reduce_single::<M>(s[i]);
}

/// Full range: the fold of all positions is the reduction of the whole
/// sequence, and it is the value that the root caches.
pub proof fn lemma_full_range<M: Monoid>(tree: SegTree<M>)
    requires
        tree.wf(),
    ensures
        reduce_range::<M>(tree@, 0, tree@.len() as int) == reduce::<M>(tree@),
        reduce_range::<M>(tree@, 0, tree@.len() as int) == tree.aggregate(),
{
    tree.lemma_wf();
    lemma_reduce_range_full::<M>(tree@);
}

/// Update, outside: after `set(k, v)`, the fold of every range that does
/// not contain `k` is what it was.
pub proof fn lemma_update_outside<M: Monoid>(
    s: Seq<M::Item>,
    k: int,
    v: M::Item,
    i: int,
    j: int,
)
    requires
        0 <= k < s.len(),
        0 <= i <= j <= s.len(),
        k < i || j <= k,
    ensures
        reduce_range::<M>(s.update(k, v), i, j) == reduce_range::<M>(s, i, j),
{
    assert(s.update(k, v).subrange(i, j) =~= s.subrange(i, j));
}

/// Update, inside: after `set(k, v)`, the fold of a range `i..j` that
/// contains `k` is the former fold of `i..k`, then `v`, then the former fold
/// of `k + 1..j`.
pub proof fn lemma_update_inside<M: Monoid>(s: Seq<M::Item>, k: int, v: M::Item, i: int, j: int)
    requires
        0 <= i <= k < j <= s.len(),
    ensures
        reduce_range::<M>(s.update(k, v), i, j) == M::combine(
            M::combine(reduce_range::<M>(s, i, k), v),
            reduce_range::<M>(s, k + 1, j),
        ),
{
    let t = s.update(k, v);
    lemma_reduce_range_split::<M>(t, i, k, j);
    lemma_reduce_range_push_front::<M>(t, k, j);
    lemma_update_outside::<M>(s, k, v, i, k);
    lemma_update_outside::<M>(s, k, v, k + 1, j);
    M::lemma_associative(reduce_range::<M>(s, i, k), v, reduce_range::<M>(s, k + 1, j));
}

} // verus!
