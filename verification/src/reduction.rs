//! The reduction of a sequence of items by a monoid, and how it behaves
//! under concatenation, ranges and splits.

use vstd::prelude::*;
use crate::monoid::Monoid;

verus! {

/// The reduction of `s` from left to right, starting from the identity:
/// `((unit · s[0]) · s[1]) · … · s[n-1]`.
pub open spec fn reduce<M: Monoid>(s: Seq<M::Item>) -> M::Item
    decreases s.len(),
{
    if s.len() == 0 {
        M::unit()
    } else {
        M::combine(reduce::<M>(s.drop_last()), s.last())
    }
}

/// The reduction of the items of `s` at positions `i..j`.
pub open spec fn reduce_range<M: Monoid>(s: Seq<M::Item>, i: int, j: int) -> M::Item {
    reduce::<M>(s.subrange(i, j))
}

/// The reduction of a one-item sequence is that item.
pub proof fn lemma_reduce_single<M: Monoid>(a: M::Item)
    ensures
        reduce::<M>(seq![a]) == a,
{
    let s = seq![a];
    assert(s.drop_last().len() == 0);
    assert(reduce::<M>(s.drop_last()) == M::unit());
    assert(s.last() == a);
    M::lemma_left_identity(a);
}

/// Reduction distributes over concatenation: the reduction of `a + b` is the
/// reduction of `a` combined with the reduction of `b`.
pub proof fn lemma_reduce_concat<M: Monoid>(a: Seq<M::Item>, b: Seq<M::Item>)
    ensures
        reduce::<M>(a + b) == M::combine(reduce::<M>(a), reduce::<M>(b)),
    decreases b.len(),
{
    if b.len() == 0 {
        assert(a + b =~= a);
        M::lemma_right_identity(reduce::<M>(a));
    } else {
        assert((a + b).drop_last() =~= a + b.drop_last());
        assert((a + b).last() == b.last());
        lemma_reduce_concat::<M>(a, b.drop_last());
        M::lemma_associative(reduce::<M>(a), reduce::<M>(b.drop_last()), b.last());
    }
}

/// The reduction of an empty range is the identity.
pub proof fn lemma_reduce_range_empty<M: Monoid>(s: Seq<M::Item>, i: int)
    requires
        0 <= i <= s.len(),
    ensures
        reduce_range::<M>(s, i, i) == M::unit(),
{
    assert(s.subrange(i, i).len() == 0);
}

/// The reduction of the full range is the reduction of the sequence.
pub proof fn lemma_reduce_range_full<M: Monoid>(s: Seq<M::Item>)
    ensures
        reduce_range::<M>(s, 0, s.len() as int) == reduce::<M>(s),
{
    assert(s.subrange(0, s.len() as int) =~= s);
}

/// Growing a range by one item on the right combines that item from the right.
pub proof fn lemma_reduce_range_push<M: Monoid>(s: Seq<M::Item>, i: int, j: int)
    requires
        0 <= i <= j < s.len(),
    ensures
        reduce_range::<M>(s, i, j + 1) == M::combine(reduce_range::<M>(s, i, j), s[j]),
{
    let t = s.subrange(i, j + 1);
    assert(t.drop_last() =~= s.subrange(i, j));
    assert(t.last() == s[j]);
}

/// Growing a range by one item on the left combines that item from the left.
pub proof fn lemma_reduce_range_push_front<M: Monoid>(s: Seq<M::Item>, i: int, j: int)
    requires
        0 <= i < j <= s.len(),
    ensures
        reduce_range::<M>(s, i, j) == M::combine(s[i], reduce_range::<M>(s, i + 1, j)),
{
    assert(s.subrange(i, j) =~= seq![s[i]] + s.subrange(i + 1, j));
    lemma_reduce_concat::<M>(seq![s[i]], s.subrange(i + 1, j));
    lemma_reduce_single::<M>(s[i]);
}

/// A range splits at any position inside it.
pub proof fn lemma_reduce_range_split<M: Monoid>(s: Seq<M::Item>, i: int, k: int, j: int)
    requires
        0 <= i <= k <= j <= s.len(),
    ensures
        reduce_range::<M>(s, i, j) == M::combine(
            reduce_range::<M>(s, i, k),
            reduce_range::<M>(s, k, j),
        ),
{
    assert(s.subrange(i, j) =~= s.subrange(i, k) + s.subrange(k, j));
    lemma_reduce_concat::<M>(s.subrange(i, k), s.subrange(k, j));
}

/// A range of `l + r` that lies in `l` is that range of `l`.
pub proof fn lemma_reduce_range_left<M: Monoid>(
    l: Seq<M::Item>,
    r: Seq<M::Item>,
    i: int,
    j: int,
)
    requires
        0 <= i <= j <= l.len(),
    ensures
        reduce_range::<M>(l + r, i, j) == reduce_range::<M>(l, i, j),
{
    assert((l + r).subrange(i, j) =~= l.subrange(i, j));
}

/// A range of `l + r` that lies in `r` is a range of `r`, `l.len()` to the
/// left.
pub proof fn lemma_reduce_range_right<M: Monoid>(
    l: Seq<M::Item>,
    r: Seq<M::Item>,
    i: int,
    j: int,
)
    requires
        0 <= i <= j <= r.len(),
    ensures
        reduce_range::<M>(l + r, l.len() + i, l.len() + j) == reduce_range::<M>(r, i, j),
{
    assert((l + r).subrange(l.len() + i, l.len() + j) =~= r.subrange(i, j));
}

/// A range of `l + r` that reaches over both parts is its part in `l`
/// combined with its part in `r`.
pub proof fn lemma_reduce_range_across<M: Monoid>(
    l: Seq<M::Item>,
    r: Seq<M::Item>,
    i: int,
    j: int,
)
    requires
        0 <= i <= l.len(),
        0 <= j <= r.len(),
    ensures
        reduce_range::<M>(l + r, i, l.len() + j) == M::combine(
            reduce_range::<M>(l, i, l.len() as int),
            reduce_range::<M>(r, 0, j),
        ),
{
    lemma_reduce_range_split::<M>(l + r, i, l.len() as int, l.len() + j);
    lemma_reduce_range_left::<M>(l, r, i, l.len() as int);
    lemma_reduce_range_right::<M>(l, r, 0, j);
}

/// Reduction is the left fold of the monoid operation from the identity.
pub proof fn lemma_reduce_is_fold_left<M: Monoid>(s: Seq<M::Item>)
    ensures
        reduce::<M>(s) == s.fold_left(M::unit(), |a: M::Item, b: M::Item| M::combine(a, b)),
    decreases s.len(),
{
    if s.len() > 0 {
        lemma_reduce_is_fold_left::<M>(s.drop_last());
    }
}

} // verus!
