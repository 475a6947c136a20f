//! Boundary searches: how far a range can grow, to the right of a start or
//! to the left of an end, while a predicate on its reduction still holds.

use vstd::prelude::*;
use crate::monoid::Monoid;
use crate::reduction::{
    reduce_range,
    lemma_reduce_single,
    lemma_reduce_range_split,
    lemma_reduce_range_empty,
    lemma_reduce_range_full,
    lemma_reduce_range_push,
    lemma_reduce_range_push_front,
    lemma_reduce_range_left,
    lemma_reduce_range_right,
    lemma_reduce_range_across,
};
use crate::tree::SegTree;

verus! {

/// Every answer that `pred` can give on an item is the value of `p` on it.
pub open spec fn decides<T, P: FnMut(&T) -> bool>(pred: P, p: spec_fn(T) -> bool) -> bool {
    forall|x: T, b: bool| #[trigger] call_ensures(pred, (&x,), b) ==> b == p(x)
}

/// `p` holds on the identity, and where it holds on the reduction of a range
/// `start..e` of `s` it holds on the reduction of every shorter range that
/// begins at `start`.
pub open spec fn monotone_from<M: Monoid>(
    p: spec_fn(M::Item) -> bool,
    s: Seq<M::Item>,
    start: int,
) -> bool {
    &&& p(M::unit())
    &&& forall|e1: int, e2: int|
        #![trigger reduce_range::<M>(s, start, e1), reduce_range::<M>(s, start, e2)]
        start <= e1 <= e2 <= s.len() && p(reduce_range::<M>(s, start, e2)) ==> p(
            reduce_range::<M>(s, start, e1),
        )
}

/// `p` holds on the identity, and where it holds on the reduction of a range
/// `b..end` of `s` it holds on the reduction of every shorter range that
/// stops at `end`.
pub open spec fn monotone_to<M: Monoid>(
    p: spec_fn(M::Item) -> bool,
    s: Seq<M::Item>,
    end: int,
) -> bool {
    &&& p(M::unit())
    &&& forall|b1: int, b2: int|
        #![trigger reduce_range::<M>(s, b1, end), reduce_range::<M>(s, b2, end)]
        0 <= b1 <= b2 <= end && p(reduce_range::<M>(s, b1, end)) ==> p(
            reduce_range::<M>(s, b2, end),
        )
}

/// `end` is the largest position in `start..=s.len()` for which `p` holds on
/// the reduction of `start..end`.
pub open spec fn is_max_end<M: Monoid>(
    p: spec_fn(M::Item) -> bool,
    s: Seq<M::Item>,
    start: int,
    end: int,
) -> bool {
    &&& start <= end <= s.len()
    &&& p(reduce_range::<M>(s, start, end))
    &&& forall|e: int| end < e <= s.len() ==> !p(#[trigger] reduce_range::<M>(s, start, e))
}

/// `start` is the smallest position in `0..=end` for which `p` holds on the
/// reduction of `start..end`.
pub open spec fn is_min_start<M: Monoid>(
    p: spec_fn(M::Item) -> bool,
    s: Seq<M::Item>,
    end: int,
    start: int,
) -> bool {
    &&& 0 <= start <= end
    &&& p(reduce_range::<M>(s, start, end))
    &&& forall|b: int| 0 <= b < start ==> !p(#[trigger] reduce_range::<M>(s, b, end))
}

/// A position at which a monotone predicate holds, and after which it fails
/// at once, is the largest at which it holds.
pub proof fn lemma_max_end_is_largest<M: Monoid>(
    p: spec_fn(M::Item) -> bool,
    s: Seq<M::Item>,
    start: int,
    end: int,
)
    requires
        0 <= start <= end <= s.len(),
        monotone_from::<M>(p, s, start),
        start < end ==> p(reduce_range::<M>(s, start, end)),
        end < s.len() ==> !p(reduce_range::<M>(s, start, end + 1)),
    ensures
        is_max_end::<M>(p, s, start, end),
{
    assert(s.subrange(start, start).len() == 0);
    assert forall|e: int| end < e <= s.len() implies !p(
        #[trigger] reduce_range::<M>(s, start, e),
    ) by {
        if p(reduce_range::<M>(s, start, e)) {
            assert(p(reduce_range::<M>(s, start, end + 1)));
        }
    }
}

/// A position at which a monotone predicate holds, and before which it fails
/// at once, is the smallest at which it holds.
pub proof fn lemma_min_start_is_smallest<M: Monoid>(
    p: spec_fn(M::Item) -> bool,
    s: Seq<M::Item>,
    end: int,
    start: int,
)
    requires
        0 <= start <= end <= s.len(),
        monotone_to::<M>(p, s, end),
        start < end ==> p(reduce_range::<M>(s, start, end)),
        0 < start ==> !p(reduce_range::<M>(s, start - 1, end)),
    ensures
        is_min_start::<M>(p, s, end, start),
{
    assert(s.subrange(end, end).len() == 0);
    assert forall|b: int| 0 <= b < start implies !p(
        #[trigger] reduce_range::<M>(s, b, end),
    ) by {
        if p(reduce_range::<M>(s, b, end)) {
            assert(p(reduce_range::<M>(s, start - 1, end)));
        }
    }
}

/// There is one largest end at most.
pub proof fn lemma_max_end_unique<M: Monoid>(
    p: spec_fn(M::Item) -> bool,
    s: Seq<M::Item>,
    start: int,
    a: int,
    b: int,
)
    requires
        is_max_end::<M>(p, s, start, a),
        is_max_end::<M>(p, s, start, b),
    ensures
        a == b,
{
    if a < b {
        assert(!p(reduce_range::<M>(s, start, b)));
    } else if b < a {
        assert(!p(reduce_range::<M>(s, start, a)));
    }
}

/// There is one smallest start at most.
pub proof fn lemma_min_start_unique<M: Monoid>(
    p: spec_fn(M::Item) -> bool,
    s: Seq<M::Item>,
    end: int,
    a: int,
    b: int,
)
    requires
        is_min_start::<M>(p, s, end, a),
        is_min_start::<M>(p, s, end, b),
    ensures
        a == b,
{
    if a < b {
        assert(!p(reduce_range::<M>(s, a, end)));
    } else if b < a {
        assert(!p(reduce_range::<M>(s, b, end)));
    }
}

/// A predicate that holds on the identity and that, where it holds on
/// `x · y`, holds on `x`, is monotone from every start: once it fails on a
/// range, it fails on every range that extends that one to the right.
pub proof fn lemma_monotone_from<M: Monoid>(
    p: spec_fn(M::Item) -> bool,
    s: Seq<M::Item>,
    start: int,
)
    requires
        0 <= start <= s.len(),
        p(M::unit()),
        forall|x: M::Item, y: M::Item| p(#[trigger] M::combine(x, y)) ==> p(x),
    ensures
        monotone_from::<M>(p, s, start),
{
    assert forall|e1: int, e2: int|
        #![trigger reduce_range::<M>(s, start, e1), reduce_range::<M>(s, start, e2)]
        start <= e1 <= e2 <= s.len() && p(reduce_range::<M>(s, start, e2)) implies p(
        reduce_range::<M>(s, start, e1),
    ) by {
        lemma_reduce_range_split::<M>(s, start, e1, e2);
    }
}

/// A predicate that holds on the identity and that, where it holds on
/// `y · x`, holds on `x`, is monotone to every end: once it fails on a
/// range, it fails on every range that extends that one to the left.
pub proof fn lemma_monotone_to<M: Monoid>(p: spec_fn(M::Item) -> bool, s: Seq<M::Item>, end: int)
    requires
        0 <= end <= s.len(),
        p(M::unit()),
        forall|y: M::Item, x: M::Item| p(#[trigger] M::combine(y, x)) ==> p(x),
    ensures
        monotone_to::<M>(p, s, end),
{
    assert forall|b1: int, b2: int|
        #![trigger reduce_range::<M>(s, b1, end), reduce_range::<M>(s, b2, end)]
        0 <= b1 <= b2 <= end && p(reduce_range::<M>(s, b1, end)) implies p(
        reduce_range::<M>(s, b2, end),
    ) by {
        lemma_reduce_range_split::<M>(s, b1, b2, end);
    }
}

impl<M: Monoid> SegTree<M> {
    /// Searches to the right of `start` for the end of the longest range on
    /// whose reduction `pred` answers `true`.
    ///
    /// `pred` is asked about reductions of ranges `start..e` with `e > start`
    /// only, and about none where `start` is the length. The range that is
    /// returned was accepted unless it is empty, and the range that is longer
    /// by one item was rejected unless there is none. Where `pred` decides a
    /// predicate that is monotone, the end is the largest one on which it
    /// holds.
    pub fn max_end<P>(&self, start: usize, mut pred: P) -> (end: usize) where
        P: FnMut(&M::Item) -> bool,

        requires
            self.wf(),
            start <= self@.len(),
            forall|e: int|
                start < e <= self@.len() ==> call_requires(
                    pred,
                    (&#[trigger] reduce_range::<M>(self@, start as int, e),),
                ),
        ensures
            start <= end <= self@.len(),
            start < end ==> call_ensures(
                pred,
                (&reduce_range::<M>(self@, start as int, end as int),),
                true,
            ),
            end < self@.len() ==> call_ensures(
                pred,
                (&reduce_range::<M>(self@, start as int, end + 1),),
                false,
            ),
            forall|p: spec_fn(M::Item) -> bool|
                #[trigger] decides(pred, p) && monotone_from::<M>(p, self@, start as int)
                    ==> is_max_end::<M>(p, self@, start as int, end as int),
    {
        let mut acc = M::id();
        proof {
            assert forall|e: int| start < e <= self@.len() implies call_requires(
                pred,
                (&M::combine(acc, #[trigger] reduce_range::<M>(self@, start as int, e)),),
            ) by {
                M::lemma_left_identity(reduce_range::<M>(self@, start as int, e));
            }
        }
        let end = self.max_end_inner(start, &mut pred, &mut acc);
        proof {
            M::lemma_left_identity(reduce_range::<M>(self@, start as int, end as int));
            if end < self@.len() {
                lemma_reduce_range_push::<M>(self@, start as int, end as int);
            }
            assert forall|p: spec_fn(M::Item) -> bool|
                #[trigger] decides(pred, p) && monotone_from::<M>(
                    p,
                    self@,
                    start as int,
                ) implies is_max_end::<M>(p, self@, start as int, end as int) by {
                lemma_max_end_is_largest::<M>(p, self@, start as int, end as int);
            }
        }
        end
    }

    /// The search to the right within this subtree, from its position
    /// `start`. On entry `acc` is the reduction of what was accepted to the
    /// left of that position; on return it takes in what was accepted here.
    fn max_end_inner<P>(&self, start: usize, pred: &mut P, acc: &mut M::Item) -> (end: usize) where
        P: FnMut(&M::Item) -> bool,

        requires
            self.wf(),
            start <= self@.len(),
            forall|e: int|
                start < e <= self@.len() ==> call_requires(
                    *old(pred),
                    (&M::combine(*old(acc), #[trigger] reduce_range::<M>(self@, start as int, e)),),
                ),
        ensures
            *final(pred) == *old(pred),
            start <= end <= self@.len(),
            *final(acc) == M::combine(
                *old(acc),
                reduce_range::<M>(self@, start as int, end as int),
            ),
            start < end ==> call_ensures(*old(pred), (&*final(acc),), true),
            end < self@.len() ==> call_ensures(
                *old(pred),
                (&M::combine(*final(acc), self@[end as int]),),
                false,
            ),
        decreases self,
    {
        proof {
            self.lemma_wf();
            lemma_reduce_range_empty::<M>(self@, start as int);
            lemma_reduce_range_full::<M>(self@);
            M::lemma_right_identity(*acc);
        }
        if start == 0 {
            let all_merged = M::op(acc, self.val());
            if pred(&all_merged) {
                *acc = all_merged;
                return self.len();
            }
        }
        if start == self.len() {
            return self.len();
        }
        match self {
            Self::Leaf { val } => {
                proof {
                    lemma_reduce_single::<M>(*val);
                }
                0
            },
            Self::Node { left, right, len, .. } => {
                let mid = *len / 2;
                let ghost acc0 = *acc;
                if start < mid {
                    proof {
                        assert forall|e: int| start < e <= left@.len() implies call_requires(
                            *pred,
                            (&M::combine(
                                acc0,
                                #[trigger] reduce_range::<M>(left@, start as int, e),
                            ),),
                        ) by {
                            lemma_reduce_range_left::<M>(left@, right@, start as int, e);
                        }
                    }
                    let left_max = left.max_end_inner(start, pred, acc);
                    proof {
                        lemma_reduce_range_left::<M>(
                            left@,
                            right@,
                            start as int,
                            left_max as int,
                        );
                    }
                    if left_max < mid {
                        return left_max;
                    }
                }
                let from = start.max(mid) - mid;
                let ghost acc1 = *acc;
                proof {
                    assert forall|e: int| from < e <= right@.len() implies call_requires(
                        *pred,
                        (&M::combine(acc1, #[trigger] reduce_range::<M>(right@, from as int, e)),),
                    ) by {
                        if start < mid {
                            lemma_reduce_range_across::<M>(left@, right@, start as int, e);
                            M::lemma_associative(
                                acc0,
                                reduce_range::<M>(left@, start as int, mid as int),
                                reduce_range::<M>(right@, 0, e),
                            );
                        } else {
                            lemma_reduce_range_right::<M>(left@, right@, from as int, e);
                        }
                        assert(call_requires(
                            *pred,
                            (&M::combine(acc0, reduce_range::<M>(self@, start as int, e + mid)),),
                        ));
                    }
                }
                let right_max = right.max_end_inner(from, pred, acc);
                proof {
                    if start < mid {
                        lemma_reduce_range_across::<M>(left@, right@, start as int, right_max as int);
                        M::lemma_associative(
                            acc0,
                            reduce_range::<M>(left@, start as int, mid as int),
                            reduce_range::<M>(right@, 0, right_max as int),
                        );
                        if right_max == 0 {
                            lemma_reduce_range_empty::<M>(right@, 0);
                            M::lemma_right_identity(acc1);
                        }
                    } else {
                        lemma_reduce_range_right::<M>(left@, right@, from as int, right_max as int);
                    }
                }
                mid + right_max
            },
        }
    }

    /// Searches to the left of `end` for the start of the longest range on
    /// whose reduction `pred` answers `true`.
    ///
    /// `pred` is asked about reductions of ranges `b..end` with `b < end`
    /// only, and about none where `end` is 0. The range that is returned was
    /// accepted unless it is empty, and the range that is longer by one item
    /// was rejected unless there is none. Where `pred` decides a predicate
    /// that is monotone, the start is the smallest one on which it holds.
    pub fn min_start<P>(&self, end: usize, mut pred: P) -> (start: usize) where
        P: FnMut(&M::Item) -> bool,

        requires
            self.wf(),
            end <= self@.len(),
            forall|b: int|
                0 <= b < end ==> call_requires(
                    pred,
                    (&#[trigger] reduce_range::<M>(self@, b, end as int),),
                ),
        ensures
            start <= end,
            start < end ==> call_ensures(
                pred,
                (&reduce_range::<M>(self@, start as int, end as int),),
                true,
            ),
            0 < start ==> call_ensures(
                pred,
                (&reduce_range::<M>(self@, start - 1, end as int),),
                false,
            ),
            forall|p: spec_fn(M::Item) -> bool|
                #[trigger] decides(pred, p) && monotone_to::<M>(p, self@, end as int)
                    ==> is_min_start::<M>(p, self@, end as int, start as int),
    {
        let mut acc = M::id();
        proof {
            assert forall|b: int| 0 <= b < end implies call_requires(
                pred,
                (&M::combine(#[trigger] reduce_range::<M>(self@, b, end as int), acc),),
            ) by {
                M::lemma_right_identity(reduce_range::<M>(self@, b, end as int));
            }
        }
        let start = self.min_start_inner(end, &mut pred, &mut acc);
        proof {
            M::lemma_right_identity(reduce_range::<M>(self@, start as int, end as int));
            if 0 < start {
                lemma_reduce_range_push_front::<M>(self@, start - 1, end as int);
            }
            assert forall|p: spec_fn(M::Item) -> bool|
                #[trigger] decides(pred, p) && monotone_to::<M>(
                    p,
                    self@,
                    end as int,
                ) implies is_min_start::<M>(p, self@, end as int, start as int) by {
                lemma_min_start_is_smallest::<M>(p, self@, end as int, start as int);
            }
        }
        start
    }

    /// The search to the left within this subtree, from its position `end`.
    /// On entry `acc` is the reduction of what was accepted to the right of
    /// that position; on return it takes in what was accepted here.
    fn min_start_inner<P>(&self, end: usize, pred: &mut P, acc: &mut M::Item) -> (start: usize) where
        P: FnMut(&M::Item) -> bool,

        requires
            self.wf(),
            end <= self@.len(),
            forall|b: int|
                0 <= b < end ==> call_requires(
                    *old(pred),
                    (&M::combine(#[trigger] reduce_range::<M>(self@, b, end as int), *old(acc)),),
                ),
        ensures
            *final(pred) == *old(pred),
            start <= end,
            *final(acc) == M::combine(
                reduce_range::<M>(self@, start as int, end as int),
                *old(acc),
            ),
            start < end ==> call_ensures(*old(pred), (&*final(acc),), true),
            0 < start ==> call_ensures(
                *old(pred),
                (&M::combine(self@[start - 1], *final(acc)),),
                false,
            ),
        decreases self,
    {
        proof {
            self.lemma_wf();
            lemma_reduce_range_empty::<M>(self@, end as int);
            lemma_reduce_range_full::<M>(self@);
            M::lemma_left_identity(*acc);
        }
        if end == self.len() {
            let merged = M::op(self.val(), acc);
            if pred(&merged) {
                *acc = merged;
                return 0;
            }
        }
        if end == 0 {
            return 0;
        }
        match self {
            Self::Leaf { val } => {
                proof {
                    lemma_reduce_single::<M>(*val);
                }
                1
            },
            Self::Node { left, right, len, .. } => {
                let mid = *len / 2;
                let ghost acc0 = *acc;
                if mid <= end {
                    proof {
                        assert forall|b: int| 0 <= b < end - mid implies call_requires(
                            *pred,
                            (&M::combine(
                                #[trigger] reduce_range::<M>(right@, b, end - mid),
                                acc0,
                            ),),
                        ) by {
                            lemma_reduce_range_right::<M>(left@, right@, b, end - mid);
                            assert(call_requires(
                                *pred,
                                (&M::combine(
                                    reduce_range::<M>(self@, b + mid, end as int),
                                    acc0,
                                ),),
                            ));
                        }
                    }
                    let res_right = right.min_start_inner(end - mid, pred, acc);
                    proof {
                        lemma_reduce_range_right::<M>(
                            left@,
                            right@,
                            res_right as int,
                            end - mid,
                        );
                    }
                    if res_right > 0 {
                        return mid + res_right;
                    }
                }
                let to = end.min(mid);
                let ghost acc1 = *acc;
                proof {
                    assert forall|b: int| 0 <= b < to implies call_requires(
                        *pred,
                        (&M::combine(#[trigger] reduce_range::<M>(left@, b, to as int), acc1),),
                    ) by {
                        if mid <= end {
                            lemma_reduce_range_across::<M>(left@, right@, b, end - mid);
                            M::lemma_associative(
                                reduce_range::<M>(left@, b, mid as int),
                                reduce_range::<M>(right@, 0, end - mid),
                                acc0,
                            );
                        } else {
                            lemma_reduce_range_left::<M>(left@, right@, b, to as int);
                        }
                        assert(call_requires(
                            *pred,
                            (&M::combine(reduce_range::<M>(self@, b, end as int), acc0),),
                        ));
                    }
                }
                let res_left = left.min_start_inner(to, pred, acc);
                proof {
                    if mid <= end {
                        lemma_reduce_range_across::<M>(left@, right@, res_left as int, end - mid);
                        M::lemma_associative(
                            reduce_range::<M>(left@, res_left as int, mid as int),
                            reduce_range::<M>(right@, 0, end - mid),
                            acc0,
                        );
                        if res_left == mid {
                            lemma_reduce_range_empty::<M>(left@, mid as int);
                            M::lemma_left_identity(acc1);
                        }
                    } else {
                        lemma_reduce_range_left::<M>(left@, right@, res_left as int, to as int);
                    }
                }
                res_left
            },
        }
    }
}

} // verus!
