//! The tree itself: construction, point access and range folds.

use vstd::prelude::*;
use crate::monoid::Monoid;
use crate::reduction::{
    reduce,
    reduce_range,
    lemma_reduce_single,
    lemma_reduce_concat,
    lemma_reduce_range_empty,
    lemma_reduce_range_full,
    lemma_reduce_range_left,
    lemma_reduce_range_right,
    lemma_reduce_range_across,
};

verus! {

/// A segment tree over a sequence of `n >= 1` items of the monoid `M`.
///
/// A leaf stands for one slot of the sequence. A node stands for the slots of
/// its left child followed by those of its right child, and caches their
/// reduction in `val` and their number in `len`.
pub enum SegTree<M: Monoid> {
    Leaf { val: M::Item },
    Node { val: M::Item, len: usize, left: Box<SegTree<M>>, right: Box<SegTree<M>> },
}

impl<M: Monoid> View for SegTree<M> {
    type V = Seq<M::Item>;

    /// The items of the tree's leaves, from left to right.
    open spec fn view(&self) -> Seq<M::Item> {
        self.items()
    }
}

impl<M: Monoid> SegTree<M> {
    /// The items of the tree's leaves, from left to right.
    pub open spec fn items(self) -> Seq<M::Item>
        decreases self,
    {
        match self {
            SegTree::Leaf { val } => seq![val],
            SegTree::Node { left, right, .. } => left.items() + right.items(),
        }
    }

    /// The value cached at the root.
    pub open spec fn aggregate(self) -> M::Item {
        match self {
            SegTree::Leaf { val } => val,
            SegTree::Node { val, .. } => val,
        }
    }

    /// The tree is well formed: at every node the cached length is the number
    /// of leaves below it, the left child holds the first `len / 2` of them,
    /// and the cached value is the reduction of the leaves in order.
    pub open spec fn wf(self) -> bool
        decreases self,
    {
        match self {
            SegTree::Leaf { .. } => true,
            SegTree::Node { val, len, left, right } => {
                &&& left.wf()
                &&& right.wf()
                &&& len == left@.len() + right@.len()
                &&& left@.len() == len / 2
                &&& val == reduce::<M>(left@ + right@)
            },
        }
    }

    /// A well-formed tree is not empty, and its root caches the reduction of
    /// all its items.
    pub proof fn lemma_wf(self)
        requires
            self.wf(),
        ensures
            self@.len() >= 1,
            self.aggregate() == reduce::<M>(self@),
        decreases self,
    {
        match self {
            SegTree::Leaf { val } => {
                lemma_reduce_single::<M>(val);
            },
            SegTree::Node { left, right, .. } => {
                left.lemma_wf();
                right.lemma_wf();
            },
        }
    }

    /// The number of items.
    pub fn len(&self) -> (n: usize)
        requires
            self.wf(),
        ensures
            n == self@.len(),
            n >= 1,
    {
        proof {
            self.lemma_wf();
        }
        match self {
            Self::Leaf { .. } => 1,
            Self::Node { len, .. } => *len,
        }
    }

    /// The reduction of all items, as cached at the root.
    pub fn val(&self) -> (v: &M::Item)
        requires
            self.wf(),
        ensures
            *v == self.aggregate(),
            *v == reduce::<M>(self@),
    {
        proof {
            self.lemma_wf();
        }
        match self {
            Self::Leaf { val } => val,
            Self::Node { val, .. } => val,
        }
    }

    /// Builds the tree of `n` items that are all the identity.
    pub fn new(n: usize) -> (tree: Self)
        requires
            n >= 1,
        ensures
            tree.wf(),
            tree@ == Seq::new(n as nat, |i: int| M::unit()),
    {
        let items = vec![M::id(); n];
        proof {
            assert forall|i: int| 0 <= i < n implies items@[i] == M::unit() by {
                M::lemma_clone(M::unit(), items@[i]);
            }
            assert(items@ =~= Seq::new(n as nat, |i: int| M::unit()));
        }
        Self::from_slice(items.as_slice())
    }

    /// Builds the tree whose items are those of `slice`, in order.
    pub fn from_slice(slice: &[M::Item]) -> (tree: Self)
        requires
            slice@.len() >= 1,
        ensures
            tree.wf(),
            tree@ == slice@,
        decreases slice@.len(),
    {
        if slice.len() == 1 {
            let val = slice[0].clone();
            proof {
                M::lemma_clone(slice@[0], val);
                assert(seq![val] =~= slice@);
            }
            Self::Leaf { val }
        } else {
            let mid = slice.len() / 2;
            let left = Self::from_slice(&slice[0..mid]);
            let right = Self::from_slice(&slice[mid..slice.len()]);
            proof {
                assert(left@ + right@ =~= slice@);
                left.lemma_wf();
                right.lemma_wf();
                lemma_reduce_concat::<M>(left@, right@);
            }
            Self::Node {
                len: slice.len(),
                val: M::op(left.val(), right.val()),
                left: Box::new(left),
                right: Box::new(right),
            }
        }
    }

    /// Replaces the item at position `i` by `v`.
    pub fn set(&mut self, i: usize, v: M::Item)
        requires
            old(self).wf(),
            i < old(self)@.len(),
        ensures
            final(self).wf(),
            final(self)@ == old(self)@.update(i as int, v),
        decreases *old(self),
    {
        match self {
            Self::Leaf { val } => {
                *val = v;
                proof {
                    assert(seq![v] =~= seq![old(self)->Leaf_val].update(0, v));
                }
            },
            Self::Node { val, left, right, len } => {
                let mid = *len / 2;
                if i < mid {
                    left.set(i, v);
                } else {
                    right.set(i - mid, v);
                }
                *val = M::op(left.val(), right.val());
                proof {
                    lemma_reduce_concat::<M>(left@, right@);
                }
            },
        }
    }

    /// The item at position `i`.
    pub fn get(&self, i: usize) -> (item: &M::Item)
        requires
            self.wf(),
            i < self@.len(),
        ensures
            *item == self@[i as int],
        decreases self,
    {
        match self {
            Self::Leaf { val } => val,
            Self::Node { left, right, len, .. } => {
                let mid = *len / 2;
                if i < mid {
                    left.get(i)
                } else {
                    right.get(i - mid)
                }
            },
        }
    }

    /// The reduction of the items at positions `start..end`, from left to
    /// right; the identity where the range is empty.
    pub fn fold(&self, start: usize, end: usize) -> (r: M::Item)
        requires
            self.wf(),
            start <= end <= self@.len(),
        ensures
            r == reduce_range::<M>(self@, start as int, end as int),
            start == end ==> r == M::unit(),
        decreases self,
    {
        proof {
            lemma_reduce_range_empty::<M>(self@, start as int);
        }
        let len = end - start;
        if len == 0 {
            return M::id();
        } else if len == self.len() {
            let r = self.val().clone();
            proof {
                M::lemma_clone(self.aggregate(), r);
                lemma_reduce_range_full::<M>(self@);
            }
            return r;
        }
        match self {
            Self::Leaf { .. } => unreached(),
            Self::Node { left, right, len, .. } => {
                let mid = *len / 2;
                if end <= mid {
                    proof {
                        lemma_reduce_range_left::<M>(left@, right@, start as int, end as int);
                    }
                    left.fold(start, end)
                } else if mid <= start {
                    proof {
                        lemma_reduce_range_right::<M>(left@, right@, start - mid, end - mid);
                    }
                    right.fold(start - mid, end - mid)
                } else {
                    proof {
                        lemma_reduce_range_across::<M>(left@, right@, start as int, end - mid);
                    }
                    M::op(&left.fold(start, mid), &right.fold(0, end - mid))
                }
            },
        }
    }
}

} // verus!
