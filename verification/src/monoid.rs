//! The monoid abstraction that a segment tree is built over.

use vstd::prelude::*;

verus! {

/// An associative operation with an identity element.
///
/// `unit` and `combine` are the monoid as a mathematical object; `id` and
/// `op` compute them. The laws of a monoid are proof obligations of every
/// implementation, and so is the law that a clone of an item is that item:
/// whatever is proved of a tree rests on them.
pub trait Monoid {
    /// What the operation combines.
    type Item: Sized + Clone + core::fmt::Debug;

    /// The identity element.
    spec fn unit() -> Self::Item;

    /// The monoid operation.
    spec fn combine(a: Self::Item, b: Self::Item) -> Self::Item;

    /// `unit()` is a left identity of `combine`.
    proof fn lemma_left_identity(a: Self::Item)
        ensures
            Self::combine(Self::unit(), a) == a,
    ;

    /// `unit()` is a right identity of `combine`.
    proof fn lemma_right_identity(a: Self::Item)
        ensures
            Self::combine(a, Self::unit()) == a,
    ;

    /// `combine` is associative.
    proof fn lemma_associative(a: Self::Item, b: Self::Item, c: Self::Item)
        ensures
            Self::combine(Self::combine(a, b), c) == Self::combine(a, Self::combine(b, c)),
    ;

    /// Cloning an item yields an equal item.
    proof fn lemma_clone(a: Self::Item, b: Self::Item)
        requires
            cloned::<Self::Item>(a, b),
        ensures
            a == b,
    ;

    /// Makes the identity element.
    fn id() -> (r: Self::Item)
        ensures
            r == Self::unit(),
    ;

    /// Combines `a` and `b`, in this order.
    fn op(a: &Self::Item, b: &Self::Item) -> (r: Self::Item)
        ensures
            r == Self::combine(*a, *b),
    ;
}

/// Addition of `u64` values, with identity 0. A sum that does not fit in a
/// `u64` wraps around, which keeps the operation total and associative.
pub struct AddU64;

impl Monoid for AddU64 {
    type Item = u64;

    open spec fn unit() -> u64 {
        0
    }

    open spec fn combine(a: u64, b: u64) -> u64 {
        ((a + b) % 0x1_0000_0000_0000_0000) as u64
    }

    proof fn lemma_left_identity(a: u64) {
    }

    proof fn lemma_right_identity(a: u64) {
    }

    proof fn lemma_associative(a: u64, b: u64, c: u64) {
    }

    proof fn lemma_clone(a: u64, b: u64) {
    }

    fn id() -> u64 {
        0
    }

    fn op(a: &u64, b: &u64) -> u64 {
        a.wrapping_add(*b)
    }
}

} // verus!
