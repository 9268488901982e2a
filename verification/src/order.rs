//! A total preorder on keys, shared by the heap and the search tree.
//!
//! The relation is total and transitive but deliberately not antisymmetric:
//! two distinct keys may compare equivalent (a priority pair ignores its
//! payload, so pairs with equal priority are interchangeable under the order).

use vstd::prelude::*;

verus! {

/// Keys that carry a total preorder: any two keys are comparable, the
/// relation is transitive, and an executable comparison mirrors it.
pub trait TotalPreorder: Sized {
    /// `self` is no greater than `other`.
    spec fn le_spec(self, other: Self) -> bool;

    /// Any two keys are comparable.
    proof fn lemma_le_total(a: Self, b: Self)
        ensures
            a.le_spec(b) || b.le_spec(a),
    ;

    /// The order is transitive.
    proof fn lemma_le_trans(a: Self, b: Self, c: Self)
        requires
            a.le_spec(b),
            b.le_spec(c),
        ensures
            a.le_spec(c),
    ;

    /// Executable comparison, faithful to `le_spec`.
    fn le(&self, other: &Self) -> (r: bool)
        ensures
            r == self.le_spec(*other),
    ;
}

/// `a` is strictly below `b`: under a total preorder this is the negation of
/// `b.le_spec(a)`.
pub open spec fn lt_spec<T: TotalPreorder>(a: T, b: T) -> bool {
    !b.le_spec(a)
}

/// `a` and `b` are equivalent under the order (each is no greater than the
/// other). Distinct values may be equivalent.
pub open spec fn order_equiv<T: TotalPreorder>(a: T, b: T) -> bool {
    a.le_spec(b) && b.le_spec(a)
}

impl TotalPreorder for u32 {
    open spec fn le_spec(self, other: u32) -> bool {
        self <= other
    }

    proof fn lemma_le_total(a: u32, b: u32) {
    }

    proof fn lemma_le_trans(a: u32, b: u32, c: u32) {
    }

    fn le(&self, other: &u32) -> (r: bool) {
        *self <= *other
    }
}

impl TotalPreorder for i32 {
    open spec fn le_spec(self, other: i32) -> bool {
        self <= other
    }

    proof fn lemma_le_total(a: i32, b: i32) {
    }

    proof fn lemma_le_trans(a: i32, b: i32, c: i32) {
    }

    fn le(&self, other: &i32) -> (r: bool) {
        *self <= *other
    }
}

impl TotalPreorder for u64 {
    open spec fn le_spec(self, other: u64) -> bool {
        self <= other
    }

    proof fn lemma_le_total(a: u64, b: u64) {
    }

    proof fn lemma_le_trans(a: u64, b: u64, c: u64) {
    }

    fn le(&self, other: &u64) -> (r: bool) {
        *self <= *other
    }
}

impl TotalPreorder for usize {
    open spec fn le_spec(self, other: usize) -> bool {
        self <= other
    }

    proof fn lemma_le_total(a: usize, b: usize) {
    }

    proof fn lemma_le_trans(a: usize, b: usize, c: usize) {
    }

    fn le(&self, other: &usize) -> (r: bool) {
        *self <= *other
    }
}

} // verus!
