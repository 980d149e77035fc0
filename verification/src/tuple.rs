//! Picking an element of a tuple by a position that is part of the type.

use vstd::prelude::*;

verus! {

/// A value that has an element at position `I`.
pub trait StaticIndexable<const I: usize> {
    type Output;

    /// The element at position `I`.
    spec fn element(&self) -> Self::Output;

    fn get(&self) -> (out: &Self::Output)
        ensures
            *out == self.element(),
    ;
}

impl<A> StaticIndexable<0> for (A,) {
    type Output = A;

    open spec fn element(&self) -> A {
        self.0
    }

    fn get(&self) -> (out: &A) {
        &self.0
    }
}

impl<A, B> StaticIndexable<0> for (A, B) {
    type Output = A;

    open spec fn element(&self) -> A {
        self.0
    }

    fn get(&self) -> (out: &A) {
        &self.0
    }
}

impl<A, B> StaticIndexable<1> for (A, B) {
    type Output = B;

    open spec fn element(&self) -> B {
        self.1
    }

    fn get(&self) -> (out: &B) {
        &self.1
    }
}

impl<A, B, C> StaticIndexable<0> for (A, B, C) {
    type Output = A;

    open spec fn element(&self) -> A {
        self.0
    }

    fn get(&self) -> (out: &A) {
        &self.0
    }
}

impl<A, B, C> StaticIndexable<1> for (A, B, C) {
    type Output = B;

    open spec fn element(&self) -> B {
        self.1
    }

    fn get(&self) -> (out: &B) {
        &self.1
    }
}

impl<A, B, C> StaticIndexable<2> for (A, B, C) {
    type Output = C;

    open spec fn element(&self) -> C {
        self.2
    }

    fn get(&self) -> (out: &C) {
        &self.2
    }
}

impl<A, B, C, D> StaticIndexable<0> for (A, B, C, D) {
    type Output = A;

    open spec fn element(&self) -> A {
        self.0
    }

    fn get(&self) -> (out: &A) {
        &self.0
    }
}

impl<A, B, C, D> StaticIndexable<1> for (A, B, C, D) {
    type Output = B;

    open spec fn element(&self) -> B {
        self.1
    }

    fn get(&self) -> (out: &B) {
        &self.1
    }
}

impl<A, B, C, D> StaticIndexable<2> for (A, B, C, D) {
    type Output = C;

    open spec fn element(&self) -> C {
        self.2
    }

    fn get(&self) -> (out: &C) {
        &self.2
    }
}

impl<A, B, C, D> StaticIndexable<3> for (A, B, C, D) {
    type Output = D;

    open spec fn element(&self) -> D {
        self.3
    }

    fn get(&self) -> (out: &D) {
        &self.3
    }
}

} // verus!
