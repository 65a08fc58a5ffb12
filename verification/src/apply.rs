//! Functions as values: what a stream applies to its events. A closure is
//! one; so is a value of a type that implements the trait by hand, which can
//! keep a state and whose type can be written down.

use vstd::prelude::*;

verus! {

/// A function from `E` that may keep a state from one call to the next.
pub trait Mapper<E>: Sized {
    type Out;

    /// Whether the function may be called on `e`.
    spec fn accepts(&self, e: E) -> bool;

    /// What the function returns on `e`, and its state after the call.
    spec fn applied(&self, e: E) -> (Self::Out, Self);

    fn apply(&mut self, e: E) -> (r: Self::Out)
        requires
            old(self).accepts(e),
        ensures
            (r, *final(self)) == old(self).applied(e),
    ;
}

/// A closure maps where it may be called and what it returns is fixed; it
/// keeps no state.
impl<E, U, F: Fn(E) -> U> Mapper<E> for F {
    type Out = U;

    open spec fn accepts(&self, e: E) -> bool {
        &&& call_requires(*self, (e,))
        &&& forall|r1: U, r2: U|
            call_ensures(*self, (e,), r1) && call_ensures(*self, (e,), r2) ==> r1 == r2
    }

    open spec fn applied(&self, e: E) -> (U, Self) {
        (choose|r: U| call_ensures(*self, (e,), r), *self)
    }

    fn apply(&mut self, e: E) -> (r: U) {
        (*self)(e)
    }
}

/// A function that makes one value of two.
pub trait Reducer<E>: Sized {
    /// Whether the function may be called on `(a, b)`.
    spec fn accepts(&self, a: E, b: E) -> bool;

    /// What the function returns on `(a, b)`.
    spec fn reduced(&self, a: E, b: E) -> E;

    fn reduce(&self, a: E, b: E) -> (r: E)
        requires
            self.accepts(a, b),
        ensures
            r == self.reduced(a, b),
    ;
}

/// A closure reduces where it may be called and what it returns is fixed.
impl<E, F: Fn(E, E) -> E> Reducer<E> for F {
    open spec fn accepts(&self, a: E, b: E) -> bool {
        &&& call_requires(*self, (a, b))
        &&& forall|r1: E, r2: E|
            call_ensures(*self, (a, b), r1) && call_ensures(*self, (a, b), r2) ==> r1 == r2
    }

    open spec fn reduced(&self, a: E, b: E) -> E {
        choose|r: E| call_ensures(*self, (a, b), r)
    }

    fn reduce(&self, a: E, b: E) -> (r: E) {
        (*self)(a, b)
    }
}

/// The reducer that keeps the newer of two values.
pub struct Newest;

impl<E> Reducer<E> for Newest {
    open spec fn accepts(&self, a: E, b: E) -> bool {
        true
    }

    open spec fn reduced(&self, a: E, b: E) -> E {
        b
    }

    fn reduce(&self, a: E, b: E) -> (r: E) {
        b
    }
}

} // verus!
