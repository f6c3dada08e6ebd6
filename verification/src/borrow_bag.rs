//! A type-indexed append-only bag built from nested tuples: adding an
//! element yields a handle whose type encodes the path back to it, so
//! borrowing is checked entirely at compile time.

use vstd::prelude::*;
use core::marker::PhantomData;

verus! {

/// Path step: pass over the head element.
pub struct Skip;

/// Path step: take the head element.
pub struct Take;

/// A typed path to an element of type `T` added to the bag; `N` encodes the
/// navigation steps.
pub struct Handle<T, N> {
    phantom: PhantomData<(T, N)>,
}

/// A fresh handle for the element just added.
fn new_handle<T, N>() -> Handle<T, N> {
    Handle { phantom: PhantomData }
}

/// Navigating a bag to borrow the element of type `T` along path `N`.
pub trait Lookup<T, N> {
    /// The element the path reaches.
    spec fn spec_get(&self) -> T;

    /// Borrow the element the path reaches.
    fn get_from(&self) -> (r: &T)
        ensures
            *r == self.spec_get(),
    ;
}

impl<T, V> Lookup<T, Take> for (T, V) {
    open spec fn spec_get(&self) -> T {
        self.0
    }

    fn get_from(&self) -> (r: &T) {
        &self.0
    }
}

impl<T, U, V: Lookup<T, N>, N> Lookup<T, (Skip, N)> for (U, V) {
    open spec fn spec_get(&self) -> T {
        self.1.spec_get()
    }

    fn get_from(&self) -> (r: &T) {
        self.1.get_from()
    }
}

/// Describes the result of appending `T` to the bag: the new bag type, and
/// the navigation path of the added element.
pub trait Append<T>: Sized {
    /// The bag type after adding an element of type `T`.
    type Output: PrefixedWith<Self> + Lookup<T, Self::Navigator>;

    /// The path along which the added element is borrowed back.
    type Navigator;

    /// The bag value after adding `t`.
    spec fn spec_append(self, t: T) -> Self::Output;

    /// Append the element, handing back the new bag and a handle to borrow
    /// the element back.
    fn append(self, t: T) -> (r: (Self::Output, Handle<T, Self::Navigator>))
        ensures
            r.0 == self.spec_append(t),
            r.0.spec_get() == t,
    ;
}

impl<T> Append<T> for () {
    type Output = (T, ());

    type Navigator = Take;

    open spec fn spec_append(self, t: T) -> (T, ()) {
        (t, ())
    }

    fn append(self, t: T) -> (r: ((T, ()), Handle<T, Take>)) {
        ((t, ()), new_handle())
    }
}

impl<T, U, V: Append<T>> Append<T> for (U, V) {
    type Output = (U, V::Output);

    type Navigator = (Skip, V::Navigator);

    open spec fn spec_append(self, t: T) -> (U, V::Output) {
        (self.0, self.1.spec_append(t))
    }

    fn append(self, t: T) -> (r: ((U, V::Output), Handle<T, (Skip, V::Navigator)>)) {
        let (u, v) = self;
        ((u, v.append(t).0), new_handle())
    }
}

/// Witness that the existing elements keep their positions, so handles into
/// the old bag stay valid for the new one.
pub trait PrefixedWith<T: ?Sized> {

}

impl<U> PrefixedWith<()> for (U, ()) {

}

impl<U, T, V: PrefixedWith<T>> PrefixedWith<(U, T)> for (U, V) {

}

} // verus!
