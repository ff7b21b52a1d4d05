//! Natural numbers and heterogeneous lists at the type level.
//!
//! The fields of a record, taken as types, form such a list, and a type-level
//! number picks one of them out.

use vstd::prelude::*;

verus! {

/// The number zero.
pub struct Zero;

/// The number after `N`.
pub struct Succ<N: Nat>(N);

/// A natural number written as a type.
pub trait Nat {

}

impl Nat for Zero {

}

impl<N: Nat> Nat for Succ<N> {

}

pub type N0 = Zero;

pub type N1 = Succ<N0>;

pub type N2 = Succ<N1>;

pub type N3 = Succ<N2>;

pub type N4 = Succ<N3>;

pub type N5 = Succ<N4>;

pub type N6 = Succ<N5>;

pub type N7 = Succ<N6>;

pub type N8 = Succ<N7>;

pub type N9 = Succ<N8>;

/// A list that starts with a value of type `H` and goes on with the list `T`.
#[derive(Clone, Copy, Debug)]
pub struct Cons<H, T> {
    pub head: H,
    pub tail: T,
}

/// The empty list.
#[derive(Clone, Copy, Debug)]
pub struct Nil;

/// A list that has an item at position `N`.
pub trait Index<N: Nat> {
    /// The type of that item.
    type Item;
}

impl<H, T> Index<Zero> for Cons<H, T> {
    type Item = H;
}

impl<H, T, N: Nat> Index<Succ<N>> for Cons<H, T> where T: Index<N> {
    type Item = <T as Index<N>>::Item;
}

/// The type of the item at position `N` of the list `T`.
pub type ItemAt<N, T> = <T as Index<N>>::Item;

} // verus!
