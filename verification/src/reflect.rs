//! The fields of a record as a type-level list.

use vstd::prelude::*;
use crate::hlist::ItemAt;

verus! {

/// A record type whose field types are known as a list.
pub trait HasFields {
    /// The list of the field types, in declaration order.
    type Fields;
}

/// The list of the field types of `T`.
pub type Fields<T> = <T as HasFields>::Fields;

/// The type of field `N` of `T`.
pub type FieldAt<N, T> = ItemAt<N, Fields<T>>;

/// A type that can be rebuilt over another list of field types.
pub trait ReplaceFields<Fields> {
    /// The same type over `Fields`.
    type Result;
}

/// The type `T` rebuilt over the field types `Fields`.
pub type ReplacedFields<T, Fields> = <T as ReplaceFields<Fields>>::Result;

} // verus!
