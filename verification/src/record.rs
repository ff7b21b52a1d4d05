//! Views of a record: a schema together with the capabilities held on it.
//!
//! A view never owns the record and never touches its data. A view derived
//! from another one borrows its parent mutably, so the parent cannot be used
//! again before every view derived from it is gone: extents nest like a stack.

use vstd::prelude::*;
use crate::capability::{BorrowError, Capability};
use crate::schema::Schema;
use crate::vector::{
    compatible, not_equal, not_equal_spec, outcome, split, split_spec, unify, unify_spec,
    uniform, uniform_vector,
};

verus! {

/// A projection of one record, described by one capability per field.
#[derive(Debug)]
pub struct RecordView<'a> {
    schema: &'a Schema,
    vector: Vec<Capability>,
}

impl<'a> View for RecordView<'a> {
    type V = Seq<Capability>;

    /// The capabilities of the view, in the order of the schema.
    closed spec fn view(&self) -> Seq<Capability> {
        self.vector@
    }
}

/// The vector that hides every field but field `i`, which it holds
/// exclusively.
pub open spec fn only_exclusive(len: nat, i: int) -> Seq<Capability> {
    uniform(len, Capability::Hidden).update(i, Capability::Exclusive)
}

/// What a checked borrow of `target` from a view that holds `source` leaves
/// to the holder of `source`. A request of another length is a
/// `SchemaMismatch`, one that restates `source` an `IdentityBorrow`, and one
/// that `source` cannot satisfy a `Conflict`.
pub open spec fn borrow_spec(source: Seq<Capability>, target: Seq<Capability>) -> Result<
    Seq<Capability>,
    BorrowError,
> {
    if source.len() != target.len() {
        Err(BorrowError::SchemaMismatch)
    } else if !not_equal_spec(source, target) {
        Err(BorrowError::IdentityBorrow)
    } else {
        split_spec(source, target)
    }
}

/// The two schemas describe one record shape.
pub open spec fn same_shape(a: Schema, b: Schema) -> bool {
    a.names() == b.names() && a.types() == b.types()
}

/// What joining a view that holds `a` with one that holds `b` gives.
pub open spec fn union_spec(
    shape_a: Schema,
    a: Seq<Capability>,
    shape_b: Schema,
    b: Seq<Capability>,
) -> Result<Seq<Capability>, BorrowError> {
    if !same_shape(shape_a, shape_b) {
        Err(BorrowError::SchemaMismatch)
    } else {
        unify_spec(a, b)
    }
}

impl<'a> RecordView<'a> {
    /// The schema of the record that the view projects.
    pub closed spec fn shape(&self) -> Schema {
        *self.schema
    }

    /// A view holds exactly one capability for each field of its schema.
    #[verifier::type_invariant]
    pub open spec fn wf(&self) -> bool {
        self@.len() == self.shape().names().len()
    }

    /// Projects a whole record with the capabilities in `vector`, which is
    /// refused unless it has one entry for each field.
    pub fn as_view(schema: &'a Schema, vector: Vec<Capability>) -> (r: Result<
        RecordView<'a>,
        BorrowError,
    >)
        ensures
            match r {
                Ok(v) => vector@.len() == schema.names().len() && v@ == vector@ && v.shape()
                    == *schema,
                Err(e) => vector@.len() != schema.names().len() && e
                    == BorrowError::SchemaMismatch,
            },
    {
        if vector.len() != schema.len() {
            return Err(BorrowError::SchemaMismatch);
        }
        Ok(RecordView { schema, vector })
    }

    /// Projects a whole record with the same capability on every field.
    pub fn whole(schema: &'a Schema, capability: Capability) -> (v: RecordView<'a>)
        ensures
            v@ == uniform(schema.names().len(), capability),
            v.shape() == *schema,
    {
        let vector = uniform_vector(schema.len(), capability);
        RecordView { schema, vector }
    }

    /// The schema of the record.
    pub fn schema(&self) -> (s: &'a Schema)
        ensures
            *s == self.shape(),
    {
        self.schema
    }

    /// The capabilities of the view, in the order of the schema.
    pub fn vector(&self) -> (v: &Vec<Capability>)
        ensures
            v@ == self@,
            v@.len() == self.shape().names().len(),
    {
        proof {
            use_type_invariant(self);
        }
        &self.vector
    }

    /// The capability held on the field called `name`; `None` if the record
    /// has no such field.
    pub fn capability_of(&self, name: &str) -> (r: Option<Capability>)
        ensures
            match r {
                Some(c) => exists|i: int|
                    0 <= i < self@.len() && #[trigger] self.shape().names()[i] == name@ && self@[i]
                        == c,
                None => !self.shape().names().contains(name@),
            },
    {
        proof {
            use_type_invariant(self);
        }
        match self.schema.index_of(name) {
            Some(i) => Some(self.vector[i]),
            None => None,
        }
    }

    /// Borrows the capabilities `target` from this view. The new view holds
    /// exactly `target`, which never overlaps with what the split leaves to
    /// this view. This view stays borrowed, and so out of use, for as long as
    /// the new one lives, and is unchanged afterwards. A `target` that
    /// restates this view is refused: use the view itself.
    pub fn borrow<'b>(&'b mut self, target: &Vec<Capability>) -> (r: Result<
        RecordView<'b>,
        BorrowError,
    >)
        ensures
            *final(self) == *old(self),
            match borrow_spec(old(self)@, target@) {
                Ok(rest) => r matches Ok(v) && v@ == target@ && v.shape() == old(self).shape()
                    && compatible(v@, rest),
                Err(e) => r matches Err(f) && f == e,
            },
    {
        proof {
            use_type_invariant(&*self);
        }
        match checked_split(&self.vector, target) {
            Ok(_) => Ok(RecordView { schema: self.schema, vector: copy_vector(target) }),
            Err(e) => Err(e),
        }
    }

    /// Borrows the capabilities `target` from this view as `borrow` does, but
    /// also where `target` restates this view.
    pub fn borrow_or_identity<'b>(&'b mut self, target: &Vec<Capability>) -> (r: Result<
        RecordView<'b>,
        BorrowError,
    >)
        ensures
            *final(self) == *old(self),
            match split_spec(old(self)@, target@) {
                Ok(rest) => r matches Ok(v) && v@ == target@ && v.shape() == old(self).shape()
                    && compatible(v@, rest),
                Err(e) => r matches Err(f) && f == e,
            },
    {
        proof {
            use_type_invariant(&*self);
        }
        match split(&self.vector, target) {
            Ok(_) => Ok(RecordView { schema: self.schema, vector: copy_vector(target) }),
            Err(e) => Err(e),
        }
    }

    /// Splits this view into a view that holds `target` and a view that holds
    /// what remains, under the conditions of `borrow`. Both live at once;
    /// this view stays out of use until both are gone.
    pub fn split_and_remainder<'b>(&'b mut self, target: &Vec<Capability>) -> (r: Result<
        (RecordView<'b>, RecordView<'b>),
        BorrowError,
    >)
        ensures
            *final(self) == *old(self),
            match borrow_spec(old(self)@, target@) {
                Ok(rest) => r matches Ok((taken, left)) && taken@ == target@ && left@ == rest
                    && taken.shape() == old(self).shape() && left.shape() == old(self).shape()
                    && compatible(taken@, left@),
                Err(e) => r matches Err(f) && f == e,
            },
    {
        proof {
            use_type_invariant(&*self);
        }
        match checked_split(&self.vector, target) {
            Ok(rest) => Ok(
                (
                    RecordView { schema: self.schema, vector: copy_vector(target) },
                    RecordView { schema: self.schema, vector: rest },
                ),
            ),
            Err(e) => Err(e),
        }
    }

    /// Splits the field called `name` off this view, exclusively, as
    /// `split_and_remainder` does: the first view returned holds that field
    /// alone, the second what remains.
    pub fn extract_field<'b>(&'b mut self, name: &str) -> (r: Result<
        (RecordView<'b>, RecordView<'b>),
        BorrowError,
    >)
        ensures
            *final(self) == *old(self),
            !old(self).shape().names().contains(name@) ==> (r matches Err(e) && e
                == BorrowError::UnknownField),
            forall|i: int|
                0 <= i < old(self)@.len() && #[trigger] old(self).shape().names()[i] == name@
                    ==> match borrow_spec(old(self)@, only_exclusive(old(self)@.len(), i)) {
                    Ok(rest) => r matches Ok((taken, left)) && taken@ == only_exclusive(
                        old(self)@.len(),
                        i,
                    ) && left@ == rest && taken.shape() == old(self).shape() && left.shape()
                        == old(self).shape() && compatible(taken@, left@),
                    Err(e) => r matches Err(f) && f == e,
                },
    {
        proof {
            use_type_invariant(&*self);
            use_type_invariant(self.schema);
        }
        let n = self.vector.len();
        match self.schema.index_of(name) {
            None => Err(BorrowError::UnknownField),
            Some(i) => {
                let mut target = uniform_vector(n, Capability::Hidden);
                target.set(i, Capability::Exclusive);
                assert(target@ == only_exclusive(n as nat, i as int));
                proof {
                    let names = self.shape().names();
                    assert forall|j: int| 0 <= j < n && #[trigger] names[j] == name@ implies j
                        == i by {
                        if j < i {
                            assert(names[j] != names[i as int]);
                        } else if i < j {
                            assert(names[i as int] != names[j]);
                        }
                    }
                }
                match checked_split(&self.vector, &target) {
                    Ok(rest) => Ok(
                        (
                            RecordView { schema: self.schema, vector: target },
                            RecordView { schema: self.schema, vector: rest },
                        ),
                    ),
                    Err(e) => Err(e),
                }
            },
        }
    }

    /// Joins two views of one record shape into a single view that holds, on
    /// each field, the stronger of the two capabilities. Two views that both
    /// hold a field exclusively cannot be joined.
    pub fn union(self, other: RecordView<'a>) -> (r: Result<RecordView<'a>, BorrowError>)
        ensures
            match union_spec(self.shape(), self@, other.shape(), other@) {
                Ok(joined) => r matches Ok(v) && v@ == joined && v.shape() == self.shape(),
                Err(e) => r matches Err(f) && f == e,
            },
    {
        proof {
            use_type_invariant(&self);
            use_type_invariant(&other);
        }
        if !self.schema.same_as(other.schema) {
            return Err(BorrowError::SchemaMismatch);
        }
        match unify(&self.vector, &other.vector) {
            Ok(joined) => Ok(RecordView { schema: self.schema, vector: joined }),
            Err(e) => Err(e),
        }
    }
}

/// Splits `target` off `source` unless it restates `source`.
fn checked_split(source: &Vec<Capability>, target: &Vec<Capability>) -> (r: Result<
    Vec<Capability>,
    BorrowError,
>)
    ensures
        outcome(r) == borrow_spec(source@, target@),
        r matches Ok(rest) ==> compatible(target@, rest@),
{
    if source.len() != target.len() {
        return Err(BorrowError::SchemaMismatch);
    }
    if !not_equal(source, target) {
        return Err(BorrowError::IdentityBorrow);
    }
    split(source, target)
}

/// Copies a capability vector.
fn copy_vector(v: &Vec<Capability>) -> (r: Vec<Capability>)
    ensures
        r@ == v@,
{
    let mut r: Vec<Capability> = Vec::new();
    let mut i: usize = 0;
    while i < v.len()
        invariant
            i <= v@.len(),
            r@.len() == i,
            forall|j: int| 0 <= j < i ==> #[trigger] r@[j] == v@[j],
        decreases v@.len() - i,
    {
        r.push(v[i]);
        i += 1;
    }
    assert(r@ =~= v@);
    r
}

} // verus!
