//! Capability vectors: one capability per field, in the order of the schema.
//!
//! A vector is modelled as a `Seq<Capability>`. Two vectors belong to the same
//! schema only if they have the same length; every operation on two vectors
//! answers `SchemaMismatch` otherwise.

use vstd::prelude::*;
use crate::capability::{acquire, acquire_rest, merged, unify_field, BorrowError, Capability};

verus! {

/// The outcome of an operation on vectors, with the vector taken by its view.
pub open spec fn outcome(r: Result<Vec<Capability>, BorrowError>) -> Result<
    Seq<Capability>,
    BorrowError,
> {
    match r {
        Ok(v) => Ok(v@),
        Err(e) => Err(e),
    }
}

/// The vector of length `len` that holds `c` on every field.
pub open spec fn uniform(len: nat, c: Capability) -> Seq<Capability> {
    Seq::new(len, |i: int| c)
}

/// Field `i` of `source` cannot satisfy field `i` of `target`.
pub open spec fn conflict_at(source: Seq<Capability>, target: Seq<Capability>, i: int) -> bool {
    0 <= i < source.len() && i < target.len() && acquire_rest(source[i], target[i]) is None
}

/// Fields `i` of `a` and of `b` are both exclusive.
pub open spec fn both_exclusive_at(a: Seq<Capability>, b: Seq<Capability>, i: int) -> bool {
    0 <= i < a.len() && i < b.len() && a[i] == Capability::Exclusive && b[i]
        == Capability::Exclusive
}

/// Two views may live at once: no field is held exclusively by one of them
/// and held at all by the other.
pub open spec fn compatible(a: Seq<Capability>, b: Seq<Capability>) -> bool {
    &&& a.len() == b.len()
    &&& forall|i: int|
        0 <= i < a.len() ==> {
            &&& (#[trigger] a[i] == Capability::Exclusive ==> b[i] == Capability::Hidden)
            &&& (b[i] == Capability::Exclusive ==> a[i] == Capability::Hidden)
        }
}

/// Field `i` of `v`, where a field past the end counts as `Hidden`.
pub open spec fn field_or_hidden(v: Seq<Capability>, i: int) -> Capability {
    if 0 <= i < v.len() {
        v[i]
    } else {
        Capability::Hidden
    }
}

/// What remains of `source` once `target` has been split off: field by field
/// the rest of the acquisition. The whole split fails with `Conflict` as soon
/// as one field cannot satisfy its request.
pub open spec fn split_spec(source: Seq<Capability>, target: Seq<Capability>) -> Result<
    Seq<Capability>,
    BorrowError,
> {
    if source.len() != target.len() {
        Err(BorrowError::SchemaMismatch)
    } else if exists|i: int| conflict_at(source, target, i) {
        Err(BorrowError::Conflict)
    } else {
        Ok(Seq::new(source.len(), |i: int| acquire_rest(source[i], target[i]).unwrap()))
    }
}

/// The single vector that stands for `a` and `b` together: field by field the
/// merged capability. Two views that both hold a field exclusively overlap, and
/// joining them fails with `Conflict`.
pub open spec fn unify_spec(a: Seq<Capability>, b: Seq<Capability>) -> Result<
    Seq<Capability>,
    BorrowError,
> {
    if a.len() != b.len() {
        Err(BorrowError::SchemaMismatch)
    } else if exists|i: int| both_exclusive_at(a, b, i) {
        Err(BorrowError::Conflict)
    } else {
        Ok(Seq::new(a.len(), |i: int| merged(a[i], b[i])))
    }
}

/// The two vectors differ on some field, where a missing field counts as
/// `Hidden`.
pub open spec fn not_equal_spec(source: Seq<Capability>, target: Seq<Capability>) -> bool {
    exists|i: int| #[trigger] field_or_hidden(source, i) != field_or_hidden(target, i)
}

/// Builds the vector that holds `c` on each of `len` fields.
pub fn uniform_vector(len: usize, c: Capability) -> (v: Vec<Capability>)
    ensures
        v@ == uniform(len as nat, c),
{
    let mut v: Vec<Capability> = Vec::new();
    let mut i: usize = 0;
    while i < len
        invariant
            i <= len,
            v@.len() == i,
            forall|j: int| 0 <= j < i ==> #[trigger] v@[j] == c,
        decreases len - i,
    {
        v.push(c);
        i += 1;
    }
    assert(v@ =~= uniform(len as nat, c));
    v
}

/// Splits `target` off `source` and returns what remains to the holder of
/// `source`. Nothing is returned unless every field can satisfy its request.
pub fn split(source: &Vec<Capability>, target: &Vec<Capability>) -> (r: Result<
    Vec<Capability>,
    BorrowError,
>)
    ensures
        outcome(r) == split_spec(source@, target@),
        r matches Ok(rest) ==> forall|i: int|
            0 <= i < rest@.len() ==> (#[trigger] rest@[i]).strength() <= source@[i].strength(),
        r matches Ok(rest) ==> compatible(target@, rest@),
{
    if source.len() != target.len() {
        return Err(BorrowError::SchemaMismatch);
    }
    let mut rest: Vec<Capability> = Vec::new();
    let mut i: usize = 0;
    while i < source.len()
        invariant
            i <= source.len(),
            source.len() == target.len(),
            rest@.len() == i,
            forall|j: int|
                0 <= j < i ==> acquire_rest(source@[j], target@[j]) == Some(#[trigger] rest@[j]),
        decreases source.len() - i,
    {
        match acquire(source[i], target[i]) {
            Ok(c) => {
                rest.push(c);
            },
            Err(e) => {
                assert(conflict_at(source@, target@, i as int));
                return Err(e);
            },
        }
        i += 1;
    }
    proof {
        assert forall|j: int| !conflict_at(source@, target@, j) by {
            if 0 <= j < source@.len() {
                assert(acquire_rest(source@[j], target@[j]) == Some(rest@[j]));
            }
        }
        assert(rest@ =~= split_spec(source@, target@).unwrap());
        assert forall|j: int| 0 <= j < target@.len() implies {
            &&& (#[trigger] target@[j] == Capability::Exclusive ==> rest@[j] == Capability::Hidden)
            &&& (rest@[j] == Capability::Exclusive ==> target@[j] == Capability::Hidden)
        } by {
            assert(acquire_rest(source@[j], target@[j]) == Some(rest@[j]));
        }
    }
    Ok(rest)
}

/// Joins two vectors into the one that a single holder of both would have.
pub fn unify(a: &Vec<Capability>, b: &Vec<Capability>) -> (r: Result<
    Vec<Capability>,
    BorrowError,
>)
    ensures
        outcome(r) == unify_spec(a@, b@),
{
    if a.len() != b.len() {
        return Err(BorrowError::SchemaMismatch);
    }
    let mut joined: Vec<Capability> = Vec::new();
    let mut i: usize = 0;
    while i < a.len()
        invariant
            i <= a.len(),
            a.len() == b.len(),
            joined@.len() == i,
            forall|j: int| 0 <= j < i ==> !both_exclusive_at(a@, b@, j),
            forall|j: int| 0 <= j < i ==> #[trigger] joined@[j] == merged(a@[j], b@[j]),
        decreases a.len() - i,
    {
        let x = a[i];
        let y = b[i];
        if x == Capability::Exclusive && y == Capability::Exclusive {
            assert(both_exclusive_at(a@, b@, i as int));
            return Err(BorrowError::Conflict);
        }
        joined.push(unify_field(x, y));
        i += 1;
    }
    proof {
        assert(joined@ =~= Seq::new(a@.len(), |i: int| merged(a@[i], b@[i])));
    }
    Ok(joined)
}

/// Tells whether `target` asks for anything other than a restatement of
/// `source`.
pub fn not_equal(source: &Vec<Capability>, target: &Vec<Capability>) -> (r: bool)
    ensures
        r == not_equal_spec(source@, target@),
{
    let n = if source.len() >= target.len() {
        source.len()
    } else {
        target.len()
    };
    let mut i: usize = 0;
    while i < n
        invariant
            i <= n,
            n >= source.len(),
            n >= target.len(),
            forall|j: int|
                0 <= j < i ==> #[trigger] field_or_hidden(source@, j) == field_or_hidden(
                    target@,
                    j,
                ),
        decreases n - i,
    {
        let x = if i < source.len() {
            source[i]
        } else {
            Capability::Hidden
        };
        let y = if i < target.len() {
            target[i]
        } else {
            Capability::Hidden
        };
        if x != y {
            assert(field_or_hidden(source@, i as int) != field_or_hidden(target@, i as int));
            return true;
        }
        i += 1;
    }
    proof {
        assert forall|j: int|
            #[trigger] field_or_hidden(source@, j) == field_or_hidden(target@, j) by {
            if 0 <= j < n {
            } else {
            }
        }
    }
    false
}

} // verus!
