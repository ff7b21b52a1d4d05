//! The access level of a single field, and the two tables over it.

use vstd::prelude::*;

verus! {

/// Access that a view holds on one field.
#[derive(Clone, Copy, Debug, PartialEq, Eq, Structural, Hash)]
pub enum Capability {
    /// No access: the field may be held exclusively elsewhere.
    Hidden,
    /// Read-only access, which any number of holders may have at once.
    Shared,
    /// Read-write access, which excludes every other holder.
    Exclusive,
}

/// Why a request on capabilities was turned down.
#[derive(Clone, Copy, Debug, PartialEq, Eq, Structural, Hash)]
pub enum BorrowError {
    /// The request asks for more than is held, or two views claim the same
    /// field exclusively.
    Conflict,
    /// The request restates exactly what the source already holds.
    IdentityBorrow,
    /// A selector names a field that the schema does not have.
    UnknownField,
    /// Two capability vectors do not belong to the same schema.
    SchemaMismatch,
}

impl Capability {
    /// Position in the order `Hidden < Shared < Exclusive`.
    pub open spec fn strength(self) -> nat {
        match self {
            Capability::Hidden => 0,
            Capability::Shared => 1,
            Capability::Exclusive => 2,
        }
    }

    /// Position in the order `Hidden < Shared < Exclusive`.
    pub fn rank(self) -> (r: u8)
        ensures
            r as nat == self.strength(),
    {
        match self {
            Capability::Hidden => 0,
            Capability::Shared => 1,
            Capability::Exclusive => 2,
        }
    }
}

/// What is left to a holder of `held` once `requested` has been handed out,
/// or `None` where `held` cannot satisfy `requested`.
pub open spec fn acquire_rest(held: Capability, requested: Capability) -> Option<Capability> {
    match (held, requested) {
        (_, Capability::Hidden) => Some(held),
        (Capability::Exclusive, Capability::Exclusive) => Some(Capability::Hidden),
        (Capability::Exclusive, Capability::Shared) => Some(Capability::Shared),
        (Capability::Shared, Capability::Shared) => Some(Capability::Shared),
        (Capability::Hidden, _) => None,
        (Capability::Shared, Capability::Exclusive) => None,
    }
}

/// The capability of a single holder that stands for the two holders `a` and
/// `b` together: the stronger of the two.
pub open spec fn merged(a: Capability, b: Capability) -> Capability {
    match (a, b) {
        (Capability::Hidden, _) => b,
        (_, Capability::Hidden) => a,
        (Capability::Shared, Capability::Shared) => Capability::Shared,
        (Capability::Exclusive, _) => Capability::Exclusive,
        (_, Capability::Exclusive) => Capability::Exclusive,
    }
}

/// Decides whether a holder of `held` can hand out `requested`, and what the
/// holder keeps.
pub fn acquire(held: Capability, requested: Capability) -> (r: Result<Capability, BorrowError>)
    ensures
        match acquire_rest(held, requested) {
            Some(rest) => r == Ok::<Capability, BorrowError>(rest),
            None => r == Err::<Capability, BorrowError>(BorrowError::Conflict),
        },
        r matches Ok(rest) ==> rest.strength() <= held.strength(),
{
    match requested {
        Capability::Hidden => Ok(held),
        Capability::Shared => match held {
            Capability::Hidden => Err(BorrowError::Conflict),
            _ => Ok(Capability::Shared),
        },
        Capability::Exclusive => match held {
            Capability::Exclusive => Ok(Capability::Hidden),
            _ => Err(BorrowError::Conflict),
        },
    }
}

/// Merges the capabilities that two holders have on one field.
pub fn unify_field(a: Capability, b: Capability) -> (r: Capability)
    ensures
        r == merged(a, b),
{
    match a {
        Capability::Hidden => b,
        Capability::Exclusive => Capability::Exclusive,
        Capability::Shared => match b {
            Capability::Exclusive => Capability::Exclusive,
            _ => Capability::Shared,
        },
    }
}

/// The rest that `acquire` leaves is never stronger than what was held.
pub proof fn lemma_acquire_monotone(held: Capability, requested: Capability)
    ensures
        acquire_rest(held, requested) matches Some(rest) ==> rest.strength() <= held.strength(),
{
}

/// A request can be met exactly when it is no stronger than what is held.
pub proof fn lemma_acquire_defined(held: Capability, requested: Capability)
    ensures
        acquire_rest(held, requested) is Some <==> requested.strength() <= held.strength(),
{
}

/// A holder loses a field altogether only by handing it out exclusively, and
/// gains nothing by handing anything out.
pub proof fn lemma_rest_hidden_only_by_exclusive(held: Capability, requested: Capability)
    requires
        acquire_rest(held, requested) is Some,
    ensures
        acquire_rest(held, requested) == Some(Capability::Hidden) <==> held == Capability::Hidden
            || requested == Capability::Exclusive,
        held == Capability::Hidden ==> acquire_rest(held, requested) == Some(Capability::Hidden),
{
}

/// Merging does not depend on the order of the two holders.
pub proof fn lemma_merged_commutative(a: Capability, b: Capability)
    ensures
        merged(a, b) == merged(b, a),
{
}

/// The merged capability is the stronger of the two.
pub proof fn lemma_merged_is_max(a: Capability, b: Capability)
    ensures
        merged(a, b).strength() == if a.strength() >= b.strength() {
            a.strength()
        } else {
            b.strength()
        },
{
}

/// Merging the rest of an acquisition with what was handed out gives back
/// what was held, except where an exclusive holder handed out shared access:
/// both sides then hold `Shared`, and so does their merge.
pub proof fn lemma_acquire_then_merge(held: Capability, requested: Capability)
    requires
        acquire_rest(held, requested) is Some,
        !(held == Capability::Exclusive && requested == Capability::Shared),
    ensures
        merged(acquire_rest(held, requested).unwrap(), requested) == held,
{
}

/// Once a field has been handed out exclusively, the rest hides it, and
/// nothing but `Hidden` can be acquired from the rest.
pub proof fn lemma_exclusive_leaves_nothing(
    held: Capability,
    first: Capability,
    second: Capability,
)
    requires
        acquire_rest(held, first) is Some,
        acquire_rest(acquire_rest(held, first).unwrap(), second) is Some,
        first == Capability::Exclusive,
    ensures
        second == Capability::Hidden,
{
}

} // verus!
