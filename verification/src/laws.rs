//! What holds of the operations on capability vectors, whatever the vectors.

use vstd::prelude::*;
use crate::capability::{acquire_rest, merged, BorrowError, Capability};
use crate::record::borrow_spec;
use crate::vector::{
    both_exclusive_at, compatible, conflict_at, field_or_hidden, not_equal_spec, split_spec,
    unify_spec, uniform,
};

verus! {

/// Field `i` of `source` is exclusive and field `i` of `target` asks to share
/// it: the one request after which both sides hold `Shared`.
pub open spec fn downgraded_at(source: Seq<Capability>, target: Seq<Capability>, i: int) -> bool {
    0 <= i < source.len() && i < target.len() && source[i] == Capability::Exclusive && target[i]
        == Capability::Shared
}

/// Each field of a successful split is the rest of its acquisition.
pub proof fn lemma_split_fieldwise(source: Seq<Capability>, target: Seq<Capability>, i: int)
    requires
        split_spec(source, target) is Ok,
        0 <= i < source.len(),
    ensures
        source.len() == target.len(),
        split_spec(source, target).unwrap().len() == source.len(),
        acquire_rest(source[i], target[i]) == Some(split_spec(source, target).unwrap()[i]),
{
    assert(!conflict_at(source, target, i));
}

/// A split succeeds exactly when the vectors have one length and no field
/// asks for more than the source holds.
pub proof fn lemma_split_succeeds_iff(source: Seq<Capability>, target: Seq<Capability>)
    ensures
        split_spec(source, target) is Ok <==> source.len() == target.len() && forall|i: int|
            0 <= i < source.len() ==> (#[trigger] target[i]).strength() <= source[i].strength(),
{
    if source.len() == target.len() {
        if split_spec(source, target) is Ok {
            assert forall|i: int| 0 <= i < source.len() implies (#[trigger] target[i]).strength()
                <= source[i].strength() by {
                assert(!conflict_at(source, target, i));
            }
        }
        if forall|i: int|
            0 <= i < source.len() ==> (#[trigger] target[i]).strength() <= source[i].strength() {
            assert forall|i: int| !conflict_at(source, target, i) by {
                if 0 <= i < source.len() {
                    assert(target[i].strength() <= source[i].strength());
                }
            }
        }
    }
}

/// Joining the rest of a split with the target that was split off gives the
/// source back, provided that no exclusive field was handed out as shared.
pub proof fn lemma_split_unify_round_trip(source: Seq<Capability>, target: Seq<Capability>)
    requires
        split_spec(source, target) is Ok,
        forall|i: int| !downgraded_at(source, target, i),
    ensures
        unify_spec(split_spec(source, target).unwrap(), target) == Ok::<
            Seq<Capability>,
            BorrowError,
        >(source),
{
    let rest = split_spec(source, target).unwrap();
    assert forall|i: int| !both_exclusive_at(rest, target, i) by {
        if 0 <= i < source.len() {
            lemma_split_fieldwise(source, target, i);
        }
    }
    let joined = unify_spec(rest, target).unwrap();
    assert forall|i: int| 0 <= i < source.len() implies joined[i] == source[i] by {
        lemma_split_fieldwise(source, target, i);
        assert(!downgraded_at(source, target, i));
    }
    assert(joined =~= source);
}

/// Joining the rest of any successful split with its target succeeds, and
/// gives the source back on every field but those where an exclusive field was
/// handed out as shared: there the join holds `Shared`.
pub proof fn lemma_split_then_unify(source: Seq<Capability>, target: Seq<Capability>)
    requires
        split_spec(source, target) is Ok,
    ensures
        unify_spec(split_spec(source, target).unwrap(), target) is Ok,
        unify_spec(split_spec(source, target).unwrap(), target).unwrap().len() == source.len(),
        forall|i: int|
            0 <= i < source.len() ==> #[trigger] unify_spec(
                split_spec(source, target).unwrap(),
                target,
            ).unwrap()[i] == if downgraded_at(source, target, i) {
                Capability::Shared
            } else {
                source[i]
            },
{
    let rest = split_spec(source, target).unwrap();
    assert forall|i: int| !both_exclusive_at(rest, target, i) by {
        if 0 <= i < source.len() {
            lemma_split_fieldwise(source, target, i);
        }
    }
    let joined = unify_spec(rest, target).unwrap();
    assert forall|i: int| 0 <= i < source.len() implies #[trigger] joined[i] == if downgraded_at(
        source,
        target,
        i,
    ) {
        Capability::Shared
    } else {
        source[i]
    } by {
        lemma_split_fieldwise(source, target, i);
    }
}

/// No field of the rest of a split is stronger than it was in the source.
pub proof fn lemma_split_monotone(source: Seq<Capability>, target: Seq<Capability>)
    requires
        split_spec(source, target) is Ok,
    ensures
        forall|i: int|
            0 <= i < source.len() ==> (#[trigger] split_spec(
                source,
                target,
            ).unwrap()[i]).strength() <= source[i].strength(),
{
    assert forall|i: int| 0 <= i < source.len() implies (#[trigger] split_spec(
        source,
        target,
    ).unwrap()[i]).strength() <= source[i].strength() by {
        lemma_split_fieldwise(source, target, i);
    }
}

/// After `first` has been split off `source`, a second split off the rest
/// can take nothing of a field that `first` holds exclusively.
pub proof fn lemma_no_alias(
    source: Seq<Capability>,
    first: Seq<Capability>,
    second: Seq<Capability>,
)
    requires
        split_spec(source, first) is Ok,
        split_spec(split_spec(source, first).unwrap(), second) is Ok,
    ensures
        forall|i: int|
            0 <= i < source.len() && #[trigger] first[i] == Capability::Exclusive ==> second[i]
                == Capability::Hidden,
{
    let rest = split_spec(source, first).unwrap();
    assert forall|i: int|
        0 <= i < source.len() && #[trigger] first[i] == Capability::Exclusive implies second[i]
        == Capability::Hidden by {
        lemma_split_fieldwise(source, first, i);
        lemma_split_fieldwise(rest, second, i);
    }
}

/// After two splits in a row, no field is held exclusively by one of the
/// three views and held at all by another.
pub proof fn lemma_views_consistent(
    source: Seq<Capability>,
    first: Seq<Capability>,
    second: Seq<Capability>,
    i: int,
)
    requires
        split_spec(source, first) is Ok,
        split_spec(split_spec(source, first).unwrap(), second) is Ok,
        0 <= i < source.len(),
    ensures
        ({
            let rest = split_spec(split_spec(source, first).unwrap(), second).unwrap()[i];
            &&& first[i] == Capability::Exclusive ==> second[i] == Capability::Hidden && rest
                == Capability::Hidden
            &&& second[i] == Capability::Exclusive ==> first[i] == Capability::Hidden && rest
                == Capability::Hidden
            &&& rest == Capability::Exclusive ==> first[i] == Capability::Hidden && second[i]
                == Capability::Hidden
        }),
{
    let rest = split_spec(source, first).unwrap();
    lemma_split_fieldwise(source, first, i);
    lemma_split_fieldwise(rest, second, i);
}

/// The two views that a split gives may live at once.
pub proof fn lemma_split_compatible(source: Seq<Capability>, target: Seq<Capability>)
    requires
        split_spec(source, target) is Ok,
    ensures
        compatible(target, split_spec(source, target).unwrap()),
{
    let rest = split_spec(source, target).unwrap();
    assert forall|i: int| 0 <= i < target.len() implies {
        &&& (#[trigger] target[i] == Capability::Exclusive ==> rest[i] == Capability::Hidden)
        &&& (rest[i] == Capability::Exclusive ==> target[i] == Capability::Hidden)
    } by {
        lemma_split_fieldwise(source, target, i);
    }
}

/// Views that may live at once can always be joined.
pub proof fn lemma_compatible_unify(a: Seq<Capability>, b: Seq<Capability>)
    requires
        compatible(a, b),
    ensures
        unify_spec(a, b) is Ok,
{
    assert forall|i: int| !both_exclusive_at(a, b, i) by {
        if 0 <= i < a.len() {
            assert(a[i] == Capability::Exclusive ==> b[i] == Capability::Hidden);
        }
    }
}

/// No vector differs from itself.
pub proof fn lemma_not_equal_irreflexive(v: Seq<Capability>)
    ensures
        !not_equal_spec(v, v),
{
}

/// A borrow that asks for exactly what the source holds is refused as an
/// identity borrow, whatever the source holds.
pub proof fn lemma_identity_borrow_rejected(v: Seq<Capability>)
    ensures
        borrow_spec(v, v) == Err::<Seq<Capability>, BorrowError>(BorrowError::IdentityBorrow),
{
}

/// A checked borrow that succeeds leaves what the split leaves, so all that
/// holds of a successful split holds of it.
pub proof fn lemma_borrow_implies_split(source: Seq<Capability>, target: Seq<Capability>)
    requires
        borrow_spec(source, target) is Ok,
    ensures
        split_spec(source, target) == borrow_spec(source, target),
        compatible(target, borrow_spec(source, target).unwrap()),
{
    lemma_split_compatible(source, target);
}

/// A checked borrow gives what the unchecked one gives, unless the target
/// restates the source.
pub proof fn lemma_borrow_is_split_unless_identity(
    source: Seq<Capability>,
    target: Seq<Capability>,
)
    requires
        source != target,
    ensures
        borrow_spec(source, target) == split_spec(source, target),
{
    if source.len() == target.len() {
        lemma_not_equal_same_length(source, target);
    }
}

/// Two vectors of one length differ exactly when they are not the same
/// sequence.
pub proof fn lemma_not_equal_same_length(a: Seq<Capability>, b: Seq<Capability>)
    requires
        a.len() == b.len(),
    ensures
        not_equal_spec(a, b) <==> a != b,
{
    if !not_equal_spec(a, b) {
        assert forall|i: int| 0 <= i < a.len() implies a[i] == b[i] by {
            assert(field_or_hidden(a, i) == field_or_hidden(b, i));
        }
        assert(a =~= b);
    }
}

/// Whether two vectors differ does not depend on their order.
pub proof fn lemma_not_equal_symmetric(a: Seq<Capability>, b: Seq<Capability>)
    ensures
        not_equal_spec(a, b) == not_equal_spec(b, a),
{
    if not_equal_spec(a, b) {
        let i = choose|i: int| #[trigger] field_or_hidden(a, i) != field_or_hidden(b, i);
        assert(field_or_hidden(b, i) != field_or_hidden(a, i));
    }
    if not_equal_spec(b, a) {
        let i = choose|i: int| #[trigger] field_or_hidden(b, i) != field_or_hidden(a, i);
        assert(field_or_hidden(a, i) != field_or_hidden(b, i));
    }
}

/// Restating a vector is always a valid split, and it leaves shared fields
/// shared and hides the exclusive ones.
pub proof fn lemma_split_identity(v: Seq<Capability>)
    ensures
        split_spec(v, v) is Ok,
        forall|i: int|
            0 <= i < v.len() ==> #[trigger] split_spec(v, v).unwrap()[i] == if v[i]
                == Capability::Exclusive {
                Capability::Hidden
            } else {
                v[i]
            },
{
    assert forall|i: int| !conflict_at(v, v, i) by {}
}

/// Splitting off nothing leaves the source as it is.
pub proof fn lemma_split_nothing(source: Seq<Capability>)
    ensures
        split_spec(source, uniform(source.len(), Capability::Hidden)) == Ok::<
            Seq<Capability>,
            BorrowError,
        >(source),
{
    let nothing = uniform(source.len(), Capability::Hidden);
    assert forall|i: int| !conflict_at(source, nothing, i) by {}
    assert(split_spec(source, nothing).unwrap() =~= source);
}

/// Joining does not depend on the order of the two vectors.
pub proof fn lemma_unify_commutative(a: Seq<Capability>, b: Seq<Capability>)
    ensures
        unify_spec(a, b) == unify_spec(b, a),
{
    if a.len() == b.len() {
        if exists|i: int| both_exclusive_at(a, b, i) {
            let i = choose|i: int| both_exclusive_at(a, b, i);
            assert(both_exclusive_at(b, a, i));
        } else if exists|i: int| both_exclusive_at(b, a, i) {
            let i = choose|i: int| both_exclusive_at(b, a, i);
            assert(both_exclusive_at(a, b, i));
        } else {
            assert(unify_spec(a, b).unwrap() =~= unify_spec(b, a).unwrap());
        }
    }
}

/// A join succeeds exactly when the vectors have one length and no field is
/// exclusive on both sides; each field of the result is then the stronger of
/// the two.
pub proof fn lemma_unify_fieldwise(a: Seq<Capability>, b: Seq<Capability>, i: int)
    requires
        unify_spec(a, b) is Ok,
        0 <= i < a.len(),
    ensures
        a.len() == b.len(),
        unify_spec(a, b).unwrap().len() == a.len(),
        unify_spec(a, b).unwrap()[i] == merged(a[i], b[i]),
        !(a[i] == Capability::Exclusive && b[i] == Capability::Exclusive),
{
    assert(!both_exclusive_at(a, b, i));
}

/// What remains of `source` after each of `targets` has been split off in
/// turn, each from what the one before it left.
pub open spec fn split_chain(source: Seq<Capability>, targets: Seq<Seq<Capability>>) -> Result<
    Seq<Capability>,
    BorrowError,
>
    decreases targets.len(),
{
    if targets.len() == 0 {
        Ok(source)
    } else {
        match split_chain(source, targets.drop_last()) {
            Ok(rest) => split_spec(rest, targets.last()),
            Err(e) => Err(e),
        }
    }
}

/// On field `i`, the capabilities handed out along a chain of splits and the
/// capability that remains are bounded by what the source held: where one of
/// them is exclusive all the others are hidden, and none is held at all
/// unless the source held at least as much.
pub proof fn lemma_chain_field(
    source: Seq<Capability>,
    targets: Seq<Seq<Capability>>,
    i: int,
)
    requires
        split_chain(source, targets) is Ok,
        0 <= i < source.len(),
    ensures
        split_chain(source, targets).unwrap().len() == source.len(),
        split_chain(source, targets).unwrap()[i].strength() <= source[i].strength(),
        forall|k: int|
            0 <= k < targets.len() ==> (#[trigger] targets[k]).len() == source.len()
                && targets[k][i].strength() <= source[i].strength(),
        forall|k: int|
            0 <= k < targets.len() && (#[trigger] targets[k])[i] == Capability::Exclusive
                ==> split_chain(source, targets).unwrap()[i] == Capability::Hidden,
        forall|k: int|
            0 <= k < targets.len() && split_chain(source, targets).unwrap()[i]
                == Capability::Exclusive ==> (#[trigger] targets[k])[i] == Capability::Hidden,
        forall|j: int, k: int|
            0 <= j < k < targets.len() && (#[trigger] targets[j])[i] == Capability::Exclusive
                ==> (#[trigger] targets[k])[i] == Capability::Hidden,
        forall|j: int, k: int|
            0 <= j < k < targets.len() && (#[trigger] targets[k])[i] == Capability::Exclusive
                ==> (#[trigger] targets[j])[i] == Capability::Hidden,
    decreases targets.len(),
{
    if targets.len() > 0 {
        let earlier = targets.drop_last();
        let before = split_chain(source, earlier).unwrap();
        lemma_chain_field(source, earlier, i);
        lemma_split_fieldwise(before, targets.last(), i);
        assert forall|k: int| 0 <= k < earlier.len() implies earlier[k] == targets[k] by {}
        let n = targets.len() - 1;
        assert forall|k: int| 0 <= k < targets.len() implies (#[trigger] targets[k]).len()
            == source.len() && targets[k][i].strength() <= source[i].strength() by {
            if k < n {
                assert(earlier[k] == targets[k]);
            }
        }
        assert forall|k: int|
            0 <= k < targets.len() && (#[trigger] targets[k])[i]
                == Capability::Exclusive implies split_chain(source, targets).unwrap()[i]
            == Capability::Hidden by {
            if k < n {
                assert(earlier[k] == targets[k]);
            }
        }
        assert forall|k: int|
            0 <= k < targets.len() && split_chain(source, targets).unwrap()[i]
                == Capability::Exclusive implies (#[trigger] targets[k])[i]
            == Capability::Hidden by {
            if k < n {
                assert(earlier[k] == targets[k]);
            }
        }
        assert forall|j: int, k: int|
            0 <= j < k < targets.len() && (#[trigger] targets[j])[i]
                == Capability::Exclusive implies (#[trigger] targets[k])[i]
            == Capability::Hidden by {
            assert(earlier[j] == targets[j]);
            if k < n {
                assert(earlier[k] == targets[k]);
            }
        }
        assert forall|j: int, k: int|
            0 <= j < k < targets.len() && (#[trigger] targets[k])[i]
                == Capability::Exclusive implies (#[trigger] targets[j])[i]
            == Capability::Hidden by {
            assert(earlier[j] == targets[j]);
            if k < n {
                assert(earlier[k] == targets[k]);
            }
        }
    }
}

/// However many views are split off a source one after the other, any two of
/// them may live at once, and each may live beside what remains: no field is
/// ever held exclusively by one view and held at all by another.
pub proof fn lemma_chain_consistent(source: Seq<Capability>, targets: Seq<Seq<Capability>>)
    requires
        split_chain(source, targets) is Ok,
    ensures
        forall|j: int, k: int|
            0 <= j < k < targets.len() ==> compatible(
                #[trigger] targets[j],
                #[trigger] targets[k],
            ),
        forall|k: int|
            0 <= k < targets.len() ==> compatible(
                #[trigger] targets[k],
                split_chain(source, targets).unwrap(),
            ),
{
    let rest = split_chain(source, targets).unwrap();
    assert forall|j: int, k: int| 0 <= j < k < targets.len() implies compatible(
        #[trigger] targets[j],
        #[trigger] targets[k],
    ) by {
        lemma_chain_lengths(source, targets);
        assert forall|i: int| 0 <= i < targets[j].len() implies {
            &&& (#[trigger] targets[j][i] == Capability::Exclusive ==> targets[k][i]
                == Capability::Hidden)
            &&& (targets[k][i] == Capability::Exclusive ==> targets[j][i] == Capability::Hidden)
        } by {
            lemma_chain_field(source, targets, i);
        }
    }
    assert forall|k: int| 0 <= k < targets.len() implies compatible(
        #[trigger] targets[k],
        rest,
    ) by {
        lemma_chain_lengths(source, targets);
        assert forall|i: int| 0 <= i < targets[k].len() implies {
            &&& (#[trigger] targets[k][i] == Capability::Exclusive ==> rest[i]
                == Capability::Hidden)
            &&& (rest[i] == Capability::Exclusive ==> targets[k][i] == Capability::Hidden)
        } by {
            lemma_chain_field(source, targets, i);
        }
    }
}

/// Along a chain of splits every vector has the length of the source.
pub proof fn lemma_chain_lengths(source: Seq<Capability>, targets: Seq<Seq<Capability>>)
    requires
        split_chain(source, targets) is Ok,
    ensures
        split_chain(source, targets).unwrap().len() == source.len(),
        forall|k: int| 0 <= k < targets.len() ==> (#[trigger] targets[k]).len() == source.len(),
    decreases targets.len(),
{
    if targets.len() > 0 {
        let earlier = targets.drop_last();
        lemma_chain_lengths(source, earlier);
        assert forall|k: int| 0 <= k < targets.len() implies (#[trigger] targets[k]).len()
            == source.len() by {
            if k < targets.len() - 1 {
                assert(earlier[k] == targets[k]);
            }
        }
    }
}

} // verus!
