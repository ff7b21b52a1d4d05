//! Selectors: the request language that is resolved into a capability vector.
//!
//! A selector is a list of tokens. Each token grants one capability either to
//! every field or to one named field, and a later token overrides an earlier
//! one on the fields that both cover.

use vstd::prelude::*;
use crate::capability::{BorrowError, Capability};
use crate::schema::{distinct, Schema};
use crate::vector::{outcome, uniform, uniform_vector};

verus! {

/// The fields that a token speaks of.
#[derive(Debug, PartialEq, Eq)]
pub enum Target {
    /// Every field of the record.
    All,
    /// The field with this name.
    Field(String),
}

/// One token of a selector.
#[derive(Debug, PartialEq, Eq)]
pub struct Selector {
    /// The extent tag written in front of the token; `None` where the token
    /// leaves it to the ambient extent of the request.
    pub extent: Option<String>,
    /// The capability that the token grants.
    pub capability: Capability,
    /// The fields that it grants it on.
    pub target: Target,
}

/// The fields that a token speaks of, as a mathematical value.
pub enum TargetSpec {
    All,
    Field(Seq<char>),
}

/// One token of a selector, as a mathematical value.
pub struct SelectorSpec {
    pub extent: Option<Seq<char>>,
    pub capability: Capability,
    pub target: TargetSpec,
}

impl View for Target {
    type V = TargetSpec;

    open spec fn view(&self) -> TargetSpec {
        match self {
            Target::All => TargetSpec::All,
            Target::Field(name) => TargetSpec::Field(name@),
        }
    }
}

impl View for Selector {
    type V = SelectorSpec;

    open spec fn view(&self) -> SelectorSpec {
        SelectorSpec {
            extent: match self.extent {
                Some(e) => Some(e@),
                None => None,
            },
            capability: self.capability,
            target: self.target@,
        }
    }
}

/// The tokens of `tokens`, each taken by its view.
pub open spec fn token_views(tokens: Seq<Selector>) -> Seq<SelectorSpec> {
    Seq::new(tokens.len(), |i: int| tokens[i]@)
}

impl Selector {
    /// A token for every field, without an extent tag.
    pub fn all(capability: Capability) -> (t: Selector)
        ensures
            t@ == (SelectorSpec { extent: None, capability, target: TargetSpec::All }),
    {
        Selector { extent: None, capability, target: Target::All }
    }

    /// A token for the field called `name`, without an extent tag.
    pub fn field(capability: Capability, name: &str) -> (t: Selector)
        ensures
            t@ == (SelectorSpec {
                extent: None,
                capability,
                target: TargetSpec::Field(name@),
            }),
    {
        Selector { extent: None, capability, target: Target::Field(name.to_owned()) }
    }

    /// The same token under the extent tag `extent`.
    pub fn within(self, extent: &str) -> (t: Selector)
        ensures
            t@ == (SelectorSpec { extent: Some(extent@), ..self@ }),
    {
        Selector { extent: Some(extent.to_owned()), capability: self.capability, target: self.target }
    }
}

/// The token speaks of the field called `name`.
pub open spec fn covers(token: SelectorSpec, name: Seq<char>) -> bool {
    match token.target {
        TargetSpec::All => true,
        TargetSpec::Field(n) => n == name,
    }
}

/// The token names no field that `names` lacks.
pub open spec fn known(token: SelectorSpec, names: Seq<Seq<char>>) -> bool {
    match token.target {
        TargetSpec::All => true,
        TargetSpec::Field(n) => names.contains(n),
    }
}

/// The capability that `tokens` leave on the field called `name`: that of the
/// last token that covers it, and `Hidden` if none does.
pub open spec fn resolved_field(tokens: Seq<SelectorSpec>, name: Seq<char>) -> Capability
    decreases tokens.len(),
{
    if tokens.len() == 0 {
        Capability::Hidden
    } else if covers(tokens.last(), name) {
        tokens.last().capability
    } else {
        resolved_field(tokens.drop_last(), name)
    }
}

/// The extent tag that `tokens` leave on the field called `name`: that of the
/// last token that covers it; `None` where that token has no tag, or where
/// no token covers the field, and the ambient extent applies.
pub open spec fn resolved_extent(tokens: Seq<SelectorSpec>, name: Seq<char>) -> Option<Seq<char>>
    decreases tokens.len(),
{
    if tokens.len() == 0 {
        None
    } else if covers(tokens.last(), name) {
        tokens.last().extent
    } else {
        resolved_extent(tokens.drop_last(), name)
    }
}

/// The capability vector that `tokens` select over the fields `names`. A token
/// that names a field missing from `names` makes the whole selector invalid.
pub open spec fn resolve_spec(names: Seq<Seq<char>>, tokens: Seq<SelectorSpec>) -> Result<
    Seq<Capability>,
    BorrowError,
> {
    if exists|k: int| 0 <= k < tokens.len() && !known(#[trigger] tokens[k], names) {
        Err(BorrowError::UnknownField)
    } else {
        Ok(Seq::new(names.len(), |i: int| resolved_field(tokens, names[i])))
    }
}

/// The extent tags that `tokens` select over the fields `names`, field by
/// field, under the same condition as `resolve_spec`.
pub open spec fn resolve_extents_spec(names: Seq<Seq<char>>, tokens: Seq<SelectorSpec>) -> Result<
    Seq<Option<Seq<char>>>,
    BorrowError,
> {
    if exists|k: int| 0 <= k < tokens.len() && !known(#[trigger] tokens[k], names) {
        Err(BorrowError::UnknownField)
    } else {
        Ok(Seq::new(names.len(), |i: int| resolved_extent(tokens, names[i])))
    }
}

/// The extent tags of `tags`, each taken by its view.
pub open spec fn tag_views(tags: Seq<Option<String>>) -> Seq<Option<Seq<char>>> {
    Seq::new(
        tags.len(),
        |i: int|
            match tags[i] {
                Some(e) => Some(e@),
                None => None,
            },
    )
}

/// One more token changes the fields that it covers, and no other.
pub proof fn lemma_resolved_push(tokens: Seq<SelectorSpec>, token: SelectorSpec, name: Seq<char>)
    ensures
        resolved_field(tokens.push(token), name) == if covers(token, name) {
            token.capability
        } else {
            resolved_field(tokens, name)
        },
        resolved_extent(tokens.push(token), name) == if covers(token, name) {
            token.extent
        } else {
            resolved_extent(tokens, name)
        },
{
    assert(tokens.push(token).drop_last() =~= tokens);
    assert(tokens.push(token).last() == token);
}

/// The last token that covers a field decides its capability, whatever came
/// before it.
pub proof fn lemma_last_write_wins(tokens: Seq<SelectorSpec>, k: int, name: Seq<char>)
    requires
        0 <= k < tokens.len(),
        covers(tokens[k], name),
        forall|j: int| k < j < tokens.len() ==> !covers(#[trigger] tokens[j], name),
    ensures
        resolved_field(tokens, name) == tokens[k].capability,
    decreases tokens.len(),
{
    if k < tokens.len() - 1 {
        assert(!covers(tokens[tokens.len() - 1], name));
        lemma_last_write_wins(tokens.drop_last(), k, name);
    }
}

/// A field that no token covers stays hidden.
pub proof fn lemma_unselected_is_hidden(tokens: Seq<SelectorSpec>, name: Seq<char>)
    requires
        forall|j: int| 0 <= j < tokens.len() ==> !covers(#[trigger] tokens[j], name),
    ensures
        resolved_field(tokens, name) == Capability::Hidden,
    decreases tokens.len(),
{
    if tokens.len() > 0 {
        assert(!covers(tokens[tokens.len() - 1], name));
        lemma_unselected_is_hidden(tokens.drop_last(), name);
    }
}

/// The empty selector hides every field.
pub proof fn lemma_resolve_empty(names: Seq<Seq<char>>)
    ensures
        resolve_spec(names, Seq::<SelectorSpec>::empty()) == Ok::<Seq<Capability>, BorrowError>(
            uniform(names.len(), Capability::Hidden),
        ),
{
    assert(resolve_spec(names, Seq::<SelectorSpec>::empty()).unwrap() =~= uniform(
        names.len(),
        Capability::Hidden,
    ));
}

/// A token for every field that comes last decides every field, whatever
/// came before it, provided that the tokens before it name known fields.
pub proof fn lemma_resolve_wildcard_last(
    names: Seq<Seq<char>>,
    tokens: Seq<SelectorSpec>,
    last: SelectorSpec,
)
    requires
        last.target is All,
        resolve_spec(names, tokens) is Ok,
    ensures
        resolve_spec(names, tokens.push(last)) == Ok::<Seq<Capability>, BorrowError>(
            uniform(names.len(), last.capability),
        ),
{
    let all = tokens.push(last);
    assert forall|k: int| 0 <= k < all.len() implies known(#[trigger] all[k], names) by {
        if k < tokens.len() {
            assert(known(tokens[k], names));
        }
    }
    assert forall|i: int| 0 <= i < names.len() implies resolved_field(all, names[i])
        == last.capability by {
        lemma_resolved_push(tokens, last, names[i]);
    }
    assert(resolve_spec(names, all).unwrap() =~= uniform(names.len(), last.capability));
}

/// Leaving a field out of a selector is the same as excluding it at the
/// start: a leading token that hides a field changes nothing.
pub proof fn lemma_omission_is_exclusion(tokens: Seq<SelectorSpec>, hide: SelectorSpec, name: Seq<char>)
    requires
        hide.capability == Capability::Hidden,
    ensures
        resolved_field(seq![hide] + tokens, name) == resolved_field(tokens, name),
    decreases tokens.len(),
{
    let all = seq![hide] + tokens;
    if tokens.len() == 0 {
        assert(all =~= seq![hide]);
        assert(all.drop_last() =~= Seq::<SelectorSpec>::empty());
        assert(resolved_field(all.drop_last(), name) == Capability::Hidden);
    } else {
        assert(all.last() == tokens.last());
        assert(all.drop_last() =~= seq![hide] + tokens.drop_last());
        lemma_omission_is_exclusion(tokens.drop_last(), hide, name);
    }
}

/// Resolves a selector against a schema. Every field starts out hidden, and
/// the tokens are applied from left to right.
pub fn resolve(schema: &Schema, tokens: &Vec<Selector>) -> (r: Result<
    Vec<Capability>,
    BorrowError,
>)
    ensures
        outcome(r) == resolve_spec(schema.names(), token_views(tokens@)),
{
    proof {
        use_type_invariant(schema);
    }
    let ghost names = schema.names();
    let ghost specs = token_views(tokens@);
    let n = schema.len();
    let mut vector = uniform_vector(n, Capability::Hidden);
    let mut k: usize = 0;
    while k < tokens.len()
        invariant
            k <= tokens@.len(),
            specs == token_views(tokens@),
            names == schema.names(),
            distinct(names),
            n == names.len(),
            vector@.len() == n,
            forall|j: int| 0 <= j < k ==> known(#[trigger] specs[j], names),
            forall|i: int|
                0 <= i < n ==> #[trigger] vector@[i] == resolved_field(
                    specs.take(k as int),
                    names[i],
                ),
        decreases tokens@.len() - k,
    {
        let token = &tokens[k];
        let ghost before = vector@;
        match &token.target {
            Target::All => {
                vector = uniform_vector(n, token.capability);
            },
            Target::Field(name) => {
                match schema.index_of(name.as_str()) {
                    Some(i) => {
                        vector.set(i, token.capability);
                    },
                    None => {
                        assert(!known(specs[k as int], names));
                        return Err(BorrowError::UnknownField);
                    },
                }
            },
        }
        proof {
            assert(specs.take(k + 1) =~= specs.take(k as int).push(specs[k as int]));
            assert forall|i: int| 0 <= i < n implies #[trigger] vector@[i] == resolved_field(
                specs.take(k + 1),
                names[i],
            ) by {
                lemma_resolved_push(specs.take(k as int), specs[k as int], names[i]);
                assert(before[i] == resolved_field(specs.take(k as int), names[i]));
            }
        }
        k += 1;
    }
    proof {
        assert(specs.take(k as int) =~= specs);
        assert(vector@ =~= resolve_spec(names, specs).unwrap());
    }
    Ok(vector)
}

/// Resolves the extent tags of a selector against a schema: for each field
/// the tag of the token that decides it, and `None` where the ambient extent
/// applies.
pub fn resolve_extents(schema: &Schema, tokens: &Vec<Selector>) -> (r: Result<
    Vec<Option<String>>,
    BorrowError,
>)
    ensures
        match resolve_extents_spec(schema.names(), token_views(tokens@)) {
            Ok(tags) => r matches Ok(v) && tag_views(v@) == tags,
            Err(e) => r matches Err(f) && f == e,
        },
{
    proof {
        use_type_invariant(schema);
    }
    let ghost names = schema.names();
    let ghost specs = token_views(tokens@);
    let n = schema.len();
    let mut tags: Vec<Option<String>> = Vec::new();
    let mut i: usize = 0;
    while i < n
        invariant
            i <= n,
            tags@.len() == i,
            forall|j: int| 0 <= j < i ==> #[trigger] tags@[j] is None,
        decreases n - i,
    {
        tags.push(None);
        i += 1;
    }
    let mut k: usize = 0;
    while k < tokens.len()
        invariant
            k <= tokens@.len(),
            specs == token_views(tokens@),
            names == schema.names(),
            distinct(names),
            n == names.len(),
            tags@.len() == n,
            forall|j: int| 0 <= j < k ==> known(#[trigger] specs[j], names),
            forall|i: int|
                0 <= i < n ==> #[trigger] tag_views(tags@)[i] == resolved_extent(
                    specs.take(k as int),
                    names[i],
                ),
        decreases tokens@.len() - k,
    {
        let token = &tokens[k];
        let ghost before = tag_views(tags@);
        match &token.target {
            Target::All => {
                let mut i: usize = 0;
                while i < n
                    invariant
                        i <= n,
                        tags@.len() == n,
                        forall|j: int|
                            0 <= j < i ==> #[trigger] tag_views(tags@)[j] == match token.extent {
                                Some(e) => Some(e@),
                                None => None,
                            },
                    decreases n - i,
                {
                    let ghost was = tag_views(tags@);
                    tags.set(i, clone_tag(&token.extent));
                    proof {
                        assert forall|j: int| 0 <= j < i implies #[trigger] tag_views(tags@)[j]
                            == was[j] by {}
                    }
                    i += 1;
                }
            },
            Target::Field(name) => {
                match schema.index_of(name.as_str()) {
                    Some(i) => {
                        tags.set(i, clone_tag(&token.extent));
                    },
                    None => {
                        assert(!known(specs[k as int], names));
                        return Err(BorrowError::UnknownField);
                    },
                }
            },
        }
        proof {
            assert(specs.take(k + 1) =~= specs.take(k as int).push(specs[k as int]));
            assert forall|i: int| 0 <= i < n implies #[trigger] tag_views(tags@)[i]
                == resolved_extent(specs.take(k + 1), names[i]) by {
                lemma_resolved_push(specs.take(k as int), specs[k as int], names[i]);
                assert(before[i] == resolved_extent(specs.take(k as int), names[i]));
            }
        }
        k += 1;
    }
    proof {
        assert(specs.take(k as int) =~= specs);
        assert(tag_views(tags@) =~= resolve_extents_spec(names, specs).unwrap());
    }
    Ok(tags)
}

/// Copies an extent tag.
fn clone_tag(tag: &Option<String>) -> (r: Option<String>)
    ensures
        r == *tag,
{
    match tag {
        Some(e) => Some(e.clone()),
        None => None,
    }
}

} // verus!
