use borrow::capability::{BorrowError, Capability};
use borrow::schema::{Field, Schema};
use borrow::selector::{resolve, resolve_extents, Selector, Target};

const H: Capability = Capability::Hidden;
const S: Capability = Capability::Shared;
const E: Capability = Capability::Exclusive;

fn three_fields() -> Schema {
    Schema::new(vec![
        Field::new("fieldA", "A"),
        Field::new("fieldB", "B"),
        Field::new("fieldC", "C"),
    ])
    .unwrap()
}

fn graph() -> Schema {
    Schema::new(vec![
        Field::new("nodes", "Vec<Node>"),
        Field::new("edges", "Vec<Edge>"),
        Field::new("groups", "Vec<Group>"),
    ])
    .unwrap()
}

#[test]
fn schema_keeps_names_and_types_in_order() {
    let schema = graph();
    assert_eq!(schema.len(), 3);
    assert_eq!(schema.name(0).map(String::as_str), Some("nodes"));
    assert_eq!(schema.name(2).map(String::as_str), Some("groups"));
    assert_eq!(schema.name(3), None);
    assert_eq!(schema.type_of(1).map(String::as_str), Some("Vec<Edge>"));
    assert_eq!(schema.type_of(3), None);
}

#[test]
fn schema_refuses_a_repeated_field_name() {
    assert!(Schema::new(vec![Field::new("a", "u8"), Field::new("b", "u8"), Field::new("a", "u16")])
        .is_none());
    assert!(Schema::new(vec![Field::new("a", "u8"), Field::new("a", "u8")]).is_none());
}

#[test]
fn schema_may_be_empty() {
    let schema = Schema::new(vec![]).unwrap();
    assert_eq!(schema.len(), 0);
    assert_eq!(schema.index_of("a"), None);
}

#[test]
fn schema_finds_a_field_by_name() {
    let schema = graph();
    assert_eq!(schema.index_of("nodes"), Some(0));
    assert_eq!(schema.index_of("edges"), Some(1));
    assert_eq!(schema.index_of("groups"), Some(2));
    assert_eq!(schema.index_of("node"), None);
    assert_eq!(schema.index_of(""), None);
}

#[test]
fn schema_same_as_compares_names_types_and_order() {
    let a = graph();
    assert!(a.same_as(&graph()));
    assert!(!a.same_as(&three_fields()));
    let reordered = Schema::new(vec![
        Field::new("edges", "Vec<Edge>"),
        Field::new("nodes", "Vec<Node>"),
        Field::new("groups", "Vec<Group>"),
    ])
    .unwrap();
    assert!(!a.same_as(&reordered));
    let retyped = Schema::new(vec![
        Field::new("nodes", "Vec<Node>"),
        Field::new("edges", "Vec<Edge>"),
        Field::new("groups", "Vec<u8>"),
    ])
    .unwrap();
    assert!(!a.same_as(&retyped));
    let shorter =
        Schema::new(vec![Field::new("nodes", "Vec<Node>"), Field::new("edges", "Vec<Edge>")])
            .unwrap();
    assert!(!a.same_as(&shorter));
}

#[test]
fn selector_builders_fill_the_token() {
    let token = Selector::field(E, "nodes").within("a");
    assert_eq!(token.extent.as_deref(), Some("a"));
    assert_eq!(token.capability, E);
    assert!(matches!(&token.target, Target::Field(n) if n == "nodes"));
    let all = Selector::all(S);
    assert_eq!(all.extent, None);
    assert_eq!(all.capability, S);
    assert!(matches!(all.target, Target::All));
}

#[test]
fn resolve_wildcard_then_exclusive_field() {
    let tokens = vec![Selector::all(S), Selector::field(E, "fieldA")];
    assert_eq!(resolve(&three_fields(), &tokens), Ok(vec![E, S, S]));
}

#[test]
fn resolve_exclusive_wildcard_then_excluded_field() {
    let tokens = vec![Selector::all(E), Selector::field(H, "fieldB")];
    assert_eq!(resolve(&three_fields(), &tokens), Ok(vec![E, H, E]));
}

#[test]
fn resolve_is_the_same_on_every_call() {
    let tokens = vec![Selector::all(S), Selector::field(E, "fieldA")];
    let schema = three_fields();
    assert_eq!(resolve(&schema, &tokens), resolve(&schema, &tokens));
}

#[test]
fn resolve_empty_selector_hides_every_field() {
    assert_eq!(resolve(&three_fields(), &vec![]), Ok(vec![H, H, H]));
}

#[test]
fn resolve_unmentioned_fields_are_hidden() {
    let tokens = vec![Selector::field(S, "nodes"), Selector::field(E, "edges")];
    assert_eq!(resolve(&graph(), &tokens), Ok(vec![S, E, H]));
}

#[test]
fn resolve_omission_equals_explicit_exclusion() {
    let omitted = vec![Selector::field(S, "nodes")];
    let excluded =
        vec![Selector::field(H, "edges"), Selector::field(S, "nodes"), Selector::field(H, "groups")];
    assert_eq!(resolve(&graph(), &omitted), resolve(&graph(), &excluded));
}

#[test]
fn resolve_later_tokens_override_earlier_ones() {
    let tokens = vec![Selector::all(E), Selector::field(S, "edges"), Selector::field(H, "groups")];
    assert_eq!(resolve(&graph(), &tokens), Ok(vec![E, S, H]));
    let twice = vec![Selector::field(E, "nodes"), Selector::field(S, "nodes")];
    assert_eq!(resolve(&graph(), &twice), Ok(vec![S, H, H]));
}

#[test]
fn resolve_later_wildcard_overrides_named_fields() {
    let tokens = vec![Selector::field(E, "nodes"), Selector::all(S)];
    assert_eq!(resolve(&graph(), &tokens), Ok(vec![S, S, S]));
    let hidden_last = vec![Selector::all(E), Selector::all(H)];
    assert_eq!(resolve(&graph(), &hidden_last), Ok(vec![H, H, H]));
}

#[test]
fn resolve_rejects_an_unknown_field() {
    let tokens = vec![Selector::all(S), Selector::field(E, "fieldD")];
    assert_eq!(resolve(&three_fields(), &tokens), Err(BorrowError::UnknownField));
}

#[test]
fn resolve_rejects_an_unknown_field_even_if_overridden_later() {
    let tokens = vec![Selector::field(E, "missing"), Selector::all(H)];
    assert_eq!(resolve(&three_fields(), &tokens), Err(BorrowError::UnknownField));
}

#[test]
fn resolve_on_an_empty_schema() {
    let schema = Schema::new(vec![]).unwrap();
    assert_eq!(resolve(&schema, &vec![Selector::all(E)]), Ok(vec![]));
    assert_eq!(
        resolve(&schema, &vec![Selector::field(S, "a")]),
        Err(BorrowError::UnknownField)
    );
}

#[test]
fn resolve_ignores_extent_tags() {
    let tagged = vec![Selector::all(S).within("b"), Selector::field(E, "edges").within("c")];
    let plain = vec![Selector::all(S), Selector::field(E, "edges")];
    assert_eq!(resolve(&graph(), &tagged), resolve(&graph(), &plain));
}

#[test]
fn resolve_extents_default_to_the_ambient_extent() {
    let tokens = vec![Selector::all(S), Selector::field(E, "edges")];
    assert_eq!(resolve_extents(&graph(), &tokens), Ok(vec![None, None, None]));
    assert_eq!(resolve_extents(&graph(), &vec![]), Ok(vec![None, None, None]));
}

#[test]
fn resolve_extents_follow_the_deciding_token() {
    let tokens = vec![Selector::all(S).within("b"), Selector::field(S, "edges").within("c")];
    assert_eq!(
        resolve_extents(&graph(), &tokens),
        Ok(vec![Some("b".to_string()), Some("c".to_string()), Some("b".to_string())])
    );
    let mixed = vec![
        Selector::field(S, "nodes").within("t"),
        Selector::field(S, "edges"),
        Selector::field(S, "groups").within("m"),
        Selector::field(E, "nodes"),
    ];
    assert_eq!(
        resolve_extents(&graph(), &mixed),
        Ok(vec![None, None, Some("m".to_string())])
    );
}

#[test]
fn resolve_extents_rejects_an_unknown_field() {
    let tokens = vec![Selector::field(S, "nope").within("a")];
    assert_eq!(resolve_extents(&graph(), &tokens), Err(BorrowError::UnknownField));
}
