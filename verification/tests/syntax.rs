use borrow::capability::{BorrowError, Capability};
use borrow::schema::{Field, Schema};
use borrow::selector::{resolve, resolve_extents, Selector};
use borrow::syntax::{lex, parse, parse_lexemes, Lexeme};

const H: Capability = Capability::Hidden;
const S: Capability = Capability::Shared;
const E: Capability = Capability::Exclusive;

fn word(name: &str) -> Lexeme {
    Lexeme::Word(name.to_string())
}

fn tag(name: &str) -> Lexeme {
    Lexeme::Tag(name.to_string())
}

fn three_fields() -> Schema {
    Schema::new(vec![
        Field::new("fieldA", "A"),
        Field::new("fieldB", "B"),
        Field::new("fieldC", "C"),
    ])
    .unwrap()
}

fn graph() -> Schema {
    Schema::new(vec![
        Field::new("nodes", "Vec<Node>"),
        Field::new("edges", "Vec<Edge>"),
        Field::new("groups", "Vec<Group>"),
    ])
    .unwrap()
}

#[test]
fn lex_cuts_a_text_into_pieces() {
    assert_eq!(
        lex("*, mut fieldA"),
        Some(vec![Lexeme::Star, Lexeme::Comma, word("mut"), word("fieldA")])
    );
    assert_eq!(
        lex("'a mut *,!x_1"),
        Some(vec![tag("a"), word("mut"), Lexeme::Star, Lexeme::Comma, Lexeme::Bang, word("x_1")])
    );
}

#[test]
fn lex_skips_blanks() {
    assert_eq!(lex(""), Some(vec![]));
    assert_eq!(lex(" \t\r\n "), Some(vec![]));
    assert_eq!(lex("  a\t,\n b  "), Some(vec![word("a"), Lexeme::Comma, word("b")]));
}

#[test]
fn lex_takes_the_longest_name() {
    assert_eq!(lex("mutable"), Some(vec![word("mutable")]));
    assert_eq!(lex("mut*"), Some(vec![word("mut"), Lexeme::Star]));
    assert_eq!(lex("_a9 B"), Some(vec![word("_a9"), word("B")]));
    assert_eq!(lex("'static*"), Some(vec![tag("static"), Lexeme::Star]));
    assert_eq!(lex("'_ a"), Some(vec![tag("_"), word("a")]));
}

#[test]
fn lex_rejects_what_fits_no_piece() {
    assert_eq!(lex("a-b"), None);
    assert_eq!(lex("9a"), None);
    assert_eq!(lex("a.b"), None);
    assert_eq!(lex("&a"), None);
    assert_eq!(lex("caf\u{e9}"), None);
    assert_eq!(lex("'"), None);
    assert_eq!(lex("' a"), None);
    assert_eq!(lex("'1"), None);
    assert_eq!(lex("a '"), None);
}

#[test]
fn parse_reads_each_form_of_item() {
    assert_eq!(parse("*"), Some(vec![Selector::all(S)]));
    assert_eq!(parse("mut *"), Some(vec![Selector::all(E)]));
    assert_eq!(parse("!*"), Some(vec![Selector::all(H)]));
    assert_eq!(parse("nodes"), Some(vec![Selector::field(S, "nodes")]));
    assert_eq!(parse("mut nodes"), Some(vec![Selector::field(E, "nodes")]));
    assert_eq!(parse("!nodes"), Some(vec![Selector::field(H, "nodes")]));
}

#[test]
fn parse_reads_an_extent_tag_before_each_form() {
    assert_eq!(parse("'a *"), Some(vec![Selector::all(S).within("a")]));
    assert_eq!(parse("'a mut *"), Some(vec![Selector::all(E).within("a")]));
    assert_eq!(parse("'a !*"), Some(vec![Selector::all(H).within("a")]));
    assert_eq!(parse("'a nodes"), Some(vec![Selector::field(S, "nodes").within("a")]));
    assert_eq!(parse("'a mut nodes"), Some(vec![Selector::field(E, "nodes").within("a")]));
    assert_eq!(parse("'a !nodes"), Some(vec![Selector::field(H, "nodes").within("a")]));
}

#[test]
fn parse_reads_a_list_in_order() {
    assert_eq!(
        parse("mut *, edges, !groups"),
        Some(vec![Selector::all(E), Selector::field(S, "edges"), Selector::field(H, "groups")])
    );
    assert_eq!(
        parse("'b *, 'c edges"),
        Some(vec![Selector::all(S).within("b"), Selector::field(S, "edges").within("c")])
    );
}

#[test]
fn parse_does_not_mind_blanks() {
    let expected = Some(vec![Selector::all(E), Selector::field(H, "a")]);
    assert_eq!(parse("mut *,!a"), expected);
    assert_eq!(parse("  mut   * ,  ! a  "), expected);
    assert_eq!(parse("mut*\n,\t!a"), expected);
}

#[test]
fn parse_of_an_empty_text_is_an_empty_selector() {
    assert_eq!(parse(""), Some(vec![]));
    assert_eq!(parse("   "), Some(vec![]));
}

#[test]
fn parse_accepts_commas_after_the_last_item() {
    assert_eq!(parse("a,"), Some(vec![Selector::field(S, "a")]));
    assert_eq!(parse("a, b,,"), Some(vec![Selector::field(S, "a"), Selector::field(S, "b")]));
    assert_eq!(parse(","), Some(vec![]));
}

#[test]
fn parse_rejects_misplaced_commas() {
    assert_eq!(parse(",a"), None);
    assert_eq!(parse("a,,b"), None);
    assert_eq!(parse("a b"), None);
    assert_eq!(parse("* *"), None);
}

#[test]
fn parse_rejects_an_item_without_a_target() {
    assert_eq!(parse("mut"), None);
    assert_eq!(parse("!"), None);
    assert_eq!(parse("'a"), None);
    assert_eq!(parse("a, mut"), None);
    assert_eq!(parse("mut, a"), None);
    assert_eq!(parse("!, a"), None);
    assert_eq!(parse("'a, b"), None);
}

#[test]
fn parse_rejects_doubled_marks() {
    assert_eq!(parse("mut mut a"), None);
    assert_eq!(parse("!mut a"), None);
    assert_eq!(parse("mut !a"), None);
    assert_eq!(parse("!!a"), None);
    assert_eq!(parse("'a 'b c"), None);
    assert_eq!(parse("mut 'a c"), None);
}

#[test]
fn parse_rejects_a_text_that_does_not_lex() {
    assert_eq!(parse("a; b"), None);
    assert_eq!(parse("<a>"), None);
}

#[test]
fn parse_lexemes_follows_the_same_grammar() {
    assert_eq!(
        parse_lexemes(&vec![word("mut"), word("a"), Lexeme::Comma, Lexeme::Bang, Lexeme::Star]),
        Some(vec![Selector::field(E, "a"), Selector::all(H)])
    );
    assert_eq!(parse_lexemes(&vec![Lexeme::Comma, word("a")]), None);
    assert_eq!(parse_lexemes(&vec![]), Some(vec![]));
}

#[test]
fn resolve_wildcard_then_exclusive_field_as_text() {
    let tokens = parse("*, mut fieldA").unwrap();
    assert_eq!(resolve(&three_fields(), &tokens), Ok(vec![E, S, S]));
}

#[test]
fn resolve_exclusive_wildcard_then_excluded_field_as_text() {
    let tokens = parse("mut *, !fieldB").unwrap();
    assert_eq!(resolve(&three_fields(), &tokens), Ok(vec![E, H, E]));
}

#[test]
fn resolve_text_with_an_unknown_field() {
    let tokens = parse("*, mut fieldD").unwrap();
    assert_eq!(resolve(&three_fields(), &tokens), Err(BorrowError::UnknownField));
}

#[test]
fn resolve_text_with_overrides() {
    assert_eq!(resolve(&graph(), &parse("mut *, edges, !groups").unwrap()), Ok(vec![E, S, H]));
    assert_eq!(resolve(&graph(), &parse("nodes, mut edges").unwrap()), Ok(vec![S, E, H]));
    assert_eq!(resolve(&graph(), &parse("mut nodes, !*").unwrap()), Ok(vec![H, H, H]));
}

#[test]
fn resolve_extents_of_a_text() {
    let tokens = parse("'b *, 'c edges").unwrap();
    assert_eq!(
        resolve_extents(&graph(), &tokens),
        Ok(vec![Some("b".to_string()), Some("c".to_string()), Some("b".to_string())])
    );
    let tokens = parse("nodes, edges, 'm groups").unwrap();
    assert_eq!(resolve_extents(&graph(), &tokens), Ok(vec![None, None, Some("m".to_string())]));
}
