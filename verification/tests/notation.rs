use borrow::capability::Capability;
use borrow::notation::render;
use borrow::selector::Selector;
use borrow::syntax::parse;

const H: Capability = Capability::Hidden;
const S: Capability = Capability::Shared;
const E: Capability = Capability::Exclusive;

#[test]
fn render_writes_each_form_of_item() {
    assert_eq!(render(&vec![Selector::all(S)]), "*");
    assert_eq!(render(&vec![Selector::all(E)]), "mut *");
    assert_eq!(render(&vec![Selector::all(H)]), "!*");
    assert_eq!(render(&vec![Selector::field(S, "nodes")]), "nodes");
    assert_eq!(render(&vec![Selector::field(E, "nodes")]), "mut nodes");
    assert_eq!(render(&vec![Selector::field(H, "nodes")]), "!nodes");
}

#[test]
fn render_writes_the_extent_tag_first() {
    assert_eq!(render(&vec![Selector::all(S).within("a")]), "'a *");
    assert_eq!(render(&vec![Selector::field(E, "x").within("scope")]), "'scope mut x");
    assert_eq!(render(&vec![Selector::field(H, "x").within("a")]), "'a !x");
}

#[test]
fn render_separates_items_with_a_comma_and_a_space() {
    let tokens = vec![Selector::all(E), Selector::field(S, "edges"), Selector::field(H, "groups")];
    assert_eq!(render(&tokens), "mut *, edges, !groups");
}

#[test]
fn render_of_an_empty_selector_is_empty() {
    assert_eq!(render(&vec![]), "");
}

#[test]
fn parse_reads_back_what_render_wrote() {
    let selectors = vec![
        vec![],
        vec![Selector::all(S)],
        vec![Selector::all(E), Selector::field(S, "edges"), Selector::field(H, "groups")],
        vec![Selector::all(S).within("b"), Selector::field(E, "edges").within("c")],
        vec![Selector::field(H, "_x9").within("_"), Selector::all(H).within("mut")],
        vec![Selector::field(S, "mutable"), Selector::field(E, "mut_")],
    ];
    for tokens in selectors {
        assert_eq!(parse(&render(&tokens)), Some(tokens));
    }
}

#[test]
fn render_reads_back_what_parse_read_up_to_blanks() {
    for text in ["mut *, !a", "'t a, 'm mut b, !*", "*", ""] {
        assert_eq!(render(&parse(text).unwrap()), text);
    }
    assert_eq!(render(&parse("  mut*,!  a ,, ").unwrap()), "mut *, !a");
}

#[test]
fn a_field_called_mut_is_not_read_back() {
    let tokens = vec![Selector::field(S, "mut")];
    assert_eq!(render(&tokens), "mut");
    assert_eq!(parse("mut"), None);
}
