//! The textual form of selectors.
//!
//! A selector is written as a list of items separated by commas. An item is
//! `*`, `mut *`, `!*`, `name`, `mut name` or `!name`, and may start with an
//! extent tag, written `'tag`. A bare name or `*` grants shared access, `mut`
//! exclusive access, and `!` none. Blanks may stand between any two of these
//! pieces, and commas may follow the last item.

use vstd::prelude::*;
use vstd::string::*;
use crate::capability::Capability;
use crate::selector::{token_views, Selector, SelectorSpec, Target, TargetSpec};

verus! {

/// One piece of a selector text.
#[derive(Debug, PartialEq, Eq)]
pub enum Lexeme {
    /// `*`
    Star,
    /// `!`
    Bang,
    /// `,`
    Comma,
    /// `'` and a name.
    Tag(String),
    /// A name, or the word `mut`.
    Word(String),
}

/// One piece of a selector text, as a mathematical value.
pub enum LexemeSpec {
    Star,
    Bang,
    Comma,
    Tag(Seq<char>),
    Word(Seq<char>),
}

impl View for Lexeme {
    type V = LexemeSpec;

    open spec fn view(&self) -> LexemeSpec {
        match self {
            Lexeme::Star => LexemeSpec::Star,
            Lexeme::Bang => LexemeSpec::Bang,
            Lexeme::Comma => LexemeSpec::Comma,
            Lexeme::Tag(name) => LexemeSpec::Tag(name@),
            Lexeme::Word(name) => LexemeSpec::Word(name@),
        }
    }
}

/// The lexemes of `lexemes`, each taken by its view.
pub open spec fn lexeme_views(lexemes: Seq<Lexeme>) -> Seq<LexemeSpec> {
    Seq::new(lexemes.len(), |i: int| lexemes[i]@)
}

/// A blank: a space, a tab or the end of a line.
pub open spec fn is_blank(c: char) -> bool {
    c == ' ' || c == '\t' || c == '\n' || c == '\r'
}

/// A character that a name may start with.
pub open spec fn starts_word(c: char) -> bool {
    ('a' <= c && c <= 'z') || ('A' <= c && c <= 'Z') || c == '_'
}

/// A character that a name may go on with.
pub open spec fn continues_word(c: char) -> bool {
    starts_word(c) || ('0' <= c && c <= '9')
}

/// The number of characters from position `from` of `text` on that a name
/// may go on with.
pub open spec fn word_run(text: Seq<char>, from: int) -> nat
    decreases text.len() - from,
{
    if 0 <= from < text.len() && continues_word(text[from]) {
        1 + word_run(text, from + 1)
    } else {
        0
    }
}

/// `rest` with `first` in front of it, where there is a `rest`.
pub open spec fn after<T>(first: Seq<T>, rest: Option<Seq<T>>) -> Option<Seq<T>> {
    match rest {
        Some(r) => Some(first + r),
        None => None,
    }
}

/// The lexemes of `text` from position `from` on; `None` where a character
/// fits no lexeme, or a `'` is not followed by a name.
pub open spec fn lex_from(text: Seq<char>, from: int) -> Option<Seq<LexemeSpec>>
    decreases text.len() - from,
{
    if from < 0 || from >= text.len() {
        Some(Seq::empty())
    } else if is_blank(text[from]) {
        lex_from(text, from + 1)
    } else if text[from] == '*' {
        after(seq![LexemeSpec::Star], lex_from(text, from + 1))
    } else if text[from] == '!' {
        after(seq![LexemeSpec::Bang], lex_from(text, from + 1))
    } else if text[from] == ',' {
        after(seq![LexemeSpec::Comma], lex_from(text, from + 1))
    } else if text[from] == '\'' {
        if from + 1 < text.len() && starts_word(text[from + 1]) {
            let end = from + 2 + word_run(text, from + 2);
            proof {
                lemma_word_run_bound(text, from + 2);
            }
            after(seq![LexemeSpec::Tag(text.subrange(from + 1, end))], lex_from(text, end))
        } else {
            None
        }
    } else if starts_word(text[from]) {
        let end = from + 1 + word_run(text, from + 1);
        proof {
            lemma_word_run_bound(text, from + 1);
        }
        after(seq![LexemeSpec::Word(text.subrange(from, end))], lex_from(text, end))
    } else {
        None
    }
}

/// The lexemes of a selector text.
pub open spec fn lex_spec(text: Seq<char>) -> Option<Seq<LexemeSpec>> {
    lex_from(text, 0)
}

/// A run of name characters ends within the text.
pub proof fn lemma_word_run_bound(text: Seq<char>, from: int)
    requires
        0 <= from <= text.len(),
    ensures
        from + word_run(text, from) <= text.len(),
        forall|i: int| from <= i < from + word_run(text, from) ==> continues_word(#[trigger] text[i]),
        from + word_run(text, from) < text.len() ==> !continues_word(
            text[from + word_run(text, from)],
        ),
    decreases text.len() - from,
{
    if from < text.len() && continues_word(text[from]) {
        lemma_word_run_bound(text, from + 1);
    }
}

/// Tells whether `c` is a blank.
fn blank(c: char) -> (r: bool)
    ensures
        r == is_blank(c),
{
    c == ' ' || c == '\t' || c == '\n' || c == '\r'
}

/// Tells whether a name may start with `c`.
fn word_start(c: char) -> (r: bool)
    ensures
        r == starts_word(c),
{
    ('a' <= c && c <= 'z') || ('A' <= c && c <= 'Z') || c == '_'
}

/// Tells whether a name may go on with `c`.
fn word_part(c: char) -> (r: bool)
    ensures
        r == continues_word(c),
{
    word_start(c) || ('0' <= c && c <= '9')
}

/// Finds the end of the run of name characters that starts at `from`.
fn scan_word(text: &str, len: usize, from: usize) -> (end: usize)
    requires
        len == text@.len(),
        from <= len,
    ensures
        end == from + word_run(text@, from as int),
        from <= end <= len,
{
    let mut end: usize = from;
    while end < len && word_part(text.get_char(end))
        invariant
            from <= end <= len,
            len == text@.len(),
            end + word_run(text@, end as int) == from + word_run(text@, from as int),
        decreases len - end,
    {
        end += 1;
    }
    end
}

/// Cuts a selector text into its lexemes.
pub fn lex(text: &str) -> (r: Option<Vec<Lexeme>>)
    ensures
        match lex_spec(text@) {
            Some(lexemes) => r matches Some(v) && lexeme_views(v@) == lexemes,
            None => r is None,
        },
{
    let len = text.unicode_len();
    let mut lexemes: Vec<Lexeme> = Vec::new();
    let mut at: usize = 0;
    while at < len
        invariant
            at <= len,
            len == text@.len(),
            lex_spec(text@) == after(lexeme_views(lexemes@), lex_from(text@, at as int)),
        decreases len - at,
    {
        let ghost before = lexeme_views(lexemes@);
        let c = text.get_char(at);
        if blank(c) {
            at += 1;
        } else if c == '*' {
            lexemes.push(Lexeme::Star);
            at += 1;
            proof {
                lemma_after_push(before, LexemeSpec::Star, lex_from(text@, at as int));
                assert(lexeme_views(lexemes@) =~= before.push(LexemeSpec::Star));
            }
        } else if c == '!' {
            lexemes.push(Lexeme::Bang);
            at += 1;
            proof {
                lemma_after_push(before, LexemeSpec::Bang, lex_from(text@, at as int));
                assert(lexeme_views(lexemes@) =~= before.push(LexemeSpec::Bang));
            }
        } else if c == ',' {
            lexemes.push(Lexeme::Comma);
            at += 1;
            proof {
                lemma_after_push(before, LexemeSpec::Comma, lex_from(text@, at as int));
                assert(lexeme_views(lexemes@) =~= before.push(LexemeSpec::Comma));
            }
        } else if c == '\'' {
            if at + 1 < len && word_start(text.get_char(at + 1)) {
                let end = scan_word(text, len, at + 2);
                let name = text.substring_char(at + 1, end).to_owned();
                let ghost tag = LexemeSpec::Tag(name@);
                lexemes.push(Lexeme::Tag(name));
                at = end;
                proof {
                    lemma_after_push(before, tag, lex_from(text@, at as int));
                    assert(lexeme_views(lexemes@) =~= before.push(tag));
                }
            } else {
                return None;
            }
        } else if word_start(c) {
            let end = scan_word(text, len, at + 1);
            let name = text.substring_char(at, end).to_owned();
            let ghost word = LexemeSpec::Word(name@);
            lexemes.push(Lexeme::Word(name));
            at = end;
            proof {
                lemma_after_push(before, word, lex_from(text@, at as int));
                assert(lexeme_views(lexemes@) =~= before.push(word));
            }
        } else {
            return None;
        }
    }
    proof {
        assert(lexeme_views(lexemes@) + Seq::<LexemeSpec>::empty() =~= lexeme_views(lexemes@));
    }
    Some(lexemes)
}

/// Moving the first item of what follows to the end of what came before
/// changes nothing.
proof fn lemma_after_push<T>(first: Seq<T>, item: T, rest: Option<Seq<T>>)
    ensures
        after(first, after(seq![item], rest)) == after(first.push(item), rest),
{
    if let Some(r) = rest {
        assert(first + (seq![item] + r) =~= first.push(item) + r);
    }
}

/// The word that asks for exclusive access.
pub open spec fn is_mut(word: Seq<char>) -> bool {
    word == "mut"@
}

/// What the lexeme at position `at` names as the target of an item: every
/// field for `*`, one field for a name. The word `mut` names no field.
pub open spec fn target_at(lexemes: Seq<LexemeSpec>, at: int) -> Option<TargetSpec> {
    if 0 <= at < lexemes.len() {
        match lexemes[at] {
            LexemeSpec::Star => Some(TargetSpec::All),
            LexemeSpec::Word(word) => if is_mut(word) {
                None
            } else {
                Some(TargetSpec::Field(word))
            },
            _ => None,
        }
    } else {
        None
    }
}

/// The item that starts at position `at`, with the position after it: an
/// extent tag, if there is one, and then a target alone (shared), `mut` and a
/// target (exclusive), or `!` and a target (hidden).
pub open spec fn item_at(lexemes: Seq<LexemeSpec>, at: int) -> Option<(SelectorSpec, int)> {
    let tagged = 0 <= at < lexemes.len() && lexemes[at] is Tag;
    let extent = if tagged {
        Some(lexemes[at]->Tag_0)
    } else {
        None
    };
    let body = if tagged {
        at + 1
    } else {
        at
    };
    if 0 <= body < lexemes.len() {
        match lexemes[body] {
            LexemeSpec::Bang => match target_at(lexemes, body + 1) {
                Some(target) => Some(
                    (SelectorSpec { extent, capability: Capability::Hidden, target }, body + 2),
                ),
                None => None,
            },
            LexemeSpec::Word(word) if is_mut(word) => match target_at(lexemes, body + 1) {
                Some(target) => Some(
                    (SelectorSpec { extent, capability: Capability::Exclusive, target }, body + 2),
                ),
                None => None,
            },
            _ => match target_at(lexemes, body) {
                Some(target) => Some(
                    (SelectorSpec { extent, capability: Capability::Shared, target }, body + 1),
                ),
                None => None,
            },
        }
    } else {
        None
    }
}

/// From position `from` on there are only commas.
pub open spec fn only_commas(lexemes: Seq<LexemeSpec>, from: int) -> bool {
    forall|i: int| from <= i < lexemes.len() ==> #[trigger] lexemes[i] is Comma
}

/// The items from position `at` on. The first item starts right there; each
/// later one follows a single comma. After the last item any number of commas
/// may stand.
pub open spec fn items_from(lexemes: Seq<LexemeSpec>, at: int, first: bool) -> Option<
    Seq<SelectorSpec>,
>
    decreases lexemes.len() - at,
{
    if at < 0 {
        None
    } else if only_commas(lexemes, at) {
        Some(Seq::empty())
    } else if !first && !(lexemes[at] is Comma) {
        None
    } else {
        match item_at(
            lexemes,
            if first {
                at
            } else {
                at + 1
            },
        ) {
            Some((token, next)) => after(seq![token], items_from(lexemes, next, false)),
            None => None,
        }
    }
}

/// The tokens that a selector text stands for; `None` where the text is not
/// a selector.
pub open spec fn parse_spec(text: Seq<char>) -> Option<Seq<SelectorSpec>> {
    match lex_spec(text) {
        Some(lexemes) => items_from(lexemes, 0, true),
        None => None,
    }
}

/// Tells whether `word` is the word `mut`.
fn names_mut(word: &String) -> (r: bool)
    ensures
        r == is_mut(word@),
{
    let keyword = "mut".to_owned();
    *word == keyword
}

/// Reads the target of an item at position `at`.
fn target(lexemes: &Vec<Lexeme>, at: usize) -> (r: Option<Target>)
    ensures
        match target_at(lexeme_views(lexemes@), at as int) {
            Some(t) => r matches Some(x) && x@ == t,
            None => r is None,
        },
{
    if at < lexemes.len() {
        match &lexemes[at] {
            Lexeme::Star => Some(Target::All),
            Lexeme::Word(word) => {
                if names_mut(word) {
                    None
                } else {
                    Some(Target::Field(word.clone()))
                }
            },
            _ => None,
        }
    } else {
        None
    }
}

/// Reads the item that starts at position `at`, and tells where it ends.
fn item(lexemes: &Vec<Lexeme>, at: usize) -> (r: Option<(Selector, usize)>)
    requires
        at <= lexemes@.len(),
    ensures
        match item_at(lexeme_views(lexemes@), at as int) {
            Some((token, next)) => r matches Some((x, n)) && x@ == token && n == next && at < n
                <= lexemes@.len(),
            None => r is None,
        },
{
    let ghost views = lexeme_views(lexemes@);
    let mut extent: Option<String> = None;
    let mut body: usize = at;
    if at < lexemes.len() {
        if let Lexeme::Tag(name) = &lexemes[at] {
            extent = Some(name.clone());
            body = at + 1;
        }
    }
    assert(views.len() == lexemes@.len());
    if body >= lexemes.len() {
        return None;
    }
    assert(views[body as int] == lexemes@[body as int]@);
    let exclusive = match &lexemes[body] {
        Lexeme::Word(word) => names_mut(word),
        _ => false,
    };
    let hidden = match &lexemes[body] {
        Lexeme::Bang => true,
        _ => false,
    };
    if hidden || exclusive {
        let capability = if hidden {
            Capability::Hidden
        } else {
            Capability::Exclusive
        };
        if body + 1 >= lexemes.len() {
            return None;
        }
        match target(lexemes, body + 1) {
            Some(target) => Some((Selector { extent, capability, target }, body + 2)),
            None => None,
        }
    } else {
        match target(lexemes, body) {
            Some(target) => Some(
                (Selector { extent, capability: Capability::Shared, target }, body + 1),
            ),
            None => None,
        }
    }
}

/// Tells whether only commas stand from position `from` on.
fn commas_only(lexemes: &Vec<Lexeme>, from: usize) -> (r: bool)
    ensures
        r == only_commas(lexeme_views(lexemes@), from as int),
{
    let ghost views = lexeme_views(lexemes@);
    let mut i: usize = from;
    while i < lexemes.len()
        invariant
            from <= i,
            views == lexeme_views(lexemes@),
            forall|j: int| from <= j < i && j < views.len() ==> #[trigger] views[j] is Comma,
        decreases lexemes@.len() - i,
    {
        match &lexemes[i] {
            Lexeme::Comma => {},
            _ => {
                assert(!(views[i as int] is Comma));
                return false;
            },
        }
        i += 1;
    }
    true
}

/// Reads the tokens of a selector off its lexemes.
pub fn parse_lexemes(lexemes: &Vec<Lexeme>) -> (r: Option<Vec<Selector>>)
    ensures
        match items_from(lexeme_views(lexemes@), 0, true) {
            Some(tokens) => r matches Some(v) && token_views(v@) == tokens,
            None => r is None,
        },
{
    let ghost views = lexeme_views(lexemes@);
    let mut tokens: Vec<Selector> = Vec::new();
    let mut at: usize = 0;
    let mut first = true;
    loop
        invariant
            at <= lexemes@.len(),
            views == lexeme_views(lexemes@),
            items_from(views, 0, true) == after(
                token_views(tokens@),
                items_from(views, at as int, first),
            ),
        decreases lexemes@.len() - at,
    {
        if commas_only(lexemes, at) {
            proof {
                assert(token_views(tokens@) + Seq::<SelectorSpec>::empty() =~= token_views(
                    tokens@,
                ));
            }
            return Some(tokens);
        }
        assert(at < lexemes.len());
        assert(views[at as int] == lexemes@[at as int]@);
        let start = if first {
            at
        } else {
            match &lexemes[at] {
                Lexeme::Comma => at + 1,
                _ => {
                    return None;
                },
            }
        };
        match item(lexemes, start) {
            Some((token, next)) => {
                let ghost before = token_views(tokens@);
                let ghost added = token@;
                tokens.push(token);
                proof {
                    lemma_after_push(before, added, items_from(views, next as int, false));
                    assert(token_views(tokens@) =~= before.push(added));
                }
                at = next;
                first = false;
            },
            None => {
                return None;
            },
        }
    }
}

/// Reads a selector text.
pub fn parse(text: &str) -> (r: Option<Vec<Selector>>)
    ensures
        match parse_spec(text@) {
            Some(tokens) => r matches Some(v) && token_views(v@) == tokens,
            None => r is None,
        },
{
    match lex(text) {
        Some(lexemes) => parse_lexemes(&lexemes),
        None => None,
    }
}

} // verus!
