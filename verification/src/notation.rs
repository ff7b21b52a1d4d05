//! Writing selectors out as text, and the proof that reading the text back
//! gives the same selectors.

use vstd::prelude::*;
use vstd::string::*;
use crate::capability::Capability;
use crate::selector::{token_views, Selector, SelectorSpec, Target, TargetSpec};
use crate::syntax::{
    after, continues_word, is_mut, item_at, items_from, lex_from, lex_spec, only_commas,
    parse_spec, starts_word, target_at, word_run, LexemeSpec,
};

verus! {

/// `word` can be written as a name: it is not empty, starts as a name starts
/// and goes on as a name goes on.
pub open spec fn is_word(word: Seq<char>) -> bool {
    &&& word.len() > 0
    &&& starts_word(word[0])
    &&& forall|i: int| 0 <= i < word.len() ==> continues_word(#[trigger] word[i])
}

/// `token` can be written as text: its extent tag, if it has one, is a name,
/// and so is the field that it speaks of, which is not called `mut`.
pub open spec fn writable(token: SelectorSpec) -> bool {
    &&& (token.extent matches Some(e) ==> is_word(e))
    &&& (token.target matches TargetSpec::Field(n) ==> is_word(n) && !is_mut(n))
}

/// The text of an extent tag: `'tag` and a space.
pub open spec fn tag_text(extent: Option<Seq<char>>) -> Seq<char> {
    match extent {
        Some(e) => seq!['\''] + e + seq![' '],
        None => Seq::empty(),
    }
}

/// The text that asks for a capability: nothing for shared access, `mut` and
/// a space for exclusive access, `!` for none.
pub open spec fn mark_text(capability: Capability) -> Seq<char> {
    match capability {
        Capability::Shared => Seq::empty(),
        Capability::Exclusive => seq!['m', 'u', 't', ' '],
        Capability::Hidden => seq!['!'],
    }
}

/// The text of a target: `*` for every field, and the name of one field.
pub open spec fn target_text(target: TargetSpec) -> Seq<char> {
    match target {
        TargetSpec::All => seq!['*'],
        TargetSpec::Field(n) => n,
    }
}

/// The text of one token.
pub open spec fn item_text(token: SelectorSpec) -> Seq<char> {
    tag_text(token.extent) + mark_text(token.capability) + target_text(token.target)
}

/// The text of tokens that follow another one: each after a comma and a
/// space.
pub open spec fn rest_text(tokens: Seq<SelectorSpec>) -> Seq<char>
    decreases tokens.len(),
{
    if tokens.len() == 0 {
        Seq::empty()
    } else {
        seq![',', ' '] + item_text(tokens[0]) + rest_text(tokens.skip(1))
    }
}

/// The text of a selector: its tokens in order, with a comma and a space
/// between any two.
pub open spec fn text_of(tokens: Seq<SelectorSpec>) -> Seq<char> {
    if tokens.len() == 0 {
        Seq::empty()
    } else {
        item_text(tokens[0]) + rest_text(tokens.skip(1))
    }
}

/// Writes a selector out as text.
pub fn render(tokens: &Vec<Selector>) -> (r: String)
    ensures
        r@ == text_of(token_views(tokens@)),
{
    let ghost specs = token_views(tokens@);
    let mut text = String::new();
    if tokens.len() == 0 {
        assert(text@ =~= text_of(specs));
        return text;
    }
    render_item(&mut text, &tokens[0]);
    assert(text@ =~= item_text(specs[0]));
    let mut i: usize = 1;
    proof {
        assert(specs.skip(1).take(0) =~= Seq::<SelectorSpec>::empty());
        assert(text@ =~= item_text(specs[0]) + rest_text(specs.skip(1).take(0)));
    }
    while i < tokens.len()
        invariant
            1 <= i <= tokens@.len(),
            specs == token_views(tokens@),
            text@ == item_text(specs[0]) + rest_text(specs.skip(1).take(i - 1)),
        decreases tokens@.len() - i,
    {
        text.append(", ");
        proof {
            reveal_strlit(", ");
            assert(", "@ =~= seq![',', ' ']);
        }
        render_item(&mut text, &tokens[i]);
        proof {
            let done = specs.skip(1).take(i - 1);
            let more = specs.skip(1).take(i as int);
            assert(more =~= done.push(specs[i as int]));
            lemma_rest_text_push(done, specs[i as int]);
            assert(text@ =~= item_text(specs[0]) + rest_text(more));
        }
        i += 1;
    }
    proof {
        assert(specs.skip(1).take(i - 1) =~= specs.skip(1));
    }
    text
}

/// Appends the text of one token.
fn render_item(text: &mut String, token: &Selector)
    ensures
        final(text)@ == old(text)@ + item_text(token@),
{
    let ghost start = text@;
    proof {
        reveal_strlit("'");
        reveal_strlit(" ");
        reveal_strlit("mut ");
        reveal_strlit("!");
        reveal_strlit("*");
        assert("'"@ =~= seq!['\'']);
        assert(" "@ =~= seq![' ']);
        assert("mut "@ =~= seq!['m', 'u', 't', ' ']);
        assert("!"@ =~= seq!['!']);
        assert("*"@ =~= seq!['*']);
    }
    match &token.extent {
        Some(e) => {
            text.append("'");
            text.append(e.as_str());
            text.append(" ");
        },
        None => {},
    }
    assert(text@ =~= start + tag_text(token@.extent));
    match token.capability {
        Capability::Shared => {},
        Capability::Exclusive => {
            text.append("mut ");
        },
        Capability::Hidden => {
            text.append("!");
        },
    }
    assert(text@ =~= start + tag_text(token@.extent) + mark_text(token@.capability));
    match &token.target {
        Target::All => {
            text.append("*");
        },
        Target::Field(n) => {
            text.append(n.as_str());
        },
    }
    assert(text@ =~= start + item_text(token@));
}

/// The text of a list that ends with `token` is the text of the list before
/// it, a comma, a space, and the text of `token`.
pub proof fn lemma_rest_text_push(tokens: Seq<SelectorSpec>, token: SelectorSpec)
    ensures
        rest_text(tokens.push(token)) == rest_text(tokens) + seq![',', ' '] + item_text(token),
    decreases tokens.len(),
{
    let all = tokens.push(token);
    if tokens.len() == 0 {
        assert(all.skip(1) =~= Seq::<SelectorSpec>::empty());
        assert(rest_text(all.skip(1)) =~= Seq::<char>::empty());
        assert(rest_text(all) =~= seq![',', ' '] + item_text(token));
        assert(rest_text(tokens) =~= Seq::<char>::empty());
        assert(rest_text(all) =~= rest_text(tokens) + seq![',', ' '] + item_text(token));
    } else {
        assert(all.skip(1) =~= tokens.skip(1).push(token));
        lemma_rest_text_push(tokens.skip(1), token);
        assert(all[0] == tokens[0]);
        assert(rest_text(all) =~= rest_text(tokens) + seq![',', ' '] + item_text(token));
    }
}

/// `piece` stands in `whole` at position `at`.
pub open spec fn has_at<T>(whole: Seq<T>, at: int, piece: Seq<T>) -> bool {
    &&& 0 <= at
    &&& at + piece.len() <= whole.len()
    &&& forall|i: int| 0 <= i < piece.len() ==> whole[at + i] == #[trigger] piece[i]
}

/// The lexemes of an extent tag.
pub open spec fn tag_lexemes(extent: Option<Seq<char>>) -> Seq<LexemeSpec> {
    match extent {
        Some(e) => seq![LexemeSpec::Tag(e)],
        None => Seq::empty(),
    }
}

/// The lexemes that ask for a capability.
pub open spec fn mark_lexemes(capability: Capability) -> Seq<LexemeSpec> {
    match capability {
        Capability::Shared => Seq::empty(),
        Capability::Exclusive => seq![LexemeSpec::Word(seq!['m', 'u', 't'])],
        Capability::Hidden => seq![LexemeSpec::Bang],
    }
}

/// The lexeme of a target.
pub open spec fn target_lexeme(target: TargetSpec) -> LexemeSpec {
    match target {
        TargetSpec::All => LexemeSpec::Star,
        TargetSpec::Field(n) => LexemeSpec::Word(n),
    }
}

/// The lexemes of one token.
pub open spec fn item_lexemes(token: SelectorSpec) -> Seq<LexemeSpec> {
    tag_lexemes(token.extent) + mark_lexemes(token.capability) + seq![
        target_lexeme(token.target),
    ]
}

/// The lexemes of tokens that follow another one: each after a comma.
pub open spec fn rest_lexemes(tokens: Seq<SelectorSpec>) -> Seq<LexemeSpec>
    decreases tokens.len(),
{
    if tokens.len() == 0 {
        Seq::empty()
    } else {
        seq![LexemeSpec::Comma] + item_lexemes(tokens[0]) + rest_lexemes(tokens.skip(1))
    }
}

/// The lexemes of a selector.
pub open spec fn lexemes_of(tokens: Seq<SelectorSpec>) -> Seq<LexemeSpec> {
    if tokens.len() == 0 {
        Seq::empty()
    } else {
        item_lexemes(tokens[0]) + rest_lexemes(tokens.skip(1))
    }
}

/// Every token of `tokens` can be written as text.
pub open spec fn all_writable(tokens: Seq<SelectorSpec>) -> bool {
    forall|i: int| 0 <= i < tokens.len() ==> writable(#[trigger] tokens[i])
}

/// Where a piece made of two parts stands, both parts stand, one after the
/// other.
proof fn lemma_has_at_split<T>(whole: Seq<T>, at: int, a: Seq<T>, b: Seq<T>)
    requires
        has_at(whole, at, a + b),
    ensures
        has_at(whole, at, a),
        has_at(whole, at + a.len(), b),
{
    let ab = a + b;
    assert forall|i: int| 0 <= i < a.len() implies whole[at + i] == #[trigger] a[i] by {
        assert(ab[i] == a[i]);
    }
    assert forall|i: int| 0 <= i < b.len() implies whole[at + a.len() + i] == #[trigger] b[i] by {
        assert(ab[a.len() + i] == b[i]);
    }
}

/// A run of exactly `count` name characters.
proof fn lemma_word_run_exact(text: Seq<char>, from: int, count: nat)
    requires
        0 <= from,
        from + count <= text.len(),
        forall|i: int| from <= i < from + count ==> continues_word(#[trigger] text[i]),
        from + count == text.len() || !continues_word(text[from + count]),
    ensures
        word_run(text, from) == count,
    decreases count,
{
    if count > 0 {
        lemma_word_run_exact(text, from + 1, (count - 1) as nat);
    }
}

/// Nesting `after` is the same as joining what comes first.
proof fn lemma_after_after<T>(a: Seq<T>, b: Seq<T>, rest: Option<Seq<T>>)
    ensures
        after(a, after(b, rest)) == after(a + b, rest),
{
    if let Some(r) = rest {
        assert(a + (b + r) =~= (a + b) + r);
    }
}

/// A name that stands in a text, and ends where the text ends or a
/// character follows that no name goes on with, is read as one word.
proof fn lemma_lex_word(text: Seq<char>, at: int, word: Seq<char>)
    requires
        has_at(text, at, word),
        is_word(word),
        at + word.len() == text.len() || !continues_word(text[at + word.len()]),
    ensures
        lex_from(text, at) == after(
            seq![LexemeSpec::Word(word)],
            lex_from(text, at + word.len()),
        ),
{
    assert(text[at + 0] == word[0]);
    assert forall|i: int| at + 1 <= i < at + word.len() implies continues_word(
        #[trigger] text[i],
    ) by {
        assert(text[at + (i - at)] == word[i - at]);
    }
    lemma_word_run_exact(text, at + 1, (word.len() - 1) as nat);
    assert(text.subrange(at, at + word.len()) =~= word) by {
        assert forall|i: int| 0 <= i < word.len() implies text.subrange(at, at + word.len())[i]
            == word[i] by {
            assert(text[at + i] == word[i]);
        }
    }
}

/// An extent tag that stands in a text is read as one tag, and the space
/// after it is skipped.
proof fn lemma_lex_tag(text: Seq<char>, at: int, extent: Seq<char>)
    requires
        has_at(text, at, tag_text(Some(extent))),
        is_word(extent),
    ensures
        lex_from(text, at) == after(
            seq![LexemeSpec::Tag(extent)],
            lex_from(text, at + extent.len() + 2),
        ),
{
    let piece = tag_text(Some(extent));
    assert(piece.len() == extent.len() + 2);
    assert(text[at + 0] == piece[0]);
    assert(piece[0] == '\'');
    assert forall|i: int| 0 <= i < extent.len() implies text[at + 1 + i] == extent[i] by {
        assert(text[at + (i + 1)] == piece[i + 1]);
        assert(piece[i + 1] == extent[i]);
    }
    assert(text[at + 1] == extent[0]);
    let end = at + 1 + extent.len();
    let last: int = extent.len() as int + 1;
    assert(text[at + last] == piece[last]);
    assert(piece[last] == ' ');
    assert(text[end] == ' ');
    assert forall|i: int| at + 2 <= i < end implies continues_word(#[trigger] text[i]) by {
        assert(text[at + 1 + (i - at - 1)] == extent[i - at - 1]);
    }
    lemma_word_run_exact(text, at + 2, (extent.len() - 1) as nat);
    assert(text.subrange(at + 1, end) =~= extent) by {
        assert forall|i: int| 0 <= i < extent.len() implies text.subrange(at + 1, end)[i]
            == extent[i] by {
            assert(text[at + 1 + i] == extent[i]);
        }
    }
    assert(lex_from(text, end) == lex_from(text, end + 1));
}

/// The text of a token that stands in a text, and ends where the text ends
/// or a comma follows, is read as the lexemes of the token.
proof fn lemma_lex_item(text: Seq<char>, at: int, token: SelectorSpec)
    requires
        has_at(text, at, item_text(token)),
        writable(token),
        at + item_text(token).len() == text.len() || text[at + item_text(token).len()] == ',',
    ensures
        lex_from(text, at) == after(
            item_lexemes(token),
            lex_from(text, at + item_text(token).len()),
        ),
{
    let tag = tag_text(token.extent);
    let mark = mark_text(token.capability);
    let target = target_text(token.target);
    assert(item_text(token) == (tag + mark) + target);
    lemma_has_at_split(text, at, tag + mark, target);
    lemma_has_at_split(text, at, tag, mark);
    let at_mark = at + tag.len();
    let at_target = at_mark + mark.len();
    let end = at_target + target.len();
    assert(end == at + item_text(token).len());

    // The target.
    let after_target = lex_from(text, end);
    assert(lex_from(text, at_target) == after(seq![target_lexeme(token.target)], after_target))
        by {
        match token.target {
            TargetSpec::All => {
                assert(text[at_target + 0] == target[0]);
            },
            TargetSpec::Field(n) => {
                lemma_lex_word(text, at_target, n);
            },
        }
    }

    // The mark in front of it.
    let from_target = lex_from(text, at_target);
    assert(lex_from(text, at_mark) == after(mark_lexemes(token.capability), from_target)) by {
        match token.capability {
            Capability::Shared => {
                if let Some(r) = from_target {
                    assert(Seq::<LexemeSpec>::empty() + r =~= r);
                }
            },
            Capability::Exclusive => {
                assert(text[at_mark + 0] == mark[0]);
                assert(text[at_mark + 1] == mark[1]);
                assert(text[at_mark + 2] == mark[2]);
                assert(text[at_mark + 3] == mark[3]);
                lemma_word_run_exact(text, at_mark + 1, 2);
                assert(text.subrange(at_mark, at_mark + 3) =~= seq!['m', 'u', 't']);
                assert(lex_from(text, at_mark + 3) == lex_from(text, at_mark + 4));
            },
            Capability::Hidden => {
                assert(text[at_mark + 0] == mark[0]);
            },
        }
    }

    // The tag in front of both.
    let from_mark = lex_from(text, at_mark);
    assert(lex_from(text, at) == after(tag_lexemes(token.extent), from_mark)) by {
        match token.extent {
            Some(e) => {
                lemma_lex_tag(text, at, e);
            },
            None => {
                if let Some(r) = from_mark {
                    assert(Seq::<LexemeSpec>::empty() + r =~= r);
                }
            },
        }
    }
    lemma_after_after(
        mark_lexemes(token.capability),
        seq![target_lexeme(token.target)],
        after_target,
    );
    lemma_after_after(
        tag_lexemes(token.extent),
        mark_lexemes(token.capability) + seq![target_lexeme(token.target)],
        after_target,
    );
    assert(tag_lexemes(token.extent) + (mark_lexemes(token.capability) + seq![
        target_lexeme(token.target),
    ]) =~= item_lexemes(token));
}

/// The text of following tokens, standing at the end of a text, is read as
/// their lexemes.
proof fn lemma_lex_rest(text: Seq<char>, at: int, tokens: Seq<SelectorSpec>)
    requires
        has_at(text, at, rest_text(tokens)),
        at + rest_text(tokens).len() == text.len(),
        all_writable(tokens),
    ensures
        lex_from(text, at) == Some(rest_lexemes(tokens)),
    decreases tokens.len(),
{
    if tokens.len() == 0 {
        assert(rest_lexemes(tokens) =~= Seq::<LexemeSpec>::empty());
    } else {
        let separator = seq![',', ' '];
        let item = item_text(tokens[0]);
        let more = rest_text(tokens.skip(1));
        assert(rest_text(tokens) == (separator + item) + more);
        lemma_has_at_split(text, at, separator + item, more);
        lemma_has_at_split(text, at, separator, item);
        assert(text[at + 0] == separator[0]);
        assert(text[at + 1] == separator[1]);
        let at_item = at + 2;
        let at_more = at_item + item.len();
        lemma_writable_tail(tokens);
        if tokens.skip(1).len() > 0 {
            let next = tokens.skip(1);
            assert(more == (seq![',', ' '] + item_text(next[0])) + rest_text(next.skip(1)));
            assert(more[0] == ',');
            assert(text[at_more + 0] == more[0]);
        } else {
            assert(more =~= Seq::<char>::empty());
        }
        lemma_lex_item(text, at_item, tokens[0]);
        lemma_lex_rest(text, at_more, tokens.skip(1));
        assert(lex_from(text, at) == after(seq![LexemeSpec::Comma], lex_from(text, at + 1)));
        assert(lex_from(text, at + 1) == lex_from(text, at_item));
        assert(seq![LexemeSpec::Comma] + (item_lexemes(tokens[0]) + rest_lexemes(tokens.skip(1)))
            =~= rest_lexemes(tokens));
    }
}

/// The text of a selector is read as the lexemes of the selector.
pub proof fn lemma_lex_text_of(tokens: Seq<SelectorSpec>)
    requires
        all_writable(tokens),
    ensures
        lex_spec(text_of(tokens)) == Some(lexemes_of(tokens)),
{
    let text = text_of(tokens);
    if tokens.len() == 0 {
    } else {
        let item = item_text(tokens[0]);
        let more = rest_text(tokens.skip(1));
        assert(has_at(text, 0, item + more));
        lemma_has_at_split(text, 0, item, more);
        lemma_writable_tail(tokens);
        if tokens.skip(1).len() > 0 {
            let next = tokens.skip(1);
            assert(more == (seq![',', ' '] + item_text(next[0])) + rest_text(next.skip(1)));
            assert(more[0] == ',');
            let at_more: int = item.len() as int;
            assert(text[at_more + 0] == more[0]);
        } else {
            assert(more =~= Seq::<char>::empty());
        }
        lemma_lex_item(text, 0, tokens[0]);
        lemma_lex_rest(text, item.len() as int, tokens.skip(1));
    }
}

/// The lexemes of a token, standing among lexemes, are read as the token.
proof fn lemma_item_at(lexemes: Seq<LexemeSpec>, at: int, token: SelectorSpec)
    requires
        has_at(lexemes, at, item_lexemes(token)),
        writable(token),
    ensures
        item_at(lexemes, at) == Some((token, at + item_lexemes(token).len())),
{
    reveal_strlit("mut");
    assert("mut"@ =~= seq!['m', 'u', 't']);
    let tag = tag_lexemes(token.extent);
    let mark = mark_lexemes(token.capability);
    let target = seq![target_lexeme(token.target)];
    assert(item_lexemes(token) == (tag + mark) + target);
    lemma_has_at_split(lexemes, at, tag + mark, target);
    lemma_has_at_split(lexemes, at, tag, mark);
    let body = at + tag.len();
    let at_target = body + mark.len();
    assert(lexemes[at_target + 0] == target[0]);
    assert(target_at(lexemes, at_target) == Some(token.target));
    if mark.len() > 0 {
        assert(lexemes[body + 0] == mark[0]);
    }
    if tag.len() > 0 {
        assert(lexemes[at + 0] == tag[0]);
    }
    assert(lexemes[body] == if mark.len() > 0 {
        mark[0]
    } else {
        target[0]
    });
    assert(!(lexemes[body] is Tag));
}

/// One step of reading items: where the lexemes of a token stand at the
/// start of the items, or after a comma that follows an earlier item, the
/// token is read first, and then whatever follows it.
proof fn lemma_items_step(
    lexemes: Seq<LexemeSpec>,
    at: int,
    first: bool,
    token: SelectorSpec,
    tail: Seq<SelectorSpec>,
)
    requires
        0 <= at,
        !first ==> at < lexemes.len() && lexemes[at] is Comma,
        has_at(
            lexemes,
            if first {
                at
            } else {
                at + 1
            },
            item_lexemes(token),
        ),
        writable(token),
        items_from(
            lexemes,
            if first {
                at
            } else {
                at + 1
            } + item_lexemes(token).len(),
            false,
        ) == Some(tail),
    ensures
        items_from(lexemes, at, first) == Some(seq![token] + tail),
{
    let start = if first {
        at
    } else {
        at + 1
    };
    let item = item_lexemes(token);
    let last: int = item.len() as int - 1;
    assert(item[last] == target_lexeme(token.target));
    assert(lexemes[start + last] == item[last]);
    assert(!(lexemes[start + last] is Comma));
    assert(!only_commas(lexemes, at));
    lemma_item_at(lexemes, start, token);
}

/// The tokens after the first are writable if all are.
proof fn lemma_writable_tail(tokens: Seq<SelectorSpec>)
    requires
        all_writable(tokens),
        tokens.len() > 0,
    ensures
        writable(tokens[0]),
        all_writable(tokens.skip(1)),
{
    assert forall|i: int| 0 <= i < tokens.skip(1).len() implies writable(
        #[trigger] tokens.skip(1)[i],
    ) by {
        assert(writable(tokens[i + 1]));
    }
}

/// The lexemes of following tokens, standing at the end of the lexemes, are
/// read as those tokens.
proof fn lemma_items_rest(lexemes: Seq<LexemeSpec>, at: int, tokens: Seq<SelectorSpec>)
    requires
        has_at(lexemes, at, rest_lexemes(tokens)),
        at + rest_lexemes(tokens).len() == lexemes.len(),
        all_writable(tokens),
    ensures
        items_from(lexemes, at, false) == Some(tokens),
    decreases tokens.len(),
{
    if tokens.len() == 0 {
        assert(tokens =~= Seq::<SelectorSpec>::empty());
    } else {
        let comma = seq![LexemeSpec::Comma];
        let item = item_lexemes(tokens[0]);
        let more = rest_lexemes(tokens.skip(1));
        assert(rest_lexemes(tokens) == (comma + item) + more);
        lemma_has_at_split(lexemes, at, comma + item, more);
        lemma_has_at_split(lexemes, at, comma, item);
        assert(lexemes[at + 0] == comma[0]);
        lemma_writable_tail(tokens);
        lemma_items_rest(lexemes, at + 1 + item.len(), tokens.skip(1));
        lemma_items_step(lexemes, at, false, tokens[0], tokens.skip(1));
        assert(seq![tokens[0]] + tokens.skip(1) =~= tokens);
    }
}

/// The lexemes of a selector are read as the selector.
pub proof fn lemma_items_of_lexemes(tokens: Seq<SelectorSpec>)
    requires
        all_writable(tokens),
    ensures
        items_from(lexemes_of(tokens), 0, true) == Some(tokens),
{
    let lexemes = lexemes_of(tokens);
    if tokens.len() == 0 {
        assert(tokens =~= Seq::<SelectorSpec>::empty());
    } else {
        let item = item_lexemes(tokens[0]);
        let more = rest_lexemes(tokens.skip(1));
        assert(has_at(lexemes, 0, item + more));
        lemma_has_at_split(lexemes, 0, item, more);
        lemma_writable_tail(tokens);
        lemma_items_rest(lexemes, item.len() as int, tokens.skip(1));
        lemma_items_step(lexemes, 0, true, tokens[0], tokens.skip(1));
        assert(seq![tokens[0]] + tokens.skip(1) =~= tokens);
    }
}

/// Reading the text of a selector gives the selector back, provided that
/// its names and extent tags can be written as names.
pub proof fn lemma_parse_text_of(tokens: Seq<SelectorSpec>)
    requires
        all_writable(tokens),
    ensures
        parse_spec(text_of(tokens)) == Some(tokens),
{
    lemma_lex_text_of(tokens);
    lemma_items_of_lexemes(tokens);
}

} // verus!
