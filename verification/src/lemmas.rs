//! Lemmas about the syntax model: how token sequences compose, and which
//! tokens begin at a position, given what the text holds from there on.

use vstd::prelude::*;
use crate::syntax::{
    closing_brace, dollar_run, dollars, first_undefined, key_names, render, replaces_any,
    source_text, tokens_from, Token,
};

verus! {

/// `n` dollar signs that stand for themselves, as tokens.
pub open spec fn literal_dollars(n: nat) -> Seq<Token> {
    Seq::new(n, |i: int| Token::Text(seq!['$']))
}

/// Whether every character of `s` from index `from` up to index `to` is a dollar sign.
pub open spec fn all_dollars(s: Seq<char>, from: int, to: int) -> bool {
    forall|j: int| from <= j < to ==> s[j] == '$'
}

/// Whether no character of `s` from index `from` up to index `to` is `}`.
pub open spec fn no_closing_brace(s: Seq<char>, from: int, to: int) -> bool {
    forall|j: int| from <= j < to ==> s[j] != '}'
}

/// Dollar signs from index `from` up to index `to`, and none at `to`, make a
/// run of that length.
pub proof fn lemma_dollar_run_length(s: Seq<char>, from: int, to: int)
    requires
        0 <= from <= to <= s.len(),
        all_dollars(s, from, to),
        to == s.len() || s[to] != '$',
    ensures
        dollar_run(s, from) == to - from,
    decreases to - from,
{
    if from < to {
        lemma_dollar_run_length(s, from + 1, to);
    }
}

/// No `}` from index `from` up to index `to`, and one at `to` or the end of
/// the text there, puts the first `}` at `to`.
pub proof fn lemma_closing_brace_found(s: Seq<char>, from: int, to: int)
    requires
        0 <= from <= to <= s.len(),
        no_closing_brace(s, from, to),
        to == s.len() || s[to] == '}',
    ensures
        closing_brace(s, from) == to,
    decreases to - from,
{
    if from < to {
        lemma_closing_brace_found(s, from + 1, to);
    }
}

/// A character that is no dollar sign is text.
pub proof fn lemma_tokens_text(s: Seq<char>, at: int)
    requires
        0 <= at < s.len(),
        s[at] != '$',
    ensures
        tokens_from(s, at) == seq![Token::Text(s.subrange(at, at + 1))] + tokens_from(s, at + 1),
{
}

/// A run of dollar signs that neither `$` nor `{` follows is so many tokens of text.
pub proof fn lemma_tokens_dollars(s: Seq<char>, from: int, to: int)
    requires
        0 <= from <= to <= s.len(),
        all_dollars(s, from, to),
        to == s.len() || (s[to] != '$' && s[to] != '{'),
    ensures
        tokens_from(s, from) == literal_dollars((to - from) as nat) + tokens_from(s, to),
    decreases to - from,
{
    if from < to {
        lemma_dollar_run_length(s, from, to);
        lemma_tokens_dollars(s, from + 1, to);
        assert(s.subrange(from, from + 1) =~= seq!['$']);
        assert(seq![Token::Text(seq!['$'])] + (literal_dollars((to - from - 1) as nat) + tokens_from(
            s,
            to,
        )) =~= literal_dollars((to - from) as nat) + tokens_from(s, to));
    } else {
        assert(literal_dollars(0) + tokens_from(s, to) =~= tokens_from(s, to));
    }
}

/// A run of two or more dollar signs before `{` is one escape.
pub proof fn lemma_tokens_escape(s: Seq<char>, from: int, to: int)
    requires
        0 <= from,
        from + 2 <= to < s.len(),
        all_dollars(s, from, to),
        s[to] == '{',
    ensures
        tokens_from(s, from) == seq![Token::Escape((to - from) as nat)] + tokens_from(s, to + 1),
{
    lemma_dollar_run_length(s, from, to);
}

/// `${`, a key without `}` and then `}` is one placeholder.
pub proof fn lemma_tokens_placeholder(s: Seq<char>, from: int, to: int)
    requires
        0 <= from,
        from + 2 <= to < s.len(),
        s[from] == '$',
        s[from + 1] == '{',
        no_closing_brace(s, from + 2, to),
        s[to] == '}',
    ensures
        tokens_from(s, from) == seq![Token::Placeholder(s.subrange(from + 2, to))] + tokens_from(
            s,
            to + 1,
        ),
{
    lemma_dollar_run_length(s, from, from + 1);
    lemma_closing_brace_found(s, from + 2, to);
}

/// `${` and a key without `}` up to the end of the text is one unclosed placeholder.
pub proof fn lemma_tokens_unclosed(s: Seq<char>, from: int)
    requires
        0 <= from,
        from + 2 <= s.len(),
        s[from] == '$',
        s[from + 1] == '{',
        no_closing_brace(s, from + 2, s.len() as int),
    ensures
        tokens_from(s, from) == seq![Token::Unclosed(s.subrange(from + 2, s.len() as int))],
{
    lemma_dollar_run_length(s, from, from + 1);
    lemma_closing_brace_found(s, from + 2, s.len() as int);
}

/// The source of two token sequences in a row is the two sources in a row.
pub proof fn lemma_source_text_concat(a: Seq<Token>, b: Seq<Token>)
    ensures
        source_text(a + b) == source_text(a) + source_text(b),
    decreases a.len(),
{
    if a.len() == 0 {
        assert(a + b =~= b);
        assert(source_text(a) + source_text(b) =~= source_text(b));
    } else {
        assert((a + b).drop_first() =~= a.drop_first() + b);
        lemma_source_text_concat(a.drop_first(), b);
        assert(a[0].source() + (source_text(a.drop_first()) + source_text(b)) =~= (a[0].source()
            + source_text(a.drop_first())) + source_text(b));
    }
}

/// Two token sequences in a row render to the two outputs in a row.
pub proof fn lemma_render_concat(a: Seq<Token>, b: Seq<Token>, vars: Map<Seq<char>, Seq<char>>)
    ensures
        render(a + b, vars) == render(a, vars) + render(b, vars),
    decreases a.len(),
{
    if a.len() == 0 {
        assert(a + b =~= b);
        assert(render(a, vars) + render(b, vars) =~= render(b, vars));
    } else {
        assert((a + b).drop_first() =~= a.drop_first() + b);
        lemma_render_concat(a.drop_first(), b, vars);
        assert(a[0].output(vars) + (render(a.drop_first(), vars) + render(b, vars)) =~= (
        a[0].output(vars) + render(a.drop_first(), vars)) + render(b, vars));
    }
}

/// Two token sequences in a row hold a replacement exactly if one of them does.
pub proof fn lemma_replaces_any_concat(
    a: Seq<Token>,
    b: Seq<Token>,
    vars: Map<Seq<char>, Seq<char>>,
)
    ensures
        replaces_any(a + b, vars) == (replaces_any(a, vars) || replaces_any(b, vars)),
{
    if replaces_any(a, vars) {
        let i = choose|i: int| 0 <= i < a.len() && (#[trigger] a[i]).replaces(vars);
        assert((a + b)[i].replaces(vars));
    }
    if replaces_any(b, vars) {
        let i = choose|i: int| 0 <= i < b.len() && (#[trigger] b[i]).replaces(vars);
        assert((a + b)[a.len() + i].replaces(vars));
    }
    if replaces_any(a + b, vars) {
        let i = choose|i: int| 0 <= i < (a + b).len() && (#[trigger] (a + b)[i]).replaces(vars);
        if i < a.len() {
            assert(a[i].replaces(vars));
        } else {
            assert(b[i - a.len()].replaces(vars));
        }
    }
}

/// The first undefined key of two token sequences in a row is that of the
/// first, or, where the first has none, that of the second.
pub proof fn lemma_first_undefined_concat(
    a: Seq<Token>,
    b: Seq<Token>,
    vars: Map<Seq<char>, Seq<char>>,
)
    ensures
        first_undefined(a + b, vars) == if first_undefined(a, vars) is Some {
            first_undefined(a, vars)
        } else {
            first_undefined(b, vars)
        },
    decreases a.len(),
{
    if a.len() == 0 {
        assert(a + b =~= b);
    } else {
        assert((a + b).drop_first() =~= a.drop_first() + b);
        lemma_first_undefined_concat(a.drop_first(), b, vars);
    }
}

/// Two token sequences in a row name the keys of the first, then those of the second.
pub proof fn lemma_key_names_concat(a: Seq<Token>, b: Seq<Token>)
    ensures
        key_names(a + b) == key_names(a) + key_names(b),
    decreases a.len(),
{
    if a.len() == 0 {
        assert(a + b =~= b);
        assert(key_names(a) + key_names(b) =~= key_names(b));
    } else {
        assert((a + b).drop_first() =~= a.drop_first() + b);
        lemma_key_names_concat(a.drop_first(), b);
        if a[0] is Placeholder {
            assert(seq![a[0]->Placeholder_0] + (key_names(a.drop_first()) + key_names(b)) =~= (
            seq![a[0]->Placeholder_0] + key_names(a.drop_first())) + key_names(b));
        }
    }
}

/// What the model says of a single token.
pub proof fn lemma_single_token(t: Token, vars: Map<Seq<char>, Seq<char>>)
    ensures
        source_text(seq![t]) == t.source(),
        render(seq![t], vars) == t.output(vars),
        replaces_any(seq![t], vars) == t.replaces(vars),
        first_undefined(seq![t], vars) == if t.undefined(vars) {
            Some(t->Placeholder_0)
        } else {
            None
        },
        key_names(seq![t]) == if t is Placeholder {
            seq![t->Placeholder_0]
        } else {
            Seq::empty()
        },
{
    let one = seq![t];
    let none = Seq::<Token>::empty();
    assert(one.drop_first() =~= none);
    assert(source_text(none) =~= Seq::<char>::empty());
    assert(render(none, vars) =~= Seq::<char>::empty());
    assert(first_undefined(none, vars) is None);
    assert(key_names(none) =~= Seq::<Seq<char>>::empty());
    assert(source_text(one) =~= t.source());
    assert(render(one, vars) =~= t.output(vars));
    if t.replaces(vars) {
        assert(one[0].replaces(vars));
    }
    if t is Placeholder {
        assert(key_names(one) =~= seq![t->Placeholder_0]);
    }
}

/// What the model says of a run of literal dollar signs.
pub proof fn lemma_literal_dollars(n: nat, vars: Map<Seq<char>, Seq<char>>)
    ensures
        source_text(literal_dollars(n)) == dollars(n),
        render(literal_dollars(n), vars) == dollars(n),
        !replaces_any(literal_dollars(n), vars),
        first_undefined(literal_dollars(n), vars) is None,
        key_names(literal_dollars(n)) == Seq::<Seq<char>>::empty(),
    decreases n,
{
    if n == 0 {
        assert(dollars(0) =~= Seq::<char>::empty());
    } else {
        let m = (n - 1) as nat;
        lemma_literal_dollars(m, vars);
        assert(literal_dollars(n).drop_first() =~= literal_dollars(m));
        assert(seq!['$'] + dollars(m) =~= dollars(n));
    }
}

} // verus!
