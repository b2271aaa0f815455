//! What holds of the syntax model for every text and every table.

use vstd::prelude::*;
use crate::lemmas::{
    all_dollars, lemma_first_undefined_concat, lemma_key_names_concat,
    lemma_replaces_any_concat, lemma_single_token, lemma_source_text_concat,
};
use crate::table::{is_valid_key, last_value, with_pairs};
use crate::syntax::{
    closing_brace, dollar_run, dollars, first_undefined, key_names,
    lemma_closing_brace_bounds, opened_text, placeholder_text, render, replaces_any,
    source_text, tokenize, tokens_from, Token,
};

verus! {

/// The run of dollar signs at an index lies within the text, holds dollar
/// signs only, and ends where the text ends or another character stands.
pub proof fn lemma_dollar_run_bounds(s: Seq<char>, i: int)
    requires
        0 <= i <= s.len(),
    ensures
        i + dollar_run(s, i) <= s.len(),
        all_dollars(s, i, i + dollar_run(s, i)),
        i + dollar_run(s, i) == s.len() || s[i + dollar_run(s, i)] != '$',
    decreases s.len() - i,
{
    if i < s.len() && s[i] == '$' {
        lemma_dollar_run_bounds(s, i + 1);
    }
}

/// The tokens from an index on, written out again, are the text from that index on.
pub proof fn lemma_tokens_cover_suffix(s: Seq<char>, i: int)
    requires
        0 <= i <= s.len(),
    ensures
        source_text(tokens_from(s, i)) == s.subrange(i, s.len() as int),
    decreases s.len() - i,
{
    let len = s.len() as int;
    let toks = tokens_from(s, i);
    if i == len {
        assert(toks =~= Seq::<Token>::empty());
        assert(s.subrange(i, len) =~= Seq::<char>::empty());
    } else {
        let n = dollar_run(s, i);
        let brace = i + n;
        lemma_dollar_run_bounds(s, i);
        if s[i] == '$' && brace < len && s[brace] == '{' {
            if n == 1 {
                lemma_closing_brace_bounds(s, brace + 1);
                let end = closing_brace(s, brace + 1);
                let key = s.subrange(brace + 1, end);
                if end < len {
                    let t = Token::Placeholder(key);
                    lemma_tokens_cover_suffix(s, end + 1);
                    lemma_single_token(t, Map::empty());
                    lemma_source_text_concat(seq![t], tokens_from(s, end + 1));
                    assert(placeholder_text(key) + s.subrange(end + 1, len) =~= s.subrange(
                        i,
                        len,
                    ));
                } else {
                    let t = Token::Unclosed(key);
                    lemma_single_token(t, Map::empty());
                    assert(opened_text(key) =~= s.subrange(i, len));
                }
            } else {
                let t = Token::Escape(n);
                lemma_tokens_cover_suffix(s, brace + 1);
                lemma_single_token(t, Map::empty());
                lemma_source_text_concat(seq![t], tokens_from(s, brace + 1));
                assert(dollars(n).push('{') + s.subrange(brace + 1, len) =~= s.subrange(i, len));
            }
        } else {
            let t = Token::Text(s.subrange(i, i + 1));
            lemma_tokens_cover_suffix(s, i + 1);
            lemma_single_token(t, Map::empty());
            lemma_source_text_concat(seq![t], tokens_from(s, i + 1));
            assert(s.subrange(i, i + 1) + s.subrange(i + 1, len) =~= s.subrange(i, len));
        }
    }
}

/// The tokens of a text lose nothing: written out again, one after the other,
/// they are the text.
pub proof fn lemma_tokens_cover_text(s: Seq<char>)
    ensures
        source_text(tokenize(s)) == s,
{
    lemma_tokens_cover_suffix(s, 0);
    assert(s.subrange(0, s.len() as int) =~= s);
}

/// Tokens of which none counts as a replacement turn into what they were read from.
pub proof fn lemma_unreplaced_tokens(toks: Seq<Token>, vars: Map<Seq<char>, Seq<char>>)
    requires
        !replaces_any(toks, vars),
    ensures
        render(toks, vars) == source_text(toks),
    decreases toks.len(),
{
    if toks.len() > 0 {
        let rest = toks.drop_first();
        assert(!toks[0].replaces(vars));
        assert forall|i: int| 0 <= i < rest.len() implies !(#[trigger] rest[i]).replaces(vars) by {
            assert(!toks[i + 1].replaces(vars));
        }
        lemma_unreplaced_tokens(rest, vars);
    }
}

/// A text in which nothing is replaced comes out as it went in.
pub proof fn lemma_unreplaced_text(s: Seq<char>, vars: Map<Seq<char>, Seq<char>>)
    requires
        !replaces_any(tokenize(s), vars),
    ensures
        render(tokenize(s), vars) == s,
{
    lemma_unreplaced_tokens(tokenize(s), vars);
    lemma_tokens_cover_text(s);
}

/// From an index on which no dollar sign follows, every token is text.
pub proof fn lemma_no_dollar_suffix(s: Seq<char>, i: int, vars: Map<Seq<char>, Seq<char>>)
    requires
        0 <= i <= s.len(),
        forall|j: int| i <= j < s.len() ==> s[j] != '$',
    ensures
        !replaces_any(tokens_from(s, i), vars),
        first_undefined(tokens_from(s, i), vars) is None,
        key_names(tokens_from(s, i)) == Seq::<Seq<char>>::empty(),
    decreases s.len() - i,
{
    if i < s.len() {
        let t = Token::Text(s.subrange(i, i + 1));
        let rest = tokens_from(s, i + 1);
        lemma_no_dollar_suffix(s, i + 1, vars);
        lemma_single_token(t, vars);
        lemma_replaces_any_concat(seq![t], rest, vars);
        lemma_first_undefined_concat(seq![t], rest, vars);
        lemma_key_names_concat(seq![t], rest);
        assert(key_names(seq![t]) + key_names(rest) =~= Seq::<Seq<char>>::empty());
    } else {
        assert(tokens_from(s, i) =~= Seq::<Token>::empty());
    }
}

/// A text without a dollar sign passes through: nothing in it is replaced, it
/// names no key, no key in it is undefined, and it comes out as it went in.
pub proof fn lemma_no_dollar_passes_through(s: Seq<char>, vars: Map<Seq<char>, Seq<char>>)
    requires
        !s.contains('$'),
    ensures
        !replaces_any(tokenize(s), vars),
        first_undefined(tokenize(s), vars) is None,
        key_names(tokenize(s)) == Seq::<Seq<char>>::empty(),
        render(tokenize(s), vars) == s,
{
    assert forall|j: int| 0 <= j < s.len() implies s[j] != '$' by {
        if s[j] == '$' {
            assert(s.contains('$'));
        }
    }
    lemma_no_dollar_suffix(s, 0, vars);
    lemma_unreplaced_text(s, vars);
}

/// Whether some token is an escape.
pub open spec fn has_escape(toks: Seq<Token>) -> bool {
    exists|i: int| 0 <= i < toks.len() && (#[trigger] toks[i]) is Escape
}

/// What rendered tokens give when every value goes back to the placeholder
/// that it came from: a placeholder is written as `${KEY}`, whether its key
/// has a value or not, and every other token stays as it was rendered.
pub open spec fn restored(toks: Seq<Token>, vars: Map<Seq<char>, Seq<char>>) -> Seq<char>
    decreases toks.len(),
{
    if toks.len() == 0 {
        Seq::empty()
    } else {
        let first = match toks[0] {
            Token::Placeholder(key) => placeholder_text(key),
            other => other.output(vars),
        };
        first + restored(toks.drop_first(), vars)
    }
}

/// Putting the placeholders back gives what the empty table gives: the text
/// with its escapes collapsed, whatever the values were.
pub proof fn lemma_restored_is_render_without_values(
    toks: Seq<Token>,
    vars: Map<Seq<char>, Seq<char>>,
)
    ensures
        restored(toks, vars) == render(toks, Map::empty()),
    decreases toks.len(),
{
    if toks.len() > 0 {
        lemma_restored_is_render_without_values(toks.drop_first(), vars);
    }
}

/// Putting the placeholders back into tokens without an escape gives what the
/// tokens were read from.
pub proof fn lemma_restored_tokens(toks: Seq<Token>, vars: Map<Seq<char>, Seq<char>>)
    requires
        !has_escape(toks),
    ensures
        restored(toks, vars) == source_text(toks),
    decreases toks.len(),
{
    if toks.len() > 0 {
        let rest = toks.drop_first();
        assert(!(toks[0] is Escape));
        assert forall|i: int| 0 <= i < rest.len() implies !((#[trigger] rest[i]) is Escape) by {
            assert(!(toks[i + 1] is Escape));
        }
        lemma_restored_tokens(rest, vars);
    }
}

/// The round trip: in a text without an escape, putting the placeholder back
/// in the place of every value gives the text again. The tokens keep which
/// places were substituted; the output alone does not.
pub proof fn lemma_round_trip(s: Seq<char>, vars: Map<Seq<char>, Seq<char>>)
    requires
        !has_escape(tokenize(s)),
    ensures
        restored(tokenize(s), vars) == s,
{
    lemma_restored_tokens(tokenize(s), vars);
    lemma_tokens_cover_text(s);
}

/// No placeholder is undefined exactly if every key that the tokens name has
/// a value; and the first undefined key is one of the keys named, without a
/// value.
pub proof fn lemma_undefined_keys(toks: Seq<Token>, vars: Map<Seq<char>, Seq<char>>)
    ensures
        first_undefined(toks, vars) is None <==> forall|i: int|
            0 <= i < key_names(toks).len() ==> vars.contains_key(#[trigger] key_names(toks)[i]),
        first_undefined(toks, vars) matches Some(key) ==> key_names(toks).contains(key)
            && !vars.contains_key(key),
    decreases toks.len(),
{
    if toks.len() > 0 {
        let rest = toks.drop_first();
        let names = key_names(toks);
        lemma_undefined_keys(rest, vars);
        if toks[0] is Placeholder {
            let key = toks[0]->Placeholder_0;
            assert(names[0] == key);
            assert forall|i: int| 0 <= i < key_names(rest).len() implies key_names(rest)[i]
                == names[i + 1] by {}
            if vars.contains_key(key) {
                if first_undefined(rest, vars) is None {
                    assert forall|i: int| 0 <= i < names.len() implies vars.contains_key(
                        #[trigger] names[i],
                    ) by {
                        if i > 0 {
                            assert(names[i] == key_names(rest)[i - 1]);
                        }
                    }
                } else {
                    let k = first_undefined(rest, vars)->Some_0;
                    let j = choose|j: int|
                        0 <= j < key_names(rest).len() && key_names(rest)[j] == k;
                    assert(names[j + 1] == k);
                }
            }
        } else {
            assert(names == key_names(rest));
        }
    }
}

/// Last write wins: after pairs went into a mapping, a valid key has the
/// value of the last pair that names it, or, where no pair names it, what the
/// mapping held for it before.
pub proof fn lemma_with_pairs_lookup(
    m: Map<Seq<char>, Seq<char>>,
    pairs: Seq<(Seq<char>, Seq<char>)>,
    key: Seq<char>,
)
    requires
        is_valid_key(key),
    ensures
        with_pairs(m, pairs).contains_key(key) <==> last_value(pairs, key) is Some
            || m.contains_key(key),
        with_pairs(m, pairs).contains_key(key) ==> with_pairs(m, pairs)[key] == match last_value(
            pairs,
            key,
        ) {
            Some(value) => value,
            None => m[key],
        },
    decreases pairs.len(),
{
    if pairs.len() > 0 {
        lemma_with_pairs_lookup(m, pairs.drop_last(), key);
    }
}

/// A text that cannot be a key never gets into a mapping by way of pairs.
pub proof fn lemma_with_pairs_keeps_invalid_out(
    m: Map<Seq<char>, Seq<char>>,
    pairs: Seq<(Seq<char>, Seq<char>)>,
    key: Seq<char>,
)
    requires
        !is_valid_key(key),
    ensures
        with_pairs(m, pairs).contains_key(key) == m.contains_key(key),
    decreases pairs.len(),
{
    if pairs.len() > 0 {
        lemma_with_pairs_keeps_invalid_out(m, pairs.drop_last(), key);
    }
}

/// The order of the sources: a valid key has the value that the pairs given
/// one by one give it last; where they do not name it, the value that the
/// file gives it last; where that does not name it either, the value that the
/// environment gives it last.
pub proof fn lemma_override_order(
    environment: Seq<(Seq<char>, Seq<char>)>,
    file: Seq<(Seq<char>, Seq<char>)>,
    explicit: Seq<(Seq<char>, Seq<char>)>,
    key: Seq<char>,
)
    requires
        is_valid_key(key),
    ensures
        ({
            let table = with_pairs(
                with_pairs(with_pairs(Map::empty(), environment), file),
                explicit,
            );
            let value = if last_value(explicit, key) is Some {
                last_value(explicit, key)
            } else if last_value(file, key) is Some {
                last_value(file, key)
            } else {
                last_value(environment, key)
            };
            &&& table.contains_key(key) <==> value is Some
            &&& table.contains_key(key) ==> table[key] == value->Some_0
        }),
{
    let first = with_pairs(Map::empty(), environment);
    let second = with_pairs(first, file);
    lemma_with_pairs_lookup(Map::empty(), environment, key);
    lemma_with_pairs_lookup(first, file, key);
    lemma_with_pairs_lookup(second, explicit, key);
}

} // verus!
