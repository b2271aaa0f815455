//! The model of the placeholder syntax: the tokens of a text, and what a token
//! sequence renders to under a variable table. Everything here is ghost code;
//! the scanner in [`crate::replacer`] is proved against it.

use vstd::prelude::*;

verus! {

/// One lexical unit of a text.
pub enum Token {
    /// A stretch of text that stands for itself.
    Text(Seq<char>),
    /// A run of this many dollar signs, at least two, directly followed by `{`.
    Escape(nat),
    /// `${KEY}`, holding the key.
    Placeholder(Seq<char>),
    /// `${KEY` cut short by the end of the text, holding what there is of the key.
    Unclosed(Seq<char>),
}

/// `n` dollar signs.
pub open spec fn dollars(n: nat) -> Seq<char> {
    Seq::new(n, |i: int| '$')
}

/// The text `${KEY` for a key.
pub open spec fn opened_text(key: Seq<char>) -> Seq<char> {
    seq!['$', '{'] + key
}

/// The text `${KEY}` for a key.
pub open spec fn placeholder_text(key: Seq<char>) -> Seq<char> {
    opened_text(key).push('}')
}

/// The number of dollar signs in a row that start at index `i`.
pub open spec fn dollar_run(s: Seq<char>, i: int) -> nat
    decreases s.len() - i,
{
    if 0 <= i < s.len() && s[i] == '$' {
        1 + dollar_run(s, i + 1)
    } else {
        0
    }
}

/// The index of the first `}` at or after index `i`, or the length of the text
/// where there is none.
pub open spec fn closing_brace(s: Seq<char>, i: int) -> int
    decreases s.len() - i,
{
    if 0 <= i < s.len() && s[i] != '}' {
        closing_brace(s, i + 1)
    } else {
        i
    }
}

/// The first `}` at or after an index lies at or after it and within the text
/// or at its end, and no `}` stands before it.
pub proof fn lemma_closing_brace_bounds(s: Seq<char>, i: int)
    requires
        0 <= i <= s.len(),
    ensures
        i <= closing_brace(s, i) <= s.len(),
        closing_brace(s, i) < s.len() ==> s[closing_brace(s, i)] == '}',
        forall|j: int| i <= j < closing_brace(s, i) ==> s[j] != '}',
    decreases s.len() - i,
{
    if i < s.len() && s[i] != '}' {
        lemma_closing_brace_bounds(s, i + 1);
    }
}

/// The tokens of the text from index `i` on.
///
/// A character other than `$` is text. At a `$`, the run of dollar signs that
/// starts there decides: followed by `{`, a single dollar sign opens a
/// placeholder, which reaches to the next `}`, and a longer run is an escape;
/// followed by anything else, or by the end of the text, the dollar sign is
/// text. Text comes one character to a token.
pub open spec fn tokens_from(s: Seq<char>, i: int) -> Seq<Token>
    decreases s.len() - i,
    via tokens_from_decreases
{
    if i < 0 || i >= s.len() {
        Seq::empty()
    } else if s[i] == '$' {
        let n = dollar_run(s, i);
        let brace = i + n;
        if brace < s.len() && s[brace] == '{' {
            if n == 1 {
                let end = closing_brace(s, brace + 1);
                if end < s.len() {
                    seq![Token::Placeholder(s.subrange(brace + 1, end))] + tokens_from(s, end + 1)
                } else {
                    seq![Token::Unclosed(s.subrange(brace + 1, s.len() as int))]
                }
            } else {
                seq![Token::Escape(n)] + tokens_from(s, brace + 1)
            }
        } else {
            seq![Token::Text(s.subrange(i, i + 1))] + tokens_from(s, i + 1)
        }
    } else {
        seq![Token::Text(s.subrange(i, i + 1))] + tokens_from(s, i + 1)
    }
}

#[via_fn]
proof fn tokens_from_decreases(s: Seq<char>, i: int) {
    if 0 <= i < s.len() && s[i] == '$' {
        let brace = i + dollar_run(s, i);
        if brace < s.len() {
            lemma_closing_brace_bounds(s, brace + 1);
        }
    }
}

/// The tokens of a whole text.
pub open spec fn tokenize(s: Seq<char>) -> Seq<Token> {
    tokens_from(s, 0)
}

impl Token {
    /// The text that the token was read from.
    pub open spec fn source(self) -> Seq<char> {
        match self {
            Token::Text(text) => text,
            Token::Escape(n) => dollars(n).push('{'),
            Token::Placeholder(key) => placeholder_text(key),
            Token::Unclosed(key) => opened_text(key),
        }
    }

    /// The text that the token turns into: a placeholder with a defined key
    /// gives the key's value, an escape loses one dollar sign, and everything
    /// else stays as it was written.
    pub open spec fn output(self, vars: Map<Seq<char>, Seq<char>>) -> Seq<char> {
        match self {
            Token::Text(text) => text,
            Token::Escape(n) => dollars((n - 1) as nat).push('{'),
            Token::Placeholder(key) => if vars.contains_key(key) {
                vars[key]
            } else {
                placeholder_text(key)
            },
            Token::Unclosed(key) => opened_text(key),
        }
    }

    /// Whether the token is an escape or a placeholder with a defined key:
    /// the two that count as a replacement.
    pub open spec fn replaces(self, vars: Map<Seq<char>, Seq<char>>) -> bool {
        match self {
            Token::Text(_) => false,
            Token::Escape(_) => true,
            Token::Placeholder(key) => vars.contains_key(key),
            Token::Unclosed(_) => false,
        }
    }

    /// Whether the token is a placeholder whose key the table does not define.
    pub open spec fn undefined(self, vars: Map<Seq<char>, Seq<char>>) -> bool {
        self matches Token::Placeholder(key) && !vars.contains_key(key)
    }
}

/// The texts that the tokens were read from, one after the other.
pub open spec fn source_text(toks: Seq<Token>) -> Seq<char>
    decreases toks.len(),
{
    if toks.len() == 0 {
        Seq::empty()
    } else {
        toks[0].source() + source_text(toks.drop_first())
    }
}

/// The texts that the tokens turn into, one after the other.
pub open spec fn render(toks: Seq<Token>, vars: Map<Seq<char>, Seq<char>>) -> Seq<char>
    decreases toks.len(),
{
    if toks.len() == 0 {
        Seq::empty()
    } else {
        toks[0].output(vars) + render(toks.drop_first(), vars)
    }
}

/// Whether some token counts as a replacement.
pub open spec fn replaces_any(toks: Seq<Token>, vars: Map<Seq<char>, Seq<char>>) -> bool {
    exists|i: int| 0 <= i < toks.len() && (#[trigger] toks[i]).replaces(vars)
}

/// The key of the first placeholder that the table does not define.
pub open spec fn first_undefined(toks: Seq<Token>, vars: Map<Seq<char>, Seq<char>>) -> Option<
    Seq<char>,
>
    decreases toks.len(),
{
    if toks.len() == 0 {
        None
    } else if toks[0].undefined(vars) {
        Some(toks[0]->Placeholder_0)
    } else {
        first_undefined(toks.drop_first(), vars)
    }
}

/// The keys of the placeholders, in their order and as often as they occur.
pub open spec fn key_names(toks: Seq<Token>) -> Seq<Seq<char>>
    decreases toks.len(),
{
    if toks.len() == 0 {
        Seq::empty()
    } else if toks[0] is Placeholder {
        seq![toks[0]->Placeholder_0] + key_names(toks.drop_first())
    } else {
        key_names(toks.drop_first())
    }
}

} // verus!
