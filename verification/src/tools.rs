//! Quoting helpers, and the merging of variables from several sources.

use vstd::prelude::*;
use vstd::string::StrSliceExecFns;
use crate::key_value::{pair_views, PairBuf};
use crate::table::{is_valid_key, lists, with_pairs, VariableTable};

verus! {

/// Whether a character is a quoting character: `"` or `'`.
pub open spec fn is_quote(c: char) -> bool {
    c == '"' || c == '\''
}

/// The quoting character that a text starts with, if it starts with one.
pub open spec fn start_quote(s: Seq<char>) -> Option<char> {
    if s.len() > 0 && is_quote(s[0]) {
        Some(s[0])
    } else {
        None
    }
}

/// The quoting character that a text ends with, if it ends with one.
pub open spec fn end_quote(s: Seq<char>) -> Option<char> {
    if s.len() > 0 && is_quote(s[s.len() - 1]) {
        Some(s[s.len() - 1])
    } else {
        None
    }
}

/// A text without its quotes: where it has more than one character and
/// starts and ends with the same quoting character, what stands between the
/// two; else the text itself.
pub open spec fn unquoted(s: Seq<char>) -> Seq<char> {
    if s.len() > 1 && start_quote(s) is Some && start_quote(s) == end_quote(s) {
        s.subrange(1, s.len() - 1)
    } else {
        s
    }
}

/// Returns the quoting character, if the text starts with one.
#[must_use]
pub fn get_start_quote(pot_quoted: &str) -> (quote: Option<char>)
    ensures
        quote == start_quote(pot_quoted@),
{
    if !pot_quoted.is_empty() {
        let first = pot_quoted.get_char(0);
        if first == '"' || first == '\'' {
            return Some(first);
        }
    }
    None
}

/// Returns the quoting character, if the text ends with one.
#[must_use]
pub fn get_end_quote(pot_quoted: &str) -> (quote: Option<char>)
    ensures
        quote == end_quote(pot_quoted@),
{
    let len = pot_quoted.unicode_len();
    if len > 0 {
        let last = pot_quoted.get_char(len - 1);
        if last == '"' || last == '\'' {
            return Some(last);
        }
    }
    None
}

/// Returns the text without its quotes, or the text itself where it is not
/// quoted: quotes that do not match stay.
#[must_use]
pub fn unquote(pot_quoted: &str) -> (bare: &str)
    ensures
        bare@ == unquoted(pot_quoted@),
{
    let len = pot_quoted.unicode_len();
    if len > 1 {
        match (get_start_quote(pot_quoted), get_end_quote(pot_quoted)) {
            (Some(start_q), Some(end_q)) => {
                if start_q == end_q {
                    return pot_quoted.substring_char(1, len - 1);
                }
            },
            _ => {},
        }
    }
    pot_quoted
}

/// Whether a character is white space: a blank, a tab, a line feed, a
/// carriage return, a vertical tab or a form feed.
pub open spec fn is_space(c: char) -> bool {
    c == ' ' || c == '\t' || c == '\n' || c == '\r' || c == '\x0b' || c == '\x0c'
}

/// The index of the first character at or after index `i` that is no white
/// space, or the length of the text where there is none.
pub open spec fn first_non_space(s: Seq<char>, i: int) -> int
    decreases s.len() - i,
{
    if 0 <= i < s.len() && is_space(s[i]) {
        first_non_space(s, i + 1)
    } else {
        i
    }
}

/// A text without the white space that it starts with.
pub open spec fn trimmed_start(s: Seq<char>) -> Seq<char> {
    s.subrange(first_non_space(s, 0), s.len() as int)
}

/// White space from index `from` up to index `to`, and none at `to`, puts the
/// first character that is no white space at `to`.
pub proof fn lemma_first_non_space_found(s: Seq<char>, from: int, to: int)
    requires
        0 <= from <= to <= s.len(),
        forall|j: int| from <= j < to ==> is_space(s[j]),
        to == s.len() || !is_space(s[to]),
    ensures
        first_non_space(s, from) == to,
    decreases to - from,
{
    if from < to {
        lemma_first_non_space_found(s, from + 1, to);
    }
}

/// Tells whether a character is white space.
pub fn is_space_char(c: char) -> (space: bool)
    ensures
        space == is_space(c),
{
    c == ' ' || c == '\t' || c == '\n' || c == '\r' || c == '\x0b' || c == '\x0c'
}

/// Returns the text without the white space that it starts with.
#[must_use]
pub fn trim_start(text: &str) -> (rest: &str)
    ensures
        rest@ == trimmed_start(text@),
{
    let ghost s = text@;
    let len = text.unicode_len();
    let mut at: usize = 0;
    for chr in it: text.chars()
        invariant
            it.seq() == s,
            s == text@,
            len == s.len(),
            at == it.index(),
            forall|j: int| 0 <= j < at ==> is_space(s[j]),
    {
        if !is_space_char(chr) {
            proof {
                lemma_first_non_space_found(s, 0, at as int);
            }
            return text.substring_char(at, len);
        }
        at = at + 1;
    }
    proof {
        lemma_first_non_space_found(s, 0, len as int);
    }
    text.substring_char(len, len)
}

/// Puts the variables of the environment, as they were read, into the table.
/// A variable of the environment takes the place of what the table held for
/// its key.
pub fn append_env(vars: &mut VariableTable, environment: &Vec<PairBuf>)
    ensures
        final(vars)@ == with_pairs(old(vars)@, pair_views(environment@)),
{
    vars.extend(environment);
}

/// The environment after the pairs were written to it, one after the other.
/// With `overwrite` a pair takes the place of what the environment holds for
/// its key; without, a pair is written only where the environment holds
/// nothing for its key. A pair whose key cannot be a key is passed over.
pub open spec fn flushed(
    environment: Map<Seq<char>, Seq<char>>,
    pairs: Seq<(Seq<char>, Seq<char>)>,
    overwrite: bool,
) -> Map<Seq<char>, Seq<char>>
    decreases pairs.len(),
{
    if pairs.len() == 0 {
        environment
    } else {
        let before = flushed(environment, pairs.drop_last(), overwrite);
        let key = pairs.last().0;
        if is_valid_key(key) && (overwrite || !before.contains_key(key)) {
            before.insert(key, pairs.last().1)
        } else {
            before
        }
    }
}

/// Writes the pairs to the environment, one after the other: each pair with
/// `overwrite`, and without it those for whose key the environment holds
/// nothing yet.
pub fn flush_to_env(vars: &Vec<PairBuf>, overwrite: bool, environment: &mut VariableTable)
    ensures
        final(environment)@ == flushed(old(environment)@, pair_views(vars@), overwrite),
{
    let ghost views = pair_views(vars@);
    let n = vars.len();
    let mut i: usize = 0;
    while i < n
        invariant
            i <= n,
            n == vars.len(),
            views == pair_views(vars@),
            environment@ == flushed(old(environment)@, views.take(i as int), overwrite),
        decreases n - i,
    {
        let pair = &vars[i];
        proof {
            assert(views.take(i + 1).drop_last() =~= views.take(i as int));
            assert(views.take(i + 1).last() == (pair.key@, pair.value@));
        }
        if overwrite || !environment.contains_key(pair.key.as_str()) {
            environment.insert(pair.key.clone(), pair.value.clone());
        }
        i = i + 1;
    }
    assert(views.take(n as int) =~= views);
}

/// What writing the first `n` pairs of a listing of `m` makes of the environment.
spec fn flushed_listing(
    environment: Map<Seq<char>, Seq<char>>,
    pairs: Seq<(Seq<char>, Seq<char>)>,
    m: Map<Seq<char>, Seq<char>>,
    overwrite: bool,
    n: int,
) -> Map<Seq<char>, Seq<char>> {
    Map::new(
        |k: Seq<char>|
            environment.contains_key(k) || exists|i: int|
                0 <= i < n && (#[trigger] pairs[i]).0 == k,
        |k: Seq<char>|
            if environment.contains_key(k) && !(overwrite && exists|i: int|
                0 <= i < n && (#[trigger] pairs[i]).0 == k) {
                environment[k]
            } else {
                m[k]
            },
    )
}

/// Writing the first `n` pairs of a listing, one after the other, gives what
/// [`flushed_listing`] says.
proof fn lemma_flushed_listing(
    environment: Map<Seq<char>, Seq<char>>,
    pairs: Seq<(Seq<char>, Seq<char>)>,
    m: Map<Seq<char>, Seq<char>>,
    overwrite: bool,
    n: int,
)
    requires
        lists(pairs, m),
        forall|i: int| 0 <= i < pairs.len() ==> is_valid_key((#[trigger] pairs[i]).0),
        0 <= n <= pairs.len(),
    ensures
        flushed(environment, pairs.take(n), overwrite) == flushed_listing(
            environment,
            pairs,
            m,
            overwrite,
            n,
        ),
    decreases n,
{
    let now = flushed_listing(environment, pairs, m, overwrite, n);
    if n == 0 {
        assert(flushed(environment, pairs.take(0), overwrite) =~= now);
    } else {
        let before = flushed_listing(environment, pairs, m, overwrite, n - 1);
        let key = pairs[n - 1].0;
        let value = pairs[n - 1].1;
        lemma_flushed_listing(environment, pairs, m, overwrite, n - 1);
        assert(pairs.take(n).drop_last() =~= pairs.take(n - 1));
        assert(pairs.take(n).last() == pairs[n - 1]);
        assert(m[key] == value);
        assert(before.contains_key(key) == environment.contains_key(key)) by {
            if exists|i: int| 0 <= i < n - 1 && (#[trigger] pairs[i]).0 == key {
                let i = choose|i: int| 0 <= i < n - 1 && (#[trigger] pairs[i]).0 == key;
                assert(pairs[i].0 != pairs[n - 1].0);
            }
        }
        let next = if overwrite || !before.contains_key(key) {
            before.insert(key, value)
        } else {
            before
        };
        assert forall|k: Seq<char>| next.contains_key(k) == now.contains_key(k) by {
            if exists|i: int| 0 <= i < n && (#[trigger] pairs[i]).0 == k {
                let i = choose|i: int| 0 <= i < n && (#[trigger] pairs[i]).0 == k;
                if i < n - 1 {
                    assert(before.contains_key(k));
                }
            }
            if exists|i: int| 0 <= i < n - 1 && (#[trigger] pairs[i]).0 == k {
                let i = choose|i: int| 0 <= i < n - 1 && (#[trigger] pairs[i]).0 == k;
                assert(0 <= i < n && pairs[i].0 == k);
            }
            if k == key {
                assert(pairs[n - 1].0 == k);
            }
        }
        assert forall|k: Seq<char>| next.contains_key(k) implies next[k] == now[k] by {
            if k == key {
                assert(pairs[n - 1].0 == k);
            } else {
                if exists|i: int| 0 <= i < n && (#[trigger] pairs[i]).0 == k {
                    let i = choose|i: int| 0 <= i < n && (#[trigger] pairs[i]).0 == k;
                    assert(0 <= i < n - 1 && pairs[i].0 == k);
                }
                if exists|i: int| 0 <= i < n - 1 && (#[trigger] pairs[i]).0 == k {
                    let i = choose|i: int| 0 <= i < n - 1 && (#[trigger] pairs[i]).0 == k;
                    assert(0 <= i < n && pairs[i].0 == k);
                }
            }
        }
        assert(next =~= now);
    }
}

/// Writes the variables of the table to the environment. With `overwrite`
/// the table wins where both hold a key; without, the environment wins.
pub fn flush_map_to_env(vars: &VariableTable, overwrite: bool, environment: &mut VariableTable)
    ensures
        final(environment)@ == if overwrite {
            old(environment)@.union_prefer_right(vars@)
        } else {
            vars@.union_prefer_right(old(environment)@)
        },
{
    let entries = vars.entries();
    let ghost before = environment@;
    let ghost pairs = pair_views(entries@);
    flush_to_env(&entries, overwrite, environment);
    proof {
        lemma_flushed_listing(before, pairs, vars@, overwrite, pairs.len() as int);
        assert(pairs.take(pairs.len() as int) =~= pairs);
        let listed = flushed_listing(before, pairs, vars@, overwrite, pairs.len() as int);
        assert forall|k: Seq<char>| vars@.contains_key(k) == exists|i: int|
            0 <= i < pairs.len() && (#[trigger] pairs[i]).0 == k by {
            if exists|i: int| 0 <= i < pairs.len() && (#[trigger] pairs[i]).0 == k {
                let i = choose|i: int| 0 <= i < pairs.len() && (#[trigger] pairs[i]).0 == k;
                assert(vars@.contains_key(pairs[i].0));
            }
        }
        if overwrite {
            assert(listed =~= before.union_prefer_right(vars@));
        } else {
            assert(listed =~= vars@.union_prefer_right(before));
        }
    }
}

} // verus!
