//! `KEY=VALUE` pairs: a single one, and a file of them, line by line.

use vstd::prelude::*;
use vstd::string::{StrSliceExecFns, StringExecFns};
use crate::tools::{trim_start, trimmed_start, unquote, unquoted};

verus! {

/// Whether a text is a pair: it holds a `=`, and does not start with it, so
/// that the key before the first `=` is not empty.
pub open spec fn is_pair(s: Seq<char>) -> bool {
    s.contains('=') && s[0] != '='
}

/// Whether `key` and `value` are the two parts of the pair `s`: the text
/// before its first `=` and the text after it.
pub open spec fn splits_into(s: Seq<char>, key: Seq<char>, value: Seq<char>) -> bool {
    &&& s == key + seq!['='] + value
    &&& !key.contains('=')
    &&& key.len() > 0
}

/// The index of the first `=` at or after index `i`, or the length of the text
/// where there is none.
pub open spec fn first_equals(s: Seq<char>, i: int) -> int
    decreases s.len() - i,
{
    if 0 <= i < s.len() && s[i] != '=' {
        first_equals(s, i + 1)
    } else {
        i
    }
}

/// The key of a pair: what stands before its first `=`.
pub open spec fn key_part(s: Seq<char>) -> Seq<char> {
    s.subrange(0, first_equals(s, 0))
}

/// The value of a pair: what stands after its first `=`.
pub open spec fn value_part(s: Seq<char>) -> Seq<char> {
    s.subrange(first_equals(s, 0) + 1, s.len() as int)
}

/// No `=` from index `from` up to index `to`, and one at `to`, puts the first
/// `=` at `to`.
pub proof fn lemma_first_equals_found(s: Seq<char>, from: int, to: int)
    requires
        0 <= from <= to <= s.len(),
        forall|j: int| from <= j < to ==> s[j] != '=',
        to == s.len() || s[to] == '=',
    ensures
        first_equals(s, from) == to,
    decreases to - from,
{
    if from < to {
        lemma_first_equals_found(s, from + 1, to);
    }
}

/// A pair splits in one way only: into its key and its value.
pub proof fn lemma_split_is_unique(s: Seq<char>, key: Seq<char>, value: Seq<char>)
    requires
        splits_into(s, key, value),
    ensures
        is_pair(s),
        key == key_part(s),
        value == value_part(s),
{
    let at = key.len() as int;
    assert(s[at] == '=');
    assert forall|j: int| 0 <= j < at implies s[j] != '=' by {
        if s[j] == '=' {
            assert(key[j] == '=');
            assert(key.contains('='));
        }
    }
    lemma_first_equals_found(s, 0, at);
    assert(key =~= key_part(s));
    assert(value =~= value_part(s));
    assert(s.contains('='));
}

/// The keys and values of a sequence of pairs.
pub open spec fn pair_views(pairs: Seq<PairBuf>) -> Seq<(Seq<char>, Seq<char>)> {
    pairs.map_values(|p: PairBuf| (p.key@, p.value@))
}

/// What a line of a variables file is.
pub enum Line {
    /// Nothing: the line is blank or a comment.
    Ignored,
    /// A pair: its key, and its value without quotes.
    Entry(Seq<char>, Seq<char>),
    /// No pair; it holds the line without the white space that it starts with.
    Malformed(Seq<char>),
}

/// Whether a line, taken without the white space that it starts with, is
/// passed over: it is empty, or it starts with `#` or with `//`.
pub open spec fn is_ignored(t: Seq<char>) -> bool {
    t.len() == 0 || t[0] == '#' || (t.len() >= 2 && t[0] == '/' && t[1] == '/')
}

/// What a line of a variables file is. White space at its start does not
/// count. A blank line and a comment are ignored. Any other line has to be a
/// pair; quotes around the whole value are taken off, quotes that do not
/// match stay.
pub open spec fn read_line(line: Seq<char>) -> Line {
    let t = trimmed_start(line);
    if is_ignored(t) {
        Line::Ignored
    } else if is_pair(t) {
        Line::Entry(key_part(t), unquoted(value_part(t)))
    } else {
        Line::Malformed(t)
    }
}

/// The pairs of the lines of a variables file, in their order, or the first
/// line that is no pair.
pub open spec fn read_lines(lines: Seq<Seq<char>>) -> Result<
    Seq<(Seq<char>, Seq<char>)>,
    Seq<char>,
>
    decreases lines.len(),
{
    if lines.len() == 0 {
        Ok(Seq::empty())
    } else {
        match read_lines(lines.drop_last()) {
            Err(bad) => Err(bad),
            Ok(pairs) => match read_line(lines.last()) {
                Line::Ignored => Ok(pairs),
                Line::Entry(key, value) => Ok(pairs.push((key, value))),
                Line::Malformed(bad) => Err(bad),
            },
        }
    }
}

/// A text is not of the form `KEY=VALUE`.
#[derive(Debug)]
pub struct ParseError {
    input: String,
}

impl ParseError {
    /// The text that is no pair.
    pub closed spec fn spec_input(&self) -> Seq<char> {
        self.input@
    }

    /// The error for a text that is no pair.
    pub fn new(input: &str) -> (e: Self)
        ensures
            e.spec_input() == input@,
    {
        Self { input: input.to_owned() }
    }

    /// The text that is no pair.
    pub fn input(&self) -> (input: &str)
        ensures
            input@ == self.spec_input(),
    {
        self.input.as_str()
    }

    /// The error in words.
    pub fn message(&self) -> (text: String)
        ensures
            text@
                == "Failed to parse key-value pair; it has to be of the form 'key=value', but was '"@
                + self.spec_input() + "'"@,
    {
        let mut text =
            "Failed to parse key-value pair; it has to be of the form 'key=value', but was '".to_owned();
        text.append(self.input.as_str());
        text.append("'");
        text
    }
}

/// A pair that owns its two parts.
#[derive(Clone)]
pub struct PairBuf {
    pub key: String,
    pub value: String,
}

/// A pair whose two parts are borrowed from the text that was parsed.
pub struct Pair<'t> {
    pub key: &'t str,
    pub value: &'t str,
}

impl PairBuf {
    /// Parses a `KEY=VALUE` text into its two parts, at the first `=`.
    ///
    /// The text is a pair exactly if it holds a `=` and does not start with
    /// it; any other text is an error, which carries the text.
    pub fn parse(key_value: &str) -> (r: Result<Self, ParseError>)
        ensures
            r is Ok <==> is_pair(key_value@),
            r matches Ok(pair) ==> splits_into(key_value@, pair.key@, pair.value@),
            r matches Err(e) ==> e.spec_input() == key_value@,
    {
        match Pair::parse(key_value) {
            Ok(pair) => Ok(pair.to_pair_buf()),
            Err(e) => Err(e),
        }
    }
}

impl<'t> Pair<'t> {
    /// Parses a `KEY=VALUE` text into its two parts, at the first `=`.
    ///
    /// The text is a pair exactly if it holds a `=` and does not start with
    /// it; any other text is an error, which carries the text.
    pub fn parse(key_value: &'t str) -> (r: Result<Self, ParseError>)
        ensures
            r is Ok <==> is_pair(key_value@),
            r matches Ok(pair) ==> splits_into(key_value@, pair.key@, pair.value@),
            r matches Err(e) ==> e.spec_input() == key_value@,
    {
        let ghost s = key_value@;
        let len = key_value.unicode_len();
        let mut at: usize = 0;
        for chr in it: key_value.chars()
            invariant
                it.seq() == s,
                s == key_value@,
                len == s.len(),
                at == it.index(),
                forall|j: int| 0 <= j < at ==> s[j] != '=',
        {
            if chr == '=' {
                if at == 0 {
                    assert(s.contains('='));
                    return Err(ParseError::new(key_value));
                }
                let key = key_value.substring_char(0, at);
                let value = key_value.substring_char(at + 1, len);
                proof {
                    assert(s.contains('='));
                    assert(key@ + seq!['='] + value@ =~= s);
                    assert forall|j: int| 0 <= j < key@.len() implies key@[j] != '=' by {
                        assert(key@[j] == s[j]);
                    }
                }
                return Ok(Pair { key, value });
            }
            at = at + 1;
        }
        Err(ParseError::new(key_value))
    }

    /// The same pair, owning its two parts.
    #[must_use]
    pub fn to_pair_buf(&self) -> (pair: PairBuf)
        ensures
            pair.key@ == self.key@,
            pair.value@ == self.value@,
    {
        PairBuf { key: self.key.to_owned(), value: self.value.to_owned() }
    }

    /// The pair in words: `'KEY'='VALUE'`.
    pub fn display(&self) -> (text: String)
        ensures
            text@ == "'"@ + self.key@ + "'='"@ + self.value@ + "'"@,
    {
        let mut text = "'".to_owned();
        text.append(self.key);
        text.append("'='");
        text.append(self.value);
        text.append("'");
        text
    }
}

/// Reads one line of a variables file: a pair, or nothing where the line is
/// blank or a comment. A line that is neither is an error, which carries the
/// line without the white space that it starts with.
pub fn parse_vars_line(line: &str) -> (r: Result<Option<PairBuf>, ParseError>)
    ensures
        match read_line(line@) {
            Line::Ignored => r matches Ok(None),
            Line::Entry(key, value) => r matches Ok(Some(pair)) && pair.key@ == key && pair.value@
                == value,
            Line::Malformed(bad) => r matches Err(e) && e.spec_input() == bad,
        },
{
    let rest = trim_start(line);
    let len = rest.unicode_len();
    if len == 0 {
        return Ok(None);
    }
    let first = rest.get_char(0);
    if first == '#' {
        return Ok(None);
    }
    if first == '/' && len >= 2 {
        if rest.get_char(1) == '/' {
            return Ok(None);
        }
    }
    match Pair::parse(rest) {
        Ok(pair) => {
            proof {
                lemma_split_is_unique(rest@, pair.key@, pair.value@);
            }
            Ok(Some(PairBuf { key: pair.key.to_owned(), value: unquote(pair.value).to_owned() }))
        },
        Err(e) => Err(e),
    }
}

/// Reads the lines of a variables file, one pair to a line. Blank lines and
/// comments are passed over. The first line that is neither a pair nor
/// passed over is an error, and no pair comes back.
pub fn parse_vars_lines(lines: &Vec<String>) -> (r: Result<Vec<PairBuf>, ParseError>)
    ensures
        match read_lines(lines.deep_view()) {
            Ok(pairs) => r matches Ok(found) && pair_views(found@) == pairs,
            Err(bad) => r matches Err(e) && e.spec_input() == bad,
        },
{
    let ghost all = lines.deep_view();
    let mut found: Vec<PairBuf> = Vec::new();
    let n = lines.len();
    let mut i: usize = 0;
    assert(pair_views(found@) =~= Seq::empty());
    while i < n
        invariant
            i <= n,
            n == lines.len(),
            all == lines.deep_view(),
            read_lines(all.take(i as int)) == Ok::<_, Seq<char>>(pair_views(found@)),
        decreases n - i,
    {
        let ghost before = pair_views(found@);
        proof {
            assert(all.take(i + 1).drop_last() =~= all.take(i as int));
            assert(all.take(i + 1).last() == lines[i as int]@);
        }
        match parse_vars_line(lines[i].as_str()) {
            Ok(Some(pair)) => {
                let ghost entry = (pair.key@, pair.value@);
                found.push(pair);
                assert(pair_views(found@) =~= before.push(entry));
            },
            Ok(None) => {},
            Err(e) => {
                proof {
                    lemma_read_lines_stops(all, i + 1);
                }
                return Err(e);
            },
        }
        i = i + 1;
    }
    assert(all.take(n as int) =~= all);
    Ok(found)
}

/// Once some lines have run into a line that is no pair, more lines change nothing.
pub proof fn lemma_read_lines_stops(lines: Seq<Seq<char>>, n: int)
    requires
        0 <= n <= lines.len(),
        read_lines(lines.take(n)) is Err,
    ensures
        read_lines(lines) == read_lines(lines.take(n)),
    decreases lines.len() - n,
{
    if n < lines.len() {
        assert(lines.take(n + 1).drop_last() =~= lines.take(n));
        lemma_read_lines_stops(lines, n + 1);
    } else {
        assert(lines.take(n) =~= lines);
    }
}

} // verus!
