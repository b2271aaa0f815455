//! The scanner: one pass over a text, with four states and two small buffers.

use std::borrow::Cow;
use vstd::prelude::*;
use vstd::string::StringExecFns;
use crate::laws::{lemma_no_dollar_passes_through, lemma_unreplaced_text};
use crate::lemmas::{
    all_dollars, lemma_first_undefined_concat, lemma_key_names_concat, lemma_literal_dollars,
    lemma_render_concat, lemma_replaces_any_concat, lemma_single_token, lemma_tokens_dollars,
    lemma_tokens_escape, lemma_tokens_placeholder, lemma_tokens_text, lemma_tokens_unclosed,
    literal_dollars,
    no_closing_brace,
};
use crate::syntax::{
    dollars, first_undefined, key_names, opened_text, render, replaces_any, tokenize,
    tokens_from, Token,
};
use crate::table::VariableTable;

verus! {

/// A placeholder named a key that the table does not define, while the
/// settings asked for that to fail.
#[derive(Debug)]
pub struct UndefinedKeyError {
    /// The key that has no value.
    pub key: String,
}

impl UndefinedKeyError {
    /// The error in words: `Undefined variable 'KEY'`.
    pub fn message(&self) -> (text: String)
        ensures
            text@ == "Undefined variable '"@ + self.key@ + "'"@,
    {
        let mut text = "Undefined variable '".to_owned();
        text.append(self.key.as_str());
        text.append("'");
        text
    }
}

/// What a scan needs besides the text: the variables, and what to do about a
/// key without a value.
pub struct Settings {
    vars: Box<VariableTable>,
    fail_on_missing: bool,
    verbose: bool,
}

/// Settings in the making, before the variables are given.
pub struct SettingsBuilder {
    fail_on_missing: bool,
    verbose: bool,
}

/// Settings in the making, with the variables given.
pub struct SettingsBuilderWithVars {
    vars: Box<VariableTable>,
    fail_on_missing: bool,
    verbose: bool,
}

impl Settings {
    /// The variables.
    pub closed spec fn spec_vars(&self) -> &VariableTable {
        &*self.vars
    }

    /// Whether a key without a value is an error.
    pub closed spec fn spec_fail_on_missing(&self) -> bool {
        self.fail_on_missing
    }

    /// Whether the caller wants to be told what is being done.
    pub closed spec fn spec_verbose(&self) -> bool {
        self.verbose
    }

    /// Starts new settings: no failure on a missing value, not verbose.
    pub fn builder() -> (b: SettingsBuilder)
        ensures
            !b.spec_fail_on_missing(),
            !b.spec_verbose(),
    {
        SettingsBuilder { fail_on_missing: false, verbose: false }
    }

    /// The variables.
    #[verifier::when_used_as_spec(spec_vars)]
    pub fn vars(&self) -> (vars: &VariableTable)
        ensures
            vars == self.spec_vars(),
    {
        &*self.vars
    }

    /// Whether a key without a value is an error.
    #[verifier::when_used_as_spec(spec_fail_on_missing)]
    pub fn fail_on_missing(&self) -> (flag: bool)
        ensures
            flag == self.spec_fail_on_missing(),
    {
        self.fail_on_missing
    }

    /// Whether the caller wants to be told what is being done.
    #[verifier::when_used_as_spec(spec_verbose)]
    pub fn verbose(&self) -> (flag: bool)
        ensures
            flag == self.spec_verbose(),
    {
        self.verbose
    }
}

impl SettingsBuilder {
    /// Whether a key without a value is to be an error.
    pub closed spec fn spec_fail_on_missing(&self) -> bool {
        self.fail_on_missing
    }

    /// Whether the caller wants to be told what is being done.
    pub closed spec fn spec_verbose(&self) -> bool {
        self.verbose
    }

    /// Gives the variables.
    pub fn vars(self, vars: Box<VariableTable>) -> (b: SettingsBuilderWithVars)
        ensures
            b.spec_vars() == *vars,
            b.spec_fail_on_missing() == self.spec_fail_on_missing(),
            b.spec_verbose() == self.spec_verbose(),
    {
        SettingsBuilderWithVars {
            vars,
            fail_on_missing: self.fail_on_missing,
            verbose: self.verbose,
        }
    }

    /// Says whether a key without a value is an error.
    pub fn fail_on_missing(self, flag: bool) -> (b: Self)
        ensures
            b.spec_fail_on_missing() == flag,
            b.spec_verbose() == self.spec_verbose(),
    {
        SettingsBuilder { fail_on_missing: flag, verbose: self.verbose }
    }

    /// Says whether the caller wants to be told what is being done.
    pub fn verbose(self, flag: bool) -> (b: Self)
        ensures
            b.spec_fail_on_missing() == self.spec_fail_on_missing(),
            b.spec_verbose() == flag,
    {
        SettingsBuilder { fail_on_missing: self.fail_on_missing, verbose: flag }
    }
}

impl SettingsBuilderWithVars {
    /// The variables.
    pub closed spec fn spec_vars(&self) -> VariableTable {
        *self.vars
    }

    /// Whether a key without a value is to be an error.
    pub closed spec fn spec_fail_on_missing(&self) -> bool {
        self.fail_on_missing
    }

    /// Whether the caller wants to be told what is being done.
    pub closed spec fn spec_verbose(&self) -> bool {
        self.verbose
    }

    /// Says whether a key without a value is an error.
    pub fn fail_on_missing(self, flag: bool) -> (b: Self)
        ensures
            b.spec_vars() == self.spec_vars(),
            b.spec_fail_on_missing() == flag,
            b.spec_verbose() == self.spec_verbose(),
    {
        SettingsBuilderWithVars { vars: self.vars, fail_on_missing: flag, verbose: self.verbose }
    }

    /// Says whether the caller wants to be told what is being done.
    pub fn verbose(self, flag: bool) -> (b: Self)
        ensures
            b.spec_vars() == self.spec_vars(),
            b.spec_fail_on_missing() == self.spec_fail_on_missing(),
            b.spec_verbose() == flag,
    {
        SettingsBuilderWithVars {
            vars: self.vars,
            fail_on_missing: self.fail_on_missing,
            verbose: flag,
        }
    }

    /// The finished settings.
    pub fn build(self) -> (settings: Settings)
        ensures
            *settings.vars() == self.spec_vars(),
            settings.fail_on_missing() == self.spec_fail_on_missing(),
            settings.verbose() == self.spec_verbose(),
    {
        Settings { vars: self.vars, fail_on_missing: self.fail_on_missing, verbose: self.verbose }
    }
}

/// What the placeholder `${key}` turns into: the key's value, or, where it has
/// none, the placeholder as it was written. The flag tells which. Where the
/// key has no value and the settings ask for that to fail, there is an error
/// in place of a text.
pub fn replacement(key: &str, settings: &Settings) -> (r: Result<(bool, String), UndefinedKeyError>)
    ensures
        match r {
            Ok((found, text)) => {
                &&& found == settings.vars()@.contains_key(key@)
                &&& !found ==> !settings.fail_on_missing()
                &&& text@ == Token::Placeholder(key@).output(settings.vars()@)
            },
            Err(e) => {
                &&& !settings.vars()@.contains_key(key@)
                &&& settings.fail_on_missing()
                &&& e.key@ == key@
            },
        },
{
    match settings.vars.get(key) {
        Some(val) => Ok((true, val.clone())),
        None => {
            if settings.fail_on_missing {
                Err(UndefinedKeyError { key: key.to_owned() })
            } else {
                proof {
                    reveal_strlit("${");
                }
                let mut text = "${".to_owned();
                text.append(key);
                text.push('}');
                assert("${"@ =~= seq!['$', '{']);
                Ok((false, text))
            }
        },
    }
}

/// The state of the scanner.
enum ReplState {
    /// Outside of anything special.
    Text,
    /// After one dollar sign.
    Dollar1,
    /// After two or more dollar signs.
    Dollar2,
    /// Inside a placeholder, after `${`.
    Key,
}

/// What one scan gives: the text that was built, whether anything was
/// replaced, and the keys that were listed.
struct Scan {
    text: String,
    replaced: bool,
    keys: Vec<String>,
}

/// Whether the buffers hold what the state says of the text `s`, of which `i`
/// characters are read and the token that is being read starts at index `p`.
spec fn buffers_fit(
    state: ReplState,
    s: Seq<char>,
    p: int,
    i: int,
    pending: Seq<char>,
    key: Seq<char>,
) -> bool {
    &&& 0 <= p <= i <= s.len()
    &&& match state {
        ReplState::Text => p == i && pending.len() == 0 && key.len() == 0,
        ReplState::Dollar1 => {
            &&& p + 1 == i
            &&& s[p] == '$'
            &&& pending == dollars(1)
            &&& key.len() == 0
        },
        ReplState::Dollar2 => {
            &&& p + 2 <= i
            &&& all_dollars(s, p, i)
            &&& pending == dollars((i - p) as nat)
            &&& key.len() == 0
        },
        ReplState::Key => {
            &&& p + 2 <= i
            &&& s[p] == '$'
            &&& s[p + 1] == '{'
            &&& no_closing_brace(s, p + 2, i)
            &&& key == s.subrange(p + 2, i)
            &&& pending.len() == 0
        },
    }
}

/// Whether `out`, `replaced` and `keys` account for the tokens of `s` that end
/// before index `p`. A scan that lists keys builds no text, and a scan that
/// builds a text lists no keys.
spec fn scanned(
    s: Seq<char>,
    vars: Map<Seq<char>, Seq<char>>,
    fail: bool,
    listing: bool,
    p: int,
    out: Seq<char>,
    replaced: bool,
    keys: Seq<Seq<char>>,
) -> bool {
    let all = tokenize(s);
    let rest = tokens_from(s, p);
    &&& !listing ==> render(all, vars) == out + render(rest, vars)
    &&& !listing ==> replaces_any(all, vars) == (replaced || replaces_any(rest, vars))
    &&& fail ==> first_undefined(all, vars) == first_undefined(rest, vars)
    &&& listing ==> key_names(all) == keys + key_names(rest)
}

/// The scan moves from index `p` to index `q` over the tokens `read`.
proof fn lemma_scan_step(
    s: Seq<char>,
    vars: Map<Seq<char>, Seq<char>>,
    fail: bool,
    listing: bool,
    p: int,
    q: int,
    read: Seq<Token>,
    out: Seq<char>,
    replaced: bool,
    keys: Seq<Seq<char>>,
)
    requires
        scanned(s, vars, fail, listing, p, out, replaced, keys),
        tokens_from(s, p) == read + tokens_from(s, q),
        fail ==> first_undefined(read, vars) is None,
    ensures
        scanned(
            s,
            vars,
            fail,
            listing,
            q,
            out + render(read, vars),
            replaced || replaces_any(read, vars),
            keys + key_names(read),
        ),
{
    let rest = tokens_from(s, q);
    lemma_render_concat(read, rest, vars);
    lemma_replaces_any_concat(read, rest, vars);
    lemma_first_undefined_concat(read, rest, vars);
    lemma_key_names_concat(read, rest);
    assert(out + (render(read, vars) + render(rest, vars)) =~= (out + render(read, vars)) + render(
        rest,
        vars,
    ));
    assert(keys + (key_names(read) + key_names(rest)) =~= (keys + key_names(read)) + key_names(
        rest,
    ));
}

/// The scan reads one character that is no dollar sign, outside of anything special.
proof fn lemma_scan_literal(
    s: Seq<char>,
    vars: Map<Seq<char>, Seq<char>>,
    fail: bool,
    listing: bool,
    p: int,
    out: Seq<char>,
    replaced: bool,
    keys: Seq<Seq<char>>,
)
    requires
        scanned(s, vars, fail, listing, p, out, replaced, keys),
        0 <= p < s.len(),
        s[p] != '$',
    ensures
        scanned(s, vars, fail, listing, p + 1, out.push(s[p]), replaced, keys),
{
    let t = Token::Text(s.subrange(p, p + 1));
    lemma_tokens_text(s, p);
    lemma_single_token(t, vars);
    lemma_scan_step(s, vars, fail, listing, p, p + 1, seq![t], out, replaced, keys);
    assert(out + s.subrange(p, p + 1) =~= out.push(s[p]));
    assert(keys + Seq::<Seq<char>>::empty() =~= keys);
}

/// The scan reads a run of dollar signs that neither `$` nor `{` follows.
proof fn lemma_scan_dollars(
    s: Seq<char>,
    vars: Map<Seq<char>, Seq<char>>,
    fail: bool,
    listing: bool,
    p: int,
    i: int,
    out: Seq<char>,
    replaced: bool,
    keys: Seq<Seq<char>>,
)
    requires
        scanned(s, vars, fail, listing, p, out, replaced, keys),
        0 <= p <= i <= s.len(),
        all_dollars(s, p, i),
        i == s.len() || (s[i] != '$' && s[i] != '{'),
    ensures
        scanned(s, vars, fail, listing, i, out + dollars((i - p) as nat), replaced, keys),
{
    let n = (i - p) as nat;
    lemma_tokens_dollars(s, p, i);
    lemma_literal_dollars(n, vars);
    lemma_scan_step(s, vars, fail, listing, p, i, literal_dollars(n), out, replaced, keys);
    assert(keys + Seq::<Seq<char>>::empty() =~= keys);
}

/// The scan reads an escape: two or more dollar signs and `{`.
proof fn lemma_scan_escape(
    s: Seq<char>,
    vars: Map<Seq<char>, Seq<char>>,
    fail: bool,
    listing: bool,
    p: int,
    i: int,
    out: Seq<char>,
    replaced: bool,
    keys: Seq<Seq<char>>,
)
    requires
        scanned(s, vars, fail, listing, p, out, replaced, keys),
        0 <= p,
        p + 2 <= i < s.len(),
        all_dollars(s, p, i),
        s[i] == '{',
    ensures
        scanned(
            s,
            vars,
            fail,
            listing,
            i + 1,
            out + dollars((i - p - 1) as nat).push('{'),
            true,
            keys,
        ),
{
    let t = Token::Escape((i - p) as nat);
    lemma_tokens_escape(s, p, i);
    lemma_single_token(t, vars);
    lemma_scan_step(s, vars, fail, listing, p, i + 1, seq![t], out, replaced, keys);
    assert(keys + Seq::<Seq<char>>::empty() =~= keys);
}

/// The scan reads a placeholder whose key, where a missing value is an error, has a value.
proof fn lemma_scan_placeholder(
    s: Seq<char>,
    vars: Map<Seq<char>, Seq<char>>,
    fail: bool,
    listing: bool,
    p: int,
    i: int,
    out: Seq<char>,
    replaced: bool,
    keys: Seq<Seq<char>>,
)
    requires
        scanned(s, vars, fail, listing, p, out, replaced, keys),
        0 <= p,
        p + 2 <= i < s.len(),
        s[p] == '$',
        s[p + 1] == '{',
        no_closing_brace(s, p + 2, i),
        s[i] == '}',
        fail ==> vars.contains_key(s.subrange(p + 2, i)),
    ensures
        scanned(
            s,
            vars,
            fail,
            listing,
            i + 1,
            out + Token::Placeholder(s.subrange(p + 2, i)).output(vars),
            replaced || vars.contains_key(s.subrange(p + 2, i)),
            keys.push(s.subrange(p + 2, i)),
        ),
{
    let key = s.subrange(p + 2, i);
    let t = Token::Placeholder(key);
    lemma_tokens_placeholder(s, p, i);
    lemma_single_token(t, vars);
    lemma_scan_step(s, vars, fail, listing, p, i + 1, seq![t], out, replaced, keys);
    assert(keys + seq![key] =~= keys.push(key));
}

/// The scan meets a placeholder whose key has no value, where that is an error.
proof fn lemma_scan_undefined(
    s: Seq<char>,
    vars: Map<Seq<char>, Seq<char>>,
    listing: bool,
    p: int,
    i: int,
    out: Seq<char>,
    replaced: bool,
    keys: Seq<Seq<char>>,
)
    requires
        scanned(s, vars, true, listing, p, out, replaced, keys),
        0 <= p,
        p + 2 <= i < s.len(),
        s[p] == '$',
        s[p + 1] == '{',
        no_closing_brace(s, p + 2, i),
        s[i] == '}',
        !vars.contains_key(s.subrange(p + 2, i)),
    ensures
        first_undefined(tokenize(s), vars) == Some(s.subrange(p + 2, i)),
{
    let t = Token::Placeholder(s.subrange(p + 2, i));
    lemma_tokens_placeholder(s, p, i);
    lemma_single_token(t, vars);
    lemma_first_undefined_concat(seq![t], tokens_from(s, i + 1), vars);
}

/// The scan ends inside a placeholder.
proof fn lemma_scan_unclosed(
    s: Seq<char>,
    vars: Map<Seq<char>, Seq<char>>,
    fail: bool,
    listing: bool,
    p: int,
    out: Seq<char>,
    replaced: bool,
    keys: Seq<Seq<char>>,
)
    requires
        scanned(s, vars, fail, listing, p, out, replaced, keys),
        0 <= p,
        p + 2 <= s.len(),
        s[p] == '$',
        s[p + 1] == '{',
        no_closing_brace(s, p + 2, s.len() as int),
    ensures
        scanned(
            s,
            vars,
            fail,
            listing,
            s.len() as int,
            out + opened_text(s.subrange(p + 2, s.len() as int)),
            replaced,
            keys,
        ),
{
    let t = Token::Unclosed(s.subrange(p + 2, s.len() as int));
    lemma_tokens_unclosed(s, p);
    lemma_single_token(t, vars);
    assert(seq![t] + tokens_from(s, s.len() as int) =~= seq![t]);
    lemma_scan_step(s, vars, fail, listing, p, s.len() as int, seq![t], out, replaced, keys);
    assert(keys + Seq::<Seq<char>>::empty() =~= keys);
}

/// At the end of the text, what was gathered is what the model says of the whole text.
proof fn lemma_scan_end(
    s: Seq<char>,
    vars: Map<Seq<char>, Seq<char>>,
    fail: bool,
    listing: bool,
    out: Seq<char>,
    replaced: bool,
    keys: Seq<Seq<char>>,
)
    requires
        scanned(s, vars, fail, listing, s.len() as int, out, replaced, keys),
    ensures
        !listing ==> render(tokenize(s), vars) == out,
        !listing ==> replaces_any(tokenize(s), vars) == replaced,
        fail ==> first_undefined(tokenize(s), vars) is None,
        listing ==> key_names(tokenize(s)) == keys,
{
    let none = tokens_from(s, s.len() as int);
    assert(none =~= Seq::<Token>::empty());
    assert(out + render(none, vars) =~= out);
    assert(keys + key_names(none) =~= keys);
}

/// The variables that a scan goes by; a scan that lists keys goes by none.
spec fn scan_vars(settings: Option<&Settings>) -> Map<Seq<char>, Seq<char>> {
    match settings {
        Some(st) => st.vars()@,
        None => Map::empty(),
    }
}

/// Whether a scan fails on a key without a value.
spec fn scan_fails(settings: Option<&Settings>) -> bool {
    match settings {
        Some(st) => st.fail_on_missing(),
        None => false,
    }
}

/// Reads the text once, character by character. With settings it builds the
/// text in which the placeholders are replaced; without, it lists the keys of
/// the placeholders and looks nothing up.
fn scan(line: &str, settings: Option<&Settings>) -> (r: Result<Scan, UndefinedKeyError>)
    ensures
        match r {
            Ok(scan) => {
                let toks = tokenize(line@);
                let vars = scan_vars(settings);
                &&& scan_fails(settings) ==> first_undefined(toks, vars) is None
                &&& settings is Some ==> scan.replaced == replaces_any(toks, vars)
                &&& settings is Some && scan.replaced ==> scan.text@ == render(toks, vars)
                &&& settings is None ==> scan.keys.deep_view() == key_names(toks)
            },
            Err(e) => {
                &&& scan_fails(settings)
                &&& first_undefined(tokenize(line@), scan_vars(settings)) == Some(e.key@)
            },
        },
{
    let ghost s = line@;
    let ghost vars = scan_vars(settings);
    let ghost fail = scan_fails(settings);
    let ghost listing = settings is None;
    let ghost mut p: int = 0;
    let mut state = ReplState::Text;
    let mut key = String::new();
    let mut buff_special = String::new();
    let mut buff_out = String::new();
    let mut replaced = false;
    let mut keys: Vec<String> = Vec::new();
    proof {
        assert(buff_out@ + render(tokens_from(s, 0), vars) =~= render(tokenize(s), vars));
        assert(keys.deep_view() + key_names(tokens_from(s, 0)) =~= key_names(tokenize(s)));
    }
    for chr in it: line.chars()
        invariant
            it.seq() == s,
            s == line@,
            vars == scan_vars(settings),
            fail == scan_fails(settings),
            listing == (settings is None),
            buffers_fit(state, s, p, it.index() as int, buff_special@, key@),
            scanned(s, vars, fail, listing, p, buff_out@, replaced, keys.deep_view()),
    {
        let ghost i = it.index() as int;
        let ghost out = buff_out@;
        let ghost names = keys.deep_view();
        match state {
            ReplState::Text => {
                if chr == '$' {
                    state = ReplState::Dollar1;
                    buff_special.push(chr);
                    assert(buff_special@ =~= dollars(1));
                } else {
                    buff_out.push(chr);
                    proof {
                        lemma_scan_literal(s, vars, fail, listing, p, out, replaced, names);
                        p = i + 1;
                    }
                }
            },
            ReplState::Dollar1 => {
                if chr == '$' {
                    state = ReplState::Dollar2;
                    buff_special.push(chr);
                    assert(buff_special@ =~= dollars(2));
                } else if chr == '{' {
                    state = ReplState::Key;
                    buff_special.clear();
                    assert(key@ =~= s.subrange(p + 2, i + 1));
                } else {
                    state = ReplState::Text;
                    buff_out.append(buff_special.as_str());
                    buff_out.push(chr);
                    buff_special.clear();
                    proof {
                        lemma_scan_dollars(s, vars, fail, listing, p, i, out, replaced, names);
                        lemma_scan_literal(
                            s,
                            vars,
                            fail,
                            listing,
                            i,
                            out + dollars(1),
                            replaced,
                            names,
                        );
                        p = i + 1;
                    }
                }
            },
            ReplState::Dollar2 => {
                buff_special.push(chr);
                if chr != '$' {
                    if chr == '{' {
                        // One dollar sign less: "$$${" becomes "$${".
                        buff_special.remove(0);
                        proof {
                            lemma_scan_escape(s, vars, fail, listing, p, i, out, replaced, names);
                            assert(buff_special@ =~= dollars((i - p - 1) as nat).push('{'));
                        }
                        replaced = true;
                    } else {
                        proof {
                            lemma_scan_dollars(s, vars, fail, listing, p, i, out, replaced, names);
                            lemma_scan_literal(
                                s,
                                vars,
                                fail,
                                listing,
                                i,
                                out + dollars((i - p) as nat),
                                replaced,
                                names,
                            );
                            assert(out + buff_special@ =~= (out + dollars((i - p) as nat)).push(
                                chr,
                            ));
                        }
                    }
                    state = ReplState::Text;
                    buff_out.append(buff_special.as_str());
                    buff_special.clear();
                    proof {
                        p = i + 1;
                    }
                } else {
                    assert(buff_special@ =~= dollars((i + 1 - p) as nat));
                }
            },
            ReplState::Key => {
                if chr == '}' {
                    match settings {
                        Some(st) => {
                            match replacement(key.as_str(), st) {
                                Ok(repl) => {
                                    proof {
                                        lemma_scan_placeholder(
                                            s,
                                            vars,
                                            fail,
                                            listing,
                                            p,
                                            i,
                                            out,
                                            replaced,
                                            names,
                                        );
                                    }
                                    replaced = replaced || repl.0;
                                    buff_out.append(repl.1.as_str());
                                },
                                Err(e) => {
                                    proof {
                                        lemma_scan_undefined(
                                            s,
                                            vars,
                                            listing,
                                            p,
                                            i,
                                            out,
                                            replaced,
                                            names,
                                        );
                                    }
                                    return Err(e);
                                },
                            }
                            key.clear();
                        },
                        None => {
                            proof {
                                lemma_scan_placeholder(
                                    s,
                                    vars,
                                    fail,
                                    listing,
                                    p,
                                    i,
                                    out,
                                    replaced,
                                    names,
                                );
                            }
                            keys.push(key);
                            key = String::new();
                            assert(keys.deep_view() =~= names.push(s.subrange(p + 2, i)));
                        },
                    }
                    state = ReplState::Text;
                    proof {
                        p = i + 1;
                    }
                } else {
                    key.push(chr);
                    assert(key@ =~= s.subrange(p + 2, i + 1));
                }
            },
        }
    }
    let ghost out = buff_out@;
    let ghost names = keys.deep_view();
    let ghost end = s.len() as int;
    if replaced {
        buff_out.append(buff_special.as_str());
        match state {
            ReplState::Key => {
                proof {
                    reveal_strlit("${");
                }
                buff_out.append("${");
            },
            _ => {},
        }
        buff_out.append(key.as_str());
    }
    proof {
        match state {
            ReplState::Text => {
                assert(out + buff_special@ + key@ =~= out);
            },
            ReplState::Dollar1 => {
                lemma_scan_dollars(s, vars, fail, listing, p, end, out, replaced, names);
                assert(out + buff_special@ + key@ =~= out + dollars(1));
            },
            ReplState::Dollar2 => {
                lemma_scan_dollars(s, vars, fail, listing, p, end, out, replaced, names);
                assert(out + buff_special@ + key@ =~= out + dollars((end - p) as nat));
            },
            ReplState::Key => {
                lemma_scan_unclosed(s, vars, fail, listing, p, out, replaced, names);
                reveal_strlit("${");
                assert("${"@ =~= seq!['$', '{']);
                assert(out + buff_special@ + "${"@ + key@ =~= out + opened_text(key@));
            },
        }
        let flushed = if state is Key {
            out + opened_text(key@)
        } else {
            out + buff_special@ + key@
        };
        lemma_scan_end(s, vars, fail, listing, flushed, replaced, names);
    }
    Ok(Scan { text: buff_out, replaced, keys })
}

/// Replaces the placeholders of the form `${KEY}` in a text with the values
/// of their keys.
///
/// The result is what the tokens of the text render to under the variables of
/// the settings. Where nothing was replaced, neither a placeholder with a
/// value nor an escape, the result is the text itself, borrowed; else it is a
/// new text. Where the settings ask for it, the first placeholder whose key
/// has no value is an error, and no text comes back.
pub fn replace_in_string<'t>(line: &'t str, settings: &Settings) -> (r: Result<
    Cow<'t, str>,
    UndefinedKeyError,
>)
    ensures
        match r {
            Ok(text) => {
                let toks = tokenize(line@);
                let vars = settings.vars()@;
                &&& settings.fail_on_missing() ==> first_undefined(toks, vars) is None
                &&& text@ == render(toks, vars)
                &&& match text {
                    Cow::Borrowed(same) => !replaces_any(toks, vars) && same@ == line@,
                    Cow::Owned(_) => replaces_any(toks, vars),
                }
            },
            Err(e) => {
                &&& settings.fail_on_missing()
                &&& first_undefined(tokenize(line@), settings.vars()@) == Some(e.key@)
            },
        },
        !line@.contains('$') ==> (r matches Ok(Cow::Borrowed(_))),
{
    proof {
        if !line@.contains('$') {
            lemma_no_dollar_passes_through(line@, settings.vars()@);
        }
    }
    match scan(line, Some(settings)) {
        Ok(scan) => {
            if scan.replaced {
                Ok(Cow::Owned(scan.text))
            } else {
                proof {
                    lemma_unreplaced_text(line@, settings.vars()@);
                }
                Ok(Cow::Borrowed(line))
            }
        },
        Err(e) => Err(e),
    }
}

/// Lists the keys of the placeholders of the form `${KEY}` in a text, in
/// their order and as often as they occur. No table is looked at.
pub fn extract_from_string(line: &str) -> (keys: Vec<String>)
    ensures
        keys.deep_view() == key_names(tokenize(line@)),
{
    match scan(line, None) {
        Ok(scan) => scan.keys,
        Err(_) => Vec::new(),
    }
}

} // verus!
