//! Tokenizer for the Nginx-style configuration syntax.
//!
//! The grammar is intentionally tiny: barewords, quoted strings, and the three
//! punctuation tokens `{`, `}`, `;`. Comments run from `#` to end of line.

use crate::text::{
    chars, decimal, find_from, is_space, lemma_position, lemma_position_is, position, push_decimal,
    slice_string, space,
};
use vstd::arithmetic::div_mod::{
    lemma_add_mod_noop_right, lemma_mod_bound, lemma_mod_self_0, lemma_small_mod,
};
use vstd::prelude::*;
use vstd::string::*;

verus! {

#[derive(Debug, Clone, PartialEq, Eq)]
pub enum TokKind {
    /// A bareword or quoted string. Quotes and escapes are already resolved.
    Word(String),
    OpenBrace,
    CloseBrace,
    Semicolon,
}

#[derive(Debug, Clone)]
pub struct Token {
    pub kind: TokKind,
    pub line: usize,
}

/// Model of a [`TokKind`].
pub enum TokKindV {
    Word(Seq<char>),
    OpenBrace,
    CloseBrace,
    Semicolon,
}

/// Model of a [`Token`].
pub struct TokenV {
    pub kind: TokKindV,
    pub line: usize,
}

impl View for TokKind {
    type V = TokKindV;

    open spec fn view(&self) -> TokKindV {
        match self {
            TokKind::Word(w) => TokKindV::Word(w@),
            TokKind::OpenBrace => TokKindV::OpenBrace,
            TokKind::CloseBrace => TokKindV::CloseBrace,
            TokKind::Semicolon => TokKindV::Semicolon,
        }
    }
}

impl View for Token {
    type V = TokenV;

    open spec fn view(&self) -> TokenV {
        TokenV { kind: self.kind@, line: self.line }
    }
}

pub open spec fn token_views(v: Seq<Token>) -> Seq<TokenV> {
    v.map_values(|t: Token| t@)
}

/// `"line N: "`, the start of most diagnostics.
pub open spec fn at_line(line: usize) -> Seq<char> {
    "line "@ + decimal(line as nat) + ": "@
}

/// A diagnostic that starts with the line it is about.
pub fn line_prefix(line: usize) -> (s: String)
    ensures
        s@ == at_line(line),
{
    let mut s = "line ".to_owned();
    push_decimal(&mut s, line as u64);
    s.append(": ");
    s
}

/// The character that a backslash followed by `c` stands for.
pub open spec fn unescape(c: char) -> char {
    if c == 'n' {
        '\n'
    } else if c == 't' {
        '\t'
    } else if c == 'r' {
        '\r'
    } else {
        c
    }
}

/// What a quoted string holds, read from just behind its opening `quote`.
pub struct Quoted {
    /// The text with escapes resolved.
    pub text: Seq<char>,
    /// Characters read, closing quote included.
    pub used: int,
    /// The line reached.
    pub line: usize,
}

/// Reads a quoted string; `None` when the input ends first.
pub open spec fn quoted(s: Seq<char>, quote: char, line: usize) -> Option<Quoted>
    decreases s.len(),
{
    if s.len() == 0 {
        None
    } else if s[0] == quote {
        Some(Quoted { text: seq![], used: 1, line })
    } else if s[0] == '\\' {
        if s.len() == 1 {
            None
        } else {
            prefixed(unescape(s[1]), 2, quoted(s.skip(2), quote, line_behind(s[1], line)))
        }
    } else {
        prefixed(s[0], 1, quoted(s.skip(1), quote, line_behind(s[0], line)))
    }
}

/// The line behind a character on line `line`.
pub open spec fn line_behind(c: char, line: usize) -> usize {
    if c == '\n' {
        line.wrapping_add(1)
    } else {
        line
    }
}

pub open spec fn prefixed(c: char, used: int, rest: Option<Quoted>) -> Option<Quoted> {
    match rest {
        Some(q) => Some(Quoted { text: seq![c] + q.text, used: q.used + used, line: q.line }),
        None => None,
    }
}

/// Whether `c` ends a bareword.
pub open spec fn ends_word(c: char) -> bool {
    is_space(c) || c == '{' || c == '}' || c == ';' || c == '#'
}

/// Length of the bareword that `s` starts with.
pub open spec fn word_len(s: Seq<char>) -> int
    decreases s.len(),
{
    if s.len() == 0 || ends_word(s[0]) {
        0
    } else {
        1 + word_len(s.skip(1))
    }
}

/// `first` in front of a token list.
pub open spec fn token_then(
    kind: TokKindV,
    line: usize,
    rest: Result<Seq<TokenV>, Seq<char>>,
) -> Result<Seq<TokenV>, Seq<char>> {
    after_tokens(seq![TokenV { kind, line }], rest)
}

/// `first` in front of a token list, unless that list is an error.
pub open spec fn after_tokens(
    first: Seq<TokenV>,
    rest: Result<Seq<TokenV>, Seq<char>>,
) -> Result<Seq<TokenV>, Seq<char>> {
    match rest {
        Ok(ts) => Ok(first + ts),
        Err(e) => Err(e),
    }
}

/// The tokens of `s`, whose first character stands on line `line`.
pub open spec fn tokens_of(s: Seq<char>, line: usize) -> Result<Seq<TokenV>, Seq<char>>
    decreases s.len(),
    via tokens_decrease
{
    if s.len() == 0 {
        Ok(seq![])
    } else if s[0] == '\n' {
        tokens_of(s.skip(1), line.wrapping_add(1))
    } else if is_space(s[0]) {
        tokens_of(s.skip(1), line)
    } else if s[0] == '#' {
        tokens_of(s.skip(position(s, '\n')), line)
    } else if s[0] == '{' {
        token_then(TokKindV::OpenBrace, line, tokens_of(s.skip(1), line))
    } else if s[0] == '}' {
        token_then(TokKindV::CloseBrace, line, tokens_of(s.skip(1), line))
    } else if s[0] == ';' {
        token_then(TokKindV::Semicolon, line, tokens_of(s.skip(1), line))
    } else if s[0] == '"' || s[0] == '\'' {
        match quoted(s.skip(1), s[0], line) {
            None => Err(at_line(line) + "unterminated string"@),
            Some(q) => token_then(
                TokKindV::Word(q.text),
                line,
                tokens_of(s.skip(1 + q.used), q.line),
            ),
        }
    } else {
        let n = word_len(s);
        token_then(TokKindV::Word(s.take(n)), line, tokens_of(s.skip(n), line))
    }
}

#[via_fn]
proof fn tokens_decrease(s: Seq<char>, line: usize) {
    if s.len() > 0 {
        lemma_position_is(s, '\n');
        lemma_quoted_used(s.skip(1), s[0], line);
        lemma_word_fits(s);
        if s[0] == '#' {
            assert(position(s, '\n') != 0);
        }
    }
}

pub proof fn lemma_quoted_used(s: Seq<char>, quote: char, line: usize)
    ensures
        quoted(s, quote, line) matches Some(q) ==> 0 < q.used <= s.len(),
    decreases s.len(),
{
    if s.len() > 0 && s[0] != quote {
        if s[0] == '\\' {
            if s.len() > 1 {
                lemma_quoted_used(s.skip(2), quote, line_behind(s[1], line));
            }
        } else {
            lemma_quoted_used(s.skip(1), quote, line_behind(s[0], line));
        }
    }
}

proof fn lemma_word_fits(s: Seq<char>)
    ensures
        0 <= word_len(s) <= s.len(),
        s.len() > 0 && !ends_word(s[0]) ==> word_len(s) > 0,
    decreases s.len(),
{
    if s.len() > 0 && !ends_word(s[0]) {
        lemma_word_fits(s.skip(1));
    }
}

proof fn lemma_word_len(s: Seq<char>, n: int)
    requires
        0 <= n <= s.len(),
        forall|k: int| 0 <= k < n ==> !ends_word(#[trigger] s[k]),
        n == s.len() || ends_word(s[n]),
    ensures
        word_len(s) == n,
    decreases n,
{
    if n > 0 {
        assert forall|k: int| 0 <= k < n - 1 implies !ends_word(#[trigger] s.skip(1)[k]) by {
            assert(s.skip(1)[k] == s[k + 1]);
        }
        lemma_word_len(s.skip(1), n - 1);
    }
}

/// A string literal read by [`lex_quoted`].
struct QuotedText {
    text: String,
    /// Index just behind the closing quote.
    end: usize,
    line: usize,
}

/// `done` in front of what is still to be read.
spec fn quoted_after(done: Seq<char>, used: int, rest: Option<Quoted>) -> Option<Quoted> {
    match rest {
        Some(q) => Some(Quoted { text: done + q.text, used: q.used + used, line: q.line }),
        None => None,
    }
}

/// Reads the string literal whose first character behind the quote is `v[from]`.
fn lex_quoted(v: &Vec<char>, from: usize, quote: char, line: usize) -> (r: Option<QuotedText>)
    requires
        from <= v@.len(),
    ensures
        match r {
            Some(q) => from < q.end <= v@.len() && quoted(v@.skip(from as int), quote, line) == Some(
                Quoted { text: q.text@, used: q.end - from, line: q.line },
            ),
            None => quoted(v@.skip(from as int), quote, line) is None,
        },
{
    let mut s: String = String::new();
    let mut i: usize = from;
    let mut now: usize = line;
    let ghost whole = quoted(v@.skip(from as int), quote, line);
    assert(quoted_after(s@, 0, whole) == whole) by {
        if let Some(q) = whole {
            assert(s@ + q.text =~= q.text);
        }
    }
    while i < v.len()
        invariant
            from <= i <= v@.len(),
            whole == quoted(v@.skip(from as int), quote, line),
            quoted_after(s@, i - from, quoted(v@.skip(i as int), quote, now)) == whole,
        decreases v@.len() - i,
    {
        let c = v[i];
        let ghost rest = v@.skip(i as int);
        let ghost done = s@;
        assert(rest[0] == c);
        if c == quote {
            assert(done + Seq::<char>::empty() =~= done);
            return Some(QuotedText { text: s, end: i + 1, line: now });
        }
        if c == '\\' {
            if i + 1 >= v.len() {
                return None;
            }
            let e = v[i + 1];
            assert(rest[1] == e);
            assert(rest.skip(2) == v@.skip(i + 2));
            let u = if e == 'n' {
                '\n'
            } else if e == 't' {
                '\t'
            } else if e == 'r' {
                '\r'
            } else {
                e
            };
            if e == '\n' {
                now = now.wrapping_add(1);
            }
            s.push(u);
            i = i + 2;
        } else {
            assert(rest.skip(1) == v@.skip(i + 1));
            if c == '\n' {
                now = now.wrapping_add(1);
            }
            s.push(c);
            i = i + 1;
        }
        proof {
            if let Some(q) = quoted(v@.skip(i as int), quote, now) {
                assert(done + (seq![s@.last()] + q.text) =~= s@ + q.text);
            }
        }
    }
    assert(v@.skip(i as int).len() == 0);
    None
}

/// Split `input` into tokens, tracking 1-based line numbers for diagnostics.
pub fn lex(input: &str) -> (r: Result<Vec<Token>, String>)
    ensures
        match r {
            Ok(ts) => tokens_of(input@, 1) == Ok::<Seq<TokenV>, Seq<char>>(token_views(ts@)),
            Err(e) => tokens_of(input@, 1) == Err::<Seq<TokenV>, Seq<char>>(e@),
        },
{
    let v = chars(input);
    let mut tokens: Vec<Token> = Vec::new();
    let mut line: usize = 1;
    let mut i: usize = 0;
    let ghost whole = tokens_of(input@, 1);
    proof {
        assert(v@.skip(0) == input@);
        if let Ok(ts) = whole {
            assert(token_views(tokens@) + ts =~= ts);
        }
    }
    while i < v.len()
        invariant
            i <= v@.len(),
            v@ == input@,
            whole == tokens_of(input@, 1),
            after_tokens(token_views(tokens@), tokens_of(v@.skip(i as int), line)) == whole,
        decreases v@.len() - i,
    {
        let c = v[i];
        let ghost rest = v@.skip(i as int);
        let ghost before = tokens@;
        let start: usize = line;
        assert(rest[0] == c);
        if c == '\n' {
            assert(rest.skip(1) == v@.skip(i + 1));
            line = line.wrapping_add(1);
            i = i + 1;
        } else if space(c) {
            assert(rest.skip(1) == v@.skip(i + 1));
            i = i + 1;
        } else if c == '#' {
            let j = find_from(&v, i, '\n');
            assert(rest.skip(j - i) == v@.skip(j as int));
            i = j;
        } else {
            let kind: TokKind;
            let next: usize;
            if c == '{' {
                kind = TokKind::OpenBrace;
                next = i + 1;
            } else if c == '}' {
                kind = TokKind::CloseBrace;
                next = i + 1;
            } else if c == ';' {
                kind = TokKind::Semicolon;
                next = i + 1;
            } else if c == '"' || c == '\'' {
                assert(rest.skip(1) == v@.skip(i + 1));
                match lex_quoted(&v, i + 1, c, line) {
                    None => {
                        let mut e = line_prefix(line);
                        e.append("unterminated string");
                        return Err(e);
                    },
                    Some(q) => {
                        line = q.line;
                        next = q.end;
                        kind = TokKind::Word(q.text);
                    },
                }
            } else {
                let mut j: usize = i;
                while j < v.len() && !(space(v[j]) || v[j] == '{' || v[j] == '}' || v[j] == ';'
                    || v[j] == '#')
                    invariant
                        i <= j <= v@.len(),
                        forall|k: int| i <= k < j ==> !ends_word(#[trigger] v@[k]),
                    decreases v@.len() - j,
                {
                    j = j + 1;
                }
                proof {
                    assert forall|k: int| 0 <= k < j - i implies !ends_word(#[trigger] rest[k]) by {
                        assert(rest[k] == v@[k + i]);
                    }
                    lemma_word_len(rest, j - i);
                    assert(rest.take(j - i) == v@.subrange(i as int, j as int));
                }
                kind = TokKind::Word(slice_string(&v, i, j));
                next = j;
            }
            assert(rest.skip(next - i) == v@.skip(next as int));
            let token = Token { kind, line: start };
            tokens.push(token);
            i = next;
            proof {
                let more = tokens_of(v@.skip(i as int), line);
                assert(tokens_of(rest, start) == token_then(token.kind@, start, more));
                if let Ok(ts) = more {
                    assert(token_views(before) + (seq![token@] + ts) =~= token_views(tokens@) + ts);
                }
            }
        }
    }
    assert(v@.skip(i as int).len() == 0);
    Ok(tokens)
}

// ---------------------------------------------------------------------------
// Laws
// ---------------------------------------------------------------------------

/// Whether tokens stand in order of their lines, none before `from` and none
/// behind `to`.
pub open spec fn lines_ascend(ts: Seq<TokenV>, from: int, to: int) -> bool {
    &&& forall|i: int| 0 <= i < ts.len() ==> from <= (#[trigger] ts[i]).line <= to
    &&& forall|i: int, j: int|
        0 <= i < j < ts.len() ==> (#[trigger] ts[i]).line <= (#[trigger] ts[j]).line
}

proof fn lemma_ascend_after(kind: TokKindV, line: usize, rest: Seq<TokenV>, from: int, to: int)
    requires
        lines_ascend(rest, from, to),
        line <= from,
        line <= to,
    ensures
        lines_ascend(seq![TokenV { kind, line }] + rest, line as int, to),
{
    let all = seq![TokenV { kind, line }] + rest;
    assert forall|i: int| 0 <= i < all.len() implies line <= (#[trigger] all[i]).line <= to by {
        if i > 0 {
            assert(all[i] == rest[i - 1]);
        }
    }
    assert forall|i: int, j: int| 0 <= i < j < all.len() implies (#[trigger] all[i]).line <= (
    #[trigger] all[j]).line by {
        assert(all[j] == rest[j - 1]);
        if i > 0 {
            assert(all[i] == rest[i - 1]);
        }
    }
}

/// Number of line breaks in a text.
pub open spec fn breaks(s: Seq<char>) -> int
    decreases s.len(),
{
    if s.len() == 0 {
        0
    } else {
        breaks(s.skip(1)) + (if s[0] == '\n' {
            1int
        } else {
            0
        })
    }
}

proof fn lemma_breaks_bound(s: Seq<char>)
    ensures
        0 <= breaks(s) <= s.len(),
    decreases s.len(),
{
    if s.len() > 0 {
        lemma_breaks_bound(s.skip(1));
    }
}

proof fn lemma_breaks_split(s: Seq<char>, n: int)
    requires
        0 <= n <= s.len(),
    ensures
        breaks(s) == breaks(s.take(n)) + breaks(s.skip(n)),
    decreases n,
{
    if n == 0 {
        assert(s.skip(0) =~= s);
        assert(s.take(0).len() == 0);
    } else {
        lemma_breaks_split(s.skip(1), n - 1);
        assert(s.take(n).skip(1) =~= s.skip(1).take(n - 1));
        assert(s.skip(1).skip(n - 1) =~= s.skip(n));
    }
}

proof fn lemma_no_breaks(s: Seq<char>)
    requires
        !s.contains('\n'),
    ensures
        breaks(s) == 0,
    decreases s.len(),
{
    if s.len() > 0 {
        assert(s.contains(s[0]));
        assert forall|k: int| 0 <= k < s.skip(1).len() implies s.skip(1)[k] != '\n' by {
            assert(s.contains(s[k + 1]));
        }
        lemma_no_breaks(s.skip(1));
    }
}

/// The line `n` lines below `line`. Lines are counted modulo the word size.
pub open spec fn below(line: usize, n: int) -> usize {
    ((line + n) % (usize::MAX + 1)) as usize
}

proof fn lemma_below(line: usize, a: int, b: int)
    requires
        0 <= a,
        0 <= b,
    ensures
        below(line, 0) == line,
        below(line, 1) == line.wrapping_add(1),
        below(below(line, a), b) == below(line, a + b),
        line + a <= usize::MAX ==> below(line, a) == line + a,
{
    let m = usize::MAX + 1;
    lemma_small_mod(line as nat, m as nat);
    if line + a <= usize::MAX {
        lemma_small_mod((line + a) as nat, m as nat);
    }
    if line < usize::MAX {
        lemma_small_mod((line + 1) as nat, m as nat);
    } else {
        lemma_mod_self_0(m);
    }
    lemma_mod_bound(line + a, m);
    lemma_add_mod_noop_right(b, line + a, m);
}

/// A string literal ends where it ends, whatever follows it, and the line it
/// ends on counts every line break in it.
proof fn lemma_quoted_extends(s: Seq<char>, more: Seq<char>, quote: char, line: usize)
    requires
        quote != '\n',
        quoted(s, quote, line) is Some,
    ensures
        quoted(s + more, quote, line) == quoted(s, quote, line),
        quoted(s, quote, line)->0.line == below(
            line,
            breaks(s.take(quoted(s, quote, line)->0.used)),
        ),
        0 < quoted(s, quote, line)->0.used <= s.len(),
    decreases s.len(),
{
    let all = s + more;
    let q = quoted(s, quote, line)->0;
    lemma_quoted_used(s, quote, line);
    reveal_with_fuel(breaks, 3);
    lemma_below(line, 0, 0);
    if s[0] == quote {
        assert(all[0] == quote);
        assert(s.take(1).skip(1).len() == 0);
    } else if s[0] == '\\' {
        let rest = s.skip(2).take(q.used - 2);
        assert(all.skip(2) =~= s.skip(2) + more);
        lemma_quoted_extends(s.skip(2), more, quote, line_behind(s[1], line));
        assert(s.take(q.used).skip(1).skip(1) =~= rest);
        lemma_breaks_bound(rest);
        lemma_below(line, 1, breaks(rest));
    } else {
        let rest = s.skip(1).take(q.used - 1);
        assert(all.skip(1) =~= s.skip(1) + more);
        lemma_quoted_extends(s.skip(1), more, quote, line_behind(s[0], line));
        assert(s.take(q.used).skip(1) =~= rest);
        lemma_breaks_bound(rest);
        lemma_below(line, 1, breaks(rest));
    }
}

/// What is passed over behind a `#` holds no line break.
proof fn lemma_comment(s: Seq<char>)
    requires
        s.len() > 0,
        s[0] == '#',
    ensures
        0 < position(s, '\n') <= s.len(),
        breaks(s.skip(position(s, '\n'))) == breaks(s),
{
    let n = position(s, '\n');
    lemma_position_is(s, '\n');
    assert(n != 0);
    lemma_breaks_split(s, n);
    assert forall|k: int| 0 <= k < s.take(n).len() implies s.take(n)[k] != '\n' by {
        assert(s.take(n)[k] == s[k]);
    }
    lemma_no_breaks(s.take(n));
}

/// A bareword holds no line break.
proof fn lemma_word(s: Seq<char>)
    ensures
        0 <= word_len(s) <= s.len(),
        s.len() > 0 && !ends_word(s[0]) ==> word_len(s) > 0,
        word_len(s) == s.len() || ends_word(s[word_len(s)]),
        forall|k: int| 0 <= k < word_len(s) ==> !ends_word(#[trigger] s[k]),
        breaks(s.skip(word_len(s))) == breaks(s),
    decreases s.len(),
{
    if s.len() > 0 && !ends_word(s[0]) {
        lemma_word(s.skip(1));
        let n = word_len(s);
        assert(s.skip(1).skip(n - 1) =~= s.skip(n));
        assert forall|k: int| 0 <= k < n implies !ends_word(#[trigger] s[k]) by {
            if k > 0 {
                assert(s.skip(1)[k - 1] == s[k]);
            }
        }
        if n < s.len() {
            assert(s.skip(1)[n - 1] == s[n]);
        }
    } else {
        assert(s.skip(0) =~= s);
    }
}

/// Tokens carry the lines that they stand on: in order, none before the first
/// line and none behind the last, counting every line break.
pub proof fn law_lines_ascend(s: Seq<char>, line: usize)
    requires
        line + breaks(s) <= usize::MAX,
    ensures
        tokens_of(s, line) matches Ok(ts) ==> lines_ascend(ts, line as int, line + breaks(s)),
    decreases s.len(),
{
    lemma_breaks_bound(s);
    if s.len() > 0 && tokens_of(s, line) is Ok {
        let end = line + breaks(s);
        if s[0] == '\n' {
            law_lines_ascend(s.skip(1), line.wrapping_add(1));
        } else if is_space(s[0]) {
            law_lines_ascend(s.skip(1), line);
        } else if s[0] == '#' {
            lemma_comment(s);
            law_lines_ascend(s.skip(position(s, '\n')), line);
        } else if s[0] == '{' || s[0] == '}' || s[0] == ';' {
            law_lines_ascend(s.skip(1), line);
            let rest = tokens_of(s.skip(1), line)->Ok_0;
            let kind = tokens_of(s, line)->Ok_0[0].kind;
            lemma_ascend_after(kind, line, rest, line as int, end);
        } else if s[0] == '"' || s[0] == '\'' {
            let t = s.skip(1);
            let q = quoted(t, s[0], line)->0;
            lemma_quoted_extends(t, seq![], s[0], line);
            lemma_breaks_split(t, q.used);
            lemma_breaks_bound(t.take(q.used));
            lemma_breaks_bound(t.skip(q.used));
            lemma_below(line, breaks(t.take(q.used)), 0);
            assert(t.skip(q.used) =~= s.skip(1 + q.used));
            law_lines_ascend(s.skip(1 + q.used), q.line);
            let rest = tokens_of(s.skip(1 + q.used), q.line)->Ok_0;
            lemma_ascend_after(TokKindV::Word(q.text), line, rest, q.line as int, end);
        } else {
            let n = word_len(s);
            lemma_word(s);
            law_lines_ascend(s.skip(n), line);
            let rest = tokens_of(s.skip(n), line)->Ok_0;
            lemma_ascend_after(TokKindV::Word(s.take(n)), line, rest, line as int, end);
        }
    }
}

/// Tokens `n` lines further down.
pub open spec fn moved(ts: Seq<TokenV>, n: int) -> Seq<TokenV> {
    ts.map_values(|t: TokenV| TokenV { kind: t.kind, line: below(t.line, n) })
}

proof fn lemma_line_behind(c: char, line: usize, n: int)
    requires
        0 <= n,
    ensures
        below(line_behind(c, line), n) == line_behind(c, below(line, n)),
{
    lemma_below(line, 1, n);
    lemma_below(line, n, 1);
    lemma_below(below(line, n), 0, 0);
}

proof fn lemma_quoted_moved(s: Seq<char>, quote: char, line: usize, n: int)
    requires
        0 <= n,
    ensures
        quoted(s, quote, below(line, n)) == (match quoted(s, quote, line) {
            Some(q) => Some(Quoted { text: q.text, used: q.used, line: below(q.line, n) }),
            None => None,
        }),
    decreases s.len(),
{
    if s.len() > 0 && s[0] != quote {
        if s[0] == '\\' {
            if s.len() > 1 {
                lemma_line_behind(s[1], line, n);
                lemma_quoted_moved(s.skip(2), quote, line_behind(s[1], line), n);
            }
        } else {
            lemma_line_behind(s[0], line, n);
            lemma_quoted_moved(s.skip(1), quote, line_behind(s[0], line), n);
        }
    }
}

/// What stands further down has the same tokens further down.
proof fn lemma_moved(s: Seq<char>, line: usize, n: int)
    requires
        0 <= n,
        tokens_of(s, line) is Ok,
    ensures
        tokens_of(s, below(line, n)) == Ok::<Seq<TokenV>, Seq<char>>(
            moved(tokens_of(s, line)->Ok_0, n),
        ),
    decreases s.len(),
{
    let l = below(line, n);
    let ts = tokens_of(s, line)->Ok_0;
    if s.len() == 0 {
        assert(moved(ts, n) =~= seq![]);
    } else if s[0] == '\n' {
        lemma_line_behind('\n', line, n);
        lemma_moved(s.skip(1), line.wrapping_add(1), n);
    } else if is_space(s[0]) {
        lemma_moved(s.skip(1), line, n);
    } else if s[0] == '#' {
        lemma_comment(s);
        lemma_moved(s.skip(position(s, '\n')), line, n);
    } else if s[0] == '{' || s[0] == '}' || s[0] == ';' {
        lemma_moved(s.skip(1), line, n);
        assert(tokens_of(s, l)->Ok_0 =~= moved(ts, n));
    } else if s[0] == '"' || s[0] == '\'' {
        let t = s.skip(1);
        let q = quoted(t, s[0], line)->0;
        lemma_quoted_moved(t, s[0], line, n);
        lemma_quoted_used(t, s[0], line);
        lemma_moved(s.skip(1 + q.used), q.line, n);
        assert(tokens_of(s, l)->Ok_0 =~= moved(ts, n));
    } else {
        lemma_word(s);
        lemma_moved(s.skip(word_len(s)), line, n);
        assert(tokens_of(s, l)->Ok_0 =~= moved(ts, n));
    }
}

proof fn lemma_joined(a: Seq<char>, b: Seq<char>, line: usize)
    requires
        tokens_of(a, line) is Ok,
    ensures
        tokens_of(a + seq!['\n'] + b, line) == after_tokens(
            tokens_of(a, line)->Ok_0,
            tokens_of(b, below(line, breaks(a) + 1)),
        ),
    decreases a.len(),
{
    let s = a + seq!['\n'] + b;
    let more = seq!['\n'] + b;
    let ts = tokens_of(a, line)->Ok_0;
    let tail = tokens_of(b, below(line, breaks(a) + 1));
    lemma_breaks_bound(a);
    lemma_below(line, 1, 0);
    if a.len() == 0 {
        assert(s.skip(1) =~= b);
        assert(s[0] == '\n');
        if let Ok(t) = tail {
            assert(Seq::<TokenV>::empty() + t =~= t);
        }
    } else {
        assert(s[0] == a[0]);
        assert(s.skip(1) =~= a.skip(1) + seq!['\n'] + b);
        if a[0] == '\n' {
            lemma_breaks_bound(a.skip(1));
            lemma_below(line, 1, breaks(a.skip(1)) + 1);
            lemma_joined(a.skip(1), b, line.wrapping_add(1));
        } else if is_space(a[0]) {
            lemma_joined(a.skip(1), b, line);
        } else if a[0] == '#' {
            let n = position(a, '\n');
            lemma_comment(a);
            lemma_position_is(a, '\n');
            assert(s[n] == '\n');
            assert forall|k: int| 0 <= k < n implies s[k] != '\n' by {
                assert(s[k] == a[k]);
            }
            lemma_position(s, '\n', n);
            assert(s.skip(n) =~= a.skip(n) + seq!['\n'] + b);
            lemma_joined(a.skip(n), b, line);
        } else {
            let used: int;
            let next: usize;
            if a[0] == '{' || a[0] == '}' || a[0] == ';' {
                lemma_joined(a.skip(1), b, line);
                used = 1;
                next = line;
            } else if a[0] == '"' || a[0] == '\'' {
                let t = a.skip(1);
                let q = quoted(t, a[0], line)->0;
                lemma_quoted_extends(t, more, a[0], line);
                assert(s.skip(1) =~= t + more);
                lemma_breaks_split(t, q.used);
                lemma_breaks_bound(t.take(q.used));
                lemma_breaks_bound(t.skip(q.used));
                lemma_below(line, breaks(t.take(q.used)), breaks(t.skip(q.used)) + 1);
                assert(t.skip(q.used) =~= a.skip(1 + q.used));
                assert(s.skip(1 + q.used) =~= a.skip(1 + q.used) + seq!['\n'] + b);
                lemma_joined(a.skip(1 + q.used), b, q.line);
                used = 1 + q.used;
                next = q.line;
            } else {
                let n = word_len(a);
                lemma_word(a);
                assert forall|k: int| 0 <= k < n implies !ends_word(#[trigger] s[k]) by {
                    assert(s[k] == a[k]);
                }
                assert(ends_word('\n'));
                lemma_word_len(s, n);
                assert(s.take(n) =~= a.take(n));
                assert(s.skip(n) =~= a.skip(n) + seq!['\n'] + b);
                lemma_joined(a.skip(n), b, line);
                used = n;
                next = line;
            }
            let first = ts[0];
            let rest = tokens_of(a.skip(used), next)->Ok_0;
            assert(ts =~= seq![first] + rest);
            if let Ok(t) = tail {
                assert(seq![first] + (rest + t) =~= ts + t);
            }
        }
    }
}

/// Two texts joined by a line break have the tokens of the first and then those
/// of the second, as many lines further down as the first takes. As long as the
/// lines can be counted they stand in order.
pub proof fn law_texts_join(a: Seq<char>, b: Seq<char>)
    requires
        tokens_of(a, 1) is Ok,
        tokens_of(b, 1) is Ok,
    ensures
        ({
            let all = tokens_of(a, 1)->Ok_0 + moved(tokens_of(b, 1)->Ok_0, breaks(a) + 1);
            &&& tokens_of(a + seq!['\n'] + b, 1) == Ok::<Seq<TokenV>, Seq<char>>(all)
            &&& breaks(a) + breaks(b) + 2 <= usize::MAX ==> lines_ascend(
                all,
                1,
                breaks(a) + breaks(b) + 2,
            )
        }),
{
    let n = breaks(a) + 1;
    let s = a + seq!['\n'] + b;
    lemma_breaks_bound(a);
    lemma_breaks_bound(b);
    lemma_joined(a, b, 1);
    lemma_moved(b, 1, n);
    if breaks(a) + breaks(b) + 2 <= usize::MAX {
        lemma_breaks_split(s, a.len() as int);
        assert(s.take(a.len() as int) =~= a);
        assert(s.skip(a.len() as int).skip(1) =~= b);
        assert(s.skip(a.len() as int)[0] == '\n');
        law_lines_ascend(s, 1);
    }
}

} // verus!
