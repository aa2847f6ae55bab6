//! Laws on how the text of a configuration is cut into tokens.

use super::text::{is_blank, law_space_is_blank};
use crate::config::lexer::{Quoted, quoted, tokens_of, TokenV, TokKindV, word_len};
use crate::text::lemma_position;
use vstd::prelude::*;
use vstd::string::*;

verus! {

/// Tokens behind a first one.
pub open spec fn behind(first: TokenV, rest: Result<Seq<TokenV>, Seq<char>>) -> Result<
    Seq<TokenV>,
    Seq<char>,
> {
    match rest {
        Ok(ts) => Ok(seq![first] + ts),
        Err(e) => Err(e),
    }
}

/// A character that no unquoted word has.
pub open spec fn parts_words(c: char) -> bool {
    is_blank(c) || c == '{' || c == '}' || c == ';' || c == '#'
}

proof fn lemma_word(s: Seq<char>, n: int)
    requires
        0 <= n <= s.len(),
        forall|k: int| 0 <= k < n ==> !parts_words(#[trigger] s[k]),
        n == s.len() || parts_words(s[n]),
    ensures
        word_len(s) == n,
    decreases n,
{
    if s.len() > 0 {
        law_space_is_blank(s[0]);
    }
    if n > 0 {
        assert(!parts_words(s[0]));
        assert forall|k: int| 0 <= k < n - 1 implies !parts_words(#[trigger] s.skip(1)[k]) by {
            assert(s.skip(1)[k] == s[k + 1]);
        }
        if n < s.len() {
            assert(s.skip(1)[n - 1] == s[n]);
        }
        lemma_word(s.skip(1), n - 1);
    }
}

/// Blanks between tokens count for nothing, but for the lines that they end. A comment
/// reaches to the end of its line. Braces and semicolons are tokens of their own.
pub proof fn law_between_words(c: char, t: Seq<char>, s: Seq<char>, line: usize)
    ensures
        tokens_of(seq![], line) == Ok::<Seq<TokenV>, Seq<char>>(seq![]),
        c == '\n' ==> tokens_of(seq![c] + s, line) == tokens_of(s, line.wrapping_add(1)),
        is_blank(c) && c != '\n' ==> tokens_of(seq![c] + s, line) == tokens_of(s, line),
        !t.contains('\n') ==> tokens_of(seq!['#'] + t + seq!['\n'] + s, line) == tokens_of(
            s,
            line.wrapping_add(1),
        ),
        !t.contains('\n') ==> tokens_of(seq!['#'] + t, line) == Ok::<Seq<TokenV>, Seq<char>>(seq![]),
        tokens_of(seq!['{'] + s, line) == behind(
            TokenV { kind: TokKindV::OpenBrace, line },
            tokens_of(s, line),
        ),
        tokens_of(seq!['}'] + s, line) == behind(
            TokenV { kind: TokKindV::CloseBrace, line },
            tokens_of(s, line),
        ),
        tokens_of(seq![';'] + s, line) == behind(
            TokenV { kind: TokKindV::Semicolon, line },
            tokens_of(s, line),
        ),
{
    law_space_is_blank(c);
    law_space_is_blank('#');
    law_space_is_blank('{');
    law_space_is_blank('}');
    law_space_is_blank(';');
    assert((seq![c] + s).skip(1) =~= s);
    assert((seq!['{'] + s).skip(1) =~= s);
    assert((seq!['}'] + s).skip(1) =~= s);
    assert((seq![';'] + s).skip(1) =~= s);
    if !t.contains('\n') {
        let a = seq!['#'] + t + seq!['\n'] + s;
        let n = (t.len() + 1) as int;
        assert forall|k: int| 0 <= k < n implies a[k] != '\n' by {
            if k > 0 {
                assert(a[k] == t[k - 1]);
            }
        }
        assert(a[n] == '\n');
        lemma_position(a, '\n', n);
        let r = a.skip(n);
        assert(r =~= seq!['\n'] + s);
        assert(r.skip(1) =~= s);
        assert(r[0] == '\n');
        assert(a[0] == '#');
        assert(tokens_of(a, line) == tokens_of(r, line));
        assert(tokens_of(r, line) == tokens_of(r.skip(1), line.wrapping_add(1)));
        let b = seq!['#'] + t;
        assert forall|k: int| 0 <= k < b.len() implies b[k] != '\n' by {
            if k > 0 {
                assert(b[k] == t[k - 1]);
            }
        }
        lemma_position(b, '\n', b.len() as int);
        assert(b.skip(b.len() as int) =~= seq![]);
    }
}

/// A word reaches to the next blank, brace, semicolon or comment, and is the text that
/// is written.
pub proof fn law_words(w: Seq<char>, s: Seq<char>, line: usize)
    requires
        w.len() > 0,
        w[0] != '"' && w[0] != '\'',
        forall|k: int| 0 <= k < w.len() ==> !parts_words(#[trigger] w[k]),
        s.len() == 0 || parts_words(s[0]),
    ensures
        tokens_of(w + s, line) == behind(
            TokenV { kind: TokKindV::Word(w), line },
            tokens_of(s, line),
        ),
{
    let a = w + s;
    let n = w.len() as int;
    assert(a[0] == w[0]);
    assert(!parts_words(w[0]));
    law_space_is_blank(w[0]);
    assert forall|k: int| 0 <= k < n implies !parts_words(#[trigger] a[k]) by {
        assert(a[k] == w[k]);
    }
    if s.len() > 0 {
        assert(a[n] == s[0]);
    }
    lemma_word(a, n);
    assert(a.take(n) =~= w);
    assert(a.skip(n) =~= s);
}

/// Inside quotes a backslash and a character stand for one character: `n`, `t` and `r`
/// for a line feed, a tab and a carriage return, and any other for itself. Any other
/// character stands for itself, and the quote ends the text.
pub proof fn law_inside_quotes(c: char, s: Seq<char>, quote: char, line: usize)
    requires
        quote == '"' || quote == '\'',
    ensures
        quoted(seq![], quote, line) is None,
        quoted(seq![quote] + s, quote, line) == Some(Quoted { text: seq![], used: 1, line }),
        c != quote && c != '\\' ==> {
            let rest = quoted(
                s,
                quote,
                if c == '\n' {
                    line.wrapping_add(1)
                } else {
                    line
                },
            );
            match quoted(seq![c] + s, quote, line) {
                Some(q) => rest is Some && q.text == seq![c] + rest->0.text && q.used
                    == rest->0.used + 1 && q.line == rest->0.line,
                None => rest is None,
            }
        },
        ({
            let rest = quoted(
                s,
                quote,
                if c == '\n' {
                    line.wrapping_add(1)
                } else {
                    line
                },
            );
            let meant = if c == 'n' {
                '\n'
            } else if c == 't' {
                '\t'
            } else if c == 'r' {
                '\r'
            } else {
                c
            };
            match quoted(seq!['\\', c] + s, quote, line) {
                Some(q) => rest is Some && q.text == seq![meant] + rest->0.text && q.used
                    == rest->0.used + 2 && q.line == rest->0.line,
                None => rest is None,
            }
        }),
        quoted(seq!['\\'], quote, line) is None,
{
    assert((seq![c] + s).skip(1) =~= s);
    assert((seq!['\\', c] + s).skip(2) =~= s);
}

/// A quoted text is one word; without its closing quote it is refused.
pub proof fn law_quoted_words(s: Seq<char>, quote: char, line: usize)
    requires
        quote == '"' || quote == '\'',
    ensures
        match quoted(s, quote, line) {
            Some(q) => tokens_of(seq![quote] + s, line) == behind(
                TokenV { kind: TokKindV::Word(q.text), line },
                tokens_of(s.skip(q.used), q.line),
            ),
            None => tokens_of(seq![quote] + s, line) is Err,
        },
{
    let a = seq![quote] + s;
    law_space_is_blank(quote);
    assert(a.skip(1) =~= s);
    if let Some(q) = quoted(s, quote, line) {
        crate::config::lexer::lemma_quoted_used(s, quote, line);
        assert(a.skip(1 + q.used) =~= s.skip(q.used));
    }
}

} // verus!
