//! Recursive-descent parser turning a token stream into a generic directive
//! tree. Directive *meaning* is resolved later in [`crate::config::lowering`].

use super::lexer::{at_line, line_prefix, Token, token_views, TokenV, TokKind, TokKindV};
use crate::text::views;
use vstd::prelude::*;
use vstd::string::*;

verus! {

/// One configuration directive: a name, its arguments, and an optional block.
#[derive(Debug)]
pub struct Directive {
    pub name: String,
    pub args: Vec<String>,
    pub block: Option<Vec<Directive>>,
    pub line: usize,
}

/// Model of a [`Directive`].
pub struct DirectiveV {
    pub name: Seq<char>,
    pub args: Seq<Seq<char>>,
    pub block: Option<Seq<DirectiveV>>,
    pub line: usize,
}

/// The model of one directive.
pub open spec fn directive_view(d: Directive) -> DirectiveV
    decreases d,
{
    DirectiveV {
        name: d.name@,
        args: views(d.args@),
        block: match d.block {
            Some(b) => Some(
                Seq::new(
                    b@.len(),
                    |i: int|
                        if 0 <= i < b@.len() {
                            directive_view(b@[i])
                        } else {
                            arbitrary()
                        },
                ),
            ),
            None => None,
        },
        line: d.line,
    }
}

/// The models of a list of directives.
pub open spec fn directive_views(ds: Seq<Directive>) -> Seq<DirectiveV> {
    Seq::new(ds.len(), |i: int| directive_view(ds[i]))
}

/// The model of a directive with a block.
pub proof fn lemma_view_block(d: Directive)
    requires
        d.block is Some,
    ensures
        directive_view(d).block == Some(directive_views(d.block->0@)),
{
    assert(directive_view(d).block->0 =~= directive_views(d.block->0@));
}

pub type Parsed = Result<(Seq<DirectiveV>, Seq<TokenV>), Seq<char>>;

/// Number of words that `ts` starts with.
pub open spec fn leading_words(ts: Seq<TokenV>) -> nat
    decreases ts.len(),
{
    if ts.len() > 0 && ts[0].kind is Word {
        1 + leading_words(ts.skip(1))
    } else {
        0
    }
}

/// The texts of the first `n` tokens, all of them words.
pub open spec fn words(ts: Seq<TokenV>, n: nat) -> Seq<Seq<char>> {
    Seq::new(n, |i: int| ts[i].kind->Word_0)
}

/// `first` in front of a parse result.
pub open spec fn parsed_after(first: Seq<DirectiveV>, rest: Parsed) -> Parsed {
    match rest {
        Ok((ds, ts)) => Ok((first + ds, ts)),
        Err(e) => Err(e),
    }
}

/// The directives that `ts` starts with and the tokens behind them: up to the
/// end (`nested == false`) or past the matching `}` (`nested == true`).
pub open spec fn block_of(ts: Seq<TokenV>, nested: bool) -> Parsed
    decreases ts.len(),
{
    if ts.len() == 0 {
        if nested {
            Err("unexpected end of file: missing '}'"@)
        } else {
            Ok((seq![], seq![]))
        }
    } else {
        match ts[0].kind {
            TokKindV::CloseBrace => if nested {
                Ok((seq![], ts.skip(1)))
            } else {
                Err(at_line(ts[0].line) + "unexpected '}'"@)
            },
            TokKindV::Semicolon => Err(at_line(ts[0].line) + "unexpected ';'"@),
            TokKindV::OpenBrace => Err(at_line(ts[0].line) + "unexpected '{'"@),
            TokKindV::Word(name) => match directive_of(name, ts[0].line, ts.skip(1)) {
                Err(e) => Err(e),
                // A directive always takes tokens: see `lemma_directive_takes_tokens`.
                Ok((d, rest)) => if rest.len() < ts.len() {
                    parsed_after(seq![d], block_of(rest, nested))
                } else {
                    arbitrary()
                },
            },
        }
    }
}

/// The directive `name` whose arguments start at `ts`, and what follows it.
pub open spec fn directive_of(name: Seq<char>, line: usize, ts: Seq<TokenV>) -> Result<
    (DirectiveV, Seq<TokenV>),
    Seq<char>,
>
    decreases ts.len(),
{
    let n = leading_words(ts);
    if n >= ts.len() {
        Err(at_line(line) + "unexpected end of file in directive '"@ + name + "'"@)
    } else {
        let args = words(ts, n);
        match ts[n as int].kind {
            TokKindV::Semicolon => Ok(
                (DirectiveV { name, args, block: None, line }, ts.skip(n as int + 1)),
            ),
            TokKindV::OpenBrace => match block_of(ts.skip(n as int + 1), true) {
                Ok((ds, rest)) => Ok((DirectiveV { name, args, block: Some(ds), line }, rest)),
                Err(e) => Err(e),
            },
            _ => Err(at_line(ts[n as int].line) + "expected ';' or '{' before '}'"@),
        }
    }
}

/// What follows a directive is shorter than what it was read from.
pub proof fn lemma_directive_takes_tokens(name: Seq<char>, line: usize, ts: Seq<TokenV>)
    ensures
        directive_of(name, line, ts) matches Ok((_, rest)) ==> rest.len() < ts.len(),
    decreases ts.len(),
{
    let n = leading_words(ts);
    if n < ts.len() {
        lemma_block_takes_tokens(ts.skip(n as int + 1), true);
    }
}

/// What follows a block is no longer than what it was read from.
pub proof fn lemma_block_takes_tokens(ts: Seq<TokenV>, nested: bool)
    ensures
        block_of(ts, nested) matches Ok((_, rest)) ==> rest.len() <= ts.len(),
    decreases ts.len(),
{
    if ts.len() > 0 {
        if let TokKindV::Word(name) = ts[0].kind {
            lemma_directive_takes_tokens(name, ts[0].line, ts.skip(1));
            if let Ok((d, rest)) = directive_of(name, ts[0].line, ts.skip(1)) {
                lemma_block_takes_tokens(rest, nested);
            }
        }
    }
}

/// The directives of a whole token stream.
pub open spec fn directives_of(ts: Seq<TokenV>) -> Result<Seq<DirectiveV>, Seq<char>> {
    match block_of(ts, false) {
        Ok((ds, _)) => Ok(ds),
        Err(e) => Err(e),
    }
}

proof fn lemma_leading_words(ts: Seq<TokenV>, n: int)
    requires
        0 <= n <= ts.len(),
        forall|k: int| 0 <= k < n ==> (#[trigger] ts[k]).kind is Word,
        n == ts.len() || !(ts[n].kind is Word),
    ensures
        leading_words(ts) == n,
    decreases n,
{
    if n > 0 {
        assert forall|k: int| 0 <= k < n - 1 implies (#[trigger] ts.skip(1)[k]).kind is Word by {
            assert(ts.skip(1)[k] == ts[k + 1]);
        }
        lemma_leading_words(ts.skip(1), n - 1);
    }
}

/// Parse a full configuration file (the implicit top-level "main" context).
pub fn parse(tokens: &[Token]) -> (r: Result<Vec<Directive>, String>)
    ensures
        match r {
            Ok(ds) => directives_of(token_views(tokens@)) == Ok::<Seq<DirectiveV>, Seq<char>>(
                directive_views(ds@),
            ),
            Err(e) => directives_of(token_views(tokens@)) == Err::<Seq<DirectiveV>, Seq<char>>(e@),
        },
{
    let mut pos: usize = 0;
    assert(token_views(tokens@).skip(0) =~= token_views(tokens@));
    parse_block(tokens, &mut pos, false)
}

/// Parse directives until EOF (`nested == false`) or a matching `}`
/// (`nested == true`).
fn parse_block(tokens: &[Token], pos: &mut usize, nested: bool) -> (r: Result<
    Vec<Directive>,
    String,
>)
    requires
        *old(pos) <= tokens@.len(),
    ensures
        *old(pos) <= *final(pos) <= tokens@.len(),
        match r {
            Ok(ds) => block_of(token_views(tokens@).skip(*old(pos) as int), nested) == Ok::<
                (Seq<DirectiveV>, Seq<TokenV>),
                Seq<char>,
            >((directive_views(ds@), token_views(tokens@).skip(*final(pos) as int))),
            Err(e) => block_of(token_views(tokens@).skip(*old(pos) as int), nested) == Err::<
                (Seq<DirectiveV>, Seq<TokenV>),
                Seq<char>,
            >(e@),
        },
    decreases tokens@.len() - *old(pos),
{
    let ghost all = token_views(tokens@);
    let ghost whole = block_of(all.skip(*pos as int), nested);
    let ghost from = *pos;
    let mut dirs: Vec<Directive> = Vec::new();
    proof {
        if let Ok((ds, _)) = whole {
            assert(directive_views(dirs@) + ds =~= ds);
        }
    }
    while *pos < tokens.len()
        invariant
            from <= *pos <= tokens@.len(),
            all == token_views(tokens@),
            from == *old(pos),
            whole == block_of(all.skip(from as int), nested),
            parsed_after(directive_views(dirs@), block_of(all.skip(*pos as int), nested)) == whole,
        decreases tokens@.len() - *pos,
    {
        let ghost rest = all.skip(*pos as int);
        let ghost start = *pos;
        let ghost before = dirs@;
        assert(rest[0] == tokens@[*pos as int]@);
        let line: usize = tokens[*pos].line;
        let name: String;
        match &tokens[*pos].kind {
            TokKind::CloseBrace => {
                if !nested {
                    let mut e = line_prefix(line);
                    e.append("unexpected '}'");
                    return Err(e);
                }
                *pos = *pos + 1;
                assert(rest.skip(1) == all.skip(*pos as int));
                assert(directive_views(dirs@) + Seq::<DirectiveV>::empty() =~= directive_views(
                    dirs@,
                ));
                return Ok(dirs);
            },
            TokKind::Semicolon => {
                let mut e = line_prefix(line);
                e.append("unexpected ';'");
                return Err(e);
            },
            TokKind::OpenBrace => {
                let mut e = line_prefix(line);
                e.append("unexpected '{'");
                return Err(e);
            },
            TokKind::Word(w) => {
                name = w.clone();
            },
        }
        *pos = *pos + 1;
        let d = match parse_directive(tokens, pos, name, line) {
            Ok(d) => d,
            Err(e) => {
                assert(rest.skip(1) == all.skip(start + 1));
                return Err(e);
            },
        };
        dirs.push(d);
        proof {
            assert(rest.skip(1) == all.skip(start + 1));
            let tail = block_of(all.skip(*pos as int), nested);
            assert(block_of(rest, nested) == parsed_after(seq![directive_view(d)], tail));
            if let Ok((ds, _)) = tail {
                assert(directive_views(before) + (seq![directive_view(d)] + ds)
                    =~= directive_views(dirs@) + ds);
            }
        }
    }
    assert(all.skip(*pos as int) =~= Seq::<TokenV>::empty());
    assert(directive_views(dirs@) + Seq::<DirectiveV>::empty() =~= directive_views(dirs@));
    if nested {
        return Err("unexpected end of file: missing '}'".to_owned());
    }
    Ok(dirs)
}

/// Parse the arguments and the block of the directive `name`.
fn parse_directive(tokens: &[Token], pos: &mut usize, name: String, line: usize) -> (r: Result<
    Directive,
    String,
>)
    requires
        *old(pos) <= tokens@.len(),
    ensures
        *old(pos) <= *final(pos) <= tokens@.len(),
        match r {
            Ok(d) => *old(pos) < *final(pos) && directive_of(
                name@,
                line,
                token_views(tokens@).skip(*old(pos) as int),
            ) == Ok::<(DirectiveV, Seq<TokenV>), Seq<char>>(
                (directive_view(d), token_views(tokens@).skip(*final(pos) as int)),
            ),
            Err(e) => directive_of(name@, line, token_views(tokens@).skip(*old(pos) as int)) == Err::<
                (DirectiveV, Seq<TokenV>),
                Seq<char>,
            >(e@),
        },
    decreases tokens@.len() - *old(pos),
{
    let ghost all = token_views(tokens@);
    let ghost from = *pos;
    let ghost ts = all.skip(from as int);
    let mut args: Vec<String> = Vec::new();
    while *pos < tokens.len()
        invariant
            from == *old(pos),
            from <= *pos <= tokens@.len(),
            all == token_views(tokens@),
            ts == all.skip(from as int),
            args@.len() == *pos - from,
            forall|k: int| 0 <= k < *pos - from ==> (#[trigger] ts[k]).kind == TokKindV::Word(args@[k]@),
        decreases tokens@.len() - *pos,
    {
        let ghost n = *pos - from;
        assert(ts[n] == tokens@[*pos as int]@);
        match &tokens[*pos].kind {
            TokKind::Word(w) => {
                args.push(w.clone());
                *pos = *pos + 1;
            },
            TokKind::Semicolon => {
                *pos = *pos + 1;
                let d = Directive { name, args, block: None, line };
                proof {
                    lemma_leading_words(ts, n);
                    assert(words(ts, n as nat) =~= views(args@));
                    assert(ts.skip(n + 1) == all.skip(*pos as int));
                }
                return Ok(d);
            },
            TokKind::OpenBrace => {
                *pos = *pos + 1;
                let ghost at = *pos;
                proof {
                    lemma_leading_words(ts, n);
                    assert(ts.skip(n + 1) == all.skip(at as int));
                }
                match parse_block(tokens, pos, true) {
                    Err(e) => {
                        return Err(e);
                    },
                    Ok(block) => {
                        let d = Directive { name, args, block: Some(block), line };
                        proof {
                            assert(words(ts, n as nat) =~= views(args@));
                            lemma_view_block(d);
                        }
                        return Ok(d);
                    },
                }
            },
            TokKind::CloseBrace => {
                let mut e = line_prefix(tokens[*pos].line);
                e.append("expected ';' or '{' before '}'");
                proof {
                    lemma_leading_words(ts, n);
                }
                return Err(e);
            },
        }
    }
    proof {
        lemma_leading_words(ts, *pos - from);
    }
    let mut e = line_prefix(line);
    e.append("unexpected end of file in directive '");
    e.append(name.as_str());
    e.append("'");
    Err(e)
}

// ---------------------------------------------------------------------------
// Laws
// ---------------------------------------------------------------------------

/// The kinds of tokens.
pub open spec fn kinds(ts: Seq<TokenV>) -> Seq<TokKindV> {
    ts.map_values(|t: TokenV| t.kind)
}

/// The name of a directive and its arguments as they are written.
pub open spec fn head_of(d: DirectiveV) -> Seq<TokKindV> {
    seq![TokKindV::Word(d.name)] + d.args.map_values(|a: Seq<char>| TokKindV::Word(a))
}

/// A directive as it is written.
pub open spec fn flat(d: DirectiveV) -> Seq<TokKindV>
    decreases d, 0int,
{
    match d.block {
        None => head_of(d) + seq![TokKindV::Semicolon],
        Some(b) => head_of(d) + seq![TokKindV::OpenBrace] + flat_from(b, 0)
            + seq![TokKindV::CloseBrace],
    }
}

/// Directives from `i` on as they are written, one after the other.
pub open spec fn flat_from(ds: Seq<DirectiveV>, i: int) -> Seq<TokKindV>
    decreases ds, ds.len() - i,
{
    if 0 <= i < ds.len() {
        flat(ds[i]) + flat_from(ds, i + 1)
    } else {
        seq![]
    }
}

/// A directive with the lines that its tokens stand on: each directive is on the
/// line of its name.
pub open spec fn relined(d: DirectiveV, ts: Seq<TokenV>) -> DirectiveV
    decreases d, 0int,
{
    DirectiveV {
        line: ts[0].line,
        block: match d.block {
            None => None,
            Some(b) => Some(relined_from(b, 0, ts.subrange(d.args.len() as int + 2, ts.len() - 1))),
        },
        ..d
    }
}

/// Directives from `i` on with the lines that their tokens stand on.
pub open spec fn relined_from(ds: Seq<DirectiveV>, i: int, ts: Seq<TokenV>) -> Seq<DirectiveV>
    decreases ds, ds.len() - i,
{
    if 0 <= i < ds.len() {
        let n = flat(ds[i]).len() as int;
        seq![relined(ds[i], ts.take(n))] + relined_from(ds, i + 1, ts.skip(n))
    } else {
        seq![]
    }
}

proof fn lemma_flat_len(d: DirectiveV)
    ensures
        flat(d).len() >= d.args.len() + 2,
        d.block is None ==> flat(d).len() == d.args.len() + 2,
        d.block matches Some(b) ==> flat(d).len() == d.args.len() + 3 + flat_from(b, 0).len(),
{
}

/// What is read behind a directive.
proof fn lemma_reads(d: DirectiveV, ts: Seq<TokenV>, rest: Seq<TokenV>)
    requires
        kinds(ts) == flat(d),
    ensures
        ts.len() > 0,
        ts[0].kind == TokKindV::Word(d.name),
        directive_of(d.name, ts[0].line, ts.skip(1) + rest) == Ok::<
            (DirectiveV, Seq<TokenV>),
            Seq<char>,
        >((relined(d, ts), rest)),
    decreases d, 0int,
{
    let all = ts.skip(1) + rest;
    let n = d.args.len() as int;
    let k = kinds(ts);
    lemma_flat_len(d);
    assert(ts.len() == flat(d).len());
    assert(k[0] == ts[0].kind);
    assert(head_of(d).len() == n + 1);
    assert forall|i: int| 0 <= i < n implies (#[trigger] all[i]).kind == TokKindV::Word(
        d.args[i],
    ) by {
        assert(all[i] == ts[i + 1]);
        assert(k[i + 1] == ts[i + 1].kind);
        assert(flat(d)[i + 1] == head_of(d)[i + 1]);
    }
    assert(all[n] == ts[n + 1]);
    assert(k[n + 1] == ts[n + 1].kind);
    lemma_leading_words(all, n);
    assert(words(all, n as nat) =~= d.args);
    match d.block {
        None => {
            assert(all.skip(n + 1) =~= rest);
        },
        Some(b) => {
            let inner = ts.subrange(n + 2, ts.len() - 1);
            let close = ts[ts.len() - 1];
            assert(close.kind == k[ts.len() - 1]);
            assert(kinds(inner) =~= flat_from(b, 0)) by {
                assert forall|i: int| 0 <= i < inner.len() implies kinds(inner)[i] == flat_from(
                    b,
                    0,
                )[i] by {
                    assert(kinds(inner)[i] == k[i + n + 2]);
                }
            }
            assert(all.skip(n + 1) =~= inner + (seq![close] + rest));
            lemma_reads_from(b, 0, inner, seq![close] + rest, true);
            assert((seq![close] + rest).skip(1) =~= rest);
        },
    }
}

proof fn lemma_reads_from(
    ds: Seq<DirectiveV>,
    i: int,
    ts: Seq<TokenV>,
    tail: Seq<TokenV>,
    nested: bool,
)
    requires
        0 <= i <= ds.len(),
        kinds(ts) == flat_from(ds, i),
        nested ==> tail.len() > 0 && tail[0].kind == TokKindV::CloseBrace,
        !nested ==> tail.len() == 0,
    ensures
        block_of(ts + tail, nested) == Ok::<(Seq<DirectiveV>, Seq<TokenV>), Seq<char>>(
            (
                relined_from(ds, i, ts),
                if nested {
                    tail.skip(1)
                } else {
                    seq![]
                },
            ),
        ),
    decreases ds, ds.len() - i,
{
    assert(ts.len() == flat_from(ds, i).len());
    if i < ds.len() {
        let n = flat(ds[i]).len() as int;
        let first = ts.take(n);
        let more = ts.skip(n);
        assert(kinds(first) =~= flat(ds[i])) by {
            assert forall|j: int| 0 <= j < n implies kinds(first)[j] == flat(ds[i])[j] by {
                assert(kinds(first)[j] == kinds(ts)[j]);
            }
        }
        assert(kinds(more) =~= flat_from(ds, i + 1)) by {
            assert forall|j: int| 0 <= j < more.len() implies kinds(more)[j] == flat_from(
                ds,
                i + 1,
            )[j] by {
                assert(kinds(more)[j] == kinds(ts)[j + n]);
            }
        }
        let all = ts + tail;
        lemma_reads(ds[i], first, more + tail);
        lemma_reads_from(ds, i + 1, more, tail, nested);
        assert(all[0] == first[0]);
        assert(all.skip(1) =~= first.skip(1) + (more + tail));
        lemma_directive_takes_tokens(ds[i].name, all[0].line, all.skip(1));
    } else {
        assert(ts + tail =~= tail);
    }
}

/// Whatever is written as directives is read as those directives: names,
/// arguments and blocks as they are, each on the line of its name.
pub proof fn law_written_directives_are_read(ds: Seq<DirectiveV>, ts: Seq<TokenV>)
    requires
        kinds(ts) == flat_from(ds, 0),
    ensures
        directives_of(ts) == Ok::<Seq<DirectiveV>, Seq<char>>(relined_from(ds, 0, ts)),
{
    lemma_reads_from(ds, 0, ts, seq![], false);
    assert(ts + Seq::<TokenV>::empty() =~= ts);
}

proof fn lemma_flat_shift(a: Seq<DirectiveV>, i: int, b: Seq<DirectiveV>, j: int, ts: Seq<TokenV>)
    requires
        0 <= i <= a.len(),
        0 <= j <= b.len(),
        a.len() - i == b.len() - j,
        forall|k: int| 0 <= k < a.len() - i ==> #[trigger] a[i + k] == b[j + k],
    ensures
        flat_from(a, i) == flat_from(b, j),
        relined_from(a, i, ts) == relined_from(b, j, ts),
    decreases a.len() - i,
{
    if i < a.len() {
        assert(a[i + 0] == b[j + 0]);
        assert forall|k: int| 0 <= k < a.len() - (i + 1) implies #[trigger] a[i + 1 + k] == b[j + 1
            + k] by {
            assert(a[i + (k + 1)] == b[j + (k + 1)]);
        }
        lemma_flat_shift(a, i + 1, b, j + 1, ts.skip(flat(a[i]).len() as int));
    }
}

/// A directive that was read is the tokens that it was read from.
proof fn lemma_directive_is_written(ts: Seq<TokenV>)
    requires
        ts.len() > 0,
        ts[0].kind is Word,
        directive_of(ts[0].kind->Word_0, ts[0].line, ts.skip(1)) is Ok,
    ensures
        ({
            let (d, rest) = directive_of(ts[0].kind->Word_0, ts[0].line, ts.skip(1))->Ok_0;
            let n = ts.len() - rest.len();
            &&& 0 < n <= ts.len()
            &&& rest == ts.skip(n)
            &&& kinds(ts.take(n)) == flat(d)
            &&& relined(d, ts.take(n)) == d
        }),
    decreases ts.len(), 0int,
{
    let name = ts[0].kind->Word_0;
    let (d, rest) = directive_of(name, ts[0].line, ts.skip(1))->Ok_0;
    let t = ts.skip(1);
    let w = leading_words(t) as int;
    lemma_leading_words_are(t);
    let n = ts.len() - rest.len();
    if d.block is None {
        assert(t.skip(w + 1) =~= ts.skip(w + 2));
        let used = ts.take(w + 2);
        assert forall|i: int| 0 <= i < w + 2 implies kinds(used)[i] == flat(d)[i] by {
            assert(kinds(used)[i] == ts[i].kind);
            if 0 < i <= w {
                assert(ts[i] == t[i - 1]);
                assert(d.args[i - 1] == t[i - 1].kind->Word_0);
            } else if i == w + 1 {
                assert(ts[i] == t[w]);
            }
        }
        assert(kinds(used) =~= flat(d));
    } else {
        let b = d.block->0;
        let inside = t.skip(w + 1);
        assert(inside =~= ts.skip(w + 2));
        lemma_block_is_written(inside, true);
        let m = inside.len() - rest.len() - 1;
        assert(rest =~= ts.skip(n));
        let used = ts.take(n);
        let body = inside.take(m);
        assert(kinds(body) == flat_from(b, 0));
        assert(used.subrange(w + 2, n - 1) =~= body);
        assert forall|i: int| 0 <= i < n implies kinds(used)[i] == flat(d)[i] by {
            assert(kinds(used)[i] == ts[i].kind);
            if 0 < i <= w {
                assert(ts[i] == t[i - 1]);
                assert(d.args[i - 1] == t[i - 1].kind->Word_0);
            } else if i == w + 1 {
                assert(ts[i] == t[w]);
            } else if w + 1 < i < n - 1 {
                assert(kinds(body)[i - w - 2] == body[i - w - 2].kind);
                assert(body[i - w - 2] == ts[i]);
            } else if i == n - 1 {
                assert(inside[m] == ts[i]);
            }
        }
        assert(flat(d).len() == n) by {
            lemma_flat_len(d);
            assert(kinds(body).len() == m);
        }
        assert(kinds(used) =~= flat(d));
    }
}

proof fn lemma_leading_words_are(ts: Seq<TokenV>)
    ensures
        leading_words(ts) <= ts.len(),
        forall|k: int| 0 <= k < leading_words(ts) ==> (#[trigger] ts[k]).kind is Word,
    decreases ts.len(),
{
    if ts.len() > 0 && ts[0].kind is Word {
        lemma_leading_words_are(ts.skip(1));
        assert forall|k: int| 0 <= k < leading_words(ts) implies (#[trigger] ts[k]).kind is Word by {
            if k > 0 {
                assert(ts.skip(1)[k - 1] == ts[k]);
            }
        }
    }
}

/// Directives that were read are the tokens that they were read from.
proof fn lemma_block_is_written(ts: Seq<TokenV>, nested: bool)
    requires
        block_of(ts, nested) is Ok,
    ensures
        ({
            let (ds, rest) = block_of(ts, nested)->Ok_0;
            let m = ts.len() - rest.len() - (if nested {
                1int
            } else {
                0
            });
            &&& 0 <= m <= ts.len()
            &&& nested ==> m < ts.len() && ts[m].kind == TokKindV::CloseBrace && rest == ts.skip(
                m + 1,
            )
            &&& !nested ==> rest.len() == 0
            &&& kinds(ts.take(m)) == flat_from(ds, 0)
            &&& relined_from(ds, 0, ts.take(m)) == ds
        }),
    decreases ts.len(), 1int,
{
    let (ds, rest) = block_of(ts, nested)->Ok_0;
    if ts.len() == 0 || !(ts[0].kind is Word) {
        assert(ds.len() == 0);
        assert(kinds(ts.take(0)) =~= flat_from(ds, 0));
    } else {
        let name = ts[0].kind->Word_0;
        lemma_directive_takes_tokens(name, ts[0].line, ts.skip(1));
        let (d, after) = directive_of(name, ts[0].line, ts.skip(1))->Ok_0;
        lemma_directive_is_written(ts);
        lemma_block_is_written(after, nested);
        let (more, _) = block_of(after, nested)->Ok_0;
        let n = ts.len() - after.len();
        let k = after.len() - rest.len() - (if nested {
            1int
        } else {
            0
        });
        let m = n + k;
        let used = ts.take(m);
        assert(ds == seq![d] + more);
        assert(used.take(n) =~= ts.take(n));
        assert(used.skip(n) =~= after.take(k));
        if nested {
            assert(after[k] == ts[m]);
            assert(after.skip(k + 1) =~= ts.skip(m + 1));
        }
        assert(ds[0] == d);
        assert forall|j: int| 0 <= j < ds.len() - 1 implies #[trigger] ds[1 + j] == more[0 + j] by {
        }
        lemma_flat_shift(ds, 1, more, 0, after.take(k));
        assert(kinds(used) =~= kinds(ts.take(n)) + kinds(after.take(k)));
        assert(flat_from(ds, 0) == flat(d) + flat_from(ds, 1));
        assert(flat(d).len() == n) by {
            assert(kinds(ts.take(n)).len() == n);
        }
        assert(relined_from(ds, 0, used) == seq![relined(d, ts.take(n))] + relined_from(
            ds,
            1,
            after.take(k),
        ));
        assert(relined_from(ds, 0, used) =~= ds);
    }
}

/// What is read is all that was written, and nothing else: the directives written
/// one after the other are the tokens again, and each stands on the line of its
/// name.
pub proof fn law_read_directives_are_written(ts: Seq<TokenV>)
    requires
        directives_of(ts) is Ok,
    ensures
        kinds(ts) == flat_from(directives_of(ts)->Ok_0, 0),
        relined_from(directives_of(ts)->Ok_0, 0, ts) == directives_of(ts)->Ok_0,
{
    lemma_block_is_written(ts, false);
    assert(ts.take(ts.len() as int) =~= ts);
}

} // verus!
