//! Expansion of `include` directives, and loading of whole configurations.
//!
//! Files are found and read by the caller. Expansion works on what has been
//! read so far, and names the next file that it needs.

use super::ast::{Config, ConfigV};
use super::context::{build, config_of};
use super::lexer::{lex, tokens_of};
use super::lowering::{fail1, fail3, msg1, msg3};
use super::parser::{
    Directive, directive_view, directive_views, directives_of, DirectiveV, lemma_view_block, parse,
};
use crate::text::{lemma_views_push, same, views};
use vstd::prelude::*;
use vstd::string::*;

verus! {

/// What came of looking for the file that an `include` names.
#[derive(Debug)]
pub enum Found {
    /// The path could not be resolved.
    Missing { error: String },
    /// The resolved path, the directory that it lies in, and the text or why
    /// it could not be read.
    File { path: String, parent: String, text: Result<String, String> },
}

/// Model of a [`Found`].
pub enum FoundV {
    Missing { error: Seq<char> },
    File { path: Seq<char>, parent: Seq<char>, text: Result<Seq<char>, Seq<char>> },
}

impl View for Found {
    type V = FoundV;

    open spec fn view(&self) -> FoundV {
        match self {
            Found::Missing { error } => FoundV::Missing { error: error@ },
            Found::File { path, parent, text } => FoundV::File {
                path: path@,
                parent: parent@,
                text: crate::text::result_view(*text),
            },
        }
    }
}

/// A file as an `include` names it from a directory, and what came of it.
#[derive(Debug)]
pub struct Source {
    pub base: String,
    pub raw: String,
    pub found: Found,
}

/// Model of a [`Source`].
pub struct SourceV {
    pub base: Seq<char>,
    pub raw: Seq<char>,
    pub found: FoundV,
}

impl View for Source {
    type V = SourceV;

    open spec fn view(&self) -> SourceV {
        SourceV { base: self.base@, raw: self.raw@, found: self.found@ }
    }
}

/// How far something that reads files has come.
#[derive(Debug)]
pub enum Progress<T> {
    Done(T),
    /// The file `raw`, as named from the directory `base`, is needed.
    Need { base: String, raw: String },
    Failed(String),
}

/// Model of a [`Progress`].
pub enum ProgressV<T> {
    Done(T),
    Need { base: Seq<char>, raw: Seq<char> },
    Failed(Seq<char>),
}

/// What is known of the file `raw` as named from `base`.
pub open spec fn source_for(sources: Seq<SourceV>, base: Seq<char>, raw: Seq<char>) -> Option<FoundV>
    decreases sources.len(),
{
    if sources.len() == 0 {
        None
    } else if sources.last().base == base && sources.last().raw == raw {
        Some(sources.last().found)
    } else {
        source_for(sources.drop_last(), base, raw)
    }
}

/// How many of the files are not being expanded.
pub open spec fn unvisited(sources: Seq<SourceV>, visited: Seq<Seq<char>>) -> nat
    decreases sources.len(),
{
    if sources.len() == 0 {
        0
    } else {
        unvisited(sources.drop_last(), visited) + (match sources.last().found {
            FoundV::File { path, .. } => if visited.contains(path) {
                0nat
            } else {
                1nat
            },
            FoundV::Missing { .. } => 0nat,
        })
    }
}

proof fn lemma_unvisited_le(sources: Seq<SourceV>, visited: Seq<Seq<char>>, path: Seq<char>)
    ensures
        unvisited(sources, visited.push(path)) <= unvisited(sources, visited),
    decreases sources.len(),
{
    if sources.len() > 0 {
        lemma_unvisited_le(sources.drop_last(), visited, path);
        if let FoundV::File { path: p, .. } = sources.last().found {
            if visited.contains(p) {
                let i = choose|i: int| 0 <= i < visited.len() && visited[i] == p;
                assert(visited.push(path)[i] == p);
            }
        }
    }
}

proof fn lemma_unvisited(
    sources: Seq<SourceV>,
    visited: Seq<Seq<char>>,
    base: Seq<char>,
    raw: Seq<char>,
)
    ensures
        match source_for(sources, base, raw) {
            Some(FoundV::File { path, .. }) => visited.contains(path) || unvisited(
                sources,
                visited.push(path),
            ) < unvisited(sources, visited),
            _ => true,
        },
    decreases sources.len(),
{
    if sources.len() > 0 {
        if let Some(FoundV::File { path, .. }) = source_for(sources, base, raw) {
            let v = visited.push(path);
            assert(v[visited.len() as int] == path);
            lemma_unvisited_le(sources.drop_last(), visited, path);
            lemma_unvisited(sources.drop_last(), visited, base, raw);
            if let FoundV::File { path: p, .. } = sources.last().found {
                if visited.contains(p) {
                    let i = choose|i: int| 0 <= i < visited.len() && visited[i] == p;
                    assert(v[i] == p);
                }
            }
        }
    }
}

/// The directives that a text holds.
pub open spec fn directives_in(text: Seq<char>) -> Result<Seq<DirectiveV>, Seq<char>> {
    match tokens_of(text, 1) {
        Err(e) => Err(e),
        Ok(ts) => directives_of(ts),
    }
}

fn read_directives(text: &str) -> (r: Result<Vec<Directive>, String>)
    ensures
        match r {
            Ok(ds) => directives_in(text@) == Ok::<Seq<DirectiveV>, Seq<char>>(
                directive_views(ds@),
            ),
            Err(e) => directives_in(text@) == Err::<Seq<DirectiveV>, Seq<char>>(e@),
        },
{
    match lex(text) {
        Ok(tokens) => parse(tokens.as_slice()),
        Err(e) => Err(e),
    }
}

/// The directives from position `i` on with every `include` replaced by what
/// the file holds, itself expanded. `visited` holds the files being expanded,
/// outermost first; to meet one of them again is a cycle.
pub open spec fn expanded_from(
    ds: Seq<DirectiveV>,
    i: int,
    base: Seq<char>,
    visited: Seq<Seq<char>>,
    sources: Seq<SourceV>,
) -> ProgressV<Seq<DirectiveV>>
    decreases unvisited(sources, visited), ds, ds.len() - i,
    via expanded_decreases
{
    if i < 0 || i >= ds.len() {
        ProgressV::Done(seq![])
    } else {
        let d = ds[i];
        let here = if d.name == "include"@ {
            if d.args.len() == 0 {
                ProgressV::Failed(msg1(d.line, "'include' requires a path"@))
            } else {
                match source_for(sources, base, d.args[0]) {
                    None => ProgressV::Need { base, raw: d.args[0] },
                    Some(FoundV::Missing { error }) => ProgressV::Failed(
                        include_error(d.line, d.args[0], error),
                    ),
                    Some(FoundV::File { path, parent, text }) => if visited.contains(path) {
                        ProgressV::Failed(msg3(d.line, "include cycle on '"@, path, "'"@))
                    } else {
                        match text {
                            Err(error) => ProgressV::Failed(include_error(d.line, path, error)),
                            Ok(t) => match directives_in(t) {
                                Err(e) => ProgressV::Failed(e),
                                Ok(sub) => expanded_from(
                                    sub,
                                    0,
                                    parent,
                                    visited.push(path),
                                    sources,
                                ),
                            },
                        }
                    },
                }
            }
        } else {
            match d.block {
                None => ProgressV::Done(seq![d]),
                Some(b) => match expanded_from(b, 0, base, visited, sources) {
                    ProgressV::Done(b2) => ProgressV::Done(
                        seq![DirectiveV { block: Some(b2), ..d }],
                    ),
                    ProgressV::Need { base, raw } => ProgressV::Need { base, raw },
                    ProgressV::Failed(e) => ProgressV::Failed(e),
                },
            }
        };
        match here {
            ProgressV::Done(first) => match expanded_from(ds, i + 1, base, visited, sources) {
                ProgressV::Done(rest) => ProgressV::Done(first + rest),
                ProgressV::Need { base, raw } => ProgressV::Need { base, raw },
                ProgressV::Failed(e) => ProgressV::Failed(e),
            },
            ProgressV::Need { base, raw } => ProgressV::Need { base, raw },
            ProgressV::Failed(e) => ProgressV::Failed(e),
        }
    }
}

#[via_fn]
proof fn expanded_decreases(
    ds: Seq<DirectiveV>,
    i: int,
    base: Seq<char>,
    visited: Seq<Seq<char>>,
    sources: Seq<SourceV>,
) {
    if 0 <= i < ds.len() && ds[i].args.len() > 0 {
        lemma_unvisited(sources, visited, base, ds[i].args[0]);
    }
}

/// `line N: include '<path>': <error>`.
pub open spec fn include_error(line: usize, path: Seq<char>, error: Seq<char>) -> Seq<char> {
    msg3(line, "include '"@, path, "': "@) + error
}

fn include_failure(line: usize, path: &str, error: &str) -> (e: String)
    ensures
        e@ == include_error(line, path@, error@),
{
    let mut e = fail3(line, "include '", path, "': ");
    e.append(error);
    e
}

fn find_source<'a>(sources: &'a Vec<Source>, base: &str, raw: &str) -> (r: Option<&'a Found>)
    ensures
        source_for(views(sources@), base@, raw@) == (match r {
            Some(f) => Some(f@),
            None => None,
        }),
{
    let ghost all = views(sources@);
    let mut n: usize = sources.len();
    assert(all.take(n as int) == all);
    while n > 0
        invariant
            n <= sources@.len(),
            all == views(sources@),
            source_for(all.take(n as int), base@, raw@) == source_for(all, base@, raw@),
        decreases n,
    {
        let ghost now = all.take(n as int);
        assert(now.last() == sources@[n - 1]@);
        assert(now.drop_last() == all.take(n - 1));
        if same(sources[n - 1].base.as_str(), base) && same(sources[n - 1].raw.as_str(), raw) {
            return Some(&sources[n - 1].found);
        }
        n = n - 1;
    }
    None
}

fn is_visited(visited: &Vec<String>, path: &str) -> (r: bool)
    ensures
        r == views(visited@).contains(path@),
{
    let mut i: usize = 0;
    while i < visited.len()
        invariant
            i <= visited@.len(),
            forall|k: int| 0 <= k < i ==> #[trigger] views(visited@)[k] != path@,
        decreases visited@.len() - i,
    {
        assert(views(visited@)[i as int] == visited@[i as int]@);
        if same(visited[i].as_str(), path) {
            return true;
        }
        i = i + 1;
    }
    false
}

/// The model of how far expansion has come.
pub open spec fn progress_view(p: Progress<Vec<Directive>>) -> ProgressV<Seq<DirectiveV>> {
    match p {
        Progress::Done(ds) => ProgressV::Done(directive_views(ds@)),
        Progress::Need { base, raw } => ProgressV::Need { base: base@, raw: raw@ },
        Progress::Failed(e) => ProgressV::Failed(e@),
    }
}

/// What expansion yields when `first` comes before it.
pub open spec fn progress_after(first: Seq<DirectiveV>, p: ProgressV<Seq<DirectiveV>>) -> ProgressV<
    Seq<DirectiveV>,
> {
    match p {
        ProgressV::Done(rest) => ProgressV::Done(first + rest),
        ProgressV::Need { base, raw } => ProgressV::Need { base, raw },
        ProgressV::Failed(e) => ProgressV::Failed(e),
    }
}

/// Expand every `include` in a list of directives.
pub fn expand_includes(
    ds: Vec<Directive>,
    base: &str,
    visited: &mut Vec<String>,
    sources: &Vec<Source>,
) -> (r: Progress<Vec<Directive>>)
    ensures
        progress_view(r) == expanded_from(
            directive_views(ds@),
            0,
            base@,
            views(old(visited)@),
            views(sources@),
        ),
        r is Done ==> final(visited)@ == old(visited)@,
    decreases unvisited(views(sources@), views(old(visited)@)), ds,
{
    let ghost all = directive_views(ds@);
    let ghost seen = views(visited@);
    let ghost known = views(sources@);
    let ghost mut i: int = 0;
    let mut rest = ds;
    let mut out: Vec<Directive> = Vec::new();
    proof {
        let whole = expanded_from(all, 0, base@, seen, known);
        assert(directive_views(out@) =~= seq![]);
        if let ProgressV::Done(w) = whole {
            assert(directive_views(out@) + w =~= w);
        }
        assert(rest@ =~= ds@.skip(0));
    }
    while rest.len() > 0
        invariant
            0 <= i <= all.len(),
            all == directive_views(ds@),
            rest@ == ds@.skip(i),
            visited@ == old(visited)@,
            seen == views(old(visited)@),
            known == views(sources@),
            progress_after(directive_views(out@), expanded_from(all, i, base@, seen, known))
                == expanded_from(all, 0, base@, seen, known),
        decreases rest@.len(),
    {
        let ghost tail = expanded_from(all, i + 1, base@, seen, known);
        let ghost before = directive_views(out@);
        let d = rest.remove(0);
        assert(d == ds@[i]);
        assert(all[i] == directive_view(d));
        assert(rest@ =~= ds@.skip(i + 1));
        if same(d.name.as_str(), "include") {
            if d.args.len() == 0 {
                return Progress::Failed(fail1(d.line, "'include' requires a path"));
            }
            let raw = d.args[0].as_str();
            assert(directive_view(d).args[0] == raw@);
            match find_source(sources, base, raw) {
                None => {
                    return Progress::Need { base: base.to_owned(), raw: raw.to_owned() };
                },
                Some(Found::Missing { error }) => {
                    return Progress::Failed(include_failure(d.line, raw, error.as_str()));
                },
                Some(Found::File { path, parent, text }) => {
                    if is_visited(visited, path.as_str()) {
                        return Progress::Failed(
                            fail3(d.line, "include cycle on '", path.as_str(), "'"),
                        );
                    }
                    let t = match text {
                        Ok(t) => t,
                        Err(error) => {
                            return Progress::Failed(
                                include_failure(d.line, path.as_str(), error.as_str()),
                            );
                        },
                    };
                    let sub = match read_directives(t.as_str()) {
                        Ok(s) => s,
                        Err(e) => {
                            return Progress::Failed(e);
                        },
                    };
                    proof {
                        lemma_unvisited(known, seen, base@, raw@);
                    }
                    let name = path.clone();
                    proof {
                        lemma_views_push(visited@, name);
                    }
                    visited.push(name);
                    match expand_includes(sub, parent.as_str(), visited, sources) {
                        Progress::Done(mut more) => {
                            visited.pop();
                            assert(visited@ =~= old(visited)@);
                            let ghost added = directive_views(more@);
                            out.append(&mut more);
                            proof {
                                assert(directive_views(out@) =~= before + added);
                                lemma_progress(before, added, tail);
                            }
                        },
                        Progress::Need { base: b, raw: r } => {
                            return Progress::Need { base: b, raw: r };
                        },
                        Progress::Failed(e) => {
                            return Progress::Failed(e);
                        },
                    }
                },
            }
        } else {
            let d2 = match expand_block(d, base, visited, sources) {
                Progress::Done(d2) => d2,
                Progress::Need { base: b, raw: r } => {
                    return Progress::Need { base: b, raw: r };
                },
                Progress::Failed(e) => {
                    return Progress::Failed(e);
                },
            };
            out.push(d2);
            proof {
                let added = seq![directive_view(d2)];
                assert(directive_views(out@) =~= before + added);
                lemma_progress(before, added, tail);
            }
        }
        proof {
            i = i + 1;
        }
    }
    proof {
        let e = Seq::<DirectiveV>::empty();
        assert(directive_views(out@) + e =~= directive_views(out@));
    }
    Progress::Done(out)
}

proof fn lemma_progress(before: Seq<DirectiveV>, added: Seq<DirectiveV>, tail: ProgressV<Seq<DirectiveV>>)
    ensures
        progress_after(before + added, tail) == progress_after(before, progress_after(added, tail)),
{
    if let ProgressV::Done(t) = tail {
        assert(before + added + t =~= before + (added + t));
    }
}

/// The directive with its block expanded.
pub open spec fn block_expanded(
    d: DirectiveV,
    base: Seq<char>,
    visited: Seq<Seq<char>>,
    sources: Seq<SourceV>,
) -> ProgressV<DirectiveV> {
    match d.block {
        None => ProgressV::Done(d),
        Some(b) => match expanded_from(b, 0, base, visited, sources) {
            ProgressV::Done(b2) => ProgressV::Done(DirectiveV { block: Some(b2), ..d }),
            ProgressV::Need { base, raw } => ProgressV::Need { base, raw },
            ProgressV::Failed(e) => ProgressV::Failed(e),
        },
    }
}

fn expand_block(d: Directive, base: &str, visited: &mut Vec<String>, sources: &Vec<Source>) -> (r:
    Progress<Directive>)
    ensures
        (match r {
            Progress::Done(d2) => ProgressV::Done(directive_view(d2)),
            Progress::Need { base, raw } => ProgressV::Need { base: base@, raw: raw@ },
            Progress::Failed(e) => ProgressV::Failed(e@),
        }) == block_expanded(directive_view(d), base@, views(old(visited)@), views(sources@)),
        r is Done ==> final(visited)@ == old(visited)@,
    decreases unvisited(views(sources@), views(old(visited)@)), d,
{
    let ghost whole = d;
    let Directive { name, args, block, line } = d;
    match block {
        None => {
            let r = Directive { name, args, block: None, line };
            Progress::Done(r)
        },
        Some(b) => {
            proof {
                lemma_view_block(whole);
            }
            match expand_includes(b, base, visited, sources) {
                Progress::Done(b2) => {
                    let r = Directive { name, args, block: Some(b2), line };
                    proof {
                        lemma_view_block(r);
                    }
                    Progress::Done(r)
                },
                Progress::Need { base, raw } => Progress::Need { base, raw },
                Progress::Failed(e) => Progress::Failed(e),
            }
        },
    }
}

/// The configuration in a file with every `include` expanded.
pub open spec fn loaded_config(
    text: Seq<char>,
    path: Seq<char>,
    parent: Seq<char>,
    sources: Seq<SourceV>,
) -> ProgressV<ConfigV> {
    match directives_in(text) {
        Err(e) => ProgressV::Failed(e),
        Ok(ds) => match expanded_from(ds, 0, parent, seq![path], sources) {
            ProgressV::Need { base, raw } => ProgressV::Need { base, raw },
            ProgressV::Failed(e) => ProgressV::Failed(e),
            ProgressV::Done(all) => match config_of(all) {
                Ok(c) => ProgressV::Done(c),
                Err(e) => ProgressV::Failed(e),
            },
        },
    }
}

/// Parse the configuration file at `path`, which lies in the directory
/// `parent`. `include` directives are expanded relative to the file's
/// directory; cycles are reported as errors. Where a file is needed that is not
/// among `sources`, it is named; once it has been looked for, the call is made
/// again.
pub fn load(text: &str, path: &str, parent: &str, sources: &Vec<Source>) -> (r: Progress<Config>)
    ensures
        (match r {
            Progress::Done(c) => ProgressV::Done(c@),
            Progress::Need { base, raw } => ProgressV::Need { base: base@, raw: raw@ },
            Progress::Failed(e) => ProgressV::Failed(e@),
        }) == loaded_config(text@, path@, parent@, views(sources@)),
{
    let ds = match read_directives(text) {
        Ok(d) => d,
        Err(e) => {
            return Progress::Failed(e);
        },
    };
    let mut visited: Vec<String> = Vec::new();
    visited.push(path.to_owned());
    assert(views(visited@) =~= seq![path@]);
    match expand_includes(ds, parent, &mut visited, sources) {
        Progress::Need { base, raw } => Progress::Need { base, raw },
        Progress::Failed(e) => Progress::Failed(e),
        Progress::Done(all) => match build(&all) {
            Ok(c) => Progress::Done(c),
            Err(e) => Progress::Failed(e),
        },
    }
}

// ---------------------------------------------------------------------------
// Laws
// ---------------------------------------------------------------------------

/// Whether no `include` is left from position `i` on, at any depth.
pub open spec fn all_expanded(ds: Seq<DirectiveV>, i: int) -> bool
    decreases ds, ds.len() - i,
{
    if i < 0 || i >= ds.len() {
        true
    } else {
        &&& ds[i].name != "include"@
        &&& match ds[i].block {
            Some(b) => all_expanded(b, 0),
            None => true,
        }
        &&& all_expanded(ds, i + 1)
    }
}

proof fn lemma_all_expanded_add(a: Seq<DirectiveV>, b: Seq<DirectiveV>, i: int)
    requires
        0 <= i <= a.len(),
        all_expanded(a, i),
        all_expanded(b, 0),
    ensures
        all_expanded(a + b, i),
    decreases a.len() - i,
{
    if i < a.len() {
        lemma_all_expanded_add(a, b, i + 1);
        assert((a + b)[i] == a[i]);
    } else {
        lemma_all_expanded_shift(a, b, 0);
    }
}

proof fn lemma_all_expanded_shift(a: Seq<DirectiveV>, b: Seq<DirectiveV>, j: int)
    requires
        0 <= j <= b.len(),
        all_expanded(b, j),
    ensures
        all_expanded(a + b, a.len() + j),
    decreases b.len() - j,
{
    if j < b.len() {
        lemma_all_expanded_shift(a, b, j + 1);
        assert((a + b)[a.len() + j] == b[j]);
    }
}

/// When expansion is done no `include` is left, at any depth.
pub proof fn law_nothing_left_to_expand(
    ds: Seq<DirectiveV>,
    i: int,
    base: Seq<char>,
    visited: Seq<Seq<char>>,
    sources: Seq<SourceV>,
)
    ensures
        expanded_from(ds, i, base, visited, sources) matches ProgressV::Done(out) ==> all_expanded(
            out,
            0,
        ),
    decreases unvisited(sources, visited), ds, ds.len() - i,
{
    if 0 <= i < ds.len() {
        if let ProgressV::Done(out) = expanded_from(ds, i, base, visited, sources) {
            let d = ds[i];
            law_nothing_left_to_expand(ds, i + 1, base, visited, sources);
            let rest = expanded_from(ds, i + 1, base, visited, sources)->Done_0;
            if d.name == "include"@ {
                lemma_unvisited(sources, visited, base, d.args[0]);
                if let Some(FoundV::File { path, parent, text }) = source_for(
                    sources,
                    base,
                    d.args[0],
                ) {
                    let sub = directives_in(text->Ok_0)->Ok_0;
                    law_nothing_left_to_expand(sub, 0, parent, visited.push(path), sources);
                    let first = expanded_from(sub, 0, parent, visited.push(path), sources)->Done_0;
                    lemma_all_expanded_add(first, rest, 0);
                }
            } else {
                let first = match d.block {
                    None => seq![d],
                    Some(b) => {
                        law_nothing_left_to_expand(b, 0, base, visited, sources);
                        seq![
                            DirectiveV {
                                block: Some(
                                    expanded_from(b, 0, base, visited, sources)->Done_0,
                                ),
                                ..d
                            },
                        ]
                    },
                };
                assert(all_expanded(first, 1));
                assert(all_expanded(first, 0));
                lemma_all_expanded_add(first, rest, 0);
            }
        }
    }
}

/// A file that leads back to itself is refused, whatever it holds.
pub proof fn law_cycle_is_refused(
    ds: Seq<DirectiveV>,
    i: int,
    base: Seq<char>,
    visited: Seq<Seq<char>>,
    sources: Seq<SourceV>,
    path: Seq<char>,
    parent: Seq<char>,
    text: Result<Seq<char>, Seq<char>>,
)
    requires
        0 <= i < ds.len(),
        ds[i].name == "include"@,
        ds[i].args.len() > 0,
        source_for(sources, base, ds[i].args[0]) == Some(FoundV::File { path, parent, text }),
        visited.contains(path),
    ensures
        expanded_from(ds, i, base, visited, sources) == ProgressV::<Seq<DirectiveV>>::Failed(
            msg3(ds[i].line, "include cycle on '"@, path, "'"@),
        ),
{
}

} // verus!
