//! Laws on `include`.

use crate::config::includes::{
    all_expanded, directives_in, expanded_from, FoundV, loaded_config, ProgressV, source_for,
    SourceV,
};
use crate::config::context::config_of;
use crate::config::parser::DirectiveV;
use vstd::prelude::*;
use vstd::string::*;

verus! {

/// Without `include` nothing changes.
pub proof fn law_nothing_to_include(
    ds: Seq<DirectiveV>,
    i: int,
    base: Seq<char>,
    visited: Seq<Seq<char>>,
    sources: Seq<SourceV>,
)
    requires
        0 <= i <= ds.len(),
        all_expanded(ds, i),
    ensures
        expanded_from(ds, i, base, visited, sources) == ProgressV::Done(ds.skip(i)),
    decreases ds, ds.len() - i,
{
    if i < ds.len() {
        let d = ds[i];
        law_nothing_to_include(ds, i + 1, base, visited, sources);
        if let Some(b) = d.block {
            law_nothing_to_include(b, 0, base, visited, sources);
            assert(b.skip(0) =~= b);
        }
        assert(seq![d] + ds.skip(i + 1) =~= ds.skip(i));
    } else {
        assert(ds.skip(i) =~= seq![]);
    }
}

/// `include` stands for the directives of the file, read where the file is, in front of
/// those behind it. Every other directive stays where it is, and in its block files are
/// read from where it stands.
pub proof fn law_include_is_replaced(
    ds: Seq<DirectiveV>,
    i: int,
    base: Seq<char>,
    visited: Seq<Seq<char>>,
    sources: Seq<SourceV>,
    path: Seq<char>,
    parent: Seq<char>,
    text: Seq<char>,
    sub: Seq<DirectiveV>,
    inner: Seq<DirectiveV>,
    rest: Seq<DirectiveV>,
)
    requires
        0 <= i < ds.len(),
        expanded_from(ds, i + 1, base, visited, sources) == ProgressV::Done(rest),
    ensures
        ds[i].name == "include"@ && ds[i].args.len() > 0 && source_for(
            sources,
            base,
            ds[i].args[0],
        ) == Some(FoundV::File { path, parent, text: Ok(text) }) && !visited.contains(path)
            && directives_in(text) == Ok::<Seq<DirectiveV>, Seq<char>>(sub) && expanded_from(
            sub,
            0,
            parent,
            visited.push(path),
            sources,
        ) == ProgressV::Done(inner) ==> expanded_from(ds, i, base, visited, sources)
            == ProgressV::Done(inner + rest),
        ds[i].name == "include"@ && ds[i].args.len() > 0 && source_for(
            sources,
            base,
            ds[i].args[0],
        ) is None ==> expanded_from(ds, i, base, visited, sources) == (ProgressV::<
            Seq<DirectiveV>,
        >::Need { base, raw: ds[i].args[0] }),
        ds[i].name == "include"@ && ds[i].args.len() == 0 ==> expanded_from(
            ds,
            i,
            base,
            visited,
            sources,
        ) is Failed,
        ds[i].name == "include"@ && ds[i].args.len() > 0 && (source_for(
            sources,
            base,
            ds[i].args[0],
        ) matches Some(FoundV::Missing { .. })) ==> expanded_from(ds, i, base, visited, sources)
            is Failed,
        ds[i].name != "include"@ && ds[i].block is None ==> expanded_from(
            ds,
            i,
            base,
            visited,
            sources,
        ) == ProgressV::Done(seq![ds[i]] + rest),
        ds[i].name != "include"@ && ds[i].block is Some && expanded_from(
            ds[i].block->0,
            0,
            base,
            visited,
            sources,
        ) == ProgressV::Done(inner) ==> expanded_from(ds, i, base, visited, sources)
            == ProgressV::Done(seq![DirectiveV { block: Some(inner), ..ds[i] }] + rest),
{
}

/// A file that was looked up is the one that was found last for the same place and name.
pub proof fn law_found_files(sources: Seq<SourceV>, s: SourceV, base: Seq<char>, raw: Seq<char>)
    ensures
        source_for(seq![], base, raw) is None,
        s.base == base && s.raw == raw ==> source_for(sources.push(s), base, raw) == Some(s.found),
        !(s.base == base && s.raw == raw) ==> source_for(sources.push(s), base, raw) == source_for(
            sources,
            base,
            raw,
        ),
{
    assert(sources.push(s).drop_last() =~= sources);
}

/// A configuration file is read, expanded from where it is, and then understood.
pub proof fn law_file_is_loaded(
    text: Seq<char>,
    path: Seq<char>,
    parent: Seq<char>,
    sources: Seq<SourceV>,
    ds: Seq<DirectiveV>,
    all: Seq<DirectiveV>,
)
    requires
        directives_in(text) == Ok::<Seq<DirectiveV>, Seq<char>>(ds),
        expanded_from(ds, 0, parent, seq![path], sources) == ProgressV::Done(all),
    ensures
        match (config_of(all), loaded_config(text, path, parent, sources)) {
            (Ok(c), ProgressV::Done(d)) => c == d,
            (Err(e), ProgressV::Failed(f)) => e == f,
            _ => false,
        },
{
}

} // verus!
