//! Content directives as messages show them: the fields of a value in full.

use super::ast::{Action, ActionV, TryFilesEntry, TryFilesEntryV};
use crate::template::{Segment, SegmentV, Template, VarKind};
use crate::text::{decimal, in_quotes, push_decimal, quote, views};
use vstd::prelude::*;
use vstd::string::*;

verus! {

/// Items with a comma between them.
pub open spec fn comma_list(items: Seq<Seq<char>>) -> Seq<char>
    decreases items.len(),
{
    if items.len() == 0 {
        seq![]
    } else if items.len() == 1 {
        items[0]
    } else {
        comma_list(items.drop_last()) + ", "@ + items.last()
    }
}

/// A variable.
pub open spec fn var_shown(kind: VarKind, name: Seq<char>) -> Seq<char> {
    match kind {
        VarKind::Host => "Host"@,
        VarKind::RemoteAddr => "RemoteAddr"@,
        VarKind::RequestUri => "RequestUri"@,
        VarKind::Uri => "Uri"@,
        VarKind::RequestMethod => "RequestMethod"@,
        VarKind::Args => "Args"@,
        VarKind::Scheme => "Scheme"@,
        VarKind::ServerName => "ServerName"@,
        VarKind::Arg => "Arg("@ + in_quotes(name) + ")"@,
        VarKind::Http => "Http("@ + in_quotes(name) + ")"@,
        VarKind::Cookie => "Cookie("@ + in_quotes(name) + ")"@,
        VarKind::User => "Unknown("@ + in_quotes(name) + ")"@,
    }
}

/// A piece of a template.
pub open spec fn segment_shown(s: SegmentV) -> Seq<char> {
    match s {
        SegmentV::Literal(t) => "Literal("@ + in_quotes(t) + ")"@,
        SegmentV::Var(kind, name) => "Var("@ + var_shown(kind, name) + ")"@,
    }
}

/// A template.
pub open spec fn template_shown(t: Seq<SegmentV>) -> Seq<char> {
    "Template { segments: ["@ + comma_list(t.map_values(|s: SegmentV| segment_shown(s))) + "] }"@
}

/// A candidate of `try_files`.
pub open spec fn entry_shown(e: TryFilesEntryV) -> Seq<char> {
    match e {
        TryFilesEntryV::Path(t) => "Path("@ + template_shown(t) + ")"@,
        TryFilesEntryV::Status(n) => "Status("@ + decimal(n as nat) + ")"@,
    }
}

/// What a location serves.
pub open spec fn action_shown(a: ActionV) -> Seq<char> {
    match a {
        ActionV::Return { status, body } => "Return { status: "@ + decimal(status as nat)
            + ", body: "@ + template_shown(body) + " }"@,
        ActionV::ProxyPass { target } => "ProxyPass { target: "@ + in_quotes(target) + " }"@,
        ActionV::Root { dir } => "Root { dir: "@ + in_quotes(dir) + " }"@,
        ActionV::Alias { dir } => "Alias { dir: "@ + in_quotes(dir) + " }"@,
        ActionV::Metrics => "Metrics"@,
        ActionV::TryFiles { root, entries } => "TryFiles { root: "@ + in_quotes(root)
            + ", entries: ["@ + comma_list(entries.map_values(|e: TryFilesEntryV| entry_shown(e)))
            + "] }"@,
    }
}

/// A text between two others.
fn wrap(before: &str, inner: &str, after: &str) -> (r: String)
    ensures
        r@ == before@ + inner@ + after@,
{
    let mut r = before.to_owned();
    r.append(inner);
    r.append(after);
    r
}

fn show_var(kind: VarKind, name: &str) -> (r: String)
    ensures
        r@ == var_shown(kind, name@),
{
    match kind {
        VarKind::Host => "Host".to_owned(),
        VarKind::RemoteAddr => "RemoteAddr".to_owned(),
        VarKind::RequestUri => "RequestUri".to_owned(),
        VarKind::Uri => "Uri".to_owned(),
        VarKind::RequestMethod => "RequestMethod".to_owned(),
        VarKind::Args => "Args".to_owned(),
        VarKind::Scheme => "Scheme".to_owned(),
        VarKind::ServerName => "ServerName".to_owned(),
        VarKind::Arg => wrap("Arg(", quote(name).as_str(), ")"),
        VarKind::Http => wrap("Http(", quote(name).as_str(), ")"),
        VarKind::Cookie => wrap("Cookie(", quote(name).as_str(), ")"),
        VarKind::User => wrap("Unknown(", quote(name).as_str(), ")"),
    }
}

fn show_segment(s: &Segment) -> (r: String)
    ensures
        r@ == segment_shown(s@),
{
    match s {
        Segment::Literal(t) => wrap("Literal(", quote(t.as_str()).as_str(), ")"),
        Segment::Var(kind, name) => wrap("Var(", show_var(*kind, name.as_str()).as_str(), ")"),
    }
}

fn show_template(t: &Template) -> (r: String)
    ensures
        r@ == template_shown(t@),
{
    let ghost all = t@.map_values(|s: SegmentV| segment_shown(s));
    let mut list = String::new();
    let mut i: usize = 0;
    assert(list@ =~= comma_list(all.take(0)));
    while i < t.segments.len()
        invariant
            i <= t.segments@.len(),
            all == t@.map_values(|s: SegmentV| segment_shown(s)),
            list@ == comma_list(all.take(i as int)),
        decreases t.segments@.len() - i,
    {
        if i > 0 {
            list.append(", ");
        }
        list.append(show_segment(&t.segments[i]).as_str());
        i = i + 1;
        proof {
            let now = all.take(i as int);
            assert(now.drop_last() == all.take(i - 1));
            assert(now.last() == segment_shown(t.segments@[i - 1]@));
            assert(list@ =~= comma_list(now));
        }
    }
    assert(all.take(i as int) == all);
    wrap("Template { segments: [", list.as_str(), "] }")
}

fn show_number(before: &str, n: u16, after: &str) -> (r: String)
    ensures
        r@ == before@ + decimal(n as nat) + after@,
{
    let mut r = before.to_owned();
    push_decimal(&mut r, n as u64);
    r.append(after);
    r
}

fn show_entry(e: &TryFilesEntry) -> (r: String)
    ensures
        r@ == entry_shown(e@),
{
    match e {
        TryFilesEntry::Path(t) => wrap("Path(", show_template(t).as_str(), ")"),
        TryFilesEntry::Status(n) => show_number("Status(", *n, ")"),
    }
}

fn show_entries(entries: &Vec<TryFilesEntry>) -> (list: String)
    ensures
        list@ == comma_list(views(entries@).map_values(|e: TryFilesEntryV| entry_shown(e))),
{
    let ghost all = views(entries@).map_values(|e: TryFilesEntryV| entry_shown(e));
    let mut list = String::new();
    let mut i: usize = 0;
    assert(list@ =~= comma_list(all.take(0)));
    while i < entries.len()
        invariant
            i <= entries@.len(),
            all == views(entries@).map_values(|e: TryFilesEntryV| entry_shown(e)),
            list@ == comma_list(all.take(i as int)),
        decreases entries@.len() - i,
    {
        if i > 0 {
            list.append(", ");
        }
        list.append(show_entry(&entries[i]).as_str());
        i = i + 1;
        proof {
            let now = all.take(i as int);
            assert(now.drop_last() == all.take(i - 1));
            assert(now.last() == entry_shown(entries@[i - 1]@));
            assert(list@ =~= comma_list(now));
        }
    }
    assert(all.take(i as int) == all);
    list
}

/// Show what a location serves.
pub fn show_action(a: &Action) -> (r: String)
    ensures
        r@ == action_shown(a@),
{
    match a {
        Action::Return { status, body } => {
            let mut r = show_number("Return { status: ", *status, ", body: ");
            r.append(show_template(body).as_str());
            r.append(" }");
            r
        },
        Action::ProxyPass { target } => wrap(
            "ProxyPass { target: ",
            quote(target.as_str()).as_str(),
            " }",
        ),
        Action::Root { dir } => wrap("Root { dir: ", quote(dir.as_str()).as_str(), " }"),
        Action::Alias { dir } => wrap("Alias { dir: ", quote(dir.as_str()).as_str(), " }"),
        Action::Metrics => "Metrics".to_owned(),
        Action::TryFiles { root, entries } => {
            let mut r = wrap("TryFiles { root: ", quote(root.as_str()).as_str(), ", entries: [");
            r.append(show_entries(entries).as_str());
            r.append("] }");
            r
        },
    }
}

} // verus!
