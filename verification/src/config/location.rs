//! `location` blocks.

use super::ast::{
    Action, ActionV, Location, LocationKind, LocationKindV, LocationV, TryFilesEntry,
    TryFilesEntryV,
};
use super::describe::{action_shown, show_action};
use super::lexer::{at_line, line_prefix};
use super::lowering::{
    arg1, arg1_of, arg2, arg2_of, fail1, fail3, first, first_of, msg1, msg3, unknown, unknown_in,
};
use super::parser::{Directive, directive_view, directive_views, DirectiveV};
use super::values::{duration_of, on_off_of, parse_duration, parse_on_off};
use super::zones::{
    cache_valid_of, limit_conn_of, limit_req_of, parse_cache_valid, parse_limit_conn,
    parse_limit_req,
};
use crate::template::{SegmentV, Template, template_of};
use crate::text::{
    after_prefix, lemma_views_push, number, opt_view, parse_number, result_view, same,
    strip_prefix, views,
};
use crate::time::Duration;
use vstd::prelude::*;
use vstd::string::*;

verus! {

/// What the directives of a location block have set so far.
struct Draft {
    action: Option<Action>,
    try_files: Option<Vec<TryFilesEntry>>,
    set_headers: Vec<(String, Template)>,
    add_headers: Vec<(String, Template)>,
    expires: Option<Duration>,
    gzip: Option<bool>,
    autoindex: bool,
    auth_basic_realm: Option<String>,
    auth_basic_user_file: Option<String>,
    limit_req: Option<(String, u32)>,
    limit_conn: Option<(String, u32)>,
    access_rules: Vec<(bool, String)>,
    proxy_cache: Option<String>,
    proxy_cache_key: Option<Template>,
    proxy_cache_valid: Vec<(Vec<u16>, Duration)>,
    proxy_connect_timeout: Option<Duration>,
    proxy_read_timeout: Option<Duration>,
    auth_request: Option<Template>,
    mirrors: Vec<Template>,
    proxy_ssl_verify: bool,
    proxy_ssl_certificate: Option<String>,
    proxy_ssl_certificate_key: Option<String>,
}

/// Model of a location block that is being read.
pub struct DraftV {
    pub action: Option<ActionV>,
    pub try_files: Option<Seq<TryFilesEntryV>>,
    pub set_headers: Seq<(Seq<char>, Seq<SegmentV>)>,
    pub add_headers: Seq<(Seq<char>, Seq<SegmentV>)>,
    pub expires: Option<Duration>,
    pub gzip: Option<bool>,
    pub autoindex: bool,
    pub auth_basic_realm: Option<Seq<char>>,
    pub auth_basic_user_file: Option<Seq<char>>,
    pub limit_req: Option<(Seq<char>, u32)>,
    pub limit_conn: Option<(Seq<char>, u32)>,
    pub access_rules: Seq<(bool, Seq<char>)>,
    pub proxy_cache: Option<Seq<char>>,
    pub proxy_cache_key: Option<Seq<SegmentV>>,
    pub proxy_cache_valid: Seq<(Seq<u16>, Duration)>,
    pub proxy_connect_timeout: Option<Duration>,
    pub proxy_read_timeout: Option<Duration>,
    pub auth_request: Option<Seq<SegmentV>>,
    pub mirrors: Seq<Seq<SegmentV>>,
    pub proxy_ssl_verify: bool,
    pub proxy_ssl_certificate: Option<Seq<char>>,
    pub proxy_ssl_certificate_key: Option<Seq<char>>,
}

impl Draft {
    spec fn model(&self) -> DraftV {
        DraftV {
            action: opt_view(self.action),
            try_files: match self.try_files {
                Some(v) => Some(views(v@)),
                None => None,
            },
            set_headers: views(self.set_headers@),
            add_headers: views(self.add_headers@),
            expires: self.expires,
            gzip: self.gzip,
            autoindex: self.autoindex,
            auth_basic_realm: opt_view(self.auth_basic_realm),
            auth_basic_user_file: opt_view(self.auth_basic_user_file),
            limit_req: opt_view(self.limit_req),
            limit_conn: opt_view(self.limit_conn),
            access_rules: views(self.access_rules@),
            proxy_cache: opt_view(self.proxy_cache),
            proxy_cache_key: opt_view(self.proxy_cache_key),
            proxy_cache_valid: views(self.proxy_cache_valid@),
            proxy_connect_timeout: self.proxy_connect_timeout,
            proxy_read_timeout: self.proxy_read_timeout,
            auth_request: opt_view(self.auth_request),
            mirrors: views(self.mirrors@),
            proxy_ssl_verify: self.proxy_ssl_verify,
            proxy_ssl_certificate: opt_view(self.proxy_ssl_certificate),
            proxy_ssl_certificate_key: opt_view(self.proxy_ssl_certificate_key),
        }
    }
}

/// A location block in which nothing has been set.
pub open spec fn empty_draft() -> DraftV {
    DraftV {
        action: None,
        try_files: None,
        set_headers: seq![],
        add_headers: seq![],
        expires: None,
        gzip: None,
        autoindex: false,
        auth_basic_realm: None,
        auth_basic_user_file: None,
        limit_req: None,
        limit_conn: None,
        access_rules: seq![],
        proxy_cache: None,
        proxy_cache_key: None,
        proxy_cache_valid: seq![],
        proxy_connect_timeout: None,
        proxy_read_timeout: None,
        auth_request: None,
        mirrors: seq![],
        proxy_ssl_verify: true,
        proxy_ssl_certificate: None,
        proxy_ssl_certificate_key: None,
    }
}

fn new_draft() -> (r: Draft)
    ensures
        r.model() == empty_draft(),
{
    let r = Draft {
        action: None,
        try_files: None,
        set_headers: Vec::new(),
        add_headers: Vec::new(),
        expires: None,
        gzip: None,
        autoindex: false,
        auth_basic_realm: None,
        auth_basic_user_file: None,
        limit_req: None,
        limit_conn: None,
        access_rules: Vec::new(),
        proxy_cache: None,
        proxy_cache_key: None,
        proxy_cache_valid: Vec::new(),
        proxy_connect_timeout: None,
        proxy_read_timeout: None,
        auth_request: None,
        mirrors: Vec::new(),
        proxy_ssl_verify: true,
        proxy_ssl_certificate: None,
        proxy_ssl_certificate_key: None,
    };
    assert(views(r.set_headers@) =~= seq![]);
    assert(views(r.add_headers@) =~= seq![]);
    assert(views(r.access_rules@) =~= seq![]);
    assert(views(r.proxy_cache_valid@) =~= seq![]);
    assert(views(r.mirrors@) =~= seq![]);
    r
}

// ---------------------------------------------------------------------------
// Patterns
// ---------------------------------------------------------------------------

/// The kind and the path of a location. Regular expressions and `^~` are not
/// supported.
pub open spec fn pattern_of(args: Seq<Seq<char>>, line: usize) -> Result<
    (LocationKindV, Seq<char>),
    Seq<char>,
> {
    if args[0] == "="@ {
        if args.len() > 1 {
            Ok((LocationKindV::Exact, args[1]))
        } else {
            Err(msg1(line, "'location =' requires a path"@))
        }
    } else if args[0] == "~"@ || args[0] == "~*"@ || args[0] == "^~"@ {
        Err(msg3(line, "location modifier '"@, args[0], "' is not supported yet"@))
    } else {
        Ok((LocationKindV::Prefix, args[0]))
    }
}

pub(crate) fn parse_location_pattern(args: &Vec<String>, line: usize) -> (r: Result<
    (LocationKind, String),
    String,
>)
    requires
        args@.len() > 0,
    ensures
        result_view(r) == pattern_of(views(args@), line),
{
    let first = args[0].as_str();
    assert(views(args@)[0] == args@[0]@);
    if same(first, "=") {
        if args.len() > 1 {
            assert(views(args@)[1] == args@[1]@);
            Ok((LocationKind::Exact, args[1].clone()))
        } else {
            Err(fail1(line, "'location =' requires a path"))
        }
    } else if same(first, "~") || same(first, "~*") || same(first, "^~") {
        Err(fail3(line, "location modifier '", first, "' is not supported yet"))
    } else {
        Ok((LocationKind::Prefix, first.to_owned()))
    }
}

// ---------------------------------------------------------------------------
// try_files
// ---------------------------------------------------------------------------

/// The entries of `try_files` from the argument `i` on. `=N` is a status and
/// may only stand last.
pub open spec fn try_entries(args: Seq<Seq<char>>, i: int, line: usize) -> Result<
    Seq<TryFilesEntryV>,
    Seq<char>,
>
    decreases args.len() - i,
{
    if i >= args.len() || i < 0 {
        Ok(seq![])
    } else {
        match try_entry(args[i], i == args.len() - 1, line) {
            Err(e) => Err(e),
            Ok(t) => match try_entries(args, i + 1, line) {
                Err(e) => Err(e),
                Ok(rest) => Ok(seq![t] + rest),
            },
        }
    }
}

pub open spec fn try_entry(raw: Seq<char>, last: bool, line: usize) -> Result<
    TryFilesEntryV,
    Seq<char>,
> {
    match after_prefix(raw, "="@) {
        None => Ok(TryFilesEntryV::Path(template_of(raw))),
        Some(code) => if !last {
            Err(msg1(line, "'=N' status is only valid as the last 'try_files' entry"@))
        } else {
            match number(code, u16::MAX as nat) {
                Some(n) => Ok(TryFilesEntryV::Status(n as u16)),
                None => Err(msg3(line, "invalid status code '"@, raw, "' in try_files"@)),
            }
        },
    }
}

fn parse_try_entry(raw: &str, last: bool, line: usize) -> (r: Result<TryFilesEntry, String>)
    ensures
        result_view(r) == try_entry(raw@, last, line),
{
    match strip_prefix(raw, "=") {
        None => Ok(TryFilesEntry::Path(Template::parse(raw))),
        Some(code) => {
            if !last {
                return Err(
                    fail1(line, "'=N' status is only valid as the last 'try_files' entry"),
                );
            }
            match parse_number(code, u16::MAX as u64) {
                Some(n) => Ok(TryFilesEntry::Status(n as u16)),
                None => Err(fail3(line, "invalid status code '", raw, "' in try_files")),
            }
        },
    }
}

/// `try_files arg1 arg2 … argN`.
pub open spec fn try_files_of(d: DirectiveV) -> Result<Seq<TryFilesEntryV>, Seq<char>> {
    if d.args.len() < 2 {
        Err(msg1(d.line, "'try_files' needs at least two arguments"@))
    } else {
        try_entries(d.args, 0, d.line)
    }
}

/// `done` in front of the entries that are still to be read.
spec fn tried(done: Seq<TryFilesEntryV>, rest: Result<Seq<TryFilesEntryV>, Seq<char>>) -> Result<
    Seq<TryFilesEntryV>,
    Seq<char>,
> {
    match rest {
        Ok(r) => Ok(done + r),
        Err(e) => Err(e),
    }
}

fn parse_try_files(d: &Directive) -> (r: Result<Vec<TryFilesEntry>, String>)
    ensures
        match r {
            Ok(v) => try_files_of(directive_view(*d)) == Ok::<Seq<TryFilesEntryV>, Seq<char>>(
                views(v@),
            ),
            Err(e) => try_files_of(directive_view(*d)) == Err::<Seq<TryFilesEntryV>, Seq<char>>(e@),
        },
{
    let ghost args = views(d.args@);
    let n: usize = d.args.len();
    if n < 2 {
        return Err(fail1(d.line, "'try_files' needs at least two arguments"));
    }
    let mut entries: Vec<TryFilesEntry> = Vec::new();
    let mut i: usize = 0;
    let ghost whole = try_entries(args, 0, d.line);
    proof {
        if let Ok(r) = whole {
            assert(views(entries@) + r =~= r);
        }
    }
    while i < n
        invariant
            2 <= n == d.args@.len(),
            i <= n,
            args == views(d.args@),
            whole == try_entries(args, 0, d.line),
            tried(views(entries@), try_entries(args, i as int, d.line)) == whole,
        decreases n - i,
    {
        assert(args[i as int] == d.args@[i as int]@);
        let ghost before = entries@;
        match parse_try_entry(d.args[i].as_str(), i == n - 1, d.line) {
            Err(e) => {
                return Err(e);
            },
            Ok(t) => {
                entries.push(t);
                proof {
                    lemma_views_push(before, t);
                    if let Ok(r) = try_entries(args, i + 1, d.line) {
                        assert(views(before) + (seq![t@] + r) =~= views(entries@) + r);
                    }
                }
            },
        }
        i = i + 1;
    }
    assert(views(entries@) + Seq::<TryFilesEntryV>::empty() =~= views(entries@));
    Ok(entries)
}

// ---------------------------------------------------------------------------
// Directives
// ---------------------------------------------------------------------------

/// The directives that say what a location serves.
pub open spec fn is_content(name: Seq<char>) -> bool {
    name == "return"@ || name == "proxy_pass"@ || name == "root"@ || name == "alias"@ || name
        == "metrics"@
}

fn content_name(name: &str) -> (r: bool)
    ensures
        r == is_content(name@),
{
    same(name, "return") || same(name, "proxy_pass") || same(name, "root") || same(name, "alias")
        || same(name, "metrics")
}

/// What a content directive says.
pub open spec fn content_of(d: DirectiveV) -> Result<ActionV, Seq<char>> {
    if d.name == "metrics"@ {
        Ok(ActionV::Metrics)
    } else {
        match arg1_of(d) {
            Err(e) => Err(e),
            Ok(a) => if d.name == "return"@ {
                match number(a, u16::MAX as nat) {
                    Some(n) => Ok(
                        ActionV::Return { status: n as u16, body: template_of(arg2_of(d)) },
                    ),
                    None => Err(msg1(d.line, "invalid status code"@)),
                }
            } else if d.name == "proxy_pass"@ {
                Ok(ActionV::ProxyPass { target: a })
            } else if d.name == "root"@ {
                Ok(ActionV::Root { dir: a })
            } else {
                Ok(ActionV::Alias { dir: a })
            },
        }
    }
}

fn build_content(d: &Directive) -> (r: Result<Action, String>)
    ensures
        result_view(r) == content_of(directive_view(*d)),
{
    let name = d.name.as_str();
    if same(name, "metrics") {
        return Ok(Action::Metrics);
    }
    let a = match arg1(d) {
        Ok(a) => a,
        Err(e) => {
            return Err(e);
        },
    };
    if same(name, "return") {
        match parse_number(a.as_str(), u16::MAX as u64) {
            Some(n) => Ok(
                Action::Return { status: n as u16, body: Template::parse(arg2(d).as_str()) },
            ),
            None => Err(fail1(d.line, "invalid status code")),
        }
    } else if same(name, "proxy_pass") {
        Ok(Action::ProxyPass { target: a })
    } else if same(name, "root") {
        Ok(Action::Root { dir: a })
    } else {
        Ok(Action::Alias { dir: a })
    }
}

/// A directive whose first argument is text of any kind.
pub open spec fn takes_text(name: Seq<char>) -> bool {
    name == "proxy_set_header"@ || name == "add_header"@ || name == "proxy_cache"@ || name
        == "proxy_cache_key"@ || name == "auth_basic"@ || name == "auth_basic_user_file"@ || name
        == "allow"@ || name == "deny"@ || name == "auth_request"@ || name == "mirror"@ || name
        == "proxy_ssl_certificate"@ || name == "proxy_ssl_certificate_key"@
}

fn text_name(name: &str) -> (r: bool)
    ensures
        r == takes_text(name@),
{
    same(name, "proxy_set_header") || same(name, "add_header") || same(name, "proxy_cache") || same(
        name,
        "proxy_cache_key",
    ) || same(name, "auth_basic") || same(name, "auth_basic_user_file") || same(name, "allow")
        || same(name, "deny") || same(name, "auth_request") || same(name, "mirror") || same(
        name,
        "proxy_ssl_certificate",
    ) || same(name, "proxy_ssl_certificate_key")
}

/// The effect of a directive that takes text `a`.
pub open spec fn text_step(l: DraftV, d: DirectiveV, a: Seq<char>) -> DraftV {
    if d.name == "proxy_set_header"@ {
        DraftV { set_headers: l.set_headers.push((a, template_of(arg2_of(d)))), ..l }
    } else if d.name == "add_header"@ {
        DraftV { add_headers: l.add_headers.push((a, template_of(arg2_of(d)))), ..l }
    } else if d.name == "proxy_cache"@ {
        DraftV { proxy_cache: Some(a), ..l }
    } else if d.name == "proxy_cache_key"@ {
        DraftV { proxy_cache_key: Some(template_of(a)), ..l }
    } else if d.name == "auth_basic"@ {
        DraftV {
            auth_basic_realm: if a == "off"@ {
                None
            } else {
                Some(a)
            },
            ..l
        }
    } else if d.name == "auth_basic_user_file"@ {
        DraftV { auth_basic_user_file: Some(a), ..l }
    } else if d.name == "allow"@ {
        DraftV { access_rules: l.access_rules.push((true, a)), ..l }
    } else if d.name == "deny"@ {
        DraftV { access_rules: l.access_rules.push((false, a)), ..l }
    } else if d.name == "auth_request"@ {
        DraftV { auth_request: Some(template_of(a)), ..l }
    } else if d.name == "mirror"@ {
        DraftV { mirrors: l.mirrors.push(template_of(a)), ..l }
    } else if d.name == "proxy_ssl_certificate"@ {
        DraftV { proxy_ssl_certificate: Some(a), ..l }
    } else {
        DraftV { proxy_ssl_certificate_key: Some(a), ..l }
    }
}

fn apply_text(l: Draft, d: &Directive, a: String) -> (r: Draft)
    ensures
        r.model() == text_step(l.model(), directive_view(*d), a@),
{
    let mut l = l;
    let name = d.name.as_str();
    if same(name, "proxy_set_header") {
        let item = (a, Template::parse(arg2(d).as_str()));
        proof {
            lemma_views_push(l.set_headers@, item);
        }
        l.set_headers.push(item);
    } else if same(name, "add_header") {
        let item = (a, Template::parse(arg2(d).as_str()));
        proof {
            lemma_views_push(l.add_headers@, item);
        }
        l.add_headers.push(item);
    } else if same(name, "proxy_cache") {
        l.proxy_cache = Some(a);
    } else if same(name, "proxy_cache_key") {
        l.proxy_cache_key = Some(Template::parse(a.as_str()));
    } else if same(name, "auth_basic") {
        l.auth_basic_realm = if same(a.as_str(), "off") { None } else { Some(a) };
    } else if same(name, "auth_basic_user_file") {
        l.auth_basic_user_file = Some(a);
    } else if same(name, "allow") {
        let item = (true, a);
        proof {
            lemma_views_push(l.access_rules@, item);
        }
        l.access_rules.push(item);
    } else if same(name, "deny") {
        let item = (false, a);
        proof {
            lemma_views_push(l.access_rules@, item);
        }
        l.access_rules.push(item);
    } else if same(name, "auth_request") {
        l.auth_request = Some(Template::parse(a.as_str()));
    } else if same(name, "mirror") {
        let item = Template::parse(a.as_str());
        proof {
            lemma_views_push(l.mirrors@, item);
        }
        l.mirrors.push(item);
    } else if same(name, "proxy_ssl_certificate") {
        l.proxy_ssl_certificate = Some(a);
    } else {
        l.proxy_ssl_certificate_key = Some(a);
    }
    l
}

/// The duration that a directive names, with the message for a bad one.
pub open spec fn timeout_of(d: DirectiveV, before: Seq<char>, after: Seq<char>) -> Result<
    Duration,
    Seq<char>,
> {
    match arg1_of(d) {
        Err(e) => Err(e),
        Ok(v) => match duration_of(v) {
            Some(t) => Ok(t),
            None => Err(msg3(d.line, before, v, after)),
        },
    }
}

fn parse_timeout(d: &Directive, before: &str, after: &str) -> (r: Result<Duration, String>)
    ensures
        result_view(r) == timeout_of(directive_view(*d), before@, after@),
{
    match arg1(d) {
        Err(e) => Err(e),
        Ok(v) => match parse_duration(v.as_str()) {
            Some(t) => Ok(t),
            None => Err(fail3(d.line, before, v.as_str(), after)),
        },
    }
}

/// Directives that are accepted in a location and have no effect.
pub open spec fn ignored_in_location(name: Seq<char>) -> bool {
    ||| name == "proxy_cache_bypass"@ || name == "proxy_no_cache"@ || name == "proxy_cache_lock"@
    ||| name == "proxy_cache_use_stale"@ || name == "proxy_cache_revalidate"@
    ||| name == "proxy_cache_methods"@ || name == "proxy_cache_min_uses"@
    ||| name == "limit_req_status"@ || name == "limit_conn_status"@ || name == "include"@
    ||| name == "index"@ || name == "proxy_buffering"@ || name == "proxy_send_timeout"@
    ||| name == "proxy_next_upstream"@ || name == "proxy_hide_header"@
    ||| name == "proxy_pass_header"@ || name == "proxy_redirect"@
    ||| name == "proxy_ssl_trusted_certificate"@ || name == "proxy_ssl_server_name"@
    ||| name == "proxy_ssl_session_reuse"@ || name == "proxy_ssl_protocols"@
    ||| name == "proxy_ssl_ciphers"@
}

fn ignored(name: &str) -> (r: bool)
    ensures
        r == ignored_in_location(name@),
{
    same(name, "proxy_cache_bypass") || same(name, "proxy_no_cache") || same(
        name,
        "proxy_cache_lock",
    ) || same(name, "proxy_cache_use_stale") || same(name, "proxy_cache_revalidate") || same(
        name,
        "proxy_cache_methods",
    ) || same(name, "proxy_cache_min_uses") || same(name, "limit_req_status") || same(
        name,
        "limit_conn_status",
    ) || same(name, "include") || same(name, "index") || same(name, "proxy_buffering") || same(
        name,
        "proxy_send_timeout",
    ) || same(name, "proxy_next_upstream") || same(name, "proxy_hide_header") || same(
        name,
        "proxy_pass_header",
    ) || same(name, "proxy_redirect") || same(name, "proxy_ssl_trusted_certificate") || same(
        name,
        "proxy_ssl_server_name",
    ) || same(name, "proxy_ssl_session_reuse") || same(name, "proxy_ssl_protocols") || same(
        name,
        "proxy_ssl_ciphers",
    )
}

/// One directive of the location `path`.
pub open spec fn location_step(l: DraftV, d: DirectiveV, path: Seq<char>) -> Result<
    DraftV,
    Seq<char>,
> {
    if is_content(d.name) {
        match content_of(d) {
            Err(e) => Err(e),
            Ok(a) => if l.action is Some {
                Err(msg3(d.line, "location '"@, path, "' has more than one content directive"@))
            } else {
                Ok(DraftV { action: Some(a), ..l })
            },
        }
    } else if takes_text(d.name) {
        match arg1_of(d) {
            Err(e) => Err(e),
            Ok(a) => Ok(text_step(l, d, a)),
        }
    } else if d.name == "expires"@ {
        match timeout_of(d, "invalid expires value '"@, "' (expected e.g. '1h', '30d')"@) {
            Err(e) => Err(e),
            Ok(t) => Ok(DraftV { expires: Some(t), ..l }),
        }
    } else if d.name == "proxy_connect_timeout"@ {
        match timeout_of(d, "invalid proxy_connect_timeout '"@, "'"@) {
            Err(e) => Err(e),
            Ok(t) => Ok(DraftV { proxy_connect_timeout: Some(t), ..l }),
        }
    } else if d.name == "proxy_read_timeout"@ {
        match timeout_of(d, "invalid proxy_read_timeout '"@, "'"@) {
            Err(e) => Err(e),
            Ok(t) => Ok(DraftV { proxy_read_timeout: Some(t), ..l }),
        }
    } else if d.name == "gzip"@ {
        match on_off_of(first_of(d), d.line) {
            Err(e) => Err(e),
            Ok(b) => Ok(DraftV { gzip: Some(b), ..l }),
        }
    } else if d.name == "autoindex"@ {
        match on_off_of(first_of(d), d.line) {
            Err(e) => Err(e),
            Ok(b) => Ok(DraftV { autoindex: b, ..l }),
        }
    } else if d.name == "proxy_ssl_verify"@ {
        match on_off_of(first_of(d), d.line) {
            Err(e) => Err(e),
            Ok(b) => Ok(DraftV { proxy_ssl_verify: b, ..l }),
        }
    } else if d.name == "proxy_cache_valid"@ {
        match cache_valid_of(d.args, d.line) {
            Err(e) => Err(e),
            Ok(rule) => Ok(DraftV { proxy_cache_valid: l.proxy_cache_valid.push(rule), ..l }),
        }
    } else if d.name == "limit_req"@ {
        match limit_req_of(d.args, d.line) {
            Err(e) => Err(e),
            Ok(x) => Ok(DraftV { limit_req: Some(x), ..l }),
        }
    } else if d.name == "limit_conn"@ {
        match limit_conn_of(d.args, d.line) {
            Err(e) => Err(e),
            Ok(x) => Ok(DraftV { limit_conn: Some(x), ..l }),
        }
    } else if d.name == "try_files"@ {
        match try_files_of(d) {
            Err(e) => Err(e),
            Ok(entries) => Ok(DraftV { try_files: Some(entries), ..l }),
        }
    } else if ignored_in_location(d.name) {
        Ok(l)
    } else {
        Err(unknown_in(d, "location"@))
    }
}

pub open spec fn location_steps(l: DraftV, ds: Seq<DirectiveV>, path: Seq<char>) -> Result<
    DraftV,
    Seq<char>,
>
    decreases ds.len(),
{
    if ds.len() == 0 {
        Ok(l)
    } else {
        match location_step(l, ds[0], path) {
            Ok(t) => location_steps(t, ds.skip(1), path),
            Err(e) => Err(e),
        }
    }
}

fn apply_location(l: Draft, d: &Directive, path: &str) -> (r: Result<Draft, String>)
    ensures
        match r {
            Ok(t) => location_step(l.model(), directive_view(*d), path@) == Ok::<DraftV, Seq<char>>(
                t.model(),
            ),
            Err(e) => location_step(l.model(), directive_view(*d), path@) == Err::<
                DraftV,
                Seq<char>,
            >(e@),
        },
{
    let mut l = l;
    let name = d.name.as_str();
    if content_name(name) {
        let a = match build_content(d) {
            Ok(a) => a,
            Err(e) => {
                return Err(e);
            },
        };
        if l.action.is_some() {
            return Err(
                fail3(d.line, "location '", path, "' has more than one content directive"),
            );
        }
        l.action = Some(a);
        return Ok(l);
    }
    if text_name(name) {
        return match arg1(d) {
            Ok(a) => Ok(apply_text(l, d, a)),
            Err(e) => Err(e),
        };
    }
    if same(name, "expires") {
        match parse_timeout(d, "invalid expires value '", "' (expected e.g. '1h', '30d')") {
            Ok(t) => {
                l.expires = Some(t);
            },
            Err(e) => {
                return Err(e);
            },
        }
    } else if same(name, "proxy_connect_timeout") {
        match parse_timeout(d, "invalid proxy_connect_timeout '", "'") {
            Ok(t) => {
                l.proxy_connect_timeout = Some(t);
            },
            Err(e) => {
                return Err(e);
            },
        }
    } else if same(name, "proxy_read_timeout") {
        match parse_timeout(d, "invalid proxy_read_timeout '", "'") {
            Ok(t) => {
                l.proxy_read_timeout = Some(t);
            },
            Err(e) => {
                return Err(e);
            },
        }
    } else if same(name, "gzip") {
        match parse_on_off(first(d), d.line) {
            Ok(b) => {
                l.gzip = Some(b);
            },
            Err(e) => {
                return Err(e);
            },
        }
    } else if same(name, "autoindex") {
        match parse_on_off(first(d), d.line) {
            Ok(b) => {
                l.autoindex = b;
            },
            Err(e) => {
                return Err(e);
            },
        }
    } else if same(name, "proxy_ssl_verify") {
        match parse_on_off(first(d), d.line) {
            Ok(b) => {
                l.proxy_ssl_verify = b;
            },
            Err(e) => {
                return Err(e);
            },
        }
    } else if same(name, "proxy_cache_valid") {
        match parse_cache_valid(&d.args, d.line) {
            Ok(rule) => {
                proof {
                    lemma_views_push(l.proxy_cache_valid@, rule);
                }
                l.proxy_cache_valid.push(rule);
            },
            Err(e) => {
                return Err(e);
            },
        }
    } else if same(name, "limit_req") {
        match parse_limit_req(&d.args, d.line) {
            Ok(x) => {
                l.limit_req = Some(x);
            },
            Err(e) => {
                return Err(e);
            },
        }
    } else if same(name, "limit_conn") {
        match parse_limit_conn(&d.args, d.line) {
            Ok(x) => {
                l.limit_conn = Some(x);
            },
            Err(e) => {
                return Err(e);
            },
        }
    } else if same(name, "try_files") {
        match parse_try_files(d) {
            Ok(entries) => {
                l.try_files = Some(entries);
            },
            Err(e) => {
                return Err(e);
            },
        }
    } else if !ignored(name) {
        return Err(unknown(d, "location"));
    }
    Ok(l)
}

// ---------------------------------------------------------------------------
// The whole block
// ---------------------------------------------------------------------------

/// What a location serves. `try_files` takes precedence over `root`, which
/// then says where its candidates are looked up. Without a content directive
/// the server's `root` applies.
pub open spec fn action_of(
    l: DraftV,
    path: Seq<char>,
    line: usize,
    server_root: Option<Seq<char>>,
) -> Result<ActionV, Seq<char>> {
    match l.try_files {
        Some(entries) => match l.action {
            Some(ActionV::Root { dir }) => Ok(ActionV::TryFiles { root: dir, entries }),
            Some(other) => Err(
                at_line(line) + "'try_files' in location '"@ + path
                    + "' cannot be combined with a content directive ("@ + action_shown(
                    other,
                )
                    + "); only 'root' is allowed alongside it"@,
            ),
            None => match server_root {
                Some(r) => Ok(ActionV::TryFiles { root: r, entries }),
                None => Err(
                    msg3(
                        line,
                        "'try_files' in location '"@,
                        path,
                        "' needs a 'root' (in this location or at the server level)"@,
                    ),
                ),
            },
        },
        None => match l.action {
            Some(a) => Ok(a),
            None => match server_root {
                Some(r) => Ok(ActionV::Root { dir: r }),
                None => Err(
                    msg3(
                        line,
                        "location '"@,
                        path,
                        "' has no action (expected return, proxy_pass, root, or alias)"@,
                    ),
                ),
            },
        },
    }
}

fn settle_action(
    action: Option<Action>,
    try_files: Option<Vec<TryFilesEntry>>,
    path: &str,
    line: usize,
    server_root: &Option<String>,
    Ghost(l): Ghost<DraftV>,
) -> (r: Result<Action, String>)
    requires
        l.action == opt_view(action),
        match try_files {
            Some(v) => l.try_files == Some(views(v@)),
            None => l.try_files is None,
        },
    ensures
        result_view(r) == action_of(l, path@, line, opt_view(*server_root)),
{
    match try_files {
        Some(entries) => match action {
            Some(Action::Root { dir }) => Ok(Action::TryFiles { root: dir, entries }),
            Some(other) => {
                let mut e = line_prefix(line);
                e.append("'try_files' in location '");
                e.append(path);
                e.append("' cannot be combined with a content directive (");
                e.append(show_action(&other).as_str());
                e.append("); only 'root' is allowed alongside it");
                Err(e)
            },
            None => match server_root {
                Some(r) => Ok(Action::TryFiles { root: r.clone(), entries }),
                None => Err(
                    fail3(
                        line,
                        "'try_files' in location '",
                        path,
                        "' needs a 'root' (in this location or at the server level)",
                    ),
                ),
            },
        },
        None => match action {
            Some(a) => Ok(a),
            None => match server_root {
                Some(r) => Ok(Action::Root { dir: r.clone() }),
                None => Err(
                    fail3(
                        line,
                        "location '",
                        path,
                        "' has no action (expected return, proxy_pass, root, or alias)",
                    ),
                ),
            },
        },
    }
}

/// The location made of a finished draft.
pub open spec fn finished(kind: LocationKindV, path: Seq<char>, action: ActionV, l: DraftV) -> LocationV {
    LocationV {
        kind,
        path,
        action,
        set_headers: l.set_headers,
        add_headers: l.add_headers,
        expires: l.expires,
        gzip: l.gzip,
        autoindex: l.autoindex,
        auth_basic_realm: l.auth_basic_realm,
        auth_basic_user_file: l.auth_basic_user_file,
        limit_req: l.limit_req,
        limit_conn: l.limit_conn,
        access_rules: l.access_rules,
        proxy_cache: l.proxy_cache,
        proxy_cache_key: l.proxy_cache_key,
        proxy_cache_valid: l.proxy_cache_valid,
        proxy_connect_timeout: l.proxy_connect_timeout,
        proxy_read_timeout: l.proxy_read_timeout,
        auth_request: l.auth_request,
        mirrors: l.mirrors,
        proxy_ssl_verify: l.proxy_ssl_verify,
        proxy_ssl_certificate: l.proxy_ssl_certificate,
        proxy_ssl_certificate_key: l.proxy_ssl_certificate_key,
    }
}

/// The location that a block describes.
pub open spec fn location_of(
    path: Seq<char>,
    kind: LocationKindV,
    ds: Seq<DirectiveV>,
    line: usize,
    server_root: Option<Seq<char>>,
) -> Result<LocationV, Seq<char>> {
    match location_steps(empty_draft(), ds, path) {
        Err(e) => Err(e),
        Ok(l) => match action_of(l, path, line, server_root) {
            Err(e) => Err(e),
            Ok(action) => if l.auth_basic_realm is Some && l.auth_basic_user_file is None {
                Err(
                    msg3(
                        line,
                        "location '"@,
                        path,
                        "' has 'auth_basic' but no 'auth_basic_user_file'"@,
                    ),
                )
            } else if l.proxy_ssl_certificate is Some != l.proxy_ssl_certificate_key is Some {
                Err(
                    msg3(
                        line,
                        "location '"@,
                        path,
                        "' must set both 'proxy_ssl_certificate' and 'proxy_ssl_certificate_key' (mTLS to upstream) or neither"@,
                    ),
                )
            } else {
                Ok(finished(kind, path, action, l))
            },
        },
    }
}

pub(crate) fn build_location(
    path: String,
    kind: LocationKind,
    dirs: &Vec<Directive>,
    line: usize,
    server_root: &Option<String>,
) -> (r: Result<Location, String>)
    ensures
        result_view(r) == location_of(
            path@,
            kind@,
            directive_views(dirs@),
            line,
            opt_view(*server_root),
        ),
{
    let ghost all = directive_views(dirs@);
    let mut l = new_draft();
    let mut i: usize = 0;
    assert(all.skip(0) == all);
    while i < dirs.len()
        invariant
            i <= dirs@.len(),
            all == directive_views(dirs@),
            location_steps(l.model(), all.skip(i as int), path@) == location_steps(
                empty_draft(),
                all,
                path@,
            ),
        decreases dirs@.len() - i,
    {
        let ghost rest = all.skip(i as int);
        assert(rest[0] == directive_view(dirs@[i as int]));
        assert(rest.skip(1) == all.skip(i + 1));
        match apply_location(l, &dirs[i], path.as_str()) {
            Ok(t) => {
                l = t;
            },
            Err(e) => {
                return Err(e);
            },
        }
        i = i + 1;
    }
    assert(all.skip(i as int).len() == 0);
    let ghost done = l.model();
    let action = match settle_action(
        l.action,
        l.try_files,
        path.as_str(),
        line,
        server_root,
        Ghost(done),
    ) {
        Ok(a) => a,
        Err(e) => {
            return Err(e);
        },
    };
    if l.auth_basic_realm.is_some() && l.auth_basic_user_file.is_none() {
        return Err(
            fail3(
                line,
                "location '",
                path.as_str(),
                "' has 'auth_basic' but no 'auth_basic_user_file'",
            ),
        );
    }
    if l.proxy_ssl_certificate.is_some() != l.proxy_ssl_certificate_key.is_some() {
        return Err(
            fail3(
                line,
                "location '",
                path.as_str(),
                "' must set both 'proxy_ssl_certificate' and 'proxy_ssl_certificate_key' (mTLS to upstream) or neither",
            ),
        );
    }
    Ok(
        Location {
            kind,
            path,
            action,
            set_headers: l.set_headers,
            add_headers: l.add_headers,
            expires: l.expires,
            gzip: l.gzip,
            autoindex: l.autoindex,
            auth_basic_realm: l.auth_basic_realm,
            auth_basic_user_file: l.auth_basic_user_file,
            limit_req: l.limit_req,
            limit_conn: l.limit_conn,
            access_rules: l.access_rules,
            proxy_cache: l.proxy_cache,
            proxy_cache_key: l.proxy_cache_key,
            proxy_cache_valid: l.proxy_cache_valid,
            proxy_connect_timeout: l.proxy_connect_timeout,
            proxy_read_timeout: l.proxy_read_timeout,
            auth_request: l.auth_request,
            mirrors: l.mirrors,
            proxy_ssl_verify: l.proxy_ssl_verify,
            proxy_ssl_certificate: l.proxy_ssl_certificate,
            proxy_ssl_certificate_key: l.proxy_ssl_certificate_key,
        },
    )
}

} // verus!
