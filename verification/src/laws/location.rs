//! Laws on location blocks: what each directive in one does to the location.

use super::text::law_prefix_goes_off;
use super::words::lemma_location_words;
use crate::config::ast::{ActionV, LocationKindV, LocationV, TryFilesEntryV};
use crate::config::location::{
    DraftV, empty_draft, location_of, location_step, location_steps, pattern_of, try_entries,
    try_files_of,
};
use crate::config::parser::DirectiveV;
use crate::config::values::duration_of;
use crate::config::zones::{cache_valid_of, limit_conn_of, limit_req_of};
use crate::template::template_of;
use crate::text::{after_prefix, number};
use vstd::prelude::*;
use vstd::string::*;

verus! {

proof fn lemma_steps_push(l: DraftV, ds: Seq<DirectiveV>, d: DirectiveV, path: Seq<char>)
    ensures
        location_steps(l, ds.push(d), path) == (match location_steps(l, ds, path) {
            Ok(t) => location_step(t, d, path),
            Err(e) => Err(e),
        }),
    decreases ds.len(),
{
    let all = ds.push(d);
    if ds.len() == 0 {
        assert(all.skip(1) =~= seq![]);
        assert(all[0] == d);
        if let Ok(t) = location_step(l, d, path) {
            assert(location_steps(t, all.skip(1), path) == Ok::<DraftV, Seq<char>>(t));
        }
    } else {
        assert(all[0] == ds[0]);
        assert(all.skip(1) =~= ds.skip(1).push(d));
        if let Ok(t) = location_step(l, ds[0], path) {
            lemma_steps_push(t, ds.skip(1), d, path);
        }
    }
}

/// A block without directives takes everything from its server: nothing is
/// limited, protected, cached or listed, and upstream certificates are verified.
pub proof fn law_empty_location(path: Seq<char>, kind: LocationKindV, line: usize, root: Seq<char>)
    ensures
        location_of(path, kind, seq![], line, None) is Err,
        location_of(path, kind, seq![], line, Some(root)) matches Ok(l) && {
            &&& l.path == path
            &&& l.kind == kind
            &&& l.action == (ActionV::Root { dir: root })
            &&& l.set_headers.len() == 0
            &&& l.add_headers.len() == 0
            &&& l.expires is None
            &&& l.gzip is None
            &&& !l.autoindex
            &&& l.auth_basic_realm is None
            &&& l.auth_basic_user_file is None
            &&& l.limit_req is None
            &&& l.limit_conn is None
            &&& l.access_rules.len() == 0
            &&& l.proxy_cache is None
            &&& l.proxy_cache_key is None
            &&& l.proxy_cache_valid.len() == 0
            &&& l.proxy_connect_timeout is None
            &&& l.proxy_read_timeout is None
            &&& l.auth_request is None
            &&& l.mirrors.len() == 0
            &&& l.proxy_ssl_verify
            &&& l.proxy_ssl_certificate is None
            &&& l.proxy_ssl_certificate_key is None
        },
{
}

/// What a directive with text does: one more header, rule or mirror, or the text
/// in its place, and nothing else. Without text it is refused; a realm needs a file with
/// passwords, and a certificate and its key need one another.
#[verifier::rlimit(50)]
pub proof fn law_text_directives(
    path: Seq<char>,
    kind: LocationKindV,
    ds: Seq<DirectiveV>,
    d: DirectiveV,
    line: usize,
    root: Option<Seq<char>>,
    a: LocationV,
)
    requires
        location_of(path, kind, ds, line, root) == Ok::<LocationV, Seq<char>>(a),
    ensures
        ({
            let r = location_of(path, kind, ds.push(d), line, root);
            let given = d.args.len() > 0;
            let x = d.args[0];
            let y = if d.args.len() > 1 {
                d.args[1]
            } else {
                seq![]
            };
            &&& d.name == "proxy_set_header"@ && given ==> (r matches Ok(b) && b == (LocationV {
                set_headers: a.set_headers.push((x, template_of(y))),
                ..a
            }))
            &&& d.name == "add_header"@ && given ==> (r matches Ok(b) && b == (LocationV {
                add_headers: a.add_headers.push((x, template_of(y))),
                ..a
            }))
            &&& d.name == "proxy_cache"@ && given ==> (r matches Ok(b) && b == (LocationV {
                proxy_cache: Some(x),
                ..a
            }))
            &&& d.name == "proxy_cache_key"@ && given ==> (r matches Ok(b) && b == (LocationV {
                proxy_cache_key: Some(template_of(x)),
                ..a
            }))
            &&& d.name == "auth_basic"@ && given && x == "off"@ ==> (r matches Ok(b) && b == (
            LocationV { auth_basic_realm: None, ..a }))
            &&& d.name == "auth_basic"@ && given && x != "off"@ ==> if a.auth_basic_user_file
                is Some {
                r matches Ok(b) && b == (LocationV { auth_basic_realm: Some(x), ..a })
            } else {
                r is Err
            }
            &&& d.name == "auth_basic_user_file"@ && given ==> (r matches Ok(b) && b == (LocationV {
                auth_basic_user_file: Some(x),
                ..a
            }))
            &&& d.name == "allow"@ && given ==> (r matches Ok(b) && b == (LocationV {
                access_rules: a.access_rules.push((true, x)),
                ..a
            }))
            &&& d.name == "deny"@ && given ==> (r matches Ok(b) && b == (LocationV {
                access_rules: a.access_rules.push((false, x)),
                ..a
            }))
            &&& d.name == "auth_request"@ && given ==> (r matches Ok(b) && b == (LocationV {
                auth_request: Some(template_of(x)),
                ..a
            }))
            &&& d.name == "mirror"@ && given ==> (r matches Ok(b) && b == (LocationV {
                mirrors: a.mirrors.push(template_of(x)),
                ..a
            }))
            &&& d.name == "proxy_ssl_certificate"@ && given ==> if a.proxy_ssl_certificate_key
                is Some {
                r matches Ok(b) && b == (LocationV { proxy_ssl_certificate: Some(x), ..a })
            } else {
                r is Err
            }
            &&& d.name == "proxy_ssl_certificate_key"@ && given ==> if a.proxy_ssl_certificate
                is Some {
                r matches Ok(b) && b == (LocationV { proxy_ssl_certificate_key: Some(x), ..a })
            } else {
                r is Err
            }
            &&& takes_one_argument(d.name) && !given ==> r is Err
        }),
{
    lemma_steps_push(empty_draft(), ds, d, path);
    lemma_location_words();
}

/// The directives of a location that need an argument.
pub open spec fn takes_one_argument(name: Seq<char>) -> bool {
    ||| name == "proxy_set_header"@ || name == "add_header"@ || name == "proxy_cache"@
    ||| name == "proxy_cache_key"@ || name == "auth_basic"@ || name == "auth_basic_user_file"@
    ||| name == "allow"@ || name == "deny"@ || name == "auth_request"@ || name == "mirror"@
    ||| name == "proxy_ssl_certificate"@ || name == "proxy_ssl_certificate_key"@
    ||| name == "return"@ || name == "proxy_pass"@ || name == "root"@ || name == "alias"@
    ||| name == "expires"@ || name == "proxy_connect_timeout"@ || name == "proxy_read_timeout"@
    ||| name == "gzip"@ || name == "autoindex"@ || name == "proxy_ssl_verify"@
    ||| name == "proxy_cache_valid"@
}

/// A certificate and its key are accepted together.
pub proof fn law_certificate_with_key(
    path: Seq<char>,
    kind: LocationKindV,
    ds: Seq<DirectiveV>,
    c: DirectiveV,
    k: DirectiveV,
    line: usize,
    root: Option<Seq<char>>,
    a: LocationV,
)
    requires
        location_of(path, kind, ds, line, root) == Ok::<LocationV, Seq<char>>(a),
        c.name == "proxy_ssl_certificate"@,
        k.name == "proxy_ssl_certificate_key"@,
        c.args.len() > 0,
        k.args.len() > 0,
    ensures
        location_of(path, kind, ds.push(c).push(k), line, root) matches Ok(b) && b == (LocationV {
            proxy_ssl_certificate: Some(c.args[0]),
            proxy_ssl_certificate_key: Some(k.args[0]),
            ..a
        }),
{
    lemma_steps_push(empty_draft(), ds, c, path);
    lemma_steps_push(empty_draft(), ds.push(c), k, path);
    lemma_location_words();
}

/// What a directive with a time, a switch or a zone does: it sets the one thing
/// that it is about, and is refused when its argument cannot be read.
#[verifier::rlimit(50)]
pub proof fn law_value_directives(
    path: Seq<char>,
    kind: LocationKindV,
    ds: Seq<DirectiveV>,
    d: DirectiveV,
    line: usize,
    root: Option<Seq<char>>,
    a: LocationV,
)
    requires
        location_of(path, kind, ds, line, root) == Ok::<LocationV, Seq<char>>(a),
        d.args.len() > 0,
    ensures
        ({
            let x = d.args[0];
            let b = location_of(path, kind, ds.push(d), line, root);
            &&& d.name == "expires"@ ==> match duration_of(x) {
                Some(t) => b matches Ok(l) && l == (LocationV { expires: Some(t), ..a }),
                None => b is Err,
            }
            &&& d.name == "proxy_connect_timeout"@ ==> match duration_of(x) {
                Some(t) => b matches Ok(l) && l == (LocationV {
                    proxy_connect_timeout: Some(t),
                    ..a
                }),
                None => b is Err,
            }
            &&& d.name == "proxy_read_timeout"@ ==> match duration_of(x) {
                Some(t) => b matches Ok(l) && l == (LocationV { proxy_read_timeout: Some(t), ..a }),
                None => b is Err,
            }
            &&& d.name == "gzip"@ && x == "on"@ ==> (b matches Ok(l) && l == (LocationV {
                gzip: Some(true),
                ..a
            }))
            &&& d.name == "gzip"@ && x == "off"@ ==> (b matches Ok(l) && l == (LocationV {
                gzip: Some(false),
                ..a
            }))
            &&& d.name == "autoindex"@ && x == "on"@ ==> (b matches Ok(l) && l == (LocationV {
                autoindex: true,
                ..a
            }))
            &&& d.name == "autoindex"@ && x == "off"@ ==> (b matches Ok(l) && l == (LocationV {
                autoindex: false,
                ..a
            }))
            &&& d.name == "proxy_ssl_verify"@ && x == "on"@ ==> (b matches Ok(l) && l == (LocationV {
                proxy_ssl_verify: true,
                ..a
            }))
            &&& d.name == "proxy_ssl_verify"@ && x == "off"@ ==> (b matches Ok(l) && l == (
            LocationV { proxy_ssl_verify: false, ..a }))
            &&& (d.name == "gzip"@ || d.name == "autoindex"@ || d.name == "proxy_ssl_verify"@) && x
                != "on"@ && x != "off"@ ==> b is Err
            &&& d.name == "proxy_cache_valid"@ ==> match cache_valid_of(d.args, d.line) {
                Ok(r) => b matches Ok(l) && l == (LocationV {
                    proxy_cache_valid: a.proxy_cache_valid.push(r),
                    ..a
                }),
                Err(_) => b is Err,
            }
            &&& d.name == "limit_req"@ ==> match limit_req_of(d.args, d.line) {
                Ok(r) => b matches Ok(l) && l == (LocationV { limit_req: Some(r), ..a }),
                Err(_) => b is Err,
            }
            &&& d.name == "limit_conn"@ ==> match limit_conn_of(d.args, d.line) {
                Ok(r) => b matches Ok(l) && l == (LocationV { limit_conn: Some(r), ..a }),
                Err(_) => b is Err,
            }
        }),
{
    lemma_steps_push(empty_draft(), ds, d, path);
    lemma_location_words();
}

/// Whether a directive says what a location serves.
pub open spec fn says_what_to_serve(name: Seq<char>) -> bool {
    name == "return"@ || name == "proxy_pass"@ || name == "root"@ || name == "alias"@ || name
        == "metrics"@
}

proof fn lemma_action_stays(l: DraftV, ds: Seq<DirectiveV>, path: Seq<char>)
    requires
        forall|i: int|
            0 <= i < ds.len() ==> !says_what_to_serve((#[trigger] ds[i]).name) && ds[i].name
                != "try_files"@,
    ensures
        location_steps(l, ds, path) matches Ok(t) ==> t.action == l.action && t.try_files
            == l.try_files,
    decreases ds.len(),
{
    if ds.len() > 0 {
        if let Ok(t) = location_step(l, ds[0], path) {
            assert(!says_what_to_serve(ds[0].name));
            assert forall|i: int| 0 <= i < ds.skip(1).len() implies !says_what_to_serve(
                (#[trigger] ds.skip(1)[i]).name,
            ) && ds.skip(1)[i].name != "try_files"@ by {
                assert(ds.skip(1)[i] == ds[i + 1]);
            }
            lemma_action_stays(t, ds.skip(1), path);
        }
    }
}

/// A location serves what its content directive says: an answer with the status
/// and the text, an upstream, a directory above or in place of the path, or the
/// metrics.
#[verifier::rlimit(50)]
pub proof fn law_content_directives(
    path: Seq<char>,
    kind: LocationKindV,
    ds: Seq<DirectiveV>,
    d: DirectiveV,
    line: usize,
    root: Option<Seq<char>>,
    b: LocationV,
)
    requires
        forall|i: int|
            0 <= i < ds.len() ==> !says_what_to_serve((#[trigger] ds[i]).name) && ds[i].name
                != "try_files"@,
        location_of(path, kind, ds.push(d), line, root) == Ok::<LocationV, Seq<char>>(b),
    ensures
        d.name == "metrics"@ ==> b.action is Metrics,
        d.name == "return"@ ==> d.args.len() > 0 && b.action == (ActionV::Return {
            status: number(d.args[0], 65535)->0 as u16,
            body: template_of(
                if d.args.len() > 1 {
                    d.args[1]
                } else {
                    seq![]
                },
            ),
        }) && number(d.args[0], 65535) is Some,
        d.name == "proxy_pass"@ ==> d.args.len() > 0 && b.action == (ActionV::ProxyPass {
            target: d.args[0],
        }),
        d.name == "root"@ ==> d.args.len() > 0 && b.action == (ActionV::Root { dir: d.args[0] }),
        d.name == "alias"@ ==> d.args.len() > 0 && b.action == (ActionV::Alias { dir: d.args[0] }),
        d.name == "try_files"@ ==> root is Some && (b.action matches ActionV::TryFiles {
            root: r,
            entries,
        } && r == root->0 && try_files_of(d) == Ok::<Seq<TryFilesEntryV>, Seq<char>>(entries)),
        b.path == path,
        b.kind == kind,
{
    lemma_steps_push(empty_draft(), ds, d, path);
    lemma_action_stays(empty_draft(), ds, path);
    lemma_location_words();
}

/// A content directive is accepted, whatever the server's own root is: the locations
/// that are fine below some root are so with it. `return` needs a status.
#[verifier::rlimit(50)]
pub proof fn law_content_is_accepted(
    path: Seq<char>,
    kind: LocationKindV,
    ds: Seq<DirectiveV>,
    d: DirectiveV,
    line: usize,
    some_root: Seq<char>,
    root: Option<Seq<char>>,
)
    requires
        forall|i: int|
            0 <= i < ds.len() ==> !says_what_to_serve((#[trigger] ds[i]).name) && ds[i].name
                != "try_files"@,
        location_of(path, kind, ds, line, Some(some_root)) is Ok,
    ensures
        d.name == "metrics"@ ==> location_of(path, kind, ds.push(d), line, root) is Ok,
        (d.name == "proxy_pass"@ || d.name == "root"@ || d.name == "alias"@) ==> (location_of(
            path,
            kind,
            ds.push(d),
            line,
            root,
        ) is Ok <==> d.args.len() > 0),
        d.name == "return"@ ==> (location_of(path, kind, ds.push(d), line, root) is Ok <==> d.args.len()
            > 0 && number(d.args[0], 65535) is Some),
        d.name == "try_files"@ ==> (location_of(path, kind, ds.push(d), line, root) is Ok
            <==> try_files_of(d) is Ok && root is Some),
        root is None ==> location_of(path, kind, ds, line, root) is Err,
        root matches Some(r) ==> (location_of(path, kind, ds, line, root) matches Ok(b) && b.action
            == (ActionV::Root { dir: r })),
{
    lemma_steps_push(empty_draft(), ds, d, path);
    lemma_action_stays(empty_draft(), ds, path);
    lemma_location_words();
}

/// Beside `try_files` a `root` says where its candidates are; any other content directive
/// refuses the block.
#[verifier::rlimit(50)]
pub proof fn law_try_files_beside_content(
    path: Seq<char>,
    kind: LocationKindV,
    ds: Seq<DirectiveV>,
    t: DirectiveV,
    d: DirectiveV,
    line: usize,
    some_root: Seq<char>,
    root: Option<Seq<char>>,
    entries: Seq<TryFilesEntryV>,
)
    requires
        forall|i: int|
            0 <= i < ds.len() ==> !says_what_to_serve((#[trigger] ds[i]).name) && ds[i].name
                != "try_files"@,
        location_of(path, kind, ds, line, Some(some_root)) is Ok,
        t.name == "try_files"@,
        try_files_of(t) == Ok::<Seq<TryFilesEntryV>, Seq<char>>(entries),
        d.args.len() > 0,
    ensures
        d.name == "root"@ ==> (location_of(path, kind, ds.push(t).push(d), line, root) matches Ok(b)
            && b.action == (ActionV::TryFiles { root: d.args[0], entries })),
        d.name == "return"@ || d.name == "proxy_pass"@ || d.name == "alias"@ || d.name
            == "metrics"@ ==> location_of(path, kind, ds.push(t).push(d), line, root) is Err,
{
    lemma_steps_push(empty_draft(), ds, t, path);
    lemma_steps_push(empty_draft(), ds.push(t), d, path);
    lemma_action_stays(empty_draft(), ds, path);
    lemma_location_words();
}

proof fn lemma_action_set(l: DraftV, ds: Seq<DirectiveV>, path: Seq<char>)
    requires
        l.action is Some,
    ensures
        location_steps(l, ds, path) matches Ok(t) ==> t.action == l.action && forall|i: int|
            0 <= i < ds.len() ==> !says_what_to_serve((#[trigger] ds[i]).name),
    decreases ds.len(),
{
    if ds.len() > 0 {
        if let Ok(t) = location_step(l, ds[0], path) {
            lemma_action_set(t, ds.skip(1), path);
            if let Ok(u) = location_steps(l, ds, path) {
                assert forall|i: int| 0 <= i < ds.len() implies !says_what_to_serve(
                    (#[trigger] ds[i]).name,
                ) by {
                    if i > 0 {
                        assert(ds.skip(1)[i - 1] == ds[i]);
                    }
                }
            }
        }
    }
}

/// No location serves two things: a second content directive refuses the block,
/// wherever the two stand.
pub proof fn law_one_content_directive(
    path: Seq<char>,
    kind: LocationKindV,
    ds: Seq<DirectiveV>,
    line: usize,
    root: Option<Seq<char>>,
    i: int,
    j: int,
)
    requires
        0 <= i < j < ds.len(),
        says_what_to_serve(ds[i].name),
        says_what_to_serve(ds[j].name),
    ensures
        location_of(path, kind, ds, line, root) is Err,
{
    lemma_two_contents(empty_draft(), ds, path, i, j);
}

proof fn lemma_two_contents(l: DraftV, ds: Seq<DirectiveV>, path: Seq<char>, i: int, j: int)
    requires
        0 <= i < j < ds.len(),
        says_what_to_serve(ds[i].name),
        says_what_to_serve(ds[j].name),
    ensures
        location_steps(l, ds, path) is Err,
    decreases ds.len(),
{
    if let Ok(t) = location_step(l, ds[0], path) {
        let rest = ds.skip(1);
        assert(rest[j - 1] == ds[j]);
        if i == 0 {
            lemma_action_set(t, rest, path);
        } else {
            assert(rest[i - 1] == ds[i]);
            lemma_two_contents(t, rest, path, i - 1, j - 1);
        }
    }
}

/// A location that is protected has a file with passwords, and one that shows a
/// certificate to its upstream has the key to it.
pub proof fn law_location_is_complete(
    path: Seq<char>,
    kind: LocationKindV,
    ds: Seq<DirectiveV>,
    line: usize,
    root: Option<Seq<char>>,
)
    ensures
        location_of(path, kind, ds, line, root) matches Ok(l) ==> {
            &&& l.auth_basic_realm is Some ==> l.auth_basic_user_file is Some
            &&& l.proxy_ssl_certificate is Some <==> l.proxy_ssl_certificate_key is Some
        },
{
}

/// Every word that may begin a directive of a location.
pub open spec fn location_words(name: Seq<char>) -> bool {
    ||| says_what_to_serve(name)
    ||| name == "proxy_set_header"@ || name == "add_header"@ || name == "proxy_cache"@
    ||| name == "proxy_cache_key"@ || name == "auth_basic"@ || name == "auth_basic_user_file"@
    ||| name == "allow"@ || name == "deny"@ || name == "auth_request"@ || name == "mirror"@
    ||| name == "proxy_ssl_certificate"@ || name == "proxy_ssl_certificate_key"@
    ||| name == "expires"@ || name == "proxy_connect_timeout"@ || name == "proxy_read_timeout"@
    ||| name == "gzip"@ || name == "autoindex"@ || name == "proxy_ssl_verify"@
    ||| name == "proxy_cache_valid"@ || name == "limit_req"@ || name == "limit_conn"@
    ||| name == "try_files"@ || no_effect_in_location(name)
}

/// Words that are accepted in a location and change nothing.
pub open spec fn no_effect_in_location(name: Seq<char>) -> bool {
    ||| name == "proxy_cache_bypass"@ || name == "proxy_no_cache"@ || name == "proxy_cache_lock"@
    ||| name == "proxy_cache_use_stale"@ || name == "proxy_cache_revalidate"@
    ||| name == "proxy_cache_methods"@ || name == "proxy_cache_min_uses"@
    ||| name == "limit_req_status"@ || name == "limit_conn_status"@ || name == "include"@
    ||| name == "index"@ || name == "proxy_buffering"@ || name == "proxy_send_timeout"@
    ||| name == "proxy_next_upstream"@ || name == "proxy_hide_header"@
    ||| name == "proxy_pass_header"@ || name == "proxy_redirect"@
    ||| name == "proxy_ssl_trusted_certificate"@ || name == "proxy_ssl_server_name"@
    ||| name == "proxy_ssl_session_reuse"@ || name == "proxy_ssl_protocols"@
    ||| name == "proxy_ssl_ciphers"@
}

/// A misspelt directive refuses the location, and a word without effect leaves it
/// as it is.
#[verifier::rlimit(50)]
pub proof fn law_location_words(
    path: Seq<char>,
    kind: LocationKindV,
    ds: Seq<DirectiveV>,
    d: DirectiveV,
    line: usize,
    root: Option<Seq<char>>,
)
    ensures
        !location_words(d.name) ==> location_of(path, kind, ds.push(d), line, root) is Err,
        no_effect_in_location(d.name) ==> location_of(path, kind, ds.push(d), line, root)
            == location_of(path, kind, ds, line, root),
{
    lemma_steps_push(empty_draft(), ds, d, path);
    lemma_location_words();
}

/// `=` in front of a path is an exact match; the other marks are refused; a path
/// alone is a prefix.
#[verifier::rlimit(50)]
pub proof fn law_location_pattern(args: Seq<Seq<char>>, line: usize)
    requires
        args.len() > 0,
    ensures
        args[0] == seq!['='] && args.len() > 1 ==> pattern_of(args, line) == Ok::<
            (LocationKindV, Seq<char>),
            Seq<char>,
        >((LocationKindV::Exact, args[1])),
        args[0] == seq!['='] && args.len() == 1 ==> pattern_of(args, line) is Err,
        args[0] == seq!['~'] || args[0] == seq!['~', '*'] || args[0] == seq!['^', '~']
            ==> pattern_of(args, line) is Err,
        args[0] != seq!['='] && args[0] != seq!['~'] && args[0] != seq!['~', '*'] && args[0] != seq![
            '^',
            '~',
        ] ==> pattern_of(args, line) == Ok::<(LocationKindV, Seq<char>), Seq<char>>(
            (LocationKindV::Prefix, args[0]),
        ),
{
    reveal_strlit("=");
    reveal_strlit("~");
    reveal_strlit("~*");
    reveal_strlit("^~");
    assert("="@ =~= seq!['=']);
    assert("~"@ =~= seq!['~']);
    assert("~*"@ =~= seq!['~', '*']);
    assert("^~"@ =~= seq!['^', '~']);
    assert(seq!['='][0] == '=' && seq!['~'][0] == '~');
    assert(seq!['~', '*'].len() == 2 && seq!['^', '~'].len() == 2 && seq!['='].len() == 1);
    assert(seq!['~', '*'][0] == '~' && seq!['^', '~'][0] == '^');
}

proof fn lemma_try_entries(args: Seq<Seq<char>>, i: int, line: usize)
    requires
        0 <= i <= args.len(),
    ensures
        try_entries(args, i, line) matches Ok(es) ==> {
            &&& es.len() == args.len() - i
            &&& forall|k: int|
                i <= k < args.len() ==> {
                    let e = es[k - i];
                    if (#[trigger] args[k]).len() > 0 && args[k][0] == '=' {
                        k == args.len() - 1 && number(args[k].skip(1), 65535) is Some && e
                            == TryFilesEntryV::Status(number(args[k].skip(1), 65535)->0 as u16)
                    } else {
                        e == TryFilesEntryV::Path(template_of(args[k]))
                    }
                }
        },
        try_entries(args, i, line) is Err ==> exists|k: int|
            i <= k < args.len() && (#[trigger] args[k]).len() > 0 && args[k][0] == '=' && (k
                < args.len() - 1 || number(args[k].skip(1), 65535) is None),
    decreases args.len() - i,
{
    if i < args.len() {
        reveal_strlit("=");
        assert("="@ =~= seq!['=']);
        lemma_try_entries(args, i + 1, line);
        let x = args[i];
        law_prefix_goes_off(x, "="@);
        if x.len() > 0 && x[0] == '=' {
            assert(x =~= "="@ + x.skip(1));
            assert(after_prefix(x, "="@) is Some);
        } else if after_prefix(x, "="@) is Some {
            assert(x[0] == '=');
        }
        if let Ok(es) = try_entries(args, i, line) {
            let rest = try_entries(args, i + 1, line)->Ok_0;
            assert forall|k: int| i <= k < args.len() implies {
                let e = es[k - i];
                if (#[trigger] args[k]).len() > 0 && args[k][0] == '=' {
                    k == args.len() - 1 && number(args[k].skip(1), 65535) is Some && e
                        == TryFilesEntryV::Status(number(args[k].skip(1), 65535)->0 as u16)
                } else {
                    e == TryFilesEntryV::Path(template_of(args[k]))
                }
            } by {
                if k > i {
                    assert(es[k - i] == rest[k - i - 1]);
                }
            }
        }
    }
}

/// The candidates of `try_files` are its arguments, in order: `=N`, which may only
/// stand last, is a status, and everything else a path.
pub proof fn law_try_files_entries(d: DirectiveV)
    ensures
        match try_files_of(d) {
            Ok(es) => {
                &&& d.args.len() >= 2
                &&& es.len() == d.args.len()
                &&& forall|k: int|
                    0 <= k < d.args.len() ==> {
                        if (#[trigger] d.args[k]).len() > 0 && d.args[k][0] == '=' {
                            k == d.args.len() - 1 && number(d.args[k].skip(1), 65535) is Some
                                && es[k] == TryFilesEntryV::Status(
                                number(d.args[k].skip(1), 65535)->0 as u16,
                            )
                        } else {
                            es[k] == TryFilesEntryV::Path(template_of(d.args[k]))
                        }
                    }
            },
            Err(_) => d.args.len() < 2 || exists|k: int|
                0 <= k < d.args.len() && (#[trigger] d.args[k]).len() > 0 && d.args[k][0] == '='
                    && (k < d.args.len() - 1 || number(d.args[k].skip(1), 65535) is None),
        },
{
    lemma_try_entries(d.args, 0, d.line);
}

} // verus!
