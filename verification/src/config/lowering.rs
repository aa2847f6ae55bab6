//! Lowers a generic [`Directive`] tree into the typed [`Config`] model,
//! validating directive context and arguments along the way.

use super::ast::{
    default_health_check, HealthCheckCfg, HealthCheckCfgV, LbMethod, plain_server, Upstream,
    UpstreamServer, UpstreamServerV, UpstreamV,
};
use super::lexer::{at_line, line_prefix};
use super::parser::{Directive, directive_view, directive_views, DirectiveV, lemma_view_block};
use super::values::{duration_of, parse_duration};
use crate::text::{
    after_prefix, lemma_views_push, number, opt_view, parse_number, result_view, same,
    strip_prefix, views,
};
use vstd::prelude::*;
use vstd::string::*;

verus! {

// ---------------------------------------------------------------------------
// Diagnostics and arguments
// ---------------------------------------------------------------------------

/// `line N: ` and one piece of text.
pub open spec fn msg1(line: usize, a: Seq<char>) -> Seq<char> {
    at_line(line) + a
}

/// `line N: ` and three pieces of text.
pub open spec fn msg3(line: usize, a: Seq<char>, b: Seq<char>, c: Seq<char>) -> Seq<char> {
    at_line(line) + a + b + c
}

pub(crate) fn fail1(line: usize, a: &str) -> (e: String)
    ensures
        e@ == msg1(line, a@),
{
    let mut e = line_prefix(line);
    e.append(a);
    e
}

pub(crate) fn fail3(line: usize, a: &str, b: &str, c: &str) -> (e: String)
    ensures
        e@ == msg3(line, a@, b@, c@),
{
    let mut e = line_prefix(line);
    e.append(a);
    e.append(b);
    e.append(c);
    e
}

/// The first argument of a directive.
pub open spec fn arg1_of(d: DirectiveV) -> Result<Seq<char>, Seq<char>> {
    if d.args.len() > 0 {
        Ok(d.args[0])
    } else {
        Err(msg3(d.line, "directive '"@, d.name, "' requires an argument"@))
    }
}

pub(crate) fn arg1(d: &Directive) -> (r: Result<String, String>)
    ensures
        result_view(r) == arg1_of(directive_view(*d)),
{
    if d.args.len() > 0 {
        assert(views(d.args@)[0] == d.args@[0]@);
        Ok(d.args[0].clone())
    } else {
        Err(fail3(d.line, "directive '", d.name.as_str(), "' requires an argument"))
    }
}

/// The second argument of a directive, or nothing.
pub open spec fn arg2_of(d: DirectiveV) -> Seq<char> {
    if d.args.len() > 1 {
        d.args[1]
    } else {
        seq![]
    }
}

pub(crate) fn arg2(d: &Directive) -> (r: String)
    ensures
        r@ == arg2_of(directive_view(*d)),
{
    if d.args.len() > 1 {
        assert(views(d.args@)[1] == d.args@[1]@);
        d.args[1].clone()
    } else {
        String::new()
    }
}

/// The first argument of a directive, if there is one.
pub open spec fn first_of(d: DirectiveV) -> Option<Seq<char>> {
    if d.args.len() > 0 {
        Some(d.args[0])
    } else {
        None
    }
}

pub(crate) fn first(d: &Directive) -> (r: Option<String>)
    ensures
        opt_view(r) == first_of(directive_view(*d)),
{
    if d.args.len() > 0 {
        assert(views(d.args@)[0] == d.args@[0]@);
        Some(d.args[0].clone())
    } else {
        None
    }
}

/// The block of a directive.
pub open spec fn block_in(d: DirectiveV) -> Result<Seq<DirectiveV>, Seq<char>> {
    match d.block {
        Some(b) => Ok(b),
        None => Err(msg3(d.line, "directive '"@, d.name, "' requires a { } block"@)),
    }
}

pub(crate) fn expect_block(d: &Directive) -> (r: Result<&Vec<Directive>, String>)
    ensures
        match r {
            Ok(b) => block_in(directive_view(*d)) == Ok::<Seq<DirectiveV>, Seq<char>>(
                directive_views(b@),
            ),
            Err(e) => block_in(directive_view(*d)) == Err::<Seq<DirectiveV>, Seq<char>>(e@),
        },
{
    match &d.block {
        Some(b) => {
            proof {
                lemma_view_block(*d);
            }
            Ok(b)
        },
        None => Err(fail3(d.line, "directive '", d.name.as_str(), "' requires a { } block")),
    }
}

/// Whether one of `args` is `word`.
pub open spec fn names(args: Seq<Seq<char>>, word: Seq<char>) -> bool {
    args.contains(word)
}

pub(crate) fn has_arg(d: &Directive, word: &str) -> (r: bool)
    ensures
        r == names(directive_view(*d).args, word@),
{
    let ghost all = views(d.args@);
    let mut i: usize = 0;
    while i < d.args.len()
        invariant
            i <= d.args@.len(),
            all == views(d.args@),
            forall|k: int| 0 <= k < i ==> all[k] != word@,
        decreases d.args@.len() - i,
    {
        if same(d.args[i].as_str(), word) {
            assert(all[i as int] == word@);
            return true;
        }
        i = i + 1;
    }
    false
}

/// The message for a directive that does not belong where it stands.
pub open spec fn unknown_in(d: DirectiveV, place: Seq<char>) -> Seq<char> {
    at_line(d.line) + "unknown directive '"@ + d.name + "' in "@ + place + " context"@
}

pub(crate) fn unknown(d: &Directive, place: &str) -> (e: String)
    ensures
        e@ == unknown_in(directive_view(*d), place@),
{
    let mut e = line_prefix(d.line);
    e.append("unknown directive '");
    e.append(d.name.as_str());
    e.append("' in ");
    e.append(place);
    e.append(" context");
    e
}

// ---------------------------------------------------------------------------
// upstream
// ---------------------------------------------------------------------------

/// `NAME=NUMBER` flags: the number, or the message that names the bad value.
pub open spec fn flag_number(v: Seq<char>, max: nat, line: usize, what: Seq<char>) -> Result<
    nat,
    Seq<char>,
> {
    match number(v, max) {
        Some(n) => Ok(n),
        None => Err(msg3(line, what, v, "'"@)),
    }
}

fn parse_flag(v: &str, max: u64, line: usize, what: &str) -> (r: Result<u64, String>)
    ensures
        match r {
            Ok(n) => flag_number(v@, max as nat, line, what@) == Ok::<nat, Seq<char>>(n as nat) && n
                <= max,
            Err(e) => flag_number(v@, max as nat, line, what@) == Err::<nat, Seq<char>>(e@),
        },
{
    match parse_number(v, max) {
        Some(n) => Ok(n),
        None => Err(fail3(line, what, v, "'")),
    }
}

/// One flag behind the address of an upstream server. Unknown flags are
/// accepted for forward compatibility.
pub open spec fn server_flag(s: UpstreamServerV, a: Seq<char>, line: usize) -> Result<
    UpstreamServerV,
    Seq<char>,
> {
    match after_prefix(a, "weight="@) {
        Some(w) => match flag_number(w, u32::MAX as nat, line, "invalid weight '"@) {
            Ok(n) => Ok(UpstreamServerV { weight: n as u32, ..s }),
            Err(e) => Err(e),
        },
        None => match after_prefix(a, "max_fails="@) {
            Some(v) => match flag_number(v, u32::MAX as nat, line, "invalid max_fails '"@) {
                Ok(n) => Ok(UpstreamServerV { max_fails: n as u32, ..s }),
                Err(e) => Err(e),
            },
            None => match after_prefix(a, "fail_timeout="@) {
                Some(t) => match duration_of(t) {
                    Some(d) => Ok(UpstreamServerV { fail_timeout: d, ..s }),
                    None => Err(
                        msg3(
                            line,
                            "invalid fail_timeout '"@,
                            t,
                            "' (expected e.g. '10s', '500ms', '1m')"@,
                        ),
                    ),
                },
                None => if a == "backup"@ {
                    Ok(UpstreamServerV { backup: true, ..s })
                } else if a == "down"@ {
                    Ok(UpstreamServerV { down: true, ..s })
                } else {
                    Ok(s)
                },
            },
        },
    }
}

/// The flags of an upstream server, applied from left to right.
pub open spec fn server_flags(s: UpstreamServerV, args: Seq<Seq<char>>, line: usize) -> Result<
    UpstreamServerV,
    Seq<char>,
>
    decreases args.len(),
{
    if args.len() == 0 {
        Ok(s)
    } else {
        match server_flag(s, args[0], line) {
            Ok(t) => server_flags(t, args.skip(1), line),
            Err(e) => Err(e),
        }
    }
}

fn apply_flag(s: UpstreamServer, a: &str, line: usize) -> (r: Result<UpstreamServer, String>)
    ensures
        result_view(r) == server_flag(s@, a@, line),
{
    let mut s = s;
    if let Some(w) = strip_prefix(a, "weight=") {
        match parse_flag(w, u32::MAX as u64, line, "invalid weight '") {
            Ok(n) => {
                s.weight = n as u32;
            },
            Err(e) => {
                return Err(e);
            },
        }
    } else if let Some(v) = strip_prefix(a, "max_fails=") {
        match parse_flag(v, u32::MAX as u64, line, "invalid max_fails '") {
            Ok(n) => {
                s.max_fails = n as u32;
            },
            Err(e) => {
                return Err(e);
            },
        }
    } else if let Some(t) = strip_prefix(a, "fail_timeout=") {
        match parse_duration(t) {
            Some(d) => {
                s.fail_timeout = d;
            },
            None => {
                return Err(
                    fail3(
                        line,
                        "invalid fail_timeout '",
                        t,
                        "' (expected e.g. '10s', '500ms', '1m')",
                    ),
                );
            },
        }
    } else if same(a, "backup") {
        s.backup = true;
    } else if same(a, "down") {
        s.down = true;
    }
    Ok(s)
}

/// A `server` line of an upstream.
pub open spec fn upstream_server(d: DirectiveV) -> Result<UpstreamServerV, Seq<char>> {
    if d.args.len() == 0 {
        Err(msg1(d.line, "'server' requires an address"@))
    } else {
        server_flags(plain_server(d.args[0]), d.args.skip(1), d.line)
    }
}

fn build_upstream_server(d: &Directive) -> (r: Result<UpstreamServer, String>)
    ensures
        result_view(r) == upstream_server(directive_view(*d)),
{
    let ghost args = views(d.args@);
    if d.args.len() == 0 {
        return Err(fail1(d.line, "'server' requires an address"));
    }
    let mut s = UpstreamServer::default();
    s.addr = d.args[0].clone();
    let mut i: usize = 1;
    assert(args[0] == d.args@[0]@);
    let ghost start = s@;
    while i < d.args.len()
        invariant
            1 <= i <= d.args@.len(),
            args == views(d.args@),
            start == plain_server(args[0]),
            server_flags(s@, args.skip(i as int), d.line) == server_flags(
                start,
                args.skip(1),
                d.line,
            ),
        decreases d.args@.len() - i,
    {
        let ghost rest = args.skip(i as int);
        assert(rest[0] == d.args@[i as int]@);
        assert(rest.skip(1) == args.skip(i + 1));
        match apply_flag(s, d.args[i].as_str(), d.line) {
            Ok(t) => {
                s = t;
            },
            Err(e) => {
                return Err(e);
            },
        }
        i = i + 1;
    }
    assert(args.skip(i as int).len() == 0);
    Ok(s)
}

/// One argument of `health_check`. Unknown arguments are ignored.
pub open spec fn probe_arg(hc: HealthCheckCfgV, a: Seq<char>, line: usize) -> Result<
    HealthCheckCfgV,
    Seq<char>,
> {
    match after_prefix(a, "uri="@) {
        Some(v) => Ok(HealthCheckCfgV { uri: v, ..hc }),
        None => match after_prefix(a, "interval="@) {
            Some(v) => match duration_of(v) {
                Some(d) => Ok(HealthCheckCfgV { interval: d, ..hc }),
                None => Err(msg3(line, "invalid health_check interval '"@, v, "'"@)),
            },
            None => match after_prefix(a, "timeout="@) {
                Some(v) => match duration_of(v) {
                    Some(d) => Ok(HealthCheckCfgV { timeout: d, ..hc }),
                    None => Err(msg3(line, "invalid health_check timeout '"@, v, "'"@)),
                },
                None => probe_number(hc, a, line),
            },
        },
    }
}

/// The numeric arguments of `health_check`.
pub open spec fn probe_number(hc: HealthCheckCfgV, a: Seq<char>, line: usize) -> Result<
    HealthCheckCfgV,
    Seq<char>,
> {
    match after_prefix(a, "fails="@) {
        Some(v) => match flag_number(v, u32::MAX as nat, line, "invalid health_check fails '"@) {
            Ok(n) => Ok(HealthCheckCfgV { fails: n as u32, ..hc }),
            Err(e) => Err(e),
        },
        None => match after_prefix(a, "passes="@) {
            Some(v) => match flag_number(v, u32::MAX as nat, line, "invalid health_check passes '"@) {
                Ok(n) => Ok(HealthCheckCfgV { passes: n as u32, ..hc }),
                Err(e) => Err(e),
            },
            None => match after_prefix(a, "match="@) {
                Some(v) => match flag_number(
                    v,
                    u16::MAX as nat,
                    line,
                    "invalid health_check match status '"@,
                ) {
                    Ok(n) => Ok(HealthCheckCfgV { expected_status: n as u16, ..hc }),
                    Err(e) => Err(e),
                },
                None => Ok(hc),
            },
        },
    }
}

/// The arguments of `health_check`, applied from left to right.
pub open spec fn probe_args(hc: HealthCheckCfgV, args: Seq<Seq<char>>, line: usize) -> Result<
    HealthCheckCfgV,
    Seq<char>,
>
    decreases args.len(),
{
    if args.len() == 0 {
        Ok(hc)
    } else {
        match probe_arg(hc, args[0], line) {
            Ok(t) => probe_args(t, args.skip(1), line),
            Err(e) => Err(e),
        }
    }
}

fn apply_probe_arg(hc: HealthCheckCfg, a: &str, line: usize) -> (r: Result<HealthCheckCfg, String>)
    ensures
        result_view(r) == probe_arg(hc@, a@, line),
{
    let mut hc = hc;
    if let Some(v) = strip_prefix(a, "uri=") {
        hc.uri = v.to_owned();
    } else if let Some(v) = strip_prefix(a, "interval=") {
        match parse_duration(v) {
            Some(d) => {
                hc.interval = d;
            },
            None => {
                return Err(fail3(line, "invalid health_check interval '", v, "'"));
            },
        }
    } else if let Some(v) = strip_prefix(a, "timeout=") {
        match parse_duration(v) {
            Some(d) => {
                hc.timeout = d;
            },
            None => {
                return Err(fail3(line, "invalid health_check timeout '", v, "'"));
            },
        }
    } else if let Some(v) = strip_prefix(a, "fails=") {
        match parse_flag(v, u32::MAX as u64, line, "invalid health_check fails '") {
            Ok(n) => {
                hc.fails = n as u32;
            },
            Err(e) => {
                return Err(e);
            },
        }
    } else if let Some(v) = strip_prefix(a, "passes=") {
        match parse_flag(v, u32::MAX as u64, line, "invalid health_check passes '") {
            Ok(n) => {
                hc.passes = n as u32;
            },
            Err(e) => {
                return Err(e);
            },
        }
    } else if let Some(v) = strip_prefix(a, "match=") {
        match parse_flag(v, u16::MAX as u64, line, "invalid health_check match status '") {
            Ok(n) => {
                hc.expected_status = n as u16;
            },
            Err(e) => {
                return Err(e);
            },
        }
    }
    Ok(hc)
}

/// Parse `health_check uri=/path interval=10s fails=2 passes=2 timeout=2s match=200;`
/// All arguments optional; missing values fall back to `HealthCheckCfg::default()`.
fn parse_health_check(args: &Vec<String>, line: usize) -> (r: Result<HealthCheckCfg, String>)
    ensures
        result_view(r) == probe_args(default_health_check(), views(args@), line),
{
    let ghost all = views(args@);
    let mut hc = HealthCheckCfg::default();
    let mut i: usize = 0;
    assert(all.skip(0) == all);
    while i < args.len()
        invariant
            i <= args@.len(),
            all == views(args@),
            probe_args(hc@, all.skip(i as int), line) == probe_args(
                default_health_check(),
                all,
                line,
            ),
        decreases args@.len() - i,
    {
        let ghost rest = all.skip(i as int);
        assert(rest[0] == args@[i as int]@);
        assert(rest.skip(1) == all.skip(i + 1));
        match apply_probe_arg(hc, args[i].as_str(), line) {
            Ok(t) => {
                hc = t;
            },
            Err(e) => {
                return Err(e);
            },
        }
        i = i + 1;
    }
    assert(all.skip(i as int).len() == 0);
    Ok(hc)
}

/// One directive of an upstream block.
pub open spec fn upstream_step(u: UpstreamV, d: DirectiveV) -> Result<UpstreamV, Seq<char>> {
    if d.name == "server"@ {
        match upstream_server(d) {
            Ok(s) => Ok(UpstreamV { servers: u.servers.push(s), ..u }),
            Err(e) => Err(e),
        }
    } else if d.name == "least_conn"@ {
        Ok(UpstreamV { method: LbMethod::LeastConn, ..u })
    } else if d.name == "ip_hash"@ {
        Ok(UpstreamV { method: LbMethod::IpHash, ..u })
    } else if d.name == "hash"@ || d.name == "keepalive"@ || d.name == "zone"@ {
        Ok(u)
    } else if d.name == "health_check"@ {
        match probe_args(default_health_check(), d.args, d.line) {
            Ok(hc) => Ok(UpstreamV { health_check: Some(hc), ..u }),
            Err(e) => Err(e),
        }
    } else {
        Err(unknown_in(d, "upstream"@))
    }
}

pub open spec fn upstream_steps(u: UpstreamV, ds: Seq<DirectiveV>) -> Result<UpstreamV, Seq<char>>
    decreases ds.len(),
{
    if ds.len() == 0 {
        Ok(u)
    } else {
        match upstream_step(u, ds[0]) {
            Ok(t) => upstream_steps(t, ds.skip(1)),
            Err(e) => Err(e),
        }
    }
}

/// An upstream in which nothing has been set.
pub open spec fn empty_upstream(name: Seq<char>) -> UpstreamV {
    UpstreamV { name, method: LbMethod::RoundRobin, servers: seq![], health_check: None }
}

/// The upstream `name` that a block describes.
pub open spec fn upstream_of(name: Seq<char>, ds: Seq<DirectiveV>, line: usize) -> Result<
    UpstreamV,
    Seq<char>,
> {
    match upstream_steps(empty_upstream(name), ds) {
        Err(e) => Err(e),
        Ok(u) => if u.servers.len() == 0 {
            Err(msg3(line, "upstream '"@, name, "' has no servers"@))
        } else {
            Ok(u)
        },
    }
}

fn apply_upstream(u: Upstream, d: &Directive) -> (r: Result<Upstream, String>)
    ensures
        result_view(r) == upstream_step(u@, directive_view(*d)),
{
    let mut u = u;
    let name = d.name.as_str();
    if same(name, "server") {
        match build_upstream_server(d) {
            Ok(s) => {
                proof {
                    lemma_views_push(u.servers@, s);
                }
                u.servers.push(s);
            },
            Err(e) => {
                return Err(e);
            },
        }
    } else if same(name, "least_conn") {
        u.method = LbMethod::LeastConn;
    } else if same(name, "ip_hash") {
        u.method = LbMethod::IpHash;
    } else if same(name, "hash") || same(name, "keepalive") || same(name, "zone") {
        // Accepted; not used.
    } else if same(name, "health_check") {
        match parse_health_check(&d.args, d.line) {
            Ok(hc) => {
                u.health_check = Some(hc);
            },
            Err(e) => {
                return Err(e);
            },
        }
    } else {
        return Err(unknown(d, "upstream"));
    }
    Ok(u)
}

pub(crate) fn build_upstream(name: String, dirs: &Vec<Directive>, line: usize) -> (r: Result<Upstream, String>)
    ensures
        result_view(r) == upstream_of(name@, directive_views(dirs@), line),
{
    let ghost all = directive_views(dirs@);
    let ghost label = name@;
    let mut u = Upstream {
        name,
        method: LbMethod::RoundRobin,
        servers: Vec::new(),
        health_check: None,
    };
    assert(views(u.servers@) =~= seq![]);
    let mut i: usize = 0;
    assert(all.skip(0) == all);
    while i < dirs.len()
        invariant
            i <= dirs@.len(),
            all == directive_views(dirs@),
            label == name@,
            upstream_steps(u@, all.skip(i as int)) == upstream_steps(empty_upstream(label), all),
        decreases dirs@.len() - i,
    {
        let ghost rest = all.skip(i as int);
        assert(rest[0] == directive_view(dirs@[i as int]));
        assert(rest.skip(1) == all.skip(i + 1));
        match apply_upstream(u, &dirs[i]) {
            Ok(t) => {
                u = t;
            },
            Err(e) => {
                return Err(e);
            },
        }
        i = i + 1;
    }
    assert(all.skip(i as int).len() == 0);
    proof {
        lemma_upstream_name(empty_upstream(label), all);
    }
    if u.servers.len() == 0 {
        return Err(fail3(line, "upstream '", u.name.as_str(), "' has no servers"));
    }
    Ok(u)
}

proof fn lemma_upstream_name(u: UpstreamV, ds: Seq<DirectiveV>)
    ensures
        upstream_steps(u, ds) matches Ok(t) ==> t.name == u.name,
    decreases ds.len(),
{
    if ds.len() > 0 {
        match upstream_step(u, ds[0]) {
            Ok(t) => lemma_upstream_name(t, ds.skip(1)),
            Err(_) => {},
        }
    }
}

} // verus!
