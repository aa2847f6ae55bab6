//! Laws on a request's way: which server and location it belongs to, what stands in
//! its way, and what the answer carries.

use super::cache::lemma_plain_name;
use super::files::{is_text, lemma_decimal_plain, lemma_text, tells};

use crate::app::runtime::{
    ActionRtV, bare_host, dynamic_host, exact_match, first_pattern, host_name, last_value,
    LocationRtV, PoolsV, prefix_match, ProxyTargetV, regex_matches, resolution, resolved_host,
    routed, scheme_split, ServerStateV, vhost_for, vhost_from, VirtualHostV,
};
use crate::auth_request::{asked_for, asking_headers, Reply};
use crate::body::ResponseV;
use crate::config::ast::{MapDeclV, MapPatternV, MapRuleV};
use crate::gzip::compressed;
use crate::headers::{
    header_map, header_text, is_header_name, is_header_value, is_plain, lemma_plain_concat,
    lemma_plain_value, values_at,
};
use crate::http_date::{http_date, lemma_date_is_plain};
use crate::limit::{acquired, in_flight, LimitConnZoneV, LimitReqZoneV, released};
use crate::metrics::{exposition, Metrics};
use crate::mirror::{shadow_headers_of, urls_of};
use crate::pipeline::{
    after_identity, after_rate, after_reply, FlowV, given_back, NextV, proceed, Stage, tag_of,
};
use crate::request_ctx::{RequestCtx, Uri, var_value};
use crate::server::{
    default_rule, finished_response, literal_rule, map_choice, map_outputs, metrics_response,
    opening_of, OpeningV, rendered_with, requested_host, second_after, segment_with, step_for,
    StepV, with_add_headers, with_alt_svc, with_expires,
};

use crate::template::{rendered, segment_text, SegmentV};
use crate::text::{
    decimal, lemma_position, lemma_position_is, lower, number, split_at, trimmed, without_trailing,
};
use vstd::prelude::*;
use vstd::string::*;
use vstd::utf8::encode_utf8;

verus! {

// ---------------------------------------------------------------------------
// Servers and locations
// ---------------------------------------------------------------------------

/// The host of a request is what stands in front of the first colon, in lower case.
pub proof fn law_host_name(a: Seq<char>, port: Seq<char>)
    requires
        !a.contains(':'),
    ensures
        host_name(a) == lower(a),
        host_name(a + seq![':'] + port) == lower(a),
{
    let s = a + seq![':'] + port;
    lemma_position_is(a, ':');
    assert(split_at(a, ':')[0] == a);
    assert(s[a.len() as int] == ':');
    assert forall|k: int| 0 <= k < a.len() implies s[k] != ':' by {
        assert(s[k] == a[k]);
    }
    lemma_position(s, ':', a.len() as int);
    assert(split_at(s, ':')[0] == s.take(a.len() as int));
    assert(s.take(a.len() as int) =~= a);
}

proof fn lemma_vhost(vhosts: Seq<VirtualHostV>, host: Seq<char>, i: int)
    requires
        0 <= i <= vhosts.len(),
    ensures
        ({
            let k = vhost_from(vhosts, host, i);
            (i <= k < vhosts.len() && is_called(vhosts[k], host) && forall|j: int|
                i <= j < k ==> !is_called(#[trigger] vhosts[j], host)) || (k == 0 && forall|j: int|
                i <= j < vhosts.len() ==> !is_called(#[trigger] vhosts[j], host))
        }),
    decreases vhosts.len() - i,
{
    if i < vhosts.len() && !is_called(vhosts[i], host) {
        lemma_vhost(vhosts, host, i + 1);
    }
}

/// Whether a server has this name, in whatever case.
pub open spec fn is_called(v: VirtualHostV, host: Seq<char>) -> bool {
    v.server_name is Some && lower(v.server_name->0) == host
}

/// A request goes to the first server with the name that it asks for, and to the first
/// of all when none has it or it names no host.
pub proof fn law_first_server_by_name(vhosts: Seq<VirtualHostV>, name: Seq<char>, k: int)
    requires
        !name.contains(':'),
        0 <= k < vhosts.len(),
    ensures
        is_called(vhosts[k], lower(name)) && (forall|j: int|
            0 <= j < k ==> !is_called(#[trigger] vhosts[j], lower(name))) ==> vhost_for(
            vhosts,
            Some(name),
        ) == k,
        (forall|j: int| 0 <= j < vhosts.len() ==> !is_called(#[trigger] vhosts[j], lower(name)))
            ==> vhost_for(vhosts, Some(name)) == 0,
        vhost_for(vhosts, None) == 0,
{
    law_host_name(name, seq![]);
    lemma_vhost(vhosts, lower(name), 0);
}

/// The host that a request asks for: its `Host`, or the authority of its target.
pub proof fn law_requested_host(headers: Map<Seq<char>, Seq<Seq<u8>>>, uri: Uri)
    ensures
        header_text(headers, "host"@) is Some ==> requested_host(headers, uri) == header_text(
            headers,
            "host"@,
        ),
        header_text(headers, "host"@) is None ==> match uri.authority {
            Some(a) => requested_host(headers, uri) == Some(a@),
            None => requested_host(headers, uri) is None,
        },
{
}

/// Whether a prefix location takes a path.
pub open spec fn takes(prefix: Seq<char>, path: Seq<char>) -> bool {
    prefix == seq!['/'] || (prefix.len() <= path.len() && forall|k: int|
        0 <= k < prefix.len() ==> prefix[k] == path[k])
}

proof fn lemma_exact(locs: Seq<LocationRtV>, path: Seq<char>, i: int)
    requires
        0 <= i <= locs.len(),
    ensures
        match exact_match(locs, path, i) {
            Some(l) => exists|k: int|
                i <= k < locs.len() && #[trigger] locs[k] == l && l.path == path && forall|j: int|
                    i <= j < k ==> (#[trigger] locs[j]).path != path,
            None => forall|j: int| i <= j < locs.len() ==> (#[trigger] locs[j]).path != path,
        },
    decreases locs.len() - i,
{
    if i < locs.len() {
        if locs[i].path == path {
            assert(locs[i] == exact_match(locs, path, i)->0);
        } else {
            lemma_exact(locs, path, i + 1);
            if let Some(l) = exact_match(locs, path, i + 1) {
                let k = choose|k: int|
                    i + 1 <= k < locs.len() && #[trigger] locs[k] == l && l.path == path && forall|
                        j: int,
                    | i + 1 <= j < k ==> (#[trigger] locs[j]).path != path;
                assert(locs[k] == l);
            }
        }
    }
}

proof fn lemma_prefix(locs: Seq<LocationRtV>, path: Seq<char>, i: int)
    requires
        0 <= i <= locs.len(),
    ensures
        match prefix_match(locs, path, i) {
            Some(l) => exists|k: int|
                i <= k < locs.len() && #[trigger] locs[k] == l && takes(l.path, path) && forall|
                    j: int,
                | i <= j < k ==> !takes((#[trigger] locs[j]).path, path),
            None => forall|j: int| i <= j < locs.len() ==> !takes((#[trigger] locs[j]).path, path),
        },
    decreases locs.len() - i,
{
    if i < locs.len() {
        reveal_strlit("/");
        assert("/"@ =~= seq!['/']);
        let p = locs[i].path;
        assert(takes(p, path) == crate::app::runtime::covers_path(p, path)) by {
            if takes(p, path) && p != seq!['/'] {
                assert(path.take(p.len() as int) =~= p);
            }
            if p.is_prefix_of(path) {
                assert forall|k: int| 0 <= k < p.len() implies p[k] == path[k] by {
                    assert(path.take(p.len() as int)[k] == p[k]);
                }
            }
        }
        if takes(p, path) {
            assert(locs[i] == prefix_match(locs, path, i)->0);
        } else {
            lemma_prefix(locs, path, i + 1);
            if let Some(l) = prefix_match(locs, path, i + 1) {
                let k = choose|k: int|
                    i + 1 <= k < locs.len() && #[trigger] locs[k] == l && takes(l.path, path)
                        && forall|j: int|
                        i + 1 <= j < k ==> !takes((#[trigger] locs[j]).path, path);
                assert(locs[k] == l);
            }
        }
    }
}

proof fn lemma_pattern(locs: Seq<((Seq<char>, bool), LocationRtV)>, path: Seq<char>, i: int)
    requires
        0 <= i <= locs.len(),
    ensures
        match first_pattern(locs, path, i) {
            Some(k) => i <= k < locs.len() && regex_matches(locs[k].0.0, locs[k].0.1, path)
                && forall|j: int|
                i <= j < k ==> !regex_matches((#[trigger] locs[j]).0.0, locs[j].0.1, path),
            None => forall|j: int|
                i <= j < locs.len() ==> !regex_matches(
                    (#[trigger] locs[j]).0.0,
                    locs[j].0.1,
                    path,
                ),
        },
    decreases locs.len() - i,
{
    if i < locs.len() && !regex_matches(locs[i].0.0, locs[i].0.1, path) {
        lemma_pattern(locs, path, i + 1);
    }
}

/// Where a path goes: to the first exact location that is equal to it; without one to
/// the first pattern that matches it; without one to the first prefix that it starts
/// with, `/` taking every path; and nowhere without any of these.
pub proof fn law_routing(s: ServerStateV, path: Seq<char>)
    ensures
        ({
            let exact = exists|k: int|
                0 <= k < s.exact_locs.len() && (#[trigger] s.exact_locs[k]).path == path;
            let pattern = exists|k: int|
                0 <= k < s.regex_locs.len() && regex_matches(
                    (#[trigger] s.regex_locs[k]).0.0,
                    s.regex_locs[k].0.1,
                    path,
                );
            &&& exact ==> exists|k: int|
                0 <= k < s.exact_locs.len() && routed(s, path) == Some(#[trigger] s.exact_locs[k])
                    && s.exact_locs[k].path == path && forall|j: int|
                    0 <= j < k ==> (#[trigger] s.exact_locs[j]).path != path
            &&& !exact && pattern ==> exists|k: int|
                0 <= k < s.regex_locs.len() && routed(s, path) == Some((#[trigger] s.regex_locs[k]).1)
                    && regex_matches(s.regex_locs[k].0.0, s.regex_locs[k].0.1, path) && forall|
                    j: int,
                |
                    0 <= j < k ==> !regex_matches(
                        (#[trigger] s.regex_locs[j]).0.0,
                        s.regex_locs[j].0.1,
                        path,
                    )
            &&& !exact && !pattern ==> match routed(s, path) {
                Some(l) => exists|k: int|
                    0 <= k < s.prefix_locs.len() && #[trigger] s.prefix_locs[k] == l && takes(
                        l.path,
                        path,
                    ) && forall|j: int|
                        0 <= j < k ==> !takes((#[trigger] s.prefix_locs[j]).path, path),
                None => forall|j: int|
                    0 <= j < s.prefix_locs.len() ==> !takes(
                        (#[trigger] s.prefix_locs[j]).path,
                        path,
                    ),
            }
        }),
{
    lemma_exact(s.exact_locs, path, 0);
    lemma_pattern(s.regex_locs, path, 0);
    lemma_prefix(s.prefix_locs, path, 0);
    if let Some(l) = exact_match(s.exact_locs, path, 0) {
        let k = choose|k: int|
            0 <= k < s.exact_locs.len() && #[trigger] s.exact_locs[k] == l && l.path == path
                && forall|j: int| 0 <= j < k ==> (#[trigger] s.exact_locs[j]).path != path;
        assert(routed(s, path) == Some(s.exact_locs[k]));
    } else if let Some(k) = first_pattern(s.regex_locs, path, 0) {
        assert(routed(s, path) == Some(s.regex_locs[k].1));
    }
}

/// A body that is announced to be longer than the server takes is refused with a `413`
/// before anything else; no limit is set by `0`. A path that belongs nowhere is a
/// `404`.
pub proof fn law_opening(
    s: ServerStateV,
    headers: Map<Seq<char>, Seq<Seq<u8>>>,
    path: Seq<char>,
)
    ensures
        ({
            let length = match header_text(headers, "content-length"@) {
                Some(v) => number(v, usize::MAX as nat),
                None => None,
            };
            let over = s.client_max_body_size > 0 && length is Some && length->0
                > s.client_max_body_size;
            match opening_of(s, headers, path) {
                OpeningV::TooLarge(r) => over && is_text(
                    r,
                    413,
                    "413 Request Entity Too Large (limit "@ + decimal(s.client_max_body_size as nat)
                        + " bytes)\n"@,
                ),
                OpeningV::At(l) => !over && routed(s, path) == Some(l),
                OpeningV::NotFound(r) => !over && routed(s, path) is None && is_text(
                    r,
                    404,
                    "404 Not Found\n"@,
                ),
            }
        }),
{
    lemma_text(
        413,
        "413 Request Entity Too Large (limit "@ + decimal(s.client_max_body_size as nat)
            + " bytes)\n"@,
    );
    lemma_text(404, "404 Not Found\n"@);
}

// ---------------------------------------------------------------------------
// map
// ---------------------------------------------------------------------------

proof fn lemma_literal_rule(rules: Seq<MapRuleV>, value: Seq<char>, i: int)
    requires
        0 <= i <= rules.len(),
    ensures
        match literal_rule(rules, value, i) {
            Some(t) => exists|k: int|
                i <= k < rules.len() && (#[trigger] rules[k]).pattern == MapPatternV::Literal(value)
                    && rules[k].value == t && forall|j: int|
                    i <= j < k ==> (#[trigger] rules[j]).pattern != MapPatternV::Literal(value),
            None => forall|j: int|
                i <= j < rules.len() ==> (#[trigger] rules[j]).pattern != MapPatternV::Literal(
                    value,
                ),
        },
    decreases rules.len() - i,
{
    if i < rules.len() {
        if rules[i].pattern == MapPatternV::Literal(value) {
        } else {
            lemma_literal_rule(rules, value, i + 1);
            if literal_rule(rules, value, i + 1) is Some {
                let t = literal_rule(rules, value, i + 1)->0;
                let k = choose|k: int|
                    i + 1 <= k < rules.len() && (#[trigger] rules[k]).pattern
                        == MapPatternV::Literal(value) && rules[k].value == t && forall|j: int|
                        i + 1 <= j < k ==> (#[trigger] rules[j]).pattern != MapPatternV::Literal(
                            value,
                        );
                assert(rules[k].value == t);
            }
        }
    }
}

proof fn lemma_default_rule(rules: Seq<MapRuleV>, i: int)
    requires
        0 <= i <= rules.len(),
    ensures
        match default_rule(rules, i) {
            Some(t) => exists|k: int|
                i <= k < rules.len() && (#[trigger] rules[k]).pattern is Default && rules[k].value
                    == t && forall|j: int|
                    i <= j < k ==> !((#[trigger] rules[j]).pattern is Default),
            None => forall|j: int|
                i <= j < rules.len() ==> !((#[trigger] rules[j]).pattern is Default),
        },
    decreases rules.len() - i,
{
    if i < rules.len() && !(rules[i].pattern is Default) {
        lemma_default_rule(rules, i + 1);
    }
}

/// A `map` takes the first rule whose text is equal to the value; without one the first
/// default; and without that nothing.
pub proof fn law_map_rules(rules: Seq<MapRuleV>, value: Seq<char>, k: int)
    requires
        0 <= k < rules.len(),
    ensures
        rules[k].pattern == MapPatternV::Literal(value) && (forall|j: int|
            0 <= j < k ==> (#[trigger] rules[j]).pattern != MapPatternV::Literal(value))
            ==> map_choice(rules, value) == Some(rules[k].value),
        (forall|j: int|
            0 <= j < rules.len() ==> (#[trigger] rules[j]).pattern != MapPatternV::Literal(value))
            && rules[k].pattern is Default && (forall|j: int|
            0 <= j < k ==> !((#[trigger] rules[j]).pattern is Default)) ==> map_choice(rules, value)
            == Some(rules[k].value),
        (forall|j: int|
            0 <= j < rules.len() ==> (#[trigger] rules[j]).pattern != MapPatternV::Literal(value)
                && !(rules[j].pattern is Default)) ==> map_choice(rules, value) is None,
{
    lemma_literal_rule(rules, value, 0);
    lemma_default_rule(rules, 0);
}

/// What a `map` publishes: the value of the rule that its source chooses, or nothing,
/// under its name, behind what the maps above it published.
pub proof fn law_map_output(maps: Seq<MapDeclV>, m: MapDeclV, ctx: RequestCtx<'_>)
    ensures
        map_outputs(seq![], ctx).len() == 0,
        ({
            let before = map_outputs(maps, ctx);
            let out = map_outputs(maps.push(m), ctx);
            &&& out.len() == before.len() + 1
            &&& out.drop_last() == before
            &&& out.last().0 == m.output_name
            &&& match map_choice(m.rules, rendered_with(m.source, ctx, before)) {
                Some(t) => out.last().1 == rendered_with(t, ctx, before),
                None => out.last().1.len() == 0,
            }
        }),
{
    assert(maps.push(m).drop_last() =~= maps);
    let before = map_outputs(maps, ctx);
    assert(map_outputs(maps.push(m), ctx).drop_last() =~= before);
}

/// While maps are evaluated, a value is the texts of its segments in order; a variable of
/// a `map` is what was published last under its name, or nothing.
pub proof fn law_values_in_maps(
    t: Seq<SegmentV>,
    s: SegmentV,
    ctx: RequestCtx<'_>,
    vars: Seq<(Seq<char>, Seq<char>)>,
)
    ensures
        rendered_with(seq![], ctx, vars).len() == 0,
        rendered_with(t.push(s), ctx, vars) == rendered_with(t, ctx, vars) + segment_with(
            s,
            ctx,
            vars,
        ),
        s matches SegmentV::Literal(x) ==> segment_with(s, ctx, vars) == x,
        s matches SegmentV::Var(kind, name) ==> if kind is User {
            segment_with(s, ctx, vars) == (match var_value(vars, name) {
                Some(v) => v,
                None => seq![],
            })
        } else {
            segment_with(s, ctx, vars) == segment_text(s, ctx)
        },
        rendered(seq![], ctx).len() == 0,
        rendered(t.push(s), ctx) == rendered(t, ctx) + segment_text(s, ctx),
{
    assert(t.push(s).drop_last() =~= t);
}

// ---------------------------------------------------------------------------
// Upstreams named in a request
// ---------------------------------------------------------------------------

/// A target that is put together from the request names its upstream without `http://`
/// and without slashes at the end.
pub proof fn law_dynamic_host(h: Seq<char>)
    ensures
        dynamic_host("http://"@ + h) == without_trailing(h, '/'),
        !"http://"@.is_prefix_of(h) ==> dynamic_host(h) == without_trailing(h, '/'),
        bare_host("http://"@ + h) == without_trailing(h, '/'),
        bare_host("https://"@ + h) == without_trailing(h, '/'),
        !"http://"@.is_prefix_of(h) && !"https://"@.is_prefix_of(h) ==> bare_host(h)
            == without_trailing(h, '/'),
        scheme_split("https://"@ + h) == ("https"@, h),
        scheme_split("http://"@ + h) == ("http"@, h),
        !"http://"@.is_prefix_of(h) && !"https://"@.is_prefix_of(h) ==> scheme_split(h) == (
            "http"@,
            h,
        ),
{
    reveal_strlit("http://");
    reveal_strlit("https://");
    let (a, b) = ("http://"@, "https://"@);
    assert(a[4] == ':' && b[4] == 's');
    assert((a + h).take(7) =~= a && (a + h).skip(7) =~= h);
    assert((b + h).take(8) =~= b && (b + h).skip(8) =~= h);
    if b.is_prefix_of(a + h) {
        assert((a + h).take(8)[4] == b[4]);
    }
    if a.is_prefix_of(b + h) {
        assert((b + h).take(7)[4] == a[4]);
    }
}

pub proof fn lemma_last_value(list: Seq<(Seq<char>, usize)>, name: Seq<char>)
    ensures
        match last_value(list, name) {
            Some(v) => exists|i: int|
                0 <= i < list.len() && #[trigger] list[i] == (name, v) && forall|j: int|
                    i < j < list.len() ==> (#[trigger] list[j]).0 != name,
            None => forall|j: int| 0 <= j < list.len() ==> (#[trigger] list[j]).0 != name,
        },
    decreases list.len(),
{
    if list.len() > 0 {
        let n = list.len() - 1;
        if list[n].0 == name {
            assert(list[n] == (name, list[n].1));
        } else {
            let before = list.drop_last();
            lemma_last_value(before, name);
            if let Some(v) = last_value(before, name) {
                let i = choose|i: int|
                    0 <= i < before.len() && #[trigger] before[i] == (name, v) && forall|j: int|
                        i < j < before.len() ==> (#[trigger] before[j]).0 != name;
                assert(list[i] == (name, v));
                assert forall|j: int| i < j < list.len() implies (#[trigger] list[j]).0 != name by {
                    if j < n {
                        assert(list[j] == before[j]);
                    }
                }
            } else {
                assert forall|j: int| 0 <= j < list.len() implies (#[trigger] list[j]).0 != name by {
                    if j < n {
                        assert(list[j] == before[j]);
                    }
                }
            }
        }
    }
}

/// A named upstream is used where its name is asked for; an address that was met before
/// is used again; and no upstream is made for an empty target. A fixed target is
/// itself.
pub proof fn law_target_is_resolved(
    p: PoolsV,
    memo: int,
    host: Seq<char>,
    i: int,
    b: usize,
    ctx: RequestCtx<'_>,
)
    requires
        0 <= i < p.named.len(),
    ensures
        resolved_host(p, memo, seq![]) == (None::<int>, p),
        host.len() > 0 && p.named[i].0 == bare_host(host) && (forall|j: int|
            i < j < p.named.len() ==> (#[trigger] p.named[j]).0 != bare_host(host))
            ==> resolved_host(p, memo, host) == (Some(p.named[i].1 as int), p),
        resolution(p, ProxyTargetV::Fixed(b), ctx) == (Some(b as int), p),
{
    lemma_last_value(p.named, bare_host(host));
    if let Some(v) = last_value(p.named, bare_host(host)) {
        let name = bare_host(host);
        let k = choose|k: int|
            0 <= k < p.named.len() && #[trigger] p.named[k] == (name, v) && forall|j: int|
                k < j < p.named.len() ==> (#[trigger] p.named[j]).0 != name;
        if p.named[i].0 == name && (forall|j: int|
            i < j < p.named.len() ==> (#[trigger] p.named[j]).0 != name) {
            if k < i {
                assert(p.named[i].0 != name);
            } else if i < k {
                assert(p.named[k].0 != name);
            }
        }
    }
}

// ---------------------------------------------------------------------------
// Actions and response headers
// ---------------------------------------------------------------------------

#[verifier::rlimit(50)]
proof fn lemma_metrics_response(m: Metrics, version: Seq<char>, uptime: Seq<char>)
    ensures
        metrics_response(m, version, uptime).status == 200,
        metrics_response(m, version, uptime).body == encode_utf8(exposition(m, version, uptime)),
        tells(
            metrics_response(m, version, uptime).headers,
            "content-type"@,
            "text/plain; version=0.0.4; charset=utf-8"@,
        ),
{
    reveal_strlit("content-type");
    lemma_plain_name("content-type"@);
    reveal_strlit("text/plain; version=0.0.4; charset=utf-8");
    assert(is_plain("text/plain; version=0.0.4; charset=utf-8"@));
    lemma_plain_value("text/plain; version=0.0.4; charset=utf-8"@);
}

/// What a location serves: `return` its status and its text, `metrics` the counters,
/// and an upstream that cannot be told a `502`.
#[verifier::rlimit(50)]
pub proof fn law_actions(
    action: ActionRtV,
    ctx: RequestCtx<'_>,
    pools: PoolsV,
    m: Metrics,
    version: Seq<char>,
    uptime: Seq<char>,
)
    ensures
        ({
            let (step, after) = step_for(action, ctx, pools, m, version, uptime);
            &&& action matches ActionRtV::Return { status, body } ==> after == pools && (
            step matches StepV::Respond(r) && is_text(r, status, rendered(body, ctx)))
            &&& action is Metrics ==> after == pools && (step matches StepV::Respond(r) && r.status
                == 200 && r.body == encode_utf8(exposition(m, version, uptime)) && tells(
                r.headers,
                "content-type"@,
                "text/plain; version=0.0.4; charset=utf-8"@,
            ))
            &&& action is Static ==> step is File && after == pools
            &&& action is TryFiles ==> step is TryFiles && after == pools
            &&& action matches ActionRtV::Proxy { target, .. } ==> match resolution(
                pools,
                target,
                ctx,
            ) {
                (Some(b), q) => step == (StepV::Forward { balancer: b }) && after == q,
                (None, q) => after == q && (step matches StepV::Respond(r) && is_text(
                    r,
                    502,
                    "502 Bad Gateway (empty / unresolvable proxy_pass)\n"@,
                )),
            }
        }),
{
    if let ActionRtV::Return { status, body } = action {
        lemma_text(status, rendered(body, ctx));
    }
    lemma_text(502, "502 Bad Gateway (empty / unresolvable proxy_pass)\n"@);
    lemma_metrics_response(m, version, uptime);
}

/// `add_header` sets a header to what its value comes to.
pub proof fn law_add_headers(
    m: Map<Seq<char>, Seq<Seq<u8>>>,
    list: Seq<(Seq<char>, Seq<SegmentV>)>,
    name: Seq<char>,
    value: Seq<SegmentV>,
    ctx: RequestCtx<'_>,
    k: Seq<char>,
)
    ensures
        with_add_headers(m, seq![], ctx) == m,
        ({
            let before = with_add_headers(m, list, ctx);
            let after = with_add_headers(m, list.push((name, value)), ctx);
            let text = rendered(value, ctx);
            &&& is_header_name(name) && is_header_value(encode_utf8(text)) ==> tells(
                after,
                lower(name),
                text,
            )
            &&& k != lower(name) ==> after.contains_key(k) == before.contains_key(k) && (
            before.contains_key(k) ==> after[k] == before[k])
        }),
{
    assert(list.push((name, value)).drop_last() =~= list);
}

/// `expires` says how many seconds a response is good for and until when that is; the
/// other headers stay.
pub proof fn law_expires(m: Map<Seq<char>, Seq<Seq<u8>>>, secs: u64, now: u64, k: Seq<char>)
    ensures
        ({
            let t = with_expires(m, secs, Some(now));
            let u = with_expires(m, secs, None);
            &&& tells(t, "cache-control"@, "max-age="@ + decimal(secs as nat))
            &&& tells(u, "cache-control"@, "max-age="@ + decimal(secs as nat))
            &&& now + secs <= u64::MAX ==> tells(t, "expires"@, http_date(now + secs))
            &&& k != "cache-control"@ && k != "expires"@ ==> values_at(t, k) == values_at(m, k)
            &&& k != "cache-control"@ ==> values_at(u, k) == values_at(m, k)
        }),
{
    reveal_strlit("cache-control");
    reveal_strlit("expires");
    reveal_strlit("max-age=");
    lemma_plain_name("cache-control"@);
    lemma_plain_name("expires"@);
    assert("cache-control"@.len() == 13 && "expires"@.len() == 7);
    assert(is_plain("max-age="@));
    lemma_decimal_plain(secs as nat);
    lemma_plain_concat("max-age="@, decimal(secs as nat));
    lemma_plain_value("max-age="@ + decimal(secs as nat));
    lemma_date_is_plain(second_after(now, secs) as int);
    lemma_plain_value(http_date(second_after(now, secs) as int));
}

/// Where HTTP/3 is served, answers say so for a day.
pub proof fn law_alt_svc(m: Map<Seq<char>, Seq<Seq<u8>>>, port: u16, k: Seq<char>)
    ensures
        tells(
            with_alt_svc(m, Some(port)),
            "alt-svc"@,
            "h3=\":"@ + decimal(port as nat) + "\"; ma=86400"@,
        ),
        k != "alt-svc"@ ==> values_at(with_alt_svc(m, Some(port)), k) == values_at(m, k),
        with_alt_svc(m, None) == m,
{
    reveal_strlit("alt-svc");
    reveal_strlit("h3=\":");
    reveal_strlit("\"; ma=86400");
    lemma_plain_name("alt-svc"@);
    assert(is_plain("h3=\":"@) && is_plain("\"; ma=86400"@));
    lemma_decimal_plain(port as nat);
    lemma_plain_concat("h3=\":"@, decimal(port as nat));
    lemma_plain_concat("h3=\":"@ + decimal(port as nat), "\"; ma=86400"@);
    lemma_plain_value("h3=\":"@ + decimal(port as nat) + "\"; ma=86400"@);
}

/// An answer gets the mark of HTTP/3, then the headers of its location, then what
/// `expires` says, and is then compressed if it may be. What a location says of
/// compression goes before what its server says; an answer of an upstream is compressed
/// only when it is known to have at most 256 KiB.
pub proof fn law_answer_is_finished(
    r: ResponseV,
    state: ServerStateV,
    l: LocationRtV,
    ctx: RequestCtx<'_>,
    port: Option<u16>,
    now: Option<u64>,
)
    ensures
        finished_response(r, state, None, ctx, port, now) == (ResponseV {
            headers: with_alt_svc(r.headers, port),
            ..r
        }),
        ({
            let added = with_add_headers(with_alt_svc(r.headers, port), l.add_headers, ctx);
            let headers = match l.expires {
                Some(d) => with_expires(added, d.secs, now),
                None => added,
            };
            let on = if l.gzip is Some {
                l.gzip->0
            } else {
                state.gzip
            };
            let most = if l.action is Proxy {
                Some(262144usize)
            } else {
                None
            };
            finished_response(r, state, Some(l), ctx, port, now) == compressed(
                ResponseV { headers, ..r },
                header_map(*ctx.headers),
                on,
                state.gzip_types,
                state.gzip_min_length,
                most,
            )
        }),
{
}

// ---------------------------------------------------------------------------
// What stands in the way
// ---------------------------------------------------------------------------

/// Stage by stage: an address that is not allowed is a `403`; a rate asks for a token of
/// its zone, burst and key; a connection takes a slot where fewer than the most are
/// taken, and is a `503` otherwise; a service is asked, or the request refused with a
/// `500` when there is no URL; a password is asked for; copies are sent; and then
/// the request is served.
#[verifier::rlimit(50)]
pub proof fn law_stages(
    f: FlowV,
    l: LocationRtV,
    ctx: RequestCtx<'_>,
    rates: Seq<LimitReqZoneV>,
)
    ensures
        crate::access::allowed(l.access_rules, ctx.peer.ip) ==> proceed(
            Stage::Access,
            f,
            l,
            ctx,
            rates,
        ) == proceed(Stage::LimitReq, f, l, ctx, rates),
        !crate::access::allowed(l.access_rules, ctx.peer.ip) ==> (proceed(
            Stage::Access,
            f,
            l,
            ctx,
            rates,
        ).0 matches NextV::Refuse(r) && is_text(r, 403, "403 Forbidden\n"@)),
        l.limit_req is None ==> proceed(Stage::LimitReq, f, l, ctx, rates) == proceed(
            Stage::LimitConn,
            f,
            l,
            ctx,
            rates,
        ),
        l.limit_req matches Some(a) ==> proceed(Stage::LimitReq, f, l, ctx, rates) == (
            NextV::TakeToken {
                zone: a.zone,
                burst: a.burst,
                key: rendered(rates[a.zone as int].key_template, ctx),
            },
            FlowV { stage: Stage::LimitReq, ..f },
        ),
        l.limit_conn is None ==> proceed(Stage::LimitConn, f, l, ctx, rates) == proceed(
            Stage::AuthRequest,
            f,
            l,
            ctx,
            rates,
        ),
        l.limit_conn matches Some(a) ==> {
            let z = f.zones[a.zone as int];
            let key = rendered(z.key_template, ctx);
            if in_flight(z.active, key) < a.max_conn {
                proceed(Stage::LimitConn, f, l, ctx, rates) == proceed(
                    Stage::AuthRequest,
                    FlowV {
                        stage: Stage::LimitConn,
                        held: Some((a.zone, key)),
                        zones: f.zones.update(
                            a.zone as int,
                            LimitConnZoneV { active: acquired(z.active, key), ..z },
                        ),
                        metrics: Metrics {
                            limit_conn_allowed: f.metrics.limit_conn_allowed.wrapping_add(1),
                            ..f.metrics
                        },
                    },
                    l,
                    ctx,
                    rates,
                )
            } else {
                let (next, g) = proceed(Stage::LimitConn, f, l, ctx, rates);
                (next matches NextV::Refuse(r) && is_text(r, 503, "503 Service Unavailable\n"@))
                    && g.zones == f.zones && g.held == f.held
            }
        },
        l.auth_request is None ==> proceed(Stage::AuthRequest, f, l, ctx, rates) == proceed(
            Stage::AuthBasic,
            f,
            l,
            ctx,
            rates,
        ),
        l.auth_request matches Some(t) ==> match asked_for(t, ctx) {
            Some(sub) => proceed(Stage::AuthRequest, f, l, ctx, rates).0 == NextV::Ask(sub),
            None => proceed(Stage::AuthRequest, f, l, ctx, rates).0 matches NextV::Refuse(r)
                && is_text(r, 500, "auth_request: empty URL\n"@),
        },
        l.auth is Some ==> proceed(Stage::AuthBasic, f, l, ctx, rates).0 is Identify,
        l.auth is None ==> proceed(Stage::AuthBasic, f, l, ctx, rates) == proceed(
            Stage::Mirror,
            f,
            l,
            ctx,
            rates,
        ),
        l.mirrors.len() > 0 ==> proceed(Stage::Mirror, f, l, ctx, rates) == (
            NextV::Shadow(urls_of(l.mirrors, ctx)),
            FlowV { stage: Stage::Mirror, ..f },
        ),
        l.mirrors.len() == 0 ==> proceed(Stage::Mirror, f, l, ctx, rates) == (
            NextV::Serve,
            FlowV { stage: Stage::Serve, ..f },
        ),
        proceed(Stage::Serve, f, l, ctx, rates).0 is Serve,
{
    lemma_text(403, "403 Forbidden\n"@);
    lemma_text(503, "503 Service Unavailable\n"@);
    lemma_text(500, "auth_request: empty URL\n"@);
}

/// A token lets a request on, and without one it is a `503`. A service that answers 2xx
/// lets it on, and no other. A password that is accepted lets it on, and otherwise it is
/// asked for.
#[verifier::rlimit(50)]
pub proof fn law_replies_decide(
    f: FlowV,
    l: LocationRtV,
    ctx: RequestCtx<'_>,
    rates: Seq<LimitReqZoneV>,
    status: u16,
)
    ensures
        after_rate(false, f, l, ctx, rates).0 matches NextV::Refuse(r) && is_text(
            r,
            503,
            "503 Service Unavailable\n"@,
        ),
        after_rate(true, f, l, ctx, rates) == proceed(
            Stage::LimitConn,
            FlowV {
                metrics: Metrics {
                    limit_req_allowed: f.metrics.limit_req_allowed.wrapping_add(1),
                    ..f.metrics
                },
                ..f
            },
            l,
            ctx,
            rates,
        ),
        200 <= status < 300 ==> after_reply(Reply::Status(status), f, l, ctx) == proceed(
            Stage::AuthBasic,
            f,
            l,
            ctx,
            rates,
        ),
        !(200 <= status < 300) ==> (after_reply(Reply::Status(status), f, l, ctx).0 matches NextV::Refuse(
            r,
        ) && is_text(r, status, decimal(status as nat) + " (auth_request denied)\n"@)),
        after_reply(Reply::Unreachable, f, l, ctx).0 matches NextV::Refuse(r) && is_text(
            r,
            500,
            "auth_request: subrequest connect / send error\n"@,
        ),
        after_reply(Reply::TimedOut, f, l, ctx).0 matches NextV::Refuse(r) && is_text(
            r,
            504,
            "auth_request: subrequest timed out\n"@,
        ),
        l.auth matches Some(a) ==> if crate::auth::authorized(
            a.users,
            header_map(*ctx.headers),
        ) {
            after_identity(f, l, ctx) == proceed(Stage::Mirror, f, l, ctx, rates)
        } else {
            after_identity(f, l, ctx) == (NextV::Refuse(crate::auth::challenge(a.realm)), f)
        },
{
    lemma_text(503, "503 Service Unavailable\n"@);
    lemma_text(status, decimal(status as nat) + " (auth_request denied)\n"@);
    lemma_text(500, "auth_request: subrequest connect / send error\n"@);
    lemma_text(504, "auth_request: subrequest timed out\n"@);
}

/// What a refusal is logged as.
pub proof fn law_stage_names()
    ensures
        tag_of(Stage::Access) == "allow/deny"@,
        tag_of(Stage::LimitReq) == "limit_req"@,
        tag_of(Stage::LimitConn) == "limit_conn"@,
        tag_of(Stage::AuthRequest) == "auth_request"@,
        tag_of(Stage::AuthBasic) == "auth_basic challenge"@,
{
}

/// A slot that a request holds is given back in its zone, and nothing else is.
pub proof fn law_given_back(zone: usize, key: Seq<char>, zones: Seq<LimitConnZoneV>, j: int)
    requires
        (zone as int) < zones.len(),
        0 <= j < zones.len(),
    ensures
        given_back(None, zones) == zones,
        ({
            let t = given_back(Some((zone, key)), zones);
            &&& t.len() == zones.len()
            &&& t[zone as int].active == released(zones[zone as int].active, key)
            &&& j != zone ==> t[j] == zones[j]
        }),
{
}

// ---------------------------------------------------------------------------
// Requests of the server's own
// ---------------------------------------------------------------------------

/// The copies of a request go to what each `mirror` comes to, in order; one that comes
/// to nothing is left out.
pub proof fn law_mirror_urls(mirrors: Seq<Seq<SegmentV>>, t: Seq<SegmentV>, ctx: RequestCtx<'_>)
    ensures
        urls_of(seq![], ctx).len() == 0,
        trimmed(rendered(t, ctx)).len() > 0 ==> urls_of(mirrors.push(t), ctx) == urls_of(
            mirrors,
            ctx,
        ).push(trimmed(rendered(t, ctx))),
        trimmed(rendered(t, ctx)).len() == 0 ==> urls_of(mirrors.push(t), ctx) == urls_of(
            mirrors,
            ctx,
        ),
{
    assert(mirrors.push(t).drop_last() =~= mirrors);
}

proof fn lemma_own_names()
    ensures
        is_header_name("user-agent"@) && lower("user-agent"@) == "user-agent"@,
        is_header_name("authorization"@) && lower("authorization"@) == "authorization"@,
        is_header_name("cookie"@) && lower("cookie"@) == "cookie"@,
        is_header_name("x-original-uri"@) && lower("x-original-uri"@) == "x-original-uri"@,
        is_header_name("x-original-method"@) && lower("x-original-method"@)
            == "x-original-method"@,
        is_header_name("x-elrond-mirror"@) && lower("x-elrond-mirror"@) == "x-elrond-mirror"@,
        "user-agent"@.len() == 10,
        "authorization"@.len() == 13,
        "cookie"@.len() == 6,
        "x-original-uri"@.len() == 14,
        "x-original-method"@.len() == 17,
        "x-elrond-mirror"@.len() == 15,
{
    reveal_strlit("user-agent");
    reveal_strlit("authorization");
    reveal_strlit("cookie");
    reveal_strlit("x-original-uri");
    reveal_strlit("x-original-method");
    reveal_strlit("x-elrond-mirror");
    lemma_plain_name("user-agent"@);
    lemma_plain_name("authorization"@);
    lemma_plain_name("cookie"@);
    lemma_plain_name("x-original-uri"@);
    lemma_plain_name("x-original-method"@);
    lemma_plain_name("x-elrond-mirror"@);
}

/// A service is asked with the credentials of the client, the URI and the method that it
/// asked for, and a copy of a request says that it is one. Neither carries anything else
/// of the client's.
#[verifier::rlimit(50)]
pub proof fn law_requests_on_behalf(
    client: Map<Seq<char>, Seq<Seq<u8>>>,
    uri: Seq<char>,
    method: Seq<char>,
    k: Seq<char>,
)
    requires
        is_plain(uri),
        is_plain(method),
        forall|n: Seq<char>|
            #[trigger] client.contains_key(n) ==> client[n].len() > 0 && is_header_value(
                client[n][0],
            ),
    ensures
        ({
            let a = asking_headers(client, uri, method);
            let b = shadow_headers_of(client);
            &&& values_at(a, "x-original-uri"@) == seq![encode_utf8(uri)]
            &&& values_at(a, "x-original-method"@) == seq![encode_utf8(method)]
            &&& values_at(b, "x-elrond-mirror"@) == seq![encode_utf8("1"@)]
            &&& client.contains_key("authorization"@) ==> values_at(a, "authorization"@) == seq![
                client["authorization"@][0],
            ] && values_at(b, "authorization"@) == seq![client["authorization"@][0]]
            &&& client.contains_key("cookie"@) ==> values_at(a, "cookie"@) == seq![
                client["cookie"@][0],
            ] && values_at(b, "cookie"@) == seq![client["cookie"@][0]]
            &&& !client.contains_key("authorization"@) ==> !a.contains_key("authorization"@)
                && !b.contains_key("authorization"@)
            &&& !client.contains_key("cookie"@) ==> !a.contains_key("cookie"@) && !b.contains_key(
                "cookie"@,
            )
            &&& k != "authorization"@ && k != "cookie"@ && k != "user-agent"@ && k
                != "x-original-uri"@ && k != "x-original-method"@ && k != "x-elrond-mirror"@
                ==> !a.contains_key(k) && !b.contains_key(k)
        }),
{
    lemma_own_names();
    lemma_plain_value(uri);
    lemma_plain_value(method);
    reveal_strlit("1");
    reveal_strlit("elrond-auth-request");
    reveal_strlit("elrond-mirror");
    assert(is_plain("1"@) && is_plain("elrond-auth-request"@) && is_plain("elrond-mirror"@));
    lemma_plain_value("1"@);
    lemma_plain_value("elrond-auth-request"@);
    lemma_plain_value("elrond-mirror"@);
    let a = asking_headers(client, uri, method);
    let b = shadow_headers_of(client);
    assert(values_at(a, "x-original-uri"@) =~= seq![encode_utf8(uri)]);
    assert(values_at(a, "x-original-method"@) =~= seq![encode_utf8(method)]);
    assert(values_at(b, "x-elrond-mirror"@) =~= seq![encode_utf8("1"@)]);
    if client.contains_key("authorization"@) {
        assert(values_at(a, "authorization"@) =~= seq![client["authorization"@][0]]);
        assert(values_at(b, "authorization"@) =~= seq![client["authorization"@][0]]);
    }
    if client.contains_key("cookie"@) {
        assert(values_at(a, "cookie"@) =~= seq![client["cookie"@][0]]);
        assert(values_at(b, "cookie"@) =~= seq![client["cookie"@][0]]);
    }
}

/// A service is asked at what the URL comes to, trimmed, and not at all when that is
/// nothing.
pub proof fn law_service_is_asked(t: Seq<SegmentV>, ctx: RequestCtx<'_>)
    ensures
        trimmed(rendered(t, ctx)).len() == 0 <==> asked_for(t, ctx) is None,
        asked_for(t, ctx) matches Some(s) ==> s.url == trimmed(rendered(t, ctx)) && s.headers
            == asking_headers(header_map(*ctx.headers), ctx.spec_request_uri(), ctx.method@),
{
}

} // verus!
