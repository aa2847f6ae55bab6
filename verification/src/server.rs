//! The data plane: which virtual server answers a request, which checks it has
//! to pass, what is done with it, and what is added to the response. Accepting
//! connections and moving bytes is left to the HTTP stack.

use crate::app::runtime::{
    ActionRt, ActionRtV, ListenerCfg, LocationRt, LocationRtV, Pools, PoolsV, ProxyTarget,
    resolution, routed, ServerState, ServerStateV, vhost_for,
};
use crate::body::{Response, ResponseV, text, text_bytes, text_response, valid_status};
use crate::config::ast::{MapDecl, MapDeclV, MapPattern, MapPatternV, MapRule, MapRuleV};
use crate::gzip::{compress, compressed};
use crate::headers::{
    get_text, has_room, header_map, header_names, header_text, header_values, is_header_name,
    is_header_value, new_headers, no_headers, set_text, with_header,
};
use crate::http_date::http_date;
use crate::metrics::{exposition, Metrics};

use crate::request_ctx::{RequestCtx, Uri, var_value, var_views};
use crate::template::{rendered, segment_text, SegmentV, Template, VarKind};
use crate::request_ctx::or_empty;
use crate::text::{decimal, lower, number, opt_view, parse_number, push_decimal, same, views};
use crate::time::{Duration, wall_clock};
use vstd::prelude::*;
use vstd::string::*;
use vstd::utf8::encode_utf8;

verus! {

/// Upper bound on how many bytes we'll buffer to gzip a proxied response.
/// Anything larger (or with no `Content-Length`) streams uncompressed.
pub const PROXY_GZIP_MAX_COLLECT: usize = 256 * 1024;

// ---------------------------------------------------------------------------
// Virtual hosts
// ---------------------------------------------------------------------------

/// The host that a request asks for: its `Host` header, or else the host of
/// its target.
pub open spec fn requested_host(headers: Map<Seq<char>, Seq<Seq<u8>>>, uri: Uri) -> Option<Seq<char>> {
    match header_text(headers, "host"@) {
        Some(h) => Some(h),
        None => opt_view(uri.authority),
    }
}

/// Pick the right virtual server for a request based on its `Host` header.
pub fn select_state<'a>(cfg: &'a ListenerCfg, headers: &hyper::HeaderMap, uri: &Uri) -> (r:
    &'a ServerState)
    requires
        cfg.vhosts@.len() > 0,
    ensures
        ({
            let i = vhost_for(cfg@.vhosts, requested_host(header_map(*headers), *uri));
            0 <= i < cfg.vhosts@.len() && *r == cfg.vhosts@[i].state
        }),
{
    match get_text(headers, "host") {
        Some(h) => cfg.pick_state(Some(h.as_str())),
        None => match &uri.authority {
            Some(a) => cfg.pick_state(Some(a.as_str())),
            None => cfg.pick_state(None),
        },
    }
}

// ---------------------------------------------------------------------------
// Request size
// ---------------------------------------------------------------------------

/// The length that a request announces for its body.
pub open spec fn announced_length(headers: Map<Seq<char>, Seq<Seq<u8>>>) -> Option<nat> {
    match header_text(headers, "content-length"@) {
        Some(s) => number(s, usize::MAX as nat),
        None => None,
    }
}

/// The answer to a request with too large a body.
pub open spec fn too_large(limit: usize) -> ResponseV {
    text_response(
        413,
        "413 Request Entity Too Large (limit "@ + decimal(limit as nat) + " bytes)\n"@,
    )
}

/// Enforce `client_max_body_size` up front via `Content-Length` when the
/// client advertised one. A limit of `0` lets everything in.
pub fn check_length(limit: usize, headers: &hyper::HeaderMap) -> (r: Option<Response>)
    ensures
        match r {
            Some(resp) => limit > 0 && (announced_length(header_map(*headers)) matches Some(n) && n
                > limit) && resp@ == too_large(limit) && header_names(resp.headers) <= 1,
            None => limit == 0 || !(announced_length(header_map(*headers)) matches Some(n) && n
                > limit),
        },
{
    if limit == 0 {
        return None;
    }
    let s = match get_text(headers, "content-length") {
        Some(s) => s,
        None => {
            return None;
        },
    };
    match parse_number(s.as_str(), usize::MAX as u64) {
        Some(n) => {
            if n > limit as u64 {
                let mut m = "413 Request Entity Too Large (limit ".to_owned();
                push_decimal(&mut m, limit as u64);
                m.append(" bytes)\n");
                Some(text(413, m.as_str()))
            } else {
                None
            }
        },
        None => None,
    }
}

// ---------------------------------------------------------------------------
// Maps
// ---------------------------------------------------------------------------

/// What a segment stands for when the `map` outputs so far are `vars`.
pub open spec fn segment_with(
    s: SegmentV,
    ctx: RequestCtx<'_>,
    vars: Seq<(Seq<char>, Seq<char>)>,
) -> Seq<char> {
    match s {
        SegmentV::Var(VarKind::User, n) => or_empty(var_value(vars, n)),
        _ => segment_text(s, ctx),
    }
}

/// The text of a template when the `map` outputs so far are `vars`.
pub open spec fn rendered_with(
    t: Seq<SegmentV>,
    ctx: RequestCtx<'_>,
    vars: Seq<(Seq<char>, Seq<char>)>,
) -> Seq<char>
    decreases t.len(),
{
    if t.len() == 0 {
        seq![]
    } else {
        rendered_with(t.drop_last(), ctx, vars) + segment_with(t.last(), ctx, vars)
    }
}

/// Two contexts of one request, whatever has been published in each.
pub open spec fn same_request(a: RequestCtx<'_>, b: RequestCtx<'_>) -> bool {
    &&& a.peer == b.peer
    &&& a.server_name == b.server_name
    &&& a.method == b.method
    &&& a.uri == b.uri
    &&& a.headers == b.headers
    &&& a.scheme == b.scheme
}

proof fn lemma_rendered_with(t: Seq<SegmentV>, c: RequestCtx<'_>, base: RequestCtx<'_>)
    requires
        same_request(c, base),
    ensures
        rendered(t, c) == rendered_with(t, base, var_views(c.user_vars@)),
    decreases t.len(),
{
    if t.len() > 0 {
        lemma_rendered_with(t.drop_last(), c, base);
    }
}

/// The rule of a `map` that applies to a value, from `i` on: the first literal
/// that equals it.
pub open spec fn literal_rule(rules: Seq<MapRuleV>, value: Seq<char>, i: int) -> Option<Seq<SegmentV>>
    decreases rules.len() - i,
{
    if i >= rules.len() || i < 0 {
        None
    } else if rules[i].pattern matches MapPatternV::Literal(s) && s == value {
        Some(rules[i].value)
    } else {
        literal_rule(rules, value, i + 1)
    }
}

/// The first `default` rule of a `map`, from `i` on.
pub open spec fn default_rule(rules: Seq<MapRuleV>, i: int) -> Option<Seq<SegmentV>>
    decreases rules.len() - i,
{
    if i >= rules.len() || i < 0 {
        None
    } else if rules[i].pattern is Default {
        Some(rules[i].value)
    } else {
        default_rule(rules, i + 1)
    }
}

/// The template that a `map` chooses for a value: a literal that equals it,
/// else the default.
pub open spec fn map_choice(rules: Seq<MapRuleV>, value: Seq<char>) -> Option<Seq<SegmentV>> {
    match literal_rule(rules, value, 0) {
        Some(t) => Some(t),
        None => default_rule(rules, 0),
    }
}

/// What a `map` publishes when the outputs so far are `vars`.
pub open spec fn map_output(
    m: MapDeclV,
    ctx: RequestCtx<'_>,
    vars: Seq<(Seq<char>, Seq<char>)>,
) -> Seq<char> {
    match map_choice(m.rules, rendered_with(m.source, ctx, vars)) {
        Some(t) => rendered_with(t, ctx, vars),
        None => seq![],
    }
}

/// What all `map` declarations publish, each seeing the outputs of those
/// before it.
pub open spec fn map_outputs(maps: Seq<MapDeclV>, ctx: RequestCtx<'_>) -> Seq<(Seq<char>, Seq<char>)>
    decreases maps.len(),
{
    if maps.len() == 0 {
        seq![]
    } else {
        let before = map_outputs(maps.drop_last(), ctx);
        before.push((maps.last().output_name, map_output(maps.last(), ctx, before)))
    }
}

fn choose_rule<'a>(rules: &'a Vec<MapRule>, value: &str) -> (r: Option<&'a Template>)
    ensures
        map_choice(views(rules@), value@) == (match r {
            Some(t) => Some(t@),
            None => None,
        }),
{
    let ghost all = views(rules@);
    let mut fallback: Option<&Template> = None;
    let mut i: usize = 0;
    while i < rules.len()
        invariant
            i <= rules@.len(),
            all == views(rules@),
            literal_rule(all, value@, i as int) == literal_rule(all, value@, 0),
            match fallback {
                Some(t) => default_rule(all, 0) == Some(t@),
                None => default_rule(all, 0) == default_rule(all, i as int),
            },
        decreases rules@.len() - i,
    {
        assert(all[i as int] == rules@[i as int]@);
        match &rules[i].pattern {
            MapPattern::Literal(s) => {
                if same(s.as_str(), value) {
                    return Some(&rules[i].value);
                }
            },
            MapPattern::Default => {
                if fallback.is_none() {
                    fallback = Some(&rules[i].value);
                }
            },
        }
        i = i + 1;
    }
    fallback
}

/// Evaluate `map` declarations in declaration order with accumulating outputs,
/// so a later map can reference an earlier map's output. What `base` already
/// holds of outputs is not used.
pub fn evaluate_maps(maps: &Vec<MapDecl>, base: &RequestCtx<'_>) -> (r: Vec<(String, String)>)
    ensures
        var_views(r@) == map_outputs(views(maps@), *base),
{
    let ghost all = views(maps@);
    let mut vars: Vec<(String, String)> = Vec::new();
    let mut i: usize = 0;
    assert(all.take(0) =~= seq![]);
    assert(var_views(vars@) =~= seq![]);
    while i < maps.len()
        invariant
            i <= maps@.len(),
            all == views(maps@),
            var_views(vars@) == map_outputs(all.take(i as int), *base),
        decreases maps@.len() - i,
    {
        let ghost now = all.take(i + 1);
        assert(now.drop_last() == all.take(i as int));
        assert(now.last() == maps@[i as int]@);
        let m = &maps[i];
        let value = map_value(m, base, &vars);
        let item = (m.output_name.clone(), value);
        let ghost before = vars@;
        vars.push(item);
        assert(var_views(vars@) =~= var_views(before).push((item.0@, item.1@)));
        i = i + 1;
    }
    assert(all.take(i as int) == all);
    vars
}

fn map_value(m: &MapDecl, base: &RequestCtx<'_>, vars: &Vec<(String, String)>) -> (r: String)
    ensures
        r@ == map_output(m@, *base, var_views(vars@)),
{
    let stage = RequestCtx {
        peer: base.peer,
        server_name: base.server_name,
        method: base.method,
        uri: base.uri,
        headers: base.headers,
        scheme: base.scheme,
        user_vars: vars,
    };
    let source = m.source.render(&stage);
    proof {
        lemma_rendered_with(m.source@, stage, *base);
    }
    match choose_rule(&m.rules, source.as_str()) {
        Some(t) => {
            proof {
                lemma_rendered_with(t@, stage, *base);
            }
            t.render(&stage)
        },
        None => String::new(),
    }
}

// ---------------------------------------------------------------------------
// Opening a request
// ---------------------------------------------------------------------------

/// Where a request leads.
pub enum Opening<'a> {
    /// Its body is too large: this is the answer.
    TooLarge(Response),
    /// No location matches: this is the answer.
    NotFound(Response),
    /// It is for this location.
    At(&'a LocationRt),
}

/// Model of an [`Opening`].
pub enum OpeningV {
    TooLarge(ResponseV),
    NotFound(ResponseV),
    At(LocationRtV),
}

impl<'a> View for Opening<'a> {
    type V = OpeningV;

    open spec fn view(&self) -> OpeningV {
        match self {
            Opening::TooLarge(r) => OpeningV::TooLarge(r@),
            Opening::NotFound(r) => OpeningV::NotFound(r@),
            Opening::At(l) => OpeningV::At(l@),
        }
    }
}

/// Where a request leads: its announced length is checked before its path.
pub open spec fn opening_of(
    s: ServerStateV,
    headers: Map<Seq<char>, Seq<Seq<u8>>>,
    path: Seq<char>,
) -> OpeningV {
    if s.client_max_body_size > 0 && (announced_length(headers) matches Some(n) && n
        > s.client_max_body_size) {
        OpeningV::TooLarge(too_large(s.client_max_body_size))
    } else {
        match routed(s, path) {
            Some(l) => OpeningV::At(l),
            None => OpeningV::NotFound(not_found()),
        }
    }
}

/// Find out where a request leads.
pub fn open<'a>(state: &'a ServerState, headers: &hyper::HeaderMap, path: &str) -> (r: Opening<'a>)
    ensures
        r@ == opening_of(state@, header_map(*headers), path@),
        r matches Opening::TooLarge(resp) ==> header_names(resp.headers) <= 1,
        r matches Opening::NotFound(resp) ==> header_names(resp.headers) <= 1,
{
    if let Some(resp) = check_length(state.client_max_body_size, headers) {
        return Opening::TooLarge(resp);
    }
    match state.route(path) {
        Some(l) => Opening::At(l),
        None => Opening::NotFound(text(404, "404 Not Found\n")),
    }
}

// ---------------------------------------------------------------------------
// Serving
// ---------------------------------------------------------------------------

/// What remains to be done to serve a request.
#[derive(Debug)]
pub enum Step {
    /// Send this response.
    Respond(Response),
    /// Serve a file below the location's root.
    File,
    /// Try the location's candidates in order.
    TryFiles,
    /// Forward to the balancer at this position.
    Forward { balancer: usize },
}

/// Model of a [`Step`].
pub enum StepV {
    Respond(ResponseV),
    File,
    TryFiles,
    Forward { balancer: int },
}

impl View for Step {
    type V = StepV;

    open spec fn view(&self) -> StepV {
        match self {
            Step::Respond(r) => StepV::Respond(r@),
            Step::File => StepV::File,
            Step::TryFiles => StepV::TryFiles,
            Step::Forward { balancer } => StepV::Forward { balancer: *balancer as int },
        }
    }
}

/// The response with the metrics.
pub open spec fn metrics_response(
    m: Metrics,
    version: Seq<char>,
    uptime: Seq<char>,
) -> ResponseV {
    ResponseV {
        status: 200,
        headers: with_header(
            no_headers(),
            "content-type"@,
            encode_utf8("text/plain; version=0.0.4; charset=utf-8"@),
        ),
        body: encode_utf8(exposition(m, version, uptime)),
    }
}

/// The answer where a `proxy_pass` leads nowhere.
pub open spec fn unresolvable() -> ResponseV {
    text_response(502, "502 Bad Gateway (empty / unresolvable proxy_pass)\n"@)
}

/// The answer where no location matches.
pub open spec fn not_found() -> ResponseV {
    text_response(404, "404 Not Found\n"@)
}

/// What is to be done for an action, and the pools after its target has been
/// resolved.
pub open spec fn step_for(
    action: ActionRtV,
    ctx: RequestCtx<'_>,
    pools: PoolsV,
    m: Metrics,
    version: Seq<char>,
    uptime: Seq<char>,
) -> (StepV, PoolsV) {
    match action {
        ActionRtV::Return { status, body } => (
            StepV::Respond(text_response(status, rendered(body, ctx))),
            pools,
        ),
        ActionRtV::Static { .. } => (StepV::File, pools),
        ActionRtV::Metrics => (StepV::Respond(metrics_response(m, version, uptime)), pools),
        ActionRtV::TryFiles { .. } => (StepV::TryFiles, pools),
        ActionRtV::Proxy { target, .. } => match resolution(pools, target, ctx) {
            (Some(b), q) => (StepV::Forward { balancer: b }, q),
            (None, q) => (StepV::Respond(unresolvable()), q),
        },
    }
}

fn metrics_page(metrics: &Metrics, version: &str, uptime: &str) -> (r: Response)
    ensures
        r@ == metrics_response(*metrics, version@, uptime@),
        header_names(r.headers) <= 1,
{
    let body = crate::metrics::render(metrics, version, uptime);
    let mut headers = new_headers();
    set_text(&mut headers, "content-type", "text/plain; version=0.0.4; charset=utf-8");
    Response { status: 200, headers, body: text_bytes(body.as_str()) }
}

/// Decide what is to be done for an action. `uptime` is what the metrics are to
/// say of it.
pub fn act(
    action: &ActionRt,
    ctx: &RequestCtx<'_>,
    pools: &mut Pools,
    metrics: &Metrics,
    version: &str,
    uptime: &str,
) -> (r: Step)
    requires
        *action matches ActionRt::Return { status, .. } ==> valid_status(status),
        *action matches ActionRt::Proxy { target, .. } ==> (
        target matches ProxyTarget::Dynamic { memo, .. } ==> memo < old(pools).ephemeral@.len()),
    ensures
        (r@, final(pools)@) == step_for(action@, *ctx, old(pools)@, *metrics, version@, uptime@),
        r matches Step::Respond(resp) ==> header_names(resp.headers) <= 1,
{
    match action {
        ActionRt::Return { status, body } => {
            let s = body.render(ctx);
            Step::Respond(text(*status, s.as_str()))
        },
        ActionRt::Static { .. } => Step::File,
        ActionRt::Metrics => Step::Respond(metrics_page(metrics, version, uptime)),
        ActionRt::TryFiles { .. } => Step::TryFiles,
        ActionRt::Proxy { target, .. } => match target.resolve(ctx, pools) {
            Some(balancer) => Step::Forward { balancer },
            None => Step::Respond(
                text(502, "502 Bad Gateway (empty / unresolvable proxy_pass)\n"),
            ),
        },
    }
}

// ---------------------------------------------------------------------------
// Response headers
// ---------------------------------------------------------------------------

/// The port on which a listener offers HTTP/3: its own, if it is a TLS listener
/// on which a virtual host opted into it.
pub fn http3_port(cfg: &ListenerCfg) -> (r: Option<u16>)
    ensures
        r == (if cfg@.http3 && cfg@.tls_paths.len() > 0 {
            Some(cfg@.addr.port)
        } else {
            None
        }),
{
    if cfg.http3 && cfg.tls_paths.len() > 0 {
        Some(cfg.addr.port)
    } else {
        None
    }
}

/// The headers with HTTP/3 advertised, if it is offered.
pub open spec fn with_alt_svc(m: Map<Seq<char>, Seq<Seq<u8>>>, port: Option<u16>) -> Map<
    Seq<char>,
    Seq<Seq<u8>>,
> {
    match port {
        Some(p) => with_header(
            m,
            "alt-svc"@,
            encode_utf8("h3=\":"@ + decimal(p as nat) + "\"; ma=86400"@),
        ),
        None => m,
    }
}

/// Let clients that arrive over TCP/TLS discover the HTTP/3 endpoint.
pub fn advertise_http3(headers: &mut hyper::HeaderMap, port: Option<u16>)
    requires
        has_room(*old(headers), 1),
    ensures
        header_map(*final(headers)) == with_alt_svc(header_map(*old(headers)), port),
        header_names(*final(headers)) <= header_names(*old(headers)) + 1,
{
    if let Some(p) = port {
        let mut v = "h3=\":".to_owned();
        push_decimal(&mut v, p as u64);
        v.append("\"; ma=86400");
        set_text(headers, "alt-svc", v.as_str());
    }
}

/// The headers after every `add_header` of a list. A value that is not
/// well-formed is skipped.
pub open spec fn with_add_headers(
    m: Map<Seq<char>, Seq<Seq<u8>>>,
    list: Seq<(Seq<char>, Seq<SegmentV>)>,
    ctx: RequestCtx<'_>,
) -> Map<Seq<char>, Seq<Seq<u8>>>
    decreases list.len(),
{
    if list.len() == 0 {
        m
    } else {
        with_header(
            with_add_headers(m, list.drop_last(), ctx),
            list.last().0,
            encode_utf8(rendered(list.last().1, ctx)),
        )
    }
}

/// Apply every `add_header` of a list.
pub fn apply_add_headers(
    headers: &mut hyper::HeaderMap,
    list: &Vec<(String, Template)>,
    ctx: &RequestCtx<'_>,
)
    requires
        has_room(*old(headers), list@.len()),
    ensures
        header_map(*final(headers)) == with_add_headers(
            header_map(*old(headers)),
            views(list@),
            *ctx,
        ),
        header_names(*final(headers)) <= header_names(*old(headers)) + list@.len(),
{
    let ghost all = views(list@);
    let ghost before = header_map(*headers);
    let mut i: usize = 0;
    assert(all.take(0) =~= seq![]);
    while i < list.len()
        invariant
            i <= list@.len(),
            all == views(list@),
            before == header_map(*old(headers)),
            has_room(*old(headers), list@.len()),
            header_names(*headers) <= header_names(*old(headers)) + i,
            header_map(*headers) == with_add_headers(before, all.take(i as int), *ctx),
        decreases list@.len() - i,
    {
        let ghost now = all.take(i + 1);
        assert(now.drop_last() == all.take(i as int));
        assert(now.last() == list@[i as int]@);
        let value = list[i].1.render(ctx);
        set_text(headers, list[i].0.as_str(), value.as_str());
        i = i + 1;
    }
    assert(all.take(i as int) == all);
}

/// The second `secs` after `now`, at most the last one that can be named.
pub open spec fn second_after(now: u64, secs: u64) -> u64 {
    if now + secs > u64::MAX {
        u64::MAX
    } else {
        (now + secs) as u64
    }
}

/// The headers with a lifetime: `Cache-Control: max-age=N`, and `Expires` when
/// the wall clock can be told.
pub open spec fn with_expires(m: Map<Seq<char>, Seq<Seq<u8>>>, secs: u64, now: Option<u64>) -> Map<
    Seq<char>,
    Seq<Seq<u8>>,
> {
    let m1 = with_header(m, "cache-control"@, encode_utf8("max-age="@ + decimal(secs as nat)));
    match now {
        Some(n) => with_header(
            m1,
            "expires"@,
            encode_utf8(http_date(second_after(n, secs) as int)),
        ),
        None => m1,
    }
}

/// Apply `expires <duration>` semantics: set both `Cache-Control: max-age=N`
/// and `Expires: <http-date>`.
pub fn apply_expires(headers: &mut hyper::HeaderMap, dur: Duration)
    requires
        has_room(*old(headers), 2),
    ensures
        exists|now: Option<u64>|
            header_map(*final(headers)) == #[trigger] with_expires(
                header_map(*old(headers)),
                dur.secs,
                now,
            ),
        header_names(*final(headers)) <= header_names(*old(headers)) + 2,
{
    let now: Option<u64> = match wall_clock() {
        Some(d) => Some(d.as_secs()),
        None => None,
    };
    apply_expires_at(headers, dur, now);
}

/// Apply `expires` at `now`, in seconds since the Unix epoch.
pub fn apply_expires_at(headers: &mut hyper::HeaderMap, dur: Duration, now: Option<u64>)
    requires
        has_room(*old(headers), 2),
    ensures
        header_map(*final(headers)) == with_expires(header_map(*old(headers)), dur.secs, now),
        header_names(*final(headers)) <= header_names(*old(headers)) + 2,
{
    let secs: u64 = dur.as_secs();
    let mut age = "max-age=".to_owned();
    push_decimal(&mut age, secs);
    set_text(headers, "cache-control", age.as_str());
    if let Some(n) = now {
        let expiry: u64 = n.saturating_add(secs);
        set_text(headers, "expires", crate::http_date::format(expiry).as_str());
    }
}

/// The headers that a location adds to a response.
pub open spec fn with_location_headers(
    m: Map<Seq<char>, Seq<Seq<u8>>>,
    l: LocationRtV,
    ctx: RequestCtx<'_>,
    now: Option<u64>,
) -> Map<Seq<char>, Seq<Seq<u8>>> {
    let added = with_add_headers(m, l.add_headers, ctx);
    match l.expires {
        Some(d) => with_expires(added, d.secs, now),
        None => added,
    }
}

/// Add what a location adds to a response: `add_header`, then `expires`.
pub fn apply_location(headers: &mut hyper::HeaderMap, loc: &LocationRt, ctx: &RequestCtx<'_>)
    requires
        has_room(*old(headers), loc.add_headers@.len() + 2),
    ensures
        exists|now: Option<u64>|
            header_map(*final(headers)) == #[trigger] with_location_headers(
                header_map(*old(headers)),
                loc@,
                *ctx,
                now,
            ),
        header_names(*final(headers)) <= header_names(*old(headers)) + loc.add_headers@.len() + 2,
{
    let now: Option<u64> = match wall_clock() {
        Some(d) => Some(d.as_secs()),
        None => None,
    };
    apply_location_at(headers, loc, ctx, now);
}

/// Add what a location adds to a response at `now`, in seconds since the Unix
/// epoch.
pub fn apply_location_at(
    headers: &mut hyper::HeaderMap,
    loc: &LocationRt,
    ctx: &RequestCtx<'_>,
    now: Option<u64>,
)
    requires
        has_room(*old(headers), loc.add_headers@.len() + 2),
    ensures
        header_map(*final(headers)) == with_location_headers(
            header_map(*old(headers)),
            loc@,
            *ctx,
            now,
        ),
        header_names(*final(headers)) <= header_names(*old(headers)) + loc.add_headers@.len() + 2,
{
    apply_add_headers(headers, &loc.add_headers, ctx);
    if let Some(d) = loc.expires {
        apply_expires_at(headers, d, now);
    }
}

// ---------------------------------------------------------------------------
// Compression
// ---------------------------------------------------------------------------

/// Whether responses of a location may be compressed: its own setting, else
/// that of the server.
pub open spec fn gzip_on(server: bool, own: Option<bool>) -> bool {
    match own {
        Some(b) => b,
        None => server,
    }
}

/// Whether responses of a location may be compressed.
pub fn gzip_enabled(state: &ServerState, loc: &LocationRt) -> (r: bool)
    ensures
        r == gzip_on(state.gzip, loc.gzip),
{
    match loc.gzip {
        Some(b) => b,
        None => state.gzip,
    }
}

/// How much of a response may be buffered to compress it: proxied responses
/// stream, so there is a limit; the others are in memory anyway.
pub open spec fn collect_limit(action: ActionRtV) -> Option<usize> {
    if action is Proxy {
        Some(PROXY_GZIP_MAX_COLLECT)
    } else {
        None
    }
}

/// How much of a response may be buffered to compress it.
pub fn max_collect(action: &ActionRt) -> (r: Option<usize>)
    ensures
        r == collect_limit(action@),
{
    match action {
        ActionRt::Proxy { .. } => Some(PROXY_GZIP_MAX_COLLECT),
        _ => None,
    }
}

/// A response as it goes to the client over HTTP/1 and HTTP/2: HTTP/3
/// advertised, the location's headers added, and the body compressed where that
/// is wanted.
pub open spec fn finished_response(
    r: ResponseV,
    state: ServerStateV,
    loc: Option<LocationRtV>,
    ctx: RequestCtx<'_>,
    port: Option<u16>,
    now: Option<u64>,
) -> ResponseV {
    let base = ResponseV { headers: with_alt_svc(r.headers, port), ..r };
    match loc {
        None => base,
        Some(l) => compressed(
            ResponseV { headers: with_location_headers(base.headers, l, ctx, now), ..base },
            header_map(*ctx.headers),
            gzip_on(state.gzip, l.gzip),
            state.gzip_types,
            state.gzip_min_length,
            collect_limit(l.action),
        ),
    }
}

/// Finish a response that is held in memory.
pub fn finish(
    resp: Response,
    state: &ServerState,
    loc: Option<&LocationRt>,
    ctx: &RequestCtx<'_>,
    port: Option<u16>,
    now: Option<u64>,
) -> (r: Response)
    requires
        has_room(
            resp.headers,
            6 + (match loc {
                Some(l) => l.add_headers@.len(),
                None => 0,
            }),
        ),
    ensures
        r@ == finished_response(
            resp@,
            state@,
            match loc {
                Some(l) => Some(l@),
                None => None,
            },
            *ctx,
            port,
            now,
        ),
{
    let mut resp = resp;
    advertise_http3(&mut resp.headers, port);
    match loc {
        None => resp,
        Some(l) => {
            apply_location_at(&mut resp.headers, l, ctx, now);
            compress(
                resp,
                ctx.headers,
                gzip_enabled(state, l),
                &state.gzip_types,
                state.gzip_min_length,
                max_collect(&l.action),
            )
        },
    }
}

// ---------------------------------------------------------------------------
// Laws
// ---------------------------------------------------------------------------

/// A `map` sees only what was published above it: what is declared behind does
/// not change its output.
pub proof fn law_map_sees_only_what_is_above(maps: Seq<MapDeclV>, ctx: RequestCtx<'_>, n: int)
    requires
        0 <= n <= maps.len(),
    ensures
        map_outputs(maps, ctx).len() == maps.len(),
        map_outputs(maps, ctx).take(n) == map_outputs(maps.take(n), ctx),
    decreases maps.len(),
{
    lemma_map_outputs_len(maps, ctx);
    lemma_map_outputs_len(maps.take(n), ctx);
    if n < maps.len() {
        let before = maps.drop_last();
        law_map_sees_only_what_is_above(before, ctx, n);
        assert(before.take(n) == maps.take(n));
        assert(map_outputs(maps, ctx).take(n) =~= map_outputs(before, ctx).take(n));
    } else {
        assert(maps.take(n) == maps);
        assert(map_outputs(maps, ctx).take(n) =~= map_outputs(maps, ctx));
    }
}

proof fn lemma_map_outputs_len(maps: Seq<MapDeclV>, ctx: RequestCtx<'_>)
    ensures
        map_outputs(maps, ctx).len() == maps.len(),
    decreases maps.len(),
{
    if maps.len() > 0 {
        lemma_map_outputs_len(maps.drop_last(), ctx);
    }
}

/// Among several `add_header` of one name the last one with a well-formed value
/// decides, so a location overrides its server, and both override what the
/// response carried.
pub proof fn law_last_add_header_wins(
    m: Map<Seq<char>, Seq<Seq<u8>>>,
    list: Seq<(Seq<char>, Seq<SegmentV>)>,
    ctx: RequestCtx<'_>,
    i: int,
)
    requires
        0 <= i < list.len(),
        is_header_name(list[i].0),
        is_header_value(encode_utf8(rendered(list[i].1, ctx))),
        forall|j: int| i < j < list.len() ==> lower((#[trigger] list[j]).0) != lower(list[i].0),
    ensures
        header_values(with_add_headers(m, list, ctx), list[i].0) == seq![
            encode_utf8(rendered(list[i].1, ctx)),
        ],
    decreases list.len(),
{
    if i < list.len() - 1 {
        let before = list.drop_last();
        assert(before[i] == list[i]);
        assert forall|j: int| i < j < before.len() implies lower((#[trigger] before[j]).0) != lower(
            before[i].0,
        ) by {
            assert(before[j] == list[j]);
        }
        law_last_add_header_wins(m, before, ctx, i);
        assert(list.last() == list[list.len() - 1]);
    }
}

} // verus!
