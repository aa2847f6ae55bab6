//! Reverse proxy with idempotent-method retry across upstream peers: what goes
//! to an upstream, which peer is asked next, and what becomes of its reply. The
//! exchange itself is left to the HTTP client.

use crate::app::balance::{
    advanced, available, Balancer, BalancerV, candidates, InflightGuard, law_picked_is_available,
    law_some_peer_is_picked, picked, sum_to, weights, with_entered, with_settled,
};
use crate::app::runtime::{DEFAULT_PROXY_READ_TIMEOUT, ProxyCache};
use crate::body::{Response, ResponseV, text, text_response};
use crate::cache::{
    after_lookup, build_signature, CacheDecision, CacheDecisionV, CacheStore, copy_bytes,
    decide_caching, decision, Entry, entry_size, EntryV, law_put_then_get_on_the_same_axes, lookup,
    lookup_metrics, parse_vary, same_store, signature_of, vary_names,
};
use crate::config::ast::LbMethod;
use crate::headers::{
    add_line, carries_values, distinct_names, drop_header, get_values, has_room, header_lines,
    header_map, header_names, header_values, is_header_name, is_header_value, is_plain,
    is_stored_name, join_values, joined, lemma_joined_is_value, lemma_plain_value,
    lemma_value_concat, line_ok, line_views, lines_ok, lists, MAX_HEADER_NAMES, new_headers,
    replayed, set_text, set_value, value_views, values_at, values_in, with_header, with_line,
    without_header,
};
use crate::metrics::{Metrics, record_cache_bypass, record_proxy_attempt, record_proxy_failure};
use crate::net::{format_ip, ip_string, IpAddr, lemma_address_is_plain};
use crate::request_ctx::{RequestCtx, Uri};
use crate::template::{rendered, SegmentV, Template};
use crate::text::{lemma_views_push, lower, opt_view, same, views};
use crate::time::{add_duration, Duration, later, now_ms, of_secs};
use vstd::prelude::*;
use vstd::string::*;
use vstd::utf8::encode_utf8;

verus! {

// ---------------------------------------------------------------------------
// Headers on the way through
// ---------------------------------------------------------------------------

/// Headers that concern one connection only and are not passed on.
pub open spec fn hop_by_hop() -> Seq<Seq<char>> {
    seq![
        "connection"@,
        "keep-alive"@,
        "proxy-authenticate"@,
        "proxy-authorization"@,
        "te"@,
        "trailers"@,
        "transfer-encoding"@,
        "upgrade"@,
    ]
}

/// The headers without the first `n` of `names`.
pub open spec fn without_names(m: Map<Seq<char>, Seq<Seq<u8>>>, names: Seq<Seq<char>>, n: int) -> Map<
    Seq<char>,
    Seq<Seq<u8>>,
>
    decreases n,
{
    if n <= 0 {
        m
    } else {
        without_header(without_names(m, names, n - 1), names[n - 1])
    }
}

/// The headers that may be passed on.
pub open spec fn end_to_end(m: Map<Seq<char>, Seq<Seq<u8>>>) -> Map<Seq<char>, Seq<Seq<u8>>> {
    without_names(m, hop_by_hop(), 8)
}

/// Drop the headers that concern one connection only.
pub fn strip_hop_by_hop(headers: &mut hyper::HeaderMap)
    ensures
        header_map(*final(headers)) == end_to_end(header_map(*old(headers))),
        header_names(*final(headers)) <= header_names(*old(headers)),
{
    proof {
        reveal_with_fuel(without_names, 9);
    }
    drop_header(headers, "connection");
    drop_header(headers, "keep-alive");
    drop_header(headers, "proxy-authenticate");
    drop_header(headers, "proxy-authorization");
    drop_header(headers, "te");
    drop_header(headers, "trailers");
    drop_header(headers, "transfer-encoding");
    drop_header(headers, "upgrade");
}

/// The client's address behind those that the request already passed through,
/// whatever bytes and however many lines they came in.
pub open spec fn forwarding_chain(existing: Seq<Seq<u8>>, ip: Seq<char>) -> Seq<u8> {
    if existing.len() == 0 {
        encode_utf8(ip)
    } else {
        joined(existing) + encode_utf8(", "@) + encode_utf8(ip)
    }
}

/// The headers with the client's address and the listener's scheme added.
pub open spec fn with_forwarding(
    m: Map<Seq<char>, Seq<Seq<u8>>>,
    ip: Seq<char>,
    scheme: Seq<char>,
) -> Map<Seq<char>, Seq<Seq<u8>>> {
    let m1 = with_header(m, "x-real-ip"@, encode_utf8(ip));
    let m2 = with_header(
        m1,
        "x-forwarded-for"@,
        forwarding_chain(header_values(m1, "x-forwarded-for"@), ip),
    );
    with_header(m2, "x-forwarded-proto"@, encode_utf8(scheme))
}

/// Tell the upstream who asked, through whom, and over which scheme.
pub fn add_forwarding_headers(headers: &mut hyper::HeaderMap, client: IpAddr, scheme: &str)
    requires
        has_room(*old(headers), 3),
    ensures
        header_map(*final(headers)) == with_forwarding(
            header_map(*old(headers)),
            ip_string(client),
            scheme@,
        ),
        header_names(*final(headers)) <= header_names(*old(headers)) + 3,
{
    let ip = format_ip(client);
    set_text(headers, "x-real-ip", ip.as_str());
    let existing = get_values(headers, "x-forwarded-for");
    let mut chain = join_values(&existing);
    if existing.len() > 0 {
        chain.extend_from_slice(", ".as_bytes());
    }
    chain.extend_from_slice(ip.as_str().as_bytes());
    assert(value_views(existing@).len() == existing@.len());
    assert(chain@ =~= forwarding_chain(value_views(existing@), ip@));
    set_value(headers, "x-forwarded-for", chain.as_slice());
    set_text(headers, "x-forwarded-proto", scheme);
}

/// The headers after every `proxy_set_header` of a list: an empty value removes
/// the header.
pub open spec fn with_set_headers(
    m: Map<Seq<char>, Seq<Seq<u8>>>,
    list: Seq<(Seq<char>, Seq<SegmentV>)>,
    ctx: RequestCtx<'_>,
) -> Map<Seq<char>, Seq<Seq<u8>>>
    decreases list.len(),
{
    if list.len() == 0 {
        m
    } else {
        let before = with_set_headers(m, list.drop_last(), ctx);
        let value = rendered(list.last().1, ctx);
        if value.len() == 0 {
            without_header(before, list.last().0)
        } else {
            with_header(before, list.last().0, encode_utf8(value))
        }
    }
}

/// Apply every `proxy_set_header` of a list.
pub fn apply_proxy_set_headers(
    headers: &mut hyper::HeaderMap,
    list: &Vec<(String, Template)>,
    ctx: &RequestCtx<'_>,
)
    requires
        has_room(*old(headers), list@.len()),
    ensures
        header_map(*final(headers)) == with_set_headers(
            header_map(*old(headers)),
            views(list@),
            *ctx,
        ),
        header_names(*final(headers)) <= header_names(*old(headers)) + list@.len(),
{
    let ghost all = views(list@);
    let ghost before = header_map(*headers);
    let mut i: usize = 0;
    assert(all.take(0) =~= seq![]);
    while i < list.len()
        invariant
            i <= list@.len(),
            all == views(list@),
            before == header_map(*old(headers)),
            has_room(*old(headers), list@.len()),
            header_names(*headers) <= header_names(*old(headers)) + i,
            header_map(*headers) == with_set_headers(before, all.take(i as int), *ctx),
        decreases list@.len() - i,
    {
        let ghost now = all.take(i + 1);
        assert(now.drop_last() == all.take(i as int));
        assert(now.last() == list@[i as int]@);
        let value = list[i].1.render(ctx);
        if value.as_str().is_empty() {
            drop_header(headers, list[i].0.as_str());
        } else {
            set_text(headers, list[i].0.as_str(), value.as_str());
        }
        i = i + 1;
    }
    assert(all.take(i as int) == all);
}

/// The headers of the request to an upstream.
pub open spec fn outbound_headers(
    m: Map<Seq<char>, Seq<Seq<u8>>>,
    list: Seq<(Seq<char>, Seq<SegmentV>)>,
    ctx: RequestCtx<'_>,
) -> Map<Seq<char>, Seq<Seq<u8>>> {
    with_set_headers(
        with_forwarding(end_to_end(m), ip_string(ctx.peer.ip), ctx.scheme@),
        list,
        ctx,
    )
}

/// Turn the headers of a request into those of the request to an upstream.
pub fn prepare_headers(
    headers: &mut hyper::HeaderMap,
    set_headers: &Vec<(String, Template)>,
    ctx: &RequestCtx<'_>,
)
    requires
        has_room(*old(headers), set_headers@.len() + 3),
    ensures
        header_map(*final(headers)) == outbound_headers(
            header_map(*old(headers)),
            views(set_headers@),
            *ctx,
        ),
{
    strip_hop_by_hop(headers);
    add_forwarding_headers(headers, ctx.peer.ip, ctx.scheme);
    apply_proxy_set_headers(headers, set_headers, ctx);
}

/// Where a request goes at an upstream: path and query stay as they are.
pub open spec fn upstream_uri_of(scheme: Seq<char>, addr: Seq<char>, uri: Uri) -> Seq<char> {
    scheme + "://"@ + addr + (match uri.path_and_query {
        Some(p) => p@,
        None => "/"@,
    })
}

/// Where a request goes at an upstream.
pub fn upstream_uri(scheme: &str, addr: &str, uri: &Uri) -> (r: String)
    ensures
        r@ == upstream_uri_of(scheme@, addr@, *uri),
{
    let mut r = scheme.to_owned();
    r.append("://");
    r.append(addr);
    match &uri.path_and_query {
        Some(p) => {
            r.append(p.as_str());
        },
        None => {
            r.append("/");
        },
    }
    r
}

// ---------------------------------------------------------------------------
// Retry
// ---------------------------------------------------------------------------

/// Upper bound on retry attempts (initial + retries). Even a large upstream
/// pool should not loop forever on a flaky cluster.
pub const MAX_ATTEMPTS: usize = 3;

/// Whether a method is idempotent, so that the request may be sent again.
pub open spec fn idempotent(method: Seq<char>) -> bool {
    method == "GET"@ || method == "HEAD"@ || method == "OPTIONS"@ || method == "DELETE"@
}

/// Whether a request with this method may be sent again.
pub fn retry_safe(method: &str) -> (r: bool)
    ensures
        r == idempotent(method@),
{
    same(method, "GET") || same(method, "HEAD") || same(method, "OPTIONS") || same(method, "DELETE")
}

/// How far forwarding one request has come.
#[derive(Debug)]
pub struct Retry {
    /// How often the request may be sent.
    pub max: usize,
    /// How often it has been sent.
    pub tries: usize,
    /// The peers that failed for this request.
    pub excluded: Vec<String>,
    /// Whether a peer has answered, if only with an error.
    pub answered: bool,
}

/// Model of a [`Retry`].
pub struct RetryV {
    pub max: usize,
    pub tries: usize,
    pub excluded: Seq<Seq<char>>,
    pub answered: bool,
}

impl View for Retry {
    type V = RetryV;

    open spec fn view(&self) -> RetryV {
        RetryV {
            max: self.max,
            tries: self.tries,
            excluded: views(self.excluded@),
            answered: self.answered,
        }
    }
}

/// How often a request may be sent: once, or for an idempotent method once per
/// peer up to the bound.
pub open spec fn attempts_for(method: Seq<char>, peers: nat) -> usize {
    if !idempotent(method) || peers <= 1 {
        1
    } else if peers < MAX_ATTEMPTS {
        peers as usize
    } else {
        MAX_ATTEMPTS
    }
}

/// What to do next with a request.
#[derive(Debug)]
pub enum NextTry {
    /// Send it to the peer at this position; the token ends the exchange.
    Send { peer: usize, token: InflightGuard },
    /// No peer is left: hand on the last answer.
    LastAnswer,
    /// No peer is left and none has answered.
    BadGateway,
}

/// Model of a [`NextTry`].
pub enum NextTryV {
    Send { peer: int },
    LastAnswer,
    BadGateway,
}

impl View for NextTry {
    type V = NextTryV;

    open spec fn view(&self) -> NextTryV {
        match self {
            NextTry::Send { peer, .. } => NextTryV::Send { peer: *peer as int },
            NextTry::LastAnswer => NextTryV::LastAnswer,
            NextTry::BadGateway => NextTryV::BadGateway,
        }
    }
}

/// The peer that is asked next, if the request may be sent once more and a peer
/// is left.
pub open spec fn next_peer(s: RetryV, b: BalancerV, ip: IpAddr, now: u64) -> Option<int> {
    if s.tries < s.max {
        picked(b, ip, s.excluded, now)
    } else {
        None
    }
}

/// What is done next with a request.
pub open spec fn next_try(s: RetryV, b: BalancerV, ip: IpAddr, now: u64) -> NextTryV {
    match next_peer(s, b, ip, now) {
        Some(i) => NextTryV::Send { peer: i },
        None => if s.answered {
            NextTryV::LastAnswer
        } else {
            NextTryV::BadGateway
        },
    }
}

/// The balancer after that choice.
pub open spec fn balancer_sent(s: RetryV, b: BalancerV, ip: IpAddr, now: u64) -> BalancerV {
    match next_peer(s, b, ip, now) {
        Some(i) => with_entered(advanced(b, ip, s.excluded, now), i),
        None => b,
    }
}

/// The retry state after that choice.
pub open spec fn retry_sent(s: RetryV, b: BalancerV, ip: IpAddr, now: u64) -> RetryV {
    match next_peer(s, b, ip, now) {
        Some(i) => RetryV { tries: (s.tries + 1) as usize, ..s },
        None => s,
    }
}

/// The metrics after that choice.
pub open spec fn metrics_sent(s: RetryV, b: BalancerV, ip: IpAddr, now: u64, m: Metrics) -> Metrics {
    match next_peer(s, b, ip, now) {
        Some(i) => Metrics { proxy_attempts: m.proxy_attempts.wrapping_add(1), ..m },
        None => m,
    }
}

/// Whether a reply is good: anything but an error of the server.
pub open spec fn good_reply(reply: Option<u16>) -> bool {
    reply matches Some(s) && !(500 <= s < 600)
}

/// The retry state after a peer at `addr` has replied.
pub open spec fn retry_settled(s: RetryV, addr: Seq<char>, reply: Option<u16>) -> RetryV {
    if good_reply(reply) {
        s
    } else {
        RetryV {
            excluded: s.excluded.push(addr),
            answered: s.answered || reply is Some,
            ..s
        }
    }
}

impl Retry {
    /// Start forwarding a request to an upstream with this many peers.
    pub fn new(method: &str, peers: usize) -> (r: Retry)
        ensures
            r@ == untried(method@, peers as nat),
    {
        let max: usize = if !retry_safe(method) || peers <= 1 {
            1
        } else if peers < MAX_ATTEMPTS {
            peers
        } else {
            MAX_ATTEMPTS
        };
        let r = Retry { max, tries: 0, excluded: Vec::new(), answered: false };
        assert(r@.excluded =~= seq![]);
        r
    }

    /// Choose what to do next.
    pub fn next(&mut self, balancer: &mut Balancer, ctx: &RequestCtx<'_>, metrics: &mut Metrics) -> (r:
        NextTry)
        ensures
            exists|now: u64|
                #![trigger next_try(old(self)@, old(balancer)@, ctx.peer.ip, now)]
                {
                    &&& r@ == next_try(old(self)@, old(balancer)@, ctx.peer.ip, now)
                    &&& final(self)@ == retry_sent(old(self)@, old(balancer)@, ctx.peer.ip, now)
                    &&& final(balancer)@ == balancer_sent(
                        old(self)@,
                        old(balancer)@,
                        ctx.peer.ip,
                        now,
                    )
                    &&& *final(metrics) == metrics_sent(
                        old(self)@,
                        old(balancer)@,
                        ctx.peer.ip,
                        now,
                        *old(metrics),
                    )
                },
            r matches NextTry::Send { peer, .. } ==> peer < old(balancer).peers@.len(),
            final(balancer).peers@.len() == old(balancer).peers@.len(),
    {
        let now = now_ms();
        let r = self.next_at(balancer, ctx.peer.ip, now, metrics);
        assert(r@ == next_try(old(self)@, old(balancer)@, ctx.peer.ip, now));
        r
    }

    /// Choose what to do next at `now`.
    pub fn next_at(
        &mut self,
        balancer: &mut Balancer,
        client_ip: IpAddr,
        now: u64,
        metrics: &mut Metrics,
    ) -> (r: NextTry)
        ensures
            r@ == next_try(old(self)@, old(balancer)@, client_ip, now),
            final(self)@ == retry_sent(old(self)@, old(balancer)@, client_ip, now),
            final(balancer)@ == balancer_sent(old(self)@, old(balancer)@, client_ip, now),
            *final(metrics) == metrics_sent(
                old(self)@,
                old(balancer)@,
                client_ip,
                now,
                *old(metrics),
            ),
            r matches NextTry::Send { peer, .. } ==> peer < old(balancer).peers@.len(),
            final(balancer).peers@.len() == old(balancer).peers@.len(),
    {
        if self.tries < self.max {
            if let Some(i) = balancer.pick_at(client_ip, &self.excluded, now) {
                let token = balancer.enter(i);
                self.tries = self.tries + 1;
                record_proxy_attempt(metrics);
                return NextTry::Send { peer: i, token };
            }
        }
        if self.answered {
            NextTry::LastAnswer
        } else {
            NextTry::BadGateway
        }
    }

    /// Take in the status that a peer replied with, or that it did not reply.
    /// Returns whether the reply goes to the client.
    pub fn settle(
        &mut self,
        balancer: &mut Balancer,
        peer: usize,
        token: InflightGuard,
        reply: Option<u16>,
        metrics: &mut Metrics,
    ) -> (deliver: bool)
        requires
            peer < old(balancer).peers@.len(),
        ensures
            deliver == good_reply(reply),
            exists|now: u64|
                final(balancer)@ == #[trigger] with_settled(
                    old(balancer)@,
                    peer as int,
                    good_reply(reply),
                    now,
                ),
            final(self)@ == retry_settled(
                old(self)@,
                old(balancer)@.peers[peer as int].addr,
                reply,
            ),
            *final(metrics) == (if good_reply(reply) {
                *old(metrics)
            } else {
                Metrics {
                    proxy_failures: old(metrics).proxy_failures.wrapping_add(1),
                    ..*old(metrics)
                }
            }),
    {
        let now = now_ms();
        let r = self.settle_at(balancer, peer, token, reply, now, metrics);
        assert(balancer@ == with_settled(old(balancer)@, peer as int, good_reply(reply), now));
        r
    }

    /// Take in a reply at `now`.
    pub fn settle_at(
        &mut self,
        balancer: &mut Balancer,
        peer: usize,
        token: InflightGuard,
        reply: Option<u16>,
        now: u64,
        metrics: &mut Metrics,
    ) -> (deliver: bool)
        requires
            peer < old(balancer).peers@.len(),
        ensures
            deliver == good_reply(reply),
            final(balancer)@ == with_settled(old(balancer)@, peer as int, good_reply(reply), now),
            final(self)@ == retry_settled(
                old(self)@,
                old(balancer)@.peers[peer as int].addr,
                reply,
            ),
            *final(metrics) == (if good_reply(reply) {
                *old(metrics)
            } else {
                Metrics {
                    proxy_failures: old(metrics).proxy_failures.wrapping_add(1),
                    ..*old(metrics)
                }
            }),
    {
        assert(balancer@.peers[peer as int] == balancer.peers@[peer as int]@);
        let ok = match reply {
            Some(s) => !(500 <= s && s < 600),
            None => false,
        };
        let addr = balancer.peers[peer].addr.clone();
        balancer.settle_at(peer, token, ok, now);
        if !ok {
            record_proxy_failure(metrics);
            proof {
                lemma_views_push(self.excluded@, addr);
            }
            self.excluded.push(addr);
            if reply.is_some() {
                self.answered = true;
            }
        }
        ok
    }
}

// ---------------------------------------------------------------------------
// Cache
// ---------------------------------------------------------------------------

/// The response that a cached entry stands for, marked as a hit.
pub open spec fn cached_response_of(e: EntryV) -> ResponseV {
    ResponseV {
        status: e.status,
        headers: with_line(replayed(e.headers), ("x-cache"@, encode_utf8("HIT"@))),
        body: e.body,
    }
}

/// Serve a cached response. Attaches an `X-Cache: HIT` header. `None` when no
/// map takes so many header names.
pub fn cached_response(entry: Entry) -> (r: Option<Response>)
    ensures
        match r {
            Some(x) => x@ == cached_response_of(entry@) && header_names(x.headers)
                <= distinct_names(entry@.headers) + 1,
            None => distinct_names(entry@.headers) >= MAX_HEADER_NAMES,
        },
{
    let mut headers = new_headers();
    let ghost all = line_views(entry.headers@);
    let mut i: usize = 0;
    assert(all.take(0) =~= seq![]);
    while i < entry.headers.len()
        invariant
            i <= entry.headers@.len(),
            all == line_views(entry.headers@),
            header_names(headers) == distinct_names(all.take(i as int)),
            header_map(headers) == replayed(all.take(i as int)),
        decreases entry.headers@.len() - i,
    {
        let ghost now = all.take(i + 1);
        assert(now.drop_last() == all.take(i as int));
        assert(now.last() == (entry.headers@[i as int].0@, entry.headers@[i as int].1@));
        let added = add_line(
            &mut headers,
            entry.headers[i].0.as_str(),
            entry.headers[i].1.as_slice(),
        );
        if added.is_err() {
            proof {
                lemma_names_grow(all, i as int);
            }
            return None;
        }
        i = i + 1;
    }
    assert(all.take(i as int) == all);
    if add_line(&mut headers, "x-cache", "HIT".as_bytes()).is_err() {
        return None;
    }
    Some(Response { status: entry.status, headers, body: entry.body })
}

proof fn lemma_names_grow(list: Seq<(Seq<char>, Seq<u8>)>, n: int)
    requires
        0 <= n <= list.len(),
    ensures
        distinct_names(list.take(n)) <= distinct_names(list),
    decreases list.len(),
{
    if n < list.len() {
        lemma_names_grow(list.drop_last(), n);
        assert(list.drop_last().take(n) =~= list.take(n));
    } else {
        assert(list.take(n) =~= list);
    }
}

/// Whether `answer` is what the cache of a location answers when it has found
/// `found`: the entry, where there is one. Only `GET` is answered, and an entry
/// is passed over only when no map takes so many header names.
pub open spec fn answers(
    method: Seq<char>,
    found: Option<EntryV>,
    answer: Option<ResponseV>,
) -> bool {
    match (found, answer) {
        (Some(e), Some(r)) => method == "GET"@ && r == cached_response_of(e),
        (Some(e), None) => method == "GET"@ ==> distinct_names(e.headers) >= MAX_HEADER_NAMES,
        (None, _) => answer is None,
    }
}

/// What consulting a store at `now` of its clock does: stale variants of the
/// key are dropped, and the lookup is counted.
pub open spec fn consulted(
    before: CacheStore,
    after: CacheStore,
    key: Seq<char>,
    ctx: RequestCtx<'_>,
    counted: Metrics,
    recounted: Metrics,
    answer: Option<ResponseV>,
    now: u64,
) -> bool {
    let found = lookup(before.slots(), key, header_map(*ctx.headers), now);
    &&& after.wf()
    &&& same_store(before, after)
    &&& after.slots() == after_lookup(before.slots(), key, now)
    &&& answers(ctx.method@, found, answer)
    &&& recounted == lookup_metrics(counted, before.bytes() - after.bytes(), found is Some)
}

/// Try the cache before any upstream selection. Only `GET` is consultable.
pub fn lookup_cache(
    cache: &ProxyCache,
    stores: &mut Vec<CacheStore>,
    ctx: &RequestCtx<'_>,
    metrics: &mut Metrics,
) -> (r: Option<Response>)
    requires
        cache.store < old(stores)@.len(),
        old(stores)@[cache.store as int].wf(),
    ensures
        final(stores)@.len() == old(stores)@.len(),
        final(stores)@[cache.store as int].wf(),
        forall|k: int|
            0 <= k < old(stores)@.len() && k != cache.store ==> (#[trigger] final(stores)@[k])
                == old(stores)@[k],
        ctx.method@ != "GET"@ ==> r is None && final(stores)@ == old(stores)@ && *final(metrics)
            == *old(metrics),
        ctx.method@ == "GET"@ ==> exists|now: u64| #[trigger]
            consulted(
                old(stores)@[cache.store as int],
                final(stores)@[cache.store as int],
                rendered(cache.key_template@, *ctx),
                *ctx,
                *old(metrics),
                *final(metrics),
                opt_view(r),
                now,
            ),
{
    let now = stores[cache.store].now();
    lookup_cache_at(cache, stores, now, ctx, metrics)
}

/// Try the cache at the point `now` of its store's clock.
pub fn lookup_cache_at(
    cache: &ProxyCache,
    stores: &mut Vec<CacheStore>,
    now: u64,
    ctx: &RequestCtx<'_>,
    metrics: &mut Metrics,
) -> (r: Option<Response>)
    requires
        cache.store < old(stores)@.len(),
        old(stores)@[cache.store as int].wf(),
    ensures
        final(stores)@.len() == old(stores)@.len(),
        final(stores)@[cache.store as int].wf(),
        forall|k: int|
            0 <= k < old(stores)@.len() && k != cache.store ==> (#[trigger] final(stores)@[k])
                == old(stores)@[k],
        ctx.method@ != "GET"@ ==> r is None && final(stores)@ == old(stores)@ && *final(metrics)
            == *old(metrics),
        ctx.method@ == "GET"@ ==> consulted(
            old(stores)@[cache.store as int],
            final(stores)@[cache.store as int],
            rendered(cache.key_template@, *ctx),
            *ctx,
            *old(metrics),
            *final(metrics),
            opt_view(r),
            now,
        ),
{
    if !same(ctx.method, "GET") {
        return None;
    }
    let key = cache.key_template.render(ctx);
    let found = stores[cache.store].get_at(key.as_str(), ctx.headers, now, metrics);
    match found {
        Some(entry) => cached_response(entry),
        None => None,
    }
}

/// A response with `X-Cache` set.
pub open spec fn cache_marked(r: ResponseV, label: Seq<char>) -> ResponseV {
    ResponseV { headers: with_header(r.headers, "x-cache"@, encode_utf8(label)), ..r }
}

fn mark_cache(resp: Response, label: &str) -> (r: Response)
    requires
        has_room(resp.headers, 1),
    ensures
        r@ == cache_marked(resp@, label@),
        header_names(r.headers) <= header_names(resp.headers) + 1,
{
    let mut resp = resp;
    set_text(&mut resp.headers, "x-cache", label);
    resp
}

/// Whether an entry holds a response to a request with the given headers, to be
/// kept until `expires_at`, in a form that can be served again. The order of the
/// header lines is left open.
pub open spec fn entry_holds(
    e: EntryV,
    r: ResponseV,
    req: Map<Seq<char>, Seq<Seq<u8>>>,
    expires_at: u64,
) -> bool {
    &&& e.status == r.status
    &&& e.body == r.body
    &&& lists(e.headers, r.headers)
    &&& lines_ok(e.headers)
    &&& distinct_names(e.headers) < MAX_HEADER_NAMES
    &&& e.vary_headers == vary_names(header_values(r.headers, "vary"@))
    &&& e.vary_signature == signature_of(req, e.vary_headers)
    &&& e.expires_at == expires_at
}

/// Whether a store has taken in a response under `key`.
pub open spec fn holds_response(
    before: CacheStore,
    after: CacheStore,
    key: Seq<char>,
    r: ResponseV,
    req: Map<Seq<char>, Seq<Seq<u8>>>,
    expires_at: u64,
    counted: Metrics,
    recounted: Metrics,
) -> bool {
    exists|e: EntryV| #[trigger]
        entry_holds(e, r, req, expires_at) && CacheStore::stored(
            before,
            after,
            key,
            e,
            counted,
            recounted,
        )
}

/// What offering the response `resp` to the cache of a location at `now` does:
/// `r` is the response that goes on to the client.
pub open spec fn offered(
    cache: Option<&ProxyCache>,
    before: Seq<CacheStore>,
    after: Seq<CacheStore>,
    resp: ResponseV,
    r: ResponseV,
    ctx: RequestCtx<'_>,
    counted: Metrics,
    recounted: Metrics,
    now: u64,
) -> bool {
    match cache {
        None => r == resp && after == before && recounted == counted,
        Some(c) => if ctx.method@ != "GET"@ {
            r == cache_marked(resp, "BYPASS"@) && after == before && recounted == counted
        } else {
            match decision(
                ctx.method@,
                resp.headers,
                resp.status,
                resp.body.len() as int,
                views(c.valid_rules@),
            ) {
                CacheDecisionV::Bypass(_) => {
                    &&& r == cache_marked(resp, "BYPASS"@)
                    &&& after == before
                    &&& recounted == (Metrics {
                        cache_bypass: counted.cache_bypass.wrapping_add(1),
                        ..counted
                    })
                },
                CacheDecisionV::Store(ttl) => {
                    &&& r == cache_marked(resp, "MISS"@)
                    &&& holds_response(
                        before[c.store as int],
                        after[c.store as int],
                        rendered(c.key_template@, ctx),
                        resp,
                        header_map(*ctx.headers),
                        later(now, ttl),
                        counted,
                        recounted,
                    )
                    &&& forall|k: int|
                        0 <= k < before.len() && k != c.store ==> (#[trigger] after[k])
                            == before[k]
                },
            }
        },
    }
}

/// If the location has a cache and the response is cacheable, store it.
/// Returns the response (possibly with `X-Cache: MISS` / `X-Cache: BYPASS`).
/// Non-cached responses still get an `X-Cache` header so operators can grep
/// for misses.
pub fn maybe_cache(
    resp: Response,
    cache: Option<&ProxyCache>,
    stores: &mut Vec<CacheStore>,
    ctx: &RequestCtx<'_>,
    metrics: &mut Metrics,
) -> (r: Response)
    requires
        has_room(resp.headers, 1),
        cache matches Some(c) ==> c.store < old(stores)@.len() && old(stores)@[c.store as int].wf(),
    ensures
        header_names(r.headers) <= header_names(resp.headers) + 1,
        final(stores)@.len() == old(stores)@.len(),
        exists|now: u64| #[trigger]
            offered(
                cache,
                old(stores)@,
                final(stores)@,
                resp@,
                r@,
                *ctx,
                *old(metrics),
                *final(metrics),
                now,
            ),
{
    let now: u64 = match cache {
        Some(c) => stores[c.store].now(),
        None => 0,
    };
    maybe_cache_at(resp, cache, stores, now, ctx, metrics)
}

/// Offer a response to the cache at the point `now` of its store's clock.
pub fn maybe_cache_at(
    resp: Response,
    cache: Option<&ProxyCache>,
    stores: &mut Vec<CacheStore>,
    now: u64,
    ctx: &RequestCtx<'_>,
    metrics: &mut Metrics,
) -> (r: Response)
    requires
        has_room(resp.headers, 1),
        cache matches Some(c) ==> c.store < old(stores)@.len() && old(stores)@[c.store as int].wf(),
    ensures
        header_names(r.headers) <= header_names(resp.headers) + 1,
        final(stores)@.len() == old(stores)@.len(),
        offered(
            cache,
            old(stores)@,
            final(stores)@,
            resp@,
            r@,
            *ctx,
            *old(metrics),
            *final(metrics),
            now,
        ),
{
    let c = match cache {
        Some(c) => c,
        None => {
            return resp;
        },
    };
    if !same(ctx.method, "GET") {
        return mark_cache(resp, "BYPASS");
    }
    match decide_caching(
        ctx.method,
        &resp.headers,
        resp.status,
        resp.body.len(),
        &c.valid_rules,
    ) {
        CacheDecision::Bypass(_) => {
            record_cache_bypass(metrics);
            mark_cache(resp, "BYPASS")
        },
        CacheDecision::Store(ttl) => {
            let key = c.key_template.render(ctx);
            let vary_headers = parse_vary(&resp.headers);
            let vary_signature = build_signature(ctx.headers, &vary_headers);
            let expires_at = add_duration(now, ttl);
            let entry = Entry {
                status: resp.status,
                headers: header_lines(&resp.headers),
                body: copy_bytes(&resp.body),
                expires_at,
                vary_headers,
                vary_signature,
            };
            assert(entry_holds(entry@, resp@, header_map(*ctx.headers), expires_at));
            let ghost e = entry@;
            stores[c.store].put(key, entry, metrics);
            assert(holds_response(
                old(stores)@[c.store as int],
                stores@[c.store as int],
                rendered(c.key_template@, *ctx),
                resp@,
                header_map(*ctx.headers),
                expires_at,
                *old(metrics),
                *metrics,
            )) by {
                assert(entry_holds(e, resp@, header_map(*ctx.headers), expires_at));
            }
            mark_cache(resp, "MISS")
        },
    }
}

// ---------------------------------------------------------------------------
// One request from start to end
// ---------------------------------------------------------------------------

/// How forwarding a request begins.
#[derive(Debug)]
pub enum Begin {
    /// The cache answers it.
    Hit(Response),
    /// It goes to an upstream.
    Try(Retry),
}

/// The answer of the cache, if it has one.
pub open spec fn hit_of(b: Begin) -> Option<ResponseV> {
    match b {
        Begin::Hit(r) => Some(r@),
        Begin::Try(_) => None,
    }
}

/// A request that has not been sent yet.
pub open spec fn untried(method: Seq<char>, peers: nat) -> RetryV {
    RetryV { max: attempts_for(method, peers), tries: 0, excluded: seq![], answered: false }
}

/// Begin to forward a request to an upstream with this many peers: try the
/// cache before any upstream selection.
pub fn begin(
    cache: Option<&ProxyCache>,
    stores: &mut Vec<CacheStore>,
    peers: usize,
    ctx: &RequestCtx<'_>,
    metrics: &mut Metrics,
) -> (r: Begin)
    requires
        cache matches Some(c) ==> c.store < old(stores)@.len() && old(stores)@[c.store as int].wf(),
    ensures
        final(stores)@.len() == old(stores)@.len(),
        r matches Begin::Try(t) ==> t@ == untried(ctx.method@, peers as nat),
        cache is None || ctx.method@ != "GET"@ ==> r is Try && final(stores)@ == old(stores)@
            && *final(metrics) == *old(metrics),
        cache matches Some(c) ==> (ctx.method@ == "GET"@ ==> exists|now: u64| #[trigger]
            consulted(
                old(stores)@[c.store as int],
                final(stores)@[c.store as int],
                rendered(c.key_template@, *ctx),
                *ctx,
                *old(metrics),
                *final(metrics),
                hit_of(r),
                now,
            )),
        cache matches Some(c) ==> final(stores)@[c.store as int].wf() && forall|k: int|
            0 <= k < old(stores)@.len() && k != c.store ==> (#[trigger] final(stores)@[k]) == old(
                stores)@[k],
{
    if let Some(c) = cache {
        let r = match lookup_cache(c, stores, ctx, metrics) {
            Some(resp) => Begin::Hit(resp),
            None => Begin::Try(Retry::new(ctx.method, peers)),
        };
        return r;
    }
    Begin::Try(Retry::new(ctx.method, peers))
}

/// How long an exchange with an upstream may take at a location.
pub fn read_timeout(own: Option<Duration>) -> (r: Duration)
    ensures
        r == (match own {
            Some(d) => d,
            None => of_secs(DEFAULT_PROXY_READ_TIMEOUT as int),
        }),
{
    match own {
        Some(d) => d,
        None => Duration::from_secs(DEFAULT_PROXY_READ_TIMEOUT),
    }
}

/// The answer when no upstream could be reached.
pub fn bad_gateway() -> (r: Response)
    ensures
        r@ == text_response(502, "502 Bad Gateway\n"@),
        header_names(r.headers) <= 1,
{
    text(502, "502 Bad Gateway\n")
}

// ---------------------------------------------------------------------------
// Laws
// ---------------------------------------------------------------------------

proof fn lemma_without_names(m: Map<Seq<char>, Seq<Seq<u8>>>, names: Seq<Seq<char>>, n: int, k: Seq<char>)
    requires
        0 <= n <= names.len(),
        forall|i: int| 0 <= i < n ==> is_header_name(#[trigger] names[i]) && lower(names[i]) == names[i],
    ensures
        without_names(m, names, n).contains_key(k) == (m.contains_key(k) && !names.take(n).contains(k)),
        without_names(m, names, n).contains_key(k) ==> without_names(m, names, n)[k] == m[k],
    decreases n,
{
    if n > 0 {
        lemma_without_names(m, names, n - 1, k);
        let now = names.take(n);
        let before = names.take(n - 1);
        assert(now == before.push(names[n - 1]));
        if before.contains(k) {
            let i = choose|i: int| 0 <= i < before.len() && before[i] == k;
            assert(now[i] == k);
        }
        if names[n - 1] == k {
            assert(now[n - 1] == k);
        }
        if now.contains(k) && names[n - 1] != k {
            let i = choose|i: int| 0 <= i < now.len() && now[i] == k;
            assert(before[i] == k);
        }
    }
}

proof fn lemma_hop_names()
    ensures
        forall|i: int|
            0 <= i < 8 ==> is_header_name(#[trigger] hop_by_hop()[i]) && lower(hop_by_hop()[i])
                == hop_by_hop()[i],
{
    reveal_strlit("connection");
    reveal_strlit("keep-alive");
    reveal_strlit("proxy-authenticate");
    reveal_strlit("proxy-authorization");
    reveal_strlit("te");
    reveal_strlit("trailers");
    reveal_strlit("transfer-encoding");
    reveal_strlit("upgrade");
    assert forall|i: int| 0 <= i < 8 implies is_header_name(#[trigger] hop_by_hop()[i]) && lower(
        hop_by_hop()[i],
    ) == hop_by_hop()[i] by {
        let h = hop_by_hop()[i];
        assert(lower(h) =~= h);
    }
}

/// Headers that concern one connection are never passed on, and every other
/// header is passed on as it is.
pub proof fn law_only_end_to_end_headers_pass(m: Map<Seq<char>, Seq<Seq<u8>>>, k: Seq<char>)
    ensures
        end_to_end(m).contains_key(k) == (m.contains_key(k) && !hop_by_hop().contains(k)),
        end_to_end(m).contains_key(k) ==> end_to_end(m)[k] == m[k],
{
    lemma_hop_names();
    lemma_without_names(m, hop_by_hop(), 8, k);
    assert(hop_by_hop().take(8) == hop_by_hop());
}

/// An upstream is told the client's address, the addresses that the request
/// already passed through with the client's behind them, and the scheme.
pub proof fn law_forwarding_is_told(
    m: Map<Seq<char>, Seq<Seq<u8>>>,
    client: IpAddr,
    scheme: Seq<char>,
)
    requires
        carries_values(m, "x-forwarded-for"@),
        is_plain(scheme),
    ensures
        ({
            let ip = ip_string(client);
            let t = with_forwarding(m, ip, scheme);
            &&& header_values(t, "x-real-ip"@) == seq![encode_utf8(ip)]
            &&& header_values(t, "x-forwarded-for"@) == seq![
                forwarding_chain(header_values(m, "x-forwarded-for"@), ip),
            ]
            &&& header_values(t, "x-forwarded-proto"@) == seq![encode_utf8(scheme)]
        }),
{
    reveal_strlit("x-real-ip");
    reveal_strlit("x-forwarded-for");
    reveal_strlit("x-forwarded-proto");
    reveal_strlit(", ");
    assert(lower("x-real-ip"@) =~= "x-real-ip"@);
    assert(lower("x-forwarded-for"@) =~= "x-forwarded-for"@);
    assert(lower("x-forwarded-proto"@) =~= "x-forwarded-proto"@);
    assert("x-real-ip"@.len() == 9);
    assert("x-forwarded-for"@.len() == 15);
    assert("x-forwarded-proto"@.len() == 17);
    let ip = ip_string(client);
    let lines = header_values(m, "x-forwarded-for"@);
    lemma_address_is_plain(client);
    lemma_plain_value(ip);
    lemma_plain_value(scheme);
    lemma_plain_value(", "@);
    lemma_joined_is_value(lines);
    lemma_value_concat(joined(lines), encode_utf8(", "@));
    lemma_value_concat(joined(lines) + encode_utf8(", "@), encode_utf8(ip));
}

/// Without `proxy_set_header` an upstream gets the client's end-to-end headers
/// as they are, but for the three that tell who asked, and none that concerns
/// the client's connection only.
pub proof fn law_upstream_gets_end_to_end_headers(
    m: Map<Seq<char>, Seq<Seq<u8>>>,
    ctx: RequestCtx<'_>,
    k: Seq<char>,
)
    requires
        k != "x-real-ip"@,
        k != "x-forwarded-for"@,
        k != "x-forwarded-proto"@,
    ensures
        hop_by_hop().contains(k) ==> !outbound_headers(m, seq![], ctx).contains_key(k),
        !hop_by_hop().contains(k) ==> values_at(outbound_headers(m, seq![], ctx), k) == values_at(
            m,
            k,
        ),
{
    law_only_end_to_end_headers_pass(m, k);
    reveal_strlit("x-real-ip");
    reveal_strlit("x-forwarded-for");
    reveal_strlit("x-forwarded-proto");
    assert(lower("x-real-ip"@) =~= "x-real-ip"@);
    assert(lower("x-forwarded-for"@) =~= "x-forwarded-for"@);
    assert(lower("x-forwarded-proto"@) =~= "x-forwarded-proto"@);
}

/// A request is sent at most three times, never more often than there are
/// peers, and only once when its method is not idempotent.
pub proof fn law_attempts_are_bounded(method: Seq<char>, peers: nat)
    ensures
        1 <= attempts_for(method, peers) <= MAX_ATTEMPTS,
        peers >= 1 ==> attempts_for(method, peers) <= peers,
        !idempotent(method) ==> attempts_for(method, peers) == 1,
{
}

/// However replies turn out, a request that may be sent `max` times is not sent
/// more often: sending counts, and nothing else changes the count.
pub proof fn law_sending_is_counted(
    s: RetryV,
    b: BalancerV,
    ip: IpAddr,
    now: u64,
    addr: Seq<char>,
    reply: Option<u16>,
)
    requires
        s.tries <= s.max,
    ensures
        retry_sent(s, b, ip, now).tries <= retry_sent(s, b, ip, now).max,
        retry_sent(s, b, ip, now).max == s.max,
        next_try(s, b, ip, now) is Send ==> retry_sent(s, b, ip, now).tries == s.tries + 1,
        retry_settled(s, addr, reply).tries == s.tries,
        retry_settled(s, addr, reply).max == s.max,
{
}

/// A peer that failed for a request is not asked again for it.
pub proof fn law_retry_takes_another_peer(s: RetryV, b: BalancerV, ip: IpAddr, now: u64)
    ensures
        next_peer(s, b, ip, now) matches Some(i) ==> 0 <= i < b.peers.len() && !s.excluded.contains(
            b.peers[i].addr,
        ),
{
    law_picked_is_available(b, ip, s.excluded, now);
}

/// A reply that is not good excludes the peer it came from.
pub proof fn law_failed_peer_is_excluded(s: RetryV, addr: Seq<char>, reply: Option<u16>)
    requires
        !good_reply(reply),
    ensures
        retry_settled(s, addr, reply).excluded.contains(addr),
{
    let e = retry_settled(s, addr, reply).excluded;
    assert(e[e.len() - 1] == addr);
}

/// What one turn of forwarding a request meets: the balancer as other requests
/// have left it, the time, and what the peer that is asked replies.
pub struct Turn {
    pub found: BalancerV,
    pub now: u64,
    pub reply: Option<u16>,
}

/// How forwarding a request ends.
pub enum EndV {
    /// A good reply with this status is delivered.
    Delivered(u16),
    /// The last error that a peer replied with is handed on.
    HandedOn(u16),
    /// No peer replied: `502 Bad Gateway`.
    BadGateway,
    /// It has not ended yet.
    Open,
}

/// The addresses that a request was sent to, in order, and how it ended.
pub struct RunV {
    pub sent: Seq<Seq<char>>,
    pub end: EndV,
}

/// A run of [`Retry::next_at`] and [`Retry::settle_at`] from the state `s` on, as
/// long as there are turns, when `last` is the last error that a peer replied
/// with.
pub open spec fn run_of(s: RetryV, ip: IpAddr, turns: Seq<Turn>, last: Option<u16>) -> RunV
    decreases turns.len(),
{
    if turns.len() == 0 {
        RunV { sent: seq![], end: EndV::Open }
    } else {
        let t = turns[0];
        match next_try(s, t.found, ip, t.now) {
            NextTryV::Send { peer } => {
                let addr = t.found.peers[peer].addr;
                if good_reply(t.reply) {
                    RunV { sent: seq![addr], end: EndV::Delivered(t.reply->0) }
                } else {
                    let rest = run_of(
                        retry_settled(retry_sent(s, t.found, ip, t.now), addr, t.reply),
                        ip,
                        turns.skip(1),
                        later_reply(last, t.reply),
                    );
                    RunV { sent: seq![addr] + rest.sent, end: rest.end }
                }
            },
            NextTryV::LastAnswer => RunV { sent: seq![], end: EndV::HandedOn(last->0) },
            NextTryV::BadGateway => RunV { sent: seq![], end: EndV::BadGateway },
        }
    }
}

/// The later of two replies, as far as there are any.
pub open spec fn later_reply(last: Option<u16>, reply: Option<u16>) -> Option<u16> {
    if reply is Some {
        reply
    } else {
        last
    }
}

/// The last reply in the first `n` turns, or `last` when there is none.
pub open spec fn last_reply(turns: Seq<Turn>, n: int, last: Option<u16>) -> Option<u16>
    decreases n,
{
    if n <= 0 {
        last
    } else {
        later_reply(last_reply(turns, n - 1, last), turns[n - 1].reply)
    }
}

proof fn lemma_last_reply(turns: Seq<Turn>, n: int, last: Option<u16>)
    requires
        1 <= n <= turns.len(),
    ensures
        last_reply(turns, n, last) == last_reply(
            turns.skip(1),
            n - 1,
            later_reply(last, turns[0].reply),
        ),
    decreases n,
{
    if n > 1 {
        lemma_last_reply(turns, n - 1, last);
        assert(turns.skip(1)[n - 2] == turns[n - 1]);
    } else {
        assert(last_reply(turns, 0, last) == last);
    }
}

/// What holds of a run from the state `s` on.
spec fn run_ok(s: RetryV, ip: IpAddr, turns: Seq<Turn>, last: Option<u16>) -> bool {
    let r = run_of(s, ip, turns, last);
    let n = r.sent.len() as int;
    &&& n <= turns.len()
    &&& s.tries + n <= s.max
    &&& r.sent.no_duplicates()
    &&& forall|k: int| 0 <= k < n ==> !s.excluded.contains(#[trigger] r.sent[k])
    &&& forall|k: int| 0 <= k < n - 1 ==> !good_reply((#[trigger] turns[k]).reply)
    &&& match r.end {
        EndV::Delivered(x) => n > 0 && good_reply(turns[n - 1].reply) && turns[n - 1].reply
            == Some(x),
        EndV::HandedOn(x) => last_reply(turns, n, last) == Some(x),
        EndV::BadGateway => last_reply(turns, n, last) is None,
        EndV::Open => n == turns.len(),
    }
    &&& n > 0 && good_reply(turns[n - 1].reply) ==> r.end is Delivered
    &&& r.end is HandedOn || r.end is BadGateway ==> n < turns.len() && (s.tries + n == s.max
        || forall|i: int|
        0 <= i < turns[n].found.peers.len() && available(
            #[trigger] turns[n].found.peers[i],
            turns[n].now,
        ) ==> s.excluded.contains(turns[n].found.peers[i].addr) || r.sent.contains(
            turns[n].found.peers[i].addr,
        ) || no_ticket(turns[n], s.excluded + r.sent))
}

/// Whether weighted round-robin finds no ticket although there are candidates:
/// their weights add up to a multiple of 2^32.
pub open spec fn no_ticket(t: Turn, exclude: Seq<Seq<char>>) -> bool {
    t.found.method == LbMethod::RoundRobin && sum_to(
        weights(t.found.peers, candidates(t.found.peers, exclude, t.now)),
        candidates(t.found.peers, exclude, t.now).len() as int,
    ) % 0x1_0000_0000 == 0
}

proof fn lemma_run(s: RetryV, ip: IpAddr, turns: Seq<Turn>, last: Option<u16>)
    requires
        s.tries <= s.max,
        s.answered == last is Some,
    ensures
        run_ok(s, ip, turns, last),
    decreases turns.len(),
{
    let r = run_of(s, ip, turns, last);
    if turns.len() > 0 {
        let t = turns[0];
        law_retry_takes_another_peer(s, t.found, ip, t.now);
        match next_try(s, t.found, ip, t.now) {
            NextTryV::Send { peer } => {
                let addr = t.found.peers[peer].addr;
                if !good_reply(t.reply) {
                    let s1 = retry_settled(retry_sent(s, t.found, ip, t.now), addr, t.reply);
                    let l1 = later_reply(last, t.reply);
                    let more = turns.skip(1);
                    lemma_run(s1, ip, more, l1);
                    let rest = run_of(s1, ip, more, l1);
                    let m = rest.sent.len() as int;
                    let n = m + 1;
                    assert(r.sent =~= seq![addr] + rest.sent);
                    lemma_last_reply(turns, n, last);
                    assert(s1.excluded == s.excluded.push(addr));
                    assert(s1.excluded[s.excluded.len() as int] == addr);
                    assert(s1.excluded.contains(addr));
                    assert forall|a: Seq<char>| s.excluded.contains(a) implies s1.excluded.contains(
                        a,
                    ) by {
                        let k = choose|k: int| 0 <= k < s.excluded.len() && s.excluded[k] == a;
                        assert(s1.excluded[k] == a);
                    }
                    assert forall|k: int| 0 <= k < n implies !s.excluded.contains(
                        #[trigger] r.sent[k],
                    ) by {
                        if k > 0 {
                            assert(r.sent[k] == rest.sent[k - 1]);
                        }
                    }
                    assert forall|i: int, j: int| 0 <= i < n && 0 <= j < n && i
                        != j implies r.sent[i] != r.sent[j] by {
                        if i > 0 {
                            assert(r.sent[i] == rest.sent[i - 1]);
                        }
                        if j > 0 {
                            assert(r.sent[j] == rest.sent[j - 1]);
                        }
                    }
                    assert forall|k: int| 0 <= k < n - 1 implies !good_reply(
                        (#[trigger] turns[k]).reply,
                    ) by {
                        if k > 0 {
                            assert(more[k - 1] == turns[k]);
                        }
                    }
                    if m > 0 {
                        assert(more[m - 1] == turns[n - 1]);
                    }
                    if m < more.len() {
                        assert(more[m] == turns[n]);
                        assert(s1.excluded + rest.sent =~= s.excluded + r.sent);
                        lemma_told_apart(s.excluded, addr, rest.sent);
                    }
                } else {
                    assert(r.sent =~= seq![addr]);
                }
            },
            _ => {
                if s.tries < s.max {
                    assert forall|i: int| 0 <= i < t.found.peers.len() && available(
                        #[trigger] t.found.peers[i],
                        t.now,
                    ) implies s.excluded.contains(t.found.peers[i].addr) || no_ticket(
                        t,
                        s.excluded + r.sent,
                    ) by {
                        assert(s.excluded + r.sent =~= s.excluded);
                        if !s.excluded.contains(t.found.peers[i].addr) && !no_ticket(
                            t,
                            s.excluded,
                        ) {
                            law_some_peer_is_picked(t.found, ip, s.excluded, t.now, i);
                        }
                    }
                }
            },
        }
    }
}

/// What is excluded after a failure is what was excluded, the peer that failed
/// and nothing else.
proof fn lemma_told_apart(excluded: Seq<Seq<char>>, addr: Seq<char>, rest: Seq<Seq<char>>)
    ensures
        forall|a: Seq<char>|
            excluded.push(addr).contains(a) || rest.contains(a) ==> excluded.contains(a) || (
            seq![addr] + rest).contains(a),
{
    let all = seq![addr] + rest;
    assert forall|a: Seq<char>| excluded.push(addr).contains(a) || rest.contains(a) implies
        excluded.contains(a) || all.contains(a) by {
        if rest.contains(a) {
            let k = choose|k: int| 0 <= k < rest.len() && rest[k] == a;
            assert(all[k + 1] == a);
        } else {
            let k = choose|k: int|
                0 <= k < excluded.push(addr).len() && excluded.push(addr)[k] == a;
            if k < excluded.len() {
                assert(excluded[k] == a);
            } else {
                assert(all[0] == a);
            }
        }
    }
}

/// Forwarding a request from start to end, whatever peers reply and whatever
/// other requests do to the balancer in between: it is sent at most as often as
/// its method and the number of peers allow, and to no address twice; the first
/// reply outside 5xx is delivered; without one the last 5xx is handed on, and
/// when nobody replied the answer is `502`. It ends without a good reply only
/// after the last attempt, or when no other peer can be asked.
pub proof fn law_whole_run(method: Seq<char>, peers: nat, ip: IpAddr, turns: Seq<Turn>)
    ensures
        ({
            let max = attempts_for(method, peers);
            let r = run_of(untried(method, peers), ip, turns, None);
            let n = r.sent.len() as int;
            &&& n <= max
            &&& n <= turns.len()
            &&& turns.len() > max ==> !(r.end is Open)
            &&& r.sent.no_duplicates()
            &&& forall|k: int| 0 <= k < n - 1 ==> !good_reply((#[trigger] turns[k]).reply)
            &&& n > 0 && good_reply(turns[n - 1].reply) <==> r.end is Delivered
            &&& match r.end {
                EndV::Delivered(x) => turns[n - 1].reply == Some(x),
                EndV::HandedOn(x) => last_reply(turns, n, None) == Some(x) && 500 <= x < 600,
                EndV::BadGateway => last_reply(turns, n, None) is None,
                EndV::Open => n == turns.len(),
            }
            &&& r.end is HandedOn || r.end is BadGateway ==> n < turns.len() && (n == max
                || forall|i: int|
                0 <= i < turns[n].found.peers.len() && available(
                    #[trigger] turns[n].found.peers[i],
                    turns[n].now,
                ) ==> r.sent.contains(turns[n].found.peers[i].addr) || no_ticket(turns[n], r.sent))
        }),
{
    let s = untried(method, peers);
    let r = run_of(s, ip, turns, None);
    let n = r.sent.len() as int;
    lemma_run(s, ip, turns, None);
    assert(s.excluded + r.sent =~= r.sent);
    if r.end is HandedOn {
        if n > 0 {
            assert(!good_reply(turns[n - 1].reply));
        }
        lemma_last_is_error(turns, n);
    }
}

proof fn lemma_last_is_error(turns: Seq<Turn>, n: int)
    requires
        0 <= n <= turns.len(),
        forall|k: int| 0 <= k < n ==> !good_reply((#[trigger] turns[k]).reply),
    ensures
        last_reply(turns, n, None) matches Some(x) ==> 500 <= x < 600,
    decreases n,
{
    if n > 0 {
        lemma_last_is_error(turns, n - 1);
        assert(!good_reply(turns[n - 1].reply));
    }
}

proof fn lemma_replayed(list: Seq<(Seq<char>, Seq<u8>)>, k: Seq<char>)
    requires
        lines_ok(list),
    ensures
        values_at(replayed(list), k) == values_in(list, k),
    decreases list.len(),
{
    if list.len() > 0 {
        let before = list.drop_last();
        assert forall|i: int| 0 <= i < before.len() implies line_ok(#[trigger] before[i]) by {
            assert(before[i] == list[i]);
        }
        assert(line_ok(list[list.len() - 1]));
        lemma_replayed(before, k);
    }
}

/// A response that the cache has taken in under a new key answers the same
/// `GET` until it expires, if it fits into the store at all.
pub proof fn law_stored_response_is_found(
    before: CacheStore,
    after: CacheStore,
    key: Seq<char>,
    r: ResponseV,
    req: Map<Seq<char>, Seq<Seq<u8>>>,
    expires_at: u64,
    counted: Metrics,
    recounted: Metrics,
    now: u64,
    answer: Option<ResponseV>,
)
    requires
        answers("GET"@, lookup(after.slots(), key, req, now), answer),
        before.wf(),
        holds_response(before, after, key, r, req, expires_at, counted, recounted),
        forall|i: int| 0 <= i < before.slots().len() ==> (#[trigger] before.slots()[i]).0 != key,
        now < expires_at,
    ensures
        exists|e: EntryV| #[trigger]
            entry_holds(e, r, req, expires_at) && (entry_size(e) <= before.max_bytes ==> answer
                == Some(cached_response_of(e))),
{
    let e = choose|e: EntryV| #[trigger]
        entry_holds(e, r, req, expires_at) && CacheStore::stored(
            before,
            after,
            key,
            e,
            counted,
            recounted,
        );
    if entry_size(e) <= before.max_bytes {
        law_put_then_get_on_the_same_axes(before.slots(), key, e, before.max_bytes, req, now);
    }
    assert(entry_holds(e, r, req, expires_at));
}

/// A cache hit gives back the response that was stored: the same status, the
/// same body, and under every name that a map can hold the same values, but for
/// `X-Cache`.
pub proof fn law_hit_gives_back_what_was_stored(
    e: EntryV,
    r: ResponseV,
    req: Map<Seq<char>, Seq<Seq<u8>>>,
    expires_at: u64,
    name: Seq<char>,
)
    requires
        entry_holds(e, r, req, expires_at),
    ensures
        cached_response_of(e).status == r.status,
        cached_response_of(e).body == r.body,
        name != "x-cache"@ ==> values_at(cached_response_of(e).headers, name) == values_at(
            r.headers,
            name,
        ),
        name == "x-cache"@ ==> values_at(cached_response_of(e).headers, name) == values_at(
            r.headers,
            name,
        ).push(encode_utf8("HIT"@)),
{
    lemma_replayed(e.headers, name);
    assert(values_in(e.headers, name) == values_at(r.headers, name));
    assert(is_stored_name("x-cache"@)) by {
        reveal_strlit("x-cache");
    }
    assert(is_header_value(encode_utf8("HIT"@))) by {
        reveal_strlit("HIT");
        lemma_plain_value("HIT"@);
    }
}

} // verus!
