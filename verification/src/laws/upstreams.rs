//! Laws on forwarding: which peer is asked, what it is sent, how often, and what of
//! a cache is told.

use super::cache::lemma_plain_name;
use super::files::tells;
use crate::app::balance::{
    advanced, BalancerV, candidates, client_hash, eligible, failed, fresh_peer,
    law_least_conn_picks_least_loaded, law_some_peer_is_picked, lemma_choice_in_pool,
    lemma_pool_ascends, lemma_pool_bounds, PeerV, picked, pool_of, sum_to, weights, with_entered,
    with_settled,
};
use crate::app::ProxyCache;
use crate::body::ResponseV;
use crate::cache::{CacheDecisionV, CacheStore, decision, EntryV, signature_of, vary_names};
use crate::config::ast::UpstreamServerV;
use crate::headers::{
    header_map, header_values, is_header_name, is_header_value, is_plain, joined,
    lemma_plain_value, line_ok, lists, replayed, values_at,
};
use crate::metrics::Metrics;
use crate::net::{ip_string, IpAddr};
use crate::proxy::{
    answers, attempts_for, cached_response_of, end_to_end, entry_holds, forwarding_chain,
    good_reply, hop_by_hop, law_only_end_to_end_headers_pass, metrics_sent, next_try, NextTryV,
    offered, outbound_headers, retry_settled, RetryV, untried, upstream_uri_of, with_forwarding,
    with_set_headers,
};
use crate::request_ctx::{RequestCtx, Uri};
use crate::template::{rendered, SegmentV};
use crate::text::{lower, views};
use crate::time::{Duration, later};
use vstd::prelude::*;
use vstd::string::*;
use vstd::utf8::encode_utf8;

verus! {

// ---------------------------------------------------------------------------
// Peers
// ---------------------------------------------------------------------------

/// Whether a peer may be asked at `now`: it is not marked down, its pause after
/// failures is over, and it is not among those to be left out.
pub open spec fn usable(p: PeerV, exclude: Seq<Seq<char>>, now: u64) -> bool {
    &&& !p.down
    &&& p.failed_until_ms == 0 || p.failed_until_ms <= now
    &&& forall|k: int| 0 <= k < exclude.len() ==> exclude[k] != p.addr
}

/// Whether a peer is among those to choose from: a usable primary or, where there is
/// none, a usable backup.
pub open spec fn in_turn(peers: Seq<PeerV>, exclude: Seq<Seq<char>>, now: u64, i: int) -> bool {
    &&& 0 <= i < peers.len()
    &&& usable(peers[i], exclude, now)
    &&& peers[i].backup ==> forall|j: int|
        0 <= j < peers.len() && usable(#[trigger] peers[j], exclude, now) ==> peers[j].backup
}

proof fn lemma_pool_complete(
    peers: Seq<PeerV>,
    n: int,
    backup: bool,
    exclude: Seq<Seq<char>>,
    now: u64,
    i: int,
)
    requires
        0 <= i < n <= peers.len(),
        eligible(peers[i], backup, exclude, now),
    ensures
        pool_of(peers, n, backup, exclude, now).contains(i),
    decreases n,
{
    let all = pool_of(peers, n, backup, exclude, now);
    if i == n - 1 {
        assert(all[all.len() - 1] == i);
    } else {
        lemma_pool_complete(peers, n - 1, backup, exclude, now, i);
        let before = pool_of(peers, n - 1, backup, exclude, now);
        let k = choose|k: int| 0 <= k < before.len() && before[k] == i;
        assert(all[k] == i);
    }
}

proof fn lemma_eligible(p: PeerV, backup: bool, exclude: Seq<Seq<char>>, now: u64)
    ensures
        eligible(p, backup, exclude, now) <==> p.backup == backup && usable(p, exclude, now),
{
    if exclude.contains(p.addr) {
        let k = choose|k: int| 0 <= k < exclude.len() && exclude[k] == p.addr;
    }
}

/// The peers to choose from are the usable primaries or, without any, the usable
/// backups; each once, in the order of the configuration.
pub proof fn law_peers_to_choose_from(
    peers: Seq<PeerV>,
    exclude: Seq<Seq<char>>,
    now: u64,
    i: int,
)
    ensures
        candidates(peers, exclude, now).contains(i) <==> in_turn(peers, exclude, now, i),
        forall|x: int, y: int|
            0 <= x < y < candidates(peers, exclude, now).len() ==> (#[trigger] candidates(
                peers,
                exclude,
                now,
            )[x]) < #[trigger] candidates(peers, exclude, now)[y],
{
    let n = peers.len() as int;
    let prim = pool_of(peers, n, false, exclude, now);
    let back = pool_of(peers, n, true, exclude, now);
    let pool = candidates(peers, exclude, now);
    lemma_pool_bounds(peers, n, false, exclude, now);
    lemma_pool_bounds(peers, n, true, exclude, now);
    lemma_pool_ascends(peers, n, false, exclude, now);
    lemma_pool_ascends(peers, n, true, exclude, now);
    if pool.contains(i) {
        let k = choose|k: int| 0 <= k < pool.len() && pool[k] == i;
        if prim.len() > 0 {
            assert(prim[k] == i);
            lemma_eligible(peers[i], false, exclude, now);
        } else {
            assert(back[k] == i);
            lemma_eligible(peers[i], true, exclude, now);
            assert forall|j: int|
                0 <= j < peers.len() && usable(
                    #[trigger] peers[j],
                    exclude,
                    now,
                ) implies peers[j].backup by {
                if !peers[j].backup {
                    lemma_eligible(peers[j], false, exclude, now);
                    lemma_pool_complete(peers, n, false, exclude, now, j);
                }
            }
        }
    }
    if in_turn(peers, exclude, now, i) {
        lemma_eligible(peers[i], peers[i].backup, exclude, now);
        lemma_pool_complete(peers, n, peers[i].backup, exclude, now, i);
        if peers[i].backup && prim.len() > 0 {
            let j = prim[0];
            lemma_eligible(peers[j], false, exclude, now);
            assert(usable(peers[j], exclude, now));
        }
    }
}

/// Whoever is picked is among those to choose from. Somebody is picked whenever there
/// is one, but for rounds whose weights add up to a multiple of 2^32.
pub proof fn law_pick(b: BalancerV, ip: IpAddr, exclude: Seq<Seq<char>>, now: u64)
    ensures
        match picked(b, ip, exclude, now) {
            Some(i) => in_turn(b.peers, exclude, now, i),
            None => (forall|i: int|
                0 <= i < b.peers.len() ==> !usable(#[trigger] b.peers[i], exclude, now)) || (
            b.method is RoundRobin && sum_to(
                weights(b.peers, candidates(b.peers, exclude, now)),
                candidates(b.peers, exclude, now).len() as int,
            ) % 0x1_0000_0000 == 0),
        },
{
    match picked(b, ip, exclude, now) {
        Some(i) => {
            lemma_choice_in_pool(b, ip, exclude, now);
            lemma_eligible(b.peers[i], false, exclude, now);
            lemma_eligible(b.peers[i], true, exclude, now);
            if b.peers[i].backup {
                assert forall|j: int|
                    0 <= j < b.peers.len() && usable(
                        #[trigger] b.peers[j],
                        exclude,
                        now,
                    ) implies b.peers[j].backup by {
                    if !b.peers[j].backup {
                        lemma_eligible(b.peers[j], false, exclude, now);
                        lemma_pool_complete(
                            b.peers,
                            b.peers.len() as int,
                            false,
                            exclude,
                            now,
                            j,
                        );
                    }
                }
            }
        },
        None => {
            if b.method is RoundRobin && sum_to(
                weights(b.peers, candidates(b.peers, exclude, now)),
                candidates(b.peers, exclude, now).len() as int,
            ) % 0x1_0000_0000 == 0 {
            } else {
                assert forall|i: int| 0 <= i < b.peers.len() implies !usable(
                    #[trigger] b.peers[i],
                    exclude,
                    now,
                ) by {
                    if usable(b.peers[i], exclude, now) {
                        lemma_eligible(b.peers[i], b.peers[i].backup, exclude, now);
                        law_some_peer_is_picked(b, ip, exclude, now, i);
                    }
                }
            }
        },
    }
}

/// A weight counts at least one.
pub proof fn law_weights(peers: Seq<PeerV>, pool: Seq<int>, k: int)
    requires
        0 <= k < pool.len(),
    ensures
        weights(peers, pool).len() == pool.len(),
        peers[pool[k]].weight >= 1 ==> weights(peers, pool)[k] == peers[pool[k]].weight,
        peers[pool[k]].weight == 0 ==> weights(peers, pool)[k] == 1,
{
}

/// With `least_conn` nobody to choose from has fewer requests in flight for its
/// weight, in millionths, than who is picked.
pub proof fn law_least_conn(
    b: BalancerV,
    ip: IpAddr,
    exclude: Seq<Seq<char>>,
    now: u64,
    j: int,
)
    requires
        b.method is LeastConn,
        in_turn(b.peers, exclude, now, j),
    ensures
        picked(b, ip, exclude, now) matches Some(i) && {
            let w = |p: PeerV|
                if p.weight >= 1 {
                    p.weight as int
                } else {
                    1
                };
            (b.peers[i].in_flight * 1_000_000) / w(b.peers[i]) <= (b.peers[j].in_flight * 1_000_000)
                / w(b.peers[j])
        },
{
    law_peers_to_choose_from(b.peers, exclude, now, j);
    let pool = candidates(b.peers, exclude, now);
    let k = choose|k: int| 0 <= k < pool.len() && pool[k] == j;
    law_least_conn_picks_least_loaded(b, ip, exclude, now, k);
}

/// With `ip_hash` the hash of the client chooses among those there are.
pub proof fn law_ip_hash(b: BalancerV, ip: IpAddr, exclude: Seq<Seq<char>>, now: u64)
    requires
        b.method is IpHash,
        candidates(b.peers, exclude, now).len() > 0,
    ensures
        picked(b, ip, exclude, now) == Some(
            candidates(b.peers, exclude, now)[(client_hash(ip) as usize) as int % candidates(
                b.peers,
                exclude,
                now,
            ).len() as int],
        ),
        advanced(b, ip, exclude, now) == b,
{
}

/// A peer starts as it is configured, idle and without failures.
pub proof fn law_fresh_peer(s: UpstreamServerV)
    ensures
        ({
            let p = fresh_peer(s);
            &&& p.addr == s.addr && p.weight == s.weight && p.max_fails == s.max_fails
            &&& p.fail_timeout == s.fail_timeout && p.backup == s.backup && p.down == s.down
            &&& p.in_flight == 0 && p.consecutive_failures == 0 && p.failed_until_ms == 0
        }),
{
}

/// A failure counts one more; when there are as many as the peer may have, and at
/// least one, it is left alone for its `fail_timeout` from then on.
pub proof fn law_failure(p: PeerV, now: u64)
    requires
        p.consecutive_failures < u32::MAX,
        now + p.fail_timeout.secs * 1000 + 1000 <= u64::MAX,
        p.fail_timeout.nanos < 1_000_000_000,
    ensures
        ({
            let q = failed(p, now);
            &&& q.consecutive_failures == p.consecutive_failures + 1
            &&& q.consecutive_failures >= p.max_fails ==> q.failed_until_ms == now
                + p.fail_timeout.secs * 1000 + p.fail_timeout.nanos as int / 1_000_000
            &&& q.consecutive_failures < p.max_fails ==> q.failed_until_ms == p.failed_until_ms
            &&& q.in_flight == p.in_flight && q.addr == p.addr && q.weight == p.weight && q.down
                == p.down && q.backup == p.backup && q.max_fails == p.max_fails && q.fail_timeout
                == p.fail_timeout
        }),
{
    let ms = p.fail_timeout.secs * 1000 + p.fail_timeout.nanos as int / 1_000_000;
    assert(ms < 0x1_0000_0000_0000_0000);
    assert(p.fail_timeout.millis() == ms);
}

/// A request that a peer is sent and that comes back leaves its count as it was; a
/// good reply clears its failures, and the other peers do not change.
pub proof fn law_exchange(b: BalancerV, i: int, ok: bool, now: u64, j: int)
    requires
        0 <= i < b.peers.len(),
        0 <= j < b.peers.len(),
    ensures
        ({
            let sent = with_entered(b, i);
            let back = with_settled(sent, i, ok, now);
            &&& b.peers[i].in_flight < u32::MAX ==> sent.peers[i].in_flight
                == b.peers[i].in_flight + 1
            &&& back.peers[i].in_flight == b.peers[i].in_flight
            &&& ok ==> back.peers[i].consecutive_failures == 0 && back.peers[i].failed_until_ms == 0
            &&& !ok ==> back.peers[i].consecutive_failures == failed(
                b.peers[i],
                now,
            ).consecutive_failures && back.peers[i].failed_until_ms == failed(
                b.peers[i],
                now,
            ).failed_until_ms
            &&& j != i ==> back.peers[j] == b.peers[j] && sent.peers[j] == b.peers[j]
            &&& back.method == b.method && back.rr_counter == b.rr_counter
        }),
{
}

// ---------------------------------------------------------------------------
// Requests and replies
// ---------------------------------------------------------------------------

/// The headers that concern one hop only.
pub open spec fn concerns_one_hop(name: Seq<char>) -> bool {
    ||| name == "connection"@ || name == "keep-alive"@ || name == "proxy-authenticate"@
    ||| name == "proxy-authorization"@ || name == "te"@ || name == "trailers"@
    ||| name == "transfer-encoding"@ || name == "upgrade"@
}

/// Headers that concern one hop only are not passed on; every other is, as it is.
pub proof fn law_hop_by_hop(m: Map<Seq<char>, Seq<Seq<u8>>>, k: Seq<char>)
    ensures
        concerns_one_hop(k) ==> !end_to_end(m).contains_key(k),
        !concerns_one_hop(k) ==> end_to_end(m).contains_key(k) == m.contains_key(k),
        !concerns_one_hop(k) && m.contains_key(k) ==> end_to_end(m)[k] == m[k],
{
    law_only_end_to_end_headers_pass(m, k);
    let all = hop_by_hop();
    assert(all[0] == "connection"@ && all[1] == "keep-alive"@ && all[2] == "proxy-authenticate"@
        && all[3] == "proxy-authorization"@ && all[4] == "te"@ && all[5] == "trailers"@ && all[6]
        == "transfer-encoding"@ && all[7] == "upgrade"@);
    if all.contains(k) {
        let i = choose|i: int| 0 <= i < all.len() && all[i] == k;
        assert(i == 0 || i == 1 || i == 2 || i == 3 || i == 4 || i == 5 || i == 6 || i == 7);
    }
}

/// The chain of proxies: the client alone, or behind what the request brought.
pub proof fn law_forwarding_chain(ip: Seq<char>, one: Seq<u8>)
    ensures
        forwarding_chain(seq![], ip) == encode_utf8(ip),
        forwarding_chain(seq![one], ip) == one + encode_utf8(", "@) + encode_utf8(ip),
{
}

/// `proxy_set_header` sets a header to what its value comes to, in place of what was
/// there, and takes it away when that is empty.
pub proof fn law_set_headers(
    m: Map<Seq<char>, Seq<Seq<u8>>>,
    list: Seq<(Seq<char>, Seq<SegmentV>)>,
    name: Seq<char>,
    value: Seq<SegmentV>,
    ctx: RequestCtx<'_>,
    k: Seq<char>,
)
    requires
        is_header_name(name),
    ensures
        with_set_headers(m, seq![], ctx) == m,
        ({
            let before = with_set_headers(m, list, ctx);
            let after = with_set_headers(m, list.push((name, value)), ctx);
            let text = rendered(value, ctx);
            &&& text.len() == 0 ==> !after.contains_key(lower(name))
            &&& text.len() > 0 && is_header_value(encode_utf8(text)) ==> tells(
                after,
                lower(name),
                text,
            )
            &&& k != lower(name) ==> after.contains_key(k) == before.contains_key(k) && (
            before.contains_key(k) ==> after[k] == before[k])
        }),
{
    assert(list.push((name, value)).drop_last() =~= list);
}

/// The upstream is asked for the same path and query that the client asked for.
pub proof fn law_upstream_uri(scheme: Seq<char>, addr: Seq<char>, uri: Uri)
    ensures
        uri.path_and_query matches Some(p) ==> upstream_uri_of(scheme, addr, uri) == scheme + seq![
            ':',
            '/',
            '/',
        ] + addr + p@,
        uri.path_and_query is None ==> upstream_uri_of(scheme, addr, uri) == scheme + seq![
            ':',
            '/',
            '/',
        ] + addr + seq!['/'],
{
    reveal_strlit("://");
    reveal_strlit("/");
    assert("://"@ =~= seq![':', '/', '/']);
    assert("/"@ =~= seq!['/']);
}

/// `GET`, `HEAD`, `OPTIONS` and `DELETE` are tried up to three times, and no more often
/// than there are peers; every other method once.
pub proof fn law_attempts(method: Seq<char>, peers: nat)
    ensures
        ({
            let safe = method == "GET"@ || method == "HEAD"@ || method == "OPTIONS"@ || method
                == "DELETE"@;
            let n = attempts_for(method, peers);
            &&& !safe ==> n == 1
            &&& safe && peers <= 1 ==> n == 1
            &&& safe && peers == 2 ==> n == 2
            &&& safe && peers >= 3 ==> n == 3
            &&& untried(method, peers).max == n && untried(method, peers).tries == 0
                && untried(method, peers).excluded.len() == 0 && !untried(method, peers).answered
        }),
{
}

/// After the last attempt nothing is sent. Without a peer left, the last answer is
/// handed on where there was one, and otherwise there is none. A reply outside 5xx
/// ends it; any other, and silence, excludes the peer.
pub proof fn law_retries(
    s: RetryV,
    b: BalancerV,
    ip: IpAddr,
    now: u64,
    addr: Seq<char>,
    status: u16,
    m: Metrics,
)
    ensures
        s.tries >= s.max ==> !(next_try(s, b, ip, now) is Send),
        s.tries < s.max ==> match picked(b, ip, s.excluded, now) {
            Some(i) => next_try(s, b, ip, now) == (NextTryV::Send { peer: i }),
            None => !(next_try(s, b, ip, now) is Send),
        },
        next_try(s, b, ip, now) is LastAnswer ==> s.answered,
        next_try(s, b, ip, now) is BadGateway ==> !s.answered,
        good_reply(Some(status)) <==> status < 500 || status >= 600,
        !good_reply(None),
        !good_reply(Some(status)) ==> retry_settled(s, addr, Some(status)) == (RetryV {
            excluded: s.excluded.push(addr),
            answered: true,
            ..s
        }),
        retry_settled(s, addr, None) == (RetryV { excluded: s.excluded.push(addr), ..s }),
        good_reply(Some(status)) ==> retry_settled(s, addr, Some(status)) == s,
        next_try(s, b, ip, now) is Send && m.proxy_attempts < u64::MAX ==> metrics_sent(
            s,
            b,
            ip,
            now,
            m,
        ) == (Metrics { proxy_attempts: (m.proxy_attempts + 1) as u64, ..m }),
        !(next_try(s, b, ip, now) is Send) ==> metrics_sent(s, b, ip, now, m) == m,
{
}

// ---------------------------------------------------------------------------
// The cache and its label
// ---------------------------------------------------------------------------

/// A stored response comes back with its status, its body and its headers, and says
/// `X-Cache: HIT`. Only `GET` is answered from the cache.
pub proof fn law_hit(method: Seq<char>, e: EntryV, r: ResponseV, k: Seq<char>)
    ensures
        answers(method, Some(e), Some(r)) ==> method == seq!['G', 'E', 'T'] && r.status == e.status
            && r.body == e.body,
        answers(method, None, Some(r)) == false,
        cached_response_of(e).status == e.status,
        cached_response_of(e).body == e.body,
        cached_response_of(e).headers.contains_key("x-cache"@),
        cached_response_of(e).headers["x-cache"@].last() == encode_utf8(seq!['H', 'I', 'T']),
        k != "x-cache"@ ==> values_at(cached_response_of(e).headers, k) == values_at(
            replayed(e.headers),
            k,
        ),
{
    reveal_strlit("GET");
    reveal_strlit("HIT");
    reveal_strlit("x-cache");
    assert("GET"@ =~= seq!['G', 'E', 'T']);
    assert("HIT"@ =~= seq!['H', 'I', 'T']);
    assert(is_plain("HIT"@));
    lemma_plain_value("HIT"@);
    assert(line_ok(("x-cache"@, encode_utf8("HIT"@))));
}

/// A response that was not in the cache says so: `BYPASS` when it may not be stored,
/// and then nothing is; `MISS` when it is. Without a cache it says nothing. Status
/// and body stay.
#[verifier::rlimit(50)]
pub proof fn law_cache_label(
    cache: ProxyCache,
    before: Seq<CacheStore>,
    after: Seq<CacheStore>,
    resp: ResponseV,
    r: ResponseV,
    ctx: RequestCtx<'_>,
    counted: Metrics,
    recounted: Metrics,
    now: u64,
)
    ensures
        offered(None, before, after, resp, r, ctx, counted, recounted, now) ==> r == resp && after
            == before,
        offered(Some(&cache), before, after, resp, r, ctx, counted, recounted, now) ==> {
            let d = decision(
                ctx.method@,
                resp.headers,
                resp.status,
                resp.body.len() as int,
                crate::text::views(cache.valid_rules@),
            );
            &&& r.status == resp.status && r.body == resp.body
            &&& d is Bypass ==> tells(r.headers, "x-cache"@, "BYPASS"@) && after == before
            &&& d is Store ==> tells(r.headers, "x-cache"@, "MISS"@)
            &&& forall|k: Seq<char>|
                k != "x-cache"@ ==> {
                    &&& #[trigger] r.headers.contains_key(k) == resp.headers.contains_key(k)
                    &&& resp.headers.contains_key(k) ==> r.headers[k] == resp.headers[k]
                }
        },
{
    reveal_strlit("x-cache");
    lemma_plain_name("x-cache"@);
    reveal_strlit("BYPASS");
    reveal_strlit("MISS");
    assert(is_plain("BYPASS"@) && is_plain("MISS"@));
    lemma_plain_value("BYPASS"@);
    lemma_plain_value("MISS"@);
    reveal_strlit("GET");
}

/// Several lines of a header are one list, with a comma and a blank between them.
pub proof fn law_lines_are_joined(lines: Seq<Seq<u8>>, one: Seq<u8>)
    ensures
        joined(seq![]).len() == 0,
        joined(seq![one]) == one,
        lines.len() > 0 ==> joined(lines.push(one)) == joined(lines) + encode_utf8(", "@) + one,
        lines.len() > 0 ==> forall|ip: Seq<char>|
            #[trigger] forwarding_chain(lines, ip) == joined(lines) + encode_utf8(", "@)
                + encode_utf8(ip),
{
    assert(lines.push(one).drop_last() =~= lines);
}

/// An upstream is sent what the client sent, but for what concerns one hop, with the
/// client's address and scheme, and then what `proxy_set_header` says.
#[verifier::rlimit(50)]
pub proof fn law_outbound_headers(
    m: Map<Seq<char>, Seq<Seq<u8>>>,
    list: Seq<(Seq<char>, Seq<SegmentV>)>,
    ctx: RequestCtx<'_>,
)
    ensures
        outbound_headers(m, list, ctx) == with_set_headers(
            outbound_headers(m, seq![], ctx),
            list,
            ctx,
        ),
        outbound_headers(m, seq![], ctx) == with_forwarding(
            end_to_end(m),
            ip_string(ctx.peer.ip),
            ctx.scheme@,
        ),
{
}

/// A response that is stored is stored whole, under the key of its location, for the
/// request that it answered, and for as long as the rules grant it.
pub proof fn law_stored_for_its_time(
    cache: ProxyCache,
    before: Seq<CacheStore>,
    after: Seq<CacheStore>,
    resp: ResponseV,
    r: ResponseV,
    ctx: RequestCtx<'_>,
    counted: Metrics,
    recounted: Metrics,
    now: u64,
    ttl: Duration,
)
    requires
        offered(Some(&cache), before, after, resp, r, ctx, counted, recounted, now),
        decision(
            ctx.method@,
            resp.headers,
            resp.status,
            resp.body.len() as int,
            views(cache.valid_rules@),
        ) == CacheDecisionV::Store(ttl),
        now + ttl.secs * 1_000_000_000 + ttl.nanos <= u64::MAX,
    ensures
        ctx.method@ == seq!['G', 'E', 'T'],
        exists|e: EntryV|
            #![trigger entry_holds(e, resp, header_map(*ctx.headers), e.expires_at)]
            {
                &&& e.status == resp.status && e.body == resp.body
                &&& e.expires_at == now + ttl.secs * 1_000_000_000 + ttl.nanos
                &&& e.vary_headers == vary_names(header_values(resp.headers, "vary"@))
                &&& e.vary_signature == signature_of(header_map(*ctx.headers), e.vary_headers)
                &&& lists(e.headers, resp.headers)
                &&& CacheStore::stored(
                    before[cache.store as int],
                    after[cache.store as int],
                    rendered(cache.key_template@, ctx),
                    e,
                    counted,
                    recounted,
                )
                &&& entry_holds(e, resp, header_map(*ctx.headers), e.expires_at)
            },
{
    reveal_strlit("GET");
    assert("GET"@ =~= seq!['G', 'E', 'T']);
    let at = later(now, ttl);
    let e = choose|e: EntryV| #[trigger]
        entry_holds(e, resp, header_map(*ctx.headers), at) && CacheStore::stored(
            before[cache.store as int],
            after[cache.store as int],
            rendered(cache.key_template@, ctx),
            e,
            counted,
            recounted,
        );
    assert(entry_holds(e, resp, header_map(*ctx.headers), e.expires_at));
}

/// The point in time a span later is the sum of both, as far as it can be told.
pub proof fn law_later(now: u64, d: Duration)
    ensures
        now + d.secs * 1_000_000_000 + d.nanos <= u64::MAX ==> later(now, d) == now + d.secs
            * 1_000_000_000 + d.nanos,
        now + d.secs * 1_000_000_000 + d.nanos > u64::MAX ==> later(now, d) == u64::MAX,
{
}

} // verus!
