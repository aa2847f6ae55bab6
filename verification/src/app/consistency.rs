//! What holds of every runtime that is built.

use super::assemble::{location_for, resolved_proxy, UserFileV, ZoneNamesV};
use super::balance::BalancerV;
use super::listeners::{
    all_staged, finished, grouped, grouped_with, lemma_insert_sorted, listener_on, listeners_for,
    locations_for, none_placed, placed_with, PlacedV, slot_for, staged_for, StagedV,
};
use super::runtime::{
    ActionRtV, last_value, ListenerCfgV, LocationRtV, longest_first, PoolsV, ProxyTargetV,
    scheme_split, ServerStateV,
};
use super::startup::{
    named_pools, numbered, probes, runtime_of, RuntimeV, shifted, streams_for, zone_names,
};
use crate::config::ast::{ActionV, ConfigV, LocationV, MapDeclV, ServerV, StreamServerV, UpstreamV};
use crate::net::SocketAddr;
use crate::text::without_trailing;
use vstd::prelude::*;

verus! {

/// How many balancers, memos, caches and zones there are.
pub struct Sizes {
    pub balancers: nat,
    pub memos: nat,
    pub caches: nat,
    pub req_zones: nat,
    pub conn_zones: nat,
}

/// Whether a target refers to a balancer or memo that exists.
pub open spec fn target_ok(t: ProxyTargetV, n: Sizes) -> bool {
    match t {
        ProxyTargetV::Fixed(b) => b < n.balancers,
        ProxyTargetV::Dynamic { memo, .. } => memo < n.memos,
    }
}

/// Whether everything that a location refers to exists.
pub open spec fn location_ok(l: LocationRtV, n: Sizes) -> bool {
    &&& l.action matches ActionRtV::Proxy { target, cache, .. } ==> target_ok(target, n) && (
    cache matches Some(c) ==> c.store < n.caches)
    &&& l.limit_req matches Some(a) ==> a.zone < n.req_zones
    &&& l.limit_conn matches Some(a) ==> a.zone < n.conn_zones
}

/// Whether a server's locations are in routing order and refer to what exists.
pub open spec fn state_ok(s: ServerStateV, n: Sizes) -> bool {
    &&& longest_first(s.prefix_locs)
    &&& forall|i: int| 0 <= i < s.exact_locs.len() ==> location_ok(#[trigger] s.exact_locs[i], n)
    &&& forall|i: int| 0 <= i < s.regex_locs.len() ==> location_ok((#[trigger] s.regex_locs[i]).1, n)
    &&& forall|i: int| 0 <= i < s.prefix_locs.len() ==> location_ok(#[trigger] s.prefix_locs[i], n)
}

/// Whether a listener has a virtual host, whether its hosts are all TLS or all
/// plain, and whether they are in order.
pub open spec fn listener_ok(l: ListenerCfgV, n: Sizes) -> bool {
    &&& l.vhosts.len() > 0
    &&& l.tls_paths.len() == 0 || l.tls_paths.len() == l.vhosts.len()
    &&& forall|i: int| 0 <= i < l.vhosts.len() ==> state_ok((#[trigger] l.vhosts[i]).state, n)
}

/// Whether each name stands for something that exists.
pub open spec fn names_ok(named: Seq<(Seq<char>, usize)>, n: nat) -> bool {
    forall|i: int| 0 <= i < named.len() ==> (#[trigger] named[i]).1 < n
}

pub open spec fn sizes(rt: RuntimeV) -> Sizes {
    Sizes {
        balancers: rt.pools.balancers.len(),
        memos: rt.pools.ephemeral.len(),
        caches: rt.caches.len(),
        req_zones: rt.limit_req_zones.len(),
        conn_zones: rt.limit_conn_zones.len(),
    }
}

/// A runtime in which every reference leads somewhere, every listener can
/// answer, and no two listeners share an address.
pub open spec fn runtime_ok(rt: RuntimeV) -> bool {
    &&& forall|i: int| 0 <= i < rt.listeners.len() ==> listener_ok(
        #[trigger] rt.listeners[i],
        sizes(rt),
    )
    &&& forall|i: int, j: int|
        0 <= i < j < rt.listeners.len() ==> (#[trigger] rt.listeners[i]).addr != (
        #[trigger] rt.listeners[j]).addr
    &&& names_ok(rt.pools.named, rt.pools.balancers.len())
    &&& forall|i: int|
        0 <= i < rt.stream_servers.len() ==> (#[trigger] rt.stream_servers[i]).1
            < rt.pools.balancers.len()
    &&& forall|i: int|
        0 <= i < rt.health_checks.len() ==> (#[trigger] rt.health_checks[i]).0
            < rt.pools.balancers.len()
}

// ---------------------------------------------------------------------------
// Names
// ---------------------------------------------------------------------------

proof fn lemma_last_value(list: Seq<(Seq<char>, usize)>, name: Seq<char>, n: nat)
    requires
        names_ok(list, n),
    ensures
        last_value(list, name) matches Some(v) ==> v < n,
    decreases list.len(),
{
    if list.len() > 0 {
        assert(list.last() == list[list.len() - 1]);
        assert forall|i: int| 0 <= i < list.drop_last().len() implies (
        #[trigger] list.drop_last()[i]).1 < n by {
            assert(list.drop_last()[i] == list[i]);
        }
        lemma_last_value(list.drop_last(), name, n);
    }
}

// ---------------------------------------------------------------------------
// Pools only grow
// ---------------------------------------------------------------------------

/// `q` holds at least as much as `p`, under the same names.
pub open spec fn grown(p: PoolsV, q: PoolsV) -> bool {
    p.balancers.len() <= q.balancers.len() && p.ephemeral.len() <= q.ephemeral.len() && p.named
        == q.named
}

proof fn lemma_locations_grow(
    p: PlacedV,
    locs: Seq<LocationV>,
    server: ServerV,
    names: ZoneNamesV,
    files: Seq<UserFileV>,
    pools: PoolsV,
)
    ensures
        locations_for(p, locs, server, names, files, pools) matches Ok((p2, q)) ==> grown(pools, q),
    decreases locs.len(),
{
    if locs.len() > 0 {
        match location_for(locs[0], server, names, files, pools) {
            Ok((l, q)) => match placed_with(p, locs[0].kind, l) {
                Ok(p2) => {
                    lemma_locations_grow(p2, locs.skip(1), server, names, files, q);
                },
                Err(e) => {},
            },
            Err(e) => {},
        }
    }
}

proof fn lemma_staged_grow(
    done: Seq<StagedV>,
    servers: Seq<ServerV>,
    maps: Seq<MapDeclV>,
    names: ZoneNamesV,
    files: Seq<UserFileV>,
    pools: PoolsV,
)
    ensures
        all_staged(done, servers, maps, names, files, pools) matches Ok((st, q)) ==> grown(
            pools,
            q,
        ),
    decreases servers.len(),
{
    if servers.len() > 0 {
        lemma_locations_grow(
            none_placed(),
            servers[0].locations,
            servers[0],
            names,
            files,
            pools,
        );
        match staged_for(servers[0], maps, names, files, pools) {
            Ok((st, q)) => {
                lemma_staged_grow(done.push(st), servers.skip(1), maps, names, files, q);
            },
            Err(e) => {},
        }
    }
}

// ---------------------------------------------------------------------------
// References lead somewhere
// ---------------------------------------------------------------------------

/// Whether every zone that has a name exists.
pub open spec fn zones_ok(names: ZoneNamesV, n: Sizes) -> bool {
    &&& names_ok(names.caches, n.caches)
    &&& names_ok(names.limit_req, n.req_zones)
    &&& names_ok(names.limit_conn, n.conn_zones)
}

proof fn lemma_location(
    loc: LocationV,
    server: ServerV,
    names: ZoneNamesV,
    files: Seq<UserFileV>,
    p: PoolsV,
    n: Sizes,
)
    requires
        zones_ok(names, n),
        names_ok(p.named, p.balancers.len()),
        location_for(loc, server, names, files, p) matches Ok((l, q)) ==> q.balancers.len()
            <= n.balancers <= usize::MAX && q.ephemeral.len() <= n.memos <= usize::MAX,
    ensures
        location_for(loc, server, names, files, p) matches Ok((l, q)) ==> location_ok(l, n)
            && names_ok(q.named, q.balancers.len()),
{
    if let Some((zone, k)) = loc.limit_req {
        lemma_last_value(names.limit_req, zone, n.req_zones);
    }
    if let Some((zone, k)) = loc.limit_conn {
        lemma_last_value(names.limit_conn, zone, n.conn_zones);
    }
    if let Some(zone) = loc.proxy_cache {
        lemma_last_value(names.caches, zone, n.caches);
    }
    if let ActionV::ProxyPass { target } = loc.action {
        let (scheme, rest) = scheme_split(target);
        lemma_last_value(p.named, without_trailing(rest, '/'), p.balancers.len());
    }
}

/// Whether all placed locations are in order and refer to what exists.
pub open spec fn placed_ok(p: PlacedV, n: Sizes) -> bool {
    &&& longest_first(p.prefix)
    &&& forall|i: int| 0 <= i < p.exact.len() ==> location_ok(#[trigger] p.exact[i], n)
    &&& forall|i: int| 0 <= i < p.regex.len() ==> location_ok((#[trigger] p.regex[i]).1, n)
    &&& forall|i: int| 0 <= i < p.prefix.len() ==> location_ok(#[trigger] p.prefix[i], n)
}

proof fn lemma_placed(p: PlacedV, loc: LocationV, l: LocationRtV, n: Sizes)
    requires
        placed_ok(p, n),
        location_ok(l, n),
    ensures
        placed_with(p, loc.kind, l) matches Ok(q) ==> placed_ok(q, n),
{
    lemma_insert_sorted(p.prefix, l);
    let k = slot_for(p.prefix, l, 0);
    let longer = p.prefix.insert(k, l);
    assert forall|i: int| 0 <= i < longer.len() implies location_ok(#[trigger] longer[i], n) by {
        if i < k {
            assert(longer[i] == p.prefix[i]);
        } else if i > k {
            assert(longer[i] == p.prefix[i - 1]);
        }
    }
}

proof fn lemma_locations(
    p: PlacedV,
    locs: Seq<LocationV>,
    server: ServerV,
    names: ZoneNamesV,
    files: Seq<UserFileV>,
    pools: PoolsV,
    n: Sizes,
)
    requires
        zones_ok(names, n),
        names_ok(pools.named, pools.balancers.len()),
        placed_ok(p, n),
        locations_for(p, locs, server, names, files, pools) matches Ok((p2, q))
            ==> q.balancers.len() <= n.balancers <= usize::MAX && q.ephemeral.len() <= n.memos
            <= usize::MAX,
    ensures
        locations_for(p, locs, server, names, files, pools) matches Ok((p2, q)) ==> placed_ok(p2, n)
            && names_ok(q.named, q.balancers.len()),
    decreases locs.len(),
{
    if locs.len() > 0 && locations_for(p, locs, server, names, files, pools) is Ok {
        match location_for(locs[0], server, names, files, pools) {
            Ok((l, q)) => match placed_with(p, locs[0].kind, l) {
                Ok(p2) => {
                    lemma_locations_grow(p2, locs.skip(1), server, names, files, q);
                    lemma_location(locs[0], server, names, files, pools, n);
                    lemma_placed(p, locs[0], l, n);
                    lemma_locations(p2, locs.skip(1), server, names, files, q, n);
                },
                Err(e) => {},
            },
            Err(e) => {},
        }
    }
}

/// Whether all server blocks are in order and refer to what exists.
pub open spec fn staged_ok(st: Seq<StagedV>, n: Sizes) -> bool {
    forall|i: int| 0 <= i < st.len() ==> state_ok((#[trigger] st[i]).vhost.state, n)
}

proof fn lemma_staged(
    done: Seq<StagedV>,
    servers: Seq<ServerV>,
    maps: Seq<MapDeclV>,
    names: ZoneNamesV,
    files: Seq<UserFileV>,
    pools: PoolsV,
    n: Sizes,
)
    requires
        zones_ok(names, n),
        names_ok(pools.named, pools.balancers.len()),
        staged_ok(done, n),
        all_staged(done, servers, maps, names, files, pools) matches Ok((st, q))
            ==> q.balancers.len() <= n.balancers <= usize::MAX && q.ephemeral.len() <= n.memos
            <= usize::MAX,
    ensures
        all_staged(done, servers, maps, names, files, pools) matches Ok((st, q)) ==> staged_ok(
            st,
            n,
        ) && names_ok(q.named, q.balancers.len()),
    decreases servers.len(),
{
    if servers.len() > 0 && all_staged(done, servers, maps, names, files, pools) is Ok {
        let s = servers[0];
        match staged_for(s, maps, names, files, pools) {
            Ok((st, q)) => {
                lemma_staged_grow(done.push(st), servers.skip(1), maps, names, files, q);
                lemma_locations(none_placed(), s.locations, s, names, files, pools, n);
                assert(state_ok(st.vhost.state, n));
                lemma_staged(done.push(st), servers.skip(1), maps, names, files, q, n);
            },
            Err(e) => {},
        }
    }
}

// ---------------------------------------------------------------------------
// Listeners
// ---------------------------------------------------------------------------

proof fn lemma_listener_on(ls: Seq<ListenerCfgV>, addr: SocketAddr, i: int)
    requires
        0 <= i <= ls.len(),
    ensures
        i <= listener_on(ls, addr, i) <= ls.len(),
        listener_on(ls, addr, i) < ls.len() ==> ls[listener_on(ls, addr, i)].addr == addr,
        forall|k: int| i <= k < listener_on(ls, addr, i) ==> (#[trigger] ls[k]).addr != addr,
    decreases ls.len() - i,
{
    if i < ls.len() && ls[i].addr != addr {
        lemma_listener_on(ls, addr, i + 1);
    }
}

/// Whether all listeners can answer and no two share an address.
pub open spec fn listeners_ok(ls: Seq<ListenerCfgV>, n: Sizes) -> bool {
    &&& forall|i: int| 0 <= i < ls.len() ==> listener_ok(#[trigger] ls[i], n)
    &&& forall|i: int, j: int|
        0 <= i < j < ls.len() ==> (#[trigger] ls[i]).addr != (#[trigger] ls[j]).addr
}

proof fn lemma_grouped(staged: Seq<StagedV>, n: Sizes)
    requires
        staged_ok(staged, n),
    ensures
        grouped(staged) matches Ok(ls) ==> listeners_ok(ls, n),
    decreases staged.len(),
{
    if staged.len() > 0 {
        let before = staged.drop_last();
        assert forall|i: int| 0 <= i < before.len() implies state_ok(
            (#[trigger] before[i]).vhost.state,
            n,
        ) by {
            assert(before[i] == staged[i]);
        }
        lemma_grouped(before, n);
        if let Ok(ls) = grouped(before) {
            let st = staged.last();
            assert(st == staged[staged.len() - 1]);
            lemma_listener_on(ls, st.addr, 0);
            let k = listener_on(ls, st.addr, 0);
            if let Ok(out) = grouped_with(ls, st) {
                if k < ls.len() {
                    assert(listener_ok(ls[k], n));
                    assert(listener_ok(out[k], n));
                }
                assert forall|i: int| 0 <= i < out.len() implies listener_ok(
                    #[trigger] out[i],
                    n,
                ) by {
                    if i < ls.len() && i != k {
                        assert(out[i] == ls[i]);
                    }
                }
            }
        }
    }
}

// ---------------------------------------------------------------------------
// Streams and probes
// ---------------------------------------------------------------------------

proof fn lemma_streams(
    done: Seq<(SocketAddr, usize, bool)>,
    servers: Seq<StreamServerV>,
    named: Seq<(Seq<char>, usize)>,
    balancers: Seq<BalancerV>,
)
    requires
        names_ok(named, balancers.len()),
        forall|i: int| 0 <= i < done.len() ==> (#[trigger] done[i]).1 < balancers.len(),
        streams_for(done, servers, named, balancers) matches Ok((v, bs)) ==> bs.len() <= usize::MAX,
    ensures
        streams_for(done, servers, named, balancers) matches Ok((v, bs)) ==> balancers.len()
            <= bs.len() && forall|i: int| 0 <= i < v.len() ==> (#[trigger] v[i]).1 < bs.len(),
    decreases servers.len(),
{
    if servers.len() > 0 && streams_for(done, servers, named, balancers) is Ok {
        let s = servers[0];
        let (b, bs) = resolved_proxy(s.proxy_pass->0, named, balancers);
        let (scheme, rest) = scheme_split(s.proxy_pass->0);
        lemma_last_value(named, without_trailing(rest, '/'), balancers.len());
        lemma_streams_grow(done.push((s.listen->0, b, s.udp)), servers.skip(1), named, bs);
        lemma_streams(done.push((s.listen->0, b, s.udp)), servers.skip(1), named, bs);
    }
}

proof fn lemma_streams_grow(
    done: Seq<(SocketAddr, usize, bool)>,
    servers: Seq<StreamServerV>,
    named: Seq<(Seq<char>, usize)>,
    balancers: Seq<BalancerV>,
)
    ensures
        streams_for(done, servers, named, balancers) matches Ok((v, bs)) ==> balancers.len()
            <= bs.len(),
    decreases servers.len(),
{
    if servers.len() > 0 && streams_for(done, servers, named, balancers) is Ok {
        let s = servers[0];
        let (b, bs) = resolved_proxy(s.proxy_pass->0, named, balancers);
        lemma_streams_grow(done.push((s.listen->0, b, s.udp)), servers.skip(1), named, bs);
    }
}

proof fn lemma_probes(ups: Seq<UpstreamV>, n: int)
    requires
        0 <= n <= ups.len() <= usize::MAX,
    ensures
        forall|i: int| 0 <= i < probes(ups, n).len() ==> (#[trigger] probes(ups, n)[i]).0 < n,
    decreases n,
{
    if n > 0 {
        lemma_probes(ups, n - 1);
        let before = probes(ups, n - 1);
        assert forall|i: int| 0 <= i < probes(ups, n).len() implies (#[trigger] probes(ups, n)[i]).0
            < n by {
            if i < before.len() {
                assert(probes(ups, n)[i] == before[i]);
            }
        }
    }
}

/// In every runtime that is built, each reference leads somewhere, each
/// listener has a virtual host, its hosts are all TLS or all plain, prefix
/// locations come longest first, and no two listeners share an address.
pub proof fn law_built_runtime_is_consistent(cfg: ConfigV, files: Seq<UserFileV>)
    requires
        cfg.http matches Some(h) ==> h.cache_zones.len() <= usize::MAX && h.limit_req_zones.len()
            <= usize::MAX && h.limit_conn_zones.len() <= usize::MAX,
        runtime_of(cfg, files) matches Ok(rt) ==> rt.pools.balancers.len() <= usize::MAX
            && rt.pools.ephemeral.len() <= usize::MAX,
    ensures
        runtime_of(cfg, files) matches Ok(rt) ==> runtime_ok(rt),
{
    if let Ok(rt) = runtime_of(cfg, files) {
        let h = cfg.http->0;
        let n = sizes(rt);
        let names = zone_names(h);
        let p0 = named_pools(h.upstreams);
        let (ls, p) = listeners_for(h.servers, h.maps, names, files, p0)->Ok_0;
        let staged = all_staged(seq![], h.servers, h.maps, names, files, p0)->Ok_0.0;
        lemma_staged_grow(seq![], h.servers, h.maps, names, files, p0);
        assert(zones_ok(names, n));
        if let Some(s) = cfg.stream {
            let own = s.upstreams.map_values(|u: UpstreamV| super::assemble::balancer_of(u));
            let named = shifted(
                numbered(s.upstreams.map_values(|u: UpstreamV| u.name)),
                p.balancers.len() as int,
            );
            lemma_streams_grow(seq![], s.servers, named, p.balancers + own);
            assert(names_ok(named, (p.balancers + own).len()));
            lemma_streams(seq![], s.servers, named, p.balancers + own);
        }
        assert(names_ok(p0.named, p0.balancers.len()));
        lemma_staged(seq![], h.servers, h.maps, names, files, p0, n);
        lemma_grouped(staged, n);
        let raw = grouped(staged)->Ok_0;
        assert(ls == raw.map_values(|l: ListenerCfgV| finished(l, h.servers)));
        assert forall|i: int| 0 <= i < ls.len() implies listener_ok(#[trigger] ls[i], n) by {
            assert(ls[i] == finished(raw[i], h.servers));
            assert(listener_ok(raw[i], n));
        }
        assert forall|i: int, j: int| 0 <= i < j < ls.len() implies (#[trigger] ls[i]).addr != (
        #[trigger] ls[j]).addr by {
            assert(ls[i].addr == raw[i].addr && ls[j].addr == raw[j].addr);
        }
        lemma_probes(h.upstreams, h.upstreams.len() as int);
    }
}

} // verus!
