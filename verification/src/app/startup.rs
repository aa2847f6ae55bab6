//! Builds the runtime from a validated configuration.

use super::assemble::{
    balancer_of, build_balancer, copy_health_check, resolve_proxy, resolved_proxy, UserFile,
    UserFileV, ZoneNames, ZoneNamesV,
};
use super::balance::{Balancer, BalancerV};
use super::consistency::{law_built_runtime_is_consistent, runtime_ok};
use super::listeners::{build_listeners, listeners_for};
use super::runtime::{last_value, ListenerCfg, ListenerCfgV, Pools, PoolsV};
use crate::cache::{CacheStore, Slot};
use crate::config::ast::{
    CacheZone, CacheZoneV, Config, ConfigV, HealthCheckCfg, HealthCheckCfgV, HttpV,
    LimitConnZoneDecl, LimitConnZoneDeclV, LimitReqZoneDecl, LimitReqZoneDeclV, Stream,
    StreamServerV, StreamV, Upstream, UpstreamV,
};
use crate::limit::{LimitConnZone, LimitConnZoneV, LimitReqZone, LimitReqZoneV, Rate};
use crate::net::SocketAddr;
use crate::text::{lemma_views_push, views};
use vstd::prelude::*;
use vstd::string::*;

verus! {

/// Everything that the configuration describes, ready to serve. Locations refer
/// to balancers, caches and zones by position, so that locations which name the
/// same one share its state.
#[derive(Debug)]
pub struct Runtime {
    pub listeners: Vec<ListenerCfg>,
    /// L4 listeners: the address, the position of the balancer, and whether it
    /// is UDP.
    pub stream_servers: Vec<(SocketAddr, usize, bool)>,
    pub pools: Pools,
    pub caches: Vec<CacheStore>,
    pub limit_req_zones: Vec<LimitReqZone>,
    pub limit_conn_zones: Vec<LimitConnZone>,
    /// Active probes: the position of the balancer, and the settings.
    pub health_checks: Vec<(usize, HealthCheckCfg)>,
}

/// Model of a [`Runtime`]; each cache by its name and limit.
pub struct RuntimeV {
    pub listeners: Seq<ListenerCfgV>,
    pub stream_servers: Seq<(SocketAddr, usize, bool)>,
    pub pools: PoolsV,
    pub caches: Seq<(Seq<char>, usize)>,
    pub limit_req_zones: Seq<LimitReqZoneV>,
    pub limit_conn_zones: Seq<LimitConnZoneV>,
    pub health_checks: Seq<(usize, HealthCheckCfgV)>,
}

impl View for Runtime {
    type V = RuntimeV;

    open spec fn view(&self) -> RuntimeV {
        RuntimeV {
            listeners: views(self.listeners@),
            stream_servers: self.stream_servers@,
            pools: self.pools@,
            caches: self.caches@.map_values(|c: CacheStore| (c.name@, c.max_bytes)),
            limit_req_zones: views(self.limit_req_zones@),
            limit_conn_zones: views(self.limit_conn_zones@),
            health_checks: views(self.health_checks@),
        }
    }
}

// ---------------------------------------------------------------------------
// Zones
// ---------------------------------------------------------------------------

/// A list of names, each with its position.
pub open spec fn numbered(names: Seq<Seq<char>>) -> Seq<(Seq<char>, usize)> {
    Seq::new(names.len(), |i: int| (names[i], i as usize))
}

/// A rate-limit zone with no client in it.
pub open spec fn req_zone_of(z: LimitReqZoneDeclV) -> LimitReqZoneV {
    LimitReqZoneV {
        name: z.name,
        key_template: z.key_template,
        rate: z.rate,
        max_entries: z.max_entries,
        buckets: seq![],
    }
}

/// A connection-limit zone with no client in it.
pub open spec fn conn_zone_of(z: LimitConnZoneDeclV) -> LimitConnZoneV {
    LimitConnZoneV {
        name: z.name,
        key_template: z.key_template,
        max_entries: z.max_entries,
        active: seq![],
    }
}

/// The names of all zones of the `http` block.
pub open spec fn zone_names(h: HttpV) -> ZoneNamesV {
    ZoneNamesV {
        caches: numbered(h.cache_zones.map_values(|z: CacheZoneV| z.name)),
        limit_req: numbered(h.limit_req_zones.map_values(|z: LimitReqZoneDeclV| z.name)),
        limit_conn: numbered(h.limit_conn_zones.map_values(|z: LimitConnZoneDeclV| z.name)),
    }
}

fn build_caches(zones: &Vec<CacheZone>) -> (r: (Vec<CacheStore>, Vec<(String, usize)>))
    ensures
        r.0@.len() == zones@.len(),
        forall|k: int|
            0 <= k < zones@.len() ==> (#[trigger] r.0@[k]).wf() && r.0@[k].name@ == zones@[k].name@
                && r.0@[k].max_bytes == zones@[k].max_bytes && r.0@[k].slots() == Seq::<
                Slot,
            >::empty(),
        views(r.1@) == numbered(views(zones@).map_values(|z: CacheZoneV| z.name)),
{
    let mut stores: Vec<CacheStore> = Vec::new();
    let mut names: Vec<(String, usize)> = Vec::new();
    let mut i: usize = 0;
    while i < zones.len()
        invariant
            i <= zones@.len(),
            stores@.len() == i,
            names@.len() == i,
            forall|k: int|
                0 <= k < i ==> (#[trigger] stores@[k]).wf() && stores@[k].name@ == zones@[k].name@
                    && stores@[k].max_bytes == zones@[k].max_bytes && stores@[k].slots() == Seq::<
                    Slot,
                >::empty(),
            forall|k: int|
                0 <= k < i ==> (#[trigger] names@[k])@ == (zones@[k].name@, k as usize),
        decreases zones@.len() - i,
    {
        let z = &zones[i];
        stores.push(CacheStore::new(z.name.clone(), z.max_bytes));
        names.push((z.name.clone(), i));
        i = i + 1;
    }
    assert(views(names@) =~= numbered(views(zones@).map_values(|z: CacheZoneV| z.name)));
    (stores, names)
}

fn copy_rate(r: &Rate) -> (c: Rate)
    ensures
        c@ == r@,
{
    Rate { count: r.count.clone(), per_minute: r.per_minute }
}

fn build_req_zones(zones: &Vec<LimitReqZoneDecl>) -> (r: (
    Vec<LimitReqZone>,
    Vec<(String, usize)>,
))
    ensures
        views(r.0@) == views(zones@).map_values(|z: LimitReqZoneDeclV| req_zone_of(z)),
        views(r.1@) == numbered(views(zones@).map_values(|z: LimitReqZoneDeclV| z.name)),
{
    let mut out: Vec<LimitReqZone> = Vec::new();
    let mut names: Vec<(String, usize)> = Vec::new();
    let mut i: usize = 0;
    while i < zones.len()
        invariant
            i <= zones@.len(),
            out@.len() == i,
            names@.len() == i,
            forall|k: int| 0 <= k < i ==> (#[trigger] out@[k])@ == req_zone_of(zones@[k]@),
            forall|k: int|
                0 <= k < i ==> (#[trigger] names@[k])@ == (zones@[k].name@, k as usize),
        decreases zones@.len() - i,
    {
        let z = &zones[i];
        out.push(
            LimitReqZone::new(z.name.clone(), z.key_template.copy(), copy_rate(&z.rate), z.max_entries),
        );
        names.push((z.name.clone(), i));
        i = i + 1;
    }
    assert(views(out@) =~= views(zones@).map_values(|z: LimitReqZoneDeclV| req_zone_of(z)));
    assert(views(names@) =~= numbered(views(zones@).map_values(|z: LimitReqZoneDeclV| z.name)));
    (out, names)
}

fn build_conn_zones(zones: &Vec<LimitConnZoneDecl>) -> (r: (
    Vec<LimitConnZone>,
    Vec<(String, usize)>,
))
    ensures
        views(r.0@) == views(zones@).map_values(|z: LimitConnZoneDeclV| conn_zone_of(z)),
        views(r.1@) == numbered(views(zones@).map_values(|z: LimitConnZoneDeclV| z.name)),
{
    let mut out: Vec<LimitConnZone> = Vec::new();
    let mut names: Vec<(String, usize)> = Vec::new();
    let mut i: usize = 0;
    while i < zones.len()
        invariant
            i <= zones@.len(),
            out@.len() == i,
            names@.len() == i,
            forall|k: int| 0 <= k < i ==> (#[trigger] out@[k])@ == conn_zone_of(zones@[k]@),
            forall|k: int|
                0 <= k < i ==> (#[trigger] names@[k])@ == (zones@[k].name@, k as usize),
        decreases zones@.len() - i,
    {
        let z = &zones[i];
        out.push(LimitConnZone::new(z.name.clone(), z.key_template.copy(), z.max_entries));
        names.push((z.name.clone(), i));
        i = i + 1;
    }
    assert(views(out@) =~= views(zones@).map_values(|z: LimitConnZoneDeclV| conn_zone_of(z)));
    assert(views(names@) =~= numbered(views(zones@).map_values(|z: LimitConnZoneDeclV| z.name)));
    (out, names)
}

// ---------------------------------------------------------------------------
// Upstreams
// ---------------------------------------------------------------------------

/// The pools of the named upstreams alone.
pub open spec fn named_pools(ups: Seq<UpstreamV>) -> PoolsV {
    PoolsV {
        balancers: ups.map_values(|u: UpstreamV| balancer_of(u)),
        named: numbered(ups.map_values(|u: UpstreamV| u.name)),
        ephemeral: seq![],
    }
}

/// The probes of the first `n` upstreams. An upstream whose name is taken over
/// by a later one is not probed.
pub open spec fn probes(ups: Seq<UpstreamV>, n: int) -> Seq<(usize, HealthCheckCfgV)>
    decreases n,
{
    if n <= 0 {
        seq![]
    } else {
        let u = ups[n - 1];
        let before = probes(ups, n - 1);
        if last_value(numbered(ups.map_values(|u: UpstreamV| u.name)), u.name) == Some(
            (n - 1) as usize,
        ) {
            match u.health_check {
                Some(h) => before.push(((n - 1) as usize, h)),
                None => before,
            }
        } else {
            before
        }
    }
}

fn build_upstreams(ups: &Vec<Upstream>) -> (r: (Vec<Balancer>, Vec<(String, usize)>))
    ensures
        views(r.0@) == views(ups@).map_values(|u: UpstreamV| balancer_of(u)),
        views(r.1@) == numbered(views(ups@).map_values(|u: UpstreamV| u.name)),
{
    let mut out: Vec<Balancer> = Vec::new();
    let mut names: Vec<(String, usize)> = Vec::new();
    let mut i: usize = 0;
    while i < ups.len()
        invariant
            i <= ups@.len(),
            out@.len() == i,
            names@.len() == i,
            forall|k: int| 0 <= k < i ==> (#[trigger] out@[k])@ == balancer_of(ups@[k]@),
            forall|k: int| 0 <= k < i ==> (#[trigger] names@[k])@ == (ups@[k].name@, k as usize),
        decreases ups@.len() - i,
    {
        out.push(build_balancer(&ups[i]));
        names.push((ups[i].name.clone(), i));
        i = i + 1;
    }
    assert(views(out@) =~= views(ups@).map_values(|u: UpstreamV| balancer_of(u)));
    assert(views(names@) =~= numbered(views(ups@).map_values(|u: UpstreamV| u.name)));
    (out, names)
}

fn build_probes(ups: &Vec<Upstream>, names: &Vec<(String, usize)>) -> (r: Vec<
    (usize, HealthCheckCfg),
>)
    requires
        views(names@) == numbered(views(ups@).map_values(|u: UpstreamV| u.name)),
    ensures
        views(r@) == probes(views(ups@), ups@.len() as int),
{
    let mut out: Vec<(usize, HealthCheckCfg)> = Vec::new();
    let mut i: usize = 0;
    assert(views(out@) =~= seq![]);
    while i < ups.len()
        invariant
            i <= ups@.len(),
            views(names@) == numbered(views(ups@).map_values(|u: UpstreamV| u.name)),
            views(out@) == probes(views(ups@), i as int),
        decreases ups@.len() - i,
    {
        assert(views(ups@)[i as int] == ups@[i as int]@);
        let kept = match super::runtime::find_last(names, ups[i].name.as_str()) {
            Some(k) => k == i,
            None => false,
        };
        if kept {
            if let Some(h) = &ups[i].health_check {
                let item = (i, copy_health_check(h));
                proof {
                    lemma_views_push(out@, item);
                }
                out.push(item);
            }
        }
        i = i + 1;
    }
    out
}

// ---------------------------------------------------------------------------
// Streams
// ---------------------------------------------------------------------------

/// The L4 listeners after `done`, and the balancers after that.
pub open spec fn streams_for(
    done: Seq<(SocketAddr, usize, bool)>,
    servers: Seq<StreamServerV>,
    named: Seq<(Seq<char>, usize)>,
    balancers: Seq<BalancerV>,
) -> Result<(Seq<(SocketAddr, usize, bool)>, Seq<BalancerV>), Seq<char>>
    decreases servers.len(),
{
    if servers.len() == 0 {
        Ok((done, balancers))
    } else {
        match servers[0].listen {
            None => Err("a stream 'server' is missing 'listen'"@),
            Some(addr) => match servers[0].proxy_pass {
                None => Err("a stream 'server' is missing 'proxy_pass'"@),
                Some(target) => {
                    let (b, bs) = resolved_proxy(target, named, balancers);
                    streams_for(
                        done.push((addr, b, servers[0].udp)),
                        servers.skip(1),
                        named,
                        bs,
                    )
                },
            },
        }
    }
}

/// The L4 listeners of the `stream` block, and the balancers after that. Its
/// named upstreams come after the balancers of the `http` block, and only they
/// are found by name.
pub open spec fn stream_part(stream: Option<StreamV>, balancers: Seq<BalancerV>) -> Result<
    (Seq<(SocketAddr, usize, bool)>, Seq<BalancerV>),
    Seq<char>,
> {
    match stream {
        None => Ok((seq![], balancers)),
        Some(s) => streams_for(
            seq![],
            s.servers,
            shifted(numbered(s.upstreams.map_values(|u: UpstreamV| u.name)), balancers.len() as int),
            balancers + s.upstreams.map_values(|u: UpstreamV| balancer_of(u)),
        ),
    }
}

/// A list of names with positions, all moved by `by`.
pub open spec fn shifted(v: Seq<(Seq<char>, usize)>, by: int) -> Seq<(Seq<char>, usize)> {
    v.map_values(|p: (Seq<char>, usize)| (p.0, (p.1 + by) as usize))
}

fn build_stream(stream: &Stream, balancers: &mut Vec<Balancer>) -> (r: Result<
    Vec<(SocketAddr, usize, bool)>,
    String,
>)
    ensures
        match r {
            Ok(v) => stream_part(Some(stream@), views(old(balancers)@)) == Ok::<
                (Seq<(SocketAddr, usize, bool)>, Seq<BalancerV>),
                Seq<char>,
            >((v@, views(final(balancers)@))),
            Err(e) => stream_part(Some(stream@), views(old(balancers)@)) == Err::<
                (Seq<(SocketAddr, usize, bool)>, Seq<BalancerV>),
                Seq<char>,
            >(e@),
        },
{
    let ghost before = views(balancers@);
    let names = add_upstreams(&stream.upstreams, balancers);
    let ghost named = views(names@);
    let ghost start = views(balancers@);
    let ghost all = stream@.servers;
    let mut out: Vec<(SocketAddr, usize, bool)> = Vec::new();
    let mut i: usize = 0;
    assert(all.skip(0) == all);
    while i < stream.servers.len()
        invariant
            i <= stream.servers@.len(),
            all == views(stream.servers@),
            named == views(names@),
            streams_for(out@, all.skip(i as int), named, views(balancers@)) == streams_for(
                seq![],
                all,
                named,
                start,
            ),
            streams_for(seq![], all, named, start) == stream_part(
                Some(stream@),
                views(old(balancers)@),
            ),
        decreases stream.servers@.len() - i,
    {
        let ghost rest = all.skip(i as int);
        assert(rest[0] == stream.servers@[i as int]@);
        assert(rest.skip(1) == all.skip(i + 1));
        let s = &stream.servers[i];
        let addr = match s.listen {
            Some(a) => a,
            None => {
                return Err("a stream 'server' is missing 'listen'".to_owned());
            },
        };
        let target = match &s.proxy_pass {
            Some(t) => t,
            None => {
                return Err("a stream 'server' is missing 'proxy_pass'".to_owned());
            },
        };
        let b = resolve_proxy(target.as_str(), &names, balancers);
        out.push((addr, b, s.udp));
        i = i + 1;
    }
    Ok(out)
}

fn add_upstreams(ups: &Vec<Upstream>, balancers: &mut Vec<Balancer>) -> (names: Vec<
    (String, usize),
>)
    ensures
        views(final(balancers)@) == views(old(balancers)@) + views(ups@).map_values(
            |u: UpstreamV| balancer_of(u),
        ),
        views(names@) == shifted(
            numbered(views(ups@).map_values(|u: UpstreamV| u.name)),
            old(balancers)@.len() as int,
        ),
{
    let ghost base = balancers@.len() as int;
    let ghost before = balancers@;
    let mut names: Vec<(String, usize)> = Vec::new();
    let mut i: usize = 0;
    while i < ups.len()
        invariant
            i <= ups@.len(),
            base == before.len(),
            before == old(balancers)@,
            balancers@.len() == base + i,
            names@.len() == i,
            forall|k: int| 0 <= k < base ==> (#[trigger] balancers@[k]) == before[k],
            forall|k: int|
                base <= k < base + i ==> (#[trigger] balancers@[k])@ == balancer_of(
                    ups@[k - base]@,
                ),
            forall|k: int|
                0 <= k < i ==> (#[trigger] names@[k])@ == (ups@[k].name@, (k + base) as usize),
        decreases ups@.len() - i,
    {
        let n: usize = balancers.len();
        names.push((ups[i].name.clone(), n));
        balancers.push(build_balancer(&ups[i]));
        i = i + 1;
    }
    assert(views(balancers@) =~= views(before) + views(ups@).map_values(
        |u: UpstreamV| balancer_of(u),
    ));
    assert forall|k: int| 0 <= k < ups@.len() implies (#[trigger] views(names@)[k]) == shifted(
        numbered(views(ups@).map_values(|u: UpstreamV| u.name)),
        base,
    )[k] by {
        assert(views(names@)[k] == names@[k]@);
    }
    assert(views(names@) =~= shifted(
        numbered(views(ups@).map_values(|u: UpstreamV| u.name)),
        base,
    ));
    names
}

// ---------------------------------------------------------------------------
// The runtime
// ---------------------------------------------------------------------------

/// The runtime that a configuration describes, given the credentials files, or
/// what is wrong with it.
pub open spec fn runtime_of(cfg: ConfigV, files: Seq<UserFileV>) -> Result<RuntimeV, Seq<char>> {
    match cfg.http {
        None => Err("config has no 'http' block; nothing to serve"@),
        Some(h) => match listeners_for(
            h.servers,
            h.maps,
            zone_names(h),
            files,
            named_pools(h.upstreams),
        ) {
            Err(e) => Err(e),
            Ok((listeners, p)) => match stream_part(cfg.stream, p.balancers) {
                Err(e) => Err(e),
                Ok((stream_servers, balancers)) => if listeners.len() == 0
                    && stream_servers.len() == 0 {
                    Err("config has no 'server' blocks (http or stream)"@)
                } else {
                    Ok(
                        RuntimeV {
                            listeners,
                            stream_servers,
                            pools: PoolsV { balancers, ..p },
                            caches: h.cache_zones.map_values(|z: CacheZoneV| (z.name, z.max_bytes)),
                            limit_req_zones: h.limit_req_zones.map_values(
                                |z: LimitReqZoneDeclV| req_zone_of(z),
                            ),
                            limit_conn_zones: h.limit_conn_zones.map_values(
                                |z: LimitConnZoneDeclV| conn_zone_of(z),
                            ),
                            health_checks: probes(h.upstreams, h.upstreams.len() as int),
                        },
                    )
                },
            },
        },
    }
}

/// Every cache is consistent and empty.
pub open spec fn caches_empty(caches: Seq<CacheStore>) -> bool {
    forall|k: int|
        0 <= k < caches.len() ==> (#[trigger] caches[k]).wf() && caches[k].slots() == Seq::<
            Slot,
        >::empty()
}

/// Build the runtime. `files` holds what came of reading each
/// `auth_basic_user_file`.
pub fn build(cfg: &Config, files: &Vec<UserFile>) -> (r: Result<Runtime, String>)
    ensures
        match r {
            Ok(rt) => runtime_of(cfg@, views(files@)) == Ok::<RuntimeV, Seq<char>>(rt@)
                && caches_empty(rt.caches@) && runtime_ok(rt@),
            Err(e) => runtime_of(cfg@, views(files@)) == Err::<RuntimeV, Seq<char>>(e@),
        },
{
    let http = match &cfg.http {
        Some(h) => h,
        None => {
            return Err("config has no 'http' block; nothing to serve".to_owned());
        },
    };
    let (caches, cache_names) = build_caches(&http.cache_zones);
    let (limit_req_zones, req_names) = build_req_zones(&http.limit_req_zones);
    let (limit_conn_zones, conn_names) = build_conn_zones(&http.limit_conn_zones);
    let names = ZoneNames { caches: cache_names, limit_req: req_names, limit_conn: conn_names };
    let (balancers, named) = build_upstreams(&http.upstreams);
    let health_checks = build_probes(&http.upstreams, &named);
    let mut pools = Pools { balancers, named, ephemeral: Vec::new() };
    assert(pools@.ephemeral =~= seq![]);
    let listeners = match build_listeners(&http.servers, &http.maps, &names, files, &mut pools) {
        Ok(l) => l,
        Err(e) => {
            return Err(e);
        },
    };
    let mut stream_servers: Vec<(SocketAddr, usize, bool)> = Vec::new();
    if let Some(stream) = &cfg.stream {
        stream_servers = match build_stream(stream, &mut pools.balancers) {
            Ok(v) => v,
            Err(e) => {
                return Err(e);
            },
        };
    }
    if listeners.len() == 0 && stream_servers.len() == 0 {
        return Err("config has no 'server' blocks (http or stream)".to_owned());
    }
    let rt = Runtime {
        listeners,
        stream_servers,
        pools,
        caches,
        limit_req_zones,
        limit_conn_zones,
        health_checks,
    };
    assert(rt@.caches =~= cfg@.http->0.cache_zones.map_values(
        |z: CacheZoneV| (z.name, z.max_bytes),
    )) by {
        assert forall|k: int| 0 <= k < rt@.caches.len() implies (#[trigger] rt@.caches[k])
            == cfg@.http->0.cache_zones.map_values(|z: CacheZoneV| (z.name, z.max_bytes))[k] by {
            assert(rt@.caches[k] == (rt.caches@[k].name@, rt.caches@[k].max_bytes));
        }
    }
    proof {
        assert(rt@.pools.balancers.len() == rt.pools.balancers.len());
        assert(rt@.pools.ephemeral.len() == rt.pools.ephemeral.len());
        let h = cfg@.http->0;
        assert(h.cache_zones.len() == http.cache_zones.len());
        assert(h.limit_req_zones.len() == http.limit_req_zones.len());
        assert(h.limit_conn_zones.len() == http.limit_conn_zones.len());
        law_built_runtime_is_consistent(cfg@, views(files@));
    }
    Ok(rt)
}

} // verus!
