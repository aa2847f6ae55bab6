//! Laws on what a configuration becomes when the server starts.

use super::serving::lemma_last_value;
use crate::access::target_of;
use crate::app::actions::{StaticKindV, TryFilesEntryRtV};
use crate::app::assemble::{
    action_for, auth_from, balancer_of, cache_of, compiled, file_text, location_for, rules_of,
    target_for, UserFileV, zone_for, ZoneNamesV,
};
use crate::app::balance::{BalancerV, fresh_peer};
use crate::app::listeners::{
    all_staged, first_clash, grouped, grouped_with, http3_on, limits_tls, listener_on,
    listeners_for, locations_for, none_placed, placed_with, PlacedV, protocols_on, slot_for,
    staged_for, StagedV, state_for, version_allowed, versions_clash,
};
use crate::app::runtime::{
    ActionRtV, direct_balancer, last_value, ListenerCfgV, LocationRtV, path_len, PoolsV,
    ProxyTargetV, regex_error, scheme_split,
};
use crate::app::startup::{
    named_pools, numbered, probes, runtime_of, shifted, stream_part, streams_for, zone_names,
};
use crate::auth::loaded;
use crate::config::ast::{
    ActionV, ConfigV, HealthCheckCfgV, LocationKindV, LocationV, MapDeclV, ServerV, StreamServerV,
    TlsVersion, TryFilesEntryV, UpstreamV,
};
use crate::headers::is_header_name;
use crate::net::SocketAddr;
use crate::template::{SegmentV, template_of};
use crate::text::{lower, without_trailing};
use vstd::prelude::*;
use vstd::string::*;

verus! {

// ---------------------------------------------------------------------------
// Locations
// ---------------------------------------------------------------------------

/// Headers are kept in order, under their names in lower case; a name that is none is
/// refused.
pub proof fn law_headers_are_kept(items: Seq<(Seq<char>, Seq<SegmentV>)>)
    ensures
        match compiled(items) {
            Ok(t) => t.len() == items.len() && forall|i: int|
                0 <= i < items.len() ==> is_header_name((#[trigger] items[i]).0) && t[i] == (
                    lower(items[i].0),
                    items[i].1,
                ),
            Err(_) => exists|i: int|
                0 <= i < items.len() && !is_header_name((#[trigger] items[i]).0),
        },
    decreases items.len(),
{
    if items.len() > 0 && is_header_name(items[0].0) {
        let rest = items.skip(1);
        law_headers_are_kept(rest);
        match compiled(items) {
            Ok(t) => {
                assert forall|i: int| 0 <= i < items.len() implies is_header_name(
                    (#[trigger] items[i]).0,
                ) && t[i] == (lower(items[i].0), items[i].1) by {
                    if i > 0 {
                        assert(rest[i - 1] == items[i]);
                        assert(t[i] == compiled(rest)->Ok_0[i - 1]);
                    }
                }
            },
            Err(_) => {
                let i = choose|i: int|
                    0 <= i < rest.len() && !is_header_name((#[trigger] rest[i]).0);
                assert(items[i + 1] == rest[i]);
            },
        }
    }
}

/// `allow` and `deny` become rules in order; one with a target that is none is refused.
pub proof fn law_rules_are_kept(items: Seq<(bool, Seq<char>)>, path: Seq<char>)
    ensures
        match rules_of(items, path) {
            Ok(t) => t.len() == items.len() && forall|i: int|
                0 <= i < items.len() ==> target_of((#[trigger] items[i]).1) == Ok::<_, Seq<char>>(
                    t[i].target,
                ) && (t[i].action is Allow <==> items[i].0),
            Err(_) => exists|i: int| 0 <= i < items.len() && target_of((#[trigger] items[i]).1) is Err,
        },
    decreases items.len(),
{
    if items.len() > 0 && target_of(items[0].1) is Ok {
        let rest = items.skip(1);
        law_rules_are_kept(rest, path);
        match rules_of(items, path) {
            Ok(t) => {
                assert forall|i: int| 0 <= i < items.len() implies target_of((#[trigger] items[i]).1)
                    == Ok::<_, Seq<char>>(t[i].target) && (t[i].action is Allow <==> items[i].0) by {
                    if i > 0 {
                        assert(rest[i - 1] == items[i]);
                        assert(t[i] == rules_of(rest, path)->Ok_0[i - 1]);
                    }
                }
            },
            Err(_) => {
                let i = choose|i: int|
                    0 <= i < rest.len() && target_of((#[trigger] rest[i]).1) is Err;
                assert(items[i + 1] == rest[i]);
            },
        }
    }
}

/// A limit uses the zone of its name that was declared last, with its number; a name that
/// nobody declared is refused.
pub proof fn law_zones_by_name(
    name: Seq<char>,
    n: u32,
    zones: Seq<(Seq<char>, usize)>,
    directive: Seq<char>,
)
    ensures
        zone_for(None, zones, directive) == Ok::<Option<(usize, u32)>, Seq<char>>(None),
        match zone_for(Some((name, n)), zones, directive) {
            Ok(z) => z is Some && (z->0).1 == n && exists|i: int|
                0 <= i < zones.len() && #[trigger] zones[i] == (name, (z->0).0) && forall|j: int|
                    i < j < zones.len() ==> (#[trigger] zones[j]).0 != name,
            Err(_) => forall|j: int| 0 <= j < zones.len() ==> (#[trigger] zones[j]).0 != name,
        },
{
    lemma_last_value(zones, name);
}

/// A location keeps what its block says. In front of its own headers stand those of its
/// server.
pub proof fn law_location_is_kept(
    loc: LocationV,
    server: ServerV,
    names: ZoneNamesV,
    files: Seq<UserFileV>,
    p: PoolsV,
    l: LocationRtV,
    q: PoolsV,
)
    requires
        location_for(loc, server, names, files, p) == Ok::<(LocationRtV, PoolsV), Seq<char>>((l, q)),
    ensures
        l.path == loc.path,
        l.expires == loc.expires,
        l.gzip == loc.gzip,
        l.autoindex == loc.autoindex,
        l.proxy_connect_timeout == loc.proxy_connect_timeout,
        l.proxy_read_timeout == loc.proxy_read_timeout,
        l.auth_request == loc.auth_request,
        l.mirrors == loc.mirrors,
        l.proxy_ssl_verify == loc.proxy_ssl_verify,
        l.proxy_ssl_certificate == loc.proxy_ssl_certificate,
        l.proxy_ssl_certificate_key == loc.proxy_ssl_certificate_key,
        compiled(server.add_headers + loc.add_headers) == Ok::<_, Seq<char>>(l.add_headers),
        rules_of(loc.access_rules, loc.path) == Ok::<_, Seq<char>>(l.access_rules),
        loc.limit_req is None <==> l.limit_req is None,
        loc.limit_req is Some ==> l.limit_req->0.burst == (loc.limit_req->0).1 && Some(
            l.limit_req->0.zone,
        ) == last_value(names.limit_req, (loc.limit_req->0).0),
        loc.limit_conn is None <==> l.limit_conn is None,
        loc.limit_conn is Some ==> l.limit_conn->0.max_conn == (loc.limit_conn->0).1 && Some(
            l.limit_conn->0.zone,
        ) == last_value(names.limit_conn, (loc.limit_conn->0).0),
        l.auth is Some <==> loc.auth_basic_realm is Some && loc.auth_basic_user_file is Some,
        l.auth is Some ==> auth_from(files, loc.auth_basic_user_file->0, loc.auth_basic_realm->0)
            == Ok::<_, Seq<char>>(l.auth->0),
        action_for(loc, names, p) == Ok::<(ActionRtV, PoolsV), Seq<char>>((l.action, q)),
{
}

/// A location is refused only for a zone, a password file, an address or a header that
/// is none.
pub proof fn law_location_is_refused(
    loc: LocationV,
    server: ServerV,
    names: ZoneNamesV,
    files: Seq<UserFileV>,
    p: PoolsV,
)
    requires
        location_for(loc, server, names, files, p) is Err,
    ensures
        ({
            ||| loc.action is ProxyPass && (compiled(loc.set_headers) is Err || (loc.proxy_cache
                is Some && last_value(names.caches, loc.proxy_cache->0) is None))
            ||| loc.auth_basic_realm is Some && loc.auth_basic_user_file is Some && auth_from(
                files,
                loc.auth_basic_user_file->0,
                loc.auth_basic_realm->0,
            ) is Err
            ||| loc.limit_req is Some && last_value(names.limit_req, (loc.limit_req->0).0) is None
            ||| loc.limit_conn is Some && last_value(names.limit_conn, (loc.limit_conn->0).0)
                is None
            ||| rules_of(loc.access_rules, loc.path) is Err
            ||| compiled(server.add_headers + loc.add_headers) is Err
        }),
{
}

/// A location does what its block says: it answers, serves files below a directory, in
/// place of its own path for an alias, forwards, or shows the counters.
pub proof fn law_action_is_kept(
    loc: LocationV,
    names: ZoneNamesV,
    p: PoolsV,
    a: ActionRtV,
    q: PoolsV,
    k: int,
)
    requires
        action_for(loc, names, p) == Ok::<(ActionRtV, PoolsV), Seq<char>>((a, q)),
    ensures
        loc.action matches ActionV::Return { status, body } ==> a == (ActionRtV::Return {
            status,
            body,
        }) && q == p,
        loc.action matches ActionV::Root { dir } ==> a == (ActionRtV::Static {
            root: dir,
            kind: StaticKindV::Root,
        }) && q == p,
        loc.action matches ActionV::Alias { dir } ==> a == (ActionRtV::Static {
            root: dir,
            kind: StaticKindV::Alias { prefix: loc.path },
        }) && q == p,
        loc.action is Metrics ==> a is Metrics && q == p,
        loc.action matches ActionV::ProxyPass { target } ==> (a matches ActionRtV::Proxy {
            target: t,
            set_headers,
            cache,
        } && (t, q) == target_for(target, p) && compiled(loc.set_headers) == Ok::<_, Seq<char>>(
            set_headers,
        ) && cache_of(loc, names.caches) == Ok::<_, Seq<char>>(cache)),
        loc.action matches ActionV::TryFiles { root, entries } ==> (a matches ActionRtV::TryFiles {
            root: r,
            entries: es,
        } && r == root && es.len() == entries.len() && (0 <= k < entries.len() ==> match entries[k] {
            TryFilesEntryV::Path(t) => es[k] == TryFilesEntryRtV::Path(t),
            TryFilesEntryV::Status(n) => es[k] == TryFilesEntryRtV::Status(n),
        })) && q == p,
{
}

/// The cache of a location is the one of the zone that it names, under the key that it
/// says or scheme, host and URI, and with its rules. A zone that nobody declared is
/// refused.
pub proof fn law_cache_is_kept(loc: LocationV, caches: Seq<(Seq<char>, usize)>)
    ensures
        loc.proxy_cache is None ==> (cache_of(loc, caches) matches Ok(c) && c is None),
        loc.proxy_cache is Some ==> match cache_of(loc, caches) {
            Ok(c) => c is Some && c->0.valid_rules == loc.proxy_cache_valid && c->0.key_template == (
            if loc.proxy_cache_key is Some {
                loc.proxy_cache_key->0
            } else {
                template_of("$scheme$host$request_uri"@)
            }) && last_value(caches, loc.proxy_cache->0) == Some(c->0.store),
            Err(_) => last_value(caches, loc.proxy_cache->0) is None,
        },
{
}

/// A target with a variable is put together from each request; any other is the upstream
/// of its name, or a new one of the one address, reached as its scheme says.
pub proof fn law_targets(target: Seq<char>, p: PoolsV)
    ensures
        target.contains('$') ==> target_for(target, p) == (
            ProxyTargetV::Dynamic {
                template: template_of(target),
                memo: p.ephemeral.len() as usize,
            },
            PoolsV { ephemeral: p.ephemeral.push(seq![]), ..p },
        ),
        !target.contains('$') ==> {
            let (t, q) = target_for(target, p);
            let host = without_trailing(scheme_split(target).1, '/');
            &&& q.named == p.named && q.ephemeral == p.ephemeral
            &&& match last_value(p.named, host) {
                Some(b) => t == ProxyTargetV::Fixed(b) && q == p,
                None => t == ProxyTargetV::Fixed(p.balancers.len() as usize) && q.balancers
                    == p.balancers.push(direct_balancer(host, scheme_split(target).0)),
            }
        },
        ({
            let d = direct_balancer(target, "https"@);
            &&& d.peers.len() == 1 && d.peers[0].addr == target && d.peers[0].weight == 1
                && !d.peers[0].down && !d.peers[0].backup
            &&& d.scheme == "https"@ && d.method is RoundRobin && d.rr_counter == 0
        }),
{
}

/// The password file of a location is the one that was read last under its path.
pub proof fn law_password_files(files: Seq<UserFileV>, f: UserFileV, path: Seq<char>, realm: Seq<char>)
    ensures
        file_text(seq![], path) is Err,
        f.path == path ==> file_text(files.push(f), path) == f.text,
        f.path != path ==> file_text(files.push(f), path) == file_text(files, path),
        file_text(files, path) matches Ok(t) ==> auth_from(files, path, realm) == loaded(
            t,
            path,
            realm,
        ),
        file_text(files, path) is Err ==> auth_from(files, path, realm) is Err,
{
    assert(files.push(f).drop_last() =~= files);
}

// ---------------------------------------------------------------------------
// Servers and listeners
// ---------------------------------------------------------------------------

/// A server speaks the scheme of its listener, compresses only when told to, from 20
/// bytes on, and takes bodies of 1 MiB, unless it says otherwise.
pub proof fn law_server_defaults(s: ServerV, maps: Seq<MapDeclV>, p: PlacedV)
    ensures
        ({
            let t = state_for(s, maps, p);
            &&& t.server_name == s.server_name
            &&& s.tls ==> t.scheme == "https"@
            &&& !s.tls ==> t.scheme == "http"@
            &&& t.gzip <==> s.gzip == Some(true)
            &&& t.gzip_types == s.gzip_types
            &&& s.gzip_min_length is Some ==> t.gzip_min_length == s.gzip_min_length->0
            &&& s.gzip_min_length is None ==> t.gzip_min_length == 20
            &&& s.client_max_body_size is Some ==> t.client_max_body_size
                == s.client_max_body_size->0
            &&& s.client_max_body_size is None ==> t.client_max_body_size == 1_048_576
            &&& t.maps == maps
            &&& t.exact_locs == p.exact && t.regex_locs == p.regex && t.prefix_locs == p.prefix
        }),
{
}

proof fn lemma_slot(locs: Seq<LocationRtV>, l: LocationRtV, i: int)
    requires
        0 <= i <= locs.len(),
    ensures
        i <= slot_for(locs, l, i) <= locs.len(),
        forall|k: int|
            i <= k < slot_for(locs, l, i) ==> path_len(#[trigger] locs[k]) >= path_len(l),
        slot_for(locs, l, i) < locs.len() ==> path_len(locs[slot_for(locs, l, i)]) < path_len(l),
    decreases locs.len() - i,
{
    if i < locs.len() && path_len(locs[i]) >= path_len(l) {
        lemma_slot(locs, l, i + 1);
    }
}

/// A location is kept with those of its kind: exact ones and patterns at the end, and a
/// prefix behind all that are at least as long and in front of all that are shorter. A
/// pattern that is none is refused.
pub proof fn law_locations_are_placed(p: PlacedV, l: LocationRtV, pattern: Seq<char>, fold: bool)
    ensures
        placed_with(p, LocationKindV::Exact, l) == Ok::<PlacedV, Seq<char>>(
            PlacedV { exact: p.exact.push(l), ..p },
        ),
        regex_error(pattern, fold) is Some ==> placed_with(
            p,
            LocationKindV::Regex { pattern, case_insensitive: fold },
            l,
        ) is Err,
        regex_error(pattern, fold) is None ==> placed_with(
            p,
            LocationKindV::Regex { pattern, case_insensitive: fold },
            l,
        ) == Ok::<PlacedV, Seq<char>>(
            PlacedV { regex: p.regex.push(((pattern, fold), l)), ..p },
        ),
        placed_with(p, LocationKindV::Prefix, l) is Ok && exists|n: int|
            0 <= n <= p.prefix.len() && placed_with(p, LocationKindV::Prefix, l) == Ok::<
                PlacedV,
                Seq<char>,
            >(PlacedV { prefix: #[trigger] p.prefix.insert(n, l), ..p }) && (forall|k: int|
                0 <= k < n ==> path_len(#[trigger] p.prefix[k]) >= path_len(l)) && (n
                < p.prefix.len() ==> path_len(p.prefix[n]) < path_len(l)),
{
    lemma_slot(p.prefix, l, 0);
    let n = slot_for(p.prefix, l, 0);
    assert(placed_with(p, LocationKindV::Prefix, l) == Ok::<PlacedV, Seq<char>>(
        PlacedV { prefix: p.prefix.insert(n, l), ..p },
    ));
}

/// The locations of a server are built and placed one after the other.
pub proof fn law_locations_in_order(
    p: PlacedV,
    locs: Seq<LocationV>,
    loc: LocationV,
    server: ServerV,
    names: ZoneNamesV,
    files: Seq<UserFileV>,
    pools: PoolsV,
)
    ensures
        locations_for(p, seq![], server, names, files, pools) == Ok::<_, Seq<char>>((p, pools)),
        locations_for(p, seq![loc] + locs, server, names, files, pools) == (match location_for(
            loc,
            server,
            names,
            files,
            pools,
        ) {
            Ok((l, q)) => match placed_with(p, loc.kind, l) {
                Ok(p2) => locations_for(p2, locs, server, names, files, q),
                Err(e) => Err(e),
            },
            Err(e) => Err(e),
        }),
{
    assert((seq![loc] + locs).skip(1) =~= locs);
}

proof fn lemma_listener_on(ls: Seq<ListenerCfgV>, addr: SocketAddr, i: int)
    requires
        0 <= i <= ls.len(),
    ensures
        i <= listener_on(ls, addr, i) <= ls.len(),
        forall|k: int| i <= k < listener_on(ls, addr, i) ==> (#[trigger] ls[k]).addr != addr,
        listener_on(ls, addr, i) < ls.len() ==> ls[listener_on(ls, addr, i)].addr == addr,
    decreases ls.len() - i,
{
    if i < ls.len() && ls[i].addr != addr {
        lemma_listener_on(ls, addr, i + 1);
    }
}

/// A server joins the listener on its address, behind those that are there, or opens
/// it. TLS and plain servers do not share an address.
pub proof fn law_servers_share_listeners(ls: Seq<ListenerCfgV>, st: StagedV, i: int)
    ensures
        (forall|k: int| 0 <= k < ls.len() ==> (#[trigger] ls[k]).addr != st.addr) ==> {
            let r = grouped_with(ls, st);
            &&& r is Ok && r->Ok_0.drop_last() == ls && r->Ok_0.len() == ls.len() + 1
            &&& r->Ok_0.last().addr == st.addr && r->Ok_0.last().vhosts == seq![st.vhost]
            &&& st.cert is Some ==> r->Ok_0.last().tls_paths == seq![st.cert->0]
            &&& st.cert is None ==> r->Ok_0.last().tls_paths.len() == 0
        },
        0 <= i < ls.len() && ls[i].addr == st.addr && (forall|k: int|
            0 <= k < i ==> (#[trigger] ls[k]).addr != st.addr) ==> {
            let r = grouped_with(ls, st);
            &&& r is Err <==> (ls[i].tls_paths.len() > 0) != (st.cert is Some)
            &&& r is Ok ==> r->Ok_0 == ls.update(
                i,
                ListenerCfgV {
                    vhosts: ls[i].vhosts.push(st.vhost),
                    tls_paths: if st.cert is Some {
                        ls[i].tls_paths.push(st.cert->0)
                    } else {
                        ls[i].tls_paths
                    },
                    ..ls[i]
                },
            )
        },
{
    lemma_listener_on(ls, st.addr, 0);
    let j = listener_on(ls, st.addr, 0);
    if 0 <= i < ls.len() && ls[i].addr == st.addr && (forall|k: int|
        0 <= k < i ==> (#[trigger] ls[k]).addr != st.addr) {
        if j < i {
            assert(ls[j].addr != st.addr);
        } else if i < j {
            assert(ls[i].addr != st.addr);
        }
        if st.cert is Some {
            assert(ls[i].tls_paths + seq![st.cert->0] =~= ls[i].tls_paths.push(st.cert->0));
        } else {
            assert(ls[i].tls_paths + Seq::empty() =~= ls[i].tls_paths);
        }
    }
    if forall|k: int| 0 <= k < ls.len() ==> (#[trigger] ls[k]).addr != st.addr {
        assert(j == ls.len());
        assert(grouped_with(ls, st)->Ok_0.drop_last() =~= ls);
    }
}

/// A server is staged on the address that it listens on, under its name, with its
/// locations, and with its certificate where it speaks TLS.
pub proof fn law_server_is_staged(
    s: ServerV,
    maps: Seq<MapDeclV>,
    names: ZoneNamesV,
    files: Seq<UserFileV>,
    pools: PoolsV,
)
    ensures
        staged_for(s, maps, names, files, pools) matches Ok((st, q)) ==> {
            &&& s.listen == Some(st.addr)
            &&& st.vhost.server_name == s.server_name
            &&& s.tls <==> st.cert is Some
            &&& s.tls ==> st.cert->0.server_name == s.server_name && Some(st.cert->0.cert_path)
                == s.ssl_certificate && Some(st.cert->0.key_path) == s.ssl_certificate_key
            &&& exists|p: PlacedV|
                locations_for(none_placed(), s.locations, s, names, files, pools) == Ok::<
                    _,
                    Seq<char>,
                >((p, q)) && st.vhost.state == #[trigger] state_for(s, maps, p)
        },
        none_placed().exact.len() == 0 && none_placed().regex.len() == 0
            && none_placed().prefix.len() == 0,
{
    if let Ok((st, q)) = staged_for(s, maps, names, files, pools) {
        let p = (locations_for(none_placed(), s.locations, s, names, files, pools)->Ok_0).0;
        assert(st.vhost.state == state_for(s, maps, p));
    }
}

/// The servers are staged and then joined to listeners in the order of the
/// configuration.
pub proof fn law_servers_in_order(
    done: Seq<StagedV>,
    s: ServerV,
    servers: Seq<ServerV>,
    maps: Seq<MapDeclV>,
    names: ZoneNamesV,
    files: Seq<UserFileV>,
    pools: PoolsV,
    st: StagedV,
)
    ensures
        all_staged(done, seq![], maps, names, files, pools) == Ok::<_, Seq<char>>((done, pools)),
        all_staged(done, seq![s] + servers, maps, names, files, pools) == (match staged_for(
            s,
            maps,
            names,
            files,
            pools,
        ) {
            Ok((x, q)) => all_staged(done.push(x), servers, maps, names, files, q),
            Err(e) => Err(e),
        }),
        grouped(seq![]) == Ok::<Seq<ListenerCfgV>, Seq<char>>(seq![]),
        grouped(done.push(st)) == (match grouped(done) {
            Ok(ls) => grouped_with(ls, st),
            Err(e) => Err(e),
        }),
{
    assert((seq![s] + servers).skip(1) =~= servers);
    assert(done.push(st).drop_last() =~= done);
}

/// On an address a version of TLS is spoken when every server there that names versions
/// names it; where none does, nothing is said. HTTP/3 is spoken when one asks for it.
pub proof fn law_versions_on_an_address(servers: Seq<ServerV>, addr: SocketAddr, v: TlsVersion)
    ensures
        ({
            let named = exists|i: int|
                0 <= i < servers.len() && (#[trigger] servers[i]).listen == Some(addr)
                    && servers[i].tls && servers[i].ssl_protocols.len() > 0;
            &&& !named ==> protocols_on(servers, addr).len() == 0
            &&& named ==> (protocols_on(servers, addr).contains(v) <==> forall|i: int|
                0 <= i < servers.len() && (#[trigger] servers[i]).listen == Some(addr)
                    && servers[i].tls && servers[i].ssl_protocols.len() > 0
                    ==> servers[i].ssl_protocols.contains(v))
        }),
        http3_on(servers, addr) <==> exists|i: int|
            0 <= i < servers.len() && (#[trigger] servers[i]).listen == Some(addr)
                && servers[i].http3,
{
    let t = protocols_on(servers, addr);
    if exists|i: int|
        0 <= i < servers.len() && (#[trigger] servers[i]).listen == Some(addr) && servers[i].tls
            && servers[i].ssl_protocols.len() > 0 {
        let i = choose|i: int|
            0 <= i < servers.len() && (#[trigger] servers[i]).listen == Some(addr) && servers[i].tls
                && servers[i].ssl_protocols.len() > 0;
        assert(limits_tls(servers[i], addr));
        let a = version_allowed(servers, addr, TlsVersion::Tls12);
        let b = version_allowed(servers, addr, TlsVersion::Tls13);
        if a {
            assert(t[0] is Tls12);
        }
        if b {
            assert(t[t.len() - 1] is Tls13);
        }
        if t.contains(v) {
            let k = choose|k: int| 0 <= k < t.len() && t[k] == v;
        }
        assert forall|j: int|
            version_allowed(servers, addr, v) && 0 <= j < servers.len() && (
            #[trigger] servers[j]).listen == Some(addr) && servers[j].tls
                && servers[j].ssl_protocols.len() > 0 implies servers[j].ssl_protocols.contains(
            v,
        ) by {
            assert(limits_tls(servers[j], addr));
        }
    }
}

/// Every listener that is opened knows its versions and whether it speaks HTTP/3 if it
/// speaks TLS, and neither if it does not.
pub proof fn law_listeners_are_finished(
    servers: Seq<ServerV>,
    maps: Seq<MapDeclV>,
    names: ZoneNamesV,
    files: Seq<UserFileV>,
    pools: PoolsV,
    staged: Seq<StagedV>,
    q: PoolsV,
    ls: Seq<ListenerCfgV>,
    i: int,
)
    requires
        all_staged(seq![], servers, maps, names, files, pools) == Ok::<_, Seq<char>>((staged, q)),
        grouped(staged) == Ok::<_, Seq<char>>(ls),
        0 <= i < ls.len(),
    ensures
        listeners_for(servers, maps, names, files, pools) matches Ok((t, r)) ==> {
            &&& r == q
            &&& t.len() == ls.len()
            &&& t[i].addr == ls[i].addr && t[i].vhosts == ls[i].vhosts && t[i].tls_paths
                == ls[i].tls_paths
            &&& ls[i].tls_paths.len() == 0 ==> t[i] == ls[i]
            &&& ls[i].tls_paths.len() > 0 ==> t[i].protocols == protocols_on(servers, ls[i].addr)
                && t[i].http3 == http3_on(servers, ls[i].addr)
        },
{
}

proof fn lemma_first_clash(ls: Seq<ListenerCfgV>, servers: Seq<ServerV>, i: int)
    requires
        0 <= i <= ls.len(),
    ensures
        first_clash(ls, servers, i) is Some <==> exists|k: int|
            i <= k < ls.len() && (#[trigger] ls[k]).tls_paths.len() > 0 && versions_clash(
                servers,
                ls[k].addr,
            ),
    decreases ls.len() - i,
{
    if i < ls.len() {
        lemma_first_clash(ls, servers, i + 1);
        if first_clash(ls, servers, i) is None && exists|k: int|
            i <= k < ls.len() && (#[trigger] ls[k]).tls_paths.len() > 0 && versions_clash(
                servers,
                ls[k].addr,
            ) {
            let k = choose|k: int|
                i <= k < ls.len() && (#[trigger] ls[k]).tls_paths.len() > 0 && versions_clash(
                    servers,
                    ls[k].addr,
                );
            assert(k > i);
        }
    }
}

/// Listeners are refused only where the servers of one have no version of TLS in common:
/// some name versions, and neither TLS 1.2 nor TLS 1.3 is named by all that do.
pub proof fn law_versions_in_common(
    servers: Seq<ServerV>,
    maps: Seq<MapDeclV>,
    names: ZoneNamesV,
    files: Seq<UserFileV>,
    pools: PoolsV,
    staged: Seq<StagedV>,
    q: PoolsV,
    ls: Seq<ListenerCfgV>,
)
    requires
        all_staged(seq![], servers, maps, names, files, pools) == Ok::<_, Seq<char>>((staged, q)),
        grouped(staged) == Ok::<_, Seq<char>>(ls),
    ensures
        listeners_for(servers, maps, names, files, pools) is Err <==> exists|k: int|
            0 <= k < ls.len() && (#[trigger] ls[k]).tls_paths.len() > 0 && ({
                let addr = ls[k].addr;
                &&& exists|i: int| 0 <= i < servers.len() && limits_tls(#[trigger] servers[i], addr)
                &&& exists|i: int|
                    0 <= i < servers.len() && limits_tls(#[trigger] servers[i], addr)
                        && !servers[i].ssl_protocols.contains(TlsVersion::Tls12)
                &&& exists|i: int|
                    0 <= i < servers.len() && limits_tls(#[trigger] servers[i], addr)
                        && !servers[i].ssl_protocols.contains(TlsVersion::Tls13)
            }),
{
    lemma_first_clash(ls, servers, 0);
    if listeners_for(servers, maps, names, files, pools) is Err {
        let k = choose|k: int|
            0 <= k < ls.len() && (#[trigger] ls[k]).tls_paths.len() > 0 && versions_clash(
                servers,
                ls[k].addr,
            );
        assert(ls[k].tls_paths.len() > 0);
    }
    if exists|k: int|
        0 <= k < ls.len() && (#[trigger] ls[k]).tls_paths.len() > 0 && ({
            let addr = ls[k].addr;
            &&& exists|i: int| 0 <= i < servers.len() && limits_tls(#[trigger] servers[i], addr)
            &&& exists|i: int|
                0 <= i < servers.len() && limits_tls(#[trigger] servers[i], addr)
                    && !servers[i].ssl_protocols.contains(TlsVersion::Tls12)
            &&& exists|i: int|
                0 <= i < servers.len() && limits_tls(#[trigger] servers[i], addr)
                    && !servers[i].ssl_protocols.contains(TlsVersion::Tls13)
        }) {
        let k = choose|k: int|
            0 <= k < ls.len() && (#[trigger] ls[k]).tls_paths.len() > 0 && ({
                let addr = ls[k].addr;
                &&& exists|i: int| 0 <= i < servers.len() && limits_tls(#[trigger] servers[i], addr)
                &&& exists|i: int|
                    0 <= i < servers.len() && limits_tls(#[trigger] servers[i], addr)
                        && !servers[i].ssl_protocols.contains(TlsVersion::Tls12)
                &&& exists|i: int|
                    0 <= i < servers.len() && limits_tls(#[trigger] servers[i], addr)
                        && !servers[i].ssl_protocols.contains(TlsVersion::Tls13)
            });
        assert(versions_clash(servers, ls[k].addr));
    }
}

// ---------------------------------------------------------------------------
// The whole
// ---------------------------------------------------------------------------

/// An upstream becomes a balancer with its name, its method and a fresh peer for each of
/// its servers, and is reached over plain HTTP.
pub proof fn law_balancers(u: UpstreamV, i: int)
    requires
        0 <= i < u.servers.len(),
    ensures
        ({
            let b = balancer_of(u);
            &&& b.name == u.name && b.method == u.method && b.scheme == "http"@ && b.rr_counter == 0
            &&& b.peers.len() == u.servers.len()
            &&& b.peers[i] == fresh_peer(u.servers[i])
        }),
{
}

/// Upstreams and zones are found under their names at the places where they are
/// declared.
pub proof fn law_names_are_places(names: Seq<Seq<char>>, ups: Seq<UpstreamV>, i: int, by: int)
    requires
        0 <= i < names.len() <= usize::MAX,
        0 <= by,
        i + by <= usize::MAX,
    ensures
        numbered(names).len() == names.len(),
        numbered(names)[i].0 == names[i] && numbered(names)[i].1 == i,
        shifted(numbered(names), by)[i].0 == names[i] && shifted(numbered(names), by)[i].1 == i + by,
        named_pools(ups).balancers.len() == ups.len(),
        named_pools(ups).named.len() == ups.len(),
        named_pools(ups).ephemeral.len() == 0,
        i < ups.len() ==> named_pools(ups).balancers[i] == balancer_of(ups[i])
            && named_pools(ups).named[i].0 == ups[i].name && named_pools(ups).named[i].1 == i,
{
}

/// What a stream server forwards to is settled like any other target, one server after
/// the other.
pub proof fn law_streams_in_order(
    done: Seq<(SocketAddr, usize, bool)>,
    s: StreamServerV,
    servers: Seq<StreamServerV>,
    named: Seq<(Seq<char>, usize)>,
    balancers: Seq<BalancerV>,
)
    ensures
        streams_for(done, seq![], named, balancers) == Ok::<_, Seq<char>>((done, balancers)),
        s.listen is None || s.proxy_pass is None ==> streams_for(
            done,
            seq![s] + servers,
            named,
            balancers,
        ) is Err,
        s.listen is Some && s.proxy_pass is Some ==> {
            let host = without_trailing(scheme_split(s.proxy_pass->0).1, '/');
            let (b, bs) = match last_value(named, host) {
                Some(x) => (x, balancers),
                None => (
                    balancers.len() as usize,
                    balancers.push(direct_balancer(host, scheme_split(s.proxy_pass->0).0)),
                ),
            };
            streams_for(done, seq![s] + servers, named, balancers) == streams_for(
                done.push((s.listen->0, b, s.udp)),
                servers,
                named,
                bs,
            )
        },
{
    assert((seq![s] + servers).skip(1) =~= servers);
}

/// The runtime of a configuration has its listeners, its stream servers, and a cache, a
/// limit and a probe for each that is declared. A configuration without `http`, or
/// without a server, is refused.
pub proof fn law_runtime(cfg: ConfigV, files: Seq<UserFileV>, i: int)
    ensures
        cfg.http is None ==> runtime_of(cfg, files) is Err,
        runtime_of(cfg, files) matches Ok(rt) ==> {
            let h = cfg.http->0;
            let built = listeners_for(
                h.servers,
                h.maps,
                zone_names(h),
                files,
                named_pools(h.upstreams),
            );
            &&& built is Ok && rt.listeners == (built->Ok_0).0
            &&& rt.listeners.len() > 0 || rt.stream_servers.len() > 0
            &&& stream_part(cfg.stream, (built->Ok_0).1.balancers) == Ok::<_, Seq<char>>(
                (rt.stream_servers, rt.pools.balancers),
            )
            &&& rt.pools.named == (built->Ok_0).1.named
            &&& rt.caches.len() == h.cache_zones.len()
            &&& 0 <= i < h.cache_zones.len() ==> rt.caches[i] == (
                h.cache_zones[i].name,
                h.cache_zones[i].max_bytes,
            )
            &&& rt.limit_req_zones.len() == h.limit_req_zones.len()
            &&& 0 <= i < h.limit_req_zones.len() ==> {
                let z = rt.limit_req_zones[i];
                let d = h.limit_req_zones[i];
                z.name == d.name && z.key_template == d.key_template && z.rate == d.rate
                    && z.max_entries == d.max_entries && z.buckets.len() == 0
            }
            &&& rt.limit_conn_zones.len() == h.limit_conn_zones.len()
            &&& 0 <= i < h.limit_conn_zones.len() ==> {
                let z = rt.limit_conn_zones[i];
                let d = h.limit_conn_zones[i];
                z.name == d.name && z.key_template == d.key_template && z.max_entries
                    == d.max_entries && z.active.len() == 0
            }
        },
        runtime_of(cfg, files) is Err ==> (cfg.http matches Some(h) ==> {
            let built = listeners_for(
                h.servers,
                h.maps,
                zone_names(h),
                files,
                named_pools(h.upstreams),
            );
            built is Err || stream_part(cfg.stream, (built->Ok_0).1.balancers) is Err || ((
            built->Ok_0).0.len() == 0 && (stream_part(
                cfg.stream,
                (built->Ok_0).1.balancers,
            )->Ok_0).0.len() == 0)
        }),
        stream_part(None, seq![]) == Ok::<_, Seq<char>>(
            (Seq::<(SocketAddr, usize, bool)>::empty(), Seq::<BalancerV>::empty()),
        ),
{
}

/// An upstream is probed when it asks for it and no later one has its name.
pub proof fn law_probes(ups: Seq<UpstreamV>, n: int, i: int, h: HealthCheckCfgV)
    requires
        0 <= n <= ups.len() <= usize::MAX,
        0 <= i < ups.len(),
    ensures
        probes(ups, n).contains((i as usize, h)) <==> i < n && ups[i].health_check == Some(h)
            && forall|j: int| i < j < ups.len() ==> (#[trigger] ups[j]).name != ups[i].name,
    decreases n,
{
    if n > 0 {
        law_probes(ups, n - 1, i, h);
        let before = probes(ups, n - 1);
        let all = probes(ups, n);
        let names = ups.map_values(|u: UpstreamV| u.name);
        let list = numbered(names);
        let u = ups[n - 1];
        lemma_last_value(list, u.name);
        assert(list[n - 1] == (u.name, (n - 1) as usize));
        let v = last_value(list, u.name)->0;
        let k = choose|k: int|
            0 <= k < list.len() && #[trigger] list[k] == (u.name, v) && forall|j: int|
                k < j < list.len() ==> (#[trigger] list[j]).0 != u.name;
        assert(v == k && k >= n - 1);
        let last = last_value(list, u.name) == Some((n - 1) as usize);
        assert(last <==> forall|j: int| n - 1 < j < ups.len() ==> (#[trigger] ups[j]).name != u.name)
            by {
            if last {
                assert forall|j: int| n - 1 < j < ups.len() implies (#[trigger] ups[j]).name
                    != u.name by {
                    assert(list[j].0 == ups[j].name);
                }
            } else {
                assert(list[k].0 == ups[k].name);
                assert(k > n - 1);
            }
        }
        if before.contains((i as usize, h)) {
            let x = choose|x: int| 0 <= x < before.len() && before[x] == (i as usize, h);
            assert(all[x] == (i as usize, h));
        }
        if all != before {
            let own = ((n - 1) as usize, u.health_check->0);
            assert(all == before.push(own));
            assert(all[all.len() - 1] == own);
            if all.contains((i as usize, h)) && !before.contains((i as usize, h)) {
                let x = choose|x: int| 0 <= x < all.len() && all[x] == (i as usize, h);
                if x < before.len() {
                    assert(before[x] == all[x]);
                }
            }
        }
    }
}

} // verus!
