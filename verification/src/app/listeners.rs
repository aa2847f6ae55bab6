//! Groups server blocks into listeners.

use super::assemble::{
    build_location, copy_maps, copy_opt_string, location_for, UserFile, UserFileV, ZoneNames,
    ZoneNamesV,
};
use super::runtime::{
    DEFAULT_CLIENT_MAX_BODY_SIZE, DEFAULT_GZIP_MIN_LENGTH, ListenerCfg, ListenerCfgV, LocationRt,
    LocationRtV, longest_first, path_len, PathRegex, Pools, PoolsV, regex_error, ServerState,
    ServerStateV, VirtualHost, VirtualHostV,
};
use crate::config::ast::{
    LocationKind, LocationKindV, LocationV, MapDecl, MapDeclV, Server, ServerV, TlsVersion,
};
use crate::net::{format_socket, socket_string, SocketAddr};
use crate::text::{copy_strings, lemma_views_push, opt_view, views};
use crate::tls::{CertEntry, CertEntryV};
use vstd::prelude::*;
use vstd::string::*;

verus! {

// ---------------------------------------------------------------------------
// Locations by kind
// ---------------------------------------------------------------------------

/// The locations of a server, by kind.
#[derive(Debug)]
pub struct Placed {
    pub exact: Vec<LocationRt>,
    pub regex: Vec<(PathRegex, LocationRt)>,
    pub prefix: Vec<LocationRt>,
}

/// Model of [`Placed`].
pub struct PlacedV {
    pub exact: Seq<LocationRtV>,
    pub regex: Seq<((Seq<char>, bool), LocationRtV)>,
    pub prefix: Seq<LocationRtV>,
}

impl View for Placed {
    type V = PlacedV;

    open spec fn view(&self) -> PlacedV {
        PlacedV {
            exact: views(self.exact@),
            regex: views(self.regex@),
            prefix: views(self.prefix@),
        }
    }
}

/// The position of the first location from `i` on with a shorter path.
pub open spec fn slot_for(locs: Seq<LocationRtV>, l: LocationRtV, i: int) -> int
    decreases locs.len() - i,
{
    if i >= locs.len() || i < 0 {
        locs.len() as int
    } else if path_len(locs[i]) < path_len(l) {
        i
    } else {
        slot_for(locs, l, i + 1)
    }
}

/// The locations with one more, which comes after those of its kind: exact and
/// pattern locations in declaration order, prefix locations by falling length.
pub open spec fn placed_with(p: PlacedV, kind: LocationKindV, l: LocationRtV) -> Result<
    PlacedV,
    Seq<char>,
> {
    match kind {
        LocationKindV::Exact => Ok(PlacedV { exact: p.exact.push(l), ..p }),
        LocationKindV::Prefix => Ok(
            PlacedV { prefix: p.prefix.insert(slot_for(p.prefix, l, 0), l), ..p },
        ),
        LocationKindV::Regex { pattern, case_insensitive } => match regex_error(
            pattern,
            case_insensitive,
        ) {
            Some(e) => Err("location regex '"@ + pattern + "' is invalid: "@ + e),
            None => Ok(PlacedV { regex: p.regex.push(((pattern, case_insensitive), l)), ..p }),
        },
    }
}

proof fn lemma_slot(locs: Seq<LocationRtV>, l: LocationRtV, i: int)
    requires
        0 <= i <= locs.len(),
    ensures
        i <= slot_for(locs, l, i) <= locs.len(),
        forall|k: int|
            i <= k < slot_for(locs, l, i) ==> path_len(#[trigger] locs[k]) >= path_len(l),
        slot_for(locs, l, i) < locs.len() ==> path_len(locs[slot_for(locs, l, i)]) < path_len(l),
    decreases locs.len() - i,
{
    if i < locs.len() && path_len(locs[i]) >= path_len(l) {
        lemma_slot(locs, l, i + 1);
    }
}

pub(crate) proof fn lemma_insert_sorted(locs: Seq<LocationRtV>, l: LocationRtV)
    requires
        longest_first(locs),
    ensures
        0 <= slot_for(locs, l, 0) <= locs.len(),
        longest_first(locs.insert(slot_for(locs, l, 0), l)),
{
    lemma_slot(locs, l, 0);
    let p = slot_for(locs, l, 0);
    let r = locs.insert(p, l);
    assert forall|i: int, j: int| 0 <= i < j < r.len() implies path_len(#[trigger] r[i])
        >= path_len(#[trigger] r[j]) by {
        if i == p {
            assert(path_len(locs[p]) >= path_len(locs[j - 1]));
        } else if j == p {
            assert(path_len(locs[i]) >= path_len(l));
        } else {
            let a = if i < p { i } else { i - 1 };
            let b = if j < p { j } else { j - 1 };
            assert(path_len(locs[a]) >= path_len(locs[b]));
        }
    }
}

proof fn lemma_views_insert<T: View>(s: Seq<T>, i: int, x: T)
    requires
        0 <= i <= s.len(),
    ensures
        views(s.insert(i, x)) == views(s).insert(i, x@),
{
    assert(views(s.insert(i, x)) =~= views(s).insert(i, x@));
}

fn place(p: &mut Placed, kind: &LocationKind, l: LocationRt) -> (r: Result<(), String>)
    ensures
        match r {
            Ok(_) => placed_with(old(p)@, kind@, l@) == Ok::<PlacedV, Seq<char>>(final(p)@),
            Err(e) => placed_with(old(p)@, kind@, l@) == Err::<PlacedV, Seq<char>>(e@),
        },
{
    match kind {
        LocationKind::Exact => {
            proof {
                lemma_views_push(p.exact@, l);
            }
            p.exact.push(l);
            Ok(())
        },
        LocationKind::Prefix => {
            place_prefix(&mut p.prefix, l);
            Ok(())
        },
        LocationKind::Regex { pattern, case_insensitive } => {
            match PathRegex::new(pattern.as_str(), *case_insensitive) {
                Err(e) => {
                    let mut m = "location regex '".to_owned();
                    m.append(pattern.as_str());
                    m.append("' is invalid: ");
                    m.append(e.as_str());
                    Err(m)
                },
                Ok(re) => {
                    let item = (re, l);
                    proof {
                        lemma_views_push(p.regex@, item);
                    }
                    p.regex.push(item);
                    Ok(())
                },
            }
        },
    }
}

fn place_prefix(locs: &mut Vec<LocationRt>, l: LocationRt)
    ensures
        views(final(locs)@) == views(old(locs)@).insert(slot_for(views(old(locs)@), l@, 0), l@),
{
    let ghost all = views(locs@);
    let size: usize = l.path.as_str().as_bytes().len();
    let mut i: usize = 0;
    while i < locs.len()
        invariant_except_break
            slot_for(all, l@, 0) == slot_for(all, l@, i as int),
        invariant
            i <= locs@.len(),
            all == views(locs@),
            *locs == *old(locs),
            size == path_len(l@),
        ensures
            i == slot_for(all, l@, 0),
        decreases locs@.len() - i,
    {
        assert(all[i as int] == locs@[i as int]@);
        if locs[i].path.as_str().as_bytes().len() < size {
            break;
        }
        i = i + 1;
    }
    proof {
        lemma_views_insert(locs@, i as int, l);
    }
    locs.insert(i, l);
}

/// All locations of a server placed, and the pools after that. The first error
/// stops it.
pub open spec fn locations_for(
    p: PlacedV,
    locs: Seq<LocationV>,
    server: ServerV,
    names: ZoneNamesV,
    files: Seq<UserFileV>,
    pools: PoolsV,
) -> Result<(PlacedV, PoolsV), Seq<char>>
    decreases locs.len(),
{
    if locs.len() == 0 {
        Ok((p, pools))
    } else {
        match location_for(locs[0], server, names, files, pools) {
            Err(e) => Err(e),
            Ok((l, q)) => match placed_with(p, locs[0].kind, l) {
                Err(e) => Err(e),
                Ok(p2) => locations_for(p2, locs.skip(1), server, names, files, q),
            },
        }
    }
}

/// No locations.
pub open spec fn none_placed() -> PlacedV {
    PlacedV { exact: seq![], regex: seq![], prefix: seq![] }
}

fn place_all(server: &Server, names: &ZoneNames, files: &Vec<UserFile>, pools: &mut Pools) -> (r:
    Result<Placed, String>)
    ensures
        match r {
            Ok(p) => locations_for(
                none_placed(),
                server@.locations,
                server@,
                names@,
                views(files@),
                old(pools)@,
            ) == Ok::<(PlacedV, PoolsV), Seq<char>>((p@, final(pools)@)),
            Err(e) => locations_for(
                none_placed(),
                server@.locations,
                server@,
                names@,
                views(files@),
                old(pools)@,
            ) == Err::<(PlacedV, PoolsV), Seq<char>>(e@),
        },
{
    let ghost all = server@.locations;
    let ghost start = pools@;
    let mut p = Placed { exact: Vec::new(), regex: Vec::new(), prefix: Vec::new() };
    let mut i: usize = 0;
    assert(all.skip(0) == all);
    assert(p@.exact =~= none_placed().exact);
    assert(p@.regex =~= none_placed().regex);
    assert(p@.prefix =~= none_placed().prefix);
    while i < server.locations.len()
        invariant
            i <= server.locations@.len(),
            all == views(server.locations@),
            all == server@.locations,
            start == old(pools)@,
            locations_for(p@, all.skip(i as int), server@, names@, views(files@), pools@)
                == locations_for(none_placed(), all, server@, names@, views(files@), start),
        decreases server.locations@.len() - i,
    {
        let ghost rest = all.skip(i as int);
        assert(rest[0] == server.locations@[i as int]@);
        assert(rest.skip(1) == all.skip(i + 1));
        let loc = &server.locations[i];
        let l = match build_location(loc, server, names, files, pools) {
            Ok(l) => l,
            Err(e) => {
                return Err(e);
            },
        };
        match place(&mut p, &loc.kind, l) {
            Ok(_) => {},
            Err(e) => {
                return Err(e);
            },
        }
        i = i + 1;
    }
    Ok(p)
}

// ---------------------------------------------------------------------------
// Servers
// ---------------------------------------------------------------------------

/// A server block with its address and certificate, before grouping.
#[derive(Debug)]
pub struct Staged {
    pub addr: SocketAddr,
    pub vhost: VirtualHost,
    pub cert: Option<CertEntry>,
}

/// Model of a [`Staged`].
pub struct StagedV {
    pub addr: SocketAddr,
    pub vhost: VirtualHostV,
    pub cert: Option<CertEntryV>,
}

impl View for Staged {
    type V = StagedV;

    open spec fn view(&self) -> StagedV {
        StagedV { addr: self.addr, vhost: self.vhost@, cert: opt_view(self.cert) }
    }
}

/// The certificate of a server: TLS needs both a certificate and a key.
pub open spec fn cert_for(s: ServerV) -> Result<Option<CertEntryV>, Seq<char>> {
    if !s.tls {
        Ok(None)
    } else {
        match s.ssl_certificate {
            None => Err("missing ssl_certificate for a TLS server"@),
            Some(cert_path) => match s.ssl_certificate_key {
                None => Err("missing ssl_certificate_key for a TLS server"@),
                Some(key_path) => Ok(
                    Some(CertEntryV { server_name: s.server_name, cert_path, key_path }),
                ),
            },
        }
    }
}

fn build_cert(s: &Server) -> (r: Result<Option<CertEntry>, String>)
    ensures
        match r {
            Ok(c) => cert_for(s@) == Ok::<Option<CertEntryV>, Seq<char>>(opt_view(c)),
            Err(e) => cert_for(s@) == Err::<Option<CertEntryV>, Seq<char>>(e@),
        },
{
    if !s.tls {
        return Ok(None);
    }
    match &s.ssl_certificate {
        None => Err("missing ssl_certificate for a TLS server".to_owned()),
        Some(cert) => match &s.ssl_certificate_key {
            None => Err("missing ssl_certificate_key for a TLS server".to_owned()),
            Some(key) => Ok(
                Some(
                    CertEntry {
                        server_name: copy_opt_string(&s.server_name),
                        cert_path: cert.clone(),
                        key_path: key.clone(),
                    },
                ),
            ),
        },
    }
}

/// The state of a server with its locations.
pub open spec fn state_for(s: ServerV, maps: Seq<MapDeclV>, p: PlacedV) -> ServerStateV {
    ServerStateV {
        server_name: s.server_name,
        scheme: if s.tls {
            "https"@
        } else {
            "http"@
        },
        gzip: s.gzip == Some(true),
        gzip_types: s.gzip_types,
        gzip_min_length: match s.gzip_min_length {
            Some(n) => n,
            None => DEFAULT_GZIP_MIN_LENGTH,
        },
        maps,
        client_max_body_size: match s.client_max_body_size {
            Some(n) => n,
            None => DEFAULT_CLIENT_MAX_BODY_SIZE,
        },
        exact_locs: p.exact,
        regex_locs: p.regex,
        prefix_locs: p.prefix,
    }
}

fn build_state(s: &Server, maps: &Vec<MapDecl>, p: Placed) -> (r: ServerState)
    ensures
        r@ == state_for(s@, views(maps@), p@),
{
    let scheme: &'static str = if s.tls { "https" } else { "http" };
    ServerState {
        server_name: copy_opt_string(&s.server_name),
        scheme,
        gzip: match s.gzip {
            Some(b) => b,
            None => false,
        },
        gzip_types: copy_strings(&s.gzip_types),
        gzip_min_length: match s.gzip_min_length {
            Some(n) => n,
            None => DEFAULT_GZIP_MIN_LENGTH,
        },
        maps: copy_maps(maps),
        client_max_body_size: match s.client_max_body_size {
            Some(n) => n,
            None => DEFAULT_CLIENT_MAX_BODY_SIZE,
        },
        exact_locs: p.exact,
        regex_locs: p.regex,
        prefix_locs: p.prefix,
    }
}

/// One server block, and the pools after it.
pub open spec fn staged_for(
    s: ServerV,
    maps: Seq<MapDeclV>,
    names: ZoneNamesV,
    files: Seq<UserFileV>,
    pools: PoolsV,
) -> Result<(StagedV, PoolsV), Seq<char>> {
    match s.listen {
        None => Err("a 'server' block is missing its 'listen' directive"@),
        Some(addr) => match locations_for(none_placed(), s.locations, s, names, files, pools) {
            Err(e) => Err(e),
            Ok((p, q)) => match cert_for(s) {
                Err(e) => Err(e),
                Ok(cert) => Ok(
                    (
                        StagedV {
                            addr,
                            vhost: VirtualHostV {
                                server_name: s.server_name,
                                state: state_for(s, maps, p),
                            },
                            cert,
                        },
                        q,
                    ),
                ),
            },
        },
    }
}

fn stage(
    s: &Server,
    maps: &Vec<MapDecl>,
    names: &ZoneNames,
    files: &Vec<UserFile>,
    pools: &mut Pools,
) -> (r: Result<Staged, String>)
    ensures
        match r {
            Ok(st) => staged_for(s@, views(maps@), names@, views(files@), old(pools)@) == Ok::<
                (StagedV, PoolsV),
                Seq<char>,
            >((st@, final(pools)@)),
            Err(e) => staged_for(s@, views(maps@), names@, views(files@), old(pools)@) == Err::<
                (StagedV, PoolsV),
                Seq<char>,
            >(e@),
        },
{
    let addr = match s.listen {
        Some(a) => a,
        None => {
            return Err("a 'server' block is missing its 'listen' directive".to_owned());
        },
    };
    let p = match place_all(s, names, files, pools) {
        Ok(p) => p,
        Err(e) => {
            return Err(e);
        },
    };
    let cert = match build_cert(s) {
        Ok(c) => c,
        Err(e) => {
            return Err(e);
        },
    };
    let state = build_state(s, maps, p);
    Ok(
        Staged {
            addr,
            vhost: VirtualHost { server_name: copy_opt_string(&s.server_name), state },
            cert,
        },
    )
}

/// All server blocks after `done`, and the pools after that. The first error
/// stops it.
pub open spec fn all_staged(
    done: Seq<StagedV>,
    servers: Seq<ServerV>,
    maps: Seq<MapDeclV>,
    names: ZoneNamesV,
    files: Seq<UserFileV>,
    pools: PoolsV,
) -> Result<(Seq<StagedV>, PoolsV), Seq<char>>
    decreases servers.len(),
{
    if servers.len() == 0 {
        Ok((done, pools))
    } else {
        match staged_for(servers[0], maps, names, files, pools) {
            Err(e) => Err(e),
            Ok((st, q)) => all_staged(done.push(st), servers.skip(1), maps, names, files, q),
        }
    }
}

fn stage_all(
    servers: &Vec<Server>,
    maps: &Vec<MapDecl>,
    names: &ZoneNames,
    files: &Vec<UserFile>,
    pools: &mut Pools,
) -> (r: Result<Vec<Staged>, String>)
    ensures
        match r {
            Ok(v) => all_staged(
                seq![],
                views(servers@),
                views(maps@),
                names@,
                views(files@),
                old(pools)@,
            ) == Ok::<(Seq<StagedV>, PoolsV), Seq<char>>((views(v@), final(pools)@)),
            Err(e) => all_staged(
                seq![],
                views(servers@),
                views(maps@),
                names@,
                views(files@),
                old(pools)@,
            ) == Err::<(Seq<StagedV>, PoolsV), Seq<char>>(e@),
        },
{
    let ghost all = views(servers@);
    let ghost start = pools@;
    let mut out: Vec<Staged> = Vec::new();
    let mut i: usize = 0;
    assert(all.skip(0) == all);
    assert(views(out@) =~= seq![]);
    while i < servers.len()
        invariant
            i <= servers@.len(),
            all == views(servers@),
            start == old(pools)@,
            all_staged(
                views(out@),
                all.skip(i as int),
                views(maps@),
                names@,
                views(files@),
                pools@,
            ) == all_staged(seq![], all, views(maps@), names@, views(files@), start),
        decreases servers@.len() - i,
    {
        let ghost rest = all.skip(i as int);
        assert(rest[0] == servers@[i as int]@);
        assert(rest.skip(1) == all.skip(i + 1));
        match stage(&servers[i], maps, names, files, pools) {
            Ok(st) => {
                proof {
                    lemma_views_push(out@, st);
                }
                out.push(st);
            },
            Err(e) => {
                return Err(e);
            },
        }
        i = i + 1;
    }
    Ok(out)
}

// ---------------------------------------------------------------------------
// Grouping by address
// ---------------------------------------------------------------------------

/// The listener on `addr` from `i` on, or the number of listeners.
pub open spec fn listener_on(ls: Seq<ListenerCfgV>, addr: SocketAddr, i: int) -> int
    decreases ls.len() - i,
{
    if i >= ls.len() || i < 0 {
        ls.len() as int
    } else if ls[i].addr == addr {
        i
    } else {
        listener_on(ls, addr, i + 1)
    }
}

/// The certificate of a server block as a list.
pub open spec fn cert_list(c: Option<CertEntryV>) -> Seq<CertEntryV> {
    match c {
        Some(c) => seq![c],
        None => seq![],
    }
}

/// The listeners with one more server block. Plain and TLS blocks on one
/// address are ambiguous and refused.
pub open spec fn grouped_with(ls: Seq<ListenerCfgV>, st: StagedV) -> Result<
    Seq<ListenerCfgV>,
    Seq<char>,
> {
    let i = listener_on(ls, st.addr, 0);
    if i >= ls.len() {
        Ok(
            ls.push(
                ListenerCfgV {
                    addr: st.addr,
                    vhosts: seq![st.vhost],
                    tls_paths: cert_list(st.cert),
                    protocols: seq![],
                    http3: false,
                },
            ),
        )
    } else if (ls[i].tls_paths.len() == 0) != (st.cert is None) {
        Err(
            "listen "@ + socket_string(st.addr)
                + ": cannot mix TLS and plain HTTP server blocks on the same address"@,
        )
    } else {
        Ok(
            ls.update(
                i,
                ListenerCfgV {
                    vhosts: ls[i].vhosts.push(st.vhost),
                    tls_paths: ls[i].tls_paths + cert_list(st.cert),
                    ..ls[i]
                },
            ),
        )
    }
}

/// All server blocks grouped by address, in the order in which the addresses
/// first appear.
pub open spec fn grouped(staged: Seq<StagedV>) -> Result<Seq<ListenerCfgV>, Seq<char>>
    decreases staged.len(),
{
    if staged.len() == 0 {
        Ok(seq![])
    } else {
        match grouped(staged.drop_last()) {
            Err(e) => Err(e),
            Ok(ls) => grouped_with(ls, staged.last()),
        }
    }
}

/// Grouping one more server block.
proof fn lemma_grouped_step(all: Seq<StagedV>, i: int)
    requires
        0 <= i < all.len(),
    ensures
        grouped(all.take(i + 1)) == match grouped(all.take(i)) {
            Err(e) => Err(e),
            Ok(ls) => grouped_with(ls, all[i]),
        },
{
    assert(all.take(i + 1).drop_last() == all.take(i));
    assert(all.take(i + 1).last() == all[i]);
}

proof fn lemma_grouped_error(all: Seq<StagedV>, i: int)
    requires
        0 <= i <= all.len(),
        grouped(all.take(i)) is Err,
    ensures
        grouped(all) == grouped(all.take(i)),
    decreases all.len() - i,
{
    if i < all.len() {
        lemma_grouped_step(all, i);
        lemma_grouped_error(all, i + 1);
    } else {
        assert(all.take(i) == all);
    }
}

fn find_listener(ls: &Vec<ListenerCfg>, addr: SocketAddr) -> (i: usize)
    ensures
        i == listener_on(views(ls@), addr, 0),
        i <= ls@.len(),
{
    let ghost all = views(ls@);
    let mut i: usize = 0;
    while i < ls.len()
        invariant_except_break
            listener_on(all, addr, 0) == listener_on(all, addr, i as int),
        invariant
            i <= ls@.len(),
            all == views(ls@),
        ensures
            i == listener_on(all, addr, 0),
        decreases ls@.len() - i,
    {
        assert(all[i as int] == ls@[i as int]@);
        if ls[i].addr == addr {
            break;
        }
        i = i + 1;
    }
    i
}

fn mixed(addr: SocketAddr) -> (e: String)
    ensures
        e@ == "listen "@ + socket_string(addr)
            + ": cannot mix TLS and plain HTTP server blocks on the same address"@,
{
    let mut e = "listen ".to_owned();
    e.append(format_socket(addr).as_str());
    e.append(": cannot mix TLS and plain HTTP server blocks on the same address");
    e
}

fn group_one(ls: &mut Vec<ListenerCfg>, st: Staged) -> (r: Result<(), String>)
    ensures
        match r {
            Ok(_) => grouped_with(views(old(ls)@), st@) == Ok::<Seq<ListenerCfgV>, Seq<char>>(
                views(final(ls)@),
            ),
            Err(e) => grouped_with(views(old(ls)@), st@) == Err::<Seq<ListenerCfgV>, Seq<char>>(
                e@,
            ),
        },
{
    let i = find_listener(ls, st.addr);
    let ghost before = views(ls@);
    if i >= ls.len() {
        let mut vhosts: Vec<VirtualHost> = Vec::new();
        let mut tls_paths: Vec<CertEntry> = Vec::new();
        let ghost st_v = st@;
        let Staged { addr, vhost, cert } = st;
        vhosts.push(vhost);
        assert(views(vhosts@) =~= seq![st_v.vhost]);
        if let Some(c) = cert {
            tls_paths.push(c);
        }
        assert(views(tls_paths@) =~= cert_list(st_v.cert));
        let l = ListenerCfg { addr, vhosts, tls_paths, protocols: Vec::new(), http3: false };
        assert(l@.protocols =~= seq![]);
        proof {
            lemma_views_push(ls@, l);
        }
        ls.push(l);
        return Ok(());
    }
    assert(before[i as int] == ls@[i as int]@);
    if (ls[i].tls_paths.len() == 0) != st.cert.is_none() {
        return Err(mixed(st.addr));
    }
    join_listener(ls, i, st);
    Ok(())
}

fn join_listener(ls: &mut Vec<ListenerCfg>, i: usize, st: Staged)
    requires
        i < old(ls)@.len(),
    ensures
        views(final(ls)@) == views(old(ls)@).update(
            i as int,
            ListenerCfgV {
                vhosts: views(old(ls)@)[i as int].vhosts.push(st@.vhost),
                tls_paths: views(old(ls)@)[i as int].tls_paths + cert_list(st@.cert),
                ..views(old(ls)@)[i as int]
            },
        ),
{
    let ghost before = ls@;
    let ghost st_v = st@;
    let Staged { addr, vhost, cert } = st;
    proof {
        lemma_views_push(ls@[i as int].vhosts@, vhost);
    }
    ls[i].vhosts.push(vhost);
    if let Some(c) = cert {
        proof {
            lemma_views_push(ls@[i as int].tls_paths@, c);
        }
        ls[i].tls_paths.push(c);
    }
    proof {
        let old_v = views(before)[i as int];
        assert(old_v == before[i as int]@);
        let new_v = ls@[i as int]@;
        assert(new_v.vhosts == old_v.vhosts.push(st_v.vhost));
        assert(new_v.tls_paths =~= old_v.tls_paths + cert_list(st_v.cert));
        assert(views(ls@) =~= views(before).update(i as int, new_v));
    }
}

fn group(staged: Vec<Staged>) -> (r: Result<Vec<ListenerCfg>, String>)
    ensures
        match r {
            Ok(v) => grouped(views(staged@)) == Ok::<Seq<ListenerCfgV>, Seq<char>>(views(v@)),
            Err(e) => grouped(views(staged@)) == Err::<Seq<ListenerCfgV>, Seq<char>>(e@),
        },
{
    let mut rest = staged;
    let ghost all = views(staged@);
    let ghost mut i: int = 0;
    let mut ls: Vec<ListenerCfg> = Vec::new();
    assert(all.take(0) =~= seq![]);
    assert(views(ls@) =~= seq![]);
    assert(rest@ == staged@.skip(0));
    while rest.len() > 0
        invariant
            0 <= i <= all.len(),
            all == views(staged@),
            rest@ == staged@.skip(i),
            grouped(all.take(i)) == Ok::<Seq<ListenerCfgV>, Seq<char>>(views(ls@)),
        decreases rest@.len(),
    {
        proof {
            lemma_grouped_step(all, i);
        }
        let st = rest.remove(0);
        assert(all[i] == st@);
        assert(rest@ =~= staged@.skip(i + 1));
        match group_one(&mut ls, st) {
            Ok(_) => {},
            Err(e) => {
                proof {
                    lemma_grouped_error(all, i + 1);
                }
                return Err(e);
            },
        }
        proof {
            i = i + 1;
        }
    }
    assert(all.take(i) == all);
    Ok(ls)
}

// ---------------------------------------------------------------------------
// TLS versions
// ---------------------------------------------------------------------------

/// Whether a server block limits the TLS versions on `addr`.
pub open spec fn limits_tls(s: ServerV, addr: SocketAddr) -> bool {
    s.listen == Some(addr) && s.tls && s.ssl_protocols.len() > 0
}

/// Whether every block that limits the TLS versions on `addr` lists `v`.
pub open spec fn version_allowed(servers: Seq<ServerV>, addr: SocketAddr, v: TlsVersion) -> bool {
    forall|i: int|
        0 <= i < servers.len() && limits_tls(#[trigger] servers[i], addr)
            ==> servers[i].ssl_protocols.contains(v)
}

/// Whether the blocks that limit the TLS versions on `addr` have none in common.
pub open spec fn versions_clash(servers: Seq<ServerV>, addr: SocketAddr) -> bool {
    &&& exists|i: int| 0 <= i < servers.len() && limits_tls(#[trigger] servers[i], addr)
    &&& !version_allowed(servers, addr, TlsVersion::Tls12)
    &&& !version_allowed(servers, addr, TlsVersion::Tls13)
}

/// The strictest set of TLS versions on `addr`: those that every block that
/// names any allows. Empty, for the defaults, when no block names any.
pub open spec fn protocols_on(servers: Seq<ServerV>, addr: SocketAddr) -> Seq<TlsVersion> {
    if forall|i: int| 0 <= i < servers.len() ==> !limits_tls(#[trigger] servers[i], addr) {
        seq![]
    } else {
        (if version_allowed(servers, addr, TlsVersion::Tls12) {
            seq![TlsVersion::Tls12]
        } else {
            seq![]
        }) + (if version_allowed(servers, addr, TlsVersion::Tls13) {
            seq![TlsVersion::Tls13]
        } else {
            seq![]
        })
    }
}

/// Whether a block on `addr` asks for HTTP/3.
pub open spec fn http3_on(servers: Seq<ServerV>, addr: SocketAddr) -> bool {
    exists|i: int|
        0 <= i < servers.len() && (#[trigger] servers[i]).listen == Some(addr) && servers[i].http3
}

/// A listener with its TLS settings. A plain one has none.
pub open spec fn finished(l: ListenerCfgV, servers: Seq<ServerV>) -> ListenerCfgV {
    if l.tls_paths.len() == 0 {
        l
    } else {
        ListenerCfgV {
            protocols: protocols_on(servers, l.addr),
            http3: http3_on(servers, l.addr),
            ..l
        }
    }
}

fn lists_version(v: &Vec<TlsVersion>, t: TlsVersion) -> (r: bool)
    ensures
        r == views(v@).contains(t),
{
    let mut i: usize = 0;
    while i < v.len()
        invariant
            i <= v@.len(),
            forall|k: int| 0 <= k < i ==> #[trigger] views(v@)[k] != t,
        decreases v@.len() - i,
    {
        assert(views(v@)[i as int] == v@[i as int]);
        if v[i] == t {
            return true;
        }
        i = i + 1;
    }
    false
}

/// The TLS settings of a listener.
struct TlsSettings {
    protocols: Vec<TlsVersion>,
    http3: bool,
    clash: bool,
}

fn tls_settings(servers: &Vec<Server>, addr: SocketAddr) -> (r: TlsSettings)
    ensures
        views(r.protocols@) == protocols_on(views(servers@), addr),
        r.http3 == http3_on(views(servers@), addr),
        r.clash == versions_clash(views(servers@), addr),
{
    let ghost all = views(servers@);
    let mut limited = false;
    let mut tls12 = true;
    let mut tls13 = true;
    let mut http3 = false;
    let mut i: usize = 0;
    while i < servers.len()
        invariant
            i <= servers@.len(),
            all == views(servers@),
            limited == exists|k: int| 0 <= k < i && limits_tls(#[trigger] all[k], addr),
            tls12 == forall|k: int|
                0 <= k < i && limits_tls(#[trigger] all[k], addr)
                    ==> all[k].ssl_protocols.contains(TlsVersion::Tls12),
            tls13 == forall|k: int|
                0 <= k < i && limits_tls(#[trigger] all[k], addr)
                    ==> all[k].ssl_protocols.contains(TlsVersion::Tls13),
            http3 == exists|k: int|
                0 <= k < i && (#[trigger] all[k]).listen == Some(addr) && all[k].http3,
        decreases servers@.len() - i,
    {
        let s = &servers[i];
        assert(all[i as int] == s@);
        let here = match s.listen {
            Some(a) => a == addr,
            None => false,
        };
        if here && s.http3 {
            http3 = true;
        }
        if here && s.tls && s.ssl_protocols.len() > 0 {
            assert(limits_tls(all[i as int], addr));
            limited = true;
            if !lists_version(&s.ssl_protocols, TlsVersion::Tls12) {
                tls12 = false;
            }
            if !lists_version(&s.ssl_protocols, TlsVersion::Tls13) {
                tls13 = false;
            }
        }
        i = i + 1;
    }
    let mut r: Vec<TlsVersion> = Vec::new();
    if limited {
        if tls12 {
            r.push(TlsVersion::Tls12);
        }
        if tls13 {
            r.push(TlsVersion::Tls13);
        }
    }
    assert(views(r@) =~= protocols_on(all, addr));
    TlsSettings { protocols: r, http3, clash: limited && !tls12 && !tls13 }
}

/// The address of the first TLS listener from `i` on whose blocks allow no TLS
/// version in common.
pub open spec fn first_clash(ls: Seq<ListenerCfgV>, servers: Seq<ServerV>, i: int) -> Option<
    SocketAddr,
>
    decreases ls.len() - i,
{
    if i >= ls.len() || i < 0 {
        None
    } else if ls[i].tls_paths.len() > 0 && versions_clash(servers, ls[i].addr) {
        Some(ls[i].addr)
    } else {
        first_clash(ls, servers, i + 1)
    }
}

/// What is said of such an address.
pub open spec fn clash_message(addr: SocketAddr) -> Seq<char> {
    "the server blocks on "@ + socket_string(addr)
        + " have no 'ssl_protocols' version in common"@
}

/// All listeners of the server blocks, and the pools after that.
pub open spec fn listeners_for(
    servers: Seq<ServerV>,
    maps: Seq<MapDeclV>,
    names: ZoneNamesV,
    files: Seq<UserFileV>,
    pools: PoolsV,
) -> Result<(Seq<ListenerCfgV>, PoolsV), Seq<char>> {
    match all_staged(seq![], servers, maps, names, files, pools) {
        Err(e) => Err(e),
        Ok((staged, q)) => match grouped(staged) {
            Err(e) => Err(e),
            Ok(ls) => match first_clash(ls, servers, 0) {
                Some(addr) => Err(clash_message(addr)),
                None => Ok((ls.map_values(|l: ListenerCfgV| finished(l, servers)), q)),
            },
        },
    }
}

/// Give every listener its TLS settings. Returns the address of the first one
/// that can have none.
fn finish_all(ls: &mut Vec<ListenerCfg>, servers: &Vec<Server>) -> (r: Option<SocketAddr>)
    ensures
        r == first_clash(views(old(ls)@), views(servers@), 0),
        r is None ==> views(final(ls)@) == views(old(ls)@).map_values(
            |l: ListenerCfgV| finished(l, views(servers@)),
        ),
{
    let ghost before = ls@;
    let mut i: usize = 0;
    while i < ls.len()
        invariant
            i <= ls@.len(),
            ls@.len() == before.len(),
            before == old(ls)@,
            first_clash(views(before), views(servers@), i as int) == first_clash(
                views(before),
                views(servers@),
                0,
            ),
            forall|k: int| i <= k < ls@.len() ==> (#[trigger] ls@[k]) == before[k],
            forall|k: int|
                0 <= k < i ==> (#[trigger] ls@[k])@ == finished(before[k]@, views(servers@)),
        decreases ls@.len() - i,
    {
        assert(views(before)[i as int] == ls@[i as int]@);
        assert(ls@[i as int]@.tls_paths.len() == ls@[i as int].tls_paths@.len());
        if ls[i].tls_paths.len() > 0 {
            let settings = tls_settings(servers, ls[i].addr);
            if settings.clash {
                return Some(ls[i].addr);
            }
            ls[i].protocols = settings.protocols;
            ls[i].http3 = settings.http3;
        }
        i = i + 1;
    }
    assert(views(ls@) =~= views(before).map_values(
        |l: ListenerCfgV| finished(l, views(servers@)),
    ));
    None
}

pub(crate) fn build_listeners(
    servers: &Vec<Server>,
    maps: &Vec<MapDecl>,
    names: &ZoneNames,
    files: &Vec<UserFile>,
    pools: &mut Pools,
) -> (r: Result<Vec<ListenerCfg>, String>)
    ensures
        match r {
            Ok(v) => listeners_for(
                views(servers@),
                views(maps@),
                names@,
                views(files@),
                old(pools)@,
            ) == Ok::<(Seq<ListenerCfgV>, PoolsV), Seq<char>>((views(v@), final(pools)@)),
            Err(e) => listeners_for(
                views(servers@),
                views(maps@),
                names@,
                views(files@),
                old(pools)@,
            ) == Err::<(Seq<ListenerCfgV>, PoolsV), Seq<char>>(e@),
        },
{
    let staged = match stage_all(servers, maps, names, files, pools) {
        Ok(s) => s,
        Err(e) => {
            return Err(e);
        },
    };
    let mut ls = match group(staged) {
        Ok(ls) => ls,
        Err(e) => {
            return Err(e);
        },
    };
    match finish_all(&mut ls, servers) {
        Some(addr) => {
            let mut e = "the server blocks on ".to_owned();
            e.append(format_socket(addr).as_str());
            e.append(" have no 'ssl_protocols' version in common");
            Err(e)
        },
        None => Ok(ls),
    }
}

/// Where blocks on one address limit the TLS versions and do not clash, some
/// version is left, and each that is left is one that every such block allows.
pub proof fn law_strictest_versions_win(servers: Seq<ServerV>, addr: SocketAddr, i: int)
    requires
        0 <= i < servers.len(),
        limits_tls(servers[i], addr),
        !versions_clash(servers, addr),
    ensures
        protocols_on(servers, addr).len() > 0,
        forall|k: int|
            0 <= k < protocols_on(servers, addr).len() ==> servers[i].ssl_protocols.contains(
                #[trigger] protocols_on(servers, addr)[k],
            ),
{
}

} // verus!
