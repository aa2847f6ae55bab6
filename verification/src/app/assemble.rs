//! Lowers a validated configuration into the state that requests are served
//! from.

use super::actions::{StaticKind, StaticKindV, TryFilesEntryRt, TryFilesEntryRtV};
use super::balance::{Balancer, BalancerV, fresh_peer, Peer};
use super::runtime::{
    ActionRt, ActionRtV, direct_balancer, find_last, last_value, LocationRt, LocationRtV,
    new_direct, Pools, PoolsV, ProxyCache, ProxyCacheV, ProxyTarget, ProxyTargetV, scheme_split,
    split_scheme,
};
use crate::access::{AccessAction, AccessRule, AccessTarget, parse_target, target_of};
use crate::auth::{AuthBasic, AuthBasicV, loaded};
use crate::config::ast::{
    Action, ActionV, HealthCheckCfg, Location, LocationV, MapDecl, MapPattern, MapRule, Server,
    ServerV, TryFilesEntry, TryFilesEntryV, Upstream, UpstreamV,
};
use crate::headers::{is_header_name, valid_name};
use crate::limit::{LimitConnApply, LimitReqApply};
use crate::template::{SegmentV, Template, template_of};
use crate::text::{
    has_char, lemma_views_push, lower, opt_view, result_view, same, to_lower, trim_end_char, views,
    without_trailing,
};
use crate::time::Duration;
use vstd::prelude::*;
use vstd::string::*;

verus! {

// ---------------------------------------------------------------------------
// Copies
// ---------------------------------------------------------------------------

pub(crate) fn copy_templates(v: &Vec<Template>) -> (r: Vec<Template>)
    ensures
        views(r@) == views(v@),
{
    let mut r: Vec<Template> = Vec::new();
    let mut i: usize = 0;
    while i < v.len()
        invariant
            i <= v@.len(),
            r@.len() == i,
            forall|k: int| 0 <= k < i ==> (#[trigger] r@[k])@ == v@[k]@,
        decreases v@.len() - i,
    {
        r.push(v[i].copy());
        i = i + 1;
    }
    assert(views(r@) =~= views(v@));
    r
}

pub(crate) fn copy_opt_string(v: &Option<String>) -> (r: Option<String>)
    ensures
        opt_view(r) == opt_view(*v),
{
    match v {
        Some(s) => Some(s.clone()),
        None => None,
    }
}

pub(crate) fn copy_opt_template(v: &Option<Template>) -> (r: Option<Template>)
    ensures
        opt_view(r) == opt_view(*v),
{
    match v {
        Some(t) => Some(t.copy()),
        None => None,
    }
}

fn copy_codes(v: &Vec<u16>) -> (r: Vec<u16>)
    ensures
        r@ == v@,
{
    let mut r: Vec<u16> = Vec::new();
    let mut i: usize = 0;
    while i < v.len()
        invariant
            i <= v@.len(),
            r@ == v@.take(i as int),
        decreases v@.len() - i,
    {
        r.push(v[i]);
        i = i + 1;
    }
    assert(v@.take(i as int) == v@);
    r
}

fn copy_valid(v: &Vec<(Vec<u16>, Duration)>) -> (r: Vec<(Vec<u16>, Duration)>)
    ensures
        views(r@) == views(v@),
{
    let mut r: Vec<(Vec<u16>, Duration)> = Vec::new();
    let mut i: usize = 0;
    while i < v.len()
        invariant
            i <= v@.len(),
            r@.len() == i,
            forall|k: int| 0 <= k < i ==> (#[trigger] r@[k])@ == v@[k]@,
        decreases v@.len() - i,
    {
        r.push((copy_codes(&v[i].0), v[i].1));
        i = i + 1;
    }
    assert(views(r@) =~= views(v@));
    r
}

fn copy_rules(v: &Vec<MapRule>) -> (r: Vec<MapRule>)
    ensures
        views(r@) == views(v@),
{
    let mut r: Vec<MapRule> = Vec::new();
    let mut i: usize = 0;
    while i < v.len()
        invariant
            i <= v@.len(),
            r@.len() == i,
            forall|k: int| 0 <= k < i ==> (#[trigger] r@[k])@ == v@[k]@,
        decreases v@.len() - i,
    {
        let pattern = match &v[i].pattern {
            MapPattern::Literal(s) => MapPattern::Literal(s.clone()),
            MapPattern::Default => MapPattern::Default,
        };
        r.push(MapRule { pattern, value: v[i].value.copy() });
        i = i + 1;
    }
    assert(views(r@) =~= views(v@));
    r
}

pub(crate) fn copy_maps(v: &Vec<MapDecl>) -> (r: Vec<MapDecl>)
    ensures
        views(r@) == views(v@),
{
    let mut r: Vec<MapDecl> = Vec::new();
    let mut i: usize = 0;
    while i < v.len()
        invariant
            i <= v@.len(),
            r@.len() == i,
            forall|k: int| 0 <= k < i ==> (#[trigger] r@[k])@ == v@[k]@,
        decreases v@.len() - i,
    {
        r.push(
            MapDecl {
                source: v[i].source.copy(),
                output_name: v[i].output_name.clone(),
                rules: copy_rules(&v[i].rules),
            },
        );
        i = i + 1;
    }
    assert(views(r@) =~= views(v@));
    r
}

pub(crate) fn copy_health_check(h: &HealthCheckCfg) -> (r: HealthCheckCfg)
    ensures
        r@ == h@,
{
    HealthCheckCfg {
        uri: h.uri.clone(),
        interval: h.interval,
        timeout: h.timeout,
        fails: h.fails,
        passes: h.passes,
        expected_status: h.expected_status,
    }
}

// ---------------------------------------------------------------------------
// Header lists
// ---------------------------------------------------------------------------

/// Headers with their names checked and in lower case. The first bad name is
/// refused.
pub open spec fn compiled(items: Seq<(Seq<char>, Seq<SegmentV>)>) -> Result<
    Seq<(Seq<char>, Seq<SegmentV>)>,
    Seq<char>,
>
    decreases items.len(),
{
    if items.len() == 0 {
        Ok(seq![])
    } else if !is_header_name(items[0].0) {
        Err("invalid header name '"@ + items[0].0 + "': invalid HTTP header name"@)
    } else {
        match compiled(items.skip(1)) {
            Ok(rest) => Ok(seq![(lower(items[0].0), items[0].1)] + rest),
            Err(e) => Err(e),
        }
    }
}

/// The models of a list of headers, or the error.
pub open spec fn list_view<T: View>(r: Result<Vec<T>, String>) -> Result<Seq<T::V>, Seq<char>> {
    match r {
        Ok(v) => Ok(views(v@)),
        Err(e) => Err(e@),
    }
}

/// What checking a list yields when `done` comes before it.
pub open spec fn after_done<T>(done: Seq<T>, rest: Result<Seq<T>, Seq<char>>) -> Result<
    Seq<T>,
    Seq<char>,
> {
    match rest {
        Ok(r) => Ok(done + r),
        Err(e) => Err(e),
    }
}

/// Check the names of a list of headers.
pub fn compile_headers(items: &Vec<(String, Template)>) -> (r: Result<
    Vec<(String, Template)>,
    String,
>)
    ensures
        list_view(r) == compiled(views(items@)),
{
    let ghost all = views(items@);
    let mut out: Vec<(String, Template)> = Vec::new();
    let mut i: usize = 0;
    assert(all.skip(0) == all);
    assert(after_done(views(out@), compiled(all)) == compiled(all)) by {
        match compiled(all) {
            Ok(r) => {
                assert(views(out@) + r =~= r);
            },
            Err(e) => {},
        }
    }
    while i < items.len()
        invariant
            i <= items@.len(),
            all == views(items@),
            after_done(views(out@), compiled(all.skip(i as int))) == compiled(all),
        decreases items@.len() - i,
    {
        let ghost rest = all.skip(i as int);
        assert(rest[0] == items@[i as int]@);
        assert(rest.skip(1) == all.skip(i + 1));
        let name = items[i].0.as_str();
        if !valid_name(name) {
            let mut e = "invalid header name '".to_owned();
            e.append(name);
            e.append("': invalid HTTP header name");
            return Err(e);
        }
        let item = (to_lower(name), items[i].1.copy());
        let ghost before = views(out@);
        proof {
            lemma_views_push(out@, item);
            match compiled(all.skip(i + 1)) {
                Ok(r) => {
                    assert(before + (seq![item@] + r) =~= before.push(item@) + r);
                },
                Err(e) => {},
            }
        }
        out.push(item);
        i = i + 1;
    }
    assert(views(out@) + Seq::<(Seq<char>, Seq<SegmentV>)>::empty() =~= views(out@));
    Ok(out)
}

/// The headers of the server, then those of the location.
fn merged(server: &Vec<(String, Template)>, own: &Vec<(String, Template)>) -> (r: Vec<
    (String, Template),
>)
    ensures
        views(r@) == views(server@) + views(own@),
{
    let mut r: Vec<(String, Template)> = Vec::new();
    let mut i: usize = 0;
    while i < server.len()
        invariant
            i <= server@.len(),
            r@.len() == i,
            forall|k: int| 0 <= k < i ==> (#[trigger] r@[k])@ == server@[k]@,
        decreases server@.len() - i,
    {
        r.push((server[i].0.clone(), server[i].1.copy()));
        i = i + 1;
    }
    let mut j: usize = 0;
    while j < own.len()
        invariant
            j <= own@.len(),
            r@.len() == server@.len() + j,
            forall|k: int| 0 <= k < server@.len() ==> (#[trigger] r@[k])@ == server@[k]@,
            forall|k: int|
                server@.len() <= k < r@.len() ==> (#[trigger] r@[k])@ == own@[k - server@.len()]@,
        decreases own@.len() - j,
    {
        r.push((own[j].0.clone(), own[j].1.copy()));
        j = j + 1;
    }
    assert(views(r@) =~= views(server@) + views(own@));
    r
}

// ---------------------------------------------------------------------------
// Access rules
// ---------------------------------------------------------------------------

/// The rule for one `allow` or `deny`.
pub open spec fn rule_for(is_allow: bool, target: AccessTarget) -> AccessRule {
    AccessRule {
        action: if is_allow {
            AccessAction::Allow
        } else {
            AccessAction::Deny
        },
        target,
    }
}

/// The rules of a location. The first bad target is refused.
pub open spec fn rules_of(items: Seq<(bool, Seq<char>)>, path: Seq<char>) -> Result<
    Seq<AccessRule>,
    Seq<char>,
>
    decreases items.len(),
{
    if items.len() == 0 {
        Ok(seq![])
    } else {
        match target_of(items[0].1) {
            Err(e) => Err("location '"@ + path + "': "@ + e),
            Ok(t) => match rules_of(items.skip(1), path) {
                Ok(rest) => Ok(seq![rule_for(items[0].0, t)] + rest),
                Err(e) => Err(e),
            },
        }
    }
}

fn build_rules(items: &Vec<(bool, String)>, path: &str) -> (r: Result<Vec<AccessRule>, String>)
    ensures
        list_view(r) == rules_of(views(items@), path@),
{
    let ghost all = views(items@);
    let mut out: Vec<AccessRule> = Vec::new();
    let mut i: usize = 0;
    assert(all.skip(0) == all);
    assert(after_done(views(out@), rules_of(all, path@)) == rules_of(all, path@)) by {
        match rules_of(all, path@) {
            Ok(r) => {
                assert(views(out@) + r =~= r);
            },
            Err(e) => {},
        }
    }
    while i < items.len()
        invariant
            i <= items@.len(),
            all == views(items@),
            after_done(views(out@), rules_of(all.skip(i as int), path@)) == rules_of(all, path@),
        decreases items@.len() - i,
    {
        let ghost rest = all.skip(i as int);
        assert(rest[0] == items@[i as int]@);
        assert(rest.skip(1) == all.skip(i + 1));
        match parse_target(items[i].1.as_str()) {
            Err(e) => {
                let mut m = "location '".to_owned();
                m.append(path);
                m.append("': ");
                m.append(e.as_str());
                return Err(m);
            },
            Ok(t) => {
                let item = if items[i].0 { AccessRule::allow(t) } else { AccessRule::deny(t) };
                let ghost before = views(out@);
                proof {
                    lemma_views_push(out@, item);
                    match rules_of(all.skip(i + 1), path@) {
                        Ok(r) => {
                            assert(before + (seq![item@] + r) =~= before.push(item@) + r);
                        },
                        Err(e) => {},
                    }
                }
                out.push(item);
            },
        }
        i = i + 1;
    }
    assert(views(out@) + Seq::<AccessRule>::empty() =~= views(out@));
    Ok(out)
}

// ---------------------------------------------------------------------------
// Upstreams
// ---------------------------------------------------------------------------

/// The balancer of a named upstream: all peers idle and healthy.
pub open spec fn balancer_of(u: UpstreamV) -> BalancerV {
    BalancerV {
        name: u.name,
        method: u.method,
        peers: u.servers.map_values(|s| fresh_peer(s)),
        scheme: "http"@,
        rr_counter: 0,
    }
}

pub(crate) fn build_balancer(u: &Upstream) -> (b: Balancer)
    ensures
        b@ == balancer_of(u@),
{
    let mut peers: Vec<Peer> = Vec::new();
    let mut i: usize = 0;
    while i < u.servers.len()
        invariant
            i <= u.servers@.len(),
            peers@.len() == i,
            forall|k: int| 0 <= k < i ==> (#[trigger] peers@[k])@ == fresh_peer(u.servers@[k]@),
        decreases u.servers@.len() - i,
    {
        peers.push(Peer::new(&u.servers[i]));
        i = i + 1;
    }
    assert(views(peers@) =~= u@.servers.map_values(|s| fresh_peer(s)));
    Balancer { name: u.name.clone(), method: u.method, peers, scheme: "http", rr_counter: 0 }
}

/// The balancer that a fixed target stands for, and the balancers after it has
/// been found: a named upstream, or a new one for a direct address.
pub open spec fn resolved_proxy(
    target: Seq<char>,
    named: Seq<(Seq<char>, usize)>,
    balancers: Seq<BalancerV>,
) -> (usize, Seq<BalancerV>) {
    let (scheme, rest) = scheme_split(target);
    let host = without_trailing(rest, '/');
    match last_value(named, host) {
        Some(b) => (b, balancers),
        None => (balancers.len() as usize, balancers.push(direct_balancer(host, scheme))),
    }
}

/// `proxy_pass <target>` — look up `target` as an upstream name, or treat it
/// as a single direct address. Single-address peers get sensible health
/// defaults (one failure tolerated, 10-second cooldown).
///
/// Recognized schemes:
///   - `http://NAME`        — named upstream over plain HTTP.
///   - `http://HOST:PORT`   — direct address, plain HTTP.
///   - `https://HOST:PORT`  — direct address, HTTPS (TLS to the upstream).
pub(crate) fn resolve_proxy(
    target: &str,
    named: &Vec<(String, usize)>,
    balancers: &mut Vec<Balancer>,
) -> (b: usize)
    ensures
        (b, views(final(balancers)@)) == resolved_proxy(
            target@,
            views(named@),
            views(old(balancers)@),
        ),
{
    let (scheme, rest) = split_scheme(target);
    let host = trim_end_char(rest, '/');
    match find_last(named, host) {
        Some(b) => b,
        None => {
            let b: usize = balancers.len();
            let fresh = new_direct(host, scheme);
            proof {
                lemma_views_push(balancers@, fresh);
            }
            balancers.push(fresh);
            b
        },
    }
}

// ---------------------------------------------------------------------------
// Locations
// ---------------------------------------------------------------------------

/// The text of a credentials file, as far as it could be read.
#[derive(Debug)]
pub struct UserFile {
    pub path: String,
    pub text: Result<String, String>,
}

/// Model of a [`UserFile`].
pub struct UserFileV {
    pub path: Seq<char>,
    pub text: Result<Seq<char>, Seq<char>>,
}

impl View for UserFile {
    type V = UserFileV;

    open spec fn view(&self) -> UserFileV {
        UserFileV { path: self.path@, text: result_view(self.text) }
    }
}

/// What came of reading the file at `path`.
pub open spec fn file_text(files: Seq<UserFileV>, path: Seq<char>) -> Result<Seq<char>, Seq<char>>
    decreases files.len(),
{
    if files.len() == 0 {
        Err("file was not read"@)
    } else if files.last().path == path {
        files.last().text
    } else {
        file_text(files.drop_last(), path)
    }
}

/// Credentials from the file at `path`.
pub open spec fn auth_from(files: Seq<UserFileV>, path: Seq<char>, realm: Seq<char>) -> Result<
    AuthBasicV,
    Seq<char>,
> {
    match file_text(files, path) {
        Ok(text) => loaded(text, path, realm),
        Err(e) => Err("cannot read auth_basic_user_file '"@ + path + "': "@ + e),
    }
}

fn load_auth(files: &Vec<UserFile>, path: &str, realm: &str) -> (r: Result<AuthBasic, String>)
    ensures
        result_view(r) == auth_from(views(files@), path@, realm@),
{
    let ghost all = views(files@);
    let mut n: usize = files.len();
    assert(all.take(n as int) == all);
    while n > 0
        invariant
            n <= files@.len(),
            all == views(files@),
            file_text(all.take(n as int), path@) == file_text(all, path@),
        decreases n,
    {
        let ghost now = all.take(n as int);
        assert(now.last() == files@[n - 1]@);
        assert(now.drop_last() == all.take(n - 1));
        if same(files[n - 1].path.as_str(), path) {
            return match &files[n - 1].text {
                Ok(text) => AuthBasic::from_text(text.as_str(), path, realm.to_owned()),
                Err(e) => Err(unreadable(path, e.as_str())),
            };
        }
        n = n - 1;
    }
    Err(unreadable(path, "file was not read"))
}

fn unreadable(path: &str, e: &str) -> (m: String)
    ensures
        m@ == "cannot read auth_basic_user_file '"@ + path@ + "': "@ + e@,
{
    let mut m = "cannot read auth_basic_user_file '".to_owned();
    m.append(path);
    m.append("': ");
    m.append(e);
    m
}

/// Where zones are found by name. The last entry for a name counts.
#[derive(Debug)]
pub struct ZoneNames {
    pub caches: Vec<(String, usize)>,
    pub limit_req: Vec<(String, usize)>,
    pub limit_conn: Vec<(String, usize)>,
}

/// Model of [`ZoneNames`].
pub struct ZoneNamesV {
    pub caches: Seq<(Seq<char>, usize)>,
    pub limit_req: Seq<(Seq<char>, usize)>,
    pub limit_conn: Seq<(Seq<char>, usize)>,
}

impl View for ZoneNames {
    type V = ZoneNamesV;

    open spec fn view(&self) -> ZoneNamesV {
        ZoneNamesV {
            caches: views(self.caches@),
            limit_req: views(self.limit_req@),
            limit_conn: views(self.limit_conn@),
        }
    }
}

/// The cache of a location that proxies.
pub open spec fn cache_of(loc: LocationV, caches: Seq<(Seq<char>, usize)>) -> Result<
    Option<ProxyCacheV>,
    Seq<char>,
> {
    match loc.proxy_cache {
        None => Ok(None),
        Some(zone) => match last_value(caches, zone) {
            None => Err(
                "location uses proxy_cache '"@ + zone
                    + "' but no proxy_cache_path declares that zone"@,
            ),
            Some(store) => Ok(
                Some(
                    ProxyCacheV {
                        store,
                        key_template: match loc.proxy_cache_key {
                            Some(t) => t,
                            None => template_of("$scheme$host$request_uri"@),
                        },
                        valid_rules: loc.proxy_cache_valid,
                    },
                ),
            ),
        },
    }
}

fn build_cache(loc: &Location, caches: &Vec<(String, usize)>) -> (r: Result<
    Option<ProxyCache>,
    String,
>)
    ensures
        match r {
            Ok(c) => cache_of(loc@, views(caches@)) == Ok::<Option<ProxyCacheV>, Seq<char>>(
                opt_view(c),
            ),
            Err(e) => cache_of(loc@, views(caches@)) == Err::<Option<ProxyCacheV>, Seq<char>>(e@),
        },
{
    match &loc.proxy_cache {
        None => Ok(None),
        Some(zone) => match find_last(caches, zone.as_str()) {
            None => {
                let mut e = "location uses proxy_cache '".to_owned();
                e.append(zone.as_str());
                e.append("' but no proxy_cache_path declares that zone");
                Err(e)
            },
            Some(store) => Ok(
                Some(
                    ProxyCache {
                        store,
                        key_template: match &loc.proxy_cache_key {
                            Some(t) => t.copy(),
                            None => Template::parse("$scheme$host$request_uri"),
                        },
                        valid_rules: copy_valid(&loc.proxy_cache_valid),
                    },
                ),
            ),
        },
    }
}

/// The target of a `proxy_pass`, and the pools after it has been resolved. A
/// target with a variable in it is resolved per request.
pub open spec fn target_for(target: Seq<char>, p: PoolsV) -> (ProxyTargetV, PoolsV) {
    if target.contains('$') {
        (
            ProxyTargetV::Dynamic {
                template: template_of(target),
                memo: p.ephemeral.len() as usize,
            },
            PoolsV { ephemeral: p.ephemeral.push(seq![]), ..p },
        )
    } else {
        let (b, balancers) = resolved_proxy(target, p.named, p.balancers);
        (ProxyTargetV::Fixed(b), PoolsV { balancers, ..p })
    }
}

fn build_target(target: &str, pools: &mut Pools) -> (r: ProxyTarget)
    ensures
        (r@, final(pools)@) == target_for(target@, old(pools)@),
{
    if has_char(target, '$') {
        let memo: usize = pools.ephemeral.len();
        let ghost before = pools@.ephemeral;
        let fresh: Vec<(String, usize)> = Vec::new();
        pools.ephemeral.push(fresh);
        assert(views(fresh@) =~= seq![]);
        assert(pools@.ephemeral =~= before.push(seq![]));
        ProxyTarget::Dynamic { template: Template::parse(target), memo }
    } else {
        ProxyTarget::Fixed(resolve_proxy(target, &pools.named, &mut pools.balancers))
    }
}

/// What an entry of `try_files` becomes.
pub open spec fn entry_rt(e: TryFilesEntryV) -> TryFilesEntryRtV {
    match e {
        TryFilesEntryV::Path(t) => TryFilesEntryRtV::Path(t),
        TryFilesEntryV::Status(n) => TryFilesEntryRtV::Status(n),
    }
}

fn build_entries(v: &Vec<TryFilesEntry>) -> (r: Vec<TryFilesEntryRt>)
    ensures
        views(r@) == views(v@).map_values(|e: TryFilesEntryV| entry_rt(e)),
{
    let mut r: Vec<TryFilesEntryRt> = Vec::new();
    let mut i: usize = 0;
    while i < v.len()
        invariant
            i <= v@.len(),
            r@.len() == i,
            forall|k: int| 0 <= k < i ==> (#[trigger] r@[k])@ == entry_rt(v@[k]@),
        decreases v@.len() - i,
    {
        r.push(
            match &v[i] {
                TryFilesEntry::Path(t) => TryFilesEntryRt::Path(t.copy()),
                TryFilesEntry::Status(n) => TryFilesEntryRt::Status(*n),
            },
        );
        i = i + 1;
    }
    assert(views(r@) =~= views(v@).map_values(|e: TryFilesEntryV| entry_rt(e)));
    r
}

/// What a location does, and the pools after its target has been resolved.
pub open spec fn action_for(loc: LocationV, names: ZoneNamesV, p: PoolsV) -> Result<
    (ActionRtV, PoolsV),
    Seq<char>,
> {
    match loc.action {
        ActionV::Return { status, body } => Ok((ActionRtV::Return { status, body }, p)),
        ActionV::Root { dir } => Ok(
            (ActionRtV::Static { root: dir, kind: StaticKindV::Root }, p),
        ),
        ActionV::Alias { dir } => Ok(
            (
                ActionRtV::Static { root: dir, kind: StaticKindV::Alias { prefix: loc.path } },
                p,
            ),
        ),
        ActionV::ProxyPass { target } => match cache_of(loc, names.caches) {
            Err(e) => Err(e),
            Ok(cache) => match compiled(loc.set_headers) {
                Err(e) => Err(e),
                Ok(set_headers) => {
                    let (target, q) = target_for(target, p);
                    Ok((ActionRtV::Proxy { target, set_headers, cache }, q))
                },
            },
        },
        ActionV::Metrics => Ok((ActionRtV::Metrics, p)),
        ActionV::TryFiles { root, entries } => Ok(
            (
                ActionRtV::TryFiles {
                    root,
                    entries: entries.map_values(|e: TryFilesEntryV| entry_rt(e)),
                },
                p,
            ),
        ),
    }
}

fn build_action(loc: &Location, names: &ZoneNames, pools: &mut Pools) -> (r: Result<
    ActionRt,
    String,
>)
    ensures
        match r {
            Ok(a) => action_for(loc@, names@, old(pools)@) == Ok::<
                (ActionRtV, PoolsV),
                Seq<char>,
            >((a@, final(pools)@)),
            Err(e) => action_for(loc@, names@, old(pools)@) == Err::<
                (ActionRtV, PoolsV),
                Seq<char>,
            >(e@),
        },
{
    match &loc.action {
        Action::Return { status, body } => Ok(
            ActionRt::Return { status: *status, body: body.copy() },
        ),
        Action::Root { dir } => Ok(
            ActionRt::Static { root: dir.clone(), kind: StaticKind::Root },
        ),
        Action::Alias { dir } => Ok(
            ActionRt::Static {
                root: dir.clone(),
                kind: StaticKind::Alias { prefix: loc.path.clone() },
            },
        ),
        Action::ProxyPass { target } => {
            let cache = match build_cache(loc, &names.caches) {
                Ok(c) => c,
                Err(e) => {
                    return Err(e);
                },
            };
            let set_headers = match compile_headers(&loc.set_headers) {
                Ok(h) => h,
                Err(e) => {
                    return Err(e);
                },
            };
            let target = build_target(target.as_str(), pools);
            Ok(ActionRt::Proxy { target, set_headers, cache })
        },
        Action::Metrics => Ok(ActionRt::Metrics),
        Action::TryFiles { root, entries } => Ok(
            ActionRt::TryFiles { root: root.clone(), entries: build_entries(entries) },
        ),
    }
}

/// The zone of a `limit_req` or `limit_conn`, with its number.
pub open spec fn zone_for(
    item: Option<(Seq<char>, u32)>,
    zones: Seq<(Seq<char>, usize)>,
    directive: Seq<char>,
) -> Result<Option<(usize, u32)>, Seq<char>> {
    match item {
        None => Ok(None),
        Some((name, n)) => match last_value(zones, name) {
            Some(zone) => Ok(Some((zone, n))),
            None => Err(
                "location uses '"@ + directive + " zone="@ + name + "' but no '"@ + directive
                    + "_zone' declares that zone"@,
            ),
        },
    }
}

fn find_zone(
    item: &Option<(String, u32)>,
    zones: &Vec<(String, usize)>,
    directive: &str,
) -> (r: Result<Option<(usize, u32)>, String>)
    ensures
        match r {
            Ok(z) => zone_for(opt_view(*item), views(zones@), directive@) == Ok::<
                Option<(usize, u32)>,
                Seq<char>,
            >(z),
            Err(e) => zone_for(opt_view(*item), views(zones@), directive@) == Err::<
                Option<(usize, u32)>,
                Seq<char>,
            >(e@),
        },
{
    match item {
        None => Ok(None),
        Some(pair) => {
            let name = pair.0.as_str();
            match find_last(zones, name) {
                Some(zone) => Ok(Some((zone, pair.1))),
                None => {
                    let mut e = "location uses '".to_owned();
                    e.append(directive);
                    e.append(" zone=");
                    e.append(name);
                    e.append("' but no '");
                    e.append(directive);
                    e.append("_zone' declares that zone");
                    Err(e)
                },
            }
        },
    }
}

/// The credentials that a location asks for: both a realm and a file must be
/// set.
pub open spec fn auth_for(loc: LocationV, files: Seq<UserFileV>) -> Result<
    Option<AuthBasicV>,
    Seq<char>,
> {
    match (loc.auth_basic_realm, loc.auth_basic_user_file) {
        (Some(realm), Some(file)) => match auth_from(files, file, realm) {
            Ok(a) => Ok(Some(a)),
            Err(e) => Err(e),
        },
        _ => Ok(None),
    }
}

fn build_auth(loc: &Location, files: &Vec<UserFile>) -> (r: Result<Option<AuthBasic>, String>)
    ensures
        match r {
            Ok(a) => auth_for(loc@, views(files@)) == Ok::<Option<AuthBasicV>, Seq<char>>(
                opt_view(a),
            ),
            Err(e) => auth_for(loc@, views(files@)) == Err::<Option<AuthBasicV>, Seq<char>>(e@),
        },
{
    match (&loc.auth_basic_realm, &loc.auth_basic_user_file) {
        (Some(realm), Some(file)) => match load_auth(files, file.as_str(), realm.as_str()) {
            Ok(a) => Ok(Some(a)),
            Err(e) => Err(e),
        },
        _ => Ok(None),
    }
}

/// A location that is ready to serve, and the pools after its target has been
/// resolved.
pub open spec fn location_for(
    loc: LocationV,
    server: ServerV,
    names: ZoneNamesV,
    files: Seq<UserFileV>,
    p: PoolsV,
) -> Result<(LocationRtV, PoolsV), Seq<char>> {
    match action_for(loc, names, p) {
        Err(e) => Err(e),
        Ok((action, q)) => match auth_for(loc, files) {
            Err(e) => Err(e),
            Ok(auth) => match zone_for(loc.limit_req, names.limit_req, "limit_req"@) {
                Err(e) => Err(e),
                Ok(req) => match zone_for(loc.limit_conn, names.limit_conn, "limit_conn"@) {
                    Err(e) => Err(e),
                    Ok(conn) => match rules_of(loc.access_rules, loc.path) {
                        Err(e) => Err(e),
                        Ok(access_rules) => match compiled(server.add_headers + loc.add_headers) {
                            Err(e) => Err(e),
                            Ok(add_headers) => Ok(
                                (
                                    LocationRtV {
                                        path: loc.path,
                                        action,
                                        add_headers,
                                        expires: loc.expires,
                                        gzip: loc.gzip,
                                        autoindex: loc.autoindex,
                                        auth,
                                        limit_req: match req {
                                            Some((zone, burst)) => Some(
                                                LimitReqApply { zone, burst },
                                            ),
                                            None => None,
                                        },
                                        limit_conn: match conn {
                                            Some((zone, max_conn)) => Some(
                                                LimitConnApply { zone, max_conn },
                                            ),
                                            None => None,
                                        },
                                        access_rules,
                                        proxy_connect_timeout: loc.proxy_connect_timeout,
                                        proxy_read_timeout: loc.proxy_read_timeout,
                                        auth_request: loc.auth_request,
                                        mirrors: loc.mirrors,
                                        proxy_ssl_verify: loc.proxy_ssl_verify,
                                        proxy_ssl_certificate: loc.proxy_ssl_certificate,
                                        proxy_ssl_certificate_key: loc.proxy_ssl_certificate_key,
                                    },
                                    q,
                                ),
                            ),
                        },
                    },
                },
            },
        },
    }
}

pub(crate) fn build_location(
    loc: &Location,
    server: &Server,
    names: &ZoneNames,
    files: &Vec<UserFile>,
    pools: &mut Pools,
) -> (r: Result<LocationRt, String>)
    ensures
        match r {
            Ok(l) => location_for(loc@, server@, names@, views(files@), old(pools)@) == Ok::<
                (LocationRtV, PoolsV),
                Seq<char>,
            >((l@, final(pools)@)),
            Err(e) => location_for(loc@, server@, names@, views(files@), old(pools)@) == Err::<
                (LocationRtV, PoolsV),
                Seq<char>,
            >(e@),
        },
{
    let action = match build_action(loc, names, pools) {
        Ok(a) => a,
        Err(e) => {
            return Err(e);
        },
    };
    let auth = match build_auth(loc, files) {
        Ok(a) => a,
        Err(e) => {
            return Err(e);
        },
    };
    let limit_req = match find_zone(&loc.limit_req, &names.limit_req, "limit_req") {
        Ok(Some((zone, burst))) => Some(LimitReqApply { zone, burst }),
        Ok(None) => None,
        Err(e) => {
            return Err(e);
        },
    };
    let limit_conn = match find_zone(&loc.limit_conn, &names.limit_conn, "limit_conn") {
        Ok(Some((zone, max_conn))) => Some(LimitConnApply { zone, max_conn }),
        Ok(None) => None,
        Err(e) => {
            return Err(e);
        },
    };
    let access_rules = match build_rules(&loc.access_rules, loc.path.as_str()) {
        Ok(a) => a,
        Err(e) => {
            return Err(e);
        },
    };
    let add_headers = match compile_headers(&merged(&server.add_headers, &loc.add_headers)) {
        Ok(a) => a,
        Err(e) => {
            return Err(e);
        },
    };
    Ok(
        LocationRt {
            path: loc.path.clone(),
            action,
            add_headers,
            expires: loc.expires,
            gzip: loc.gzip,
            autoindex: loc.autoindex,
            auth,
            limit_req,
            limit_conn,
            access_rules,
            proxy_connect_timeout: loc.proxy_connect_timeout,
            proxy_read_timeout: loc.proxy_read_timeout,
            auth_request: copy_opt_template(&loc.auth_request),
            mirrors: copy_templates(&loc.mirrors),
            proxy_ssl_verify: loc.proxy_ssl_verify,
            proxy_ssl_certificate: copy_opt_string(&loc.proxy_ssl_certificate),
            proxy_ssl_certificate_key: copy_opt_string(&loc.proxy_ssl_certificate_key),
        },
    )
}

} // verus!
