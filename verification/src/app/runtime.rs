//! The state that requests are served from.

use super::actions::{StaticKind, StaticKindV, TryFilesEntryRt, TryFilesEntryRtV};
use super::balance::{Balancer, BalancerV, fresh_peer, opt_int, Peer};
use crate::access::AccessRule;
use crate::auth::{AuthBasic, AuthBasicV};
use crate::config::ast::{LbMethod, MapDecl, MapDeclV, plain_server, TlsVersion};
use crate::limit::{LimitConnApply, LimitReqApply};
use crate::net::SocketAddr;
use crate::request_ctx::RequestCtx;
use crate::template::{rendered, SegmentV, Template};
use crate::text::{
    after_prefix, lemma_views_push, lower, opt_view, same, split, split_at, starts_with,
    strip_prefix, to_lower, trim_end_char, views, without_trailing,
};
use crate::time::Duration;
use crate::tls::{CertEntry, CertEntryV};
use vstd::prelude::*;
use vstd::string::*;
use vstd::utf8::encode_utf8;

verus! {

// ---------------------------------------------------------------------------
// Regular expressions on paths
// ---------------------------------------------------------------------------

/// `regex::Regex`, a compiled regular expression.
#[verifier::external_type_specification]
#[verifier::external_body]
pub struct ExRegex(regex::Regex);

/// The pattern that a compiled expression was built from, and whether it
/// ignores case.
pub uninterp spec fn regex_source(re: regex::Regex) -> (Seq<char>, bool);

/// What `regex::RegexBuilder::build` objects to in a pattern; `None` when it
/// compiles.
pub uninterp spec fn regex_error(pattern: Seq<char>, case_insensitive: bool) -> Option<Seq<char>>;

/// Whether `regex::Regex::is_match` finds the pattern in a text.
pub uninterp spec fn regex_matches(pattern: Seq<char>, case_insensitive: bool, text: Seq<char>) -> bool;

/// `regex::RegexBuilder::build` compiles a pattern, or says why it cannot.
#[verifier::external_body]
fn regex_compile(pattern: &str, case_insensitive: bool) -> (r: Result<regex::Regex, String>)
    ensures
        match r {
            Ok(re) => regex_error(pattern@, case_insensitive) is None && regex_source(re) == (
                pattern@,
                case_insensitive,
            ),
            Err(e) => regex_error(pattern@, case_insensitive) == Some(e@),
        },
{
    regex::RegexBuilder::new(pattern)
        .case_insensitive(case_insensitive)
        .build()
        .map_err(|e| e.to_string())
}

/// `regex::Regex::is_match` looks for the pattern anywhere in `text`.
#[verifier::external_body]
fn regex_is_match(re: &regex::Regex, text: &str) -> (r: bool)
    ensures
        r == regex_matches(regex_source(*re).0, regex_source(*re).1, text@),
{
    re.is_match(text)
}

/// A compiled location pattern.
#[derive(Debug)]
pub struct PathRegex {
    pub re: regex::Regex,
}

impl View for PathRegex {
    type V = (Seq<char>, bool);

    open spec fn view(&self) -> (Seq<char>, bool) {
        regex_source(self.re)
    }
}

impl PathRegex {
    /// Compile a pattern.
    pub fn new(pattern: &str, case_insensitive: bool) -> (r: Result<PathRegex, String>)
        ensures
            match r {
                Ok(p) => regex_error(pattern@, case_insensitive) is None && p@ == (
                    pattern@,
                    case_insensitive,
                ),
                Err(e) => regex_error(pattern@, case_insensitive) == Some(e@),
            },
    {
        match regex_compile(pattern, case_insensitive) {
            Ok(re) => Ok(PathRegex { re }),
            Err(e) => Err(e),
        }
    }

    pub fn is_match(&self, text: &str) -> (r: bool)
        ensures
            r == regex_matches(self@.0, self@.1, text@),
    {
        regex_is_match(&self.re, text)
    }
}

// ---------------------------------------------------------------------------
// Types
// ---------------------------------------------------------------------------

/// Process defaults applied when a directive does not specify otherwise; the
/// timeouts are in seconds.
pub const DEFAULT_PROXY_CONNECT_TIMEOUT: u64 = 10;

pub const DEFAULT_PROXY_READ_TIMEOUT: u64 = 60;

pub const DEFAULT_CLIENT_MAX_BODY_SIZE: usize = 1024 * 1024;

pub const DEFAULT_GZIP_MIN_LENGTH: usize = 20;

/// What `proxy_pass` resolves to at request time. Fixed targets are
/// captured once at config-build (the common case). Dynamic targets —
/// any `proxy_pass http://$something` — are rendered per request, looked
/// up first in the named-upstream map, and synthesized + cached on first
/// sight as a single-peer balancer for direct-address values.
#[derive(Debug)]
pub enum ProxyTarget {
    /// A balancer by its position.
    Fixed(usize),
    /// A template, and which memo of ephemeral balancers belongs to it.
    Dynamic { template: Template, memo: usize },
}

/// Model of a [`ProxyTarget`].
pub enum ProxyTargetV {
    Fixed(usize),
    Dynamic { template: Seq<SegmentV>, memo: usize },
}

impl View for ProxyTarget {
    type V = ProxyTargetV;

    open spec fn view(&self) -> ProxyTargetV {
        match self {
            ProxyTarget::Fixed(b) => ProxyTargetV::Fixed(*b),
            ProxyTarget::Dynamic { template, memo } => ProxyTargetV::Dynamic {
                template: template@,
                memo: *memo,
            },
        }
    }
}

#[derive(Debug)]
pub enum ActionRt {
    Return { status: u16, body: Template },
    Proxy { target: ProxyTarget, set_headers: Vec<(String, Template)>, cache: Option<ProxyCache> },
    Static { root: String, kind: StaticKind },
    /// Render Prometheus metrics inline.
    Metrics,
    /// `try_files` — try each candidate in order, fall back to the last
    /// entry (which may itself be a path or a `=NNN` status).
    TryFiles { root: String, entries: Vec<TryFilesEntryRt> },
}

/// Model of an [`ActionRt`].
pub enum ActionRtV {
    Return { status: u16, body: Seq<SegmentV> },
    Proxy {
        target: ProxyTargetV,
        set_headers: Seq<(Seq<char>, Seq<SegmentV>)>,
        cache: Option<ProxyCacheV>,
    },
    Static { root: Seq<char>, kind: StaticKindV },
    Metrics,
    TryFiles { root: Seq<char>, entries: Seq<TryFilesEntryRtV> },
}

impl View for ActionRt {
    type V = ActionRtV;

    open spec fn view(&self) -> ActionRtV {
        match self {
            ActionRt::Return { status, body } => ActionRtV::Return { status: *status, body: body@ },
            ActionRt::Proxy { target, set_headers, cache } => ActionRtV::Proxy {
                target: target@,
                set_headers: views(set_headers@),
                cache: opt_view(*cache),
            },
            ActionRt::Static { root, kind } => ActionRtV::Static { root: root@, kind: kind@ },
            ActionRt::Metrics => ActionRtV::Metrics,
            ActionRt::TryFiles { root, entries } => ActionRtV::TryFiles {
                root: root@,
                entries: views(entries@),
            },
        }
    }
}

/// Per-location proxy-cache configuration, resolved at config-build time.
#[derive(Debug)]
pub struct ProxyCache {
    /// Position of the store among the runtime's caches.
    pub store: usize,
    pub key_template: Template,
    /// `(status codes (empty = any), ttl)` pairs.
    pub valid_rules: Vec<(Vec<u16>, Duration)>,
}

/// Model of a [`ProxyCache`].
pub struct ProxyCacheV {
    pub store: usize,
    pub key_template: Seq<SegmentV>,
    pub valid_rules: Seq<(Seq<u16>, Duration)>,
}

impl View for ProxyCache {
    type V = ProxyCacheV;

    open spec fn view(&self) -> ProxyCacheV {
        ProxyCacheV {
            store: self.store,
            key_template: self.key_template@,
            valid_rules: views(self.valid_rules@),
        }
    }
}

/// A location that is ready to serve.
#[derive(Debug)]
pub struct LocationRt {
    pub path: String,
    pub action: ActionRt,
    /// Headers for every response, names in lower case: those of the server
    /// first, then those of the location.
    pub add_headers: Vec<(String, Template)>,
    /// `expires` value, applied to every response from this location.
    pub expires: Option<Duration>,
    /// Per-location gzip override. `None` -> use the server-level default.
    pub gzip: Option<bool>,
    /// `autoindex on;` — render a directory listing when the path is a
    /// directory and `index.html` is absent.
    pub autoindex: bool,
    /// HTTP Basic auth, loaded at config-build time.
    pub auth: Option<AuthBasic>,
    /// `limit_req` enforcement for this location.
    pub limit_req: Option<LimitReqApply>,
    /// `limit_conn` enforcement for this location.
    pub limit_conn: Option<LimitConnApply>,
    /// `allow` / `deny` rules in declaration order.
    pub access_rules: Vec<AccessRule>,
    /// `proxy_connect_timeout` for this location.
    pub proxy_connect_timeout: Option<Duration>,
    /// `proxy_read_timeout` for the upstream exchange. `None` → process
    /// default (60s).
    pub proxy_read_timeout: Option<Duration>,
    /// `auth_request <url>;` — delegate authorization to an HTTP service.
    pub auth_request: Option<Template>,
    /// `mirror <url>;` — fire-and-forget shadow requests.
    pub mirrors: Vec<Template>,
    /// `true` to verify the upstream's TLS certificate (default).
    pub proxy_ssl_verify: bool,
    /// Client certificate to present to the upstream, with its key.
    pub proxy_ssl_certificate: Option<String>,
    pub proxy_ssl_certificate_key: Option<String>,
}

/// Model of a [`LocationRt`].
pub struct LocationRtV {
    pub path: Seq<char>,
    pub action: ActionRtV,
    pub add_headers: Seq<(Seq<char>, Seq<SegmentV>)>,
    pub expires: Option<Duration>,
    pub gzip: Option<bool>,
    pub autoindex: bool,
    pub auth: Option<AuthBasicV>,
    pub limit_req: Option<LimitReqApply>,
    pub limit_conn: Option<LimitConnApply>,
    pub access_rules: Seq<AccessRule>,
    pub proxy_connect_timeout: Option<Duration>,
    pub proxy_read_timeout: Option<Duration>,
    pub auth_request: Option<Seq<SegmentV>>,
    pub mirrors: Seq<Seq<SegmentV>>,
    pub proxy_ssl_verify: bool,
    pub proxy_ssl_certificate: Option<Seq<char>>,
    pub proxy_ssl_certificate_key: Option<Seq<char>>,
}

impl View for LocationRt {
    type V = LocationRtV;

    open spec fn view(&self) -> LocationRtV {
        LocationRtV {
            path: self.path@,
            action: self.action@,
            add_headers: views(self.add_headers@),
            expires: self.expires,
            gzip: self.gzip,
            autoindex: self.autoindex,
            auth: opt_view(self.auth),
            limit_req: self.limit_req,
            limit_conn: self.limit_conn,
            access_rules: views(self.access_rules@),
            proxy_connect_timeout: self.proxy_connect_timeout,
            proxy_read_timeout: self.proxy_read_timeout,
            auth_request: opt_view(self.auth_request),
            mirrors: views(self.mirrors@),
            proxy_ssl_verify: self.proxy_ssl_verify,
            proxy_ssl_certificate: opt_view(self.proxy_ssl_certificate),
            proxy_ssl_certificate_key: opt_view(self.proxy_ssl_certificate_key),
        }
    }
}

/// A virtual server that is ready to serve.
#[derive(Debug)]
pub struct ServerState {
    pub server_name: Option<String>,
    /// `"http"` or `"https"` — used by the variable engine for `$scheme`.
    pub scheme: &'static str,
    /// Effective gzip-enabled state for this server.
    pub gzip: bool,
    pub gzip_types: Vec<String>,
    /// `gzip_min_length` for this server (default 20 bytes).
    pub gzip_min_length: usize,
    /// `map` declarations, evaluated once per request before any
    /// location-level templates run.
    pub maps: Vec<MapDecl>,
    /// `client_max_body_size`: 0 means unlimited. Defaults to 1 MiB.
    pub client_max_body_size: usize,
    pub exact_locs: Vec<LocationRt>,
    /// In declaration order.
    pub regex_locs: Vec<(PathRegex, LocationRt)>,
    /// Longest path first.
    pub prefix_locs: Vec<LocationRt>,
}

/// Model of a [`ServerState`].
pub struct ServerStateV {
    pub server_name: Option<Seq<char>>,
    pub scheme: Seq<char>,
    pub gzip: bool,
    pub gzip_types: Seq<Seq<char>>,
    pub gzip_min_length: usize,
    pub maps: Seq<MapDeclV>,
    pub client_max_body_size: usize,
    pub exact_locs: Seq<LocationRtV>,
    pub regex_locs: Seq<((Seq<char>, bool), LocationRtV)>,
    pub prefix_locs: Seq<LocationRtV>,
}

impl View for ServerState {
    type V = ServerStateV;

    open spec fn view(&self) -> ServerStateV {
        ServerStateV {
            server_name: opt_view(self.server_name),
            scheme: self.scheme@,
            gzip: self.gzip,
            gzip_types: views(self.gzip_types@),
            gzip_min_length: self.gzip_min_length,
            maps: views(self.maps@),
            client_max_body_size: self.client_max_body_size,
            exact_locs: views(self.exact_locs@),
            regex_locs: views(self.regex_locs@),
            prefix_locs: views(self.prefix_locs@),
        }
    }
}

/// One virtual host on a listener.
#[derive(Debug)]
pub struct VirtualHost {
    pub server_name: Option<String>,
    pub state: ServerState,
}

/// Model of a [`VirtualHost`].
pub struct VirtualHostV {
    pub server_name: Option<Seq<char>>,
    pub state: ServerStateV,
}

impl View for VirtualHost {
    type V = VirtualHostV;

    open spec fn view(&self) -> VirtualHostV {
        VirtualHostV {
            server_name: opt_view(self.server_name),
            state: self.state@,
        }
    }
}

/// All the state a single HTTP listener needs.
#[derive(Debug)]
pub struct ListenerCfg {
    pub addr: SocketAddr,
    /// All virtual hosts on this listener. The first one is the default
    /// (served when no `Host` header matches).
    pub vhosts: Vec<VirtualHost>,
    /// One entry per certificate; empty for a plain listener.
    pub tls_paths: Vec<CertEntry>,
    /// TLS versions that every server block on this address allows. Empty
    /// means the defaults.
    pub protocols: Vec<TlsVersion>,
    /// At least one virtual host on this address opted into HTTP/3.
    pub http3: bool,
}

/// Model of a [`ListenerCfg`].
pub struct ListenerCfgV {
    pub addr: SocketAddr,
    pub vhosts: Seq<VirtualHostV>,
    pub tls_paths: Seq<CertEntryV>,
    pub protocols: Seq<TlsVersion>,
    pub http3: bool,
}

impl View for ListenerCfg {
    type V = ListenerCfgV;

    open spec fn view(&self) -> ListenerCfgV {
        ListenerCfgV {
            addr: self.addr,
            vhosts: views(self.vhosts@),
            tls_paths: views(self.tls_paths@),
            protocols: views(self.protocols@),
            http3: self.http3,
        }
    }
}

/// The models of the memos of ephemeral balancers.
pub open spec fn memo_views(v: Seq<Vec<(String, usize)>>) -> Seq<Seq<(Seq<char>, usize)>> {
    v.map_values(|m: Vec<(String, usize)>| views(m@))
}

/// The upstreams, and how they are found by name.
#[derive(Debug)]
pub struct Pools {
    pub balancers: Vec<Balancer>,
    /// Named HTTP upstreams. The last entry for a name counts.
    pub named: Vec<(String, usize)>,
    /// For each variable-driven `proxy_pass`, the balancers made for direct
    /// addresses so far, so that their state survives across requests.
    pub ephemeral: Vec<Vec<(String, usize)>>,
}

/// Model of a [`Pools`].
pub struct PoolsV {
    pub balancers: Seq<BalancerV>,
    pub named: Seq<(Seq<char>, usize)>,
    pub ephemeral: Seq<Seq<(Seq<char>, usize)>>,
}

impl View for Pools {
    type V = PoolsV;

    open spec fn view(&self) -> PoolsV {
        PoolsV {
            balancers: views(self.balancers@),
            named: views(self.named@),
            ephemeral: memo_views(self.ephemeral@),
        }
    }
}

// ---------------------------------------------------------------------------
// Virtual hosts
// ---------------------------------------------------------------------------

/// The host of a `Host` header: without its port, in lower case.
pub open spec fn host_name(h: Seq<char>) -> Seq<char> {
    lower(split_at(h, ':')[0])
}

/// The first virtual host from `i` on that is named `host`; the first of all
/// when there is none.
pub open spec fn vhost_from(vhosts: Seq<VirtualHostV>, host: Seq<char>, i: int) -> int
    decreases vhosts.len() - i,
{
    if i >= vhosts.len() || i < 0 {
        0
    } else if vhosts[i].server_name matches Some(n) && lower(n) == host {
        i
    } else {
        vhost_from(vhosts, host, i + 1)
    }
}

/// The virtual host that serves a request with the given `Host` header.
pub open spec fn vhost_for(vhosts: Seq<VirtualHostV>, header: Option<Seq<char>>) -> int {
    match header {
        Some(h) => vhost_from(vhosts, host_name(h), 0),
        None => 0,
    }
}

impl ListenerCfg {
    /// Select the right `ServerState` for an incoming request based on the
    /// `Host` header (port stripped, case-insensitive). Falls back to the
    /// first vhost.
    pub fn pick_state(&self, host_header: Option<&str>) -> (r: &ServerState)
        requires
            self.vhosts@.len() > 0,
        ensures
            ({
                let i = vhost_for(
                    self@.vhosts,
                    match host_header {
                        Some(h) => Some(h@),
                        None => None,
                    },
                );
                0 <= i < self.vhosts@.len() && *r == self.vhosts@[i].state
            }),
    {
        let ghost all = self@.vhosts;
        if let Some(h) = host_header {
            let parts = split(h, ':');
            assert(views(parts@).len() > 0 && views(parts@)[0] == parts@[0]@) by {
                reveal_with_fuel(split_at, 1);
                assert(split_at(h@, ':').len() > 0);
                assert(views(parts@).len() == parts@.len());
            }
            let host = to_lower(parts[0].as_str());
            let mut i: usize = 0;
            while i < self.vhosts.len()
                invariant
                    i <= self.vhosts@.len(),
                    self.vhosts@.len() > 0,
                    all == views(self.vhosts@),
                    all == self@.vhosts,
                    host@ == host_name(h@),
                    host_header matches Some(x) && x@ == h@,
                    vhost_from(all, host@, i as int) == vhost_from(all, host@, 0),
                decreases self.vhosts@.len() - i,
            {
                assert(all[i as int] == self.vhosts@[i as int]@);
                if let Some(name) = &self.vhosts[i].server_name {
                    let low = to_lower(name.as_str());
                    if same(low.as_str(), host.as_str()) {
                        return &self.vhosts[i].state;
                    }
                }
                i = i + 1;
            }
        }
        &self.vhosts[0].state
    }
}

// ---------------------------------------------------------------------------
// Routing
// ---------------------------------------------------------------------------

/// The first exact location for `path` from `i` on.
pub open spec fn exact_match(locs: Seq<LocationRtV>, path: Seq<char>, i: int) -> Option<LocationRtV>
    decreases locs.len() - i,
{
    if i >= locs.len() || i < 0 {
        None
    } else if locs[i].path == path {
        Some(locs[i])
    } else {
        exact_match(locs, path, i + 1)
    }
}

/// Position of the first pattern location for `path` from `i` on.
pub open spec fn first_pattern(
    locs: Seq<((Seq<char>, bool), LocationRtV)>,
    path: Seq<char>,
    i: int,
) -> Option<int>
    decreases locs.len() - i,
{
    if i >= locs.len() || i < 0 {
        None
    } else if regex_matches(locs[i].0.0, locs[i].0.1, path) {
        Some(i)
    } else {
        first_pattern(locs, path, i + 1)
    }
}

/// Whether a prefix location covers `path`. `/` covers everything.
pub open spec fn covers_path(prefix: Seq<char>, path: Seq<char>) -> bool {
    prefix == "/"@ || prefix.is_prefix_of(path)
}

/// The first prefix location for `path` from `i` on.
pub open spec fn prefix_match(locs: Seq<LocationRtV>, path: Seq<char>, i: int) -> Option<LocationRtV>
    decreases locs.len() - i,
{
    if i >= locs.len() || i < 0 {
        None
    } else if covers_path(locs[i].path, path) {
        Some(locs[i])
    } else {
        prefix_match(locs, path, i + 1)
    }
}

/// The location for a path that no exact location names, when the first pattern
/// that matches it stands at `hit`: that one, else the longest prefix.
pub open spec fn routed_by(s: ServerStateV, path: Seq<char>, hit: Option<int>) -> Option<
    LocationRtV,
> {
    match hit {
        Some(i) => Some(s.regex_locs[i].1),
        None => prefix_match(s.prefix_locs, path, 0),
    }
}

/// Nginx-style routing precedence: an exact match, else the first matching
/// pattern in declaration order, else the longest prefix.
pub open spec fn routed(s: ServerStateV, path: Seq<char>) -> Option<LocationRtV> {
    match exact_match(s.exact_locs, path, 0) {
        Some(l) => Some(l),
        None => routed_by(s, path, first_pattern(s.regex_locs, path, 0)),
    }
}

impl ServerState {
    /// Nginx-style routing precedence:
    ///   1. Exact match (`=`).
    ///   2. Regex match — first match in declaration order.
    ///   3. Longest prefix.
    pub fn route(&self, path: &str) -> (r: Option<&LocationRt>)
        ensures
            match r {
                Some(l) => routed(self@, path@) == Some(l@),
                None => routed(self@, path@) is None,
            },
    {
        match self.route_exact(path) {
            Some(l) => Some(l),
            None => {
                let hit = self.matching_pattern(path);
                self.route_by(path, hit)
            },
        }
    }

    /// The exact location for `path`.
    pub fn route_exact(&self, path: &str) -> (r: Option<&LocationRt>)
        ensures
            match r {
                Some(l) => exact_match(self@.exact_locs, path@, 0) == Some(l@),
                None => exact_match(self@.exact_locs, path@, 0) is None,
            },
    {
        let ghost exact = self@.exact_locs;
        let mut i: usize = 0;
        while i < self.exact_locs.len()
            invariant
                i <= self.exact_locs@.len(),
                exact == views(self.exact_locs@),
                exact == self@.exact_locs,
                exact_match(exact, path@, i as int) == exact_match(exact, path@, 0),
            decreases self.exact_locs@.len() - i,
        {
            assert(exact[i as int] == self.exact_locs@[i as int]@);
            if same(self.exact_locs[i].path.as_str(), path) {
                return Some(&self.exact_locs[i]);
            }
            i = i + 1;
        }
        None
    }

    /// Position of the first pattern that matches `path`.
    fn matching_pattern(&self, path: &str) -> (r: Option<usize>)
        ensures
            opt_int(r) == first_pattern(self@.regex_locs, path@, 0),
            r matches Some(i) ==> i < self.regex_locs@.len(),
    {
        let ghost patterns = self@.regex_locs;
        let mut j: usize = 0;
        while j < self.regex_locs.len()
            invariant
                j <= self.regex_locs@.len(),
                patterns == views(self.regex_locs@),
                patterns == self@.regex_locs,
                first_pattern(patterns, path@, j as int) == first_pattern(patterns, path@, 0),
            decreases self.regex_locs@.len() - j,
        {
            assert(patterns[j as int] == self.regex_locs@[j as int]@);
            if self.regex_locs[j].0.is_match(path) {
                return Some(j);
            }
            j = j + 1;
        }
        None
    }

    /// The location for a path that no exact location names, given the position
    /// of the first pattern that matches it.
    pub fn route_by(&self, path: &str, hit: Option<usize>) -> (r: Option<&LocationRt>)
        requires
            hit matches Some(i) ==> i < self.regex_locs@.len(),
        ensures
            match r {
                Some(l) => routed_by(self@, path@, opt_int(hit)) == Some(l@),
                None => routed_by(self@, path@, opt_int(hit)) is None,
            },
    {
        if let Some(j) = hit {
            assert(self@.regex_locs[j as int] == self.regex_locs@[j as int]@);
            return Some(&self.regex_locs[j].1);
        }
        let ghost prefixes = self@.prefix_locs;
        let mut k: usize = 0;
        while k < self.prefix_locs.len()
            invariant
                k <= self.prefix_locs@.len(),
                hit is None,
                prefixes == views(self.prefix_locs@),
                prefixes == self@.prefix_locs,
                prefix_match(prefixes, path@, k as int) == prefix_match(prefixes, path@, 0),
            decreases self.prefix_locs@.len() - k,
        {
            assert(prefixes[k as int] == self.prefix_locs@[k as int]@);
            let l = &self.prefix_locs[k];
            if same(l.path.as_str(), "/") || starts_with(path, l.path.as_str()) {
                return Some(l);
            }
            k = k + 1;
        }
        None
    }
}

// ---------------------------------------------------------------------------
// Upstream resolution
// ---------------------------------------------------------------------------

/// The value last published under `name`.
pub open spec fn last_value(list: Seq<(Seq<char>, usize)>, name: Seq<char>) -> Option<usize>
    decreases list.len(),
{
    if list.len() == 0 {
        None
    } else if list.last().0 == name {
        Some(list.last().1)
    } else {
        last_value(list.drop_last(), name)
    }
}

/// The value last published under `name`.
pub fn find_last(list: &Vec<(String, usize)>, name: &str) -> (r: Option<usize>)
    ensures
        r == last_value(views(list@), name@),
{
    let ghost all = views(list@);
    let mut n: usize = list.len();
    assert(all.take(n as int) == all);
    while n > 0
        invariant
            n <= list@.len(),
            all == views(list@),
            last_value(all.take(n as int), name@) == last_value(all, name@),
        decreases n,
    {
        let ghost now = all.take(n as int);
        assert(now.last() == list@[n - 1]@);
        assert(now.drop_last() == all.take(n - 1));
        if same(list[n - 1].0.as_str(), name) {
            return Some(list[n - 1].1);
        }
        n = n - 1;
    }
    None
}

/// A balancer for one direct address.
pub open spec fn direct_balancer(addr: Seq<char>, scheme: Seq<char>) -> BalancerV {
    BalancerV {
        name: addr,
        method: LbMethod::RoundRobin,
        peers: seq![fresh_peer(plain_server(addr))],
        scheme,
        rr_counter: 0,
    }
}

pub(crate) fn new_direct(addr: &str, scheme: &'static str) -> (b: Balancer)
    ensures
        b@ == direct_balancer(addr@, scheme@),
{
    let mut peers: Vec<Peer> = Vec::new();
    peers.push(Peer::direct(addr));
    assert(views(peers@) =~= seq![fresh_peer(plain_server(addr@))]);
    Balancer { name: addr.to_owned(), method: LbMethod::RoundRobin, peers, scheme, rr_counter: 0 }
}

/// A scheme in front of an address, and the address.
pub open spec fn scheme_split(s: Seq<char>) -> (Seq<char>, Seq<char>) {
    match after_prefix(s, "https://"@) {
        Some(rest) => ("https"@, rest),
        None => match after_prefix(s, "http://"@) {
            Some(rest) => ("http"@, rest),
            None => ("http"@, s),
        },
    }
}

pub(crate) fn split_scheme<'a>(s: &'a str) -> (r: (&'static str, &'a str))
    ensures
        (r.0@, r.1@) == scheme_split(s@),
{
    match strip_prefix(s, "https://") {
        Some(rest) => ("https", rest),
        None => match strip_prefix(s, "http://") {
            Some(rest) => ("http", rest),
            None => ("http", s),
        },
    }
}

/// The target that a rendered `proxy_pass` names: without a leading `http://`
/// and trailing slashes.
pub open spec fn dynamic_host(r: Seq<char>) -> Seq<char> {
    without_trailing(
        match after_prefix(r, "http://"@) {
            Some(rest) => rest,
            None => r,
        },
        '/',
    )
}

/// The name under which a target is looked up: without a scheme and trailing
/// slashes.
pub open spec fn bare_host(host: Seq<char>) -> Seq<char> {
    without_trailing(
        match after_prefix(host, "http://"@) {
            Some(rest) => rest,
            None => match after_prefix(host, "https://"@) {
                Some(rest) => rest,
                None => host,
            },
        },
        '/',
    )
}

/// The balancer for a rendered target, and the pools after it has been found.
/// An empty target has none; an unknown direct address gets a balancer of its
/// own, which is remembered.
pub open spec fn resolved_host(p: PoolsV, memo: int, host: Seq<char>) -> (Option<int>, PoolsV) {
    if host.len() == 0 {
        (None, p)
    } else {
        match last_value(p.named, bare_host(host)) {
            Some(b) => (Some(b as int), p),
            None => match last_value(p.ephemeral[memo], host) {
                Some(b) => (Some(b as int), p),
                None => (Some(p.balancers.len() as int), with_direct(p, memo, host)),
            },
        }
    }
}

/// The balancer that a target stands for in a request, and the pools after it
/// has been found.
pub open spec fn resolution(p: PoolsV, target: ProxyTargetV, ctx: RequestCtx<'_>) -> (
    Option<int>,
    PoolsV,
) {
    match target {
        ProxyTargetV::Fixed(b) => (Some(b as int), p),
        ProxyTargetV::Dynamic { template, memo } => resolved_host(
            p,
            memo as int,
            dynamic_host(rendered(template, ctx)),
        ),
    }
}

impl ProxyTarget {
    /// Resolve to a concrete balancer for this request. `None` is a hard
    /// failure (empty / unparseable template) and the caller should return
    /// a `502`.
    pub fn resolve(&self, ctx: &RequestCtx<'_>, pools: &mut Pools) -> (r: Option<usize>)
        requires
            *self matches ProxyTarget::Dynamic { memo, .. } ==> memo < old(pools).ephemeral@.len(),
        ensures
            resolution(old(pools)@, self@, *ctx) == (
                match r {
                    Some(b) => Some(b as int),
                    None => None,
                },
                final(pools)@,
            ),
    {
        match self {
            ProxyTarget::Fixed(b) => Some(*b),
            ProxyTarget::Dynamic { template, memo } => {
                let text = template.render(ctx);
                let host = dynamic_target(text.as_str());
                resolve_host(pools, *memo, host)
            },
        }
    }
}

fn dynamic_target<'a>(r: &'a str) -> (h: &'a str)
    ensures
        h@ == dynamic_host(r@),
{
    let rest = match strip_prefix(r, "http://") {
        Some(t) => t,
        None => r,
    };
    trim_end_char(rest, '/')
}

fn resolve_host(pools: &mut Pools, memo: usize, host: &str) -> (r: Option<usize>)
    requires
        memo < old(pools).ephemeral@.len(),
    ensures
        resolved_host(old(pools)@, memo as int, host@) == (
            match r {
                Some(b) => Some(b as int),
                None => None,
            },
            final(pools)@,
        ),
{
    if host.is_empty() {
        return None;
    }
    let bare = trim_end_char(
        match strip_prefix(host, "http://") {
            Some(t) => t,
            None => match strip_prefix(host, "https://") {
                Some(t) => t,
                None => host,
            },
        },
        '/',
    );
    if let Some(b) = find_last(&pools.named, bare) {
        return Some(b);
    }
    assert(pools@.ephemeral[memo as int] == views(pools.ephemeral@[memo as int]@));
    if let Some(b) = find_last(&pools.ephemeral[memo], host) {
        return Some(b);
    }
    Some(remember_direct(pools, memo, host))
}

/// The pools with a balancer for the direct address `host`, remembered in
/// `memo`.
pub open spec fn with_direct(p: PoolsV, memo: int, host: Seq<char>) -> PoolsV {
    let (scheme, addr) = scheme_split(host);
    PoolsV {
        balancers: p.balancers.push(
            direct_balancer(
                if addr == host {
                    addr
                } else {
                    without_trailing(addr, '/')
                },
                scheme,
            ),
        ),
        named: p.named,
        ephemeral: p.ephemeral.update(
            memo,
            p.ephemeral[memo].push((host, p.balancers.len() as usize)),
        ),
    }
}

fn remember_direct(pools: &mut Pools, memo: usize, host: &str) -> (b: usize)
    requires
        memo < old(pools).ephemeral@.len(),
    ensures
        b == old(pools).balancers@.len(),
        final(pools)@ == with_direct(old(pools)@, memo as int, host@),
{
    let (scheme, rest) = split_scheme(host);
    let addr = if same(rest, host) { rest } else { trim_end_char(rest, '/') };
    let b: usize = pools.balancers.len();
    let fresh = new_direct(addr, scheme);
    proof {
        lemma_views_push(pools.balancers@, fresh);
    }
    let ghost memos = pools.ephemeral@;
    pools.balancers.push(fresh);
    let item = (host.to_owned(), b);
    let mut list = copy_pairs(&pools.ephemeral[memo]);
    proof {
        lemma_views_push(list@, item);
    }
    list.push(item);
    pools.ephemeral.set(memo, list);
    proof {
        lemma_memo_set(memos, memo as int, list, item);
    }
    b
}

proof fn lemma_memo_set(
    memos: Seq<Vec<(String, usize)>>,
    memo: int,
    list: Vec<(String, usize)>,
    item: (String, usize),
)
    requires
        0 <= memo < memos.len(),
        views(list@) == views(memos[memo]@).push(item@),
    ensures
        memo_views(memos.update(memo, list)) == memo_views(memos).update(
            memo,
            memo_views(memos)[memo].push(item@),
        ),
{
    assert(memo_views(memos.update(memo, list)) =~= memo_views(memos).update(
        memo,
        memo_views(memos)[memo].push(item@),
    ));
}

fn copy_pairs(v: &Vec<(String, usize)>) -> (r: Vec<(String, usize)>)
    ensures
        views(r@) == views(v@),
{
    let mut r: Vec<(String, usize)> = Vec::new();
    let mut i: usize = 0;
    while i < v.len()
        invariant
            i <= v@.len(),
            r@.len() == i,
            forall|k: int| 0 <= k < i ==> (#[trigger] r@[k])@ == v@[k]@,
        decreases v@.len() - i,
    {
        r.push((v[i].0.clone(), v[i].1));
        i = i + 1;
    }
    assert(views(r@) =~= views(v@));
    r
}

// ---------------------------------------------------------------------------
// Laws
// ---------------------------------------------------------------------------

/// Whether a virtual host has the name that a `Host` header asks for.
pub open spec fn answers_to(v: VirtualHostV, header: Option<Seq<char>>) -> bool {
    header matches Some(h) && v.server_name matches Some(n) && lower(n) == host_name(h)
}

/// A request for a server name is served by the first virtual host of that
/// name; one for a name that nobody has, or for none, by the first of all.
pub proof fn law_host_selects_server(vhosts: Seq<VirtualHostV>, header: Option<Seq<char>>)
    requires
        vhosts.len() > 0,
    ensures
        ({
            let k = vhost_for(vhosts, header);
            &&& 0 <= k < vhosts.len()
            &&& forall|i: int| 0 <= i < k ==> !answers_to(#[trigger] vhosts[i], header)
            &&& k == 0 || answers_to(vhosts[k], header)
            &&& (exists|i: int| 0 <= i < vhosts.len() && answers_to(#[trigger] vhosts[i], header))
                ==> answers_to(vhosts[k], header)
        }),
{
    if let Some(h) = header {
        lemma_vhost_from(vhosts, h, 0);
    }
}

proof fn lemma_vhost_from(vhosts: Seq<VirtualHostV>, h: Seq<char>, from: int)
    requires
        0 <= from <= vhosts.len(),
        vhosts.len() > 0,
    ensures
        ({
            let k = vhost_from(vhosts, host_name(h), from);
            if exists|i: int|
                from <= i < vhosts.len() && answers_to(#[trigger] vhosts[i], Some(h)) {
                from <= k < vhosts.len() && answers_to(vhosts[k], Some(h)) && forall|i: int|
                    from <= i < k ==> !answers_to(#[trigger] vhosts[i], Some(h))
            } else {
                k == 0
            }
        }),
    decreases vhosts.len() - from,
{
    if from < vhosts.len() && !answers_to(vhosts[from], Some(h)) {
        lemma_vhost_from(vhosts, h, from + 1);
    }
}

/// An exact location wins over every pattern and prefix.
pub proof fn law_exact_wins(s: ServerStateV, path: Seq<char>, i: int)
    requires
        0 <= i < s.exact_locs.len(),
        s.exact_locs[i].path == path,
    ensures
        routed(s, path) matches Some(l) && l.path == path && s.exact_locs.contains(l),
{
    lemma_exact(s.exact_locs, path, 0, i);
}

proof fn lemma_exact(locs: Seq<LocationRtV>, path: Seq<char>, from: int, i: int)
    requires
        0 <= from <= i < locs.len(),
        locs[i].path == path,
    ensures
        exact_match(locs, path, from) matches Some(l) && l.path == path && locs.contains(l),
    decreases i - from,
{
    if locs[from].path == path {
        assert(locs.contains(locs[from]));
    } else {
        lemma_exact(locs, path, from + 1, i);
    }
}

/// Length of a path in bytes.
pub open spec fn path_len(l: LocationRtV) -> nat {
    encode_utf8(l.path).len()
}

/// Longest path first.
pub open spec fn longest_first(locs: Seq<LocationRtV>) -> bool {
    forall|i: int, j: int|
        0 <= i < j < locs.len() ==> path_len(#[trigger] locs[i]) >= path_len(#[trigger] locs[j])
}

/// A path that no exact location names goes to the first pattern, in the order
/// of declaration, that matches it, whatever prefix covers it.
pub proof fn law_pattern_wins_over_prefix(s: ServerStateV, path: Seq<char>, i: int)
    requires
        exact_match(s.exact_locs, path, 0) is None,
        0 <= i < s.regex_locs.len(),
        regex_matches(s.regex_locs[i].0.0, s.regex_locs[i].0.1, path),
        forall|j: int|
            0 <= j < i ==> !regex_matches(
                (#[trigger] s.regex_locs[j]).0.0,
                s.regex_locs[j].0.1,
                path,
            ),
    ensures
        routed(s, path) == Some(s.regex_locs[i].1),
{
    lemma_first_pattern(s.regex_locs, path, 0, i);
}

proof fn lemma_first_pattern(
    locs: Seq<((Seq<char>, bool), LocationRtV)>,
    path: Seq<char>,
    from: int,
    i: int,
)
    requires
        0 <= from <= i < locs.len(),
        regex_matches(locs[i].0.0, locs[i].0.1, path),
        forall|j: int|
            from <= j < i ==> !regex_matches((#[trigger] locs[j]).0.0, locs[j].0.1, path),
    ensures
        first_pattern(locs, path, from) == Some(i),
    decreases i - from,
{
    if from < i {
        lemma_first_pattern(locs, path, from + 1, i);
    }
}

/// Among the prefix locations that cover a path the longest one serves it.
pub proof fn law_longest_prefix_wins(s: ServerStateV, path: Seq<char>, i: int)
    requires
        longest_first(s.prefix_locs),
        0 <= i < s.prefix_locs.len(),
        covers_path(s.prefix_locs[i].path, path),
        exact_match(s.exact_locs, path, 0) is None,
        first_pattern(s.regex_locs, path, 0) is None,
    ensures
        routed(s, path) matches Some(l) && covers_path(l.path, path) && path_len(l) >= path_len(
            s.prefix_locs[i],
        ),
{
    lemma_prefix(s.prefix_locs, path, 0, i);
}

proof fn lemma_prefix(locs: Seq<LocationRtV>, path: Seq<char>, from: int, i: int)
    requires
        longest_first(locs),
        0 <= from <= i < locs.len(),
        covers_path(locs[i].path, path),
    ensures
        prefix_match(locs, path, from) matches Some(l) && covers_path(l.path, path) && path_len(l)
            >= path_len(locs[i]),
    decreases i - from,
{
    if !covers_path(locs[from].path, path) {
        lemma_prefix(locs, path, from + 1, i);
    } else if from < i {
        assert(path_len(locs[from]) >= path_len(locs[i]));
    }
}

/// The pools after the targets `calls`, each with the memo that it is looked up
/// in, have been resolved one after the other.
pub open spec fn after_hosts(p: PoolsV, calls: Seq<(int, Seq<char>)>) -> PoolsV
    decreases calls.len(),
{
    if calls.len() == 0 {
        p
    } else {
        resolved_host(after_hosts(p, calls.drop_last()), calls.last().0, calls.last().1).1
    }
}

/// Whether two states of the pools differ in nothing but what has become of the
/// balancers: their counters, loads and health.
pub open spec fn same_addresses(a: PoolsV, b: PoolsV) -> bool {
    &&& a.named == b.named
    &&& a.ephemeral == b.ephemeral
    &&& a.balancers.len() == b.balancers.len()
}

proof fn lemma_after_hosts(
    p: PoolsV,
    calls: Seq<(int, Seq<char>)>,
    memo: int,
    host: Seq<char>,
    b: usize,
)
    requires
        0 <= memo < p.ephemeral.len(),
        forall|i: int| 0 <= i < calls.len() ==> 0 <= (#[trigger] calls[i]).0 < p.ephemeral.len(),
    ensures
        ({
            let q = after_hosts(p, calls);
            &&& q.named == p.named
            &&& q.ephemeral.len() == p.ephemeral.len()
            &&& last_value(p.named, bare_host(host)) is None && last_value(p.ephemeral[memo], host)
                == Some(b) ==> last_value(q.ephemeral[memo], host) == Some(b)
        }),
    decreases calls.len(),
{
    if calls.len() > 0 {
        let before = calls.drop_last();
        assert forall|i: int| 0 <= i < before.len() implies 0 <= (#[trigger] before[i]).0
            < p.ephemeral.len() by {
            assert(before[i] == calls[i]);
        }
        lemma_after_hosts(p, before, memo, host, b);
        let q = after_hosts(p, before);
        let (m, h) = calls[calls.len() - 1];
        let t = after_hosts(p, calls);
        assert(0 <= m < p.ephemeral.len());
        if t != q && m == memo {
            let n = q.balancers.len() as usize;
            assert(t.ephemeral[memo] == q.ephemeral[memo].push((h, n)));
            assert(t.ephemeral[memo].drop_last() =~= q.ephemeral[memo]);
        }
    }
}

/// A direct address is remembered: whatever other addresses are resolved in
/// between, and whatever has become of the balancers, resolving it again finds
/// the same balancer and adds none, so that its counters and its health survive
/// from request to request.
pub proof fn law_direct_address_is_remembered(
    p: PoolsV,
    memo: int,
    host: Seq<char>,
    calls: Seq<(int, Seq<char>)>,
    later: PoolsV,
)
    requires
        0 <= memo < p.ephemeral.len(),
        forall|i: int| 0 <= i < calls.len() ==> 0 <= (#[trigger] calls[i]).0 < p.ephemeral.len(),
        p.balancers.len() <= usize::MAX,
        same_addresses(later, after_hosts(resolved_host(p, memo, host).1, calls)),
    ensures
        resolved_host(later, memo, host) == (resolved_host(p, memo, host).0, later),
{
    let (b, q) = resolved_host(p, memo, host);
    let n = p.balancers.len() as usize;
    if host.len() > 0 && last_value(p.named, bare_host(host)) is None {
        if last_value(p.ephemeral[memo], host) is None {
            assert(q.ephemeral[memo] == p.ephemeral[memo].push((host, n)));
            assert(q.ephemeral[memo].last() == (host, n));
        }
        lemma_after_hosts(q, calls, memo, host, last_value(q.ephemeral[memo], host)->0);
    } else {
        lemma_after_hosts(q, calls, memo, host, 0);
    }
}

proof fn lemma_trimmed_once(s: Seq<char>, c: char)
    ensures
        without_trailing(without_trailing(s, c), c) == without_trailing(s, c),
    decreases s.len(),
{
    if s.len() > 0 && s.last() == c {
        lemma_trimmed_once(s.drop_last(), c);
    }
}

/// The balancer of a direct address has that address as its only peer, with the
/// settings of a plain server, and speaks TLS exactly when the address asks for
/// `https`.
pub proof fn law_direct_address_is_one_peer(p: PoolsV, memo: int, target: Seq<char>)
    requires
        0 <= memo < p.ephemeral.len(),
        dynamic_host(target).len() > 0,
        last_value(p.named, bare_host(dynamic_host(target))) is None,
        last_value(p.ephemeral[memo], dynamic_host(target)) is None,
    ensures
        ({
            let host = dynamic_host(target);
            let (b, q) = resolved_host(p, memo, host);
            &&& b == Some(p.balancers.len() as int)
            &&& q.balancers == p.balancers.push(
                direct_balancer(
                    bare_host(host),
                    if "https://"@.is_prefix_of(host) {
                        "https"@
                    } else {
                        "http"@
                    },
                ),
            )
        }),
{
    reveal_strlit("https://");
    reveal_strlit("http://");
    let rest = match after_prefix(target, "http://"@) {
        Some(rest) => rest,
        None => target,
    };
    lemma_trimmed_once(rest, '/');
    let host = dynamic_host(target);
    if "https://"@.is_prefix_of(host) {
        assert("https://"@[4] == host.subrange(0, 8)[4]);
        assert(host[4] == 's');
        assert(!"http://"@.is_prefix_of(host)) by {
            if "http://"@.is_prefix_of(host) {
                assert("http://"@[4] == host.subrange(0, 7)[4]);
            }
        }
    }
}

} // verus!
