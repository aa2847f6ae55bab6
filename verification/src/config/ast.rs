//! Typed configuration model produced by [`crate::config::lowering`].

use crate::limit::{Rate, RateV};
use crate::net::SocketAddr;
use crate::template::{SegmentV, Template};
use crate::text::{opt_view, views};
use crate::time::{Duration, of_secs};
use vstd::prelude::*;

verus! {

/// A TLS protocol version that `ssl_protocols` may name.
#[derive(Debug, Clone, Copy, PartialEq, Eq, Structural)]
pub enum TlsVersion {
    Tls12,
    Tls13,
}

impl View for TlsVersion {
    type V = TlsVersion;

    open spec fn view(&self) -> TlsVersion {
        *self
    }
}

impl View for SocketAddr {
    type V = SocketAddr;

    open spec fn view(&self) -> SocketAddr {
        *self
    }
}

#[derive(Debug, Clone, Copy, PartialEq, Eq, Structural)]
pub enum LbMethod {
    /// Weighted round-robin. The default.
    RoundRobin,
    /// Send each request to the peer with the fewest in-flight requests,
    /// adjusted by weight.
    LeastConn,
    /// Hash the client IP; requests from one client stick to one peer.
    IpHash,
}

impl View for LbMethod {
    type V = LbMethod;

    open spec fn view(&self) -> LbMethod {
        *self
    }
}

impl Default for LbMethod {
    fn default() -> (r: LbMethod)
        ensures
            r == LbMethod::RoundRobin,
    {
        LbMethod::RoundRobin
    }
}

#[derive(Debug, Clone, PartialEq, Eq)]
pub enum MapPattern {
    /// `"alpha"` — match if the rendered source equals this string.
    Literal(String),
    /// `default` — fallback when no literal matches.
    Default,
}

/// Model of a [`MapPattern`].
pub enum MapPatternV {
    Literal(Seq<char>),
    Default,
}

impl View for MapPattern {
    type V = MapPatternV;

    open spec fn view(&self) -> MapPatternV {
        match self {
            MapPattern::Literal(s) => MapPatternV::Literal(s@),
            MapPattern::Default => MapPatternV::Default,
        }
    }
}

#[derive(Debug, Clone, PartialEq, Eq)]
pub enum LocationKind {
    Exact,
    Prefix,
    /// A regular expression on the request path.
    Regex { pattern: String, case_insensitive: bool },
}

/// Model of a [`LocationKind`].
pub enum LocationKindV {
    Exact,
    Prefix,
    Regex { pattern: Seq<char>, case_insensitive: bool },
}

impl View for LocationKind {
    type V = LocationKindV;

    open spec fn view(&self) -> LocationKindV {
        match self {
            LocationKind::Exact => LocationKindV::Exact,
            LocationKind::Prefix => LocationKindV::Prefix,
            LocationKind::Regex { pattern, case_insensitive } => LocationKindV::Regex {
                pattern: pattern@,
                case_insensitive: *case_insensitive,
            },
        }
    }
}

#[derive(Debug, Clone)]
pub enum TryFilesEntry {
    /// `$uri`, `$uri/index.html`, `/fallback.html`, etc.
    Path(Template),
    /// `=404`, `=410`, etc. — only legal as the last entry.
    Status(u16),
}

/// Model of a [`TryFilesEntry`].
pub enum TryFilesEntryV {
    Path(Seq<SegmentV>),
    Status(u16),
}

impl View for TryFilesEntry {
    type V = TryFilesEntryV;

    open spec fn view(&self) -> TryFilesEntryV {
        match self {
            TryFilesEntry::Path(t) => TryFilesEntryV::Path(t@),
            TryFilesEntry::Status(n) => TryFilesEntryV::Status(*n),
        }
    }
}

#[derive(Debug, Clone)]
pub enum Action {
    Return { status: u16, body: Template },
    ProxyPass { target: String },
    Root { dir: String },
    Alias { dir: String },
    /// Expose Prometheus-format metrics at this location.
    Metrics,
    /// `try_files arg1 arg2 … argN;` — try each candidate in turn. The
    /// last entry is always served (or returns its status if `=NNN`).
    TryFiles { root: String, entries: Vec<TryFilesEntry> },
}

/// Model of an [`Action`].
pub enum ActionV {
    Return { status: u16, body: Seq<SegmentV> },
    ProxyPass { target: Seq<char> },
    Root { dir: Seq<char> },
    Alias { dir: Seq<char> },
    Metrics,
    TryFiles { root: Seq<char>, entries: Seq<TryFilesEntryV> },
}

impl View for Action {
    type V = ActionV;

    open spec fn view(&self) -> ActionV {
        match self {
            Action::Return { status, body } => ActionV::Return { status: *status, body: body@ },
            Action::ProxyPass { target } => ActionV::ProxyPass { target: target@ },
            Action::Root { dir } => ActionV::Root { dir: dir@ },
            Action::Alias { dir } => ActionV::Alias { dir: dir@ },
            Action::Metrics => ActionV::Metrics,
            Action::TryFiles { root, entries } => ActionV::TryFiles {
                root: root@,
                entries: views(entries@),
            },
        }
    }
}

/// One rule of a `map`.
#[derive(Debug, Clone)]
pub struct MapRule {
    pub pattern: MapPattern,
    /// Result template — may itself reference variables.
    pub value: Template,
}

/// Model of a [`MapRule`].
pub struct MapRuleV {
    pub pattern: MapPatternV,
    pub value: Seq<SegmentV>,
}

impl View for MapRule {
    type V = MapRuleV;

    open spec fn view(&self) -> MapRuleV {
        MapRuleV {
            pattern: self.pattern@,
            value: self.value@,
        }
    }
}

/// `map $source $output { … }`.
#[derive(Debug, Clone)]
pub struct MapDecl {
    /// Template evaluated against the standard variable set to produce
    /// the value to look up in `rules`.
    pub source: Template,
    /// Name to publish — usable as `$output_name` in other templates.
    pub output_name: String,
    /// Patterns in declaration order. First matching literal wins;
    /// `default` is consulted last.
    pub rules: Vec<MapRule>,
}

/// Model of a [`MapDecl`].
pub struct MapDeclV {
    pub source: Seq<SegmentV>,
    pub output_name: Seq<char>,
    pub rules: Seq<MapRuleV>,
}

impl View for MapDecl {
    type V = MapDeclV;

    open spec fn view(&self) -> MapDeclV {
        MapDeclV {
            source: self.source@,
            output_name: self.output_name@,
            rules: views(self.rules@),
        }
    }
}

/// `limit_conn_zone <key> zone=NAME:SIZE;`.
#[derive(Debug, Clone)]
pub struct LimitConnZoneDecl {
    pub name: String,
    pub key_template: Template,
    pub max_entries: usize,
}

/// Model of a [`LimitConnZoneDecl`].
pub struct LimitConnZoneDeclV {
    pub name: Seq<char>,
    pub key_template: Seq<SegmentV>,
    pub max_entries: usize,
}

impl View for LimitConnZoneDecl {
    type V = LimitConnZoneDeclV;

    open spec fn view(&self) -> LimitConnZoneDeclV {
        LimitConnZoneDeclV {
            name: self.name@,
            key_template: self.key_template@,
            max_entries: self.max_entries,
        }
    }
}

/// `limit_req_zone <key> zone=NAME:SIZE rate=Nr/s;`.
#[derive(Debug, Clone)]
pub struct LimitReqZoneDecl {
    pub name: String,
    pub key_template: Template,
    pub rate: Rate,
    pub max_entries: usize,
}

/// Model of a [`LimitReqZoneDecl`].
pub struct LimitReqZoneDeclV {
    pub name: Seq<char>,
    pub key_template: Seq<SegmentV>,
    pub rate: RateV,
    pub max_entries: usize,
}

impl View for LimitReqZoneDecl {
    type V = LimitReqZoneDeclV;

    open spec fn view(&self) -> LimitReqZoneDeclV {
        LimitReqZoneDeclV {
            name: self.name@,
            key_template: self.key_template@,
            rate: self.rate@,
            max_entries: self.max_entries,
        }
    }
}

/// `proxy_cache_path … keys_zone=NAME:SIZE …;`.
#[derive(Debug, Clone)]
pub struct CacheZone {
    pub name: String,
    pub max_bytes: usize,
}

/// Model of a [`CacheZone`].
pub struct CacheZoneV {
    pub name: Seq<char>,
    pub max_bytes: usize,
}

impl View for CacheZone {
    type V = CacheZoneV;

    open spec fn view(&self) -> CacheZoneV {
        CacheZoneV {
            name: self.name@,
            max_bytes: self.max_bytes,
        }
    }
}

/// Active health-check probe configuration.
#[derive(Debug, Clone)]
pub struct HealthCheckCfg {
    pub uri: String,
    pub interval: Duration,
    pub timeout: Duration,
    pub fails: u32,
    pub passes: u32,
    pub expected_status: u16,
}

/// Model of a [`HealthCheckCfg`].
pub struct HealthCheckCfgV {
    pub uri: Seq<char>,
    pub interval: Duration,
    pub timeout: Duration,
    pub fails: u32,
    pub passes: u32,
    pub expected_status: u16,
}

impl View for HealthCheckCfg {
    type V = HealthCheckCfgV;

    open spec fn view(&self) -> HealthCheckCfgV {
        HealthCheckCfgV {
            uri: self.uri@,
            interval: self.interval,
            timeout: self.timeout,
            fails: self.fails,
            passes: self.passes,
            expected_status: self.expected_status,
        }
    }
}

/// One `server` line of an `upstream`.
#[derive(Debug)]
pub struct UpstreamServer {
    pub addr: String,
    pub weight: u32,
    pub max_fails: u32,
    pub fail_timeout: Duration,
    pub backup: bool,
    pub down: bool,
}

/// Model of a [`UpstreamServer`].
pub struct UpstreamServerV {
    pub addr: Seq<char>,
    pub weight: u32,
    pub max_fails: u32,
    pub fail_timeout: Duration,
    pub backup: bool,
    pub down: bool,
}

impl View for UpstreamServer {
    type V = UpstreamServerV;

    open spec fn view(&self) -> UpstreamServerV {
        UpstreamServerV {
            addr: self.addr@,
            weight: self.weight,
            max_fails: self.max_fails,
            fail_timeout: self.fail_timeout,
            backup: self.backup,
            down: self.down,
        }
    }
}

/// A named group of servers.
#[derive(Debug)]
pub struct Upstream {
    pub name: String,
    pub method: LbMethod,
    pub servers: Vec<UpstreamServer>,
    /// Active health-check probe configuration. `None` disables active
    /// checks (only passive `max_fails`/`fail_timeout` applies).
    pub health_check: Option<HealthCheckCfg>,
}

/// Model of a [`Upstream`].
pub struct UpstreamV {
    pub name: Seq<char>,
    pub method: LbMethod,
    pub servers: Seq<UpstreamServerV>,
    pub health_check: Option<HealthCheckCfgV>,
}

impl View for Upstream {
    type V = UpstreamV;

    open spec fn view(&self) -> UpstreamV {
        UpstreamV {
            name: self.name@,
            method: self.method,
            servers: views(self.servers@),
            health_check: opt_view(self.health_check),
        }
    }
}

/// One `server` block of the `stream` context.
#[derive(Debug)]
pub struct StreamServer {
    pub listen: Option<SocketAddr>,
    pub proxy_pass: Option<String>,
    /// `true` for datagram listeners.
    pub udp: bool,
}

/// Model of a [`StreamServer`].
pub struct StreamServerV {
    pub listen: Option<SocketAddr>,
    pub proxy_pass: Option<Seq<char>>,
    pub udp: bool,
}

impl View for StreamServer {
    type V = StreamServerV;

    open spec fn view(&self) -> StreamServerV {
        StreamServerV {
            listen: self.listen,
            proxy_pass: opt_view(self.proxy_pass),
            udp: self.udp,
        }
    }
}

/// Top-level `stream { … }` block — TCP/UDP proxying.
#[derive(Debug)]
pub struct Stream {
    pub upstreams: Vec<Upstream>,
    pub servers: Vec<StreamServer>,
}

/// Model of a [`Stream`].
pub struct StreamV {
    pub upstreams: Seq<UpstreamV>,
    pub servers: Seq<StreamServerV>,
}

impl View for Stream {
    type V = StreamV;

    open spec fn view(&self) -> StreamV {
        StreamV {
            upstreams: views(self.upstreams@),
            servers: views(self.servers@),
        }
    }
}

/// A `location` block.
#[derive(Debug)]
pub struct Location {
    pub kind: LocationKind,
    pub path: String,
    pub action: Action,
    pub set_headers: Vec<(String, Template)>,
    pub add_headers: Vec<(String, Template)>,
    /// `expires <duration>;` — applied to outgoing responses as both
    /// `Cache-Control: max-age=N` and `Expires: <date>`.
    pub expires: Option<Duration>,
    /// Per-location `gzip on|off;` override. `None` falls back to the
    /// server-level setting.
    pub gzip: Option<bool>,
    /// `autoindex on|off;` — render a directory listing when the path
    /// resolves to a directory and no `index.html` is present.
    pub autoindex: bool,
    /// `auth_basic <realm>;` — HTTP Basic auth realm.
    pub auth_basic_realm: Option<String>,
    /// `auth_basic_user_file <path>;` — htpasswd-style file (bcrypt only).
    pub auth_basic_user_file: Option<String>,
    /// `limit_req zone=NAME [burst=N];`.
    pub limit_req: Option<(String, u32)>,
    /// `limit_conn zone=NAME N;`.
    pub limit_conn: Option<(String, u32)>,
    /// `allow X;` / `deny X;` rules in declaration order. First matching
    /// rule decides; an empty list lets everyone in.
    pub access_rules: Vec<(bool, String)>,
    /// `proxy_cache <zone_name>;` — enables caching for this location.
    pub proxy_cache: Option<String>,
    /// `proxy_cache_key <template>;`.
    pub proxy_cache_key: Option<Template>,
    /// One entry per `proxy_cache_valid` directive: `(status codes, ttl)`.
    /// An empty `codes` list means "any status".
    pub proxy_cache_valid: Vec<(Vec<u16>, Duration)>,
    /// `proxy_connect_timeout <duration>;`.
    pub proxy_connect_timeout: Option<Duration>,
    /// `proxy_read_timeout <duration>;`.
    pub proxy_read_timeout: Option<Duration>,
    /// `auth_request <url>;` — delegate authorization to an HTTP service.
    pub auth_request: Option<Template>,
    /// `mirror <url>;` — fire-and-forget shadow requests.
    pub mirrors: Vec<Template>,
    /// `proxy_ssl_verify on|off;` — verify the upstream's certificate.
    pub proxy_ssl_verify: bool,
    /// `proxy_ssl_certificate <path>;`.
    pub proxy_ssl_certificate: Option<String>,
    /// `proxy_ssl_certificate_key <path>;`.
    pub proxy_ssl_certificate_key: Option<String>,
}

/// Model of a [`Location`].
pub struct LocationV {
    pub kind: LocationKindV,
    pub path: Seq<char>,
    pub action: ActionV,
    pub set_headers: Seq<(Seq<char>, Seq<SegmentV>)>,
    pub add_headers: Seq<(Seq<char>, Seq<SegmentV>)>,
    pub expires: Option<Duration>,
    pub gzip: Option<bool>,
    pub autoindex: bool,
    pub auth_basic_realm: Option<Seq<char>>,
    pub auth_basic_user_file: Option<Seq<char>>,
    pub limit_req: Option<(Seq<char>, u32)>,
    pub limit_conn: Option<(Seq<char>, u32)>,
    pub access_rules: Seq<(bool, Seq<char>)>,
    pub proxy_cache: Option<Seq<char>>,
    pub proxy_cache_key: Option<Seq<SegmentV>>,
    pub proxy_cache_valid: Seq<(Seq<u16>, Duration)>,
    pub proxy_connect_timeout: Option<Duration>,
    pub proxy_read_timeout: Option<Duration>,
    pub auth_request: Option<Seq<SegmentV>>,
    pub mirrors: Seq<Seq<SegmentV>>,
    pub proxy_ssl_verify: bool,
    pub proxy_ssl_certificate: Option<Seq<char>>,
    pub proxy_ssl_certificate_key: Option<Seq<char>>,
}

impl View for Location {
    type V = LocationV;

    open spec fn view(&self) -> LocationV {
        LocationV {
            kind: self.kind@,
            path: self.path@,
            action: self.action@,
            set_headers: views(self.set_headers@),
            add_headers: views(self.add_headers@),
            expires: self.expires,
            gzip: self.gzip,
            autoindex: self.autoindex,
            auth_basic_realm: opt_view(self.auth_basic_realm),
            auth_basic_user_file: opt_view(self.auth_basic_user_file),
            limit_req: opt_view(self.limit_req),
            limit_conn: opt_view(self.limit_conn),
            access_rules: views(self.access_rules@),
            proxy_cache: opt_view(self.proxy_cache),
            proxy_cache_key: opt_view(self.proxy_cache_key),
            proxy_cache_valid: views(self.proxy_cache_valid@),
            proxy_connect_timeout: self.proxy_connect_timeout,
            proxy_read_timeout: self.proxy_read_timeout,
            auth_request: opt_view(self.auth_request),
            mirrors: views(self.mirrors@),
            proxy_ssl_verify: self.proxy_ssl_verify,
            proxy_ssl_certificate: opt_view(self.proxy_ssl_certificate),
            proxy_ssl_certificate_key: opt_view(self.proxy_ssl_certificate_key),
        }
    }
}

/// A `server` block of the `http` context.
#[derive(Debug)]
pub struct Server {
    pub listen: Option<SocketAddr>,
    pub server_name: Option<String>,
    pub root: Option<String>,
    pub locations: Vec<Location>,
    /// `true` if `listen ... ssl;` was specified. Requires `ssl_certificate`
    /// and `ssl_certificate_key`.
    pub tls: bool,
    /// `true` if `listen ... http3;` was specified, which implies `tls`.
    pub http3: bool,
    pub ssl_certificate: Option<String>,
    pub ssl_certificate_key: Option<String>,
    /// `ssl_protocols …;`. Empty means the defaults.
    pub ssl_protocols: Vec<TlsVersion>,
    /// `gzip on|off;` at server level. Cascades into locations that don't
    /// override it. `None` is treated as off.
    pub gzip: Option<bool>,
    /// Additional MIME types eligible for on-the-fly gzip.
    pub gzip_types: Vec<String>,
    /// `gzip_min_length <N>;`.
    pub gzip_min_length: Option<usize>,
    /// `client_max_body_size <size>;`. `0` means unlimited.
    pub client_max_body_size: Option<usize>,
    /// Server-level `add_header` directives. Cascade into every location;
    /// location-level `add_header` is applied last and wins on conflicts.
    pub add_headers: Vec<(String, Template)>,
}

/// Model of a [`Server`].
pub struct ServerV {
    pub listen: Option<SocketAddr>,
    pub server_name: Option<Seq<char>>,
    pub root: Option<Seq<char>>,
    pub locations: Seq<LocationV>,
    pub tls: bool,
    pub http3: bool,
    pub ssl_certificate: Option<Seq<char>>,
    pub ssl_certificate_key: Option<Seq<char>>,
    pub ssl_protocols: Seq<TlsVersion>,
    pub gzip: Option<bool>,
    pub gzip_types: Seq<Seq<char>>,
    pub gzip_min_length: Option<usize>,
    pub client_max_body_size: Option<usize>,
    pub add_headers: Seq<(Seq<char>, Seq<SegmentV>)>,
}

impl View for Server {
    type V = ServerV;

    open spec fn view(&self) -> ServerV {
        ServerV {
            listen: self.listen,
            server_name: opt_view(self.server_name),
            root: opt_view(self.root),
            locations: views(self.locations@),
            tls: self.tls,
            http3: self.http3,
            ssl_certificate: opt_view(self.ssl_certificate),
            ssl_certificate_key: opt_view(self.ssl_certificate_key),
            ssl_protocols: views(self.ssl_protocols@),
            gzip: self.gzip,
            gzip_types: views(self.gzip_types@),
            gzip_min_length: self.gzip_min_length,
            client_max_body_size: self.client_max_body_size,
            add_headers: views(self.add_headers@),
        }
    }
}

/// Top-level `http { … }` block.
#[derive(Debug)]
pub struct Http {
    pub access_log: Option<String>,
    pub upstreams: Vec<Upstream>,
    pub servers: Vec<Server>,
    /// `proxy_cache_path … keys_zone=NAME:SIZE …;` zone declarations.
    pub cache_zones: Vec<CacheZone>,
    /// `limit_req_zone … zone=NAME:SIZE rate=Nr/s;` zone declarations.
    pub limit_req_zones: Vec<LimitReqZoneDecl>,
    /// `limit_conn_zone <key> zone=NAME:SIZE;` zone declarations.
    pub limit_conn_zones: Vec<LimitConnZoneDecl>,
    /// `map $source $output { … }` declarations. Evaluated once per
    /// request, before the location-level templates run.
    pub maps: Vec<MapDecl>,
    /// `gzip`, `gzip_types`, `gzip_min_length` and `client_max_body_size`
    /// outside of any server. Each applies to the servers that do not set it.
    pub gzip: Option<bool>,
    pub gzip_types: Vec<String>,
    pub gzip_min_length: Option<usize>,
    pub client_max_body_size: Option<usize>,
}

/// Model of a [`Http`].
pub struct HttpV {
    pub access_log: Option<Seq<char>>,
    pub upstreams: Seq<UpstreamV>,
    pub servers: Seq<ServerV>,
    pub cache_zones: Seq<CacheZoneV>,
    pub limit_req_zones: Seq<LimitReqZoneDeclV>,
    pub limit_conn_zones: Seq<LimitConnZoneDeclV>,
    pub maps: Seq<MapDeclV>,
    pub gzip: Option<bool>,
    pub gzip_types: Seq<Seq<char>>,
    pub gzip_min_length: Option<usize>,
    pub client_max_body_size: Option<usize>,
}

impl View for Http {
    type V = HttpV;

    open spec fn view(&self) -> HttpV {
        HttpV {
            access_log: opt_view(self.access_log),
            upstreams: views(self.upstreams@),
            servers: views(self.servers@),
            cache_zones: views(self.cache_zones@),
            limit_req_zones: views(self.limit_req_zones@),
            limit_conn_zones: views(self.limit_conn_zones@),
            maps: views(self.maps@),
            gzip: self.gzip,
            gzip_types: views(self.gzip_types@),
            gzip_min_length: self.gzip_min_length,
            client_max_body_size: self.client_max_body_size,
        }
    }
}

/// A whole configuration file.
#[derive(Debug)]
pub struct Config {
    pub worker_processes: Option<String>,
    pub pid: Option<String>,
    pub error_log: Option<String>,
    /// `user <name> [group];` — identity to drop to after binding.
    pub user: Option<String>,
    pub group: Option<String>,
    pub worker_rlimit_nofile: Option<u64>,
    pub http: Option<Http>,
    pub stream: Option<Stream>,
}

/// Model of a [`Config`].
pub struct ConfigV {
    pub worker_processes: Option<Seq<char>>,
    pub pid: Option<Seq<char>>,
    pub error_log: Option<Seq<char>>,
    pub user: Option<Seq<char>>,
    pub group: Option<Seq<char>>,
    pub worker_rlimit_nofile: Option<u64>,
    pub http: Option<HttpV>,
    pub stream: Option<StreamV>,
}

impl View for Config {
    type V = ConfigV;

    open spec fn view(&self) -> ConfigV {
        ConfigV {
            worker_processes: opt_view(self.worker_processes),
            pid: opt_view(self.pid),
            error_log: opt_view(self.error_log),
            user: opt_view(self.user),
            group: opt_view(self.group),
            worker_rlimit_nofile: self.worker_rlimit_nofile,
            http: opt_view(self.http),
            stream: opt_view(self.stream),
        }
    }
}

/// The probe settings that apply where `health_check` names none.
pub open spec fn default_health_check() -> HealthCheckCfgV {
    HealthCheckCfgV {
        uri: "/"@,
        interval: of_secs(5),
        timeout: of_secs(2),
        fails: 2,
        passes: 2,
        expected_status: 200,
    }
}

impl Default for HealthCheckCfg {
    fn default() -> (r: HealthCheckCfg)
        ensures
            r@ == default_health_check(),
    {
        HealthCheckCfg {
            uri: "/".to_owned(),
            interval: Duration::from_secs(5),
            timeout: Duration::from_secs(2),
            fails: 2,
            passes: 2,
            expected_status: 200,
        }
    }
}

/// The settings of an upstream server at `addr` without flags: one failure
/// takes it out for ten seconds.
pub open spec fn plain_server(addr: Seq<char>) -> UpstreamServerV {
    UpstreamServerV {
        addr,
        weight: 1,
        max_fails: 1,
        fail_timeout: of_secs(10),
        backup: false,
        down: false,
    }
}

impl Default for UpstreamServer {
    fn default() -> (r: UpstreamServer)
        ensures
            r@ == plain_server(seq![]),
    {
        UpstreamServer {
            addr: String::new(),
            weight: 1,
            max_fails: 1,
            fail_timeout: Duration::from_secs(10),
            backup: false,
            down: false,
        }
    }
}

/// A StreamServer in which nothing has been set.
pub open spec fn empty_stream_server() -> StreamServerV {
    StreamServerV {
        listen: None,
        proxy_pass: None,
        udp: false,
    }
}

impl Default for StreamServer {
    fn default() -> (r: StreamServer)
        ensures
            r@ == empty_stream_server(),
    {
        let r = StreamServer {
            listen: None,
            proxy_pass: None,
            udp: false,
        };
        r
    }
}

/// A Stream in which nothing has been set.
pub open spec fn empty_stream() -> StreamV {
    StreamV {
        upstreams: seq![],
        servers: seq![],
    }
}

impl Default for Stream {
    fn default() -> (r: Stream)
        ensures
            r@ == empty_stream(),
    {
        let r = Stream {
            upstreams: Vec::new(),
            servers: Vec::new(),
        };
        assert(views(r.upstreams@) =~= seq![]);
        assert(views(r.servers@) =~= seq![]);
        r
    }
}

/// A Server in which nothing has been set.
pub open spec fn empty_server() -> ServerV {
    ServerV {
        listen: None,
        server_name: None,
        root: None,
        locations: seq![],
        tls: false,
        http3: false,
        ssl_certificate: None,
        ssl_certificate_key: None,
        ssl_protocols: seq![],
        gzip: None,
        gzip_types: seq![],
        gzip_min_length: None,
        client_max_body_size: None,
        add_headers: seq![],
    }
}

impl Default for Server {
    fn default() -> (r: Server)
        ensures
            r@ == empty_server(),
    {
        let r = Server {
            listen: None,
            server_name: None,
            root: None,
            locations: Vec::new(),
            tls: false,
            http3: false,
            ssl_certificate: None,
            ssl_certificate_key: None,
            ssl_protocols: Vec::new(),
            gzip: None,
            gzip_types: Vec::new(),
            gzip_min_length: None,
            client_max_body_size: None,
            add_headers: Vec::new(),
        };
        assert(views(r.locations@) =~= seq![]);
        assert(views(r.ssl_protocols@) =~= seq![]);
        assert(views(r.gzip_types@) =~= seq![]);
        assert(views(r.add_headers@) =~= seq![]);
        r
    }
}

/// A Http in which nothing has been set.
pub open spec fn empty_http() -> HttpV {
    HttpV {
        access_log: None,
        upstreams: seq![],
        servers: seq![],
        cache_zones: seq![],
        limit_req_zones: seq![],
        limit_conn_zones: seq![],
        maps: seq![],
        gzip: None,
        gzip_types: seq![],
        gzip_min_length: None,
        client_max_body_size: None,
    }
}

impl Default for Http {
    fn default() -> (r: Http)
        ensures
            r@ == empty_http(),
    {
        let r = Http {
            access_log: None,
            upstreams: Vec::new(),
            servers: Vec::new(),
            cache_zones: Vec::new(),
            limit_req_zones: Vec::new(),
            limit_conn_zones: Vec::new(),
            maps: Vec::new(),
            gzip: None,
            gzip_types: Vec::new(),
            gzip_min_length: None,
            client_max_body_size: None,
        };
        assert(views(r.gzip_types@) =~= seq![]);
        assert(views(r.upstreams@) =~= seq![]);
        assert(views(r.servers@) =~= seq![]);
        assert(views(r.cache_zones@) =~= seq![]);
        assert(views(r.limit_req_zones@) =~= seq![]);
        assert(views(r.limit_conn_zones@) =~= seq![]);
        assert(views(r.maps@) =~= seq![]);
        r
    }
}

/// A Config in which nothing has been set.
pub open spec fn empty_config() -> ConfigV {
    ConfigV {
        worker_processes: None,
        pid: None,
        error_log: None,
        user: None,
        group: None,
        worker_rlimit_nofile: None,
        http: None,
        stream: None,
    }
}

impl Default for Config {
    fn default() -> (r: Config)
        ensures
            r@ == empty_config(),
    {
        let r = Config {
            worker_processes: None,
            pid: None,
            error_log: None,
            user: None,
            group: None,
            worker_rlimit_nofile: None,
            http: None,
            stream: None,
        };
        r
    }
}

} // verus!
