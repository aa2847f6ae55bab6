//! Process-wide metrics, exposed in Prometheus text-exposition format.
//!
//! Counters wrap around like the hardware counters they are meant to live in.
//! The `/metrics` endpoint is plumbed through the configuration via the
//! `metrics;` content directive in a `location` block.

use crate::text::{decimal, push_decimal};
use vstd::prelude::*;
use vstd::string::*;

verus! {

/// Every counter and gauge of the process.
#[derive(Debug, Clone, Copy, PartialEq, Eq, Structural)]
pub struct Metrics {
    /// When the process started, in nanoseconds on a monotonic clock.
    pub start: Option<u64>,
    pub requests: u64,
    pub resp_1xx: u64,
    pub resp_2xx: u64,
    pub resp_3xx: u64,
    pub resp_4xx: u64,
    pub resp_5xx: u64,
    pub conns_accepted: u64,
    pub active_conns: u64,
    pub proxy_attempts: u64,
    pub proxy_failures: u64,
    pub tls_ok: u64,
    pub tls_fail: u64,
    pub stream_accepted: u64,
    pub stream_active: u64,
    pub stream_bytes_to_up: u64,
    pub stream_bytes_from_up: u64,
    pub cache_hits: u64,
    pub cache_misses: u64,
    pub cache_bypass: u64,
    pub cache_bytes: u64,
    pub cache_entries: u64,
    pub cache_evicted_bytes: u64,
    pub limit_req_allowed: u64,
    pub limit_req_denied: u64,
    pub limit_conn_allowed: u64,
    pub limit_conn_denied: u64,
    pub mirror_attempts: u64,
    pub mirror_failures: u64,
}

/// Metrics in which nothing has been counted.
pub open spec fn no_metrics() -> Metrics {
    Metrics {
        start: None,
        requests: 0,
        resp_1xx: 0,
        resp_2xx: 0,
        resp_3xx: 0,
        resp_4xx: 0,
        resp_5xx: 0,
        conns_accepted: 0,
        active_conns: 0,
        proxy_attempts: 0,
        proxy_failures: 0,
        tls_ok: 0,
        tls_fail: 0,
        stream_accepted: 0,
        stream_active: 0,
        stream_bytes_to_up: 0,
        stream_bytes_from_up: 0,
        cache_hits: 0,
        cache_misses: 0,
        cache_bypass: 0,
        cache_bytes: 0,
        cache_entries: 0,
        cache_evicted_bytes: 0,
        limit_req_allowed: 0,
        limit_req_denied: 0,
        limit_conn_allowed: 0,
        limit_conn_denied: 0,
        mirror_attempts: 0,
        mirror_failures: 0,
    }
}

impl Default for Metrics {
    fn default() -> (m: Metrics)
        ensures
            m == no_metrics(),
    {
        Metrics {
            start: None,
            requests: 0,
            resp_1xx: 0,
            resp_2xx: 0,
            resp_3xx: 0,
            resp_4xx: 0,
            resp_5xx: 0,
            conns_accepted: 0,
            active_conns: 0,
            proxy_attempts: 0,
            proxy_failures: 0,
            tls_ok: 0,
            tls_fail: 0,
            stream_accepted: 0,
            stream_active: 0,
            stream_bytes_to_up: 0,
            stream_bytes_from_up: 0,
            cache_hits: 0,
            cache_misses: 0,
            cache_bypass: 0,
            cache_bytes: 0,
            cache_entries: 0,
            cache_evicted_bytes: 0,
            limit_req_allowed: 0,
            limit_req_denied: 0,
            limit_conn_allowed: 0,
            limit_conn_denied: 0,
            mirror_attempts: 0,
            mirror_failures: 0,
        }
    }
}

/// Install the process-start timestamp, in nanoseconds. Safe to call multiple
/// times: the first call counts.
pub fn init(m: &mut Metrics, now: u64)
    ensures
        *final(m) == (Metrics {
            start: if old(m).start is None {
                Some(now)
            } else {
                old(m).start
            },
            ..*old(m)
        }),
{
    if m.start.is_none() {
        m.start = Some(now);
    }
}

/// The metrics after one request with the given status. Anything outside the
/// first four classes counts as a server error.
pub open spec fn with_request(m: Metrics, status: u16) -> Metrics {
    let n = Metrics { requests: m.requests.wrapping_add(1), ..m };
    if status / 100 == 1 {
        Metrics { resp_1xx: m.resp_1xx.wrapping_add(1), ..n }
    } else if status / 100 == 2 {
        Metrics { resp_2xx: m.resp_2xx.wrapping_add(1), ..n }
    } else if status / 100 == 3 {
        Metrics { resp_3xx: m.resp_3xx.wrapping_add(1), ..n }
    } else if status / 100 == 4 {
        Metrics { resp_4xx: m.resp_4xx.wrapping_add(1), ..n }
    } else {
        Metrics { resp_5xx: m.resp_5xx.wrapping_add(1), ..n }
    }
}

/// Record one request and its response status class.
pub fn record_request(m: &mut Metrics, status: u16)
    ensures
        *final(m) == with_request(*old(m), status),
{
    m.requests = m.requests.wrapping_add(1);
    let class: u16 = status / 100;
    if class == 1 {
        m.resp_1xx = m.resp_1xx.wrapping_add(1);
    } else if class == 2 {
        m.resp_2xx = m.resp_2xx.wrapping_add(1);
    } else if class == 3 {
        m.resp_3xx = m.resp_3xx.wrapping_add(1);
    } else if class == 4 {
        m.resp_4xx = m.resp_4xx.wrapping_add(1);
    } else {
        m.resp_5xx = m.resp_5xx.wrapping_add(1);
    }
}

pub fn record_conn_accepted(m: &mut Metrics)
    ensures
        *final(m) == (Metrics { conns_accepted: old(m).conns_accepted.wrapping_add(1), ..*old(m) }),
{
    m.conns_accepted = m.conns_accepted.wrapping_add(1);
}

pub fn record_proxy_attempt(m: &mut Metrics)
    ensures
        *final(m) == (Metrics { proxy_attempts: old(m).proxy_attempts.wrapping_add(1), ..*old(m) }),
{
    m.proxy_attempts = m.proxy_attempts.wrapping_add(1);
}

pub fn record_proxy_failure(m: &mut Metrics)
    ensures
        *final(m) == (Metrics { proxy_failures: old(m).proxy_failures.wrapping_add(1), ..*old(m) }),
{
    m.proxy_failures = m.proxy_failures.wrapping_add(1);
}

pub fn record_tls_handshake_success(m: &mut Metrics)
    ensures
        *final(m) == (Metrics { tls_ok: old(m).tls_ok.wrapping_add(1), ..*old(m) }),
{
    m.tls_ok = m.tls_ok.wrapping_add(1);
}

pub fn record_tls_handshake_failure(m: &mut Metrics)
    ensures
        *final(m) == (Metrics { tls_fail: old(m).tls_fail.wrapping_add(1), ..*old(m) }),
{
    m.tls_fail = m.tls_fail.wrapping_add(1);
}

pub fn record_stream_accepted(m: &mut Metrics)
    ensures
        *final(m) == (Metrics { stream_accepted: old(m).stream_accepted.wrapping_add(1), ..*old(m) }),
{
    m.stream_accepted = m.stream_accepted.wrapping_add(1);
}

pub fn record_cache_hit(m: &mut Metrics)
    ensures
        *final(m) == (Metrics { cache_hits: old(m).cache_hits.wrapping_add(1), ..*old(m) }),
{
    m.cache_hits = m.cache_hits.wrapping_add(1);
}

pub fn record_cache_miss(m: &mut Metrics)
    ensures
        *final(m) == (Metrics { cache_misses: old(m).cache_misses.wrapping_add(1), ..*old(m) }),
{
    m.cache_misses = m.cache_misses.wrapping_add(1);
}

pub fn record_cache_bypass(m: &mut Metrics)
    ensures
        *final(m) == (Metrics { cache_bypass: old(m).cache_bypass.wrapping_add(1), ..*old(m) }),
{
    m.cache_bypass = m.cache_bypass.wrapping_add(1);
}

pub fn record_limit_req_allowed(m: &mut Metrics)
    ensures
        *final(m) == (Metrics { limit_req_allowed: old(m).limit_req_allowed.wrapping_add(1), ..*old(m) }),
{
    m.limit_req_allowed = m.limit_req_allowed.wrapping_add(1);
}

pub fn record_limit_req_denied(m: &mut Metrics)
    ensures
        *final(m) == (Metrics { limit_req_denied: old(m).limit_req_denied.wrapping_add(1), ..*old(m) }),
{
    m.limit_req_denied = m.limit_req_denied.wrapping_add(1);
}

pub fn record_limit_conn_allowed(m: &mut Metrics)
    ensures
        *final(m) == (Metrics { limit_conn_allowed: old(m).limit_conn_allowed.wrapping_add(1), ..*old(m) }),
{
    m.limit_conn_allowed = m.limit_conn_allowed.wrapping_add(1);
}

pub fn record_limit_conn_denied(m: &mut Metrics)
    ensures
        *final(m) == (Metrics { limit_conn_denied: old(m).limit_conn_denied.wrapping_add(1), ..*old(m) }),
{
    m.limit_conn_denied = m.limit_conn_denied.wrapping_add(1);
}

pub fn record_mirror_attempt(m: &mut Metrics)
    ensures
        *final(m) == (Metrics { mirror_attempts: old(m).mirror_attempts.wrapping_add(1), ..*old(m) }),
{
    m.mirror_attempts = m.mirror_attempts.wrapping_add(1);
}

pub fn record_mirror_failure(m: &mut Metrics)
    ensures
        *final(m) == (Metrics { mirror_failures: old(m).mirror_failures.wrapping_add(1), ..*old(m) }),
{
    m.mirror_failures = m.mirror_failures.wrapping_add(1);
}

pub fn record_stream_bytes(m: &mut Metrics, to_upstream: u64, from_upstream: u64)
    ensures
        *final(m) == (Metrics {
            stream_bytes_to_up: old(m).stream_bytes_to_up.wrapping_add(to_upstream),
            stream_bytes_from_up: old(m).stream_bytes_from_up.wrapping_add(from_upstream),
            ..*old(m)
        }),
{
    m.stream_bytes_to_up = m.stream_bytes_to_up.wrapping_add(to_upstream);
    m.stream_bytes_from_up = m.stream_bytes_from_up.wrapping_add(from_upstream);
}

pub fn record_cache_evict(m: &mut Metrics, bytes: usize)
    ensures
        *final(m) == (Metrics {
            cache_evicted_bytes: old(m).cache_evicted_bytes.wrapping_add(bytes as u64),
            ..*old(m)
        }),
{
    m.cache_evicted_bytes = m.cache_evicted_bytes.wrapping_add(bytes as u64);
}

pub fn set_cache_bytes(m: &mut Metrics, v: u64)
    ensures
        *final(m) == (Metrics { cache_bytes: v, ..*old(m) }),
{
    m.cache_bytes = v;
}

pub fn set_cache_entries(m: &mut Metrics, v: u64)
    ensures
        *final(m) == (Metrics { cache_entries: v, ..*old(m) }),
{
    m.cache_entries = v;
}

/// The metrics with one more stream connection open.
pub open spec fn stream_opened(m: Metrics) -> Metrics {
    Metrics { stream_active: m.stream_active.wrapping_add(1), ..m }
}

/// The metrics with one stream connection less.
pub open spec fn stream_closed(m: Metrics) -> Metrics {
    Metrics { stream_active: m.stream_active.wrapping_sub(1), ..m }
}

/// The metrics with one more client connection open.
pub open spec fn conn_opened(m: Metrics) -> Metrics {
    Metrics { active_conns: m.active_conns.wrapping_add(1), ..m }
}

/// The metrics with one client connection less.
pub open spec fn conn_closed(m: Metrics) -> Metrics {
    Metrics { active_conns: m.active_conns.wrapping_sub(1), ..m }
}

/// Token for one open stream (TCP-proxy) connection.
#[derive(Debug)]
pub struct StreamConnGuard {
    open: bool,
}

impl StreamConnGuard {
    pub fn new(m: &mut Metrics) -> (g: StreamConnGuard)
        ensures
            *final(m) == stream_opened(*old(m)),
    {
        m.stream_active = m.stream_active.wrapping_add(1);
        StreamConnGuard { open: true }
    }

    /// The connection has ended.
    pub fn release(self, m: &mut Metrics)
        ensures
            *final(m) == stream_closed(*old(m)),
    {
        m.stream_active = m.stream_active.wrapping_sub(1);
    }
}

/// Token for one open client connection: the active-connection gauge goes up
/// on construction and down when the token is handed back.
#[derive(Debug)]
pub struct ConnGuard {
    open: bool,
}

impl ConnGuard {
    pub fn new(m: &mut Metrics) -> (g: ConnGuard)
        ensures
            *final(m) == conn_opened(*old(m)),
    {
        m.active_conns = m.active_conns.wrapping_add(1);
        ConnGuard { open: true }
    }

    /// The connection has ended.
    pub fn release(self, m: &mut Metrics)
        ensures
            *final(m) == conn_closed(*old(m)),
    {
        m.active_conns = m.active_conns.wrapping_sub(1);
    }
}

// ---------------------------------------------------------------------------
// Exposition
// ---------------------------------------------------------------------------

/// The two lines that introduce a metric.
pub open spec fn heading(name: Seq<char>, help: Seq<char>, kind: Seq<char>) -> Seq<char> {
    "# HELP "@ + name + " "@ + help + "\n# TYPE "@ + name + " "@ + kind + "\n"@
}

/// A metric with one sample.
pub open spec fn sample(name: Seq<char>, value: u64, help: Seq<char>, kind: Seq<char>) -> Seq<char> {
    heading(name, help, kind) + name + " "@ + decimal(value as nat) + "\n"@
}

fn push_heading(out: &mut String, name: &str, help: &str, kind: &str)
    ensures
        final(out)@ == old(out)@ + heading(name@, help@, kind@),
{
    let ghost start = out@;
    out.append("# HELP ");
    out.append(name);
    out.append(" ");
    out.append(help);
    out.append("\n# TYPE ");
    out.append(name);
    out.append(" ");
    out.append(kind);
    out.append("\n");
    assert(out@ =~= start + heading(name@, help@, kind@));
}

fn push_sample(out: &mut String, name: &str, value: u64, help: &str, kind: &str)
    ensures
        final(out)@ == old(out)@ + sample(name@, value, help@, kind@),
{
    let ghost start = out@;
    push_heading(out, name, help, kind);
    out.append(name);
    out.append(" ");
    push_decimal(out, value);
    out.append("\n");
    assert(out@ =~= start + sample(name@, value, help@, kind@));
}

/// The number of responses of one status class.
pub open spec fn class_line(class: Seq<char>, value: u64) -> Seq<char> {
    "elrond_responses_total{status_class=\""@ + class + "\"} "@ + decimal(value as nat) + "\n"@
}

fn push_class(out: &mut String, class: &str, value: u64)
    ensures
        final(out)@ == old(out)@ + class_line(class@, value),
{
    let ghost start = out@;
    out.append("elrond_responses_total{status_class=\"");
    out.append(class);
    out.append("\"} ");
    push_decimal(out, value);
    out.append("\n");
    assert(out@ =~= start + class_line(class@, value));
}

/// Nanoseconds from the start to `now`; `0` before [`init`].
pub open spec fn uptime_nanos(m: Metrics, now: u64) -> u64 {
    match m.start {
        None => 0,
        Some(s) => if now < s {
            0
        } else {
            (now - s) as u64
        },
    }
}

/// How long the process has been up at `now`, in nanoseconds. `now` is read from
/// the clock that [`init`] was given.
pub fn uptime(m: &Metrics, now: u64) -> (r: u64)
    ensures
        r == uptime_nanos(*m, now),
{
    match m.start {
        None => 0,
        Some(s) => if now < s { 0 } else { now - s },
    }
}

/// Build info and uptime.
pub open spec fn preamble(version: Seq<char>, uptime: Seq<char>) -> Seq<char> {
    heading("elrond_build_info"@, "Build info."@, "gauge"@) + "elrond_build_info{version=\""@
        + version + "\"} 1\n"@ + heading(
        "elrond_uptime_seconds"@,
        "Process uptime in seconds."@,
        "gauge"@,
    ) + "elrond_uptime_seconds "@ + uptime + "\n"@
}

/// The counters without labels.
pub open spec fn counters(m: Metrics) -> Seq<char> {
    sample("elrond_requests_total"@, m.requests, "Total HTTP requests handled."@, "counter"@)
        + sample("elrond_connections_accepted_total"@, m.conns_accepted, "Total connections accepted by every listener."@, "counter"@)
        + sample("elrond_proxy_attempts_total"@, m.proxy_attempts, "Total proxy attempts (including retries)."@, "counter"@)
        + sample("elrond_proxy_failures_total"@, m.proxy_failures, "Total proxy attempts that failed at the connection level."@, "counter"@)
        + sample("elrond_tls_handshakes_total"@, m.tls_ok, "Successful TLS handshakes."@, "counter"@)
        + sample("elrond_tls_handshake_failures_total"@, m.tls_fail, "Failed TLS handshakes."@, "counter"@)
        + sample("elrond_stream_connections_accepted_total"@, m.stream_accepted, "Total TCP stream connections accepted."@, "counter"@)
        + sample("elrond_stream_bytes_client_to_upstream_total"@, m.stream_bytes_to_up, "Total bytes piped from stream clients to upstreams."@, "counter"@)
        + sample("elrond_stream_bytes_upstream_to_client_total"@, m.stream_bytes_from_up, "Total bytes piped from stream upstreams back to clients."@, "counter"@)
        + sample("elrond_cache_hits_total"@, m.cache_hits, "Proxy cache hits."@, "counter"@)
        + sample("elrond_cache_misses_total"@, m.cache_misses, "Proxy cache misses."@, "counter"@)
        + sample("elrond_cache_bypass_total"@, m.cache_bypass, "Proxy cache bypasses (safety guard tripped)."@, "counter"@)
        + sample("elrond_cache_evicted_bytes_total"@, m.cache_evicted_bytes, "Bytes removed from the proxy cache through eviction or expiry."@, "counter"@)
        + sample("elrond_limit_req_allowed_total"@, m.limit_req_allowed, "Requests allowed by limit_req."@, "counter"@)
        + sample("elrond_limit_req_denied_total"@, m.limit_req_denied, "Requests denied (503) by limit_req."@, "counter"@)
        + sample("elrond_limit_conn_allowed_total"@, m.limit_conn_allowed, "Requests allowed by limit_conn."@, "counter"@)
        + sample("elrond_limit_conn_denied_total"@, m.limit_conn_denied, "Requests denied (503) by limit_conn."@, "counter"@)
        + sample("elrond_mirror_attempts_total"@, m.mirror_attempts, "Shadow requests attempted by mirror."@, "counter"@)
        + sample("elrond_mirror_failures_total"@, m.mirror_failures, "Shadow requests that failed."@, "counter"@)
}

/// Responses by status class.
pub open spec fn classes(m: Metrics) -> Seq<char> {
    heading("elrond_responses_total"@, "Responses by status class."@, "counter"@) + class_line(
        "1xx"@,
        m.resp_1xx,
    ) + class_line("2xx"@, m.resp_2xx) + class_line("3xx"@, m.resp_3xx) + class_line(
        "4xx"@,
        m.resp_4xx,
    ) + class_line("5xx"@, m.resp_5xx)
}

/// The gauges.
pub open spec fn gauges(m: Metrics) -> Seq<char> {
    sample("elrond_active_connections"@, m.active_conns, "Currently open client connections."@, "gauge"@)
        + sample("elrond_stream_active_connections"@, m.stream_active, "Currently open stream (TCP) connections."@, "gauge"@)
        + sample("elrond_cache_bytes"@, m.cache_bytes, "Bytes currently held in the proxy cache."@, "gauge"@)
        + sample("elrond_cache_entries"@, m.cache_entries, "Number of entries currently in the proxy cache."@, "gauge"@)
}

/// The whole exposition.
pub open spec fn exposition(m: Metrics, version: Seq<char>, uptime: Seq<char>) -> Seq<char> {
    preamble(version, uptime) + counters(m) + classes(m) + gauges(m)
}

fn render_preamble(version: &str, uptime: &str) -> (out: String)
    ensures
        out@ == preamble(version@, uptime@),
{
    let mut out = String::new();
    push_heading(&mut out, "elrond_build_info", "Build info.", "gauge");
    out.append("elrond_build_info{version=\"");
    out.append(version);
    out.append("\"} 1\n");
    push_heading(&mut out, "elrond_uptime_seconds", "Process uptime in seconds.", "gauge");
    out.append("elrond_uptime_seconds ");
    out.append(uptime);
    out.append("\n");
    assert(out@ =~= preamble(version@, uptime@));
    out
}

fn render_counters(m: &Metrics) -> (out: String)
    ensures
        out@ == counters(*m),
{
    let mut out = String::new();
    push_sample(&mut out, "elrond_requests_total", m.requests, "Total HTTP requests handled.", "counter");
    assert(out@ =~= sample("elrond_requests_total"@, m.requests, "Total HTTP requests handled."@, "counter"@));
    push_sample(&mut out, "elrond_connections_accepted_total", m.conns_accepted, "Total connections accepted by every listener.", "counter");
    push_sample(&mut out, "elrond_proxy_attempts_total", m.proxy_attempts, "Total proxy attempts (including retries).", "counter");
    push_sample(&mut out, "elrond_proxy_failures_total", m.proxy_failures, "Total proxy attempts that failed at the connection level.", "counter");
    push_sample(&mut out, "elrond_tls_handshakes_total", m.tls_ok, "Successful TLS handshakes.", "counter");
    push_sample(&mut out, "elrond_tls_handshake_failures_total", m.tls_fail, "Failed TLS handshakes.", "counter");
    push_sample(&mut out, "elrond_stream_connections_accepted_total", m.stream_accepted, "Total TCP stream connections accepted.", "counter");
    push_sample(&mut out, "elrond_stream_bytes_client_to_upstream_total", m.stream_bytes_to_up, "Total bytes piped from stream clients to upstreams.", "counter");
    push_sample(&mut out, "elrond_stream_bytes_upstream_to_client_total", m.stream_bytes_from_up, "Total bytes piped from stream upstreams back to clients.", "counter");
    push_sample(&mut out, "elrond_cache_hits_total", m.cache_hits, "Proxy cache hits.", "counter");
    push_sample(&mut out, "elrond_cache_misses_total", m.cache_misses, "Proxy cache misses.", "counter");
    push_sample(&mut out, "elrond_cache_bypass_total", m.cache_bypass, "Proxy cache bypasses (safety guard tripped).", "counter");
    push_sample(&mut out, "elrond_cache_evicted_bytes_total", m.cache_evicted_bytes, "Bytes removed from the proxy cache through eviction or expiry.", "counter");
    push_sample(&mut out, "elrond_limit_req_allowed_total", m.limit_req_allowed, "Requests allowed by limit_req.", "counter");
    push_sample(&mut out, "elrond_limit_req_denied_total", m.limit_req_denied, "Requests denied (503) by limit_req.", "counter");
    push_sample(&mut out, "elrond_limit_conn_allowed_total", m.limit_conn_allowed, "Requests allowed by limit_conn.", "counter");
    push_sample(&mut out, "elrond_limit_conn_denied_total", m.limit_conn_denied, "Requests denied (503) by limit_conn.", "counter");
    push_sample(&mut out, "elrond_mirror_attempts_total", m.mirror_attempts, "Shadow requests attempted by mirror.", "counter");
    push_sample(&mut out, "elrond_mirror_failures_total", m.mirror_failures, "Shadow requests that failed.", "counter");
    out
}

fn render_classes(m: &Metrics) -> (out: String)
    ensures
        out@ == classes(*m),
{
    let mut out = String::new();
    push_heading(&mut out, "elrond_responses_total", "Responses by status class.", "counter");
    assert(out@ =~= heading("elrond_responses_total"@, "Responses by status class."@, "counter"@));
    push_class(&mut out, "1xx", m.resp_1xx);
    push_class(&mut out, "2xx", m.resp_2xx);
    push_class(&mut out, "3xx", m.resp_3xx);
    push_class(&mut out, "4xx", m.resp_4xx);
    push_class(&mut out, "5xx", m.resp_5xx);
    out
}

fn render_gauges(m: &Metrics) -> (out: String)
    ensures
        out@ == gauges(*m),
{
    let mut out = String::new();
    push_sample(&mut out, "elrond_active_connections", m.active_conns, "Currently open client connections.", "gauge");
    assert(out@ =~= sample("elrond_active_connections"@, m.active_conns, "Currently open client connections."@, "gauge"@));
    push_sample(&mut out, "elrond_stream_active_connections", m.stream_active, "Currently open stream (TCP) connections.", "gauge");
    push_sample(&mut out, "elrond_cache_bytes", m.cache_bytes, "Bytes currently held in the proxy cache.", "gauge");
    push_sample(&mut out, "elrond_cache_entries", m.cache_entries, "Number of entries currently in the proxy cache.", "gauge");
    out
}

/// Render Prometheus text-exposition output. `version` is interpolated into
/// `elrond_build_info`, and `uptime`, the [`uptime`] in seconds as it is to be
/// printed, into `elrond_uptime_seconds`.
pub fn render(m: &Metrics, version: &str, uptime: &str) -> (out: String)
    ensures
        out@ == exposition(*m, version@, uptime@),
{
    let mut out = render_preamble(version, uptime);
    out.append(render_counters(m).as_str());
    out.append(render_classes(m).as_str());
    out.append(render_gauges(m).as_str());
    out
}

// ---------------------------------------------------------------------------
// Laws
// ---------------------------------------------------------------------------

/// The responses of all classes.
pub open spec fn all_classes(m: Metrics) -> int {
    m.resp_1xx + m.resp_2xx + m.resp_3xx + m.resp_4xx + m.resp_5xx
}

/// Every request is counted in exactly one status class: as long as no counter
/// wraps, the classes add up to the number of requests.
pub proof fn law_classes_add_up(m: Metrics, status: u16)
    requires
        all_classes(m) == m.requests,
        m.requests < u64::MAX,
    ensures
        all_classes(with_request(m, status)) == with_request(m, status).requests,
{
}

/// Handing a connection token back restores the gauge, also when other
/// connections come in between.
pub proof fn law_gauge_balances(m: Metrics)
    ensures
        conn_closed(conn_opened(m)) == m,
        stream_closed(stream_opened(m)) == m,
        conn_closed(conn_opened(conn_opened(m))) == conn_opened(m),
        conn_closed(stream_opened(conn_opened(m))) == stream_opened(m),
{
}

} // verus!
