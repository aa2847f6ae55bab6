//! Laws on the counters and on the page that shows them.

use crate::metrics::{
    class_line, classes, counters, exposition, gauges, heading, Metrics, no_metrics, preamble,
    sample, uptime_nanos, with_request,
};
use crate::text::decimal;
use vstd::prelude::*;
use vstd::string::*;

verus! {

/// A line of the page: a name, a blank, a number and the end of the line.
pub open spec fn line(name: Seq<char>, value: u64) -> Seq<char> {
    name + seq![' '] + decimal(value as nat) + seq!['\n']
}

/// Whether a text has a part.
pub open spec fn shows(text: Seq<char>, part: Seq<char>) -> bool {
    exists|a: Seq<char>, b: Seq<char>| text == #[trigger] (a + part + b)
}

proof fn lemma_keep(x: Seq<char>, y: Seq<char>)
    ensures
        forall|p: Seq<char>| shows(x, p) ==> #[trigger] shows(x + y, p),
        forall|p: Seq<char>| shows(y, p) ==> #[trigger] shows(x + y, p),
{
    assert forall|p: Seq<char>| shows(x, p) implies #[trigger] shows(x + y, p) by {
        let (a, b) = choose|a: Seq<char>, b: Seq<char>| x == #[trigger] (a + p + b);
        assert(x + y =~= a + p + (b + y));
    }
    assert forall|p: Seq<char>| shows(y, p) implies #[trigger] shows(x + y, p) by {
        let (a, b) = choose|a: Seq<char>, b: Seq<char>| y == #[trigger] (a + p + b);
        assert(x + y =~= (x + a) + p + b);
    }
}

proof fn lemma_sample(name: Seq<char>, value: u64, help: Seq<char>, kind: Seq<char>)
    ensures
        shows(sample(name, value, help, kind), line(name, value)),
{
    reveal_strlit(" ");
    reveal_strlit("\n");
    assert(" "@ =~= seq![' ']);
    assert("\n"@ =~= seq!['\n']);
    let h = heading(name, help, kind);
    let none = Seq::<char>::empty();
    assert(sample(name, value, help, kind) =~= h + line(name, value) + none);
}

/// Each counter stands on the page under its name.
#[verifier::rlimit(50)]
pub proof fn law_counters_are_shown(m: Metrics)
    ensures
        shows(counters(m), line("elrond_requests_total"@, m.requests)),
        shows(counters(m), line("elrond_connections_accepted_total"@, m.conns_accepted)),
        shows(counters(m), line("elrond_proxy_attempts_total"@, m.proxy_attempts)),
        shows(counters(m), line("elrond_proxy_failures_total"@, m.proxy_failures)),
        shows(counters(m), line("elrond_tls_handshakes_total"@, m.tls_ok)),
        shows(counters(m), line("elrond_tls_handshake_failures_total"@, m.tls_fail)),
        shows(counters(m), line("elrond_stream_connections_accepted_total"@, m.stream_accepted)),
        shows(counters(m), line("elrond_stream_bytes_client_to_upstream_total"@, m.stream_bytes_to_up)),
        shows(counters(m), line("elrond_stream_bytes_upstream_to_client_total"@, m.stream_bytes_from_up)),
        shows(counters(m), line("elrond_cache_hits_total"@, m.cache_hits)),
        shows(counters(m), line("elrond_cache_misses_total"@, m.cache_misses)),
        shows(counters(m), line("elrond_cache_bypass_total"@, m.cache_bypass)),
        shows(counters(m), line("elrond_cache_evicted_bytes_total"@, m.cache_evicted_bytes)),
        shows(counters(m), line("elrond_limit_req_allowed_total"@, m.limit_req_allowed)),
        shows(counters(m), line("elrond_limit_req_denied_total"@, m.limit_req_denied)),
        shows(counters(m), line("elrond_limit_conn_allowed_total"@, m.limit_conn_allowed)),
        shows(counters(m), line("elrond_limit_conn_denied_total"@, m.limit_conn_denied)),
        shows(counters(m), line("elrond_mirror_attempts_total"@, m.mirror_attempts)),
        shows(counters(m), line("elrond_mirror_failures_total"@, m.mirror_failures)),
{
    let s0 = sample(
        "elrond_requests_total"@,
        m.requests,
        "Total HTTP requests handled."@,
        "counter"@,
    );
    lemma_sample("elrond_requests_total"@, m.requests, "Total HTTP requests handled."@, "counter"@);
    let c0 = s0;
    let s1 = sample(
        "elrond_connections_accepted_total"@,
        m.conns_accepted,
        "Total connections accepted by every listener."@,
        "counter"@,
    );
    lemma_sample("elrond_connections_accepted_total"@, m.conns_accepted, "Total connections accepted by every listener."@, "counter"@);
    let c1 = c0 + s1;
    lemma_keep(c0, s1);
    let s2 = sample(
        "elrond_proxy_attempts_total"@,
        m.proxy_attempts,
        "Total proxy attempts (including retries)."@,
        "counter"@,
    );
    lemma_sample("elrond_proxy_attempts_total"@, m.proxy_attempts, "Total proxy attempts (including retries)."@, "counter"@);
    let c2 = c1 + s2;
    lemma_keep(c1, s2);
    let s3 = sample(
        "elrond_proxy_failures_total"@,
        m.proxy_failures,
        "Total proxy attempts that failed at the connection level."@,
        "counter"@,
    );
    lemma_sample("elrond_proxy_failures_total"@, m.proxy_failures, "Total proxy attempts that failed at the connection level."@, "counter"@);
    let c3 = c2 + s3;
    lemma_keep(c2, s3);
    let s4 = sample(
        "elrond_tls_handshakes_total"@,
        m.tls_ok,
        "Successful TLS handshakes."@,
        "counter"@,
    );
    lemma_sample("elrond_tls_handshakes_total"@, m.tls_ok, "Successful TLS handshakes."@, "counter"@);
    let c4 = c3 + s4;
    lemma_keep(c3, s4);
    let s5 = sample(
        "elrond_tls_handshake_failures_total"@,
        m.tls_fail,
        "Failed TLS handshakes."@,
        "counter"@,
    );
    lemma_sample("elrond_tls_handshake_failures_total"@, m.tls_fail, "Failed TLS handshakes."@, "counter"@);
    let c5 = c4 + s5;
    lemma_keep(c4, s5);
    let s6 = sample(
        "elrond_stream_connections_accepted_total"@,
        m.stream_accepted,
        "Total TCP stream connections accepted."@,
        "counter"@,
    );
    lemma_sample("elrond_stream_connections_accepted_total"@, m.stream_accepted, "Total TCP stream connections accepted."@, "counter"@);
    let c6 = c5 + s6;
    lemma_keep(c5, s6);
    let s7 = sample(
        "elrond_stream_bytes_client_to_upstream_total"@,
        m.stream_bytes_to_up,
        "Total bytes piped from stream clients to upstreams."@,
        "counter"@,
    );
    lemma_sample("elrond_stream_bytes_client_to_upstream_total"@, m.stream_bytes_to_up, "Total bytes piped from stream clients to upstreams."@, "counter"@);
    let c7 = c6 + s7;
    lemma_keep(c6, s7);
    let s8 = sample(
        "elrond_stream_bytes_upstream_to_client_total"@,
        m.stream_bytes_from_up,
        "Total bytes piped from stream upstreams back to clients."@,
        "counter"@,
    );
    lemma_sample("elrond_stream_bytes_upstream_to_client_total"@, m.stream_bytes_from_up, "Total bytes piped from stream upstreams back to clients."@, "counter"@);
    let c8 = c7 + s8;
    lemma_keep(c7, s8);
    let s9 = sample(
        "elrond_cache_hits_total"@,
        m.cache_hits,
        "Proxy cache hits."@,
        "counter"@,
    );
    lemma_sample("elrond_cache_hits_total"@, m.cache_hits, "Proxy cache hits."@, "counter"@);
    let c9 = c8 + s9;
    lemma_keep(c8, s9);
    let s10 = sample(
        "elrond_cache_misses_total"@,
        m.cache_misses,
        "Proxy cache misses."@,
        "counter"@,
    );
    lemma_sample("elrond_cache_misses_total"@, m.cache_misses, "Proxy cache misses."@, "counter"@);
    let c10 = c9 + s10;
    lemma_keep(c9, s10);
    let s11 = sample(
        "elrond_cache_bypass_total"@,
        m.cache_bypass,
        "Proxy cache bypasses (safety guard tripped)."@,
        "counter"@,
    );
    lemma_sample("elrond_cache_bypass_total"@, m.cache_bypass, "Proxy cache bypasses (safety guard tripped)."@, "counter"@);
    let c11 = c10 + s11;
    lemma_keep(c10, s11);
    let s12 = sample(
        "elrond_cache_evicted_bytes_total"@,
        m.cache_evicted_bytes,
        "Bytes removed from the proxy cache through eviction or expiry."@,
        "counter"@,
    );
    lemma_sample("elrond_cache_evicted_bytes_total"@, m.cache_evicted_bytes, "Bytes removed from the proxy cache through eviction or expiry."@, "counter"@);
    let c12 = c11 + s12;
    lemma_keep(c11, s12);
    let s13 = sample(
        "elrond_limit_req_allowed_total"@,
        m.limit_req_allowed,
        "Requests allowed by limit_req."@,
        "counter"@,
    );
    lemma_sample("elrond_limit_req_allowed_total"@, m.limit_req_allowed, "Requests allowed by limit_req."@, "counter"@);
    let c13 = c12 + s13;
    lemma_keep(c12, s13);
    let s14 = sample(
        "elrond_limit_req_denied_total"@,
        m.limit_req_denied,
        "Requests denied (503) by limit_req."@,
        "counter"@,
    );
    lemma_sample("elrond_limit_req_denied_total"@, m.limit_req_denied, "Requests denied (503) by limit_req."@, "counter"@);
    let c14 = c13 + s14;
    lemma_keep(c13, s14);
    let s15 = sample(
        "elrond_limit_conn_allowed_total"@,
        m.limit_conn_allowed,
        "Requests allowed by limit_conn."@,
        "counter"@,
    );
    lemma_sample("elrond_limit_conn_allowed_total"@, m.limit_conn_allowed, "Requests allowed by limit_conn."@, "counter"@);
    let c15 = c14 + s15;
    lemma_keep(c14, s15);
    let s16 = sample(
        "elrond_limit_conn_denied_total"@,
        m.limit_conn_denied,
        "Requests denied (503) by limit_conn."@,
        "counter"@,
    );
    lemma_sample("elrond_limit_conn_denied_total"@, m.limit_conn_denied, "Requests denied (503) by limit_conn."@, "counter"@);
    let c16 = c15 + s16;
    lemma_keep(c15, s16);
    let s17 = sample(
        "elrond_mirror_attempts_total"@,
        m.mirror_attempts,
        "Shadow requests attempted by mirror."@,
        "counter"@,
    );
    lemma_sample("elrond_mirror_attempts_total"@, m.mirror_attempts, "Shadow requests attempted by mirror."@, "counter"@);
    let c17 = c16 + s17;
    lemma_keep(c16, s17);
    let s18 = sample(
        "elrond_mirror_failures_total"@,
        m.mirror_failures,
        "Shadow requests that failed."@,
        "counter"@,
    );
    lemma_sample("elrond_mirror_failures_total"@, m.mirror_failures, "Shadow requests that failed."@, "counter"@);
    let c18 = c17 + s18;
    lemma_keep(c17, s18);
    assert(counters(m) == c18);
}

/// Each gauge stands on the page under its name.
pub proof fn law_gauges_are_shown(m: Metrics)
    ensures
        shows(gauges(m), line("elrond_active_connections"@, m.active_conns)),
        shows(gauges(m), line("elrond_stream_active_connections"@, m.stream_active)),
        shows(gauges(m), line("elrond_cache_bytes"@, m.cache_bytes)),
        shows(gauges(m), line("elrond_cache_entries"@, m.cache_entries)),
{
    let s0 = sample("elrond_active_connections"@, m.active_conns, "Currently open client connections."@, "gauge"@);
    lemma_sample("elrond_active_connections"@, m.active_conns, "Currently open client connections."@, "gauge"@);
    let c0 = s0;
    let s1 = sample("elrond_stream_active_connections"@, m.stream_active, "Currently open stream (TCP) connections."@, "gauge"@);
    lemma_sample("elrond_stream_active_connections"@, m.stream_active, "Currently open stream (TCP) connections."@, "gauge"@);
    let c1 = c0 + s1;
    lemma_keep(c0, s1);
    let s2 = sample("elrond_cache_bytes"@, m.cache_bytes, "Bytes currently held in the proxy cache."@, "gauge"@);
    lemma_sample("elrond_cache_bytes"@, m.cache_bytes, "Bytes currently held in the proxy cache."@, "gauge"@);
    let c2 = c1 + s2;
    lemma_keep(c1, s2);
    let s3 = sample("elrond_cache_entries"@, m.cache_entries, "Number of entries currently in the proxy cache."@, "gauge"@);
    lemma_sample("elrond_cache_entries"@, m.cache_entries, "Number of entries currently in the proxy cache."@, "gauge"@);
    let c3 = c2 + s3;
    lemma_keep(c2, s3);
    assert(gauges(m) == c3);
}

/// The answers are shown by the first digit of their status.
#[verifier::rlimit(50)]
pub proof fn law_classes_are_shown(m: Metrics)
    ensures
        shows(
            classes(m),
            line("elrond_responses_total{status_class=\""@ + "1xx"@ + "\"}"@, m.resp_1xx),
        ),
        shows(
            classes(m),
            line("elrond_responses_total{status_class=\""@ + "2xx"@ + "\"}"@, m.resp_2xx),
        ),
        shows(
            classes(m),
            line("elrond_responses_total{status_class=\""@ + "3xx"@ + "\"}"@, m.resp_3xx),
        ),
        shows(
            classes(m),
            line("elrond_responses_total{status_class=\""@ + "4xx"@ + "\"}"@, m.resp_4xx),
        ),
        shows(
            classes(m),
            line("elrond_responses_total{status_class=\""@ + "5xx"@ + "\"}"@, m.resp_5xx),
        ),
{
    let h = heading("elrond_responses_total"@, "Responses by status class."@, "counter"@);
    lemma_class("1xx"@, m.resp_1xx);
    let c0 = h + class_line("1xx"@, m.resp_1xx);
    lemma_keep(h, class_line("1xx"@, m.resp_1xx));
    lemma_class("2xx"@, m.resp_2xx);
    let c1 = c0 + class_line("2xx"@, m.resp_2xx);
    lemma_keep(c0, class_line("2xx"@, m.resp_2xx));
    lemma_class("3xx"@, m.resp_3xx);
    let c2 = c1 + class_line("3xx"@, m.resp_3xx);
    lemma_keep(c1, class_line("3xx"@, m.resp_3xx));
    lemma_class("4xx"@, m.resp_4xx);
    let c3 = c2 + class_line("4xx"@, m.resp_4xx);
    lemma_keep(c2, class_line("4xx"@, m.resp_4xx));
    lemma_class("5xx"@, m.resp_5xx);
    let c4 = c3 + class_line("5xx"@, m.resp_5xx);
    lemma_keep(c3, class_line("5xx"@, m.resp_5xx));
    assert(shows(c0, line("elrond_responses_total{status_class=\""@ + "1xx"@ + "\"}"@, m.resp_1xx)));
    assert(shows(c1, line("elrond_responses_total{status_class=\""@ + "1xx"@ + "\"}"@, m.resp_1xx)));
    assert(shows(c2, line("elrond_responses_total{status_class=\""@ + "1xx"@ + "\"}"@, m.resp_1xx)));
    assert(shows(c3, line("elrond_responses_total{status_class=\""@ + "1xx"@ + "\"}"@, m.resp_1xx)));
    assert(shows(c4, line("elrond_responses_total{status_class=\""@ + "1xx"@ + "\"}"@, m.resp_1xx)));
    assert(shows(c1, line("elrond_responses_total{status_class=\""@ + "2xx"@ + "\"}"@, m.resp_2xx)));
    assert(shows(c2, line("elrond_responses_total{status_class=\""@ + "2xx"@ + "\"}"@, m.resp_2xx)));
    assert(shows(c3, line("elrond_responses_total{status_class=\""@ + "2xx"@ + "\"}"@, m.resp_2xx)));
    assert(shows(c4, line("elrond_responses_total{status_class=\""@ + "2xx"@ + "\"}"@, m.resp_2xx)));
    assert(shows(c2, line("elrond_responses_total{status_class=\""@ + "3xx"@ + "\"}"@, m.resp_3xx)));
    assert(shows(c3, line("elrond_responses_total{status_class=\""@ + "3xx"@ + "\"}"@, m.resp_3xx)));
    assert(shows(c4, line("elrond_responses_total{status_class=\""@ + "3xx"@ + "\"}"@, m.resp_3xx)));
    assert(shows(c3, line("elrond_responses_total{status_class=\""@ + "4xx"@ + "\"}"@, m.resp_4xx)));
    assert(shows(c4, line("elrond_responses_total{status_class=\""@ + "4xx"@ + "\"}"@, m.resp_4xx)));
    assert(shows(c4, line("elrond_responses_total{status_class=\""@ + "5xx"@ + "\"}"@, m.resp_5xx)));
    assert(classes(m) == c4);
}

proof fn lemma_class(class: Seq<char>, value: u64)
    ensures
        shows(
            class_line(class, value),
            line("elrond_responses_total{status_class=\""@ + class + "\"}"@, value),
        ),
{
    reveal_strlit("\"} ");
    reveal_strlit("\"}");
    reveal_strlit("\n");
    assert("\"} "@ =~= "\"}"@ + seq![' ']);
    assert("\n"@ =~= seq!['\n']);
    let none = Seq::<char>::empty();
    let l = line("elrond_responses_total{status_class=\""@ + class + "\"}"@, value);
    assert(class_line(class, value) =~= none + l + none);
}

proof fn lemma_preamble(version: Seq<char>, uptime: Seq<char>)
    ensures
        shows(
            preamble(version, uptime),
            "elrond_build_info{version=\""@ + version + "\"} 1\n"@,
        ),
        shows(preamble(version, uptime), "elrond_uptime_seconds "@ + uptime + seq!['\n']),
{
    reveal_strlit("\n");
    assert("\n"@ =~= seq!['\n']);
    let h1 = heading("elrond_build_info"@, "Build info."@, "gauge"@);
    let h2 = heading("elrond_uptime_seconds"@, "Process uptime in seconds."@, "gauge"@);
    let v = "elrond_build_info{version=\""@ + version + "\"} 1\n"@;
    let u = "elrond_uptime_seconds "@ + uptime + seq!['\n'];
    let a = preamble(version, uptime);
    assert(a =~= h1 + v + (h2 + u));
    assert(a =~= (h1 + v + h2) + u + Seq::<char>::empty());
}

/// The page shows the counters, the classes, the gauges, the version and the uptime.
#[verifier::rlimit(50)]
pub proof fn law_page_shows_all(m: Metrics, version: Seq<char>, uptime: Seq<char>, p: Seq<char>)
    ensures
        shows(counters(m), p) || shows(classes(m), p) || shows(gauges(m), p) ==> shows(
            exposition(m, version, uptime),
            p,
        ),
        shows(
            exposition(m, version, uptime),
            "elrond_build_info{version=\""@ + version + "\"} 1\n"@,
        ),
        shows(
            exposition(m, version, uptime),
            "elrond_uptime_seconds "@ + uptime + seq!['\n'],
        ),
{
    let a = preamble(version, uptime);
    let b = counters(m);
    let c = classes(m);
    let d = gauges(m);
    lemma_keep(a, b);
    lemma_keep(a + b, c);
    lemma_keep(a + b + c, d);
    assert(shows(b, p) ==> shows(a + b, p));
    assert(shows(a + b, p) ==> shows(a + b + c, p));
    assert(shows(c, p) ==> shows(a + b + c, p));
    assert(shows(a + b + c, p) ==> shows(a + b + c + d, p));
    assert(shows(d, p) ==> shows(a + b + c + d, p));
    let v = "elrond_build_info{version=\""@ + version + "\"} 1\n"@;
    let u = "elrond_uptime_seconds "@ + uptime + seq!['\n'];
    lemma_preamble(version, uptime);
    assert(shows(a, v) && shows(a, u));
    assert(shows(a + b, v) && shows(a + b, u));
    assert(shows(a + b + c, v) && shows(a + b + c, u));
    assert(shows(a + b + c + d, v) && shows(a + b + c + d, u));
}

/// An answer counts once, and once in its class; everything that is not 1xx to 4xx
/// counts as 5xx.
pub proof fn law_requests_are_counted(m: Metrics, status: u16)
    requires
        m.requests < u64::MAX,
        m.resp_1xx < u64::MAX && m.resp_2xx < u64::MAX && m.resp_3xx < u64::MAX && m.resp_4xx
            < u64::MAX && m.resp_5xx < u64::MAX,
    ensures
        ({
            let n = with_request(m, status);
            let more = (m.requests + 1) as u64;
            &&& 100 <= status < 200 ==> n == (Metrics {
                requests: more,
                resp_1xx: (m.resp_1xx + 1) as u64,
                ..m
            })
            &&& 200 <= status < 300 ==> n == (Metrics {
                requests: more,
                resp_2xx: (m.resp_2xx + 1) as u64,
                ..m
            })
            &&& 300 <= status < 400 ==> n == (Metrics {
                requests: more,
                resp_3xx: (m.resp_3xx + 1) as u64,
                ..m
            })
            &&& 400 <= status < 500 ==> n == (Metrics {
                requests: more,
                resp_4xx: (m.resp_4xx + 1) as u64,
                ..m
            })
            &&& status < 100 || status >= 500 ==> n == (Metrics {
                requests: more,
                resp_5xx: (m.resp_5xx + 1) as u64,
                ..m
            })
        }),
{
}

/// The uptime is what has passed since the start, and nothing before it.
pub proof fn law_uptime(m: Metrics, now: u64)
    ensures
        m.start is None ==> uptime_nanos(m, now) == 0,
        m.start matches Some(s) ==> (s <= now ==> uptime_nanos(m, now) + s == now) && (now < s
            ==> uptime_nanos(m, now) == 0),
{
}

/// Counting starts at nothing.
pub proof fn law_counting_starts_at_nothing(version: Seq<char>)
    ensures
        ({
            let m = no_metrics();
            &&& m.start is None && m.requests == 0 && m.proxy_attempts == 0 && m.proxy_failures == 0
            &&& m.resp_1xx == 0 && m.resp_2xx == 0 && m.resp_3xx == 0 && m.resp_4xx == 0
                && m.resp_5xx == 0
            &&& m.cache_hits == 0 && m.cache_misses == 0 && m.cache_bypass == 0 && m.cache_bytes
                == 0 && m.cache_entries == 0 && m.cache_evicted_bytes == 0
            &&& m.limit_req_allowed == 0 && m.limit_req_denied == 0 && m.limit_conn_allowed == 0
                && m.limit_conn_denied == 0
            &&& m.conns_accepted == 0 && m.active_conns == 0 && m.tls_ok == 0 && m.tls_fail == 0
            &&& m.stream_accepted == 0 && m.stream_active == 0 && m.stream_bytes_to_up == 0
                && m.stream_bytes_from_up == 0 && m.mirror_attempts == 0 && m.mirror_failures == 0
        }),
{
}

} // verus!
