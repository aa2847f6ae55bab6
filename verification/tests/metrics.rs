use elrond::metrics::{
    init, record_proxy_attempt, record_proxy_failure, record_request, render, uptime, ConnGuard,
    Metrics,
};

#[test]
fn render_emits_required_metrics() {
    let mut m = Metrics::default();
    init(&mut m, 0);
    record_request(&mut m, 200);
    record_request(&mut m, 404);
    record_request(&mut m, 502);
    record_proxy_attempt(&mut m);
    record_proxy_attempt(&mut m);
    record_proxy_failure(&mut m);
    let s = render(&m, "test-1.2.3", "0.000");
    assert!(s.contains("elrond_build_info{version=\"test-1.2.3\"} 1"));
    assert!(s.contains("elrond_requests_total"));
    assert!(s.contains("elrond_responses_total{status_class=\"2xx\"}"));
    assert!(s.contains("elrond_responses_total{status_class=\"4xx\"}"));
    assert!(s.contains("elrond_responses_total{status_class=\"5xx\"}"));
    assert!(s.contains("elrond_proxy_attempts_total"));
    assert!(s.contains("elrond_proxy_failures_total"));
    assert!(s.contains("elrond_active_connections"));
    // Every "# TYPE" line should be one of the documented metric types.
    for line in s.lines().filter(|l| l.starts_with("# TYPE ")) {
        let suffix = line.rsplit(' ').next().unwrap();
        assert!(
            matches!(suffix, "counter" | "gauge" | "histogram" | "summary"),
            "unknown metric type in: {line}"
        );
    }
}

#[test]
fn counts_come_out_as_they_went_in() {
    let mut m = Metrics::default();
    init(&mut m, 0);
    record_request(&mut m, 200);
    record_request(&mut m, 204);
    record_request(&mut m, 503);
    let s = render(&m, "v", "12.345");
    assert!(s.contains("elrond_uptime_seconds 12.345\n"));
    assert!(s.contains("elrond_build_info{version=\"v\"} 1\n"));
    assert!(s.contains("elrond_requests_total 3\n"));
    assert!(s.contains("elrond_responses_total{status_class=\"2xx\"} 2\n"));
    assert!(s.contains("elrond_responses_total{status_class=\"5xx\"} 1\n"));
}

#[test]
fn connection_gauge_goes_back_down() {
    let mut m = Metrics::default();
    let g = ConnGuard::new(&mut m);
    assert_eq!(m.active_conns, 1);
    g.release(&mut m);
    assert_eq!(m.active_conns, 0);
}

#[test]
fn uptime_counts_from_the_first_start() {
    let mut m = Metrics::default();
    assert_eq!(uptime(&m, 9), 0);
    init(&mut m, 5);
    init(&mut m, 8);
    assert_eq!(uptime(&m, 12), 7);
    assert_eq!(uptime(&m, 3), 0);
}
