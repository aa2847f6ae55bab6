use elrond::limit::{
    enforce, enforce_conn, parse_rate, LimitConnZone, LimitReqZone, Rate,
};
use elrond::metrics::Metrics;
use elrond::template::Template;

fn per_second(r: &Rate) -> f64 {
    let n: f64 = r.count.parse().unwrap();
    if r.per_minute {
        n / 60.0
    } else {
        n
    }
}

fn zone(rate: &str) -> LimitReqZone {
    LimitReqZone::new(
        "t".into(),
        Template::parse("$remote_addr"),
        Rate { count: rate.into(), per_minute: false },
        128,
    )
}

/// Refill the key's bucket up to `now` (in nanoseconds) and spend one token.
fn allow(z: &mut LimitReqZone, key: &str, burst: u32, now: u64) -> bool {
    let full = burst as f64 + 1.0;
    let rate = per_second(&z.rate);
    let b = z.touch(key, full.to_bits(), now);
    let elapsed = now.saturating_sub(b.last) as f64 / 1e9;
    let tokens = (f64::from_bits(b.tokens) + elapsed * rate).min(full);
    if tokens >= 1.0 {
        z.settle(key, (tokens - 1.0).to_bits(), now);
        true
    } else {
        z.settle(key, tokens.to_bits(), now);
        false
    }
}

#[test]
fn allows_first_burst_immediately() {
    let mut z = zone("1.0");
    for _ in 0..5 {
        assert!(allow(&mut z, "client-a", 4, 0));
    }
}

#[test]
fn denies_after_burst_drained() {
    let mut z = zone("0.0001"); // effectively no refill within the test
    for _ in 0..5 {
        assert!(allow(&mut z, "client-a", 4, 0));
    }
    assert!(!allow(&mut z, "client-a", 4, 0));
}

#[test]
fn separate_keys_have_separate_buckets() {
    let mut z = zone("0.0001");
    for _ in 0..3 {
        assert!(allow(&mut z, "client-a", 2, 0));
    }
    // client-a now drained
    assert!(!allow(&mut z, "client-a", 2, 0));
    // client-b is independent
    for _ in 0..3 {
        assert!(allow(&mut z, "client-b", 2, 0));
    }
}

#[test]
fn refill_replenishes_tokens() {
    let mut z = zone("1000.0"); // 1000/s — refills fast
    for _ in 0..5 {
        assert!(allow(&mut z, "client-a", 4, 0));
    }
    // drained
    assert!(!allow(&mut z, "client-a", 4, 0));
    // After 20ms at 1000/s, expect ~20 tokens — plenty.
    assert!(allow(&mut z, "client-a", 4, 20_000_000));
}

#[test]
fn parses_rate_specs() {
    let rate = |s: &str| parse_rate(s).map(|r| per_second(&r));
    assert_eq!(rate("5r/s"), Some(5.0));
    assert_eq!(rate("60r/m"), Some(1.0));
    assert_eq!(rate("100r/s "), Some(100.0));
    assert_eq!(rate("nonsense"), None);
    assert_eq!(rate("5r/h"), None);
}

#[test]
fn eviction_caps_entries() {
    let mut z = LimitReqZone::new(
        "t".into(),
        Template::parse("$remote_addr"),
        Rate { count: "0.0001".into(), per_minute: false },
        3,
    );
    for i in 0..10u64 {
        let _ = allow(&mut z, &format!("k{i}"), 0, i);
    }
    let len = z.buckets.len();
    assert!(len <= 3, "expected ≤ 3 entries, got {len}");
    assert!(z.buckets.iter().any(|(k, _)| k == "k9"));
}

#[test]
fn refused_request_is_answered_503() {
    let mut m = Metrics::default();
    assert!(enforce(true, &mut m).is_none());
    let r = enforce(false, &mut m).unwrap();
    assert_eq!(r.status, 503);
    assert_eq!((m.limit_req_allowed, m.limit_req_denied), (1, 1));
}

#[test]
fn connections_are_capped_per_key() {
    let mut m = Metrics::default();
    let mut z = LimitConnZone::new("c".into(), Template::parse("$remote_addr"), 16);
    assert!(enforce_conn(&mut z, "a", 2, &mut m).is_none());
    assert!(enforce_conn(&mut z, "a", 2, &mut m).is_none());
    assert_eq!(enforce_conn(&mut z, "a", 2, &mut m).unwrap().status, 503);
    assert!(enforce_conn(&mut z, "b", 2, &mut m).is_none());
    z.release("a");
    assert!(enforce_conn(&mut z, "a", 2, &mut m).is_none());
    assert_eq!((m.limit_conn_allowed, m.limit_conn_denied), (4, 1));
}
