use elrond::cache::{
    build_signature, decide_caching, parse_vary, CacheDecision, CacheStore, Entry, MAX_ENTRY_BYTES,
};
use elrond::metrics::Metrics;
use elrond::time::{add_duration, Duration};
use hyper::header::HeaderValue;
use hyper::HeaderMap;

fn rules_for_200(secs: u64) -> Vec<(Vec<u16>, Duration)> {
    vec![(vec![200], Duration::from_secs(secs))]
}

fn entry(s: &CacheStore, body: &[u8], vary: &[&str], req: &HeaderMap) -> Entry {
    let vary_headers: Vec<String> = vary.iter().map(|s| s.to_string()).collect();
    let sig = build_signature(req, &vary_headers);
    Entry {
        status: 200,
        headers: vec![],
        body: body.to_vec(),
        expires_at: add_duration(s.now(), Duration::from_secs(60)),
        vary_headers,
        vary_signature: sig,
    }
}

#[test]
fn non_get_is_bypassed() {
    let d = decide_caching("POST", &HeaderMap::new(), 200, 10, &rules_for_200(60));
    assert!(matches!(d, CacheDecision::Bypass(_)));
}

#[test]
fn set_cookie_blocks_caching() {
    let mut h = HeaderMap::new();
    h.insert("set-cookie", "sid=abc".parse().unwrap());
    assert!(matches!(
        decide_caching("GET", &h, 200, 10, &rules_for_200(60)),
        CacheDecision::Bypass(_)
    ));
}

#[test]
fn vary_star_is_bypassed() {
    let mut h = HeaderMap::new();
    h.insert("vary", "*".parse().unwrap());
    let d = decide_caching("GET", &h, 200, 10, &rules_for_200(60));
    assert!(matches!(d, CacheDecision::Bypass(s) if s.contains("Vary")));
}

#[test]
fn cc_no_store_blocks_caching() {
    let mut h = HeaderMap::new();
    h.insert("cache-control", "no-store".parse().unwrap());
    assert!(matches!(
        decide_caching("GET", &h, 200, 10, &rules_for_200(60)),
        CacheDecision::Bypass(_)
    ));
}

#[test]
fn missing_valid_rule_bypasses() {
    assert!(matches!(
        decide_caching("GET", &HeaderMap::new(), 404, 10, &rules_for_200(60)),
        CacheDecision::Bypass(_)
    ));
}

#[test]
fn matching_status_stores() {
    assert!(matches!(
        decide_caching("GET", &HeaderMap::new(), 200, 10, &rules_for_200(60)),
        CacheDecision::Store(d) if d.as_secs() == 60
    ));
}

#[test]
fn vary_variants_kept_separately() {
    let mut m = Metrics::default();
    let mut s = CacheStore::new("t".into(), 1024 * 1024);
    let mut req_gz = HeaderMap::new();
    req_gz.insert("accept-encoding", "gzip".parse().unwrap());
    let mut req_id = HeaderMap::new();
    req_id.insert("accept-encoding", "identity".parse().unwrap());

    let e = entry(&s, b"GZIPPED", &["accept-encoding"], &req_gz);
    s.put("k".into(), e, &mut m);
    let e = entry(&s, b"PLAIN", &["accept-encoding"], &req_id);
    s.put("k".into(), e, &mut m);

    let gz = s.get("k", &req_gz, &mut m).expect("hit gz");
    assert_eq!(&gz.body[..], b"GZIPPED");
    let id = s.get("k", &req_id, &mut m).expect("hit identity");
    assert_eq!(&id.body[..], b"PLAIN");
    assert_eq!(m.cache_hits, 2);
    assert_eq!(m.cache_entries, 2);
}

#[test]
fn vary_request_without_matching_variant_misses() {
    let mut m = Metrics::default();
    let mut s = CacheStore::new("t".into(), 1024 * 1024);
    let mut req_gz = HeaderMap::new();
    req_gz.insert("accept-encoding", "gzip".parse().unwrap());
    let e = entry(&s, b"GZIPPED", &["accept-encoding"], &req_gz);
    s.put("k".into(), e, &mut m);
    let mut req_br = HeaderMap::new();
    req_br.insert("accept-encoding", "br".parse().unwrap());
    assert!(s.get("k", &req_br, &mut m).is_none());
    assert_eq!(m.cache_misses, 1);
}

#[test]
fn store_drops_expired_on_read() {
    let mut m = Metrics::default();
    let mut s = CacheStore::new("t".into(), 1024 * 1024);
    let req = HeaderMap::new();
    let mut e = entry(&s, b"x", &[], &req);
    e.expires_at = 0;
    s.put("k".into(), e, &mut m);
    assert!(s.get("k", &req, &mut m).is_none());
}

#[test]
fn put_replaces_the_same_variant() {
    let mut m = Metrics::default();
    let mut s = CacheStore::new("t".into(), 1024);
    let req = HeaderMap::new();
    let e = entry(&s, b"one", &[], &req);
    s.put("k".into(), e, &mut m);
    let e = entry(&s, b"two", &[], &req);
    s.put("k".into(), e, &mut m);
    assert_eq!(s.get("k", &req, &mut m).unwrap().body, b"two");
    assert_eq!(m.cache_entries, 1);
}

#[test]
fn eviction_takes_the_soonest_to_expire() {
    let mut m = Metrics::default();
    let req = HeaderMap::new();
    let mut s = CacheStore::new("t".into(), 100);
    let mut long = entry(&s, &[1u8; 40], &[], &req);
    long.expires_at = u64::MAX;
    s.put("long".into(), long, &mut m);
    let mut short = entry(&s, &[2u8; 40], &[], &req);
    short.expires_at = u64::MAX - 1;
    s.put("short".into(), short, &mut m);
    let mut next = entry(&s, &[3u8; 40], &[], &req);
    next.expires_at = u64::MAX;
    s.put("next".into(), next, &mut m);
    assert!(s.get("short", &req, &mut m).is_none());
    assert_eq!(s.get("long", &req, &mut m).unwrap().body, vec![1u8; 40]);
    assert_eq!(s.get("next", &req, &mut m).unwrap().body, vec![3u8; 40]);
    assert!(m.cache_evicted_bytes > 0);
}

#[test]
fn entry_larger_than_the_store_is_not_stored() {
    let mut m = Metrics::default();
    let req = HeaderMap::new();
    let mut s = CacheStore::new("t".into(), 10);
    let e = entry(&s, &[0u8; 11], &[], &req);
    s.put("k".into(), e, &mut m);
    assert!(s.get("k", &req, &mut m).is_none());
}

#[test]
fn vary_names_are_lowered_and_split() {
    let mut h = HeaderMap::new();
    h.append("vary", "Accept-Encoding, Cookie".parse().unwrap());
    let names = parse_vary(&h);
    assert!(names.contains(&"accept-encoding".to_string()));
    assert!(names.contains(&"cookie".to_string()));
}

#[test]
fn oversized_body_bypasses() {
    let d = decide_caching("GET", &HeaderMap::new(), 200, MAX_ENTRY_BYTES + 1, &rules_for_200(1));
    assert!(matches!(d, CacheDecision::Bypass(_)));
    let d = decide_caching("GET", &HeaderMap::new(), 200, MAX_ENTRY_BYTES, &rules_for_200(1));
    assert!(matches!(d, CacheDecision::Store(_)));
}

#[test]
fn any_status_rule_applies_to_all() {
    let rules = vec![(vec![], Duration::from_secs(5))];
    let d = decide_caching("GET", &HeaderMap::new(), 404, 0, &rules);
    assert!(matches!(d, CacheDecision::Store(t) if t == Duration::from_secs(5)));
}

#[test]
fn every_cache_control_line_counts() {
    let mut h = HeaderMap::new();
    h.append("cache-control", "public".parse().unwrap());
    assert!(matches!(decide_caching("GET", &h, 200, 1, &rules_for_200(60)), CacheDecision::Store(_)));
    h.append("cache-control", "max-age=1, No-Store".parse().unwrap());
    assert!(matches!(decide_caching("GET", &h, 200, 1, &rules_for_200(60)), CacheDecision::Bypass(_)));
    let mut h = HeaderMap::new();
    h.append("cache-control", HeaderValue::from_bytes(b"x=\xe9, private").unwrap());
    assert!(matches!(decide_caching("GET", &h, 200, 1, &rules_for_200(60)), CacheDecision::Bypass(_)));
    let mut h = HeaderMap::new();
    h.append("vary", HeaderValue::from_bytes(b"\xe9, *").unwrap());
    assert!(matches!(decide_caching("GET", &h, 200, 1, &rules_for_200(60)), CacheDecision::Bypass(_)));
}

#[test]
fn room_is_made_by_the_soonest_to_expire() {
    let mut m = Metrics::default();
    let req = HeaderMap::new();
    let mut s = CacheStore::new("z".into(), 30);
    let at = |s: &CacheStore, when: u64, size: usize| Entry {
        expires_at: when,
        ..entry(s, &vec![0u8; size], &[], &req)
    };
    for (key, when) in [("a", 300), ("b", 100), ("c", 200)] {
        let e = at(&s, when, 10);
        s.put(key.to_string(), e, &mut m);
    }
    let e = at(&s, 50, 15);
    s.put("d".to_string(), e, &mut m);
    let left: Vec<&str> = s.entries.iter().map(|(k, _)| k.as_str()).collect();
    assert_eq!(left, vec!["a", "d"]);
    assert_eq!(s.name, "z");
    let big = at(&s, 50, 31);
    s.put("e".to_string(), big, &mut m);
    assert_eq!(s.entries.len(), 2);
}
