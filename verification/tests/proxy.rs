use elrond::app::{Balancer, Peer, ProxyCache};
use elrond::body::Response;
use elrond::cache::CacheStore;
use elrond::config::LbMethod;
use elrond::metrics::Metrics;
use elrond::net::{parse_ip, parse_socket};
use elrond::proxy::{
    add_forwarding_headers, bad_gateway, begin, lookup_cache_at, maybe_cache, maybe_cache_at,
    prepare_headers, read_timeout, retry_safe, strip_hop_by_hop, upstream_uri, Begin, NextTry,
    Retry,
};
use elrond::request_ctx::{RequestCtx, Uri};
use elrond::template::Template;
use elrond::time::{add_duration, Duration};
use hyper::header::{HeaderName, HeaderValue};
use hyper::HeaderMap;

fn uri() -> Uri {
    Uri {
        authority: None,
        path: "/p".into(),
        query: Some("q=1".into()),
        path_and_query: Some("/p?q=1".into()),
    }
}

fn ctx<'a>(
    method: &'a str,
    uri: &'a Uri,
    headers: &'a HeaderMap,
    vars: &'a Vec<(String, String)>,
) -> RequestCtx<'a> {
    RequestCtx {
        peer: parse_socket("203.0.113.7:5000").unwrap(),
        server_name: None,
        method,
        uri,
        headers,
        scheme: "https",
        user_vars: vars,
    }
}

fn balancer(addrs: &[&str]) -> Balancer {
    Balancer {
        name: "b".into(),
        method: LbMethod::RoundRobin,
        peers: addrs.iter().map(|a| Peer::direct(a)).collect(),
        scheme: "http",
        rr_counter: 0,
    }
}

#[test]
fn hop_by_hop_headers_stop_here() {
    let mut h = HeaderMap::new();
    for n in [
        "connection",
        "keep-alive",
        "proxy-authenticate",
        "proxy-authorization",
        "te",
        "trailers",
        "transfer-encoding",
        "upgrade",
        "x-mine",
    ] {
        h.insert(n, "v".parse().unwrap());
    }
    strip_hop_by_hop(&mut h);
    assert_eq!(h.len(), 1);
    assert_eq!(h["x-mine"], "v");
}

#[test]
fn forwarding_headers_name_the_client() {
    let mut h = HeaderMap::new();
    let ip = parse_ip("203.0.113.7").unwrap();
    add_forwarding_headers(&mut h, ip, "http");
    assert_eq!(h["x-real-ip"], "203.0.113.7");
    assert_eq!(h["x-forwarded-for"], "203.0.113.7");
    assert_eq!(h["x-forwarded-proto"], "http");
    h.insert("x-forwarded-for", "198.51.100.1".parse().unwrap());
    add_forwarding_headers(&mut h, ip, "https");
    assert_eq!(h["x-forwarded-for"], "198.51.100.1, 203.0.113.7");
    assert_eq!(h["x-forwarded-proto"], "https");
}

#[test]
fn set_headers_come_last_and_empty_removes() {
    let (u, vars) = (uri(), vec![]);
    let mut h = HeaderMap::new();
    h.insert("host", "client.test".parse().unwrap());
    h.insert("x-drop", "1".parse().unwrap());
    h.insert("upgrade", "x".parse().unwrap());
    let original = h.clone();
    let c = ctx("GET", &u, &original, &vars);
    let list = vec![
        ("host".to_string(), Template::parse("$host")),
        ("x-drop".to_string(), Template::parse("")),
        ("x-real-ip".to_string(), Template::parse("$remote_addr!")),
        ("x-bad".to_string(), Template::parse("a\nb")),
    ];
    prepare_headers(&mut h, &list, &c);
    assert_eq!(h["host"], "client.test");
    assert_eq!(h["x-real-ip"], "203.0.113.7!");
    assert_eq!(h["x-forwarded-proto"], "https");
    assert!(!h.contains_key("x-drop"));
    assert!(!h.contains_key("x-bad"));
    assert!(!h.contains_key("upgrade"));
}

#[test]
fn upstream_uri_keeps_path_and_query() {
    assert_eq!(upstream_uri("http", "10.0.0.1:80", &uri()), "http://10.0.0.1:80/p?q=1");
    let bare = Uri { authority: None, path: "*".into(), query: None, path_and_query: None };
    assert_eq!(upstream_uri("https", "h", &bare), "https://h/");
}

#[test]
fn only_idempotent_methods_are_retried() {
    for m in ["GET", "HEAD", "OPTIONS", "DELETE"] {
        assert!(retry_safe(m));
        assert_eq!(Retry::new(m, 9).max, 3);
        assert_eq!(Retry::new(m, 2).max, 2);
        assert_eq!(Retry::new(m, 0).max, 1);
    }
    for m in ["POST", "PUT", "PATCH", "get"] {
        assert!(!retry_safe(m));
        assert_eq!(Retry::new(m, 9).max, 1);
    }
}

#[test]
fn retry_goes_to_another_peer_and_gives_up() {
    let mut m = Metrics::default();
    let mut b = balancer(&["a", "b"]);
    let ip = parse_ip("203.0.113.7").unwrap();
    let mut r = Retry::new("GET", b.peers.len());
    let mut asked = Vec::new();
    // The first peer answers 503, the second cannot be reached.
    for reply in [Some(503), None] {
        match r.next_at(&mut b, ip, 0, &mut m) {
            NextTry::Send { peer, token } => {
                asked.push(b.peers[peer].addr.clone());
                assert_eq!(b.peers[peer].in_flight, 1);
                assert!(!r.settle_at(&mut b, peer, token, reply, 0, &mut m));
                assert_eq!(b.peers[peer].in_flight, 0);
            }
            other => panic!("expected a send, got {other:?}"),
        }
    }
    assert_ne!(asked[0], asked[1]);
    assert!(matches!(r.next_at(&mut b, ip, 0, &mut m), NextTry::LastAnswer));
    assert_eq!((m.proxy_attempts, m.proxy_failures), (2, 2));
}

// Forward a GET until it ends: who was asked, and how it ended without a good
// reply.
fn forward(b: &mut Balancer, replies: &[Option<u16>]) -> (Vec<String>, Option<NextTry>) {
    let mut m = Metrics::default();
    let ip = parse_ip("203.0.113.7").unwrap();
    let mut r = Retry::new("GET", b.peers.len());
    let mut asked = Vec::new();
    loop {
        match r.next_at(b, ip, 0, &mut m) {
            NextTry::Send { peer, token } => {
                asked.push(b.peers[peer].addr.clone());
                let reply = replies[asked.len() - 1];
                if r.settle_at(b, peer, token, reply, 0, &mut m) {
                    return (asked, None);
                }
            }
            end => return (asked, Some(end)),
        }
    }
}

#[test]
fn whole_run_keeps_to_its_rules() {
    let names = ["a", "b", "c", "d"];
    let runs: [&[Option<u16>]; 4] = [
        &[Some(503), None, Some(200)],
        &[Some(404)],
        &[Some(503), Some(500), None],
        &[None, None, None],
    ];
    for replies in runs {
        let mut b = balancer(&names);
        let (asked, end) = forward(&mut b, replies);
        assert_eq!(asked.len(), replies.len());
        let mut once = asked.clone();
        once.sort();
        once.dedup();
        assert_eq!(once.len(), asked.len());
        let last = replies[replies.len() - 1];
        if last.is_some() {
            assert!(end.is_none());
        } else if replies.iter().any(|r| r.is_some()) {
            assert!(matches!(end, Some(NextTry::LastAnswer)));
        } else {
            assert!(matches!(end, Some(NextTry::BadGateway)));
        }
    }
}

#[test]
fn unreachable_upstream_is_a_bad_gateway() {
    let mut m = Metrics::default();
    let mut b = balancer(&["a"]);
    let ip = parse_ip("203.0.113.7").unwrap();
    let mut r = Retry::new("POST", 1);
    match r.next_at(&mut b, ip, 0, &mut m) {
        NextTry::Send { peer, token } => {
            assert!(!r.settle_at(&mut b, peer, token, None, 0, &mut m));
        }
        other => panic!("expected a send, got {other:?}"),
    }
    assert!(matches!(r.next_at(&mut b, ip, 0, &mut m), NextTry::BadGateway));
    let resp = bad_gateway();
    assert_eq!((resp.status, &resp.body[..]), (502, &b"502 Bad Gateway\n"[..]));
}

#[test]
fn good_reply_is_delivered() {
    let mut m = Metrics::default();
    let mut b = balancer(&["a"]);
    b.peers[0].consecutive_failures = 7;
    let (u, h, vars) = (uri(), HeaderMap::new(), vec![]);
    let c = ctx("GET", &u, &h, &vars);
    let mut r = Retry::new("GET", 1);
    match r.next(&mut b, &c, &mut m) {
        NextTry::Send { peer, token } => {
            assert!(r.settle(&mut b, peer, token, Some(404), &mut m));
        }
        other => panic!("expected a send, got {other:?}"),
    }
    assert_eq!(b.peers[0].consecutive_failures, 0);
    assert_eq!(m.proxy_failures, 0);
}

#[test]
fn stored_response_comes_back_as_a_hit() {
    let mut m = Metrics::default();
    let mut stores = vec![CacheStore::new("z".into(), 1 << 20)];
    let cache = ProxyCache {
        store: 0,
        key_template: Template::parse("$request_uri"),
        valid_rules: vec![(vec![200], Duration::from_secs(60))],
    };
    let (u, h, vars) = (uri(), HeaderMap::new(), vec![]);
    let c = ctx("GET", &u, &h, &vars);
    assert!(matches!(begin(Some(&cache), &mut stores, 1, &c, &mut m), Begin::Try(_)));
    let mut headers = HeaderMap::new();
    headers.insert("etag", "\"1\"".parse().unwrap());
    headers.append("link", "one".parse().unwrap());
    headers.append("link", "two".parse().unwrap());
    let resp = Response { status: 200, headers, body: b"payload".to_vec() };
    let out = maybe_cache(resp, Some(&cache), &mut stores, &c, &mut m);
    assert_eq!(out.headers["x-cache"], "MISS");
    match begin(Some(&cache), &mut stores, 1, &c, &mut m) {
        Begin::Hit(r) => {
            assert_eq!((r.status, &r.body[..]), (200, &b"payload"[..]));
            assert_eq!(r.headers["etag"], "\"1\"");
            let links: Vec<_> = r.headers.get_all("link").iter().collect();
            assert_eq!(links, vec!["one", "two"]);
            assert_eq!(r.headers["x-cache"], "HIT");
        }
        Begin::Try(_) => panic!("expected a hit"),
    }
    // Another method does not consult the cache.
    let head = ctx("HEAD", &u, &h, &vars);
    assert!(matches!(begin(Some(&cache), &mut stores, 1, &head, &mut m), Begin::Try(_)));
    assert_eq!((m.cache_hits, m.cache_misses), (1, 1));
}

#[test]
fn stored_response_is_found_until_it_expires() {
    let mut m = Metrics::default();
    let mut stores = vec![CacheStore::new("z".into(), 1 << 20)];
    let cache = ProxyCache {
        store: 0,
        key_template: Template::parse("$request_uri"),
        valid_rules: vec![(vec![], Duration::from_secs(60))],
    };
    let (u, h, vars) = (uri(), HeaderMap::new(), vec![]);
    let c = ctx("GET", &u, &h, &vars);
    let resp = Response { status: 200, headers: HeaderMap::new(), body: b"x".to_vec() };
    maybe_cache_at(resp, Some(&cache), &mut stores, 1000, &c, &mut m);
    let end = add_duration(1000, Duration::from_secs(60));
    assert!(lookup_cache_at(&cache, &mut stores, end - 1, &c, &mut m).is_some());
    assert!(lookup_cache_at(&cache, &mut stores, end, &c, &mut m).is_none());
    assert!(lookup_cache_at(&cache, &mut stores, end - 1, &c, &mut m).is_none());
    assert_eq!((m.cache_hits, m.cache_misses), (1, 2));
}

#[test]
fn uncacheable_responses_are_marked() {
    let mut m = Metrics::default();
    let mut stores = vec![CacheStore::new("z".into(), 1 << 20)];
    let cache = ProxyCache {
        store: 0,
        key_template: Template::parse("$request_uri"),
        valid_rules: vec![(vec![200], Duration::from_secs(60))],
    };
    let (u, h, vars) = (uri(), HeaderMap::new(), vec![]);
    let plain = |status: u16| Response { status, headers: HeaderMap::new(), body: vec![] };
    let get = ctx("GET", &u, &h, &vars);
    let out = maybe_cache(plain(500), Some(&cache), &mut stores, &get, &mut m);
    assert_eq!(out.headers["x-cache"], "BYPASS");
    assert_eq!(m.cache_bypass, 1);
    let head = ctx("HEAD", &u, &h, &vars);
    let out = maybe_cache(plain(200), Some(&cache), &mut stores, &head, &mut m);
    assert_eq!(out.headers["x-cache"], "BYPASS");
    let out = maybe_cache(plain(200), None, &mut stores, &get, &mut m);
    assert!(!out.headers.contains_key("x-cache"));
}

#[test]
fn read_timeout_defaults_to_a_minute() {
    assert_eq!(read_timeout(None), Duration::from_secs(60));
    assert_eq!(read_timeout(Some(Duration::from_secs(5))), Duration::from_secs(5));
}

#[test]
fn forwarding_chain_keeps_what_came() {
    let ip = parse_ip("203.0.113.7").unwrap();
    let mut h = HeaderMap::new();
    h.append("x-forwarded-for", "198.51.100.1".parse().unwrap());
    h.append("x-forwarded-for", HeaderValue::from_bytes(b"\xe9").unwrap());
    add_forwarding_headers(&mut h, ip, "http");
    let all: Vec<&[u8]> = h.get_all("x-forwarded-for").iter().map(|v| v.as_bytes()).collect();
    assert_eq!(all, vec![&b"198.51.100.1, \xe9, 203.0.113.7"[..]]);
}

#[test]
fn every_stored_header_is_replayed() {
    let mut m = Metrics::default();
    let mut stores = vec![CacheStore::new("z".into(), 1 << 20)];
    let cache = ProxyCache {
        store: 0,
        key_template: Template::parse("k"),
        valid_rules: vec![(vec![], Duration::from_secs(60))],
    };
    let (u, h, vars) = (uri(), HeaderMap::new(), vec![]);
    let c = ctx("GET", &u, &h, &vars);
    let mut headers = HeaderMap::new();
    headers.insert(HeaderName::from_lowercase(b"x-\"q").unwrap(), "1".parse().unwrap());
    for i in 0..7000 {
        headers.append("link", i.to_string().parse().unwrap());
    }
    let resp = Response { status: 200, headers, body: vec![] };
    maybe_cache_at(resp, Some(&cache), &mut stores, 0, &c, &mut m);
    let hit = lookup_cache_at(&cache, &mut stores, 1, &c, &mut m).unwrap();
    assert_eq!(hit.headers.get_all("link").iter().count(), 7000);
    let quoted = hit.headers.iter().find(|(n, _)| n.as_str() == "x-\"q").unwrap();
    assert_eq!(quoted.1, "1");
    assert_eq!(hit.headers["x-cache"], "HIT");
}
