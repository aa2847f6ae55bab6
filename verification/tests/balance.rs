use elrond::app::{Balancer, Peer};
use elrond::config::ast::LbMethod;
use elrond::net::{parse_ip, parse_socket};
use elrond::request_ctx::{RequestCtx, Uri};
use elrond::time::Duration;
use std::collections::hash_map::DefaultHasher;
use std::hash::Hasher;

fn peer(addr: &str, weight: u32) -> Peer {
    Peer {
        addr: addr.into(),
        weight,
        max_fails: 1,
        fail_timeout: Duration::from_secs(10),
        backup: false,
        down: false,
        in_flight: 0,
        consecutive_failures: 0,
        failed_until_ms: 0,
    }
}

fn balancer(method: LbMethod, peers: Vec<Peer>) -> Balancer {
    Balancer { name: "t".into(), method, peers, scheme: "http", rr_counter: 0 }
}

fn root() -> Uri {
    Uri {
        authority: None,
        path: "/".into(),
        query: None,
        path_and_query: Some("/".into()),
    }
}

fn mk_ctx<'a>(
    uri: &'a Uri,
    headers: &'a hyper::HeaderMap,
    peer: &str,
    vars: &'a Vec<(String, String)>,
) -> RequestCtx<'a> {
    RequestCtx {
        peer: parse_socket(peer).unwrap(),
        server_name: None,
        method: "GET",
        uri,
        headers,
        scheme: "http",
        user_vars: vars,
    }
}

#[test]
fn weighted_rr_respects_weights() {
    let mut b = balancer(LbMethod::RoundRobin, vec![peer("a", 2), peer("b", 1)]);
    let (u, h, v) = (root(), hyper::HeaderMap::new(), Vec::new());
    let ctx = mk_ctx(&u, &h, "127.0.0.1:1", &v);
    let mut counts = std::collections::HashMap::new();
    for _ in 0..30 {
        let i = b.pick(&ctx).unwrap();
        *counts.entry(b.peers[i].addr.clone()).or_insert(0u32) += 1;
    }
    assert_eq!(counts["a"], 20);
    assert_eq!(counts["b"], 10);
}

#[test]
fn ip_hash_is_stable_per_client() {
    let mut b = balancer(LbMethod::IpHash, vec![peer("a", 1), peer("b", 1), peer("c", 1)]);
    let (u, h, v) = (root(), hyper::HeaderMap::new(), Vec::new());
    let ctx1 = mk_ctx(&u, &h, "10.0.0.1:5000", &v);
    let first = b.pick(&ctx1).unwrap();
    for _ in 0..10 {
        assert_eq!(b.pick(&ctx1).unwrap(), first);
    }
    // Different client should be allowed to map to a different peer
    // (we don't require it; just that the same client is stable).
    let ctx2 = mk_ctx(&u, &h, "10.0.0.2:5000", &v);
    let _ = b.pick(&ctx2).unwrap();
}

#[test]
fn least_conn_prefers_idle_peer() {
    let mut a = peer("a", 1);
    // Simulate two requests already in flight on `a`.
    a.in_flight = 2;
    let mut b = balancer(LbMethod::LeastConn, vec![a, peer("b", 1)]);
    let (u, h, v) = (root(), hyper::HeaderMap::new(), Vec::new());
    let ctx = mk_ctx(&u, &h, "127.0.0.1:1", &v);
    let chosen = b.pick(&ctx).unwrap();
    assert_eq!(b.peers[chosen].addr, "b");
}

fn now_ms() -> u64 {
    let now = std::time::SystemTime::now();
    now.duration_since(std::time::UNIX_EPOCH).unwrap().as_millis() as u64
}

#[test]
fn failed_peer_is_skipped_until_timeout() {
    let mut a = peer("a", 1);
    // Force `a` into a cooldown by recording max_fails failures.
    a.record_failure();
    assert!(!a.is_available(now_ms() + 1));
    let until = a.failed_until_ms;
    assert!(!a.is_available(until - 1));
    assert!(a.is_available(until));
    let mut b = balancer(LbMethod::RoundRobin, vec![a, peer("b", 1)]);
    let (u, h, v) = (root(), hyper::HeaderMap::new(), Vec::new());
    let ctx = mk_ctx(&u, &h, "127.0.0.1:1", &v);
    for _ in 0..5 {
        let i = b.pick(&ctx).unwrap();
        assert_eq!(b.peers[i].addr, "b");
    }
}

#[test]
fn backup_used_only_when_primaries_unavailable() {
    let mut primary = peer("primary", 1);
    primary.record_failure();
    let mut backup = peer("backup", 1);
    backup.backup = true;
    let mut b = balancer(LbMethod::RoundRobin, vec![primary, backup]);
    let (u, h, v) = (root(), hyper::HeaderMap::new(), Vec::new());
    let ctx = mk_ctx(&u, &h, "127.0.0.1:1", &v);
    let i = b.pick(&ctx).unwrap();
    assert_eq!(b.peers[i].addr, "backup");
    // Primary recovers → it preferred again.
    b.peers[0].record_success();
    let i = b.pick(&ctx).unwrap();
    assert_eq!(b.peers[i].addr, "primary");
}

#[test]
fn down_peer_is_never_picked() {
    let mut downed = peer("down", 1);
    downed.down = true;
    let mut b = balancer(LbMethod::RoundRobin, vec![downed, peer("alive", 1)]);
    let (u, h, v) = (root(), hyper::HeaderMap::new(), Vec::new());
    let ctx = mk_ctx(&u, &h, "127.0.0.1:1", &v);
    for _ in 0..5 {
        let i = b.pick(&ctx).unwrap();
        assert_eq!(b.peers[i].addr, "alive");
    }
}

#[test]
fn cooldown_ends_at_its_deadline() {
    let mut p = peer("a", 1);
    p.record_failure_at(1_000);
    assert_eq!(p.failed_until_ms, 11_000);
    assert!(!p.is_available(10_999));
    assert!(p.is_available(11_000));
}

#[test]
fn cooldown_starts_at_the_threshold() {
    let mut p = peer("a", 1);
    p.max_fails = 3;
    p.record_failure_at(1_000);
    p.record_failure_at(2_000);
    assert!(p.is_available(2_000));
    p.record_failure_at(3_000);
    assert!(!p.is_available(3_000));
    assert_eq!(p.failed_until_ms, 13_000);
}

#[test]
fn excluded_peer_is_not_picked() {
    let mut b = balancer(LbMethod::RoundRobin, vec![peer("a", 1), peer("b", 1)]);
    let ip = parse_socket("127.0.0.1:1").unwrap().ip;
    let exclude = vec!["a".to_string()];
    for _ in 0..4 {
        assert_eq!(b.pick_at(ip, &exclude, 0), Some(1));
    }
    let both = vec!["a".to_string(), "b".to_string()];
    assert_eq!(b.pick_at(ip, &both, 0), None);
}

#[test]
fn round_robin_takes_turns_in_order() {
    let mut b = balancer(LbMethod::RoundRobin, vec![peer("a", 2), peer("b", 1)]);
    let ip = parse_socket("127.0.0.1:1").unwrap().ip;
    let none: Vec<String> = Vec::new();
    let turns: Vec<usize> = (0..6).map(|_| b.pick_at(ip, &none, 0).unwrap()).collect();
    assert_eq!(turns, vec![0, 0, 1, 0, 0, 1]);
}

#[test]
fn exchange_is_counted_while_it_lasts() {
    let mut b = balancer(LbMethod::RoundRobin, vec![peer("a", 1)]);
    let token = b.enter(0);
    assert_eq!(b.peers[0].in_flight(), 1);
    b.settle_at(0, token, false, 5_000);
    assert_eq!(b.peers[0].in_flight(), 0);
    assert_eq!(b.peers[0].failed_until_ms, 15_000);
}

#[test]
fn entry_points_agree_on_the_peer() {
    let (u, h, v) = (root(), hyper::HeaderMap::new(), Vec::new());
    let ctx = mk_ctx(&u, &h, "127.0.0.1:1", &v);
    let mut b = balancer(LbMethod::RoundRobin, vec![peer("a", 1), peer("b", 1), peer("c", 1)]);
    let tried = vec!["a".to_string(), "c".to_string()];
    assert_eq!(b.pick_excluding(&ctx, &tried), Some(1));
    let all = vec!["a".to_string(), "b".to_string(), "c".to_string()];
    assert_eq!(b.pick_excluding(&ctx, &all), None);

    let peers = || vec![peer("a", 1), peer("b", 1), peer("c", 1)];
    let mut web = balancer(LbMethod::IpHash, peers());
    let mut stream = balancer(LbMethod::IpHash, peers());
    assert_eq!(web.pick(&ctx), stream.pick_for_addr(ctx.peer.ip));
    assert_eq!(stream.pick_for_addr(ctx.peer.ip), stream.pick_for_addr(ctx.peer.ip));
}

#[test]
fn weights_hold_for_large_counters() {
    let mut b = balancer(LbMethod::RoundRobin, vec![peer("a", 3), peer("b", 2)]);
    b.rr_counter = (1usize << 32) + 7;
    let ip = parse_socket("127.0.0.1:1").unwrap().ip;
    let mut counts = [0, 0];
    for _ in 0..5 {
        counts[b.pick_at(ip, &vec![], 0).unwrap()] += 1;
    }
    assert_eq!(counts, [3, 2]);
}

#[test]
fn ip_hash_takes_variant_and_integer() {
    let n = 97;
    let picked = |ip: &str| {
        let peers = (0..n).map(|i| peer(&format!("p{i}"), 1)).collect();
        balancer(LbMethod::IpHash, peers).pick_at(parse_ip(ip).unwrap(), &vec![], 0)
    };
    let mut v4 = DefaultHasher::new();
    v4.write_isize(0);
    v4.write_u32(u32::from_ne_bytes([10, 1, 2, 3]));
    assert_eq!(picked("10.1.2.3"), Some(v4.finish() as usize % n));
    let mut v6 = DefaultHasher::new();
    v6.write_isize(1);
    let mut octets = [0u8; 16];
    octets[0] = 0x20;
    octets[1] = 0x01;
    octets[15] = 7;
    v6.write_u128(u128::from_ne_bytes(octets));
    assert_eq!(picked("2001::7"), Some(v6.finish() as usize % n));
}

#[test]
fn one_round_serves_every_slot_by_its_weight() {
    let mut b = balancer(LbMethod::RoundRobin, vec![peer("a", 9), peer("b", 2), peer("c", 0)]);
    let pool = vec![1, 2];
    let picks: Vec<Option<usize>> = (0..6).map(|_| b.pick_weighted_rr(&pool)).collect();
    assert_eq!(picks, [1, 1, 2, 1, 1, 2].map(Some));
    assert_eq!(b.pick_weighted_rr(&vec![]), None);
}

#[test]
fn rounds_may_end_where_the_tickets_do() {
    let mut b = balancer(LbMethod::RoundRobin, vec![peer("a", 3), peer("b", 1)]);
    b.rr_counter = 0xffff_fffe;
    let picks: Vec<Option<usize>> = (0..4).map(|_| b.pick_weighted_rr(&vec![0, 1])).collect();
    assert_eq!(picks, [0, 1, 0, 0].map(Some));
}
