use elrond::app::{build, ActionRt, PathRegex, ProxyTarget, Runtime, UserFile};
use elrond::config::{parse_str, TlsVersion};
use elrond::net::parse_socket;
use elrond::request_ctx::{RequestCtx, Uri};

fn built(text: &str) -> Result<Runtime, String> {
    build(&parse_str(text).unwrap(), &vec![])
}

fn uri(path: &str) -> Uri {
    Uri {
        authority: None,
        path: path.into(),
        query: None,
        path_and_query: Some(path.into()),
    }
}

#[test]
fn routing_prefers_exact_then_longest_prefix() {
    let rt = built(
        "http { server { listen 80;
            location / { return 200 root; }
            location /a { return 200 a; }
            location /a/b { return 200 ab; }
            location = /a/b { return 200 exact; } } }",
    )
    .unwrap();
    let s = &rt.listeners[0].vhosts[0].state;
    let path = |p: &str| s.route(p).unwrap();
    assert_eq!(path("/").path, "/");
    assert_eq!(path("/zzz").path, "/");
    assert_eq!(path("/abc").path, "/a");
    assert_eq!(path("/a/b/c").path, "/a/b");
    assert!(std::ptr::eq(path("/a/b"), &s.exact_locs[0]));
    assert_eq!(s.prefix_locs[0].path, "/a/b");
}

#[test]
fn no_location_no_route() {
    let rt = built("http { server { listen 80; location /only { return 200; } } }").unwrap();
    assert!(rt.listeners[0].vhosts[0].state.route("/other").is_none());
}

#[test]
fn virtual_hosts_are_chosen_by_name() {
    let rt = built(
        "http { server { listen 80; server_name one.test; location / { return 200; } }
                server { listen 80; server_name TWO.test; location / { return 200; } } }",
    )
    .unwrap();
    assert_eq!(rt.listeners.len(), 1);
    let l = &rt.listeners[0];
    let name = |h: Option<&str>| l.pick_state(h).server_name.clone().unwrap();
    assert_eq!(name(Some("one.test")), "one.test");
    assert_eq!(name(Some("two.TEST:8080")), "TWO.test");
    assert_eq!(name(Some("other.test")), "one.test");
    assert_eq!(name(None), "one.test");
}

#[test]
fn tls_and_plain_do_not_mix() {
    let err = built(
        "http { server { listen 443 ssl; ssl_certificate c; ssl_certificate_key k;
                    location / { return 200; } }
                server { listen 443; location / { return 200; } } }",
    )
    .unwrap_err();
    assert_eq!(
        err,
        "listen 0.0.0.0:443: cannot mix TLS and plain HTTP server blocks on the same address"
    );
}

#[test]
fn strictest_tls_versions_win() {
    let text = |a: &str, b: &str| {
        format!(
            "http {{ server {{ listen 443 ssl; ssl_certificate c; ssl_certificate_key k; {a}
                    location / {{ return 200; }} }}
                 server {{ listen 443 ssl; server_name b; ssl_certificate c; ssl_certificate_key k; {b}
                    location / {{ return 200; }} }} }}"
        )
    };
    let of = |a: &str, b: &str| built(&text(a, b)).unwrap().listeners[0].protocols.clone();
    assert_eq!(of("", ""), vec![]);
    assert_eq!(of("ssl_protocols TLSv1.2 TLSv1.3;", ""), vec![TlsVersion::Tls12, TlsVersion::Tls13]);
    assert_eq!(
        of("ssl_protocols TLSv1.2 TLSv1.3;", "ssl_protocols TLSv1.3;"),
        vec![TlsVersion::Tls13]
    );
}

#[test]
fn http3_is_per_address() {
    let rt = built(
        "http { server { listen 443 ssl; ssl_certificate c; ssl_certificate_key k;
                    location / { return 200; } }
                server { listen 443 http3; ssl_certificate c; ssl_certificate_key k;
                    location / { return 200; } }
                server { listen 8443 ssl; ssl_certificate c; ssl_certificate_key k;
                    location / { return 200; } } }",
    )
    .unwrap();
    assert!(rt.listeners[0].http3);
    assert!(!rt.listeners[1].http3);
}

#[test]
fn undeclared_zones_are_refused() {
    let with = |d: &str| {
        built(&format!(
            "http {{ server {{ listen 1; location / {{ proxy_pass http://a; {d} }} }} }}"
        ))
        .unwrap_err()
    };
    assert_eq!(
        with("proxy_cache z;"),
        "location uses proxy_cache 'z' but no proxy_cache_path declares that zone"
    );
    assert_eq!(
        with("limit_req zone=q;"),
        "location uses 'limit_req zone=q' but no 'limit_req_zone' declares that zone"
    );
    assert_eq!(
        with("limit_conn zone=q 1;"),
        "location uses 'limit_conn zone=q' but no 'limit_conn_zone' declares that zone"
    );
    assert_eq!(
        with("allow nowhere;").split(':').next().unwrap(),
        "location '/'"
    );
    assert!(with("add_header 'a b' c;").contains("invalid header name 'a b'"));
}

#[test]
fn headers_of_the_server_come_before_those_of_the_location() {
    let rt = built(
        "http { server { listen 1; add_header X-A s; location / { return 200; add_header X-A l; } } }",
    )
    .unwrap();
    let l = rt.listeners[0].vhosts[0].state.route("/").unwrap();
    let names: Vec<&str> = l.add_headers.iter().map(|(n, _)| n.as_str()).collect();
    assert_eq!(names, vec!["x-a", "x-a"]);
    assert_eq!(l.add_headers.len(), 2);
}

#[test]
fn upstreams_are_shared_and_direct_addresses_are_not() {
    let rt = built(
        "http { upstream u { server 10.0.0.1:80; }
            server { listen 1; location /a { proxy_pass http://u; } location /b { proxy_pass http://u/; }
                location /c { proxy_pass https://h:9; } } }",
    )
    .unwrap();
    let target = |p: &str| match &rt.listeners[0].vhosts[0].state.route(p).unwrap().action {
        ActionRt::Proxy { target: ProxyTarget::Fixed(b), .. } => *b,
        other => panic!("expected a fixed target, got {other:?}"),
    };
    assert_eq!(target("/a"), target("/b"));
    let c = &rt.pools.balancers[target("/c")];
    assert_eq!((c.scheme, c.peers[0].addr.as_str()), ("https", "h:9"));
}

#[test]
fn variable_targets_are_resolved_per_request() {
    let mut rt = built(
        "http { upstream u { server 10.0.0.1:80; }
            server { listen 1; location / { proxy_pass http://$arg_t; } } }",
    )
    .unwrap();
    let h = hyper::HeaderMap::new();
    let vars = vec![];
    let ask = |rt: &mut Runtime, t: &str| {
        let mut u = uri("/");
        u.query = Some(format!("t={t}"));
        let ctx = RequestCtx {
            peer: parse_socket("127.0.0.1:1").unwrap(),
            server_name: None,
            method: "GET",
            uri: &u,
            headers: &h,
            scheme: "http",
            user_vars: &vars,
        };
        let action = &rt.listeners[0].vhosts[0].state.route("/").unwrap().action;
        match action {
            ActionRt::Proxy { target, .. } => target.resolve(&ctx, &mut rt.pools),
            other => panic!("expected a proxy, got {other:?}"),
        }
    };
    assert_eq!(ask(&mut rt, ""), None);
    assert_eq!(ask(&mut rt, "u"), Some(0));
    let first = ask(&mut rt, "10.9.9.9:81").unwrap();
    assert_eq!(rt.pools.balancers[first].peers[0].addr, "10.9.9.9:81");
    assert_eq!(ask(&mut rt, "10.9.9.9:81"), Some(first));
    let other = ask(&mut rt, "10.9.9.9:82").unwrap();
    assert_ne!(other, first);
    rt.pools.balancers[first].peers[0].in_flight = 3;
    assert_eq!(ask(&mut rt, "10.9.9.9:81"), Some(first));
    assert_eq!(rt.pools.balancers[first].scheme, "http");
    assert_eq!(rt.pools.balancers[first].peers.len(), 1);
}

#[test]
fn credentials_come_from_the_file() {
    let cfg = parse_str(
        "http { server { listen 1; location / { return 200; auth_basic zone; auth_basic_user_file /u; } } }",
    )
    .unwrap();
    let read = |text: Result<&str, &str>| {
        build(
            &cfg,
            &vec![UserFile {
                path: "/u".into(),
                text: text.map(|s| s.to_string()).map_err(|e| e.to_string()),
            }],
        )
    };
    assert_eq!(
        read(Err("gone")).unwrap_err(),
        "cannot read auth_basic_user_file '/u': gone"
    );
    assert!(read(Ok("bob:plain\n")).unwrap_err().contains("non-bcrypt"));
    let rt = read(Ok("bob:$2y$04$abcdefghijklmnopqrstuuABCDEFGHIJKLMNOPQRSTUVWXYZ01234\n")).unwrap();
    let l = rt.listeners[0].vhosts[0].state.route("/").unwrap();
    assert_eq!(l.auth.as_ref().unwrap().users[0].0, "bob");
    assert!(build(&cfg, &vec![]).unwrap_err().contains("/u"));
}

#[test]
fn something_must_be_served() {
    assert_eq!(
        built("stream { server { listen 1; proxy_pass x; } }").unwrap_err(),
        "config has no 'http' block; nothing to serve"
    );
    assert_eq!(
        built("http { }").unwrap_err(),
        "config has no 'server' blocks (http or stream)"
    );
}

#[test]
fn streams_find_only_their_own_upstreams() {
    let rt = built(
        "http { upstream u { server 10.0.0.1:80; } server { listen 1; location / { return 200; } } }
         stream { upstream db { server 10.0.0.2:5432; }
            server { listen 15432; proxy_pass db; } server { listen 15433; proxy_pass u; } }",
    )
    .unwrap();
    let at = |i: usize| rt.pools.balancers[rt.stream_servers[i].1].peers[0].addr.clone();
    assert_eq!(at(0), "10.0.0.2:5432");
    assert_eq!(at(1), "u");
}

#[test]
fn probes_are_listed() {
    let rt = built(
        "http { upstream a { server 10.0.0.1:80; } upstream b { server 10.0.0.2:80; health_check uri=/ok; }
            server { listen 1; location / { return 200; } } }",
    )
    .unwrap();
    assert_eq!(rt.health_checks.len(), 1);
    assert_eq!(rt.health_checks[0].0, 1);
    assert_eq!(rt.health_checks[0].1.uri, "/ok");
}

#[test]
fn patterns_match_in_order() {
    let cs = PathRegex::new("^/x.*[.]php$", false).unwrap();
    let ci = PathRegex::new("^/x.*[.]php$", true).unwrap();
    assert!(cs.is_match("/x/a.php"));
    assert!(!cs.is_match("/x/a.PHP"));
    assert!(ci.is_match("/x/a.PHP"));
    assert!(!ci.is_match("/y/a.php"));
    assert!(PathRegex::new("(", false).is_err());
}

#[test]
fn pattern_location_beats_prefix() {
    let text = |tag: &str| {
        format!("http {{ server {{ listen 80; location / {{ return 200 {tag}; }} }} }}")
    };
    let mut rt = built(&text("prefix")).unwrap();
    let mut other = built(&text("pattern")).unwrap();
    let pattern = other.listeners[0].vhosts[0].state.prefix_locs.remove(0);
    let s = &mut rt.listeners[0].vhosts[0].state;
    s.regex_locs.push((PathRegex::new(r"\.png$", false).unwrap(), pattern));
    assert!(std::ptr::eq(s.route("/a.png").unwrap(), &s.regex_locs[0].1));
    assert!(std::ptr::eq(s.route("/a.PNG").unwrap(), &s.prefix_locs[0]));
    assert!(std::ptr::eq(s.route_by("/x", Some(0)).unwrap(), &s.regex_locs[0].1));
    assert!(std::ptr::eq(s.route_by("/x", None).unwrap(), &s.prefix_locs[0]));
    assert!(s.route_exact("/a.png").is_none());
}

#[test]
fn disjoint_tls_versions_are_refused() {
    let err = built(
        "http { server { listen 443 ssl; ssl_certificate c; ssl_certificate_key k;
                    ssl_protocols TLSv1.2; location / { return 200; } }
                server { listen 443 ssl; ssl_certificate c; ssl_certificate_key k;
                    ssl_protocols TLSv1.3; location / { return 200; } } }",
    )
    .unwrap_err();
    assert_eq!(
        err,
        "the server blocks on 0.0.0.0:443 have no 'ssl_protocols' version in common"
    );
}
