use elrond::app::{build, Runtime, UserFile};
use elrond::auth_request::Reply;
use elrond::body::Response;
use elrond::config::parse_str;
use elrond::metrics::Metrics;
use elrond::net::parse_socket;
use elrond::pipeline::{refusal_tag, Flow, Next, Stage};
use elrond::request_ctx::{RequestCtx, Uri};
use elrond::server::{
    act, apply_add_headers, apply_expires, apply_expires_at, check_length, evaluate_maps, finish,
    http3_port, open, select_state, Opening, Step,
};
use elrond::time::Duration;
use hyper::HeaderMap;

fn built(text: &str) -> Runtime {
    build(&parse_str(text).unwrap(), &vec![]).unwrap()
}

fn uri(path: &str) -> Uri {
    Uri {
        authority: None,
        path: path.into(),
        query: None,
        path_and_query: Some(path.into()),
    }
}

fn ctx<'a>(uri: &'a Uri, headers: &'a HeaderMap, vars: &'a Vec<(String, String)>) -> RequestCtx<'a> {
    RequestCtx {
        peer: parse_socket("203.0.113.7:5000").unwrap(),
        server_name: Some("srv"),
        method: "GET",
        uri,
        headers,
        scheme: "http",
        user_vars: vars,
    }
}

fn body(r: &Response) -> &str {
    std::str::from_utf8(&r.body).unwrap()
}

#[test]
fn announced_length_is_limited() {
    let mut h = HeaderMap::new();
    h.insert("content-length", "101".parse().unwrap());
    let r = check_length(100, &h).unwrap();
    assert_eq!(r.status, 413);
    assert_eq!(body(&r), "413 Request Entity Too Large (limit 100 bytes)\n");
    assert!(check_length(101, &h).is_none());
    assert!(check_length(0, &h).is_none());
    h.insert("content-length", "many".parse().unwrap());
    assert!(check_length(1, &h).is_none());
    assert!(check_length(1, &HeaderMap::new()).is_none());
}

#[test]
fn host_header_selects_the_server() {
    let rt = built(
        "http { server { listen 80; server_name a.test; location / { return 200; } }
                server { listen 80; server_name b.test; location / { return 200; } } }",
    );
    let l = &rt.listeners[0];
    let mut h = HeaderMap::new();
    let mut u = uri("/");
    assert_eq!(select_state(l, &h, &u).server_name.as_deref(), Some("a.test"));
    u.authority = Some("b.test:443".into());
    assert_eq!(select_state(l, &h, &u).server_name.as_deref(), Some("b.test"));
    h.insert("host", "a.test".parse().unwrap());
    assert_eq!(select_state(l, &h, &u).server_name.as_deref(), Some("a.test"));
}

#[test]
fn maps_see_the_maps_above_them() {
    let rt = built(
        "http { map $host $pool { default p0; one.test p1; }
                map $pool $tier { p1 gold; default none; }
                map $never $empty { x y; }
                server { listen 80; location / { return 200; } } }",
    );
    let maps = &rt.listeners[0].vhosts[0].state.maps;
    let (u, none) = (uri("/"), vec![]);
    let mut h = HeaderMap::new();
    h.insert("host", "one.test".parse().unwrap());
    let vars = evaluate_maps(maps, &ctx(&u, &h, &none));
    let pair = |i: usize| (vars[i].0.as_str(), vars[i].1.as_str());
    assert_eq!(pair(0), ("pool", "p1"));
    assert_eq!(pair(1), ("tier", "gold"));
    assert_eq!(pair(2), ("empty", ""));
    let empty = HeaderMap::new();
    let vars = evaluate_maps(maps, &ctx(&u, &empty, &none));
    assert_eq!(vars[0].1, "p0");
    assert_eq!(vars[1].1, "none");
}

#[test]
fn opening_checks_length_before_route() {
    let rt = built(
        "http { server { listen 80; client_max_body_size 10; location /a { return 200; } } }",
    );
    let s = &rt.listeners[0].vhosts[0].state;
    let mut h = HeaderMap::new();
    assert!(matches!(open(s, &h, "/a"), Opening::At(l) if l.path == "/a"));
    assert!(matches!(open(s, &h, "/b"), Opening::NotFound(r) if r.status == 404));
    h.insert("content-length", "11".parse().unwrap());
    assert!(matches!(open(s, &h, "/b"), Opening::TooLarge(r) if r.status == 413));
}

#[test]
fn actions_become_steps() {
    let mut rt = built(
        "http { server { listen 80; location /r { return 201 'hi $remote_addr'; }
            location /m { metrics; } location /f { root /srv; } location /t { root /srv; try_files $uri =404; }
            location /p { proxy_pass http://10.0.0.1:1; } location /d { proxy_pass http://$arg_x; } } }",
    );
    let (u, h, vars) = (uri("/"), HeaderMap::new(), vec![]);
    let c = ctx(&u, &h, &vars);
    let m = Metrics::default();
    let step = |rt: &mut Runtime, p: &str| {
        let l = rt.listeners[0].vhosts[0].state.route(p).unwrap();
        act(&l.action, &c, &mut rt.pools, &m, "9.9", "1.500")
    };
    match step(&mut rt, "/r") {
        Step::Respond(r) => assert_eq!((r.status, body(&r)), (201, "hi 203.0.113.7")),
        other => panic!("{other:?}"),
    }
    match step(&mut rt, "/m") {
        Step::Respond(r) => {
            assert!(body(&r).contains("elrond_build_info{version=\"9.9\"} 1"));
            assert!(body(&r).contains("elrond_uptime_seconds 1.500\n"));
            assert_eq!(r.headers["content-type"], "text/plain; version=0.0.4; charset=utf-8");
        }
        other => panic!("{other:?}"),
    }
    assert!(matches!(step(&mut rt, "/f"), Step::File));
    assert!(matches!(step(&mut rt, "/t"), Step::TryFiles));
    assert!(matches!(step(&mut rt, "/p"), Step::Forward { .. }));
    match step(&mut rt, "/d") {
        Step::Respond(r) => {
            assert_eq!(r.status, 502);
            assert_eq!(body(&r), "502 Bad Gateway (empty / unresolvable proxy_pass)\n");
        }
        other => panic!("{other:?}"),
    }
}

#[test]
fn location_headers_override_and_bad_values_are_skipped() {
    let rt = built(
        "http { server { listen 80; add_header X-A server; location / { return 200;
            add_header X-A location; add_header X-B $uri; add_header X-C 'a\nb'; expires 1h; } } }",
    );
    let l = rt.listeners[0].vhosts[0].state.route("/").unwrap();
    let (u, h, vars) = (uri("/p"), HeaderMap::new(), vec![]);
    let mut out = HeaderMap::new();
    out.insert("x-a", "upstream".parse().unwrap());
    apply_add_headers(&mut out, &l.add_headers, &ctx(&u, &h, &vars));
    assert_eq!(out["x-a"], "location");
    assert_eq!(out["x-b"], "/p");
    assert!(!out.contains_key("x-c"));
}

#[test]
fn expires_sets_both_headers() {
    let mut h = HeaderMap::new();
    apply_expires_at(&mut h, Duration::from_secs(3600), Some(1_000_000_000));
    assert_eq!(h["cache-control"], "max-age=3600");
    assert_eq!(h["expires"], "Sun, 09 Sep 2001 02:46:40 GMT");
    let mut h = HeaderMap::new();
    apply_expires_at(&mut h, Duration::from_secs(5), None);
    assert_eq!(h["cache-control"], "max-age=5");
    assert!(!h.contains_key("expires"));
    let mut h = HeaderMap::new();
    apply_expires(&mut h, Duration::from_secs(5));
    assert!(h["expires"].to_str().unwrap().ends_with(" GMT"));
}

#[test]
fn http3_is_advertised_before_own_headers() {
    let rt = built(
        "http { server { listen 8443 ssl http3; ssl_certificate c; ssl_certificate_key k;
            location / { return 200; } location /own { return 200; add_header Alt-Svc custom; } }
         server { listen 8444 ssl; ssl_certificate c; ssl_certificate_key k; location / { return 200; } }
         server { listen 8080; location / { return 200; } } }",
    );
    assert_eq!(http3_port(&rt.listeners[0]), Some(8443));
    assert_eq!(http3_port(&rt.listeners[1]), None);
    assert_eq!(http3_port(&rt.listeners[2]), None);
    let s = &rt.listeners[0].vhosts[0].state;
    let (u, h, vars) = (uri("/"), HeaderMap::new(), vec![]);
    let c = ctx(&u, &h, &vars);
    let plain = || Response { status: 200, headers: HeaderMap::new(), body: vec![] };
    let r = finish(plain(), s, s.route("/"), &c, Some(8443), None);
    assert_eq!(r.headers["alt-svc"], "h3=\":8443\"; ma=86400");
    let r = finish(plain(), s, s.route("/own"), &c, Some(8443), None);
    assert_eq!(r.headers["alt-svc"], "custom");
    let r = finish(plain(), s, None, &c, None, None);
    assert!(!r.headers.contains_key("alt-svc"));
}

#[test]
fn finished_response_is_compressed_where_wanted() {
    let rt = built(
        "http { server { listen 80; gzip on; gzip_min_length 10; location / { return 200; }
            location /off { return 200; gzip off; } } }",
    );
    let s = &rt.listeners[0].vhosts[0].state;
    let mut h = HeaderMap::new();
    h.insert("accept-encoding", "gzip".parse().unwrap());
    let (u, vars) = (uri("/"), vec![]);
    let c = ctx(&u, &h, &vars);
    let page = |n: usize| {
        let mut headers = HeaderMap::new();
        headers.insert("content-type", "text/plain".parse().unwrap());
        Response { status: 200, headers, body: vec![b'x'; n] }
    };
    let r = finish(page(100), s, s.route("/"), &c, None, None);
    assert_eq!(r.headers["content-encoding"], "gzip");
    let r = finish(page(9), s, s.route("/"), &c, None, None);
    assert!(!r.headers.contains_key("content-encoding"));
    let r = finish(page(100), s, s.route("/off"), &c, None, None);
    assert!(!r.headers.contains_key("content-encoding"));
}

fn guarded() -> Runtime {
    let hash = bcrypt::hash("pw", 4).unwrap();
    let cfg = parse_str(
        "http { limit_req_zone $remote_addr zone=r:1m rate=1r/s;
            limit_conn_zone $remote_addr zone=c:1m;
            server { listen 80; location / { return 200; allow 203.0.113.0/24; deny all;
                limit_req zone=r burst=2; limit_conn zone=c 1; auth_request http://auth.test$uri;
                auth_basic zone; auth_basic_user_file /u; mirror http://shadow.test$uri; mirror ''; }
            location /open { return 200; } } }",
    )
    .unwrap();
    build(&cfg, &vec![UserFile { path: "/u".into(), text: Ok(format!("bob:{hash}\n")) }]).unwrap()
}

#[test]
fn stages_run_in_order() {
    let mut rt = guarded();
    let mut m = Metrics::default();
    let mut h = HeaderMap::new();
    h.insert("authorization", "Basic Ym9iOnB3".parse().unwrap());
    h.insert("cookie", "a=1".parse().unwrap());
    let (u, vars) = (uri("/x"), vec![]);
    let c = ctx(&u, &h, &vars);
    let l = rt.listeners[0].vhosts[0].state.route("/").unwrap();
    let (mut f, next) =
        Flow::start(l, &c, &rt.limit_req_zones, &mut rt.limit_conn_zones, &mut m);
    match next {
        Next::TakeToken { zone, burst, key } => {
            assert_eq!((zone, burst, key.as_str()), (0, 2, "203.0.113.7"));
        }
        other => panic!("{other:?}"),
    }
    let next =
        f.rate_checked(true, l, &c, &rt.limit_req_zones, &mut rt.limit_conn_zones, &mut m);
    match next {
        Next::Ask(sub) => {
            assert_eq!(sub.url, "http://auth.test/x");
            assert_eq!(sub.headers["x-original-uri"], "/x");
            assert_eq!(sub.headers["x-original-method"], "GET");
            assert_eq!(sub.headers["cookie"], "a=1");
            assert_eq!(sub.headers["user-agent"], "elrond-auth-request");
        }
        other => panic!("{other:?}"),
    }
    assert_eq!(f.held, Some((0, "203.0.113.7".to_string())));
    // The one slot is taken: a second request is turned away.
    let (mut g, _) = Flow::start(l, &c, &rt.limit_req_zones, &mut rt.limit_conn_zones, &mut m);
    match g.rate_checked(true, l, &c, &rt.limit_req_zones, &mut rt.limit_conn_zones, &mut m) {
        Next::Refuse(r) => assert_eq!(r.status, 503),
        other => panic!("{other:?}"),
    }
    let reply = Reply::Status(204);
    assert!(matches!(f.authorized(&reply, l, &c), Next::Identify));
    match f.identify(l, &c) {
        Next::Shadow(urls) => assert_eq!(urls, vec!["http://shadow.test/x"]),
        other => panic!("{other:?}"),
    }
    assert!(matches!(f.mirrored(), Next::Serve));
    assert_eq!(f.stage, Stage::Serve);
    f.finish(&mut rt.limit_conn_zones);
    assert!(rt.limit_conn_zones[0].active.is_empty());
    assert_eq!((m.limit_req_allowed, m.limit_conn_allowed, m.limit_conn_denied), (2, 1, 1));
}

#[test]
fn refusals_come_from_the_first_failing_stage() {
    let mut rt = guarded();
    let mut m = Metrics::default();
    let (u, h, vars) = (uri("/x"), HeaderMap::new(), vec![]);
    let l = rt.listeners[0].vhosts[0].state.route("/").unwrap();
    let mut outside = ctx(&u, &h, &vars);
    outside.peer = parse_socket("198.51.100.1:1").unwrap();
    let (_, next) = Flow::start(l, &outside, &rt.limit_req_zones, &mut rt.limit_conn_zones, &mut m);
    assert!(matches!(next, Next::Refuse(r) if r.status == 403));
    let c = ctx(&u, &h, &vars);
    let (mut f, _) = Flow::start(l, &c, &rt.limit_req_zones, &mut rt.limit_conn_zones, &mut m);
    let next =
        f.rate_checked(false, l, &c, &rt.limit_req_zones, &mut rt.limit_conn_zones, &mut m);
    assert!(matches!(next, Next::Refuse(r) if r.status == 503));
    let (mut f, _) = Flow::start(l, &c, &rt.limit_req_zones, &mut rt.limit_conn_zones, &mut m);
    f.rate_checked(true, l, &c, &rt.limit_req_zones, &mut rt.limit_conn_zones, &mut m);
    let denied = Reply::Status(403);
    match f.authorized(&denied, l, &c) {
        Next::Refuse(r) => assert_eq!((r.status, body(&r)), (403, "403 (auth_request denied)\n")),
        other => panic!("{other:?}"),
    }
    // Past the service, but without credentials.
    let ok = Reply::Status(200);
    assert!(matches!(f.authorized(&ok, l, &c), Next::Identify));
    match f.identify(l, &c) {
        Next::Refuse(r) => assert_eq!(r.status, 401),
        other => panic!("{other:?}"),
    }
    assert_eq!(refusal_tag(f.stage), "auth_basic challenge");
}

#[test]
fn open_location_serves_at_once() {
    let mut rt = guarded();
    let mut m = Metrics::default();
    let (u, h, vars) = (uri("/open"), HeaderMap::new(), vec![]);
    let l = rt.listeners[0].vhosts[0].state.route("/open").unwrap();
    let (f, next) = Flow::start(
        l,
        &ctx(&u, &h, &vars),
        &rt.limit_req_zones,
        &mut rt.limit_conn_zones,
        &mut m,
    );
    assert!(matches!(next, Next::Serve));
    assert_eq!(f.held, None);
}
