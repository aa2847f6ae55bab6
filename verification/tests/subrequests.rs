use elrond::auth_request::{check, subrequest, Reply};
use elrond::metrics::{record_mirror_attempt, record_mirror_failure, Metrics};
use elrond::mirror::{shadow_headers, shadow_urls};
use elrond::net::parse_socket;
use elrond::request_ctx::{RequestCtx, Uri};
use elrond::template::Template;
use hyper::HeaderMap;

fn with_ctx<T>(headers: &HeaderMap, f: impl FnOnce(&RequestCtx<'_>) -> T) -> T {
    let uri = Uri {
        authority: None,
        path: "/p".into(),
        query: None,
        path_and_query: Some("/p".into()),
    };
    let vars = vec![];
    f(&RequestCtx {
        peer: parse_socket("127.0.0.1:1").unwrap(),
        server_name: None,
        method: "POST",
        uri: &uri,
        headers,
        scheme: "http",
        user_vars: &vars,
    })
}

#[test]
fn service_verdicts() {
    assert!(check(&Reply::Status(200)).is_ok());
    assert!(check(&Reply::Status(299)).is_ok());
    let refused = |r: Reply| {
        let resp = check(&r).unwrap_err();
        (resp.status, String::from_utf8(resp.body).unwrap())
    };
    assert_eq!(refused(Reply::Status(401)), (401, "401 (auth_request denied)\n".into()));
    assert_eq!(refused(Reply::Status(302)), (302, "302 (auth_request denied)\n".into()));
    assert_eq!(
        refused(Reply::Unreachable),
        (500, "auth_request: subrequest connect / send error\n".into())
    );
    assert_eq!(refused(Reply::TimedOut), (504, "auth_request: subrequest timed out\n".into()));
    assert_eq!(
        refused(Reply::BadUrl { url: "u".into(), error: "e".into() }),
        (500, "auth_request: bad subrequest URL 'u': e\n".into())
    );
}

#[test]
fn service_is_told_who_asks() {
    let mut h = HeaderMap::new();
    h.insert("authorization", "Basic x".parse().unwrap());
    h.insert("user-agent", "client/1".parse().unwrap());
    h.insert("x-secret", "no".parse().unwrap());
    let sub = with_ctx(&h, |c| subrequest(&Template::parse("  http://auth$uri "), c)).unwrap();
    assert_eq!(sub.url, "http://auth/p");
    assert_eq!(sub.headers["authorization"], "Basic x");
    assert_eq!(sub.headers["x-original-method"], "POST");
    let agents: Vec<_> = sub.headers.get_all("user-agent").iter().collect();
    assert_eq!(agents, vec!["elrond-auth-request", "client/1"]);
    assert!(!sub.headers.contains_key("x-secret"));
    let err = with_ctx(&h, |c| subrequest(&Template::parse(" $nothing "), c)).unwrap_err();
    assert_eq!(err.status, 500);
}

#[test]
fn shadows_are_marked_and_empty_ones_skipped() {
    let mut h = HeaderMap::new();
    h.insert("cookie", "a=1".parse().unwrap());
    let urls = with_ctx(&h, |c| {
        shadow_urls(
            &vec![
                Template::parse("http://one$uri"),
                Template::parse("$nothing"),
                Template::parse(" http://two "),
            ],
            c,
        )
    });
    assert_eq!(urls, vec!["http://one/p", "http://two"]);
    let out = shadow_headers(&h);
    assert_eq!(out["x-elrond-mirror"], "1");
    assert_eq!(out["cookie"], "a=1");
    assert_eq!(out["user-agent"], "elrond-mirror");
    let mut m = Metrics::default();
    record_mirror_attempt(&mut m);
    record_mirror_attempt(&mut m);
    record_mirror_failure(&mut m);
    assert_eq!((m.mirror_attempts, m.mirror_failures), (2, 1));
}
