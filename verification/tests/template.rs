use elrond::net::parse_socket;
use elrond::request_ctx::{percent_decode, RequestCtx, Uri};
use elrond::static_files::url_encode_segment;
use elrond::template::Template;
use hyper::HeaderMap;

fn uri(s: &str) -> Uri {
    let u: hyper::Uri = s.parse().unwrap();
    Uri {
        authority: u.authority().map(|a| a.to_string()),
        path: u.path().to_string(),
        query: u.query().map(|q| q.to_string()),
        path_and_query: u.path_and_query().map(|p| p.to_string()),
    }
}

fn render(
    t: &Template,
    method: &str,
    target: &str,
    headers: &HeaderMap,
    peer: &str,
    server_name: Option<&str>,
) -> String {
    let u = uri(target);
    let vars = vec![("pool".to_string(), "old".to_string()), ("pool".to_string(), "new".to_string())];
    let ctx = RequestCtx {
        peer: parse_socket(peer).unwrap(),
        server_name,
        method,
        uri: &u,
        headers,
        scheme: "http",
        user_vars: &vars,
    };
    t.render(&ctx)
}

#[test]
fn pure_literal() {
    let t = Template::parse("hello world");
    assert!(t.is_literal());
    assert_eq!(render(&t, "GET", "/", &HeaderMap::new(), "127.0.0.1:1", None), "hello world");
}

#[test]
fn standard_variables() {
    let t = Template::parse("$scheme://$host$request_uri");
    let mut h = HeaderMap::new();
    h.insert("host", "example.test".parse().unwrap());
    assert_eq!(
        render(&t, "GET", "/path?a=1", &h, "10.0.0.1:443", Some("srv")),
        "http://example.test/path?a=1"
    );
}

#[test]
fn host_falls_back_to_server_name() {
    let t = Template::parse("$host");
    assert_eq!(
        render(&t, "GET", "/", &HeaderMap::new(), "127.0.0.1:1", Some("fallback")),
        "fallback"
    );
}

#[test]
fn query_args() {
    let t = Template::parse("hello $arg_name!");
    assert_eq!(
        render(&t, "GET", "/?name=alice&id=2", &HeaderMap::new(), "127.0.0.1:1", None),
        "hello alice!"
    );
}

#[test]
fn http_header_underscore_mapping() {
    let t = Template::parse("$http_user_agent");
    let mut h = HeaderMap::new();
    h.insert("user-agent", "elrond-test/1".parse().unwrap());
    assert_eq!(render(&t, "GET", "/", &h, "127.0.0.1:1", None), "elrond-test/1");
}

#[test]
fn braced_and_unknown_var() {
    let t = Template::parse("a=${request_method} b=$nope c=$$");
    assert_eq!(
        render(&t, "POST", "/", &HeaderMap::new(), "127.0.0.1:1", None),
        "a=POST b= c=$$"
    );
}

#[test]
fn cookie_lookup() {
    let t = Template::parse("$cookie_session");
    let mut h = HeaderMap::new();
    h.insert("cookie", "a=1; session=abc; b=2".parse().unwrap());
    assert_eq!(render(&t, "GET", "/", &h, "127.0.0.1:1", None), "abc");
}

#[test]
fn query_args_are_decoded() {
    let t = Template::parse("$arg_q");
    assert_eq!(
        render(&t, "GET", "/?q=a%2Fb+c%zz", &HeaderMap::new(), "127.0.0.1:1", None),
        "a/b c%zz"
    );
    assert_eq!(
        render(&t, "GET", "/?q=%ff", &HeaderMap::new(), "127.0.0.1:1", None),
        "\u{fffd}"
    );
}

#[test]
fn last_published_value_counts() {
    let t = Template::parse("<$pool>");
    assert_eq!(render(&t, "GET", "/", &HeaderMap::new(), "127.0.0.1:1", None), "<new>");
}

#[test]
fn client_address_and_path() {
    let t = Template::parse("$remote_addr $uri $args");
    assert_eq!(
        render(&t, "GET", "/p/q?x=1", &HeaderMap::new(), "[2001:db8::1]:80", None),
        "2001:db8::1 /p/q x=1"
    );
}

#[test]
fn query_values_are_decoded() {
    assert_eq!(percent_decode("plain/text\u{e9}"), "plain/text\u{e9}");
    assert_eq!(percent_decode("a+b%20c%C3%a9"), "a b c\u{e9}");
    assert_eq!(percent_decode("100%"), "100%");
    assert_eq!(percent_decode("%zz%4"), "%zz%4");
    assert_eq!(percent_decode("x%ffy"), "x\u{fffd}y");
}

#[test]
fn encoded_segments_decode() {
    for s in ["", "a+b", "100%", "two words/and more", "\u{e9}\u{1f600}", "~._-"] {
        assert_eq!(percent_decode(&url_encode_segment(s)), s);
    }
    assert_eq!(url_encode_segment("a b+"), "a%20b%2B");
}

#[test]
fn lone_dollars_are_kept() {
    for s in ["$", "costs 5$", "a$ b", "$$", "$.$-$\u{e9}", "100$%"] {
        let t = Template::parse(s);
        assert!(t.is_literal());
        assert_eq!(render(&t, "GET", "/", &HeaderMap::new(), "10.0.0.1:80", None), s);
    }
}
