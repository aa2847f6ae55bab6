use elrond::body::{text, Response};
use elrond::gzip::{client_accepts_gzip, compress, content_type_eligible, maybe_compress};
use hyper::header::HeaderValue;
use hyper::HeaderMap;
use std::io::Read;

fn req_with_accept(value: &str) -> HeaderMap {
    let mut h = HeaderMap::new();
    h.insert("accept-encoding", value.parse().unwrap());
    h
}

fn html(body: &str) -> Response {
    let mut headers = HeaderMap::new();
    headers.insert("content-type", "text/html; charset=utf-8".parse().unwrap());
    Response { status: 200, headers, body: body.as_bytes().to_vec() }
}

#[test]
fn accept_detection() {
    assert!(client_accepts_gzip(&req_with_accept("gzip")));
    assert!(client_accepts_gzip(&req_with_accept("br, gzip;q=0.9")));
    assert!(client_accepts_gzip(&req_with_accept("*")));
    assert!(!client_accepts_gzip(&req_with_accept("br")));
    assert!(!client_accepts_gzip(&HeaderMap::new()));
}

#[test]
fn content_type_check() {
    let mut h = HeaderMap::new();
    h.insert("content-type", "text/html; charset=utf-8".parse().unwrap());
    assert!(content_type_eligible(&h, &vec![]));
    let mut h2 = HeaderMap::new();
    h2.insert("content-type", "image/png".parse().unwrap());
    assert!(!content_type_eligible(&h2, &vec![]));
    assert!(content_type_eligible(&h2, &vec!["image/png".into()]));
}

#[test]
fn small_body_is_not_compressed() {
    let resp = text(200, "tiny");
    let req = req_with_accept("gzip");
    let out = maybe_compress(resp, &req, true, &vec![]);
    assert!(!out.headers.contains_key("content-encoding"));
}

#[test]
fn eligible_body_is_compressed() {
    let payload =
        "<!doctype html><html><body>".to_string() + &"hello ".repeat(64) + "</body></html>";
    let req = req_with_accept("gzip");
    let out = maybe_compress(html(&payload), &req, true, &vec![]);
    let ce = out.headers.get("content-encoding").and_then(|v| v.to_str().ok()).unwrap_or("");
    assert_eq!(ce, "gzip");
    let vary = out.headers.get("vary").and_then(|v| v.to_str().ok()).unwrap_or("");
    assert!(vary.to_lowercase().contains("accept-encoding"));
    let cl: usize = out
        .headers
        .get("content-length")
        .and_then(|v| v.to_str().ok())
        .and_then(|v| v.parse().ok())
        .unwrap();
    assert!(cl < payload.len());
    let mut plain = String::new();
    flate2::read::GzDecoder::new(&out.body[..]).read_to_string(&mut plain).unwrap();
    assert_eq!(plain, payload);
}

#[test]
fn proxied_body_without_length_is_left_alone() {
    let body = "x".repeat(100);
    let req = req_with_accept("gzip");
    let out = compress(html(&body), &req, true, &vec![], 20, Some(256 * 1024));
    assert!(!out.headers.contains_key("content-encoding"));
    let mut with_len = html(&body);
    with_len.headers.insert("content-length", "100".parse().unwrap());
    let out = compress(with_len, &req, true, &vec![], 20, Some(256 * 1024));
    assert!(out.headers.contains_key("content-encoding"));
    let mut too_long = html(&body);
    too_long.headers.insert("content-length", "100".parse().unwrap());
    let out = compress(too_long, &req, true, &vec![], 20, Some(99));
    assert!(!out.headers.contains_key("content-encoding"));
}

#[test]
fn client_without_gzip_gets_identity() {
    let body = "x".repeat(100);
    let out = maybe_compress(html(&body), &req_with_accept("br"), true, &vec![]);
    assert_eq!(out.body, body.as_bytes());
    let out = maybe_compress(html(&body), &req_with_accept("gzip"), false, &vec![]);
    assert_eq!(out.body, body.as_bytes());
}

#[test]
fn vary_lines_are_kept() {
    let body = "x".repeat(400);
    let vary = |lines: &[&[u8]]| {
        let mut resp = html(&body);
        for l in lines {
            resp.headers.append("vary", HeaderValue::from_bytes(l).unwrap());
        }
        let out = compress(resp, &req_with_accept("gzip"), true, &vec![], 20, None);
        assert_eq!(out.headers["content-encoding"], "gzip");
        let all: Vec<Vec<u8>> =
            out.headers.get_all("vary").iter().map(|v| v.as_bytes().to_vec()).collect();
        all
    };
    assert_eq!(vary(&[]), vec![b"Accept-Encoding".to_vec()]);
    assert_eq!(vary(&[b"cookie"]), vec![b"cookie, Accept-Encoding".to_vec()]);
    assert_eq!(vary(&[b"cookie", b"origin"]), vec![b"cookie, origin, Accept-Encoding".to_vec()]);
    assert_eq!(vary(&[b"\xe9"]), vec![b"\xe9, Accept-Encoding".to_vec()]);
    assert_eq!(
        vary(&[b"cookie", b"x, accept-ENCODING"]),
        vec![b"cookie".to_vec(), b"x, accept-ENCODING".to_vec()]
    );
}
