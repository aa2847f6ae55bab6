use elrond::app::{StaticKind, TryFilesEntryRt};
use elrond::net::parse_socket;
use elrond::request_ctx::{RequestCtx, Uri};
use elrond::static_files::{
    directory_listing, full_response, locate, mime_for, on_index_stat, on_stat, plan_file,
    range_response, try_files, FileMeta, FilePlan, FileRead, FileStep, Stat, TryStep,
};
use elrond::template::Template;
use hyper::HeaderMap;

fn text(body: &[u8]) -> &str {
    std::str::from_utf8(body).unwrap()
}

#[test]
fn paths_stay_below_the_root() {
    let at = |kind: &StaticKind, p: &str| locate("/srv", kind, p);
    assert!(matches!(at(&StaticKind::Root, "/a/b.txt"), FileStep::Stat(p) if p == "/srv/a/b.txt"));
    for bad in ["/../etc/passwd", "/a/../../b", "/.."] {
        match at(&StaticKind::Root, bad) {
            FileStep::Respond(r) => assert_eq!(r.status, 403, "{bad}"),
            other => panic!("{bad}: {other:?}"),
        }
    }
    let alias = StaticKind::Alias { prefix: "/assets/".into() };
    assert!(matches!(at(&alias, "/assets/x.css"), FileStep::Stat(p) if p == "/srv/x.css"));
}

#[test]
fn directories_fall_back_to_their_index() {
    assert!(matches!(on_stat("/srv/a", Stat::File), FileStep::Serve(p) if p == "/srv/a"));
    assert!(
        matches!(on_stat("/srv/a", Stat::Dir), FileStep::StatIndex(p) if p == "/srv/a/index.html")
    );
    assert!(matches!(on_stat("/srv/a", Stat::NotFound), FileStep::Respond(r) if r.status == 404));
    assert!(matches!(on_index_stat("/srv/a/index.html", Stat::File, false), FileStep::Serve(_)));
    assert!(matches!(on_index_stat("/srv/a/index.html", Stat::NotFound, true), FileStep::List));
}

#[test]
fn validators_answer_without_a_body() {
    let meta = FileMeta { size: 255, mtime: Some(1_000_000_000) };
    let mut h = HeaderMap::new();
    assert!(matches!(plan_file(&meta, &h), FilePlan::Full));
    let full = full_response("/x.html", &meta, false, FileRead::Data(vec![b'a'; 255]));
    assert_eq!(full.status, 200);
    assert_eq!(full.headers["content-type"], "text/html; charset=utf-8");
    assert!(!full.headers.contains_key("content-length"));
    assert_eq!(full.headers["accept-ranges"], "bytes");
    assert_eq!(full.headers["last-modified"], "Sun, 09 Sep 2001 01:46:40 GMT");
    let tag = full.headers["etag"].to_str().unwrap().to_string();
    assert!(tag.starts_with("W/\"ff-"));
    h.insert("if-none-match", tag.parse().unwrap());
    assert!(matches!(plan_file(&meta, &h), FilePlan::Respond(r) if r.status == 304 && r.body.is_empty()));
}

#[test]
fn ranges_are_served_in_part() {
    let meta = FileMeta { size: 100, mtime: None };
    let mut h = HeaderMap::new();
    h.insert("range", "bytes=10-19".parse().unwrap());
    assert!(matches!(plan_file(&meta, &h), FilePlan::Range(10, 19)));
    let r = range_response("/x.bin", &meta, 10, 19, false, FileRead::Data(vec![7; 10]));
    assert_eq!(r.status, 206);
    assert_eq!(r.headers["content-range"], "bytes 10-19/100");
    assert_eq!(r.headers["content-length"], "10");
    assert_eq!(r.body, vec![7; 10]);
    h.insert("range", "bytes=200-300".parse().unwrap());
    assert!(matches!(plan_file(&meta, &h), FilePlan::Respond(r) if r.status == 416));
}

#[test]
fn head_has_no_body() {
    let meta = FileMeta { size: 4, mtime: None };
    let r = full_response("/x.txt", &meta, true, FileRead::Data(vec![]));
    assert_eq!(r.headers["content-length"], "4");
    assert!(r.body.is_empty());
}

#[test]
fn mime_types_go_by_extension() {
    assert_eq!(mime_for("/a/b.css"), "text/css; charset=utf-8");
    assert_eq!(mime_for("/a/b.CSS"), "application/octet-stream");
    assert!(mime_for("index.html").starts_with("text/html"));
    assert_eq!(mime_for("x.unknown"), "application/octet-stream");
    assert_eq!(mime_for("noext"), "application/octet-stream");
}

#[test]
fn listings_are_escaped_and_sorted() {
    let r = directory_listing(
        Some(vec![
            ("b.txt".into(), false),
            (".hidden".into(), false),
            ("<i>&\"".into(), false),
            ("dir".into(), true),
            ("a b".into(), false),
        ]),
        "/pub/",
    );
    assert_eq!(r.status, 200);
    let html = text(&r.body);
    assert!(!html.contains(".hidden"));
    assert!(!html.contains("<i>"));
    assert!(html.contains("&lt;i&gt;&amp;"));
    assert!(html.contains("a%20b"));
    let pos = |s: &str| html.find(s).unwrap();
    assert!(pos("dir") < pos("b.txt"));
    assert!(directory_listing(None, "/pub/").status >= 400);
}

#[test]
fn candidates_are_tried_in_order() {
    let uri = Uri {
        authority: None,
        path: "/app/x".into(),
        query: None,
        path_and_query: Some("/app/x".into()),
    };
    let (headers, vars) = (HeaderMap::new(), vec![]);
    let ctx = RequestCtx {
        peer: parse_socket("127.0.0.1:1").unwrap(),
        server_name: None,
        method: "GET",
        uri: &uri,
        headers: &headers,
        scheme: "http",
        user_vars: &vars,
    };
    let entries = vec![
        TryFilesEntryRt::Path(Template::parse("$uri")),
        TryFilesEntryRt::Path(Template::parse("/index.html")),
        TryFilesEntryRt::Status(410),
    ];
    match try_files("/srv", &entries, 0, &ctx) {
        TryStep::Probe { index, candidate, path } => {
            assert_eq!(index, 0);
            assert_eq!(candidate, "/srv/app/x");
            assert_eq!(path, "/app/x");
        }
        other => panic!("{other:?}"),
    }
    assert!(matches!(try_files("/srv", &entries, 1, &ctx), TryStep::Probe { index: 1, .. }));
    assert!(matches!(try_files("/srv", &entries, 2, &ctx), TryStep::Respond(r) if r.status == 410));
}
