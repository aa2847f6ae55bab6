use elrond::config::{
    load, parse_str, Action, Config, Found, LbMethod, LocationKind, MapPattern, Progress, Source,
    TlsVersion,
};
use elrond::config::lexer::{lex, TokKind};
use elrond::config::parser::parse;
use elrond::time::Duration;

#[test]
fn parses_minimal_return() {
    let cfg = parse_str(r#"http { server { listen 8080; location / { return 200 "hi"; } } }"#)
        .unwrap();
    let http = cfg.http.unwrap();
    assert_eq!(http.servers.len(), 1);
    assert_eq!(http.servers[0].locations.len(), 1);
}

#[test]
fn parses_upstream_and_proxy() {
    let src = r#"
        http {
            upstream app {
                server 127.0.0.1:3000 weight=2;
                server 127.0.0.1:3001;
            }
            server {
                listen 8080;
                location / { proxy_pass http://app; }
            }
        }
    "#;
    let cfg = parse_str(src).unwrap();
    let http = cfg.http.unwrap();
    assert_eq!(http.upstreams.len(), 1);
    assert_eq!(http.upstreams[0].servers.len(), 2);
    assert_eq!(http.upstreams[0].servers[0].weight, 2);
}

#[test]
fn exact_match_location_parses() {
    let cfg = parse_str(
        r#"http { server { listen 8080;
              location = /healthz { return 200 "ok"; }
              location / { return 404; }
           } }"#,
    )
    .unwrap();
    let server = &cfg.http.unwrap().servers[0];
    assert_eq!(server.locations.len(), 2);
    assert_eq!(server.locations[0].kind, LocationKind::Exact);
    assert_eq!(server.locations[0].path, "/healthz");
    assert_eq!(server.locations[1].kind, LocationKind::Prefix);
}

#[test]
fn server_root_cascades_into_location() {
    let cfg = parse_str(
        r#"http { server { listen 8080; root /var/www;
              location / { }
           } }"#,
    )
    .unwrap();
    let loc = &cfg.http.unwrap().servers[0].locations[0];
    match &loc.action {
        Action::Root { dir } => assert_eq!(dir, "/var/www"),
        other => panic!("expected Root, got {other:?}"),
    }
}

#[test]
fn proxy_set_header_collected() {
    let cfg = parse_str(
        r#"http { server { listen 8080;
              location / {
                  proxy_pass http://127.0.0.1:3000;
                  proxy_set_header Host $host;
                  proxy_set_header X-Real-IP $remote_addr;
              }
           } }"#,
    )
    .unwrap();
    let loc = &cfg.http.unwrap().servers[0].locations[0];
    assert_eq!(loc.set_headers.len(), 2);
    assert_eq!(loc.set_headers[0].0, "Host");
}

#[test]
fn add_header_collected() {
    let cfg = parse_str(
        r#"http { server { listen 8080;
              location / {
                  return 200 "ok";
                  add_header X-Powered-By "elrond";
              }
           } }"#,
    )
    .unwrap();
    let loc = &cfg.http.unwrap().servers[0].locations[0];
    assert_eq!(loc.add_headers.len(), 1);
    assert_eq!(loc.add_headers[0].0, "X-Powered-By");
}

#[test]
fn upstream_lb_methods_parse() {
    let cfg = parse_str(
        r#"http {
            upstream a { least_conn; server 127.0.0.1:1; }
            upstream b { ip_hash; server 127.0.0.1:2; }
            upstream c { server 127.0.0.1:3; }
            server { listen 8080; location / { proxy_pass http://a; } }
        }"#,
    )
    .unwrap();
    let h = cfg.http.unwrap();
    assert_eq!(h.upstreams[0].method, LbMethod::LeastConn);
    assert_eq!(h.upstreams[1].method, LbMethod::IpHash);
    assert_eq!(h.upstreams[2].method, LbMethod::RoundRobin);
}

#[test]
fn upstream_server_flags_parse() {
    let cfg = parse_str(
        r#"http {
            upstream u {
                server 10.0.0.1:80 weight=3 max_fails=5 fail_timeout=30s;
                server 10.0.0.2:80 backup;
                server 10.0.0.3:80 down;
            }
            server { listen 8080; location / { proxy_pass http://u; } }
        }"#,
    )
    .unwrap();
    let s = &cfg.http.unwrap().upstreams[0].servers;
    assert_eq!(s[0].weight, 3);
    assert_eq!(s[0].max_fails, 5);
    assert_eq!(s[0].fail_timeout, Duration::from_secs(30));
    assert!(s[1].backup);
    assert!(s[2].down);
}

#[test]
fn upstream_duration_units() {
    let cfg = parse_str(
        r#"http {
            upstream u {
                server 10.0.0.1:80 fail_timeout=500ms;
                server 10.0.0.2:80 fail_timeout=2m;
                server 10.0.0.3:80 fail_timeout=1h;
                server 10.0.0.4:80 fail_timeout=5;
            }
            server { listen 8080; location / { proxy_pass http://u; } }
        }"#,
    )
    .unwrap();
    let s = &cfg.http.unwrap().upstreams[0].servers;
    assert_eq!(s[0].fail_timeout, Duration::from_millis(500));
    assert_eq!(s[1].fail_timeout, Duration::from_secs(120));
    assert_eq!(s[2].fail_timeout, Duration::from_secs(3600));
    assert_eq!(s[3].fail_timeout, Duration::from_secs(5));
}

#[test]
fn alias_action_parses() {
    let cfg = parse_str(
        r#"http { server { listen 8080;
              location /assets/ { alias /var/assets/; }
           } }"#,
    )
    .unwrap();
    let loc = &cfg.http.unwrap().servers[0].locations[0];
    match &loc.action {
        Action::Alias { dir } => assert_eq!(dir, "/var/assets/"),
        other => panic!("expected Alias, got {other:?}"),
    }
}

#[test]
fn comments_and_strings_are_handled() {
    let cfg = parse_str(
        r#"
        # a comment
        http {
            server {
                listen 8080; # inline comment
                location / { return 200 "line one\nline two"; }
            }
        }
    "#,
    )
    .unwrap();
    assert!(cfg.http.is_some());
}

#[test]
fn rejects_unknown_directive() {
    let err = parse_str("http { bogus_directive 1; }").unwrap_err();
    assert!(err.contains("bogus_directive"), "got: {err}");
}

#[test]
fn rejects_unclosed_block() {
    let err = parse_str("http { server { listen 8080; ").unwrap_err();
    assert!(err.contains('}') || err.to_lowercase().contains("end of file"));
}

#[test]
fn tls_listen_requires_cert_paths() {
    // listen ... ssl without ssl_certificate / ssl_certificate_key
    let err =
        parse_str("http { server { listen 443 ssl; location / { return 200; } } }").unwrap_err();
    assert!(err.contains("ssl_certificate"), "got: {err}");
}

#[test]
fn tls_listen_accepted_with_paths() {
    let cfg = parse_str(
        r#"http { server {
            listen 443 ssl;
            ssl_certificate /tmp/cert.pem;
            ssl_certificate_key /tmp/key.pem;
            location / { return 200; }
        } }"#,
    )
    .unwrap();
    let s = &cfg.http.unwrap().servers[0];
    assert!(s.tls);
    assert_eq!(s.ssl_certificate.as_deref(), Some("/tmp/cert.pem"));
    assert_eq!(s.ssl_certificate_key.as_deref(), Some("/tmp/key.pem"));
}

#[test]
fn rejects_unsupported_location_modifier() {
    let err =
        parse_str("http { server { listen 8080; location ~ \\.php$ { return 200; } } }").unwrap_err();
    assert!(err.contains("location modifier"), "got: {err}");
}

#[test]
fn rejects_location_without_action() {
    let err = parse_str("http { server { listen 8080; location / { } } }").unwrap_err();
    assert!(err.contains("no action"), "got: {err}");
}

#[test]
fn stream_block_parses() {
    let cfg = parse_str(
        r#"stream {
            upstream db {
                server 127.0.0.1:5432 weight=2;
                server 127.0.0.1:5433;
            }
            server { listen 15432; proxy_pass db; }
        }"#,
    )
    .unwrap();
    let s = cfg.stream.unwrap();
    assert_eq!(s.upstreams.len(), 1);
    assert_eq!(s.upstreams[0].servers.len(), 2);
    assert_eq!(s.servers.len(), 1);
    assert_eq!(s.servers[0].proxy_pass.as_deref(), Some("db"));
}

#[test]
fn stream_server_requires_listen_and_proxy_pass() {
    let err = parse_str("stream { server { listen 5000; } }").unwrap_err();
    assert!(err.contains("proxy_pass"), "got: {err}");
    let err = parse_str("stream { server { proxy_pass x; } }").unwrap_err();
    assert!(err.contains("listen"), "got: {err}");
}

#[test]
fn stream_rejects_udp_for_now() {
    let err = parse_str("stream { server { listen 5000 udp; proxy_pass dns; } }").unwrap_err();
    assert!(err.contains("udp"), "got: {err}");
}

#[test]
fn http_and_stream_coexist() {
    let cfg = parse_str(
        r#"
        http {
            server { listen 8080; location / { return 200; } }
        }
        stream {
            upstream db { server 127.0.0.1:5432; }
            server { listen 15432; proxy_pass db; }
        }
        "#,
    )
    .unwrap();
    assert!(cfg.http.is_some());
    assert!(cfg.stream.is_some());
}

fn file(base: &str, raw: &str, text: &str) -> Source {
    Source {
        base: base.into(),
        raw: raw.into(),
        found: Found::File {
            path: format!("{base}/{raw}"),
            parent: base.into(),
            text: Ok(text.into()),
        },
    }
}

fn loaded(text: &str, files: Vec<Source>) -> Result<Config, String> {
    match load(text, "/etc/main.conf", "/etc", &files) {
        Progress::Done(c) => Ok(c),
        Progress::Failed(e) => Err(e),
        Progress::Need { base, raw } => Err(format!("need {base} {raw}")),
    }
}

#[test]
fn include_expansion_via_load() {
    let inc = "location /from-include { return 200 \"included\"; }\n";
    let main = "http { server { listen 8080; include inc.conf; location / { return 200 \"root\"; } } }\n";
    let cfg = loaded(main, vec![file("/etc", "inc.conf", inc)]).expect("config should load");
    let locs = &cfg.http.unwrap().servers[0].locations;
    assert_eq!(locs.len(), 2);
    assert!(locs.iter().any(|l| l.path == "/from-include"));
}

#[test]
fn include_cycle_detected() {
    let main = "http { include a.conf; server { listen 8080; location / { return 200; } } }\n";
    let err = loaded(
        main,
        vec![
            file("/etc", "a.conf", "include b.conf;\n"),
            file("/etc", "b.conf", "include a.conf;\n"),
        ],
    )
    .unwrap_err();
    assert!(err.contains("cycle"), "got: {err}");
}

#[test]
fn missing_files_are_named() {
    let main = "http { include a.conf; }\n";
    assert_eq!(loaded(main, vec![]).unwrap_err(), "need /etc a.conf");
    let gone = Source {
        base: "/etc".into(),
        raw: "a.conf".into(),
        found: Found::Missing { error: "no such file".into() },
    };
    assert_eq!(loaded(main, vec![gone]).unwrap_err(), "line 1: include 'a.conf': no such file");
    let unreadable = Source {
        base: "/etc".into(),
        raw: "a.conf".into(),
        found: Found::File {
            path: "/etc/a.conf".into(),
            parent: "/etc".into(),
            text: Err("denied".into()),
        },
    };
    assert_eq!(
        loaded(main, vec![unreadable]).unwrap_err(),
        "line 1: include '/etc/a.conf': denied"
    );
    assert_eq!(loaded("http { include; }", vec![]).unwrap_err(), "line 1: 'include' requires a path");
}

#[test]
fn a_file_may_be_read_twice_side_by_side() {
    let main = "http { server { listen 1; include l.conf; } server { listen 2; include l.conf; } }";
    let cfg = loaded(main, vec![file("/etc", "l.conf", "location / { return 204; }")]).unwrap();
    let servers = cfg.http.unwrap().servers;
    assert_eq!(servers.len(), 2);
    assert!(servers.iter().all(|s| s.locations.len() == 1));
}

#[test]
fn nested_files_resolve_from_their_own_directory() {
    let main = "http { include sub/a.conf; }";
    let a = Source {
        base: "/etc".into(),
        raw: "sub/a.conf".into(),
        found: Found::File {
            path: "/etc/sub/a.conf".into(),
            parent: "/etc/sub".into(),
            text: Ok("include b.conf;".into()),
        },
    };
    let b = file("/etc/sub", "b.conf", "server { listen 9; location / { return 200; } }");
    let cfg = loaded(main, vec![a, b]).unwrap();
    assert_eq!(cfg.http.unwrap().servers[0].listen.unwrap().port, 9);
}

#[test]
fn unknown_directives_are_refused_everywhere() {
    for (text, place) in [
        ("nope;", "main"),
        ("http { nope; }", "http"),
        ("http { server { nope; } }", "server"),
        ("http { server { listen 1; location / { nope; } } }", "location"),
        ("stream { nope; }", "stream"),
        ("http { upstream u { nope; } }", "upstream"),
    ] {
        let err = parse_str(text).unwrap_err();
        assert_eq!(err, format!("line 1: unknown directive 'nope' in {place} context"));
    }
}

#[test]
fn errors_carry_the_line() {
    let err = parse_str("http {\n\n  bad;\n}\n").unwrap_err();
    assert!(err.starts_with("line 3: "), "got: {err}");
    let err = parse_str("http {\n}\n}\n").unwrap_err();
    assert!(err.starts_with("line 3: "), "got: {err}");
}

#[test]
fn http3_implies_tls() {
    let err = parse_str("http { server { listen 443 http3; location / { return 200; } } }")
        .unwrap_err();
    assert!(err.contains("ssl_certificate"), "got: {err}");
    let cfg = parse_str(
        "http { server { listen 443 http3; ssl_certificate c; ssl_certificate_key k;
            ssl_protocols TLSv1.3; location / { return 200; } } }",
    )
    .unwrap();
    let s = &cfg.http.unwrap().servers[0];
    assert!(s.tls && s.http3);
    assert_eq!(s.ssl_protocols, vec![TlsVersion::Tls13]);
}

#[test]
fn sizes_and_limits_parse() {
    let cfg = parse_str(
        "http {
            limit_req_zone $remote_addr zone=r:1m rate=5r/s;
            limit_conn_zone $remote_addr zone=c:64k;
            proxy_cache_path /tmp keys_zone=z:2m;
            map $host $pool { default a; example.test b; }
            server { listen 80; client_max_body_size 2m; gzip on; gzip_min_length 64;
                location / { return 200; limit_req zone=r burst=3; limit_conn zone=c 2;
                    expires 1d; allow 10.0.0.0/8; deny all; } } }",
    )
    .unwrap();
    let h = cfg.http.unwrap();
    assert_eq!(h.servers[0].client_max_body_size, Some(2 * 1024 * 1024));
    assert_eq!(h.servers[0].gzip_min_length, Some(64));
    assert_eq!(h.cache_zones[0].max_bytes, 2 * 1024 * 1024);
    assert_eq!(h.limit_req_zones[0].rate.count, "5");
    assert_eq!(h.maps[0].output_name, "pool");
    assert!(matches!(h.maps[0].rules[0].pattern, MapPattern::Default));
    let l = &h.servers[0].locations[0];
    assert_eq!(l.limit_req, Some(("r".to_string(), 3)));
    assert_eq!(l.limit_conn, Some(("c".to_string(), 2)));
    assert_eq!(l.expires, Some(Duration::from_secs(86_400)));
    assert_eq!(l.access_rules.len(), 2);
}

#[test]
fn client_certificate_needs_its_key() {
    let with = |d: &str| {
        parse_str(&format!(
            "http {{ server {{ listen 1; location / {{ proxy_pass http://a; {d} }} }} }}"
        ))
    };
    assert!(with("proxy_ssl_certificate c;").is_err());
    assert!(with("proxy_ssl_certificate_key k;").is_err());
    assert!(with("proxy_ssl_certificate c; proxy_ssl_certificate_key k;").is_ok());
}

#[test]
fn tokens_know_their_line() {
    let tokens = lex("a b # rest\n{ \"two\nlines\" 'it\\'s' }\n\nc;").unwrap();
    let words: Vec<(String, usize)> = tokens
        .iter()
        .map(|t| {
            let word = match &t.kind {
                TokKind::Word(w) => w.clone(),
                TokKind::OpenBrace => "{".to_string(),
                TokKind::CloseBrace => "}".to_string(),
                TokKind::Semicolon => ";".to_string(),
            };
            (word, t.line)
        })
        .collect();
    let want = [
        ("a", 1),
        ("b", 1),
        ("{", 2),
        ("two\nlines", 2),
        ("it's", 3),
        ("}", 3),
        ("c", 5),
        (";", 5),
    ];
    assert_eq!(words.len(), want.len());
    for (got, (word, line)) in words.iter().zip(want) {
        assert_eq!((got.0.as_str(), got.1), (word, line));
    }
    assert_eq!(lex("x\n\"open").unwrap_err(), "line 2: unterminated string");
}

#[test]
fn gzip_types_are_lowered() {
    let cfg = parse_str(
        "http { server { listen 1; gzip_types Text/CSS \u{c4}pp/X; location / { return 200; } } }",
    )
    .unwrap();
    let types = &cfg.http.unwrap().servers[0].gzip_types;
    assert_eq!(types[types.len() - 2..], ["text/css".to_string(), "\u{e4}pp/x".to_string()]);
}

#[test]
fn escaped_line_break_counts() {
    let tokens = lex("\"a\\\nb\" x").unwrap();
    assert_eq!(tokens.len(), 2);
    assert!(matches!(&tokens[0].kind, TokKind::Word(w) if w == "a\nb"));
    assert!(matches!(&tokens[1].kind, TokKind::Word(w) if w == "x"));
    assert_eq!((tokens[0].line, tokens[1].line), (1, 2));
}

#[test]
fn joined_texts_have_joined_tokens() {
    let (a, b) = ("a { b; # c\n'd\ne' ;", "}\nf");
    let all = lex(&format!("{a}\n{b}")).unwrap();
    let (ta, tb) = (lex(a).unwrap(), lex(b).unwrap());
    assert_eq!(all.len(), ta.len() + tb.len());
    for (i, t) in all.iter().enumerate() {
        let line = if i < ta.len() { ta[i].line } else { tb[i - ta.len()].line + 3 };
        assert_eq!(t.line, line);
    }
}

#[test]
fn directives_are_what_was_written() {
    let tokens = lex("a b { c; d { } }\ne f g;").unwrap();
    let ds = parse(&tokens).unwrap();
    assert_eq!(ds.len(), 2);
    assert_eq!((ds[0].name.as_str(), ds[0].line, ds[1].line), ("a", 1, 2));
    assert_eq!(ds[0].args, vec!["b".to_string()]);
    let inner = ds[0].block.as_ref().unwrap();
    assert_eq!((inner[0].name.as_str(), inner[1].name.as_str()), ("c", "d"));
    assert!(inner[0].block.is_none());
    assert!(inner[1].block.as_ref().unwrap().is_empty());
    assert_eq!(ds[1].args, vec!["f".to_string(), "g".to_string()]);
    assert!(parse(&[]).unwrap().is_empty());
}

#[test]
fn http_settings_reach_servers_that_set_none() {
    let cfg = parse_str(
        "http {
            gzip on; gzip_types a/b; gzip_min_length 99; gzip_vary on;
            server { listen 1; location / { return 200; } }
            server { listen 2; gzip off; gzip_types c/d; gzip_min_length 1;
                     client_max_body_size 0; location / { return 200; } }
            client_max_body_size 2k;
        }",
    )
    .unwrap();
    let servers = cfg.http.unwrap().servers;
    let of = |i: usize| {
        let s = &servers[i];
        (s.gzip, s.gzip_types.join(" "), s.gzip_min_length, s.client_max_body_size)
    };
    assert_eq!(of(0), (Some(true), "a/b".to_string(), Some(99), Some(2048)));
    assert_eq!(of(1), (Some(false), "c/d".to_string(), Some(1), Some(0)));
    assert!(parse_str("http { gzip maybe; }").is_err());
    assert!(parse_str("http { client_max_body_size x; }").is_err());
}

#[test]
fn http_is_not_served_over_udp() {
    let err = parse_str("http { server { listen 53 udp; location / { return 200; } } }").unwrap_err();
    assert_eq!(err, "line 1: 'listen ... udp' is not supported in an http server");
}

#[test]
fn try_files_clash_shows_the_directive() {
    let of = |content: &str| {
        parse_str(&format!(
            "http {{ server {{ listen 1; location /x {{ {content} try_files $uri =404; }} }} }}"
        ))
        .unwrap_err()
    };
    let text = |shown: &str| {
        format!(
            "line 1: 'try_files' in location '/x' cannot be combined with a content directive \
             ({shown}); only 'root' is allowed alongside it"
        )
    };
    assert_eq!(
        of("return 200 'hi $host$arg_a$foo';"),
        text(
            "Return { status: 200, body: Template { segments: [Literal(\"hi \"), Var(Host), \
             Var(Arg(\"a\")), Var(Unknown(\"foo\"))] } }"
        )
    );
    assert_eq!(of("return 204;"), text("Return { status: 204, body: Template { segments: [] } }"));
    assert_eq!(of("proxy_pass http://a;"), text("ProxyPass { target: \"http://a\" }"));
    assert_eq!(of("alias '/a\\\"b';"), text("Alias { dir: \"/a\\\"b\" }"));
    assert_eq!(of("metrics;"), text("Metrics"));
}
