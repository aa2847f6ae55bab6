//! The enclosing contexts: `server`, `http`, `stream` and the main context.

use super::ast::{
    Config, ConfigV, empty_config, empty_http, empty_server, empty_stream, empty_stream_server,
    Http, HttpV, Server, ServerV, Stream, StreamServer, StreamServerV, StreamV, TlsVersion,
};
use super::lexer::{lex, tokens_of};
use super::location::{build_location, location_of, parse_location_pattern, pattern_of};
use super::lowering::{
    arg1, arg1_of, arg2, arg2_of, block_in, build_upstream, expect_block, fail1, fail3, first,
    first_of, has_arg, msg1, msg3, names, unknown, unknown_in, upstream_of,
};
use super::parser::{Directive, directive_view, directive_views, directives_of, DirectiveV, parse};
use super::values::{listen_of, on_off_of, parse_listen, parse_on_off, parse_size, size_value};
use super::zones::{
    build_map, cache_path_of, limit_conn_zone_of, limit_req_zone_of, map_of, parse_cache_path,
    parse_limit_conn_zone, parse_limit_req_zone,
};
use crate::net::{format_socket, socket_string};
use crate::template::{Template, template_of};
use crate::text::{
    copy_strings, lemma_views_push, lowercase, number, opt_view, parse_number, result_view, same,
    unicode_lower, views,
};
use vstd::prelude::*;
use vstd::string::*;

verus! {

// ---------------------------------------------------------------------------
// server
// ---------------------------------------------------------------------------

/// The server-level `root`: the last one named.
pub open spec fn root_of(found: Option<Seq<char>>, ds: Seq<DirectiveV>) -> Result<
    Option<Seq<char>>,
    Seq<char>,
>
    decreases ds.len(),
{
    if ds.len() == 0 {
        Ok(found)
    } else if ds[0].name == "root"@ {
        match arg1_of(ds[0]) {
            Ok(r) => root_of(Some(r), ds.skip(1)),
            Err(e) => Err(e),
        }
    } else {
        root_of(found, ds.skip(1))
    }
}

fn find_root(dirs: &Vec<Directive>) -> (r: Result<Option<String>, String>)
    ensures
        match r {
            Ok(o) => root_of(None, directive_views(dirs@)) == Ok::<Option<Seq<char>>, Seq<char>>(
                opt_view(o),
            ),
            Err(e) => root_of(None, directive_views(dirs@)) == Err::<Option<Seq<char>>, Seq<char>>(
                e@,
            ),
        },
{
    let ghost all = directive_views(dirs@);
    let mut root: Option<String> = None;
    let mut i: usize = 0;
    assert(all.skip(0) == all);
    while i < dirs.len()
        invariant
            i <= dirs@.len(),
            all == directive_views(dirs@),
            root_of(opt_view(root), all.skip(i as int)) == root_of(None, all),
        decreases dirs@.len() - i,
    {
        let ghost rest = all.skip(i as int);
        assert(rest[0] == directive_view(dirs@[i as int]));
        assert(rest.skip(1) == all.skip(i + 1));
        if same(dirs[i].name.as_str(), "root") {
            match arg1(&dirs[i]) {
                Ok(r) => {
                    root = Some(r);
                },
                Err(e) => {
                    return Err(e);
                },
            }
        }
        i = i + 1;
    }
    assert(all.skip(i as int).len() == 0);
    Ok(root)
}

/// The TLS versions that `ssl_protocols` names.
pub open spec fn protocols_of(done: Seq<TlsVersion>, args: Seq<Seq<char>>, line: usize) -> Result<
    Seq<TlsVersion>,
    Seq<char>,
>
    decreases args.len(),
{
    if args.len() == 0 {
        Ok(done)
    } else if args[0] == "TLSv1.2"@ {
        protocols_of(done.push(TlsVersion::Tls12), args.skip(1), line)
    } else if args[0] == "TLSv1.3"@ {
        protocols_of(done.push(TlsVersion::Tls13), args.skip(1), line)
    } else {
        Err(
            msg3(
                line,
                "unsupported protocol '"@,
                args[0],
                "' in ssl_protocols (expected TLSv1.2 or TLSv1.3)"@,
            ),
        )
    }
}

fn parse_protocols(args: &Vec<String>, line: usize) -> (r: Result<Vec<TlsVersion>, String>)
    ensures
        result_view(r) == protocols_of(seq![], views(args@), line),
{
    let ghost all = views(args@);
    let mut out: Vec<TlsVersion> = Vec::new();
    let mut i: usize = 0;
    assert(all.skip(0) == all);
    assert(out@ =~= seq![]);
    while i < args.len()
        invariant
            i <= args@.len(),
            all == views(args@),
            protocols_of(out@, all.skip(i as int), line) == protocols_of(seq![], all, line),
        decreases args@.len() - i,
    {
        let ghost rest = all.skip(i as int);
        assert(rest[0] == args@[i as int]@);
        assert(rest.skip(1) == all.skip(i + 1));
        if same(args[i].as_str(), "TLSv1.2") {
            out.push(TlsVersion::Tls12);
        } else if same(args[i].as_str(), "TLSv1.3") {
            out.push(TlsVersion::Tls13);
        } else {
            return Err(
                fail3(
                    line,
                    "unsupported protocol '",
                    args[i].as_str(),
                    "' in ssl_protocols (expected TLSv1.2 or TLSv1.3)",
                ),
            );
        }
        i = i + 1;
    }
    assert(all.skip(i as int).len() == 0);
    Ok(out)
}

/// `types` with the lower-case forms of `args` behind it.
pub open spec fn lowered_types(types: Seq<Seq<char>>, args: Seq<Seq<char>>) -> Seq<Seq<char>> {
    types + Seq::new(args.len(), |i: int| lowercase(args[i]))
}

fn add_types(types: Vec<String>, args: &Vec<String>) -> (r: Vec<String>)
    ensures
        views(r@) == lowered_types(views(types@), views(args@)),
{
    let ghost before = views(types@);
    let ghost all = views(args@);
    let mut out = types;
    let mut i: usize = 0;
    assert(before + Seq::new(0, |k: int| lowercase(all[k])) =~= before);
    while i < args.len()
        invariant
            i <= args@.len(),
            all == views(args@),
            views(out@) == before + Seq::new(i as nat, |k: int| lowercase(all[k])),
        decreases args@.len() - i,
    {
        let t = unicode_lower(args[i].as_str());
        proof {
            lemma_views_push(out@, t);
            assert(all[i as int] == args@[i as int]@);
        }
        out.push(t);
        i = i + 1;
        assert(views(out@) =~= before + Seq::new(i as nat, |k: int| lowercase(all[k])));
    }
    out
}

/// The byte count that a directive names.
pub open spec fn bytes_of(d: DirectiveV) -> Result<usize, Seq<char>> {
    match arg1_of(d) {
        Err(e) => Err(e),
        Ok(v) => match size_value(v) {
            Some(n) => Ok(n),
            None => Err(msg3(d.line, "invalid size '"@, v, "'"@)),
        },
    }
}

fn parse_bytes(d: &Directive) -> (r: Result<usize, String>)
    ensures
        result_view(r) == bytes_of(directive_view(*d)),
{
    match arg1(d) {
        Err(e) => Err(e),
        Ok(v) => match parse_size(v.as_str()) {
            Some(n) => Ok(n),
            None => Err(fail3(d.line, "invalid size '", v.as_str(), "'")),
        },
    }
}

/// Directives that are accepted in a server and have no effect there. `root`
/// is read beforehand.
pub open spec fn ignored_in_server(name: Seq<char>) -> bool {
    ||| name == "ssl_ciphers"@ || name == "ssl_prefer_server_ciphers"@
    ||| name == "ssl_session_cache"@ || name == "ssl_session_timeout"@
    ||| name == "ssl_session_tickets"@ || name == "ssl_dhparam"@ || name == "ssl_ecdh_curve"@
    ||| name == "ssl_stapling"@ || name == "gzip_disable"@ || name == "gzip_comp_level"@
    ||| name == "gzip_proxied"@ || name == "gzip_vary"@ || name == "gzip_buffers"@
    ||| name == "root"@ || name == "include"@ || name == "access_log"@ || name == "error_log"@
    ||| name == "index"@ || name == "error_page"@
}

fn server_ignores(name: &str) -> (r: bool)
    ensures
        r == ignored_in_server(name@),
{
    same(name, "ssl_ciphers") || same(name, "ssl_prefer_server_ciphers") || same(
        name,
        "ssl_session_cache",
    ) || same(name, "ssl_session_timeout") || same(name, "ssl_session_tickets") || same(
        name,
        "ssl_dhparam",
    ) || same(name, "ssl_ecdh_curve") || same(name, "ssl_stapling") || same(name, "gzip_disable")
        || same(name, "gzip_comp_level") || same(name, "gzip_proxied") || same(name, "gzip_vary")
        || same(name, "gzip_buffers") || same(name, "root") || same(name, "include") || same(
        name,
        "access_log",
    ) || same(name, "error_log") || same(name, "index") || same(name, "error_page")
}

/// `listen`: an address, and the words that turn TLS and HTTP/3 on. HTTP/3
/// implies TLS. HTTP is not served over bare UDP.
pub open spec fn listen_step(s: ServerV, d: DirectiveV) -> Result<ServerV, Seq<char>> {
    let h3 = names(d.args, "http3"@) || names(d.args, "quic"@);
    match arg1_of(d) {
        Err(e) => Err(e),
        Ok(a) => if names(d.args, "udp"@) {
            Err(msg1(d.line, "'listen ... udp' is not supported in an http server"@))
        } else {
            match listen_of(a, d.line) {
                Err(e) => Err(e),
                Ok(addr) => Ok(
                    ServerV {
                        listen: Some(addr),
                        tls: s.tls || names(d.args, "ssl"@) || h3,
                        http3: s.http3 || h3,
                        ..s
                    },
                ),
            }
        },
    }
}

/// A `location` directive of a server.
pub open spec fn location_in(s: ServerV, d: DirectiveV) -> Result<ServerV, Seq<char>> {
    if d.args.len() == 0 {
        Err(msg1(d.line, "'location' requires a path pattern"@))
    } else {
        match pattern_of(d.args, d.line) {
            Err(e) => Err(e),
            Ok((kind, path)) => match block_in(d) {
                Err(e) => Err(e),
                Ok(block) => match location_of(path, kind, block, d.line, s.root) {
                    Err(e) => Err(e),
                    Ok(l) => Ok(ServerV { locations: s.locations.push(l), ..s }),
                },
            },
        }
    }
}

/// One directive of a server block.
pub open spec fn server_step(s: ServerV, d: DirectiveV) -> Result<ServerV, Seq<char>> {
    if d.name == "listen"@ {
        listen_step(s, d)
    } else if d.name == "server_name"@ {
        Ok(ServerV { server_name: first_of(d), ..s })
    } else if d.name == "ssl_certificate"@ {
        match arg1_of(d) {
            Ok(a) => Ok(ServerV { ssl_certificate: Some(a), ..s }),
            Err(e) => Err(e),
        }
    } else if d.name == "ssl_certificate_key"@ {
        match arg1_of(d) {
            Ok(a) => Ok(ServerV { ssl_certificate_key: Some(a), ..s }),
            Err(e) => Err(e),
        }
    } else if d.name == "ssl_protocols"@ {
        match protocols_of(seq![], d.args, d.line) {
            Ok(p) => Ok(ServerV { ssl_protocols: p, ..s }),
            Err(e) => Err(e),
        }
    } else if d.name == "gzip"@ {
        match on_off_of(first_of(d), d.line) {
            Ok(b) => Ok(ServerV { gzip: Some(b), ..s }),
            Err(e) => Err(e),
        }
    } else if d.name == "gzip_types"@ {
        Ok(ServerV { gzip_types: lowered_types(s.gzip_types, d.args), ..s })
    } else if d.name == "gzip_min_length"@ {
        match bytes_of(d) {
            Ok(n) => Ok(ServerV { gzip_min_length: Some(n), ..s }),
            Err(e) => Err(e),
        }
    } else if d.name == "client_max_body_size"@ {
        match bytes_of(d) {
            Ok(n) => Ok(ServerV { client_max_body_size: Some(n), ..s }),
            Err(e) => Err(e),
        }
    } else if d.name == "add_header"@ {
        match arg1_of(d) {
            Ok(a) => Ok(
                ServerV { add_headers: s.add_headers.push((a, template_of(arg2_of(d)))), ..s },
            ),
            Err(e) => Err(e),
        }
    } else if d.name == "location"@ {
        location_in(s, d)
    } else if d.name == "return"@ {
        Err(
            msg1(
                d.line,
                "'return' at server level is not supported; place it inside a location block"@,
            ),
        )
    } else if ignored_in_server(d.name) {
        Ok(s)
    } else {
        Err(unknown_in(d, "server"@))
    }
}

pub open spec fn server_steps(s: ServerV, ds: Seq<DirectiveV>) -> Result<ServerV, Seq<char>>
    decreases ds.len(),
{
    if ds.len() == 0 {
        Ok(s)
    } else {
        match server_step(s, ds[0]) {
            Ok(t) => server_steps(t, ds.skip(1)),
            Err(e) => Err(e),
        }
    }
}

/// The server that a block describes. It must listen somewhere, and a TLS
/// server needs a certificate and a key.
pub open spec fn server_of(ds: Seq<DirectiveV>) -> Result<ServerV, Seq<char>> {
    match root_of(None, ds) {
        Err(e) => Err(e),
        Ok(root) => match server_steps(ServerV { root, ..empty_server() }, ds) {
            Err(e) => Err(e),
            Ok(s) => match s.listen {
                None => Err("a 'server' block is missing its 'listen' directive"@),
                Some(addr) => if s.tls && (s.ssl_certificate is None || s.ssl_certificate_key is None) {
                    Err(
                        "'listen ... ssl' on "@ + socket_string(addr)
                            + " requires both 'ssl_certificate' and 'ssl_certificate_key'"@,
                    )
                } else {
                    Ok(s)
                },
            },
        },
    }
}

fn apply_listen(s: Server, d: &Directive) -> (r: Result<Server, String>)
    ensures
        result_view(r) == listen_step(s@, directive_view(*d)),
{
    let mut s = s;
    let a = match arg1(d) {
        Ok(a) => a,
        Err(e) => {
            return Err(e);
        },
    };
    if has_arg(d, "udp") {
        return Err(fail1(d.line, "'listen ... udp' is not supported in an http server"));
    }
    let h3 = has_arg(d, "http3") || has_arg(d, "quic");
    if has_arg(d, "ssl") || h3 {
        s.tls = true;
    }
    if h3 {
        s.http3 = true;
    }
    match parse_listen(a.as_str(), d.line) {
        Ok(addr) => {
            s.listen = Some(addr);
            Ok(s)
        },
        Err(e) => Err(e),
    }
}

fn apply_location_directive(s: Server, d: &Directive) -> (r: Result<Server, String>)
    ensures
        result_view(r) == location_in(s@, directive_view(*d)),
{
    let mut s = s;
    if d.args.len() == 0 {
        return Err(fail1(d.line, "'location' requires a path pattern"));
    }
    let (kind, path) = match parse_location_pattern(&d.args, d.line) {
        Ok(p) => p,
        Err(e) => {
            return Err(e);
        },
    };
    let block = match expect_block(d) {
        Ok(b) => b,
        Err(e) => {
            return Err(e);
        },
    };
    match build_location(path, kind, block, d.line, &s.root) {
        Ok(l) => {
            proof {
                lemma_views_push(s.locations@, l);
            }
            s.locations.push(l);
            Ok(s)
        },
        Err(e) => Err(e),
    }
}

fn apply_server(s: Server, d: &Directive) -> (r: Result<Server, String>)
    ensures
        result_view(r) == server_step(s@, directive_view(*d)),
{
    let name = d.name.as_str();
    if same(name, "listen") {
        return apply_listen(s, d);
    }
    let mut s = s;
    if same(name, "server_name") {
        s.server_name = first(d);
    } else if same(name, "ssl_certificate") {
        match arg1(d) {
            Ok(a) => {
                s.ssl_certificate = Some(a);
            },
            Err(e) => {
                return Err(e);
            },
        }
    } else if same(name, "ssl_certificate_key") {
        match arg1(d) {
            Ok(a) => {
                s.ssl_certificate_key = Some(a);
            },
            Err(e) => {
                return Err(e);
            },
        }
    } else if same(name, "ssl_protocols") {
        match parse_protocols(&d.args, d.line) {
            Ok(p) => {
                assert(views(p@) =~= p@);
                s.ssl_protocols = p;
            },
            Err(e) => {
                return Err(e);
            },
        }
    } else if same(name, "gzip") {
        match parse_on_off(first(d), d.line) {
            Ok(b) => {
                s.gzip = Some(b);
            },
            Err(e) => {
                return Err(e);
            },
        }
    } else if same(name, "gzip_types") {
        s.gzip_types = add_types(s.gzip_types, &d.args);
    } else if same(name, "gzip_min_length") {
        match parse_bytes(d) {
            Ok(n) => {
                s.gzip_min_length = Some(n);
            },
            Err(e) => {
                return Err(e);
            },
        }
    } else if same(name, "client_max_body_size") {
        match parse_bytes(d) {
            Ok(n) => {
                s.client_max_body_size = Some(n);
            },
            Err(e) => {
                return Err(e);
            },
        }
    } else if same(name, "add_header") {
        match arg1(d) {
            Ok(a) => {
                let item = (a, Template::parse(arg2(d).as_str()));
                proof {
                    lemma_views_push(s.add_headers@, item);
                }
                s.add_headers.push(item);
            },
            Err(e) => {
                return Err(e);
            },
        }
    } else if same(name, "location") {
        return apply_location_directive(s, d);
    } else if same(name, "return") {
        return Err(
            fail1(
                d.line,
                "'return' at server level is not supported; place it inside a location block",
            ),
        );
    } else if !server_ignores(name) {
        return Err(unknown(d, "server"));
    }
    Ok(s)
}

fn build_server(dirs: &Vec<Directive>) -> (r: Result<Server, String>)
    ensures
        result_view(r) == server_of(directive_views(dirs@)),
{
    let ghost all = directive_views(dirs@);
    let mut s = Server::default();
    // First pass: pick up the server-level `root` so it can cascade into
    // locations that have no content directive of their own.
    match find_root(dirs) {
        Ok(r) => {
            s.root = r;
        },
        Err(e) => {
            return Err(e);
        },
    }
    let ghost start = s@;
    let mut i: usize = 0;
    assert(all.skip(0) == all);
    while i < dirs.len()
        invariant
            i <= dirs@.len(),
            all == directive_views(dirs@),
            root_of(None, all) is Ok,
            start == (ServerV { root: root_of(None, all)->Ok_0, ..empty_server() }),
            server_steps(s@, all.skip(i as int)) == server_steps(start, all),
        decreases dirs@.len() - i,
    {
        let ghost rest = all.skip(i as int);
        assert(rest[0] == directive_view(dirs@[i as int]));
        assert(rest.skip(1) == all.skip(i + 1));
        match apply_server(s, &dirs[i]) {
            Ok(t) => {
                s = t;
            },
            Err(e) => {
                return Err(e);
            },
        }
        i = i + 1;
    }
    assert(all.skip(i as int).len() == 0);
    match s.listen {
        None => Err("a 'server' block is missing its 'listen' directive".to_owned()),
        Some(addr) => {
            if s.tls && (s.ssl_certificate.is_none() || s.ssl_certificate_key.is_none()) {
                let mut e = "'listen ... ssl' on ".to_owned();
                e.append(format_socket(addr).as_str());
                e.append(" requires both 'ssl_certificate' and 'ssl_certificate_key'");
                return Err(e);
            }
            Ok(s)
        },
    }
}

// ---------------------------------------------------------------------------
// http
// ---------------------------------------------------------------------------

/// Directives that are accepted in `http` and have no effect.
pub open spec fn ignored_in_http(name: Seq<char>) -> bool {
    ||| name == "include"@ || name == "error_log"@ || name == "sendfile"@ || name == "tcp_nopush"@
    ||| name == "tcp_nodelay"@ || name == "keepalive_timeout"@ || name == "types_hash_max_size"@
    ||| name == "types_hash_bucket_size"@ || name == "default_type"@ || name == "server_tokens"@
    ||| name == "log_format"@ || name == "types"@ || name == "map_hash_bucket_size"@
    ||| name == "map_hash_max_size"@ || name == "gzip_disable"@ || name == "gzip_comp_level"@
    ||| name == "gzip_proxied"@ || name == "gzip_vary"@ || name == "gzip_buffers"@
}

fn http_ignores(name: &str) -> (r: bool)
    ensures
        r == ignored_in_http(name@),
{
    same(name, "include") || same(name, "error_log") || same(name, "sendfile") || same(
        name,
        "tcp_nopush",
    ) || same(name, "tcp_nodelay") || same(name, "keepalive_timeout") || same(
        name,
        "types_hash_max_size",
    ) || same(name, "types_hash_bucket_size") || same(name, "default_type") || same(
        name,
        "server_tokens",
    ) || same(name, "log_format") || same(name, "types") || same(name, "map_hash_bucket_size")
        || same(name, "map_hash_max_size") || same(name, "gzip_disable") || same(
        name,
        "gzip_comp_level",
    ) || same(name, "gzip_proxied") || same(name, "gzip_vary") || same(name, "gzip_buffers")
}

/// One directive of the `http` block.
pub open spec fn http_step(h: HttpV, d: DirectiveV) -> Result<HttpV, Seq<char>> {
    if d.name == "access_log"@ {
        match arg1_of(d) {
            Ok(a) => Ok(HttpV { access_log: Some(a), ..h }),
            Err(e) => Err(e),
        }
    } else if d.name == "upstream"@ {
        match arg1_of(d) {
            Err(e) => Err(e),
            Ok(name) => match block_in(d) {
                Err(e) => Err(e),
                Ok(block) => match upstream_of(name, block, d.line) {
                    Err(e) => Err(e),
                    Ok(u) => Ok(HttpV { upstreams: h.upstreams.push(u), ..h }),
                },
            },
        }
    } else if d.name == "server"@ {
        match block_in(d) {
            Err(e) => Err(e),
            Ok(block) => match server_of(block) {
                Err(e) => Err(e),
                Ok(s) => Ok(HttpV { servers: h.servers.push(s), ..h }),
            },
        }
    } else if d.name == "proxy_cache_path"@ {
        match cache_path_of(d.args, d.line) {
            Err(e) => Err(e),
            Ok(z) => Ok(HttpV { cache_zones: h.cache_zones.push(z), ..h }),
        }
    } else if d.name == "limit_req_zone"@ {
        match limit_req_zone_of(d.args, d.line) {
            Err(e) => Err(e),
            Ok(z) => Ok(HttpV { limit_req_zones: h.limit_req_zones.push(z), ..h }),
        }
    } else if d.name == "limit_conn_zone"@ {
        match limit_conn_zone_of(d.args, d.line) {
            Err(e) => Err(e),
            Ok(z) => Ok(HttpV { limit_conn_zones: h.limit_conn_zones.push(z), ..h }),
        }
    } else if d.name == "map"@ {
        match block_in(d) {
            Err(e) => Err(e),
            Ok(block) => match map_of(d.args, block, d.line) {
                Err(e) => Err(e),
                Ok(m) => Ok(HttpV { maps: h.maps.push(m), ..h }),
            },
        }
    } else if d.name == "gzip"@ {
        match on_off_of(first_of(d), d.line) {
            Ok(b) => Ok(HttpV { gzip: Some(b), ..h }),
            Err(e) => Err(e),
        }
    } else if d.name == "gzip_types"@ {
        Ok(HttpV { gzip_types: lowered_types(h.gzip_types, d.args), ..h })
    } else if d.name == "gzip_min_length"@ {
        match bytes_of(d) {
            Ok(n) => Ok(HttpV { gzip_min_length: Some(n), ..h }),
            Err(e) => Err(e),
        }
    } else if d.name == "client_max_body_size"@ {
        match bytes_of(d) {
            Ok(n) => Ok(HttpV { client_max_body_size: Some(n), ..h }),
            Err(e) => Err(e),
        }
    } else if ignored_in_http(d.name) {
        Ok(h)
    } else {
        Err(unknown_in(d, "http"@))
    }
}

pub open spec fn http_steps(h: HttpV, ds: Seq<DirectiveV>) -> Result<HttpV, Seq<char>>
    decreases ds.len(),
{
    if ds.len() == 0 {
        Ok(h)
    } else {
        match http_step(h, ds[0]) {
            Ok(t) => http_steps(t, ds.skip(1)),
            Err(e) => Err(e),
        }
    }
}

fn apply_http(h: Http, d: &Directive) -> (r: Result<Http, String>)
    ensures
        result_view(r) == http_step(h@, directive_view(*d)),
{
    let mut h = h;
    let name = d.name.as_str();
    if same(name, "access_log") {
        match arg1(d) {
            Ok(a) => {
                h.access_log = Some(a);
            },
            Err(e) => {
                return Err(e);
            },
        }
    } else if same(name, "upstream") {
        let label = match arg1(d) {
            Ok(a) => a,
            Err(e) => {
                return Err(e);
            },
        };
        let block = match expect_block(d) {
            Ok(b) => b,
            Err(e) => {
                return Err(e);
            },
        };
        match build_upstream(label, block, d.line) {
            Ok(u) => {
                proof {
                    lemma_views_push(h.upstreams@, u);
                }
                h.upstreams.push(u);
            },
            Err(e) => {
                return Err(e);
            },
        }
    } else if same(name, "server") {
        let block = match expect_block(d) {
            Ok(b) => b,
            Err(e) => {
                return Err(e);
            },
        };
        match build_server(block) {
            Ok(s) => {
                proof {
                    lemma_views_push(h.servers@, s);
                }
                h.servers.push(s);
            },
            Err(e) => {
                return Err(e);
            },
        }
    } else if same(name, "proxy_cache_path") {
        match parse_cache_path(&d.args, d.line) {
            Ok(z) => {
                proof {
                    lemma_views_push(h.cache_zones@, z);
                }
                h.cache_zones.push(z);
            },
            Err(e) => {
                return Err(e);
            },
        }
    } else if same(name, "limit_req_zone") {
        match parse_limit_req_zone(&d.args, d.line) {
            Ok(z) => {
                proof {
                    lemma_views_push(h.limit_req_zones@, z);
                }
                h.limit_req_zones.push(z);
            },
            Err(e) => {
                return Err(e);
            },
        }
    } else if same(name, "limit_conn_zone") {
        match parse_limit_conn_zone(&d.args, d.line) {
            Ok(z) => {
                proof {
                    lemma_views_push(h.limit_conn_zones@, z);
                }
                h.limit_conn_zones.push(z);
            },
            Err(e) => {
                return Err(e);
            },
        }
    } else if same(name, "map") {
        let block = match expect_block(d) {
            Ok(b) => b,
            Err(e) => {
                return Err(e);
            },
        };
        match build_map(&d.args, block, d.line) {
            Ok(m) => {
                proof {
                    lemma_views_push(h.maps@, m);
                }
                h.maps.push(m);
            },
            Err(e) => {
                return Err(e);
            },
        }
    } else if same(name, "gzip") {
        match parse_on_off(first(d), d.line) {
            Ok(b) => {
                h.gzip = Some(b);
            },
            Err(e) => {
                return Err(e);
            },
        }
    } else if same(name, "gzip_types") {
        h.gzip_types = add_types(h.gzip_types, &d.args);
    } else if same(name, "gzip_min_length") {
        match parse_bytes(d) {
            Ok(n) => {
                h.gzip_min_length = Some(n);
            },
            Err(e) => {
                return Err(e);
            },
        }
    } else if same(name, "client_max_body_size") {
        match parse_bytes(d) {
            Ok(n) => {
                h.client_max_body_size = Some(n);
            },
            Err(e) => {
                return Err(e);
            },
        }
    } else if !http_ignores(name) {
        return Err(unknown(d, "http"));
    }
    Ok(h)
}

/// A server with what `http` says where the server itself says nothing.
pub open spec fn inherited(s: ServerV, h: HttpV) -> ServerV {
    ServerV {
        gzip: if s.gzip is Some {
            s.gzip
        } else {
            h.gzip
        },
        gzip_types: if s.gzip_types.len() > 0 {
            s.gzip_types
        } else {
            h.gzip_types
        },
        gzip_min_length: if s.gzip_min_length is Some {
            s.gzip_min_length
        } else {
            h.gzip_min_length
        },
        client_max_body_size: if s.client_max_body_size is Some {
            s.client_max_body_size
        } else {
            h.client_max_body_size
        },
        ..s
    }
}

/// The `http` block with its settings passed down to its servers, wherever in
/// the block they stand.
pub open spec fn cascaded(h: HttpV) -> HttpV {
    HttpV { servers: h.servers.map_values(|s: ServerV| inherited(s, h)), ..h }
}

/// The `http` block that directives describe.
pub open spec fn http_of(ds: Seq<DirectiveV>) -> Result<HttpV, Seq<char>> {
    match http_steps(empty_http(), ds) {
        Ok(h) => Ok(cascaded(h)),
        Err(e) => Err(e),
    }
}

fn inherit(
    s: &mut Server,
    gzip: Option<bool>,
    gzip_types: &Vec<String>,
    gzip_min_length: Option<usize>,
    client_max_body_size: Option<usize>,
)
    ensures
        forall|h: HttpV|
            h.gzip == gzip && h.gzip_types == views(gzip_types@) && h.gzip_min_length
                == gzip_min_length && h.client_max_body_size == client_max_body_size
                ==> final(s)@ == #[trigger] inherited(old(s)@, h),
{
    assert(views(s.gzip_types@).len() == s.gzip_types@.len());
    if s.gzip.is_none() {
        s.gzip = gzip;
    }
    if s.gzip_types.len() == 0 {
        s.gzip_types = copy_strings(gzip_types);
    }
    if s.gzip_min_length.is_none() {
        s.gzip_min_length = gzip_min_length;
    }
    if s.client_max_body_size.is_none() {
        s.client_max_body_size = client_max_body_size;
    }
}

fn cascade(h: Http) -> (r: Http)
    ensures
        r@ == cascaded(h@),
{
    let ghost whole = h@;
    let mut h = h;
    let ghost before = h.servers@;
    let mut i: usize = 0;
    while i < h.servers.len()
        invariant
            i <= h.servers@.len(),
            h.servers@.len() == before.len(),
            views(before) == whole.servers,
            h@ == (HttpV { servers: views(h.servers@), ..whole }),
            forall|k: int|
                0 <= k < i ==> (#[trigger] h.servers@[k])@ == inherited(whole.servers[k], whole),
            forall|k: int| i <= k < before.len() ==> #[trigger] h.servers@[k] == before[k],
        decreases h.servers@.len() - i,
    {
        let ghost then = h.servers@;
        assert(whole.servers[i as int] == before[i as int]@);
        inherit(
            &mut h.servers[i],
            h.gzip,
            &h.gzip_types,
            h.gzip_min_length,
            h.client_max_body_size,
        );
        assert(h.servers@[i as int]@ == inherited(whole.servers[i as int], whole));
        assert(forall|k: int| 0 <= k < then.len() && k != i ==> #[trigger] h.servers@[k] == then[k]);
        i = i + 1;
    }
    assert(views(h.servers@) =~= cascaded(whole).servers);
    h
}

fn build_http(dirs: &Vec<Directive>) -> (r: Result<Http, String>)
    ensures
        result_view(r) == http_of(directive_views(dirs@)),
{
    let ghost all = directive_views(dirs@);
    let mut h = Http::default();
    let mut i: usize = 0;
    assert(all.skip(0) == all);
    while i < dirs.len()
        invariant
            i <= dirs@.len(),
            all == directive_views(dirs@),
            http_steps(h@, all.skip(i as int)) == http_steps(empty_http(), all),
        decreases dirs@.len() - i,
    {
        let ghost rest = all.skip(i as int);
        assert(rest[0] == directive_view(dirs@[i as int]));
        assert(rest.skip(1) == all.skip(i + 1));
        match apply_http(h, &dirs[i]) {
            Ok(t) => {
                h = t;
            },
            Err(e) => {
                return Err(e);
            },
        }
        i = i + 1;
    }
    assert(all.skip(i as int).len() == 0);
    Ok(cascade(h))
}

// ---------------------------------------------------------------------------
// stream
// ---------------------------------------------------------------------------

/// One directive of a stream server block. TLS and UDP are not supported.
pub open spec fn stream_server_step(s: StreamServerV, d: DirectiveV) -> Result<
    StreamServerV,
    Seq<char>,
> {
    if d.name == "listen"@ {
        match arg1_of(d) {
            Err(e) => Err(e),
            Ok(a) => if names(d.args, "ssl"@) {
                Err(
                    msg1(
                        d.line,
                        "'listen ... ssl' in a stream server (TLS pass-through / termination) is not supported yet"@,
                    ),
                )
            } else if names(d.args, "udp"@) {
                Err(
                    msg1(
                        d.line,
                        "'listen ... udp' is not supported yet (UDP stream proxying is on the roadmap)"@,
                    ),
                )
            } else {
                match listen_of(a, d.line) {
                    Ok(addr) => Ok(StreamServerV { listen: Some(addr), ..s }),
                    Err(e) => Err(e),
                }
            },
        }
    } else if d.name == "proxy_pass"@ {
        match arg1_of(d) {
            Ok(a) => Ok(StreamServerV { proxy_pass: Some(a), ..s }),
            Err(e) => Err(e),
        }
    } else if d.name == "include"@ || d.name == "proxy_timeout"@ || d.name
        == "proxy_connect_timeout"@ || d.name == "tcp_nodelay"@ {
        Ok(s)
    } else {
        Err(unknown_in(d, "stream server"@))
    }
}

pub open spec fn stream_server_steps(s: StreamServerV, ds: Seq<DirectiveV>) -> Result<
    StreamServerV,
    Seq<char>,
>
    decreases ds.len(),
{
    if ds.len() == 0 {
        Ok(s)
    } else {
        match stream_server_step(s, ds[0]) {
            Ok(t) => stream_server_steps(t, ds.skip(1)),
            Err(e) => Err(e),
        }
    }
}

/// The stream server that a block describes. It must listen somewhere and
/// proxy somewhere.
pub open spec fn stream_server_of(ds: Seq<DirectiveV>) -> Result<StreamServerV, Seq<char>> {
    match stream_server_steps(empty_stream_server(), ds) {
        Err(e) => Err(e),
        Ok(s) => if s.listen is None {
            Err("a stream 'server' block is missing its 'listen' directive"@)
        } else if s.proxy_pass is None {
            Err("a stream 'server' block is missing 'proxy_pass'"@)
        } else {
            Ok(s)
        },
    }
}

fn apply_stream_server(s: StreamServer, d: &Directive) -> (r: Result<StreamServer, String>)
    ensures
        result_view(r) == stream_server_step(s@, directive_view(*d)),
{
    let mut s = s;
    let name = d.name.as_str();
    if same(name, "listen") {
        let a = match arg1(d) {
            Ok(a) => a,
            Err(e) => {
                return Err(e);
            },
        };
        if has_arg(d, "ssl") {
            return Err(
                fail1(
                    d.line,
                    "'listen ... ssl' in a stream server (TLS pass-through / termination) is not supported yet",
                ),
            );
        }
        if has_arg(d, "udp") {
            return Err(
                fail1(
                    d.line,
                    "'listen ... udp' is not supported yet (UDP stream proxying is on the roadmap)",
                ),
            );
        }
        match parse_listen(a.as_str(), d.line) {
            Ok(addr) => {
                s.listen = Some(addr);
            },
            Err(e) => {
                return Err(e);
            },
        }
    } else if same(name, "proxy_pass") {
        match arg1(d) {
            Ok(a) => {
                s.proxy_pass = Some(a);
            },
            Err(e) => {
                return Err(e);
            },
        }
    } else if !(same(name, "include") || same(name, "proxy_timeout") || same(
        name,
        "proxy_connect_timeout",
    ) || same(name, "tcp_nodelay")) {
        return Err(unknown(d, "stream server"));
    }
    Ok(s)
}

fn build_stream_server(dirs: &Vec<Directive>) -> (r: Result<StreamServer, String>)
    ensures
        result_view(r) == stream_server_of(directive_views(dirs@)),
{
    let ghost all = directive_views(dirs@);
    let mut s = StreamServer::default();
    let mut i: usize = 0;
    assert(all.skip(0) == all);
    while i < dirs.len()
        invariant
            i <= dirs@.len(),
            all == directive_views(dirs@),
            stream_server_steps(s@, all.skip(i as int)) == stream_server_steps(
                empty_stream_server(),
                all,
            ),
        decreases dirs@.len() - i,
    {
        let ghost rest = all.skip(i as int);
        assert(rest[0] == directive_view(dirs@[i as int]));
        assert(rest.skip(1) == all.skip(i + 1));
        match apply_stream_server(s, &dirs[i]) {
            Ok(t) => {
                s = t;
            },
            Err(e) => {
                return Err(e);
            },
        }
        i = i + 1;
    }
    assert(all.skip(i as int).len() == 0);
    if s.listen.is_none() {
        return Err("a stream 'server' block is missing its 'listen' directive".to_owned());
    }
    if s.proxy_pass.is_none() {
        return Err("a stream 'server' block is missing 'proxy_pass'".to_owned());
    }
    Ok(s)
}

/// Directives that are accepted in `stream` and have no effect.
pub open spec fn ignored_in_stream(name: Seq<char>) -> bool {
    ||| name == "include"@ || name == "access_log"@ || name == "error_log"@ || name == "log_format"@
    ||| name == "proxy_timeout"@ || name == "proxy_connect_timeout"@ || name == "tcp_nodelay"@
    ||| name == "resolver"@
}

/// One directive of the `stream` block.
pub open spec fn stream_step(s: StreamV, d: DirectiveV) -> Result<StreamV, Seq<char>> {
    if d.name == "upstream"@ {
        match arg1_of(d) {
            Err(e) => Err(e),
            Ok(name) => match block_in(d) {
                Err(e) => Err(e),
                Ok(block) => match upstream_of(name, block, d.line) {
                    Err(e) => Err(e),
                    Ok(u) => Ok(StreamV { upstreams: s.upstreams.push(u), ..s }),
                },
            },
        }
    } else if d.name == "server"@ {
        match block_in(d) {
            Err(e) => Err(e),
            Ok(block) => match stream_server_of(block) {
                Err(e) => Err(e),
                Ok(x) => Ok(StreamV { servers: s.servers.push(x), ..s }),
            },
        }
    } else if ignored_in_stream(d.name) {
        Ok(s)
    } else {
        Err(unknown_in(d, "stream"@))
    }
}

pub open spec fn stream_steps(s: StreamV, ds: Seq<DirectiveV>) -> Result<StreamV, Seq<char>>
    decreases ds.len(),
{
    if ds.len() == 0 {
        Ok(s)
    } else {
        match stream_step(s, ds[0]) {
            Ok(t) => stream_steps(t, ds.skip(1)),
            Err(e) => Err(e),
        }
    }
}

fn apply_stream(s: Stream, d: &Directive) -> (r: Result<Stream, String>)
    ensures
        result_view(r) == stream_step(s@, directive_view(*d)),
{
    let mut s = s;
    let name = d.name.as_str();
    if same(name, "upstream") {
        let label = match arg1(d) {
            Ok(a) => a,
            Err(e) => {
                return Err(e);
            },
        };
        let block = match expect_block(d) {
            Ok(b) => b,
            Err(e) => {
                return Err(e);
            },
        };
        match build_upstream(label, block, d.line) {
            Ok(u) => {
                proof {
                    lemma_views_push(s.upstreams@, u);
                }
                s.upstreams.push(u);
            },
            Err(e) => {
                return Err(e);
            },
        }
    } else if same(name, "server") {
        let block = match expect_block(d) {
            Ok(b) => b,
            Err(e) => {
                return Err(e);
            },
        };
        match build_stream_server(block) {
            Ok(x) => {
                proof {
                    lemma_views_push(s.servers@, x);
                }
                s.servers.push(x);
            },
            Err(e) => {
                return Err(e);
            },
        }
    } else if !(same(name, "include") || same(name, "access_log") || same(name, "error_log") || same(
        name,
        "log_format",
    ) || same(name, "proxy_timeout") || same(name, "proxy_connect_timeout") || same(
        name,
        "tcp_nodelay",
    ) || same(name, "resolver")) {
        return Err(unknown(d, "stream"));
    }
    Ok(s)
}

fn build_stream(dirs: &Vec<Directive>) -> (r: Result<Stream, String>)
    ensures
        result_view(r) == stream_steps(empty_stream(), directive_views(dirs@)),
{
    let ghost all = directive_views(dirs@);
    let mut s = Stream::default();
    let mut i: usize = 0;
    assert(all.skip(0) == all);
    while i < dirs.len()
        invariant
            i <= dirs@.len(),
            all == directive_views(dirs@),
            stream_steps(s@, all.skip(i as int)) == stream_steps(empty_stream(), all),
        decreases dirs@.len() - i,
    {
        let ghost rest = all.skip(i as int);
        assert(rest[0] == directive_view(dirs@[i as int]));
        assert(rest.skip(1) == all.skip(i + 1));
        match apply_stream(s, &dirs[i]) {
            Ok(t) => {
                s = t;
            },
            Err(e) => {
                return Err(e);
            },
        }
        i = i + 1;
    }
    assert(all.skip(i as int).len() == 0);
    Ok(s)
}

// ---------------------------------------------------------------------------
// The main context
// ---------------------------------------------------------------------------

/// Directives that are accepted in the main context and have no effect.
/// `include` is expanded beforehand; where there is no file to expand it
/// against, it is left alone.
pub open spec fn ignored_in_main(name: Seq<char>) -> bool {
    ||| name == "events"@ || name == "include"@ || name == "load_module"@ || name == "daemon"@
    ||| name == "master_process"@ || name == "worker_shutdown_timeout"@
}

/// One directive of the main context.
pub open spec fn main_step(c: ConfigV, d: DirectiveV) -> Result<ConfigV, Seq<char>> {
    if d.name == "worker_processes"@ {
        match arg1_of(d) {
            Ok(a) => Ok(ConfigV { worker_processes: Some(a), ..c }),
            Err(e) => Err(e),
        }
    } else if d.name == "pid"@ {
        match arg1_of(d) {
            Ok(a) => Ok(ConfigV { pid: Some(a), ..c }),
            Err(e) => Err(e),
        }
    } else if d.name == "error_log"@ {
        match arg1_of(d) {
            Ok(a) => Ok(ConfigV { error_log: Some(a), ..c }),
            Err(e) => Err(e),
        }
    } else if d.name == "user"@ {
        match arg1_of(d) {
            Ok(a) => Ok(
                ConfigV {
                    user: Some(a),
                    group: if d.args.len() > 1 {
                        Some(d.args[1])
                    } else {
                        None
                    },
                    ..c
                },
            ),
            Err(e) => Err(e),
        }
    } else if d.name == "worker_rlimit_nofile"@ {
        match arg1_of(d) {
            Err(e) => Err(e),
            Ok(a) => match number(a, u64::MAX as nat) {
                Some(n) => Ok(ConfigV { worker_rlimit_nofile: Some(n as u64), ..c }),
                None => Err(msg3(d.line, "invalid worker_rlimit_nofile '"@, a, "'"@)),
            },
        }
    } else if d.name == "http"@ {
        match block_in(d) {
            Err(e) => Err(e),
            Ok(block) => match http_of(block) {
                Ok(h) => Ok(ConfigV { http: Some(h), ..c }),
                Err(e) => Err(e),
            },
        }
    } else if d.name == "stream"@ {
        match block_in(d) {
            Err(e) => Err(e),
            Ok(block) => match stream_steps(empty_stream(), block) {
                Ok(s) => Ok(ConfigV { stream: Some(s), ..c }),
                Err(e) => Err(e),
            },
        }
    } else if ignored_in_main(d.name) {
        Ok(c)
    } else {
        Err(unknown_in(d, "main"@))
    }
}

pub open spec fn main_steps(c: ConfigV, ds: Seq<DirectiveV>) -> Result<ConfigV, Seq<char>>
    decreases ds.len(),
{
    if ds.len() == 0 {
        Ok(c)
    } else {
        match main_step(c, ds[0]) {
            Ok(t) => main_steps(t, ds.skip(1)),
            Err(e) => Err(e),
        }
    }
}

/// The configuration that a directive tree describes.
pub open spec fn config_of(ds: Seq<DirectiveV>) -> Result<ConfigV, Seq<char>> {
    main_steps(empty_config(), ds)
}

fn apply_main(c: Config, d: &Directive) -> (r: Result<Config, String>)
    ensures
        result_view(r) == main_step(c@, directive_view(*d)),
{
    let mut c = c;
    let name = d.name.as_str();
    if same(name, "worker_processes") {
        match arg1(d) {
            Ok(a) => {
                c.worker_processes = Some(a);
            },
            Err(e) => {
                return Err(e);
            },
        }
    } else if same(name, "pid") {
        match arg1(d) {
            Ok(a) => {
                c.pid = Some(a);
            },
            Err(e) => {
                return Err(e);
            },
        }
    } else if same(name, "error_log") {
        match arg1(d) {
            Ok(a) => {
                c.error_log = Some(a);
            },
            Err(e) => {
                return Err(e);
            },
        }
    } else if same(name, "user") {
        match arg1(d) {
            Ok(a) => {
                c.user = Some(a);
            },
            Err(e) => {
                return Err(e);
            },
        }
        c.group = if d.args.len() > 1 { Some(arg2(d)) } else { None };
    } else if same(name, "worker_rlimit_nofile") {
        match arg1(d) {
            Err(e) => {
                return Err(e);
            },
            Ok(a) => match parse_number(a.as_str(), u64::MAX) {
                Some(n) => {
                    c.worker_rlimit_nofile = Some(n);
                },
                None => {
                    return Err(
                        fail3(d.line, "invalid worker_rlimit_nofile '", a.as_str(), "'"),
                    );
                },
            },
        }
    } else if same(name, "http") {
        let block = match expect_block(d) {
            Ok(b) => b,
            Err(e) => {
                return Err(e);
            },
        };
        match build_http(block) {
            Ok(h) => {
                c.http = Some(h);
            },
            Err(e) => {
                return Err(e);
            },
        }
    } else if same(name, "stream") {
        let block = match expect_block(d) {
            Ok(b) => b,
            Err(e) => {
                return Err(e);
            },
        };
        match build_stream(block) {
            Ok(s) => {
                c.stream = Some(s);
            },
            Err(e) => {
                return Err(e);
            },
        }
    } else if !(same(name, "events") || same(name, "include") || same(name, "load_module") || same(
        name,
        "daemon",
    ) || same(name, "master_process") || same(name, "worker_shutdown_timeout")) {
        return Err(unknown(d, "main"));
    }
    Ok(c)
}

/// Lower a directive tree into the typed model.
pub fn build(dirs: &Vec<Directive>) -> (r: Result<Config, String>)
    ensures
        result_view(r) == config_of(directive_views(dirs@)),
{
    let ghost all = directive_views(dirs@);
    let mut c = Config::default();
    let mut i: usize = 0;
    assert(all.skip(0) == all);
    while i < dirs.len()
        invariant
            i <= dirs@.len(),
            all == directive_views(dirs@),
            main_steps(c@, all.skip(i as int)) == main_steps(empty_config(), all),
        decreases dirs@.len() - i,
    {
        let ghost rest = all.skip(i as int);
        assert(rest[0] == directive_view(dirs@[i as int]));
        assert(rest.skip(1) == all.skip(i + 1));
        match apply_main(c, &dirs[i]) {
            Ok(t) => {
                c = t;
            },
            Err(e) => {
                return Err(e);
            },
        }
        i = i + 1;
    }
    assert(all.skip(i as int).len() == 0);
    Ok(c)
}

/// The configuration that a text describes, read on its own.
pub open spec fn parsed(text: Seq<char>) -> Result<ConfigV, Seq<char>> {
    match tokens_of(text, 1) {
        Err(e) => Err(e),
        Ok(ts) => match directives_of(ts) {
            Err(e) => Err(e),
            Ok(ds) => config_of(ds),
        },
    }
}

/// Parse configuration directly from a string. `include` directives are left
/// as-is (and tolerated by [`build`]).
pub fn parse_str(text: &str) -> (r: Result<Config, String>)
    ensures
        result_view(r) == parsed(text@),
{
    let tokens = match lex(text) {
        Ok(t) => t,
        Err(e) => {
            return Err(e);
        },
    };
    let dirs = match parse(tokens.as_slice()) {
        Ok(d) => d,
        Err(e) => {
            return Err(e);
        },
    };
    build(&dirs)
}

} // verus!
