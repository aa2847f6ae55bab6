//! Laws on the blocks around locations: servers, `http`, upstreams, `stream` and
//! the main context. Each says what one directive more at the end of a block does.

use super::text::law_prefix_goes_off;
use super::words::{
    lemma_http_words, lemma_main_words, lemma_server_words, lemma_stream_words,
    lemma_upstream_words,
};
use super::zones::starts;
use crate::config::ast::{
    ConfigV, empty_config, empty_http, empty_server, HealthCheckCfgV, HttpV, LbMethod, ServerV,
    StreamServerV, StreamV, TlsVersion, UpstreamServerV, UpstreamV,
};
use crate::config::context::{
    config_of, http_of, http_step, http_steps, main_step, main_steps, protocols_of, root_of,
    server_of, server_step, server_steps, stream_server_of, stream_server_step,
    stream_server_steps, stream_step, stream_steps,
};
use crate::config::location::{location_of, pattern_of};
use crate::config::lowering::{
    empty_upstream, probe_arg, probe_args, server_flag, server_flags, upstream_of, upstream_server,
    upstream_step, upstream_steps,
};
use crate::config::parser::DirectiveV;
use crate::config::values::{duration_of, listen_of, size_value};
use crate::config::zones::{cache_path_of, limit_conn_zone_of, limit_req_zone_of, map_of};
use crate::template::template_of;
use crate::text::{after_prefix, lowercase, number};
use crate::time::Duration;
use vstd::prelude::*;
use vstd::string::*;

verus! {

// ---------------------------------------------------------------------------
// Servers
// ---------------------------------------------------------------------------

proof fn lemma_server_push(s: ServerV, ds: Seq<DirectiveV>, d: DirectiveV)
    ensures
        server_steps(s, ds.push(d)) == (match server_steps(s, ds) {
            Ok(t) => server_step(t, d),
            Err(e) => Err(e),
        }),
    decreases ds.len(),
{
    let all = ds.push(d);
    assert(all[0] == if ds.len() == 0 {
        d
    } else {
        ds[0]
    });
    if ds.len() == 0 {
        assert(all.skip(1) =~= seq![]);
        if let Ok(t) = server_step(s, d) {
            assert(server_steps(t, all.skip(1)) == Ok::<ServerV, Seq<char>>(t));
        }
    } else {
        assert(all.skip(1) =~= ds.skip(1).push(d));
        if let Ok(t) = server_step(s, ds[0]) {
            lemma_server_push(t, ds.skip(1), d);
        }
    }
}

/// Whether a directive has a word among its arguments.
pub open spec fn has_word(d: DirectiveV, w: Seq<char>) -> bool {
    exists|k: int| 0 <= k < d.args.len() && d.args[k] == w
}

/// One directive more in a server sets the one thing that it is about.
#[verifier::rlimit(50)]
pub proof fn law_server_directives(s: ServerV, ds: Seq<DirectiveV>, d: DirectiveV, a: ServerV)
    requires
        server_steps(s, ds) == Ok::<ServerV, Seq<char>>(a),
    ensures
        ({
            let b = server_steps(s, ds.push(d));
            let given = d.args.len() > 0;
            let x = d.args[0];
            &&& d.name == "server_name"@ ==> (b matches Ok(t) && t == (ServerV {
                server_name: if given {
                    Some(x)
                } else {
                    None
                },
                ..a
            }))
            &&& d.name == "ssl_certificate"@ && given ==> (b matches Ok(t) && t == (ServerV {
                ssl_certificate: Some(x),
                ..a
            }))
            &&& d.name == "ssl_certificate_key"@ && given ==> (b matches Ok(t) && t == (ServerV {
                ssl_certificate_key: Some(x),
                ..a
            }))
            &&& d.name == "gzip"@ && given && x == "on"@ ==> (b matches Ok(t) && t == (ServerV {
                gzip: Some(true),
                ..a
            }))
            &&& d.name == "gzip"@ && given && x == "off"@ ==> (b matches Ok(t) && t == (ServerV {
                gzip: Some(false),
                ..a
            }))
            &&& d.name == "gzip_min_length"@ && given ==> match size_value(x) {
                Some(n) => b matches Ok(t) && t == (ServerV { gzip_min_length: Some(n), ..a }),
                None => b is Err,
            }
            &&& d.name == "client_max_body_size"@ && given ==> match size_value(x) {
                Some(n) => b matches Ok(t) && t == (ServerV { client_max_body_size: Some(n), ..a }),
                None => b is Err,
            }
            &&& d.name == "add_header"@ && given ==> (b matches Ok(t) && t == (ServerV {
                add_headers: a.add_headers.push(
                    (
                        x,
                        template_of(
                            if d.args.len() > 1 {
                                d.args[1]
                            } else {
                                seq![]
                            },
                        ),
                    ),
                ),
                ..a
            }))
            &&& d.name == "gzip_types"@ ==> b is Ok && {
                let t = b->Ok_0;
                &&& t == (ServerV { gzip_types: t.gzip_types, ..a })
                &&& t.gzip_types.len() == a.gzip_types.len() + d.args.len()
                &&& forall|k: int|
                    0 <= k < a.gzip_types.len() ==> t.gzip_types[k] == a.gzip_types[k]
                &&& forall|k: int|
                    0 <= k < d.args.len() ==> t.gzip_types[a.gzip_types.len() + k] == lowercase(
                        #[trigger] d.args[k],
                    )
            }
            &&& d.name == "return"@ ==> b is Err
            &&& (d.name == "ssl_certificate"@ || d.name == "ssl_certificate_key"@ || d.name
                == "add_header"@ || d.name == "gzip"@ || d.name == "gzip_min_length"@ || d.name
                == "client_max_body_size"@ || d.name == "listen"@ || d.name == "location"@)
                && !given ==> b is Err
        }),
{
    lemma_server_words();
    lemma_server_push(s, ds, d);
}

/// `listen` sets the address; `ssl` turns TLS on, and `http3` or `quic` both TLS and
/// HTTP/3. Nothing turns them off again. UDP is refused.
#[verifier::rlimit(50)]
pub proof fn law_listen(s: ServerV, ds: Seq<DirectiveV>, d: DirectiveV, a: ServerV)
    requires
        server_steps(s, ds) == Ok::<ServerV, Seq<char>>(a),
        d.name == "listen"@,
        d.args.len() > 0,
    ensures
        has_word(d, "udp"@) || listen_of(d.args[0], d.line) is Err ==> server_steps(s, ds.push(d))
            is Err,
        !has_word(d, "udp"@) && listen_of(d.args[0], d.line) is Ok ==> (server_steps(s, ds.push(d))
            matches Ok(t) && t == (ServerV {
            listen: Some(listen_of(d.args[0], d.line)->Ok_0),
            tls: a.tls || has_word(d, "ssl"@) || has_word(d, "http3"@) || has_word(d, "quic"@),
            http3: a.http3 || has_word(d, "http3"@) || has_word(d, "quic"@),
            ..a
        })),
{
    lemma_server_words();
    lemma_server_push(s, ds, d);
    lemma_has_word(d, "udp"@);
    lemma_has_word(d, "ssl"@);
    lemma_has_word(d, "http3"@);
    lemma_has_word(d, "quic"@);
}

proof fn lemma_has_word(d: DirectiveV, w: Seq<char>)
    ensures
        has_word(d, w) == crate::config::lowering::names(d.args, w),
{
}

/// A `location` in a server becomes one more location, with the pattern of its
/// arguments, the contents of its block and the root of the server.
pub proof fn law_location_in_server(s: ServerV, ds: Seq<DirectiveV>, d: DirectiveV, a: ServerV)
    requires
        server_steps(s, ds) == Ok::<ServerV, Seq<char>>(a),
        d.name == "location"@,
    ensures
        match server_steps(s, ds.push(d)) {
            Ok(t) => {
                &&& d.args.len() > 0
                &&& pattern_of(d.args, d.line) is Ok
                &&& d.block is Some
                &&& t.locations.len() == a.locations.len() + 1
                &&& t.locations.drop_last() == a.locations
                &&& t == (ServerV { locations: t.locations, ..a })
                &&& location_of(
                    (pattern_of(d.args, d.line)->Ok_0).1,
                    (pattern_of(d.args, d.line)->Ok_0).0,
                    d.block->0,
                    d.line,
                    a.root,
                ) == Ok::<_, Seq<char>>(t.locations.last())
            },
            Err(_) => {
                ||| d.args.len() == 0
                ||| pattern_of(d.args, d.line) is Err
                ||| d.block is None
                ||| location_of(
                    (pattern_of(d.args, d.line)->Ok_0).1,
                    (pattern_of(d.args, d.line)->Ok_0).0,
                    d.block->0,
                    d.line,
                    a.root,
                ) is Err
            },
        },
{
    lemma_server_words();
    lemma_server_push(s, ds, d);
    if let Ok(t) = server_steps(s, ds.push(d)) {
        assert(t.locations.drop_last() =~= a.locations);
    }
}

proof fn lemma_protocols(done: Seq<TlsVersion>, args: Seq<Seq<char>>, line: usize)
    ensures
        match protocols_of(done, args, line) {
            Ok(p) => {
                &&& p.len() == done.len() + args.len()
                &&& forall|k: int| 0 <= k < done.len() ==> p[k] == done[k]
                &&& forall|k: int|
                    0 <= k < args.len() ==> ((#[trigger] args[k]) == "TLSv1.2"@ && p[done.len() + k]
                        is Tls12) || (args[k] == "TLSv1.3"@ && p[done.len() + k] is Tls13)
            },
            Err(_) => exists|k: int|
                0 <= k < args.len() && (#[trigger] args[k]) != "TLSv1.2"@ && args[k] != "TLSv1.3"@,
        },
    decreases args.len(),
{
    if args.len() > 0 && (args[0] == "TLSv1.2"@ || args[0] == "TLSv1.3"@) {
        let now = done.push(
            if args[0] == "TLSv1.2"@ {
                TlsVersion::Tls12
            } else {
                TlsVersion::Tls13
            },
        );
        let rest = args.skip(1);
        lemma_protocols(now, rest, line);
        match protocols_of(done, args, line) {
            Ok(p) => {
                assert(p[done.len() as int] == now[done.len() as int]);
                assert forall|k: int| 0 <= k < done.len() implies p[k] == done[k] by {
                    assert(now[k] == done[k]);
                }
                assert forall|k: int| 0 <= k < args.len() implies ((#[trigger] args[k])
                    == "TLSv1.2"@ && p[done.len() + k] is Tls12) || (args[k] == "TLSv1.3"@
                    && p[done.len() + k] is Tls13) by {
                    if k > 0 {
                        assert(rest[k - 1] == args[k]);
                    }
                }
            },
            Err(_) => {
                let k = choose|k: int|
                    0 <= k < rest.len() && (#[trigger] rest[k]) != "TLSv1.2"@ && rest[k]
                        != "TLSv1.3"@;
                assert(args[k + 1] == rest[k]);
            },
        }
    }
}

/// `ssl_protocols` sets the versions that it names, in order; other names are
/// refused.
pub proof fn law_ssl_protocols(s: ServerV, ds: Seq<DirectiveV>, d: DirectiveV, a: ServerV)
    requires
        server_steps(s, ds) == Ok::<ServerV, Seq<char>>(a),
        d.name == "ssl_protocols"@,
    ensures
        match server_steps(s, ds.push(d)) {
            Ok(t) => {
                &&& t == (ServerV { ssl_protocols: t.ssl_protocols, ..a })
                &&& t.ssl_protocols.len() == d.args.len()
                &&& forall|k: int|
                    0 <= k < d.args.len() ==> ((#[trigger] d.args[k]) == "TLSv1.2"@
                        && t.ssl_protocols[k] is Tls12) || (d.args[k] == "TLSv1.3"@
                        && t.ssl_protocols[k] is Tls13)
            },
            Err(_) => exists|k: int|
                0 <= k < d.args.len() && (#[trigger] d.args[k]) != "TLSv1.2"@ && d.args[k]
                    != "TLSv1.3"@,
        },
{
    lemma_server_words();
    lemma_server_push(s, ds, d);
    lemma_protocols(seq![], d.args, d.line);
}

proof fn lemma_root(found: Option<Seq<char>>, ds: Seq<DirectiveV>)
    ensures
        root_of(found, ds) matches Ok(r) ==> (r == found && forall|i: int|
            0 <= i < ds.len() ==> (#[trigger] ds[i]).name != "root"@) || exists|i: int|
            0 <= i < ds.len() && (#[trigger] ds[i]).name == "root"@ && ds[i].args.len() > 0 && r
                == Some(ds[i].args[0]) && forall|j: int|
                i < j < ds.len() ==> (#[trigger] ds[j]).name != "root"@,
    decreases ds.len(),
{
    if ds.len() > 0 {
        let rest = ds.skip(1);
        let now = if ds[0].name == "root"@ {
            Some(ds[0].args[0])
        } else {
            found
        };
        lemma_root(now, rest);
        if let Ok(r) = root_of(found, ds) {
            if exists|i: int|
                0 <= i < rest.len() && (#[trigger] rest[i]).name == "root"@ && rest[i].args.len()
                    > 0 && r == Some(rest[i].args[0]) && forall|j: int|
                    i < j < rest.len() ==> (#[trigger] rest[j]).name != "root"@ {
                let i = choose|i: int|
                    0 <= i < rest.len() && (#[trigger] rest[i]).name == "root"@
                        && rest[i].args.len() > 0 && r == Some(rest[i].args[0]) && forall|j: int|
                        i < j < rest.len() ==> (#[trigger] rest[j]).name != "root"@;
                assert(ds[i + 1] == rest[i]);
                assert forall|j: int| i + 1 < j < ds.len() implies (#[trigger] ds[j]).name
                    != "root"@ by {
                    assert(rest[j - 1] == ds[j]);
                }
            } else {
                assert forall|j: int| 0 < j < ds.len() implies (#[trigger] ds[j]).name
                    != "root"@ by {
                    assert(rest[j - 1] == ds[j]);
                }
                if ds[0].name == "root"@ {
                    assert(ds[0].args.len() > 0);
                }
            }
        }
    }
}

/// A server block is read from nothing set, with the last `root` in it as its root
/// throughout. It must listen, and with TLS it must have a certificate and a key.
pub proof fn law_server_block(ds: Seq<DirectiveV>)
    ensures
        match server_of(ds) {
            Ok(s) => exists|start: ServerV|
                #![trigger server_steps(start, ds)]
                {
                    &&& server_steps(start, ds) == Ok::<ServerV, Seq<char>>(s)
                    &&& s.listen is Some
                    &&& s.tls ==> s.ssl_certificate is Some && s.ssl_certificate_key is Some
                    &&& start.listen is None && start.server_name is None && start.locations.len()
                        == 0 && !start.tls && !start.http3 && start.ssl_certificate is None
                        && start.ssl_certificate_key is None && start.ssl_protocols.len() == 0
                        && start.gzip is None && start.gzip_types.len() == 0
                        && start.gzip_min_length is None && start.client_max_body_size is None
                        && start.add_headers.len() == 0
                    &&& (start.root is None && forall|i: int|
                        0 <= i < ds.len() ==> (#[trigger] ds[i]).name != "root"@) || exists|i: int|
                        0 <= i < ds.len() && (#[trigger] ds[i]).name == "root"@ && ds[i].args.len()
                            > 0 && start.root == Some(ds[i].args[0]) && forall|j: int|
                            i < j < ds.len() ==> (#[trigger] ds[j]).name != "root"@
                },
            Err(_) => root_of(None, ds) is Err || server_steps(
                ServerV { root: root_of(None, ds)->Ok_0, ..empty_server() },
                ds,
            ) is Err || ({
                let s = server_steps(
                    ServerV { root: root_of(None, ds)->Ok_0, ..empty_server() },
                    ds,
                )->Ok_0;
                s.listen is None || s.tls && (s.ssl_certificate is None || s.ssl_certificate_key
                    is None)
            }),
        },
{
    lemma_root(None, ds);
    if let Ok(s) = server_of(ds) {
        let start = ServerV { root: root_of(None, ds)->Ok_0, ..empty_server() };
        assert(server_steps(start, ds) == Ok::<ServerV, Seq<char>>(s));
    }
}

/// Words that are accepted in a server and change nothing there.
pub open spec fn no_effect_in_server(name: Seq<char>) -> bool {
    ||| name == "ssl_ciphers"@ || name == "ssl_prefer_server_ciphers"@
    ||| name == "ssl_session_cache"@ || name == "ssl_session_timeout"@
    ||| name == "ssl_session_tickets"@ || name == "ssl_dhparam"@ || name == "ssl_ecdh_curve"@
    ||| name == "ssl_stapling"@ || name == "gzip_disable"@ || name == "gzip_comp_level"@
    ||| name == "gzip_proxied"@ || name == "gzip_vary"@ || name == "gzip_buffers"@
    ||| name == "root"@ || name == "include"@ || name == "access_log"@ || name == "error_log"@
    ||| name == "index"@ || name == "error_page"@
}

/// A misspelt directive refuses a server, and a word without effect leaves it as it
/// is.
#[verifier::rlimit(50)]
pub proof fn law_server_words(s: ServerV, ds: Seq<DirectiveV>, d: DirectiveV)
    ensures
        no_effect_in_server(d.name) ==> server_steps(s, ds.push(d)) == server_steps(s, ds),
        server_steps(s, ds.push(d)) is Ok ==> no_effect_in_server(d.name) || d.name == "listen"@
            || d.name == "server_name"@ || d.name == "ssl_certificate"@ || d.name
            == "ssl_certificate_key"@ || d.name == "ssl_protocols"@ || d.name == "gzip"@ || d.name
            == "gzip_types"@ || d.name == "gzip_min_length"@ || d.name == "client_max_body_size"@
            || d.name == "add_header"@ || d.name == "location"@,
{
    lemma_server_words();
    lemma_server_push(s, ds, d);
}

// ---------------------------------------------------------------------------
// http
// ---------------------------------------------------------------------------

proof fn lemma_http_push(h: HttpV, ds: Seq<DirectiveV>, d: DirectiveV)
    ensures
        http_steps(h, ds.push(d)) == (match http_steps(h, ds) {
            Ok(t) => http_step(t, d),
            Err(e) => Err(e),
        }),
    decreases ds.len(),
{
    let all = ds.push(d);
    assert(all[0] == if ds.len() == 0 {
        d
    } else {
        ds[0]
    });
    if ds.len() == 0 {
        assert(all.skip(1) =~= seq![]);
        if let Ok(t) = http_step(h, d) {
            assert(http_steps(t, all.skip(1)) == Ok::<HttpV, Seq<char>>(t));
        }
    } else {
        assert(all.skip(1) =~= ds.skip(1).push(d));
        if let Ok(t) = http_step(h, ds[0]) {
            lemma_http_push(t, ds.skip(1), d);
        }
    }
}

/// One directive more in `http` adds its server, upstream, zone or map, or sets the
/// one thing that it is about.
#[verifier::rlimit(50)]
pub proof fn law_http_directives(h: HttpV, ds: Seq<DirectiveV>, d: DirectiveV, a: HttpV)
    requires
        http_steps(h, ds) == Ok::<HttpV, Seq<char>>(a),
    ensures
        ({
            let b = http_steps(h, ds.push(d));
            let given = d.args.len() > 0;
            let x = d.args[0];
            &&& d.name == "access_log"@ && given ==> (b matches Ok(t) && t == (HttpV {
                access_log: Some(x),
                ..a
            }))
            &&& d.name == "upstream"@ ==> match b {
                Ok(t) => given && d.block is Some && upstream_of(x, d.block->0, d.line) is Ok && t
                    == (HttpV {
                    upstreams: a.upstreams.push(upstream_of(x, d.block->0, d.line)->Ok_0),
                    ..a
                }),
                Err(_) => !given || d.block is None || upstream_of(x, d.block->0, d.line) is Err,
            }
            &&& d.name == "server"@ ==> match b {
                Ok(t) => d.block is Some && server_of(d.block->0) is Ok && t == (HttpV {
                    servers: a.servers.push(server_of(d.block->0)->Ok_0),
                    ..a
                }),
                Err(_) => d.block is None || server_of(d.block->0) is Err,
            }
            &&& d.name == "proxy_cache_path"@ ==> match cache_path_of(d.args, d.line) {
                Ok(z) => b matches Ok(t) && t == (HttpV { cache_zones: a.cache_zones.push(z), ..a }),
                Err(_) => b is Err,
            }
            &&& d.name == "limit_req_zone"@ ==> match limit_req_zone_of(d.args, d.line) {
                Ok(z) => b matches Ok(t) && t == (HttpV {
                    limit_req_zones: a.limit_req_zones.push(z),
                    ..a
                }),
                Err(_) => b is Err,
            }
            &&& d.name == "limit_conn_zone"@ ==> match limit_conn_zone_of(d.args, d.line) {
                Ok(z) => b matches Ok(t) && t == (HttpV {
                    limit_conn_zones: a.limit_conn_zones.push(z),
                    ..a
                }),
                Err(_) => b is Err,
            }
            &&& d.name == "map"@ ==> match b {
                Ok(t) => d.block is Some && map_of(d.args, d.block->0, d.line) is Ok && t == (HttpV {
                    maps: a.maps.push(map_of(d.args, d.block->0, d.line)->Ok_0),
                    ..a
                }),
                Err(_) => d.block is None || map_of(d.args, d.block->0, d.line) is Err,
            }
            &&& d.name == "gzip"@ && given && x == "on"@ ==> (b matches Ok(t) && t == (HttpV {
                gzip: Some(true),
                ..a
            }))
            &&& d.name == "gzip"@ && given && x == "off"@ ==> (b matches Ok(t) && t == (HttpV {
                gzip: Some(false),
                ..a
            }))
            &&& d.name == "gzip_min_length"@ && given ==> match size_value(x) {
                Some(n) => b matches Ok(t) && t == (HttpV { gzip_min_length: Some(n), ..a }),
                None => b is Err,
            }
            &&& d.name == "client_max_body_size"@ && given ==> match size_value(x) {
                Some(n) => b matches Ok(t) && t == (HttpV { client_max_body_size: Some(n), ..a }),
                None => b is Err,
            }
            &&& d.name == "gzip_types"@ ==> b is Ok && {
                let t = b->Ok_0;
                &&& t == (HttpV { gzip_types: t.gzip_types, ..a })
                &&& t.gzip_types.len() == a.gzip_types.len() + d.args.len()
                &&& forall|k: int|
                    0 <= k < a.gzip_types.len() ==> t.gzip_types[k] == a.gzip_types[k]
                &&& forall|k: int|
                    0 <= k < d.args.len() ==> t.gzip_types[a.gzip_types.len() + k] == lowercase(
                        #[trigger] d.args[k],
                    )
            }
        }),
{
    lemma_http_words();
    lemma_http_push(h, ds, d);
}

/// Words that are accepted in `http` and change nothing.
pub open spec fn no_effect_in_http(name: Seq<char>) -> bool {
    ||| name == "include"@ || name == "error_log"@ || name == "sendfile"@ || name == "tcp_nopush"@
    ||| name == "tcp_nodelay"@ || name == "keepalive_timeout"@ || name == "types_hash_max_size"@
    ||| name == "types_hash_bucket_size"@ || name == "default_type"@ || name == "server_tokens"@
    ||| name == "log_format"@ || name == "types"@ || name == "map_hash_bucket_size"@
    ||| name == "map_hash_max_size"@ || name == "gzip_disable"@ || name == "gzip_comp_level"@
    ||| name == "gzip_proxied"@ || name == "gzip_vary"@ || name == "gzip_buffers"@
}

/// A misspelt directive refuses `http`, and a word without effect leaves it as it
/// is. Nothing is set in an empty block.
#[verifier::rlimit(50)]
pub proof fn law_http_words(h: HttpV, ds: Seq<DirectiveV>, d: DirectiveV)
    ensures
        no_effect_in_http(d.name) ==> http_steps(h, ds.push(d)) == http_steps(h, ds),
        http_steps(h, ds.push(d)) is Ok ==> no_effect_in_http(d.name) || d.name == "access_log"@
            || d.name == "upstream"@ || d.name == "server"@ || d.name == "proxy_cache_path"@
            || d.name == "limit_req_zone"@ || d.name == "limit_conn_zone"@ || d.name == "map"@
            || d.name == "gzip"@ || d.name == "gzip_types"@ || d.name == "gzip_min_length"@ || d.name
            == "client_max_body_size"@,
        http_of(seq![]) matches Ok(e) && e.servers.len() == 0 && e.upstreams.len() == 0
            && e.cache_zones.len() == 0 && e.limit_req_zones.len() == 0 && e.limit_conn_zones.len()
            == 0 && e.maps.len() == 0 && e.gzip is None && e.gzip_types.len() == 0
            && e.gzip_min_length is None && e.client_max_body_size is None && e.access_log is None,
{
    lemma_http_words();
    lemma_http_push(h, ds, d);
}

/// What a server of an `http` block has besides what it inherits is its own.
pub proof fn law_http_block_keeps_its_parts(ds: Seq<DirectiveV>, i: int)
    requires
        http_of(ds) is Ok,
        0 <= i < http_of(ds)->Ok_0.servers.len(),
    ensures
        http_steps(empty_http(), ds) is Ok,
        ({
            let h = http_steps(empty_http(), ds)->Ok_0;
            let t = http_of(ds)->Ok_0;
            let own = h.servers[i];
            let s = t.servers[i];
            &&& t.servers.len() == h.servers.len()
            &&& t == (HttpV { servers: t.servers, ..h })
            &&& s == (ServerV {
                gzip: s.gzip,
                gzip_types: s.gzip_types,
                gzip_min_length: s.gzip_min_length,
                client_max_body_size: s.client_max_body_size,
                ..own
            })
        }),
{
}

// ---------------------------------------------------------------------------
// Upstreams
// ---------------------------------------------------------------------------

proof fn lemma_upstream_push(u: UpstreamV, ds: Seq<DirectiveV>, d: DirectiveV)
    ensures
        upstream_steps(u, ds.push(d)) == (match upstream_steps(u, ds) {
            Ok(t) => upstream_step(t, d),
            Err(e) => Err(e),
        }),
    decreases ds.len(),
{
    let all = ds.push(d);
    assert(all[0] == if ds.len() == 0 {
        d
    } else {
        ds[0]
    });
    if ds.len() == 0 {
        assert(all.skip(1) =~= seq![]);
        if let Ok(t) = upstream_step(u, d) {
            assert(upstream_steps(t, all.skip(1)) == Ok::<UpstreamV, Seq<char>>(t));
        }
    } else {
        assert(all.skip(1) =~= ds.skip(1).push(d));
        if let Ok(t) = upstream_step(u, ds[0]) {
            lemma_upstream_push(t, ds.skip(1), d);
        }
    }
}

/// One directive more in an upstream adds a server, chooses the method, or asks for
/// probes. An upstream has servers, and takes turns unless it says otherwise.
pub proof fn law_upstream_directives(
    name: Seq<char>,
    u: UpstreamV,
    ds: Seq<DirectiveV>,
    d: DirectiveV,
    a: UpstreamV,
    line: usize,
)
    requires
        upstream_steps(u, ds) == Ok::<UpstreamV, Seq<char>>(a),
    ensures
        ({
            let b = upstream_steps(u, ds.push(d));
            &&& d.name == "server"@ ==> match upstream_server(d) {
                Ok(s) => b matches Ok(t) && t == (UpstreamV { servers: a.servers.push(s), ..a }),
                Err(_) => b is Err,
            }
            &&& d.name == "least_conn"@ ==> (b matches Ok(t) && t == (UpstreamV {
                method: LbMethod::LeastConn,
                ..a
            }))
            &&& d.name == "ip_hash"@ ==> (b matches Ok(t) && t == (UpstreamV {
                method: LbMethod::IpHash,
                ..a
            }))
            &&& d.name == "hash"@ || d.name == "keepalive"@ || d.name == "zone"@ ==> (b matches Ok(t)
                && t == a)
            &&& d.name == "health_check"@ ==> match probe_args(
                HealthCheckCfgV {
                    uri: "/"@,
                    interval: Duration { secs: 5, nanos: 0 },
                    timeout: Duration { secs: 2, nanos: 0 },
                    fails: 2,
                    passes: 2,
                    expected_status: 200,
                },
                d.args,
                d.line,
            ) {
                Ok(h) => b matches Ok(t) && t == (UpstreamV { health_check: Some(h), ..a }),
                Err(_) => b is Err,
            }
            &&& d.name != "server"@ && d.name != "least_conn"@ && d.name != "ip_hash"@ && d.name
                != "hash"@ && d.name != "keepalive"@ && d.name != "zone"@ && d.name
                != "health_check"@ ==> b is Err
        }),
        upstream_of(name, seq![], line) is Err,
        upstream_of(name, ds, line) is Err ==> (upstream_steps(
            UpstreamV {
                name,
                method: LbMethod::RoundRobin,
                servers: seq![],
                health_check: None,
            },
            ds,
        ) matches Ok(t) ==> t.servers.len() == 0),
        upstream_of(name, ds, line) matches Ok(t) ==> t.servers.len() > 0 && exists|start: UpstreamV|
            #![trigger upstream_steps(start, ds)]
            start.name == name && start.method is RoundRobin && start.servers.len() == 0
                && start.health_check is None && upstream_steps(start, ds) == Ok::<
                UpstreamV,
                Seq<char>,
            >(t),
{
    lemma_upstream_words();
    lemma_upstream_push(u, ds, d);
    assert(upstream_steps(empty_upstream(name), seq![]) == Ok::<UpstreamV, Seq<char>>(
        empty_upstream(name),
    ));
    if let Ok(t) = upstream_of(name, ds, line) {
        assert(upstream_steps(empty_upstream(name), ds) == Ok::<UpstreamV, Seq<char>>(t));
    }
}

proof fn lemma_flags_push(s: UpstreamServerV, args: Seq<Seq<char>>, a: Seq<char>, line: usize)
    ensures
        server_flags(s, args.push(a), line) == (match server_flags(s, args, line) {
            Ok(t) => server_flag(t, a, line),
            Err(e) => Err(e),
        }),
    decreases args.len(),
{
    let all = args.push(a);
    assert(all[0] == if args.len() == 0 {
        a
    } else {
        args[0]
    });
    if args.len() == 0 {
        assert(all.skip(1) =~= seq![]);
        if let Ok(t) = server_flag(s, a, line) {
            assert(server_flags(t, all.skip(1), line) == Ok::<UpstreamServerV, Seq<char>>(t));
        }
    } else {
        assert(all.skip(1) =~= args.skip(1).push(a));
        if let Ok(t) = server_flag(s, args[0], line) {
            lemma_flags_push(t, args.skip(1), a, line);
        }
    }
}

proof fn lemma_other_prefix(p: Seq<char>, t: Seq<char>, q: Seq<char>, i: int)
    requires
        0 <= i < p.len(),
        i < q.len(),
        p[i] != q[i],
    ensures
        after_prefix(p + t, q) is None,
        after_prefix(p + t, p) == Some(t),
{
    assert((p + t)[i] == p[i]);
    if q.is_prefix_of(p + t) {
        assert((p + t).take(q.len() as int)[i] == q[i]);
    }
    assert((p + t).take(p.len() as int) =~= p);
    assert((p + t).skip(p.len() as int) =~= t);
}

/// A server without flags weighs 1, is taken out by one failure for ten seconds, and
/// is neither a backup nor down.
pub proof fn law_server_line_without_flags(d: DirectiveV)
    requires
        d.args.len() == 1,
    ensures
        upstream_server(d) matches Ok(s) && s.addr == d.args[0] && s.weight == 1 && s.max_fails == 1
            && s.fail_timeout.secs == 10 && s.fail_timeout.nanos == 0 && !s.backup && !s.down,
{
    assert(d.args.skip(1) =~= seq![]);
}

/// One flag more behind an upstream server sets the one thing that it is about.
#[verifier::rlimit(50)]
pub proof fn law_server_flags(d: DirectiveV, flag: Seq<char>, v: Seq<char>, a: UpstreamServerV)
    requires
        d.args.len() > 0,
        upstream_server(d) == Ok::<UpstreamServerV, Seq<char>>(a),
    ensures
        ({
            let more = |f: Seq<char>| upstream_server(DirectiveV { args: d.args.push(f), ..d });
            &&& match number(v, 0xffff_ffff) {
                Some(n) => more("weight="@ + v) == Ok::<_, Seq<char>>(
                    UpstreamServerV { weight: n as u32, ..a },
                ) && more("max_fails="@ + v) == Ok::<_, Seq<char>>(
                    UpstreamServerV { max_fails: n as u32, ..a },
                ),
                None => more("weight="@ + v) is Err && more("max_fails="@ + v) is Err,
            }
            &&& match duration_of(v) {
                Some(t) => more("fail_timeout="@ + v) == Ok::<_, Seq<char>>(
                    UpstreamServerV { fail_timeout: t, ..a },
                ),
                None => more("fail_timeout="@ + v) is Err,
            }
            &&& more("backup"@) == Ok::<_, Seq<char>>(UpstreamServerV { backup: true, ..a })
            &&& more("down"@) == Ok::<_, Seq<char>>(UpstreamServerV { down: true, ..a })
            &&& !starts(flag, "weight="@) && !starts(flag, "max_fails="@) && !starts(
                flag,
                "fail_timeout="@,
            ) && flag != "backup"@ && flag != "down"@ ==> more(flag) == Ok::<_, Seq<char>>(a)
        }),
{
    reveal_strlit("weight=");
    reveal_strlit("max_fails=");
    reveal_strlit("fail_timeout=");
    reveal_strlit("backup");
    reveal_strlit("down");
    let args = d.args.skip(1);
    let first = d.args[0];
    assert forall|f: Seq<char>| (#[trigger] d.args.push(f)).skip(1) == args.push(f) && d.args.push(
        f,
    )[0] == first by {
        assert(d.args.push(f).skip(1) =~= args.push(f));
    }
    let s = crate::config::ast::plain_server(first);
    let flags = seq![
        "weight="@ + v,
        "max_fails="@ + v,
        "fail_timeout="@ + v,
        "backup"@,
        "down"@,
        flag,
    ];
    assert forall|k: int| 0 <= k < flags.len() implies server_flags(
        s,
        args.push(#[trigger] flags[k]),
        d.line,
    ) == server_flag(a, flags[k], d.line) by {
        lemma_flags_push(s, args, flags[k], d.line);
    }
    assert("weight="@[0] == 'w' && "max_fails="@[0] == 'm' && "fail_timeout="@[0] == 'f');
    assert("backup"@[0] == 'b' && "down"@[0] == 'd');
    assert("backup"@.len() == 6 && "down"@.len() == 4);
    lemma_other_prefix("weight="@, v, "max_fails="@, 0);
    lemma_other_prefix("max_fails="@, v, "weight="@, 0);
    lemma_other_prefix("fail_timeout="@, v, "weight="@, 0);
    lemma_other_prefix("fail_timeout="@, v, "max_fails="@, 0);
    assert("backup"@ + Seq::<char>::empty() =~= "backup"@);
    assert("down"@ + Seq::<char>::empty() =~= "down"@);
    lemma_other_prefix("backup"@, seq![], "weight="@, 0);
    lemma_other_prefix("backup"@, seq![], "max_fails="@, 0);
    lemma_other_prefix("backup"@, seq![], "fail_timeout="@, 0);
    lemma_other_prefix("down"@, seq![], "weight="@, 0);
    lemma_other_prefix("down"@, seq![], "max_fails="@, 0);
    lemma_other_prefix("down"@, seq![], "fail_timeout="@, 0);
    law_prefix_goes_off(flag, "weight="@);
    law_prefix_goes_off(flag, "max_fails="@);
    law_prefix_goes_off(flag, "fail_timeout="@);
    assert(flags[0] == "weight="@ + v && flags[1] == "max_fails="@ + v && flags[2]
        == "fail_timeout="@ + v && flags[3] == "backup"@ && flags[4] == "down"@ && flags[5] == flag);
}

proof fn lemma_probe_push(h: HealthCheckCfgV, args: Seq<Seq<char>>, a: Seq<char>, line: usize)
    ensures
        probe_args(h, args.push(a), line) == (match probe_args(h, args, line) {
            Ok(t) => probe_arg(t, a, line),
            Err(e) => Err(e),
        }),
    decreases args.len(),
{
    let all = args.push(a);
    assert(all[0] == if args.len() == 0 {
        a
    } else {
        args[0]
    });
    if args.len() == 0 {
        assert(all.skip(1) =~= seq![]);
        if let Ok(t) = probe_arg(h, a, line) {
            assert(probe_args(t, all.skip(1), line) == Ok::<HealthCheckCfgV, Seq<char>>(t));
        }
    } else {
        assert(all.skip(1) =~= args.skip(1).push(a));
        if let Ok(t) = probe_arg(h, args[0], line) {
            lemma_probe_push(t, args.skip(1), a, line);
        }
    }
}

/// One argument more of `health_check` sets the one thing that it is about.
#[verifier::rlimit(50)]
pub proof fn law_probe_arguments(
    h: HealthCheckCfgV,
    args: Seq<Seq<char>>,
    v: Seq<char>,
    line: usize,
    a: HealthCheckCfgV,
)
    requires
        probe_args(h, args, line) == Ok::<HealthCheckCfgV, Seq<char>>(a),
    ensures
        probe_args(h, args.push("uri="@ + v), line) == Ok::<_, Seq<char>>(
            HealthCheckCfgV { uri: v, ..a },
        ),
        match duration_of(v) {
            Some(t) => probe_args(h, args.push("interval="@ + v), line) == Ok::<_, Seq<char>>(
                HealthCheckCfgV { interval: t, ..a },
            ) && probe_args(h, args.push("timeout="@ + v), line) == Ok::<_, Seq<char>>(
                HealthCheckCfgV { timeout: t, ..a },
            ),
            None => probe_args(h, args.push("interval="@ + v), line) is Err && probe_args(
                h,
                args.push("timeout="@ + v),
                line,
            ) is Err,
        },
        match number(v, 0xffff_ffff) {
            Some(n) => probe_args(h, args.push("fails="@ + v), line) == Ok::<_, Seq<char>>(
                HealthCheckCfgV { fails: n as u32, ..a },
            ) && probe_args(h, args.push("passes="@ + v), line) == Ok::<_, Seq<char>>(
                HealthCheckCfgV { passes: n as u32, ..a },
            ),
            None => probe_args(h, args.push("fails="@ + v), line) is Err && probe_args(
                h,
                args.push("passes="@ + v),
                line,
            ) is Err,
        },
        match number(v, 65535) {
            Some(n) => probe_args(h, args.push("match="@ + v), line) == Ok::<_, Seq<char>>(
                HealthCheckCfgV { expected_status: n as u16, ..a },
            ),
            None => probe_args(h, args.push("match="@ + v), line) is Err,
        },
{
    reveal_strlit("uri=");
    reveal_strlit("interval=");
    reveal_strlit("timeout=");
    reveal_strlit("fails=");
    reveal_strlit("passes=");
    reveal_strlit("match=");
    assert("uri="@[0] == 'u' && "interval="@[0] == 'i' && "timeout="@[0] == 't' && "fails="@[0]
        == 'f' && "passes="@[0] == 'p' && "match="@[0] == 'm');
    lemma_probe_push(h, args, "uri="@ + v, line);
    lemma_probe_push(h, args, "interval="@ + v, line);
    lemma_probe_push(h, args, "timeout="@ + v, line);
    lemma_probe_push(h, args, "fails="@ + v, line);
    lemma_probe_push(h, args, "passes="@ + v, line);
    lemma_probe_push(h, args, "match="@ + v, line);
    lemma_other_prefix("uri="@, v, "interval="@, 0);
    lemma_other_prefix("interval="@, v, "uri="@, 0);
    lemma_other_prefix("timeout="@, v, "uri="@, 0);
    lemma_other_prefix("timeout="@, v, "interval="@, 0);
    lemma_other_prefix("fails="@, v, "uri="@, 0);
    lemma_other_prefix("fails="@, v, "interval="@, 0);
    lemma_other_prefix("fails="@, v, "timeout="@, 0);
    lemma_other_prefix("passes="@, v, "uri="@, 0);
    lemma_other_prefix("passes="@, v, "interval="@, 0);
    lemma_other_prefix("passes="@, v, "timeout="@, 0);
    lemma_other_prefix("passes="@, v, "fails="@, 0);
    lemma_other_prefix("match="@, v, "uri="@, 0);
    lemma_other_prefix("match="@, v, "interval="@, 0);
    lemma_other_prefix("match="@, v, "timeout="@, 0);
    lemma_other_prefix("match="@, v, "fails="@, 0);
    lemma_other_prefix("match="@, v, "passes="@, 0);
}

/// `health_check` alone asks for `/` every five seconds, waits two, wants a 200, and
/// believes two failures or two successes.
pub proof fn law_probes_by_default(u: UpstreamV, d: DirectiveV, line: usize)
    requires
        d.name == "health_check"@,
        d.args.len() == 0,
    ensures
        upstream_step(u, d) matches Ok(t) && (t.health_check matches Some(h) && h.uri == seq!['/']
            && h.interval.secs == 5 && h.interval.nanos == 0 && h.timeout.secs == 2
            && h.timeout.nanos == 0 && h.fails == 2 && h.passes == 2 && h.expected_status == 200),
{
    lemma_upstream_words();
    reveal_strlit("/");
    assert("/"@ =~= seq!['/']);
}

// ---------------------------------------------------------------------------
// stream and main
// ---------------------------------------------------------------------------

proof fn lemma_stream_server_push(s: StreamServerV, ds: Seq<DirectiveV>, d: DirectiveV)
    ensures
        stream_server_steps(s, ds.push(d)) == (match stream_server_steps(s, ds) {
            Ok(t) => stream_server_step(t, d),
            Err(e) => Err(e),
        }),
    decreases ds.len(),
{
    let all = ds.push(d);
    assert(all[0] == if ds.len() == 0 {
        d
    } else {
        ds[0]
    });
    if ds.len() == 0 {
        assert(all.skip(1) =~= seq![]);
        if let Ok(t) = stream_server_step(s, d) {
            assert(stream_server_steps(t, all.skip(1)) == Ok::<StreamServerV, Seq<char>>(t));
        }
    } else {
        assert(all.skip(1) =~= ds.skip(1).push(d));
        if let Ok(t) = stream_server_step(s, ds[0]) {
            lemma_stream_server_push(t, ds.skip(1), d);
        }
    }
}

/// One directive more in a stream server: `listen` sets the address and takes neither
/// TLS nor UDP, `proxy_pass` sets the target, and four words change nothing.
pub proof fn law_stream_server_directives(
    s: StreamServerV,
    ds: Seq<DirectiveV>,
    d: DirectiveV,
    a: StreamServerV,
)
    requires
        stream_server_steps(s, ds) == Ok::<StreamServerV, Seq<char>>(a),
    ensures
        ({
            let b = stream_server_steps(s, ds.push(d));
            &&& d.name == "listen"@ ==> if d.args.len() == 0 || has_word(d, "ssl"@) || has_word(
                d,
                "udp"@,
            ) || listen_of(d.args[0], d.line) is Err {
                b is Err
            } else {
                b matches Ok(t) && t == (StreamServerV {
                    listen: Some(listen_of(d.args[0], d.line)->Ok_0),
                    ..a
                })
            }
            &&& d.name == "proxy_pass"@ && d.args.len() > 0 ==> (b matches Ok(t) && t == (
            StreamServerV { proxy_pass: Some(d.args[0]), ..a }))
            &&& d.name == "include"@ || d.name == "proxy_timeout"@ || d.name
                == "proxy_connect_timeout"@ || d.name == "tcp_nodelay"@ ==> (b matches Ok(t) && t
                == a)
            &&& b is Ok ==> d.name == "listen"@ || d.name == "proxy_pass"@ || d.name == "include"@
                || d.name == "proxy_timeout"@ || d.name == "proxy_connect_timeout"@ || d.name
                == "tcp_nodelay"@
        }),
        stream_server_of(ds) matches Ok(t) ==> t.listen is Some && t.proxy_pass is Some
            && stream_server_steps(
            StreamServerV { listen: None, proxy_pass: None, udp: false },
            ds,
        ) == Ok::<StreamServerV, Seq<char>>(t),
        stream_server_of(ds) is Err ==> (stream_server_steps(
            StreamServerV { listen: None, proxy_pass: None, udp: false },
            ds,
        ) matches Ok(t) ==> t.listen is None || t.proxy_pass is None),
{
    lemma_stream_words();
    lemma_stream_server_push(s, ds, d);
    lemma_has_word(d, "ssl"@);
    lemma_has_word(d, "udp"@);
}

proof fn lemma_stream_push(s: StreamV, ds: Seq<DirectiveV>, d: DirectiveV)
    ensures
        stream_steps(s, ds.push(d)) == (match stream_steps(s, ds) {
            Ok(t) => stream_step(t, d),
            Err(e) => Err(e),
        }),
    decreases ds.len(),
{
    let all = ds.push(d);
    assert(all[0] == if ds.len() == 0 {
        d
    } else {
        ds[0]
    });
    if ds.len() == 0 {
        assert(all.skip(1) =~= seq![]);
        if let Ok(t) = stream_step(s, d) {
            assert(stream_steps(t, all.skip(1)) == Ok::<StreamV, Seq<char>>(t));
        }
    } else {
        assert(all.skip(1) =~= ds.skip(1).push(d));
        if let Ok(t) = stream_step(s, ds[0]) {
            lemma_stream_push(t, ds.skip(1), d);
        }
    }
}

/// One directive more in `stream` adds an upstream or a server, or changes nothing.
pub proof fn law_stream_directives(s: StreamV, ds: Seq<DirectiveV>, d: DirectiveV, a: StreamV)
    requires
        stream_steps(s, ds) == Ok::<StreamV, Seq<char>>(a),
    ensures
        ({
            let b = stream_steps(s, ds.push(d));
            &&& d.name == "upstream"@ ==> match b {
                Ok(t) => d.args.len() > 0 && d.block is Some && upstream_of(
                    d.args[0],
                    d.block->0,
                    d.line,
                ) is Ok && t == (StreamV {
                    upstreams: a.upstreams.push(upstream_of(d.args[0], d.block->0, d.line)->Ok_0),
                    ..a
                }),
                Err(_) => d.args.len() == 0 || d.block is None || upstream_of(
                    d.args[0],
                    d.block->0,
                    d.line,
                ) is Err,
            }
            &&& d.name == "server"@ ==> match b {
                Ok(t) => d.block is Some && stream_server_of(d.block->0) is Ok && t == (StreamV {
                    servers: a.servers.push(stream_server_of(d.block->0)->Ok_0),
                    ..a
                }),
                Err(_) => d.block is None || stream_server_of(d.block->0) is Err,
            }
            &&& d.name == "include"@ || d.name == "access_log"@ || d.name == "error_log"@ || d.name
                == "log_format"@ || d.name == "proxy_timeout"@ || d.name == "proxy_connect_timeout"@
                || d.name == "tcp_nodelay"@ || d.name == "resolver"@ ==> (b matches Ok(t) && t == a)
            &&& b is Ok ==> d.name == "upstream"@ || d.name == "server"@ || d.name == "include"@
                || d.name == "access_log"@ || d.name == "error_log"@ || d.name == "log_format"@
                || d.name == "proxy_timeout"@ || d.name == "proxy_connect_timeout"@ || d.name
                == "tcp_nodelay"@ || d.name == "resolver"@
        }),
{
    lemma_stream_words();
    lemma_stream_push(s, ds, d);
}

proof fn lemma_main_push(c: ConfigV, ds: Seq<DirectiveV>, d: DirectiveV)
    ensures
        main_steps(c, ds.push(d)) == (match main_steps(c, ds) {
            Ok(t) => main_step(t, d),
            Err(e) => Err(e),
        }),
    decreases ds.len(),
{
    let all = ds.push(d);
    assert(all[0] == if ds.len() == 0 {
        d
    } else {
        ds[0]
    });
    if ds.len() == 0 {
        assert(all.skip(1) =~= seq![]);
        if let Ok(t) = main_step(c, d) {
            assert(main_steps(t, all.skip(1)) == Ok::<ConfigV, Seq<char>>(t));
        }
    } else {
        assert(all.skip(1) =~= ds.skip(1).push(d));
        if let Ok(t) = main_step(c, ds[0]) {
            lemma_main_push(t, ds.skip(1), d);
        }
    }
}

/// One directive more at the top level sets the one thing that it is about.
#[verifier::rlimit(50)]
pub proof fn law_main_directives(ds: Seq<DirectiveV>, d: DirectiveV, a: ConfigV)
    requires
        config_of(ds) == Ok::<ConfigV, Seq<char>>(a),
    ensures
        ({
            let b = config_of(ds.push(d));
            let given = d.args.len() > 0;
            let x = d.args[0];
            &&& d.name == "worker_processes"@ && given ==> (b matches Ok(t) && t == (ConfigV {
                worker_processes: Some(x),
                ..a
            }))
            &&& d.name == "pid"@ && given ==> (b matches Ok(t) && t == (ConfigV {
                pid: Some(x),
                ..a
            }))
            &&& d.name == "error_log"@ && given ==> (b matches Ok(t) && t == (ConfigV {
                error_log: Some(x),
                ..a
            }))
            &&& d.name == "user"@ && given ==> (b matches Ok(t) && t == (ConfigV {
                user: Some(x),
                group: if d.args.len() > 1 {
                    Some(d.args[1])
                } else {
                    None
                },
                ..a
            }))
            &&& d.name == "worker_rlimit_nofile"@ && given ==> match number(
                x,
                0xffff_ffff_ffff_ffff,
            ) {
                Some(n) => b matches Ok(t) && t == (ConfigV {
                    worker_rlimit_nofile: Some(n as u64),
                    ..a
                }),
                None => b is Err,
            }
            &&& d.name == "http"@ ==> match b {
                Ok(t) => d.block is Some && http_of(d.block->0) is Ok && t == (ConfigV {
                    http: Some(http_of(d.block->0)->Ok_0),
                    ..a
                }),
                Err(_) => d.block is None || http_of(d.block->0) is Err,
            }
            &&& d.name == "stream"@ ==> match b {
                Ok(t) => d.block is Some && ({
                    let s = stream_steps(StreamV { upstreams: seq![], servers: seq![] }, d.block->0);
                    s is Ok && t == (ConfigV { stream: Some(s->Ok_0), ..a })
                }),
                Err(_) => d.block is None || stream_steps(
                    StreamV { upstreams: seq![], servers: seq![] },
                    d.block->0,
                ) is Err,
            }
            &&& d.name == "events"@ || d.name == "include"@ || d.name == "load_module"@ || d.name
                == "daemon"@ || d.name == "master_process"@ || d.name == "worker_shutdown_timeout"@
                ==> (b matches Ok(t) && t == a)
            &&& b is Ok ==> d.name == "worker_processes"@ || d.name == "pid"@ || d.name
                == "error_log"@ || d.name == "user"@ || d.name == "worker_rlimit_nofile"@ || d.name
                == "http"@ || d.name == "stream"@ || d.name == "events"@ || d.name == "include"@
                || d.name == "load_module"@ || d.name == "daemon"@ || d.name == "master_process"@
                || d.name == "worker_shutdown_timeout"@
        }),
        config_of(seq![]) matches Ok(e) && e.http is None && e.stream is None && e.user is None
            && e.group is None && e.pid is None && e.error_log is None && e.worker_processes is None
            && e.worker_rlimit_nofile is None,
{
    lemma_main_words();
    lemma_main_push(empty_config(), ds, d);
}

} // verus!
