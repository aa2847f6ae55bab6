//! What holds of every configuration that is accepted, and what is never
//! accepted.

use super::ast::{
    ConfigV, empty_config, empty_http, empty_server, empty_stream, HttpV, ServerV, StreamServerV,
    StreamV, UpstreamV,
};
use super::context::{
    cascaded, config_of, http_of, http_step, http_steps, ignored_in_http, ignored_in_main,
    ignored_in_server, ignored_in_stream, main_step, main_steps, server_of, server_step,
    server_steps, stream_server_step, stream_server_steps, stream_step, stream_steps,
};
use super::location::{
    DraftV, ignored_in_location, is_content, location_step, location_steps, takes_text,
};

use super::parser::DirectiveV;
use vstd::prelude::*;

verus! {

// ---------------------------------------------------------------------------
// Accepted configurations are complete
// ---------------------------------------------------------------------------

/// A server that can be started: it listens somewhere, and with TLS it has a
/// certificate and a key. HTTP/3 comes only with TLS.
pub open spec fn server_complete(s: ServerV) -> bool {
    &&& s.listen is Some
    &&& s.tls ==> s.ssl_certificate is Some && s.ssl_certificate_key is Some
    &&& s.http3 ==> s.tls
}

/// A stream server that can be started.
pub open spec fn stream_server_complete(s: StreamServerV) -> bool {
    s.listen is Some && s.proxy_pass is Some && !s.udp
}

/// An upstream that has at least one server.
pub open spec fn upstream_complete(u: UpstreamV) -> bool {
    u.servers.len() > 0
}

pub open spec fn http_complete(h: HttpV) -> bool {
    &&& forall|i: int| 0 <= i < h.servers.len() ==> server_complete(#[trigger] h.servers[i])
    &&& forall|i: int| 0 <= i < h.upstreams.len() ==> upstream_complete(#[trigger] h.upstreams[i])
}

pub open spec fn stream_complete(s: StreamV) -> bool {
    &&& forall|i: int| 0 <= i < s.servers.len() ==> stream_server_complete(#[trigger] s.servers[i])
    &&& forall|i: int| 0 <= i < s.upstreams.len() ==> upstream_complete(#[trigger] s.upstreams[i])
}

/// A configuration in which nothing that is needed to start is missing.
pub open spec fn config_complete(c: ConfigV) -> bool {
    &&& c.http matches Some(h) ==> http_complete(h)
    &&& c.stream matches Some(s) ==> stream_complete(s)
}

proof fn lemma_server_http3(s: ServerV, ds: Seq<DirectiveV>)
    requires
        s.http3 ==> s.tls,
    ensures
        server_steps(s, ds) matches Ok(t) ==> (t.http3 ==> t.tls),
    decreases ds.len(),
{
    if ds.len() > 0 {
        if let Ok(t) = server_step(s, ds[0]) {
            lemma_server_http3(t, ds.skip(1));
        }
    }
}

proof fn lemma_server(ds: Seq<DirectiveV>)
    ensures
        server_of(ds) matches Ok(s) ==> server_complete(s),
{
    if let Ok(root) = super::context::root_of(None, ds) {
        lemma_server_http3(ServerV { root, ..empty_server() }, ds);
    }
}

proof fn lemma_http(h: HttpV, ds: Seq<DirectiveV>)
    requires
        http_complete(h),
    ensures
        http_steps(h, ds) matches Ok(t) ==> http_complete(t),
    decreases ds.len(),
{
    if ds.len() > 0 {
        let d = ds[0];
        if let Some(b) = d.block {
            lemma_server(b);
        }
        if let Ok(t) = http_step(h, d) {
            lemma_http(t, ds.skip(1));
        }
    }
}

proof fn lemma_cascaded(h: HttpV)
    requires
        http_complete(h),
    ensures
        http_complete(cascaded(h)),
{
    let t = cascaded(h);
    assert forall|i: int| 0 <= i < t.servers.len() implies server_complete(
        #[trigger] t.servers[i],
    ) by {
        assert(server_complete(h.servers[i]));
    }
}

/// What `http` sets applies to every server that does not set it itself, and to
/// no other.
pub proof fn law_http_settings_cascade(ds: Seq<DirectiveV>, i: int)
    requires
        http_of(ds) is Ok,
        0 <= i < http_of(ds)->Ok_0.servers.len(),
    ensures
        ({
            let h = http_steps(empty_http(), ds)->Ok_0;
            let own = h.servers[i];
            let s = http_of(ds)->Ok_0.servers[i];
            &&& s.client_max_body_size == if own.client_max_body_size is Some {
                own.client_max_body_size
            } else {
                h.client_max_body_size
            }
            &&& s.gzip == if own.gzip is Some {
                own.gzip
            } else {
                h.gzip
            }
            &&& s.gzip_min_length == if own.gzip_min_length is Some {
                own.gzip_min_length
            } else {
                h.gzip_min_length
            }
            &&& s.gzip_types == if own.gzip_types.len() > 0 {
                own.gzip_types
            } else {
                h.gzip_types
            }
            &&& s.listen == own.listen && s.locations == own.locations
        }),
{
}

proof fn lemma_stream_server(s: StreamServerV, ds: Seq<DirectiveV>)
    requires
        !s.udp,
    ensures
        stream_server_steps(s, ds) matches Ok(t) ==> !t.udp,
    decreases ds.len(),
{
    if ds.len() > 0 {
        if let Ok(t) = stream_server_step(s, ds[0]) {
            lemma_stream_server(t, ds.skip(1));
        }
    }
}

proof fn lemma_stream(s: StreamV, ds: Seq<DirectiveV>)
    requires
        stream_complete(s),
    ensures
        stream_steps(s, ds) matches Ok(t) ==> stream_complete(t),
    decreases ds.len(),
{
    if ds.len() > 0 {
        let d = ds[0];
        if let Some(b) = d.block {
            lemma_stream_server(super::ast::empty_stream_server(), b);
        }
        if let Ok(t) = stream_step(s, d) {
            lemma_stream(t, ds.skip(1));
        }
    }
}

proof fn lemma_main(c: ConfigV, ds: Seq<DirectiveV>)
    requires
        config_complete(c),
    ensures
        main_steps(c, ds) matches Ok(t) ==> config_complete(t),
    decreases ds.len(),
{
    if ds.len() > 0 {
        let d = ds[0];
        if let Some(b) = d.block {
            lemma_http(empty_http(), b);
            if let Ok(h) = http_steps(empty_http(), b) {
                lemma_cascaded(h);
            }
            lemma_stream(empty_stream(), b);
        }
        if let Ok(t) = main_step(c, d) {
            lemma_main(t, ds.skip(1));
        }
    }
}

/// An accepted configuration is complete: every server listens somewhere, a TLS
/// server has a certificate and a key (it is never silently downgraded), every
/// upstream has a server, and every stream server proxies somewhere over TCP.
pub proof fn law_accepted_config_is_complete(ds: Seq<DirectiveV>)
    ensures
        config_of(ds) matches Ok(c) ==> config_complete(c),
{
    lemma_main(empty_config(), ds);
}

// ---------------------------------------------------------------------------
// Unknown directives
// ---------------------------------------------------------------------------

pub open spec fn known_in_main(name: Seq<char>) -> bool {
    ||| name == "worker_processes"@ || name == "pid"@ || name == "error_log"@ || name == "user"@
    ||| name == "worker_rlimit_nofile"@ || name == "http"@ || name == "stream"@
    ||| ignored_in_main(name)
}

pub open spec fn known_in_http(name: Seq<char>) -> bool {
    ||| name == "access_log"@ || name == "upstream"@ || name == "server"@
    ||| name == "proxy_cache_path"@ || name == "limit_req_zone"@ || name == "limit_conn_zone"@
    ||| name == "map"@ || name == "gzip"@ || name == "gzip_types"@ || name == "gzip_min_length"@
    ||| name == "client_max_body_size"@
    ||| ignored_in_http(name)
}

pub open spec fn known_in_server(name: Seq<char>) -> bool {
    ||| name == "listen"@ || name == "server_name"@ || name == "ssl_certificate"@
    ||| name == "ssl_certificate_key"@ || name == "ssl_protocols"@ || name == "gzip"@
    ||| name == "gzip_types"@ || name == "gzip_min_length"@ || name == "client_max_body_size"@
    ||| name == "add_header"@ || name == "location"@ || ignored_in_server(name)
}

pub open spec fn known_in_location(name: Seq<char>) -> bool {
    ||| is_content(name) || takes_text(name) || name == "expires"@
    ||| name == "proxy_connect_timeout"@ || name == "proxy_read_timeout"@ || name == "gzip"@
    ||| name == "autoindex"@ || name == "proxy_ssl_verify"@ || name == "proxy_cache_valid"@
    ||| name == "limit_req"@ || name == "limit_conn"@ || name == "try_files"@
    ||| ignored_in_location(name)
}

pub open spec fn known_in_stream(name: Seq<char>) -> bool {
    name == "upstream"@ || name == "server"@ || ignored_in_stream(name)
}

/// A directive that is not known at the top level refuses the configuration,
/// wherever it stands.
pub proof fn law_unknown_in_main_is_refused(c: ConfigV, ds: Seq<DirectiveV>, i: int)
    requires
        0 <= i < ds.len(),
        !known_in_main(ds[i].name),
    ensures
        main_steps(c, ds) is Err,
    decreases ds.len(),
{
    if i > 0 {
        if let Ok(t) = main_step(c, ds[0]) {
            assert(ds.skip(1)[i - 1] == ds[i]);
            law_unknown_in_main_is_refused(t, ds.skip(1), i - 1);
        }
    }
}

/// A directive that is not known in `http` refuses the block.
pub proof fn law_unknown_in_http_is_refused(h: HttpV, ds: Seq<DirectiveV>, i: int)
    requires
        0 <= i < ds.len(),
        !known_in_http(ds[i].name),
    ensures
        http_steps(h, ds) is Err,
    decreases ds.len(),
{
    if i > 0 {
        if let Ok(t) = http_step(h, ds[0]) {
            assert(ds.skip(1)[i - 1] == ds[i]);
            law_unknown_in_http_is_refused(t, ds.skip(1), i - 1);
        }
    }
}

/// A directive that is not known in a server refuses the block.
pub proof fn law_unknown_in_server_is_refused(s: ServerV, ds: Seq<DirectiveV>, i: int)
    requires
        0 <= i < ds.len(),
        !known_in_server(ds[i].name),
    ensures
        server_steps(s, ds) is Err,
    decreases ds.len(),
{
    if i > 0 {
        if let Ok(t) = server_step(s, ds[0]) {
            assert(ds.skip(1)[i - 1] == ds[i]);
            law_unknown_in_server_is_refused(t, ds.skip(1), i - 1);
        }
    }
}

/// A directive that is not known in a location refuses the block.
pub proof fn law_unknown_in_location_is_refused(
    l: DraftV,
    ds: Seq<DirectiveV>,
    path: Seq<char>,
    i: int,
)
    requires
        0 <= i < ds.len(),
        !known_in_location(ds[i].name),
    ensures
        location_steps(l, ds, path) is Err,
    decreases ds.len(),
{
    if i > 0 {
        if let Ok(t) = location_step(l, ds[0], path) {
            assert(ds.skip(1)[i - 1] == ds[i]);
            law_unknown_in_location_is_refused(t, ds.skip(1), path, i - 1);
        }
    }
}

/// A directive that is not known in `stream` refuses the block.
pub proof fn law_unknown_in_stream_is_refused(s: StreamV, ds: Seq<DirectiveV>, i: int)
    requires
        0 <= i < ds.len(),
        !known_in_stream(ds[i].name),
    ensures
        stream_steps(s, ds) is Err,
    decreases ds.len(),
{
    if i > 0 {
        if let Ok(t) = stream_step(s, ds[0]) {
            assert(ds.skip(1)[i - 1] == ds[i]);
            law_unknown_in_stream_is_refused(t, ds.skip(1), i - 1);
        }
    }
}

} // verus!
