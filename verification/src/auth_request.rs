//! `auth_request` — delegate authorization to an HTTP service.
//!
//! The directive value is a template; once rendered, it is treated as an
//! absolute URL the subrequest will `GET`. Common client headers
//! (`Authorization`, `Cookie`) are forwarded; we add `X-Original-URI` and
//! `X-Original-Method` so the auth service knows what the user tried to
//! do.
//!
//! A `2xx` response lets the original request proceed. Anything else is
//! returned to the client as-is (preserving the status), except that the
//! body is replaced with a short marker so we don't leak the auth
//! service's internal response.

use crate::body::{Response, ResponseV, text, text_response, valid_status};
use crate::headers::{add_value, header_map, header_names, is_header_value, valid_value, with_added};
use crate::request_ctx::RequestCtx;
use crate::subrequest::{headers_on_behalf, on_behalf};
use crate::template::{rendered, SegmentV, Template};
use crate::text::{decimal, push_decimal, trim, trimmed};
use vstd::prelude::*;
use vstd::string::*;
use vstd::utf8::encode_utf8;

verus! {

/// How long to wait on the auth subrequest before treating it as a hard
/// failure, in seconds. Keep this short — the user is staring at a loading
/// spinner.
pub const AUTH_REQUEST_TIMEOUT_SECS: u64 = 5;

/// A `GET` to the authorization service.
#[derive(Debug)]
pub struct Subrequest {
    pub url: String,
    pub headers: hyper::HeaderMap,
}

/// Model of a [`Subrequest`].
pub struct SubrequestV {
    pub url: Seq<char>,
    pub headers: Map<Seq<char>, Seq<Seq<u8>>>,
}

impl View for Subrequest {
    type V = SubrequestV;

    open spec fn view(&self) -> SubrequestV {
        SubrequestV { url: self.url@, headers: header_map(self.headers) }
    }
}

/// A value where it is well-formed, else an empty one.
pub open spec fn or_blank(v: Seq<u8>) -> Seq<u8> {
    if is_header_value(v) {
        v
    } else {
        seq![]
    }
}

/// The headers that tell the service who asks for what.
pub open spec fn asking_headers(
    client: Map<Seq<char>, Seq<Seq<u8>>>,
    uri: Seq<char>,
    method: Seq<char>,
) -> Map<Seq<char>, Seq<Seq<u8>>> {
    with_added(
        with_added(
            on_behalf("elrond-auth-request"@, client),
            "x-original-uri"@,
            or_blank(encode_utf8(uri)),
        ),
        "x-original-method"@,
        or_blank(encode_utf8(method)),
    )
}

fn add_or_blank(h: &mut hyper::HeaderMap, name: &str, value: &str)
    requires
        header_names(*old(h)) < crate::headers::MAX_HEADER_NAMES,
    ensures
        header_map(*final(h)) == with_added(
            header_map(*old(h)),
            name@,
            or_blank(encode_utf8(value@)),
        ),
        header_names(*final(h)) <= header_names(*old(h)) + 1,
{
    let bytes = value.as_bytes();
    if valid_value(bytes) {
        add_value(h, name, bytes);
    } else {
        let none: Vec<u8> = Vec::new();
        assert(none@ =~= seq![]);
        add_value(h, name, none.as_slice());
    }
}

/// The subrequest for a request; none when the directive names no URL.
pub open spec fn asked_for(url_template: Seq<SegmentV>, ctx: RequestCtx<'_>) -> Option<SubrequestV> {
    let url = trimmed(rendered(url_template, ctx));
    if url.len() == 0 {
        None
    } else {
        Some(
            SubrequestV {
                url,
                headers: asking_headers(
                    header_map(*ctx.headers),
                    ctx.spec_request_uri(),
                    ctx.method@,
                ),
            },
        )
    }
}

/// The answer when the directive names no URL.
pub open spec fn no_url() -> ResponseV {
    text_response(500, "auth_request: empty URL\n"@)
}

/// The subrequest for a request, or the answer when the directive names no URL.
pub fn subrequest(url_template: &Template, ctx: &RequestCtx<'_>) -> (r: Result<Subrequest, Response>)
    ensures
        match r {
            Ok(s) => asked_for(url_template@, *ctx) == Some(s@),
            Err(resp) => asked_for(url_template@, *ctx) is None && resp@ == no_url()
                && header_names(resp.headers) <= 1,
        },
{
    let raw = url_template.render(ctx);
    let url = trim(raw.as_str());
    if url.is_empty() {
        return Err(text(500, "auth_request: empty URL\n"));
    }
    let mut headers = headers_on_behalf("elrond-auth-request", ctx.headers);
    add_or_blank(&mut headers, "x-original-uri", ctx.request_uri());
    add_or_blank(&mut headers, "x-original-method", ctx.method);
    Ok(Subrequest { url: url.to_owned(), headers })
}

/// What came of the subrequest.
#[derive(Debug)]
pub enum Reply {
    /// The URL could not be used.
    BadUrl { url: String, error: String },
    /// The service answered with this status.
    Status(u16),
    /// The service could not be reached.
    Unreachable,
    /// The service did not answer in time.
    TimedOut,
}

/// Whether the service lets a request proceed: any `2xx` does.
pub open spec fn lets_in(r: Reply) -> bool {
    r matches Reply::Status(s) && 200 <= s < 300
}

/// The answer to a request that the service does not let in.
pub open spec fn refusal(r: Reply) -> ResponseV {
    match r {
        Reply::BadUrl { url, error } => text_response(
            500,
            "auth_request: bad subrequest URL '"@ + url@ + "': "@ + error@ + "\n"@,
        ),
        Reply::Status(s) => text_response(s, decimal(s as nat) + " (auth_request denied)\n"@),
        Reply::Unreachable => text_response(500, "auth_request: subrequest connect / send error\n"@),
        Reply::TimedOut => text_response(504, "auth_request: subrequest timed out\n"@),
    }
}

/// Decide whether the request is allowed.
///
/// `Ok(())` → original request proceeds.
/// `Err(response)` → return this response to the client (`401`/`403`/`5xx`).
pub fn check(reply: &Reply) -> (r: Result<(), Response>)
    requires
        *reply matches Reply::Status(s) ==> valid_status(s),
    ensures
        match r {
            Ok(_) => lets_in(*reply),
            Err(resp) => !lets_in(*reply) && resp@ == refusal(*reply) && header_names(resp.headers)
                <= 1,
        },
{
    match reply {
        Reply::BadUrl { url, error } => {
            let mut m = "auth_request: bad subrequest URL '".to_owned();
            m.append(url.as_str());
            m.append("': ");
            m.append(error.as_str());
            m.append("\n");
            Err(text(500, m.as_str()))
        },
        Reply::Status(s) => {
            if 200 <= *s && *s < 300 {
                return Ok(());
            }
            let mut m = String::new();
            push_decimal(&mut m, *s as u64);
            assert(m@ =~= decimal(*s as nat));
            m.append(" (auth_request denied)\n");
            Err(text(*s, m.as_str()))
        },
        Reply::Unreachable => Err(text(500, "auth_request: subrequest connect / send error\n")),
        Reply::TimedOut => Err(text(504, "auth_request: subrequest timed out\n")),
    }
}

/// A refusal by the service keeps its status.
pub proof fn law_refusal_keeps_status(s: u16)
    requires
        !lets_in(Reply::Status(s)),
    ensures
        refusal(Reply::Status(s)).status == s,
{
}

} // verus!
