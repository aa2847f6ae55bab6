//! `mirror` — fire-and-forget shadow requests.
//!
//! Each matched request is replicated to one or more shadow URLs. The
//! original request flow is **never** affected: mirrors are sent on the side,
//! given a tight timeout, and their responses are discarded.
//!
//! Only the method, the rendered URL, and a small set of safe headers are
//! mirrored — request bodies are **not** buffered or replayed (that would
//! either inflate memory on every request or change the original response
//! timing).

use crate::headers::{add_value, header_map, with_added};
use crate::request_ctx::RequestCtx;
use crate::subrequest::{headers_on_behalf, on_behalf};
use crate::template::{rendered, SegmentV, Template};
use crate::text::{lemma_views_push, trim, trimmed, views};
use vstd::prelude::*;
use vstd::string::*;
use vstd::utf8::encode_utf8;

verus! {

/// Short cap on the shadow round-trip so a slow mirror can't pile up, in
/// seconds.
pub const MIRROR_TIMEOUT_SECS: u64 = 2;

/// The shadow URLs of a request. One that renders to nothing is skipped.
pub open spec fn urls_of(mirrors: Seq<Seq<SegmentV>>, ctx: RequestCtx<'_>) -> Seq<Seq<char>>
    decreases mirrors.len(),
{
    if mirrors.len() == 0 {
        seq![]
    } else {
        let before = urls_of(mirrors.drop_last(), ctx);
        let url = trimmed(rendered(mirrors.last(), ctx));
        if url.len() == 0 {
            before
        } else {
            before.push(url)
        }
    }
}

/// The shadow URLs of a request, in declaration order.
pub fn shadow_urls(mirrors: &Vec<Template>, ctx: &RequestCtx<'_>) -> (r: Vec<String>)
    ensures
        views(r@) == urls_of(views(mirrors@), *ctx),
{
    let ghost all = views(mirrors@);
    let mut out: Vec<String> = Vec::new();
    let mut i: usize = 0;
    assert(all.take(0) =~= seq![]);
    assert(views(out@) =~= seq![]);
    while i < mirrors.len()
        invariant
            i <= mirrors@.len(),
            all == views(mirrors@),
            views(out@) == urls_of(all.take(i as int), *ctx),
        decreases mirrors@.len() - i,
    {
        let ghost now = all.take(i + 1);
        assert(now.drop_last() == all.take(i as int));
        assert(now.last() == mirrors@[i as int]@);
        let raw = mirrors[i].render(ctx);
        let url = trim(raw.as_str());
        if !url.is_empty() {
            let s = url.to_owned();
            proof {
                lemma_views_push(out@, s);
            }
            out.push(s);
        }
        i = i + 1;
    }
    assert(all.take(i as int) == all);
    out
}

/// The headers of a shadow request, which are marked as such.
pub open spec fn shadow_headers_of(client: Map<Seq<char>, Seq<Seq<u8>>>) -> Map<
    Seq<char>,
    Seq<Seq<u8>>,
> {
    with_added(on_behalf("elrond-mirror"@, client), "x-elrond-mirror"@, encode_utf8("1"@))
}

/// The headers of a shadow request.
pub fn shadow_headers(client: &hyper::HeaderMap) -> (h: hyper::HeaderMap)
    ensures
        header_map(h) == shadow_headers_of(header_map(*client)),
{
    let mut h = headers_on_behalf("elrond-mirror", client);
    add_value(&mut h, "x-elrond-mirror", "1".as_bytes());
    h
}

} // verus!
