//! In-memory responses and small response constructors.

use crate::headers::{header_map, header_names, new_headers, no_headers, set_text, with_header};
use vstd::prelude::*;
use vstd::string::*;
use vstd::utf8::encode_utf8;

verus! {

/// A response that is held in memory.
#[derive(Debug)]
pub struct Response {
    pub status: u16,
    pub headers: hyper::HeaderMap,
    pub body: Vec<u8>,
}

/// Model of a [`Response`].
pub struct ResponseV {
    pub status: u16,
    pub headers: Map<Seq<char>, Seq<Seq<u8>>>,
    pub body: Seq<u8>,
}

impl View for Response {
    type V = ResponseV;

    open spec fn view(&self) -> ResponseV {
        ResponseV {
            status: self.status,
            headers: header_map(self.headers),
            body: self.body@,
        }
    }
}

/// A status that a response may carry.
pub open spec fn valid_status(status: u16) -> bool {
    100 <= status <= 999
}

/// A `text/plain` response.
pub open spec fn text_response(status: u16, body: Seq<char>) -> ResponseV {
    ResponseV {
        status,
        headers: with_header(
            no_headers(),
            "content-type"@,
            encode_utf8("text/plain; charset=utf-8"@),
        ),
        body: encode_utf8(body),
    }
}

/// The bytes of a text.
pub fn text_bytes(s: &str) -> (r: Vec<u8>)
    ensures
        r@ == encode_utf8(s@),
{
    s.as_bytes_vec()
}

/// Build a `text/plain` response with the given status and body.
pub fn text(status: u16, body: &str) -> (r: Response)
    requires
        valid_status(status),
    ensures
        r@ == text_response(status, body@),
        header_names(r.headers) <= 1,
{
    let mut headers = new_headers();
    set_text(&mut headers, "content-type", "text/plain; charset=utf-8");
    Response { status, headers, body: text_bytes(body) }
}

} // verus!
