//! What a request made on behalf of a client takes over from the client.

use crate::headers::{
    add_value, get_value, header_map, header_names, header_value, MAX_HEADER_NAMES, new_headers,
    no_headers, with_added,
};
use vstd::prelude::*;
use vstd::string::*;
use vstd::utf8::encode_utf8;

verus! {

/// The headers with the client's first value of `name` behind those already
/// there.
pub open spec fn taking_over(
    m: Map<Seq<char>, Seq<Seq<u8>>>,
    client: Map<Seq<char>, Seq<Seq<u8>>>,
    name: Seq<char>,
) -> Map<Seq<char>, Seq<Seq<u8>>> {
    match header_value(client, name) {
        Some(v) => with_added(m, name, v),
        None => m,
    }
}

/// The headers of a request by `agent` on behalf of a client: its credentials,
/// its cookies and its own agent.
pub open spec fn on_behalf(agent: Seq<char>, client: Map<Seq<char>, Seq<Seq<u8>>>) -> Map<
    Seq<char>,
    Seq<Seq<u8>>,
> {
    let own = with_added(no_headers(), "user-agent"@, encode_utf8(agent));
    taking_over(
        taking_over(taking_over(own, client, "authorization"@), client, "cookie"@),
        client,
        "user-agent"@,
    )
}

fn take_over(h: &mut hyper::HeaderMap, client: &hyper::HeaderMap, name: &str)
    requires
        header_names(*old(h)) < MAX_HEADER_NAMES,
    ensures
        header_map(*final(h)) == taking_over(header_map(*old(h)), header_map(*client), name@),
        header_names(*final(h)) <= header_names(*old(h)) + 1,
{
    if let Some(v) = get_value(client, name) {
        add_value(h, name, v.as_slice());
    }
}

/// The headers of a request by `agent` on behalf of a client.
pub fn headers_on_behalf(agent: &str, client: &hyper::HeaderMap) -> (h: hyper::HeaderMap)
    ensures
        header_map(h) == on_behalf(agent@, header_map(*client)),
        header_names(h) <= 4,
{
    let mut h = new_headers();
    add_value(&mut h, "user-agent", agent.as_bytes());
    take_over(&mut h, client, "authorization");
    take_over(&mut h, client, "cookie");
    take_over(&mut h, client, "user-agent");
    h
}

} // verus!
