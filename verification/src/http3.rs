//! HTTP/3: how much of a request body is buffered before it is dispatched. The
//! request then takes the same path as over HTTP/1 and HTTP/2.

use crate::body::{Response, ResponseV, text, text_response};
use crate::headers::header_names;
use vstd::prelude::*;
use vstd::string::*;

verus! {

/// Per-connection request-body cap when the server's
/// `client_max_body_size` is `0` (unlimited). Avoids buffering an
/// unbounded body just because the operator said "no limit".
pub const ABSOLUTE_BODY_CAP: usize = 32 * 1024 * 1024;

/// How many bytes of a body are buffered at most.
pub open spec fn cap_for(client_max_body_size: usize) -> usize {
    if client_max_body_size == 0 {
        ABSOLUTE_BODY_CAP
    } else {
        client_max_body_size
    }
}

/// How many bytes of a body are buffered at most.
pub fn body_limit(client_max_body_size: usize) -> (r: usize)
    ensures
        r == cap_for(client_max_body_size),
{
    if client_max_body_size == 0 {
        ABSOLUTE_BODY_CAP
    } else {
        client_max_body_size
    }
}

/// The answer to a body that exceeds the limit.
pub open spec fn body_too_large() -> ResponseV {
    text_response(413, "413 Request Entity Too Large\n"@)
}

/// Take in one more chunk of a body, or answer that it is too large. The
/// buffer never exceeds the limit.
pub fn receive(buf: &mut Vec<u8>, chunk: &Vec<u8>, limit: usize) -> (r: Option<Response>)
    ensures
        match r {
            None => old(buf)@.len() + chunk@.len() <= limit && final(buf)@ == old(buf)@ + chunk@,
            Some(resp) => old(buf)@.len() + chunk@.len() > limit && final(buf)@ == old(buf)@
                && resp@ == body_too_large() && header_names(resp.headers) <= 1,
        },
{
    let had: usize = buf.len();
    let fits = chunk.len() <= limit && had <= limit - chunk.len();
    if !fits {
        return Some(text(413, "413 Request Entity Too Large\n"));
    }
    let ghost before = buf@;
    let mut i: usize = 0;
    while i < chunk.len()
        invariant
            i <= chunk@.len(),
            buf@ == before + chunk@.take(i as int),
        decreases chunk@.len() - i,
    {
        buf.push(chunk[i]);
        assert(buf@ =~= before + chunk@.take(i + 1));
        i = i + 1;
    }
    assert(chunk@.take(i as int) == chunk@);
    None
}

} // verus!
