//! Minimal `sd_notify` for systemd `Type=notify` integration: what is sent, and
//! where to. When the notify socket is not set (running interactively, in a
//! container without notify), nothing is sent.

use crate::text::starts_with;
use vstd::prelude::*;
use vstd::string::*;

verus! {

/// Tells systemd we're ready to serve.
pub fn ready() -> (r: &'static str)
    ensures
        r@ == "READY=1"@,
{
    "READY=1"
}

/// Tells systemd we're shutting down.
pub fn stopping() -> (r: &'static str)
    ensures
        r@ == "STOPPING=1"@,
{
    "STOPPING=1"
}

/// Tells systemd a reload is in progress. Should be followed by another
/// [`ready`] when the reload completes.
pub fn reloading() -> (r: &'static str)
    ensures
        r@ == "RELOADING=1"@,
{
    "RELOADING=1"
}

/// Sets a short human-readable status string.
pub fn status(msg: &str) -> (r: String)
    ensures
        r@ == "STATUS="@ + msg@,
{
    let mut r = "STATUS=".to_owned();
    r.append(msg);
    r
}

/// The socket to send to, given the value of `$NOTIFY_SOCKET`. Abstract sockets
/// (leading `@`) aren't portable and are skipped.
pub fn destination<'a>(socket: Option<&'a str>) -> (r: Option<&'a str>)
    ensures
        match socket {
            Some(s) => if s@.len() == 0 || "@"@.is_prefix_of(s@) {
                r is None
            } else {
                r == Some(s)
            },
            None => r is None,
        },
{
    match socket {
        Some(s) => {
            if s.is_empty() || starts_with(s, "@") {
                None
            } else {
                Some(s)
            }
        },
        None => None,
    }
}

} // verus!
