//! L4 `stream` proxy: which upstream peer a connection or datagram goes to, and
//! what its outcome means for the peer's health and for the metrics. Moving
//! bytes is left to the network stack.

use crate::app::balance::{
    advanced, Balancer, BalancerV, InflightGuard, picked, with_entered, with_settled,
};
use crate::metrics::{Metrics, record_stream_bytes};
use crate::net::IpAddr;
use crate::text::views;
use crate::time::now_ms;
use vstd::prelude::*;
use vstd::string::*;

verus! {

/// Per-datagram timeout for the UDP relay: how long to wait for the
/// upstream to answer before giving up and dropping the exchange, in seconds.
pub const UDP_REPLY_TIMEOUT_SECS: u64 = 5;

/// Max single-datagram size we'll accept on the listener side.
pub const UDP_MAX_DATAGRAM: usize = 65_507;

/// The balancer after a peer has been chosen for a client: the exchange is in
/// flight.
pub open spec fn balancer_opened(b: BalancerV, ip: IpAddr, now: u64) -> BalancerV {
    match picked(b, ip, seq![], now) {
        Some(i) => with_entered(advanced(b, ip, seq![], now), i),
        None => b,
    }
}

/// Choose a peer for a client. `None` when none is available.
pub fn open(balancer: &mut Balancer, client_ip: IpAddr) -> (r: Option<(usize, InflightGuard)>)
    ensures
        exists|now: u64|
            #![trigger picked(old(balancer)@, client_ip, seq![], now)]
            {
                &&& picked(old(balancer)@, client_ip, seq![], now) == (match r {
                    Some((i, _)) => Some(i as int),
                    None => None,
                })
                &&& final(balancer)@ == balancer_opened(old(balancer)@, client_ip, now)
            },
        r matches Some((i, _)) ==> i < old(balancer).peers@.len(),
        final(balancer).peers@.len() == old(balancer).peers@.len(),
{
    let now = now_ms();
    open_at(balancer, client_ip, now)
}

/// Choose a peer for a client at `now`.
pub fn open_at(balancer: &mut Balancer, client_ip: IpAddr, now: u64) -> (r: Option<
    (usize, InflightGuard),
>)
    ensures
        picked(old(balancer)@, client_ip, seq![], now) == (match r {
            Some((i, _)) => Some(i as int),
            None => None,
        }),
        final(balancer)@ == balancer_opened(old(balancer)@, client_ip, now),
        r matches Some((i, _)) ==> i < old(balancer).peers@.len(),
        final(balancer).peers@.len() == old(balancer).peers@.len(),
{
    let none: Vec<String> = Vec::new();
    assert(views(none@) =~= seq![]);
    match balancer.pick_at(client_ip, &none, now) {
        Some(i) => {
            let token = balancer.enter(i);
            Some((i, token))
        },
        None => None,
    }
}

/// What came of an exchange.
#[derive(Debug, Clone, Copy, PartialEq, Eq, Structural)]
pub enum Outcome {
    /// The upstream could not be reached, or broke off.
    Failed,
    /// A datagram of this many bytes was sent, and no answer came.
    Unanswered { sent: u64 },
    /// Both directions ended; so many bytes went each way.
    Completed { to_upstream: u64, from_upstream: u64 },
}

/// The metrics after an exchange.
pub open spec fn bytes_counted(m: Metrics, o: Outcome) -> Metrics {
    match o {
        Outcome::Failed => m,
        Outcome::Unanswered { sent } => Metrics {
            stream_bytes_to_up: m.stream_bytes_to_up.wrapping_add(sent),
            ..m
        },
        Outcome::Completed { to_upstream, from_upstream } => Metrics {
            stream_bytes_to_up: m.stream_bytes_to_up.wrapping_add(to_upstream),
            stream_bytes_from_up: m.stream_bytes_from_up.wrapping_add(from_upstream),
            ..m
        },
    }
}

/// End an exchange: only a completed one counts as a success of the peer.
pub fn close(
    balancer: &mut Balancer,
    peer: usize,
    token: InflightGuard,
    outcome: Outcome,
    metrics: &mut Metrics,
)
    requires
        peer < old(balancer).peers@.len(),
    ensures
        exists|now: u64|
            final(balancer)@ == #[trigger] with_settled(
                old(balancer)@,
                peer as int,
                outcome is Completed,
                now,
            ),
        *final(metrics) == bytes_counted(*old(metrics), outcome),
{
    let now = now_ms();
    close_at(balancer, peer, token, outcome, now, metrics)
}

/// End an exchange at `now`.
pub fn close_at(
    balancer: &mut Balancer,
    peer: usize,
    token: InflightGuard,
    outcome: Outcome,
    now: u64,
    metrics: &mut Metrics,
)
    requires
        peer < old(balancer).peers@.len(),
    ensures
        final(balancer)@ == with_settled(
            old(balancer)@,
            peer as int,
            outcome is Completed,
            now,
        ),
        *final(metrics) == bytes_counted(*old(metrics), outcome),
{
    let ok = match outcome {
        Outcome::Failed => false,
        Outcome::Unanswered { sent } => {
            record_stream_bytes(metrics, sent, 0);
            false
        },
        Outcome::Completed { to_upstream, from_upstream } => {
            record_stream_bytes(metrics, to_upstream, from_upstream);
            true
        },
    };
    balancer.settle_at(peer, token, ok, now)
}

} // verus!
