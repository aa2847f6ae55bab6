//! Active upstream health checks. Every non-`down` peer of a balancer is probed
//! at a configurable interval, and the outcome is reported through
//! [`Peer::record_success`] / [`Peer::record_failure`] — so active and passive
//! health share one state machine.

use crate::app::balance::{Balancer, failed, Peer, PeerV, recovered};
use crate::config::ast::HealthCheckCfg;
use crate::time::now_ms;
use vstd::prelude::*;
use vstd::string::*;

verus! {

/// The positions of the first `n` peers that are probed: all but those marked
/// down.
pub open spec fn probed(peers: Seq<PeerV>, n: int) -> Seq<int>
    decreases n,
{
    if n <= 0 {
        seq![]
    } else if peers[n - 1].down {
        probed(peers, n - 1)
    } else {
        probed(peers, n - 1).push(n - 1)
    }
}

/// The positions of the peers to probe.
pub fn targets(balancer: &Balancer) -> (r: Vec<usize>)
    ensures
        r@.map_values(|i: usize| i as int) == probed(balancer@.peers, balancer@.peers.len() as int),
{
    let mut out: Vec<usize> = Vec::new();
    let mut i: usize = 0;
    assert(out@.map_values(|i: usize| i as int) =~= seq![]);
    while i < balancer.peers.len()
        invariant
            i <= balancer.peers@.len(),
            out@.map_values(|i: usize| i as int) == probed(balancer@.peers, i as int),
        decreases balancer.peers@.len() - i,
    {
        assert(balancer@.peers[i as int] == balancer.peers@[i as int]@);
        if !balancer.peers[i].down {
            let ghost before = out@;
            out.push(i);
            assert(out@.map_values(|i: usize| i as int) =~= before.map_values(
                |i: usize| i as int,
            ).push(i as int));
        }
        i = i + 1;
    }
    out
}

/// Where a peer is probed.
pub fn probe_url(peer: &Peer, cfg: &HealthCheckCfg) -> (r: String)
    ensures
        r@ == "http://"@ + peer@.addr + cfg@.uri,
{
    let mut r = "http://".to_owned();
    r.append(peer.addr.as_str());
    r.append(cfg.uri.as_str());
    r
}

/// A peer after a probe at `now`: exactly the expected status counts as
/// success.
pub open spec fn after_probe(p: PeerV, expected: u16, reply: Option<u16>, now: u64) -> PeerV {
    if reply == Some(expected) {
        recovered(p)
    } else {
        failed(p, now)
    }
}

/// Take in the status that a probe came back with, or that it did not.
pub fn settle(peer: &mut Peer, cfg: &HealthCheckCfg, reply: Option<u16>)
    ensures
        exists|now: u64|
            final(peer)@ == #[trigger] after_probe(old(peer)@, cfg.expected_status, reply, now),
{
    let now = now_ms();
    settle_at(peer, cfg, reply, now)
}

/// Take in the outcome of a probe at `now`.
pub fn settle_at(peer: &mut Peer, cfg: &HealthCheckCfg, reply: Option<u16>, now: u64)
    ensures
        final(peer)@ == after_probe(old(peer)@, cfg.expected_status, reply, now),
{
    let ok = match reply {
        Some(s) => s == cfg.expected_status,
        None => false,
    };
    if ok {
        peer.record_success();
    } else {
        peer.record_failure_at(now);
    }
}

} // verus!
