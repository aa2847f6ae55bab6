//! Upstream peers, their health, and the choice among them.

use crate::config::ast::{LbMethod, plain_server, UpstreamServer, UpstreamServerV};
use crate::net::IpAddr;
use crate::request_ctx::RequestCtx;
use crate::text::{same, views};
use crate::time::{Duration, now_ms};
use std::collections::hash_map::DefaultHasher;
use std::hash::Hasher;
use vstd::prelude::*;
use vstd::std_specs::hash::DefaultHasherAdditionalSpecFns;
use vstd::string::*;

verus! {

/// A single upstream endpoint, with both its static configuration and its
/// live health state.
#[derive(Debug)]
pub struct Peer {
    pub addr: String,
    pub weight: u32,
    pub max_fails: u32,
    pub fail_timeout: Duration,
    pub backup: bool,
    pub down: bool,
    /// Currently in-flight requests dispatched to this peer.
    pub in_flight: u32,
    /// Consecutive failures since the last success. Reset on success.
    pub consecutive_failures: u32,
    /// Unix-epoch millis until which the peer is considered failed; `0`
    /// means healthy.
    pub failed_until_ms: u64,
}

/// Model of a [`Peer`].
pub struct PeerV {
    pub addr: Seq<char>,
    pub weight: u32,
    pub max_fails: u32,
    pub fail_timeout: Duration,
    pub backup: bool,
    pub down: bool,
    pub in_flight: u32,
    pub consecutive_failures: u32,
    pub failed_until_ms: u64,
}

impl View for Peer {
    type V = PeerV;

    open spec fn view(&self) -> PeerV {
        PeerV {
            addr: self.addr@,
            weight: self.weight,
            max_fails: self.max_fails,
            fail_timeout: self.fail_timeout,
            backup: self.backup,
            down: self.down,
            in_flight: self.in_flight,
            consecutive_failures: self.consecutive_failures,
            failed_until_ms: self.failed_until_ms,
        }
    }
}

/// A peer that has just been configured: idle and healthy.
pub open spec fn fresh_peer(s: UpstreamServerV) -> PeerV {
    PeerV {
        addr: s.addr,
        weight: s.weight,
        max_fails: s.max_fails,
        fail_timeout: s.fail_timeout,
        backup: s.backup,
        down: s.down,
        in_flight: 0,
        consecutive_failures: 0,
        failed_until_ms: 0,
    }
}

/// Whether a peer may be picked at `now`: it is not marked down and its
/// cooldown, if any, is over.
pub open spec fn available(p: PeerV, now: u64) -> bool {
    !p.down && (p.failed_until_ms == 0 || now >= p.failed_until_ms)
}

/// The peer after a success: no failures, no cooldown.
pub open spec fn recovered(p: PeerV) -> PeerV {
    PeerV { consecutive_failures: 0, failed_until_ms: 0, ..p }
}

/// How many failures in a row take the peer out of rotation: at least one.
pub open spec fn threshold(p: PeerV) -> u32 {
    if p.max_fails < 1 {
        1
    } else {
        p.max_fails
    }
}

/// The peer after a failure at `now`. The cooldown starts, or starts anew, once
/// the failures in a row reach the threshold.
pub open spec fn failed(p: PeerV, now: u64) -> PeerV {
    let n = p.consecutive_failures.wrapping_add(1);
    PeerV {
        consecutive_failures: n,
        failed_until_ms: if n >= threshold(p) {
            now.wrapping_add(p.fail_timeout.millis() as u64)
        } else {
            p.failed_until_ms
        },
        ..p
    }
}

/// The peer with one more request in flight.
pub open spec fn entered(p: PeerV) -> PeerV {
    PeerV { in_flight: p.in_flight.wrapping_add(1), ..p }
}

/// The peer with one request in flight less.
pub open spec fn left(p: PeerV) -> PeerV {
    PeerV { in_flight: p.in_flight.wrapping_sub(1), ..p }
}

/// Token for one request in flight; handing it back with
/// [`InflightGuard::release`] ends the request's count.
#[derive(Debug)]
pub struct InflightGuard {
    entered: bool,
}

impl InflightGuard {
    /// End the request that this token stands for.
    pub fn release(self, peer: &mut Peer)
        ensures
            final(peer)@ == left(old(peer)@),
    {
        peer.in_flight = peer.in_flight.wrapping_sub(1);
    }
}

impl Peer {
    /// A healthy, idle peer for a configured server.
    pub fn new(s: &UpstreamServer) -> (p: Peer)
        ensures
            p@ == fresh_peer(s@),
    {
        Peer {
            addr: s.addr.clone(),
            weight: s.weight,
            max_fails: s.max_fails,
            fail_timeout: s.fail_timeout,
            backup: s.backup,
            down: s.down,
            in_flight: 0,
            consecutive_failures: 0,
            failed_until_ms: 0,
        }
    }

    /// A peer for a bare address, with one failure tolerated and a ten-second
    /// cooldown.
    pub fn direct(addr: &str) -> (p: Peer)
        ensures
            p@ == fresh_peer(plain_server(addr@)),
    {
        Peer {
            addr: addr.to_owned(),
            weight: 1,
            max_fails: 1,
            fail_timeout: Duration::from_secs(10),
            backup: false,
            down: false,
            in_flight: 0,
            consecutive_failures: 0,
            failed_until_ms: 0,
        }
    }

    /// True if this peer should be considered for picking right now.
    pub fn is_available(&self, now_ms: u64) -> (r: bool)
        ensures
            r == available(self@, now_ms),
    {
        if self.down {
            return false;
        }
        self.failed_until_ms == 0 || now_ms >= self.failed_until_ms
    }

    /// Record a successful exchange — clears any pending failure cooldown.
    pub fn record_success(&mut self)
        ensures
            final(self)@ == recovered(old(self)@),
    {
        self.consecutive_failures = 0;
        self.failed_until_ms = 0;
    }

    /// Record a failure. When consecutive failures reach `max_fails`, the
    /// peer is taken out of rotation for `fail_timeout`.
    pub fn record_failure(&mut self)
        ensures
            exists|now: u64| final(self)@ == #[trigger] failed(old(self)@, now),
    {
        let now = now_ms();
        self.record_failure_at(now);
        assert(self@ == failed(old(self)@, now));
    }

    /// Record a failure that happened at `now`.
    pub fn record_failure_at(&mut self, now: u64)
        ensures
            final(self)@ == failed(old(self)@, now),
    {
        let n: u32 = self.consecutive_failures.wrapping_add(1);
        self.consecutive_failures = n;
        let limit: u32 = if self.max_fails < 1 { 1 } else { self.max_fails };
        if n >= limit {
            self.failed_until_ms = now.wrapping_add(self.fail_timeout.as_millis());
        }
    }

    /// Count one more request in flight. The returned token ends it.
    pub fn enter(&mut self) -> (g: InflightGuard)
        ensures
            final(self)@ == entered(old(self)@),
    {
        self.in_flight = self.in_flight.wrapping_add(1);
        InflightGuard { entered: true }
    }

    pub fn in_flight(&self) -> (n: u32)
        ensures
            n == self.in_flight,
    {
        self.in_flight
    }
}

// ---------------------------------------------------------------------------
// Balancer
// ---------------------------------------------------------------------------

#[derive(Debug)]
pub struct Balancer {
    pub name: String,
    pub method: LbMethod,
    pub peers: Vec<Peer>,
    /// `"http"` or `"https"` — derived from the `proxy_pass` URL scheme.
    pub scheme: &'static str,
    pub rr_counter: usize,
}

/// Model of a [`Balancer`].
pub struct BalancerV {
    pub name: Seq<char>,
    pub method: LbMethod,
    pub peers: Seq<PeerV>,
    pub scheme: Seq<char>,
    pub rr_counter: usize,
}

impl View for Balancer {
    type V = BalancerV;

    open spec fn view(&self) -> BalancerV {
        BalancerV {
            name: self.name@,
            method: self.method,
            peers: views(self.peers@),
            scheme: self.scheme@,
            rr_counter: self.rr_counter,
        }
    }
}

/// Whether a peer belongs to the pool of primaries (`backup == false`) or of
/// backups (`backup == true`).
pub open spec fn eligible(p: PeerV, backup: bool, exclude: Seq<Seq<char>>, now: u64) -> bool {
    p.backup == backup && available(p, now) && !exclude.contains(p.addr)
}

/// The positions of the first `n` peers that are eligible, in order.
pub open spec fn pool_of(
    peers: Seq<PeerV>,
    n: int,
    backup: bool,
    exclude: Seq<Seq<char>>,
    now: u64,
) -> Seq<int>
    decreases n,
{
    if n <= 0 {
        seq![]
    } else if eligible(peers[n - 1], backup, exclude, now) {
        pool_of(peers, n - 1, backup, exclude, now).push(n - 1)
    } else {
        pool_of(peers, n - 1, backup, exclude, now)
    }
}

/// The peers to choose from: the primaries, or the backups when no primary is
/// eligible.
pub open spec fn candidates(peers: Seq<PeerV>, exclude: Seq<Seq<char>>, now: u64) -> Seq<int> {
    let primaries = pool_of(peers, peers.len() as int, false, exclude, now);
    if primaries.len() > 0 {
        primaries
    } else {
        pool_of(peers, peers.len() as int, true, exclude, now)
    }
}

/// The weight of a peer: at least one.
pub open spec fn weight_of(p: PeerV) -> int {
    if p.weight < 1 {
        1
    } else {
        p.weight as int
    }
}

/// The weights of a pool.
pub open spec fn weights(peers: Seq<PeerV>, pool: Seq<int>) -> Seq<int> {
    Seq::new(pool.len(), |i: int| weight_of(peers[pool[i]]))
}

/// The sum of the first `n` weights.
pub open spec fn sum_to(ws: Seq<int>, n: int) -> int
    decreases n,
{
    if n <= 0 {
        0
    } else {
        sum_to(ws, n - 1) + ws[n - 1]
    }
}

/// The slot that holds ticket `t`, when slot `i` holds `ws[i]` tickets and
/// slots hold consecutive tickets from `0` on.
pub open spec fn slot(ws: Seq<int>, t: int) -> int
    decreases ws.len(),
{
    if ws.len() == 0 || t < ws[0] {
        0
    } else {
        1 + slot(ws.skip(1), t - ws[0])
    }
}

/// Weighted round-robin: the counter, reduced to 32 bits, picks a ticket. The
/// total weight is counted in 32 bits too; when it comes to zero there is no
/// choice.
pub open spec fn rr_choice(ws: Seq<int>, counter: usize) -> Option<int> {
    let total = sum_to(ws, ws.len() as int) % 0x1_0000_0000;
    if total == 0 {
        None
    } else {
        Some(slot(ws, (counter as int % 0x1_0000_0000) % total))
    }
}

/// In-flight requests in millionths per unit of weight. Lower is better.
pub open spec fn load_of(p: PeerV) -> int {
    (p.in_flight * 1_000_000) / weight_of(p)
}

/// The first of the least loaded among the first `n` of the pool.
pub open spec fn least(peers: Seq<PeerV>, pool: Seq<int>, n: int) -> int
    decreases n,
{
    if n <= 1 {
        0
    } else {
        let best = least(peers, pool, n - 1);
        if load_of(peers[pool[n - 1]]) < load_of(peers[pool[best]]) {
            n - 1
        } else {
            best
        }
    }
}

/// The variant of an address as a machine word, lowest byte first: `0` for IPv4
/// and `1` for IPv6.
pub open spec fn variant_word(ip: IpAddr) -> Seq<u8> {
    Seq::new(
        (usize::BITS / 8) as nat,
        |i: int|
            if i == 0 && ip is V6 {
                1u8
            } else {
                0u8
            },
    )
}

/// The hash of a client address, as the standard library hashes one: the variant
/// goes into the hasher, and then the octets as one integer, without a length.
pub open spec fn client_hash(ip: IpAddr) -> u64 {
    DefaultHasher::spec_finish(seq![variant_word(ip), ip.bytes()])
}

/// The position of the chosen peer within the pool.
pub open spec fn choice(b: BalancerV, pool: Seq<int>, ip: IpAddr) -> Option<int> {
    if pool.len() == 0 {
        None
    } else {
        match b.method {
            LbMethod::RoundRobin => rr_choice(weights(b.peers, pool), b.rr_counter),
            LbMethod::LeastConn => Some(least(b.peers, pool, pool.len() as int)),
            LbMethod::IpHash => Some((client_hash(ip) as usize) as int % pool.len() as int),
        }
    }
}

/// The peer that a balancer picks at `now`.
pub open spec fn picked(b: BalancerV, ip: IpAddr, exclude: Seq<Seq<char>>, now: u64) -> Option<int> {
    let pool = candidates(b.peers, exclude, now);
    match choice(b, pool, ip) {
        Some(k) => Some(pool[k]),
        None => None,
    }
}

/// The balancer after a pick: round-robin advances its counter, unless there
/// was nothing to choose from.
pub open spec fn advanced(b: BalancerV, ip: IpAddr, exclude: Seq<Seq<char>>, now: u64) -> BalancerV {
    if b.method == LbMethod::RoundRobin && picked(b, ip, exclude, now) is Some {
        BalancerV { rr_counter: b.rr_counter.wrapping_add(1), ..b }
    } else {
        b
    }
}

pub proof fn lemma_pool_bounds(
    peers: Seq<PeerV>,
    n: int,
    backup: bool,
    exclude: Seq<Seq<char>>,
    now: u64,
)
    requires
        0 <= n <= peers.len(),
    ensures
        pool_of(peers, n, backup, exclude, now).len() <= n,
        forall|k: int|
            0 <= k < pool_of(peers, n, backup, exclude, now).len() ==> {
                let i = #[trigger] pool_of(peers, n, backup, exclude, now)[k];
                0 <= i < n && eligible(peers[i], backup, exclude, now)
            },
    decreases n,
{
    if n > 0 {
        lemma_pool_bounds(peers, n - 1, backup, exclude, now);
    }
}

proof fn lemma_sum_grows(ws: Seq<int>, i: int, j: int)
    requires
        0 <= i <= j <= ws.len(),
        forall|k: int| 0 <= k < ws.len() ==> #[trigger] ws[k] >= 1,
    ensures
        i <= sum_to(ws, i) <= sum_to(ws, j),
    decreases j,
{
    if i < j {
        lemma_sum_grows(ws, i, j - 1);
    } else if i > 0 {
        lemma_sum_grows(ws, i - 1, j - 1);
    }
}

proof fn lemma_sum_skip(ws: Seq<int>, n: int)
    requires
        ws.len() > 0,
        0 <= n < ws.len(),
    ensures
        sum_to(ws, n + 1) == ws[0] + sum_to(ws.skip(1), n),
    decreases n,
{
    if n > 0 {
        lemma_sum_skip(ws, n - 1);
        assert(ws.skip(1)[n - 1] == ws[n]);
    } else {
        assert(sum_to(ws, 0) == 0);
        assert(sum_to(ws, 1) == ws[0]);
    }
}

/// A slot holds exactly the tickets between the sums of the weights in front
/// of it and up to it.
proof fn lemma_slot(ws: Seq<int>, t: int, k: int)
    requires
        0 <= k < ws.len(),
        forall|i: int| 0 <= i < ws.len() ==> #[trigger] ws[i] >= 1,
        sum_to(ws, k) <= t < sum_to(ws, k + 1),
    ensures
        slot(ws, t) == k,
    decreases k,
{
    if k > 0 {
        lemma_sum_grows(ws, 1, k);
        assert(sum_to(ws, 1) == sum_to(ws, 0) + ws[0]);
        lemma_sum_skip(ws, k - 1);
        lemma_sum_skip(ws, k);
        assert forall|i: int| 0 <= i < ws.skip(1).len() implies #[trigger] ws.skip(1)[i] >= 1 by {
            assert(ws.skip(1)[i] == ws[i + 1]);
        }
        lemma_slot(ws.skip(1), t - ws[0], k - 1);
    } else {
        assert(sum_to(ws, 1) == sum_to(ws, 0) + ws[0]);
    }
}

fn excluded(exclude: &Vec<String>, addr: &str) -> (r: bool)
    ensures
        r == views(exclude@).contains(addr@),
{
    let ghost all = views(exclude@);
    let mut i: usize = 0;
    while i < exclude.len()
        invariant
            i <= exclude@.len(),
            all == views(exclude@),
            forall|k: int| 0 <= k < i ==> all[k] != addr@,
        decreases exclude@.len() - i,
    {
        if same(exclude[i].as_str(), addr) {
            assert(all[i as int] == addr@);
            return true;
        }
        i = i + 1;
    }
    false
}

/// Positions as mathematical integers.
pub open spec fn positions(v: Seq<usize>) -> Seq<int> {
    v.map_values(|i: usize| i as int)
}

impl Balancer {
    fn pool(&self, backup: bool, exclude: &Vec<String>, now: u64) -> (pool: Vec<usize>)
        ensures
            positions(pool@) == pool_of(
                self@.peers,
                self@.peers.len() as int,
                backup,
                views(exclude@),
                now,
            ),
    {
        let ghost ps = self@.peers;
        let mut pool: Vec<usize> = Vec::new();
        let mut i: usize = 0;
        assert(positions(pool@) =~= seq![]);
        while i < self.peers.len()
            invariant
                i <= self.peers@.len(),
                ps == views(self.peers@),
                positions(pool@) == pool_of(ps, i as int, backup, views(exclude@), now),
            decreases self.peers@.len() - i,
        {
            let p = &self.peers[i];
            assert(ps[i as int] == p@);
            let ghost before = pool@;
            if p.backup == backup && p.is_available(now) && !excluded(exclude, p.addr.as_str()) {
                pool.push(i);
                assert(positions(pool@) =~= positions(before).push(i as int));
            }
            i = i + 1;
        }
        pool
    }

    /// Pick one of the peers at the positions in `pool` by weighted round-robin.
    pub fn pick_weighted_rr(&mut self, pool: &Vec<usize>) -> (r: Option<usize>)
        requires
            forall|k: int| 0 <= k < pool@.len() ==> #[trigger] pool@[k] < old(self).peers@.len(),
        ensures
            match rr_choice(weights(old(self)@.peers, positions(pool@)), old(self).rr_counter) {
                Some(k) => 0 <= k < pool@.len() && r == Some(pool@[k]) && final(self)@ == (BalancerV {
                    rr_counter: old(self).rr_counter.wrapping_add(1),
                    ..old(self)@
                }),
                None => r is None && final(self)@ == old(self)@,
            },
            final(self).peers@ == old(self).peers@,
    {
        let ghost ps = self@.peers;
        let ghost ws = weights(ps, positions(pool@));
        let mut total: u32 = 0;
        let mut i: usize = 0;
        while i < pool.len()
            invariant
                i <= pool@.len(),
                ps == views(self.peers@),
                *self == *old(self),
                ws == weights(ps, positions(pool@)),
                forall|k: int| 0 <= k < pool@.len() ==> #[trigger] pool@[k] < self.peers@.len(),
                total == sum_to(ws, i as int) % 0x1_0000_0000,
            decreases pool@.len() - i,
        {
            let p = &self.peers[pool[i]];
            assert(ps[pool@[i as int] as int] == p@);
            let w: u32 = if p.weight < 1 { 1 } else { p.weight };
            assert(ws[i as int] == w);
            total = total.wrapping_add(w);
            i = i + 1;
        }
        if total == 0 {
            return None;
        }
        let counter: usize = self.rr_counter;
        self.rr_counter = counter.wrapping_add(1);
        let ticket: u32 = (counter as u64 % 0x1_0000_0000) as u32;
        let mut target: u32 = ticket % total;
        let ghost start = target;
        let mut k: usize = 0;
        proof {
            lemma_sum_grows(ws, 0, 0);
            let whole = sum_to(ws, pool@.len() as int);
            lemma_sum_grows(ws, 0, pool@.len() as int);
            assert(whole % 0x1_0000_0000 <= whole);
        }
        while k < pool.len()
            invariant
                k <= pool@.len(),
                self.peers@ == old(self).peers@,
                self@ == (BalancerV {
                    rr_counter: old(self).rr_counter.wrapping_add(1),
                    ..old(self)@
                }),
                ps == views(self.peers@),
                ws == weights(ps, positions(pool@)),
                forall|j: int| 0 <= j < pool@.len() ==> #[trigger] pool@[j] < self.peers@.len(),
                target == start - sum_to(ws, k as int),
                total == sum_to(ws, pool@.len() as int) % 0x1_0000_0000,
                total != 0,
                ps == old(self)@.peers,
                start == (old(self).rr_counter as int % 0x1_0000_0000) % (total as int),
                start < sum_to(ws, pool@.len() as int),
            decreases pool@.len() - k,
        {
            let p = &self.peers[pool[k]];
            assert(ps[pool@[k as int] as int] == p@);
            let w: u32 = if p.weight < 1 { 1 } else { p.weight };
            assert(ws[k as int] == w);
            assert(sum_to(ws, k + 1) == sum_to(ws, k as int) + w);
            if w > target {
                proof {
                    lemma_slot(ws, start as int, k as int);
                }
                return Some(pool[k]);
            }
            target = target - w;
            k = k + 1;
        }
        None
    }

    fn pick_least_conn(&self, pool: &Vec<usize>) -> (r: usize)
        requires
            pool@.len() > 0,
            forall|k: int| 0 <= k < pool@.len() ==> #[trigger] pool@[k] < self.peers@.len(),
        ensures
            0 <= least(self@.peers, positions(pool@), pool@.len() as int) < pool@.len(),
            r == pool@[least(self@.peers, positions(pool@), pool@.len() as int)],
    {
        let ghost ps = self@.peers;
        let ghost ix = positions(pool@);
        let mut best: usize = 0;
        let mut score: u64 = self.load(pool[0]);
        let mut i: usize = 1;
        while i < pool.len()
            invariant
                1 <= i <= pool@.len(),
                ps == views(self.peers@),
                ps == self@.peers,
                ix == positions(pool@),
                forall|k: int| 0 <= k < pool@.len() ==> #[trigger] pool@[k] < self.peers@.len(),
                best < i,
                best == least(ps, ix, i as int),
                score == load_of(ps[ix[best as int]]),
            decreases pool@.len() - i,
        {
            let s = self.load(pool[i]);
            if s < score {
                best = i;
                score = s;
            }
            i = i + 1;
        }
        pool[best]
    }

    /// Score = in_flight * 1_000_000 / weight. Lower is better.
    fn load(&self, i: usize) -> (s: u64)
        requires
            i < self.peers@.len(),
        ensures
            s == load_of(self@.peers[i as int]),
    {
        let p = &self.peers[i];
        assert(self@.peers[i as int] == p@);
        let w: u64 = if p.weight < 1 { 1 } else { p.weight as u64 };
        (p.in_flight as u64 * 1_000_000) / w
    }

    fn pick_ip_hash(&self, pool: &Vec<usize>, client_ip: IpAddr) -> (r: usize)
        requires
            pool@.len() > 0,
        ensures
            r == pool@[(client_hash(client_ip) as usize) as int % pool@.len() as int],
    {
        let variant: u8 = match client_ip {
            IpAddr::V4(_) => 0,
            IpAddr::V6(_) => 1,
        };
        let mut word: Vec<u8> = Vec::new();
        word.push(variant);
        while word.len() < (usize::BITS / 8) as usize
            invariant
                1 <= word@.len() <= usize::BITS / 8,
                word@[0] == variant,
                forall|k: int| 0 < k < word@.len() ==> word@[k] == 0,
            decreases usize::BITS / 8 - word@.len(),
        {
            word.push(0);
        }
        let bytes = client_ip.octets();
        let mut hasher = DefaultHasher::new();
        hasher.write(word.as_slice());
        hasher.write(bytes.as_slice());
        let h: u64 = hasher.finish();
        assert(word@ =~= variant_word(client_ip));
        assert(hasher@ =~= seq![variant_word(client_ip), client_ip.bytes()]);
        #[verifier::truncate]
        let n: usize = h as usize;
        pool[n % pool.len()]
    }

    /// Pick a peer at `now`, leaving out the addresses in `exclude`.
    pub fn pick_at(&mut self, client_ip: IpAddr, exclude: &Vec<String>, now: u64) -> (r: Option<
        usize,
    >)
        ensures
            match r {
                Some(i) => i < old(self).peers@.len() && picked(
                    old(self)@,
                    client_ip,
                    views(exclude@),
                    now,
                ) == Some(i as int),
                None => picked(old(self)@, client_ip, views(exclude@), now) is None,
            },
            final(self)@ == advanced(old(self)@, client_ip, views(exclude@), now),
            final(self).peers@ == old(self).peers@,
    {
        let ghost b = self@;
        let ghost ex = views(exclude@);
        let ghost n = b.peers.len() as int;
        proof {
            lemma_pool_bounds(b.peers, n, false, ex, now);
            lemma_pool_bounds(b.peers, n, true, ex, now);
        }
        let mut pool = self.pool(false, exclude, now);
        if pool.len() == 0 {
            pool = self.pool(true, exclude, now);
        }
        let ghost ix = positions(pool@);
        assert(ix == candidates(b.peers, ex, now));
        if pool.len() == 0 {
            return None;
        }
        assert forall|k: int| 0 <= k < pool@.len() implies #[trigger] pool@[k] < self.peers@.len() by {
            assert(ix[k] == pool@[k]);
        }
        match self.method {
            LbMethod::RoundRobin => self.pick_weighted_rr(&pool),
            LbMethod::LeastConn => {
                let r = self.pick_least_conn(&pool);
                Some(r)
            },
            LbMethod::IpHash => {
                let r = self.pick_ip_hash(&pool, client_ip);
                Some(r)
            },
        }
    }

    fn pick_inner(&mut self, client_ip: IpAddr, exclude: &Vec<String>) -> (r: Option<usize>)
        ensures
            r matches Some(i) ==> i < old(self).peers@.len(),
            final(self).peers@ == old(self).peers@,
            exists|now: u64|
                #![trigger picked(old(self)@, client_ip, views(exclude@), now)]
                picked(old(self)@, client_ip, views(exclude@), now) == opt_int(r) && final(self)@
                    == advanced(old(self)@, client_ip, views(exclude@), now),
    {
        let now = now_ms();
        let r = self.pick_at(client_ip, exclude, now);
        assert(picked(old(self)@, client_ip, views(exclude@), now) == opt_int(r));
        r
    }

    /// HTTP entry point: pick using the request context (for `ip_hash`).
    pub fn pick(&mut self, ctx: &RequestCtx<'_>) -> (r: Option<usize>)
        ensures
            r matches Some(i) ==> i < old(self).peers@.len(),
            final(self).peers@ == old(self).peers@,
            exists|now: u64|
                #![trigger picked(old(self)@, ctx.peer.ip, seq![], now)]
                picked(old(self)@, ctx.peer.ip, seq![], now) == opt_int(r) && final(self)@
                    == advanced(old(self)@, ctx.peer.ip, seq![], now),
    {
        let none: Vec<String> = Vec::new();
        assert(views(none@) =~= seq![]);
        self.pick_inner(ctx.peer.ip, &none)
    }

    /// HTTP retry entry point: pick excluding peers that already failed for
    /// this request.
    pub fn pick_excluding(&mut self, ctx: &RequestCtx<'_>, exclude: &Vec<String>) -> (r: Option<
        usize,
    >)
        ensures
            r matches Some(i) ==> i < old(self).peers@.len(),
            final(self).peers@ == old(self).peers@,
            exists|now: u64|
                #![trigger picked(old(self)@, ctx.peer.ip, views(exclude@), now)]
                picked(old(self)@, ctx.peer.ip, views(exclude@), now) == opt_int(r) && final(self)@
                    == advanced(old(self)@, ctx.peer.ip, views(exclude@), now),
    {
        self.pick_inner(ctx.peer.ip, exclude)
    }

    /// Stream entry point: pick using only the client's IP address (no HTTP
    /// request context exists).
    pub fn pick_for_addr(&mut self, client_ip: IpAddr) -> (r: Option<usize>)
        ensures
            r matches Some(i) ==> i < old(self).peers@.len(),
            final(self).peers@ == old(self).peers@,
            exists|now: u64|
                #![trigger picked(old(self)@, client_ip, seq![], now)]
                picked(old(self)@, client_ip, seq![], now) == opt_int(r) && final(self)@ == advanced(
                    old(self)@,
                    client_ip,
                    seq![],
                    now,
                ),
    {
        let none: Vec<String> = Vec::new();
        assert(views(none@) =~= seq![]);
        self.pick_inner(client_ip, &none)
    }
}

/// The balancer with one more request in flight at peer `i`.
pub open spec fn with_entered(b: BalancerV, i: int) -> BalancerV {
    BalancerV { peers: b.peers.update(i, entered(b.peers[i])), ..b }
}

/// The balancer after an exchange with peer `i` has ended at `now`: the request
/// is no longer in flight, and the peer's health reflects the outcome.
pub open spec fn with_settled(b: BalancerV, i: int, ok: bool, now: u64) -> BalancerV {
    let p = if ok {
        recovered(b.peers[i])
    } else {
        failed(b.peers[i], now)
    };
    BalancerV { peers: b.peers.update(i, left(p)), ..b }
}

impl Balancer {
    /// Count one more request in flight at peer `i`. The returned token ends it
    /// through [`Balancer::settle`].
    pub fn enter(&mut self, i: usize) -> (g: InflightGuard)
        requires
            i < old(self).peers@.len(),
        ensures
            final(self)@ == with_entered(old(self)@, i as int),
            final(self).peers@.len() == old(self).peers@.len(),
    {
        let ghost before = self.peers@;
        let ghost b = self@;
        let g = self.peers[i].enter();
        proof {
            assert(b.peers[i as int] == before[i as int]@);
            assert(self@.peers =~= with_entered(b, i as int).peers);
        }
        g
    }

    /// End an exchange with peer `i`, and record how it went.
    pub fn settle(&mut self, i: usize, token: InflightGuard, ok: bool)
        requires
            i < old(self).peers@.len(),
        ensures
            exists|now: u64|
                final(self)@ == #[trigger] with_settled(old(self)@, i as int, ok, now),
            final(self).peers@.len() == old(self).peers@.len(),
    {
        let now = now_ms();
        self.settle_at(i, token, ok, now);
    }

    /// End an exchange with peer `i` at `now`, and record how it went.
    pub fn settle_at(&mut self, i: usize, token: InflightGuard, ok: bool, now: u64)
        requires
            i < old(self).peers@.len(),
        ensures
            final(self)@ == with_settled(old(self)@, i as int, ok, now),
            final(self).peers@.len() == old(self).peers@.len(),
    {
        let ghost before = self.peers@;
        let ghost b = self@;
        if ok {
            self.peers[i].record_success();
        } else {
            self.peers[i].record_failure_at(now);
        }
        token.release(&mut self.peers[i]);
        proof {
            assert(b.peers[i as int] == before[i as int]@);
            assert(self@.peers =~= with_settled(b, i as int, ok, now).peers);
        }
    }
}

/// A position as a mathematical integer.
pub open spec fn opt_int(r: Option<usize>) -> Option<int> {
    match r {
        Some(i) => Some(i as int),
        None => None,
    }
}

// ---------------------------------------------------------------------------
// Laws
// ---------------------------------------------------------------------------

/// Whoever is picked is available and not excluded; in particular a peer that
/// is marked down, or still in its cooldown, is never picked.
pub proof fn law_picked_is_available(b: BalancerV, ip: IpAddr, exclude: Seq<Seq<char>>, now: u64)
    ensures
        picked(b, ip, exclude, now) matches Some(i) ==> 0 <= i < b.peers.len() && available(
            b.peers[i],
            now,
        ) && !exclude.contains(b.peers[i].addr),
{
    lemma_choice_in_pool(b, ip, exclude, now);
}

pub proof fn lemma_choice_in_pool(b: BalancerV, ip: IpAddr, exclude: Seq<Seq<char>>, now: u64)
    ensures
        picked(b, ip, exclude, now) matches Some(i) ==> 0 <= i < b.peers.len() && (eligible(
            b.peers[i],
            false,
            exclude,
            now,
        ) || (eligible(b.peers[i], true, exclude, now) && pool_of(
            b.peers,
            b.peers.len() as int,
            false,
            exclude,
            now,
        ).len() == 0)),
{
    let n = b.peers.len() as int;
    lemma_pool_bounds(b.peers, n, false, exclude, now);
    lemma_pool_bounds(b.peers, n, true, exclude, now);
    let pool = candidates(b.peers, exclude, now);
    if pool.len() > 0 {
        let ws = weights(b.peers, pool);
        match b.method {
            LbMethod::RoundRobin => {
                let whole = sum_to(ws, ws.len() as int);
                let total = whole % 0x1_0000_0000;
                if total != 0 {
                    lemma_sum_grows(ws, 0, ws.len() as int);
                    let t = (b.rr_counter as int % 0x1_0000_0000) % total;
                    lemma_slot_bound(ws, t);
                    assert(pool[slot(ws, t)] == pool[slot(ws, t)]);
                }
            },
            LbMethod::LeastConn => {
                lemma_least_bound(b.peers, pool, pool.len() as int);
                let k = least(b.peers, pool, pool.len() as int);
                assert(pool[k] == pool[k]);
            },
            LbMethod::IpHash => {
                let k = (client_hash(ip) as usize) as int % pool.len() as int;
                assert(pool[k] == pool[k]);
            },
        }
    }
}

proof fn lemma_slot_bound(ws: Seq<int>, t: int)
    requires
        ws.len() > 0,
        forall|i: int| 0 <= i < ws.len() ==> #[trigger] ws[i] >= 1,
        0 <= t < sum_to(ws, ws.len() as int),
    ensures
        0 <= slot(ws, t) < ws.len(),
    decreases ws.len(),
{
    if t >= ws[0] {
        assert forall|i: int| 0 <= i < ws.skip(1).len() implies #[trigger] ws.skip(1)[i] >= 1 by {
            assert(ws.skip(1)[i] == ws[i + 1]);
        }
        lemma_sum_skip(ws, ws.len() - 1);
        if ws.len() == 1 {
            assert(sum_to(ws.skip(1), 0) == 0);
        } else {
            lemma_slot_bound(ws.skip(1), t - ws[0]);
        }
    }
}

proof fn lemma_least_bound(peers: Seq<PeerV>, pool: Seq<int>, n: int)
    requires
        1 <= n,
    ensures
        0 <= least(peers, pool, n) < n,
    decreases n,
{
    if n > 1 {
        lemma_least_bound(peers, pool, n - 1);
    }
}

/// A backup is picked only when no primary is eligible.
pub proof fn law_backup_only_without_primaries(
    b: BalancerV,
    ip: IpAddr,
    exclude: Seq<Seq<char>>,
    now: u64,
    j: int,
)
    requires
        0 <= j < b.peers.len(),
        eligible(b.peers[j], false, exclude, now),
    ensures
        picked(b, ip, exclude, now) matches Some(i) ==> !b.peers[i].backup,
{
    lemma_choice_in_pool(b, ip, exclude, now);
    lemma_pool_complete(b.peers, b.peers.len() as int, false, exclude, now, j);
}

proof fn lemma_pool_complete(
    peers: Seq<PeerV>,
    n: int,
    backup: bool,
    exclude: Seq<Seq<char>>,
    now: u64,
    j: int,
)
    requires
        0 <= j < n <= peers.len(),
        eligible(peers[j], backup, exclude, now),
    ensures
        pool_of(peers, n, backup, exclude, now).len() > 0,
    decreases n,
{
    if j < n - 1 {
        lemma_pool_complete(peers, n - 1, backup, exclude, now, j);
    }
}

/// There is a pick whenever some peer is eligible. Round-robin fails only when
/// the weights add up to a multiple of 2^32.
pub proof fn law_some_peer_is_picked(
    b: BalancerV,
    ip: IpAddr,
    exclude: Seq<Seq<char>>,
    now: u64,
    j: int,
)
    requires
        0 <= j < b.peers.len(),
        available(b.peers[j], now),
        !exclude.contains(b.peers[j].addr),
        b.method == LbMethod::RoundRobin ==> sum_to(
            weights(b.peers, candidates(b.peers, exclude, now)),
            candidates(b.peers, exclude, now).len() as int,
        ) % 0x1_0000_0000 != 0,
    ensures
        picked(b, ip, exclude, now) is Some,
{
    lemma_pool_complete(b.peers, b.peers.len() as int, b.peers[j].backup, exclude, now, j);
}

/// How many of the tickets below `n` fall on slot `k`.
spec fn hits(ws: Seq<int>, k: int, n: int) -> int
    decreases n,
{
    if n <= 0 {
        0
    } else {
        hits(ws, k, n - 1) + (if slot(ws, n - 1) == k {
            1int
        } else {
            0
        })
    }
}

/// In one full round of tickets every slot is hit as often as its weight says.
proof fn lemma_round_of_tickets(ws: Seq<int>, k: int)
    requires
        forall|i: int| 0 <= i < ws.len() ==> #[trigger] ws[i] >= 1,
        0 <= k < ws.len(),
    ensures
        hits(ws, k, sum_to(ws, ws.len() as int)) == ws[k],
{
    lemma_sum_grows(ws, 0, ws.len() as int);
    lemma_hits(ws, k, sum_to(ws, ws.len() as int));
    lemma_sum_grows(ws, k, k + 1);
    lemma_sum_grows(ws, k + 1, ws.len() as int);
    assert(sum_to(ws, k + 1) == sum_to(ws, k) + ws[k]);
}

proof fn lemma_hits(ws: Seq<int>, k: int, n: int)
    requires
        forall|i: int| 0 <= i < ws.len() ==> #[trigger] ws[i] >= 1,
        0 <= k < ws.len(),
        0 <= n <= sum_to(ws, ws.len() as int),
    ensures
        hits(ws, k, n) == (if n <= sum_to(ws, k) {
            0
        } else if n >= sum_to(ws, k + 1) {
            ws[k]
        } else {
            n - sum_to(ws, k)
        }),
    decreases n,
{
    assert(sum_to(ws, k + 1) == sum_to(ws, k) + ws[k]);
    lemma_sum_grows(ws, 0, k);
    if n > 0 {
        lemma_hits(ws, k, n - 1);
        if sum_to(ws, k) <= n - 1 < sum_to(ws, k + 1) {
            lemma_slot(ws, n - 1, k);
        } else {
            let j = lemma_find_slot(ws, n - 1, ws.len() as int);
            lemma_slot(ws, n - 1, j);
        }
    }
}

/// The slot whose range of tickets holds `t`.
proof fn lemma_find_slot(ws: Seq<int>, t: int, n: int) -> (j: int)
    requires
        forall|i: int| 0 <= i < ws.len() ==> #[trigger] ws[i] >= 1,
        0 <= n <= ws.len(),
        0 <= t < sum_to(ws, n),
    ensures
        0 <= j < n,
        sum_to(ws, j) <= t < sum_to(ws, j + 1),
    decreases n,
{
    if t >= sum_to(ws, n - 1) {
        n - 1
    } else {
        lemma_find_slot(ws, t, n - 1)
    }
}

/// Round-robin serves the peers of a pool in the order of consecutive tickets:
/// while the health of the peers does not change, the pick that finds the
/// counter at `c`, reduced to 32 bits, falls on slot `c` modulo the total weight.
pub proof fn law_round_robin_follows_counter(
    b: BalancerV,
    ip: IpAddr,
    exclude: Seq<Seq<char>>,
    now: u64,
    c: usize,
)
    requires
        b.method == LbMethod::RoundRobin,
        b.rr_counter == c,
        candidates(b.peers, exclude, now).len() > 0,
        sum_to(
            weights(b.peers, candidates(b.peers, exclude, now)),
            candidates(b.peers, exclude, now).len() as int,
        ) < 0x1_0000_0000,
    ensures
        ({
            let pool = candidates(b.peers, exclude, now);
            let ws = weights(b.peers, pool);
            let total = sum_to(ws, ws.len() as int);
            total > 0 && picked(b, ip, exclude, now) == Some(
                pool[slot(ws, (c as int % 0x1_0000_0000) % total)],
            )
        }),
        advanced(b, ip, exclude, now).rr_counter == c + 1 || c == usize::MAX,
        advanced(b, ip, exclude, now).peers == b.peers,
{
    let pool = candidates(b.peers, exclude, now);
    let ws = weights(b.peers, pool);
    lemma_sum_grows(ws, ws.len() as int, ws.len() as int);
}

/// How often peer `i` is picked when `n` picks follow one another.
pub open spec fn times_picked(
    b: BalancerV,
    ip: IpAddr,
    exclude: Seq<Seq<char>>,
    now: u64,
    i: int,
    n: int,
) -> int
    decreases n,
{
    if n <= 0 {
        0
    } else {
        (if picked(b, ip, exclude, now) == Some(i) {
            1int
        } else {
            0
        }) + times_picked(advanced(b, ip, exclude, now), ip, exclude, now, i, n - 1)
    }
}

/// Whether the tickets of `n` picks from `counter` on follow one another in rounds
/// of `total`: they do not reach 2^32, or rounds end there.
pub open spec fn unbroken(counter: usize, n: int, total: int) -> bool {
    counter as int % 0x1_0000_0000 + n <= 0x1_0000_0000 || 0x1_0000_0000int % total == 0
}

proof fn lemma_unbroken(counter: usize, n: int, total: int)
    requires
        n > 1,
        total > 0,
        unbroken(counter, n, total),
    ensures
        unbroken(counter.wrapping_add(1), n - 1, total),
        (counter.wrapping_add(1) as int % 0x1_0000_0000) % total == (counter as int % 0x1_0000_0000
            + 1) % total,
{
    let c = counter as int % 0x1_0000_0000;
    let d = counter.wrapping_add(1) as int % 0x1_0000_0000;
    if c + 1 < 0x1_0000_0000 {
        assert(d == c + 1);
    } else {
        assert(d == 0);
        vstd::arithmetic::div_mod::lemma_small_mod(0, total as nat);
    }
}

/// Weighted round-robin respects the weights: while the health of the peers does
/// not change, as many picks in a row as the weights add up to fall on each peer
/// of the pool as often as its weight says, wherever the counter stands. Tickets
/// are 32 bits of the counter: it must not pass a multiple of 2^32 in the middle of
/// a round.
pub proof fn law_weighted_share(
    b: BalancerV,
    ip: IpAddr,
    exclude: Seq<Seq<char>>,
    now: u64,
    k: int,
)
    requires
        b.method == LbMethod::RoundRobin,
        0 <= k < candidates(b.peers, exclude, now).len(),
        total_weight(b.peers, exclude, now) <= u32::MAX,
        unbroken(
            b.rr_counter,
            total_weight(b.peers, exclude, now),
            total_weight(b.peers, exclude, now),
        ),
    ensures
        ({
            let i = candidates(b.peers, exclude, now)[k];
            times_picked(b, ip, exclude, now, i, total_weight(b.peers, exclude, now)) == weight_of(
                b.peers[i],
            )
        }),
{
    let pool = candidates(b.peers, exclude, now);
    let ws = weights(b.peers, pool);
    let total = total_weight(b.peers, exclude, now);
    let c = b.rr_counter as int % 0x1_0000_0000;
    lemma_total_positive(ws, ws.len() as int);
    lemma_times_picked(b, ip, exclude, now, k, total);
    lemma_any_start(ws, k, c);
    lemma_from_zero(ws, k, total);
    lemma_round_of_tickets(ws, k);
}

/// The weights of the peers to choose from, together.
pub open spec fn total_weight(peers: Seq<PeerV>, exclude: Seq<Seq<char>>, now: u64) -> int {
    let ws = weights(peers, candidates(peers, exclude, now));
    sum_to(ws, ws.len() as int)
}

proof fn lemma_total_positive(ws: Seq<int>, n: int)
    requires
        0 <= n <= ws.len(),
        forall|i: int| 0 <= i < ws.len() ==> #[trigger] ws[i] >= 1,
    ensures
        sum_to(ws, n) >= n,
    decreases n,
{
    if n > 0 {
        lemma_total_positive(ws, n - 1);
    }
}

/// Whether ticket `t`, reduced to one round, falls on slot `k`.
spec fn falls_on(ws: Seq<int>, k: int, t: int) -> int {
    if slot(ws, t % sum_to(ws, ws.len() as int)) == k {
        1
    } else {
        0
    }
}

/// How many of the `n` tickets from `c` on fall on slot `k`.
spec fn hits_from(ws: Seq<int>, k: int, c: int, n: int) -> int
    decreases n,
{
    if n <= 0 {
        0
    } else {
        falls_on(ws, k, c) + hits_from(ws, k, c + 1, n - 1)
    }
}

proof fn lemma_last_ticket(ws: Seq<int>, k: int, c: int, n: int)
    requires
        n >= 0,
    ensures
        hits_from(ws, k, c, n + 1) == hits_from(ws, k, c, n) + falls_on(ws, k, c + n),
    decreases n,
{
    if n > 0 {
        lemma_last_ticket(ws, k, c + 1, n - 1);
    } else {
        assert(hits_from(ws, k, c + 1, 0) == 0);
    }
}

proof fn lemma_same_residue(ws: Seq<int>, k: int, c: int, d: int, n: int)
    requires
        sum_to(ws, ws.len() as int) > 0,
        c % sum_to(ws, ws.len() as int) == d % sum_to(ws, ws.len() as int),
    ensures
        hits_from(ws, k, c, n) == hits_from(ws, k, d, n),
    decreases n,
{
    if n > 0 {
        let total = sum_to(ws, ws.len() as int);
        vstd::arithmetic::div_mod::lemma_add_mod_noop(c, 1, total);
        vstd::arithmetic::div_mod::lemma_add_mod_noop(d, 1, total);
        lemma_same_residue(ws, k, c + 1, d + 1, n - 1);
    }
}

/// A full round hits every slot equally often wherever it starts.
proof fn lemma_any_start(ws: Seq<int>, k: int, c: int)
    requires
        c >= 0,
        sum_to(ws, ws.len() as int) > 0,
    ensures
        hits_from(ws, k, c, sum_to(ws, ws.len() as int)) == hits_from(
            ws,
            k,
            0,
            sum_to(ws, ws.len() as int),
        ),
    decreases c,
{
    let total = sum_to(ws, ws.len() as int);
    if c > 0 {
        lemma_any_start(ws, k, c - 1);
        lemma_last_ticket(ws, k, c, total - 1);
        vstd::arithmetic::div_mod::lemma_mod_add_multiples_vanish(c - 1, total);
        assert((c + (total - 1)) % total == (c - 1) % total);
    }
}

proof fn lemma_from_zero(ws: Seq<int>, k: int, n: int)
    requires
        0 <= n <= sum_to(ws, ws.len() as int),
    ensures
        hits_from(ws, k, 0, n) == hits(ws, k, n),
    decreases n,
{
    if n > 0 {
        lemma_from_zero(ws, k, n - 1);
        lemma_last_ticket(ws, k, 0, n - 1);
        vstd::arithmetic::div_mod::lemma_small_mod((n - 1) as nat, sum_to(ws, ws.len() as int) as nat);
    }
}

pub proof fn lemma_pool_ascends(
    peers: Seq<PeerV>,
    n: int,
    backup: bool,
    exclude: Seq<Seq<char>>,
    now: u64,
)
    requires
        0 <= n <= peers.len(),
    ensures
        forall|i: int, j: int|
            0 <= i < j < pool_of(peers, n, backup, exclude, now).len() ==> (#[trigger] pool_of(
                peers,
                n,
                backup,
                exclude,
                now,
            )[i]) < #[trigger] pool_of(peers, n, backup, exclude, now)[j],
    decreases n,
{
    if n > 0 {
        lemma_pool_ascends(peers, n - 1, backup, exclude, now);
        lemma_pool_bounds(peers, n - 1, backup, exclude, now);
    }
}

proof fn lemma_times_picked(
    b: BalancerV,
    ip: IpAddr,
    exclude: Seq<Seq<char>>,
    now: u64,
    k: int,
    n: int,
)
    requires
        b.method == LbMethod::RoundRobin,
        0 <= k < candidates(b.peers, exclude, now).len(),
        total_weight(b.peers, exclude, now) <= u32::MAX,
        0 <= n,
        unbroken(b.rr_counter, n, total_weight(b.peers, exclude, now)),
    ensures
        times_picked(b, ip, exclude, now, candidates(b.peers, exclude, now)[k], n) == hits_from(
            weights(b.peers, candidates(b.peers, exclude, now)),
            k,
            b.rr_counter as int % 0x1_0000_0000,
            n,
        ),
    decreases n,
{
    if n > 0 {
        let pool = candidates(b.peers, exclude, now);
        let ws = weights(b.peers, pool);
        let total = sum_to(ws, ws.len() as int);
        law_round_robin_follows_counter(b, ip, exclude, now, b.rr_counter);
        let next = advanced(b, ip, exclude, now);
        let c = b.rr_counter as int % 0x1_0000_0000;
        if n > 1 {
            lemma_unbroken(b.rr_counter, n, total);
            lemma_times_picked(next, ip, exclude, now, k, n - 1);
            lemma_same_residue(ws, k, next.rr_counter as int % 0x1_0000_0000, c + 1, n - 1);
        } else {
            assert(times_picked(next, ip, exclude, now, pool[k], 0) == 0);
            assert(hits_from(ws, k, c + 1, 0) == 0);
        }
        let j = slot(ws, c % total);
        lemma_total_positive(ws, ws.len() as int);
        let f = lemma_find_slot(ws, c % total, ws.len() as int);
        lemma_slot(ws, c % total, f);
        lemma_pool_ascends(b.peers, b.peers.len() as int, false, exclude, now);
        lemma_pool_ascends(b.peers, b.peers.len() as int, true, exclude, now);
        assert(pool[j] == pool[k] <==> j == k);
    }
}

/// How often slot `k` is chosen when `n` picks from one pool follow one another,
/// the first of which finds the counter at `counter`.
pub open spec fn times_chosen(ws: Seq<int>, counter: usize, k: int, n: int) -> int
    decreases n,
{
    if n <= 0 {
        0
    } else {
        (if rr_choice(ws, counter) == Some(k) {
            1int
        } else {
            0
        }) + times_chosen(ws, counter.wrapping_add(1), k, n - 1)
    }
}

/// Whether each of those picks chooses somebody.
pub open spec fn always_chosen(ws: Seq<int>, counter: usize, n: int) -> bool
    decreases n,
{
    n <= 0 || (rr_choice(ws, counter) is Some && always_chosen(ws, counter.wrapping_add(1), n - 1))
}

proof fn lemma_times_chosen(ws: Seq<int>, counter: usize, k: int, n: int)
    requires
        0 < sum_to(ws, ws.len() as int) <= u32::MAX,
        0 <= n,
        unbroken(counter, n, sum_to(ws, ws.len() as int)),
    ensures
        times_chosen(ws, counter, k, n) == hits_from(ws, k, counter as int % 0x1_0000_0000, n),
        always_chosen(ws, counter, n),
    decreases n,
{
    if n > 0 {
        let next = counter.wrapping_add(1);
        let c = counter as int % 0x1_0000_0000;
        if n > 1 {
            lemma_unbroken(counter, n, sum_to(ws, ws.len() as int));
            lemma_times_chosen(ws, next, k, n - 1);
            lemma_same_residue(ws, k, next as int % 0x1_0000_0000, c + 1, n - 1);
        } else {
            assert(times_chosen(ws, next, k, 0) == 0);
            assert(always_chosen(ws, next, 0));
            assert(hits_from(ws, k, c + 1, 0) == 0);
        }
    }
}

/// The same of the picks from one pool of whatever peers: in a round of as many
/// picks as the weights add up to, each slot of the pool is chosen as often as
/// its weight says, and no pick comes away with nobody.
pub proof fn law_round_of_picks(peers: Seq<PeerV>, pool: Seq<int>, counter: usize, k: int)
    requires
        0 <= k < pool.len(),
        sum_to(weights(peers, pool), pool.len() as int) <= u32::MAX,
        unbroken(
            counter,
            sum_to(weights(peers, pool), pool.len() as int),
            sum_to(weights(peers, pool), pool.len() as int),
        ),
    ensures
        ({
            let ws = weights(peers, pool);
            let round = sum_to(ws, pool.len() as int);
            &&& times_chosen(ws, counter, k, round) == weight_of(peers[pool[k]])
            &&& always_chosen(ws, counter, round)
        }),
{
    let ws = weights(peers, pool);
    let round = sum_to(ws, ws.len() as int);
    lemma_total_positive(ws, ws.len() as int);
    lemma_times_chosen(ws, counter, k, round);
    lemma_any_start(ws, k, counter as int % 0x1_0000_0000);
    lemma_from_zero(ws, k, round);
    lemma_round_of_tickets(ws, k);
}

/// With `ip_hash` a client sticks to one peer for as long as the pool of
/// candidates stays the same, whatever happens to counters and loads.
pub proof fn law_ip_hash_is_stable(
    a: BalancerV,
    b: BalancerV,
    ip: IpAddr,
    exclude: Seq<Seq<char>>,
    then: u64,
    now: u64,
)
    requires
        a.method == LbMethod::IpHash,
        b.method == LbMethod::IpHash,
        candidates(a.peers, exclude, then) == candidates(b.peers, exclude, now),
    ensures
        picked(a, ip, exclude, then) == picked(b, ip, exclude, now),
{
}

/// With `least_conn` nobody in the pool is less loaded than the peer that is
/// picked.
pub proof fn law_least_conn_picks_least_loaded(
    b: BalancerV,
    ip: IpAddr,
    exclude: Seq<Seq<char>>,
    now: u64,
    k: int,
)
    requires
        b.method == LbMethod::LeastConn,
        0 <= k < candidates(b.peers, exclude, now).len(),
    ensures
        picked(b, ip, exclude, now) matches Some(i) && load_of(b.peers[i]) <= load_of(
            b.peers[candidates(b.peers, exclude, now)[k]],
        ),
{
    lemma_least(
        b.peers,
        candidates(b.peers, exclude, now),
        candidates(b.peers, exclude, now).len() as int,
        k,
    );
}

proof fn lemma_least(peers: Seq<PeerV>, pool: Seq<int>, n: int, k: int)
    requires
        0 <= k < n,
    ensures
        load_of(peers[pool[least(peers, pool, n)]]) <= load_of(peers[pool[k]]),
    decreases n,
{
    if n > 1 {
        if k < n - 1 {
            lemma_least(peers, pool, n - 1, k);
        } else {
            lemma_least(peers, pool, n - 1, 0);
        }
    }
}

/// A success makes every peer that is not marked down available again.
pub proof fn law_success_ends_cooldown(p: PeerV, now: u64)
    requires
        !p.down,
    ensures
        available(recovered(p), now),
{
}

/// The failure that reaches the threshold takes a peer out until the cooldown
/// is over, and not beyond.
pub proof fn law_failures_start_cooldown(p: PeerV, at: u64, now: u64)
    requires
        !p.down,
        p.consecutive_failures + 1 >= threshold(p),
        p.consecutive_failures < u32::MAX,
        0 < at + p.fail_timeout.millis() <= u64::MAX,
    ensures
        available(failed(p, at), now) <==> now >= at + p.fail_timeout.millis(),
{
}

/// Fewer failures than the threshold leave a peer as available as it was.
pub proof fn law_few_failures_are_tolerated(p: PeerV, at: u64, now: u64)
    requires
        p.consecutive_failures + 1 < threshold(p),
    ensures
        available(failed(p, at), now) == available(p, now),
{
}

/// Whatever comes of an exchange, ending it restores the number of requests in
/// flight at the peer, and no other peer notices.
pub proof fn law_inflight_balances(b: BalancerV, i: int, ok: bool, now: u64)
    requires
        0 <= i < b.peers.len(),
    ensures
        left(entered(b.peers[i])) == b.peers[i],
        ({
            let after = with_settled(with_entered(b, i), i, ok, now);
            &&& after.peers.len() == b.peers.len()
            &&& after.peers[i].in_flight == b.peers[i].in_flight
            &&& forall|k: int| 0 <= k < b.peers.len() && k != i ==> after.peers[k] == b.peers[k]
        }),
{
}

} // verus!
