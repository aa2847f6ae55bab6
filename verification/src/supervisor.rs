//! What a configuration reload does to the running listeners: which stay, which
//! are closed, and which are opened. Binding sockets and running tasks is left
//! to the caller.

use crate::app::runtime::{ListenerCfg, ListenerCfgV};
use crate::net::SocketAddr;
use crate::text::views;
use vstd::prelude::*;

verus! {

/// Validate-then-swap: a new state displaces the running one only if it could
/// be built. Returns what runs from now on, and what was wrong with the new
/// one.
pub fn adopt<T>(running: T, built: Result<T, String>) -> (r: (T, Option<String>))
    ensures
        match built {
            Ok(new) => r == (new, None::<String>),
            Err(e) => r == (running, Some(e)),
        },
{
    match built {
        Ok(new) => (new, None),
        Err(e) => (running, Some(e)),
    }
}

/// A running HTTP listener.
#[derive(Debug, Clone, Copy, PartialEq, Eq, Structural)]
pub struct RunningHttp {
    pub addr: SocketAddr,
    pub tls: bool,
}

/// What becomes of a running HTTP listener.
#[derive(Debug, Clone, Copy, PartialEq, Eq, Structural)]
pub enum HttpChange {
    /// It is no longer in the configuration: drain and close it.
    Close,
    /// It takes over the new settings at this position; both sides are TLS, so
    /// its certificates are loaded anew.
    SwapWithCerts { new: usize },
    /// It takes over the new settings at this position; both sides are plain.
    Swap { new: usize },
    /// It takes over the new settings at this position, but TLS was toggled,
    /// which takes a restart.
    SwapTlsToggled { new: usize },
}

/// The last of the first `n` addresses that is `addr`, or `-1`.
pub open spec fn last_at(addrs: Seq<SocketAddr>, addr: SocketAddr, n: int) -> int
    decreases n,
{
    if n <= 0 {
        -1
    } else if addrs[n - 1] == addr {
        n - 1
    } else {
        last_at(addrs, addr, n - 1)
    }
}

fn find_addr(addrs: &Vec<SocketAddr>, addr: SocketAddr) -> (r: Option<usize>)
    ensures
        match r {
            Some(i) => i < addrs@.len() && last_at(addrs@, addr, addrs@.len() as int) == i,
            None => last_at(addrs@, addr, addrs@.len() as int) == -1,
        },
{
    let mut n: usize = addrs.len();
    while n > 0
        invariant
            n <= addrs@.len(),
            last_at(addrs@, addr, n as int) == last_at(addrs@, addr, addrs@.len() as int),
        decreases n,
    {
        if addrs[n - 1] == addr {
            return Some(n - 1);
        }
        n = n - 1;
    }
    None
}

/// The addresses of listeners.
pub open spec fn addresses(ls: Seq<ListenerCfgV>) -> Seq<SocketAddr> {
    ls.map_values(|l: ListenerCfgV| l.addr)
}

/// What becomes of a running HTTP listener when the configuration asks for
/// `new`.
pub open spec fn http_change(running: RunningHttp, new: Seq<ListenerCfgV>) -> HttpChange {
    let i = last_at(addresses(new), running.addr, new.len() as int);
    if i < 0 {
        HttpChange::Close
    } else if running.tls && new[i].tls_paths.len() > 0 {
        HttpChange::SwapWithCerts { new: i as usize }
    } else if running.tls != (new[i].tls_paths.len() > 0) {
        HttpChange::SwapTlsToggled { new: i as usize }
    } else {
        HttpChange::Swap { new: i as usize }
    }
}

fn listener_addresses(new: &Vec<ListenerCfg>) -> (r: Vec<SocketAddr>)
    ensures
        r@ == addresses(views(new@)),
{
    let mut r: Vec<SocketAddr> = Vec::new();
    let mut i: usize = 0;
    while i < new.len()
        invariant
            i <= new@.len(),
            r@.len() == i,
            forall|k: int| 0 <= k < i ==> (#[trigger] r@[k]) == new@[k].addr,
        decreases new@.len() - i,
    {
        r.push(new[i].addr);
        i = i + 1;
    }
    assert(r@ =~= addresses(views(new@)));
    r
}

/// What becomes of each running HTTP listener, in order.
pub fn reload_http(running: &Vec<RunningHttp>, new: &Vec<ListenerCfg>) -> (r: Vec<HttpChange>)
    ensures
        r@ == running@.map_values(|l: RunningHttp| http_change(l, views(new@))),
{
    let addrs = listener_addresses(new);
    let mut r: Vec<HttpChange> = Vec::new();
    let mut i: usize = 0;
    while i < running.len()
        invariant
            i <= running@.len(),
            r@.len() == i,
            addrs@ == addresses(views(new@)),
            forall|k: int|
                0 <= k < i ==> (#[trigger] r@[k]) == http_change(running@[k], views(new@)),
        decreases running@.len() - i,
    {
        let change = match find_addr(&addrs, running[i].addr) {
            None => HttpChange::Close,
            Some(j) => {
                assert(views(new@)[j as int] == new@[j as int]@);
                let tls = new[j].tls_paths.len() > 0;
                if running[i].tls && tls {
                    HttpChange::SwapWithCerts { new: j }
                } else if running[i].tls != tls {
                    HttpChange::SwapTlsToggled { new: j }
                } else {
                    HttpChange::Swap { new: j }
                }
            },
        };
        r.push(change);
        i = i + 1;
    }
    assert(r@ =~= running@.map_values(|l: RunningHttp| http_change(l, views(new@))));
    r
}

/// The positions among the first `n` wanted addresses that are to be opened:
/// those that nothing runs on. Where an address is wanted more than once, the
/// last one counts.
pub open spec fn opened(wanted: Seq<SocketAddr>, running: Seq<SocketAddr>, n: int) -> Seq<int>
    decreases n,
{
    if n <= 0 {
        seq![]
    } else {
        let before = opened(wanted, running, n - 1);
        if last_at(wanted, wanted[n - 1], wanted.len() as int) == n - 1 && last_at(
            running,
            wanted[n - 1],
            running.len() as int,
        ) < 0 {
            before.push(n - 1)
        } else {
            before
        }
    }
}

/// The positions among the wanted addresses that are to be opened.
pub fn to_open(wanted: &Vec<SocketAddr>, running: &Vec<SocketAddr>) -> (r: Vec<usize>)
    ensures
        r@.map_values(|i: usize| i as int) == opened(wanted@, running@, wanted@.len() as int),
{
    let mut r: Vec<usize> = Vec::new();
    let mut i: usize = 0;
    assert(r@.map_values(|i: usize| i as int) =~= seq![]);
    while i < wanted.len()
        invariant
            i <= wanted@.len(),
            r@.map_values(|i: usize| i as int) == opened(wanted@, running@, i as int),
        decreases wanted@.len() - i,
    {
        let last = match find_addr(wanted, wanted[i]) {
            Some(k) => k == i,
            None => false,
        };
        if last && find_addr(running, wanted[i]).is_none() {
            let ghost before = r@;
            r.push(i);
            assert(r@.map_values(|i: usize| i as int) =~= before.map_values(
                |i: usize| i as int,
            ).push(i as int));
        }
        i = i + 1;
    }
    r
}

/// A running L4 listener.
#[derive(Debug, Clone, Copy, PartialEq, Eq, Structural)]
pub struct RunningStream {
    pub addr: SocketAddr,
    pub udp: bool,
}

/// What becomes of a running L4 listener.
#[derive(Debug, Clone, Copy, PartialEq, Eq, Structural)]
pub enum StreamChange {
    /// It is no longer in the configuration: drain and close it.
    Close,
    /// It takes over the balancer of the new entry at this position.
    Swap { new: usize },
    /// The transport changed, which takes a restart: it stays as it is.
    Keep,
}

/// The addresses of L4 listeners.
pub open spec fn stream_addresses(new: Seq<(SocketAddr, usize, bool)>) -> Seq<SocketAddr> {
    new.map_values(|s: (SocketAddr, usize, bool)| s.0)
}

/// What becomes of a running L4 listener when the configuration asks for
/// `new`.
pub open spec fn stream_change(running: RunningStream, new: Seq<(SocketAddr, usize, bool)>) -> StreamChange {
    let i = last_at(stream_addresses(new), running.addr, new.len() as int);
    if i < 0 {
        StreamChange::Close
    } else if new[i].2 != running.udp {
        StreamChange::Keep
    } else {
        StreamChange::Swap { new: i as usize }
    }
}

/// What becomes of each running L4 listener, in order.
pub fn reload_stream(running: &Vec<RunningStream>, new: &Vec<(SocketAddr, usize, bool)>) -> (r: Vec<
    StreamChange,
>)
    ensures
        r@ == running@.map_values(|l: RunningStream| stream_change(l, new@)),
{
    let mut addrs: Vec<SocketAddr> = Vec::new();
    let mut j: usize = 0;
    while j < new.len()
        invariant
            j <= new@.len(),
            addrs@.len() == j,
            forall|k: int| 0 <= k < j ==> (#[trigger] addrs@[k]) == new@[k].0,
        decreases new@.len() - j,
    {
        addrs.push(new[j].0);
        j = j + 1;
    }
    assert(addrs@ =~= stream_addresses(new@));
    let mut r: Vec<StreamChange> = Vec::new();
    let mut i: usize = 0;
    while i < running.len()
        invariant
            i <= running@.len(),
            r@.len() == i,
            addrs@ == stream_addresses(new@),
            forall|k: int| 0 <= k < i ==> (#[trigger] r@[k]) == stream_change(running@[k], new@),
        decreases running@.len() - i,
    {
        let change = match find_addr(&addrs, running[i].addr) {
            None => StreamChange::Close,
            Some(k) => {
                if new[k].2 != running[i].udp {
                    StreamChange::Keep
                } else {
                    StreamChange::Swap { new: k }
                }
            },
        };
        r.push(change);
        i = i + 1;
    }
    assert(r@ =~= running@.map_values(|l: RunningStream| stream_change(l, new@)));
    r
}

// ---------------------------------------------------------------------------
// Laws
// ---------------------------------------------------------------------------

proof fn lemma_last_at(addrs: Seq<SocketAddr>, addr: SocketAddr, n: int)
    requires
        0 <= n <= addrs.len(),
    ensures
        -1 <= last_at(addrs, addr, n) < n,
        last_at(addrs, addr, n) >= 0 ==> addrs[last_at(addrs, addr, n)] == addr,
        forall|k: int|
            0 <= k < n && (#[trigger] addrs[k]) == addr ==> k <= last_at(addrs, addr, n),
    decreases n,
{
    if n > 0 {
        lemma_last_at(addrs, addr, n - 1);
    }
}

proof fn lemma_opened(wanted: Seq<SocketAddr>, running: Seq<SocketAddr>, n: int, k: int)
    requires
        0 <= k < n <= wanted.len(),
        last_at(wanted, wanted[k], wanted.len() as int) == k,
        last_at(running, wanted[k], running.len() as int) < 0,
    ensures
        opened(wanted, running, n).contains(k),
    decreases n,
{
    let all = opened(wanted, running, n);
    let before = opened(wanted, running, n - 1);
    if k == n - 1 {
        assert(all[before.len() as int] == k);
    } else {
        lemma_opened(wanted, running, n - 1, k);
        let i = choose|i: int| 0 <= i < before.len() && before[i] == k;
        assert(all[i] == k);
    }
}

/// After a reload every wanted address is served: something runs on it already
/// and takes over the new settings, or it is opened.
pub proof fn law_reload_serves_every_address(
    running: Seq<SocketAddr>,
    wanted: Seq<SocketAddr>,
    i: int,
)
    requires
        0 <= i < wanted.len(),
    ensures
        running.contains(wanted[i]) || opened(wanted, running, wanted.len() as int).contains(
            last_at(wanted, wanted[i], wanted.len() as int),
        ),
{
    let addr = wanted[i];
    lemma_last_at(wanted, addr, wanted.len() as int);
    lemma_last_at(running, addr, running.len() as int);
    let k = last_at(wanted, addr, wanted.len() as int);
    if last_at(running, addr, running.len() as int) < 0 {
        lemma_opened(wanted, running, wanted.len() as int, k);
    } else {
        let j = last_at(running, addr, running.len() as int);
        assert(running[j] == addr);
    }
}

/// A running listener is closed by a reload exactly when the configuration no
/// longer has its address.
pub proof fn law_reload_closes_only_what_is_gone(running: RunningHttp, new: Seq<ListenerCfgV>)
    ensures
        http_change(running, new) == HttpChange::Close <==> !addresses(new).contains(running.addr),
{
    let addrs = addresses(new);
    lemma_last_at(addrs, running.addr, new.len() as int);
    if addrs.contains(running.addr) {
        let k = choose|k: int| 0 <= k < addrs.len() && addrs[k] == running.addr;
        assert(addrs[k] == running.addr);
    }
}

} // verus!
