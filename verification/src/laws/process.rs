//! Laws on the process: its command line, its rights, its listeners at a reload, its
//! certificates, its probes and its streams.

use super::files::{is_text, lemma_text};
use crate::app::balance::{advanced, BalancerV, failed, PeerV, picked, with_entered};
use crate::app::runtime::ListenerCfgV;
use crate::cli::{command_of, CommandV};
use crate::health::{after_probe, probed};
use crate::http3::{body_too_large, cap_for};
use crate::metrics::Metrics;
use crate::net::{IpAddr, SocketAddr};
use crate::privilege::{ids_for, soft_limit};
use crate::stream::{balancer_opened, bytes_counted, Outcome};
use crate::supervisor::{
    addresses, http_change, HttpChange, last_at, opened, RunningHttp, RunningStream,
    stream_addresses, stream_change, StreamChange,
};
use crate::text::lower;
use crate::tls::{CertEntryV, chain_of, key_of, KeyFormat, last_named, names_host, presented};
use vstd::prelude::*;
use vstd::string::*;

verus! {

// ---------------------------------------------------------------------------
// Command line and rights
// ---------------------------------------------------------------------------

/// The command line is read from left to right: the last path that is named counts,
/// `-t` asks for a test, and a version, help, a missing path or an unknown word ends it.
#[verifier::rlimit(50)]
pub proof fn law_command_line(
    a: Seq<char>,
    path: Seq<char>,
    rest: Seq<Seq<char>>,
    config: Seq<char>,
    test_only: bool,
)
    ensures
        command_of(seq![], config, test_only) == (CommandV::Run { config, test_only }),
        a == seq!['-', 'c'] || a == "--config"@ ==> command_of(
            seq![a, path] + rest,
            config,
            test_only,
        ) == command_of(rest, path, test_only) && command_of(seq![a], config, test_only) is Usage,
        a == seq!['-', 't'] || a == "--test"@ ==> command_of(seq![a] + rest, config, test_only)
            == command_of(rest, config, true),
        a == seq!['-', 'v'] || a == "--version"@ ==> command_of(seq![a] + rest, config, test_only)
            is Version,
        a == seq!['-', 'h'] || a == "--help"@ ==> command_of(seq![a] + rest, config, test_only)
            is Help,
        a != seq!['-', 'c'] && a != "--config"@ && a != seq!['-', 't'] && a != "--test"@ && a
            != seq!['-', 'v'] && a != "--version"@ && a != seq!['-', 'h'] && a != "--help"@
            ==> command_of(seq![a] + rest, config, test_only) is Usage,
{
    reveal_strlit("-c");
    reveal_strlit("-t");
    reveal_strlit("-v");
    reveal_strlit("-h");
    reveal_strlit("--config");
    reveal_strlit("--test");
    reveal_strlit("--version");
    reveal_strlit("--help");
    assert("-c"@ =~= seq!['-', 'c']);
    assert("-t"@ =~= seq!['-', 't']);
    assert("-v"@ =~= seq!['-', 'v']);
    assert("-h"@ =~= seq!['-', 'h']);
    assert(seq!['-', 'c'][1] == 'c' && seq!['-', 't'][1] == 't' && seq!['-', 'v'][1] == 'v'
        && seq!['-', 'h'][1] == 'h');
    assert("--config"@.len() == 8 && "--test"@.len() == 6 && "--version"@.len() == 9
        && "--help"@.len() == 6);
    assert("--test"@[2] == 't' && "--help"@[2] == 'h');
    assert((seq![a, path] + rest).skip(2) =~= rest);
    assert((seq![a] + rest).skip(1) =~= rest);
}

/// The process becomes the user that is named, in the group that is named or the user's
/// own; a user or group that is not known is refused.
pub proof fn law_ids(user: Seq<char>, group: Seq<char>, uid: u32, primary: u32, gid: u32)
    requires
        !user.contains('\0'),
        !group.contains('\0'),
    ensures
        ids_for(user, None, Some((uid, primary)), None) matches Ok(i) && i.uid == uid && i.gid
            == primary && i.user == user,
        ids_for(user, Some(group), Some((uid, primary)), Some(gid)) matches Ok(i) && i.uid == uid
            && i.gid == gid && i.user == user,
        ids_for(user, Some(group), Some((uid, primary)), None) is Err,
        ids_for(user, None, None, None) is Err,
        ids_for(user, Some(group), None, Some(gid)) is Err,
{
}

/// The limit of open files becomes what is asked for, as far as the hard limit goes, and
/// never sinks.
pub proof fn law_open_files(target: u64, soft: u64, hard: u64)
    requires
        soft <= hard,
    ensures
        target <= soft ==> soft_limit(target, soft, hard) == soft,
        soft <= target <= hard ==> soft_limit(target, soft, hard) == target,
        target >= hard ==> soft_limit(target, soft, hard) == hard,
{
}

// ---------------------------------------------------------------------------
// Reload
// ---------------------------------------------------------------------------

proof fn lemma_last_at(addrs: Seq<SocketAddr>, addr: SocketAddr, n: int)
    requires
        0 <= n <= addrs.len(),
    ensures
        -1 <= last_at(addrs, addr, n) < n,
        last_at(addrs, addr, n) >= 0 ==> addrs[last_at(addrs, addr, n)] == addr,
        forall|k: int| last_at(addrs, addr, n) < k < n ==> addrs[k] != addr,
    decreases n,
{
    if n > 0 && addrs[n - 1] != addr {
        lemma_last_at(addrs, addr, n - 1);
    }
}

/// What becomes of a running listener at a reload: it is closed when its address is gone;
/// otherwise it takes over what is new on it, with certificates where it speaks TLS
/// before and after, and marked where TLS was turned on or off.
pub proof fn law_running_listener(running: RunningHttp, new: Seq<ListenerCfgV>, i: int)
    requires
        new.len() <= usize::MAX,
    ensures
        (forall|k: int| 0 <= k < new.len() ==> (#[trigger] new[k]).addr != running.addr)
            ==> http_change(running, new) is Close,
        0 <= i < new.len() && new[i].addr == running.addr && (forall|k: int|
            i < k < new.len() ==> (#[trigger] new[k]).addr != running.addr) ==> {
            let tls = new[i].tls_paths.len() > 0;
            &&& running.tls && tls ==> http_change(running, new) == (HttpChange::SwapWithCerts {
                new: i as usize,
            })
            &&& running.tls != tls ==> http_change(running, new) == (HttpChange::SwapTlsToggled {
                new: i as usize,
            })
            &&& !running.tls && !tls ==> http_change(running, new) == (HttpChange::Swap {
                new: i as usize,
            })
        },
{
    let all = addresses(new);
    lemma_last_at(all, running.addr, new.len() as int);
    let j = last_at(all, running.addr, new.len() as int);
    if j >= 0 {
        assert(all[j] == new[j].addr);
    }
    if 0 <= i < new.len() && new[i].addr == running.addr {
        assert(all[i] == running.addr);
    }
}

/// What becomes of a running stream at a reload: it is closed when its address is gone,
/// kept when it would change between TCP and UDP, and else takes over what is new.
pub proof fn law_running_stream(
    running: RunningStream,
    new: Seq<(SocketAddr, usize, bool)>,
    i: int,
)
    requires
        new.len() <= usize::MAX,
    ensures
        (forall|k: int| 0 <= k < new.len() ==> (#[trigger] new[k]).0 != running.addr)
            ==> stream_change(running, new) is Close,
        0 <= i < new.len() && new[i].0 == running.addr && (forall|k: int|
            i < k < new.len() ==> (#[trigger] new[k]).0 != running.addr) ==> {
            &&& new[i].2 != running.udp ==> stream_change(running, new) is Keep
            &&& new[i].2 == running.udp ==> stream_change(running, new) == (StreamChange::Swap {
                new: i as usize,
            })
        },
{
    let all = stream_addresses(new);
    lemma_last_at(all, running.addr, new.len() as int);
    let j = last_at(all, running.addr, new.len() as int);
    if j >= 0 {
        assert(all[j] == new[j].0);
    }
    if 0 <= i < new.len() && new[i].0 == running.addr {
        assert(all[i] == running.addr);
    }
}

/// What is opened at a reload: the last on each address that is not running yet, each
/// once, and nothing else.
pub proof fn law_opened(wanted: Seq<SocketAddr>, running: Seq<SocketAddr>, n: int, i: int)
    requires
        0 <= n <= wanted.len(),
    ensures
        opened(wanted, running, n).contains(i) <==> 0 <= i < n && (forall|k: int|
            i < k < wanted.len() ==> #[trigger] wanted[k] != wanted[i]) && (forall|k: int|
            0 <= k < running.len() ==> #[trigger] running[k] != wanted[i]),
    decreases n,
{
    if n > 0 {
        let before = opened(wanted, running, n - 1);
        let all = opened(wanted, running, n);
        law_opened(wanted, running, n - 1, i);
        lemma_last_at(wanted, wanted[n - 1], wanted.len() as int);
        lemma_last_at(running, wanted[n - 1], running.len() as int);
        if all != before {
            assert(all == before.push(n - 1));
            assert(all[all.len() - 1] == n - 1);
            if before.contains(i) {
                let k = choose|k: int| 0 <= k < before.len() && before[k] == i;
                assert(all[k] == i);
            }
            if all.contains(i) && i != n - 1 {
                let k = choose|k: int| 0 <= k < all.len() && all[k] == i;
                assert(before[k] == i);
            }
        }
    }
}

// ---------------------------------------------------------------------------
// TLS and HTTP/3
// ---------------------------------------------------------------------------

proof fn lemma_last_named(entries: Seq<CertEntryV>, sni: Seq<char>, n: int)
    requires
        0 <= n <= entries.len(),
    ensures
        -1 <= last_named(entries, sni, n) < n,
        last_named(entries, sni, n) >= 0 ==> names_host(
            entries[last_named(entries, sni, n)],
            sni,
        ),
        forall|k: int|
            last_named(entries, sni, n) < k < n ==> !names_host(#[trigger] entries[k], sni),
    decreases n,
{
    if n > 0 && !names_host(entries[n - 1], sni) {
        lemma_last_named(entries, sni, n - 1);
    }
}

/// A client is shown the certificate of the last server with the name that it asks for,
/// in whatever case, and the first of all when none has it or it asks for none.
pub proof fn law_certificate_by_name(entries: Seq<CertEntryV>, sni: Seq<char>, i: int)
    requires
        0 <= i < entries.len(),
    ensures
        presented(entries, None) == 0,
        entries[i].server_name is Some && lower(entries[i].server_name->0) == lower(sni) && (
        forall|k: int|
            i < k < entries.len() ==> !((#[trigger] entries[k]).server_name is Some && lower(
                entries[k].server_name->0,
            ) == lower(sni))) ==> presented(entries, Some(sni)) == i,
        (forall|k: int|
            0 <= k < entries.len() ==> !((#[trigger] entries[k]).server_name is Some && lower(
                entries[k].server_name->0,
            ) == lower(sni))) ==> presented(entries, Some(sni)) == 0,
{
    lemma_last_named(entries, sni, entries.len() as int);
    let j = last_named(entries, sni, entries.len() as int);
    if j >= 0 {
        assert(names_host(entries[j], sni));
        assert(entries[j].server_name is Some);
    }
    if entries[i].server_name is Some && lower(entries[i].server_name->0) == lower(sni) {
        assert(names_host(entries[i], sni));
    }
}

/// A certificate file must hold a certificate and a key file a key; what they hold is
/// used as it is.
pub proof fn law_tls_files(
    path: Seq<char>,
    certs: Seq<Seq<u8>>,
    error: Seq<char>,
    format: KeyFormat,
    key: Seq<u8>,
)
    ensures
        certs.len() > 0 ==> chain_of(path, Ok(certs)) == Ok::<Seq<Seq<u8>>, Seq<char>>(certs),
        certs.len() == 0 ==> chain_of(path, Ok(certs)) is Err,
        chain_of(path, Err(error)) is Err,
        key_of(path, Ok(Some((format, key)))) == Ok::<(KeyFormat, Seq<u8>), Seq<char>>(
            (format, key),
        ),
        key_of(path, Ok(None)) is Err,
        key_of(path, Err(error)) is Err,
{
}

/// Over HTTP/3 a body may be as long as the server takes, and 32 MiB where it sets no
/// limit; a longer one is a `413`.
pub proof fn law_http3_bodies(most: usize)
    ensures
        most > 0 ==> cap_for(most) == most,
        cap_for(0) == 33_554_432,
        is_text(body_too_large(), 413, "413 Request Entity Too Large\n"@),
{
    lemma_text(413, "413 Request Entity Too Large\n"@);
}

// ---------------------------------------------------------------------------
// Probes and streams
// ---------------------------------------------------------------------------

/// Every peer that is not marked down is probed, each once and in order.
pub proof fn law_probed(peers: Seq<PeerV>, n: int, i: int)
    requires
        0 <= n <= peers.len(),
    ensures
        probed(peers, n).contains(i) <==> 0 <= i < n && !peers[i].down,
        forall|k: int| 0 <= k < probed(peers, n).len() ==> 0 <= #[trigger] probed(peers, n)[k] < n,
        forall|x: int, y: int|
            0 <= x < y < probed(peers, n).len() ==> (#[trigger] probed(peers, n)[x]) < (
            #[trigger] probed(peers, n)[y]),
    decreases n,
{
    if n > 0 {
        let before = probed(peers, n - 1);
        let all = probed(peers, n);
        law_probed(peers, n - 1, i);
        if !peers[n - 1].down {
            assert(all == before.push(n - 1));
            assert(all[all.len() - 1] == n - 1);
            if before.contains(i) {
                let k = choose|k: int| 0 <= k < before.len() && before[k] == i;
                assert(all[k] == i);
            }
            if all.contains(i) && i != n - 1 {
                let k = choose|k: int| 0 <= k < all.len() && all[k] == i;
                assert(before[k] == i);
            }
            assert forall|x: int, y: int| 0 <= x < y < all.len() implies (#[trigger] all[x]) < (
            #[trigger] all[y]) by {
                assert(all[x] == before[x]);
                if y < before.len() {
                    assert(all[y] == before[y]);
                }
            }
        }
    }
}

/// A probe that is answered with the expected status clears the failures of a peer; any
/// other answer, and none, counts as one.
pub proof fn law_probe_decides(p: PeerV, expected: u16, status: u16, now: u64)
    ensures
        after_probe(p, expected, Some(expected), now).consecutive_failures == 0,
        after_probe(p, expected, Some(expected), now).failed_until_ms == 0,
        status != expected ==> after_probe(p, expected, Some(status), now) == failed(p, now),
        after_probe(p, expected, None, now) == failed(p, now),
        after_probe(p, expected, Some(expected), now).in_flight == p.in_flight,
        after_probe(p, expected, Some(expected), now).down == p.down,
{
}

/// A stream goes to whoever is picked, who is one request busier.
pub proof fn law_stream_opens(b: BalancerV, ip: IpAddr, now: u64)
    ensures
        picked(b, ip, seq![], now) is None ==> balancer_opened(b, ip, now) == b,
        picked(b, ip, seq![], now) matches Some(i) ==> balancer_opened(b, ip, now) == with_entered(
            advanced(b, ip, seq![], now),
            i,
        ),
{
}

/// The bytes of a stream are counted by their direction.
pub proof fn law_stream_bytes(m: Metrics, up: u64, down: u64)
    requires
        m.stream_bytes_to_up + up <= u64::MAX,
        m.stream_bytes_from_up + down <= u64::MAX,
    ensures
        bytes_counted(m, Outcome::Completed { to_upstream: up, from_upstream: down }) == (Metrics {
            stream_bytes_to_up: (m.stream_bytes_to_up + up) as u64,
            stream_bytes_from_up: (m.stream_bytes_from_up + down) as u64,
            ..m
        }),
        bytes_counted(m, Outcome::Unanswered { sent: up }) == (Metrics {
            stream_bytes_to_up: (m.stream_bytes_to_up + up) as u64,
            ..m
        }),
        bytes_counted(m, Outcome::Failed) == m,
{
}

} // verus!
