//! Laws on values in a configuration: times, sizes, zones and the arguments that
//! name them.

use super::text::{
    law_number_by_digits, law_prefix_goes_off, law_split_once, law_split_once_finds_halves,
};
use crate::config::values::{duration_of, listen_of, on_off_of, quantity, size_value};
use crate::config::zones::{
    cache_path_args, cache_path_of, cache_valid_of, codes_of, conn_zone_args, entry_cap,
    limit_conn_of, limit_conn_zone_of, limit_req_args, limit_req_of, limit_req_zone_of, map_of,
    req_zone_args, ReqZoneArgs, zone_of,
};
use crate::config::ast::{CacheZoneV, MapPatternV};
use crate::config::parser::DirectiveV;
use crate::limit::rate_of;
use crate::net::SocketAddr;
use crate::template::template_of;
use crate::text::{after_prefix, all_digits, lower, number, trimmed};

use vstd::prelude::*;
use vstd::string::*;

verus! {

// ---------------------------------------------------------------------------
// proxy_cache_valid
// ---------------------------------------------------------------------------

proof fn lemma_codes(done: Seq<u16>, args: Seq<Seq<char>>, line: usize)
    ensures
        match codes_of(done, args, line) {
            Ok(codes) => {
                if exists|i: int| 0 <= i < args.len() && args[i] == "any"@ {
                    codes.len() == 0
                } else {
                    &&& codes.len() == done.len() + args.len()
                    &&& forall|i: int| 0 <= i < done.len() ==> codes[i] == done[i]
                    &&& forall|i: int|
                        0 <= i < args.len() ==> number(#[trigger] args[i], 65535) == Some(
                            codes[done.len() + i] as nat,
                        )
                }
            },
            Err(_) => exists|i: int|
                0 <= i < args.len() && number(#[trigger] args[i], 65535) is None && forall|j: int|
                    0 <= j <= i ==> args[j] != "any"@,
        },
    decreases args.len(),
{
    if args.len() > 0 {
        let rest = args.skip(1);
        if args[0] == "any"@ {
        } else if number(args[0], 65535) is Some {
            let c = number(args[0], 65535)->0;
            let now = done.push(c as u16);
            lemma_codes(now, rest, line);
            let any = exists|i: int| 0 <= i < args.len() && args[i] == "any"@;
            let later = exists|i: int| 0 <= i < rest.len() && rest[i] == "any"@;
            if any {
                let i = choose|i: int| 0 <= i < args.len() && args[i] == "any"@;
                assert(rest[i - 1] == "any"@);
            }
            if later {
                let i = choose|i: int| 0 <= i < rest.len() && rest[i] == "any"@;
                assert(args[i + 1] == "any"@);
            }
            match codes_of(done, args, line) {
                Ok(codes) => {
                    if !any {
                        assert(codes[done.len() as int] == now[done.len() as int]);
                        assert forall|i: int| 0 <= i < done.len() implies codes[i] == done[i] by {
                            assert(now[i] == done[i]);
                        }
                        assert forall|i: int| 0 <= i < args.len() implies number(
                            #[trigger] args[i],
                            65535,
                        ) == Some(codes[done.len() + i] as nat) by {
                            if i > 0 {
                                assert(rest[i - 1] == args[i]);
                            }
                        }
                    }
                },
                Err(_) => {
                    let i = choose|i: int|
                        0 <= i < rest.len() && number(#[trigger] rest[i], 65535) is None && forall|
                            j: int,
                        | 0 <= j <= i ==> rest[j] != "any"@;
                    assert(args[i + 1] == rest[i]);
                    assert forall|j: int| 0 <= j <= i + 1 implies args[j] != "any"@ by {
                        if j > 0 {
                            assert(rest[j - 1] == args[j]);
                        }
                    }
                },
            }
        } else {
            assert(forall|j: int| 0 <= j <= 0 ==> args[j] != "any"@);
        }
    }
}

/// `proxy_cache_valid` keeps one code for each argument in front of the time, in
/// order, and each is the number that is written there. With `any` among them it
/// keeps none, which stands for every status. The last argument is the time.
pub proof fn law_cache_valid_keeps_its_codes(args: Seq<Seq<char>>, line: usize)
    ensures
        match cache_valid_of(args, line) {
            Ok((codes, time)) => {
                &&& args.len() > 0
                &&& duration_of(args[args.len() - 1]) == Some(time)
                &&& (exists|i: int| 0 <= i < args.len() - 1 && args[i] == "any"@) ==> codes.len()
                    == 0
                &&& !(exists|i: int| 0 <= i < args.len() - 1 && args[i] == "any"@) ==> {
                    &&& codes.len() == args.len() - 1
                    &&& forall|i: int|
                        0 <= i < codes.len() ==> number(#[trigger] args[i], 65535) == Some(
                            codes[i] as nat,
                        )
                }
            },
            Err(_) => args.len() == 0 || duration_of(args[args.len() - 1]) is None || exists|i: int|
                0 <= i < args.len() - 1 && number(#[trigger] args[i], 65535) is None && args[i]
                    != "any"@,
        },
{
    if args.len() > 0 {
        let head = args.drop_last();
        lemma_codes(seq![], head, line);
        let any = exists|i: int| 0 <= i < args.len() - 1 && args[i] == "any"@;
        if any {
            let i = choose|i: int| 0 <= i < args.len() - 1 && args[i] == "any"@;
            assert(head[i] == "any"@);
        }
        if exists|i: int| 0 <= i < head.len() && head[i] == "any"@ {
            let i = choose|i: int| 0 <= i < head.len() && head[i] == "any"@;
            assert(args[i] == "any"@);
        }
        if duration_of(args.last()) is Some {
            match codes_of(seq![], head, line) {
                Ok(codes) => {
                    if !any {
                        assert forall|i: int| 0 <= i < codes.len() implies number(
                            #[trigger] args[i],
                            65535,
                        ) == Some(codes[i] as nat) by {
                            assert(head[i] == args[i]);
                        }
                    }
                },
                Err(_) => {
                    let i = choose|i: int|
                        0 <= i < head.len() && number(#[trigger] head[i], 65535) is None && forall|
                            j: int,
                        | 0 <= j <= i ==> head[j] != "any"@;
                    assert(args[i] == head[i]);
                },
            }
        }
    }
}

// ---------------------------------------------------------------------------
// NAME:SIZE
// ---------------------------------------------------------------------------

/// Whether an argument is `<prefix><name>:<size>` with a size of `bytes`.
pub open spec fn is_zone(arg: Seq<char>, prefix: Seq<char>, name: Seq<char>, bytes: usize) -> bool {
    !name.contains(':') && exists|s: Seq<char>|
        arg == prefix + (#[trigger] (name + seq![':'] + s)) && size_value(s) == Some(bytes)
}

/// Whether an argument is a prefix and a text behind it.
pub open spec fn is_arg(arg: Seq<char>, prefix: Seq<char>, t: Seq<char>) -> bool {
    arg == prefix + t
}

/// Whether an argument starts with a prefix.
pub open spec fn starts(arg: Seq<char>, prefix: Seq<char>) -> bool {
    exists|t: Seq<char>| arg == #[trigger] (prefix + t)
}

proof fn lemma_zone(arg: Seq<char>, prefix: Seq<char>, line: usize, a: Seq<char>, b: Seq<char>)
    requires
        starts(arg, prefix),
    ensures
        after_prefix(arg, prefix) is Some,
        match zone_of(after_prefix(arg, prefix)->0, line, a, b) {
            Ok((n, bytes)) => is_zone(arg, prefix, n, bytes),
            Err(_) => forall|n: Seq<char>, bytes: usize| !#[trigger] is_zone(arg, prefix, n, bytes),
        },
{
    law_prefix_goes_off(arg, prefix);
    let t = choose|t: Seq<char>| arg == #[trigger] (prefix + t);
    let spec = after_prefix(arg, prefix)->0;
    law_split_once(spec, ':');
    match zone_of(spec, line, a, b) {
        Ok((n, bytes)) => {
            let s = (crate::text::split_once_at(spec, ':')->0).1;
            assert(spec == n + seq![':'] + s);
        },
        Err(_) => {
            assert forall|n: Seq<char>, bytes: usize| !#[trigger] is_zone(
                arg,
                prefix,
                n,
                bytes,
            ) by {
                if is_zone(arg, prefix, n, bytes) {
                    let s = choose|s: Seq<char>|
                        arg == prefix + (#[trigger] (n + seq![':'] + s)) && size_value(s) == Some(
                            bytes,
                        );
                    assert((prefix + (n + seq![':'] + s)).skip(prefix.len() as int) =~= n + seq![
                        ':',
                    ] + s);
                    assert((prefix + spec).skip(prefix.len() as int) =~= spec);
                    law_split_once_finds_halves(n, ':', s);
                }
            }
        },
    }
}

/// Whether `arg` is the last of `args` that starts with a prefix.
pub open spec fn is_last(args: Seq<Seq<char>>, prefix: Seq<char>, i: int) -> bool {
    &&& 0 <= i < args.len()
    &&& starts(args[i], prefix)
    &&& forall|j: int| i < j < args.len() ==> !starts(#[trigger] args[j], prefix)
}

/// Whether an argument starts with a prefix and no zone follows it.
pub open spec fn spoilt(arg: Seq<char>, prefix: Seq<char>) -> bool {
    starts(arg, prefix) && forall|n: Seq<char>, bytes: usize|
        !#[trigger] is_zone(arg, prefix, n, bytes)
}

proof fn lemma_starts(arg: Seq<char>, prefix: Seq<char>)
    ensures
        starts(arg, prefix) <==> after_prefix(arg, prefix) is Some,
{
    law_prefix_goes_off(arg, prefix);
}

proof fn lemma_last_shifts(args: Seq<Seq<char>>, prefix: Seq<char>)
    requires
        args.len() > 0,
    ensures
        forall|i: int| is_last(args.skip(1), prefix, i) ==> #[trigger] is_last(args, prefix, i + 1),
        (forall|j: int| 0 <= j < args.skip(1).len() ==> !starts(#[trigger] args.skip(1)[j], prefix))
            && starts(args[0], prefix) ==> is_last(args, prefix, 0),
        (forall|j: int| 0 <= j < args.skip(1).len() ==> !starts(#[trigger] args.skip(1)[j], prefix))
            && !starts(args[0], prefix) ==> forall|j: int|
            0 <= j < args.len() ==> !starts(#[trigger] args[j], prefix),
{
    let rest = args.skip(1);
    assert forall|i: int| is_last(rest, prefix, i) implies #[trigger] is_last(
        args,
        prefix,
        i + 1,
    ) by {
        assert(rest[i] == args[i + 1]);
        assert forall|j: int| i + 1 < j < args.len() implies !starts(#[trigger] args[j], prefix) by {
            assert(rest[j - 1] == args[j]);
        }
    }
    if forall|j: int| 0 <= j < rest.len() ==> !starts(#[trigger] rest[j], prefix) {
        assert forall|j: int| 0 < j < args.len() implies !starts(#[trigger] args[j], prefix) by {
            assert(rest[j - 1] == args[j]);
        }
    }
}

proof fn lemma_cache_path_args(found: Option<CacheZoneV>, args: Seq<Seq<char>>, line: usize)
    ensures
        match cache_path_args(found, args, line) {
            Ok(r) => {
                &&& forall|j: int| 0 <= j < args.len() ==> !spoilt(#[trigger] args[j], "keys_zone="@)
                &&& ((r == found && forall|j: int|
                    0 <= j < args.len() ==> !starts(#[trigger] args[j], "keys_zone="@)) || exists|
                    i: int,
                |
                    #[trigger] is_last(args, "keys_zone="@, i) && r is Some && is_zone(
                        args[i],
                        "keys_zone="@,
                        r->0.name,
                        r->0.max_bytes,
                    ))
            },
            Err(_) => exists|i: int| 0 <= i < args.len() && spoilt(#[trigger] args[i], "keys_zone="@),
        },
    decreases args.len(),
{
    let p = "keys_zone="@;
    if args.len() > 0 {
        let rest = args.skip(1);
        lemma_starts(args[0], p);
        lemma_last_shifts(args, p);
        let mut now = found;
        if starts(args[0], p) {
            lemma_zone(
                args[0],
                p,
                line,
                "keys_zone must be NAME:SIZE"@,
                "invalid keys_zone size '"@,
            );
            let z = zone_of(
                after_prefix(args[0], p)->0,
                line,
                "keys_zone must be NAME:SIZE"@,
                "invalid keys_zone size '"@,
            );
            if let Ok((name, max_bytes)) = z {
                now = Some(CacheZoneV { name, max_bytes });
            }
        }
        if !spoilt(args[0], p) {
            lemma_cache_path_args(now, rest, line);
            match cache_path_args(found, args, line) {
                Ok(r) => {
                    assert forall|j: int| 0 <= j < args.len() implies !spoilt(
                        #[trigger] args[j],
                        p,
                    ) by {
                        if j > 0 {
                            assert(rest[j - 1] == args[j]);
                        }
                    }
                    if exists|i: int|
                        #[trigger] is_last(rest, p, i) && r is Some && is_zone(
                            rest[i],
                            p,
                            r->0.name,
                            r->0.max_bytes,
                        ) {
                        let i = choose|i: int|
                            #[trigger] is_last(rest, p, i) && r is Some && is_zone(
                                rest[i],
                                p,
                                r->0.name,
                                r->0.max_bytes,
                            );
                        assert(is_last(args, p, i + 1));
                        assert(rest[i] == args[i + 1]);
                    }
                },
                Err(_) => {
                    let i = choose|i: int| 0 <= i < rest.len() && spoilt(#[trigger] rest[i], p);
                    assert(args[i + 1] == rest[i]);
                },
            }
        }
    }
}

/// A cache zone is what the last `keys_zone=NAME:SIZE` says. A directive without
/// one, or with one of another shape, is refused, and no other.
pub proof fn law_cache_zone(args: Seq<Seq<char>>, line: usize)
    ensures
        match cache_path_of(args, line) {
            Ok(z) => exists|i: int|
                #[trigger] is_last(args, "keys_zone="@, i) && is_zone(
                    args[i],
                    "keys_zone="@,
                    z.name,
                    z.max_bytes,
                ),
            Err(_) => (forall|j: int|
                0 <= j < args.len() ==> !starts(#[trigger] args[j], "keys_zone="@)) || exists|i: int|
                0 <= i < args.len() && spoilt(#[trigger] args[i], "keys_zone="@),
        },
{
    lemma_cache_path_args(None, args, line);
}

/// How many entries a zone of `bytes` has room for: one for each whole `each` bytes,
/// and at least one.
pub open spec fn pays_for(bytes: usize, each: int, entries: usize) -> bool {
    entries >= 1 && (entries == 1 || entries * each <= bytes) && bytes < (entries + 1) * each
}

proof fn lemma_entry_cap(bytes: usize, each: int)
    requires
        each > 0,
    ensures
        pays_for(bytes, each, entry_cap(bytes, each)),
{
    let q = bytes as int / each;
    vstd::arithmetic::div_mod::lemma_fundamental_div_mod(bytes as int, each);
    assert(bytes as int == each * q + bytes as int % each);
    assert(0 <= q <= bytes as int) by (nonlinear_arith)
        requires
            bytes as int == each * q + bytes as int % each,
            0 <= bytes as int % each < each,
            each > 0,
            bytes >= 0,
    ;
    let n = entry_cap(bytes, each) as int;
    assert((n == 1 || n * each <= bytes) && bytes < (n + 1) * each) by (nonlinear_arith)
        requires
            bytes as int == each * q + bytes as int % each,
            0 <= bytes as int % each < each,
            each > 0,
            q >= 0,
            n == (if q < 1 {
                1
            } else {
                q
            }),
    ;
}

proof fn lemma_conn_zone_args(
    found: Option<(Seq<char>, usize)>,
    args: Seq<Seq<char>>,
    line: usize,
)
    ensures
        match conn_zone_args(found, args, line) {
            Ok(r) => {
                &&& forall|j: int| 0 <= j < args.len() ==> !spoilt(#[trigger] args[j], "zone="@)
                &&& ((r == found && forall|j: int|
                    0 <= j < args.len() ==> !starts(#[trigger] args[j], "zone="@)) || exists|
                    i: int,
                    bytes: usize,
                |
                    is_last(args, "zone="@, i) && r is Some && #[trigger] is_zone(
                        args[i],
                        "zone="@,
                        (r->0).0,
                        bytes,
                    ) && pays_for(bytes, 16, (r->0).1))
            },
            Err(_) => exists|i: int| 0 <= i < args.len() && spoilt(#[trigger] args[i], "zone="@),
        },
    decreases args.len(),
{
    let p = "zone="@;
    if args.len() > 0 {
        let rest = args.skip(1);
        lemma_starts(args[0], p);
        lemma_last_shifts(args, p);
        let mut now = found;
        if starts(args[0], p) {
            lemma_zone(args[0], p, line, "zone= must be NAME:SIZE"@, "invalid zone size '"@);
            let z = zone_of(
                after_prefix(args[0], p)->0,
                line,
                "zone= must be NAME:SIZE"@,
                "invalid zone size '"@,
            );
            if let Ok((name, bytes)) = z {
                now = Some((name, entry_cap(bytes, 16)));
                lemma_entry_cap(bytes, 16);
                assert(is_zone(args[0], p, name, bytes));
            }
        }
        if !spoilt(args[0], p) {
            lemma_conn_zone_args(now, rest, line);
            match conn_zone_args(found, args, line) {
                Ok(r) => {
                    assert forall|j: int| 0 <= j < args.len() implies !spoilt(
                        #[trigger] args[j],
                        p,
                    ) by {
                        if j > 0 {
                            assert(rest[j - 1] == args[j]);
                        }
                    }
                    if exists|i: int, bytes: usize|
                        is_last(rest, p, i) && r is Some && #[trigger] is_zone(
                            rest[i],
                            p,
                            (r->0).0,
                            bytes,
                        ) && pays_for(bytes, 16, (r->0).1) {
                        let (i, bytes) = choose|i: int, bytes: usize|
                            is_last(rest, p, i) && r is Some && #[trigger] is_zone(
                                rest[i],
                                p,
                                (r->0).0,
                                bytes,
                            ) && pays_for(bytes, 16, (r->0).1);
                        assert(is_last(args, p, i + 1));
                        assert(is_zone(args[i + 1], p, (r->0).0, bytes));
                    }
                },
                Err(_) => {
                    let i = choose|i: int| 0 <= i < rest.len() && spoilt(#[trigger] rest[i], p);
                    assert(args[i + 1] == rest[i]);
                },
            }
        }
    }
}

/// A connection zone is keyed by the first argument and has the name and the room,
/// at 16 bytes for an entry, that the last `zone=NAME:SIZE` behind it says.
pub proof fn law_limit_conn_zone(args: Seq<Seq<char>>, line: usize)
    ensures
        match limit_conn_zone_of(args, line) {
            Ok(z) => {
                &&& args.len() >= 2
                &&& z.key_template == template_of(args[0])
                &&& exists|i: int, bytes: usize|
                    is_last(args.skip(1), "zone="@, i) && #[trigger] is_zone(
                        args.skip(1)[i],
                        "zone="@,
                        z.name,
                        bytes,
                    ) && pays_for(bytes, 16, z.max_entries)
            },
            Err(_) => args.len() < 2 || (forall|j: int|
                0 <= j < args.skip(1).len() ==> !starts(#[trigger] args.skip(1)[j], "zone="@))
                || exists|i: int|
                0 <= i < args.skip(1).len() && spoilt(#[trigger] args.skip(1)[i], "zone="@),
        },
{
    if args.len() >= 2 {
        let rest = args.skip(1);
        lemma_conn_zone_args(None, rest, line);
        if let Ok(z) = limit_conn_zone_of(args, line) {
            let (i, bytes) = choose|i: int, bytes: usize|
                is_last(rest, "zone="@, i) && #[trigger] is_zone(
                    rest[i],
                    "zone="@,
                    z.name,
                    bytes,
                ) && pays_for(bytes, 16, z.max_entries);
            assert(is_zone(args.skip(1)[i], "zone="@, z.name, bytes));
        }
    }
}

/// `limit_conn` names its zone with `zone=` or without, and the most that may be
/// open at once.
pub proof fn law_limit_conn(zone: Seq<char>, most: Seq<char>, line: usize)
    ensures
        limit_conn_of(seq!["zone="@ + zone, most], line) is Ok <==> number(most, 0xffff_ffff)
            is Some,
        number(most, 0xffff_ffff) matches Some(n) ==> limit_conn_of(
            seq!["zone="@ + zone, most],
            line,
        ) == Ok::<(Seq<char>, u32), Seq<char>>((zone, n as u32)),
        !starts(zone, "zone="@) ==> (number(most, 0xffff_ffff) matches Some(n) ==> limit_conn_of(
            seq![zone, most],
            line,
        ) == Ok::<(Seq<char>, u32), Seq<char>>((zone, n as u32))),
{
    let p = "zone="@;
    assert(p.is_prefix_of(p + zone)) by {
        assert((p + zone).take(p.len() as int) =~= p);
    }
    assert((p + zone).skip(p.len() as int) =~= zone);
    lemma_starts(zone, p);
}

#[verifier::rlimit(50)]
proof fn lemma_req_zone_args(found: ReqZoneArgs, args: Seq<Seq<char>>, line: usize)
    ensures
        match req_zone_args(found, args, line) {
            Ok(r) => {
                &&& forall|j: int| 0 <= j < args.len() ==> !spoilt(#[trigger] args[j], "zone="@)
                &&& ((r.zone == found.zone && forall|j: int|
                    0 <= j < args.len() ==> !starts(#[trigger] args[j], "zone="@)) || exists|
                    i: int,
                    bytes: usize,
                |
                    is_last(args, "zone="@, i) && r.zone is Some && #[trigger] is_zone(
                        args[i],
                        "zone="@,
                        (r.zone->0).0,
                        bytes,
                    ) && pays_for(bytes, 64, (r.zone->0).1))
                &&& ((r.rate == found.rate && forall|j: int|
                    0 <= j < args.len() ==> !starts(#[trigger] args[j], "rate="@)) || exists|
                    i: int,
                    t: Seq<char>,
                |
                    is_last(args, "rate="@, i) && #[trigger] is_arg(args[i], "rate="@, t) && rate_of(t)
                        == r.rate && r.rate is Some)
            },
            Err(_) => (exists|i: int| 0 <= i < args.len() && spoilt(#[trigger] args[i], "zone="@))
                || exists|i: int, t: Seq<char>|
                0 <= i < args.len() && #[trigger] is_arg(args[i], "rate="@, t) && rate_of(t) is None,
        },
    decreases args.len(),
{
    let p = "zone="@;
    let q = "rate="@;
    if args.len() > 0 {
        let rest = args.skip(1);
        lemma_starts(args[0], p);
        lemma_starts(args[0], q);
        law_prefix_goes_off(args[0], q);
        lemma_last_shifts(args, p);
        lemma_last_shifts(args, q);
        assert(starts(args[0], p) ==> !starts(args[0], q)) by {
            reveal_strlit("zone=");
            reveal_strlit("rate=");
            if starts(args[0], p) && starts(args[0], q) {
                assert(args[0][0] == 'z');
                assert(args[0][0] == 'r');
            }
        }
        let mut now = found;
        let mut bad = false;
        if starts(args[0], p) {
            lemma_zone(args[0], p, line, "zone= must be NAME:SIZE"@, "invalid zone size '"@);
            let z = zone_of(
                after_prefix(args[0], p)->0,
                line,
                "zone= must be NAME:SIZE"@,
                "invalid zone size '"@,
            );
            if let Ok((name, bytes)) = z {
                now = ReqZoneArgs { zone: Some((name, entry_cap(bytes, 64))), ..found };
                lemma_entry_cap(bytes, 64);
                assert(is_zone(args[0], p, name, bytes));
            } else {
                bad = true;
                assert(spoilt(args[0], p));
            }
        } else if starts(args[0], q) {
            let t = after_prefix(args[0], q)->0;
            assert(is_arg(args[0], q, t));
            if rate_of(t) is Some {
                now = ReqZoneArgs { rate: rate_of(t), ..found };
            } else {
                bad = true;
            }
        }
        if !bad {
            lemma_req_zone_args(now, rest, line);
            match req_zone_args(found, args, line) {
                Ok(r) => {
                    assert forall|j: int| 0 <= j < args.len() implies !spoilt(
                        #[trigger] args[j],
                        p,
                    ) by {
                        if j > 0 {
                            assert(rest[j - 1] == args[j]);
                        } else if starts(args[0], p) {
                            assert(is_zone(args[0], p, (now.zone->0).0, now_bytes(args[0], p, line)));
                        }
                    }
                    if exists|i: int, bytes: usize|
                        is_last(rest, p, i) && r.zone is Some && #[trigger] is_zone(
                            rest[i],
                            p,
                            (r.zone->0).0,
                            bytes,
                        ) && pays_for(bytes, 64, (r.zone->0).1) {
                        let (i, bytes) = choose|i: int, bytes: usize|
                            is_last(rest, p, i) && r.zone is Some && #[trigger] is_zone(
                                rest[i],
                                p,
                                (r.zone->0).0,
                                bytes,
                            ) && pays_for(bytes, 64, (r.zone->0).1);
                        assert(is_last(args, p, i + 1));
                        assert(is_zone(args[i + 1], p, (r.zone->0).0, bytes));
                    }
                    if exists|i: int, t: Seq<char>|
                        is_last(rest, q, i) && #[trigger] is_arg(rest[i], q, t) && rate_of(t) == r.rate
                            && r.rate is Some {
                        let (i, t) = choose|i: int, t: Seq<char>|
                            is_last(rest, q, i) && #[trigger] is_arg(rest[i], q, t) && rate_of(t)
                                == r.rate && r.rate is Some;
                        assert(is_last(args, q, i + 1));
                        assert(is_arg(args[i + 1], q, t));
                    }
                },
                Err(_) => {
                    if exists|i: int| 0 <= i < rest.len() && spoilt(#[trigger] rest[i], p) {
                        let i = choose|i: int| 0 <= i < rest.len() && spoilt(#[trigger] rest[i], p);
                        assert(args[i + 1] == rest[i]);
                    } else {
                        let (i, t) = choose|i: int, t: Seq<char>|
                            0 <= i < rest.len() && #[trigger] is_arg(rest[i], q, t) && rate_of(t)
                                is None;
                        assert(is_arg(args[i + 1], q, t));
                    }
                },
            }
        }
    }
}

spec fn now_bytes(arg: Seq<char>, p: Seq<char>, line: usize) -> usize {
    (zone_of(
        after_prefix(arg, p)->0,
        line,
        "zone= must be NAME:SIZE"@,
        "invalid zone size '"@,
    )->Ok_0).1
}

/// A request zone is keyed by the first argument; behind it the last
/// `zone=NAME:SIZE` says its name and its room, at 64 bytes for an entry, and the
/// last `rate=` its rate.
pub proof fn law_limit_req_zone(args: Seq<Seq<char>>, line: usize)
    ensures
        limit_req_zone_of(args, line) matches Ok(z) ==> {
            &&& args.len() >= 3
            &&& z.key_template == template_of(args[0])
            &&& exists|i: int, bytes: usize|
                is_last(args.skip(1), "zone="@, i) && #[trigger] is_zone(
                    args.skip(1)[i],
                    "zone="@,
                    z.name,
                    bytes,
                ) && pays_for(bytes, 64, z.max_entries)
            &&& exists|i: int, t: Seq<char>|
                is_last(args.skip(1), "rate="@, i) && #[trigger] is_arg(args.skip(1)[i], "rate="@, t)
                    && rate_of(t) == Some(z.rate)
        },
        limit_req_zone_of(args, line) is Err ==> args.len() < 3 || (forall|j: int|
            0 <= j < args.skip(1).len() ==> !starts(#[trigger] args.skip(1)[j], "zone="@)) || (
        forall|j: int|
            0 <= j < args.skip(1).len() ==> !starts(#[trigger] args.skip(1)[j], "rate="@)) || (
        exists|i: int| 0 <= i < args.skip(1).len() && spoilt(#[trigger] args.skip(1)[i], "zone="@))
            || exists|i: int, t: Seq<char>|
            0 <= i < args.skip(1).len() && #[trigger] is_arg(args.skip(1)[i], "rate="@, t) && rate_of(
                t,
            ) is None,
{
    if args.len() >= 3 {
        let rest = args.skip(1);
        lemma_req_zone_args(ReqZoneArgs { zone: None, rate: None }, rest, line);
        if let Ok(z) = limit_req_zone_of(args, line) {
            let r = req_zone_args(ReqZoneArgs { zone: None, rate: None }, rest, line)->Ok_0;
            let (i, bytes) = choose|i: int, bytes: usize|
                is_last(rest, "zone="@, i) && r.zone is Some && #[trigger] is_zone(
                    rest[i],
                    "zone="@,
                    (r.zone->0).0,
                    bytes,
                ) && pays_for(bytes, 64, (r.zone->0).1);
            assert(is_zone(args.skip(1)[i], "zone="@, z.name, bytes));
            let (k, t) = choose|k: int, t: Seq<char>|
                is_last(rest, "rate="@, k) && #[trigger] is_arg(rest[k], "rate="@, t) && rate_of(t)
                    == r.rate && r.rate is Some;
            assert(is_arg(args.skip(1)[k], "rate="@, t));
        }
    }
}

#[verifier::rlimit(50)]
proof fn lemma_limit_req_args(
    zone: Option<Seq<char>>,
    burst: u32,
    args: Seq<Seq<char>>,
    line: usize,
)
    ensures
        match limit_req_args(zone, burst, args, line) {
            Ok((z, b)) => {
                &&& (z == zone && forall|j: int|
                    0 <= j < args.len() ==> !starts(#[trigger] args[j], "zone="@)) || (z is Some
                    && exists|i: int|
                    #[trigger] is_last(args, "zone="@, i) && args[i] == "zone="@ + z->0)
                &&& (b == burst && forall|j: int|
                    0 <= j < args.len() ==> !starts(#[trigger] args[j], "burst="@)) || exists|
                    i: int,
                    t: Seq<char>,
                |
                    is_last(args, "burst="@, i) && #[trigger] is_arg(args[i], "burst="@, t) && number(
                        t,
                        0xffff_ffff,
                    ) == Some(b as nat)
            },
            Err(_) => exists|i: int, t: Seq<char>|
                0 <= i < args.len() && #[trigger] is_arg(args[i], "burst="@, t) && number(
                    t,
                    0xffff_ffff,
                ) is None,
        },
    decreases args.len(),
{
    let p = "zone="@;
    let q = "burst="@;
    if args.len() > 0 {
        let rest = args.skip(1);
        lemma_starts(args[0], p);
        lemma_starts(args[0], q);
        law_prefix_goes_off(args[0], p);
        law_prefix_goes_off(args[0], q);
        lemma_last_shifts(args, p);
        lemma_last_shifts(args, q);
        assert(starts(args[0], p) ==> !starts(args[0], q)) by {
            reveal_strlit("zone=");
            reveal_strlit("burst=");
            if starts(args[0], p) && starts(args[0], q) {
                assert(args[0][0] == 'z');
                assert(args[0][0] == 'b');
            }
        }
        let mut z = zone;
        let mut b = burst;
        let mut bad = false;
        if starts(args[0], p) {
            z = after_prefix(args[0], p);
        } else if starts(args[0], q) {
            let t = after_prefix(args[0], q)->0;
            assert(is_arg(args[0], q, t));
            if number(t, 0xffff_ffff) is Some {
                b = number(t, 0xffff_ffff)->0 as u32;
                law_number_by_digits(t, '0', 0xffff_ffff);
            } else {
                bad = true;
            }
        }
        if !bad {
            lemma_limit_req_args(z, b, rest, line);
            match limit_req_args(zone, burst, args, line) {
                Ok((x, y)) => {
                    if x is Some && exists|i: int|
                        #[trigger] is_last(rest, p, i) && rest[i] == p + x->0 {
                        let i = choose|i: int|
                            #[trigger] is_last(rest, p, i) && rest[i] == p + x->0;
                        assert(is_last(args, p, i + 1));
                        assert(args[i + 1] == rest[i]);
                    } else if starts(args[0], p) {
                        assert(is_last(args, p, 0));
                    }
                    if exists|i: int, t: Seq<char>|
                        is_last(rest, q, i) && #[trigger] is_arg(rest[i], q, t) && number(
                            t,
                            0xffff_ffff,
                        ) == Some(y as nat) {
                        let (i, t) = choose|i: int, t: Seq<char>|
                            is_last(rest, q, i) && #[trigger] is_arg(rest[i], q, t) && number(
                                t,
                                0xffff_ffff,
                            ) == Some(y as nat);
                        assert(is_last(args, q, i + 1));
                        assert(is_arg(args[i + 1], q, t));
                    }
                },
                Err(_) => {
                    let (i, t) = choose|i: int, t: Seq<char>|
                        0 <= i < rest.len() && #[trigger] is_arg(rest[i], q, t) && number(
                            t,
                            0xffff_ffff,
                        ) is None;
                    assert(is_arg(args[i + 1], q, t));
                },
            }
        }
    }
}

/// `limit_req` uses the zone of the last `zone=` and the number of the last
/// `burst=`, or none. It is refused without a zone and with a burst that is no
/// number.
pub proof fn law_limit_req(args: Seq<Seq<char>>, line: usize)
    ensures
        match limit_req_of(args, line) {
            Ok((z, b)) => {
                &&& exists|i: int| #[trigger] is_last(args, "zone="@, i) && args[i] == "zone="@ + z
                &&& (b == 0 && forall|j: int|
                    0 <= j < args.len() ==> !starts(#[trigger] args[j], "burst="@)) || exists|
                    i: int,
                    t: Seq<char>,
                |
                    is_last(args, "burst="@, i) && #[trigger] is_arg(args[i], "burst="@, t) && number(
                        t,
                        0xffff_ffff,
                    ) == Some(b as nat)
            },
            Err(_) => (forall|j: int| 0 <= j < args.len() ==> !starts(#[trigger] args[j], "zone="@))
                || exists|i: int, t: Seq<char>|
                0 <= i < args.len() && #[trigger] is_arg(args[i], "burst="@, t) && number(
                    t,
                    0xffff_ffff,
                ) is None,
        },
{
    lemma_limit_req_args(None, 0, args, line);
}

// ---------------------------------------------------------------------------
// map
// ---------------------------------------------------------------------------

/// A `map` publishes under the name behind the `$`, chooses by the first argument,
/// and has one rule for each entry, in order: `default`, or the text to be equal to.
pub proof fn law_map_declaration(
    source: Seq<char>,
    name: Seq<char>,
    block: Seq<DirectiveV>,
    line: usize,
    i: int,
)
    requires
        0 <= i < block.len(),
    ensures
        map_of(seq![source, seq!['$'] + name], block, line) matches Ok(m) && {
            &&& m.source == template_of(source)
            &&& m.output_name == name
            &&& m.rules.len() == block.len()
            &&& block[i].name == "default"@ ==> m.rules[i].pattern is Default
            &&& block[i].name != "default"@ ==> m.rules[i].pattern == MapPatternV::Literal(
                block[i].name,
            )
            &&& block[i].args.len() > 0 ==> m.rules[i].value == template_of(block[i].args[0])
            &&& block[i].args.len() == 0 ==> m.rules[i].value == template_of(seq![])
        },
        !(name.len() > 0 && name[0] == '$') ==> map_of(seq![source, name], block, line) is Err,
{
    reveal_strlit("$");
    assert("$"@ =~= seq!['$']);
    let t = seq!['$'] + name;
    assert(t.take(1) =~= seq!['$']);
    assert(t.skip(1) =~= name);
    assert("$"@.is_prefix_of(t));
    if after_prefix(name, "$"@) is Some {
        law_prefix_goes_off(name, "$"@);
    }
}

// ---------------------------------------------------------------------------
// Times, sizes, switches and addresses
// ---------------------------------------------------------------------------

/// Whether a text is digits and a unit behind them.
pub open spec fn is_amount(s: Seq<char>, digits: Seq<char>, unit: Seq<char>) -> bool {
    &&& s == digits + unit
    &&& digits.len() > 0
    &&& forall|k: int| 0 <= k < digits.len() ==> '0' <= #[trigger] digits[k] <= '9'
    &&& unit.len() > 0
    &&& !('0' <= unit[0] <= '9')
}

proof fn lemma_amount(s: Seq<char>, digits: Seq<char>, unit: Seq<char>, max: nat)
    requires
        is_amount(s, digits, unit),
    ensures
        number(s, max) is None,
        quantity(s, max) == (match number(digits, max) {
            Some(n) => Some((n, unit)),
            None => None::<(nat, Seq<char>)>,
        }),
{
    let i = digits.len() as int;
    assert(s[i] == unit[0]);
    assert(s[0] == digits[0]);
    assert(!all_digits(s)) by {
        assert(!crate::text::is_digit(s[i]));
    }
    assert forall|k: int| 0 <= k < i implies crate::text::is_digit(#[trigger] s[k]) by {
        assert(s[k] == digits[k]);
    }
    crate::config::values::lemma_digits_len(s, i);
    assert(s.take(i) =~= digits);
    assert(s.skip(i) =~= unit);
}

/// How many milliseconds the unit of a time stands for.
pub open spec fn unit_millis(unit: Seq<char>) -> Option<int> {
    if unit == seq!['m', 's'] {
        Some(1)
    } else if unit == seq!['s'] {
        Some(1000)
    } else if unit == seq!['m'] {
        Some(60_000)
    } else if unit == seq!['h'] {
        Some(3_600_000)
    } else if unit == seq!['d'] {
        Some(86_400_000)
    } else {
        None
    }
}

proof fn lemma_products(n: u64)
    ensures
        n * 60 <= u64::MAX ==> n.wrapping_mul(60) == n * 60,
        n * 3600 <= u64::MAX ==> n.wrapping_mul(60).wrapping_mul(60) == n * 3600,
        n * 86400 <= u64::MAX ==> n.wrapping_mul(60).wrapping_mul(60).wrapping_mul(24) == n * 86400,
{
    if n * 60 <= u64::MAX {
        assert(n.wrapping_mul(60) == n * 60);
        let a = n.wrapping_mul(60);
        if n * 3600 <= u64::MAX {
            assert(a.wrapping_mul(60) == a * 60);
            let b = a.wrapping_mul(60);
            if n * 86400 <= u64::MAX {
                assert(b.wrapping_mul(24) == b * 24);
            }
        }
    }
}

proof fn lemma_byte_products(n: usize)
    ensures
        n * 1024 <= usize::MAX ==> n.wrapping_mul(1024) == n * 1024,
        n * 1_048_576 <= usize::MAX ==> n.wrapping_mul(1024).wrapping_mul(1024) == n * 1_048_576,
        n * 1_073_741_824 <= usize::MAX ==> n.wrapping_mul(1024).wrapping_mul(1024).wrapping_mul(
            1024,
        ) == n * 1_073_741_824,
{
    if n * 1024 <= usize::MAX {
        vstd::arithmetic::div_mod::lemma_small_mod((n * 1024) as nat, (usize::MAX + 1) as nat);
        assert(n.wrapping_mul(1024) == n * 1024);
        let a = n.wrapping_mul(1024);
        if n * 1_048_576 <= usize::MAX {
            vstd::arithmetic::div_mod::lemma_small_mod((a * 1024) as nat, (usize::MAX + 1) as nat);
            assert(a.wrapping_mul(1024) == a * 1024);
            let b = a.wrapping_mul(1024);
            if n * 1_073_741_824 <= usize::MAX {
                vstd::arithmetic::div_mod::lemma_small_mod(
                    (b * 1024) as nat,
                    (usize::MAX + 1) as nat,
                );
                assert(b.wrapping_mul(1024) == b * 1024);
            }
        }
    }
}

proof fn lemma_time_amount(s: Seq<char>, digits: Seq<char>, unit: Seq<char>)
    requires
        is_amount(trimmed(s), digits, unit),
    ensures
        match number(digits, 0xffff_ffff_ffff_ffff) {
            None => duration_of(s) is None,
            Some(n) => match unit_millis(unit) {
                None => duration_of(s) is None,
                Some(each) => n * each <= 0xffff_ffff_ffff_ffff ==> (duration_of(s) matches Some(t)
                    && t.secs * 1_000_000_000 + t.nanos == n * each * 1_000_000),
            },
        },
{
    reveal_strlit("ms");
    reveal_strlit("s");
    reveal_strlit("m");
    reveal_strlit("h");
    reveal_strlit("d");
    assert("ms"@ =~= seq!['m', 's']);
    assert("s"@ =~= seq!['s']);
    assert("m"@ =~= seq!['m']);
    assert("h"@ =~= seq!['h']);
    assert("d"@ =~= seq!['d']);
    assert(seq!['m', 's'].len() == 2);
    assert(seq!['s'][0] == 's' && seq!['m'][0] == 'm' && seq!['h'][0] == 'h' && seq!['d'][0] == 'd');
    assert(seq!['s'].len() == 1 && seq!['m'].len() == 1 && seq!['h'].len() == 1 && seq!['d'].len()
        == 1);
    lemma_amount(trimmed(s), digits, unit, 0xffff_ffff_ffff_ffff);
    if let Some(n) = number(digits, 0xffff_ffff_ffff_ffff) {
        lemma_products(n as u64);
        if let Some(each) = unit_millis(unit) {
            assert(each == 1 || each == 1000 || each == 60_000 || each == 3_600_000 || each
                == 86_400_000);
            assert((each == 1 ==> n * each == n) && (each == 1000 ==> n * each == n * 1000) && (each
                == 60_000 ==> n * each == n * 60_000) && (each == 3_600_000 ==> n * each == n
                * 3_600_000) && (each == 86_400_000 ==> n * each == n * 86_400_000))
                by (nonlinear_arith);
        }
        if unit == seq!['m', 's'] {
            assert(duration_of(s) == Some(crate::time::of_millis(n as int)));
            assert((n as int / 1000) * 1000 + n as int % 1000 == n);
            let t = crate::time::of_millis(n as int);
            assert(t.secs == n as int / 1000);
            assert(t.nanos == (n as int % 1000) * 1_000_000);
            assert(unit_millis(unit) == Some(1int));
        } else if unit == seq!['s'] {
            assert(duration_of(s) == Some(crate::time::of_secs(n as int)));
            assert(unit_millis(unit) == Some(1000int));
        } else if unit == seq!['m'] {
            assert(unit_millis(unit) == Some(60_000int));
            if n * 60_000int <= 0xffff_ffff_ffff_ffff {
                assert(duration_of(s) == Some(crate::time::of_secs(n * 60int)));
            }
        } else if unit == seq!['h'] {
            assert(unit_millis(unit) == Some(3_600_000int));
            if n * 3_600_000int <= 0xffff_ffff_ffff_ffff {
                assert(duration_of(s) == Some(crate::time::of_secs(n * 3600int)));
            }
        } else if unit == seq!['d'] {
            assert(unit_millis(unit) == Some(86_400_000int));
            if n * 86_400_000int <= 0xffff_ffff_ffff_ffff {
                assert(duration_of(s) == Some(crate::time::of_secs(n * 86400int)));
            }
        } else {
            assert(duration_of(s) is None);
        }
    }
}

/// A time is a number of seconds, or digits and one of five units, with blanks
/// around it or without; other units are refused.
#[verifier::rlimit(50)]
pub proof fn law_time_values(s: Seq<char>, digits: Seq<char>, unit: Seq<char>)
    ensures
        number(trimmed(s), 0xffff_ffff_ffff_ffff) matches Some(n) ==> (duration_of(s) matches Some(
            t,
        ) && t.secs == n && t.nanos == 0),
        is_amount(trimmed(s), digits, unit) ==> {
            match number(digits, 0xffff_ffff_ffff_ffff) {
                None => duration_of(s) is None,
                Some(n) => match unit_millis(unit) {
                    None => duration_of(s) is None,
                    Some(each) => n * each <= 0xffff_ffff_ffff_ffff ==> (duration_of(s) matches Some(
                        t,
                    ) && t.secs * 1_000_000_000 + t.nanos == n * each * 1_000_000),
                },
            }
        },
        trimmed(s).len() == 0 || !('0' <= trimmed(s)[0] <= '9' || trimmed(s)[0] == '+')
            ==> duration_of(s) is None,
{
    let t = trimmed(s);
    if is_amount(t, digits, unit) {
        lemma_time_amount(s, digits, unit);
    }
    if t.len() == 0 || !('0' <= t[0] <= '9' || t[0] == '+') {
        if number(t, 0xffff_ffff_ffff_ffff) is Some {
            law_number_by_digits(t, '0', 0xffff_ffff_ffff_ffff);
        }
        assert(t.take(0) =~= seq![]);
    }
}

/// How many bytes the unit of a size stands for, in whatever case.
pub open spec fn unit_bytes(unit: Seq<char>) -> Option<int> {
    if unit == seq!['k'] || unit == seq!['K'] {
        Some(1024)
    } else if unit == seq!['m'] || unit == seq!['M'] {
        Some(1_048_576)
    } else if unit == seq!['g'] || unit == seq!['G'] {
        Some(1_073_741_824)
    } else {
        None
    }
}

proof fn lemma_one_letter(unit: Seq<char>, c: char, up: char)
    requires
        'a' <= c <= 'z',
        up as int == c as int - 32,
    ensures
        lower(unit) == seq![c] <==> unit == seq![c] || unit == seq![up],
{
    if unit.len() == 1 {
        super::text::law_lower(unit, 0);
        assert(unit =~= seq![unit[0]]);
        assert(lower(unit) =~= seq![lower(unit)[0]]);
        if lower(unit) == seq![c] {
            assert(lower(unit)[0] == c);
        }
        if unit == seq![up] {
            assert(unit[0] == up);
            assert(lower(unit)[0] == c);
        }
        if unit == seq![c] {
            assert(unit[0] == c);
        }
    } else {
        assert(lower(unit).len() == unit.len());
        assert(seq![c].len() == 1 && seq![up].len() == 1);
    }
}

/// A size is a number of bytes, or digits and one of three units; other units are
/// refused.
#[verifier::rlimit(50)]
pub proof fn law_size_values(s: Seq<char>, digits: Seq<char>, unit: Seq<char>)
    ensures
        number(trimmed(s), usize::MAX as nat) matches Some(n) ==> size_value(s) == Some(n as usize),
        is_amount(trimmed(s), digits, unit) ==> {
            match number(digits, usize::MAX as nat) {
                None => size_value(s) is None,
                Some(n) => match unit_bytes(unit) {
                    None => size_value(s) is None,
                    Some(each) => n * each <= usize::MAX ==> (size_value(s) matches Some(b) && b
                        == n * each),
                },
            }
        },
        trimmed(s).len() == 0 || !('0' <= trimmed(s)[0] <= '9' || trimmed(s)[0] == '+')
            ==> size_value(s) is None,
{
    reveal_strlit("k");
    reveal_strlit("m");
    reveal_strlit("g");
    assert("k"@ =~= seq!['k']);
    assert("m"@ =~= seq!['m']);
    assert("g"@ =~= seq!['g']);
    lemma_one_letter(unit, 'k', 'K');
    lemma_one_letter(unit, 'm', 'M');
    lemma_one_letter(unit, 'g', 'G');
    let t = trimmed(s);
    if is_amount(t, digits, unit) {
        lemma_amount(t, digits, unit, usize::MAX as nat);
        if let Some(n) = number(digits, usize::MAX as nat) {
            lemma_byte_products(n as usize);
            assert(seq!['k'][0] == 'k' && seq!['m'][0] == 'm' && seq!['g'][0] == 'g');
            assert(seq!['K'][0] == 'K' && seq!['M'][0] == 'M' && seq!['G'][0] == 'G');
            if unit == seq!['k'] || unit == seq!['K'] {
            } else if unit == seq!['m'] || unit == seq!['M'] {
            } else if unit == seq!['g'] || unit == seq!['G'] {
            }
        }
    }
    if t.len() == 0 || !('0' <= t[0] <= '9' || t[0] == '+') {
        if number(t, usize::MAX as nat) is Some {
            law_number_by_digits(t, '0', usize::MAX as nat);
        }
        assert(t.take(0) =~= seq![]);
    }
}

/// A switch is `on` or `off`; everything else is refused.
pub proof fn law_switches(s: Seq<char>, line: usize)
    ensures
        s == seq!['o', 'n'] ==> on_off_of(Some(s), line) == Ok::<bool, Seq<char>>(true),
        s == seq!['o', 'f', 'f'] ==> on_off_of(Some(s), line) == Ok::<bool, Seq<char>>(false),
        s != seq!['o', 'n'] && s != seq!['o', 'f', 'f'] ==> on_off_of(Some(s), line) is Err,
        on_off_of(None, line) is Err,
{
    reveal_strlit("on");
    reveal_strlit("off");
    assert("on"@ =~= seq!['o', 'n']);
    assert("off"@ =~= seq!['o', 'f', 'f']);
}

/// A bare port listens on every address; otherwise address and port are written out.
pub proof fn law_listen_values(s: Seq<char>, line: usize)
    ensures
        number(s, 65535) matches Some(p) ==> (listen_of(s, line) matches Ok(a) && a.port == p
            && a.scope_id == 0 && a.ip.bytes() == seq![0u8, 0, 0, 0] && a.ip is V4),
        number(s, 65535) is None ==> match crate::net::socket_text(s) {
            Some(a) => listen_of(s, line) == Ok::<SocketAddr, Seq<char>>(a),
            None => listen_of(s, line) is Err,
        },
{
    if let Ok(a) = listen_of(s, line) {
        if number(s, 65535) is Some {
            assert(a.ip.bytes() =~= seq![0u8, 0, 0, 0]);
        }
    }
}

} // verus!
