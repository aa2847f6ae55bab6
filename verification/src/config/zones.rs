//! `map` declarations, cache and limit zones, and the directives that refer
//! to them.

use super::ast::{
    CacheZone, CacheZoneV, LimitConnZoneDecl, LimitConnZoneDeclV, LimitReqZoneDecl,
    LimitReqZoneDeclV, MapDecl, MapDeclV, MapPattern, MapPatternV, MapRule, MapRuleV,
};
use super::lowering::{fail1, fail3, msg1, msg3};
use super::parser::{Directive, directive_view, directive_views, DirectiveV};
use super::values::{duration_of, parse_duration, parse_size, size_value};
use crate::limit::{APPROX_BYTES_PER_ENTRY, parse_rate, Rate, rate_of, RateV};
use crate::template::{Template, template_of};
use crate::text::{
    after_prefix, number, opt_view, parse_number, result_view, same, split_once, split_once_at,
    strip_prefix, views,
};
use crate::time::Duration;
use vstd::prelude::*;
use vstd::string::*;

verus! {

// ---------------------------------------------------------------------------
// map
// ---------------------------------------------------------------------------

/// One entry of a `map` block. A missing value is empty.
pub open spec fn map_rule(d: DirectiveV) -> MapRuleV {
    MapRuleV {
        pattern: if d.name == "default"@ {
            MapPatternV::Default
        } else {
            MapPatternV::Literal(d.name)
        },
        value: template_of(
            if d.args.len() > 0 {
                d.args[0]
            } else {
                Seq::<char>::empty()
            },
        ),
    }
}

/// `map <source> $<output> { … }`.
pub open spec fn map_of(args: Seq<Seq<char>>, block: Seq<DirectiveV>, line: usize) -> Result<
    MapDeclV,
    Seq<char>,
> {
    if args.len() < 2 {
        Err(msg1(line, "'map' requires '<source-template> <output-var> { … }'"@))
    } else {
        match after_prefix(args[1], "$"@) {
            None => Err(
                msg3(line, "'map' output variable must start with '$' (got '"@, args[1], "')"@),
            ),
            Some(output) => Ok(
                MapDeclV {
                    source: template_of(args[0]),
                    output_name: output,
                    rules: Seq::new(block.len(), |i: int| map_rule(block[i])),
                },
            ),
        }
    }
}

fn build_map_rule(entry: &Directive) -> (r: MapRule)
    ensures
        r@ == map_rule(directive_view(*entry)),
{
    let pattern = if same(entry.name.as_str(), "default") {
        MapPattern::Default
    } else {
        MapPattern::Literal(entry.name.clone())
    };
    let value = if entry.args.len() > 0 {
        assert(views(entry.args@)[0] == entry.args@[0]@);
        Template::parse(entry.args[0].as_str())
    } else {
        Template::parse(String::new().as_str())
    };
    MapRule { pattern, value }
}

/// Build a `map $src $output { … }` declaration.
pub(crate) fn build_map(args: &Vec<String>, block: &Vec<Directive>, line: usize) -> (r: Result<
    MapDecl,
    String,
>)
    ensures
        result_view(r) == map_of(views(args@), directive_views(block@), line),
{
    let ghost all = views(args@);
    let ghost entries = directive_views(block@);
    if args.len() < 2 {
        return Err(fail1(line, "'map' requires '<source-template> <output-var> { … }'"));
    }
    assert(all[0] == args@[0]@ && all[1] == args@[1]@);
    let source = Template::parse(args[0].as_str());
    let output_name = match strip_prefix(args[1].as_str(), "$") {
        Some(o) => o.to_owned(),
        None => {
            return Err(
                fail3(
                    line,
                    "'map' output variable must start with '$' (got '",
                    args[1].as_str(),
                    "')",
                ),
            );
        },
    };
    let mut rules: Vec<MapRule> = Vec::new();
    let mut i: usize = 0;
    while i < block.len()
        invariant
            i <= block@.len(),
            i == rules@.len(),
            entries == directive_views(block@),
            forall|k: int| 0 <= k < i ==> (#[trigger] rules@[k])@ == map_rule(entries[k]),
        decreases block@.len() - i,
    {
        rules.push(build_map_rule(&block[i]));
        i = i + 1;
    }
    assert(views(rules@) =~= Seq::new(entries.len(), |i: int| map_rule(entries[i])));
    Ok(MapDecl { source, output_name, rules })
}

// ---------------------------------------------------------------------------
// NAME:SIZE
// ---------------------------------------------------------------------------

/// `NAME:SIZE`, with the messages for text of another shape and for a size
/// that cannot be read.
pub open spec fn zone_of(spec: Seq<char>, line: usize, shape: Seq<char>, size: Seq<char>) -> Result<
    (Seq<char>, usize),
    Seq<char>,
> {
    match split_once_at(spec, ':') {
        None => Err(msg1(line, shape)),
        Some((n, s)) => match size_value(s) {
            Some(bytes) => Ok((n, bytes)),
            None => Err(msg3(line, size, s, "'"@)),
        },
    }
}

fn parse_zone(spec: &str, line: usize, shape: &str, size: &str) -> (r: Result<(String, usize), String>)
    ensures
        result_view(r) == zone_of(spec@, line, shape@, size@),
{
    match split_once(spec, ':') {
        None => Err(fail1(line, shape)),
        Some((n, s)) => match parse_size(s) {
            Some(bytes) => Ok((n.to_owned(), bytes)),
            None => Err(fail3(line, size, s, "'")),
        },
    }
}

/// The number of entries that `bytes` pay for at `each` bytes per entry; at
/// least one.
pub open spec fn entry_cap(bytes: usize, each: int) -> usize {
    if bytes as int / each < 1 {
        1
    } else {
        (bytes as int / each) as usize
    }
}

/// The last `zone=NAME:SIZE` among `args`.
pub open spec fn conn_zone_args(
    found: Option<(Seq<char>, usize)>,
    args: Seq<Seq<char>>,
    line: usize,
) -> Result<Option<(Seq<char>, usize)>, Seq<char>>
    decreases args.len(),
{
    if args.len() == 0 {
        Ok(found)
    } else {
        match after_prefix(args[0], "zone="@) {
            None => conn_zone_args(found, args.skip(1), line),
            Some(spec) => match zone_of(
                spec,
                line,
                "zone= must be NAME:SIZE"@,
                "invalid zone size '"@,
            ) {
                Err(e) => Err(e),
                Ok((n, bytes)) => conn_zone_args(
                    Some((n, entry_cap(bytes, 16))),
                    args.skip(1),
                    line,
                ),
            },
        }
    }
}

/// `limit_conn_zone <key> zone=NAME:SIZE`.
pub open spec fn limit_conn_zone_of(args: Seq<Seq<char>>, line: usize) -> Result<
    LimitConnZoneDeclV,
    Seq<char>,
> {
    if args.len() < 2 {
        Err(msg1(line, "'limit_conn_zone' requires '<key> zone=NAME:SIZE'"@))
    } else {
        match conn_zone_args(None, args.skip(1), line) {
            Err(e) => Err(e),
            Ok(None) => Err(msg1(line, "'limit_conn_zone' missing 'zone=NAME:SIZE'"@)),
            Ok(Some((name, max_entries))) => Ok(
                LimitConnZoneDeclV { name, key_template: template_of(args[0]), max_entries },
            ),
        }
    }
}

pub(crate) fn parse_limit_conn_zone(args: &Vec<String>, line: usize) -> (r: Result<
    LimitConnZoneDecl,
    String,
>)
    ensures
        result_view(r) == limit_conn_zone_of(views(args@), line),
{
    let ghost all = views(args@);
    if args.len() < 2 {
        return Err(fail1(line, "'limit_conn_zone' requires '<key> zone=NAME:SIZE'"));
    }
    assert(all[0] == args@[0]@);
    let key_template = Template::parse(args[0].as_str());
    let mut found: Option<(String, usize)> = None;
    let mut i: usize = 1;
    while i < args.len()
        invariant
            1 <= i <= args@.len(),
            args@.len() >= 2,
            all == views(args@),
            conn_zone_args(opt_view(found), all.skip(i as int), line) == conn_zone_args(
                None,
                all.skip(1),
                line,
            ),
        decreases args@.len() - i,
    {
        let ghost rest = all.skip(i as int);
        assert(rest[0] == args@[i as int]@);
        assert(rest.skip(1) == all.skip(i + 1));
        if let Some(spec) = strip_prefix(args[i].as_str(), "zone=") {
            match parse_zone(spec, line, "zone= must be NAME:SIZE", "invalid zone size '") {
                Err(e) => {
                    return Err(e);
                },
                Ok((n, bytes)) => {
                    let cap: usize = if bytes / 16 < 1 { 1 } else { bytes / 16 };
                    found = Some((n, cap));
                },
            }
        }
        i = i + 1;
    }
    assert(all.skip(i as int).len() == 0);
    match found {
        Some((name, max_entries)) => Ok(LimitConnZoneDecl { name, key_template, max_entries }),
        None => Err(fail1(line, "'limit_conn_zone' missing 'zone=NAME:SIZE'")),
    }
}

/// `limit_conn zone=NAME N` or `limit_conn NAME N`.
pub open spec fn limit_conn_of(args: Seq<Seq<char>>, line: usize) -> Result<
    (Seq<char>, u32),
    Seq<char>,
> {
    if args.len() < 2 {
        Err(msg1(line, "'limit_conn' requires 'zone=NAME N' (or 'NAME N')"@))
    } else {
        match number(args[1], u32::MAX as nat) {
            Some(n) => Ok(
                (
                    match after_prefix(args[0], "zone="@) {
                        Some(z) => z,
                        None => args[0],
                    },
                    n as u32,
                ),
            ),
            None => Err(msg3(line, "'limit_conn' max '"@, args[1], "' is not a number"@)),
        }
    }
}

pub(crate) fn parse_limit_conn(args: &Vec<String>, line: usize) -> (r: Result<(String, u32), String>)
    ensures
        result_view(r) == limit_conn_of(views(args@), line),
{
    if args.len() < 2 {
        return Err(fail1(line, "'limit_conn' requires 'zone=NAME N' (or 'NAME N')"));
    }
    assert(views(args@)[0] == args@[0]@ && views(args@)[1] == args@[1]@);
    let zone = match strip_prefix(args[0].as_str(), "zone=") {
        Some(z) => z.to_owned(),
        None => args[0].clone(),
    };
    match parse_number(args[1].as_str(), u32::MAX as u64) {
        Some(n) => Ok((zone, n as u32)),
        None => Err(fail3(line, "'limit_conn' max '", args[1].as_str(), "' is not a number")),
    }
}

/// What the arguments of `limit_req_zone` have named so far.
pub struct ReqZoneArgs {
    pub zone: Option<(Seq<char>, usize)>,
    pub rate: Option<RateV>,
}

/// The last `zone=NAME:SIZE` and the last `rate=` among `args`.
pub open spec fn req_zone_args(found: ReqZoneArgs, args: Seq<Seq<char>>, line: usize) -> Result<
    ReqZoneArgs,
    Seq<char>,
>
    decreases args.len(),
{
    if args.len() == 0 {
        Ok(found)
    } else {
        match after_prefix(args[0], "zone="@) {
            Some(spec) => match zone_of(
                spec,
                line,
                "zone= must be NAME:SIZE"@,
                "invalid zone size '"@,
            ) {
                Err(e) => Err(e),
                Ok((n, bytes)) => req_zone_args(
                    ReqZoneArgs {
                        zone: Some((n, entry_cap(bytes, APPROX_BYTES_PER_ENTRY as int))),
                        ..found
                    },
                    args.skip(1),
                    line,
                ),
            },
            None => match after_prefix(args[0], "rate="@) {
                Some(rs) => match rate_of(rs) {
                    Some(rate) => req_zone_args(
                        ReqZoneArgs { rate: Some(rate), ..found },
                        args.skip(1),
                        line,
                    ),
                    None => Err(
                        msg3(
                            line,
                            "invalid rate '"@,
                            rs,
                            "' (expected e.g. '5r/s', '60r/m')"@,
                        ),
                    ),
                },
                None => req_zone_args(found, args.skip(1), line),
            },
        }
    }
}

/// `limit_req_zone <key> zone=NAME:SIZE rate=Nr/s`.
pub open spec fn limit_req_zone_of(args: Seq<Seq<char>>, line: usize) -> Result<
    LimitReqZoneDeclV,
    Seq<char>,
> {
    if args.len() < 3 {
        Err(msg1(line, "'limit_req_zone' requires '<key> zone=NAME:SIZE rate=Nr/s'"@))
    } else {
        match req_zone_args(ReqZoneArgs { zone: None, rate: None }, args.skip(1), line) {
            Err(e) => Err(e),
            Ok(found) => match (found.zone, found.rate) {
                (None, _) => Err(msg1(line, "'limit_req_zone' missing 'zone=NAME:SIZE'"@)),
                (_, None) => Err(msg1(line, "'limit_req_zone' missing 'rate=Nr/s'"@)),
                (Some((name, max_entries)), Some(rate)) => Ok(
                    LimitReqZoneDeclV {
                        name,
                        key_template: template_of(args[0]),
                        rate,
                        max_entries,
                    },
                ),
            },
        }
    }
}

/// Parse `limit_req_zone <key> zone=NAME:SIZE rate=Nr/s;`.
pub(crate) fn parse_limit_req_zone(args: &Vec<String>, line: usize) -> (r: Result<
    LimitReqZoneDecl,
    String,
>)
    ensures
        result_view(r) == limit_req_zone_of(views(args@), line),
{
    let ghost all = views(args@);
    if args.len() < 3 {
        return Err(fail1(line, "'limit_req_zone' requires '<key> zone=NAME:SIZE rate=Nr/s'"));
    }
    assert(all[0] == args@[0]@);
    let key_template = Template::parse(args[0].as_str());
    let mut zone: Option<(String, usize)> = None;
    let mut rate: Option<Rate> = None;
    let mut i: usize = 1;
    while i < args.len()
        invariant
            1 <= i <= args@.len(),
            args@.len() >= 3,
            all == views(args@),
            req_zone_args(
                ReqZoneArgs { zone: opt_view(zone), rate: opt_view(rate) },
                all.skip(i as int),
                line,
            ) == req_zone_args(ReqZoneArgs { zone: None, rate: None }, all.skip(1), line),
        decreases args@.len() - i,
    {
        let ghost rest = all.skip(i as int);
        assert(rest[0] == args@[i as int]@);
        assert(rest.skip(1) == all.skip(i + 1));
        if let Some(spec) = strip_prefix(args[i].as_str(), "zone=") {
            match parse_zone(spec, line, "zone= must be NAME:SIZE", "invalid zone size '") {
                Err(e) => {
                    return Err(e);
                },
                Ok((n, bytes)) => {
                    let cap: usize = if bytes / APPROX_BYTES_PER_ENTRY < 1 {
                        1
                    } else {
                        bytes / APPROX_BYTES_PER_ENTRY
                    };
                    zone = Some((n, cap));
                },
            }
        } else if let Some(rs) = strip_prefix(args[i].as_str(), "rate=") {
            match parse_rate(rs) {
                Some(x) => {
                    rate = Some(x);
                },
                None => {
                    return Err(
                        fail3(line, "invalid rate '", rs, "' (expected e.g. '5r/s', '60r/m')"),
                    );
                },
            }
        }
        i = i + 1;
    }
    assert(all.skip(i as int).len() == 0);
    match (zone, rate) {
        (None, _) => Err(fail1(line, "'limit_req_zone' missing 'zone=NAME:SIZE'")),
        (_, None) => Err(fail1(line, "'limit_req_zone' missing 'rate=Nr/s'")),
        (Some((name, max_entries)), Some(rate)) => Ok(
            LimitReqZoneDecl { name, key_template, rate, max_entries },
        ),
    }
}

/// The last `zone=NAME` and the last `burst=N` among `args`.
pub open spec fn limit_req_args(
    zone: Option<Seq<char>>,
    burst: u32,
    args: Seq<Seq<char>>,
    line: usize,
) -> Result<(Option<Seq<char>>, u32), Seq<char>>
    decreases args.len(),
{
    if args.len() == 0 {
        Ok((zone, burst))
    } else {
        match after_prefix(args[0], "zone="@) {
            Some(z) => limit_req_args(Some(z), burst, args.skip(1), line),
            None => match after_prefix(args[0], "burst="@) {
                Some(b) => match number(b, u32::MAX as nat) {
                    Some(n) => limit_req_args(zone, n as u32, args.skip(1), line),
                    None => Err(msg3(line, "invalid burst '"@, b, "'"@)),
                },
                None => limit_req_args(zone, burst, args.skip(1), line),
            },
        }
    }
}

/// `limit_req zone=NAME [burst=N] [nodelay]`.
pub open spec fn limit_req_of(args: Seq<Seq<char>>, line: usize) -> Result<
    (Seq<char>, u32),
    Seq<char>,
> {
    match limit_req_args(None, 0, args, line) {
        Err(e) => Err(e),
        Ok((None, _)) => Err(msg1(line, "'limit_req' requires 'zone=NAME'"@)),
        Ok((Some(z), burst)) => Ok((z, burst)),
    }
}

/// Parse `limit_req zone=NAME [burst=N] [nodelay];`. `nodelay` is parsed
/// for compatibility but is the only mode there is.
pub(crate) fn parse_limit_req(args: &Vec<String>, line: usize) -> (r: Result<(String, u32), String>)
    ensures
        result_view(r) == limit_req_of(views(args@), line),
{
    let ghost all = views(args@);
    let mut zone: Option<String> = None;
    let mut burst: u32 = 0;
    let mut i: usize = 0;
    assert(all.skip(0) == all);
    while i < args.len()
        invariant
            i <= args@.len(),
            all == views(args@),
            limit_req_args(opt_view(zone), burst, all.skip(i as int), line) == limit_req_args(
                None,
                0,
                all,
                line,
            ),
        decreases args@.len() - i,
    {
        let ghost rest = all.skip(i as int);
        assert(rest[0] == args@[i as int]@);
        assert(rest.skip(1) == all.skip(i + 1));
        if let Some(z) = strip_prefix(args[i].as_str(), "zone=") {
            zone = Some(z.to_owned());
        } else if let Some(b) = strip_prefix(args[i].as_str(), "burst=") {
            match parse_number(b, u32::MAX as u64) {
                Some(n) => {
                    burst = n as u32;
                },
                None => {
                    return Err(fail3(line, "invalid burst '", b, "'"));
                },
            }
        }
        i = i + 1;
    }
    assert(all.skip(i as int).len() == 0);
    match zone {
        Some(z) => Ok((z, burst)),
        None => Err(fail1(line, "'limit_req' requires 'zone=NAME'")),
    }
}

// ---------------------------------------------------------------------------
// Cache
// ---------------------------------------------------------------------------

/// The last `keys_zone=NAME:SIZE` among `args`; other arguments are ignored.
pub open spec fn cache_path_args(
    found: Option<CacheZoneV>,
    args: Seq<Seq<char>>,
    line: usize,
) -> Result<Option<CacheZoneV>, Seq<char>>
    decreases args.len(),
{
    if args.len() == 0 {
        Ok(found)
    } else {
        match after_prefix(args[0], "keys_zone="@) {
            None => cache_path_args(found, args.skip(1), line),
            Some(spec) => match zone_of(
                spec,
                line,
                "keys_zone must be NAME:SIZE"@,
                "invalid keys_zone size '"@,
            ) {
                Err(e) => Err(e),
                Ok((name, max_bytes)) => cache_path_args(
                    Some(CacheZoneV { name, max_bytes }),
                    args.skip(1),
                    line,
                ),
            },
        }
    }
}

/// `proxy_cache_path … keys_zone=NAME:SIZE …`.
pub open spec fn cache_path_of(args: Seq<Seq<char>>, line: usize) -> Result<CacheZoneV, Seq<char>> {
    if args.len() == 0 {
        Err(
            msg1(
                line,
                "'proxy_cache_path' requires arguments (e.g. 'proxy_cache_path /var/cache keys_zone=app:10m')"@,
            ),
        )
    } else {
        match cache_path_args(None, args, line) {
            Err(e) => Err(e),
            Ok(None) => Err(msg1(line, "'proxy_cache_path' needs 'keys_zone=NAME:SIZE'"@)),
            Ok(Some(z)) => Ok(z),
        }
    }
}

/// Parse a `proxy_cache_path` directive. Only the `keys_zone=NAME:SIZE` pair
/// matters; other arguments (levels, inactive, …) are recognized but ignored.
pub(crate) fn parse_cache_path(args: &Vec<String>, line: usize) -> (r: Result<CacheZone, String>)
    ensures
        result_view(r) == cache_path_of(views(args@), line),
{
    let ghost all = views(args@);
    if args.len() == 0 {
        return Err(
            fail1(
                line,
                "'proxy_cache_path' requires arguments (e.g. 'proxy_cache_path /var/cache keys_zone=app:10m')",
            ),
        );
    }
    let mut zone: Option<CacheZone> = None;
    let mut i: usize = 0;
    assert(all.skip(0) == all);
    while i < args.len()
        invariant
            i <= args@.len(),
            args@.len() > 0,
            all == views(args@),
            cache_path_args(opt_view(zone), all.skip(i as int), line) == cache_path_args(
                None,
                all,
                line,
            ),
        decreases args@.len() - i,
    {
        let ghost rest = all.skip(i as int);
        assert(rest[0] == args@[i as int]@);
        assert(rest.skip(1) == all.skip(i + 1));
        if let Some(spec) = strip_prefix(args[i].as_str(), "keys_zone=") {
            match parse_zone(spec, line, "keys_zone must be NAME:SIZE", "invalid keys_zone size '") {
                Err(e) => {
                    return Err(e);
                },
                Ok((name, max_bytes)) => {
                    zone = Some(CacheZone { name, max_bytes });
                },
            }
        }
        i = i + 1;
    }
    assert(all.skip(i as int).len() == 0);
    match zone {
        Some(z) => Ok(z),
        None => Err(fail1(line, "'proxy_cache_path' needs 'keys_zone=NAME:SIZE'")),
    }
}

/// The status codes in front of a cache duration. `any` stands for every
/// status, written as the empty list, and ends the list.
pub open spec fn codes_of(done: Seq<u16>, args: Seq<Seq<char>>, line: usize) -> Result<
    Seq<u16>,
    Seq<char>,
>
    decreases args.len(),
{
    if args.len() == 0 {
        Ok(done)
    } else if args[0] == "any"@ {
        Ok(seq![])
    } else {
        match number(args[0], u16::MAX as nat) {
            Some(n) => codes_of(done.push(n as u16), args.skip(1), line),
            None => Err(msg3(line, "invalid status code '"@, args[0], "' in proxy_cache_valid"@)),
        }
    }
}

/// `proxy_cache_valid [code | any]... <duration>`.
pub open spec fn cache_valid_of(args: Seq<Seq<char>>, line: usize) -> Result<
    (Seq<u16>, Duration),
    Seq<char>,
> {
    if args.len() == 0 {
        Err(msg1(line, "'proxy_cache_valid' requires a duration argument"@))
    } else {
        match duration_of(args.last()) {
            None => Err(msg3(line, "invalid duration '"@, args.last(), "' in proxy_cache_valid"@)),
            Some(ttl) => match codes_of(seq![], args.drop_last(), line) {
                Ok(codes) => Ok((codes, ttl)),
                Err(e) => Err(e),
            },
        }
    }
}

/// `proxy_cache_valid [code | any]... <duration>;`
pub(crate) fn parse_cache_valid(args: &Vec<String>, line: usize) -> (r: Result<
    (Vec<u16>, Duration),
    String,
>)
    ensures
        result_view(r) == cache_valid_of(views(args@), line),
{
    let ghost all = views(args@);
    let n: usize = args.len();
    if n == 0 {
        return Err(fail1(line, "'proxy_cache_valid' requires a duration argument"));
    }
    assert(all.last() == args@[n - 1]@);
    let ttl = match parse_duration(args[n - 1].as_str()) {
        Some(d) => d,
        None => {
            return Err(
                fail3(line, "invalid duration '", args[n - 1].as_str(), "' in proxy_cache_valid"),
            );
        },
    };
    let ghost head = all.drop_last();
    let mut codes: Vec<u16> = Vec::new();
    assert(codes@ =~= seq![]);
    assert(head.skip(0) == head);
    let mut i: usize = 0;
    while i < n - 1
        invariant
            0 < n == args@.len(),
            i <= n - 1,
            all == views(args@),
            head == all.drop_last(),
            duration_of(all.last()) == Some(ttl),
            codes_of(codes@, head.skip(i as int), line) == codes_of(seq![], head, line),
        decreases n - i,
    {
        let ghost rest = head.skip(i as int);
        assert(rest[0] == args@[i as int]@);
        assert(rest.skip(1) == head.skip(i + 1));
        if same(args[i].as_str(), "any") {
            let none: Vec<u16> = Vec::new();
            assert(none@ =~= seq![]);
            return Ok((none, ttl));
        }
        match parse_number(args[i].as_str(), u16::MAX as u64) {
            Some(c) => {
                codes.push(c as u16);
            },
            None => {
                return Err(
                    fail3(
                        line,
                        "invalid status code '",
                        args[i].as_str(),
                        "' in proxy_cache_valid",
                    ),
                );
            },
        }
        i = i + 1;
    }
    assert(head.skip(i as int).len() == 0);
    Ok((codes, ttl))
}

} // verus!
