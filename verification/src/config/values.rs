//! The scalar values of directives: durations, sizes, switches, addresses.

use super::lowering::{fail1, fail3, msg1, msg3};
use crate::net::{IpAddr, Ipv4Addr, parse_socket, socket_text, SocketAddr};
use crate::text::{
    chars, digit, is_digit, lower, number, parse_number, result_view, same, to_lower, trim,
    trimmed,
};
use crate::time::{Duration, of_millis, of_secs};
use vstd::prelude::*;
use vstd::string::*;

verus! {

/// Number of decimal digits that `s` starts with.
pub open spec fn digits_len(s: Seq<char>) -> int
    decreases s.len(),
{
    if s.len() > 0 && is_digit(s[0]) {
        1 + digits_len(s.skip(1))
    } else {
        0
    }
}

pub proof fn lemma_digits_len(s: Seq<char>, n: int)
    requires
        0 <= n <= s.len(),
        forall|k: int| 0 <= k < n ==> is_digit(#[trigger] s[k]),
        n == s.len() || !is_digit(s[n]),
    ensures
        digits_len(s) == n,
    decreases n,
{
    if n > 0 {
        assert forall|k: int| 0 <= k < n - 1 implies is_digit(#[trigger] s.skip(1)[k]) by {
            assert(s.skip(1)[k] == s[k + 1]);
        }
        lemma_digits_len(s.skip(1), n - 1);
    }
}

/// A number and the unit behind it. `None` when `s` has no unit or does not
/// start with a number of at most `max`.
pub open spec fn quantity(s: Seq<char>, max: nat) -> Option<(nat, Seq<char>)> {
    let i = digits_len(s);
    if i >= s.len() {
        None
    } else {
        match number(s.take(i), max) {
            Some(n) => Some((n, s.skip(i))),
            None => None,
        }
    }
}

fn parse_quantity<'a>(s: &'a str, max: u64) -> (r: Option<(u64, &'a str)>)
    ensures
        match r {
            Some((n, unit)) => quantity(s@, max as nat) == Some((n as nat, unit@)) && n <= max,
            None => quantity(s@, max as nat) is None,
        },
{
    let v = chars(s);
    let mut i: usize = 0;
    while i < v.len() && digit(v[i])
        invariant
            i <= v@.len(),
            forall|k: int| 0 <= k < i ==> is_digit(#[trigger] v@[k]),
        decreases v@.len() - i,
    {
        i = i + 1;
    }
    proof {
        lemma_digits_len(s@, i as int);
    }
    if i >= v.len() {
        return None;
    }
    let num = s.substring_char(0, i);
    let unit = s.substring_char(i, v.len());
    assert(num@ == s@.take(i as int));
    assert(unit@ == s@.skip(i as int));
    match parse_number(num, max) {
        Some(n) => Some((n, unit)),
        None => None,
    }
}

/// An Nginx-style time value: `10s`, `500ms`, `1m`, `2h`, `1d`, or a bare
/// number of seconds. Seconds are counted modulo 2^64.
pub open spec fn duration_of(s: Seq<char>) -> Option<Duration> {
    let t = trimmed(s);
    match number(t, u64::MAX as nat) {
        Some(n) => Some(of_secs(n as int)),
        None => match quantity(t, u64::MAX as nat) {
            None => None,
            Some((n, unit)) => if unit == "ms"@ {
                Some(of_millis(n as int))
            } else if unit == "s"@ {
                Some(of_secs(n as int))
            } else if unit == "m"@ {
                Some(of_secs((n as u64).wrapping_mul(60) as int))
            } else if unit == "h"@ {
                Some(of_secs((n as u64).wrapping_mul(60).wrapping_mul(60) as int))
            } else if unit == "d"@ {
                Some(
                    of_secs((n as u64).wrapping_mul(60).wrapping_mul(60).wrapping_mul(24) as int),
                )
            } else {
                None
            },
        },
    }
}

/// Parse Nginx-style time values: `10s`, `500ms`, `1m`, `2h`, `1d`, or a bare
/// integer (interpreted as seconds).
pub fn parse_duration(s: &str) -> (r: Option<Duration>)
    ensures
        r == duration_of(s@),
{
    let t = trim(s);
    if let Some(n) = parse_number(t, u64::MAX) {
        return Some(Duration::from_secs(n));
    }
    match parse_quantity(t, u64::MAX) {
        None => None,
        Some((n, unit)) => {
            if same(unit, "ms") {
                Some(Duration::from_millis(n))
            } else if same(unit, "s") {
                Some(Duration::from_secs(n))
            } else if same(unit, "m") {
                Some(Duration::from_secs(n.wrapping_mul(60)))
            } else if same(unit, "h") {
                Some(Duration::from_secs(n.wrapping_mul(60).wrapping_mul(60)))
            } else if same(unit, "d") {
                Some(Duration::from_secs(n.wrapping_mul(60).wrapping_mul(60).wrapping_mul(24)))
            } else {
                None
            }
        },
    }
}

/// An Nginx-style size: `10m`, `1g`, `512k`, or a bare byte count. Bytes are
/// counted modulo the word size.
pub open spec fn size_value(s: Seq<char>) -> Option<usize> {
    let t = trimmed(s);
    match number(t, usize::MAX as nat) {
        Some(n) => Some(n as usize),
        None => match quantity(t, usize::MAX as nat) {
            None => None,
            Some((n, unit)) => if lower(unit) == "k"@ {
                Some((n as usize).wrapping_mul(1024))
            } else if lower(unit) == "m"@ {
                Some((n as usize).wrapping_mul(1024).wrapping_mul(1024))
            } else if lower(unit) == "g"@ {
                Some((n as usize).wrapping_mul(1024).wrapping_mul(1024).wrapping_mul(1024))
            } else {
                None
            },
        },
    }
}

/// Parse Nginx-style sizes: `10m`, `1g`, `512k`, or a bare byte count.
pub fn parse_size(s: &str) -> (r: Option<usize>)
    ensures
        r == size_value(s@),
{
    let t = trim(s);
    if let Some(n) = parse_number(t, usize::MAX as u64) {
        return Some(n as usize);
    }
    match parse_quantity(t, usize::MAX as u64) {
        None => None,
        Some((n, unit)) => {
            let n: usize = n as usize;
            let unit = to_lower(unit);
            if same(unit.as_str(), "k") {
                Some(n.wrapping_mul(1024))
            } else if same(unit.as_str(), "m") {
                Some(n.wrapping_mul(1024).wrapping_mul(1024))
            } else if same(unit.as_str(), "g") {
                Some(n.wrapping_mul(1024).wrapping_mul(1024).wrapping_mul(1024))
            } else {
                None
            }
        },
    }
}

/// `on` or `off`.
pub open spec fn on_off_of(s: Option<Seq<char>>, line: usize) -> Result<bool, Seq<char>> {
    match s {
        Some(v) => if v == "on"@ {
            Ok(true)
        } else if v == "off"@ {
            Ok(false)
        } else {
            Err(msg3(line, "expected 'on' or 'off', got '"@, v, "'"@))
        },
        None => Err(msg1(line, "'gzip' requires 'on' or 'off'"@)),
    }
}

pub fn parse_on_off(s: Option<String>, line: usize) -> (r: Result<bool, String>)
    ensures
        result_view(r) == on_off_of(crate::text::opt_view(s), line),
{
    match s {
        Some(v) => {
            if same(v.as_str(), "on") {
                Ok(true)
            } else if same(v.as_str(), "off") {
                Ok(false)
            } else {
                Err(fail3(line, "expected 'on' or 'off', got '", v.as_str(), "'"))
            }
        },
        None => Err(fail1(line, "'gzip' requires 'on' or 'off'")),
    }
}

/// A port on every IPv4 address.
pub open spec fn any_address(port: u16) -> SocketAddr {
    SocketAddr { ip: IpAddr::V4(Ipv4Addr { a: 0, b: 0, c: 0, d: 0 }), port, scope_id: 0 }
}

/// A listen address: a bare port, or an address and a port.
pub open spec fn listen_of(s: Seq<char>, line: usize) -> Result<SocketAddr, Seq<char>> {
    match number(s, u16::MAX as nat) {
        Some(p) => Ok(any_address(p as u16)),
        None => match socket_text(s) {
            Some(a) => Ok(a),
            None => Err(msg3(line, "invalid listen address '"@, s, "'"@)),
        },
    }
}

pub fn parse_listen(s: &str, line: usize) -> (r: Result<SocketAddr, String>)
    ensures
        result_view(r) == listen_of(s@, line),
{
    if let Some(p) = parse_number(s, u16::MAX as u64) {
        return Ok(
            SocketAddr {
                ip: IpAddr::V4(Ipv4Addr { a: 0, b: 0, c: 0, d: 0 }),
                port: p as u16,
                scope_id: 0,
            },
        );
    }
    match parse_socket(s) {
        Some(a) => Ok(a),
        None => Err(fail3(line, "invalid listen address '", s, "'")),
    }
}

} // verus!
