//! Network addresses as plain values, with their textual form: dotted quads,
//! colon-separated IPv6 groups with `::` and embedded IPv4, and
//! `address:port` pairs.

use crate::headers::{is_plain, is_plain_char};
use crate::text::{
    all_digits, chars, decimal, digit_char, digits_value, find_pair_from, hexadecimal, is_digit,
    lemma_decimal_digits, lemma_hexadecimal_digits, lemma_pair, lemma_position, lemma_position_is,
    lemma_split_push, lemma_split_whole, pair_at, parse_digits, position, push_decimal, push_hex,
    split, split_at, split_once, split_once_at, views,
};
use vstd::prelude::*;
use vstd::string::*;

verus! {

#[derive(Debug, Clone, Copy, PartialEq, Eq, Hash, Structural)]
pub struct Ipv4Addr {
    pub a: u8,
    pub b: u8,
    pub c: u8,
    pub d: u8,
}

/// The eight 16-bit groups of an IPv6 address, most significant first.
#[derive(Debug, Clone, Copy, PartialEq, Eq, Hash, Structural)]
pub struct Ipv6Addr {
    pub s0: u16,
    pub s1: u16,
    pub s2: u16,
    pub s3: u16,
    pub s4: u16,
    pub s5: u16,
    pub s6: u16,
    pub s7: u16,
}

#[derive(Debug, Clone, Copy, PartialEq, Eq, Hash, Structural)]
pub enum IpAddr {
    V4(Ipv4Addr),
    V6(Ipv6Addr),
}

/// An address and a port. `scope_id` is `0` unless an IPv6 address named one.
#[derive(Debug, Clone, Copy, PartialEq, Eq, Hash, Structural)]
pub struct SocketAddr {
    pub ip: IpAddr,
    pub port: u16,
    pub scope_id: u32,
}

// ---------------------------------------------------------------------------
// Values
// ---------------------------------------------------------------------------

impl Ipv4Addr {
    pub fn new(a: u8, b: u8, c: u8, d: u8) -> (r: Ipv4Addr)
        ensures
            r == (Ipv4Addr { a, b, c, d }),
    {
        Ipv4Addr { a, b, c, d }
    }
}

impl Ipv6Addr {
    pub open spec fn groups(self) -> Seq<u16> {
        seq![self.s0, self.s1, self.s2, self.s3, self.s4, self.s5, self.s6, self.s7]
    }
}

/// The address made of eight groups.
pub open spec fn of_groups(g: Seq<u16>) -> Ipv6Addr {
    Ipv6Addr { s0: g[0], s1: g[1], s2: g[2], s3: g[3], s4: g[4], s5: g[5], s6: g[6], s7: g[7] }
}

pub open spec fn high(g: u16) -> u8 {
    (g / 256) as u8
}

pub open spec fn low(g: u16) -> u8 {
    (g % 256) as u8
}

impl IpAddr {
    /// The bytes of the address in network order.
    pub open spec fn bytes(self) -> Seq<u8> {
        match self {
            IpAddr::V4(v) => seq![v.a, v.b, v.c, v.d],
            IpAddr::V6(v) => {
                let g = v.groups();
                Seq::new(
                    16,
                    |i: int|
                        if i % 2 == 0 {
                            high(g[i / 2])
                        } else {
                            low(g[i / 2])
                        },
                )
            },
        }
    }

    /// The bytes of the address in network order.
    pub fn octets(&self) -> (r: Vec<u8>)
        ensures
            r@ == self.bytes(),
    {
        let mut r: Vec<u8> = Vec::new();
        match self {
            IpAddr::V4(v) => {
                r.push(v.a);
                r.push(v.b);
                r.push(v.c);
                r.push(v.d);
            },
            IpAddr::V6(v) => {
                push_group(&mut r, v.s0);
                push_group(&mut r, v.s1);
                push_group(&mut r, v.s2);
                push_group(&mut r, v.s3);
                push_group(&mut r, v.s4);
                push_group(&mut r, v.s5);
                push_group(&mut r, v.s6);
                push_group(&mut r, v.s7);
            },
        }
        assert(r@ =~= self.bytes());
        r
    }
}

fn push_group(out: &mut Vec<u8>, g: u16)
    ensures
        final(out)@ == old(out)@.push(high(g)).push(low(g)),
{
    out.push((g / 256) as u8);
    out.push((g % 256) as u8);
}

// ---------------------------------------------------------------------------
// Reading
// ---------------------------------------------------------------------------

/// A decimal number without a sign, of at most `max`.
pub open spec fn plain_number(s: Seq<char>, max: nat) -> Option<nat> {
    if s.len() > 0 && all_digits(s) && digits_value(s) <= max {
        Some(digits_value(s))
    } else {
        None
    }
}

fn parse_plain(s: &str, max: u64) -> (r: Option<u64>)
    ensures
        match r {
            Some(n) => plain_number(s@, max as nat) == Some(n as nat),
            None => plain_number(s@, max as nat) is None,
        },
{
    let v = chars(s);
    assert(v@.subrange(0, v@.len() as int) == s@);
    parse_digits(&v, 0, v.len(), max)
}

/// One part of a dotted quad: up to three digits, no leading zero.
pub open spec fn octet(s: Seq<char>) -> Option<nat> {
    if s.len() <= 3 && (s.len() <= 1 || s[0] != '0') {
        plain_number(s, 255)
    } else {
        None
    }
}

fn parse_octet(s: &str) -> (r: Option<u8>)
    ensures
        match r {
            Some(n) => octet(s@) == Some(n as nat),
            None => octet(s@) is None,
        },
{
    let v = chars(s);
    if v.len() <= 3 && (v.len() <= 1 || v[0] != '0') {
        match parse_plain(s, 255) {
            Some(n) => Some(n as u8),
            None => None,
        }
    } else {
        None
    }
}

/// A dotted quad.
pub open spec fn ipv4_text(s: Seq<char>) -> Option<Ipv4Addr> {
    let p = split_at(s, '.');
    if p.len() != 4 {
        None
    } else {
        match (octet(p[0]), octet(p[1]), octet(p[2]), octet(p[3])) {
            (Some(a), Some(b), Some(c), Some(d)) => Some(
                Ipv4Addr { a: a as u8, b: b as u8, c: c as u8, d: d as u8 },
            ),
            _ => None,
        }
    }
}

pub fn parse_ipv4(s: &str) -> (r: Option<Ipv4Addr>)
    ensures
        r == ipv4_text(s@),
{
    let p = split(s, '.');
    assert(views(p@).len() == p@.len());
    if p.len() != 4 {
        return None;
    }
    assert(views(p@)[0] == p@[0]@ && views(p@)[1] == p@[1]@ && views(p@)[2] == p@[2]@ && views(p@)[3]
        == p@[3]@);
    match (parse_octet(&p[0]), parse_octet(&p[1]), parse_octet(&p[2]), parse_octet(&p[3])) {
        (Some(a), Some(b), Some(c), Some(d)) => Some(Ipv4Addr { a, b, c, d }),
        _ => None,
    }
}

pub open spec fn hex_value(c: char) -> Option<nat> {
    if '0' <= c <= '9' {
        Some((c as int - 48) as nat)
    } else if 'a' <= c <= 'f' {
        Some((c as int - 87) as nat)
    } else if 'A' <= c <= 'F' {
        Some((c as int - 55) as nat)
    } else {
        None
    }
}

/// The number that a string of hexadecimal digits denotes.
pub open spec fn hex_number(s: Seq<char>) -> Option<nat>
    decreases s.len(),
{
    if s.len() == 0 {
        Some(0)
    } else {
        match (hex_number(s.drop_last()), hex_value(s.last())) {
            (Some(n), Some(d)) => Some(n * 16 + d),
            _ => None,
        }
    }
}

/// One IPv6 group: one to four hexadecimal digits.
pub open spec fn group(s: Seq<char>) -> Option<nat> {
    if 1 <= s.len() <= 4 {
        hex_number(s)
    } else {
        None
    }
}

fn hex_digit(c: char) -> (r: Option<u16>)
    ensures
        match r {
            Some(d) => hex_value(c) == Some(d as nat) && d < 16,
            None => hex_value(c) is None,
        },
{
    if '0' <= c && c <= '9' {
        Some((c as u32 - 48) as u16)
    } else if 'a' <= c && c <= 'f' {
        Some((c as u32 - 87) as u16)
    } else if 'A' <= c && c <= 'F' {
        Some((c as u32 - 55) as u16)
    } else {
        None
    }
}

proof fn lemma_hex_bad(s: Seq<char>, i: int)
    requires
        0 <= i < s.len(),
        hex_value(s[i]) is None,
    ensures
        hex_number(s) is None,
    decreases s.len(),
{
    if i < s.len() - 1 {
        lemma_hex_bad(s.drop_last(), i);
    }
}

fn parse_group(s: &str) -> (r: Option<u16>)
    ensures
        match r {
            Some(n) => group(s@) == Some(n as nat),
            None => group(s@) is None,
        },
{
    let v = chars(s);
    if v.len() == 0 || v.len() > 4 {
        return None;
    }
    let mut n: u32 = 0;
    let mut bound: u32 = 1;
    let mut i: usize = 0;
    while i < v.len()
        invariant
            v@ == s@,
            i <= v@.len() <= 4,
            hex_number(s@.take(i as int)) == Some(n as nat),
            n < bound,
            bound == (if i == 0 { 1int } else if i == 1 { 16 } else if i == 2 { 256 } else if i == 3 {
                4096
            } else { 65536 }),
        decreases v@.len() - i,
    {
        match hex_digit(v[i]) {
            None => {
                proof {
                    lemma_hex_bad(s@, i as int);
                }
                return None;
            },
            Some(d) => {
                assert(s@.take(i + 1).drop_last() == s@.take(i as int));
                n = n * 16 + d as u32;
                bound = bound * 16;
            },
        }
        i = i + 1;
    }
    assert(s@.take(i as int) == s@);
    Some(n as u16)
}

/// The groups of colon-separated text. With `quad`, the last part may be a
/// dotted quad, which counts for two groups.
pub open spec fn chunk(s: Seq<char>, quad: bool) -> Option<Seq<u16>> {
    if s.len() == 0 {
        Some(seq![])
    } else {
        parts(split_at(s, ':'), quad)
    }
}

pub open spec fn quad_groups(v: Ipv4Addr) -> Seq<u16> {
    seq![(v.a * 256 + v.b) as u16, (v.c * 256 + v.d) as u16]
}

/// The groups that one part stands for.
pub open spec fn part(p: Seq<char>, quad: bool) -> Option<Seq<u16>> {
    match group(p) {
        Some(g) => Some(seq![g as u16]),
        None => if quad {
            match ipv4_text(p) {
                Some(v) => Some(quad_groups(v)),
                None => None,
            }
        } else {
            None
        },
    }
}

pub open spec fn parts(p: Seq<Seq<char>>, quad: bool) -> Option<Seq<u16>>
    decreases p.len(),
{
    if p.len() == 0 {
        Some(seq![])
    } else {
        match (parts(p.drop_last(), false), part(p.last(), quad)) {
            (Some(a), Some(b)) => Some(a + b),
            _ => None,
        }
    }
}

proof fn lemma_parts_bad(p: Seq<Seq<char>>, quad: bool, i: int)
    requires
        0 <= i < p.len(),
        part(p[i], quad && i == p.len() - 1) is None,
    ensures
        parts(p, quad) is None,
    decreases p.len(),
{
    if i < p.len() - 1 {
        assert(p.drop_last()[i] == p[i]);
        lemma_parts_bad(p.drop_last(), false, i);
    }
}

fn parse_part(p: &str, quad: bool) -> (r: Option<Vec<u16>>)
    ensures
        match r {
            Some(g) => part(p@, quad) == Some(g@),
            None => part(p@, quad) is None,
        },
{
    let mut out: Vec<u16> = Vec::new();
    match parse_group(p) {
        Some(g) => {
            out.push(g);
            assert(out@ =~= seq![g]);
            return Some(out);
        },
        None => {},
    }
    if quad {
        match parse_ipv4(p) {
            Some(v) => {
                out.push(v.a as u16 * 256 + v.b as u16);
                out.push(v.c as u16 * 256 + v.d as u16);
                assert(out@ =~= quad_groups(v));
                return Some(out);
            },
            None => {},
        }
    }
    None
}

fn parse_chunk(s: &str, quad: bool) -> (r: Option<Vec<u16>>)
    ensures
        match r {
            Some(g) => chunk(s@, quad) == Some(g@),
            None => chunk(s@, quad) is None,
        },
{
    let mut out: Vec<u16> = Vec::new();
    if s.is_empty() {
        assert(out@ =~= Seq::<u16>::empty());
        return Some(out);
    }
    let p = split(s, ':');
    let ghost all = views(p@);
    let n: usize = p.len();
    if n == 0 {
        assert(parts(all, quad) == Some(Seq::<u16>::empty()));
        assert(out@ =~= Seq::<u16>::empty());
        return Some(out);
    }
    let mut i: usize = 0;
    assert(parts(all.take(0), false) == Some(Seq::<u16>::empty()));
    assert(out@ =~= Seq::<u16>::empty());
    while i < n - 1
        invariant
            0 < n == p@.len(),
            i <= n - 1,
            all == views(p@),
            all == split_at(s@, ':'),
            s@.len() > 0,
            parts(all.take(i as int), false) == Some(out@),
        decreases n - i,
    {
        assert(all[i as int] == p@[i as int]@);
        match parse_part(&p[i], false) {
            None => {
                proof {
                    lemma_parts_bad(all, quad, i as int);
                }
                return None;
            },
            Some(g) => {
                assert(all.take(i + 1).drop_last() == all.take(i as int));
                let mut g = g;
                out.append(&mut g);
            },
        }
        i = i + 1;
    }
    assert(all[n - 1] == p@[n - 1]@);
    assert(all.drop_last() == all.take(n - 1));
    match parse_part(&p[n - 1], quad) {
        None => None,
        Some(g) => {
            let mut g = g;
            out.append(&mut g);
            Some(out)
        },
    }
}

pub open spec fn zeros(n: int) -> Seq<u16> {
    Seq::new(n as nat, |i: int| 0u16)
}

/// The groups of an IPv6 address. `::` stands for at least one zero group and
/// fills the address up to eight.
pub open spec fn ipv6_groups(s: Seq<char>) -> Option<Seq<u16>> {
    let i = pair_at(s, ':', ':');
    if i >= s.len() {
        match chunk(s, true) {
            Some(g) => if g.len() == 8 {
                Some(g)
            } else {
                None
            },
            None => None,
        }
    } else {
        match (chunk(s.take(i), false), chunk(s.skip(i + 2), true)) {
            (Some(a), Some(b)) => if a.len() + b.len() <= 7 {
                Some(a + zeros(8 - a.len() - b.len()) + b)
            } else {
                None
            },
            _ => None,
        }
    }
}

pub open spec fn ipv6_text(s: Seq<char>) -> Option<Ipv6Addr> {
    match ipv6_groups(s) {
        Some(g) => Some(of_groups(g)),
        None => None,
    }
}

pub fn parse_ipv6(s: &str) -> (r: Option<Ipv6Addr>)
    ensures
        r == ipv6_text(s@),
{
    let v = chars(s);
    let n: usize = v.len();
    let i = find_pair_from(&v, ':', ':');
    let g: Vec<u16>;
    if i >= n {
        match parse_chunk(s, true) {
            None => {
                return None;
            },
            Some(x) => {
                if x.len() != 8 {
                    return None;
                }
                g = x;
            },
        }
    } else {
        let head = s.substring_char(0, i);
        let tail = s.substring_char(i + 2, n);
        assert(head@ == s@.take(i as int));
        assert(tail@ == s@.skip(i + 2));
        match (parse_chunk(head, false), parse_chunk(tail, true)) {
            (Some(a), Some(b)) => {
                if a.len() > 7 || b.len() > 7 - a.len() {
                    return None;
                }
                let ghost ga = a@;
                let mut out = a;
                let fill: usize = 8 - out.len() - b.len();
                let mut k: usize = 0;
                while k < fill
                    invariant
                        k <= fill,
                        out@ == ga + zeros(k as int),
                    decreases fill - k,
                {
                    out.push(0);
                    k = k + 1;
                    assert(out@ =~= ga + zeros(k as int));
                }
                let mut b = b;
                out.append(&mut b);
                g = out;
            },
            _ => {
                return None;
            },
        }
    }
    Some(
        Ipv6Addr {
            s0: g[0],
            s1: g[1],
            s2: g[2],
            s3: g[3],
            s4: g[4],
            s5: g[5],
            s6: g[6],
            s7: g[7],
        },
    )
}

/// An IPv4 or IPv6 address.
pub open spec fn ip_text(s: Seq<char>) -> Option<IpAddr> {
    match ipv4_text(s) {
        Some(v) => Some(IpAddr::V4(v)),
        None => match ipv6_text(s) {
            Some(v) => Some(IpAddr::V6(v)),
            None => None,
        },
    }
}

pub fn parse_ip(s: &str) -> (r: Option<IpAddr>)
    ensures
        r == ip_text(s@),
{
    match parse_ipv4(s) {
        Some(v) => Some(IpAddr::V4(v)),
        None => match parse_ipv6(s) {
            Some(v) => Some(IpAddr::V6(v)),
            None => None,
        },
    }
}

/// `address%scope`, where the scope may be missing.
pub open spec fn scoped_text(s: Seq<char>) -> Option<(Ipv6Addr, u32)> {
    match split_once_at(s, '%') {
        None => match ipv6_text(s) {
            Some(v) => Some((v, 0u32)),
            None => None,
        },
        Some((a, z)) => match (ipv6_text(a), plain_number(z, u32::MAX as nat)) {
            (Some(v), Some(n)) => Some((v, n as u32)),
            _ => None,
        },
    }
}

fn parse_scoped(s: &str) -> (r: Option<(Ipv6Addr, u32)>)
    ensures
        r == scoped_text(s@),
{
    match split_once(s, '%') {
        None => match parse_ipv6(s) {
            Some(v) => Some((v, 0u32)),
            None => None,
        },
        Some((a, z)) => match (parse_ipv6(a), parse_plain(z, u32::MAX as u64)) {
            (Some(v), Some(n)) => Some((v, n as u32)),
            _ => None,
        },
    }
}

/// `a.b.c.d:port` or `[v6]:port`.
pub open spec fn socket_text(s: Seq<char>) -> Option<SocketAddr> {
    if s.len() > 0 && s[0] == '[' {
        match split_once_at(s.skip(1), ']') {
            None => None,
            Some((inner, rest)) => if rest.len() > 0 && rest[0] == ':' {
                match (scoped_text(inner), plain_number(rest.skip(1), u16::MAX as nat)) {
                    (Some((v, scope_id)), Some(p)) => Some(
                        SocketAddr { ip: IpAddr::V6(v), port: p as u16, scope_id },
                    ),
                    _ => None,
                }
            } else {
                None
            },
        }
    } else {
        match split_once_at(s, ':') {
            None => None,
            Some((a, p)) => match (ipv4_text(a), plain_number(p, u16::MAX as nat)) {
                (Some(v), Some(n)) => Some(
                    SocketAddr { ip: IpAddr::V4(v), port: n as u16, scope_id: 0 },
                ),
                _ => None,
            },
        }
    }
}

pub fn parse_socket(s: &str) -> (r: Option<SocketAddr>)
    ensures
        r == socket_text(s@),
{
    let v = chars(s);
    if v.len() > 0 && v[0] == '[' {
        let body = s.substring_char(1, v.len());
        assert(body@ == s@.skip(1));
        match split_once(body, ']') {
            None => None,
            Some((inner, rest)) => {
                let w = chars(rest);
                if w.len() > 0 && w[0] == ':' {
                    let port = rest.substring_char(1, w.len());
                    assert(port@ == rest@.skip(1));
                    match (parse_scoped(inner), parse_plain(port, u16::MAX as u64)) {
                        (Some((v, scope_id)), Some(p)) => Some(
                            SocketAddr { ip: IpAddr::V6(v), port: p as u16, scope_id },
                        ),
                        _ => None,
                    }
                } else {
                    None
                }
            },
        }
    } else {
        match split_once(s, ':') {
            None => None,
            Some((a, p)) => match (parse_ipv4(a), parse_plain(p, u16::MAX as u64)) {
                (Some(v), Some(n)) => Some(
                    SocketAddr { ip: IpAddr::V4(v), port: n as u16, scope_id: 0 },
                ),
                _ => None,
            },
        }
    }
}

// ---------------------------------------------------------------------------
// Writing
// ---------------------------------------------------------------------------

pub open spec fn ipv4_string(v: Ipv4Addr) -> Seq<char> {
    decimal(v.a as nat) + "."@ + decimal(v.b as nat) + "."@ + decimal(v.c as nat) + "."@ + decimal(
        v.d as nat,
    )
}

fn push_ipv4(out: &mut String, v: Ipv4Addr)
    ensures
        final(out)@ == old(out)@ + ipv4_string(v),
{
    push_decimal(out, v.a as u64);
    out.append(".");
    push_decimal(out, v.b as u64);
    out.append(".");
    push_decimal(out, v.c as u64);
    out.append(".");
    push_decimal(out, v.d as u64);
    assert(out@ =~= old(out)@ + ipv4_string(v));
}

/// Groups in hexadecimal, separated by colons.
pub open spec fn groups_string(g: Seq<u16>) -> Seq<char>
    decreases g.len(),
{
    if g.len() == 0 {
        seq![]
    } else if g.len() == 1 {
        hexadecimal(g[0] as nat)
    } else {
        groups_string(g.drop_last()) + ":"@ + hexadecimal(g.last() as nat)
    }
}

fn push_groups(out: &mut String, g: &Vec<u16>, from: usize, to: usize)
    requires
        from <= to <= g@.len(),
    ensures
        final(out)@ == old(out)@ + groups_string(g@.subrange(from as int, to as int)),
{
    let ghost start = out@;
    let mut i: usize = from;
    assert(out@ =~= start + groups_string(g@.subrange(from as int, from as int)));
    while i < to
        invariant
            from <= i <= to <= g@.len(),
            out@ == start + groups_string(g@.subrange(from as int, i as int)),
        decreases to - i,
    {
        if i > from {
            out.append(":");
        }
        push_hex(out, g[i] as u64);
        i = i + 1;
        proof {
            let now = g@.subrange(from as int, i as int);
            assert(now.drop_last() == g@.subrange(from as int, i - 1));
            assert(out@ =~= start + groups_string(now));
        }
    }
}

/// Number of zero groups from `i` on.
pub open spec fn run_at(g: Seq<u16>, i: int) -> int
    decreases g.len() - i,
{
    if 0 <= i < g.len() && g[i] == 0 {
        1 + run_at(g, i + 1)
    } else {
        0
    }
}

/// The first of the longest runs of zero groups that start before `n`.
pub open spec fn best_run(g: Seq<u16>, n: int) -> int
    decreases n,
{
    if n <= 1 {
        0
    } else if run_at(g, n - 1) > run_at(g, best_run(g, n - 1)) {
        n - 1
    } else {
        best_run(g, n - 1)
    }
}

pub open spec fn is_mapped(g: Seq<u16>) -> bool {
    g[0] == 0 && g[1] == 0 && g[2] == 0 && g[3] == 0 && g[4] == 0 && g[5] == 0xffff
}

/// The canonical text of an IPv6 address: an IPv4-mapped address keeps its
/// dotted quad; otherwise the first longest run of two or more zero groups is
/// written `::`.
pub open spec fn ipv6_string(v: Ipv6Addr) -> Seq<char> {
    let g = v.groups();
    let at = best_run(g, 8);
    let n = run_at(g, at);
    if is_mapped(g) {
        "::ffff:"@ + ipv4_string(
            Ipv4Addr { a: high(g[6]), b: low(g[6]), c: high(g[7]), d: low(g[7]) },
        )
    } else if n > 1 {
        groups_string(g.take(at)) + "::"@ + groups_string(g.skip(at + n))
    } else {
        groups_string(g)
    }
}

pub proof fn lemma_run_bounds(g: Seq<u16>, i: int)
    requires
        0 <= i <= g.len(),
    ensures
        0 <= run_at(g, i) <= g.len() - i,
    decreases g.len() - i,
{
    if i < g.len() && g[i] == 0 {
        lemma_run_bounds(g, i + 1);
    }
}

fn run_len(g: &Vec<u16>, i: usize) -> (n: usize)
    requires
        i <= g@.len(),
    ensures
        n == run_at(g@, i as int),
        n <= g@.len() - i,
    decreases g@.len() - i,
{
    proof {
        lemma_run_bounds(g@, i as int);
    }
    if i < g.len() && g[i] == 0 {
        1 + run_len(g, i + 1)
    } else {
        0
    }
}

fn push_ipv6(out: &mut String, v: Ipv6Addr)
    ensures
        final(out)@ == old(out)@ + ipv6_string(v),
{
    let mut g: Vec<u16> = Vec::new();
    g.push(v.s0);
    g.push(v.s1);
    g.push(v.s2);
    g.push(v.s3);
    g.push(v.s4);
    g.push(v.s5);
    g.push(v.s6);
    g.push(v.s7);
    assert(g@ =~= v.groups());
    if g[0] == 0 && g[1] == 0 && g[2] == 0 && g[3] == 0 && g[4] == 0 && g[5] == 0xffff {
        out.append("::ffff:");
        push_ipv4(
            out,
            Ipv4Addr {
                a: (g[6] / 256) as u8,
                b: (g[6] % 256) as u8,
                c: (g[7] / 256) as u8,
                d: (g[7] % 256) as u8,
            },
        );
        assert(out@ =~= old(out)@ + ipv6_string(v));
        return;
    }
    let mut at: usize = 0;
    let mut n: usize = run_len(&g, 0);
    let mut i: usize = 1;
    while i < 8
        invariant
            1 <= i <= 8,
            g@.len() == 8,
            at < i,
            at == best_run(g@, i as int),
            n == run_at(g@, at as int),
            n <= 8 - at,
        decreases 8 - i,
    {
        let m = run_len(&g, i);
        if m > n {
            at = i;
            n = m;
        }
        i = i + 1;
    }
    if n > 1 {
        push_groups(out, &g, 0, at);
        out.append("::");
        push_groups(out, &g, at + n, 8);
        assert(g@.subrange(0, at as int) == g@.take(at as int));
        assert(g@.subrange(at + n, 8) == g@.skip(at + n));
    } else {
        push_groups(out, &g, 0, 8);
        assert(g@.subrange(0, 8) == g@);
    }
    assert(out@ =~= old(out)@ + ipv6_string(v));
}

/// The text of an address.
pub open spec fn ip_string(ip: IpAddr) -> Seq<char> {
    match ip {
        IpAddr::V4(v) => ipv4_string(v),
        IpAddr::V6(v) => ipv6_string(v),
    }
}

pub fn format_ip(ip: IpAddr) -> (s: String)
    ensures
        s@ == ip_string(ip),
{
    let mut s = String::new();
    match ip {
        IpAddr::V4(v) => push_ipv4(&mut s, v),
        IpAddr::V6(v) => push_ipv6(&mut s, v),
    }
    assert(s@ =~= ip_string(ip));
    s
}

/// The text of an address and port; IPv6 addresses stand in brackets.
pub open spec fn socket_string(a: SocketAddr) -> Seq<char> {
    match a.ip {
        IpAddr::V4(v) => ipv4_string(v) + ":"@ + decimal(a.port as nat),
        IpAddr::V6(v) => "["@ + ipv6_string(v) + (if a.scope_id == 0 {
            seq![]
        } else {
            "%"@ + decimal(a.scope_id as nat)
        }) + "]:"@ + decimal(a.port as nat),
    }
}

pub fn format_socket(a: SocketAddr) -> (s: String)
    ensures
        s@ == socket_string(a),
{
    let mut s = String::new();
    match a.ip {
        IpAddr::V4(v) => {
            push_ipv4(&mut s, v);
            s.append(":");
        },
        IpAddr::V6(v) => {
            s.append("[");
            push_ipv6(&mut s, v);
            if a.scope_id != 0 {
                s.append("%");
                push_decimal(&mut s, a.scope_id as u64);
            }
            s.append("]:");
        },
    }
    push_decimal(&mut s, a.port as u64);
    assert(s@ =~= socket_string(a));
    s
}

// ---------------------------------------------------------------------------
// Laws
// ---------------------------------------------------------------------------

/// A character of a written address.
pub open spec fn is_address_char(c: char) -> bool {
    '0' <= c <= '9' || 'a' <= c <= 'f' || c == ':' || c == '.'
}

pub open spec fn in_address(s: Seq<char>) -> bool {
    forall|i: int| 0 <= i < s.len() ==> is_address_char(#[trigger] s[i])
}

proof fn lemma_decimal_chars(n: nat)
    ensures
        in_address(decimal(n)),
        !decimal(n).contains('.'),
        !decimal(n).contains(':'),
{
    lemma_decimal_digits(n);
    assert forall|i: int| 0 <= i < decimal(n).len() implies is_digit(#[trigger] decimal(n)[i]) by {
    }
}

proof fn lemma_octet(n: nat)
    requires
        n <= 255,
    ensures
        octet(decimal(n)) == Some(n),
        1 <= decimal(n).len() <= 3,
{
    lemma_decimal_digits(n);
    reveal_with_fuel(decimal, 4);
    if n >= 100 {
        assert(decimal(n)[0] == digit_char((n / 10 / 10) as int));
    } else if n >= 10 {
        assert(decimal(n)[0] == digit_char((n / 10) as int));
    }
}

/// A dotted quad reads back as itself.
proof fn lemma_ipv4_reads_back(v: Ipv4Addr)
    ensures
        ipv4_text(ipv4_string(v)) == Some(v),
        ipv4_string(v).len() >= 7,
        in_address(ipv4_string(v)),
        !ipv4_string(v).contains(':'),
        '0' <= ipv4_string(v)[0] <= '9',
        split_at(ipv4_string(v), '.') == seq![
            decimal(v.a as nat),
            decimal(v.b as nat),
            decimal(v.c as nat),
            decimal(v.d as nat),
        ],
{
    reveal_strlit(".");
    let (a, b, c, d) = (
        decimal(v.a as nat),
        decimal(v.b as nat),
        decimal(v.c as nat),
        decimal(v.d as nat),
    );
    assert("."@ =~= seq!['.']);
    lemma_octet(v.a as nat);
    lemma_octet(v.b as nat);
    lemma_octet(v.c as nat);
    lemma_octet(v.d as nat);
    lemma_decimal_chars(v.a as nat);
    lemma_decimal_chars(v.b as nat);
    lemma_decimal_chars(v.c as nat);
    lemma_decimal_chars(v.d as nat);
    lemma_decimal_digits(v.a as nat);
    lemma_split_whole(a, '.');
    lemma_split_push(a, '.', b);
    let ab = a + seq!['.'] + b;
    lemma_split_push(ab, '.', c);
    let abc = ab + seq!['.'] + c;
    lemma_split_push(abc, '.', d);
    let s = ipv4_string(v);
    assert(s =~= abc + seq!['.'] + d);
    assert(split_at(s, '.') =~= seq![a, b, c, d]);
    assert forall|i: int| 0 <= i < s.len() implies is_address_char(#[trigger] s[i]) && s[i]
        != ':' by {
        let (m, n) = (a.len() as int, b.len() as int);
        let o = c.len() as int;
        if i < m {
            assert(s[i] == a[i]);
            assert(a.contains(a[i]));
        } else if m < i < m + 1 + n {
            assert(s[i] == b[i - m - 1]);
            assert(b.contains(b[i - m - 1]));
        } else if m + 1 + n < i < m + n + o + 2 {
            assert(s[i] == c[i - m - n - 2]);
            assert(c.contains(c[i - m - n - 2]));
        } else if m + n + o + 2 < i {
            assert(s[i] == d[i - m - n - o - 3]);
            assert(d.contains(d[i - m - n - o - 3]));
        }
    }
    assert(s[0] == a[0]);
    assert(is_digit(a[0]));
}

proof fn lemma_hex_number(n: nat)
    ensures
        hex_number(hexadecimal(n)) == Some(n),
        hexadecimal(n).len() >= 1,
    decreases n,
{
    let s = hexadecimal(n);
    assert(hex_number(Seq::<char>::empty()) == Some(0nat));
    if n < 16 {
        assert(s.drop_last() =~= Seq::<char>::empty());
        assert(hex_value(s.last()) == Some(n));
    } else {
        lemma_hex_number(n / 16);
        assert(s.drop_last() =~= hexadecimal(n / 16));
        assert(hex_value(s.last()) == Some(n % 16));
    }
}

proof fn lemma_group(g: u16)
    ensures
        group(hexadecimal(g as nat)) == Some(g as nat),
        1 <= hexadecimal(g as nat).len() <= 4,
        in_address(hexadecimal(g as nat)),
        !hexadecimal(g as nat).contains(':'),
        !hexadecimal(g as nat).contains('.'),
{
    lemma_hex_number(g as nat);
    lemma_hexadecimal_digits(g as nat);
    reveal_with_fuel(hexadecimal, 5);
}

/// The groups of an address as they are written.
spec fn written(g: Seq<u16>) -> Seq<Seq<char>> {
    Seq::new(g.len(), |i: int| hexadecimal(g[i] as nat))
}

proof fn lemma_groups_split(g: Seq<u16>)
    requires
        g.len() > 0,
    ensures
        split_at(groups_string(g), ':') == written(g),
        groups_string(g).len() > 0,
    decreases g.len(),
{
    reveal_strlit(":");
    assert(":"@ =~= seq![':']);
    lemma_group(g.last());
    if g.len() == 1 {
        lemma_split_whole(hexadecimal(g[0] as nat), ':');
        assert(written(g) =~= seq![hexadecimal(g[0] as nat)]);
    } else {
        lemma_groups_split(g.drop_last());
        lemma_split_push(groups_string(g.drop_last()), ':', hexadecimal(g.last() as nat));
        assert(written(g) =~= written(g.drop_last()).push(hexadecimal(g.last() as nat)));
    }
}

proof fn lemma_parts(g: Seq<u16>, quad: bool)
    ensures
        parts(written(g), quad) == Some(g),
    decreases g.len(),
{
    if g.len() == 0 {
        assert(g =~= seq![]);
    } else {
        lemma_parts(g.drop_last(), false);
        assert(written(g).drop_last() =~= written(g.drop_last()));
        lemma_group(g.last());
        assert(g =~= g.drop_last() + seq![g.last()]);
    }
}

/// Groups read back as themselves.
pub proof fn lemma_chunk(g: Seq<u16>, quad: bool)
    ensures
        chunk(groups_string(g), quad) == Some(g),
{
    if g.len() == 0 {
        assert(g =~= seq![]);
    } else {
        lemma_groups_split(g);
        lemma_parts(g, quad);
    }
}

/// No colon at either end, and no two in a row.
pub open spec fn tidy(s: Seq<char>) -> bool {
    &&& s.len() > 0 ==> s[0] != ':' && s.last() != ':'
    &&& forall|k: int| 0 <= k && k + 1 < s.len() ==> !(#[trigger] s[k] == ':' && s[k + 1] == ':')
    &&& in_address(s)
    &&& !s.contains('.')
}

pub proof fn lemma_groups_tidy(g: Seq<u16>)
    ensures
        tidy(groups_string(g)),
    decreases g.len(),
{
    reveal_strlit(":");
    let s = groups_string(g);
    if g.len() > 0 {
        let h = hexadecimal(g.last() as nat);
        lemma_group(g.last());
        assert forall|i: int| 0 <= i < h.len() implies #[trigger] h[i] != ':' && h[i] != '.' by {
            assert(h.contains(h[i]));
        }
        if g.len() > 1 {
            let t = groups_string(g.drop_last());
            lemma_groups_tidy(g.drop_last());
            lemma_groups_split(g.drop_last());
            assert(s =~= t + seq![':'] + h);
            assert forall|i: int| 0 <= i < t.len() implies s[i] == #[trigger] t[i] && t[i]
                != '.' by {
                assert(t.contains(t[i]));
            }
            assert forall|k: int| 0 <= k && k + 1 < s.len() implies !(#[trigger] s[k] == ':' && s[k
                + 1] == ':') by {
                if k + 1 < t.len() {
                    assert(s[k] == t[k] && s[k + 1] == t[k + 1]);
                } else if k + 1 == t.len() {
                    assert(s[k] == t.last());
                } else {
                    assert(s[k + 1] == h[k - t.len()]);
                }
            }
            assert forall|i: int| 0 <= i < s.len() implies is_address_char(#[trigger] s[i]) && s[i]
                != '.' by {
                if i < t.len() {
                    assert(s[i] == t[i]);
                } else if i > t.len() {
                    assert(s[i] == h[i - t.len() - 1]);
                }
            }
            assert(s[0] == t[0]);
            assert(s.last() == h.last());
        }
    }
}

pub proof fn lemma_run_is_zero(g: Seq<u16>, i: int, k: int)
    requires
        0 <= i <= k < i + run_at(g, i),
    ensures
        k < g.len(),
        g[k] == 0,
    decreases k - i,
{
    if k > i {
        lemma_run_is_zero(g, i + 1, k);
    }
}

pub proof fn lemma_best_run(g: Seq<u16>, n: int)
    requires
        n <= g.len(),
        g.len() > 0,
    ensures
        0 <= best_run(g, n) < g.len(),
    decreases n,
{
    if n > 1 {
        lemma_best_run(g, n - 1);
    }
}

/// An address with `::` in it reads back as itself.
proof fn lemma_shortened_reads_back(g: Seq<u16>, at: int, n: int)
    requires
        g.len() == 8,
        0 <= at,
        1 <= n,
        at + n <= 8,
        forall|k: int| at <= k < at + n ==> g[k] == 0,
    ensures
        ({
            let s = groups_string(g.take(at)) + "::"@ + groups_string(g.skip(at + n));
            &&& ipv6_groups(s) == Some(g)
            &&& in_address(s)
            &&& !s.contains('.')
        }),
{
    reveal_strlit("::");
    let a = groups_string(g.take(at));
    let b = groups_string(g.skip(at + n));
    let s = a + "::"@ + b;
    lemma_groups_tidy(g.take(at));
    lemma_groups_tidy(g.skip(at + n));
    lemma_chunk(g.take(at), false);
    lemma_chunk(g.skip(at + n), true);
    let i = a.len() as int;
    assert(s[i] == ':' && s[i + 1] == ':');
    assert forall|k: int| 0 <= k < i && k + 1 < s.len() implies !(#[trigger] s[k] == ':' && s[k + 1]
        == ':') by {
        assert(s[k] == a[k]);
        if k + 1 < i {
            assert(s[k + 1] == a[k + 1]);
        } else {
            assert(a[k] == a.last());
        }
    }
    lemma_pair(s, ':', ':', i);
    assert(s.take(i) =~= a);
    assert(s.skip(i + 2) =~= b);
    assert(g.take(at) + zeros(n) + g.skip(at + n) =~= g);
    assert forall|k: int| 0 <= k < s.len() implies is_address_char(#[trigger] s[k]) && s[k]
        != '.' by {
        if k < i {
            assert(s[k] == a[k]);
            assert(a.contains(a[k]));
        } else if k > i + 1 {
            assert(s[k] == b[k - i - 2]);
            assert(b.contains(b[k - i - 2]));
        }
    }
}

/// An IPv4-mapped address reads back as itself.
proof fn lemma_mapped_reads_back(g: Seq<u16>)
    requires
        g.len() == 8,
        is_mapped(g),
    ensures
        ({
            let v = Ipv4Addr { a: high(g[6]), b: low(g[6]), c: high(g[7]), d: low(g[7]) };
            let s = "::ffff:"@ + ipv4_string(v);
            &&& ipv6_groups(s) == Some(g)
            &&& in_address(s)
            &&& ipv4_text(s) is None
        }),
{
    reveal_strlit("::ffff:");
    reveal_strlit(".");
    let v = Ipv4Addr { a: high(g[6]), b: low(g[6]), c: high(g[7]), d: low(g[7]) };
    let q = ipv4_string(v);
    let s = "::ffff:"@ + q;
    lemma_ipv4_reads_back(v);
    lemma_pair(s, ':', ':', 0);
    assert(s.take(0) =~= seq![]);
    let f = seq!['f', 'f', 'f', 'f'];
    assert(s.skip(2) =~= f + seq![':'] + q);
    lemma_split_whole(f, ':');
    lemma_split_push(f, ':', q);
    let pieces = split_at(s.skip(2), ':');
    assert(pieces =~= seq![f, q]);
    assert(hexadecimal(0xffff) =~= f) by {
        reveal_with_fuel(hexadecimal, 5);
    }
    lemma_group(0xffff);
    assert(pieces.drop_last() =~= seq![f]);
    assert(seq![f].drop_last() =~= seq![]);
    assert(parts(seq![f].drop_last(), false) == Some(Seq::<u16>::empty()));
    assert(parts(seq![f], false) == Some(seq![0xffffu16])) by {
        assert(Seq::<u16>::empty() + seq![0xffffu16] =~= seq![0xffffu16]);
    }
    assert(quad_groups(v) =~= seq![g[6], g[7]]);
    assert(parts(pieces, true) == Some(seq![0xffffu16] + quad_groups(v)));
    assert(Seq::<u16>::empty() + zeros(5) + (seq![0xffffu16] + quad_groups(v)) =~= g);
    assert forall|k: int| 0 <= k < s.len() implies is_address_char(#[trigger] s[k]) by {
        if k >= 7 {
            assert(s[k] == q[k - 7]);
        }
    }
    // Read as a dotted quad it starts with a part of more than three characters.
    let a = decimal(v.a as nat);
    lemma_decimal_chars(v.a as nat);
    lemma_octet(v.a as nat);
    lemma_position_is(q, '.');
    assert(split_at(q, '.')[0] == a);
    let i = position(q, '.');
    assert(i < q.len()) by {
        if i >= q.len() {
            assert(split_at(q, '.').len() == 1);
        }
    }
    assert forall|k: int| 0 <= k < 7 + i implies s[k] != '.' by {
        if k >= 7 {
            assert(s[k] == q[k - 7]);
        }
    }
    lemma_position(s, '.', 7 + i);
    assert(split_at(s, '.')[0] == s.take(7 + i));
}

/// A written IPv6 address is not taken for anything else.
proof fn lemma_ipv6_reads_back(v: Ipv6Addr)
    ensures
        ipv6_text(ipv6_string(v)) == Some(v),
        ipv4_text(ipv6_string(v)) is None,
        in_address(ipv6_string(v)),
{
    let g = v.groups();
    let at = best_run(g, 8);
    let n = run_at(g, at);
    let s = ipv6_string(v);
    assert(of_groups(g) == v);
    lemma_best_run(g, 8);
    lemma_run_bounds(g, at);
    if is_mapped(g) {
        lemma_mapped_reads_back(g);
    } else if n > 1 {
        assert forall|k: int| at <= k < at + n implies g[k] == 0 by {
            lemma_run_is_zero(g, at, k);
        }
        lemma_shortened_reads_back(g, at, n);
        lemma_split_whole(s, '.');
    } else {
        lemma_groups_tidy(g);
        lemma_groups_split(g);
        lemma_chunk(g, true);
        lemma_pair(s, ':', ':', s.len() as int);
        lemma_split_whole(s, '.');
    }
}

/// A written address is plain text, so that a header can carry it.
pub proof fn lemma_address_is_plain(ip: IpAddr)
    ensures
        is_plain(ip_string(ip)),
{
    match ip {
        IpAddr::V4(v) => {
            lemma_ipv4_reads_back(v);
        },
        IpAddr::V6(v) => {
            lemma_ipv6_reads_back(v);
        },
    }
    let s = ip_string(ip);
    assert forall|i: int| 0 <= i < s.len() implies is_plain_char(#[trigger] s[i]) by {
        assert(is_address_char(s[i]));
    }
}

/// An address that is written reads back as itself.
pub proof fn law_address_reads_back(ip: IpAddr)
    ensures
        ip_text(ip_string(ip)) == Some(ip),
{
    match ip {
        IpAddr::V4(v) => {
            lemma_ipv4_reads_back(v);
        },
        IpAddr::V6(v) => {
            lemma_ipv6_reads_back(v);
        },
    }
}

/// An IPv6 address with its scope, as it stands between brackets.
spec fn scoped_string(v: Ipv6Addr, scope: u32) -> Seq<char> {
    if scope == 0 {
        ipv6_string(v)
    } else {
        ipv6_string(v) + seq!['%'] + decimal(scope as nat)
    }
}

proof fn lemma_scoped_reads_back(v: Ipv6Addr, scope: u32)
    ensures
        scoped_text(scoped_string(v, scope)) == Some((v, scope)),
        !scoped_string(v, scope).contains(']'),
{
    let q = ipv6_string(v);
    let d = decimal(scope as nat);
    let s = scoped_string(v, scope);
    lemma_ipv6_reads_back(v);
    lemma_decimal_digits(scope as nat);
    let m = q.len() as int;
    assert forall|k: int| 0 <= k < m implies s[k] == q[k] && q[k] != '%' && q[k] != ']' by {
        assert(is_address_char(q[k]));
    }
    if scope == 0 {
        lemma_position(s, '%', m);
    } else {
        assert(s[m] == '%');
        lemma_position(s, '%', m);
        assert(s.take(m) =~= q);
        assert(s.skip(m + 1) =~= d);
        assert forall|k: int| m < k < s.len() implies s[k] != ']' by {
            assert(s[k] == d[k - m - 1]);
            assert(is_digit(d[k - m - 1]));
        }
    }
}

proof fn lemma_bracketed_reads_back(inner: Seq<char>, port: Seq<char>)
    requires
        !inner.contains(']'),
    ensures
        ({
            let s = seq!['['] + inner + seq![']', ':'] + port;
            &&& s[0] == '['
            &&& split_once_at(s.skip(1), ']') == Some((inner, seq![':'] + port))
            &&& (seq![':'] + port)[0] == ':'
            &&& (seq![':'] + port).skip(1) == port
        }),
{
    let s = seq!['['] + inner + seq![']', ':'] + port;
    let body = s.skip(1);
    let i = inner.len() as int;
    assert(body =~= inner + seq![']', ':'] + port);
    assert(body[i] == ']');
    assert forall|k: int| 0 <= k < i implies body[k] != ']' by {
        assert(body[k] == inner[k]);
        assert(inner.contains(inner[k]));
    }
    lemma_position(body, ']', i);
    assert(body.take(i) =~= inner);
    assert(body.skip(i + 1) =~= seq![':'] + port);
    assert((seq![':'] + port).skip(1) =~= port);
}

/// So does an address with a port. Only an IPv6 address has a scope.
pub proof fn law_socket_reads_back(a: SocketAddr)
    requires
        a.ip is V4 ==> a.scope_id == 0,
    ensures
        socket_text(socket_string(a)) == Some(a),
{
    let s = socket_string(a);
    let port = decimal(a.port as nat);
    lemma_decimal_digits(a.port as nat);
    match a.ip {
        IpAddr::V4(v) => {
            reveal_strlit(":");
            let q = ipv4_string(v);
            lemma_ipv4_reads_back(v);
            assert(s[0] == q[0]);
            let i = q.len() as int;
            assert(s[i] == ':');
            assert forall|k: int| 0 <= k < i implies s[k] != ':' by {
                assert(s[k] == q[k]);
                assert(q.contains(q[k]));
            }
            lemma_position(s, ':', i);
            assert(s.take(i) =~= q);
            assert(s.skip(i + 1) =~= port);
        },
        IpAddr::V6(v) => {
            let inner = scoped_string(v, a.scope_id);
            lemma_scoped_reads_back(v, a.scope_id);
            lemma_bracketed_reads_back(inner, port);
            assert(s =~= seq!['['] + inner + seq![']', ':'] + port) by {
                reveal_strlit("[");
                reveal_strlit("]:");
                reveal_strlit("%");
            }
        },
    }
}

} // verus!
