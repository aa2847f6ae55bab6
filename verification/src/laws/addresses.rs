//! Laws on addresses as text.

use super::text::{glued, law_number_by_digits, law_split_once_finds_halves};
use crate::net::{
    best_run, group, groups_string, hex_number, hex_value, IpAddr, ipv4_string, ipv4_text,
    Ipv4Addr, ipv6_groups, ipv6_string, Ipv6Addr, is_mapped, lemma_chunk, lemma_groups_tidy,
    lemma_run_bounds, lemma_run_is_zero, octet, plain_number, run_at, socket_string, socket_text,
    SocketAddr,
};
use crate::text::{
    decimal, hexadecimal, lemma_pair, lemma_split_concat, lemma_split_whole, number, split_at,
};
use vstd::prelude::*;
use vstd::string::*;

verus! {

/// A part of an IPv4 address is a number up to 255 of at most three digits, without a
/// zero in front and without a sign.
pub proof fn law_octets(s: Seq<char>)
    ensures
        match octet(s) {
            Some(n) => 1 <= s.len() <= 3 && (s.len() > 1 ==> s[0] != '0') && (forall|k: int|
                0 <= k < s.len() ==> '0' <= #[trigger] s[k] <= '9') && number(s, 255) == Some(n),
            None => s.len() == 0 || s.len() > 3 || (s.len() > 1 && s[0] == '0') || number(s, 255)
                is None || s[0] == '+',
        },
{
    if let Some(n) = octet(s) {
        assert forall|k: int| 0 <= k < s.len() implies '0' <= #[trigger] s[k] <= '9' by {
            assert(crate::text::is_digit(s[k]));
        }
    }
}

/// An IPv4 address is four such parts with dots between them, and nothing else is one.
pub proof fn law_ipv4(a: Seq<char>, b: Seq<char>, c: Seq<char>, d: Seq<char>, s: Seq<char>)
    requires
        !a.contains('.') && !b.contains('.') && !c.contains('.') && !d.contains('.'),
    ensures
        ({
            let t = a + seq!['.'] + (b + seq!['.'] + (c + seq!['.'] + d));
            match ipv4_text(t) {
                Some(v) => octet(a) == Some(v.a as nat) && octet(b) == Some(v.b as nat) && octet(c)
                    == Some(v.c as nat) && octet(d) == Some(v.d as nat),
                None => octet(a) is None || octet(b) is None || octet(c) is None || octet(d)
                    is None,
            }
        }),
        split_at(s, '.').len() != 4 ==> ipv4_text(s) is None,
{
    let u = c + seq!['.'] + d;
    let w = b + seq!['.'] + u;
    let t = a + seq!['.'] + w;
    lemma_split_whole(a, '.');
    lemma_split_whole(b, '.');
    lemma_split_whole(c, '.');
    lemma_split_whole(d, '.');
    lemma_split_concat(c, '.', d);
    lemma_split_concat(b, '.', u);
    lemma_split_concat(a, '.', w);
    assert(split_at(t, '.') =~= seq![a, b, c, d]);
    law_octets(a);
    law_octets(b);
    law_octets(c);
    law_octets(d);
    law_number_by_digits(a, '0', 255);
    law_number_by_digits(b, '0', 255);
    law_number_by_digits(c, '0', 255);
    law_number_by_digits(d, '0', 255);
}

/// A group of an IPv6 address is one to four hexadecimal digits, in whatever case, and one
/// digit more is sixteen times the number and that digit.
pub proof fn law_groups(s: Seq<char>, c: char)
    ensures
        group(s) is Some ==> 1 <= s.len() <= 4,
        1 <= s.len() <= 3 ==> match (group(s), hex_value(c)) {
            (Some(n), Some(d)) => group(s.push(c)) == Some(n * 16 + d),
            _ => group(s.push(c)) is None,
        },
        group(seq![c]) == hex_value(c),
        '0' <= c <= '9' ==> hex_value(c) == Some((c as int - '0' as int) as nat),
        'a' <= c <= 'f' ==> hex_value(c) == Some((c as int - 'a' as int + 10) as nat),
        'A' <= c <= 'F' ==> hex_value(c) == Some((c as int - 'A' as int + 10) as nat),
        !('0' <= c <= '9') && !('a' <= c <= 'f') && !('A' <= c <= 'F') ==> hex_value(c) is None,
{
    assert(s.push(c).drop_last() =~= s);
    assert(seq![c].drop_last() =~= seq![]);
    assert(hex_number(seq![c].drop_last()) == Some(0nat));
}

/// An address is written as its parts are, with dots between them, and the port behind a
/// colon.
pub proof fn law_ipv4_is_written(v: Ipv4Addr, port: u16)
    ensures
        ipv4_string(v) == decimal(v.a as nat) + seq!['.'] + decimal(v.b as nat) + seq!['.']
            + decimal(v.c as nat) + seq!['.'] + decimal(v.d as nat),
        socket_string(SocketAddr { ip: IpAddr::V4(v), port, scope_id: 0 }) == ipv4_string(v) + seq![
            ':',
        ] + decimal(port as nat),
{
    reveal_strlit(".");
    reveal_strlit(":");
    assert("."@ =~= seq!['.']);
    assert(":"@ =~= seq![':']);
}

/// An address with a port is an address, a colon and a number without a sign up to 65535.
pub proof fn law_ipv4_sockets(a: Seq<char>, p: Seq<char>)
    requires
        !a.contains(':'),
        !(a.len() > 0 && a[0] == '['),
    ensures
        match socket_text(a + seq![':'] + p) {
            Some(s) => (s.ip matches IpAddr::V4(v) && ipv4_text(a) == Some(v)) && s.scope_id == 0
                && number(p, 65535) == Some(s.port as nat) && p[0] != '+',
            None => ipv4_text(a) is None || number(p, 65535) is None || p[0] == '+',
        },
{
    let s = a + seq![':'] + p;
    law_split_once_finds_halves(a, ':', p);
    assert(s[0] == if a.len() > 0 {
        a[0]
    } else {
        ':'
    });
    if plain_number(p, 65535) is Some {
        assert(crate::text::is_digit(p[0]));
    }
}

/// Groups in hexadecimal, with colons between them.
pub open spec fn in_hex(g: Seq<u16>) -> Seq<char> {
    glued(g.map_values(|x: u16| hexadecimal(x as nat)), ':')
}

proof fn lemma_glued_push(parts: Seq<Seq<char>>, x: Seq<char>, c: char)
    requires
        parts.len() > 0,
    ensures
        glued(parts.push(x), c) == glued(parts, c) + seq![c] + x,
    decreases parts.len(),
{
    let all = parts.push(x);
    if parts.len() == 1 {
        assert(all.skip(1) =~= seq![x]);
        assert(glued(all.skip(1), c) == x);
        assert(glued(all, c) =~= parts[0] + seq![c] + x);
    } else {
        assert(all.skip(1) =~= parts.skip(1).push(x));
        lemma_glued_push(parts.skip(1), x, c);
        assert(glued(all, c) =~= glued(parts, c) + seq![c] + x);
    }
}

proof fn lemma_groups_in_hex(g: Seq<u16>)
    ensures
        groups_string(g) == in_hex(g),
    decreases g.len(),
{
    let f = |x: u16| hexadecimal(x as nat);
    reveal_strlit(":");
    assert(":"@ =~= seq![':']);
    if g.len() > 1 {
        let before = g.drop_last();
        lemma_groups_in_hex(before);
        assert(g.map_values(f) =~= before.map_values(f).push(hexadecimal(g.last() as nat)));
        lemma_glued_push(before.map_values(f), hexadecimal(g.last() as nat), ':');
    }
}

proof fn lemma_run_reaches(g: Seq<u16>, i: int, j: int)
    requires
        0 <= i <= j <= g.len(),
        forall|k: int| i <= k < j ==> g[k] == 0,
    ensures
        run_at(g, i) >= j - i,
    decreases j - i,
{
    if i < j {
        lemma_run_reaches(g, i + 1, j);
    } else {
        lemma_run_bounds(g, i);
    }
}

proof fn lemma_best(g: Seq<u16>, n: int, i: int)
    requires
        0 <= i < n <= g.len(),
    ensures
        run_at(g, best_run(g, n)) >= run_at(g, i),
        run_at(g, i) == run_at(g, best_run(g, n)) ==> best_run(g, n) <= i,
        0 <= best_run(g, n) < n,
    decreases n,
{
    if n > 1 {
        if i < n - 1 {
            lemma_best(g, n - 1, i);
        } else {
            lemma_best(g, n - 1, 0);
        }
    }
}

/// Whether `g[a..b]` is all zero.
pub open spec fn all_zero(g: Seq<u16>, a: int, b: int) -> bool {
    0 <= a <= b <= g.len() && forall|k: int| a <= k < b ==> g[k] == 0
}

/// An IPv6 address is written in groups, with `::` for the longest run of two zeros or
/// more, the first of several; one that stands for an IPv4 address ends with that.
#[verifier::rlimit(50)]
pub proof fn law_ipv6_is_written(v: Ipv6Addr)
    ensures
        ({
            let g = v.groups();
            let mapped = all_zero(g, 0, 5) && g[5] == 0xffff;
            &&& mapped ==> ipv6_string(v) == "::ffff:"@ + ipv4_string(
                Ipv4Addr {
                    a: (g[6] / 256) as u8,
                    b: (g[6] % 256) as u8,
                    c: (g[7] / 256) as u8,
                    d: (g[7] % 256) as u8,
                },
            )
            &&& !mapped && (forall|k: int| 0 <= k < 7 ==> !#[trigger] all_zero(g, k, k + 2))
                ==> ipv6_string(v) == in_hex(g)
            &&& forall|a: int, b: int|
                !mapped && b - a >= 2 && #[trigger] all_zero(g, a, b) && (forall|x: int, y: int|
                    #[trigger] all_zero(g, x, y) ==> y - x <= b - a && (y - x == b - a ==> a <= x))
                    ==> ipv6_string(v) == in_hex(g.take(a)) + seq![':', ':'] + in_hex(g.skip(b))
        }),
{
    let g = v.groups();
    reveal_strlit("::");
    assert("::"@ =~= seq![':', ':']);
    let at = best_run(g, 8);
    lemma_best(g, 8, 0);
    lemma_run_bounds(g, at);
    let n = run_at(g, at);
    let mapped = all_zero(g, 0, 5) && g[5] == 0xffff;
    assert(mapped == is_mapped(g)) by {
        if mapped {
            assert(g[0] == 0 && g[1] == 0 && g[2] == 0 && g[3] == 0 && g[4] == 0);
        }
    }
    assert forall|k: int| at <= k < at + n implies g[k] == 0 by {
        lemma_run_is_zero(g, at, k);
    }
    assert(all_zero(g, at, at + n));
    lemma_groups_in_hex(g);
    if n > 1 {
        assert forall|k: int| at <= k < at + 2 implies g[k] == 0 by {}
        assert(all_zero(g, at, at + 2));
    }
    assert forall|a: int, b: int|
        !mapped && b - a >= 2 && #[trigger] all_zero(g, a, b) && (forall|x: int, y: int|
            #[trigger] all_zero(g, x, y) ==> y - x <= b - a && (y - x == b - a ==> a
                <= x)) implies ipv6_string(v) == in_hex(g.take(a)) + seq![':', ':'] + in_hex(
        g.skip(b),
    ) by {
        lemma_run_reaches(g, a, b);
        lemma_best(g, 8, a);
        lemma_run_bounds(g, a);
        assert(n <= b - a);
        assert(n == b - a && run_at(g, a) == n);
        assert(a == at);
        lemma_groups_in_hex(g.take(at));
        lemma_groups_in_hex(g.skip(at + n));
    }
}

/// An IPv6 address reads as its groups, and `::` as the zeros that are missing, of which
/// there is one at least.
pub proof fn law_ipv6_is_read(a: Seq<u16>, b: Seq<u16>)
    ensures
        a.len() == 8 ==> ipv6_groups(in_hex(a)) == Some(a),
        a.len() + b.len() <= 7 ==> ipv6_groups(in_hex(a) + seq![':', ':'] + in_hex(b)) == Some(
            a + Seq::new((8 - a.len() - b.len()) as nat, |i: int| 0u16) + b,
        ),
        a.len() + b.len() > 7 ==> ipv6_groups(in_hex(a) + seq![':', ':'] + in_hex(b)) is None,
{
    lemma_groups_in_hex(a);
    lemma_groups_in_hex(b);
    lemma_chunk(a, true);
    lemma_chunk(a, false);
    lemma_chunk(b, true);
    let s = in_hex(a);
    let t = s + seq![':', ':'] + in_hex(b);
    let n = s.len() as int;
    lemma_groups_tidy(a);
    assert forall|k: int| 0 <= k && k + 1 < s.len() implies !(#[trigger] s[k] == ':' && s[k + 1]
        == ':') by {}
    lemma_pair(s, ':', ':', n);
    assert forall|k: int| 0 <= k < n && k + 1 < t.len() implies !(#[trigger] t[k] == ':' && t[k + 1]
        == ':') by {
        assert(t[k] == s[k]);
        if k + 1 < n {
            assert(t[k + 1] == s[k + 1]);
        }
    }
    assert(t[n] == ':' && t[n + 1] == ':');
    lemma_pair(t, ':', ':', n);
    assert(t.take(n) =~= s);
    assert(t.skip(n + 2) =~= in_hex(b));
}

} // verus!
