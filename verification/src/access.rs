//! `allow` / `deny` — IPv4 / IPv6 access control.
//!
//! Rules are evaluated in declaration order. The first rule whose target
//! matches the client IP decides — `allow` passes, `deny` returns `403`.
//! If no rule matches, the request is allowed (Nginx-compatible).

use crate::net::{format_ip, ip_string, ip_text, IpAddr, parse_ip};
use crate::text::{
    decimal, number, parse_number, push_decimal, result_view, same, split_once, split_once_at,
};
use vstd::prelude::*;
use vstd::string::*;

verus! {

#[derive(Debug, Clone, Copy, PartialEq, Eq, Structural)]
pub enum AccessAction {
    Allow,
    Deny,
}

#[derive(Debug, Clone, Copy, PartialEq, Eq, Structural)]
pub enum AccessTarget {
    /// Match every IP. The argument `all` in Nginx.
    All,
    /// Match a single address.
    Ip(IpAddr),
    /// Match a CIDR block: `(base address, prefix length in bits)`.
    Cidr(IpAddr, u8),
}

#[derive(Debug, Clone, Copy, PartialEq, Eq, Structural)]
pub struct AccessRule {
    pub action: AccessAction,
    pub target: AccessTarget,
}

impl View for AccessTarget {
    type V = AccessTarget;

    open spec fn view(&self) -> AccessTarget {
        *self
    }
}

impl View for AccessRule {
    type V = AccessRule;

    open spec fn view(&self) -> AccessRule {
        *self
    }
}

/// Bit `k` of a byte string, counted from the most significant bit of the
/// first byte.
pub open spec fn bit_at(s: Seq<u8>, k: int) -> u8 {
    bit_of(s[k / 8], (k % 8) as u8)
}

/// Bit `j` of a byte, counted from the most significant.
pub open spec fn bit_of(b: u8, j: u8) -> u8 {
    (b >> ((7 - j) as u8)) & 1u8
}

/// Two byte strings agree in their first `bits` bits.
pub open spec fn same_prefix(a: Seq<u8>, b: Seq<u8>, bits: int) -> bool {
    forall|k: int| 0 <= k < bits ==> #[trigger] bit_at(a, k) == bit_at(b, k)
}

/// `ip` lies in the block of `bits` leading bits around `base`. Addresses of
/// different families never match.
pub open spec fn in_block(base: IpAddr, bits: u8, ip: IpAddr) -> bool {
    match (base, ip) {
        (IpAddr::V4(_), IpAddr::V4(_)) => bits <= 32 && same_prefix(
            base.bytes(),
            ip.bytes(),
            bits as int,
        ),
        (IpAddr::V6(_), IpAddr::V6(_)) => bits <= 128 && same_prefix(
            base.bytes(),
            ip.bytes(),
            bits as int,
        ),
        _ => false,
    }
}

/// Whether a target covers an address.
pub open spec fn covers(t: AccessTarget, ip: IpAddr) -> bool {
    match t {
        AccessTarget::All => true,
        AccessTarget::Ip(b) => b == ip,
        AccessTarget::Cidr(base, bits) => in_block(base, bits, ip),
    }
}

/// The first rule that covers the address decides; without one the address is
/// allowed.
pub open spec fn allowed(rules: Seq<AccessRule>, ip: IpAddr) -> bool
    decreases rules.len(),
{
    if rules.len() == 0 {
        true
    } else if covers(rules[0].target, ip) {
        rules[0].action == AccessAction::Allow
    } else {
        allowed(rules.skip(1), ip)
    }
}

impl AccessRule {
    pub fn allow(target: AccessTarget) -> (r: AccessRule)
        ensures
            r == (AccessRule { action: AccessAction::Allow, target }),
    {
        AccessRule { action: AccessAction::Allow, target }
    }

    pub fn deny(target: AccessTarget) -> (r: AccessRule)
        ensures
            r == (AccessRule { action: AccessAction::Deny, target }),
    {
        AccessRule { action: AccessAction::Deny, target }
    }
}

impl AccessTarget {
    pub fn matches(&self, ip: IpAddr) -> (r: bool)
        ensures
            r == covers(*self, ip),
    {
        match self {
            AccessTarget::All => true,
            AccessTarget::Ip(b) => *b == ip,
            AccessTarget::Cidr(base, bits) => cidr_match(*base, *bits, ip),
        }
    }
}

fn cidr_match(base: IpAddr, bits: u8, ip: IpAddr) -> (r: bool)
    ensures
        r == in_block(base, bits, ip),
{
    match (base, ip) {
        (IpAddr::V4(_), IpAddr::V4(_)) => mask_match(
            &base.octets(),
            &ip.octets(),
            bits as usize,
            32,
        ),
        (IpAddr::V6(_), IpAddr::V6(_)) => mask_match(
            &base.octets(),
            &ip.octets(),
            bits as usize,
            128,
        ),
        _ => false,
    }
}

/// Equal high bits of a byte, under a mask.
proof fn lemma_mask(a: u8, b: u8, t: u8)
    requires
        0 < t < 8,
    ensures
        ((a & (0xFFu8 << ((8 - t) as u8))) == (b & (0xFFu8 << ((8 - t) as u8)))) <==> (forall|j: u8|
            j < t ==> #[trigger] bit_of(a, j) == bit_of(b, j)),
{
    let m: u8 = 0xFFu8 << ((8 - t) as u8);
    let s: u8 = (8 - t) as u8;
    assert(((a & (0xFFu8 << s)) == (b & (0xFFu8 << s))) <==> ((t > 0 ==> (a >> 7u8) & 1u8 == (b
        >> 7u8) & 1u8) && (t > 1 ==> (a >> 6u8) & 1u8 == (b >> 6u8) & 1u8) && (t > 2 ==> (a >> 5u8)
        & 1u8 == (b >> 5u8) & 1u8) && (t > 3 ==> (a >> 4u8) & 1u8 == (b >> 4u8) & 1u8) && (t > 4
        ==> (a >> 3u8) & 1u8 == (b >> 3u8) & 1u8) && (t > 5 ==> (a >> 2u8) & 1u8 == (b >> 2u8)
        & 1u8) && (t > 6 ==> (a >> 1u8) & 1u8 == (b >> 1u8) & 1u8))) by (bit_vector)
        requires
            0 < t < 8,
            s == 8 - t,
    ;
    if (a & m) == (b & m) {
        assert forall|j: u8| j < t implies #[trigger] bit_of(a, j) == bit_of(b, j) by {
            if j == 0 {
            } else if j == 1 {
            } else if j == 2 {
            } else if j == 3 {
            } else if j == 4 {
            } else if j == 5 {
            } else {
            }
        }
    } else {
        if forall|j: u8| j < t ==> #[trigger] bit_of(a, j) == bit_of(b, j) {
            assert(bit_of(a, 0) == bit_of(b, 0));
            assert(t > 1 ==> bit_of(a, 1) == bit_of(b, 1));
            assert(t > 2 ==> bit_of(a, 2) == bit_of(b, 2));
            assert(t > 3 ==> bit_of(a, 3) == bit_of(b, 3));
            assert(t > 4 ==> bit_of(a, 4) == bit_of(b, 4));
            assert(t > 5 ==> bit_of(a, 5) == bit_of(b, 5));
            assert(t > 6 ==> bit_of(a, 6) == bit_of(b, 6));
        }
    }
}

/// Equal bits make equal bytes.
proof fn lemma_byte(a: u8, b: u8)
    requires
        forall|j: u8| j < 8 ==> #[trigger] bit_of(a, j) == bit_of(b, j),
    ensures
        a == b,
{
    assert(bit_of(a, 0) == bit_of(b, 0));
    assert(bit_of(a, 1) == bit_of(b, 1));
    assert(bit_of(a, 2) == bit_of(b, 2));
    assert(bit_of(a, 3) == bit_of(b, 3));
    assert(bit_of(a, 4) == bit_of(b, 4));
    assert(bit_of(a, 5) == bit_of(b, 5));
    assert(bit_of(a, 6) == bit_of(b, 6));
    assert(bit_of(a, 7) == bit_of(b, 7));
    assert(a == b) by (bit_vector)
        requires
            (a >> 7u8) & 1u8 == (b >> 7u8) & 1u8,
            (a >> 6u8) & 1u8 == (b >> 6u8) & 1u8,
            (a >> 5u8) & 1u8 == (b >> 5u8) & 1u8,
            (a >> 4u8) & 1u8 == (b >> 4u8) & 1u8,
            (a >> 3u8) & 1u8 == (b >> 3u8) & 1u8,
            (a >> 2u8) & 1u8 == (b >> 2u8) & 1u8,
            (a >> 1u8) & 1u8 == (b >> 1u8) & 1u8,
            (a >> 0u8) & 1u8 == (b >> 0u8) & 1u8,
    ;
}

fn mask_match(base: &Vec<u8>, ip: &Vec<u8>, bits: usize, total: usize) -> (r: bool)
    requires
        base@.len() == ip@.len(),
        base@.len() * 8 == total,
    ensures
        r == (bits <= total && same_prefix(base@, ip@, bits as int)),
{
    if bits > total {
        return false;
    }
    let full: usize = bits / 8;
    let tail: usize = bits % 8;
    let mut i: usize = 0;
    while i < full
        invariant
            base@.len() == ip@.len(),
            full == bits as int / 8,
            full <= base@.len(),
            i <= full,
            forall|k: int| 0 <= k < i ==> base@[k] == ip@[k],
        decreases full - i,
    {
        if base[i] != ip[i] {
            proof {
                if same_prefix(base@, ip@, bits as int) {
                    assert forall|j: u8| j < 8 implies #[trigger] bit_of(base@[i as int], j)
                        == bit_of(ip@[i as int], j) by {
                        assert(bit_at(base@, i * 8 + j) == bit_at(ip@, i * 8 + j));
                    }
                    lemma_byte(base@[i as int], ip@[i as int]);
                }
            }
            return false;
        }
        i = i + 1;
    }
    if tail == 0 {
        assert forall|k: int| 0 <= k < bits implies #[trigger] bit_at(base@, k) == bit_at(
            ip@,
            k,
        ) by {
            assert(k / 8 < full);
        }
        return true;
    }
    let shift: u8 = (8 - tail) as u8;
    let mask: u8 = 0xFFu8 << shift;
    let r = (base[full] & mask) == (ip[full] & mask);
    proof {
        let a = base@[full as int];
        let b = ip@[full as int];
        lemma_mask(a, b, tail as u8);
        if r {
            assert forall|k: int| 0 <= k < bits implies #[trigger] bit_at(base@, k) == bit_at(
                ip@,
                k,
            ) by {
                if k / 8 == full {
                    assert(bit_of(a, (k % 8) as u8) == bit_of(b, (k % 8) as u8));
                } else {
                    assert(k / 8 < full);
                }
            }
        } else if same_prefix(base@, ip@, bits as int) {
            assert forall|j: u8| j < tail implies #[trigger] bit_of(a, j) == bit_of(b, j) by {
                assert(bit_at(base@, full * 8 + j) == bit_at(ip@, full * 8 + j));
            }
        }
    }
    r
}

/// Decide whether the request is allowed. No rules → always allow.
pub fn check(rules: &[AccessRule], ip: IpAddr) -> (r: bool)
    ensures
        r == allowed(rules@, ip),
{
    let mut i: usize = 0;
    assert(rules@.skip(0) == rules@);
    while i < rules.len()
        invariant
            i <= rules@.len(),
            allowed(rules@.skip(i as int), ip) == allowed(rules@, ip),
        decreases rules@.len() - i,
    {
        let ghost rest = rules@.skip(i as int);
        assert(rest[0] == rules@[i as int]);
        assert(rest.skip(1) == rules@.skip(i + 1));
        if rules[i].target.matches(ip) {
            return rules[i].action == AccessAction::Allow;
        }
        i = i + 1;
    }
    true
}

/// The longest prefix that an address can have.
pub open spec fn max_bits(ip: IpAddr) -> nat {
    match ip {
        IpAddr::V4(_) => 32,
        IpAddr::V6(_) => 128,
    }
}

/// The target that `s` spells: `all`, an address, or `address/bits`.
pub open spec fn target_of(s: Seq<char>) -> Result<AccessTarget, Seq<char>> {
    if s == "all"@ {
        Ok(AccessTarget::All)
    } else {
        match split_once_at(s, '/') {
            Some((base, bits)) => match ip_text(base) {
                None => Err("invalid CIDR base '"@ + base + "' in '"@ + s + "'"@),
                Some(ip) => match number(bits, 255) {
                    None => Err("invalid CIDR prefix '"@ + bits + "' in '"@ + s + "'"@),
                    Some(n) => if n > max_bits(ip) {
                        Err(
                            "CIDR prefix /"@ + decimal(n) + " too large for "@ + ip_string(ip)
                                + " (max /"@ + decimal(max_bits(ip)) + ")"@,
                        )
                    } else {
                        Ok(AccessTarget::Cidr(ip, n as u8))
                    },
                },
            },
            None => match ip_text(s) {
                Some(ip) => Ok(AccessTarget::Ip(ip)),
                None => Err("invalid address '"@ + s + "'"@),
            },
        }
    }
}

/// Parse one `allow X;` / `deny X;` target. `X` is `all` / an IP / `IP/N`.
pub fn parse_target(s: &str) -> (r: Result<AccessTarget, String>)
    ensures
        result_view(r) == target_of(s@),
{
    if same(s, "all") {
        return Ok(AccessTarget::All);
    }
    match split_once(s, '/') {
        Some((base, bits)) => {
            let ip = match parse_ip(base) {
                Some(ip) => ip,
                None => {
                    let mut e = "invalid CIDR base '".to_owned();
                    e.append(base);
                    e.append("' in '");
                    e.append(s);
                    e.append("'");
                    return Err(e);
                },
            };
            let n: u64 = match parse_number(bits, 255) {
                Some(n) => n,
                None => {
                    let mut e = "invalid CIDR prefix '".to_owned();
                    e.append(bits);
                    e.append("' in '");
                    e.append(s);
                    e.append("'");
                    return Err(e);
                },
            };
            let max: u64 = match ip {
                IpAddr::V4(_) => 32,
                IpAddr::V6(_) => 128,
            };
            if n > max {
                let mut e = "CIDR prefix /".to_owned();
                push_decimal(&mut e, n);
                e.append(" too large for ");
                e.append(format_ip(ip).as_str());
                e.append(" (max /");
                push_decimal(&mut e, max);
                e.append(")");
                return Err(e);
            }
            Ok(AccessTarget::Cidr(ip, n as u8))
        },
        None => match parse_ip(s) {
            Some(ip) => Ok(AccessTarget::Ip(ip)),
            None => {
                let mut e = "invalid address '".to_owned();
                e.append(s);
                e.append("'");
                Err(e)
            },
        },
    }
}

// ---------------------------------------------------------------------------
// Laws
// ---------------------------------------------------------------------------

/// The first rule that covers an address decides about it, whatever follows.
pub proof fn law_first_match_decides(rules: Seq<AccessRule>, ip: IpAddr, i: int)
    requires
        0 <= i < rules.len(),
        covers(rules[i].target, ip),
        forall|k: int| 0 <= k < i ==> !covers(#[trigger] rules[k].target, ip),
    ensures
        allowed(rules, ip) == (rules[i].action == AccessAction::Allow),
    decreases i,
{
    if i > 0 {
        assert(!covers(rules[0].target, ip));
        assert forall|k: int| 0 <= k < i - 1 implies !covers(
            #[trigger] rules.skip(1)[k].target,
            ip,
        ) by {
            assert(rules.skip(1)[k] == rules[k + 1]);
        }
        law_first_match_decides(rules.skip(1), ip, i - 1);
    }
}

/// An address that no rule covers is allowed; so is every address when there
/// are no rules.
pub proof fn law_no_match_allows(rules: Seq<AccessRule>, ip: IpAddr)
    requires
        forall|k: int| 0 <= k < rules.len() ==> !covers(#[trigger] rules[k].target, ip),
    ensures
        allowed(rules, ip),
    decreases rules.len(),
{
    if rules.len() > 0 {
        assert(!covers(rules[0].target, ip));
        assert forall|k: int| 0 <= k < rules.skip(1).len() implies !covers(
            #[trigger] rules.skip(1)[k].target,
            ip,
        ) by {
            assert(rules.skip(1)[k] == rules[k + 1]);
        }
        law_no_match_allows(rules.skip(1), ip);
    }
}

/// A block of no bits covers every address of its family.
pub proof fn law_empty_prefix_covers_family(base: IpAddr, ip: IpAddr)
    requires
        base is V4 == ip is V4,
    ensures
        in_block(base, 0, ip),
{
}

/// A shorter prefix covers whatever a longer one covers.
pub proof fn law_shorter_prefix_covers_more(base: IpAddr, long: u8, short: u8, ip: IpAddr)
    requires
        short <= long,
        in_block(base, long, ip),
    ensures
        in_block(base, short, ip),
{
}

/// Every target that is read has a prefix its address can have.
pub proof fn law_prefix_fits(s: Seq<char>)
    ensures
        target_of(s) matches Ok(AccessTarget::Cidr(ip, bits)) ==> bits <= max_bits(ip),
{
}

} // verus!
