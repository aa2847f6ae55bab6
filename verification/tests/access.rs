use elrond::access::{check, parse_target, AccessRule, AccessTarget};
use elrond::net::{parse_ipv6, IpAddr, Ipv4Addr};

fn v4(a: u8, b: u8, c: u8, d: u8) -> IpAddr {
    IpAddr::V4(Ipv4Addr::new(a, b, c, d))
}

#[test]
fn parse_all() {
    assert!(matches!(parse_target("all").unwrap(), AccessTarget::All));
}

#[test]
fn parse_ip_and_match() {
    let t = parse_target("10.0.0.1").unwrap();
    assert!(t.matches(v4(10, 0, 0, 1)));
    assert!(!t.matches(v4(10, 0, 0, 2)));
}

#[test]
fn parse_cidr_v4_and_match() {
    let t = parse_target("10.0.0.0/8").unwrap();
    assert!(t.matches(v4(10, 1, 2, 3)));
    assert!(!t.matches(v4(11, 1, 2, 3)));
}

#[test]
fn parse_cidr_v4_partial_byte() {
    // /25 prefix splits the last octet at the high bit.
    let t = parse_target("192.168.1.0/25").unwrap();
    assert!(t.matches(v4(192, 168, 1, 0)));
    assert!(t.matches(v4(192, 168, 1, 127)));
    assert!(!t.matches(v4(192, 168, 1, 128)));
}

#[test]
fn parse_cidr_v6_and_match() {
    let t = parse_target("2001:db8::/32").unwrap();
    let inside: IpAddr = IpAddr::V6(parse_ipv6("2001:db8:1::1").unwrap());
    let outside: IpAddr = IpAddr::V6(parse_ipv6("2001:db9::1").unwrap());
    assert!(t.matches(inside));
    assert!(!t.matches(outside));
}

#[test]
fn first_match_wins() {
    let rules = vec![
        AccessRule::allow(parse_target("10.0.0.0/8").unwrap()),
        AccessRule::deny(parse_target("all").unwrap()),
    ];
    assert!(check(&rules, v4(10, 1, 2, 3)));
    assert!(!check(&rules, v4(192, 168, 1, 1)));
}

#[test]
fn no_rules_allows() {
    assert!(check(&[], v4(1, 2, 3, 4)));
}

#[test]
fn rejects_bad_input() {
    assert!(parse_target("nope").is_err());
    assert!(parse_target("10.0.0.0/99").is_err());
    assert!(parse_target("10.0.0.0/abc").is_err());
}

#[test]
fn zero_prefix_covers_its_family_only() {
    let t = parse_target("0.0.0.0/0").unwrap();
    assert!(t.matches(v4(203, 0, 113, 9)));
    assert!(!t.matches(IpAddr::V6(parse_ipv6("::1").unwrap())));
}

#[test]
fn shorter_prefix_covers_more() {
    let wide = parse_target("10.0.0.0/8").unwrap();
    let narrow = parse_target("10.1.0.0/16").unwrap();
    assert!(narrow.matches(v4(10, 1, 9, 9)));
    assert!(wide.matches(v4(10, 1, 9, 9)));
    assert!(wide.matches(v4(10, 2, 0, 0)));
    assert!(!narrow.matches(v4(10, 2, 0, 0)));
}

#[test]
fn bad_target_names_itself() {
    assert!(parse_target("nope").unwrap_err().contains("nope"));
}
