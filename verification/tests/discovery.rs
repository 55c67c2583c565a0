use ddns_core::consensus::{
    get_supported_public_ips, query_ip_providers, query_with_retries, IpQueryError,
};
use ddns_core::ip::{parse_ip, parse_ipv4, parse_ipv6, render_ip, IpAddress, Ipv4Address, Ipv6Address};
use ddns_core::text::{dedup_names, full_name, split_subdomain, split_str, trim_str};

fn v4(o0: u8, o1: u8, o2: u8, o3: u8) -> Ipv4Address {
    Ipv4Address { o0, o1, o2, o3 }
}

fn v6(gs: [u16; 8]) -> Ipv6Address {
    Ipv6Address {
        g0: gs[0],
        g1: gs[1],
        g2: gs[2],
        g3: gs[3],
        g4: gs[4],
        g5: gs[5],
        g6: gs[6],
        g7: gs[7],
    }
}

fn responses(bodies: &[Option<&str>]) -> Vec<Option<String>> {
    bodies.iter().map(|b| b.map(|s| s.to_string())).collect()
}

#[test]
fn split_subdomain_empty_is_no_subdomains() {
    let parts = split_subdomain("");
    assert_eq!(parts.len(), 0);
}

#[test]
fn split_subdomain_splits_on_commas() {
    let parts = split_subdomain("home,office,nas");
    assert_eq!(parts, vec!["home".to_string(), "office".to_string(), "nas".to_string()]);
}

#[test]
fn split_subdomain_single_name() {
    let parts = split_subdomain("www");
    assert_eq!(parts, vec!["www".to_string()]);
}

#[test]
fn split_str_keeps_empty_pieces() {
    let parts = split_str("a,,b,", ',');
    assert_eq!(parts, vec!["a".to_string(), "".to_string(), "b".to_string(), "".to_string()]);
}

#[test]
fn dedup_keeps_first_occurrences_in_order() {
    let names = split_subdomain("home,office,home,nas,office");
    let distinct = dedup_names(&names);
    assert_eq!(distinct, vec!["home".to_string(), "office".to_string(), "nas".to_string()]);
    let empty: Vec<String> = Vec::new();
    assert_eq!(dedup_names(&empty), empty);
}

#[test]
fn full_name_joins_subdomain_and_domain() {
    assert_eq!(full_name("home", "example.com"), "home.example.com".to_string());
}

#[test]
fn trim_removes_surrounding_whitespace() {
    assert_eq!(trim_str("  203.0.113.5\r\n"), "203.0.113.5");
    assert_eq!(trim_str("\t\n "), "");
    assert_eq!(trim_str("x"), "x");
}

#[test]
fn parse_ipv4_dotted_quad() {
    assert_eq!(parse_ipv4("203.0.113.5"), Some(v4(203, 0, 113, 5)));
    assert_eq!(parse_ipv4("0.0.0.0"), Some(v4(0, 0, 0, 0)));
    assert_eq!(parse_ipv4("255.255.255.255"), Some(v4(255, 255, 255, 255)));
}

#[test]
fn parse_ipv4_rejects_bad_text() {
    assert_eq!(parse_ipv4("256.0.0.1"), None);
    assert_eq!(parse_ipv4("01.2.3.4"), None);
    assert_eq!(parse_ipv4("1.2.3"), None);
    assert_eq!(parse_ipv4("1.2.3.4.5"), None);
    assert_eq!(parse_ipv4("1.2.3."), None);
    assert_eq!(parse_ipv4(""), None);
    assert_eq!(parse_ipv4("a.b.c.d"), None);
}

#[test]
fn parse_ipv6_full_and_compressed() {
    assert_eq!(
        parse_ipv6("2001:db8::1"),
        Some(v6([0x2001, 0xdb8, 0, 0, 0, 0, 0, 1]))
    );
    assert_eq!(
        parse_ipv6("1:2:3:4:5:6:7:8"),
        Some(v6([1, 2, 3, 4, 5, 6, 7, 8]))
    );
    assert_eq!(parse_ipv6("::"), Some(v6([0, 0, 0, 0, 0, 0, 0, 0])));
    assert_eq!(parse_ipv6("::1"), Some(v6([0, 0, 0, 0, 0, 0, 0, 1])));
    assert_eq!(parse_ipv6("fe80::"), Some(v6([0xfe80, 0, 0, 0, 0, 0, 0, 0])));
    assert_eq!(
        parse_ipv6("2001:0db8:0000:0000:0000:0000:0000:0001"),
        Some(v6([0x2001, 0xdb8, 0, 0, 0, 0, 0, 1]))
    );
    assert_eq!(
        parse_ipv6("A:b:C:d:E:f:1:2"),
        Some(v6([0xa, 0xb, 0xc, 0xd, 0xe, 0xf, 1, 2]))
    );
}

#[test]
fn parse_ipv6_rejects_bad_text() {
    assert_eq!(parse_ipv6(":::"), None);
    assert_eq!(parse_ipv6(":"), None);
    assert_eq!(parse_ipv6("1:2"), None);
    assert_eq!(parse_ipv6("1:2:3:4:5:6:7:8:9"), None);
    assert_eq!(parse_ipv6("1::2::3"), None);
    assert_eq!(parse_ipv6("12345::"), None);
    assert_eq!(parse_ipv6("g::1"), None);
    assert_eq!(parse_ipv6(":1:2:3:4:5:6:7"), None);
    assert_eq!(parse_ipv6("1:2:3:4:5:6:7:"), None);
    assert_eq!(parse_ipv6(""), None);
}

#[test]
fn parse_ip_tags_the_family() {
    assert_eq!(parse_ip("203.0.113.5"), Some(IpAddress::V4(v4(203, 0, 113, 5))));
    assert_eq!(
        parse_ip("2001:db8::1"),
        Some(IpAddress::V6(v6([0x2001, 0xdb8, 0, 0, 0, 0, 0, 1])))
    );
    assert_eq!(parse_ip("not an address"), None);
}

#[test]
fn render_ipv4_is_dotted_quad() {
    let ip = IpAddress::V4(v4(203, 0, 113, 5));
    assert_eq!(render_ip(&ip), "203.0.113.5".to_string());
    let zero = IpAddress::V4(v4(0, 0, 0, 0));
    assert_eq!(render_ip(&zero), "0.0.0.0".to_string());
}

#[test]
fn render_ipv6_writes_all_groups() {
    let ip = IpAddress::V6(v6([0x2001, 0xdb8, 0, 0, 0, 0, 0, 1]));
    assert_eq!(render_ip(&ip), "2001:db8:0:0:0:0:0:1".to_string());
    let cafe = IpAddress::V6(v6([0xfe80, 0, 0, 0, 0xabcd, 0x12, 0xffff, 0xf]));
    assert_eq!(render_ip(&cafe), "fe80:0:0:0:abcd:12:ffff:f".to_string());
}

#[test]
fn render_then_parse_round_trips() {
    let a = IpAddress::V4(v4(198, 51, 100, 7));
    assert_eq!(parse_ip(&render_ip(&a)), Some(a));
    let b = IpAddress::V6(v6([0x2001, 0xdb8, 0, 0x8a2e, 0, 0, 0x370, 0x7334]));
    assert_eq!(parse_ip(&render_ip(&b)), Some(b));
}

#[test]
fn consensus_three_identical_answers_resolves() {
    let r = responses(&[Some("203.0.113.5"), Some("203.0.113.5"), Some("203.0.113.5")]);
    assert_eq!(
        query_ip_providers(&r, 2),
        Ok(IpAddress::V4(v4(203, 0, 113, 5)))
    );
}

#[test]
fn consensus_trims_response_bodies() {
    let r = responses(&[Some(" 203.0.113.5\n"), Some("203.0.113.5 "), Some("\t203.0.113.5")]);
    assert_eq!(
        query_ip_providers(&r, 2),
        Ok(IpAddress::V4(v4(203, 0, 113, 5)))
    );
}

#[test]
fn consensus_disagreement_names_both_values() {
    let r = responses(&[Some("203.0.113.5"), Some("203.0.113.6"), Some("203.0.113.5")]);
    assert_eq!(
        query_ip_providers(&r, 2),
        Err(IpQueryError::ConsensusMismatch {
            first: IpAddress::V4(v4(203, 0, 113, 5)),
            conflict: IpAddress::V4(v4(203, 0, 113, 6)),
        })
    );
}

#[test]
fn consensus_disagreement_wins_over_later_agreement() {
    // endpoints after the conflicting pair are irrelevant
    let r = responses(&[
        Some("203.0.113.5"),
        Some("203.0.113.6"),
        Some("203.0.113.6"),
        Some("203.0.113.6"),
    ]);
    assert_eq!(
        query_ip_providers(&r, 2),
        Err(IpQueryError::ConsensusMismatch {
            first: IpAddress::V4(v4(203, 0, 113, 5)),
            conflict: IpAddress::V4(v4(203, 0, 113, 6)),
        })
    );
}

#[test]
fn consensus_too_few_reachable_fails() {
    // two agreeing responses are not strictly more than min_agreement = 2
    let r = responses(&[Some("203.0.113.5"), None, Some("203.0.113.5")]);
    assert_eq!(query_ip_providers(&r, 2), Err(IpQueryError::NoIpAvailable));
}

#[test]
fn consensus_unparsable_bodies_are_skipped() {
    let r = responses(&[Some("<html>error</html>"), Some("203.0.113.5"), Some("203.0.113.5")]);
    assert_eq!(query_ip_providers(&r, 2), Err(IpQueryError::NoIpAvailable));
}

#[test]
fn consensus_nothing_reachable_fails() {
    let r = responses(&[None, None, None]);
    assert_eq!(query_ip_providers(&r, 2), Err(IpQueryError::NoIpAvailable));
}

#[test]
fn retries_return_first_success() {
    // fails twice (too few reachable), succeeds on the third attempt
    let failing = responses(&[Some("203.0.113.5"), None, None]);
    let good = responses(&[Some("203.0.113.5"), Some("203.0.113.5"), Some("203.0.113.5")]);
    let attempts = vec![failing.clone(), failing.clone(), good];
    assert_eq!(
        query_with_retries(&attempts, 2),
        Some(IpAddress::V4(v4(203, 0, 113, 5)))
    );
}

#[test]
fn retries_exhausted_yield_none() {
    let failing = responses(&[Some("203.0.113.5"), Some("203.0.113.6"), None]);
    let attempts = vec![
        failing.clone(),
        failing.clone(),
        failing.clone(),
        failing.clone(),
        failing.clone(),
    ];
    assert_eq!(query_with_retries(&attempts, 2), None);
}

#[test]
fn dual_stack_families_are_independent() {
    let good_v4 = responses(&[Some("203.0.113.5"), Some("203.0.113.5"), Some("203.0.113.5")]);
    let bad_v6 = responses(&[None, None, None]);
    let (ipv4, ipv6) = get_supported_public_ips(&vec![good_v4], &vec![bad_v6], 2);
    assert_eq!(ipv4, Some(v4(203, 0, 113, 5)));
    assert_eq!(ipv6, None);
}

#[test]
fn dual_stack_drops_wrong_family_answers() {
    // the IPv4 endpoint set agreeing on an IPv6 address yields no IPv4
    let v6_bodies = responses(&[Some("2001:db8::1"), Some("2001:db8::1"), Some("2001:db8::1")]);
    let (ipv4, ipv6) = get_supported_public_ips(&vec![v6_bodies.clone()], &vec![v6_bodies], 2);
    assert_eq!(ipv4, None);
    assert_eq!(ipv6, Some(v6([0x2001, 0xdb8, 0, 0, 0, 0, 0, 1])));
}
