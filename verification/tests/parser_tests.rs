use userhosts::addr::{parse_ipv4, parse_ipv6, parse_addr, HostAddress};
use userhosts::table::{load_hosts_map, parse_hosts_line, HostsMap};

fn v(s: &str) -> Vec<u8> {
    s.as_bytes().to_vec()
}

#[test]
fn ipv4_basic() {
    assert_eq!(parse_ipv4(&v("10.0.0.1")), Some(vec![10, 0, 0, 1]));
    assert_eq!(parse_ipv4(&v("0.0.0.0")), Some(vec![0, 0, 0, 0]));
    assert_eq!(parse_ipv4(&v("255.255.255.255")), Some(vec![255, 255, 255, 255]));
}

#[test]
fn ipv4_rejects_malformed() {
    assert_eq!(parse_ipv4(&v("256.0.0.1")), None);
    assert_eq!(parse_ipv4(&v("01.2.3.4")), None);
    assert_eq!(parse_ipv4(&v("1.2.3")), None);
    assert_eq!(parse_ipv4(&v("1.2.3.4.5")), None);
    assert_eq!(parse_ipv4(&v("1.2.3.x")), None);
    assert_eq!(parse_ipv4(&v("")), None);
    assert_eq!(parse_ipv4(&v("1..2.3")), None);
}

#[test]
fn ipv6_loopback() {
    let mut want = vec![0u8; 16];
    want[15] = 1;
    assert_eq!(parse_ipv6(&v("::1")), Some(want));
}

#[test]
fn ipv6_full_form() {
    let got = parse_ipv6(&v("2001:db8:0:0:8:800:200c:417a")).unwrap();
    let want = vec![
        0x20, 0x01, 0x0d, 0xb8, 0, 0, 0, 0, 0, 8, 0x08, 0, 0x20, 0x0c, 0x41, 0x7a,
    ];
    assert_eq!(got, want);
}

#[test]
fn ipv6_compressed() {
    let got = parse_ipv6(&v("2001:db8::8:800:200c:417a")).unwrap();
    let want = vec![
        0x20, 0x01, 0x0d, 0xb8, 0, 0, 0, 0, 0, 8, 0x08, 0, 0x20, 0x0c, 0x41, 0x7a,
    ];
    assert_eq!(got, want);
}

#[test]
fn ipv6_embedded_ipv4() {
    let got = parse_ipv6(&v("::ffff:192.0.2.128")).unwrap();
    let mut want = vec![0u8; 16];
    want[10] = 0xff;
    want[11] = 0xff;
    want[12] = 192;
    want[13] = 0;
    want[14] = 2;
    want[15] = 128;
    assert_eq!(got, want);
}

#[test]
fn ipv6_trailing_compression() {
    let got = parse_ipv6(&v("1:2:3:4:5:6:7::")).unwrap();
    let want = vec![0, 1, 0, 2, 0, 3, 0, 4, 0, 5, 0, 6, 0, 7, 0, 0];
    assert_eq!(got, want);
}

#[test]
fn ipv6_rejects_malformed() {
    assert_eq!(parse_ipv6(&v(":::")), None);
    assert_eq!(parse_ipv6(&v("1:2:3:4:5:6:7:8:9")), None);
    assert_eq!(parse_ipv6(&v("1:2:3:4:5:6:7::8")), None);
    assert_eq!(parse_ipv6(&v("1:2:3:4:5:6:7")), None);
    assert_eq!(parse_ipv6(&v("")), None);
    assert_eq!(parse_ipv6(&v("12345::")), None);
    assert_eq!(parse_ipv6(&v("g::1")), None);
}

#[test]
fn addr_prefers_ipv4_and_tags_family() {
    match parse_addr(&v("1.2.3.4")) {
        Some(HostAddress::Ipv4(b)) => assert_eq!(b, vec![1, 2, 3, 4]),
        _ => panic!("expected an IPv4 address"),
    }
    match parse_addr(&v("::1")) {
        Some(HostAddress::Ipv6(b)) => assert_eq!(b.len(), 16),
        _ => panic!("expected an IPv6 address"),
    }
    assert!(parse_addr(&v("hostname")).is_none());
}

#[test]
fn line_maps_each_hostname_in_order() {
    let mut m = HostsMap::new();
    parse_hosts_line(&mut m, &v("10.0.0.9 x y"));
    let xs = m.lookup(false, &v("x")).unwrap();
    assert_eq!(xs, &vec![vec![10, 0, 0, 9]]);
    let ys = m.lookup(false, &v("y")).unwrap();
    assert_eq!(ys, &vec![vec![10, 0, 0, 9]]);
}

#[test]
fn malformed_first_token_contributes_nothing() {
    let mut m = HostsMap::new();
    parse_hosts_line(&mut m, &v("notanip a b"));
    assert!(m.lookup(false, &v("a")).is_none());
    assert!(m.lookup(false, &v("b")).is_none());
    assert!(m.lookup(true, &v("a")).is_none());
}

#[test]
fn lonely_address_contributes_nothing() {
    let mut m = HostsMap::new();
    parse_hosts_line(&mut m, &v("10.0.0.1"));
    assert!(m.lookup(false, &v("10.0.0.1")).is_none());
}

#[test]
fn addresses_accumulate_in_source_order() {
    let m = load_hosts_map(Some(&v("1.2.3.4 h;5.6.7.8 h")), None);
    let hs = m.lookup(false, &v("h")).unwrap();
    assert_eq!(hs, &vec![vec![1, 2, 3, 4], vec![5, 6, 7, 8]]);
}

#[test]
fn families_are_kept_apart() {
    let m = load_hosts_map(Some(&v("1.2.3.4 h;::1 h")), None);
    assert_eq!(m.lookup(false, &v("h")).unwrap(), &vec![vec![1, 2, 3, 4]]);
    let six = m.lookup(true, &v("h")).unwrap();
    assert_eq!(six.len(), 1);
    assert_eq!(six[0][15], 1);
}

#[test]
fn comment_strips_rest_of_file_line() {
    let m = load_hosts_map(None, Some(&v("10.0.0.5 a b  # comment c")));
    assert_eq!(m.lookup(false, &v("a")).unwrap(), &vec![vec![10, 0, 0, 5]]);
    assert_eq!(m.lookup(false, &v("b")).unwrap(), &vec![vec![10, 0, 0, 5]]);
    assert!(m.lookup(false, &v("c")).is_none());
    assert!(m.lookup(false, &v("comment")).is_none());
}

#[test]
fn inline_semicolons_and_file_newlines() {
    let m = load_hosts_map(
        Some(&v("1.1.1.1 one;2.2.2.2 two")),
        Some(&v("3.3.3.3 three\n4.4.4.4 four\n")),
    );
    assert_eq!(m.lookup(false, &v("one")).unwrap(), &vec![vec![1, 1, 1, 1]]);
    assert_eq!(m.lookup(false, &v("two")).unwrap(), &vec![vec![2, 2, 2, 2]]);
    assert_eq!(m.lookup(false, &v("three")).unwrap(), &vec![vec![3, 3, 3, 3]]);
    assert_eq!(m.lookup(false, &v("four")).unwrap(), &vec![vec![4, 4, 4, 4]]);
}

#[test]
fn inline_source_loads_before_file() {
    let m = load_hosts_map(Some(&v("1.2.3.4 h")), Some(&v("5.6.7.8 h")));
    let hs = m.lookup(false, &v("h")).unwrap();
    assert_eq!(hs, &vec![vec![1, 2, 3, 4], vec![5, 6, 7, 8]]);
}

#[test]
fn loading_is_idempotent() {
    let inline = v("10.0.0.1 foo bar;::1 foo");
    let file = v("10.0.0.2 foo # x\n");
    let m1 = load_hosts_map(Some(&inline), Some(&file));
    let m2 = load_hosts_map(Some(&inline), Some(&file));
    assert_eq!(m1.lookup(false, &v("foo")), m2.lookup(false, &v("foo")));
    assert_eq!(m1.lookup(false, &v("bar")), m2.lookup(false, &v("bar")));
    assert_eq!(m1.lookup(true, &v("foo")), m2.lookup(true, &v("foo")));
    assert_eq!(
        m1.lookup(false, &v("foo")).unwrap(),
        &vec![vec![10, 0, 0, 1], vec![10, 0, 0, 2]]
    );
}

#[test]
fn add_appends_to_existing_entry() {
    let mut m = HostsMap::new();
    m.add(v("h"), HostAddress::Ipv4(vec![1, 2, 3, 4]));
    m.add(v("h"), HostAddress::Ipv4(vec![9, 9, 9, 9]));
    assert_eq!(m.lookup(false, &v("h")).unwrap(), &vec![vec![1, 2, 3, 4], vec![9, 9, 9, 9]]);
}

#[test]
fn lookup_is_case_sensitive_exact_match() {
    let m = load_hosts_map(Some(&v("1.2.3.4 Host")), None);
    assert!(m.lookup(false, &v("host")).is_none());
    assert!(m.lookup(false, &v("Host")).is_some());
}
