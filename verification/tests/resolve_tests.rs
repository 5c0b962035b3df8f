use userhosts::resolve::{
    gethostbyname_r, gethostbyname2_r, AF_INET, AF_INET6, EINVAL, ENOENT, ERANGE, HOST_NOT_FOUND,
    NO_RECOVERY, NSS_STATUS_NOTFOUND, NSS_STATUS_SUCCESS, NSS_STATUS_TRYAGAIN, NSS_STATUS_UNAVAIL,
};
use userhosts::writer::{write_hostent, hostent};

fn v(s: &str) -> Vec<u8> {
    s.as_bytes().to_vec()
}

fn read_slot(bytes: &[u8], off: usize) -> u64 {
    let mut x: u64 = 0;
    for k in (0..8usize).rev() {
        x = (x << 8) | bytes[off + k] as u64;
    }
    x
}

#[test]
fn success_with_one_ipv4_address() {
    let inline = v("10.0.0.1 foo.local;10.0.0.2 bar.local");
    let mut errno: i32 = 0;
    let mut h_errno: i32 = 0;
    let (status, out) = gethostbyname2_r(
        &v("foo.local"),
        AF_INET,
        1024,
        Some(&inline),
        None,
        &mut errno,
        &mut h_errno,
    );
    assert_eq!(status, NSS_STATUS_SUCCESS);
    assert_eq!(errno, 0);
    assert_eq!(h_errno, 0);
    let (bytes, he) = out.unwrap();
    assert_eq!(he.h_name, 0);
    assert_eq!(he.h_addrtype, AF_INET);
    assert_eq!(he.h_length, 4);
    assert_eq!(&bytes[0..10], b"foo.local\0");
    let a0 = read_slot(&bytes, he.h_addr_list) as usize;
    assert_eq!(&bytes[a0..a0 + 4], &[10, 0, 0, 1]);
    assert_eq!(read_slot(&bytes, he.h_addr_list + 8), 0);
}

#[test]
fn unknown_hostname_reports_not_found() {
    let inline = v("10.0.0.1 foo.local");
    let mut errno: i32 = 0;
    let mut h_errno: i32 = 0;
    let (status, out) = gethostbyname2_r(
        &v("nosuch.host"),
        AF_INET,
        4096,
        Some(&inline),
        None,
        &mut errno,
        &mut h_errno,
    );
    assert_eq!(status, NSS_STATUS_NOTFOUND);
    assert_eq!(errno, ENOENT);
    assert_eq!(h_errno, HOST_NOT_FOUND);
    assert!(out.is_none());
}

#[test]
fn bad_family_reports_unavail() {
    let mut errno: i32 = 0;
    let mut h_errno: i32 = 0;
    let (status, out) = gethostbyname2_r(
        &v("foo.local"),
        5,
        4096,
        Some(&v("10.0.0.1 foo.local")),
        None,
        &mut errno,
        &mut h_errno,
    );
    assert_eq!(status, NSS_STATUS_UNAVAIL);
    assert_eq!(errno, EINVAL);
    assert_eq!(h_errno, NO_RECOVERY);
    assert!(out.is_none());
}

#[test]
fn ipv6_lookup_returns_sixteen_byte_address() {
    let inline = v("::1 localhost6");
    let mut errno: i32 = 0;
    let mut h_errno: i32 = 0;
    let (status, out) = gethostbyname2_r(
        &v("localhost6"),
        AF_INET6,
        1024,
        Some(&inline),
        None,
        &mut errno,
        &mut h_errno,
    );
    assert_eq!(status, NSS_STATUS_SUCCESS);
    let (bytes, he) = out.unwrap();
    assert_eq!(he.h_addrtype, AF_INET6);
    assert_eq!(he.h_length, 16);
    let a0 = read_slot(&bytes, he.h_addr_list) as usize;
    let mut want = vec![0u8; 16];
    want[15] = 1;
    assert_eq!(&bytes[a0..a0 + 16], &want[..]);
    assert_eq!(read_slot(&bytes, he.h_addr_list + 8), 0);
}

#[test]
fn exact_buffer_succeeds_one_short_fails() {
    // name "foo.local" (9+1) + alias array (8) + one address (4) + its
    // array (16) = 38 bytes
    let inline = v("10.0.0.1 foo.local");
    let name = v("foo.local");
    let mut errno: i32 = 0;
    let mut h_errno: i32 = 55;
    let (status, out) =
        gethostbyname2_r(&name, AF_INET, 38, Some(&inline), None, &mut errno, &mut h_errno);
    assert_eq!(status, NSS_STATUS_SUCCESS);
    let (bytes, _) = out.unwrap();
    assert_eq!(bytes.len(), 38);

    let mut errno2: i32 = 0;
    let mut h_errno2: i32 = 55;
    let (status2, out2) =
        gethostbyname2_r(&name, AF_INET, 37, Some(&inline), None, &mut errno2, &mut h_errno2);
    assert_eq!(status2, NSS_STATUS_TRYAGAIN);
    assert_eq!(errno2, ERANGE);
    assert_eq!(h_errno2, 55);
    assert!(out2.is_none());
}

#[test]
fn repeated_calls_give_identical_records() {
    let inline = v("10.0.0.1 foo;::1 foo;10.0.0.2 foo");
    let name = v("foo");
    let mut e1: i32 = 0;
    let mut h1: i32 = 0;
    let r1 = gethostbyname2_r(&name, AF_INET, 512, Some(&inline), None, &mut e1, &mut h1);
    let mut e2: i32 = 0;
    let mut h2: i32 = 0;
    let r2 = gethostbyname2_r(&name, AF_INET, 512, Some(&inline), None, &mut e2, &mut h2);
    assert_eq!(r1, r2);
    assert_eq!((e1, h1), (e2, h2));
}

#[test]
fn gethostbyname_defaults_to_ipv4() {
    let inline = v("10.0.0.7 both;::7 both");
    let mut errno: i32 = 0;
    let mut h_errno: i32 = 0;
    let (status, out) =
        gethostbyname_r(&v("both"), 512, Some(&inline), None, &mut errno, &mut h_errno);
    assert_eq!(status, NSS_STATUS_SUCCESS);
    let (bytes, he) = out.unwrap();
    assert_eq!(he.h_addrtype, AF_INET);
    assert_eq!(he.h_length, 4);
    let a0 = read_slot(&bytes, he.h_addr_list) as usize;
    assert_eq!(&bytes[a0..a0 + 4], &[10, 0, 0, 7]);
}

#[test]
fn record_round_trip_reconstructs_everything() {
    let name = v("web");
    let aliases: Vec<Vec<u8>> = Vec::new();
    let addrs = vec![vec![1u8, 2, 3, 4], vec![5u8, 6, 7, 8]];
    let (bytes, he) = write_hostent(4096, &name, &aliases, AF_INET, 4, &addrs).unwrap();
    // name and its terminator
    assert_eq!(&bytes[0..3], b"web");
    assert_eq!(bytes[3], 0);
    assert_eq!(he.h_name, 0);
    // the alias array holds only the terminating zero slot
    assert_eq!(he.h_aliases, 4);
    assert_eq!(read_slot(&bytes, he.h_aliases), 0);
    // both addresses come back in order, then the zero slot
    let a0 = read_slot(&bytes, he.h_addr_list) as usize;
    let a1 = read_slot(&bytes, he.h_addr_list + 8) as usize;
    assert_eq!(&bytes[a0..a0 + 4], &[1, 2, 3, 4]);
    assert_eq!(&bytes[a1..a1 + 4], &[5, 6, 7, 8]);
    assert_eq!(read_slot(&bytes, he.h_addr_list + 16), 0);
    // the record is exactly the minimum size: 4 + 8 + 8 + 24
    assert_eq!(bytes.len(), 44);
}

#[test]
fn writer_fails_without_exposing_anything() {
    let name = v("web");
    let aliases: Vec<Vec<u8>> = Vec::new();
    let addrs = vec![vec![1u8, 2, 3, 4]];
    assert_eq!(write_hostent(10, &name, &aliases, AF_INET, 4, &addrs), None);
    let full: Option<(Vec<u8>, hostent)> = write_hostent(32, &name, &aliases, AF_INET, 4, &addrs);
    assert!(full.is_some());
    assert_eq!(write_hostent(31, &name, &aliases, AF_INET, 4, &addrs), None);
}

#[test]
fn empty_sources_resolve_nothing() {
    let mut errno: i32 = 0;
    let mut h_errno: i32 = 0;
    let (status, out) =
        gethostbyname2_r(&v("anything"), AF_INET, 512, None, None, &mut errno, &mut h_errno);
    assert_eq!(status, NSS_STATUS_NOTFOUND);
    assert_eq!(errno, ENOENT);
    assert_eq!(h_errno, HOST_NOT_FOUND);
    assert!(out.is_none());
}
