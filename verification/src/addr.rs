//! Textual IPv4 and IPv6 address parsing.
//!
//! The grammar is the usual literal syntax: dotted decimal quads for IPv4
//! (no leading zeros, each octet at most 255), and colon-separated groups
//! of up to four hex digits for IPv6, with at most one `::` compression
//! standing for at least one zero group, and an optional embedded IPv4
//! literal as the final 32 bits.

use vstd::prelude::*;
use crate::text::{split_on, seq_views, split_bytes, prefix_bytes, suffix_bytes, push_all};

verus! {

pub open spec fn is_digit(c: u8) -> bool {
    48 <= c <= 57
}

pub open spec fn is_hex_digit(c: u8) -> bool {
    is_digit(c) || (97 <= c <= 102) || (65 <= c <= 70)
}

pub open spec fn hex_val(c: u8) -> int {
    if is_digit(c) {
        c - 48
    } else if 97 <= c <= 102 {
        c - 87
    } else {
        c - 55
    }
}

pub open spec fn all_digits(s: Seq<u8>) -> bool {
    forall|i: int| 0 <= i < s.len() ==> is_digit(s[i])
}

/// The number a run of decimal digits denotes.
pub open spec fn dec_value(s: Seq<u8>) -> int
    decreases s.len(),
{
    if s.len() == 0 {
        0
    } else {
        dec_value(s.drop_last()) * 10 + (s.last() - 48)
    }
}

/// The number a run of hex digits denotes.
pub open spec fn hex_value(s: Seq<u8>) -> int
    decreases s.len(),
{
    if s.len() == 0 {
        0
    } else {
        hex_value(s.drop_last()) * 16 + hex_val(s.last())
    }
}

/// A valid IPv4 octet: one to three decimal digits, value at most 255,
/// and no leading zero except for the octet `0` itself.
pub open spec fn is_dec_octet(s: Seq<u8>) -> bool {
    &&& 1 <= s.len() <= 3
    &&& all_digits(s)
    &&& dec_value(s) <= 255
    &&& (s.len() > 1 ==> s[0] != 48)
}

/// A valid IPv6 group: one to four hex digits.
pub open spec fn is_h16(s: Seq<u8>) -> bool {
    &&& 1 <= s.len() <= 4
    &&& forall|i: int| 0 <= i < s.len() ==> is_hex_digit(s[i])
}

/// The four address bytes an IPv4 literal denotes, when it is one.
pub open spec fn spec_parse_ipv4(s: Seq<u8>) -> Option<Seq<u8>> {
    let parts = split_on(s, 46);
    if parts.len() == 4 && is_dec_octet(parts[0]) && is_dec_octet(parts[1]) && is_dec_octet(
        parts[2],
    ) && is_dec_octet(parts[3]) {
        Some(
            seq![
                dec_value(parts[0]) as u8,
                dec_value(parts[1]) as u8,
                dec_value(parts[2]) as u8,
                dec_value(parts[3]) as u8,
            ],
        )
    } else {
        None
    }
}

pub open spec fn all_h16(parts: Seq<Seq<u8>>) -> bool {
    forall|i: int| 0 <= i < parts.len() ==> is_h16(parts[i])
}

/// The big-endian byte pairs a run of IPv6 groups denotes.
pub open spec fn groups_bytes(parts: Seq<Seq<u8>>) -> Seq<u8>
    decreases parts.len(),
{
    if parts.len() == 0 {
        Seq::empty()
    } else {
        groups_bytes(parts.drop_last()) + seq![
            (hex_value(parts.last()) / 256) as u8,
            (hex_value(parts.last()) % 256) as u8,
        ]
    }
}

/// A run of groups that may end in an embedded IPv4 literal.
pub open spec fn tail_ok(parts: Seq<Seq<u8>>) -> bool {
    if parts.len() > 0 && spec_parse_ipv4(parts.last()) is Some {
        all_h16(parts.drop_last())
    } else {
        all_h16(parts)
    }
}

/// How many 16-bit groups such a run stands for (an IPv4 tail counts as two).
pub open spec fn tail_group_count(parts: Seq<Seq<u8>>) -> int {
    if parts.len() > 0 && spec_parse_ipv4(parts.last()) is Some {
        parts.len() as int + 1
    } else {
        parts.len() as int
    }
}

/// The bytes such a run denotes.
pub open spec fn tail_bytes(parts: Seq<Seq<u8>>) -> Seq<u8> {
    if parts.len() > 0 && spec_parse_ipv4(parts.last()) is Some {
        groups_bytes(parts.drop_last()) + spec_parse_ipv4(parts.last()).unwrap()
    } else {
        groups_bytes(parts)
    }
}

/// Index of the first `::` in `s`, or -1 when there is none.
pub open spec fn find_dc(s: Seq<u8>) -> int
    decreases s.len(),
{
    if s.len() < 2 {
        -1
    } else if s[0] == 58 && s[1] == 58 {
        0
    } else {
        let r = find_dc(s.skip(1));
        if r < 0 {
            -1
        } else {
            r + 1
        }
    }
}

pub open spec fn zero_bytes(n: int) -> Seq<u8> {
    Seq::new(n as nat, |i: int| 0u8)
}

/// The colon-separated pieces of one side of a `::`, where an empty side
/// contributes no groups at all.
pub open spec fn side_parts(s: Seq<u8>) -> Seq<Seq<u8>> {
    if s.len() == 0 {
        Seq::empty()
    } else {
        split_on(s, 58)
    }
}

/// The sixteen address bytes an IPv6 literal denotes, when it is one.
///
/// Without `::` the literal must denote exactly eight groups; with `::`
/// the written groups must number at most seven, the gap standing for
/// the missing zero groups. An embedded IPv4 literal may only form the
/// final 32 bits.
pub open spec fn spec_parse_ipv6(s: Seq<u8>) -> Option<Seq<u8>> {
    let d = find_dc(s);
    if d < 0 {
        let parts = split_on(s, 58);
        if tail_ok(parts) && tail_group_count(parts) == 8 {
            Some(tail_bytes(parts))
        } else {
            None
        }
    } else {
        let lparts = side_parts(s.take(d));
        let rparts = side_parts(s.skip(d + 2));
        if all_h16(lparts) && tail_ok(rparts) && lparts.len() + tail_group_count(rparts) < 8 {
            Some(
                groups_bytes(lparts) + zero_bytes(
                    16 - 2 * lparts.len() - tail_bytes(rparts).len(),
                ) + tail_bytes(rparts),
            )
        } else {
            None
        }
    }
}

/// A parsed address: the tag says which family, the payload holds the
/// four or sixteen address bytes.
pub enum HostAddress {
    Ipv4(Vec<u8>),
    Ipv6(Vec<u8>),
}

impl HostAddress {
    pub open spec fn wf(&self) -> bool {
        match self {
            HostAddress::Ipv4(b) => b@.len() == 4,
            HostAddress::Ipv6(b) => b@.len() == 16,
        }
    }

    pub open spec fn is_v6(&self) -> bool {
        match self {
            HostAddress::Ipv4(_) => false,
            HostAddress::Ipv6(_) => true,
        }
    }

    pub open spec fn addr_bytes(&self) -> Seq<u8> {
        match self {
            HostAddress::Ipv4(b) => b@,
            HostAddress::Ipv6(b) => b@,
        }
    }
}

/// What an address token denotes: the family tag (true for IPv6) and the
/// address bytes, with IPv4 tried first as the table loader does.
pub open spec fn spec_parse_addr(s: Seq<u8>) -> Option<(bool, Seq<u8>)> {
    if spec_parse_ipv4(s) is Some {
        Some((false, spec_parse_ipv4(s).unwrap()))
    } else if spec_parse_ipv6(s) is Some {
        Some((true, spec_parse_ipv6(s).unwrap()))
    } else {
        None
    }
}

pub open spec fn pow10(n: nat) -> int
    decreases n,
{
    if n == 0 {
        1
    } else {
        10 * pow10((n - 1) as nat)
    }
}

pub open spec fn pow16(n: nat) -> int
    decreases n,
{
    if n == 0 {
        1
    } else {
        16 * pow16((n - 1) as nat)
    }
}

pub proof fn lemma_dec_value_bound(s: Seq<u8>)
    requires
        all_digits(s),
    ensures
        0 <= dec_value(s) < pow10(s.len()),
    decreases s.len(),
{
    if s.len() == 0 {
    } else {
        assert forall|i: int| 0 <= i < s.len() - 1 implies is_digit(s.drop_last()[i]) by {
            assert(s.drop_last()[i] == s[i]);
        }
        lemma_dec_value_bound(s.drop_last());
        assert(is_digit(s.last()));
    }
}

pub proof fn lemma_hex_value_bound(s: Seq<u8>)
    requires
        forall|i: int| 0 <= i < s.len() ==> is_hex_digit(s[i]),
    ensures
        0 <= hex_value(s) < pow16(s.len()),
    decreases s.len(),
{
    if s.len() == 0 {
    } else {
        assert forall|i: int| 0 <= i < s.len() - 1 implies is_hex_digit(s.drop_last()[i]) by {
            assert(s.drop_last()[i] == s[i]);
        }
        lemma_hex_value_bound(s.drop_last());
        assert(is_hex_digit(s.last()));
        assert(0 <= hex_val(s.last()) < 16);
    }
}

pub proof fn lemma_groups_bytes_len(parts: Seq<Seq<u8>>)
    ensures
        groups_bytes(parts).len() == 2 * parts.len(),
    decreases parts.len(),
{
    if parts.len() == 0 {
    } else {
        lemma_groups_bytes_len(parts.drop_last());
    }
}

pub proof fn lemma_tail_bytes_len(parts: Seq<Seq<u8>>)
    ensures
        tail_bytes(parts).len() == 2 * tail_group_count(parts),
{
    if parts.len() > 0 && spec_parse_ipv4(parts.last()) is Some {
        lemma_groups_bytes_len(parts.drop_last());
    } else {
        lemma_groups_bytes_len(parts);
    }
}

/// A separator-free sequence splits into itself alone.
pub proof fn lemma_split_no_sep(s: Seq<u8>, sep: u8)
    requires
        forall|j: int| 0 <= j < s.len() ==> s[j] != sep,
    ensures
        split_on(s, sep) =~= seq![s],
    decreases s.len(),
{
    if s.len() == 0 {
        assert(s =~= Seq::<u8>::empty());
    } else {
        assert forall|j: int| 0 <= j < s.len() - 1 implies s.drop_last()[j] != sep by {
            assert(s.drop_last()[j] == s[j]);
        }
        lemma_split_no_sep(s.drop_last(), sep);
        assert(s.last() != sep);
        assert(split_on(s, sep) =~= seq![s.drop_last().push(s.last())]);
        assert(s.drop_last().push(s.last()) =~= s);
    }
}

/// A hex group contains no dot, so it can never also be an IPv4 literal.
pub proof fn lemma_h16_not_ipv4(s: Seq<u8>)
    requires
        is_h16(s),
    ensures
        spec_parse_ipv4(s) is None,
{
    assert forall|j: int| 0 <= j < s.len() implies s[j] != 46 by {
        assert(is_hex_digit(s[j]));
    }
    lemma_split_no_sep(s, 46);
}

fn hex_digit_value(c: u8) -> (r: Option<u8>)
    ensures
        r is Some <==> is_hex_digit(c),
        r matches Some(v) ==> v as int == hex_val(c),
{
    if 48 <= c && c <= 57 {
        Some(c - 48)
    } else if 97 <= c && c <= 102 {
        Some(c - 87)
    } else if 65 <= c && c <= 70 {
        Some(c - 55)
    } else {
        None
    }
}

/// Parses one decimal octet of an IPv4 literal.
pub fn parse_dec_octet(part: &Vec<u8>) -> (r: Option<u8>)
    ensures
        r is Some <==> is_dec_octet(part@),
        r matches Some(v) ==> v as int == dec_value(part@),
{
    if part.len() == 0 || part.len() > 3 {
        return None;
    }
    if part.len() > 1 && part[0] == 48 {
        return None;
    }
    let mut val: u32 = 0;
    let mut i: usize = 0;
    while i < part.len()
        invariant
            0 <= i <= part@.len() <= 3,
            forall|j: int| 0 <= j < i ==> is_digit(part@[j]),
            val as int == dec_value(part@.take(i as int)),
        decreases part@.len() - i,
    {
        let c = part[i];
        if c < 48 || c > 57 {
            return None;
        }
        proof {
            assert forall|j: int| 0 <= j < i implies is_digit(part@.take(i as int)[j]) by {
                assert(part@.take(i as int)[j] == part@[j]);
            }
            lemma_dec_value_bound(part@.take(i as int));
            assert(pow10(0) == 1);
            assert(pow10(1) == 10);
            assert(pow10(2) == 100);
            assert(part@.take(i + 1).drop_last() =~= part@.take(i as int));
            assert(part@.take(i + 1).last() == part@[i as int]);
        }
        val = val * 10 + ((c - 48) as u32);
        i += 1;
    }
    proof {
        assert(part@.take(part@.len() as int) =~= part@);
    }
    if val > 255 {
        return None;
    }
    Some(val as u8)
}

/// Parses an IPv4 literal into its four address bytes.
pub fn parse_ipv4(s: &Vec<u8>) -> (r: Option<Vec<u8>>)
    ensures
        r is Some <==> spec_parse_ipv4(s@) is Some,
        r matches Some(v) ==> Some(v@) == spec_parse_ipv4(s@),
{
    let parts = split_bytes(s, 46);
    proof {
        assert(seq_views(parts@).len() == parts@.len());
    }
    if parts.len() != 4 {
        return None;
    }
    proof {
        assert forall|k: int| 0 <= k < 4 implies seq_views(parts@)[k] == parts@[k]@ by {}
    }
    let a = match parse_dec_octet(&parts[0]) {
        Some(v) => v,
        None => {
            return None;
        },
    };
    let b = match parse_dec_octet(&parts[1]) {
        Some(v) => v,
        None => {
            return None;
        },
    };
    let c = match parse_dec_octet(&parts[2]) {
        Some(v) => v,
        None => {
            return None;
        },
    };
    let d = match parse_dec_octet(&parts[3]) {
        Some(v) => v,
        None => {
            return None;
        },
    };
    let mut out: Vec<u8> = Vec::new();
    out.push(a);
    out.push(b);
    out.push(c);
    out.push(d);
    proof {
        assert(out@ =~= spec_parse_ipv4(s@).unwrap());
    }
    Some(out)
}

/// Parses one IPv6 group.
pub fn parse_h16(part: &Vec<u8>) -> (r: Option<u16>)
    ensures
        r is Some <==> is_h16(part@),
        r matches Some(v) ==> v as int == hex_value(part@),
{
    if part.len() == 0 || part.len() > 4 {
        return None;
    }
    let mut val: u32 = 0;
    let mut i: usize = 0;
    while i < part.len()
        invariant
            0 <= i <= part@.len() <= 4,
            forall|j: int| 0 <= j < i ==> is_hex_digit(part@[j]),
            val as int == hex_value(part@.take(i as int)),
        decreases part@.len() - i,
    {
        let c = part[i];
        let dv = match hex_digit_value(c) {
            Some(v) => v,
            None => {
                return None;
            },
        };
        proof {
            assert forall|j: int| 0 <= j < i implies is_hex_digit(part@.take(i as int)[j]) by {
                assert(part@.take(i as int)[j] == part@[j]);
            }
            lemma_hex_value_bound(part@.take(i as int));
            assert(pow16(0) == 1);
            assert(pow16(1) == 16);
            assert(pow16(2) == 256);
            assert(pow16(3) == 4096);
            assert(part@.take(i + 1).drop_last() =~= part@.take(i as int));
            assert(part@.take(i + 1).last() == part@[i as int]);
        }
        val = val * 16 + (dv as u32);
        i += 1;
    }
    proof {
        assert(part@.take(part@.len() as int) =~= part@);
        lemma_hex_value_bound(part@);
        assert(pow16(0) == 1);
        assert(pow16(1) == 16);
        assert(pow16(2) == 256);
        assert(pow16(3) == 4096);
        assert(pow16(4) == 65536);
        assert(part@.len() == 1 || part@.len() == 2 || part@.len() == 3 || part@.len() == 4);
    }
    Some(val as u16)
}

/// Parses the first `end` parts as hex groups and yields their bytes.
fn parse_h16_run(parts: &Vec<Vec<u8>>, end: usize) -> (r: Option<Vec<u8>>)
    requires
        end <= parts@.len(),
    ensures
        r is Some <==> all_h16(seq_views(parts@).take(end as int)),
        r matches Some(b) ==> b@ == groups_bytes(seq_views(parts@).take(end as int)),
{
    let ghost vs = seq_views(parts@);
    let mut out: Vec<u8> = Vec::new();
    let mut k: usize = 0;
    while k < end
        invariant
            0 <= k <= end <= parts@.len(),
            vs == seq_views(parts@),
            forall|j: int| 0 <= j < k ==> is_h16(vs[j]),
            out@ == groups_bytes(vs.take(k as int)),
        decreases end - k,
    {
        match parse_h16(&parts[k]) {
            None => {
                proof {
                    assert(vs.take(end as int)[k as int] == vs[k as int]);
                    assert(vs[k as int] == parts@[k as int]@);
                }
                return None;
            },
            Some(v) => {
                proof {
                    assert(vs[k as int] == parts@[k as int]@);
                }
                out.push((v / 256) as u8);
                out.push((v % 256) as u8);
                proof {
                    assert(vs.take(k + 1).drop_last() =~= vs.take(k as int));
                    assert(vs.take(k + 1).last() == vs[k as int]);
                    assert(out@ =~= groups_bytes(vs.take(k + 1)));
                }
            },
        }
        k += 1;
    }
    proof {
        assert forall|j: int| 0 <= j < end implies is_h16(vs.take(end as int)[j]) by {
            assert(vs.take(end as int)[j] == vs[j]);
        }
    }
    Some(out)
}

/// Parses a run of groups that may end in an embedded IPv4 literal.
fn parse_tail(parts: &Vec<Vec<u8>>) -> (r: Option<Vec<u8>>)
    ensures
        r is Some <==> tail_ok(seq_views(parts@)),
        r matches Some(b) ==> b@ == tail_bytes(seq_views(parts@)),
{
    let ghost vs = seq_views(parts@);
    let n = parts.len();
    if n == 0 {
        proof {
            assert(tail_ok(vs));
            assert(tail_bytes(vs) =~= Seq::<u8>::empty());
        }
        return Some(Vec::new());
    }
    let mut bytes = match parse_h16_run(parts, n - 1) {
        Some(b) => b,
        None => {
            proof {
                assert(vs.take(n - 1) =~= vs.drop_last());
                assert(!all_h16(vs.drop_last()));
                assert forall|j: int| 0 <= j < n - 1 implies vs[j] == vs.drop_last()[j] by {}
                assert(!all_h16(vs));
            }
            return None;
        },
    };
    proof {
        assert(vs.take(n - 1) =~= vs.drop_last());
        assert(vs[n - 1] == parts@[n - 1]@);
        assert(vs.last() == vs[n - 1]);
    }
    match parse_h16(&parts[n - 1]) {
        Some(v) => {
            bytes.push((v / 256) as u8);
            bytes.push((v % 256) as u8);
            proof {
                lemma_h16_not_ipv4(vs.last());
                assert forall|j: int| 0 <= j < n implies is_h16(vs[j]) by {
                    if j < n - 1 {
                        assert(vs.drop_last()[j] == vs[j]);
                    }
                }
                assert(bytes@ =~= groups_bytes(vs));
            }
            Some(bytes)
        },
        None => {
            match parse_ipv4(&parts[n - 1]) {
                Some(v4) => {
                    push_all(&mut bytes, &v4);
                    proof {
                        assert(tail_ok(vs));
                        assert(bytes@ =~= tail_bytes(vs));
                    }
                    Some(bytes)
                },
                None => {
                    proof {
                        assert(!is_h16(vs.last()));
                        assert(!all_h16(vs));
                        assert(!tail_ok(vs));
                    }
                    None
                },
            }
        },
    }
}

/// Finds the first `::` in `s`.
fn find_double_colon(s: &Vec<u8>) -> (r: Option<usize>)
    ensures
        r matches Some(k) ==> k as int == find_dc(s@),
        r is None ==> find_dc(s@) == -1,
{
    proof {
        lemma_find_dc(s@);
    }
    if s.len() < 2 {
        return None;
    }
    let mut i: usize = 0;
    while i < s.len() - 1
        invariant
            0 <= i <= s@.len() - 1,
            s@.len() >= 2,
            forall|j: int| 0 <= j < i ==> !(#[trigger] s@[j] == 58 && s@[j + 1] == 58),
        decreases s@.len() - i,
    {
        if s[i] == 58 && s[i + 1] == 58 {
            proof {
                lemma_find_dc(s@);
            }
            return Some(i);
        }
        i += 1;
    }
    proof {
        lemma_find_dc(s@);
    }
    None
}

pub proof fn lemma_find_dc(s: Seq<u8>)
    ensures
        find_dc(s) >= -1,
        find_dc(s) >= 0 ==> find_dc(s) <= s.len() - 2,
        find_dc(s) >= 0 ==> s[find_dc(s)] == 58 && s[find_dc(s) + 1] == 58,
        forall|j: int| 0 <= j < find_dc(s) ==> !(#[trigger] s[j] == 58 && s[j + 1] == 58),
        find_dc(s) == -1 ==> forall|j: int|
            0 <= j < s.len() - 1 ==> !(#[trigger] s[j] == 58 && s[j + 1] == 58),
    decreases s.len(),
{
    if s.len() < 2 {
    } else if s[0] == 58 && s[1] == 58 {
    } else {
        lemma_find_dc(s.skip(1));
        assert forall|j: int| 1 <= j < s.len() implies s[j] == s.skip(1)[j - 1] by {}
    }
}

/// Parses an IPv6 literal into its sixteen address bytes.
pub fn parse_ipv6(s: &Vec<u8>) -> (r: Option<Vec<u8>>)
    ensures
        r is Some <==> spec_parse_ipv6(s@) is Some,
        r matches Some(v) ==> Some(v@) == spec_parse_ipv6(s@),
{
    match find_double_colon(s) {
        None => {
            let parts = split_bytes(s, 58);
            let ghost vs = seq_views(parts@);
            match parse_tail(&parts) {
                None => None,
                Some(bytes) => {
                    proof {
                        lemma_tail_bytes_len(vs);
                    }
                    if bytes.len() == 16 {
                        Some(bytes)
                    } else {
                        None
                    }
                },
            }
        },
        Some(d) => {
            let n = s.len();
            proof {
                lemma_find_dc(s@);
                assert(d as int + 2 <= n);
            }
            let left = prefix_bytes(s, d);
            let right = suffix_bytes(s, d + 2);
            let lparts = if left.len() == 0 {
                Vec::new()
            } else {
                split_bytes(&left, 58)
            };
            let ghost lvs = side_parts(s@.take(d as int));
            proof {
                assert(seq_views(lparts@) == lvs);
            }
            let lbytes = match parse_h16_run(&lparts, lparts.len()) {
                Some(b) => b,
                None => {
                    proof {
                        assert(lvs.take(lparts@.len() as int) =~= lvs);
                    }
                    return None;
                },
            };
            proof {
                assert(lvs.take(lparts@.len() as int) =~= lvs);
                lemma_groups_bytes_len(lvs);
            }
            let rparts = if right.len() == 0 {
                Vec::new()
            } else {
                split_bytes(&right, 58)
            };
            let ghost rvs = side_parts(s@.skip(d + 2));
            proof {
                assert(seq_views(rparts@) == rvs);
            }
            let tbytes = match parse_tail(&rparts) {
                Some(b) => b,
                None => {
                    return None;
                },
            };
            proof {
                lemma_tail_bytes_len(rvs);
            }
            if lbytes.len() >= 16 || tbytes.len() >= 16 {
                return None;
            }
            if lbytes.len() + tbytes.len() >= 16 {
                return None;
            }
            let zeros: usize = 16 - lbytes.len() - tbytes.len();
            let mut out = lbytes;
            let mut z: usize = 0;
            let ghost base = out@;
            while z < zeros
        invariant
            0 <= z <= zeros,
            out@ == base + zero_bytes(z as int),
        decreases zeros - z,
            {
                out.push(0);
                proof {
                    assert(base + zero_bytes(z + 1) =~= (base + zero_bytes(z as int)).push(0u8));
                }
                z += 1;
            }
            push_all(&mut out, &tbytes);
            proof {
                assert(out@ =~= spec_parse_ipv6(s@).unwrap());
            }
            Some(out)
        },
    }
}

/// Parses an address token, trying IPv4 first, then IPv6.
pub fn parse_addr(s: &Vec<u8>) -> (r: Option<HostAddress>)
    ensures
        r is Some <==> spec_parse_addr(s@) is Some,
        r matches Some(a) ==> a.wf() && Some((a.is_v6(), a.addr_bytes())) == spec_parse_addr(s@),
{
    match parse_ipv4(s) {
        Some(b) => Some(HostAddress::Ipv4(b)),
        None => {
            match parse_ipv6(s) {
                Some(b) => {
                    proof {
                        lemma_ipv6_len(s@);
                    }
                    Some(HostAddress::Ipv6(b))
                },
                None => None,
            }
        },
    }
}

/// A parsed IPv6 literal always denotes exactly sixteen bytes.
pub proof fn lemma_ipv6_len(s: Seq<u8>)
    requires
        spec_parse_ipv6(s) is Some,
    ensures
        spec_parse_ipv6(s).unwrap().len() == 16,
{
    let d = find_dc(s);
    if d < 0 {
        lemma_tail_bytes_len(split_on(s, 58));
    } else {
        let lparts = side_parts(s.take(d));
        let rparts = side_parts(s.skip(d + 2));
        lemma_groups_bytes_len(lparts);
        lemma_tail_bytes_len(rparts);
    }
}

} // verus!
