//! The hostname lookup table and its loader.
//!
//! A `HostsMap` keeps, per address family, an ordered list of
//! (hostname, addresses) entries with pairwise distinct hostnames.
//! The loader folds text sources into it line by line: the first
//! whitespace token of a line must be an address literal, every further
//! token is a hostname mapped to that address, and lines that do not fit
//! the grammar contribute nothing.

use vstd::prelude::*;
use crate::addr::{spec_parse_addr, parse_addr, HostAddress};
use crate::text::{
    split_on, tokens_of, find_first, seq_views, split_bytes, split_tokens, bytes_eq, copy_bytes,
    prefix_bytes,
};

verus! {

/// One family bucket: hostname, then that hostname's addresses in
/// insertion order.
pub type EntrySeq = Seq<(Seq<u8>, Seq<Seq<u8>>)>;

/// The whole table: the IPv4 bucket, then the IPv6 bucket.
pub type TablePair = (EntrySeq, EntrySeq);

/// Index of `key` among the entry hostnames, or -1 when absent.
pub open spec fn key_index(entries: EntrySeq, key: Seq<u8>) -> int
    decreases entries.len(),
{
    if entries.len() == 0 {
        -1
    } else if entries[0].0 == key {
        0
    } else {
        let r = key_index(entries.skip(1), key);
        if r < 0 {
            -1
        } else {
            r + 1
        }
    }
}

/// The address list recorded for `key`, when there is one.
pub open spec fn table_get(entries: EntrySeq, key: Seq<u8>) -> Option<Seq<Seq<u8>>> {
    let i = key_index(entries, key);
    if i < 0 {
        None
    } else {
        Some(entries[i].1)
    }
}

/// The address list recorded for `key`, or the empty list.
pub open spec fn table_get_or_empty(entries: EntrySeq, key: Seq<u8>) -> Seq<Seq<u8>> {
    match table_get(entries, key) {
        Some(l) => l,
        None => Seq::empty(),
    }
}

/// Appends `addr` to the entry of `key`, creating the entry at the end
/// when `key` is new.
pub open spec fn bucket_add(entries: EntrySeq, key: Seq<u8>, addr: Seq<u8>) -> EntrySeq {
    let i = key_index(entries, key);
    if i < 0 {
        entries.push((key, seq![addr]))
    } else {
        entries.update(i, (entries[i].0, entries[i].1.push(addr)))
    }
}

pub proof fn lemma_key_index(entries: EntrySeq, key: Seq<u8>)
    ensures
        -1 <= key_index(entries, key) < entries.len(),
        key_index(entries, key) >= 0 ==> entries[key_index(entries, key)].0 == key,
        forall|j: int| 0 <= j < key_index(entries, key) ==> (#[trigger] entries[j]).0 != key,
        key_index(entries, key) == -1 ==> forall|j: int|
            0 <= j < entries.len() ==> (#[trigger] entries[j]).0 != key,
    decreases entries.len(),
{
    if entries.len() == 0 {
    } else if entries[0].0 == key {
    } else {
        lemma_key_index(entries.skip(1), key);
        assert forall|j: int| 1 <= j < entries.len() implies entries[j] == entries.skip(1)[j
            - 1] by {}
    }
}

/// Every address stored in the bucket has the family's byte width.
pub open spec fn entries_wf(entries: EntrySeq, width: int) -> bool {
    forall|i: int, j: int|
        0 <= i < entries.len() && 0 <= j < entries[i].1.len() ==> (#[trigger] entries[i].1[j]).len()
            == width
}

pub proof fn lemma_bucket_add_wf(entries: EntrySeq, key: Seq<u8>, addr: Seq<u8>, width: int)
    requires
        entries_wf(entries, width),
        addr.len() == width,
    ensures
        entries_wf(bucket_add(entries, key, addr), width),
{
    lemma_key_index(entries, key);
}

/// What `bucket_add` does to lookups: the added key's list grows by the
/// one address at the end, every other key's list is untouched.
pub proof fn lemma_bucket_add_get(entries: EntrySeq, key: Seq<u8>, addr: Seq<u8>, other: Seq<u8>)
    ensures
        table_get(bucket_add(entries, key, addr), key) == Some(
            table_get_or_empty(entries, key).push(addr),
        ),
        other != key ==> table_get(bucket_add(entries, key, addr), other) == table_get(
            entries,
            other,
        ),
{
    let added = bucket_add(entries, key, addr);
    let i = key_index(entries, key);
    lemma_key_index(entries, key);
    lemma_key_index(added, key);
    lemma_key_index(added, other);
    if i < 0 {
        assert(added[entries.len() as int].0 == key);
        assert(key_index(added, key) == entries.len());
        assert(table_get_or_empty(entries, key).push(addr) =~= seq![addr]);
        if other != key {
            let r = key_index(added, other);
            if r >= 0 {
                assert(r < entries.len());
                assert(added[r] == entries[r]);
                assert(key_index(entries, other) == r) by {
                    lemma_key_index(entries, other);
                    assert forall|j: int| 0 <= j < r implies (#[trigger] entries[j]).0 != other by {
                        assert(added[j] == entries[j]);
                    }
                }
            } else {
                lemma_key_index(entries, other);
                if key_index(entries, other) >= 0 {
                    assert(added[key_index(entries, other)] == entries[key_index(entries, other)]);
                }
            }
        }
    } else {
        assert(added[i].0 == key);
        assert(key_index(added, key) == i);
        if other != key {
            let r = key_index(added, other);
            lemma_key_index(entries, other);
            if r >= 0 {
                assert(added[r].0 == other);
                assert(r != i);
                assert(added[r] == entries[r]);
                assert(key_index(entries, other) == r) by {
                    assert forall|j: int| 0 <= j < r implies (#[trigger] entries[j]).0 != other by {
                        if j == i {
                            assert(added[j].0 == key);
                        } else {
                            assert(added[j] == entries[j]);
                        }
                    }
                }
            } else {
                if key_index(entries, other) >= 0 {
                    let q = key_index(entries, other);
                    if q == i {
                        assert(entries[q].0 == key);
                    } else {
                        assert(added[q] == entries[q]);
                    }
                }
            }
        }
    }
}

/// Adds one (hostname, address) pair to the family-appropriate bucket.
pub open spec fn table_add(t: TablePair, v6: bool, addr: Seq<u8>, host: Seq<u8>) -> TablePair {
    if v6 {
        (t.0, bucket_add(t.1, host, addr))
    } else {
        (bucket_add(t.0, host, addr), t.1)
    }
}

/// Folds one address over a hostname list, in list order.
pub open spec fn add_hosts(t: TablePair, v6: bool, addr: Seq<u8>, hosts: Seq<Seq<u8>>) -> TablePair
    decreases hosts.len(),
{
    if hosts.len() == 0 {
        t
    } else {
        table_add(add_hosts(t, v6, addr, hosts.drop_last()), v6, addr, hosts.last())
    }
}

/// What one line contributes: nothing when it has no tokens or its first
/// token is no address literal; otherwise each remaining token becomes a
/// hostname of the parsed address.
pub open spec fn spec_add_line(t: TablePair, line: Seq<u8>) -> TablePair {
    let ts = tokens_of(line);
    if ts.len() == 0 {
        t
    } else {
        match spec_parse_addr(ts[0]) {
            None => t,
            Some(a) => add_hosts(t, a.0, a.1, ts.skip(1)),
        }
    }
}

/// A file line with everything from the first `#` on removed.
pub open spec fn strip_comment(line: Seq<u8>) -> Seq<u8> {
    let i = find_first(line, 35);
    if i < 0 {
        line
    } else {
        line.take(i)
    }
}

/// What one physical file line contributes.
pub open spec fn file_line_add(t: TablePair, line: Seq<u8>) -> TablePair {
    spec_add_line(t, strip_comment(line))
}

/// Folds the `;`-separated segments of an inline source, in order.
pub open spec fn add_segments(t: TablePair, segs: Seq<Seq<u8>>) -> TablePair
    decreases segs.len(),
{
    if segs.len() == 0 {
        t
    } else {
        spec_add_line(add_segments(t, segs.drop_last()), segs.last())
    }
}

/// Folds the newline-separated lines of a file source, in order, with
/// comment stripping.
pub open spec fn add_file_lines(t: TablePair, ls: Seq<Seq<u8>>) -> TablePair
    decreases ls.len(),
{
    if ls.len() == 0 {
        t
    } else {
        file_line_add(add_file_lines(t, ls.drop_last()), ls.last())
    }
}

/// How many times `h` occurs in `hosts`.
pub open spec fn occurrences(hosts: Seq<Seq<u8>>, h: Seq<u8>) -> nat
    decreases hosts.len(),
{
    if hosts.len() == 0 {
        0
    } else {
        occurrences(hosts.drop_last(), h) + (if hosts.last() == h {
            1nat
        } else {
            0nat
        })
    }
}

/// The same address, `n` times over.
pub open spec fn repeat_addr(addr: Seq<u8>, n: nat) -> Seq<Seq<u8>> {
    Seq::new(n, |i: int| addr)
}

/// Folding one address over a hostname list appends that address to each
/// listed hostname's entry, once per occurrence and at the end, touches
/// no other hostname, and leaves the other family bucket alone.
pub proof fn lemma_add_hosts_get(
    t: TablePair,
    v6: bool,
    addr: Seq<u8>,
    hosts: Seq<Seq<u8>>,
    h: Seq<u8>,
)
    ensures
        ({
            let t1 = add_hosts(t, v6, addr, hosts);
            let b0 = if v6 {
                t.1
            } else {
                t.0
            };
            let b1 = if v6 {
                t1.1
            } else {
                t1.0
            };
            let occ = occurrences(hosts, h);
            &&& (if v6 {
                t1.0 == t.0
            } else {
                t1.1 == t.1
            })
            &&& (occ == 0 ==> table_get(b1, h) == table_get(b0, h))
            &&& (occ > 0 ==> table_get(b1, h) == Some(
                table_get_or_empty(b0, h) + repeat_addr(addr, occ),
            ))
        }),
    decreases hosts.len(),
{
    if hosts.len() == 0 {
    } else {
        lemma_add_hosts_get(t, v6, addr, hosts.drop_last(), h);
        let tp = add_hosts(t, v6, addr, hosts.drop_last());
        let bp = if v6 {
            tp.1
        } else {
            tp.0
        };
        let b0 = if v6 {
            t.1
        } else {
            t.0
        };
        lemma_bucket_add_get(bp, hosts.last(), addr, h);
        let occ_pre = occurrences(hosts.drop_last(), h);
        if hosts.last() == h {
            if occ_pre == 0 {
                assert(table_get_or_empty(bp, h) == table_get_or_empty(b0, h));
                assert(table_get_or_empty(b0, h).push(addr) =~= table_get_or_empty(b0, h)
                    + repeat_addr(addr, 1));
            } else {
                assert(table_get_or_empty(bp, h) == table_get_or_empty(b0, h) + repeat_addr(
                    addr,
                    occ_pre,
                ));
                assert((table_get_or_empty(b0, h) + repeat_addr(addr, occ_pre)).push(addr)
                    =~= table_get_or_empty(b0, h) + repeat_addr(addr, occ_pre + 1));
            }
        }
    }
}

/// A line with an address literal and hostnames after it maps each
/// listed hostname to that address in its family bucket, appended after
/// whatever the hostname already had, in the order declared.
pub proof fn lemma_line_maps_hostnames(t: TablePair, line: Seq<u8>, h: Seq<u8>)
    requires
        tokens_of(line).len() > 0,
        spec_parse_addr(tokens_of(line)[0]) is Some,
    ensures
        ({
            let a = spec_parse_addr(tokens_of(line)[0]).unwrap();
            let t1 = spec_add_line(t, line);
            let b0 = if a.0 {
                t.1
            } else {
                t.0
            };
            let b1 = if a.0 {
                t1.1
            } else {
                t1.0
            };
            let occ = occurrences(tokens_of(line).skip(1), h);
            &&& (occ > 0 ==> table_get(b1, h) == Some(
                table_get_or_empty(b0, h) + repeat_addr(a.1, occ),
            ))
            &&& (occ == 0 ==> table_get(b1, h) == table_get(b0, h))
            &&& (if a.0 {
                t1.0 == t.0
            } else {
                t1.1 == t.1
            })
        }),
{
    let a = spec_parse_addr(tokens_of(line)[0]).unwrap();
    lemma_add_hosts_get(t, a.0, a.1, tokens_of(line).skip(1), h);
}

/// A line with no tokens, or whose first token is not a valid IPv4 or
/// IPv6 literal, contributes nothing to the table.
pub proof fn lemma_malformed_line_ignored(t: TablePair, line: Seq<u8>)
    requires
        tokens_of(line).len() == 0 || spec_parse_addr(tokens_of(line)[0]) is None,
    ensures
        spec_add_line(t, line) == t,
{
}

/// A line holding an address and no hostnames contributes nothing.
pub proof fn lemma_hostless_line_ignored(t: TablePair, line: Seq<u8>)
    requires
        tokens_of(line).len() == 1,
    ensures
        spec_add_line(t, line) == t,
{
    assert(tokens_of(line).skip(1).len() == 0);
}

/// On file lines everything from the first `#` on is excluded from
/// parsing: the line contributes exactly what its prefix before the `#`
/// contributes, whatever follows the `#`.
pub proof fn lemma_comment_excluded(t: TablePair, line: Seq<u8>)
    ensures
        file_line_add(t, line) == spec_add_line(t, strip_comment(line)),
        find_first(line, 35) >= 0 ==> strip_comment(line) == line.take(find_first(line, 35)),
        find_first(line, 35) < 0 ==> strip_comment(line) == line,
{
}

pub open spec fn opt_view(o: Option<&Vec<u8>>) -> Option<Seq<u8>> {
    match o {
        Some(v) => Some(v@),
        None => None,
    }
}

/// The table the two optional sources denote: first the inline source in
/// segment order, then the file source in line order.
pub open spec fn spec_table(inline: Option<Seq<u8>>, file: Option<Seq<u8>>) -> TablePair {
    let t0 = (Seq::<(Seq<u8>, Seq<Seq<u8>>)>::empty(), Seq::<(Seq<u8>, Seq<Seq<u8>>)>::empty());
    let t1 = match inline {
        Some(s) => add_segments(t0, split_on(s, 59)),
        None => t0,
    };
    match file {
        Some(s) => add_file_lines(t1, split_on(s, 10)),
        None => t1,
    }
}

/// The abstract contents of one family bucket.
pub open spec fn entries_view(v: Seq<(Vec<u8>, Vec<Vec<u8>>)>) -> EntrySeq {
    v.map_values(|e: (Vec<u8>, Vec<Vec<u8>>)| (e.0@, seq_views(e.1@)))
}

/// The per-family hostname-to-addresses table.
pub struct HostsMap {
    pub ipv4: Vec<(Vec<u8>, Vec<Vec<u8>>)>,
    pub ipv6: Vec<(Vec<u8>, Vec<Vec<u8>>)>,
}

impl HostsMap {
    pub open spec fn view(&self) -> TablePair {
        (entries_view(self.ipv4@), entries_view(self.ipv6@))
    }

    pub open spec fn wf(&self) -> bool {
        entries_wf(entries_view(self.ipv4@), 4) && entries_wf(entries_view(self.ipv6@), 16)
    }

    /// The empty table.
    pub fn new() -> (m: Self)
        ensures
            m.wf(),
            m.view().0 =~= Seq::<(Seq<u8>, Seq<Seq<u8>>)>::empty(),
            m.view().1 =~= Seq::<(Seq<u8>, Seq<Seq<u8>>)>::empty(),
    {
        let m = Self { ipv4: Vec::new(), ipv6: Vec::new() };
        proof {
            assert(entries_view(m.ipv4@) =~= Seq::<(Seq<u8>, Seq<Seq<u8>>)>::empty());
            assert(entries_view(m.ipv6@) =~= Seq::<(Seq<u8>, Seq<Seq<u8>>)>::empty());
        }
        m
    }

    /// Records one (hostname, address) pair in the family bucket the
    /// address belongs to.
    pub fn add(&mut self, hostname: Vec<u8>, address: HostAddress)
        requires
            old(self).wf(),
            address.wf(),
        ensures
            final(self).wf(),
            final(self).view() == table_add(
                old(self).view(),
                address.is_v6(),
                address.addr_bytes(),
                hostname@,
            ),
    {
        match address {
            HostAddress::Ipv4(bytes) => {
                proof {
                    lemma_bucket_add_wf(entries_view(self.ipv4@), hostname@, bytes@, 4);
                }
                entries_add(&mut self.ipv4, hostname, bytes);
            },
            HostAddress::Ipv6(bytes) => {
                proof {
                    lemma_bucket_add_wf(entries_view(self.ipv6@), hostname@, bytes@, 16);
                }
                entries_add(&mut self.ipv6, hostname, bytes);
            },
        }
    }

    /// Looks the hostname up in the bucket of the requested family.
    pub fn lookup(&self, v6: bool, name: &Vec<u8>) -> (r: Option<&Vec<Vec<u8>>>)
        ensures
            ({
                let bucket = if v6 {
                    self.view().1
                } else {
                    self.view().0
                };
                &&& (r is Some <==> table_get(bucket, name@) is Some)
                &&& (r matches Some(v) ==> Some(seq_views(v@)) == table_get(bucket, name@))
            }),
    {
        if v6 {
            entries_find(&self.ipv6, name)
        } else {
            entries_find(&self.ipv4, name)
        }
    }
}

/// Appends `abytes` to the entry of `hostname`, as `bucket_add` describes.
fn entries_add(list: &mut Vec<(Vec<u8>, Vec<Vec<u8>>)>, hostname: Vec<u8>, abytes: Vec<u8>)
    ensures
        entries_view(final(list)@) == bucket_add(entries_view(old(list)@), hostname@, abytes@),
{
    let ghost ev = entries_view(old(list)@);
    proof {
        lemma_key_index(ev, hostname@);
    }
    let mut i: usize = 0;
    while i < list.len()
        invariant
            0 <= i <= list@.len(),
            list@ == old(list)@,
            ev == entries_view(list@),
            forall|j: int| 0 <= j < i ==> (#[trigger] ev[j]).0 != hostname@,
        decreases list@.len() - i,
    {
        let hit = {
            let entry = &list[i];
            bytes_eq(&entry.0, &hostname)
        };
        if hit {
            proof {
                lemma_key_index(ev, hostname@);
                assert(ev[i as int].0 == list@[i as int].0@);
                assert(key_index(ev, hostname@) == i as int);
            }
            let ghost ab = abytes@;
            let mut entry = list.remove(i);
            entry.1.push(abytes);
            let ghost e1 = entry;
            list.insert(i, entry);
            proof {
                assert(list@ =~= old(list)@.update(i as int, e1));
                let post = entries_view(list@);
                let target = bucket_add(ev, hostname@, ab);
                assert(e1.0@ == ev[i as int].0);
                assert(e1.1@ =~= old(list)@[i as int].1@.push(e1.1@.last()));
                assert(seq_views(e1.1@) =~= ev[i as int].1.push(ab));
                assert forall|j: int| 0 <= j < post.len() implies post[j] == target[j] by {
                    if j != i {
                        assert(list@[j] == old(list)@[j]);
                    }
                }
                assert(post =~= target);
            }
            return ;
        }
        i += 1;
    }
    proof {
        lemma_key_index(ev, hostname@);
        assert(key_index(ev, hostname@) == -1);
    }
    let mut addrs: Vec<Vec<u8>> = Vec::new();
    addrs.push(abytes);
    list.push((hostname, addrs));
    proof {
        assert(seq_views(addrs@) =~= seq![abytes@]);
        assert(entries_view(list@) =~= bucket_add(ev, hostname@, abytes@));
    }
}

/// Finds the entry of `name`, as `table_get` describes.
fn entries_find<'a>(list: &'a Vec<(Vec<u8>, Vec<Vec<u8>>)>, name: &Vec<u8>) -> (r: Option<
    &'a Vec<Vec<u8>>,
>)
    ensures
        r is Some <==> table_get(entries_view(list@), name@) is Some,
        r matches Some(v) ==> Some(seq_views(v@)) == table_get(entries_view(list@), name@),
{
    let ghost ev = entries_view(list@);
    proof {
        lemma_key_index(ev, name@);
    }
    let mut i: usize = 0;
    while i < list.len()
        invariant
            0 <= i <= list@.len(),
            ev == entries_view(list@),
            forall|j: int| 0 <= j < i ==> (#[trigger] ev[j]).0 != name@,
        decreases list@.len() - i,
    {
        let entry = &list[i];
        if bytes_eq(&entry.0, name) {
            proof {
                lemma_key_index(ev, name@);
                assert(ev[i as int].0 == list@[i as int].0@);
                assert(key_index(ev, name@) == i as int);
            }
            return Some(&entry.1);
        }
        i += 1;
    }
    proof {
        lemma_key_index(ev, name@);
        assert(key_index(ev, name@) == -1);
    }
    None
}

/// Parses one record line: an address token followed by hostname tokens.
pub fn parse_hosts_line(hosts_map: &mut HostsMap, line: &Vec<u8>)
    requires
        old(hosts_map).wf(),
    ensures
        final(hosts_map).wf(),
        final(hosts_map).view() == spec_add_line(old(hosts_map).view(), line@),
{
    let ts = split_tokens(line);
    let ghost tv = tokens_of(line@);
    if ts.len() == 0 {
        return ;
    }
    proof {
        assert(tv[0] == ts@[0]@);
    }
    let address = match parse_addr(&ts[0]) {
        None => {
            return ;
        },
        Some(a) => a,
    };
    let ghost v6 = address.is_v6();
    let ghost abytes = address.addr_bytes();
    let ghost t0 = old(hosts_map).view();
    let ghost hosts = tv.skip(1);
    let mut i: usize = 1;
    proof {
        assert(hosts.take(0) =~= Seq::<Seq<u8>>::empty());
    }
    while i < ts.len()
        invariant
            1 <= i <= ts@.len(),
            seq_views(ts@) == tv,
            hosts == tv.skip(1),
            hosts_map.wf(),
            address.wf(),
            v6 == address.is_v6(),
            abytes == address.addr_bytes(),
            hosts_map.view() == add_hosts(t0, v6, abytes, hosts.take(i - 1)),
        decreases ts@.len() - i,
    {
        let hostname = copy_bytes(&ts[i]);
        let addr_copy = duplicate_address(&address);
        hosts_map.add(hostname, addr_copy);
        proof {
            assert(hosts.take(i as int).drop_last() =~= hosts.take(i - 1));
            assert(hosts.take(i as int).last() == tv[i as int]);
            assert(tv[i as int] == ts@[i as int]@);
        }
        i += 1;
    }
    proof {
        assert(hosts.take(ts@.len() - 1) =~= hosts);
    }
}

/// Copies a parsed address.
fn duplicate_address(a: &HostAddress) -> (r: HostAddress)
    ensures
        r.is_v6() == a.is_v6(),
        r.addr_bytes() == a.addr_bytes(),
        r.wf() == a.wf(),
{
    match a {
        HostAddress::Ipv4(b) => HostAddress::Ipv4(copy_bytes(b)),
        HostAddress::Ipv6(b) => HostAddress::Ipv6(copy_bytes(b)),
    }
}

/// Parses an inline source: records separated by `;`.
pub fn parse_hosts_string(hosts_map: &mut HostsMap, contents: &Vec<u8>)
    requires
        old(hosts_map).wf(),
    ensures
        final(hosts_map).wf(),
        final(hosts_map).view() == add_segments(old(hosts_map).view(), split_on(contents@, 59)),
{
    let segs = split_bytes(contents, 59);
    let ghost sv = split_on(contents@, 59);
    let ghost t0 = old(hosts_map).view();
    let mut i: usize = 0;
    proof {
        assert(sv.take(0) =~= Seq::<Seq<u8>>::empty());
    }
    while i < segs.len()
        invariant
            0 <= i <= segs@.len(),
            seq_views(segs@) == sv,
            hosts_map.wf(),
            hosts_map.view() == add_segments(t0, sv.take(i as int)),
        decreases segs@.len() - i,
    {
        parse_hosts_line(hosts_map, &segs[i]);
        proof {
            assert(sv.take(i + 1).drop_last() =~= sv.take(i as int));
            assert(sv.take(i + 1).last() == sv[i as int]);
            assert(sv[i as int] == segs@[i as int]@);
        }
        i += 1;
    }
    proof {
        assert(sv.take(segs@.len() as int) =~= sv);
    }
}

/// Parses a file source: newline-separated lines with `#` comments.
pub fn parse_hosts_file(hosts_map: &mut HostsMap, contents: &Vec<u8>)
    requires
        old(hosts_map).wf(),
    ensures
        final(hosts_map).wf(),
        final(hosts_map).view() == add_file_lines(old(hosts_map).view(), split_on(contents@, 10)),
{
    let ls = split_bytes(contents, 10);
    let ghost lv = split_on(contents@, 10);
    let ghost t0 = old(hosts_map).view();
    let mut i: usize = 0;
    proof {
        assert(lv.take(0) =~= Seq::<Seq<u8>>::empty());
    }
    while i < ls.len()
        invariant
            0 <= i <= ls@.len(),
            seq_views(ls@) == lv,
            hosts_map.wf(),
            hosts_map.view() == add_file_lines(t0, lv.take(i as int)),
        decreases ls@.len() - i,
    {
        let line = &ls[i];
        proof {
            assert(lv[i as int] == ls@[i as int]@);
        }
        match crate::text::find_byte(line, 35) {
            Some(k) => {
                let stripped = prefix_bytes(line, k);
                parse_hosts_line(hosts_map, &stripped);
            },
            None => {
                parse_hosts_line(hosts_map, line);
            },
        }
        proof {
            assert(lv.take(i + 1).drop_last() =~= lv.take(i as int));
            assert(lv.take(i + 1).last() == lv[i as int]);
        }
        i += 1;
    }
    proof {
        assert(lv.take(ls@.len() as int) =~= lv);
    }
}

/// Builds the table from the optional inline source and the optional file
/// contents, inline first. Each call starts from the empty table, so the
/// same sources always yield the same table, entry for entry and in the
/// same per-hostname order.
pub fn load_hosts_map(inline_src: Option<&Vec<u8>>, file_src: Option<&Vec<u8>>) -> (m: HostsMap)
    ensures
        m.wf(),
        m.view() == spec_table(opt_view(inline_src), opt_view(file_src)),
{
    let mut hosts_map = HostsMap::new();
    match inline_src {
        Some(s) => {
            parse_hosts_string(&mut hosts_map, s);
        },
        None => {
        },
    }
    match file_src {
        Some(s) => {
            parse_hosts_file(&mut hosts_map, s);
        },
        None => {
        },
    }
    hosts_map
}

} // verus!
