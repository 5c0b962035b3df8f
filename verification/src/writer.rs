//! The record writer: packs a resolved entry (name, aliases, address
//! list) into one flat byte record laid out the way the caller's fixed
//! result descriptor expects.
//!
//! Pointers are modeled as byte offsets into the record. The layout is:
//! the name with a terminating NUL, each alias with its NUL, the alias
//! pointer array, the raw address bytes, and the address pointer array.
//! Pointer array slots are eight little-endian bytes each and the arrays
//! end with one all-zero slot; the name always sits at offset zero, so a
//! zero slot can never denote a real chunk and serves as the terminator.
//! The record is built privately and handed out only when it fits the
//! caller's buffer length whole, so a failed write exposes nothing.

use vstd::prelude::*;
use crate::text::{seq_views, push_all};

verus! {

/// The caller's fixed result descriptor: name offset, alias array
/// offset, address family tag, address byte width, address array offset.
#[allow(non_camel_case_types)]
#[derive(Clone, Copy, Debug, PartialEq, Eq, Structural)]
pub struct hostent {
    pub h_name: usize,
    pub h_aliases: usize,
    pub h_addrtype: i32,
    pub h_length: i32,
    pub h_addr_list: usize,
}

/// A byte string with its terminating NUL.
pub open spec fn with_nul(s: Seq<u8>) -> Seq<u8> {
    s.push(0)
}

/// NUL-terminated strings, one after the other.
pub open spec fn cat_with_nuls(xs: Seq<Seq<u8>>) -> Seq<u8>
    decreases xs.len(),
{
    if xs.len() == 0 {
        Seq::empty()
    } else {
        cat_with_nuls(xs.drop_last()) + with_nul(xs.last())
    }
}

/// Byte strings, one after the other.
pub open spec fn flat_cat(xs: Seq<Seq<u8>>) -> Seq<u8>
    decreases xs.len(),
{
    if xs.len() == 0 {
        Seq::empty()
    } else {
        flat_cat(xs.drop_last()) + xs.last()
    }
}

/// One pointer slot: eight little-endian bytes.
pub open spec fn le8(v: int) -> Seq<u8> {
    seq![
        (v % 256) as u8,
        ((v / 0x100) % 256) as u8,
        ((v / 0x10000) % 256) as u8,
        ((v / 0x1000000) % 256) as u8,
        ((v / 0x100000000) % 256) as u8,
        ((v / 0x10000000000) % 256) as u8,
        ((v / 0x1000000000000) % 256) as u8,
        ((v / 0x100000000000000) % 256) as u8,
    ]
}

/// Pointer slots, one after the other.
pub open spec fn le8_cat(vals: Seq<int>) -> Seq<u8>
    decreases vals.len(),
{
    if vals.len() == 0 {
        Seq::empty()
    } else {
        le8_cat(vals.drop_last()) + le8(vals.last())
    }
}

/// Offset of alias `i` inside the record.
pub open spec fn alias_off(name: Seq<u8>, aliases: Seq<Seq<u8>>, i: int) -> int {
    name.len() as int + 1 + cat_with_nuls(aliases.take(i)).len() as int
}

/// Offset of the alias pointer array.
pub open spec fn aliases_arr_off(name: Seq<u8>, aliases: Seq<Seq<u8>>) -> int {
    name.len() as int + 1 + cat_with_nuls(aliases).len() as int
}

/// The alias pointer array: one offset per alias, then the zero slot.
pub open spec fn alias_slots(name: Seq<u8>, aliases: Seq<Seq<u8>>) -> Seq<int> {
    Seq::new(aliases.len(), |i: int| alias_off(name, aliases, i)).push(0)
}

/// Offset of the raw bytes of address `j`.
pub open spec fn addr_off(name: Seq<u8>, aliases: Seq<Seq<u8>>, width: int, j: int) -> int {
    aliases_arr_off(name, aliases) + 8 * (aliases.len() as int + 1) + width * j
}

/// Offset of the address pointer array.
pub open spec fn addr_arr_off(name: Seq<u8>, aliases: Seq<Seq<u8>>, width: int, n: int) -> int {
    addr_off(name, aliases, width, n)
}

/// The address pointer array: one offset per address, then the zero slot.
pub open spec fn addr_slots(name: Seq<u8>, aliases: Seq<Seq<u8>>, width: int, n: int) -> Seq<
    int,
> {
    Seq::new(n as nat, |j: int| addr_off(name, aliases, width, j)).push(0)
}

/// How many bytes the whole record needs.
pub open spec fn required_size(name: Seq<u8>, aliases: Seq<Seq<u8>>, width: int, n: int) -> int {
    name.len() as int + 1 + cat_with_nuls(aliases).len() as int + 8 * (aliases.len() as int + 1)
        + width * n + 8 * (n + 1)
}

/// The record, byte for byte.
pub open spec fn record_bytes(
    name: Seq<u8>,
    aliases: Seq<Seq<u8>>,
    addrs: Seq<Seq<u8>>,
    width: int,
) -> Seq<u8> {
    with_nul(name) + cat_with_nuls(aliases) + le8_cat(alias_slots(name, aliases)) + flat_cat(addrs)
        + le8_cat(addr_slots(name, aliases, width, addrs.len() as int))
}

/// The descriptor a successful write exposes.
pub open spec fn spec_hostent(
    name: Seq<u8>,
    aliases: Seq<Seq<u8>>,
    width: int,
    family: i32,
    n: int,
) -> hostent {
    hostent {
        h_name: 0,
        h_aliases: aliases_arr_off(name, aliases) as usize,
        h_addrtype: family,
        h_length: width as i32,
        h_addr_list: addr_arr_off(name, aliases, width, n) as usize,
    }
}

pub proof fn lemma_le8_cat_len(vals: Seq<int>)
    ensures
        le8_cat(vals).len() == 8 * vals.len(),
    decreases vals.len(),
{
    if vals.len() == 0 {
    } else {
        lemma_le8_cat_len(vals.drop_last());
    }
}

pub proof fn lemma_flat_cat_len(xs: Seq<Seq<u8>>, width: int)
    requires
        forall|j: int| 0 <= j < xs.len() ==> (#[trigger] xs[j]).len() == width,
    ensures
        flat_cat(xs).len() == width * xs.len(),
    decreases xs.len(),
{
    if xs.len() == 0 {
    } else {
        assert forall|j: int| 0 <= j < xs.len() - 1 implies (#[trigger] xs.drop_last()[j]).len()
            == width by {
            assert(xs.drop_last()[j] == xs[j]);
        }
        lemma_flat_cat_len(xs.drop_last(), width);
        assert(xs.last().len() == width);
        let n = xs.len() as int;
        assert(width * n == width * (n - 1) + width) by (nonlinear_arith);
    }
}

pub proof fn lemma_cat_with_nuls_piece(xs: Seq<Seq<u8>>, i: int)
    requires
        0 <= i < xs.len(),
    ensures
        cat_with_nuls(xs.take(i)).len() + xs[i].len() + 1 <= cat_with_nuls(xs).len(),
        cat_with_nuls(xs).subrange(
            cat_with_nuls(xs.take(i)).len() as int,
            cat_with_nuls(xs.take(i)).len() + xs[i].len() as int,
        ) == xs[i],
        cat_with_nuls(xs)[cat_with_nuls(xs.take(i)).len() + xs[i].len() as int] == 0,
    decreases xs.len(),
{
    let off = cat_with_nuls(xs.take(i)).len() as int;
    if i == xs.len() - 1 {
        assert(xs.take(i) =~= xs.drop_last());
        assert(cat_with_nuls(xs).subrange(off, off + xs[i].len()) =~= xs[i]);
    } else {
        lemma_cat_with_nuls_piece(xs.drop_last(), i);
        assert(xs.drop_last().take(i) =~= xs.take(i));
        assert(xs.drop_last()[i] == xs[i]);
        assert(cat_with_nuls(xs).subrange(off, off + xs[i].len()) =~= cat_with_nuls(
            xs.drop_last(),
        ).subrange(off, off + xs[i].len()));
    }
}

pub proof fn lemma_flat_cat_piece(xs: Seq<Seq<u8>>, width: int, j: int)
    requires
        width >= 0,
        forall|k: int| 0 <= k < xs.len() ==> (#[trigger] xs[k]).len() == width,
        0 <= j < xs.len(),
    ensures
        width * j + width <= flat_cat(xs).len(),
        flat_cat(xs).subrange(width * j, width * j + width) == xs[j],
    decreases xs.len(),
{
    lemma_flat_cat_len(xs, width);
    if j == xs.len() - 1 {
        assert forall|k: int| 0 <= k < xs.len() - 1 implies (#[trigger] xs.drop_last()[k]).len()
            == width by {
            assert(xs.drop_last()[k] == xs[k]);
        }
        lemma_flat_cat_len(xs.drop_last(), width);
        assert(flat_cat(xs).subrange(width * j, width * j + width) =~= xs[j]);
    } else {
        assert forall|k: int| 0 <= k < xs.len() - 1 implies (#[trigger] xs.drop_last()[k]).len()
            == width by {
            assert(xs.drop_last()[k] == xs[k]);
        }
        lemma_flat_cat_piece(xs.drop_last(), width, j);
        lemma_flat_cat_len(xs.drop_last(), width);
        assert(xs.drop_last()[j] == xs[j]);
        assert(width * j + width <= width * (xs.len() - 1)) by (nonlinear_arith)
            requires
                width >= 0,
                j + 1 <= xs.len() - 1,
        ;
        assert(flat_cat(xs).subrange(width * j, width * j + width) =~= flat_cat(
            xs.drop_last(),
        ).subrange(width * j, width * j + width));
    }
}

pub proof fn lemma_le8_cat_piece(vals: Seq<int>, j: int)
    requires
        0 <= j < vals.len(),
    ensures
        8 * j + 8 <= le8_cat(vals).len(),
        le8_cat(vals).subrange(8 * j, 8 * j + 8) == le8(vals[j]),
    decreases vals.len(),
{
    lemma_le8_cat_len(vals);
    if j == vals.len() - 1 {
        lemma_le8_cat_len(vals.drop_last());
        assert(le8_cat(vals).subrange(8 * j, 8 * j + 8) =~= le8(vals[j]));
    } else {
        lemma_le8_cat_piece(vals.drop_last(), j);
        lemma_le8_cat_len(vals.drop_last());
        assert(vals.drop_last()[j] == vals[j]);
        assert(le8_cat(vals).subrange(8 * j, 8 * j + 8) =~= le8_cat(vals.drop_last()).subrange(
            8 * j,
            8 * j + 8,
        ));
    }
}

/// The text regions of a record: the name and each alias sit at their
/// offsets with their terminating NULs, and each address's raw bytes sit
/// at that address's offset.
proof fn lemma_record_text_regions(
    name: Seq<u8>,
    aliases: Seq<Seq<u8>>,
    addrs: Seq<Seq<u8>>,
    width: int,
)
    requires
        width >= 0,
        forall|j: int| 0 <= j < addrs.len() ==> (#[trigger] addrs[j]).len() == width,
    ensures
        ({
            let bytes = record_bytes(name, aliases, addrs, width);
            let na = aliases.len() as int;
            let n = addrs.len() as int;
            &&& bytes.len() == required_size(name, aliases, width, n)
            &&& bytes.subrange(0, name.len() as int) == name
            &&& bytes[name.len() as int] == 0
            &&& forall|i: int|
                0 <= i < na ==> bytes.subrange(
                    alias_off(name, aliases, i),
                    alias_off(name, aliases, i) + (#[trigger] aliases[i]).len(),
                ) == aliases[i] && bytes[alias_off(name, aliases, i) + aliases[i].len()] == 0
            &&& forall|j: int|
                0 <= j < n ==> bytes.subrange(
                    addr_off(name, aliases, width, j),
                    addr_off(name, aliases, width, j) + width,
                ) == #[trigger] addrs[j]
        }),
{
    let bytes = record_bytes(name, aliases, addrs, width);
    let na = aliases.len() as int;
    let n = addrs.len() as int;
    let arr_a = aliases_arr_off(name, aliases);
    let slots_a = alias_slots(name, aliases);
    lemma_le8_cat_len(slots_a);
    lemma_le8_cat_len(addr_slots(name, aliases, width, n));
    lemma_flat_cat_len(addrs, width);
    assert(bytes.len() == required_size(name, aliases, width, n));
    assert(bytes.subrange(0, name.len() as int) =~= name);
    assert(bytes[name.len() as int] == 0);
    assert forall|i: int|
        0 <= i < na implies bytes.subrange(
        alias_off(name, aliases, i),
        alias_off(name, aliases, i) + (#[trigger] aliases[i]).len(),
    ) == aliases[i] && bytes[alias_off(name, aliases, i) + aliases[i].len()] == 0 by {
        lemma_cat_with_nuls_piece(aliases, i);
        let off = alias_off(name, aliases, i);
        let inner = cat_with_nuls(aliases.take(i)).len() as int;
        assert(bytes.subrange(off, off + aliases[i].len()) =~= cat_with_nuls(aliases).subrange(
            inner,
            inner + aliases[i].len(),
        ));
        assert(bytes[off + aliases[i].len()] == cat_with_nuls(aliases)[inner + aliases[i].len()]);
    }
    let flat_base = arr_a + 8 * (na + 1);
    assert forall|j: int|
        0 <= j < n implies bytes.subrange(
        addr_off(name, aliases, width, j),
        addr_off(name, aliases, width, j) + width,
    ) == #[trigger] addrs[j] by {
        lemma_flat_cat_piece(addrs, width, j);
        assert(addr_off(name, aliases, width, j) == flat_base + width * j);
        assert(bytes.subrange(flat_base + width * j, flat_base + width * j + width) =~= flat_cat(
            addrs,
        ).subrange(width * j, width * j + width));
    }
}

/// The pointer arrays of a record: each slot holds the offset of its
/// chunk and both arrays end with one zero slot.
proof fn lemma_record_pointer_arrays(
    name: Seq<u8>,
    aliases: Seq<Seq<u8>>,
    addrs: Seq<Seq<u8>>,
    width: int,
)
    requires
        width >= 0,
        forall|j: int| 0 <= j < addrs.len() ==> (#[trigger] addrs[j]).len() == width,
    ensures
        ({
            let bytes = record_bytes(name, aliases, addrs, width);
            let na = aliases.len() as int;
            let n = addrs.len() as int;
            let arr_a = aliases_arr_off(name, aliases);
            let arr_d = addr_arr_off(name, aliases, width, n);
            &&& forall|i: int|
                0 <= i < na ==> bytes.subrange(arr_a + 8 * i, arr_a + 8 * i + 8) == le8(
                    #[trigger] alias_off(name, aliases, i),
                )
            &&& bytes.subrange(arr_a + 8 * na, arr_a + 8 * na + 8) == le8(0)
            &&& forall|j: int|
                0 <= j < n ==> bytes.subrange(arr_d + 8 * j, arr_d + 8 * j + 8) == le8(
                    #[trigger] addr_off(name, aliases, width, j),
                )
            &&& bytes.subrange(arr_d + 8 * n, arr_d + 8 * n + 8) == le8(0)
        }),
{
    let bytes = record_bytes(name, aliases, addrs, width);
    let na = aliases.len() as int;
    let n = addrs.len() as int;
    let arr_a = aliases_arr_off(name, aliases);
    let arr_d = addr_arr_off(name, aliases, width, n);
    let slots_a = alias_slots(name, aliases);
    let slots_d = addr_slots(name, aliases, width, n);
    lemma_le8_cat_len(slots_a);
    lemma_le8_cat_len(slots_d);
    lemma_flat_cat_len(addrs, width);
    assert forall|i: int|
        0 <= i < na implies bytes.subrange(arr_a + 8 * i, arr_a + 8 * i + 8) == le8(
        #[trigger] alias_off(name, aliases, i),
    ) by {
        lemma_le8_cat_piece(slots_a, i);
        assert(slots_a[i] == alias_off(name, aliases, i));
        assert(bytes.subrange(arr_a + 8 * i, arr_a + 8 * i + 8) =~= le8_cat(slots_a).subrange(
            8 * i,
            8 * i + 8,
        ));
    }
    assert(bytes.subrange(arr_a + 8 * na, arr_a + 8 * na + 8) == le8(0)) by {
        lemma_le8_cat_piece(slots_a, na);
        assert(slots_a[na] == 0);
        assert(bytes.subrange(arr_a + 8 * na, arr_a + 8 * na + 8) =~= le8_cat(slots_a).subrange(
            8 * na,
            8 * na + 8,
        ));
    }
    assert forall|j: int|
        0 <= j < n implies bytes.subrange(arr_d + 8 * j, arr_d + 8 * j + 8) == le8(
        #[trigger] addr_off(name, aliases, width, j),
    ) by {
        lemma_le8_cat_piece(slots_d, j);
        assert(slots_d[j] == addr_off(name, aliases, width, j));
        assert(bytes.subrange(arr_d + 8 * j, arr_d + 8 * j + 8) =~= le8_cat(slots_d).subrange(
            8 * j,
            8 * j + 8,
        ));
    }
    assert(bytes.subrange(arr_d + 8 * n, arr_d + 8 * n + 8) == le8(0)) by {
        lemma_le8_cat_piece(slots_d, n);
        assert(slots_d[n] == 0);
        assert(bytes.subrange(arr_d + 8 * n, arr_d + 8 * n + 8) =~= le8_cat(slots_d).subrange(
            8 * n,
            8 * n + 8,
        ));
    }
}

/// Reading an encoded record back through its offsets reconstructs the
/// inputs exactly: the name with its NUL at offset zero, each alias with
/// its NUL at its slot's offset, each address's bytes at its slot's
/// offset, and both pointer arrays closed by one zero slot.
pub proof fn lemma_record_round_trip(
    name: Seq<u8>,
    aliases: Seq<Seq<u8>>,
    addrs: Seq<Seq<u8>>,
    width: int,
)
    requires
        width >= 0,
        forall|j: int| 0 <= j < addrs.len() ==> (#[trigger] addrs[j]).len() == width,
    ensures
        ({
            let bytes = record_bytes(name, aliases, addrs, width);
            let na = aliases.len() as int;
            let n = addrs.len() as int;
            let arr_a = aliases_arr_off(name, aliases);
            let arr_d = addr_arr_off(name, aliases, width, n);
            &&& bytes.len() == required_size(name, aliases, width, n)
            &&& bytes.subrange(0, name.len() as int) == name
            &&& bytes[name.len() as int] == 0
            &&& forall|i: int|
                0 <= i < na ==> bytes.subrange(
                    alias_off(name, aliases, i),
                    alias_off(name, aliases, i) + (#[trigger] aliases[i]).len(),
                ) == aliases[i] && bytes[alias_off(name, aliases, i) + aliases[i].len()] == 0
            &&& forall|i: int|
                0 <= i < na ==> bytes.subrange(arr_a + 8 * i, arr_a + 8 * i + 8) == le8(
                    #[trigger] alias_off(name, aliases, i),
                )
            &&& bytes.subrange(arr_a + 8 * na, arr_a + 8 * na + 8) == le8(0)
            &&& forall|j: int|
                0 <= j < n ==> bytes.subrange(
                    addr_off(name, aliases, width, j),
                    addr_off(name, aliases, width, j) + width,
                ) == #[trigger] addrs[j]
            &&& forall|j: int|
                0 <= j < n ==> bytes.subrange(arr_d + 8 * j, arr_d + 8 * j + 8) == le8(
                    #[trigger] addr_off(name, aliases, width, j),
                )
            &&& bytes.subrange(arr_d + 8 * n, arr_d + 8 * n + 8) == le8(0)
        }),
{
    lemma_record_text_regions(name, aliases, addrs, width);
    lemma_record_pointer_arrays(name, aliases, addrs, width);
}

/// Appends one little-endian pointer slot.
fn push_le8(out: &mut Vec<u8>, v: usize)
    ensures
        final(out)@ == old(out)@ + le8(v as int),
{
    let x = v as u64;
    out.push((x % 256) as u8);
    out.push(((x / 0x100) % 256) as u8);
    out.push(((x / 0x10000) % 256) as u8);
    out.push(((x / 0x1000000) % 256) as u8);
    out.push(((x / 0x100000000) % 256) as u8);
    out.push(((x / 0x10000000000) % 256) as u8);
    out.push(((x / 0x1000000000000) % 256) as u8);
    out.push(((x / 0x100000000000000) % 256) as u8);
    proof {
        assert(out@ =~= old(out)@ + le8(v as int));
    }
}

/// Packs one resolved entry into a record for a buffer of `buflen`
/// bytes. Succeeds exactly when the record fits; on failure nothing is
/// exposed at all.
pub fn write_hostent(
    buflen: usize,
    name: &Vec<u8>,
    aliases: &Vec<Vec<u8>>,
    family: i32,
    width: usize,
    addrs: &Vec<Vec<u8>>,
) -> (r: Option<(Vec<u8>, hostent)>)
    requires
        width == 4 || width == 16,
        forall|j: int| 0 <= j < addrs@.len() ==> (#[trigger] addrs@[j])@.len() == width,
    ensures
        r is Some <==> required_size(
            name@,
            seq_views(aliases@),
            width as int,
            addrs@.len() as int,
        ) <= buflen,
        r matches Some(p) ==> ({
            let av = seq_views(aliases@);
            let dv = seq_views(addrs@);
            &&& p.0@ == record_bytes(name@, av, dv, width as int)
            &&& p.0@.len() == required_size(name@, av, width as int, addrs@.len() as int)
            &&& p.0@.len() <= buflen
            &&& p.1 == spec_hostent(name@, av, width as int, family, addrs@.len() as int)
        }),
{
    let ghost av = seq_views(aliases@);
    let ghost dv = seq_views(addrs@);
    let mut out: Vec<u8> = Vec::new();

    // the name chunk
    push_all(&mut out, name);
    out.push(0);
    proof {
        assert(out@ =~= with_nul(name@));
    }

    // the alias chunks, recording where each lands
    let mut alias_pos: Vec<usize> = Vec::new();
    let mut k: usize = 0;
    proof {
        assert(av.take(0) =~= Seq::<Seq<u8>>::empty());
        assert(out@ =~= with_nul(name@) + cat_with_nuls(av.take(0)));
    }
    while k < aliases.len()
        invariant
            0 <= k <= aliases@.len(),
            av == seq_views(aliases@),
            alias_pos@.len() == k,
            out@ == with_nul(name@) + cat_with_nuls(av.take(k as int)),
            forall|i: int| 0 <= i < k ==> alias_pos@[i] as int == alias_off(name@, av, i),
        decreases aliases@.len() - k,
    {
        alias_pos.push(out.len());
        push_all(&mut out, &aliases[k]);
        out.push(0);
        proof {
            assert(av.take(k + 1).drop_last() =~= av.take(k as int));
            assert(av.take(k + 1).last() == av[k as int]);
            assert(av[k as int] == aliases@[k as int]@);
            assert(out@ =~= with_nul(name@) + cat_with_nuls(av.take(k + 1)));
        }
        k += 1;
    }
    proof {
        assert(av.take(aliases@.len() as int) =~= av);
    }

    // the alias pointer array
    let aliases_arr_pos = out.len();
    let ghost slots_a = alias_slots(name@, av);
    let mut j: usize = 0;
    proof {
        assert(slots_a.take(0) =~= Seq::<int>::empty());
        assert(out@ =~= with_nul(name@) + cat_with_nuls(av) + le8_cat(slots_a.take(0)));
    }
    while j < alias_pos.len()
        invariant
            0 <= j <= alias_pos@.len(),
            av == seq_views(aliases@),
            slots_a == alias_slots(name@, av),
            alias_pos@.len() == aliases@.len(),
            forall|i: int| 0 <= i < alias_pos@.len() ==> alias_pos@[i] as int == alias_off(
                name@,
                av,
                i,
            ),
            out@ == with_nul(name@) + cat_with_nuls(av) + le8_cat(slots_a.take(j as int)),
        decreases alias_pos@.len() - j,
    {
        push_le8(&mut out, alias_pos[j]);
        proof {
            assert(slots_a.take(j + 1).drop_last() =~= slots_a.take(j as int));
            assert(slots_a.take(j + 1).last() == slots_a[j as int]);
            assert(slots_a[j as int] == alias_off(name@, av, j as int));
            assert(out@ =~= with_nul(name@) + cat_with_nuls(av) + le8_cat(slots_a.take(j + 1)));
        }
        j += 1;
    }
    push_le8(&mut out, 0);
    proof {
        assert(slots_a.drop_last() =~= slots_a.take(aliases@.len() as int));
        assert(slots_a.last() == 0);
        assert(out@ =~= with_nul(name@) + cat_with_nuls(av) + le8_cat(slots_a));
    }

    // the raw address chunks, recording where each lands
    let ghost head_a = with_nul(name@) + cat_with_nuls(av) + le8_cat(slots_a);
    let mut addr_pos: Vec<usize> = Vec::new();
    let mut q: usize = 0;
    proof {
        lemma_le8_cat_len(slots_a);
        assert(dv.take(0) =~= Seq::<Seq<u8>>::empty());
        assert(out@ =~= head_a + flat_cat(dv.take(0)));
    }
    while q < addrs.len()
        invariant
            0 <= q <= addrs@.len(),
            av == seq_views(aliases@),
            dv == seq_views(addrs@),
            head_a == with_nul(name@) + cat_with_nuls(av) + le8_cat(alias_slots(name@, av)),
            head_a.len() == aliases_arr_pos + 8 * (aliases@.len() + 1),
            aliases_arr_pos as int == aliases_arr_off(name@, av),
            addr_pos@.len() == q,
            width == 4 || width == 16,
            forall|i: int| 0 <= i < addrs@.len() ==> (#[trigger] addrs@[i])@.len() == width,
            out@ == head_a + flat_cat(dv.take(q as int)),
            forall|i: int| 0 <= i < q ==> addr_pos@[i] as int == addr_off(
                name@,
                av,
                width as int,
                i,
            ),
        decreases addrs@.len() - q,
    {
        addr_pos.push(out.len());
        push_all(&mut out, &addrs[q]);
        proof {
            assert(dv.take(q + 1).drop_last() =~= dv.take(q as int));
            assert(dv.take(q + 1).last() == dv[q as int]);
            assert(dv[q as int] == addrs@[q as int]@);
            assert(out@ =~= head_a + flat_cat(dv.take(q + 1)));
            assert forall|i: int| 0 <= i < q + 1 implies (#[trigger] dv.take(q + 1)[i]).len()
                == width by {
                assert(dv.take(q + 1)[i] == addrs@[i]@);
            }
            lemma_flat_cat_len(dv.take(q + 1), width as int);
            lemma_flat_cat_len(dv.take(q as int), width as int);
        }
        q += 1;
    }
    proof {
        assert(dv.take(addrs@.len() as int) =~= dv);
        assert forall|i: int| 0 <= i < dv.len() implies (#[trigger] dv[i]).len() == width by {
            assert(dv[i] == addrs@[i]@);
        }
        lemma_flat_cat_len(dv, width as int);
    }

    // the address pointer array
    let addr_arr_pos = out.len();
    let ghost slots_d = addr_slots(name@, av, width as int, addrs@.len() as int);
    let ghost head_d = head_a + flat_cat(dv);
    let mut p: usize = 0;
    proof {
        assert(slots_d.take(0) =~= Seq::<int>::empty());
        assert(out@ =~= head_d + le8_cat(slots_d.take(0)));
    }
    while p < addr_pos.len()
        invariant
            0 <= p <= addr_pos@.len(),
            av == seq_views(aliases@),
            dv == seq_views(addrs@),
            slots_d == addr_slots(name@, av, width as int, addrs@.len() as int),
            addr_pos@.len() == addrs@.len(),
            forall|i: int| 0 <= i < addr_pos@.len() ==> addr_pos@[i] as int == addr_off(
                name@,
                av,
                width as int,
                i,
            ),
            out@ == head_d + le8_cat(slots_d.take(p as int)),
        decreases addr_pos@.len() - p,
    {
        push_le8(&mut out, addr_pos[p]);
        proof {
            assert(slots_d.take(p + 1).drop_last() =~= slots_d.take(p as int));
            assert(slots_d.take(p + 1).last() == slots_d[p as int]);
            assert(slots_d[p as int] == addr_off(name@, av, width as int, p as int));
            assert(out@ =~= head_d + le8_cat(slots_d.take(p + 1)));
        }
        p += 1;
    }
    push_le8(&mut out, 0);
    proof {
        assert(slots_d.drop_last() =~= slots_d.take(addrs@.len() as int));
        assert(slots_d.last() == 0);
        assert(out@ =~= head_d + le8_cat(slots_d));
        assert(out@ =~= record_bytes(name@, av, dv, width as int));
        lemma_le8_cat_len(slots_d);
        assert(out@.len() == required_size(name@, av, width as int, addrs@.len() as int));
    }

    if out.len() > buflen {
        return None;
    }
    let he = hostent {
        h_name: 0,
        h_aliases: aliases_arr_pos,
        h_addrtype: family,
        h_length: width as i32,
        h_addr_list: addr_arr_pos,
    };
    proof {
        assert(he == spec_hostent(name@, av, width as int, family, addrs@.len() as int));
    }
    Some((out, he))
}

} // verus!
