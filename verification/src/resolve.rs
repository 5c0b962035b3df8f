//! The lookup entry points: validate the requested family, build the
//! table from the given sources, look the name up, and map every outcome
//! to the caller's fixed status and error codes.

use vstd::prelude::*;
use crate::table::{
    load_hosts_map, spec_table, opt_view, table_get, lemma_key_index, key_index, entries_wf,
};
use crate::text::seq_views;
use crate::writer::{write_hostent, required_size, record_bytes, spec_hostent, hostent};

verus! {

pub const AF_INET: i32 = 2;

pub const AF_INET6: i32 = 10;

pub const ENOENT: i32 = 2;

pub const EINVAL: i32 = 22;

pub const ERANGE: i32 = 34;

pub const HOST_NOT_FOUND: i32 = 1;

pub const NO_RECOVERY: i32 = 3;

pub const NSS_STATUS_TRYAGAIN: i32 = -2;

pub const NSS_STATUS_UNAVAIL: i32 = -1;

pub const NSS_STATUS_NOTFOUND: i32 = 0;

pub const NSS_STATUS_SUCCESS: i32 = 1;

/// What a lookup call must produce for the given inputs, clause by
/// clause over the table the sources denote.
pub open spec fn resolve_post(
    name: Seq<u8>,
    family: i32,
    buflen: usize,
    inline: Option<Seq<u8>>,
    file: Option<Seq<u8>>,
    old_h_errno: i32,
    status: i32,
    out: Option<(Vec<u8>, hostent)>,
    new_errno: i32,
    new_h_errno: i32,
) -> bool {
    if family != AF_INET && family != AF_INET6 {
        &&& status == NSS_STATUS_UNAVAIL
        &&& new_errno == EINVAL
        &&& new_h_errno == NO_RECOVERY
        &&& out is None
    } else {
        let t = spec_table(inline, file);
        let bucket = if family == AF_INET6 {
            t.1
        } else {
            t.0
        };
        let width: int = if family == AF_INET6 {
            16
        } else {
            4
        };
        match table_get(bucket, name) {
            None => {
                &&& status == NSS_STATUS_NOTFOUND
                &&& new_errno == ENOENT
                &&& new_h_errno == HOST_NOT_FOUND
                &&& out is None
            },
            Some(addrs) => {
                if required_size(name, Seq::empty(), width, addrs.len() as int) <= buflen {
                    &&& status == NSS_STATUS_SUCCESS
                    &&& new_errno == 0
                    &&& new_h_errno == 0
                    &&& out matches Some(p) && p.0@ == record_bytes(
                        name,
                        Seq::empty(),
                        addrs,
                        width,
                    ) && p.1 == spec_hostent(name, Seq::empty(), width, family, addrs.len() as int)
                } else {
                    &&& status == NSS_STATUS_TRYAGAIN
                    &&& new_errno == ERANGE
                    &&& new_h_errno == old_h_errno
                    &&& out is None
                }
            },
        }
    }
}

/// Resolves `name` in the requested family against the given sources.
///
/// The returned pair is the status code and, on success, the encoded
/// record with its descriptor. The two error out-parameters are set as
/// the fixed contract demands; a too-small buffer leaves the secondary
/// code untouched.
pub fn gethostbyname2_r(
    name: &Vec<u8>,
    family: i32,
    buflen: usize,
    inline_src: Option<&Vec<u8>>,
    file_src: Option<&Vec<u8>>,
    errnop: &mut i32,
    h_errnop: &mut i32,
) -> (r: (i32, Option<(Vec<u8>, hostent)>))
    ensures
        resolve_post(
            name@,
            family,
            buflen,
            opt_view(inline_src),
            opt_view(file_src),
            *old(h_errnop),
            r.0,
            r.1,
            *final(errnop),
            *final(h_errnop),
        ),
{
    if family != AF_INET && family != AF_INET6 {
        *errnop = EINVAL;
        *h_errnop = NO_RECOVERY;
        return (NSS_STATUS_UNAVAIL, None);
    }
    let hosts_map = load_hosts_map(inline_src, file_src);
    let v6 = family == AF_INET6;
    let width: usize = if v6 {
        16
    } else {
        4
    };
    match hosts_map.lookup(v6, name) {
        None => {
            *errnop = ENOENT;
            *h_errnop = HOST_NOT_FOUND;
            (NSS_STATUS_NOTFOUND, None)
        },
        Some(addrs) => {
            proof {
                let bucket = if v6 {
                    hosts_map.view().1
                } else {
                    hosts_map.view().0
                };
                lemma_key_index(bucket, name@);
                assert(entries_wf(bucket, width as int));
                let i = key_index(bucket, name@);
                assert(bucket[i].1 == seq_views(addrs@));
                assert forall|j: int| 0 <= j < addrs@.len() implies (
                #[trigger] addrs@[j])@.len() == width by {
                    assert(bucket[i].1[j] == addrs@[j]@);
                }
            }
            let aliases: Vec<Vec<u8>> = Vec::new();
            proof {
                assert(seq_views(aliases@) =~= Seq::<Seq<u8>>::empty());
            }
            match write_hostent(buflen, name, &aliases, family, width, addrs) {
                Some(p) => {
                    *errnop = 0;
                    *h_errnop = 0;
                    (NSS_STATUS_SUCCESS, Some(p))
                },
                None => {
                    *errnop = ERANGE;
                    (NSS_STATUS_TRYAGAIN, None)
                },
            }
        },
    }
}

/// Resolves `name` as `gethostbyname2_r` does with the IPv4 family.
pub fn gethostbyname_r(
    name: &Vec<u8>,
    buflen: usize,
    inline_src: Option<&Vec<u8>>,
    file_src: Option<&Vec<u8>>,
    errnop: &mut i32,
    h_errnop: &mut i32,
) -> (r: (i32, Option<(Vec<u8>, hostent)>))
    ensures
        resolve_post(
            name@,
            AF_INET,
            buflen,
            opt_view(inline_src),
            opt_view(file_src),
            *old(h_errnop),
            r.0,
            r.1,
            *final(errnop),
            *final(h_errnop),
        ),
{
    gethostbyname2_r(name, AF_INET, buflen, inline_src, file_src, errnop, h_errnop)
}

} // verus!
