//! Locating an IP in the two-level index.
//!
//! A query first brackets a window of the dense index between two
//! consecutive sparse header entries, then binary-searches that window
//! for the one block whose inclusive range holds the IP, and finally
//! decodes the block's region record.

use vstd::prelude::*;
use vstd::slice::slice_subrange;
use crate::{DbType, Ip};
use crate::meta::{le_u32_at, DbMeta, MetaModel};
use crate::order::{bytes_eq_upto, bytes_lt_upto, compare_bytes, lemma_bytes_order_trichotomy,
    read_le_u32};
use crate::record::{decode_region_from_bytes, spec_region_text};
use core::cmp::Ordering;

verus! {

broadcast use vstd::slice::axiom_spec_len;

/// How many entries order strictly below `ip` on the significant prefix.
pub open spec fn lower_count(sips: Seq<Seq<u8>>, ip: Seq<u8>, ip_len: int) -> int
    decreases sips.len(),
{
    if sips.len() == 0 {
        0
    } else {
        (if bytes_lt_upto(sips[0], ip, ip_len) {
            1int
        } else {
            0int
        }) + lower_count(sips.drop_first(), ip, ip_len)
    }
}

/// On a table split at `l` — everything below `l` under `ip`, everything
/// from `l` above it — exactly `l` entries lie under `ip`.
proof fn lemma_lower_count_split(sips: Seq<Seq<u8>>, ip: Seq<u8>, ip_len: int, l: int)
    requires
        0 <= l <= sips.len(),
        forall|i: int| 0 <= i < l ==> bytes_lt_upto(#[trigger] sips[i], ip, ip_len),
        forall|i: int| l <= i < sips.len() ==> bytes_lt_upto(ip, #[trigger] sips[i], ip_len),
        forall|i: int| 0 <= i < sips.len() ==> (#[trigger] sips[i]).len() >= ip_len,
        ip.len() >= ip_len,
        ip_len >= 0,
    ensures
        lower_count(sips, ip, ip_len) == l,
    decreases sips.len(),
{
    if sips.len() == 0 {
    } else {
        let rest = sips.drop_first();
        assert(forall|i: int| 0 <= i < rest.len() ==> #[trigger] rest[i] == sips[i + 1]);
        if l == 0 {
            lemma_bytes_order_trichotomy(sips[0], ip, ip_len);
            assert(bytes_lt_upto(ip, sips[0], ip_len));
            assert(!bytes_lt_upto(sips[0], ip, ip_len));
            lemma_lower_count_split(rest, ip, ip_len, 0);
        } else {
            assert(bytes_lt_upto(sips[0], ip, ip_len));
            lemma_lower_count_split(rest, ip, ip_len, l - 1);
        }
    }
}

/// On a strictly ascending table with no entry equal to `ip`, the
/// entries below the lower count lie under `ip` and the rest above it.
pub proof fn lemma_lower_count_splits(sips: Seq<Seq<u8>>, ip: Seq<u8>, ip_len: int)
    requires
        forall|i: int, j: int|
            0 <= i < j < sips.len() ==> bytes_lt_upto(#[trigger] sips[i], #[trigger] sips[j], ip_len),
        forall|i: int| 0 <= i < sips.len() ==> !bytes_eq_upto(#[trigger] sips[i], ip, ip_len),
        forall|i: int| 0 <= i < sips.len() ==> (#[trigger] sips[i]).len() >= ip_len,
        ip.len() >= ip_len,
        ip_len >= 0,
    ensures
        0 <= lower_count(sips, ip, ip_len) <= sips.len(),
        forall|i: int|
            0 <= i < lower_count(sips, ip, ip_len) ==> bytes_lt_upto(#[trigger] sips[i], ip, ip_len),
        forall|i: int|
            lower_count(sips, ip, ip_len) <= i < sips.len() ==> bytes_lt_upto(
                ip,
                #[trigger] sips[i],
                ip_len,
            ),
    decreases sips.len(),
{
    if sips.len() == 0 {
    } else {
        let rest = sips.drop_first();
        assert(forall|i: int| 0 <= i < rest.len() ==> #[trigger] rest[i] == sips[i + 1]);
        lemma_lower_count_splits(rest, ip, ip_len);
        crate::order::lemma_bytes_order_trichotomy(sips[0], ip, ip_len);
        let l = lower_count(sips, ip, ip_len);
        if bytes_lt_upto(sips[0], ip, ip_len) {
            assert(l == 1 + lower_count(rest, ip, ip_len));
            assert forall|i: int| 0 <= i < l implies bytes_lt_upto(#[trigger] sips[i], ip, ip_len) by {
                if i > 0 {
                    assert(rest[i - 1] == sips[i]);
                }
            }
            assert forall|i: int| l <= i < sips.len() implies bytes_lt_upto(
                ip,
                #[trigger] sips[i],
                ip_len,
            ) by {
                assert(rest[i - 1] == sips[i]);
            }
        } else {
            assert(bytes_lt_upto(ip, sips[0], ip_len));
            assert(l == lower_count(rest, ip, ip_len));
            // everything sits above the first entry, so above `ip` too
            assert forall|i: int| 0 <= i < rest.len() implies !bytes_lt_upto(
                #[trigger] rest[i],
                ip,
                ip_len,
            ) by {
                assert(rest[i] == sips[i + 1]);
                crate::order::lemma_bytes_order_trichotomy(rest[i], ip, ip_len);
                if bytes_lt_upto(rest[i], ip, ip_len) {
                    crate::order::lemma_bytes_lt_transitive(ip, sips[0], sips[i + 1], ip_len);
                    assert(false);
                }
            }
            lemma_lower_count_zero(rest, ip, ip_len);
            assert(l == 0);
            assert forall|i: int| l <= i < sips.len() implies bytes_lt_upto(
                ip,
                #[trigger] sips[i],
                ip_len,
            ) by {
                if i > 0 {
                    crate::order::lemma_bytes_lt_transitive(ip, sips[0], sips[i], ip_len);
                }
            }
        }
    }
}

/// A table whose entries all sit at or above `ip` counts nothing below it.
proof fn lemma_lower_count_zero(sips: Seq<Seq<u8>>, ip: Seq<u8>, ip_len: int)
    requires
        forall|i: int|
            0 <= i < sips.len() ==> !bytes_lt_upto(#[trigger] sips[i], ip, ip_len),
    ensures
        lower_count(sips, ip, ip_len) == 0,
    decreases sips.len(),
{
    if sips.len() > 0 {
        let rest = sips.drop_first();
        assert(forall|i: int| 0 <= i < rest.len() ==> #[trigger] rest[i] == sips[i + 1]);
        lemma_lower_count_zero(rest, ip, ip_len);
    }
}

/// A window, unless its start pointer is zero.
pub open spec fn spec_check_window(sptr: u32, eptr: u32) -> Option<(u32, u32)> {
    if sptr == 0 {
        None
    } else {
        Some((sptr, eptr))
    }
}

/// The dense-index window the sparse header brackets for `ip`: on an
/// exact hit at `m`, the pointers at `m - 1` (or `0`) and `m`; on a miss
/// below every entry, nothing; on a miss between entries `l - 1` and `l`,
/// their two pointers; past the last entry, one trailing block.
pub open spec fn spec_search_in_header(mm: MetaModel, ip: Seq<u8>) -> Option<(u32, u32)> {
    let n = mm.header_sip.len() as int;
    let ip_len = mm.db_type.spec_bytes_len() as int;
    let blen = mm.db_type.spec_index_block_len() as int;
    if exists|m: int| 0 <= m < n && bytes_eq_upto(#[trigger] mm.header_sip[m], ip, ip_len) {
        let m = choose|m: int| 0 <= m < n && bytes_eq_upto(#[trigger] mm.header_sip[m], ip, ip_len);
        let sptr = if m > 0 {
            mm.header_ptr[m - 1]
        } else {
            mm.header_ptr[0]
        };
        spec_check_window(sptr, mm.header_ptr[m])
    } else {
        let l = lower_count(mm.header_sip, ip, ip_len);
        if l == 0 {
            None
        } else if l < n {
            spec_check_window(mm.header_ptr[l - 1], mm.header_ptr[l])
        } else {
            spec_check_window(
                mm.header_ptr[n - 1],
                (mm.header_ptr[n - 1] + blen) as u32,
            )
        }
    }
}

impl DbMeta {
    /// Locate the dense-index window for the given right-padded IP bytes.
    pub fn search_in_header(&self, ip_bytes: &[u8; 16]) -> (r: Option<(u32, u32)>)
        requires
            self.wf(),
        ensures
            r == spec_search_in_header(self.model(), ip_bytes@),
    {
        let ghost mm = self.model();
        let ghost ip = ip_bytes@;
        let header_len = self.header_sip.len();
        let ip_len = self.db_type.bytes_len();
        let ghost l_g = ip_len as int;
        let ghost n = header_len as int;
        proof {
            assert(forall|i: int|
                0 <= i < n ==> #[trigger] mm.header_sip[i] == self.header_sip@[i]@);
        }
        let mut l: i64 = 0;
        let mut h: i64 = header_len as i64 - 1;
        while l <= h
            invariant
                self.wf(),
                mm == self.model(),
                ip == ip_bytes@,
                header_len == self.header_sip@.len(),
                n == header_len as int,
                ip_len == self.db_type.spec_bytes_len(),
                l_g == ip_len as int,
                0 <= l,
                h < n,
                l <= h + 1,
                forall|i: int| 0 <= i < l ==> bytes_lt_upto(#[trigger] mm.header_sip[i], ip, l_g),
                forall|i: int| h < i < n ==> bytes_lt_upto(ip, #[trigger] mm.header_sip[i], l_g),
            decreases h - l + 1,
        {
            let m = (l + h) / 2;
            let mu = m as usize;
            let sip = &self.header_sip[mu];
            let cmp = compare_bytes(ip_bytes.as_slice(), sip.as_slice(), ip_len);
            proof {
                assert(mm.header_sip[m as int] == self.header_sip@[m as int]@);
            }
            match cmp {
                Ordering::Less => {
                    h = m - 1;
                },
                Ordering::Greater => {
                    l = m + 1;
                },
                Ordering::Equal => {
                    let sptr = self.header_ptr[if mu > 0 {
                        mu - 1
                    } else {
                        mu
                    }];
                    let eptr = self.header_ptr[mu];
                    proof {
                        let mc = choose|mc: int|
                            0 <= mc < n && bytes_eq_upto(#[trigger] mm.header_sip[mc], ip, l_g);
                        assert(bytes_eq_upto(mm.header_sip[m as int], ip, l_g));
                        if mc != m as int {
                            if mc < m as int {
                                assert(bytes_lt_upto(mm.header_sip[mc], mm.header_sip[m as int], l_g));
                            } else {
                                assert(bytes_lt_upto(mm.header_sip[m as int], mm.header_sip[mc], l_g));
                            }
                            lemma_bytes_order_trichotomy(
                                mm.header_sip[mc],
                                mm.header_sip[m as int],
                                l_g,
                            );
                            assert(bytes_eq_upto(mm.header_sip[mc], mm.header_sip[m as int], l_g));
                            assert(false);
                        }
                    }
                    if sptr == 0 {
                        return None;
                    }
                    return Some((sptr, eptr));
                },
            }
        }
        proof {
            assert forall|m: int| 0 <= m < n implies !bytes_eq_upto(
                #[trigger] mm.header_sip[m],
                ip,
                l_g,
            ) by {
                lemma_bytes_order_trichotomy(mm.header_sip[m], ip, l_g);
            }
            assert forall|i: int| l <= i < n implies bytes_lt_upto(
                ip,
                #[trigger] mm.header_sip[i],
                l_g,
            ) by {}
            lemma_lower_count_split(mm.header_sip, ip, l_g, l as int);
        }
        if l == 0 {
            return None;
        }
        let lu = l as usize;
        let sptr: u32;
        let eptr: u32;
        if lu < header_len {
            sptr = self.header_ptr[lu - 1];
            eptr = self.header_ptr[lu];
        } else if h >= 0 && (h as usize + 1) < header_len {
            let hu = h as usize;
            sptr = self.header_ptr[hu];
            eptr = self.header_ptr[hu + 1];
        } else {
            sptr = self.header_ptr[header_len - 1];
            eptr = sptr + self.db_type.index_block_len() as u32;
        }
        if sptr == 0 {
            return None;
        }
        Some((sptr, eptr))
    }
}

/// What the binary search over a dense window between block indices `l`
/// and `h` finds: the region pointer and length of a block whose
/// inclusive range holds `ip`, or nothing once the interval is empty.
pub open spec fn spec_dense_find(w: Seq<u8>, ip: Seq<u8>, ty: DbType, l: int, h: int) -> Option<
    (u32, u8),
>
    decreases h - l + 1,
{
    let ip_len = ty.spec_bytes_len() as int;
    let blen = ty.spec_index_block_len() as int;
    if l > h || l < 0 {
        None
    } else {
        let m = (l + h) / 2;
        let p = m * blen;
        let s = w.subrange(p, p + ip_len);
        let e = w.subrange(p + ip_len, p + 2 * ip_len);
        if !bytes_lt_upto(ip, s, ip_len) && !bytes_lt_upto(e, ip, ip_len) {
            Some((le_u32_at(w, p + 2 * ip_len), w[p + 2 * ip_len + 4]))
        } else if bytes_lt_upto(ip, s, ip_len) {
            if m == 0 {
                None
            } else {
                spec_dense_find(w, ip, ty, l, m - 1)
            }
        } else {
            spec_dense_find(w, ip, ty, m + 1, h)
        }
    }
}

/// Binary-search a dense window for the block holding the IP, returning
/// its region pointer and length.
pub fn search_in_index(window: &[u8], ip_bytes: &[u8; 16], db_type: DbType) -> (r: Option<
    (u32, u8),
>)
    requires
        db_type.spec_index_block_len() <= window@.len(),
    ensures
        r == spec_dense_find(
            window@,
            ip_bytes@,
            db_type,
            0,
            (window@.len() - db_type.spec_index_block_len() as int)
                / db_type.spec_index_block_len() as int,
        ),
{
    let wlen = window.len();
    let ip_len = db_type.bytes_len();
    let blen = db_type.index_block_len();
    let h0: usize = (wlen - blen) / blen;
    let ghost target = spec_dense_find(window@, ip_bytes@, db_type, 0, h0 as int);
    let mut l: usize = 0;
    let mut h: usize = h0;
    while l <= h
        invariant
            wlen == window@.len(),
            ip_len == db_type.spec_bytes_len(),
            blen == db_type.spec_index_block_len(),
            blen <= wlen,
            h0 == (wlen - blen) as int / blen as int,
            h <= h0,
            l <= h + 1,
            target == spec_dense_find(window@, ip_bytes@, db_type, 0, h0 as int),
            target == spec_dense_find(window@, ip_bytes@, db_type, l as int, h as int),
        decreases h - l + 1,
    {
        let m = (l + h) / 2;
        proof {
            assert(m * blen + blen <= wlen) by (nonlinear_arith)
                requires
                    m <= h0,
                    h0 == (wlen - blen) as int / blen as int,
                    blen > 0,
                    blen <= wlen,
            {
            }
        }
        let p = m * blen;
        let start_ip = slice_subrange(window, p, p + ip_len);
        let end_ip = slice_subrange(window, p + ip_len, p + ip_len * 2);
        let cmp_start = compare_bytes(ip_bytes.as_slice(), start_ip, ip_len);
        let cmp_end = compare_bytes(ip_bytes.as_slice(), end_ip, ip_len);
        let start_not_less = !matches!(cmp_start, Ordering::Less);
        let end_not_greater = !matches!(cmp_end, Ordering::Greater);
        proof {
            let li = l as int;
            let hi = h as int;
            let mi = (li + hi) / 2;
            assert(mi == m as int);
            assert(start_ip@ == window@.subrange(mi * blen as int, mi * blen as int + ip_len as int));
            assert(end_ip@ == window@.subrange(
                mi * blen as int + ip_len as int,
                mi * blen as int + 2 * ip_len as int,
            ));
        }
        if start_not_less && end_not_greater {
            let rptr = read_le_u32(window, p + ip_len * 2);
            let rlen = window[p + ip_len * 2 + 4];
            proof {
                assert(spec_dense_find(window@, ip_bytes@, db_type, l as int, h as int) == Some(
                    (rptr, rlen),
                ));
            }
            return Some((rptr, rlen));
        } else if !start_not_less {
            if m == 0 {
                proof {
                    assert(spec_dense_find(window@, ip_bytes@, db_type, l as int, h as int)
                        is None);
                }
                return None;
            }
            h = m - 1;
        } else {
            l = m + 1;
        }
    }
    None
}

/// Whether the query's family matches the database's.
pub open spec fn spec_family_matches(ty: DbType, ip: Ip) -> bool {
    ty matches DbType::Ipv4 <==> ip matches Ip::V4(_)
}

/// What a search over a whole payload yields for `ip`: nothing on a
/// family mismatch, a miss in either index level, a window or record that
/// leaves the payload, or a record that does not decode; otherwise the
/// region text of the block holding `ip`.
pub open spec fn spec_search_payload(bindata: Seq<u8>, mm: MetaModel, ip: Ip) -> Option<Seq<char>> {
    if !spec_family_matches(mm.db_type, ip) {
        None
    } else {
        let ipb = ip.spec_padded();
        match spec_search_in_header(mm, ipb) {
            None => None,
            Some((sptr, eptr)) => if eptr < sptr {
                None
            } else {
                let blen = mm.db_type.spec_index_block_len() as int;
                if eptr + blen > bindata.len() {
                    None
                } else {
                    let w = bindata.subrange(sptr as int, eptr as int + blen);
                    match spec_dense_find(w, ipb, mm.db_type, 0, (eptr - sptr) as int / blen) {
                        None => None,
                        Some((rptr, rlen)) => if rptr + rlen > bindata.len() {
                            None
                        } else {
                            spec_region_text(
                                bindata.subrange(rptr as int, rptr as int + rlen as int),
                                mm.column_selection,
                                mm.geo_map_data,
                            )
                        },
                    }
                }
            },
        }
    }
}

/// Search a payload held in memory, without copying any of it but the
/// resulting region text.
pub fn search_in_payload(bindata: &[u8], meta: &DbMeta, ip: &Ip) -> (r: Option<String>)
    requires
        meta.wf(),
    ensures
        match r {
            Some(s) => spec_search_payload(bindata@, meta.model(), *ip) == Some(s@),
            None => spec_search_payload(bindata@, meta.model(), *ip) is None,
        },
{
    if !meta.db_type.compare(ip) {
        return None;
    }
    let ip_bytes = ip.padded();
    let (sptr, eptr) = match meta.search_in_header(&ip_bytes) {
        Some(t) => t,
        None => {
            return None;
        },
    };
    if eptr < sptr {
        return None;
    }
    let blen = meta.db_type.index_block_len();
    let dlen = bindata.len();
    let sptr_u = sptr as usize;
    let eptr_u = eptr as usize;
    if eptr as u64 + blen as u64 > dlen as u64 {
        return None;
    }
    let window = slice_subrange(bindata, sptr_u, eptr_u + blen);
    let (rptr, rlen) = match search_in_index(window, &ip_bytes, meta.db_type) {
        Some(t) => t,
        None => {
            proof {
                assert((window@.len() - meta.db_type.spec_index_block_len() as int)
                    / meta.db_type.spec_index_block_len() as int == (eptr - sptr) as int
                    / meta.db_type.spec_index_block_len() as int);
            }
            return None;
        },
    };
    proof {
        assert((window@.len() - meta.db_type.spec_index_block_len() as int)
            / meta.db_type.spec_index_block_len() as int == (eptr - sptr) as int
            / meta.db_type.spec_index_block_len() as int);
    }
    let rptr_u = rptr as usize;
    let rlen_u = rlen as usize;
    if rptr as u64 + rlen as u64 > dlen as u64 {
        return None;
    }
    let region_bytes = slice_subrange(bindata, rptr_u, rptr_u + rlen_u);
    decode_region_from_bytes(region_bytes, meta)
}

/// The first IP key of block `k` of a dense window.
pub open spec fn dense_block_start(w: Seq<u8>, ty: DbType, k: int) -> Seq<u8> {
    w.subrange(
        k * ty.spec_index_block_len() as int,
        k * ty.spec_index_block_len() as int + ty.spec_bytes_len() as int,
    )
}

/// The last IP key of block `k` of a dense window.
pub open spec fn dense_block_end(w: Seq<u8>, ty: DbType, k: int) -> Seq<u8> {
    w.subrange(
        k * ty.spec_index_block_len() as int + ty.spec_bytes_len() as int,
        k * ty.spec_index_block_len() as int + 2 * ty.spec_bytes_len() as int,
    )
}

/// Block `k` holds `ip`: the key is neither below the block's first key
/// nor above its last.
pub open spec fn dense_block_holds(w: Seq<u8>, ty: DbType, k: int, ip: Seq<u8>) -> bool {
    &&& !bytes_lt_upto(ip, dense_block_start(w, ty, k), ty.spec_bytes_len() as int)
    &&& !bytes_lt_upto(dense_block_end(w, ty, k), ip, ty.spec_bytes_len() as int)
}

/// The first `n` blocks of a window run forward and ascend disjointly.
pub open spec fn dense_window_sorted(w: Seq<u8>, ty: DbType, n: int) -> bool {
    &&& forall|k: int|
        0 <= k < n ==> !bytes_lt_upto(
            #[trigger] dense_block_end(w, ty, k),
            dense_block_start(w, ty, k),
            ty.spec_bytes_len() as int,
        )
    &&& forall|i: int, j: int|
        0 <= i < j < n ==> bytes_lt_upto(
            #[trigger] dense_block_end(w, ty, i),
            #[trigger] dense_block_start(w, ty, j),
            ty.spec_bytes_len() as int,
        )
}

} // verus!
