//! Laws the library's contracts entail, stated and proved once.

use vstd::prelude::*;
use crate::{DbType, Ip};
use crate::meta::{le_u32_at, spec_read_hyper_header, spec_parse_super_part, DbMeta,
    HyperHeaderInfo, MetaModel, SuperPart};
use crate::crypt::aes_decrypted_body;
use crate::memory::{entry_contains, ip_value, opt_text, opt_text_ref, spec_build_entries,
    spec_build_index, CzdbMemory};
use crate::order::{be_value, bytes_eq_upto, bytes_lt_upto, lemma_be_value_orders};
use crate::search::{dense_block_end, dense_block_holds, dense_block_start, dense_window_sorted,
    lemma_lower_count_splits, lower_count, spec_check_window, spec_dense_find, spec_family_matches,
    spec_search_in_header};
use crate::CzError;

verus! {

/// A validated hyper-header ties the file to its reader: the decrypted
/// tag's top bits equal the declared client id, and its date field does
/// not lie before today.
pub proof fn lemma_hyper_header_invariants(data: Seq<u8>, key: Seq<u8>, today: u32, h: HyperHeaderInfo)
    requires
        spec_read_hyper_header(data, key, today) == Ok::<HyperHeaderInfo, CzError>(h),
    ensures
        data.len() >= 12 + le_u32_at(data, 8),
        h.encrypted_block_size == le_u32_at(data, 8),
        aes_decrypted_body(key, data.subrange(12, 12 + le_u32_at(data, 8) as int)) matches Some(
            plain,
        ) && (le_u32_at(plain, 0) >> 20 == le_u32_at(data, 4) && today <= le_u32_at(plain, 0)
            & 0xFFFFF && h.padding_size == le_u32_at(plain, 4)),
{
}

/// A parsed super-part accounts for the whole file: the hyper-header,
/// its paddings and the declared payload sum to the file size, and the
/// sparse header occupies a whole number of 20-byte blocks.
pub proof fn lemma_super_part_accounts(
    data: Seq<u8>,
    file_size_total: u64,
    padding_size: u32,
    encrypted_block_size: u32,
    sp: SuperPart,
)
    requires
        spec_parse_super_part(data, file_size_total, padding_size, encrypted_block_size) == Ok::<
            SuperPart,
            CzError,
        >(sp),
    ensures
        file_size_total == padding_size + encrypted_block_size + 12 + sp.file_size,
        sp.total_header_block_size % 20 == 0,
{
}

/// Materialized blocks of an accepted file are in order: each range runs
/// forward, ranges ascend disjointly, and every referenced record lies
/// within the payload.
pub proof fn lemma_built_entries_invariants(
    bindata: Seq<u8>,
    mm: MetaModel,
    p: int,
    count: int,
    prev: Option<u128>,
)
    requires
        count >= 0,
        spec_build_entries(bindata, mm, p, count, prev) matches Ok(_),
    ensures
        ({
            let es = spec_build_entries(bindata, mm, p, count, prev)->Ok_0;
            let blen = mm.db_type.spec_index_block_len() as int;
            let ip_len = mm.db_type.spec_bytes_len() as int;
            &&& es.len() == count
            &&& forall|k: int| 0 <= k < es.len() ==> (#[trigger] es[k]).0 <= es[k].1
            &&& forall|i: int, j: int|
                0 <= i < j < es.len() ==> (#[trigger] es[i]).1 < (#[trigger] es[j]).0
            &&& (prev matches Some(pe) ==> forall|k: int|
                0 <= k < es.len() ==> pe < (#[trigger] es[k]).0)
            &&& forall|k: int|
                0 <= k < count ==> #[trigger] le_u32_at(bindata, p + k * blen + 2 * ip_len)
                    + bindata[p + k * blen + 2 * ip_len + 4] <= bindata.len()
            &&& forall|k: int|
                0 <= k < count ==> (#[trigger] es[k]).0 == be_value(
                    bindata.subrange(p + k * blen, p + k * blen + ip_len),
                ) as u128
            &&& forall|k: int|
                0 <= k < count ==> (#[trigger] es[k]).1 == be_value(
                    bindata.subrange(p + k * blen + ip_len, p + k * blen + 2 * ip_len),
                ) as u128
        }),
    decreases count,
{
    let es = spec_build_entries(bindata, mm, p, count, prev)->Ok_0;
    let blen = mm.db_type.spec_index_block_len() as int;
    let ip_len = mm.db_type.spec_bytes_len() as int;
    if count <= 0 {
    } else {
        let sv = crate::order::be_value(bindata.subrange(p, p + ip_len)) as u128;
        let ev = crate::order::be_value(bindata.subrange(p + ip_len, p + 2 * ip_len)) as u128;
        lemma_built_entries_invariants(bindata, mm, p + blen, count - 1, Some(ev));
        let tail = spec_build_entries(bindata, mm, p + blen, count - 1, Some(ev))->Ok_0;
        assert(es[0].0 == sv && es[0].1 == ev);
        assert(forall|k: int| 1 <= k < es.len() ==> #[trigger] es[k] == tail[k - 1]);
        assert forall|i: int, j: int| 0 <= i < j < es.len() implies (#[trigger] es[i]).1 < (
        #[trigger] es[j]).0 by {
            assert(es[j] == tail[j - 1]);
            if i > 0 {
                assert(es[i] == tail[i - 1]);
            } else {
                assert(ev < tail[j - 1].0);
            }
        }
        match prev {
            Some(pe) => {
                assert forall|k: int| 0 <= k < es.len() implies pe < (#[trigger] es[k]).0 by {
                    if k > 0 {
                        assert(es[k] == tail[k - 1]);
                        assert(ev < tail[k - 1].0);
                    }
                }
            },
            None => {},
        }
        assert forall|k: int|
            0 <= k < count implies #[trigger] le_u32_at(bindata, p + k * blen + 2 * ip_len)
            + bindata[p + k * blen + 2 * ip_len + 4] <= bindata.len() by {
            if k > 0 {
                assert((p + blen) + (k - 1) * blen == p + k * blen) by (nonlinear_arith);
                assert(le_u32_at(bindata, (p + blen) + (k - 1) * blen + 2 * ip_len) + bindata[(p
                    + blen) + (k - 1) * blen + 2 * ip_len + 4] <= bindata.len());
            }
        }
        assert forall|k: int|
            0 <= k < count implies (#[trigger] es[k]).0 == be_value(
            bindata.subrange(p + k * blen, p + k * blen + ip_len),
        ) as u128 && es[k].1 == be_value(
            bindata.subrange(p + k * blen + ip_len, p + k * blen + 2 * ip_len),
        ) as u128 by {
            if k > 0 {
                assert((p + blen) + (k - 1) * blen == p + k * blen) by (nonlinear_arith);
                assert(es[k] == tail[k - 1]);
            }
        }
    }
}

/// Any two addresses inside one materialized range resolve to that
/// range's region: the ends and the midpoint of a range agree.
pub proof fn lemma_range_round_trip(db: CzdbMemory, a: Ip, b: Ip, k: int)
    requires
        db.wf(),
        spec_family_matches(db.spec_db_type(), a),
        spec_family_matches(db.spec_db_type(), b),
        0 <= k < db.spec_entries().len(),
        entry_contains(db.spec_entries()[k], ip_value(a)),
        entry_contains(db.spec_entries()[k], ip_value(b)),
    ensures
        db.spec_search(a) == Some(db.spec_region(db.spec_entries()[k].region_id as int)),
        db.spec_search(a) == db.spec_search(b),
{
    lemma_contained_hit(db, a, k);
    lemma_contained_hit(db, b, k);
}

/// An address equal to a range's first or last key resolves to that
/// range's region.
pub proof fn lemma_boundary_hit(db: CzdbMemory, ip: Ip, k: int)
    requires
        db.wf(),
        spec_family_matches(db.spec_db_type(), ip),
        0 <= k < db.spec_entries().len(),
        ip_value(ip) == db.spec_entries()[k].start || ip_value(ip) == db.spec_entries()[k].end,
    ensures
        db.spec_search(ip) == Some(db.spec_region(db.spec_entries()[k].region_id as int)),
{
    db.lemma_wf_entry(k);
    lemma_contained_hit(db, ip, k);
}

/// The entry holding an address is the one a query resolves through.
proof fn lemma_contained_hit(db: CzdbMemory, ip: Ip, k: int)
    requires
        db.wf(),
        spec_family_matches(db.spec_db_type(), ip),
        0 <= k < db.spec_entries().len(),
        entry_contains(db.spec_entries()[k], ip_value(ip)),
    ensures
        db.spec_search(ip) == Some(db.spec_region(db.spec_entries()[k].region_id as int)),
{
    assert forall|i: int|
        0 <= i < db.spec_entries().len() && entry_contains(
            #[trigger] db.spec_entries()[i],
            ip_value(ip),
        ) implies i == k by {
        if i < k {
            db.lemma_wf_disjoint(i, k);
        } else if i > k {
            db.lemma_wf_disjoint(k, i);
        }
    }
}

/// An address strictly below the first range is found nowhere.
pub proof fn lemma_below_first_none(db: CzdbMemory, ip: Ip)
    requires
        db.wf(),
        db.spec_entries().len() > 0,
        ip_value(ip) < db.spec_entries()[0].start,
    ensures
        db.spec_search(ip) is None,
{
    assert forall|i: int| 0 <= i < db.spec_entries().len() implies !entry_contains(
        #[trigger] db.spec_entries()[i],
        ip_value(ip),
    ) by {
        if i > 0 {
            db.lemma_wf_disjoint(0, i);
        }
    }
}

/// An address strictly above the last range is found nowhere.
pub proof fn lemma_above_last_none(db: CzdbMemory, ip: Ip)
    requires
        db.wf(),
        db.spec_entries().len() > 0,
        ip_value(ip) > db.spec_entries()[db.spec_entries().len() - 1].end,
    ensures
        db.spec_search(ip) is None,
{
    assert forall|i: int| 0 <= i < db.spec_entries().len() implies !entry_contains(
        #[trigger] db.spec_entries()[i],
        ip_value(ip),
    ) by {
        if i < db.spec_entries().len() - 1 {
            db.lemma_wf_disjoint(i, db.spec_entries().len() - 1);
        }
    }
}

/// An address of the other family is found nowhere.
pub proof fn lemma_family_mismatch_none(db: CzdbMemory, ip: Ip)
    requires
        !spec_family_matches(db.spec_db_type(), ip),
    ensures
        db.spec_search(ip) is None,
{
}

/// A point query, a batch of one, and a sorted scan of one answer alike:
/// each function's contract ties its answer to the same query value.
pub proof fn lemma_single_query_agreement(
    db: CzdbMemory,
    ip: Ip,
    single: Option<Seq<char>>,
    many0: Option<Seq<char>>,
    scan0: Option<Seq<char>>,
)
    requires
        single == db.spec_search(ip),
        many0 == db.spec_search(ip),
        scan0 == db.spec_search(ip),
    ensures
        single == many0,
        many0 == scan0,
{
}

/// A borrowed answer, made owned, is the owned answer: both contracts
/// tie their text to the same query value.
pub proof fn lemma_ref_vs_owned(
    db: CzdbMemory,
    ip: Ip,
    owned: Option<String>,
    borrowed: Option<&str>,
)
    requires
        opt_text(owned) == db.spec_search(ip),
        opt_text_ref(borrowed) == db.spec_search(ip),
    ensures
        opt_text(owned) == opt_text_ref(borrowed),
{
}

/// Collapsing an address's significant bytes to an integer preserves the
/// byte order the file's indexes are compared by: two addresses of one
/// family order as their integers do.
pub proof fn lemma_ip_value_orders(a: Ip, b: Ip)
    requires
        a.spec_sig_bytes().len() == b.spec_sig_bytes().len(),
    ensures
        bytes_lt_upto(a.spec_sig_bytes(), b.spec_sig_bytes(), a.spec_sig_bytes().len() as int)
            <==> ip_value(a) < ip_value(b),
        bytes_eq_upto(a.spec_sig_bytes(), b.spec_sig_bytes(), a.spec_sig_bytes().len() as int)
            <==> ip_value(a) == ip_value(b),
{
    lemma_be_value_orders(
        a.spec_sig_bytes(),
        b.spec_sig_bytes(),
        a.spec_sig_bytes().len() as int,
    );
    crate::order::lemma_be_value_bound(a.spec_sig_bytes());
    crate::order::lemma_be_value_bound(b.spec_sig_bytes());
    assert(a.spec_sig_bytes().len() <= 16);
    assert(b.spec_sig_bytes().len() <= 16);
    vstd::arithmetic::power2::lemma2_to64();
    vstd::arithmetic::power2::lemma_pow2_adds(64, 64);
    if a.spec_sig_bytes().len() < 16 {
        vstd::arithmetic::power2::lemma_pow2_strictly_increases(
            8 * a.spec_sig_bytes().len(),
            128,
        );
    }
}

/// Over a sorted window, the dense binary search is sound and complete:
/// it answers with the region pointer and length of a block holding the
/// address, and answers nothing only when no block holds it.
pub proof fn lemma_dense_find_in_sorted_window(
    w: Seq<u8>,
    ip: Seq<u8>,
    ty: DbType,
    l: int,
    h: int,
    h0: int,
)
    requires
        0 <= l,
        l <= h + 1,
        h <= h0,
        0 <= h0,
        (h0 + 1) * ty.spec_index_block_len() <= w.len(),
        ip.len() >= ty.spec_bytes_len(),
        dense_window_sorted(w, ty, h0 + 1),
        forall|k: int|
            0 <= k < l ==> bytes_lt_upto(
                #[trigger] dense_block_end(w, ty, k),
                ip,
                ty.spec_bytes_len() as int,
            ),
        forall|k: int|
            h < k <= h0 ==> bytes_lt_upto(
                ip,
                #[trigger] dense_block_start(w, ty, k),
                ty.spec_bytes_len() as int,
            ),
    ensures
        match spec_dense_find(w, ip, ty, l, h) {
            Some(pl) => exists|k: int|
                0 <= k <= h0 && #[trigger] dense_block_holds(w, ty, k, ip) && pl == (
                    le_u32_at(
                        w,
                        k * ty.spec_index_block_len() as int + 2 * ty.spec_bytes_len() as int,
                    ),
                    w[k * ty.spec_index_block_len() as int + 2 * ty.spec_bytes_len() as int + 4],
                ),
            None => forall|k: int| 0 <= k <= h0 ==> !#[trigger] dense_block_holds(w, ty, k, ip),
        },
    decreases h - l + 1,
{
    let bl = ty.spec_bytes_len() as int;
    let bb = ty.spec_index_block_len() as int;
    if l > h {
    } else {
        let m = (l + h) / 2;
        assert((m + 1) * bb <= (h0 + 1) * bb) by (nonlinear_arith)
            requires
                m <= h0,
                bb > 0,
        {
        }
        assert(0 <= m * bb) by (nonlinear_arith)
            requires
                0 <= m,
                bb > 0,
        {
        }
        let s = dense_block_start(w, ty, m);
        let e = dense_block_end(w, ty, m);
        assert(w.subrange(m * bb, m * bb + bl) == s);
        assert(w.subrange(m * bb + bl, m * bb + 2 * bl) == e);
        if !bytes_lt_upto(ip, s, bl) && !bytes_lt_upto(e, ip, bl) {
            assert(dense_block_holds(w, ty, m, ip));
        } else if bytes_lt_upto(ip, s, bl) {
            assert forall|k: int| m - 1 < k <= h0 implies bytes_lt_upto(
                ip,
                #[trigger] dense_block_start(w, ty, k),
                bl,
            ) by {
                if k > m {
                    assert((k + 1) * bb <= (h0 + 1) * bb) by (nonlinear_arith)
                        requires
                            k <= h0,
                            bb > 0,
                    {
                    }
                    crate::order::lemma_bytes_lt_le(ip, s, e, bl);
                    assert(bytes_lt_upto(e, dense_block_start(w, ty, k), bl));
                    crate::order::lemma_bytes_lt_transitive(
                        ip,
                        e,
                        dense_block_start(w, ty, k),
                        bl,
                    );
                }
            }
            if m == 0 {
                assert forall|k: int| 0 <= k <= h0 implies !#[trigger] dense_block_holds(
                    w,
                    ty,
                    k,
                    ip,
                ) by {
                    assert(bytes_lt_upto(ip, dense_block_start(w, ty, k), bl));
                }
            } else {
                lemma_dense_find_in_sorted_window(w, ip, ty, l, m - 1, h0);
            }
        } else {
            assert(bytes_lt_upto(e, ip, bl));
            assert forall|k: int| 0 <= k < m + 1 implies bytes_lt_upto(
                #[trigger] dense_block_end(w, ty, k),
                ip,
                bl,
            ) by {
                if k < m {
                    assert(bytes_lt_upto(dense_block_end(w, ty, k), s, bl));
                    crate::order::lemma_bytes_lt_le(dense_block_end(w, ty, k), s, ip, bl);
                }
            }
            lemma_dense_find_in_sorted_window(w, ip, ty, m + 1, h, h0);
        }
    }
}

/// In a sorted window at most one block holds an address.
pub proof fn lemma_dense_holder_unique(w: Seq<u8>, ip: Seq<u8>, ty: DbType, i: int, j: int, n: int)
    requires
        dense_window_sorted(w, ty, n),
        n * ty.spec_index_block_len() <= w.len(),
        0 <= i < n,
        0 <= j < n,
        ip.len() >= ty.spec_bytes_len(),
        dense_block_holds(w, ty, i, ip),
        dense_block_holds(w, ty, j, ip),
    ensures
        i == j,
{
    let bl = ty.spec_bytes_len() as int;
    let bb = ty.spec_index_block_len() as int;
    assert((i + 1) * bb <= n * bb && 0 <= i * bb) by (nonlinear_arith)
        requires
            0 <= i < n,
            bb > 0,
    {
    }
    assert((j + 1) * bb <= n * bb && 0 <= j * bb) by (nonlinear_arith)
        requires
            0 <= j < n,
            bb > 0,
    {
    }
    if i < j {
        crate::order::lemma_bytes_lt_le(
            dense_block_end(w, ty, i),
            dense_block_start(w, ty, j),
            ip,
            bl,
        );
    } else if j < i {
        crate::order::lemma_bytes_lt_le(
            dense_block_end(w, ty, j),
            dense_block_start(w, ty, i),
            ip,
            bl,
        );
    }
}

/// The dense region of an accepted file, taken as one window, ascends
/// disjointly in byte order: the integer checks made while building the
/// in-memory index carry over to the byte comparisons the window search
/// uses.
#[verifier::rlimit(60)]
pub proof fn lemma_accepted_index_window_sorted(bindata: Seq<u8>, mm: MetaModel)
    requires
        spec_build_index(bindata, mm) matches Ok(_),
    ensures
        dense_window_sorted(
            bindata.subrange(
                mm.start_index as int,
                mm.end_index as int + mm.db_type.spec_index_block_len() as int,
            ),
            mm.db_type,
            (mm.end_index - mm.start_index) as int / mm.db_type.spec_index_block_len() as int + 1,
        ),
{
    let ty = mm.db_type;
    let bl = ty.spec_bytes_len() as int;
    let bb = ty.spec_index_block_len() as int;
    let start = mm.start_index as int;
    let end = mm.end_index as int;
    let count = (end - start) / bb + 1;
    let w = bindata.subrange(start, end + bb);
    lemma_built_entries_invariants(bindata, mm, start, count, None);
    let es = spec_build_entries(bindata, mm, start, count, None)->Ok_0;
    vstd::arithmetic::div_mod::lemma_fundamental_div_mod(end - start, bb);
    assert(2 * bl < bb);
    assert forall|k: int| 0 <= k < count implies {
        &&& dense_block_start(w, ty, k) == bindata.subrange(start + k * bb, start + k * bb + bl)
        &&& dense_block_end(w, ty, k) == bindata.subrange(
            start + k * bb + bl,
            start + k * bb + 2 * bl,
        )
        &&& (#[trigger] es[k]).0 as int == be_value(dense_block_start(w, ty, k))
        &&& es[k].1 as int == be_value(dense_block_end(w, ty, k))
    } by {
        assert(k * bb + bb <= (count - 1) * bb + bb && 0 <= k * bb) by (nonlinear_arith)
            requires
                0 <= k <= count - 1,
                bb > 0,
        {
        }
        assert((count - 1) * bb == end - start) by (nonlinear_arith)
            requires
                count == (end - start) / bb + 1,
                (end - start) % bb == 0,
                end >= start,
                bb > 0,
        {
            vstd::arithmetic::div_mod::lemma_fundamental_div_mod(end - start, bb);
        }
        assert(dense_block_start(w, ty, k) =~= bindata.subrange(
            start + k * bb,
            start + k * bb + bl,
        ));
        assert(dense_block_end(w, ty, k) =~= bindata.subrange(
            start + k * bb + bl,
            start + k * bb + 2 * bl,
        ));
        crate::order::lemma_be_value_bound(dense_block_start(w, ty, k));
        crate::order::lemma_be_value_bound(dense_block_end(w, ty, k));
        vstd::arithmetic::power2::lemma2_to64();
        vstd::arithmetic::power2::lemma_pow2_adds(64, 64);
        if bl < 16 {
            vstd::arithmetic::power2::lemma_pow2_strictly_increases(8 * bl as nat, 128);
        }
    }
    assert forall|k: int| 0 <= k < count implies !bytes_lt_upto(
        #[trigger] dense_block_end(w, ty, k),
        dense_block_start(w, ty, k),
        bl,
    ) by {
        crate::order::lemma_be_value_orders(
            dense_block_end(w, ty, k),
            dense_block_start(w, ty, k),
            bl,
        );
        assert(es[k].0 <= es[k].1);
    }
    assert forall|i: int, j: int| 0 <= i < j < count implies bytes_lt_upto(
        #[trigger] dense_block_end(w, ty, i),
        #[trigger] dense_block_start(w, ty, j),
        bl,
    ) by {
        crate::order::lemma_be_value_orders(
            dense_block_end(w, ty, i),
            dense_block_start(w, ty, j),
            bl,
        );
        assert(es[i].1 < es[j].0);
    }
}

/// Over an accepted file's whole dense region, the window binary search
/// is sound and complete: it answers with the region pointer and length
/// of a block whose range holds the address, and answers nothing only
/// when no block's range does.
pub proof fn lemma_accepted_index_search_complete(bindata: Seq<u8>, mm: MetaModel, ip: Seq<u8>)
    requires
        spec_build_index(bindata, mm) matches Ok(_),
        ip.len() >= mm.db_type.spec_bytes_len(),
    ensures
        ({
            let ty = mm.db_type;
            let bb = ty.spec_index_block_len() as int;
            let w = bindata.subrange(mm.start_index as int, mm.end_index as int + bb);
            let h0 = (mm.end_index - mm.start_index) as int / bb;
            match spec_dense_find(w, ip, ty, 0, h0) {
                Some(pl) => exists|k: int|
                    0 <= k <= h0 && #[trigger] dense_block_holds(w, ty, k, ip) && pl == (
                        le_u32_at(w, k * bb + 2 * ty.spec_bytes_len() as int),
                        w[k * bb + 2 * ty.spec_bytes_len() as int + 4],
                    ),
                None => forall|k: int| 0 <= k <= h0 ==> !#[trigger] dense_block_holds(w, ty, k, ip),
            }
        }),
{
    let ty = mm.db_type;
    let bb = ty.spec_index_block_len() as int;
    let start = mm.start_index as int;
    let end = mm.end_index as int;
    let w = bindata.subrange(start, end + bb);
    let h0 = (end - start) / bb;
    lemma_accepted_index_window_sorted(bindata, mm);
    assert((h0 + 1) * bb <= w.len()) by (nonlinear_arith)
        requires
            h0 == (end - start) / bb,
            (end - start) % bb == 0,
            end >= start,
            bb > 0,
            w.len() == end + bb - start,
    {
        vstd::arithmetic::div_mod::lemma_fundamental_div_mod(end - start, bb);
    }
    lemma_dense_find_in_sorted_window(w, ip, ty, 0, h0, h0);
}

/// The dense block a sparse pointer addresses, as a block index.
pub open spec fn sp_block(mm: MetaModel, i: int) -> int {
    (mm.header_ptr[i] - mm.start_index) / mm.db_type.spec_index_block_len() as int
}

/// The sparse table of a metadata value, as the lookup relies on it:
/// one pointer per entry, a non-empty table whose 16-byte keys ascend
/// strictly on the significant prefix, every pointer with room for one
/// index block below the 32-bit limit.
pub open spec fn meta_model_wf(mm: MetaModel) -> bool {
    &&& mm.header_sip.len() == mm.header_ptr.len()
    &&& 0 < mm.header_sip.len()
    &&& forall|i: int| 0 <= i < mm.header_sip.len() ==> (#[trigger] mm.header_sip[i]).len() == 16
    &&& forall|i: int, j: int|
        0 <= i < j < mm.header_sip.len() ==> bytes_lt_upto(
            #[trigger] mm.header_sip[i],
            #[trigger] mm.header_sip[j],
            mm.db_type.spec_bytes_len() as int,
        )
    &&& forall|i: int|
        0 <= i < mm.header_ptr.len() ==> #[trigger] mm.header_ptr[i]
            + mm.db_type.spec_index_block_len() <= u32::MAX
}

/// The sparse header describes the dense index: every pointer addresses
/// a block, the first pointer the first block, each entry's key is its
/// block's first key, and at most one block follows the last pointer's.
pub open spec fn sparse_consistent(bindata: Seq<u8>, mm: MetaModel) -> bool {
    let bb = mm.db_type.spec_index_block_len() as int;
    let start = mm.start_index as int;
    let end = mm.end_index as int;
    let h0 = (end - start) / bb;
    let w = bindata.subrange(start, end + bb);
    &&& forall|i: int|
        0 <= i < mm.header_ptr.len() ==> start <= #[trigger] mm.header_ptr[i]
            && (mm.header_ptr[i] - start) % bb == 0 && sp_block(mm, i) <= h0
    &&& mm.header_ptr[0] == mm.start_index
    &&& forall|i: int|
        0 <= i < mm.header_ptr.len() ==> bytes_eq_upto(
            #[trigger] mm.header_sip[i],
            dense_block_start(w, mm.db_type, sp_block(mm, i)),
            mm.db_type.spec_bytes_len() as int,
        )
    &&& sp_block(mm, mm.header_ptr.len() - 1) >= h0 - 1
}

/// A block index of an accepted file addresses keys of the significant
/// length inside the window.
proof fn lemma_block_key_lengths(bindata: Seq<u8>, mm: MetaModel, k: int)
    requires
        spec_build_index(bindata, mm) matches Ok(_),
        0 <= k <= (mm.end_index - mm.start_index) as int / mm.db_type.spec_index_block_len() as int,
    ensures
        ({
            let bb = mm.db_type.spec_index_block_len() as int;
            let bl = mm.db_type.spec_bytes_len() as int;
            let w = bindata.subrange(mm.start_index as int, mm.end_index as int + bb);
            &&& dense_block_start(w, mm.db_type, k).len() == bl
            &&& dense_block_end(w, mm.db_type, k).len() == bl
        }),
{
    let bb = mm.db_type.spec_index_block_len() as int;
    let start = mm.start_index as int;
    let end = mm.end_index as int;
    let h0 = (end - start) / bb;
    assert(k * bb + bb <= h0 * bb + bb && 0 <= k * bb) by (nonlinear_arith)
        requires
            0 <= k <= h0,
            bb > 0,
    {
    }
    assert(h0 * bb == end - start) by (nonlinear_arith)
        requires
            h0 == (end - start) / bb,
            (end - start) % bb == 0,
            end >= start,
            bb > 0,
    {
        vstd::arithmetic::div_mod::lemma_fundamental_div_mod(end - start, bb);
    }
    assert(2 * (mm.db_type.spec_bytes_len() as int) < bb);
}

/// Every block before a sparse entry's own block ends under any address
/// at or above that entry's key.
proof fn lemma_blocks_below_entry(bindata: Seq<u8>, mm: MetaModel, ip: Seq<u8>, i: int, k: int)
    requires
        meta_model_wf(mm),
        spec_build_index(bindata, mm) matches Ok(_),
        sparse_consistent(bindata, mm),
        ip.len() >= mm.db_type.spec_bytes_len(),
        0 <= i < mm.header_sip.len(),
        !bytes_lt_upto(ip, mm.header_sip[i], mm.db_type.spec_bytes_len() as int),
        0 <= k < sp_block(mm, i),
    ensures
        ({
            let bb = mm.db_type.spec_index_block_len() as int;
            let w = bindata.subrange(mm.start_index as int, mm.end_index as int + bb);
            bytes_lt_upto(dense_block_end(w, mm.db_type, k), ip, mm.db_type.spec_bytes_len() as int)
        }),
{
    let ty = mm.db_type;
    let bb = ty.spec_index_block_len() as int;
    let bl = ty.spec_bytes_len() as int;
    let w = bindata.subrange(mm.start_index as int, mm.end_index as int + bb);
    let b = sp_block(mm, i);
    lemma_accepted_index_window_sorted(bindata, mm);
    lemma_block_key_lengths(bindata, mm, k);
    lemma_block_key_lengths(bindata, mm, b);
    assert(bytes_lt_upto(dense_block_end(w, ty, k), dense_block_start(w, ty, b), bl));
    assert(!bytes_lt_upto(ip, dense_block_start(w, ty, b), bl)) by {
        if bytes_lt_upto(ip, dense_block_start(w, ty, b), bl) {
            crate::order::lemma_bytes_lt_eq_right(ip, dense_block_start(w, ty, b), mm.header_sip[i], bl);
        }
    }
    crate::order::lemma_bytes_lt_le(dense_block_end(w, ty, k), dense_block_start(w, ty, b), ip, bl);
}

/// Every block after a sparse entry's own block starts above any address
/// at or below that entry's key.
proof fn lemma_blocks_above_entry(bindata: Seq<u8>, mm: MetaModel, ip: Seq<u8>, i: int, k: int)
    requires
        meta_model_wf(mm),
        spec_build_index(bindata, mm) matches Ok(_),
        sparse_consistent(bindata, mm),
        ip.len() >= mm.db_type.spec_bytes_len(),
        0 <= i < mm.header_sip.len(),
        !bytes_lt_upto(
            dense_block_start(
                bindata.subrange(
                    mm.start_index as int,
                    mm.end_index as int + mm.db_type.spec_index_block_len() as int,
                ),
                mm.db_type,
                sp_block(mm, i),
            ),
            ip,
            mm.db_type.spec_bytes_len() as int,
        ),
        sp_block(mm, i) < k <= (mm.end_index - mm.start_index) as int
            / mm.db_type.spec_index_block_len() as int,
    ensures
        ({
            let bb = mm.db_type.spec_index_block_len() as int;
            let w = bindata.subrange(mm.start_index as int, mm.end_index as int + bb);
            bytes_lt_upto(ip, dense_block_start(w, mm.db_type, k), mm.db_type.spec_bytes_len() as int)
        }),
{
    let ty = mm.db_type;
    let bb = ty.spec_index_block_len() as int;
    let bl = ty.spec_bytes_len() as int;
    let w = bindata.subrange(mm.start_index as int, mm.end_index as int + bb);
    let b = sp_block(mm, i);
    lemma_accepted_index_window_sorted(bindata, mm);
    lemma_block_key_lengths(bindata, mm, k);
    lemma_block_key_lengths(bindata, mm, b);
    assert(!bytes_lt_upto(dense_block_end(w, ty, b), dense_block_start(w, ty, b), bl));
    assert(bytes_lt_upto(dense_block_end(w, ty, b), dense_block_start(w, ty, k), bl));
    assert(!bytes_lt_upto(dense_block_end(w, ty, b), ip, bl)) by {
        if bytes_lt_upto(dense_block_end(w, ty, b), ip, bl) {
            crate::order::lemma_bytes_le_lt(
                dense_block_start(w, ty, b),
                dense_block_end(w, ty, b),
                ip,
                bl,
            );
        }
    }
    crate::order::lemma_bytes_le_lt(ip, dense_block_end(w, ty, b), dense_block_start(w, ty, k), bl);
}

/// The sparse lookup brackets the dense search: on a consistent file, a
/// returned window spans whole blocks, every block before it ends under
/// the queried address, and every block after it starts above it — so
/// scanning the window alone loses nothing.
#[verifier::rlimit(60)]
pub proof fn lemma_sparse_window_brackets(
    bindata: Seq<u8>,
    mm: MetaModel,
    ip: Seq<u8>,
    sptr: u32,
    eptr: u32,
)
    requires
        meta_model_wf(mm),
        spec_build_index(bindata, mm) matches Ok(_),
        sparse_consistent(bindata, mm),
        ip.len() == 16,
        spec_search_in_header(mm, ip) == Some((sptr, eptr)),
    ensures
        ({
            let bb = mm.db_type.spec_index_block_len() as int;
            let bl = mm.db_type.spec_bytes_len() as int;
            let start = mm.start_index as int;
            let end = mm.end_index as int;
            let h0 = (end - start) / bb;
            let w = bindata.subrange(start, end + bb);
            let blo = (sptr - start) / bb;
            let bhi = (eptr - start) / bb;
            &&& start <= sptr && (sptr - start) % bb == 0 && blo <= h0
            &&& sptr <= eptr && (eptr - start) % bb == 0 && bhi <= h0 + 1
            &&& forall|k: int|
                0 <= k < blo ==> bytes_lt_upto(#[trigger] dense_block_end(w, mm.db_type, k), ip, bl)
            &&& forall|k: int|
                bhi < k <= h0 ==> bytes_lt_upto(
                    ip,
                    #[trigger] dense_block_start(w, mm.db_type, k),
                    bl,
                )
        }),
{
    let ty = mm.db_type;
    let bb = ty.spec_index_block_len() as int;
    let bl = ty.spec_bytes_len() as int;
    let start = mm.start_index as int;
    let end = mm.end_index as int;
    let h0 = (end - start) / bb;
    let w = bindata.subrange(start, end + bb);
    let n = mm.header_sip.len() as int;
    assert forall|i: int, j: int| 0 <= i <= j < n implies #[trigger] sp_block(mm, i)
        <= #[trigger] sp_block(mm, j) by {
        if i < j && sp_block(mm, i) > sp_block(mm, j) {
            lemma_block_key_lengths(bindata, mm, sp_block(mm, i));
            lemma_block_key_lengths(bindata, mm, sp_block(mm, j));
            lemma_accepted_index_window_sorted(bindata, mm);
            assert(bytes_lt_upto(mm.header_sip[i], mm.header_sip[j], bl));
            crate::order::lemma_bytes_eq_lt_left(
                dense_block_start(w, ty, sp_block(mm, i)),
                mm.header_sip[i],
                mm.header_sip[j],
                bl,
            );
            crate::order::lemma_bytes_lt_eq_right(
                dense_block_start(w, ty, sp_block(mm, i)),
                mm.header_sip[j],
                dense_block_start(w, ty, sp_block(mm, j)),
                bl,
            );
            assert(bytes_lt_upto(
                dense_block_end(w, ty, sp_block(mm, j)),
                dense_block_start(w, ty, sp_block(mm, i)),
                bl,
            ));
            crate::order::lemma_bytes_le_lt(
                dense_block_start(w, ty, sp_block(mm, j)),
                dense_block_end(w, ty, sp_block(mm, j)),
                dense_block_start(w, ty, sp_block(mm, i)),
                bl,
            );
            crate::order::lemma_bytes_order_trichotomy(
                dense_block_start(w, ty, sp_block(mm, i)),
                dense_block_start(w, ty, sp_block(mm, j)),
                bl,
            );
            assert(false);
        }
    }
    if exists|m: int| 0 <= m < n && bytes_eq_upto(#[trigger] mm.header_sip[m], ip, bl) {
        let m = choose|m: int| 0 <= m < n && bytes_eq_upto(#[trigger] mm.header_sip[m], ip, bl);
        let ilo: int = if m > 0 {
            m - 1
        } else {
            0
        };
        assert(sptr == mm.header_ptr[ilo] && eptr == mm.header_ptr[m]);
        let blo = sp_block(mm, ilo);
        let bhi = sp_block(mm, m);
        assert((sptr - start) / bb == blo && (eptr - start) / bb == bhi);
        assert(sptr <= eptr) by {
            assert(blo <= bhi);
            assert(sptr - start == blo * bb && eptr - start == bhi * bb);
            assert(blo * bb <= bhi * bb) by (nonlinear_arith)
                requires
                    blo <= bhi,
                    bb > 0,
            {
            }
        }
        assert(!bytes_lt_upto(ip, mm.header_sip[ilo], bl)) by {
            if m > 0 {
                assert(bytes_lt_upto(mm.header_sip[m - 1], mm.header_sip[m], bl));
                crate::order::lemma_bytes_lt_eq_right(
                    mm.header_sip[m - 1],
                    mm.header_sip[m],
                    ip,
                    bl,
                );
            }
            crate::order::lemma_bytes_order_trichotomy(ip, mm.header_sip[ilo], bl);
        }
        assert forall|k: int| 0 <= k < blo implies bytes_lt_upto(
            #[trigger] dense_block_end(w, ty, k),
            ip,
            bl,
        ) by {
            lemma_blocks_below_entry(bindata, mm, ip, ilo, k);
        }
        assert(!bytes_lt_upto(dense_block_start(w, ty, bhi), ip, bl)) by {
            lemma_block_key_lengths(bindata, mm, bhi);
            if bytes_lt_upto(dense_block_start(w, ty, bhi), ip, bl) {
                crate::order::lemma_bytes_eq_lt_left(
                    mm.header_sip[m],
                    dense_block_start(w, ty, bhi),
                    ip,
                    bl,
                );
                crate::order::lemma_bytes_order_trichotomy(mm.header_sip[m], ip, bl);
            }
        }
        assert forall|k: int| bhi < k <= h0 implies bytes_lt_upto(
            ip,
            #[trigger] dense_block_start(w, ty, k),
            bl,
        ) by {
            lemma_blocks_above_entry(bindata, mm, ip, m, k);
        }
    } else {
        let l = lower_count(mm.header_sip, ip, bl);
        lemma_lower_count_splits(mm.header_sip, ip, bl);
        assert(l != 0);
        if l < n {
            assert(sptr == mm.header_ptr[l - 1] && eptr == mm.header_ptr[l]);
            let blo = sp_block(mm, l - 1);
            let bhi = sp_block(mm, l);
            assert(sptr <= eptr) by {
                assert(blo <= bhi);
                assert(blo * bb <= bhi * bb) by (nonlinear_arith)
                    requires
                        blo <= bhi,
                        bb > 0,
                {
                }
            }
            assert(!bytes_lt_upto(ip, mm.header_sip[l - 1], bl)) by {
                crate::order::lemma_bytes_order_trichotomy(ip, mm.header_sip[l - 1], bl);
            }
            assert forall|k: int| 0 <= k < blo implies bytes_lt_upto(
                #[trigger] dense_block_end(w, ty, k),
                ip,
                bl,
            ) by {
                lemma_blocks_below_entry(bindata, mm, ip, l - 1, k);
            }
            assert(!bytes_lt_upto(dense_block_start(w, ty, bhi), ip, bl)) by {
                lemma_block_key_lengths(bindata, mm, bhi);
                if bytes_lt_upto(dense_block_start(w, ty, bhi), ip, bl) {
                    crate::order::lemma_bytes_lt_eq_right(
                        ip,
                        mm.header_sip[l],
                        dense_block_start(w, ty, bhi),
                        bl,
                    );
                    crate::order::lemma_bytes_order_trichotomy(
                        ip,
                        dense_block_start(w, ty, bhi),
                        bl,
                    );
                }
            }
            assert forall|k: int| bhi < k <= h0 implies bytes_lt_upto(
                ip,
                #[trigger] dense_block_start(w, ty, k),
                bl,
            ) by {
                lemma_blocks_above_entry(bindata, mm, ip, l, k);
            }
        } else {
            assert(sptr == mm.header_ptr[n - 1]);
            let blo = sp_block(mm, n - 1);
            assert(eptr == (mm.header_ptr[n - 1] + bb) as u32);
            assert(eptr == sptr + bb) by {
                assert(mm.header_ptr[n - 1] + bb <= u32::MAX);
            }
            assert((eptr - start) % bb == 0 && (eptr - start) / bb == blo + 1) by {
                assert(sptr - start == blo * bb);
                assert((blo * bb + bb) % bb == 0 && (blo * bb + bb) / bb == blo + 1)
                    by (nonlinear_arith)
                    requires
                        bb > 0,
                        blo >= 0,
                {
                }
            }
            assert(blo + 1 <= h0 + 1);
            assert(!bytes_lt_upto(ip, mm.header_sip[n - 1], bl)) by {
                crate::order::lemma_bytes_order_trichotomy(ip, mm.header_sip[n - 1], bl);
            }
            assert forall|k: int| 0 <= k < blo implies bytes_lt_upto(
                #[trigger] dense_block_end(w, ty, k),
                ip,
                bl,
            ) by {
                lemma_blocks_below_entry(bindata, mm, ip, n - 1, k);
            }
            assert(blo >= h0 - 1);
        }
    }
}

/// On a consistent file, searching only the bracketed window answers for
/// the whole dense index: the windowed binary search yields the data of
/// a block holding the address, and yields nothing only when no block of
/// the index holds it. The window must stay among real blocks: a
/// trailing fallback window that reaches past the last block is out.
#[verifier::rlimit(100)]
pub proof fn lemma_windowed_search_loses_nothing(
    bindata: Seq<u8>,
    mm: MetaModel,
    ip: Seq<u8>,
    sptr: u32,
    eptr: u32,
)
    requires
        meta_model_wf(mm),
        spec_build_index(bindata, mm) matches Ok(_),
        sparse_consistent(bindata, mm),
        ip.len() == 16,
        spec_search_in_header(mm, ip) == Some((sptr, eptr)),
        (eptr - mm.start_index) / mm.db_type.spec_index_block_len() as int <= (mm.end_index
            - mm.start_index) as int / mm.db_type.spec_index_block_len() as int,
        eptr as int + mm.db_type.spec_index_block_len() as int <= bindata.len(),
    ensures
        ({
            let ty = mm.db_type;
            let bb = ty.spec_index_block_len() as int;
            let bl = ty.spec_bytes_len() as int;
            let start = mm.start_index as int;
            let end = mm.end_index as int;
            let h0 = (end - start) / bb;
            let w = bindata.subrange(start, end + bb);
            let wp = bindata.subrange(sptr as int, eptr as int + bb);
            match spec_dense_find(wp, ip, ty, 0, (eptr - sptr) as int / bb) {
                Some(pl) => exists|k: int|
                    0 <= k <= h0 && #[trigger] dense_block_holds(w, ty, k, ip) && pl == (
                        le_u32_at(w, k * bb + 2 * bl),
                        w[k * bb + 2 * bl + 4],
                    ),
                None => forall|k: int| 0 <= k <= h0 ==> !#[trigger] dense_block_holds(w, ty, k, ip),
            }
        }),
{
    let ty = mm.db_type;
    let bb = ty.spec_index_block_len() as int;
    let bl = ty.spec_bytes_len() as int;
    let start = mm.start_index as int;
    let end = mm.end_index as int;
    let h0 = (end - start) / bb;
    let w = bindata.subrange(start, end + bb);
    let wp = bindata.subrange(sptr as int, eptr as int + bb);
    lemma_sparse_window_brackets(bindata, mm, ip, sptr, eptr);
    lemma_accepted_index_window_sorted(bindata, mm);
    let blo = (sptr - start) / bb;
    let bhi = (eptr - start) / bb;
    assert(sptr - start == blo * bb && eptr - start == bhi * bb) by (nonlinear_arith)
        requires
            blo == (sptr - start) / bb,
            bhi == (eptr - start) / bb,
            (sptr - start) % bb == 0,
            (eptr - start) % bb == 0,
            start <= sptr <= eptr,
            bb > 0,
    {
        vstd::arithmetic::div_mod::lemma_fundamental_div_mod(sptr - start, bb);
        vstd::arithmetic::div_mod::lemma_fundamental_div_mod(eptr - start, bb);
    }
    let hw = bhi - blo;
    assert((eptr - sptr) as int / bb == hw) by (nonlinear_arith)
        requires
            sptr - start == blo * bb,
            eptr - start == bhi * bb,
            hw == bhi - blo,
            bb > 0,
            blo <= bhi,
    {
        vstd::arithmetic::div_mod::lemma_fundamental_div_mod(eptr - sptr, bb);
        assert(eptr - sptr == hw * bb) by (nonlinear_arith)
            requires
                sptr - start == blo * bb,
                eptr - start == bhi * bb,
                hw == bhi - blo,
        {
        }
    }
    assert(h0 * bb == end - start) by (nonlinear_arith)
        requires
            h0 == (end - start) / bb,
            (end - start) % bb == 0,
            end >= start,
            bb > 0,
    {
        vstd::arithmetic::div_mod::lemma_fundamental_div_mod(end - start, bb);
    }
    assert forall|j: int| 0 <= j <= hw implies {
        &&& #[trigger] dense_block_start(wp, ty, j) == dense_block_start(w, ty, blo + j)
        &&& dense_block_end(wp, ty, j) == dense_block_end(w, ty, blo + j)
        &&& le_u32_at(wp, j * bb + 2 * bl) == le_u32_at(w, (blo + j) * bb + 2 * bl)
        &&& wp[j * bb + 2 * bl + 4] == w[(blo + j) * bb + 2 * bl + 4]
    } by {
        assert((blo + j) * bb == blo * bb + j * bb && 0 <= j * bb && (j + 1) * bb == j * bb + bb
            && (blo + j + 1) * bb == blo * bb + j * bb + bb) by (nonlinear_arith)
            requires
                0 <= j,
                0 <= blo,
                bb > 0,
        {
        }
        assert((blo + j + 1) * bb <= (h0 + 1) * bb) by (nonlinear_arith)
            requires
                blo + j <= h0,
                bb > 0,
        {
        }
        assert(2 * bl + 5 == bb);
        assert(dense_block_start(wp, ty, j) =~= dense_block_start(w, ty, blo + j));
        assert(dense_block_end(wp, ty, j) =~= dense_block_end(w, ty, blo + j));
        assert(wp.subrange(j * bb + 2 * bl, j * bb + 2 * bl + 4) =~= w.subrange(
            (blo + j) * bb + 2 * bl,
            (blo + j) * bb + 2 * bl + 4,
        ));
    }
    assert(dense_window_sorted(wp, ty, hw + 1)) by {
        assert forall|k: int| 0 <= k < hw + 1 implies !bytes_lt_upto(
            #[trigger] dense_block_end(wp, ty, k),
            dense_block_start(wp, ty, k),
            bl,
        ) by {
            assert(dense_block_end(wp, ty, k) == dense_block_end(w, ty, blo + k));
        }
        assert forall|i: int, j: int| 0 <= i < j < hw + 1 implies bytes_lt_upto(
            #[trigger] dense_block_end(wp, ty, i),
            #[trigger] dense_block_start(wp, ty, j),
            bl,
        ) by {
            assert(dense_block_end(wp, ty, i) == dense_block_end(w, ty, blo + i));
            assert(dense_block_start(wp, ty, j) == dense_block_start(w, ty, blo + j));
        }
    }
    assert((hw + 1) * bb <= wp.len()) by (nonlinear_arith)
        requires
            eptr - sptr == hw * bb,
            wp.len() == eptr + bb - sptr,
            bb > 0,
            hw >= 0,
    {
    }
    lemma_dense_find_in_sorted_window(wp, ip, ty, 0, hw, hw);
    match spec_dense_find(wp, ip, ty, 0, hw) {
        Some(pl) => {
            let j = choose|j: int|
                0 <= j <= hw && #[trigger] dense_block_holds(wp, ty, j, ip) && pl == (
                    le_u32_at(wp, j * bb + 2 * bl),
                    wp[j * bb + 2 * bl + 4],
                );
            assert(dense_block_holds(w, ty, blo + j, ip));
            assert(pl == (le_u32_at(w, (blo + j) * bb + 2 * bl), w[(blo + j) * bb + 2 * bl + 4]));
        },
        None => {
            assert forall|k: int| 0 <= k <= h0 implies !#[trigger] dense_block_holds(
                w,
                ty,
                k,
                ip,
            ) by {
                if k < blo {
                    assert(bytes_lt_upto(dense_block_end(w, ty, k), ip, bl));
                } else if k > bhi {
                    assert(bytes_lt_upto(ip, dense_block_start(w, ty, k), bl));
                } else {
                    assert(!dense_block_holds(wp, ty, k - blo, ip));
                    assert(dense_block_start(wp, ty, k - blo) == dense_block_start(w, ty, k));
                    assert(dense_block_end(wp, ty, k - blo) == dense_block_end(w, ty, k));
                }
            }
        },
    }
}

/// A well-formed parsed metadata value has a well-formed model: the
/// sparse-table shape the searches rely on carries over.
pub proof fn lemma_wf_carries_to_model(m: DbMeta)
    requires
        m.wf(),
    ensures
        meta_model_wf(m.model()),
{
    let mm = m.model();
    assert(forall|i: int|
        0 <= i < mm.header_sip.len() ==> #[trigger] mm.header_sip[i] == m.header_sip@[i]@);
    assert forall|i: int, j: int| 0 <= i < j < mm.header_sip.len() implies bytes_lt_upto(
        #[trigger] mm.header_sip[i],
        #[trigger] mm.header_sip[j],
        mm.db_type.spec_bytes_len() as int,
    ) by {
        assert(mm.header_sip[i] == m.header_sip@[i]@ && mm.header_sip[j] == m.header_sip@[j]@);
    }
}

} // verus!
