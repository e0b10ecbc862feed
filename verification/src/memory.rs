//! The in-memory backend: a prebuilt, deduplicated index.
//!
//! At open, the entire dense index is walked once. Each block becomes an
//! entry holding its two IP keys collapsed to integers and an id into a
//! region pool: one contiguous text buffer with a span table, where
//! blocks pointing at the same record bytes share one span. A point
//! query is a single binary search; a batch query can sort its inputs
//! and stream them against the entries in one forward pass.

use vstd::prelude::*;
use vstd::pervasive::VecAdditionalExecFns;
use vstd::slice::slice_subrange;
use vstd::string::*;
use std::collections::HashMap;
use crate::{CzError, DbType, Ip};
use crate::crypt::{base64_decoding, decode_aes_key};
use crate::meta::{le_u32_at, spec_read_hyper_header, read_hyper_header, parse_meta_from_bytes,
    spec_parse_meta, DbMeta, MetaModel};
use crate::order::{be_value, be_value_of};
use crate::record::{decode_region_from_bytes, spec_region_text};
use crate::search::spec_family_matches;

verus! {

broadcast use vstd::slice::axiom_spec_len, vstd::std_specs::hash::group_hash_axioms;

/// The integer a query address collapses to: its significant bytes read
/// as one big-endian number.
pub open spec fn ip_value(ip: Ip) -> u128 {
    be_value(ip.spec_sig_bytes()) as u128
}

/// Collapse an address's significant bytes to an integer.
pub fn ip_sig_value(ip: &Ip) -> (r: u128)
    ensures
        r == ip_value(*ip),
{
    match ip {
        Ip::V4(o) => {
            let r = be_value_of(o.as_slice(), 0, 4);
            proof {
                assert(o@.subrange(0, 4) =~= o@);
            }
            r
        },
        Ip::V6(o) => {
            let r = be_value_of(o.as_slice(), 0, 16);
            proof {
                assert(o@.subrange(0, 16) =~= o@);
            }
            r
        },
    }
}

/// One slice of the region pool's text buffer, in characters.
#[derive(Debug, Clone, Copy)]
pub struct RegionSpan {
    pub start: usize,
    pub len: usize,
}

/// Interned region text: one buffer, shared spans.
#[derive(Debug)]
pub struct RegionPool {
    data: String,
    spans: Vec<RegionSpan>,
}

impl RegionPool {
    /// The number of interned regions.
    pub closed spec fn spec_len(&self) -> int {
        self.spans@.len() as int
    }

    /// The text of region `id`.
    pub closed spec fn spec_text(&self, id: int) -> Seq<char> {
        self.data@.subrange(
            self.spans@[id].start as int,
            self.spans@[id].start as int + self.spans@[id].len as int,
        )
    }

    /// Every span lies within the buffer.
    pub closed spec fn wf(&self) -> bool {
        forall|i: int|
            0 <= i < self.spans@.len() ==> (#[trigger] self.spans@[i]).start + self.spans@[i].len
                <= self.data@.len()
    }

    /// An empty pool.
    pub fn new() -> (r: RegionPool)
        ensures
            r.wf(),
            r.spec_len() == 0,
    {
        RegionPool { data: String::new(), spans: Vec::new() }
    }

    /// Append one region's text, returning its id.
    pub fn intern(&mut self, text: &str) -> (id: usize)
        requires
            old(self).wf(),
        ensures
            final(self).wf(),
            id == old(self).spec_len(),
            final(self).spec_len() == old(self).spec_len() + 1,
            final(self).spec_text(id as int) == text@,
            forall|i: int| 0 <= i < id ==> final(self).spec_text(i) == old(self).spec_text(i),
    {
        let start = self.data.as_str().unicode_len();
        let len = text.unicode_len();
        let id = self.spans.len();
        self.data.append(text);
        let total = self.data.as_str().unicode_len();
        self.spans.push(RegionSpan { start, len });
        proof {
            assert(self.spec_text(id as int) =~= text@);
            assert forall|i: int| 0 <= i < id implies self.spec_text(i) == old(self).spec_text(
                i,
            ) by {
                assert(self.spans@[i] == old(self).spans@[i]);
                assert(self.spec_text(i) =~= old(self).spec_text(i));
            }
        }
        id
    }

    /// Borrow the text of region `region_id`.
    pub fn get(&self, region_id: usize) -> (r: &str)
        requires
            self.wf(),
            region_id < self.spec_len(),
        ensures
            r@ == self.spec_text(region_id as int),
    {
        let total = self.data.as_str().unicode_len();
        let span = self.spans[region_id];
        self.data.as_str().substring_char(span.start, span.start + span.len)
    }
}

/// One dense block, materialized: its inclusive key range as integers
/// and the id of its region text.
#[derive(Debug, Clone, Copy)]
pub struct MemEntry {
    pub start: u128,
    pub end: u128,
    pub region_id: usize,
}

/// The prebuilt index: entries in ascending, pairwise-disjoint key
/// order, over a region pool.
#[derive(Debug)]
pub struct MemoryIndex {
    entries: Vec<MemEntry>,
    regions: RegionPool,
}

impl MemoryIndex {
    /// The entries as a sequence.
    pub closed spec fn spec_entries(&self) -> Seq<MemEntry> {
        self.entries@
    }

    /// The text of region `id`.
    pub closed spec fn spec_region(&self, id: int) -> Seq<char> {
        self.regions.spec_text(id)
    }

    /// Entries are ordered and disjoint, and every region id resolves.
    pub closed spec fn wf(&self) -> bool {
        &&& self.regions.wf()
        &&& forall|i: int|
            0 <= i < self.entries@.len() ==> (#[trigger] self.entries@[i]).start
                <= self.entries@[i].end
        &&& forall|i: int, j: int|
            0 <= i < j < self.entries@.len() ==> (#[trigger] self.entries@[i]).end < (
            #[trigger] self.entries@[j]).start
        &&& forall|i: int|
            0 <= i < self.entries@.len() ==> (#[trigger] self.entries@[i]).region_id
                < self.regions.spec_len()
    }

    /// The observable value of the index: each entry's key range with
    /// its region text.
    pub open spec fn view_entries(&self) -> Seq<(u128, u128, Seq<char>)> {
        Seq::new(
            self.spec_entries().len(),
            |i: int|
                (
                    self.spec_entries()[i].start,
                    self.spec_entries()[i].end,
                    self.spec_region(self.spec_entries()[i].region_id as int),
                ),
        )
    }
}

/// An entry's inclusive range holds `x`.
pub open spec fn entry_contains(e: MemEntry, x: u128) -> bool {
    e.start <= x <= e.end
}

/// In-memory CZDB searcher with a prebuilt index and string pool.
#[derive(Debug)]
pub struct CzdbMemory {
    meta: DbMeta,
    memory_index: MemoryIndex,
}

impl CzdbMemory {
    /// The database's IP family.
    pub closed spec fn spec_db_type(&self) -> DbType {
        self.meta.db_type
    }

    /// The materialized entries.
    pub closed spec fn spec_entries(&self) -> Seq<MemEntry> {
        self.memory_index.spec_entries()
    }

    /// The text of region `id`.
    pub closed spec fn spec_region(&self, id: int) -> Seq<char> {
        self.memory_index.spec_region(id)
    }

    /// The observable value of the index.
    pub closed spec fn view_entries(&self) -> Seq<(u128, u128, Seq<char>)> {
        self.memory_index.view_entries()
    }

    /// A well-formed searcher: ordered, disjoint entries over a sound
    /// region pool.
    pub closed spec fn wf(&self) -> bool {
        self.memory_index.wf()
    }

    /// What a point query yields: nothing on a family mismatch or a
    /// miss; else the region text of the one entry holding the address.
    pub open spec fn spec_search(&self, ip: Ip) -> Option<Seq<char>> {
        if !spec_family_matches(self.spec_db_type(), ip) {
            None
        } else {
            let x = ip_value(ip);
            if exists|i: int|
                0 <= i < self.spec_entries().len() && entry_contains(#[trigger] self.spec_entries()[i], x) {
                let i = choose|i: int|
                    0 <= i < self.spec_entries().len() && entry_contains(
                        #[trigger] self.spec_entries()[i],
                        x,
                    );
                Some(self.spec_region(self.spec_entries()[i].region_id as int))
            } else {
                None
            }
        }
    }

    /// Well-formedness separates any two entries: the earlier range ends
    /// strictly before the later one starts.
    pub proof fn lemma_wf_disjoint(&self, i: int, j: int)
        requires
            self.wf(),
            0 <= i < j < self.spec_entries().len(),
        ensures
            self.spec_entries()[i].end < self.spec_entries()[j].start,
            self.spec_entries()[i].start <= self.spec_entries()[i].end,
            self.spec_entries()[j].start <= self.spec_entries()[j].end,
    {
    }

    /// Well-formedness runs each range forward: its start does not
    /// exceed its end.
    pub proof fn lemma_wf_entry(&self, i: int)
        requires
            self.wf(),
            0 <= i < self.spec_entries().len(),
        ensures
            self.spec_entries()[i].start <= self.spec_entries()[i].end,
    {
    }

    /// Returns the database IP version.
    pub fn db_type(&self) -> (r: DbType)
        ensures
            r == self.spec_db_type(),
    {
        self.meta.db_type
    }

    /// Search a single IP address and return a borrowed string.
    pub fn search_ref<'a>(&'a self, ip: Ip) -> (r: Option<&'a str>)
        requires
            self.wf(),
        ensures
            match r {
                Some(s) => self.spec_search(ip) == Some(s@),
                None => self.spec_search(ip) is None,
            },
    {
        if !self.meta.db_type.compare(&ip) {
            return None;
        }
        let n = self.memory_index.entries.len();
        if n == 0 {
            return None;
        }
        let x = ip_sig_value(&ip);
        let ghost es = self.spec_entries();
        let mut l: usize = 0;
        let mut h: usize = n - 1;
        while l <= h
            invariant
                self.wf(),
                es == self.spec_entries(),
                n == es.len(),
                0 < n,
                x == ip_value(ip),
                spec_family_matches(self.spec_db_type(), ip),
                h < n,
                l <= h + 1,
                forall|i: int| 0 <= i < l ==> (#[trigger] es[i]).end < x,
                forall|i: int| h < i < n ==> x < (#[trigger] es[i]).start,
            decreases h - l + 1,
        {
            let m = l + (h - l) / 2;
            let e = self.memory_index.entries[m];
            if x >= e.start && x <= e.end {
                proof {
                    let ic = choose|i: int|
                        0 <= i < es.len() && entry_contains(#[trigger] es[i], x);
                    if ic != m as int {
                        assert(entry_contains(es[ic], x));
                        if ic < m as int {
                            assert(es[ic].end < es[m as int].start);
                        } else {
                            assert(es[m as int].end < es[ic].start);
                        }
                        assert(false);
                    }
                }
                return Some(self.memory_index.regions.get(e.region_id));
            } else if x < e.start {
                if m == 0 {
                    proof {
                        assert forall|i: int| 0 <= i < n implies !entry_contains(
                            #[trigger] es[i],
                            x,
                        ) by {
                            if i > 0 {
                                assert(es[0].end < es[i].start);
                            }
                        }
                    }
                    return None;
                }
                h = m - 1;
            } else {
                l = m + 1;
            }
        }
        proof {
            assert forall|i: int| 0 <= i < n implies !entry_contains(#[trigger] es[i], x) by {
                if i >= l {
                    assert(x < es[i].start);
                }
            }
        }
        None
    }

    /// Search a single IP address.
    pub fn search(&self, ip: Ip) -> (r: Option<String>)
        requires
            self.wf(),
        ensures
            match r {
                Some(s) => self.spec_search(ip) == Some(s@),
                None => self.spec_search(ip) is None,
            },
    {
        match self.search_ref(ip) {
            Some(s) => Some(String::from_str(s)),
            None => None,
        }
    }

    /// Search a small batch of IP addresses.
    pub fn search_many(&self, ips: &[Ip]) -> (r: Vec<Option<String>>)
        requires
            self.wf(),
        ensures
            r@.len() == ips@.len(),
            forall|i: int|
                0 <= i < ips@.len() ==> opt_text(#[trigger] r@[i]) == self.spec_search(ips@[i]),
    {
        let n = ips.len();
        let mut out: Vec<Option<String>> = Vec::new();
        let mut i: usize = 0;
        while i < n
            invariant
                self.wf(),
                n == ips@.len(),
                i <= n,
                out@.len() == i,
                forall|j: int|
                    0 <= j < i ==> opt_text(#[trigger] out@[j]) == self.spec_search(ips@[j]),
            decreases n - i,
        {
            out.push(self.search(ips[i]));
            i = i + 1;
        }
        out
    }

    /// Search a batch of IP addresses and return borrowed strings.
    pub fn search_many_ref<'a>(&'a self, ips: &[Ip]) -> (r: Vec<Option<&'a str>>)
        requires
            self.wf(),
        ensures
            r@.len() == ips@.len(),
            forall|i: int|
                0 <= i < ips@.len() ==> opt_text_ref(#[trigger] r@[i]) == self.spec_search(
                    ips@[i],
                ),
    {
        let n = ips.len();
        let mut out: Vec<Option<&'a str>> = Vec::new();
        let mut i: usize = 0;
        while i < n
            invariant
                self.wf(),
                n == ips@.len(),
                i <= n,
                out@.len() == i,
                forall|j: int|
                    0 <= j < i ==> opt_text_ref(#[trigger] out@[j]) == self.spec_search(ips@[j]),
            decreases n - i,
        {
            out.push(self.search_ref(ips[i]));
            i = i + 1;
        }
        out
    }
}

/// The text an owned query result holds.
pub open spec fn opt_text(r: Option<String>) -> Option<Seq<char>> {
    match r {
        Some(s) => Some(s@),
        None => None,
    }
}

/// The text a borrowed query result holds.
pub open spec fn opt_text_ref(r: Option<&str>) -> Option<Seq<char>> {
    match r {
        Some(s) => Some(s@),
        None => None,
    }
}

/// What materializing the dense blocks from `p` on yields: for each of
/// `count` blocks its keys as integers and its decoded region text;
/// a block out of bounds, a record out of bounds or undecodable, a
/// reversed range, or a block out of order refuses the file.
pub open spec fn spec_build_entries(
    bindata: Seq<u8>,
    mm: MetaModel,
    p: int,
    count: int,
    prev: Option<u128>,
) -> Result<Seq<(u128, u128, Seq<char>)>, CzError>
    decreases count,
{
    let ip_len = mm.db_type.spec_bytes_len() as int;
    let blen = mm.db_type.spec_index_block_len() as int;
    if count <= 0 {
        Ok(Seq::empty())
    } else if p < 0 || p + blen > bindata.len() {
        Err(CzError::DatabaseFileCorrupted)
    } else {
        let sv = be_value(bindata.subrange(p, p + ip_len)) as u128;
        let ev = be_value(bindata.subrange(p + ip_len, p + 2 * ip_len)) as u128;
        let rptr = le_u32_at(bindata, p + 2 * ip_len) as int;
        let rlen = bindata[p + 2 * ip_len + 4] as int;
        if rptr + rlen > bindata.len() {
            Err(CzError::DatabaseFileCorrupted)
        } else {
            match spec_region_text(
                bindata.subrange(rptr, rptr + rlen),
                mm.column_selection,
                mm.geo_map_data,
            ) {
                None => Err(CzError::DatabaseFileCorrupted),
                Some(text) => {
                    let misordered = match prev {
                        Some(pe) => !(pe < sv),
                        None => false,
                    };
                    if sv > ev {
                        Err(CzError::DatabaseFileCorrupted)
                    } else if misordered {
                        Err(CzError::DatabaseFileCorrupted)
                    } else {
                        match spec_build_entries(bindata, mm, p + blen, count - 1, Some(ev)) {
                            Err(e) => Err(e),
                            Ok(rest) => Ok(seq![(sv, ev, text)] + rest),
                        }
                    }
                },
            }
        }
    }
}

/// What materializing a whole payload's dense index yields.
pub open spec fn spec_build_index(bindata: Seq<u8>, mm: MetaModel) -> Result<
    Seq<(u128, u128, Seq<char>)>,
    CzError,
> {
    let blen = mm.db_type.spec_index_block_len() as int;
    let start = mm.start_index as int;
    let end = mm.end_index as int;
    if end < start {
        Err(CzError::DatabaseFileCorrupted)
    } else if end + blen > bindata.len() {
        Err(CzError::DatabaseFileCorrupted)
    } else if (end - start) % blen != 0 {
        Err(CzError::DatabaseFileCorrupted)
    } else {
        spec_build_entries(bindata, mm, start, (end - start) / blen + 1, None)
    }
}

/// Walk the dense index once and build the in-memory entries and the
/// deduplicated region pool.
pub fn build_memory_index(bindata: &[u8], meta: &DbMeta) -> (r: Result<MemoryIndex, CzError>)
    ensures
        match r {
            Ok(idx) => (idx.wf() && spec_build_index(bindata@, meta.model()) == Ok::<_, CzError>(
                idx.view_entries(),
            )),
            Err(e) => spec_build_index(bindata@, meta.model()) == Err::<
                Seq<(u128, u128, Seq<char>)>,
                _,
            >(e),
        },
{
    let ghost mm = meta.model();
    let dlen = bindata.len();
    let ip_len = meta.db_type.bytes_len();
    let blen = meta.db_type.index_block_len();
    let start = meta.start_index as usize;
    let end = meta.end_index as usize;
    if end < start {
        return Err(CzError::DatabaseFileCorrupted);
    }
    if end as u64 + blen as u64 > dlen as u64 {
        return Err(CzError::DatabaseFileCorrupted);
    }
    if (end - start) % blen != 0 {
        return Err(CzError::DatabaseFileCorrupted);
    }
    let total: usize = (end - start) / blen + 1;
    let ghost goal = spec_build_entries(bindata@, mm, start as int, total as int, None);
    proof {
        vstd::arithmetic::div_mod::lemma_fundamental_div_mod((end - start) as int, blen as int);
    }
    let mut entries: Vec<MemEntry> = Vec::new();
    let mut pool = RegionPool::new();
    let mut cache: HashMap<u64, usize> = HashMap::new();
    let ghost mut built: Seq<(u128, u128, Seq<char>)> = Seq::empty();
    let mut last_end: Option<u128> = None;
    let mut k: usize = 0;
    let mut p: usize = start;
    while k < total
        invariant
            mm == meta.model(),
            dlen == bindata@.len(),
            ip_len == meta.db_type.spec_bytes_len(),
            blen == meta.db_type.spec_index_block_len(),
            start == mm.start_index as int,
            end == mm.end_index as int,
            start <= end < end + blen <= dlen,
            (end - start) % (blen as int) == 0,
            total == (end - start) as int / blen as int + 1,
            goal == spec_build_entries(bindata@, mm, start as int, total as int, None),
            k <= total,
            p == start + k * blen,
            entries@.len() == k,
            built.len() == k,
            pool.wf(),
            forall|i: int|
                0 <= i < k ==> (#[trigger] entries@[i]).region_id < pool.spec_len(),
            forall|i: int| 0 <= i < k ==> (#[trigger] entries@[i]).start <= entries@[i].end,
            forall|i: int, j: int|
                0 <= i < j < k ==> (#[trigger] entries@[i]).end < (#[trigger] entries@[j]).start,
            last_end == (if k == 0 {
                None::<u128>
            } else {
                Some(entries@[k - 1].end)
            }),
            forall|i: int| 0 <= i < k ==> (#[trigger] entries@[i]).end <= entries@[k - 1].end,
            forall|i: int|
                0 <= i < k ==> #[trigger] built[i] == (
                    entries@[i].start,
                    entries@[i].end,
                    pool.spec_text(entries@[i].region_id as int),
                ),
            goal == match spec_build_entries(
                bindata@,
                mm,
                p as int,
                (total - k) as int,
                if k == 0 {
                    None::<u128>
                } else {
                    Some(entries@[k - 1].end)
                },
            ) {
                Err(e) => Err::<Seq<(u128, u128, Seq<char>)>, CzError>(e),
                Ok(rest) => Ok(built + rest),
            },
            forall|key: u64|
                cache@.contains_key(key) ==> {
                    &&& 0 <= #[trigger] cache@[key] < pool.spec_len()
                    &&& (key as int / 256) + (key as int % 256) <= dlen
                    &&& Some(pool.spec_text(cache@[key] as int)) == spec_region_text(
                        bindata@.subrange(
                            key as int / 256,
                            key as int / 256 + key as int % 256,
                        ),
                        mm.column_selection,
                        mm.geo_map_data,
                    )
                },
        decreases total - k,
    {
        proof {
            assert(p + blen <= dlen) by (nonlinear_arith)
                requires
                    p == start + k * blen,
                    k < total,
                    total == (end - start) as int / blen as int + 1,
                    (end - start) % (blen as int) == 0,
                    blen > 0,
                    start <= end,
                    end + blen <= dlen,
            {
                vstd::arithmetic::div_mod::lemma_fundamental_div_mod(
                    (end - start) as int,
                    blen as int,
                );
            }
        }
        let sv = be_value_of(bindata, p, ip_len);
        let ev = be_value_of(bindata, p + ip_len, ip_len);
        let rptr = crate::order::read_le_u32(bindata, p + ip_len * 2);
        let rlen = bindata[p + ip_len * 2 + 4];
        let key: u64 = (rptr as u64) * 256 + (rlen as u64);
        proof {
            let kq = key as int;
            let rp = rptr as int;
            let rl = rlen as int;
            assert(kq / 256 == rp && kq % 256 == rl) by (nonlinear_arith)
                requires
                    kq == rp * 256 + rl,
                    0 <= rp,
                    0 <= rl < 256,
            {
            }
        }
        let region_id: usize = match cache.get(&key) {
            Some(id) => *id,
            None => {
                if rptr as u64 + rlen as u64 > dlen as u64 {
                    return Err(CzError::DatabaseFileCorrupted);
                }
                let rb = slice_subrange(bindata, rptr as usize, rptr as usize + rlen as usize);
                let region = match decode_region_from_bytes(rb, meta) {
                    Some(t) => t,
                    None => {
                        return Err(CzError::DatabaseFileCorrupted);
                    },
                };
                let ghost oldpool = pool;
                let id = pool.intern(region.as_str());
                cache.insert(key, id);
                proof {
                    assert forall|i: int| 0 <= i < k implies #[trigger] built[i] == (
                        entries@[i].start,
                        entries@[i].end,
                        pool.spec_text(entries@[i].region_id as int),
                    ) by {
                        assert(pool.spec_text(entries@[i].region_id as int) == oldpool.spec_text(
                            entries@[i].region_id as int,
                        ));
                    }
                }
                id
            },
        };
        if sv > ev {
            return Err(CzError::DatabaseFileCorrupted);
        }
        match &last_end {
            Some(pe) => {
                if *pe >= sv {
                    return Err(CzError::DatabaseFileCorrupted);
                }
            },
            None => {},
        }
        let ghost text = pool.spec_text(region_id as int);
        proof {
            let tail = spec_build_entries(
                bindata@,
                mm,
                p as int + blen,
                (total - k) as int - 1,
                Some(ev),
            );
            assert(spec_build_entries(
                bindata@,
                mm,
                p as int,
                (total - k) as int,
                if k == 0 {
                    None::<u128>
                } else {
                    Some(entries@[k - 1].end)
                },
            ) == match tail {
                Err(e) => Err::<Seq<(u128, u128, Seq<char>)>, CzError>(e),
                Ok(rest) => Ok(seq![(sv as u128, ev as u128, text)] + rest),
            });
            match tail {
                Err(_) => {},
                Ok(rest) => {
                    assert(built + (seq![(sv as u128, ev as u128, text)] + rest) =~= built.push(
                        (sv as u128, ev as u128, text),
                    ) + rest);
                },
            }
        }
        entries.push(MemEntry { start: sv, end: ev, region_id });
        proof {
            built = built.push((sv as u128, ev as u128, text));
        }
        last_end = Some(ev);
        p = p + blen;
        k = k + 1;
    }
    proof {
        assert(spec_build_entries(bindata@, mm, p as int, 0, if k == 0 {
            None::<u128>
        } else {
            Some(entries@[k - 1].end)
        }) == Ok::<Seq<(u128, u128, Seq<char>)>, CzError>(Seq::empty()));
        assert(built + Seq::<(u128, u128, Seq<char>)>::empty() =~= built);
    }
    let idx = MemoryIndex { entries, regions: pool };
    proof {
        assert(idx.view_entries() =~= built);
    }
    Ok(idx)
}

/// What opening a database image yields at date `today`: the decoded
/// key, the validated hyper-header, the parsed metadata of the payload
/// that follows it, and the materialized index.
pub open spec fn spec_from_bytes(data: Seq<u8>, key: Seq<char>, today: u32) -> Result<
    (MetaModel, Seq<(u128, u128, Seq<char>)>),
    CzError,
> {
    match base64_decoding(key) {
        None => Err(CzError::KeyDecodingError),
        Some(kb) => if kb.len() != 16 {
            Err(CzError::InvalidAesKeyLength(kb.len() as usize))
        } else {
            match spec_read_hyper_header(data, kb, today) {
                Err(e) => Err(e),
                Ok(h) => {
                    let off = 12 + h.padding_size as int + h.encrypted_block_size as int;
                    if off > data.len() {
                        Err(CzError::DatabaseFileCorrupted)
                    } else {
                        let payload = data.subrange(off, data.len() as int);
                        match spec_parse_meta(
                            payload,
                            data.len() as u64,
                            h.padding_size,
                            h.encrypted_block_size,
                            kb,
                        ) {
                            Err(e) => Err(e),
                            Ok(mm) => match spec_build_index(payload, mm) {
                                Err(e) => Err(e),
                                Ok(es) => Ok((mm, es)),
                            },
                        }
                    }
                },
            }
        },
    }
}

impl CzdbMemory {
    /// Build from raw bytes and construct in-memory indices, taking
    /// `today` as the current date in decimal `YYMMDD` form.
    pub fn from_bytes_at(data: Vec<u8>, key: &str, today: u32) -> (r: Result<CzdbMemory, CzError>)
        ensures
            match r {
                Ok(db) => ({
                    &&& spec_from_bytes(data@, key@, today) matches Ok(pair)
                    &&& db.wf()
                    &&& db.spec_db_type() == pair.0.db_type
                    &&& db.view_entries() == pair.1
                }),
                Err(e) => spec_from_bytes(data@, key@, today) == Err::<
                    (MetaModel, Seq<(u128, u128, Seq<char>)>),
                    _,
                >(e),
            },
    {
        let key_bytes = match decode_aes_key(key) {
            Ok(kb) => kb,
            Err(e) => {
                return Err(e);
            },
        };
        let header = match read_hyper_header(data.as_slice(), key_bytes.as_slice(), today) {
            Ok(h) => h,
            Err(e) => {
                return Err(e);
            },
        };
        let dlen = data.len();
        let off64: u64 = 12 + header.padding_size as u64 + header.encrypted_block_size as u64;
        if off64 > dlen as u64 {
            return Err(CzError::DatabaseFileCorrupted);
        }
        let off = off64 as usize;
        let payload = slice_subrange(data.as_slice(), off, dlen);
        let meta = match parse_meta_from_bytes(
            payload,
            dlen as u64,
            header.padding_size,
            header.encrypted_block_size,
            key_bytes.as_slice(),
        ) {
            Ok(m) => m,
            Err(e) => {
                return Err(e);
            },
        };
        let memory_index = match build_memory_index(payload, &meta) {
            Ok(idx) => idx,
            Err(e) => {
                return Err(e);
            },
        };
        Ok(CzdbMemory { meta, memory_index })
    }

    /// Build from raw bytes, validating the expiry date against the
    /// machine's clock. Whatever date the clock reports, the result
    /// agrees with [`spec_from_bytes`] at that date.
    pub fn from_bytes(data: Vec<u8>, key: &str) -> (r: Result<CzdbMemory, CzError>)
        ensures
            match r {
                Ok(db) => ({
                    &&& db.wf()
                    &&& exists|d: u32|
                        d < 1000000 && ((#[trigger] spec_from_bytes(data@, key@, d)) matches Ok(
                            pair,
                        ) && db.spec_db_type() == pair.0.db_type && db.view_entries() == pair.1)
                }),
                Err(CzError::DatabaseFileCorrupted) => true,
                Err(e) => exists|d: u32|
                    d < 1000000 && spec_from_bytes(data@, key@, d) == Err::<
                        (MetaModel, Seq<(u128, u128, Seq<char>)>),
                        _,
                    >(e),
            },
    {
        match crate::crypt::current_date_yymmdd() {
            None => Err(CzError::DatabaseFileCorrupted),
            Some(today) => {
                let ghost d = today;
                let r = CzdbMemory::from_bytes_at(data, key, today);
                proof {
                    match r {
                        Ok(ref db) => {
                            assert(d < 1000000 && ((#[trigger] spec_from_bytes(
                                data@,
                                key@,
                                d,
                            )) matches Ok(pair) && db.spec_db_type() == pair.0.db_type
                                && db.view_entries() == pair.1));
                        },
                        Err(_) => {},
                    }
                }
                r
            },
        }
    }
}

/// A sound batch pair: an in-range index of a family-matching query,
/// with that query's key value.
pub open spec fn pair_ok(ty: DbType, ips: Seq<Ip>, pr: (u128, usize)) -> bool {
    &&& pr.1 < ips.len()
    &&& spec_family_matches(ty, ips[pr.1 as int])
    &&& pr.0 == ip_value(ips[pr.1 as int])
}


/// Some position of `s` holds `pr`.
pub open spec fn seq_has(s: Seq<(u128, usize)>, pr: (u128, usize)) -> bool {
    exists|q: int| 0 <= q < s.len() && s[q] == pr
}

/// Two pair sequences hold the same elements, duplicates aside.
pub open spec fn same_elements(a: Seq<(u128, usize)>, b: Seq<(u128, usize)>) -> bool {
    &&& forall|q: int| 0 <= q < a.len() ==> seq_has(b, #[trigger] a[q])
    &&& forall|q0: int| 0 <= q0 < b.len() ==> seq_has(a, #[trigger] b[q0])
}

/// A sequence holds its own elements.
proof fn lemma_same_elements_refl(a: Seq<(u128, usize)>)
    ensures
        same_elements(a, a),
{
    assert forall|q: int| 0 <= q < a.len() implies seq_has(a, #[trigger] a[q]) by {
        assert(0 <= q < a.len() && a[q] == a[q]);
    }
}

/// Exchanging two positions keeps the elements.
proof fn lemma_same_elements_swap(a: Seq<(u128, usize)>, b: Seq<(u128, usize)>, j: int, k: int)
    requires
        a.len() == b.len(),
        0 <= j < a.len(),
        0 <= k < a.len(),
        b[j] == a[k],
        b[k] == a[j],
        forall|q: int| 0 <= q < a.len() && q != j && q != k ==> #[trigger] b[q] == a[q],
    ensures
        same_elements(b, a),
{
    assert forall|q: int| 0 <= q < b.len() implies seq_has(a, #[trigger] b[q]) by {
        if q == j {
            assert(a[k] == b[q]);
        } else if q == k {
            assert(a[j] == b[q]);
        } else {
            assert(a[q] == b[q]);
        }
    }
    assert forall|q0: int| 0 <= q0 < a.len() implies seq_has(b, #[trigger] a[q0]) by {
        if q0 == j {
            assert(b[k] == a[q0]);
        } else if q0 == k {
            assert(b[j] == a[q0]);
        } else {
            assert(b[q0] == a[q0]);
        }
    }
}

/// Holding the same elements is transitive.
#[verifier::rlimit(30)]
proof fn lemma_same_elements_trans(
    a: Seq<(u128, usize)>,
    b: Seq<(u128, usize)>,
    c: Seq<(u128, usize)>,
)
    requires
        same_elements(a, b),
        same_elements(b, c),
    ensures
        same_elements(a, c),
{
    assert forall|q: int| 0 <= q < a.len() implies seq_has(c, #[trigger] a[q]) by {
        assert(seq_has(b, a[q]));
        let w1 = choose|w1: int| 0 <= w1 < b.len() && b[w1] == a[q];
        assert(seq_has(c, b[w1]));
        let w2 = choose|w2: int| 0 <= w2 < c.len() && c[w2] == b[w1];
        assert(c[w2] == a[q]);
    }
    assert forall|q0: int| 0 <= q0 < c.len() implies seq_has(a, #[trigger] c[q0]) by {
        assert(seq_has(b, c[q0]));
        let w1 = choose|w1: int| 0 <= w1 < b.len() && b[w1] == c[q0];
        assert(seq_has(a, b[w1]));
        let w2 = choose|w2: int| 0 <= w2 < a.len() && a[w2] == b[w1];
        assert(a[w2] == c[q0]);
    }
}

/// Sort key-index pairs ascending by key, keeping exactly the same
/// elements.
#[verifier::rlimit(60)]
fn sort_pairs(v: &mut Vec<(u128, usize)>)
    ensures
        final(v)@.len() == old(v)@.len(),
        forall|a: int, b: int|
            0 <= a < b < final(v)@.len() ==> (#[trigger] final(v)@[a]).0 <= (
            #[trigger] final(v)@[b]).0,
        same_elements(final(v)@, old(v)@),
{
    let n = v.len();
    if n == 0 {
        proof {
            lemma_same_elements_refl(v@);
        }
        return;
    }
    proof {
        lemma_same_elements_refl(v@);
    }
    let mut i: usize = 1;
    while i < n
        invariant
            n == v@.len(),
            1 <= i <= n,
            forall|a: int, b: int|
                0 <= a < b < i ==> (#[trigger] v@[a]).0 <= (#[trigger] v@[b]).0,
            same_elements(v@, old(v)@),
        decreases n - i,
    {
        let mut j: usize = i;
        while j > 0 && v[j - 1].0 > v[j].0
            invariant
                n == v@.len(),
                1 <= i < n,
                j <= i,
                forall|a: int, b: int|
                    0 <= a < b <= i && b != j ==> (#[trigger] v@[a]).0 <= (#[trigger] v@[b]).0,
                forall|a: int| j < a <= i ==> (#[trigger] v@[j as int]).0 <= v@[a].0,
                same_elements(v@, old(v)@),
            decreases j,
        {
            let ghost vpre = v@;
            let x = v[j - 1];
            let y = v[j];
            v.set(j - 1, y);
            v.set(j, x);
            proof {
                lemma_same_elements_swap(vpre, v@, j - 1, j as int);
                lemma_same_elements_trans(v@, vpre, old(v)@);
            }
            j = j - 1;
        }
        i = i + 1;
    }
}

impl CzdbMemory {
    /// Search a large batch by sorting and scanning: the sorted queries
    /// stream once past the entries, and every answer equals the point
    /// query's.
    pub fn search_many_scan<'a>(&'a self, ips: &[Ip]) -> (results: Vec<Option<&'a str>>)
        requires
            self.wf(),
        ensures
            results@.len() == ips@.len(),
            forall|i: int|
                0 <= i < ips@.len() ==> opt_text_ref(#[trigger] results@[i]) == self.spec_search(
                    ips@[i],
                ),
    {
        let n = ips.len();
        let ghost ty = self.spec_db_type();
        let mut results: Vec<Option<&'a str>> = Vec::new();
        let mut z: usize = 0;
        while z < n
            invariant
                z <= n,
                results@.len() == z,
                forall|i: int| 0 <= i < z ==> (#[trigger] results@[i]) is None,
            decreases n - z,
        {
            results.push(None);
            z = z + 1;
        }
        let mut pairs: Vec<(u128, usize)> = Vec::new();
        let mut idx: usize = 0;
        while idx < n
            invariant
                self.wf(),
                ty == self.spec_db_type(),
                n == ips@.len(),
                idx <= n,
                forall|q: int| 0 <= q < pairs@.len() ==> pair_ok(ty, ips@, #[trigger] pairs@[q]),
                forall|i: int|
                    0 <= i < idx && spec_family_matches(ty, #[trigger] ips@[i]) ==> exists|q: int|
                        0 <= q < pairs@.len() && (#[trigger] pairs@[q]).1 == i,
            decreases n - idx,
        {
            let ghost prepairs = pairs@;
            if self.meta.db_type.compare(&ips[idx]) {
                let x = ip_sig_value(&ips[idx]);
                pairs.push((x, idx));
            }
            proof {
                assert forall|i: int|
                    0 <= i < idx + 1 && spec_family_matches(ty, #[trigger] ips@[i]) implies exists|
                    q: int,
                |
                    0 <= q < pairs@.len() && (#[trigger] pairs@[q]).1 == i by {
                    if i < idx {
                        let qw = choose|qw: int|
                            0 <= qw < prepairs.len() && (#[trigger] prepairs[qw]).1 == i;
                        assert(pairs@[qw].1 == i);
                    } else {
                        assert(pairs@[pairs@.len() - 1].1 == i);
                    }
                }
            }
            idx = idx + 1;
        }
        let ghost unsorted = pairs@;
        sort_pairs(&mut pairs);
        proof {
            assert forall|q: int| 0 <= q < pairs@.len() implies pair_ok(
                ty,
                ips@,
                #[trigger] pairs@[q],
            ) by {
                assert(seq_has(unsorted, pairs@[q]));
                let q0 = choose|q0: int| 0 <= q0 < unsorted.len() && unsorted[q0] == pairs@[q];
                assert(pair_ok(ty, ips@, unsorted[q0]));
            }
            assert forall|i: int|
                0 <= i < n && spec_family_matches(ty, #[trigger] ips@[i]) implies exists|q: int|
                0 <= q < pairs@.len() && (#[trigger] pairs@[q]).1 == i by {
                let q0 = choose|q0: int|
                    0 <= q0 < unsorted.len() && (#[trigger] unsorted[q0]).1 == i;
                assert(seq_has(pairs@, unsorted[q0]));
                let q = choose|q: int| 0 <= q < pairs@.len() && pairs@[q] == unsorted[q0];
                assert(pairs@[q].1 == i);
            }
        }
        let m = pairs.len();
        let elen = self.memory_index.entries.len();
        let ghost es = self.spec_entries();
        let mut entry_idx: usize = 0;
        let mut q: usize = 0;
        while q < m
            invariant
                self.wf(),
                ty == self.spec_db_type(),
                es == self.spec_entries(),
                elen == es.len(),
                n == ips@.len(),
                m == pairs@.len(),
                results@.len() == n,
                q <= m,
                entry_idx <= elen,
                forall|p: int| 0 <= p < m ==> pair_ok(ty, ips@, #[trigger] pairs@[p]),
                forall|a: int, b: int|
                    0 <= a < b < m ==> (#[trigger] pairs@[a]).0 <= (#[trigger] pairs@[b]).0,
                forall|i: int|
                    0 <= i < n && spec_family_matches(ty, #[trigger] ips@[i]) ==> exists|p: int|
                        0 <= p < m && (#[trigger] pairs@[p]).1 == i,
                forall|i: int|
                    0 <= i < n && !spec_family_matches(ty, #[trigger] ips@[i]) ==> results@[i]
                        is None,
                forall|i: int|
                    0 <= i < n && (#[trigger] results@[i]) is Some ==> exists|p: int|
                        0 <= p < q && (#[trigger] pairs@[p]).1 == i,
                forall|p: int|
                    0 <= p < q ==> opt_text_ref(results@[(#[trigger] pairs@[p]).1 as int])
                        == self.spec_search(ips@[pairs@[p].1 as int]),
                q < m ==> forall|j: int|
                    0 <= j < entry_idx ==> (#[trigger] es[j]).end < pairs@[q as int].0,
            decreases m - q,
        {
            let (x, idx2) = pairs[q];
            while entry_idx < elen && self.memory_index.entries[entry_idx].end < x
                invariant
                    self.wf(),
                    es == self.spec_entries(),
                    elen == es.len(),
                    entry_idx <= elen,
                    forall|j: int| 0 <= j < entry_idx ==> (#[trigger] es[j]).end < x,
                decreases elen - entry_idx,
            {
                entry_idx = entry_idx + 1;
            }
            if entry_idx >= elen {
                proof {
                    assert forall|i: int| 0 <= i < n implies opt_text_ref(#[trigger] results@[i])
                        == self.spec_search(ips@[i]) by {
                        if spec_family_matches(ty, ips@[i]) {
                            let p = choose|p: int| 0 <= p < m && (#[trigger] pairs@[p]).1 == i;
                            if p < q {
                            } else {
                                let xi = ip_value(ips@[i]);
                                assert(pairs@[p].0 == xi);
                                assert(pairs@[q as int].0 <= xi);
                                assert(forall|j: int|
                                    0 <= j < elen ==> !entry_contains(#[trigger] es[j], xi));
                                assert(self.spec_search(ips@[i]) is None);
                                if results@[i] is Some {
                                    let p2 = choose|p2: int|
                                        0 <= p2 < q && (#[trigger] pairs@[p2]).1 == i;
                                    assert(opt_text_ref(results@[i]) == self.spec_search(
                                        ips@[i],
                                    ));
                                }
                            }
                        }
                    }
                }
                return results;
            }
            let e = self.memory_index.entries[entry_idx];
            if x >= e.start && x <= e.end {
                let text = self.memory_index.regions.get(e.region_id);
                let ghost pre = results@;
                results.set(idx2, Some(text));
                proof {
                    assert(entry_contains(es[entry_idx as int], x));
                    let ic = choose|ic: int|
                        0 <= ic < es.len() && entry_contains(#[trigger] es[ic], x);
                    if ic != entry_idx as int {
                        if ic < entry_idx as int {
                            assert(es[ic].end < es[entry_idx as int].start);
                        } else {
                            assert(es[entry_idx as int].end < es[ic].start);
                        }
                        assert(false);
                    }
                    assert(self.spec_search(ips@[idx2 as int]) == Some(text@));
                    assert forall|p: int|
                        0 <= p < q + 1 implies opt_text_ref(
                        results@[(#[trigger] pairs@[p]).1 as int],
                    ) == self.spec_search(ips@[pairs@[p].1 as int]) by {
                        if pairs@[p].1 as int != idx2 as int {
                            assert(results@[pairs@[p].1 as int] == pre[pairs@[p].1 as int]);
                        } else {
                            assert(ip_value(ips@[pairs@[p].1 as int]) == x);
                        }
                    }
                }
            } else {
                proof {
                    assert(x < es[entry_idx as int].start || es[entry_idx as int].end < x);
                    assert(es[entry_idx as int].end >= x);
                    assert forall|j: int| 0 <= j < elen implies !entry_contains(
                        #[trigger] es[j],
                        x,
                    ) by {
                        if j > entry_idx as int {
                            assert(es[entry_idx as int].end < es[j].start);
                        }
                    }
                    assert(self.spec_search(ips@[idx2 as int]) is None);
                    if results@[idx2 as int] is Some {
                        let p2 = choose|p2: int| 0 <= p2 < q && (#[trigger] pairs@[p2]).1 == idx2;
                        assert(opt_text_ref(results@[idx2 as int]) == self.spec_search(
                            ips@[idx2 as int],
                        ));
                        assert(false);
                    }
                }
            }
            q = q + 1;
        }
        proof {
            assert forall|i: int| 0 <= i < n implies opt_text_ref(#[trigger] results@[i])
                == self.spec_search(ips@[i]) by {
                if spec_family_matches(ty, ips@[i]) {
                    let p = choose|p: int| 0 <= p < m && (#[trigger] pairs@[p]).1 == i;
                }
            }
        }
        results
    }
}

} // verus!
