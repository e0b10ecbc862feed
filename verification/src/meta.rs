//! The hyper-header and the parsed metadata of a database payload.
//!
//! A file opens with a 12-byte prefix (`version`, `client_id`, `enc_size`)
//! followed by an AES-encrypted body whose plaintext carries the client
//! tag, an expiry date and the padding size. The payload that follows
//! holds a 17-byte super-part, a sparse header table of 20-byte blocks,
//! and a column-selection slot with an optional XOR-encrypted dictionary.

use vstd::prelude::*;
use vstd::bytes::spec_u32_from_le_bytes;
use vstd::slice::slice_subrange;
use crate::{CzError, DbType};
use crate::crypt::{aes_decrypted_body, aes128_decrypt_padded, current_date_yymmdd, xor_stream,
    GeoDataDecryptor};
use crate::order::{bytes_lt_upto, read_le_u32};

verus! {

broadcast use vstd::slice::axiom_spec_len;

/// The little-endian `u32` held at `pos`.
pub open spec fn le_u32_at(s: Seq<u8>, pos: int) -> u32 {
    spec_u32_from_le_bytes(s.subrange(pos, pos + 4))
}

/// Hyper header info parsed from the encrypted header block.
#[derive(Debug, Clone, Copy, PartialEq, Eq, Structural)]
pub struct HyperHeaderInfo {
    pub padding_size: u32,
    pub encrypted_block_size: u32,
}

/// What validating the hyper-header at the start of `data` yields under
/// `key`, taking `today` as the current date in decimal `YYMMDD` form.
pub open spec fn spec_read_hyper_header(data: Seq<u8>, key: Seq<u8>, today: u32) -> Result<
    HyperHeaderInfo,
    CzError,
> {
    if data.len() < 12 {
        Err(CzError::DatabaseFileReadError)
    } else {
        let client_id = le_u32_at(data, 4);
        let enc_size = le_u32_at(data, 8);
        if data.len() < 12 + enc_size {
            Err(CzError::DatabaseFileReadError)
        } else {
            match aes_decrypted_body(key, data.subrange(12, 12 + enc_size as int)) {
                None => Err(CzError::DecryptionError),
                Some(plain) => if plain.len() < 4 {
                    Err(CzError::DatabaseFileReadError)
                } else if le_u32_at(plain, 0) >> 20 != client_id {
                    Err(CzError::InvalidClientId)
                } else if today > le_u32_at(plain, 0) & 0xFFFFF {
                    Err(CzError::DatabaseExpired)
                } else if plain.len() < 8 {
                    Err(CzError::DatabaseFileReadError)
                } else {
                    Ok(HyperHeaderInfo {
                        padding_size: le_u32_at(plain, 4),
                        encrypted_block_size: enc_size,
                    })
                },
            }
        }
    }
}

/// Read and validate the encrypted hyper header, `today` being the current
/// date as a decimal `YYMMDD` number. The tag's top bits must equal the
/// declared client id, and the tag's date field must not lie before
/// `today`.
pub fn read_hyper_header(data: &[u8], key_bytes: &[u8], today: u32) -> (r: Result<
    HyperHeaderInfo,
    CzError,
>)
    requires
        key_bytes@.len() == 16,
    ensures
        r == spec_read_hyper_header(data@, key_bytes@, today),
{
    let dlen = data.len();
    if dlen < 12 {
        return Err(CzError::DatabaseFileReadError);
    }
    let client_id = read_le_u32(data, 4);
    let enc_size = read_le_u32(data, 8);
    if enc_size as u64 > (dlen - 12) as u64 {
        return Err(CzError::DatabaseFileReadError);
    }
    let encrypted = slice_subrange(data, 12, 12 + enc_size as usize);
    let plain = match aes128_decrypt_padded(key_bytes, encrypted) {
        None => {
            return Err(CzError::DecryptionError);
        },
        Some(p) => p,
    };
    if plain.len() < 4 {
        return Err(CzError::DatabaseFileReadError);
    }
    let tag = read_le_u32(plain.as_slice(), 0);
    if tag >> 20 != client_id {
        return Err(CzError::InvalidClientId);
    }
    if today > tag & 0xFFFFF {
        return Err(CzError::DatabaseExpired);
    }
    if plain.len() < 8 {
        return Err(CzError::DatabaseFileReadError);
    }
    let padding_size = read_le_u32(plain.as_slice(), 4);
    Ok(HyperHeaderInfo { padding_size, encrypted_block_size: enc_size })
}

/// Read and validate the hyper header against the machine's clock. The
/// date the clock reports is out of this crate's hands; whatever it is,
/// the result agrees with [`spec_read_hyper_header`] at that date.
pub fn read_hyper_header_now(data: &[u8], key_bytes: &[u8]) -> (r: Result<
    HyperHeaderInfo,
    CzError,
>)
    requires
        key_bytes@.len() == 16,
    ensures
        match r {
            Ok(h) => exists|d: u32|
                d < 1000000 && spec_read_hyper_header(data@, key_bytes@, d) == Ok::<
                    HyperHeaderInfo,
                    CzError,
                >(h),
            Err(CzError::DatabaseFileCorrupted) => true,
            Err(e) => exists|d: u32|
                d < 1000000 && spec_read_hyper_header(data@, key_bytes@, d) == Err::<
                    HyperHeaderInfo,
                    CzError,
                >(e),
        },
{
    match current_date_yymmdd() {
        None => Err(CzError::DatabaseFileCorrupted),
        Some(today) => {
            let r = read_hyper_header(data, key_bytes, today);
            proof {
                assert(spec_read_hyper_header(data@, key_bytes@, today) == r);
            }
            r
        },
    }
}

/// The declared layout read from the first 17 bytes of the payload.
#[derive(Debug, Clone, Copy, PartialEq, Eq, Structural)]
pub struct SuperPart {
    pub db_type: DbType,
    pub file_size: u32,
    pub start_index: u32,
    pub total_header_block_size: u32,
    pub end_index: u32,
}

/// What parsing the super-part at the start of `data` yields. The declared
/// payload size must account, with the paddings, for the whole file, and
/// the sparse header size must be a whole number of 20-byte blocks.
pub open spec fn spec_parse_super_part(
    data: Seq<u8>,
    file_size_total: u64,
    padding_size: u32,
    encrypted_block_size: u32,
) -> Result<SuperPart, CzError> {
    if data.len() < 1 {
        Err(CzError::DatabaseFileReadError)
    } else {
        let db_type = if data[0] & 1 == 0 {
            DbType::Ipv4
        } else {
            DbType::Ipv6
        };
        if data.len() < 5 {
            Err(CzError::DatabaseFileReadError)
        } else {
            let file_size = le_u32_at(data, 1);
            if file_size_total != padding_size + encrypted_block_size + 12 + file_size {
                Err(CzError::DatabaseFileCorrupted)
            } else if data.len() < 17 {
                Err(CzError::DatabaseFileReadError)
            } else {
                let sp = SuperPart {
                    db_type,
                    file_size,
                    start_index: le_u32_at(data, 5),
                    total_header_block_size: le_u32_at(data, 9),
                    end_index: le_u32_at(data, 13),
                };
                if sp.total_header_block_size % 20 != 0 {
                    Err(CzError::DatabaseFileCorrupted)
                } else {
                    Ok(sp)
                }
            }
        }
    }
}

/// Parse and validate the super-part found at the start of `data`.
pub fn parse_super_part(
    data: &[u8],
    file_size_total: u64,
    padding_size: u32,
    encrypted_block_size: u32,
) -> (r: Result<SuperPart, CzError>)
    ensures
        r == spec_parse_super_part(data@, file_size_total, padding_size, encrypted_block_size),
{
    let dlen = data.len();
    if dlen < 1 {
        return Err(CzError::DatabaseFileReadError);
    }
    let db_type = if data[0] & 1 == 0 {
        DbType::Ipv4
    } else {
        DbType::Ipv6
    };
    if dlen < 5 {
        return Err(CzError::DatabaseFileReadError);
    }
    let file_size = read_le_u32(data, 1);
    if file_size_total != padding_size as u64 + encrypted_block_size as u64 + 12
        + file_size as u64 {
        return Err(CzError::DatabaseFileCorrupted);
    }
    if dlen < 17 {
        return Err(CzError::DatabaseFileReadError);
    }
    let sp = SuperPart {
        db_type,
        file_size,
        start_index: read_le_u32(data, 5),
        total_header_block_size: read_le_u32(data, 9),
        end_index: read_le_u32(data, 13),
    };
    if sp.total_header_block_size % 20 != 0 {
        return Err(CzError::DatabaseFileCorrupted);
    }
    Ok(sp)
}


/// What parsing the sparse header table yields: up to `count` 20-byte
/// blocks, read until a block with a zero pointer; entries must ascend
/// strictly on the significant prefix and every pointer must leave room
/// for one index block below the 32-bit limit.
pub open spec fn spec_parse_header_blocks(
    data: Seq<u8>,
    base: int,
    count: int,
    blen: int,
    ip_len: int,
    prev: Option<Seq<u8>>,
) -> Result<(Seq<Seq<u8>>, Seq<u32>), CzError>
    decreases count,
{
    if count <= 0 {
        Ok((Seq::empty(), Seq::empty()))
    } else if base < 0 || base + 20 > data.len() {
        Err(CzError::DatabaseFileReadError)
    } else {
        let ptr = le_u32_at(data, base + 16);
        if ptr == 0 {
            Ok((Seq::empty(), Seq::empty()))
        } else if ptr + blen > u32::MAX {
            Err(CzError::DatabaseFileCorrupted)
        } else {
            let sip = data.subrange(base, base + 16);
            let misordered = match prev {
                Some(p) => !bytes_lt_upto(p, sip, ip_len),
                None => false,
            };
            if misordered {
                Err(CzError::DatabaseFileCorrupted)
            } else {
                match spec_parse_header_blocks(data, base + 20, count - 1, blen, ip_len, Some(sip)) {
                    Err(e) => Err(e),
                    Ok((sips, ptrs)) => Ok((seq![sip] + sips, seq![ptr] + ptrs)),
                }
            }
        }
    }
}

/// A successfully parsed header table is well formed: entry and pointer
/// counts agree, entries hold 16 bytes each and ascend strictly on the
/// significant prefix, and every pointer is positive with room for one
/// index block.
pub proof fn lemma_header_blocks_props(
    data: Seq<u8>,
    base: int,
    count: int,
    blen: int,
    ip_len: int,
    prev: Option<Seq<u8>>,
)
    requires
        count >= 0,
        spec_parse_header_blocks(data, base, count, blen, ip_len, prev) matches Ok(_),
    ensures
        ({
            let (sips, ptrs) = spec_parse_header_blocks(data, base, count, blen, ip_len, prev)
                ->Ok_0;
            &&& sips.len() == ptrs.len()
            &&& sips.len() <= count
            &&& forall|i: int| 0 <= i < sips.len() ==> #[trigger] sips[i].len() == 16
            &&& forall|i: int|
                0 <= i < ptrs.len() ==> 0 < #[trigger] ptrs[i] && ptrs[i] + blen <= u32::MAX
            &&& forall|i: int, j: int|
                0 <= i < j < sips.len() ==> bytes_lt_upto(#[trigger] sips[i], #[trigger] sips[j], ip_len)
            &&& match prev {
                Some(p) => forall|i: int|
                    0 <= i < sips.len() ==> bytes_lt_upto(p, #[trigger] sips[i], ip_len),
                None => true,
            }
        }),
    decreases count,
{
    let (sips, ptrs) = spec_parse_header_blocks(data, base, count, blen, ip_len, prev)->Ok_0;
    if count <= 0 {
    } else {
        let ptr = le_u32_at(data, base + 16);
        if ptr == 0 {
        } else {
            let sip = data.subrange(base, base + 16);
            lemma_header_blocks_props(data, base + 20, count - 1, blen, ip_len, Some(sip));
            let (tsips, tptrs) = spec_parse_header_blocks(
                data,
                base + 20,
                count - 1,
                blen,
                ip_len,
                Some(sip),
            )->Ok_0;
            assert(sips == seq![sip] + tsips);
            assert(ptrs == seq![ptr] + tptrs);
            assert(sips[0] == sip && ptrs[0] == ptr);
            assert(forall|i: int| 1 <= i < sips.len() ==> #[trigger] sips[i] == tsips[i - 1]);
            assert(forall|i: int| 1 <= i < ptrs.len() ==> #[trigger] ptrs[i] == tptrs[i - 1]);
            assert forall|i: int, j: int| 0 <= i < j < sips.len() implies bytes_lt_upto(
                #[trigger] sips[i],
                #[trigger] sips[j],
                ip_len,
            ) by {
                assert(sips[j] == tsips[j - 1]);
                if i > 0 {
                    assert(sips[i] == tsips[i - 1]);
                } else {
                    assert(bytes_lt_upto(sip, tsips[j - 1], ip_len));
                }
            }
            match prev {
                Some(p) => {
                    assert(bytes_lt_upto(p, sip, ip_len));
                    assert forall|i: int| 0 <= i < sips.len() implies bytes_lt_upto(
                        p,
                        #[trigger] sips[i],
                        ip_len,
                    ) by {
                        if i > 0 {
                            assert(sips[i] == tsips[i - 1]);
                            assert(bytes_lt_upto(sip, tsips[i - 1], ip_len));
                            crate::order::lemma_bytes_lt_transitive(p, sip, tsips[i - 1], ip_len);
                        }
                    }
                },
                None => {},
            }
        }
    }
}

/// Copy 16 bytes of `data`, starting at `pos`, into a fixed array.
pub fn bytes16_at(data: &[u8], pos: usize) -> (r: [u8; 16])
    requires
        pos + 16 <= data@.len(),
    ensures
        r@ == data@.subrange(pos as int, pos as int + 16),
{
    let r: [u8; 16] = [
        data[pos],
        data[pos + 1],
        data[pos + 2],
        data[pos + 3],
        data[pos + 4],
        data[pos + 5],
        data[pos + 6],
        data[pos + 7],
        data[pos + 8],
        data[pos + 9],
        data[pos + 10],
        data[pos + 11],
        data[pos + 12],
        data[pos + 13],
        data[pos + 14],
        data[pos + 15],
    ];
    proof {
        assert(r@ =~= data@.subrange(pos as int, pos as int + 16));
    }
    r
}

/// Parse up to `count` sparse header blocks of `data` starting at `base`,
/// stopping early at a block whose pointer is zero.
pub fn parse_header_table(data: &[u8], base: usize, count: u32, db_type: DbType) -> (r: Result<
    (Vec<[u8; 16]>, Vec<u32>),
    CzError,
>)
    ensures
        match r {
            Ok((sips, ptrs)) => spec_parse_header_blocks(
                data@,
                base as int,
                count as int,
                db_type.spec_index_block_len() as int,
                db_type.spec_bytes_len() as int,
                None,
            ) == Ok::<_, CzError>((sips@.map_values(|a: [u8; 16]| a@), ptrs@)),
            Err(e) => spec_parse_header_blocks(
                data@,
                base as int,
                count as int,
                db_type.spec_index_block_len() as int,
                db_type.spec_bytes_len() as int,
                None,
            ) == Err::<(Seq<Seq<u8>>, Seq<u32>), _>(e),
        },
{
    let ghost blen = db_type.spec_index_block_len() as int;
    let ghost ip_len_g = db_type.spec_bytes_len() as int;
    let ghost full = spec_parse_header_blocks(data@, base as int, count as int, blen, ip_len_g, None);
    let block_len = db_type.index_block_len();
    let ip_len = db_type.bytes_len();
    let dlen = data.len();
    let mut sips: Vec<[u8; 16]> = Vec::new();
    let mut ptrs: Vec<u32> = Vec::new();
    let mut k: u32 = 0;
    let mut pos: usize = base;
    let mut last: Option<[u8; 16]> = None;
    let ghost mut prev: Option<Seq<u8>> = None;
    while k < count
        invariant
            k <= count,
            dlen == data@.len(),
            block_len == db_type.spec_index_block_len(),
            ip_len == db_type.spec_bytes_len(),
            blen == block_len as int,
            ip_len_g == ip_len as int,
            pos == base + 20 * k,
            prev == match last {
                Some(a) => Some(a@),
                None => None::<Seq<u8>>,
            },
            full == spec_parse_header_blocks(data@, base as int, count as int, blen, ip_len_g, None),
            full == match spec_parse_header_blocks(
                data@,
                pos as int,
                (count - k) as int,
                blen,
                ip_len_g,
                prev,
            ) {
                Err(e) => Err::<(Seq<Seq<u8>>, Seq<u32>), CzError>(e),
                Ok((s2, p2)) => Ok((sips@.map_values(|a: [u8; 16]| a@) + s2, ptrs@ + p2)),
            },
        decreases count - k,
    {
        if pos > dlen || dlen - pos < 20 {
            return Err(CzError::DatabaseFileReadError);
        }
        let ptr = read_le_u32(data, pos + 16);
        if ptr == 0 {
            proof {
                assert(spec_parse_header_blocks(
                    data@,
                    pos as int,
                    (count - k) as int,
                    blen,
                    ip_len_g,
                    prev,
                ) == Ok::<_, CzError>((Seq::<Seq<u8>>::empty(), Seq::<u32>::empty())));
                assert(sips@.map_values(|a: [u8; 16]| a@) + Seq::<Seq<u8>>::empty()
                    =~= sips@.map_values(|a: [u8; 16]| a@));
                assert(ptrs@ + Seq::<u32>::empty() =~= ptrs@);
            }
            return Ok((sips, ptrs));
        }
        if ptr as u64 + block_len as u64 > u32::MAX as u64 {
            return Err(CzError::DatabaseFileCorrupted);
        }
        let sip = bytes16_at(data, pos);
        match &last {
            Some(p) => {
                let ord = crate::order::compare_bytes(p.as_slice(), sip.as_slice(), ip_len);
                if !matches!(ord, core::cmp::Ordering::Less) {
                    return Err(CzError::DatabaseFileCorrupted);
                }
            },
            None => {},
        }
        proof {
            let s2p2 = spec_parse_header_blocks(
                data@,
                pos as int + 20,
                (count - k) as int - 1,
                blen,
                ip_len_g,
                Some(sip@),
            );
            assert(data@.subrange(pos as int, pos as int + 16) == sip@);
            assert(le_u32_at(data@, pos as int + 16) == ptr);
            assert(spec_parse_header_blocks(
                data@,
                pos as int,
                (count - k) as int,
                blen,
                ip_len_g,
                prev,
            ) == match s2p2 {
                Err(e) => Err::<(Seq<Seq<u8>>, Seq<u32>), CzError>(e),
                Ok((s2, p2)) => Ok((seq![sip@] + s2, seq![ptr] + p2)),
            });
            match s2p2 {
                Err(_) => {},
                Ok((s2, p2)) => {
                    assert(sips@.push(sip).map_values(|a: [u8; 16]| a@) =~= sips@.map_values(
                        |a: [u8; 16]| a@,
                    ).push(sip@));
                    assert(sips@.map_values(|a: [u8; 16]| a@) + (seq![sip@] + s2)
                        =~= sips@.push(sip).map_values(|a: [u8; 16]| a@) + s2);
                    assert(ptrs@ + (seq![ptr] + p2) =~= ptrs@.push(ptr) + p2);
                },
            }
        }
        sips.push(sip);
        ptrs.push(ptr);
        last = Some(sip);
        proof {
            prev = Some(sip@);
        }
        pos = pos + 20;
        k = k + 1;
    }
    proof {
        assert(spec_parse_header_blocks(data@, pos as int, 0, blen, ip_len_g, prev) == Ok::<
            _,
            CzError,
        >((Seq::<Seq<u8>>::empty(), Seq::<u32>::empty())));
        assert(sips@.map_values(|a: [u8; 16]| a@) + Seq::<Seq<u8>>::empty() =~= sips@.map_values(
            |a: [u8; 16]| a@,
        ));
        assert(ptrs@ + Seq::<u32>::empty() =~= ptrs@);
    }
    Ok((sips, ptrs))
}


/// Parsed metadata used for searching, as a mathematical value.
pub struct MetaModel {
    pub db_type: DbType,
    pub header_sip: Seq<Seq<u8>>,
    pub header_ptr: Seq<u32>,
    pub column_selection: u64,
    pub geo_map_data: Option<Seq<u8>>,
    pub start_index: u32,
    pub end_index: u32,
}

/// Parsed metadata used for searching.
#[derive(Debug)]
pub struct DbMeta {
    pub db_type: DbType,
    pub header_sip: Vec<[u8; 16]>,
    pub header_ptr: Vec<u32>,
    pub column_selection: u64,
    pub geo_map_data: Option<Vec<u8>>,
    pub start_index: u32,
    pub end_index: u32,
}

impl DbMeta {
    /// The mathematical value this metadata holds.
    pub open spec fn model(&self) -> MetaModel {
        MetaModel {
            db_type: self.db_type,
            header_sip: self.header_sip@.map_values(|a: [u8; 16]| a@),
            header_ptr: self.header_ptr@,
            column_selection: self.column_selection,
            geo_map_data: match self.geo_map_data {
                Some(v) => Some(v@),
                None => None,
            },
            start_index: self.start_index,
            end_index: self.end_index,
        }
    }

    /// Well-formedness that parsing establishes: the sparse table is
    /// non-empty, its two columns have one row per entry, entries ascend
    /// strictly on the significant prefix, and each pointer is positive
    /// with room for one index block below the 32-bit limit.
    pub open spec fn wf(&self) -> bool {
        &&& self.header_sip@.len() == self.header_ptr@.len()
        &&& 0 < self.header_sip@.len() <= 0x0CCC_CCCC
        &&& forall|i: int, j: int|
            0 <= i < j < self.header_sip@.len() ==> bytes_lt_upto(
                #[trigger] self.header_sip@[i]@,
                #[trigger] self.header_sip@[j]@,
                self.db_type.spec_bytes_len() as int,
            )
        &&& forall|i: int|
            0 <= i < self.header_ptr@.len() ==> 0 < #[trigger] self.header_ptr@[i]
                && self.header_ptr@[i] + self.db_type.spec_index_block_len() <= u32::MAX
    }
}

/// What parsing a whole payload's metadata yields: the super-part, the
/// sparse header table, the column-selection word, and, when columns are
/// selected, the XOR-decrypted dictionary.
pub open spec fn spec_parse_meta(
    bindata: Seq<u8>,
    file_size_total: u64,
    padding_size: u32,
    encrypted_block_size: u32,
    key: Seq<u8>,
) -> Result<MetaModel, CzError> {
    match spec_parse_super_part(bindata, file_size_total, padding_size, encrypted_block_size) {
        Err(e) => Err(e),
        Ok(sp) => {
            let blen = sp.db_type.spec_index_block_len() as int;
            let ip_len = sp.db_type.spec_bytes_len() as int;
            match spec_parse_header_blocks(
                bindata,
                17,
                sp.total_header_block_size as int / 20,
                blen,
                ip_len,
                None,
            ) {
                Err(e) => Err(e),
                Ok((sips, ptrs)) => if sips.len() == 0 {
                    Err(CzError::DatabaseFileCorrupted)
                } else {
                    let csp = sp.end_index as int + blen;
                    if csp + 4 > bindata.len() {
                        Err(CzError::DatabaseFileReadError)
                    } else {
                        let colsel = le_u32_at(bindata, csp) as u64;
                        if colsel == 0 {
                            Ok(MetaModel {
                                db_type: sp.db_type,
                                header_sip: sips,
                                header_ptr: ptrs,
                                column_selection: colsel,
                                geo_map_data: None,
                                start_index: sp.start_index,
                                end_index: sp.end_index,
                            })
                        } else if csp + 8 > bindata.len() {
                            Err(CzError::DatabaseFileReadError)
                        } else {
                            let gsize = le_u32_at(bindata, csp + 4) as int;
                            if csp + 8 + gsize > bindata.len() {
                                Err(CzError::DatabaseFileReadError)
                            } else if key.len() == 0 {
                                Err(CzError::InvalidAesKeyLength(0))
                            } else {
                                Ok(MetaModel {
                                    db_type: sp.db_type,
                                    header_sip: sips,
                                    header_ptr: ptrs,
                                    column_selection: colsel,
                                    geo_map_data: Some(
                                        xor_stream(
                                            bindata.subrange(csp + 8, csp + 8 + gsize),
                                            key,
                                        ),
                                    ),
                                    start_index: sp.start_index,
                                    end_index: sp.end_index,
                                })
                            }
                        }
                    }
                },
            }
        },
    }
}

/// XOR-decrypt the column dictionary with the repeated key.
pub fn decrypt_geo_data(key_bytes: &[u8], data: &[u8]) -> (r: Result<Vec<u8>, CzError>)
    ensures
        match r {
            Ok(v) => (key_bytes@.len() > 0 && v@ == xor_stream(data@, key_bytes@)),
            Err(e) => (key_bytes@.len() == 0 && e == CzError::InvalidAesKeyLength(0usize)),
        },
{
    let decryptor = match GeoDataDecryptor::new(vstd::slice::slice_to_vec(key_bytes)) {
        Ok(d) => d,
        Err(e) => {
            return Err(e);
        },
    };
    Ok(decryptor.decrypt(data))
}

/// The parse result `r` agrees with [`spec_parse_meta`] on these inputs,
/// and a parsed metadata value is well formed.
pub open spec fn parse_meta_post(
    r: Result<DbMeta, CzError>,
    bindata: Seq<u8>,
    file_size_total: u64,
    padding_size: u32,
    encrypted_block_size: u32,
    key: Seq<u8>,
) -> bool {
    let expected = spec_parse_meta(bindata, file_size_total, padding_size, encrypted_block_size, key);
    match r {
        Ok(m) => expected == Ok::<_, CzError>(m.model()) && m.wf(),
        Err(e) => expected == Err::<MetaModel, _>(e),
    }
}

/// Parse metadata from in-memory payload bytes (after the hyper header).
pub fn parse_meta_from_bytes(
    bindata: &[u8],
    file_size_total: u64,
    padding_size: u32,
    encrypted_block_size: u32,
    key_bytes: &[u8],
) -> (r: Result<DbMeta, CzError>)
    ensures
        parse_meta_post(r, bindata@, file_size_total, padding_size, encrypted_block_size, key_bytes@),
{
    let sp = match parse_super_part(bindata, file_size_total, padding_size, encrypted_block_size) {
        Ok(sp) => sp,
        Err(e) => {
            return Err(e);
        },
    };
    let count = sp.total_header_block_size / 20;
    let ghost blen_g = sp.db_type.spec_index_block_len() as int;
    let ghost ip_len_g = sp.db_type.spec_bytes_len() as int;
    let (header_sip, header_ptr) = match parse_header_table(bindata, 17, count, sp.db_type) {
        Ok(t) => t,
        Err(e) => {
            return Err(e);
        },
    };
    if header_sip.len() == 0 {
        return Err(CzError::DatabaseFileCorrupted);
    }
    proof {
        lemma_header_blocks_props(bindata@, 17, count as int, blen_g, ip_len_g, None);
    }
    let blen = sp.db_type.index_block_len();
    let dlen = bindata.len();
    let csp64: u64 = sp.end_index as u64 + blen as u64;
    if csp64 + 4 > dlen as u64 {
        return Err(CzError::DatabaseFileReadError);
    }
    let csp: usize = csp64 as usize;
    let column_selection_word = read_le_u32(bindata, csp);
    let column_selection = column_selection_word as u64;
    let mut geo_map_data: Option<Vec<u8>> = None;
    if column_selection != 0 {
        if csp64 + 8 > dlen as u64 {
            return Err(CzError::DatabaseFileReadError);
        }
        let gsize = read_le_u32(bindata, csp + 4);
        if csp64 + 8 + gsize as u64 > dlen as u64 {
            return Err(CzError::DatabaseFileReadError);
        }
        let cipher = slice_subrange(bindata, csp + 8, csp + 8 + gsize as usize);
        let decryptor = match GeoDataDecryptor::new(vstd::slice::slice_to_vec(key_bytes)) {
            Ok(d) => d,
            Err(e) => {
                return Err(e);
            },
        };
        geo_map_data = Some(decryptor.decrypt(cipher));
    }
    let m = DbMeta {
        db_type: sp.db_type,
        header_sip,
        header_ptr,
        column_selection,
        geo_map_data,
        start_index: sp.start_index,
        end_index: sp.end_index,
    };
    proof {
        let pair = spec_parse_header_blocks(
            bindata@,
            17,
            count as int,
            blen_g,
            ip_len_g,
            None,
        )->Ok_0;
        let spec_sips = pair.0;
        assert(m.header_sip@.map_values(|a: [u8; 16]| a@) == spec_sips);
        assert forall|i: int, j: int| 0 <= i < j < m.header_sip@.len() implies bytes_lt_upto(
            #[trigger] m.header_sip@[i]@,
            #[trigger] m.header_sip@[j]@,
            m.db_type.spec_bytes_len() as int,
        ) by {
            assert(spec_sips[i] == m.header_sip@[i]@ && spec_sips[j] == m.header_sip@[j]@);
        }
    }
    Ok(m)
}

/// Read the column-selection word from its four-byte slot.
pub fn parse_column_selection(data: &[u8]) -> (r: Result<u32, CzError>)
    ensures
        data@.len() >= 4 ==> r == Ok::<u32, CzError>(le_u32_at(data@, 0)),
        data@.len() < 4 ==> r == Err::<u32, CzError>(CzError::DatabaseFileReadError),
{
    if data.len() < 4 {
        return Err(CzError::DatabaseFileReadError);
    }
    Ok(read_le_u32(data, 0))
}

/// A table whose adjacent entries ascend strictly ascends pairwise.
proof fn lemma_adjacent_sorted_pairwise(sips: Seq<Seq<u8>>, ip_len: int, j: int)
    requires
        0 <= j < sips.len(),
        forall|i: int|
            0 < i < sips.len() ==> bytes_lt_upto(#[trigger] sips[i - 1], sips[i], ip_len),
    ensures
        forall|i: int| 0 <= i < j ==> bytes_lt_upto(#[trigger] sips[i], sips[j], ip_len),
    decreases j,
{
    if j > 0 {
        lemma_adjacent_sorted_pairwise(sips, ip_len, j - 1);
        assert forall|i: int| 0 <= i < j implies bytes_lt_upto(
            #[trigger] sips[i],
            sips[j],
            ip_len,
        ) by {
            if i < j - 1 {
                assert(bytes_lt_upto(sips[i], sips[j - 1], ip_len));
                assert(bytes_lt_upto(sips[j - 1], sips[j], ip_len));
                crate::order::lemma_bytes_lt_transitive(sips[i], sips[j - 1], sips[j], ip_len);
            }
        }
    }
}

impl DbMeta {
    /// Decide well-formedness: table shape, strict ascent on the
    /// significant prefix, and pointer headroom.
    pub fn is_well_formed(&self) -> (r: bool)
        ensures
            r == self.wf(),
    {
        let n = self.header_sip.len();
        if self.header_ptr.len() != n {
            return false;
        }
        if n == 0 || n > 0x0CCC_CCCC {
            return false;
        }
        let ip_len = self.db_type.bytes_len();
        let blen = self.db_type.index_block_len();
        let mut i: usize = 0;
        while i < n
            invariant
                n == self.header_sip@.len(),
                n == self.header_ptr@.len(),
                0 < n <= 0x0CCC_CCCC,
                i <= n,
                ip_len == self.db_type.spec_bytes_len(),
                blen == self.db_type.spec_index_block_len(),
                forall|j: int|
                    0 < j < i ==> bytes_lt_upto(
                        #[trigger] self.header_sip@[j - 1]@,
                        self.header_sip@[j]@,
                        ip_len as int,
                    ),
                forall|j: int|
                    0 <= j < i ==> 0 < #[trigger] self.header_ptr@[j] && self.header_ptr@[j]
                        + blen <= u32::MAX,
            decreases n - i,
        {
            if i > 0 {
                let prev = &self.header_sip[i - 1];
                let cur = &self.header_sip[i];
                let ord = crate::order::compare_bytes(prev.as_slice(), cur.as_slice(), ip_len);
                if !matches!(ord, core::cmp::Ordering::Less) {
                    proof {
                        crate::order::lemma_bytes_order_trichotomy(
                            self.header_sip@[i - 1]@,
                            self.header_sip@[i as int]@,
                            ip_len as int,
                        );
                    }
                    return false;
                }
            }
            let ptr = self.header_ptr[i];
            if ptr == 0 || ptr as u64 + blen as u64 > u32::MAX as u64 {
                return false;
            }
            i = i + 1;
        }
        proof {
            assert forall|a: int, b: int|
                0 <= a < b < self.header_sip@.len() implies bytes_lt_upto(
                #[trigger] self.header_sip@[a]@,
                #[trigger] self.header_sip@[b]@,
                self.db_type.spec_bytes_len() as int,
            ) by {
                let views = self.header_sip@.map_values(|x: [u8; 16]| x@);
                assert(forall|j: int|
                    0 < j < views.len() ==> bytes_lt_upto(
                        #[trigger] views[j - 1],
                        views[j],
                        self.db_type.spec_bytes_len() as int,
                    ));
                lemma_adjacent_sorted_pairwise(views, self.db_type.spec_bytes_len() as int, b);
                assert(views[a] == self.header_sip@[a]@ && views[b] == self.header_sip@[b]@);
            }
        }
        true
    }
}

} // verus!
