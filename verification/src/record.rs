//! The region record format and its decoder.
//!
//! A region record is a serialized pair `(geo_mix, other)`: a
//! self-describing unsigned integer followed by a string, in the
//! MessagePack encoding. When `geo_mix` is non-zero, its high 8 bits give
//! a length and its low 24 bits an offset into the decrypted column
//! dictionary, where a serialized array of strings holds the shared
//! column values; the columns selected by the column-selection mask are
//! joined, each followed by a tab, and the record's own string closes the
//! region text.

use vstd::prelude::*;
use vstd::slice::{slice_subrange, slice_to_vec};
use vstd::string::*;
use vstd::utf8::{decode_utf8, valid_utf8};
use vstd::arithmetic::power2::{lemma_pow2_strictly_increases, lemma2_to64, lemma2_to64_rest};
use crate::meta::DbMeta;
use crate::order::{be_value, be_value_of, lemma_be_value_bound};

verus! {

broadcast use vstd::slice::axiom_spec_len;

/// Relies on `String::from_utf8`: it succeeds exactly on valid UTF-8 and
/// yields the characters the bytes encode.
#[verifier::external_body]
pub(crate) fn string_from_utf8(v: Vec<u8>) -> (r: Option<String>)
    ensures
        match r {
            Some(s) => (valid_utf8(v@) && s@ == decode_utf8(v@)),
            None => !valid_utf8(v@),
        },
{
    String::from_utf8(v).ok()
}

/// The self-describing integer starting at `pos`, with the position that
/// follows it. A negative integer is kept as zero; any other shape is
/// refused.
pub open spec fn mp_uint_at(b: Seq<u8>, pos: int) -> Option<(u64, int)> {
    if pos < 0 || pos >= b.len() {
        None
    } else {
        let tag = b[pos];
        if tag <= 0x7f {
            Some((tag as u64, pos + 1))
        } else if tag == 0xcc && pos + 2 <= b.len() {
            Some((b[pos + 1] as u64, pos + 2))
        } else if tag == 0xcd && pos + 3 <= b.len() {
            Some((be_value(b.subrange(pos + 1, pos + 3)) as u64, pos + 3))
        } else if tag == 0xce && pos + 5 <= b.len() {
            Some((be_value(b.subrange(pos + 1, pos + 5)) as u64, pos + 5))
        } else if tag == 0xcf && pos + 9 <= b.len() {
            Some((be_value(b.subrange(pos + 1, pos + 9)) as u64, pos + 9))
        } else if tag == 0xd0 && pos + 2 <= b.len() {
            Some(((if b[pos + 1] < 0x80 { b[pos + 1] as u64 } else { 0u64 }), pos + 2))
        } else if tag == 0xd1 && pos + 3 <= b.len() {
            Some((
                (if b[pos + 1] < 0x80 { be_value(b.subrange(pos + 1, pos + 3)) as u64 } else { 0u64 }),
                pos + 3,
            ))
        } else if tag == 0xd2 && pos + 5 <= b.len() {
            Some((
                (if b[pos + 1] < 0x80 { be_value(b.subrange(pos + 1, pos + 5)) as u64 } else { 0u64 }),
                pos + 5,
            ))
        } else if tag == 0xd3 && pos + 9 <= b.len() {
            Some((
                (if b[pos + 1] < 0x80 { be_value(b.subrange(pos + 1, pos + 9)) as u64 } else { 0u64 }),
                pos + 9,
            ))
        } else if tag >= 0xe0 {
            Some((0u64, pos + 1))
        } else {
            None
        }
    }
}

/// True of the four markers that open a serialized string.
pub open spec fn is_str_tag(t: u8) -> bool {
    (0xa0 <= t && t <= 0xbf) || t == 0xd9 || t == 0xda || t == 0xdb
}

/// The raw bytes of the serialized string starting at `pos`, with the
/// position that follows it.
pub open spec fn mp_str_at(b: Seq<u8>, pos: int) -> Option<(Seq<u8>, int)> {
    if pos < 0 || pos >= b.len() {
        None
    } else {
        let tag = b[pos];
        if 0xa0 <= tag && tag <= 0xbf {
            let n = (tag - 0xa0) as int;
            if pos + 1 + n <= b.len() {
                Some((b.subrange(pos + 1, pos + 1 + n), pos + 1 + n))
            } else {
                None
            }
        } else if tag == 0xd9 && pos + 2 <= b.len() {
            let n = b[pos + 1] as int;
            if pos + 2 + n <= b.len() {
                Some((b.subrange(pos + 2, pos + 2 + n), pos + 2 + n))
            } else {
                None
            }
        } else if tag == 0xda && pos + 3 <= b.len() {
            let n = be_value(b.subrange(pos + 1, pos + 3));
            if pos + 3 + n <= b.len() {
                Some((b.subrange(pos + 3, pos + 3 + n), pos + 3 + n))
            } else {
                None
            }
        } else if tag == 0xdb && pos + 5 <= b.len() {
            let n = be_value(b.subrange(pos + 1, pos + 5));
            if pos + 5 + n <= b.len() {
                Some((b.subrange(pos + 5, pos + 5 + n), pos + 5 + n))
            } else {
                None
            }
        } else {
            None
        }
    }
}

/// How many bytes a scalar value under this marker occupies, marker
/// included, or zero when the marker opens no skippable scalar.
pub open spec fn scalar_width(t: u8) -> int {
    if t <= 0x7f || t >= 0xe0 || t == 0xc0 || t == 0xc2 || t == 0xc3 {
        1
    } else if t == 0xcc || t == 0xd0 {
        2
    } else if t == 0xcd || t == 0xd1 {
        3
    } else if t == 0xce || t == 0xd2 || t == 0xca {
        5
    } else if t == 0xcf || t == 0xd3 || t == 0xcb {
        9
    } else {
        0
    }
}

/// One dictionary column element starting at `pos`: the bytes of a
/// string, or nothing for a scalar of another shape (which reads as the
/// literal `null`), with the position that follows.
pub open spec fn mp_text_elem_at(b: Seq<u8>, pos: int) -> Option<(Option<Seq<u8>>, int)> {
    if pos < 0 || pos >= b.len() {
        None
    } else {
        let tag = b[pos];
        if is_str_tag(tag) {
            match mp_str_at(b, pos) {
                Some((s, p)) => Some((Some(s), p)),
                None => None,
            }
        } else if scalar_width(tag) > 0 && pos + scalar_width(tag) <= b.len() {
            Some((None, pos + scalar_width(tag)))
        } else {
            None
        }
    }
}

/// The count of a serialized array starting at `pos`, with the position
/// of its first element.
pub open spec fn mp_array_head_at(b: Seq<u8>, pos: int) -> Option<(int, int)> {
    if pos < 0 || pos >= b.len() {
        None
    } else {
        let tag = b[pos];
        if 0x90 <= tag && tag <= 0x9f {
            Some(((tag - 0x90) as int, pos + 1))
        } else if tag == 0xdc && pos + 3 <= b.len() {
            Some((be_value(b.subrange(pos + 1, pos + 3)), pos + 3))
        } else if tag == 0xdd && pos + 5 <= b.len() {
            Some((be_value(b.subrange(pos + 1, pos + 5)), pos + 5))
        } else {
            None
        }
    }
}

/// `count` column elements in a row starting at `pos`.
pub open spec fn mp_text_seq_at(b: Seq<u8>, pos: int, count: int) -> Option<Seq<Option<Seq<u8>>>>
    decreases count,
{
    if count <= 0 {
        Some(Seq::empty())
    } else {
        match mp_text_elem_at(b, pos) {
            None => None,
            Some((e, p2)) => match mp_text_seq_at(b, p2, count - 1) {
                None => None,
                Some(rest) => Some(seq![e] + rest),
            },
        }
    }
}

/// The four characters of the literal `null`.
pub open spec fn null_text() -> Seq<char> {
    "null"@
}

/// The text a record's own string contributes: its characters, or `null`
/// when the bytes are not valid UTF-8.
pub open spec fn other_text(s: Seq<u8>) -> Seq<char> {
    if valid_utf8(s) {
        decode_utf8(s)
    } else {
        null_text()
    }
}

/// The text one dictionary column contributes: its characters, or `null`
/// when it is absent, empty or not valid UTF-8.
pub open spec fn elem_text(e: Option<Seq<u8>>) -> Seq<char> {
    match e {
        None => null_text(),
        Some(s) => if s.len() == 0 || !valid_utf8(s) {
            null_text()
        } else {
            decode_utf8(s)
        },
    }
}

/// Column `i` is selected when bit `i + 1` of the mask is set.
pub open spec fn spec_selected(colsel: u64, i: int) -> bool {
    0 <= i < 63 && (colsel >> ((i + 1) as u64)) & 1 == 1
}

/// The text of the first `i` columns: each selected column's text
/// followed by a tab.
pub open spec fn spec_join_upto(cols: Seq<Option<Seq<u8>>>, colsel: u64, i: int) -> Seq<char>
    decreases i,
{
    if i <= 0 {
        Seq::empty()
    } else {
        spec_join_upto(cols, colsel, i - 1) + (if spec_selected(colsel, i - 1) {
            elem_text(cols[i - 1]) + "\t"@
        } else {
            Seq::empty()
        })
    }
}

/// What decoding a region record yields under a column-selection mask and
/// an optional dictionary: the joined selected columns, closed by the
/// record's own string; or nothing when the record or a referenced
/// dictionary entry does not decode.
pub open spec fn spec_region_text(record: Seq<u8>, colsel: u64, dict: Option<Seq<u8>>) -> Option<
    Seq<char>,
> {
    match mp_uint_at(record, 0) {
        None => None,
        Some((u, p)) => match mp_str_at(record, p) {
            None => None,
            Some((sbytes, _)) => {
                let other = other_text(sbytes);
                if u == 0 {
                    Some(other)
                } else {
                    let dl = ((u >> 24) & 0xff) as int;
                    let doff = (u & 0x00ffffff) as int;
                    match dict {
                        None => None,
                        Some(d) => if doff + dl > d.len() {
                            None
                        } else {
                            let sub = d.subrange(doff, doff + dl);
                            match mp_array_head_at(sub, 0) {
                                None => None,
                                Some((n, ap)) => match mp_text_seq_at(sub, ap, n) {
                                    None => None,
                                    Some(cols) => Some(
                                        spec_join_upto(cols, colsel, cols.len() as int) + other,
                                    ),
                                },
                            }
                        },
                    }
                }
            },
        },
    }
}

/// Collapse up to eight big-endian bytes to a `u64`.
fn be_u64_at(data: &[u8], pos: usize, n: usize) -> (r: u64)
    requires
        pos + n <= data@.len(),
        n <= 8,
    ensures
        r == be_value(data@.subrange(pos as int, pos as int + n as int)),
{
    let v = be_value_of(data, pos, n);
    proof {
        lemma_be_value_bound(data@.subrange(pos as int, pos as int + n as int));
        if 8 * (n as nat) < 64 {
            lemma_pow2_strictly_increases(8 * (n as nat), 64);
        }
        lemma2_to64();
        lemma2_to64_rest();
    }
    v as u64
}

/// Read the record's leading integer.
pub fn mp_read_uint(data: &[u8], pos: usize) -> (r: Option<(u64, usize)>)
    ensures
        match r {
            Some((v, p)) => (mp_uint_at(data@, pos as int) == Some((v, p as int)) && pos < p
                <= data@.len()),
            None => mp_uint_at(data@, pos as int) is None,
        },
{
    let dlen = data.len();
    if pos >= dlen {
        return None;
    }
    let tag = data[pos];
    if tag <= 0x7f {
        Some((tag as u64, pos + 1))
    } else if tag == 0xcc && dlen - pos >= 2 {
        Some((data[pos + 1] as u64, pos + 2))
    } else if tag == 0xcd && dlen - pos >= 3 {
        Some((be_u64_at(data, pos + 1, 2), pos + 3))
    } else if tag == 0xce && dlen - pos >= 5 {
        Some((be_u64_at(data, pos + 1, 4), pos + 5))
    } else if tag == 0xcf && dlen - pos >= 9 {
        Some((be_u64_at(data, pos + 1, 8), pos + 9))
    } else if tag == 0xd0 && dlen - pos >= 2 {
        let b1 = data[pos + 1];
        Some(((if b1 < 0x80 { b1 as u64 } else { 0 }), pos + 2))
    } else if tag == 0xd1 && dlen - pos >= 3 {
        let b1 = data[pos + 1];
        Some(((if b1 < 0x80 { be_u64_at(data, pos + 1, 2) } else { 0 }), pos + 3))
    } else if tag == 0xd2 && dlen - pos >= 5 {
        let b1 = data[pos + 1];
        Some(((if b1 < 0x80 { be_u64_at(data, pos + 1, 4) } else { 0 }), pos + 5))
    } else if tag == 0xd3 && dlen - pos >= 9 {
        let b1 = data[pos + 1];
        Some(((if b1 < 0x80 { be_u64_at(data, pos + 1, 8) } else { 0 }), pos + 9))
    } else if tag >= 0xe0 {
        Some((0, pos + 1))
    } else {
        None
    }
}

/// Read a serialized string's byte range: `((start, len), next)`.
pub fn mp_read_str(data: &[u8], pos: usize) -> (r: Option<((usize, usize), usize)>)
    ensures
        match r {
            Some(((s, l), p)) => (mp_str_at(data@, pos as int) == Some(
                (data@.subrange(s as int, s as int + l as int), p as int),
            ) && s + l <= data@.len() && pos < p <= data@.len()),
            None => mp_str_at(data@, pos as int) is None,
        },
{
    let dlen = data.len();
    if pos >= dlen {
        return None;
    }
    let tag = data[pos];
    if 0xa0 <= tag && tag <= 0xbf {
        let n = (tag - 0xa0) as usize;
        if n <= dlen - pos - 1 {
            Some(((pos + 1, n), pos + 1 + n))
        } else {
            None
        }
    } else if tag == 0xd9 && dlen - pos >= 2 {
        let n = data[pos + 1] as usize;
        if n <= dlen - pos - 2 {
            Some(((pos + 2, n), pos + 2 + n))
        } else {
            None
        }
    } else if tag == 0xda && dlen - pos >= 3 {
        let n64 = be_u64_at(data, pos + 1, 2);
        proof {
            lemma_be_value_bound(data@.subrange(pos as int + 1, pos as int + 3));
            lemma2_to64();
        }
        let n = n64 as usize;
        if n <= dlen - pos - 3 {
            Some(((pos + 3, n), pos + 3 + n))
        } else {
            None
        }
    } else if tag == 0xdb && dlen - pos >= 5 {
        let n64 = be_u64_at(data, pos + 1, 4);
        proof {
            lemma_be_value_bound(data@.subrange(pos as int + 1, pos as int + 5));
            lemma2_to64();
            lemma2_to64_rest();
        }
        let n = n64 as usize;
        if n <= dlen - pos - 5 {
            Some(((pos + 5, n), pos + 5 + n))
        } else {
            None
        }
    } else {
        None
    }
}

/// Read one dictionary column element: a string's byte range, or nothing
/// for a scalar of another shape.
pub fn mp_read_text_elem(data: &[u8], pos: usize) -> (r: Option<(Option<(usize, usize)>, usize)>)
    ensures
        match r {
            Some((Some((s, l)), p)) => (mp_text_elem_at(data@, pos as int) == Some(
                (Some(data@.subrange(s as int, s as int + l as int)), p as int),
            ) && s + l <= data@.len() && pos < p <= data@.len()),
            Some((None, p)) => (mp_text_elem_at(data@, pos as int) == Some(
                (None::<Seq<u8>>, p as int),
            ) && pos < p <= data@.len()),
            None => mp_text_elem_at(data@, pos as int) is None,
        },
{
    let dlen = data.len();
    if pos >= dlen {
        return None;
    }
    let tag = data[pos];
    if (0xa0 <= tag && tag <= 0xbf) || tag == 0xd9 || tag == 0xda || tag == 0xdb {
        match mp_read_str(data, pos) {
            Some((range, p)) => Some((Some(range), p)),
            None => None,
        }
    } else {
        let w: usize = if tag <= 0x7f || tag >= 0xe0 || tag == 0xc0 || tag == 0xc2 || tag == 0xc3 {
            1
        } else if tag == 0xcc || tag == 0xd0 {
            2
        } else if tag == 0xcd || tag == 0xd1 {
            3
        } else if tag == 0xce || tag == 0xd2 || tag == 0xca {
            5
        } else if tag == 0xcf || tag == 0xd3 || tag == 0xcb {
            9
        } else {
            0
        };
        if w > 0 && w <= dlen - pos {
            Some((None, pos + w))
        } else {
            None
        }
    }
}

/// Read an array's element count.
pub fn mp_read_array_head(data: &[u8], pos: usize) -> (r: Option<(u64, usize)>)
    ensures
        match r {
            Some((n, p)) => (mp_array_head_at(data@, pos as int) == Some((n as int, p as int))
                && pos < p <= data@.len()),
            None => mp_array_head_at(data@, pos as int) is None,
        },
{
    let dlen = data.len();
    if pos >= dlen {
        return None;
    }
    let tag = data[pos];
    if 0x90 <= tag && tag <= 0x9f {
        Some(((tag - 0x90) as u64, pos + 1))
    } else if tag == 0xdc && dlen - pos >= 3 {
        Some((be_u64_at(data, pos + 1, 2), pos + 3))
    } else if tag == 0xdd && dlen - pos >= 5 {
        Some((be_u64_at(data, pos + 1, 4), pos + 5))
    } else {
        None
    }
}

/// The text of one column element, from its decoded byte range.
fn column_string(data: &[u8], start: usize, len: usize) -> (r: String)
    requires
        start + len <= data@.len(),
    ensures
        r@ == elem_text(Some(data@.subrange(start as int, start as int + len as int))),
{
    let dlen = data.len();
    if len == 0 {
        return String::from_str("null");
    }
    let bytes = slice_to_vec(slice_subrange(data, start, start + len));
    match string_from_utf8(bytes) {
        Some(s) => s,
        None => String::from_str("null"),
    }
}

/// Decode a region record into its text, resolving shared columns through
/// the dictionary when the record asks for them.
pub fn decode_region_from_bytes(region_bytes: &[u8], meta: &DbMeta) -> (r: Option<String>)
    ensures
        match r {
            Some(s) => spec_region_text(
                region_bytes@,
                meta.column_selection,
                meta.model().geo_map_data,
            ) == Some(s@),
            None => spec_region_text(
                region_bytes@,
                meta.column_selection,
                meta.model().geo_map_data,
            ) is None,
        },
{
    let rlen = region_bytes.len();
    let (u, p) = match mp_read_uint(region_bytes, 0) {
        Some(t) => t,
        None => {
            return None;
        },
    };
    let ((os, ol), _op) = match mp_read_str(region_bytes, p) {
        Some(t) => t,
        None => {
            return None;
        },
    };
    let other: String = {
        let bytes = slice_to_vec(slice_subrange(region_bytes, os, os + ol));
        match string_from_utf8(bytes) {
            Some(s) => s,
            None => String::from_str("null"),
        }
    };
    if u == 0 {
        return Some(other);
    }
    proof {
        assert((u >> 24u64) & 0xff < 256) by (bit_vector);
        assert(u & 0x00ffffff < 0x1000000) by (bit_vector);
    }
    let dl = ((u >> 24u64) & 0xff) as usize;
    let doff = (u & 0x00ffffff) as usize;
    let dict: &Vec<u8> = match &meta.geo_map_data {
        Some(d) => d,
        None => {
            return None;
        },
    };
    if doff + dl > dict.len() {
        return None;
    }
    let sub = slice_subrange(dict.as_slice(), doff, doff + dl);
    let slen = sub.len();
    let (n, ap) = match mp_read_array_head(sub, 0) {
        Some(t) => t,
        None => {
            return None;
        },
    };
    let ghost full = mp_text_seq_at(sub@, ap as int, n as int);
    proof {
        assert(spec_region_text(region_bytes@, meta.column_selection, meta.model().geo_map_data)
            == match full {
            None => None::<Seq<char>>,
            Some(cols) => Some(
                spec_join_upto(cols, meta.column_selection, cols.len() as int) + other_text(
                    region_bytes@.subrange(os as int, os as int + ol as int),
                ),
            ),
        });
    }
    let mut region = String::new();
    let mut pos: usize = ap;
    let mut k: u64 = 0;
    let ghost mut parsed: Seq<Option<Seq<u8>>> = Seq::empty();
    let colsel = meta.column_selection;
    while k < n
        invariant
            k <= n,
            parsed.len() == k,
            pos <= sub@.len(),
            colsel == meta.column_selection,
            full == mp_text_seq_at(sub@, ap as int, n as int),
            spec_region_text(region_bytes@, meta.column_selection, meta.model().geo_map_data)
                == match full {
                None => None::<Seq<char>>,
                Some(cols) => Some(
                    spec_join_upto(cols, meta.column_selection, cols.len() as int) + other_text(
                        region_bytes@.subrange(os as int, os as int + ol as int),
                    ),
                ),
            },
            other@ == other_text(region_bytes@.subrange(os as int, os as int + ol as int)),
            full == match mp_text_seq_at(sub@, pos as int, (n - k) as int) {
                None => None::<Seq<Option<Seq<u8>>>>,
                Some(rest) => Some(parsed + rest),
            },
            region@ == spec_join_upto(parsed, colsel, k as int),
        decreases n - k,
    {
        let ghost region_before = region@;
        let (elem, p2) = match mp_read_text_elem(sub, pos) {
            Some(t) => t,
            None => {
                proof {
                    assert(mp_text_seq_at(sub@, pos as int, (n - k) as int) is None);
                }
                return None;
            },
        };
        let ghost elem_spec: Option<Seq<u8>> = match elem {
            Some((s, l)) => Some(sub@.subrange(s as int, s as int + l as int)),
            None => None,
        };
        proof {
            let rest2 = mp_text_seq_at(sub@, p2 as int, (n - k) as int - 1);
            assert(mp_text_seq_at(sub@, pos as int, (n - k) as int) == match rest2 {
                None => None::<Seq<Option<Seq<u8>>>>,
                Some(rr) => Some(seq![elem_spec] + rr),
            });
            match rest2 {
                None => {},
                Some(rr) => {
                    assert(parsed + (seq![elem_spec] + rr) =~= parsed.push(elem_spec) + rr);
                },
            }
        }
        let selected = k < 63 && ((colsel >> (k + 1)) & 1) == 1;
        proof {
            assert(selected == spec_selected(colsel, k as int));
        }
        if selected {
            let coltext: String = match elem {
                Some((s, l)) => column_string(sub, s, l),
                None => String::from_str("null"),
            };
            region.append(coltext.as_str());
            region.append("\t");
            proof {
                assert(coltext@ == elem_text(elem_spec));
                assert(region@ =~= region_before + (elem_text(elem_spec) + "\t"@));
            }
        }
        proof {
            let oldparsed = parsed;
            parsed = parsed.push(elem_spec);
            lemma_join_upto_prefix(oldparsed, parsed, colsel, k as int);
            assert(parsed[k as int] == elem_spec);
            if spec_selected(colsel, k as int) {
                assert(region@ == spec_join_upto(parsed, colsel, k as int + 1));
            } else {
                assert(spec_join_upto(parsed, colsel, k as int + 1) =~= spec_join_upto(
                    parsed,
                    colsel,
                    k as int,
                ));
                assert(region@ == spec_join_upto(parsed, colsel, k as int + 1));
            }
        }
        pos = p2;
        k = k + 1;
    }
    proof {
        assert(mp_text_seq_at(sub@, pos as int, 0) == Some(Seq::<Option<Seq<u8>>>::empty()));
        assert(parsed + Seq::<Option<Seq<u8>>>::empty() =~= parsed);
        assert(full == Some(parsed));
    }
    region.append(other.as_str());
    Some(region)
}

/// The join of the first `i` columns reads only those columns: a longer
/// sequence agreeing on them joins the same.
proof fn lemma_join_upto_prefix(a: Seq<Option<Seq<u8>>>, b: Seq<Option<Seq<u8>>>, colsel: u64, i: int)
    requires
        i <= a.len(),
        i <= b.len(),
        forall|j: int| 0 <= j < i ==> a[j] == b[j],
    ensures
        spec_join_upto(a, colsel, i) == spec_join_upto(b, colsel, i),
    decreases i,
{
    if i > 0 {
        lemma_join_upto_prefix(a, b, colsel, i - 1);
    }
}

} // verus!
