//! Byte-level comparison and integer views of IP keys.
//!
//! IP keys are compared as raw bytes over a fixed significant prefix
//! (4 bytes for IPv4, 16 for IPv6). This module defines that order as a
//! specification, the executable comparator, and the collapse of a key
//! to an unsigned integer that orders the same way.

use vstd::prelude::*;
use vstd::arithmetic::mul::lemma_mul_inequality;
use vstd::arithmetic::power2::{pow2, lemma_pow2_adds, lemma_pow2_strictly_increases, lemma2_to64};
use vstd::slice::slice_subrange;
use core::cmp::Ordering;

verus! {

broadcast use vstd::slice::axiom_spec_len;

/// The first `n` bytes of `a` and `b` agree.
pub open spec fn bytes_eq_upto(a: Seq<u8>, b: Seq<u8>, n: int) -> bool {
    forall|i: int| 0 <= i < n ==> a[i] == b[i]
}

/// `a` is lexicographically below `b` on the first `n` bytes: at the first
/// position where they differ, `a` holds the smaller byte.
pub open spec fn bytes_lt_upto(a: Seq<u8>, b: Seq<u8>, n: int) -> bool {
    exists|i: int|
        0 <= i < n && a[i] < b[i] && (forall|j: int| 0 <= j < i ==> a[j] == b[j])
}

/// Exactly one of `a < b`, `a == b`, `b < a` holds on any prefix.
pub proof fn lemma_bytes_order_trichotomy(a: Seq<u8>, b: Seq<u8>, n: int)
    requires
        a.len() >= n,
        b.len() >= n,
    ensures
        bytes_lt_upto(a, b, n) || bytes_lt_upto(b, a, n) || bytes_eq_upto(a, b, n),
        bytes_lt_upto(a, b, n) ==> !bytes_lt_upto(b, a, n) && !bytes_eq_upto(a, b, n),
        bytes_eq_upto(a, b, n) ==> !bytes_lt_upto(a, b, n) && !bytes_lt_upto(b, a, n),
{
    if !bytes_eq_upto(a, b, n) {
        let d = choose|i: int| 0 <= i < n && a[i] != b[i];
        lemma_first_difference(a, b, n, d);
    }
    if bytes_lt_upto(a, b, n) && bytes_lt_upto(b, a, n) {
        let i = choose|i: int|
            0 <= i < n && a[i] < b[i] && (forall|j: int| 0 <= j < i ==> a[j] == b[j]);
        let k = choose|k: int|
            0 <= k < n && b[k] < a[k] && (forall|j: int| 0 <= j < k ==> b[j] == a[j]);
        assert(i != k);
        assert(i < k ==> a[i] == b[i]);
        assert(k < i ==> a[k] == b[k]);
    }
}

/// If `a` and `b` differ somewhere below `n`, one is lexicographically
/// below the other.
proof fn lemma_first_difference(a: Seq<u8>, b: Seq<u8>, n: int, d: int)
    requires
        0 <= d < n,
        a[d] != b[d],
    ensures
        bytes_lt_upto(a, b, n) || bytes_lt_upto(b, a, n),
    decreases d,
{
    if forall|j: int| 0 <= j < d ==> a[j] == b[j] {
        if a[d] < b[d] {
            assert(bytes_lt_upto(a, b, n));
        } else {
            assert(bytes_lt_upto(b, a, n));
        }
    } else {
        let d2 = choose|j: int| 0 <= j < d && a[j] != b[j];
        lemma_first_difference(a, b, n, d2);
    }
}

/// The prefix order is transitive.
pub proof fn lemma_bytes_lt_transitive(a: Seq<u8>, b: Seq<u8>, c: Seq<u8>, n: int)
    requires
        bytes_lt_upto(a, b, n),
        bytes_lt_upto(b, c, n),
    ensures
        bytes_lt_upto(a, c, n),
{
    let i = choose|i: int|
        0 <= i < n && a[i] < b[i] && (forall|j: int| 0 <= j < i ==> a[j] == b[j]);
    let k = choose|k: int|
        0 <= k < n && b[k] < c[k] && (forall|j: int| 0 <= j < k ==> b[j] == c[j]);
    if i < k {
        assert(a[i] < c[i] && (forall|j: int| 0 <= j < i ==> a[j] == c[j]));
    } else {
        assert(a[k] < c[k] && (forall|j: int| 0 <= j < k ==> a[j] == c[j]));
    }
}

/// Compare two byte slices over their first `length` bytes.
pub fn compare_bytes(a: &[u8], b: &[u8], length: usize) -> (r: Ordering)
    requires
        a@.len() >= length,
        b@.len() >= length,
    ensures
        r matches Ordering::Less <==> bytes_lt_upto(a@, b@, length as int),
        r matches Ordering::Greater <==> bytes_lt_upto(b@, a@, length as int),
        r matches Ordering::Equal <==> bytes_eq_upto(a@, b@, length as int),
{
    proof {
        lemma_bytes_order_trichotomy(a@, b@, length as int);
    }
    let mut i: usize = 0;
    while i < length
        invariant
            i <= length,
            a@.len() >= length,
            b@.len() >= length,
            forall|j: int| 0 <= j < i ==> a@[j] == b@[j],
            bytes_lt_upto(a@, b@, length as int) || bytes_lt_upto(b@, a@, length as int)
                || bytes_eq_upto(a@, b@, length as int),
        decreases length - i,
    {
        if a[i] < b[i] {
            return Ordering::Less;
        } else if a[i] > b[i] {
            return Ordering::Greater;
        }
        i = i + 1;
    }
    Ordering::Equal
}

/// The unsigned integer that big-endian bytes denote.
pub open spec fn be_value(s: Seq<u8>) -> int
    decreases s.len(),
{
    if s.len() == 0 {
        0
    } else {
        be_value(s.drop_last()) * 256 + s.last()
    }
}

/// A big-endian value fits below two to the eight times its byte count.
pub proof fn lemma_be_value_bound(s: Seq<u8>)
    ensures
        0 <= be_value(s) < pow2(8 * s.len()),
    decreases s.len(),
{
    if s.len() == 0 {
        assert(pow2(0) == 1) by {
            lemma2_to64();
        }
    } else {
        lemma_be_value_bound(s.drop_last());
        lemma_pow2_adds(8 * (s.len() - 1) as nat, 8);
        assert(pow2(8) == 256) by {
            lemma2_to64();
        }
        lemma_mul_inequality(be_value(s.drop_last()) + 1, pow2(8 * (s.len() - 1) as nat) as int, 256);
    }
}

/// Big-endian bytes order the same way as the integers they denote.
pub proof fn lemma_be_value_orders(a: Seq<u8>, b: Seq<u8>, n: int)
    requires
        a.len() == n,
        b.len() == n,
        n >= 0,
    ensures
        bytes_lt_upto(a, b, n) <==> be_value(a) < be_value(b),
        bytes_eq_upto(a, b, n) <==> be_value(a) == be_value(b),
    decreases n,
{
    lemma_bytes_order_trichotomy(a, b, n);
    if n == 0 {
    } else {
        let a0 = a.drop_last();
        let b0 = b.drop_last();
        lemma_be_value_orders(a0, b0, n - 1);
        lemma_be_value_bound(a0);
        lemma_be_value_bound(b0);
        if bytes_eq_upto(a, b, n) {
            assert(bytes_eq_upto(a0, b0, n - 1));
            assert(a.last() == b.last());
        } else if bytes_lt_upto(a, b, n) {
            let i = choose|i: int|
                0 <= i < n && a[i] < b[i] && (forall|j: int| 0 <= j < i ==> a[j] == b[j]);
            if i < n - 1 {
                assert(bytes_lt_upto(a0, b0, n - 1)) by {
                    assert(a0[i] == a[i] && b0[i] == b[i]);
                    assert(forall|j: int| 0 <= j < i ==> a0[j] == b0[j]);
                }
            } else {
                assert(bytes_eq_upto(a0, b0, n - 1));
                assert(a.last() < b.last());
            }
        } else {
            let i = choose|i: int|
                0 <= i < n && b[i] < a[i] && (forall|j: int| 0 <= j < i ==> b[j] == a[j]);
            if i < n - 1 {
                assert(bytes_lt_upto(b0, a0, n - 1)) by {
                    assert(a0[i] == a[i] && b0[i] == b[i]);
                    assert(forall|j: int| 0 <= j < i ==> b0[j] == a0[j]);
                }
            } else {
                assert(bytes_eq_upto(b0, a0, n - 1));
                assert(bytes_eq_upto(a0, b0, n - 1));
                assert(b.last() < a.last());
            }
        }
    }
}

/// Collapse `n` big-endian bytes of `data`, starting at `pos`, to an integer.
pub fn be_value_of(data: &[u8], pos: usize, n: usize) -> (r: u128)
    requires
        pos + n <= data@.len(),
        n <= 16,
    ensures
        r == be_value(data@.subrange(pos as int, pos as int + n as int)),
{
    let dlen: usize = data.len();
    let mut r: u128 = 0;
    let mut i: usize = 0;
    proof {
        assert(data@.subrange(pos as int, pos as int).len() == 0);
    }
    while i < n
        invariant
            i <= n,
            n <= 16,
            pos + n <= dlen == data@.len(),
            r == be_value(data@.subrange(pos as int, pos as int + i as int)),
        decreases n - i,
    {
        proof {
            let part = data@.subrange(pos as int, pos as int + i as int);
            lemma_be_value_bound(part);
            lemma_pow2_adds(8 * i as nat, 8);
            assert(pow2(8) == 256) by {
                lemma2_to64();
            }
            if 8 * (i as nat) + 8 < 128 {
                lemma_pow2_strictly_increases(8 * i as nat + 8, 128);
            }
            assert(pow2(128) == 0x1_0000_0000_0000_0000_0000_0000_0000_0000) by {
                lemma_pow2_adds(64, 64);
                lemma2_to64();
            }
            lemma_mul_inequality(be_value(part) + 1, pow2(8 * i as nat) as int, 256);
            assert(data@.subrange(pos as int, pos as int + i as int + 1).drop_last()
                =~= part);
        }
        r = r * 256 + data[pos + i] as u128;
        i = i + 1;
    }
    proof {
        assert(data@.subrange(pos as int, pos as int + n as int)
            =~= data@.subrange(pos as int, pos as int + i as int));
    }
    r
}

/// Read a little-endian `u32` at `pos`.
pub fn read_le_u32(data: &[u8], pos: usize) -> (r: u32)
    requires
        pos + 4 <= data@.len(),
    ensures
        r == vstd::bytes::spec_u32_from_le_bytes(data@.subrange(pos as int, pos as int + 4)),
{
    let dlen: usize = data.len();
    let s = slice_subrange(data, pos, pos + 4);
    vstd::bytes::u32_from_le_bytes(s)
}

/// A strict step absorbs an equal prefix on its right.
pub proof fn lemma_bytes_lt_eq_right(a: Seq<u8>, b: Seq<u8>, c: Seq<u8>, n: int)
    requires
        bytes_lt_upto(a, b, n),
        bytes_eq_upto(b, c, n),
    ensures
        bytes_lt_upto(a, c, n),
{
    let i = choose|i: int|
        0 <= i < n && a[i] < b[i] && (forall|j: int| 0 <= j < i ==> a[j] == b[j]);
    assert(a[i] < c[i] && (forall|j: int| 0 <= j < i ==> a[j] == c[j]));
}

/// A strict step absorbs an equal prefix on its left.
pub proof fn lemma_bytes_eq_lt_left(a: Seq<u8>, b: Seq<u8>, c: Seq<u8>, n: int)
    requires
        bytes_eq_upto(a, b, n),
        bytes_lt_upto(b, c, n),
    ensures
        bytes_lt_upto(a, c, n),
{
    let i = choose|i: int|
        0 <= i < n && b[i] < c[i] && (forall|j: int| 0 <= j < i ==> b[j] == c[j]);
    assert(a[i] < c[i] && (forall|j: int| 0 <= j < i ==> a[j] == c[j]));
}

/// A strict step followed by a non-strict one stays strict.
pub proof fn lemma_bytes_lt_le(a: Seq<u8>, b: Seq<u8>, c: Seq<u8>, n: int)
    requires
        bytes_lt_upto(a, b, n),
        !bytes_lt_upto(c, b, n),
        b.len() >= n,
        c.len() >= n,
    ensures
        bytes_lt_upto(a, c, n),
{
    lemma_bytes_order_trichotomy(b, c, n);
    if bytes_lt_upto(b, c, n) {
        lemma_bytes_lt_transitive(a, b, c, n);
    } else {
        lemma_bytes_lt_eq_right(a, b, c, n);
    }
}

/// A non-strict step followed by a strict one stays strict.
pub proof fn lemma_bytes_le_lt(a: Seq<u8>, b: Seq<u8>, c: Seq<u8>, n: int)
    requires
        !bytes_lt_upto(b, a, n),
        bytes_lt_upto(b, c, n),
        a.len() >= n,
        b.len() >= n,
    ensures
        bytes_lt_upto(a, c, n),
{
    lemma_bytes_order_trichotomy(a, b, n);
    if bytes_lt_upto(a, b, n) {
        lemma_bytes_lt_transitive(a, b, c, n);
    } else {
        assert(bytes_eq_upto(a, b, n));
        lemma_bytes_eq_lt_left(a, b, c, n);
    }
}

} // verus!
