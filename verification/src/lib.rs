//! Reader for CZDB-format IP geolocation databases.
//!
//! A database file carries an encrypted hyper-header, a sparse header index,
//! a dense index of IP ranges, and per-range region records. This crate
//! validates the file, parses its metadata, and answers point queries that
//! map an IP address to a textual region descriptor.

use vstd::prelude::*;

pub mod crypt;
pub mod laws;
pub mod memory;
pub mod meta;
pub mod order;
pub mod record;
pub mod search;

verus! {

/// Database IP version type.
#[derive(Debug, Clone, Copy, PartialEq, Eq, Structural)]
pub enum DbType {
    Ipv4,
    Ipv6,
}

/// An IP address, as raw network-order bytes of either family.
#[derive(Debug, Clone, Copy)]
pub enum Ip {
    V4([u8; 4]),
    V6([u8; 16]),
}

impl DbType {
    /// Returns true if the IP matches this database type.
    pub fn compare(&self, ip: &Ip) -> (r: bool)
        ensures
            r == (*self matches DbType::Ipv4 <==> *ip matches Ip::V4(_)),
    {
        match self {
            DbType::Ipv4 => matches!(ip, Ip::V4(_)),
            DbType::Ipv6 => matches!(ip, Ip::V6(_)),
        }
    }

    /// Returns the index block length for this database type.
    pub fn index_block_len(&self) -> (r: usize)
        ensures
            r == self.spec_index_block_len(),
    {
        match self {
            DbType::Ipv4 => 13,
            DbType::Ipv6 => 37,
        }
    }

    /// Returns the IP byte length for this database type.
    pub fn bytes_len(&self) -> (r: usize)
        ensures
            r == self.spec_bytes_len(),
    {
        match self {
            DbType::Ipv4 => 4,
            DbType::Ipv6 => 16,
        }
    }

    /// Length of one dense index block: the two IP fields plus a
    /// four-byte region pointer and a one-byte region length.
    pub open spec fn spec_index_block_len(&self) -> usize {
        match self {
            DbType::Ipv4 => 13usize,
            DbType::Ipv6 => 37usize,
        }
    }

    /// Number of significant bytes of an IP key of this family.
    pub open spec fn spec_bytes_len(&self) -> usize {
        match self {
            DbType::Ipv4 => 4usize,
            DbType::Ipv6 => 16usize,
        }
    }
}

impl Ip {
    /// The bytes that matter for comparison: 4 for an IPv4 address,
    /// 16 for an IPv6 one.
    pub open spec fn spec_sig_bytes(self) -> Seq<u8> {
        match self {
            Ip::V4(o) => o@,
            Ip::V6(o) => o@,
        }
    }

    /// The address as 16 bytes, an IPv4 address right-padded with zeros.
    pub open spec fn spec_padded(self) -> Seq<u8> {
        match self {
            Ip::V4(o) => o@ + Seq::new(12, |i: int| 0u8),
            Ip::V6(o) => o@,
        }
    }

    /// Right-pad the address to 16 bytes.
    pub fn padded(&self) -> (r: [u8; 16])
        ensures
            r@ == self.spec_padded(),
    {
        match self {
            Ip::V4(o) => {
                let r: [u8; 16] = [o[0], o[1], o[2], o[3], 0, 0, 0, 0, 0, 0, 0, 0, 0, 0, 0, 0];
                proof {
                    assert(r@ =~= self.spec_padded());
                }
                r
            },
            Ip::V6(o) => *o,
        }
    }
}

/// Errors arising while opening or querying a database.
#[derive(Debug, Clone, Copy, PartialEq, Eq, Structural)]
pub enum CzError {
    /// The file or buffer ended before a required field.
    DatabaseFileReadError,
    /// The key is not valid base64.
    KeyDecodingError,
    /// The decoded key does not hold exactly 16 bytes; carries the length found.
    InvalidAesKeyLength(usize),
    /// Unpadding the decrypted hyper-header body failed.
    DecryptionError,
    /// The hyper-header tag does not match the declared client id.
    InvalidClientId,
    /// The embedded expiry date lies before today.
    DatabaseExpired,
    /// A structural invariant of the file format is violated.
    DatabaseFileCorrupted,
}

} // verus!
