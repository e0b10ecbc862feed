//! Key handling and the two ciphers the file format uses: AES-128 with
//! PKCS#7 unpadding for the hyper-header body (through the `aes` and
//! `cipher` crates), and a repeating-key XOR stream for the column
//! dictionary (implemented and verified here).

use vstd::prelude::*;
use crate::CzError;
use aes::cipher::{block_padding::Pkcs7, BlockDecryptMut, KeyInit};

verus! {

broadcast use vstd::slice::axiom_spec_len;

/// What base64 decoding of the standard alphabet yields: bytes on
/// well-formed input, nothing otherwise.
pub uninterp spec fn base64_decoding(s: Seq<char>) -> Option<Seq<u8>>;

/// Relies on base64's `Engine::decode` with the `STANDARD` engine: the
/// outcome is a function of the input characters alone; it returns the
/// decoded bytes or fails on ill-formed base64.
#[verifier::external_body]
pub(crate) fn base64_decode(key: &str) -> (r: Option<Vec<u8>>)
    ensures
        r matches Some(v) ==> base64_decoding(key@) == Some(v@),
        r is None ==> base64_decoding(key@) is None,
{
    base64::Engine::decode(&base64::engine::general_purpose::STANDARD, key).ok()
}

/// What AES-128 block decryption of `data` under `key` followed by PKCS#7
/// unpadding yields, or nothing when the length is not a block multiple or
/// the padding is malformed.
pub uninterp spec fn aes_decrypted_body(key: Seq<u8>, data: Seq<u8>) -> Option<Seq<u8>>;

/// Relies on `Aes128::new` and cipher's `BlockDecryptMut::decrypt_padded_mut`
/// with `Pkcs7`: decryption is a function of key and ciphertext alone, and
/// it fails exactly when the input length is not a multiple of 16 or the
/// decrypted padding is malformed.
#[verifier::external_body]
pub(crate) fn aes128_decrypt_padded(key: &[u8], data: &[u8]) -> (r: Option<Vec<u8>>)
    requires
        key@.len() == 16,
    ensures
        r matches Some(v) ==> aes_decrypted_body(key@, data@) == Some(v@),
        r is None ==> aes_decrypted_body(key@, data@) is None,
{
    let cipher = aes::Aes128::new(aes::cipher::Key::<aes::Aes128>::from_slice(key));
    let mut buf = data.to_vec();
    match cipher.decrypt_padded_mut::<Pkcs7>(&mut buf) {
        Ok(plain) => Some(plain.to_vec()),
        Err(_) => None,
    }
}

/// Relies on chrono's `Local::now` formatted as `%y%m%d`: whatever moment
/// the clock reports, the six formatted digits parse to a number below one
/// million.
#[verifier::external_body]
pub(crate) fn current_date_yymmdd() -> (r: Option<u32>)
    ensures
        r matches Some(d) ==> d < 1000000,
{
    chrono::Local::now().format("%y%m%d").to_string().parse().ok()
}

/// Decode the base64 AES key and validate its length.
pub fn decode_aes_key(key: &str) -> (r: Result<Vec<u8>, CzError>)
    ensures
        match r {
            Ok(v) => base64_decoding(key@) == Some(v@) && v@.len() == 16,
            Err(CzError::KeyDecodingError) => base64_decoding(key@) is None,
            Err(CzError::InvalidAesKeyLength(n)) => {
                &&& base64_decoding(key@) matches Some(b)
                &&& b.len() == n
                &&& n != 16
            },
            Err(_) => false,
        },
{
    let key_bytes = match base64_decode(key) {
        Some(v) => v,
        None => {
            return Err(CzError::KeyDecodingError);
        },
    };
    if key_bytes.len() != 16 {
        return Err(CzError::InvalidAesKeyLength(key_bytes.len()));
    }
    Ok(key_bytes)
}

/// One byte stream XOR-combined with a key repeated cyclically.
pub open spec fn xor_stream(data: Seq<u8>, key: Seq<u8>) -> Seq<u8>
    recommends
        key.len() > 0,
{
    Seq::new(data.len(), |i: int| data[i] ^ key[i % key.len() as int])
}

/// Repeating-key XOR decryptor for the column dictionary.
#[derive(Debug)]
pub struct GeoDataDecryptor {
    key_bytes: Vec<u8>,
}

impl GeoDataDecryptor {
    /// The key a decryptor was built over.
    pub closed spec fn spec_key(&self) -> Seq<u8> {
        self.key_bytes@
    }

    /// Accepts any non-empty key; an empty key cannot drive the stream.
    pub fn new(key_bytes: Vec<u8>) -> (r: Result<Self, CzError>)
        ensures
            match r {
                Ok(d) => key_bytes@.len() > 0 && d.spec_key() == key_bytes@,
                Err(e) => key_bytes@.len() == 0 && e == CzError::InvalidAesKeyLength(0usize),
            },
    {
        if key_bytes.is_empty() {
            return Err(CzError::InvalidAesKeyLength(0));
        }
        Ok(Self { key_bytes })
    }

    /// XOR each input byte with the matching byte of the repeated key.
    pub fn decrypt(&self, data: &[u8]) -> (r: Vec<u8>)
        requires
            self.spec_key().len() > 0,
        ensures
            r@ == xor_stream(data@, self.spec_key()),
    {
        let key_length = self.key_bytes.len();
        let dlen = data.len();
        let mut out: Vec<u8> = Vec::new();
        let mut i: usize = 0;
        while i < dlen
            invariant
                i <= dlen == data@.len(),
                key_length == self.key_bytes@.len(),
                key_length > 0,
                out@.len() == i,
                forall|j: int| 0 <= j < i ==> out@[j] == data@[j] ^ self.key_bytes@[j % key_length as int],
            decreases dlen - i,
        {
            out.push(data[i] ^ self.key_bytes[i % key_length]);
            i = i + 1;
        }
        proof {
            assert(out@ =~= xor_stream(data@, self.spec_key()));
        }
        out
    }
}

} // verus!
