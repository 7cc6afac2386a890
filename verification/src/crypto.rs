use vstd::prelude::*;
use crate::error::{ErrModel, PdfError};

verus! {

/// The security handler's algorithm.
#[derive(Debug, Clone, Copy, PartialEq, Eq, Structural)]
pub enum EncryptionAlgorithm {
    Rc4,
    Aes128,
    Aes256,
}

/// A security handler: an algorithm and the document's encryption key.
pub struct EncryptionHandler {
    pub algorithm: EncryptionAlgorithm,
    pub encryption_key: Vec<u8>,
}

/// The MD5 digest of a byte sequence.
pub uninterp spec fn md5_spec(data: Seq<u8>) -> Seq<u8>;

/// Hashes bytes with the `md-5` crate (`Md5::digest`).
/// Claims: the result is the named digest of the input, 16 bytes long.
#[verifier::external_body]
fn md5_digest(data: &[u8]) -> (res: Vec<u8>)
    ensures
        res@ == md5_spec(data@),
        res@.len() == 16,
{
    <md5::Md5 as md5::Digest>::digest(data).to_vec()
}

/// The bytes hashed for an object key: the document key, the low three bytes of
/// the object number and the two bytes of the generation number (least
/// significant first), and for AES-128 the salt `sAlT`.
pub open spec fn object_key_input(key: Seq<u8>, obj_num: u32, gen_num: u16, alg: EncryptionAlgorithm) -> Seq<u8> {
    key + seq![
        (obj_num % 256) as u8,
        ((obj_num / 256) % 256) as u8,
        ((obj_num / 65536) % 256) as u8,
        (gen_num % 256) as u8,
        ((gen_num / 256) % 256) as u8,
    ] + if alg == EncryptionAlgorithm::Aes128 {
        seq![115u8, 65, 108, 84]
    } else {
        Seq::empty()
    }
}

/// The length of an object key: the document key length plus five, at most 16.
pub open spec fn object_key_len(key_len: nat) -> nat {
    if key_len + 5 < 16 {
        key_len + 5
    } else {
        16
    }
}

pub open spec fn object_key_spec(key: Seq<u8>, obj_num: u32, gen_num: u16, alg: EncryptionAlgorithm) -> Seq<u8> {
    if alg == EncryptionAlgorithm::Aes256 {
        key
    } else {
        md5_spec(object_key_input(key, obj_num, gen_num, alg)).subrange(
            0,
            object_key_len(key.len()) as int,
        )
    }
}

impl EncryptionHandler {
    pub fn new(algorithm: EncryptionAlgorithm, encryption_key: Vec<u8>) -> (res: Self)
        ensures
            res.algorithm == algorithm,
            res.encryption_key@ == encryption_key@,
    {
        EncryptionHandler { algorithm, encryption_key }
    }

    /// The key for one object: the document key itself for AES-256, otherwise
    /// the first bytes of the MD5 digest of the salted document key.
    pub fn compute_object_key(&self, obj_num: u32, gen_num: u16) -> (res: Vec<u8>)
        ensures
            res@ == object_key_spec(self.encryption_key@, obj_num, gen_num, self.algorithm),
            self.algorithm != EncryptionAlgorithm::Aes256 ==> res@.len() == object_key_len(
                self.encryption_key@.len(),
            ),
    {
        if self.algorithm == EncryptionAlgorithm::Aes256 {
            return self.encryption_key.clone();
        }
        let mut input: Vec<u8> = self.encryption_key.clone();
        input.push((obj_num & 0xFF) as u8);
        input.push(((obj_num >> 8) & 0xFF) as u8);
        input.push(((obj_num >> 16) & 0xFF) as u8);
        input.push((gen_num & 0xFF) as u8);
        input.push(((gen_num >> 8) & 0xFF) as u8);
        if self.algorithm == EncryptionAlgorithm::Aes128 {
            input.push(115u8);
            input.push(65u8);
            input.push(108u8);
            input.push(84u8);
        }
        proof {
            assert((obj_num & 0xFF) as u8 == (obj_num % 256) as u8) by (bit_vector);
            assert(((obj_num >> 8) & 0xFF) as u8 == ((obj_num / 256) % 256) as u8) by (bit_vector);
            assert(((obj_num >> 16) & 0xFF) as u8 == ((obj_num / 65536) % 256) as u8)
                by (bit_vector);
            assert((gen_num & 0xFF) as u8 == (gen_num % 256) as u8) by (bit_vector);
            assert(((gen_num >> 8) & 0xFF) as u8 == ((gen_num / 256) % 256) as u8) by (bit_vector);
            assert(input@ =~= object_key_input(
                self.encryption_key@,
                obj_num,
                gen_num,
                self.algorithm,
            ));
        }
        let result = md5_digest(input.as_slice());
        let key_len: usize = if self.encryption_key.len() >= 11 {
            16
        } else {
            self.encryption_key.len() + 5
        };
        vstd::slice::slice_to_vec(vstd::slice::slice_subrange(result.as_slice(), 0, key_len))
    }

    /// Decrypts a stream: empty data decrypts to nothing; the ciphers themselves
    /// are not available, so other data is refused with a decode error naming the cipher.
    pub fn decrypt_stream(&self, data: &[u8], _obj_num: u32, _gen_num: u16) -> (res: Result<
        Vec<u8>,
        PdfError,
    >)
        ensures
            data@.len() == 0 ==> (res matches Ok(v) && v@.len() == 0),
            data@.len() > 0 ==> (res matches Err(e) && e@ == ErrModel::FilterDecodeError(
                match self.algorithm {
                    EncryptionAlgorithm::Rc4 => "RC4 decoding requires further trait isolation"@,
                    EncryptionAlgorithm::Aes128 => "AES128 decoding requires further trait isolation"@,
                    EncryptionAlgorithm::Aes256 => "AES256 decoding requires further trait isolation"@,
                },
            )),
    {
        if data.len() == 0 {
            return Ok(Vec::new());
        }
        match self.algorithm {
            EncryptionAlgorithm::Rc4 => Err(
                PdfError::FilterDecodeError(
                    String::from_str("RC4 decoding requires further trait isolation"),
                ),
            ),
            EncryptionAlgorithm::Aes128 => Err(
                PdfError::FilterDecodeError(
                    String::from_str("AES128 decoding requires further trait isolation"),
                ),
            ),
            EncryptionAlgorithm::Aes256 => Err(
                PdfError::FilterDecodeError(
                    String::from_str("AES256 decoding requires further trait isolation"),
                ),
            ),
        }
    }
}

} // verus!
