use vstd::prelude::*;
use vstd::string::StringSliceAdditionalSpecFns;
use sha2::Digest;
use crate::bytes::append_bytes;
use scrypt::password_hash::{PasswordHasher, SaltString, rand_core::OsRng};

verus! {

/// The digest algorithms the tools know.
#[derive(Debug, Clone, Copy, PartialEq, Eq, Structural)]
pub enum HashAlgorithm {
    Md5,
    Sha256,
    Sha3_512,
    Scrypt,
}

impl HashAlgorithm {
    /// The name the algorithm is shown under.
    pub fn label(&self) -> (r: &'static str)
        ensures
            r@ == match *self {
                HashAlgorithm::Md5 => "MD5"@,
                HashAlgorithm::Sha256 => "SHA256"@,
                HashAlgorithm::Sha3_512 => "SHA3-512"@,
                HashAlgorithm::Scrypt => "Scrypt"@,
            },
    {
        match self {
            HashAlgorithm::Md5 => "MD5",
            HashAlgorithm::Sha256 => "SHA256",
            HashAlgorithm::Sha3_512 => "SHA3-512",
            HashAlgorithm::Scrypt => "Scrypt",
        }
    }
}

/// The MD5 digest of a byte string.
pub uninterp spec fn md5_of(data: Seq<u8>) -> Seq<u8>;

/// The SHA-256 digest of a byte string.
pub uninterp spec fn sha256_of(data: Seq<u8>) -> Seq<u8>;

/// The SHA3-512 digest of a byte string.
pub uninterp spec fn sha3_512_of(data: Seq<u8>) -> Seq<u8>;

/// Relies on md5::compute: the 16-byte MD5 digest of the data.
#[verifier::external_body]
fn md5_digest(data: &[u8]) -> (r: Vec<u8>)
    ensures
        r@ == md5_of(data@),
        r@.len() == 16,
{
    md5::compute(data).0.to_vec()
}

/// Relies on sha2::Sha256::digest: the 32-byte SHA-256 digest of the data.
#[verifier::external_body]
fn sha256_digest(data: &[u8]) -> (r: Vec<u8>)
    ensures
        r@ == sha256_of(data@),
        r@.len() == 32,
{
    sha2::Sha256::digest(data).to_vec()
}

/// Relies on sha3::Sha3_512::digest: the 64-byte SHA3-512 digest of the data.
#[verifier::external_body]
fn sha3_512_digest(data: &[u8]) -> (r: Vec<u8>)
    ensures
        r@ == sha3_512_of(data@),
        r@.len() == 64,
{
    sha3::Sha3_512::digest(data).to_vec()
}

/// The bytes that open every scrypt PHC string: `$scrypt$`.
pub open spec fn scrypt_prefix() -> Seq<u8> {
    seq![36u8, 115u8, 99u8, 114u8, 121u8, 112u8, 116u8, 36u8]
}

/// The bytes that open the text put out when scrypt fails:
/// `Error generating scrypt hash: `.
pub open spec fn scrypt_error_prefix() -> Seq<u8> {
    seq![
        69u8, 114u8, 114u8, 111u8, 114u8, 32u8, 103u8, 101u8, 110u8, 101u8, 114u8, 97u8, 116u8, 105u8, 110u8,
        103u8, 32u8, 115u8, 99u8, 114u8, 121u8, 112u8, 116u8, 32u8, 104u8, 97u8, 115u8, 104u8, 58u8, 32u8,
    ]
}

/// Whether `b` opens with `prefix`.
pub open spec fn starts_with(b: Seq<u8>, prefix: Seq<u8>) -> bool {
    b.len() >= prefix.len() && b.subrange(0, prefix.len() as int) == prefix
}

/// Relies on scrypt's `PasswordHasher::hash_password` with a salt drawn from
/// the operating system: the PHC string of the result, which opens with the
/// algorithm's identifier `scrypt` and its parameters, or the text of the
/// error. The salt is random, so nothing more is promised of the bytes.
#[verifier::external_body]
fn scrypt_phc(data: &[u8]) -> (r: Result<Vec<u8>, String>)
    ensures
        r matches Ok(b) ==> starts_with(b@, scrypt_prefix()),
{
    let salt = SaltString::generate(&mut OsRng);
    match scrypt::Scrypt.hash_password(data, &salt) {
        Ok(h) => Ok(h.to_string().into_bytes()),
        Err(e) => Err(e.to_string()),
    }
}

/// Whether the algorithm yields the same digest for the same input, which is
/// what a rainbow chain needs.
pub open spec fn deterministic(algo: HashAlgorithm) -> bool {
    algo != HashAlgorithm::Scrypt
}

/// The digest of `data` under a deterministic algorithm.
pub open spec fn digest_of(algo: HashAlgorithm, data: Seq<u8>) -> Seq<u8> {
    match algo {
        HashAlgorithm::Md5 => md5_of(data),
        HashAlgorithm::Sha256 => sha256_of(data),
        HashAlgorithm::Sha3_512 => sha3_512_of(data),
        HashAlgorithm::Scrypt => Seq::empty(),
    }
}

/// The width in bytes of a digest of a deterministic algorithm.
pub open spec fn digest_width(algo: HashAlgorithm) -> nat {
    match algo {
        HashAlgorithm::Md5 => 16,
        HashAlgorithm::Sha256 => 32,
        HashAlgorithm::Sha3_512 => 64,
        HashAlgorithm::Scrypt => 0,
    }
}

/// Hashes raw bytes. For the deterministic algorithms the result is the
/// digest, of the algorithm's width; scrypt salts at random.
pub fn hash_bytes(data: &[u8], algo: &HashAlgorithm) -> (r: Vec<u8>)
    ensures
        deterministic(*algo) ==> r@ == digest_of(*algo, data@),
        deterministic(*algo) ==> r@.len() == digest_width(*algo),
        *algo == HashAlgorithm::Scrypt ==> starts_with(r@, scrypt_prefix()) || starts_with(r@, scrypt_error_prefix()),
{
    match algo {
        HashAlgorithm::Md5 => md5_digest(data),
        HashAlgorithm::Sha256 => sha256_digest(data),
        HashAlgorithm::Sha3_512 => sha3_512_digest(data),
        HashAlgorithm::Scrypt => match scrypt_phc(data) {
            Ok(b) => b,
            Err(m) => {
                let mut out: Vec<u8> = Vec::new();
                append_bytes(
                    &mut out,
                    &[
                        69u8, 114u8, 114u8, 111u8, 114u8, 32u8, 103u8, 101u8, 110u8, 101u8, 114u8, 97u8, 116u8, 105u8,
                        110u8, 103u8, 32u8, 115u8, 99u8, 114u8, 121u8, 112u8, 116u8, 32u8, 104u8, 97u8, 115u8, 104u8,
                        58u8, 32u8,
                    ],
                );
                let ghost head = out@;
                append_bytes(&mut out, m.as_str().as_bytes());
                proof {
                    assert(head =~= scrypt_error_prefix());
                    assert(out@.subrange(0, 30) =~= head);
                }
                out
            },
        },
    }
}

/// Hashes the UTF-8 bytes of a password.
pub fn hash_with_algorithm(password: &str, algo: &HashAlgorithm) -> (r: Vec<u8>)
    ensures
        deterministic(*algo) ==> r@ == digest_of(*algo, password.spec_bytes()),
        deterministic(*algo) ==> r@.len() == digest_width(*algo),
{
    hash_bytes(password.as_bytes(), algo)
}

} // verus!
