//! The cryptographic primitives the ledger rests on, each behind a trusted
//! wrapper: SHA-256 and RIPEMD-160 digests, base58, ECDSA over secp256k1,
//! random bytes and the clock. The digests and the curve operations are
//! deterministic functions of their byte-string arguments, so each result is
//! given a name that the wrappers' contracts and the callers' contracts share.

use vstd::prelude::*;

use crypto::digest::Digest;
use ripemd160::Digest as RipemdDigest;

verus! {

/// The SHA-256 digest of a byte string.
pub uninterp spec fn sha256_of(data: Seq<u8>) -> Seq<u8>;

/// The RIPEMD-160 digest of a byte string.
pub uninterp spec fn ripemd160_of(data: Seq<u8>) -> Seq<u8>;

/// The base58 encoding of a byte string.
pub uninterp spec fn base58_of(data: Seq<u8>) -> Seq<char>;

/// The bytes a base58 string decodes to, where it decodes at all.
pub uninterp spec fn base58_decode_of(s: Seq<char>) -> Option<Seq<u8>>;

/// Whether 32 bytes form a valid secp256k1 secret key.
pub uninterp spec fn is_valid_seckey(sk: Seq<u8>) -> bool;

/// The 33-byte compressed public key derived from a valid secret key.
pub uninterp spec fn pubkey_of(sk: Seq<u8>) -> Seq<u8>;

/// The 64-byte compact ECDSA signature of a 32-byte digest under a secret key.
pub uninterp spec fn sig_of(msg: Seq<u8>, sk: Seq<u8>) -> Seq<u8>;

/// Whether a compact signature checks for a digest under a compressed
/// public key.
pub uninterp spec fn sig_checks(msg: Seq<u8>, sig: Seq<u8>, pk: Seq<u8>) -> bool;

/// Relies on crypto::sha2::Sha256: a 32-byte digest determined by the input
/// bytes alone.
#[verifier::external_body]
pub(crate) fn sha256(data: &Vec<u8>) -> (r: Vec<u8>)
    ensures
        r@ == sha256_of(data@),
        r@.len() == 32,
{
    let mut hasher = crypto::sha2::Sha256::new();
    hasher.input(data);
    let mut out = [0u8; 32];
    hasher.result(&mut out);
    out.to_vec()
}

/// Relies on ripemd160::Ripemd160: a 20-byte digest determined by the input
/// bytes alone.
#[verifier::external_body]
pub(crate) fn ripemd160_digest(data: &Vec<u8>) -> (r: Vec<u8>)
    ensures
        r@ == ripemd160_of(data@),
        r@.len() == 20,
{
    let mut hasher = ripemd160::Ripemd160::new();
    hasher.update(data);
    hasher.finalize().to_vec()
}

/// Relies on bs58::encode, and on bs58::decode being its inverse.
#[verifier::external_body]
pub(crate) fn base58_encode(data: &Vec<u8>) -> (r: String)
    ensures
        r@ == base58_of(data@),
        base58_decode_of(r@) == Some(data@),
{
    bs58::encode(data.as_slice()).into_string()
}

/// Relies on bs58::decode: returns the bytes the string encodes, or nothing
/// where the string is no base58 encoding.
#[verifier::external_body]
pub(crate) fn base58_decode(s: &str) -> (r: Option<Vec<u8>>)
    ensures
        r matches Some(v) ==> base58_decode_of(s@) == Some(v@),
        r is Some <==> base58_decode_of(s@) is Some,
{
    match bs58::decode(s).into_vec() {
        Ok(v) => Some(v),
        Err(_) => None,
    }
}

/// Relies on secp256k1::SecretKey::from_secret_bytes, which accepts exactly
/// the 32-byte strings that are valid secret keys.
#[verifier::external_body]
pub(crate) fn seckey_is_valid(sk: &Vec<u8>) -> (r: bool)
    ensures
        r == is_valid_seckey(sk@),
{
    match <[u8; 32]>::try_from(sk.as_slice()) {
        Ok(arr) => secp256k1::SecretKey::from_secret_bytes(arr).is_ok(),
        Err(_) => false,
    }
}

/// Relies on secp256k1::PublicKey::from_secret_key and its serialize: the
/// compressed 33-byte public key is determined by the secret key alone.
#[verifier::external_body]
pub(crate) fn derive_pubkey(sk: &Vec<u8>) -> (r: Option<Vec<u8>>)
    ensures
        r matches Some(pk) ==> pk@ == pubkey_of(sk@) && pk@.len() == 33,
        r is Some <==> is_valid_seckey(sk@),
{
    let arr = match <[u8; 32]>::try_from(sk.as_slice()) {
        Ok(a) => a,
        Err(_) => return None,
    };
    let key = match secp256k1::SecretKey::from_secret_bytes(arr) {
        Ok(k) => k,
        Err(_) => return None,
    };
    Some(secp256k1::PublicKey::from_secret_key(&key).serialize().to_vec())
}

/// Relies on secp256k1::ecdsa::sign: compact signatures with the RFC 6979
/// deterministic nonce, so the result is a function of digest and key alone;
/// a signature it produces checks under the matching public key.
#[verifier::external_body]
pub(crate) fn ecdsa_sign(msg: &Vec<u8>, sk: &Vec<u8>) -> (r: Vec<u8>)
    requires
        msg@.len() == 32,
        is_valid_seckey(sk@),
    ensures
        r@ == sig_of(msg@, sk@),
        r@.len() == 64,
        sig_checks(msg@, r@, pubkey_of(sk@)),
{
    let m = <[u8; 32]>::try_from(msg.as_slice()).unwrap();
    let arr = <[u8; 32]>::try_from(sk.as_slice()).unwrap();
    let key = secp256k1::SecretKey::from_secret_bytes(arr).unwrap();
    let sig = secp256k1::ecdsa::sign(secp256k1::Message::from_digest(m), &key);
    sig.serialize_compact().to_vec()
}

/// Relies on secp256k1::ecdsa::verify: whether the compact signature checks
/// for the digest under the compressed public key, a function of the three
/// byte strings alone. Malformed signatures or keys never check.
#[verifier::external_body]
pub(crate) fn ecdsa_verify(msg: &Vec<u8>, sig: &Vec<u8>, pk: &Vec<u8>) -> (r: bool)
    requires
        msg@.len() == 32,
    ensures
        r == sig_checks(msg@, sig@, pk@),
{
    let m = <[u8; 32]>::try_from(msg.as_slice()).unwrap();
    let s = match secp256k1::ecdsa::Signature::from_compact(sig.as_slice()) {
        Ok(s) => s,
        Err(_) => return false,
    };
    let p = match secp256k1::PublicKey::from_slice(pk.as_slice()) {
        Ok(p) => p,
        Err(_) => return false,
    };
    secp256k1::ecdsa::verify(&s, secp256k1::Message::from_digest(m), &p).is_ok()
}

/// Relies on rand::fill, backed by a cryptographically secure generator.
#[verifier::external_body]
pub(crate) fn random_bytes32() -> (r: Vec<u8>)
    ensures
        r@.len() == 32,
{
    let mut buf = [0u8; 32];
    rand::fill(&mut buf);
    buf.to_vec()
}

/// Relies on std::time::SystemTime: whole seconds since the Unix epoch.
#[verifier::external_body]
pub(crate) fn unix_time_now() -> u64 {
    match std::time::SystemTime::now().duration_since(std::time::UNIX_EPOCH) {
        Ok(d) => d.as_secs(),
        Err(_) => 0,
    }
}

} // verus!
