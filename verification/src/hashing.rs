//! Trusted bindings to the outside digest and signature primitives.
//!
//! Each digest or signature is a pure function of its inputs; the spec
//! functions below name those results, and the wrappers promise only that
//! the outside call returns the named value (plus its documented length).

use vstd::prelude::*;

use crypto::digest::Digest;
use crypto::ed25519;
use crypto::ripemd160::Ripemd160;
use crypto::sha2::Sha256;

verus! {

/// The SHA-256 digest of the input, as 64 lowercase hex characters.
pub uninterp spec fn sha256_hex_of(data: Seq<u8>) -> Seq<char>;

/// The SHA-256 digest of the input, as 32 bytes.
pub uninterp spec fn sha256_of(data: Seq<u8>) -> Seq<u8>;

/// The RIPEMD-160 digest of the input, as 20 bytes.
pub uninterp spec fn ripemd160_of(data: Seq<u8>) -> Seq<u8>;

/// The Ed25519 signature of a message under a 64-byte secret key.
pub uninterp spec fn ed25519_sig_of(msg: Seq<u8>, secret_key: Seq<u8>) -> Seq<u8>;

/// The Ed25519 keypair derived from a seed: (secret key, public key).
pub uninterp spec fn ed25519_keypair_of(seed: Seq<u8>) -> (Seq<u8>, Seq<u8>);

/// The outcome of the Ed25519 signature check.
pub uninterp spec fn ed25519_verify_ok(msg: Seq<u8>, public_key: Seq<u8>, sig: Seq<u8>) -> bool;

/// The owner key hash used to lock and unlock outputs.
pub open spec fn pub_key_hash_of(pk: Seq<u8>) -> Seq<u8> {
    ripemd160_of(sha256_of(pk))
}

/// Relies on crypto's `Sha256` with `Digest::result_str`: the digest of the
/// input bytes as 64 lowercase hex characters, a function of the input alone.
#[verifier::external_body]
pub fn sha256_hex(data: &[u8]) -> (r: String)
    ensures
        r@ == sha256_hex_of(data@),
        r@.len() == 64,
{
    let mut hasher = Sha256::new();
    hasher.input(data);
    hasher.result_str()
}

/// Relies on crypto's `Sha256` with `Digest::result`: the 32-byte digest of
/// the input, a function of the input alone.
#[verifier::external_body]
pub fn sha256_bytes(data: &[u8]) -> (r: Vec<u8>)
    ensures
        r@ == sha256_of(data@),
        r@.len() == 32,
{
    let mut hasher = Sha256::new();
    hasher.input(data);
    let mut out = vec![0u8; 32];
    hasher.result(&mut out);
    out
}

/// Relies on crypto's `Ripemd160` with `Digest::result`: the 20-byte digest
/// of the input, a function of the input alone.
#[verifier::external_body]
pub fn ripemd160_bytes(data: &[u8]) -> (r: Vec<u8>)
    ensures
        r@ == ripemd160_of(data@),
        r@.len() == 20,
{
    let mut hasher = Ripemd160::new();
    hasher.input(data);
    let mut out = vec![0u8; 20];
    hasher.result(&mut out);
    out
}

/// The hash that locks an output to the holder of a public key.
pub fn hash_pub_key(pub_key: &[u8]) -> (r: Vec<u8>)
    ensures
        r@ == pub_key_hash_of(pub_key@),
        r@.len() == 20,
{
    let sha = sha256_bytes(pub_key);
    ripemd160_bytes(sha.as_slice())
}

/// Relies on crypto's `ed25519::signature`: it reads exactly 64 bytes of
/// secret key (shorter input panics) and returns the 64-byte signature, a
/// function of message and key alone.
#[verifier::external_body]
pub fn ed25519_sign(message: &[u8], secret_key: &[u8]) -> (r: Vec<u8>)
    requires
        secret_key@.len() == 64,
    ensures
        r@ == ed25519_sig_of(message@, secret_key@),
        r@.len() == 64,
{
    ed25519::signature(message, secret_key).to_vec()
}

/// Relies on crypto's `ed25519::verify`: it reads exactly 32 bytes of public
/// key and 64 of signature (shorter inputs panic), decides from those values
/// alone, and accepts a signature made by `ed25519::signature` under the
/// secret half of a keypair grown from a 32-byte seed (the seed is stored
/// verbatim in the secret key, so shorter or longer seeds derail signing)
/// whose public half is given.
#[verifier::external_body]
pub fn ed25519_check(message: &[u8], public_key: &[u8], sig: &[u8]) -> (r: bool)
    requires
        public_key@.len() == 32,
        sig@.len() == 64,
    ensures
        r == ed25519_verify_ok(message@, public_key@, sig@),
        forall|seed: Seq<u8>|
            seed.len() == 32 && public_key@ == ed25519_keypair_of(seed).1 && sig@
                == ed25519_sig_of(message@, ed25519_keypair_of(seed).0) ==> r,
{
    ed25519::verify(message, public_key, sig)
}

} // verus!
