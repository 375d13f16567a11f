//! RSA keys and signatures.
//!
//! Key pairs are 2048-bit RSA; signatures are PKCS#1 v1.5 over the SHA-256
//! digest of the signed text. Signatures always cover the sender's source
//! id, never the payload: they authenticate the sender's identity only.
//!
//! Both RSA operations are deterministic functions of their arguments (the
//! crate signs without a random source), so their results carry names that
//! the pipeline's contracts speak of: what `verify` accepts is exactly
//! `rsa_verify_of` the registered key, the digest, and the signature, and a
//! signature produced here is exactly `rsa_sig_of` the key and digest, and
//! verifies under the key's public half.

use vstd::prelude::*;
use crypto::digest::Digest;
use crypto::sha2::Sha256;
use rand::rngs::OsRng;
use rsa::{PaddingScheme, PublicKey, RsaPrivateKey, RsaPublicKey};

verus! {

#[verifier::external_type_specification]
#[verifier::external_body]
pub struct ExRsaPrivateKey(RsaPrivateKey);

#[verifier::external_type_specification]
#[verifier::external_body]
pub struct ExRsaPublicKey(RsaPublicKey);

/// The SHA-256 digest of a text: a function of the characters alone.
pub uninterp spec fn sha256_of(s: Seq<char>) -> Seq<u8>;

/// The public half of an RSA private key.
pub uninterp spec fn pub_of(private_key: RsaPrivateKey) -> RsaPublicKey;

/// Whether PKCS#1 v1.5 signing of a digest under a private key succeeds: a
/// function of the key and the digest alone.
pub uninterp spec fn rsa_sign_ok(private_key: RsaPrivateKey, digest: Seq<u8>) -> bool;

/// The PKCS#1 v1.5 signature of a digest under a private key, when signing
/// succeeds: a function of the key and the digest alone.
pub uninterp spec fn rsa_sig_of(private_key: RsaPrivateKey, digest: Seq<u8>) -> Seq<u8>;

/// Whether a signature passes the PKCS#1 v1.5 check for a digest under a
/// public key: a function of the key, the digest and the signature alone.
pub uninterp spec fn rsa_verify_of(public_key: RsaPublicKey, digest: Seq<u8>, sig: Seq<u8>) -> bool;

/// Relies on the `crypto` crate's `Sha256`: a 256-bit digest that depends
/// on the input characters alone.
#[verifier::external_body]
pub fn get_hash(data: &str) -> (r: Vec<u8>)
    ensures
        r@ == sha256_of(data@),
        r@.len() == 32,
{
    let mut hasher = Sha256::new();
    hasher.input_str(data);
    let mut buf: Vec<u8> = std::iter::repeat(0).take((hasher.output_bits() + 7) / 8).collect();
    hasher.result(&mut buf);
    buf
}

/// Relies on `RsaPrivateKey::new` with `OsRng`: a fresh 2048-bit private
/// key, or nothing when the generator fails. The result depends on the
/// random source; nothing is promised of it.
#[verifier::external_body]
fn generate_private_key() -> (r: Option<RsaPrivateKey>)
{
    let mut rng = OsRng;
    RsaPrivateKey::new(&mut rng, 2048).ok()
}

/// Relies on `From<&RsaPrivateKey> for RsaPublicKey`: the public half of
/// the pair, a function of the private key alone.
#[verifier::external_body]
fn public_key_of(private_key: &RsaPrivateKey) -> (r: RsaPublicKey)
    ensures
        r == pub_of(*private_key),
{
    RsaPublicKey::from(private_key)
}

/// Relies on `RsaPrivateKey::sign` with PKCS#1 v1.5 padding over SHA-256:
/// signing takes no random source, so success and the signature bytes are
/// functions of the key and the digest; and a signature it produces passes
/// the crate's own check under the key's public half, as its tests show.
#[verifier::external_body]
fn rsa_sign(private_key: &RsaPrivateKey, digest: &Vec<u8>) -> (r: Option<Vec<u8>>)
    ensures
        r is Some <==> rsa_sign_ok(*private_key, digest@),
        r matches Some(s) ==> s@ == rsa_sig_of(*private_key, digest@),
        r matches Some(s) ==> rsa_verify_of(pub_of(*private_key), digest@, s@),
{
    let padding = PaddingScheme::new_pkcs1v15_sign(Some(rsa::Hash::SHA2_256));
    private_key.sign(padding, digest).ok()
}

/// Relies on `PublicKey::verify` for `RsaPublicKey` with PKCS#1 v1.5
/// padding over SHA-256: a deterministic check of the signature against
/// the digest under the key.
#[verifier::external_body]
fn rsa_verify(public_key: &RsaPublicKey, digest: &Vec<u8>, sig: &Vec<u8>) -> (r: bool)
    ensures
        r == rsa_verify_of(*public_key, digest@, sig@),
{
    let padding = PaddingScheme::new_pkcs1v15_sign(Some(rsa::Hash::SHA2_256));
    public_key.verify(padding, digest, sig).is_ok()
}

/// Generate a fresh 2048-bit RSA key pair: a private key and its public
/// half.
pub fn get_rsa() -> (r: Result<(RsaPrivateKey, RsaPublicKey), String>)
    ensures
        r matches Err(e) ==> e@ == "failed to generate a key"@,
        r matches Ok(pair) ==> pair.1 == pub_of(pair.0),
{
    match generate_private_key() {
        Some(private_key) => {
            let public_key = public_key_of(&private_key);
            Ok((private_key, public_key))
        },
        None => Err(String::from_str("failed to generate a key")),
    }
}

/// Sign the SHA-256 digest of `data` with PKCS#1 v1.5: the signature of
/// the digest under the key, which verifies under the key's public half.
pub fn sign(data: &str, private_key: &RsaPrivateKey) -> (r: Result<Vec<u8>, String>)
    ensures
        r is Ok <==> rsa_sign_ok(*private_key, sha256_of(data@)),
        r matches Ok(s) ==> s@ == rsa_sig_of(*private_key, sha256_of(data@)),
        r matches Ok(s) ==> rsa_verify_of(pub_of(*private_key), sha256_of(data@), s@),
        r matches Err(e) ==> e@ == "sign failed"@,
{
    let buf = get_hash(data);
    match rsa_sign(private_key, &buf) {
        Some(sig) => Ok(sig),
        None => Err(String::from_str("sign failed")),
    }
}

/// Check a PKCS#1 v1.5 signature over the SHA-256 digest of `data`: `Ok`
/// exactly when the signature passes the check under this key.
pub fn verify(data: &str, public_key: &RsaPublicKey, sig: &Vec<u8>) -> (r: Result<(), String>)
    ensures
        r is Ok <==> rsa_verify_of(*public_key, sha256_of(data@), sig@),
        r matches Err(e) ==> e@ == "verify failed"@,
{
    let buf = get_hash(data);
    if rsa_verify(public_key, &buf, sig) {
        Ok(())
    } else {
        Err(String::from_str("verify failed"))
    }
}

} // verus!
