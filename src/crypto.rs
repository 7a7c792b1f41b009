use vstd::prelude::*;

use k256::ecdsa::signature::{Signer, Verifier};


verus! {

/// Whether 32 bytes are a secp256k1 secret scalar (non-zero and below the group order).
pub uninterp spec fn valid_secret(secret: Seq<u8>) -> bool;

/// The SEC1-compressed public key of a secret scalar.
pub uninterp spec fn public_key_of(secret: Seq<u8>) -> Seq<u8>;

/// The deterministic (RFC 6979) ECDSA signature of a message under a secret scalar.
pub uninterp spec fn ecdsa_signature(secret: Seq<u8>, message: Seq<u8>) -> Seq<u8>;

/// Whether a signature over a message verifies under a SEC1-encoded public key.
pub uninterp spec fn ecdsa_verifies(message: Seq<u8>, signature: Seq<u8>, key: Seq<u8>) -> bool;

/// Relies on `k256::ecdsa::SigningKey::random`: a fresh non-zero scalar below the group order,
/// taken from the thread-local random generator of `rand`.
#[verifier::external_body]
fn random_secret() -> (r: [u8; 32])
    ensures
        valid_secret(r@),
{
    k256::ecdsa::SigningKey::random(&mut rand::thread_rng()).to_bytes().into()
}

/// Relies on `k256::ecdsa::SigningKey::from_slice`: it accepts exactly the 32-byte big-endian
/// scalars that are non-zero and below the group order.
#[verifier::external_body]
fn secret_is_valid(secret: &[u8; 32]) -> (r: bool)
    ensures
        r == valid_secret(secret@),
{
    k256::ecdsa::SigningKey::from_slice(secret).is_ok()
}

/// Relies on `SigningKey::from_slice` (which accepts exactly the valid scalars) and
/// `VerifyingKey::to_encoded_point(true)`: the 33-byte compressed public key.
#[verifier::external_body]
fn derive_public_key(secret: &[u8; 32]) -> (r: [u8; 33])
    requires
        valid_secret(secret@),
    ensures
        r@ == public_key_of(secret@),
{
    let key = k256::ecdsa::SigningKey::from_slice(secret).unwrap();
    let mut r = [0u8; 33];
    r.copy_from_slice(key.verifying_key().to_encoded_point(true).as_bytes());
    r
}

/// Relies on `Signer::sign` of `k256::ecdsa::SigningKey`: the 64-byte `r || s` signature,
/// computed deterministically from the key and the message.
#[verifier::external_body]
fn ecdsa_sign(secret: &[u8; 32], message: &[u8]) -> (r: [u8; 64])
    requires
        valid_secret(secret@),
    ensures
        r@ == ecdsa_signature(secret@, message@),
{
    let key = k256::ecdsa::SigningKey::from_slice(secret).unwrap();
    let signature: k256::ecdsa::Signature = key.sign(message);
    let mut r = [0u8; 64];
    r.copy_from_slice(&signature.to_bytes());
    r
}

/// Relies on `Verifier::verify` of `k256::ecdsa::VerifyingKey`, after decoding the key with
/// `VerifyingKey::from_sec1_bytes` and the signature with `Signature::from_slice`; a key or
/// signature that does not decode does not verify.
#[verifier::external_body]
fn ecdsa_verify(message: &[u8], signature: &[u8; 64], key: &[u8; 33]) -> (r: bool)
    ensures
        r == ecdsa_verifies(message@, signature@, key@),
{
    match (
        k256::ecdsa::VerifyingKey::from_sec1_bytes(key),
        k256::ecdsa::Signature::from_slice(signature),
    ) {
        (Ok(k), Ok(s)) => k.verify(message, &s).is_ok(),
        _ => false,
    }
}

/// A secp256k1 public key, SEC1-compressed.
#[derive(Clone, Copy, Debug, PartialEq, Eq)]
pub struct PublicKey(pub [u8; 33]);

/// A secp256k1 secret key: a 32-byte big-endian scalar.
#[derive(Clone, Copy, Debug)]
pub struct PrivateKey {
    secret: [u8; 32],
}

/// An ECDSA signature over secp256k1, as `r || s`.
#[derive(Clone, Copy, Debug)]
pub struct Signature(pub [u8; 64]);

impl PrivateKey {
    pub closed spec fn secret(self) -> Seq<u8> {
        self.secret@
    }

    pub closed spec fn wf(self) -> bool {
        valid_secret(self.secret@)
    }

    pub fn new_key() -> (r: PrivateKey)
        ensures
            r.wf(),
    {
        PrivateKey { secret: random_secret() }
    }

    pub fn public_key(&self) -> (r: PublicKey)
        requires
            self.wf(),
        ensures
            r.0@ == public_key_of(self.secret()),
    {
        PublicKey(derive_public_key(&self.secret))
    }

    /// A key from its 32-byte big-endian scalar, if that is a valid secret.
    pub fn from_bytes(bytes: [u8; 32]) -> (r: Option<PrivateKey>)
        ensures
            r is Some <==> valid_secret(bytes@),
            r matches Some(k) ==> k.secret() == bytes@ && k.wf(),
    {
        if secret_is_valid(&bytes) {
            Some(PrivateKey { secret: bytes })
        } else {
            None
        }
    }

    /// The big-endian scalar.
    pub fn to_bytes(&self) -> (r: [u8; 32])
        ensures
            r@ == self.secret(),
            self.wf() ==> valid_secret(r@),
    {
        self.secret
    }
}

impl Signature {
    /// Signs the hash of an output that is to be spent: the message is the hash's 32 bytes,
    /// least significant first.
    pub fn sign_output(output_hash: &crate::hash::Hash, private_key: &PrivateKey) -> (r: Signature)
        requires
            private_key.wf(),
        ensures
            r.0@ == ecdsa_signature(private_key.secret(), crate::hash::le_bytes(output_hash.0)),
    {
        let message = output_hash.as_bytes();
        Signature(ecdsa_sign(&private_key.secret, &message))
    }

    /// Whether this signature over the hash verifies under the public key.
    pub fn verify(&self, output_hash: &crate::hash::Hash, public_key: &PublicKey) -> (r: bool)
        ensures
            r == signature_valid(*self, *output_hash, *public_key),
    {
        let message = output_hash.as_bytes();
        ecdsa_verify(&message, &self.0, &public_key.0)
    }
}

/// Whether a signature over the hash of an output verifies under a public key.
pub open spec fn signature_valid(signature: Signature, output_hash: crate::hash::Hash, key: PublicKey) -> bool {
    ecdsa_verifies(crate::hash::le_bytes(output_hash.0), signature.0@, key.0@)
}

} // verus!
