//! Ed25519, computed by `ed25519-dalek`; this module holds the only calls into it.
//!
//! Keys and signatures cross this boundary as plain bytes: a 32-byte secret
//! key, a 32-byte public key, a 64-byte signature.
use vstd::prelude::*;
use ed25519_dalek::Signer;

verus! {

/// The public key ed25519 derives from a 32-byte secret key.
pub uninterp spec fn spec_ed25519_public_key(secret: Seq<u8>) -> Seq<u8>;

/// The signature ed25519 produces over `message` with a 32-byte secret key
/// (ed25519 signing is deterministic).
pub uninterp spec fn spec_ed25519_sign(secret: Seq<u8>, message: Seq<u8>) -> Seq<u8>;

/// Whether `signature` is accepted under `verify_strict` for `message` by the
/// public key `public`, which must also decode as a curve point.
pub uninterp spec fn spec_ed25519_verify_strict(
    public: Seq<u8>,
    message: Seq<u8>,
    signature: Seq<u8>,
) -> bool;

/// The public key of a secret key.
///
/// Calls `SigningKey::from_bytes(..).verifying_key()` and returns its 32
/// bytes. Trusted: the key is the named function of the secret, 32 bytes long.
#[verifier::external_body]
pub(crate) fn ed25519_public_key(secret: &[u8]) -> (public: Vec<u8>)
    requires
        secret@.len() == 32,
    ensures
        public@ == spec_ed25519_public_key(secret@),
        public@.len() == 32,
{
    let secret: [u8; 32] = secret.try_into().unwrap_or([0u8; 32]);
    ed25519_dalek::SigningKey::from_bytes(&secret).verifying_key().to_bytes().to_vec()
}

/// Sign `message` with a secret key.
///
/// Calls `SigningKey::from_bytes(..).sign(message)` and returns the 64
/// signature bytes. Trusted: the signature is the named function of the secret
/// and the message, 64 bytes long.
#[verifier::external_body]
pub(crate) fn ed25519_sign(secret: &[u8], message: &[u8]) -> (signature: Vec<u8>)
    requires
        secret@.len() == 32,
    ensures
        signature@ == spec_ed25519_sign(secret@, message@),
        signature@.len() == 64,
{
    let secret: [u8; 32] = secret.try_into().unwrap_or([0u8; 32]);
    ed25519_dalek::SigningKey::from_bytes(&secret).sign(message).to_bytes().to_vec()
}

/// Check a signature under the strict rules.
///
/// Decodes the public key with `VerifyingKey::from_bytes` (a key that is not a
/// curve point fails) and calls `verify_strict`, which also refuses small-order
/// keys and non-canonical encodings. Trusted: the answer is the named function
/// of the three byte strings. What it is on given inputs is not stated.
#[verifier::external_body]
pub(crate) fn ed25519_verify_strict(public: &[u8], message: &[u8], signature: &[u8]) -> (valid: bool)
    requires
        public@.len() == 32,
        signature@.len() == 64,
    ensures
        valid == spec_ed25519_verify_strict(public@, message@, signature@),
{
    let public: [u8; 32] = public.try_into().unwrap_or([0u8; 32]);
    let signature: [u8; 64] = signature.try_into().unwrap_or([0u8; 64]);
    match ed25519_dalek::VerifyingKey::from_bytes(&public) {
        Ok(key) => key.verify_strict(message, &ed25519_dalek::Signature::from_bytes(&signature)).is_ok(),
        Err(_) => false,
    }
}

} // verus!
