//! Fresh randomness: transaction ids and secret keys. Nothing is promised of
//! what comes back beyond its shape; every caller is verified for every value.
use vstd::prelude::*;

verus! {

/// A fresh random transaction id.
///
/// Calls `uuid::Uuid::new_v4()` and renders it with `to_string`. The value is
/// random, so nothing is stated of it.
#[verifier::external_body]
pub(crate) fn new_transaction_id() -> (id: String) {
    uuid::Uuid::new_v4().to_string()
}

/// A fresh random 32-byte ed25519 secret key.
///
/// Calls `SigningKey::generate(&mut OsRng)` and returns its bytes. Only the
/// length is stated: the bytes are random.
#[verifier::external_body]
pub(crate) fn generate_secret_key() -> (secret: Vec<u8>)
    ensures
        secret@.len() == 32,
{
    ed25519_dalek::SigningKey::generate(&mut rand::rngs::OsRng).to_bytes().to_vec()
}

} // verus!
