//! Wallet module - key management and transaction signing
//!
//! A wallet contains:
//! - Public/private key pairs (ed25519)
//! - Address generation
//! - Transaction signing
use vstd::prelude::*;
use vstd::string::*;
use vstd::utf8::encode_utf8;

use crate::chain::transaction::{
    derive_address, opt_text, same_signed_fields, signing_payload, spec_derive_address,
    spec_sign_outcome, SignError, SignFault, Transaction,
};
use crate::digest::{hex_decode, hex_encode, hex_error_message, hex_error_text, spec_hex, spec_hex_decode};
use crate::entropy::generate_secret_key;
use crate::signature::{ed25519_public_key, spec_ed25519_public_key, spec_ed25519_sign};
use crate::text::{spec_str_debug, str_debug};

verus! {

/// How `Debug` writes into its output.
#[verifier::external_type_specification]
#[verifier::external_body]
pub struct ExFormatter<'a>(core::fmt::Formatter<'a>);

/// The error a formatter reports.
#[verifier::external_type_specification]
#[verifier::external_body]
pub struct ExFormatError(core::fmt::Error);

/// The 32 secret bytes a hex private key stands for, or why it stands for
/// none: not hex, or not 32 bytes.
pub open spec fn key_bytes(private_key: Seq<char>) -> Result<Seq<u8>, SignFault> {
    match spec_hex_decode(encode_utf8(private_key)) {
        Err(e) => Err(SignFault::InvalidHex(hex_error_text(e))),
        Ok(key) => if key.len() != 32 {
            Err(SignFault::InvalidLength(key.len()))
        } else {
            Ok(key)
        },
    }
}

/// Represents a wallet with key pairs
///
/// `Debug` is written by hand rather than derived so the private key never
/// reaches a log line or a panic message.
#[derive(Clone)]
pub struct Wallet {
    /// Wallet address (public key hash)
    pub address: String,
    /// Private key (ed25519 signing key, hex-encoded)
    private_key: String,
    /// Public key (ed25519 verifying key, hex-encoded)
    pub public_key: String,
}

impl core::fmt::Debug for Wallet {
    /// Writes [`Wallet::debug_text`]. Trusted: only that the text reaches the
    /// formatter, which std's `Formatter::write_str` does.
    #[verifier::external_body]
    fn fmt(&self, f: &mut core::fmt::Formatter<'_>) -> core::fmt::Result {
        f.write_str(self.debug_text().as_str())
    }
}

/// The debug rendering of a wallet with address `address` and public key
/// `public_key`: the private key is shown as `"<redacted>"`, whatever it is.
pub open spec fn wallet_debug_text(address: Seq<char>, public_key: Seq<char>) -> Seq<char> {
    "Wallet { address: "@ + spec_str_debug(address) + ", private_key: \"<redacted>\", public_key: "@
        + spec_str_debug(public_key) + " }"@
}

impl Wallet {
    /// What `{:?}` shows of the wallet: its address and public key, and the
    /// marker `"<redacted>"` in place of the private key, which the text is
    /// built without.
    pub fn debug_text(&self) -> (text: String)
        ensures
            text@ == wallet_debug_text(self.address_text(), self.public_key_text()),
    {
        let mut text = String::from_str("Wallet { address: ");
        let address = str_debug(self.address.as_str());
        text.append(address.as_str());
        text.append(", private_key: \"<redacted>\", public_key: ");
        let public_key = str_debug(self.public_key.as_str());
        text.append(public_key.as_str());
        text.append(" }");
        text
    }

    /// The wallet's address.
    pub closed spec fn address_text(&self) -> Seq<char> {
        self.address@
    }

    /// The wallet's private key, as hex text.
    pub closed spec fn private_key_text(&self) -> Seq<char> {
        self.private_key@
    }

    /// The wallet's public key, as hex text.
    pub closed spec fn public_key_text(&self) -> Seq<char> {
        self.public_key@
    }

    /// The wallet holds the key pair of the secret `secret`: its public key is
    /// the hex of the secret's public key, and its address is derived from it.
    pub open spec fn holds_key_pair(&self, secret: Seq<u8>) -> bool {
        &&& self.public_key_text() == spec_hex(spec_ed25519_public_key(secret))
        &&& self.address_text() == spec_derive_address(self.public_key_text())
    }

    /// Create a new wallet with a freshly generated key.
    pub fn new() -> (wallet: Self)
        ensures
            exists|secret: Seq<u8>|
                secret.len() == 32 && wallet.private_key_text() == spec_hex(secret)
                    && #[trigger] wallet.holds_key_pair(secret),
    {
        let secret = generate_secret_key();
        let public = ed25519_public_key(secret.as_slice());
        let private_key = hex_encode(secret.as_slice());
        let public_key = hex_encode(public.as_slice());
        let address = Self::generate_address(public_key.as_str());
        let wallet = Wallet { private_key, public_key, address };
        assert(wallet.holds_key_pair(secret@));
        wallet
    }

    /// Create a wallet from an existing hex private key.
    ///
    /// A key that is not hex, or not 32 bytes, is an error rather than a
    /// panic; the wallet keeps the key text as given.
    pub fn from_private_key(private_key: &str) -> (result: Result<Self, SignError>)
        ensures
            match key_bytes(private_key@) {
                Err(fault) => result matches Err(e) && e.fault() == fault,
                Ok(secret) => {
                    &&& result matches Ok(w)
                    &&& w.private_key_text() == private_key@
                    &&& w.holds_key_pair(secret)
                },
            },
    {
        let key_bytes = match hex_decode(private_key) {
            Ok(bytes) => bytes,
            Err(e) => {
                return Err(SignError::InvalidHex(hex_error_message(e)));
            },
        };
        if key_bytes.len() != 32 {
            return Err(SignError::InvalidLength(key_bytes.len()));
        }
        let public = ed25519_public_key(key_bytes.as_slice());
        let public_key = hex_encode(public.as_slice());
        let address = Self::generate_address(public_key.as_str());
        Ok(Wallet { address, private_key: String::from_str(private_key), public_key })
    }

    /// A wallet from the three texts it is stored as, taken as they are.
    pub fn from_stored(address: String, private_key: String, public_key: String) -> (wallet: Self)
        ensures
            wallet.address_text() == address@,
            wallet.private_key_text() == private_key@,
            wallet.public_key_text() == public_key@,
    {
        Wallet { address, private_key, public_key }
    }

    /// Generate the address of a hex public key.
    ///
    /// Delegates to `derive_address` so the wallet and the verifier can never
    /// disagree about what a sender's address is.
    pub fn generate_address(public_key: &str) -> (address: String)
        ensures
            address@ == spec_derive_address(public_key@),
    {
        derive_address(public_key)
    }

    /// Create and sign a transaction from this wallet's address.
    pub fn create_transaction(&self, recipient: &str, amount: u64) -> (result: Result<
        Transaction,
        SignError,
    >)
        ensures
            match key_bytes(self.private_key_text()) {
                Err(fault) => result matches Err(e) && e.fault() == fault,
                Ok(secret) => {
                    &&& result matches Ok(tx)
                    &&& tx.sender@ == self.address_text()
                    &&& tx.recipient@ == recipient@
                    &&& tx.amount == amount
                    &&& !tx.is_coinbase_tx
                    &&& opt_text(tx.signature) == Some(
                        spec_hex(spec_ed25519_sign(secret, signing_payload(tx))),
                    )
                    &&& opt_text(tx.public_key) == Some(spec_hex(spec_ed25519_public_key(secret)))
                },
            },
    {
        let mut tx = Transaction::new(self.address.clone(), String::from_str(recipient), amount);
        let ghost unsigned = tx;
        match tx.sign(self.private_key.as_str()) {
            Ok(()) => {
                assert(signing_payload(tx) == signing_payload(unsigned));
                Ok(tx)
            },
            Err(e) => Err(e),
        }
    }

    /// Sign an existing transaction with this wallet's key.
    pub fn sign_transaction(&self, transaction: &mut Transaction) -> (result: Result<(), SignError>)
        ensures
            (match spec_sign_outcome(*old(transaction), self.private_key_text()) {
                Err(fault) => (result matches Err(e) && e.fault() == fault) && *final(transaction)
                    == *old(transaction),
                Ok((sig, pk)) => {
                    &&& result is Ok
                    &&& opt_text(final(transaction).signature) == Some(sig)
                    &&& opt_text(final(transaction).public_key) == Some(pk)
                    &&& same_signed_fields(*final(transaction), *old(transaction))
                },
            }),
    {
        transaction.sign(self.private_key.as_str())
    }

    /// Get the wallet address
    pub fn get_address(&self) -> (address: &str)
        ensures
            address@ == self.address_text(),
    {
        self.address.as_str()
    }

    /// The wallet's private key, as hex text (for storing the wallet).
    pub fn private_key(&self) -> (key: &str)
        ensures
            key@ == self.private_key_text(),
    {
        self.private_key.as_str()
    }
}

impl Default for Wallet {
    fn default() -> (wallet: Self)
        ensures
            exists|secret: Seq<u8>|
                secret.len() == 32 && wallet.private_key_text() == spec_hex(secret)
                    && #[trigger] wallet.holds_key_pair(secret),
    {
        Self::new()
    }
}

} // verus!
