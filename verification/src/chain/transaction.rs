//! Transaction module - represents transfer of value on the blockchain
//!
//! A transaction contains a sender address (public key hash), a recipient
//! address, an amount, a timestamp, a unique id, and an ed25519 signature with
//! the public key that made it.
use vstd::prelude::*;
use vstd::string::*;
use vstd::utf8::encode_utf8;

use crate::chain::hashing::{
    fields_fit, lemma_encoding_injective, lemma_u64_be_injective, u32_be, encode_fields, field, flag_field, lemma_encode_push, lemma_encode_one, lemma_utf8_injective, lemma_time_field_injective, optional_text_field, spec_hash_hex,
    time_field, u64_be, CanonicalEncoding, TRANSACTION_HASH_DOMAIN, TRANSACTION_SIGNING_DOMAIN,
};
use crate::chain::time::Timestamp;
use crate::clock::now;
use crate::digest::{
    hex_decode, hex_encode, hex_error_message, hex_error_text, sha256, spec_hex, spec_hex_decode,
    spec_sha256, HexError,
};
use crate::entropy::new_transaction_id;
use crate::signature::{
    ed25519_public_key, ed25519_sign, ed25519_verify_strict, spec_ed25519_public_key,
    spec_ed25519_sign, spec_ed25519_verify_strict,
};

verus! {

/// The canonical address of a hex-encoded public key: `0x` and the first 40
/// hex digits of the SHA-256 of the key's text.
pub open spec fn spec_derive_address(public_key_hex: Seq<char>) -> Seq<char> {
    seq!['0', 'x'] + spec_hex(spec_sha256(encode_utf8(public_key_hex))).take(40)
}

/// Hex text is two digits per byte.
pub proof fn lemma_hex_len(bytes: Seq<u8>)
    ensures
        spec_hex(bytes).len() == 2 * bytes.len(),
    decreases bytes.len(),
{
    if bytes.len() > 0 {
        lemma_hex_len(bytes.drop_first());
    }
}

/// Derive the canonical address for a hex-encoded ed25519 public key.
///
/// This is the single definition of the address format; the wallet delegates
/// to it so an address can never be derived two different ways.
pub fn derive_address(public_key_hex: &str) -> (address: String)
    ensures
        address@ == spec_derive_address(public_key_hex@),
{
    let digest = sha256(public_key_hex.as_bytes());
    let hash = hex_encode(digest.as_slice());
    proof {
        lemma_hex_len(digest@);
        reveal_strlit("0x");
    }
    let mut address = String::from_str("0x");
    let prefix = hash.as_str().substring_char(0, 40);
    address.append(prefix);
    assert(hash@.subrange(0, 40) == hash@.take(40));
    address
}

/// Errors that can occur while signing a transaction.
#[derive(Debug)]
pub enum SignError {
    /// The private key was not valid hex.
    InvalidHex(String),
    /// The private key decoded, but was not the 32 bytes ed25519 requires.
    InvalidLength(usize),
}

impl PartialEq for SignError {
    fn eq(&self, other: &Self) -> (same: bool) {
        match (self, other) {
            (SignError::InvalidHex(a), SignError::InvalidHex(b)) => a.eq(b),
            (SignError::InvalidLength(a), SignError::InvalidLength(b)) => *a == *b,
            _ => false,
        }
    }
}

impl vstd::std_specs::cmp::PartialEqSpecImpl for SignError {
    open spec fn obeys_eq_spec() -> bool {
        true
    }

    open spec fn eq_spec(&self, other: &Self) -> bool {
        match (self, other) {
            (SignError::InvalidHex(a), SignError::InvalidHex(b)) => a@ == b@,
            (SignError::InvalidLength(a), SignError::InvalidLength(b)) => a == b,
            _ => false,
        }
    }
}

impl Eq for SignError {}

/// Represents a transaction on the blockchain
#[derive(Debug)]
pub struct Transaction {
    /// Unique identifier for this transaction
    pub id: String,
    /// Sender's address (public key hash)
    pub sender: String,
    /// Recipient's address
    pub recipient: String,
    /// Amount to transfer
    pub amount: u64,
    /// Transaction timestamp
    pub timestamp: Timestamp,
    /// Transaction signature (ed25519 signature, hex-encoded)
    pub signature: Option<String>,
    /// Hex-encoded ed25519 public key of the signer.
    ///
    /// Required to verify the signature: `sender` is an address (a hash of this
    /// key), so it cannot be used as a verifying key on its own.
    pub public_key: Option<String>,
    /// Whether this is a coinbase (mining reward) transaction
    pub is_coinbase_tx: bool,
}

impl Clone for Transaction {
    fn clone(&self) -> (copy: Self)
        ensures
            copy == *self,
    {
        Transaction {
            id: self.id.clone(),
            sender: self.sender.clone(),
            recipient: self.recipient.clone(),
            amount: self.amount,
            timestamp: self.timestamp,
            signature: match &self.signature {
                Some(s) => Some(s.clone()),
                None => None,
            },
            public_key: match &self.public_key {
                Some(s) => Some(s.clone()),
                None => None,
            },
            is_coinbase_tx: self.is_coinbase_tx,
        }
    }
}

/// An optional string as plain text.
pub open spec fn opt_text(value: Option<String>) -> Option<Seq<char>> {
    match value {
        Some(s) => Some(s@),
        None => None,
    }
}

/// The fields of the transaction hash preimage, in order: the domain tag,
/// `id`, `sender`, `recipient`, `amount`, `timestamp`, `signature`,
/// `public_key`, `is_coinbase_tx`.
pub open spec fn hash_fields(tx: Transaction) -> Seq<Seq<u8>> {
    seq![
        encode_utf8(TRANSACTION_HASH_DOMAIN@),
        encode_utf8(tx.id@),
        encode_utf8(tx.sender@),
        encode_utf8(tx.recipient@),
        u64_be(tx.amount),
        time_field(tx.timestamp),
        optional_text_field(opt_text(tx.signature)),
        optional_text_field(opt_text(tx.public_key)),
        flag_field(tx.is_coinbase_tx),
    ]
}

/// The fields the signature covers, in order: the signing domain tag, `id`,
/// `sender`, `recipient`, `amount`, `timestamp`.
pub open spec fn signing_fields(tx: Transaction) -> Seq<Seq<u8>> {
    seq![
        encode_utf8(TRANSACTION_SIGNING_DOMAIN@),
        encode_utf8(tx.id@),
        encode_utf8(tx.sender@),
        encode_utf8(tx.recipient@),
        u64_be(tx.amount),
        time_field(tx.timestamp),
    ]
}

/// The exact bytes a transaction signature covers.
pub open spec fn signing_payload(tx: Transaction) -> Seq<u8> {
    encode_fields(signing_fields(tx))
}

/// The hash of a transaction: the hex SHA-256 of its canonical encoding.
pub open spec fn spec_tx_hash(tx: Transaction) -> Seq<char> {
    spec_hash_hex(encode_fields(hash_fields(tx)))
}

/// What `verify` decides: a coinbase is accepted as is; any other transaction
/// needs a 64-byte hex signature, a public key whose address is the sender,
/// a 32-byte hex public key, and a signature that `verify_strict` accepts over
/// the signing payload.
pub open spec fn spec_tx_verifies(tx: Transaction) -> bool {
    if tx.is_coinbase_tx {
        true
    } else {
        match (tx.signature, tx.public_key) {
            (Some(sig), Some(pk)) => match (
                spec_hex_decode(encode_utf8(sig@)),
                spec_hex_decode(encode_utf8(pk@)),
            ) {
                (Ok(sig_bytes), Ok(pk_bytes)) => {
                    &&& sig_bytes.len() == 64
                    &&& tx.sender@ == spec_derive_address(pk@)
                    &&& pk_bytes.len() == 32
                    &&& spec_ed25519_verify_strict(pk_bytes, signing_payload(tx), sig_bytes)
                },
                _ => false,
            },
            _ => false,
        }
    }
}

/// The outcome of signing with `private_key`: the error, or the signature and
/// public key the transaction then carries.
pub open spec fn spec_sign_outcome(tx: Transaction, private_key: Seq<char>) -> Result<
    (Seq<char>, Seq<char>),
    SignFault,
> {
    match spec_hex_decode(encode_utf8(private_key)) {
        Err(e) => Err(SignFault::InvalidHex(hex_error_text(e))),
        Ok(key) => if key.len() != 32 {
            Err(SignFault::InvalidLength(key.len()))
        } else {
            Ok(
                (
                    spec_hex(spec_ed25519_sign(key, signing_payload(tx))),
                    spec_hex(spec_ed25519_public_key(key)),
                ),
            )
        },
    }
}

/// Two optional texts are the same: both absent, or both present and equal.
fn same_optional_text(a: &Option<String>, b: &Option<String>) -> (same: bool)
    ensures
        same == (opt_text(*a) == opt_text(*b)),
{
    match (a, b) {
        (Some(x), Some(y)) => x.eq(y),
        (None, None) => true,
        _ => false,
    }
}

impl PartialEq for Transaction {
    fn eq(&self, other: &Self) -> (same: bool) {
        self.id.eq(&other.id) && self.sender.eq(&other.sender) && self.recipient.eq(
            &other.recipient,
        ) && self.amount == other.amount && self.timestamp == other.timestamp
            && same_optional_text(&self.signature, &other.signature) && same_optional_text(
            &self.public_key,
            &other.public_key,
        ) && self.is_coinbase_tx == other.is_coinbase_tx
    }
}

impl vstd::std_specs::cmp::PartialEqSpecImpl for Transaction {
    open spec fn obeys_eq_spec() -> bool {
        true
    }

    open spec fn eq_spec(&self, other: &Self) -> bool {
        &&& self.id@ == other.id@
        &&& self.sender@ == other.sender@
        &&& self.recipient@ == other.recipient@
        &&& self.amount == other.amount
        &&& self.timestamp == other.timestamp
        &&& opt_text(self.signature) == opt_text(other.signature)
        &&& opt_text(self.public_key) == opt_text(other.public_key)
        &&& self.is_coinbase_tx == other.is_coinbase_tx
    }
}

impl Eq for Transaction {}

/// Two transactions agree on every field but the signature and public key.
pub open spec fn same_signed_fields(a: Transaction, b: Transaction) -> bool {
    &&& a.id == b.id
    &&& a.sender == b.sender
    &&& a.recipient == b.recipient
    &&& a.amount == b.amount
    &&& a.timestamp == b.timestamp
    &&& a.is_coinbase_tx == b.is_coinbase_tx
}

/// A signing error as plain values.
pub enum SignFault {
    InvalidHex(Seq<char>),
    InvalidLength(nat),
}

impl SignError {
    /// This error as plain values.
    pub open spec fn fault(&self) -> SignFault {
        match self {
            SignError::InvalidHex(msg) => SignFault::InvalidHex(msg@),
            SignError::InvalidLength(n) => SignFault::InvalidLength(*n as nat),
        }
    }
}

impl Transaction {
    /// Create a new, unsigned transaction with a fresh random id, stamped now.
    pub fn new(sender: String, recipient: String, amount: u64) -> (tx: Self)
        ensures
            tx.sender == sender,
            tx.recipient == recipient,
            tx.amount == amount,
            tx.signature.is_none(),
            tx.public_key.is_none(),
            !tx.is_coinbase_tx,
    {
        Self {
            id: new_transaction_id(),
            sender,
            recipient,
            amount,
            timestamp: now(),
            signature: None,
            public_key: None,
            is_coinbase_tx: false,
        }
    }

    /// Create a coinbase transaction (mining reward): sender `COINBASE`, a
    /// fresh random id, stamped now. Coinbase transactions create new coins.
    pub fn coinbase(recipient: String, amount: u64) -> (tx: Self)
        ensures
            tx.sender@ == "COINBASE"@,
            tx.recipient == recipient,
            tx.amount == amount,
            tx.signature matches Some(s) && s@ == "COINBASE_SIGNATURE"@,
            tx.public_key.is_none(),
            tx.is_coinbase_tx,
    {
        Self {
            id: new_transaction_id(),
            sender: String::from_str("COINBASE"),
            recipient,
            amount,
            timestamp: now(),
            signature: Some(String::from_str("COINBASE_SIGNATURE")),
            public_key: None,
            is_coinbase_tx: true,
        }
    }

    /// Create the deterministic coinbase transaction of the genesis block:
    /// the fixed id `genesis` and the Unix epoch as its timestamp, so every
    /// node derives the same one.
    pub fn genesis_coinbase(recipient: String, amount: u64) -> (tx: Self)
        ensures
            tx.id@ == "genesis"@,
            tx.sender@ == "COINBASE"@,
            tx.recipient == recipient,
            tx.amount == amount,
            tx.timestamp == Timestamp::epoch(),
            tx.signature matches Some(s) && s@ == "COINBASE_SIGNATURE"@,
            tx.public_key.is_none(),
            tx.is_coinbase_tx,
    {
        Self {
            id: String::from_str("genesis"),
            sender: String::from_str("COINBASE"),
            recipient,
            amount,
            timestamp: Timestamp::unix_epoch(),
            signature: Some(String::from_str("COINBASE_SIGNATURE")),
            public_key: None,
            is_coinbase_tx: true,
        }
    }

    /// Calculate the hash of this transaction: the hex SHA-256 of the
    /// canonical encoding of every field that affects validation or
    /// accounting.
    pub fn hash(&self) -> (hash: String)
        ensures
            hash@ == spec_tx_hash(*self),
    {
        let ghost fs = hash_fields(*self);
        let e = CanonicalEncoding::new(TRANSACTION_HASH_DOMAIN);
        proof { lemma_encode_one(fs[0]); }
        let e = e.text(self.id.as_str());
        proof { lemma_encode_push(fs.take(1), fs[1]); assert(fs.take(2) == fs.take(1).push(fs[1])); }
        let e = e.text(self.sender.as_str());
        proof { lemma_encode_push(fs.take(2), fs[2]); assert(fs.take(3) == fs.take(2).push(fs[2])); }
        let e = e.text(self.recipient.as_str());
        proof { lemma_encode_push(fs.take(3), fs[3]); assert(fs.take(4) == fs.take(3).push(fs[3])); }
        let e = e.integer(self.amount);
        proof { lemma_encode_push(fs.take(4), fs[4]); assert(fs.take(5) == fs.take(4).push(fs[4])); }
        let e = e.time(&self.timestamp);
        proof { lemma_encode_push(fs.take(5), fs[5]); assert(fs.take(6) == fs.take(5).push(fs[5])); }
        let signature = match &self.signature {
            Some(s) => Some(s.as_str()),
            None => None,
        };
        let e = e.optional_text(signature);
        proof { lemma_encode_push(fs.take(6), fs[6]); assert(fs.take(7) == fs.take(6).push(fs[6])); }
        let public_key = match &self.public_key {
            Some(s) => Some(s.as_str()),
            None => None,
        };
        let e = e.optional_text(public_key);
        proof { lemma_encode_push(fs.take(7), fs[7]); assert(fs.take(8) == fs.take(7).push(fs[7])); }
        let e = e.flag(self.is_coinbase_tx);
        proof {
            lemma_encode_push(fs.take(8), fs[8]);
            assert(fs.take(9) == fs.take(8).push(fs[8]));
            assert(fs.take(9) == fs);
            assert(fs.take(1) == seq![fs[0]]);
        }
        e.hash_hex()
    }

    /// The exact bytes covered by the signature.
    pub fn signing_payload(&self) -> (payload: Vec<u8>)
        ensures
            payload@ == signing_payload(*self),
    {
        let ghost fs = signing_fields(*self);
        let e = CanonicalEncoding::new(TRANSACTION_SIGNING_DOMAIN);
        proof { lemma_encode_one(fs[0]); assert(fs.take(1) == seq![fs[0]]); }
        let e = e.text(self.id.as_str());
        proof { lemma_encode_push(fs.take(1), fs[1]); assert(fs.take(2) == fs.take(1).push(fs[1])); }
        let e = e.text(self.sender.as_str());
        proof { lemma_encode_push(fs.take(2), fs[2]); assert(fs.take(3) == fs.take(2).push(fs[2])); }
        let e = e.text(self.recipient.as_str());
        proof { lemma_encode_push(fs.take(3), fs[3]); assert(fs.take(4) == fs.take(3).push(fs[3])); }
        let e = e.integer(self.amount);
        proof { lemma_encode_push(fs.take(4), fs[4]); assert(fs.take(5) == fs.take(4).push(fs[4])); }
        let e = e.time(&self.timestamp);
        proof {
            lemma_encode_push(fs.take(5), fs[5]);
            assert(fs.take(6) == fs.take(5).push(fs[5]));
            assert(fs.take(6) == fs);
        }
        e.into_bytes()
    }

    /// Sign the transaction with a hex-encoded 32-byte ed25519 private key.
    ///
    /// A malformed key is an error and leaves the transaction untouched;
    /// otherwise the transaction carries the hex signature over its signing
    /// payload and the hex public key of the signer.
    pub fn sign(&mut self, private_key: &str) -> (result: Result<(), SignError>)
        ensures
            (match spec_sign_outcome(*old(self), private_key@) {
                Err(fault) => (result matches Err(e) && e.fault() == fault) && *final(self) == *old(
                    self,
                ),
                Ok((sig, pk)) => {
                    &&& result is Ok
                    &&& opt_text(final(self).signature) == Some(sig)
                    &&& opt_text(final(self).public_key) == Some(pk)
                    &&& same_signed_fields(*final(self), *old(self))
                },
            }),
    {
        let key_bytes = match hex_decode(private_key) {
            Ok(bytes) => bytes,
            Err(e) => {
                return Err(SignError::InvalidHex(hex_error_message(e)));
            },
        };
        if key_bytes.len() != 32 {
            return Err(SignError::InvalidLength(key_bytes.len()));
        }
        let payload = self.signing_payload();
        let signature = ed25519_sign(key_bytes.as_slice(), payload.as_slice());
        let public_key = ed25519_public_key(key_bytes.as_slice());
        self.signature = Some(hex_encode(signature.as_slice()));
        self.public_key = Some(hex_encode(public_key.as_slice()));
        Ok(())
    }

    /// Verify the transaction signature using ed25519.
    ///
    /// Three things must hold: the signature is well-formed, the carried public
    /// key owns the `sender` address, and the signature is valid over this
    /// transaction's signing payload. Coinbase transactions are accepted as is.
    pub fn verify(&self) -> (valid: bool)
        ensures
            valid == spec_tx_verifies(*self),
    {
        if self.is_coinbase() {
            return true;
        }
        let (signature_hex, public_key_hex) = match (&self.signature, &self.public_key) {
            (Some(s), Some(p)) => (s, p),
            _ => {
                return false;
            },
        };
        let sig_bytes = match hex_decode(signature_hex.as_str()) {
            Ok(bytes) => bytes,
            Err(_) => {
                return false;
            },
        };
        if sig_bytes.len() != 64 {
            return false;
        }
        let owner = derive_address(public_key_hex.as_str());
        if self.sender != owner {
            return false;
        }
        let pk_bytes = match hex_decode(public_key_hex.as_str()) {
            Ok(bytes) => bytes,
            Err(_) => {
                return false;
            },
        };
        if pk_bytes.len() != 32 {
            return false;
        }
        let payload = self.signing_payload();
        ed25519_verify_strict(pk_bytes.as_slice(), payload.as_slice(), sig_bytes.as_slice())
    }

    /// Check if this is a coinbase transaction
    pub fn is_coinbase(&self) -> (coinbase: bool)
        ensures
            coinbase == self.is_coinbase_tx,
    {
        self.is_coinbase_tx
    }
}

} // verus!

verus! {

proof fn lemma_optional_text_injective(a: Option<Seq<char>>, b: Option<Seq<char>>)
    requires
        optional_text_field(a) == optional_text_field(b),
    ensures
        a == b,
{
    assert(optional_text_field(a)[0] == optional_text_field(b)[0]);
    match a {
        Some(x) => {
            assert(optional_text_field(a)[0] == 1u8);
            match b {
                Some(y) => {
                    assert(optional_text_field(a).drop_first() =~= encode_utf8(x));
                    assert(optional_text_field(b).drop_first() =~= encode_utf8(y));
                    lemma_utf8_injective(x, y);
                },
                None => {
                    assert(optional_text_field(b)[0] == 0u8);
                },
            }
        },
        None => {
            assert(optional_text_field(a)[0] == 0u8);
            match b {
                Some(y) => {
                    assert(optional_text_field(b)[0] == 1u8);
                },
                None => {},
            }
        },
    }
}

/// Every field of `tx` fits the encoding's length prefix.
pub open spec fn tx_fields_fit(tx: Transaction) -> bool {
    fields_fit(hash_fields(tx)) && fields_fit(signing_fields(tx))
}

/// Two transactions with the same hash preimage agree on every field:
/// moving the boundary between two fields, flipping the coinbase flag or
/// dropping the public key always changes the preimage. Only a SHA-256
/// collision can then give two different transactions one hash.
pub proof fn lemma_hash_preimage_identifies_transaction(a: Transaction, b: Transaction)
    requires
        tx_fields_fit(a),
        tx_fields_fit(b),
        encode_fields(hash_fields(a)) == encode_fields(hash_fields(b)),
    ensures
        a.id@ == b.id@,
        a.sender@ == b.sender@,
        a.recipient@ == b.recipient@,
        a.amount == b.amount,
        a.timestamp == b.timestamp,
        opt_text(a.signature) == opt_text(b.signature),
        opt_text(a.public_key) == opt_text(b.public_key),
        a.is_coinbase_tx == b.is_coinbase_tx,
{
    lemma_encoding_injective(hash_fields(a), hash_fields(b));
    let (fa, fb) = (hash_fields(a), hash_fields(b));
    assert(fa[1] == fb[1] && fa[2] == fb[2] && fa[3] == fb[3] && fa[4] == fb[4]);
    lemma_utf8_injective(a.id@, b.id@);
    lemma_utf8_injective(a.sender@, b.sender@);
    lemma_utf8_injective(a.recipient@, b.recipient@);
    lemma_u64_be_injective(a.amount, b.amount);
    assert(fa[5] == fb[5]);
    lemma_time_field_injective(a.timestamp, b.timestamp);
    assert(fa[6] == fb[6] && fa[7] == fb[7] && fa[8] == fb[8]);
    lemma_optional_text_injective(opt_text(a.signature), opt_text(b.signature));
    lemma_optional_text_injective(opt_text(a.public_key), opt_text(b.public_key));
    assert(flag_field(a.is_coinbase_tx)[0] == flag_field(b.is_coinbase_tx)[0]);
}

/// A signature covers exactly one payload: two transactions with the same
/// signing payload agree on the id, both addresses, the amount and the
/// timestamp, so a signature authorising one transfer never authorises a
/// different one.
pub proof fn lemma_signing_payload_identifies_transfer(a: Transaction, b: Transaction)
    requires
        tx_fields_fit(a),
        tx_fields_fit(b),
        signing_payload(a) == signing_payload(b),
    ensures
        a.id@ == b.id@,
        a.sender@ == b.sender@,
        a.recipient@ == b.recipient@,
        a.amount == b.amount,
        a.timestamp == b.timestamp,
{
    lemma_encoding_injective(signing_fields(a), signing_fields(b));
    let (fa, fb) = (signing_fields(a), signing_fields(b));
    assert(fa[1] == fb[1] && fa[2] == fb[2] && fa[3] == fb[3] && fa[4] == fb[4] && fa[5] == fb[5]);
    lemma_utf8_injective(a.id@, b.id@);
    lemma_utf8_injective(a.sender@, b.sender@);
    lemma_utf8_injective(a.recipient@, b.recipient@);
    lemma_u64_be_injective(a.amount, b.amount);
    lemma_time_field_injective(a.timestamp, b.timestamp);
}

/// A signing payload is never a transaction hash preimage: the two encode
/// field lists of different lengths, so neither can stand in for the other.
pub proof fn lemma_signing_payload_is_not_a_hash_preimage(a: Transaction, b: Transaction)
    requires
        tx_fields_fit(a),
        tx_fields_fit(b),
    ensures
        signing_payload(a) != encode_fields(hash_fields(b)),
{
    if signing_payload(a) == encode_fields(hash_fields(b)) {
        lemma_encoding_injective(signing_fields(a), hash_fields(b));
        assert(signing_fields(a).len() != hash_fields(b).len());
    }
}

} // verus!
