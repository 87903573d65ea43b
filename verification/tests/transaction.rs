use ed25519_dalek::{Signer, SigningKey};
use rand::rngs::OsRng;
use sha2::Digest;
use rustchain::chain::time::Timestamp;
use rustchain::chain::transaction::{derive_address, SignError, Transaction};

#[test]
fn transaction_test_create_transaction() {
    let tx = Transaction::new("alice".to_string(), "bob".to_string(), 100);

    assert_eq!(tx.sender, "alice");
    assert_eq!(tx.recipient, "bob");
    assert_eq!(tx.amount, 100);
    assert!(tx.signature.is_none());
    assert!(!tx.is_coinbase_tx);
}

#[test]
fn test_coinbase_transaction() {
    let tx = Transaction::coinbase("miner".to_string(), 50);

    assert_eq!(tx.sender, "COINBASE");
    assert_eq!(tx.recipient, "miner");
    assert_eq!(tx.amount, 50);
    assert!(tx.is_coinbase());
    assert!(tx.is_coinbase_tx);
    assert!(tx.verify());
}

#[test]
fn test_transaction_hash() {
    let tx = Transaction::new("alice".to_string(), "bob".to_string(), 100);

    let hash = tx.hash();
    assert_eq!(hash.len(), 64);
}

#[test]
fn test_sign_transaction() {

    let signing_key = SigningKey::generate(&mut OsRng);
    let private_key_hex = hex::encode(signing_key.to_bytes());

    let mut tx = Transaction::new("alice".to_string(), "bob".to_string(), 100);

    tx.sign(&private_key_hex)
        .expect("a freshly generated key must sign");
    assert!(tx.signature.is_some());
}

/// Build a signed transaction from a fresh key, addressed correctly.
fn signed_transaction(recipient: &str, amount: u64) -> Transaction {

    let signing_key = SigningKey::generate(&mut OsRng);
    let public_key = hex::encode(signing_key.verifying_key().to_bytes());
    let mut tx = Transaction::new(derive_address(&public_key), recipient.to_string(), amount);
    tx.sign(&hex::encode(signing_key.to_bytes()))
        .expect("a freshly generated key must sign");
    tx
}

#[test]
fn hash_covers_the_coinbase_flag_and_public_key() {
    let tx = signed_transaction("bob", 100);
    let before = tx.hash();

    let mut promoted = tx.clone();
    promoted.is_coinbase_tx = true;
    assert_ne!(
        before,
        promoted.hash(),
        "the coinbase flag must be hashed"
    );

    let mut stripped = tx.clone();
    stripped.public_key = None;
    assert_ne!(before, stripped.hash(), "the public key must be hashed");
}

#[test]
fn a_separator_in_a_field_cannot_forge_another_transaction() {
    let base = Transaction {
        id: "id".to_string(),
        sender: "a|b".to_string(),
        recipient: "c".to_string(),
        amount: 100,
        timestamp: Timestamp::unix_epoch(),
        signature: None,
        public_key: None,
        is_coinbase_tx: false,
    };

    let mut resplit = base.clone();
    resplit.sender = "a".to_string();
    resplit.recipient = "b|c".to_string();

    assert_ne!(base.hash(), resplit.hash(), "the hashes must differ");
    assert_ne!(
        base.signing_payload(),
        resplit.signing_payload(),
        "the signed bytes must differ"
    );
}

#[test]
fn signature_covers_the_transaction_id() {
    let tx = signed_transaction("bob", 100);
    assert!(tx.verify());

    let mut relabelled = tx.clone();
    relabelled.id = uuid::Uuid::new_v4().to_string();
    assert!(
        !relabelled.verify(),
        "a re-identified transaction must not verify"
    );
}

#[test]
fn raw_public_key_is_not_a_second_identity() {

    let signing_key = SigningKey::generate(&mut OsRng);
    let public_key = hex::encode(signing_key.verifying_key().to_bytes());
    let mut tx = Transaction::new(public_key.clone(), "bob".to_string(), 100);
    tx.sign(&hex::encode(signing_key.to_bytes()))
        .expect("a freshly generated key must sign");

    assert!(
        !tx.verify(),
        "the raw public key is not a valid sender address"
    );
}

#[test]
fn genesis_coinbase_is_deterministic() {
    let a = Transaction::genesis_coinbase("genesis_address".to_string(), 1_000_000);
    let b = Transaction::genesis_coinbase("genesis_address".to_string(), 1_000_000);

    assert_eq!(a.hash(), b.hash());
}

#[test]
fn an_address_is_0x_and_forty_hex_digits_of_the_key_hash() {
    let key = "00".repeat(32);
    let digest = hex::encode(sha2::Sha256::digest(key.as_bytes()));

    let address = derive_address(&key);

    assert_eq!(address, format!("0x{}", &digest[..40]));
}

#[test]
fn signing_with_a_malformed_key_reports_why_and_leaves_the_transaction_alone() {
    let mut tx = Transaction::new("a".into(), "b".into(), 1);

    assert_eq!(
        tx.sign("xy"),
        Err(SignError::InvalidHex("Invalid character 'x' at position 0".to_string()))
    );
    assert_eq!(tx.sign("abc"), Err(SignError::InvalidHex("Odd number of digits".to_string())));
    assert_eq!(tx.sign("abcd"), Err(SignError::InvalidLength(2)));
    assert!(tx.signature.is_none());
    assert!(tx.public_key.is_none());
}

#[test]
fn a_signature_carries_the_signers_public_key_and_the_ed25519_signature() {

    let signing_key = SigningKey::from_bytes(&[7u8; 32]);
    let mut tx = Transaction::new("a".into(), "b".into(), 1);
    tx.sign(&hex::encode([7u8; 32])).expect("32 bytes of hex sign");

    let expected = signing_key.sign(&tx.signing_payload());
    assert_eq!(tx.signature, Some(hex::encode(expected.to_bytes())));
    assert_eq!(
        tx.public_key,
        Some(hex::encode(signing_key.verifying_key().to_bytes()))
    );
}

#[test]
fn an_unsigned_payment_does_not_verify() {
    let tx = Transaction::new("a".into(), "b".into(), 1);

    assert!(!tx.verify());
}

#[test]
fn every_new_transaction_gets_a_fresh_id() {
    let a = Transaction::new("a".into(), "b".into(), 1);
    let b = Transaction::new("a".into(), "b".into(), 1);

    assert_ne!(a.id, b.id);
    assert!(uuid::Uuid::parse_str(&a.id).is_ok());
}

#[test]
fn transactions_are_equal_field_by_field() {
    let tx = Transaction::new("a".into(), "b".into(), 1);
    let same = tx.clone();
    let mut other = tx.clone();
    other.signature = Some(String::new());

    assert_eq!(tx, same);
    assert_ne!(tx, other);
}
