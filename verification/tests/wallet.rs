use ed25519_dalek::SigningKey;
use rustchain::chain::transaction::{derive_address, SignError, Transaction};
use rustchain::wallet::Wallet;

#[test]
fn test_create_wallet() {
    let wallet = Wallet::new();

    assert!(wallet.address.starts_with("0x"));
    assert_eq!(wallet.address.len(), 42);
    assert_eq!(wallet.public_key.len(), 64);
}

#[test]
fn test_from_private_key() {
    let wallet1 = Wallet::new();
    let wallet2 =
        Wallet::from_private_key(wallet1.private_key()).expect("a wallet's own key must import");

    assert_eq!(wallet1.address, wallet2.address);
    assert_eq!(wallet1.public_key, wallet2.public_key);
}

#[test]
fn importing_a_malformed_key_is_an_error_not_a_panic() {
    assert_eq!(
        Wallet::from_private_key("zz").unwrap_err(),
        SignError::InvalidHex("Invalid character 'z' at position 0".to_string())
    );
    assert_eq!(
        Wallet::from_private_key("abc").unwrap_err(),
        SignError::InvalidHex("Odd number of digits".to_string())
    );
    assert_eq!(
        Wallet::from_private_key("abcd").unwrap_err(),
        SignError::InvalidLength(2)
    );
}

#[test]
fn wallet_transaction_actually_verifies() {
    let wallet = Wallet::new();
    let tx = wallet
        .create_transaction("recipient_address", 100)
        .expect("a generated wallet key must sign");

    assert!(tx.verify(), "a wallet-signed transaction must verify");
}

#[test]
fn foreign_key_cannot_impersonate_a_sender() {
    let victim = Wallet::new();
    let attacker = Wallet::new();

    let mut tx = Transaction::new(victim.address.clone(), "bob".to_string(), 100);
    tx.sign(attacker.private_key())
        .expect("the attacker's key is well-formed");

    assert!(
        !tx.verify(),
        "a signature from a key that does not own the sender address must be refused"
    );
}

#[test]
fn mod_test_create_transaction() {
    let wallet = Wallet::new();
    let tx = wallet
        .create_transaction("recipient_address", 100)
        .expect("a generated wallet key must sign");

    assert_eq!(tx.sender, wallet.address);
    assert_eq!(tx.recipient, "recipient_address");
    assert_eq!(tx.amount, 100);
    assert!(tx.signature.is_some());
}

#[test]
fn test_wallet_serialization() {
    // Stored as its three texts and read back from them.
    let wallet = Wallet::new();
    let restored = Wallet::from_stored(
        wallet.address.clone(),
        wallet.private_key().to_string(),
        wallet.public_key.clone(),
    );

    assert_eq!(wallet.address, restored.address);
}

#[test]
fn debug_never_reveals_the_private_key() {
    let wallet = Wallet::new();
    let rendered = format!("{:?}", wallet);

    assert!(rendered.contains("<redacted>"));
    assert!(
        !rendered.contains(wallet.private_key()),
        "the private key must never appear in Debug output"
    );
}

#[test]
fn test_unique_wallets() {
    let wallet1 = Wallet::new();
    let wallet2 = Wallet::new();

    assert_ne!(wallet1.address, wallet2.address);
}

#[test]
fn an_imported_wallet_has_the_key_pair_of_its_secret() {

    let secret = [3u8; 32];
    let wallet = Wallet::from_private_key(&hex::encode(secret)).expect("32 bytes of hex import");
    let public_key = hex::encode(SigningKey::from_bytes(&secret).verifying_key().to_bytes());

    assert_eq!(wallet.public_key, public_key);
    assert_eq!(wallet.address, derive_address(&public_key));
    assert_eq!(wallet.get_address(), wallet.address);
    assert_eq!(Wallet::generate_address(&public_key), wallet.address);
    assert_eq!(wallet.private_key(), hex::encode(secret));
}

#[test]
fn signing_through_the_wallet_sets_the_signature_and_key() {
    let wallet = Wallet::from_private_key(&"11".repeat(32)).expect("32 bytes of hex import");
    let mut tx = Transaction::new(wallet.address.clone(), "bob".into(), 5);

    wallet.sign_transaction(&mut tx).expect("a valid key signs");

    assert_eq!(tx.public_key, Some(wallet.public_key.clone()));
    assert!(tx.verify());
}

#[test]
fn a_stored_wallet_with_a_malformed_key_cannot_sign() {
    let wallet = Wallet::from_stored("0xabc".into(), "nothex".into(), "pk".into());

    assert!(matches!(
        wallet.create_transaction("bob", 1),
        Err(SignError::InvalidHex(_))
    ));
}

#[test]
fn the_debug_text_shows_the_address_and_public_key_and_redacts_the_private_key() {
    let wallet = Wallet::new();
    let expected = format!(
        "Wallet {{ address: {:?}, private_key: \"<redacted>\", public_key: {:?} }}",
        wallet.address, wallet.public_key
    );

    assert_eq!(wallet.debug_text(), expected);
    assert_eq!(format!("{:?}", wallet), expected);
}
