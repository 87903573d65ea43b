use ed25519_dalek::SigningKey;
use rand::rngs::OsRng;
use rustchain::chain::block::Block;
use rustchain::chain::time::Timestamp;
use rustchain::chain::transaction::{derive_address, Transaction};

#[test]
fn test_genesis_block() {
    let genesis = Block::genesis();

    assert_eq!(genesis.index, 0);
    assert_eq!(genesis.previous_hash, "0".repeat(64));
    assert_eq!(genesis.transaction_count(), 1);
    assert!(genesis.transactions[0].is_coinbase());
}

#[test]
fn genesis_block_is_deterministic() {
    assert_eq!(Block::genesis().hash, Block::genesis().hash);
}

#[test]
fn test_create_block() {
    let tx = Transaction::new("alice".into(), "bob".into(), 100);
    let block = Block::new(1, vec![tx], "previous_hash".to_string());

    assert_eq!(block.index, 1);
    assert_eq!(block.previous_hash, "previous_hash");
    assert_eq!(block.transaction_count(), 1);
    assert!(!block.hash.is_empty());
}

#[test]
fn test_calculate_hash() {
    let tx = Transaction::new("alice".into(), "bob".into(), 100);
    let block = Block::new(1, vec![tx], "prev".to_string());

    let hash = block.calculate_hash();
    assert_eq!(hash.len(), 64);
    assert_eq!(hash, block.hash);
}

#[test]
fn block_test_mine_block() {
    let tx = Transaction::new("alice".into(), "bob".into(), 100);
    let mut block = Block::new(1, vec![tx], "prev".to_string());

    let iterations = block.mine(2);

    assert!(block.hash.starts_with("00"));
    assert!(iterations > 0);
}

#[test]
fn mining_records_the_difficulty_it_used() {
    let mut block = Block::new(1, vec![], "prev".to_string());
    assert_eq!(block.difficulty, 0, "an unmined block claims no work");

    block.mine(2);

    assert_eq!(block.difficulty, 2);
}

#[test]
fn the_claimed_difficulty_is_committed_to_the_hash() {
    let mut block = Block::new(1, vec![], "prev".to_string());
    block.mine(2);
    assert!(block.verify_hash(Some(2)));

    block.difficulty = 5;

    assert!(
        !block.verify_hash(None),
        "relabelling the difficulty must break the block hash"
    );
}

#[test]
fn test_verify_hash() {
    let tx = Transaction::new("alice".into(), "bob".into(), 100);
    let mut block = Block::new(1, vec![tx], "prev".to_string());
    block.mine(2);

    assert!(block.verify_hash(Some(2)));
    assert!(block.verify_hash(None));
}

#[test]
fn test_verify_transactions() {

    let signing_key = SigningKey::generate(&mut OsRng);
    let public_key = hex::encode(signing_key.verifying_key().to_bytes());
    let mut tx = Transaction::new(derive_address(&public_key), "bob".into(), 100);
    tx.sign(&hex::encode(signing_key.to_bytes()))
        .expect("a freshly generated key must sign");
    let block = Block::new(1, vec![tx], "prev".to_string());

    assert!(block.verify_transactions());
}

#[test]
fn test_total_value() {
    let coinbase = Transaction::coinbase("miner".into(), 50);
    let tx1 = Transaction::new("a".into(), "b".into(), 100);
    let tx2 = Transaction::new("c".into(), "d".into(), 200);

    let block = Block::new(1, vec![coinbase, tx1, tx2], "prev".to_string());

    assert_eq!(block.total_value(), 300);
    assert_eq!(block.mining_reward(), 50);
}

#[test]
fn total_value_saturates_instead_of_overflowing() {
    let half = u64::MAX / 2 + 1;
    let block = Block::new(
        1,
        vec![
            Transaction::new("a".into(), "b".into(), half),
            Transaction::new("c".into(), "d".into(), half),
        ],
        "prev".to_string(),
    );

    assert_eq!(block.total_value(), u64::MAX);
}

#[test]
fn the_genesis_block_is_stamped_at_the_epoch_with_one_coinbase() {
    let genesis = Block::genesis();

    assert_eq!(genesis.timestamp, Timestamp::unix_epoch());
    assert_eq!(genesis.difficulty, 0);
    assert_eq!(genesis.nonce, 0);
    assert_eq!(genesis.transactions[0].recipient, "genesis_address");
    assert_eq!(genesis.transactions[0].amount, 1_000_000);
    assert_eq!(genesis.mining_reward(), 1_000_000);
    assert!(genesis.verify_hash(None));
    assert!(genesis.verify_transactions());
}

#[test]
fn the_block_hash_is_the_sha256_of_the_canonical_header() {
    let mut block = Block::new(7, vec![], "prev".to_string());
    block.timestamp = Timestamp { secs: 1, nanos: 5 };
    block.merkle_root = "root".to_string();
    block.difficulty = 3;
    block.nonce = 42;

    // Under the header domain: index, timestamp (seconds, then nanoseconds),
    // Merkle root, previous hash, difficulty and nonce, each length-prefixed.
    assert_eq!(
        block.calculate_hash(),
        "08ef2b858febd19affeaad8e776cdc3b904c008d04d679bf7ad0d01b256ee890"
    );
}

#[test]
fn difficulty_and_nonce_cannot_trade_digits() {
    let mut one = Block::new(7, vec![], "prev".to_string());
    one.difficulty = 1;
    one.nonce = 23;
    let mut other = one.clone();
    other.difficulty = 12;
    other.nonce = 3;

    assert_ne!(one.calculate_hash(), other.calculate_hash());
}

#[test]
fn a_block_without_a_coinbase_rewards_nothing() {
    let block = Block::new(1, vec![Transaction::new("a".into(), "b".into(), 5)], "p".into());

    assert_eq!(block.mining_reward(), 0);
    assert_eq!(block.total_value(), 5);
}

#[test]
fn a_tampered_merkle_root_fails_transaction_verification() {
    let mut block = Block::new(1, vec![Transaction::coinbase("m".into(), 1)], "p".into());
    assert!(block.verify_transactions());

    block.merkle_root = "tampered".to_string();

    assert!(!block.verify_transactions());
}

#[test]
fn a_new_block_is_stamped_with_the_current_time() {
    let before = chrono::Utc::now().timestamp();
    let block = Block::new(1, vec![], "prev".to_string());
    let after = chrono::Utc::now().timestamp();

    assert!(before <= block.timestamp.secs && block.timestamp.secs <= after);
    assert!(block.timestamp.nanos < 1_000_000_000);
}
