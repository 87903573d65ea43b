use rustchain::chain::blockchain::{Blockchain, BlockchainError, MAX_DIFFICULTY, MIN_DIFFICULTY};
use rustchain::chain::block::Block;
use rustchain::chain::time::Timestamp;
use rustchain::wallet::Wallet;

#[test]
fn coins_are_only_minted_by_coinbase_transactions() {
    let mut bc = Blockchain::with_difficulty(1);
    let alice = Wallet::new();
    bc.mine_pending_transactions(&alice.address).expect("mines");
    let tx = alice.create_transaction("bob", 20).expect("signs");
    bc.add_transaction(tx).expect("alice holds 50");
    bc.mine_pending_transactions("miner").expect("mines");

    assert_eq!(bc.total_supply(), 1_000_000 + 2 * 50);
    assert_eq!(bc.get_balance(&alice.address), 30);
    assert_eq!(bc.get_balance("bob"), 20);
    assert_eq!(bc.get_balance("miner"), 50);
    assert_eq!(bc.total_transactions(), 4);
}

#[test]
fn the_mempool_never_promises_more_than_a_sender_holds() {
    let mut bc = Blockchain::with_difficulty(1);
    let alice = Wallet::new();
    bc.mine_pending_transactions(&alice.address).expect("mines");

    let first = alice.create_transaction("bob", 30).expect("signs");
    let second = alice.create_transaction("carol", 30).expect("signs");
    bc.add_transaction(first).expect("alice holds 50");

    assert!(matches!(
        bc.add_transaction(second),
        Err(BlockchainError::InsufficientBalance { has: 20, needs: 30 })
    ));
    assert_eq!(bc.pending_spent_checked(&alice.address), Some(30));
}

#[test]
fn every_required_difficulty_is_within_the_bounds() {
    for base in [0usize, 1, 5, 32, 33, usize::MAX] {
        let chain = vec![Block::genesis()];
        let d = Blockchain::required_difficulty(&chain, base);
        assert!((MIN_DIFFICULTY..=MAX_DIFFICULTY).contains(&d), "{}", base);
    }
}

#[test]
fn a_block_in_the_future_is_refused() {
    let mut bc = Blockchain::with_difficulty(1);
    let coinbase = rustchain::Transaction::coinbase("m".into(), 50);
    let tip = bc.chain[0].hash.clone();
    let mut block = Block::new(1, vec![coinbase], tip);
    block.timestamp = Timestamp::from_unix_seconds(1_000);
    block.mine(1);

    let refused = bc.clone().add_block_at(block.clone(), 1_000 - 7_201);
    let accepted = bc.add_block_at(block, 1_000 - 7_200);

    assert_eq!(
        match refused {
            Err(BlockchainError::InvalidBlock(m)) => m,
            _ => String::new(),
        },
        "Block timestamp too far in the future"
    );
    assert!(accepted.is_ok());
}

#[test]
fn validation_reports_the_first_block_that_does_not_fit() {
    let mut bc = Blockchain::with_difficulty(1);
    bc.mine_pending_transactions("m").expect("mines");
    bc.mine_pending_transactions("m").expect("mines");
    bc.chain[2].previous_hash = "elsewhere".to_string();

    assert_eq!(
        match bc.is_valid() {
            Err(BlockchainError::InvalidChain(m)) => m,
            _ => String::new(),
        },
        "Block 2: Previous hash mismatch"
    );
}

#[test]
fn a_wrong_index_is_reported_with_both_numbers() {
    let mut bc = Blockchain::with_difficulty(1);
    let tip = bc.chain[0].hash.clone();
    let block = Block::new(5, vec![], tip);

    assert_eq!(
        match bc.add_block(block) {
            Err(BlockchainError::InvalidBlock(m)) => m,
            _ => String::new(),
        },
        "Invalid index: expected 1, got 5"
    );
}

#[test]
fn a_block_needs_exactly_one_coinbase() {
    let mut bc = Blockchain::with_difficulty(1);
    let tip = bc.chain[0].hash.clone();
    let mut block = Block::new(1, vec![], tip);
    block.timestamp = Timestamp::from_unix_seconds(10);
    block.mine(1);

    assert_eq!(
        match bc.add_block(block) {
            Err(BlockchainError::InvalidBlock(m)) => m,
            _ => String::new(),
        },
        "Block must have exactly 1 coinbase transaction, has 0"
    );
}

#[test]
fn an_overpaid_coinbase_is_refused() {
    let mut bc = Blockchain::with_difficulty(1);
    let tip = bc.chain[0].hash.clone();
    let coinbase = rustchain::Transaction::coinbase("m".into(), 51);
    let mut block = Block::new(1, vec![coinbase], tip);
    block.timestamp = Timestamp::from_unix_seconds(10);
    block.mine(1);

    assert_eq!(
        match bc.add_block(block) {
            Err(BlockchainError::InvalidBlock(m)) => m,
            _ => String::new(),
        },
        "Coinbase reward exceeds allowed amount"
    );
}

#[test]
fn a_confirmed_transaction_id_cannot_be_pending_again() {
    let mut bc = Blockchain::with_difficulty(1);
    let alice = Wallet::new();
    bc.mine_pending_transactions(&alice.address).expect("mines");
    let tx = alice.create_transaction("bob", 1).expect("signs");
    bc.add_transaction(tx.clone()).expect("affordable");

    assert_eq!(
        match bc.add_transaction(tx.clone()) {
            Err(BlockchainError::InvalidTransaction(m)) => m,
            _ => String::new(),
        },
        format!("Transaction {} is already in the mempool", tx.id)
    );
    bc.mine_pending_transactions("m").expect("mines");
    assert_eq!(
        match bc.add_transaction(tx.clone()) {
            Err(BlockchainError::InvalidTransaction(m)) => m,
            _ => String::new(),
        },
        format!("Transaction {} is already confirmed in the chain", tx.id)
    );
}

#[test]
fn an_address_paid_twice_holds_one_balance() {
    let mut bc = Blockchain::with_difficulty(1);
    let alice = Wallet::new();
    bc.mine_pending_transactions(&alice.address).expect("mines");
    bc.add_transaction(alice.create_transaction("bob", 10).expect("signs"))
        .expect("alice holds 50");
    bc.add_transaction(alice.create_transaction("bob", 15).expect("signs"))
        .expect("alice holds 40 more");
    bc.mine_pending_transactions(&alice.address).expect("mines");

    assert_eq!(bc.get_balance("bob"), 25);
    assert_eq!(bc.get_balance(&alice.address), 75);
    assert_eq!(bc.total_supply(), 1_000_000 + 2 * 50);
}

#[test]
fn the_supply_is_the_genesis_allocation_plus_one_reward_per_mined_block() {
    let mut bc = Blockchain::with_difficulty(1);
    let alice = Wallet::new();
    for _ in 0..3 {
        bc.mine_pending_transactions(&alice.address).expect("mines");
    }
    bc.add_transaction(alice.create_transaction("bob", 70).expect("signs"))
        .expect("alice holds 150");
    bc.mine_pending_transactions("miner").expect("mines");

    assert_eq!(bc.total_supply(), 1_000_000 + 4 * bc.mining_reward);
}

#[test]
fn at_one_difficulty_the_longer_chain_carries_more_work() {
    let mut longer = Blockchain::with_difficulty(1);
    let mut shorter = Blockchain::with_difficulty(1);
    longer.mine_pending_transactions("a").expect("mines");
    longer.mine_pending_transactions("a").expect("mines");
    shorter.mine_pending_transactions("b").expect("mines");

    assert!(Blockchain::total_work(&longer.chain) > Blockchain::total_work(&shorter.chain));
}
