use rustchain::chain::block::Block;
use rustchain::chain::blockchain::{
    Blockchain, BlockchainError, MINING_REWARD, MIN_DIFFICULTY, RETARGET_INTERVAL,
    TARGET_BLOCK_TIME_SECS,
};
use rustchain::chain::time::Timestamp;
use rustchain::chain::transaction::{SignError, Transaction};
use rustchain::wallet::Wallet;

const TEST_DIFFICULTY: usize = 2;

fn create_test_blockchain() -> Blockchain {
    Blockchain::with_difficulty(TEST_DIFFICULTY)
}

/// Hash of the chain tip, failing the test if the chain is empty.
fn tip_hash(bc: &Blockchain) -> String {
    bc.latest_block().expect("the chain has a tip").hash.clone()
}

/// Mine a block, failing the test if it is not accepted.
fn mine(bc: &mut Blockchain, miner_address: &str) -> Block {
    bc.mine_pending_transactions(miner_address)
        .expect("a freshly mined block must be acceptable")
}

/// Mine a block onto the tip without going through `add_block`.
fn mined_block_on_tip(bc: &Blockchain, transactions: Vec<Transaction>) -> Block {
    let mut block = Block::new(bc.len() as u64, transactions, tip_hash(bc));
    block.mine(bc.next_difficulty());
    block
}

/// A chain of `blocks` blocks on top of genesis, spaced `spacing` seconds apart
/// and all claiming `difficulty`.
fn timed_chain(blocks: u64, spacing: i64, difficulty: usize) -> Vec<Block> {
    let mut chain = vec![Block::genesis()];

    for index in 1..=blocks {
        let mut block = Block::new(index, Vec::new(), "prev".to_string());
        block.difficulty = difficulty;
        block.timestamp = Timestamp::from_unix_seconds(index as i64 * spacing);
        chain.push(block);
    }

    chain
}

/// The difficulty demanded of the block that closes the first retarget window.
fn difficulty_after_first_window(spacing: i64, difficulty: usize) -> usize {
    let chain = timed_chain(RETARGET_INTERVAL - 1, spacing, difficulty);
    assert_eq!(chain.len() as u64, RETARGET_INTERVAL);
    Blockchain::required_difficulty(&chain, difficulty)
}

/// A blockchain of `blocks` real mined blocks on top of genesis, each
/// timestamped `spacing` seconds after the last.
fn timed_mined_bc(base_difficulty: usize, blocks: u64, spacing: i64) -> Blockchain {
    let mut bc = Blockchain::with_difficulty(base_difficulty);
    for i in 1..=blocks {
        let coinbase = Transaction::coinbase("miner".to_string(), bc.mining_reward);
        let previous_hash = tip_hash(&bc);
        let mut block = Block::new(bc.len() as u64, vec![coinbase], previous_hash);
        block.timestamp = Timestamp::from_unix_seconds(i as i64 * spacing);
        block.mine(bc.next_difficulty());
        bc.add_block(block)
            .expect("a paced block at the demanded difficulty is acceptable");
    }
    bc
}

/// What reloading a chain from storage gives: the stored chain, mempool and
/// reward, validated and re-indexed.
fn reload(bc: &Blockchain) -> Result<Blockchain, BlockchainError> {
    Blockchain::from_parts(
        bc.chain.clone(),
        bc.pending_transactions.clone(),
        bc.mining_reward,
    )
}

#[test]
fn test_new_blockchain() {
    let bc = create_test_blockchain();

    assert_eq!(bc.len(), 1);
    assert!(bc.is_valid().is_ok());
}

#[test]
fn test_genesis_balance() {
    let bc = create_test_blockchain();

    assert_eq!(bc.get_balance("genesis_address"), 1_000_000);
}

#[test]
fn test_add_transaction() {
    let mut bc = create_test_blockchain();

    let mut tx = Transaction::new("genesis_address".to_string(), "bob".to_string(), 100);
    assert_eq!(
        tx.sign("genesis_private_key"),
        Err(SignError::InvalidHex("Odd number of digits".to_string()))
    );
    assert!(
        tx.signature.is_none(),
        "a failed signing must not mutate the transaction"
    );

    assert!(bc.add_transaction(tx).is_err());
}

#[test]
fn test_insufficient_balance() {
    let mut bc = create_test_blockchain();

    let mut tx = Transaction::new("empty_address".to_string(), "bob".to_string(), 100);
    tx.signature = Some("dummy".to_string());

    let result = bc.add_transaction(tx);
    assert!(result.is_err());
}

#[test]
fn blockchain_test_mine_block() {
    let mut bc = create_test_blockchain();

    let block = mine(&mut bc, "miner");

    assert_eq!(bc.len(), 2);
    assert!(block.hash.starts_with("00"));
    assert!(bc.is_valid().is_ok());
}

#[test]
fn test_balance_after_mining() {
    let mut bc = create_test_blockchain();

    mine(&mut bc, "miner");

    assert_eq!(bc.get_balance("miner"), MINING_REWARD);
}

#[test]
fn test_chain_validation() {
    let mut bc = create_test_blockchain();

    mine(&mut bc, "miner");
    mine(&mut bc, "miner");

    assert!(bc.is_valid().is_ok());
}

#[test]
fn test_tamper_detection() {
    let mut bc = create_test_blockchain();
    mine(&mut bc, "miner");

    bc.chain[1].transactions[0].amount = 999999;

    assert!(bc.is_valid().is_err());
}

#[test]
fn test_json_serialization() {
    let bc = create_test_blockchain();

    let restored = reload(&bc).unwrap();

    assert_eq!(bc.len(), restored.len());
    assert_eq!(tip_hash(&bc), tip_hash(&restored));
}

#[test]
fn test_coinbase_rejected_from_mempool() {
    let mut bc = create_test_blockchain();
    let coinbase = Transaction::coinbase("attacker".to_string(), 1_000_000);
    let result = bc.add_transaction(coinbase);
    assert!(result.is_err());
}

#[test]
fn block_repeating_a_payment_is_rejected() {
    let mut bc = create_test_blockchain();
    let alice = Wallet::new();
    mine(&mut bc, &alice.address);

    let filler = alice
        .create_transaction("filler", 1)
        .expect("a generated wallet key must sign");
    let payment = alice
        .create_transaction("bob", 40)
        .expect("a generated wallet key must sign");
    let coinbase = Transaction::coinbase("miner".to_string(), bc.mining_reward);

    let honest = mined_block_on_tip(&bc, vec![coinbase.clone(), filler.clone(), payment.clone()]);
    let doubled = mined_block_on_tip(&bc, vec![coinbase, filler, payment.clone(), payment]);

    assert_ne!(
        honest.merkle_root, doubled.merkle_root,
        "duplicating the last transaction must change the Merkle root"
    );
    assert!(
        bc.add_block(doubled).is_err(),
        "a block repeating a transaction must be rejected"
    );
}

#[test]
fn block_spending_coins_that_do_not_exist_is_rejected() {
    let mut bc = create_test_blockchain();
    let pauper = Wallet::new();

    let tx = pauper
        .create_transaction("recipient", 1_000_000)
        .expect("a generated wallet key must sign");
    assert!(
        bc.add_transaction(tx.clone()).is_err(),
        "the mempool refuses it"
    );

    let coinbase = Transaction::coinbase("miner".to_string(), bc.mining_reward);
    let block = mined_block_on_tip(&bc, vec![coinbase, tx]);

    assert!(matches!(
        bc.add_block(block),
        Err(BlockchainError::InsufficientBalance { .. })
    ));
    assert_eq!(bc.get_balance("recipient"), 0);
    assert_eq!(bc.len(), 1);
}

#[test]
fn is_valid_rejects_a_chain_without_proof_of_work() {
    let mut bc = create_test_blockchain();

    let coinbase = Transaction::coinbase("attacker".to_string(), bc.mining_reward);
    let unmined = Block::new(1, vec![coinbase], tip_hash(&bc));
    assert!(
        !unmined.hash.starts_with("00"),
        "this fixture is only meaningful for an unmined block"
    );

    bc.chain.push(unmined);

    assert!(bc.is_valid().is_err());
}

#[test]
fn is_valid_rejects_a_chain_that_spends_coins_from_nowhere() {
    let mut bc = create_test_blockchain();
    let pauper = Wallet::new();

    let tx = pauper
        .create_transaction("recipient", 1_000_000)
        .expect("a generated wallet key must sign");
    let coinbase = Transaction::coinbase("miner".to_string(), bc.mining_reward);
    let block = mined_block_on_tip(&bc, vec![coinbase, tx]);
    bc.chain.push(block);

    assert!(bc.is_valid().is_err());
}

#[test]
fn promoting_a_payment_to_a_coinbase_is_detected() {
    let mut bc = create_test_blockchain();
    let alice = Wallet::new();
    mine(&mut bc, &alice.address);

    let tx = alice
        .create_transaction("bob", 10)
        .expect("a generated wallet key must sign");
    bc.add_transaction(tx).expect("alice can afford 10 coins");
    mine(&mut bc, &alice.address);

    bc.chain[2].transactions[1].is_coinbase_tx = true;
    bc.chain[2].transactions[1].public_key = None;

    assert!(bc.is_valid().is_err());
}

#[test]
fn a_signature_cannot_be_replayed() {
    let mut bc = create_test_blockchain();
    let alice = Wallet::new();
    mine(&mut bc, &alice.address);

    let tx = alice
        .create_transaction("bob", 10)
        .expect("a generated wallet key must sign");

    bc.add_transaction(tx.clone())
        .expect("the first submission is valid");
    mine(&mut bc, "miner");
    assert_eq!(bc.get_balance("bob"), 10);

    assert!(
        bc.add_transaction(tx.clone()).is_err(),
        "the mempool refuses a replay"
    );

    let coinbase = Transaction::coinbase("miner".to_string(), bc.mining_reward);
    let replay_block = mined_block_on_tip(&bc, vec![coinbase, tx]);
    assert!(
        bc.add_block(replay_block).is_err(),
        "a block replaying it is refused"
    );
    assert_eq!(bc.get_balance("bob"), 10);
}

#[test]
fn mempool_survives_persistence() {
    let mut bc = Blockchain::new();
    let alice = Wallet::new();
    mine(&mut bc, &alice.address);

    let tx = alice
        .create_transaction("bob", 10)
        .expect("a generated wallet key must sign");
    bc.add_transaction(tx.clone())
        .expect("alice can afford 10 coins");

    let restored = reload(&bc).unwrap();

    assert_eq!(restored.pending_transactions.len(), 1);
    assert_eq!(restored.pending_transactions[0].id, tx.id);
}

#[test]
fn a_default_difficulty_chain_round_trips_through_the_file() {
    let mut bc = Blockchain::new();
    let alice = Wallet::new();
    mine(&mut bc, &alice.address);
    let tx = alice
        .create_transaction("bob", 10)
        .expect("a generated wallet key must sign");
    bc.add_transaction(tx).expect("alice can afford 10 coins");
    mine(&mut bc, "miner");

    let reloaded = reload(&bc).unwrap();

    assert_eq!(reloaded.len(), bc.len());
    assert_eq!(tip_hash(&reloaded), tip_hash(&bc));
    assert_eq!(reloaded.get_balance("bob"), 10);
    assert_eq!(reloaded.total_supply(), bc.total_supply());
    assert!(reloaded.is_valid().is_ok());
}

#[test]
fn from_json_recomputes_balances_from_the_chain() {
    // Stored balances are never read: the ledger comes from replaying the
    // chain, whatever the storage claimed.
    let bc = create_test_blockchain();

    let restored = reload(&bc).unwrap();

    assert_eq!(restored.get_balance("attacker"), 0);
    assert_eq!(restored.get_balance("genesis_address"), 1_000_000);
}

#[test]
fn from_json_rejects_an_invalid_chain() {
    let mut bc = create_test_blockchain();
    mine(&mut bc, "miner");

    bc.chain[1].transactions[0].amount = 999_999;

    assert!(reload(&bc).is_err());
}

#[test]
fn replace_chain_rejects_a_foreign_genesis() {
    let mut bc = create_test_blockchain();
    let our_genesis = bc.chain[0].hash.clone();

    let mut foreign_genesis = Block::genesis();
    foreign_genesis.transactions[0].recipient = "attacker".to_string();
    foreign_genesis.hash = foreign_genesis.calculate_hash();
    let filler = Block::new(1, vec![], foreign_genesis.hash.clone());
    let foreign_chain = vec![
        foreign_genesis,
        filler.clone(),
        Block::new(2, vec![], filler.hash.clone()),
    ];

    assert!(bc.replace_chain(foreign_chain).is_err());
    assert_eq!(bc.chain[0].hash, our_genesis);
    assert_eq!(bc.get_balance("attacker"), 0);
}

#[test]
fn a_failed_mine_keeps_the_mempool() {
    let mut bc = create_test_blockchain();
    let pauper = Wallet::new();

    let tx = pauper
        .create_transaction("recipient", 1_000_000)
        .expect("a generated wallet key must sign");
    bc.pending_transactions.push(tx);

    assert!(bc.mine_pending_transactions("miner").is_err());
    assert_eq!(bc.pending_transactions.len(), 1, "the mempool must survive");
    assert_eq!(bc.len(), 1);
}

#[test]
fn genesis_indexes_without_error() {
    let genesis = Block::genesis();
    assert!(Blockchain::index_chain(std::slice::from_ref(&genesis)).is_ok());
}

#[test]
fn an_empty_chain_errors_instead_of_panicking() {
    let mut bc = create_test_blockchain();
    bc.chain.clear();

    assert!(bc.latest_block().is_none());
    assert!(matches!(bc.is_valid(), Err(BlockchainError::EmptyChain)));
    assert!(matches!(
        bc.mine_pending_transactions("miner"),
        Err(BlockchainError::EmptyChain)
    ));
    assert!(matches!(
        bc.add_block(Block::genesis()),
        Err(BlockchainError::EmptyChain)
    ));
}

#[test]
fn difficulty_is_inherited_between_retargets() {
    let chain = timed_chain(RETARGET_INTERVAL - 2, 1, 7);

    assert!(!(chain.len() as u64).is_multiple_of(RETARGET_INTERVAL));
    assert_eq!(Blockchain::required_difficulty(&chain, TEST_DIFFICULTY), 7);
}

#[test]
fn difficulty_rises_when_blocks_come_too_fast() {
    let spacing = TARGET_BLOCK_TIME_SECS / 10;

    assert_eq!(
        difficulty_after_first_window(spacing, TEST_DIFFICULTY),
        TEST_DIFFICULTY + 1
    );
}

#[test]
fn difficulty_falls_when_blocks_come_too_slow() {
    let spacing = TARGET_BLOCK_TIME_SECS * 10;

    assert_eq!(
        difficulty_after_first_window(spacing, TEST_DIFFICULTY),
        TEST_DIFFICULTY - 1
    );
}

#[test]
fn difficulty_holds_when_blocks_arrive_on_target() {
    let chain = timed_chain(
        RETARGET_INTERVAL * 2 - 1,
        TARGET_BLOCK_TIME_SECS,
        TEST_DIFFICULTY,
    );

    assert_eq!(chain.len() as u64, RETARGET_INTERVAL * 2);
    assert_eq!(
        Blockchain::required_difficulty(&chain, TEST_DIFFICULTY),
        TEST_DIFFICULTY
    );
}

#[test]
fn a_retarget_moves_the_difficulty_by_at_most_one_step() {
    assert_eq!(
        difficulty_after_first_window(0, TEST_DIFFICULTY),
        TEST_DIFFICULTY + 1
    );
    assert_eq!(
        difficulty_after_first_window(TARGET_BLOCK_TIME_SECS * 1_000, TEST_DIFFICULTY),
        TEST_DIFFICULTY - 1
    );
}

#[test]
fn difficulty_never_falls_below_the_floor() {
    let spacing = TARGET_BLOCK_TIME_SECS * 1_000;

    assert_eq!(
        difficulty_after_first_window(spacing, MIN_DIFFICULTY),
        MIN_DIFFICULTY
    );
}

#[test]
fn mining_retargets_at_the_interval_boundary() {
    let mut bc = Blockchain::with_difficulty(MIN_DIFFICULTY);

    for _ in 1..RETARGET_INTERVAL {
        mine(&mut bc, "miner");
    }
    assert!(
        bc.chain[1..].iter().all(|b| b.difficulty == MIN_DIFFICULTY),
        "no retarget before the interval closes"
    );

    let retargeted = mine(&mut bc, "miner");

    assert_eq!(retargeted.index, RETARGET_INTERVAL);
    assert_eq!(retargeted.difficulty, MIN_DIFFICULTY + 1);
    assert!(bc.is_valid().is_ok());
}

#[test]
fn a_block_claiming_the_wrong_difficulty_is_rejected() {
    let mut bc = create_test_blockchain();
    assert_eq!(bc.next_difficulty(), TEST_DIFFICULTY);

    fn mined_at(bc: &Blockchain, difficulty: usize) -> Block {
        let coinbase = Transaction::coinbase("miner".to_string(), bc.mining_reward);
        let mut block = Block::new(1, vec![coinbase], tip_hash(bc));
        block.mine(difficulty);
        block
    }

    let cheap = mined_at(&bc, TEST_DIFFICULTY - 1);
    assert!(
        bc.add_block(cheap).is_err(),
        "a block claiming less work than the rules demand is refused"
    );

    let overclaimed = mined_at(&bc, TEST_DIFFICULTY + 1);
    assert!(
        bc.add_block(overclaimed).is_err(),
        "so is one claiming a difficulty the rules never set"
    );

    assert_eq!(bc.len(), 1);
}

#[test]
fn is_valid_rejects_a_chain_that_dodges_a_retarget() {
    let mut bc = Blockchain::with_difficulty(MIN_DIFFICULTY);
    for _ in 1..=RETARGET_INTERVAL {
        mine(&mut bc, "miner");
    }

    let boundary = RETARGET_INTERVAL as usize;
    assert_eq!(bc.chain[boundary].difficulty, MIN_DIFFICULTY + 1);

    bc.chain[boundary].mine(MIN_DIFFICULTY);
    assert!(bc.chain[boundary].verify_hash(Some(MIN_DIFFICULTY)));

    assert!(bc.is_valid().is_err());
}

#[test]
fn a_longer_but_lighter_chain_is_rejected() {
    let mut honest = Blockchain::with_difficulty(MIN_DIFFICULTY);
    for _ in 0..RETARGET_INTERVAL {
        mine(&mut honest, "honest-miner");
    }
    assert_eq!(
        honest.chain[RETARGET_INTERVAL as usize].difficulty,
        MIN_DIFFICULTY + 1
    );

    let attacker = timed_mined_bc(
        MIN_DIFFICULTY,
        RETARGET_INTERVAL + 3,
        TARGET_BLOCK_TIME_SECS,
    );
    assert!(
        attacker.chain[1..]
            .iter()
            .all(|b| b.difficulty == MIN_DIFFICULTY),
        "the attack chain never leaves the difficulty floor"
    );

    assert!(attacker.len() > honest.len());
    assert!(attacker.is_valid().is_ok());
    assert!(Blockchain::total_work(&attacker.chain) < Blockchain::total_work(&honest.chain));

    assert!(
        matches!(
            honest.replace_chain(attacker.chain.clone()),
            Err(BlockchainError::InvalidChain(_))
        ),
        "a longer chain carrying less work must be refused"
    );
    assert_eq!(honest.len(), RETARGET_INTERVAL as usize + 1);
}

#[test]
fn a_block_with_a_stale_timestamp_is_rejected() {
    let mut bc = timed_mined_bc(TEST_DIFFICULTY, 5, 10_000);

    let mined_at = |bc: &Blockchain, seconds: i64| {
        let coinbase = Transaction::coinbase("miner".to_string(), bc.mining_reward);
        let mut block = Block::new(bc.len() as u64, vec![coinbase], tip_hash(bc));
        block.timestamp = Timestamp::from_unix_seconds(seconds);
        block.mine(bc.next_difficulty());
        block
    };

    assert!(bc.clone().add_block(mined_at(&bc, 60_000)).is_ok());

    assert!(matches!(
        bc.add_block(mined_at(&bc, 25_000)),
        Err(BlockchainError::InvalidBlock(_))
    ));
}

#[test]
fn from_json_anchors_the_base_difficulty_to_the_network_constant() {
    let mut bc = Blockchain::with_difficulty(MIN_DIFFICULTY);
    mine(&mut bc, "miner");
    assert_eq!(bc.chain[1].difficulty, MIN_DIFFICULTY);
    assert!(bc.is_valid().is_ok());

    assert!(
        reload(&bc).is_err(),
        "a below-default base difficulty must not survive a round trip through storage"
    );
}

#[test]
fn replace_chain_on_an_empty_chain_errors_instead_of_panicking() {
    let mut bc = create_test_blockchain();
    let candidate = bc.chain.clone();
    bc.chain.clear();

    assert!(matches!(
        bc.replace_chain(candidate),
        Err(BlockchainError::EmptyChain)
    ));
}

#[test]
fn a_mined_block_carries_the_clock_reading() {
    let mut bc = create_test_blockchain();
    let stamp = Timestamp { secs: 1_000_000_000, nanos: 250 };

    let block = bc
        .mine_pending_transactions_at("miner", stamp, 1_000_000_000)
        .expect("a block stamped by the clock is acceptable");

    assert_eq!(block.timestamp, stamp);
    assert_eq!(bc.len(), 2);
}

#[test]
fn a_clock_reading_before_the_tip_is_raised_to_one_second_after_it() {
    let mut bc = create_test_blockchain();
    let genesis = bc.latest_block().expect("genesis").timestamp;
    let stamp = Timestamp { secs: genesis.secs, nanos: 5 };

    let block = bc
        .mine_pending_transactions_at("miner", stamp, 1_000_000_000)
        .expect("a block one second after the tip is acceptable");

    assert_eq!(block.timestamp, Timestamp { secs: genesis.secs + 1, nanos: genesis.nanos });
}

#[test]
fn a_block_made_at_an_instant_carries_it() {
    let stamp = Timestamp { secs: 42, nanos: 7 };
    let block = Block::new_at(3, vec![], "prev".to_string(), stamp);

    assert_eq!(block.timestamp, stamp);
    assert_eq!(block.hash, block.calculate_hash());
}

#[test]
fn an_admissible_transaction_does_not_overflow_the_pending_sum() {
    let mut bc = create_test_blockchain();
    let alice = Wallet::new();
    mine(&mut bc, &alice.address);
    let tx = alice.create_transaction("bob", 10).expect("signs");

    assert!(!bc.admission_would_overflow(&tx));
    bc.add_transaction(tx).expect("alice can afford 10 coins");
}

#[test]
fn the_transaction_count_of_a_fresh_chain_fits() {
    let mut bc = create_test_blockchain();
    mine(&mut bc, "miner");

    assert!(bc.transaction_count_fits());
    assert_eq!(bc.total_transactions(), 2);
}
