//! Blockchain module - the chain of blocks with validation logic
//!
//! The blockchain maintains:
//! - The chain of blocks from genesis to tip
//! - Validation rules for new blocks
//! - An account-balance ledger: one balance per address, derived from the chain
//! - Mempool for pending transactions
//!
//! The ledger is an account model, not a UTXO set. A transaction moves an amount
//! from one address to another and the two balances are updated in place; there
//! are no outputs to spend, so there is nothing for a later transaction to point
//! at. Replay is prevented by the confirmed-transaction-id index rather than by
//! an output being consumed.
use vstd::prelude::*;

use vstd::relations::{sorted_by, total_ordering};
use vstd::string::*;

use crate::chain::block::{
    first_coinbase_amount, header_preimage, is_genesis_block, lemma_genesis_is_deterministic,
    same_block, spec_block_hash, spec_hash_valid, spec_transactions_valid, tx_hashes, with_work,
    Block,
};
use crate::chain::merkle::merkle_root;
use crate::chain::ledger::{
    apply_tx, apply_txs, balance_of, empty_ledger, index_blocks, lemma_block_mints_only_its_coinbase,
    minted, total_balance, tx_ids, LedgerView, Ledger,
};
use crate::chain::time::Timestamp;
use crate::chain::transaction::Transaction;
use crate::chain::transaction::spec_tx_verifies;
use crate::text::{decimal_digits, has_leading_zeros, same_text, u128_decimal, u64_decimal};

verus! {

/// Starting mining difficulty (number of leading zeros required)
pub const DEFAULT_DIFFICULTY: usize = 4;

/// How long a block is meant to take, in seconds
pub const TARGET_BLOCK_TIME_SECS: i64 = 60;

/// Number of blocks between difficulty retargets
pub const RETARGET_INTERVAL: u64 = 10;

/// Difficulty floor. At zero a block needs no proof-of-work at all, so the
/// chain would be free to rewrite.
pub const MIN_DIFFICULTY: usize = 1;

/// Difficulty ceiling. A hex hash has 64 digits, and long before that a chain
/// is unmineable; the cap keeps a runaway retarget from bricking the node.
pub const MAX_DIFFICULTY: usize = 32;

/// How far the observed timespan may miss the target before the difficulty
/// moves: twice too fast raises it, twice too slow lowers it.
pub const RETARGET_TOLERANCE: i64 = 2;

/// How many preceding blocks the median-time-past rule looks back over.
pub const MEDIAN_TIME_SPAN: usize = 11;

/// How far past our own clock a block's timestamp may run, in seconds.
pub const MAX_FUTURE_DRIFT_SECS: i64 = 7200;

/// Mining reward
pub const MINING_REWARD: u64 = 50;

/// The genesis difficulty a chain loaded from storage is anchored to.
pub fn genesis_difficulty() -> (d: usize)
    ensures
        d == DEFAULT_DIFFICULTY,
{
    DEFAULT_DIFFICULTY
}

/// Stored chain data that could not be parsed.
#[verifier::external_type_specification]
#[verifier::external_body]
pub struct ExJsonError(serde_json::Error);

/// Blockchain errors
#[derive(Debug)]
pub enum BlockchainError {
    /// A block was refused: it broke one of the rules block acceptance
    /// enforces.
    InvalidBlock(String),
    /// A transaction was refused, by the mempool or by block application.
    InvalidTransaction(String),
    /// A sender cannot cover a spend.
    InsufficientBalance {
        /// What the sender holds.
        has: u64,
        /// What the transaction would spend.
        needs: u64,
    },
    /// A whole chain was refused, by validation or by chain replacement.
    InvalidChain(String),
    /// No block with the requested index or hash is in the chain.
    BlockNotFound(String),
    /// No chain to build on.
    EmptyChain,
    /// Stored chain data could not be parsed as a blockchain.
    Malformed(serde_json::Error),
}

/// A blockchain error as a value: its kind and its message.
pub enum ChainFault {
    /// A refused block, with the rule it broke.
    InvalidBlock(Seq<char>),
    /// A refused transaction, with the reason.
    InvalidTransaction(Seq<char>),
    /// A sender that holds `has` and would spend `needs`.
    InsufficientBalance { has: u64, needs: u64 },
    /// A refused chain, with the reason.
    InvalidChain(Seq<char>),
    /// A block that is not in the chain.
    BlockNotFound(Seq<char>),
    /// A chain with no blocks.
    EmptyChain,
    /// Stored data that did not parse.
    Malformed,
}

impl View for BlockchainError {
    type V = ChainFault;

    open spec fn view(&self) -> ChainFault {
        match self {
            BlockchainError::InvalidBlock(m) => ChainFault::InvalidBlock(m@),
            BlockchainError::InvalidTransaction(m) => ChainFault::InvalidTransaction(m@),
            BlockchainError::InsufficientBalance { has, needs } => ChainFault::InsufficientBalance {
                has: *has,
                needs: *needs,
            },
            BlockchainError::InvalidChain(m) => ChainFault::InvalidChain(m@),
            BlockchainError::BlockNotFound(m) => ChainFault::BlockNotFound(m@),
            BlockchainError::EmptyChain => ChainFault::EmptyChain,
            BlockchainError::Malformed(_) => ChainFault::Malformed,
        }
    }
}

/// `d` held inside `MIN_DIFFICULTY..=MAX_DIFFICULTY`.
pub open spec fn clamp_difficulty(d: int) -> usize {
    if d < MIN_DIFFICULTY {
        MIN_DIFFICULTY
    } else if d > MAX_DIFFICULTY {
        MAX_DIFFICULTY
    } else {
        d as usize
    }
}

/// Where the retarget window of a block at `height` starts: the block
/// `RETARGET_INTERVAL` back, but never the genesis block.
pub open spec fn window_start(height: int) -> int {
    if height - RETARGET_INTERVAL >= 1 {
        height - RETARGET_INTERVAL
    } else {
        1
    }
}

/// Whole seconds from `from` to `to`, truncated toward zero, and zero when
/// `to` is not after `from`.
pub open spec fn elapsed_seconds(from: Timestamp, to: Timestamp) -> int {
    let nanos = (to.secs - from.secs) * 1_000_000_000 + (to.nanos - from.nanos);
    if nanos < 0 {
        0
    } else {
        nanos / 1_000_000_000
    }
}

/// The difficulty a block extending `chain` must claim.
///
/// The first mined block (and a block on an empty chain) takes the base
/// difficulty. Off a retarget boundary a block inherits its parent's
/// difficulty. At a boundary the span of the window that just closed is
/// compared with `TARGET_BLOCK_TIME_SECS` per interval: more than twice too
/// fast raises the difficulty one step, more than twice too slow lowers it one
/// step. The result is always clamped to `MIN_DIFFICULTY..=MAX_DIFFICULTY`.
pub open spec fn spec_required_difficulty(chain: Seq<Block>, base: usize) -> usize {
    let height = chain.len() as int;
    if height <= 1 {
        clamp_difficulty(base as int)
    } else {
        let parent = chain[height - 1];
        if height % (RETARGET_INTERVAL as int) != 0 {
            clamp_difficulty(parent.difficulty as int)
        } else {
            let start = window_start(height);
            let expected = (height - start - 1) * TARGET_BLOCK_TIME_SECS;
            let actual = elapsed_seconds(chain[start].timestamp, parent.timestamp);
            if actual * RETARGET_TOLERANCE < expected {
                clamp_difficulty(parent.difficulty + 1)
            } else if actual > expected * RETARGET_TOLERANCE {
                clamp_difficulty(parent.difficulty - 1)
            } else {
                clamp_difficulty(parent.difficulty as int)
            }
        }
    }
}

/// `d` held inside `MIN_DIFFICULTY..=MAX_DIFFICULTY`.
fn clamp_to_range(d: usize) -> (r: usize)
    ensures
        r == clamp_difficulty(d as int),
{
    if d < MIN_DIFFICULTY {
        MIN_DIFFICULTY
    } else if d > MAX_DIFFICULTY {
        MAX_DIFFICULTY
    } else {
        d
    }
}

/// Whole seconds from `from` to `to`, as `elapsed_seconds` defines them.
fn elapsed(from: Timestamp, to: Timestamp) -> (secs: u128)
    ensures
        secs as int == elapsed_seconds(from, to),
{
    let delta: i128 = to.secs as i128 - from.secs as i128;
    assert(-0x1_0000_0000_0000_0000 <= delta <= 0x1_0000_0000_0000_0000);
    assert(-0x1_0000_0000_0000_0000 * 1_000_000_000 <= delta * 1_000_000_000
        <= 0x1_0000_0000_0000_0000 * 1_000_000_000) by (nonlinear_arith)
        requires
            -0x1_0000_0000_0000_0000 <= delta <= 0x1_0000_0000_0000_0000,
    ;
    let nanos: i128 = delta * 1_000_000_000 + (to.nanos as i128 - from.nanos as i128);
    if nanos < 0 {
        0
    } else {
        (nanos as u128) / 1_000_000_000
    }
}


/// How many of the transactions are coinbase transactions.
pub open spec fn coinbase_count(txs: Seq<Transaction>) -> nat
    decreases txs.len(),
{
    if txs.len() == 0 {
        0
    } else {
        coinbase_count(txs.drop_last()) + if txs.last().is_coinbase_tx {
            1nat
        } else {
            0nat
        }
    }
}

/// The whole-second timestamps of the last `MEDIAN_TIME_SPAN` blocks of
/// `prefix` (all of them when there are fewer), oldest first.
pub open spec fn median_window(prefix: Seq<Block>) -> Seq<i64> {
    let k = if prefix.len() < MEDIAN_TIME_SPAN {
        prefix.len() as int
    } else {
        MEDIAN_TIME_SPAN as int
    };
    Seq::new(k as nat, |i: int| prefix[prefix.len() - k + i].timestamp.secs)
}

/// The usual order on `i64`.
pub open spec fn i64_order() -> spec_fn(i64, i64) -> bool {
    |a: i64, b: i64| a <= b
}

/// The median of the recent window: the middle element (the upper one of
/// the two middles for an even count) once the window is sorted.
pub open spec fn median_time_past(prefix: Seq<Block>) -> i64 {
    let sorted = median_window(prefix).sort_by(i64_order());
    sorted[(sorted.len() / 2) as int]
}

/// Why a block does not fit on top of `prefix`, or `Ok` when it does.
///
/// In order: there must be a previous block; the index must follow it; the
/// previous hash must be its hash; the claimed difficulty must be the one
/// expected; the hash must be the block's own and carry that many zeros; the
/// Merkle root and every transaction must verify; there must be exactly one
/// coinbase, paying at most the mining reward; the timestamp must be past the
/// median of the recent window and at most `MAX_FUTURE_DRIFT_SECS` past
/// `now`.
#[verifier::opaque]
pub open spec fn spec_block_structure(
    block: Block,
    prefix: Seq<Block>,
    expected_difficulty: usize,
    mining_reward: u64,
    now: i64,
) -> Result<(), Seq<char>> {
    if prefix.len() == 0 {
        Err("no previous block to build on"@)
    } else {
        let previous = prefix.last();
        if block.index != previous.index + 1 {
            Err(
                "Invalid index: expected "@ + decimal_digits((previous.index + 1) as nat)
                    + ", got "@ + decimal_digits(block.index as nat),
            )
        } else if block.previous_hash@ != previous.hash@ {
            Err("Previous hash mismatch"@)
        } else if block.difficulty != expected_difficulty {
            Err(
                "Invalid difficulty: expected "@ + decimal_digits(expected_difficulty as nat)
                    + ", got "@ + decimal_digits(block.difficulty as nat),
            )
        } else if !spec_hash_valid(block, Some(expected_difficulty)) {
            Err("Block hash doesn't meet difficulty requirement"@)
        } else if !spec_transactions_valid(block) {
            Err("Transaction verification failed"@)
        } else if coinbase_count(block.transactions@) != 1 {
            Err(
                "Block must have exactly 1 coinbase transaction, has "@ + decimal_digits(
                    coinbase_count(block.transactions@),
                ),
            )
        } else if first_coinbase_amount(block.transactions@) > mining_reward {
            Err("Coinbase reward exceeds allowed amount"@)
        } else if block.timestamp.secs <= median_time_past(prefix) {
            Err("Block timestamp is not past the median of the preceding blocks"@)
        } else if block.timestamp.secs > now + MAX_FUTURE_DRIFT_SECS {
            Err("Block timestamp too far in the future"@)
        } else {
            Ok(())
        }
    }
}

/// `<=` on `i64` is a total order.
proof fn lemma_i64_order_total()
    ensures
        total_ordering(i64_order()),
{
    let leq = i64_order();
    assert(vstd::relations::reflexive(leq));
    assert(vstd::relations::antisymmetric(leq));
    assert(vstd::relations::transitive(leq));
    assert(vstd::relations::strongly_connected(leq));
}

/// How many coinbase transactions a list holds.
fn count_coinbase(txs: &Vec<Transaction>) -> (count: usize)
    ensures
        count as nat == coinbase_count(txs@),
{
    let mut count: usize = 0;
    let mut i: usize = 0;
    while i < txs.len()
        invariant
            i <= txs@.len(),
            count <= i,
            count as nat == coinbase_count(txs@.subrange(0, i as int)),
        decreases txs@.len() - i,
    {
        assert(txs@.subrange(0, i + 1).drop_last() =~= txs@.subrange(0, i as int));
        if txs[i].is_coinbase() {
            count = count + 1;
        }
        i = i + 1;
    }
    assert(txs@.subrange(0, i as int) =~= txs@);
    count
}

/// The median-time-past of a non-empty prefix.
fn compute_median_time_past(prefix: &[Block]) -> (m: i64)
    requires
        prefix@.len() > 0,
    ensures
        m == median_time_past(prefix@),
{
    let len = prefix.len();
    let k: usize = if len < MEDIAN_TIME_SPAN {
        len
    } else {
        MEDIAN_TIME_SPAN
    };
    let ghost window = median_window(prefix@);
    let ghost leq = i64_order();
    let mut sorted: Vec<i64> = Vec::new();
    let mut i: usize = 0;
    assert(window.subrange(0, 0) =~= Seq::<i64>::empty());
    while i < k
        invariant
            k <= len,
            len == prefix@.len(),
            window == median_window(prefix@),
            window.len() == k,
            leq == i64_order(),
            i <= k,
            sorted@.to_multiset() == window.subrange(0, i as int).to_multiset(),
            sorted@.len() == i,
            sorted_by(sorted@, leq),
        decreases k - i,
    {
        let x = prefix[len - k + i].timestamp.secs;
        assert(x == window[i as int]);
        let mut p: usize = 0;
        while p < sorted.len() && sorted[p] <= x
            invariant
                p <= sorted@.len(),
                forall|j: int| 0 <= j < p ==> sorted@[j] <= x,
            decreases sorted@.len() - p,
        {
            p = p + 1;
        }
        let ghost before = sorted@;
        sorted.insert(p, x);
        proof {
            broadcast use vstd::seq_lib::to_multiset_insert, vstd::seq_lib::to_multiset_build;
            assert(sorted@ == before.insert(p as int, x));
            assert(window.subrange(0, i + 1) =~= window.subrange(0, i as int).push(x));
            assert forall|a: int, b: int| 0 <= a < b < sorted@.len() implies #[trigger] leq(
                sorted@[a],
                sorted@[b],
            ) by {
                if b < p {
                    assert(leq(before[a], before[b]));
                } else if b == p {
                } else if a < p {
                    assert(leq(before[a], before[b - 1]));
                } else if a == p {
                    assert(leq(before[p as int], before[b - 1]) || p as int == b - 1);
                } else {
                    assert(leq(before[a - 1], before[b - 1]));
                }
            }
        }
        i = i + 1;
    }
    proof {
        assert(window.subrange(0, k as int) =~= window);
        lemma_i64_order_total();
        window.lemma_sort_by_ensures(leq);
        vstd::seq_lib::lemma_sorted_unique(sorted@, window.sort_by(leq), leq);
    }
    sorted[k / 2]
}

/// Checks that a block must satisfy relative to its predecessor, with `now`
/// as the reading of our own clock.
///
/// Shared by block acceptance and whole-chain validation so that a chain can
/// never pass whole-chain validation with a block that block acceptance would
/// have refused.
pub fn check_block_structure(
    block: &Block,
    prefix: &[Block],
    expected_difficulty: usize,
    mining_reward: u64,
    now: i64,
) -> (result: Result<(), String>)
    ensures
        match spec_block_structure(*block, prefix@, expected_difficulty, mining_reward, now) {
            Ok(()) => result is Ok,
            Err(message) => result matches Err(m) && m@ == message,
        },
{
    reveal(spec_block_structure);
    if prefix.len() == 0 {
        return Err(String::from_str("no previous block to build on"));
    }
    let previous = &prefix[prefix.len() - 1];
    if previous.index == u64::MAX || block.index != previous.index + 1 {
        let expected_index: u128 = previous.index as u128 + 1;
        let mut message = String::from_str("Invalid index: expected ");
        let expected_text = u128_decimal(expected_index);
        message.append(expected_text.as_str());
        message.append(", got ");
        let got_text = u64_decimal(block.index);
        message.append(got_text.as_str());
        return Err(message);
    }
    if block.previous_hash != previous.hash {
        return Err(String::from_str("Previous hash mismatch"));
    }
    if block.difficulty != expected_difficulty {
        let mut message = String::from_str("Invalid difficulty: expected ");
        let expected_text = u64_decimal(expected_difficulty as u64);
        message.append(expected_text.as_str());
        message.append(", got ");
        let got_text = u64_decimal(block.difficulty as u64);
        message.append(got_text.as_str());
        return Err(message);
    }
    if !block.verify_hash(Some(expected_difficulty)) {
        return Err(String::from_str("Block hash doesn't meet difficulty requirement"));
    }
    if !block.verify_transactions() {
        return Err(String::from_str("Transaction verification failed"));
    }
    let coinbase = count_coinbase(&block.transactions);
    if coinbase != 1 {
        let mut message = String::from_str("Block must have exactly 1 coinbase transaction, has ");
        let count_text = u64_decimal(coinbase as u64);
        message.append(count_text.as_str());
        return Err(message);
    }
    if block.mining_reward() > mining_reward {
        return Err(String::from_str("Coinbase reward exceeds allowed amount"));
    }
    let median = compute_median_time_past(prefix);
    if block.timestamp.secs <= median {
        return Err(
            String::from_str("Block timestamp is not past the median of the preceding blocks"),
        );
    }
    if block.timestamp.secs as i128 > now as i128 + MAX_FUTURE_DRIFT_SECS as i128 {
        return Err(String::from_str("Block timestamp too far in the future"));
    }
    Ok(())
}

/// What the pending transactions of `sender` spend between them.
pub open spec fn pending_spent(pending: Seq<Transaction>, sender: Seq<char>) -> nat
    decreases pending.len(),
{
    if pending.len() == 0 {
        0
    } else {
        pending_spent(pending.drop_last(), sender) + if pending.last().sender@ == sender {
            pending.last().amount as nat
        } else {
            0
        }
    }
}

/// Whether the mempool admits `tx`, given the ledger and what is already
/// pending.
///
/// A coinbase is refused, as is a transaction whose signature does not
/// verify, one already confirmed, and one already pending. The sender must
/// hold the amount, and must still hold it once what its other pending
/// transactions spend is set aside.
pub open spec fn spec_admit(ledger: LedgerView, pending: Seq<Transaction>, tx: Transaction) -> Result<
    (),
    ChainFault,
> {
    let balance = balance_of(ledger.accounts, tx.sender@);
    let spent = pending_spent(pending, tx.sender@);
    let available: int = if spent <= balance {
        balance - spent
    } else {
        0
    };
    if tx.is_coinbase_tx {
        Err(ChainFault::InvalidTransaction("Cannot add coinbase transactions to mempool"@))
    } else if !spec_tx_verifies(tx) {
        Err(ChainFault::InvalidTransaction("Signature verification failed"@))
    } else if ledger.spent.contains(tx.id@) {
        Err(
            ChainFault::InvalidTransaction(
                "Transaction "@ + tx.id@ + " is already confirmed in the chain"@,
            ),
        )
    } else if tx_ids(pending).contains(tx.id@) {
        Err(ChainFault::InvalidTransaction("Transaction "@ + tx.id@ + " is already in the mempool"@))
    } else if balance < tx.amount {
        Err(ChainFault::InsufficientBalance { has: balance, needs: tx.amount })
    } else if available < tx.amount {
        Err(ChainFault::InsufficientBalance { has: available as u64, needs: tx.amount })
    } else {
        Ok(())
    }
}

/// Whether admitting `tx` gets as far as summing what its sender already has
/// pending: it is no coinbase, its signature verifies, its id is neither
/// confirmed nor pending, and the sender's balance covers it.
pub open spec fn reaches_pending_sum(ledger: LedgerView, pending: Seq<Transaction>, tx: Transaction) -> bool {
    &&& !tx.is_coinbase_tx
    &&& spec_tx_verifies(tx)
    &&& !ledger.spent.contains(tx.id@)
    &&& !tx_ids(pending).contains(tx.id@)
    &&& tx.amount <= balance_of(ledger.accounts, tx.sender@)
}

/// Whether admitting `tx` would sum its sender's pending amounts past
/// `u64::MAX`: the one input on which admission cannot complete.
pub open spec fn admission_overflows(ledger: LedgerView, pending: Seq<Transaction>, tx: Transaction) -> bool {
    reaches_pending_sum(ledger, pending, tx) && pending_spent(pending, tx.sender@) > u64::MAX
}

/// A prefix of the mempool spends no more than the whole.
proof fn lemma_pending_spent_prefix(pending: Seq<Transaction>, sender: Seq<char>, i: int)
    requires
        0 <= i <= pending.len(),
    ensures
        pending_spent(pending.subrange(0, i), sender) <= pending_spent(pending, sender),
    decreases pending.len() - i,
{
    if i < pending.len() {
        lemma_pending_spent_prefix(pending, sender, i + 1);
        assert(pending.subrange(0, i + 1).drop_last() =~= pending.subrange(0, i));
    } else {
        assert(pending.subrange(0, i) =~= pending);
    }
}

/// The pending transactions whose ids are not among `confirmed`, in order.
pub open spec fn unconfirmed(pending: Seq<Transaction>, confirmed: Seq<Seq<char>>) -> Seq<
    Transaction,
>
    decreases pending.len(),
{
    if pending.len() == 0 {
        Seq::empty()
    } else if confirmed.contains(pending.last().id@) {
        unconfirmed(pending.drop_last(), confirmed)
    } else {
        unconfirmed(pending.drop_last(), confirmed).push(pending.last())
    }
}

/// Whether a transaction with id `id` is among `txs`.
fn has_transaction_id(txs: &Vec<Transaction>, id: &str) -> (found: bool)
    ensures
        found == tx_ids(txs@).contains(id@),
{
    let mut i: usize = 0;
    while i < txs.len()
        invariant
            i <= txs@.len(),
            forall|j: int| 0 <= j < i ==> txs@[j].id@ != id@,
        decreases txs@.len() - i,
    {
        if same_text(txs[i].id.as_str(), id) {
            assert(tx_ids(txs@)[i as int] == id@);
            return true;
        }
        i = i + 1;
    }
    false
}


/// The hash of the genesis block: every block that is the genesis block has
/// this hash.
pub open spec fn canonical_genesis_hash() -> Seq<char> {
    (choose|b: Block| is_genesis_block(b)).hash@
}

/// The first block among `chain[1..upto]` that does not fit on the blocks
/// before it, with the reason, or `None` when all of them fit.
pub open spec fn first_structure_fault(
    chain: Seq<Block>,
    difficulty: usize,
    reward: u64,
    now: i64,
    upto: int,
) -> Option<(int, Seq<char>)>
    decreases upto,
{
    if upto <= 1 {
        None
    } else {
        match first_structure_fault(chain, difficulty, reward, now, upto - 1) {
            Some(fault) => Some(fault),
            None => {
                let prefix = chain.subrange(0, upto - 1);
                match spec_block_structure(
                    chain[upto - 1],
                    prefix,
                    spec_required_difficulty(prefix, difficulty),
                    reward,
                    now,
                ) {
                    Err(message) => Some((upto - 1, message)),
                    Ok(()) => None,
                }
            },
        }
    }
}

/// The transactions of a chain that `address` sends or receives, block by
/// block, in order.
pub open spec fn transactions_for(blocks: Seq<Block>, address: Seq<char>) -> Seq<Transaction>
    decreases blocks.len(),
{
    if blocks.len() == 0 {
        Seq::empty()
    } else {
        transactions_for(blocks.drop_last(), address) + blocks.last().transactions@.filter(
            involves(address),
        )
    }
}

/// Whether a transaction is sent or received by `address`.
pub open spec fn involves(address: Seq<char>) -> spec_fn(Transaction) -> bool {
    |tx: Transaction| tx.sender@ == address || tx.recipient@ == address
}

/// How many transactions a chain holds.
pub open spec fn transaction_total(blocks: Seq<Block>) -> nat
    decreases blocks.len(),
{
    if blocks.len() == 0 {
        0
    } else {
        transaction_total(blocks.drop_last()) + blocks.last().transactions@.len()
    }
}

/// The exponent of a block's work: four bits per difficulty step, capped at
/// 127 so the work fits a `u128`.
pub open spec fn work_exponent(difficulty: usize) -> u32 {
    if 4 * difficulty > 127 {
        127
    } else {
        (4 * difficulty) as u32
    }
}

/// The work a block at `difficulty` stands for: one leading hex zero is a
/// factor of 16, so `16^difficulty`, as `1` shifted left by the exponent.
pub open spec fn block_work(difficulty: usize) -> u128 {
    1u128 << work_exponent(difficulty)
}

/// The summed work of a chain, saturating at `u128::MAX`.
pub open spec fn chain_work(blocks: Seq<Block>) -> u128
    decreases blocks.len(),
{
    if blocks.len() == 0 {
        0
    } else {
        let sum = chain_work(blocks.drop_last()) + block_work(blocks.last().difficulty);
        if sum > u128::MAX {
            u128::MAX
        } else {
            sum as u128
        }
    }
}

/// The transactions the mempool keeps when `candidates` are offered to it one
/// by one, in order, starting from an empty mempool.
pub open spec fn readmit(ledger: LedgerView, candidates: Seq<Transaction>) -> Seq<Transaction>
    decreases candidates.len(),
{
    if candidates.len() == 0 {
        Seq::empty()
    } else {
        let kept = readmit(ledger, candidates.drop_last());
        if spec_admit(ledger, kept, candidates.last()) is Ok {
            kept.push(candidates.last())
        } else {
            kept
        }
    }
}

/// Whether a transaction is a payment that `spent` does not confirm.
pub open spec fn orphaned_by(spent: Seq<Seq<char>>) -> spec_fn(Transaction) -> bool {
    |tx: Transaction| !tx.is_coinbase_tx && !spent.contains(tx.id@)
}

/// The payments of `blocks` that `spent` does not confirm, block by block,
/// in order.
pub open spec fn orphans(blocks: Seq<Block>, spent: Seq<Seq<char>>) -> Seq<Transaction>
    decreases blocks.len(),
{
    if blocks.len() == 0 {
        Seq::empty()
    } else {
        orphans(blocks.drop_last(), spent) + blocks.last().transactions@.filter(orphaned_by(spent))
    }
}

/// The ledger a candidate chain produces when its blocks after the genesis
/// block are added one by one, each checked against the blocks before it:
/// the first `upto` blocks, or the first refusal.
pub open spec fn replay(
    chain: Seq<Block>,
    difficulty: usize,
    reward: u64,
    now: i64,
    upto: int,
) -> Result<LedgerView, ChainFault>
    decreases upto,
{
    if upto <= 1 {
        index_blocks(chain.subrange(0, 1))
    } else {
        match replay(chain, difficulty, reward, now, upto - 1) {
            Err(fault) => Err(fault),
            Ok(ledger) => {
                let prefix = chain.subrange(0, upto - 1);
                match spec_block_structure(
                    chain[upto - 1],
                    prefix,
                    spec_required_difficulty(prefix, difficulty),
                    reward,
                    now,
                ) {
                    Err(message) => Err(ChainFault::InvalidBlock(message)),
                    Ok(()) => apply_txs(ledger, chain[upto - 1].transactions@),
                }
            },
        }
    }
}

/// Whether `a` is strictly earlier than `b`.
pub open spec fn earlier(a: Timestamp, b: Timestamp) -> bool {
    a.secs < b.secs || (a.secs == b.secs && a.nanos < b.nanos)
}

/// One second after `t` (the last second an `i64` holds stays put).
pub open spec fn one_second_after(t: Timestamp) -> Timestamp {
    Timestamp { secs: if t.secs < i64::MAX { (t.secs + 1) as i64 } else { t.secs }, nanos: t.nanos }
}

/// Whether a whole chain is valid, started at `difficulty` and paying
/// `reward`, with `now` as the reading of our own clock.
///
/// The genesis block must be *the* genesis block, with a matching hash and
/// valid transactions; every later block must fit on the blocks before it at
/// the difficulty they demand; and replaying the chain must apply every
/// transaction.
pub open spec fn spec_chain_valid(chain: Seq<Block>, difficulty: usize, reward: u64, now: i64) -> Result<(), ChainFault> {
    if chain.len() == 0 {
        Err(ChainFault::EmptyChain)
    } else if chain[0].hash@ != canonical_genesis_hash() || !spec_hash_valid(chain[0], None)
        || !spec_transactions_valid(chain[0]) {
        Err(ChainFault::InvalidChain("Invalid genesis block"@))
    } else {
        match first_structure_fault(
            chain,
            difficulty,
            reward,
            now,
            chain.len() as int,
        ) {
            Some((i, message)) => Err(
                ChainFault::InvalidChain("Block "@ + decimal_digits(i as nat) + ": "@ + message),
            ),
            None => match index_blocks(chain) {
                Ok(_) => Ok(()),
                Err(fault) => Err(fault),
            },
        }
    }
}

/// The main blockchain structure
#[derive(Debug, Clone)]
pub struct Blockchain {
    /// The chain of blocks
    pub chain: Vec<Block>,
    /// Difficulty the chain starts at.
    ///
    /// Only the first mined block uses it directly; from there difficulty is
    /// derived from the blocks themselves by [`Blockchain::next_difficulty`].
    pub difficulty: usize,
    /// Pending transactions (mempool)
    pub pending_transactions: Vec<Transaction>,
    /// Mining reward
    pub mining_reward: u64,
    /// The balances and confirmed transaction ids the chain produces: a
    /// derived index, rebuilt by replaying the chain.
    ledger: Ledger,
}

impl Blockchain {
    /// The ledger: every account's balance and the confirmed transaction ids.
    pub closed spec fn ledger_view(&self) -> LedgerView {
        self.ledger@
    }

    /// The blocks of the chain, genesis first.
    pub closed spec fn blocks(&self) -> Seq<Block> {
        self.chain@
    }

    /// The difficulty the chain starts at.
    pub closed spec fn base_difficulty(&self) -> usize {
        self.difficulty
    }

    /// The pending transactions, oldest first.
    pub closed spec fn mempool(&self) -> Seq<Transaction> {
        self.pending_transactions@
    }

    /// The mining reward.
    pub closed spec fn reward(&self) -> u64 {
        self.mining_reward
    }

    /// The difficulty a block extending `chain` is required to claim.
    pub fn required_difficulty(chain: &[Block], base_difficulty: usize) -> (d: usize)
        ensures
            d == spec_required_difficulty(chain@, base_difficulty),
    {
        let len = chain.len();
        if len <= 1 {
            return clamp_to_range(base_difficulty);
        }
        let parent = &chain[len - 1];
        if len as u64 % RETARGET_INTERVAL != 0 {
            return clamp_to_range(parent.difficulty);
        }
        let start: usize = if len >= 11 {
            len - 10
        } else {
            1
        };
        let intervals: usize = len - start - 1;
        let expected: u128 = intervals as u128 * 60;
        let actual = elapsed(chain[start].timestamp, parent.timestamp);
        let retargeted = if actual * 2 < expected {
            parent.difficulty.saturating_add(1)
        } else if actual > expected * 2 {
            parent.difficulty.saturating_sub(1)
        } else {
            parent.difficulty
        };
        clamp_to_range(retargeted)
    }

    /// Replay a chain to derive the balances and the confirmed transaction ids.
    pub fn index_chain(chain: &[Block]) -> (result: Result<Ledger, BlockchainError>)
        ensures
            match index_blocks(chain@) {
                Ok(ledger) => result matches Ok(l) && l@ == ledger,
                Err(fault) => result matches Err(e) && e@ == fault,
            },
    {
        let mut ledger = Ledger::new();
        let mut i: usize = 0;
        assert(chain@.subrange(0, 0) =~= Seq::<Block>::empty());
        while i < chain.len()
            invariant
                i <= chain@.len(),
                index_blocks(chain@.subrange(0, i as int)) == Ok::<LedgerView, ChainFault>(ledger@),
            decreases chain@.len() - i,
        {
            assert(chain@.subrange(0, i + 1).drop_last() =~= chain@.subrange(0, i as int));
            match ledger.apply_block(&chain[i]) {
                Ok(next) => {
                    ledger = next;
                },
                Err(e) => {
                    proof {
                        lemma_index_blocks_stops_at_refusal(chain@, i as int);
                    }
                    return Err(e);
                },
            }
            i = i + 1;
        }
        assert(chain@.subrange(0, i as int) =~= chain@);
        Ok(ledger)
    }

    /// Create a new blockchain with the genesis block.
    pub fn new() -> (blockchain: Self)
        ensures
            blockchain.blocks().len() == 1,
            is_genesis_block(blockchain.blocks()[0]),
            blockchain.base_difficulty() == DEFAULT_DIFFICULTY,
            blockchain.mempool().len() == 0,
            blockchain.reward() == MINING_REWARD,
            index_blocks(blockchain.blocks()) == Ok::<LedgerView, ChainFault>(blockchain.ledger_view()),
    {
        let genesis = Block::genesis();
        let mut chain: Vec<Block> = Vec::new();
        chain.push(genesis);
        proof {
            lemma_genesis_indexes(chain@);
        }
        let ledger = match Self::index_chain(chain.as_slice()) {
            Ok(ledger) => ledger,
            Err(_) => {
                proof {
                    assert(false);
                }
                Ledger::new()
            },
        };
        Blockchain {
            chain,
            difficulty: DEFAULT_DIFFICULTY,
            pending_transactions: Vec::new(),
            mining_reward: MINING_REWARD,
            ledger,
        }
    }

    /// Create a blockchain with a custom starting difficulty.
    pub fn with_difficulty(difficulty: usize) -> (blockchain: Self)
        ensures
            blockchain.blocks().len() == 1,
            is_genesis_block(blockchain.blocks()[0]),
            blockchain.base_difficulty() == difficulty,
            blockchain.mempool().len() == 0,
            blockchain.reward() == MINING_REWARD,
            index_blocks(blockchain.blocks()) == Ok::<LedgerView, ChainFault>(blockchain.ledger_view()),
    {
        let mut blockchain = Self::new();
        blockchain.difficulty = difficulty;
        blockchain
    }

    /// Get the latest block in the chain, or `None` if the chain is empty.
    pub fn latest_block(&self) -> (latest: Option<&Block>)
        ensures
            match latest {
                Some(b) => self.blocks().len() > 0 && *b == self.blocks().last(),
                None => self.blocks().len() == 0,
            },
    {
        if self.chain.len() == 0 {
            None
        } else {
            Some(&self.chain[self.chain.len() - 1])
        }
    }

    /// The blocks of the chain, genesis first.
    pub fn chain_ref(&self) -> (chain: &Vec<Block>)
        ensures
            chain@ == self.blocks(),
    {
        &self.chain
    }

    /// Get the chain length
    pub fn len(&self) -> (len: usize)
        ensures
            len == self.blocks().len(),
    {
        self.chain.len()
    }

    /// Check if chain is empty (never true after initialization)
    pub fn is_empty(&self) -> (empty: bool)
        ensures
            empty == (self.blocks().len() == 0),
    {
        self.chain.len() == 0
    }

    /// Get balance of an address: zero for an address with no account.
    pub fn get_balance(&self, address: &str) -> (balance: u64)
        ensures
            balance == balance_of(self.ledger_view().accounts, address@),
    {
        self.ledger.balance(address)
    }

    /// The ledger is the one replaying the chain produces.
    pub open spec fn ledger_derived(&self) -> bool {
        index_blocks(self.blocks()) == Ok::<LedgerView, ChainFault>(self.ledger_view())
    }

    /// The chain, the starting difficulty, the reward and the ledger of
    /// `self` and `other` agree.
    pub open spec fn same_chain_state(&self, other: &Self) -> bool {
        &&& self.blocks() == other.blocks()
        &&& self.base_difficulty() == other.base_difficulty()
        &&& self.reward() == other.reward()
        &&& self.ledger_view() == other.ledger_view()
    }

    /// What every address has pending fits a `u64`.
    pub open spec fn mempool_fits(&self) -> bool {
        forall|a: Seq<char>| #[trigger] pending_spent(self.mempool(), a) <= u64::MAX
    }

    /// What the pending transactions of `sender` spend between them, or
    /// `None` when that passes `u64::MAX`.
    pub fn pending_spent_checked(&self, sender: &str) -> (spent: Option<u64>)
        ensures
            match spent {
                Some(v) => v == pending_spent(self.mempool(), sender@),
                None => pending_spent(self.mempool(), sender@) > u64::MAX,
            },
    {
        let ghost pending = self.pending_transactions@;
        let mut spent: u64 = 0;
        let mut i: usize = 0;
        while i < self.pending_transactions.len()
            invariant
                i <= pending.len(),
                pending == self.pending_transactions@,
                spent == pending_spent(pending.subrange(0, i as int), sender@),
            decreases pending.len() - i,
        {
            assert(pending.subrange(0, i + 1).drop_last() =~= pending.subrange(0, i as int));
            let tx = &self.pending_transactions[i];
            if same_text(tx.sender.as_str(), sender) {
                match spent.checked_add(tx.amount) {
                    Some(v) => {
                        spent = v;
                    },
                    None => {
                        proof {
                            lemma_pending_spent_prefix(pending, sender@, i + 1);
                        }
                        return None;
                    },
                }
            }
            i = i + 1;
        }
        assert(pending.subrange(0, i as int) =~= pending);
        Some(spent)
    }

    /// What the pending transactions of `sender` spend between them.
    fn pending_spent_by(&self, sender: &str) -> (spent: u64)
        requires
            pending_spent(self.mempool(), sender@) <= u64::MAX,
        ensures
            spent == pending_spent(self.mempool(), sender@),
    {
        let ghost pending = self.pending_transactions@;
        let mut spent: u64 = 0;
        let mut i: usize = 0;
        while i < self.pending_transactions.len()
            invariant
                i <= pending.len(),
                pending == self.pending_transactions@,
                pending_spent(pending, sender@) <= u64::MAX,
                spent == pending_spent(pending.subrange(0, i as int), sender@),
            decreases pending.len() - i,
        {
            assert(pending.subrange(0, i + 1).drop_last() =~= pending.subrange(0, i as int));
            proof {
                lemma_pending_spent_prefix(pending, sender@, i + 1);
            }
            let tx = &self.pending_transactions[i];
            if same_text(tx.sender.as_str(), sender) {
                spent = spent + tx.amount;
            }
            i = i + 1;
        }
        assert(pending.subrange(0, i as int) =~= pending);
        spent
    }

    /// Whether a transaction with id `id` is pending.
    fn is_pending(&self, id: &str) -> (pending: bool)
        ensures
            pending == tx_ids(self.mempool()).contains(id@),
    {
        let mut i: usize = 0;
        while i < self.pending_transactions.len()
            invariant
                i <= self.pending_transactions@.len(),
                forall|j: int| 0 <= j < i ==> self.pending_transactions@[j].id@ != id@,
            decreases self.pending_transactions@.len() - i,
        {
            if same_text(self.pending_transactions[i].id.as_str(), id) {
                assert(tx_ids(self.mempool())[i as int] == id@);
                return true;
            }
            i = i + 1;
        }
        false
    }

    /// Whether [`Self::add_transaction`] would sum the sender's pending
    /// amounts past `u64::MAX` on `transaction`.
    pub fn admission_would_overflow(&self, transaction: &Transaction) -> (overflows: bool)
        ensures
            overflows == admission_overflows(self.ledger_view(), self.mempool(), *transaction),
    {
        if transaction.is_coinbase() || !transaction.verify() {
            return false;
        }
        if self.ledger.is_spent(transaction.id.as_str()) || self.is_pending(transaction.id.as_str()) {
            return false;
        }
        if self.ledger.balance(transaction.sender.as_str()) < transaction.amount {
            return false;
        }
        self.pending_spent_checked(transaction.sender.as_str()).is_none()
    }

    /// Add a transaction to the mempool.
    ///
    /// The mempool takes it when `spec_admit` allows; otherwise the mempool is
    /// left as it was and the reason is returned.
    pub fn add_transaction(&mut self, transaction: Transaction) -> (result: Result<(), BlockchainError>)
        requires
            !admission_overflows(old(self).ledger_view(), old(self).mempool(), transaction),
        ensures
            match spec_admit(old(self).ledger_view(), old(self).mempool(), transaction) {
                Ok(()) => {
                    &&& result is Ok
                    &&& final(self).mempool() == old(self).mempool().push(transaction)
                    &&& final(self).same_chain_state(old(self))
                },
                Err(fault) => result matches Err(e) && e@ == fault && *final(self) == *old(self),
            },
    {
        if transaction.is_coinbase() {
            return Err(
                BlockchainError::InvalidTransaction(
                    String::from_str("Cannot add coinbase transactions to mempool"),
                ),
            );
        }
        if !transaction.verify() {
            return Err(
                BlockchainError::InvalidTransaction(String::from_str("Signature verification failed")),
            );
        }
        if self.ledger.is_spent(transaction.id.as_str()) {
            let mut message = String::from_str("Transaction ");
            message.append(transaction.id.as_str());
            message.append(" is already confirmed in the chain");
            return Err(BlockchainError::InvalidTransaction(message));
        }
        if self.is_pending(transaction.id.as_str()) {
            let mut message = String::from_str("Transaction ");
            message.append(transaction.id.as_str());
            message.append(" is already in the mempool");
            return Err(BlockchainError::InvalidTransaction(message));
        }
        let balance = self.ledger.balance(transaction.sender.as_str());
        if balance < transaction.amount {
            return Err(BlockchainError::InsufficientBalance { has: balance, needs: transaction.amount });
        }
        let spent = self.pending_spent_by(transaction.sender.as_str());
        let available = balance.saturating_sub(spent);
        if available < transaction.amount {
            return Err(
                BlockchainError::InsufficientBalance { has: available, needs: transaction.amount },
            );
        }
        self.pending_transactions.push(transaction);
        Ok(())
    }

    /// Whether `block` may extend the chain, with `now` as the reading of our
    /// own clock: the ledger the chain would have after it, or why not.
    ///
    /// A chain with no blocks has nothing to build on; a block breaking one of
    /// the structural rules is an invalid block; otherwise the block's
    /// transactions are applied to the ledger.
    pub open spec fn spec_validate(&self, block: Block, now: i64) -> Result<LedgerView, ChainFault> {
        if self.blocks().len() == 0 {
            Err(ChainFault::EmptyChain)
        } else {
            match spec_block_structure(
                block,
                self.blocks(),
                spec_required_difficulty(self.blocks(), self.base_difficulty()),
                self.reward(),
                now,
            ) {
                Err(message) => Err(ChainFault::InvalidBlock(message)),
                Ok(()) => apply_txs(self.ledger_view(), block.transactions@),
            }
        }
    }

    /// `after` is `self` with `block` appended: the block is the new tip, the
    /// ledger is `ledger`, and the block's transactions have left the mempool.
    pub open spec fn spec_appended(&self, block: Block, ledger: LedgerView, after: &Self) -> bool {
        &&& after.blocks() == self.blocks().push(block)
        &&& after.ledger_view() == ledger
        &&& after.mempool() == unconfirmed(self.mempool(), tx_ids(block.transactions@))
        &&& after.base_difficulty() == self.base_difficulty()
        &&& after.reward() == self.reward()
    }

    /// What adding `block` at clock reading `now` does: on success `after` is
    /// `self` with the block appended, on failure `after` is `self` and the
    /// error is the refusal.
    pub open spec fn spec_add_outcome(
        &self,
        block: Block,
        now: i64,
        result: Result<(), BlockchainError>,
        after: &Self,
    ) -> bool {
        match self.spec_validate(block, now) {
            Ok(ledger) => result is Ok && self.spec_appended(block, ledger, after),
            Err(fault) => result matches Err(e) && e@ == fault && *after == *self,
        }
    }

    /// Validate a block before adding it to the chain, with `now` as the
    /// reading of our own clock.
    ///
    /// Returns the ledger the chain would have *after* the block, so the
    /// caller commits exactly the state that was validated.
    fn validate_block(&self, block: &Block, now: i64) -> (result: Result<Ledger, BlockchainError>)
        ensures
            match self.spec_validate(*block, now) {
                Ok(ledger) => result matches Ok(l) && l@ == ledger,
                Err(fault) => result matches Err(e) && e@ == fault,
            },
    {
        if self.chain.len() == 0 {
            return Err(BlockchainError::EmptyChain);
        }
        let expected = self.next_difficulty();
        match check_block_structure(block, self.chain.as_slice(), expected, self.mining_reward, now) {
            Ok(()) => {},
            Err(message) => {
                return Err(BlockchainError::InvalidBlock(message));
            },
        }
        let ledger = self.ledger.copy();
        ledger.apply_block(block)
    }

    /// Drop the pending transactions that `block` confirms.
    fn drop_confirmed(&mut self, block: &Block)
        ensures
            final(self).mempool() == unconfirmed(old(self).mempool(), tx_ids(block.transactions@)),
            final(self).same_chain_state(old(self)),
    {
        let ghost pending = self.pending_transactions@;
        let ghost confirmed = tx_ids(block.transactions@);
        let mut kept: Vec<Transaction> = Vec::new();
        let mut i: usize = 0;
        assert(pending.subrange(0, 0) =~= Seq::<Transaction>::empty());
        while i < self.pending_transactions.len()
            invariant
                i <= pending.len(),
                pending == self.pending_transactions@,
                confirmed == tx_ids(block.transactions@),
                kept@ == unconfirmed(pending.subrange(0, i as int), confirmed),
            decreases pending.len() - i,
        {
            assert(pending.subrange(0, i + 1).drop_last() =~= pending.subrange(0, i as int));
            let tx = &self.pending_transactions[i];
            if !has_transaction_id(&block.transactions, tx.id.as_str()) {
                kept.push(tx.clone());
            }
            i = i + 1;
        }
        assert(pending.subrange(0, i as int) =~= pending);
        self.pending_transactions = kept;
    }

    /// Add a block to the chain after validating it, with `now` as the reading
    /// of our own clock.
    pub fn add_block_at(&mut self, block: Block, now: i64) -> (result: Result<(), BlockchainError>)
        ensures
            old(self).spec_add_outcome(block, now, result, final(self)),
    {
        let ledger = match self.validate_block(&block, now) {
            Ok(ledger) => ledger,
            Err(e) => {
                return Err(e);
            },
        };
        self.drop_confirmed(&block);
        self.ledger = ledger;
        self.chain.push(block);
        Ok(())
    }

    /// Add a block to the chain after validating it against our own clock.
    ///
    /// The clock is read once; the outcome is what `add_block_at` gives for
    /// that reading.
    pub fn add_block(&mut self, block: Block) -> (result: Result<(), BlockchainError>)
        ensures
            exists|now: i64| #[trigger] old(self).spec_add_outcome(block, now, result, final(self)),
    {
        let now = crate::clock::now().secs;
        self.add_block_at(block, now)
    }

    /// Whether the whole chain is valid, with `now` as the reading of our own
    /// clock (see `spec_chain_valid`).
    pub open spec fn spec_is_valid(&self, now: i64) -> Result<(), ChainFault> {
        spec_chain_valid(self.blocks(), self.base_difficulty(), self.reward(), now)
    }

    /// Validate the entire blockchain, with `now` as the reading of our own
    /// clock.
    #[verifier::spinoff_prover]
    pub fn is_valid_at(&self, now: i64) -> (result: Result<(), BlockchainError>)
        ensures
            match self.spec_is_valid(now) {
                Ok(()) => result is Ok,
                Err(fault) => result matches Err(e) && e@ == fault,
            },
    {
        if self.chain.len() == 0 {
            return Err(BlockchainError::EmptyChain);
        }
        let genesis = &self.chain[0];
        let canonical = Block::genesis();
        proof {
            lemma_genesis_is_deterministic(canonical, choose|b: Block| is_genesis_block(b));
        }
        if genesis.hash != canonical.hash || !genesis.verify_hash(None)
            || !genesis.verify_transactions() {
            return Err(BlockchainError::InvalidChain(String::from_str("Invalid genesis block")));
        }
        let chain = self.chain.as_slice();
        let mut i: usize = 1;
        while i < chain.len()
            invariant
                1 <= i <= chain@.len(),
                chain@ == self.blocks(),
                chain@[0].hash@ == canonical_genesis_hash(),
                spec_hash_valid(chain@[0], None),
                spec_transactions_valid(chain@[0]),
                first_structure_fault(
                    chain@,
                    self.base_difficulty(),
                    self.reward(),
                    now,
                    i as int,
                ) is None,
            decreases chain@.len() - i,
        {
            let prefix = &chain[0..i];
            assert(prefix@ == chain@.subrange(0, i as int));
            let expected = Self::required_difficulty(prefix, self.difficulty);
            let checked = check_block_structure(&chain[i], prefix, expected, self.mining_reward, now);
            assert(first_structure_fault(chain@, self.base_difficulty(), self.reward(), now, i + 1)
                == match spec_block_structure(
                chain@[i as int],
                chain@.subrange(0, i as int),
                spec_required_difficulty(chain@.subrange(0, i as int), self.base_difficulty()),
                self.reward(),
                now,
            ) {
                Err(message) => Some((i as int, message)),
                Ok(()) => None,
            });
            match checked {
                Ok(()) => {},
                Err(e) => {
                    let mut message = String::from_str("Block ");
                    let index_text = u64_decimal(i as u64);
                    message.append(index_text.as_str());
                    message.append(": ");
                    message.append(e.as_str());
                    proof {
                        lemma_first_fault_stays(chain@, self.base_difficulty(), self.reward(), now, i + 1);
                        assert(message@ == "Block "@ + decimal_digits(i as nat) + ": "@ + e@);
                    }
                    return Err(BlockchainError::InvalidChain(message));
                },
            }
            i = i + 1;
        }
        match Self::index_chain(chain) {
            Ok(_) => Ok(()),
            Err(e) => Err(e),
        }
    }

    /// Validate the entire blockchain against our own clock.
    ///
    /// The clock is read once; the outcome is what `is_valid_at` gives for
    /// that reading.
    pub fn is_valid(&self) -> (result: Result<(), BlockchainError>)
        ensures
            exists|now: i64|
                match #[trigger] self.spec_is_valid(now) {
                    Ok(()) => result is Ok,
                    Err(fault) => result matches Err(e) && e@ == fault,
                },
    {
        let now = crate::clock::now().secs;
        self.is_valid_at(now)
    }

    /// Get the block at `index`, if the chain is that long.
    pub fn get_block(&self, index: u64) -> (block: Option<&Block>)
        ensures
            match block {
                Some(b) => index < self.blocks().len() && *b == self.blocks()[index as int],
                None => index >= self.blocks().len(),
            },
    {
        if index < self.chain.len() as u64 {
            Some(&self.chain[index as usize])
        } else {
            None
        }
    }

    /// Get the first block whose stored hash is `hash`.
    pub fn get_block_by_hash(&self, hash: &str) -> (block: Option<&Block>)
        ensures
            match block {
                Some(b) => exists|i: int|
                    0 <= i < self.blocks().len() && *b == self.blocks()[i] && b.hash@ == hash@
                        && forall|j: int| 0 <= j < i ==> (#[trigger] self.blocks()[j]).hash@ != hash@,
                None => forall|j: int|
                    0 <= j < self.blocks().len() ==> (#[trigger] self.blocks()[j]).hash@ != hash@,
            },
    {
        let mut i: usize = 0;
        while i < self.chain.len()
            invariant
                i <= self.chain@.len(),
                forall|j: int| 0 <= j < i ==> (#[trigger] self.chain@[j]).hash@ != hash@,
            decreases self.chain@.len() - i,
        {
            if same_text(self.chain[i].hash.as_str(), hash) {
                assert(self.blocks()[i as int].hash@ == hash@);
                return Some(&self.chain[i]);
            }
            i = i + 1;
        }
        None
    }

    /// Get all transactions an address sends or receives, in chain order.
    pub fn get_transactions_for_address(&self, address: &str) -> (txs: Vec<&Transaction>)
        ensures
            txs@.map_values(|tx: &Transaction| *tx) == transactions_for(self.blocks(), address@),
    {
        let ghost blocks = self.chain@;
        let mut found: Vec<&Transaction> = Vec::new();
        let mut i: usize = 0;
        assert(found@.map_values(|tx: &Transaction| *tx) =~= transactions_for(
            blocks.subrange(0, 0),
            address@,
        ));
        while i < self.chain.len()
            invariant
                i <= blocks.len(),
                blocks == self.chain@,
                found@.map_values(|tx: &Transaction| *tx) == transactions_for(
                    blocks.subrange(0, i as int),
                    address@,
                ),
            decreases blocks.len() - i,
        {
            let block = &self.chain[i];
            let ghost before = found@.map_values(|tx: &Transaction| *tx);
            let ghost txs = block.transactions@;
            let mut k: usize = 0;
            assert(txs.subrange(0, 0).filter(
                involves(address@),
            ) =~= Seq::<Transaction>::empty());
            assert(found@.map_values(|tx: &Transaction| *tx) =~= before + txs.subrange(0, 0).filter(
                involves(address@),
            ));
            while k < block.transactions.len()
                invariant
                    k <= txs.len(),
                    txs == block.transactions@,
                    found@.map_values(|tx: &Transaction| *tx) == before + txs.subrange(
                        0,
                        k as int,
                    ).filter(involves(address@)),
                decreases txs.len() - k,
            {
                let tx = &block.transactions[k];
                assert(txs.subrange(0, k + 1).drop_last() =~= txs.subrange(0, k as int));
                assert(txs.subrange(0, k + 1).last() == txs[k as int]);
                let ghost prev = found@.map_values(|tx: &Transaction| *tx);
                proof {
                    txs.subrange(0, k as int).lemma_filter_push(*tx, involves(address@));
                    assert(txs.subrange(0, k + 1) =~= txs.subrange(0, k as int).push(*tx));
                }
                assert(txs.subrange(0, k + 1).filter(involves(address@)) == if involves(address@)(
                    *tx,
                ) {
                    txs.subrange(0, k as int).filter(involves(address@)).push(*tx)
                } else {
                    txs.subrange(0, k as int).filter(involves(address@))
                });
                if same_text(tx.sender.as_str(), address) || same_text(tx.recipient.as_str(), address) {
                    found.push(tx);
                    assert(found@.map_values(|tx: &Transaction| *tx) =~= prev.push(*tx));
                }
                assert(found@.map_values(|tx: &Transaction| *tx) =~= before + txs.subrange(
                    0,
                    k + 1,
                ).filter(involves(address@)));
                k = k + 1;
            }
            assert(txs.subrange(0, k as int) =~= txs);
            assert(blocks.subrange(0, i + 1).drop_last() =~= blocks.subrange(0, i as int));
            assert(blocks.subrange(0, i + 1).last() == blocks[i as int]);
            i = i + 1;
        }
        assert(blocks.subrange(0, i as int) =~= blocks);
        found
    }

    /// Get total coins in circulation: the sum of all balances, saturating at
    /// `u64::MAX`.
    pub fn total_supply(&self) -> (supply: u64)
        ensures
            supply as nat == if crate::chain::ledger::total_balance(self.ledger_view().accounts)
                <= u64::MAX {
                crate::chain::ledger::total_balance(self.ledger_view().accounts)
            } else {
                u64::MAX as nat
            },
    {
        self.ledger.total()
    }

    /// Whether the number of transactions in the chain fits a `usize`, the
    /// counter [`Self::total_transactions`] keeps it in.
    pub fn transaction_count_fits(&self) -> (fits: bool)
        ensures
            fits == (transaction_total(self.blocks()) <= usize::MAX),
    {
        let ghost blocks = self.chain@;
        let mut count: usize = 0;
        let mut i: usize = 0;
        while i < self.chain.len()
            invariant
                i <= blocks.len(),
                blocks == self.chain@,
                count == transaction_total(blocks.subrange(0, i as int)),
            decreases blocks.len() - i,
        {
            assert(blocks.subrange(0, i + 1).drop_last() =~= blocks.subrange(0, i as int));
            proof {
                lemma_transaction_total_prefix(blocks, i + 1);
            }
            match count.checked_add(self.chain[i].transaction_count()) {
                Some(next) => count = next,
                None => {
                    proof {
                        lemma_transaction_total_prefix(blocks, blocks.len() as int);
                        assert(blocks.subrange(0, blocks.len() as int) =~= blocks);
                    }
                    return false;
                },
            }
            i = i + 1;
        }
        assert(blocks.subrange(0, i as int) =~= blocks);
        true
    }

    /// Get the total number of transactions in the chain.
    pub fn total_transactions(&self) -> (count: usize)
        requires
            transaction_total(self.blocks()) <= usize::MAX,
        ensures
            count == transaction_total(self.blocks()),
    {
        let ghost blocks = self.chain@;
        let mut count: usize = 0;
        let mut i: usize = 0;
        while i < self.chain.len()
            invariant
                i <= blocks.len(),
                blocks == self.chain@,
                transaction_total(blocks) <= usize::MAX,
                count == transaction_total(blocks.subrange(0, i as int)),
            decreases blocks.len() - i,
        {
            assert(blocks.subrange(0, i + 1).drop_last() =~= blocks.subrange(0, i as int));
            proof {
                lemma_transaction_total_prefix(blocks, i + 1);
            }
            count = count + self.chain[i].transaction_count();
            i = i + 1;
        }
        assert(blocks.subrange(0, i as int) =~= blocks);
        count
    }

    /// The total proof-of-work a chain represents: the summed work of its
    /// blocks, saturating at `u128::MAX`.
    pub fn total_work(chain: &[Block]) -> (work: u128)
        ensures
            work == chain_work(chain@),
    {
        let mut work: u128 = 0;
        let mut i: usize = 0;
        while i < chain.len()
            invariant
                i <= chain@.len(),
                work == chain_work(chain@.subrange(0, i as int)),
            decreases chain@.len() - i,
        {
            assert(chain@.subrange(0, i + 1).drop_last() =~= chain@.subrange(0, i as int));
            let d = chain[i].difficulty;
            let exponent: u32 = if d > 31 {
                127
            } else {
                (4 * d) as u32
            };
            work = work.saturating_add(1u128 << exponent);
            i = i + 1;
        }
        assert(chain@.subrange(0, i as int) =~= chain@);
        work
    }

    /// Whether `new_chain` replaces ours, with `now` as the reading of our own
    /// clock: the ledger it produces, or why it is refused.
    ///
    /// It must share our genesis block, every later block must be one block
    /// acceptance takes on top of the blocks before it, and it must carry
    /// strictly more work than ours.
    pub open spec fn spec_replace(&self, new_chain: Seq<Block>, now: i64) -> Result<
        LedgerView,
        ChainFault,
    > {
        if self.blocks().len() == 0 {
            Err(ChainFault::EmptyChain)
        } else if new_chain.len() == 0 {
            Err(ChainFault::InvalidChain("Incoming chain is empty"@))
        } else if new_chain[0].hash@ != self.blocks()[0].hash@ {
            Err(ChainFault::InvalidChain("Incoming chain has a different genesis block"@))
        } else {
            match replay(
                new_chain,
                self.base_difficulty(),
                self.reward(),
                now,
                new_chain.len() as int,
            ) {
                Err(fault) => Err(fault),
                Ok(ledger) => if chain_work(new_chain) <= chain_work(self.blocks()) {
                    Err(
                        ChainFault::InvalidChain(
                            "New chain does not carry more work than the current chain"@,
                        ),
                    )
                } else {
                    Ok(ledger)
                },
            }
        }
    }

    /// What replacing the chain with `new_chain` at clock reading `now` does:
    /// on success the chain is `new_chain`, the ledger is the one it produces,
    /// and the mempool is what re-admitting the old mempool and then our
    /// orphaned payments keeps; on failure nothing changes.
    pub open spec fn spec_replace_outcome(
        &self,
        new_chain: Seq<Block>,
        now: i64,
        result: Result<(), BlockchainError>,
        after: &Self,
    ) -> bool {
        match self.spec_replace(new_chain, now) {
            Ok(ledger) => {
                &&& result is Ok
                &&& after.blocks() == new_chain
                &&& after.ledger_view() == ledger
                &&& after.mempool() == readmit(
                    ledger,
                    self.mempool() + orphans(self.blocks().drop_first(), ledger.spent),
                )
                &&& after.base_difficulty() == self.base_difficulty()
                &&& after.reward() == self.reward()
            },
            Err(fault) => result matches Err(e) && e@ == fault && *after == *self,
        }
    }

    /// Offer `candidates` to an empty mempool one by one, dropping those it
    /// refuses.
    fn readmit_all(&mut self, candidates: &Vec<Transaction>)
        requires
            old(self).mempool().len() == 0,
        ensures
            final(self).mempool() == readmit(old(self).ledger_view(), candidates@),
            final(self).same_chain_state(old(self)),
    {
        let ghost ledger = self.ledger_view();
        let mut i: usize = 0;
        assert(candidates@.subrange(0, 0) =~= Seq::<Transaction>::empty());
        while i < candidates.len()
            invariant
                i <= candidates@.len(),
                ledger == old(self).ledger_view(),
                self.same_chain_state(old(self)),
                self.mempool() == readmit(ledger, candidates@.subrange(0, i as int)),
                forall|a: Seq<char>| #[trigger] pending_spent(self.mempool(), a) <= balance_of(ledger.accounts, a),
            decreases candidates@.len() - i,
        {
            let tx = candidates[i].clone();
            let ghost kept = self.mempool();
            assert(candidates@.subrange(0, i + 1).drop_last() =~= candidates@.subrange(0, i as int));
            assert(pending_spent(kept, tx.sender@) <= balance_of(ledger.accounts, tx.sender@));
            let admitted = self.add_transaction(tx);
            proof {
                if admitted is Ok {
                    assert forall|a: Seq<char>| #[trigger] pending_spent(self.mempool(), a) <= balance_of(ledger.accounts, a) by {
                        lemma_admission_keeps_mempool_affordable(ledger, kept, candidates@[i as int], a);
                    }
                }
            }
            i = i + 1;
        }
        assert(candidates@.subrange(0, i as int) =~= candidates@);
    }

    /// The payments of our blocks after the genesis block that `ledger` does
    /// not confirm.
    fn orphaned_payments(&self, ledger: &Ledger) -> (orphaned: Vec<Transaction>)
        requires
            self.blocks().len() > 0,
        ensures
            orphaned@ == orphans(self.blocks().drop_first(), ledger@.spent),
    {
        let ghost blocks = self.chain@.drop_first();
        let ghost keep = orphaned_by(ledger@.spent);
        let mut orphaned: Vec<Transaction> = Vec::new();
        let mut i: usize = 1;
        assert(blocks.subrange(0, 0) =~= Seq::<Block>::empty());
        while i < self.chain.len()
            invariant
                1 <= i <= self.chain@.len(),
                blocks == self.chain@.drop_first(),
                keep == orphaned_by(ledger@.spent),
                orphaned@ == orphans(blocks.subrange(0, i - 1), ledger@.spent),
            decreases self.chain@.len() - i,
        {
            let block = &self.chain[i];
            let ghost before = orphaned@;
            let ghost txs = block.transactions@;
            let mut k: usize = 0;
            assert(txs.subrange(0, 0).filter(keep) =~= Seq::<Transaction>::empty());
            assert(orphaned@ =~= before + txs.subrange(0, 0).filter(keep));
            while k < block.transactions.len()
                invariant
                    k <= txs.len(),
                    txs == block.transactions@,
                    keep == orphaned_by(ledger@.spent),
                    orphaned@ == before + txs.subrange(0, k as int).filter(keep),
                decreases txs.len() - k,
            {
                let tx = &block.transactions[k];
                proof {
                    txs.subrange(0, k as int).lemma_filter_push(*tx, keep);
                    assert(txs.subrange(0, k + 1) =~= txs.subrange(0, k as int).push(*tx));
                }
                if !tx.is_coinbase() && !ledger.is_spent(tx.id.as_str()) {
                    orphaned.push(tx.clone());
                }
                assert(orphaned@ =~= before + txs.subrange(0, k + 1).filter(keep));
                k = k + 1;
            }
            assert(txs.subrange(0, k as int) =~= txs);
            assert(blocks.subrange(0, i as int).drop_last() =~= blocks.subrange(0, i - 1));
            assert(blocks.subrange(0, i as int).last() == self.chain@[i as int]);
            i = i + 1;
        }
        assert(blocks.subrange(0, i - 1) =~= blocks);
        orphaned
    }

    /// Replace the chain with one that carries strictly more work, with `now`
    /// as the reading of our own clock.
    ///
    /// The candidate must be rooted in our genesis block and every later
    /// block must pass block acceptance on top of the blocks before it. On
    /// success our mempool, followed by the payments of our blocks that the
    /// new chain does not confirm, goes back through mempool admission.
    #[verifier::spinoff_prover]
    pub fn replace_chain_at(&mut self, new_chain: Vec<Block>, now: i64) -> (result: Result<(), BlockchainError>)
        ensures
            old(self).spec_replace_outcome(new_chain@, now, result, final(self)),
    {
        if self.chain.len() == 0 {
            return Err(BlockchainError::EmptyChain);
        }
        if new_chain.len() == 0 {
            return Err(BlockchainError::InvalidChain(String::from_str("Incoming chain is empty")));
        }
        if new_chain[0].hash != self.chain[0].hash {
            return Err(
                BlockchainError::InvalidChain(
                    String::from_str("Incoming chain has a different genesis block"),
                ),
            );
        }
        let chain = new_chain.as_slice();
        let genesis = &chain[0..1];
        assert(genesis@ == chain@.subrange(0, 1));
        let mut ledger = match Self::index_chain(genesis) {
            Ok(ledger) => ledger,
            Err(e) => {
                proof {
                    lemma_replay_refusal_stays(chain@, self.base_difficulty(), self.reward(), now, 1);
                }
                return Err(e);
            },
        };
        let mut i: usize = 1;
        while i < chain.len()
            invariant
                1 <= i <= chain@.len(),
                chain@ == new_chain@,
                *self == *old(self),
                self.blocks().len() > 0,
                new_chain@[0].hash@ == self.blocks()[0].hash@,
                replay(chain@, self.base_difficulty(), self.reward(), now, i as int) == Ok::<
                    LedgerView,
                    ChainFault,
                >(ledger@),
            decreases chain@.len() - i,
        {
            let prefix = &chain[0..i];
            assert(prefix@ == chain@.subrange(0, i as int));
            let expected = Self::required_difficulty(prefix, self.difficulty);
            match check_block_structure(&chain[i], prefix, expected, self.mining_reward, now) {
                Ok(()) => {},
                Err(message) => {
                    proof {
                        lemma_replay_refusal_stays(chain@, self.base_difficulty(), self.reward(), now, i + 1);
                    }
                    return Err(BlockchainError::InvalidBlock(message));
                },
            }
            ledger = match ledger.apply_block(&chain[i]) {
                Ok(next) => next,
                Err(e) => {
                    proof {
                        lemma_replay_refusal_stays(chain@, self.base_difficulty(), self.reward(), now, i + 1);
                    }
                    return Err(e);
                },
            };
            i = i + 1;
        }
        if Self::total_work(chain) <= Self::total_work(self.chain.as_slice()) {
            return Err(
                BlockchainError::InvalidChain(
                    String::from_str("New chain does not carry more work than the current chain"),
                ),
            );
        }
        let orphaned = self.orphaned_payments(&ledger);
        let mut candidates: Vec<Transaction> = Vec::new();
        let mut k: usize = 0;
        while k < self.pending_transactions.len()
            invariant
                k <= self.pending_transactions@.len(),
                candidates@ == self.pending_transactions@.subrange(0, k as int),
            decreases self.pending_transactions@.len() - k,
        {
            candidates.push(self.pending_transactions[k].clone());
            k = k + 1;
            assert(candidates@ =~= self.pending_transactions@.subrange(0, k as int));
        }
        assert(candidates@ =~= self.pending_transactions@);
        let mut o: usize = 0;
        let ghost pending = candidates@;
        while o < orphaned.len()
            invariant
                o <= orphaned@.len(),
                candidates@ == pending + orphaned@.subrange(0, o as int),
            decreases orphaned@.len() - o,
        {
            candidates.push(orphaned[o].clone());
            o = o + 1;
            assert(candidates@ =~= pending + orphaned@.subrange(0, o as int));
        }
        assert(orphaned@.subrange(0, o as int) =~= orphaned@);
        self.chain = new_chain;
        self.ledger = ledger;
        self.pending_transactions = Vec::new();
        self.readmit_all(&candidates);
        Ok(())
    }

    /// Replace the chain with one that carries strictly more work, checked
    /// against our own clock.
    ///
    /// The clock is read once; the outcome is what `replace_chain_at` gives
    /// for that reading.
    pub fn replace_chain(&mut self, new_chain: Vec<Block>) -> (result: Result<(), BlockchainError>)
        ensures
            exists|now: i64| #[trigger] old(self).spec_replace_outcome(new_chain@, now, result, final(self)),
    {
        let now = crate::clock::now().secs;
        self.replace_chain_at(new_chain, now)
    }

    /// `b` is a block mined for `miner` on top of this chain: the next index,
    /// a coinbase paying `miner` the mining reward followed by the mempool, the
    /// tip's hash, a timestamp no earlier than one second after the tip, the
    /// difficulty the chain demands, and the first nonce from zero whose hash
    /// carries that many zeros (or the last nonce, when none does).
    pub open spec fn spec_mined_for(&self, miner: Seq<char>, b: Block) -> bool {
        let tip = self.blocks().last();
        let d = spec_required_difficulty(self.blocks(), self.base_difficulty());
        let coinbase = b.transactions@[0];
        &&& b.index == self.blocks().len()
        &&& b.transactions@.len() == self.mempool().len() + 1
        &&& coinbase.is_coinbase_tx
        &&& coinbase.sender@ == "COINBASE"@
        &&& coinbase.recipient@ == miner
        &&& coinbase.amount == self.reward()
        &&& b.transactions@.drop_first() == self.mempool()
        &&& b.previous_hash@ == tip.hash@
        &&& b.merkle_root@ == merkle_root(tx_hashes(b.transactions@))
        &&& !earlier(b.timestamp, one_second_after(tip.timestamp))
        &&& b.difficulty == d
        &&& b.hash@ == spec_block_hash(b)
        &&& (has_leading_zeros(b.hash@, d as nat) || b.nonce == u64::MAX)
        &&& forall|n: u64|
            n < b.nonce ==> !has_leading_zeros(
                #[trigger] spec_block_hash(with_work(b, d, n)),
                d as nat,
            )
    }

    /// Mine the pending transactions into a new block paying `miner_address`
    /// the mining reward, and add it to the chain, reading the clock for the
    /// block's timestamp and for block acceptance.
    ///
    /// The mempool is only drained by a successful insert: a block that turns
    /// out to be unacceptable leaves the chain and the mempool as they were.
    pub fn mine_pending_transactions(&mut self, miner_address: &str) -> (result: Result<
        Block,
        BlockchainError,
    >)
        ensures
            old(self).blocks().len() == 0 ==> (result matches Err(e) && e@ == ChainFault::EmptyChain
                && *final(self) == *old(self)),
            old(self).blocks().len() > 0 ==> exists|stamp: Timestamp, now: i64|
                #[trigger] old(self).spec_mining_outcome(miner_address@, stamp, now, result, final(self)),
    {
        let stamp = crate::clock::now();
        let now = stamp.secs;
        self.mine_pending_transactions_at(miner_address, stamp, now)
    }

    /// The timestamp a block mined at clock reading `stamp` gets: the
    /// reading, raised to one second after the tip when it is earlier.
    pub open spec fn spec_mining_stamp(&self, stamp: Timestamp) -> Timestamp {
        let floor = one_second_after(self.blocks().last().timestamp);
        if earlier(stamp, floor) {
            floor
        } else {
            stamp
        }
    }

    /// What mining for `miner` at clock reading `stamp`, accepting with `now`,
    /// does: the block is mined for `miner` on top of this chain and stamped
    /// `spec_mining_stamp(stamp)`; when block acceptance takes it, it is the
    /// new tip and is returned, otherwise the chain is unchanged and the
    /// reason is returned.
    pub open spec fn spec_mining_outcome(
        &self,
        miner: Seq<char>,
        stamp: Timestamp,
        now: i64,
        result: Result<Block, BlockchainError>,
        after: &Self,
    ) -> bool {
        exists|b: Block|
            #![trigger self.spec_validate(b, now)]
            self.spec_mined_for(miner, b) && b.timestamp == self.spec_mining_stamp(stamp)
                && match self.spec_validate(b, now) {
                Ok(ledger) => result matches Ok(r) && same_block(r, b) && self.spec_appended(
                    b,
                    ledger,
                    after,
                ),
                Err(fault) => result matches Err(e) && e@ == fault && *after == *self,
            }
    }

    /// Mine the pending transactions into a new block paying `miner_address`,
    /// stamped at clock reading `stamp` (raised to one second after the tip
    /// when earlier), and add it to the chain with `now` as the reading of our
    /// own clock.
    pub fn mine_pending_transactions_at(
        &mut self,
        miner_address: &str,
        stamp: Timestamp,
        now: i64,
    ) -> (result: Result<Block, BlockchainError>)
        ensures
            old(self).blocks().len() == 0 ==> (result matches Err(e) && e@ == ChainFault::EmptyChain
                && *final(self) == *old(self)),
            old(self).blocks().len() > 0 ==> old(self).spec_mining_outcome(
                miner_address@,
                stamp,
                now,
                result,
                final(self),
            ),
    {
        let coinbase = Transaction::coinbase(String::from_str(miner_address), self.mining_reward);
        let mut transactions: Vec<Transaction> = Vec::new();
        transactions.push(coinbase);
        let mut k: usize = 0;
        while k < self.pending_transactions.len()
            invariant
                k <= self.pending_transactions@.len(),
                transactions@.len() == k + 1,
                transactions@[0] == coinbase,
                transactions@.drop_first() == self.pending_transactions@.subrange(0, k as int),
            decreases self.pending_transactions@.len() - k,
        {
            transactions.push(self.pending_transactions[k].clone());
            k = k + 1;
            assert(transactions@.drop_first() =~= self.pending_transactions@.subrange(0, k as int));
        }
        assert(transactions@.drop_first() =~= self.pending_transactions@);
        if self.chain.len() == 0 {
            return Err(BlockchainError::EmptyChain);
        }
        let latest = &self.chain[self.chain.len() - 1];
        let previous_hash = latest.hash.clone();
        let min_timestamp = Timestamp {
            secs: if latest.timestamp.secs < i64::MAX {
                latest.timestamp.secs + 1
            } else {
                latest.timestamp.secs
            },
            nanos: latest.timestamp.nanos,
        };
        let timestamp = if stamp.secs < min_timestamp.secs || (stamp.secs == min_timestamp.secs
            && stamp.nanos < min_timestamp.nanos) {
            min_timestamp
        } else {
            stamp
        };
        let mut block = Block::new_at(self.chain.len() as u64, transactions, previous_hash, timestamp);
        let difficulty = self.next_difficulty();
        let ghost unmined = block;
        block.mine(difficulty);
        proof {
            assert forall|n: u64| n < block.nonce implies !has_leading_zeros(
                #[trigger] spec_block_hash(with_work(block, difficulty, n)),
                difficulty as nat,
            ) by {
                assert(header_preimage(with_work(block, difficulty, n)) =~= header_preimage(
                    with_work(unmined, difficulty, n),
                ));
                assert(!has_leading_zeros(
                    spec_block_hash(with_work(unmined, difficulty, n)),
                    difficulty as nat,
                ));
            }
            assert(self.spec_mined_for(miner_address@, block));
        }
        let copy = block.clone();
        let ghost before = *self;
        let ghost mined = block;
        let added = self.add_block_at(block, now);
        proof {
            assert(before.spec_add_outcome(mined, now, added, self));
        }
        match added {
            Ok(()) => Ok(copy),
            Err(e) => Err(e),
        }
    }

    /// What loading a stored chain gives, with `now` as the reading of our own
    /// clock: the chain must be valid from the network's genesis difficulty,
    /// its ledger is rebuilt by replay, and the stored mempool goes back
    /// through mempool admission.
    pub open spec fn spec_loaded(
        chain: Seq<Block>,
        pending: Seq<Transaction>,
        mining_reward: u64,
        now: i64,
        result: Result<Blockchain, BlockchainError>,
    ) -> bool {
        match spec_chain_valid(chain, DEFAULT_DIFFICULTY, mining_reward, now) {
            Err(fault) => result matches Err(e) && e@ == fault,
            Ok(()) => match index_blocks(chain) {
                Err(fault) => result matches Err(e) && e@ == fault,
                Ok(ledger) => {
                    &&& result matches Ok(bc)
                    &&& bc.blocks() == chain
                    &&& bc.base_difficulty() == DEFAULT_DIFFICULTY
                    &&& bc.reward() == mining_reward
                    &&& bc.ledger_view() == ledger
                    &&& bc.mempool() == readmit(ledger, pending)
                },
            },
        }
    }

    /// Build a blockchain from stored parts, with `now` as the reading of our
    /// own clock.
    ///
    /// The parts are untrusted: the chain is validated from the network's
    /// genesis difficulty, the ledger is recomputed from the blocks rather than
    /// taken from storage, and stored mempool entries go back through the
    /// normal admission checks.
    pub fn from_parts_at(
        chain: Vec<Block>,
        pending_transactions: Vec<Transaction>,
        mining_reward: u64,
        now: i64,
    ) -> (result: Result<Blockchain, BlockchainError>)
        ensures
            Self::spec_loaded(chain@, pending_transactions@, mining_reward, now, result),
    {
        let mut blockchain = Blockchain {
            chain,
            difficulty: genesis_difficulty(),
            pending_transactions: Vec::new(),
            mining_reward,
            ledger: Ledger::new(),
        };
        match blockchain.is_valid_at(now) {
            Ok(()) => {},
            Err(e) => {
                return Err(e);
            },
        }
        let ledger = match Self::index_chain(blockchain.chain.as_slice()) {
            Ok(ledger) => ledger,
            Err(e) => {
                return Err(e);
            },
        };
        blockchain.ledger = ledger;
        blockchain.readmit_all(&pending_transactions);
        Ok(blockchain)
    }

    /// Build a blockchain from stored parts, checked against our own clock.
    ///
    /// The clock is read once; the outcome is what `from_parts_at` gives for
    /// that reading.
    pub fn from_parts(
        chain: Vec<Block>,
        pending_transactions: Vec<Transaction>,
        mining_reward: u64,
    ) -> (result: Result<Blockchain, BlockchainError>)
        ensures
            exists|now: i64|
                #[trigger] Self::spec_loaded(chain@, pending_transactions@, mining_reward, now, result),
    {
        let now = crate::clock::now().secs;
        Self::from_parts_at(chain, pending_transactions, mining_reward, now)
    }

    /// The difficulty the next block mined on this chain must carry.
    pub fn next_difficulty(&self) -> (d: usize)
        ensures
            d == spec_required_difficulty(self.blocks(), self.base_difficulty()),
    {
        Self::required_difficulty(self.chain.as_slice(), self.difficulty)
    }
}

impl Default for Blockchain {
    fn default() -> (blockchain: Self)
        ensures
            blockchain.blocks().len() == 1,
            is_genesis_block(blockchain.blocks()[0]),
            blockchain.base_difficulty() == DEFAULT_DIFFICULTY,
            blockchain.mempool().len() == 0,
            blockchain.reward() == MINING_REWARD,
            index_blocks(blockchain.blocks()) == Ok::<LedgerView, ChainFault>(blockchain.ledger_view()),
    {
        Self::new()
    }
}

/// Once a block of the chain is found not to fit, it stays the first such
/// block however far the search goes.
proof fn lemma_first_fault_stays(
    chain: Seq<Block>,
    difficulty: usize,
    reward: u64,
    now: i64,
    k: int,
)
    requires
        2 <= k <= chain.len(),
        first_structure_fault(chain, difficulty, reward, now, k) is Some,
    ensures
        first_structure_fault(chain, difficulty, reward, now, chain.len() as int)
            == first_structure_fault(chain, difficulty, reward, now, k),
    decreases chain.len() - k,
{
    if k < chain.len() {
        lemma_first_fault_stays(chain, difficulty, reward, now, k + 1);
    }
}

/// A prefix of a chain holds no more transactions than the whole.
proof fn lemma_transaction_total_prefix(blocks: Seq<Block>, i: int)
    requires
        0 <= i <= blocks.len(),
    ensures
        transaction_total(blocks.subrange(0, i)) <= transaction_total(blocks),
    decreases blocks.len() - i,
{
    if i < blocks.len() {
        lemma_transaction_total_prefix(blocks, i + 1);
        assert(blocks.subrange(0, i + 1).drop_last() =~= blocks.subrange(0, i));
    } else {
        assert(blocks.subrange(0, i) =~= blocks);
    }
}

/// Once a candidate block is refused, the replay of the whole candidate ends
/// in that refusal.
proof fn lemma_replay_refusal_stays(
    chain: Seq<Block>,
    difficulty: usize,
    reward: u64,
    now: i64,
    k: int,
)
    requires
        1 <= k <= chain.len(),
        replay(chain, difficulty, reward, now, k) is Err,
    ensures
        replay(chain, difficulty, reward, now, chain.len() as int) == replay(
            chain,
            difficulty,
            reward,
            now,
            k,
        ),
    decreases chain.len() - k,
{
    if k < chain.len() {
        lemma_replay_refusal_stays(chain, difficulty, reward, now, k + 1);
    }
}

/// A sender can never get more than it holds past the mempool: if what an
/// address has pending is covered by its balance, it still is after the
/// mempool admits another transaction.
pub proof fn lemma_admission_keeps_mempool_affordable(
    ledger: LedgerView,
    pending: Seq<Transaction>,
    tx: Transaction,
    address: Seq<char>,
)
    requires
        spec_admit(ledger, pending, tx) is Ok,
        pending_spent(pending, address) <= balance_of(ledger.accounts, address),
    ensures
        pending_spent(pending.push(tx), address) <= balance_of(ledger.accounts, address),
{
    assert(pending.push(tx).drop_last() =~= pending);
}

/// Whether a block fits on a prefix of the chain looks at that prefix only.
proof fn lemma_structure_fault_reads_only_the_prefix(
    a: Seq<Block>,
    b: Seq<Block>,
    difficulty: usize,
    reward: u64,
    now: i64,
    k: int,
)
    requires
        0 <= k <= a.len(),
        k <= b.len(),
        a.subrange(0, k) == b.subrange(0, k),
    ensures
        first_structure_fault(a, difficulty, reward, now, k) == first_structure_fault(
            b,
            difficulty,
            reward,
            now,
            k,
        ),
    decreases k,
{
    if k > 1 {
        assert(a.subrange(0, k - 1) =~= a.subrange(0, k).subrange(0, k - 1));
        assert(b.subrange(0, k - 1) =~= b.subrange(0, k).subrange(0, k - 1));
        assert(a[k - 1] == a.subrange(0, k)[k - 1]);
        assert(b[k - 1] == b.subrange(0, k)[k - 1]);
        lemma_structure_fault_reads_only_the_prefix(a, b, difficulty, reward, now, k - 1);
    }
}

/// Adding a candidate's blocks one by one and validating the candidate as a
/// whole agree: the replay of its first `upto` blocks succeeds exactly when
/// none of them breaks a structural rule and they index, and then it gives
/// the ledger indexing gives.
pub proof fn lemma_replay_agrees_with_validation(
    chain: Seq<Block>,
    difficulty: usize,
    reward: u64,
    now: i64,
    upto: int,
)
    requires
        1 <= upto <= chain.len(),
    ensures
        (replay(chain, difficulty, reward, now, upto) is Ok) == (first_structure_fault(
            chain,
            difficulty,
            reward,
            now,
            upto,
        ) is None && index_blocks(chain.subrange(0, upto)) is Ok),
        replay(chain, difficulty, reward, now, upto) is Ok ==> replay(
            chain,
            difficulty,
            reward,
            now,
            upto,
        ) == index_blocks(chain.subrange(0, upto)),
    decreases upto,
{
    if upto > 1 {
        lemma_replay_agrees_with_validation(chain, difficulty, reward, now, upto - 1);
        let sub = chain.subrange(0, upto);
        assert(sub.drop_last() =~= chain.subrange(0, upto - 1));
        assert(sub.last() == chain[upto - 1]);
    }
}

/// Chain replacement adopts a candidate rooted in our genesis block exactly
/// when every block after the genesis block passes block acceptance on the
/// blocks before it, the candidate replays without a refused transaction,
/// and it carries strictly more work than ours; the ledger it adopts is the
/// one indexing the candidate gives.
pub proof fn lemma_replacement_is_validation_plus_work(bc: Blockchain, new_chain: Seq<Block>, now: i64)
    requires
        bc.blocks().len() > 0,
        new_chain.len() > 0,
        new_chain[0].hash@ == bc.blocks()[0].hash@,
    ensures
        (bc.spec_replace(new_chain, now) is Ok) == (first_structure_fault(
            new_chain,
            bc.base_difficulty(),
            bc.reward(),
            now,
            new_chain.len() as int,
        ) is None && index_blocks(new_chain) is Ok && chain_work(new_chain) > chain_work(
            bc.blocks(),
        )),
        bc.spec_replace(new_chain, now) is Ok ==> bc.spec_replace(new_chain, now) == index_blocks(
            new_chain,
        ),
{
    lemma_replay_agrees_with_validation(
        new_chain,
        bc.base_difficulty(),
        bc.reward(),
        now,
        new_chain.len() as int,
    );
    assert(new_chain.subrange(0, new_chain.len() as int) =~= new_chain);
}

/// Adding a block keeps the ledger the one its chain replays to.
pub proof fn lemma_adding_a_block_keeps_the_ledger_derived(
    before: Blockchain,
    block: Block,
    now: i64,
    after: Blockchain,
)
    requires
        before.ledger_derived(),
        before.spec_validate(block, now) is Ok,
        before.spec_appended(block, before.spec_validate(block, now)->Ok_0, &after),
    ensures
        after.ledger_derived(),
{
    assert(after.blocks().drop_last() =~= before.blocks());
}

/// A valid chain stays valid when block acceptance adds a block to it (with
/// the same clock reading for both).
pub proof fn lemma_a_valid_chain_stays_valid(before: Blockchain, block: Block, now: i64, after: Blockchain)
    requires
        before.ledger_derived(),
        before.spec_is_valid(now) is Ok,
        before.spec_validate(block, now) is Ok,
        before.spec_appended(block, before.spec_validate(block, now)->Ok_0, &after),
    ensures
        after.spec_is_valid(now) is Ok,
{
    let old_chain = before.blocks();
    let new_chain = after.blocks();
    let n = old_chain.len() as int;
    assert(new_chain.subrange(0, n) =~= old_chain);
    assert(old_chain.subrange(0, n) =~= old_chain);
    lemma_structure_fault_reads_only_the_prefix(
        old_chain,
        new_chain,
        before.base_difficulty(),
        before.reward(),
        now,
        n,
    );
    assert(new_chain[n] == block);
    assert(new_chain[0] == old_chain[0]);
    lemma_adding_a_block_keeps_the_ledger_derived(before, block, now, after);
}

/// Replacing the chain keeps the ledger the one the new chain replays to.
pub proof fn lemma_replacement_keeps_the_ledger_derived(
    before: Blockchain,
    new_chain: Seq<Block>,
    now: i64,
    after: Blockchain,
)
    requires
        before.spec_replace(new_chain, now) is Ok,
        after.blocks() == new_chain,
        after.ledger_view() == before.spec_replace(new_chain, now)->Ok_0,
    ensures
        after.ledger_derived(),
{
    lemma_replay_agrees_with_validation(
        new_chain,
        before.base_difficulty(),
        before.reward(),
        now,
        new_chain.len() as int,
    );
    assert(new_chain.subrange(0, new_chain.len() as int) =~= new_chain);
}

/// Dropping confirmed transactions never raises what an address has pending.
proof fn lemma_unconfirmed_spends_less(
    pending: Seq<Transaction>,
    confirmed: Seq<Seq<char>>,
    address: Seq<char>,
)
    ensures
        pending_spent(unconfirmed(pending, confirmed), address) <= pending_spent(pending, address),
    decreases pending.len(),
{
    if pending.len() > 0 {
        lemma_unconfirmed_spends_less(pending.drop_last(), confirmed, address);
        let kept = unconfirmed(pending.drop_last(), confirmed);
        assert(kept.push(pending.last()).drop_last() =~= kept);
    }
}

/// Mempool admission keeps what every address has pending within a `u64`.
pub proof fn lemma_admission_keeps_mempool_fitting(
    ledger: LedgerView,
    pending: Seq<Transaction>,
    tx: Transaction,
    address: Seq<char>,
)
    requires
        spec_admit(ledger, pending, tx) is Ok,
        pending_spent(pending, address) <= u64::MAX,
    ensures
        pending_spent(pending.push(tx), address) <= u64::MAX,
{
    assert(pending.push(tx).drop_last() =~= pending);
}

/// Re-admitting transactions into an empty mempool leaves every address
/// with no more pending than its balance.
pub proof fn lemma_readmitted_mempool_is_affordable(
    ledger: LedgerView,
    candidates: Seq<Transaction>,
    address: Seq<char>,
)
    ensures
        pending_spent(readmit(ledger, candidates), address) <= balance_of(ledger.accounts, address),
    decreases candidates.len(),
{
    if candidates.len() > 0 {
        lemma_readmitted_mempool_is_affordable(ledger, candidates.drop_last(), address);
        let kept = readmit(ledger, candidates.drop_last());
        if spec_admit(ledger, kept, candidates.last()) is Ok {
            lemma_admission_keeps_mempool_affordable(ledger, kept, candidates.last(), address);
        }
    }
}

/// Block acceptance keeps what every address has pending within a `u64`.
pub proof fn lemma_appending_keeps_mempool_fitting(
    before: Blockchain,
    block: Block,
    ledger: LedgerView,
    after: Blockchain,
)
    requires
        before.mempool_fits(),
        before.spec_appended(block, ledger, &after),
    ensures
        after.mempool_fits(),
{
    assert forall|a: Seq<char>| #[trigger] pending_spent(after.mempool(), a) <= u64::MAX by {
        lemma_unconfirmed_spends_less(before.mempool(), tx_ids(block.transactions@), a);
        assert(pending_spent(before.mempool(), a) <= u64::MAX);
    }
}

/// Chain replacement leaves a mempool that fits a `u64` for every address.
pub proof fn lemma_replacement_keeps_mempool_fitting(
    before: Blockchain,
    new_chain: Seq<Block>,
    now: i64,
    result: Result<(), BlockchainError>,
    after: Blockchain,
)
    requires
        before.mempool_fits(),
        before.spec_replace_outcome(new_chain, now, result, &after),
    ensures
        after.mempool_fits(),
{
    if before.spec_replace(new_chain, now) is Ok {
        let ledger = before.spec_replace(new_chain, now)->Ok_0;
        let candidates = before.mempool() + orphans(before.blocks().drop_first(), ledger.spent);
        assert forall|a: Seq<char>| #[trigger] pending_spent(after.mempool(), a) <= u64::MAX by {
            lemma_readmitted_mempool_is_affordable(ledger, candidates, a);
        }
    }
}

/// A chain holding only the genesis block is valid, whatever the clock reads.
pub proof fn lemma_a_new_chain_is_valid(bc: Blockchain, now: i64)
    requires
        bc.blocks().len() == 1,
        is_genesis_block(bc.blocks()[0]),
    ensures
        bc.spec_is_valid(now) is Ok,
{
    let genesis = bc.blocks()[0];
    lemma_genesis_is_deterministic(genesis, choose|b: Block| is_genesis_block(b));
    assert(crate::chain::transaction::spec_tx_verifies(genesis.transactions@[0]));
    assert(crate::chain::block::all_verify(genesis.transactions@));
    lemma_genesis_indexes(bc.blocks());
}

/// Once a block of the chain is refused, the whole chain is refused with the
/// same fault.
proof fn lemma_index_blocks_stops_at_refusal(blocks: Seq<Block>, i: int)
    requires
        0 <= i < blocks.len(),
        index_blocks(blocks.subrange(0, i + 1)) is Err,
    ensures
        index_blocks(blocks) == index_blocks(blocks.subrange(0, i + 1)),
    decreases blocks.len() - i,
{
    if i + 1 < blocks.len() {
        assert(blocks.subrange(0, i + 2).drop_last() =~= blocks.subrange(0, i + 1));
        lemma_index_blocks_stops_at_refusal(blocks, i + 1);
    } else {
        assert(blocks.subrange(0, i + 1) =~= blocks);
    }
}

/// A lone genesis block indexes without error.
proof fn lemma_genesis_indexes(blocks: Seq<Block>)
    requires
        blocks.len() == 1,
        is_genesis_block(blocks[0]),
    ensures
        index_blocks(blocks) is Ok,
{
    let txs = blocks[0].transactions@;
    assert(blocks.drop_last() =~= Seq::<Block>::empty());
    assert(txs.drop_last() =~= Seq::<Transaction>::empty());
    assert(!empty_ledger().spent.contains(txs[0].id@));
    assert(apply_txs(empty_ledger(), txs.drop_last()) == Ok::<LedgerView, ChainFault>(
        empty_ledger(),
    ));
    assert(txs.last() == txs[0]);
    assert(balance_of(empty_ledger().accounts, txs[0].recipient@) == 0);
    assert(apply_tx(empty_ledger(), txs[0]) is Ok);
    assert(apply_txs(empty_ledger(), txs) is Ok);
    assert(index_blocks(blocks.drop_last()) == Ok::<LedgerView, ChainFault>(empty_ledger()));
    assert(blocks.last() == blocks[0]);
}

/// Every difficulty a block can be asked for lies in
/// `MIN_DIFFICULTY..=MAX_DIFFICULTY`.
pub proof fn lemma_required_difficulty_in_range(chain: Seq<Block>, base: usize)
    ensures
        MIN_DIFFICULTY <= spec_required_difficulty(chain, base) <= MAX_DIFFICULTY,
{
}

/// Between retarget boundaries a block inherits its parent's difficulty.
pub proof fn lemma_difficulty_inherited_between_retargets(chain: Seq<Block>, base: usize)
    requires
        chain.len() >= 2,
        chain.len() % (RETARGET_INTERVAL as nat) != 0,
        MIN_DIFFICULTY <= chain.last().difficulty <= MAX_DIFFICULTY,
    ensures
        spec_required_difficulty(chain, base) == chain.last().difficulty,
{
}

/// One retarget moves the difficulty by at most one step from the parent's.
pub proof fn lemma_retarget_moves_at_most_one_step(chain: Seq<Block>, base: usize)
    requires
        chain.len() >= 2,
        MIN_DIFFICULTY <= chain.last().difficulty <= MAX_DIFFICULTY,
    ensures
        chain.last().difficulty - 1 <= spec_required_difficulty(chain, base)
            <= chain.last().difficulty + 1,
{
}

/// The mempool holds no coinbase transaction.
pub open spec fn no_pending_coinbase(pending: Seq<Transaction>) -> bool {
    forall|i: int| 0 <= i < pending.len() ==> !(#[trigger] pending[i]).is_coinbase_tx
}

/// No mempool operation lets a coinbase in: admission refuses one, dropping
/// confirmed transactions and re-admitting candidates only keep what
/// admission allows.
pub proof fn lemma_mempool_stays_coinbase_free(
    ledger: LedgerView,
    pending: Seq<Transaction>,
    tx: Transaction,
    confirmed: Seq<Seq<char>>,
    candidates: Seq<Transaction>,
)
    requires
        no_pending_coinbase(pending),
    ensures
        spec_admit(ledger, pending, tx) is Ok ==> no_pending_coinbase(pending.push(tx)),
        no_pending_coinbase(unconfirmed(pending, confirmed)),
        no_pending_coinbase(readmit(ledger, candidates)),
    decreases pending.len() + candidates.len(),
{
    if pending.len() > 0 {
        assert(no_pending_coinbase(pending.drop_last())) by {
            assert forall|i: int| 0 <= i < pending.drop_last().len() implies !(
            #[trigger] pending.drop_last()[i]).is_coinbase_tx by {
                assert(pending.drop_last()[i] == pending[i]);
            }
        }
        lemma_mempool_stays_coinbase_free(ledger, pending.drop_last(), tx, confirmed, Seq::empty());
        let kept = unconfirmed(pending.drop_last(), confirmed);
        assert(!pending[pending.len() - 1].is_coinbase_tx);
        assert forall|i: int| 0 <= i < kept.push(pending.last()).len() implies !(
        #[trigger] kept.push(pending.last())[i]).is_coinbase_tx by {
            if i < kept.len() {
                assert(kept.push(pending.last())[i] == kept[i]);
            }
        }
    }
    if candidates.len() > 0 {
        lemma_mempool_stays_coinbase_free(ledger, pending, tx, confirmed, candidates.drop_last());
        let kept = readmit(ledger, candidates.drop_last());
        if spec_admit(ledger, kept, candidates.last()) is Ok {
            assert forall|i: int| 0 <= i < kept.push(candidates.last()).len() implies !(
            #[trigger] kept.push(candidates.last())[i]).is_coinbase_tx by {
                if i < kept.len() {
                    assert(kept.push(candidates.last())[i] == kept[i]);
                }
            }
        }
    } else {
        assert(no_pending_coinbase(readmit(ledger, candidates)));
    }
    if spec_admit(ledger, pending, tx) is Ok {
        assert forall|i: int| 0 <= i < pending.push(tx).len() implies !(
        #[trigger] pending.push(tx)[i]).is_coinbase_tx by {
            if i < pending.len() {
                assert(pending.push(tx)[i] == pending[i]);
            }
        }
    }
}

/// What a coinbase in front of a list mints, on top of the list.
proof fn lemma_minted_prepend(first: Transaction, rest: Seq<Transaction>)
    ensures
        minted(seq![first] + rest) == minted(rest) + if first.is_coinbase_tx {
            first.amount as nat
        } else {
            0
        },
    decreases rest.len(),
{
    let whole = seq![first] + rest;
    if rest.len() == 0 {
        assert(whole =~= seq![first]);
        assert(whole.drop_last() =~= Seq::<Transaction>::empty());
        assert(minted(whole.drop_last()) == 0);
        assert(minted(rest) == 0);
    } else {
        lemma_minted_prepend(first, rest.drop_last());
        assert(whole.drop_last() =~= seq![first] + rest.drop_last());
        assert(whole.last() == rest.last());
    }
}

/// A list without a coinbase mints nothing.
proof fn lemma_minted_none(txs: Seq<Transaction>)
    requires
        no_pending_coinbase(txs),
    ensures
        minted(txs) == 0,
    decreases txs.len(),
{
    if txs.len() > 0 {
        assert(!txs[txs.len() - 1].is_coinbase_tx);
        assert(no_pending_coinbase(txs.drop_last())) by {
            assert forall|i: int| 0 <= i < txs.drop_last().len() implies !(
            #[trigger] txs.drop_last()[i]).is_coinbase_tx by {
                assert(txs.drop_last()[i] == txs[i]);
            }
        }
        lemma_minted_none(txs.drop_last());
    }
}

/// Coins come only from mining rewards: when a mined block is taken, the
/// total of all balances grows by exactly the mining reward, for a mempool
/// without a coinbase, which is every mempool the public operations build
/// (see `lemma_mempool_stays_coinbase_free`).
pub proof fn lemma_mining_mints_exactly_the_reward(
    before: Blockchain,
    miner: Seq<char>,
    stamp: Timestamp,
    now: i64,
    result: Result<Block, BlockchainError>,
    after: Blockchain,
)
    requires
        before.blocks().len() > 0,
        no_pending_coinbase(before.mempool()),
        before.spec_mining_outcome(miner, stamp, now, result, &after),
        result is Ok,
    ensures
        total_balance(after.ledger_view().accounts) == total_balance(before.ledger_view().accounts)
            + before.reward(),
{
    let b = choose|b: Block|
        #![trigger before.spec_validate(b, now)]
        before.spec_mined_for(miner, b) && b.timestamp == before.spec_mining_stamp(stamp)
            && match before.spec_validate(b, now) {
            Ok(ledger) => result matches Ok(r) && same_block(r, b) && before.spec_appended(
                b,
                ledger,
                &after,
            ),
            Err(fault) => result matches Err(e) && e@ == fault && after == before,
        };
    let txs = b.transactions@;
    assert(before.spec_validate(b, now) is Ok);
    assert(before.spec_validate(b, now) == apply_txs(before.ledger_view(), txs));
    lemma_block_mints_only_its_coinbase(before.ledger_view(), b);
    assert(txs == seq![txs[0]] + txs.drop_first());
    lemma_minted_prepend(txs[0], txs.drop_first());
    lemma_minted_none(before.mempool());
}

/// A new chain holds exactly the genesis allocation: its balances sum to the
/// 1,000,000 coins of the genesis coinbase. With
/// `lemma_mining_mints_exactly_the_reward`, a chain built by mining `k`
/// blocks holds 1,000,000 plus `k` mining rewards.
pub proof fn lemma_genesis_supply(bc: Blockchain)
    requires
        bc.blocks().len() == 1,
        is_genesis_block(bc.blocks()[0]),
        bc.ledger_derived(),
    ensures
        total_balance(bc.ledger_view().accounts) == 1_000_000,
{
    let blocks = bc.blocks();
    crate::chain::ledger::lemma_supply_is_what_the_coinbases_minted(blocks);
    let txs = blocks[0].transactions@;
    assert(blocks.drop_last().len() == 0);
    assert(crate::chain::ledger::minted_in_chain(blocks.drop_last()) == 0);
    assert(blocks.last() == blocks[0]);
    assert(txs.drop_last().len() == 0);
    assert(minted(txs.drop_last()) == 0);
    assert(txs.last() == txs[0]);
}

/// The work of a chain whose blocks after the first are all at difficulty
/// `d`, when the sum does not saturate.
proof fn lemma_uniform_chain_work(blocks: Seq<Block>, d: usize)
    requires
        blocks.len() >= 1,
        forall|i: int| 1 <= i < blocks.len() ==> (#[trigger] blocks[i]).difficulty == d,
        block_work(blocks[0].difficulty) + (blocks.len() - 1) * block_work(d) <= u128::MAX,
    ensures
        chain_work(blocks) == block_work(blocks[0].difficulty) + (blocks.len() - 1) * block_work(d),
    decreases blocks.len(),
{
    let w = block_work(d) as int;
    let n = blocks.len() as int;
    if blocks.len() == 1 {
        assert(blocks.drop_last().len() == 0);
        assert(chain_work(blocks.drop_last()) == 0);
        assert(blocks.last() == blocks[0]);
        assert((n - 1) * w == 0) by (nonlinear_arith)
            requires
                n == 1,
        ;
    } else {
        let shorter = blocks.drop_last();
        assert(forall|i: int| 1 <= i < shorter.len() ==> #[trigger] shorter[i] == blocks[i]);
        assert((n - 2) * w <= (n - 1) * w) by (nonlinear_arith)
            requires
                n >= 2,
                w >= 0,
        ;
        assert((n - 2) * w + w == (n - 1) * w) by (nonlinear_arith);
        assert(shorter[0] == blocks[0]);
        lemma_uniform_chain_work(shorter, d);
        assert(blocks.last() == blocks[n - 1]);
        assert(blocks.last().difficulty == d);
        assert(chain_work(shorter) == block_work(blocks[0].difficulty) + (n - 2) * w);
        assert(chain_work(shorter) + block_work(blocks.last().difficulty) == block_work(
            blocks[0].difficulty,
        ) + (n - 1) * w);
    }
}

/// At one difficulty, more work is a longer chain: for two chains with the
/// same first block difficulty and every later block at difficulty `d`,
/// whose work does not saturate `u128`, the one with more work is the longer
/// one. (Past saturation both weigh `u128::MAX` and length no longer tells.)
pub proof fn lemma_fixed_difficulty_work_is_length(a: Seq<Block>, b: Seq<Block>, d: usize)
    requires
        a.len() >= 1,
        b.len() >= 1,
        a[0].difficulty == b[0].difficulty,
        forall|i: int| 1 <= i < a.len() ==> (#[trigger] a[i]).difficulty == d,
        forall|i: int| 1 <= i < b.len() ==> (#[trigger] b[i]).difficulty == d,
        block_work(a[0].difficulty) + (a.len() - 1) * block_work(d) <= u128::MAX,
        block_work(b[0].difficulty) + (b.len() - 1) * block_work(d) <= u128::MAX,
    ensures
        (chain_work(a) > chain_work(b)) == (a.len() > b.len()),
{
    lemma_uniform_chain_work(a, d);
    lemma_uniform_chain_work(b, d);
    let e = work_exponent(d);
    assert(e <= 127 ==> (1u128 << e) >= 1) by (bit_vector);
    let w = block_work(d) as int;
    let (la, lb) = (a.len() as int, b.len() as int);
    assert(((la - 1) * w > (lb - 1) * w) == (la > lb)) by (nonlinear_arith)
        requires
            w >= 1,
    ;
}

/// The floor a new block's timestamp must pass is the median of the recent
/// blocks, not the tip: for blocks stamped in strictly increasing seconds it
/// is the timestamp of the middle one of the last eleven, or of all of them
/// when there are fewer. A block stamped after that median but before its
/// parent still passes the timestamp rule.
pub proof fn lemma_median_of_increasing_timestamps(prefix: Seq<Block>)
    requires
        prefix.len() >= 1,
        forall|i: int, j: int|
            0 <= i < j < prefix.len() ==> #[trigger] prefix[i].timestamp.secs
                < #[trigger] prefix[j].timestamp.secs,
    ensures
        prefix.len() <= 11 ==> median_time_past(prefix) == prefix[(prefix.len() / 2) as int].timestamp.secs,
        prefix.len() >= 11 ==> median_time_past(prefix) == prefix[prefix.len() - 6].timestamp.secs,
{
    let w = median_window(prefix);
    let leq = i64_order();
    let n = prefix.len() as int;
    let k = w.len() as int;
    assert(sorted_by(w, leq)) by {
        assert forall|a: int, b: int| 0 <= a < b < w.len() implies #[trigger] leq(w[a], w[b]) by {
            assert(w[a] == prefix[n - k + a].timestamp.secs);
            assert(w[b] == prefix[n - k + b].timestamp.secs);
        }
    }
    lemma_i64_order_total();
    w.lemma_sort_by_ensures(leq);
    vstd::seq_lib::lemma_sorted_unique(w, w.sort_by(leq), leq);
    assert(w[k / 2] == prefix[n - k + k / 2].timestamp.secs);
}

/// At a retarget boundary the difficulty reads only the window that just
/// closed: for a chain of `h` blocks, `h` a multiple of the retarget interval
/// and at least two intervals long, the time from block `h - 10` to the
/// parent `h - 1` against nine target block times (540 s) decides it. More
/// than twice too fast is one step up from the parent's difficulty, more than
/// twice too slow one step down, anything else keeps it; always clamped.
pub proof fn lemma_retarget_reads_the_last_window(chain: Seq<Block>, base: usize)
    requires
        chain.len() >= 20,
        chain.len() % 10 == 0,
    ensures
        elapsed_seconds(chain[chain.len() - 10].timestamp, chain[chain.len() - 1].timestamp) * 2
            < 540 ==> spec_required_difficulty(chain, base) == clamp_difficulty(
            chain[chain.len() - 1].difficulty + 1,
        ),
        elapsed_seconds(chain[chain.len() - 10].timestamp, chain[chain.len() - 1].timestamp)
            > 1080 ==> spec_required_difficulty(chain, base) == clamp_difficulty(
            chain[chain.len() - 1].difficulty - 1,
        ),
        540 <= elapsed_seconds(chain[chain.len() - 10].timestamp, chain[chain.len() - 1].timestamp)
            * 2 && elapsed_seconds(chain[chain.len() - 10].timestamp, chain[chain.len() - 1].timestamp)
            <= 1080 ==> spec_required_difficulty(chain, base) == clamp_difficulty(
            chain[chain.len() - 1].difficulty as int,
        ),
{
    let h = chain.len() as int;
    assert(window_start(h) == h - 10);
}

/// The first retarget reads the first window, from the first mined block:
/// for a chain of ten blocks, the time from block 1 to the parent, block 9,
/// against eight target block times (480 s) decides the difficulty, as
/// `lemma_retarget_reads_the_last_window` says for later boundaries.
pub proof fn lemma_first_retarget_reads_the_first_window(chain: Seq<Block>, base: usize)
    requires
        chain.len() == 10,
    ensures
        elapsed_seconds(chain[1].timestamp, chain[9].timestamp) * 2 < 480
            ==> spec_required_difficulty(chain, base) == clamp_difficulty(chain[9].difficulty + 1),
        elapsed_seconds(chain[1].timestamp, chain[9].timestamp) > 960
            ==> spec_required_difficulty(chain, base) == clamp_difficulty(chain[9].difficulty - 1),
        480 <= elapsed_seconds(chain[1].timestamp, chain[9].timestamp) * 2 && elapsed_seconds(
            chain[1].timestamp,
            chain[9].timestamp,
        ) <= 960 ==> spec_required_difficulty(chain, base) == clamp_difficulty(
            chain[9].difficulty as int,
        ),
{
    assert(window_start(10) == 1);
}

/// Whether some block of `blocks` holds `tx`.
pub open spec fn in_blocks(blocks: Seq<Block>, tx: Transaction) -> bool {
    exists|i: int| 0 <= i < blocks.len() && #[trigger] blocks[i].transactions@.contains(tx)
}

/// A filtered list holds exactly the elements of the list that pass.
proof fn lemma_filter_contains_iff(s: Seq<Transaction>, p: spec_fn(Transaction) -> bool, x: Transaction)
    ensures
        s.filter(p).contains(x) <==> s.contains(x) && p(x),
{
    if s.filter(p).contains(x) {
        s.lemma_filter_contains_rev(p, x);
        let k = choose|k: int| 0 <= k < s.filter(p).len() && s.filter(p)[k] == x;
        s.lemma_filter_pred(p, k);
    }
    if s.contains(x) && p(x) {
        let k = choose|k: int| 0 <= k < s.len() && s[k] == x;
        s.lemma_filter_contains(p, k);
    }
}

/// A joined list holds what either part holds.
proof fn lemma_concat_contains(a: Seq<Transaction>, b: Seq<Transaction>, x: Transaction)
    ensures
        (a + b).contains(x) <==> a.contains(x) || b.contains(x),
{
    if (a + b).contains(x) {
        let k = choose|k: int| 0 <= k < (a + b).len() && (a + b)[k] == x;
        if k < a.len() {
            assert(a[k] == x);
        } else {
            assert(b[k - a.len()] == x);
        }
    }
    if a.contains(x) {
        let k = choose|k: int| 0 <= k < a.len() && a[k] == x;
        assert((a + b)[k] == x);
    }
    if b.contains(x) {
        let k = choose|k: int| 0 <= k < b.len() && b[k] == x;
        assert((a + b)[a.len() + k] == x);
    }
}

/// A transaction is in some block of a chain exactly when it is in some block
/// before the last one, or in the last one.
proof fn lemma_in_blocks_last(blocks: Seq<Block>, tx: Transaction)
    requires
        blocks.len() > 0,
    ensures
        in_blocks(blocks, tx) <==> in_blocks(blocks.drop_last(), tx) || blocks.last().transactions@.contains(
            tx,
        ),
{
    if in_blocks(blocks, tx) {
        let i = choose|i: int| 0 <= i < blocks.len() && #[trigger] blocks[i].transactions@.contains(tx);
        if i < blocks.len() - 1 {
            assert(blocks.drop_last()[i] == blocks[i]);
        }
    }
    if in_blocks(blocks.drop_last(), tx) {
        let i = choose|i: int|
            0 <= i < blocks.drop_last().len() && #[trigger] blocks.drop_last()[i].transactions@.contains(tx);
        assert(blocks[i] == blocks.drop_last()[i]);
    }
    if blocks.last().transactions@.contains(tx) {
        assert(blocks[blocks.len() - 1].transactions@.contains(tx));
    }
}

/// An address's history is every transaction of the chain it sends or
/// receives: a transaction is listed exactly when some block holds it and the
/// address is its sender or its recipient.
pub proof fn lemma_history_is_every_sent_or_received_transaction(
    blocks: Seq<Block>,
    address: Seq<char>,
    tx: Transaction,
)
    ensures
        transactions_for(blocks, address).contains(tx) <==> in_blocks(blocks, tx) && (tx.sender@
            == address || tx.recipient@ == address),
    decreases blocks.len(),
{
    if blocks.len() == 0 {
        assert(!in_blocks(blocks, tx));
    } else {
        lemma_history_is_every_sent_or_received_transaction(blocks.drop_last(), address, tx);
        lemma_in_blocks_last(blocks, tx);
        lemma_filter_contains_iff(blocks.last().transactions@, involves(address), tx);
        lemma_concat_contains(
            transactions_for(blocks.drop_last(), address),
            blocks.last().transactions@.filter(involves(address)),
            tx,
        );
    }
}

/// The payments a reorganisation orphans are exactly the payments of the old
/// blocks whose ids the winning ledger has not confirmed: a transaction is
/// among `orphans(blocks, spent)` exactly when some block holds it, it is no
/// coinbase, and `spent` does not hold its id.
pub proof fn lemma_orphans_are_the_unconfirmed_payments(
    blocks: Seq<Block>,
    spent: Seq<Seq<char>>,
    tx: Transaction,
)
    ensures
        orphans(blocks, spent).contains(tx) <==> in_blocks(blocks, tx) && !tx.is_coinbase_tx
            && !spent.contains(tx.id@),
    decreases blocks.len(),
{
    if blocks.len() == 0 {
        assert(!in_blocks(blocks, tx));
    } else {
        lemma_orphans_are_the_unconfirmed_payments(blocks.drop_last(), spent, tx);
        lemma_in_blocks_last(blocks, tx);
        lemma_filter_contains_iff(blocks.last().transactions@, orphaned_by(spent), tx);
        lemma_concat_contains(
            orphans(blocks.drop_last(), spent),
            blocks.last().transactions@.filter(orphaned_by(spent)),
            tx,
        );
    }
}

/// What re-admitting a prefix of the candidates keeps is a prefix of what
/// re-admitting them all keeps.
proof fn lemma_readmit_prefix(ledger: LedgerView, candidates: Seq<Transaction>, i: int)
    requires
        0 <= i <= candidates.len(),
    ensures
        readmit(ledger, candidates.take(i)).is_prefix_of(readmit(ledger, candidates)),
    decreases candidates.len() - i,
{
    if i == candidates.len() {
        assert(candidates.take(i) =~= candidates);
    } else {
        lemma_readmit_prefix(ledger, candidates, i + 1);
        let c = candidates.take(i + 1);
        assert(c.drop_last() =~= candidates.take(i));
    }
}

/// No payment is lost on a reorganisation: after a successful chain
/// replacement, every payment of our old blocks after the genesis block whose
/// id the winning ledger has not confirmed is back in the mempool, unless
/// mempool admission refuses it against what the mempool had been rebuilt to
/// when its turn came.
pub proof fn lemma_no_payment_lost_on_reorg(
    before: Blockchain,
    new_chain: Seq<Block>,
    now: i64,
    result: Result<(), BlockchainError>,
    after: Blockchain,
    tx: Transaction,
)
    requires
        before.spec_replace_outcome(new_chain, now, result, &after),
        result is Ok,
        in_blocks(before.blocks().drop_first(), tx),
        !tx.is_coinbase_tx,
        !after.ledger_view().spent.contains(tx.id@),
    ensures
        after.mempool().contains(tx) || exists|kept: Seq<Transaction>|
            kept.is_prefix_of(after.mempool()) && #[trigger] spec_admit(
                after.ledger_view(),
                kept,
                tx,
            ) is Err,
{
    let ledger = after.ledger_view();
    let found = orphans(before.blocks().drop_first(), ledger.spent);
    let candidates = before.mempool() + found;
    assert(before.spec_replace(new_chain, now) is Ok);
    assert(after.mempool() == readmit(ledger, candidates));
    lemma_orphans_are_the_unconfirmed_payments(before.blocks().drop_first(), ledger.spent, tx);
    lemma_concat_contains(before.mempool(), found, tx);
    let i = choose|i: int| 0 <= i < candidates.len() && candidates[i] == tx;
    let kept = readmit(ledger, candidates.take(i));
    assert(candidates.take(i + 1).drop_last() =~= candidates.take(i));
    assert(candidates.take(i + 1).last() == tx);
    lemma_readmit_prefix(ledger, candidates, i);
    lemma_readmit_prefix(ledger, candidates, i + 1);
    if spec_admit(ledger, kept, tx) is Ok {
        let grown = readmit(ledger, candidates.take(i + 1));
        assert(grown == kept.push(tx));
        assert(grown[kept.len() as int] == tx);
        assert(after.mempool()[kept.len() as int] == tx);
    }
}

} // verus!
