//! Block module - the fundamental unit of the blockchain
//!
//! A block holds its index, a timestamp, its transactions, the hash of the
//! previous block, the Merkle root of its transactions, the difficulty it was
//! mined at, the proof-of-work nonce, and its own hash.
use vstd::prelude::*;
use vstd::string::*;
use vstd::utf8::encode_utf8;

use crate::chain::hashing::{
    encode_fields, fields_fit, lemma_encode_one, lemma_encode_push, lemma_encoding_injective,
    lemma_time_field_injective, lemma_u64_be_injective, lemma_utf8_injective, lemma_utf8_len_bound,
    spec_hash_hex, time_field, u64_be, CanonicalEncoding, BLOCK_HASH_DOMAIN,
};
use crate::chain::merkle::{merkle_root, MerkleTree};
use crate::chain::time::Timestamp;
use crate::chain::transaction::{
    hash_fields, signing_fields, signing_payload, spec_tx_hash, spec_tx_verifies, tx_fields_fit,
    Transaction,
};
use crate::clock::now;
use crate::text::{has_leading_zeros, starts_with_zeros};

verus! {

/// The hashes of a list of transactions, in order.
pub open spec fn tx_hashes(txs: Seq<Transaction>) -> Seq<Seq<char>> {
    Seq::new(txs.len(), |i: int| spec_tx_hash(txs[i]))
}

/// The fields of a block header preimage, in order: the header domain tag,
/// index, timestamp, Merkle root, previous hash, difficulty and nonce.
pub open spec fn header_fields(b: Block) -> Seq<Seq<u8>> {
    seq![
        encode_utf8(BLOCK_HASH_DOMAIN@),
        u64_be(b.index),
        time_field(b.timestamp),
        encode_utf8(b.merkle_root@),
        encode_utf8(b.previous_hash@),
        u64_be(b.difficulty as u64),
        u64_be(b.nonce),
    ]
}

/// The preimage a block header hashes, the one proof-of-work searches over.
pub open spec fn header_preimage(b: Block) -> Seq<u8> {
    encode_fields(header_fields(b))
}

/// The hash of a block: the hex SHA-256 of its header preimage.
pub open spec fn spec_block_hash(b: Block) -> Seq<char> {
    spec_hash_hex(header_preimage(b))
}

/// Two headers with the same preimage agree on every field they commit to:
/// no two different claims about a block, how hard it was mined among them,
/// share a header preimage, so one proof-of-work never stands for two.
pub proof fn lemma_header_preimage_identifies_header(a: Block, b: Block)
    requires
        encode_utf8(a.merkle_root@).len() <= u64::MAX,
        encode_utf8(a.previous_hash@).len() <= u64::MAX,
        encode_utf8(b.merkle_root@).len() <= u64::MAX,
        encode_utf8(b.previous_hash@).len() <= u64::MAX,
        header_preimage(a) == header_preimage(b),
    ensures
        a.index == b.index,
        a.timestamp == b.timestamp,
        a.merkle_root@ == b.merkle_root@,
        a.previous_hash@ == b.previous_hash@,
        a.difficulty == b.difficulty,
        a.nonce == b.nonce,
{
    reveal_strlit("rustchain.block.header.v1");
    lemma_utf8_len_bound(BLOCK_HASH_DOMAIN@);
    let (fa, fb) = (header_fields(a), header_fields(b));
    assert(fields_fit(fa));
    assert(fields_fit(fb));
    lemma_encoding_injective(fa, fb);
    assert(fa[1] == fb[1] && fa[2] == fb[2] && fa[3] == fb[3] && fa[4] == fb[4] && fa[5] == fb[5]
        && fa[6] == fb[6]);
    lemma_u64_be_injective(a.index, b.index);
    lemma_time_field_injective(a.timestamp, b.timestamp);
    lemma_utf8_injective(a.merkle_root@, b.merkle_root@);
    lemma_utf8_injective(a.previous_hash@, b.previous_hash@);
    lemma_u64_be_injective(a.difficulty as u64, b.difficulty as u64);
    lemma_u64_be_injective(a.nonce, b.nonce);
}

/// A block header preimage is never a transaction's signing payload nor its
/// hash preimage: the three encode field lists of different lengths, so a
/// header can never be presented as a signed payment, nor a payment as a
/// header.
pub proof fn lemma_header_is_no_transaction_preimage(b: Block, tx: Transaction)
    requires
        encode_utf8(b.merkle_root@).len() <= u64::MAX,
        encode_utf8(b.previous_hash@).len() <= u64::MAX,
        tx_fields_fit(tx),
    ensures
        header_preimage(b) != signing_payload(tx),
        header_preimage(b) != encode_fields(hash_fields(tx)),
{
    reveal_strlit("rustchain.block.header.v1");
    lemma_utf8_len_bound(BLOCK_HASH_DOMAIN@);
    assert(fields_fit(header_fields(b)));
    if header_preimage(b) == signing_payload(tx) {
        lemma_encoding_injective(header_fields(b), signing_fields(tx));
    }
    if header_preimage(b) == encode_fields(hash_fields(tx)) {
        lemma_encoding_injective(header_fields(b), hash_fields(tx));
    }
}

/// `b` with the difficulty and nonce replaced.
pub open spec fn with_work(b: Block, difficulty: usize, nonce: u64) -> Block {
    Block { difficulty, nonce, ..b }
}

/// The amounts of the transactions that are not coinbase, summed.
pub open spec fn transferred_sum(txs: Seq<Transaction>) -> nat
    decreases txs.len(),
{
    if txs.len() == 0 {
        0
    } else {
        transferred_sum(txs.drop_last()) + if txs.last().is_coinbase_tx {
            0
        } else {
            txs.last().amount as nat
        }
    }
}

/// The amount of the first coinbase transaction, or zero if there is none.
pub open spec fn first_coinbase_amount(txs: Seq<Transaction>) -> u64
    decreases txs.len(),
{
    if txs.len() == 0 {
        0
    } else if txs[0].is_coinbase_tx {
        txs[0].amount
    } else {
        first_coinbase_amount(txs.drop_first())
    }
}

/// Every transaction in the list verifies.
pub open spec fn all_verify(txs: Seq<Transaction>) -> bool {
    forall|i: int| 0 <= i < txs.len() ==> spec_tx_verifies(#[trigger] txs[i])
}

/// What `verify_transactions` decides: the stored Merkle root is the root of
/// the transactions, and every transaction verifies.
pub open spec fn spec_transactions_valid(b: Block) -> bool {
    merkle_root(tx_hashes(b.transactions@)) == b.merkle_root@ && all_verify(b.transactions@)
}

/// What `verify_hash` decides.
pub open spec fn spec_hash_valid(b: Block, difficulty: Option<usize>) -> bool {
    &&& spec_block_hash(b) == b.hash@
    &&& match difficulty {
        Some(d) => has_leading_zeros(b.hash@, d as nat),
        None => true,
    }
}

/// The text `0` repeated 64 times: the previous hash of the genesis block.
pub open spec fn zero_hash() -> Seq<char> {
    Seq::new(64, |i: int| '0')
}

/// The genesis block, described field by field: index 0, the Unix epoch, one
/// coinbase of 1,000,000 coins to `genesis_address` with the fixed id
/// `genesis`, a previous hash of 64 zeros, no work, and its own hash.
pub open spec fn is_genesis_block(b: Block) -> bool {
    &&& b.index == 0
    &&& b.timestamp == Timestamp::epoch()
    &&& b.transactions@.len() == 1
    &&& is_genesis_coinbase(b.transactions@[0])
    &&& b.previous_hash@ == zero_hash()
    &&& b.merkle_root@ == merkle_root(tx_hashes(b.transactions@))
    &&& b.difficulty == 0
    &&& b.nonce == 0
    &&& b.hash@ == spec_block_hash(b)
}

/// The genesis coinbase: 1,000,000 coins to `genesis_address`.
pub open spec fn is_genesis_coinbase(tx: Transaction) -> bool {
    &&& tx.id@ == "genesis"@
    &&& tx.sender@ == "COINBASE"@
    &&& tx.recipient@ == "genesis_address"@
    &&& tx.amount == 1_000_000
    &&& tx.timestamp == Timestamp::epoch()
    &&& tx.signature matches Some(s) && s@ == "COINBASE_SIGNATURE"@
    &&& tx.public_key.is_none()
    &&& tx.is_coinbase_tx
}

/// Two blocks agree on every field (their transaction lists element by element).
pub open spec fn same_block(a: Block, b: Block) -> bool {
    &&& a.index == b.index
    &&& a.timestamp == b.timestamp
    &&& a.transactions@ == b.transactions@
    &&& a.previous_hash == b.previous_hash
    &&& a.merkle_root == b.merkle_root
    &&& a.difficulty == b.difficulty
    &&& a.nonce == b.nonce
    &&& a.hash == b.hash
}

/// Clone a list of transactions.
pub fn clone_transactions(txs: &Vec<Transaction>) -> (copy: Vec<Transaction>)
    ensures
        copy@ == txs@,
{
    let mut copy: Vec<Transaction> = Vec::new();
    let mut i: usize = 0;
    while i < txs.len()
        invariant
            i <= txs@.len(),
            copy@ == txs@.subrange(0, i as int),
        decreases txs@.len() - i,
    {
        copy.push(txs[i].clone());
        i = i + 1;
        assert(copy@ =~= txs@.subrange(0, i as int));
    }
    assert(txs@.subrange(0, txs@.len() as int) =~= txs@);
    copy
}

/// The hashes of a list of transactions.
pub fn transaction_hashes(txs: &Vec<Transaction>) -> (hashes: Vec<String>)
    ensures
        hashes.deep_view() == tx_hashes(txs@),
{
    let mut hashes: Vec<String> = Vec::new();
    let mut i: usize = 0;
    while i < txs.len()
        invariant
            i <= txs@.len(),
            hashes.deep_view() == tx_hashes(txs@).subrange(0, i as int),
        decreases txs@.len() - i,
    {
        let ghost prev = hashes.deep_view();
        hashes.push(txs[i].hash());
        assert(hashes.deep_view() =~= prev.push(spec_tx_hash(txs@[i as int])));
        i = i + 1;
        assert(hashes.deep_view() =~= tx_hashes(txs@).subrange(0, i as int));
    }
    assert(tx_hashes(txs@).subrange(0, txs@.len() as int) =~= tx_hashes(txs@));
    hashes
}

/// The Merkle root of a list of transactions.
pub fn merkle_root_of(txs: &Vec<Transaction>) -> (root: String)
    ensures
        root@ == merkle_root(tx_hashes(txs@)),
{
    let tree = MerkleTree::new(transaction_hashes(txs));
    String::from_str(tree.root_hash())
}

/// Represents a block in the blockchain
#[derive(Debug)]
pub struct Block {
    /// Block index/height in the chain
    pub index: u64,
    /// Block creation timestamp
    pub timestamp: Timestamp,
    /// Transactions included in this block
    pub transactions: Vec<Transaction>,
    /// Hash of the previous block
    pub previous_hash: String,
    /// Merkle root of all transactions
    pub merkle_root: String,
    /// Proof-of-work difficulty this block claims to have been mined at.
    ///
    /// Part of the hash preimage, so it cannot be relabelled after mining, and
    /// checked against the difficulty the chain rules demand at this height.
    /// Zero on an unmined block, including the genesis block.
    pub difficulty: usize,
    /// Proof-of-work nonce
    pub nonce: u64,
    /// This block's hash
    pub hash: String,
}

impl Clone for Block {
    fn clone(&self) -> (copy: Self)
        ensures
            same_block(copy, *self),
    {
        let transactions = clone_transactions(&self.transactions);
        Block {
            index: self.index,
            timestamp: self.timestamp,
            transactions,
            previous_hash: self.previous_hash.clone(),
            merkle_root: self.merkle_root.clone(),
            difficulty: self.difficulty,
            nonce: self.nonce,
            hash: self.hash.clone(),
        }
    }
}

impl Block {
    /// Create a new block (not yet mined), stamped now: its Merkle root is the
    /// root of its transactions, and its hash is computed at nonce 0 and
    /// difficulty 0.
    pub fn new(index: u64, transactions: Vec<Transaction>, previous_hash: String) -> (block: Self)
        ensures
            block.index == index,
            block.transactions@ == transactions@,
            block.previous_hash == previous_hash,
            block.merkle_root@ == merkle_root(tx_hashes(transactions@)),
            block.difficulty == 0,
            block.nonce == 0,
            block.hash@ == spec_block_hash(block),
            block.timestamp.nanos < 1_000_000_000,
    {
        Self::new_at(index, transactions, previous_hash, now())
    }

    /// Create a new block (not yet mined), stamped `timestamp`: its Merkle
    /// root is the root of its transactions, and its hash is computed at
    /// nonce 0 and difficulty 0.
    pub fn new_at(
        index: u64,
        transactions: Vec<Transaction>,
        previous_hash: String,
        timestamp: Timestamp,
    ) -> (block: Self)
        ensures
            block.index == index,
            block.transactions@ == transactions@,
            block.previous_hash == previous_hash,
            block.merkle_root@ == merkle_root(tx_hashes(transactions@)),
            block.difficulty == 0,
            block.nonce == 0,
            block.hash@ == spec_block_hash(block),
            block.timestamp == timestamp,
    {
        let merkle_root = merkle_root_of(&transactions);
        let mut block = Self {
            index,
            timestamp,
            transactions,
            previous_hash,
            merkle_root,
            difficulty: 0,
            nonce: 0,
            hash: String::new(),
        };
        block.hash = block.calculate_hash();
        block
    }

    /// Create the genesis block, fully deterministic so every node derives the
    /// identical genesis hash.
    pub fn genesis() -> (block: Self)
        ensures
            is_genesis_block(block),
    {
        let genesis_tx = Transaction::genesis_coinbase(String::from_str("genesis_address"), 1_000_000);
        let mut transactions: Vec<Transaction> = Vec::new();
        transactions.push(genesis_tx);
        let mut block = Self::new(0, transactions, zeros_text(64));
        block.timestamp = Timestamp::unix_epoch();
        block.hash = block.calculate_hash();
        block
    }

    /// Calculate the hash of this block: the canonical encoding, under the
    /// header domain, of index, timestamp, Merkle root, previous hash,
    /// difficulty and nonce.
    pub fn calculate_hash(&self) -> (hash: String)
        ensures
            hash@ == spec_block_hash(*self),
    {
        let ghost fs = header_fields(*self);
        let e = CanonicalEncoding::new(BLOCK_HASH_DOMAIN);
        proof { lemma_encode_one(fs[0]); assert(fs.take(1) == seq![fs[0]]); }
        let e = e.integer(self.index);
        proof { lemma_encode_push(fs.take(1), fs[1]); assert(fs.take(2) == fs.take(1).push(fs[1])); }
        let e = e.time(&self.timestamp);
        proof { lemma_encode_push(fs.take(2), fs[2]); assert(fs.take(3) == fs.take(2).push(fs[2])); }
        let e = e.text(self.merkle_root.as_str());
        proof { lemma_encode_push(fs.take(3), fs[3]); assert(fs.take(4) == fs.take(3).push(fs[3])); }
        let e = e.text(self.previous_hash.as_str());
        proof { lemma_encode_push(fs.take(4), fs[4]); assert(fs.take(5) == fs.take(4).push(fs[4])); }
        let e = e.integer(self.difficulty as u64);
        proof { lemma_encode_push(fs.take(5), fs[5]); assert(fs.take(6) == fs.take(5).push(fs[5])); }
        let e = e.integer(self.nonce);
        proof {
            lemma_encode_push(fs.take(6), fs[6]);
            assert(fs.take(7) == fs.take(6).push(fs[6]));
            assert(fs.take(7) == fs);
        }
        e.hash_hex()
    }

    /// Mine the block using Proof-of-Work.
    ///
    /// Records `difficulty` on the block, then tries nonces upward from the
    /// current one until the hash starts with `difficulty` zeros. Returns the
    /// number of nonces tried. The search ends at the last nonce a `u64`
    /// holds; if no nonce from the starting one up to it works, the block is
    /// left at that last nonce.
    pub fn mine(&mut self, difficulty: usize) -> (iterations: u64)
        ensures
            final(self).index == old(self).index,
            final(self).timestamp == old(self).timestamp,
            final(self).transactions@ == old(self).transactions@,
            final(self).previous_hash == old(self).previous_hash,
            final(self).merkle_root == old(self).merkle_root,
            final(self).difficulty == difficulty,
            old(self).nonce <= final(self).nonce,
            final(self).hash@ == spec_block_hash(*final(self)),
            has_leading_zeros(final(self).hash@, difficulty as nat) || final(self).nonce == u64::MAX,
            forall|n: u64|
                old(self).nonce <= n < final(self).nonce ==> !has_leading_zeros(
                    #[trigger] spec_block_hash(with_work(*old(self), difficulty, n)),
                    difficulty as nat,
                ),
            iterations as int == if final(self).nonce - old(self).nonce + 1 <= u64::MAX {
                final(self).nonce - old(self).nonce + 1
            } else {
                u64::MAX as int
            },
    {
        self.difficulty = difficulty;
        let start = self.nonce;
        loop
            invariant
                self.index == old(self).index,
                self.timestamp == old(self).timestamp,
                self.transactions@ == old(self).transactions@,
                self.previous_hash == old(self).previous_hash,
                self.merkle_root == old(self).merkle_root,
                self.difficulty == difficulty,
                start == old(self).nonce,
                start <= self.nonce,
                forall|n: u64|
                    start <= n < self.nonce ==> !has_leading_zeros(
                        #[trigger] spec_block_hash(with_work(*old(self), difficulty, n)),
                        difficulty as nat,
                    ),
            decreases u64::MAX - self.nonce,
        {
            self.hash = self.calculate_hash();
            assert(with_work(*old(self), difficulty, self.nonce).merkle_root == self.merkle_root);
            assert(header_preimage(with_work(*old(self), difficulty, self.nonce)) == header_preimage(*self));
            if starts_with_zeros(self.hash.as_str(), difficulty) || self.nonce == u64::MAX {
                let tried = self.nonce - start;
                return if tried < u64::MAX {
                    tried + 1
                } else {
                    u64::MAX
                };
            }
            self.nonce = self.nonce + 1;
        }
    }

    /// Verify that the block's hash is valid: the stored hash is the hash of
    /// the block, and, when a difficulty is given, starts with that many zeros.
    pub fn verify_hash(&self, difficulty: Option<usize>) -> (valid: bool)
        ensures
            valid == spec_hash_valid(*self, difficulty),
    {
        let calculated = self.calculate_hash();
        if calculated != self.hash {
            return false;
        }
        match difficulty {
            Some(diff) => starts_with_zeros(self.hash.as_str(), diff),
            None => true,
        }
    }

    /// Verify all transactions in the block: the Merkle root matches, and
    /// every transaction verifies.
    pub fn verify_transactions(&self) -> (valid: bool)
        ensures
            valid == spec_transactions_valid(*self),
    {
        let root = merkle_root_of(&self.transactions);
        if root != self.merkle_root {
            return false;
        }
        let mut i: usize = 0;
        while i < self.transactions.len()
            invariant
                i <= self.transactions@.len(),
                forall|j: int| 0 <= j < i ==> spec_tx_verifies(#[trigger] self.transactions@[j]),
            decreases self.transactions@.len() - i,
        {
            if !self.transactions[i].verify() {
                return false;
            }
            i = i + 1;
        }
        true
    }

    /// The total value transferred in this block, excluding coinbase,
    /// saturating at `u64::MAX` rather than overflowing.
    pub fn total_value(&self) -> (total: u64)
        ensures
            total as nat == if transferred_sum(self.transactions@) <= u64::MAX {
                transferred_sum(self.transactions@)
            } else {
                u64::MAX as nat
            },
    {
        let mut total: u64 = 0;
        let mut i: usize = 0;
        while i < self.transactions.len()
            invariant
                i <= self.transactions@.len(),
                total as nat == if transferred_sum(self.transactions@.subrange(0, i as int))
                    <= u64::MAX {
                    transferred_sum(self.transactions@.subrange(0, i as int))
                } else {
                    u64::MAX as nat
                },
            decreases self.transactions@.len() - i,
        {
            let tx = &self.transactions[i];
            if !tx.is_coinbase() {
                total = total.saturating_add(tx.amount);
            }
            assert(self.transactions@.subrange(0, i + 1).drop_last() =~= self.transactions@.subrange(0, i as int));
            i = i + 1;
        }
        assert(self.transactions@.subrange(0, i as int) =~= self.transactions@);
        total
    }

    /// The mining reward: the amount of the first coinbase transaction, or 0.
    pub fn mining_reward(&self) -> (reward: u64)
        ensures
            reward == first_coinbase_amount(self.transactions@),
    {
        let mut i: usize = 0;
        assert(self.transactions@.subrange(0, self.transactions@.len() as int) =~= self.transactions@);
        while i < self.transactions.len()
            invariant
                i <= self.transactions@.len(),
                first_coinbase_amount(self.transactions@) == first_coinbase_amount(
                    self.transactions@.subrange(i as int, self.transactions@.len() as int),
                ),
            decreases self.transactions@.len() - i,
        {
            let ghost rest = self.transactions@.subrange(i as int, self.transactions@.len() as int);
            if self.transactions[i].is_coinbase() {
                return self.transactions[i].amount;
            }
            assert(rest.drop_first() =~= self.transactions@.subrange(i + 1, self.transactions@.len() as int));
            i = i + 1;
        }
        0
    }

    /// Get transaction count
    pub fn transaction_count(&self) -> (count: usize)
        ensures
            count == self.transactions@.len(),
    {
        self.transactions.len()
    }
}

/// The text `0` repeated `n` times.
pub fn zeros_text(n: usize) -> (text: String)
    ensures
        text@ == Seq::new(n as nat, |i: int| '0'),
{
    let mut text = String::new();
    let mut i: usize = 0;
    assert(text@ =~= Seq::new(0, |j: int| '0'));
    while i < n
        invariant
            i <= n,
            text@ == Seq::new(i as nat, |j: int| '0'),
        decreases n - i,
    {
        proof { reveal_strlit("0"); }
        text.append("0");
        i = i + 1;
        assert(text@ =~= Seq::new(i as nat, |j: int| '0'));
    }
    text
}

/// The genesis block is the same block on every node: any two blocks that are
/// the genesis block have the same hash.
pub proof fn lemma_genesis_is_deterministic(a: Block, b: Block)
    requires
        is_genesis_block(a),
        is_genesis_block(b),
    ensures
        a.hash@ == b.hash@,
{
    let (ta, tb) = (a.transactions@[0], b.transactions@[0]);
    assert(opt_view_eq(ta.signature, tb.signature));
    assert(tx_hashes(a.transactions@) =~= tx_hashes(b.transactions@)) by {
        assert(spec_tx_hash(ta) == spec_tx_hash(tb)) by {
            assert(crate::chain::transaction::hash_fields(ta) =~= crate::chain::transaction::hash_fields(tb));
        }
    }
    assert(header_preimage(a) =~= header_preimage(b));
}

spec fn opt_view_eq(a: Option<String>, b: Option<String>) -> bool {
    crate::chain::transaction::opt_text(a) == crate::chain::transaction::opt_text(b)
}

} // verus!
