//! The account ledger: one balance per address, and the ids of every
//! transaction already confirmed.
//!
//! The ledger is derived from the chain by replaying its blocks in order. A
//! transaction moves its amount from the sender to the recipient (a coinbase
//! only credits); a sender who cannot cover a spend, a recipient balance that
//! would overflow, or an id that was already confirmed refuses it.
use vstd::prelude::*;

use crate::chain::block::Block;
use crate::chain::blockchain::{BlockchainError, ChainFault};
use crate::chain::transaction::Transaction;
use crate::text::same_text;

verus! {

/// The ledger as values: the accounts in the order they were opened, each an
/// address and its balance, and the confirmed transaction ids in the order
/// they were confirmed.
pub struct LedgerView {
    pub accounts: Seq<(Seq<char>, u64)>,
    pub spent: Seq<Seq<char>>,
}

/// The ledger before any block: no accounts, nothing confirmed.
pub open spec fn empty_ledger() -> LedgerView {
    LedgerView { accounts: Seq::empty(), spent: Seq::empty() }
}

/// Where the account of `address` sits, or -1 when it has none (the last
/// account with that address, though an address never opens two).
pub open spec fn account_index(accounts: Seq<(Seq<char>, u64)>, address: Seq<char>) -> int
    decreases accounts.len(),
{
    if accounts.len() == 0 {
        -1
    } else if accounts.last().0 == address {
        accounts.len() - 1
    } else {
        account_index(accounts.drop_last(), address)
    }
}

/// The balance of `address`: zero when it has no account.
pub open spec fn balance_of(accounts: Seq<(Seq<char>, u64)>, address: Seq<char>) -> u64 {
    let i = account_index(accounts, address);
    if i >= 0 {
        accounts[i].1
    } else {
        0
    }
}

/// The accounts with the balance of `address` set to `value`, opening the
/// account at the end when it has none.
pub open spec fn set_balance(accounts: Seq<(Seq<char>, u64)>, address: Seq<char>, value: u64) -> Seq<
    (Seq<char>, u64),
> {
    let i = account_index(accounts, address);
    if i >= 0 {
        accounts.update(i, (address, value))
    } else {
        accounts.push((address, value))
    }
}

/// The message for a transaction id confirmed a second time.
pub open spec fn repeated_id_message(id: Seq<char>) -> Seq<char> {
    "Transaction "@ + id + " appears more than once in the chain"@
}

/// The message for a credit that would overflow the recipient's balance.
pub open spec fn overflow_message(id: Seq<char>) -> Seq<char> {
    "Transaction "@ + id + " overflows the recipient balance"@
}

/// What one transaction does to the ledger.
///
/// An id already confirmed is refused; otherwise a payment debits the sender
/// (refused when the sender holds less than the amount), then the recipient is
/// credited (refused when the balance would pass `u64::MAX`), and the id is
/// recorded as confirmed.
pub open spec fn apply_tx(ledger: LedgerView, tx: Transaction) -> Result<LedgerView, ChainFault> {
    let has = balance_of(ledger.accounts, tx.sender@);
    if ledger.spent.contains(tx.id@) {
        Err(ChainFault::InvalidTransaction(repeated_id_message(tx.id@)))
    } else if !tx.is_coinbase_tx && has < tx.amount {
        Err(ChainFault::InsufficientBalance { has, needs: tx.amount })
    } else {
        let debited = if tx.is_coinbase_tx {
            ledger.accounts
        } else {
            set_balance(ledger.accounts, tx.sender@, (has - tx.amount) as u64)
        };
        let credited = balance_of(debited, tx.recipient@) + tx.amount;
        if credited > u64::MAX {
            Err(ChainFault::InvalidTransaction(overflow_message(tx.id@)))
        } else {
            Ok(
                LedgerView {
                    accounts: set_balance(debited, tx.recipient@, credited as u64),
                    spent: ledger.spent.push(tx.id@),
                },
            )
        }
    }
}

/// What a list of transactions does to the ledger, in order, stopping at the
/// first refusal.
pub open spec fn apply_txs(ledger: LedgerView, txs: Seq<Transaction>) -> Result<
    LedgerView,
    ChainFault,
>
    decreases txs.len(),
{
    if txs.len() == 0 {
        Ok(ledger)
    } else {
        match apply_txs(ledger, txs.drop_last()) {
            Ok(before) => apply_tx(before, txs.last()),
            Err(e) => Err(e),
        }
    }
}

/// The ledger a chain produces, replayed from the empty ledger.
pub open spec fn index_blocks(blocks: Seq<Block>) -> Result<LedgerView, ChainFault>
    decreases blocks.len(),
{
    if blocks.len() == 0 {
        Ok(empty_ledger())
    } else {
        match index_blocks(blocks.drop_last()) {
            Ok(before) => apply_txs(before, blocks.last().transactions@),
            Err(e) => Err(e),
        }
    }
}

/// The sum of all balances.
pub open spec fn total_balance(accounts: Seq<(Seq<char>, u64)>) -> nat
    decreases accounts.len(),
{
    if accounts.len() == 0 {
        0
    } else {
        total_balance(accounts.drop_last()) + accounts.last().1 as nat
    }
}

/// The coins the coinbase transactions of a list mint.
pub open spec fn minted(txs: Seq<Transaction>) -> nat
    decreases txs.len(),
{
    if txs.len() == 0 {
        0
    } else {
        minted(txs.drop_last()) + if txs.last().is_coinbase_tx {
            txs.last().amount as nat
        } else {
            0
        }
    }
}

/// The coins the coinbase transactions of a chain mint.
pub open spec fn minted_in_chain(blocks: Seq<Block>) -> nat
    decreases blocks.len(),
{
    if blocks.len() == 0 {
        0
    } else {
        minted_in_chain(blocks.drop_last()) + minted(blocks.last().transactions@)
    }
}

/// The ids of a list of transactions, in order.
pub open spec fn tx_ids(txs: Seq<Transaction>) -> Seq<Seq<char>> {
    Seq::new(txs.len(), |i: int| txs[i].id@)
}

/// The ids of every transaction in a chain, block by block, in order.
pub open spec fn chain_tx_ids(blocks: Seq<Block>) -> Seq<Seq<char>>
    decreases blocks.len(),
{
    if blocks.len() == 0 {
        Seq::empty()
    } else {
        chain_tx_ids(blocks.drop_last()) + tx_ids(blocks.last().transactions@)
    }
}

/// Changing one balance changes the total by the difference.
proof fn lemma_total_update(accounts: Seq<(Seq<char>, u64)>, i: int, entry: (Seq<char>, u64))
    requires
        0 <= i < accounts.len(),
    ensures
        total_balance(accounts.update(i, entry)) == total_balance(accounts) - accounts[i].1
            + entry.1,
    decreases accounts.len(),
{
    let updated = accounts.update(i, entry);
    if i < accounts.len() - 1 {
        assert(updated.drop_last() =~= accounts.drop_last().update(i, entry));
        lemma_total_update(accounts.drop_last(), i, entry);
    } else {
        assert(updated.drop_last() =~= accounts.drop_last());
    }
}


/// Setting a balance changes the total by the difference from the old one.
proof fn lemma_total_set_balance(accounts: Seq<(Seq<char>, u64)>, address: Seq<char>, value: u64)
    ensures
        total_balance(set_balance(accounts, address, value)) == total_balance(accounts)
            - balance_of(accounts, address) + value,
{
    lemma_account_index(accounts, address);
    let i = account_index(accounts, address);
    if i >= 0 {
        lemma_total_update(accounts, i, (address, value));
    } else {
        assert(accounts.push((address, value)).drop_last() =~= accounts);
    }
}

/// One transaction leaves the total unchanged, except a coinbase, which adds
/// its amount.
proof fn lemma_apply_tx_conserves(ledger: LedgerView, tx: Transaction)
    requires
        apply_tx(ledger, tx) is Ok,
    ensures
        total_balance(apply_tx(ledger, tx)->Ok_0.accounts) == total_balance(ledger.accounts) + if tx.is_coinbase_tx {
            tx.amount as nat
        } else {
            0
        },
{
    let has = balance_of(ledger.accounts, tx.sender@);
    let debited = if tx.is_coinbase_tx {
        ledger.accounts
    } else {
        set_balance(ledger.accounts, tx.sender@, (has - tx.amount) as u64)
    };
    if !tx.is_coinbase_tx {
        lemma_total_set_balance(ledger.accounts, tx.sender@, (has - tx.amount) as u64);
    }
    let credited = balance_of(debited, tx.recipient@) + tx.amount;
    lemma_total_set_balance(debited, tx.recipient@, credited as u64);
}

/// One transaction appends its id to the confirmed ids, and keeps them free
/// of repeats.
proof fn lemma_apply_tx_spent(ledger: LedgerView, tx: Transaction)
    requires
        apply_tx(ledger, tx) is Ok,
    ensures
        apply_tx(ledger, tx)->Ok_0.spent == ledger.spent.push(tx.id@),
        ledger.spent.no_duplicates() ==> apply_tx(ledger, tx)->Ok_0.spent.no_duplicates(),
{
    let after = ledger.spent.push(tx.id@);
    if ledger.spent.no_duplicates() {
        assert forall|i: int, j: int| 0 <= i < after.len() && 0 <= j < after.len() && i != j implies after[i] != after[j] by {
            if i == after.len() - 1 || j == after.len() - 1 {
                assert(!ledger.spent.contains(tx.id@));
            }
        }
    }
}

/// A list of transactions mints exactly its coinbase amounts, appends its ids
/// to the confirmed ids, and keeps them free of repeats.
proof fn lemma_apply_txs_conserves(ledger: LedgerView, txs: Seq<Transaction>)
    requires
        apply_txs(ledger, txs) is Ok,
    ensures
        total_balance(apply_txs(ledger, txs)->Ok_0.accounts) == total_balance(ledger.accounts)
            + minted(txs),
        apply_txs(ledger, txs)->Ok_0.spent == ledger.spent + tx_ids(txs),
        ledger.spent.no_duplicates() ==> apply_txs(ledger, txs)->Ok_0.spent.no_duplicates(),
    decreases txs.len(),
{
    if txs.len() == 0 {
        assert(ledger.spent + tx_ids(txs) =~= ledger.spent);
    } else {
        lemma_apply_txs_conserves(ledger, txs.drop_last());
        let before = apply_txs(ledger, txs.drop_last())->Ok_0;
        lemma_apply_tx_conserves(before, txs.last());
        lemma_apply_tx_spent(before, txs.last());
        assert(tx_ids(txs) =~= tx_ids(txs.drop_last()).push(txs.last().id@));
        assert(ledger.spent + tx_ids(txs) =~= (ledger.spent + tx_ids(txs.drop_last())).push(
            txs.last().id@,
        ));
    }
}

/// Coins are neither created nor destroyed outside the coinbase: the balances
/// a chain produces sum to exactly what its coinbase transactions minted.
pub proof fn lemma_supply_is_what_the_coinbases_minted(blocks: Seq<Block>)
    requires
        index_blocks(blocks) is Ok,
    ensures
        total_balance(index_blocks(blocks)->Ok_0.accounts) == minted_in_chain(blocks),
    decreases blocks.len(),
{
    if blocks.len() > 0 {
        lemma_supply_is_what_the_coinbases_minted(blocks.drop_last());
        lemma_apply_txs_conserves(
            index_blocks(blocks.drop_last())->Ok_0,
            blocks.last().transactions@,
        );
    }
}

/// No transaction is ever confirmed twice: the ledger of a chain records the
/// ids of all its transactions, in order, and no id among them repeats.
pub proof fn lemma_no_transaction_confirmed_twice(blocks: Seq<Block>)
    requires
        index_blocks(blocks) is Ok,
    ensures
        index_blocks(blocks)->Ok_0.spent == chain_tx_ids(blocks),
        chain_tx_ids(blocks).no_duplicates(),
    decreases blocks.len(),
{
    if blocks.len() > 0 {
        lemma_no_transaction_confirmed_twice(blocks.drop_last());
        lemma_apply_txs_conserves(
            index_blocks(blocks.drop_last())->Ok_0,
            blocks.last().transactions@,
        );
    }
}

/// The addresses of the accounts, in order.
pub open spec fn account_addresses(accounts: Seq<(Seq<char>, u64)>) -> Seq<Seq<char>> {
    accounts.map_values(|account: (Seq<char>, u64)| account.0)
}

/// Where `account_index` points: an account of that address, or -1 when no
/// account has it.
proof fn lemma_account_index(accounts: Seq<(Seq<char>, u64)>, address: Seq<char>)
    ensures
        -1 <= account_index(accounts, address) < accounts.len(),
        account_index(accounts, address) >= 0 ==> accounts[account_index(accounts, address)].0
            == address,
        account_index(accounts, address) == -1 ==> forall|j: int|
            0 <= j < accounts.len() ==> (#[trigger] accounts[j]).0 != address,
    decreases accounts.len(),
{
    if accounts.len() > 0 {
        lemma_account_index(accounts.drop_last(), address);
        if account_index(accounts, address) == -1 {
            assert forall|j: int| 0 <= j < accounts.len() implies (#[trigger] accounts[j]).0
                != address by {
                if j < accounts.len() - 1 {
                    assert(accounts[j] == accounts.drop_last()[j]);
                }
            }
        }
    }
}

/// Setting a balance never opens a second account for an address.
proof fn lemma_set_balance_keeps_addresses_distinct(
    accounts: Seq<(Seq<char>, u64)>,
    address: Seq<char>,
    value: u64,
)
    requires
        account_addresses(accounts).no_duplicates(),
    ensures
        account_addresses(set_balance(accounts, address, value)).no_duplicates(),
{
    lemma_account_index(accounts, address);
    let i = account_index(accounts, address);
    if i >= 0 {
        assert(account_addresses(set_balance(accounts, address, value)) =~= account_addresses(
            accounts,
        ));
    } else {
        let before = account_addresses(accounts);
        let after = account_addresses(set_balance(accounts, address, value));
        assert(after =~= before.push(address));
        assert forall|a: int, b: int| 0 <= a < after.len() && 0 <= b < after.len() && a != b implies after[a]
            != after[b] by {
            if a < before.len() && b < before.len() {
                assert(after[a] == before[a] && after[b] == before[b]);
            } else if a < before.len() {
                assert(accounts[a].0 != address);
            } else if b < before.len() {
                assert(accounts[b].0 != address);
            }
        }
    }
}

/// Applying transactions never opens a second account for an address.
proof fn lemma_apply_txs_keeps_addresses_distinct(ledger: LedgerView, txs: Seq<Transaction>)
    requires
        account_addresses(ledger.accounts).no_duplicates(),
        apply_txs(ledger, txs) is Ok,
    ensures
        account_addresses(apply_txs(ledger, txs)->Ok_0.accounts).no_duplicates(),
    decreases txs.len(),
{
    if txs.len() > 0 {
        lemma_apply_txs_keeps_addresses_distinct(ledger, txs.drop_last());
        let before = apply_txs(ledger, txs.drop_last())->Ok_0;
        let tx = txs.last();
        let has = balance_of(before.accounts, tx.sender@);
        let debited = if tx.is_coinbase_tx {
            before.accounts
        } else {
            set_balance(before.accounts, tx.sender@, (has - tx.amount) as u64)
        };
        if !tx.is_coinbase_tx {
            lemma_set_balance_keeps_addresses_distinct(before.accounts, tx.sender@, (has - tx.amount) as u64);
        }
        let credited = balance_of(debited, tx.recipient@) + tx.amount;
        lemma_set_balance_keeps_addresses_distinct(debited, tx.recipient@, credited as u64);
    }
}

/// Every address has at most one account: the ledger a chain produces never
/// lists an address twice, so a balance is one number, not one of several.
pub proof fn lemma_one_account_per_address(blocks: Seq<Block>)
    requires
        index_blocks(blocks) is Ok,
    ensures
        account_addresses(index_blocks(blocks)->Ok_0.accounts).no_duplicates(),
    decreases blocks.len(),
{
    if blocks.len() == 0 {
        assert(account_addresses(empty_ledger().accounts) =~= Seq::<Seq<char>>::empty());
    } else {
        lemma_one_account_per_address(blocks.drop_last());
        lemma_apply_txs_keeps_addresses_distinct(
            index_blocks(blocks.drop_last())->Ok_0,
            blocks.last().transactions@,
        );
    }
}

/// Applying a block to a ledger adds exactly the block's coinbase amounts to
/// the total of all balances.
pub proof fn lemma_block_mints_only_its_coinbase(ledger: LedgerView, block: Block)
    requires
        apply_txs(ledger, block.transactions@) is Ok,
    ensures
        total_balance(apply_txs(ledger, block.transactions@)->Ok_0.accounts) == total_balance(
            ledger.accounts,
        ) + minted(block.transactions@),
{
    lemma_apply_txs_conserves(ledger, block.transactions@);
}

/// One account: an address and its balance.
#[derive(Debug, Clone)]
struct Account {
    address: String,
    balance: u64,
}

/// The account ledger.
#[derive(Debug, Clone)]
pub struct Ledger {
    accounts: Vec<Account>,
    spent: Vec<String>,
}

impl View for Ledger {
    type V = LedgerView;

    closed spec fn view(&self) -> LedgerView {
        LedgerView {
            accounts: Seq::new(
                self.accounts@.len(),
                |i: int| (self.accounts@[i].address@, self.accounts@[i].balance),
            ),
            spent: Seq::new(self.spent@.len(), |i: int| self.spent@[i]@),
        }
    }
}

impl Ledger {
    /// The empty ledger.
    pub fn new() -> (ledger: Ledger)
        ensures
            ledger@ == empty_ledger(),
    {
        let ledger = Ledger { accounts: Vec::new(), spent: Vec::new() };
        assert(ledger@.accounts =~= Seq::empty());
        assert(ledger@.spent =~= Seq::empty());
        ledger
    }

    /// A copy of the ledger.
    pub fn copy(&self) -> (copy: Ledger)
        ensures
            copy@ == self@,
    {
        let mut accounts: Vec<Account> = Vec::new();
        let mut i: usize = 0;
        while i < self.accounts.len()
            invariant
                i <= self.accounts@.len(),
                accounts@.len() == i,
                forall|j: int|
                    0 <= j < i ==> (#[trigger] accounts@[j]).address@ == self.accounts@[j].address@
                        && accounts@[j].balance == self.accounts@[j].balance,
            decreases self.accounts@.len() - i,
        {
            accounts.push(
                Account {
                    address: self.accounts[i].address.clone(),
                    balance: self.accounts[i].balance,
                },
            );
            i = i + 1;
        }
        let mut spent: Vec<String> = Vec::new();
        let mut k: usize = 0;
        while k < self.spent.len()
            invariant
                k <= self.spent@.len(),
                spent@.len() == k,
                forall|j: int| 0 <= j < k ==> (#[trigger] spent@[j])@ == self.spent@[j]@,
            decreases self.spent@.len() - k,
        {
            spent.push(self.spent[k].clone());
            k = k + 1;
        }
        let copy = Ledger { accounts, spent };
        assert(copy@.accounts =~= self@.accounts);
        assert(copy@.spent =~= self@.spent);
        copy
    }

    /// Where the account of `address` sits.
    fn find(&self, address: &str) -> (found: Option<usize>)
        ensures
            match found {
                Some(i) => i as int == account_index(self@.accounts, address@) && i
                    < self.accounts@.len(),
                None => account_index(self@.accounts, address@) == -1,
            },
    {
        let ghost accounts = self@.accounts;
        let mut i: usize = self.accounts.len();
        assert(accounts.subrange(0, i as int) =~= accounts);
        while i > 0
            invariant
                i <= self.accounts@.len(),
                accounts == self@.accounts,
                account_index(accounts, address@) == account_index(
                    accounts.subrange(0, i as int),
                    address@,
                ),
            decreases i,
        {
            let ghost prefix = accounts.subrange(0, i as int);
            assert(prefix.last() == accounts[i - 1]);
            if same_text(self.accounts[i - 1].address.as_str(), address) {
                return Some(i - 1);
            }
            assert(prefix.drop_last() =~= accounts.subrange(0, i - 1));
            i = i - 1;
        }
        None
    }

    /// The balance of `address`, zero when it has no account.
    pub fn balance(&self, address: &str) -> (balance: u64)
        ensures
            balance == balance_of(self@.accounts, address@),
    {
        match self.find(address) {
            Some(i) => self.accounts[i].balance,
            None => 0,
        }
    }

    /// Set the balance of `address`, opening its account when it has none.
    fn set_balance(&mut self, address: &str, value: u64)
        ensures
            final(self)@ == (LedgerView {
                accounts: set_balance(old(self)@.accounts, address@, value),
                ..old(self)@
            }),
    {
        let ghost before = self@;
        match self.find(address) {
            Some(i) => {
                self.accounts.set(i, Account { address: String::from_str(address), balance: value });
            },
            None => {
                self.accounts.push(Account { address: String::from_str(address), balance: value });
            },
        }
        assert(self@.accounts =~= set_balance(before.accounts, address@, value));
        assert(self@.spent =~= before.spent);
    }

    /// Whether the transaction id `id` is already confirmed.
    pub fn is_spent(&self, id: &str) -> (spent: bool)
        ensures
            spent == self@.spent.contains(id@),
    {
        let mut i: usize = 0;
        while i < self.spent.len()
            invariant
                i <= self.spent@.len(),
                forall|j: int| 0 <= j < i ==> self@.spent[j] != id@,
            decreases self.spent@.len() - i,
        {
            if same_text(self.spent[i].as_str(), id) {
                assert(self@.spent[i as int] == id@);
                return true;
            }
            i = i + 1;
        }
        false
    }

    /// Record `id` as confirmed.
    fn confirm(&mut self, id: &str)
        ensures
            final(self)@ == (LedgerView { spent: old(self)@.spent.push(id@), ..old(self)@ }),
    {
        let ghost before = self@;
        self.spent.push(String::from_str(id));
        assert(self@.spent =~= before.spent.push(id@));
        assert(self@.accounts =~= before.accounts);
    }

    /// Apply one transaction.
    pub fn apply_transaction(self, tx: &Transaction) -> (result: Result<Ledger, BlockchainError>)
        ensures
            match apply_tx(self@, *tx) {
                Ok(after) => result matches Ok(l) && l@ == after,
                Err(fault) => result matches Err(e) && e@ == fault,
            },
    {
        let mut ledger = self;
        let ghost before = ledger@;
        if ledger.is_spent(tx.id.as_str()) {
            let mut message = String::from_str("Transaction ");
            message.append(tx.id.as_str());
            message.append(" appears more than once in the chain");
            return Err(BlockchainError::InvalidTransaction(message));
        }
        if !tx.is_coinbase() {
            let has = ledger.balance(tx.sender.as_str());
            if has < tx.amount {
                return Err(BlockchainError::InsufficientBalance { has, needs: tx.amount });
            }
            ledger.set_balance(tx.sender.as_str(), has - tx.amount);
        }
        let held = ledger.balance(tx.recipient.as_str());
        match held.checked_add(tx.amount) {
            Some(credited) => {
                ledger.set_balance(tx.recipient.as_str(), credited);
            },
            None => {
                let mut message = String::from_str("Transaction ");
                message.append(tx.id.as_str());
                message.append(" overflows the recipient balance");
                return Err(BlockchainError::InvalidTransaction(message));
            },
        }
        ledger.confirm(tx.id.as_str());
        Ok(ledger)
    }

    /// Apply a block's transactions in order.
    pub fn apply_block(self, block: &Block) -> (result: Result<Ledger, BlockchainError>)
        ensures
            match apply_txs(self@, block.transactions@) {
                Ok(after) => result matches Ok(l) && l@ == after,
                Err(fault) => result matches Err(e) && e@ == fault,
            },
    {
        let mut ledger = self;
        let ghost start = ledger@;
        let txs = &block.transactions;
        let mut i: usize = 0;
        assert(txs@.subrange(0, 0) =~= Seq::<Transaction>::empty());
        while i < txs.len()
            invariant
                i <= txs@.len(),
                start == self@,
                txs@ == block.transactions@,
                apply_txs(start, txs@.subrange(0, i as int)) == Ok::<LedgerView, ChainFault>(
                    ledger@,
                ),
            decreases txs@.len() - i,
        {
            assert(txs@.subrange(0, i + 1).drop_last() =~= txs@.subrange(0, i as int));
            let ghost current = ledger@;
            match ledger.apply_transaction(&txs[i]) {
                Ok(next) => {
                    ledger = next;
                },
                Err(e) => {
                    proof {
                        assert(txs@.subrange(0, i + 1).last() == txs@[i as int]);
                        assert(apply_txs(start, txs@.subrange(0, i + 1)) == apply_tx(
                            current,
                            txs@[i as int],
                        ));
                        lemma_apply_txs_stops_at_refusal(start, txs@, i as int);
                    }
                    return Err(e);
                },
            }
            i = i + 1;
        }
        assert(txs@.subrange(0, txs@.len() as int) =~= txs@);
        Ok(ledger)
    }

    /// The sum of all balances, saturating at `u64::MAX`.
    pub fn total(&self) -> (total: u64)
        ensures
            total as nat == if total_balance(self@.accounts) <= u64::MAX {
                total_balance(self@.accounts)
            } else {
                u64::MAX as nat
            },
    {
        let ghost accounts = self@.accounts;
        let mut total: u64 = 0;
        let mut i: usize = 0;
        while i < self.accounts.len()
            invariant
                i <= self.accounts@.len(),
                accounts == self@.accounts,
                total as nat == if total_balance(accounts.subrange(0, i as int)) <= u64::MAX {
                    total_balance(accounts.subrange(0, i as int))
                } else {
                    u64::MAX as nat
                },
            decreases self.accounts@.len() - i,
        {
            assert(accounts.subrange(0, i + 1).drop_last() =~= accounts.subrange(0, i as int));
            total = total.saturating_add(self.accounts[i].balance);
            i = i + 1;
        }
        assert(accounts.subrange(0, i as int) =~= accounts);
        total
    }
}

/// Once a transaction in the list is refused, the whole list is refused with
/// the same fault.
proof fn lemma_apply_txs_stops_at_refusal(start: LedgerView, txs: Seq<Transaction>, i: int)
    requires
        0 <= i < txs.len(),
        apply_txs(start, txs.subrange(0, i)) matches Ok(before) && apply_tx(before, txs[i]) is Err,
    ensures
        apply_txs(start, txs) == apply_txs(start, txs.subrange(0, i + 1)),
        apply_txs(start, txs) is Err,
    decreases txs.len() - i,
{
    assert(txs.subrange(0, i + 1).drop_last() =~= txs.subrange(0, i));
    if i + 1 < txs.len() {
        lemma_apply_txs_err_extends(start, txs, i + 1);
    } else {
        assert(txs.subrange(0, i + 1) =~= txs);
    }
}

/// A refused prefix stays refused, with the same fault, as the list grows.
proof fn lemma_apply_txs_err_extends(start: LedgerView, txs: Seq<Transaction>, k: int)
    requires
        0 <= k <= txs.len(),
        apply_txs(start, txs.subrange(0, k)) is Err,
    ensures
        apply_txs(start, txs) == apply_txs(start, txs.subrange(0, k)),
    decreases txs.len() - k,
{
    if k < txs.len() {
        assert(txs.subrange(0, k + 1).drop_last() =~= txs.subrange(0, k));
        lemma_apply_txs_err_extends(start, txs, k + 1);
    } else {
        assert(txs.subrange(0, k) =~= txs);
    }
}

} // verus!
