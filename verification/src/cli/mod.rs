//! CLI module - the commands of the command-line interface
//!
//! Provides commands for:
//! - Creating and managing wallets
//! - Sending transactions
//! - Mining blocks
//! - Viewing blockchain state
//! - Running a network node
//!
//! The command types are plain data; reading them from the process arguments
//! is the application's job. What the commands decide on their own (which
//! block an identifier names, how a history entry reads, how a long text is
//! shortened for display) is here.
use vstd::prelude::*;
use vstd::string::*;

use crate::chain::block::Block;
use crate::chain::blockchain::Blockchain;
use crate::chain::transaction::Transaction;
use crate::text::same_text;

verus! {

/// A file system path.
#[verifier::external_type_specification]
#[verifier::external_body]
pub struct ExPathBuf(std::path::PathBuf);

/// RustChain - A blockchain implementation in Rust
pub struct Cli {
    /// Sets a custom config file
    pub config: Option<std::path::PathBuf>,
    /// Turn debugging information on (how many times `-d` was given)
    pub debug: u8,
    /// The subcommand to run
    pub command: Commands,
}

/// The top-level commands `rustchain` accepts
pub enum Commands {
    /// Initialize a new blockchain
    Init {
        /// Starting mining difficulty (number of leading zeros); retargets from there
        difficulty: usize,
        /// Output file for blockchain data
        output: std::path::PathBuf,
    },
    /// Create a new wallet
    Wallet {
        /// The wallet operation to run
        action: WalletCommands,
    },
    /// Transaction operations
    Transaction {
        /// The transaction operation to run
        action: TransactionCommands,
    },
    /// Mine a new block
    Mine {
        /// Miner wallet address
        address: String,
        /// Blockchain data file
        blockchain: std::path::PathBuf,
    },
    /// Show blockchain information
    Info {
        /// Blockchain data file
        blockchain: std::path::PathBuf,
        /// Show detailed block information
        verbose: bool,
    },
    /// Show a specific block
    Block {
        /// Block index or hash
        identifier: String,
        /// Blockchain data file
        blockchain: std::path::PathBuf,
    },
    /// Check balance of an address
    Balance {
        /// Wallet address
        address: String,
        /// Blockchain data file
        blockchain: std::path::PathBuf,
    },
    /// Validate the blockchain
    Validate {
        /// Blockchain data file
        blockchain: std::path::PathBuf,
    },
    /// Run a network node
    Node {
        /// Port to listen on
        port: u16,
        /// Blockchain data file
        blockchain: std::path::PathBuf,
        /// Peer nodes to connect to
        peers: Vec<String>,
    },
    /// Run interactive demo
    Demo {
        /// Mining difficulty for demo
        difficulty: usize,
    },
}

/// Wallet operations: key generation, inspection and import
pub enum WalletCommands {
    /// Create a new wallet
    Create {
        /// Output file for wallet
        output: Option<std::path::PathBuf>,
    },
    /// Show wallet details
    Show {
        /// Wallet file
        file: std::path::PathBuf,
    },
    /// Import wallet from private key
    Import {
        /// Private key
        key: String,
        /// Output file for wallet
        output: Option<std::path::PathBuf>,
    },
}

/// Transaction operations: creation, the mempool, and history
pub enum TransactionCommands {
    /// Create a new transaction
    Create {
        /// Sender wallet file
        wallet: std::path::PathBuf,
        /// Recipient address
        to: String,
        /// Amount to send
        amount: u64,
        /// Blockchain data file
        blockchain: std::path::PathBuf,
    },
    /// List pending transactions
    Pending {
        /// Blockchain data file
        blockchain: std::path::PathBuf,
    },
    /// Show transaction history for an address
    History {
        /// Wallet address
        address: String,
        /// Blockchain data file
        blockchain: std::path::PathBuf,
    },
}

/// The first `chars` characters of `value`, or all of it when it is shorter.
pub open spec fn spec_short(value: Seq<char>, chars: nat) -> Seq<char> {
    if chars < value.len() {
        value.subrange(0, chars as int)
    } else {
        value
    }
}

/// Truncate a string for display without ever cutting a character in two.
///
/// Chain data is untrusted input: a short or non-ASCII address must not
/// panic the CLI.
pub fn short(value: &str, chars: usize) -> (shortened: &str)
    ensures
        shortened@ == spec_short(value@, chars as nat),
{
    let len = value.unicode_len();
    if chars < len {
        value.substring_char(0, chars)
    } else {
        value
    }
}

/// Whether `c` is an ASCII decimal digit.
pub open spec fn is_digit(c: char) -> bool {
    '0' <= c && c <= '9'
}

/// The number a string of decimal digits spells.
pub open spec fn digits_value(digits: Seq<char>) -> nat
    decreases digits.len(),
{
    if digits.len() == 0 {
        0
    } else {
        digits_value(digits.drop_last()) * 10 + (digits.last() as nat - '0' as nat) as nat
    }
}

/// The digits of a number's text: the text without a leading `+`.
pub open spec fn unsigned_digits(text: Seq<char>) -> Seq<char> {
    if text.len() > 0 && text[0] == '+' {
        text.drop_first()
    } else {
        text
    }
}

/// Every character is an ASCII decimal digit.
pub open spec fn all_digits(s: Seq<char>) -> bool {
    forall|i: int| 0 <= i < s.len() ==> is_digit(#[trigger] s[i])
}

/// What parsing `text` as a `u64` gives: an optional `+`, then one or more
/// decimal digits, spelling a number no larger than `u64::MAX`; anything
/// else is no number.
pub open spec fn spec_parse_u64(text: Seq<char>) -> Option<u64> {
    let digits = unsigned_digits(text);
    if digits.len() == 0 || !all_digits(digits) || digits_value(digits) > u64::MAX {
        None
    } else {
        Some(digits_value(digits) as u64)
    }
}

/// A prefix of a digit string spells no more than the whole.
proof fn lemma_digits_value_prefix(digits: Seq<char>, i: int)
    requires
        0 <= i <= digits.len(),
        all_digits(digits),
    ensures
        digits_value(digits.subrange(0, i)) <= digits_value(digits),
    decreases digits.len() - i,
{
    if i < digits.len() {
        lemma_digits_value_prefix(digits, i + 1);
        assert(digits.subrange(0, i + 1).drop_last() =~= digits.subrange(0, i));
    } else {
        assert(digits.subrange(0, i) =~= digits);
    }
}

/// Parse `text` as a `u64`, as `str::parse::<u64>` does.
pub fn parse_u64(text: &str) -> (value: Option<u64>)
    ensures
        value == spec_parse_u64(text@),
{
    let len = text.unicode_len();
    let start: usize = if len > 0 && text.get_char(0) == '+' {
        1
    } else {
        0
    };
    let ghost digits = unsigned_digits(text@);
    assert(digits =~= text@.subrange(start as int, len as int));
    if start == len {
        return None;
    }
    let mut value: u64 = 0;
    let mut i: usize = start;
    assert(digits.subrange(0, 0) =~= Seq::<char>::empty());
    while i < len
        invariant
            start <= i <= len,
            len == text@.len(),
            digits =~= text@.subrange(start as int, len as int),
            digits == unsigned_digits(text@),
            digits.len() > 0,
            forall|j: int| 0 <= j < i - start ==> is_digit(#[trigger] digits[j]),
            value as nat == digits_value(digits.subrange(0, i - start)),
        decreases len - i,
    {
        let c = text.get_char(i);
        assert(c == digits[i - start]);
        if c < '0' || c > '9' {
            assert(!is_digit(digits[i - start]));
            assert(!all_digits(digits));
            assert(spec_parse_u64(text@) is None);
            return None;
        }
        assert(digits.subrange(0, i + 1 - start).drop_last() =~= digits.subrange(0, i - start));
        assert(digits.subrange(0, i + 1 - start).last() == c);
        let d = (c as u32 - '0' as u32) as u64;
        let next = match value.checked_mul(10) {
            Some(v) => v.checked_add(d),
            None => None,
        };
        match next {
            Some(v) => {
                value = v;
            },
            None => {
                proof {
                    assert(digits_value(digits.subrange(0, i + 1 - start)) > u64::MAX);
                    if all_digits(digits) {
                        lemma_digits_value_prefix(digits, i + 1 - start);
                    }
                    assert(spec_parse_u64(text@) is None);
                }
                return None;
            },
        }
        i = i + 1;
    }
    assert(digits.subrange(0, len - start) =~= digits);
    Some(value)
}

/// The block an identifier names: the block at that index when it parses as
/// a number, otherwise the first block with that hash.
pub fn find_block<'a>(blockchain: &'a Blockchain, identifier: &str) -> (block: Option<&'a Block>)
    ensures
        match spec_parse_u64(identifier@) {
            Some(index) => match block {
                Some(b) => index < blockchain.blocks().len() && *b == blockchain.blocks()[index as int],
                None => index >= blockchain.blocks().len(),
            },
            None => match block {
                Some(b) => exists|i: int|
                    0 <= i < blockchain.blocks().len() && *b == blockchain.blocks()[i] && b.hash@
                        == identifier@ && forall|j: int|
                        0 <= j < i ==> (#[trigger] blockchain.blocks()[j]).hash@ != identifier@,
                None => forall|j: int|
                    0 <= j < blockchain.blocks().len() ==> (#[trigger] blockchain.blocks()[j]).hash@
                        != identifier@,
            },
        },
{
    match parse_u64(identifier) {
        Some(index) => blockchain.get_block(index),
        None => blockchain.get_block_by_hash(identifier),
    }
}

/// One line of an address's history: whether the address sent or received,
/// how much, and the other party.
pub struct HistoryEntry {
    pub sent: bool,
    pub amount: u64,
    pub counterparty: String,
}

/// How a transaction reads in the history of `address`: sent when the
/// address is the sender, with the recipient as the other party; received
/// otherwise, with the sender as the other party.
pub fn history_entry(tx: &Transaction, address: &str) -> (entry: HistoryEntry)
    ensures
        entry.sent == (tx.sender@ == address@),
        entry.amount == tx.amount,
        entry.counterparty@ == if entry.sent {
            tx.recipient@
        } else {
            tx.sender@
        },
{
    let sent = same_text(tx.sender.as_str(), address);
    let counterparty = if sent {
        tx.recipient.clone()
    } else {
        tx.sender.clone()
    };
    HistoryEntry { sent, amount: tx.amount, counterparty }
}

} // verus!
