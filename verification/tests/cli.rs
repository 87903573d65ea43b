use rustchain::chain::blockchain::Blockchain;
use rustchain::chain::transaction::Transaction;
use rustchain::cli::{find_block, history_entry, parse_u64, short};

#[test]
fn short_keeps_whole_characters() {
    assert_eq!(short("abcdef", 3), "abc");
    assert_eq!(short("ab", 3), "ab");
    assert_eq!(short("héllo", 2), "hé");
    assert_eq!(short("", 0), "");
}

#[test]
fn numbers_parse_as_the_standard_library_parses_them() {
    assert_eq!(parse_u64("0"), Some(0));
    assert_eq!(parse_u64("+42"), Some(42));
    assert_eq!(parse_u64("18446744073709551615"), Some(u64::MAX));
    assert_eq!(parse_u64("18446744073709551616"), None);
    assert_eq!(parse_u64(""), None);
    assert_eq!(parse_u64("+"), None);
    assert_eq!(parse_u64("-1"), None);
    assert_eq!(parse_u64("12a"), None);
    for text in ["7", "007", "+0", "99999999999999999999", "1 2"] {
        assert_eq!(parse_u64(text), text.parse::<u64>().ok(), "{}", text);
    }
}

#[test]
fn a_block_is_found_by_index_or_by_hash() {
    let mut bc = Blockchain::with_difficulty(1);
    bc.mine_pending_transactions("miner").expect("mines");
    let hash = bc.chain[1].hash.clone();

    assert_eq!(find_block(&bc, "1").map(|b| b.index), Some(1));
    assert_eq!(find_block(&bc, &hash).map(|b| b.index), Some(1));
    assert!(find_block(&bc, "2").is_none());
    assert!(find_block(&bc, "no-such-hash").is_none());
}

#[test]
fn a_history_entry_names_the_other_party() {
    let tx = Transaction::new("alice".into(), "bob".into(), 7);

    let sent = history_entry(&tx, "alice");
    let received = history_entry(&tx, "bob");

    assert!(sent.sent);
    assert_eq!(sent.counterparty, "bob");
    assert!(!received.sent);
    assert_eq!(received.counterparty, "alice");
    assert_eq!(received.amount, 7);
}
