use rustchain::chain::block::Block;
use rustchain::chain::blockchain::Blockchain;
use rustchain::chain::transaction::Transaction;
use rustchain::network::{
    add_peer, adopt_longer_chain, announced_length, answer_is_taller, frame_message, learn_peers,
    listen_address, react, Message, MAX_MESSAGE_SIZE, MAX_TXS_PER_BLOCK,
};
use rustchain::wallet::Wallet;

#[test]
fn a_frame_is_the_big_endian_length_then_the_payload() {
    let framed = frame_message(b"hello").expect("a small payload frames");

    assert_eq!(framed, [&[0u8, 0, 0, 5][..], b"hello"].concat());
    assert_eq!(announced_length(&framed[..4]), Ok(5));
}

#[test]
fn an_oversized_payload_is_not_framed() {
    let payload = vec![0u8; MAX_MESSAGE_SIZE + 1];

    assert_eq!(
        frame_message(&payload),
        Err("message of 8388609 bytes exceeds the 8388608 byte limit".to_string())
    );
}

#[test]
fn an_oversized_announcement_is_refused_before_reading() {
    assert_eq!(
        announced_length(&[0xff, 0xff, 0xff, 0xff]),
        Err("announced message of 4294967295 bytes exceeds the 8388608 byte limit".to_string())
    );
    assert_eq!(announced_length(&[0, 0x80, 0, 0]), Ok(MAX_MESSAGE_SIZE));
    assert!(announced_length(&[0, 0x80, 0, 1]).is_err());
}

#[test]
fn a_ping_gets_a_pong() {
    let mut bc = Blockchain::with_difficulty(1);
    let mut peers = Vec::new();

    let reaction = react(&mut bc, &mut peers, Message::Ping, "127.0.0.1:1", "0.1.0");

    assert!(matches!(reaction.reply, Some(Message::Pong)));
    assert!(!reaction.persist);
    assert!(reaction.broadcast.is_none());
}

#[test]
fn a_handshake_records_the_listening_address_once() {
    let mut bc = Blockchain::with_difficulty(1);
    let mut peers = Vec::new();
    let hello = || Message::Version {
        version: "0.1.0".into(),
        height: 3,
        listen_address: "127.0.0.1:9000".into(),
    };

    let reaction = react(&mut bc, &mut peers, hello(), "127.0.0.1:8333", "0.1.0");
    react(&mut bc, &mut peers, hello(), "127.0.0.1:8333", "0.1.0");

    assert_eq!(peers, vec!["127.0.0.1:9000".to_string()]);
    assert_eq!(reaction.pull_from, Some("127.0.0.1:9000".to_string()));
    match reaction.reply {
        Some(Message::Version { version, height, listen_address }) => {
            assert_eq!(version, "0.1.0");
            assert_eq!(height, 1);
            assert_eq!(listen_address, "127.0.0.1:8333");
        }
        _ => panic!("a handshake is answered with ours"),
    }
}

#[test]
fn a_valid_block_is_added_persisted_and_passed_on() {
    let mut bc = Blockchain::with_difficulty(1);
    let mut peers = Vec::new();
    let coinbase = Transaction::coinbase("miner".into(), bc.mining_reward);
    let tip = bc.latest_block().expect("genesis").hash.clone();
    let mut block = Block::new(1, vec![coinbase], tip);
    block.mine(bc.next_difficulty());
    let hash = block.hash.clone();

    let reaction = react(&mut bc, &mut peers, Message::NewBlock(block), "a", "v");

    assert_eq!(bc.len(), 2);
    assert!(reaction.persist);
    assert!(reaction.reply.is_none());
    assert!(matches!(reaction.broadcast, Some(Message::NewBlock(ref b)) if b.hash == hash));
}

#[test]
fn a_block_with_too_many_transactions_is_dropped_unexamined() {
    let mut bc = Blockchain::with_difficulty(1);
    let mut peers = Vec::new();
    let txs: Vec<Transaction> = (0..=MAX_TXS_PER_BLOCK)
        .map(|_| Transaction::coinbase("m".into(), 1))
        .collect();
    let block = Block::new(1, txs, "x".into());

    let reaction = react(&mut bc, &mut peers, Message::NewBlock(block), "a", "v");

    assert_eq!(bc.len(), 1);
    assert!(reaction.reply.is_none() && !reaction.persist && reaction.broadcast.is_none());
}

#[test]
fn a_refused_transaction_is_neither_kept_nor_passed_on() {
    let mut bc = Blockchain::with_difficulty(1);
    let mut peers = Vec::new();
    let pauper = Wallet::new();
    let tx = pauper.create_transaction("bob", 10).expect("signs");

    let reaction = react(&mut bc, &mut peers, Message::NewTransaction(tx), "a", "v");

    assert!(bc.pending_transactions.is_empty());
    assert!(!reaction.persist && reaction.broadcast.is_none() && reaction.reply.is_none());
}

#[test]
fn requests_for_the_tip_the_chain_and_the_peers_are_answered_with_copies() {
    let mut bc = Blockchain::with_difficulty(1);
    let mut peers = vec!["p1".to_string()];

    let tip = react(&mut bc, &mut peers, Message::GetLatestBlock, "a", "v");
    let chain = react(&mut bc, &mut peers, Message::GetBlockchain, "a", "v");
    let known = react(&mut bc, &mut peers, Message::GetPeers, "a", "v");

    assert!(matches!(tip.reply, Some(Message::LatestBlock(ref b)) if b.hash == bc.chain[0].hash));
    assert!(matches!(chain.reply, Some(Message::FullBlockchain(ref c)) if c.len() == 1));
    assert!(matches!(known.reply, Some(Message::Peers(ref p)) if p == &peers));
}

#[test]
fn peers_are_learned_without_ourselves_or_repeats() {
    let mut peers = vec!["a".to_string()];
    add_peer(&mut peers, "a".to_string());
    learn_peers(
        &mut peers,
        vec!["me".into(), "b".into(), "a".into(), "b".into()],
        "me",
    );

    assert_eq!(peers, vec!["a".to_string(), "b".to_string()]);
    assert_eq!(listen_address(8333), "127.0.0.1:8333");
}

#[test]
fn a_chain_no_longer_than_ours_is_not_adopted() {
    let mut bc = Blockchain::with_difficulty(1);
    let same = bc.chain.clone();

    assert!(!adopt_longer_chain(&mut bc, same));
    assert_eq!(bc.len(), 1);
}

#[test]
fn a_longer_valid_chain_is_adopted() {
    let mut ours = Blockchain::with_difficulty(1);
    let mut theirs = Blockchain::with_difficulty(1);
    theirs.mine_pending_transactions("miner").expect("mines");

    assert!(adopt_longer_chain(&mut ours, theirs.chain.clone()));
    assert_eq!(ours.len(), 2);
    assert_eq!(ours.get_balance("miner"), 50);
}

#[test]
fn a_handshake_from_a_peer_no_taller_pulls_nothing() {
    let mut bc = Blockchain::with_difficulty(1);
    let mut peers = Vec::new();
    let hello = Message::Version {
        version: "0.1.0".into(),
        height: 1,
        listen_address: "127.0.0.1:9000".into(),
    };

    let reaction = react(&mut bc, &mut peers, hello, "127.0.0.1:8333", "0.1.0");

    assert_eq!(reaction.pull_from, None);
    assert!(reaction.broadcast.is_none() && !reaction.persist);
}

#[test]
fn a_block_that_will_not_attach_asks_for_the_senders_chain() {
    let mut ahead = Blockchain::with_difficulty(1);
    let mut bc = Blockchain::with_difficulty(1);
    let mut peers = Vec::new();
    ahead.mine_pending_transactions("miner").expect("mines");
    let tip = ahead.mine_pending_transactions("miner").expect("mines");

    let reaction = react(&mut bc, &mut peers, Message::NewBlock(tip), "a", "v");

    assert_eq!(bc.len(), 1);
    assert!(matches!(reaction.reply, Some(Message::GetBlockchain)));
    assert!(!reaction.persist && reaction.broadcast.is_none() && reaction.pull_from.is_none());

    let answer = react(&mut ahead, &mut peers, Message::GetBlockchain, "b", "v");
    let history = match answer.reply {
        Some(Message::FullBlockchain(chain)) => chain,
        _ => panic!("a chain request is answered with the chain"),
    };
    let adopted = react(&mut bc, &mut peers, Message::FullBlockchain(history), "a", "v");

    assert!(adopted.persist);
    assert!(adopted.reply.is_none());
    assert_eq!(bc.len(), 3);
    assert_eq!(bc.latest_block().map(|b| b.hash.clone()), ahead.latest_block().map(|b| b.hash.clone()));
}

#[test]
fn a_pushed_chain_no_longer_than_ours_is_ignored() {
    let mut bc = Blockchain::with_difficulty(1);
    let mut shorter = Blockchain::with_difficulty(1);
    let mut peers = Vec::new();
    bc.mine_pending_transactions("ours").expect("mines");
    let tip = bc.latest_block().map(|b| b.hash.clone());
    shorter.mine_pending_transactions("theirs").expect("mines");

    let reaction = react(&mut bc, &mut peers, Message::FullBlockchain(shorter.chain.clone()), "a", "v");

    assert!(!reaction.persist && reaction.reply.is_none());
    assert_eq!(bc.len(), 2);
    assert_eq!(bc.latest_block().map(|b| b.hash.clone()), tip);
}

#[test]
fn the_dialler_pulls_only_from_a_taller_answer() {
    let bc = Blockchain::with_difficulty(1);
    let taller = Message::Version { version: "v".into(), height: 2, listen_address: "x".into() };
    let level = Message::Version { version: "v".into(), height: 1, listen_address: "x".into() };

    assert!(answer_is_taller(&bc, &taller));
    assert!(!answer_is_taller(&bc, &level));
    assert!(!answer_is_taller(&bc, &Message::Pong));
}

#[test]
fn a_handshake_records_the_peer() {
    let mut bc = Blockchain::with_difficulty(2);
    let mut peers = Vec::new();

    let reaction = react(
        &mut bc,
        &mut peers,
        Message::Version {
            version: "0.1.0".to_string(),
            height: 1,
            listen_address: "127.0.0.1:18444".to_string(),
        },
        "127.0.0.1:18333",
        "0.1.0",
    );

    assert!(matches!(reaction.reply, Some(Message::Version { .. })));
    assert!(peers.contains(&"127.0.0.1:18444".to_string()));
}
