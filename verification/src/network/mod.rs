//! Network module - the peer protocol of blockchain nodes
//!
//! This module holds what a node decides, apart from the sockets it decides
//! over:
//! - The messages nodes exchange
//! - Framing: a 4-byte big-endian length, then the payload, with a size limit
//!   enforced before anything is allocated
//! - How a node answers each message, and what it changes, persists, passes
//!   on and pulls: a block that does not attach, or a handshake from a taller
//!   peer, pulls that peer's chain, and a longer chain is adopted when chain
//!   replacement (heaviest valid chain) takes it
//! - Peer bookkeeping
use vstd::prelude::*;
use vstd::string::*;

use crate::chain::block::{same_block, Block};
use crate::chain::blockchain::{admission_overflows, spec_admit, Blockchain};
use crate::chain::hashing::u32_be;
use crate::chain::transaction::Transaction;
use crate::text::{decimal_digits, same_text, u64_decimal};

verus! {

/// Default P2P port
pub const DEFAULT_PORT: u16 = 8333;

/// Maximum message size (8MB) to prevent denial-of-service via oversized
/// messages.
///
/// Enforced against the length prefix *before* any payload is allocated, so
/// an oversized message costs four bytes rather than its own size.
pub const MAX_MESSAGE_SIZE: usize = 8388608;

/// Maximum number of transactions per block a node accepts from the network
pub const MAX_TXS_PER_BLOCK: usize = 1000;

/// Maximum number of simultaneous inbound connections
pub const MAX_INBOUND_CONNECTIONS: usize = 64;

/// How long a connection may sit idle before it is dropped, in seconds
pub const IDLE_TIMEOUT_SECS: u64 = 120;

/// Network message types
#[derive(Debug, Clone)]
pub enum Message {
    /// Request the latest block
    GetLatestBlock,
    /// Response with the latest block
    LatestBlock(Block),
    /// Request the full blockchain
    GetBlockchain,
    /// Response with the full blockchain
    FullBlockchain(Vec<Block>),
    /// Broadcast a new block
    NewBlock(Block),
    /// Broadcast a new transaction
    NewTransaction(Transaction),
    /// Request peer list
    GetPeers,
    /// Response with peer list
    Peers(Vec<String>),
    /// Ping to check liveness
    Ping,
    /// Pong response
    Pong,
    /// Node version/handshake.
    ///
    /// `listen_address` is the address the sender accepts connections on, so
    /// an inbound peer can be recorded and propagation works both ways.
    Version { version: String, height: u64, listen_address: String },
}

/// A framed message: the payload's length in four big-endian bytes, then the
/// payload.
pub open spec fn spec_frame(payload: Seq<u8>) -> Seq<u8> {
    u32_be(payload.len() as u32) + payload
}

/// The message for a payload over the size limit.
pub open spec fn oversized_message(len: nat) -> Seq<char> {
    "message of "@ + decimal_digits(len) + " bytes exceeds the "@ + decimal_digits(
        MAX_MESSAGE_SIZE as nat,
    ) + " byte limit"@
}

/// The message for an announced length over the size limit.
pub open spec fn oversized_announcement(len: nat) -> Seq<char> {
    "announced message of "@ + decimal_digits(len) + " bytes exceeds the "@ + decimal_digits(
        MAX_MESSAGE_SIZE as nat,
    ) + " byte limit"@
}

/// The length four big-endian bytes announce.
pub open spec fn header_length(header: Seq<u8>) -> nat {
    (header[0] * 16777216 + header[1] * 65536 + header[2] * 256 + header[3]) as nat
}

/// Frame one serialized message for the wire.
///
/// A payload over `MAX_MESSAGE_SIZE` is refused rather than sent.
pub fn frame_message(payload: &[u8]) -> (framed: Result<Vec<u8>, String>)
    ensures
        payload@.len() > MAX_MESSAGE_SIZE ==> (framed matches Err(m) && m@ == oversized_message(
            payload@.len(),
        )),
        payload@.len() <= MAX_MESSAGE_SIZE ==> (framed matches Ok(bytes) && bytes@ == spec_frame(
            payload@,
        )),
{
    if payload.len() > MAX_MESSAGE_SIZE {
        let mut message = String::from_str("message of ");
        let len_text = u64_decimal(payload.len() as u64);
        message.append(len_text.as_str());
        message.append(" bytes exceeds the ");
        let max_text = u64_decimal(MAX_MESSAGE_SIZE as u64);
        message.append(max_text.as_str());
        message.append(" byte limit");
        return Err(message);
    }
    let n = payload.len() as u32;
    let mut framed: Vec<u8> = Vec::new();
    framed.push((n >> 24u32) as u8);
    framed.push((n >> 16u32) as u8);
    framed.push((n >> 8u32) as u8);
    framed.push(n as u8);
    assert(framed@ == u32_be(n));
    crate::text::push_bytes(&mut framed, payload);
    Ok(framed)
}

/// The payload length a frame header announces, refused when it is over
/// `MAX_MESSAGE_SIZE`.
pub fn announced_length(header: &[u8]) -> (length: Result<usize, String>)
    requires
        header@.len() == 4,
    ensures
        header_length(header@) > MAX_MESSAGE_SIZE ==> (length matches Err(m) && m@
            == oversized_announcement(header_length(header@))),
        header_length(header@) <= MAX_MESSAGE_SIZE ==> (length matches Ok(n) && n
            == header_length(header@)),
{
    let value: u64 = header[0] as u64 * 16777216 + header[1] as u64 * 65536 + header[2] as u64 * 256
        + header[3] as u64;
    if value > MAX_MESSAGE_SIZE as u64 {
        let mut message = String::from_str("announced message of ");
        let len_text = u64_decimal(value);
        message.append(len_text.as_str());
        message.append(" bytes exceeds the ");
        let max_text = u64_decimal(MAX_MESSAGE_SIZE as u64);
        message.append(max_text.as_str());
        message.append(" byte limit");
        return Err(message);
    }
    Ok(value as usize)
}

/// A frame header announces exactly the length of the payload it was built
/// for, so reading a frame back recovers the message boundary.
pub proof fn lemma_frame_header_round_trips(payload: Seq<u8>)
    requires
        payload.len() <= MAX_MESSAGE_SIZE,
    ensures
        spec_frame(payload).len() == payload.len() + 4,
        header_length(spec_frame(payload).take(4)) == payload.len(),
        spec_frame(payload).skip(4) == payload,
{
    let n = payload.len() as u32;
    let h = spec_frame(payload).take(4);
    assert(h == u32_be(n));
    let (b0, b1, b2, b3) = ((n >> 24u32) as u8, (n >> 16u32) as u8, (n >> 8u32) as u8, n as u8);
    assert(b0 as u32 * 16777216 + b1 as u32 * 65536 + b2 as u32 * 256 + b3 as u32 == n)
        by (bit_vector)
        requires
            b0 == (n >> 24u32) as u8,
            b1 == (n >> 16u32) as u8,
            b2 == (n >> 8u32) as u8,
            b3 == n as u8,
    ;
    assert(spec_frame(payload).skip(4) =~= payload);
}

/// What a node does about one message: the reply it sends back, whether it
/// writes its chain to storage, the message it passes on to its peers, and
/// the listening address of a peer whose chain it goes and pulls.
#[derive(Debug)]
pub struct Reaction {
    pub reply: Option<Message>,
    pub persist: bool,
    pub broadcast: Option<Message>,
    pub pull_from: Option<String>,
}

/// A list of strings as texts.
pub open spec fn texts(v: Seq<String>) -> Seq<Seq<char>> {
    Seq::new(v.len(), |i: int| v[i]@)
}

/// The peer list with `peer` recorded (a peer is recorded once).
pub open spec fn with_peer(peers: Seq<Seq<char>>, peer: Seq<char>) -> Seq<Seq<char>> {
    if peers.contains(peer) {
        peers
    } else {
        peers.push(peer)
    }
}

/// A reaction that sends nothing, persists nothing and passes nothing on.
pub open spec fn quiet(r: Reaction) -> bool {
    r.reply is None && !r.persist && r.broadcast is None && r.pull_from is None
}

/// A reaction that sends nothing on to third parties: no broadcast, no pull.
pub open spec fn local(r: Reaction) -> bool {
    r.broadcast is None && r.pull_from is None
}

/// `after` is what adopting `chain` leaves of `before`, and `replaced` says
/// whether it was adopted: a chain no longer than ours is never adopted and
/// leaves ours as it was; a longer one goes through chain replacement.
pub open spec fn spec_adoption(before: Blockchain, chain: Seq<Block>, after: Blockchain, replaced: bool) -> bool {
    if chain.len() <= before.blocks().len() {
        !replaced && after == before
    } else {
        exists|now: i64, result: Result<(), crate::chain::blockchain::BlockchainError>|
            #[trigger] before.spec_replace_outcome(chain, now, result, &after) && replaced
                == result is Ok
    }
}

/// Two lists of blocks agree block by block.
pub open spec fn same_blocks(a: Seq<Block>, b: Seq<Block>) -> bool {
    a.len() == b.len() && forall|i: int| 0 <= i < a.len() ==> same_block(#[trigger] a[i], b[i])
}

/// What a node does on `message`, given its chain `before` and peers `peers`,
/// ending with chain `after` and peers `peers_after`.
///
/// A block announcement with more than `MAX_TXS_PER_BLOCK` transactions is
/// dropped. A new block goes through block acceptance: when taken it is
/// persisted and passed on; when it does not attach, the sender is asked for
/// its whole chain, which is how a node behind by more than one block pulls
/// the missing history. A new transaction goes through the mempool, and when
/// taken is persisted and passed on. A whole chain is adopted when it is longer
/// than ours and chain replacement takes it, and then persisted. A handshake
/// records the sender's listening address and is answered with ours; when the
/// sender reports a taller chain than ours, its chain is pulled. Requests for
/// the tip, the chain or the peers are answered with copies; a ping gets a
/// pong; every other message is ignored.
pub open spec fn spec_reaction(
    before: Blockchain,
    peers: Seq<Seq<char>>,
    message: Message,
    local_address: Seq<char>,
    version: Seq<char>,
    after: Blockchain,
    peers_after: Seq<Seq<char>>,
    reaction: Reaction,
) -> bool {
    match message {
        Message::GetLatestBlock => {
            &&& after == before
            &&& peers_after == peers
            &&& !reaction.persist
            &&& local(reaction)
            &&& match reaction.reply {
                Some(Message::LatestBlock(b)) => before.blocks().len() > 0 && same_block(
                    b,
                    before.blocks().last(),
                ),
                None => before.blocks().len() == 0,
                _ => false,
            }
        },
        Message::GetBlockchain => {
            &&& after == before
            &&& peers_after == peers
            &&& !reaction.persist
            &&& local(reaction)
            &&& reaction.reply matches Some(Message::FullBlockchain(v)) && same_blocks(
                v@,
                before.blocks(),
            )
        },
        Message::NewBlock(block) => {
            &&& peers_after == peers
            &&& if block.transactions@.len() > MAX_TXS_PER_BLOCK {
                after == before && quiet(reaction)
            } else {
                exists|now: i64|
                    match #[trigger] before.spec_validate(block, now) {
                        Ok(ledger) => {
                            &&& before.spec_appended(block, ledger, &after)
                            &&& reaction.reply is None
                            &&& reaction.persist
                            &&& reaction.broadcast matches Some(Message::NewBlock(b)) && same_block(
                                b,
                                block,
                            )
                            &&& reaction.pull_from is None
                        },
                        Err(_) => {
                            &&& after == before
                            &&& reaction.reply == Some(Message::GetBlockchain)
                            &&& !reaction.persist
                            &&& local(reaction)
                        },
                    }
            }
        },
        Message::NewTransaction(tx) => {
            &&& peers_after == peers
            &&& match spec_admit(before.ledger_view(), before.mempool(), tx) {
                Ok(()) => {
                    &&& after.mempool() == before.mempool().push(tx)
                    &&& after.same_chain_state(&before)
                    &&& reaction.reply is None
                    &&& reaction.persist
                    &&& reaction.broadcast == Some(Message::NewTransaction(tx))
                    &&& reaction.pull_from is None
                },
                Err(_) => after == before && quiet(reaction),
            }
        },
        Message::FullBlockchain(chain) => {
            &&& peers_after == peers
            &&& spec_adoption(before, chain@, after, reaction.persist)
            &&& reaction.reply is None
            &&& local(reaction)
        },
        Message::GetPeers => {
            &&& after == before
            &&& peers_after == peers
            &&& !reaction.persist
            &&& local(reaction)
            &&& reaction.reply matches Some(Message::Peers(list)) && texts(list@) == peers
        },
        Message::Ping => {
            &&& after == before
            &&& peers_after == peers
            &&& reaction.reply matches Some(Message::Pong)
            &&& !reaction.persist
            &&& local(reaction)
        },
        Message::Version { height: peer_height, listen_address, .. } => {
            &&& after == before
            &&& peers_after == with_peer(peers, listen_address@)
            &&& !reaction.persist
            &&& reaction.broadcast is None
            &&& if peer_height > before.blocks().len() {
                reaction.pull_from matches Some(a) && a@ == listen_address@
            } else {
                reaction.pull_from is None
            }
            &&& reaction.reply matches Some(Message::Version { version: v, height, listen_address: l })
                && v@ == version && height == before.blocks().len() && l@ == local_address
        },
        _ => after == before && peers_after == peers && quiet(reaction),
    }
}

/// Copy a list of blocks.
fn copy_blocks(blocks: &Vec<Block>) -> (copy: Vec<Block>)
    ensures
        same_blocks(copy@, blocks@),
{
    let mut copy: Vec<Block> = Vec::new();
    let mut i: usize = 0;
    while i < blocks.len()
        invariant
            i <= blocks@.len(),
            copy@.len() == i,
            forall|j: int| 0 <= j < i ==> same_block(#[trigger] copy@[j], blocks@[j]),
        decreases blocks@.len() - i,
    {
        copy.push(blocks[i].clone());
        i = i + 1;
    }
    copy
}

/// Copy a list of strings.
fn copy_texts(v: &Vec<String>) -> (copy: Vec<String>)
    ensures
        texts(copy@) == texts(v@),
{
    let mut copy: Vec<String> = Vec::new();
    let mut i: usize = 0;
    while i < v.len()
        invariant
            i <= v@.len(),
            copy@.len() == i,
            forall|j: int| 0 <= j < i ==> (#[trigger] copy@[j])@ == v@[j]@,
        decreases v@.len() - i,
    {
        copy.push(v[i].clone());
        i = i + 1;
    }
    assert(texts(copy@) =~= texts(v@));
    copy
}

/// Record a peer address, once.
pub fn add_peer(peers: &mut Vec<String>, peer: String)
    ensures
        texts(final(peers)@) == with_peer(texts(old(peers)@), peer@),
{
    let ghost before = texts(peers@);
    let mut i: usize = 0;
    while i < peers.len()
        invariant
            i <= peers@.len(),
            before == texts(peers@),
            forall|j: int| 0 <= j < i ==> peers@[j]@ != peer@,
        decreases peers@.len() - i,
    {
        if peers[i] == peer {
            assert(before[i as int] == peer@);
            return;
        }
        i = i + 1;
    }
    peers.push(peer);
    assert(texts(peers@) =~= before.push(peer@));
}

/// The address a node listening on `port` announces: `127.0.0.1:` and the
/// port.
pub fn listen_address(port: u16) -> (address: String)
    ensures
        address@ == "127.0.0.1:"@ + decimal_digits(port as nat),
{
    let mut address = String::from_str("127.0.0.1:");
    let port_text = u64_decimal(port as u64);
    address.append(port_text.as_str());
    address
}

/// Record the peers another node knows, all but our own address.
pub fn learn_peers(peers: &mut Vec<String>, known: Vec<String>, own_address: &str)
    ensures
        texts(final(peers)@) == learned(texts(old(peers)@), texts(known@), own_address@),
{
    let mut i: usize = 0;
    let ghost start = texts(peers@);
    assert(texts(known@).subrange(0, 0) =~= Seq::<Seq<char>>::empty());
    while i < known.len()
        invariant
            i <= known@.len(),
            start == texts(old(peers)@),
            texts(peers@) == learned(start, texts(known@).subrange(0, i as int), own_address@),
        decreases known@.len() - i,
    {
        assert(texts(known@).subrange(0, i + 1).drop_last() =~= texts(known@).subrange(0, i as int));
        assert(texts(known@).subrange(0, i + 1).last() == known@[i as int]@);
        let peer = known[i].clone();
        if !same_text(peer.as_str(), own_address) {
            add_peer(peers, peer);
        }
        i = i + 1;
    }
    assert(texts(known@).subrange(0, i as int) =~= texts(known@));
}

/// `peers` with each of `known` but `own` recorded, in order.
pub open spec fn learned(peers: Seq<Seq<char>>, known: Seq<Seq<char>>, own: Seq<char>) -> Seq<
    Seq<char>,
>
    decreases known.len(),
{
    if known.len() == 0 {
        peers
    } else {
        let before = learned(peers, known.drop_last(), own);
        if known.last() == own {
            before
        } else {
            with_peer(before, known.last())
        }
    }
}

/// A peer is known once: recording a peer, or every peer another node
/// reports, keeps a peer list free of repeats.
pub proof fn lemma_peers_stay_distinct(peers: Seq<Seq<char>>, peer: Seq<char>, known: Seq<Seq<char>>, own: Seq<char>)
    requires
        peers.no_duplicates(),
    ensures
        with_peer(peers, peer).no_duplicates(),
        learned(peers, known, own).no_duplicates(),
    decreases known.len(),
{
    if !peers.contains(peer) {
        let after = peers.push(peer);
        assert forall|a: int, b: int| 0 <= a < after.len() && 0 <= b < after.len() && a != b implies after[a]
            != after[b] by {
            if a < peers.len() && b < peers.len() {
            } else if a < peers.len() {
                assert(peers[a] != peer);
            } else if b < peers.len() {
                assert(peers[b] != peer);
            }
        }
    }
    if known.len() > 0 {
        lemma_peers_stay_distinct(peers, peer, known.drop_last(), own);
        let before = learned(peers, known.drop_last(), own);
        lemma_peers_stay_distinct(before, known.last(), Seq::empty(), own);
    }
}

/// An admitted transaction is relayed: when mempool admission takes `tx`,
/// the node's reaction to it joins it to the mempool, persists it and passes
/// it on to the peers unchanged; a refused one changes nothing and goes
/// nowhere.
pub proof fn lemma_admitted_transaction_is_relayed(
    before: Blockchain,
    peers: Seq<Seq<char>>,
    tx: Transaction,
    local_address: Seq<char>,
    version: Seq<char>,
    after: Blockchain,
    peers_after: Seq<Seq<char>>,
    reaction: Reaction,
)
    requires
        spec_reaction(
            before,
            peers,
            Message::NewTransaction(tx),
            local_address,
            version,
            after,
            peers_after,
            reaction,
        ),
    ensures
        spec_admit(before.ledger_view(), before.mempool(), tx) is Ok ==> {
            &&& reaction.broadcast == Some(Message::NewTransaction(tx))
            &&& reaction.persist
            &&& after.mempool() == before.mempool().push(tx)
        },
        spec_admit(before.ledger_view(), before.mempool(), tx) is Err ==> {
            &&& reaction.broadcast is None
            &&& !reaction.persist
            &&& after == before
        },
{
}

/// Decide what a node does about one message.
///
/// A transaction whose admission would sum its sender's pending amounts past
/// `u64::MAX` is the one message this cannot decide (see
/// `Blockchain::admission_would_overflow`).
pub fn react(
    blockchain: &mut Blockchain,
    peers: &mut Vec<String>,
    message: Message,
    local_address: &str,
    version: &str,
) -> (reaction: Reaction)
    requires
        message matches Message::NewTransaction(tx) ==> !admission_overflows(
            old(blockchain).ledger_view(),
            old(blockchain).mempool(),
            tx,
        ),
    ensures
        spec_reaction(
            *old(blockchain),
            texts(old(peers)@),
            message,
            local_address@,
            version@,
            *final(blockchain),
            texts(final(peers)@),
            reaction,
        ),
{
    match message {
        Message::GetLatestBlock => {
            let reply = match blockchain.latest_block() {
                Some(b) => Some(Message::LatestBlock(b.clone())),
                None => None,
            };
            Reaction { reply, persist: false, broadcast: None, pull_from: None }
        },
        Message::GetBlockchain => {
            let chain = copy_blocks(blockchain.chain_ref());
            Reaction {
                reply: Some(Message::FullBlockchain(chain)),
                persist: false,
                broadcast: None,
                pull_from: None,
            }
        },
        Message::NewBlock(block) => {
            if block.transactions.len() > MAX_TXS_PER_BLOCK {
                return Reaction { reply: None, persist: false, broadcast: None, pull_from: None };
            }
            let copy = block.clone();
            let ghost before = *blockchain;
            let ghost received = block;
            let added = blockchain.add_block(block);
            proof {
                let t = choose|now: i64| #[trigger] before.spec_add_outcome(received, now, added, blockchain);
                assert(before.spec_add_outcome(received, t, added, blockchain));
            }
            match added {
                Ok(()) => Reaction {
                    reply: None,
                    persist: true,
                    broadcast: Some(Message::NewBlock(copy)),
                    pull_from: None,
                },
                Err(_) => Reaction {
                    reply: Some(Message::GetBlockchain),
                    persist: false,
                    broadcast: None,
                    pull_from: None,
                },
            }
        },
        Message::NewTransaction(tx) => {
            let copy = tx.clone();
            let added = blockchain.add_transaction(tx);
            match added {
                Ok(()) => Reaction {
                    reply: None,
                    persist: true,
                    broadcast: Some(Message::NewTransaction(copy)),
                    pull_from: None,
                },
                Err(_) => Reaction { reply: None, persist: false, broadcast: None, pull_from: None },
            }
        },
        Message::FullBlockchain(chain) => {
            let replaced = adopt_longer_chain(blockchain, chain);
            Reaction { reply: None, persist: replaced, broadcast: None, pull_from: None }
        },
        Message::GetPeers => {
            let list = copy_texts(peers);
            Reaction {
                reply: Some(Message::Peers(list)),
                persist: false,
                broadcast: None,
                pull_from: None,
            }
        },
        Message::Ping => Reaction {
            reply: Some(Message::Pong),
            persist: false,
            broadcast: None,
            pull_from: None,
        },
        Message::Version { version: _, height, listen_address } => {
            let pull_from = if taller_than(blockchain, height) {
                Some(listen_address.clone())
            } else {
                None
            };
            add_peer(peers, listen_address);
            let reply = Message::Version {
                version: String::from_str(version),
                height: blockchain.len() as u64,
                listen_address: String::from_str(local_address),
            };
            Reaction { reply: Some(reply), persist: false, broadcast: None, pull_from }
        },
        _ => Reaction { reply: None, persist: false, broadcast: None, pull_from: None },
    }
}

/// Whether a peer reporting a chain of `height` blocks is ahead of ours.
fn taller_than(blockchain: &Blockchain, height: u64) -> (taller: bool)
    ensures
        taller == (height > blockchain.blocks().len()),
{
    (blockchain.len() as u64) < height
}

/// Whether the answer to our handshake comes from a peer whose chain is
/// longer than ours, so that its chain is to be pulled.
pub fn answer_is_taller(blockchain: &Blockchain, answer: &Message) -> (taller: bool)
    ensures
        taller == (answer matches Message::Version { height, .. } && height
            > blockchain.blocks().len()),
{
    match answer {
        Message::Version { height, .. } => taller_than(blockchain, *height),
        _ => false,
    }
}

/// Adopt a peer's chain when it is longer than ours and chain replacement
/// takes it. Returns whether the chain was replaced.
pub fn adopt_longer_chain(blockchain: &mut Blockchain, chain: Vec<Block>) -> (replaced: bool)
    ensures
        spec_adoption(*old(blockchain), chain@, *final(blockchain), replaced),
{
    if chain.len() <= blockchain.len() {
        return false;
    }
    let ghost before = *blockchain;
    let ghost offered = chain@;
    let result = blockchain.replace_chain(chain);
    proof {
        let t = choose|now: i64| #[trigger] before.spec_replace_outcome(offered, now, result, blockchain);
        assert(before.spec_replace_outcome(offered, t, result, blockchain));
    }
    result.is_ok()
}

/// Simple client for sending messages to nodes: a message goes out framed,
/// and the one reply that comes back is read the same way.
pub struct Client;

} // verus!
