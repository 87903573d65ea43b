//! Merkle tree over transaction hashes, with inclusion proofs.
//!
//! Every node is the SHA-256 of a canonical, length-prefixed encoding whose
//! first field is a domain tag of its own:
//!
//! - a leaf encodes its transaction hash under the leaf domain;
//! - an internal node encodes its two children, each as a field of its own,
//!   under the node domain, so the boundary between them cannot move;
//! - an odd level is padded with a constant sentinel, the encoding of the
//!   padding domain alone, never by duplicating its last node: duplicating
//!   makes `[a, b, c]` and `[a, b, c, c]` share a root (CVE-2012-2459);
//! - the root of the empty tree is the encoding of the empty-tree domain alone,
//!   so it is neither a leaf, nor a node, nor the sentinel.
use vstd::prelude::*;
use vstd::utf8::encode_utf8;

use crate::chain::hashing::{
    encode_fields, fields_fit, lemma_encode_one, lemma_encode_push, lemma_encoding_injective,
    lemma_utf8_injective, lemma_utf8_len_bound, spec_hash_hex, CanonicalEncoding,
    MERKLE_EMPTY_DOMAIN, MERKLE_LEAF_DOMAIN, MERKLE_NODE_DOMAIN, MERKLE_PADDING_DOMAIN,
};
use crate::digest::{is_hex_digest, lemma_hex_text, spec_sha256};

verus! {

/// The fields of a leaf preimage: the leaf domain tag, then the data.
pub open spec fn leaf_fields(data: Seq<char>) -> Seq<Seq<u8>> {
    seq![encode_utf8(MERKLE_LEAF_DOMAIN@), encode_utf8(data)]
}

/// The fields of an internal node preimage: the node domain tag, then each
/// child as a field of its own.
pub open spec fn node_fields(left: Seq<char>, right: Seq<char>) -> Seq<Seq<u8>> {
    seq![encode_utf8(MERKLE_NODE_DOMAIN@), encode_utf8(left), encode_utf8(right)]
}

/// The fields of the padding sentinel's preimage: its domain tag alone.
pub open spec fn padding_fields() -> Seq<Seq<u8>> {
    seq![encode_utf8(MERKLE_PADDING_DOMAIN@)]
}

/// The fields of the empty-tree root's preimage: its domain tag alone.
pub open spec fn empty_fields() -> Seq<Seq<u8>> {
    seq![encode_utf8(MERKLE_EMPTY_DOMAIN@)]
}

/// The preimage of a leaf.
pub open spec fn leaf_preimage(data: Seq<char>) -> Seq<u8> {
    encode_fields(leaf_fields(data))
}

/// The preimage of an internal node.
pub open spec fn node_preimage(left: Seq<char>, right: Seq<char>) -> Seq<u8> {
    encode_fields(node_fields(left, right))
}

/// The preimage of the padding sentinel.
pub open spec fn padding_preimage() -> Seq<u8> {
    encode_fields(padding_fields())
}

/// The preimage of the empty tree's root.
pub open spec fn empty_preimage() -> Seq<u8> {
    encode_fields(empty_fields())
}

/// The root of the empty tree.
pub open spec fn empty_root() -> Seq<char> {
    spec_hash_hex(empty_preimage())
}

/// The hash of a leaf.
pub open spec fn leaf_hash(data: Seq<char>) -> Seq<char> {
    spec_hash_hex(leaf_preimage(data))
}

/// The hash of an internal node.
pub open spec fn node_hash(left: Seq<char>, right: Seq<char>) -> Seq<char> {
    spec_hash_hex(node_preimage(left, right))
}

/// The sentinel an odd level is padded with.
pub open spec fn padding_hash() -> Seq<char> {
    spec_hash_hex(padding_preimage())
}

/// A level made even: an odd level gets the sentinel appended.
pub open spec fn pad_level(level: Seq<Seq<char>>) -> Seq<Seq<char>> {
    if level.len() % 2 == 1 {
        level.push(padding_hash())
    } else {
        level
    }
}

/// The level above `level`: each pair of the padded level hashed together.
pub open spec fn next_level(level: Seq<Seq<char>>) -> Seq<Seq<char>> {
    let padded = pad_level(level);
    Seq::new(padded.len() / 2, |i: int| node_hash(padded[2 * i], padded[2 * i + 1]))
}

/// The leaf level of a tree over `hashes`.
pub open spec fn leaf_level(hashes: Seq<Seq<char>>) -> Seq<Seq<char>> {
    Seq::new(hashes.len(), |i: int| leaf_hash(hashes[i]))
}

/// Every level the tree stores from `level` upward: each level below the top
/// padded to even length, the top level a single node.
pub open spec fn tree_levels(level: Seq<Seq<char>>) -> Seq<Seq<Seq<char>>>
    decreases level.len(),
{
    if level.len() <= 1 {
        seq![level]
    } else {
        seq![pad_level(level)] + tree_levels(next_level(level))
    }
}

/// The node a level reduces to.
pub open spec fn level_root(level: Seq<Seq<char>>) -> Seq<char>
    decreases level.len(),
{
    if level.len() <= 1 {
        level[0]
    } else {
        level_root(next_level(level))
    }
}

/// The Merkle root of a list of transaction hashes; the empty list has the
/// empty-tree root.
pub open spec fn merkle_root(hashes: Seq<Seq<char>>) -> Seq<char> {
    if hashes.len() == 0 {
        empty_root()
    } else {
        level_root(leaf_level(hashes))
    }
}

/// The proof path for position `index` of `level`: at each level below the
/// top, the sibling and whether it sits on the left.
pub open spec fn level_proof(level: Seq<Seq<char>>, index: int) -> Seq<(Seq<char>, bool)>
    decreases level.len(),
{
    if level.len() <= 1 {
        seq![]
    } else {
        let padded = pad_level(level);
        let sibling = if index % 2 == 0 { padded[index + 1] } else { padded[index - 1] };
        seq![(sibling, index % 2 == 1)] + level_proof(next_level(level), index / 2)
    }
}

/// The proof path for the leaf at `index` of a tree over `hashes`.
pub open spec fn merkle_proof(hashes: Seq<Seq<char>>, index: int) -> Seq<(Seq<char>, bool)> {
    level_proof(leaf_level(hashes), index)
}

/// Fold a proof path onto a starting node, as verification does.
pub open spec fn fold_proof(start: Seq<char>, path: Seq<(Seq<char>, bool)>) -> Seq<char>
    decreases path.len(),
{
    if path.len() == 0 {
        start
    } else {
        let (sibling, is_left) = path[0];
        let combined = if is_left { node_hash(sibling, start) } else { node_hash(start, sibling) };
        fold_proof(combined, path.drop_first())
    }
}

/// A proof path as plain values.
pub open spec fn proof_view(path: Seq<(String, bool)>) -> Seq<(Seq<char>, bool)> {
    path.map_values(|entry: (String, bool)| (entry.0@, entry.1))
}

proof fn lemma_next_level_shorter(level: Seq<Seq<char>>)
    requires
        level.len() > 1,
    ensures
        next_level(level).len() < level.len(),
        next_level(level).len() == pad_level(level).len() / 2,
        pad_level(level).len() % 2 == 0,
        level.len() <= pad_level(level).len(),
{
}

/// Every level's proof path folds back to that level's root.
proof fn lemma_level_proof_folds(level: Seq<Seq<char>>, index: int)
    requires
        0 <= index < level.len(),
    ensures
        fold_proof(level[index], level_proof(level, index)) == level_root(level),
    decreases level.len(),
{
    if level.len() > 1 {
        lemma_next_level_shorter(level);
        let padded = pad_level(level);
        let next = next_level(level);
        let path = level_proof(level, index);
        assert(padded[index] == level[index]);
        let half = index / 2;
        assert(next[half] == node_hash(padded[2 * half], padded[2 * half + 1]));
        let sibling = if index % 2 == 0 { padded[index + 1] } else { padded[index - 1] };
        assert(path[0] == (sibling, index % 2 == 1));
        assert(path.drop_first() == level_proof(next, half));
        lemma_level_proof_folds(next, half);
    }
}

/// Every leaf's proof verifies against the root of the tree it came from: for
/// any hash list and any position in it, folding the leaf hash along the proof
/// path gives the Merkle root.
pub proof fn lemma_every_proof_verifies(hashes: Seq<Seq<char>>, index: int)
    requires
        0 <= index < hashes.len(),
    ensures
        fold_proof(leaf_hash(hashes[index]), merkle_proof(hashes, index)) == merkle_root(hashes),
{
    lemma_level_proof_folds(leaf_level(hashes), index);
}

/// Bit `k` of a non-negative number.
pub open spec fn bit(n: int, k: nat) -> bool
    decreases k,
{
    if k == 0 {
        n % 2 == 1
    } else {
        bit(n / 2, (k - 1) as nat)
    }
}

/// The number of levels above the leaves of a tree over `n` leaves:
/// the ceiling of the base-2 logarithm of `n` (zero for one leaf).
pub open spec fn ceil_log2(n: nat) -> nat
    decreases n,
{
    if n <= 1 {
        0
    } else {
        1 + ceil_log2(((n + 1) / 2) as nat)
    }
}

proof fn lemma_level_proof_shape(level: Seq<Seq<char>>, index: int)
    requires
        0 <= index,
    ensures
        level_proof(level, index).len() == ceil_log2(level.len()),
        forall|k: int|
            0 <= k < level_proof(level, index).len() ==> #[trigger] level_proof(level, index)[k].1
                == bit(index, k as nat),
    decreases level.len(),
{
    if level.len() > 1 {
        lemma_next_level_shorter(level);
        let next = next_level(level);
        assert(next.len() == (level.len() + 1) / 2);
        lemma_level_proof_shape(next, index / 2);
        let path = level_proof(level, index);
        let rest = level_proof(next, index / 2);
        assert forall|k: int| 0 <= k < path.len() implies #[trigger] path[k].1 == bit(
            index,
            k as nat,
        ) by {
            if k > 0 {
                assert(path[k] == rest[k - 1]);
            }
        }
    }
}

/// The shape of every proof path: the proof for leaf `index` of a tree over
/// `n` leaves takes one step per level above the leaves, the ceiling of
/// log2 `n` of them, and its `k`-th step has the sibling on the left exactly
/// when bit `k` of `index` is set, that is, when the path's node at that
/// level is a right child.
pub proof fn lemma_proof_path_shape(hashes: Seq<Seq<char>>, index: int)
    requires
        0 <= index < hashes.len(),
    ensures
        merkle_proof(hashes, index).len() == ceil_log2(hashes.len()),
        forall|k: int|
            0 <= k < merkle_proof(hashes, index).len() ==> #[trigger] merkle_proof(hashes, index)[k].1
                == bit(index, k as nat),
{
    lemma_level_proof_shape(leaf_level(hashes), index);
}

/// The domain tags fit the encoding's length prefix.
proof fn lemma_domains_fit()
    ensures
        encode_utf8(MERKLE_LEAF_DOMAIN@).len() <= u64::MAX,
        encode_utf8(MERKLE_NODE_DOMAIN@).len() <= u64::MAX,
        encode_utf8(MERKLE_PADDING_DOMAIN@).len() <= u64::MAX,
        encode_utf8(MERKLE_EMPTY_DOMAIN@).len() <= u64::MAX,
        MERKLE_PADDING_DOMAIN@ != MERKLE_EMPTY_DOMAIN@,
{
    reveal_strlit("rustchain.merkle.leaf.v1");
    reveal_strlit("rustchain.merkle.node.v1");
    reveal_strlit("rustchain.merkle.padding.v1");
    reveal_strlit("rustchain.merkle.empty.v1");
    lemma_utf8_len_bound(MERKLE_LEAF_DOMAIN@);
    lemma_utf8_len_bound(MERKLE_NODE_DOMAIN@);
    lemma_utf8_len_bound(MERKLE_PADDING_DOMAIN@);
    lemma_utf8_len_bound(MERKLE_EMPTY_DOMAIN@);
}

/// Leaves, internal nodes, the padding sentinel and the empty-tree root are
/// hashed from four preimages that never coincide, whatever the texts: each
/// is a canonical encoding under its own domain tag, so no leaf can be
/// presented as an internal node, nothing equals the sentinel, and nothing
/// equals the empty-tree root. Two different leaves, or two different pairs
/// of children (moving the boundary between them included), never share a
/// preimage either.
pub proof fn lemma_hash_domains_disjoint(
    data: Seq<char>,
    data2: Seq<char>,
    left: Seq<char>,
    right: Seq<char>,
    left2: Seq<char>,
    right2: Seq<char>,
)
    requires
        encode_utf8(data).len() <= u64::MAX,
        encode_utf8(data2).len() <= u64::MAX,
        encode_utf8(left).len() <= u64::MAX,
        encode_utf8(right).len() <= u64::MAX,
        encode_utf8(left2).len() <= u64::MAX,
        encode_utf8(right2).len() <= u64::MAX,
    ensures
        leaf_preimage(data) != node_preimage(left, right),
        leaf_preimage(data) != padding_preimage(),
        leaf_preimage(data) != empty_preimage(),
        node_preimage(left, right) != padding_preimage(),
        node_preimage(left, right) != empty_preimage(),
        padding_preimage() != empty_preimage(),
        leaf_preimage(data) == leaf_preimage(data2) ==> data == data2,
        node_preimage(left, right) == node_preimage(left2, right2) ==> left == left2 && right
            == right2,
{
    lemma_domains_fit();
    let (lf, nf, pf, ef) = (leaf_fields(data), node_fields(left, right), padding_fields(), empty_fields());
    let nf2 = node_fields(left2, right2);
    assert(fields_fit(lf));
    assert(fields_fit(nf));
    assert(fields_fit(nf2));
    assert(fields_fit(pf));
    assert(fields_fit(ef));
    if leaf_preimage(data) == node_preimage(left, right) {
        lemma_encoding_injective(lf, nf);
    }
    if leaf_preimage(data) == padding_preimage() {
        lemma_encoding_injective(lf, pf);
    }
    if leaf_preimage(data) == empty_preimage() {
        lemma_encoding_injective(lf, ef);
    }
    if node_preimage(left, right) == padding_preimage() {
        lemma_encoding_injective(nf, pf);
    }
    if node_preimage(left, right) == empty_preimage() {
        lemma_encoding_injective(nf, ef);
    }
    if padding_preimage() == empty_preimage() {
        lemma_encoding_injective(pf, ef);
        assert(pf[0] == ef[0]);
        lemma_utf8_injective(MERKLE_PADDING_DOMAIN@, MERKLE_EMPTY_DOMAIN@);
    }
    if leaf_preimage(data) == leaf_preimage(data2) {
        let lf2 = leaf_fields(data2);
        assert(fields_fit(lf2));
        lemma_encoding_injective(lf, lf2);
        assert(lf[1] == lf2[1]);
        lemma_utf8_injective(data, data2);
    }
    if node_preimage(left, right) == node_preimage(left2, right2) {
        lemma_encoding_injective(nf, nf2);
        assert(nf[1] == nf2[1] && nf[2] == nf2[2]);
        lemma_utf8_injective(left, left2);
        lemma_utf8_injective(right, right2);
    }
}

/// Every node of a list of nodes is a hex digest.
pub open spec fn digests(level: Seq<Seq<char>>) -> bool {
    forall|j: int| 0 <= j < level.len() ==> is_hex_digest(#[trigger] level[j])
}

/// Every stored node of every level is a hex digest.
pub open spec fn all_digests(levels: Seq<Seq<Seq<char>>>) -> bool {
    forall|i: int| 0 <= i < levels.len() ==> digests(#[trigger] levels[i])
}

/// The preimage one step of a fold hashes: the node over the current text
/// and the step's sibling, on the side the step gives.
pub open spec fn step_preimage(current: Seq<char>, step: (Seq<char>, bool)) -> Seq<u8> {
    if step.1 {
        node_preimage(step.0, current)
    } else {
        node_preimage(current, step.0)
    }
}

/// Every preimage that folding `start` along `path` hashes.
pub open spec fn fold_preimages(start: Seq<char>, path: Seq<(Seq<char>, bool)>) -> Set<Seq<u8>>
    decreases path.len(),
{
    if path.len() == 0 {
        Set::empty()
    } else {
        fold_preimages(spec_hash_hex(step_preimage(start, path[0])), path.drop_first()).insert(
            step_preimage(start, path[0]),
        )
    }
}

/// SHA-256 gives no two of `preimages` the same hash.
pub open spec fn collision_free(preimages: Set<Seq<u8>>) -> bool {
    forall|x: Seq<u8>, y: Seq<u8>|
        #![trigger preimages.contains(x), preimages.contains(y)]
        preimages.contains(x) && preimages.contains(y) && spec_hash_hex(x) == spec_hash_hex(y)
            ==> x == y
}

/// Every SHA-256 digest is 32 bytes long.
pub open spec fn digests_are_32_bytes() -> bool {
    forall|d: Seq<u8>| #[trigger] spec_sha256(d).len() == 32
}

/// A text whose UTF-8 fits the encoding's length prefix.
pub open spec fn text_fits(t: Seq<char>) -> bool {
    encode_utf8(t).len() <= u64::MAX
}

/// A hash text fits the length prefix.
proof fn lemma_hash_text_fits(b: Seq<u8>)
    requires
        digests_are_32_bytes(),
    ensures
        spec_hash_hex(b).len() == 64,
        text_fits(spec_hash_hex(b)),
{
    assert(spec_sha256(b).len() == 32);
    lemma_hex_text(spec_sha256(b));
    lemma_utf8_len_bound(spec_hash_hex(b));
}

/// Each step of a fold hashes its preimage.
proof fn lemma_fold_step(start: Seq<char>, path: Seq<(Seq<char>, bool)>)
    requires
        path.len() > 0,
    ensures
        fold_proof(start, path) == fold_proof(spec_hash_hex(step_preimage(start, path[0])), path.drop_first()),
{
}

/// Two texts that fold to the same root along one path are the same text,
/// unless SHA-256 collides on the preimages the two folds hash.
proof fn lemma_fold_injective(a: Seq<char>, b: Seq<char>, path: Seq<(Seq<char>, bool)>)
    requires
        digests_are_32_bytes(),
        text_fits(a),
        text_fits(b),
        forall|k: int| 0 <= k < path.len() ==> text_fits(#[trigger] path[k].0),
        fold_proof(a, path) == fold_proof(b, path),
        collision_free(fold_preimages(a, path).union(fold_preimages(b, path))),
    ensures
        a == b,
    decreases path.len(),
{
    if path.len() > 0 {
        let (pa, pb) = (step_preimage(a, path[0]), step_preimage(b, path[0]));
        let (ca, cb) = (spec_hash_hex(pa), spec_hash_hex(pb));
        let rest = path.drop_first();
        lemma_fold_step(a, path);
        lemma_fold_step(b, path);
        lemma_hash_text_fits(pa);
        lemma_hash_text_fits(pb);
        assert forall|k: int| 0 <= k < rest.len() implies text_fits(#[trigger] rest[k].0) by {
            assert(rest[k] == path[k + 1]);
        }
        let all = fold_preimages(a, path).union(fold_preimages(b, path));
        let sub = fold_preimages(ca, rest).union(fold_preimages(cb, rest));
        assert(sub.subset_of(all));
        assert(collision_free(sub));
        lemma_fold_injective(ca, cb, rest);
        assert(all.contains(pa) && all.contains(pb));
        assert(pa == pb);
        let s = path[0].0;
        assert(text_fits(s));
        if path[0].1 {
            lemma_hash_domains_disjoint(a, a, s, a, s, b);
        } else {
            lemma_hash_domains_disjoint(a, a, a, s, b, s);
        }
    }
}

/// Every node of a level, and of every level above it, is a hash text.
pub open spec fn hash_texts(level: Seq<Seq<char>>) -> bool {
    forall|j: int| 0 <= j < level.len() ==> (#[trigger] level[j]).len() == 64
}

/// The siblings of a proof path are hash texts.
proof fn lemma_level_proof_siblings(level: Seq<Seq<char>>, index: int)
    requires
        digests_are_32_bytes(),
        hash_texts(level),
        0 <= index < level.len(),
    ensures
        forall|k: int|
            0 <= k < level_proof(level, index).len() ==> (#[trigger] level_proof(level, index)[k]).0.len()
                == 64,
    decreases level.len(),
{
    if level.len() > 1 {
        lemma_next_level_shorter(level);
        let padded = pad_level(level);
        let next = next_level(level);
        lemma_hash_text_fits(padding_preimage());
        assert(hash_texts(padded)) by {
            assert forall|j: int| 0 <= j < padded.len() implies (#[trigger] padded[j]).len() == 64 by {
                if j < level.len() {
                    assert(padded[j] == level[j]);
                }
            }
        }
        assert(hash_texts(next)) by {
            assert forall|j: int| 0 <= j < next.len() implies (#[trigger] next[j]).len() == 64 by {
                lemma_hash_text_fits(node_preimage(padded[2 * j], padded[2 * j + 1]));
            }
        }
        lemma_level_proof_siblings(next, index / 2);
        let path = level_proof(level, index);
        let rest = level_proof(next, index / 2);
        assert forall|k: int| 0 <= k < path.len() implies (#[trigger] path[k]).0.len() == 64 by {
            if k > 0 {
                assert(path[k] == rest[k - 1]);
            }
        }
    }
}

/// A proof carries only the leaf it was made for: whatever text verifies
/// against the root along the proof of leaf `index` is that leaf, unless
/// SHA-256 collides on the preimages the two verifications hash (every
/// SHA-256 digest being 32 bytes).
pub proof fn lemma_only_the_proved_leaf_verifies(hashes: Seq<Seq<char>>, index: int, x: Seq<char>)
    requires
        digests_are_32_bytes(),
        0 <= index < hashes.len(),
        text_fits(x),
        text_fits(hashes[index]),
        fold_proof(leaf_hash(x), merkle_proof(hashes, index)) == merkle_root(hashes),
        collision_free(
            fold_preimages(leaf_hash(x), merkle_proof(hashes, index)).union(
                fold_preimages(leaf_hash(hashes[index]), merkle_proof(hashes, index)),
            ).insert(leaf_preimage(x)).insert(leaf_preimage(hashes[index])),
        ),
    ensures
        x == hashes[index],
{
    let path = merkle_proof(hashes, index);
    let leaves = leaf_level(hashes);
    lemma_every_proof_verifies(hashes, index);
    assert(hash_texts(leaves)) by {
        assert forall|j: int| 0 <= j < leaves.len() implies (#[trigger] leaves[j]).len() == 64 by {
            lemma_hash_text_fits(leaf_preimage(hashes[j]));
        }
    }
    lemma_level_proof_siblings(leaves, index);
    assert forall|k: int| 0 <= k < path.len() implies text_fits(#[trigger] path[k].0) by {
        lemma_utf8_len_bound(path[k].0);
    }
    lemma_hash_text_fits(leaf_preimage(x));
    lemma_hash_text_fits(leaf_preimage(hashes[index]));
    let all = fold_preimages(leaf_hash(x), path).union(fold_preimages(leaf_hash(hashes[index]), path)).insert(
        leaf_preimage(x),
    ).insert(leaf_preimage(hashes[index]));
    let sub = fold_preimages(leaf_hash(x), path).union(fold_preimages(leaf_hash(hashes[index]), path));
    assert(sub.subset_of(all));
    lemma_fold_injective(leaf_hash(x), leaf_hash(hashes[index]), path);
    assert(all.contains(leaf_preimage(x)) && all.contains(leaf_preimage(hashes[index])));
    lemma_hash_domains_disjoint(x, hashes[index], x, x, x, x);
}

/// A Merkle tree for efficient transaction verification
pub struct MerkleTree {
    /// The root hash of the tree
    pub root: String,
    /// Every level of the tree, leaves first and root last. Each level below the
    /// root has an even length, so a node's sibling is always present.
    levels: Vec<Vec<String>>,
    /// Number of leaf nodes (transactions)
    leaf_count: usize,
    /// The transaction hashes the tree was built from.
    hashes: Ghost<Seq<Seq<char>>>,
}

impl MerkleTree {
    /// The transaction hashes this tree commits to.
    pub closed spec fn leaves(&self) -> Seq<Seq<char>> {
        self.hashes@
    }

    /// The root the tree was built with.
    pub closed spec fn root_of(&self) -> Seq<char> {
        self.root@
    }

    /// The stored levels are those of the tree over [`Self::leaves`] (the
    /// public `root` is not part of this: a caller may overwrite it).
    pub closed spec fn wf(&self) -> bool {
        &&& all_digests(self.levels.deep_view())
        &&& self.leaf_count == self.hashes@.len()
        &&& if self.hashes@.len() == 0 {
            self.levels@.len() == 0
        } else {
            self.levels.deep_view() == tree_levels(leaf_level(self.hashes@))
        }
    }

    /// Build a Merkle tree from a list of transaction hashes
    pub fn new(hashes: Vec<String>) -> (tree: Self)
        ensures
            tree.wf(),
            tree.leaves() == hashes.deep_view(),
            tree.root_of() == merkle_root(hashes.deep_view()),
            is_hex_digest(tree.root_of()),
    {
        let ghost hv = hashes.deep_view();
        if hashes.len() == 0 {
            return Self {
                root: Self::empty_root(),
                levels: Vec::new(),
                leaf_count: 0,
                hashes: Ghost(hv),
            };
        }
        let leaf_count = hashes.len();
        let mut current_level: Vec<String> = Vec::new();
        let mut i: usize = 0;
        while i < hashes.len()
            invariant
                i <= hashes.len(),
                hv == hashes.deep_view(),
                current_level.deep_view() == leaf_level(hv).subrange(0, i as int),
                digests(current_level.deep_view()),
            decreases hashes.len() - i,
        {
            let h = Self::hash_leaf(hashes[i].as_str());
            let ghost prev = current_level.deep_view();
            current_level.push(h);
            assert(hv[i as int] == hashes@[i as int]@);
            assert(current_level.deep_view() =~= prev.push(leaf_hash(hv[i as int])));
            i = i + 1;
            assert(current_level.deep_view() =~= leaf_level(hv).subrange(0, i as int));
        }
        assert(leaf_level(hv).subrange(0, hv.len() as int) =~= leaf_level(hv));
        assert(levels_of_empty().len() == 0);
        let mut levels: Vec<Vec<String>> = Vec::new();
        assert(levels.deep_view() =~= levels_of_empty());
        assert(levels.deep_view() + tree_levels(current_level.deep_view()) =~= tree_levels(current_level.deep_view()));
        while current_level.len() > 1
            invariant
                current_level.len() >= 1,
                digests(current_level.deep_view()),
                all_digests(levels.deep_view()),
                levels.deep_view() + tree_levels(current_level.deep_view()) == tree_levels(
                    leaf_level(hv),
                ),
            decreases current_level.len(),
        {
            let ghost before = current_level.deep_view();
            proof { lemma_next_level_shorter(before); }
            if current_level.len() % 2 == 1 {
                current_level.push(Self::padding_node());
            }
            assert(current_level.deep_view() == pad_level(before));
            let mut next: Vec<String> = Vec::new();
            let mut j: usize = 0;
            let half = current_level.len() / 2;
            while j < half
                invariant
                    half == current_level.len() / 2,
                    current_level.len() % 2 == 0,
                    current_level.deep_view() == pad_level(before),
                    j <= half,
                    next.deep_view() == next_level(before).subrange(0, j as int),
                    digests(next.deep_view()),
                decreases half - j,
            {
                let node = Self::hash_node(
                    current_level[2 * j].as_str(),
                    current_level[2 * j + 1].as_str(),
                );
                let ghost prev = next.deep_view();
                next.push(node);
                assert(next.deep_view() =~= prev.push(next_level(before)[j as int]));
                j = j + 1;
                assert(next.deep_view() =~= next_level(before).subrange(0, j as int));
            }
            assert(next_level(before).subrange(0, half as int) =~= next_level(before));
            let ghost lv = levels.deep_view();
            let ghost cv = current_level.deep_view();
            levels.push(current_level);
            assert(levels.deep_view() =~= lv.push(cv));
            assert(tree_levels(before) == seq![pad_level(before)] + tree_levels(next.deep_view()));
            assert(lv + tree_levels(before) =~= lv.push(pad_level(before)) + tree_levels(
                next.deep_view(),
            ));
            current_level = next;
        }
        let root = current_level[0].clone();
        let ghost top = current_level.deep_view();
        proof {
            assert(tree_levels(top) == seq![top]);
            lemma_tree_levels_root(leaf_level(hv), 0);
            assert(top[0] == current_level@[0]@);
        }
        let ghost lv = levels.deep_view();
        levels.push(current_level);
        assert(levels.deep_view() =~= lv.push(top));
        assert(levels.deep_view() =~= lv + tree_levels(top));
        assert(levels.deep_view().last() == seq![level_root(leaf_level(hv))]);
        Self { root, levels, leaf_count, hashes: Ghost(hv) }
    }

    /// Hash a leaf node under the leaf domain.
    pub fn hash_leaf(data: &str) -> (hash: String)
        ensures
            hash@ == leaf_hash(data@),
            is_hex_digest(hash@),
    {
        let ghost fs = leaf_fields(data@);
        let e = CanonicalEncoding::new(MERKLE_LEAF_DOMAIN);
        let e = e.text(data);
        proof {
            lemma_encode_one(fs[0]);
            lemma_encode_push(seq![fs[0]], fs[1]);
            assert(fs == seq![fs[0]].push(fs[1]));
        }
        e.hash_hex()
    }

    /// The constant used to pad an odd level, in its own domain, so it can
    /// never collide with a leaf or an internal node.
    fn padding_node() -> (hash: String)
        ensures
            hash@ == padding_hash(),
            is_hex_digest(hash@),
    {
        let e = CanonicalEncoding::new(MERKLE_PADDING_DOMAIN);
        proof {
            lemma_encode_one(padding_fields()[0]);
        }
        e.hash_hex()
    }

    /// The root of a tree with no leaves, in its own domain.
    fn empty_root() -> (hash: String)
        ensures
            hash@ == empty_root(),
            is_hex_digest(hash@),
    {
        let e = CanonicalEncoding::new(MERKLE_EMPTY_DOMAIN);
        proof {
            lemma_encode_one(empty_fields()[0]);
        }
        e.hash_hex()
    }

    /// Hash an internal node under the node domain, each child a field of its
    /// own.
    pub fn hash_node(left: &str, right: &str) -> (hash: String)
        ensures
            hash@ == node_hash(left@, right@),
            is_hex_digest(hash@),
    {
        let ghost fs = node_fields(left@, right@);
        let e = CanonicalEncoding::new(MERKLE_NODE_DOMAIN);
        let e = e.text(left);
        let e = e.text(right);
        proof {
            lemma_encode_one(fs[0]);
            lemma_encode_push(seq![fs[0]], fs[1]);
            lemma_encode_push(seq![fs[0], fs[1]], fs[2]);
            assert(seq![fs[0]].push(fs[1]) == seq![fs[0], fs[1]]);
            assert(fs == seq![fs[0], fs[1]].push(fs[2]));
        }
        e.hash_hex()
    }

    /// Get the Merkle root hash
    pub fn root_hash(&self) -> (root: &str)
        ensures
            root@ == self.root_of(),
    {
        self.root.as_str()
    }

    /// Get the number of transactions (leaves) in the tree
    pub fn transaction_count(&self) -> (count: usize)
        requires
            self.wf(),
        ensures
            count == self.leaves().len(),
    {
        self.leaf_count
    }

    /// Generate a Merkle proof for a transaction at given index
    ///
    /// `None` exactly when `index` is not a leaf position; otherwise the
    /// (sibling, sibling-is-left) pairs from the leaf up to the root.
    pub fn generate_proof(&self, index: usize) -> (path: Option<Vec<(String, bool)>>)
        requires
            self.wf(),
        ensures
            (match path {
                None => index >= self.leaves().len(),
                Some(p) => index < self.leaves().len() && proof_view(p@) == merkle_proof(
                    self.leaves(),
                    index as int,
                ) && forall|k: int| 0 <= k < p@.len() ==> is_hex_digest(#[trigger] p@[k].0@),
            }),
    {
        proof {
            if self.hashes@.len() > 0 {
                lemma_tree_levels_len(leaf_level(self.hashes@));
                assert(self.levels.deep_view().len() == self.levels@.len());
            }
        }
        if index >= self.leaf_count || self.levels.len() == 0 {
            return None;
        }
        let ghost hv = self.hashes@;
        let ghost all = tree_levels(leaf_level(hv));
        let mut path: Vec<(String, bool)> = Vec::new();
        let mut current_index = index;
        let ghost mut cur: Seq<Seq<char>> = leaf_level(hv);
        let last = self.levels.len() - 1;
        let mut k: usize = 0;
        proof {
            lemma_tree_levels_suffix(leaf_level(hv), 0);
        }
        while k < last
            invariant
                self.wf(),
                hv == self.hashes@,
                hv.len() > 0,
                all == tree_levels(leaf_level(hv)),
                self.levels.deep_view() == all,
                last + 1 == self.levels@.len(),
                k <= last,
                all.subrange(k as int, all.len() as int) == tree_levels(cur),
                current_index < cur.len(),
                proof_view(path@) + level_proof(cur, current_index as int) == merkle_proof(
                    hv,
                    index as int,
                ),
                forall|j: int| 0 <= j < path@.len() ==> is_hex_digest(#[trigger] path@[j].0@),
            decreases last - k,
        {
            let ghost before = cur;
            assert(tree_levels(cur).len() >= 2);
            assert(cur.len() > 1);
            proof { lemma_next_level_shorter(cur); }
            assert(tree_levels(cur) == seq![pad_level(cur)] + tree_levels(next_level(cur)));
            assert(all[k as int] == tree_levels(cur)[0]);
            assert(self.levels.deep_view()[k as int] == pad_level(cur));
            let level = &self.levels[k];
            assert(level.deep_view() == pad_level(cur));
            let sibling_index = if current_index % 2 == 0 {
                current_index + 1
            } else {
                current_index - 1
            };
            let is_left = current_index % 2 == 1;
            let sibling = level[sibling_index].clone();
            assert(digests(self.levels.deep_view()[k as int]));
            assert(is_hex_digest(level.deep_view()[sibling_index as int]));
            let ghost pv = proof_view(path@);
            path.push((sibling, is_left));
            assert(proof_view(path@) == pv.push((pad_level(before)[sibling_index as int], is_left)));
            assert(level_proof(before, current_index as int) == seq![
                (pad_level(before)[sibling_index as int], is_left),
            ] + level_proof(next_level(before), current_index as int / 2));
            proof {
                cur = next_level(before);
            }
            current_index = current_index / 2;
            let ghost k0 = k;
            k = k + 1;
            assert(all.subrange(k as int, all.len() as int) =~= all.subrange(k0 as int, all.len() as int).drop_first());
            assert(tree_levels(before).drop_first() =~= tree_levels(cur));
            assert(pv + level_proof(before, (current_index * 2 + (if is_left { 1usize } else { 0usize })) as int) == merkle_proof(hv, index as int));
        }
        assert(tree_levels(cur).len() == 1);
        proof {
            lemma_tree_levels_len(cur);
        }
        assert(cur.len() <= 1);
        assert(level_proof(cur, current_index as int) =~= Seq::<(Seq<char>, bool)>::empty());
        assert(proof_view(path@) + Seq::<(Seq<char>, bool)>::empty() =~= proof_view(path@));
        assert(proof_view(path@) == merkle_proof(hv, index as int));
        Some(path)
    }

    /// Verify a Merkle proof: fold the leaf hash of `tx_hash` along `path` and
    /// compare with `root`.
    pub fn verify_proof(tx_hash: &str, path: &[(String, bool)], root: &str) -> (valid: bool)
        ensures
            valid == (fold_proof(leaf_hash(tx_hash@), proof_view(path@)) == root@),
    {
        let mut current_hash = Self::hash_leaf(tx_hash);
        let mut i: usize = 0;
        assert(proof_view(path@).subrange(0, path@.len() as int) =~= proof_view(path@));
        while i < path.len()
            invariant
                i <= path@.len(),
                fold_proof(current_hash@, proof_view(path@).subrange(i as int, path@.len() as int))
                    == fold_proof(leaf_hash(tx_hash@), proof_view(path@)),
            decreases path@.len() - i,
        {
            let ghost rest = proof_view(path@).subrange(i as int, path@.len() as int);
            let (sibling_hash, is_left) = (&path[i].0, path[i].1);
            if is_left {
                current_hash = Self::hash_node(sibling_hash.as_str(), current_hash.as_str());
            } else {
                current_hash = Self::hash_node(current_hash.as_str(), sibling_hash.as_str());
            }
            assert(rest[0] == (sibling_hash@, is_left));
            assert(rest.drop_first() =~= proof_view(path@).subrange(i + 1, path@.len() as int));
            i = i + 1;
        }
        assert(proof_view(path@).subrange(i as int, path@.len() as int) =~= Seq::<(Seq<char>, bool)>::empty());
        let expected = String::from_str(root);
        current_hash == expected
    }
}

/// The stored levels above position `k` are the levels of the `k`-th level.
proof fn lemma_tree_levels_suffix(level: Seq<Seq<char>>, k: int)
    requires
        k == 0,
    ensures
        tree_levels(level).subrange(k, tree_levels(level).len() as int) == tree_levels(level),
{
}

/// No stored level list is empty, and a level of two or more nodes stores at
/// least two levels.
proof fn lemma_tree_levels_len(level: Seq<Seq<char>>)
    ensures
        tree_levels(level).len() >= 1,
        level.len() > 1 ==> tree_levels(level).len() >= 2,
    decreases level.len(),
{
    if level.len() > 1 {
        lemma_next_level_shorter(level);
        lemma_tree_levels_len(next_level(level));
    }
}

/// The empty list of stored levels.
spec fn levels_of_empty() -> Seq<Seq<Seq<char>>> {
    Seq::empty()
}

/// The last stored level is the single root node.
proof fn lemma_tree_levels_root(level: Seq<Seq<char>>, k: int)
    requires
        level.len() >= 1,
    ensures
        tree_levels(level).last() == seq![level_root(level)],
    decreases level.len(),
{
    if level.len() > 1 {
        lemma_next_level_shorter(level);
        lemma_tree_levels_root(next_level(level), k);
    } else {
        assert(level == seq![level[0]]);
    }
}

} // verus!
