//! Canonical encoding, the one unambiguous preimage this chain hashes and signs.
//!
//! Every field is written as its length, big-endian in eight bytes, followed by
//! exactly that many bytes, so an encoding can be parsed back into the field
//! list it was built from and no field can borrow bytes from its neighbour. The
//! first field is always a domain tag, which keeps a preimage produced in one
//! context from ever being a valid preimage in another.
//!
//! ```text
//! encoding := field*
//! field    := u64 length (big-endian) || `length` bytes
//! ```
use vstd::prelude::*;
use vstd::utf8::encode_utf8;

use crate::chain::time::Timestamp;
use crate::digest::{hex_encode, is_hex_digest, lemma_hex_text, sha256, spec_hex, spec_sha256};
use crate::text::{push_bytes, utf8_bytes};

verus! {

/// Domain tag for the transaction hash, the leaf the Merkle tree commits to.
pub const TRANSACTION_HASH_DOMAIN: &'static str = "rustchain.transaction.hash.v1";

/// Domain tag for the bytes a transaction signature covers.
pub const TRANSACTION_SIGNING_DOMAIN: &'static str = "rustchain.transaction.signature.v1";

/// Domain tag for the block header.
pub const BLOCK_HASH_DOMAIN: &'static str = "rustchain.block.header.v1";

/// Domain tag for a Merkle leaf.
pub const MERKLE_LEAF_DOMAIN: &'static str = "rustchain.merkle.leaf.v1";

/// Domain tag for the root of an empty Merkle tree.
///
/// In its own domain so the empty-tree root can never equal a leaf, an
/// internal node or the padding sentinel.
pub const MERKLE_EMPTY_DOMAIN: &'static str = "rustchain.merkle.empty.v1";

/// Domain tag for a Merkle internal node.
pub const MERKLE_NODE_DOMAIN: &'static str = "rustchain.merkle.node.v1";

/// Domain tag for the constant that pads an odd Merkle level.
pub const MERKLE_PADDING_DOMAIN: &'static str = "rustchain.merkle.padding.v1";

/// The eight big-endian bytes of `n`.
pub open spec fn u64_be(n: u64) -> Seq<u8> {
    seq![
        (n >> 56u64) as u8,
        (n >> 48u64) as u8,
        (n >> 40u64) as u8,
        (n >> 32u64) as u8,
        (n >> 24u64) as u8,
        (n >> 16u64) as u8,
        (n >> 8u64) as u8,
        n as u8,
    ]
}

/// The four big-endian bytes of `n`.
pub open spec fn u32_be(n: u32) -> Seq<u8> {
    seq![(n >> 24u32) as u8, (n >> 16u32) as u8, (n >> 8u32) as u8, n as u8]
}

/// The value eight big-endian bytes stand for.
pub open spec fn be_value(b: Seq<u8>) -> u64 {
    ((b[0] as u64) << 56u64) | ((b[1] as u64) << 48u64) | ((b[2] as u64) << 40u64) | ((
    b[3] as u64) << 32u64) | ((b[4] as u64) << 24u64) | ((b[5] as u64) << 16u64) | ((
    b[6] as u64) << 8u64) | (b[7] as u64)
}

/// One field: its length in eight big-endian bytes, then its bytes.
pub open spec fn field(bytes: Seq<u8>) -> Seq<u8> {
    u64_be(bytes.len() as u64) + bytes
}

/// The canonical encoding of a list of fields.
pub open spec fn encode_fields(fields: Seq<Seq<u8>>) -> Seq<u8>
    decreases fields.len(),
{
    if fields.len() == 0 {
        seq![]
    } else {
        field(fields[0]) + encode_fields(fields.drop_first())
    }
}

/// Every field fits the eight-byte length prefix.
pub open spec fn fields_fit(fields: Seq<Seq<u8>>) -> bool {
    forall|i: int| 0 <= i < fields.len() ==> #[trigger] fields[i].len() <= u64::MAX
}

/// The field an optional text value becomes: a presence byte, then its UTF-8.
pub open spec fn optional_text_field(value: Option<Seq<char>>) -> Seq<u8> {
    match value {
        Some(text) => seq![1u8] + encode_utf8(text),
        None => seq![0u8],
    }
}

/// The field a timestamp becomes: the second count, then the nanoseconds.
pub open spec fn time_field(t: Timestamp) -> Seq<u8> {
    u64_be(t.secs as u64) + u32_be(t.nanos)
}

/// The field a flag becomes.
pub open spec fn flag_field(value: bool) -> Seq<u8> {
    seq![if value { 1u8 } else { 0u8 }]
}

/// The hex text of the SHA-256 of a byte string: what every hash here is.
pub open spec fn spec_hash_hex(bytes: Seq<u8>) -> Seq<char> {
    spec_hex(spec_sha256(bytes))
}

/// Reading back the length prefix gives the length.
pub proof fn lemma_be_value(n: u64)
    ensures
        be_value(u64_be(n)) == n,
{
    let b = u64_be(n);
    assert(b[0] == (n >> 56u64) as u8);
    assert(b[7] == n as u8);
    assert(((((n >> 56u64) as u8) as u64) << 56u64) | ((((n >> 48u64) as u8) as u64) << 48u64)
        | ((((n >> 40u64) as u8) as u64) << 40u64) | ((((n >> 32u64) as u8) as u64) << 32u64)
        | ((((n >> 24u64) as u8) as u64) << 24u64) | ((((n >> 16u64) as u8) as u64) << 16u64)
        | ((((n >> 8u64) as u8) as u64) << 8u64) | ((n as u8) as u64) == n) by (bit_vector);
}

/// Two lengths with the same prefix are the same length.
pub proof fn lemma_u64_be_injective(x: u64, y: u64)
    requires
        u64_be(x) == u64_be(y),
    ensures
        x == y,
{
    lemma_be_value(x);
    lemma_be_value(y);
}

/// Two values with the same four big-endian bytes are the same value.
pub proof fn lemma_u32_be_injective(x: u32, y: u32)
    requires
        u32_be(x) == u32_be(y),
    ensures
        x == y,
{
    assert(u32_be(x)[0] == u32_be(y)[0]);
    assert(u32_be(x)[1] == u32_be(y)[1]);
    assert(u32_be(x)[2] == u32_be(y)[2]);
    assert(u32_be(x)[3] == u32_be(y)[3]);
    assert(((x >> 24u32) as u8 == (y >> 24u32) as u8 && (x >> 16u32) as u8 == (y >> 16u32) as u8
        && (x >> 8u32) as u8 == (y >> 8u32) as u8 && x as u8 == y as u8) ==> x == y)
        by (bit_vector);
}

/// Two instants with the same field are the same instant.
pub proof fn lemma_time_field_injective(s: Timestamp, t: Timestamp)
    requires
        time_field(s) == time_field(t),
    ensures
        s == t,
{
    assert(time_field(s).subrange(0, 8) == u64_be(s.secs as u64));
    assert(time_field(t).subrange(0, 8) == u64_be(t.secs as u64));
    assert(time_field(s).subrange(8, 12) == u32_be(s.nanos));
    assert(time_field(t).subrange(8, 12) == u32_be(t.nanos));
    lemma_u64_be_injective(s.secs as u64, t.secs as u64);
    lemma_u32_be_injective(s.nanos, t.nanos);
    let (a, b) = (s.secs, t.secs);
    assert((a as u64) == (b as u64) ==> a == b) by (bit_vector);
}

/// The canonical encoding can be parsed back into the field list it was built
/// from: two field lists with the same encoding are the same list. This is
/// what makes "no two different field lists share a preimage" hold, for every
/// list whose fields fit the length prefix.
pub proof fn lemma_encoding_injective(a: Seq<Seq<u8>>, b: Seq<Seq<u8>>)
    requires
        fields_fit(a),
        fields_fit(b),
        encode_fields(a) == encode_fields(b),
    ensures
        a == b,
    decreases a.len(),
{
    if a.len() == 0 {
        if b.len() != 0 {
            assert(encode_fields(b).len() >= 8);
        }
    } else {
        if b.len() == 0 {
            assert(encode_fields(a).len() >= 8);
        } else {
            let ea = encode_fields(a);
            let la = a[0].len() as int;
            let lb = b[0].len() as int;
            assert(ea.subrange(0, 8) == u64_be(la as u64));
            assert(ea.subrange(0, 8) == u64_be(lb as u64));
            lemma_u64_be_injective(la as u64, lb as u64);
            assert(la == lb);
            assert(ea.subrange(8, 8 + la) == a[0]);
            assert(ea.subrange(8, 8 + lb) == b[0]);
            assert(ea.subrange(8 + la, ea.len() as int) == encode_fields(a.drop_first()));
            assert(ea.subrange(8 + lb, ea.len() as int) == encode_fields(b.drop_first()));
            assert(fields_fit(a.drop_first()));
            assert(fields_fit(b.drop_first()));
            lemma_encoding_injective(a.drop_first(), b.drop_first());
            assert(a == seq![a[0]] + a.drop_first());
            assert(b == seq![b[0]] + b.drop_first());
        }
    }
}

/// Encoding a one-field list is that field.
pub proof fn lemma_encode_one(f: Seq<u8>)
    ensures
        encode_fields(seq![f]) == field(f),
{
    assert(seq![f][0] == f);
    assert(seq![f].drop_first() == Seq::<Seq<u8>>::empty());
    assert(encode_fields(Seq::<Seq<u8>>::empty()) == Seq::<u8>::empty());
    assert(field(f) + Seq::<u8>::empty() == field(f));
}

/// Two texts with the same UTF-8 bytes are the same text.
pub proof fn lemma_utf8_injective(a: Seq<char>, b: Seq<char>)
    requires
        encode_utf8(a) == encode_utf8(b),
    ensures
        a == b,
{
    vstd::utf8::encode_utf8_decode_utf8(a);
    vstd::utf8::encode_utf8_decode_utf8(b);
}

/// A text's UTF-8 takes at most four bytes per character.
pub proof fn lemma_utf8_len_bound(s: Seq<char>)
    ensures
        encode_utf8(s).len() <= 4 * s.len(),
    decreases s.len(),
{
    if s.len() > 0 {
        lemma_utf8_len_bound(s.drop_first());
    }
}

/// Appending a field to a list appends its encoding.
pub proof fn lemma_encode_push(fields: Seq<Seq<u8>>, f: Seq<u8>)
    ensures
        encode_fields(fields.push(f)) == encode_fields(fields) + field(f),
    decreases fields.len(),
{
    if fields.len() == 0 {
        assert(fields.push(f).drop_first() == Seq::<Seq<u8>>::empty());
        assert(encode_fields(fields.push(f)) == field(f) + encode_fields(Seq::<Seq<u8>>::empty()));
        assert(field(f) + Seq::<u8>::empty() == field(f));
    } else {
        assert(fields.push(f).drop_first() == fields.drop_first().push(f));
        lemma_encode_push(fields.drop_first(), f);
        assert(encode_fields(fields.push(f)) == field(fields[0]) + encode_fields(fields.drop_first().push(f)));
        assert(field(fields[0]) + (encode_fields(fields.drop_first()) + field(f))
            == (field(fields[0]) + encode_fields(fields.drop_first())) + field(f));
    }
}

/// A canonical, length-prefixed encoding under construction.
///
/// Built field by field and finished with either [`Self::hash_hex`], the
/// SHA-256 of the encoding, or [`Self::into_bytes`], for the callers that hand
/// the preimage itself to a signature.
pub struct CanonicalEncoding {
    bytes: Vec<u8>,
    /// The fields written so far, the domain tag first.
    fields: Ghost<Seq<Seq<u8>>>,
}

impl View for CanonicalEncoding {
    type V = Seq<u8>;

    closed spec fn view(&self) -> Seq<u8> {
        self.bytes@
    }
}

impl CanonicalEncoding {
    /// The fields written so far, the domain tag first.
    pub closed spec fn fields(&self) -> Seq<Seq<u8>> {
        self.fields@
    }

    /// The bytes are the encoding of the fields written, every one of which
    /// fits its length prefix.
    pub closed spec fn wf(&self) -> bool {
        self.bytes@ == encode_fields(self.fields@) && fields_fit(self.fields@)
    }

    /// Start an encoding in `domain`, which is written as the first field.
    pub fn new(domain: &str) -> (encoding: Self)
        ensures
            encoding@ == field(encode_utf8(domain@)),
            encoding.wf(),
            encoding.fields() == seq![encode_utf8(domain@)],
    {
        let mut enc = Self { bytes: Vec::new(), fields: Ghost(Seq::empty()) };
        assert(enc.bytes@ == encode_fields(Seq::<Seq<u8>>::empty()));
        let bytes = utf8_bytes(domain);
        enc.push_field(bytes.as_slice());
        assert(enc.bytes@ == Seq::<u8>::empty() + field(encode_utf8(domain@)));
        assert(Seq::<Seq<u8>>::empty().push(encode_utf8(domain@)) == seq![encode_utf8(domain@)]);
        enc
    }

    /// Write one length-prefixed field.
    fn push_field(&mut self, field_bytes: &[u8])
        requires
            old(self).wf(),
        ensures
            final(self)@ == old(self)@ + field(field_bytes@),
            final(self).wf(),
            final(self).fields() == old(self).fields().push(field_bytes@),
    {
        proof {
            lemma_encode_push(self.fields@, field_bytes@);
        }
        let n = field_bytes.len() as u64;
        let prefix: [u8; 8] = [
            (n >> 56u64) as u8,
            (n >> 48u64) as u8,
            (n >> 40u64) as u8,
            (n >> 32u64) as u8,
            (n >> 24u64) as u8,
            (n >> 16u64) as u8,
            (n >> 8u64) as u8,
            n as u8,
        ];
        assert(prefix@ == u64_be(n));
        push_bytes(&mut self.bytes, prefix.as_slice());
        push_bytes(&mut self.bytes, field_bytes);
        assert(self.bytes@ == old(self)@ + (u64_be(n) + field_bytes@));
        let ghost before = self.fields@;
        self.fields = Ghost(before.push(field_bytes@));
        assert forall|i: int| 0 <= i < self.fields@.len() implies #[trigger] self.fields@[i].len()
            <= u64::MAX by {
            if i < before.len() {
                assert(self.fields@[i] == before[i]);
            }
        }
    }

    /// Append a text field.
    pub fn text(self, value: &str) -> (encoding: Self)
        requires
            self.wf(),
        ensures
            encoding.wf(),
            encoding.fields() == self.fields().push(encode_utf8(value@)),
            encoding@ == self@ + field(encode_utf8(value@)),
    {
        let mut enc = self;
        let bytes = utf8_bytes(value);
        enc.push_field(bytes.as_slice());
        enc
    }

    /// Append an optional text field.
    ///
    /// Presence is part of the field, so an absent value and an empty one are
    /// different preimages: a transaction carrying no signature must not hash
    /// like one carrying the empty signature.
    pub fn optional_text(self, value: Option<&str>) -> (encoding: Self)
        requires
            self.wf(),
        ensures
            encoding.wf(),
            encoding.fields() == self.fields().push(optional_text_field(
                match value {
                    Some(t) => Some(t@),
                    None => None,
                },
            )),
            encoding@ == self@ + field(optional_text_field(
                match value {
                    Some(t) => Some(t@),
                    None => None,
                },
            )),
    {
        let mut enc = self;
        match value {
            Some(text) => {
                let mut field_bytes: Vec<u8> = Vec::new();
                field_bytes.push(1u8);
                push_bytes(&mut field_bytes, text.as_bytes());
                assert(field_bytes@ == seq![1u8] + encode_utf8(text@));
                enc.push_field(field_bytes.as_slice());
            },
            None => {
                let field_bytes: [u8; 1] = [0u8];
                assert(field_bytes@ == seq![0u8]);
                enc.push_field(field_bytes.as_slice());
            },
        }
        enc
    }

    /// Append an unsigned integer field, fixed at eight big-endian bytes.
    pub fn integer(self, value: u64) -> (encoding: Self)
        requires
            self.wf(),
        ensures
            encoding.wf(),
            encoding.fields() == self.fields().push(u64_be(value)),
            encoding@ == self@ + field(u64_be(value)),
    {
        let mut enc = self;
        let bytes: [u8; 8] = [
            (value >> 56u64) as u8,
            (value >> 48u64) as u8,
            (value >> 40u64) as u8,
            (value >> 32u64) as u8,
            (value >> 24u64) as u8,
            (value >> 16u64) as u8,
            (value >> 8u64) as u8,
            value as u8,
        ];
        assert(bytes@ == u64_be(value));
        enc.push_field(bytes.as_slice());
        enc
    }

    /// Append a boolean field.
    pub fn flag(self, value: bool) -> (encoding: Self)
        requires
            self.wf(),
        ensures
            encoding.wf(),
            encoding.fields() == self.fields().push(flag_field(value)),
            encoding@ == self@ + field(flag_field(value)),
    {
        let mut enc = self;
        let bytes: [u8; 1] = [if value { 1u8 } else { 0u8 }];
        assert(bytes@ == flag_field(value));
        enc.push_field(bytes.as_slice());
        enc
    }

    /// Append a timestamp, as a second count and the nanoseconds within it.
    ///
    /// Every instant a [`Timestamp`] can hold is exactly a second count plus a
    /// subsecond remainder, so no two instants share a field.
    pub fn time(self, value: &Timestamp) -> (encoding: Self)
        requires
            self.wf(),
        ensures
            encoding.wf(),
            encoding.fields() == self.fields().push(time_field(*value)),
            encoding@ == self@ + field(time_field(*value)),
    {
        let mut enc = self;
        let s = value.secs as u64;
        let n = value.nanos;
        let bytes: [u8; 12] = [
            (s >> 56u64) as u8,
            (s >> 48u64) as u8,
            (s >> 40u64) as u8,
            (s >> 32u64) as u8,
            (s >> 24u64) as u8,
            (s >> 16u64) as u8,
            (s >> 8u64) as u8,
            s as u8,
            (n >> 24u32) as u8,
            (n >> 16u32) as u8,
            (n >> 8u32) as u8,
            n as u8,
        ];
        assert(bytes@ == time_field(*value));
        enc.push_field(bytes.as_slice());
        enc
    }

    /// The encoded bytes, for a caller that signs the preimage itself.
    pub fn into_bytes(self) -> (bytes: Vec<u8>)
        ensures
            bytes@ == self@,
    {
        self.bytes
    }

    /// The SHA-256 of the encoding, hex-encoded.
    pub fn hash_hex(self) -> (hash: String)
        ensures
            hash@ == spec_hash_hex(self@),
            is_hex_digest(hash@),
    {
        let digest = sha256(self.bytes.as_slice());
        proof {
            lemma_hex_text(digest@);
        }
        hex_encode(digest.as_slice())
    }
}

/// An encoding parses back into the field list it was built from: two
/// encodings built field by field that came out as the same bytes were built
/// from the same fields, the domain tag included.
pub proof fn lemma_built_encoding_injective(a: CanonicalEncoding, b: CanonicalEncoding)
    requires
        a.wf(),
        b.wf(),
        a@ == b@,
    ensures
        a.fields() == b.fields(),
{
    lemma_encoding_injective(a.fields@, b.fields@);
}

} // verus!
