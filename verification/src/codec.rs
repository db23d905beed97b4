use vstd::prelude::*;
use crate::difficulty::pow256;
use crate::types::{Transaction, BlockType, BlockHeader, FruitHeader, SignedBlock, Block};
use crate::crypto::{blake3_of, blake3_hash};

verus! {

/// The deterministic binary encoding: little-endian fixed-width
/// integers, byte strings with a 64-bit length prefix, raw 32-byte
/// hashes, and a one-byte tag for enum variants.

/// Eight little-endian bytes of a 64-bit integer.
pub open spec fn spec_enc_u64_le(x: u64) -> Seq<u8> {
    Seq::new(8, |i: int| ((x as int / pow256(i as nat)) % 256) as u8)
}

/// A length-prefixed byte string.
pub open spec fn spec_enc_bytes(s: Seq<u8>) -> Seq<u8> {
    spec_enc_u64_le(s.len() as u64) + s
}

/// A transaction: its payload, then its creation time.
pub open spec fn spec_enc_tx(t: Transaction) -> Seq<u8> {
    spec_enc_bytes(t.data@) + spec_enc_u64_le(t.timestamp)
}

/// A block header: both hashes raw, then timestamp and nonce.
pub open spec fn spec_enc_header(h: BlockHeader) -> Seq<u8> {
    h.previous_hash@ + h.merkle_root@ + spec_enc_u64_le(h.timestamp) + spec_enc_u64_le(h.nonce)
}

/// The one-byte tag of a block kind.
pub open spec fn spec_type_tag(t: BlockType) -> u8 {
    match t {
        BlockType::Main => 0u8,
        BlockType::Fruit => 1u8,
    }
}

/// An optional fruit header: a presence byte, then the header if any.
pub open spec fn spec_enc_opt_fruit_header(o: Option<FruitHeader>) -> Seq<u8> {
    match o {
        Option::None => seq![0u8],
        Option::Some(f) => seq![1u8] + f.parent_hash@ + spec_enc_u64_le(f.nonce),
    }
}

/// A signed sub-block: kind tag, header, optional fruit header,
/// length-prefixed signature.
pub open spec fn spec_enc_signed_block(sb: SignedBlock) -> Seq<u8> {
    seq![spec_type_tag(sb.block_type)] + spec_enc_header(sb.header)
        + spec_enc_opt_fruit_header(sb.fruit_header) + spec_enc_bytes(sb.signature@)
}

/// The transactions of a block, in order, without the count prefix.
pub open spec fn spec_enc_txs(ts: Seq<Transaction>) -> Seq<u8>
    decreases ts.len(),
{
    if ts.len() == 0 {
        Seq::empty()
    } else {
        spec_enc_txs(ts.drop_last()) + spec_enc_tx(ts.last())
    }
}

/// A full block: header, transaction count, then each transaction.
pub open spec fn spec_enc_block(b: Block) -> Seq<u8> {
    spec_enc_header(b.header) + spec_enc_u64_le(b.transactions@.len() as u64)
        + spec_enc_txs(b.transactions@)
}

/// The byte weights the little-endian encoding uses.
pub proof fn lemma_pow256_le_vals()
    ensures
        pow256(0) == 1,
        pow256(1) == 0x100,
        pow256(2) == 0x1_0000,
        pow256(3) == 0x100_0000,
        pow256(4) == 0x1_0000_0000,
        pow256(5) == 0x100_0000_0000,
        pow256(6) == 0x1_0000_0000_0000,
        pow256(7) == 0x100_0000_0000_0000,
{
    reveal_with_fuel(pow256, 9);
}

/// Appends the eight little-endian bytes of `x`.
pub fn encode_u64_le(out: &mut Vec<u8>, x: u64)
    ensures
        final(out)@ == old(out)@ + spec_enc_u64_le(x),
{
    proof {
        lemma_pow256_le_vals();
    }
    out.push((x % 0x100) as u8);
    out.push(((x / 0x100) % 0x100) as u8);
    out.push(((x / 0x1_0000) % 0x100) as u8);
    out.push(((x / 0x100_0000) % 0x100) as u8);
    out.push(((x / 0x1_0000_0000) % 0x100) as u8);
    out.push(((x / 0x100_0000_0000) % 0x100) as u8);
    out.push(((x / 0x1_0000_0000_0000) % 0x100) as u8);
    out.push(((x / 0x100_0000_0000_0000) % 0x100) as u8);
    proof {
        assert(out@ =~= old(out)@ + spec_enc_u64_le(x));
    }
}

/// Appends a byte vector as it stands.
pub fn append_bytes(out: &mut Vec<u8>, b: &Vec<u8>)
    ensures
        final(out)@ == old(out)@ + b@,
{
    let mut i: usize = 0;
    while i < b.len()
        invariant
            i <= b@.len(),
            out@ == old(out)@ + b@.take(i as int),
        decreases b@.len() - i,
    {
        out.push(b[i]);
        proof {
            assert(old(out)@ + b@.take(i + 1) =~= (old(out)@ + b@.take(i as int)).push(b@[i as int]));
        }
        i = i + 1;
    }
    proof {
        assert(b@.take(b@.len() as int) =~= b@);
    }
}

/// Appends a raw 32-byte hash.
pub fn append_hash(out: &mut Vec<u8>, h: &[u8; 32])
    ensures
        final(out)@ == old(out)@ + h@,
{
    let mut i: usize = 0;
    while i < 32
        invariant
            i <= 32,
            out@ == old(out)@ + h@.take(i as int),
        decreases 32 - i,
    {
        out.push(h[i]);
        proof {
            assert(old(out)@ + h@.take(i + 1) =~= (old(out)@ + h@.take(i as int)).push(h@[i as int]));
        }
        i = i + 1;
    }
    proof {
        assert(h@.take(32) =~= h@);
    }
}

/// Appends a length-prefixed byte string.
pub fn encode_bytes(out: &mut Vec<u8>, b: &Vec<u8>)
    ensures
        final(out)@ == old(out)@ + spec_enc_bytes(b@),
{
    encode_u64_le(out, b.len() as u64);
    append_bytes(out, b);
    proof {
        assert(out@ =~= old(out)@ + spec_enc_bytes(b@));
    }
}

/// Appends an encoded block header.
pub fn encode_header(out: &mut Vec<u8>, h: &BlockHeader)
    ensures
        final(out)@ == old(out)@ + spec_enc_header(*h),
{
    append_hash(out, &h.previous_hash);
    append_hash(out, &h.merkle_root);
    encode_u64_le(out, h.timestamp);
    encode_u64_le(out, h.nonce);
    proof {
        assert(out@ =~= old(out)@ + spec_enc_header(*h));
    }
}

/// Appends an encoded transaction.
pub fn encode_tx(out: &mut Vec<u8>, t: &Transaction)
    ensures
        final(out)@ == old(out)@ + spec_enc_tx(*t),
{
    encode_bytes(out, &t.data);
    encode_u64_le(out, t.timestamp);
    proof {
        assert(out@ =~= old(out)@ + spec_enc_tx(*t));
    }
}

impl Transaction {
    /// The serialized form of this transaction.
    pub fn encode(&self) -> (r: Vec<u8>)
        ensures
            r@ == spec_enc_tx(*self),
    {
        let mut out: Vec<u8> = Vec::new();
        encode_tx(&mut out, self);
        out
    }

    /// The content hash that identifies this transaction in the pool:
    /// the digest of its serialized form.
    pub fn hash(&self) -> (r: [u8; 32])
        ensures
            r@ == blake3_of(spec_enc_tx(*self)),
    {
        let bytes = self.encode();
        blake3_hash(bytes.as_slice())
    }
}

impl SignedBlock {
    /// The serialized form of this signed sub-block.
    pub fn encode(&self) -> (r: Vec<u8>)
        ensures
            r@ == spec_enc_signed_block(*self),
    {
        let mut out: Vec<u8> = Vec::new();
        match self.block_type {
            BlockType::Main => out.push(0u8),
            BlockType::Fruit => out.push(1u8),
        }
        encode_header(&mut out, &self.header);
        match &self.fruit_header {
            Option::None => out.push(0u8),
            Option::Some(f) => {
                out.push(1u8);
                append_hash(&mut out, &f.parent_hash);
                encode_u64_le(&mut out, f.nonce);
            },
        }
        encode_bytes(&mut out, &self.signature);
        proof {
            assert(out@ =~= spec_enc_signed_block(*self));
        }
        out
    }

    /// The content hash that identifies this sub-block in the pool.
    pub fn hash(&self) -> (r: [u8; 32])
        ensures
            r@ == blake3_of(spec_enc_signed_block(*self)),
    {
        let bytes = self.encode();
        blake3_hash(bytes.as_slice())
    }
}

impl Block {
    /// The serialized form of this block: the byte sequence its
    /// identity hash is computed over and its stored form derives from.
    pub fn encode(&self) -> (r: Vec<u8>)
        ensures
            r@ == spec_enc_block(*self),
    {
        let mut out: Vec<u8> = Vec::new();
        encode_header(&mut out, &self.header);
        encode_u64_le(&mut out, self.transactions.len() as u64);
        let mut i: usize = 0;
        while i < self.transactions.len()
            invariant
                i <= self.transactions@.len(),
                out@ == spec_enc_header(self.header)
                    + spec_enc_u64_le(self.transactions@.len() as u64)
                    + spec_enc_txs(self.transactions@.take(i as int)),
            decreases self.transactions@.len() - i,
        {
            encode_tx(&mut out, &self.transactions[i]);
            proof {
                let ts = self.transactions@;
                assert(ts.take(i + 1).drop_last() =~= ts.take(i as int));
                assert(ts.take(i + 1).last() == ts[i as int]);
                assert(out@ =~= spec_enc_header(self.header)
                    + spec_enc_u64_le(ts.len() as u64) + spec_enc_txs(ts.take(i + 1)));
            }
            i = i + 1;
        }
        proof {
            let ts = self.transactions@;
            assert(ts.take(ts.len() as int) =~= ts);
        }
        out
    }

    /// The identity hash of this block: the digest of its serialized form.
    pub fn hash(&self) -> (r: [u8; 32])
        ensures
            r@ == blake3_of(spec_enc_block(*self)),
    {
        let bytes = self.encode();
        blake3_hash(bytes.as_slice())
    }
}

/// The little-endian value of the eight bytes at `pos`.
pub open spec fn le8_at(s: Seq<u8>, pos: int) -> int {
    s[pos] as int + s[pos + 1] as int * 0x100 + s[pos + 2] as int * 0x1_0000
        + s[pos + 3] as int * 0x100_0000 + s[pos + 4] as int * 0x1_0000_0000
        + s[pos + 5] as int * 0x100_0000_0000 + s[pos + 6] as int * 0x1_0000_0000_0000
        + s[pos + 7] as int * 0x100_0000_0000_0000
}

/// Reads a 64-bit little-endian integer at `pos`.
pub open spec fn spec_dec_u64(s: Seq<u8>, pos: int) -> Option<(u64, int)> {
    if 0 <= pos && pos + 8 <= s.len() {
        Option::Some((le8_at(s, pos) as u64, pos + 8))
    } else {
        Option::None
    }
}

/// Reads a length-prefixed byte string at `pos`.
pub open spec fn spec_dec_bytes(s: Seq<u8>, pos: int) -> Option<(Seq<u8>, int)> {
    match spec_dec_u64(s, pos) {
        Option::Some((n, p)) => if p + n <= s.len() {
            Option::Some((s.subrange(p, p + n), p + n))
        } else {
            Option::None
        },
        Option::None => Option::None,
    }
}

/// Reads a raw 32-byte hash at `pos`.
pub open spec fn spec_dec_hash(s: Seq<u8>, pos: int) -> Option<(Seq<u8>, int)> {
    if 0 <= pos && pos + 32 <= s.len() {
        Option::Some((s.subrange(pos, pos + 32), pos + 32))
    } else {
        Option::None
    }
}

/// The value view of a decoded header: previous hash, merkle root,
/// timestamp, nonce.
pub type HeaderView = (Seq<u8>, Seq<u8>, u64, u64);

/// Reads a block header at `pos`.
pub open spec fn spec_dec_header(s: Seq<u8>, pos: int) -> Option<(HeaderView, int)> {
    match spec_dec_hash(s, pos) {
        Option::Some((prev, p1)) => match spec_dec_hash(s, p1) {
            Option::Some((root, p2)) => match spec_dec_u64(s, p2) {
                Option::Some((ts, p3)) => match spec_dec_u64(s, p3) {
                    Option::Some((nonce, p4)) => Option::Some(((prev, root, ts, nonce), p4)),
                    Option::None => Option::None,
                },
                Option::None => Option::None,
            },
            Option::None => Option::None,
        },
        Option::None => Option::None,
    }
}

/// Reads a transaction at `pos`: payload bytes, then creation time.
pub open spec fn spec_dec_tx(s: Seq<u8>, pos: int) -> Option<((Seq<u8>, u64), int)> {
    match spec_dec_bytes(s, pos) {
        Option::Some((data, p1)) => match spec_dec_u64(s, p1) {
            Option::Some((ts, p2)) => Option::Some(((data, ts), p2)),
            Option::None => Option::None,
        },
        Option::None => Option::None,
    }
}

/// Reads `count` transactions in order starting at `pos`.
pub open spec fn spec_dec_txs(s: Seq<u8>, pos: int, count: int) -> Option<(Seq<(Seq<u8>, u64)>, int)>
    decreases count,
{
    if count <= 0 {
        Option::Some((Seq::empty(), pos))
    } else {
        match spec_dec_tx(s, pos) {
            Option::Some((t, p1)) => match spec_dec_txs(s, p1, count - 1) {
                Option::Some((ts, p2)) => Option::Some((seq![t] + ts, p2)),
                Option::None => Option::None,
            },
            Option::None => Option::None,
        }
    }
}

/// The value view of a decoded block: its header view and its
/// transactions' value views, in order.
pub type BlockView = (HeaderView, Seq<(Seq<u8>, u64)>);

/// Reads a whole block at `pos`.
pub open spec fn spec_dec_block(s: Seq<u8>, pos: int) -> Option<(BlockView, int)> {
    match spec_dec_header(s, pos) {
        Option::Some((h, p1)) => match spec_dec_u64(s, p1) {
            Option::Some((count, p2)) => match spec_dec_txs(s, p2, count as int) {
                Option::Some((ts, p3)) => Option::Some(((h, ts), p3)),
                Option::None => Option::None,
            },
            Option::None => Option::None,
        },
        Option::None => Option::None,
    }
}

/// Reading eight encoded bytes back gives the encoded integer.
pub proof fn lemma_dec_enc_u64(x: u64, s: Seq<u8>, pos: int)
    requires
        0 <= pos,
        pos + 8 <= s.len(),
        s.subrange(pos, pos + 8) == spec_enc_u64_le(x),
    ensures
        spec_dec_u64(s, pos) == Option::Some((x, pos + 8)),
{
    lemma_pow256_le_vals();
    assert forall|i: int| 0 <= i < 8 implies s[pos + i] == #[trigger] spec_enc_u64_le(x)[i] by {
        assert(s.subrange(pos, pos + 8)[i] == s[pos + i]);
    }
    let xi = x as int;
    vstd::arithmetic::div_mod::lemma_fundamental_div_mod(xi, 0x100);
    vstd::arithmetic::div_mod::lemma_fundamental_div_mod(xi / 0x100, 0x100);
    vstd::arithmetic::div_mod::lemma_div_denominator(xi, 0x100, 0x100);
    vstd::arithmetic::div_mod::lemma_fundamental_div_mod(xi / 0x1_0000, 0x100);
    vstd::arithmetic::div_mod::lemma_div_denominator(xi, 0x1_0000, 0x100);
    vstd::arithmetic::div_mod::lemma_fundamental_div_mod(xi / 0x100_0000, 0x100);
    vstd::arithmetic::div_mod::lemma_div_denominator(xi, 0x100_0000, 0x100);
    vstd::arithmetic::div_mod::lemma_fundamental_div_mod(xi / 0x1_0000_0000, 0x100);
    vstd::arithmetic::div_mod::lemma_div_denominator(xi, 0x1_0000_0000, 0x100);
    vstd::arithmetic::div_mod::lemma_fundamental_div_mod(xi / 0x100_0000_0000, 0x100);
    vstd::arithmetic::div_mod::lemma_div_denominator(xi, 0x100_0000_0000, 0x100);
    vstd::arithmetic::div_mod::lemma_fundamental_div_mod(xi / 0x1_0000_0000_0000, 0x100);
    vstd::arithmetic::div_mod::lemma_div_denominator(xi, 0x1_0000_0000_0000, 0x100);
    vstd::arithmetic::div_mod::lemma_fundamental_div_mod(xi / 0x100_0000_0000_0000, 0x100);
    vstd::arithmetic::div_mod::lemma_div_denominator(xi, 0x100_0000_0000_0000, 0x100);
    assert(xi / 0x1_0000_0000_0000_0000 == 0) by {
        vstd::arithmetic::div_mod::lemma_basic_div(xi, 0x1_0000_0000_0000_0000);
    }
    assert(s[pos] == spec_enc_u64_le(x)[0]);
    assert(s[pos + 1] == spec_enc_u64_le(x)[1]);
    assert(s[pos + 2] == spec_enc_u64_le(x)[2]);
    assert(s[pos + 3] == spec_enc_u64_le(x)[3]);
    assert(s[pos + 4] == spec_enc_u64_le(x)[4]);
    assert(s[pos + 5] == spec_enc_u64_le(x)[5]);
    assert(s[pos + 6] == spec_enc_u64_le(x)[6]);
    assert(s[pos + 7] == spec_enc_u64_le(x)[7]);
    assert(s[pos] as int == xi % 0x100);
    assert(s[pos + 1] as int == (xi / 0x100) % 0x100);
    assert(s[pos + 2] as int == (xi / 0x1_0000) % 0x100);
    assert(s[pos + 3] as int == (xi / 0x100_0000) % 0x100);
    assert(s[pos + 4] as int == (xi / 0x1_0000_0000) % 0x100);
    assert(s[pos + 5] as int == (xi / 0x100_0000_0000) % 0x100);
    assert(s[pos + 6] as int == (xi / 0x1_0000_0000_0000) % 0x100);
    assert(s[pos + 7] as int == (xi / 0x100_0000_0000_0000) % 0x100);
    assert(le8_at(s, pos) == x);
}

/// Reading an encoded byte string back gives the encoded bytes.
pub proof fn lemma_dec_enc_bytes(b: Seq<u8>, s: Seq<u8>, pos: int)
    requires
        0 <= pos,
        b.len() <= u64::MAX,
        pos + 8 + b.len() <= s.len(),
        s.subrange(pos, pos + 8 + b.len()) == spec_enc_bytes(b),
    ensures
        spec_dec_bytes(s, pos) == Option::Some((b, pos + 8 + b.len())),
{
    let n = b.len() as int;
    assert(s.subrange(pos, pos + 8) =~= spec_enc_u64_le(b.len() as u64)) by {
        assert forall|i: int| 0 <= i < 8 implies #[trigger] s.subrange(pos, pos + 8)[i]
            == spec_enc_u64_le(b.len() as u64)[i] by {
            assert(s.subrange(pos, pos + 8)[i] == s[pos + i]);
            assert(s.subrange(pos, pos + 8 + n)[i] == s[pos + i]);
            assert(spec_enc_bytes(b)[i] == spec_enc_u64_le(b.len() as u64)[i]);
        }
    }
    lemma_dec_enc_u64(b.len() as u64, s, pos);
    assert(s.subrange(pos + 8, pos + 8 + n) =~= b) by {
        assert forall|i: int| 0 <= i < n implies #[trigger] s.subrange(pos + 8, pos + 8 + n)[i] == b[i] by {
            assert(s.subrange(pos + 8, pos + 8 + n)[i] == s[pos + 8 + i]);
            assert(s.subrange(pos, pos + 8 + n)[8 + i] == s[pos + 8 + i]);
            assert(spec_enc_bytes(b)[8 + i] == b[i]);
        }
    }
}

/// Reading an encoded hash back gives the hash bytes.
pub proof fn lemma_dec_enc_hash(h: Seq<u8>, s: Seq<u8>, pos: int)
    requires
        0 <= pos,
        h.len() == 32,
        pos + 32 <= s.len(),
        s.subrange(pos, pos + 32) == h,
    ensures
        spec_dec_hash(s, pos) == Option::Some((h, pos + 32)),
{
}

/// Reading an encoded header back gives the header's views.
pub proof fn lemma_dec_enc_header(h: BlockHeader, s: Seq<u8>, pos: int)
    requires
        0 <= pos,
        pos + 80 <= s.len(),
        s.subrange(pos, pos + 80) == spec_enc_header(h),
    ensures
        spec_dec_header(s, pos) == Option::Some(((h.previous_hash@, h.merkle_root@, h.timestamp,
            h.nonce), pos + 80)),
{
    let e = spec_enc_header(h);
    assert(e.len() == 80);
    assert forall|i: int| 0 <= i < 80 implies s[pos + i] == #[trigger] e[i] by {
        assert(s.subrange(pos, pos + 80)[i] == s[pos + i]);
    }
    assert(s.subrange(pos, pos + 32) =~= h.previous_hash@) by {
        assert forall|i: int| 0 <= i < 32 implies #[trigger] s.subrange(pos, pos + 32)[i]
            == h.previous_hash@[i] by {
            assert(e[i] == h.previous_hash@[i]);
        }
    }
    lemma_dec_enc_hash(h.previous_hash@, s, pos);
    assert(s.subrange(pos + 32, pos + 64) =~= h.merkle_root@) by {
        assert forall|i: int| 0 <= i < 32 implies #[trigger] s.subrange(pos + 32, pos + 64)[i]
            == h.merkle_root@[i] by {
            assert(e[32 + i] == h.merkle_root@[i]);
        }
    }
    lemma_dec_enc_hash(h.merkle_root@, s, pos + 32);
    assert(s.subrange(pos + 64, pos + 72) =~= spec_enc_u64_le(h.timestamp)) by {
        assert forall|i: int| 0 <= i < 8 implies #[trigger] s.subrange(pos + 64, pos + 72)[i]
            == spec_enc_u64_le(h.timestamp)[i] by {
            assert(e[64 + i] == spec_enc_u64_le(h.timestamp)[i]);
        }
    }
    lemma_dec_enc_u64(h.timestamp, s, pos + 64);
    assert(s.subrange(pos + 72, pos + 80) =~= spec_enc_u64_le(h.nonce)) by {
        assert forall|i: int| 0 <= i < 8 implies #[trigger] s.subrange(pos + 72, pos + 80)[i]
            == spec_enc_u64_le(h.nonce)[i] by {
            assert(e[72 + i] == spec_enc_u64_le(h.nonce)[i]);
        }
    }
    lemma_dec_enc_u64(h.nonce, s, pos + 72);
}

/// Reading an encoded transaction back gives its value view.
pub proof fn lemma_dec_enc_tx(t: Transaction, s: Seq<u8>, pos: int)
    requires
        0 <= pos,
        t.data@.len() <= u64::MAX,
        pos + spec_enc_tx(t).len() <= s.len(),
        s.subrange(pos, pos + spec_enc_tx(t).len()) == spec_enc_tx(t),
    ensures
        spec_dec_tx(s, pos) == Option::Some(((t.data@, t.timestamp),
            pos + spec_enc_tx(t).len())),
{
    let e = spec_enc_tx(t);
    let n = t.data@.len() as int;
    assert(e.len() == 8 + n + 8);
    assert forall|i: int| 0 <= i < e.len() implies s[pos + i] == #[trigger] e[i] by {
        assert(s.subrange(pos, pos + e.len())[i] == s[pos + i]);
    }
    assert(s.subrange(pos, pos + 8 + n) =~= spec_enc_bytes(t.data@)) by {
        assert forall|i: int| 0 <= i < 8 + n implies #[trigger] s.subrange(pos, pos + 8 + n)[i]
            == spec_enc_bytes(t.data@)[i] by {
            assert(e[i] == spec_enc_bytes(t.data@)[i]);
        }
    }
    lemma_dec_enc_bytes(t.data@, s, pos);
    assert(s.subrange(pos + 8 + n, pos + 8 + n + 8) =~= spec_enc_u64_le(t.timestamp)) by {
        assert forall|i: int| 0 <= i < 8 implies #[trigger] s.subrange(pos + 8 + n, pos + 8 + n + 8)[i]
            == spec_enc_u64_le(t.timestamp)[i] by {
            assert(e[8 + n + i] == spec_enc_u64_le(t.timestamp)[i]);
        }
    }
    lemma_dec_enc_u64(t.timestamp, s, pos + 8 + n);
}

/// Reading an encoded transaction list back gives the value views.
pub proof fn lemma_dec_enc_txs(ts: Seq<Transaction>, s: Seq<u8>, pos: int)
    requires
        0 <= pos,
        forall|i: int| 0 <= i < ts.len() ==> (#[trigger] ts[i]).data@.len() <= u64::MAX,
        pos + spec_enc_txs(ts).len() <= s.len(),
        s.subrange(pos, pos + spec_enc_txs(ts).len()) == spec_enc_txs(ts),
    ensures
        spec_dec_txs(s, pos, ts.len() as int) == Option::Some((
            ts.map_values(|t: Transaction| (t.data@, t.timestamp)),
            pos + spec_enc_txs(ts).len())),
    decreases ts.len(),
{
    if ts.len() == 0 {
        assert(ts.map_values(|t: Transaction| (t.data@, t.timestamp))
            =~= Seq::<(Seq<u8>, u64)>::empty());
    } else {
        let first = ts[0];
        let rest = ts.drop_first();
        lemma_enc_txs_first(ts);
        let e1 = spec_enc_tx(first);
        let e2 = spec_enc_txs(rest);
        assert(spec_enc_txs(ts).len() == e1.len() + e2.len());
        assert forall|i: int| 0 <= i < e1.len() + e2.len() implies s[pos + i]
            == #[trigger] spec_enc_txs(ts)[i] by {
            assert(s.subrange(pos, pos + spec_enc_txs(ts).len())[i] == s[pos + i]);
        }
        assert(s.subrange(pos, pos + e1.len()) =~= e1) by {
            assert forall|i: int| 0 <= i < e1.len() implies #[trigger] s.subrange(pos, pos + e1.len())[i]
                == e1[i] by {
                assert(spec_enc_txs(ts)[i] == e1[i]);
            }
        }
        lemma_dec_enc_tx(first, s, pos);
        assert(s.subrange(pos + e1.len(), pos + e1.len() + e2.len()) =~= e2) by {
            assert forall|i: int| 0 <= i < e2.len() implies
                s.subrange(pos + e1.len(), pos + e1.len() + e2.len())[i] == e2[i] by {
                assert(spec_enc_txs(ts)[e1.len() + i] == e2[i]);
            }
        }
        lemma_dec_enc_txs(rest, s, pos + e1.len());
        assert(seq![(first.data@, first.timestamp)]
            + rest.map_values(|t: Transaction| (t.data@, t.timestamp))
            =~= ts.map_values(|t: Transaction| (t.data@, t.timestamp)));
    }
}

/// The transaction-list encoding starts with its first transaction.
proof fn lemma_enc_txs_first(ts: Seq<Transaction>)
    requires
        ts.len() >= 1,
    ensures
        spec_enc_txs(ts) == spec_enc_tx(ts[0]) + spec_enc_txs(ts.drop_first()),
    decreases ts.len(),
{
    if ts.len() == 1 {
        assert(ts.drop_last() =~= Seq::<Transaction>::empty());
        assert(ts.drop_first() =~= Seq::<Transaction>::empty());
        assert(spec_enc_txs(ts) =~= spec_enc_tx(ts[0]) + spec_enc_txs(ts.drop_first()));
    } else {
        let d = ts.drop_last();
        lemma_enc_txs_first(d);
        assert(ts.drop_first().drop_last() =~= d.drop_first());
        assert(ts.drop_first().last() == ts.last());
        assert(d[0] == ts[0]);
        assert(spec_enc_txs(ts.drop_first())
            == spec_enc_txs(ts.drop_first().drop_last()) + spec_enc_tx(ts.drop_first().last()));
        assert(spec_enc_tx(ts[0]) + spec_enc_txs(ts.drop_first())
            =~= (spec_enc_tx(ts[0]) + spec_enc_txs(d.drop_first())) + spec_enc_tx(ts.last()));
    }
}

/// Law: decoding an encoded block, with anything after it, yields the
/// very block that was encoded, at the value level, and consumes
/// exactly its encoding.
pub proof fn lemma_block_round_trip(b: Block, rest: Seq<u8>)
    requires
        b.transactions@.len() <= u64::MAX,
        forall|i: int| 0 <= i < b.transactions@.len()
            ==> (#[trigger] b.transactions@[i]).data@.len() <= u64::MAX,
    ensures
        spec_dec_block(spec_enc_block(b) + rest, 0) == Option::Some((((b.header.previous_hash@,
            b.header.merkle_root@, b.header.timestamp, b.header.nonce),
            b.transactions@.map_values(|t: Transaction| (t.data@, t.timestamp))),
            spec_enc_block(b).len() as int)),
{
    let s = spec_enc_block(b) + rest;
    let eh = spec_enc_header(b.header);
    let ec = spec_enc_u64_le(b.transactions@.len() as u64);
    let et = spec_enc_txs(b.transactions@);
    assert(eh.len() == 80);
    assert(ec.len() == 8);
    assert(s.subrange(0, 80) =~= eh) by {
        assert forall|i: int| 0 <= i < 80 implies #[trigger] s.subrange(0, 80)[i] == eh[i] by {
            assert(s[i] == spec_enc_block(b)[i]);
            assert(spec_enc_block(b)[i] == eh[i]);
        }
    }
    lemma_dec_enc_header(b.header, s, 0);
    assert(s.subrange(80, 88) =~= ec) by {
        assert forall|i: int| 0 <= i < 8 implies #[trigger] s.subrange(80, 88)[i] == ec[i] by {
            assert(s[80 + i] == spec_enc_block(b)[80 + i]);
            assert(spec_enc_block(b)[80 + i] == ec[i]);
        }
    }
    lemma_dec_enc_u64(b.transactions@.len() as u64, s, 80);
    assert(s.subrange(88, 88 + et.len() as int) =~= et) by {
        assert forall|i: int| 0 <= i < et.len() implies #[trigger] s.subrange(88, 88 + et.len() as int)[i]
            == et[i] by {
            assert(s[88 + i] == spec_enc_block(b)[88 + i]);
            assert(spec_enc_block(b)[88 + i] == et[i]);
        }
    }
    lemma_dec_enc_txs(b.transactions@, s, 88);
}

/// The value view of a block: what its encoding determines.
pub open spec fn block_view(b: Block) -> BlockView {
    ((b.header.previous_hash@, b.header.merkle_root@, b.header.timestamp, b.header.nonce),
        b.transactions@.map_values(|t: Transaction| (t.data@, t.timestamp)))
}

/// Reads a 64-bit little-endian integer at `pos`.
pub fn decode_u64_at(v: &Vec<u8>, pos: usize) -> (r: Option<(u64, usize)>)
    ensures
        match r {
            Option::Some((x, p)) => spec_dec_u64(v@, pos as int) == Option::Some((x, p as int)),
            Option::None => spec_dec_u64(v@, pos as int) is None,
        },
{
    if pos > v.len() || v.len() - pos < 8 {
        return Option::None;
    }
    let x: u64 = v[pos] as u64 + (v[pos + 1] as u64) * 0x100 + (v[pos + 2] as u64) * 0x1_0000
        + (v[pos + 3] as u64) * 0x100_0000 + (v[pos + 4] as u64) * 0x1_0000_0000
        + (v[pos + 5] as u64) * 0x100_0000_0000 + (v[pos + 6] as u64) * 0x1_0000_0000_0000
        + (v[pos + 7] as u64) * 0x100_0000_0000_0000;
    proof {
        assert(le8_at(v@, pos as int) == x);
    }
    Option::Some((x, pos + 8))
}

/// Reads a length-prefixed byte string at `pos`.
pub fn decode_bytes_at(v: &Vec<u8>, pos: usize) -> (r: Option<(Vec<u8>, usize)>)
    ensures
        match r {
            Option::Some((b, p)) => spec_dec_bytes(v@, pos as int) == Option::Some((b@, p as int)),
            Option::None => spec_dec_bytes(v@, pos as int) is None,
        },
{
    match decode_u64_at(v, pos) {
        Option::None => Option::None,
        Option::Some((n, p)) => {
            if n > (v.len() - p) as u64 {
                return Option::None;
            }
            let len: usize = n as usize;
            let total: usize = v.len();
            let mut out: Vec<u8> = Vec::new();
            let mut i: usize = 0;
            while i < len
                invariant
                    i <= len,
                    p + len <= total,
                    total == v@.len(),
                    out@ =~= v@.subrange(p as int, p + i),
                decreases len - i,
            {
                out.push(v[p + i]);
                proof {
                    assert(v@.subrange(p as int, p + i + 1)
                        =~= v@.subrange(p as int, p + i).push(v@[p + i]));
                }
                i = i + 1;
            }
            Option::Some((out, p + len))
        },
    }
}

/// Reads a raw 32-byte hash at `pos`.
pub fn decode_hash_at(v: &Vec<u8>, pos: usize) -> (r: Option<([u8; 32], usize)>)
    ensures
        match r {
            Option::Some((h, p)) => spec_dec_hash(v@, pos as int) == Option::Some((h@, p as int)),
            Option::None => spec_dec_hash(v@, pos as int) is None,
        },
{
    if pos > v.len() || v.len() - pos < 32 {
        return Option::None;
    }
    let total: usize = v.len();
    let mut h: [u8; 32] = [0u8; 32];
    let mut i: usize = 0;
    while i < 32
        invariant
            i <= 32,
            pos + 32 <= total,
            total == v@.len(),
            forall|j: int| 0 <= j < i ==> h@[j] == v@[pos + j],
        decreases 32 - i,
    {
        h[i] = v[pos + i];
        i = i + 1;
    }
    proof {
        assert(h@ =~= v@.subrange(pos as int, pos + 32));
    }
    Option::Some((h, pos + 32))
}

/// Reads a block header at `pos`.
pub fn decode_header_at(v: &Vec<u8>, pos: usize) -> (r: Option<(BlockHeader, usize)>)
    ensures
        match r {
            Option::Some((h, p)) => spec_dec_header(v@, pos as int) == Option::Some((
                (h.previous_hash@, h.merkle_root@, h.timestamp, h.nonce), p as int)),
            Option::None => spec_dec_header(v@, pos as int) is None,
        },
{
    match decode_hash_at(v, pos) {
        Option::None => Option::None,
        Option::Some((prev, p1)) => match decode_hash_at(v, p1) {
            Option::None => Option::None,
            Option::Some((root, p2)) => match decode_u64_at(v, p2) {
                Option::None => Option::None,
                Option::Some((ts, p3)) => match decode_u64_at(v, p3) {
                    Option::None => Option::None,
                    Option::Some((nonce, p4)) => Option::Some((BlockHeader {
                        previous_hash: prev,
                        merkle_root: root,
                        timestamp: ts,
                        nonce,
                    }, p4)),
                },
            },
        },
    }
}

/// Reads a transaction at `pos`.
pub fn decode_tx_at(v: &Vec<u8>, pos: usize) -> (r: Option<(Transaction, usize)>)
    ensures
        match r {
            Option::Some((t, p)) => spec_dec_tx(v@, pos as int) == Option::Some((
                (t.data@, t.timestamp), p as int)),
            Option::None => spec_dec_tx(v@, pos as int) is None,
        },
{
    match decode_bytes_at(v, pos) {
        Option::None => Option::None,
        Option::Some((data, p1)) => match decode_u64_at(v, p1) {
            Option::None => Option::None,
            Option::Some((ts, p2)) => Option::Some((Transaction { data, timestamp: ts }, p2)),
        },
    }
}

/// Reads back a whole serialized block: the inverse of `Block::encode`
/// at the value level. Absent when the bytes do not start with a
/// well-formed block encoding.
pub fn decode_block(bytes: &Vec<u8>) -> (r: Option<Block>)
    ensures
        match r {
            Option::Some(b) => spec_dec_block(bytes@, 0) matches Option::Some(p)
                && p.0 == block_view(b),
            Option::None => spec_dec_block(bytes@, 0) is None,
        },
{
    let header = match decode_header_at(bytes, 0) {
        Option::None => {
            return Option::None;
        },
        Option::Some(hp) => hp,
    };
    let (h, p1) = header;
    let count_p = match decode_u64_at(bytes, p1) {
        Option::None => {
            return Option::None;
        },
        Option::Some(cp) => cp,
    };
    let (count, p2) = count_p;
    let ghost start = p2 as int;
    let mut txs: Vec<Transaction> = Vec::new();
    let mut k: u64 = 0;
    let mut pos: usize = p2;
    while k < count
        invariant
            k <= count,
            txs@.len() == k,
            pos <= bytes@.len(),
            spec_dec_header(bytes@, 0) == Option::Some(((h.previous_hash@, h.merkle_root@,
                h.timestamp, h.nonce), p1 as int)),
            spec_dec_u64(bytes@, p1 as int) == Option::Some((count, p2 as int)),
            start == p2 as int,
            ({
                let done = txs@.map_values(|t: Transaction| (t.data@, t.timestamp));
                match spec_dec_txs(bytes@, pos as int, (count - k) as int) {
                    Option::Some((rest, pend)) => spec_dec_txs(bytes@, start, count as int)
                        == Option::Some((done + rest, pend)),
                    Option::None => spec_dec_txs(bytes@, start, count as int) is None,
                }
            }),
        decreases count - k,
    {
        let ghost done = txs@.map_values(|t: Transaction| (t.data@, t.timestamp));
        match decode_tx_at(bytes, pos) {
            Option::None => {
                proof {
                    assert(spec_dec_txs(bytes@, pos as int, (count - k) as int) is None);
                    assert(spec_dec_header(bytes@, 0) == Option::Some(((h.previous_hash@,
                        h.merkle_root@, h.timestamp, h.nonce), p1 as int)));
                    assert(spec_dec_u64(bytes@, p1 as int) == Option::Some((count, p2 as int)));
                    assert(spec_dec_txs(bytes@, start, count as int) is None);
                    assert(spec_dec_block(bytes@, 0) is None);
                }
                return Option::None;
            },
            Option::Some((t, p)) => {
                proof {
                    let tv = (t.data@, t.timestamp);
                    match spec_dec_txs(bytes@, p as int, (count - k - 1) as int) {
                        Option::Some((rest2, pend2)) => {
                            assert(spec_dec_txs(bytes@, pos as int, (count - k) as int)
                                == Option::Some((seq![tv] + rest2, pend2)));
                            assert(done + (seq![tv] + rest2) =~= (done.push(tv)) + rest2);
                            assert(txs@.push(t).map_values(
                                |x: Transaction| (x.data@, x.timestamp)) =~= done.push(tv));
                        },
                        Option::None => {
                            assert(spec_dec_txs(bytes@, pos as int, (count - k) as int) is None);
                        },
                    }
                }
                txs.push(t);
                pos = p;
                k = k + 1;
            },
        }
    }
    proof {
        assert(spec_dec_txs(bytes@, pos as int, 0) == Option::Some((
            Seq::<(Seq<u8>, u64)>::empty(), pos as int)));
        let done = txs@.map_values(|t: Transaction| (t.data@, t.timestamp));
        assert(done + Seq::<(Seq<u8>, u64)>::empty() =~= done);
    }
    Option::Some(Block { header: h, transactions: txs })
}

} // verus!
