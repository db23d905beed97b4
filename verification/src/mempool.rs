use vstd::prelude::*;
use crate::types::{Transaction, BlockType, FruitHeader, SignedBlock, BlockHeader};
use crate::crypto::{blake3_of, TransactionHasher};
use crate::codec::{spec_enc_u64_le, spec_enc_bytes, spec_enc_tx, spec_enc_header,
    spec_enc_opt_fruit_header, spec_type_tag};
use crate::merkle::{MerkleTree, views, root_of, proof_path, hash_eq};

verus! {

/// What can go wrong at the mempool boundary.
#[derive(Debug)]
pub enum MempoolError {
    /// Admitting the item would cross the byte budget.
    PoolFull,
    /// The item could not be serialized.
    SerializationError(String),
    /// The submitted item is not of the kind this call accepts.
    InvalidHash(String),
    /// No pooled transaction has the given hash.
    TransactionNotFound,
    /// No pooled fruit has the given hash.
    FruitNotFound,
}

/// The value view of a pooled transaction: payload bytes and creation time.
pub type TxView = (Seq<u8>, u64);

/// The value view of a pooled fruit: kind, header, fruit header, signature.
pub type FruitView = (BlockType, BlockHeader, Option<FruitHeader>, Seq<u8>);

/// The encoding of a transaction, from its value view.
pub open spec fn tx_view_enc(v: TxView) -> Seq<u8> {
    spec_enc_bytes(v.0) + spec_enc_u64_le(v.1)
}

/// The encoding of a signed sub-block, from its value view.
pub open spec fn fruit_view_enc(v: FruitView) -> Seq<u8> {
    seq![spec_type_tag(v.0)] + spec_enc_header(v.1) + spec_enc_opt_fruit_header(v.2)
        + spec_enc_bytes(v.3)
}

/// Sum of a weight over a sequence.
pub open spec fn sum_by<T>(s: Seq<T>, f: spec_fn(T) -> int) -> int
    decreases s.len(),
{
    if s.len() == 0 {
        0
    } else {
        f(s[0]) + sum_by(s.drop_first(), f)
    }
}

/// The serialized-size weight of a transaction view.
pub open spec fn tx_weight() -> spec_fn((Seq<u8>, TxView)) -> int {
    |e: (Seq<u8>, TxView)| tx_view_enc(e.1).len() as int
}

/// The serialized-size weight of a fruit view.
pub open spec fn fruit_weight() -> spec_fn((Seq<u8>, FruitView)) -> int {
    |e: (Seq<u8>, FruitView)| fruit_view_enc(e.1).len() as int
}

/// Appending one element adds its weight to the sum.
pub proof fn lemma_sum_push<T>(s: Seq<T>, v: T, f: spec_fn(T) -> int)
    ensures
        sum_by(s.push(v), f) == sum_by(s, f) + f(v),
    decreases s.len(),
{
    assert(s.push(v)[0] == if s.len() == 0 { v } else { s[0] });
    assert(sum_by(s.push(v), f) == f(s.push(v)[0]) + sum_by(s.push(v).drop_first(), f));
    if s.len() == 0 {
        assert(s.push(v).drop_first() =~= Seq::<T>::empty());
        assert(sum_by(Seq::<T>::empty(), f) == 0);
    } else {
        assert(sum_by(s, f) == f(s[0]) + sum_by(s.drop_first(), f));
        assert(s.push(v).drop_first() =~= s.drop_first().push(v));
        lemma_sum_push(s.drop_first(), v, f);
    }
}

/// A sum of non-negative weights is non-negative.
pub proof fn lemma_sum_nonneg<T>(s: Seq<T>, f: spec_fn(T) -> int)
    requires
        forall|i: int| 0 <= i < s.len() ==> f(#[trigger] s[i]) >= 0,
    ensures
        sum_by(s, f) >= 0,
    decreases s.len(),
{
    if s.len() > 0 {
        lemma_sum_nonneg(s.drop_first(), f);
    }
}

/// A sum splits at any index into the prefix and suffix sums.
pub proof fn lemma_sum_split<T>(s: Seq<T>, i: int, f: spec_fn(T) -> int)
    requires
        0 <= i <= s.len(),
    ensures
        sum_by(s, f) == sum_by(s.take(i), f) + sum_by(s.skip(i), f),
    decreases i,
{
    if i == 0 {
        assert(s.take(0) =~= Seq::<T>::empty());
        assert(s.skip(0) =~= s);
    } else {
        lemma_sum_split(s, i - 1, f);
        assert(s.take(i) =~= s.take(i - 1).push(s[i - 1]));
        lemma_sum_push(s.take(i - 1), s[i - 1], f);
        assert(s.skip(i - 1)[0] == s[i - 1]);
        assert(s.skip(i - 1).drop_first() =~= s.skip(i));
        assert(sum_by(s.skip(i - 1), f) == f(s[i - 1]) + sum_by(s.skip(i), f));
    }
}

/// The negation of a predicate.
pub open spec fn negp<T>(p: spec_fn(T) -> bool) -> spec_fn(T) -> bool {
    |x: T| !p(x)
}

/// Filtering splits a sum into the kept and dropped parts.
pub proof fn lemma_sum_filter<T>(s: Seq<T>, p: spec_fn(T) -> bool, f: spec_fn(T) -> int)
    ensures
        sum_by(s, f) == sum_by(s.filter(p), f) + sum_by(s.filter(negp(p)), f),
    decreases s.len(),
{
    reveal(Seq::filter);
    if s.len() == 0 {
    } else {
        let d = s.drop_last();
        lemma_sum_filter(d, p, f);
        assert(s =~= d.push(s.last()));
        lemma_sum_push(d, s.last(), f);
        if p(s.last()) {
            lemma_sum_push(d.filter(p), s.last(), f);
        } else {
            assert(negp(p)(s.last()));
            lemma_sum_push(d.filter(negp(p)), s.last(), f);
        }
    }
}

/// Whether a pooled item is young enough to stay, by its recorded
/// timestamp and its pool's timeout.
pub open spec fn elapsed_secs(now: u64, then: u64) -> int {
    if now >= then {
        now - then
    } else {
        0
    }
}

/// The smaller of two timeouts.
pub open spec fn min_u64(a: u64, b: u64) -> u64 {
    if a < b {
        a
    } else {
        b
    }
}

/// Keep a pooled transaction: younger than the transaction timeout.
pub open spec fn tx_keep(now: u64, timeout: u64) -> spec_fn((Seq<u8>, TxView)) -> bool {
    |e: (Seq<u8>, TxView)| elapsed_secs(now, e.1.1) < timeout
}

/// Keep a pooled fruit: its header's timestamp younger than the fruit
/// timeout.
pub open spec fn fruit_keep(now: u64, timeout: u64) -> spec_fn((Seq<u8>, FruitView)) -> bool {
    |e: (Seq<u8>, FruitView)| elapsed_secs(now, e.1.1.timestamp) < timeout
}

/// The content hashes of a list of committed transactions.
pub open spec fn removed_tx_hashes(ts: Seq<Transaction>) -> Seq<Seq<u8>> {
    ts.map_values(|t: Transaction| blake3_of(spec_enc_tx(t)))
}

/// Keep a pooled transaction: its hash is not among the removed ones.
pub open spec fn tx_not_removed(hs: Seq<Seq<u8>>) -> spec_fn((Seq<u8>, TxView)) -> bool {
    |e: (Seq<u8>, TxView)| !hs.contains(e.0)
}

/// Keep a pooled fruit: its content hash differs from the given one.
pub open spec fn fruit_hash_not(h: Seq<u8>) -> spec_fn((Seq<u8>, FruitView)) -> bool {
    |e: (Seq<u8>, FruitView)| e.0 != h
}

/// Index of the first pooled fruit at or after `from` whose fruit
/// header equals `h`; the pool length if none does.
pub open spec fn first_fruit_match(s: Seq<(Seq<u8>, FruitView)>, h: FruitHeader, from: int) -> int
    decreases s.len() - from,
{
    if from < 0 || from >= s.len() {
        s.len() as int
    } else if s[from].1.2 == Option::Some(h) {
        from
    } else {
        first_fruit_match(s, h, from + 1)
    }
}

/// `first_fruit_match` lands on `k` when nothing before `k` matches and
/// the entry at `k` does.
pub proof fn lemma_first_fruit_match_found(s: Seq<(Seq<u8>, FruitView)>, h: FruitHeader,
    from: int, k: int)
    requires
        0 <= from <= k < s.len(),
        forall|j: int| from <= j < k ==> (#[trigger] s[j]).1.2 != Option::Some(h),
        s[k].1.2 == Option::Some(h),
    ensures
        first_fruit_match(s, h, from) == k,
    decreases k - from,
{
    if from < k {
        lemma_first_fruit_match_found(s, h, from + 1, k);
    }
}

/// `first_fruit_match` is the length when nothing matches.
pub proof fn lemma_first_fruit_match_none(s: Seq<(Seq<u8>, FruitView)>, h: FruitHeader, from: int)
    requires
        0 <= from,
        forall|j: int| from <= j < s.len() ==> (#[trigger] s[j]).1.2 != Option::Some(h),
    ensures
        first_fruit_match(s, h, from) == s.len(),
    decreases s.len() - from,
{
    if from < s.len() {
        lemma_first_fruit_match_none(s, h, from + 1);
    }
}

/// What removing one fruit header leaves: the pool unchanged when no
/// fruit matches, else every entry sharing the first match's hash gone.
pub open spec fn remove_one_fruit_spec(entries: Seq<(Seq<u8>, FruitView)>, h: FruitHeader)
    -> Seq<(Seq<u8>, FruitView)> {
    let i = first_fruit_match(entries, h, 0);
    if i == entries.len() {
        entries
    } else {
        entries.filter(fruit_hash_not(entries[i].0))
    }
}

/// What removing a list of fruit headers leaves, in order.
pub open spec fn remove_fruits_spec(entries: Seq<(Seq<u8>, FruitView)>, hs: Seq<FruitHeader>)
    -> Seq<(Seq<u8>, FruitView)>
    decreases hs.len(),
{
    if hs.len() == 0 {
        entries
    } else {
        remove_one_fruit_spec(remove_fruits_spec(entries, hs.drop_last()), hs.last())
    }
}

/// The serialized-size weights are never negative.
pub proof fn lemma_weights_nonneg(te: Seq<(Seq<u8>, TxView)>, fe: Seq<(Seq<u8>, FruitView)>)
    ensures
        forall|i: int| 0 <= i < te.len() ==> tx_weight()(#[trigger] te[i]) >= 0,
        forall|i: int| 0 <= i < fe.len() ==> fruit_weight()(#[trigger] fe[i]) >= 0,
{
}

/// Filtering keeps the transaction-entry hash relation.
pub proof fn lemma_filter_keeps_items(s: Seq<(Seq<u8>, TxView)>,
    p: spec_fn((Seq<u8>, TxView)) -> bool)
    requires
        forall|i: int| 0 <= i < s.len() ==> (#[trigger] s[i]).0 == blake3_of(tx_view_enc(s[i].1)),
    ensures
        forall|i: int| 0 <= i < s.filter(p).len() ==> (#[trigger] s.filter(p)[i]).0
            == blake3_of(tx_view_enc(s.filter(p)[i].1)),
    decreases s.len(),
{
    reveal(Seq::filter);
    if s.len() > 0 {
        let d = s.drop_last();
        lemma_filter_keeps_items(d, p);
        if p(s.last()) {
            assert forall|i: int| 0 <= i < s.filter(p).len() implies (#[trigger] s.filter(p)[i]).0
                == blake3_of(tx_view_enc(s.filter(p)[i].1)) by {
                if i < s.filter(p).len() - 1 {
                    assert(s.filter(p)[i] == d.filter(p)[i]);
                } else {
                    assert(s.filter(p)[i] == s.last());
                }
            }
        }
    }
}

/// Filtering keeps the fruit-entry hash relation and the fruit kind.
pub proof fn lemma_filter_keeps_fruit_items(s: Seq<(Seq<u8>, FruitView)>,
    p: spec_fn((Seq<u8>, FruitView)) -> bool)
    requires
        forall|i: int| 0 <= i < s.len() ==> (#[trigger] s[i]).0
            == blake3_of(fruit_view_enc(s[i].1)),
        forall|i: int| 0 <= i < s.len() ==> (#[trigger] s[i]).1.0 == BlockType::Fruit,
    ensures
        forall|i: int| 0 <= i < s.filter(p).len() ==> (#[trigger] s.filter(p)[i]).0
            == blake3_of(fruit_view_enc(s.filter(p)[i].1)),
        forall|i: int| 0 <= i < s.filter(p).len() ==> (#[trigger] s.filter(p)[i]).1.0
            == BlockType::Fruit,
    decreases s.len(),
{
    reveal(Seq::filter);
    if s.len() > 0 {
        let d = s.drop_last();
        lemma_filter_keeps_fruit_items(d, p);
        if p(s.last()) {
            assert forall|i: int| 0 <= i < s.filter(p).len() implies
                ((#[trigger] s.filter(p)[i]).0 == blake3_of(fruit_view_enc(s.filter(p)[i].1))
                && s.filter(p)[i].1.0 == BlockType::Fruit) by {
                if i < s.filter(p).len() - 1 {
                    assert(s.filter(p)[i] == d.filter(p)[i]);
                } else {
                    assert(s.filter(p)[i] == s.last());
                }
            }
        }
    }
}

/// Whether two fruit headers hold the same fields.
pub fn fruit_header_eq(a: &FruitHeader, b: &FruitHeader) -> (r: bool)
    ensures
        r == (*a == *b),
{
    let fields_eq = hash_eq(&a.parent_hash, &b.parent_hash) && a.nonce == b.nonce;
    proof {
        if a.parent_hash@ == b.parent_hash@ {
            assert(a.parent_hash =~= b.parent_hash);
        }
    }
    fields_eq
}

/// Whether a hash occurs in a list of hashes.
pub fn hash_in_list(hs: &Vec<[u8; 32]>, h: &[u8; 32]) -> (r: bool)
    ensures
        r == hs@.map_values(|x: [u8; 32]| x@).contains(h@),
{
    let ghost mapped = hs@.map_values(|x: [u8; 32]| x@);
    let mut i: usize = 0;
    while i < hs.len()
        invariant
            i <= hs@.len(),
            mapped == hs@.map_values(|x: [u8; 32]| x@),
            forall|j: int| 0 <= j < i ==> mapped[j] != h@,
        decreases hs@.len() - i,
    {
        if hash_eq(&hs[i], h) {
            proof {
                assert(mapped[i as int] == h@);
            }
            return true;
        }
        i = i + 1;
    }
    proof {
        assert(forall|j: int| 0 <= j < mapped.len() ==> mapped[j] != h@);
    }
    false
}

/// A pooled transaction: its content hash and the transaction itself.
struct TxEntry {
    hash: [u8; 32],
    tx: Transaction,
}

/// A pooled fruit: its content hash and the signed sub-block itself.
struct FruitEntry {
    hash: [u8; 32],
    fruit: SignedBlock,
}

/// The all-zero sentinel root of an empty pool.
pub open spec fn zero_root() -> Seq<u8> {
    Seq::new(32, |i: int| 0u8)
}

/// Two bounded pools of pending work, transactions and fruit
/// sub-blocks, each in insertion order and under an incremental Merkle
/// tree, sharing one global byte budget.
pub struct Mempool {
    transaction_merkle_tree: MerkleTree,
    fruit_merkle_tree: MerkleTree,
    transactions: Vec<TxEntry>,
    fruits: Vec<FruitEntry>,
    size_limit_bytes: usize,
    current_size_bytes: usize,
    transaction_timeout_secs: u64,
    fruit_timeout_secs: u64,
    last_cleanup: u64,
}

impl Mempool {
    /// The pooled transactions: content-hash view and value view of
    /// each, in insertion order.
    pub closed spec fn tx_entries(self) -> Seq<(Seq<u8>, TxView)> {
        self.transactions@.map_values(|e: TxEntry| (e.hash@, (e.tx.data@, e.tx.timestamp)))
    }

    /// The pooled fruits: content-hash view and value view of each, in
    /// insertion order.
    pub closed spec fn fruit_entries(self) -> Seq<(Seq<u8>, FruitView)> {
        self.fruits@.map_values(|e: FruitEntry| (e.hash@,
            (e.fruit.block_type, e.fruit.header, e.fruit.fruit_header, e.fruit.signature@)))
    }

    /// The pooled transaction hashes, in insertion order.
    pub open spec fn tx_hashes(self) -> Seq<Seq<u8>> {
        self.tx_entries().map_values(|e: (Seq<u8>, TxView)| e.0)
    }

    /// The pooled fruit hashes, in insertion order.
    pub open spec fn fruit_hashes(self) -> Seq<Seq<u8>> {
        self.fruit_entries().map_values(|e: (Seq<u8>, FruitView)| e.0)
    }

    /// Bytes currently accounted against the budget.
    pub closed spec fn pool_size(self) -> int {
        self.current_size_bytes as int
    }

    /// The global byte budget both pools share.
    pub closed spec fn pool_limit(self) -> int {
        self.size_limit_bytes as int
    }

    /// Seconds a transaction may stay pooled.
    pub closed spec fn tx_timeout(self) -> u64 {
        self.transaction_timeout_secs
    }

    /// Seconds a fruit may stay pooled.
    pub closed spec fn fruit_timeout(self) -> u64 {
        self.fruit_timeout_secs
    }

    /// When expiry last ran, seconds.
    pub closed spec fn last_cleanup_at(self) -> u64 {
        self.last_cleanup
    }

    /// Each entry's hash is the digest of its item's encoding, and
    /// every pooled fruit is fruit-typed.
    pub open spec fn items_ok(self) -> bool {
        &&& forall|i: int| 0 <= i < self.tx_entries().len()
            ==> (#[trigger] self.tx_entries()[i]).0 == blake3_of(tx_view_enc(self.tx_entries()[i].1))
        &&& forall|i: int| 0 <= i < self.fruit_entries().len()
            ==> (#[trigger] self.fruit_entries()[i]).0
                == blake3_of(fruit_view_enc(self.fruit_entries()[i].1))
        &&& forall|i: int| 0 <= i < self.fruit_entries().len()
            ==> (#[trigger] self.fruit_entries()[i]).1.0 == BlockType::Fruit
    }

    /// The internal invariant: entry hashes and kinds are right, both
    /// trees are committed over exactly the pooled hashes, and the size
    /// counter is the sum of the pooled encodings, within the budget.
    pub closed spec fn wf(self) -> bool {
        &&& self.items_ok()
        &&& self.transaction_merkle_tree.committed()
        &&& views(self.transaction_merkle_tree.leaves_view()) == self.tx_hashes()
        &&& self.fruit_merkle_tree.committed()
        &&& views(self.fruit_merkle_tree.leaves_view()) == self.fruit_hashes()
        &&& self.current_size_bytes as int == sum_by(self.tx_entries(), tx_weight())
            + sum_by(self.fruit_entries(), fruit_weight())
        &&& self.current_size_bytes <= self.size_limit_bytes
    }

    /// An empty mempool with the given budget in whole megabytes and
    /// per-pool expiry timeouts in seconds.
    pub fn new(size_limit_mb: usize, transaction_timeout_secs: u64, fruit_timeout_secs: u64)
        -> (r: Self)
        requires
            size_limit_mb <= usize::MAX as int / 0x10_0000,
        ensures
            r.wf(),
            r.tx_entries().len() == 0,
            r.fruit_entries().len() == 0,
            r.pool_size() == 0,
            r.pool_limit() == size_limit_mb * 0x10_0000,
            r.tx_timeout() == transaction_timeout_secs,
            r.fruit_timeout() == fruit_timeout_secs,
            r.last_cleanup_at() == 0,
    {
        let r = Mempool {
            transaction_merkle_tree: MerkleTree::new(),
            fruit_merkle_tree: MerkleTree::new(),
            transactions: Vec::new(),
            fruits: Vec::new(),
            size_limit_bytes: size_limit_mb * 1024 * 1024,
            current_size_bytes: 0,
            transaction_timeout_secs,
            fruit_timeout_secs,
            last_cleanup: 0,
        };
        proof {
            assert(r.tx_entries() =~= Seq::<(Seq<u8>, TxView)>::empty());
            assert(r.fruit_entries() =~= Seq::<(Seq<u8>, FruitView)>::empty());
            assert(views(r.transaction_merkle_tree.leaves_view()) =~= r.tx_hashes());
            assert(views(r.fruit_merkle_tree.leaves_view()) =~= r.fruit_hashes());
        }
        r
    }

    /// Admits a transaction unless its serialized size would cross the
    /// byte budget; on success it is appended, its hash becomes a new
    /// committed Merkle leaf, and the budget use grows by exactly its
    /// serialized size. On failure the pool is unchanged.
    pub fn add_transaction(&mut self, transaction: Transaction) -> (r: Result<(), MempoolError>)
        requires
            old(self).wf(),
        ensures
            final(self).wf(),
            ({
                let v = (transaction.data@, transaction.timestamp);
                match r {
                    Result::Ok(()) => {
                        &&& old(self).pool_size() + tx_view_enc(v).len() <= old(self).pool_limit()
                        &&& final(self).tx_entries() == old(self).tx_entries().push(
                            (blake3_of(tx_view_enc(v)), v))
                        &&& final(self).fruit_entries() == old(self).fruit_entries()
                        &&& final(self).pool_size() == old(self).pool_size()
                            + tx_view_enc(v).len()
                        &&& final(self).pool_limit() == old(self).pool_limit()
                        &&& final(self).tx_timeout() == old(self).tx_timeout()
                        &&& final(self).fruit_timeout() == old(self).fruit_timeout()
                        &&& final(self).last_cleanup_at() == old(self).last_cleanup_at()
                    },
                    Result::Err(e) => {
                        &&& *final(self) == *old(self)
                        &&& e is PoolFull
                        &&& old(self).pool_size() + tx_view_enc(v).len() > old(self).pool_limit()
                    },
                }
            }),
    {
        let bytes = transaction.encode();
        let transaction_size = bytes.len();

        if transaction_size > self.size_limit_bytes - self.current_size_bytes {
            return Result::Err(MempoolError::PoolFull);
        }

        let transaction_hash = transaction.hash();
        let ghost pre = *self;

        self.transaction_merkle_tree.insert(transaction_hash);
        self.transactions.push(TxEntry { hash: transaction_hash, tx: transaction });
        self.current_size_bytes = self.current_size_bytes + transaction_size;
        self.transaction_merkle_tree.commit();

        proof {
            let v = (transaction.data@, transaction.timestamp);
            assert(self.tx_entries() =~= pre.tx_entries().push((blake3_of(tx_view_enc(v)), v)));
            assert(self.fruit_entries() =~= pre.fruit_entries());
            lemma_sum_push(pre.tx_entries(), (blake3_of(tx_view_enc(v)), v), tx_weight());
            let lv = self.transaction_merkle_tree.leaves_view();
            let old_lv = pre.transaction_merkle_tree.leaves_view();
            assert(lv == old_lv.push(transaction_hash));
            assert(views(lv) =~= views(old_lv).push(transaction_hash@));
            assert(self.tx_hashes() =~= pre.tx_hashes().push(blake3_of(tx_view_enc(v))));
        }
        Result::Ok(())
    }

    /// Admits a fruit-typed sub-block under the same budget rule as a
    /// transaction; a sub-block of any other kind is rejected outright.
    pub fn add_fruit(&mut self, fruit: SignedBlock) -> (r: Result<(), MempoolError>)
        requires
            old(self).wf(),
        ensures
            final(self).wf(),
            ({
                let v = (fruit.block_type, fruit.header, fruit.fruit_header, fruit.signature@);
                match r {
                    Result::Ok(()) => {
                        &&& fruit.block_type == BlockType::Fruit
                        &&& old(self).pool_size() + fruit_view_enc(v).len()
                            <= old(self).pool_limit()
                        &&& final(self).fruit_entries() == old(self).fruit_entries().push(
                            (blake3_of(fruit_view_enc(v)), v))
                        &&& final(self).tx_entries() == old(self).tx_entries()
                        &&& final(self).pool_size() == old(self).pool_size()
                            + fruit_view_enc(v).len()
                        &&& final(self).pool_limit() == old(self).pool_limit()
                        &&& final(self).tx_timeout() == old(self).tx_timeout()
                        &&& final(self).fruit_timeout() == old(self).fruit_timeout()
                        &&& final(self).last_cleanup_at() == old(self).last_cleanup_at()
                    },
                    Result::Err(e) => {
                        &&& *final(self) == *old(self)
                        &&& (if fruit.block_type != BlockType::Fruit {
                            e is InvalidHash
                        } else {
                            e is PoolFull && old(self).pool_size() + fruit_view_enc(v).len()
                                > old(self).pool_limit()
                        })
                    },
                }
            }),
    {
        if !matches!(fruit.block_type, BlockType::Fruit) {
            return Result::Err(MempoolError::InvalidHash("Not a fruit block".to_owned()));
        }

        let bytes = fruit.encode();
        let fruit_size = bytes.len();

        if fruit_size > self.size_limit_bytes - self.current_size_bytes {
            return Result::Err(MempoolError::PoolFull);
        }

        let fruit_hash = fruit.hash();
        let ghost pre = *self;

        self.fruit_merkle_tree.insert(fruit_hash);
        self.fruits.push(FruitEntry { hash: fruit_hash, fruit });
        self.current_size_bytes = self.current_size_bytes + fruit_size;
        self.fruit_merkle_tree.commit();

        proof {
            let v = (fruit.block_type, fruit.header, fruit.fruit_header, fruit.signature@);
            assert(self.fruit_entries() =~= pre.fruit_entries().push(
                (blake3_of(fruit_view_enc(v)), v)));
            assert(self.tx_entries() =~= pre.tx_entries());
            lemma_sum_push(pre.fruit_entries(), (blake3_of(fruit_view_enc(v)), v), fruit_weight());
            let lv = self.fruit_merkle_tree.leaves_view();
            let old_lv = pre.fruit_merkle_tree.leaves_view();
            assert(lv == old_lv.push(fruit_hash));
            assert(views(lv) =~= views(old_lv).push(fruit_hash@));
            assert(self.fruit_hashes() =~= pre.fruit_hashes().push(blake3_of(fruit_view_enc(v))));
        }
        Result::Ok(())
    }

    /// A snapshot of the pooled transactions, in insertion order.
    pub fn get_transactions(&self) -> (r: Vec<Transaction>)
        ensures
            r@.len() == self.tx_entries().len(),
            forall|i: int| 0 <= i < r@.len() ==> ((#[trigger] r@[i]).data@, r@[i].timestamp)
                == self.tx_entries()[i].1,
    {
        let mut out: Vec<Transaction> = Vec::new();
        let mut i: usize = 0;
        while i < self.transactions.len()
            invariant
                i <= self.transactions@.len(),
                out@.len() == i,
                forall|j: int| 0 <= j < i ==> ((#[trigger] out@[j]).data@, out@[j].timestamp)
                    == self.tx_entries()[j].1,
            decreases self.transactions@.len() - i,
        {
            out.push(self.transactions[i].tx.clone());
            i = i + 1;
        }
        out
    }

    /// A snapshot of the pooled fruits, in insertion order.
    pub fn get_fruits(&self) -> (r: Vec<SignedBlock>)
        ensures
            r@.len() == self.fruit_entries().len(),
            forall|i: int| 0 <= i < r@.len() ==> ((#[trigger] r@[i]).block_type, r@[i].header,
                r@[i].fruit_header, r@[i].signature@) == self.fruit_entries()[i].1,
    {
        let mut out: Vec<SignedBlock> = Vec::new();
        let mut i: usize = 0;
        while i < self.fruits.len()
            invariant
                i <= self.fruits@.len(),
                out@.len() == i,
                forall|j: int| 0 <= j < i ==> ((#[trigger] out@[j]).block_type, out@[j].header,
                    out@[j].fruit_header, out@[j].signature@) == self.fruit_entries()[j].1,
            decreases self.fruits@.len() - i,
        {
            out.push(self.fruits[i].fruit.clone());
            i = i + 1;
        }
        out
    }

    /// Bytes currently accounted against the budget.
    pub fn current_size_bytes(&self) -> (r: usize)
        ensures
            r as int == self.pool_size(),
    {
        self.current_size_bytes
    }

    /// The committed root over the pooled transaction hashes, or the
    /// all-zero sentinel when the pool is empty.
    pub fn get_transaction_merkle_root(&self) -> (r: [u8; 32])
        requires
            self.wf(),
        ensures
            r@ == (if self.tx_hashes().len() == 0 {
                zero_root()
            } else {
                root_of(self.tx_hashes())
            }),
    {
        match self.transaction_merkle_tree.root() {
            Option::Some(h) => h,
            Option::None => zero_hash32(),
        }
    }

    /// The committed root over the pooled fruit hashes, or the
    /// all-zero sentinel when the pool is empty.
    pub fn get_fruit_merkle_root(&self) -> (r: [u8; 32])
        requires
            self.wf(),
        ensures
            r@ == (if self.fruit_hashes().len() == 0 {
                zero_root()
            } else {
                root_of(self.fruit_hashes())
            }),
    {
        match self.fruit_merkle_tree.root() {
            Option::Some(h) => h,
            Option::None => zero_hash32(),
        }
    }

    /// The sibling path proving a pooled transaction's membership under
    /// the current root, or absent if the hash is not pooled.
    pub fn get_transaction_proof(&self, transaction_hash: &[u8; 32]) -> (r: Option<Vec<[u8; 32]>>)
        requires
            self.wf(),
        ensures
            match r {
                Option::Some(path) => exists|i: int| 0 <= i < self.tx_hashes().len()
                    && self.tx_hashes()[i] == transaction_hash@
                    && views(path@) == proof_path(self.tx_hashes(), i),
                Option::None => forall|i: int| 0 <= i < self.tx_hashes().len()
                    ==> self.tx_hashes()[i] != transaction_hash@,
            },
    {
        match self.transaction_merkle_tree.find_leaf(transaction_hash) {
            Option::None => Option::None,
            Option::Some(i) => {
                let path = self.transaction_merkle_tree.proof_for(i);
                proof {
                    assert(self.tx_hashes()[i as int]
                        == views(self.transaction_merkle_tree.leaves_view())[i as int]);
                }
                Option::Some(path)
            },
        }
    }

    /// The sibling path proving a pooled fruit's membership under the
    /// current root, or absent if the hash is not pooled.
    pub fn get_fruit_proof(&self, fruit_hash: &[u8; 32]) -> (r: Option<Vec<[u8; 32]>>)
        requires
            self.wf(),
        ensures
            match r {
                Option::Some(path) => exists|i: int| 0 <= i < self.fruit_hashes().len()
                    && self.fruit_hashes()[i] == fruit_hash@
                    && views(path@) == proof_path(self.fruit_hashes(), i),
                Option::None => forall|i: int| 0 <= i < self.fruit_hashes().len()
                    ==> self.fruit_hashes()[i] != fruit_hash@,
            },
    {
        match self.fruit_merkle_tree.find_leaf(fruit_hash) {
            Option::None => Option::None,
            Option::Some(i) => {
                let path = self.fruit_merkle_tree.proof_for(i);
                proof {
                    assert(self.fruit_hashes()[i as int]
                        == views(self.fruit_merkle_tree.leaves_view())[i as int]);
                }
                Option::Some(path)
            },
        }
    }

    /// Rebuilds both Merkle trees from the pooled hashes and recounts
    /// the budget use from the pooled encodings.
    fn rebuild(&mut self)
        requires
            old(self).items_ok(),
            sum_by(old(self).tx_entries(), tx_weight())
                + sum_by(old(self).fruit_entries(), fruit_weight())
                <= old(self).size_limit_bytes,
        ensures
            final(self).transactions@ == old(self).transactions@,
            final(self).fruits@ == old(self).fruits@,
            final(self).size_limit_bytes == old(self).size_limit_bytes,
            final(self).transaction_timeout_secs == old(self).transaction_timeout_secs,
            final(self).fruit_timeout_secs == old(self).fruit_timeout_secs,
            final(self).last_cleanup == old(self).last_cleanup,
            final(self).wf(),
    {
        proof {
            lemma_weights_nonneg(self.tx_entries(), self.fruit_entries());
        }
        let mut ttree = MerkleTree::new();
        let mut i: usize = 0;
        while i < self.transactions.len()
            invariant
                i <= self.transactions@.len(),
                ttree.leaves_view() =~= self.transactions@.take(i as int).map_values(
                    |e: TxEntry| e.hash),
            decreases self.transactions@.len() - i,
        {
            ttree.insert(self.transactions[i].hash);
            proof {
                assert(self.transactions@.take(i + 1).map_values(|e: TxEntry| e.hash)
                    =~= self.transactions@.take(i as int).map_values(|e: TxEntry| e.hash)
                        .push(self.transactions@[i as int].hash));
            }
            i = i + 1;
        }
        ttree.commit();
        proof {
            assert(self.transactions@.take(self.transactions@.len() as int)
                =~= self.transactions@);
            assert(views(ttree.leaves_view()) =~= self.tx_hashes());
        }
        self.transaction_merkle_tree = ttree;

        let mut ftree = MerkleTree::new();
        let mut j: usize = 0;
        while j < self.fruits.len()
            invariant
                j <= self.fruits@.len(),
                ftree.leaves_view() =~= self.fruits@.take(j as int).map_values(
                    |e: FruitEntry| e.hash),
            decreases self.fruits@.len() - j,
        {
            ftree.insert(self.fruits[j].hash);
            proof {
                assert(self.fruits@.take(j + 1).map_values(|e: FruitEntry| e.hash)
                    =~= self.fruits@.take(j as int).map_values(|e: FruitEntry| e.hash)
                        .push(self.fruits@[j as int].hash));
            }
            j = j + 1;
        }
        ftree.commit();
        proof {
            assert(self.fruits@.take(self.fruits@.len() as int) =~= self.fruits@);
            assert(views(ftree.leaves_view()) =~= self.fruit_hashes());
        }
        self.fruit_merkle_tree = ftree;

        let ghost te = self.tx_entries();
        let ghost fe = self.fruit_entries();
        let mut total: usize = 0;
        let mut k: usize = 0;
        while k < self.transactions.len()
            invariant
                k <= self.transactions@.len(),
                te == self.tx_entries(),
                fe == self.fruit_entries(),
                self.tx_entries() == old(self).tx_entries(),
                self.fruit_entries() == old(self).fruit_entries(),
                self.transactions@ == old(self).transactions@,
                self.fruits@ == old(self).fruits@,
                self.size_limit_bytes == old(self).size_limit_bytes,
                old(self).items_ok(),
                sum_by(te, tx_weight()) + sum_by(fe, fruit_weight()) <= self.size_limit_bytes,
                total as int == sum_by(te.take(k as int), tx_weight()),
            decreases self.transactions@.len() - k,
        {
            let bytes = self.transactions[k].tx.encode();
            let sz = bytes.len();
            proof {
                lemma_weights_nonneg(te, fe);
                lemma_sum_split(te, k + 1, tx_weight());
                lemma_sum_push(te.take(k as int), te[k as int], tx_weight());
                assert(te.take(k + 1) =~= te.take(k as int).push(te[k as int]));
                lemma_sum_nonneg(te.skip(k + 1), tx_weight());
                lemma_sum_nonneg(fe, fruit_weight());
                assert(sz as int == tx_weight()(te[k as int]));
            }
            total = total + sz;
            k = k + 1;
        }
        proof {
            assert(te.take(te.len() as int) =~= te);
        }
        let mut m: usize = 0;
        while m < self.fruits.len()
            invariant
                m <= self.fruits@.len(),
                te == self.tx_entries(),
                fe == self.fruit_entries(),
                self.tx_entries() == old(self).tx_entries(),
                self.fruit_entries() == old(self).fruit_entries(),
                self.transactions@ == old(self).transactions@,
                self.fruits@ == old(self).fruits@,
                self.size_limit_bytes == old(self).size_limit_bytes,
                old(self).items_ok(),
                sum_by(te, tx_weight()) + sum_by(fe, fruit_weight()) <= self.size_limit_bytes,
                total as int == sum_by(te, tx_weight()) + sum_by(fe.take(m as int), fruit_weight()),
            decreases self.fruits@.len() - m,
        {
            let bytes = self.fruits[m].fruit.encode();
            let sz = bytes.len();
            proof {
                lemma_weights_nonneg(te, fe);
                lemma_sum_split(fe, m + 1, fruit_weight());
                lemma_sum_push(fe.take(m as int), fe[m as int], fruit_weight());
                assert(fe.take(m + 1) =~= fe.take(m as int).push(fe[m as int]));
                lemma_sum_nonneg(fe.skip(m + 1), fruit_weight());
                assert(sz as int == fruit_weight()(fe[m as int]));
            }
            total = total + sz;
            m = m + 1;
        }
        proof {
            assert(fe.take(fe.len() as int) =~= fe);
        }
        self.current_size_bytes = total;
    }

    /// Expires pooled items by age. Rate-limited: it does nothing until
    /// the smaller of the two timeouts has passed since the last run.
    /// When it runs, every transaction and fruit older than its pool's
    /// timeout leaves the pool entirely, both trees are rebuilt, the
    /// budget use drops by the expired items' serialized sizes, and the
    /// run is stamped.
    pub fn cleanup_expired(&mut self, now: u64)
        requires
            old(self).wf(),
        ensures
            final(self).wf(),
            elapsed_secs(now, old(self).last_cleanup_at()) < min_u64(old(self).tx_timeout(),
                old(self).fruit_timeout()) ==> *final(self) == *old(self),
            elapsed_secs(now, old(self).last_cleanup_at()) >= min_u64(old(self).tx_timeout(),
                old(self).fruit_timeout()) ==> {
                &&& final(self).tx_entries() == old(self).tx_entries().filter(
                    tx_keep(now, old(self).tx_timeout()))
                &&& final(self).fruit_entries() == old(self).fruit_entries().filter(
                    fruit_keep(now, old(self).fruit_timeout()))
                &&& final(self).last_cleanup_at() == now
                &&& final(self).pool_size() == sum_by(final(self).tx_entries(), tx_weight())
                    + sum_by(final(self).fruit_entries(), fruit_weight())
            },
            final(self).pool_limit() == old(self).pool_limit(),
            final(self).tx_timeout() == old(self).tx_timeout(),
            final(self).fruit_timeout() == old(self).fruit_timeout(),
    {
        let min_to: u64 = if self.transaction_timeout_secs < self.fruit_timeout_secs {
            self.transaction_timeout_secs
        } else {
            self.fruit_timeout_secs
        };
        let elapsed: u64 = if now >= self.last_cleanup {
            now - self.last_cleanup
        } else {
            0
        };
        if elapsed < min_to {
            return;
        }

        let ghost te = self.tx_entries();
        let ghost fe = self.fruit_entries();
        let ghost tp = tx_keep(now, self.transaction_timeout_secs);
        let ghost fp = fruit_keep(now, self.fruit_timeout_secs);

        let mut kept_txs: Vec<TxEntry> = Vec::new();
        let mut i: usize = 0;
        while i < self.transactions.len()
            invariant
                i <= self.transactions@.len(),
                te == self.tx_entries(),
                tp == tx_keep(now, self.transaction_timeout_secs),
                old(self).wf(),
                *self == *old(self),
                kept_txs@.map_values(|e: TxEntry| (e.hash@, (e.tx.data@, e.tx.timestamp)))
                    =~= te.take(i as int).filter(tp),
            decreases self.transactions@.len() - i,
        {
            proof {
                reveal(Seq::filter);
                assert(te.take(i + 1).drop_last() =~= te.take(i as int));
                assert(te.take(i + 1).last() == te[i as int]);
            }
            let e = &self.transactions[i];
            let age: u64 = if now >= e.tx.timestamp {
                now - e.tx.timestamp
            } else {
                0
            };
            if age < self.transaction_timeout_secs {
                kept_txs.push(TxEntry { hash: e.hash, tx: e.tx.clone() });
                proof {
                    assert(kept_txs@.map_values(|x: TxEntry| (x.hash@, (x.tx.data@, x.tx.timestamp)))
                        =~= kept_txs@.drop_last().map_values(
                            |x: TxEntry| (x.hash@, (x.tx.data@, x.tx.timestamp))).push(te[i as int]));
                }
            }
            i = i + 1;
        }

        let mut kept_fruits: Vec<FruitEntry> = Vec::new();
        let mut j: usize = 0;
        while j < self.fruits.len()
            invariant
                j <= self.fruits@.len(),
                fe == self.fruit_entries(),
                fp == fruit_keep(now, self.fruit_timeout_secs),
                old(self).wf(),
                *self == *old(self),
                kept_fruits@.map_values(|e: FruitEntry| (e.hash@, (e.fruit.block_type,
                    e.fruit.header, e.fruit.fruit_header, e.fruit.signature@)))
                    =~= fe.take(j as int).filter(fp),
            decreases self.fruits@.len() - j,
        {
            proof {
                reveal(Seq::filter);
                assert(fe.take(j + 1).drop_last() =~= fe.take(j as int));
                assert(fe.take(j + 1).last() == fe[j as int]);
            }
            let e = &self.fruits[j];
            let age: u64 = if now >= e.fruit.header.timestamp {
                now - e.fruit.header.timestamp
            } else {
                0
            };
            if age < self.fruit_timeout_secs {
                kept_fruits.push(FruitEntry { hash: e.hash, fruit: e.fruit.clone() });
                proof {
                    assert(kept_fruits@.map_values(|x: FruitEntry| (x.hash@, (x.fruit.block_type,
                        x.fruit.header, x.fruit.fruit_header, x.fruit.signature@)))
                        =~= kept_fruits@.drop_last().map_values(
                            |x: FruitEntry| (x.hash@, (x.fruit.block_type, x.fruit.header,
                            x.fruit.fruit_header, x.fruit.signature@))).push(fe[j as int]));
                }
            }
            j = j + 1;
        }

        proof {
            assert(te.take(te.len() as int) =~= te);
            assert(fe.take(fe.len() as int) =~= fe);
        }
        self.transactions = kept_txs;
        self.fruits = kept_fruits;
        proof {
            lemma_filter_keeps_items(te, tp);
            lemma_filter_keeps_fruit_items(fe, fp);
            lemma_weights_nonneg(te, fe);
            lemma_sum_filter(te, tp, tx_weight());
            lemma_sum_filter(fe, fp, fruit_weight());
            lemma_weights_nonneg(te.filter(negp(tp)), fe.filter(negp(fp)));
            lemma_sum_nonneg(te.filter(negp(tp)), tx_weight());
            lemma_sum_nonneg(fe.filter(negp(fp)), fruit_weight());
        }
        self.rebuild();
        self.last_cleanup = now;
    }

    /// Purges every pooled transaction whose content hash matches one
    /// of the given, now-committed transactions. The budget use drops
    /// by exactly the summed serialized sizes of what left the pool,
    /// and both trees are rebuilt.
    pub fn remove_transactions(&mut self, transactions: &Vec<Transaction>) -> (removed_size: usize)
        requires
            old(self).wf(),
        ensures
            final(self).wf(),
            final(self).tx_entries() == old(self).tx_entries().filter(
                tx_not_removed(removed_tx_hashes(transactions@))),
            forall|k: int| 0 <= k < final(self).tx_hashes().len()
                ==> !removed_tx_hashes(transactions@).contains(
                    #[trigger] final(self).tx_hashes()[k]),
            final(self).fruit_entries() == old(self).fruit_entries(),
            old(self).pool_size() - final(self).pool_size() == sum_by(old(self).tx_entries(),
                tx_weight()) - sum_by(final(self).tx_entries(), tx_weight()),
            removed_size as int == old(self).pool_size() - final(self).pool_size(),
            final(self).pool_limit() == old(self).pool_limit(),
            final(self).tx_timeout() == old(self).tx_timeout(),
            final(self).fruit_timeout() == old(self).fruit_timeout(),
            final(self).last_cleanup_at() == old(self).last_cleanup_at(),
    {
        let ghost te = self.tx_entries();
        let ghost fe = self.fruit_entries();
        let ghost rh = removed_tx_hashes(transactions@);
        let ghost tp = tx_not_removed(rh);

        let mut removal: Vec<[u8; 32]> = Vec::new();
        let mut i: usize = 0;
        while i < transactions.len()
            invariant
                i <= transactions@.len(),
                rh == removed_tx_hashes(transactions@),
                removal@.map_values(|h: [u8; 32]| h@) =~= rh.take(i as int),
            decreases transactions@.len() - i,
        {
            let h = transactions[i].hash();
            removal.push(h);
            proof {
                assert(removal@.map_values(|x: [u8; 32]| x@)
                    =~= removal@.drop_last().map_values(|x: [u8; 32]| x@).push(rh[i as int]));
                assert(rh.take(i + 1) =~= rh.take(i as int).push(rh[i as int]));
            }
            i = i + 1;
        }
        proof {
            assert(rh.take(rh.len() as int) =~= rh);
        }

        let mut kept: Vec<TxEntry> = Vec::new();
        let mut j: usize = 0;
        while j < self.transactions.len()
            invariant
                j <= self.transactions@.len(),
                te == self.tx_entries(),
                tp == tx_not_removed(rh),
                removal@.map_values(|h: [u8; 32]| h@) =~= rh,
                old(self).wf(),
                *self == *old(self),
                kept@.map_values(|e: TxEntry| (e.hash@, (e.tx.data@, e.tx.timestamp)))
                    =~= te.take(j as int).filter(tp),
            decreases self.transactions@.len() - j,
        {
            proof {
                reveal(Seq::filter);
                assert(te.take(j + 1).drop_last() =~= te.take(j as int));
                assert(te.take(j + 1).last() == te[j as int]);
            }
            let e = &self.transactions[j];
            if !hash_in_list(&removal, &e.hash) {
                kept.push(TxEntry { hash: e.hash, tx: e.tx.clone() });
                proof {
                    assert(kept@.map_values(|x: TxEntry| (x.hash@, (x.tx.data@, x.tx.timestamp)))
                        =~= kept@.drop_last().map_values(
                            |x: TxEntry| (x.hash@, (x.tx.data@, x.tx.timestamp))).push(te[j as int]));
                }
            }
            j = j + 1;
        }
        proof {
            assert(te.take(te.len() as int) =~= te);
        }
        let before = self.current_size_bytes;
        self.transactions = kept;
        proof {
            lemma_filter_keeps_items(te, tp);
            lemma_weights_nonneg(te, fe);
            lemma_sum_filter(te, tp, tx_weight());
            lemma_weights_nonneg(te.filter(negp(tp)), fe);
            lemma_sum_nonneg(te.filter(negp(tp)), tx_weight());
            assert forall|k: int| 0 <= k < self.tx_hashes().len()
                implies !rh.contains(#[trigger] self.tx_hashes()[k]) by {
                te.lemma_filter_pred(tp, k);
                assert(self.tx_hashes()[k] == self.tx_entries()[k].0);
                assert(tp(self.tx_entries()[k]));
            }
        }
        self.rebuild();
        before - self.current_size_bytes
    }

    /// Purges, for each given fruit header, the first pooled fruit
    /// whose fruit header equals it, by that fruit's content hash.
    /// Both trees are rebuilt and the budget use drops by what left.
    pub fn remove_fruits(&mut self, fruit_headers: &Vec<FruitHeader>)
        requires
            old(self).wf(),
        ensures
            final(self).wf(),
            final(self).fruit_entries() == remove_fruits_spec(old(self).fruit_entries(),
                fruit_headers@),
            final(self).tx_entries() == old(self).tx_entries(),
            final(self).pool_size() <= old(self).pool_size(),
            final(self).pool_limit() == old(self).pool_limit(),
            final(self).tx_timeout() == old(self).tx_timeout(),
            final(self).fruit_timeout() == old(self).fruit_timeout(),
            final(self).last_cleanup_at() == old(self).last_cleanup_at(),
    {
        let mut i: usize = 0;
        while i < fruit_headers.len()
            invariant
                i <= fruit_headers@.len(),
                self.wf(),
                self.fruit_entries() == remove_fruits_spec(old(self).fruit_entries(),
                    fruit_headers@.take(i as int)),
                self.tx_entries() == old(self).tx_entries(),
                self.pool_size() <= old(self).pool_size(),
                self.size_limit_bytes == old(self).size_limit_bytes,
                self.transaction_timeout_secs == old(self).transaction_timeout_secs,
                self.fruit_timeout_secs == old(self).fruit_timeout_secs,
                self.last_cleanup == old(self).last_cleanup,
            decreases fruit_headers@.len() - i,
        {
            self.remove_one_fruit(&fruit_headers[i]);
            proof {
                assert(fruit_headers@.take(i + 1).drop_last() =~= fruit_headers@.take(i as int));
                assert(fruit_headers@.take(i + 1).last() == fruit_headers@[i as int]);
            }
            i = i + 1;
        }
        proof {
            assert(fruit_headers@.take(fruit_headers@.len() as int) =~= fruit_headers@);
        }
    }

    /// Purges the first pooled fruit whose fruit header equals the
    /// given one, removing every entry that shares its content hash.
    fn remove_one_fruit(&mut self, header: &FruitHeader)
        requires
            old(self).wf(),
        ensures
            final(self).wf(),
            final(self).fruit_entries() == remove_one_fruit_spec(old(self).fruit_entries(),
                *header),
            final(self).tx_entries() == old(self).tx_entries(),
            final(self).pool_size() <= old(self).pool_size(),
            final(self).size_limit_bytes == old(self).size_limit_bytes,
            final(self).transaction_timeout_secs == old(self).transaction_timeout_secs,
            final(self).fruit_timeout_secs == old(self).fruit_timeout_secs,
            final(self).last_cleanup == old(self).last_cleanup,
    {
        let ghost fe = self.fruit_entries();
        let ghost te = self.tx_entries();

        let pool_len = self.fruits.len();
        let mut found: usize = pool_len;
        let mut i: usize = 0;
        while i < pool_len
            invariant
                i <= self.fruits@.len(),
                pool_len == self.fruits@.len(),
                fe == self.fruit_entries(),
                found == pool_len || (found < i && fe[found as int].1.2 == Option::Some(*header)
                    && (forall|j: int| 0 <= j < found
                        ==> (#[trigger] fe[j]).1.2 != Option::Some(*header))),
                found == pool_len ==> forall|j: int| 0 <= j < i
                    ==> (#[trigger] fe[j]).1.2 != Option::Some(*header),
            decreases self.fruits@.len() - i,
        {
            if found == pool_len {
                let e = &self.fruits[i];
                let matches_header: bool = match &e.fruit.fruit_header {
                    Option::Some(fh) => fruit_header_eq(fh, header),
                    Option::None => false,
                };
                if matches_header {
                    proof {
                        assert(fe[i as int].1.2 == Option::Some(*header));
                    }
                    found = i;
                } else {
                    proof {
                        assert(fe[i as int].1.2 != Option::Some(*header));
                    }
                }
            }
            i = i + 1;
        }

        if found == pool_len {
            proof {
                lemma_first_fruit_match_none(fe, *header, 0);
            }
        } else {
            let idx = found;
            proof {
                lemma_first_fruit_match_found(fe, *header, 0, idx as int);
            }
                let target: [u8; 32] = self.fruits[idx].hash;
                let ghost fp = fruit_hash_not(fe[idx as int].0);
                let mut kept: Vec<FruitEntry> = Vec::new();
                let mut j: usize = 0;
                while j < self.fruits.len()
                    invariant
                        j <= self.fruits@.len(),
                        fe == self.fruit_entries(),
                        idx < fe.len(),
                        target@ == fe[idx as int].0,
                        fp == fruit_hash_not(fe[idx as int].0),
                        old(self).wf(),
                        *self == *old(self),
                        kept@.map_values(|e: FruitEntry| (e.hash@, (e.fruit.block_type,
                            e.fruit.header, e.fruit.fruit_header, e.fruit.signature@)))
                            =~= fe.take(j as int).filter(fp),
                    decreases self.fruits@.len() - j,
                {
                    proof {
                        reveal(Seq::filter);
                        assert(fe.take(j + 1).drop_last() =~= fe.take(j as int));
                        assert(fe.take(j + 1).last() == fe[j as int]);
                    }
                    let e = &self.fruits[j];
                    if !hash_eq(&e.hash, &target) {
                        kept.push(FruitEntry { hash: e.hash, fruit: e.fruit.clone() });
                        proof {
                            assert(kept@.map_values(|x: FruitEntry| (x.hash@, (x.fruit.block_type,
                                x.fruit.header, x.fruit.fruit_header, x.fruit.signature@)))
                                =~= kept@.drop_last().map_values(
                                    |x: FruitEntry| (x.hash@, (x.fruit.block_type, x.fruit.header,
                                    x.fruit.fruit_header, x.fruit.signature@))).push(fe[j as int]));
                        }
                    }
                    j = j + 1;
                }
                proof {
                    assert(fe.take(fe.len() as int) =~= fe);
                }
                self.fruits = kept;
                proof {
                    lemma_filter_keeps_fruit_items(fe, fp);
                    lemma_weights_nonneg(te, fe);
                    lemma_sum_filter(fe, fp, fruit_weight());
                    lemma_weights_nonneg(te, fe.filter(negp(fp)));
                    lemma_sum_nonneg(fe.filter(negp(fp)), fruit_weight());
                }
                self.rebuild();
        }
    }

    /// The one-off Merkle root over arbitrary byte strings: each item
    /// is hashed into a leaf, and the tree they determine is committed.
    /// An empty collection yields the all-zero sentinel.
    pub fn calculate_merkle_root(items: &Vec<Vec<u8>>) -> (r: [u8; 32])
        ensures
            r@ == (if items@.len() == 0 {
                zero_root()
            } else {
                root_of(items@.map_values(|b: Vec<u8>| blake3_of(b@)))
            }),
    {
        let mut tree = MerkleTree::new();
        let mut i: usize = 0;
        while i < items.len()
            invariant
                i <= items@.len(),
                tree.leaves_view().len() == i,
                views(tree.leaves_view()) =~= items@.take(i as int).map_values(
                    |b: Vec<u8>| blake3_of(b@)),
            decreases items@.len() - i,
        {
            let h = TransactionHasher::hash(items[i].as_slice());
            tree.insert(h);
            proof {
                assert(views(tree.leaves_view())
                    =~= views(tree.leaves_view().drop_last()).push(h@));
                assert(items@.take(i + 1).map_values(|b: Vec<u8>| blake3_of(b@))
                    =~= items@.take(i as int).map_values(|b: Vec<u8>| blake3_of(b@)).push(
                        blake3_of(items@[i as int]@)));
            }
            i = i + 1;
        }
        tree.commit();
        proof {
            assert(items@.take(items@.len() as int) =~= items@);
        }
        match tree.root() {
            Option::Some(h) => h,
            Option::None => zero_hash32(),
        }
    }
}

/// The all-zero 32-byte sentinel.
pub fn zero_hash32() -> (r: [u8; 32])
    ensures
        r@ == zero_root(),
{
    let r = [0u8; 32];
    proof {
        assert(r@ =~= zero_root());
    }
    r
}

/// Law: a well-formed pool's budget use is never negative and never
/// exceeds its configured budget, so capacity reasoning can chain
/// across operations.
pub proof fn lemma_pool_within_budget(pool: Mempool)
    requires
        pool.wf(),
    ensures
        0 <= pool.pool_size() <= pool.pool_limit(),
        pool.pool_size() == sum_by(pool.tx_entries(), tx_weight())
            + sum_by(pool.fruit_entries(), fruit_weight()),
{
    lemma_weights_nonneg(pool.tx_entries(), pool.fruit_entries());
    lemma_sum_nonneg(pool.tx_entries(), tx_weight());
    lemma_sum_nonneg(pool.fruit_entries(), fruit_weight());
}

/// Law: a sibling path returned for any pooled transaction hash
/// recomputes the pool's committed transaction root from that hash, its
/// leaf index and the pool's leaf count.
pub proof fn lemma_pool_tx_proof_valid(pool: Mempool, i: int)
    requires
        0 <= i < pool.tx_hashes().len(),
    ensures
        crate::merkle::climb(pool.tx_hashes()[i], i, pool.tx_hashes().len() as int,
            proof_path(pool.tx_hashes(), i)) == root_of(pool.tx_hashes()),
{
    crate::merkle::lemma_merkle_proof_valid(pool.tx_hashes(), i);
}

/// Law: the same, for the fruit pool.
pub proof fn lemma_pool_fruit_proof_valid(pool: Mempool, i: int)
    requires
        0 <= i < pool.fruit_hashes().len(),
    ensures
        crate::merkle::climb(pool.fruit_hashes()[i], i, pool.fruit_hashes().len() as int,
            proof_path(pool.fruit_hashes(), i)) == root_of(pool.fruit_hashes()),
{
    crate::merkle::lemma_merkle_proof_valid(pool.fruit_hashes(), i);
}

} // verus!
