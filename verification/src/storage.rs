use vstd::prelude::*;
use crate::codec::{spec_enc_u64_le, spec_enc_bytes, spec_dec_u64, spec_dec_bytes, encode_u64_le,
    encode_bytes, decode_u64_at, decode_bytes_at};
use crate::block_files::{chars_ascii, ascii_bytes, bytes_chars, str_to_ascii_bytes,
    string_from_ascii};

verus! {

/// What can go wrong at the storage boundary.
#[derive(Debug)]
pub enum StorageError {
    /// A file-system or index failure: worth retrying.
    Io(String),
    /// A serialization mismatch: a data-integrity fault.
    Encoding(String),
}

/// A block's durable position: the flat file holding its compressed
/// record and the byte offset of the record's frame.
pub struct BlockLocation {
    pub file_name: String,
    pub byte_offset: u64,
}

/// The serialized form of a location: the file name's ASCII bytes,
/// length-prefixed, then the offset.
pub open spec fn spec_enc_location(name_bytes: Seq<u8>, byte_offset: u64) -> Seq<u8> {
    spec_enc_bytes(name_bytes) + spec_enc_u64_le(byte_offset)
}

/// Whether every byte is plain ASCII.
pub open spec fn bytes_ascii(bs: Seq<u8>) -> bool {
    forall|m: int| 0 <= m < bs.len() ==> #[trigger] bs[m] < 0x80
}

/// Whether stored index bytes read back as a location whose file name
/// is ASCII: the shape every record this library writes has.
pub open spec fn location_readable(v: Seq<u8>) -> bool {
    match spec_dec_location(v) {
        Option::Some((nb, off)) => bytes_ascii(nb),
        Option::None => false,
    }
}

/// Reads a serialized location back: the name bytes and the offset.
pub open spec fn spec_dec_location(s: Seq<u8>) -> Option<(Seq<u8>, u64)> {
    match spec_dec_bytes(s, 0) {
        Option::Some((nb, p1)) => match spec_dec_u64(s, p1) {
            Option::Some((off, p2)) => Option::Some((nb, off)),
            Option::None => Option::None,
        },
        Option::None => Option::None,
    }
}

/// Law: a serialized location reads back as the very name bytes and
/// offset that were written.
pub proof fn lemma_location_round_trip(name_bytes: Seq<u8>, byte_offset: u64)
    requires
        name_bytes.len() <= u64::MAX,
    ensures
        spec_dec_location(spec_enc_location(name_bytes, byte_offset))
            == Option::Some((name_bytes, byte_offset)),
{
    let s = spec_enc_location(name_bytes, byte_offset);
    let eb = spec_enc_bytes(name_bytes);
    let n = name_bytes.len() as int;
    assert(eb.len() == 8 + n);
    assert(s.subrange(0, 8 + n) =~= eb) by {
        assert forall|i: int| 0 <= i < 8 + n implies #[trigger] s.subrange(0, 8 + n)[i]
            == eb[i] by {
            assert(s[i] == eb[i]);
        }
    }
    crate::codec::lemma_dec_enc_bytes(name_bytes, s, 0);
    assert(s.subrange(8 + n, 8 + n + 8) =~= spec_enc_u64_le(byte_offset)) by {
        assert forall|i: int| 0 <= i < 8 implies #[trigger] s.subrange(8 + n, 8 + n + 8)[i]
            == spec_enc_u64_le(byte_offset)[i] by {
            assert(s[8 + n + i] == spec_enc_u64_le(byte_offset)[i]);
        }
    }
    crate::codec::lemma_dec_enc_u64(byte_offset, s, 8 + n);
}

/// Law: a location written for an ASCII file name is readable and comes
/// back, through the index value's bytes, as the very same name and
/// offset. With `store_block_location`'s and `retrieve_block_location`'s
/// contracts this forces a stored location to be returned intact.
pub proof fn lemma_stored_location_reads_back(cs: Seq<char>, byte_offset: u64)
    requires
        chars_ascii(cs),
        cs.len() <= u64::MAX,
    ensures
        spec_dec_location(spec_enc_location(ascii_bytes(cs), byte_offset))
            == Option::Some((ascii_bytes(cs), byte_offset)),
        location_readable(spec_enc_location(ascii_bytes(cs), byte_offset)),
        bytes_chars(ascii_bytes(cs)) == cs,
{
    lemma_location_round_trip(ascii_bytes(cs), byte_offset);
    lemma_ascii_round_trip(cs);
    assert forall|m: int| 0 <= m < ascii_bytes(cs).len() implies #[trigger] ascii_bytes(cs)[m]
        < 0x80 by {
        assert((cs[m] as u32) < 128);
    }
    assert(bytes_ascii(ascii_bytes(cs)));
}

/// Law: spelling ASCII characters as bytes and reading them back gives
/// the same characters.
pub proof fn lemma_ascii_round_trip(cs: Seq<char>)
    requires
        chars_ascii(cs),
    ensures
        bytes_chars(ascii_bytes(cs)) == cs,
{
    assert forall|i: int| 0 <= i < cs.len() implies #[trigger] bytes_chars(ascii_bytes(cs))[i]
        == cs[i] by {
        let u = cs[i] as u32;
        assert(u < 128);
        assert(ascii_bytes(cs)[i] == (u as u8));
        assert(((u as u8) as u32) == u);
        assert(bytes_chars(ascii_bytes(cs))[i] == (((u as u8) as u32) as char));
        vstd::utf8::char_u32_cast(cs[i], u);
    }
    assert(bytes_chars(ascii_bytes(cs)) =~= cs);
}

/// Bytewise lexicographic order, the order the index keeps its keys in.
pub open spec fn lex_le(a: Seq<u8>, b: Seq<u8>) -> bool
    decreases a.len(),
{
    if a.len() == 0 {
        true
    } else if b.len() == 0 {
        false
    } else if a[0] < b[0] {
        true
    } else if a[0] > b[0] {
        false
    } else {
        lex_le(a.drop_first(), b.drop_first())
    }
}

/// Any two keys are ordered one way or the other.
pub proof fn lemma_lex_total(a: Seq<u8>, b: Seq<u8>)
    ensures
        lex_le(a, b) || lex_le(b, a),
    decreases a.len(),
{
    if a.len() > 0 && b.len() > 0 && a[0] == b[0] {
        lemma_lex_total(a.drop_first(), b.drop_first());
    }
}

/// The order chains.
pub proof fn lemma_lex_trans(a: Seq<u8>, b: Seq<u8>, c: Seq<u8>)
    requires
        lex_le(a, b),
        lex_le(b, c),
    ensures
        lex_le(a, c),
    decreases a.len(),
{
    if a.len() > 0 {
        if b.len() > 0 && c.len() > 0 && a[0] == b[0] && b[0] == c[0] {
            lemma_lex_trans(a.drop_first(), b.drop_first(), c.drop_first());
        }
    }
}

/// One index record: a raw block-hash key and the serialized location.
struct IndexEntry {
    key: Vec<u8>,
    value: Vec<u8>,
}

/// The map a record sequence denotes; a later record overrides an
/// earlier one with the same key.
pub open spec fn map_of(s: Seq<(Seq<u8>, Seq<u8>)>) -> Map<Seq<u8>, Seq<u8>>
    decreases s.len(),
{
    if s.len() == 0 {
        Map::empty()
    } else {
        map_of(s.drop_last()).insert(s.last().0, s.last().1)
    }
}

/// No two records share a key.
pub open spec fn distinct_keys(s: Seq<(Seq<u8>, Seq<u8>)>) -> bool {
    forall|i: int, j: int| 0 <= i < j < s.len() ==> (#[trigger] s[i]).0 != (#[trigger] s[j]).0
}

/// Keep the records whose key differs from `k`.
pub open spec fn key_not(k: Seq<u8>) -> spec_fn((Seq<u8>, Seq<u8>)) -> bool {
    |e: (Seq<u8>, Seq<u8>)| e.0 != k
}

/// A key is in the map exactly when some record carries it.
pub proof fn lemma_map_of_contains(s: Seq<(Seq<u8>, Seq<u8>)>, k: Seq<u8>)
    ensures
        map_of(s).contains_key(k) <==> exists|i: int| 0 <= i < s.len() && (#[trigger] s[i]).0 == k,
    decreases s.len(),
{
    if s.len() > 0 {
        lemma_map_of_contains(s.drop_last(), k);
        if s.last().0 == k {
            assert(s[s.len() - 1].0 == k);
        } else {
            if exists|i: int| 0 <= i < s.drop_last().len() && (#[trigger] s.drop_last()[i]).0
                == k {
                let i = choose|i: int| 0 <= i < s.drop_last().len()
                    && (#[trigger] s.drop_last()[i]).0 == k;
                assert(s[i].0 == k);
            }
            if exists|i: int| 0 <= i < s.len() && (#[trigger] s[i]).0 == k {
                let i = choose|i: int| 0 <= i < s.len() && (#[trigger] s[i]).0 == k;
                assert(s.drop_last()[i].0 == k);
            }
        }
    }
}

/// With distinct keys, the record carrying a key gives its map value.
pub proof fn lemma_map_of_get(s: Seq<(Seq<u8>, Seq<u8>)>, i: int)
    requires
        0 <= i < s.len(),
        forall|j: int| i < j < s.len() ==> (#[trigger] s[j]).0 != s[i].0,
    ensures
        map_of(s).contains_key(s[i].0),
        map_of(s)[s[i].0] == s[i].1,
    decreases s.len(),
{
    if i == s.len() - 1 {
    } else {
        assert(s.drop_last()[i] == s[i]);
        lemma_map_of_get(s.drop_last(), i);
        assert(s.last().0 != s[i].0);
    }
}

/// Filtering a key out of the records removes it from the map.
pub proof fn lemma_map_of_filter_remove(s: Seq<(Seq<u8>, Seq<u8>)>, k: Seq<u8>)
    ensures
        map_of(s.filter(key_not(k))) == map_of(s).remove(k),
    decreases s.len(),
{
    reveal(Seq::filter);
    if s.len() == 0 {
        assert(map_of(s).remove(k) =~= Map::empty());
    } else {
        let d = s.drop_last();
        lemma_map_of_filter_remove(d, k);
        if key_not(k)(s.last()) {
            assert(s.filter(key_not(k)) == d.filter(key_not(k)).push(s.last()));
            assert(map_of(d.filter(key_not(k)).push(s.last()))
                == map_of(d.filter(key_not(k))).insert(s.last().0, s.last().1)) by {
                assert(d.filter(key_not(k)).push(s.last()).drop_last() =~= d.filter(key_not(k)));
            }
            assert(map_of(d).remove(k).insert(s.last().0, s.last().1)
                =~= map_of(d).insert(s.last().0, s.last().1).remove(k));
        } else {
            assert(s.last().0 == k);
            assert(map_of(d).remove(k) =~= map_of(d).insert(s.last().0, s.last().1).remove(k));
        }
    }
}

/// Filtering keeps keys distinct and draws only from the records.
pub proof fn lemma_filter_distinct(s: Seq<(Seq<u8>, Seq<u8>)>, p: spec_fn((Seq<u8>, Seq<u8>))
    -> bool)
    requires
        distinct_keys(s),
    ensures
        distinct_keys(s.filter(p)),
        forall|i: int| 0 <= i < s.filter(p).len() ==> s.contains(#[trigger] s.filter(p)[i]),
    decreases s.len(),
{
    reveal(Seq::filter);
    if s.len() > 0 {
        let d = s.drop_last();
        assert(distinct_keys(d)) by {
            assert(forall|i: int| 0 <= i < d.len() ==> d[i] == s[i]);
        }
        lemma_filter_distinct(d, p);
        assert forall|i: int| 0 <= i < d.filter(p).len() implies s.contains(
            #[trigger] d.filter(p)[i]) by {
            assert(d.contains(d.filter(p)[i]));
            let j = choose|j: int| 0 <= j < d.len() && d[j] == d.filter(p)[i];
            assert(s[j] == d.filter(p)[i]);
        }
        if p(s.last()) {
            assert(s.filter(p) == d.filter(p).push(s.last()));
            assert(s.contains(s.last())) by {
                assert(s[s.len() - 1] == s.last());
            }
            assert forall|i: int, j: int| 0 <= i < j < s.filter(p).len() implies
                (#[trigger] s.filter(p)[i]).0 != (#[trigger] s.filter(p)[j]).0 by {
                if j == s.filter(p).len() - 1 {
                    assert(s.filter(p)[j] == s.last());
                    assert(d.contains(d.filter(p)[i]));
                    let m = choose|m: int| 0 <= m < d.len() && d[m] == d.filter(p)[i];
                    assert(s[m] == s.filter(p)[i]);
                    assert(s[m].0 != s[s.len() - 1].0);
                } else {
                    assert(s.filter(p)[i] == d.filter(p)[i]);
                    assert(s.filter(p)[j] == d.filter(p)[j]);
                }
            }
        }
    }
}

/// The hash-to-location index: raw 32-byte block-hash keys mapped to
/// serialized locations, kept with distinct keys. It carries the
/// contract of the embedded ordered store in memory; nothing in it
/// persists across a restart.
pub struct Storage {
    entries: Vec<IndexEntry>,
}

impl Storage {
    /// The records, oldest first.
    pub closed spec fn entries_view(self) -> Seq<(Seq<u8>, Seq<u8>)> {
        self.entries@.map_values(|e: IndexEntry| (e.key@, e.value@))
    }

    /// The key-to-value map the index holds.
    pub open spec fn db_view(self) -> Map<Seq<u8>, Seq<u8>> {
        map_of(self.entries_view())
    }

    /// No two records share a key.
    pub open spec fn wf(self) -> bool {
        distinct_keys(self.entries_view())
    }

    /// An empty index. It lives in memory only and does not survive a
    /// restart; the path is accepted for the interface's sake and is
    /// not read or written.
    pub fn new(path: &str) -> (r: Result<Self, StorageError>)
        ensures
            match r {
                Result::Ok(st) => st.wf() && st.db_view() == Map::<Seq<u8>, Seq<u8>>::empty()
                    && st.entries_view().len() == 0,
                Result::Err(e) => false,
            },
    {
        let st = Storage { entries: Vec::new() };
        proof {
            assert(st.entries_view() =~= Seq::<(Seq<u8>, Seq<u8>)>::empty());
        }
        Result::Ok(st)
    }

    /// Writes the location under the block hash, replacing any earlier
    /// record with that hash. Rejected when the file name is not ASCII.
    pub fn store_block_location(&mut self, block_hash: &[u8], location: &BlockLocation)
        -> (r: Result<(), StorageError>)
        requires
            old(self).wf(),
        ensures
            final(self).wf(),
            match r {
                Result::Ok(()) => {
                    &&& chars_ascii(location.file_name@)
                    &&& final(self).db_view() == old(self).db_view().insert(block_hash@,
                        spec_enc_location(ascii_bytes(location.file_name@),
                        location.byte_offset))
                },
                Result::Err(e) => {
                    &&& *final(self) == *old(self)
                    &&& e is Encoding
                    &&& !chars_ascii(location.file_name@)
                },
            },
    {
        let name_bytes = match str_to_ascii_bytes(location.file_name.as_str()) {
            Option::None => {
                return Result::Err(StorageError::Encoding(
                    "block file name is not ASCII".to_owned()));
            },
            Option::Some(v) => v,
        };
        let mut value: Vec<u8> = Vec::new();
        encode_bytes(&mut value, &name_bytes);
        encode_u64_le(&mut value, location.byte_offset);
        let key = slice_to_bytes(block_hash);
        let ghost se = self.entries_view();
        let ghost kp = key_not(block_hash@);

        let mut kept: Vec<IndexEntry> = Vec::new();
        let mut i: usize = 0;
        while i < self.entries.len()
            invariant
                i <= self.entries@.len(),
                se == self.entries_view(),
                kp == key_not(block_hash@),
                *self == *old(self),
                kept@.map_values(|e: IndexEntry| (e.key@, e.value@))
                    =~= se.take(i as int).filter(kp),
            decreases self.entries@.len() - i,
        {
            proof {
                reveal(Seq::filter);
                assert(se.take(i + 1).drop_last() =~= se.take(i as int));
                assert(se.take(i + 1).last() == se[i as int]);
            }
            let e = &self.entries[i];
            if !bytes_eq(&e.key, block_hash) {
                kept.push(IndexEntry { key: crate::types::clone_bytes(&e.key),
                    value: crate::types::clone_bytes(&e.value) });
                proof {
                    assert(kept@.map_values(|x: IndexEntry| (x.key@, x.value@))
                        =~= kept@.drop_last().map_values(|x: IndexEntry| (x.key@, x.value@))
                            .push(se[i as int]));
                }
            }
            i = i + 1;
        }
        proof {
            assert(se.take(se.len() as int) =~= se);
        }
        kept.push(IndexEntry { key, value });
        self.entries = kept;
        proof {
            let filtered = se.filter(kp);
            assert(self.entries_view() =~= filtered.push((block_hash@,
                spec_enc_location(ascii_bytes(location.file_name@), location.byte_offset))));
            lemma_filter_distinct(se, kp);
            assert forall|a: int, b: int| 0 <= a < b < self.entries_view().len() implies
                (#[trigger] self.entries_view()[a]).0 != (#[trigger] self.entries_view()[b]).0 by {
                if b == self.entries_view().len() - 1 {
                    se.lemma_filter_pred(kp, a);
                    assert(self.entries_view()[a] == filtered[a]);
                    assert(kp(filtered[a]));
                } else {
                    assert(self.entries_view()[a] == filtered[a]);
                    assert(self.entries_view()[b] == filtered[b]);
                }
            }
            lemma_map_of_filter_remove(se, block_hash@);
            assert(self.entries_view().drop_last() =~= filtered);
            assert(map_of(self.entries_view()) == map_of(filtered).insert(block_hash@,
                spec_enc_location(ascii_bytes(location.file_name@), location.byte_offset)));
            assert(old(self).db_view().remove(block_hash@).insert(block_hash@,
                spec_enc_location(ascii_bytes(location.file_name@), location.byte_offset))
                =~= old(self).db_view().insert(block_hash@,
                spec_enc_location(ascii_bytes(location.file_name@), location.byte_offset)));
        }
        Result::Ok(())
    }

    /// Looks the block hash up and, on a hit, reads the stored location
    /// back; absent when the hash was never stored. Failure is reserved
    /// for a data-integrity fault: a present record whose bytes do not
    /// parse as a location with an ASCII name. Every record this
    /// library writes parses, so a stored location always comes back.
    pub fn retrieve_block_location(&self, block_hash: &[u8])
        -> (r: Result<Option<BlockLocation>, StorageError>)
        requires
            self.wf(),
        ensures
            match r {
                Result::Ok(Option::None) => !self.db_view().contains_key(block_hash@),
                Result::Ok(Option::Some(l)) => self.db_view().contains_key(block_hash@)
                    && location_readable(self.db_view()[block_hash@])
                    && (match spec_dec_location(self.db_view()[block_hash@]) {
                    Option::Some((nb, off)) => l.file_name@ == bytes_chars(nb)
                        && l.byte_offset == off,
                    Option::None => false,
                }),
                Result::Err(e) => self.db_view().contains_key(block_hash@) && e is Encoding
                    && !location_readable(self.db_view()[block_hash@]),
            },
    {
        let ghost se = self.entries_view();
        let mut i: usize = 0;
        while i < self.entries.len()
            invariant
                i <= self.entries@.len(),
                se == self.entries_view(),
                self.wf(),
                forall|j: int| 0 <= j < i ==> (#[trigger] se[j]).0 != block_hash@,
            decreases self.entries@.len() - i,
        {
            if bytes_eq(&self.entries[i].key, block_hash) {
                proof {
                    lemma_map_of_get(se, i as int);
                }
                let value = &self.entries[i].value;
                proof {
                    assert(self.db_view()[block_hash@] == value@);
                }
                let (name_bytes, p1) = match decode_bytes_at(value, 0) {
                    Option::None => {
                        return Result::Err(StorageError::Encoding(
                            "stored location does not parse".to_owned()));
                    },
                    Option::Some(x) => x,
                };
                let (off, _p2) = match decode_u64_at(value, p1) {
                    Option::None => {
                        return Result::Err(StorageError::Encoding(
                            "stored location does not parse".to_owned()));
                    },
                    Option::Some(x) => x,
                };
                proof {
                    assert(spec_dec_location(value@) == Option::Some((name_bytes@, off)));
                }
                let mut ascii = true;
                let mut j: usize = 0;
                while j < name_bytes.len()
                    invariant
                        j <= name_bytes@.len(),
                        ascii ==> forall|m: int| 0 <= m < j ==> #[trigger] name_bytes@[m] < 0x80,
                        !ascii ==> exists|m: int| 0 <= m < j && #[trigger] name_bytes@[m] >= 0x80,
                    decreases name_bytes@.len() - j,
                {
                    if name_bytes[j] >= 0x80 {
                        proof {
                            assert(name_bytes@[j as int] >= 0x80);
                        }
                        ascii = false;
                    }
                    j = j + 1;
                }
                if !ascii {
                    proof {
                        let m = choose|m: int| 0 <= m < name_bytes@.len()
                            && #[trigger] name_bytes@[m] >= 0x80;
                        assert(0 <= m < name_bytes@.len() && name_bytes@[m] >= 0x80);
                        assert(!bytes_ascii(name_bytes@));
                        assert(!location_readable(value@));
                    }
                    return Result::Err(StorageError::Encoding(
                        "stored file name is not ASCII".to_owned()));
                }
                match string_from_ascii(name_bytes) {
                    Option::Some(s) => {
                        return Result::Ok(Option::Some(BlockLocation {
                            file_name: s,
                            byte_offset: off,
                        }));
                    },
                    Option::None => {
                        proof {
                            assert(false);
                        }
                        return Result::Err(StorageError::Encoding(String::new()));
                    },
                }
            }
            i = i + 1;
        }
        proof {
            lemma_map_of_contains(se, block_hash@);
        }
        Result::Ok(Option::None)
    }

    /// Removes the record under the block hash, if any.
    pub fn delete_block_location(&mut self, block_hash: &[u8]) -> (r: Result<(), StorageError>)
        requires
            old(self).wf(),
        ensures
            final(self).wf(),
            r is Ok,
            final(self).db_view() == old(self).db_view().remove(block_hash@),
    {
        let ghost se = self.entries_view();
        let ghost kp = key_not(block_hash@);
        let mut kept: Vec<IndexEntry> = Vec::new();
        let mut i: usize = 0;
        while i < self.entries.len()
            invariant
                i <= self.entries@.len(),
                se == self.entries_view(),
                kp == key_not(block_hash@),
                *self == *old(self),
                kept@.map_values(|e: IndexEntry| (e.key@, e.value@))
                    =~= se.take(i as int).filter(kp),
            decreases self.entries@.len() - i,
        {
            proof {
                reveal(Seq::filter);
                assert(se.take(i + 1).drop_last() =~= se.take(i as int));
                assert(se.take(i + 1).last() == se[i as int]);
            }
            let e = &self.entries[i];
            if !bytes_eq(&e.key, block_hash) {
                kept.push(IndexEntry { key: crate::types::clone_bytes(&e.key),
                    value: crate::types::clone_bytes(&e.value) });
                proof {
                    assert(kept@.map_values(|x: IndexEntry| (x.key@, x.value@))
                        =~= kept@.drop_last().map_values(|x: IndexEntry| (x.key@, x.value@))
                            .push(se[i as int]));
                }
            }
            i = i + 1;
        }
        proof {
            assert(se.take(se.len() as int) =~= se);
        }
        self.entries = kept;
        proof {
            lemma_filter_distinct(se, kp);
            lemma_map_of_filter_remove(se, block_hash@);
        }
        Result::Ok(())
    }

    /// The largest stored key in bytewise order: what a reverse scan of
    /// an ordered store ends on. Absent when the index is empty.
    pub fn get_latest_block_hash(&self) -> (r: Result<Option<Vec<u8>>, StorageError>)
        requires
            self.wf(),
        ensures
            match r {
                Result::Ok(Option::None) => self.entries_view().len() == 0,
                Result::Ok(Option::Some(k)) => self.db_view().contains_key(k@)
                    && (forall|k2: Seq<u8>| self.db_view().contains_key(k2) ==> lex_le(k2, k@)),
                Result::Err(e) => false,
            },
    {
        let ghost se = self.entries_view();
        if self.entries.len() == 0 {
            return Result::Ok(Option::None);
        }
        let mut best: usize = 0;
        let mut i: usize = 1;
        proof {
            lemma_lex_total(se[0].0, se[0].0);
        }
        while i < self.entries.len()
            invariant
                best < i <= self.entries@.len(),
                se == self.entries_view(),
                self.wf(),
                forall|j: int| 0 <= j < i ==> lex_le((#[trigger] se[j]).0, se[best as int].0),
            decreases self.entries@.len() - i,
        {
            if lex_le_bytes(&self.entries[best].key, &self.entries[i].key) {
                proof {
                    assert forall|j: int| 0 <= j < i + 1 implies lex_le((#[trigger] se[j]).0,
                        se[i as int].0) by {
                        if j < i {
                            lemma_lex_trans(se[j].0, se[best as int].0, se[i as int].0);
                        } else {
                            lemma_lex_total(se[j].0, se[j].0);
                        }
                    }
                }
                best = i;
            } else {
                proof {
                    lemma_lex_total(se[best as int].0, se[i as int].0);
                }
            }
            i = i + 1;
        }
        let key = crate::types::clone_bytes(&self.entries[best].key);
        proof {
            lemma_map_of_get(se, best as int);
            assert forall|k2: Seq<u8>| self.db_view().contains_key(k2) implies lex_le(k2,
                key@) by {
                lemma_map_of_contains(se, k2);
                let j = choose|j: int| 0 <= j < se.len() && (#[trigger] se[j]).0 == k2;
                assert(lex_le(se[j].0, se[best as int].0));
            }
        }
        Result::Ok(Option::Some(key))
    }
}

/// Whether a byte vector and a byte slice hold the same bytes.
pub fn bytes_eq(a: &Vec<u8>, b: &[u8]) -> (r: bool)
    ensures
        r == (a@ == b@),
{
    if a.len() != b.len() {
        proof {
            assert(a@.len() != b@.len());
        }
        return false;
    }
    let mut i: usize = 0;
    while i < a.len()
        invariant
            i <= a@.len(),
            a@.len() == b@.len(),
            forall|j: int| 0 <= j < i ==> a@[j] == b@[j],
        decreases a@.len() - i,
    {
        if a[i] != b[i] {
            return false;
        }
        i = i + 1;
    }
    proof {
        assert(a@ =~= b@);
    }
    true
}

/// An element-wise copy of a byte slice.
pub fn slice_to_bytes(s: &[u8]) -> (r: Vec<u8>)
    ensures
        r@ == s@,
{
    let mut r: Vec<u8> = Vec::new();
    let mut i: usize = 0;
    while i < s.len()
        invariant
            i <= s@.len(),
            r@ == s@.take(i as int),
        decreases s@.len() - i,
    {
        r.push(s[i]);
        proof {
            assert(s@.take(i + 1) =~= s@.take(i as int).push(s@[i as int]));
        }
        i = i + 1;
    }
    proof {
        assert(s@.take(s@.len() as int) =~= s@);
    }
    r
}

/// Bytewise lexicographic comparison.
pub fn lex_le_bytes(a: &Vec<u8>, b: &Vec<u8>) -> (r: bool)
    ensures
        r == lex_le(a@, b@),
{
    let mut i: usize = 0;
    proof {
        assert(a@.skip(0) =~= a@);
        assert(b@.skip(0) =~= b@);
    }
    while i < a.len() && i < b.len()
        invariant
            i <= a@.len(),
            i <= b@.len(),
            forall|j: int| 0 <= j < i ==> a@[j] == b@[j],
            lex_le(a@, b@) == lex_le(a@.skip(i as int), b@.skip(i as int)),
        decreases a@.len() - i,
    {
        let ghost ask = a@.skip(i as int);
        let ghost bsk = b@.skip(i as int);
        if a[i] < b[i] {
            proof {
                assert(ask[0] == a@[i as int]);
                assert(bsk[0] == b@[i as int]);
            }
            return true;
        }
        if a[i] > b[i] {
            proof {
                assert(ask[0] == a@[i as int]);
                assert(bsk[0] == b@[i as int]);
            }
            return false;
        }
        proof {
            assert(ask[0] == a@[i as int]);
            assert(bsk[0] == b@[i as int]);
            assert(ask.drop_first() =~= a@.skip(i + 1));
            assert(bsk.drop_first() =~= b@.skip(i + 1));
        }
        i = i + 1;
    }
    proof {
        if i == a@.len() {
            assert(a@.skip(i as int).len() == 0);
        } else {
            assert(b@.skip(i as int).len() == 0);
            assert(a@.skip(i as int).len() > 0);
        }
    }
    i == a.len()
}

} // verus!
