use vstd::prelude::*;
use vstd::string::StrSliceExecFns;
use crate::codec::append_bytes;
use crate::storage::StorageError;

verus! {

/// The rotating flat-file side of the block store: numbered files under
/// one directory, each holding independently framed compressed block
/// records; a new file starts once the active one has reached the
/// configured size, counted in compressed bytes.

/// The complete compression frame that the streaming block codec
/// produces for the given input at the given level: a function of the
/// two alone. It stands for what the lz4 frame encoder writes.
pub uninterp spec fn lz4_frame_of(level: u32, data: Seq<u8>) -> Seq<u8>;

/// What compression returns: the one frame the level and input determine.
pub open spec fn compresses_to(r: Result<Vec<u8>, String>, level: u32, data: Seq<u8>) -> bool {
    r matches Result::Ok(v) && v@ == lz4_frame_of(level, data)
}

/// Relies on lz4::EncoderBuilder and Encoder: one complete frame over
/// the input bytes, determined by the input and the level alone. The
/// encoder writes into an in-memory buffer, so with its default frame
/// settings the only failure left is running out of memory, which this
/// library sets aside as it does for any allocation.
#[verifier::external_body]
fn lz4_compress(data: &[u8], level: u32) -> (r: Result<Vec<u8>, String>)
    ensures
        compresses_to(r, level, data@),
        r matches Result::Ok(v) ==> v@ == lz4_frame_of(level, data@),
{
    let mut out: Vec<u8> = Vec::new();
    let mut enc = match lz4::EncoderBuilder::new().level(level).build(&mut out) {
        Ok(e) => e,
        Err(e) => return Result::Err(e.to_string()),
    };
    if let Err(e) = std::io::Write::write_all(&mut enc, data) {
        return Result::Err(e.to_string());
    }
    let (_, res) = enc.finish();
    match res {
        Ok(()) => Result::Ok(out),
        Err(e) => Result::Err(e.to_string()),
    }
}

/// What decompression returns whenever the input starts with a
/// complete frame: the bytes that frame compressed, whatever follows.
pub open spec fn unframes_to(r: Result<Vec<u8>, String>, data: Seq<u8>) -> bool {
    forall|lv: u32, d: Seq<u8>, rest: Seq<u8>| data == #[trigger] (lz4_frame_of(lv, d) + rest)
        ==> (r matches Result::Ok(v) && v@ == d)
}

/// Relies on lz4::Decoder: reading a byte stream that starts with a
/// complete frame yields exactly the bytes that frame compressed, and
/// stops at the frame's end whatever follows it.
#[verifier::external_body]
fn lz4_decompress(data: &[u8]) -> (r: Result<Vec<u8>, String>)
    ensures
        unframes_to(r, data@),
{
    let mut dec = match lz4::Decoder::new(data) {
        Ok(d) => d,
        Err(e) => return Result::Err(e.to_string()),
    };
    let mut out: Vec<u8> = Vec::new();
    match std::io::Read::read_to_end(&mut dec, &mut out) {
        Ok(_) => Result::Ok(out),
        Err(e) => Result::Err(e.to_string()),
    }
}

/// What building a string from ASCII bytes returns: the string whose
/// characters are exactly those bytes.
pub open spec fn ascii_string_of(r: Option<String>, v: Seq<u8>) -> bool {
    (forall|i: int| 0 <= i < v.len() ==> v[i] < 0x80) ==> (r matches Option::Some(s)
        && s@ == bytes_chars(v))
}

/// Relies on String::from_utf8: bytes below 0x80 are valid UTF-8 and
/// form a string whose characters are exactly those bytes.
#[verifier::external_body]
pub(crate) fn string_from_ascii(v: Vec<u8>) -> (r: Option<String>)
    ensures
        ascii_string_of(r, v@),
{
    String::from_utf8(v).ok()
}

/// Whether every character is plain ASCII.
pub open spec fn chars_ascii(cs: Seq<char>) -> bool {
    forall|i: int| 0 <= i < cs.len() ==> (#[trigger] cs[i] as u32) < 128
}

/// ASCII characters as the bytes that spell them.
pub open spec fn ascii_bytes(cs: Seq<char>) -> Seq<u8> {
    cs.map_values(|c: char| (c as u32) as u8)
}

/// Bytes as the ASCII characters they spell.
pub open spec fn bytes_chars(bs: Seq<u8>) -> Seq<char> {
    bs.map_values(|b: u8| ((b as u32) as char))
}

/// The bytes that spell an ASCII string, or absent if any character is
/// not ASCII.
pub fn str_to_ascii_bytes(s: &str) -> (r: Option<Vec<u8>>)
    ensures
        match r {
            Option::Some(v) => chars_ascii(s@) && v@ == ascii_bytes(s@),
            Option::None => !chars_ascii(s@),
        },
{
    let n = s.unicode_len();
    let mut out: Vec<u8> = Vec::new();
    let mut i: usize = 0;
    while i < n
        invariant
            i <= n,
            n == s@.len(),
            out@.len() == i,
            forall|j: int| 0 <= j < i ==> (#[trigger] s@[j] as u32) < 128,
            forall|j: int| 0 <= j < i ==> #[trigger] out@[j] == ((s@[j] as u32) as u8),
        decreases n - i,
    {
        let c = s.get_char(i);
        let code = c as u32;
        if code >= 128 {
            return Option::None;
        }
        out.push(code as u8);
        i = i + 1;
    }
    proof {
        assert(out@ =~= ascii_bytes(s@));
    }
    Option::Some(out)
}

/// The decimal digits of `n`, as ASCII bytes, most significant first.
pub open spec fn dec_digits(n: u64) -> Seq<u8>
    decreases n,
{
    if n < 10 {
        seq![(48 + n) as u8]
    } else {
        dec_digits(n / 10) + seq![(48 + n % 10) as u8]
    }
}

/// Decimal digits are ASCII.
pub proof fn lemma_dec_digits_ascii(n: u64)
    ensures
        forall|i: int| 0 <= i < dec_digits(n).len() ==> #[trigger] dec_digits(n)[i] < 0x80,
    decreases n,
{
    if n >= 10 {
        lemma_dec_digits_ascii(n / 10);
        assert forall|i: int| 0 <= i < dec_digits(n).len() implies #[trigger] dec_digits(n)[i]
            < 0x80 by {
            if i < dec_digits(n / 10).len() {
                assert(dec_digits(n)[i] == dec_digits(n / 10)[i]);
            }
        }
    }
}

/// Appends the decimal digits of `n`.
fn push_digits(out: &mut Vec<u8>, n: u64)
    ensures
        final(out)@ == old(out)@ + dec_digits(n),
    decreases n,
{
    if n < 10 {
        out.push(48 + n as u8);
        proof {
            assert(out@ =~= old(out)@ + dec_digits(n));
        }
    } else {
        push_digits(out, n / 10);
        out.push(48 + (n % 10) as u8);
        proof {
            assert(out@ =~= old(out)@ + dec_digits(n));
        }
    }
}

/// The ASCII bytes of `"/block_file_"`.
pub open spec fn block_file_prefix() -> Seq<u8> {
    seq![47u8, 98u8, 108u8, 111u8, 99u8, 107u8, 95u8, 102u8, 105u8, 108u8, 101u8, 95u8]
}

/// The ASCII bytes of `".dat.lz4"`.
pub open spec fn block_file_suffix() -> Seq<u8> {
    seq![46u8, 100u8, 97u8, 116u8, 46u8, 108u8, 122u8, 52u8]
}

/// The bytes of the block file named `idx` under the directory.
pub open spec fn file_name_bytes(dir: Seq<u8>, idx: u64) -> Seq<u8> {
    dir + block_file_prefix() + dec_digits(idx) + block_file_suffix()
}

/// The bookkeeping of the rotating block files: which file is active,
/// how many compressed bytes it holds, and when to move on.
pub struct BlockStorage {
    blocks_dir: Vec<u8>,
    max_block_file_size: u64,
    compression_level: u32,
    current_file_index: u64,
    current_file_size: u64,
}

impl BlockStorage {
    /// The ASCII bytes of the blocks directory path.
    pub closed spec fn dir_bytes(self) -> Seq<u8> {
        self.blocks_dir@
    }

    /// The per-file compressed-size bound.
    pub closed spec fn max_file_size(self) -> u64 {
        self.max_block_file_size
    }

    /// The compression level handed to the frame encoder.
    pub closed spec fn level(self) -> u32 {
        self.compression_level
    }

    /// The number of the active block file; starts at 1, never reused.
    pub closed spec fn file_index(self) -> u64 {
        self.current_file_index
    }

    /// Compressed bytes recorded against the active file.
    pub closed spec fn file_size(self) -> u64 {
        self.current_file_size
    }

    /// The directory path is ASCII.
    pub closed spec fn wf(self) -> bool {
        forall|i: int| 0 <= i < self.blocks_dir@.len() ==> #[trigger] self.blocks_dir@[i] < 0x80
    }

    /// The number of the active block file.
    pub fn current_file_index(&self) -> (r: u64)
        ensures
            r == self.file_index(),
    {
        self.current_file_index
    }

    /// A store writing into the given directory, rotating files once
    /// the active one's compressed size reaches the given bound.
    /// Rejected when the directory path is not ASCII.
    pub fn new(blocks_dir: &str, max_block_file_size: u64, compression_level: u32)
        -> (r: Result<Self, StorageError>)
        ensures
            match r {
                Result::Ok(st) => {
                    &&& chars_ascii(blocks_dir@)
                    &&& st.wf()
                    &&& st.dir_bytes() == ascii_bytes(blocks_dir@)
                    &&& st.max_file_size() == max_block_file_size
                    &&& st.level() == compression_level
                    &&& st.file_index() == 1
                    &&& st.file_size() == 0
                },
                Result::Err(e) => !chars_ascii(blocks_dir@) && e is Encoding,
            },
    {
        match str_to_ascii_bytes(blocks_dir) {
            Option::None => Result::Err(StorageError::Encoding(
                "blocks directory path is not ASCII".to_owned())),
            Option::Some(dir) => {
                proof {
                    assert forall|i: int| 0 <= i < dir@.len() implies #[trigger] dir@[i]
                        < 0x80 by {
                        assert(dir@[i] == ascii_bytes(blocks_dir@)[i]);
                        assert((blocks_dir@[i] as u32) < 128);
                    }
                }
                Result::Ok(BlockStorage {
                    blocks_dir: dir,
                    max_block_file_size,
                    compression_level,
                    current_file_index: 1,
                    current_file_size: 0,
                })
            },
        }
    }

    /// The file the next block lands in: the active file, or, once the
    /// active file has reached the size bound, the next numbered file,
    /// which becomes active and empty.
    pub fn determine_target_file(&mut self) -> (r: String)
        requires
            old(self).wf(),
            old(self).file_index() < u64::MAX,
        ensures
            final(self).wf(),
            final(self).dir_bytes() == old(self).dir_bytes(),
            final(self).max_file_size() == old(self).max_file_size(),
            final(self).level() == old(self).level(),
            old(self).file_size() >= old(self).max_file_size() ==> final(self).file_index()
                == old(self).file_index() + 1 && final(self).file_size() == 0,
            old(self).file_size() < old(self).max_file_size() ==> final(self).file_index()
                == old(self).file_index() && final(self).file_size() == old(self).file_size(),
            r@ == bytes_chars(file_name_bytes(final(self).dir_bytes(), final(self).file_index())),
    {
        if self.current_file_size >= self.max_block_file_size {
            self.current_file_index = self.current_file_index + 1;
            self.current_file_size = 0;
        }
        let mut name_bytes: Vec<u8> = Vec::new();
        append_bytes(&mut name_bytes, &self.blocks_dir);
        name_bytes.push(47);
        name_bytes.push(98);
        name_bytes.push(108);
        name_bytes.push(111);
        name_bytes.push(99);
        name_bytes.push(107);
        name_bytes.push(95);
        name_bytes.push(102);
        name_bytes.push(105);
        name_bytes.push(108);
        name_bytes.push(101);
        name_bytes.push(95);
        proof {
            assert(name_bytes@ =~= self.blocks_dir@ + block_file_prefix());
        }
        push_digits(&mut name_bytes, self.current_file_index);
        name_bytes.push(46);
        name_bytes.push(100);
        name_bytes.push(97);
        name_bytes.push(116);
        name_bytes.push(46);
        name_bytes.push(108);
        name_bytes.push(122);
        name_bytes.push(52);
        proof {
            assert(name_bytes@ =~= file_name_bytes(self.blocks_dir@, self.current_file_index));
            lemma_dec_digits_ascii(self.current_file_index);
            assert forall|i: int| 0 <= i < name_bytes@.len() implies #[trigger] name_bytes@[i]
                < 0x80 by {
                let d = self.blocks_dir@.len() as int;
                let p = block_file_prefix().len() as int;
                let g = dec_digits(self.current_file_index).len() as int;
                if i < d {
                } else if i < d + p {
                    assert(name_bytes@[i] == block_file_prefix()[i - d]);
                } else if i < d + p + g {
                    assert(name_bytes@[i] == dec_digits(self.current_file_index)[i - d - p]);
                } else {
                    assert(name_bytes@[i] == block_file_suffix()[i - d - p - g]);
                }
            }
        }
        match string_from_ascii(name_bytes) {
            Option::Some(s) => s,
            Option::None => {
                proof {
                    assert(false);
                }
                String::new()
            },
        }
    }

    /// Plans one block append: picks the target file, compresses the
    /// serialized block into one frame, and counts the frame's size
    /// against the active file, saturating at the largest 64-bit value.
    /// The caller appends the frame to the named file.
    pub fn append_block(&mut self, block_data: &[u8]) -> (r: Result<(String, Vec<u8>),
        StorageError>)
        requires
            old(self).wf(),
            old(self).file_index() < u64::MAX,
        ensures
            final(self).wf(),
            final(self).dir_bytes() == old(self).dir_bytes(),
            final(self).max_file_size() == old(self).max_file_size(),
            final(self).level() == old(self).level(),
            final(self).file_index() as int == (if old(self).file_size()
                >= old(self).max_file_size() {
                old(self).file_index() + 1
            } else {
                old(self).file_index() as int
            }),
            r matches Result::Ok((name, frame)) && ({
                &&& frame@ == lz4_frame_of(old(self).level(), block_data@)
                &&& name@ == bytes_chars(file_name_bytes(old(self).dir_bytes(),
                    final(self).file_index()))
                &&& final(self).file_size() == sat_add_u64(
                    (if old(self).file_size() >= old(self).max_file_size() {
                        0u64
                    } else {
                        old(self).file_size()
                    }), frame@.len() as int)
            }),
    {
        let name = self.determine_target_file();
        match lz4_compress(block_data, self.compression_level) {
            Result::Err(msg) => {
                proof {
                    assert(false);
                }
                Result::Err(StorageError::Io(msg))
            },
            Result::Ok(frame) => {
                let n = frame.len() as u64;
                self.current_file_size = if n > u64::MAX - self.current_file_size {
                    u64::MAX
                } else {
                    self.current_file_size + n
                };
                Result::Ok((name, frame))
            },
        }
    }
}

/// A 64-bit sum that stays at the largest value instead of wrapping.
pub open spec fn sat_add_u64(a: u64, b: int) -> u64 {
    if a + b > u64::MAX {
        u64::MAX
    } else {
        (a + b) as u64
    }
}

/// Decompresses one stored block frame: the bytes read from a record's
/// offset up to the end of the file, whatever follows the frame.
pub fn decompress_block_frame(data: &[u8]) -> (r: Result<Vec<u8>, StorageError>)
    ensures
        forall|lv: u32, d: Seq<u8>, rest: Seq<u8>| data@ == #[trigger] (lz4_frame_of(lv, d)
            + rest) ==> (r matches Result::Ok(v) && v@ == d),
{
    match lz4_decompress(data) {
        Result::Ok(v) => Result::Ok(v),
        Result::Err(msg) => Result::Err(StorageError::Io(msg)),
    }
}

} // verus!
