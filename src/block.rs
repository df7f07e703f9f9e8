//! Fixed-size blocks, the unit of a TAR byte stream, and the header codec
//! that the stream machinery relies on.
use vstd::prelude::*;

verus! {

/// A TAR byte stream is a series of 512-byte blocks.
pub const BLOCK_SIZE: usize = 512;

/// Offset of the checksum field within a header block.
pub const CKSUM_START: usize = 148;

/// Offset of the first byte after the checksum field.
pub const CKSUM_END: usize = 156;

#[verifier::external_type_specification]
pub struct ExErrorKind(std::io::ErrorKind);

/// Sum of the bytes `b[lo..hi]`, each taken as an unsigned number.
pub open spec fn byte_sum(b: Seq<u8>, lo: int, hi: int) -> int
    decreases hi - lo,
{
    if hi <= lo {
        0
    } else {
        byte_sum(b, lo, hi - 1) + b[hi - 1] as int
    }
}

/// The checksum of a header block: the sum of all bytes with the eight bytes
/// of the checksum field counted as ASCII spaces.
pub open spec fn checksum_of(b: Seq<u8>) -> int {
    byte_sum(b, 0, CKSUM_START as int) + 8 * 32 + byte_sum(b, CKSUM_END as int, BLOCK_SIZE as int)
}

/// A sum of bytes lies between zero and 255 for each byte.
pub proof fn lemma_byte_sum_bounds(b: Seq<u8>, lo: int, hi: int)
    ensures
        0 <= byte_sum(b, lo, hi),
        lo <= hi ==> byte_sum(b, lo, hi) <= 255 * (hi - lo),
    decreases hi - lo,
{
    if hi > lo {
        lemma_byte_sum_bounds(b, lo, hi - 1);
    }
}

/// The checksum of a block is at least the eight spaces of its checksum
/// field, and fits in 32 bits.
pub proof fn lemma_checksum_bounds(b: Seq<u8>)
    ensures
        256 <= checksum_of(b) <= 255 * 504 + 256,
{
    lemma_byte_sum_bounds(b, 0, CKSUM_START as int);
    lemma_byte_sum_bounds(b, CKSUM_END as int, BLOCK_SIZE as int);
}

/// Whether every byte of `b` is zero.
pub open spec fn all_zero(b: Seq<u8>) -> bool {
    forall|i: int| 0 <= i < b.len() ==> b[i] == 0
}

/// The block of 512 zero bytes.
pub open spec fn zero_block() -> Seq<u8> {
    Seq::new(BLOCK_SIZE as nat, |i: int| 0u8)
}

/// The checksum that the header codec reads from the checksum field of a
/// block, or `None` when the field does not hold an octal number.
pub uninterp spec fn tar_cksum(b: Seq<u8>) -> Option<u32>;

/// The number of payload bytes that the header codec reads from the size
/// field of a block, or `None` when the field is corrupted.
pub uninterp spec fn tar_entry_size(b: Seq<u8>) -> Option<u64>;

/// The file size that the header codec reads from a block (it differs from
/// the entry size for sparse files), or `None` when it is corrupted.
pub uninterp spec fn tar_size(b: Seq<u8>) -> Option<u64>;

/// The path name that the header codec reads from a block.
pub uninterp spec fn tar_path_bytes(b: Seq<u8>) -> Seq<u8>;

/// Relies on `tar::Header::cksum`, which parses the octal checksum field of
/// the block; `from_byte_slice` only reinterprets the 512 bytes.
#[verifier::external_body]
fn codec_cksum(bytes: &[u8; 512]) -> (r: Option<u32>)
    ensures
        r == tar_cksum(bytes@),
{
    tar::Header::from_byte_slice(bytes).cksum().ok()
}

/// Relies on `tar::Header::entry_size`, which parses the size field of the
/// block (octal, or binary when its high bit is set).
#[verifier::external_body]
fn codec_entry_size(bytes: &[u8; 512]) -> (r: Option<u64>)
    ensures
        r == tar_entry_size(bytes@),
{
    tar::Header::from_byte_slice(bytes).entry_size().ok()
}

/// Relies on `tar::Header::size`, the file size of the entry.
#[verifier::external_body]
fn codec_size(bytes: &[u8; 512]) -> (r: Option<u64>)
    ensures
        r == tar_size(bytes@),
{
    tar::Header::from_byte_slice(bytes).size().ok()
}

/// Relies on `tar::Header::path_bytes`, the raw path name of the entry.
#[verifier::external_body]
fn codec_path_bytes(bytes: &[u8; 512]) -> (r: Vec<u8>)
    ensures
        r@ == tar_path_bytes(bytes@),
{
    tar::Header::from_byte_slice(bytes).path_bytes().to_vec()
}

/// Relies on `tar::Header::set_cksum`: it computes the sum of all bytes with
/// the checksum field taken as spaces and writes it in octal into that field,
/// where `cksum` reads it back; no other byte changes, so the size fields and
/// the path, which are read from other bytes, stay as they were.
#[verifier::external_body]
fn codec_set_cksum(bytes: &[u8; 512]) -> (r: [u8; 512])
    ensures
        tar_cksum(r@) == Some(checksum_of(bytes@) as u32),
        checksum_of(r@) == checksum_of(bytes@),
        tar_entry_size(r@) == tar_entry_size(bytes@),
        tar_size(r@) == tar_size(bytes@),
        tar_path_bytes(r@) == tar_path_bytes(bytes@),
        forall|i: int| 0 <= i < CKSUM_START || CKSUM_END <= i < BLOCK_SIZE ==> r@[i] == bytes@[i],
{
    let mut h = tar::Header::from_byte_slice(bytes).clone();
    h.set_cksum();
    *h.as_bytes()
}

/// Computes the checksum of a header block, as the header codec does.
pub fn calc_cksum(bytes: &[u8; 512]) -> (r: u32)
    ensures
        r == checksum_of(bytes@),
{
    let mut sum: u32 = 8 * 32;
    let mut i: usize = 0;
    while i < CKSUM_START
        invariant
            i <= CKSUM_START,
            sum == byte_sum(bytes@, 0, i as int) + 8 * 32,
            sum <= 255 * i + 256,
        decreases CKSUM_START - i,
    {
        sum = sum + bytes[i] as u32;
        i = i + 1;
    }
    let mut j: usize = CKSUM_END;
    while j < BLOCK_SIZE
        invariant
            CKSUM_END <= j <= BLOCK_SIZE,
            sum == byte_sum(bytes@, 0, CKSUM_START as int) + 8 * 32 + byte_sum(
                bytes@,
                CKSUM_END as int,
                j as int,
            ),
            sum <= 255 * (CKSUM_START + j - CKSUM_END) + 256,
        decreases BLOCK_SIZE - j,
    {
        sum = sum + bytes[j] as u32;
        j = j + 1;
    }
    sum
}

/// A 512-byte block of a TAR stream.
#[derive(Debug, Clone, Copy)]
pub struct Block {
    bytes: [u8; 512],
}

impl View for Block {
    type V = Seq<u8>;

    closed spec fn view(&self) -> Seq<u8> {
        self.bytes@
    }
}

/// Why a block is not a usable header.
#[derive(Debug, Clone, Copy, PartialEq, Eq, Structural)]
pub enum HeaderError {
    /// The checksum field disagrees with the checksum of the block's bytes.
    Checksum { expected: u32, actual: u32 },
    /// The checksum field does not hold a number.
    InvalidChecksum,
    /// A size field does not hold a number.
    InvalidSize,
}

impl HeaderError {
    /// A description of the error; the checksums are in its fields.
    pub fn message(&self) -> (r: String)
        ensures
            r@ == match self {
                HeaderError::Checksum { .. } => "expected block to be a valid header"@,
                HeaderError::InvalidChecksum => "checksum field was not a number"@,
                HeaderError::InvalidSize => "size field was not a number"@,
            },
    {
        match self {
            HeaderError::Checksum { .. } => "expected block to be a valid header".to_owned(),
            HeaderError::InvalidChecksum => "checksum field was not a number".to_owned(),
            HeaderError::InvalidSize => "size field was not a number".to_owned(),
        }
    }

    pub open spec fn spec_kind(&self) -> std::io::ErrorKind {
        match self {
            HeaderError::Checksum { .. } => std::io::ErrorKind::InvalidData,
            _ => std::io::ErrorKind::Other,
        }
    }

    pub fn kind(&self) -> (r: std::io::ErrorKind)
        ensures
            r == self.spec_kind(),
    {
        match self {
            HeaderError::Checksum { .. } => std::io::ErrorKind::InvalidData,
            _ => std::io::ErrorKind::Other,
        }
    }
}

impl Block {
    /// A block of zero bytes.
    pub fn new() -> (r: Block)
        ensures
            r@ == zero_block(),
    {
        let r = Block { bytes: [0u8; 512] };
        assert(r@ =~= zero_block());
        r
    }

    /// The empty block, half of the end-of-archive marker.
    pub fn empty() -> (r: Block)
        ensures
            r@ == zero_block(),
    {
        Block::new()
    }

    /// Copies a slice of exactly one block's length into a block.
    pub fn from_bytes(value: &[u8]) -> (r: Block)
        requires
            value@.len() == BLOCK_SIZE,
        ensures
            r@ == value@,
    {
        let mut bytes = [0u8; 512];
        let mut i: usize = 0;
        while i < BLOCK_SIZE
            invariant
                i <= BLOCK_SIZE,
                value@.len() == BLOCK_SIZE,
                bytes@.len() == BLOCK_SIZE,
                forall|k: int| 0 <= k < i ==> bytes@[k] == value@[k],
            decreases BLOCK_SIZE - i,
        {
            bytes[i] = value[i];
            i = i + 1;
        }
        let r = Block { bytes };
        assert(r@ =~= value@);
        r
    }

    pub fn as_bytes(&self) -> (r: &[u8])
        ensures
            r@ == self@,
    {
        self.bytes.as_slice()
    }

    /// Reads this block as a header: succeeds exactly when its checksum field
    /// holds the checksum of its bytes.
    pub fn as_header(&self) -> (r: Result<Header, HeaderError>)
        ensures
            r matches Ok(h) ==> h@ == self@,
            r is Ok <==> tar_cksum(self@) == Some(checksum_of(self@) as u32),
            tar_cksum(self@) is None ==> r == Err::<Header, HeaderError>(HeaderError::InvalidChecksum),
            tar_cksum(self@) is Some && tar_cksum(self@).unwrap() != checksum_of(self@) ==> r
                == Err::<Header, HeaderError>(
                (HeaderError::Checksum {
                    expected: tar_cksum(self@).unwrap(),
                    actual: checksum_of(self@) as u32,
                }),
            ),
    {
        let actual = calc_cksum(&self.bytes);
        match codec_cksum(&self.bytes) {
            None => Err(HeaderError::InvalidChecksum),
            Some(expected) => {
                if expected == actual {
                    Ok(Header { bytes: self.bytes })
                } else {
                    Err(HeaderError::Checksum { expected, actual })
                }
            },
        }
    }
}

/// The header block of an entry.
#[derive(Debug, Clone, Copy)]
pub struct Header {
    bytes: [u8; 512],
}

impl View for Header {
    type V = Seq<u8>;

    closed spec fn view(&self) -> Seq<u8> {
        self.bytes@
    }
}

impl Header {
    pub broadcast proof fn lemma_len(h: Header)
        ensures
            #[trigger] h@.len() == BLOCK_SIZE,
    {
    }

    /// A header holding the given block's bytes, as they are.
    pub fn from_block(block: Block) -> (r: Header)
        ensures
            r@ == block@,
    {
        Header { bytes: block.bytes }
    }

    pub fn as_bytes(&self) -> (r: &[u8; 512])
        ensures
            r@ == self@,
    {
        &self.bytes
    }

    /// Number of payload bytes that follow this header in the stream.
    pub fn entry_size(&self) -> (r: Option<u64>)
        ensures
            r == tar_entry_size(self@),
    {
        codec_entry_size(&self.bytes)
    }

    /// The file size of the entry.
    pub fn size(&self) -> (r: Option<u64>)
        ensures
            r == tar_size(self@),
    {
        codec_size(&self.bytes)
    }

    /// The checksum recorded in the header.
    pub fn cksum(&self) -> (r: Option<u32>)
        ensures
            r == tar_cksum(self@),
    {
        codec_cksum(&self.bytes)
    }

    /// The raw path name of the entry.
    pub fn path_bytes(&self) -> (r: Vec<u8>)
        ensures
            r@ == tar_path_bytes(self@),
    {
        codec_path_bytes(&self.bytes)
    }

    /// Rewrites the checksum field so that it holds the checksum of the
    /// header's bytes.
    pub fn set_cksum(&mut self)
        ensures
            tar_cksum(final(self)@) == Some(checksum_of(final(self)@) as u32),
            tar_entry_size(final(self)@) == tar_entry_size(old(self)@),
            tar_size(final(self)@) == tar_size(old(self)@),
            tar_path_bytes(final(self)@) == tar_path_bytes(old(self)@),
            forall|i: int|
                0 <= i < CKSUM_START || CKSUM_END <= i < BLOCK_SIZE ==> final(self)@[i] == old(
                    self,
                )@[i],
    {
        self.bytes = codec_set_cksum(&self.bytes);
    }
}

} // verus!
