//! Incremental reading and writing of TAR archives.
//!
//! An [`Archive`] holds a buffer, the position in the stream as a [`State`],
//! and an I/O object that it only carries. Its methods make every decision
//! of reading and writing an archive; where they need the I/O object to move
//! bytes they return [`Step::Pending`], and the caller fills or flushes the
//! buffer and calls again.
use vstd::prelude::*;

pub mod block;
pub mod buffer;
pub mod fixture;
pub mod laws;
pub mod read;
pub mod slices;
pub mod state;
pub mod write;

pub use block::{Block, Header, HeaderError, BLOCK_SIZE};
use block::{tar_cksum, tar_entry_size, tar_path_bytes, tar_size};
pub use buffer::Buf;
pub use read::ReadError;
pub use state::{Error, State};
pub use write::WriteError;

verus! {

/// The default number of blocks to buffer (4096 bytes).
pub const DEFAULT_BUFFER_CAPACITY: usize = 8;

/// The outcome of one step of a driver procedure.
#[derive(Debug)]
pub enum Step<T> {
    /// The buffer must be filled from the source (when reading) or flushed
    /// to the sink (when writing) before the step can go on.
    Pending,
    /// The step is complete.
    Ready(T),
}

/// Any error that reading or writing an archive reports.
#[derive(Debug, Clone, Copy, PartialEq, Eq, Structural)]
pub enum ArchiveError {
    Read(ReadError),
    Write(WriteError),
    Stream(Error),
    Header(HeaderError),
}

impl ArchiveError {
    /// A description of the error.
    pub fn message(&self) -> (r: String) {
        match self {
            ArchiveError::Read(e) => e.message(),
            ArchiveError::Write(e) => e.message(),
            ArchiveError::Stream(e) => e.message(),
            ArchiveError::Header(e) => e.message(),
        }
    }

    pub open spec fn spec_kind(&self) -> std::io::ErrorKind {
        match self {
            ArchiveError::Read(e) => e.spec_kind(),
            ArchiveError::Write(e) => e.spec_kind(),
            ArchiveError::Stream(_) => std::io::ErrorKind::InvalidData,
            ArchiveError::Header(e) => e.spec_kind(),
        }
    }

    pub fn kind(&self) -> (r: std::io::ErrorKind)
        ensures
            r == self.spec_kind(),
    {
        match self {
            ArchiveError::Read(e) => e.kind(),
            ArchiveError::Write(e) => e.kind(),
            ArchiveError::Stream(e) => e.kind(),
            ArchiveError::Header(e) => e.kind(),
        }
    }
}

/// Reads or writes a TAR archive through a buffer, on behalf of an I/O
/// object.
pub struct Archive<T> {
    buf: Buf,
    state: State,
    /// The bytes of the header block being received.
    head: Vec<u8>,
    io: T,
}

impl<T> Archive<T> {
    pub closed spec fn spec_state(&self) -> State {
        self.state
    }

    pub closed spec fn spec_buf(&self) -> Buf {
        self.buf
    }

    pub closed spec fn spec_io(&self) -> T {
        self.io
    }

    /// The bytes of the header block received so far.
    pub closed spec fn head_view(&self) -> Seq<u8> {
        self.head@
    }

    pub open spec fn wf(&self) -> bool {
        &&& self.spec_buf().wf()
        &&& self.spec_buf().storage().len() >= BLOCK_SIZE
        &&& self.spec_buf().read_pos() == self.spec_buf().write_pos() ==> self.spec_buf().write_pos()
            == 0
        &&& self.head_view().len() == BLOCK_SIZE
        &&& state::rh_ok(self.spec_state())
    }

    /// The bytes filled but not yet consumed or flushed.
    pub open spec fn buffered_view(&self) -> Seq<u8> {
        self.spec_buf().buffered_view()
    }

    /// Creates an archive with the default buffer capacity of 8 blocks.
    pub fn new(io: T) -> (r: Self)
        ensures
            r.wf(),
            r.spec_state() == State::ExpectingHeader,
            r.spec_buf().storage().len() == DEFAULT_BUFFER_CAPACITY * BLOCK_SIZE,
            r.buffered_view().len() == 0,
            r.spec_io() == io,
    {
        Self::with_capacity(io, DEFAULT_BUFFER_CAPACITY)
    }

    /// Creates an archive that buffers `capacity` blocks of 512 bytes.
    pub fn with_capacity(io: T, capacity: usize) -> (r: Self)
        requires
            capacity > 0,
            capacity * BLOCK_SIZE <= usize::MAX,
        ensures
            r.wf(),
            r.spec_state() == State::ExpectingHeader,
            r.spec_buf().storage().len() == capacity * BLOCK_SIZE,
            r.buffered_view().len() == 0,
            r.spec_io() == io,
    {
        let cap = capacity * BLOCK_SIZE;
        Archive { buf: Buf::new(cap), state: State::ExpectingHeader, head: vec![0u8; 512], io }
    }

    /// Consumes this archive and returns the I/O object.
    pub fn into_inner(self) -> (r: T)
        ensures
            r == self.spec_io(),
    {
        self.io
    }

    /// The I/O object.
    pub fn get_mut(&mut self) -> (r: &mut T)
        ensures
            *r == old(self).spec_io(),
            final(self).spec_io() == *final(r),
            final(self).spec_state() == old(self).spec_state(),
            final(self).spec_buf() == old(self).spec_buf(),
            final(self).head_view() == old(self).head_view(),
    {
        &mut self.io
    }

    /// The current position in the stream.
    pub fn state(&self) -> (r: State)
        ensures
            r == self.spec_state(),
    {
        self.state
    }

    /// The buffer capacity in bytes.
    pub fn capacity(&self) -> (r: usize)
        ensures
            r == self.spec_buf().storage().len(),
    {
        self.buf.capacity()
    }

    /// The bytes filled but not yet consumed or flushed.
    pub fn buffered_bytes(&self) -> (r: &[u8])
        requires
            self.wf(),
        ensures
            r@ == self.buffered_view(),
    {
        self.buf.buffered_bytes()
    }
}

/// The entry that is being read or written: its header, validated.
#[derive(Debug)]
pub struct Entry {
    header: Header,
    size: u64,
    len: u64,
}

impl Entry {
    pub closed spec fn spec_header(&self) -> Header {
        self.header
    }

    pub open spec fn valid_header(h: Header) -> bool {
        &&& tar_size(h@) is Some
        &&& tar_entry_size(h@) is Some
        &&& tar_cksum(h@) is Some
    }

    pub closed spec fn len_spec(&self) -> u64 {
        self.len
    }

    pub closed spec fn wf(&self) -> bool {
        &&& tar_size(self.header@) == Some(self.size)
        &&& tar_entry_size(self.header@) == Some(self.len)
    }

    /// An entry for a header whose checksum field holds a number other than
    /// zero and whose size fields can be read.
    pub fn new(header: Header) -> (r: Result<Entry, HeaderError>)
        requires
            tar_cksum(header@) != Some(0u32),
        ensures
            r matches Ok(e) ==> e.wf() && e.spec_header() == header && tar_entry_size(header@) == Some(
                e.len_spec(),
            ),
            r is Ok <==> Self::valid_header(header),
            tar_cksum(header@) is None ==> r == Err::<Entry, HeaderError>(HeaderError::InvalidChecksum),
            tar_cksum(header@) is Some && !Self::valid_header(header) ==> r == Err::<
                Entry,
                HeaderError,
            >(HeaderError::InvalidSize),
    {
        match header.cksum() {
            None => {
                return Err(HeaderError::InvalidChecksum);
            },
            Some(_) => {},
        }
        let size = match header.size() {
            Some(s) => s,
            None => {
                return Err(HeaderError::InvalidSize);
            },
        };
        let len = match header.entry_size() {
            Some(s) => s,
            None => {
                return Err(HeaderError::InvalidSize);
            },
        };
        Ok(Entry { header, size, len })
    }

    /// The header of this entry.
    pub fn header(&self) -> (r: &Header)
        ensures
            *r == self.spec_header(),
    {
        &self.header
    }

    /// The file size of this entry.
    pub fn size(&self) -> (r: u64)
        requires
            self.wf(),
        ensures
            Some(r) == tar_size(self.spec_header()@),
    {
        self.size
    }

    /// The number of payload bytes this entry occupies in the archive.
    pub fn len(&self) -> (r: u64)
        requires
            self.wf(),
        ensures
            Some(r) == tar_entry_size(self.spec_header()@),
            r == self.len_spec(),
    {
        self.len
    }

    /// Whether this entry has no payload.
    pub fn is_empty(&self) -> (r: bool)
        requires
            self.wf(),
        ensures
            r == (tar_entry_size(self.spec_header()@) == Some(0u64)),
    {
        self.len == 0
    }

    /// The raw path name of this entry.
    pub fn path(&self) -> (r: Vec<u8>)
        ensures
            r@ == tar_path_bytes(self.spec_header()@),
    {
        self.header.path_bytes()
    }

    /// The path name of this entry as text, with each invalid UTF-8
    /// sequence replaced; only useful for reference.
    pub fn path_lossy(&self) -> (r: String)
        ensures
            r@ == lossy_text(tar_path_bytes(self.spec_header()@)),
    {
        let bytes = self.header.path_bytes();
        utf8_lossy(bytes.as_slice())
    }
}

/// The text that `String::from_utf8_lossy` makes of some bytes.
pub uninterp spec fn lossy_text(b: Seq<u8>) -> Seq<char>;

/// Relies on `String::from_utf8_lossy`: the result depends on the bytes
/// alone.
#[verifier::external_body]
fn utf8_lossy(b: &[u8]) -> (r: String)
    ensures
        r@ == lossy_text(b@),
{
    String::from_utf8_lossy(b).to_string()
}

} // verus!
