//! The write side of an archive: headers, payload, padding and the
//! end-of-archive marker go through the buffer to the sink.
use vstd::prelude::*;

use crate::block::{all_zero, tar_entry_size, Block, Header, BLOCK_SIZE};
use crate::buffer::slice_range;
use crate::slices::{flat, min, pieces_of, IterBuffers, Slices};
use crate::state::{align_of, bufs_view, hdr_view, rh_ok, total_len, Error, State};
use crate::{Archive, ArchiveError, Entry, Step};

verus! {

/// An error while writing an archive.
#[derive(Debug, Clone, Copy, PartialEq, Eq, Structural)]
pub enum WriteError {
    UnexpectedEof { expected: u64, received: u64 },
    /// The sink accepted no bytes while buffered data remained.
    WriteZero,
    /// A new entry was started while another one was being written.
    OverlappingEntry,
}

impl WriteError {
    /// A description of the error.
    pub fn message(&self) -> (r: String)
        ensures
            r@ == match self {
                WriteError::UnexpectedEof { .. } => "expecting more data for entry"@,
                WriteError::WriteZero => "failed to write the buffered data"@,
                WriteError::OverlappingEntry => "cannot write new entry while another is being written"@,
            },
    {
        match self {
            WriteError::UnexpectedEof { .. } => "expecting more data for entry".to_owned(),
            WriteError::WriteZero => "failed to write the buffered data".to_owned(),
            WriteError::OverlappingEntry => "cannot write new entry while another is being written".to_owned(),
        }
    }

    pub open spec fn spec_kind(&self) -> std::io::ErrorKind {
        match self {
            WriteError::UnexpectedEof { .. } => std::io::ErrorKind::UnexpectedEof,
            WriteError::WriteZero => std::io::ErrorKind::WriteZero,
            WriteError::OverlappingEntry => std::io::ErrorKind::Unsupported,
        }
    }

    pub fn kind(&self) -> (r: std::io::ErrorKind)
        ensures
            r == self.spec_kind(),
    {
        match self {
            WriteError::UnexpectedEof { .. } => std::io::ErrorKind::UnexpectedEof,
            WriteError::WriteZero => std::io::ErrorKind::WriteZero,
            WriteError::OverlappingEntry => std::io::ErrorKind::Unsupported,
        }
    }
}

/// How a write of entry payload goes.
#[derive(Debug, Clone, Copy)]
pub struct WritePlan {
    /// The number of bytes to write: as many as are given, up to what is
    /// left of the entry.
    pub len: usize,
    /// Whether the bytes go straight to the sink, unbuffered.
    pub pass_through: bool,
    /// Whether the buffer must be flushed first.
    pub flush_first: bool,
}

/// The state after `n` more of `rem` payload bytes.
pub open spec fn data_after(rem: u64, n: int) -> State {
    if n == rem {
        State::ReceivedData
    } else {
        State::ReceivingData((rem - n) as u64)
    }
}

impl<T> Archive<T> {
    /// The I/O object, with the buffered bytes for it to take.
    pub fn flush_parts(&mut self) -> (r: (&mut T, &[u8]))
        requires
            old(self).wf(),
        ensures
            *r.0 == old(self).spec_io(),
            r.1@ == old(self).buffered_view(),
            final(self).spec_io() == *final(r.0),
            final(self).spec_state() == old(self).spec_state(),
            final(self).spec_buf() == old(self).spec_buf(),
            final(self).head_view() == old(self).head_view(),
    {
        (&mut self.io, self.buf.buffered_bytes())
    }

    /// Records that the sink took the first `n` buffered bytes. A sink that
    /// takes none while bytes remain has failed.
    pub fn commit_flushed(&mut self, n: usize) -> (r: Result<(), WriteError>)
        requires
            old(self).wf(),
            n <= old(self).buffered_view().len(),
        ensures
            final(self).wf(),
            final(self).spec_io() == old(self).spec_io(),
            final(self).spec_state() == old(self).spec_state(),
            r is Err <==> n == 0 && old(self).buffered_view().len() > 0,
            r is Err ==> r == Err::<(), WriteError>(WriteError::WriteZero) && final(self).buffered_view()
                == old(self).buffered_view(),
            r is Ok ==> final(self).buffered_view() == old(self).buffered_view().skip(n as int),
    {
        if n == 0 && self.buf.buffered_bytes().len() > 0 {
            return Err(WriteError::WriteZero);
        }
        self.buf.consume(n);
        Ok(())
    }

    /// Whether the writer takes vectored writes.
    pub fn is_write_vectored(&self) -> (r: bool)
        ensures
            r,
    {
        true
    }

    /// Copies `data` into the buffer and advances the state over it, after
    /// checking that the state machine accepts all of it. Returns
    /// [`Step::Pending`] when the buffer must be flushed to make room.
    fn poll_write_data(&mut self, data: &[u8], header: Option<&Header>) -> (r: Result<
        Step<usize>,
        ArchiveError,
    >)
        requires
            old(self).wf(),
            data@.len() <= BLOCK_SIZE,
            old(self).spec_state().run_slices(seq![data@], hdr_view(header), false) matches Ok((_, n))
                && n == data@.len(),
        ensures
            final(self).wf(),
            final(self).spec_io() == old(self).spec_io(),
            final(self).head_view() == old(self).head_view(),
            r is Ok,
            r matches Ok(Step::Pending) ==> final(self).spec_state() == old(self).spec_state()
                && final(self).buffered_view() == old(self).buffered_view()
                && old(self).buffered_view().len() > 0
                && data@.len() > old(self).spec_buf().free()
                && final(self).spec_buf() == old(self).spec_buf(),
            r matches Ok(Step::Ready(n)) ==> n == data@.len() && final(self).buffered_view() == old(self).buffered_view() + data@ && old(self).spec_state().run_slices(
                seq![data@],
                hdr_view(header),
                false,
            ) == Ok::<(State, nat), Error>((final(self).spec_state(), n as nat)),
    {
        let slices = [data];
        proof {
            assert(bufs_view(slices@) =~= seq![data@]);
            assert(total_len(seq![data@]) == data@.len()) by {
                assert(seq![data@].drop_first() =~= Seq::<Seq<u8>>::empty());
                assert(total_len(Seq::<Seq<u8>>::empty()) == 0);
            }
            self.state.lemma_run_slices_rh(seq![data@], hdr_view(header), false);
        }
        let (next, _) = match self.state.take_slices(slices.as_slice(), header) {
            Ok(x) => x,
            Err(_) => {
                proof {
                    assert(false);
                }
                return Ok(Step::Pending);
            },
        };
        if data.len() > self.buf.remaining() && self.buf.buffered_bytes().len() > 0 {
            return Ok(Step::Pending);
        }
        let n = self.buf.fill(data);
        proof {
            assert(data@.take(n as int) =~= data@);
        }
        self.state = next;
        Ok(Step::Ready(n))
    }

    /// Writes the header block of a new entry, or what is left of it, and
    /// steps into its payload. Fails while another entry's payload or
    /// padding is being written. Returns [`Step::Pending`] when the buffer
    /// must be flushed first.
    pub fn poll_write_header(&mut self, header: &Header) -> (r: Result<Step<()>, ArchiveError>)
        requires
            old(self).wf(),
            old(self).spec_state() is ExpectingHeader ==> !all_zero(header@),
            !(old(self).spec_state() matches State::ReceivingHeader(_, true)
                || old(self).spec_state() is ReceivingEof || old(self).spec_state() is ReceivedEof),
        ensures
            final(self).wf(),
            final(self).spec_io() == old(self).spec_io(),
            r == Err::<Step<()>, ArchiveError>(ArchiveError::Write(WriteError::OverlappingEntry))
                <==> overlapping(old(self).spec_state()),
            overlapping(old(self).spec_state()) ==> final(self).spec_state() == old(self).spec_state()
                && final(self).buffered_view() == old(self).buffered_view(),
            !overlapping(old(self).spec_state()) && tar_entry_size(header@) is Some ==> r is Ok,
            r matches Ok(Step::Ready(_)) ==> tar_entry_size(header@) matches Some(size)
                && final(self).spec_state() == State::ReceivingData(size)
                && final(self).buffered_view() == old(self).buffered_view() + header_owed(
                old(self).spec_state(),
                header@,
            ),
            r matches Ok(Step::Pending) ==> final(self).spec_state() == old(self).spec_state()
                && final(self).buffered_view() == old(self).buffered_view()
                && old(self).buffered_view().len() > 0
                && header_owed(old(self).spec_state(), header@).len() > old(self).spec_buf().free(),
            r matches Err(e) ==> e == ArchiveError::Write(WriteError::OverlappingEntry) || (e
                == ArchiveError::Stream(Error::InvalidHeader) && tar_entry_size(header@) is None),
    {
        proof {
            Header::lemma_len(*header);
        }
        match self.state {
            State::ReceivingData(_) | State::ReceivedData | State::AligningData(_)
            | State::AlignedData => {
                return Err(ArchiveError::Write(WriteError::OverlappingEntry));
            },
            State::ExpectingHeader => {
                proof {
                    lemma_header_run(header@);
                    assert(header@.skip(0) =~= header@);
                }
                match self.poll_write_data(header.as_bytes().as_slice(), Some(header)) {
                    Ok(Step::Pending) => {
                        return Ok(Step::Pending);
                    },
                    _ => {},
                }
            },
            State::ReceivingHeader(rem, _) => {
                let tail = slice_range(header.as_bytes().as_slice(), BLOCK_SIZE - rem, BLOCK_SIZE);
                proof {
                    assert(tail@ =~= header@.skip(BLOCK_SIZE - rem));
                    lemma_header_tail_run(rem as int, header@);
                }
                match self.poll_write_data(tail, Some(header)) {
                    Ok(Step::Pending) => {
                        return Ok(Step::Pending);
                    },
                    _ => {},
                }
            },
            _ => {
                proof {
                    assert(old(self).buffered_view() + header_owed(old(self).spec_state(), header@)
                        =~= old(self).buffered_view());
                }
            },
        }
        match self.state.take_marker(Some(header)) {
            Ok(()) => Ok(Step::Ready(())),
            Err(e) => Err(ArchiveError::Stream(e)),
        }
    }

    /// What a payload write of `bufs` to the current entry does: how many
    /// bytes it takes, whether they bypass the buffer, and whether the buffer
    /// must be flushed first.
    pub fn plan_write_entry(&self, bufs: &[&[u8]], vectored: bool) -> (r: WritePlan)
        requires
            self.wf(),
            self.spec_state() is ReceivingData,
            flat(pieces_of(bufs@)).len() <= usize::MAX,
        ensures
            r.len == min(flat(pieces_of(bufs@)).len() as int, self.spec_state()->ReceivingData_0 as int),
            r.pass_through == (r.len >= self.spec_buf().storage().len() && vectored),
            r.flush_first == ((r.pass_through || r.len > self.spec_buf().free())
                && self.buffered_view().len() > 0),
    {
        let rem = match self.state {
            State::ReceivingData(rem) => rem,
            _ => 0,
        };
        let n_slices = bufs.len();
        assert(pieces_of(bufs@).len() == n_slices);
        let total = bufs.bytes_len();
        let len = if (total as u64) < rem {
            total
        } else {
            rem as usize
        };
        let pass_through = len >= self.buf.capacity() && vectored;
        let flush_first = (pass_through || len > self.buf.remaining()) && self.buf.buffered_bytes().len() > 0;
        WritePlan { len, pass_through, flush_first }
    }

    /// Advances the state over `n` payload bytes that were written.
    pub fn commit_entry_data(&mut self, entry: &Entry, n: usize)
        requires
            old(self).wf(),
            old(self).spec_state() matches State::ReceivingData(rem) && n <= rem,
        ensures
            final(self).wf(),
            final(self).spec_io() == old(self).spec_io(),
            final(self).spec_buf() == old(self).spec_buf(),
            final(self).head_view() == old(self).head_view(),
            final(self).spec_state() == data_after(old(self).spec_state()->ReceivingData_0, n as int),
            forall|b: Seq<u8>|
                b.len() == n ==> #[trigger] old(self).spec_state().step(b, None) == Ok::<
                    (State, nat),
                    Error,
                >((final(self).spec_state(), n as nat)),
    {
        match self.state {
            State::ReceivingData(rem) => {
                self.state = if n as u64 == rem {
                    State::ReceivedData
                } else {
                    State::ReceivingData(rem - n as u64)
                };
            },
            _ => {},
        }
    }

    /// Copies the payload bytes of `bufs`, up to what is left of the entry,
    /// into the buffer as far as it has room, and advances the state over
    /// them; returns the number of bytes copied.
    pub fn write_entry_buffered(&mut self, entry: &Entry, bufs: &[&[u8]]) -> (n: usize)
        requires
            old(self).wf(),
            old(self).spec_state() is ReceivingData,
        ensures
            final(self).wf(),
            final(self).spec_io() == old(self).spec_io(),
            n == min(
                min(flat(pieces_of(bufs@)).len() as int, old(self).spec_state()->ReceivingData_0 as int),
                old(self).spec_buf().free() as int,
            ),
            final(self).buffered_view() == old(self).buffered_view() + flat(pieces_of(bufs@)).take(
                n as int,
            ),
            final(self).spec_state() == data_after(old(self).spec_state()->ReceivingData_0, n as int),
    {
        let rem = match self.state {
            State::ReceivingData(rem) => rem,
            _ => 0,
        };
        let max = if rem > usize::MAX as u64 {
            usize::MAX
        } else {
            rem as usize
        };
        let n_slices = bufs.len();
        assert(pieces_of(bufs@).len() == n_slices);
        let prefix = bufs.take_prefix(max);
        let vs = prefix.iter_buffers();
        let ghost stream = flat(pieces_of(vs@));
        let ghost free0 = self.buf.free();
        let mut n: usize = 0;
        let mut i: usize = 0;
        while i < vs.len()
            invariant
                self.wf(),
                self.state == old(self).state,
                self.io == old(self).io,
                self.head == old(self).head,
                stream == flat(pieces_of(vs@)),
                free0 == old(self).spec_buf().free(),
                i <= vs@.len(),
                n == min(flat(pieces_of(vs@).take(i as int)).len() as int, free0 as int),
                self.spec_buf().free() == free0 - n,
                self.buffered_view() == old(self).buffered_view() + flat(pieces_of(vs@).take(i as int)).take(
                    n as int,
                ),
            decreases vs@.len() - i,
        {
            let ghost before = flat(pieces_of(vs@).take(i as int));
            proof {
                crate::slices::lemma_flat_take_step(pieces_of(vs@), i as int);
            }
            let k = self.buf.fill(vs[i]);
            proof {
                let piece = pieces_of(vs@)[i as int];
                assert(piece == vs@[i as int]@);
                assert(flat(pieces_of(vs@).take(i + 1)) == before + piece);
                assert((before + piece).take(n + k) =~= before.take(n as int) + piece.take(k as int));
            }
            n = n + k;
            i = i + 1;
        }
        proof {
            assert(pieces_of(vs@).take(i as int) =~= pieces_of(vs@));
            crate::slices::lemma_flat_take_step(pieces_of(vs@), 0);
            assert(flat(pieces_of(bufs@)).take(n as int) =~= stream.take(n as int));
        }
        self.commit_entry_data(entry, n);
        n
    }

    /// Writes the zero padding that ends the entry's payload, and steps to
    /// where the next header may begin. Returns [`Step::Pending`] when the
    /// buffer must be flushed first.
    pub fn poll_finish_entry(&mut self, entry: &Entry) -> (r: Result<Step<()>, ArchiveError>)
        requires
            old(self).wf(),
            entry.wf(),
            old(self).spec_state() is ReceivedData || old(self).spec_state() is AligningData
                || old(self).spec_state() is AlignedData || old(self).spec_state() is ExpectingHeader
                || old(self).spec_state() == State::ReceivingData(0),
        ensures
            final(self).wf(),
            final(self).spec_io() == old(self).spec_io(),
            r is Ok,
            r matches Ok(Step::Ready(_)) ==> final(self).spec_state() == State::ExpectingHeader
                && final(self).buffered_view() == old(self).buffered_view() + zeros(
                pad_owed(old(self).spec_state(), entry.len_spec()),
            ),
            r matches Ok(Step::Pending) ==> final(self).spec_state() matches State::AligningData(k)
                && k == pad_owed(old(self).spec_state(), entry.len_spec())
                && final(self).spec_buf().free() < k
                && final(self).buffered_view() == old(self).buffered_view()
                && final(self).buffered_view().len() > 0,
    {
        let header = entry.header();
        let ghost hdr = Some(entry.spec_header()@);
        let ghost owed = pad_owed(self.spec_state(), entry.len_spec());
        let ghost start = self.buffered_view();
        proof {
            assert(start + zeros(0) =~= start);
        }
        loop
            invariant
                self.wf(),
                entry.wf(),
                hdr == Some(entry.spec_header()@),
                *header == entry.spec_header(),
                self.spec_io() == old(self).spec_io(),
                owed == pad_owed(old(self).spec_state(), entry.len_spec()),
                start == old(self).buffered_view(),
                start + zeros(0) == start,
                self.spec_state() is ReceivedData || self.spec_state() is AligningData
                    || self.spec_state() is AlignedData || self.spec_state() is ExpectingHeader
                    || self.spec_state() == State::ReceivingData(0),
                self.spec_state() is ReceivedData || self.spec_state() is ReceivingData
                    ==> pad_owed(self.spec_state(), entry.len_spec()) == owed
                    && self.buffered_view() == start,
                self.spec_state() matches State::AligningData(k) ==> k == owed
                    && self.buffered_view() == start,
                self.spec_state() is AlignedData || self.spec_state() is ExpectingHeader
                    ==> self.buffered_view() == start + zeros(owed),
            decreases self.spec_state().rank(),
        {
            match self.state {
                State::ReceivingData(_) => {
                    let empty: &[u8] = &[];
                    proof {
                        assert(empty@ =~= Seq::<u8>::empty());
                    }
                    match self.state.next(empty, Some(header)) {
                        Ok((s, _)) => {
                            self.state = s;
                        },
                        Err(_) => {
                            proof {
                                assert(false);
                            }
                        },
                    }
                },
                State::ReceivedData => {
                    match self.state.take_marker(Some(header)) {
                        Ok(()) => {},
                        Err(_) => {
                            proof {
                                assert(false);
                            }
                            return Ok(Step::Pending);
                        },
                    }
                },
                State::AligningData(rem) => {
                    let zero = Block::empty();
                    let pad = slice_range(zero.as_bytes(), 0, rem);
                    proof {
                        assert(pad@ =~= zeros(rem as int));
                        lemma_zeros_run(self.state, pad@, hdr);
                    }
                    match self.poll_write_data(pad, Some(header)) {
                        Ok(Step::Pending) => {
                            return Ok(Step::Pending);
                        },
                        _ => {},
                    }
                },
                State::AlignedData => {
                    match self.state.take_marker(None) {
                        Ok(()) => {},
                        Err(_) => {
                            proof {
                                assert(false);
                            }
                        },
                    }
                    return Ok(Step::Ready(()));
                },
                _ => {
                    return Ok(Step::Ready(()));
                },
            }
        }
    }

    /// Writes the two empty blocks that end the archive, or what is left of
    /// them. Returns [`Step::Pending`] when the buffer must be flushed first;
    /// once the marker is complete, nothing more is written.
    pub fn poll_finish(&mut self) -> (r: Result<Step<()>, ArchiveError>)
        requires
            old(self).wf(),
            finishing(old(self).spec_state()),
        ensures
            final(self).wf(),
            final(self).spec_io() == old(self).spec_io(),
            r is Ok,
            finishing(final(self).spec_state()),
            eof_owed(final(self).spec_state()) <= eof_owed(old(self).spec_state()),
            final(self).buffered_view() == old(self).buffered_view() + zeros(
                eof_owed(old(self).spec_state()) - eof_owed(final(self).spec_state()),
            ),
            r matches Ok(Step::Ready(_)) ==> final(self).spec_state() is ReceivedEof,
            r matches Ok(Step::Pending) ==> final(self).buffered_view().len() > 0
                && eof_chunk(final(self).spec_state()) > final(self).spec_buf().free()
                && !(final(self).spec_state() is ReceivedEof),
    {
        let ghost start = self.buffered_view();
        let ghost owed = eof_owed(self.spec_state());
        proof {
            assert(start + zeros(0) =~= start);
        }
        loop
            invariant
                self.wf(),
                self.spec_io() == old(self).spec_io(),
                finishing(self.spec_state()),
                start == old(self).buffered_view(),
                owed == eof_owed(old(self).spec_state()),
                eof_owed(self.spec_state()) <= owed,
                self.buffered_view() == start + zeros(owed - eof_owed(self.spec_state())),
            decreases finish_rank(self.spec_state()),
        {
            let zero = Block::empty();
            let ghost before = self.buffered_view();
            match self.state {
                State::ExpectingHeader => {
                    let block = zero.as_bytes();
                    proof {
                        assert(block@ =~= zeros(BLOCK_SIZE as int));
                        lemma_zeros_run(self.state, block@, None);
                    }
                    match self.poll_write_data(block, None) {
                        Ok(Step::Pending) => {
                            return Ok(Step::Pending);
                        },
                        _ => {},
                    }
                    proof {
                        assert(zeros(owed - 2 * BLOCK_SIZE) + zeros(BLOCK_SIZE as int) =~= zeros(
                            owed - BLOCK_SIZE,
                        ));
                    }
                },
                State::ReceivingHeader(rem, _) | State::ReceivingEof(rem) => {
                    let pad = slice_range(zero.as_bytes(), 0, rem);
                    proof {
                        assert(pad@ =~= zeros(rem as int));
                        lemma_zeros_run(self.state, pad@, None);
                    }
                    let ghost prev = eof_owed(self.spec_state());
                    match self.poll_write_data(pad, None) {
                        Ok(Step::Pending) => {
                            return Ok(Step::Pending);
                        },
                        _ => {},
                    }
                    proof {
                        assert(zeros(owed - prev) + zeros(rem as int) =~= zeros(
                            owed - eof_owed(self.spec_state()),
                        ));
                    }
                },
                _ => {
                    return Ok(Step::Ready(()));
                },
            }
        }
    }
}

/// `n` zero bytes.
pub open spec fn zeros(n: int) -> Seq<u8> {
    Seq::new(n as nat, |i: int| 0u8)
}

/// The padding still owed after an entry's payload from a state, for an
/// entry of `len` payload bytes.
pub open spec fn pad_owed(s: State, len: u64) -> int {
    match s {
        State::ReceivingData(_) => align_of(len),
        State::ReceivedData => align_of(len),
        State::AligningData(k) => k as int,
        _ => 0,
    }
}

/// The states from which the end of the archive can be written.
pub open spec fn finishing(s: State) -> bool {
    s is ExpectingHeader || s matches State::ReceivingHeader(_, true) || s is ReceivingEof
        || s is ReceivedEof
}

/// The zero bytes still owed to the end-of-archive marker from a state.
pub open spec fn eof_owed(s: State) -> int {
    match s {
        State::ExpectingHeader => 2 * BLOCK_SIZE,
        State::ReceivingHeader(rem, _) => rem + BLOCK_SIZE,
        State::ReceivingEof(rem) => rem as int,
        _ => 0,
    }
}

/// The zero bytes written in one go from a state while finishing.
pub open spec fn eof_chunk(s: State) -> int {
    match s {
        State::ExpectingHeader => BLOCK_SIZE as int,
        State::ReceivingHeader(rem, _) => rem as int,
        State::ReceivingEof(rem) => rem as int,
        _ => 0,
    }
}

/// Whether a state is within the payload or padding of an entry.
pub open spec fn overlapping(s: State) -> bool {
    s is ReceivingData || s is ReceivedData || s is AligningData || s is AlignedData
}

/// The header bytes still to be written from a state.
pub open spec fn header_owed(s: State, h: Seq<u8>) -> Seq<u8> {
    match s {
        State::ExpectingHeader => h,
        State::ReceivingHeader(rem, _) => h.skip(BLOCK_SIZE - rem),
        _ => Seq::empty(),
    }
}

/// Writing the rest of a header block that has a non-zero byte already
/// written receives a header.
pub proof fn lemma_header_tail_run(rem: int, h: Seq<u8>)
    requires
        h.len() == BLOCK_SIZE,
        1 <= rem <= BLOCK_SIZE,
    ensures
        State::ReceivingHeader(rem as usize, false).run_slices(
            seq![h.skip(BLOCK_SIZE - rem)],
            Some(h),
            false,
        ) == Ok::<(State, nat), Error>((State::ReceivedHeader, rem as nat)),
{
    let st = State::ReceivingHeader(rem as usize, false);
    let t = h.skip(BLOCK_SIZE - rem);
    assert(t.take(rem) =~= t);
    assert(st.step(t, Some(h)) == Ok::<(State, nat), Error>((State::ReceivedHeader, rem as nat)));
    assert(crate::state::stops().contains(State::ReceivedHeader)) by {
        assert(crate::state::stops()[0] == State::ReceivedHeader);
    }
    assert(st.run_until(crate::state::stops(), t, Some(h)) == Ok::<(State, nat), Error>(
        (State::ReceivedHeader, rem as nat),
    ));
    assert(seq![t][0] == t);
}

/// Orders the states that finishing an archive passes through.
pub open spec fn finish_rank(s: State) -> int {
    match s {
        State::ExpectingHeader => 3,
        State::ReceivingHeader(_, _) => 2,
        State::ReceivingEof(_) => 1,
        _ => 0,
    }
}

/// Writing a whole header block that is not all zero, from the start of a
/// header, receives a header.
pub proof fn lemma_header_run(h: Seq<u8>)
    requires
        h.len() == BLOCK_SIZE,
        !all_zero(h),
    ensures
        State::ExpectingHeader.run_slices(seq![h], Some(h), false) == Ok::<(State, nat), Error>(
            (State::ReceivedHeader, BLOCK_SIZE as nat),
        ),
{
    let st = State::ReceivingHeader(BLOCK_SIZE, true);
    assert(h.take(BLOCK_SIZE as int) =~= h);
    assert(h.skip(0) =~= h);
    assert(st.step(h, Some(h)) == Ok::<(State, nat), Error>((State::ReceivedHeader, BLOCK_SIZE as nat)));
    assert(crate::state::stops().contains(State::ReceivedHeader)) by {
        assert(crate::state::stops()[0] == State::ReceivedHeader);
    }
    assert(st.run_until(crate::state::stops(), h, Some(h)) == Ok::<(State, nat), Error>(
        (State::ReceivedHeader, BLOCK_SIZE as nat),
    ));
    assert(State::ExpectingHeader.run_until(crate::state::stops(), h, Some(h)) == Ok::<
        (State, nat),
        Error,
    >((State::ReceivedHeader, BLOCK_SIZE as nat)));
    assert(seq![h][0] == h);
}

/// Writing zeros to the end of padding or of an empty block is accepted
/// whole, and reaches the boundary that follows.
pub proof fn lemma_zeros_run(st: State, z: Seq<u8>, hdr: Option<Seq<u8>>)
    requires
        all_zero(z),
        rh_ok(st),
        st matches State::AligningData(rem) ==> z.len() == rem,
        st matches State::ReceivingEof(rem) ==> z.len() == rem,
        st matches State::ReceivingHeader(rem, zz) ==> z.len() == rem && zz,
        st is ExpectingHeader ==> z.len() == BLOCK_SIZE,
        st is AligningData || st is ReceivingEof || st is ReceivingHeader || st is ExpectingHeader,
    ensures
        st.run_slices(seq![z], hdr, false) == Ok::<(State, nat), Error>(
            (
                match st {
                    State::AligningData(_) => State::AlignedData,
                    State::ReceivingEof(_) => State::ReceivedEof,
                    _ => State::ReceivingEof(BLOCK_SIZE),
                },
                z.len(),
            ),
        ),
{
    let one = seq![z];
    assert(one[0] == z);
    assert(one.drop_first() =~= Seq::<Seq<u8>>::empty());
    assert(z.take(z.len() as int) =~= z);
    assert(crate::state::stops().contains(State::ReceivedEof)) by {
        assert(crate::state::stops()[1] == State::ReceivedEof);
    }
    let target = match st {
        State::AligningData(_) => State::AlignedData,
        State::ReceivingEof(_) => State::ReceivedEof,
        _ => State::ReceivingEof(BLOCK_SIZE),
    };
    if st is ExpectingHeader {
        let rh = State::ReceivingHeader(BLOCK_SIZE, true);
        assert(z.skip(0) =~= z);
        assert(rh.step(z, hdr) == Ok::<(State, nat), Error>((target, z.len())));
        assert(rh.run_until(crate::state::stops(), z, hdr) == Ok::<(State, nat), Error>(
            (target, z.len()),
        ));
    } else {
        assert(st.step(z, hdr) == Ok::<(State, nat), Error>((target, z.len())));
    }
    assert(st.run_until(crate::state::stops(), z, hdr) == Ok::<(State, nat), Error>(
        (target, z.len()),
    ));
    if z.len() > 0 {
        assert(target.run_slices(Seq::empty(), hdr, true) == Ok::<(State, nat), Error>((target, 0)));
    } else {
        assert(z =~= Seq::<u8>::empty());
        assert(st.run_slices(Seq::empty(), hdr, false) == st.run_until(
            crate::state::stops(),
            Seq::empty(),
            hdr,
        ));
    }
}

} // verus!
