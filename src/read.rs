//! The read side of an archive: the source fills the buffer, and the state
//! machine classifies what it holds.
use vstd::prelude::*;

use crate::block::{checksum_of, tar_cksum, tar_entry_size, tar_size, Block, BLOCK_SIZE};
use crate::buffer::{slice_range, ReadableRegion};
use crate::state::{hdr_view, rh_ok, settle, settles, shift, Error, State};
use crate::{Archive, ArchiveError, Entry, Step};

verus! {

/// An error while reading an archive.
#[derive(Debug, Clone, Copy, PartialEq, Eq, Structural)]
pub enum ReadError {
    /// The source ended before the end-of-archive marker: `expected` more
    /// bytes were awaited by the current part of the stream, `received` of
    /// them arrived.
    UnexpectedEof { expected: usize, received: usize },
}

impl ReadError {
    /// A description of the error; the byte counts are in its fields.
    pub fn message(&self) -> (r: String)
        ensures
            r@ == "expecting more data for entry"@,
    {
        "expecting more data for entry".to_owned()
    }

    pub open spec fn spec_kind(&self) -> std::io::ErrorKind {
        std::io::ErrorKind::UnexpectedEof
    }

    pub fn kind(&self) -> (r: std::io::ErrorKind)
        ensures
            r == self.spec_kind(),
    {
        match self {
            ReadError::UnexpectedEof { .. } => std::io::ErrorKind::UnexpectedEof,
        }
    }
}

/// The number of bytes that the current part of the stream still awaits.
pub open spec fn pending(s: State) -> int {
    match s {
        State::ReceivingHeader(rem, _) => rem as int,
        State::ReceivingData(rem) => if rem > usize::MAX {
            usize::MAX as int
        } else {
            rem as int
        },
        State::AligningData(rem) => rem as int,
        State::ReceivingEof(rem) => rem as int,
        State::ExpectingHeader => BLOCK_SIZE as int,
        _ => 0,
    }
}

impl<T> Archive<T> {
    /// Whether the state is outside the payload of an entry, where the next
    /// entry may be looked for.
    pub open spec fn between_entries(&self) -> bool {
        !(self.spec_state() is ReceivedHeader || self.spec_state() is ReceivingData
            || self.spec_state() is ReceivedData)
    }

    /// Whether the state is within the payload or padding of an entry.
    pub open spec fn within_entry(&self) -> bool {
        self.spec_state() is ReceivingData || self.spec_state() is AligningData
    }

    /// Whether the buffer must be filled before the next step: it is only
    /// filled once all of it is consumed.
    pub fn needs_fill(&self) -> (r: bool)
        requires
            self.wf(),
        ensures
            r == (self.buffered_view().len() == 0),
    {
        self.buf.buffered_bytes().len() == 0
    }

    /// The I/O object, with the free tail of the buffer for it to fill.
    pub fn fill_parts(&mut self) -> (r: (&mut T, &mut [u8]))
        requires
            old(self).wf(),
        ensures
            *r.0 == old(self).spec_io(),
            r.1@ == old(self).spec_buf().storage().skip(old(self).spec_buf().write_pos() as int),
            final(self).spec_io() == *final(r.0),
            final(self).spec_buf().storage() == old(self).spec_buf().storage().take(
                old(self).spec_buf().write_pos() as int,
            ) + final(r.1)@,
            final(self).spec_buf().read_pos() == old(self).spec_buf().read_pos(),
            final(self).spec_buf().write_pos() == old(self).spec_buf().write_pos(),
            final(self).spec_state() == old(self).spec_state(),
            final(self).head_view() == old(self).head_view(),
    {
        (&mut self.io, self.buf.available_bytes_mut())
    }

    /// Records that the source put `n` bytes into the free tail of the
    /// buffer. A source that puts none has ended: that is only expected at
    /// the end of the archive.
    pub fn commit_fill(&mut self, n: usize) -> (r: Result<(), ReadError>)
        requires
            old(self).wf(),
            old(self).buffered_view().len() == 0,
            n <= old(self).spec_buf().free(),
        ensures
            final(self).wf(),
            final(self).spec_state() == old(self).spec_state(),
            r is Err <==> n == 0 && !old(self).spec_state().spec_is_terminal(),
            r is Err ==> r == Err::<(), ReadError>(
                ReadError::UnexpectedEof { expected: pending(old(self).spec_state()) as usize, received: 0 },
            ),
            r is Ok ==> final(self).buffered_view() == old(self).spec_buf().storage().take(n as int),
    {
        if n == 0 && !self.state.is_terminal() {
            return Err(ReadError::UnexpectedEof { expected: self.pending(), received: 0 });
        }
        self.buf.commit_filled(n);
        assert(self.buffered_view() =~= old(self).spec_buf().storage().take(n as int));
        Ok(())
    }

    fn pending(&self) -> (r: usize)
        ensures
            r == pending(self.spec_state()),
    {
        match self.state {
            State::ReceivingHeader(rem, _) => rem,
            State::ReceivingData(rem) => if rem > usize::MAX as u64 {
                usize::MAX
            } else {
                rem as usize
            },
            State::AligningData(rem) => rem,
            State::ReceivingEof(rem) => rem,
            State::ExpectingHeader => BLOCK_SIZE,
            _ => 0,
        }
    }

    /// Consumes `amt` buffered bytes, advancing the state over exactly those
    /// bytes and then across a marker or an exhausted field that it lands on.
    fn consume(&mut self, amt: usize, header: Option<&crate::Header>)
        requires
            old(self).wf(),
            amt <= old(self).buffered_view().len(),
            old(self).spec_state().run_slices(
                seq![old(self).buffered_view().take(amt as int)],
                hdr_view(header),
                false,
            ) matches Ok((s, n)) && n == amt && settle(s, hdr_view(header)) is Ok,
        ensures
            final(self).wf(),
            old(self).spec_state().run_slices(
                seq![old(self).buffered_view().take(amt as int)],
                hdr_view(header),
                false,
            ) matches Ok((s, _)) && settle(s, hdr_view(header)) == Ok::<State, Error>(
                final(self).spec_state(),
            ),
            final(self).buffered_view() == old(self).buffered_view().skip(amt as int),
            final(self).head_view() == old(self).head_view(),
            final(self).spec_io() == old(self).spec_io(),
            final(self).spec_buf().storage() == old(self).spec_buf().storage(),
    {
        let ghost hdr = hdr_view(header);
        let bytes = slice_range(self.buf.buffered_bytes(), 0, amt);
        let slices = [bytes];
        proof {
            assert(crate::state::bufs_view(slices@) =~= seq![old(self).buffered_view().take(amt as int)]);
            assert(crate::state::total_len(seq![bytes@]) == amt) by {
                assert(seq![bytes@].drop_first() =~= Seq::<Seq<u8>>::empty());
                assert(crate::state::total_len(Seq::<Seq<u8>>::empty()) == 0);
                assert(bytes@.len() == amt);
            }
            self.state.lemma_run_slices_rh(crate::state::bufs_view(slices@), hdr, false);
        }
        let (state, pos) = match self.state.take_slices(slices.as_slice(), header) {
            Ok(x) => x,
            Err(_) => {
                proof {
                    assert(false);
                }
                return ;
            },
        };
        let state = if settles_exec(&state) {
            proof {
                state.lemma_settle(hdr);
            }
            let empty: &[u8] = &[];
            proof {
                assert(empty@ =~= Seq::<u8>::empty());
            }
            match state.next(empty, header) {
                Ok((s, _)) => s,
                Err(_) => {
                    proof {
                        assert(false);
                    }
                    return ;
                },
            }
        } else {
            state
        };
        self.state = state;
        self.buf.consume(amt);
    }

    /// Returns the entry's payload bytes at the front of the buffer, or an
    /// empty slice once the payload and its padding are consumed. Padding is
    /// consumed on the way. Returns [`Step::Pending`] when the buffer must be
    /// filled first. Cannot fail on a valid entry.
    pub fn poll_read_entry(&mut self, entry: &Entry) -> (r: Result<Step<&[u8]>, ArchiveError>)
        requires
            old(self).wf(),
            old(self).within_entry(),
            entry.wf(),
        ensures
            final(self).wf(),
            final(self).spec_io() == old(self).spec_io(),
            final(self).buffered_view().len() <= old(self).buffered_view().len(),
            final(self).buffered_view() == old(self).buffered_view().skip(
                old(self).buffered_view().len() - final(self).buffered_view().len(),
            ),
            entry_owed(final(self).spec_state(), entry.len_spec()) + old(self).buffered_view().len()
                - final(self).buffered_view().len() == entry_owed(old(self).spec_state(), entry.len_spec()),
            r is Ok,
            r matches Ok(Step::Pending) ==> final(self).buffered_view().len() == 0
                && final(self).within_entry(),
            r matches Ok(Step::Ready(b)) ==> (b@.len() == 0 <==> final(self).spec_state()
                == State::ExpectingHeader),
            r matches Ok(Step::Ready(b)) ==> b@.len() > 0 ==> (final(self).spec_state() matches State::ReceivingData(rem)
                && b@.len() <= rem && b@.len() <= final(self).buffered_view().len()
                && b@ == final(self).buffered_view().take(b@.len() as int)),
            old(self).spec_state() matches State::ReceivingData(rem) && rem > 0 ==> final(self).spec_state()
                == old(self).spec_state() && final(self).buffered_view() == old(self).buffered_view(),
            old(self).spec_state() is ReceivingData && old(self).spec_state()->ReceivingData_0 > 0
                && old(self).buffered_view().len() > 0 ==> (r matches Ok(Step::Ready(b)) && b@
                == old(self).buffered_view().take(
                crate::slices::min(
                    old(self).spec_state()->ReceivingData_0 as int,
                    old(self).buffered_view().len() as int,
                ),
            )),
    {
        let ghost hdr = Some(entry.spec_header()@);
        loop
            invariant
                self.wf(),
                self.within_entry(),
                entry.wf(),
                hdr == Some(entry.spec_header()@),
                self.spec_io() == old(self).spec_io(),
                self.buffered_view().len() <= old(self).buffered_view().len(),
                self.buffered_view() == old(self).buffered_view().skip(
                    old(self).buffered_view().len() - self.buffered_view().len(),
                ),
                entry_owed(self.spec_state(), entry.len_spec()) + old(self).buffered_view().len()
                    - self.buffered_view().len() == entry_owed(old(self).spec_state(), entry.len_spec()),
                old(self).spec_state() matches State::ReceivingData(rem) && rem > 0 ==> self.spec_state()
                    == old(self).spec_state() && self.buffered_view() == old(self).buffered_view(),
            decreases 16 * self.buffered_view().len() + self.spec_state().rank(),
        {
            if self.needs_fill() {
                return Ok(Step::Pending);
            }
            let ghost st = self.state;
            let ghost buf = self.buffered_view();
            proof {
                st.lemma_step_progress(buf, hdr);
                st.lemma_single_slice(buf, hdr);
                st.lemma_single_slice(buf, None);
            }
            let header = entry.header();
            let (state, amt) = match self.state.next(self.buf.buffered_bytes(), Some(header)) {
                Ok(x) => x,
                Err(_) => {
                    proof {
                        assert(false);
                    }
                    return Ok(Step::Pending);
                },
            };
            proof {
                state.lemma_settle(hdr);
                state.lemma_settle(None);
            }
            match state {
                State::ReceivingData(_) => {
                    return Ok(Step::Ready(slice_range(self.buf.buffered_bytes(), 0, amt)));
                },
                State::ReceivedData => {
                    if amt > 0 {
                        return Ok(Step::Ready(slice_range(self.buf.buffered_bytes(), 0, amt)));
                    }
                    self.consume(amt, Some(header));
                },
                State::AligningData(_) => {
                    self.consume(amt, None);
                },
                State::AlignedData => {
                    self.consume(amt, Some(header));
                    let empty: &[u8] = &[];
                    return Ok(Step::Ready(empty));
                },
                _ => {
                    proof {
                        assert(false);
                    }
                    return Ok(Step::Pending);
                },
            }
        }
    }

    /// Consumes `amt` payload bytes of the entry, as returned by
    /// [`Archive::poll_read_entry`].
    pub fn consume_entry(&mut self, entry: &Entry, amt: usize)
        requires
            old(self).wf(),
            entry.wf(),
            old(self).spec_state() matches State::ReceivingData(rem) && amt <= rem,
            amt <= old(self).buffered_view().len(),
        ensures
            final(self).wf(),
            final(self).spec_io() == old(self).spec_io(),
            final(self).buffered_view() == old(self).buffered_view().skip(amt as int),
            old(self).spec_state() matches State::ReceivingData(rem) && (amt < rem
                ==> final(self).spec_state() == State::ReceivingData((rem - amt) as u64)),
            old(self).spec_state() matches State::ReceivingData(rem) && (amt == rem
                ==> final(self).spec_state() == State::AligningData(
                crate::state::align_of(entry.len_spec()) as usize,
            )),
    {
        let ghost hdr = Some(entry.spec_header()@);
        let ghost part = self.buffered_view().take(amt as int);
        proof {
            let rem = self.state->ReceivingData_0;
            let next = if amt == rem {
                State::ReceivedData
            } else {
                State::ReceivingData((rem - amt) as u64)
            };
            assert(part.len() == amt);
            assert(self.state.step(part, hdr) == Ok::<(State, nat), Error>((next, amt as nat)));
            if amt > 0 {
                assert(part.take(amt as int) =~= part);
                assert(seq![part.take(amt as int)] =~= seq![part]);
                self.state.lemma_single_slice(part, hdr);
            } else {
                assert(seq![part].drop_first() =~= Seq::<Seq<u8>>::empty());
                assert(part =~= Seq::<u8>::empty());
                assert(seq![part][0].len() == 0);
                assert(self.state.run_until(crate::state::stops(), part, hdr) == Ok::<
                    (State, nat),
                    Error,
                >((next, 0)));
                assert(self.state.run_slices(Seq::empty(), hdr, false) == self.state.run_until(
                    crate::state::stops(),
                    Seq::empty(),
                    hdr,
                ));
            }
            assert(self.state.run_slices(seq![part], hdr, false) == Ok::<(State, nat), Error>(
                (next, amt as nat),
            ));
        }
        self.consume(amt, Some(entry.header()));
    }

    /// Consumes all remaining payload and padding of the entry. Returns
    /// [`Step::Pending`] when the buffer must be filled first.
    pub fn poll_skip_entry(&mut self, entry: &Entry) -> (r: Result<Step<()>, ArchiveError>)
        requires
            old(self).wf(),
            old(self).within_entry(),
            entry.wf(),
        ensures
            final(self).wf(),
            final(self).spec_io() == old(self).spec_io(),
            r is Ok,
            final(self).buffered_view() == old(self).buffered_view().skip(
                old(self).buffered_view().len() - final(self).buffered_view().len(),
            ),
            entry_owed(final(self).spec_state(), entry.len_spec()) + old(self).buffered_view().len()
                - final(self).buffered_view().len() == entry_owed(old(self).spec_state(), entry.len_spec()),
            r matches Ok(Step::Pending) ==> final(self).buffered_view().len() == 0
                && final(self).within_entry(),
            r matches Ok(Step::Ready(_)) ==> final(self).spec_state() == State::ExpectingHeader
                && old(self).buffered_view().len() - final(self).buffered_view().len() == entry_owed(
                old(self).spec_state(),
                entry.len_spec(),
            ),
    {
        loop
            invariant
                self.wf(),
                self.within_entry(),
                entry.wf(),
                self.spec_io() == old(self).spec_io(),
                self.buffered_view().len() <= old(self).buffered_view().len(),
                self.buffered_view() == old(self).buffered_view().skip(
                    old(self).buffered_view().len() - self.buffered_view().len(),
                ),
                entry_owed(self.spec_state(), entry.len_spec()) + old(self).buffered_view().len()
                    - self.buffered_view().len() == entry_owed(old(self).spec_state(), entry.len_spec()),
            decreases self.buffered_view().len(),
        {
            let n = match self.poll_read_entry(entry) {
                Ok(Step::Pending) => {
                    return Ok(Step::Pending);
                },
                Ok(Step::Ready(b)) => b.len(),
                Err(e) => {
                    return Err(e);
                },
            };
            if n == 0 {
                return Ok(Step::Ready(()));
            }
            self.consume_entry(entry, n);
        }
    }

    /// Completes the header block with the `amt` buffered bytes that end it,
    /// validates it, and steps into the entry's payload.
    fn receive_header(&mut self, amt: usize) -> (r: Result<Entry, ArchiveError>)
        requires
            old(self).wf(),
            old(self).buffered_view().len() > 0,
            old(self).spec_state().step(old(self).buffered_view(), None) == Ok::<(State, nat), Error>(
                (State::ReceivedHeader, amt as nat),
            ),
        ensures
            final(self).wf(),
            final(self).spec_io() == old(self).spec_io(),
            r matches Ok(e) ==> e.wf() && final(self).spec_state() == State::ReceivingData(e.len_spec())
                && tar_cksum(e.spec_header()@) == Some(checksum_of(e.spec_header()@) as u32)
                && e.spec_header()@ == old(self).head_view().take(
                BLOCK_SIZE - old(self).spec_state()->ReceivingHeader_0,
            ) + old(self).buffered_view().take(amt as int)
                && final(self).buffered_view() == old(self).buffered_view().skip(amt as int),
            r is Err <==> !header_ok(
                old(self).head_view().take(BLOCK_SIZE - old(self).spec_state()->ReceivingHeader_0)
                    + old(self).buffered_view().take(amt as int),
            ),
            r is Err ==> r->Err_0 == ArchiveError::Header(
                header_error(
                    old(self).head_view().take(BLOCK_SIZE - old(self).spec_state()->ReceivingHeader_0)
                        + old(self).buffered_view().take(amt as int),
                ),
            ),
            r matches Err(e) ==> e is Header,
    {
        let ghost buf = self.buffered_view();
        proof {
            self.state.lemma_step_progress(buf, None);
        }
        let rem = match self.state {
            State::ReceivingHeader(rem, _) => rem,
            _ => {
                proof {
                    assert(false);
                }
                return Err(ArchiveError::Header(crate::HeaderError::InvalidChecksum));
            },
        };
        let bytes = slice_range(self.buf.buffered_bytes(), 0, amt);
        copy_into(&mut self.head, BLOCK_SIZE - rem, bytes);
        proof {
            assert(self.head@ =~= old(self).head_view().take(BLOCK_SIZE - rem) + buf.take(amt as int));
        }
        let block = Block::from_bytes(self.head.as_slice());
        let header = match block.as_header() {
            Ok(h) => h,
            Err(e) => {
                return Err(ArchiveError::Header(e));
            },
        };
        proof {
            crate::block::lemma_checksum_bounds(header@);
        }
        let entry = match Entry::new(header) {
            Ok(e) => e,
            Err(e) => {
                return Err(ArchiveError::Header(e));
            },
        };
        proof {
            let hdr = Some(header@);
            self.state.lemma_step_prefix(buf, None);
            self.state.lemma_single_slice(buf, None);
            assert(self.state.step(buf.take(amt as int), hdr) == self.state.step(buf.take(amt as int), None));
            self.state.lemma_single_slice(buf, hdr);
        }
        self.consume(amt, Some(&header));
        Ok(entry)
    }

    /// The header block that a scan ending `n` buffered bytes in completes:
    /// the last block of the header bytes already received and those bytes.
    pub open spec fn next_header_block(&self, n: int) -> Seq<u8> {
        last_block(head_prefix(self.spec_state(), self.head_view()) + self.buffered_view().take(n))
    }

    /// One step of the search for the next entry, over bytes that are
    /// buffered: the transition they start with, with the header block
    /// completed or the state settled after it. `pre` holds the bytes
    /// consumed before, of which the header bytes received so far are the
    /// last ones. Returns `Ok(None)` to go on, with the number of bytes
    /// consumed and the state the scan reached.
    #[verifier::rlimit(100)]
    #[verifier::spinoff_prover]
    fn scan_step(&mut self, Ghost(pre): Ghost<Seq<u8>>) -> (r: (
        Result<Option<Option<Entry>>, ArchiveError>,
        Ghost<nat>,
        Ghost<State>,
    ))
        requires
            old(self).wf(),
            old(self).between_entries(),
            !old(self).spec_state().spec_is_terminal(),
            old(self).buffered_view().len() > 0,
            old(self).spec_state() matches State::ReceivingHeader(rem, _) ==> BLOCK_SIZE - rem
                <= pre.len() && old(self).head_view().take(BLOCK_SIZE - rem) == last_bytes(
                pre,
                BLOCK_SIZE - rem,
            ),
        ensures
            ({
                let (res, amt, last) = r;
                let ob = old(self).buffered_view();
                let sc = scan(old(self).spec_state(), ob);
                let post = pre + ob.take(amt@ as int);
                &&& final(self).wf()
                &&& final(self).spec_io() == old(self).spec_io()
                &&& amt@ <= ob.len()
                &&& res matches Err(e) ==> e is Stream || e is Header
                &&& res matches Err(ArchiveError::Stream(e)) ==> sc == Err::<(State, nat), Error>(e)
                &&& (res matches Err(ArchiveError::Header(_)) || res matches Ok(Some(Some(_))))
                    ==> sc == Ok::<(State, nat), Error>((State::ReceivedHeader, amt@))
                    && BLOCK_SIZE <= post.len()
                &&& (res matches Err(ArchiveError::Header(_)) || res matches Ok(Some(Some(_))))
                    ==> (res matches Err(ArchiveError::Header(_)) <==> !header_ok(last_block(post)))
                &&& res matches Err(ArchiveError::Header(e)) ==> e == header_error(last_block(post))
                &&& res matches Ok(Some(Some(e))) ==> e.wf() && final(self).spec_state()
                    == State::ReceivingData(e.len_spec()) && tar_cksum(e.spec_header()@) == Some(
                    checksum_of(e.spec_header()@) as u32,
                ) && e.spec_header()@ == last_block(post) && final(self).buffered_view() == ob.skip(
                    amt@ as int,
                )
                &&& res matches Ok(Some(None)) ==> sc == Ok::<(State, nat), Error>(
                    (State::ReceivedEof, amt@),
                ) && final(self).buffered_view() == ob.skip(amt@ as int)
                    && final(self).spec_state().spec_is_terminal()
                &&& res matches Ok(None) ==> {
                    &&& final(self).between_entries()
                    &&& !final(self).spec_state().spec_is_terminal()
                    &&& final(self).buffered_view() == ob.skip(amt@ as int)
                    &&& final(self).spec_state() matches State::ReceivingHeader(rem, _) ==> BLOCK_SIZE
                        - rem <= post.len() && final(self).head_view().take(BLOCK_SIZE - rem)
                        == last_bytes(post, BLOCK_SIZE - rem)
                    &&& settle(last@, None) == Ok::<State, Error>(final(self).spec_state())
                    &&& last@ != State::ReceivingEof(0)
                    &&& !(last@ matches State::ReceivingHeader(0, _))
                    &&& final(self).buffered_view().len() == 0 ==> sc == Ok::<(State, nat), Error>(
                        (last@, amt@),
                    ) && !(last@ is ReceivedHeader || last@ is ReceivedEof)
                    &&& final(self).buffered_view().len() > 0 ==> sc == shift(
                        scan(final(self).spec_state(), final(self).buffered_view()),
                        amt@,
                    )
                    &&& 16 * final(self).buffered_view().len() + final(self).spec_state().rank() < 16
                        * ob.len() + old(self).spec_state().rank()
                }
            }),
    {
        let ghost st = self.state;
        let ghost buf = self.buffered_view();
        proof {
            st.lemma_step_progress(buf, None);
            st.lemma_step_rh(buf, None);
            st.lemma_single_slice(buf, None);
        }
        let (state, amt) = match self.state.next(self.buf.buffered_bytes(), None) {
            Ok(x) => x,
            Err(e) => {
                return (Err(ArchiveError::Stream(e)), Ghost(0), Ghost(st));
            },
        };
        proof {
            state.lemma_settle(None);
            let post = pre + buf.take(amt as int);
            assert(buf.skip(amt as int) =~= buf.skip(amt as int));
            if state is ReceivedHeader || state is ReceivedEof {
                assert(crate::state::stops().contains(state)) by {
                    if state is ReceivedHeader {
                        assert(crate::state::stops()[0] == state);
                    } else {
                        assert(crate::state::stops()[1] == state);
                    }
                }
            } else {
                assert(!crate::state::stops().contains(state)) by {
                    assert(crate::state::stops() =~= seq![State::ReceivedHeader, State::ReceivedEof]);
                }
            }
        }
        match state {
            State::ReceivedHeader => {
                proof {
                    let rem = st->ReceivingHeader_0;
                    let post = pre + buf.take(amt as int);
                    assert(last_bytes(post, BLOCK_SIZE as int) =~= last_bytes(pre, BLOCK_SIZE - rem)
                        + buf.take(amt as int));
                }
                return match self.receive_header(amt) {
                    Ok(entry) => (Ok(Some(Some(entry))), Ghost(amt as nat), Ghost(state)),
                    Err(e) => (Err(e), Ghost(amt as nat), Ghost(state)),
                };
            },
            State::ReceivedEof => {
                self.consume(amt, None);
                return (Ok(Some(None)), Ghost(amt as nat), Ghost(state));
            },
            State::ReceivingHeader(_, _) => {
                match self.state {
                    State::ReceivingHeader(rem, _) => {
                        let bytes = slice_range(self.buf.buffered_bytes(), 0, amt);
                        copy_into(&mut self.head, BLOCK_SIZE - rem, bytes);
                        proof {
                            let post = pre + buf.take(amt as int);
                            let rem2 = state->ReceivingHeader_0;
                            assert(self.head_view().take(BLOCK_SIZE - rem2) =~= last_bytes(
                                pre,
                                BLOCK_SIZE - rem,
                            ) + buf.take(amt as int));
                            assert(last_bytes(post, BLOCK_SIZE - rem2) =~= last_bytes(
                                pre,
                                BLOCK_SIZE - rem,
                            ) + buf.take(amt as int));
                        }
                    },
                    _ => {
                        proof {
                            let post = pre + buf.take(amt as int);
                            assert(self.head_view().take(0) =~= last_bytes(post, 0));
                        }
                    },
                }
                self.consume(amt, None);
            },
            _ => {
                self.consume(amt, None);
            },
        }
        proof {
            lemma_scan_continue(st, state, buf, amt as nat);
            assert(settle(state, None) == Ok::<State, Error>(self.spec_state()));
            assert(self.buffered_view() == buf.skip(amt as int));
            assert(self.between_entries());
            assert(!self.spec_state().spec_is_terminal());
            let post = pre + buf.take(amt as int);
            if let State::ReceivingHeader(rem, _) = self.spec_state() {
                assert(BLOCK_SIZE - rem <= post.len());
                assert(self.head_view().take(BLOCK_SIZE - rem) == last_bytes(post, BLOCK_SIZE - rem));
            }
        }
        (Ok(None), Ghost(amt as nat), Ghost(state))
    }

    /// What a step of the search for the next entry promises, from the
    /// archive before the step to the archive after it.
    pub open spec fn next_entry_step(o: Self, f: Self, r: Result<Step<Option<Entry>>, ArchiveError>) -> bool {
        &&& f.wf()
        &&& f.spec_io() == o.spec_io()
        &&& o.spec_state().spec_is_terminal() ==> (r matches Ok(Step::Ready(None))
            && f.spec_state() == o.spec_state())
        &&& r matches Ok(Step::Ready(None)) ==> f.spec_state().spec_is_terminal()
        &&& r matches Ok(Step::Ready(Some(e))) ==> e.wf() && f.spec_state() == State::ReceivingData(
            e.len_spec(),
        ) && tar_cksum(e.spec_header()@) == Some(checksum_of(e.spec_header()@) as u32)
        &&& r matches Ok(Step::Pending) ==> f.buffered_view().len() == 0 && f.between_entries()
            && !f.spec_state().spec_is_terminal()
        &&& r matches Err(e) ==> e is Stream || e is Header
        &&& !o.spec_state().spec_is_terminal() ==> match scan(o.spec_state(), o.buffered_view()) {
            Err(e) => r == Err::<Step<Option<Entry>>, ArchiveError>(ArchiveError::Stream(e)),
            Ok((State::ReceivedHeader, n)) => (r matches Err(ArchiveError::Header(_)) <==> !header_ok(
                o.next_header_block(n as int),
            )) && (r matches Err(ArchiveError::Header(e)) ==> e == header_error(
                o.next_header_block(n as int),
            )) && (r matches Err(ArchiveError::Header(_)) || (r matches Ok(Step::Ready(Some(e)))
                && e.spec_header()@ == o.next_header_block(n as int) && f.buffered_view()
                == o.buffered_view().skip(n as int))),
            Ok((State::ReceivedEof, n)) => r matches Ok(Step::Ready(None)) && f.buffered_view()
                == o.buffered_view().skip(n as int),
            Ok((t, _)) => r matches Ok(Step::Pending) && (o.buffered_view().len() > 0 ==> settle(
                t,
                None,
            ) == Ok::<State, Error>(f.spec_state()) && t != State::ReceivingEof(0)
                && !(t matches State::ReceivingHeader(0, _))) && (f.spec_state() matches State::ReceivingHeader(rem, _)
                ==> head_prefix(f.spec_state(), f.head_view()) == last_bytes(
                head_prefix(o.spec_state(), o.head_view()) + o.buffered_view(),
                BLOCK_SIZE - rem,
            )),
        }
    }

    /// Looks for the next entry: consumes what is left of the previous
    /// entry's padding, then a header block, and returns the entry, or `None`
    /// after the end-of-archive marker. Returns [`Step::Pending`] when the
    /// buffer must be filled first.
    #[verifier::rlimit(100)]
    #[verifier::spinoff_prover]
    pub fn poll_next_entry(&mut self) -> (r: Result<Step<Option<Entry>>, ArchiveError>)
        requires
            old(self).wf(),
            old(self).between_entries(),
        ensures
            Self::next_entry_step(*old(self), *final(self), r),
    {
        if self.state.is_terminal() {
            return Ok(Step::Ready(None));
        }
        let ghost ob = self.buffered_view();
        let ghost hp = head_prefix(self.spec_state(), self.head_view());
        let ghost sc = scan(self.spec_state(), ob);
        let ghost mut c: nat = 0;
        let ghost mut last: State = self.spec_state();
        proof {
            assert(ob.skip(0) =~= ob);
            assert(hp + ob.take(0) =~= hp);
            self.spec_state().lemma_step_progress(ob, None);
            if ob.len() == 0 {
                assert(ob =~= Seq::<u8>::empty());
                last = sc->Ok_0.0;
            }
            if let State::ReceivingHeader(rem, _) = self.spec_state() {
                assert(last_bytes(hp, BLOCK_SIZE - rem) =~= hp);
            }
        }
        loop
            invariant
                self.wf(),
                self.between_entries(),
                !self.spec_state().spec_is_terminal(),
                !old(self).spec_state().spec_is_terminal(),
                self.spec_io() == old(self).spec_io(),
                ob == old(self).buffered_view(),
                hp == head_prefix(old(self).spec_state(), old(self).head_view()),
                sc == scan(old(self).spec_state(), ob),
                c <= ob.len(),
                self.buffered_view() == ob.skip(c as int),
                self.spec_state() matches State::ReceivingHeader(rem, _) ==> BLOCK_SIZE - rem <= (hp
                    + ob.take(c as int)).len() && self.head_view().take(BLOCK_SIZE - rem) == last_bytes(
                    hp + ob.take(c as int),
                    BLOCK_SIZE - rem,
                ),
                self.buffered_view().len() == 0 ==> sc == Ok::<(State, nat), Error>((last, c))
                    && !(last is ReceivedHeader || last is ReceivedEof),
                self.buffered_view().len() == 0 && c > 0 ==> settle(last, None) == Ok::<
                    State,
                    Error,
                >(self.spec_state()) && last != State::ReceivingEof(0) && !(last matches State::ReceivingHeader(0, _)),
                self.buffered_view().len() > 0 ==> sc == shift(
                    scan(self.spec_state(), self.buffered_view()),
                    c,
                ),
            decreases 16 * self.buffered_view().len() + self.spec_state().rank(),
        {
            if self.needs_fill() {
                proof {
                    assert(ob.take(c as int) =~= ob);
                }
                return Ok(Step::Pending);
            }
            let ghost buf = self.buffered_view();
            let ghost pre = hp + ob.take(c as int);
            let (res, Ghost(amt), Ghost(reached)) = self.scan_step(Ghost(pre));
            proof {
                assert(hp + ob.take((c + amt) as int) =~= pre + buf.take(amt as int));
                assert(buf.skip(amt as int) =~= ob.skip((c + amt) as int));
            }
            match res {
                Err(e) => {
                    return Err(e);
                },
                Ok(Some(found)) => {
                    return Ok(Step::Ready(found));
                },
                Ok(None) => {},
            }
            proof {
                if self.buffered_view().len() == 0 {
                    last = reached;
                }
                c = (c + amt) as nat;
            }
        }
    }
}

/// The payload and padding bytes still owed to an entry of `len` payload
/// bytes from a state.
pub open spec fn entry_owed(s: State, len: u64) -> int {
    match s {
        State::ReceivingData(rem) => rem + crate::state::align_of(len),
        State::ReceivedData => crate::state::align_of(len),
        State::AligningData(k) => k as int,
        _ => 0,
    }
}

/// A scan transition that neither completes a header nor ends the archive:
/// the scan goes on from the state it settles to, over the bytes left.
proof fn lemma_scan_continue(st: State, s: State, buf: Seq<u8>, amt: nat)
    requires
        buf.len() > 0,
        st.step(buf, None) == Ok::<(State, nat), Error>((s, amt)),
        !(s is ReceivedHeader || s is ReceivedEof),
        settle(s, None) is Ok,
    ensures
        amt <= buf.len(),
        amt < buf.len() ==> scan(st, buf) == shift(
            scan(settle(s, None)->Ok_0, buf.skip(amt as int)),
            amt,
        ),
        amt == buf.len() ==> scan(st, buf) == Ok::<(State, nat), Error>((s, amt)),
        16 * (buf.len() - amt) + settle(s, None)->Ok_0.rank() < 16 * buf.len() + st.rank(),
{
    st.lemma_step_progress(buf, None);
    s.lemma_settle(None);
    assert(!crate::state::stops().contains(s)) by {
        assert(crate::state::stops() =~= seq![State::ReceivedHeader, State::ReceivedEof]);
    }
    if amt < buf.len() {
        crate::state::lemma_settle_step(s, buf.skip(amt as int));
    }
}

/// The last `k` bytes of `pre`.
pub open spec fn last_bytes(pre: Seq<u8>, k: int) -> Seq<u8> {
    pre.skip(pre.len() - k)
}

/// What looking for the next entry makes of some bytes: the run of the
/// state machine without a header, up to a new header or the end of the
/// archive.
pub open spec fn scan(s: State, buf: Seq<u8>) -> Result<(State, nat), Error> {
    s.run_until(crate::state::stops(), buf, None)
}

/// The header bytes received before the buffered ones.
pub open spec fn head_prefix(s: State, head: Seq<u8>) -> Seq<u8> {
    match s {
        State::ReceivingHeader(rem, _) => head.take(BLOCK_SIZE - rem),
        _ => Seq::empty(),
    }
}

/// The last block of some bytes.
pub open spec fn last_block(x: Seq<u8>) -> Seq<u8> {
    x.skip(x.len() - BLOCK_SIZE)
}

/// Why a block is not a header that an entry can be made of: its checksum
/// field first, then its size fields.
pub open spec fn header_error(b: Seq<u8>) -> crate::HeaderError {
    match tar_cksum(b) {
        None => crate::HeaderError::InvalidChecksum,
        Some(e) => if e != checksum_of(b) as u32 {
            crate::HeaderError::Checksum { expected: e, actual: checksum_of(b) as u32 }
        } else {
            crate::HeaderError::InvalidSize
        },
    }
}

/// Whether a block is a header that an entry can be made of.
pub open spec fn header_ok(b: Seq<u8>) -> bool {
    &&& tar_cksum(b) == Some(checksum_of(b) as u32)
    &&& tar_size(b) is Some
    &&& tar_entry_size(b) is Some
}

/// The search for the next entry of an archive, made one step at a time.
pub struct NextEntry<'a, T> {
    pub archive: &'a mut Archive<T>,
}

impl<'a, T> NextEntry<'a, T> {
    pub fn new(archive: &'a mut Archive<T>) -> (r: Self)
        ensures
            *r.archive == *old(archive),
            *final(archive) == *final(r.archive),
    {
        NextEntry { archive }
    }

    /// One step of [`Archive::poll_next_entry`].
    pub fn poll(&mut self) -> (r: Result<Step<Option<Entry>>, ArchiveError>)
        requires
            old(self).archive.wf(),
            old(self).archive.between_entries(),
        ensures
            Archive::next_entry_step(*old(self).archive, *final(self).archive, r),
            *final(final(self).archive) == *final(old(self).archive),
    {
        self.archive.poll_next_entry()
    }
}

/// The entries of an archive, one after another until its end.
pub struct Entries<'a, T> {
    pub archive: &'a mut Archive<T>,
}

impl<'a, T> Entries<'a, T> {
    pub fn new(archive: &'a mut Archive<T>) -> (r: Self)
        ensures
            *r.archive == *old(archive),
            *final(archive) == *final(r.archive),
    {
        Entries { archive }
    }

    /// The next entry, `None` at the end of the archive, or
    /// [`Step::Pending`] when the buffer must be filled first.
    pub fn poll_next(&mut self) -> (r: Result<Step<Option<Entry>>, ArchiveError>)
        requires
            old(self).archive.wf(),
            old(self).archive.between_entries(),
        ensures
            Archive::next_entry_step(*old(self).archive, *final(self).archive, r),
            *final(final(self).archive) == *final(old(self).archive),
    {
        self.archive.poll_next_entry()
    }
}

impl<T> Archive<T> {
    /// The search for the next entry.
    pub fn next_entry(&mut self) -> (r: NextEntry<'_, T>)
        ensures
            *r.archive == *old(self),
            *final(self) == *final(r.archive),
    {
        NextEntry::new(self)
    }

    /// The entries of this archive.
    pub fn entries(&mut self) -> (r: Entries<'_, T>)
        ensures
            *r.archive == *old(self),
            *final(self) == *final(r.archive),
    {
        Entries::new(self)
    }
}

/// Writes `src` into `dst` at offset `at`.
fn copy_into(dst: &mut Vec<u8>, at: usize, src: &[u8])
    requires
        at + src@.len() <= old(dst)@.len(),
    ensures
        final(dst)@ == old(dst)@.take(at as int) + src@ + old(dst)@.skip(at + src@.len()),
{
    let mut i: usize = 0;
    let len = dst.len();
    while i < src.len()
        invariant
            i <= src@.len(),
            len == dst@.len(),
            at + src@.len() <= dst@.len(),
            dst@.len() == old(dst)@.len(),
            forall|k: int|
                0 <= k < dst@.len() ==> #[trigger] dst@[k] == if at <= k < at + i {
                    src@[k - at]
                } else {
                    old(dst)@[k]
                },
        decreases src@.len() - i,
    {
        dst.set(at + i, src[i]);
        i = i + 1;
    }
    assert(dst@ =~= old(dst)@.take(at as int) + src@ + old(dst)@.skip(at + src@.len()));
}

/// Whether a state is one that the drivers step across at once.
fn settles_exec(s: &State) -> (r: bool)
    ensures
        r == settles(*s),
{
    match s {
        State::ReceivingHeader(rem, z) => *rem == 0 && !*z,
        State::ReceivedHeader => true,
        State::ReceivingData(rem) => *rem == 0,
        State::ReceivedData => true,
        State::AligningData(rem) => *rem == 0,
        State::AlignedData => true,
        State::ReceivingEof(rem) => *rem == 0,
        _ => false,
    }
}

} // verus!
