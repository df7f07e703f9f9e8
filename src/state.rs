//! The stream state machine: classifies every byte of a TAR stream as header,
//! payload, alignment padding or end-of-archive marker.
use vstd::prelude::*;

use crate::block::{all_zero, tar_entry_size, Header, BLOCK_SIZE};

verus! {

/// A structural error in a TAR byte stream.
#[derive(Debug, Clone, Copy, PartialEq, Eq, Structural)]
pub enum Error {
    /// A transition out of this state needs the current header.
    ExpectingHeader,
    /// The size field of the current header could not be read.
    InvalidHeader,
    /// A non-zero byte where the end-of-archive marker must be.
    ExpectingEmptyBlock,
    /// Data after the end-of-archive marker.
    Eof,
}

impl Error {
    /// A description of the error.
    pub fn message(&self) -> (r: String)
        ensures
            r@ == match self {
                Error::ExpectingHeader => "expecting header"@,
                Error::InvalidHeader => "invalid size field in header"@,
                Error::ExpectingEmptyBlock => "expecting empty block"@,
                Error::Eof => "cannot process data after eof"@,
            },
    {
        match self {
            Error::ExpectingHeader => "expecting header".to_owned(),
            Error::InvalidHeader => "invalid size field in header".to_owned(),
            Error::ExpectingEmptyBlock => "expecting empty block".to_owned(),
            Error::Eof => "cannot process data after eof".to_owned(),
        }
    }

    pub fn kind(&self) -> (r: std::io::ErrorKind)
        ensures
            r == std::io::ErrorKind::InvalidData,
    {
        std::io::ErrorKind::InvalidData
    }
}

/// A point in a TAR byte stream.
#[derive(Debug, Clone, Copy, PartialEq, Eq, Structural)]
pub enum State {
    /// The next byte begins a header block.
    ExpectingHeader,
    /// Bytes left in the current header block, and whether all of its bytes
    /// seen so far are zero.
    ReceivingHeader(usize, bool),
    /// A complete, non-empty header block was received.
    ReceivedHeader,
    /// Payload bytes left in the current entry.
    ReceivingData(u64),
    /// All payload bytes of the current entry were moved.
    ReceivedData,
    /// Padding bytes left until the next block boundary.
    AligningData(usize),
    /// The padding of the current entry is complete.
    AlignedData,
    /// Zero bytes left in the second empty block of the end-of-archive marker.
    ReceivingEof(usize),
    /// The end-of-archive marker was received.
    ReceivedEof,
}

impl Default for State {
    fn default() -> (r: State)
        ensures
            r == State::ExpectingHeader,
    {
        State::ExpectingHeader
    }
}

/// Padding that brings `size` bytes to the next multiple of the block size.
pub open spec fn align_of(size: u64) -> int {
    (BLOCK_SIZE - size % (BLOCK_SIZE as u64)) % (BLOCK_SIZE as int)
}

/// What one transition consumes out of `rem` remaining bytes of a field,
/// given `n` bytes of input.
pub open spec fn advance(rem: int, n: int) -> int {
    if rem < n {
        rem
    } else {
        n
    }
}

/// The bytes of a header, if any.
pub open spec fn hdr_view(header: Option<&Header>) -> Option<Seq<u8>> {
    match header {
        Some(h) => Some(h@),
        None => None,
    }
}

/// A transition result, with its byte count as a natural number.
pub open spec fn lift(r: Result<(State, usize), Error>) -> Result<(State, nat), Error> {
    match r {
        Ok((s, n)) => Ok((s, n as nat)),
        Err(e) => Err(e),
    }
}

/// A result whose byte count is raised by `k`.
pub open spec fn shift(r: Result<(State, nat), Error>, k: nat) -> Result<(State, nat), Error> {
    match r {
        Ok((s, n)) => Ok((s, n + k)),
        Err(e) => Err(e),
    }
}

/// The states at which [`State::take_slices`] stops early.
pub open spec fn stops() -> Seq<State> {
    seq![State::ReceivedHeader, State::ReceivedEof]
}

/// The bytes of each slice of a list.
pub open spec fn bufs_view(slices: Seq<&[u8]>) -> Seq<Seq<u8>> {
    slices.map_values(|b: &[u8]| b@)
}

/// Total number of bytes in a list of byte sequences.
pub open spec fn total_len(bufs: Seq<Seq<u8>>) -> nat
    decreases bufs.len(),
{
    if bufs.len() == 0 {
        0
    } else {
        bufs[0].len() + total_len(bufs.drop_first())
    }
}

impl State {
    /// The transition function: the next state and the number of bytes of
    /// `buf` it consumes, given the bytes of the current header, if any.
    pub open spec fn step(self, buf: Seq<u8>, hdr: Option<Seq<u8>>) -> Result<(State, nat), Error> {
        match self {
            State::ExpectingHeader => Ok((State::ReceivingHeader(BLOCK_SIZE, true), 0)),
            State::ReceivingHeader(rem, z) => {
                let len = advance(rem as int, buf.len() as int);
                let z2 = z && all_zero(buf.take(len));
                let rem2 = rem - len;
                if rem2 == 0 {
                    if z2 {
                        Ok((State::ReceivingEof(BLOCK_SIZE), len as nat))
                    } else {
                        Ok((State::ReceivedHeader, len as nat))
                    }
                } else {
                    Ok((State::ReceivingHeader(rem2 as usize, z2), len as nat))
                }
            },
            State::ReceivedHeader => match hdr {
                None => Err(Error::ExpectingHeader),
                Some(h) => match tar_entry_size(h) {
                    Some(size) => Ok((State::ReceivingData(size), 0)),
                    None => Err(Error::InvalidHeader),
                },
            },
            State::ReceivingData(rem) => {
                let len = advance(rem as int, buf.len() as int);
                if rem - len == 0 {
                    Ok((State::ReceivedData, len as nat))
                } else {
                    Ok((State::ReceivingData((rem - len) as u64), len as nat))
                }
            },
            State::ReceivedData => match hdr {
                None => Err(Error::ExpectingHeader),
                Some(h) => match tar_entry_size(h) {
                    Some(size) => Ok((State::AligningData(align_of(size) as usize), 0)),
                    None => Err(Error::InvalidHeader),
                },
            },
            State::AligningData(rem) => {
                let len = advance(rem as int, buf.len() as int);
                if rem - len == 0 {
                    Ok((State::AlignedData, len as nat))
                } else {
                    Ok((State::AligningData((rem - len) as usize), len as nat))
                }
            },
            State::AlignedData => Ok((State::ExpectingHeader, 0)),
            State::ReceivingEof(rem) => {
                let len = advance(rem as int, buf.len() as int);
                if !all_zero(buf.take(len)) {
                    Err(Error::ExpectingEmptyBlock)
                } else if rem - len == 0 {
                    Ok((State::ReceivedEof, len as nat))
                } else {
                    Ok((State::ReceivingEof((rem - len) as usize), len as nat))
                }
            },
            State::ReceivedEof => Err(Error::Eof),
        }
    }

    pub open spec fn spec_is_terminal(self) -> bool {
        self is ReceivedEof || self == State::ReceivingEof(0)
    }

    pub open spec fn spec_is_marker(self) -> bool {
        ||| self is ExpectingHeader
        ||| self is ReceivedHeader
        ||| self is ReceivedData
        ||| self is AlignedData
        ||| self is ReceivedEof
    }

    /// Orders the states so that every transition that consumes no byte of a
    /// non-empty buffer goes down.
    pub open spec fn rank(self) -> int {
        match self {
            State::ReceivedEof => 0,
            State::ReceivingHeader(rem, _) => if rem == 0 {
                15
            } else {
                1
            },
            State::ReceivingEof(rem) => if rem == 0 {
                3
            } else {
                2
            },
            State::ExpectingHeader => 9,
            State::AlignedData => 10,
            State::AligningData(_) => 11,
            State::ReceivedData => 12,
            State::ReceivingData(_) => 13,
            State::ReceivedHeader => 14,
        }
    }

    /// Applies transitions to `buf` until a state of `stop` is reached or the
    /// buffer is exhausted; at least one transition is applied.
    pub open spec fn run_until(self, stop: Seq<State>, buf: Seq<u8>, hdr: Option<Seq<u8>>) -> Result<
        (State, nat),
        Error,
    >
        decreases 16 * buf.len() + self.rank(), 0int,
    {
        match self.step(buf, hdr) {
            Err(e) => Err(e),
            Ok((s, n)) => if stop.contains(s) || n >= buf.len() {
                Ok((s, n))
            } else {
                if 0 <= n <= buf.len() && 16 * (buf.len() - n) + s.rank() < 16 * buf.len() + self.rank() {
                    shift(s.run_until(stop, buf.skip(n as int), hdr), n)
                } else {
                    Ok((s, n))
                }
            },
        }
    }

    /// Applies [`State::run_until`] to each non-empty buffer in turn, stopping
    /// early on a new header or the end of the archive; at least one
    /// transition is applied, even to an empty list.
    pub open spec fn run_slices(self, bufs: Seq<Seq<u8>>, hdr: Option<Seq<u8>>, moved: bool) -> Result<
        (State, nat),
        Error,
    >
        decreases bufs.len(),
    {
        if bufs.len() == 0 {
            if moved {
                Ok((self, 0))
            } else {
                self.run_until(stops(), Seq::empty(), hdr)
            }
        } else if bufs[0].len() == 0 {
            self.run_slices(bufs.drop_first(), hdr, moved)
        } else {
            match self.run_until(stops(), bufs[0], hdr) {
                Err(e) => Err(e),
                Ok((s, n)) => if stops().contains(s) {
                    Ok((s, n))
                } else {
                    shift(s.run_slices(bufs.drop_first(), hdr, true), n)
                },
            }
        }
    }

    /// Whether the end of the archive was reached.
    pub fn is_terminal(&self) -> (r: bool)
        ensures
            r == self.spec_is_terminal(),
    {
        match self {
            State::ReceivedEof => true,
            State::ReceivingEof(rem) => *rem == 0,
            _ => false,
        }
    }

    /// Whether this state sits on a structural boundary, where a transition
    /// moves no bytes.
    pub fn is_marker(&self) -> (r: bool)
        ensures
            r == self.spec_is_marker(),
    {
        match self {
            State::ExpectingHeader
            | State::ReceivedHeader
            | State::ReceivedData
            | State::AlignedData
            | State::ReceivedEof => true,
            _ => false,
        }
    }

    /// Transitions to the next state and returns it with the number of bytes
    /// of `buf` that belong to this state. An empty buffer still leads to a
    /// transition out of a marker state.
    pub fn next(self, buf: &[u8], header: Option<&Header>) -> (r: Result<(State, usize), Error>)
        ensures
            lift(r) == self.step(buf@, hdr_view(header)),
    {
        match self {
            State::ExpectingHeader => Ok((State::ReceivingHeader(BLOCK_SIZE, true), 0)),
            State::ReceivingHeader(rem, z) => {
                let len = if rem < buf.len() {
                    rem
                } else {
                    buf.len()
                };
                let empty = is_all_zero(buf, len);
                let z2 = z && empty;
                let rem2 = rem - len;
                if rem2 == 0 {
                    if z2 {
                        Ok((State::ReceivingEof(BLOCK_SIZE), len))
                    } else {
                        Ok((State::ReceivedHeader, len))
                    }
                } else {
                    Ok((State::ReceivingHeader(rem2, z2), len))
                }
            },
            State::ReceivedHeader => match header {
                None => Err(Error::ExpectingHeader),
                Some(h) => match h.entry_size() {
                    Some(size) => Ok((State::ReceivingData(size), 0)),
                    None => Err(Error::InvalidHeader),
                },
            },
            State::ReceivingData(rem) => {
                let len = if rem < buf.len() as u64 {
                    rem as usize
                } else {
                    buf.len()
                };
                let rem2 = rem - len as u64;
                if rem2 == 0 {
                    Ok((State::ReceivedData, len))
                } else {
                    Ok((State::ReceivingData(rem2), len))
                }
            },
            State::ReceivedData => match header {
                None => Err(Error::ExpectingHeader),
                Some(h) => match h.entry_size() {
                    Some(size) => {
                        let align = (512 - size % 512) % 512;
                        Ok((State::AligningData(align as usize), 0))
                    },
                    None => Err(Error::InvalidHeader),
                },
            },
            State::AligningData(rem) => {
                let len = if rem < buf.len() {
                    rem
                } else {
                    buf.len()
                };
                let rem2 = rem - len;
                if rem2 == 0 {
                    Ok((State::AlignedData, len))
                } else {
                    Ok((State::AligningData(rem2), len))
                }
            },
            State::AlignedData => Ok((State::ExpectingHeader, 0)),
            State::ReceivingEof(rem) => {
                let len = if rem < buf.len() {
                    rem
                } else {
                    buf.len()
                };
                if !is_all_zero(buf, len) {
                    Err(Error::ExpectingEmptyBlock)
                } else if rem - len == 0 {
                    Ok((State::ReceivedEof, len))
                } else {
                    Ok((State::ReceivingEof(rem - len), len))
                }
            },
            State::ReceivedEof => Err(Error::Eof),
        }
    }
}

impl State {
    /// A transition consumes no more than the buffer holds, and one that
    /// leaves bytes behind lowers the measure of [`State::run_until`].
    pub proof fn lemma_step_progress(self, buf: Seq<u8>, hdr: Option<Seq<u8>>)
        ensures
            self.step(buf, hdr) matches Ok((s, n)) ==> n <= buf.len() && (n < buf.len() ==> 16 * (
            buf.len() - n) + s.rank() < 16 * buf.len() + self.rank()),
    {
    }

    /// Transitions from a marker state to the state that follows it, as
    /// [`State::next`] does with an empty buffer.
    pub fn take_marker(&mut self, header: Option<&Header>) -> (r: Result<(), Error>)
        requires
            old(self).spec_is_marker(),
        ensures
            match old(self).step(Seq::empty(), hdr_view(header)) {
                Ok((s, _)) => r is Ok && *final(self) == s,
                Err(e) => r == Err::<(), Error>(e) && *final(self) == *old(self),
            },
    {
        let empty: &[u8] = &[];
        proof {
            assert(empty@ =~= Seq::<u8>::empty());
        }
        let (state, _) = self.next(empty, header)?;
        *self = state;
        Ok(())
    }

    /// Transitions until one of the given stop states is reached or the
    /// buffer is exhausted, and returns the state and the number of bytes
    /// read. At least one transition is made, to ensure forward progress.
    pub fn take_until(self, stop: &[State], buf: &[u8], header: Option<&Header>) -> (r: Result<
        (State, usize),
        Error,
    >)
        ensures
            lift(r) == self.run_until(stop@, buf@, hdr_view(header)),
            r matches Ok((_, n)) ==> n <= buf@.len(),
    {
        let ghost hdr = hdr_view(header);
        let mut state = self;
        let mut cur: usize = 0;
        let mut rest = buf;
        let blen = buf.len();
        loop
            invariant
                hdr == hdr_view(header),
                blen == buf@.len(),
                cur + rest@.len() == buf@.len(),
                rest@ == buf@.skip(cur as int),
                self.run_until(stop@, buf@, hdr) == shift(state.run_until(stop@, rest@, hdr), cur as nat),
            decreases 16 * rest@.len() + state.rank(),
        {
            proof {
                state.lemma_step_progress(rest@, hdr);
            }
            let res = state.next(rest, header);
            let (next, n) = match res {
                Ok(x) => x,
                Err(e) => {
                    return Err(e);
                },
            };
            assert(state.step(rest@, hdr) == Ok::<(State, nat), Error>((next, n as nat)));
            let stopped = contains_state(stop, &next);
            state = next;
            cur = cur + n;
            rest = slice_skip(rest, n);
            assert(rest@ == buf@.skip(cur as int));
            if stopped || rest.len() == 0 {
                return Ok((state, cur));
            }
        }
    }

    /// Takes each slice in order and transitions states as needed. Returns
    /// the final state and number of bytes read; returns early when another
    /// header is received or the end of the archive is reached.
    pub fn take_slices(self, slices: &[&[u8]], header: Option<&Header>) -> (r: Result<(State, usize), Error>)
        requires
            total_len(bufs_view(slices@)) <= usize::MAX,
        ensures
            lift(r) == self.run_slices(bufs_view(slices@), hdr_view(header), false),
            r matches Ok((_, n)) ==> n <= total_len(bufs_view(slices@)),
    {
        let ghost hdr = hdr_view(header);
        let ghost all = bufs_view(slices@);
        let stop = [State::ReceivedHeader, State::ReceivedEof];
        proof {
            assert(stop@ =~= stops());
        }
        let mut needs_next = true;
        let mut state = self;
        let mut cur: usize = 0;
        let mut i: usize = 0;
        assert(all.skip(0) =~= all);
        while i < slices.len()
            invariant
                hdr == hdr_view(header),
                i <= slices@.len(),
                all == bufs_view(slices@),
                total_len(all) <= usize::MAX,
                stop@ == stops(),
                cur + total_len(all.skip(i as int)) <= total_len(all),
                self.run_slices(all, hdr, false) == shift(
                    state.run_slices(all.skip(i as int), hdr, !needs_next),
                    cur as nat,
                ),
            decreases slices@.len() - i,
        {
            proof {
                assert(all.skip(i as int)[0] == slices@[i as int]@);
                assert(all.skip(i as int).drop_first() =~= all.skip(i + 1));
            }
            let buf = slices[i];
            if buf.len() == 0 {
                i = i + 1;
            } else {
                let (next, n) = match state.take_until(&stop, buf, header) {
                    Ok(x) => x,
                    Err(e) => {
                        return Err(e);
                    },
                };
                state = next;
                cur = cur + n;
                needs_next = false;
                i = i + 1;
                if contains_state(&stop, &state) {
                    return Ok((state, cur));
                }
            }
        }
        if needs_next {
            let empty: &[u8] = &[];
            proof {
                assert(empty@ =~= Seq::<u8>::empty());
            }
            let (next, n) = match state.take_until(&stop, empty, header) {
                Ok(x) => x,
                Err(e) => {
                    return Err(e);
                },
            };
            state = next;
            cur = cur + n;
        }
        Ok((state, cur))
    }
}

/// Whether a state is one that the drivers step across at once after
/// consuming bytes: a marker, or a field with nothing left.
pub open spec fn settles(s: State) -> bool {
    ||| s == State::ReceivingHeader(0, false)
    ||| s is ReceivedHeader
    ||| s == State::ReceivingData(0)
    ||| s is ReceivedData
    ||| s == State::AligningData(0)
    ||| s is AlignedData
    ||| s == State::ReceivingEof(0)
}

/// The state after stepping across a settling state with no bytes.
pub open spec fn settle(s: State, hdr: Option<Seq<u8>>) -> Result<State, Error> {
    if settles(s) {
        match s.step(Seq::empty(), hdr) {
            Ok((s2, _)) => Ok(s2),
            Err(e) => Err(e),
        }
    } else {
        Ok(s)
    }
}

/// A scan over a non-empty buffer goes on from a settling state as from
/// the state it settles to.
pub proof fn lemma_settle_step(s: State, rest: Seq<u8>)
    requires
        rest.len() > 0,
        !(s is ReceivedHeader || s is ReceivedEof),
        s != State::ReceivingEof(0),
        !(s matches State::ReceivingHeader(0, _)),
        settle(s, None) is Ok,
    ensures
        s.run_until(stops(), rest, None) == settle(s, None)->Ok_0.run_until(stops(), rest, None),
{
    let t = settle(s, None)->Ok_0;
    if settles(s) {
        s.lemma_settle_step_any(rest, None);
        assert(rest.skip(0) =~= rest);
        assert(!stops().contains(t)) by {
            assert(stops() =~= seq![State::ReceivedHeader, State::ReceivedEof]);
        }
        match t.run_until(stops(), rest, None) {
            Ok(_) => {},
            Err(_) => {},
        }
    }
}

/// Whether the counts of a state stay within one block, as they do in every
/// state that a transition reaches from the start of a stream.
pub open spec fn rh_ok(s: State) -> bool {
    &&& s matches State::ReceivingHeader(rem, _) ==> 1 <= rem <= BLOCK_SIZE
    &&& s matches State::AligningData(rem) ==> rem < BLOCK_SIZE
    &&& s matches State::ReceivingEof(rem) ==> rem <= BLOCK_SIZE
}

impl State {
    /// A transition over a buffer is the same transition over the bytes it
    /// consumes.
    pub proof fn lemma_step_prefix(self, buf: Seq<u8>, hdr: Option<Seq<u8>>)
        ensures
            self.step(buf, hdr) matches Ok((s, n)) ==> n <= buf.len() && self.step(
                buf.take(n as int),
                hdr,
            ) == Ok::<(State, nat), Error>((s, n)),
    {
        if let Ok((s, n)) = self.step(buf, hdr) {
            self.lemma_step_progress(buf, hdr);
            assert(buf.take(n as int).take(n as int) =~= buf.take(n as int));
        }
    }

    /// Feeding the consumed bytes of one transition, as a single slice, to
    /// [`State::take_slices`] gives back that transition.
    pub proof fn lemma_single_slice(self, buf: Seq<u8>, hdr: Option<Seq<u8>>)
        requires
            buf.len() > 0,
        ensures
            self.step(buf, hdr) matches Ok((s, n)) ==> self.run_slices(
                seq![buf.take(n as int)],
                hdr,
                false,
            ) == Ok::<(State, nat), Error>((s, n)),
    {
        if let Ok((s, n)) = self.step(buf, hdr) {
            self.lemma_step_prefix(buf, hdr);
            let one = seq![buf.take(n as int)];
            assert(one.drop_first() =~= Seq::<Seq<u8>>::empty());
            assert(one[0] == buf.take(n as int));
            if n == 0 {
                assert(buf.take(0) =~= Seq::<u8>::empty());
                assert(self.step(Seq::empty(), hdr) == Ok::<(State, nat), Error>((s, 0)));
                assert(self.run_until(stops(), Seq::empty(), hdr) == Ok::<(State, nat), Error>((s, 0)));
                assert(self.run_slices(one.drop_first(), hdr, false) == self.run_until(
                    stops(),
                    Seq::empty(),
                    hdr,
                ));
            } else {
                assert(self.run_until(stops(), buf.take(n as int), hdr) == Ok::<(State, nat), Error>((s, n)));
                assert(s.run_slices(Seq::empty(), hdr, true) == Ok::<(State, nat), Error>((s, 0)));
            }
        }
    }

    /// A transition keeps a header count within one block.
    pub proof fn lemma_step_rh(self, buf: Seq<u8>, hdr: Option<Seq<u8>>)
        requires
            rh_ok(self),
        ensures
            self.step(buf, hdr) matches Ok((s, _)) ==> rh_ok(s),
    {
    }

    pub proof fn lemma_run_until_rh(self, stop: Seq<State>, buf: Seq<u8>, hdr: Option<Seq<u8>>)
        requires
            rh_ok(self),
        ensures
            self.run_until(stop, buf, hdr) matches Ok((s, _)) ==> rh_ok(s),
        decreases 16 * buf.len() + self.rank(),
    {
        self.lemma_step_rh(buf, hdr);
        self.lemma_step_progress(buf, hdr);
        if let Ok((s, n)) = self.step(buf, hdr) {
            if !(stop.contains(s) || n >= buf.len()) {
                s.lemma_run_until_rh(stop, buf.skip(n as int), hdr);
            }
        }
    }

    pub proof fn lemma_run_slices_rh(self, bufs: Seq<Seq<u8>>, hdr: Option<Seq<u8>>, moved: bool)
        requires
            rh_ok(self),
        ensures
            self.run_slices(bufs, hdr, moved) matches Ok((s, _)) ==> rh_ok(s),
        decreases bufs.len(),
    {
        if bufs.len() == 0 {
            self.lemma_run_until_rh(stops(), Seq::empty(), hdr);
        } else if bufs[0].len() == 0 {
            self.lemma_run_slices_rh(bufs.drop_first(), hdr, moved);
        } else {
            self.lemma_run_until_rh(stops(), bufs[0], hdr);
            if let Ok((s, n)) = self.run_until(stops(), bufs[0], hdr) {
                if !stops().contains(s) {
                    s.lemma_run_slices_rh(bufs.drop_first(), hdr, true);
                }
            }
        }
    }

    /// A transition out of a settling state consumes nothing, whatever bytes
    /// follow.
    pub proof fn lemma_settle_step_any(self, buf: Seq<u8>, hdr: Option<Seq<u8>>)
        requires
            settles(self),
        ensures
            self.step(buf, hdr) == self.step(Seq::empty(), hdr),
    {
        assert(buf.take(0) =~= Seq::<u8>::empty());
    }

    /// Stepping across a settling state lowers the rank and keeps header
    /// counts within a block.
    pub proof fn lemma_settle(self, hdr: Option<Seq<u8>>)
        ensures
            settle(self, hdr) matches Ok(s) ==> s.rank() <= self.rank() && (rh_ok(self) ==> rh_ok(s)),
    {
    }
}

impl State {
    /// A run that consumes a whole buffer without error also consumes every
    /// non-empty prefix of it whole, without error.
    pub proof fn lemma_run_until_prefix(self, stop: Seq<State>, buf: Seq<u8>, hdr: Option<Seq<u8>>, k: int)
        requires
            self.run_until(stop, buf, hdr) matches Ok((_, n)) && n == buf.len(),
            0 < k <= buf.len(),
        ensures
            self.run_until(stop, buf.take(k), hdr) matches Ok((_, m)) && m == k,
        decreases 16 * buf.len() + self.rank(),
    {
        let pre = buf.take(k);
        self.lemma_step_progress(buf, hdr);
        self.lemma_step_progress(pre, hdr);
        let (s1, n1) = self.step(buf, hdr).unwrap();
        assert(pre.take(k) =~= pre);
        if n1 < k {
            assert(pre.take(n1 as int) =~= buf.take(n1 as int));
            self.lemma_step_prefix(buf, hdr);
            self.lemma_step_prefix(pre, hdr);
            assert(self.step(pre, hdr) == self.step(buf, hdr));
            assert(!(stop.contains(s1) || n1 >= buf.len()));
            assert(pre.skip(n1 as int) =~= buf.skip(n1 as int).take(k - n1));
            s1.lemma_run_until_prefix(stop, buf.skip(n1 as int), hdr, k - n1);
        } else {
            assert(pre.take(k) =~= buf.take(k));
            assert(self.step(pre, hdr) matches Ok((_, m)) && m == k);
        }
    }

    /// The same, for a single slice given to [`State::take_slices`].
    pub proof fn lemma_one_slice_prefix(self, buf: Seq<u8>, hdr: Option<Seq<u8>>, k: int)
        requires
            self.run_slices(seq![buf], hdr, false) matches Ok((_, n)) && n == buf.len(),
            0 < k <= buf.len(),
        ensures
            self.run_slices(seq![buf.take(k)], hdr, false) matches Ok((_, m)) && m == k,
    {
        assert(seq![buf].drop_first() =~= Seq::<Seq<u8>>::empty());
        assert(seq![buf.take(k)].drop_first() =~= Seq::<Seq<u8>>::empty());
        assert(seq![buf][0] == buf);
        assert(seq![buf.take(k)][0] == buf.take(k));
        if let Ok((s, n)) = self.run_until(stops(), buf, hdr) {
            assert(s.run_slices(Seq::empty(), hdr, true) == Ok::<(State, nat), Error>((s, 0)));
        }
        assert(self.run_slices(seq![buf], hdr, false) == self.run_until(stops(), buf, hdr));
        self.lemma_run_until_prefix(stops(), buf, hdr, k);
        if let Ok((s, n)) = self.run_until(stops(), buf.take(k), hdr) {
            assert(s.run_slices(Seq::empty(), hdr, true) == Ok::<(State, nat), Error>((s, 0)));
        }
        assert(self.run_slices(seq![buf.take(k)], hdr, false) == self.run_until(stops(), buf.take(k), hdr));
    }
}

/// Whether `s` is one of `stop`.
fn contains_state(stop: &[State], s: &State) -> (r: bool)
    ensures
        r == stop@.contains(*s),
{
    let mut i: usize = 0;
    while i < stop.len()
        invariant
            i <= stop@.len(),
            forall|k: int| 0 <= k < i ==> stop@[k] != *s,
        decreases stop@.len() - i,
    {
        if stop[i] == *s {
            return true;
        }
        i = i + 1;
    }
    false
}

/// The bytes of `buf` after the first `n`.
fn slice_skip(buf: &[u8], n: usize) -> (r: &[u8])
    requires
        n <= buf@.len(),
    ensures
        r@ == buf@.skip(n as int),
{
    let (_, r) = buf.split_at(n);
    r
}

/// Whether the first `len` bytes of `buf` are all zero.
fn is_all_zero(buf: &[u8], len: usize) -> (r: bool)
    requires
        len <= buf@.len(),
    ensures
        r == all_zero(buf@.take(len as int)),
{
    let mut i: usize = 0;
    while i < len
        invariant
            i <= len <= buf@.len(),
            all_zero(buf@.take(i as int)),
        decreases len - i,
    {
        if buf[i] != 0 {
            assert(buf@.take(len as int)[i as int] != 0);
            return false;
        }
        assert(buf@.take(i + 1) =~= buf@.take(i as int).push(buf@[i as int]));
        i = i + 1;
    }
    true
}

} // verus!
