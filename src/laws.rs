//! Properties of the state machine over whole byte streams.
use vstd::prelude::*;

use crate::block::{all_zero, tar_entry_size, zero_block, BLOCK_SIZE};
use crate::block::{checksum_of, tar_cksum};
use crate::read::{last_block, scan};
use crate::state::{align_of, shift, stops, Error, State};
use crate::{Archive, ArchiveError, Entry, HeaderError, Step};

verus! {

/// Runs the state machine over a whole buffer, stopping at no state.
pub open spec fn run(s: State, buf: Seq<u8>, hdr: Option<Seq<u8>>) -> Result<(State, nat), Error> {
    s.run_until(Seq::empty(), buf, hdr)
}

/// Zero bytes, then zero bytes, are zero bytes.
proof fn lemma_all_zero_concat(x: Seq<u8>, y: Seq<u8>)
    ensures
        all_zero(x + y) == (all_zero(x) && all_zero(y)),
{
    if all_zero(x + y) {
        assert forall|i: int| 0 <= i < x.len() implies x[i] == 0 by {
            assert((x + y)[i] == x[i]);
        }
        assert forall|i: int| 0 <= i < y.len() implies y[i] == 0 by {
            assert((x + y)[x.len() + i] == y[i]);
        }
    }
}

/// Feeding more bytes after those that one transition leaves unconsumed
/// does not change that transition.
proof fn lemma_step_extend(s: State, a: Seq<u8>, b: Seq<u8>, hdr: Option<Seq<u8>>)
    requires
        s.step(a, hdr) matches Ok((_, m)) ==> m < a.len(),
    ensures
        s.step(a + b, hdr) == s.step(a, hdr),
{
    s.lemma_step_progress(a, hdr);
    if let Ok((t, m)) = s.step(a, hdr) {
        assert((a + b).take(m as int) =~= a.take(m as int));
    } else {
        match s {
            State::ReceivingEof(rem) => {
                let len = if rem < a.len() { rem as int } else { a.len() as int };
                assert((a + b).take(len) =~= a.take(len));
            },
            _ => {},
        }
    }
}

/// A transition that consumes all of a non-empty buffer: more bytes after
/// it are consumed as the same transition followed by one over them.
proof fn lemma_step_join(s: State, a: Seq<u8>, b: Seq<u8>, hdr: Option<Seq<u8>>)
    requires
        a.len() > 0,
        b.len() > 0,
        s.step(a, hdr) matches Ok((_, m)) && m == a.len(),
    ensures
        ({
            let (t, m) = s.step(a, hdr).unwrap();
            match s.step(a + b, hdr) {
                Ok((s1, n1)) => if n1 == a.len() {
                    s1 == t
                } else {
                    n1 > a.len() && t.step(b, hdr) == Ok::<(State, nat), Error>(
                        (s1, (n1 - a.len()) as nat),
                    )
                },
                Err(e) => t.step(b, hdr) == Err::<(State, nat), Error>(e),
            }
        }),
{
    let ab = a + b;
    match s {
        State::ReceivingHeader(rem, z) => {
            let n1 = if rem < ab.len() { rem as int } else { ab.len() as int };
            assert(ab.take(a.len() as int) =~= a);
            assert(a.take(a.len() as int) =~= a);
            if n1 > a.len() {
                let k = n1 - a.len();
                assert(ab.take(n1) =~= a + b.take(k));
                lemma_all_zero_concat(a, b.take(k));
                let t = s.step(a, hdr).unwrap().0;
                assert(t == State::ReceivingHeader((rem - a.len()) as usize, z && all_zero(a)));
                let z2 = z && all_zero(ab.take(n1));
                let s1 = if rem - n1 == 0 {
                    if z2 {
                        State::ReceivingEof(BLOCK_SIZE)
                    } else {
                        State::ReceivedHeader
                    }
                } else {
                    State::ReceivingHeader((rem - n1) as usize, z2)
                };
                assert(s.step(ab, hdr) == Ok::<(State, nat), Error>((s1, n1 as nat)));
                assert(t.step(b, hdr) == Ok::<(State, nat), Error>((s1, k as nat)));
            } else {
                assert(ab.take(n1) =~= a);
            }
        },
        State::ReceivingEof(rem) => {
            let n1 = if rem < ab.len() { rem as int } else { ab.len() as int };
            assert(a.take(a.len() as int) =~= a);
            if n1 > a.len() {
                assert(ab.take(n1) =~= a + b.take(n1 - a.len()));
                lemma_all_zero_concat(a, b.take(n1 - a.len()));
            } else {
                assert(ab.take(n1) =~= a);
            }
        },
        _ => {},
    }
}

/// Incrementality: feeding a stream in two chunks, the second from where
/// the first left the state machine, gives the same outcome as feeding it
/// whole.
#[verifier::rlimit(80)]
pub proof fn lemma_incremental(s: State, a: Seq<u8>, b: Seq<u8>, hdr: Option<Seq<u8>>)
    requires
        a.len() > 0,
        b.len() > 0,
    ensures
        run(s, a + b, hdr) == match run(s, a, hdr) {
            Ok((t, n)) => shift(run(t, b, hdr), n),
            Err(e) => Err(e),
        },
    decreases 16 * a.len() + s.rank(),
{
    let ab = a + b;
    let stop = Seq::<State>::empty();
    s.lemma_step_progress(a, hdr);
    s.lemma_step_progress(ab, hdr);
    match s.step(a, hdr) {
        Err(e) => {
            lemma_step_extend(s, a, b, hdr);
        },
        Ok((t, m)) => {
            if m < a.len() {
                lemma_step_extend(s, a, b, hdr);
                assert(ab.skip(m as int) =~= a.skip(m as int) + b);
                lemma_incremental(t, a.skip(m as int), b, hdr);
                match run(t, a.skip(m as int), hdr) {
                    Ok((t2, n2)) => {},
                    Err(_) => {},
                }
            } else {
                lemma_step_join(s, a, b, hdr);
                assert(run(s, a, hdr) == Ok::<(State, nat), Error>((t, m)));
                t.lemma_step_progress(b, hdr);
                match s.step(ab, hdr) {
                    Ok((s1, n1)) => {
                        if n1 == a.len() {
                            assert(ab.skip(n1 as int) =~= b);
                        } else {
                            assert(ab.skip(n1 as int) =~= b.skip(n1 - a.len()));
                        }
                    },
                    Err(_) => {},
                }
            }
        },
    }
}

/// Incrementality with stopping states: when a run over a first chunk ends
/// by running out of bytes, in a state that is not a stopping one, going on
/// over a second chunk from there gives the outcome of the run over both.
#[verifier::rlimit(80)]
pub proof fn lemma_incremental_stops(
    s: State,
    stop: Seq<State>,
    a: Seq<u8>,
    b: Seq<u8>,
    hdr: Option<Seq<u8>>,
)
    requires
        a.len() > 0,
        b.len() > 0,
        s.run_until(stop, a, hdr) matches Ok((t, _)) && !stop.contains(t),
    ensures
        s.run_until(stop, a, hdr) matches Ok((t, n)) && n == a.len() && s.run_until(stop, a + b, hdr)
            == shift(t.run_until(stop, b, hdr), n),
    decreases 16 * a.len() + s.rank(),
{
    let ab = a + b;
    s.lemma_step_progress(a, hdr);
    s.lemma_step_progress(ab, hdr);
    match s.step(a, hdr) {
        Err(e) => {},
        Ok((t, m)) => {
            if m < a.len() {
                lemma_step_extend(s, a, b, hdr);
                assert(ab.skip(m as int) =~= a.skip(m as int) + b);
                lemma_incremental_stops(t, stop, a.skip(m as int), b, hdr);
            } else {
                lemma_step_join(s, a, b, hdr);
                t.lemma_step_progress(b, hdr);
                match s.step(ab, hdr) {
                    Ok((s1, n1)) => {
                        if n1 == a.len() {
                            assert(ab.skip(n1 as int) =~= b);
                        } else {
                            assert(ab.skip(n1 as int) =~= b.skip(n1 - a.len()));
                        }
                    },
                    Err(_) => {},
                }
            }
        },
    }
}

/// Chunk independence of the search for the next entry: after a search
/// over a chunk `a` runs out of bytes, searching the next chunk `b` from
/// the state it settled in gives the outcome of searching `a` and `b`
/// together, shifted by the length of `a`; and the header bytes it then
/// holds are the last ones of those it held before and `a`.
pub proof fn lemma_next_entry_chunks<T>(
    o: Archive<T>,
    f: Archive<T>,
    r: Result<Step<Option<Entry>>, ArchiveError>,
    b: Seq<u8>,
)
    requires
        !o.spec_state().spec_is_terminal(),
        o.buffered_view().len() > 0,
        b.len() > 0,
        Archive::next_entry_step(o, f, r),
        r matches Ok(Step::Pending),
    ensures
        scan(o.spec_state(), o.buffered_view() + b) == shift(
            scan(f.spec_state(), b),
            o.buffered_view().len(),
        ),
        f.spec_state() matches State::ReceivingHeader(rem, _) ==> crate::read::head_prefix(
            f.spec_state(),
            f.head_view(),
        ) == crate::read::last_bytes(
            crate::read::head_prefix(o.spec_state(), o.head_view()) + o.buffered_view(),
            BLOCK_SIZE - rem,
        ),
{
    let a = o.buffered_view();
    let t = scan(o.spec_state(), a)->Ok_0.0;
    lemma_incremental_stops(o.spec_state(), stops(), a, b, None);
    crate::state::lemma_settle_step(t, b);
}

/// A transition that consumes nothing leaves a run over a non-empty buffer
/// to the state it reaches.
proof fn lemma_run_zero_step(s: State, b: Seq<u8>, hdr: Option<Seq<u8>>, t: State)
    requires
        b.len() > 0,
        s.step(b, hdr) == Ok::<(State, nat), Error>((t, 0)),
    ensures
        run(s, b, hdr) == run(t, b, hdr),
{
    assert(b.skip(0) =~= b);
    match run(t, b, hdr) {
        Ok((_, _)) => {},
        Err(_) => {},
    }
}

/// The zero padding that follows `n` payload bytes.
pub open spec fn padding(n: u64) -> Seq<u8> {
    Seq::new(align_of(n) as nat, |i: int| 0u8)
}

/// Round trip of one entry: the bytes written for an entry (its header
/// block, its payload, and zero padding to a block boundary) followed by
/// the end marker are read back by the state machine as that header block,
/// a payload of exactly the header's size, and the end of the archive, with
/// every byte consumed.
#[verifier::rlimit(40)]
pub proof fn lemma_entry_round_trip(h: Seq<u8>, p: Seq<u8>)
    requires
        h.len() == BLOCK_SIZE,
        !all_zero(h),
        p.len() <= u64::MAX,
        tar_entry_size(h) == Some(p.len() as u64),
    ensures
        run(State::ExpectingHeader, h, Some(h)) == Ok::<(State, nat), Error>(
            (State::ReceivedHeader, BLOCK_SIZE as nat),
        ),
        p.len() > 0 ==> run(State::ReceivedHeader, p, Some(h)) == Ok::<(State, nat), Error>(
            (State::ReceivedData, p.len()),
        ),
        run(
            State::ExpectingHeader,
            h + p + padding(p.len() as u64) + zero_block() + zero_block(),
            Some(h),
        ) == Ok::<(State, nat), Error>(
            (
                State::ReceivedEof,
                (BLOCK_SIZE + p.len() + align_of(p.len() as u64) + 2 * BLOCK_SIZE) as nat,
            ),
        ),
{
    let hdr = Some(h);
    let size = p.len() as u64;
    let a = align_of(size);
    let d = padding(size);
    let z = zero_block() + zero_block();
    let dz = d + z;
    let rest = p + dz;
    assert(h + p + d + zero_block() + zero_block() =~= h + rest);
    assert(z.len() == 2 * BLOCK_SIZE);
    // The header block.
    let rh = State::ReceivingHeader(BLOCK_SIZE, true);
    assert(h.take(BLOCK_SIZE as int) =~= h);
    assert(rh.step(h, hdr) == Ok::<(State, nat), Error>((State::ReceivedHeader, BLOCK_SIZE as nat)));
    assert(rh.run_until(Seq::empty(), h, hdr) == Ok::<(State, nat), Error>(
        (State::ReceivedHeader, BLOCK_SIZE as nat),
    ));
    lemma_run_zero_step(State::ExpectingHeader, h, hdr, rh);
    lemma_incremental(State::ExpectingHeader, h, rest, hdr);
    // The payload.
    let rd = State::ReceivingData(size);
    lemma_run_zero_step(State::ReceivedHeader, rest, hdr, rd);
    if p.len() > 0 {
        assert(p.take(p.len() as int) =~= p);
        assert(rd.step(p, hdr) == Ok::<(State, nat), Error>((State::ReceivedData, p.len())));
        assert(run(rd, p, hdr) == Ok::<(State, nat), Error>((State::ReceivedData, p.len())));
        lemma_run_zero_step(State::ReceivedHeader, p, hdr, rd);
        lemma_incremental(rd, p, dz, hdr);
    } else {
        assert(rest =~= dz);
        assert(rd.step(dz, hdr) == Ok::<(State, nat), Error>((State::ReceivedData, 0)));
        lemma_run_zero_step(rd, dz, hdr, State::ReceivedData);
    }
    // The padding.
    let ad = State::AligningData(a as usize);
    lemma_run_zero_step(State::ReceivedData, dz, hdr, ad);
    if a > 0 {
        assert(d.take(a) =~= d);
        assert(all_zero(d));
        assert(ad.step(d, hdr) == Ok::<(State, nat), Error>((State::AlignedData, a as nat)));
        assert(run(ad, d, hdr) == Ok::<(State, nat), Error>((State::AlignedData, a as nat)));
        lemma_incremental(ad, d, z, hdr);
    } else {
        assert(dz =~= z);
        assert(ad.step(z, hdr) == Ok::<(State, nat), Error>((State::AlignedData, 0)));
        lemma_run_zero_step(ad, z, hdr, State::AlignedData);
    }
    // The end marker.
    lemma_run_zero_step(State::AlignedData, z, hdr, State::ExpectingHeader);
    lemma_two_empty_blocks(hdr);
}

/// End of archive: two empty blocks from the start of a header reach the
/// end state, consuming both.
pub proof fn lemma_two_empty_blocks(hdr: Option<Seq<u8>>)
    ensures
        run(State::ExpectingHeader, zero_block() + zero_block(), hdr) == Ok::<(State, nat), Error>(
            (State::ReceivedEof, 2 * BLOCK_SIZE as nat),
        ),
{
    let z = zero_block();
    let zz = z + z;
    let rh = State::ReceivingHeader(BLOCK_SIZE, true);
    assert(zz.skip(0) =~= zz);
    assert(zz.take(BLOCK_SIZE as int) =~= z);
    assert(all_zero(z));
    assert(rh.step(zz, hdr) == Ok::<(State, nat), Error>((State::ReceivingEof(BLOCK_SIZE), BLOCK_SIZE as nat)));
    let rest = zz.skip(BLOCK_SIZE as int);
    assert(rest =~= z);
    assert(rest.take(BLOCK_SIZE as int) =~= z);
    assert(State::ReceivingEof(BLOCK_SIZE).step(rest, hdr) == Ok::<(State, nat), Error>(
        (State::ReceivedEof, BLOCK_SIZE as nat),
    ));
    assert(State::ReceivingEof(BLOCK_SIZE).run_until(Seq::empty(), rest, hdr) == Ok::<
        (State, nat),
        Error,
    >((State::ReceivedEof, BLOCK_SIZE as nat)));
    assert(rh.run_until(Seq::empty(), zz, hdr) == Ok::<(State, nat), Error>(
        (State::ReceivedEof, 2 * BLOCK_SIZE as nat),
    ));
}

/// A single empty block followed by a non-zero byte is rejected as a
/// malformed end of archive.
pub proof fn lemma_empty_block_then_data(b: Seq<u8>, hdr: Option<Seq<u8>>)
    requires
        b.len() > 0,
        b[0] != 0,
    ensures
        run(State::ExpectingHeader, zero_block() + b, hdr) == Err::<(State, nat), Error>(
            Error::ExpectingEmptyBlock,
        ),
{
    let z = zero_block();
    let zb = z + b;
    let rh = State::ReceivingHeader(BLOCK_SIZE, true);
    assert(zb.skip(0) =~= zb);
    assert(zb.take(BLOCK_SIZE as int) =~= z);
    assert(all_zero(z));
    assert(rh.step(zb, hdr) == Ok::<(State, nat), Error>((State::ReceivingEof(BLOCK_SIZE), BLOCK_SIZE as nat)));
    let rest = zb.skip(BLOCK_SIZE as int);
    assert(rest =~= b);
    let len = if BLOCK_SIZE < b.len() { BLOCK_SIZE as int } else { b.len() as int };
    assert(b.take(len)[0] == b[0]);
    assert(State::ReceivingEof(BLOCK_SIZE).step(rest, hdr) == Err::<(State, nat), Error>(
        Error::ExpectingEmptyBlock,
    ));
    assert(State::ReceivingEof(BLOCK_SIZE).run_until(Seq::empty(), rest, hdr) == Err::<
        (State, nat),
        Error,
    >(Error::ExpectingEmptyBlock));
    assert(rh.run_until(Seq::empty(), zb, hdr) == Err::<(State, nat), Error>(
        Error::ExpectingEmptyBlock,
    ));
}

/// Terminal safety: once the end of the archive is reached, any further
/// transition fails, whatever bytes it is given.
pub proof fn lemma_terminal_safety(b: Seq<u8>, hdr: Option<Seq<u8>>, stop: Seq<State>)
    ensures
        State::ReceivedEof.step(b, hdr) == Err::<(State, nat), Error>(Error::Eof),
        State::ReceivedEof.run_until(stop, b, hdr) == Err::<(State, nat), Error>(Error::Eof),
{
}

/// Sum of a list of read sizes.
pub open spec fn sum(amts: Seq<u64>) -> int
    decreases amts.len(),
{
    if amts.len() == 0 {
        0
    } else {
        amts[0] + sum(amts.drop_first())
    }
}

/// The state after payload reads of the given sizes are consumed in turn,
/// as [`crate::Archive::consume_entry`] moves it, from `rem` payload bytes
/// left of an entry of `len` bytes.
pub open spec fn after_reads(rem: u64, len: u64, amts: Seq<u64>) -> State
    decreases amts.len(),
{
    if amts.len() == 0 {
        State::ReceivingData(rem)
    } else if amts[0] == rem {
        State::AligningData(align_of(len) as usize)
    } else {
        after_reads((rem - amts[0]) as u64, len, amts.drop_first())
    }
}

/// Byte conservation on reading: reads of positive sizes that together
/// take no more than the payload leave the entry's payload phase exactly
/// when their sizes add up to the payload size.
pub proof fn lemma_read_accounting(rem: u64, len: u64, amts: Seq<u64>)
    requires
        forall|i: int| 0 <= i < amts.len() ==> amts[i] > 0,
        sum(amts) <= rem,
    ensures
        after_reads(rem, len, amts) == if sum(amts) == rem {
            if amts.len() == 0 {
                State::ReceivingData(rem)
            } else {
                State::AligningData(align_of(len) as usize)
            }
        } else {
            State::ReceivingData((rem - sum(amts)) as u64)
        },
    decreases amts.len(),
{
    if amts.len() > 0 {
        let rest = amts.drop_first();
        assert forall|i: int| 0 <= i < rest.len() implies rest[i] > 0 by {
            assert(rest[i] == amts[i + 1]);
        }
        lemma_sum_nonneg(rest);
        if amts[0] != rem {
            lemma_read_accounting((rem - amts[0]) as u64, len, rest);
            if rest.len() == 0 {
                assert(sum(amts) == amts[0]);
            }
        } else {
            assert(sum(rest) == 0);
        }
    }
}

/// A sum of sizes is not negative, and is zero only for an empty list of
/// positive sizes.
proof fn lemma_sum_nonneg(amts: Seq<u64>)
    requires
        forall|i: int| 0 <= i < amts.len() ==> amts[i] > 0,
    ensures
        sum(amts) >= 0,
        amts.len() > 0 ==> sum(amts) > 0,
    decreases amts.len(),
{
    if amts.len() > 0 {
        let rest = amts.drop_first();
        assert forall|i: int| 0 <= i < rest.len() implies rest[i] > 0 by {
            assert(rest[i] == amts[i + 1]);
        }
        lemma_sum_nonneg(rest);
    }
}

/// Byte conservation per entry: a header block, the payload, and the
/// padding that the writer adds after it fill a whole number of blocks, the
/// payload rounded up to the next block.
pub proof fn lemma_entry_footprint(size: u64)
    ensures
        (size + align_of(size)) % (BLOCK_SIZE as int) == 0,
        0 <= align_of(size) < BLOCK_SIZE,
        size + align_of(size) == crate::fixture::round_up(size as int),
{
    let n = size as int;
    let r = n % 512;
    let q = n / 512;
    vstd::arithmetic::div_mod::lemma_fundamental_div_mod(n, 512);
    assert(n == 512 * q + r);
    vstd::arithmetic::div_mod::lemma_mod_multiples_basic(q, 512);
    vstd::arithmetic::div_mod::lemma_mod_multiples_basic(q + 1, 512);
    assert(q * 512 == 512 * q) by (nonlinear_arith);
    assert((q + 1) * 512 == 512 * q + 512) by (nonlinear_arith);
}

/// The scan for the next entry from the start of a header block, over
/// bytes that begin with a block that is not all zero: it stops at that
/// block, a header.
proof fn lemma_scan_header(h: Seq<u8>, rest: Seq<u8>)
    requires
        h.len() == BLOCK_SIZE,
        !all_zero(h),
    ensures
        scan(State::ExpectingHeader, h + rest) == Ok::<(State, nat), Error>(
            (State::ReceivedHeader, BLOCK_SIZE as nat),
        ),
{
    let b = h + rest;
    let rh = State::ReceivingHeader(BLOCK_SIZE, true);
    assert(b.skip(0) =~= b);
    assert(b.take(BLOCK_SIZE as int) =~= h);
    assert(rh.step(b, None) == Ok::<(State, nat), Error>((State::ReceivedHeader, BLOCK_SIZE as nat)));
    assert(stops().contains(State::ReceivedHeader)) by {
        assert(stops()[0] == State::ReceivedHeader);
    }
    assert(!stops().contains(rh)) by {
        assert(stops() =~= seq![State::ReceivedHeader, State::ReceivedEof]);
    }
    assert(rh.run_until(stops(), b, None) == Ok::<(State, nat), Error>(
        (State::ReceivedHeader, BLOCK_SIZE as nat),
    ));
}

/// The scan for the next entry from the start of a header block reaches
/// the end of the archive only over two empty blocks, and consumes exactly
/// them.
proof fn lemma_scan_eof(b: Seq<u8>)
    requires
        scan(State::ExpectingHeader, b) matches Ok((s, _)) && s is ReceivedEof,
    ensures
        b.len() >= 2 * BLOCK_SIZE,
        all_zero(b.take(2 * BLOCK_SIZE)),
        scan(State::ExpectingHeader, b) == Ok::<(State, nat), Error>(
            (State::ReceivedEof, 2 * BLOCK_SIZE as nat),
        ),
{
    let rh = State::ReceivingHeader(BLOCK_SIZE, true);
    let re = State::ReceivingEof(BLOCK_SIZE);
    assert(stops() =~= seq![State::ReceivedHeader, State::ReceivedEof]);
    assert(!stops().contains(rh));
    assert(!stops().contains(re));
    assert(stops().contains(State::ReceivedEof)) by {
        assert(stops()[1] == State::ReceivedEof);
    }
    assert(b.skip(0) =~= b);
    if b.len() == 0 {
        assert(false);
    }
    assert(scan(State::ExpectingHeader, b) == rh.run_until(stops(), b, None));
    if b.len() < BLOCK_SIZE {
        assert(false);
    }
    let first = b.take(BLOCK_SIZE as int);
    if !all_zero(first) {
        assert(false);
    }
    assert(rh.step(b, None) == Ok::<(State, nat), Error>((re, BLOCK_SIZE as nat)));
    if b.len() == BLOCK_SIZE {
        assert(false);
    }
    let rest = b.skip(BLOCK_SIZE as int);
    assert(rh.run_until(stops(), b, None) == shift(re.run_until(stops(), rest, None), BLOCK_SIZE as nat));
    if rest.len() < BLOCK_SIZE {
        assert(false);
    }
    let second = rest.take(BLOCK_SIZE as int);
    if !all_zero(second) {
        assert(false);
    }
    assert(re.step(rest, None) == Ok::<(State, nat), Error>((State::ReceivedEof, BLOCK_SIZE as nat)));
    let both = b.take(2 * BLOCK_SIZE);
    assert forall|i: int| 0 <= i < 2 * BLOCK_SIZE implies #[trigger] both[i] == 0 by {
        if i < BLOCK_SIZE {
            assert(first[i] == b[i]);
        } else {
            assert(second[i - BLOCK_SIZE] == b[i]);
        }
    }
}

/// End-of-archive detection by the reader: looking for the next entry at
/// the start of a header block gives `None` only after two empty blocks,
/// exactly which it consumes.
pub proof fn lemma_next_entry_end<T>(o: Archive<T>, f: Archive<T>, r: Result<Step<Option<Entry>>, ArchiveError>)
    requires
        o.spec_state() == State::ExpectingHeader,
        Archive::next_entry_step(o, f, r),
        r matches Ok(Step::Ready(None)),
    ensures
        o.buffered_view().len() >= 2 * BLOCK_SIZE,
        all_zero(o.buffered_view().take(2 * BLOCK_SIZE)),
        f.buffered_view() == o.buffered_view().skip(2 * BLOCK_SIZE),
{
    lemma_scan_eof(o.buffered_view());
}

/// The reader rejects an empty block followed by data where the second
/// block of the end marker must be.
pub proof fn lemma_next_entry_empty_block_then_data<T>(
    o: Archive<T>,
    f: Archive<T>,
    r: Result<Step<Option<Entry>>, ArchiveError>,
    d: Seq<u8>,
)
    requires
        o.spec_state() == State::ExpectingHeader,
        o.buffered_view() == zero_block() + d,
        d.len() > 0,
        d[0] != 0,
        Archive::next_entry_step(o, f, r),
    ensures
        r == Err::<Step<Option<Entry>>, ArchiveError>(ArchiveError::Stream(Error::ExpectingEmptyBlock)),
        r->Err_0.spec_kind() == std::io::ErrorKind::InvalidData,
{
    let b = zero_block() + d;
    let rh = State::ReceivingHeader(BLOCK_SIZE, true);
    let re = State::ReceivingEof(BLOCK_SIZE);
    assert(stops() =~= seq![State::ReceivedHeader, State::ReceivedEof]);
    assert(!stops().contains(rh));
    assert(!stops().contains(re));
    assert(b.skip(0) =~= b);
    assert(b.take(BLOCK_SIZE as int) =~= zero_block());
    assert(rh.step(b, None) == Ok::<(State, nat), Error>((re, BLOCK_SIZE as nat)));
    let rest = b.skip(BLOCK_SIZE as int);
    assert(rest =~= d);
    let len = if BLOCK_SIZE < d.len() { BLOCK_SIZE as int } else { d.len() as int };
    assert(d.take(len)[0] == d[0]);
    assert(re.step(rest, None) == Err::<(State, nat), Error>(Error::ExpectingEmptyBlock));
    assert(re.run_until(stops(), rest, None) == Err::<(State, nat), Error>(Error::ExpectingEmptyBlock));
    assert(rh.run_until(stops(), b, None) == Err::<(State, nat), Error>(Error::ExpectingEmptyBlock));
}

/// Checksum enforcement by the reader: a header block whose checksum field
/// holds a number other than the checksum of its bytes gives a checksum
/// error, of kind `InvalidData`, and no entry.
pub proof fn lemma_next_entry_bad_checksum<T>(
    o: Archive<T>,
    f: Archive<T>,
    r: Result<Step<Option<Entry>>, ArchiveError>,
    h: Seq<u8>,
    rest: Seq<u8>,
)
    requires
        o.spec_state() == State::ExpectingHeader,
        o.buffered_view() == h + rest,
        h.len() == BLOCK_SIZE,
        !all_zero(h),
        tar_cksum(h) is Some,
        tar_cksum(h) != Some(checksum_of(h) as u32),
        Archive::next_entry_step(o, f, r),
    ensures
        r == Err::<Step<Option<Entry>>, ArchiveError>(
            ArchiveError::Header(
                (HeaderError::Checksum {
                    expected: tar_cksum(h)->Some_0,
                    actual: checksum_of(h) as u32,
                }),
            ),
        ),
        r->Err_0.spec_kind() == std::io::ErrorKind::InvalidData,
{
    lemma_scan_header(h, rest);
    let b = h + rest;
    assert(b.take(BLOCK_SIZE as int) =~= h);
    assert(Seq::<u8>::empty() + b.take(BLOCK_SIZE as int) =~= h);
    assert(last_block(h) =~= h);
    assert(o.next_header_block(BLOCK_SIZE as int) == h);
}

/// Byte conservation on writing: from the start of a header, an entry of
/// `len` payload bytes puts its header block, its payload and the padding
/// that `poll_finish_entry` owes after it into the stream, a whole number
/// of blocks; finishing the archive then owes two empty blocks.
pub proof fn lemma_write_footprint(len: u64)
    ensures
        BLOCK_SIZE + len + crate::write::pad_owed(State::ReceivedData, len) == BLOCK_SIZE
            + crate::fixture::round_up(len as int),
        crate::write::header_owed(State::ExpectingHeader, zero_block()).len() == BLOCK_SIZE,
        crate::write::eof_owed(State::ExpectingHeader) == 2 * BLOCK_SIZE,
{
    lemma_entry_footprint(len);
}

} // verus!
