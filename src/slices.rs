//! Lists of byte slices read as one logical byte stream, and split at a byte
//! offset without copying.
use vstd::prelude::*;

verus! {

/// The bytes of each slice of a list.
pub open spec fn pieces_of(slices: Seq<&[u8]>) -> Seq<Seq<u8>> {
    slices.map_values(|b: &[u8]| b@)
}

/// The logical stream of a list of byte sequences.
pub open spec fn flat(pieces: Seq<Seq<u8>>) -> Seq<u8> {
    pieces.flatten()
}

/// The smaller of two integers.
pub open spec fn min(a: int, b: int) -> int {
    if a < b {
        a
    } else {
        b
    }
}

/// The two halves of a list of slices split within one of them: the slices
/// before it and the first part of it.
pub struct Prefix<'a> {
    pub slices: &'a [&'a [u8]],
    pub remainder: &'a [u8],
}

/// The other half: the last part of the split slice, then the slices after
/// it, then the remainder of a prefix that was split in turn.
pub struct Suffix<'a> {
    pub slices: &'a [&'a [u8]],
    pub remainder: &'a [u8],
    pub trailer: &'a [u8],
}

/// A half of a split list of slices, made of whole slices and a remainder.
pub trait Split<'a>: Sized {
    spec fn spec_slices(&self) -> Seq<&'a [u8]>;

    spec fn spec_remainder(&self) -> Seq<u8>;

    fn from_parts(slices: &'a [&'a [u8]], remainder: &'a [u8]) -> (r: Self)
        ensures
            r.spec_slices() == slices@,
            r.spec_remainder() == remainder@,
    ;

    /// The whole slices.
    fn slices(&self) -> (r: &'a [&'a [u8]])
        ensures
            r@ == self.spec_slices(),
    ;

    /// The part of the split slice.
    fn remainder(&self) -> (r: &'a [u8])
        ensures
            r@ == self.spec_remainder(),
    ;

    /// A half with no bytes.
    fn empty() -> (r: Self)
        ensures
            r.spec_slices().len() == 0,
            r.spec_remainder().len() == 0,
    {
        let none: &'a [&'a [u8]] = &[];
        let nothing: &'a [u8] = &[];
        Self::from_parts(none, nothing)
    }
}

impl<'a> Split<'a> for Prefix<'a> {
    open spec fn spec_slices(&self) -> Seq<&'a [u8]> {
        self.slices@
    }

    open spec fn spec_remainder(&self) -> Seq<u8> {
        self.remainder@
    }

    fn from_parts(slices: &'a [&'a [u8]], remainder: &'a [u8]) -> (r: Self) {
        Prefix { slices, remainder }
    }

    fn slices(&self) -> (r: &'a [&'a [u8]]) {
        self.slices
    }

    fn remainder(&self) -> (r: &'a [u8]) {
        self.remainder
    }
}

impl<'a> Split<'a> for Suffix<'a> {
    open spec fn spec_slices(&self) -> Seq<&'a [u8]> {
        self.slices@
    }

    open spec fn spec_remainder(&self) -> Seq<u8> {
        self.remainder@
    }

    fn from_parts(slices: &'a [&'a [u8]], remainder: &'a [u8]) -> (r: Self) {
        let nothing: &'a [u8] = &[];
        Suffix { slices, remainder, trailer: nothing }
    }

    fn slices(&self) -> (r: &'a [&'a [u8]]) {
        self.slices
    }

    fn remainder(&self) -> (r: &'a [u8]) {
        self.remainder
    }
}

/// The buffers of a list of slices, in stream order.
pub trait IterBuffers<'a> {
    spec fn buffers(&self) -> Seq<Seq<u8>>;

    fn iter_buffers(&self) -> (r: Vec<&'a [u8]>)
        ensures
            pieces_of(r@) == self.buffers(),
    ;
}

impl<'a> IterBuffers<'a> for Prefix<'a> {
    /// The whole slices, then the remainder.
    open spec fn buffers(&self) -> Seq<Seq<u8>> {
        pieces_of(self.slices@).push(self.remainder@)
    }

    fn iter_buffers(&self) -> (r: Vec<&'a [u8]>) {
        let mut v: Vec<&'a [u8]> = Vec::new();
        let mut i: usize = 0;
        while i < self.slices.len()
            invariant
                i <= self.slices@.len(),
                v@ == self.slices@.take(i as int),
            decreases self.slices@.len() - i,
        {
            v.push(self.slices[i]);
            i = i + 1;
            assert(v@ =~= self.slices@.take(i as int));
        }
        v.push(self.remainder);
        assert(pieces_of(v@) =~= self.buffers());
        v
    }
}

impl<'a> IterBuffers<'a> for Suffix<'a> {
    /// The remainder, then the whole slices, then the trailer.
    open spec fn buffers(&self) -> Seq<Seq<u8>> {
        (seq![self.remainder@] + pieces_of(self.slices@)).push(self.trailer@)
    }

    fn iter_buffers(&self) -> (r: Vec<&'a [u8]>) {
        let mut v: Vec<&'a [u8]> = Vec::new();
        v.push(self.remainder);
        let mut i: usize = 0;
        while i < self.slices.len()
            invariant
                i <= self.slices@.len(),
                v@ == seq![self.remainder] + self.slices@.take(i as int),
            decreases self.slices@.len() - i,
        {
            v.push(self.slices[i]);
            i = i + 1;
            assert(v@ =~= seq![self.remainder] + self.slices@.take(i as int));
        }
        assert(v@ =~= seq![self.remainder] + self.slices@);
        v.push(self.trailer);
        assert(pieces_of(v@) =~= self.buffers());
        v
    }
}

/// Sum of the lengths of a list of byte sequences, the way
/// [`Slices::bytes_len`] counts it: saturating at `usize::MAX`.
pub open spec fn saturating_len(pieces: Seq<Seq<u8>>) -> int {
    min(flat(pieces).len() as int, usize::MAX as int)
}

/// A list of slices, read one slice at a time.
pub trait IterSlices<'a> {
    /// The bytes of each slice, in stream order.
    spec fn pieces(&self) -> Seq<Seq<u8>>;

    fn slice_count(&self) -> (r: usize)
        requires
            self.pieces().len() <= usize::MAX,
        ensures
            r == self.pieces().len(),
    ;

    fn slice_at(&self, i: usize) -> (r: &'a [u8])
        requires
            i < self.pieces().len(),
        ensures
            r@ == self.pieces()[i as int],
    ;
}

/// A list of slices that can be split at a byte offset.
pub trait Slices<'a>: IterSlices<'a> {
    /// All the bytes, as a prefix.
    fn as_prefix(&self) -> (r: Prefix<'a>)
        ensures
            flat(r.buffers()) == flat(self.pieces()),
    ;

    /// Splits within slice `index`, `offset` bytes into it.
    fn split_at_index(&self, index: usize, offset: usize) -> (r: (Prefix<'a>, Suffix<'a>))
        requires
            index < self.pieces().len(),
            offset < self.pieces()[index as int].len(),
        ensures
            flat(r.0.buffers()) == flat(self.pieces().take(index as int)) + self.pieces()[index as int].take(
                offset as int,
            ),
            r.0.slices@.len() == index,
            flat(r.0.buffers()) + flat(r.1.buffers()) == flat(self.pieces()),
    ;

    /// Splits the stream at a byte offset; an offset past its end gives all
    /// of it as the prefix.
    fn split_at_byte_offset(&self, offset: usize) -> (r: (Prefix<'a>, Suffix<'a>))
        requires
            self.pieces().len() <= usize::MAX,
        ensures
            flat(r.0.buffers()) == flat(self.pieces()).take(
                min(offset as int, flat(self.pieces()).len() as int),
            ),
            flat(r.0.buffers()) + flat(r.1.buffers()) == flat(self.pieces()),
    {
        let ghost ps = self.pieces();
        let mut rem: usize = offset;
        let mut index: usize = 0;
        let count = self.slice_count();
        while index < count
            invariant
                ps == self.pieces(),
                count == ps.len(),
                index <= count,
                rem + flat(ps.take(index as int)).len() == offset,
            decreases count - index,
        {
            let len = self.slice_at(index).len();
            proof {
                lemma_flat_take_step(ps, index as int);
            }
            if rem >= len {
                rem = rem - len;
                index = index + 1;
            } else {
                let r = self.split_at_index(index, rem);
                proof {
                    lemma_flat_take_step(ps, index as int);
                    lemma_flat_split(ps, index as int);
                    assert(flat(ps.take(index as int)) + ps[index as int].take(rem as int) =~= flat(ps).take(
                        offset as int,
                    ));
                }
                return r;
            }
        }
        proof {
            assert(ps.take(index as int) =~= ps);
            assert(flat(ps).take(flat(ps).len() as int) =~= flat(ps));
        }
        let p = self.as_prefix();
        let none: &'a [&'a [u8]] = &[];
        let nothing: &'a [u8] = &[];
        let s = Suffix { slices: none, remainder: nothing, trailer: nothing };
        proof {
            assert(nothing@ =~= Seq::<u8>::empty());
            assert(pieces_of(none@) =~= Seq::<Seq<u8>>::empty());
            lemma_flat_cons(nothing@, none@, nothing@);
            assert(flat(s.buffers()) =~= Seq::<u8>::empty());
            assert(flat(p.buffers()) + flat(s.buffers()) =~= flat(ps));
        }
        (p, s)
    }

    /// The total number of bytes, saturating at `usize::MAX`.
    fn bytes_len(&self) -> (r: usize)
        requires
            self.pieces().len() <= usize::MAX,
        ensures
            r == saturating_len(self.pieces()),
    {
        let ghost ps = self.pieces();
        let count = self.slice_count();
        let mut acc: usize = 0;
        let mut i: usize = 0;
        while i < count
            invariant
                ps == self.pieces(),
                count == ps.len(),
                i <= count,
                acc == min(flat(ps.take(i as int)).len() as int, usize::MAX as int),
            decreases count - i,
        {
            let len = self.slice_at(i).len();
            proof {
                lemma_flat_take_step(ps, i as int);
            }
            acc = if acc > usize::MAX - len {
                usize::MAX
            } else {
                acc + len
            };
            i = i + 1;
        }
        proof {
            assert(ps.take(i as int) =~= ps);
        }
        acc
    }

    /// The first `len` bytes of the stream, or all of it if shorter.
    fn take_prefix(&self, len: usize) -> (r: Prefix<'a>)
        requires
            self.pieces().len() <= usize::MAX,
        ensures
            flat(r.buffers()) == flat(self.pieces()).take(
                min(len as int, flat(self.pieces()).len() as int),
            ),
    {
        self.split_at_byte_offset(len).0
    }
}

/// The stream of the first `i + 1` pieces is that of the first `i`, then
/// piece `i`.
pub proof fn lemma_flat_take_step(ps: Seq<Seq<u8>>, i: int)
    requires
        0 <= i < ps.len(),
    ensures
        flat(ps.take(i + 1)) == flat(ps.take(i)) + ps[i],
        flat(ps.take(i)).len() + ps[i].len() <= flat(ps).len(),
{
    assert(ps.take(i + 1) =~= ps.take(i).push(ps[i]));
    ps.take(i).lemma_flatten_push(ps[i]);
    assert(ps =~= ps.take(i + 1) + ps.skip(i + 1));
    vstd::seq_lib::lemma_flatten_concat(ps.take(i + 1), ps.skip(i + 1));
}

/// The stream of a list is that of the pieces before `i`, piece `i`, and the
/// pieces after it.
pub proof fn lemma_flat_split(ps: Seq<Seq<u8>>, i: int)
    requires
        0 <= i < ps.len(),
    ensures
        flat(ps) == flat(ps.take(i)) + ps[i] + flat(ps.skip(i + 1)),
{
    lemma_flat_take_step(ps, i);
    assert(ps =~= ps.take(i + 1) + ps.skip(i + 1));
    vstd::seq_lib::lemma_flatten_concat(ps.take(i + 1), ps.skip(i + 1));
}

/// Whole slices as pieces, then one more piece.
proof fn lemma_flat_push(slices: Seq<&[u8]>, last: Seq<u8>)
    ensures
        flat(pieces_of(slices).push(last)) == flat(pieces_of(slices)) + last,
{
    pieces_of(slices).lemma_flatten_push(last);
}

/// One piece, then whole slices, then one more piece.
proof fn lemma_flat_cons(first: Seq<u8>, slices: Seq<&[u8]>, last: Seq<u8>)
    ensures
        flat((seq![first] + pieces_of(slices)).push(last)) == first + flat(pieces_of(slices)) + last,
{
    vstd::seq_lib::lemma_flatten_concat(seq![first], pieces_of(slices));
    seq![first].lemma_flatten_singleton();
    (seq![first] + pieces_of(slices)).lemma_flatten_push(last);
}

impl<'a> IterSlices<'a> for &'a [&'a [u8]] {
    open spec fn pieces(&self) -> Seq<Seq<u8>> {
        pieces_of(self@)
    }

    fn slice_count(&self) -> (r: usize) {
        self.len()
    }

    fn slice_at(&self, i: usize) -> (r: &'a [u8]) {
        self[i]
    }
}

impl<'a> Slices<'a> for &'a [&'a [u8]] {
    fn as_prefix(&self) -> (r: Prefix<'a>) {
        let nothing: &'a [u8] = &[];
        let p = Prefix { slices: *self, remainder: nothing };
        proof {
            lemma_flat_push(self@, nothing@);
            assert(nothing@ =~= Seq::<u8>::empty());
            assert(flat(pieces_of(self@)) + nothing@ =~= flat(pieces_of(self@)));
        }
        p
    }

    fn split_at_index(&self, index: usize, offset: usize) -> (r: (Prefix<'a>, Suffix<'a>)) {
        let ghost ps = self.pieces();
        let (head, tail) = self.split_at(index);
        proof {
            assert(pieces_of(head@) =~= ps.take(index as int));
            lemma_flat_split(ps, index as int);
            lemma_flat_push(head@, Seq::<u8>::empty());
        }
        if offset == 0 {
            let nothing: &'a [u8] = &[];
            let r = (
                Prefix { slices: head, remainder: nothing },
                Suffix { slices: tail, remainder: nothing, trailer: nothing },
            );
            proof {
                assert(nothing@ =~= Seq::<u8>::empty());
                assert(ps[index as int].take(0) =~= Seq::<u8>::empty());
                assert(pieces_of(tail@) =~= ps.skip(index as int));
                assert(ps.skip(index as int) =~= seq![ps[index as int]] + ps.skip(index + 1));
                vstd::seq_lib::lemma_flatten_concat(seq![ps[index as int]], ps.skip(index + 1));
                seq![ps[index as int]].lemma_flatten_singleton();
                lemma_flat_cons(nothing@, tail@, nothing@);
                assert(flat(r.0.buffers()) + flat(r.1.buffers()) =~= flat(ps));
            }
            return r;
        }
        let (one, rest) = tail.split_at(1);
        let buf = one[0];
        let (left, right) = buf.split_at(offset);
        let nothing: &'a [u8] = &[];
        let r = (
            Prefix { slices: head, remainder: left },
            Suffix { slices: rest, remainder: right, trailer: nothing },
        );
        proof {
            assert(pieces_of(rest@) =~= ps.skip(index + 1));
            assert(buf@ == ps[index as int]);
            assert(right@ + flat(pieces_of(rest@)) + nothing@ =~= right@ + flat(pieces_of(rest@)));
            lemma_flat_push(head@, left@);
            lemma_flat_cons(right@, rest@, nothing@);
            assert(left@ + right@ =~= ps[index as int]);
            assert(flat(r.0.buffers()) + flat(r.1.buffers()) =~= flat(ps));
        }
        r
    }
}

impl<'a> IterSlices<'a> for Prefix<'a> {
    open spec fn pieces(&self) -> Seq<Seq<u8>> {
        self.buffers()
    }

    fn slice_count(&self) -> (r: usize) {
        self.slices.len() + 1
    }

    fn slice_at(&self, i: usize) -> (r: &'a [u8]) {
        if i < self.slices.len() {
            self.slices[i]
        } else {
            self.remainder
        }
    }
}

impl<'a> IterSlices<'a> for Suffix<'a> {
    open spec fn pieces(&self) -> Seq<Seq<u8>> {
        self.buffers()
    }

    fn slice_count(&self) -> (r: usize) {
        self.slices.len() + 2
    }

    fn slice_at(&self, i: usize) -> (r: &'a [u8]) {
        if i == 0 {
            self.remainder
        } else if i <= self.slices.len() {
            self.slices[i - 1]
        } else {
            self.trailer
        }
    }
}

impl<'a> Slices<'a> for Prefix<'a> {
    fn as_prefix(&self) -> (r: Prefix<'a>) {
        Prefix { slices: self.slices, remainder: self.remainder }
    }

    fn split_at_index(&self, index: usize, offset: usize) -> (r: (Prefix<'a>, Suffix<'a>)) {
        let ghost ps = self.pieces();
        let ghost whole = pieces_of(self.slices@);
        let nothing: &'a [u8] = &[];
        proof {
            lemma_flat_push(self.slices@, self.remainder@);
            assert(nothing@ =~= Seq::<u8>::empty());
        }
        if index == self.slices.len() {
            let (left, right) = self.remainder.split_at(offset);
            let none: &'a [&'a [u8]] = &[];
            let r = (
                Prefix { slices: self.slices, remainder: left },
                Suffix { slices: none, remainder: right, trailer: nothing },
            );
            proof {
                assert(ps.take(index as int) =~= whole);
                lemma_flat_push(self.slices@, left@);
                lemma_flat_cons(right@, none@, nothing@);
                assert(pieces_of(none@) =~= Seq::<Seq<u8>>::empty());
                assert(left@ + right@ =~= self.remainder@);
                assert(flat(r.0.buffers()) + flat(r.1.buffers()) =~= flat(ps));
            }
            r
        } else {
            let (head, tail) = self.slices.split_at(index);
            proof {
                assert(pieces_of(head@) =~= ps.take(index as int));
                assert(pieces_of(head@) =~= whole.take(index as int));
                assert(ps[index as int] == whole[index as int]);
                lemma_flat_split(whole, index as int);
            }
            if offset == 0 {
                let r = (
                    Prefix { slices: head, remainder: nothing },
                    Suffix { slices: tail, remainder: nothing, trailer: self.remainder },
                );
                proof {
                    lemma_flat_push(head@, nothing@);
                    assert(ps[index as int].take(0) =~= nothing@);
                    lemma_flat_cons(nothing@, tail@, self.remainder@);
                    assert(pieces_of(tail@) =~= whole.skip(index as int));
                    assert(whole.skip(index as int) =~= seq![whole[index as int]] + whole.skip(index + 1));
                    vstd::seq_lib::lemma_flatten_concat(seq![whole[index as int]], whole.skip(index + 1));
                    seq![whole[index as int]].lemma_flatten_singleton();
                    assert(flat(r.0.buffers()) + flat(r.1.buffers()) =~= flat(ps));
                }
                return r;
            }
            let (one, rest) = tail.split_at(1);
            let buf = one[0];
            let (left, right) = buf.split_at(offset);
            let r = (
                Prefix { slices: head, remainder: left },
                Suffix { slices: rest, remainder: right, trailer: self.remainder },
            );
            proof {
                lemma_flat_push(head@, left@);
                lemma_flat_cons(right@, rest@, self.remainder@);
                assert(pieces_of(rest@) =~= whole.skip(index + 1));
                assert(buf@ == whole[index as int]);
                assert(left@ + right@ =~= whole[index as int]);
                assert(flat(r.0.buffers()) + flat(r.1.buffers()) =~= flat(ps));
            }
            r
        }
    }
}

/// The first `n` bytes of a list of slices, handed out one slice at a time;
/// the last slice handed out may be cut short.
pub struct TakeBytesLen<'a> {
    pub slices: &'a [&'a [u8]],
    pub index: usize,
    pub rem: usize,
}

/// The bytes of a list of slices after the first `n`, handed out one slice
/// at a time; the first slice handed out may start within a slice.
pub struct SkipBytesLen<'a> {
    pub slices: &'a [&'a [u8]],
    pub index: usize,
    pub skip: usize,
}

impl<'a> TakeBytesLen<'a> {
    /// The bytes still to be handed out.
    pub open spec fn rest(&self) -> Seq<u8> {
        let s = flat(pieces_of(self.slices@).skip(self.index as int));
        s.take(min(self.rem as int, s.len() as int))
    }

    pub fn new(slices: &'a [&'a [u8]], n: usize) -> (r: Self)
        ensures
            r.index == 0,
            r.rest() == flat(pieces_of(slices@)).take(min(n as int, flat(pieces_of(slices@)).len() as int)),
    {
        let r = TakeBytesLen { slices, index: 0, rem: n };
        assert(pieces_of(slices@).skip(0) =~= pieces_of(slices@));
        r
    }

    /// The next slice of the first bytes, or `None` when they are all out.
    pub fn next(&mut self) -> (r: Option<&'a [u8]>)
        requires
            old(self).index <= old(self).slices@.len(),
        ensures
            final(self).index <= final(self).slices@.len(),
            final(self).slices == old(self).slices,
            r matches Some(b) ==> old(self).rest() == b@ + final(self).rest() && final(self).index
                == old(self).index + 1,
            r is None ==> old(self).rest().len() == 0,
    {
        let ghost ps = pieces_of(self.slices@);
        if self.rem == 0 {
            return None;
        }
        if self.index >= self.slices.len() {
            proof {
                assert(ps.skip(self.index as int) =~= Seq::<Seq<u8>>::empty());
            }
            return None;
        }
        let buf = self.slices[self.index];
        let ghost i = self.index as int;
        proof {
            assert(ps.skip(i) =~= seq![ps[i]] + ps.skip(i + 1));
            vstd::seq_lib::lemma_flatten_concat(seq![ps[i]], ps.skip(i + 1));
            seq![ps[i]].lemma_flatten_singleton();
        }
        self.index = self.index + 1;
        if self.rem >= buf.len() {
            self.rem = self.rem - buf.len();
            proof {
                let tail = flat(ps.skip(i + 1));
                assert((buf@ + tail).take(min(old(self).rem as int, (buf@ + tail).len() as int)) =~= buf@
                    + tail.take(min(self.rem as int, tail.len() as int)));
            }
            Some(buf)
        } else {
            let (head, _) = buf.split_at(self.rem);
            proof {
                let tail = flat(ps.skip(i + 1));
                assert((buf@ + tail).take(min(old(self).rem as int, (buf@ + tail).len() as int)) =~= head@);
            }
            self.rem = 0;
            proof {
                let tail = flat(ps.skip(i + 1));
                assert(tail.take(0) =~= Seq::<u8>::empty());
                assert(head@ + Seq::<u8>::empty() =~= head@);
            }
            Some(head)
        }
    }
}

impl<'a> SkipBytesLen<'a> {
    /// The bytes still to be handed out.
    pub open spec fn rest(&self) -> Seq<u8> {
        let s = flat(pieces_of(self.slices@).skip(self.index as int));
        s.skip(min(self.skip as int, s.len() as int))
    }

    pub fn new(slices: &'a [&'a [u8]], n: usize) -> (r: Self)
        ensures
            r.index == 0,
            r.rest() == flat(pieces_of(slices@)).skip(min(n as int, flat(pieces_of(slices@)).len() as int)),
    {
        let r = SkipBytesLen { slices, index: 0, skip: n };
        assert(pieces_of(slices@).skip(0) =~= pieces_of(slices@));
        r
    }

    /// The next slice after the skipped bytes, or `None` when none is left.
    pub fn next(&mut self) -> (r: Option<&'a [u8]>)
        requires
            old(self).index <= old(self).slices@.len(),
        ensures
            final(self).index <= final(self).slices@.len(),
            final(self).slices == old(self).slices,
            r matches Some(b) ==> old(self).rest() == b@ + final(self).rest(),
            r is None ==> old(self).rest().len() == 0,
    {
        let ghost ps = pieces_of(self.slices@);
        let ghost start = self.rest();
        let count = self.slices.len();
        while self.index < count
            invariant
                ps == pieces_of(self.slices@),
                count == self.slices@.len(),
                self.index <= count,
                self.slices == old(self).slices,
                start == old(self).rest(),
                self.rest() == start,
            decreases count - self.index,
        {
            let buf = self.slices[self.index];
            let ghost i = self.index as int;
            proof {
                assert(ps.skip(i) =~= seq![ps[i]] + ps.skip(i + 1));
                vstd::seq_lib::lemma_flatten_concat(seq![ps[i]], ps.skip(i + 1));
                seq![ps[i]].lemma_flatten_singleton();
            }
            self.index = self.index + 1;
            proof {
                assert(flat(ps.skip(i)) == buf@ + flat(ps.skip(i + 1)));
                assert(start == (buf@ + flat(ps.skip(i + 1))).skip(
                    min(self.skip as int, (buf@ + flat(ps.skip(i + 1))).len() as int),
                ));
            }
            if self.skip == 0 {
                proof {
                    let tail = flat(ps.skip(i + 1));
                    assert((buf@ + tail).skip(0) =~= buf@ + tail);
                    assert(tail.skip(0) =~= tail);
                    assert(self.rest() == tail);
                }
                return Some(buf);
            }
            if self.skip >= buf.len() {
                let ghost sk = self.skip as int;
                self.skip = self.skip - buf.len();
                proof {
                    let tail = flat(ps.skip(i + 1));
                    assert((buf@ + tail).skip(min(sk, (buf@ + tail).len() as int)) =~= tail.skip(
                        min(self.skip as int, tail.len() as int),
                    ));
                }
            } else {
                let (_, tail_part) = buf.split_at(self.skip);
                let ghost sk = self.skip as int;
                self.skip = 0;
                proof {
                    let tail = flat(ps.skip(i + 1));
                    assert(tail.skip(0) =~= tail);
                    assert((buf@ + tail).skip(sk) =~= tail_part@ + tail);
                    assert(start == (buf@ + tail).skip(sk));
                    assert(self.rest() == tail);
                }
                return Some(tail_part);
            }
        }
        proof {
            assert(ps.skip(self.index as int) =~= Seq::<Seq<u8>>::empty());
        }
        None
    }
}

} // verus!
