//! A fixed-capacity linear byte buffer with a read cursor and a write cursor.
use vstd::prelude::*;

verus! {

/// A buffer of fixed capacity. Bytes between the read cursor and the write
/// cursor are buffered; bytes after the write cursor are available to be
/// filled.
pub struct Buf {
    buf: Vec<u8>,
    /// The write cursor, advanced by filling the buffer.
    cap: usize,
    /// The read cursor, advanced by consuming the buffer; never past `cap`.
    pos: usize,
}

impl Buf {
    /// All bytes of the backing storage.
    pub closed spec fn storage(&self) -> Seq<u8> {
        self.buf@
    }

    /// The write cursor.
    pub closed spec fn write_pos(&self) -> nat {
        self.cap as nat
    }

    /// The read cursor.
    pub closed spec fn read_pos(&self) -> nat {
        self.pos as nat
    }

    pub open spec fn wf(&self) -> bool {
        self.read_pos() <= self.write_pos() <= self.storage().len() <= usize::MAX
    }

    /// The bytes filled but not yet consumed.
    pub open spec fn buffered_view(&self) -> Seq<u8> {
        self.storage().subrange(self.read_pos() as int, self.write_pos() as int)
    }

    /// Number of bytes that can still be filled.
    pub open spec fn free(&self) -> nat {
        (self.storage().len() - self.write_pos()) as nat
    }

    /// A buffer of `capacity` zero bytes, with nothing buffered.
    pub fn new(capacity: usize) -> (r: Buf)
        ensures
            r.wf(),
            r.storage() == Seq::new(capacity as nat, |i: int| 0u8),
            r.read_pos() == 0,
            r.write_pos() == 0,
    {
        let buf = vec![0u8; capacity];
        let r = Buf { buf, cap: 0, pos: 0 };
        assert(r.storage() =~= Seq::new(capacity as nat, |i: int| 0u8));
        r
    }

    /// The number of bytes that fit in this buffer.
    pub fn capacity(&self) -> (r: usize)
        ensures
            r == self.storage().len(),
    {
        self.buf.len()
    }

    /// Empties the buffer: both cursors return to the start. The stored
    /// bytes are left as they are.
    pub fn clear(&mut self)
        requires
            old(self).wf(),
        ensures
            final(self).wf(),
            final(self).storage() == old(self).storage(),
            final(self).read_pos() == 0,
            final(self).write_pos() == 0,
    {
        self.cap = 0;
        self.pos = 0;
    }

    /// The region from the start of the buffer to the write cursor, read
    /// from the read cursor on.
    pub fn buffered(&mut self) -> (r: Region<'_>)
        ensures
            *r.buf == *old(self),
            *final(self) == *final(r.buf),
    {
        Region { buf: self }
    }

    /// The bytes filled but not yet consumed.
    pub fn buffered_bytes(&self) -> (r: &[u8])
        requires
            self.wf(),
        ensures
            r@ == self.buffered_view(),
    {
        slice_range(self.buf.as_slice(), self.pos, self.cap)
    }

    /// The region that can be filled; what is written there becomes
    /// buffered as it is committed.
    pub fn available(&mut self) -> (r: RegionMut<'_>)
        ensures
            *r.buf == *old(self),
            *final(self) == *final(r.buf),
    {
        RegionMut { buf: self }
    }

    /// The free tail of the buffer, to be filled in place.
    pub fn available_bytes_mut(&mut self) -> (r: &mut [u8])
        requires
            old(self).wf(),
        ensures
            r@ == old(self).storage().skip(old(self).write_pos() as int),
            final(self).storage() == old(self).storage().take(old(self).write_pos() as int)
                + final(r)@,
            final(self).read_pos() == old(self).read_pos(),
            final(self).write_pos() == old(self).write_pos(),
    {
        let (_, tail) = self.buf.as_mut_slice().split_at_mut(self.cap);
        tail
    }

    /// The number of bytes that can still be filled.
    pub fn remaining(&self) -> (r: usize)
        requires
            self.wf(),
        ensures
            r == self.free(),
    {
        self.buf.len() - self.cap
    }

    /// Marks the next `n` available bytes, filled in place, as buffered.
    pub fn commit_filled(&mut self, n: usize)
        requires
            old(self).wf(),
            n <= old(self).free(),
        ensures
            final(self).wf(),
            final(self).storage() == old(self).storage(),
            final(self).read_pos() == old(self).read_pos(),
            final(self).write_pos() == old(self).write_pos() + n,
    {
        self.cap = self.cap + n;
    }

    /// Copies as much of `data` as fits into the available region and marks
    /// it buffered; returns the number of bytes copied.
    pub fn fill(&mut self, data: &[u8]) -> (n: usize)
        requires
            old(self).wf(),
        ensures
            final(self).wf(),
            n == if data@.len() < old(self).free() {
                data@.len()
            } else {
                old(self).free()
            },
            final(self).buffered_view() == old(self).buffered_view() + data@.take(n as int),
            final(self).read_pos() == old(self).read_pos(),
            final(self).write_pos() == old(self).write_pos() + n,
            final(self).storage() == old(self).storage().take(old(self).write_pos() as int) + data@.take(
                n as int,
            ) + old(self).storage().skip(old(self).write_pos() + n),
    {
        let room = self.buf.len() - self.cap;
        let n = if data.len() < room {
            data.len()
        } else {
            room
        };
        let mut i: usize = 0;
        while i < n
            invariant
                self.wf(),
                i <= n,
                n <= data@.len(),
                self.cap + n <= self.buf@.len(),
                self.pos == old(self).pos,
                self.cap == old(self).cap,
                self.buf@.len() == old(self).buf@.len(),
                forall|k: int|
                    0 <= k < self.buf@.len() ==> #[trigger] self.buf@[k] == if self.cap <= k
                        < self.cap + i {
                        data@[k - self.cap]
                    } else {
                        old(self).buf@[k]
                    },
            decreases n - i,
        {
            let at = self.cap + i;
            self.buf.set(at, data[i]);
            i = i + 1;
        }
        self.cap = self.cap + n;
        assert(self.buffered_view() =~= old(self).buffered_view() + data@.take(n as int));
        assert(self.storage() =~= old(self).storage().take(old(self).write_pos() as int) + data@.take(
            n as int,
        ) + old(self).storage().skip(old(self).write_pos() + n));
        n
    }

    /// Marks the first `amt` buffered bytes consumed; the buffer is emptied
    /// when nothing is left.
    pub fn consume(&mut self, amt: usize)
        requires
            old(self).wf(),
            amt <= old(self).buffered_view().len(),
        ensures
            final(self).wf(),
            final(self).storage() == old(self).storage(),
            final(self).buffered_view() == old(self).buffered_view().skip(amt as int),
            amt < old(self).buffered_view().len() ==> final(self).write_pos() == old(self).write_pos(),
            amt == old(self).buffered_view().len() ==> final(self).write_pos() == 0
                && final(self).read_pos() == 0,
            final(self).read_pos() == final(self).write_pos() ==> final(self).write_pos() == 0,
    {
        self.pos = self.pos + amt;
        if self.pos == self.cap {
            self.clear();
        }
        assert(self.buffered_view() =~= old(self).buffered_view().skip(amt as int));
    }
}

/// The bytes `buf[lo..hi]`.
pub fn slice_range(buf: &[u8], lo: usize, hi: usize) -> (r: &[u8])
    requires
        lo <= hi <= buf@.len(),
    ensures
        r@ == buf@.subrange(lo as int, hi as int),
{
    let (head, _) = buf.split_at(hi);
    let (_, mid) = head.split_at(lo);
    mid
}

/// A cursor over a region of a buffer.
pub trait ReadableRegion {
    /// The complete region.
    spec fn region(&self) -> Seq<u8>;

    /// The cursor, counted from the start of the region.
    spec fn cursor(&self) -> nat;

    /// The number of bytes this region counts as holding.
    spec fn held(&self) -> nat;

    /// Whether the cursor may be moved to `pos`.
    spec fn can_move_to(&self, pos: int) -> bool;

    spec fn inv(&self) -> bool;

    proof fn lemma_inv(&self)
        requires
            self.inv(),
        ensures
            self.cursor() <= self.region().len() <= usize::MAX,
            self.can_move_to(self.cursor() as int),
            forall|p: int| #[trigger] self.can_move_to(p) ==> 0 <= p <= self.region().len(),
    ;

    /// The complete region.
    fn buf(&self) -> (r: &[u8])
        requires
            self.inv(),
        ensures
            r@ == self.region(),
    ;

    /// The number of bytes in the region.
    fn len(&self) -> (r: usize)
        requires
            self.inv(),
        ensures
            r == self.held(),
    ;

    /// The cursor, counted from the start of the region.
    fn position(&self) -> (r: usize)
        requires
            self.inv(),
        ensures
            r == self.cursor(),
    ;

    fn set_position(&mut self, pos: usize)
        requires
            old(self).inv(),
            old(self).can_move_to(pos as int),
        ensures
            final(self).inv(),
            final(self).cursor() == pos,
            final(self).region() == old(self).region(),
    ;

    /// The total number of bytes that fit in the region.
    fn capacity(&self) -> (r: usize)
        requires
            self.inv(),
        ensures
            r == self.region().len(),
    {
        self.buf().len()
    }

    /// The bytes after the cursor.
    fn remaining(&self) -> (r: usize)
        requires
            self.inv(),
        ensures
            r == self.region().len() - self.cursor(),
    {
        proof {
            self.lemma_inv();
        }
        self.capacity() - self.position()
    }

    /// Whether the region holds no bytes.
    fn is_empty(&self) -> (r: bool)
        requires
            self.inv(),
        ensures
            r == (self.held() == 0),
    {
        self.len() == 0
    }

    /// Advances the cursor by `amt` bytes.
    fn commit(&mut self, amt: usize)
        requires
            old(self).inv(),
            old(self).can_move_to(old(self).cursor() + amt),
        ensures
            final(self).inv(),
            final(self).cursor() == old(self).cursor() + amt,
            final(self).region() == old(self).region(),
    {
        proof {
            self.lemma_inv();
        }
        let pos = self.position();
        self.set_position(pos + amt);
    }

    /// The bytes after the cursor.
    fn bytes(&self) -> (r: &[u8])
        requires
            self.inv(),
        ensures
            r@ == self.region().skip(self.cursor() as int),
    {
        proof {
            self.lemma_inv();
        }
        let start = self.position();
        let all = self.buf();
        slice_range(all, start, all.len())
    }
}

/// A cursor over a region of a buffer that can also be written.
pub trait WritableRegion: ReadableRegion {
    /// The bytes after the cursor, to be written in place.
    fn bytes_mut(&mut self) -> (r: &mut [u8])
        requires
            old(self).inv(),
        ensures
            r@ == old(self).region().skip(old(self).cursor() as int),
            final(self).cursor() == old(self).cursor(),
            final(self).region() == old(self).region().take(old(self).cursor() as int) + final(r)@,
    ;

    /// Copies as much of `slice` as fits after the cursor and advances the
    /// cursor past it; returns the number of bytes copied.
    fn fill(&mut self, slice: &[u8]) -> (n: usize)
        requires
            old(self).inv(),
        ensures
            final(self).inv(),
            n == if slice@.len() < old(self).region().len() - old(self).cursor() {
                slice@.len()
            } else {
                (old(self).region().len() - old(self).cursor()) as nat
            },
            final(self).cursor() == old(self).cursor() + n,
            final(self).region() == old(self).region().take(old(self).cursor() as int)
                + slice@.take(n as int) + old(self).region().skip(old(self).cursor() + n),
    ;

    /// Fills from each slice in turn; returns the number of bytes copied.
    fn fill_from_slices(&mut self, slices: &[&[u8]]) -> (n: usize)
        requires
            old(self).inv(),
        ensures
            final(self).inv(),
            final(self).cursor() == old(self).cursor() + n,
            n == if joined(slices@).len() < old(self).region().len() - old(self).cursor() {
                joined(slices@).len()
            } else {
                (old(self).region().len() - old(self).cursor()) as nat
            },
            final(self).region() == old(self).region().take(old(self).cursor() as int) + joined(
                slices@,
            ).take(n as int) + old(self).region().skip(old(self).cursor() + n),
    {
        let mut n: usize = 0;
        let mut i: usize = 0;
        let ghost c0 = self.cursor() as int;
        let ghost r0 = self.region();
        proof {
            self.lemma_inv();
            assert(slices@.take(0) =~= Seq::<&[u8]>::empty());
            assert(r0.take(c0) + Seq::<u8>::empty() + r0.skip(c0) =~= r0);
        }
        while i < slices.len()
            invariant
                i <= slices@.len(),
                self.inv(),
                c0 == old(self).cursor(),
                r0 == old(self).region(),
                c0 <= r0.len(),
                self.region().len() == r0.len(),
                self.cursor() == c0 + n,
                n == if joined(slices@.take(i as int)).len() < r0.len() - c0 {
                    joined(slices@.take(i as int)).len()
                } else {
                    (r0.len() - c0) as nat
                },
                self.region() == r0.take(c0) + joined(slices@.take(i as int)).take(n as int) + r0.skip(
                    c0 + n,
                ),
            decreases slices@.len() - i,
        {
            let ghost prev = joined(slices@.take(i as int));
            let ghost reg = self.region();
            proof {
                self.lemma_inv();
                assert(slices@.take(i + 1).drop_last() =~= slices@.take(i as int));
                assert(slices@.take(i + 1).last() == slices@[i as int]);
            }
            let k = self.fill(slices[i]);
            proof {
                let piece = slices@[i as int]@;
                assert(joined(slices@.take(i + 1)) == prev + piece);
                assert((prev + piece).take(n + k) =~= prev.take(n as int) + piece.take(k as int));
                assert(reg.take(c0 + n) =~= r0.take(c0) + prev.take(n as int));
                assert(reg.skip(c0 + n + k) =~= r0.skip(c0 + n + k));
                assert(self.region() =~= r0.take(c0) + (prev + piece).take(n + k) + r0.skip(c0 + n + k));
            }
            n = n + k;
            i = i + 1;
        }
        assert(slices@.take(i as int) =~= slices@);
        n
    }
}

/// The bytes of a list of slices, one after another.
pub open spec fn joined(slices: Seq<&[u8]>) -> Seq<u8>
    decreases slices.len(),
{
    if slices.len() == 0 {
        Seq::empty()
    } else {
        joined(slices.drop_last()) + slices.last()@
    }
}

/// The buffered region of a [`Buf`]: from the start of the buffer to the
/// write cursor, with the read cursor as its cursor.
pub struct Region<'a> {
    pub buf: &'a mut Buf,
}

/// The whole of a [`Buf`], with the write cursor as its cursor.
pub struct RegionMut<'a> {
    pub buf: &'a mut Buf,
}

impl<'a> ReadableRegion for Region<'a> {
    open spec fn region(&self) -> Seq<u8> {
        self.buf.storage().take(self.buf.write_pos() as int)
    }

    open spec fn cursor(&self) -> nat {
        self.buf.read_pos()
    }

    open spec fn held(&self) -> nat {
        (self.buf.write_pos() - self.buf.read_pos()) as nat
    }

    open spec fn can_move_to(&self, pos: int) -> bool {
        0 <= pos <= self.buf.write_pos()
    }

    open spec fn inv(&self) -> bool {
        self.buf.wf()
    }

    proof fn lemma_inv(&self) {
        assert(self.buf.wf());
        assert(self.cursor() == self.buf.read_pos());
        assert(self.can_move_to(self.cursor() as int));
        assert(self.region().len() == self.buf.write_pos());
    }


    fn buf(&self) -> (r: &[u8]) {
        slice_range(self.buf.buf.as_slice(), 0, self.buf.cap)
    }

    fn len(&self) -> (r: usize) {
        self.buf.cap - self.buf.pos
    }

    fn position(&self) -> (r: usize) {
        self.buf.pos
    }

    fn set_position(&mut self, pos: usize) {
        self.buf.pos = pos;
    }
}

impl<'a> ReadableRegion for RegionMut<'a> {
    open spec fn region(&self) -> Seq<u8> {
        self.buf.storage()
    }

    open spec fn cursor(&self) -> nat {
        self.buf.write_pos()
    }

    open spec fn held(&self) -> nat {
        self.buf.write_pos()
    }

    open spec fn can_move_to(&self, pos: int) -> bool {
        self.buf.read_pos() <= pos <= self.buf.storage().len()
    }

    open spec fn inv(&self) -> bool {
        self.buf.wf()
    }

    proof fn lemma_inv(&self) {
        assert(self.buf.wf());
        assert(self.cursor() == self.buf.write_pos());
        assert(self.can_move_to(self.cursor() as int));
        assert(forall|p: int| #[trigger] self.can_move_to(p) ==> 0 <= self.buf.read_pos() <= p);
    }

    fn buf(&self) -> (r: &[u8]) {
        self.buf.buf.as_slice()
    }

    fn len(&self) -> (r: usize) {
        self.buf.cap
    }

    fn position(&self) -> (r: usize) {
        self.buf.cap
    }

    fn set_position(&mut self, pos: usize) {
        self.buf.cap = pos;
    }
}

impl<'a> WritableRegion for RegionMut<'a> {
    fn bytes_mut(&mut self) -> (r: &mut [u8]) {
        self.buf.available_bytes_mut()
    }

    fn fill(&mut self, slice: &[u8]) -> (n: usize) {
        self.buf.fill(slice)
    }
}

} // verus!
