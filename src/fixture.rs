//! Builders of archives with a known layout, for exercising the reader and
//! the writer.
use vstd::prelude::*;

use crate::block::{checksum_of, tar_cksum, tar_entry_size, tar_path_bytes, Block, Header, BLOCK_SIZE};

verus! {

/// The block that the header codec makes of a block when it sets its path
/// to `path`, or `None` when the path does not fit.
pub uninterp spec fn tar_with_path(b: Seq<u8>, path: Seq<char>) -> Option<Seq<u8>>;

/// The block that the header codec makes of a block when it sets its size
/// field to `size`.
pub uninterp spec fn tar_with_size(b: Seq<u8>, size: u64) -> Seq<u8>;

/// A blank UStar header: zero bytes but for the magic "ustar\0", the
/// version "00", and a modification time of zero written in octal.
pub open spec fn blank_ustar() -> Seq<u8> {
    Seq::new(
        BLOCK_SIZE as nat,
        |i: int|
            if 136 <= i < 147 || i == 263 || i == 264 {
                48u8
            } else if i == 257 {
                117u8
            } else if i == 258 {
                115u8
            } else if i == 259 {
                116u8
            } else if i == 260 {
                97u8
            } else if i == 261 {
                114u8
            } else {
                0u8
            },
    )
}

/// Relies on `tar::Header::new_ustar`: a zeroed block with the UStar magic
/// and version, and `set_mtime(0)`, which writes eleven octal zeros and a
/// NUL into the modification time field.
#[verifier::external_body]
fn codec_new_ustar() -> (r: [u8; 512])
    ensures
        r@ == blank_ustar(),
{
    *tar::Header::new_ustar().as_bytes()
}

/// Relies on `tar::Header::set_path`, which fails on a path that does not
/// fit in the header.
#[verifier::external_body]
fn codec_set_path(bytes: &[u8; 512], path: &str) -> (r: Option<[u8; 512]>)
    ensures
        match r {
            Some(a) => tar_with_path(bytes@, path@) == Some(a@),
            None => tar_with_path(bytes@, path@) is None,
        },
{
    let mut h = tar::Header::from_byte_slice(bytes).clone();
    h.set_path(path).ok().map(|_| *h.as_bytes())
}

/// Relies on `tar::Header::set_size`, which encodes a size into the size
/// field (bytes 124 to 136), in octal or, for large sizes, in binary, both of
/// which `entry_size` reads back; no other byte changes, so the path stays.
#[verifier::external_body]
fn codec_set_size(bytes: &[u8; 512], size: u64) -> (r: [u8; 512])
    ensures
        r@ == tar_with_size(bytes@, size),
        tar_entry_size(r@) == Some(size),
        tar_path_bytes(r@) == tar_path_bytes(bytes@),
        forall|i: int| 0 <= i < 124 || 136 <= i < BLOCK_SIZE ==> r@[i] == bytes@[i],
{
    let mut h = tar::Header::from_byte_slice(bytes).clone();
    h.set_size(size);
    *h.as_bytes()
}

/// Whether a block is the header that the test builders make for a path
/// and a size: its checksum holds, its size field reads back the size, and
/// its path is what the header codec stored for the path.
pub open spec fn made_header(h: Seq<u8>, path: Seq<char>, size: usize) -> bool {
    &&& h.len() == BLOCK_SIZE
    &&& tar_cksum(h) == Some(checksum_of(h) as u32)
    &&& tar_entry_size(h) == Some(size as u64)
    &&& tar_path_bytes(h) == tar_path_bytes(tar_with_path(blank_ustar(), path)->Some_0)
}

/// The next multiple of the block size from `n` on.
pub open spec fn round_up(n: int) -> int {
    if n % (BLOCK_SIZE as int) == 0 {
        n
    } else {
        n - n % (BLOCK_SIZE as int) + BLOCK_SIZE
    }
}

/// The payload byte at offset `i` of a test entry: the distance from `i` to
/// the next multiple of 255.
pub open spec fn pattern(i: int) -> u8 {
    ((255 - i % 255) % 255) as u8
}

/// The number of bytes of an archive of entries of the given sizes: each
/// header block, each payload padded to a block, and the end marker.
pub open spec fn archive_len(sizes: Seq<usize>) -> int
    decreases sizes.len(),
{
    if sizes.len() == 0 {
        2 * BLOCK_SIZE
    } else {
        BLOCK_SIZE + round_up(sizes[0] as int) + archive_len(sizes.drop_first())
    }
}

/// The sizes of a list of test entries.
pub open spec fn sizes_of(entries: Seq<(&str, usize)>) -> Seq<usize> {
    entries.map_values(|e: (&str, usize)| e.1)
}

/// A finalized UStar header with the given path and size; `None` when the
/// path does not fit.
pub fn make_entry_header(path: &str, size: usize) -> (r: Option<Header>)
    ensures
        r is None <==> tar_with_path(blank_ustar(), path@) is None,
        r matches Some(h) ==> made_header(h@, path@, size),
{
    let blank = codec_new_ustar();
    let named = match codec_set_path(&blank, path) {
        Some(b) => b,
        None => {
            return None;
        },
    };
    let sized = codec_set_size(&named, size as u64);
    let mut header = Header::from_block(Block::from_bytes(sized.as_slice()));
    header.set_cksum();
    proof {
        Header::lemma_len(header);
    }
    Some(header)
}

/// The payload of a test entry of `size` bytes, padded with zeros to a
/// whole number of blocks.
pub fn make_entry_data(size: usize) -> (r: Vec<u8>)
    requires
        size + BLOCK_SIZE <= usize::MAX,
    ensures
        r@.len() == round_up(size as int),
        forall|i: int| 0 <= i < size ==> #[trigger] r@[i] == pattern(i),
        forall|i: int| size <= i < r@.len() ==> #[trigger] r@[i] == 0,
{
    let total = if size % BLOCK_SIZE == 0 {
        size
    } else {
        size - size % BLOCK_SIZE + BLOCK_SIZE
    };
    let mut buf: Vec<u8> = Vec::new();
    let mut i: usize = 0;
    while i < total
        invariant
            i <= total,
            total == round_up(size as int),
            buf@.len() == i,
            forall|k: int| 0 <= k < i && k < size ==> #[trigger] buf@[k] == pattern(k),
            forall|k: int| size <= k < i ==> #[trigger] buf@[k] == 0,
        decreases total - i,
    {
        if i < size {
            buf.push(((255 - i % 255) % 255) as u8);
        } else {
            buf.push(0);
        }
        i = i + 1;
    }
    buf
}

/// The end-of-archive marker: two empty blocks.
pub fn make_eof_data() -> (r: Vec<u8>)
    ensures
        r@ == Seq::new(2 * BLOCK_SIZE as nat, |i: int| 0u8),
{
    let r = vec![0u8; 1024];
    assert(r@ =~= Seq::new(2 * BLOCK_SIZE as nat, |i: int| 0u8));
    r
}

/// The paths of a list of test entries.
pub open spec fn paths_of(entries: Seq<(&str, usize)>) -> Seq<Seq<char>> {
    entries.map_values(|e: (&str, usize)| e.0@)
}

/// Where entry `i` of an archive of entries of the given sizes starts.
pub open spec fn entry_offset(sizes: Seq<usize>, i: int) -> int
    decreases i,
{
    if i <= 0 {
        0
    } else {
        entry_offset(sizes, i - 1) + BLOCK_SIZE + round_up(sizes[i - 1] as int)
    }
}

/// Whether entry `i` of the archive `v` is laid out as the test builders
/// make it: its header block, then its payload padded with zeros.
pub open spec fn entry_at(v: Seq<u8>, paths: Seq<Seq<char>>, sizes: Seq<usize>, i: int) -> bool {
    let o = entry_offset(sizes, i);
    &&& made_header(v.subrange(o, o + BLOCK_SIZE), paths[i], sizes[i])
    &&& forall|k: int|
        0 <= k < round_up(sizes[i] as int) ==> #[trigger] v[o + BLOCK_SIZE + k] == if k < sizes[i] {
            pattern(k)
        } else {
            0u8
        }
}

/// Entry offsets grow with the index.
proof fn lemma_offset_mono(sizes: Seq<usize>, i: int, j: int)
    requires
        0 <= i <= j <= sizes.len(),
    ensures
        entry_offset(sizes, i) <= entry_offset(sizes, j),
    decreases j - i,
{
    if i < j {
        lemma_offset_mono(sizes, i, j - 1);
        assert(round_up(sizes[j - 1] as int) >= 0);
    }
}

/// An archive of test entries with the given paths and sizes; `None` when
/// a path does not fit in a header.
pub fn make_archive_data(entries: &[(&str, usize)]) -> (r: Option<Vec<u8>>)
    requires
        archive_len(sizes_of(entries@)) <= usize::MAX,
    ensures
        r is None <==> exists|i: int|
            0 <= i < entries@.len() && tar_with_path(blank_ustar(), #[trigger] paths_of(entries@)[i])
                is None,
        r matches Some(v) ==> v@.len() == archive_len(sizes_of(entries@)),
        r matches Some(v) ==> forall|i: int|
            0 <= i < entries@.len() ==> #[trigger] entry_at(v@, paths_of(entries@), sizes_of(entries@), i),
        r matches Some(v) ==> forall|k: int|
            v@.len() - 2 * BLOCK_SIZE <= k < v@.len() ==> #[trigger] v@[k] == 0,
{
    let ghost sizes = sizes_of(entries@);
    let ghost paths = paths_of(entries@);
    let mut out: Vec<u8> = Vec::new();
    let mut i: usize = 0;
    assert(sizes.skip(0) =~= sizes);
    while i < entries.len()
        invariant
            i <= entries@.len(),
            sizes == sizes_of(entries@),
            paths == paths_of(entries@),
            archive_len(sizes) <= usize::MAX,
            out@.len() + archive_len(sizes.skip(i as int)) == archive_len(sizes),
            out@.len() == entry_offset(sizes, i as int),
            forall|j: int| 0 <= j < i ==> #[trigger] entry_at(out@, paths, sizes, j),
            forall|j: int| 0 <= j < i ==> tar_with_path(blank_ustar(), #[trigger] paths[j]) is Some,
        decreases entries@.len() - i,
    {
        let (path, size) = entries[i];
        proof {
            let rest = sizes.skip(i as int);
            assert(rest[0] == size);
            assert(rest.drop_first() =~= sizes.skip(i + 1));
            lemma_archive_len_bound(rest.drop_first());
            assert(paths[i as int] == path@);
        }
        let header = match make_entry_header(path, size) {
            Some(h) => h,
            None => {
                return None;
            },
        };
        let head = Block::from_bytes(header.as_bytes().as_slice());
        let mut hv = head_vec(&head);
        let ghost before = out@;
        out.append(&mut hv);
        let mut data = make_entry_data(size);
        let ghost dv = data@;
        out.append(&mut data);
        proof {
            let o = before.len() as int;
            assert(out@.subrange(o, o + BLOCK_SIZE) =~= header@);
            assert forall|k: int| 0 <= k < round_up(size as int) implies #[trigger] out@[o + BLOCK_SIZE
                + k] == if k < size {
                pattern(k)
            } else {
                0u8
            } by {
                assert(out@[o + BLOCK_SIZE + k] == dv[k]);
            }
            assert(entry_at(out@, paths, sizes, i as int));
            assert forall|j: int| 0 <= j < i implies #[trigger] entry_at(out@, paths, sizes, j) by {
                lemma_offset_mono(sizes, j + 1, i as int);
                lemma_offset_mono(sizes, 0, j);
                let oj = entry_offset(sizes, j);
                assert(entry_offset(sizes, j + 1) == oj + BLOCK_SIZE + round_up(sizes[j] as int));
                assert(round_up(sizes[j] as int) >= 0);
                assert(entry_at(before, paths, sizes, j));
                assert(out@.subrange(oj, oj + BLOCK_SIZE) =~= before.subrange(oj, oj + BLOCK_SIZE));
                assert forall|k: int| 0 <= k < round_up(sizes[j] as int) implies #[trigger] out@[oj
                    + BLOCK_SIZE + k] == before[oj + BLOCK_SIZE + k] by {}
            }
        }
        i = i + 1;
    }
    let mut eof = make_eof_data();
    let ghost before = out@;
    out.append(&mut eof);
    proof {
        assert(sizes.skip(i as int) =~= Seq::<usize>::empty());
        assert forall|j: int| 0 <= j < i implies #[trigger] entry_at(out@, paths, sizes, j) by {
            lemma_offset_mono(sizes, j + 1, i as int);
            lemma_offset_mono(sizes, 0, j);
            let oj = entry_offset(sizes, j);
            assert(entry_offset(sizes, j + 1) == oj + BLOCK_SIZE + round_up(sizes[j] as int));
            assert(round_up(sizes[j] as int) >= 0);
            assert(entry_at(before, paths, sizes, j));
            assert(out@.subrange(oj, oj + BLOCK_SIZE) =~= before.subrange(oj, oj + BLOCK_SIZE));
            assert forall|k: int| 0 <= k < round_up(sizes[j] as int) implies #[trigger] out@[oj
                + BLOCK_SIZE + k] == before[oj + BLOCK_SIZE + k] by {}
        }
    }
    Some(out)
}

/// The bytes of a block, as a vector.
fn head_vec(b: &Block) -> (r: Vec<u8>)
    ensures
        r@ == b@,
{
    let bytes = b.as_bytes();
    let mut v: Vec<u8> = Vec::new();
    let mut i: usize = 0;
    while i < bytes.len()
        invariant
            i <= bytes@.len(),
            v@ == bytes@.take(i as int),
        decreases bytes@.len() - i,
    {
        v.push(bytes[i]);
        i = i + 1;
        assert(v@ =~= bytes@.take(i as int));
    }
    assert(bytes@.take(i as int) =~= bytes@);
    v
}

/// An archive is at least its end marker long.
proof fn lemma_archive_len_bound(sizes: Seq<usize>)
    ensures
        archive_len(sizes) >= 2 * BLOCK_SIZE,
    decreases sizes.len(),
{
    if sizes.len() > 0 {
        lemma_archive_len_bound(sizes.drop_first());
    }
}

} // verus!
