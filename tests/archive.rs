use std::io::ErrorKind;

use tario::fixture::{make_archive_data, make_entry_data, make_entry_header};
use tario::slices::{SkipBytesLen, TakeBytesLen};
use tario::{Archive, ArchiveError, Block, Entry, Header, State, Step, BLOCK_SIZE};

const FILES: [(&str, usize); 4] = [("512", 512), ("1024", 1024), ("500", 500), ("1000", 1000)];

fn round_up(n: usize) -> usize {
    n.div_ceil(BLOCK_SIZE) * BLOCK_SIZE
}

/// A source of bytes that hands out at most `chunk` bytes per read.
struct Source<'a> {
    data: &'a [u8],
    pos: usize,
    chunk: usize,
}

fn fill(archive: &mut Archive<Source<'_>>) -> Result<(), ArchiveError> {
    let (src, dst) = archive.fill_parts();
    let n = dst.len().min(src.chunk).min(src.data.len() - src.pos);
    dst[..n].copy_from_slice(&src.data[src.pos..src.pos + n]);
    src.pos += n;
    archive.commit_fill(n).map_err(ArchiveError::Read)
}

fn open(data: &[u8], cap: usize, chunk: usize) -> Archive<Source<'_>> {
    Archive::with_capacity(Source { data, pos: 0, chunk }, cap)
}

fn next_entry(archive: &mut Archive<Source<'_>>) -> Result<Option<Entry>, ArchiveError> {
    loop {
        match archive.poll_next_entry()? {
            Step::Pending => fill(archive)?,
            Step::Ready(e) => return Ok(e),
        }
    }
}

/// Reads up to `max` payload bytes; 0 at the end of the entry.
fn read(archive: &mut Archive<Source<'_>>, entry: &Entry, out: &mut Vec<u8>, max: usize) -> Result<usize, ArchiveError> {
    if !matches!(archive.state(), State::ReceivingData(_) | State::AligningData(_)) {
        return Ok(0);
    }
    loop {
        match archive.poll_read_entry(entry)? {
            Step::Pending => fill(archive)?,
            Step::Ready(b) => {
                let n = b.len().min(max);
                out.extend_from_slice(&b[..n]);
                if n > 0 {
                    archive.consume_entry(entry, n);
                }
                return Ok(n);
            }
        }
    }
}

fn read_exact(archive: &mut Archive<Source<'_>>, entry: &Entry, size: usize) -> Result<Vec<u8>, ArchiveError> {
    let mut out = Vec::new();
    while out.len() < size {
        let want = size - out.len();
        let n = read(archive, entry, &mut out, want)?;
        if n == 0 {
            break;
        }
    }
    Ok(out)
}

fn skip(archive: &mut Archive<Source<'_>>, entry: &Entry) -> Result<(), ArchiveError> {
    if !matches!(archive.state(), State::ReceivingData(_) | State::AligningData(_)) {
        return Ok(());
    }
    loop {
        match archive.poll_skip_entry(entry)? {
            Step::Pending => fill(archive)?,
            Step::Ready(()) => return Ok(()),
        }
    }
}

fn read_archive(data: &[u8], cap: usize, chunk: usize) -> Result<Vec<(String, Vec<u8>)>, ArchiveError> {
    let mut archive = open(data, cap, chunk);
    let mut entries = Vec::new();
    while let Some(entry) = next_entry(&mut archive)? {
        let mut out = Vec::new();
        while read(&mut archive, &entry, &mut out, BLOCK_SIZE)? > 0 {}
        entries.push((entry.path_lossy(), out));
    }
    assert!(next_entry(&mut archive)?.is_none());
    Ok(entries)
}

fn flush(archive: &mut Archive<Vec<u8>>) -> Result<(), ArchiveError> {
    loop {
        let (sink, bytes) = archive.flush_parts();
        if bytes.is_empty() {
            return Ok(());
        }
        let n = bytes.len();
        sink.extend_from_slice(bytes);
        archive.commit_flushed(n).map_err(ArchiveError::Write)?;
    }
}

fn add_entry(archive: &mut Archive<Vec<u8>>, header: &Header) -> Result<Entry, ArchiveError> {
    loop {
        match archive.poll_write_header(header)? {
            Step::Pending => flush(archive)?,
            Step::Ready(()) => break,
        }
    }
    Entry::new(*header).map_err(ArchiveError::Header)
}

fn finish_entry(archive: &mut Archive<Vec<u8>>, entry: &Entry) -> Result<(), ArchiveError> {
    loop {
        match archive.poll_finish_entry(entry)? {
            Step::Pending => flush(archive)?,
            Step::Ready(()) => return Ok(()),
        }
    }
}

fn write(archive: &mut Archive<Vec<u8>>, entry: &Entry, data: &[u8]) -> Result<usize, ArchiveError> {
    let bufs: &[&[u8]] = &[data];
    let plan = archive.plan_write_entry(bufs, archive.is_write_vectored());
    if plan.flush_first {
        flush(archive)?;
    }
    let n = if plan.pass_through {
        archive.get_mut().extend_from_slice(&data[..plan.len]);
        archive.commit_entry_data(entry, plan.len);
        plan.len
    } else {
        archive.write_entry_buffered(entry, bufs)
    };
    if archive.state() == State::ReceivedData {
        finish_entry(archive, entry)?;
    }
    Ok(n)
}

fn write_all(archive: &mut Archive<Vec<u8>>, entry: &Entry, mut data: &[u8]) -> Result<(), ArchiveError> {
    while !data.is_empty() {
        let n = write(archive, entry, data)?;
        data = &data[n..];
    }
    Ok(())
}

fn finish(archive: &mut Archive<Vec<u8>>) -> Result<(), ArchiveError> {
    loop {
        match archive.poll_finish()? {
            Step::Pending => flush(archive)?,
            Step::Ready(()) => break,
        }
    }
    flush(archive)
}

fn write_archive(cap: usize) -> Result<Vec<u8>, ArchiveError> {
    let mut archive = Archive::with_capacity(Vec::new(), cap);
    for (path, size) in FILES.iter() {
        let header = make_entry_header(path, *size).unwrap();
        let data = make_entry_data(*size);
        let entry = add_entry(&mut archive, &header)?;
        write_all(&mut archive, &entry, &data[..*size])?;
    }
    finish(&mut archive)?;
    Ok(archive.into_inner())
}

#[test]
fn tests_basic() {
    let data = make_archive_data(&FILES).unwrap();

    for cap in [1, 10] {
        let mut archive = open(&data, cap, usize::MAX);
        let mut pos = 0usize;
        let mut i = 0;

        while let Some(entry) = next_entry(&mut archive).unwrap() {
            let (path, size) = FILES[i];
            i += 1;

            assert_eq!(entry.path_lossy(), path.to_owned());
            pos += BLOCK_SIZE;

            loop {
                let mut buf = Vec::new();
                let n = read(&mut archive, &entry, &mut buf, BLOCK_SIZE).unwrap();
                if n == 0 {
                    break;
                }
                assert_eq!(&buf[..n], &data[pos..pos + n]);
                pos += n;
            }

            pos += round_up(size) - size;
        }

        assert_eq!(i, FILES.len());
        assert!(next_entry(&mut archive).unwrap().is_none());
    }
}

#[test]
fn round_trip() {
    let expected = make_archive_data(&FILES).unwrap();
    for cap in [1, 10] {
        let written = write_archive(cap).unwrap();
        assert_eq!(written, expected);
        let entries = read_archive(&written, cap, usize::MAX).unwrap();
        assert_eq!(entries.len(), FILES.len());
        for ((path, size), (read_path, bytes)) in FILES.iter().zip(entries.iter()) {
            assert_eq!(read_path, path);
            assert_eq!(bytes.len(), *size);
            assert_eq!(bytes[..], make_entry_data(*size)[..*size]);
        }
    }
}

#[test]
fn write_basic() {
    let data = make_archive_data(&FILES).unwrap();
    for cap in [1, 10] {
        let io = write_archive(cap).unwrap();
        assert_eq!(io.len(), data.len());
        assert_eq!(io, data);
    }
}

#[test]
fn byte_conservation() {
    let data = write_archive(10).unwrap();
    let expected: usize = FILES.iter().map(|(_, s)| BLOCK_SIZE + round_up(*s)).sum::<usize>() + 1024;
    assert_eq!(data.len(), expected);
    let entries = read_archive(&data, 1, usize::MAX).unwrap();
    let read: usize = entries.iter().map(|(_, b)| b.len()).sum();
    assert_eq!(read, FILES.iter().map(|(_, s)| *s).sum::<usize>());
}

#[test]
fn one_byte_at_a_time() {
    let data = make_archive_data(&FILES).unwrap();
    for cap in [1, 10] {
        let whole = read_archive(&data, cap, usize::MAX).unwrap();
        for chunk in [1, 7, 511, 513] {
            let pieces = read_archive(&data, cap, chunk).unwrap();
            assert_eq!(pieces, whole);
        }
    }
}

#[test]
fn stream() {
    let data = make_archive_data(&FILES).unwrap();
    for cap in [1, 10] {
        let mut archive = open(&data, cap, usize::MAX);
        let mut i = 0;
        loop {
            let next = loop {
                match archive.entries().poll_next().unwrap() {
                    Step::Pending => fill(&mut archive).unwrap(),
                    Step::Ready(e) => break e,
                }
            };
            let Some(entry) = next else { break };
            let (path, size) = FILES[i];
            assert_eq!(entry.path_lossy(), path.to_owned());
            assert_eq!(entry.len(), size as u64);
            skip(&mut archive, &entry).unwrap();
            i += 1;
        }
        assert_eq!(i, FILES.len());
        assert!(next_entry(&mut archive).unwrap().is_none());
    }
}

#[test]
fn ignore_entry_data() {
    let data = make_archive_data(&FILES).unwrap();
    for cap in [1, 10] {
        let mut archive = open(&data, cap, usize::MAX);
        for (path, size) in FILES.iter() {
            let entry = next_entry(&mut archive).unwrap().unwrap();
            assert_eq!(entry.path_lossy(), path.to_owned());
            assert_eq!(entry.len(), *size as u64);
            skip(&mut archive, &entry).unwrap();
        }
        assert!(next_entry(&mut archive).unwrap().is_none());
    }
}

fn read_skipping(data: &[u8], cap: usize) -> Result<(), ArchiveError> {
    let mut archive = open(data, cap, usize::MAX);
    while let Some(entry) = next_entry(&mut archive)? {
        let mut out = Vec::new();
        while read(&mut archive, &entry, &mut out, BLOCK_SIZE)? > 0 {}
    }
    assert!(next_entry(&mut archive)?.is_none());
    Ok(())
}

fn expect_eof(data: &[u8], cap: usize, offset: usize) {
    let res = read_skipping(&data[..offset], cap);
    assert_eq!(res.unwrap_err().kind(), ErrorKind::UnexpectedEof, "cap = {cap}, offset = {offset}");
}

#[test]
fn unexpected_eof_cases() {
    let data = make_archive_data(&FILES).unwrap();
    let cases = [(1, 5098)];
    for (cap, offset) in cases {
        expect_eof(&data, cap, offset);
    }
}

#[test]
fn unexpected_eof_at_every_position() {
    let data = make_archive_data(&FILES).unwrap();
    for offset in (0..data.len()).step_by(3) {
        for cap in [1, 10] {
            expect_eof(&data, cap, offset);
        }
    }
}

#[test]
fn unexpected_eof() {
    let data = make_archive_data(&FILES).unwrap();

    // eof while scanning for next entry
    let h = [500, 1524, 3060, 4084, 5620, 6132];
    // eof while reading entry data
    let d = [1012, 2036, 3322, 4596];
    // eof while aligning entry data
    let a = [1024, 2560, 3572, 3578, 5096, 5108];

    for cap in [1, 10] {
        for offset in h {
            let mut archive = open(&data[..offset], cap, usize::MAX);
            let mut pos = 0usize;
            for (path, size) in FILES.iter() {
                let res = next_entry(&mut archive);
                if offset - pos < BLOCK_SIZE {
                    assert_eq!(res.unwrap_err().kind(), ErrorKind::UnexpectedEof, "h: cap = {cap}, offset = {offset}");
                    break;
                }
                let entry = res.unwrap().unwrap();
                assert_eq!(entry.path_lossy(), path.to_owned());
                assert_eq!(entry.len(), *size as u64);
                pos += BLOCK_SIZE;
                skip(&mut archive, &entry).unwrap();
                pos += size;
                pos += round_up(*size) - size;
            }
        }

        for offset in d {
            let mut archive = open(&data[..offset], cap, usize::MAX);
            let mut pos = 0usize;
            for (path, size) in FILES.iter() {
                let entry = next_entry(&mut archive).unwrap().unwrap();
                assert_eq!(entry.path_lossy(), path.to_owned());
                assert_eq!(entry.len(), *size as u64);
                pos += BLOCK_SIZE;
                let res = read_exact(&mut archive, &entry, *size);
                if offset - pos < *size {
                    assert_eq!(res.unwrap_err().kind(), ErrorKind::UnexpectedEof, "d: cap = {cap}, offset = {offset}");
                    break;
                }
                let buf = res.unwrap();
                assert_eq!(buf.len(), *size);
                assert_eq!(&buf[..], &data[pos..pos + size]);
                pos += size;
                pos += round_up(*size) - size;
            }
        }

        for offset in a {
            let mut archive = open(&data[..offset], cap, usize::MAX);
            let mut pos = 0usize;
            for (path, size) in FILES.iter() {
                let res = next_entry(&mut archive);
                if pos >= offset {
                    assert_eq!(res.unwrap_err().kind(), ErrorKind::UnexpectedEof, "a: cap = {cap}, offset = {offset}");
                    break;
                }
                let entry = res.unwrap().unwrap();
                assert_eq!(entry.path_lossy(), path.to_owned());
                assert_eq!(entry.len(), *size as u64);
                pos += BLOCK_SIZE;
                let buf = read_exact(&mut archive, &entry, *size).unwrap();
                assert_eq!(buf.len(), *size);
                assert_eq!(&buf[..], &data[pos..pos + size]);
                pos += size;
                pos += round_up(*size) - size;
            }
        }
    }
}

#[test]
fn overlapping_entries() {
    for cap in [1, 10] {
        let mut archive = Archive::with_capacity(Vec::new(), cap);

        let (path, size) = FILES[0];
        let header = make_entry_header(path, size).unwrap();
        let data = make_entry_data(size);
        let entry = add_entry(&mut archive, &header).unwrap();
        let n = write(&mut archive, &entry, &data[..100]).unwrap();
        assert_eq!(n, 100);

        let (path, size) = FILES[1];
        let header = make_entry_header(path, size).unwrap();
        let res = add_entry(&mut archive, &header);
        assert_eq!(res.unwrap_err().kind(), ErrorKind::Unsupported, "cap = {cap}");
    }
}

#[test]
fn checksum_mismatch_is_invalid_data() {
    let mut data = make_archive_data(&FILES).unwrap();
    data[0] ^= 1;
    let mut archive = open(&data, 1, usize::MAX);
    let err = next_entry(&mut archive).unwrap_err();
    assert_eq!(err.kind(), ErrorKind::InvalidData);

    let block = Block::from_bytes(&data[..BLOCK_SIZE]);
    assert!(block.as_header().is_err());
    assert!(Block::from_bytes(&make_archive_data(&FILES).unwrap()[..BLOCK_SIZE]).as_header().is_ok());
}

#[test]
fn zero_block_then_data_is_invalid() {
    let mut data = vec![0u8; 2 * BLOCK_SIZE];
    data[BLOCK_SIZE + 3] = 9;
    let mut archive = open(&data, 1, usize::MAX);
    let err = next_entry(&mut archive).unwrap_err();
    assert_eq!(err.kind(), ErrorKind::InvalidData);

    let data = vec![0u8; 2 * BLOCK_SIZE];
    let mut archive = open(&data, 1, usize::MAX);
    assert!(next_entry(&mut archive).unwrap().is_none());
    assert!(archive.state().is_terminal());
}

#[test]
fn finish_twice_writes_nothing_more() {
    let mut archive = Archive::with_capacity(Vec::new(), 1);
    finish(&mut archive).unwrap();
    assert_eq!(archive.get_mut().len(), 1024);
    finish(&mut archive).unwrap();
    assert_eq!(archive.get_mut().len(), 1024);
    assert_eq!(archive.state(), State::ReceivedEof);
}

#[test]
fn empty_entry() {
    let mut archive = Archive::with_capacity(Vec::new(), 1);
    let header = make_entry_header("dir", 0).unwrap();
    let entry = add_entry(&mut archive, &header).unwrap();
    assert!(entry.is_empty());
    finish_entry(&mut archive, &entry).unwrap();
    finish(&mut archive).unwrap();
    let data = archive.into_inner();
    assert_eq!(data.len(), 3 * BLOCK_SIZE);
    let entries = read_archive(&data, 1, usize::MAX).unwrap();
    assert_eq!(entries, vec![("dir".to_owned(), Vec::new())]);
}

#[test]
fn entry_fields() {
    let header = make_entry_header("some/file.txt", 1234).unwrap();
    let entry = Entry::new(header).unwrap();
    assert_eq!(entry.size(), 1234);
    assert_eq!(entry.len(), 1234);
    assert!(!entry.is_empty());
    assert_eq!(entry.path(), b"some/file.txt".to_vec());
    assert_eq!(entry.path_lossy(), "some/file.txt".to_owned());
    assert_eq!(entry.header().entry_size(), Some(1234));
    assert!(entry.header().cksum().unwrap() > 0);
}

#[test]
fn pass_through_for_large_payload() {
    let mut archive = Archive::with_capacity(Vec::new(), 1);
    let header = make_entry_header("big", 4096).unwrap();
    add_entry(&mut archive, &header).unwrap();
    let data = make_entry_data(4096);
    let bufs: &[&[u8]] = &[&data[..]];
    let plan = archive.plan_write_entry(bufs, true);
    assert!(plan.pass_through);
    assert!(plan.flush_first);
    assert_eq!(plan.len, 4096);
    let plan = archive.plan_write_entry(bufs, false);
    assert!(!plan.pass_through);
}

#[test]
fn assert_autotraits() {
    fn is_unpin<T: Unpin>() {}
    is_unpin::<Archive<()>>();
    is_unpin::<Entry>();

    fn is_send<T: Send>() {}
    is_send::<Archive<()>>();
    is_send::<Entry>();
    is_send::<tario::ReadError>();
    is_send::<tario::WriteError>();

    fn is_sync<T: Sync>() {}
    is_sync::<Archive<()>>();
    is_sync::<Entry>();
    is_sync::<tario::ReadError>();
    is_sync::<tario::WriteError>();
}

#[test]
fn take_and_skip_bytes() {
    let a: &[u8] = &[1, 2, 3];
    let b: &[u8] = &[4, 5];
    let c: &[u8] = &[6, 7, 8, 9];
    let list: &[&[u8]] = &[a, b, c];

    let mut take = TakeBytesLen::new(list, 4);
    assert_eq!(take.next(), Some(&[1u8, 2, 3][..]));
    assert_eq!(take.next(), Some(&[4u8][..]));
    assert_eq!(take.next(), None);

    let mut skip = SkipBytesLen::new(list, 4);
    assert_eq!(skip.next(), Some(&[5u8][..]));
    assert_eq!(skip.next(), Some(&[6u8, 7, 8, 9][..]));
    assert_eq!(skip.next(), None);

    let mut skip = SkipBytesLen::new(list, 20);
    assert_eq!(skip.next(), None);
}

#[test]
fn next_entry_handle() {
    let data = make_archive_data(&FILES).unwrap();
    let mut archive = open(&data, 10, usize::MAX);
    let first = loop {
        match archive.next_entry().poll().unwrap() {
            Step::Pending => fill(&mut archive).unwrap(),
            Step::Ready(e) => break e.unwrap(),
        }
    };
    assert_eq!(first.path_lossy(), "512");
    assert_eq!(archive.state(), State::ReceivingData(512));
}

#[test]
fn archive_layout() {
    let data = make_archive_data(&FILES).unwrap();
    let mut offset = 0;
    for (path, size) in FILES.iter() {
        let header = Block::from_bytes(&data[offset..offset + BLOCK_SIZE]).as_header().unwrap();
        assert_eq!(header.entry_size(), Some(*size as u64));
        assert_eq!(header.path_bytes(), path.as_bytes().to_vec());
        let payload = &data[offset + BLOCK_SIZE..offset + BLOCK_SIZE + round_up(*size)];
        assert_eq!(payload, &make_entry_data(*size)[..]);
        offset += BLOCK_SIZE + round_up(*size);
    }
    assert_eq!(&data[offset..], &[0u8; 1024][..]);
    assert!(make_archive_data(&[(&"x".repeat(300), 1)]).is_none());
}
