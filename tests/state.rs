use tario::fixture::make_archive_data;
use tario::{Block, Error, Header, State, BLOCK_SIZE};

#[test]
fn state_basic() {
    let data = make_archive_data(&[("1000", 1000)]).unwrap();
    let header: Header;
    let mut hdr: Option<&Header> = None;

    let state = State::default();
    assert_eq!(state, State::ExpectingHeader);
    let d = &data[..];

    let (state, pos) = state.next(d, hdr).unwrap();
    assert_eq!(state, State::ReceivingHeader(BLOCK_SIZE, true));
    assert_eq!(pos, 0);

    let n = 250usize;
    let (state, pos) = state.next(&d[..n], hdr).unwrap();
    assert_eq!(state, State::ReceivingHeader(BLOCK_SIZE - n, false));
    assert_eq!(pos, n);
    let d = &d[n..];

    {
        // the transition can be identified midway through the buffer
        let n = 300usize;
        let (state, pos) = state.next(&d[..n], hdr).unwrap();
        assert_eq!((state, pos), (State::ReceivedHeader, 262));
    }

    let n = 262usize;
    let (state, pos) = state.next(&d[..n], hdr).unwrap();
    assert_eq!(state, State::ReceivedHeader);
    assert_eq!(pos, n);
    header = Block::from_bytes(&data[..BLOCK_SIZE]).as_header().unwrap();
    hdr = Some(&header);
    let d = &d[n..];

    let (state, pos) = state.next(d, hdr).unwrap();
    assert_eq!(state, State::ReceivingData(1000));
    assert_eq!(pos, 0);

    let n = 500usize;
    let (state, pos) = state.next(&d[..n], hdr).unwrap();
    assert_eq!(state, State::ReceivingData((1000 - n) as u64));
    assert_eq!(pos, n);
    let d = &d[n..];

    let n = 500usize;
    let (state, pos) = state.next(&d[..n], hdr).unwrap();
    assert_eq!(state, State::ReceivedData);
    assert_eq!(pos, n);
    let d = &d[n..];

    let (state, pos) = state.next(d, hdr).unwrap();
    assert_eq!(state, State::AligningData(24));
    assert_eq!(pos, 0);

    let n = 10usize;
    let (state, pos) = state.next(&d[..n], hdr).unwrap();
    assert_eq!(state, State::AligningData(14));
    assert_eq!(pos, n);
    let d = &d[n..];

    let n = 14usize;
    let (state, pos) = state.next(&d[..n], hdr).unwrap();
    assert_eq!(state, State::AlignedData);
    assert_eq!(pos, n);
    hdr = None;
    let d = &d[n..];

    let (state, pos) = state.next(d, hdr).unwrap();
    assert_eq!(state, State::ExpectingHeader);
    assert_eq!(pos, 0);

    let (state, pos) = state.next(d, hdr).unwrap();
    assert_eq!(state, State::ReceivingHeader(BLOCK_SIZE, true));
    assert_eq!(pos, 0);

    let n = 256usize;
    let (state, pos) = state.next(&d[..n], hdr).unwrap();
    assert_eq!(state, State::ReceivingHeader(BLOCK_SIZE - n, true));
    assert_eq!(pos, n);
    let d = &d[n..];

    {
        // the transition can be identified midway through the buffer
        let n = 356usize;
        let (state, pos) = state.next(&d[..n], hdr).unwrap();
        assert_eq!(state, State::ReceivingEof(BLOCK_SIZE));
        assert_eq!(pos, n - 100);
    }

    let n = 256usize;
    let (state, pos) = state.next(&d[..n], hdr).unwrap();
    assert_eq!(state, State::ReceivingEof(BLOCK_SIZE));
    assert_eq!(pos, n);
    let d = &d[n..];

    let n = 256usize;
    let (state, pos) = state.next(&d[..n], hdr).unwrap();
    assert_eq!(state, State::ReceivingEof(BLOCK_SIZE - n));
    assert_eq!(pos, n);
    let d = &d[n..];

    let n = 256usize;
    let (state, pos) = state.next(&d[..n], hdr).unwrap();
    assert_eq!(state, State::ReceivedEof);
    assert_eq!(pos, n);
    let d = &d[n..];

    assert_eq!(d.len(), 0);
}

#[test]
fn terminal_state_rejects_bytes() {
    assert_eq!(State::ReceivedEof.next(&[0], None), Err(Error::Eof));
    assert_eq!(State::ReceivedEof.next(&[], None), Err(Error::Eof));
    assert_eq!(Error::Eof.kind(), std::io::ErrorKind::InvalidData);
    assert!(State::ReceivedEof.is_terminal());
    assert!(State::ReceivingEof(0).is_terminal());
    assert!(!State::ReceivingEof(1).is_terminal());
}

#[test]
fn non_zero_byte_in_end_marker() {
    let state = State::ReceivingEof(BLOCK_SIZE);
    assert_eq!(state.next(&[0, 0, 1], None), Err(Error::ExpectingEmptyBlock));
    assert_eq!(Error::ExpectingEmptyBlock.kind(), std::io::ErrorKind::InvalidData);
}

#[test]
fn markers_need_a_header() {
    assert_eq!(State::ReceivedHeader.next(&[], None), Err(Error::ExpectingHeader));
    assert_eq!(State::ReceivedData.next(&[], None), Err(Error::ExpectingHeader));
    assert!(State::ReceivedHeader.is_marker());
    assert!(!State::ReceivingData(3).is_marker());
}

#[test]
fn take_until_stops_at_header() {
    let data = make_archive_data(&[("a", 3)]).unwrap();
    let (state, pos) = State::ExpectingHeader
        .take_until(&[State::ReceivedHeader], &data, None)
        .unwrap();
    assert_eq!((state, pos), (State::ReceivedHeader, BLOCK_SIZE));

    let h = Block::from_bytes(&data[..BLOCK_SIZE]).as_header().unwrap();
    let (state, pos) = State::ReceivedHeader
        .take_until(&[], &data[BLOCK_SIZE..2 * BLOCK_SIZE], Some(&h))
        .unwrap();
    assert_eq!((state, pos), (State::AlignedData, BLOCK_SIZE));
}

#[test]
fn take_slices_matches_one_slice() {
    let data = make_archive_data(&[("a", 700)]).unwrap();
    let whole = State::ExpectingHeader.take_slices(&[&data[..]], None).unwrap();
    let pieces: Vec<&[u8]> = data.chunks(7).collect();
    let split = State::ExpectingHeader.take_slices(&pieces, None).unwrap();
    assert_eq!(whole, (State::ReceivedHeader, BLOCK_SIZE));
    assert_eq!(split, whole);

    let mut state = State::ReceivedHeader;
    let h = Block::from_bytes(&data[..BLOCK_SIZE]).as_header().unwrap();
    state.take_marker(Some(&h)).unwrap();
    assert_eq!(state, State::ReceivingData(700));
}

#[test]
fn error_messages() {
    assert_eq!(Error::ExpectingHeader.message(), "expecting header");
    assert_eq!(Error::ExpectingEmptyBlock.message(), "expecting empty block");
    assert_eq!(Error::Eof.message(), "cannot process data after eof");
    assert_eq!(tario::WriteError::WriteZero.message(), "failed to write the buffered data");
    assert_eq!(
        tario::WriteError::OverlappingEntry.message(),
        "cannot write new entry while another is being written"
    );
    assert_eq!(tario::WriteError::OverlappingEntry.kind(), std::io::ErrorKind::Unsupported);
    assert_eq!(tario::WriteError::WriteZero.kind(), std::io::ErrorKind::WriteZero);
    let e = tario::ReadError::UnexpectedEof { expected: 3, received: 0 };
    assert_eq!(e.kind(), std::io::ErrorKind::UnexpectedEof);
    assert_eq!(e.message(), "expecting more data for entry");
    let h = tario::HeaderError::Checksum { expected: 1, actual: 2 };
    assert_eq!(h.kind(), std::io::ErrorKind::InvalidData);
    assert_eq!(tario::ArchiveError::Header(h).kind(), std::io::ErrorKind::InvalidData);
}
