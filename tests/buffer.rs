use std::io::Write;

use tario::buffer::{Buf, ReadableRegion, WritableRegion};

fn fill_buf(buf: &mut Buf) {
    let data = [0, 1, 2, 3];
    let mut available = buf.available();
    available.fill(&data);
}

fn test_writable<W: WritableRegion>(mut wr: W) {
    let data = [0, 1, 2, 3];

    assert_eq!(wr.len(), 0);
    assert_eq!(wr.position(), 0);
    assert_eq!(wr.remaining(), 5);
    assert_eq!(wr.capacity(), 5);
    assert!(wr.is_empty());

    let n = wr.bytes_mut().write(&data).unwrap();
    assert_eq!(n, 4);
    assert_eq!(&wr.bytes(), &[0, 1, 2, 3, 0]);

    wr.commit(1);
    assert_eq!(wr.bytes(), &[1, 2, 3, 0]);
    assert_eq!(wr.capacity(), 5);
    assert_eq!(wr.remaining(), 4);
    assert_eq!(wr.position(), 1);
    assert_eq!(wr.len(), 1);
    assert!(!wr.is_empty());

    wr.commit(3);
    assert_eq!(wr.bytes(), &[0]);
    assert_eq!(wr.capacity(), 5);
    assert_eq!(wr.remaining(), 1);
    assert_eq!(wr.position(), 4);
    assert_eq!(wr.len(), 4);
    assert!(!wr.is_empty());

    wr.commit(1);
    assert_eq!(wr.bytes(), &[]);
    assert_eq!(wr.capacity(), 5);
    assert_eq!(wr.remaining(), 0);
    assert_eq!(wr.position(), 5);
    assert_eq!(wr.len(), 5);
    assert!(!wr.is_empty());
}

fn test_readable<R: ReadableRegion>(mut rd: R) {
    assert_eq!(rd.bytes(), &[0, 1, 2, 3]);
    assert_eq!(rd.capacity(), 4);
    assert_eq!(rd.remaining(), 4);
    assert_eq!(rd.position(), 0);
    assert_eq!(rd.len(), 4);
    assert!(!rd.is_empty());

    rd.commit(1);
    assert_eq!(rd.bytes(), &[1, 2, 3]);
    assert_eq!(rd.capacity(), 4);
    assert_eq!(rd.remaining(), 3);
    assert_eq!(rd.position(), 1);
    assert_eq!(rd.len(), 3);
    assert!(!rd.is_empty());

    rd.commit(2);
    assert_eq!(rd.bytes(), &[3]);
    assert_eq!(rd.capacity(), 4);
    assert_eq!(rd.remaining(), 1);
    assert_eq!(rd.position(), 3);
    assert_eq!(rd.len(), 1);
    assert!(!rd.is_empty());

    rd.commit(1);
    assert_eq!(rd.bytes(), &[]);
    assert_eq!(rd.capacity(), 4);
    assert_eq!(rd.remaining(), 0);
    assert_eq!(rd.position(), 4);
    assert_eq!(rd.len(), 0);
    assert!(rd.is_empty());
}

#[test]
fn available() {
    let mut buf = Buf::new(5);
    let available = buf.available();
    test_writable(available);

    buf.clear();
    let available = buf.available();
    assert_eq!(available.bytes(), &[0, 1, 2, 3, 0]);
    assert_eq!(available.capacity(), 5);
    assert_eq!(available.remaining(), 5);
    assert_eq!(available.position(), 0);
    assert_eq!(available.len(), 0);
    assert!(available.is_empty());
}

#[test]
fn buffered() {
    let mut buf = Buf::new(5);
    fill_buf(&mut buf);

    let buffered = buf.buffered();
    test_readable(buffered);

    buf.clear();
    let buffered = buf.buffered();
    assert_eq!(buffered.bytes(), &[]);
    assert_eq!(buffered.capacity(), 0);
    assert_eq!(buffered.remaining(), 0);
    assert_eq!(buffered.position(), 0);
    assert_eq!(buffered.len(), 0);
    assert!(buffered.is_empty());
}

#[test]
fn available_and_buffered() {
    let data = [0, 1, 2, 3];
    let mut buf = Buf::new(5);
    let mut available = buf.available();
    let n = available.bytes_mut().write(&data).unwrap();
    assert_eq!(n, 4);
    assert_eq!(&available.bytes(), &[0, 1, 2, 3, 0]);
    available.commit(4);
    assert_eq!(&available.bytes(), &[0]);

    let mut buffered = buf.buffered();
    assert_eq!(&buffered.bytes(), &[0, 1, 2, 3]);
    buffered.commit(1);
    assert_eq!(&buffered.bytes(), &[1, 2, 3]);

    let available = buf.available();
    assert_eq!(available.capacity(), 5);
    assert_eq!(available.remaining(), 1);
    assert_eq!(available.position(), 4);
    assert_eq!(available.len(), 4);
    assert_eq!(available.bytes(), &[0]);
    assert!(!available.is_empty());
    buf.clear();

    let buffered = buf.buffered();
    assert!(buffered.is_empty());
    assert_eq!(&buffered.bytes(), &[]);
}

#[test]
fn fill_stops_at_capacity() {
    let mut buf = Buf::new(3);
    assert_eq!(buf.fill(&[7, 8]), 2);
    assert_eq!(buf.fill(&[9, 10, 11]), 1);
    assert_eq!(buf.buffered_bytes(), &[7, 8, 9]);
    assert_eq!(buf.remaining(), 0);
    buf.consume(3);
    assert_eq!(buf.buffered_bytes(), &[]);
    assert_eq!(buf.remaining(), 3);
}
