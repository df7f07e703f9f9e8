use tario::slices::{IterBuffers, Slices, Split};

type Data = [[u8; 5]; 5];

const DATA: Data = [
    [0, 1, 2, 3, 4],
    [5, 6, 7, 8, 9],
    [10, 11, 12, 13, 14],
    [15, 16, 17, 18, 19],
    [20, 21, 22, 23, 24],
];

fn make_data() -> Vec<&'static [u8]> {
    DATA.iter().map(|s| &s[..]).collect()
}

fn assert_slice_eq(left: &[u8], idx: usize) {
    assert_eq!(left, &DATA[idx]);
}

#[test]
fn slices_basic() {
    let data = make_data();
    let slices = data.as_slice();
    assert_eq!(slices.bytes_len(), 25);

    let (prefix, suffix) = slices.split_at_byte_offset(10);
    assert_eq!(prefix.slices().len(), 2);
    assert_eq!(suffix.slices().len(), 3);
    assert_eq!(prefix.remainder().len(), 0);
    assert_eq!(suffix.remainder().len(), 0);
    assert_slice_eq(prefix.slices()[0], 0);
    assert_slice_eq(prefix.slices()[1], 1);
    assert_slice_eq(suffix.slices()[0], 2);
    assert_slice_eq(suffix.slices()[1], 3);
    assert_slice_eq(suffix.slices()[2], 4);

    let slices = &slices[..2];
    let (prefix, suffix) = slices.split_at_byte_offset(10);
    assert_eq!(prefix.slices().len(), 2);
    assert_eq!(suffix.slices().len(), 0);
    assert_eq!(prefix.remainder().len(), 0);
    assert_eq!(suffix.remainder().len(), 0);
    assert_slice_eq(prefix.slices()[0], 0);
    assert_slice_eq(prefix.slices()[1], 1);

    let slices = &slices[..1];
    let (prefix, suffix) = slices.split_at_byte_offset(10);
    assert_eq!(prefix.slices().len(), 1);
    assert_eq!(suffix.slices().len(), 0);
    assert_eq!(prefix.remainder().len(), 0);
    assert_eq!(suffix.remainder().len(), 0);
    assert_slice_eq(prefix.slices()[0], 0);
}

#[test]
fn split_within_a_slice() {
    let data = make_data();
    let slices = data.as_slice();
    let (prefix, suffix) = slices.split_at_byte_offset(12);
    assert_eq!(prefix.slices().len(), 2);
    assert_eq!(prefix.remainder(), &[10, 11]);
    assert_eq!(suffix.remainder(), &[12, 13, 14]);
    assert_eq!(suffix.slices().len(), 2);

    let joined: Vec<u8> = prefix
        .iter_buffers()
        .into_iter()
        .chain(suffix.iter_buffers())
        .flatten()
        .copied()
        .collect();
    let expected: Vec<u8> = (0..25).collect();
    assert_eq!(joined, expected);

    let taken = slices.take_prefix(7);
    let bytes: Vec<u8> = taken.iter_buffers().into_iter().flatten().copied().collect();
    assert_eq!(bytes, vec![0, 1, 2, 3, 4, 5, 6]);
    assert_eq!(taken.bytes_len(), 7);
}

#[test]
fn split_past_the_end() {
    let data = make_data();
    let slices = data.as_slice();
    let (prefix, suffix) = slices.split_at_byte_offset(100);
    assert_eq!(prefix.slices().len(), 5);
    assert_eq!(prefix.bytes_len(), 25);
    assert_eq!(suffix.slices().len(), 0);
    assert_eq!(suffix.remainder().len(), 0);
}

#[test]
fn split_of_a_prefix_keeps_every_byte() {
    let data = make_data();
    let slices = data.as_slice();
    let prefix = slices.take_prefix(17);
    let (left, right) = prefix.split_at_byte_offset(7);
    let joined: Vec<u8> = left
        .iter_buffers()
        .into_iter()
        .chain(right.iter_buffers())
        .flatten()
        .copied()
        .collect();
    let expected: Vec<u8> = (0..17).collect();
    assert_eq!(joined, expected);
    assert_eq!(right.trailer, &[15, 16]);
}
