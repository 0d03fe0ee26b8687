use mmk::mm_util::{split_user_range, UserBuffer};

fn buffer(shape: &[usize], fill: u8) -> UserBuffer {
    UserBuffer::new(shape.iter().map(|n| vec![fill; *n]).collect())
}

fn flat(b: &UserBuffer) -> Vec<u8> {
    b.buffers.iter().flatten().copied().collect()
}

#[test]
fn len_sums_the_buffers() {
    assert_eq!(buffer(&[3, 0, 5], 0).len(), 8);
    assert_eq!(UserBuffer::empty().len(), 0);
}

#[test]
fn write_fills_across_buffers() {
    let mut b = buffer(&[2, 3], 0);
    assert_eq!(b.write(&[1, 2, 3, 4]), 4);
    assert_eq!(flat(&b), vec![1, 2, 3, 4, 0]);
    assert_eq!(b.buffers[0], vec![1, 2]);
    assert_eq!(b.buffers[1], vec![3, 4, 0]);
}

#[test]
fn write_stops_at_the_shorter() {
    let mut b = buffer(&[2, 2], 9);
    assert_eq!(b.write(&[1, 2, 3, 4, 5, 6]), 4);
    assert_eq!(flat(&b), vec![1, 2, 3, 4]);
}

#[test]
fn write_then_read_gives_back_the_bytes() {
    let mut b = buffer(&[1, 4, 2], 0);
    let data = [10u8, 20, 30, 40, 50];
    assert_eq!(b.write(&data), 5);
    let mut out = [0u8; 7];
    assert_eq!(b.read(&mut out), 7);
    assert_eq!(&out[..5], &data);
    assert_eq!(&out[5..], &[0, 0]);
    let mut v = Vec::new();
    assert_eq!(b.read_as_vec(&mut v, 0), 7);
    assert_eq!(v, vec![10, 20, 30, 40, 50, 0, 0]);
}

#[test]
fn read_into_a_short_buffer() {
    let b = UserBuffer::new(vec![vec![1, 2], vec![3]]);
    let mut out = [7u8; 2];
    assert_eq!(b.read(&mut out), 2);
    assert_eq!(out, [1, 2]);
}

#[test]
fn read_as_vec_appends() {
    let b = UserBuffer::new(vec![vec![1], vec![2, 3]]);
    let mut v = vec![9];
    assert_eq!(b.read_as_vec(&mut v, 100), 3);
    assert_eq!(v, vec![9, 1, 2, 3]);
}

#[test]
fn clear_zeroes_everything() {
    let mut b = buffer(&[3, 1], 5);
    b.clear();
    assert_eq!(flat(&b), vec![0, 0, 0, 0]);
    assert_eq!(b.len(), 4);
}

#[test]
fn write_at_past_the_end_fails() {
    let mut b = buffer(&[2, 2], 0);
    assert_eq!(b.write_at(3, &[1, 2]), -1);
    assert_eq!(flat(&b), vec![0, 0, 0, 0]);
}

#[test]
fn write_at_inside_the_first_buffer() {
    let mut b = buffer(&[4, 4], 0);
    assert_eq!(b.write_at(2, &[7, 8, 9]), 3);
    assert_eq!(flat(&b), vec![0, 0, 7, 8, 9, 0, 0, 0]);
}

#[test]
fn write_at_skips_short_buffers_without_counting_them() {
    // The first buffer is shorter than the offset: it is skipped and its bytes are not
    // counted, so writing starts 3 bytes into the second buffer rather than 1.
    let mut b = buffer(&[2, 5], 0);
    assert_eq!(b.write_at(3, &[7, 8]), 2);
    assert_eq!(flat(&b), vec![0, 0, 0, 0, 0, 7, 8]);
}

#[test]
fn write_at_that_runs_out_returns_zero() {
    let mut b = buffer(&[2, 5], 0);
    // starts 3 bytes into the second buffer and has room for only 2 of the 4 bytes
    assert_eq!(b.write_at(3, &[1, 2, 3, 4]), 0);
    assert_eq!(flat(&b), vec![0, 0, 0, 0, 0, 1, 2]);
}

#[test]
fn iterator_visits_every_byte_position() {
    let it_buf = UserBuffer::new(vec![vec![1, 2], vec![3], vec![4, 5]]);
    let mut it = it_buf.into_iter();
    let mut seen = Vec::new();
    while let Some(pos) = it.next() {
        seen.push(pos);
    }
    assert_eq!(seen, vec![(0, 0), (0, 1), (1, 0), (2, 0), (2, 1)]);
    assert_eq!(it.next(), None);
}

#[test]
fn split_user_range_at_pages() {
    assert_eq!(split_user_range(0x1ff0, 0x20), vec![(0x1ff0, 0x10), (0x2000, 0x10)]);
    assert_eq!(split_user_range(0x1000, 0x2000), vec![(0x1000, 0x1000), (0x2000, 0x1000)]);
    assert_eq!(split_user_range(0x1234, 4), vec![(0x1234, 4)]);
    assert_eq!(split_user_range(0x1234, 0), Vec::<(usize, usize)>::new());
    assert_eq!(
        split_user_range(0xfff, 0x2002),
        vec![(0xfff, 1), (0x1000, 0x1000), (0x2000, 0x1000), (0x3000, 1)]
    );
}
