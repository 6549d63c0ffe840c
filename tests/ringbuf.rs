use lzrs::buffer::{Buffer, Distance};
use lzrs::ringbuf::RingBuf;

#[test]
fn test_ring_buf_write() {
    let mut rb = RingBuf::with_capacity(8);
    assert_eq!((&b""[..], &b""[..]), rb.as_slices());

    rb.write(b"abcdef");
    assert_eq!((&b""[..], &b"abcdef"[..]), rb.as_slices());

    rb.write(b"abcdef");
    assert_eq!((&b"efab"[..], &b"cdef"[..]), rb.as_slices());

    let mut rb = RingBuf::with_capacity_at(8, 6);
    rb.write(b"abcdef");
    assert_eq!((&b"ab"[..], &b"cdef"[..]), rb.as_slices());
}

#[test]
fn test_write() {
    let mut rb = RingBuf::with_capacity(8);
    let (tail, head) = rb.as_slices();
    assert_eq!(b"", tail);
    assert_eq!(b"", head);

    assert_eq!(6, rb.write(b"abcdef"));
    let (tail, head) = rb.as_slices();
    assert_eq!(b"", tail);
    assert_eq!(b"abcdef", head);

    assert_eq!(6, rb.write(b"abcdef"));
    let (tail, head) = rb.as_slices();
    assert_eq!(b"efab", tail);
    assert_eq!(b"cdef", head);

    let mut rb = RingBuf::with_capacity_at(8, 6);
    rb.write(b"abcdef");
    let (tail, head) = rb.as_slices();
    assert_eq!(b"ab", tail);
    assert_eq!(b"cdef", head);
}

#[test]
fn test_index() {
    let mut rb = RingBuf::with_capacity(4);

    rb.write(b"abc");
    // abc-
    assert_eq!(b'a', rb.index(0));
    assert_eq!(b'b', rb.index(1));
    assert_eq!(Some(b'c'), rb.get(2));
    assert_eq!(None, rb.get(3));
    assert_eq!(b'b', rb.get_unchecked(1));

    rb.write(b"foo");
    // oocf
    assert_eq!(None, rb.get(0));
    assert_eq!(None, rb.get(1));
    assert_eq!(b'c', rb.index(2));
    assert_eq!(b'f', rb.index(3));
    assert_eq!(b'o', rb.index(4));
    assert_eq!(b'o', rb.index(5));
    assert_eq!(None, rb.get(6));
}

#[test]
fn overwritten_positions_are_absent() {
    let mut rb = RingBuf::with_capacity(4);
    rb.write(b"abcfoo");
    assert_eq!(None, rb.get(1));
    assert_eq!(Some(b'o'), rb.get(5));
}

#[test]
fn capacity_rounds_up_to_a_power_of_two() {
    assert_eq!(8, RingBuf::with_capacity(5).capacity());
    assert_eq!(8, RingBuf::with_capacity(8).capacity());
    assert_eq!(1, RingBuf::with_capacity(0).capacity());
    assert_eq!(16, RingBuf::with_capacity(9).capacity());
}

#[test]
fn long_write_keeps_the_last_capacity_bytes() {
    let mut rb = RingBuf::with_capacity(16);
    let data: Vec<u8> = (0u8..40).collect();
    assert_eq!(40, rb.write(&data));
    let (a, b) = rb.as_slices();
    let mut all = a.to_vec();
    all.extend_from_slice(b);
    assert_eq!((24u8..40).collect::<Vec<u8>>(), all);
    assert_eq!(16, rb.len());
    assert_eq!(None, rb.get(23));
    assert_eq!(Some(24), rb.get(24));
    assert_eq!(Some(39), rb.get(39));
    assert_eq!(None, rb.get(40));
}

#[test]
fn distance_counts_back_from_the_newest_byte() {
    let mut rb = RingBuf::with_capacity(4);
    rb.write(b"abcdef");
    assert_eq!(Some(b'f'), rb.at_distance(Distance(0)));
    assert_eq!(Some(b'c'), rb.at_distance(Distance(3)));
    assert_eq!(None, rb.at_distance(Distance(4)));
}

#[test]
fn slice_reads_from_the_oldest_byte() {
    let mut rb = RingBuf::with_capacity(4);
    rb.write(b"abcdef");
    let s = rb.slice();
    assert_eq!(4, s.len());
    assert_eq!(Some(b'c'), s.get(0));
    assert_eq!(Some(b'f'), s.get(3));
    assert_eq!(None, s.get(4));
}

#[test]
fn flush_changes_nothing() {
    let mut rb = RingBuf::with_capacity(4);
    rb.write(b"ab");
    rb.flush();
    assert_eq!((&b""[..], &b"ab"[..]), rb.as_slices());
}

#[test]
fn long_write_from_an_offset_start() {
    let mut rb = RingBuf::with_capacity_at(8, 5);
    let data: Vec<u8> = (100u8..120).collect();
    assert_eq!(20, rb.write(&data));
    let (a, b) = rb.as_slices();
    let mut all = a.to_vec();
    all.extend_from_slice(b);
    assert_eq!((112u8..120).collect::<Vec<u8>>(), all);
    assert_eq!(None, rb.get(16));
    assert_eq!(Some(112), rb.get(17));
    assert_eq!(Some(119), rb.get(24));
    assert_eq!(None, rb.get(4));
    rb.write(b"xy");
    assert_eq!(Some(b'y'), rb.get(26));
    assert_eq!(None, rb.get(18));
}

#[test]
fn newer_slice_ends_at_head() {
    let mut rb = RingBuf::with_capacity(8);
    rb.write(b"abcdef");
    rb.write(b"abcdef");
    let (older, newer) = rb.as_slices();
    assert_eq!(b"cdef", newer);
    assert_eq!(b"efab", older);
    let mut rb = RingBuf::with_capacity(8);
    rb.write(b"abc");
    assert_eq!((&b""[..], &b"abc"[..]), rb.as_slices());
}
