use lzrs::bench::{
    external_compare, internal_compare, read_byte, read_byte_segmented, read_u64_inline,
    read_u8_inline, read_unaligned_u64, write_u64_inline, Buffer, BufferTest,
};
use lzrs::{ascii_buf, ascii_char, is_power_of_two, next_power_of_two};

#[test]
fn test_external() {
    let query_size = 8;
    let repeat_len = 4;
    let match_lens = [8];

    let mut buf = Buffer::new(16);
    buf.head = buf.buf.len() - query_size;
    let mut acc: usize = 1;
    for c in &mut buf.buf[..] {
        acc += 1301;
        acc %= 65521;
        acc += acc >> 8 & 0xFF;
        *c = ((acc % 26) + 97) as u8;
    }

    let tests = match_lens.map(|match_len| {
        BufferTest::default()
            .query_size(query_size)
            .overlapping_match(repeat_len - 1, match_len)
            .setup(&buf)
    });

    for (dist, len, query) in tests.iter() {
        assert_eq!(*len, external_compare(&buf, *dist, query));
    }
}

#[test]
fn simple_and_missing_matches() {
    let mut buf = Buffer::new(16);
    for (i, c) in buf.buf.iter_mut().enumerate() {
        *c = b'a' + i as u8;
    }
    buf.head = 8;
    let (d, l, q) = BufferTest::new().query_size(6).simple_match(5, 4).setup(&buf);
    assert_eq!((5, 4), (d, l));
    assert_eq!(b"cdef", &q[..4]);
    assert_ne!(b'g', q[4]);
    assert_eq!(4, external_compare(&buf, 5, &q));

    let (d, l, q) = BufferTest::new().query_size(3).no_match(2).setup(&buf);
    assert_eq!((0, 0), (d, l));
    assert_eq!(0, external_compare(&buf, 2, &q));
}

#[test]
fn in_place_compare() {
    let mut buf = Buffer::new(16);
    buf.head = 4;
    buf.copy_la(b"xyz");
    buf.buf[1] = b'x';
    buf.buf[2] = b'y';
    buf.la_len = Some(3);
    assert_eq!(2, internal_compare(&buf, 2));
    assert_eq!(b"xyz", &buf.buf[4..7]);
    buf.copy_la(b"0123456789abcdef");
    assert_eq!(b"0123456789ab", &buf.buf[4..]);
}

#[test]
fn byte_readers() {
    let a = b"0123456789";
    assert_eq!(b'3', read_byte(a, 3));
    assert_eq!(b'4', read_u8_inline(a, 4));
    assert_eq!(u64::from_le_bytes(*b"12345678"), read_u64_inline(a, 1));
    assert_eq!(u64::from_le_bytes(*b"23456789"), read_unaligned_u64(a, 2));
    assert_eq!(b'2', read_byte_segmented(b"012", b"abc", 3, 2));
    assert_eq!(b'a', read_byte_segmented(b"012", b"abc", 3, 3));
    assert_eq!(b'a', read_byte_segmented(b"012", b"abc", 1, 1));
    assert_eq!(b'1', read_byte_segmented(b"012", b"abc", 5, 1));
    assert_eq!(b'c', read_byte_segmented(b"012", b"abc", 5, 7));
    let mut out = [0u8; 8];
    write_u64_inline(0x0102030405060708, &mut out, 0);
    assert_eq!([8, 7, 6, 5, 4, 3, 2, 1], out);
}

#[test]
fn ascii_rendering() {
    assert_eq!("'a'", ascii_char(b'a'));
    assert_eq!("' '", ascii_char(b' '));
    assert_eq!("0x0a", ascii_char(10));
    assert_eq!("0xff", ascii_char(255));
    assert_eq!("0x7f", ascii_char(127));
    assert_eq!("a.b~", ascii_buf(b"a\nb~"));
    assert_eq!("", ascii_buf(b""));
}

#[test]
fn powers_of_two() {
    assert!(is_power_of_two(1));
    assert!(is_power_of_two(64));
    assert!(!is_power_of_two(0));
    assert!(!is_power_of_two(12));
    assert!(is_power_of_two(1usize << 63));
    assert!(!is_power_of_two(usize::MAX));
    assert_eq!(1, next_power_of_two(0));
    assert_eq!(16, next_power_of_two(9));
    assert_eq!(16, next_power_of_two(16));
}
