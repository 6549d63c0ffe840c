use lzrs::buffer::{FastCmp, ReadU64, WriteU64};
use lzrs::raw::{match_length, read_u64, write_u64};
use lzrs::Error;

#[test]
fn raw_test_u8_match_length() {
    assert_eq!(
        30,
        match_length(
            b"abcdefg_0123456_abcdefg_0123456_",
            b"abcdefg_0123456_abcdefg_012345"
        )
    );
    assert_eq!(11, match_length(b"abcdefg_0123456_", b"abcdefg_012"));
    assert_eq!(11, match_length(b"abcdefg_012", b"abcdefg_0123456_"));
    assert_eq!(8, match_length(b"abcdefg_", b"abcdefg_012"));
    assert_eq!(3, match_length(b"abc", b"abcdefg_012"));
    assert_eq!(3, match_length(b"abc", b"abc"));
    assert_eq!(0, match_length(b"abc", b""));
    assert_eq!(0, match_length(b"abc", b""));

    let slice: &[u8] = b"abcd";
    let array: [u8; 4] = *b"asdf";

    match_length(slice, &array);
}

#[test]
fn buffer_test_u8_match_length() {
    assert_eq!(30, b"abcdefg_0123456_abcdefg_0123456_".match_length(b"abcdefg_0123456_abcdefg_012345"));
    assert_eq!(11, b"abcdefg_0123456_".match_length(b"abcdefg_012"));
    assert_eq!(11, b"abcdefg_012".match_length(b"abcdefg_0123456_"));
    assert_eq!(8, b"abcdefg_".match_length(b"abcdefg_012"));
    assert_eq!(3, b"abc".match_length(b"abcdefg_012"));
    assert_eq!(3, b"abc".match_length(b"abc"));
    assert_eq!(0, b"abc".match_length(b""));
    assert_eq!(0, b"".match_length(b""));
}

#[test]
fn mod_test_u8_match_length() {
    assert_eq!(
        30,
        b"abcdefg_0123456_abcdefg_0123456_".match_length(b"abcdefg_0123456_abcdefg_012345")
    );
    assert_eq!(11, b"abcdefg_0123456_".match_length(b"abcdefg_012"));
    assert_eq!(11, b"abcdefg_012".match_length(b"abcdefg_0123456_"));
    assert_eq!(8, b"abcdefg_".match_length(b"abcdefg_012"));
    assert_eq!(3, b"abc".match_length(b"abcdefg_012"));
    assert_eq!(3, b"abc".match_length(b"abc"));
    assert_eq!(0, b"abc".match_length(b""));
    assert_eq!(0, b"abc".match_length(b""));

    let slice: &[u8] = b"abcd";
    let array: &[u8; 4] = b"asdf";
    array.match_length(slice);
    slice.match_length(array);
    slice.match_length(&*array);
}

#[test]
fn match_length_literal_checks() {
    assert_eq!(30, match_length(b"abcdefg_0123456_abcdefg_0123456_", b"abcdefg_0123456_abcdefg_012345"));
    assert_eq!(0, match_length(b"abc", b""));
    assert_eq!(8, match_length(b"abcdefg_", b"abcdefg_012"));
}

#[test]
fn match_length_mismatch_inside_a_word() {
    // differs at byte 13, inside the second eight-byte group
    assert_eq!(13, match_length(b"0123456789abcdefXYZ", b"0123456789abcZef"));
    assert_eq!(0, match_length(b"x", b"y"));
    assert_eq!(0, match_length(b"", b""));
}

#[test]
fn read_and_write_u64_are_little_endian() {
    let buf = [1u8, 2, 3, 4, 5, 6, 7, 8, 9];
    assert_eq!(Ok(0x0807060504030201), read_u64(&buf, 0));
    assert_eq!(Ok(0x0908070605040302), read_u64(&buf, 1));
    let mut out = [0u8; 10];
    assert_eq!(Ok(()), write_u64(&mut out, 1, 0x1122334455667788));
    assert_eq!([0u8, 0x88, 0x77, 0x66, 0x55, 0x44, 0x33, 0x22, 0x11, 0], out);
    assert_eq!(Ok(0x1122334455667788), read_u64(&out, 1));
}

#[test]
fn read_and_write_u64_out_of_bounds() {
    let buf = [1u8, 2, 3, 4, 5, 6, 7, 8, 9];
    assert_eq!(Err(Error::OutOfBounds), read_u64(&buf, 2));
    assert_eq!(Err(Error::OutOfBounds), read_u64(&buf, usize::MAX));
    assert_eq!(Err(Error::OutOfBounds), read_u64(&[], 0));
    let mut out = [7u8; 8];
    assert_eq!(Err(Error::OutOfBounds), write_u64(&mut out, 1, 0));
    assert_eq!([7u8; 8], out);
    assert_eq!(Ok(()), write_u64(&mut out, 0, 0));
    assert_eq!([0u8; 8], out);
}

#[test]
fn unchecked_word_access_through_the_traits() {
    let buf: &[u8] = b"abcdefghij";
    assert_eq!(u64::from_le_bytes(*b"cdefghij"), buf.read_u64_unchecked(2));
    let mut out = [0u8; 9];
    out[..].write_u64_unchecked(u64::from_le_bytes(*b"12345678"), 1);
    assert_eq!(b"\x0012345678", &out);
}
