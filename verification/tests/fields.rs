use bencode::decimal::{push_decimal, push_digits, read_integer, read_natural};
use bencode::error::describe_kind;
use bencode::text::{digit_str, push_number};
use bencode::wire::{append_bytes, bytes_equal};
use bencode::{ByteReader, IntErrorKind};

#[test]
fn digits_of_numbers() {
    let mut out = Vec::new();
    push_digits(&mut out, 0);
    assert_eq!(out, b"0");
    push_digits(&mut out, 9);
    push_digits(&mut out, 10);
    push_digits(&mut out, 18446744073709551615);
    assert_eq!(out, b"091018446744073709551615");
}

#[test]
fn decimal_text_of_integers() {
    let mut out = b">".to_vec();
    push_decimal(&mut out, 0);
    push_decimal(&mut out, -1);
    push_decimal(&mut out, 42);
    push_decimal(&mut out, i32::MIN);
    push_decimal(&mut out, i32::MAX);
    assert_eq!(out, b">0-142-21474836482147483647");
}

#[test]
fn naturals_are_read_within_a_limit() {
    assert_eq!(read_natural(b"123", 0, 3, 1000), Ok(123));
    assert_eq!(read_natural(b"123", 0, 3, 123), Ok(123));
    assert_eq!(read_natural(b"123", 0, 3, 122), Err(IntErrorKind::PosOverflow));
    assert_eq!(read_natural(b"x123y", 1, 4, 1000), Ok(123));
    assert_eq!(read_natural(b"123", 1, 1, 1000), Err(IntErrorKind::Empty));
    assert_eq!(read_natural(b"12a", 0, 3, 1000), Err(IntErrorKind::InvalidDigit));
    assert_eq!(read_natural(b"-12", 0, 3, 1000), Err(IntErrorKind::InvalidDigit));
    assert_eq!(read_natural(b"0007", 0, 4, 7), Ok(7));
    assert_eq!(read_natural(b"18446744073709551615", 0, 20, u64::MAX), Ok(u64::MAX));
    assert_eq!(
        read_natural(b"18446744073709551616", 0, 20, u64::MAX),
        Err(IntErrorKind::PosOverflow)
    );
    assert_eq!(
        read_natural(b"99999999999999999999999999999999999999999999x", 0, 45, u64::MAX),
        Err(IntErrorKind::InvalidDigit)
    );
}

#[test]
fn integers_are_read_with_their_sign() {
    assert_eq!(read_integer(b"0", 0, 1), Ok(0));
    assert_eq!(read_integer(b"-5", 0, 2), Ok(-5));
    assert_eq!(read_integer(b"i-5e", 1, 3), Ok(-5));
    assert_eq!(read_integer(b"2147483647", 0, 10), Ok(i32::MAX));
    assert_eq!(read_integer(b"-2147483648", 0, 11), Ok(i32::MIN));
    assert_eq!(read_integer(b"2147483648", 0, 10), Err(IntErrorKind::PosOverflow));
    assert_eq!(read_integer(b"-2147483649", 0, 11), Err(IntErrorKind::NegOverflow));
    assert_eq!(read_integer(b"", 0, 0), Err(IntErrorKind::Empty));
    assert_eq!(read_integer(b"-", 0, 1), Err(IntErrorKind::InvalidDigit));
    assert_eq!(read_integer(b"+1", 0, 2), Err(IntErrorKind::InvalidDigit));
    assert_eq!(read_integer(b"1-", 0, 2), Err(IntErrorKind::InvalidDigit));
}

#[test]
fn numbers_in_messages() {
    let mut message = String::from("n=");
    push_number(&mut message, 0);
    push_number(&mut message, 255);
    assert_eq!(message, "n=0255");
    assert_eq!(digit_str(0), "0");
    assert_eq!(digit_str(9), "9");
    assert_eq!(describe_kind(IntErrorKind::Empty), "cannot parse integer from empty string");
}

#[test]
fn byte_buffers() {
    let mut out = b"ab".to_vec();
    append_bytes(&mut out, b"cd");
    append_bytes(&mut out, b"");
    assert_eq!(out, b"abcd");
    assert!(bytes_equal(b"abc", b"abc"));
    assert!(bytes_equal(b"", b""));
    assert!(!bytes_equal(b"abc", b"abd"));
    assert!(!bytes_equal(b"abc", b"ab"));
}

#[test]
fn reader_reads_bytes() {
    let mut reader = ByteReader::new(b"ab:cd:e");
    assert_eq!(reader.data(), b"ab:cd:e");
    assert_eq!(reader.position(), 0);
    assert_eq!(reader.remaining(), 7);
    assert_eq!(reader.next_byte(), Some(b'a'));
    assert_eq!(reader.skip_past(b':'), Some(2));
    assert_eq!(reader.position(), 3);
    assert_eq!(reader.read_exact(2), Some(b"cd".to_vec()));
    assert_eq!(reader.position(), 5);
    assert_eq!(reader.read_exact(0), Some(vec![]));
    assert_eq!(reader.skip_past(b':'), Some(5));
    assert_eq!(reader.skip_past(b':'), None);
    assert_eq!(reader.position(), 7);
    assert_eq!(reader.next_byte(), None);
    assert_eq!(reader.read_exact(1), None);
}

#[test]
fn reader_reads_to_the_end_when_too_much_is_asked() {
    let mut reader = ByteReader::new(b"abc");
    assert_eq!(reader.read_exact(4), None);
    assert_eq!(reader.position(), 3);
    let mut reader = ByteReader::new(b"abc");
    assert_eq!(reader.read_exact(3), Some(b"abc".to_vec()));
    assert_eq!(reader.remaining(), 0);
}
