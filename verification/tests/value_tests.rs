use tika_magic::document::Offset;
use tika_magic::errors::BuildError;
use tika_magic::values::{parse_int_auto, string_to_bytes};

#[test]
fn hex_value_literals() {
    assert_eq!(string_to_bytes("0x414243").unwrap(), b"ABC".to_vec());
    // odd length is left-zero-padded
    assert_eq!(string_to_bytes("0x102").unwrap(), vec![0x01, 0x02]);
    assert_eq!(string_to_bytes("0x").unwrap(), Vec::<u8>::new());
    assert_eq!(string_to_bytes("0xZZ").unwrap_err(), BuildError::BadValue);
}

#[test]
fn escaped_value_literals() {
    assert_eq!(string_to_bytes("PK\\003\\004").unwrap(), vec![0x50, 0x4B, 3, 4]);
    assert_eq!(string_to_bytes("PK\\x07\\x08").unwrap(), vec![0x50, 0x4B, 7, 8]);
    assert_eq!(string_to_bytes("a\\nb\\tc").unwrap(), vec![b'a', b'\n', b'b', b'\t', b'c']);
    assert_eq!(string_to_bytes("\\\\").unwrap(), vec![b'\\']);
    // up to three octal digits
    assert_eq!(string_to_bytes("\\1234").unwrap(), vec![0o123, b'4']);
    // an octal value above one byte is a fatal value error
    assert_eq!(string_to_bytes("\\777").unwrap_err(), BuildError::BadValue);
    // an unknown escape is a fatal value error
    assert_eq!(string_to_bytes("\\q").unwrap_err(), BuildError::BadValue);
    // a truncated hex escape is a fatal value error
    assert_eq!(string_to_bytes("\\x4").unwrap_err(), BuildError::BadValue);
    // a trailing lone backslash is dropped
    assert_eq!(string_to_bytes("ab\\").unwrap(), vec![b'a', b'b']);
}

#[test]
fn integer_literals() {
    assert_eq!(parse_int_auto("0x7B5C52E4").unwrap(), 0x7B5C52E4);
    assert_eq!(parse_int_auto("0XFF").unwrap(), 255);
    assert_eq!(parse_int_auto("0o17").unwrap(), 15);
    assert_eq!(parse_int_auto("0b101").unwrap(), 5);
    assert_eq!(parse_int_auto("0n42").unwrap(), 42);
    // a bare leading zero is legacy octal
    assert_eq!(parse_int_auto("017").unwrap(), 15);
    assert_eq!(parse_int_auto("42").unwrap(), 42);
    assert_eq!(parse_int_auto(" 42 ").unwrap(), 42);
    assert_eq!(parse_int_auto("+7").unwrap(), 7);
    assert_eq!(parse_int_auto("").unwrap_err(), BuildError::BadInt);
    assert_eq!(parse_int_auto("0xG").unwrap_err(), BuildError::BadInt);
    // 33 bits overflow
    assert_eq!(parse_int_auto("0x1FFFFFFFF").unwrap_err(), BuildError::BadInt);
}

#[test]
fn offset_literals() {
    assert_eq!(Offset::parse("0").unwrap(), Offset::Start(0));
    assert_eq!(Offset::parse("128").unwrap(), Offset::Start(128));
    assert_eq!(Offset::parse("0:64").unwrap(), Offset::Range { start: 0, end: 64 });
    assert_eq!(Offset::parse("x").unwrap_err(), BuildError::BadOffset);
    assert_eq!(Offset::parse("1:2:3").unwrap_err(), BuildError::BadOffset);
    assert_eq!(Offset::parse("").unwrap_err(), BuildError::BadOffset);
}

#[test]
fn error_messages() {
    assert_eq!(BuildError::BadValue.message(), "unparseable value literal");
    assert_eq!(BuildError::DuplicateType.message(), "duplicate mime type definition");
}
