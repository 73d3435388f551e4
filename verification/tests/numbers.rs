use iofs::convert::{ConvertBuffer, ConvertError};
use iofs::number::{hex_to_dec, is_white_space, NumberSystem, Trim};

#[test]
fn base_prefixes_select_the_number_system() {
    assert_eq!(NumberSystem::from_bytes(b"0x1F"), NumberSystem::Hexadecimal);
    assert_eq!(NumberSystem::from_bytes(b"0o17"), NumberSystem::Octal);
    assert_eq!(NumberSystem::from_bytes(b"0b101"), NumberSystem::Binary);
    assert_eq!(NumberSystem::from_bytes(b"42"), NumberSystem::Decimal);
    assert_eq!(NumberSystem::from_bytes(b"7"), NumberSystem::Decimal);
    assert_eq!(NumberSystem::from_byte(b'X'), NumberSystem::Hexadecimal);
    assert_eq!(NumberSystem::from_byte(b'z'), NumberSystem::Decimal);
}

#[test]
fn hex_reads_to_the_expected_value() {
    let r: i32 = ConvertBuffer::from_buf(b"0x1F".to_vec()).unwrap();
    assert_eq!(r, 31);
}

#[test]
fn binary_reads_to_the_expected_value() {
    let r: i32 = ConvertBuffer::from_buf(b"0b101".to_vec()).unwrap();
    assert_eq!(r, 5);
}

#[test]
fn octal_reads_to_the_expected_value() {
    let r: i32 = ConvertBuffer::from_buf(b"0o17".to_vec()).unwrap();
    assert_eq!(r, 15);
}

#[test]
fn negative_decimal_reads_to_the_expected_value() {
    let r: i32 = ConvertBuffer::from_buf(b"-42".to_vec()).unwrap();
    assert_eq!(r, -42);
}

#[test]
fn empty_buffer_reports_empty() {
    let r: Result<i32, ConvertError> = ConvertBuffer::from_buf(Vec::new());
    assert!(matches!(r, Err(ConvertError::Empty)));
    let ws: Result<i32, ConvertError> = ConvertBuffer::from_buf(b"  \n".to_vec());
    assert!(matches!(ws, Err(ConvertError::Empty)));
}

#[test]
fn stray_characters_report_invalid() {
    let r: Result<i32, ConvertError> = ConvertBuffer::from_buf(b"12a".to_vec());
    assert!(matches!(r, Err(ConvertError::Invalid)));
    let h: Result<i32, ConvertError> = ConvertBuffer::from_buf(b"0xZZ".to_vec());
    assert!(matches!(h, Err(ConvertError::Invalid)));
}

#[test]
fn out_of_range_values_report_invalid() {
    let small: Result<u8, ConvertError> = ConvertBuffer::from_buf(b"0x1FF".to_vec());
    assert!(matches!(small, Err(ConvertError::Invalid)));
    let neg: Result<u32, ConvertError> = ConvertBuffer::from_buf(b"-7".to_vec());
    assert!(matches!(neg, Err(ConvertError::Invalid)));
    let wide: u64 = ConvertBuffer::from_buf(b"18446744073709551615".to_vec()).unwrap();
    assert_eq!(wide, u64::MAX);
    let over: Result<u64, ConvertError> = ConvertBuffer::from_buf(b"18446744073709551616".to_vec());
    assert!(matches!(over, Err(ConvertError::Invalid)));
}

#[test]
fn widths_and_signs_cover_their_ranges() {
    let a: i8 = ConvertBuffer::from_buf(b"-128".to_vec()).unwrap();
    assert_eq!(a, -128);
    let b: i16 = ConvertBuffer::from_buf(b"0x7FFF".to_vec()).unwrap();
    assert_eq!(b, i16::MAX);
    let c: usize = ConvertBuffer::from_buf(b"17".to_vec()).unwrap();
    assert_eq!(c, 17);
    let d: isize = ConvertBuffer::from_buf(b"-3".to_vec()).unwrap();
    assert_eq!(d, -3);
    let e: u16 = ConvertBuffer::from_buf(b"0b1111111111111111".to_vec()).unwrap();
    assert_eq!(e, u16::MAX);
    let f: i64 = ConvertBuffer::from_buf(b"+9".to_vec()).unwrap();
    assert_eq!(f, 9);
}

#[test]
fn bare_prefix_reads_as_zero() {
    let r: i32 = ConvertBuffer::from_buf(b"0x".to_vec()).unwrap();
    assert_eq!(r, 0);
}

#[test]
fn string_and_bytes_convert_plainly() {
    let s: String = ConvertBuffer::from_buf(b"plain".to_vec()).unwrap();
    assert_eq!(s, "plain");
    let bad: Result<String, ConvertError> = ConvertBuffer::from_buf(vec![0xFFu8, 0xFE]);
    assert!(matches!(bad, Err(ConvertError::Invalid)));
    let v: Vec<u8> = ConvertBuffer::from_buf(vec![1u8, 2]).unwrap();
    assert_eq!(v, vec![1u8, 2]);
}

#[test]
fn trim_strips_whitespace_at_both_ends() {
    let mut v = b" \t42\r\n".to_vec();
    v.trim();
    assert_eq!(v, b"42".to_vec());
    let mut w: Vec<u8> = Vec::new();
    w.trim();
    assert!(w.is_empty());
}

#[test]
fn del_zero_strips_redundant_zeros() {
    let mut a = b"007".to_vec();
    a.del_zero();
    assert_eq!(a, b"7".to_vec());
    let mut b = b"1.500".to_vec();
    b.del_zero();
    assert_eq!(b, b"1.5".to_vec());
    let mut c = b"0x00ff".to_vec();
    c.del_zero();
    assert_eq!(c, b"0xff".to_vec());
    let mut d = b"-007".to_vec();
    d.del_zero();
    assert_eq!(d, b"-7".to_vec());
    let mut e = b"5.".to_vec();
    e.del_zero();
    assert_eq!(e, b"5.0".to_vec());
}

#[test]
fn trim_zero_runs_both_steps() {
    let mut a = b"  010  ".to_vec();
    a.trim_zero();
    assert_eq!(a, b"10".to_vec());
}

#[test]
fn hex_digit_values() {
    assert_eq!(hex_to_dec(b'0'), Some(0));
    assert_eq!(hex_to_dec(b'a'), Some(10));
    assert_eq!(hex_to_dec(b'F'), Some(15));
    assert_eq!(hex_to_dec(b'g'), None);
}

#[test]
fn whitespace_characters() {
    assert!(is_white_space(' '));
    assert!(is_white_space('\t'));
    assert!(is_white_space('\n'));
    assert!(is_white_space('\r'));
    assert!(!is_white_space('x'));
}

#[test]
fn del_front_zero_keeps_one_digit() {
    assert_eq!(iofs::number::del_front_zero("007"), "7");
    assert_eq!(iofs::number::del_front_zero("0000"), "0");
    assert_eq!(iofs::number::del_front_zero("42"), "42");
    assert_eq!(iofs::number::del_front_zero(""), "0");
}

#[test]
fn widest_integer_types_convert() {
    let a: i128 = ConvertBuffer::from_buf(b"-170141183460469231731687303715884105728".to_vec())
        .unwrap();
    assert_eq!(a, i128::MIN);
    let b: i128 = ConvertBuffer::from_buf(b"170141183460469231731687303715884105727".to_vec())
        .unwrap();
    assert_eq!(b, i128::MAX);
    let c: u128 = ConvertBuffer::from_buf(b"340282366920938463463374607431768211455".to_vec())
        .unwrap();
    assert_eq!(c, u128::MAX);
    let over: Result<u128, ConvertError> =
        ConvertBuffer::from_buf(b"340282366920938463463374607431768211456".to_vec());
    assert!(matches!(over, Err(ConvertError::Invalid)));
    let h: u128 = ConvertBuffer::from_buf(b"0xff".to_vec()).unwrap();
    assert_eq!(h, 255);
    let neg: Result<u128, ConvertError> = ConvertBuffer::from_buf(b"-1".to_vec());
    assert!(matches!(neg, Err(ConvertError::Invalid)));
    let z: u128 = ConvertBuffer::from_buf(b"-0".to_vec()).unwrap();
    assert_eq!(z, 0);
}
