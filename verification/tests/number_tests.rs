use stats::Number;

#[test]
fn test_to_key_unsigned() {
    assert_eq!(0u32.to_key(), b"0".to_vec());
    assert_eq!(7u8.to_key(), b"7".to_vec());
    assert_eq!(255u8.to_key(), b"255".to_vec());
    assert_eq!(65535u16.to_key(), b"65535".to_vec());
    assert_eq!(4294967295u32.to_key(), b"4294967295".to_vec());
}

#[test]
fn test_to_key_signed() {
    assert_eq!(0i32.to_key(), b"0".to_vec());
    assert_eq!((-1i32).to_key(), b"-1".to_vec());
    assert_eq!((-128i8).to_key(), b"-128".to_vec());
    assert_eq!(127i8.to_key(), b"127".to_vec());
    assert_eq!((-32768i16).to_key(), b"-32768".to_vec());
    assert_eq!((-2147483648i32).to_key(), b"-2147483648".to_vec());
    assert_eq!(2147483647i32.to_key(), b"2147483647".to_vec());
}

#[test]
fn test_from_key_round_trip() {
    assert_eq!(u8::from_key(b"0"), Some(0u8));
    assert_eq!(u8::from_key(b"255"), Some(255u8));
    assert_eq!(u16::from_key(b"65535"), Some(65535u16));
    assert_eq!(u32::from_key(b"4294967295"), Some(4294967295u32));
    assert_eq!(i8::from_key(b"-128"), Some(-128i8));
    assert_eq!(i16::from_key(b"-32768"), Some(-32768i16));
    assert_eq!(i32::from_key(b"-2147483648"), Some(-2147483648i32));
    assert_eq!(i32::from_key(b"2147483647"), Some(2147483647i32));
}

#[test]
fn test_from_key_rejects_out_of_range() {
    assert_eq!(u8::from_key(b"256"), None);
    assert_eq!(u16::from_key(b"65536"), None);
    assert_eq!(u32::from_key(b"4294967296"), None);
    assert_eq!(u32::from_key(b"99999999999999999999"), None);
    assert_eq!(i8::from_key(b"128"), None);
    assert_eq!(i8::from_key(b"-129"), None);
    assert_eq!(i32::from_key(b"2147483648"), None);
    assert_eq!(i32::from_key(b"-2147483649"), None);
}

#[test]
fn test_from_key_rejects_non_canonical() {
    assert_eq!(u32::from_key(b""), None);
    assert_eq!(u32::from_key(b"007"), None);
    assert_eq!(u32::from_key(b"1x"), None);
    assert_eq!(u32::from_key(b"+1"), None);
    assert_eq!(i32::from_key(b"-0"), None);
    assert_eq!(i32::from_key(b"-"), None);
    assert_eq!(i32::from_key(b"--1"), None);
    assert_eq!(i32::from_key(b"-007"), None);
}
