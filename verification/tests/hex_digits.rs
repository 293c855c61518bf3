use s3prog::hex::{str2u16, str2u8, u8char2num, u8char2num16};

#[test]
fn digit_values() {
    assert_eq!(u8char2num(b'0'), Some(0));
    assert_eq!(u8char2num(b'9'), Some(9));
    assert_eq!(u8char2num(b'a'), Some(10));
    assert_eq!(u8char2num(b'f'), Some(15));
    assert_eq!(u8char2num(b'A'), Some(10));
    assert_eq!(u8char2num(b'F'), Some(15));
}

#[test]
fn non_digits_have_no_value() {
    for b in [b'g', b'G', b'/', b':', b'@', b'`', b' ', b'\r', b'\n', 0u8, 255u8] {
        assert_eq!(u8char2num(b), None);
    }
    let count = (0u8..=255).filter(|b| u8char2num(*b).is_some()).count();
    assert_eq!(count, 22);
}

#[test]
fn digit_widened() {
    assert_eq!(u8char2num16(b'C'), Some(12u16));
    assert_eq!(u8char2num16(b'7'), Some(7u16));
}

#[test]
fn two_digit_numbers() {
    assert_eq!(str2u8([b'3', b'A']), Some(0x3A));
    assert_eq!(str2u8([b'f', b'f']), Some(255));
    assert_eq!(str2u8([b'0', b'0']), Some(0));
    assert_eq!(str2u8([b'1', b'0']), Some(16));
}

#[test]
fn four_digit_numbers() {
    assert_eq!(str2u16([b'1', b'2', b'3', b'4']), Some(0x1234));
    assert_eq!(str2u16([b'F', b'F', b'F', b'F']), Some(0xFFFF));
    assert_eq!(str2u16([b'0', b'1', b'0', b'0']), Some(0x0100));
    assert_eq!(str2u16([b'a', b'b', b'C', b'd']), Some(0xABCD));
}

#[test]
fn every_byte_round_trips_through_its_digits() {
    let digits = b"0123456789ABCDEF";
    let lower = b"0123456789abcdef";
    for b in 0u16..=255 {
        let b = b as u8;
        let hi = (b / 16) as usize;
        let lo = (b % 16) as usize;
        assert_eq!(str2u8([digits[hi], digits[lo]]), Some(b));
        assert_eq!(str2u8([lower[hi], lower[lo]]), Some(b));
    }
}
