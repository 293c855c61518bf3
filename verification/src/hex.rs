//! ASCII hexadecimal digits, as they appear in the fields of an Intel HEX record.
use vstd::prelude::*;

verus! {

/// The value of an ASCII hexadecimal digit (`0-9`, `a-f`, `A-F`), or `None` for any other byte.
pub open spec fn hex_digit_value(ch: u8) -> Option<u8> {
    if 0x30 <= ch <= 0x39 {
        Some((ch - 0x30) as u8)
    } else if 0x61 <= ch <= 0x66 {
        Some((ch - 0x61 + 10) as u8)
    } else if 0x41 <= ch <= 0x46 {
        Some((ch - 0x41 + 10) as u8)
    } else {
        None
    }
}

pub open spec fn is_hex_digit(ch: u8) -> bool {
    hex_digit_value(ch) is Some
}

/// Value of a hex digit known to be one.
pub open spec fn digit(ch: u8) -> nat {
    hex_digit_value(ch).unwrap() as nat
}

/// Value of the two-digit hexadecimal number `hi lo`.
pub open spec fn two_digit_value(hi: u8, lo: u8) -> nat {
    16 * digit(hi) + digit(lo)
}

/// Value of the four-digit hexadecimal number `d[0] d[1] d[2] d[3]`.
pub open spec fn four_digit_value(d0: u8, d1: u8, d2: u8, d3: u8) -> nat {
    256 * two_digit_value(d0, d1) + two_digit_value(d2, d3)
}

/// The upper-case ASCII digit for a value below 16.
pub open spec fn upper_digit(n: nat) -> u8 {
    if n < 10 {
        (0x30 + n) as u8
    } else {
        (0x41 + n - 10) as u8
    }
}

/// The lower-case ASCII digit for a value below 16.
pub open spec fn lower_digit(n: nat) -> u8 {
    if n < 10 {
        (0x30 + n) as u8
    } else {
        (0x61 + n - 10) as u8
    }
}

/// The digit for a value below 16, lower-case or upper-case.
pub open spec fn digit_in(n: nat, lower: bool) -> u8 {
    if lower {
        lower_digit(n)
    } else {
        upper_digit(n)
    }
}

/// The two digits that write a byte, lower-case or upper-case.
pub open spec fn byte_digits(b: u8, lower: bool) -> Seq<u8> {
    seq![digit_in((b / 16) as nat, lower), digit_in((b % 16) as nat, lower)]
}

/// The four digits that write a 16-bit word, most significant first.
pub open spec fn word_digits(w: u16, lower: bool) -> Seq<u8> {
    byte_digits((w / 256) as u8, lower) + byte_digits((w % 256) as u8, lower)
}

/// Converts one ASCII hexadecimal digit to its value; `None` for any other byte.
pub fn u8char2num(ch: u8) -> (r: Option<u8>)
    ensures
        r == hex_digit_value(ch),
{
    if ch >= '0' as u8 && ch <= '9' as u8 {
        return Some(ch - ('0' as u8));
    }
    if ch >= 'a' as u8 && ch <= 'f' as u8 {
        return Some(ch - ('a' as u8) + 0xa);
    }
    if ch >= 'A' as u8 && ch <= 'F' as u8 {
        return Some(ch - ('A' as u8) + 0xa);
    }
    None
}

/// Converts one hexadecimal digit to its value, widened to 16 bits.
/// The digit must be one (the conversion unwraps).
pub fn u8char2num16(ch: u8) -> (r: Option<u16>)
    requires
        is_hex_digit(ch),
    ensures
        r == Some(digit(ch) as u16),
{
    Some(u8char2num(ch).unwrap() as u16)
}

/// Reads a two-digit hexadecimal number, most significant digit first.
/// Both bytes must be hex digits (the conversion unwraps).
pub fn str2u8(array: [u8; 2]) -> (r: Option<u8>)
    requires
        is_hex_digit(array[0]),
        is_hex_digit(array[1]),
    ensures
        r == Some(two_digit_value(array[0], array[1]) as u8),
        two_digit_value(array[0], array[1]) < 256,
{
    let hi = u8char2num(array[0]).unwrap();
    let lo = u8char2num(array[1]).unwrap();
    assert(hi < 16 && lo < 16);
    assert((hi << 4u8) == hi * 16) by (bit_vector)
        requires
            hi < 16,
    ;
    Some((hi << 4u8) + lo)
}

/// Reads a four-digit hexadecimal number, most significant digit first.
/// All four bytes must be hex digits (the conversion unwraps).
pub fn str2u16(array: [u8; 4]) -> (r: Option<u16>)
    requires
        is_hex_digit(array[0]),
        is_hex_digit(array[1]),
        is_hex_digit(array[2]),
        is_hex_digit(array[3]),
    ensures
        r == Some(four_digit_value(array[0], array[1], array[2], array[3]) as u16),
        four_digit_value(array[0], array[1], array[2], array[3]) < 65536,
{
    let d0 = u8char2num16(array[0]).unwrap();
    let d1 = u8char2num16(array[1]).unwrap();
    let d2 = u8char2num16(array[2]).unwrap();
    let d3 = u8char2num16(array[3]).unwrap();
    assert((d0 << 12u16) == d0 * 4096 && (d1 << 8u16) == d1 * 256 && (d2 << 4u16) == d2 * 16)
        by (bit_vector)
        requires
            d0 < 16,
            d1 < 16,
            d2 < 16,
    ;
    Some((d0 << 12u16) + (d1 << 8u16) + (d2 << 4u16) + d3)
}

/// Law: every digit that `upper_digit` or `lower_digit` writes reads back as its value.
pub proof fn lemma_digit_round_trip(n: nat)
    requires
        n < 16,
    ensures
        hex_digit_value(upper_digit(n)) == Some(n as u8),
        hex_digit_value(lower_digit(n)) == Some(n as u8),
{
}

/// Law: the two digits of any byte, in either case, read back as that byte with `str2u8`'s
/// reading; the four digits of any word read back as that word. No digit is `:`.
pub proof fn lemma_byte_digits_round_trip(b: u8, w: u16, lower: bool)
    ensures
        is_hex_digit(byte_digits(b, lower)[0]),
        is_hex_digit(byte_digits(b, lower)[1]),
        byte_digits(b, lower)[0] != 0x3Au8,
        two_digit_value(byte_digits(b, lower)[0], byte_digits(b, lower)[1]) == b,
        ({
            let d = word_digits(w, lower);
            &&& forall|i: int| 0 <= i < 4 ==> is_hex_digit(#[trigger] d[i])
            &&& four_digit_value(d[0], d[1], d[2], d[3]) == w
        }),
{
    lemma_digit_round_trip((b / 16) as nat);
    lemma_digit_round_trip((b % 16) as nat);
    let hi = (w / 256) as u8;
    let lo = (w % 256) as u8;
    lemma_digit_round_trip((hi / 16) as nat);
    lemma_digit_round_trip((hi % 16) as nat);
    lemma_digit_round_trip((lo / 16) as nat);
    lemma_digit_round_trip((lo % 16) as nat);
    let d = word_digits(w, lower);
    assert(d =~= byte_digits(hi, lower) + byte_digits(lo, lower));
    assert forall|i: int| 0 <= i < 4 implies is_hex_digit(#[trigger] d[i]) by {
        if i < 2 {
            assert(d[i] == byte_digits(hi, lower)[i]);
        } else {
            assert(d[i] == byte_digits(lo, lower)[i - 2]);
        }
    }
}

} // verus!
