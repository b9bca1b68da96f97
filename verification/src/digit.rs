//! Single hex digits, and the byte that two of them spell.
use vstd::prelude::*;

verus! {

/// The value of the hex digit `b`, in either case, if it is one.
pub open spec fn digit_value(b: u8) -> Option<u8> {
    if 0x30 <= b <= 0x39 {
        Some((b - 0x30) as u8)
    } else if 0x61 <= b <= 0x66 {
        Some((b - 0x61 + 10) as u8)
    } else if 0x41 <= b <= 0x46 {
        Some((b - 0x41 + 10) as u8)
    } else {
        None
    }
}

/// Whether `b` is a hex digit, in either case.
pub open spec fn is_digit(b: u8) -> bool {
    digit_value(b) is Some
}

/// Whether every byte of `digits` is a hex digit.
pub open spec fn all_digits(digits: Seq<u8>) -> bool {
    forall|i: int| 0 <= i < digits.len() ==> is_digit(#[trigger] digits[i])
}

/// The byte that the hex digits `hi` and `lo` spell.
pub open spec fn byte_of(hi: u8, lo: u8) -> u8
    recommends
        is_digit(hi),
        is_digit(lo),
{
    (16 * digit_value(hi).unwrap() + digit_value(lo).unwrap()) as u8
}

/// The bytes that `digits` spell, two digits each.
pub open spec fn bytes_of(digits: Seq<u8>) -> Seq<u8>
    recommends
        all_digits(digits),
{
    Seq::new(digits.len() / 2, |i: int| byte_of(digits[2 * i], digits[2 * i + 1]))
}

/// The value of the hex digit `b`, if it is one.
pub fn to_digit(b: u8) -> (v: Option<u8>)
    ensures
        v == digit_value(b),
{
    match b {
        0x30..=0x39 => Some(b - 0x30),
        0x61..=0x66 => Some(b - 0x61 + 10),
        0x41..=0x46 => Some(b - 0x41 + 10),
        _ => None,
    }
}

/// The byte that `hi` and `lo` spell; or the first of them that is no hex digit, and whether that
/// is `hi`.
pub fn hex_chars_to_byte(hi: u8, lo: u8) -> (r: Result<u8, (u8, bool)>)
    ensures
        r == (if !is_digit(hi) {
            Err((hi, true))
        } else if !is_digit(lo) {
            Err((lo, false))
        } else {
            Ok(byte_of(hi, lo))
        }),
{
    let hih: u8 = match to_digit(hi) {
        Some(v) => v,
        None => return Err((hi, true)),
    };
    let loh: u8 = match to_digit(lo) {
        Some(v) => v,
        None => return Err((lo, false)),
    };
    assert(hih < 16 ==> hih << 4 == 16 * hih) by (bit_vector);
    Ok((hih << 4) + loh)
}

} // verus!
