//! The two cases of hex text, and the digits of each.
use crate::utf8::{ascii_chars, is_ascii_text, lemma_ascii, str_of_utf8};
use vstd::prelude::*;

verus! {

/// The case of hex digits.
#[derive(Debug, Clone, Copy, PartialEq, Eq, Structural)]
pub enum Case {
    /// `0123456789abcdef`.
    Lower,
    /// `0123456789ABCDEF`.
    Upper,
}

/// The digit of the given case for `n`, which is below sixteen.
pub open spec fn digit(case: Case, n: int) -> u8
    recommends
        0 <= n < 16,
{
    if n < 10 {
        (0x30 + n) as u8
    } else if case == Case::Lower {
        (0x61 + n - 10) as u8
    } else {
        (0x41 + n - 10) as u8
    }
}

/// The two digits of `byte`, the higher one first.
pub open spec fn encode_byte(case: Case, byte: u8) -> Seq<u8> {
    seq![digit(case, byte as int / 16), digit(case, byte as int % 16)]
}

/// The hex text of `bytes`.
pub open spec fn encode(case: Case, bytes: Seq<u8>) -> Seq<u8> {
    Seq::new(2 * bytes.len(), |i: int| encode_byte(case, bytes[i / 2])[i % 2])
}

/// The digits of lower case, by value.
const LOWER_DIGITS: [u8; 16] = [
    0x30, 0x31, 0x32, 0x33, 0x34, 0x35, 0x36, 0x37, 0x38, 0x39, 0x61, 0x62, 0x63, 0x64, 0x65, 0x66,
];

/// The digits of upper case, by value.
const UPPER_DIGITS: [u8; 16] = [
    0x30, 0x31, 0x32, 0x33, 0x34, 0x35, 0x36, 0x37, 0x38, 0x39, 0x41, 0x42, 0x43, 0x44, 0x45, 0x46,
];

impl Case {
    /// The conversion table of this case.
    pub fn table(self) -> (table: Table)
        ensures
            table.case() == self,
    {
        match self {
            Case::Lower => Table::LOWER,
            Case::Upper => Table::UPPER,
        }
    }
}

/// A table from byte values to pairs of hex digits.
#[derive(Debug, Clone, Copy, PartialEq, Eq, Structural)]
pub enum Table {
    /// The table of lower-case digits.
    Lower,
    /// The table of upper-case digits.
    Upper,
}

impl Table {
    /// The table of lower-case digits.
    pub const LOWER: Table = Table::Lower;

    /// The table of upper-case digits.
    pub const UPPER: Table = Table::Upper;

    /// The case of the digits in this table.
    pub open spec fn case(self) -> Case {
        match self {
            Table::Lower => Case::Lower,
            Table::Upper => Case::Upper,
        }
    }

    /// The digit for `nibble`.
    fn digit(self, nibble: u8) -> (d: u8)
        requires
            nibble < 16,
        ensures
            d == digit(self.case(), nibble as int),
    {
        match self {
            Table::Lower => LOWER_DIGITS[nibble as usize],
            Table::Upper => UPPER_DIGITS[nibble as usize],
        }
    }

    /// The two digits of `byte`, as ASCII.
    pub fn byte_to_array(self, byte: u8) -> (pair: [u8; 2])
        ensures
            pair@ == encode_byte(self.case(), byte),
    {
        assert(byte >> 4 == byte / 16 && byte & 0x0f == byte % 16) by (bit_vector);
        [self.digit(byte >> 4), self.digit(byte & 0x0f)]
    }

    /// The two digits of `byte`, as characters.
    pub fn byte_to_chars(self, byte: u8) -> (pair: [char; 2])
        ensures
            pair@ == ascii_chars(encode_byte(self.case(), byte)),
    {
        let pair = self.byte_to_array(byte);
        [pair[0] as char, pair[1] as char]
    }

    /// Writes the two digits of `byte` to `dest`, and returns them as a string.
    pub fn byte_to_str<'a>(self, dest: &'a mut [u8; 2], byte: u8) -> (s: &'a str)
        ensures
            s@ == ascii_chars(encode_byte(self.case(), byte)),
            final(dest)@ == encode_byte(self.case(), byte),
    {
        *dest = self.byte_to_array(byte);
        proof {
            lemma_ascii(encode_byte(self.case(), byte));
        }
        str_of_utf8(dest)
    }
}

/// One more byte gives two more digits.
pub proof fn lemma_encode_push(case: Case, bytes: Seq<u8>, byte: u8)
    ensures
        encode(case, bytes.push(byte)) == encode(case, bytes) + encode_byte(case, byte),
{
    assert(encode(case, bytes.push(byte)) =~= encode(case, bytes) + encode_byte(case, byte));
}

/// Hex text is ASCII.
pub proof fn lemma_encode_ascii(case: Case, bytes: Seq<u8>)
    ensures
        is_ascii_text(encode(case, bytes)),
{
}

} // verus!
