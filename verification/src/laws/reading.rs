//! How far decoding reads, and what an error names: told by the characters that the input holds.
use crate::case::{digit, Case};
use crate::decode::{
    after_first, after_last, bad_in_last, char_ending_at, char_width, decode_first, decode_last,
    is_char_between, lemma_char_ending_not_continuation, lemma_char_ending_unique,
    lemma_char_shape, lemma_single_byte,
};
use crate::digit::{digit_value, is_digit};
use crate::error::{InvalidChar, InvalidCharError};
use crate::laws::lemma_encode_utf8_one;
use vstd::prelude::*;
use vstd::utf8::*;

verus! {

/// The bytes of one well-formed character are those of that character.
proof fn lemma_whole_character(one: Seq<u8>)
    requires
        valid_first_scalar(one),
        length_of_first_scalar(one) == one.len(),
    ensures
        encode_utf8(seq![decode_first_scalar(one) as char]) == one,
{
    assert(pop_first_scalar(one) =~= Seq::<u8>::empty());
    reveal_with_fuel(valid_utf8, 2);
    reveal_with_fuel(decode_utf8, 2);
    assert(decode_utf8(one) =~= seq![decode_first_scalar(one) as char]);
    decode_utf8_encode_utf8(one);
}

/// A well-formed character begins with `bytes` where they begin with those of a character.
proof fn lemma_character_in_front(bytes: Seq<u8>)
    requires
        bytes.len() > 0,
    ensures
        valid_first_scalar(bytes) ==> encode_utf8(
            seq![decode_first_scalar(bytes) as char],
        ).is_prefix_of(bytes),
        forall|c: char| #[trigger]
            encode_utf8(seq![c]).is_prefix_of(bytes) ==> valid_first_scalar(bytes)
                && decode_first_scalar(bytes) as char == c,
{
    if valid_first_scalar(bytes) {
        lemma_whole_character(take_first_scalar(bytes));
    }
    assert forall|c: char| #[trigger] encode_utf8(seq![c]).is_prefix_of(bytes) implies
        valid_first_scalar(bytes) && decode_first_scalar(bytes) as char == c by {
        let one = encode_utf8(seq![c]);
        lemma_encode_utf8_one(c);
        assert(forall|i: int| 0 <= i < one.len() ==> one[i] == bytes[i]);
    }
}

/// The first byte of a character tells how many it has.
proof fn lemma_width_of_character(c: char)
    ensures
        char_width(encode_utf8(seq![c])[0]) == encode_utf8(seq![c]).len(),
{
    let one = encode_utf8(seq![c]);
    lemma_encode_utf8_one(c);
    if char_width(one[0]) == 1 {
        lemma_single_byte(one);
    }
}

/// A character begins with each byte that tells of more than one.
proof fn lemma_some_character_begins(b: u8)
    requires
        char_width(b) > 1,
    ensures
        exists|c: char| #[trigger] encode_utf8(seq![c])[0] == b,
{
    let one = if char_width(b) == 2 {
        seq![b, 0x80]
    } else if char_width(b) == 3 {
        seq![
            b,
            if b == 0xe0 {
                0xa0
            } else {
                0x80
            },
            0x80,
        ]
    } else {
        seq![
            b,
            if b == 0xf0 {
                0x90
            } else {
                0x80
            },
            0x80,
            0x80,
        ]
    };
    assert(0xc2 <= b <= 0xdf ==> ((b & 0x1f) as u32) << 6 | (0x80u8 & 0x3f) as u32 >= 0x80)
        by (bit_vector);
    assert(0xc2 <= b <= 0xdf ==> ((b & 0x1f) as u32) << 6 | (0x80u8 & 0x3f) as u32 <= 0x7ff)
        by (bit_vector);
    assert(b == 0xe0 ==> ((b & 0x0f) as u32) << 12 | ((0xa0u8 & 0x3f) as u32) << 6 | (0x80u8
        & 0x3f) as u32 == 0x800) by (bit_vector);
    assert(0xe1 <= b <= 0xef ==> {
        let v = ((b & 0x0f) as u32) << 12 | ((0x80u8 & 0x3f) as u32) << 6 | (0x80u8 & 0x3f) as u32;
        0x800 <= v && !(0xd800 <= v && v <= 0xdfff)
    }) by (bit_vector);
    assert(b == 0xf0 ==> ((b & 0x07) as u32) << 18 | ((0x90u8 & 0x3f) as u32) << 12 | ((0x80u8
        & 0x3f) as u32) << 6 | (0x80u8 & 0x3f) as u32 == 0x10000) by (bit_vector);
    assert(0xf1 <= b <= 0xf4 ==> {
        let v = ((b & 0x07) as u32) << 18 | ((0x80u8 & 0x3f) as u32) << 12 | ((0x80u8
            & 0x3f) as u32) << 6 | (0x80u8 & 0x3f) as u32;
        0x10000 <= v && v <= 0x10ffff
    }) by (bit_vector);
    assert(valid_first_scalar(one));
    lemma_whole_character(one);
    assert(encode_utf8(seq![decode_first_scalar(one) as char])[0] == b);
}

/// A pair of hex digits, whatever the case of each, yields the number that they are, and is all
/// that is read, from the front as from the back.
pub proof fn a_good_pair_is_read_alone(
    hi_case: Case,
    lo_case: Case,
    hi: int,
    lo: int,
    others: Seq<u8>,
    base: int,
)
    requires
        0 <= hi < 16,
        0 <= lo < 16,
        others.len() % 2 == 0,
    ensures
        ({
            let pair = seq![digit(hi_case, hi), digit(lo_case, lo)];
            let byte = (16 * hi + lo) as u8;
            &&& decode_first(pair + others, base) == Ok::<u8, InvalidCharError>(byte)
            &&& after_first(pair + others) == others
            &&& decode_last(others + pair) == Ok::<u8, InvalidCharError>(byte)
            &&& after_last(others + pair) == others
        }),
{
    let pair = seq![digit(hi_case, hi), digit(lo_case, lo)];
    assert(is_digit(digit(hi_case, hi)) && is_digit(digit(lo_case, lo)));
    assert(after_first(pair + others) =~= others);
    assert(after_last(others + pair) =~= others);
}

/// An error from the front names what stands at the first byte of the pair that is no hex digit,
/// `i`: the character whose bytes begin there; or that byte, where those of no character do.
pub proof fn errors_name_what_begins(digits: Seq<u8>, i: int, base: int)
    requires
        digits.len() >= 2,
        digits.len() % 2 == 0,
        0 <= i <= 1,
        i == 1 ==> digit_value(digits[0]) is Some,
        digit_value(digits[i]) is None,
        0 <= base,
        base + 1 <= usize::MAX,
    ensures
        match decode_first(digits, base) {
            Ok(_) => false,
            Err(e) => {
                &&& e.pos == base + i
                &&& match e.invalid {
                    InvalidChar::Utf8(c) => encode_utf8(seq![c]).is_prefix_of(digits.skip(i)),
                    InvalidChar::Other(b) => {
                        &&& b == digits[i]
                        &&& forall|c: char| !#[trigger]
                            encode_utf8(seq![c]).is_prefix_of(digits.skip(i))
                    },
                }
            },
        },
{
    lemma_character_in_front(digits.skip(i));
}

/// From the front, pairs are read as far as a character reaches that begins with the first byte
/// that is no hex digit, `i`, and no further; where no character begins with it, one pair is.
pub proof fn reading_ends_with_the_character(digits: Seq<u8>, i: int)
    requires
        digits.len() >= 2,
        digits.len() % 2 == 0,
        0 <= i <= 1,
        i == 1 ==> digit_value(digits[0]) is Some,
        digit_value(digits[i]) is None,
    ensures
        ({
            let read = digits.len() - after_first(digits).len();
            &&& read % 2 == 0
            &&& 2 <= read
            &&& after_first(digits) == digits.skip(read)
            &&& forall|c: char|
                (#[trigger] encode_utf8(seq![c]))[0] == digits[i] ==> {
                    let end = i + encode_utf8(seq![c]).len();
                    &&& read < end + 2
                    &&& end <= read || read == digits.len()
                }
            &&& (forall|c: char| (#[trigger] encode_utf8(seq![c]))[0] != digits[i]) ==> read == 2
        }),
{
    let b = digits[i];
    let read = digits.len() - after_first(digits).len();
    assert forall|c: char| (#[trigger] encode_utf8(seq![c]))[0] == b implies {
        let end = i + encode_utf8(seq![c]).len();
        &&& read < end + 2
        &&& end <= read || read == digits.len()
    } by {
        lemma_width_of_character(c);
        lemma_encode_utf8_one(c);
    }
    if char_width(b) > 1 {
        lemma_some_character_begins(b);
    }
}

/// A character that is no hex digit is named with its place, and what stands behind it is still to
/// come: all of it, or all but one byte where that shares a pair with the end of the character.
/// Before it, in its first pair, there is nothing or a hex digit.
pub proof fn next_goes_on_behind(before: Seq<u8>, c: char, behind: Seq<u8>, base: int)
    requires
        before.len() <= 1,
        before.len() == 1 ==> digit_value(before[0]) is Some,
        !('0' <= c <= '9' || 'a' <= c <= 'f' || 'A' <= c <= 'F'),
        (before.len() + encode_utf8(seq![c]).len() + behind.len()) % 2 == 0,
        0 <= base,
        base + 1 <= usize::MAX,
    ensures
        ({
            let one = encode_utf8(seq![c]);
            let digits = before + one + behind;
            &&& decode_first(digits, base) == Err::<u8, _>(
                InvalidCharError {
                    invalid: InvalidChar::Utf8(c),
                    pos: (base + before.len()) as usize,
                },
            )
            &&& (before.len() + one.len()) % 2 == 0 ==> after_first(digits) == behind
            &&& (before.len() + one.len()) % 2 == 1 ==> after_first(digits) == behind.skip(1)
        }),
{
    let one = encode_utf8(seq![c]);
    let digits = before + one + behind;
    let i = before.len() as int;
    lemma_encode_utf8_one(c);
    assert(!is_digit(one[0]));
    assert(digits[i] == one[0]);
    assert(i == 1 ==> digits[0] == before[0]);
    assert(one.is_prefix_of(digits.skip(i))) by {
        assert(digits.skip(i) =~= one + behind);
        assert(one =~= (one + behind).subrange(0, one.len() as int));
    }
    lemma_character_in_front(digits.skip(i));
    reading_ends_with_the_character(digits, i);
    let end = i + one.len() as int;
    let read = digits.len() - after_first(digits).len();
    assert(read == end || read == end + 1);
    assert(digits.skip(end) =~= behind);
    if end % 2 == 1 {
        assert(digits.skip(end + 1) =~= behind.skip(1));
    }
}

/// The bytes of a character end at the index `j` where one well-formed character does.
proof fn lemma_character_at_end(digits: Seq<u8>, j: int)
    requires
        0 <= j < digits.len(),
    ensures
        char_ending_at(digits, j) matches InvalidChar::Utf8(c) ==> encode_utf8(
            seq![c],
        ).is_suffix_of(digits.take(j + 1)),
        char_ending_at(digits, j) matches InvalidChar::Other(b) ==> b == digits[j],
        forall|c: char| #[trigger]
            encode_utf8(seq![c]).is_suffix_of(digits.take(j + 1)) ==> {
                &&& is_char_between(digits, j + 1 - encode_utf8(seq![c]).len(), j)
                &&& char_ending_at(digits, j) == InvalidChar::Utf8(c)
            },
{
    let left = digits.take(j + 1);
    if exists|k: int| is_char_between(digits, k, j) {
        let k = choose|k: int| is_char_between(digits, k, j);
        let one = digits.subrange(k, j + 1);
        lemma_whole_character(one);
        assert(one =~= left.subrange(k, left.len() as int));
    }
    assert forall|c: char| #[trigger] encode_utf8(seq![c]).is_suffix_of(left) implies {
        &&& is_char_between(digits, j + 1 - encode_utf8(seq![c]).len(), j)
        &&& char_ending_at(digits, j) == InvalidChar::Utf8(c)
    } by {
        let one = encode_utf8(seq![c]);
        let k = j + 1 - one.len();
        lemma_encode_utf8_one(c);
        assert(one =~= left.subrange(k, j + 1));
        assert(digits.subrange(k, j + 1) =~= one);
        lemma_char_ending_unique(digits, k, j);
    }
}

/// An error from the back names what stands at the last byte of the pair that is no hex digit, `j`:
/// the character whose bytes end there; or that byte, where those of no character do.
pub proof fn errors_from_the_back_name_what_ends(digits: Seq<u8>, j: int)
    requires
        2 <= digits.len() <= usize::MAX,
        digits.len() % 2 == 0,
        digits.len() - 2 <= j < digits.len(),
        j == digits.len() - 2 ==> digit_value(digits.last()) is Some,
        digit_value(digits[j]) is None,
    ensures
        match decode_last(digits) {
            Ok(_) => false,
            Err(e) => {
                &&& e.pos == j
                &&& match e.invalid {
                    InvalidChar::Utf8(c) => encode_utf8(seq![c]).is_suffix_of(digits.take(j + 1)),
                    InvalidChar::Other(b) => {
                        &&& b == digits[j]
                        &&& forall|c: char| !#[trigger]
                            encode_utf8(seq![c]).is_suffix_of(digits.take(j + 1))
                    },
                }
            },
        },
{
    assert(bad_in_last(digits) == j);
    lemma_character_at_end(digits, j);
}

/// From the back, pairs are read as far as the character reaches that ends with the last byte that
/// is no hex digit, `j`, and no further. Where that byte continues no character, one pair is. Else,
/// whether a character is there or not, a further pair is read only where all bytes behind it, up
/// to `j`, continue a character; and it is the last where it holds a byte that does not, or is the
/// third, or the first of the input.
pub proof fn reading_back_ends_with_the_character(digits: Seq<u8>, j: int)
    requires
        digits.len() >= 2,
        digits.len() % 2 == 0,
        digits.len() - 2 <= j < digits.len(),
        j == digits.len() - 2 ==> digit_value(digits.last()) is Some,
        digit_value(digits[j]) is None,
    ensures
        ({
            let n = digits.len() as int;
            let left = after_last(digits).len() as int;
            &&& left % 2 == 0
            &&& n - 6 <= left <= n - 2
            &&& after_last(digits) == digits.take(left)
            &&& forall|c: char| #[trigger]
                encode_utf8(seq![c]).is_suffix_of(digits.take(j + 1)) ==> left == 2 * ((j + 1
                    - encode_utf8(seq![c]).len()) / 2)
            &&& !(0x80 <= digits[j] <= 0xbf) ==> left == n - 2
            &&& forall|i: int| left + 2 <= i <= j ==> 0x80 <= #[trigger] digits[i] <= 0xbf
                || left == n - 2
            &&& left == 0 || left == n - 6 || !(0x80 <= digits[left] <= 0xbf) || (left + 1 <= j
                && !(0x80 <= digits[left + 1] <= 0xbf))
        }),
{
    let n = digits.len() as int;
    let left = after_last(digits).len() as int;
    assert(bad_in_last(digits) == j);
    lemma_character_at_end(digits, j);
    assert forall|c: char| #[trigger]
        encode_utf8(seq![c]).is_suffix_of(digits.take(j + 1)) implies left == 2 * ((j + 1
        - encode_utf8(seq![c]).len()) / 2) by {
        lemma_char_shape(digits, j + 1 - encode_utf8(seq![c]).len(), j);
        lemma_encode_utf8_one(c);
    }
}

/// A character that is no hex digit is named from the back with the place of its last byte, and
/// what stands before it is still to come: all of it, or all but one byte where that shares a pair
/// with the beginning of the character. Behind it, in its last pair, there is nothing or a hex
/// digit.
#[verifier::rlimit(40)]
pub proof fn next_back_goes_on_before(before: Seq<u8>, c: char, behind: Seq<u8>)
    requires
        behind.len() <= 1,
        behind.len() == 1 ==> digit_value(behind[0]) is Some,
        !('0' <= c <= '9' || 'a' <= c <= 'f' || 'A' <= c <= 'F'),
        (before.len() + encode_utf8(seq![c]).len() + behind.len()) % 2 == 0,
        before.len() + encode_utf8(seq![c]).len() + behind.len() <= usize::MAX,
    ensures
        ({
            let one = encode_utf8(seq![c]);
            let digits = before + one + behind;
            &&& decode_last(digits) == Err::<u8, _>(
                InvalidCharError {
                    invalid: InvalidChar::Utf8(c),
                    pos: (before.len() + one.len() - 1) as usize,
                },
            )
            &&& before.len() % 2 == 0 ==> after_last(digits) == before
            &&& before.len() % 2 == 1 ==> after_last(digits) == before.drop_last()
        }),
{
    let one = encode_utf8(seq![c]);
    let digits = before + one + behind;
    let j = before.len() + one.len() - 1;
    lemma_encode_utf8_one(c);
    assert(!is_digit(one.last()));
    assert(digits[j] == one.last());
    assert(behind.len() == 1 ==> digits.last() == behind[0]);
    assert(digits.take(j + 1) =~= before + one);
    assert(one =~= (before + one).subrange(before.len() as int, j + 1));
    assert(one.is_suffix_of(digits.take(j + 1)));
    lemma_character_at_end(digits, j);
    reading_back_ends_with_the_character(digits, j);
    assert(digits.take(2 * (before.len() as int / 2)) =~= before.take(
        2 * (before.len() as int / 2),
    ));
    assert(before.len() % 2 == 0 ==> before.take(2 * (before.len() as int / 2)) =~= before);
    assert(before.len() % 2 == 1 ==> before.take(2 * (before.len() as int / 2))
        =~= before.drop_last());
}

} // verus!
