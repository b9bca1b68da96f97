//! What the words mean that the contracts are written in, told by what can be observed.
use crate::buf_encoder::{repeated, BufEncoder};
use crate::case::{digit, encode, encode_byte, Case, Table};
use crate::decode::{decode, decode_alone, first_bad, last_is_torn, lemma_first_bad};
use crate::digit::{all_digits, byte_of, bytes_of, digit_value, is_digit};
use crate::error::{InvalidChar, InvalidCharError};
use crate::iter::bytes_to_hex::{
    hex_len_spec, hex_size_hint_spec, high_char, item_bytes, low_char, ByteRef,
};
use crate::iter::digits::{flat, DigitPairs};
use crate::iter::hex_to_bytes::HexToBytesIter;
use crate::laws::{
    all_hex_chars, all_of_case, chars_backward, chars_forward, chars_forward_are_text, is_hex_char,
    lemma_encode_utf8_concat,
};
use crate::utf8::{ascii_chars, is_ascii_text};
use vstd::prelude::*;
use vstd::utf8::*;

verus! {

/// The sixteen digits of either case, in the order of their values.
pub proof fn digits_are_these(n: int)
    requires
        0 <= n < 16,
    ensures
        digit(Case::Lower, n) as char == seq![
            '0',
            '1',
            '2',
            '3',
            '4',
            '5',
            '6',
            '7',
            '8',
            '9',
            'a',
            'b',
            'c',
            'd',
            'e',
            'f',
        ][n],
        digit(Case::Upper, n) as char == seq![
            '0',
            '1',
            '2',
            '3',
            '4',
            '5',
            '6',
            '7',
            '8',
            '9',
            'A',
            'B',
            'C',
            'D',
            'E',
            'F',
        ][n],
        digit_value(digit(Case::Lower, n)) == Some(n as u8),
        digit_value(digit(Case::Upper, n)) == Some(n as u8),
{
}

/// Nothing else is a digit: whatever has a value is the digit of that value, in one of the cases.
pub proof fn only_digits_have_values(b: u8)
    ensures
        is_digit(b) <==> digit_value(b) is Some,
        is_digit(b) <==> ('0' <= b as char <= '9' || 'a' <= b as char <= 'f' || 'A' <= b as char
            <= 'F'),
        digit_value(b) matches Some(n) ==> n < 16 && (b == digit(Case::Lower, n as int) || b
            == digit(Case::Upper, n as int)),
{
}

/// The hex digits among the characters.
pub proof fn hex_characters_are_these(c: char)
    ensures
        is_hex_char(c) <==> ('0' <= c <= '9' || 'a' <= c <= 'f' || 'A' <= c <= 'F'),
        is_hex_char(c) ==> is_digit(c as u8),
{
}

/// Sequences of digits are made of digits.
pub proof fn sequences_are_judged_by_element(digits: Seq<u8>, chars: Seq<char>)
    ensures
        all_digits(digits) <==> (forall|i: int|
            0 <= i < digits.len() ==> digit_value(#[trigger] digits[i]) is Some),
        all_of_case(Case::Lower, digits) <==> (forall|i: int|
            0 <= i < digits.len() ==> ('0' <= #[trigger] digits[i] as char <= '9' || 'a'
                <= digits[i] as char <= 'f')),
        all_of_case(Case::Upper, digits) <==> (forall|i: int|
            0 <= i < digits.len() ==> ('0' <= #[trigger] digits[i] as char <= '9' || 'A'
                <= digits[i] as char <= 'F')),
        all_hex_chars(chars) <==> (forall|i: int|
            0 <= i < chars.len() ==> ('0' <= #[trigger] chars[i] <= '9' || 'a' <= chars[i] <= 'f'
                || 'A' <= chars[i] <= 'F')),
        is_ascii_text(digits) <==> (forall|i: int|
            0 <= i < digits.len() ==> #[trigger] digits[i] <= 0x7f),
{
    assert forall|i: int|
        (forall|k: int|
            0 <= k < chars.len() ==> ('0' <= #[trigger] chars[k] <= '9' || 'a' <= chars[k] <= 'f'
                || 'A' <= chars[k] <= 'F')) && 0 <= i < chars.len() implies is_hex_char(
        #[trigger] chars[i],
    ) by {
        hex_characters_are_these(chars[i]);
    }
    assert forall|i: int| all_hex_chars(chars) && 0 <= i < chars.len() implies ('0'
        <= #[trigger] chars[i] <= '9' || 'a' <= chars[i] <= 'f' || 'A' <= chars[i] <= 'F') by {
        hex_characters_are_these(chars[i]);
    }
}

/// Each table is that of its name.
pub proof fn tables_are_those_of_their_names()
    ensures
        Table::LOWER.case() == Case::Lower,
        Table::UPPER.case() == Case::Upper,
{
}

/// Two digits are a number to the base of sixteen, whatever the case of each.
pub proof fn pairs_are_numbers(hi_case: Case, lo_case: Case, hi: int, lo: int)
    requires
        0 <= hi < 16,
        0 <= lo < 16,
    ensures
        byte_of(digit(hi_case, hi), digit(lo_case, lo)) == 16 * hi + lo,
        encode_byte(hi_case, (16 * hi + lo) as u8) == seq![digit(hi_case, hi), digit(hi_case, lo)],
        high_char(hi_case, (16 * hi + lo) as u8) == digit(hi_case, hi) as char,
        low_char(hi_case, (16 * hi + lo) as u8) == digit(hi_case, lo) as char,
{
}

/// Text is that of its bytes: nothing for none, two digits for one, and the text of the parts for
/// several.
pub proof fn text_is_that_of_its_bytes(case: Case, byte: u8, first: Seq<u8>, second: Seq<u8>)
    ensures
        encode(case, Seq::empty()) == Seq::<u8>::empty(),
        encode(case, seq![byte]) == seq![
            digit(case, byte as int / 16),
            digit(case, byte as int % 16),
        ],
        encode(case, first + second) == encode(case, first) + encode(case, second),
{
    crate::laws::encode_of_concat(case, first, second);
}

/// ASCII text has a character for each byte, of the same number.
pub proof fn ascii_characters_are_bytes(text: Seq<u8>, i: int)
    requires
        0 <= i < text.len(),
    ensures
        ascii_chars(text).len() == text.len(),
        ascii_chars(text)[i] as u32 == text[i],
{
}

/// Digits spell bytes pair by pair.
pub proof fn bytes_are_those_of_the_pairs(hi: u8, lo: u8, first: Seq<u8>, second: Seq<u8>)
    requires
        is_digit(hi),
        is_digit(lo),
        first.len() % 2 == 0,
    ensures
        bytes_of(Seq::empty()) == Seq::<u8>::empty(),
        bytes_of(seq![hi, lo]) == seq![
            (16 * digit_value(hi).unwrap() + digit_value(lo).unwrap()) as u8,
        ],
        bytes_of(first + second) == bytes_of(first) + bytes_of(second),
{
    let k = first.len() as int / 2;
    assert forall|i: int| k <= i < (first + second).len() / 2 implies bytes_of(first + second)[i]
        == bytes_of(second)[i - k] by {
        assert((first + second)[2 * i] == second[2 * (i - k)]);
        assert((first + second)[2 * i + 1] == second[2 * (i - k) + 1]);
    }
    assert(bytes_of(first + second) =~= bytes_of(first) + bytes_of(second));
}

/// Decoding nothing yields nothing; and where all that stands before a byte is hex digits, and that
/// byte is none, it is the first of its kind.
pub proof fn the_first_bad_is_found(digits: Seq<u8>, k: int, base: int)
    requires
        0 <= k <= digits.len(),
        forall|i: int| 0 <= i < k ==> digit_value(#[trigger] digits[i]) is Some,
        k < digits.len() ==> digit_value(digits[k]) is None,
    ensures
        decode(Seq::empty(), base) == Ok::<Seq<u8>, InvalidCharError>(Seq::empty()),
        first_bad(digits) == k,
{
    assert(bytes_of(Seq::empty()) =~= Seq::<u8>::empty());
    lemma_first_bad(digits);
    let b = first_bad(digits);
    if b < k {
        assert(digit_value(digits[b]) is Some);
    } else if k < b {
        assert(is_digit(digits[k]));
    }
}

/// A pair by itself: its byte, or its first byte that is no hex digit, as the character of that
/// number, at its place.
pub proof fn a_pair_by_itself(hi: u8, lo: u8, pos: int)
    requires
        0 <= pos,
        pos + 1 <= usize::MAX,
    ensures
        match decode_alone(hi, lo, pos) {
            Ok(byte) => {
                &&& digit_value(hi) is Some
                &&& digit_value(lo) is Some
                &&& byte == 16 * digit_value(hi).unwrap() + digit_value(lo).unwrap()
            },
            Err(e) => {
                &&& digit_value(hi) is None || digit_value(lo) is None
                &&& e.invalid matches InvalidChar::Utf8(c) && {
                    ||| digit_value(hi) is None && c as u32 == hi && e.pos == pos
                    ||| digit_value(hi) is Some && c as u32 == lo && e.pos == pos + 1
                }
            },
        },
{
}

/// A pair is torn where a hex digit is followed by a byte that only continues a character.
pub proof fn torn_pairs_are_these(digits: Seq<u8>)
    ensures
        last_is_torn(digits) <==> {
            let n = digits.len();
            n >= 2 && digit_value(digits[n - 2]) is Some && 0x80 <= digits[n - 1] <= 0xbf
        },
{
}

/// Pairs of digits, one after the other, are their digits in order.
pub proof fn flat_pairs_are_their_digits(pairs: Seq<[u8; 2]>, i: int)
    requires
        0 <= i < pairs.len(),
    ensures
        flat(pairs).len() == 2 * pairs.len(),
        flat(pairs)[2 * i] == pairs[i]@[0],
        flat(pairs)[2 * i + 1] == pairs[i]@[1],
{
}

/// Positions move on by as many digits as were read.
pub proof fn positions_count_digits<T: DigitPairs>(
    before: HexToBytesIter<T>,
    after: HexToBytesIter<T>,
)
    requires
        after.original_len() == before.original_len(),
    ensures
        after.digits_read() - before.digits_read() == before.digits().len() - after.digits().len(),
{
}

/// A byte stands for itself, and so does a reference to one.
pub proof fn bytes_stand_for_themselves(b: u8)
    ensures
        b.byte() == b,
        (&b).byte() == b,
{
}

/// The bytes of items are those of each of them, in order.
pub proof fn item_bytes_are_those_of_each<B: ByteRef>(items: Seq<B>, i: int)
    requires
        0 <= i < items.len(),
    ensures
        item_bytes(items).len() == items.len(),
        item_bytes(items)[i] == items[i].byte(),
{
}

/// The bytes of bytes, and of references to them, are the bytes; what is written of them is their
/// text.
pub proof fn runs_of_bytes_are_encoded(case: Case, owned: Seq<u8>, borrowed: Seq<&u8>)
    requires
        borrowed.len() == owned.len(),
        forall|i: int| 0 <= i < owned.len() ==> *#[trigger] borrowed[i] == owned[i],
    ensures
        item_bytes(owned) == owned,
        item_bytes(borrowed) == owned,
        encode(case, item_bytes(owned)) == encode(case, owned),
        encode(case, item_bytes(borrowed)) == encode(case, owned),
        chars_forward(case, item_bytes(owned)) == ascii_chars(encode(case, owned)),
        chars_forward(case, item_bytes(borrowed)) == ascii_chars(encode(case, owned)),
        owned.len() > 0 ==> {
            let text = ascii_chars(encode(case, owned));
            &&& high_char(case, owned[0].byte()) == text[0]
            &&& low_char(case, owned[0].byte()) == text[1]
            &&& high_char(case, borrowed[0].byte()) == text[0]
            &&& low_char(case, borrowed[0].byte()) == text[1]
            &&& high_char(case, owned.last().byte()) == text[text.len() - 2]
            &&& low_char(case, owned.last().byte()) == text[text.len() - 1]
            &&& high_char(case, borrowed.last().byte()) == text[text.len() - 2]
            &&& low_char(case, borrowed.last().byte()) == text[text.len() - 1]
        },
{
    assert(item_bytes(owned) =~= owned);
    assert(item_bytes(borrowed) =~= owned);
    chars_forward_are_text(case, owned);
    if owned.len() > 0 {
        let n = owned.len() as int;
        assert(encode(case, owned)[2 * n - 2] == encode_byte(case, owned[n - 1])[0]);
        assert(encode(case, owned)[2 * n - 1] == encode_byte(case, owned[n - 1])[1]);
        assert(*borrowed[0] == owned[0] && *borrowed[n - 1] == owned[n - 1]);
    }
}

/// What comes from the front and from the back, two characters at a time.
pub proof fn characters_come_two_at_a_time(case: Case, byte: u8, bytes: Seq<u8>)
    ensures
        chars_forward(case, Seq::empty()) == Seq::<char>::empty(),
        chars_backward(case, Seq::empty()) == Seq::<char>::empty(),
        chars_forward(case, seq![byte] + bytes) == seq![
            digit(case, byte as int / 16) as char,
            digit(case, byte as int % 16) as char,
        ] + chars_forward(case, bytes),
        chars_backward(case, bytes.push(byte)) == seq![
            digit(case, byte as int / 16) as char,
            digit(case, byte as int % 16) as char,
        ] + chars_backward(case, bytes),
{
    assert((seq![byte] + bytes).drop_first() =~= bytes);
    assert(bytes.push(byte).drop_last() =~= bytes);
}

/// The length is that of the text of as many bytes, and the bounds of a hint are those of the text
/// of as few and as many, with the character that may be pending; what cannot be counted is cut
/// off.
pub proof fn hints_count_characters(
    case: Case,
    fewest: Seq<u8>,
    most: Option<Seq<u8>>,
    pending: Option<char>,
)
    requires
        fewest.len() <= usize::MAX,
        most matches Some(bytes) ==> bytes.len() <= usize::MAX,
    ensures
        ({
            let min = fewest.len() as usize;
            let max = match most {
                Some(bytes) => Some(bytes.len() as usize),
                None => None,
            };
            let more = if pending is Some {
                1nat
            } else {
                0
            };
            let hint = hex_size_hint_spec(min, max, pending is Some);
            let least = encode(case, fewest).len() + more;
            &&& least <= usize::MAX ==> hint.0 == least
            &&& least > usize::MAX ==> hint.0 == usize::MAX
            &&& most is None ==> hint.1 is None
            &&& most matches Some(bytes) ==> {
                let greatest = encode(case, bytes).len() + more;
                &&& greatest <= usize::MAX ==> hint.1 == Some(greatest as usize)
                &&& greatest > usize::MAX ==> hint.1 is None
            }
            &&& encode(case, fewest).len() <= usize::MAX ==> hex_len_spec(min) == encode(
                case,
                fewest,
            ).len()
            &&& encode(case, fewest).len() > usize::MAX ==> hex_len_spec(min) == usize::MAX
        }),
{
}

/// The room of an encoder is the greatest number of bytes whose text still fits.
pub proof fn room_is_what_fits<const CAP: usize>(
    encoder: BufEncoder<CAP>,
    case: Case,
    bytes: Seq<u8>,
)
    requires
        encoder.wf(),
    ensures
        encoder@.len() <= CAP,
        bytes.len() <= encoder.space() <==> encoder@.len() + encode(case, bytes).len() <= CAP,
{
    encoder.lemma_wf();
}

/// A filler that is repeated is a string of that many characters.
pub proof fn fillers_are_characters(c: char, n: nat)
    ensures
        repeated(encode_scalar(c as u32), n) == encode_utf8(Seq::new(n, |i: int| c)),
        repeated(encode_scalar(c as u32), n).len() == n * encode_scalar(c as u32).len(),
    decreases n,
{
    let one = encode_scalar(c as u32);
    let chars = Seq::new(n, |i: int| c);
    if n == 0 {
        assert(chars =~= Seq::<char>::empty());
        assert(0 * one.len() == 0) by (nonlinear_arith);
    } else {
        let m = (n - 1) as nat;
        let fewer = Seq::new(m, |i: int| c);
        fillers_are_characters(c, m);
        assert(chars =~= fewer + seq![c]);
        lemma_encode_utf8_concat(fewer, seq![c]);
        assert(seq![c].drop_first() =~= Seq::<char>::empty());
        assert(encode_utf8(seq![c]) =~= one) by {
            reveal_with_fuel(encode_utf8, 2);
        }
        let len = one.len();
        assert(n * len == m * len + len) by (nonlinear_arith)
            requires
                n == m + 1,
        ;
    }
}

} // verus!
