//! What holds of the library as a whole.
use crate::buf_encoder::BufEncoder;
use crate::case::{digit, encode, encode_byte, lemma_encode_ascii, Case};
use crate::decode::{
    after_first, after_last, bad_in_last, decode, decode_alone, decode_first, decode_last, error_at,
    first_bad, is_char_between, last_is_torn, lemma_char_ending_not_continuation,
    lemma_char_ending_unique, lemma_first_bad, lemma_first_bad_unique, lemma_single_byte,
    pairs_read, pairs_read_back,
};
use crate::digit::{all_digits, byte_of, bytes_of, digit_value, is_digit};
use crate::error::{InvalidChar, InvalidCharError};
use crate::iter::bytes_to_hex::{hex_len_spec, hex_size_hint_spec, high_char, low_char};
use crate::utf8::{ascii_chars, is_ascii_text, lemma_ascii};
use vstd::prelude::*;
use vstd::utf8::*;

pub mod meaning;
pub mod reading;

verus! {

/// Whether `digits` are hex digits of the given case alone.
pub open spec fn all_of_case(case: Case, digits: Seq<u8>) -> bool {
    forall|i: int|
        0 <= i < digits.len() ==> is_digit(#[trigger] digits[i]) && digits[i] == digit(
            case,
            digit_value(digits[i]).unwrap() as int,
        )
}

/// Encoding loses nothing: the hex text of bytes, in either case, decodes to those bytes.
pub proof fn decode_of_encode(case: Case, bytes: Seq<u8>, base: int)
    ensures
        all_of_case(case, encode(case, bytes)),
        decode(encode(case, bytes), base) == Ok::<_, InvalidCharError>(bytes),
{
    let text = encode(case, bytes);
    assert forall|i: int| 0 <= i < text.len() implies is_digit(#[trigger] text[i]) && text[i]
        == digit(case, digit_value(text[i]).unwrap() as int) by {
        let byte = bytes[i / 2] as int;
        lemma_digit_value(case, byte / 16);
        lemma_digit_value(case, byte % 16);
    }
    assert forall|i: int| 0 <= i < bytes.len() implies bytes_of(text)[i] == bytes[i] by {
        let byte = bytes[i] as int;
        assert(text[2 * i] == digit(case, byte / 16));
        assert(text[2 * i + 1] == digit(case, byte % 16));
        lemma_digit_value(case, byte / 16);
        lemma_digit_value(case, byte % 16);
    }
    assert(bytes_of(text) =~= bytes);
}

/// A digit has the value that it stands for.
proof fn lemma_digit_value(case: Case, n: int)
    requires
        0 <= n < 16,
    ensures
        digit_value(digit(case, n)) == Some(n as u8),
{
}

/// Encoding the bytes that digits spell gives the digits of the same values, in the case that is
/// asked for.
pub proof fn encode_of_decode(case: Case, digits: Seq<u8>)
    requires
        digits.len() % 2 == 0,
        all_digits(digits),
    ensures
        encode(case, bytes_of(digits)) == digits.map_values(
            |d: u8| digit(case, digit_value(d).unwrap() as int),
        ),
        all_of_case(case, digits) ==> encode(case, bytes_of(digits)) == digits,
{
    let text = encode(case, bytes_of(digits));
    assert forall|i: int| 0 <= i < digits.len() implies text[i] == digit(
        case,
        digit_value(digits[i]).unwrap() as int,
    ) by {
        let k = i / 2;
        assert(is_digit(digits[2 * k]) && is_digit(digits[2 * k + 1]));
        assert(text[i] == encode_byte(case, bytes_of(digits)[k])[i % 2]);
    }
    assert(text =~= digits.map_values(|d: u8| digit(case, digit_value(d).unwrap() as int)));
    if all_of_case(case, digits) {
        assert(text =~= digits);
    }
}

/// Bytes may be encoded in parts.
pub proof fn encode_of_concat(case: Case, first: Seq<u8>, second: Seq<u8>)
    ensures
        encode(case, first + second) == encode(case, first) + encode(case, second),
{
    assert forall|i: int| 2 * first.len() <= i < 2 * (first.len() + second.len()) implies encode(
        case,
        first + second,
    )[i] == encode(case, second)[i - 2 * first.len()] by {
        assert((i - 2 * first.len()) / 2 == i / 2 - first.len());
        assert((i - 2 * first.len()) % 2 == i % 2);
    }
    assert(encode(case, first + second) =~= encode(case, first) + encode(case, second));
}

/// What an encoder writes of bytes that do not fit, and of the remainder after it is cleared, is
/// together the text of all of them.
pub proof fn encode_in_chunks(case: Case, bytes: Seq<u8>, n: int)
    requires
        0 <= n <= bytes.len(),
    ensures
        encode(case, bytes) == encode(case, bytes.take(n)) + encode(case, bytes.skip(n)),
{
    assert(bytes =~= bytes.take(n) + bytes.skip(n));
    encode_of_concat(case, bytes.take(n), bytes.skip(n));
}

/// Hex text is ASCII, two characters for each byte, and those are its characters as a string.
pub proof fn encode_is_text(case: Case, bytes: Seq<u8>)
    ensures
        encode(case, bytes).len() == 2 * bytes.len(),
        is_ascii_text(encode(case, bytes)),
        valid_utf8(encode(case, bytes)),
        decode_utf8(encode(case, bytes)) == ascii_chars(encode(case, bytes)),
{
    lemma_encode_ascii(case, bytes);
    lemma_ascii(encode(case, bytes));
}

/// Each byte that is put into an encoder takes the room of one.
pub proof fn space_shrinks<const CAP: usize>(
    before: BufEncoder<CAP>,
    after: BufEncoder<CAP>,
    bytes: Seq<u8>,
)
    requires
        after@ == before@ + encode(before.case(), bytes),
    ensures
        after.space() == before.space() - bytes.len(),
{
}

/// Draining an iterator is to call `next` until it yields an error or nothing.
pub proof fn decode_is_repeated_next(digits: Seq<u8>, base: int)
    requires
        digits.len() >= 2,
        digits.len() % 2 == 0,
    ensures
        decode(digits, base) == (match decode_first(digits, base) {
            Ok(byte) => match decode(after_first(digits), base + 2) {
                Ok(bytes) => Ok(seq![byte] + bytes),
                Err(e) => Err(e),
            },
            Err(e) => Err(e),
        }),
{
    lemma_first_bad(digits);
    if !is_digit(digits[0]) {
        lemma_first_bad_unique(digits, 0);
    } else if !is_digit(digits[1]) {
        lemma_first_bad_unique(digits, 1);
    } else {
        let rest = after_first(digits);
        assert(rest =~= digits.skip(2));
        lemma_first_bad(rest);
        if all_digits(rest) {
            assert forall|i: int| 0 <= i < digits.len() implies is_digit(#[trigger] digits[i]) by {
                if i >= 2 {
                    assert(digits[i] == rest[i - 2]);
                }
            }
            assert(bytes_of(digits) =~= seq![byte_of(digits[0], digits[1])] + bytes_of(rest));
        } else {
            let k = first_bad(rest);
            assert(rest[k] == digits[k + 2]);
            assert forall|i: int| 0 <= i < k + 2 implies is_digit(
                #[trigger] digits.take(k + 2)[i],
            ) by {
                if i >= 2 {
                    assert(digits[i] == rest[i - 2]);
                }
            }
            lemma_first_bad_unique(digits, k + 2);
            assert(rest.skip(k) =~= digits.skip(k + 2));
        }
    }
}

/// Each call of `next` gets on, and leaves pairs.
pub proof fn next_gets_on(digits: Seq<u8>)
    requires
        digits.len() >= 2,
        digits.len() % 2 == 0,
    ensures
        after_first(digits).len() < digits.len(),
        after_first(digits).len() % 2 == 0,
        exists|read: int| 0 < read <= digits.len() && after_first(digits) == digits.skip(read),
{
    let read = 2 * pairs_read(digits);
    assert(0 < read <= digits.len() && after_first(digits) == digits.skip(read));
}

/// Each call of `next_back` gets on, and leaves pairs.
pub proof fn next_back_gets_on(digits: Seq<u8>)
    requires
        digits.len() >= 2,
        digits.len() % 2 == 0,
    ensures
        after_last(digits).len() < digits.len(),
        after_last(digits).len() % 2 == 0,
        exists|left: int| 0 <= left < digits.len() && after_last(digits) == digits.take(left),
{
    let left = digits.len() - 2 * pairs_read_back(digits);
    assert(0 <= left < digits.len() && after_last(digits) == digits.take(left));
}

/// Positions are those in the whole input, as long as it has been read from the front alone.
pub proof fn positions_are_absolute(digits: Seq<u8>, read: int, i: int)
    requires
        0 <= read,
        0 <= i,
        read + i < digits.len(),
    ensures
        error_at(digits.skip(read), i, read) == error_at(digits, read + i, 0),
{
    assert(digits.skip(read).skip(i) =~= digits.skip(read + i));
}

/// What calls of `next_back` yield, one after the other, where all are bytes.
pub open spec fn decode_back(digits: Seq<u8>) -> Seq<u8>
    decreases digits.len(),
{
    if digits.len() < 2 {
        Seq::empty()
    } else {
        seq![decode_last(digits)->Ok_0] + decode_back(digits.take(digits.len() - 2))
    }
}

/// From the back come the same bytes as from the front, in the opposite order.
pub proof fn next_back_reverses(digits: Seq<u8>)
    requires
        digits.len() % 2 == 0,
        all_digits(digits),
    ensures
        digits.len() >= 2 ==> {
            &&& decode_last(digits) is Ok
            &&& after_last(digits) == digits.take(digits.len() - 2)
        },
        decode_back(digits) == bytes_of(digits).reverse(),
    decreases digits.len(),
{
    if digits.len() >= 2 {
        let rest = digits.take(digits.len() - 2);
        assert(is_digit(digits[digits.len() - 2]) && is_digit(digits[digits.len() - 1]));
        next_back_reverses(rest);
        assert(bytes_of(digits).reverse() =~= seq![decode_last(digits)->Ok_0] + bytes_of(
            rest,
        ).reverse());
    } else {
        assert(bytes_of(digits).reverse() =~= Seq::empty());
    }
}

/// The characters that a `BytesToHexIter` yields from the front: two for each byte.
pub open spec fn chars_forward(case: Case, bytes: Seq<u8>) -> Seq<char>
    decreases bytes.len(),
{
    if bytes.len() == 0 {
        Seq::empty()
    } else {
        seq![high_char(case, bytes[0]), low_char(case, bytes[0])] + chars_forward(
            case,
            bytes.drop_first(),
        )
    }
}

/// The characters that a `BytesToHexIter` yields from the back: two for each byte.
pub open spec fn chars_backward(case: Case, bytes: Seq<u8>) -> Seq<char>
    decreases bytes.len(),
{
    if bytes.len() == 0 {
        Seq::empty()
    } else {
        seq![high_char(case, bytes.last()), low_char(case, bytes.last())] + chars_backward(
            case,
            bytes.drop_last(),
        )
    }
}

/// From the front, a `BytesToHexIter` yields the text that an encoder writes.
pub proof fn chars_forward_are_text(case: Case, bytes: Seq<u8>)
    ensures
        chars_forward(case, bytes) == ascii_chars(encode(case, bytes)),
    decreases bytes.len(),
{
    if bytes.len() > 0 {
        let rest = bytes.drop_first();
        chars_forward_are_text(case, rest);
        assert(bytes =~= seq![bytes[0]] + rest);
        encode_of_concat(case, seq![bytes[0]], rest);
        assert(encode(case, seq![bytes[0]]) =~= encode_byte(case, bytes[0]));
        assert(ascii_chars(encode(case, bytes)) =~= ascii_chars(encode_byte(case, bytes[0]))
            + ascii_chars(encode(case, rest)));
    }
    assert(chars_forward(case, bytes) =~= ascii_chars(encode(case, bytes)));
}

/// From the back, a `BytesToHexIter` yields the text of the bytes in the opposite order: the two
/// digits of a byte stay as they are.
#[verifier::rlimit(40)]
pub proof fn chars_backward_are_text(case: Case, bytes: Seq<u8>)
    ensures
        chars_backward(case, bytes) == ascii_chars(encode(case, bytes.reverse())),
    decreases bytes.len(),
{
    if bytes.len() > 0 {
        let rest = bytes.drop_last();
        chars_backward_are_text(case, rest);
        assert(bytes.reverse() =~= seq![bytes.last()] + rest.reverse());
        encode_of_concat(case, seq![bytes.last()], rest.reverse());
        assert(encode(case, seq![bytes.last()]) =~= encode_byte(case, bytes.last()));
        assert(ascii_chars(encode(case, bytes.reverse())) =~= ascii_chars(
            encode_byte(case, bytes.last()),
        ) + ascii_chars(encode(case, rest.reverse())));
    }
    assert(chars_backward(case, bytes) =~= ascii_chars(encode(case, bytes.reverse())));
}

/// Encoding undoes decoding: the bytes of a string of hex digits of one case give, in that case, its
/// characters again.
pub proof fn roundtrip_of_string(case: Case, chars: Seq<char>)
    requires
        encode_utf8(chars).len() % 2 == 0,
        all_of_case(case, encode_utf8(chars)),
    ensures
        match decode(encode_utf8(chars), 0) {
            Ok(bytes) => chars_forward(case, bytes) == chars,
            Err(_) => false,
        },
{
    let digits = encode_utf8(chars);
    encode_of_decode(case, digits);
    chars_forward_are_text(case, bytes_of(digits));
    lemma_ascii(digits);
    encode_utf8_decode_utf8(chars);
}

/// Decoding from the back and then encoding from the back gives the text again.
pub proof fn roundtrip_from_the_back(case: Case, digits: Seq<u8>)
    requires
        digits.len() % 2 == 0,
        all_of_case(case, digits),
    ensures
        chars_backward(case, decode_back(digits)) == ascii_chars(digits),
{
    next_back_reverses(digits);
    chars_backward_are_text(case, decode_back(digits));
    assert(bytes_of(digits).reverse().reverse() =~= bytes_of(digits));
    encode_of_decode(case, digits);
}

/// The hint for a known number of bytes is the number of characters to come, and their length is
/// that number without the one that may be pending.
pub proof fn size_hint_is_exact(case: Case, bytes: Seq<u8>, pending: bool)
    requires
        2 * bytes.len() + 1 <= usize::MAX,
    ensures
        ({
            let n = bytes.len() as usize;
            let chars = encode(case, bytes).len() + (if pending {
                1nat
            } else {
                0
            });
            &&& hex_size_hint_spec(n, Some(n), pending) == (chars as usize, Some(chars as usize))
            &&& hex_len_spec(n) == encode(case, bytes).len()
        }),
{
}

/// Where all is ASCII, `nth` yields what `next` does behind the pairs that it drops.
pub proof fn nth_agrees_with_next(digits: Seq<u8>, base: int)
    requires
        digits.len() >= 2,
        is_ascii_text(digits),
    ensures
        decode_alone(digits[0], digits[1], base) == decode_first(digits, base),
        after_first(digits) == digits.skip(2),
{
    assert(digits.skip(0) =~= digits);
    lemma_single_byte(digits.skip(0));
    lemma_single_byte(digits.skip(1));
}

/// Where all is ASCII, and no more than one character of the pair is wrong, `nth_back` yields what
/// `next_back` does before the pairs that it drops.
pub proof fn nth_back_agrees_with_next_back(digits: Seq<u8>)
    requires
        digits.len() >= 2,
        is_ascii_text(digits),
        is_digit(digits[digits.len() - 2]) || is_digit(digits[digits.len() - 1]),
    ensures
        ({
            let start = digits.len() - 2;
            &&& decode_alone(digits[start], digits[start + 1], start) == decode_last(digits)
            &&& after_last(digits) == digits.take(start)
        }),
{
    lemma_char_ending_not_continuation(digits, bad_in_last(digits));
}

/// Whether the character `c` is a hex digit.
pub open spec fn is_hex_char(c: char) -> bool {
    '\0' <= c <= '\u{7f}' && is_digit(c as u8)
}

/// Whether all characters are hex digits.
pub open spec fn all_hex_chars(chars: Seq<char>) -> bool {
    forall|i: int| 0 <= i < chars.len() ==> is_hex_char(#[trigger] chars[i])
}

/// The bytes of a string are those of its parts.
pub proof fn lemma_encode_utf8_concat(a: Seq<char>, b: Seq<char>)
    ensures
        encode_utf8(a + b) == encode_utf8(a) + encode_utf8(b),
    decreases a.len(),
{
    if a.len() == 0 {
        assert(a + b =~= b);
        assert(encode_utf8(a) + encode_utf8(b) =~= encode_utf8(b));
    } else {
        lemma_encode_utf8_concat(a.drop_first(), b);
        assert((a + b).drop_first() =~= a.drop_first() + b);
        assert(encode_utf8(a + b) =~= encode_utf8(a) + encode_utf8(b));
    }
}

/// The bytes of hex digits are those digits.
pub proof fn lemma_encode_utf8_hex(chars: Seq<char>)
    requires
        all_hex_chars(chars),
    ensures
        encode_utf8(chars).len() == chars.len(),
        all_digits(encode_utf8(chars)),
{
    assert(is_ascii_chars(chars)) by {
        assert forall|i: int| 0 <= i < chars.len() implies '\0' <= #[trigger] chars[i]
            <= '\u{7f}' by {
            assert(is_hex_char(chars[i]));
        }
    }
    is_ascii_chars_encode_utf8(chars);
    assert forall|i: int| 0 <= i < chars.len() implies is_digit(
        #[trigger] encode_utf8(chars)[i],
    ) by {
        assert(is_hex_char(chars[i]));
        assert(chars[i] as u8 == encode_utf8(chars)[i]);
    }
}

/// The bytes of a character that is no hex digit: neither the first nor the last of them is one,
/// and together they are that character.
pub proof fn lemma_encode_utf8_one(c: char)
    ensures
        ({
            let one = encode_utf8(seq![c]);
            &&& 1 <= one.len() <= 4
            &&& valid_first_scalar(one)
            &&& length_of_first_scalar(one) == one.len()
            &&& decode_first_scalar(one) as char == c
            &&& !is_hex_char(c) ==> !is_digit(one[0]) && !is_digit(one.last())
        }),
{
    let one = encode_utf8(seq![c]);
    encode_utf8_first_scalar(seq![c]);
    assert(seq![c].drop_first() =~= Seq::<char>::empty());
    assert(one =~= encode_scalar(c as u32)) by {
        reveal_with_fuel(encode_utf8, 2);
    }
    char_is_scalar(c);
    char_u32_cast(c, decode_first_scalar(one));
    if c <= '\u{7f}' {
        let v = c as u32;
        assert(v <= 0x7f ==> (v & 0x7f) as u8 == v as u8) by (bit_vector);
    }
}

/// Decoding a string finds its first character that is no hex digit, whatever that is, at its
/// place, and fails for no other reason. What it names is always a character of the string.
pub proof fn decode_of_string(chars: Seq<char>)
    requires
        encode_utf8(chars).len() <= usize::MAX,
    ensures
        match decode(encode_utf8(chars), 0) {
            Ok(bytes) => all_hex_chars(chars) && encode_utf8(chars).len() == chars.len(),
            Err(e) => exists|k: int|
                {
                    &&& 0 <= k < chars.len()
                    &&& !is_hex_char(#[trigger] chars[k])
                    &&& all_hex_chars(chars.take(k))
                    &&& e == InvalidCharError {
                        invalid: InvalidChar::Utf8(chars[k]),
                        pos: k as usize,
                    }
                },
        },
{
    let d = encode_utf8(chars);
    lemma_first_bad(d);
    if all_hex_chars(chars) {
        lemma_encode_utf8_hex(chars);
    } else {
        let k = first_non_hex(chars);
        lemma_first_non_hex(chars);
        let pre = encode_utf8(chars.take(k));
        let one = encode_utf8(seq![chars[k]]);
        let post = encode_utf8(chars.skip(k + 1));
        assert(chars =~= chars.take(k) + (seq![chars[k]] + chars.skip(k + 1)));
        lemma_encode_utf8_concat(chars.take(k), seq![chars[k]] + chars.skip(k + 1));
        lemma_encode_utf8_concat(seq![chars[k]], chars.skip(k + 1));
        lemma_encode_utf8_hex(chars.take(k));
        lemma_encode_utf8_one(chars[k]);
        assert(d == pre + (one + post));
        assert(d[k] == one[0]);
        assert(d.take(k) =~= pre);
        lemma_first_bad_unique(d, k);
        assert(d.skip(k) =~= one + post);
        lemma_first_scalar_of_prefix(one, post);
    }
}

/// The index of the first character that is no hex digit.
spec fn first_non_hex(chars: Seq<char>) -> int
    decreases chars.len(),
{
    if chars.len() == 0 || !is_hex_char(chars[0]) {
        0
    } else {
        1 + first_non_hex(chars.drop_first())
    }
}

proof fn lemma_first_non_hex(chars: Seq<char>)
    ensures
        0 <= first_non_hex(chars) <= chars.len(),
        all_hex_chars(chars.take(first_non_hex(chars))),
        first_non_hex(chars) < chars.len() ==> !is_hex_char(chars[first_non_hex(chars)]),
        first_non_hex(chars) == chars.len() ==> all_hex_chars(chars),
    decreases chars.len(),
{
    if chars.len() > 0 && is_hex_char(chars[0]) {
        let rest = chars.drop_first();
        lemma_first_non_hex(rest);
        let k = first_non_hex(chars);
        assert forall|i: int| 0 <= i < k implies is_hex_char(#[trigger] chars.take(k)[i]) by {
            if i > 0 {
                assert(rest.take(k - 1)[i - 1] == chars[i]);
            }
        }
        assert(k == chars.len() ==> chars.take(k) =~= chars);
    }
}

proof fn lemma_first_scalar_of_prefix(one: Seq<u8>, post: Seq<u8>)
    requires
        valid_first_scalar(one),
    ensures
        valid_first_scalar(one + post),
        decode_first_scalar(one + post) == decode_first_scalar(one),
{
}

/// The first error from the back of a string is its last character that is no hex digit, at the
/// place of its last byte. `len` is how much is left when only hex digits have been read.
pub proof fn decode_last_of_string(chars: Seq<char>, len: int)
    requires
        encode_utf8(chars).len() <= usize::MAX,
        2 <= len <= encode_utf8(chars).len(),
        all_digits(encode_utf8(chars).skip(len)),
        !(is_digit(encode_utf8(chars)[len - 2]) && is_digit(encode_utf8(chars)[len - 1])),
    ensures
        exists|k: int|
            {
                &&& 0 <= k < chars.len()
                &&& !is_hex_char(#[trigger] chars[k])
                &&& all_hex_chars(chars.skip(k + 1))
                &&& decode_last(encode_utf8(chars).take(len)) == Err::<u8, _>(
                    InvalidCharError {
                        invalid: InvalidChar::Utf8(chars[k]),
                        pos: (encode_utf8(chars.take(k + 1)).len() - 1) as usize,
                    },
                )
            },
{
    let d = encode_utf8(chars);
    let left = d.take(len);
    let j = bad_in_last(left);
    assert(!is_digit(d[j]));
    assert forall|i: int| j < i < d.len() implies is_digit(#[trigger] d[i]) by {
        if i >= len {
            assert(d.skip(len)[i - len] == d[i]);
        }
    }
    let k = last_non_hex(chars);
    lemma_last_non_hex(chars);
    if k < 0 {
        assert(chars.skip(k + 1) =~= chars);
        lemma_encode_utf8_hex(chars);
    }
    let pre = encode_utf8(chars.take(k));
    let one = encode_utf8(seq![chars[k]]);
    let post = encode_utf8(chars.skip(k + 1));
    assert(chars.take(k + 1) =~= chars.take(k) + seq![chars[k]]);
    assert(chars =~= chars.take(k + 1) + chars.skip(k + 1));
    lemma_encode_utf8_concat(chars.take(k + 1), chars.skip(k + 1));
    lemma_encode_utf8_concat(chars.take(k), seq![chars[k]]);
    lemma_encode_utf8_hex(chars.skip(k + 1));
    lemma_encode_utf8_one(chars[k]);
    assert(d == (pre + one) + post);
    let e = pre.len() + one.len() - 1;
    assert(d[e] == one.last());
    if j > e {
        assert(d[j] == post[j - e - 1]);
    }
    assert(j == e);
    assert(left.subrange(pre.len() as int, j + 1) =~= one);
    assert(is_char_between(left, pre.len() as int, j));
    lemma_char_ending_unique(left, pre.len() as int, j);
}

/// The index of the last character that is no hex digit.
spec fn last_non_hex(chars: Seq<char>) -> int
    decreases chars.len(),
{
    if chars.len() == 0 || !is_hex_char(chars.last()) {
        chars.len() - 1
    } else {
        last_non_hex(chars.drop_last())
    }
}

proof fn lemma_last_non_hex(chars: Seq<char>)
    ensures
        -1 <= last_non_hex(chars) < chars.len(),
        last_non_hex(chars) >= 0 ==> !is_hex_char(chars[last_non_hex(chars)]),
        all_hex_chars(chars.skip(last_non_hex(chars) + 1)),
    decreases chars.len(),
{
    if chars.len() > 0 && is_hex_char(chars.last()) {
        let rest = chars.drop_last();
        lemma_last_non_hex(rest);
        let k = last_non_hex(chars);
        assert forall|i: int| 0 <= i < chars.len() - k - 1 implies is_hex_char(
            #[trigger] chars.skip(k + 1)[i],
        ) by {
            if i < chars.len() - k - 2 {
                assert(rest.skip(k + 1)[i] == chars[k + 1 + i]);
            }
        }
    }
}

/// No part of a string ends with a torn pair: whatever of it is left, it can be decoded from the
/// back.
pub proof fn strings_are_not_torn(chars: Seq<char>, start: int, end: int)
    requires
        0 <= start <= end <= encode_utf8(chars).len(),
    ensures
        !last_is_torn(encode_utf8(chars).subrange(start, end)),
{
    let d = encode_utf8(chars);
    encode_utf8_valid_utf8(chars);
    if end - start >= 2 && is_digit(d[end - 2]) {
        lemma_nothing_continues_ascii(d, end - 2);
    }
}

proof fn lemma_nothing_continues_ascii(bytes: Seq<u8>, i: int)
    requires
        valid_utf8(bytes),
        0 <= i,
        i + 1 < bytes.len(),
        bytes[i] <= 0x7f,
    ensures
        !is_continuation_byte(bytes[i + 1]),
    decreases bytes.len(),
{
    let n = length_of_first_scalar(bytes);
    let rest = pop_first_scalar(bytes);
    if i < n {
        assert(n == 1);
        assert(rest[0] == bytes[1]);
        reveal_with_fuel(valid_utf8, 2);
    } else {
        lemma_nothing_continues_ascii(rest, i - n);
        assert(rest[i - n + 1] == bytes[i + 1]);
    }
}

} // verus!
