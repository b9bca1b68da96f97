//! What decoding yields: which byte, or which error, and how far it reads.
//!
//! Here `digits` is the input that is still to be read, an even number of bytes. Decoding takes it
//! in pairs, from the front or from the back.
use crate::digit::{all_digits, byte_of, bytes_of, is_digit};
use crate::error::{InvalidChar, InvalidCharError};
use vstd::prelude::*;
use vstd::utf8::*;

verus! {

/// What stands at the index `i` of `digits`: the character that begins there, or else the byte.
pub open spec fn char_starting_at(digits: Seq<u8>, i: int) -> InvalidChar {
    let rest = digits.skip(i);
    if valid_first_scalar(rest) {
        InvalidChar::Utf8(decode_first_scalar(rest) as char)
    } else {
        InvalidChar::Other(digits[i])
    }
}

/// Whether the bytes of `digits` from `k` to `j`, both included, are one well-formed character.
pub open spec fn is_char_between(digits: Seq<u8>, k: int, j: int) -> bool {
    &&& 0 <= k <= j < digits.len()
    &&& valid_first_scalar(digits.subrange(k, j + 1))
    &&& length_of_first_scalar(digits.subrange(k, j + 1)) == j + 1 - k
}

/// What stands at the index `j` of `digits`: the character that ends there, or else the byte.
pub open spec fn char_ending_at(digits: Seq<u8>, j: int) -> InvalidChar {
    if exists|k: int| is_char_between(digits, k, j) {
        let k = choose|k: int| is_char_between(digits, k, j);
        InvalidChar::Utf8(decode_first_scalar(digits.subrange(k, j + 1)) as char)
    } else {
        InvalidChar::Other(digits[j])
    }
}

/// How many bytes a character takes that begins with `lead`; one, if none does.
pub open spec fn char_width(lead: u8) -> int {
    if 0xc2 <= lead <= 0xdf {
        2
    } else if 0xe0 <= lead <= 0xef {
        3
    } else if 0xf0 <= lead <= 0xf4 {
        4
    } else {
        1
    }
}

/// The index of the first byte of `digits` that is no hex digit; their number, if all are.
pub open spec fn first_bad(digits: Seq<u8>) -> int
    decreases digits.len(),
{
    if digits.len() == 0 || !is_digit(digits[0]) {
        0
    } else {
        1 + first_bad(digits.drop_first())
    }
}

/// The error for the byte at the index `i` of `digits`, which begin at the position `base`.
pub open spec fn error_at(digits: Seq<u8>, i: int, base: int) -> InvalidCharError {
    InvalidCharError { invalid: char_starting_at(digits, i), pos: (base + i) as usize }
}

/// The outcome of decoding the first pair of `digits`, which begin at the position `base`.
pub open spec fn decode_first(digits: Seq<u8>, base: int) -> Result<u8, InvalidCharError>
    recommends
        digits.len() >= 2,
{
    if !is_digit(digits[0]) {
        Err(error_at(digits, 0, base))
    } else if !is_digit(digits[1]) {
        Err(error_at(digits, 1, base))
    } else {
        Ok(byte_of(digits[0], digits[1]))
    }
}

/// How many pairs of `digits` are read to decode the first: more than one where it holds the
/// beginning of a longer character, which is then read to its end.
pub open spec fn pairs_read(digits: Seq<u8>) -> int
    recommends
        digits.len() >= 2,
{
    let needed = if !is_digit(digits[0]) {
        (char_width(digits[0]) + 1) / 2
    } else if !is_digit(digits[1]) {
        (char_width(digits[1]) + 2) / 2
    } else {
        1
    };
    if needed <= digits.len() / 2 {
        needed
    } else {
        digits.len() as int / 2
    }
}

/// What is left of `digits` when the first pair is decoded.
pub open spec fn after_first(digits: Seq<u8>) -> Seq<u8>
    recommends
        digits.len() >= 2,
{
    digits.skip(2 * pairs_read(digits))
}

/// The outcome of decoding all of `digits`, which begin at the position `base`, up to the first
/// error.
pub open spec fn decode(digits: Seq<u8>, base: int) -> Result<Seq<u8>, InvalidCharError> {
    if all_digits(digits) {
        Ok(bytes_of(digits))
    } else {
        Err(error_at(digits, first_bad(digits), base))
    }
}

/// The outcome of decoding the pair of `hi` and `lo` by itself, at the position `pos`: a byte that
/// is no hex digit is taken for the character of that number.
pub open spec fn decode_alone(hi: u8, lo: u8, pos: int) -> Result<u8, InvalidCharError> {
    if !is_digit(hi) {
        Err(InvalidCharError { invalid: InvalidChar::Utf8(hi as char), pos: pos as usize })
    } else if !is_digit(lo) {
        Err(InvalidCharError { invalid: InvalidChar::Utf8(lo as char), pos: (pos + 1) as usize })
    } else {
        Ok(byte_of(hi, lo))
    }
}

/// The index of the last byte of `digits` that is no hex digit, where the last pair holds one.
pub open spec fn bad_in_last(digits: Seq<u8>) -> int
    recommends
        digits.len() >= 2,
{
    if is_digit(digits.last()) {
        digits.len() - 2
    } else {
        digits.len() - 1
    }
}

/// The outcome of decoding the last pair of `digits`.
pub open spec fn decode_last(digits: Seq<u8>) -> Result<u8, InvalidCharError>
    recommends
        digits.len() >= 2,
{
    let n = digits.len();
    if is_digit(digits[n - 2]) && is_digit(digits[n - 1]) {
        Ok(byte_of(digits[n - 2], digits[n - 1]))
    } else {
        let j = bad_in_last(digits);
        Err(InvalidCharError { invalid: char_ending_at(digits, j), pos: j as usize })
    }
}

/// How many pairs of `digits` are read to decode the last: more than one where it holds the end of
/// a longer character, which is then read to its beginning. No character reaches beyond three.
pub open spec fn pairs_read_back(digits: Seq<u8>) -> int
    recommends
        digits.len() >= 2,
{
    let n = digits.len();
    if is_digit(digits[n - 2]) && is_digit(digits[n - 1]) {
        1
    } else if n < 4 || !is_continuation_byte(digits[bad_in_last(digits)]) || !is_continuation_byte(
        digits[n - 2],
    ) {
        1
    } else if n < 6 || !is_continuation_byte(digits[n - 3]) || !is_continuation_byte(
        digits[n - 4],
    ) {
        2
    } else {
        3
    }
}

/// What is left of `digits` when the last pair is decoded.
pub open spec fn after_last(digits: Seq<u8>) -> Seq<u8>
    recommends
        digits.len() >= 2,
{
    digits.take(digits.len() - 2 * pairs_read_back(digits))
}

/// Whether the pair of `hi` and `lo` is torn: a hex digit, and then a byte that only continues a
/// character, though a hex digit begins none.
pub open spec fn is_torn(hi: u8, lo: u8) -> bool {
    is_digit(hi) && is_continuation_byte(lo)
}

/// Whether the last pair of `digits` is torn. No part of a string is like that.
pub open spec fn last_is_torn(digits: Seq<u8>) -> bool {
    digits.len() >= 2 && is_torn(digits[digits.len() - 2], digits[digits.len() - 1])
}

/// Characters of one byte, and bytes that begin none.
pub proof fn lemma_single_byte(rest: Seq<u8>)
    requires
        rest.len() > 0,
        char_width(rest[0]) == 1,
    ensures
        rest[0] <= 0x7f ==> valid_first_scalar(rest) && decode_first_scalar(rest) == rest[0],
        rest[0] > 0x7f ==> !valid_first_scalar(rest),
{
    let b = rest[0];
    assert(b <= 0x7f ==> (b & 0x7f) as u32 == b) by (bit_vector);
    if rest.len() >= 2 && 0xc0 <= b <= 0xc1 {
        let b2 = rest[1];
        assert(0xc0 <= b <= 0xc1 ==> ((b & 0x1f) as u32) << 6 | ((b2 & 0x3f) as u32) < 0x80)
            by (bit_vector);
    }
    if rest.len() >= 4 && 0xf5 <= b <= 0xf7 {
        let b2 = rest[1];
        let b3 = rest[2];
        let b4 = rest[3];
        assert(0xf5 <= b <= 0xf7 ==> ((b & 0x07) as u32) << 18 | ((b2 & 0x3f) as u32) << 12 | ((b3
            & 0x3f) as u32) << 6 | ((b4 & 0x3f) as u32) > 0x10ffff) by (bit_vector);
    }
}

/// Whether a character begins with `rest`, and which, is known from as many bytes as it takes.
pub proof fn lemma_prefix_decides(rest: Seq<u8>, n: int)
    requires
        0 < n <= rest.len(),
        char_width(rest[0]) <= n,
    ensures
        valid_first_scalar(rest.take(n)) == valid_first_scalar(rest),
        valid_first_scalar(rest) ==> decode_first_scalar(rest.take(n)) == decode_first_scalar(rest),
{
    if char_width(rest[0]) == 1 {
        lemma_single_byte(rest);
        lemma_single_byte(rest.take(n));
    }
}

/// No character that takes several bytes ends early.
pub proof fn lemma_too_short(rest: Seq<u8>)
    requires
        0 < rest.len() < char_width(rest[0]),
    ensures
        !valid_first_scalar(rest),
{
}

/// The bytes of a character: one that begins it, and then bytes that continue it, at most three.
pub proof fn lemma_char_shape(digits: Seq<u8>, k: int, j: int)
    requires
        is_char_between(digits, k, j),
    ensures
        j - k <= 3,
        !is_continuation_byte(digits[k]),
        k < j ==> !is_digit(digits[k]) && digits[k] > 0x7f,
        k == j ==> digits[k] <= 0x7f,
        forall|i: int| k < i <= j ==> is_continuation_byte(#[trigger] digits[i]),
        valid_utf8(digits.subrange(k, j + 1)),
{
    let one = digits.subrange(k, j + 1);
    assert forall|i: int| k < i <= j implies is_continuation_byte(#[trigger] digits[i]) by {
        assert(digits[i] == one[i - k]);
    }
    assert(digits[k] == one[0]);
    assert(pop_first_scalar(one) =~= Seq::empty());
    reveal_with_fuel(valid_utf8, 2);
}

/// At most one character ends at a given place.
pub proof fn lemma_char_ending_unique(digits: Seq<u8>, k: int, j: int)
    requires
        is_char_between(digits, k, j),
    ensures
        char_ending_at(digits, j) == InvalidChar::Utf8(
            decode_first_scalar(digits.subrange(k, j + 1)) as char,
        ),
{
    let k2 = choose|k2: int| is_char_between(digits, k2, j);
    lemma_char_shape(digits, k, j);
    lemma_char_shape(digits, k2, j);
    assert(k == k2);
}

/// No character ends where none can begin.
pub proof fn lemma_no_char_ending(digits: Seq<u8>, low: int, j: int)
    requires
        0 <= low <= j < digits.len(),
        forall|i: int| low <= i <= j ==> is_continuation_byte(#[trigger] digits[i]),
        low == 0 || j - low >= 3,
    ensures
        char_ending_at(digits, j) == InvalidChar::Other(digits[j]),
{
    if exists|k: int| is_char_between(digits, k, j) {
        let k = choose|k: int| is_char_between(digits, k, j);
        lemma_char_shape(digits, k, j);
        assert(is_continuation_byte(digits[k]));
    }
}

/// What ends at a byte that continues no character is that byte.
pub proof fn lemma_char_ending_not_continuation(digits: Seq<u8>, j: int)
    requires
        0 <= j < digits.len(),
        !is_continuation_byte(digits[j]),
    ensures
        char_ending_at(digits, j) == (if digits[j] <= 0x7f {
            InvalidChar::Utf8(digits[j] as char)
        } else {
            InvalidChar::Other(digits[j])
        }),
{
    let one = digits.subrange(j, j + 1);
    if digits[j] <= 0x7f {
        lemma_single_byte(one);
        lemma_char_ending_unique(digits, j, j);
    } else if exists|k: int| is_char_between(digits, k, j) {
        let k = choose|k: int| is_char_between(digits, k, j);
        lemma_char_shape(digits, k, j);
    }
}

/// Whether the bytes from `k` to `j` are a character, where the first may begin one and the others
/// may continue it.
pub proof fn lemma_char_ending_decides(digits: Seq<u8>, k: int, j: int)
    requires
        0 <= k < j < digits.len(),
        !is_continuation_byte(digits[k]),
        forall|i: int| k < i <= j ==> is_continuation_byte(#[trigger] digits[i]),
    ensures
        valid_utf8(digits.subrange(k, j + 1)) ==> is_char_between(digits, k, j),
        !valid_utf8(digits.subrange(k, j + 1)) ==> char_ending_at(digits, j) == InvalidChar::Other(
            digits[j],
        ),
{
    let part = digits.subrange(k, j + 1);
    if valid_utf8(part) {
        reveal_with_fuel(valid_utf8, 2);
        let rest = pop_first_scalar(part);
        if rest.len() > 0 {
            assert(rest[0] == digits[k + length_of_first_scalar(part)]);
            assert(is_continuation_byte(rest[0]));
        }
    } else if exists|k2: int| is_char_between(digits, k2, j) {
        let k2 = choose|k2: int| is_char_between(digits, k2, j);
        lemma_char_shape(digits, k2, j);
        assert(k2 == k);
    }
}

/// What the index of the first byte that is no hex digit is.
pub proof fn lemma_first_bad(digits: Seq<u8>)
    ensures
        0 <= first_bad(digits) <= digits.len(),
        forall|i: int| 0 <= i < first_bad(digits) ==> is_digit(#[trigger] digits[i]),
        first_bad(digits) < digits.len() ==> !is_digit(digits[first_bad(digits)]),
        all_digits(digits) <==> first_bad(digits) == digits.len(),
    decreases digits.len(),
{
    if digits.len() > 0 && is_digit(digits[0]) {
        let rest = digits.drop_first();
        lemma_first_bad(rest);
        assert forall|i: int| 0 <= i < first_bad(digits) implies is_digit(#[trigger] digits[i]) by {
            if i > 0 {
                assert(digits[i] == rest[i - 1]);
            }
        }
    }
}

/// The first byte that is no hex digit is the only one with nothing but hex digits before it.
pub proof fn lemma_first_bad_unique(digits: Seq<u8>, k: int)
    requires
        0 <= k < digits.len(),
        all_digits(digits.take(k)),
        !is_digit(digits[k]),
    ensures
        first_bad(digits) == k,
{
    lemma_first_bad(digits);
    let b = first_bad(digits);
    if b < k {
        assert(digits[b] == digits.take(k)[b]);
    }
}

/// Behind pairs of hex digits, the error of the next pair is that of the whole.
pub proof fn lemma_error_behind_digits(digits: Seq<u8>, pairs: int, base: int)
    requires
        0 <= 2 * pairs,
        2 * pairs + 2 <= digits.len(),
        all_digits(digits.take(2 * pairs)),
        decode_first(digits.skip(2 * pairs), base + 2 * pairs) is Err,
    ensures
        decode(digits, base) == Err::<Seq<u8>, _>(
            decode_first(digits.skip(2 * pairs), base + 2 * pairs)->Err_0,
        ),
        first_bad(digits) / 2 == pairs,
{
    let rest = digits.skip(2 * pairs);
    let i: int = if is_digit(rest[0]) {
        1
    } else {
        0
    };
    let k = 2 * pairs + i;
    assert(!is_digit(digits[k])) by {
        assert(rest[i] == digits[k]);
    }
    assert forall|m: int| 0 <= m < k implies is_digit(#[trigger] digits.take(k)[m]) by {
        if m < 2 * pairs {
            assert(digits.take(2 * pairs)[m] == digits[m]);
        } else {
            assert(rest[0] == digits[m]);
        }
    }
    lemma_first_bad_unique(digits, k);
    lemma_first_bad(digits);
    assert(rest.skip(i) =~= digits.skip(k));
}

/// One more pair of hex digits spells one more byte.
pub proof fn lemma_bytes_of_push(digits: Seq<u8>, pairs: int)
    requires
        0 <= 2 * pairs,
        2 * pairs + 2 <= digits.len(),
    ensures
        bytes_of(digits.take(2 * pairs + 2)) == bytes_of(digits.take(2 * pairs)).push(
            byte_of(digits[2 * pairs], digits[2 * pairs + 1]),
        ),
{
    assert(bytes_of(digits.take(2 * pairs + 2)) =~= bytes_of(digits.take(2 * pairs)).push(
        byte_of(digits[2 * pairs], digits[2 * pairs + 1]),
    ));
}

} // verus!
