//! From hex digits to bytes.
use super::digits::{lemma_flat_first, lemma_flat_last, DigitPairs, HexDigitsIter};
use crate::decode::{
    after_first, after_last, bad_in_last, char_ending_at, char_starting_at, char_width, decode,
    decode_alone, decode_first, decode_last, first_bad, is_torn, last_is_torn, lemma_bytes_of_push,
    lemma_char_ending_decides, lemma_char_ending_not_continuation, lemma_char_ending_unique,
    lemma_error_behind_digits, lemma_first_bad, lemma_no_char_ending, lemma_prefix_decides,
    lemma_single_byte, lemma_too_short,
};
use crate::digit::{all_digits, bytes_of, hex_chars_to_byte, is_digit, to_digit};
use crate::error::{InvalidChar, InvalidCharError, OddLengthStringError};
use crate::scratch::{
    backward_bytes, backward_new, backward_push, backward_reverse, backward_slice,
    backward_try_push, forward_bytes, forward_extend, forward_len, forward_new, forward_push,
    forward_slice,
};
use crate::utf8::{first_char, from_utf8};
use arrayvec::ArrayVec;
use core::iter::FusedIterator;
use vstd::prelude::*;
use vstd::std_specs::iter::{IteratorSpec, IteratorSpecImpl};
use vstd::string::StringSliceAdditionalSpecFns;
use vstd::utf8::*;

verus! {

/// Convenience alias for `HexToBytesIter<HexDigitsIter<'a>>`.
pub type HexSliceToBytesIter<'a> = HexToBytesIter<HexDigitsIter<'a>>;

/// Iterator yielding bytes decoded from an iterator of pairs of hex digits.
pub struct HexToBytesIter<T: Iterator<Item = [u8; 2]>> {
    iter: T,
    original_len: usize,
}

impl<T: DigitPairs> HexToBytesIter<T> {
    /// The digits that are still to be decoded.
    pub closed spec fn digits(&self) -> Seq<u8> {
        self.iter.digits()
    }

    /// How many pairs of digits there were in the beginning.
    pub closed spec fn original_len(&self) -> nat {
        self.original_len as nat
    }

    /// How many digits have been read, from either end.
    pub open spec fn digits_read(&self) -> int {
        2 * self.original_len() - self.digits().len()
    }

    /// What always holds of an iterator: the digits make pairs, there are no more of them than in
    /// the beginning, and each of them has a position.
    pub open spec fn wf(&self) -> bool {
        &&& self.digits().len() % 2 == 0
        &&& self.digits().len() <= 2 * self.original_len() <= usize::MAX
    }

    /// Constructs a custom hex decoding iterator from another iterator.
    #[inline]
    pub fn from_pairs(iter: T) -> (r: Self)
        requires
            iter.digits().len() <= usize::MAX,
        ensures
            r.wf(),
            r.digits() == iter.digits(),
            r.digits_read() == 0,
    {
        let original_len: usize = iter.pairs_left();
        Self { original_len, iter }
    }

    /// Fills `buf` from its beginning with the bytes that come next, and returns how many they are:
    /// fewer than fit, where the digits end or something else than a hex digit comes, which is then
    /// dropped.
    #[inline]
    pub fn read(&mut self, buf: &mut [u8]) -> (n: usize)
        requires
            old(self).wf(),
        ensures
            final(self).wf(),
            final(self).original_len() == old(self).original_len(),
            ({
                let digits = old(self).digits();
                let len = old(buf)@.len();
                let good = first_bad(digits) / 2;
                &&& n == (if good < len {
                    good
                } else {
                    len as int
                })
                &&& final(buf)@ == bytes_of(digits.take(2 * n)) + old(buf)@.skip(n as int)
                &&& final(self).digits() == (if n == len || 2 * n == digits.len() {
                    digits.skip(2 * n)
                } else {
                    after_first(digits.skip(2 * n))
                })
            }),
    {
        let ghost d = self.digits();
        let ghost base = self.digits_read();
        let mut bytes_read: usize = 0;
        proof {
            lemma_first_bad(d);
            assert(d.skip(0) =~= d);
            assert(buf@ =~= bytes_of(d.take(0)) + old(buf)@.skip(0));
        }
        while bytes_read < buf.len()
            invariant_except_break
                self.digits() == d.skip(2 * bytes_read),
                self.digits_read() == base + 2 * bytes_read,
            invariant
                d == old(self).digits(),
                base == old(self).digits_read(),
                self.wf(),
                self.original_len() == old(self).original_len(),
                buf@.len() == old(buf)@.len(),
                bytes_read <= buf@.len(),
                2 * bytes_read <= d.len(),
                all_digits(d.take(2 * bytes_read)),
                buf@ == bytes_of(d.take(2 * bytes_read)) + old(buf)@.skip(bytes_read as int),
            ensures
                self.digits() == (if bytes_read == buf@.len() || 2 * bytes_read == d.len() {
                    d.skip(2 * bytes_read)
                } else {
                    after_first(d.skip(2 * bytes_read))
                }),
                bytes_read < buf@.len() ==> bytes_read == first_bad(d) / 2,
            decreases buf@.len() - bytes_read,
        {
            let ghost rest = self.digits();
            match self.next() {
                Some(Ok(src)) => {
                    proof {
                        assert(rest[0] == d[2 * bytes_read as int] && rest[1] == d[2 * bytes_read
                            + 1]);
                        lemma_bytes_of_push(d, bytes_read as int);
                        assert(self.digits() =~= d.skip(2 * bytes_read + 2));
                    }
                    buf[bytes_read] = src;
                    bytes_read += 1;
                    assert(buf@ =~= bytes_of(d.take(2 * bytes_read)) + old(buf)@.skip(
                        bytes_read as int,
                    ));
                },
                _ => {
                    proof {
                        if rest.len() > 0 {
                            lemma_error_behind_digits(d, bytes_read as int, base);
                        } else {
                            assert(d.take(2 * bytes_read) =~= d);
                            lemma_first_bad(d);
                        }
                    }
                    break;
                },
            }
        }
        proof {
            lemma_first_bad(d);
            if first_bad(d) < 2 * bytes_read {
                assert(is_digit(d.take(2 * bytes_read)[first_bad(d)]));
            }
        }
        bytes_read
    }

    /// Takes the first pair.
    #[inline]
    fn next_pair(&mut self) -> (r: Option<[u8; 2]>)
        ensures
            final(self).original_len() == old(self).original_len(),
            r is Some <==> old(self).digits().len() > 0,
            r matches Some(pair) ==> old(self).digits() == pair@ + final(self).digits(),
            r is None ==> final(self).digits() == old(self).digits(),
    {
        proof {
            self.iter.lemma_pairs();
            lemma_flat_first(self.iter.remaining());
        }
        let pair = self.iter.next();
        proof {
            self.iter.lemma_pairs();
        }
        pair
    }

    /// The position of a digit of the pair that was taken from the front last.
    #[inline]
    fn position_in_taken(&self, is_high: bool) -> (pos: usize)
        ensures
            self.wf() && self.digits_read() >= 2 ==> pos == self.digits_read() - (if is_high {
                2int
            } else {
                1
            }),
    {
        // `wf` keeps these operations from wrapping.
        let taken: usize = self.original_len.wrapping_sub(self.iter.pairs_left());
        let before: usize = taken.wrapping_sub(1);
        let pos: usize = before.wrapping_add(before);
        if is_high {
            pos
        } else {
            pos.wrapping_add(1)
        }
    }

    /// What `c` is, the first byte that is no hex digit in the pair of `hi` and `lo`, which was
    /// taken from the front. Further pairs are taken as far as a character that begins with `c`
    /// reaches.
    fn char_from(&mut self, hi: u8, lo: u8, c: u8, is_high: bool) -> (invalid: InvalidChar)
        requires
            is_high ==> c == hi && !is_digit(hi),
            !is_high ==> c == lo && is_digit(hi) && !is_digit(lo),
            old(self).digits().len() % 2 == 0,
        ensures
            invalid == char_starting_at(
                seq![hi, lo] + old(self).digits(),
                if is_high {
                    0
                } else {
                    1
                },
            ),
            final(self).digits() == after_first(seq![hi, lo] + old(self).digits()),
            final(self).original_len() == old(self).original_len(),
    {
        let ghost d = seq![hi, lo] + old(self).digits();
        let ghost i: int = if is_high {
            0
        } else {
            1
        };
        let ghost rest = d.skip(i);
        let width: usize = match c {
            0x00..=0x7f => {
                proof {
                    lemma_single_byte(rest);
                    assert(after_first(d) =~= old(self).digits());
                }
                return InvalidChar::Utf8(c as char);
            },
            0xc2..=0xdf => 2,
            0xe0..=0xef => 3,
            0xf0..=0xf4 => 4,
            _ => {
                proof {
                    lemma_single_byte(rest);
                    assert(after_first(d) =~= old(self).digits());
                }
                return InvalidChar::Other(c);
            },
        };

        let mut bytes = forward_new();
        if is_high {
            forward_push(&mut bytes, hi);
            forward_push(&mut bytes, lo);
        } else {
            forward_push(&mut bytes, lo);
        }
        assert(forward_bytes(bytes) =~= d.subrange(i, 2));
        assert(self.digits() =~= d.skip(2));

        while forward_len(&bytes) < width
            invariant
                d.len() % 2 == 0,
                0 <= i <= 1,
                rest == d.skip(i),
                i + forward_bytes(bytes).len() <= d.len(),
                (i + forward_bytes(bytes).len()) % 2 == 0,
                0 < forward_bytes(bytes).len() <= width + 1,
                forward_bytes(bytes) == d.subrange(i, i + forward_bytes(bytes).len()),
                self.digits() == d.skip(i + forward_bytes(bytes).len()),
                self.original_len() == old(self).original_len(),
                c == d[i],
                width == char_width(c),
                2 <= width <= 4,
                i == 0 ==> !is_digit(d[0]),
                i == 1 ==> is_digit(d[0]) && !is_digit(d[1]),
                i == (if is_high {
                    0int
                } else {
                    1
                }),
                d == seq![hi, lo] + old(self).digits(),
            decreases width + 1 - forward_bytes(bytes).len(),
        {
            let ghost len = forward_bytes(bytes).len();
            let ghost before = self.digits();
            let pair = match self.next_pair() {
                Some(pair) => pair,
                None => {
                    proof {
                        lemma_too_short(rest);
                        assert(after_first(d) =~= self.digits());
                    }
                    return InvalidChar::Other(c);
                },
            };
            assert(before[0] == d[i + len] && before[1] == d[i + len + 1]);
            assert(self.digits() =~= before.skip(2));
            forward_extend(&mut bytes, &pair).unwrap();
            assert(forward_bytes(bytes) =~= d.subrange(i, i + len + 2));
            assert(self.digits() =~= d.skip(i + len + 2));
        }

        proof {
            let len = forward_bytes(bytes).len();
            assert(forward_bytes(bytes) =~= rest.take(len as int));
            lemma_prefix_decides(rest, len as int);
        }
        match first_char(forward_slice(&bytes)) {
            Some(invalid) => InvalidChar::Utf8(invalid),
            None => InvalidChar::Other(c),
        }
    }
}

impl<T: DigitPairs> Iterator for HexToBytesIter<T> {
    type Item = Result<u8, InvalidCharError>;

    /// Decodes the first pair. Where it holds something else than hex digits, the error names the
    /// character that begins there, and iteration goes on behind that character.
    #[inline]
    fn next(&mut self) -> (r: Option<Result<u8, InvalidCharError>>)
        ensures
            old(self).wf() ==> {
                let digits = old(self).digits();
                &&& final(self).wf()
                &&& final(self).original_len() == old(self).original_len()
                &&& digits.len() == 0 ==> r is None && final(self).digits() == digits
                &&& digits.len() > 0 ==> {
                    &&& r == Some(decode_first(digits, old(self).digits_read()))
                    &&& final(self).digits() == after_first(digits)
                }
            },
    {
        let pair = match self.next_pair() {
            Some(pair) => pair,
            None => return None,
        };
        let ghost rest = self.digits();
        let hi: u8 = pair[0];
        let lo: u8 = pair[1];
        proof {
            assert(pair@ =~= seq![hi, lo]);
            self.iter.lemma_pairs();
        }
        match hex_chars_to_byte(hi, lo) {
            Ok(byte) => {
                assert(after_first(old(self).digits()) =~= rest);
                Some(Ok(byte))
            },
            Err((c, is_high)) => {
                let pos: usize = self.position_in_taken(is_high);
                let invalid = self.char_from(hi, lo, c, is_high);
                Some(Err(InvalidCharError { invalid, pos }))
            },
        }
    }

    #[inline]
    fn size_hint(&self) -> (r: (usize, Option<usize>))
        ensures
            2 * r.0 == self.digits().len(),
            r.1 == Some(r.0),
    {
        let n: usize = self.iter.pairs_left();
        (n, Some(n))
    }

    /// Decodes the pair behind the first `n`, and drops those. The pair is judged by itself.
    #[inline]
    fn nth(&mut self, n: usize) -> (r: Option<Result<u8, InvalidCharError>>)
        ensures
            old(self).wf() ==> {
                let digits = old(self).digits();
                &&& final(self).wf()
                &&& final(self).original_len() == old(self).original_len()
                &&& 2 * n >= digits.len() ==> r is None && final(self).digits().len() == 0
                &&& 2 * n < digits.len() ==> {
                    &&& r == Some(
                        decode_alone(
                            digits[2 * n as int],
                            digits[2 * n + 1],
                            old(self).digits_read() + 2 * n,
                        ),
                    )
                    &&& final(self).digits() == digits.skip(2 * n + 2)
                }
            },
    {
        let ghost d = self.digits();
        let mut left: usize = n;
        loop
            invariant
                left <= n,
                d == old(self).digits(),
                2 * (n - left) <= d.len(),
                self.digits() == d.skip(2 * (n - left)),
                self.original_len() == old(self).original_len(),
            decreases left,
        {
            let ghost before = self.digits();
            let pair = match self.next_pair() {
                Some(pair) => pair,
                None => return None,
            };
            proof {
                self.iter.lemma_pairs();
                assert(self.digits() =~= before.skip(2));
                assert(self.digits() =~= d.skip(2 * (n - left) + 2));
                assert(pair@ =~= before.take(2));
            }
            if left == 0 {
                return match hex_chars_to_byte(pair[0], pair[1]) {
                    Ok(byte) => Some(Ok(byte)),
                    Err((c, is_high)) => Some(
                        Err(
                            InvalidCharError {
                                invalid: InvalidChar::Utf8(c as char),
                                pos: self.position_in_taken(is_high),
                            },
                        ),
                    ),
                };
            }
            left = left - 1;
        }
    }
}

impl<T: DigitPairs> ExactSizeIterator for HexToBytesIter<T> {
}

impl<T: DigitPairs> FusedIterator for HexToBytesIter<T> {
}

/// The general laws of iterators claim nothing here: they would have to hold without `wf`, which a
/// method of `Iterator` cannot ask for. What each call yields, and what it leaves, is stated with
/// the methods.
impl<T: DigitPairs> IteratorSpecImpl for HexToBytesIter<T> {
    open spec fn obeys_prophetic_iter_laws(&self) -> bool {
        false
    }

    open spec fn remaining(&self) -> Seq<Result<u8, InvalidCharError>> {
        Seq::empty()
    }

    open spec fn will_return_none(&self) -> bool {
        true
    }

    open spec fn decrease(&self) -> Option<nat> {
        None
    }

    open spec fn initial_value_relation(&self, init: &Self) -> bool {
        true
    }

    open spec fn peek(&self, index: int) -> Option<Result<u8, InvalidCharError>> {
        None
    }
}

/// Whether `b` continues a character of several bytes.
#[inline]
fn is_utf8_continuation(b: u8) -> (r: bool)
    ensures
        r == is_continuation_byte(b),
{
    0x80 <= b && b <= 0xbf
}

/// The byte that was put into `bytes` last.
#[inline]
fn last_byte(bytes: &ArrayVec<u8, 4>) -> (b: u8)
    requires
        backward_bytes(*bytes).len() > 0,
    ensures
        b == backward_bytes(*bytes).last(),
{
    let s = backward_slice(bytes);
    s[s.len() - 1]
}

impl<T: DigitPairs + DoubleEndedIterator> HexToBytesIter<T> {
    /// Takes the last pair.
    #[inline]
    fn next_back_pair(&mut self) -> (r: Option<[u8; 2]>)
        ensures
            final(self).original_len() == old(self).original_len(),
            r is Some <==> old(self).digits().len() > 0,
            r matches Some(pair) ==> old(self).digits() == final(self).digits() + pair@,
            r is None ==> final(self).digits() == old(self).digits(),
    {
        proof {
            self.iter.lemma_pairs();
            lemma_flat_last(self.iter.remaining());
        }
        let pair = self.iter.next_back();
        proof {
            self.iter.lemma_pairs();
        }
        pair
    }

    /// What `c` is, the last byte that is no hex digit in the pair of `hi` and `lo`, which was
    /// taken from the back. Further pairs are taken as far as a character that ends with `c`
    /// reaches.
    #[verifier::rlimit(40)]
    fn char_until(&mut self, hi: u8, lo: u8, c: u8) -> (invalid: InvalidChar)
        requires
            is_digit(lo) ==> c == hi && !is_digit(hi),
            !is_digit(lo) ==> c == lo,
            !is_torn(hi, lo),
            old(self).digits().len() % 2 == 0,
        ensures
            ({
                let d = old(self).digits() + seq![hi, lo];
                &&& invalid == char_ending_at(d, bad_in_last(d))
                &&& final(self).digits() == after_last(d)
            }),
            final(self).original_len() == old(self).original_len(),
    {
        let ghost d = old(self).digits() + seq![hi, lo];
        let ghost n = d.len() as int;
        let ghost j = bad_in_last(d);
        if c <= 0x7f {
            proof {
                lemma_char_ending_not_continuation(d, j);
                assert(after_last(d) =~= old(self).digits());
            }
            return InvalidChar::Utf8(c as char);
        } else if !is_utf8_continuation(c) {
            proof {
                lemma_char_ending_not_continuation(d, j);
                assert(after_last(d) =~= old(self).digits());
            }
            return InvalidChar::Other(c);
        }

        let mut bytes = backward_new();
        if is_utf8_continuation(lo) {
            backward_push(&mut bytes, lo);
            backward_push(&mut bytes, hi);
        } else {
            backward_push(&mut bytes, hi);
        }
        // The bytes are gathered from the index `j` down to `low`.
        let ghost mut low: int = n - 2;
        assert(backward_bytes(bytes) =~= d.subrange(low, j + 1).reverse());
        assert(self.digits() =~= d.take(low));

        while is_utf8_continuation(last_byte(&bytes))
            invariant
                n == d.len(),
                n % 2 == 0,
                n >= 2,
                d == old(self).digits() + seq![hi, lo],
                j == bad_in_last(d),
                c == d[j],
                is_continuation_byte(c),
                !(is_digit(d[n - 2]) && is_digit(d[n - 1])),
                0 <= low <= n - 2,
                low <= j <= low + 3,
                forall|i: int| low < i <= j ==> is_continuation_byte(#[trigger] d[i]),
                low % 2 == 1 ==> !is_continuation_byte(d[low]),
                low < n - 2 ==> is_continuation_byte(d[n - 2]),
                low < n - 4 ==> is_continuation_byte(d[n - 3]) && is_continuation_byte(d[n - 4]),
                backward_bytes(bytes) == d.subrange(low, j + 1).reverse(),
                self.digits() == d.take(2 * (low / 2)),
                self.original_len() == old(self).original_len(),
            decreases low,
        {
            assert(backward_bytes(bytes).last() == d[low]);
            let ghost before = self.digits();
            let pair = match self.next_back_pair() {
                Some(pair) => pair,
                None => {
                    proof {
                        lemma_no_char_ending(d, low, j);
                        assert(after_last(d) =~= self.digits());
                    }
                    return InvalidChar::Other(c);
                },
            };
            assert(before[low - 2] == d[low - 2] && before[low - 1] == d[low - 1]);
            assert(self.digits() =~= d.take(low - 2));
            let hi: u8 = pair[0];
            let lo: u8 = pair[1];
            if let Err(_) = backward_try_push(&mut bytes, lo) {
                proof {
                    lemma_no_char_ending(d, low, j);
                    assert(after_last(d) =~= self.digits());
                }
                return InvalidChar::Other(c);
            }
            proof {
                low = low - 1;
            }
            assert(backward_bytes(bytes) =~= d.subrange(low, j + 1).reverse());
            if is_utf8_continuation(lo) {
                if let Err(_) = backward_try_push(&mut bytes, hi) {
                    proof {
                        lemma_no_char_ending(d, low, j);
                        assert(after_last(d) =~= self.digits());
                    }
                    return InvalidChar::Other(c);
                }
                proof {
                    low = low - 1;
                }
                assert(backward_bytes(bytes) =~= d.subrange(low, j + 1).reverse());
            }
        }

        assert(backward_bytes(bytes).last() == d[low]);
        backward_reverse(&mut bytes);
        proof {
            assert(backward_bytes(bytes) =~= d.subrange(low, j + 1));
            lemma_char_ending_decides(d, low, j);
            assert(after_last(d) =~= self.digits());
        }
        match from_utf8(backward_slice(&bytes)) {
            Ok(s) => {
                proof {
                    lemma_char_ending_unique(d, low, j);
                }
                InvalidChar::Utf8(s.chars().next().unwrap())
            },
            Err(_) => InvalidChar::Other(c),
        }
    }

    /// Decodes the last pair, as [`HexToBytesIter::next_back`] does, or gives it back where it is
    /// torn: a hex digit, and then a byte that continues a character that is not there.
    pub fn next_back_checked(&mut self) -> (r: Result<
        Option<Result<u8, InvalidCharError>>,
        [u8; 2],
    >)
        requires
            old(self).wf(),
        ensures
            final(self).wf(),
            final(self).original_len() == old(self).original_len(),
            ({
                let digits = old(self).digits();
                let n = digits.len();
                match r {
                    Err(pair) => {
                        &&& last_is_torn(digits)
                        &&& pair@ == digits.skip(n - 2)
                        &&& final(self).digits() == digits.take(n - 2)
                    },
                    Ok(None) => n == 0 && final(self).digits() == digits,
                    Ok(Some(outcome)) => {
                        &&& n > 0
                        &&& !last_is_torn(digits)
                        &&& outcome == decode_last(digits)
                        &&& final(self).digits() == after_last(digits)
                    },
                }
            }),
    {
        let ghost d = self.digits();
        let pair = match self.next_back_pair() {
            Some(pair) => pair,
            None => return Ok(None),
        };
        let ghost rest = self.digits();
        let hi: u8 = pair[0];
        let lo: u8 = pair[1];
        proof {
            self.iter.lemma_pairs();
            assert(pair@ =~= seq![hi, lo]);
            assert(rest =~= d.take(d.len() - 2));
            assert(pair@ =~= d.skip(d.len() - 2));
        }
        match hex_chars_to_byte(hi, lo) {
            Ok(byte) => {
                assert(after_last(d) =~= rest);
                Ok(Some(Ok(byte)))
            },
            Err((c, is_high)) => {
                let left: usize = self.iter.pairs_left();
                let mut c: u8 = c;
                let mut pos: usize = if is_high {
                    left * 2
                } else {
                    left * 2 + 1
                };
                // put c and pos at the right most position that is wrong
                if to_digit(lo).is_none() {
                    if is_high {
                        pos += 1;
                    }
                    c = lo;
                }
                if !is_high && is_utf8_continuation(lo) {
                    return Err(pair);
                }
                let invalid = self.char_until(hi, lo, c);
                Ok(Some(Err(InvalidCharError { invalid, pos })))
            },
        }
    }

    /// Decodes the last pair. Where it holds something else than hex digits, the error names the
    /// character that ends there, with the position of its last byte, and iteration goes on before
    /// that character.
    ///
    /// The last pair must not be torn; in a string none is.
    #[inline]
    pub fn next_back(&mut self) -> (r: Option<Result<u8, InvalidCharError>>)
        requires
            old(self).wf(),
            !last_is_torn(old(self).digits()),
        ensures
            final(self).wf(),
            final(self).original_len() == old(self).original_len(),
            ({
                let digits = old(self).digits();
                &&& digits.len() == 0 ==> r is None && final(self).digits() == digits
                &&& digits.len() > 0 ==> {
                    &&& r == Some(decode_last(digits))
                    &&& final(self).digits() == after_last(digits)
                }
            }),
    {
        self.next_back_checked().unwrap()
    }

    /// Decodes the pair before the last `n`, and drops those. The pair is judged by itself.
    #[inline]
    pub fn nth_back(&mut self, n: usize) -> (r: Option<Result<u8, InvalidCharError>>)
        requires
            old(self).wf(),
        ensures
            final(self).wf(),
            final(self).original_len() == old(self).original_len(),
            ({
                let digits = old(self).digits();
                let start = digits.len() - 2 * n - 2;
                &&& start < 0 ==> r is None && final(self).digits().len() == 0
                &&& start >= 0 ==> {
                    &&& r == Some(decode_alone(digits[start], digits[start + 1], start))
                    &&& final(self).digits() == digits.take(start)
                }
            }),
    {
        let ghost d = self.digits();
        let mut left: usize = n;
        loop
            invariant
                left <= n,
                d == old(self).digits(),
                old(self).wf(),
                2 * (n - left) <= d.len(),
                self.digits() == d.take(d.len() - 2 * (n - left)),
                self.original_len() == old(self).original_len(),
            decreases left,
        {
            let ghost before = self.digits();
            let pair = match self.next_back_pair() {
                Some(pair) => pair,
                None => return None,
            };
            proof {
                self.iter.lemma_pairs();
                assert(self.digits() =~= before.take(before.len() - 2));
                assert(self.digits() =~= d.take(d.len() - 2 * (n - left) - 2));
                assert(pair@ =~= before.skip(before.len() - 2));
            }
            if left == 0 {
                return match hex_chars_to_byte(pair[0], pair[1]) {
                    Ok(byte) => Some(Ok(byte)),
                    Err((c, is_high)) => {
                        let pos: usize = self.iter.pairs_left() * 2;
                        Some(
                            Err(
                                InvalidCharError {
                                    invalid: InvalidChar::Utf8(c as char),
                                    pos: if is_high {
                                        pos
                                    } else {
                                        pos + 1
                                    },
                                },
                            ),
                        )
                    },
                };
            }
            left = left - 1;
        }
    }
}

impl<'a> HexToBytesIter<HexDigitsIter<'a>> {
    /// Constructs a new `HexToBytesIter` from a string slice.
    ///
    /// # Errors
    ///
    /// If the input string is of odd length.
    #[inline]
    pub fn new(s: &'a str) -> (r: Result<Self, OddLengthStringError>)
        ensures
            match r {
                Ok(iter) => {
                    &&& s.spec_bytes().len() % 2 == 0
                    &&& iter.wf()
                    &&& iter.digits() == s.spec_bytes()
                    &&& iter.digits_read() == 0
                },
                Err(e) => s.spec_bytes().len() % 2 != 0 && e.len == s.spec_bytes().len(),
            },
    {
        let len: usize = s.as_bytes().len();
        if len % 2 != 0 {
            Err(OddLengthStringError { len })
        } else {
            assert(s.spec_bytes().take(len as int) =~= s.spec_bytes());
            Ok(Self::new_unchecked(s))
        }
    }

    /// Constructs a new `HexToBytesIter` from a string slice, without its last byte where their
    /// number is odd.
    pub fn new_unchecked(s: &'a str) -> (r: Self)
        ensures
            r.wf(),
            r.digits() == s.spec_bytes().take(2 * (s.spec_bytes().len() as int / 2)),
            r.digits_read() == 0,
    {
        let bytes = s.as_bytes();
        assert(bytes.len() == bytes@.len());
        Self::from_pairs(HexDigitsIter::new_unchecked(bytes))
    }

    /// Writes all the bytes yielded by this `HexToBytesIter` to the provided slice, which has to
    /// be as long as there are bytes.
    ///
    /// Stops writing if this `HexToBytesIter` yields an `InvalidCharError`.
    pub fn drain_to_slice(self, buf: &mut [u8]) -> (r: Result<(), InvalidCharError>)
        requires
            self.wf(),
            self.digits().len() == 2 * old(buf)@.len(),
        ensures
            match decode(self.digits(), self.digits_read()) {
                Ok(bytes) => r is Ok && final(buf)@ == bytes,
                Err(e) => {
                    let k = first_bad(self.digits()) / 2;
                    &&& r == Err::<(), _>(e)
                    &&& final(buf)@ == bytes_of(self.digits().take(2 * k)) + old(buf)@.skip(k)
                },
            },
    {
        let ghost d = self.digits();
        let ghost base = self.digits_read();
        let mut iter = self;
        let mut i: usize = 0;
        proof {
            assert(d.skip(0) =~= d);
            assert(buf@ =~= bytes_of(d.take(0)) + old(buf)@.skip(0));
        }
        loop
            invariant
                d == self.digits(),
                base == self.digits_read(),
                d.len() == 2 * old(buf)@.len(),
                iter.wf(),
                2 * i <= d.len(),
                iter.digits() == d.skip(2 * i),
                iter.digits_read() == base + 2 * i,
                all_digits(d.take(2 * i)),
                buf@ == bytes_of(d.take(2 * i)) + old(buf)@.skip(i as int),
            decreases d.len() - 2 * i,
        {
            let ghost rest = iter.digits();
            match iter.next() {
                None => {
                    assert(d.take(2 * i) =~= d);
                    assert(buf@ =~= bytes_of(d));
                    return Ok(());
                },
                Some(Err(e)) => {
                    proof {
                        lemma_error_behind_digits(d, i as int, base);
                        lemma_first_bad(d);
                    }
                    return Err(e);
                },
                Some(Ok(byte)) => {
                    proof {
                        assert(rest[0] == d[2 * i as int] && rest[1] == d[2 * i + 1]);
                        lemma_bytes_of_push(d, i as int);
                        assert(iter.digits() =~= d.skip(2 * i + 2));
                    }
                    buf[i] = byte;
                    i += 1;
                    assert(buf@ =~= bytes_of(d.take(2 * i)) + old(buf)@.skip(i as int));
                },
            }
        }
    }

    /// Writes all the bytes yielded by this `HexToBytesIter` to a `Vec<u8>`.
    pub fn drain_to_vec(self) -> (r: Result<Vec<u8>, InvalidCharError>)
        requires
            self.wf(),
        ensures
            match decode(self.digits(), self.digits_read()) {
                Ok(bytes) => r matches Ok(v) && v@ == bytes,
                Err(e) => r == Err::<Vec<u8>, _>(e),
            },
    {
        let ghost d = self.digits();
        let ghost base = self.digits_read();
        let mut iter = self;
        let mut ret: Vec<u8> = Vec::with_capacity(iter.iter.pairs_left());
        proof {
            assert(d.skip(0) =~= d);
            assert(ret@ =~= bytes_of(d.take(0)));
        }
        loop
            invariant
                d == self.digits(),
                base == self.digits_read(),
                iter.wf(),
                2 * ret@.len() <= d.len(),
                iter.digits() == d.skip(2 * ret@.len() as int),
                iter.digits_read() == base + 2 * ret@.len(),
                all_digits(d.take(2 * ret@.len() as int)),
                ret@ == bytes_of(d.take(2 * ret@.len() as int)),
            decreases d.len() - 2 * ret@.len(),
        {
            let ghost rest = iter.digits();
            let ghost i = ret@.len() as int;
            match iter.next() {
                None => {
                    assert(d.take(2 * i) =~= d);
                    return Ok(ret);
                },
                Some(Err(e)) => {
                    proof {
                        lemma_error_behind_digits(d, i, base);
                        lemma_first_bad(d);
                    }
                    return Err(e);
                },
                Some(Ok(byte)) => {
                    proof {
                        assert(rest[0] == d[2 * i] && rest[1] == d[2 * i + 1]);
                        lemma_bytes_of_push(d, i);
                        assert(iter.digits() =~= d.skip(2 * i + 2));
                    }
                    ret.push(byte);
                },
            }
        }
    }
}

} // verus!
