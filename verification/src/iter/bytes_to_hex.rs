//! From bytes to hex characters.
use crate::case::{encode_byte, Case, Table};
use crate::utf8::ascii_chars;
use core::iter::FusedIterator;
use vstd::prelude::*;
use vstd::std_specs::iter::{DoubleEndedIteratorSpecImpl, IteratorSpec, IteratorSpecImpl};

verus! {

/// A byte, or a reference to one.
pub trait ByteRef {
    /// The byte.
    spec fn byte(&self) -> u8;

    /// The byte.
    fn to_byte(&self) -> (b: u8)
        ensures
            b == self.byte(),
    ;
}

impl ByteRef for u8 {
    open spec fn byte(&self) -> u8 {
        *self
    }

    #[inline]
    fn to_byte(&self) -> (b: u8) {
        *self
    }
}

impl<'a> ByteRef for &'a u8 {
    open spec fn byte(&self) -> u8 {
        **self
    }

    #[inline]
    fn to_byte(&self) -> (b: u8) {
        **self
    }
}

/// The bytes of `items`.
pub open spec fn item_bytes<B: ByteRef>(items: Seq<B>) -> Seq<u8> {
    items.map_values(|item: B| item.byte())
}

/// The first of the two characters of `byte`.
pub open spec fn high_char(case: Case, byte: u8) -> char {
    ascii_chars(encode_byte(case, byte))[0]
}

/// The second of the two characters of `byte`.
pub open spec fn low_char(case: Case, byte: u8) -> char {
    ascii_chars(encode_byte(case, byte))[1]
}

/// Iterator over bytes which encodes the bytes and yields hex characters.
pub struct BytesToHexIter<I> where I: Iterator, I::Item: ByteRef {
    /// The iterator whose next byte will be encoded to yield hex characters.
    iter: I,
    /// The low character of the pair (high, low) of hex characters encoded per byte.
    low: Option<char>,
    /// The byte-to-hex conversion table.
    table: Table,
}

impl<I> BytesToHexIter<I> where I: Iterator, I::Item: ByteRef {
    /// The iterator whose bytes are encoded.
    pub closed spec fn source(&self) -> I {
        self.iter
    }

    /// The low character of the byte that was taken last, while it is to come.
    pub closed spec fn pending(&self) -> Option<char> {
        self.low
    }

    /// The case of the characters.
    pub closed spec fn case(&self) -> Case {
        self.table.case()
    }

    /// Whether `hint` is what `size_hint` of the byte iterator may answer.
    pub closed spec fn source_may_hint(&self, hint: (usize, Option<usize>)) -> bool {
        call_ensures(source_size_hint::<I>, (&self.iter,), hint)
    }

    /// Constructs a `BytesToHexIter` that will yield hex characters in the given case from a byte
    /// iterator.
    pub fn new(iter: I, case: Case) -> (r: BytesToHexIter<I>)
        ensures
            r.source() == iter,
            r.pending() is None,
            r.case() == case,
    {
        Self { iter, low: None, table: case.table() }
    }
}

impl<I> Iterator for BytesToHexIter<I> where I: Iterator, I::Item: ByteRef {
    type Item = char;

    /// Yields the pending character; or else takes the first byte, yields its high character and
    /// keeps the low one.
    #[inline]
    fn next(&mut self) -> (c: Option<char>)
        ensures
            final(self).case() == old(self).case(),
            old(self).pending() is Some ==> {
                &&& c == old(self).pending()
                &&& final(self).pending() is None
                &&& final(self).source() == old(self).source()
            },
            old(self).pending() is None ==> match c {
                Some(high) => exists|byte: u8|
                    {
                        &&& high == #[trigger] high_char(old(self).case(), byte)
                        &&& final(self).pending() == Some(low_char(old(self).case(), byte))
                    },
                None => final(self).pending() is None,
            },
            old(self).pending() is None && old(self).source().obeys_prophetic_iter_laws() ==> {
                let items = old(self).source().remaining();
                &&& final(self).source().obeys_prophetic_iter_laws()
                &&& items.len() == 0 ==> c is None && final(self).source().remaining() == items
                &&& items.len() > 0 ==> {
                    &&& c == Some(high_char(old(self).case(), items[0].byte()))
                    &&& final(self).pending() == Some(low_char(old(self).case(), items[0].byte()))
                    &&& final(self).source().remaining() == items.drop_first()
                }
            },
    {
        match self.low {
            Some(c) => {
                self.low = None;
                Some(c)
            },
            None => match self.iter.next() {
                Some(item) => {
                    let byte: u8 = item.to_byte();
                    let pair = self.table.byte_to_chars(byte);
                    self.low = Some(pair[1]);
                    assert(pair@[0] == high_char(self.case(), byte));
                    Some(pair[0])
                },
                None => None,
            },
        }
    }

    /// The hint of the byte iterator, in characters.
    #[inline]
    fn size_hint(&self) -> (r: (usize, Option<usize>))
        ensures
            exists|hint: (usize, Option<usize>)|
                {
                    &&& #[trigger] self.source_may_hint(hint)
                    &&& r == hex_size_hint_spec(hint.0, hint.1, self.pending() is Some)
                },
    {
        let ask = source_size_hint::<I>;
        let hint = ask(&self.iter);
        assert(self.source_may_hint(hint));
        hex_size_hint(hint.0, hint.1, self.low.is_some())
    }
}

/// The general laws of iterators claim nothing here: they ask that the last item come first from
/// the back, where the two characters of a byte keep their order. What each call yields, and what
/// it leaves, is stated with the methods.
impl<I> IteratorSpecImpl for BytesToHexIter<I> where I: Iterator, I::Item: ByteRef {
    open spec fn obeys_prophetic_iter_laws(&self) -> bool {
        false
    }

    open spec fn remaining(&self) -> Seq<char> {
        Seq::empty()
    }

    open spec fn will_return_none(&self) -> bool {
        true
    }

    open spec fn decrease(&self) -> Option<nat> {
        None
    }

    open spec fn initial_value_relation(&self, init: &Self) -> bool {
        true
    }

    open spec fn peek(&self, index: int) -> Option<char> {
        None
    }
}

impl<I> DoubleEndedIterator for BytesToHexIter<I> where I: DoubleEndedIterator, I::Item: ByteRef {
    /// Yields the pending character; or else takes the last byte, yields its high character and
    /// keeps the low one.
    #[inline]
    fn next_back(&mut self) -> (c: Option<char>)
        ensures
            final(self).case() == old(self).case(),
            old(self).pending() is Some ==> {
                &&& c == old(self).pending()
                &&& final(self).pending() is None
                &&& final(self).source() == old(self).source()
            },
            old(self).pending() is None ==> match c {
                Some(high) => exists|byte: u8|
                    {
                        &&& high == #[trigger] high_char(old(self).case(), byte)
                        &&& final(self).pending() == Some(low_char(old(self).case(), byte))
                    },
                None => final(self).pending() is None,
            },
            old(self).pending() is None && old(self).source().obeys_prophetic_iter_laws() ==> {
                let items = old(self).source().remaining();
                &&& final(self).source().obeys_prophetic_iter_laws()
                &&& items.len() == 0 ==> c is None && final(self).source().remaining() == items
                &&& items.len() > 0 ==> {
                    &&& c == Some(high_char(old(self).case(), items.last().byte()))
                    &&& final(self).pending() == Some(
                        low_char(old(self).case(), items.last().byte()),
                    )
                    &&& final(self).source().remaining() == items.drop_last()
                }
            },
    {
        match self.low {
            Some(c) => {
                self.low = None;
                Some(c)
            },
            None => match self.iter.next_back() {
                Some(item) => {
                    let byte: u8 = item.to_byte();
                    let pair = self.table.byte_to_chars(byte);
                    self.low = Some(pair[1]);
                    assert(pair@[0] == high_char(self.case(), byte));
                    Some(pair[0])
                },
                None => None,
            },
        }
    }
}

impl<I> DoubleEndedIteratorSpecImpl for BytesToHexIter<I> where I: DoubleEndedIterator, I::Item: ByteRef {
    open spec fn peek_back(&self, index: int) -> Option<char> {
        None
    }
}

impl<I> BytesToHexIter<I> where I: ExactSizeIterator, I::Item: ByteRef {
    /// Whether `bytes` is what `len` of the byte iterator may answer.
    pub closed spec fn source_may_count(&self, bytes: usize) -> bool {
        call_ensures(source_len::<I>, (&self.iter,), bytes)
    }
}

impl<I> ExactSizeIterator for BytesToHexIter<I> where I: ExactSizeIterator, I::Item: ByteRef {
    /// How many characters come from the bytes that have not been taken yet. A low character that
    /// is pending comes on top of them.
    #[inline]
    fn len(&self) -> (n: usize)
        ensures
            exists|bytes: usize|
                {
                    &&& #[trigger] self.source_may_count(bytes)
                    &&& n == hex_len_spec(bytes)
                },
    {
        let ask = source_len::<I>;
        let bytes: usize = ask(&self.iter);
        assert(self.source_may_count(bytes));
        hex_len(bytes)
    }
}

impl<I> FusedIterator for BytesToHexIter<I> where I: FusedIterator, I::Item: ByteRef {
}

/// `Iterator::size_hint` of the iterator `iter`. Nothing is said of the result: it is up to the
/// type of the iterator.
#[verifier::external_body]
fn source_size_hint<I: Iterator>(iter: &I) -> (r: (usize, Option<usize>)) {
    iter.size_hint()
}

/// `ExactSizeIterator::len` of the iterator `iter`. Nothing is said of the result: it is up to the
/// type of the iterator.
#[verifier::external_body]
fn source_len<I: ExactSizeIterator>(iter: &I) -> (n: usize) {
    iter.len()
}

/// How many characters `bytes` bytes give, cut off at the largest `usize`.
pub open spec fn hex_len_spec(bytes: usize) -> usize {
    if 2 * bytes <= usize::MAX {
        (2 * bytes) as usize
    } else {
        usize::MAX
    }
}

/// How many characters `bytes` bytes give, cut off at the largest `usize`.
pub fn hex_len(bytes: usize) -> (n: usize)
    ensures
        n == hex_len_spec(bytes),
{
    if bytes <= usize::MAX / 2 {
        bytes * 2
    } else {
        usize::MAX
    }
}

/// How many characters `min` to `max` bytes give, besides the one that may be pending. A lower
/// bound beyond `usize` is cut off there, and an upper bound beyond it is none.
pub open spec fn hex_size_hint_spec(min: usize, max: Option<usize>, pending: bool) -> (
    usize,
    Option<usize>,
) {
    let more: int = if pending {
        1
    } else {
        0
    };
    (
        if 2 * min + more <= usize::MAX {
            (2 * min + more) as usize
        } else {
            usize::MAX
        },
        match max {
            Some(max) if 2 * max + more <= usize::MAX => Some((2 * max + more) as usize),
            _ => None,
        },
    )
}

/// How many characters `min` to `max` bytes give, besides the one that may be pending.
pub fn hex_size_hint(min: usize, max: Option<usize>, pending: bool) -> (r: (usize, Option<usize>))
    ensures
        r == hex_size_hint_spec(min, max, pending),
{
    let more: usize = if pending {
        1
    } else {
        0
    };
    let lower: usize = if min <= (usize::MAX - more) / 2 {
        min * 2 + more
    } else {
        usize::MAX
    };
    let upper = match max {
        Some(max) => if max <= (usize::MAX - more) / 2 {
            Some(max * 2 + more)
        } else {
            None
        },
        None => None,
    };
    (lower, upper)
}

/// What `size_hint` and `len` go by is what the byte iterator itself answers.
proof fn answers_are_those_of_the_source<I>(
    iter: BytesToHexIter<I>,
    hint: (usize, Option<usize>),
    n: usize,
) where I: ExactSizeIterator, I::Item: ByteRef
    ensures
        iter.source_may_hint(hint) <==> call_ensures(
            source_size_hint::<I>,
            (&iter.source(),),
            hint,
        ),
        iter.source_may_count(n) <==> call_ensures(source_len::<I>, (&iter.source(),), n),
{
}

/// Where the byte iterator obeys the laws of iterators and answers with the number of items that
/// remain, `len` is twice that number, and the bounds of `size_hint` are that and the character that
/// may be pending.
proof fn counts_are_those_of_the_source<I>(
    iter: BytesToHexIter<I>,
    hint: (usize, Option<usize>),
    n: usize,
) where I: ExactSizeIterator, I::Item: ByteRef
    requires
        iter.source().obeys_prophetic_iter_laws(),
        2 * iter.source().remaining().len() + 1 <= usize::MAX,
        forall|answer: (usize, Option<usize>)| #[trigger]
            call_ensures(source_size_hint::<I>, (&iter.source(),), answer) ==> answer == (
                iter.source().remaining().len() as usize,
                Some(iter.source().remaining().len() as usize),
            ),
        forall|answer: usize| #[trigger]
            call_ensures(source_len::<I>, (&iter.source(),), answer) ==> answer
                == iter.source().remaining().len(),
        exists|answer: (usize, Option<usize>)|
            {
                &&& #[trigger] iter.source_may_hint(answer)
                &&& hint == hex_size_hint_spec(answer.0, answer.1, iter.pending() is Some)
            },
        exists|answer: usize|
            {
                &&& #[trigger] iter.source_may_count(answer)
                &&& n == hex_len_spec(answer)
            },
    ensures
        n == 2 * iter.source().remaining().len(),
        iter.pending() is None ==> hint == (n, Some(n)),
        iter.pending() is Some ==> hint.0 == n + 1 && hint.1 == Some(hint.0),
{
}

} // verus!
