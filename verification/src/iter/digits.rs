//! Hex digits, two at a time.
use core::iter::FusedIterator;
use vstd::prelude::*;
use vstd::slice::slice_subrange;
use vstd::std_specs::iter::{DoubleEndedIteratorSpecImpl, IteratorSpec, IteratorSpecImpl};

verus! {

/// Pairs of digits, one after the other.
pub open spec fn flat(pairs: Seq<[u8; 2]>) -> Seq<u8> {
    Seq::new(2 * pairs.len(), |i: int| pairs[i / 2]@[i % 2])
}

/// The first pair stands first.
pub proof fn lemma_flat_first(pairs: Seq<[u8; 2]>)
    ensures
        pairs.len() > 0 ==> flat(pairs) == pairs[0]@ + flat(pairs.drop_first()),
{
    if pairs.len() > 0 {
        let rest = pairs.drop_first();
        assert forall|i: int| 2 <= i < 2 * pairs.len() implies flat(pairs)[i] == flat(rest)[i
            - 2] by {
            assert((i - 2) / 2 == i / 2 - 1 && (i - 2) % 2 == i % 2);
        }
        assert(flat(pairs) =~= pairs[0]@ + flat(rest));
    }
}

/// The last pair stands last.
pub proof fn lemma_flat_last(pairs: Seq<[u8; 2]>)
    ensures
        pairs.len() > 0 ==> flat(pairs) == flat(pairs.drop_last()) + pairs.last()@,
{
    if pairs.len() > 0 {
        assert(flat(pairs) =~= flat(pairs.drop_last()) + pairs.last()@);
    }
}

/// An iterator over pairs of hex digits that knows how many of them are left.
pub trait DigitPairs: Iterator<Item = [u8; 2]> {
    /// The digits that are still to come, two for each pair.
    spec fn digits(&self) -> Seq<u8>;

    /// The pairs that come are those of `digits`.
    proof fn lemma_pairs(&self)
        ensures
            self.obeys_prophetic_iter_laws(),
            flat(self.remaining()) == self.digits(),
    ;

    /// How many pairs are left.
    fn pairs_left(&self) -> (n: usize)
        ensures
            2 * n == self.digits().len(),
    ;
}

/// An internal iterator returning hex digits from a string.
///
/// Generally `HexToBytesIter::new` is all that is needed, or `HexSliceToBytesIter` where the type
/// has to be named.
pub struct HexDigitsIter<'a> {
    digits: &'a [u8],
}

impl<'a> HexDigitsIter<'a> {
    /// The pairs that are still to come.
    pub closed spec fn pairs(&self) -> Seq<[u8; 2]> {
        Seq::new(
            (self.digits@.len() / 2) as nat,
            |i: int| [self.digits@[2 * i], self.digits@[2 * i + 1]],
        )
    }

    /// Iterates over the pairs of `digits`. An odd byte at the end is left out.
    #[inline]
    pub fn new_unchecked(digits: &'a [u8]) -> (r: Self)
        ensures
            r.digits() == digits@.take(2 * (digits@.len() as int / 2)),
    {
        Self { digits }
    }
}

impl<'a> Iterator for HexDigitsIter<'a> {
    type Item = [u8; 2];

    #[inline]
    fn next(&mut self) -> (r: Option<[u8; 2]>)
        ensures
            r is Some <==> old(self).digits().len() > 0,
            r matches Some(pair) ==> {
                &&& pair@ == old(self).digits().take(2)
                &&& final(self).digits() == old(self).digits().skip(2)
            },
            r is None ==> final(self).digits() == old(self).digits(),
    {
        let len: usize = self.digits.len();
        if len < 2 {
            return None;
        }
        let pair = [self.digits[0], self.digits[1]];
        self.digits = slice_subrange(self.digits, 2, len);
        assert(pair == old(self).pairs()[0]);
        assert(self.pairs() =~= old(self).pairs().drop_first());
        Some(pair)
    }

    #[inline]
    fn size_hint(&self) -> (r: (usize, Option<usize>))
        ensures
            2 * r.0 == self.digits().len(),
            r.1 == Some(r.0),
    {
        let n: usize = self.digits.len() / 2;
        (n, Some(n))
    }

    #[inline]
    fn nth(&mut self, n: usize) -> (r: Option<[u8; 2]>)
        ensures
            r is Some <==> 2 * n < old(self).digits().len(),
            r matches Some(pair) ==> {
                &&& pair@ == old(self).digits().subrange(2 * n, 2 * n + 2)
                &&& final(self).digits() == old(self).digits().skip(2 * n + 2)
            },
            r is None ==> final(self).digits().len() == 0,
    {
        let len: usize = self.digits.len();
        if n >= len / 2 {
            self.digits = slice_subrange(self.digits, len, len);
            return None;
        }
        let pair = [self.digits[2 * n], self.digits[2 * n + 1]];
        self.digits = slice_subrange(self.digits, 2 * n + 2, len);
        Some(pair)
    }
}

impl<'a> IteratorSpecImpl for HexDigitsIter<'a> {
    open spec fn obeys_prophetic_iter_laws(&self) -> bool {
        true
    }

    open spec fn remaining(&self) -> Seq<[u8; 2]> {
        self.pairs()
    }

    open spec fn will_return_none(&self) -> bool {
        true
    }

    open spec fn decrease(&self) -> Option<nat> {
        Some(self.pairs().len())
    }

    open spec fn initial_value_relation(&self, init: &Self) -> bool {
        self.pairs() == init.pairs()
    }

    open spec fn peek(&self, index: int) -> Option<[u8; 2]> {
        if 0 <= index < self.pairs().len() {
            Some(self.pairs()[index])
        } else {
            None
        }
    }
}

impl<'a> DoubleEndedIterator for HexDigitsIter<'a> {
    #[inline]
    fn next_back(&mut self) -> (r: Option<[u8; 2]>)
        ensures
            r is Some <==> old(self).digits().len() > 0,
            r matches Some(pair) ==> {
                let n = old(self).digits().len();
                &&& pair@ == old(self).digits().skip(n - 2)
                &&& final(self).digits() == old(self).digits().take(n - 2)
            },
            r is None ==> final(self).digits() == old(self).digits(),
    {
        let len: usize = self.digits.len();
        if len < 2 {
            return None;
        }
        let start: usize = 2 * (len / 2 - 1);
        let pair = [self.digits[start], self.digits[start + 1]];
        self.digits = slice_subrange(self.digits, 0, start);
        assert(pair == old(self).pairs().last());
        assert(self.pairs() =~= old(self).pairs().drop_last());
        Some(pair)
    }

    #[inline]
    fn nth_back(&mut self, n: usize) -> (r: Option<[u8; 2]>)
        ensures
            r is Some <==> 2 * n < old(self).digits().len(),
            r matches Some(pair) ==> {
                let start = old(self).digits().len() - 2 * n - 2;
                &&& pair@ == old(self).digits().subrange(start, start + 2)
                &&& final(self).digits() == old(self).digits().take(start)
            },
            r is None ==> final(self).digits().len() == 0,
    {
        let len: usize = self.digits.len();
        if n >= len / 2 {
            self.digits = slice_subrange(self.digits, 0, 0);
            return None;
        }
        let start: usize = 2 * (len / 2 - n - 1);
        let pair = [self.digits[start], self.digits[start + 1]];
        self.digits = slice_subrange(self.digits, 0, start);
        Some(pair)
    }
}

impl<'a> DoubleEndedIteratorSpecImpl for HexDigitsIter<'a> {
    open spec fn peek_back(&self, index: int) -> Option<[u8; 2]> {
        let n = self.pairs().len();
        if 0 <= index < n {
            Some(self.pairs()[n - index - 1])
        } else {
            None
        }
    }
}

impl<'a> ExactSizeIterator for HexDigitsIter<'a> {
}

impl<'a> FusedIterator for HexDigitsIter<'a> {
}

impl<'a> DigitPairs for HexDigitsIter<'a> {
    closed spec fn digits(&self) -> Seq<u8> {
        self.digits@.take(2 * (self.digits@.len() as int / 2))
    }

    proof fn lemma_pairs(&self) {
        assert(flat(self.pairs()) =~= self.digits());
    }

    #[inline]
    fn pairs_left(&self) -> (n: usize) {
        self.digits.len() / 2
    }
}

} // verus!
