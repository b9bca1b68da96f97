//! Implements a buffered encoder.
//!
//! The main type in this module is [`BufEncoder`] which provides buffered hex encoding.
use crate::case::{encode, encode_byte, lemma_encode_push, Case, Table};
use crate::iter::bytes_to_hex::{item_bytes, ByteRef};
use crate::utf8::{encode_char, lemma_ascii, str_of_utf8};
use vstd::arithmetic::div_mod::*;
use vstd::prelude::*;
use vstd::slice::slice_subrange;
use vstd::std_specs::iter::IteratorSpec;
use vstd::string::StringSliceAdditionalSpecFns;
use vstd::utf8::*;

verus! {

/// Hex-encodes bytes into the provided buffer.
///
/// The view of an encoder is the text it holds, as UTF-8.
pub struct BufEncoder<const CAP: usize> {
    buf: [u8; CAP],
    ptr: usize,
    table: Table,
}

impl<const CAP: usize> View for BufEncoder<CAP> {
    type V = Seq<u8>;

    closed spec fn view(&self) -> Seq<u8> {
        self.buf@.take(self.ptr as int)
    }
}

/// The text `part`, `n` times.
pub open spec fn repeated(part: Seq<u8>, n: nat) -> Seq<u8>
    decreases n,
{
    if n == 0 {
        Seq::empty()
    } else {
        repeated(part, (n - 1) as nat) + part
    }
}

impl<const CAP: usize> BufEncoder<CAP> {
    /// The case of the digits.
    pub closed spec fn case(&self) -> Case {
        self.table.case()
    }

    /// What always holds of an encoder: its text is UTF-8, and fits.
    pub closed spec fn wf(&self) -> bool {
        &&& self.ptr <= CAP
        &&& valid_utf8(self@)
    }

    /// How many bytes fit behind the text, two digits each.
    pub open spec fn space(&self) -> int {
        (CAP - self@.len()) / 2
    }

    /// What `wf` tells of the text.
    pub proof fn lemma_wf(&self)
        requires
            self.wf(),
        ensures
            self@.len() <= CAP,
            self.space() >= 0,
            valid_utf8(self@),
    {
    }

    /// Creates an empty `BufEncoder` that will encode bytes to hex characters in the given case.
    #[inline]
    pub fn new(case: Case) -> (r: Self)
        ensures
            r.wf(),
            r@ == Seq::<u8>::empty(),
            r.case() == case,
    {
        let r = BufEncoder { buf: [0u8; CAP], ptr: 0, table: case.table() };
        assert(r@ =~= Seq::<u8>::empty());
        r
    }

    /// Encodes `byte` as hex and appends it to the buffer, which must not be full.
    #[inline]
    pub fn put_byte(&mut self, byte: u8)
        requires
            old(self).wf(),
            old(self).space() >= 1,
        ensures
            final(self).wf(),
            final(self)@ == old(self)@ + encode_byte(old(self).case(), byte),
            final(self).case() == old(self).case(),
    {
        let pair = self.table.byte_to_array(byte);
        self.buf[self.ptr] = pair[0];
        self.buf[self.ptr + 1] = pair[1];
        self.ptr += 2;
        proof {
            assert(self@ =~= old(self)@ + pair@);
            lemma_ascii(pair@);
            valid_utf8_concat(old(self)@, pair@);
        }
    }

    /// Encodes `bytes` as hex and appends them to the buffer, which must have room for them.
    #[inline]
    pub fn put_bytes<I>(&mut self, bytes: I) where I: Iterator, I::Item: ByteRef
        requires
            old(self).wf(),
            bytes.obeys_prophetic_iter_laws(),
            bytes.remaining().len() <= old(self).space(),
        ensures
            final(self).wf(),
            final(self)@ == old(self)@ + encode(old(self).case(), item_bytes(bytes.remaining())),
            final(self).case() == old(self).case(),
    {
        self.put_bytes_inner(bytes)
    }

    #[inline]
    fn put_bytes_inner<I>(&mut self, bytes: I) where I: Iterator, I::Item: ByteRef
        requires
            old(self).wf(),
            bytes.obeys_prophetic_iter_laws(),
            bytes.remaining().len() <= old(self).space(),
        ensures
            final(self).wf(),
            final(self)@ == old(self)@ + encode(old(self).case(), item_bytes(bytes.remaining())),
            final(self).case() == old(self).case(),
    {
        let mut iter = bytes;
        let ghost mut done: Seq<u8> = Seq::empty();
        assert(self@ =~= old(self)@ + encode(old(self).case(), done));
        assert(item_bytes(bytes.remaining()) =~= done + item_bytes(iter.remaining()));
        loop
            invariant
                self.wf(),
                self.case() == old(self).case(),
                iter.obeys_prophetic_iter_laws(),
                iter.remaining().len() <= self.space(),
                item_bytes(bytes.remaining()) == done + item_bytes(iter.remaining()),
                self@ == old(self)@ + encode(old(self).case(), done),
            decreases self.space(),
        {
            match iter.next() {
                None => {
                    assert(item_bytes(bytes.remaining()) =~= done);
                    return ;
                },
                Some(item) => {
                    let byte: u8 = item.to_byte();
                    self.put_byte(byte);
                    proof {
                        lemma_encode_push(old(self).case(), done, byte);
                        done = done.push(byte);
                        assert(item_bytes(bytes.remaining()) =~= done + item_bytes(
                            iter.remaining(),
                        ));
                    }
                },
            }
        }
    }

    /// Encodes as many `bytes` as fit into the buffer as hex and return the remainder.
    ///
    /// This method works just like `put_bytes` but instead of demanding room for all of them it
    /// returns the unwritten bytes. The method returns an empty slice if all bytes were written.
    #[must_use]
    #[inline]
    pub fn put_bytes_min<'a>(&mut self, bytes: &'a [u8]) -> (rest: &'a [u8])
        requires
            old(self).wf(),
        ensures
            final(self).wf(),
            final(self).case() == old(self).case(),
            ({
                let n = if bytes@.len() <= old(self).space() {
                    bytes@.len() as int
                } else {
                    old(self).space()
                };
                &&& final(self)@ == old(self)@ + encode(old(self).case(), bytes@.take(n))
                &&& rest@ == bytes@.skip(n)
                &&& rest@.len() > 0 ==> final(self).space() == 0
            }),
    {
        let space: usize = self.space_remaining();
        let to_write: usize = if space <= bytes.len() {
            space
        } else {
            bytes.len()
        };
        let fit = slice_subrange(bytes, 0, to_write);
        self.put_bytes(fit.iter());
        slice_subrange(bytes, to_write, bytes.len())
    }

    /// Returns true if no more bytes can be written into the buffer.
    #[inline]
    pub fn is_full(&self) -> (r: bool)
        requires
            self.wf(),
        ensures
            r == (self.space() == 0),
            !r ==> self.space() >= 1,
    {
        self.space_remaining() == 0
    }

    /// Returns the written bytes as a hex `str`.
    #[inline]
    pub fn as_str(&self) -> (s: &str)
        requires
            self.wf(),
        ensures
            s.spec_bytes() == self@,
            s@ == decode_utf8(self@),
    {
        let text = slice_subrange(self.buf.as_slice(), 0, self.ptr);
        assert(text@ =~= self@);
        proof {
            decode_utf8_encode_utf8(self@);
        }
        str_of_utf8(text)
    }

    /// Resets the buffer to become empty.
    #[inline]
    pub fn clear(&mut self)
        ensures
            final(self).wf(),
            final(self)@ == Seq::<u8>::empty(),
            final(self).case() == old(self).case(),
    {
        self.ptr = 0;
        assert(self@ =~= Seq::<u8>::empty());
    }

    /// How many bytes can be written to this buffer.
    ///
    /// Note that this returns the number of bytes before encoding, not number of hex digits.
    #[inline]
    pub fn space_remaining(&self) -> (n: usize)
        requires
            self.wf(),
        ensures
            n == self.space(),
    {
        (CAP - self.ptr) / 2
    }

    /// Appends `filler` as often as it fits, but no more than `max_count` times, and returns how
    /// often. There must be room for one.
    pub fn put_filler(&mut self, filler: char, max_count: usize) -> (n: usize)
        requires
            old(self).wf(),
            old(self)@.len() + encode_scalar(filler as u32).len() <= CAP,
        ensures
            final(self).wf(),
            final(self).case() == old(self).case(),
            ({
                let part = encode_scalar(filler as u32);
                let fit = (CAP - old(self)@.len()) / part.len() as int;
                &&& n == (if fit < max_count {
                    fit
                } else {
                    max_count as int
                })
                &&& final(self)@ == old(self)@ + repeated(part, n as nat)
            }),
    {
        let mut buf = [0u8; 4];
        let ghost c = filler;
        let filler = encode_char(filler, &mut buf);
        let part = filler.as_bytes();
        proof {
            encode_utf8_valid_utf8(seq![c]);
            assert(seq![c].drop_first() =~= Seq::<char>::empty());
            assert(part@ =~= encode_scalar(c as u32)) by {
                reveal_with_fuel(encode_utf8, 2);
            }
        }
        let max_capacity: usize = (CAP - self.ptr) / part.len();
        let to_write: usize = if max_capacity <= max_count {
            max_capacity
        } else {
            max_count
        };
        assert(self@ =~= old(self)@ + repeated(part@, 0));
        let mut done: usize = 0;
        while done < to_write
            invariant
                done <= to_write,
                valid_utf8(part@),
                part@.len() > 0,
                self.wf(),
                self.case() == old(self).case(),
                to_write - done <= (CAP - self@.len()) / part@.len() as int,
                self@ == old(self)@ + repeated(part@, done as nat),
            decreases to_write - done,
        {
            let ghost before = *self;
            let ghost room: int = CAP - self.ptr;
            proof {
                lemma_room_for_one(room, part@.len() as int);
            }
            let mut i: usize = 0;
            while i < part.len()
                invariant
                    i <= part@.len(),
                    self.ptr + part@.len() <= CAP,
                    self.ptr == before.ptr,
                    self.table == before.table,
                    self.buf@.take(self.ptr + i) == before@ + part@.take(i as int),
                decreases part@.len() - i,
            {
                let ghost text = self.buf@.take(self.ptr + i);
                self.buf[self.ptr + i] = part[i];
                assert(self.buf@.take(self.ptr + i) =~= text);
                assert(self.buf@.take(self.ptr + i + 1) =~= text.push(part@[i as int]));
                assert(part@.take(i + 1) =~= part@.take(i as int).push(part@[i as int]));
                i += 1;
            }
            self.ptr += part.len();
            done += 1;
            proof {
                assert(self@ =~= before@ + part@);
                valid_utf8_concat(before@, part@);
                assert(self@ =~= old(self)@ + repeated(part@, done as nat));
            }
        }
        to_write
    }
}

/// Where some number of parts fit, one fits, and then one part fewer.
proof fn lemma_room_for_one(room: int, len: int)
    requires
        len > 0,
        room / len >= 1,
    ensures
        room >= len,
        (room - len) / len == room / len - 1,
{
    lemma_fundamental_div_mod(room, len);
    lemma_mod_bound(room, len);
    assert(room >= len) by (nonlinear_arith)
        requires
            room == len * (room / len) + room % len,
            room / len >= 1,
            room % len >= 0,
            len > 0,
    ;
    lemma_div_plus_one(room - len, len);
}

impl<const CAP: usize> Default for BufEncoder<CAP> {
    fn default() -> (r: Self)
        ensures
            r.wf(),
            r@ == Seq::<u8>::empty(),
            r.case() == Case::Lower,
    {
        Self::new(Case::Lower)
    }
}

} // verus!
