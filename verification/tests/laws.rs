use std::iter::FusedIterator;

use hex_conservative::digit::{hex_chars_to_byte, to_digit};
use hex_conservative::iter::bytes_to_hex::{hex_len, hex_size_hint};
use hex_conservative::iter::{ByteRef, DigitPairs};
use hex_conservative::{
    BufEncoder, BytesToHexIter, Case, HexDigitsIter, HexToBytesIter, InvalidChar, InvalidCharError,
    OddLengthStringError,
};

fn pairs(digits: &[u8]) -> HexToBytesIter<HexDigitsIter<'_>> {
    HexToBytesIter::from_pairs(HexDigitsIter::new_unchecked(digits))
}

fn utf8(c: char, pos: usize) -> InvalidCharError {
    InvalidCharError { invalid: InvalidChar::Utf8(c), pos }
}

fn other(b: u8, pos: usize) -> InvalidCharError {
    InvalidCharError { invalid: InvalidChar::Other(b), pos }
}

#[test]
fn digits_have_values() {
    for b in 0..=255u8 {
        let want = (b as char).to_digit(16).map(|v| v as u8);
        assert_eq!(to_digit(b), want);
    }
    assert_eq!(hex_chars_to_byte(b'9', b'F'), Ok(0x9f));
    assert_eq!(hex_chars_to_byte(b'g', b'h'), Err((b'g', true)));
    assert_eq!(hex_chars_to_byte(b'a', b'h'), Err((b'h', false)));
}

#[test]
fn odd_length_is_refused() {
    assert_eq!(HexToBytesIter::new("abc").err(), Some(OddLengthStringError { len: 3 }));
    assert_eq!(HexToBytesIter::new("☺").err(), Some(OddLengthStringError { len: 3 }));
    assert!(HexToBytesIter::new("").is_ok());
}

#[test]
fn unchecked_drops_an_odd_byte() {
    let iter = HexToBytesIter::new_unchecked("abcde");
    assert_eq!(iter.len(), 2);
    assert_eq!(iter.drain_to_vec(), Ok(vec![0xab, 0xcd]));
}

#[test]
fn encoding_and_decoding_are_inverse() {
    let bytes: Vec<u8> = (0..=255).collect();
    for case in [Case::Lower, Case::Upper] {
        let mut encoder = BufEncoder::<512>::new(case);
        encoder.put_bytes(bytes.iter());
        let text = encoder.as_str();
        assert_eq!(HexToBytesIter::new(text).unwrap().drain_to_vec(), Ok(bytes.clone()));

        let mut back = HexToBytesIter::new(text).unwrap();
        for want in bytes.iter().rev() {
            assert_eq!(back.next_back(), Some(Ok(*want)));
        }
        assert_eq!(back.next_back(), None);
    }

    let mixed = HexToBytesIter::new("dEaDBeeF").unwrap().drain_to_vec().unwrap();
    let upper: String = BytesToHexIter::new(mixed.iter(), Case::Upper).collect();
    assert_eq!(upper, "DEADBEEF");
}

#[test]
fn draining_is_repeated_next() {
    let mut iter = HexToBytesIter::new("0a1b2x3d").unwrap();
    assert_eq!(iter.next(), Some(Ok(0x0a)));
    assert_eq!(iter.next(), Some(Ok(0x1b)));
    assert_eq!(iter.next(), Some(Err(utf8('x', 5))));
    assert_eq!(iter.next(), Some(Ok(0x3d)));
    assert_eq!(iter.next(), None);
    assert_eq!(iter.next(), None);

    let iter = HexToBytesIter::new("0a1b2x3d").unwrap();
    assert_eq!(iter.drain_to_vec(), Err(utf8('x', 5)));

    let mut started = HexToBytesIter::new("0a1b2x3d").unwrap();
    assert_eq!(started.next(), Some(Ok(0x0a)));
    assert_eq!(started.drain_to_vec(), Err(utf8('x', 5)));
}

#[test]
fn draining_to_a_slice_stops_at_an_error() {
    let mut buf = [0x55; 4];
    let iter = HexToBytesIter::new("0a1b2x3d").unwrap();
    assert_eq!(iter.drain_to_slice(&mut buf), Err(utf8('x', 5)));
    assert_eq!(buf, [0x0a, 0x1b, 0x55, 0x55]);
}

#[test]
fn a_string_is_refused_for_its_first_bad_character() {
    for (text, c, pos) in [
        ("12345g7h", 'g', 5),
        ("«»", '«', 0),
        ("a🚀bcd", '🚀', 1),
        ("ab🚀cd", '🚀', 2),
        ("abc☺de☺f", '☺', 3),
        ("a\u{7f}", '\u{7f}', 1),
        ("a\0", '\0', 1),
        ("/0", '/', 0),
        ("0:", ':', 1),
        ("@A", '@', 0),
        ("F`", '`', 1),
    ] {
        let iter = HexToBytesIter::new(text).unwrap();
        assert_eq!(iter.drain_to_vec(), Err(utf8(c, pos)));
    }
}

#[test]
fn from_the_back_comes_the_last_bad_character() {
    for (text, skip, c, pos) in [
        ("g2345h78", 1, 'h', 5),
        ("«»", 0, '»', 3),
        ("a🚀bcd", 1, '🚀', 4),
        ("ab🚀cd", 1, '🚀', 5),
        ("☺abc☺de☺f0", 1, '☺', 13),
    ] {
        let mut iter = HexToBytesIter::new(text).unwrap();
        let mut bytes = 0;
        let error = loop {
            match iter.next_back() {
                Some(Ok(_)) => bytes += 1,
                Some(Err(e)) => break e,
                None => unreachable!(),
            }
        };
        assert_eq!(error, utf8(c, pos));
        assert_eq!(bytes, skip);
    }
}

#[test]
fn broken_characters_are_bytes() {
    // a character that is cut off
    assert_eq!(pairs(&[0xe2, 0x98]).next(), Some(Err(other(0xe2, 0))));
    assert_eq!(pairs(b"a\xf0").next(), Some(Err(other(0xf0, 1))));
    // bytes that begin none
    assert_eq!(pairs(b"\x80a").next(), Some(Err(other(0x80, 0))));
    assert_eq!(pairs(b"\xc1\x81").next(), Some(Err(other(0xc1, 0))));
    assert_eq!(pairs(b"a\xf5\x80\x80\x80a").next(), Some(Err(other(0xf5, 1))));
    // an encoded surrogate, and an encoding that is longer than need be
    assert_eq!(pairs(b"\xed\xa0\x80a").next(), Some(Err(other(0xed, 0))));
    assert_eq!(pairs(b"\xe0\x80\x80a").next(), Some(Err(other(0xe0, 0))));
    // a good character, and then a bad byte within the pairs that were read
    assert_eq!(pairs(b"\xe2\x98\xba\xff").next(), Some(Err(utf8('☺', 0))));
    // a character of four bytes that takes three pairs
    let mut iter = pairs("a🚀b0c".as_bytes());
    assert_eq!(iter.next(), Some(Err(utf8('🚀', 1))));
    assert_eq!(iter.next(), Some(Ok(0x0c)));
    assert_eq!(iter.next(), None);
}

#[test]
fn broken_characters_are_bytes_from_the_back() {
    // nothing but bytes that continue a character
    assert_eq!(pairs(b"\x98\xba").next_back(), Some(Err(other(0xba, 1))));
    // more of them than a character can have
    let mut iter = pairs(b"ab\xe2\x80\x80\x80\x80\x80");
    assert_eq!(iter.next_back(), Some(Err(other(0x80, 7))));
    assert_eq!(iter.len(), 1);
    let mut iter = pairs(b"ab\xe2\x80\x80\x80\x800");
    assert_eq!(iter.next_back(), Some(Err(other(0x80, 6))));
    assert_eq!(iter.len(), 1);
    // no character begins with a hex digit
    let mut iter = pairs(b"abcd\x80\x80");
    assert_eq!(iter.next_back(), Some(Err(other(0x80, 5))));
    assert_eq!(iter.next_back(), Some(Ok(0xab)));
    // three bytes that are none
    assert_eq!(pairs(b"a\xed\xa0\x80").next_back(), Some(Err(other(0x80, 3))));
    // a character of four bytes that takes three pairs
    let mut iter = pairs("ab0🚀c".as_bytes());
    assert_eq!(iter.next_back(), Some(Err(utf8('🚀', 6))));
    assert_eq!(iter.next_back(), Some(Ok(0xab)));
    assert_eq!(iter.next_back(), None);
}

#[test]
fn torn_pairs_are_given_back() {
    let mut iter = pairs(b"abc\x80");
    assert_eq!(iter.next_back_checked(), Err(*b"c\x80"));
    assert_eq!(iter.next_back_checked(), Ok(Some(Ok(0xab))));
    assert_eq!(iter.next_back_checked(), Ok(None));
    assert_eq!(pairs(b"zz").next_back_checked(), Ok(Some(Err(utf8('z', 1)))));
}

#[test]
fn both_ends_meet() {
    let mut iter = HexToBytesIter::new("0a1b2c3d").unwrap();
    assert_eq!(iter.next(), Some(Ok(0x0a)));
    assert_eq!(iter.next_back(), Some(Ok(0x3d)));
    assert_eq!(iter.len(), 2);
    assert_eq!(iter.next_back(), Some(Ok(0x2c)));
    assert_eq!(iter.next(), Some(Ok(0x1b)));
    assert_eq!(iter.next(), None);
    assert_eq!(iter.next_back(), None);
}

#[test]
fn positions_count_what_was_read() {
    let mut iter = HexToBytesIter::new("0a1g2h3d").unwrap();
    assert_eq!(iter.next(), Some(Ok(0x0a)));
    assert_eq!(iter.next(), Some(Err(utf8('g', 3))));

    // what was read from the other end counts as well
    let mut iter = HexToBytesIter::new("0g1b2c3d").unwrap();
    assert_eq!(iter.next_back(), Some(Ok(0x3d)));
    assert_eq!(iter.next(), Some(Err(utf8('g', 3))));
    let mut iter = HexToBytesIter::new("0a1b2h3d").unwrap();
    assert_eq!(iter.next(), Some(Ok(0x0a)));
    assert_eq!(iter.next_back(), Some(Ok(0x3d)));
    assert_eq!(iter.next_back(), Some(Err(utf8('h', 3))));
}

#[test]
fn nth_skips_pairs() {
    let mut iter = HexToBytesIter::new("0a1b2c3d4e5f").unwrap();
    assert_eq!(iter.nth(1), Some(Ok(0x1b)));
    assert_eq!(iter.nth(0), Some(Ok(0x2c)));
    assert_eq!(iter.nth_back(1), Some(Ok(0x4e)));
    assert_eq!(iter.len(), 1);
    assert_eq!(iter.nth(1), None);
    assert_eq!(iter.next(), None);

    let mut iter = HexToBytesIter::new("0a1b2c3d").unwrap();
    assert_eq!(iter.nth_back(usize::MAX), None);
    assert_eq!(iter.len(), 0);
    let mut iter = HexToBytesIter::new("0a1b2c3d").unwrap();
    assert_eq!(iter.nth(usize::MAX), None);
    assert_eq!(iter.len(), 0);
}

#[test]
fn nth_agrees_with_next_on_ascii() {
    let text = "0a-b2+3d";
    for n in 0..4 {
        let mut whole = HexToBytesIter::new(text).unwrap();
        let want = (0..=n).map(|_| whole.next()).last().unwrap();
        assert_eq!(HexToBytesIter::new(text).unwrap().nth(n), want);

        let mut whole = HexToBytesIter::new(text).unwrap();
        let want = (0..=n).map(|_| whole.next_back()).last().unwrap();
        assert_eq!(HexToBytesIter::new(text).unwrap().nth_back(n), want);
    }
    assert_eq!(HexToBytesIter::new(text).unwrap().nth(1), Some(Err(utf8('-', 2))));
    assert_eq!(HexToBytesIter::new(text).unwrap().nth(2), Some(Err(utf8('+', 5))));
    assert_eq!(HexToBytesIter::new(text).unwrap().nth_back(1), Some(Err(utf8('+', 5))));
}

#[test]
fn nth_judges_a_pair_by_itself() {
    assert_eq!(HexToBytesIter::new("ab☺c").unwrap().nth(1), Some(Err(utf8('â', 2))));
    assert_eq!(HexToBytesIter::new("ab☺c").unwrap().nth_back(1), Some(Err(utf8('â', 2))));
    assert_eq!(HexToBytesIter::new("ab0«").err(), Some(OddLengthStringError { len: 5 }));
    assert_eq!(HexToBytesIter::new("ab0«c").unwrap().nth_back(1), Some(Err(utf8('Â', 3))));
    // of two wrong characters, `nth_back` names the first
    assert_eq!(HexToBytesIter::new("xy").unwrap().nth_back(0), Some(Err(utf8('x', 0))));
    assert_eq!(HexToBytesIter::new("xy").unwrap().next_back(), Some(Err(utf8('y', 1))));
}

#[test]
fn read_fills_what_it_can() {
    let mut iter = HexToBytesIter::new("0a1b2c3d4e").unwrap();
    let mut buf = [0xff; 2];
    assert_eq!(iter.read(&mut buf), 2);
    assert_eq!(buf, [0x0a, 0x1b]);
    let mut buf = [0xff; 4];
    assert_eq!(iter.read(&mut buf), 3);
    assert_eq!(buf, [0x2c, 0x3d, 0x4e, 0xff]);
    assert_eq!(iter.read(&mut buf), 0);
    assert_eq!(iter.read(&mut []), 0);

    let mut iter = HexToBytesIter::new("0a☺f3d").unwrap();
    let mut buf = [0xff; 4];
    assert_eq!(iter.read(&mut buf), 1);
    assert_eq!(buf, [0x0a, 0xff, 0xff, 0xff]);
    assert_eq!(iter.read(&mut buf), 1);
    assert_eq!(buf, [0x3d, 0xff, 0xff, 0xff]);
}

#[test]
fn digits_come_in_pairs() {
    let mut digits = HexDigitsIter::new_unchecked(b"abcdefghijk");
    assert_eq!(digits.len(), 5);
    assert_eq!(digits.pairs_left(), 5);
    assert_eq!(digits.next(), Some(*b"ab"));
    assert_eq!(digits.next_back(), Some(*b"ij"));
    assert_eq!(digits.size_hint(), (3, Some(3)));
    assert_eq!(digits.nth(1), Some(*b"ef"));
    assert_eq!(digits.nth_back(0), Some(*b"gh"));
    assert_eq!(digits.next(), None);
    assert_eq!(digits.next_back(), None);

    let mut digits = HexDigitsIter::new_unchecked(b"abcdef");
    assert_eq!(digits.nth_back(1), Some(*b"cd"));
    assert_eq!(digits.nth_back(1), None);
    assert_eq!(digits.next(), None);
    let mut digits = HexDigitsIter::new_unchecked(b"abcdef");
    assert_eq!(digits.nth(3), None);
    assert_eq!(digits.pairs_left(), 0);
}

#[test]
fn characters_of_a_byte_keep_their_order() {
    let bytes = [0x01, 0x23, 0x45];
    let text: String = BytesToHexIter::new(bytes.iter(), Case::Lower).rev().collect();
    assert_eq!(text, "452301");

    let mut iter = BytesToHexIter::new(bytes.iter(), Case::Lower);
    assert_eq!(iter.next(), Some('0'));
    assert_eq!(iter.next_back(), Some('1'));
    assert_eq!(iter.next_back(), Some('4'));
    assert_eq!(iter.next(), Some('5'));
    assert_eq!(iter.next(), Some('2'));
    assert_eq!(iter.next(), Some('3'));
    assert_eq!(iter.next(), None);
    assert_eq!(iter.next_back(), None);
}

#[test]
fn characters_are_counted() {
    let bytes = vec![0xab, 0xcd];
    let mut iter = BytesToHexIter::new(bytes.into_iter(), Case::Upper);
    assert_eq!(iter.size_hint(), (4, Some(4)));
    assert_eq!(iter.len(), 4);
    assert_eq!(iter.next(), Some('A'));
    assert_eq!(iter.size_hint(), (3, Some(3)));
    assert_eq!(iter.len(), 2);
    assert_eq!(iter.next(), Some('B'));
    assert_eq!(iter.size_hint(), (2, Some(2)));
    assert_eq!(iter.collect::<String>(), "CD");
}

#[test]
fn hints_are_those_of_the_source() {
    let bytes = [1u8, 2, 3, 4];
    let mut iter = BytesToHexIter::new(bytes.iter().filter(|b| **b > 2), Case::Lower);
    assert_eq!(iter.size_hint(), (0, Some(8)));
    assert_eq!(iter.next(), Some('0'));
    assert_eq!(iter.size_hint(), (1, Some(3)));
    let endless = BytesToHexIter::new(bytes.iter().cycle(), Case::Lower);
    assert_eq!(endless.size_hint(), (usize::MAX, None));
}

fn last_of<I: FusedIterator<Item = char>>(mut iter: I) -> Option<char> {
    while iter.next().is_some() {}
    iter.next()
}

#[test]
fn characters_end_for_good() {
    assert_eq!(last_of(BytesToHexIter::new([0x0fu8].iter(), Case::Lower)), None);
}

#[test]
fn a_full_encoder_takes_no_byte() {
    let mut encoder = BufEncoder::<6>::new(Case::Lower);
    let mut n = 0u8;
    while !encoder.is_full() {
        encoder.put_byte(n);
        n += 1;
    }
    assert_eq!(encoder.as_str(), "000102");
}

#[test]
fn hints_beyond_the_word_are_cut_off() {
    assert_eq!(hex_size_hint(3, None, false), (6, None));
    assert_eq!(hex_size_hint(0, Some(4), true), (1, Some(9)));
    let half = usize::MAX / 2;
    assert_eq!(hex_len(3), 6);
    assert_eq!(hex_len(half), usize::MAX - 1);
    assert_eq!(hex_len(half + 1), usize::MAX);
    assert_eq!(hex_size_hint(half, Some(half), true), (usize::MAX, Some(usize::MAX)));
    assert_eq!(hex_size_hint(half + 1, Some(half + 1), false), (usize::MAX, None));
}

#[test]
fn bytes_and_references_are_bytes() {
    assert_eq!(0x7fu8.to_byte(), 0x7f);
    assert_eq!((&0x80u8).to_byte(), 0x80);
    let owned: String = BytesToHexIter::new(vec![0x10, 0xfe].into_iter(), Case::Lower).collect();
    let borrowed: String = BytesToHexIter::new([0x10, 0xfe].iter(), Case::Lower).collect();
    assert_eq!(owned, "10fe");
    assert_eq!(borrowed, "10fe");
}

#[test]
fn pairs_need_not_be_a_string() {
    let mut iter = pairs(b"0a1-2c");
    assert_eq!(iter.size_hint(), (3, Some(3)));
    assert_eq!(iter.next(), Some(Ok(0x0a)));
    assert_eq!(iter.next(), Some(Err(utf8('-', 3))));
    assert_eq!(iter.nth(0), Some(Ok(0x2c)));
    assert_eq!(iter.next(), None);
}
