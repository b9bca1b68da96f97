use hex_conservative::{
    BytesToHexIter, Case, HexDigitsIter, HexSliceToBytesIter, HexToBytesIter, InvalidChar,
    InvalidCharError, Table,
};

/// The same bytes, taken from the other end.
struct Reversed<'a>(HexSliceToBytesIter<'a>);

impl<'a> Iterator for Reversed<'a> {
    type Item = Result<u8, InvalidCharError>;

    fn next(&mut self) -> Option<Self::Item> {
        self.0.next_back()
    }
}

impl<'a> DoubleEndedIterator for Reversed<'a> {
    fn next_back(&mut self) -> Option<Self::Item> {
        self.0.next()
    }
}

fn rev(iter: HexSliceToBytesIter<'_>) -> Reversed<'_> {
    Reversed(iter)
}

#[test]
fn encode_byte() {
    assert_eq!(Table::LOWER.byte_to_chars(0x00), ['0', '0']);
    assert_eq!(Table::LOWER.byte_to_chars(0x0a), ['0', 'a']);
    assert_eq!(Table::LOWER.byte_to_chars(0xad), ['a', 'd']);
    assert_eq!(Table::LOWER.byte_to_chars(0xff), ['f', 'f']);

    assert_eq!(Table::UPPER.byte_to_chars(0x00), ['0', '0']);
    assert_eq!(Table::UPPER.byte_to_chars(0x0a), ['0', 'A']);
    assert_eq!(Table::UPPER.byte_to_chars(0xad), ['A', 'D']);
    assert_eq!(Table::UPPER.byte_to_chars(0xff), ['F', 'F']);

    let mut buf = [0u8; 2];
    assert_eq!(Table::LOWER.byte_to_str(&mut buf, 0x00), "00");
    assert_eq!(Table::LOWER.byte_to_str(&mut buf, 0x0a), "0a");
    assert_eq!(Table::LOWER.byte_to_str(&mut buf, 0xad), "ad");
    assert_eq!(Table::LOWER.byte_to_str(&mut buf, 0xff), "ff");

    assert_eq!(Table::UPPER.byte_to_str(&mut buf, 0x00), "00");
    assert_eq!(Table::UPPER.byte_to_str(&mut buf, 0x0a), "0A");
    assert_eq!(Table::UPPER.byte_to_str(&mut buf, 0xad), "AD");
    assert_eq!(Table::UPPER.byte_to_str(&mut buf, 0xff), "FF");
}

#[test]
fn decode_iter_forward() {
    let hex = "deadbeef";
    let bytes = [0xde, 0xad, 0xbe, 0xef];

    for (i, b) in HexToBytesIter::new(hex).unwrap().enumerate() {
        assert_eq!(b.unwrap(), bytes[i]);
    }

    let mut iter = HexToBytesIter::new(hex).unwrap();
    for i in (0..=bytes.len()).rev() {
        assert_eq!(iter.len(), i);
        let _ = iter.next();
    }
}

#[test]
fn decode_iter_backward() {
    let hex = "deadbeef";
    let bytes = [0xef, 0xbe, 0xad, 0xde];

    for (i, b) in rev(HexToBytesIter::new(hex).unwrap()).enumerate() {
        assert_eq!(b.unwrap(), bytes[i]);
    }

    let mut iter = HexToBytesIter::new(hex).unwrap();
    for i in (0..=bytes.len()).rev() {
        assert_eq!(iter.len(), i);
        let _ = iter.next_back();
    }
}

#[test]
fn hex_to_digits_size_hint() {
    let hex = "deadbeef";
    let iter = HexDigitsIter::new_unchecked(hex.as_bytes());
    // HexDigitsIter yields two digits at a time `[u8; 2]`.
    assert_eq!(iter.size_hint(), (4, Some(4)));
}

#[test]
fn hex_to_bytes_size_hint() {
    let hex = "deadbeef";
    let iter = HexToBytesIter::new_unchecked(hex);
    assert_eq!(iter.size_hint(), (4, Some(4)));
}

#[test]
fn hex_to_bytes_slice_drain() {
    let hex = "deadbeef";
    let want = [0xde, 0xad, 0xbe, 0xef];
    let iter = HexToBytesIter::new_unchecked(hex);
    let mut got = [0u8; 4];
    iter.drain_to_slice(&mut got).unwrap();
    assert_eq!(got, want);

    let hex = "";
    let want: [u8; 0] = [];
    let iter = HexToBytesIter::new_unchecked(hex);
    let mut got: [u8; 0] = [];
    iter.drain_to_slice(&mut got).unwrap();
    assert_eq!(got, want);
}

#[test]
fn hex_to_bytes_slice_drain_first_char_error() {
    let hex = "geadbeef";
    let iter = HexToBytesIter::new_unchecked(hex);
    let mut got = [0u8; 4];
    assert_eq!(
        iter.drain_to_slice(&mut got),
        Err(InvalidCharError { invalid: InvalidChar::Utf8('g'), pos: 0 })
    );
}

#[test]
fn hex_to_bytes_slice_drain_middle_char_error() {
    let hex = "deadgeef";
    let iter = HexToBytesIter::new_unchecked(hex);
    let mut got = [0u8; 4];
    assert_eq!(
        iter.drain_to_slice(&mut got),
        Err(InvalidCharError { invalid: InvalidChar::Utf8('g'), pos: 4 })
    );
}

#[test]
fn hex_to_bytes_slice_drain_end_char_error() {
    let hex = "deadbeeg";
    let iter = HexToBytesIter::new_unchecked(hex);
    let mut got = [0u8; 4];
    assert_eq!(
        iter.drain_to_slice(&mut got),
        Err(InvalidCharError { invalid: InvalidChar::Utf8('g'), pos: 7 })
    );
}

#[test]
fn hex_to_bytes_vec_drain() {
    let hex = "deadbeef";
    let want = [0xde, 0xad, 0xbe, 0xef];
    let iter = HexToBytesIter::new_unchecked(hex);
    let got = iter.drain_to_vec().unwrap();
    assert_eq!(got, want);

    let hex = "";
    let iter = HexToBytesIter::new_unchecked(hex);
    let got = iter.drain_to_vec().unwrap();
    assert!(got.is_empty());
}

#[test]
fn hex_to_bytes_vec_drain_first_char_error() {
    let hex = "geadbeef";
    let iter = HexToBytesIter::new_unchecked(hex);
    assert_eq!(
        iter.drain_to_vec(),
        Err(InvalidCharError { invalid: InvalidChar::Utf8('g'), pos: 0 })
    );
}

#[test]
fn hex_to_bytes_vec_drain_middle_char_error() {
    let hex = "deadgeef";
    let iter = HexToBytesIter::new_unchecked(hex);
    assert_eq!(
        iter.drain_to_vec(),
        Err(InvalidCharError { invalid: InvalidChar::Utf8('g'), pos: 4 })
    );
}

#[test]
fn hex_to_bytes_vec_drain_end_char_error() {
    let hex = "deadbeeg";
    let iter = HexToBytesIter::new_unchecked(hex);
    assert_eq!(
        iter.drain_to_vec(),
        Err(InvalidCharError { invalid: InvalidChar::Utf8('g'), pos: 7 })
    );
}

#[test]
fn encode_iter() {
    let bytes = [0xde, 0xad, 0xbe, 0xef];
    let lower_want = "deadbeef";
    let upper_want = "DEADBEEF";

    for (i, c) in BytesToHexIter::new(bytes.iter(), Case::Lower).enumerate() {
        assert_eq!(c, lower_want.chars().nth(i).unwrap());
    }
    for (i, c) in BytesToHexIter::new(bytes.iter(), Case::Upper).enumerate() {
        assert_eq!(c, upper_want.chars().nth(i).unwrap());
    }
}

#[test]
fn encode_iter_backwards() {
    let bytes = [0xde, 0xad, 0xbe, 0xef];
    let lower_want = "efbeadde";
    let upper_want = "EFBEADDE";

    for (i, c) in BytesToHexIter::new(bytes.iter(), Case::Lower).rev().enumerate() {
        assert_eq!(c, lower_want.chars().nth(i).unwrap());
    }
    for (i, c) in BytesToHexIter::new(bytes.iter(), Case::Upper).rev().enumerate() {
        assert_eq!(c, upper_want.chars().nth(i).unwrap());
    }
}

#[test]
fn roundtrip_forward() {
    let lower_want = "deadbeefcafebabe";
    let upper_want = "DEADBEEFCAFEBABE";
    let lower_bytes_iter = HexToBytesIter::new(lower_want).unwrap().map(|res| res.unwrap());
    let lower_got = BytesToHexIter::new(lower_bytes_iter, Case::Lower).collect::<String>();
    assert_eq!(lower_got, lower_want);
    let upper_bytes_iter = HexToBytesIter::new(upper_want).unwrap().map(|res| res.unwrap());
    let upper_got = BytesToHexIter::new(upper_bytes_iter, Case::Upper).collect::<String>();
    assert_eq!(upper_got, upper_want);
}

#[test]
fn roundtrip_backward() {
    let lower_want = "deadbeefcafebabe";
    let upper_want = "DEADBEEFCAFEBABE";
    let lower_bytes_iter = rev(HexToBytesIter::new(lower_want).unwrap()).map(|res| res.unwrap());
    let lower_got = BytesToHexIter::new(lower_bytes_iter, Case::Lower).rev().collect::<String>();
    assert_eq!(lower_got, lower_want);
    let upper_bytes_iter = rev(HexToBytesIter::new(upper_want).unwrap()).map(|res| res.unwrap());
    let upper_got = BytesToHexIter::new(upper_bytes_iter, Case::Upper).rev().collect::<String>();
    assert_eq!(upper_got, upper_want);
}

#[test]
fn decode_iter_multi_byte_utf8_error_even_position() {
    // 2 byte utf8
    let badchar1 = "«23456789abcdef";
    let iter = HexToBytesIter::new(badchar1).unwrap();
    for i in iter {
        match i {
            Ok(_) => (),
            Err(e) =>
                assert_eq!(e, InvalidCharError { pos: 0, invalid: InvalidChar::Utf8('«') }),
        }
    }

    // 3 byte utf8
    let badchar2 = "12☺456789abcde";
    let iter = HexToBytesIter::new(badchar2).unwrap();
    for i in iter {
        match i {
            Ok(_) => (),
            Err(e) =>
                assert_eq!(e, InvalidCharError { pos: 2, invalid: InvalidChar::Utf8('☺') }),
        }
    }

    // 4 byte utf8
    let badchar3 = "123456789abcde🚀";
    let iter = HexToBytesIter::new(badchar3).unwrap();
    for i in iter {
        match i {
            Ok(_) => (),
            Err(e) =>
                assert_eq!(e, InvalidCharError { pos: 14, invalid: InvalidChar::Utf8('🚀') }),
        }
    }
}

#[test]
fn decode_iter_multi_byte_utf8_error_odd_position() {
    // 2 byte utf8
    let badchar1 = "1«3456789abcdef";
    let iter = HexToBytesIter::new(badchar1).unwrap();
    for i in iter {
        match i {
            Ok(_) => (),
            Err(e) =>
                assert_eq!(e, InvalidCharError { pos: 1, invalid: InvalidChar::Utf8('«') }),
        }
    }

    // 3 byte utf8
    let badchar2 = "123☺56789abcde";
    let iter = HexToBytesIter::new(badchar2).unwrap();
    for i in iter {
        match i {
            Ok(_) => (),
            Err(e) =>
                assert_eq!(e, InvalidCharError { pos: 3, invalid: InvalidChar::Utf8('☺') }),
        }
    }

    // 4 byte utf8
    let badchar3 = "123456789abcd🚀f";
    let iter = HexToBytesIter::new(badchar3).unwrap();
    for i in iter {
        match i {
            Ok(_) => (),
            Err(e) =>
                assert_eq!(e, InvalidCharError { pos: 13, invalid: InvalidChar::Utf8('🚀') }),
        }
    }
}

#[test]
fn decode_iter_rev_multi_byte_utf8_error_even_position() {
    // 2 byte utf8
    let badchar1 = "«23456789abcdef";
    let iter = rev(HexToBytesIter::new(badchar1).unwrap());
    for i in iter {
        match i {
            Ok(_) => (),
            Err(e) =>
                assert_eq!(e, InvalidCharError { pos: 1, invalid: InvalidChar::Utf8('«') }),
        }
    }

    // 3 byte utf8
    let badchar2 = "12☺456789abcde";
    let iter = rev(HexToBytesIter::new(badchar2).unwrap());
    for i in iter {
        match i {
            Ok(_) => (),
            Err(e) =>
                assert_eq!(e, InvalidCharError { pos: 4, invalid: InvalidChar::Utf8('☺') }),
        }
    }

    // 4 byte utf8
    let badchar3 = "123456789abcde🚀";
    let iter = rev(HexToBytesIter::new(badchar3).unwrap());
    for i in iter {
        match i {
            Ok(_) => (),
            Err(e) =>
                assert_eq!(e, InvalidCharError { pos: 17, invalid: InvalidChar::Utf8('🚀') }),
        }
    }
}

#[test]
fn decode_iter_rev_multi_byte_utf8_error_odd_position() {
    // 2 byte utf8
    let badchar1 = "1«3456789abcdef";
    let iter = rev(HexToBytesIter::new(badchar1).unwrap());
    for i in iter {
        match i {
            Ok(_) => (),
            Err(e) =>
                assert_eq!(e, InvalidCharError { pos: 2, invalid: InvalidChar::Utf8('«') }),
        }
    }

    // 3 byte utf8
    let badchar2 = "123☺56789abcde";
    let iter = rev(HexToBytesIter::new(badchar2).unwrap());
    for i in iter {
        match i {
            Ok(_) => (),
            Err(e) =>
                assert_eq!(e, InvalidCharError { pos: 5, invalid: InvalidChar::Utf8('☺') }),
        }
    }

    // 4 byte utf8
    let badchar3 = "123456789abcd🚀f";
    let iter = rev(HexToBytesIter::new(badchar3).unwrap());
    for i in iter {
        match i {
            Ok(_) => (),
            Err(e) =>
                assert_eq!(e, InvalidCharError { pos: 16, invalid: InvalidChar::Utf8('🚀') }),
        }
    }
}

#[test]
fn test_utf8() {
    let iter = HexDigitsIter::new_unchecked(b"abcd");
    let mut iter = HexToBytesIter::from_pairs(iter);
    assert_eq!(iter.next(), Some(Ok(0xab)));
    assert_eq!(iter.next(), Some(Ok(0xcd)));
    assert_eq!(iter.next(), None);
}

#[test]
fn test_utf8_errors() {
    // multi byte valid utf8 that starts at odd position and is even, then 0xff
    let iter = HexDigitsIter::new_unchecked(&[0x32, 0xc2, 0xab, 0xff]);
    let mut iter = HexToBytesIter::from_pairs(iter);
    assert_eq!(
        iter.next(),
        Some(Err(InvalidCharError { invalid: InvalidChar::Utf8('«'), pos: 1 }))
    );
    assert_eq!(iter.next(), None);

    // No more continuation
    let iter = HexDigitsIter::new_unchecked(&[0x32, 0xc2, 0x32, 0x32]);
    let mut iter = HexToBytesIter::from_pairs(iter);
    assert_eq!(
        iter.next(),
        Some(Err(InvalidCharError { invalid: InvalidChar::Other(0xc2), pos: 1 }))
    );
    assert_eq!(iter.next(), None);

    // high is not hex, low is ascii
    let iter = HexDigitsIter::new_unchecked(&[0xff, 0x7a]);
    let mut iter = rev(HexToBytesIter::from_pairs(iter));
    assert_eq!(
        iter.next(),
        Some(Err(InvalidCharError { invalid: InvalidChar::Utf8('z'), pos: 1 }))
    );
    assert_eq!(iter.next(), None);

    // high is not hex, low is continuation
    let iter = HexDigitsIter::new_unchecked(&[0xc2, 0xab]);
    let mut iter = rev(HexToBytesIter::from_pairs(iter));
    assert_eq!(
        iter.next(),
        Some(Err(InvalidCharError { invalid: InvalidChar::Utf8('«'), pos: 1 }))
    );
    assert_eq!(iter.next(), None);

    // high is not hex, low is not ascii, not continuation
    let iter = HexDigitsIter::new_unchecked(&[0xff, 0xe0]);
    let mut iter = rev(HexToBytesIter::from_pairs(iter));
    assert_eq!(
        iter.next(),
        Some(Err(InvalidCharError { invalid: InvalidChar::Other(0xe0), pos: 1 }))
    );
    assert_eq!(iter.next(), None);

    // high is ascii, low is hex
    let iter = HexDigitsIter::new_unchecked(&[0x7a, 0x32]);
    let mut iter = rev(HexToBytesIter::from_pairs(iter));
    assert_eq!(
        iter.next(),
        Some(Err(InvalidCharError { invalid: InvalidChar::Utf8('z'), pos: 0 }))
    );
    assert_eq!(iter.next(), None);

    // high is continuation, low is hex
    let iter = HexDigitsIter::new_unchecked(&[0x32, 0xc2, 0xab, 0x32]);
    let mut iter = rev(HexToBytesIter::from_pairs(iter));
    assert_eq!(
        iter.next(),
        Some(Err(InvalidCharError { invalid: InvalidChar::Utf8('«'), pos: 2 }))
    );
    assert_eq!(iter.next(), None);

    // high is else, low is hex
    let iter = HexDigitsIter::new_unchecked(&[0xff, 0x32]);
    let mut iter = rev(HexToBytesIter::from_pairs(iter));
    assert_eq!(
        iter.next(),
        Some(Err(InvalidCharError { invalid: InvalidChar::Other(0xff), pos: 0 }))
    );
    assert_eq!(iter.next(), None);

    // high is hex, low is ascii
    let iter = HexDigitsIter::new_unchecked(&[0x32, 0x7a]);
    let mut iter = rev(HexToBytesIter::from_pairs(iter));
    assert_eq!(
        iter.next(),
        Some(Err(InvalidCharError { invalid: InvalidChar::Utf8('z'), pos: 1 }))
    );
    assert_eq!(iter.next(), None);

    // high is hex, low is else
    let iter = HexDigitsIter::new_unchecked(&[0x32, 0xff]);
    let mut iter = rev(HexToBytesIter::from_pairs(iter));
    assert_eq!(
        iter.next(),
        Some(Err(InvalidCharError { invalid: InvalidChar::Other(0xff), pos: 1 }))
    );
    assert_eq!(iter.next(), None);
}
