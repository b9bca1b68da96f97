use hex_conservative::{BufEncoder, BytesToHexIter, Case};

#[test]
fn empty() {
    let encoder = BufEncoder::<2>::new(Case::Lower);
    assert_eq!(encoder.as_str(), "");
    assert!(!encoder.is_full());

    let encoder = BufEncoder::<2>::new(Case::Upper);
    assert_eq!(encoder.as_str(), "");
    assert!(!encoder.is_full());
}

#[test]
fn single_byte_exact_buf() {
    let mut encoder = BufEncoder::<2>::new(Case::Lower);
    assert_eq!(encoder.space_remaining(), 1);
    encoder.put_byte(42);
    assert_eq!(encoder.as_str(), "2a");
    assert_eq!(encoder.space_remaining(), 0);
    assert!(encoder.is_full());
    encoder.clear();
    assert_eq!(encoder.space_remaining(), 1);
    assert!(!encoder.is_full());

    let mut encoder = BufEncoder::<2>::new(Case::Upper);
    assert_eq!(encoder.space_remaining(), 1);
    encoder.put_byte(42);
    assert_eq!(encoder.as_str(), "2A");
    assert_eq!(encoder.space_remaining(), 0);
    assert!(encoder.is_full());
    encoder.clear();
    assert_eq!(encoder.space_remaining(), 1);
    assert!(!encoder.is_full());
}

#[test]
fn single_byte_oversized_buf() {
    let mut encoder = BufEncoder::<4>::new(Case::Lower);
    assert_eq!(encoder.space_remaining(), 2);
    encoder.put_byte(42);
    assert_eq!(encoder.space_remaining(), 1);
    assert_eq!(encoder.as_str(), "2a");
    assert!(!encoder.is_full());
    encoder.clear();
    assert_eq!(encoder.space_remaining(), 2);
    assert!(!encoder.is_full());

    let mut encoder = BufEncoder::<4>::new(Case::Upper);
    assert_eq!(encoder.space_remaining(), 2);
    encoder.put_byte(42);
    assert_eq!(encoder.space_remaining(), 1);
    assert_eq!(encoder.as_str(), "2A");
    assert!(!encoder.is_full());
    encoder.clear();
    assert_eq!(encoder.space_remaining(), 2);
    assert!(!encoder.is_full());
}

#[test]
fn two_bytes() {
    let mut encoder = BufEncoder::<4>::new(Case::Lower);
    assert_eq!(encoder.space_remaining(), 2);
    encoder.put_byte(42);
    assert_eq!(encoder.space_remaining(), 1);
    encoder.put_byte(255);
    assert_eq!(encoder.space_remaining(), 0);
    assert_eq!(encoder.as_str(), "2aff");
    assert!(encoder.is_full());
    encoder.clear();
    assert_eq!(encoder.space_remaining(), 2);
    assert!(!encoder.is_full());

    let mut encoder = BufEncoder::<4>::new(Case::Upper);
    assert_eq!(encoder.space_remaining(), 2);
    encoder.put_byte(42);
    assert_eq!(encoder.space_remaining(), 1);
    encoder.put_byte(255);
    assert_eq!(encoder.space_remaining(), 0);
    assert_eq!(encoder.as_str(), "2AFF");
    assert!(encoder.is_full());
    encoder.clear();
    assert_eq!(encoder.space_remaining(), 2);
    assert!(!encoder.is_full());
}

#[test]
fn put_bytes_min() {
    let mut encoder = BufEncoder::<2>::new(Case::Lower);
    let remainder = encoder.put_bytes_min(b"");
    assert_eq!(remainder, b"");
    assert_eq!(encoder.as_str(), "");
    let remainder = encoder.put_bytes_min(b"*");
    assert_eq!(remainder, b"");
    assert_eq!(encoder.as_str(), "2a");
    encoder.clear();
    let remainder = encoder.put_bytes_min(&[42, 255]);
    assert_eq!(remainder, &[255]);
    assert_eq!(encoder.as_str(), "2a");
}

#[test]
fn same_as_fmt() {
    let mut encoder = BufEncoder::<2>::new(Case::Lower);
    for i in 0..=255u8 {
        encoder.put_byte(i);
        assert_eq!(encoder.as_str(), format!("{:02x}", i));
        encoder.clear();
    }

    let mut encoder = BufEncoder::<2>::new(Case::Upper);
    for i in 0..=255u8 {
        encoder.put_byte(i);
        assert_eq!(encoder.as_str(), format!("{:02X}", i));
        encoder.clear();
    }
}

#[test]
fn put_bytes_appends_all() {
    let bytes = [0x00, 0x9f, 0xde];
    let mut encoder = BufEncoder::<10>::new(Case::Lower);
    encoder.put_byte(0x7a);
    encoder.put_bytes(bytes.iter());
    assert_eq!(encoder.as_str(), "7a009fde");
    assert_eq!(encoder.space_remaining(), 1);

    let mut encoder = BufEncoder::<6>::new(Case::Upper);
    encoder.put_bytes(bytes.to_vec().into_iter());
    assert_eq!(encoder.as_str(), "009FDE");
    assert!(encoder.is_full());
}

#[test]
fn put_bytes_writes_what_the_iterator_yields() {
    let bytes: Vec<u8> = (0..=255u8).collect();
    let mut encoder = BufEncoder::<512>::new(Case::Upper);
    encoder.put_bytes(bytes.iter());
    let text: String = BytesToHexIter::new(bytes.iter(), Case::Upper).collect();
    assert_eq!(encoder.as_str(), text);
    assert!(encoder.is_full());
}

#[test]
fn odd_capacity_leaves_a_byte_unused() {
    let mut encoder = BufEncoder::<3>::new(Case::Lower);
    assert_eq!(encoder.space_remaining(), 1);
    let rest = encoder.put_bytes_min(&[1, 2]);
    assert_eq!(rest, &[2]);
    assert_eq!(encoder.as_str(), "01");
    assert!(encoder.is_full());

    let encoder = BufEncoder::<0>::new(Case::Lower);
    assert!(encoder.is_full());
    assert_eq!(encoder.as_str(), "");
}

#[test]
fn chunks_give_the_whole_text() {
    let bytes: Vec<u8> = (0..23u8).map(|i| i.wrapping_mul(37)).collect();
    let mut encoder = BufEncoder::<8>::new(Case::Lower);
    let mut text = String::new();
    let mut rest = bytes.as_slice();
    while !rest.is_empty() {
        rest = encoder.put_bytes_min(rest);
        assert!(rest.is_empty() || encoder.is_full());
        text.push_str(encoder.as_str());
        encoder.clear();
    }
    let want: String = bytes.iter().map(|b| format!("{:02x}", b)).collect();
    assert_eq!(text, want);
}

#[test]
fn default_is_lower_case() {
    let mut encoder = BufEncoder::<2>::default();
    assert_eq!(encoder.as_str(), "");
    encoder.put_byte(0xab);
    assert_eq!(encoder.as_str(), "ab");
}

#[test]
fn filler_is_cut_to_what_fits() {
    let mut encoder = BufEncoder::<6>::new(Case::Lower);
    encoder.put_byte(0xc3);
    assert_eq!(encoder.put_filler(' ', 3), 3);
    assert_eq!(encoder.as_str(), "c3   ");
    assert_eq!(encoder.put_filler('-', 3), 1);
    assert_eq!(encoder.as_str(), "c3   -");

    let mut encoder = BufEncoder::<10>::new(Case::Lower);
    assert_eq!(encoder.put_filler('☺', 9), 3);
    assert_eq!(encoder.as_str(), "☺☺☺");
    assert_eq!(encoder.space_remaining(), 0);

    let mut encoder = BufEncoder::<10>::new(Case::Lower);
    assert_eq!(encoder.put_filler('«', 0), 0);
    assert_eq!(encoder.as_str(), "");
    assert_eq!(encoder.put_filler('🚀', 2), 2);
    assert_eq!(encoder.as_str(), "🚀🚀");
    encoder.put_byte(0x0f);
    assert_eq!(encoder.as_str(), "🚀🚀0f");
}
