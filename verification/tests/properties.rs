use ebml_vint::id::{ElementId, ElementIdError};
use ebml_vint::size::ElementDataSize;
use ebml_vint::source::ByteSource;
use ebml_vint::varint::{VarInt, VarIntError};
use num_bigint::BigUint;

/// The all-ones encoding of the given width: `width - 1` leading zero
/// bits, then every remaining bit set.
fn all_ones_encoding(width: usize) -> Vec<u8> {
    assert!((1..=8).contains(&width));
    let mut v = vec![0xffu8; width];
    v[0] = 0xffu8 >> (width - 1);
    v
}

#[test]
fn full_magnitude_at_each_native_width() {
    for width in 1..=8usize {
        let bytes = all_ones_encoding(width);
        let max = (1u64 << (7 * width)) - 1;
        assert_eq!(VarInt::max_val_for_octet_count(width), max);
        let (v, octets) =
            VarInt::from_reader_with_octets(&mut ByteSource::new(&bytes[..]), None).unwrap();
        assert_eq!(octets, width);
        assert_eq!(v, VarInt::Native(max));
        assert!(v.is_full(width));
        assert!(!v.is_full(width + 1));
    }
}

#[test]
fn single_octet_magnitude_is_low_seven_bits() {
    for b in 0b1000_0000u8..=0b1111_1111u8 {
        let bytes = [b];
        let (v, octets) =
            VarInt::from_reader_with_octets(&mut ByteSource::new(&bytes[..]), None).unwrap();
        assert_eq!(octets, 1);
        assert_eq!(v, VarInt::Native((b & 0b0111_1111) as u64));
    }
}

#[test]
fn width_is_one_more_than_leading_zero_bits() {
    for width in 1..=8usize {
        let mut bytes = vec![0u8; width];
        bytes[0] = 1u8 << (8 - width); // width - 1 leading zero bits
        let (v, octets) =
            VarInt::from_reader_with_octets(&mut ByteSource::new(&bytes[..]), None).unwrap();
        assert_eq!(octets, 1 + bytes[0].leading_zeros() as usize);
        assert_eq!(octets, width);
        assert_eq!(v, VarInt::Native(0));
    }
}

#[test]
fn octets_needed_is_minimal() {
    let samples: [u64; 9] = [
        0,
        1,
        127,
        128,
        16383,
        16384,
        (1u64 << 49) - 1,
        1u64 << 49,
        (1u64 << 63) - 1,
    ];
    for &v in samples.iter() {
        let needed = VarInt::octets_needed_for_val(v);
        assert!((1..=9).contains(&needed));
        assert!(v <= VarInt::max_val_for_octet_count(needed));
        if needed > 1 {
            assert!(v > VarInt::max_val_for_octet_count(needed - 1));
        }
    }
    assert_eq!(VarInt::octets_needed_for_val(0), 1);
    assert_eq!(VarInt::octets_needed_for_val(u64::MAX), 10);
}

#[test]
fn budget_boundary_is_exact() {
    // a 4-octet encoding of 2
    let bytes = [0b0001_0000u8, 0, 0, 2];
    assert!(matches!(
        VarInt::from_reader(&mut ByteSource::new(&bytes[..]), Some(3)),
        Err(VarIntError::ExceededSize)
    ));
    assert!(matches!(
        VarInt::from_reader(&mut ByteSource::new(&bytes[..]), Some(4)),
        Ok(VarInt::Native(2))
    ));
}

#[test]
fn truncated_input_is_unexpected_end() {
    let empty: [u8; 0] = [];
    assert!(matches!(
        VarInt::from_reader(&mut ByteSource::new(&empty[..]), None),
        Err(VarIntError::UnexpectedEnd)
    ));

    // first octet declares 8 octets; only one is present
    let short = [0b0000_0001u8];
    assert!(matches!(
        VarInt::from_reader(&mut ByteSource::new(&short[..]), None),
        Err(VarIntError::UnexpectedEnd)
    ));

    // all-zero octets never hold the marker bit
    let zeros = [0u8; 3];
    assert!(matches!(
        VarInt::from_reader(&mut ByteSource::new(&zeros[..]), None),
        Err(VarIntError::UnexpectedEnd)
    ));
}

#[test]
fn nine_octet_encoding_is_big() {
    let bytes = [0x00u8, 0x80, 0, 0, 0, 0, 0, 0, 2];
    let (v, octets) =
        VarInt::from_reader_with_octets(&mut ByteSource::new(&bytes[..]), None).unwrap();
    assert_eq!(octets, 9);
    assert_eq!(v, VarInt::Big(BigUint::from(2u32)));
    assert!(!v.is_zero());
    assert!(!v.is_full(9));
    assert_eq!(v.octets_needed(), 1);
}

#[test]
fn nine_octet_all_ones_is_unknown_size() {
    let bytes = [0x00u8, 0xff, 0xff, 0xff, 0xff, 0xff, 0xff, 0xff, 0xff];
    let (v, octets) =
        VarInt::from_reader_with_octets(&mut ByteSource::new(&bytes[..]), None).unwrap();
    assert_eq!(octets, 9);
    assert_eq!(v, VarInt::Big(BigUint::from((1u64 << 63) - 1)));
    assert!(v.is_full(9));
    assert!(matches!(
        ElementDataSize::from_reader(&mut ByteSource::new(&bytes[..]), None),
        Ok(ElementDataSize::Unknown)
    ));
}

#[test]
fn nine_octet_zero_is_rejected_as_id() {
    let bytes = [0x00u8, 0x80, 0, 0, 0, 0, 0, 0, 0];
    let (v, octets) =
        VarInt::from_reader_with_octets(&mut ByteSource::new(&bytes[..]), None).unwrap();
    assert_eq!(octets, 9);
    assert!(v.is_zero());
    assert!(matches!(
        ElementId::from_reader(&mut ByteSource::new(&bytes[..]), None),
        Err(ElementIdError::AllZero)
    ));
}

#[test]
fn nine_octet_overlong_id_is_rejected() {
    let bytes = [0x00u8, 0x80, 0, 0, 0, 0, 0, 0, 2];
    assert!(matches!(
        ElementId::from_reader(&mut ByteSource::new(&bytes[..]), None),
        Err(ElementIdError::ReprTooBig(ElementId(VarInt::Big(_))))
    ));
}

#[test]
fn sizes_allow_zero_and_overlong_encodings() {
    let zero = [0b1000_0000u8];
    assert!(matches!(
        ElementDataSize::from_reader(&mut ByteSource::new(&zero[..]), None),
        Ok(ElementDataSize::Known(VarInt::Native(0)))
    ));

    let overlong = [0b0100_0000u8, 0b0000_0010];
    assert!(matches!(
        ElementDataSize::from_reader(&mut ByteSource::new(&overlong[..]), None),
        Ok(ElementDataSize::Known(VarInt::Native(2)))
    ));
}

#[test]
fn size_errors_propagate() {
    let zeros = [0u8; 2];
    assert!(matches!(
        ElementDataSize::from_reader(&mut ByteSource::new(&zeros[..]), None),
        Err(VarIntError::UnexpectedEnd)
    ));
    let wide = [0b0001_0000u8, 0, 0, 2];
    assert!(matches!(
        ElementDataSize::from_reader(&mut ByteSource::new(&wide[..]), Some(2)),
        Err(VarIntError::ExceededSize)
    ));
    assert!(matches!(
        ElementId::from_reader(&mut ByteSource::new(&wide[..]), Some(2)),
        Err(ElementIdError::Parse(VarIntError::ExceededSize))
    ));
}

#[test]
fn decode_consumes_exactly_the_encoding() {
    // two encodings back to back: 2-octet id, then 1-octet size
    let bytes = [0b0100_0000u8, 0b0111_1111, 0b1000_0011];
    let mut src = ByteSource::new(&bytes[..]);
    assert!(matches!(
        ElementId::from_reader(&mut src, None),
        Ok(ElementId(VarInt::Native(0x7f)))
    ));
    assert!(matches!(
        ElementDataSize::from_reader(&mut src, None),
        Ok(ElementDataSize::Known(VarInt::Native(3)))
    ));
}

#[test]
fn queries_on_native_values() {
    let v = VarInt::Native(0);
    assert!(v.is_zero());
    assert!(v.is_full(0));
    assert_eq!(v.octets_needed(), 1);

    let w = VarInt::Native((1u64 << 56) - 1);
    assert!(!w.is_zero());
    assert!(w.is_full(8));
    assert!(!w.is_full(7));
    assert!(!w.is_full(9));
    assert!(!w.is_full(20));
    assert_eq!(w.octets_needed(), 8);
}
