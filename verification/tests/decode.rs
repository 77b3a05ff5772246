use ebml_vint::id::{ElementId, ElementIdError};
use ebml_vint::size::ElementDataSize;
use ebml_vint::source::ByteSource;
use ebml_vint::varint::{VarInt, VarIntError};

#[test]
fn single_octet_var_ints() {
    let test_1: [u8; 1] = [0b1000_0000]; // 0
    let test_2: [u8; 1] = [0b1000_0010]; // 2

    assert_eq!(
        VarInt::from_reader(&mut ByteSource::new(&test_1[..]), None).unwrap(),
        VarInt::Native(0)
    );

    assert!(matches!(
        VarInt::from_reader(&mut ByteSource::new(&test_2[..]), None),
        Ok(VarInt::Native(2))
    ));
}

#[test]
fn dual_octet_var_ints() {
    let test_1: [u8; 2] = [0b0100_0000, 0b0000_0010]; // 2

    assert!(matches!(
        VarInt::from_reader(&mut ByteSource::new(&test_1[..]), None),
        Ok(VarInt::Native(2))
    ));
}

#[test]
fn tri_octet_var_ints() {
    let test_1: [u8; 3] = [0b0010_0000, 0b0000_0000, 0b0000_0010]; // 2

    assert!(matches!(
        VarInt::from_reader(&mut ByteSource::new(&test_1[..]), None),
        Ok(VarInt::Native(2))
    ));
}

#[test]
fn quad_octet_var_ints() {
    let test_1: [u8; 4] = [0b0001_0000, 0b0000_0000, 0b0000_0000, 0b0000_0010]; // 2

    assert!(matches!(
        VarInt::from_reader(&mut ByteSource::new(&test_1[..]), None),
        Ok(VarInt::Native(2))
    ));
}

#[test]
fn max_size_limit_holds() {
    let mut test_1 = [0u8; 20];
    test_1[2] = 0b0001_0000;

    assert!(matches!(
        VarInt::from_reader(&mut ByteSource::new(&test_1[..]), Some(4)),
        Err(VarIntError::ExceededSize)
    ));
}

#[test]
fn element_id_rejects_all_ones() {
    let test_1 = [0b1111_1111];

    assert!(matches!(
        ElementId::from_reader(&mut ByteSource::new(&test_1[..]), None),
        Err(ElementIdError::AllOnes)
    ));
}

#[test]
fn element_id_rejects_all_zeros() {
    let test_1 = [0b1000_0000];

    assert!(matches!(
        ElementId::from_reader(&mut ByteSource::new(&test_1[..]), None),
        Err(ElementIdError::AllZero)
    ));
}

#[test]
fn element_id_all_ones_allows_more_octets() {
    let test_1 = [0b0100_0000, 0b0111_1111];

    assert!(matches!(
        ElementId::from_reader(&mut ByteSource::new(&test_1[..]), None),
        Ok(ElementId(VarInt::Native(0b0111_1111)))
    ));
}

#[test]
fn element_id_reject_excess_bytes() {
    let test_1 = [0b0100_0000, 0b0111_1110];

    assert!(matches!(
        ElementId::from_reader(&mut ByteSource::new(&test_1[..]), None),
        Err(ElementIdError::ReprTooBig(ElementId(VarInt::Native(0b0111_1110))))
    ));
}

#[test]
fn unknown_size() {
    let test_1 = [0b1111_1111];
    let test_2 = [0b0111_1111, 0b1111_1111];
    let test_3 = [0b0011_1111, 0b1111_1111, 0b1111_1111];
    let test_4 = [0b0001_1111, 0b1111_1111, 0b1111_1111, 0b1111_1111];

    assert!(matches!(
        ElementDataSize::from_reader(&mut ByteSource::new(&test_1[..]), None),
        Ok(ElementDataSize::Unknown)
    ));

    assert!(matches!(
        ElementDataSize::from_reader(&mut ByteSource::new(&test_2[..]), None),
        Ok(ElementDataSize::Unknown)
    ));

    assert!(matches!(
        ElementDataSize::from_reader(&mut ByteSource::new(&test_3[..]), None),
        Ok(ElementDataSize::Unknown)
    ));

    assert!(matches!(
        ElementDataSize::from_reader(&mut ByteSource::new(&test_4[..]), None),
        Ok(ElementDataSize::Unknown)
    ));
}
