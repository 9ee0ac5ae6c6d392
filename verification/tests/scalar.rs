use zkif_bulletproofs::error::Error;
use zkif_bulletproofs::scalar::{scalar_from_zkif, Scalar};

#[test]
fn decode_pads_short_buffers() {
    let three = scalar_from_zkif(&[3]).unwrap();
    let mut expected = [0u8; 32];
    expected[0] = 3;
    assert_eq!(three.to_bytes(), expected);
    assert_eq!(scalar_from_zkif(&[]).unwrap(), Scalar::zero());
    assert_eq!(scalar_from_zkif(&[1, 0, 0]).unwrap(), Scalar::one());
}

#[test]
fn decode_rejects_the_group_order() {
    let order = group_order_bytes();
    assert_eq!(scalar_from_zkif(&order), Err(Error::InvalidScalarEncoding));
    let mut below = order;
    below[0] = 0xec;
    let minus_one = scalar_from_zkif(&below).unwrap();
    assert_eq!(minus_one.to_bytes(), below);
    assert_eq!(minus_one.add(&Scalar::one()), Scalar::zero());
    assert_eq!(Scalar::one().neg(), minus_one);
    assert_eq!(minus_one.mul(&minus_one), Scalar::one());
}

#[test]
fn encoding_a_decoded_canonical_buffer_gives_it_back() {
    let mut buffers: Vec<[u8; 32]> = vec![[0u8; 32], group_order_bytes()];
    buffers[1][0] -= 1;
    let mut mixed = [0u8; 32];
    for (i, byte) in mixed.iter_mut().enumerate() {
        *byte = (i as u8).wrapping_mul(37).wrapping_add(11);
    }
    mixed[31] = 0x0f;
    buffers.push(mixed);
    for buffer in buffers {
        assert_eq!(scalar_from_zkif(&buffer).unwrap().to_bytes(), buffer);
    }
}

#[test]
fn decoding_an_encoded_scalar_gives_it_back() {
    let elements = [
        Scalar::zero(),
        Scalar::one(),
        Scalar::one().neg(),
        scalar_from_zkif(&12345678u64.to_le_bytes()).unwrap(),
    ];
    for s in elements {
        assert_eq!(scalar_from_zkif(&s.to_bytes()), Ok(s));
    }
}

#[test]
fn only_the_value_of_a_buffer_counts() {
    let short = scalar_from_zkif(&[7, 1]).unwrap();
    let mut long = vec![7u8, 1];
    long.resize(40, 0);
    assert_eq!(scalar_from_zkif(&long), Ok(short));
    let mut expected = [0u8; 32];
    expected[0] = 7;
    expected[1] = 1;
    assert_eq!(short.to_bytes(), expected);
}

#[test]
fn significant_bytes_past_the_thirty_second_are_rejected() {
    let mut long = vec![0u8; 33];
    long[32] = 1;
    assert_eq!(scalar_from_zkif(&long), Err(Error::InvalidScalarEncoding));
    let mut longer = vec![1u8; 32];
    longer[31] = 0;
    longer.extend_from_slice(&[0, 0, 0, 9]);
    assert_eq!(scalar_from_zkif(&longer), Err(Error::InvalidScalarEncoding));
    assert_eq!(scalar_from_zkif(&[0xff; 32]), Err(Error::InvalidScalarEncoding));
}

#[test]
fn field_arithmetic_has_the_expected_values() {
    let n = |value: u64| scalar_from_zkif(&value.to_le_bytes()).unwrap();
    assert_eq!(n(7).add(&n(35)), n(42));
    assert_eq!(n(6).mul(&n(7)), n(42));
    assert_eq!(n(5).neg().add(&n(47)), n(42));
    assert_eq!(n(0).neg(), n(0));
    assert_eq!(n(0).mul(&n(99)), n(0));
    // (l - 1) + (l - 1) = l - 2 and (l - 2) * (l - 1) = 2 modulo l.
    let minus_one = n(1).neg();
    let minus_two = minus_one.add(&minus_one);
    assert_eq!(minus_two.add(&n(2)), n(0));
    assert_eq!(minus_two.mul(&minus_one), n(2));
    assert_eq!(u64::MAX, 18446744073709551615);
    assert_eq!(n(u64::MAX).add(&n(1)).to_bytes()[8], 1);
}

#[test]
fn small_numbers_become_scalars() {
    assert_eq!(Scalar::from_u64(0), Scalar::zero());
    assert_eq!(Scalar::from_u64(1), Scalar::one());
    assert_eq!(Scalar::from_u64(0x0102), scalar_from_zkif(&[2, 1]).unwrap());
    let mut expected = [0u8; 32];
    expected[..8].copy_from_slice(&[0xef, 0xcd, 0xab, 0x89, 0x67, 0x45, 0x23, 0x01]);
    assert_eq!(Scalar::from_u64(0x0123456789abcdef).to_bytes(), expected);
    expected[..8].copy_from_slice(&[0xff; 8]);
    assert_eq!(Scalar::from_u64(u64::MAX).to_bytes(), expected);
}

#[test]
fn errors_have_a_message() {
    assert_eq!(Error::MissingField.message(), "missing message section");
    assert_eq!(Error::UnknownVariable(3).message(), "unknown variable");
    assert_eq!(Error::InvalidScalarEncoding.message(), "invalid scalar encoding");
    assert_eq!(Error::AllocationFailure.message(), "gate allocation failed");
}

/// The group order 2^252 + 27742317777372353535851937790883648493 in 32
/// little-endian bytes.
fn group_order_bytes() -> [u8; 32] {
    let low: u128 = 27742317777372353535851937790883648493;
    let high: u128 = 1 << 124;
    let mut bytes = [0u8; 32];
    bytes[..16].copy_from_slice(&low.to_le_bytes());
    bytes[16..].copy_from_slice(&high.to_le_bytes());
    bytes
}
