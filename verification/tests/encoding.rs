use proof_of_sql::committable_column::CommittableColumn;
use proof_of_sql::offset_to_bytes::OffsetToBytes;
use proof_of_sql::pack_scalars::get_min_as_fr;

#[test]
fn signed_minimum_encodes_to_zero_bytes() {
    assert_eq!(i16::MIN.offset_to_bytes(), vec![0u8; 2]);
    assert_eq!(i32::MIN.offset_to_bytes(), vec![0u8; 4]);
    assert_eq!(i64::MIN.offset_to_bytes(), vec![0u8; 8]);
    assert_eq!(i128::MIN.offset_to_bytes(), vec![0u8; 16]);
}

#[test]
fn signed_maximum_encodes_to_all_ones_bytes() {
    assert_eq!(i16::MAX.offset_to_bytes(), vec![0xFFu8; 2]);
    assert_eq!(i32::MAX.offset_to_bytes(), vec![0xFFu8; 4]);
    assert_eq!(i64::MAX.offset_to_bytes(), vec![0xFFu8; 8]);
    assert_eq!(i128::MAX.offset_to_bytes(), vec![0xFFu8; 16]);
}

#[test]
fn signed_encoding_is_the_min_biased_value() {
    assert_eq!(1i64.offset_to_bytes(), vec![1, 0, 0, 0, 0, 0, 0, 128]);
    assert_eq!((-1i16).offset_to_bytes(), vec![0xFF, 0x7F]);
    assert_eq!(0i32.offset_to_bytes(), vec![0, 0, 0, 128]);
    assert_eq!(0i128.offset_to_bytes(), {
        let mut expected = vec![0u8; 16];
        expected[15] = 128;
        expected
    });
}

#[test]
fn signed_encoding_round_trips_through_the_bias() {
    for v in [i16::MIN, -1, 0, 1, i16::MAX] {
        let bytes = v.offset_to_bytes();
        let unsigned = u16::from_le_bytes([bytes[0], bytes[1]]);
        assert_eq!(i32::from(unsigned) + i32::from(i16::MIN), i32::from(v));
    }
    for v in [i64::MIN, -1, 0, 1, i64::MAX] {
        let bytes = v.offset_to_bytes();
        let unsigned = u64::from_le_bytes(bytes.try_into().unwrap());
        assert_eq!(unsigned as i64, v.wrapping_sub(i64::MIN));
    }
    for v in [i128::MIN, -1, 0, 1, i128::MAX] {
        let bytes = v.offset_to_bytes();
        let unsigned = u128::from_le_bytes(bytes.try_into().unwrap());
        assert_eq!(unsigned as i128, v.wrapping_sub(i128::MIN));
    }
}

#[test]
fn signed_encoding_preserves_order() {
    let values = [i16::MIN, -2, -1, 0, 1, 2, i16::MAX];
    let encoded: Vec<u16> = values
        .iter()
        .map(|v| {
            let bytes = v.offset_to_bytes();
            u16::from_le_bytes([bytes[0], bytes[1]])
        })
        .collect();
    for w in encoded.windows(2) {
        assert!(w[0] < w[1]);
    }
}

#[test]
fn unsigned_domains_pass_through_unchanged() {
    assert_eq!(7u8.offset_to_bytes(), vec![7]);
    assert_eq!(
        0x0102030405060708u64.offset_to_bytes(),
        vec![8, 7, 6, 5, 4, 3, 2, 1]
    );
    assert_eq!(true.offset_to_bytes(), vec![1]);
    assert_eq!(false.offset_to_bytes(), vec![0]);
}

#[test]
fn wide_limbs_encode_to_little_endian_limb_order() {
    let limbs: [u64; 4] = [
        0x0102030405060708,
        0x1112131415161718,
        0x2122232425262728,
        0x3132333435363738,
    ];
    let bytes = limbs.offset_to_bytes();
    let mut expected = Vec::new();
    for limb in limbs {
        expected.extend_from_slice(&limb.to_le_bytes());
    }
    assert_eq!(bytes, expected);
}

#[test]
fn min_as_fr_is_the_domain_minimum() {
    assert_eq!(u8::min_as_fr(), 0);
    assert_eq!(i16::min_as_fr(), i128::from(i16::MIN));
    assert_eq!(i32::min_as_fr(), i128::from(i32::MIN));
    assert_eq!(i64::min_as_fr(), i128::from(i64::MIN));
    assert_eq!(i128::min_as_fr(), i128::MIN);
    assert_eq!(bool::min_as_fr(), 0);
    assert_eq!(u64::min_as_fr(), 0);
    assert_eq!(<[u64; 4]>::min_as_fr(), 0);
}

#[test]
fn get_min_as_fr_matches_each_column_kind() {
    assert_eq!(
        get_min_as_fr(&CommittableColumn::SmallInt(vec![1])),
        i128::from(i16::MIN)
    );
    assert_eq!(
        get_min_as_fr(&CommittableColumn::Int(vec![1])),
        i128::from(i32::MIN)
    );
    assert_eq!(
        get_min_as_fr(&CommittableColumn::BigInt(vec![1])),
        i128::from(i64::MIN)
    );
    assert_eq!(get_min_as_fr(&CommittableColumn::Int128(vec![1])), i128::MIN);
    assert_eq!(
        get_min_as_fr(&CommittableColumn::Scalar(vec![[1, 0, 0, 0]])),
        0
    );
    assert_eq!(
        get_min_as_fr(&CommittableColumn::VarChar(vec![[1, 0, 0, 0]])),
        0
    );
    assert_eq!(
        get_min_as_fr(&CommittableColumn::Boolean(vec![true])),
        0
    );
}

#[test]
fn is_signed_matches_the_bias_rule() {
    assert!(i16::is_signed());
    assert!(i32::is_signed());
    assert!(i64::is_signed());
    assert!(i128::is_signed());
    assert!(!u8::is_signed());
    assert!(!u64::is_signed());
    assert!(!bool::is_signed());
    assert!(!<[u64; 4]>::is_signed());
}
