use passacre::bignum::BigNat;

#[test]
fn u64_round_trip() {
    for x in [0u64, 1, 0xffff_ffff, 0x1_0000_0000, u64::MAX] {
        assert_eq!(BigNat::from_u64(x).to_u64(), Some(x));
    }
    assert_eq!(BigNat::from_usize(42).to_u64(), Some(42));
    assert_eq!(BigNat::one().to_u64(), Some(1));
}

#[test]
fn arithmetic_is_exact() {
    let a = BigNat::from_u64(1_000_000_007);
    let b = BigNat::from_u64(998_244_353);
    assert_eq!(a.mul(&b).to_u64(), Some(1_000_000_007u64 * 998_244_353));
    let big = BigNat::from_u64(u64::MAX).mul(&BigNat::from_u64(u64::MAX));
    assert_eq!(big.to_u64(), None);
    let (q, r) = big.div_rem(&BigNat::from_u64(u64::MAX));
    assert_eq!(q.to_u64(), Some(u64::MAX));
    assert_eq!(r.to_u64(), Some(0));
    let (q, r) = BigNat::from_u64(100).div_rem(&BigNat::from_u64(7));
    assert_eq!((q.to_u64(), r.to_u64()), (Some(14), Some(2)));
    assert_eq!(BigNat::from_u64(256).sub_one().to_u64(), Some(255));
    assert_eq!(big.duplicate().div_rem(&big).0.to_u64(), Some(1));
}

#[test]
fn order_and_bits() {
    assert!(BigNat::from_u64(3).lt(&BigNat::from_u64(4)));
    assert!(!BigNat::from_u64(4).lt(&BigNat::from_u64(4)));
    assert_eq!(BigNat::from_u64(0).bit_length(), 0);
    assert_eq!(BigNat::from_u64(255).bit_length(), 8);
    assert_eq!(BigNat::from_u64(256).bit_length(), 9);
}

#[test]
fn bytes_are_big_endian() {
    assert_eq!(BigNat::from_be_bytes(&[0x01, 0x00]).to_u64(), Some(256));
    assert_eq!(BigNat::from_be_bytes(&[0x12, 0x34, 0x56]).to_u64(), Some(0x123456));
    assert_eq!(BigNat::from_be_bytes(&[]).to_u64(), Some(0));
}
