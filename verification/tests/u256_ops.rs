use frc20::u256::{AmountOrdering, U256};

#[test]
fn it_works() {
    let result: i32 = 2 + 2;
    assert_eq!(result, 4);
}

#[test]
fn add_exact() {
    let a = U256::from_u64(999_999_999);
    let b = U256::from_u64(1);
    assert_eq!(a.add(&b), U256::from_u64(1_000_000_000));
}

#[test]
fn add_carries_across_limbs() {
    let a = U256::from_u64(u64::MAX);
    let one = U256::from_u64(1);
    let sum = a.add(&one);
    assert_eq!(sum.sub(&one), a);
    assert_eq!(sum.to_string(), "18446744073709551616");
}

#[test]
fn sub_exact() {
    let a = U256::from_u64(1_000_000_000);
    let b = U256::from_u64(1);
    assert_eq!(a.sub(&b), U256::from_u64(999_999_999));
}

#[test]
fn sub_to_zero() {
    let a = U256::from_u64(77);
    assert_eq!(a.sub(&a), U256::zero());
}

#[test]
fn compare_orders_values() {
    let small = U256::from_u64(255);
    let big = U256::from_u64(256);
    assert!(matches!(small.compare(&big), AmountOrdering::Less));
    assert!(matches!(big.compare(&small), AmountOrdering::Greater));
    assert!(matches!(big.compare(&big), AmountOrdering::Equal));
}

#[test]
fn compare_across_lengths() {
    let small = U256::from_u64(1);
    let big = U256::from_dec_str("340282366920938463463374607431768211456");
    assert!(matches!(small.compare(&big), AmountOrdering::Less));
    assert!(matches!(big.compare(&small), AmountOrdering::Greater));
}

#[test]
fn bytes_be_round_trip() {
    let v = U256::from_u64(0x01_02_03);
    let be = v.to_bytes_be();
    assert_eq!(be, vec![1u8, 2, 3]);
    assert_eq!(U256::from_bytes_be(be.as_slice()), v);
}

#[test]
fn bytes_be_ignores_leading_zeros() {
    let v = U256::from_bytes_be(&[0u8, 0, 1, 2]);
    assert_eq!(v, U256::from_u64(0x0102));
}

#[test]
fn bytes_le_round_trip() {
    let v = U256::from_u64(0x01_02_03);
    let le = v.to_bytes_le();
    assert_eq!(le, vec![3u8, 2, 1]);
    assert_eq!(U256::from_bytes_le(le.as_slice()), v);
}

#[test]
fn zero_encodes_empty() {
    assert_eq!(U256::zero().to_bytes_be(), Vec::<u8>::new());
    assert_eq!(U256::zero().to_bytes_le(), Vec::<u8>::new());
    assert_eq!(U256::from_bytes_be(&[0u8, 0]), U256::zero());
}

#[test]
fn decimal_string_exact() {
    assert_eq!(U256::zero().to_string(), "0");
    assert_eq!(U256::from_u64(1_000_000_000).to_string(), "1000000000");
    assert_eq!(U256::from_u64(18_446_744_073_709_551_615).to_string(), "18446744073709551615");
}

#[test]
fn decimal_parse_exact() {
    assert_eq!(U256::from_dec_str("0"), U256::zero());
    assert_eq!(U256::from_dec_str("007"), U256::from_u64(7));
    assert_eq!(U256::from_dec_str("1000000000"), U256::from_u64(1_000_000_000));
    let big = U256::from_dec_str("340282366920938463463374607431768211455");
    assert_eq!(big.to_string(), "340282366920938463463374607431768211455");
}

#[test]
fn default_is_zero() {
    assert_eq!(U256::default(), U256::zero());
}
