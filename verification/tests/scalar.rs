use ff::{Field, PrimeField};
use pasta_curves::Fq;
use zkmemory::scalar::Scalar;

fn to_field(s: Scalar) -> Fq {
    let (l0, l1, l2, l3) = s.limbs();
    let mut repr = [0u8; 32];
    repr[0..8].copy_from_slice(&l0.to_le_bytes());
    repr[8..16].copy_from_slice(&l1.to_le_bytes());
    repr[16..24].copy_from_slice(&l2.to_le_bytes());
    repr[24..32].copy_from_slice(&l3.to_le_bytes());
    Fq::from_repr(repr).unwrap()
}

#[test]
fn from_u64_holds_the_integer() {
    assert_eq!(Scalar::from_u64(0).limbs(), (0, 0, 0, 0));
    assert_eq!(Scalar::from_u64(7).limbs(), (7, 0, 0, 0));
    assert_eq!(Scalar::from_u64(u64::MAX).limbs(), (u64::MAX, 0, 0, 0));
    assert_eq!(to_field(Scalar::from_u64(1025)), Fq::from(1025u64));
}

#[test]
fn zero_and_one_are_the_identities() {
    assert_eq!(Scalar::zero().limbs(), (0, 0, 0, 0));
    assert_eq!(Scalar::one().limbs(), (1, 0, 0, 0));
    assert_eq!(to_field(Scalar::zero()), Fq::ZERO);
    assert_eq!(to_field(Scalar::one()), Fq::ONE);
}

#[test]
fn from_limbs_accepts_exactly_the_canonical_forms() {
    // q - 1 is the largest element; q itself is not one.
    let top = Scalar::from_limbs(0x8c46eb2100000000, 0x224698fc0994a8dd, 0, 0x4000000000000000);
    assert!(top.is_some());
    assert!(Scalar::from_limbs(0x8c46eb2100000001, 0x224698fc0994a8dd, 0, 0x4000000000000000).is_none());
    assert!(Scalar::from_limbs(0, 0, 1, 0x4000000000000000).is_none());
    assert!(Scalar::from_limbs(0, 0, 0, 0x4000000000000001).is_none());
    assert!(Scalar::from_limbs(u64::MAX, u64::MAX, u64::MAX, 0x3fffffffffffffff).is_some());
    assert_eq!(to_field(top.unwrap()), -Fq::ONE);
}

#[test]
fn add_wraps_at_the_order() {
    let top = Scalar::from_limbs(0x8c46eb2100000000, 0x224698fc0994a8dd, 0, 0x4000000000000000).unwrap();
    assert_eq!(top.add(Scalar::one()), Scalar::zero());
    assert_eq!(top.add(Scalar::from_u64(5)), Scalar::from_u64(4));
    assert_eq!(Scalar::from_u64(3).add(Scalar::from_u64(4)), Scalar::from_u64(7));
    assert_eq!(
        Scalar::from_u64(u64::MAX).add(Scalar::from_u64(1)).limbs(),
        (0, 1, 0, 0)
    );
}

#[test]
fn sub_wraps_below_zero() {
    let top = Scalar::from_limbs(0x8c46eb2100000000, 0x224698fc0994a8dd, 0, 0x4000000000000000).unwrap();
    assert_eq!(Scalar::zero().sub(Scalar::one()), top);
    assert_eq!(Scalar::from_u64(9).sub(Scalar::from_u64(4)), Scalar::from_u64(5));
    assert_eq!(Scalar::from_u64(4).sub(Scalar::from_u64(4)), Scalar::zero());
}

#[test]
fn mul_is_the_product_modulo_the_order() {
    let top = Scalar::from_limbs(0x8c46eb2100000000, 0x224698fc0994a8dd, 0, 0x4000000000000000).unwrap();
    assert_eq!(Scalar::from_u64(6).mul(Scalar::from_u64(7)), Scalar::from_u64(42));
    assert_eq!(top.mul(top), Scalar::one());
    assert_eq!(top.mul(Scalar::from_u64(2)), Scalar::zero().sub(Scalar::from_u64(2)));
    assert_eq!(
        Scalar::from_u64(1 << 63).mul(Scalar::from_u64(4)).limbs(),
        (0, 2, 0, 0)
    );
}

#[test]
fn arithmetic_agrees_with_the_field() {
    let a = Scalar::from_limbs(0x1234567890abcdef, 0xfedcba0987654321, 0x0f0f0f0f0f0f0f0f, 0x3000000000000000).unwrap();
    let b = Scalar::from_limbs(0xdeadbeefdeadbeef, 0x0123456789abcdef, 0xf0f0f0f0f0f0f0f0, 0x2fffffffffffffff).unwrap();
    assert_eq!(to_field(a.add(b)), to_field(a) + to_field(b));
    assert_eq!(to_field(a.sub(b)), to_field(a) - to_field(b));
    assert_eq!(to_field(b.sub(a)), to_field(b) - to_field(a));
    assert_eq!(to_field(a.mul(b)), to_field(a) * to_field(b));
}
