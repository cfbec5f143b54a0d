//! Elements of the scalar field of the Pallas curve, held by their canonical
//! little-endian limbs. The arithmetic itself is done by `pasta_curves`.

use ff::PrimeField;
use pasta_curves::Fq;
use vstd::prelude::*;

verus! {

/// The order of the field.
pub open spec fn modulus() -> nat {
    0x40000000000000000000000000000000224698fc0994a8dd8c46eb2100000001nat
}

/// The integer that four little-endian 64-bit limbs stand for.
pub open spec fn limbs_value(l0: u64, l1: u64, l2: u64, l3: u64) -> nat {
    (l0 as nat) + (l1 as nat) * 0x1_0000_0000_0000_0000nat + (l2 as nat)
        * 0x1_0000_0000_0000_0000_0000_0000_0000_0000nat + (l3 as nat)
        * 0x1_0000_0000_0000_0000_0000_0000_0000_0000_0000_0000_0000_0000nat
}

/// Limbs that stand for the same integer are the same limbs.
pub proof fn lemma_limbs_injective(
    a0: u64,
    a1: u64,
    a2: u64,
    a3: u64,
    b0: u64,
    b1: u64,
    b2: u64,
    b3: u64,
)
    requires
        limbs_value(a0, a1, a2, a3) == limbs_value(b0, b1, b2, b3),
    ensures
        a0 == b0,
        a1 == b1,
        a2 == b2,
        a3 == b3,
{
    let base = 0x1_0000_0000_0000_0000int;
    let high_a = a1 as int + base * (a2 as int + base * (a3 as int));
    let high_b = b1 as int + base * (b2 as int + base * (b3 as int));
    assert(limbs_value(a0, a1, a2, a3) == a0 as int + base * high_a) by (nonlinear_arith)
        requires
            base == 0x1_0000_0000_0000_0000int,
            high_a == a1 as int + base * (a2 as int + base * (a3 as int)),
            limbs_value(a0, a1, a2, a3) == (a0 as nat) + (a1 as nat) * 0x1_0000_0000_0000_0000nat
                + (a2 as nat) * 0x1_0000_0000_0000_0000_0000_0000_0000_0000nat + (a3 as nat)
                * 0x1_0000_0000_0000_0000_0000_0000_0000_0000_0000_0000_0000_0000nat,
    ;
    assert(limbs_value(b0, b1, b2, b3) == b0 as int + base * high_b) by (nonlinear_arith)
        requires
            base == 0x1_0000_0000_0000_0000int,
            high_b == b1 as int + base * (b2 as int + base * (b3 as int)),
            limbs_value(b0, b1, b2, b3) == (b0 as nat) + (b1 as nat) * 0x1_0000_0000_0000_0000nat
                + (b2 as nat) * 0x1_0000_0000_0000_0000_0000_0000_0000_0000nat + (b3 as nat)
                * 0x1_0000_0000_0000_0000_0000_0000_0000_0000_0000_0000_0000_0000nat,
    ;
    lemma_digit_split(a0 as int, high_a, b0 as int, high_b);
    lemma_digit_split(
        a1 as int,
        a2 as int + base * (a3 as int),
        b1 as int,
        b2 as int + base * (b3 as int),
    );
    lemma_digit_split(a2 as int, a3 as int, b2 as int, b3 as int);
}

/// Two numbers split into a 64-bit digit and the rest agree in both parts.
proof fn lemma_digit_split(low_a: int, high_a: int, low_b: int, high_b: int)
    requires
        0 <= low_a < 0x1_0000_0000_0000_0000,
        0 <= low_b < 0x1_0000_0000_0000_0000,
        low_a + 0x1_0000_0000_0000_0000 * high_a == low_b + 0x1_0000_0000_0000_0000 * high_b,
    ensures
        low_a == low_b,
        high_a == high_b,
{
    if high_a < high_b {
        assert(0x1_0000_0000_0000_0000 * high_b >= 0x1_0000_0000_0000_0000 * high_a
            + 0x1_0000_0000_0000_0000);
    } else if high_b < high_a {
        assert(0x1_0000_0000_0000_0000 * high_a >= 0x1_0000_0000_0000_0000 * high_b
            + 0x1_0000_0000_0000_0000);
    }
}

/// `(a + b) mod q`.
pub open spec fn add_mod(a: nat, b: nat) -> nat {
    (a + b) % modulus()
}

/// `(a - b) mod q`, as a representative in `0..q`.
pub open spec fn sub_mod(a: nat, b: nat) -> nat {
    ((a as int - b as int) % (modulus() as int)) as nat
}

/// `(a * b) mod q`.
pub open spec fn mul_mod(a: nat, b: nat) -> nat {
    (a * b) % modulus()
}

/// A field element. Its view is the integer in `0..q` that it stands for.
#[derive(Clone, Copy, Debug, PartialEq, Eq, Structural)]
pub struct Scalar {
    l0: u64,
    l1: u64,
    l2: u64,
    l3: u64,
}

impl View for Scalar {
    type V = nat;

    closed spec fn view(&self) -> nat {
        limbs_value(self.l0, self.l1, self.l2, self.l3)
    }
}

/// Calls `Fq::from(u64)` and reads the result back with `PrimeField::to_repr`.
/// Claims that the element stands for the integer given, which is below the
/// field's order.
#[verifier::external_body]
fn field_from_u64(x: u64) -> (r: Scalar)
    ensures
        r.wf(),
        r@ == x as nat,
{
    let repr = Fq::from(x).to_repr();
    Scalar {
        l0: u64::from_le_bytes(repr[0..8].try_into().unwrap()),
        l1: u64::from_le_bytes(repr[8..16].try_into().unwrap()),
        l2: u64::from_le_bytes(repr[16..24].try_into().unwrap()),
        l3: u64::from_le_bytes(repr[24..32].try_into().unwrap()),
    }
}

/// Calls the `+` of `Fq` on the two elements, which `Fq::from_raw` makes from
/// the limbs, and reads the sum back with `PrimeField::to_repr`. Claims that
/// the result is the canonical form of the sum modulo the field's order.
#[verifier::external_body]
fn field_add(a: Scalar, b: Scalar) -> (r: Scalar)
    requires
        a.wf(),
        b.wf(),
    ensures
        r.wf(),
        r@ == add_mod(a@, b@),
{
    let x = Fq::from_raw([a.l0, a.l1, a.l2, a.l3]) + Fq::from_raw([b.l0, b.l1, b.l2, b.l3]);
    let repr = x.to_repr();
    Scalar {
        l0: u64::from_le_bytes(repr[0..8].try_into().unwrap()),
        l1: u64::from_le_bytes(repr[8..16].try_into().unwrap()),
        l2: u64::from_le_bytes(repr[16..24].try_into().unwrap()),
        l3: u64::from_le_bytes(repr[24..32].try_into().unwrap()),
    }
}

/// Calls the `-` of `Fq` on the two elements, which `Fq::from_raw` makes from
/// the limbs, and reads the difference back with `PrimeField::to_repr`.
/// Claims that the result is the canonical form of the difference modulo the
/// field's order.
#[verifier::external_body]
fn field_sub(a: Scalar, b: Scalar) -> (r: Scalar)
    requires
        a.wf(),
        b.wf(),
    ensures
        r.wf(),
        r@ == sub_mod(a@, b@),
{
    let x = Fq::from_raw([a.l0, a.l1, a.l2, a.l3]) - Fq::from_raw([b.l0, b.l1, b.l2, b.l3]);
    let repr = x.to_repr();
    Scalar {
        l0: u64::from_le_bytes(repr[0..8].try_into().unwrap()),
        l1: u64::from_le_bytes(repr[8..16].try_into().unwrap()),
        l2: u64::from_le_bytes(repr[16..24].try_into().unwrap()),
        l3: u64::from_le_bytes(repr[24..32].try_into().unwrap()),
    }
}

/// Calls the `*` of `Fq` on the two elements, which `Fq::from_raw` makes from
/// the limbs, and reads the product back with `PrimeField::to_repr`. Claims
/// that the result is the canonical form of the product modulo the field's
/// order.
#[verifier::external_body]
fn field_mul(a: Scalar, b: Scalar) -> (r: Scalar)
    requires
        a.wf(),
        b.wf(),
    ensures
        r.wf(),
        r@ == mul_mod(a@, b@),
{
    let x = Fq::from_raw([a.l0, a.l1, a.l2, a.l3]) * Fq::from_raw([b.l0, b.l1, b.l2, b.l3]);
    let repr = x.to_repr();
    Scalar {
        l0: u64::from_le_bytes(repr[0..8].try_into().unwrap()),
        l1: u64::from_le_bytes(repr[8..16].try_into().unwrap()),
        l2: u64::from_le_bytes(repr[16..24].try_into().unwrap()),
        l3: u64::from_le_bytes(repr[24..32].try_into().unwrap()),
    }
}

impl Scalar {
    /// The element is in canonical form: it stands for an integer below the
    /// field's order.
    pub open spec fn wf(&self) -> bool {
        self@ < modulus()
    }

    /// Two elements that stand for the same integer are the same element.
    pub proof fn lemma_view_injective(a: Scalar, b: Scalar)
        ensures
            a@ == b@ <==> a == b,
    {
        if a@ == b@ {
            lemma_limbs_injective(a.l0, a.l1, a.l2, a.l3, b.l0, b.l1, b.l2, b.l3);
        }
    }

    /// The element that stands for `x`.
    pub fn from_u64(x: u64) -> (r: Scalar)
        ensures
            r.wf(),
            r@ == x as nat,
    {
        field_from_u64(x)
    }

    /// The additive identity.
    pub fn zero() -> (r: Scalar)
        ensures
            r.wf(),
            r@ == 0,
    {
        field_from_u64(0)
    }

    /// The multiplicative identity.
    pub fn one() -> (r: Scalar)
        ensures
            r.wf(),
            r@ == 1,
    {
        field_from_u64(1)
    }

    /// The element with the given limbs, least significant first, where they
    /// stand for an integer below the field's order.
    pub fn from_limbs(l0: u64, l1: u64, l2: u64, l3: u64) -> (r: Option<Scalar>)
        ensures
            r is Some <==> limbs_value(l0, l1, l2, l3) < modulus(),
            r is Some ==> r->0.wf() && r->0@ == limbs_value(l0, l1, l2, l3),
    {
        let below = l3 < 0x4000000000000000u64 || (l3 == 0x4000000000000000u64 && l2 == 0 && (l1
            < 0x224698fc0994a8ddu64 || (l1 == 0x224698fc0994a8ddu64 && l0 < 0x8c46eb2100000001u64)));
        if below {
            Some(Scalar { l0, l1, l2, l3 })
        } else {
            None
        }
    }

    /// The limbs of the element, least significant first.
    pub fn limbs(&self) -> (r: (u64, u64, u64, u64))
        ensures
            limbs_value(r.0, r.1, r.2, r.3) == self@,
    {
        (self.l0, self.l1, self.l2, self.l3)
    }

    /// Addition in the field.
    pub fn add(self, other: Scalar) -> (r: Scalar)
        requires
            self.wf(),
            other.wf(),
        ensures
            r.wf(),
            r@ == add_mod(self@, other@),
    {
        field_add(self, other)
    }

    /// Subtraction in the field.
    pub fn sub(self, other: Scalar) -> (r: Scalar)
        requires
            self.wf(),
            other.wf(),
        ensures
            r.wf(),
            r@ == sub_mod(self@, other@),
    {
        field_sub(self, other)
    }

    /// Multiplication in the field.
    pub fn mul(self, other: Scalar) -> (r: Scalar)
        requires
            self.wf(),
            other.wf(),
        ensures
            r.wf(),
            r@ == mul_mod(self@, other@),
    {
        field_mul(self, other)
    }
}

} // verus!
