//! Elements of the BN254 scalar field, held as four canonical 64-bit limbs.
use pairing_ce::bn256::{Fr, FrRepr};
use pairing_ce::ff::{Field, PrimeField};
use vstd::prelude::*;

verus! {

/// The order of the BN254 scalar field.
pub open spec fn modulus() -> int {
    21888242871839275222246405745257275088548364400416034343698204186575808495617int
}

pub open spec fn limb_base() -> int {
    18446744073709551616int
}

/// The integer that four little-endian limbs stand for.
pub open spec fn limbs_value(l: [u64; 4]) -> int {
    l[0] as int + limb_base() * (l[1] as int + limb_base() * (l[2] as int + limb_base()
        * (l[3] as int)))
}

/// A field element in canonical (non-Montgomery) form.
#[derive(Clone, Copy, Debug)]
pub struct Felt {
    pub limbs: [u64; 4],
}

impl Felt {
    pub open spec fn val(self) -> int {
        limbs_value(self.limbs)
    }

    /// The limbs stand for a number below the modulus.
    pub open spec fn wf(self) -> bool {
        0 <= self.val() < modulus()
    }

    pub fn zero() -> (r: Felt)
        ensures
            r.wf(),
            r.val() == 0,
    {
        Felt { limbs: [0u64, 0u64, 0u64, 0u64] }
    }

    /// Embeds a small integer.
    pub fn from_u64(v: u64) -> (r: Felt)
        ensures
            r.wf(),
            r.val() == v,
    {
        Felt { limbs: [v, 0u64, 0u64, 0u64] }
    }

    /// Embeds a signed integer: a negative one stands for its additive inverse.
    pub fn from_i32(v: i32) -> (r: Felt)
        ensures
            r.wf(),
            r.val() == embed_int(v as int),
    {
        if v >= 0 {
            Felt::from_u64(v as u64)
        } else {
            let m: i64 = -(v as i64);
            Felt::zero().sub(&Felt::from_u64(m as u64))
        }
    }

    /// Whether the limbs stand for a field element.
    pub fn is_valid(&self) -> (r: bool)
        ensures
            r == self.wf(),
    {
        fr_in_field(self.limbs)
    }

    pub fn is_zero(&self) -> (r: bool)
        requires
            self.wf(),
        ensures
            r == (self.val() == 0),
    {
        self.limbs[0] == 0 && self.limbs[1] == 0 && self.limbs[2] == 0 && self.limbs[3] == 0
    }

    pub fn equals(&self, o: &Felt) -> (r: bool)
        ensures
            r == (self.val() == o.val()),
    {
        proof {
            lemma_limbs_injective(self.limbs, o.limbs);
        }
        self.limbs[0] == o.limbs[0] && self.limbs[1] == o.limbs[1] && self.limbs[2]
            == o.limbs[2] && self.limbs[3] == o.limbs[3]
    }

    pub fn add(&self, o: &Felt) -> (r: Felt)
        requires
            self.wf(),
            o.wf(),
        ensures
            r.wf(),
            r.val() == (self.val() + o.val()) % modulus(),
    {
        Felt { limbs: fr_add(self.limbs, o.limbs) }
    }

    pub fn sub(&self, o: &Felt) -> (r: Felt)
        requires
            self.wf(),
            o.wf(),
        ensures
            r.wf(),
            r.val() == (self.val() - o.val()) % modulus(),
    {
        Felt { limbs: fr_sub(self.limbs, o.limbs) }
    }

    pub fn mul(&self, o: &Felt) -> (r: Felt)
        requires
            self.wf(),
            o.wf(),
        ensures
            r.wf(),
            r.val() == (self.val() * o.val()) % modulus(),
    {
        Felt { limbs: fr_mul(self.limbs, o.limbs) }
    }
}

/// The field element that an integer stands for.
pub open spec fn embed_int(v: int) -> int {
    v % modulus()
}

pub proof fn lemma_limbs_injective(a: [u64; 4], b: [u64; 4])
    ensures
        limbs_value(a) == limbs_value(b) <==> a == b,
{
    if limbs_value(a) == limbs_value(b) {
        let c = limb_base();
        let ta = a[1] as int + c * (a[2] as int + c * (a[3] as int));
        let tb = b[1] as int + c * (b[2] as int + c * (b[3] as int));
        assert(ta >= 0 && tb >= 0) by (nonlinear_arith)
            requires
                c > 0,
                a[1] >= 0, a[2] >= 0, a[3] >= 0, b[1] >= 0, b[2] >= 0, b[3] >= 0,
                ta == a[1] as int + c * (a[2] as int + c * (a[3] as int)),
                tb == b[1] as int + c * (b[2] as int + c * (b[3] as int)),
        ;
        assert(a[0] == b[0] && ta == tb) by (nonlinear_arith)
            requires
                a[0] as int + c * ta == b[0] as int + c * tb,
                0 <= a[0] < c, 0 <= b[0] < c, ta >= 0, tb >= 0, c > 0,
        ;
        let ua = a[2] as int + c * (a[3] as int);
        let ub = b[2] as int + c * (b[3] as int);
        assert(a[1] == b[1] && ua == ub) by (nonlinear_arith)
            requires
                a[1] as int + c * ua == b[1] as int + c * ub,
                0 <= a[1] < c, 0 <= b[1] < c, a[2] >= 0, a[3] >= 0, b[2] >= 0, b[3] >= 0, c > 0,
                ua == a[2] as int + c * (a[3] as int),
                ub == b[2] as int + c * (b[3] as int),
        ;
        assert(a[2] == b[2] && a[3] == b[3]) by (nonlinear_arith)
            requires
                a[2] as int + c * (a[3] as int) == b[2] as int + c * (b[3] as int),
                0 <= a[2] < c, 0 <= b[2] < c, a[3] >= 0, b[3] >= 0, c > 0,
        ;
        assert(a =~= b);
    }
}

/// Relies on pairing_ce's `PrimeField::from_repr` for `bn256::Fr`, which accepts exactly the
/// limbs of a number below the field order.
#[verifier::external_body]
fn fr_in_field(a: [u64; 4]) -> (r: bool)
    ensures
        r == (0 <= limbs_value(a) < modulus()),
{
    Fr::from_repr(FrRepr(a)).is_ok()
}

/// Relies on pairing_ce's `Field::add_assign` for `bn256::Fr`: addition modulo the field order
/// (the limbs pass through `PrimeField::from_repr` and `into_repr`, which accept and give the
/// canonical form).
#[verifier::external_body]
fn fr_add(a: [u64; 4], b: [u64; 4]) -> (r: [u64; 4])
    requires
        0 <= limbs_value(a) < modulus(),
        0 <= limbs_value(b) < modulus(),
    ensures
        limbs_value(r) == (limbs_value(a) + limbs_value(b)) % modulus(),
{
    let mut x = Fr::from_repr(FrRepr(a)).unwrap();
    x.add_assign(&Fr::from_repr(FrRepr(b)).unwrap());
    x.into_repr().0
}

/// Relies on pairing_ce's `Field::sub_assign` for `bn256::Fr`: subtraction modulo the field
/// order, on canonical limbs.
#[verifier::external_body]
fn fr_sub(a: [u64; 4], b: [u64; 4]) -> (r: [u64; 4])
    requires
        0 <= limbs_value(a) < modulus(),
        0 <= limbs_value(b) < modulus(),
    ensures
        limbs_value(r) == (limbs_value(a) - limbs_value(b)) % modulus(),
{
    let mut x = Fr::from_repr(FrRepr(a)).unwrap();
    x.sub_assign(&Fr::from_repr(FrRepr(b)).unwrap());
    x.into_repr().0
}

/// Relies on pairing_ce's `Field::mul_assign` for `bn256::Fr`: multiplication modulo the field
/// order, on canonical limbs.
#[verifier::external_body]
fn fr_mul(a: [u64; 4], b: [u64; 4]) -> (r: [u64; 4])
    requires
        0 <= limbs_value(a) < modulus(),
        0 <= limbs_value(b) < modulus(),
    ensures
        limbs_value(r) == (limbs_value(a) * limbs_value(b)) % modulus(),
{
    let mut x = Fr::from_repr(FrRepr(a)).unwrap();
    x.mul_assign(&Fr::from_repr(FrRepr(b)).unwrap());
    x.into_repr().0
}

} // verus!
