//! The scalar field of the BN254 curve, with its arithmetic carried out by
//! `halo2curves`.

use crate::field::{is_unit, lemma_zero_not_unit, Field};
use vstd::prelude::*;

verus! {

/// The order r of the BN254 scalar field.
pub open spec fn fr_modulus() -> int {
    21888242871839275222246405745257275088548364400416034343698204186575808495617int
}

/// The integer a little-endian array of 64-bit limbs stands for.
pub open spec fn limbs_value(l: [u64; 4]) -> int {
    l[0] as int + l[1] as int * 0x1_0000_0000_0000_0000int + l[2] as int
        * 0x1_0000_0000_0000_0000_0000_0000_0000_0000int + l[3] as int
        * 0x1_0000_0000_0000_0000_0000_0000_0000_0000_0000_0000_0000_0000int
}

/// An element of the BN254 scalar field, held as the little-endian limbs of an
/// integer that stands for its residue class.
#[derive(Clone, Copy, Debug, PartialEq, Eq)]
pub struct Fr {
    pub(crate) limbs: [u64; 4],
}

/// `halo2curves::bn256::Fr::from(u64)`: the field element congruent to `v`.
#[verifier::external_body]
fn fr_from_u64(v: u64) -> (r: Fr)
    ensures
        r.value() == v as int % fr_modulus(),
{
    let b = halo2curves::bn256::Fr::from(v).to_bytes();
    Fr {
        limbs: [
            u64::from_le_bytes(b[0..8].try_into().unwrap()),
            u64::from_le_bytes(b[8..16].try_into().unwrap()),
            u64::from_le_bytes(b[16..24].try_into().unwrap()),
            u64::from_le_bytes(b[24..32].try_into().unwrap()),
        ],
    }
}

/// Addition of `halo2curves::bn256::Fr` (the `+` operator): the sum modulo r of
/// the two operands, each read through `Fr::from_raw` as the integer its limbs
/// stand for.
#[verifier::external_body]
fn fr_add(a: &Fr, b: &Fr) -> (r: Fr)
    ensures
        r.value() == (a.value() + b.value()) % fr_modulus(),
{
    let x = halo2curves::bn256::Fr::from_raw(a.limbs) + halo2curves::bn256::Fr::from_raw(b.limbs);
    let b = x.to_bytes();
    Fr {
        limbs: [
            u64::from_le_bytes(b[0..8].try_into().unwrap()),
            u64::from_le_bytes(b[8..16].try_into().unwrap()),
            u64::from_le_bytes(b[16..24].try_into().unwrap()),
            u64::from_le_bytes(b[24..32].try_into().unwrap()),
        ],
    }
}

/// Subtraction of `halo2curves::bn256::Fr` (the `-` operator): the difference
/// modulo r.
#[verifier::external_body]
fn fr_sub(a: &Fr, b: &Fr) -> (r: Fr)
    ensures
        r.value() == (a.value() - b.value()) % fr_modulus(),
{
    let x = halo2curves::bn256::Fr::from_raw(a.limbs) - halo2curves::bn256::Fr::from_raw(b.limbs);
    let b = x.to_bytes();
    Fr {
        limbs: [
            u64::from_le_bytes(b[0..8].try_into().unwrap()),
            u64::from_le_bytes(b[8..16].try_into().unwrap()),
            u64::from_le_bytes(b[16..24].try_into().unwrap()),
            u64::from_le_bytes(b[24..32].try_into().unwrap()),
        ],
    }
}

/// Negation of `halo2curves::bn256::Fr` (unary `-`): the additive inverse
/// modulo r.
#[verifier::external_body]
fn fr_neg(a: &Fr) -> (r: Fr)
    ensures
        r.value() == (-a.value()) % fr_modulus(),
{
    let x = -halo2curves::bn256::Fr::from_raw(a.limbs);
    let b = x.to_bytes();
    Fr {
        limbs: [
            u64::from_le_bytes(b[0..8].try_into().unwrap()),
            u64::from_le_bytes(b[8..16].try_into().unwrap()),
            u64::from_le_bytes(b[16..24].try_into().unwrap()),
            u64::from_le_bytes(b[24..32].try_into().unwrap()),
        ],
    }
}

/// Multiplication of `halo2curves::bn256::Fr` (the `*` operator): the product
/// modulo r.
#[verifier::external_body]
fn fr_mul(a: &Fr, b: &Fr) -> (r: Fr)
    ensures
        r.value() == (a.value() * b.value()) % fr_modulus(),
{
    let x = halo2curves::bn256::Fr::from_raw(a.limbs) * halo2curves::bn256::Fr::from_raw(b.limbs);
    let b = x.to_bytes();
    Fr {
        limbs: [
            u64::from_le_bytes(b[0..8].try_into().unwrap()),
            u64::from_le_bytes(b[8..16].try_into().unwrap()),
            u64::from_le_bytes(b[16..24].try_into().unwrap()),
            u64::from_le_bytes(b[24..32].try_into().unwrap()),
        ],
    }
}

/// Equality of `halo2curves::bn256::Fr` (the `==` operator): whether the two
/// operands are the same residue modulo r.
#[verifier::external_body]
fn fr_eq(a: &Fr, b: &Fr) -> (r: bool)
    ensures
        r == (a.value() == b.value()),
{
    halo2curves::bn256::Fr::from_raw(a.limbs) == halo2curves::bn256::Fr::from_raw(b.limbs)
}

/// `ff::Field::invert` on `halo2curves::bn256::Fr`, which fails exactly on
/// zero (its documentation: "failing if the element is zero"): otherwise the
/// element whose product with the operand is one modulo r.
#[verifier::external_body]
fn fr_invert(a: &Fr) -> (r: Option<Fr>)
    ensures
        r is Some <==> a.value() != 0,
        r matches Some(y) ==> (a.value() * y.value()) % fr_modulus() == 1,
{
    let x = halo2curves::ff::Field::invert(&halo2curves::bn256::Fr::from_raw(a.limbs));
    if bool::from(x.is_none()) {
        return None;
    }
    let b = x.unwrap().to_bytes();
    Some(Fr {
        limbs: [
            u64::from_le_bytes(b[0..8].try_into().unwrap()),
            u64::from_le_bytes(b[8..16].try_into().unwrap()),
            u64::from_le_bytes(b[16..24].try_into().unwrap()),
            u64::from_le_bytes(b[24..32].try_into().unwrap()),
        ],
    })
}

impl Field for Fr {
    open spec fn modulus() -> int {
        fr_modulus()
    }

    closed spec fn value(self) -> int {
        limbs_value(self.limbs) % fr_modulus()
    }

    proof fn lemma_modulus() {
    }

    proof fn lemma_value_range(x: Self) {
    }

    fn zero() -> (r: Self) {
        Fr { limbs: [0, 0, 0, 0] }
    }

    fn one() -> (r: Self) {
        Fr { limbs: [1, 0, 0, 0] }
    }

    fn from_u64(v: u64) -> (r: Self) {
        fr_from_u64(v)
    }

    fn plus(&self, rhs: &Self) -> (r: Self) {
        fr_add(self, rhs)
    }

    fn minus(&self, rhs: &Self) -> (r: Self) {
        fr_sub(self, rhs)
    }

    fn negate(&self) -> (r: Self) {
        fr_neg(self)
    }

    fn times(&self, rhs: &Self) -> (r: Self) {
        fr_mul(self, rhs)
    }

    fn is_equal(&self, rhs: &Self) -> (r: bool) {
        fr_eq(self, rhs)
    }

    fn inverse(&self) -> (r: Option<Self>) {
        let r = fr_invert(self);
        proof {
            if self.value() == 0 {
                lemma_zero_not_unit(fr_modulus());
            } else {
                let y = r->0;
                assert(((self.value() * y.value()) % fr_modulus()) == 1);
            }
        }
        r
    }
}

} // verus!
