//! The binary field GF(2) = Z/2Z.

use crate::field::{is_unit, lemma_multiple_vanishes, lemma_reduced, lemma_zero_not_unit, Field};
use vstd::arithmetic::div_mod::*;
use vstd::prelude::*;

verus! {

/// An element of GF(2).
#[derive(Clone, Copy, Debug, PartialEq, Eq)]
pub struct GF2 {
    v: u8,
}

impl GF2 {
    /// The element given by the low bit of `v`.
    pub fn new(v: u8) -> (r: GF2)
        ensures
            r.value() == v as int % 2,
    {
        GF2 { v: v % 2 }
    }

    /// The bit this element stands for.
    pub fn as_u8(&self) -> (r: u8)
        ensures
            r as int == self.value(),
    {
        self.v % 2
    }
}

impl Field for GF2 {
    open spec fn modulus() -> int {
        2
    }

    closed spec fn value(self) -> int {
        self.v as int % 2
    }

    proof fn lemma_modulus() {
    }

    proof fn lemma_value_range(x: Self) {
    }

    fn zero() -> (r: Self) {
        GF2 { v: 0 }
    }

    fn one() -> (r: Self) {
        GF2 { v: 1 }
    }

    fn from_u64(v: u64) -> (r: Self) {
        GF2 { v: (v % 2) as u8 }
    }

    fn plus(&self, rhs: &Self) -> (r: Self) {
        GF2 { v: (self.v % 2 + rhs.v % 2) % 2 }
    }

    fn minus(&self, rhs: &Self) -> (r: Self) {
        let a = self.v % 2;
        let b = rhs.v % 2;
        proof {
            lemma_multiple_vanishes(a - b, 1, 2);
        }
        GF2 { v: (a + 2 - b) % 2 }
    }

    fn negate(&self) -> (r: Self) {
        let a = self.v % 2;
        proof {
            lemma_multiple_vanishes(-a, 1, 2);
        }
        GF2 { v: (2 - a) % 2 }
    }

    fn times(&self, rhs: &Self) -> (r: Self) {
        let a = self.v % 2;
        let b = rhs.v % 2;
        proof {
            lemma_mul_mod_noop(self.v as int, rhs.v as int, 2);
        }
        assert(a * b <= 1) by (nonlinear_arith)
            requires
                a < 2,
                b < 2,
        ;
        GF2 { v: (a * b) % 2 }
    }

    fn is_equal(&self, rhs: &Self) -> (r: bool) {
        self.v % 2 == rhs.v % 2
    }

    fn inverse(&self) -> (r: Option<Self>) {
        if self.v % 2 == 1 {
            assert((1int * 1int) % 2 == 1);
            Some(GF2 { v: 1 })
        } else {
            proof {
                lemma_zero_not_unit(2);
            }
            None
        }
    }
}

} // verus!
