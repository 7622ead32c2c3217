//! The Mersenne-31 prime field, Z/(2^31 - 1).

use crate::field::{
    is_unit, lemma_congruent_mul, lemma_congruent_sub, lemma_multiple_vanishes, lemma_reduced, Field,
};
use vstd::arithmetic::div_mod::*;
use vstd::prelude::*;

verus! {

/// The Mersenne prime 2^31 - 1.
pub const M31_MODULUS: u32 = 2147483647;

/// An element of the Mersenne-31 field.
#[derive(Clone, Copy, Debug, PartialEq, Eq)]
pub struct M31 {
    v: u32,
}

impl M31 {
    /// The element of value `v mod (2^31 - 1)`.
    pub fn new(v: u32) -> (r: M31)
        ensures
            r.value() == v as int % M31_MODULUS as int,
    {
        M31 { v: v % M31_MODULUS }
    }

    /// The canonical representative in `[0, 2^31 - 1)`.
    pub fn as_u32(&self) -> (r: u32)
        ensures
            r as int == self.value(),
    {
        self.v % M31_MODULUS
    }
}

/// One step of the extended Euclidean algorithm keeps each remainder
/// congruent to its coefficient times `a`.
proof fn lemma_euclid_step(r0: int, r1: int, q: int, r2: int, s0: int, s1: int, s2: int, a: int, p: int)
    requires
        p > 0,
        r0 == q * r1 + r2,
        r0 % p == (s0 * a) % p,
        r1 % p == (s1 * a) % p,
        s2 % p == (s0 - q * s1) % p,
    ensures
        r2 % p == (s2 * a) % p,
{
    lemma_congruent_mul(q, q, r1, s1 * a, p);
    lemma_congruent_sub(r0, s0 * a, q * r1, q * (s1 * a), p);
    assert(s0 * a - q * (s1 * a) == (s0 - q * s1) * a) by (nonlinear_arith);
    lemma_congruent_mul(s0 - q * s1, s2, a, a, p);
}

/// A common divisor larger than one of `a` and `p` rules out an inverse of
/// `a` modulo `p`.
proof fn lemma_common_divisor_not_unit(a: int, p: int, g: int, ua: int, up: int)
    requires
        p > 0,
        g > 1,
        a == ua * g,
        p == up * g,
    ensures
        !is_unit(a, p),
{
    assert forall|y: int| #[trigger] ((a * y) % p) != 1 by {
        if (a * y) % p == 1 {
            let k = (a * y) / p;
            lemma_fundamental_div_mod(a * y, p);
            assert(g * (ua * y - k * up) == 1) by (nonlinear_arith)
                requires
                    a * y == p * k + 1,
                    a == ua * g,
                    p == up * g,
            ;
            let z = ua * y - k * up;
            assert(false) by (nonlinear_arith)
                requires
                    g > 1,
                    g * z == 1,
            ;
        }
    }
}

/// The inverse of `a` modulo the M31 prime, by the extended Euclidean
/// algorithm, when there is one.
fn inverse_mod_p(a: u32) -> (r: Option<u32>)
    requires
        a < M31_MODULUS,
    ensures
        r is Some <==> is_unit(a as int, M31_MODULUS as int),
        r matches Some(y) ==> y < M31_MODULUS && (a * y) % (M31_MODULUS as int) == 1,
{
    let ghost pp = M31_MODULUS as int;
    let p: u64 = M31_MODULUS as u64;
    let mut r0: u64 = p;
    let mut r1: u64 = a as u64;
    let mut s0: u64 = 0;
    let mut s1: u64 = 1;
    let ghost mut u0: int = 1;
    let ghost mut v0: int = 0;
    let ghost mut u1: int = 0;
    let ghost mut v1: int = 1;
    proof {
        lemma_reduced(a as int, pp);
        assert((0 * a) % pp == 0);
        assert(p % p == 0);
    }
    while r1 != 0
        invariant
            p == M31_MODULUS,
            pp == p,
            0 < r0 <= p,
            r1 <= p,
            s0 < p,
            s1 < p,
            (r0 as int) % pp == (s0 * a) % pp,
            (r1 as int) % pp == (s1 * a) % pp,
            pp == u0 * r0 + v0 * r1,
            a == u1 * r0 + v1 * r1,
        decreases r1,
    {
        let q = r0 / r1;
        let r2 = r0 % r1;
        assert(q * s1 <= p * p) by (nonlinear_arith)
            requires
                q <= p,
                s1 < p,
        ;
        let qs = (q * s1) % p;
        let s2 = (s0 + p - qs) % p;
        proof {
            lemma_fundamental_div_mod(r0 as int, r1 as int);
            assert(r0 == q * r1 + r2);
            lemma_mod_twice(q * s1, pp);
            lemma_multiple_vanishes(s0 - qs, 1, pp);
            lemma_congruent_sub(s0 as int, s0 as int, qs as int, q * s1, pp);
            lemma_euclid_step(r0 as int, r1 as int, q as int, r2 as int, s0 as int, s1 as int, s2 as int, a as int, pp);
            let nu0 = u0 * q + v0;
            let nu1 = u1 * q + v1;
            assert(pp == nu0 * r1 + u0 * r2) by (nonlinear_arith)
                requires
                    pp == u0 * r0 + v0 * r1,
                    r0 == q * r1 + r2,
                    nu0 == u0 * q + v0,
            ;
            assert(a == nu1 * r1 + u1 * r2) by (nonlinear_arith)
                requires
                    a == u1 * r0 + v1 * r1,
                    r0 == q * r1 + r2,
                    nu1 == u1 * q + v1,
            ;
            v0 = u0;
            u0 = nu0;
            v1 = u1;
            u1 = nu1;
        }
        r0 = r1;
        r1 = r2;
        s0 = s1;
        s1 = s2;
    }
    if r0 == 1 {
        proof {
            lemma_reduced(1, pp);
            assert((a * s0) % pp == 1);
        }
        Some(s0 as u32)
    } else {
        proof {
            lemma_common_divisor_not_unit(a as int, pp, r0 as int, u1, u0);
        }
        None
    }
}

impl Field for M31 {
    open spec fn modulus() -> int {
        M31_MODULUS as int
    }

    closed spec fn value(self) -> int {
        self.v as int % M31_MODULUS as int
    }

    proof fn lemma_modulus() {
    }

    proof fn lemma_value_range(x: Self) {
    }

    fn zero() -> (r: Self) {
        M31 { v: 0 }
    }

    fn one() -> (r: Self) {
        M31 { v: 1 }
    }

    fn from_u64(v: u64) -> (r: Self) {
        let r = (v % (M31_MODULUS as u64)) as u32;
        proof {
            lemma_reduced(r as int, M31_MODULUS as int);
        }
        M31 { v: r }
    }

    fn plus(&self, rhs: &Self) -> (r: Self) {
        let a = (self.v % M31_MODULUS) as u64;
        let b = (rhs.v % M31_MODULUS) as u64;
        let s = ((a + b) % (M31_MODULUS as u64)) as u32;
        proof {
            lemma_reduced(s as int, M31_MODULUS as int);
        }
        M31 { v: s }
    }

    fn minus(&self, rhs: &Self) -> (r: Self) {
        let a = (self.v % M31_MODULUS) as u64;
        let b = (rhs.v % M31_MODULUS) as u64;
        let s = ((a + (M31_MODULUS as u64) - b) % (M31_MODULUS as u64)) as u32;
        proof {
            let m = M31_MODULUS as int;
            lemma_reduced(s as int, m);
            lemma_multiple_vanishes(a - b, 1, m);
        }
        M31 { v: s }
    }

    fn negate(&self) -> (r: Self) {
        let a = (self.v % M31_MODULUS) as u64;
        let s = (((M31_MODULUS as u64) - a) % (M31_MODULUS as u64)) as u32;
        proof {
            let m = M31_MODULUS as int;
            lemma_reduced(s as int, m);
            lemma_multiple_vanishes(-a, 1, m);
        }
        M31 { v: s }
    }

    fn times(&self, rhs: &Self) -> (r: Self) {
        let a = (self.v % M31_MODULUS) as u64;
        let b = (rhs.v % M31_MODULUS) as u64;
        assert(a * b <= u64::MAX) by (nonlinear_arith)
            requires
                a < 2147483647,
                b < 2147483647,
        ;
        let s = ((a * b) % (M31_MODULUS as u64)) as u32;
        proof {
            let m = M31_MODULUS as int;
            lemma_reduced(s as int, m);
            lemma_mul_mod_noop(self.v as int, rhs.v as int, m);
        }
        M31 { v: s }
    }

    fn is_equal(&self, rhs: &Self) -> (r: bool) {
        self.v % M31_MODULUS == rhs.v % M31_MODULUS
    }

    fn inverse(&self) -> (r: Option<Self>) {
        match inverse_mod_p(self.v % M31_MODULUS) {
            Some(y) => {
                proof {
                    lemma_reduced(y as int, M31_MODULUS as int);
                }
                Some(M31 { v: y })
            },
            None => None,
        }
    }
}

} // verus!
