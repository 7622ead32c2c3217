//! Prime fields of the form Z/mZ, given by the canonical integer value of each
//! element, with the modular-arithmetic facts the rest of the crate relies on.

use vstd::arithmetic::div_mod::*;
use vstd::prelude::*;

verus! {

/// A field (or ring) Z/mZ whose elements are described by an integer value in
/// `[0, modulus)`. Every operation is specified by the modular arithmetic on
/// those values.
pub trait Field: Sized + Copy {
    /// The characteristic of the field.
    spec fn modulus() -> int;

    /// The integer in `[0, modulus)` that this element stands for.
    spec fn value(self) -> int;

    proof fn lemma_modulus()
        ensures
            Self::modulus() > 1,
    ;

    proof fn lemma_value_range(x: Self)
        ensures
            Self::modulus() > 1,
            0 <= x.value() < Self::modulus(),
    ;

    fn zero() -> (r: Self)
        ensures
            r.value() == 0,
    ;

    fn one() -> (r: Self)
        ensures
            r.value() == 1,
    ;

    fn from_u64(v: u64) -> (r: Self)
        ensures
            r.value() == v as int % Self::modulus(),
    ;

    fn plus(&self, rhs: &Self) -> (r: Self)
        ensures
            r.value() == (self.value() + rhs.value()) % Self::modulus(),
    ;

    fn minus(&self, rhs: &Self) -> (r: Self)
        ensures
            r.value() == (self.value() - rhs.value()) % Self::modulus(),
    ;

    fn negate(&self) -> (r: Self)
        ensures
            r.value() == (-self.value()) % Self::modulus(),
    ;

    fn times(&self, rhs: &Self) -> (r: Self)
        ensures
            r.value() == (self.value() * rhs.value()) % Self::modulus(),
    ;

    fn is_equal(&self, rhs: &Self) -> (r: bool)
        ensures
            r == (self.value() == rhs.value()),
    ;

    /// The multiplicative inverse, when there is one.
    fn inverse(&self) -> (r: Option<Self>)
        ensures
            r is Some <==> is_unit(self.value(), Self::modulus()),
            r matches Some(y) ==> (self.value() * y.value()) % Self::modulus() == 1,
    ;
}

/// `x` has a multiplicative inverse modulo `m`.
pub open spec fn is_unit(x: int, m: int) -> bool {
    exists|y: int| #[trigger] ((x * y) % m) == 1
}

/// Zero has no inverse.
pub proof fn lemma_zero_not_unit(m: int)
    requires
        m > 1,
    ensures
        !is_unit(0, m),
{
    assert forall|y: int| #[trigger] ((0 * y) % m) != 1 by {
        assert(0 * y == 0);
    }
}

/// Having an inverse depends only on the residue.
pub proof fn lemma_unit_congruent(x: int, x2: int, m: int)
    requires
        m > 0,
        x % m == x2 % m,
        is_unit(x, m),
    ensures
        is_unit(x2, m),
{
    let y = choose|y: int| #[trigger] ((x * y) % m) == 1;
    lemma_congruent_mul(x, x2, y, y, m);
    assert((x2 * y) % m == 1);
}

/// The values of a sequence of field elements, as integers.
pub open spec fn values<F: Field>(s: Seq<F>) -> Seq<int> {
    Seq::new(s.len(), |i: int| s[i].value())
}

/// The componentwise combination `w * a + b`.
pub open spec fn lin(a: Seq<int>, b: Seq<int>, w: int) -> Seq<int> {
    Seq::new(a.len(), |i: int| w * a[i] + b[i])
}

/// `x` and `y` are congruent modulo `m`.
pub open spec fn congruent(x: int, y: int, m: int) -> bool {
    x % m == y % m
}

/// A value already reduced modulo `m` equals its own reduction.
pub proof fn lemma_reduced(x: int, m: int)
    requires
        0 <= x < m,
    ensures
        x % m == x,
{
    lemma_small_mod(x as nat, m as nat);
}

/// Congruence is preserved by addition on both sides.
pub proof fn lemma_congruent_add(a: int, b: int, c: int, d: int, m: int)
    requires
        m > 0,
        a % m == b % m,
        c % m == d % m,
    ensures
        (a + c) % m == (b + d) % m,
{
    lemma_add_mod_noop(a, c, m);
    lemma_add_mod_noop(b, d, m);
}

/// Congruence is preserved by subtraction on both sides.
pub proof fn lemma_congruent_sub(a: int, b: int, c: int, d: int, m: int)
    requires
        m > 0,
        a % m == b % m,
        c % m == d % m,
    ensures
        (a - c) % m == (b - d) % m,
{
    lemma_sub_mod_noop(a, c, m);
    lemma_sub_mod_noop(b, d, m);
}

/// Congruence is preserved by multiplication on both sides.
pub proof fn lemma_congruent_mul(a: int, b: int, c: int, d: int, m: int)
    requires
        m > 0,
        a % m == b % m,
        c % m == d % m,
    ensures
        (a * c) % m == (b * d) % m,
{
    lemma_mul_mod_noop(a, c, m);
    lemma_mul_mod_noop(b, d, m);
}

/// A multiple of `m` vanishes modulo `m`.
pub proof fn lemma_multiple_vanishes(a: int, k: int, m: int)
    requires
        m > 0,
    ensures
        (a + k * m) % m == a % m,
{
    lemma_mod_multiples_vanish(k, a, m);
    assert(m * k == k * m) by (nonlinear_arith);
}

} // verus!
