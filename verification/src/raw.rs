//! The raw commitment scheme for multilinear polynomials: the commitment is
//! the whole evaluation table, an opening is empty, and verification
//! re-evaluates the committed table.

use crate::field::{values, Field};
use crate::multilinear::{mle_eval, MultiLinearPoly};
use vstd::arithmetic::power2::*;
use vstd::prelude::*;

verus! {

/// A raw commitment: the evaluations of the committed polynomial.
#[derive(Clone, Debug)]
pub struct RawCommitment<F> {
    pub evals: Vec<F>,
}

/// Working space of the raw scheme.
#[derive(Clone, Debug)]
pub struct RawMultiLinearScratchPad<F> {
    pub eval_buffer: Vec<F>,
}

/// The raw commitment scheme over multilinear polynomials whose number of
/// variables is the scheme's parameter.
pub struct RawMultiLinearPCS {}

impl RawMultiLinearPCS {
    /// The scheme has no structured reference string; the calibrated number of
    /// variables is the parameter itself.
    pub fn gen_srs_for_testing(params: &usize) -> (r: ((), usize))
        ensures
            r.1 == *params,
    {
        ((), *params)
    }

    /// Commits to `poly` by copying its evaluations.
    pub fn commit<F: Field>(params: &usize, poly: &MultiLinearPoly<F>) -> (r: RawCommitment<F>)
        requires
            poly.coeffs@.len() == pow2(*params as nat),
        ensures
            r.evals@ == poly.coeffs@,
    {
        let mut evals: Vec<F> = Vec::new();
        let mut i: usize = 0;
        while i < poly.coeffs.len()
            invariant
                i <= poly.coeffs@.len(),
                evals@ == poly.coeffs@.subrange(0, i as int),
            decreases poly.coeffs@.len() - i,
        {
            evals.push(poly.coeffs[i]);
            i = i + 1;
        }
        proof {
            assert(evals@ == poly.coeffs@.subrange(0, poly.coeffs@.len() as int));
            assert(poly.coeffs@.subrange(0, poly.coeffs@.len() as int) =~= poly.coeffs@);
        }
        RawCommitment { evals }
    }

    /// Opens `poly` at `x`: the value of its multilinear extension there, with
    /// an empty proof.
    pub fn open<F: Field>(params: &usize, poly: &MultiLinearPoly<F>, x: &Vec<F>) -> (r: (F, ()))
        requires
            x@.len() == *params,
            poly.coeffs@.len() == pow2(*params as nat),
        ensures
            r.0.value() == mle_eval(values(poly.coeffs@), values(x@)) % F::modulus(),
    {
        (poly.evaluate_jolt(x.as_slice()), ())
    }

    /// Accepts `v` as the value at `x` of the committed polynomial exactly when
    /// it is the value of the committed table's multilinear extension there.
    pub fn verify<F: Field>(params: &usize, commitment: &RawCommitment<F>, x: &Vec<F>, v: F) -> (r: bool)
        requires
            x@.len() == *params,
            commitment.evals@.len() == pow2(*params as nat),
        ensures
            r == (v.value() == mle_eval(values(commitment.evals@), values(x@)) % F::modulus()),
    {
        let mut scratch: Vec<F> = Vec::new();
        let mut j: usize = 0;
        while j < commitment.evals.len()
            invariant
                j <= commitment.evals@.len(),
                scratch@.len() == j,
            decreases commitment.evals@.len() - j,
        {
            scratch.push(F::zero());
            j = j + 1;
        }
        let e = MultiLinearPoly::<F>::evaluate_with_buffer(
            commitment.evals.as_slice(),
            x.as_slice(),
            scratch.as_mut_slice(),
        );
        proof {
            F::lemma_value_range(e);
            F::lemma_value_range(v);
        }
        e.is_equal(&v)
    }
}

/// Completeness of the raw scheme: the commitment to a polynomial accepts the
/// value that opening the polynomial produces, at every point.
pub proof fn lemma_raw_pcs_completeness<F: Field>(poly: Seq<F>, commitment: Seq<F>, x: Seq<F>, v: F)
    requires
        commitment == poly,
        v.value() == mle_eval(values(poly), values(x)) % F::modulus(),
    ensures
        v.value() == mle_eval(values(commitment), values(x)) % F::modulus(),
{
}

/// Soundness of the raw scheme: the commitment accepts a claimed value only
/// when it is the committed polynomial's value, so two accepted values agree.
pub proof fn lemma_raw_pcs_binding<F: Field>(commitment: Seq<F>, x: Seq<F>, v1: F, v2: F)
    requires
        v1.value() == mle_eval(values(commitment), values(x)) % F::modulus(),
        v2.value() == mle_eval(values(commitment), values(x)) % F::modulus(),
    ensures
        v1.value() == v2.value(),
{
}

} // verus!
