//! KZG commitments to univariate polynomials in coefficient form over BN254,
//! with the group operations and the pairing carried out by `halo2curves`.

use crate::field::{is_unit, lin, values, Field};
use crate::hyper_kzg::{
    coeff_form_hyperkzg_local_evals, coeff_form_hyperkzg_local_folded_coeffs, is_power_of_two, fold_chain, hyperkzg_beta_ok, hyperkzg_folds_honest, hyperkzg_open_gamma_phase,
    aggregate_seq, evals_from_reported, eval_prefix, hyperkzg_open_tau_phase, lemma_eval_by_powers, local_evals_of, padd, rebuilt_evals_end_in, vec_values, HyperKZGExportedLocalEvals, HyperKZGLocalEvals,
};
use crate::hyper_bikzg::reported_final_eval;
use crate::fr::{fr_modulus, Fr};
use crate::multilinear::{lemma_merged_mle, merged_table, mle_eval, weighted_sum, MultiLinearPoly};
use crate::univariate::{
    coeff_form_degree2_lagrange, dot_prefix, is_linear_division, lemma_linear_division_remainder, poly_eval, powers_series, reduce,
    polynomial_add, univariate_degree_one_quotient, univariate_evaluate, lemma_poly_eval_point_congruent,
    lemma_poly_eval_reduce,
};
use crate::group::{
    g1_generator_mul_of, g1_msm_of, g1_multiples, g1_sub_of, g1_views, g2_generator_mul_of, g2_multiples, g2_sub_of,
    g2_views, g1_add_of, g1_scalar_mul_of, is_scalar, msm_exponent, pairing_check_of, pairing_exponent, g1_add, g1_generator_mul, g1_msm, g1_scalar_mul, g1_sub, g2_generator_mul, g2_sub, pairing_product_is_identity, G1Point,
    G2Point,
};
use rand::rngs::StdRng;
use vstd::arithmetic::power::pow;
use vstd::arithmetic::power2::*;
use vstd::prelude::*;

verus! {

/// `ff::Field::random` for `halo2curves::bn256::Fr`: a field element drawn
/// from `rng`. Which element comes out is left unsaid.
#[verifier::external_body]
fn random_fr(rng: &mut StdRng) -> (r: Fr) {
    let x = <halo2curves::bn256::Fr as halo2curves::ff::Field>::random(rng);
    let b = x.to_bytes();
    Fr {
        limbs: [
            u64::from_le_bytes(b[0..8].try_into().unwrap()),
            u64::from_le_bytes(b[8..16].try_into().unwrap()),
            u64::from_le_bytes(b[16..24].try_into().unwrap()),
            u64::from_le_bytes(b[24..32].try_into().unwrap()),
        ],
    }
}

/// The structured reference string of KZG in coefficient form: `tau^i` times
/// the generator of G1 for `i` below its length, and `tau` times the
/// generator of G2.
#[derive(Debug)]
pub struct CoefFormUniKZGSRS {
    pub powers_of_tau: Vec<G1Point>,
    pub tau_g2: G2Point,
}

/// What a KZG verifier needs: `tau` times the generator of G2.
#[derive(Debug)]
pub struct UniKZGVerifierParams {
    pub tau_g2: G2Point,
}

impl UniKZGVerifierParams {
    /// The verifier's part of a reference string.
    pub fn from_srs(srs: &CoefFormUniKZGSRS) -> (r: Self)
        ensures
            r.tau_g2 == srs.tau_g2,
    {
        UniKZGVerifierParams { tau_g2: srs.tau_g2 }
    }
}

/// Each point of `powers` is the generator of G1 times `tau^i scale`, `i` its
/// position.
pub open spec fn g1_powers_of(powers: Seq<Seq<u8>>, tau: int, scale: int) -> bool {
    forall|i: int|
        0 <= i < powers.len() ==> #[trigger] powers[i] == g1_generator_mul_of((pow(tau, i as nat) * scale) % fr_modulus())
}

/// `srs` is the reference string of the secret `tau`: its powers are `tau^i`
/// times the generator of G1 and its G2 element is `tau` times the generator
/// of G2.
pub open spec fn kzg_srs_for(srs: CoefFormUniKZGSRS, tau: int) -> bool {
    &&& is_scalar(tau)
    &&& g1_powers_of(g1_views(srs.powers_of_tau@), tau, 1)
    &&& srs.tau_g2@ == g2_generator_mul_of(tau)
}

/// The KZG equation of an opening `o` at `alpha` to `eval` of a commitment
/// `c`, all as exponents of the generators, with the secret `tau`:
/// `o (tau - alpha) = c - eval` modulo r.
pub open spec fn kzg_equation(o: int, tau: int, alpha: int, eval: int, c: int) -> bool {
    (o * (tau - alpha) + (eval - c)) % fr_modulus() == 0
}

/// A reference string of `length` powers for a secret `tau` drawn from `rng`.
pub fn generate_coef_form_uni_kzg_srs_for_testing(length: usize, rng: &mut StdRng) -> (r: CoefFormUniKZGSRS)
    requires
        is_power_of_two(length as int),
    ensures
        r.powers_of_tau@.len() == length,
        exists|tau: int| #[trigger] kzg_srs_for(r, tau),
{
    proof {
        let k = choose|k: nat| vstd::arithmetic::power2::pow2(k) == length as int;
        vstd::arithmetic::power2::lemma_pow2_pos(k);
    }
    let tau = random_fr(rng);
    let ghost t = tau.value();
    proof {
        Fr::lemma_value_range(tau);
    }
    let tau_geometric_progression = powers_series(&tau, length);
    let mut powers_of_tau: Vec<G1Point> = Vec::new();
    let mut i: usize = 0;
    while i < length
        invariant
            i <= length,
            t == tau.value(),
            tau_geometric_progression@.len() == length,
            forall|j: int| 0 <= j < length ==> #[trigger] tau_geometric_progression@[j].value() == pow(t, j as nat) % Fr::modulus(),
            powers_of_tau@.len() == i,
            forall|j: int|
                0 <= j < i ==> #[trigger] powers_of_tau@[j]@ == g1_generator_mul_of((pow(t, j as nat) * 1) % fr_modulus()),
        decreases length - i,
    {
        powers_of_tau.push(g1_generator_mul(&tau_geometric_progression[i]));
        i = i + 1;
    }
    let r = CoefFormUniKZGSRS { powers_of_tau, tau_g2: g2_generator_mul(&tau) };
    proof {
        assert(kzg_srs_for(r, t));
    }
    r
}

/// The first `n` powers of the reference string.
fn srs_prefix(srs: &CoefFormUniKZGSRS, n: usize) -> (r: Vec<G1Point>)
    requires
        n <= srs.powers_of_tau@.len(),
    ensures
        r@ == srs.powers_of_tau@.subrange(0, n as int),
{
    let mut r: Vec<G1Point> = Vec::new();
    let mut i: usize = 0;
    while i < n
        invariant
            i <= n <= srs.powers_of_tau@.len(),
            r@ == srs.powers_of_tau@.subrange(0, i as int),
        decreases n - i,
    {
        r.push(srs.powers_of_tau[i]);
        i = i + 1;
    }
    r
}

/// The dot product with scaled entries is the scaled dot product, modulo `m`.
proof fn lemma_dot_scaled(c: Seq<int>, a: Seq<int>, e: Seq<int>, s: int, m: int, n: int)
    requires
        m > 0,
        forall|i: int| 0 <= i < n ==> #[trigger] e[i] % m == (a[i] * s) % m,
    ensures
        dot_prefix(c, e, n) % m == (dot_prefix(c, a, n) * s) % m,
    decreases n,
{
    if n > 0 {
        lemma_dot_scaled(c, a, e, s, m, n - 1);
        let da = dot_prefix(c, a, n - 1);
        let de = dot_prefix(c, e, n - 1);
        crate::field::lemma_congruent_mul(c[n - 1], c[n - 1], e[n - 1], a[n - 1] * s, m);
        assert(c[n - 1] * (a[n - 1] * s) == (c[n - 1] * a[n - 1]) * s) by (nonlinear_arith);
        crate::field::lemma_congruent_add(de, da * s, c[n - 1] * e[n - 1], (c[n - 1] * a[n - 1]) * s, m);
        assert(da * s + (c[n - 1] * a[n - 1]) * s == (da + c[n - 1] * a[n - 1]) * s) by (nonlinear_arith);
    }
}

/// The exponent of the combination of the powers `tau^i scale` with the
/// coefficients `c` is `c(tau) scale`.
pub proof fn lemma_commitment_exponent(c: Seq<int>, tau: int, scale: int)
    ensures
        msm_exponent(c, Seq::new(c.len(), |i: int| (pow(tau, i as nat) * scale) % fr_modulus())) == (poly_eval(c, tau)
            * scale) % fr_modulus(),
{
    let m = fr_modulus();
    let e = Seq::new(c.len(), |i: int| (pow(tau, i as nat) * scale) % m);
    let a = Seq::new(c.len(), |i: int| pow(tau, i as nat) % m);
    assert forall|i: int| 0 <= i < c.len() implies #[trigger] e[i] % m == (a[i] * scale) % m by {
        vstd::arithmetic::div_mod::lemma_mod_twice(pow(tau, i as nat) * scale, m);
        vstd::arithmetic::div_mod::lemma_mul_mod_noop_left(pow(tau, i as nat), scale, m);
    }
    lemma_dot_scaled(c, a, e, scale, m, c.len() as int);
    crate::univariate::lemma_evaluate_with_powers(c, a, tau, m);
    crate::field::lemma_congruent_mul(dot_prefix(c, a, c.len() as int), poly_eval(c, tau), scale, scale, m);
}

/// The commitment to the polynomial with coefficients `c` under the powers
/// `powers`: their multi-scalar multiplication, as many powers as
/// coefficients.
pub open spec fn kzg_commitment_of(powers: Seq<Seq<u8>>, c: Seq<int>) -> Seq<u8> {
    g1_msm_of(c, powers.subrange(0, c.len() as int))
}

/// The commitment to the polynomial with coefficients `coeffs`: the
/// combination of the reference string's powers with the coefficients. For
/// powers `tau^i scale` of the generator, it is `c(tau) scale` times the
/// generator.
pub fn coeff_form_uni_kzg_commit(srs: &CoefFormUniKZGSRS, coeffs: &[Fr]) -> (r: G1Point)
    requires
        srs.powers_of_tau@.len() >= coeffs@.len(),
    ensures
        r@ == kzg_commitment_of(g1_views(srs.powers_of_tau@), values(coeffs@)),
        forall|tau: int, scale: int|
            #![trigger g1_powers_of(g1_views(srs.powers_of_tau@), tau, scale)]
            g1_powers_of(g1_views(srs.powers_of_tau@), tau, scale) ==> r@ == g1_generator_mul_of(
                (poly_eval(values(coeffs@), tau) * scale) % fr_modulus(),
            ),
{
    let bases = srs_prefix(srs, coeffs.len());
    let r = g1_msm(coeffs, bases.as_slice());
    proof {
        assert(g1_views(bases@) =~= g1_views(srs.powers_of_tau@).subrange(0, coeffs@.len() as int));
        assert forall|tau: int, scale: int|
            #![trigger g1_powers_of(g1_views(srs.powers_of_tau@), tau, scale)]
            g1_powers_of(g1_views(srs.powers_of_tau@), tau, scale) implies r@ == g1_generator_mul_of(
                (poly_eval(values(coeffs@), tau) * scale) % fr_modulus(),
            ) by {
            let c = values(coeffs@);
            let e = Seq::new(c.len(), |i: int| (pow(tau, i as nat) * scale) % fr_modulus());
            assert forall|i: int| 0 <= i < e.len() implies is_scalar(e[i]) && g1_views(bases@)[i] == g1_generator_mul_of(
                #[trigger] e[i],
            ) by {
                assert(g1_views(srs.powers_of_tau@)[i] == g1_generator_mul_of((pow(tau, i as nat) * scale) % fr_modulus()));
            }
            assert(g1_multiples(g1_views(bases@), e));
            lemma_commitment_exponent(c, tau, scale);
            assert(r@ == g1_generator_mul_of(msm_exponent(c, e)));
        }
    }
    r
}

/// Opens the polynomial at `alpha`: its value there, and the commitment to
/// its quotient by `X - alpha`. For powers `tau^i scale` of the generator,
/// the commitment is `o` times the generator with `o (tau - alpha) = (c(tau) -
/// c(alpha)) scale`.
pub fn coeff_form_uni_kzg_open_eval(srs: &CoefFormUniKZGSRS, coeffs: &[Fr], alpha: Fr) -> (r: (Fr, G1Point))
    requires
        coeffs@.len() >= 1,
        srs.powers_of_tau@.len() >= coeffs@.len(),
    ensures
        r.0.value() == poly_eval(values(coeffs@), alpha.value()) % Fr::modulus(),
        exists|q: Seq<int>|
            #[trigger] is_linear_division(values(coeffs@), q, r.0.value(), alpha.value(), Fr::modulus()) && (forall|i: int|
                0 <= i < q.len() ==> is_scalar(#[trigger] q[i])) && r.1@ == kzg_commitment_of(
                g1_views(srs.powers_of_tau@),
                q,
            ),
        forall|tau: int, scale: int|
            #![trigger g1_powers_of(g1_views(srs.powers_of_tau@), tau, scale)]
            g1_powers_of(g1_views(srs.powers_of_tau@), tau, scale) ==> exists|o: int|
                is_scalar(o) && r.1@ == #[trigger] g1_generator_mul_of(o) && (o * (tau - alpha.value()) - (poly_eval(
                    values(coeffs@),
                    tau,
                ) - r.0.value()) * scale) % fr_modulus() == 0,
{
    let (div, eval) = univariate_degree_one_quotient(coeffs, alpha);
    let ghost c = values(coeffs@);
    let ghost q = values(div@);
    let ghost m = Fr::modulus();
    proof {
        Fr::lemma_modulus();
        lemma_linear_division_remainder(values(coeffs@), values(div@), eval.value(), alpha.value(), Fr::modulus());
        Fr::lemma_value_range(eval);
        crate::field::lemma_reduced(eval.value(), Fr::modulus());
        assert forall|i: int| 0 <= i < q.len() implies is_scalar(#[trigger] q[i]) by {
            Fr::lemma_value_range(div@[i]);
        }
    }
    let opening = coeff_form_uni_kzg_commit(srs, div.as_slice());
    proof {
        assert forall|tau: int, scale: int|
            #![trigger g1_powers_of(g1_views(srs.powers_of_tau@), tau, scale)]
            g1_powers_of(g1_views(srs.powers_of_tau@), tau, scale) implies exists|o: int|
                is_scalar(o) && opening@ == #[trigger] g1_generator_mul_of(o) && (o * (tau - alpha.value()) - (poly_eval(
                    c,
                    tau,
                ) - eval.value()) * scale) % fr_modulus() == 0 by {
            let o = (poly_eval(q, tau) * scale) % m;
            crate::univariate::lemma_linear_division_identity(c, q, eval.value(), alpha.value(), m, tau);
            lemma_opening_exponent(poly_eval(c, tau), poly_eval(q, tau), eval.value(), tau, alpha.value(), scale, m);
            assert(opening@ == g1_generator_mul_of(o));
        }
    }
    (eval, opening)
}

/// From `c(tau) = q(tau) (tau - alpha) + eval` modulo `m`, the opening
/// exponent `q(tau) scale` meets the KZG equation scaled by `scale`.
proof fn lemma_opening_exponent(ct: int, qt: int, eval: int, tau: int, alpha: int, scale: int, m: int)
    requires
        m > 0,
        ct % m == (qt * (tau - alpha) + eval) % m,
    ensures
        (((qt * scale) % m) * (tau - alpha) - (ct - eval) * scale) % m == 0,
{
    let s = scale;
    let a = qt * (tau - alpha);
    let x = ((qt * s) % m) * (tau - alpha);
    let y = (ct - eval) * s;
    vstd::arithmetic::div_mod::lemma_mul_mod_noop_left(qt * s, tau - alpha, m);
    assert((qt * s) * (tau - alpha) == a * s) by (nonlinear_arith)
        requires
            a == qt * (tau - alpha),
    ;
    assert(x % m == (a * s) % m);
    crate::field::lemma_congruent_mul(ct, a + eval, s, s, m);
    assert(y == ct * s - eval * s) by (nonlinear_arith)
        requires
            y == (ct - eval) * s,
    ;
    assert((a + eval) * s - eval * s == a * s) by (nonlinear_arith);
    vstd::arithmetic::div_mod::lemma_sub_mod_noop(ct * s, eval * s, m);
    vstd::arithmetic::div_mod::lemma_sub_mod_noop((a + eval) * s, eval * s, m);
    assert(y % m == (a * s) % m);
    vstd::arithmetic::div_mod::lemma_sub_mod_noop(x, y, m);
    assert(0int % m == 0);
}

/// Checks an opening: `e(opening, tau g2 - alpha g2) = e(comm - eval g1, g2)`,
/// as one product of pairings that must be the identity. For multiples of
/// the generators, the answer is the KZG equation of their exponents.
pub fn coeff_form_uni_kzg_verify(
    vk: UniKZGVerifierParams,
    comm: G1Point,
    alpha: Fr,
    eval: Fr,
    opening: G1Point,
) -> (r: bool)
    ensures
        r == pairing_check_of(
            seq![opening@, g1_sub_of(g1_generator_mul_of(eval.value()), comm@)],
            seq![g2_sub_of(vk.tau_g2@, g2_generator_mul_of(alpha.value())), g2_generator_mul_of(1)],
        ),
        forall|t: int, c: int, o: int|
            #![trigger g2_generator_mul_of(t), g1_generator_mul_of(c), g1_generator_mul_of(o)]
            is_scalar(t) && is_scalar(c) && is_scalar(o) && vk.tau_g2@ == g2_generator_mul_of(t) && comm@
                == g1_generator_mul_of(c) && opening@ == g1_generator_mul_of(o) ==> (r <==> kzg_equation(
                o,
                t,
                alpha.value(),
                eval.value(),
                c,
            )),
{
    let g1_eval = g1_generator_mul(&eval);
    let g2_alpha = g2_generator_mul(&alpha);
    let g2_one = g2_generator_mul(&Fr::one());
    let tau_minus_alpha = g2_sub(&vk.tau_g2, &g2_alpha);
    let eval_minus_comm = g1_sub(&g1_eval, &comm);
    let g1s: Vec<G1Point> = vec![opening, eval_minus_comm];
    let g2s: Vec<G2Point> = vec![tau_minus_alpha, g2_one];
    let r = pairing_product_is_identity(g1s.as_slice(), g2s.as_slice());
    proof {
        Fr::lemma_value_range(eval);
        Fr::lemma_value_range(alpha);
        Fr::lemma_modulus();
        assert(g1_views(g1s@) =~= seq![opening@, eval_minus_comm@]);
        assert(g2_views(g2s@) =~= seq![tau_minus_alpha@, g2_one@]);
        assert forall|t: int, c: int, o: int|
            #![trigger g2_generator_mul_of(t), g1_generator_mul_of(c), g1_generator_mul_of(o)]
            is_scalar(t) && is_scalar(c) && is_scalar(o) && vk.tau_g2@ == g2_generator_mul_of(t) && comm@
                == g1_generator_mul_of(c) && opening@ == g1_generator_mul_of(o) implies (r <==> kzg_equation(
                o,
                t,
                alpha.value(),
                eval.value(),
                c,
            )) by {
            let m = fr_modulus();
            let ev = eval.value();
            let av = alpha.value();
            assert(g1_generator_mul_of(ev) == g1_eval@);
            assert(g2_generator_mul_of(av) == g2_alpha@);
            let d1 = (ev - c) % m;
            let d2 = (t - av) % m;
            assert(eval_minus_comm@ == g1_generator_mul_of(d1));
            assert(tau_minus_alpha@ == g2_generator_mul_of(d2));
            let a = seq![o, d1];
            let b = seq![d2, 1int];
            assert(g1_multiples(g1_views(g1s@), a));
            assert(g2_multiples(g2_views(g2s@), b));
            assert(r <==> pairing_exponent(a, b) == 0);
            lemma_two_term_exponent(o, d1, d2, t, av, ev, c);
        }
    }
    r
}

/// The exponent of the two pairings of the KZG check is zero exactly when the
/// KZG equation holds.
proof fn lemma_two_term_exponent(o: int, d1: int, d2: int, t: int, av: int, ev: int, c: int)
    requires
        d1 == (ev - c) % fr_modulus(),
        d2 == (t - av) % fr_modulus(),
    ensures
        (pairing_exponent(seq![o, d1], seq![d2, 1int]) == 0) <==> kzg_equation(o, t, av, ev, c),
{
    let m = fr_modulus();
    let a = seq![o, d1];
    let b = seq![d2, 1int];
    assert(a[0] == o && a[1] == d1 && b[0] == d2 && b[1] == 1);
    assert(dot_prefix(a, b, 0) == 0);
    assert(dot_prefix(a, b, 1) == o * d2);
    assert(a[1] * b[1] == d1);
    assert(dot_prefix(a, b, 2) == dot_prefix(a, b, 1) + a[1] * b[1]);
    assert(dot_prefix(a, b, 2) == o * d2 + d1);
    vstd::arithmetic::div_mod::lemma_mod_twice(t - av, m);
    vstd::arithmetic::div_mod::lemma_mod_twice(ev - c, m);
    crate::field::lemma_congruent_mul(o, o, d2, t - av, m);
    crate::field::lemma_congruent_add(o * d2, o * (t - av), d1, ev - c, m);
}


/// Completeness of KZG: with the reference string of the secret `tau`, the
/// commitment to a polynomial `c` and an opening at `alpha` to its value there,
/// as `coeff_form_uni_kzg_commit` and `coeff_form_uni_kzg_open_eval` describe
/// them, are multiples of the generators whose exponents meet the KZG
/// equation, so that `coeff_form_uni_kzg_verify` accepts them.
pub proof fn lemma_kzg_complete(srs: CoefFormUniKZGSRS, tau: int, c: Seq<int>, alpha: int, eval: int, comm: Seq<u8>, opening: Seq<u8>)
    requires
        kzg_srs_for(srs, tau),
        comm == g1_generator_mul_of((poly_eval(c, tau) * 1) % fr_modulus()),
        eval == poly_eval(c, alpha) % fr_modulus(),
        exists|o: int|
            is_scalar(o) && opening == #[trigger] g1_generator_mul_of(o) && (o * (tau - alpha) - (poly_eval(c, tau) - eval)
                * 1) % fr_modulus() == 0,
    ensures
        exists|cv: int, o: int|
            is_scalar(cv) && is_scalar(o) && srs.tau_g2@ == g2_generator_mul_of(tau) && comm == g1_generator_mul_of(cv)
                && opening == g1_generator_mul_of(o) && #[trigger] kzg_equation(o, tau, alpha, eval, cv),
{
    let m = fr_modulus();
    let o = choose|o: int|
        is_scalar(o) && opening == #[trigger] g1_generator_mul_of(o) && (o * (tau - alpha) - (poly_eval(c, tau) - eval) * 1)
            % fr_modulus() == 0;
    let ft = poly_eval(c, tau);
    let cv = (ft * 1) % m;
    vstd::arithmetic::div_mod::lemma_mod_twice(ft, m);
    vstd::arithmetic::div_mod::lemma_sub_mod_noop(eval, ft, m);
    vstd::arithmetic::div_mod::lemma_sub_mod_noop(eval, cv, m);
    crate::field::lemma_congruent_add(o * (tau - alpha), o * (tau - alpha), eval - cv, eval - ft, m);
    assert((o * (tau - alpha) - (ft - eval) * 1) == o * (tau - alpha) + (eval - ft));
    assert(kzg_equation(o, tau, alpha, eval, cv));
}

/// The folded oracles of HyperKZG: `coeffs` folded by every alpha but the
/// last, and the commitment to each fold.
pub fn coeff_form_hyperkzg_local_poly_oracles(
    srs: &CoefFormUniKZGSRS,
    coeffs: &Vec<Fr>,
    local_alphas: &[Fr],
) -> (r: (Vec<G1Point>, Vec<Vec<Fr>>))
    requires
        local_alphas@.len() >= 1,
        coeffs@.len() % pow2((local_alphas@.len() - 1) as nat) == 0,
        srs.powers_of_tau@.len() >= coeffs@.len(),
    ensures
        r.0@.len() == r.1@.len(),
        r.1@.len() == local_alphas@.len() - 1,
        forall|i: int|
            0 <= i < r.0@.len() ==> (#[trigger] r.0@[i])@ == kzg_commitment_of(
                g1_views(srs.powers_of_tau@),
                fold_chain(values(coeffs@), values(local_alphas@), Fr::modulus(), (i + 1) as nat),
            ),
        forall|s: int, scale: int|
            #![trigger g1_powers_of(g1_views(srs.powers_of_tau@), s, scale)]
            g1_powers_of(g1_views(srs.powers_of_tau@), s, scale) ==> forall|i: int|
                0 <= i < r.0@.len() ==> (#[trigger] r.0@[i])@ == g1_generator_mul_of(
                    (poly_eval(fold_chain(values(coeffs@), values(local_alphas@), Fr::modulus(), (i + 1) as nat), s)
                        * scale) % fr_modulus(),
                ),
        forall|i: int|
            0 <= i < r.1@.len() ==> values(#[trigger] r.1@[i]@) == fold_chain(
                values(coeffs@),
                values(local_alphas@),
                Fr::modulus(),
                (i + 1) as nat,
            ),
{
    let folded = coeff_form_hyperkzg_local_folded_coeffs(coeffs, local_alphas);
    let mut commitments: Vec<G1Point> = Vec::new();
    let mut i: usize = 0;
    while i < folded.len()
        invariant
            i <= folded@.len(),
            commitments@.len() == i,
            srs.powers_of_tau@.len() >= coeffs@.len(),
            forall|t: int|
                0 <= t < i ==> (#[trigger] commitments@[t])@ == kzg_commitment_of(
                    g1_views(srs.powers_of_tau@),
                    fold_chain(values(coeffs@), values(local_alphas@), Fr::modulus(), (t + 1) as nat),
                ),
            forall|s: int, scale: int|
                #![trigger g1_powers_of(g1_views(srs.powers_of_tau@), s, scale)]
                g1_powers_of(g1_views(srs.powers_of_tau@), s, scale) ==> forall|t: int|
                    0 <= t < i ==> (#[trigger] commitments@[t])@ == g1_generator_mul_of(
                        (poly_eval(fold_chain(values(coeffs@), values(local_alphas@), Fr::modulus(), (t + 1) as nat), s)
                            * scale) % fr_modulus(),
                    ),
            forall|t: int|
                0 <= t < folded@.len() ==> values(#[trigger] folded@[t]@) == fold_chain(
                    values(coeffs@),
                    values(local_alphas@),
                    Fr::modulus(),
                    (t + 1) as nat,
                ),
        decreases folded@.len() - i,
    {
        proof {
            crate::hyper_kzg::lemma_fold_chain_len(values(coeffs@), values(local_alphas@), Fr::modulus(), (i + 1) as nat);
            lemma_pow2_pos((i + 1) as nat);
            vstd::arithmetic::div_mod::lemma_div_is_ordered_by_denominator(
                coeffs@.len() as int,
                1,
                pow2((i + 1) as nat) as int,
            );
            assert(values(folded@[i as int]@).len() == folded@[i as int]@.len());
        }
        commitments.push(coeff_form_uni_kzg_commit(srs, folded[i].as_slice()));
        i = i + 1;
    }
    (commitments, folded)
}

/// A HyperKZG opening: the commitments to the folded oracles, the exported
/// evaluations, and the commitments to the two quotients.
#[derive(Debug)]
pub struct HyperKZGOpening {
    pub folded_oracle_commitments: Vec<G1Point>,
    pub evals_at_x: HyperKZGExportedLocalEvals<Fr>,
    pub beta_x_commitment: G1Point,
    pub quotient_delta_x_commitment: G1Point,
}

/// The HyperKZG prover's step after the challenge `gamma`: the aggregate of
/// the polynomial and its folds, the quadratic through the aggregated
/// evaluations, the exact quotient of their difference by
/// `(X - beta)(X - beta^2)(X + beta)`, and the commitment to that quotient.
pub fn coeff_form_uni_hyperkzg_open_gamma(
    srs: &CoefFormUniKZGSRS,
    coeffs: &Vec<Fr>,
    folded_oracle_coeffs: &Vec<Vec<Fr>>,
    local_alphas: &[Fr],
    local_evals: &HyperKZGLocalEvals<Fr>,
    beta: Fr,
    gamma: Fr,
) -> (r: (Vec<Fr>, [Fr; 3], Vec<Fr>, G1Point))
    requires
        hyperkzg_folds_honest(values(coeffs@), vec_values(folded_oracle_coeffs@), values(local_alphas@), Fr::modulus()),
        local_evals_of(
            *local_evals,
            values(coeffs@),
            vec_values(folded_oracle_coeffs@),
            values(local_alphas@),
            beta.value(),
        ),
        hyperkzg_beta_ok(beta.value(), Fr::modulus()),
        srs.powers_of_tau@.len() >= coeffs@.len(),
    ensures
        r.0@.len() == coeffs@.len(),
        r.2@.len() == (if r.0@.len() < 3 { 3 } else { r.0@.len() }) - 3,
        r.3@ == kzg_commitment_of(g1_views(srs.powers_of_tau@), values(r.2@)),
        forall|tau: int, scale: int|
            #![trigger g1_powers_of(g1_views(srs.powers_of_tau@), tau, scale)]
            g1_powers_of(g1_views(srs.powers_of_tau@), tau, scale) ==> r.3@ == g1_generator_mul_of(
                (poly_eval(values(r.2@), tau) * scale) % fr_modulus(),
            ),
        ({
            let (b, g, m, n) = (beta.value(), gamma.value(), Fr::modulus(), local_alphas@.len() as int);
            let lag = values(r.1@);
            &&& poly_eval(lag, b) % m == eval_prefix(values(local_evals.pos_beta_evals@), g, n) % m
            &&& poly_eval(lag, -b) % m == eval_prefix(values(local_evals.neg_beta_evals@), g, n) % m
            &&& poly_eval(lag, b * b) % m == eval_prefix(values(local_evals.beta2_evals@), g, n) % m
        }),
        values(r.0@) == reduce(
            aggregate_seq(values(coeffs@), vec_values(folded_oracle_coeffs@), gamma.value(), folded_oracle_coeffs@.len() as nat),
            Fr::modulus(),
        ),
        forall|x: int|
            (#[trigger] poly_eval(values(r.0@), x) - poly_eval(values(r.1@), x)) % Fr::modulus() == (poly_eval(
                values(r.2@),
                x,
            ) * ((x - beta.value()) * (x - beta.value() * beta.value()) * (x + beta.value()))) % Fr::modulus(),
{
    let (f_gamma, lagrange, quotient) = hyperkzg_open_gamma_phase(
        coeffs,
        folded_oracle_coeffs.as_slice(),
        local_alphas,
        local_evals,
        beta,
        gamma,
    );
    let beta_x_commitment = coeff_form_uni_kzg_commit(srs, quotient.as_slice());
    (f_gamma, lagrange, quotient, beta_x_commitment)
}


/// The HyperKZG prover's step after the challenge `tau`: the quotient of
/// `f - D q - L(tau)` by `X - tau` (see `hyperkzg_open_tau_phase`) and its
/// commitment.
pub fn coeff_form_uni_hyperkzg_open_tau(
    srs: &CoefFormUniKZGSRS,
    f_gamma: &Vec<Fr>,
    lagrange: [Fr; 3],
    quotient: &Vec<Fr>,
    beta: Fr,
    tau: Fr,
) -> (r: (Vec<Fr>, G1Point))
    requires
        f_gamma@.len() >= 1,
        quotient@.len() <= f_gamma@.len(),
        srs.powers_of_tau@.len() >= f_gamma@.len(),
        (poly_eval(values(f_gamma@), tau.value()) - poly_eval(values(lagrange@), tau.value())) % Fr::modulus() == (
        poly_eval(values(quotient@), tau.value()) * ((tau.value() - beta.value()) * (tau.value() - beta.value()
            * beta.value()) * (tau.value() + beta.value()))) % Fr::modulus(),
    ensures
        is_linear_division(
            reduce(
                padd(
                    values(f_gamma@),
                    values(quotient@),
                    -((tau.value() - beta.value()) * (tau.value() + beta.value()) * (tau.value() - beta.value()
                        * beta.value())),
                ),
                Fr::modulus(),
            ),
            values(r.0@),
            poly_eval(values(lagrange@), tau.value()),
            tau.value(),
            Fr::modulus(),
        ),
        r.1@ == kzg_commitment_of(g1_views(srs.powers_of_tau@), values(r.0@)),
        forall|s: int, scale: int|
            #![trigger g1_powers_of(g1_views(srs.powers_of_tau@), s, scale)]
            g1_powers_of(g1_views(srs.powers_of_tau@), s, scale) ==> r.1@ == g1_generator_mul_of(
                (poly_eval(values(r.0@), s) * scale) % fr_modulus(),
            ),
{
    let vanishing_at_tau = hyperkzg_open_tau_phase(f_gamma, lagrange, quotient, beta, tau);
    let commitment = coeff_form_uni_kzg_commit(srs, vanishing_at_tau.as_slice());
    (vanishing_at_tau, commitment)
}


/// What a transcript takes in: a field element by its value, a commitment by
/// its coordinates, the squeezing of a challenge, or a synchronisation of
/// several parties.
pub enum TranscriptEntry {
    Scalar(int),
    Point(Seq<u8>),
    Challenge,
    Sync,
}

/// What a transcript has taken in, in order.
pub type TranscriptHistory = Seq<TranscriptEntry>;

/// The value of a challenge, as an integer below the field's modulus.
pub type ChallengeValue = int;

/// The entries of a list of field elements, in order.
pub open spec fn scalar_entries(vs: Seq<int>) -> Seq<TranscriptEntry> {
    Seq::new(vs.len(), |i: int| TranscriptEntry::Scalar(vs[i]))
}

/// The entries of a list of commitments, in order.
pub open spec fn commitment_entries(cs: Seq<Seq<u8>>) -> Seq<TranscriptEntry> {
    Seq::new(cs.len(), |i: int| TranscriptEntry::Point(cs[i]))
}

/// The first `n` values of `pos` and `neg` taken in turn: `pos[0], neg[0],
/// pos[1], neg[1], ...`.
pub open spec fn interleaved(pos: Seq<int>, neg: Seq<int>, n: int) -> Seq<int> {
    Seq::new((2 * n) as nat, |i: int| if i % 2 == 0 { pos[i / 2] } else { neg[i / 2] })
}

/// The smaller of two lengths.
pub open spec fn min_len(a: int, b: int) -> int {
    if a < b { a } else { b }
}

/// What appending local evaluations adds to a transcript: the value at
/// `beta^2`, then each value at `beta` and at `-beta` in turn.
pub open spec fn local_evals_entries(e: HyperKZGLocalEvals<Fr>) -> Seq<TranscriptEntry> {
    scalar_entries(
        seq![e.beta2_evals@[0].value()] + interleaved(
            values(e.pos_beta_evals@),
            values(e.neg_beta_evals@),
            min_len(e.pos_beta_evals@.len() as int, e.neg_beta_evals@.len() as int),
        ),
    )
}

/// What appending exported evaluations adds to a transcript: the value at
/// `beta^2`, then each value at `beta` and at `-beta` in turn.
pub open spec fn exported_evals_entries(e: HyperKZGExportedLocalEvals<Fr>) -> Seq<TranscriptEntry> {
    scalar_entries(
        seq![e.beta_x2_eval.value()] + interleaved(
            values(e.pos_beta_x_evals@),
            values(e.neg_beta_x_evals@),
            min_len(e.pos_beta_x_evals@.len() as int, e.neg_beta_x_evals@.len() as int),
        ),
    )
}

/// A Fiat-Shamir transcript: it absorbs commitments and field elements and
/// squeezes challenges. It is described by what it has taken in, in order,
/// and each challenge it squeezes is a function of all it has taken in
/// before, fixed by the kind of transcript (`challenge_after`). Which
/// challenges come out is for the implementation to decide. The two spec
/// functions describe an implementation and are never run: an implementation
/// written outside Verus gives them bodies that do not return.
pub trait HyperKZGTranscript {
    /// Everything the transcript has taken in, in order.
    spec fn absorbed(&self) -> TranscriptHistory;

    /// The challenge this kind of transcript squeezes after taking in
    /// `history`.
    spec fn challenge_after(history: TranscriptHistory) -> ChallengeValue;

    fn append_field_element(&mut self, f: &Fr)
        ensures
            final(self).absorbed() == old(self).absorbed().push(TranscriptEntry::Scalar(f.value())),
    ;

    fn append_commitment(&mut self, p: &G1Point)
        ensures
            final(self).absorbed() == old(self).absorbed().push(TranscriptEntry::Point(p@)),
    ;

    fn generate_challenge_field_element(&mut self) -> (r: Fr)
        ensures
            r.value() == Self::challenge_after(old(self).absorbed()),
            final(self).absorbed() == old(self).absorbed().push(TranscriptEntry::Challenge),
    ;

    /// Brings the transcript to the state that every party shares once the
    /// leader of `world_size` parties has broadcast its own; a verifier
    /// applies it where the parties synchronised. A single party changes
    /// nothing; with several parties the synchronisation is taken in as an
    /// entry of its own.
    fn verifier_sync(&mut self, world_size: usize)
        ensures
            world_size <= 1 ==> final(self).absorbed() == old(self).absorbed(),
            world_size > 1 ==> final(self).absorbed() == old(self).absorbed().push(TranscriptEntry::Sync),
    ;
}

/// The two values at `i` follow the first `i` pairs.
proof fn lemma_interleaved_step(pos: Seq<int>, neg: Seq<int>, i: int)
    requires
        0 <= i,
    ensures
        interleaved(pos, neg, i + 1) =~= interleaved(pos, neg, i).push(pos[i]).push(neg[i]),
{
    let a = interleaved(pos, neg, i + 1);
    let b = interleaved(pos, neg, i).push(pos[i]).push(neg[i]);
    assert forall|j: int| 0 <= j < a.len() implies a[j] == b[j] by {
        if j < 2 * i {
        } else if j == 2 * i {
            assert(j % 2 == 0 && j / 2 == i);
        } else {
            assert(j % 2 == 1 && j / 2 == i);
        }
    }
}

/// Appends local evaluations: the polynomial's value at `beta^2`, then the
/// value of each oracle at `beta` and at `-beta`.
pub fn append_local_evals<T: HyperKZGTranscript>(evals: &HyperKZGLocalEvals<Fr>, fs_transcript: &mut T)
    requires
        evals.beta2_evals@.len() >= 1,
    ensures
        final(fs_transcript).absorbed() == old(fs_transcript).absorbed() + local_evals_entries(*evals),
{
    let ghost pos = values(evals.pos_beta_evals@);
    let ghost neg = values(evals.neg_beta_evals@);
    let ghost start = fs_transcript.absorbed();
    fs_transcript.append_field_element(&evals.beta2_evals[0]);
    let n = if evals.pos_beta_evals.len() < evals.neg_beta_evals.len() {
        evals.pos_beta_evals.len()
    } else {
        evals.neg_beta_evals.len()
    };
    let mut i: usize = 0;
    proof {
        assert(scalar_entries(seq![evals.beta2_evals@[0].value()] + interleaved(pos, neg, 0)) =~= seq![
            TranscriptEntry::Scalar(evals.beta2_evals@[0].value()),
        ]);
    }
    while i < n
        invariant
            i <= n,
            n <= evals.pos_beta_evals@.len(),
            n <= evals.neg_beta_evals@.len(),
            pos == values(evals.pos_beta_evals@),
            neg == values(evals.neg_beta_evals@),
            fs_transcript.absorbed() == start + scalar_entries(
                seq![evals.beta2_evals@[0].value()] + interleaved(pos, neg, i as int),
            ),
        decreases n - i,
    {
        fs_transcript.append_field_element(&evals.pos_beta_evals[i]);
        fs_transcript.append_field_element(&evals.neg_beta_evals[i]);
        proof {
            lemma_interleaved_step(pos, neg, i as int);
            let h = seq![evals.beta2_evals@[0].value()];
            assert(h + interleaved(pos, neg, i as int + 1) =~= (h + interleaved(pos, neg, i as int)).push(pos[i as int]).push(
                neg[i as int],
            ));
            assert(scalar_entries((h + interleaved(pos, neg, i as int)).push(pos[i as int]).push(neg[i as int]))
                =~= scalar_entries(h + interleaved(pos, neg, i as int)).push(TranscriptEntry::Scalar(pos[i as int])).push(
                TranscriptEntry::Scalar(neg[i as int]),
            ));
        }
        i = i + 1;
    }
}

/// Appends exported evaluations: the value at `beta^2`, then each value at
/// `beta` and at `-beta`.
pub fn append_exported_evals<T: HyperKZGTranscript>(evals: &HyperKZGExportedLocalEvals<Fr>, fs_transcript: &mut T)
    ensures
        final(fs_transcript).absorbed() == old(fs_transcript).absorbed() + exported_evals_entries(*evals),
{
    let ghost pos = values(evals.pos_beta_x_evals@);
    let ghost neg = values(evals.neg_beta_x_evals@);
    let ghost start = fs_transcript.absorbed();
    fs_transcript.append_field_element(&evals.beta_x2_eval);
    let n = if evals.pos_beta_x_evals.len() < evals.neg_beta_x_evals.len() {
        evals.pos_beta_x_evals.len()
    } else {
        evals.neg_beta_x_evals.len()
    };
    let mut i: usize = 0;
    proof {
        assert(scalar_entries(seq![evals.beta_x2_eval.value()] + interleaved(pos, neg, 0)) =~= seq![
            TranscriptEntry::Scalar(evals.beta_x2_eval.value()),
        ]);
    }
    while i < n
        invariant
            i <= n,
            n <= evals.pos_beta_x_evals@.len(),
            n <= evals.neg_beta_x_evals@.len(),
            pos == values(evals.pos_beta_x_evals@),
            neg == values(evals.neg_beta_x_evals@),
            fs_transcript.absorbed() == start + scalar_entries(
                seq![evals.beta_x2_eval.value()] + interleaved(pos, neg, i as int),
            ),
        decreases n - i,
    {
        fs_transcript.append_field_element(&evals.pos_beta_x_evals[i]);
        fs_transcript.append_field_element(&evals.neg_beta_x_evals[i]);
        proof {
            lemma_interleaved_step(pos, neg, i as int);
            let h = seq![evals.beta_x2_eval.value()];
            assert(h + interleaved(pos, neg, i as int + 1) =~= (h + interleaved(pos, neg, i as int)).push(pos[i as int]).push(
                neg[i as int],
            ));
            assert(scalar_entries((h + interleaved(pos, neg, i as int)).push(pos[i as int]).push(neg[i as int]))
                =~= scalar_entries(h + interleaved(pos, neg, i as int)).push(TranscriptEntry::Scalar(pos[i as int])).push(
                TranscriptEntry::Scalar(neg[i as int]),
            ));
        }
        i = i + 1;
    }
}

/// The commitments to the folded oracles of HyperKZG under the powers
/// `powers`: for each alpha but the last, the commitment to the polynomial
/// folded by the alphas up to it.
pub open spec fn hyperkzg_fold_commitments(powers: Seq<Seq<u8>>, c: Seq<int>, alphas: Seq<int>) -> Seq<Seq<u8>> {
    Seq::new(
        (alphas.len() - 1) as nat,
        |i: int| kzg_commitment_of(powers, fold_chain(c, alphas, fr_modulus(), (i + 1) as nat)),
    )
}

/// The challenge `beta` of HyperKZG: what a transcript that has taken in
/// `history` squeezes after the folded commitments `commitments`.
pub open spec fn hyperkzg_transcript_beta<T: HyperKZGTranscript>(
    history: Seq<TranscriptEntry>,
    commitments: Seq<Seq<u8>>,
) -> int {
    T::challenge_after(history + commitment_entries(commitments))
}

/// The folds of HyperKZG: the polynomial `c` folded by the alphas up to each
/// alpha but the last.
pub open spec fn hyperkzg_folds_of(c: Seq<int>, alphas: Seq<int>) -> Seq<Seq<int>> {
    Seq::new((alphas.len() - 1) as nat, |i: int| fold_chain(c, alphas, fr_modulus(), (i + 1) as nat))
}

/// `beta_x_commitment` and `quotient_delta_x_commitment` are the commitments
/// a HyperKZG prover makes with the challenges `beta`, `gamma` and `tau`:
/// with `f` the combination of the polynomial `c` and its folds by the
/// powers of `gamma`, the first commits to the quotient `q` of `f - l` by
/// `(X - beta)(X - beta^2)(X + beta)` (`l` the remainder, of degree below
/// three), and the second to the quotient of `f - D(tau) q` by `X - tau`,
/// whose remainder is `l(tau)`. The remainder takes at `beta`, `-beta` and
/// `beta^2` the gamma-combinations of the evaluations rebuilt from `e`, and
/// for powers `s^i scale` of the generator the commitments are `q(s) scale`
/// and `w(s) scale` times the generator.
pub open spec fn hyperkzg_quotient_commitments(
    powers: Seq<Seq<u8>>,
    c: Seq<int>,
    alphas: Seq<int>,
    e: HyperKZGExportedLocalEvals<Fr>,
    beta: int,
    gamma: int,
    tau: int,
    beta_x_commitment: Seq<u8>,
    quotient_delta_x_commitment: Seq<u8>,
) -> bool {
    exists|l: Seq<int>, q: Seq<int>, w: Seq<int>|
        #[trigger] hyperkzg_quotient_witnesses(
            powers,
            c,
            alphas,
            e,
            beta,
            gamma,
            tau,
            beta_x_commitment,
            quotient_delta_x_commitment,
            l,
            q,
            w,
        )
}

/// The remainder `l` and the quotients `q` and `w` that
/// `hyperkzg_quotient_commitments` speaks of.
pub open spec fn hyperkzg_quotient_witnesses(
    powers: Seq<Seq<u8>>,
    c: Seq<int>,
    alphas: Seq<int>,
    e: HyperKZGExportedLocalEvals<Fr>,
    beta: int,
    gamma: int,
    tau: int,
    beta_x_commitment: Seq<u8>,
    quotient_delta_x_commitment: Seq<u8>,
    l: Seq<int>,
    q: Seq<int>,
    w: Seq<int>,
) -> bool {
    let m = fr_modulus();
    let f = reduce(aggregate_seq(c, hyperkzg_folds_of(c, alphas), gamma, (alphas.len() - 1) as nat), m);
    let le = rebuilt_evals(e, alphas, beta);
    let n = alphas.len() as int;
    &&& l.len() == 3
    &&& poly_eval(l, beta) % m == gamma_combination(values(le.pos_beta_evals@), gamma, n)
    &&& poly_eval(l, -beta) % m == gamma_combination(values(le.neg_beta_evals@), gamma, n)
    &&& poly_eval(l, beta * beta) % m == gamma_combination(values(le.beta2_evals@), gamma, n)
    &&& forall|s: int, scale: int|
        #![trigger g1_powers_of(powers, s, scale)]
        g1_powers_of(powers, s, scale) ==> beta_x_commitment == g1_generator_mul_of((poly_eval(q, s) * scale) % m)
            && quotient_delta_x_commitment == g1_generator_mul_of((poly_eval(w, s) * scale) % m)
    &&& forall|x: int|
        (#[trigger] poly_eval(f, x) - poly_eval(l, x)) % m == (poly_eval(q, x) * ((x - beta) * (x - beta * beta) * (x
            + beta))) % m
    &&& beta_x_commitment == kzg_commitment_of(powers, q)
    &&& is_linear_division(
        reduce(padd(f, q, -((tau - beta) * (tau + beta) * (tau - beta * beta))), m),
        w,
        poly_eval(l, tau),
        tau,
        m,
    )
    &&& quotient_delta_x_commitment == kzg_commitment_of(powers, w)
}

/// Appends the commitments `cs` in order.
pub(crate) fn append_commitments<T: HyperKZGTranscript>(cs: &Vec<G1Point>, fs_transcript: &mut T)
    ensures
        final(fs_transcript).absorbed() == old(fs_transcript).absorbed() + commitment_entries(g1_views(cs@)),
{
    let ghost start = fs_transcript.absorbed();
    let mut i: usize = 0;
    while i < cs.len()
        invariant
            i <= cs@.len(),
            fs_transcript.absorbed() == start + commitment_entries(g1_views(cs@.take(i as int))),
        decreases cs@.len() - i,
    {
        fs_transcript.append_commitment(&cs[i]);
        proof {
            assert(commitment_entries(g1_views(cs@.take(i as int + 1))) =~= commitment_entries(g1_views(cs@.take(i as int))).push(
                TranscriptEntry::Point(cs@[i as int]@),
            ));
        }
        i = i + 1;
    }
    proof {
        assert(cs@.take(cs@.len() as int) =~= cs@);
    }
}

/// Whether the challenge `beta` keeps `beta`, `-beta` and `beta^2` apart (see
/// `hyperkzg_beta_ok`).
pub fn hyperkzg_beta_check(beta: Fr) -> (r: bool)
    ensures
        r == hyperkzg_beta_ok(beta.value(), Fr::modulus()),
{
    let one = Fr::one();
    let two = one.plus(&one);
    let one_minus = one.minus(&beta);
    let one_plus = one.plus(&beta);
    let m = Ghost(Fr::modulus());
    proof {
        Fr::lemma_modulus();
        crate::field::lemma_reduced(2, m@);
        vstd::arithmetic::div_mod::lemma_mod_twice(1 - beta.value(), m@);
        vstd::arithmetic::div_mod::lemma_mod_twice(1 + beta.value(), m@);
        if is_unit(one_minus.value(), m@) {
            crate::field::lemma_unit_congruent(one_minus.value(), 1 - beta.value(), m@);
        }
        if is_unit(1 - beta.value(), m@) {
            crate::field::lemma_unit_congruent(1 - beta.value(), one_minus.value(), m@);
        }
        if is_unit(one_plus.value(), m@) {
            crate::field::lemma_unit_congruent(one_plus.value(), 1 + beta.value(), m@);
        }
        if is_unit(1 + beta.value(), m@) {
            crate::field::lemma_unit_congruent(1 + beta.value(), one_plus.value(), m@);
        }
    }
    beta.inverse().is_some() && two.inverse().is_some() && one_minus.inverse().is_some() && one_plus.inverse().is_some()
}

/// Opens the multilinear polynomial with coefficients `coeffs` at `alphas`
/// with HyperKZG, drawing the challenges `beta`, `gamma` and `tau` from the
/// transcript after the folded commitments, the local evaluations and the
/// quotient commitment respectively. Returns the evaluation and the opening;
/// nothing when the transcript's `beta` does not keep the evaluation points
/// apart.
pub fn coeff_form_uni_hyperkzg_open<T: HyperKZGTranscript>(
    srs: &CoefFormUniKZGSRS,
    coeffs: &Vec<Fr>,
    alphas: &[Fr],
    fs_transcript: &mut T,
) -> (r: Option<(Fr, HyperKZGOpening)>)
    requires
        alphas@.len() >= 1,
        coeffs@.len() == pow2(alphas@.len() as nat),
        srs.powers_of_tau@.len() >= coeffs@.len(),
    ensures
        r is Some <==> hyperkzg_beta_ok(
            hyperkzg_transcript_beta::<T>(
                old(fs_transcript).absorbed(),
                hyperkzg_fold_commitments(g1_views(srs.powers_of_tau@), values(coeffs@), values(alphas@)),
            ),
            Fr::modulus(),
        ),
        r matches Some(o) ==> g1_views(o.1.folded_oracle_commitments@) == hyperkzg_fold_commitments(
            g1_views(srs.powers_of_tau@),
            values(coeffs@),
            values(alphas@),
        ),
        r matches Some(o) ==> o.1.folded_oracle_commitments@.len() == alphas@.len() - 1,
        r matches Some(o) ==> forall|s: int, scale: int|
            #![trigger g1_powers_of(g1_views(srs.powers_of_tau@), s, scale)]
            g1_powers_of(g1_views(srs.powers_of_tau@), s, scale) ==> forall|i: int|
                0 <= i < o.1.folded_oracle_commitments@.len() ==> (#[trigger] o.1.folded_oracle_commitments@[i])@
                    == g1_generator_mul_of(
                    (poly_eval(fold_chain(values(coeffs@), values(alphas@), Fr::modulus(), (i + 1) as nat), s) * scale)
                        % fr_modulus(),
                ),
        r matches Some(o) ==> o.1.evals_at_x.pos_beta_x_evals@.len() == alphas@.len()
            && o.1.evals_at_x.neg_beta_x_evals@.len() == alphas@.len(),
        r matches Some(o) ==> hyperkzg_quotient_commitments(
            g1_views(srs.powers_of_tau@),
            values(coeffs@),
            values(alphas@),
            o.1.evals_at_x,
            hyperkzg_transcript_beta::<T>(old(fs_transcript).absorbed(), g1_views(o.1.folded_oracle_commitments@)),
            T::challenge_after(
                hyperkzg_gamma_history(old(fs_transcript).absorbed(), g1_views(o.1.folded_oracle_commitments@), o.1.evals_at_x),
            ),
            T::challenge_after(
                hyperkzg_tau_history(
                    old(fs_transcript).absorbed(),
                    g1_views(o.1.folded_oracle_commitments@),
                    o.1.evals_at_x,
                    o.1.beta_x_commitment@,
                ),
            ),
            o.1.beta_x_commitment@,
            o.1.quotient_delta_x_commitment@,
        ),
        r matches Some(o) ==> o.0.value() == mle_eval(values(coeffs@), values(alphas@)) % Fr::modulus(),
        r matches Some(o) ==> final(fs_transcript).absorbed() == hyperkzg_tau_history(
            old(fs_transcript).absorbed(),
            g1_views(o.1.folded_oracle_commitments@),
            o.1.evals_at_x,
            o.1.beta_x_commitment@,
        ).push(TranscriptEntry::Challenge),
        r matches Some(o) ==> rebuilt_evals_end_in::<Fr>(
            o.1.evals_at_x.beta_x2_eval.value(),
            values(o.1.evals_at_x.pos_beta_x_evals@),
            values(o.1.evals_at_x.neg_beta_x_evals@),
            values(alphas@),
            hyperkzg_transcript_beta::<T>(old(fs_transcript).absorbed(), g1_views(o.1.folded_oracle_commitments@)),
            o.0.value(),
        ),
{
    proof {
        Fr::lemma_modulus();
        lemma_pow2_pos(alphas@.len() as nat);
        vstd::arithmetic::power2::lemma_pow2_unfold(alphas@.len() as nat);
        crate::hyper_kzg::lemma_pow2_divides(alphas@.len() as nat);
    }
    let ghost history = fs_transcript.absorbed();
    let (folded_oracle_commitments, folded_oracle_coeffs) = coeff_form_hyperkzg_local_poly_oracles(srs, coeffs, alphas);
    proof {
        assert(g1_views(folded_oracle_commitments@) =~= hyperkzg_fold_commitments(
            g1_views(srs.powers_of_tau@),
            values(coeffs@),
            values(alphas@),
        ));
    }
    append_commitments(&folded_oracle_commitments, fs_transcript);
    let beta = fs_transcript.generate_challenge_field_element();
    if !hyperkzg_beta_check(beta) {
        return None;
    }
    let ghost c = values(coeffs@);
    let ghost folded = vec_values(folded_oracle_coeffs@);
    let ghost al = values(alphas@);
    proof {
        assert(hyperkzg_folds_honest(c, folded, al, Fr::modulus()));
    }
    let local_evals = coeff_form_hyperkzg_local_evals(coeffs, folded_oracle_coeffs.as_slice(), alphas, beta);
    proof {
        crate::hyper_kzg::lemma_local_evals_complete(local_evals, c, folded, al, beta.value());
        crate::hyper_kzg::lemma_reported_evals_complete(local_evals, c, folded, al, beta.value());
    }
    append_local_evals(&local_evals, fs_transcript);
    let gamma = fs_transcript.generate_challenge_field_element();
    let (f_gamma, lagrange, quotient, beta_x_commitment) = coeff_form_uni_hyperkzg_open_gamma(
        srs,
        coeffs,
        &folded_oracle_coeffs,
        alphas,
        &local_evals,
        beta,
        gamma,
    );
    fs_transcript.append_commitment(&beta_x_commitment);
    let tau = fs_transcript.generate_challenge_field_element();
    let ghost tv = tau.value();
    proof {
        assert((poly_eval(values(f_gamma@), tv) - poly_eval(values(lagrange@), tv)) % Fr::modulus() == (poly_eval(
            values(quotient@),
            tv,
        ) * ((tv - beta.value()) * (tv - beta.value() * beta.value()) * (tv + beta.value()))) % Fr::modulus());
    }
    let (vanishing_at_tau, quotient_delta_x_commitment) = coeff_form_uni_hyperkzg_open_tau(
        srs,
        &f_gamma,
        lagrange,
        &quotient,
        beta,
        tau,
    );
    let eval = local_evals.multilinear_final_eval();
    let ghost reported = local_evals;
    let evals_at_x = HyperKZGExportedLocalEvals::from_local_evals(local_evals);
    proof {
        assert(values(evals_at_x.pos_beta_x_evals@) == values(reported.pos_beta_evals@));
        assert(values(evals_at_x.neg_beta_x_evals@) == values(reported.neg_beta_evals@));
        assert(hyperkzg_beta_ok(beta.value(), Fr::modulus()));
        assert(exported_evals_entries(evals_at_x) == local_evals_entries(reported));
        assert(folded =~= hyperkzg_folds_of(c, al));
        let fv = g1_views(folded_oracle_commitments@);
        assert(gamma.value() == T::challenge_after(hyperkzg_gamma_history(history, fv, evals_at_x)));
        assert(tau.value() == T::challenge_after(hyperkzg_tau_history(history, fv, evals_at_x, beta_x_commitment@)));
        let l = values(lagrange@);
        let q = values(quotient@);
        let w = values(vanishing_at_tau@);
        let bv = beta.value();
        let gv = gamma.value();
        let na = al.len() as int;
        assert(evals_from_reported(
            reported,
            evals_at_x.beta_x2_eval.value(),
            values(evals_at_x.pos_beta_x_evals@),
            values(evals_at_x.neg_beta_x_evals@),
            al,
            bv,
        ));
        let le = rebuilt_evals(evals_at_x, al, bv);
        crate::hyper_kzg::lemma_rebuilt_values_unique(
            reported,
            le,
            evals_at_x.beta_x2_eval.value(),
            values(evals_at_x.pos_beta_x_evals@),
            values(evals_at_x.neg_beta_x_evals@),
            al,
            bv,
        );
        let pw = Seq::new(na as nat, |i: int| pow(gv, i as nat) % fr_modulus());
        lemma_eval_by_powers(values(le.pos_beta_evals@), pw, gv, na, fr_modulus());
        lemma_eval_by_powers(values(le.neg_beta_evals@), pw, gv, na, fr_modulus());
        lemma_eval_by_powers(values(le.beta2_evals@), pw, gv, na, fr_modulus());
        assert(hyperkzg_quotient_witnesses(
            g1_views(srs.powers_of_tau@),
            c,
            al,
            evals_at_x,
            beta.value(),
            gamma.value(),
            tau.value(),
            beta_x_commitment@,
            quotient_delta_x_commitment@,
            l,
            q,
            w,
        ));
        assert(hyperkzg_quotient_commitments(
            g1_views(srs.powers_of_tau@),
            c,
            al,
            evals_at_x,
            beta.value(),
            gamma.value(),
            tau.value(),
            beta_x_commitment@,
            quotient_delta_x_commitment@,
        ));
    }
    Some(
        (
            eval,
            HyperKZGOpening {
                folded_oracle_commitments,
                evals_at_x,
                beta_x_commitment,
                quotient_delta_x_commitment,
            },
        ),
    )
}


/// The sum of `acc` and the first `k` points of `points`, point `i` weighted by
/// `weights[i + 1]`, added in order.
pub open spec fn g1_aggregate(acc: Seq<u8>, points: Seq<Seq<u8>>, weights: Seq<int>, k: nat) -> Seq<u8>
    decreases k,
{
    if k == 0 {
        acc
    } else {
        g1_add_of(
            g1_aggregate(acc, points, weights, (k - 1) as nat),
            g1_scalar_mul_of(points[k - 1], weights[k as int]),
        )
    }
}

/// The weight of the quotient commitment in the HyperKZG check at `tau`:
/// `(tau - beta)(tau - beta^2)(tau + beta)`, each step reduced modulo r.
pub open spec fn hyperkzg_quotient_weight(tau: int, beta: int) -> int {
    let m = fr_modulus();
    ((((tau - beta) % m) * ((tau - (beta * beta) % m) % m)) % m * ((tau + beta) % m)) % m
}

/// What a HyperKZG verifier's transcript has taken in when it squeezes
/// `gamma`: the history, the folded commitments, `beta`, and the exported
/// evaluations.
pub open spec fn hyperkzg_gamma_history(
    history: TranscriptHistory,
    folded: Seq<Seq<u8>>,
    evals: HyperKZGExportedLocalEvals<Fr>,
) -> TranscriptHistory {
    (history + commitment_entries(folded)).push(TranscriptEntry::Challenge) + exported_evals_entries(evals)
}

/// What a HyperKZG verifier's transcript has taken in when it squeezes
/// `tau`: the above, `gamma`, and the quotient commitment.
pub open spec fn hyperkzg_tau_history(
    history: TranscriptHistory,
    folded: Seq<Seq<u8>>,
    evals: HyperKZGExportedLocalEvals<Fr>,
    beta_x_commitment: Seq<u8>,
) -> TranscriptHistory {
    hyperkzg_gamma_history(history, folded, evals).push(TranscriptEntry::Challenge).push(
        TranscriptEntry::Point(beta_x_commitment),
    )
}

/// The commitment that the final KZG check of HyperKZG opens at `tau`: the
/// commitment combined with the folded commitments by the powers of
/// `gamma`, less the quotient commitment weighted at `tau`, with the
/// challenges of a transcript that has taken in `history`.
pub open spec fn hyperkzg_shifted_commitment<T: HyperKZGTranscript>(
    history: TranscriptHistory,
    comm: Seq<u8>,
    num_alphas: int,
    folded: Seq<Seq<u8>>,
    evals: HyperKZGExportedLocalEvals<Fr>,
    beta_x_commitment: Seq<u8>,
) -> Seq<u8> {
    let beta = hyperkzg_transcript_beta::<T>(history, folded);
    let gamma = T::challenge_after(hyperkzg_gamma_history(history, folded, evals));
    let tau = T::challenge_after(hyperkzg_tau_history(history, folded, evals, beta_x_commitment));
    let n = min_len(folded.len() as int, num_alphas - 1);
    let weights = Seq::new(num_alphas as nat, |i: int| pow(gamma, i as nat) % fr_modulus());
    g1_sub_of(
        g1_aggregate(comm, folded, weights, n as nat),
        g1_scalar_mul_of(beta_x_commitment, hyperkzg_quotient_weight(tau, beta)),
    )
}

/// The evaluations a HyperKZG verifier rebuilds from the exported values `e`
/// with `alphas` at `beta` (unique for an admissible `beta`).
pub open spec fn rebuilt_evals(e: HyperKZGExportedLocalEvals<Fr>, alphas: Seq<int>, beta: int) -> HyperKZGLocalEvals<Fr> {
    choose|le: HyperKZGLocalEvals<Fr>|
        evals_from_reported(
            le,
            e.beta_x2_eval.value(),
            values(e.pos_beta_x_evals@),
            values(e.neg_beta_x_evals@),
            alphas,
            beta,
        )
}

/// `vs[0] + vs[1] gamma + vs[2] gamma^2 + ...`, as many terms as `vs` and `n`
/// both allow, modulo r.
pub open spec fn gamma_combination(vs: Seq<int>, gamma: int, n: int) -> int {
    dot_prefix(
        vs,
        Seq::new(n as nat, |i: int| pow(gamma, i as nat) % fr_modulus()),
        min_len(vs.len() as int, n),
    ) % fr_modulus()
}

/// The quadratic `l` takes the values `y0`, `y1`, `y2` at `x0`, `x1`, `x2`,
/// modulo r.
pub open spec fn interpolates(l: Seq<int>, x0: int, x1: int, x2: int, y0: int, y1: int, y2: int) -> bool {
    &&& l.len() == 3
    &&& poly_eval(l, x0) % fr_modulus() == y0
    &&& poly_eval(l, x1) % fr_modulus() == y1
    &&& poly_eval(l, x2) % fr_modulus() == y2
}

/// The value at `t`, modulo r, of the quadratic through `(x0, y0)`, `(x1, y1)`
/// and `(x2, y2)`.
pub open spec fn quadratic_at(x0: int, x1: int, x2: int, y0: int, y1: int, y2: int, t: int) -> int {
    poly_eval(choose|l: Seq<int>| interpolates(l, x0, x1, x2, y0, y1, y2), t) % fr_modulus()
}

/// The value a HyperKZG verifier expects at `tau`: the quadratic through the
/// gamma-combinations of the rebuilt evaluations at `beta`, `-beta` and
/// `beta^2`.
pub open spec fn hyperkzg_lagrange_value(
    e: HyperKZGExportedLocalEvals<Fr>,
    alphas: Seq<int>,
    beta: int,
    gamma: int,
    tau: int,
) -> int {
    let le = rebuilt_evals(e, alphas, beta);
    let n = alphas.len() as int;
    let m = fr_modulus();
    quadratic_at(
        beta,
        (-beta) % m,
        (beta * beta) % m,
        gamma_combination(values(le.pos_beta_evals@), gamma, n),
        gamma_combination(values(le.neg_beta_evals@), gamma, n),
        gamma_combination(values(le.beta2_evals@), gamma, n),
        tau,
    )
}

/// The verdict of the HyperKZG verifier for a transcript that has taken in
/// `history`: the transcript's `beta` is admissible, the reported evaluations
/// rebuild to `eval`, and the final pairing check of the shifted commitment
/// at the transcript's `tau` passes with the expected value there.
pub open spec fn hyperkzg_verdict<T: HyperKZGTranscript>(
    history: TranscriptHistory,
    tau_g2: Seq<u8>,
    comm: Seq<u8>,
    alphas: Seq<int>,
    eval: int,
    folded: Seq<Seq<u8>>,
    evals: HyperKZGExportedLocalEvals<Fr>,
    beta_x_commitment: Seq<u8>,
    quotient_delta_x_commitment: Seq<u8>,
) -> bool {
    let beta = hyperkzg_transcript_beta::<T>(history, folded);
    let gamma = T::challenge_after(hyperkzg_gamma_history(history, folded, evals));
    let tau = T::challenge_after(hyperkzg_tau_history(history, folded, evals, beta_x_commitment));
    &&& hyperkzg_beta_ok(beta, fr_modulus())
    &&& rebuilt_evals_end_in::<Fr>(
        evals.beta_x2_eval.value(),
        values(evals.pos_beta_x_evals@),
        values(evals.neg_beta_x_evals@),
        alphas,
        beta,
        eval,
    )
    &&& pairing_check_of(
        seq![
            quotient_delta_x_commitment,
            g1_sub_of(
                g1_generator_mul_of(hyperkzg_lagrange_value(evals, alphas, beta, gamma, tau)),
                hyperkzg_shifted_commitment::<T>(history, comm, alphas.len() as int, folded, evals, beta_x_commitment),
            ),
        ],
        seq![g2_sub_of(tau_g2, g2_generator_mul_of(tau)), g2_generator_mul_of(1)],
    )
}

/// An honest HyperKZG opening verifies: for the reference string of the
/// secret `s` (its G1 powers `powers`), an opening of the polynomial `c` at
/// `alphas` to `v` made with a transcript that had taken in `history`, as
/// `coeff_form_uni_hyperkzg_open` describes it (the folded commitments, the
/// exported evaluations rebuilding to `v`, and the quotient commitments for
/// the transcript's challenges), consists of multiples of the generator for
/// which the verifier's verdict holds (see `hyperkzg_verdict_exponents`), so
/// that `coeff_form_uni_hyperkzg_verify` accepts it from a transcript in the
/// same state.
pub proof fn lemma_hyperkzg_open_verifies<T: HyperKZGTranscript>(
    powers: Seq<Seq<u8>>,
    s: int,
    c: Seq<int>,
    alphas: Seq<int>,
    v: int,
    history: TranscriptHistory,
    folded: Seq<Seq<u8>>,
    evals: HyperKZGExportedLocalEvals<Fr>,
    beta_x_commitment: Seq<u8>,
    quotient_delta_x_commitment: Seq<u8>,
)
    requires
        g1_powers_of(powers, s, 1),
        alphas.len() >= 1,
        0 <= hyperkzg_transcript_beta::<T>(history, folded) < fr_modulus(),
        hyperkzg_beta_ok(hyperkzg_transcript_beta::<T>(history, folded), fr_modulus()),
        rebuilt_evals_end_in::<Fr>(
            evals.beta_x2_eval.value(),
            values(evals.pos_beta_x_evals@),
            values(evals.neg_beta_x_evals@),
            alphas,
            hyperkzg_transcript_beta::<T>(history, folded),
            v,
        ),
        hyperkzg_quotient_commitments(
            powers,
            c,
            alphas,
            evals,
            hyperkzg_transcript_beta::<T>(history, folded),
            T::challenge_after(hyperkzg_gamma_history(history, folded, evals)),
            T::challenge_after(hyperkzg_tau_history(history, folded, evals, beta_x_commitment)),
            beta_x_commitment,
            quotient_delta_x_commitment,
        ),
    ensures
        exists|q: int, w: int|
            is_scalar(q) && is_scalar(w) && beta_x_commitment == #[trigger] g1_generator_mul_of(q)
                && quotient_delta_x_commitment == #[trigger] g1_generator_mul_of(w) && hyperkzg_verdict_exponents::<T>(
                history,
                s,
                (poly_eval(c, s) * 1) % fr_modulus(),
                alphas,
                v,
                folded,
                Seq::new(
                    (alphas.len() - 1) as nat,
                    |i: int| (poly_eval(fold_chain(c, alphas, fr_modulus(), (i + 1) as nat), s) * 1) % fr_modulus(),
                ),
                evals,
                beta_x_commitment,
                q,
                w,
            ),
{
    let beta = hyperkzg_transcript_beta::<T>(history, folded);
    let gamma = T::challenge_after(hyperkzg_gamma_history(history, folded, evals));
    let tau = T::challenge_after(hyperkzg_tau_history(history, folded, evals, beta_x_commitment));
    lemma_hyperkzg_complete(powers, s, c, alphas, evals, beta, gamma, tau, beta_x_commitment, quotient_delta_x_commitment);
}

/// HyperKZG rejects any evaluation but the one the reported evaluations
/// rebuild to: with `le` rebuilt from the exported evaluations `evals` at the
/// transcript's `beta` (as the verifier rebuilds them), a claimed `eval`
/// other than the value `le` ends in is refused, whatever the commitments.
pub proof fn lemma_hyperkzg_rejects_other_eval<T: HyperKZGTranscript>(
    history: TranscriptHistory,
    tau_g2: Seq<u8>,
    comm: Seq<u8>,
    alphas: Seq<int>,
    eval: int,
    folded: Seq<Seq<u8>>,
    evals: HyperKZGExportedLocalEvals<Fr>,
    beta_x_commitment: Seq<u8>,
    quotient_delta_x_commitment: Seq<u8>,
    le: HyperKZGLocalEvals<Fr>,
)
    requires
        evals_from_reported(
            le,
            evals.beta_x2_eval.value(),
            values(evals.pos_beta_x_evals@),
            values(evals.neg_beta_x_evals@),
            alphas,
            hyperkzg_transcript_beta::<T>(history, folded),
        ),
        eval != le.beta2_evals@[le.beta2_evals@.len() - 1].value(),
    ensures
        !hyperkzg_verdict::<T>(
            history,
            tau_g2,
            comm,
            alphas,
            eval,
            folded,
            evals,
            beta_x_commitment,
            quotient_delta_x_commitment,
        ),
{
}

/// HyperKZG accepts one final quotient only: for a key that is the multiple
/// `s` of the generator of G2 and a transcript whose `tau` differs from `s`,
/// two quotient commitments (the multiples `w1` and `w2` of the generator)
/// that are both accepted with the same other values are the same multiple;
/// any other quotient commitment is refused.
pub proof fn lemma_hyperkzg_quotient_unique<T: HyperKZGTranscript>(
    history: TranscriptHistory,
    s: int,
    c: int,
    alphas: Seq<int>,
    eval: int,
    folded: Seq<Seq<u8>>,
    f: Seq<int>,
    evals: HyperKZGExportedLocalEvals<Fr>,
    beta_x_commitment: Seq<u8>,
    q: int,
    w1: int,
    w2: int,
)
    requires
        is_scalar(w1),
        is_scalar(w2),
        is_unit(s - T::challenge_after(hyperkzg_tau_history(history, folded, evals, beta_x_commitment)), fr_modulus()),
        hyperkzg_verdict_exponents::<T>(history, s, c, alphas, eval, folded, f, evals, beta_x_commitment, q, w1),
        hyperkzg_verdict_exponents::<T>(history, s, c, alphas, eval, folded, f, evals, beta_x_commitment, q, w2),
    ensures
        w1 == w2,
{
    let m = fr_modulus();
    Fr::lemma_modulus();
    let tau = T::challenge_after(hyperkzg_tau_history(history, folded, evals, beta_x_commitment));
    let beta = hyperkzg_transcript_beta::<T>(history, folded);
    let gamma = T::challenge_after(hyperkzg_gamma_history(history, folded, evals));
    let x = hyperkzg_lagrange_value(evals, alphas, beta, gamma, tau) - hyperkzg_shift_exponent(
        c,
        f,
        alphas.len() as int,
        gamma,
        q,
        beta,
        tau,
    );
    let u = s - tau;
    assert((w1 * u + x) % m == 0);
    assert((w2 * u + x) % m == 0);
    lemma_congruent_diff(w1 * u + x, w2 * u + x, m);
    assert((w1 * u + x) - (w2 * u + x) == u * (w1 - w2)) by (nonlinear_arith);
    lemma_unit_zero(u, w1 - w2, m);
    vstd::arithmetic::div_mod::lemma_sub_mod_noop(0, w1 - w2, m);
    assert(0int % m == 0);
    if w1 >= w2 {
        vstd::arithmetic::div_mod::lemma_small_mod((w1 - w2) as nat, m as nat);
    } else {
        vstd::arithmetic::div_mod::lemma_small_mod((w2 - w1) as nat, m as nat);
    }
}

/// The exponent of `g1_aggregate` for multiples of the generator: `c`
/// plus the first `k` exponents `f[i]` weighted by `weights[i + 1]`, each
/// step reduced modulo r.
pub open spec fn aggregate_exponent(c: int, f: Seq<int>, weights: Seq<int>, k: nat) -> int
    decreases k,
{
    if k == 0 {
        c
    } else {
        (aggregate_exponent(c, f, weights, (k - 1) as nat) + (f[k - 1] * weights[k as int]) % fr_modulus())
            % fr_modulus()
    }
}

/// The exponent of the shifted commitment of HyperKZG for a commitment, folded
/// commitments and a quotient commitment that are the multiples `c`, `f` and
/// `q` of the generator, with the challenges `beta`, `gamma` and `tau`.
pub open spec fn hyperkzg_shift_exponent(c: int, f: Seq<int>, num_alphas: int, gamma: int, q: int, beta: int, tau: int) -> int {
    let m = fr_modulus();
    let n = min_len(f.len() as int, num_alphas - 1);
    let weights = Seq::new(num_alphas as nat, |i: int| pow(gamma, i as nat) % m);
    (aggregate_exponent(c, f, weights, n as nat) - (q * hyperkzg_quotient_weight(tau, beta)) % m) % m
}

/// The verdict of the HyperKZG verifier when the verifier key is the multiple
/// `s` of the generator of G2 and the commitment, the folded commitments and
/// the two quotient commitments are the multiples `c`, `f`, `q` and `w` of
/// the generator of G1: the transcript's `beta` is admissible, the reported
/// evaluations rebuild to `eval`, and the exponents meet the KZG equation at
/// the transcript's `tau` with the expected value there.
pub open spec fn hyperkzg_verdict_exponents<T: HyperKZGTranscript>(
    history: TranscriptHistory,
    s: int,
    c: int,
    alphas: Seq<int>,
    eval: int,
    folded: Seq<Seq<u8>>,
    f: Seq<int>,
    evals: HyperKZGExportedLocalEvals<Fr>,
    beta_x_commitment: Seq<u8>,
    q: int,
    w: int,
) -> bool {
    let beta = hyperkzg_transcript_beta::<T>(history, folded);
    let gamma = T::challenge_after(hyperkzg_gamma_history(history, folded, evals));
    let tau = T::challenge_after(hyperkzg_tau_history(history, folded, evals, beta_x_commitment));
    &&& hyperkzg_beta_ok(beta, fr_modulus())
    &&& rebuilt_evals_end_in::<Fr>(
        evals.beta_x2_eval.value(),
        values(evals.pos_beta_x_evals@),
        values(evals.neg_beta_x_evals@),
        alphas,
        beta,
        eval,
    )
    &&& kzg_equation(
        w,
        s,
        tau,
        hyperkzg_lagrange_value(evals, alphas, beta, gamma, tau),
        hyperkzg_shift_exponent(c, f, alphas.len() as int, gamma, q, beta, tau),
    )
}

/// An aggregate exponent of scalars is a scalar.
proof fn lemma_aggregate_exponent_scalar(c: int, f: Seq<int>, weights: Seq<int>, k: nat)
    requires
        is_scalar(c),
    ensures
        is_scalar(aggregate_exponent(c, f, weights, k)),
{
    Fr::lemma_modulus();
}

/// The aggregate exponent of the commitments to `c` and its folds, for
/// powers of `s` times the generator, is the sum of `gamma^i` times the
/// oracles' values at `s`, modulo r.
proof fn lemma_aggregate_exponent_eval(c: Seq<int>, folds: Seq<Seq<int>>, gamma: int, s: int, k: nat)
    requires
        k <= folds.len(),
    ensures
        aggregate_exponent(
            (poly_eval(c, s) * 1) % fr_modulus(),
            Seq::new(folds.len(), |i: int| (poly_eval(folds[i], s) * 1) % fr_modulus()),
            Seq::new(folds.len() + 1, |i: int| pow(gamma, i as nat) % fr_modulus()),
            k,
        ) % fr_modulus() == dot_prefix(
            crate::hyper_kzg::oracle_values_at(c, folds, folds.len() + 1 as int, s),
            crate::hyper_kzg::power_seq(gamma, folds.len() + 1 as int),
            k + 1 as int,
        ) % fr_modulus(),
    decreases k,
{
    let m = fr_modulus();
    Fr::lemma_modulus();
    let f = Seq::new(folds.len(), |i: int| (poly_eval(folds[i], s) * 1) % m);
    let wts = Seq::new(folds.len() + 1, |i: int| pow(gamma, i as nat) % m);
    let ov = crate::hyper_kzg::oracle_values_at(c, folds, folds.len() + 1 as int, s);
    let ps = crate::hyper_kzg::power_seq(gamma, folds.len() + 1 as int);
    let cexp = (poly_eval(c, s) * 1) % m;
    vstd::arithmetic::power::lemma_pow0(gamma);
    if k == 0 {
        assert(dot_prefix(ov, ps, 1) == dot_prefix(ov, ps, 0) + ov[0] * ps[0]);
        assert(ov[0] == poly_eval(c, s));
        assert(ps[0] == 1);
        vstd::arithmetic::div_mod::lemma_mod_twice(poly_eval(c, s) * 1, m);
    } else {
        lemma_aggregate_exponent_eval(c, folds, gamma, s, (k - 1) as nat);
        let prev = aggregate_exponent(cexp, f, wts, (k - 1) as nat);
        let j = k - 1;
        assert(ov[k as int] == poly_eval(folds[j], s));
        assert(ps[k as int] == pow(gamma, k));
        assert(f[j] == (poly_eval(folds[j], s) * 1) % m);
        vstd::arithmetic::div_mod::lemma_mod_twice(poly_eval(folds[j], s) * 1, m);
        vstd::arithmetic::div_mod::lemma_mod_twice(pow(gamma, k), m);
        crate::field::lemma_congruent_mul(f[j], poly_eval(folds[j], s), wts[k as int], pow(gamma, k), m);
        vstd::arithmetic::div_mod::lemma_mod_twice(f[j] * wts[k as int], m);
        crate::field::lemma_congruent_add(
            prev,
            dot_prefix(ov, ps, k as int),
            (f[j] * wts[k as int]) % m,
            ov[k as int] * ps[k as int],
            m,
        );
        vstd::arithmetic::div_mod::lemma_mod_twice(prev + (f[j] * wts[k as int]) % m, m);
        assert(dot_prefix(ov, ps, k + 1 as int) == dot_prefix(ov, ps, k as int) + ov[k as int] * ps[k as int]);
    }
}

/// The quotient weight is the product `(tau - beta)(tau + beta)(tau - beta^2)`
/// modulo r.
proof fn lemma_quotient_weight(tau: int, beta: int)
    ensures
        hyperkzg_quotient_weight(tau, beta) % fr_modulus() == ((tau - beta) * (tau + beta) * (tau - beta * beta))
            % fr_modulus(),
{
    let m = fr_modulus();
    Fr::lemma_modulus();
    let x1 = (tau - beta) % m;
    let x2 = (tau - (beta * beta) % m) % m;
    let x3 = (tau + beta) % m;
    vstd::arithmetic::div_mod::lemma_mod_twice(tau - beta, m);
    vstd::arithmetic::div_mod::lemma_mod_twice(beta * beta, m);
    vstd::arithmetic::div_mod::lemma_mod_twice(tau + beta, m);
    vstd::arithmetic::div_mod::lemma_mod_twice(tau - (beta * beta) % m, m);
    vstd::arithmetic::div_mod::lemma_mod_twice(tau, m);
    crate::field::lemma_congruent_sub(tau, tau, (beta * beta) % m, beta * beta, m);
    crate::field::lemma_congruent_mul(x1, tau - beta, x2, tau - beta * beta, m);
    vstd::arithmetic::div_mod::lemma_mod_twice(x1 * x2, m);
    crate::field::lemma_congruent_mul((x1 * x2) % m, (tau - beta) * (tau - beta * beta), x3, tau + beta, m);
    vstd::arithmetic::div_mod::lemma_mod_twice(((x1 * x2) % m) * x3, m);
    assert((tau - beta) * (tau - beta * beta) * (tau + beta) == (tau - beta) * (tau + beta) * (tau - beta * beta))
        by (nonlinear_arith);
}

/// Completeness of HyperKZG: with the reference string of the secret `s`
/// (its G1 powers `powers`), the commitment to the polynomial `c`, the
/// commitments to its folds by `alphas`, and quotient commitments made as
/// `hyperkzg_quotient_commitments` describes them for the exported
/// evaluations `e` and the challenges `beta`, `gamma` and `tau`, are
/// multiples of the generator whose exponents meet the KZG equation that
/// `coeff_form_uni_hyperkzg_verify` checks (see
/// `hyperkzg_verdict_exponents`), so that it accepts an honest opening.
pub proof fn lemma_hyperkzg_complete(
    powers: Seq<Seq<u8>>,
    s: int,
    c: Seq<int>,
    alphas: Seq<int>,
    e: HyperKZGExportedLocalEvals<Fr>,
    beta: int,
    gamma: int,
    tau: int,
    beta_x_commitment: Seq<u8>,
    quotient_delta_x_commitment: Seq<u8>,
)
    requires
        g1_powers_of(powers, s, 1),
        alphas.len() >= 1,
        0 <= beta < fr_modulus(),
        hyperkzg_beta_ok(beta, fr_modulus()),
        hyperkzg_quotient_commitments(powers, c, alphas, e, beta, gamma, tau, beta_x_commitment, quotient_delta_x_commitment),
    ensures
        exists|q: int, w: int|
            is_scalar(q) && is_scalar(w) && beta_x_commitment == #[trigger] g1_generator_mul_of(q)
                && quotient_delta_x_commitment == #[trigger] g1_generator_mul_of(w) && kzg_equation(
                w,
                s,
                tau,
                hyperkzg_lagrange_value(e, alphas, beta, gamma, tau),
                hyperkzg_shift_exponent(
                    (poly_eval(c, s) * 1) % fr_modulus(),
                    Seq::new(
                        (alphas.len() - 1) as nat,
                        |i: int| (poly_eval(fold_chain(c, alphas, fr_modulus(), (i + 1) as nat), s) * 1) % fr_modulus(),
                    ),
                    alphas.len() as int,
                    gamma,
                    q,
                    beta,
                    tau,
                ),
            ),
{
    let m = fr_modulus();
    Fr::lemma_modulus();
    let (l, qp, wp) = choose|l: Seq<int>, q: Seq<int>, w: Seq<int>|
        hyperkzg_quotient_witnesses(powers, c, alphas, e, beta, gamma, tau, beta_x_commitment, quotient_delta_x_commitment, l, q, w);
    let nf = (alphas.len() - 1) as nat;
    let folds = hyperkzg_folds_of(c, alphas);
    let agg = aggregate_seq(c, folds, gamma, nf);
    let fagg = reduce(agg, m);
    let le = rebuilt_evals(e, alphas, beta);
    let na = alphas.len() as int;
    // the quotient commitments' exponents
    assert(g1_powers_of(powers, s, 1));
    let q = (poly_eval(qp, s) * 1) % m;
    let w = (poly_eval(wp, s) * 1) % m;
    assert(beta_x_commitment == g1_generator_mul_of(q) && quotient_delta_x_commitment == g1_generator_mul_of(w));
    // the expected value is the remainder at tau
    let yp = gamma_combination(values(le.pos_beta_evals@), gamma, na);
    let yn = gamma_combination(values(le.neg_beta_evals@), gamma, na);
    let y2 = gamma_combination(values(le.beta2_evals@), gamma, na);
    vstd::arithmetic::div_mod::lemma_mod_twice(-beta, m);
    vstd::arithmetic::div_mod::lemma_mod_twice(beta * beta, m);
    lemma_poly_eval_point_congruent(l, -beta, (-beta) % m, m);
    lemma_poly_eval_point_congruent(l, beta * beta, (beta * beta) % m, m);
    assert(interpolates(l, beta, (-beta) % m, (beta * beta) % m, yp, yn, y2));
    crate::hyper_bikzg::lemma_beta_interpolant(l, beta, yp, yn, y2, tau);
    let lv = hyperkzg_lagrange_value(e, alphas, beta, gamma, tau);
    assert(lv == poly_eval(l, tau) % m);
    // the aggregate exponent is the combination's value at s
    let f = Seq::new(nf, |i: int| (poly_eval(fold_chain(c, alphas, m, (i + 1) as nat), s) * 1) % m);
    let wts = Seq::new(na as nat, |i: int| pow(gamma, i as nat) % m);
    assert(folds.len() == nf);
    assert(f =~= Seq::new(folds.len(), |i: int| (poly_eval(folds[i], s) * 1) % m));
    assert(wts =~= Seq::new(folds.len() + 1, |i: int| pow(gamma, i as nat) % m));
    lemma_aggregate_exponent_eval(c, folds, gamma, s, nf);
    crate::hyper_kzg::lemma_aggregate_eval(c, folds, gamma, nf, s);
    lemma_poly_eval_reduce(agg, s, m);
    let cexp = (poly_eval(c, s) * 1) % m;
    let ae = aggregate_exponent(cexp, f, wts, nf);
    assert(min_len(f.len() as int, na - 1) == nf);
    assert(ae % m == poly_eval(fagg, s) % m);
    // the division by X - tau at s
    let d = (tau - beta) * (tau + beta) * (tau - beta * beta);
    let pd = padd(fagg, qp, -d);
    crate::univariate::lemma_linear_division_identity(reduce(pd, m), wp, poly_eval(l, tau), tau, m, s);
    lemma_poly_eval_reduce(pd, s, m);
    crate::hyper_kzg::lemma_padd_eval(fagg, qp, -d, s);
    let fs = poly_eval(fagg, s);
    let qs = poly_eval(qp, s);
    let ws = poly_eval(wp, s);
    let lt = poly_eval(l, tau);
    assert((fs + (-d) * qs) % m == (ws * (s - tau) + lt) % m);
    // the shifted exponent
    let qw = hyperkzg_quotient_weight(tau, beta);
    lemma_quotient_weight(tau, beta);
    vstd::arithmetic::div_mod::lemma_mod_twice(qs * 1, m);
    crate::field::lemma_congruent_mul(q, qs, qw, d, m);
    vstd::arithmetic::div_mod::lemma_mod_twice(q * qw, m);
    crate::field::lemma_congruent_sub(ae, fs, (q * qw) % m, qs * d, m);
    let sh = (ae - (q * qw) % m) % m;
    assert(sh == hyperkzg_shift_exponent(cexp, f, na, gamma, q, beta, tau));
    vstd::arithmetic::div_mod::lemma_mod_twice(ae - (q * qw) % m, m);
    assert(sh % m == (fs - qs * d) % m);
    assert(fs + (-d) * qs == fs - qs * d) by (nonlinear_arith);
    // the equation
    vstd::arithmetic::div_mod::lemma_mod_twice(ws * 1, m);
    crate::field::lemma_congruent_mul(w, ws, s - tau, s - tau, m);
    vstd::arithmetic::div_mod::lemma_mod_twice(lt, m);
    crate::field::lemma_congruent_sub(lv, lt, sh, fs - qs * d, m);
    crate::field::lemma_congruent_add(w * (s - tau), ws * (s - tau), lv - sh, lt - (fs - qs * d), m);
    lemma_congruent_diff(ws * (s - tau) + lt, fs - qs * d, m);
    assert(ws * (s - tau) + (lt - (fs - qs * d)) == (ws * (s - tau) + lt) - (fs - qs * d));
    assert(0int % m == 0);
    assert(kzg_equation(w, s, tau, lv, sh));
    assert(is_scalar(q) && is_scalar(w));
}

/// The value of `l0 + l1 tau + l2 tau^2` computed step by step modulo `m`.
proof fn lemma_quadratic_steps(l0: int, l1: int, l2: int, t: int, m: int)
    requires
        m > 0,
    ensures
        ((l0 + (l1 * t) % m) % m + (((l2 * t) % m) * t) % m) % m == (l0 + t * l1 + t * t * l2) % m,
{
    let x = l1 * t;
    let y = (l2 * t) * t;
    let a = l0 + x % m;
    let b = ((l2 * t) % m) * t;
    vstd::arithmetic::div_mod::lemma_add_mod_noop(a, b, m);
    vstd::arithmetic::div_mod::lemma_mod_twice(a, m);
    vstd::arithmetic::div_mod::lemma_mod_twice(b, m);
    assert((a % m + b % m) % m == (a + b) % m);
    vstd::arithmetic::div_mod::lemma_add_mod_noop(l0, x, m);
    vstd::arithmetic::div_mod::lemma_add_mod_noop(l0, x % m, m);
    vstd::arithmetic::div_mod::lemma_mod_twice(x, m);
    assert(a % m == (l0 + x) % m);
    vstd::arithmetic::div_mod::lemma_mul_mod_noop_left(l2 * t, t, m);
    assert(b % m == y % m);
    vstd::arithmetic::div_mod::lemma_add_mod_noop(l0 + x, y, m);
    vstd::arithmetic::div_mod::lemma_add_mod_noop(a, b, m);
    assert((a + b) % m == (l0 + x + y) % m);
    assert(l0 + x + y == l0 + t * l1 + t * t * l2) by (nonlinear_arith)
        requires
            x == l1 * t,
            y == (l2 * t) * t,
    ;
}

/// Verifies a HyperKZG opening of the commitment `comm` at `alphas` to
/// `eval`, redrawing the challenges from the transcript in the prover's
/// order. Rejects when the transcript's `beta` does not keep the evaluation
/// points apart, and when the reported evaluations do not fold to `eval`;
/// otherwise the answer is the KZG check of the aggregated commitment at
/// `tau` (see `hyperkzg_verdict`). For a key and commitments that are
/// multiples of the generators, the answer is whether their exponents meet
/// the KZG equation there (see `hyperkzg_verdict_exponents`).
pub fn coeff_form_uni_hyperkzg_verify<T: HyperKZGTranscript>(
    vk: UniKZGVerifierParams,
    comm: G1Point,
    alphas: &[Fr],
    eval: Fr,
    opening: &HyperKZGOpening,
    fs_transcript: &mut T,
) -> (r: bool)
    requires
        alphas@.len() >= 1,
    ensures
        r ==> hyperkzg_beta_ok(
            hyperkzg_transcript_beta::<T>(old(fs_transcript).absorbed(), g1_views(opening.folded_oracle_commitments@)),
            Fr::modulus(),
        ) && reported_final_eval(
            opening.evals_at_x,
            values(alphas@),
            hyperkzg_transcript_beta::<T>(old(fs_transcript).absorbed(), g1_views(opening.folded_oracle_commitments@)),
            eval.value(),
        ),
        r ==> final(fs_transcript).absorbed() == hyperkzg_tau_history(
            old(fs_transcript).absorbed(),
            g1_views(opening.folded_oracle_commitments@),
            opening.evals_at_x,
            opening.beta_x_commitment@,
        ).push(TranscriptEntry::Challenge),
        r == hyperkzg_verdict::<T>(
            old(fs_transcript).absorbed(),
            vk.tau_g2@,
            comm@,
            values(alphas@),
            eval.value(),
            g1_views(opening.folded_oracle_commitments@),
            opening.evals_at_x,
            opening.beta_x_commitment@,
            opening.quotient_delta_x_commitment@,
        ),
        forall|s: int, c: int, f: Seq<int>, q: int, w: int|
            #![trigger g2_generator_mul_of(s), g1_generator_mul_of(c), g1_multiples(g1_views(opening.folded_oracle_commitments@), f), g1_generator_mul_of(q), g1_generator_mul_of(w)]
            is_scalar(s) && is_scalar(c) && is_scalar(q) && is_scalar(w) && vk.tau_g2@ == g2_generator_mul_of(s)
                && comm@ == g1_generator_mul_of(c) && g1_multiples(g1_views(opening.folded_oracle_commitments@), f)
                && opening.beta_x_commitment@ == g1_generator_mul_of(q) && opening.quotient_delta_x_commitment@
                == g1_generator_mul_of(w) ==> (r <==> hyperkzg_verdict_exponents::<T>(
                old(fs_transcript).absorbed(),
                s,
                c,
                values(alphas@),
                eval.value(),
                g1_views(opening.folded_oracle_commitments@),
                f,
                opening.evals_at_x,
                opening.beta_x_commitment@,
                q,
                w,
            )),
{
    let ghost history = fs_transcript.absorbed();
    append_commitments(&opening.folded_oracle_commitments, fs_transcript);
    let beta = fs_transcript.generate_challenge_field_element();
    if !hyperkzg_beta_check(beta) {
        return false;
    }
    let ghost m = Fr::modulus();
    proof {
        Fr::lemma_modulus();
        Fr::lemma_value_range(beta);
        crate::hyper_kzg::lemma_beta_units(beta.value(), m);
    }
    let beta2 = beta.times(&beta);
    let neg_beta = beta.negate();
    let local_evals = HyperKZGLocalEvals::new_from_exported_evals(&opening.evals_at_x, alphas, beta);
    append_exported_evals(&opening.evals_at_x, fs_transcript);
    let final_eval = local_evals.multilinear_final_eval();
    if !final_eval.is_equal(&eval) {
        return false;
    }
    let gamma = fs_transcript.generate_challenge_field_element();
    let gamma_pow_series = powers_series(&gamma, alphas.len());
    let v_beta = univariate_evaluate(local_evals.pos_beta_evals.as_slice(), gamma_pow_series.as_slice());
    let v_neg_beta = univariate_evaluate(local_evals.neg_beta_evals.as_slice(), gamma_pow_series.as_slice());
    let v_beta2 = univariate_evaluate(local_evals.beta2_evals.as_slice(), gamma_pow_series.as_slice());
    proof {
        let b = beta.value();
        vstd::arithmetic::div_mod::lemma_mod_twice(b * b, m);
        vstd::arithmetic::div_mod::lemma_mod_twice(-b, m);
        crate::hyper_kzg::lemma_unit_pair(b, -b, b * b, b, neg_beta.value(), beta2.value(), m);
        crate::hyper_kzg::lemma_unit_pair(-b, b, b * b, neg_beta.value(), b, beta2.value(), m);
        crate::hyper_kzg::lemma_unit_pair(b * b, b, -b, beta2.value(), b, neg_beta.value(), m);
        crate::field::lemma_reduced(b, m);
    }
    let lagrange = coeff_form_degree2_lagrange([beta, neg_beta, beta2], [v_beta, v_neg_beta, v_beta2]);
    let mut commitment_agg = comm;
    let n = if opening.folded_oracle_commitments.len() < gamma_pow_series.len() - 1 {
        opening.folded_oracle_commitments.len()
    } else {
        gamma_pow_series.len() - 1
    };
    let ghost fvs = g1_views(opening.folded_oracle_commitments@);
    let ghost gws = values(gamma_pow_series@);
    let mut k: usize = 0;
    while k < n
        invariant
            k <= n,
            n <= opening.folded_oracle_commitments@.len(),
            n + 1 <= gamma_pow_series@.len(),
            fvs == g1_views(opening.folded_oracle_commitments@),
            gws == values(gamma_pow_series@),
            commitment_agg@ == g1_aggregate(comm@, fvs, gws, k as nat),
            forall|c: int, f: Seq<int>|
                #![trigger g1_generator_mul_of(c), g1_multiples(fvs, f)]
                is_scalar(c) && comm@ == g1_generator_mul_of(c) && g1_multiples(fvs, f) ==> commitment_agg@
                    == g1_generator_mul_of(aggregate_exponent(c, f, gws, k as nat)),
        decreases n - k,
    {
        let term = g1_scalar_mul(&opening.folded_oracle_commitments[k], &gamma_pow_series[k + 1]);
        let next = g1_add(&commitment_agg, &term);
        proof {
            let m = fr_modulus();
            Fr::lemma_modulus();
            assert forall|c: int, f: Seq<int>|
                #![trigger g1_generator_mul_of(c), g1_multiples(fvs, f)]
                is_scalar(c) && comm@ == g1_generator_mul_of(c) && g1_multiples(fvs, f) implies next@
                    == g1_generator_mul_of(aggregate_exponent(c, f, gws, (k + 1) as nat)) by {
                let u = aggregate_exponent(c, f, gws, k as nat);
                lemma_aggregate_exponent_scalar(c, f, gws, k as nat);
                assert(commitment_agg@ == g1_generator_mul_of(u));
                assert(is_scalar(f[k as int]) && fvs[k as int] == g1_generator_mul_of(f[k as int]));
                assert(opening.folded_oracle_commitments@[k as int]@ == fvs[k as int]);
                let v = (f[k as int] * gamma_pow_series@[k + 1].value()) % m;
                assert(term@ == g1_generator_mul_of(v));
                assert(gws[k + 1] == gamma_pow_series@[k + 1].value());
                assert(is_scalar(v));
                assert(next@ == g1_generator_mul_of((u + v) % m));
                assert(aggregate_exponent(c, f, gws, (k + 1) as nat) == (u + v) % m);
            }
        }
        commitment_agg = next;
        k = k + 1;
    }
    fs_transcript.append_commitment(&opening.beta_x_commitment);
    let tau = fs_transcript.generate_challenge_field_element();
    let q_weight = tau.minus(&beta).times(&tau.minus(&beta2)).times(&tau.plus(&beta));
    let lagrange_eval = lagrange[0].plus(&lagrange[1].times(&tau)).plus(&lagrange[2].times(&tau).times(&tau));
    let weighted_beta_x = g1_scalar_mul(&opening.beta_x_commitment, &q_weight);
    let shifted = g1_sub(&commitment_agg, &weighted_beta_x);
    proof {
        let gamma_v = T::challenge_after(hyperkzg_gamma_history(history, g1_views(opening.folded_oracle_commitments@), opening.evals_at_x));
        assert(gamma.value() == gamma_v);
        assert(gws =~= Seq::new(alphas@.len(), |i: int| pow(gamma_v, i as nat) % fr_modulus()));
        assert(tau.value() == T::challenge_after(hyperkzg_tau_history(history, g1_views(opening.folded_oracle_commitments@), opening.evals_at_x, opening.beta_x_commitment@)));
        assert(q_weight.value() == hyperkzg_quotient_weight(tau.value(), beta.value()));
        assert(shifted@ == hyperkzg_shifted_commitment::<T>(
            history,
            comm@,
            alphas@.len() as int,
            g1_views(opening.folded_oracle_commitments@),
            opening.evals_at_x,
            opening.beta_x_commitment@,
        ));
    }
    proof {
        let bt = beta.value();
        let gv = gamma.value();
        let tv = tau.value();
        let e = opening.evals_at_x;
        let al = values(alphas@);
        let na = alphas@.len() as int;
        let le = rebuilt_evals(e, al, bt);
        crate::hyper_kzg::lemma_rebuilt_values_unique(
            local_evals,
            le,
            e.beta_x2_eval.value(),
            values(e.pos_beta_x_evals@),
            values(e.neg_beta_x_evals@),
            al,
            bt,
        );
        assert(values(gamma_pow_series@) =~= Seq::new(na as nat, |i: int| pow(gv, i as nat) % fr_modulus()));
        let yp = gamma_combination(values(le.pos_beta_evals@), gv, na);
        let yn = gamma_combination(values(le.neg_beta_evals@), gv, na);
        let y2 = gamma_combination(values(le.beta2_evals@), gv, na);
        assert(v_beta.value() == yp);
        assert(v_neg_beta.value() == yn);
        assert(v_beta2.value() == y2);
        let lag = values(lagrange@);
        let nb = neg_beta.value();
        let b2 = beta2.value();
        assert(lagrange@[0].value() == lag[0] && lagrange@[1].value() == lag[1] && lagrange@[2].value() == lag[2]);
        assert(interpolates(lag, bt, nb, b2, yp, yn, y2));
        let l = choose|l: Seq<int>| interpolates(l, bt, nb, b2, yp, yn, y2);
        lemma_unit_factor(bt - nb, bt - b2, m);
        assert((bt - nb) * (bt - b2) == (bt - b2) * (bt - nb)) by (nonlinear_arith);
        lemma_unit_factor(bt - b2, bt - nb, m);
        assert((nb - bt) * (nb - b2) == (nb - b2) * (nb - bt)) by (nonlinear_arith);
        lemma_unit_factor(nb - b2, nb - bt, m);
        lemma_quadratic_unique(lag, l, bt, nb, b2, tv, m);
        lemma_poly_eval_quadratic(lag, tv);
        lemma_quadratic_steps(lag[0], lag[1], lag[2], tv, m);
        assert(lagrange_eval.value() == hyperkzg_lagrange_value(e, al, bt, gv, tv));
        assert forall|l2: HyperKZGLocalEvals<Fr>|
            #[trigger] evals_from_reported(
                l2,
                e.beta_x2_eval.value(),
                values(e.pos_beta_x_evals@),
                values(e.neg_beta_x_evals@),
                al,
                bt,
            ) implies l2.beta2_evals@[l2.beta2_evals@.len() - 1].value() == eval.value() by {
            crate::hyper_kzg::lemma_rebuilt_unique(
                l2,
                local_evals,
                e.beta_x2_eval.value(),
                values(e.pos_beta_x_evals@),
                values(e.neg_beta_x_evals@),
                al,
                bt,
            );
        }
    }
    let r = coeff_form_uni_kzg_verify(vk, shifted, tau, lagrange_eval, opening.quotient_delta_x_commitment);
    proof {
        let m = fr_modulus();
        assert forall|s: int, c: int, f: Seq<int>, q: int, w: int|
            #![trigger g2_generator_mul_of(s), g1_generator_mul_of(c), g1_multiples(g1_views(opening.folded_oracle_commitments@), f), g1_generator_mul_of(q), g1_generator_mul_of(w)]
            is_scalar(s) && is_scalar(c) && is_scalar(q) && is_scalar(w) && vk.tau_g2@ == g2_generator_mul_of(s)
                && comm@ == g1_generator_mul_of(c) && g1_multiples(g1_views(opening.folded_oracle_commitments@), f)
                && opening.beta_x_commitment@ == g1_generator_mul_of(q) && opening.quotient_delta_x_commitment@
                == g1_generator_mul_of(w) implies (r <==> hyperkzg_verdict_exponents::<T>(
                history,
                s,
                c,
                values(alphas@),
                eval.value(),
                g1_views(opening.folded_oracle_commitments@),
                f,
                opening.evals_at_x,
                opening.beta_x_commitment@,
                q,
                w,
            )) by {
            let a = aggregate_exponent(c, f, gws, n as nat);
            lemma_aggregate_exponent_scalar(c, f, gws, n as nat);
            assert(commitment_agg@ == g1_generator_mul_of(a));
            let wq = (q * q_weight.value()) % m;
            assert(weighted_beta_x@ == g1_generator_mul_of(wq));
            assert(is_scalar(wq));
            let sh = (a - wq) % m;
            assert(shifted@ == g1_generator_mul_of(sh));
            assert(is_scalar(sh));
            assert(f.len() == fvs.len());
            assert(sh == hyperkzg_shift_exponent(c, f, alphas@.len() as int, gamma.value(), q, beta.value(), tau.value()));
            assert(r <==> kzg_equation(w, s, tau.value(), lagrange_eval.value(), sh));
        }
    }
    r
}


/// The reference string of one party of bivariate KZG: its share of the
/// powers `tau_x^i tau_y^rank` in G1 with `tau_x` in G2, and the powers
/// `tau_y^j` in G1 with `tau_y` in G2.
#[derive(Debug)]
pub struct CoefFormBiKZGLocalSRS {
    pub tau_x_srs: CoefFormUniKZGSRS,
    pub tau_y_srs: CoefFormUniKZGSRS,
}

/// What a bivariate KZG verifier needs: `tau_x` and `tau_y` in G2.
#[derive(Debug)]
pub struct BiKZGVerifierParam {
    pub tau_x_g2: G2Point,
    pub tau_y_g2: G2Point,
}

/// A bivariate KZG opening: the quotients in `X` and in `Y`.
#[derive(Debug)]
pub struct BiKZGProof {
    pub quotient_x: G1Point,
    pub quotient_y: G1Point,
}

impl BiKZGVerifierParam {
    /// The verifier's part of a party's reference string.
    pub fn from_srs(srs: &CoefFormBiKZGLocalSRS) -> (r: Self)
        ensures
            r.tau_x_g2 == srs.tau_x_srs.tau_g2,
            r.tau_y_g2 == srs.tau_y_srs.tau_g2,
    {
        BiKZGVerifierParam { tau_x_g2: srs.tau_x_srs.tau_g2, tau_y_g2: srs.tau_y_srs.tau_g2 }
    }
}

/// `srs` is the reference string of party `rank` for the secrets `tau_x` and
/// `tau_y`: its powers in `X` are `tau_x^i tau_y^rank` times the generator of
/// G1, its powers in `Y` are `tau_y^j` times the generator, and its G2
/// elements are `tau_x` and `tau_y` times the generator of G2.
pub open spec fn bi_kzg_srs_for(srs: CoefFormBiKZGLocalSRS, tau_x: int, tau_y: int, rank: int) -> bool {
    &&& is_scalar(tau_x)
    &&& is_scalar(tau_y)
    &&& rank >= 0
    &&& g1_powers_of(g1_views(srs.tau_x_srs.powers_of_tau@), tau_x, pow(tau_y, rank as nat) % fr_modulus())
    &&& g1_powers_of(g1_views(srs.tau_y_srs.powers_of_tau@), tau_y, 1)
    &&& srs.tau_x_srs.tau_g2@ == g2_generator_mul_of(tau_x)
    &&& srs.tau_y_srs.tau_g2@ == g2_generator_mul_of(tau_y)
}

/// The sum of the points of a non-empty list, added from the first.
pub open spec fn g1_sum(s: Seq<Seq<u8>>) -> Seq<u8>
    decreases s.len(),
{
    if s.len() <= 1 {
        s[0]
    } else {
        g1_add_of(g1_sum(s.drop_last()), s.last())
    }
}

/// The sum of a list of integers.
pub open spec fn scalar_sum(e: Seq<int>) -> int
    decreases e.len(),
{
    if e.len() == 0 {
        0
    } else {
        scalar_sum(e.drop_last()) + e.last()
    }
}

/// The points of a list of evaluations and openings.
pub open spec fn opening_views(s: Seq<(Fr, G1Point)>) -> Seq<Seq<u8>> {
    Seq::new(s.len(), |i: int| s[i].1@)
}

/// The values of a list of evaluations and openings.
pub open spec fn evaluation_values(s: Seq<(Fr, G1Point)>) -> Seq<int> {
    Seq::new(s.len(), |i: int| s[i].0.value())
}

/// The bivariate KZG equation of the quotients `ox` and `oy` at `(alpha,
/// beta)` to `eval` of a commitment `c`, all as exponents of the generators:
/// `ox (tau_x - alpha) + oy (tau_y - beta) = c - eval` modulo r.
pub open spec fn bi_kzg_equation(ox: int, oy: int, tx: int, ty: int, alpha: int, beta: int, eval: int, c: int) -> bool {
    (ox * (tx - alpha) + oy * (ty - beta) + (eval - c)) % fr_modulus() == 0
}

/// The reference string of party `party_rank` among `distributed_parties`,
/// each holding `local_length` coefficients in `X`, for secrets `tau_x` and
/// `tau_y` drawn from `rng` in that order.
pub fn generate_coef_form_bi_kzg_local_srs_for_testing(
    local_length: usize,
    distributed_parties: usize,
    party_rank: usize,
    rng: &mut StdRng,
) -> (r: CoefFormBiKZGLocalSRS)
    requires
        is_power_of_two(local_length as int),
        is_power_of_two(distributed_parties as int),
        party_rank < distributed_parties,
    ensures
        r.tau_x_srs.powers_of_tau@.len() == local_length,
        r.tau_y_srs.powers_of_tau@.len() == distributed_parties,
        exists|tau_x: int, tau_y: int| #[trigger] bi_kzg_srs_for(r, tau_x, tau_y, party_rank as int),
{
    proof {
        let k = choose|k: nat| pow2(k) == local_length as int;
        lemma_pow2_pos(k);
    }
    let tau_x = random_fr(rng);
    let tau_y = random_fr(rng);
    let ghost tx = tau_x.value();
    let ghost ty = tau_y.value();
    let ghost m = fr_modulus();
    let ghost s = pow(ty, party_rank as nat) % m;
    proof {
        Fr::lemma_value_range(tau_x);
        Fr::lemma_value_range(tau_y);
        Fr::lemma_modulus();
    }
    let tau_x_geometric_progression = powers_series(&tau_x, local_length);
    let tau_y_geometric_progression = powers_series(&tau_y, distributed_parties);
    let tau_y_rank = tau_y_geometric_progression[party_rank];
    let mut x_coeff_bases: Vec<G1Point> = Vec::new();
    let mut i: usize = 0;
    while i < local_length
        invariant
            i <= local_length,
            m == fr_modulus(),
            m > 1,
            tx == tau_x.value(),
            tau_y_rank.value() == s,
            tau_x_geometric_progression@.len() == local_length,
            forall|j: int|
                0 <= j < local_length ==> #[trigger] tau_x_geometric_progression@[j].value() == pow(tx, j as nat) % m,
            x_coeff_bases@.len() == i,
            forall|j: int| 0 <= j < i ==> #[trigger] x_coeff_bases@[j]@ == g1_generator_mul_of((pow(tx, j as nat) * s) % m),
        decreases local_length - i,
    {
        let scalar = tau_x_geometric_progression[i].times(&tau_y_rank);
        proof {
            vstd::arithmetic::div_mod::lemma_mul_mod_noop_left(pow(tx, i as nat), s, m);
        }
        x_coeff_bases.push(g1_generator_mul(&scalar));
        i = i + 1;
    }
    let mut y_coeff_bases: Vec<G1Point> = Vec::new();
    let mut j: usize = 0;
    while j < distributed_parties
        invariant
            j <= distributed_parties,
            m == fr_modulus(),
            ty == tau_y.value(),
            tau_y_geometric_progression@.len() == distributed_parties,
            forall|t: int|
                0 <= t < distributed_parties ==> #[trigger] tau_y_geometric_progression@[t].value() == pow(ty, t as nat) % m,
            y_coeff_bases@.len() == j,
            forall|t: int| 0 <= t < j ==> #[trigger] y_coeff_bases@[t]@ == g1_generator_mul_of((pow(ty, t as nat) * 1) % m),
        decreases distributed_parties - j,
    {
        y_coeff_bases.push(g1_generator_mul(&tau_y_geometric_progression[j]));
        j = j + 1;
    }
    let r = CoefFormBiKZGLocalSRS {
        tau_x_srs: CoefFormUniKZGSRS { powers_of_tau: x_coeff_bases, tau_g2: g2_generator_mul(&tau_x) },
        tau_y_srs: CoefFormUniKZGSRS { powers_of_tau: y_coeff_bases, tau_g2: g2_generator_mul(&tau_y) },
    };
    proof {
        assert(bi_kzg_srs_for(r, tx, ty, party_rank as int));
    }
    r
}

/// The leader's opening at `(alpha, beta)` from the parties' openings at
/// `alpha`: the parties' values form a polynomial in `Y`, whose value at
/// `beta` is the evaluation; the proof holds the sum of the parties'
/// quotients in `X` and the commitment to the quotient in `Y` by `Y - beta`.
#[verifier::spinoff_prover]
pub fn coeff_form_bi_kzg_open_leader(
    srs: &CoefFormBiKZGLocalSRS,
    evals_and_opens: &[(Fr, G1Point)],
    beta: Fr,
) -> (r: (Fr, BiKZGProof))
    requires
        srs.tau_y_srs.powers_of_tau@.len() == evals_and_opens@.len(),
        evals_and_opens@.len() >= 1,
    ensures
        r.0.value() == poly_eval(evaluation_values(evals_and_opens@), beta.value()) % Fr::modulus(),
        r.1.quotient_x@ == g1_sum(opening_views(evals_and_opens@)),
        forall|e: Seq<int>|
            #![trigger g1_multiples(opening_views(evals_and_opens@), e)]
            g1_multiples(opening_views(evals_and_opens@), e) ==> r.1.quotient_x@ == g1_generator_mul_of(
                scalar_sum(e) % fr_modulus(),
            ),
        exists|q: Seq<int>|
            #[trigger] is_linear_division(evaluation_values(evals_and_opens@), q, r.0.value(), beta.value(), Fr::modulus())
                && (forall|i: int| 0 <= i < q.len() ==> is_scalar(#[trigger] q[i])) && r.1.quotient_y@ == kzg_commitment_of(
                g1_views(srs.tau_y_srs.powers_of_tau@),
                q,
            ),
        forall|tau: int, scale: int|
            #![trigger g1_powers_of(g1_views(srs.tau_y_srs.powers_of_tau@), tau, scale)]
            g1_powers_of(g1_views(srs.tau_y_srs.powers_of_tau@), tau, scale) ==> exists|o: int|
                is_scalar(o) && r.1.quotient_y@ == #[trigger] g1_generator_mul_of(o) && (o * (tau - beta.value()) - (
                poly_eval(evaluation_values(evals_and_opens@), tau) - r.0.value()) * scale) % fr_modulus() == 0,
{
    let n = evals_and_opens.len();
    let ghost ovs = opening_views(evals_and_opens@);
    let ghost m = fr_modulus();
    proof {
        Fr::lemma_modulus();
    }
    let mut x_open = evals_and_opens[0].1;
    let mut gammas: Vec<Fr> = Vec::new();
    gammas.push(evals_and_opens[0].0);
    proof {
        assert(ovs.take(1).drop_last() =~= Seq::<Seq<u8>>::empty());
        assert forall|e: Seq<int>| #![trigger g1_multiples(ovs, e)] g1_multiples(ovs, e) implies x_open@
            == g1_generator_mul_of(scalar_sum(e.take(1)) % m) by {
            assert(e.take(1).drop_last() =~= Seq::<int>::empty());
            assert(is_scalar(e[0]));
            assert(ovs[0] == evals_and_opens@[0].1@);
            assert(e.len() == ovs.len());
            assert(e.take(1).len() == 1);
            assert(scalar_sum(e.take(1).drop_last()) == 0);
            assert(e.take(1).last() == e[0]);
            assert(scalar_sum(e.take(1)) == e[0]);
            crate::field::lemma_reduced(e[0], m);
        }
    }
    let mut i: usize = 1;
    while i < n
        invariant
            1 <= i <= n,
            n == evals_and_opens@.len(),
            m == fr_modulus(),
            m > 1,
            ovs == opening_views(evals_and_opens@),
            gammas@.len() == i,
            forall|k: int| 0 <= k < i ==> #[trigger] gammas@[k] == evals_and_opens@[k].0,
            x_open@ == g1_sum(ovs.take(i as int)),
            forall|e: Seq<int>|
                #![trigger g1_multiples(ovs, e)]
                g1_multiples(ovs, e) ==> x_open@ == g1_generator_mul_of(scalar_sum(e.take(i as int)) % m),
        decreases n - i,
    {
        let ghost before = x_open;
        x_open = g1_add(&x_open, &evals_and_opens[i].1);
        proof {
            assert(ovs.take(i as int + 1).drop_last() =~= ovs.take(i as int));
            assert(ovs[i as int] == evals_and_opens@[i as int].1@);
            assert forall|e: Seq<int>| #![trigger g1_multiples(ovs, e)] g1_multiples(ovs, e) implies x_open@
                == g1_generator_mul_of(scalar_sum(e.take(i as int + 1)) % m) by {
                let u = scalar_sum(e.take(i as int)) % m;
                let v = e[i as int];
                assert(e.take(i as int + 1).drop_last() =~= e.take(i as int));
                assert(before@ == g1_generator_mul_of(u));
                assert(evals_and_opens@[i as int].1@ == g1_generator_mul_of(v));
                assert(x_open@ == g1_generator_mul_of((u + v) % m));
                vstd::arithmetic::div_mod::lemma_add_mod_noop(scalar_sum(e.take(i as int)), v, m);
                crate::field::lemma_reduced(v, m);
                vstd::arithmetic::div_mod::lemma_mod_twice(scalar_sum(e.take(i as int)), m);
            }
        }
        gammas.push(evals_and_opens[i].0);
        i = i + 1;
    }
    proof {
        assert(ovs.take(n as int) =~= ovs);
        assert(values(gammas@) =~= evaluation_values(evals_and_opens@));
        assert forall|e: Seq<int>| #![trigger g1_multiples(ovs, e)] g1_multiples(ovs, e) implies x_open@
            == g1_generator_mul_of(scalar_sum(e) % m) by {
            assert(e.take(n as int) =~= e);
        }
    }
    let (eval, y_open) = coeff_form_uni_kzg_open_eval(&srs.tau_y_srs, gammas.as_slice(), beta);
    proof {
        let ev = evaluation_values(evals_and_opens@);
        let q = choose|q: Seq<int>|
            #[trigger] is_linear_division(values(gammas@), q, eval.value(), beta.value(), Fr::modulus()) && (forall|i: int|
                0 <= i < q.len() ==> is_scalar(#[trigger] q[i])) && y_open@ == kzg_commitment_of(
                g1_views(srs.tau_y_srs.powers_of_tau@),
                q,
            );
        assert(is_linear_division(ev, q, eval.value(), beta.value(), Fr::modulus()));
    }
    (eval, BiKZGProof { quotient_x: x_open, quotient_y: y_open })
}

/// Checks a bivariate opening:
/// `e(q_x, tau_x g2 - alpha g2) e(q_y, tau_y g2 - beta g2) e(eval g1 - comm, g2)`
/// must be the identity. For multiples of the generators, the answer is the
/// bivariate KZG equation of their exponents.
pub fn coeff_form_bi_kzg_verify(
    vk: BiKZGVerifierParam,
    comm: G1Point,
    alpha: Fr,
    beta: Fr,
    eval: Fr,
    opening: BiKZGProof,
) -> (r: bool)
    ensures
        r == pairing_check_of(
            seq![opening.quotient_x@, opening.quotient_y@, g1_sub_of(g1_generator_mul_of(eval.value()), comm@)],
            seq![
                g2_sub_of(vk.tau_x_g2@, g2_generator_mul_of(alpha.value())),
                g2_sub_of(vk.tau_y_g2@, g2_generator_mul_of(beta.value())),
                g2_generator_mul_of(1),
            ],
        ),
        forall|tx: int, ty: int, c: int, ox: int, oy: int|
            #![trigger g2_generator_mul_of(tx), g2_generator_mul_of(ty), g1_generator_mul_of(c), g1_generator_mul_of(ox), g1_generator_mul_of(oy)]
            is_scalar(tx) && is_scalar(ty) && is_scalar(c) && is_scalar(ox) && is_scalar(oy) && vk.tau_x_g2@
                == g2_generator_mul_of(tx) && vk.tau_y_g2@ == g2_generator_mul_of(ty) && comm@ == g1_generator_mul_of(c)
                && opening.quotient_x@ == g1_generator_mul_of(ox) && opening.quotient_y@ == g1_generator_mul_of(oy) ==> (r
                <==> bi_kzg_equation(ox, oy, tx, ty, alpha.value(), beta.value(), eval.value(), c)),
{
    let g1_eval = g1_generator_mul(&eval);
    let g2_alpha = g2_generator_mul(&alpha);
    let g2_beta = g2_generator_mul(&beta);
    let g2_one = g2_generator_mul(&Fr::one());
    let tau_x_minus_alpha = g2_sub(&vk.tau_x_g2, &g2_alpha);
    let tau_y_minus_beta = g2_sub(&vk.tau_y_g2, &g2_beta);
    let eval_minus_comm = g1_sub(&g1_eval, &comm);
    let g1s: Vec<G1Point> = vec![opening.quotient_x, opening.quotient_y, eval_minus_comm];
    let g2s: Vec<G2Point> = vec![tau_x_minus_alpha, tau_y_minus_beta, g2_one];
    let r = pairing_product_is_identity(g1s.as_slice(), g2s.as_slice());
    proof {
        Fr::lemma_value_range(eval);
        Fr::lemma_value_range(alpha);
        Fr::lemma_value_range(beta);
        Fr::lemma_modulus();
        assert(g1_views(g1s@) =~= seq![opening.quotient_x@, opening.quotient_y@, eval_minus_comm@]);
        assert(g2_views(g2s@) =~= seq![tau_x_minus_alpha@, tau_y_minus_beta@, g2_one@]);
        assert forall|tx: int, ty: int, c: int, ox: int, oy: int|
            #![trigger g2_generator_mul_of(tx), g2_generator_mul_of(ty), g1_generator_mul_of(c), g1_generator_mul_of(ox), g1_generator_mul_of(oy)]
            is_scalar(tx) && is_scalar(ty) && is_scalar(c) && is_scalar(ox) && is_scalar(oy) && vk.tau_x_g2@
                == g2_generator_mul_of(tx) && vk.tau_y_g2@ == g2_generator_mul_of(ty) && comm@ == g1_generator_mul_of(c)
                && opening.quotient_x@ == g1_generator_mul_of(ox) && opening.quotient_y@ == g1_generator_mul_of(oy)
                implies (r <==> bi_kzg_equation(ox, oy, tx, ty, alpha.value(), beta.value(), eval.value(), c)) by {
            let m = fr_modulus();
            let ev = eval.value();
            assert(g1_generator_mul_of(ev) == g1_eval@);
            assert(g2_generator_mul_of(alpha.value()) == g2_alpha@);
            assert(g2_generator_mul_of(beta.value()) == g2_beta@);
            let d1 = (ev - c) % m;
            let dx = (tx - alpha.value()) % m;
            let dy = (ty - beta.value()) % m;
            assert(eval_minus_comm@ == g1_generator_mul_of(d1));
            assert(tau_x_minus_alpha@ == g2_generator_mul_of(dx));
            assert(tau_y_minus_beta@ == g2_generator_mul_of(dy));
            let a = seq![ox, oy, d1];
            let b = seq![dx, dy, 1int];
            assert(g1_multiples(g1_views(g1s@), a));
            assert(g2_multiples(g2_views(g2s@), b));
            assert(r <==> pairing_exponent(a, b) == 0);
            lemma_three_term_exponent(ox, oy, d1, dx, dy, tx, ty, alpha.value(), beta.value(), ev, c);
        }
    }
    r
}

/// The exponent of the three pairings of the bivariate check is zero exactly
/// when the bivariate KZG equation holds.
proof fn lemma_three_term_exponent(
    ox: int,
    oy: int,
    d1: int,
    dx: int,
    dy: int,
    tx: int,
    ty: int,
    av: int,
    bv: int,
    ev: int,
    c: int,
)
    requires
        d1 == (ev - c) % fr_modulus(),
        dx == (tx - av) % fr_modulus(),
        dy == (ty - bv) % fr_modulus(),
    ensures
        (pairing_exponent(seq![ox, oy, d1], seq![dx, dy, 1int]) == 0) <==> bi_kzg_equation(ox, oy, tx, ty, av, bv, ev, c),
{
    let m = fr_modulus();
    let a = seq![ox, oy, d1];
    let b = seq![dx, dy, 1int];
    assert(a[0] == ox && a[1] == oy && a[2] == d1 && b[0] == dx && b[1] == dy && b[2] == 1);
    assert(dot_prefix(a, b, 0) == 0);
    assert(dot_prefix(a, b, 1) == ox * dx);
    assert(dot_prefix(a, b, 2) == ox * dx + oy * dy);
    assert(a[2] * b[2] == d1);
    assert(dot_prefix(a, b, 3) == ox * dx + oy * dy + d1);
    vstd::arithmetic::div_mod::lemma_mod_twice(tx - av, m);
    vstd::arithmetic::div_mod::lemma_mod_twice(ty - bv, m);
    vstd::arithmetic::div_mod::lemma_mod_twice(ev - c, m);
    crate::field::lemma_congruent_mul(ox, ox, dx, tx - av, m);
    crate::field::lemma_congruent_mul(oy, oy, dy, ty - bv, m);
    crate::field::lemma_congruent_add(ox * dx, ox * (tx - av), oy * dy, oy * (ty - bv), m);
    crate::field::lemma_congruent_add(ox * dx + oy * dy, ox * (tx - av) + oy * (ty - bv), d1, ev - c, m);
}

/// A multiple of a unit that is a multiple of `m` has a factor that is.
proof fn lemma_unit_zero(u: int, x: int, m: int)
    requires
        m > 1,
        is_unit(u, m),
        (u * x) % m == 0,
    ensures
        x % m == 0,
{
    assert(u * 0 == 0);
    assert(0int % m == 0);
    crate::hyper_kzg::lemma_unit_cancel(u, x, 0, m);
}

/// A multiple of a multiple of `m` is a multiple of `m`.
proof fn lemma_multiple_scaled(x: int, k: int, m: int)
    requires
        m > 0,
        x % m == 0,
    ensures
        (x * k) % m == 0,
        (k * x) % m == 0,
{
    vstd::arithmetic::div_mod::lemma_mul_mod_noop_left(x, k, m);
    assert(0 * k == 0);
    assert(0int % m == 0);
    assert(k * x == x * k) by (nonlinear_arith);
}

/// A factor of a unit is a unit.
proof fn lemma_unit_factor(a: int, b: int, m: int)
    requires
        is_unit(a * b, m),
    ensures
        is_unit(a, m),
{
    let y = choose|y: int| #[trigger] ((a * b * y) % m) == 1;
    assert(a * (b * y) == a * b * y) by (nonlinear_arith);
    assert(((a * (b * y)) % m) == 1);
}

/// The difference of a quadratic at `x` and at `y` is `x - y` times
/// `d1 + (x + y) d2`.
proof fn lemma_quadratic_difference(d0: int, d1: int, d2: int, x: int, y: int)
    ensures
        (d0 + x * d1 + x * x * d2) - (d0 + y * d1 + y * y * d2) == (x - y) * (d1 + (x + y) * d2),
{
    assert((x - y) * (d1 + (x + y) * d2) == (x - y) * d1 + (x - y) * ((x + y) * d2)) by (nonlinear_arith);
    assert((x - y) * ((x + y) * d2) == ((x - y) * (x + y)) * d2) by (nonlinear_arith);
    assert((x - y) * (x + y) == x * x - y * y) by (nonlinear_arith);
    assert((x * x - y * y) * d2 == x * x * d2 - y * y * d2) by (nonlinear_arith);
    assert((x - y) * d1 == x * d1 - y * d1) by (nonlinear_arith);
}

/// Two quadratics that agree modulo `m` at three points whose differences are
/// units agree modulo `m` everywhere.
pub proof fn lemma_quadratic_unique(l1: Seq<int>, l2: Seq<int>, x0: int, x1: int, x2: int, t: int, m: int)
    requires
        m > 1,
        l1.len() == 3,
        l2.len() == 3,
        is_unit(x0 - x1, m),
        is_unit(x0 - x2, m),
        is_unit(x1 - x2, m),
        poly_eval(l1, x0) % m == poly_eval(l2, x0) % m,
        poly_eval(l1, x1) % m == poly_eval(l2, x1) % m,
        poly_eval(l1, x2) % m == poly_eval(l2, x2) % m,
    ensures
        poly_eval(l1, t) % m == poly_eval(l2, t) % m,
{
    lemma_poly_eval_quadratic(l1, x0);
    lemma_poly_eval_quadratic(l1, x1);
    lemma_poly_eval_quadratic(l1, x2);
    lemma_poly_eval_quadratic(l1, t);
    lemma_poly_eval_quadratic(l2, x0);
    lemma_poly_eval_quadratic(l2, x1);
    lemma_poly_eval_quadratic(l2, x2);
    lemma_poly_eval_quadratic(l2, t);
    let d0 = l1[0] - l2[0];
    let d1 = l1[1] - l2[1];
    let d2 = l1[2] - l2[2];
    let e0 = d0 + x0 * d1 + x0 * x0 * d2;
    let e1 = d0 + x1 * d1 + x1 * x1 * d2;
    let e2 = d0 + x2 * d1 + x2 * x2 * d2;
    assert(e0 == poly_eval(l1, x0) - poly_eval(l2, x0)) by (nonlinear_arith)
        requires
            poly_eval(l1, x0) == l1[0] + x0 * l1[1] + x0 * x0 * l1[2],
            poly_eval(l2, x0) == l2[0] + x0 * l2[1] + x0 * x0 * l2[2],
            e0 == d0 + x0 * d1 + x0 * x0 * d2,
            d0 == l1[0] - l2[0],
            d1 == l1[1] - l2[1],
            d2 == l1[2] - l2[2],
    ;
    assert(e1 == poly_eval(l1, x1) - poly_eval(l2, x1)) by (nonlinear_arith)
        requires
            poly_eval(l1, x1) == l1[0] + x1 * l1[1] + x1 * x1 * l1[2],
            poly_eval(l2, x1) == l2[0] + x1 * l2[1] + x1 * x1 * l2[2],
            e1 == d0 + x1 * d1 + x1 * x1 * d2,
            d0 == l1[0] - l2[0],
            d1 == l1[1] - l2[1],
            d2 == l1[2] - l2[2],
    ;
    assert(e2 == poly_eval(l1, x2) - poly_eval(l2, x2)) by (nonlinear_arith)
        requires
            poly_eval(l1, x2) == l1[0] + x2 * l1[1] + x2 * x2 * l1[2],
            poly_eval(l2, x2) == l2[0] + x2 * l2[1] + x2 * x2 * l2[2],
            e2 == d0 + x2 * d1 + x2 * x2 * d2,
            d0 == l1[0] - l2[0],
            d1 == l1[1] - l2[1],
            d2 == l1[2] - l2[2],
    ;
    lemma_congruent_diff(poly_eval(l1, x0), poly_eval(l2, x0), m);
    lemma_congruent_diff(poly_eval(l1, x1), poly_eval(l2, x1), m);
    lemma_congruent_diff(poly_eval(l1, x2), poly_eval(l2, x2), m);
    let a = d1 + (x0 + x1) * d2;
    let b = d1 + (x0 + x2) * d2;
    lemma_quadratic_difference(d0, d1, d2, x0, x1);
    lemma_quadratic_difference(d0, d1, d2, x0, x2);
    lemma_congruent_diff(e0, e1, m);
    lemma_congruent_diff(e0, e2, m);
    assert(e0 % m == 0 && e1 % m == 0 && e2 % m == 0);
    vstd::arithmetic::div_mod::lemma_sub_mod_noop(e0, e1, m);
    vstd::arithmetic::div_mod::lemma_sub_mod_noop(e0, e2, m);
    assert(0int % m == 0);
    lemma_unit_zero(x0 - x1, a, m);
    lemma_unit_zero(x0 - x2, b, m);
    assert(a - b == (x1 - x2) * d2) by (nonlinear_arith)
        requires
            a == d1 + (x0 + x1) * d2,
            b == d1 + (x0 + x2) * d2,
    ;
    vstd::arithmetic::div_mod::lemma_sub_mod_noop(a, b, m);
    lemma_unit_zero(x1 - x2, d2, m);
    lemma_multiple_scaled(d2, x0 + x1, m);
    assert(d1 == a - (x0 + x1) * d2);
    vstd::arithmetic::div_mod::lemma_sub_mod_noop(a, (x0 + x1) * d2, m);
    lemma_multiple_scaled(d1, x0, m);
    lemma_multiple_scaled(d2, x0 * x0, m);
    assert(x0 * x0 * d2 == d2 * (x0 * x0)) by (nonlinear_arith);
    assert(x0 * d1 == d1 * x0) by (nonlinear_arith);
    assert(d0 == e0 - (x0 * d1 + x0 * x0 * d2));
    lemma_multiple_sum(x0 * d1, x0 * x0 * d2, m);
    vstd::arithmetic::div_mod::lemma_sub_mod_noop(e0, x0 * d1 + x0 * x0 * d2, m);
    lemma_multiple_scaled(d1, t, m);
    lemma_multiple_scaled(d2, t * t, m);
    assert(t * t * d2 == d2 * (t * t)) by (nonlinear_arith);
    assert(t * d1 == d1 * t) by (nonlinear_arith);
    lemma_multiple_sum(t * d1, t * t * d2, m);
    lemma_multiple_sum(d0, t * d1 + t * t * d2, m);
    assert(poly_eval(l1, t) - poly_eval(l2, t) == d0 + (t * d1 + t * t * d2)) by (nonlinear_arith)
        requires
            poly_eval(l1, t) == l1[0] + t * l1[1] + t * t * l1[2],
            poly_eval(l2, t) == l2[0] + t * l2[1] + t * t * l2[2],
            d0 == l1[0] - l2[0],
            d1 == l1[1] - l2[1],
            d2 == l1[2] - l2[2],
    ;
    vstd::arithmetic::div_mod::lemma_add_mod_noop(poly_eval(l2, t), poly_eval(l1, t) - poly_eval(l2, t), m);
    assert(poly_eval(l2, t) + (poly_eval(l1, t) - poly_eval(l2, t)) == poly_eval(l1, t));
    vstd::arithmetic::div_mod::lemma_mod_twice(poly_eval(l2, t), m);
}

/// A quadratic through three points whose abscissae differ by units takes at
/// `t` the value `quadratic_at` gives there.
pub proof fn lemma_interpolant_at(c: Seq<int>, x0: int, x1: int, x2: int, y0: int, y1: int, y2: int, t: int)
    requires
        interpolates(c, x0, x1, x2, y0, y1, y2),
        is_unit((x0 - x1) * (x0 - x2), fr_modulus()),
        is_unit((x1 - x0) * (x1 - x2), fr_modulus()),
    ensures
        poly_eval(c, t) % fr_modulus() == quadratic_at(x0, x1, x2, y0, y1, y2, t),
{
    let m = fr_modulus();
    Fr::lemma_modulus();
    let l = choose|l: Seq<int>| interpolates(l, x0, x1, x2, y0, y1, y2);
    lemma_unit_factor(x0 - x1, x0 - x2, m);
    assert((x0 - x1) * (x0 - x2) == (x0 - x2) * (x0 - x1)) by (nonlinear_arith);
    lemma_unit_factor(x0 - x2, x0 - x1, m);
    assert((x1 - x0) * (x1 - x2) == (x1 - x2) * (x1 - x0)) by (nonlinear_arith);
    lemma_unit_factor(x1 - x2, x1 - x0, m);
    lemma_quadratic_unique(c, l, x0, x1, x2, t, m);
}

/// Raising a quadratic's constant coefficient by `y` (modulo `m`) raises its
/// values by `y`, modulo `m`.
pub proof fn lemma_shifted_quadratic(c: Seq<int>, c2: Seq<int>, y: int, t: int, m: int)
    requires
        m > 0,
        c.len() == 3,
        c2.len() == 3,
        c2[0] == (c[0] + y) % m,
        c2[1] == c[1],
        c2[2] == c[2],
    ensures
        poly_eval(c2, t) % m == (poly_eval(c, t) + y) % m,
{
    lemma_poly_eval_quadratic(c, t);
    lemma_poly_eval_quadratic(c2, t);
    let rest = t * c[1] + t * t * c[2];
    assert(poly_eval(c2, t) == (c[0] + y) % m + rest);
    assert(poly_eval(c, t) + y == (c[0] + y) + rest);
    vstd::arithmetic::div_mod::lemma_add_mod_noop(c[0] + y, rest, m);
    vstd::arithmetic::div_mod::lemma_add_mod_noop((c[0] + y) % m, rest, m);
    vstd::arithmetic::div_mod::lemma_mod_twice(c[0] + y, m);
}

/// A quadratic's value: `l0 + t l1 + t^2 l2`.
proof fn lemma_poly_eval_quadratic(l: Seq<int>, t: int)
    requires
        l.len() == 3,
    ensures
        poly_eval(l, t) == l[0] + t * l[1] + t * t * l[2],
{
    let a = l.drop_first();
    let b = a.drop_first();
    let c = b.drop_first();
    assert(c.len() == 0);
    assert(poly_eval(c, t) == 0);
    assert(poly_eval(b, t) == l[2]);
    assert(poly_eval(a, t) == l[1] + t * l[2]);
    assert(t * (l[1] + t * l[2]) == t * l[1] + t * t * l[2]) by (nonlinear_arith);
}

/// Two congruent integers differ by a multiple of `m`.
proof fn lemma_congruent_diff(a: int, b: int, m: int)
    requires
        m > 0,
        a % m == b % m,
    ensures
        (a - b) % m == 0,
{
    vstd::arithmetic::div_mod::lemma_sub_mod_noop(a, b, m);
    assert(0int % m == 0);
}

/// A sum of two multiples of `m` is a multiple of `m`.
proof fn lemma_multiple_sum(a: int, b: int, m: int)
    requires
        m > 0,
        a % m == 0,
        b % m == 0,
    ensures
        (a + b) % m == 0,
{
    vstd::arithmetic::div_mod::lemma_add_mod_noop(a, b, m);
    assert(0int % m == 0);
}

/// The parties' openings in `X` add up: summed over the first `k` parties,
/// `o (tau_x - alpha)` is the sum of the scaled commitments less the sum of the
/// scaled values, modulo `m`.
#[verifier::spinoff_prover]
proof fn lemma_parties_sum(o: Seq<int>, ft: Seq<int>, e: Seq<int>, s: Seq<int>, w: Seq<int>, t: int, m: int, k: int)
    requires
        m > 0,
        0 <= k <= o.len(),
        o.len() == ft.len() && ft.len() == e.len() && e.len() == s.len() && s.len() == w.len(),
        forall|r: int| 0 <= r < o.len() ==> #[trigger] w[r] == (ft[r] * s[r]) % m,
        forall|r: int| 0 <= r < o.len() ==> (#[trigger] o[r] * t - (ft[r] - e[r]) * s[r]) % m == 0,
    ensures
        (scalar_sum(o.take(k)) * t - scalar_sum(w.take(k)) + dot_prefix(e, s, k)) % m == 0,
    decreases k,
{
    if k == 0 {
        assert(o.take(0) =~= Seq::<int>::empty());
        assert(w.take(0) =~= Seq::<int>::empty());
        assert(0int % m == 0);
    } else {
        lemma_parties_sum(o, ft, e, s, w, t, m, k - 1);
        let j = k - 1;
        assert(o.take(k).drop_last() =~= o.take(j));
        assert(w.take(k).drop_last() =~= w.take(j));
        let so = scalar_sum(o.take(j));
        let sw = scalar_sum(w.take(j));
        let d = dot_prefix(e, s, j);
        assert(scalar_sum(o.take(k)) == so + o[j]);
        assert(scalar_sum(w.take(k)) == sw + w[j]);
        assert((so + o[j]) * t == so * t + o[j] * t) by (nonlinear_arith);
        assert((ft[j] - e[j]) * s[j] == ft[j] * s[j] - e[j] * s[j]) by (nonlinear_arith);
        vstd::arithmetic::div_mod::lemma_mod_twice(ft[j] * s[j], m);
        lemma_congruent_diff(ft[j] * s[j], w[j], m);
        assert(dot_prefix(e, s, k) == d + e[j] * s[j]);
        let b = o[j] * t - w[j] + e[j] * s[j];
        assert(o[j] * t - (ft[j] - e[j]) * s[j] + (ft[j] * s[j] - w[j]) == b);
        lemma_multiple_sum(o[j] * t - (ft[j] - e[j]) * s[j], ft[j] * s[j] - w[j], m);
        assert(b % m == 0);
        lemma_multiple_sum(so * t - sw + d, b, m);
        assert(scalar_sum(o.take(k)) * t - scalar_sum(w.take(k)) + dot_prefix(e, s, k) == (so * t - sw + d) + b);
    }
}

/// Completeness of bivariate KZG: party `r` holds a polynomial whose value at
/// `tau_x` is `ft[r]` and at `alpha` is `e[r]`; its commitment with its
/// reference string is the generator times `ft[r] tau_y^r`, and its opening at
/// `alpha` has the exponent `o[r]` that `coeff_form_uni_kzg_open_eval`
/// describes. With the sum `c` of the commitments, the leader's evaluation
/// `eval` at `beta` and quotients `ox` (the sum of the openings) and `oy` as
/// `coeff_form_bi_kzg_open_leader` describes them, the bivariate KZG
/// equation holds, so that `coeff_form_bi_kzg_verify` accepts.
pub proof fn lemma_bi_kzg_complete(
    tx: int,
    ty: int,
    alpha: int,
    beta: int,
    ft: Seq<int>,
    e: Seq<int>,
    o: Seq<int>,
    c: int,
    eval: int,
    ox: int,
    oy: int,
)
    requires
        o.len() == ft.len(),
        ft.len() == e.len(),
        forall|r: int|
            0 <= r < o.len() ==> (#[trigger] o[r] * (tx - alpha) - (ft[r] - e[r]) * (pow(ty, r as nat) % fr_modulus()))
                % fr_modulus() == 0,
        c == scalar_sum(Seq::new(ft.len(), |r: int| (ft[r] * (pow(ty, r as nat) % fr_modulus())) % fr_modulus()))
            % fr_modulus(),
        ox == scalar_sum(o) % fr_modulus(),
        eval == poly_eval(e, beta) % fr_modulus(),
        (oy * (ty - beta) - (poly_eval(e, ty) - eval) * 1) % fr_modulus() == 0,
    ensures
        bi_kzg_equation(ox, oy, tx, ty, alpha, beta, eval, c),
{
    let m = fr_modulus();
    let n = o.len() as int;
    let t = tx - alpha;
    let u = ty - beta;
    let s = Seq::new(n as nat, |r: int| pow(ty, r as nat) % m);
    let w = Seq::new(n as nat, |r: int| (ft[r] * (pow(ty, r as nat) % m)) % m);
    assert forall|r: int| 0 <= r < o.len() implies (#[trigger] o[r] * t - (ft[r] - e[r]) * s[r]) % m == 0 by {}
    lemma_parties_sum(o, ft, e, s, w, t, m, n);
    assert(o.take(n) =~= o);
    assert(w.take(n) =~= w);
    let so = scalar_sum(o);
    let sw = scalar_sum(w);
    let d = dot_prefix(e, s, n);
    let p = poly_eval(e, ty);
    crate::univariate::lemma_evaluate_with_powers(e, s, ty, m);
    vstd::arithmetic::div_mod::lemma_mod_twice(so, m);
    lemma_congruent_diff(ox, so, m);
    vstd::arithmetic::div_mod::lemma_mul_mod_noop_left(ox - so, t, m);
    assert(0int * t == 0);
    assert(0int % m == 0);
    assert((ox - so) * t == ox * t - so * t) by (nonlinear_arith);
    vstd::arithmetic::div_mod::lemma_mod_twice(sw, m);
    lemma_congruent_diff(sw, c, m);
    lemma_congruent_diff(p, d, m);
    lemma_multiple_sum(ox * t - so * t, oy * u - (p - eval) * 1, m);
    lemma_multiple_sum(ox * t - so * t + (oy * u - (p - eval) * 1), so * t - sw + d, m);
    lemma_multiple_sum(ox * t - so * t + (oy * u - (p - eval) * 1) + (so * t - sw + d), sw - c, m);
    lemma_multiple_sum(ox * t - so * t + (oy * u - (p - eval) * 1) + (so * t - sw + d) + (sw - c), p - d, m);
}

/// Pairing checks put aside to be checked at once: the product of the
/// pairings of the accumulated pairs must be the identity.
#[derive(Debug)]
pub struct PairingAccumulator {
    pub g1s: Vec<G1Point>,
    pub g2s: Vec<G2Point>,
}

impl PairingAccumulator {
    /// How many pairs the check takes: as many as both lists hold.
    pub open spec fn paired_len(&self) -> int {
        if self.g1s@.len() < self.g2s@.len() {
            self.g1s@.len() as int
        } else {
            self.g2s@.len() as int
        }
    }

    /// No checks put aside.
    pub fn new() -> (r: Self)
        ensures
            r.g1s@.len() == 0,
            r.g2s@.len() == 0,
    {
        PairingAccumulator { g1s: Vec::new(), g2s: Vec::new() }
    }

    /// Puts the pair `(g1, g2)` aside.
    pub fn accumulate(&mut self, accumulated_values: &(G1Point, G2Point))
        ensures
            final(self).g1s@ == old(self).g1s@.push(accumulated_values.0),
            final(self).g2s@ == old(self).g2s@.push(accumulated_values.1),
    {
        self.g1s.push(accumulated_values.0);
        self.g2s.push(accumulated_values.1);
    }

    /// Checks the pairs put aside (as many as both lists hold): passes when
    /// either list is empty.
    pub fn final_check(&self) -> (r: bool)
        ensures
            self.g1s@.len() == 0 || self.g2s@.len() == 0 ==> r,
            self.g1s@.len() > 0 && self.g2s@.len() > 0 ==> r == pairing_check_of(
                g1_views(self.g1s@.take(self.paired_len())),
                g2_views(self.g2s@.take(self.paired_len())),
            ),
            self.g1s@.len() > 0 && self.g2s@.len() > 0 ==> forall|a: Seq<int>, b: Seq<int>|
                #![trigger pairing_exponent(a, b)]
                g1_multiples(g1_views(self.g1s@.take(self.paired_len())), a) && g2_multiples(
                    g2_views(self.g2s@.take(self.paired_len())),
                    b,
                ) ==> (r <==> pairing_exponent(a, b) == 0),
    {
        if self.g1s.len() == 0 || self.g2s.len() == 0 {
            return true;
        }
        let n = if self.g1s.len() < self.g2s.len() { self.g1s.len() } else { self.g2s.len() };
        let mut g1s: Vec<G1Point> = Vec::new();
        let mut g2s: Vec<G2Point> = Vec::new();
        let mut i: usize = 0;
        while i < n
            invariant
                i <= n,
                n <= self.g1s@.len(),
                n <= self.g2s@.len(),
                n == self.paired_len(),
                g1s@ == self.g1s@.take(i as int),
                g2s@ == self.g2s@.take(i as int),
            decreases n - i,
        {
            g1s.push(self.g1s[i]);
            g2s.push(self.g2s[i]);
            i = i + 1;
        }
        pairing_product_is_identity(g1s.as_slice(), g2s.as_slice())
    }
}


/// The tables of a list of multilinear polynomials.
pub open spec fn poly_tables(polys: Seq<MultiLinearPoly<Fr>>) -> Seq<Seq<int>> {
    Seq::new(polys.len(), |i: int| values(polys[i].coeffs@))
}

/// The random linear combination that a batch opening opens: the tables `ts`
/// combined with the powers of `rho`, reduced modulo r.
pub open spec fn batch_merged(ts: Seq<Seq<int>>, rho: int) -> Seq<int> {
    let ws = Seq::new(ts.len(), |i: int| pow(rho, i as nat) % fr_modulus());
    Seq::new(ts[0].len(), |t: int| merged_table(ts, ws, ts.len() as nat)[t] % fr_modulus())
}

/// Opens several multilinear polynomials at the same point `x` with one
/// HyperKZG opening of their random linear combination, the randomness drawn
/// from the transcript first. Returns each polynomial's evaluation and the
/// opening; nothing when the HyperKZG opening draws a degenerate challenge.
pub fn kzg_single_point_batch_open<T: HyperKZGTranscript>(
    proving_key: &CoefFormUniKZGSRS,
    polys: &[MultiLinearPoly<Fr>],
    x: &[Fr],
    transcript: &mut T,
) -> (r: Option<(Vec<Fr>, HyperKZGOpening)>)
    requires
        polys@.len() >= 1,
        x@.len() >= 1,
        forall|i: int| 0 <= i < polys@.len() ==> (#[trigger] polys@[i]).coeffs@.len() == pow2(x@.len() as nat),
        proving_key.powers_of_tau@.len() >= pow2(x@.len() as nat),
    ensures
        r matches Some(o) ==> o.0@.len() == polys@.len() && forall|i: int|
            0 <= i < polys@.len() ==> (#[trigger] o.0@[i]).value() == mle_eval(values(polys@[i].coeffs@), values(x@))
                % Fr::modulus(),
        r is Some <==> hyperkzg_beta_ok(
            hyperkzg_transcript_beta::<T>(
                old(transcript).absorbed().push(TranscriptEntry::Challenge),
                hyperkzg_fold_commitments(
                    g1_views(proving_key.powers_of_tau@),
                    batch_merged(poly_tables(polys@), T::challenge_after(old(transcript).absorbed())),
                    values(x@),
                ),
            ),
            Fr::modulus(),
        ),
        r matches Some(o) ==> hyperkzg_quotient_commitments(
            g1_views(proving_key.powers_of_tau@),
            batch_merged(poly_tables(polys@), T::challenge_after(old(transcript).absorbed())),
            values(x@),
            o.1.evals_at_x,
            hyperkzg_transcript_beta::<T>(
                old(transcript).absorbed().push(TranscriptEntry::Challenge),
                g1_views(o.1.folded_oracle_commitments@),
            ),
            T::challenge_after(
                hyperkzg_gamma_history(
                    old(transcript).absorbed().push(TranscriptEntry::Challenge),
                    g1_views(o.1.folded_oracle_commitments@),
                    o.1.evals_at_x,
                ),
            ),
            T::challenge_after(
                hyperkzg_tau_history(
                    old(transcript).absorbed().push(TranscriptEntry::Challenge),
                    g1_views(o.1.folded_oracle_commitments@),
                    o.1.evals_at_x,
                    o.1.beta_x_commitment@,
                ),
            ),
            o.1.beta_x_commitment@,
            o.1.quotient_delta_x_commitment@,
        ),
        r matches Some(o) ==> g1_views(o.1.folded_oracle_commitments@) == hyperkzg_fold_commitments(
            g1_views(proving_key.powers_of_tau@),
            batch_merged(poly_tables(polys@), T::challenge_after(old(transcript).absorbed())),
            values(x@),
        ),
        r matches Some(o) ==> rebuilt_evals_end_in::<Fr>(
            o.1.evals_at_x.beta_x2_eval.value(),
            values(o.1.evals_at_x.pos_beta_x_evals@),
            values(o.1.evals_at_x.neg_beta_x_evals@),
            values(x@),
            hyperkzg_transcript_beta::<T>(
                old(transcript).absorbed().push(TranscriptEntry::Challenge),
                g1_views(o.1.folded_oracle_commitments@),
            ),
            mle_eval(batch_merged(poly_tables(polys@), T::challenge_after(old(transcript).absorbed())), values(x@))
                % Fr::modulus(),
        ),
{
    let ghost m = Fr::modulus();
    let ghost ts = poly_tables(polys@);
    let ghost xv = values(x@);
    let rlc_randomness = transcript.generate_challenge_field_element();
    let num_poly = polys.len();
    let rlcs = powers_series(&rlc_randomness, num_poly);
    let n = polys[0].coeffs.len();
    let mut merged: Vec<Fr> = Vec::new();
    let mut j: usize = 0;
    while j < n
        invariant
            j <= n,
            polys@.len() >= 1,
            n == polys@[0].coeffs@.len(),
            merged@ == polys@[0].coeffs@.subrange(0, j as int),
        decreases n - j,
    {
        merged.push(polys[0].coeffs[j]);
        j = j + 1;
    }
    proof {
        Fr::lemma_modulus();
        assert(merged@ == polys@[0].coeffs@);
        assert(ts[0] == values(polys@[0].coeffs@));
        assert forall|t: int| 0 <= t < n implies #[trigger] (values(merged@)[t] % m) == merged_table(ts, values(rlcs@), 1)[t] % m by {
        }
    }
    let mut i: usize = 1;
    while i < num_poly
        invariant
            1 <= i <= num_poly,
            num_poly == polys@.len(),
            rlcs@.len() == num_poly,
            n == pow2(xv.len() as nat),
            xv == values(x@),
            ts == poly_tables(polys@),
            m == Fr::modulus(),
            m > 1,
            forall|k: int| 0 <= k < polys@.len() ==> (#[trigger] polys@[k]).coeffs@.len() == n,
            merged@.len() == n,
            forall|t: int| 0 <= t < n ==> #[trigger] (values(merged@)[t] % m) == merged_table(ts, values(rlcs@), i as nat)[t] % m,
        decreases num_poly - i,
    {
        let ghost before = merged@;
        polynomial_add(&mut merged, rlcs[i], polys[i].coeffs.as_slice());
        proof {
            let ws = values(rlcs@);
            lemma_merged_mle(ts, ws, i as nat, xv);
            assert(ts[i as int] == values(polys@[i as int].coeffs@));
            assert forall|t: int| 0 <= t < n implies #[trigger] (values(merged@)[t] % m) == merged_table(
                ts,
                ws,
                (i + 1) as nat,
            )[t] % m by {
                let prev = merged_table(ts, ws, i as nat);
                let cur = merged_table(ts, ws, (i + 1) as nat);
                assert(cur == lin(ts[i as int], prev, ws[i as int]));
                assert(values(before)[t] % m == prev[t] % m);
                vstd::arithmetic::div_mod::lemma_mod_twice(before[t].value() + rlcs@[i as int].value() * polys@[i as int].coeffs@[t].value(), m);
                crate::field::lemma_congruent_add(before[t].value(), prev[t], rlcs@[i as int].value() * polys@[i as int].coeffs@[t].value(), ws[i as int] * ts[i as int][t], m);
            }
        }
        i = i + 1;
    }
    let mut evals: Vec<Fr> = Vec::new();
    let mut buf: Vec<Fr> = Vec::new();
    let mut t: usize = 0;
    while t < n
        invariant
            t <= n,
            buf@.len() == t,
        decreases n - t,
    {
        buf.push(Fr::zero());
        t = t + 1;
    }
    let mut k: usize = 0;
    while k < num_poly
        invariant
            k <= num_poly,
            num_poly == polys@.len(),
            n == pow2(xv.len() as nat),
            xv == values(x@),
            buf@.len() == n,
            forall|q: int| 0 <= q < polys@.len() ==> (#[trigger] polys@[q]).coeffs@.len() == n,
            evals@.len() == k,
            forall|q: int| 0 <= q < k ==> (#[trigger] evals@[q]).value() == mle_eval(values(polys@[q].coeffs@), xv) % Fr::modulus(),
        decreases num_poly - k,
    {
        let e = MultiLinearPoly::evaluate_with_buffer(polys[k].coeffs.as_slice(), x, buf.as_mut_slice());
        evals.push(e);
        k = k + 1;
    }
    proof {
        vstd::arithmetic::power2::lemma_pow2_pos(xv.len() as nat);
        let rho = rlc_randomness.value();
        let ws = Seq::new(ts.len(), |q: int| pow(rho, q as nat) % m);
        assert(values(rlcs@) =~= ws);
        assert forall|t: int| 0 <= t < n implies #[trigger] values(merged@)[t] == merged_table(ts, ws, ts.len() as nat)[t] % m by {
            Fr::lemma_value_range(merged@[t]);
            crate::field::lemma_reduced(merged@[t].value(), m);
        }
        assert(ts[0] == values(polys@[0].coeffs@));
        assert(values(merged@) =~= batch_merged(ts, rho));
    }
    match coeff_form_uni_hyperkzg_open(proving_key, &merged, x, transcript) {
        None => None,
        Some((batch_eval, open)) => {
            proof {
                // the merged evaluation is the combination of the evaluations
                let ws = values(rlcs@);
                lemma_merged_mle(ts, ws, num_poly as nat, xv);
                crate::multilinear::lemma_mle_congruent(values(merged@), merged_table(ts, ws, num_poly as nat), xv, m);
                assert(batch_eval.value() % m == weighted_sum(Seq::new(ts.len(), |q: int| mle_eval(ts[q], xv)), ws, num_poly as nat) % m) by {
                    vstd::arithmetic::div_mod::lemma_mod_twice(mle_eval(values(merged@), xv), m);
                }
            }
            Some((evals, open))
        },
    }
}

/// Verifies a batch opening at one point: the commitments and the claimed
/// evaluations are combined with the powers of the randomness `rho` drawn
/// from the transcript first, and the combination is checked with HyperKZG.
/// Acceptance means that the HyperKZG checks passed for the combined
/// commitment and the combined evaluation `evals[0] + rho evals[1] + rho^2
/// evals[2] + ...` (one term per commitment, as far as `evals` goes), with
/// the challenges the transcript gives after `rho`; for multiples of the
/// generators, the combined commitment is the multiple by the combination of
/// their exponents.
pub fn kzg_single_point_batch_verify<T: HyperKZGTranscript>(
    verifying_key: &UniKZGVerifierParams,
    commitments: &[G1Point],
    x: &[Fr],
    evals: &[Fr],
    opening: &HyperKZGOpening,
    transcript: &mut T,
) -> (r: bool)
    requires
        commitments@.len() >= 1,
        x@.len() >= 1,
    ensures
        r ==> hyperkzg_beta_ok(
            hyperkzg_transcript_beta::<T>(
                old(transcript).absorbed().push(TranscriptEntry::Challenge),
                g1_views(opening.folded_oracle_commitments@),
            ),
            Fr::modulus(),
        ) && reported_final_eval(
            opening.evals_at_x,
            values(x@),
            hyperkzg_transcript_beta::<T>(
                old(transcript).absorbed().push(TranscriptEntry::Challenge),
                g1_views(opening.folded_oracle_commitments@),
            ),
            eval_prefix(values(evals@), T::challenge_after(old(transcript).absorbed()), commitments@.len() as int)
                % Fr::modulus(),
        ),
        r == hyperkzg_verdict::<T>(
            old(transcript).absorbed().push(TranscriptEntry::Challenge),
            verifying_key.tau_g2@,
            g1_msm_of(
                Seq::new(commitments@.len(), |i: int| pow(T::challenge_after(old(transcript).absorbed()), i as nat) % fr_modulus()),
                g1_views(commitments@),
            ),
            values(x@),
            eval_prefix(values(evals@), T::challenge_after(old(transcript).absorbed()), commitments@.len() as int)
                % Fr::modulus(),
            g1_views(opening.folded_oracle_commitments@),
            opening.evals_at_x,
            opening.beta_x_commitment@,
            opening.quotient_delta_x_commitment@,
        ),
        forall|s: int, cs: Seq<int>, f: Seq<int>, q: int, w: int|
            #![trigger g2_generator_mul_of(s), g1_multiples(g1_views(commitments@), cs), g1_multiples(g1_views(opening.folded_oracle_commitments@), f), g1_generator_mul_of(q), g1_generator_mul_of(w)]
            is_scalar(s) && is_scalar(q) && is_scalar(w) && verifying_key.tau_g2@ == g2_generator_mul_of(s)
                && g1_multiples(g1_views(commitments@), cs) && g1_multiples(g1_views(opening.folded_oracle_commitments@), f)
                && opening.beta_x_commitment@ == g1_generator_mul_of(q) && opening.quotient_delta_x_commitment@
                == g1_generator_mul_of(w) ==> (r <==> hyperkzg_verdict_exponents::<T>(
                old(transcript).absorbed().push(TranscriptEntry::Challenge),
                s,
                msm_exponent(
                    Seq::new(commitments@.len(), |i: int| pow(T::challenge_after(old(transcript).absorbed()), i as nat) % fr_modulus()),
                    cs,
                ),
                values(x@),
                eval_prefix(values(evals@), T::challenge_after(old(transcript).absorbed()), commitments@.len() as int)
                    % Fr::modulus(),
                g1_views(opening.folded_oracle_commitments@),
                f,
                opening.evals_at_x,
                opening.beta_x_commitment@,
                q,
                w,
            )),
{
    let ghost m = Fr::modulus();
    let rlc_randomness = transcript.generate_challenge_field_element();
    let num_poly = commitments.len();
    let rlcs = powers_series(&rlc_randomness, num_poly);
    let merged_commitment = g1_msm(rlcs.as_slice(), commitments);
    let mut merged_eval = Fr::zero();
    let n = if evals.len() < rlcs.len() { evals.len() } else { rlcs.len() };
    let ghost ev = values(evals@);
    let ghost ws = values(rlcs@);
    proof {
        Fr::lemma_modulus();
        crate::field::lemma_reduced(0, m);
    }
    let mut i: usize = 0;
    while i < n
        invariant
            i <= n,
            n <= evals@.len(),
            n <= rlcs@.len(),
            m == Fr::modulus(),
            m > 1,
            ev == values(evals@),
            ws == values(rlcs@),
            merged_eval.value() == crate::univariate::dot_prefix(ev, ws, i as int) % m,
        decreases n - i,
    {
        let term = evals[i].times(&rlcs[i]);
        let next = merged_eval.plus(&term);
        proof {
            let d = crate::univariate::dot_prefix(ev, ws, i as int);
            vstd::arithmetic::div_mod::lemma_mod_twice(d, m);
            vstd::arithmetic::div_mod::lemma_mod_twice(ev[i as int] * ws[i as int], m);
            crate::field::lemma_congruent_add(merged_eval.value(), d, term.value(), ev[i as int] * ws[i as int], m);
        }
        merged_eval = next;
        i = i + 1;
    }
    let ghost rho = rlc_randomness.value();
    proof {
        lemma_eval_by_powers(ev, ws, rho, num_poly as int, m);
        vstd::arithmetic::div_mod::lemma_mod_twice(crate::univariate::dot_prefix(ev, ws, n as int), m);
        assert(merged_eval.value() == eval_prefix(ev, rho, num_poly as int) % m);
    }
    let vk = UniKZGVerifierParams { tau_g2: verifying_key.tau_g2 };
    proof {
        assert(values(rlcs@) =~= Seq::new(num_poly as nat, |i: int| pow(rho, i as nat) % fr_modulus()));
    }
    let r = coeff_form_uni_hyperkzg_verify(vk, merged_commitment, x, merged_eval, opening, transcript);
    proof {
        assert forall|s: int, cs: Seq<int>, f: Seq<int>, q: int, w: int|
            #![trigger g2_generator_mul_of(s), g1_multiples(g1_views(commitments@), cs), g1_multiples(g1_views(opening.folded_oracle_commitments@), f), g1_generator_mul_of(q), g1_generator_mul_of(w)]
            is_scalar(s) && is_scalar(q) && is_scalar(w) && verifying_key.tau_g2@ == g2_generator_mul_of(s)
                && g1_multiples(g1_views(commitments@), cs) && g1_multiples(g1_views(opening.folded_oracle_commitments@), f)
                && opening.beta_x_commitment@ == g1_generator_mul_of(q) && opening.quotient_delta_x_commitment@
                == g1_generator_mul_of(w) implies (r <==> hyperkzg_verdict_exponents::<T>(
                old(transcript).absorbed().push(TranscriptEntry::Challenge),
                s,
                msm_exponent(Seq::new(num_poly as nat, |i: int| pow(rho, i as nat) % fr_modulus()), cs),
                values(x@),
                eval_prefix(ev, rho, num_poly as int) % m,
                g1_views(opening.folded_oracle_commitments@),
                f,
                opening.evals_at_x,
                opening.beta_x_commitment@,
                q,
                w,
            )) by {
            let c = msm_exponent(values(rlcs@), cs);
            assert(merged_commitment@ == g1_generator_mul_of(c));
            assert(is_scalar(c));
            assert(vk.tau_g2@ == g2_generator_mul_of(s));
        }
    }
    r
}

} // verus!
