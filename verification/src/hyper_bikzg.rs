//! HyperBiKZG: HyperKZG for a multilinear polynomial whose coefficients are
//! shared among `2^k` parties, each holding the block of one value of the
//! `k` highest variables; the parties' openings are combined through
//! bivariate KZG.

use crate::field::{is_unit, values, Field};
use crate::fr::{fr_modulus, Fr};
use vstd::arithmetic::power::pow;
use crate::hyper_kzg::{
    coeff_form_hyperkzg_local_evals, evals_from_reported, exported_well_formed, fold_chain, hyperkzg_beta_ok,
    hyperkzg_folds_honest, hyperkzg_open_gamma_phase, lemma_beta_units, lemma_eval_by_powers, lemma_fold_chain_mle,
    coeff_form_hyperkzg_local_oracle_polys_aggregate, lemma_aggregate_len_honest, lemma_local_evals_complete,
    aggregated_at, beta2_consistent, exported_entry, lemma_consistent_combination, lemma_reported_evals_complete,
    local_evals_of, local_rounds, party_column, quotient_at_beta_points, rebuilt_evals_end_in, vec_values, HyperKZGAggregatedEvals,
    HyperKZGExportedLocalEvals, HyperKZGLocalEvals,
};
use crate::multilinear::{blocks_flat, fold_lowest, lemma_mle_blocks, lemma_mle_congruent, mle_eval};
use crate::kzg::{
    append_exported_evals, append_local_evals, coeff_form_bi_kzg_open_leader, coeff_form_uni_hyperkzg_open,
    coeff_form_uni_kzg_commit, coeff_form_bi_kzg_verify, coeff_form_uni_hyperkzg_verify, hyperkzg_beta_check, coeff_form_hyperkzg_local_poly_oracles, BiKZGProof,
    BiKZGVerifierParam, CoefFormBiKZGLocalSRS, HyperKZGOpening, HyperKZGTranscript, UniKZGVerifierParams, exported_evals_entries, hyperkzg_fold_commitments, hyperkzg_transcript_beta,
    hyperkzg_shifted_commitment, hyperkzg_tau_history, hyperkzg_verdict, TranscriptEntry, TranscriptHistory,
    append_commitments, commitment_entries, g1_aggregate, hyperkzg_quotient_weight, min_len, hyperkzg_quotient_commitments,
    hyperkzg_gamma_history, hyperkzg_verdict_exponents, g1_powers_of, rebuilt_evals, g1_sum, opening_views,
    evaluation_values, kzg_commitment_of, local_evals_entries, gamma_combination, quadratic_at, interpolates, lemma_interpolant_at,
    lemma_shifted_quadratic,
};
use vstd::arithmetic::power2::*;
use crate::univariate::{
    is_linear_division, coeff_form_degree2_lagrange, lemma_evaluate_with_powers, lemma_poly_eval_point_congruent, poly_eval,
    polynomial_add, powers_series, univariate_evaluate,
};
use crate::group::{
    g1_scalar_mul_of, g1_add, g1_generator_mul_of, g1_multiples, is_scalar, g1_identity, g1_scalar_mul, g1_sub, g1_sub_of, g1_views, g2_generator_mul_of, g2_sub_of,
    pairing_check_of, G1Point,
};
use vstd::prelude::*;

verus! {

/// A HyperBiKZG opening: the commitments to the folded oracles (in `X`,
/// summed over the parties, then the leader's in `Y`), the parties'
/// evaluations combined through their index, the leader's evaluations, the
/// commitments to the quotients at the `beta` points in `X` and in `Y`, and
/// the bivariate opening at `(delta_x, delta_y)`.
#[derive(Debug)]
pub struct HyperBiKZGOpening {
    pub folded_oracle_commitments: Vec<G1Point>,
    pub aggregated_evals: HyperKZGAggregatedEvals<Fr>,
    pub leader_evals: HyperKZGExportedLocalEvals<Fr>,
    pub beta_x_commitment: G1Point,
    pub beta_y_commitment: G1Point,
    pub quotient_delta_x_commitment: G1Point,
    pub quotient_delta_y_commitment: G1Point,
}

fn copy_commitments(cs: &Vec<G1Point>) -> (r: Vec<G1Point>)
    ensures
        r@ == cs@,
{
    let mut r: Vec<G1Point> = Vec::new();
    let mut i: usize = 0;
    while i < cs.len()
        invariant
            i <= cs@.len(),
            r@ == cs@.subrange(0, i as int),
        decreases cs@.len() - i,
    {
        r.push(cs[i]);
        i = i + 1;
    }
    r
}

fn copy_evals(v: &Vec<Fr>) -> (r: Vec<Fr>)
    ensures
        r@ == v@,
{
    let mut r: Vec<Fr> = Vec::new();
    let mut i: usize = 0;
    while i < v.len()
        invariant
            i <= v@.len(),
            r@ == v@.subrange(0, i as int),
        decreases v@.len() - i,
    {
        r.push(v[i]);
        i = i + 1;
    }
    r
}

fn copy_exported(e: &HyperKZGExportedLocalEvals<Fr>) -> (r: HyperKZGExportedLocalEvals<Fr>)
    ensures
        r.beta_x2_eval == e.beta_x2_eval,
        r.pos_beta_x_evals@ == e.pos_beta_x_evals@,
        r.neg_beta_x_evals@ == e.neg_beta_x_evals@,
{
    HyperKZGExportedLocalEvals {
        beta_x2_eval: e.beta_x2_eval,
        pos_beta_x_evals: copy_evals(&e.pos_beta_x_evals),
        neg_beta_x_evals: copy_evals(&e.neg_beta_x_evals),
    }
}

impl HyperBiKZGOpening {
    /// The HyperKZG opening within: the folded commitments, the leader's
    /// evaluations and the commitments in `X`.
    pub fn to_hyperkzg_opening(&self) -> (r: HyperKZGOpening)
        ensures
            r.folded_oracle_commitments@ == self.folded_oracle_commitments@,
            r.evals_at_x.beta_x2_eval == self.leader_evals.beta_x2_eval,
            r.evals_at_x.pos_beta_x_evals@ == self.leader_evals.pos_beta_x_evals@,
            r.evals_at_x.neg_beta_x_evals@ == self.leader_evals.neg_beta_x_evals@,
            r.beta_x_commitment == self.beta_x_commitment,
            r.quotient_delta_x_commitment == self.quotient_delta_x_commitment,
    {
        HyperKZGOpening {
            folded_oracle_commitments: copy_commitments(&self.folded_oracle_commitments),
            evals_at_x: copy_exported(&self.leader_evals),
            beta_x_commitment: self.beta_x_commitment,
            quotient_delta_x_commitment: self.quotient_delta_x_commitment,
        }
    }

    /// The HyperBiKZG opening of a single party: a HyperKZG opening, with no
    /// aggregated evaluations and the identity for the commitments in `Y`.
    pub fn from_hyperkzg_opening(value: HyperKZGOpening) -> (r: Self)
        ensures
            r.folded_oracle_commitments@ == value.folded_oracle_commitments@,
            r.leader_evals == value.evals_at_x,
            r.beta_x_commitment == value.beta_x_commitment,
            r.quotient_delta_x_commitment == value.quotient_delta_x_commitment,
            r.aggregated_evals.beta_y2_evals.pos_beta_x_evals@.len() == 0,
            r.aggregated_evals.pos_beta_y_evals.pos_beta_x_evals@.len() == 0,
            r.aggregated_evals.neg_beta_y_evals.pos_beta_x_evals@.len() == 0,
    {
        HyperBiKZGOpening {
            folded_oracle_commitments: value.folded_oracle_commitments,
            aggregated_evals: HyperKZGAggregatedEvals {
                beta_y2_evals: HyperKZGExportedLocalEvals::new(0),
                pos_beta_y_evals: HyperKZGExportedLocalEvals::new(0),
                neg_beta_y_evals: HyperKZGExportedLocalEvals::new(0),
            },
            leader_evals: value.evals_at_x,
            beta_x_commitment: value.beta_x_commitment,
            beta_y_commitment: g1_identity(),
            quotient_delta_x_commitment: value.quotient_delta_x_commitment,
            quotient_delta_y_commitment: g1_identity(),
        }
    }
}

/// Appends aggregated evaluations: those at `beta_y^2`, then at `beta_y`,
/// then at `-beta_y`.
pub fn append_aggregated_evals<T: HyperKZGTranscript>(evals: &HyperKZGAggregatedEvals<Fr>, fs_transcript: &mut T)
    ensures
        final(fs_transcript).absorbed() == old(fs_transcript).absorbed() + exported_evals_entries(evals.beta_y2_evals)
            + exported_evals_entries(evals.pos_beta_y_evals) + exported_evals_entries(evals.neg_beta_y_evals),
{
    append_exported_evals(&evals.beta_y2_evals, fs_transcript);
    append_exported_evals(&evals.pos_beta_y_evals, fs_transcript);
    append_exported_evals(&evals.neg_beta_y_evals, fs_transcript);
}

/// The exported evaluations `e`, rebuilt with `alphas` at `beta`, end in the
/// value `v`: the value they report for the polynomial folded to a constant.
pub open spec fn reported_final_eval(e: HyperKZGExportedLocalEvals<Fr>, alphas: Seq<int>, beta: int, v: int) -> bool {
    exists|le: HyperKZGLocalEvals<Fr>|
        #[trigger] evals_from_reported(
            le,
            e.beta_x2_eval.value(),
            values(e.pos_beta_x_evals@),
            values(e.neg_beta_x_evals@),
            alphas,
            beta,
        ) && le.beta2_evals@[le.beta2_evals@.len() - 1].value() == v
}

/// The evaluation checks of HyperBiKZG pass: for challenges `beta_x` and
/// `beta_y` that keep their evaluation points apart, the aggregated
/// evaluations rebuilt at `beta_x` with the local alphas end in the leader's
/// values at `beta_y^2`, `beta_y` and `-beta_y`, and the leader's
/// evaluations rebuilt at `beta_y` with the party alphas end in `eval`.
pub open spec fn hyper_bikzg_evals_accepted(o: HyperBiKZGOpening, la: Seq<int>, ma: Seq<int>, eval: int) -> bool {
    exists|bx: int, by: int|
        #![trigger hyperkzg_beta_ok(bx, Fr::modulus()), hyperkzg_beta_ok(by, Fr::modulus())]
        {
            &&& hyperkzg_beta_ok(bx, Fr::modulus())
            &&& hyperkzg_beta_ok(by, Fr::modulus())
            &&& reported_final_eval(o.aggregated_evals.beta_y2_evals, la, bx, o.leader_evals.beta_x2_eval.value())
            &&& reported_final_eval(o.aggregated_evals.pos_beta_y_evals, la, bx, o.leader_evals.pos_beta_x_evals@[0].value())
            &&& reported_final_eval(o.aggregated_evals.neg_beta_y_evals, la, bx, o.leader_evals.neg_beta_x_evals@[0].value())
            &&& reported_final_eval(o.leader_evals, ma, by, eval)
        }
}

/// The evaluations `e` rebuilt with `alphas` at `beta`, and the value they end in.
fn rebuilt_final(e: &HyperKZGExportedLocalEvals<Fr>, alphas: &[Fr], beta: Fr) -> (r: (HyperKZGLocalEvals<Fr>, Fr))
    requires
        hyperkzg_beta_ok(beta.value(), Fr::modulus()),
    ensures
        evals_from_reported(
            r.0,
            e.beta_x2_eval.value(),
            values(e.pos_beta_x_evals@),
            values(e.neg_beta_x_evals@),
            values(alphas@),
            beta.value(),
        ),
        r.1 == r.0.beta2_evals@[r.0.beta2_evals@.len() - 1],
        reported_final_eval(*e, values(alphas@), beta.value(), r.1.value()),
        rebuilt_evals_end_in::<Fr>(
            e.beta_x2_eval.value(),
            values(e.pos_beta_x_evals@),
            values(e.neg_beta_x_evals@),
            values(alphas@),
            beta.value(),
            r.1.value(),
        ),
{
    let local = HyperKZGLocalEvals::new_from_exported_evals(e, alphas, beta);
    let last = local.multilinear_final_eval();
    proof {
        assert forall|le: HyperKZGLocalEvals<Fr>|
            #[trigger] evals_from_reported(
                le,
                e.beta_x2_eval.value(),
                values(e.pos_beta_x_evals@),
                values(e.neg_beta_x_evals@),
                values(alphas@),
                beta.value(),
            ) implies le.beta2_evals@[le.beta2_evals@.len() - 1].value() == last.value() by {
            crate::hyper_kzg::lemma_rebuilt_unique(
                le,
                local,
                e.beta_x2_eval.value(),
                values(e.pos_beta_x_evals@),
                values(e.neg_beta_x_evals@),
                values(alphas@),
                beta.value(),
            );
        }
    }
    (local, last)
}

/// The evaluation checks of HyperBiKZG with the challenges `bx` and `by`: both
/// keep their evaluation points apart, the aggregated evaluations rebuilt at
/// `bx` end in the leader's values, and the leader's evaluations rebuilt at
/// `by` end in `eval`.
pub open spec fn hyper_bikzg_evals_at(o: HyperBiKZGOpening, la: Seq<int>, ma: Seq<int>, eval: int, bx: int, by: int) -> bool {
    &&& hyperkzg_beta_ok(bx, Fr::modulus())
    &&& hyperkzg_beta_ok(by, Fr::modulus())
    &&& reported_final_eval(o.aggregated_evals.beta_y2_evals, la, bx, o.leader_evals.beta_x2_eval.value())
    &&& reported_final_eval(o.aggregated_evals.pos_beta_y_evals, la, bx, o.leader_evals.pos_beta_x_evals@[0].value())
    &&& reported_final_eval(o.aggregated_evals.neg_beta_y_evals, la, bx, o.leader_evals.neg_beta_x_evals@[0].value())
    &&& reported_final_eval(o.leader_evals, ma, by, eval)
}

/// What a HyperBiKZG verifier's transcript has taken in when it squeezes
/// `beta_x` (and then `beta_y`): the history, the folded commitments and the
/// parties' synchronisation.
pub open spec fn bikzg_beta_history(history: TranscriptHistory, o: HyperBiKZGOpening) -> TranscriptHistory {
    (history + commitment_entries(g1_views(o.folded_oracle_commitments@))).push(TranscriptEntry::Sync)
}

/// What it has taken in when it squeezes `gamma`: the above, both
/// challenges, the aggregated and the leader's evaluations, and a
/// synchronisation.
pub open spec fn bikzg_gamma_history(history: TranscriptHistory, o: HyperBiKZGOpening) -> TranscriptHistory {
    (bikzg_beta_history(history, o).push(TranscriptEntry::Challenge).push(TranscriptEntry::Challenge)
        + exported_evals_entries(o.aggregated_evals.beta_y2_evals) + exported_evals_entries(o.aggregated_evals.pos_beta_y_evals)
        + exported_evals_entries(o.aggregated_evals.neg_beta_y_evals) + exported_evals_entries(o.leader_evals)).push(
        TranscriptEntry::Sync,
    )
}

/// What it has taken in when it squeezes `delta_x`.
pub open spec fn bikzg_delta_x_history(history: TranscriptHistory, o: HyperBiKZGOpening) -> TranscriptHistory {
    bikzg_gamma_history(history, o).push(TranscriptEntry::Challenge).push(TranscriptEntry::Point(o.beta_x_commitment@)).push(
        TranscriptEntry::Sync,
    )
}

/// What it has taken in when it squeezes `delta_y`.
pub open spec fn bikzg_delta_y_history(history: TranscriptHistory, o: HyperBiKZGOpening) -> TranscriptHistory {
    bikzg_delta_x_history(history, o).push(TranscriptEntry::Challenge).push(TranscriptEntry::Point(o.beta_y_commitment@)).push(
        TranscriptEntry::Sync,
    )
}

/// The commitment that the final bivariate check of HyperBiKZG opens at
/// `(delta_x, delta_y)`: the commitment combined with the folded commitments
/// by the powers of `gamma`, less the two quotient commitments weighted at
/// `delta_x` and `delta_y`, with the challenges of a transcript that has
/// taken in `history`.
pub open spec fn bikzg_final_commitment<T: HyperKZGTranscript>(
    history: TranscriptHistory,
    comm: Seq<u8>,
    num_vars: int,
    o: HyperBiKZGOpening,
) -> Seq<u8> {
    let bx = T::challenge_after(bikzg_beta_history(history, o));
    let by = T::challenge_after(bikzg_beta_history(history, o).push(TranscriptEntry::Challenge));
    let gamma = T::challenge_after(bikzg_gamma_history(history, o));
    let dx = T::challenge_after(bikzg_delta_x_history(history, o));
    let dy = T::challenge_after(bikzg_delta_y_history(history, o));
    let folded = g1_views(o.folded_oracle_commitments@);
    let n = min_len(folded.len() as int, num_vars);
    let weights = Seq::new((num_vars + 1) as nat, |i: int| pow(gamma, i as nat) % fr_modulus());
    g1_sub_of(
        g1_sub_of(
            g1_aggregate(comm, folded, weights, n as nat),
            g1_scalar_mul_of(o.beta_x_commitment@, hyperkzg_quotient_weight(dx, bx)),
        ),
        g1_scalar_mul_of(o.beta_y_commitment@, hyperkzg_quotient_weight(dy, by)),
    )
}

/// The value at `t` of the quadratic in `X` through the gamma-combinations of
/// the evaluations `e`, rebuilt with `alphas` at `bx`, at `bx`, `-bx` and
/// `bx^2`.
pub open spec fn bikzg_x_value(e: HyperKZGExportedLocalEvals<Fr>, alphas: Seq<int>, bx: int, gamma: int, t: int) -> int {
    let le = rebuilt_evals(e, alphas, bx);
    let n = le.pos_beta_evals@.len() as int;
    let m = fr_modulus();
    quadratic_at(
        bx,
        (-bx) % m,
        (bx * bx) % m,
        gamma_combination(values(le.pos_beta_evals@), gamma, n),
        gamma_combination(values(le.neg_beta_evals@), gamma, n),
        gamma_combination(values(le.beta2_evals@), gamma, n),
        t,
    )
}

/// The value the HyperBiKZG verifier expects at `(dx, dy)`: the quadratic in
/// `Y` through, at `by`, `-by` and `by^2`, the aggregated evaluations'
/// quadratics in `X` at `dx`, each raised by the leader's matching
/// gamma-combination times `gamma` to the number of local variables.
pub open spec fn bikzg_lagrange_value(
    o: HyperBiKZGOpening,
    la: Seq<int>,
    ma: Seq<int>,
    bx: int,
    by: int,
    gamma: int,
    dx: int,
    dy: int,
) -> int {
    let m = fr_modulus();
    let lf = rebuilt_evals(o.leader_evals, ma, by);
    let n = lf.pos_beta_evals@.len() as int;
    let gn = pow(gamma, la.len() as nat) % m;
    quadratic_at(
        by,
        (-by) % m,
        (by * by) % m,
        (bikzg_x_value(o.aggregated_evals.pos_beta_y_evals, la, bx, gamma, dx) + (gamma_combination(
            values(lf.pos_beta_evals@),
            gamma,
            n,
        ) * gn) % m) % m,
        (bikzg_x_value(o.aggregated_evals.neg_beta_y_evals, la, bx, gamma, dx) + (gamma_combination(
            values(lf.neg_beta_evals@),
            gamma,
            n,
        ) * gn) % m) % m,
        (bikzg_x_value(o.aggregated_evals.beta_y2_evals, la, bx, gamma, dx) + (gamma_combination(
            values(lf.beta2_evals@),
            gamma,
            n,
        ) * gn) % m) % m,
        dy,
    )
}

/// A quadratic through values at an admissible `b`, `-b` and `b^2` takes at
/// `t` the value `quadratic_at` gives there.
pub proof fn lemma_beta_interpolant(c: Seq<int>, b: int, y0: int, y1: int, y2: int, t: int)
    requires
        0 <= b < fr_modulus(),
        hyperkzg_beta_ok(b, fr_modulus()),
        interpolates(c, b, (-b) % fr_modulus(), (b * b) % fr_modulus(), y0, y1, y2),
    ensures
        poly_eval(c, t) % fr_modulus() == quadratic_at(b, (-b) % fr_modulus(), (b * b) % fr_modulus(), y0, y1, y2, t),
{
    let m = fr_modulus();
    Fr::lemma_modulus();
    lemma_beta_units(b, m);
    vstd::arithmetic::div_mod::lemma_mod_twice(-b, m);
    vstd::arithmetic::div_mod::lemma_mod_twice(b * b, m);
    crate::field::lemma_reduced(b, m);
    crate::hyper_kzg::lemma_unit_pair(b, -b, b * b, b, (-b) % m, (b * b) % m, m);
    crate::hyper_kzg::lemma_unit_pair(-b, b, b * b, (-b) % m, b, (b * b) % m, m);
    lemma_interpolant_at(c, b, (-b) % m, (b * b) % m, y0, y1, y2, t);
}

/// A gamma-combination over as many terms as there are values at `beta` is
/// the prefix evaluation at `gamma`, reduced.
proof fn lemma_combination_prefix(vs: Seq<int>, gamma: int, n: int)
    requires
        n >= 0,
    ensures
        gamma_combination(vs, gamma, n) == crate::hyper_kzg::eval_prefix(vs, gamma, n) % fr_modulus(),
{
    let m = fr_modulus();
    Fr::lemma_modulus();
    let p = Seq::new(n as nat, |i: int| pow(gamma, i as nat) % m);
    lemma_eval_by_powers(vs, p, gamma, n, m);
    vstd::arithmetic::div_mod::lemma_mod_twice(crate::hyper_kzg::eval_prefix(vs, gamma, n), m);
}

/// The quadratic `c` takes at `bx`, `-bx` and `bx^2` the prefix
/// evaluations at `g` of the values of `l` there, modulo r.
pub open spec fn side_interpolates(c: Seq<int>, l: HyperKZGLocalEvals<Fr>, bx: int, g: int) -> bool {
    let nl = l.pos_beta_evals@.len() as int;
    &&& c.len() == 3
    &&& poly_eval(c, bx) % fr_modulus() == crate::hyper_kzg::eval_prefix(values(l.pos_beta_evals@), g, nl) % fr_modulus()
    &&& poly_eval(c, -bx) % fr_modulus() == crate::hyper_kzg::eval_prefix(values(l.neg_beta_evals@), g, nl) % fr_modulus()
    &&& poly_eval(c, bx * bx) % fr_modulus() == crate::hyper_kzg::eval_prefix(values(l.beta2_evals@), g, nl) % fr_modulus()
}

/// One aggregated side in `X`: the quadratic `c` through the prefix
/// evaluations of `local` (the evaluations `e` rebuilt at `bx`), with its
/// constant raised by `y`, takes at `dx` the value `bikzg_x_value` plus `y`.
proof fn lemma_x_side(
    local: HyperKZGLocalEvals<Fr>,
    e: HyperKZGExportedLocalEvals<Fr>,
    la: Seq<int>,
    bx: int,
    g: int,
    c: Seq<int>,
    c2: Seq<int>,
    y: int,
    dx: int,
)
    requires
        0 <= bx < fr_modulus(),
        hyperkzg_beta_ok(bx, fr_modulus()),
        evals_from_reported(local, e.beta_x2_eval.value(), values(e.pos_beta_x_evals@), values(e.neg_beta_x_evals@), la, bx),
        side_interpolates(c, local, bx, g),
        c2.len() == 3,
        c2[0] == (c[0] + y) % fr_modulus(),
        c2[1] == c[1],
        c2[2] == c[2],
    ensures
        poly_eval(c2, dx) % fr_modulus() == (bikzg_x_value(e, la, bx, g, dx) + y) % fr_modulus(),
{
    let m = fr_modulus();
    Fr::lemma_modulus();
    let le = rebuilt_evals(e, la, bx);
    crate::hyper_kzg::lemma_rebuilt_values_unique(
        local,
        le,
        e.beta_x2_eval.value(),
        values(e.pos_beta_x_evals@),
        values(e.neg_beta_x_evals@),
        la,
        bx,
    );
    let n = local.pos_beta_evals@.len() as int;
    assert(values(local.pos_beta_evals@).len() == n);
    assert(le.pos_beta_evals@.len() == n);
    lemma_combination_prefix(values(le.pos_beta_evals@), g, n);
    lemma_combination_prefix(values(le.neg_beta_evals@), g, n);
    lemma_combination_prefix(values(le.beta2_evals@), g, n);
    vstd::arithmetic::div_mod::lemma_mod_twice(-bx, m);
    vstd::arithmetic::div_mod::lemma_mod_twice(bx * bx, m);
    lemma_poly_eval_point_congruent(c, -bx, (-bx) % m, m);
    lemma_poly_eval_point_congruent(c, bx * bx, (bx * bx) % m, m);
    lemma_beta_interpolant(
        c,
        bx,
        gamma_combination(values(le.pos_beta_evals@), g, n),
        gamma_combination(values(le.neg_beta_evals@), g, n),
        gamma_combination(values(le.beta2_evals@), g, n),
        dx,
    );
    lemma_shifted_quadratic(c, c2, y, dx, m);
    vstd::arithmetic::div_mod::lemma_add_mod_noop(poly_eval(c, dx), y, m);
    vstd::arithmetic::div_mod::lemma_add_mod_noop(bikzg_x_value(e, la, bx, g, dx), y, m);
    vstd::arithmetic::div_mod::lemma_mod_twice(poly_eval(c, dx), m);
}

/// The verifier's final value: the quadratic `lag` through the three
/// aggregated sides at `dx` (each the quadratic `c*` through a rebuilt
/// side, raised by the leader's combination `y*`), taken at `dy`, is
/// `bikzg_lagrange_value`.
proof fn lemma_parties_final_value(
    o: HyperBiKZGOpening,
    la: Seq<int>,
    ma: Seq<int>,
    bx: int,
    by: int,
    g: int,
    dx: int,
    dy: int,
    lp: HyperKZGLocalEvals<Fr>,
    ln: HyperKZGLocalEvals<Fr>,
    l2: HyperKZGLocalEvals<Fr>,
    lf: HyperKZGLocalEvals<Fr>,
    cp: Seq<int>,
    cn: Seq<int>,
    c2: Seq<int>,
    up: Seq<int>,
    un: Seq<int>,
    u2: Seq<int>,
    lag: Seq<int>,
    fin: int,
)
    requires
        0 <= bx < fr_modulus(),
        0 <= by < fr_modulus(),
        hyperkzg_beta_ok(bx, fr_modulus()),
        hyperkzg_beta_ok(by, fr_modulus()),
        ({
            let e = o.aggregated_evals.pos_beta_y_evals;
            evals_from_reported(lp, e.beta_x2_eval.value(), values(e.pos_beta_x_evals@), values(e.neg_beta_x_evals@), la, bx)
        }),
        ({
            let e = o.aggregated_evals.neg_beta_y_evals;
            evals_from_reported(ln, e.beta_x2_eval.value(), values(e.pos_beta_x_evals@), values(e.neg_beta_x_evals@), la, bx)
        }),
        ({
            let e = o.aggregated_evals.beta_y2_evals;
            evals_from_reported(l2, e.beta_x2_eval.value(), values(e.pos_beta_x_evals@), values(e.neg_beta_x_evals@), la, bx)
        }),
        ({
            let e = o.leader_evals;
            evals_from_reported(lf, e.beta_x2_eval.value(), values(e.pos_beta_x_evals@), values(e.neg_beta_x_evals@), ma, by)
        }),
        side_interpolates(cp, lp, bx, g),
        side_interpolates(cn, ln, bx, g),
        side_interpolates(c2, l2, bx, g),
        up.len() == 3 && un.len() == 3 && u2.len() == 3,
        up[1] == cp[1] && up[2] == cp[2] && un[1] == cn[1] && un[2] == cn[2] && u2[1] == c2[1] && u2[2] == c2[2],
        ({
            let nf = lf.pos_beta_evals@.len() as int;
            let gn = pow(g, la.len() as nat) % fr_modulus();
            &&& up[0] == (cp[0] + (crate::hyper_kzg::eval_prefix(values(lf.pos_beta_evals@), g, nf) % fr_modulus() * gn) % fr_modulus()) % fr_modulus()
            &&& un[0] == (cn[0] + (crate::hyper_kzg::eval_prefix(values(lf.neg_beta_evals@), g, nf) % fr_modulus() * gn) % fr_modulus()) % fr_modulus()
            &&& u2[0] == (c2[0] + (crate::hyper_kzg::eval_prefix(values(lf.beta2_evals@), g, nf) % fr_modulus() * gn) % fr_modulus()) % fr_modulus()
        }),
        lag.len() == 3,
        poly_eval(lag, by) % fr_modulus() == poly_eval(up, dx) % fr_modulus(),
        poly_eval(lag, (-by) % fr_modulus()) % fr_modulus() == poly_eval(un, dx) % fr_modulus(),
        poly_eval(lag, (by * by) % fr_modulus()) % fr_modulus() == poly_eval(u2, dx) % fr_modulus(),
        fin == poly_eval(lag, dy) % fr_modulus(),
    ensures
        fin == bikzg_lagrange_value(o, la, ma, bx, by, g, dx, dy),
{
    let m = fr_modulus();
    Fr::lemma_modulus();
    let rf = rebuilt_evals(o.leader_evals, ma, by);
    let e = o.leader_evals;
    crate::hyper_kzg::lemma_rebuilt_values_unique(
        lf,
        rf,
        e.beta_x2_eval.value(),
        values(e.pos_beta_x_evals@),
        values(e.neg_beta_x_evals@),
        ma,
        by,
    );
    let nf = lf.pos_beta_evals@.len() as int;
    assert(rf.pos_beta_evals@.len() == nf);
    lemma_combination_prefix(values(rf.pos_beta_evals@), g, nf);
    lemma_combination_prefix(values(rf.neg_beta_evals@), g, nf);
    lemma_combination_prefix(values(rf.beta2_evals@), g, nf);
    let gn = pow(g, la.len() as nat) % m;
    let yp = (gamma_combination(values(rf.pos_beta_evals@), g, nf) * gn) % m;
    let yn = (gamma_combination(values(rf.neg_beta_evals@), g, nf) * gn) % m;
    let y2 = (gamma_combination(values(rf.beta2_evals@), g, nf) * gn) % m;
    lemma_x_side(lp, o.aggregated_evals.pos_beta_y_evals, la, bx, g, cp, up, yp, dx);
    lemma_x_side(ln, o.aggregated_evals.neg_beta_y_evals, la, bx, g, cn, un, yn, dx);
    lemma_x_side(l2, o.aggregated_evals.beta_y2_evals, la, bx, g, c2, u2, y2, dx);
    let ap = (bikzg_x_value(o.aggregated_evals.pos_beta_y_evals, la, bx, g, dx) + yp) % m;
    let an = (bikzg_x_value(o.aggregated_evals.neg_beta_y_evals, la, bx, g, dx) + yn) % m;
    let a2 = (bikzg_x_value(o.aggregated_evals.beta_y2_evals, la, bx, g, dx) + y2) % m;
    assert(interpolates(lag, by, (-by) % m, (by * by) % m, ap, an, a2));
    lemma_beta_interpolant(lag, by, ap, an, a2, dy);
}

/// The verdict of the HyperBiKZG verifier with party variables, for a
/// transcript that has taken in `history`: the evaluation checks pass at the
/// transcript's `beta_x` and `beta_y`, and the final bivariate pairing check
/// of the combined commitment at the transcript's `delta_x` and `delta_y`
/// passes with the value `bikzg_lagrange_value` there.
#[verifier::opaque]
pub open spec fn bikzg_parties_verdict<T: HyperKZGTranscript>(
    history: TranscriptHistory,
    tau_x_g2: Seq<u8>,
    tau_y_g2: Seq<u8>,
    comm: Seq<u8>,
    la: Seq<int>,
    ma: Seq<int>,
    eval: int,
    o: HyperBiKZGOpening,
    r: bool,
) -> bool {
    let fe = bikzg_lagrange_value(
        o,
        la,
        ma,
        T::challenge_after(bikzg_beta_history(history, o)),
        T::challenge_after(bikzg_beta_history(history, o).push(TranscriptEntry::Challenge)),
        T::challenge_after(bikzg_gamma_history(history, o)),
        T::challenge_after(bikzg_delta_x_history(history, o)),
        T::challenge_after(bikzg_delta_y_history(history, o)),
    );
    r == (hyper_bikzg_evals_at(
            o,
            la,
            ma,
            eval,
            T::challenge_after(bikzg_beta_history(history, o)),
            T::challenge_after(bikzg_beta_history(history, o).push(TranscriptEntry::Challenge)),
        ) && pairing_check_of(
            seq![
                o.quotient_delta_x_commitment@,
                o.quotient_delta_y_commitment@,
                g1_sub_of(
                    g1_generator_mul_of(fe),
                    bikzg_final_commitment::<T>(
                        history,
                        comm,
                        (la.len() + ma.len()) as int,
                        o,
                    ),
                ),
            ],
            seq![
                g2_sub_of(
                    tau_x_g2,
                    g2_generator_mul_of(T::challenge_after(bikzg_delta_x_history(history, o))),
                ),
                g2_sub_of(
                    tau_y_g2,
                    g2_generator_mul_of(T::challenge_after(bikzg_delta_y_history(history, o))),
                ),
                g2_generator_mul_of(1),
            ],
        ))
}

/// A failed evaluation check at the transcript's challenges is a rejection.
proof fn lemma_parties_verdict_rejects<T: HyperKZGTranscript>(
    history: TranscriptHistory,
    tau_x_g2: Seq<u8>,
    tau_y_g2: Seq<u8>,
    comm: Seq<u8>,
    la: Seq<int>,
    ma: Seq<int>,
    eval: int,
    o: HyperBiKZGOpening,
)
    requires
        !hyper_bikzg_evals_at(
            o,
            la,
            ma,
            eval,
            T::challenge_after(bikzg_beta_history(history, o)),
            T::challenge_after(bikzg_beta_history(history, o).push(TranscriptEntry::Challenge)),
        ),
    ensures
        bikzg_parties_verdict::<T>(history, tau_x_g2, tau_y_g2, comm, la, ma, eval, o, false),
{
    reveal(bikzg_parties_verdict);
}

/// Past the evaluation checks, the verdict is the final pairing check with
/// the verifier's value `fe`, the expected one.
proof fn lemma_parties_verdict_final<T: HyperKZGTranscript>(
    history: TranscriptHistory,
    tau_x_g2: Seq<u8>,
    tau_y_g2: Seq<u8>,
    comm: Seq<u8>,
    la: Seq<int>,
    ma: Seq<int>,
    eval: int,
    o: HyperBiKZGOpening,
    r: bool,
    fe: int,
)
    requires
        hyper_bikzg_evals_at(
            o,
            la,
            ma,
            eval,
            T::challenge_after(bikzg_beta_history(history, o)),
            T::challenge_after(bikzg_beta_history(history, o).push(TranscriptEntry::Challenge)),
        ),
        fe == bikzg_lagrange_value(
            o,
            la,
            ma,
            T::challenge_after(bikzg_beta_history(history, o)),
            T::challenge_after(bikzg_beta_history(history, o).push(TranscriptEntry::Challenge)),
            T::challenge_after(bikzg_gamma_history(history, o)),
            T::challenge_after(bikzg_delta_x_history(history, o)),
            T::challenge_after(bikzg_delta_y_history(history, o)),
        ),
        r == pairing_check_of(
            seq![
                o.quotient_delta_x_commitment@,
                o.quotient_delta_y_commitment@,
                g1_sub_of(g1_generator_mul_of(fe), bikzg_final_commitment::<T>(history, comm, (la.len() + ma.len()) as int, o)),
            ],
            seq![
                g2_sub_of(tau_x_g2, g2_generator_mul_of(T::challenge_after(bikzg_delta_x_history(history, o)))),
                g2_sub_of(tau_y_g2, g2_generator_mul_of(T::challenge_after(bikzg_delta_y_history(history, o)))),
                g2_generator_mul_of(1),
            ],
        ),
    ensures
        bikzg_parties_verdict::<T>(history, tau_x_g2, tau_y_g2, comm, la, ma, eval, o, r),
{
    reveal(bikzg_parties_verdict);
}

/// Verifies a HyperBiKZG opening of `commitment`, the sum of the parties'
/// commitments, at the point `local_alphas` (the variables within a party)
/// followed by `mpi_alphas` (the party index) to `eval`, redrawing the
/// challenges in the prover's order and synchronising the transcript where
/// the parties did. With no party variables this is HyperKZG. Otherwise it
/// rejects when a challenge `beta` does not keep its evaluation points
/// apart and when the evaluations do not fold to `eval` at the transcript's
/// `beta_x` and `beta_y`; past those checks the answer is the bivariate KZG
/// check of the aggregated commitment at `(delta_x, delta_y)` with the value
/// `bikzg_lagrange_value` there (see `bikzg_parties_verdict`).
#[verifier::spinoff_prover]
#[verifier::rlimit(60)]
pub fn coeff_form_hyper_bikzg_verify<T: HyperKZGTranscript>(
    vk: &BiKZGVerifierParam,
    local_alphas: &[Fr],
    mpi_alphas: &[Fr],
    eval: Fr,
    commitment: G1Point,
    opening: &HyperBiKZGOpening,
    fs_transcript: &mut T,
) -> (r: bool)
    requires
        local_alphas@.len() >= 1,
        local_alphas@.len() + mpi_alphas@.len() < usize::MAX,
        mpi_alphas@.len() < usize::BITS,
        mpi_alphas@.len() > 0 ==> {
            &&& opening.leader_evals.pos_beta_x_evals@.len() >= 1
            &&& opening.leader_evals.neg_beta_x_evals@.len() >= 1
            &&& opening.aggregated_evals.beta_y2_evals.pos_beta_x_evals@.len() >= 1
            &&& opening.aggregated_evals.beta_y2_evals.neg_beta_x_evals@.len() >= 1
            &&& opening.aggregated_evals.pos_beta_y_evals.pos_beta_x_evals@.len() >= 1
            &&& opening.aggregated_evals.pos_beta_y_evals.neg_beta_x_evals@.len() >= 1
            &&& opening.aggregated_evals.neg_beta_y_evals.pos_beta_x_evals@.len() >= 1
            &&& opening.aggregated_evals.neg_beta_y_evals.neg_beta_x_evals@.len() >= 1
        },
    ensures
        mpi_alphas@.len() == 0 ==> (r ==> hyperkzg_beta_ok(
            hyperkzg_transcript_beta::<T>(old(fs_transcript).absorbed(), g1_views(opening.folded_oracle_commitments@)),
            Fr::modulus(),
        ) && reported_final_eval(
            opening.leader_evals,
            values(local_alphas@),
            hyperkzg_transcript_beta::<T>(old(fs_transcript).absorbed(), g1_views(opening.folded_oracle_commitments@)),
            eval.value(),
        )),
        mpi_alphas@.len() == 0 ==> r == hyperkzg_verdict::<T>(
            old(fs_transcript).absorbed(),
            vk.tau_x_g2@,
            commitment@,
            values(local_alphas@),
            eval.value(),
            g1_views(opening.folded_oracle_commitments@),
            opening.leader_evals,
            opening.beta_x_commitment@,
            opening.quotient_delta_x_commitment@,
        ),
        mpi_alphas@.len() == 0 ==> forall|s: int, c: int, f: Seq<int>, q: int, w: int|
            #![trigger g2_generator_mul_of(s), g1_generator_mul_of(c), g1_multiples(g1_views(opening.folded_oracle_commitments@), f), g1_generator_mul_of(q), g1_generator_mul_of(w)]
            is_scalar(s) && is_scalar(c) && is_scalar(q) && is_scalar(w) && vk.tau_x_g2@ == g2_generator_mul_of(s)
                && commitment@ == g1_generator_mul_of(c) && g1_multiples(g1_views(opening.folded_oracle_commitments@), f)
                && opening.beta_x_commitment@ == g1_generator_mul_of(q) && opening.quotient_delta_x_commitment@
                == g1_generator_mul_of(w) ==> (r <==> hyperkzg_verdict_exponents::<T>(
                old(fs_transcript).absorbed(),
                s,
                c,
                values(local_alphas@),
                eval.value(),
                g1_views(opening.folded_oracle_commitments@),
                f,
                opening.leader_evals,
                opening.beta_x_commitment@,
                q,
                w,
            )),
        mpi_alphas@.len() > 0 ==> bikzg_parties_verdict::<T>(
            old(fs_transcript).absorbed(),
            vk.tau_x_g2@,
            vk.tau_y_g2@,
            commitment@,
            values(local_alphas@),
            values(mpi_alphas@),
            eval.value(),
            *opening,
            r,
        ),
        mpi_alphas@.len() > 0 ==> (r ==> hyper_bikzg_evals_accepted(
            *opening,
            values(local_alphas@),
            values(mpi_alphas@),
            eval.value(),
        )),
{
    let ghost m = Fr::modulus();
    proof {
        Fr::lemma_modulus();
    }
    if mpi_alphas.len() == 0 {
        let hyper_kzg_opening = opening.to_hyperkzg_opening();
        let uni_vk = UniKZGVerifierParams { tau_g2: vk.tau_x_g2 };
        let accepted = coeff_form_uni_hyperkzg_verify(
            uni_vk,
            commitment,
            local_alphas,
            eval,
            &hyper_kzg_opening,
            fs_transcript,
        );
        proof {
            let bt = hyperkzg_transcript_beta::<T>(old(fs_transcript).absorbed(), g1_views(opening.folded_oracle_commitments@));
            assert(g1_views(hyper_kzg_opening.folded_oracle_commitments@) == g1_views(opening.folded_oracle_commitments@));
            if accepted {
                assert(reported_final_eval(hyper_kzg_opening.evals_at_x, values(local_alphas@), bt, eval.value()));
                let le = choose|le: HyperKZGLocalEvals<Fr>|
                    #[trigger] evals_from_reported(
                        le,
                        hyper_kzg_opening.evals_at_x.beta_x2_eval.value(),
                        values(hyper_kzg_opening.evals_at_x.pos_beta_x_evals@),
                        values(hyper_kzg_opening.evals_at_x.neg_beta_x_evals@),
                        values(local_alphas@),
                        bt,
                    ) && le.beta2_evals@[le.beta2_evals@.len() - 1].value() == eval.value();
                assert(reported_final_eval(opening.leader_evals, values(local_alphas@), bt, eval.value()));
            }
        }
        return accepted;
    }
    hyper_bikzg_verify_parties(vk, local_alphas, mpi_alphas, eval, commitment, opening, fs_transcript)
}

/// The multi-party path of `coeff_form_hyper_bikzg_verify`.
#[verifier::spinoff_prover]
#[verifier::rlimit(100)]
fn hyper_bikzg_verify_parties<T: HyperKZGTranscript>(
    vk: &BiKZGVerifierParam,
    local_alphas: &[Fr],
    mpi_alphas: &[Fr],
    eval: Fr,
    commitment: G1Point,
    opening: &HyperBiKZGOpening,
    fs_transcript: &mut T,
) -> (r: bool)
    requires
        local_alphas@.len() >= 1,
        local_alphas@.len() + mpi_alphas@.len() < usize::MAX,
        mpi_alphas@.len() < usize::BITS,
        mpi_alphas@.len() > 0,
        mpi_alphas@.len() > 0 ==> {
            &&& opening.leader_evals.pos_beta_x_evals@.len() >= 1
            &&& opening.leader_evals.neg_beta_x_evals@.len() >= 1
            &&& opening.aggregated_evals.beta_y2_evals.pos_beta_x_evals@.len() >= 1
            &&& opening.aggregated_evals.beta_y2_evals.neg_beta_x_evals@.len() >= 1
            &&& opening.aggregated_evals.pos_beta_y_evals.pos_beta_x_evals@.len() >= 1
            &&& opening.aggregated_evals.pos_beta_y_evals.neg_beta_x_evals@.len() >= 1
            &&& opening.aggregated_evals.neg_beta_y_evals.pos_beta_x_evals@.len() >= 1
            &&& opening.aggregated_evals.neg_beta_y_evals.neg_beta_x_evals@.len() >= 1
        },
    ensures
        bikzg_parties_verdict::<T>(
            old(fs_transcript).absorbed(),
            vk.tau_x_g2@,
            vk.tau_y_g2@,
            commitment@,
            values(local_alphas@),
            values(mpi_alphas@),
            eval.value(),
            *opening,
            r,
        ),
        (r ==> hyper_bikzg_evals_accepted(
            *opening,
            values(local_alphas@),
            values(mpi_alphas@),
            eval.value(),
        )),{
    let ghost m = Fr::modulus();
    proof {
        Fr::lemma_modulus();
    }
    let mpi_world_size: usize = 1usize << mpi_alphas.len();
    let ghost history = fs_transcript.absorbed();
    let kk = mpi_alphas.len();
    proof {
        assert(mpi_world_size > 1) by (bit_vector)
            requires
                mpi_world_size == 1usize << kk,
                0 < kk,
                kk < usize::BITS,
        ;
    }
    append_commitments(&opening.folded_oracle_commitments, fs_transcript);
    fs_transcript.verifier_sync(mpi_world_size);
    let ghost synced = fs_transcript.absorbed();
    let beta_x = fs_transcript.generate_challenge_field_element();
    let beta_y = fs_transcript.generate_challenge_field_element();
    proof {
        assert(synced == bikzg_beta_history(history, *opening));
        assert(beta_x.value() == T::challenge_after(synced));
        assert(beta_y.value() == T::challenge_after(synced.push(TranscriptEntry::Challenge)));
    }
    if !hyperkzg_beta_check(beta_x) || !hyperkzg_beta_check(beta_y) {
        proof {
            assert(!hyper_bikzg_evals_at(*opening, values(local_alphas@), values(mpi_alphas@), eval.value(), beta_x.value(), beta_y.value()));
            lemma_parties_verdict_rejects::<T>(
                history,
                vk.tau_x_g2@,
                vk.tau_y_g2@,
                commitment@,
                values(local_alphas@),
                values(mpi_alphas@),
                eval.value(),
                *opening,
            );
        }
        return false;
    }
    let (beta_y2_local, beta_y2_final_eval) = rebuilt_final(&opening.aggregated_evals.beta_y2_evals, local_alphas, beta_x);
    let (pos_beta_y_local, pos_beta_y_final_eval) = rebuilt_final(&opening.aggregated_evals.pos_beta_y_evals, local_alphas, beta_x);
    let (neg_beta_y_local, neg_beta_y_final_eval) = rebuilt_final(&opening.aggregated_evals.neg_beta_y_evals, local_alphas, beta_x);
    if !beta_y2_final_eval.is_equal(&opening.leader_evals.beta_x2_eval) {
        proof {
            assert(!hyper_bikzg_evals_at(*opening, values(local_alphas@), values(mpi_alphas@), eval.value(), beta_x.value(), beta_y.value()));
            lemma_parties_verdict_rejects::<T>(
                history,
                vk.tau_x_g2@,
                vk.tau_y_g2@,
                commitment@,
                values(local_alphas@),
                values(mpi_alphas@),
                eval.value(),
                *opening,
            );
        }
        return false;
    }
    if !pos_beta_y_final_eval.is_equal(&opening.leader_evals.pos_beta_x_evals[0]) {
        proof {
            assert(!hyper_bikzg_evals_at(*opening, values(local_alphas@), values(mpi_alphas@), eval.value(), beta_x.value(), beta_y.value()));
            lemma_parties_verdict_rejects::<T>(
                history,
                vk.tau_x_g2@,
                vk.tau_y_g2@,
                commitment@,
                values(local_alphas@),
                values(mpi_alphas@),
                eval.value(),
                *opening,
            );
        }
        return false;
    }
    if !neg_beta_y_final_eval.is_equal(&opening.leader_evals.neg_beta_x_evals[0]) {
        proof {
            assert(!hyper_bikzg_evals_at(*opening, values(local_alphas@), values(mpi_alphas@), eval.value(), beta_x.value(), beta_y.value()));
            lemma_parties_verdict_rejects::<T>(
                history,
                vk.tau_x_g2@,
                vk.tau_y_g2@,
                commitment@,
                values(local_alphas@),
                values(mpi_alphas@),
                eval.value(),
                *opening,
            );
        }
        return false;
    }
    let (local_final_eval, leader_final) = rebuilt_final(&opening.leader_evals, mpi_alphas, beta_y);
    if !eval.is_equal(&leader_final) {
        proof {
            assert(!hyper_bikzg_evals_at(*opening, values(local_alphas@), values(mpi_alphas@), eval.value(), beta_x.value(), beta_y.value()));
            lemma_parties_verdict_rejects::<T>(
                history,
                vk.tau_x_g2@,
                vk.tau_y_g2@,
                commitment@,
                values(local_alphas@),
                values(mpi_alphas@),
                eval.value(),
                *opening,
            );
        }
        return false;
    }
    proof {
        let (bx, by) = (beta_x.value(), beta_y.value());
        Fr::lemma_value_range(eval);
        Fr::lemma_value_range(leader_final);
        Fr::lemma_value_range(beta_y2_final_eval);
        Fr::lemma_value_range(pos_beta_y_final_eval);
        Fr::lemma_value_range(neg_beta_y_final_eval);
        Fr::lemma_value_range(opening.leader_evals.beta_x2_eval);
        Fr::lemma_value_range(opening.leader_evals.pos_beta_x_evals@[0]);
        Fr::lemma_value_range(opening.leader_evals.neg_beta_x_evals@[0]);
        assert(reported_final_eval(opening.leader_evals, values(mpi_alphas@), by, eval.value()));
        assert(hyperkzg_beta_ok(bx, m) && hyperkzg_beta_ok(by, m));
        assert(hyper_bikzg_evals_accepted(*opening, values(local_alphas@), values(mpi_alphas@), eval.value()));
        assert(hyper_bikzg_evals_at(*opening, values(local_alphas@), values(mpi_alphas@), eval.value(), bx, by));
    }
    append_aggregated_evals(&opening.aggregated_evals, fs_transcript);
    append_exported_evals(&opening.leader_evals, fs_transcript);
    fs_transcript.verifier_sync(mpi_world_size);
    let gamma = fs_transcript.generate_challenge_field_element();
    let num_local = local_alphas.len();
    let gamma_power_series = powers_series(&gamma, num_local + mpi_alphas.len() + 1);
    let mut aggregated_oracle_commitment = commitment;
    let n = if opening.folded_oracle_commitments.len() < gamma_power_series.len() - 1 {
        opening.folded_oracle_commitments.len()
    } else {
        gamma_power_series.len() - 1
    };
    let ghost fvs = g1_views(opening.folded_oracle_commitments@);
    let ghost gws = values(gamma_power_series@);
    let mut k: usize = 0;
    while k < n
        invariant
            k <= n,
            n <= opening.folded_oracle_commitments@.len(),
            n + 1 <= gamma_power_series@.len(),
            fvs == g1_views(opening.folded_oracle_commitments@),
            gws == values(gamma_power_series@),
            aggregated_oracle_commitment@ == g1_aggregate(commitment@, fvs, gws, k as nat),
        decreases n - k,
    {
        let term = g1_scalar_mul(&opening.folded_oracle_commitments[k], &gamma_power_series[k + 1]);
        aggregated_oracle_commitment = g1_add(&aggregated_oracle_commitment, &term);
        k = k + 1;
    }
    let gamma_n = gamma_power_series[num_local];
    proof {
        lemma_beta_units(beta_x.value(), m);
        lemma_beta_units(beta_y.value(), m);
    }
    let (v_beta2, v_beta, v_neg_beta) = local_final_eval.gamma_aggregate_evals(gamma);
    let y_beta2 = v_beta2.times(&gamma_n);
    let y_beta = v_beta.times(&gamma_n);
    let y_neg_beta = v_neg_beta.times(&gamma_n);
    let mut aggregated_beta_y2_locals = beta_y2_local.interpolate_degree2_aggregated_evals(beta_x, gamma);
    let ghost c2 = values(aggregated_beta_y2_locals@);
    aggregated_beta_y2_locals[0] = aggregated_beta_y2_locals[0].plus(&y_beta2);
    let mut aggregated_pos_beta_y_locals = pos_beta_y_local.interpolate_degree2_aggregated_evals(beta_x, gamma);
    let ghost cp = values(aggregated_pos_beta_y_locals@);
    aggregated_pos_beta_y_locals[0] = aggregated_pos_beta_y_locals[0].plus(&y_beta);
    let mut aggregated_neg_beta_y_locals = neg_beta_y_local.interpolate_degree2_aggregated_evals(beta_x, gamma);
    let ghost cn = values(aggregated_neg_beta_y_locals@);
    aggregated_neg_beta_y_locals[0] = aggregated_neg_beta_y_locals[0].plus(&y_neg_beta);
    proof {
        let (bx, g) = (beta_x.value(), gamma.value());
        assert(side_interpolates(c2, beta_y2_local, bx, g));
        assert(side_interpolates(cp, pos_beta_y_local, bx, g));
        assert(side_interpolates(cn, neg_beta_y_local, bx, g));
    }
    fs_transcript.append_commitment(&opening.beta_x_commitment);
    fs_transcript.verifier_sync(mpi_world_size);
    let delta_x = fs_transcript.generate_challenge_field_element();
    let delta_x_pow_series = powers_series(&delta_x, 3);
    let at_beta_y2 = univariate_evaluate(aggregated_beta_y2_locals.as_slice(), delta_x_pow_series.as_slice());
    let at_beta_y = univariate_evaluate(aggregated_pos_beta_y_locals.as_slice(), delta_x_pow_series.as_slice());
    let at_neg_beta_y = univariate_evaluate(aggregated_neg_beta_y_locals.as_slice(), delta_x_pow_series.as_slice());
    let neg_beta_y = beta_y.negate();
    let beta_y2 = beta_y.times(&beta_y);
    proof {
        let b = beta_y.value();
        Fr::lemma_value_range(beta_y);
        vstd::arithmetic::div_mod::lemma_mod_twice(b * b, m);
        vstd::arithmetic::div_mod::lemma_mod_twice(-b, m);
        crate::field::lemma_reduced(b, m);
        crate::hyper_kzg::lemma_unit_pair(b, -b, b * b, b, neg_beta_y.value(), beta_y2.value(), m);
        crate::hyper_kzg::lemma_unit_pair(-b, b, b * b, neg_beta_y.value(), b, beta_y2.value(), m);
        crate::hyper_kzg::lemma_unit_pair(b * b, b, -b, beta_y2.value(), b, neg_beta_y.value(), m);
    }
    let lagrange_degree2_delta_y = coeff_form_degree2_lagrange(
        [beta_y, neg_beta_y, beta_y2],
        [at_beta_y, at_neg_beta_y, at_beta_y2],
    );
    fs_transcript.append_commitment(&opening.beta_y_commitment);
    fs_transcript.verifier_sync(mpi_world_size);
    let delta_y = fs_transcript.generate_challenge_field_element();
    let delta_y_pow_series = powers_series(&delta_y, 3);
    let degree_2_final_eval = univariate_evaluate(lagrange_degree2_delta_y.as_slice(), delta_y_pow_series.as_slice());
    let beta_x2 = beta_x.times(&beta_x);
    let delta_x_denom = delta_x.minus(&beta_x).times(&delta_x.minus(&beta_x2)).times(&delta_x.plus(&beta_x));
    let delta_y_denom = delta_y.minus(&beta_y).times(&delta_y.minus(&beta_y2)).times(&delta_y.plus(&beta_y));
    let weighted_beta_x = g1_scalar_mul(&opening.beta_x_commitment, &delta_x_denom);
    let weighted_beta_y = g1_scalar_mul(&opening.beta_y_commitment, &delta_y_denom);
    let com_r = g1_sub(&g1_sub(&aggregated_oracle_commitment, &weighted_beta_x), &weighted_beta_y);
    let final_opening = BiKZGProof {
        quotient_x: opening.quotient_delta_x_commitment,
        quotient_y: opening.quotient_delta_y_commitment,
    };
    let vk_copy = BiKZGVerifierParam { tau_x_g2: vk.tau_x_g2, tau_y_g2: vk.tau_y_g2 };
    let r = coeff_form_bi_kzg_verify(vk_copy, com_r, delta_x, delta_y, degree_2_final_eval, final_opening);
    proof {
        let o = *opening;
        assert(gamma.value() == T::challenge_after(bikzg_gamma_history(history, o)));
        assert(delta_x.value() == T::challenge_after(bikzg_delta_x_history(history, o)));
        assert(delta_y.value() == T::challenge_after(bikzg_delta_y_history(history, o)));
        assert(gws =~= Seq::new(
            (local_alphas@.len() + mpi_alphas@.len() + 1) as nat,
            |i: int| pow(gamma.value(), i as nat) % fr_modulus(),
        ));
        assert(com_r@ == bikzg_final_commitment::<T>(
            history,
            commitment@,
            (local_alphas@.len() + mpi_alphas@.len()) as int,
            o,
        ));
        let (bx, by, g, dx, dy) = (beta_x.value(), beta_y.value(), gamma.value(), delta_x.value(), delta_y.value());
        assert(degree_2_final_eval.value() == bikzg_lagrange_value(
            o,
            values(local_alphas@),
            values(mpi_alphas@),
            bx,
            by,
            g,
            dx,
            dy,
        )) by {
            let up = values(aggregated_pos_beta_y_locals@);
            let un = values(aggregated_neg_beta_y_locals@);
            let u2 = values(aggregated_beta_y2_locals@);
            let lag = values(lagrange_degree2_delta_y@);
            Fr::lemma_value_range(beta_x);
            Fr::lemma_value_range(beta_y);
            assert(up.len() == 3 && un.len() == 3 && u2.len() == 3 && lag.len() == 3);
            assert(up[1] == cp[1] && up[2] == cp[2] && un[1] == cn[1] && un[2] == cn[2]);
            assert(u2[1] == c2[1] && u2[2] == c2[2]);
            assert(gamma_n.value() == pow(g, local_alphas@.len() as nat) % m);
            lemma_evaluate_with_powers(up, values(delta_x_pow_series@), dx, m);
            lemma_evaluate_with_powers(un, values(delta_x_pow_series@), dx, m);
            lemma_evaluate_with_powers(u2, values(delta_x_pow_series@), dx, m);
            lemma_evaluate_with_powers(lag, values(delta_y_pow_series@), dy, m);
            assert(poly_eval(lag, by) % m == poly_eval(up, dx) % m);
            assert(poly_eval(lag, (-by) % m) % m == poly_eval(un, dx) % m);
            assert(poly_eval(lag, (by * by) % m) % m == poly_eval(u2, dx) % m);
            lemma_parties_final_value(
                o,
                values(local_alphas@),
                values(mpi_alphas@),
                bx,
                by,
                g,
                dx,
                dy,
                pos_beta_y_local,
                neg_beta_y_local,
                beta_y2_local,
                local_final_eval,
                cp,
                cn,
                c2,
                up,
                un,
                u2,
                lag,
                degree_2_final_eval.value(),
            );
        }
        lemma_parties_verdict_final::<T>(
            history,
            vk.tau_x_g2@,
            vk.tau_y_g2@,
            commitment@,
            values(local_alphas@),
            values(mpi_alphas@),
            eval.value(),
            o,
            r,
            degree_2_final_eval.value(),
        );
    }
    r
}

/// Each party's folded oracles in `X`, and the commitments to them.
fn party_folds(
    srs_s: &[CoefFormBiKZGLocalSRS],
    coeffs_s: &[Vec<Fr>],
    local_alphas: &[Fr],
) -> (r: (Vec<Vec<G1Point>>, Vec<Vec<Vec<Fr>>>))
    requires
        local_alphas@.len() >= 1,
        srs_s@.len() == coeffs_s@.len(),
        forall|p: int|
            0 <= p < coeffs_s@.len() ==> (#[trigger] coeffs_s@[p])@.len() == pow2(local_alphas@.len() as nat)
                && srs_s@[p].tau_x_srs.powers_of_tau@.len() >= coeffs_s@[p]@.len(),
    ensures
        r.0@.len() == coeffs_s@.len(),
        r.1@.len() == coeffs_s@.len(),
        forall|p: int|
            0 <= p < coeffs_s@.len() ==> #[trigger] r.0@[p]@.len() == local_alphas@.len() - 1,
        forall|p: int|
            0 <= p < coeffs_s@.len() ==> hyperkzg_folds_honest(
                values((#[trigger] coeffs_s@[p])@),
                vec_values(r.1@[p]@),
                values(local_alphas@),
                Fr::modulus(),
            ),
{
    let n = coeffs_s.len();
    let mut commits_s: Vec<Vec<G1Point>> = Vec::new();
    let mut folded_s: Vec<Vec<Vec<Fr>>> = Vec::new();
    proof {
        crate::hyper_kzg::lemma_pow2_divides(local_alphas@.len() as nat);
    }
    let mut p: usize = 0;
    while p < n
        invariant
            p <= n,
            n == coeffs_s@.len(),
            srs_s@.len() == n,
            local_alphas@.len() >= 1,
            pow2(local_alphas@.len() as nat) % pow2((local_alphas@.len() - 1) as nat) == 0,
            forall|q: int|
                0 <= q < coeffs_s@.len() ==> (#[trigger] coeffs_s@[q])@.len() == pow2(local_alphas@.len() as nat)
                    && srs_s@[q].tau_x_srs.powers_of_tau@.len() >= coeffs_s@[q]@.len(),
            commits_s@.len() == p,
            folded_s@.len() == p,
            forall|q: int| 0 <= q < p ==> #[trigger] commits_s@[q]@.len() == local_alphas@.len() - 1,
            forall|q: int|
                0 <= q < p ==> hyperkzg_folds_honest(
                    values((#[trigger] coeffs_s@[q])@),
                    vec_values(folded_s@[q]@),
                    values(local_alphas@),
                    Fr::modulus(),
                ),
        decreases n - p,
    {
        let (commits, folded) = coeff_form_hyperkzg_local_poly_oracles(&srs_s[p].tau_x_srs, &coeffs_s[p], local_alphas);
        proof {
            let c = values(coeffs_s@[p as int]@);
            let al = values(local_alphas@);
            let fv = vec_values(folded@);
            assert forall|i: int| 0 <= i < fv.len() implies #[trigger] fv[i] == fold_chain(c, al, Fr::modulus(), (i + 1) as nat) by {
                assert(values(folded@[i]@) == fold_chain(c, al, Fr::modulus(), (i + 1) as nat));
            }
            assert(hyperkzg_folds_honest(c, fv, al, Fr::modulus()));
        }
        let ghost old_commits = commits_s@;
        let ghost old_folded = folded_s@;
        commits_s.push(commits);
        folded_s.push(folded);
        proof {
            assert forall|q: int| 0 <= q < p + 1 implies #[trigger] commits_s@[q]@.len() == local_alphas@.len() - 1 by {
                if q < p {
                    assert(commits_s@[q] == old_commits[q]);
                } else {
                    assert(commits_s@[q] == commits);
                }
            }
            assert forall|q: int| 0 <= q < p + 1 implies hyperkzg_folds_honest(
                values((#[trigger] coeffs_s@[q])@),
                vec_values(folded_s@[q]@),
                values(local_alphas@),
                Fr::modulus(),
            ) by {
                if q < p {
                    assert(folded_s@[q] == old_folded[q]);
                } else {
                    assert(folded_s@[q] == folded);
                }
            }
        }
        p = p + 1;
    }
    (commits_s, folded_s)
}

/// The sum over the parties of their commitments to the `i`-th fold, for
/// each `i < k`.
fn sum_fold_commitments(commits_s: &Vec<Vec<G1Point>>, k: usize) -> (r: Vec<G1Point>)
    requires
        commits_s@.len() >= 1,
        forall|p: int| 0 <= p < commits_s@.len() ==> (#[trigger] commits_s@[p])@.len() == k,
    ensures
        r@.len() == k,
{
    let mut r: Vec<G1Point> = Vec::new();
    let mut i: usize = 0;
    while i < k
        invariant
            i <= k,
            r@.len() == i,
            commits_s@.len() >= 1,
            forall|p: int| 0 <= p < commits_s@.len() ==> (#[trigger] commits_s@[p])@.len() == k,
        decreases k - i,
    {
        let mut acc = commits_s[0][i];
        let mut p: usize = 1;
        while p < commits_s.len()
            invariant
                1 <= p <= commits_s@.len(),
                i < k,
                forall|q: int| 0 <= q < commits_s@.len() ==> (#[trigger] commits_s@[q])@.len() == k,
            decreases commits_s@.len() - p,
        {
            acc = g1_add(&acc, &commits_s[p][i]);
            p = p + 1;
        }
        r.push(acc);
        i = i + 1;
    }
    r
}

/// `(1 - a) f[0] + a f[1]`: the last fold, to a constant, of a pair.
fn fold_pair(f: &Vec<Fr>, a: Fr) -> (r: Fr)
    requires
        f@.len() == 2,
    ensures
        r.value() == fold_lowest(values(f@), a.value())[0] % Fr::modulus(),
{
    let ghost m = Fr::modulus();
    let one_minus_a = Fr::one().minus(&a);
    let t0 = one_minus_a.times(&f[0]);
    let t1 = a.times(&f[1]);
    let r = t0.plus(&t1);
    proof {
        Fr::lemma_modulus();
        let (x, y, av) = (f@[0].value(), f@[1].value(), a.value());
        vstd::arithmetic::div_mod::lemma_mod_twice(1 - av, m);
        crate::field::lemma_congruent_mul(one_minus_a.value(), 1 - av, x, x, m);
        vstd::arithmetic::div_mod::lemma_mod_twice((1 - av) * x, m);
        vstd::arithmetic::div_mod::lemma_mod_twice(av * y, m);
        crate::field::lemma_congruent_add(t0.value(), (1 - av) * x, t1.value(), av * y, m);
        assert((1 - av) * x + av * y == x + av * (y - x)) by (nonlinear_arith);
        assert(values(f@)[0] == x && values(f@)[1] == y);
        assert(fold_lowest(values(f@), av)[0] == x + av * (y - x));
    }
    r
}

/// Each party's polynomial evaluated at the local alphas, from its last
/// folded oracle.
fn final_evals_at_x(coeffs_s: &[Vec<Fr>], folded_s: &Vec<Vec<Vec<Fr>>>, local_alphas: &[Fr]) -> (r: Vec<Fr>)
    requires
        local_alphas@.len() >= 2,
        folded_s@.len() == coeffs_s@.len(),
        forall|p: int|
            0 <= p < coeffs_s@.len() ==> hyperkzg_folds_honest(
                values((#[trigger] coeffs_s@[p])@),
                vec_values(folded_s@[p]@),
                values(local_alphas@),
                Fr::modulus(),
            ),
    ensures
        r@.len() == coeffs_s@.len(),
        forall|p: int|
            0 <= p < coeffs_s@.len() ==> (#[trigger] r@[p]).value() == mle_eval(values(coeffs_s@[p]@), values(local_alphas@))
                % Fr::modulus(),
{
    let ghost m = Fr::modulus();
    let ghost al = values(local_alphas@);
    let n = local_alphas.len();
    let a_last = local_alphas[n - 1];
    let mut r: Vec<Fr> = Vec::new();
    let mut p: usize = 0;
    proof {
        Fr::lemma_modulus();
    }
    while p < coeffs_s.len()
        invariant
            p <= coeffs_s@.len(),
            n == local_alphas@.len(),
            n >= 2,
            al == values(local_alphas@),
            a_last == local_alphas@[n - 1],
            m == Fr::modulus(),
            m > 1,
            folded_s@.len() == coeffs_s@.len(),
            forall|q: int|
                0 <= q < coeffs_s@.len() ==> hyperkzg_folds_honest(
                    values((#[trigger] coeffs_s@[q])@),
                    vec_values(folded_s@[q]@),
                    al,
                    m,
                ),
            r@.len() == p,
            forall|q: int| 0 <= q < p ==> (#[trigger] r@[q]).value() == mle_eval(values(coeffs_s@[q]@), al) % m,
        decreases coeffs_s@.len() - p,
    {
        let ghost c = values(coeffs_s@[p as int]@);
        proof {
            assert(hyperkzg_folds_honest(c, vec_values(folded_s@[p as int]@), al, m));
            assert(vec_values(folded_s@[p as int]@)[n - 2] == values(folded_s@[p as int]@[n - 2]@));
            lemma_fold_chain_mle(c, al, m, (n - 1) as nat);
        }
        let last = &folded_s[p][n - 2];
        proof {
            lemma2_to64();
            let f = fold_chain(c, al, m, (n - 1) as nat);
            assert(values(last@) == f);
            assert(values(last@).len() == last@.len());
        }
        let e = fold_pair(last, a_last);
        proof {
            let f = fold_chain(c, al, m, (n - 1) as nat);
            assert(values(last@) == f);
            let rest = al.skip(n - 1);
            assert(rest =~= seq![al[n - 1]]);
            assert(rest.drop_first() =~= Seq::<int>::empty());
            assert(mle_eval(f, rest) == mle_eval(fold_lowest(f, rest[0]), rest.drop_first()));
            assert(mle_eval(fold_lowest(f, rest[0]), rest.drop_first()) == fold_lowest(f, rest[0])[0]);
            assert(al[n - 1] == a_last.value());
        }
        r.push(e);
        p = p + 1;
    }
    r
}

fn copy_local_evals(e: &HyperKZGLocalEvals<Fr>) -> (r: HyperKZGLocalEvals<Fr>)
    ensures
        r.beta2_evals@ == e.beta2_evals@,
        r.pos_beta_evals@ == e.pos_beta_evals@,
        r.neg_beta_evals@ == e.neg_beta_evals@,
{
    HyperKZGLocalEvals {
        beta2_evals: copy_evals(&e.beta2_evals),
        pos_beta_evals: copy_evals(&e.pos_beta_evals),
        neg_beta_evals: copy_evals(&e.neg_beta_evals),
    }
}

/// Each party's local evaluations at `beta_x`, and the part of them that it
/// exports.
fn party_local_evals(
    coeffs_s: &[Vec<Fr>],
    folded_s: &Vec<Vec<Vec<Fr>>>,
    local_alphas: &[Fr],
    beta_x: Fr,
) -> (r: (Vec<HyperKZGLocalEvals<Fr>>, Vec<HyperKZGExportedLocalEvals<Fr>>))
    requires
        hyperkzg_beta_ok(beta_x.value(), Fr::modulus()),
        folded_s@.len() == coeffs_s@.len(),
        forall|p: int|
            0 <= p < coeffs_s@.len() ==> hyperkzg_folds_honest(
                values((#[trigger] coeffs_s@[p])@),
                vec_values(folded_s@[p]@),
                values(local_alphas@),
                Fr::modulus(),
            ),
    ensures
        r.0@.len() == coeffs_s@.len(),
        r.1@.len() == coeffs_s@.len(),
        forall|p: int|
            0 <= p < coeffs_s@.len() ==> {
                &&& local_evals_of(
                    #[trigger] r.0@[p],
                    values(coeffs_s@[p]@),
                    vec_values(folded_s@[p]@),
                    values(local_alphas@),
                    beta_x.value(),
                )
                &&& exported_well_formed(r.1@[p])
                &&& r.1@[p].pos_beta_x_evals@.len() == local_alphas@.len()
                &&& r.1@[p].beta_x2_eval == r.0@[p].beta2_evals@[0]
                &&& r.1@[p].pos_beta_x_evals@ == r.0@[p].pos_beta_evals@
                &&& r.1@[p].neg_beta_x_evals@ == r.0@[p].neg_beta_evals@
            },
{
    let mut locals: Vec<HyperKZGLocalEvals<Fr>> = Vec::new();
    let mut exported: Vec<HyperKZGExportedLocalEvals<Fr>> = Vec::new();
    let mut p: usize = 0;
    while p < coeffs_s.len()
        invariant
            p <= coeffs_s@.len(),
            hyperkzg_beta_ok(beta_x.value(), Fr::modulus()),
            folded_s@.len() == coeffs_s@.len(),
            forall|q: int|
                0 <= q < coeffs_s@.len() ==> hyperkzg_folds_honest(
                    values((#[trigger] coeffs_s@[q])@),
                    vec_values(folded_s@[q]@),
                    values(local_alphas@),
                    Fr::modulus(),
                ),
            locals@.len() == p,
            exported@.len() == p,
            forall|q: int|
                0 <= q < p ==> {
                    &&& local_evals_of(
                        #[trigger] locals@[q],
                        values(coeffs_s@[q]@),
                        vec_values(folded_s@[q]@),
                        values(local_alphas@),
                        beta_x.value(),
                    )
                    &&& exported_well_formed(exported@[q])
                    &&& exported@[q].pos_beta_x_evals@.len() == local_alphas@.len()
                    &&& exported@[q].beta_x2_eval == locals@[q].beta2_evals@[0]
                    &&& exported@[q].pos_beta_x_evals@ == locals@[q].pos_beta_evals@
                    &&& exported@[q].neg_beta_x_evals@ == locals@[q].neg_beta_evals@
                },
        decreases coeffs_s@.len() - p,
    {
        proof {
            assert(hyperkzg_folds_honest(
                values(coeffs_s@[p as int]@),
                vec_values(folded_s@[p as int]@),
                values(local_alphas@),
                Fr::modulus(),
            ));
            lemma_pow2_pos(local_alphas@.len() as nat);
        }
        let local = coeff_form_hyperkzg_local_evals(&coeffs_s[p], folded_s[p].as_slice(), local_alphas, beta_x);
        proof {
            assert(local_rounds(folded_s@[p as int]@.len() as int, local_alphas@.len() as int) == local_alphas@.len());
        }
        let e = HyperKZGExportedLocalEvals::from_local_evals(copy_local_evals(&local));
        locals.push(local);
        exported.push(e);
        p = p + 1;
    }
    (locals, exported)
}

/// Each party's step after `gamma`: its aggregate `f` and quadratic `L`,
/// both shifted by the leader's share `g` of the party, and the quotient of
/// `f - L` by the three root factors at `beta_x` (the shift leaves the
/// difference, and so the quotient, unchanged).
fn party_gamma_phase(
    coeffs_s: &[Vec<Fr>],
    folded_s: &Vec<Vec<Vec<Fr>>>,
    local_alphas: &[Fr],
    locals: &Vec<HyperKZGLocalEvals<Fr>>,
    beta_x: Fr,
    gamma: Fr,
    f_gamma_global: &Vec<Fr>,
) -> (r: (Vec<Vec<Fr>>, Vec<[Fr; 3]>, Vec<Vec<Fr>>))
    requires
        hyperkzg_beta_ok(beta_x.value(), Fr::modulus()),
        folded_s@.len() == coeffs_s@.len(),
        locals@.len() == coeffs_s@.len(),
        f_gamma_global@.len() == coeffs_s@.len(),
        forall|p: int|
            0 <= p < coeffs_s@.len() ==> {
                &&& hyperkzg_folds_honest(
                    values((#[trigger] coeffs_s@[p])@),
                    vec_values(folded_s@[p]@),
                    values(local_alphas@),
                    Fr::modulus(),
                )
                &&& local_evals_of(
                    locals@[p],
                    values(coeffs_s@[p]@),
                    vec_values(folded_s@[p]@),
                    values(local_alphas@),
                    beta_x.value(),
                )
            },
    ensures
        r.0@.len() == coeffs_s@.len(),
        r.1@.len() == coeffs_s@.len(),
        r.2@.len() == coeffs_s@.len(),
        forall|p: int| 0 <= p < coeffs_s@.len() ==> (#[trigger] r.0@[p])@.len() == coeffs_s@[p]@.len(),
        forall|p: int| 0 <= p < coeffs_s@.len() ==> (#[trigger] r.2@[p])@.len() <= coeffs_s@[p]@.len(),
{
    let mut f_gamma_s: Vec<Vec<Fr>> = Vec::new();
    let mut lagrange_s: Vec<[Fr; 3]> = Vec::new();
    let mut quotient_s: Vec<Vec<Fr>> = Vec::new();
    let mut p: usize = 0;
    while p < coeffs_s.len()
        invariant
            p <= coeffs_s@.len(),
            hyperkzg_beta_ok(beta_x.value(), Fr::modulus()),
            folded_s@.len() == coeffs_s@.len(),
            locals@.len() == coeffs_s@.len(),
            f_gamma_global@.len() == coeffs_s@.len(),
            forall|q: int|
                0 <= q < coeffs_s@.len() ==> {
                    &&& hyperkzg_folds_honest(
                        values((#[trigger] coeffs_s@[q])@),
                        vec_values(folded_s@[q]@),
                        values(local_alphas@),
                        Fr::modulus(),
                    )
                    &&& local_evals_of(
                        locals@[q],
                        values(coeffs_s@[q]@),
                        vec_values(folded_s@[q]@),
                        values(local_alphas@),
                        beta_x.value(),
                    )
                },
            f_gamma_s@.len() == p,
            lagrange_s@.len() == p,
            quotient_s@.len() == p,
            forall|q: int| 0 <= q < p ==> (#[trigger] f_gamma_s@[q])@.len() == coeffs_s@[q]@.len(),
            forall|q: int| 0 <= q < p ==> (#[trigger] quotient_s@[q])@.len() <= coeffs_s@[q]@.len(),
        decreases coeffs_s@.len() - p,
    {
        proof {
            assert(hyperkzg_folds_honest(
                values(coeffs_s@[p as int]@),
                vec_values(folded_s@[p as int]@),
                values(local_alphas@),
                Fr::modulus(),
            ));
            lemma_pow2_pos(local_alphas@.len() as nat);
        }
        let (mut f, mut lag, quotient) = hyperkzg_open_gamma_phase(
            &coeffs_s[p],
            folded_s[p].as_slice(),
            local_alphas,
            &locals[p],
            beta_x,
            gamma,
        );
        let g = f_gamma_global[p];
        let f0 = f[0].plus(&g);
        f.set(0, f0);
        lag[0] = lag[0].plus(&g);
        f_gamma_s.push(f);
        lagrange_s.push(lag);
        quotient_s.push(quotient);
        p = p + 1;
    }
    (f_gamma_s, lagrange_s, quotient_s)
}

/// The leader's step in `Y`: the quadratic through the values at `beta_y`,
/// `-beta_y` and `beta_y^2` of the polynomial whose coefficients are the
/// parties' values at `delta_x`, and the quotient of their difference by
/// the three root factors, padded to one coefficient per party.
fn leader_y_quotient(lagrange_delta_x: &Vec<Fr>, beta_y: Fr) -> (r: ([Fr; 3], Vec<Fr>))
    requires
        hyperkzg_beta_ok(beta_y.value(), Fr::modulus()),
        lagrange_delta_x@.len() >= 1,
    ensures
        r.1@.len() == lagrange_delta_x@.len(),
{
    let ghost m = Fr::modulus();
    let ghost b = beta_y.value();
    let ghost c = values(lagrange_delta_x@);
    let n = lagrange_delta_x.len();
    let neg_beta_y = beta_y.negate();
    let beta_y2 = beta_y.times(&beta_y);
    let pos_series = powers_series(&beta_y, n);
    let neg_series = powers_series(&neg_beta_y, n);
    let beta_y2_series = powers_series(&beta_y2, n);
    let at_pos_beta_y = univariate_evaluate(lagrange_delta_x.as_slice(), pos_series.as_slice());
    let at_neg_beta_y = univariate_evaluate(lagrange_delta_x.as_slice(), neg_series.as_slice());
    let at_beta_y2 = univariate_evaluate(lagrange_delta_x.as_slice(), beta_y2_series.as_slice());
    proof {
        Fr::lemma_modulus();
        Fr::lemma_value_range(beta_y);
        lemma_beta_units(b, m);
        vstd::arithmetic::div_mod::lemma_mod_twice(b * b, m);
        vstd::arithmetic::div_mod::lemma_mod_twice(-b, m);
        crate::field::lemma_reduced(b, m);
        crate::hyper_kzg::lemma_unit_pair(b, -b, b * b, b, neg_beta_y.value(), beta_y2.value(), m);
        crate::hyper_kzg::lemma_unit_pair(-b, b, b * b, neg_beta_y.value(), b, beta_y2.value(), m);
        crate::hyper_kzg::lemma_unit_pair(b * b, b, -b, beta_y2.value(), b, neg_beta_y.value(), m);
    }
    let lagrange_y = coeff_form_degree2_lagrange([beta_y, neg_beta_y, beta_y2], [at_pos_beta_y, at_neg_beta_y, at_beta_y2]);
    proof {
        let lv = values(lagrange_y@);
        let roots: [Fr; 3] = [beta_y, neg_beta_y, beta_y2];
        assert(roots@[0] == beta_y && roots@[1] == neg_beta_y && roots@[2] == beta_y2);
        assert(poly_eval(lv, roots@[0].value()) % m == at_pos_beta_y.value());
        assert(poly_eval(lv, roots@[1].value()) % m == at_neg_beta_y.value());
        assert(poly_eval(lv, roots@[2].value()) % m == at_beta_y2.value());
        lemma_evaluate_with_powers(c, values(pos_series@), b, m);
        lemma_evaluate_with_powers(c, values(neg_series@), neg_beta_y.value(), m);
        lemma_evaluate_with_powers(c, values(beta_y2_series@), beta_y2.value(), m);
        vstd::arithmetic::div_mod::lemma_mod_twice(dot_prefix_of(c, values(pos_series@)), m);
        vstd::arithmetic::div_mod::lemma_mod_twice(dot_prefix_of(c, values(neg_series@)), m);
        vstd::arithmetic::div_mod::lemma_mod_twice(dot_prefix_of(c, values(beta_y2_series@)), m);
        lemma_poly_eval_point_congruent(c, neg_beta_y.value(), -b, m);
        lemma_poly_eval_point_congruent(c, beta_y2.value(), b * b, m);
        lemma_poly_eval_point_congruent(lv, neg_beta_y.value(), -b, m);
        lemma_poly_eval_point_congruent(lv, beta_y2.value(), b * b, m);
    }
    let mut quotient_y = quotient_at_beta_points(lagrange_delta_x, lagrange_y, beta_y);
    while quotient_y.len() < n
        invariant
            quotient_y@.len() <= n,
        decreases n - quotient_y@.len(),
    {
        quotient_y.push(Fr::zero());
    }
    (lagrange_y, quotient_y)
}

/// The inner product of `c` with `p` over the length of `c`.
spec fn dot_prefix_of(c: Seq<int>, p: Seq<int>) -> int {
    crate::univariate::dot_prefix(c, p, c.len() as int)
}

/// Each party's opening at `delta_x` of its aggregate with the quotients at
/// the `beta` points taken off:
/// `f - D_x q_x - D_y q_y[p]`, with `D_x` and `D_y` the root products at
/// `delta_x` and `delta_y`.
fn party_final_openings(
    srs_s: &[CoefFormBiKZGLocalSRS],
    f_gamma_s: &Vec<Vec<Fr>>,
    quotient_s: &Vec<Vec<Fr>>,
    quotient_y: &Vec<Fr>,
    delta_x_denom: Fr,
    delta_y_denom: Fr,
    delta_x: Fr,
) -> (r: Vec<(Fr, G1Point)>)
    requires
        srs_s@.len() == f_gamma_s@.len(),
        quotient_s@.len() == f_gamma_s@.len(),
        quotient_y@.len() == f_gamma_s@.len(),
        forall|p: int|
            0 <= p < f_gamma_s@.len() ==> {
                &&& (#[trigger] f_gamma_s@[p])@.len() >= 1
                &&& quotient_s@[p]@.len() <= f_gamma_s@[p]@.len()
                &&& srs_s@[p].tau_x_srs.powers_of_tau@.len() >= f_gamma_s@[p]@.len()
            },
    ensures
        r@.len() == f_gamma_s@.len(),
{
    let neg_delta_x_denom = delta_x_denom.negate();
    let mut r: Vec<(Fr, G1Point)> = Vec::new();
    let mut p: usize = 0;
    while p < f_gamma_s.len()
        invariant
            p <= f_gamma_s@.len(),
            srs_s@.len() == f_gamma_s@.len(),
            quotient_s@.len() == f_gamma_s@.len(),
            quotient_y@.len() == f_gamma_s@.len(),
            forall|q: int|
                0 <= q < f_gamma_s@.len() ==> {
                    &&& (#[trigger] f_gamma_s@[q])@.len() >= 1
                    &&& quotient_s@[q]@.len() <= f_gamma_s@[q]@.len()
                    &&& srs_s@[q].tau_x_srs.powers_of_tau@.len() >= f_gamma_s@[q]@.len()
                },
            r@.len() == p,
        decreases f_gamma_s@.len() - p,
    {
        let mut f = copy_evals(&f_gamma_s[p]);
        polynomial_add(&mut f, neg_delta_x_denom, quotient_s[p].as_slice());
        let f0 = f[0].minus(&quotient_y[p].times(&delta_y_denom));
        f.set(0, f0);
        let opened = crate::kzg::coeff_form_uni_kzg_open_eval(&srs_s[p].tau_x_srs, f.as_slice(), delta_x);
        r.push(opened);
        p = p + 1;
    }
    r
}

/// The evaluation checks of HyperBiKZG pass on an opening: for challenges
/// `beta_x` and `beta_y` that keep their evaluation points apart, whatever a
/// verifier rebuilds from the aggregated evaluations at `beta_x` with the
/// local alphas ends in the leader's values at `beta_y^2`, `beta_y` and
/// `-beta_y`, and whatever it rebuilds from the leader's evaluations at
/// `beta_y` with the party alphas ends in `eval`.
pub open spec fn hyper_bikzg_evals_complete(o: HyperBiKZGOpening, la: Seq<int>, ma: Seq<int>, eval: int) -> bool {
    exists|bx: int, by: int|
        #![trigger hyperkzg_beta_ok(bx, Fr::modulus()), hyperkzg_beta_ok(by, Fr::modulus())]
        {
            &&& hyperkzg_beta_ok(bx, Fr::modulus())
            &&& hyperkzg_beta_ok(by, Fr::modulus())
            &&& rebuilt_evals_end_in::<Fr>(
                o.aggregated_evals.beta_y2_evals.beta_x2_eval.value(),
                values(o.aggregated_evals.beta_y2_evals.pos_beta_x_evals@),
                values(o.aggregated_evals.beta_y2_evals.neg_beta_x_evals@),
                la,
                bx,
                o.leader_evals.beta_x2_eval.value(),
            )
            &&& rebuilt_evals_end_in::<Fr>(
                o.aggregated_evals.pos_beta_y_evals.beta_x2_eval.value(),
                values(o.aggregated_evals.pos_beta_y_evals.pos_beta_x_evals@),
                values(o.aggregated_evals.pos_beta_y_evals.neg_beta_x_evals@),
                la,
                bx,
                o.leader_evals.pos_beta_x_evals@[0].value(),
            )
            &&& rebuilt_evals_end_in::<Fr>(
                o.aggregated_evals.neg_beta_y_evals.beta_x2_eval.value(),
                values(o.aggregated_evals.neg_beta_y_evals.pos_beta_x_evals@),
                values(o.aggregated_evals.neg_beta_y_evals.neg_beta_x_evals@),
                la,
                bx,
                o.leader_evals.neg_beta_x_evals@[0].value(),
            )
            &&& rebuilt_evals_end_in::<Fr>(
                o.leader_evals.beta_x2_eval.value(),
                values(o.leader_evals.pos_beta_x_evals@),
                values(o.leader_evals.neg_beta_x_evals@),
                ma,
                by,
                eval,
            )
        }
}

/// The parties' evaluations combined at `y` rebuild, at `beta`, to the
/// combination at `y` of the parties' final values `fe`: the last
/// consistency relation is linear in the values at `beta` and `-beta`.
proof fn lemma_aggregated_evals_complete(
    agg: HyperKZGExportedLocalEvals<Fr>,
    es: Seq<HyperKZGExportedLocalEvals<Fr>>,
    locals: Seq<HyperKZGLocalEvals<Fr>>,
    fe: Seq<int>,
    la: Seq<int>,
    beta: int,
    y: int,
)
    requires
        la.len() >= 1,
        hyperkzg_beta_ok(beta, Fr::modulus()),
        aggregated_at(agg, es, la.len() as int, y),
        es.len() == locals.len(),
        fe.len() == locals.len(),
        forall|p: int|
            0 <= p < es.len() ==> {
                &&& (#[trigger] es[p]).pos_beta_x_evals@ == locals[p].pos_beta_evals@
                &&& es[p].neg_beta_x_evals@ == locals[p].neg_beta_evals@
                &&& locals[p].pos_beta_evals@.len() == la.len()
                &&& locals[p].neg_beta_evals@.len() == la.len()
                &&& locals[p].beta2_evals@.len() == la.len() + 1
                &&& beta2_consistent(
                    locals[p].beta2_evals@[la.len() as int].value(),
                    locals[p].pos_beta_evals@[la.len() - 1].value(),
                    locals[p].neg_beta_evals@[la.len() - 1].value(),
                    la[la.len() - 1],
                    beta,
                    Fr::modulus(),
                )
                &&& fe[p] == locals[p].beta2_evals@[la.len() as int].value()
            },
    ensures
        rebuilt_evals_end_in::<Fr>(
            agg.beta_x2_eval.value(),
            values(agg.pos_beta_x_evals@),
            values(agg.neg_beta_x_evals@),
            la,
            beta,
            poly_eval(fe, y) % Fr::modulus(),
        ),
{
    let m = Fr::modulus();
    let n = la.len() as int;
    let t = n - 1;
    Fr::lemma_modulus();
    crate::hyper_kzg::lemma_unit_mul(2, beta, m);
    let ps = Seq::new(es.len(), |p: int| locals[p].pos_beta_evals@[t].value());
    let ns = Seq::new(es.len(), |p: int| locals[p].neg_beta_evals@[t].value());
    assert(party_column(es, t) =~= ps) by {
        assert forall|p: int| 0 <= p < es.len() implies #[trigger] party_column(es, t)[p] == ps[p] by {
            assert(es[p].pos_beta_x_evals@ == locals[p].pos_beta_evals@);
        }
    }
    assert(party_column(es, n + t) =~= ns) by {
        assert forall|p: int| 0 <= p < es.len() implies #[trigger] party_column(es, n + t)[p] == ns[p] by {
            assert(es[p].pos_beta_x_evals@ == locals[p].pos_beta_evals@);
            assert(es[p].neg_beta_x_evals@ == locals[p].neg_beta_evals@);
        }
    }
    assert(exported_entry(agg, t).value() == poly_eval(ps, y) % m);
    assert(exported_entry(agg, n + t).value() == poly_eval(ns, y) % m);
    assert forall|p: int| 0 <= p < fe.len() implies beta2_consistent(#[trigger] fe[p], ps[p], ns[p], la[t], beta, m) by {
        let _ = es[p];
    }
    assert forall|le: HyperKZGLocalEvals<Fr>|
        #[trigger] evals_from_reported(
            le,
            agg.beta_x2_eval.value(),
            values(agg.pos_beta_x_evals@),
            values(agg.neg_beta_x_evals@),
            la,
            beta,
        ) implies le.beta2_evals@[le.beta2_evals@.len() - 1].value() == poly_eval(fe, y) % m by {
        assert(le.beta2_evals@.len() == n + 1);
        let _ = le.pos_beta_evals@[t];
        Fr::lemma_value_range(le.beta2_evals@[n]);
        vstd::arithmetic::div_mod::lemma_mod_twice(poly_eval(ps, y), m);
        vstd::arithmetic::div_mod::lemma_mod_twice(poly_eval(ns, y), m);
        lemma_consistent_combination(
            le.beta2_evals@[n].value(),
            values(agg.pos_beta_x_evals@)[t],
            values(agg.neg_beta_x_evals@)[t],
            fe,
            ps,
            ns,
            la[t],
            beta,
            y,
            m,
        );
    }
}

/// The parties' polynomials laid one after the other: the coefficients of
/// the global polynomial, whose highest variables are the party index.
pub open spec fn global_coeffs(coeffs_s: Seq<Vec<Fr>>, num_local_vars: nat) -> Seq<int> {
    blocks_flat(vec_values(coeffs_s), pow2(num_local_vars) as int)
}

/// The final quotient commitments of a multi-party opening are the
/// bivariate KZG opening of the leader at `dy`: the first is the sum of the
/// parties' openings `e` (one per party, as the reference string in `Y` has
/// powers), the second the commitment with `srs`'s powers in `Y` to the
/// quotient `q` of the parties' values by `Y - dy`, whose remainder is `v`.
pub open spec fn bikzg_final_quotients(
    o: HyperBiKZGOpening,
    e: Seq<(Fr, G1Point)>,
    v: int,
    q: Seq<int>,
    srs: CoefFormBiKZGLocalSRS,
    dy: int,
) -> bool {
    &&& e.len() == srs.tau_y_srs.powers_of_tau@.len()
    &&& o.quotient_delta_x_commitment@ == g1_sum(opening_views(e))
    &&& is_linear_division(evaluation_values(e), q, v, dy, fr_modulus())
    &&& o.quotient_delta_y_commitment@ == kzg_commitment_of(g1_views(srs.tau_y_srs.powers_of_tau@), q)
}

/// Opens, in one process for all parties, the multilinear polynomial whose
/// coefficients are shared among the parties (party `p` holding
/// `coeffs_s[p]`, with reference string `srs_s[p]`) at `local_alphas`
/// followed by `mpi_alphas`, as the parties and their leader would, with the
/// transcript synchronised wherever the leader broadcasts it. Returns the
/// evaluation and the opening; nothing when a challenge `beta` from the
/// transcript does not keep its evaluation points apart. With no party
/// variables this is HyperKZG for the one party. With party variables the
/// transcript takes in what the verifier's does (see
/// `bikzg_delta_y_history`), and the final quotient commitments are the
/// leader's bivariate KZG opening at the transcript's `delta_y` (see
/// `bikzg_final_quotients`).
pub fn coeff_form_hyper_bikzg_open_simulate<T: HyperKZGTranscript>(
    srs_s: &[CoefFormBiKZGLocalSRS],
    coeffs_s: &[Vec<Fr>],
    local_alphas: &[Fr],
    mpi_alphas: &[Fr],
    fs_transcript: &mut T,
) -> (r: Option<(Fr, HyperBiKZGOpening)>)
    requires
        local_alphas@.len() >= 1,
        mpi_alphas@.len() > 0 ==> local_alphas@.len() >= 2,
        coeffs_s@.len() == pow2(mpi_alphas@.len() as nat),
        srs_s@.len() == coeffs_s@.len(),
        forall|p: int|
            0 <= p < coeffs_s@.len() ==> (#[trigger] coeffs_s@[p])@.len() == pow2(local_alphas@.len() as nat)
                && srs_s@[p].tau_x_srs.powers_of_tau@.len() >= coeffs_s@[p]@.len(),
        mpi_alphas@.len() > 0 ==> srs_s@[0].tau_y_srs.powers_of_tau@.len() == coeffs_s@.len(),
    ensures
        r matches Some(o) ==> o.0.value() == mle_eval(
            global_coeffs(coeffs_s@, local_alphas@.len() as nat),
            values(local_alphas@) + values(mpi_alphas@),
        ) % Fr::modulus(),
        mpi_alphas@.len() > 0 ==> (r matches Some(o) ==> hyper_bikzg_evals_complete(
            o.1,
            values(local_alphas@),
            values(mpi_alphas@),
            o.0.value(),
        )),
        r matches Some(o) ==> o.1.folded_oracle_commitments@.len() == local_alphas@.len() + mpi_alphas@.len() - 1,
        mpi_alphas@.len() > 0 ==> (r matches Some(o) ==> final(fs_transcript).absorbed() == bikzg_delta_y_history(
            old(fs_transcript).absorbed(),
            o.1,
        ).push(TranscriptEntry::Challenge)),
        mpi_alphas@.len() > 0 ==> (r matches Some(o) ==> exists|e: Seq<(Fr, G1Point)>, v: int, q: Seq<int>|
            #[trigger] bikzg_final_quotients(
                o.1,
                e,
                v,
                q,
                srs_s@[0],
                T::challenge_after(bikzg_delta_y_history(old(fs_transcript).absorbed(), o.1)),
            )),
        mpi_alphas@.len() > 0 ==> (r is None ==> exists|h: TranscriptHistory|
            !hyperkzg_beta_ok(#[trigger] T::challenge_after(h), Fr::modulus()) || !hyperkzg_beta_ok(
                T::challenge_after(h.push(TranscriptEntry::Challenge)),
                Fr::modulus(),
            )),
        mpi_alphas@.len() == 0 ==> (r is Some <==> hyperkzg_beta_ok(
            hyperkzg_transcript_beta::<T>(
                old(fs_transcript).absorbed(),
                hyperkzg_fold_commitments(
                    g1_views(srs_s@[0].tau_x_srs.powers_of_tau@),
                    values(coeffs_s@[0]@),
                    values(local_alphas@),
                ),
            ),
            Fr::modulus(),
        )),
        mpi_alphas@.len() == 0 ==> (r matches Some(o) ==> final(fs_transcript).absorbed() == hyperkzg_tau_history(
            old(fs_transcript).absorbed(),
            g1_views(o.1.folded_oracle_commitments@),
            o.1.leader_evals,
            o.1.beta_x_commitment@,
        ).push(TranscriptEntry::Challenge)),
        mpi_alphas@.len() == 0 ==> (r matches Some(o) ==> hyperkzg_quotient_commitments(
            g1_views(srs_s@[0].tau_x_srs.powers_of_tau@),
            values(coeffs_s@[0]@),
            values(local_alphas@),
            o.1.leader_evals,
            hyperkzg_transcript_beta::<T>(old(fs_transcript).absorbed(), g1_views(o.1.folded_oracle_commitments@)),
            T::challenge_after(
                hyperkzg_gamma_history(old(fs_transcript).absorbed(), g1_views(o.1.folded_oracle_commitments@), o.1.leader_evals),
            ),
            T::challenge_after(
                hyperkzg_tau_history(
                    old(fs_transcript).absorbed(),
                    g1_views(o.1.folded_oracle_commitments@),
                    o.1.leader_evals,
                    o.1.beta_x_commitment@,
                ),
            ),
            o.1.beta_x_commitment@,
            o.1.quotient_delta_x_commitment@,
        )),
        mpi_alphas@.len() == 0 ==> (r matches Some(o) ==> forall|s: int, scale: int|
            #![trigger g1_powers_of(g1_views(srs_s@[0].tau_x_srs.powers_of_tau@), s, scale)]
            g1_powers_of(g1_views(srs_s@[0].tau_x_srs.powers_of_tau@), s, scale) ==> forall|i: int|
                0 <= i < o.1.folded_oracle_commitments@.len() ==> (#[trigger] o.1.folded_oracle_commitments@[i])@
                    == g1_generator_mul_of(
                    (poly_eval(fold_chain(values(coeffs_s@[0]@), values(local_alphas@), Fr::modulus(), (i + 1) as nat), s)
                        * scale) % fr_modulus(),
                )),
        mpi_alphas@.len() == 0 ==> (r matches Some(o) ==> g1_views(o.1.folded_oracle_commitments@)
            == hyperkzg_fold_commitments(
            g1_views(srs_s@[0].tau_x_srs.powers_of_tau@),
            values(coeffs_s@[0]@),
            values(local_alphas@),
        ) && o.1.leader_evals.pos_beta_x_evals@.len() == local_alphas@.len()
            && o.1.leader_evals.neg_beta_x_evals@.len() == local_alphas@.len() && rebuilt_evals_end_in::<Fr>(
            o.1.leader_evals.beta_x2_eval.value(),
            values(o.1.leader_evals.pos_beta_x_evals@),
            values(o.1.leader_evals.neg_beta_x_evals@),
            values(local_alphas@),
            hyperkzg_transcript_beta::<T>(old(fs_transcript).absorbed(), g1_views(o.1.folded_oracle_commitments@)),
            o.0.value(),
        )),
{
    let ghost m = Fr::modulus();
    let ghost la = values(local_alphas@);
    let ghost ma = values(mpi_alphas@);
    let ghost ts = vec_values(coeffs_s@);
    proof {
        Fr::lemma_modulus();
        lemma_pow2_pos(mpi_alphas@.len() as nat);
        assert forall|p: int| 0 <= p < ts.len() implies (#[trigger] ts[p]).len() == pow2(la.len() as nat) by {
            assert(ts[p] == values(coeffs_s@[p]@));
        }
        lemma_mle_blocks(ts, la, ma);
    }
    if mpi_alphas.len() == 0 {
        proof {
            assert(coeffs_s@.len() == 1) by {
                lemma2_to64();
            }
        }
        let opened = coeff_form_uni_hyperkzg_open(&srs_s[0].tau_x_srs, &coeffs_s[0], local_alphas, fs_transcript);
        return match opened {
            Some((eval, hyperkzg_opening)) => {
                proof {
                    assert(ma =~= Seq::<int>::empty());
                    let b = choose|b: int|
                        #[trigger] hyperkzg_beta_ok(b, Fr::modulus()) && rebuilt_evals_end_in::<Fr>(
                            hyperkzg_opening.evals_at_x.beta_x2_eval.value(),
                            values(hyperkzg_opening.evals_at_x.pos_beta_x_evals@),
                            values(hyperkzg_opening.evals_at_x.neg_beta_x_evals@),
                            values(local_alphas@),
                            b,
                            eval.value(),
                        );
                    assert(hyperkzg_beta_ok(b, Fr::modulus()));
                    let single = Seq::new(ts.len(), |p: int| mle_eval(ts[p], la));
                    assert(mle_eval(single, ma) == single[0]);
                    assert(ts[0] == values(coeffs_s@[0]@));
                }
                Some((eval, HyperBiKZGOpening::from_hyperkzg_opening(hyperkzg_opening)))
            },
            None => None,
        };
    }
    let world_size = coeffs_s.len();
    let num_local = local_alphas.len();
    let local_len = coeffs_s[0].len();
    proof {
        if num_local >= 64 {
            lemma2_to64();
            if num_local > 64 {
                lemma_pow2_strictly_increases(64, num_local as nat);
            }
        }
        assert(num_local < 64);
        lemma_pow2_pos(num_local as nat);
        lemma_pow2_unfold(mpi_alphas@.len() as nat);
        lemma_pow2_pos((mpi_alphas@.len() - 1) as nat);
        assert(world_size >= 2);
    }
    // each party folds its polynomial over the local variables
    let (folded_x_oracle_commits_s, folded_x_oracle_coeffs_s) = party_folds(srs_s, coeffs_s, local_alphas);
    let final_evals_at_x = final_evals_at_x(coeffs_s, &folded_x_oracle_coeffs_s, local_alphas);
    // the leader sums the parties' fold commitments, then folds over the party variables
    proof {
        assert forall|p: int| 0 <= p < folded_x_oracle_commits_s@.len() implies (#[trigger] folded_x_oracle_commits_s@[p])@.len()
            == num_local - 1 by {
            assert(hyperkzg_folds_honest(
                values(coeffs_s@[p]@),
                vec_values(folded_x_oracle_coeffs_s@[p]@),
                values(local_alphas@),
                Fr::modulus(),
            ));
        }
    }
    let folded_x_oracle_commits = sum_fold_commitments(&folded_x_oracle_commits_s, num_local - 1);
    let y_oracle_commit = coeff_form_uni_kzg_commit(&srs_s[0].tau_y_srs, final_evals_at_x.as_slice());
    proof {
        crate::hyper_kzg::lemma_pow2_divides(mpi_alphas@.len() as nat);
    }
    let (folded_y_oracle_commits, folded_y_oracle_coeffs) = coeff_form_hyperkzg_local_poly_oracles(
        &srs_s[0].tau_y_srs,
        &final_evals_at_x,
        mpi_alphas,
    );
    let mut folded_oracle_commitments: Vec<G1Point> = copy_commitments(&folded_x_oracle_commits);
    folded_oracle_commitments.push(y_oracle_commit);
    let mut i: usize = 0;
    while i < folded_y_oracle_commits.len()
        invariant
            i <= folded_y_oracle_commits@.len(),
            folded_oracle_commitments@.len() == num_local + i,
        decreases folded_y_oracle_commits@.len() - i,
    {
        folded_oracle_commitments.push(folded_y_oracle_commits[i]);
        i = i + 1;
    }
    let ghost h0 = fs_transcript.absorbed();
    append_commitments(&folded_oracle_commitments, fs_transcript);
    fs_transcript.verifier_sync(world_size);
    let ghost synced = fs_transcript.absorbed();
    let beta_x = fs_transcript.generate_challenge_field_element();
    let beta_y = fs_transcript.generate_challenge_field_element();
    if !hyperkzg_beta_check(beta_x) || !hyperkzg_beta_check(beta_y) {
        proof {
            assert(!hyperkzg_beta_ok(T::challenge_after(synced), Fr::modulus()) || !hyperkzg_beta_ok(
                T::challenge_after(synced.push(TranscriptEntry::Challenge)),
                Fr::modulus(),
            ));
        }
        return None;
    }
    // the parties evaluate their oracles at beta_x, -beta_x and beta_x^2
    let (folded_x_evals_s, exported_folded_x_evals_s) = party_local_evals(
        coeffs_s,
        &folded_x_oracle_coeffs_s,
        local_alphas,
        beta_x,
    );
    // the leader combines them through the party index at the beta_y points
    proof {
        assert(crate::hyper_kzg::is_power_of_two(world_size as int));
        assert(local_evals_of(
            folded_x_evals_s@[0],
            values(coeffs_s@[0]@),
            vec_values(folded_x_oracle_coeffs_s@[0]@),
            values(local_alphas@),
            beta_x.value(),
        ));
        assert(exported_well_formed(exported_folded_x_evals_s@[0]));
        assert forall|p: int| 0 <= p < exported_folded_x_evals_s@.len() implies exported_well_formed(
            #[trigger] exported_folded_x_evals_s@[p],
        ) && exported_folded_x_evals_s@[p].pos_beta_x_evals@.len() == exported_folded_x_evals_s@[0].pos_beta_x_evals@.len() by {
            let _ = folded_x_evals_s@[p];
            assert(exported_folded_x_evals_s@[p].pos_beta_x_evals@.len() == local_alphas@.len());
        }
    }
    let aggregated_evals = HyperKZGAggregatedEvals::new_from_exported_evals(exported_folded_x_evals_s.as_slice(), beta_y);
    let ghost fe = values(final_evals_at_x@);
    let ghost fy = vec_values(folded_y_oracle_coeffs@);
    proof {
        assert forall|i: int| 0 <= i < fy.len() implies #[trigger] fy[i] == fold_chain(fe, ma, m, (i + 1) as nat) by {
            assert(fy[i] == values(folded_y_oracle_coeffs@[i]@));
        }
        assert(hyperkzg_folds_honest(fe, fy, ma, m));
    }
    let root_evals = coeff_form_hyperkzg_local_evals(&final_evals_at_x, folded_y_oracle_coeffs.as_slice(), mpi_alphas, beta_y);
    proof {
        lemma_local_evals_complete(root_evals, fe, fy, ma, beta_y.value());
        lemma_reported_evals_complete(root_evals, fe, fy, ma, beta_y.value());
        let n = num_local as int;
        let locals = folded_x_evals_s@;
        let es = exported_folded_x_evals_s@;
        assert forall|p: int| 0 <= p < es.len() implies {
            &&& (#[trigger] es[p]).pos_beta_x_evals@ == locals[p].pos_beta_evals@
            &&& es[p].neg_beta_x_evals@ == locals[p].neg_beta_evals@
            &&& locals[p].pos_beta_evals@.len() == la.len()
            &&& locals[p].neg_beta_evals@.len() == la.len()
            &&& locals[p].beta2_evals@.len() == la.len() + 1
            &&& beta2_consistent(
                locals[p].beta2_evals@[la.len() as int].value(),
                locals[p].pos_beta_evals@[la.len() - 1].value(),
                locals[p].neg_beta_evals@[la.len() - 1].value(),
                la[la.len() - 1],
                beta_x.value(),
                m,
            )
            &&& fe[p] == locals[p].beta2_evals@[la.len() as int].value()
        } by {
            let c = values(coeffs_s@[p]@);
            let folded = vec_values(folded_x_oracle_coeffs_s@[p]@);
            assert(local_evals_of(locals[p], c, folded, la, beta_x.value()));
            assert(hyperkzg_folds_honest(c, folded, la, m));
            assert(local_rounds(folded.len() as int, n) == n);
            lemma_local_evals_complete(locals[p], c, folded, la, beta_x.value());
            assert(fe[p] == final_evals_at_x@[p].value());
        }
        let b = beta_y.value();
        lemma_aggregated_evals_complete(aggregated_evals.beta_y2_evals, es, locals, fe, la, beta_x.value(), b * b);
        lemma_aggregated_evals_complete(aggregated_evals.pos_beta_y_evals, es, locals, fe, la, beta_x.value(), b);
        lemma_aggregated_evals_complete(aggregated_evals.neg_beta_y_evals, es, locals, fe, la, beta_x.value(), -b);
        assert(local_rounds(fy.len() as int, ma.len() as int) == ma.len());
        assert(fe.take(fe.len() as int) =~= fe);
        assert(root_evals.pos_beta_evals@[0].value() == poly_eval(fe, b) % m);
        assert(root_evals.neg_beta_evals@[0].value() == poly_eval(fe, -b) % m);
    }
    let ghost before_evals = fs_transcript.absorbed();
    append_aggregated_evals(&aggregated_evals, fs_transcript);
    append_local_evals(&root_evals, fs_transcript);
    fs_transcript.verifier_sync(world_size);
    let ghost before_gamma = fs_transcript.absorbed();
    let gamma = fs_transcript.generate_challenge_field_element();
    // the leader's aggregate over the party variables, scaled by gamma^n
    let gamma_pow_series = powers_series(&gamma, num_local + 1);
    let gamma_n = gamma_pow_series[num_local];
    proof {
        lemma_aggregate_len_honest(fe, fy, ma, m, fy.len());
    }
    let f_gamma_global_unscaled = coeff_form_hyperkzg_local_oracle_polys_aggregate(
        final_evals_at_x.as_slice(),
        folded_y_oracle_coeffs.as_slice(),
        gamma,
    );
    let mut f_gamma_global: Vec<Fr> = Vec::new();
    let mut i: usize = 0;
    while i < f_gamma_global_unscaled.len()
        invariant
            i <= f_gamma_global_unscaled@.len(),
            f_gamma_global@.len() == i,
        decreases f_gamma_global_unscaled@.len() - i,
    {
        f_gamma_global.push(f_gamma_global_unscaled[i].times(&gamma_n));
        i = i + 1;
    }
    // each party aggregates its oracles, interpolates, and divides at the beta_x points
    let (f_gamma_s, lagrange_degree2_s, f_gamma_quotient_s) = party_gamma_phase(
        coeffs_s,
        &folded_x_oracle_coeffs_s,
        local_alphas,
        &folded_x_evals_s,
        beta_x,
        gamma,
        &f_gamma_global,
    );
    let mut f_gamma_quotient_com_x = coeff_form_uni_kzg_commit(&srs_s[0].tau_x_srs, f_gamma_quotient_s[0].as_slice());
    let mut p: usize = 1;
    while p < world_size
        invariant
            1 <= p <= world_size,
            world_size == coeffs_s@.len(),
            srs_s@.len() == world_size,
            f_gamma_quotient_s@.len() == world_size,
            forall|q: int|
                0 <= q < world_size ==> (#[trigger] f_gamma_quotient_s@[q])@.len() <= coeffs_s@[q]@.len(),
            forall|q: int|
                0 <= q < coeffs_s@.len() ==> (#[trigger] coeffs_s@[q])@.len() == pow2(local_alphas@.len() as nat)
                    && srs_s@[q].tau_x_srs.powers_of_tau@.len() >= coeffs_s@[q]@.len(),
        decreases world_size - p,
    {
        let com = coeff_form_uni_kzg_commit(&srs_s[p].tau_x_srs, f_gamma_quotient_s[p].as_slice());
        f_gamma_quotient_com_x = g1_add(&f_gamma_quotient_com_x, &com);
        p = p + 1;
    }
    fs_transcript.append_commitment(&f_gamma_quotient_com_x);
    fs_transcript.verifier_sync(world_size);
    let delta_x = fs_transcript.generate_challenge_field_element();
    // the parties' quadratics at delta_x, pooled at the leader
    let mut lagrange_degree2_delta_x: Vec<Fr> = Vec::new();
    let mut p: usize = 0;
    while p < world_size
        invariant
            p <= world_size,
            lagrange_degree2_s@.len() == world_size,
            lagrange_degree2_delta_x@.len() == p,
        decreases world_size - p,
    {
        let l = lagrange_degree2_s[p];
        let v = l[0].plus(&l[1].times(&delta_x)).plus(&l[2].times(&delta_x).times(&delta_x));
        lagrange_degree2_delta_x.push(v);
        p = p + 1;
    }
    let (_lagrange_degree2_delta_y, f_gamma_quotient_y) = leader_y_quotient(&lagrange_degree2_delta_x, beta_y);
    let f_gamma_quotient_com_y = coeff_form_uni_kzg_commit(&srs_s[0].tau_y_srs, f_gamma_quotient_y.as_slice());
    fs_transcript.append_commitment(&f_gamma_quotient_com_y);
    fs_transcript.verifier_sync(world_size);
    let delta_y = fs_transcript.generate_challenge_field_element();
    // the parties take the quotients off and open at delta_x; the leader opens at delta_y
    let beta_x2 = beta_x.times(&beta_x);
    let beta_y2 = beta_y.times(&beta_y);
    let delta_x_denom = delta_x.minus(&beta_x).times(&delta_x.minus(&beta_x2)).times(&delta_x.plus(&beta_x));
    let delta_y_denom = delta_y.minus(&beta_y).times(&delta_y.minus(&beta_y2)).times(&delta_y.plus(&beta_y));
    proof {
        assert forall|q: int| 0 <= q < f_gamma_s@.len() implies {
            &&& (#[trigger] f_gamma_s@[q])@.len() >= 1
            &&& f_gamma_quotient_s@[q]@.len() <= f_gamma_s@[q]@.len()
            &&& srs_s@[q].tau_x_srs.powers_of_tau@.len() >= f_gamma_s@[q]@.len()
        } by {
            assert(coeffs_s@[q]@.len() == pow2(local_alphas@.len() as nat));
        }
    }
    let evals_and_opens = party_final_openings(
        srs_s,
        &f_gamma_s,
        &f_gamma_quotient_s,
        &f_gamma_quotient_y,
        delta_x_denom,
        delta_y_denom,
        delta_x,
    );
    let ghost after_delta_y = fs_transcript.absorbed();
    let (leader_value, final_opening) = coeff_form_bi_kzg_open_leader(&srs_s[0], evals_and_opens.as_slice(), delta_y);
    let eval = root_evals.multilinear_final_eval();
    proof {
        let per_party = Seq::new(ts.len(), |p: int| mle_eval(ts[p], la));
        assert forall|p: int| 0 <= p < fe.len() implies #[trigger] (fe[p] % m) == per_party[p] % m by {
            assert(ts[p] == values(coeffs_s@[p]@));
            vstd::arithmetic::div_mod::lemma_mod_twice(mle_eval(ts[p], la), m);
        }
        lemma_mle_congruent(fe, per_party, ma, m);
    }
    let opening = HyperBiKZGOpening {
        folded_oracle_commitments,
        aggregated_evals,
        leader_evals: HyperKZGExportedLocalEvals::from_local_evals(root_evals),
        beta_x_commitment: f_gamma_quotient_com_x,
        beta_y_commitment: f_gamma_quotient_com_y,
        quotient_delta_x_commitment: final_opening.quotient_x,
        quotient_delta_y_commitment: final_opening.quotient_y,
    };
    proof {
        assert(hyperkzg_beta_ok(beta_x.value(), m) && hyperkzg_beta_ok(beta_y.value(), m));
        assert(hyper_bikzg_evals_complete(opening, la, ma, eval.value()));
        let lf = opening.leader_evals;
        assert(values(lf.pos_beta_x_evals@) == values(root_evals.pos_beta_evals@));
        assert(values(lf.neg_beta_x_evals@) == values(root_evals.neg_beta_evals@));
        assert(exported_evals_entries(lf) == local_evals_entries(root_evals));
        assert(synced == bikzg_beta_history(h0, opening));
        assert(before_gamma == bikzg_gamma_history(h0, opening));
        assert(delta_y.value() == T::challenge_after(bikzg_delta_y_history(h0, opening)));
        assert(fs_transcript.absorbed() == bikzg_delta_y_history(h0, opening).push(TranscriptEntry::Challenge));
        let e = evals_and_opens@;
        let q = choose|q: Seq<int>|
            #[trigger] is_linear_division(evaluation_values(e), q, leader_value.value(), delta_y.value(), Fr::modulus())
                && (forall|i: int| 0 <= i < q.len() ==> is_scalar(#[trigger] q[i]))
                && final_opening.quotient_y@ == kzg_commitment_of(g1_views(srs_s@[0].tau_y_srs.powers_of_tau@), q);
        assert(h0 == old(fs_transcript).absorbed());
        assert(bikzg_final_quotients(
            opening,
            e,
            leader_value.value(),
            q,
            srs_s@[0],
            T::challenge_after(bikzg_delta_y_history(old(fs_transcript).absorbed(), opening)),
        ));
        assert(exists|e2: Seq<(Fr, G1Point)>, v2: int, q2: Seq<int>|
            #[trigger] bikzg_final_quotients(
                opening,
                e2,
                v2,
                q2,
                srs_s@[0],
                T::challenge_after(bikzg_delta_y_history(old(fs_transcript).absorbed(), opening)),
            ));
    }
    let ghost returned = Some((eval, opening));
    assert(returned matches Some(o) ==> o.1 == opening);
    Some((eval, opening))
}

} // verus!
