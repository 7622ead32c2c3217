use poly_commit::field::Field;
use poly_commit::fr::Fr;
use poly_commit::gf2::GF2;
use poly_commit::hyper_kzg::{
    coeff_form_hyperkzg_local_evals, coeff_form_hyperkzg_local_folded_coeffs,
    coeff_form_hyperkzg_local_oracle_polys_aggregate, HyperKZGAggregatedEvals,
    HyperKZGExportedLocalEvals, HyperKZGLocalEvals,
};
use poly_commit::m31::M31;
use poly_commit::multilinear::MultiLinearPoly;
use poly_commit::univariate::{
    coeff_form_degree2_lagrange, powers_series, univariate_evaluate, univariate_roots_quotient,
};
use rand::rngs::StdRng;
use rand::{Rng, SeedableRng};

fn fr(v: u64) -> Fr {
    Fr::from_u64(v)
}

fn m31(v: u64) -> M31 {
    M31::from_u64(v)
}

fn random_fr(rng: &mut StdRng) -> Fr {
    // a sum of products spreads the value over the whole field
    let a = fr(rng.gen::<u64>());
    let b = fr(rng.gen::<u64>());
    let c = fr(rng.gen::<u64>());
    a.times(&b).plus(&c)
}

fn eval_at<F: Field>(coeffs: &[F], x: &F) -> F {
    let powers = powers_series(x, coeffs.len().max(1));
    univariate_evaluate(coeffs, &powers)
}

#[test]
fn inverse_in_each_field() {
    let three = m31(3);
    let inv = three.inverse().unwrap();
    assert_eq!(inv.times(&three), m31(1));
    assert_eq!(inv, m31(1431655765));
    assert!(m31(0).inverse().is_none());
    assert_eq!(m31(1).inverse(), Some(m31(1)));
    // the modulus itself is zero
    assert!(M31::new(2147483647).inverse().is_none());

    assert_eq!(GF2::new(1).inverse(), Some(GF2::new(1)));
    assert!(GF2::new(0).inverse().is_none());

    let seven = fr(7);
    assert_eq!(seven.inverse().unwrap().times(&seven), fr(1));
    assert!(fr(0).inverse().is_none());
}

#[test]
fn degree2_lagrange_interpolates() {
    // x^2 + 2x + 3 takes 6, 11, 18 at 1, 2, 3
    let coeffs = coeff_form_degree2_lagrange([fr(1), fr(2), fr(3)], [fr(6), fr(11), fr(18)]);
    assert_eq!(coeffs, [fr(3), fr(2), fr(1)]);

    let coeffs = coeff_form_degree2_lagrange([m31(1), m31(2), m31(3)], [m31(6), m31(11), m31(18)]);
    assert_eq!(coeffs, [m31(3), m31(2), m31(1)]);

    // through three arbitrary points
    let mut rng = StdRng::seed_from_u64(21);
    let roots = [random_fr(&mut rng), random_fr(&mut rng), random_fr(&mut rng)];
    let evals = [random_fr(&mut rng), random_fr(&mut rng), random_fr(&mut rng)];
    let coeffs = coeff_form_degree2_lagrange(roots, evals);
    for i in 0..3 {
        assert_eq!(eval_at(&coeffs, &roots[i]), evals[i]);
    }
}

#[test]
fn roots_quotient_divides_out_roots() {
    // (x - 1)(x - 2)(x + 5) = x^3 + 2x^2 - 13x + 10
    let coeffs = vec![m31(10), m31(13).negate(), m31(2), m31(1)];
    let q = univariate_roots_quotient(coeffs, &[m31(1), m31(2)]);
    assert_eq!(q, vec![m31(5), m31(1)]);

    let coeffs = vec![fr(10), fr(13).negate(), fr(2), fr(1)];
    let q = univariate_roots_quotient(coeffs.clone(), &[fr(2), fr(5).negate(), fr(1)]);
    assert_eq!(q, vec![fr(1)]);

    let q = univariate_roots_quotient(coeffs.clone(), &[]);
    assert_eq!(q, coeffs);
}

fn hyperkzg_setup(
    num_vars: usize,
    seed: u64,
) -> (Vec<Fr>, Vec<Fr>, Fr, Vec<Vec<Fr>>, HyperKZGLocalEvals<Fr>) {
    let mut rng = StdRng::seed_from_u64(seed);
    let coeffs: Vec<Fr> = (0..1usize << num_vars).map(|_| random_fr(&mut rng)).collect();
    let alphas: Vec<Fr> = (0..num_vars).map(|_| random_fr(&mut rng)).collect();
    let beta = random_fr(&mut rng);
    let folded = coeff_form_hyperkzg_local_folded_coeffs(&coeffs, &alphas);
    let evals = coeff_form_hyperkzg_local_evals(&coeffs, &folded, &alphas, beta);
    (coeffs, alphas, beta, folded, evals)
}

#[test]
fn hyperkzg_folds_halve() {
    let (coeffs, alphas, _, folded, _) = hyperkzg_setup(4, 1);
    assert_eq!(folded.len(), 3);
    assert_eq!(folded[0].len(), 8);
    assert_eq!(folded[2].len(), 2);
    // entry 0 of the first fold interpolates coefficients 0 and 1
    let a = alphas[0];
    let expected = fr(1).minus(&a).times(&coeffs[0]).plus(&a.times(&coeffs[1]));
    assert_eq!(folded[0][0], expected);
}

#[test]
fn hyperkzg_final_eval_is_multilinear_eval() {
    for num_vars in 1..=6 {
        let (coeffs, alphas, _, _, evals) = hyperkzg_setup(num_vars, num_vars as u64);
        let poly = MultiLinearPoly { coeffs: coeffs.clone() };
        assert_eq!(evals.multilinear_final_eval(), poly.evaluate_jolt(&alphas));
        assert_eq!(evals.beta2_evals.len(), num_vars + 1);
        assert_eq!(evals.pos_beta_evals.len(), num_vars);
    }
}

#[test]
fn hyperkzg_beta2_evals_match_the_folds() {
    let (coeffs, _, beta, folded, evals) = hyperkzg_setup(5, 77);
    let beta2 = beta.times(&beta);
    assert_eq!(evals.beta2_evals[0], eval_at(&coeffs, &beta2));
    for (i, f) in folded.iter().enumerate() {
        assert_eq!(evals.beta2_evals[i + 1], eval_at(f, &beta2));
        assert_eq!(evals.pos_beta_evals[i + 1], eval_at(f, &beta));
        assert_eq!(evals.neg_beta_evals[i + 1], eval_at(f, &beta.negate()));
    }
}

#[test]
fn hyperkzg_exported_evals_rebuild_the_local_ones() {
    let (_, alphas, beta, _, evals) = hyperkzg_setup(4, 5);
    let exported = HyperKZGExportedLocalEvals::from_local_evals(evals.clone());
    assert_eq!(exported.len(), 9);
    assert_eq!(exported.index(0), evals.pos_beta_evals[0]);
    assert_eq!(exported.index(5), evals.neg_beta_evals[1]);
    assert_eq!(exported.index(8), evals.beta2_evals[0]);
    let rebuilt = HyperKZGLocalEvals::new_from_exported_evals(&exported, &alphas, beta);
    assert_eq!(rebuilt.beta2_evals, evals.beta2_evals);
    assert_eq!(rebuilt.pos_beta_evals, evals.pos_beta_evals);
    assert_eq!(rebuilt.neg_beta_evals, evals.neg_beta_evals);
}

#[test]
fn hyperkzg_exported_index_set() {
    let mut e = HyperKZGExportedLocalEvals::<M31>::new(2);
    assert_eq!(e.len(), 5);
    e.index_set(0, m31(1));
    e.index_set(3, m31(4));
    e.index_set(4, m31(5));
    assert_eq!(e.pos_beta_x_evals, vec![m31(1), m31(0)]);
    assert_eq!(e.neg_beta_x_evals, vec![m31(0), m31(4)]);
    assert_eq!(e.beta_x2_eval, m31(5));
    assert_eq!(e.index(3), m31(4));
}

#[test]
fn hyperkzg_gamma_aggregation_and_interpolation() {
    let evals = HyperKZGLocalEvals {
        beta2_evals: vec![m31(1), m31(2), m31(3)],
        pos_beta_evals: vec![m31(4), m31(5)],
        neg_beta_evals: vec![m31(6), m31(7)],
    };
    // only the first two beta^2 values are combined
    let (v2, v1, v0) = evals.gamma_aggregate_evals(m31(10));
    assert_eq!((v2, v1, v0), (m31(21), m31(54), m31(76)));
    let beta = m31(3);
    let quad = evals.interpolate_degree2_aggregated_evals(beta, m31(10));
    assert_eq!(eval_at(&quad, &beta), v1);
    assert_eq!(eval_at(&quad, &beta.negate()), v0);
    assert_eq!(eval_at(&quad, &m31(9)), v2);
}

#[test]
fn hyperkzg_oracle_polys_aggregate() {
    let coeffs = vec![m31(1), m31(2), m31(3), m31(4)];
    let folded = vec![vec![m31(5), m31(6)], vec![m31(7)]];
    let agg = coeff_form_hyperkzg_local_oracle_polys_aggregate(&coeffs, &folded, m31(10));
    // 1 + 10 * 5 + 100 * 7, 2 + 10 * 6, 3, 4
    assert_eq!(agg, vec![m31(751), m31(62), m31(3), m31(4)]);
}

#[test]
fn hyperkzg_aggregated_evals_combine_parties() {
    let party = |a: u64| HyperKZGExportedLocalEvals {
        beta_x2_eval: m31(a),
        pos_beta_x_evals: vec![m31(a + 1)],
        neg_beta_x_evals: vec![m31(a + 2)],
    };
    let parties = vec![party(10), party(20)];
    let agg = HyperKZGAggregatedEvals::new_from_exported_evals(&parties, m31(3));
    // entry i combines party 0 + party 1 * y for y = 9, 3, -3
    assert_eq!(agg.beta_y2_evals.index(0), m31(11 + 21 * 9));
    assert_eq!(agg.pos_beta_y_evals.index(1), m31(12 + 22 * 3));
    assert_eq!(agg.neg_beta_y_evals.index(2), m31(10).minus(&m31(60)));
}
