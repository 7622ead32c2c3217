use halo2curves::bn256::{G1Affine, G2Affine, G1};
use halo2curves::group::prime::PrimeCurveAffine;
use halo2curves::group::{Curve, UncompressedEncoding};
use poly_commit::field::Field;
use poly_commit::fr::Fr;
use poly_commit::group::{G1Point, G2Point};
use poly_commit::hyper_kzg::HyperKZGExportedLocalEvals;
use poly_commit::kzg::append_exported_evals;
use poly_commit::kzg::{
    coeff_form_bi_kzg_open_leader, coeff_form_bi_kzg_verify, coeff_form_uni_hyperkzg_open,
    coeff_form_uni_hyperkzg_verify, coeff_form_uni_kzg_commit, coeff_form_uni_kzg_open_eval,
    coeff_form_uni_kzg_verify, generate_coef_form_bi_kzg_local_srs_for_testing,
    generate_coef_form_uni_kzg_srs_for_testing, kzg_single_point_batch_open,
    kzg_single_point_batch_verify, BiKZGVerifierParam, ChallengeValue, CoefFormBiKZGLocalSRS, HyperKZGTranscript,
    TranscriptHistory,
    PairingAccumulator, UniKZGVerifierParams,
};
use poly_commit::hyper_bikzg::{coeff_form_hyper_bikzg_open_simulate, coeff_form_hyper_bikzg_verify};
use poly_commit::multilinear::MultiLinearPoly;
use rand::rngs::StdRng;
use rand::{Rng, SeedableRng};

/// A transcript that hashes what it absorbs (FNV-1a) into its challenges.
struct TestTranscript {
    state: u64,
}

impl TestTranscript {
    fn new() -> Self {
        TestTranscript {
            state: 0xcbf29ce484222325,
        }
    }

    fn absorb(&mut self, bytes: &[u8]) {
        for b in bytes {
            self.state ^= *b as u64;
            self.state = self.state.wrapping_mul(0x100000001b3);
        }
    }
}

impl HyperKZGTranscript for TestTranscript {
    fn absorbed(&self) -> TranscriptHistory {
        unreachable!()
    }

    fn challenge_after(_history: TranscriptHistory) -> ChallengeValue {
        unreachable!()
    }

    fn append_field_element(&mut self, f: &Fr) {
        let s = format!("{:?}", f);
        self.absorb(s.as_bytes());
    }

    fn append_commitment(&mut self, p: &G1Point) {
        self.absorb(&p.raw);
    }

    fn generate_challenge_field_element(&mut self) -> Fr {
        self.absorb(b"challenge");
        let a = Fr::from_u64(self.state);
        self.absorb(b"again");
        a.times(&Fr::from_u64(self.state)).plus(&Fr::from_u64(7))
    }

    fn verifier_sync(&mut self, world_size: usize) {
        if world_size > 1 {
            self.absorb(b"sync");
        }
    }
}

fn g1_point(p: &G1Affine) -> G1Point {
    G1Point { raw: p.to_uncompressed().into() }
}

fn g2_point(p: &G2Affine) -> G2Point {
    G2Point { raw: p.to_uncompressed().into() }
}

fn g1_affine(p: &G1Point) -> G1Affine {
    G1Affine::from_uncompressed(&p.raw.into()).unwrap()
}

fn fr(v: u64) -> Fr {
    Fr::from_u64(v)
}

fn random_fr(rng: &mut StdRng) -> Fr {
    fr(rng.gen::<u64>()).times(&fr(rng.gen::<u64>())).plus(&fr(rng.gen::<u64>()))
}

fn check_univariate_kzg_e2e() {
    // \prod_{i \in [1, 7]} (x + i)
    let poly = vec![
        fr(5040),
        fr(13068),
        fr(13132),
        fr(6769),
        fr(1960),
        fr(322),
        fr(28),
        fr(1),
    ];
    let alpha = fr(3);
    let eval = fr(604800);

    let mut rng = StdRng::seed_from_u64(0);
    let srs = generate_coef_form_uni_kzg_srs_for_testing(8, &mut rng);
    let vk = UniKZGVerifierParams::from_srs(&srs);
    let com = coeff_form_uni_kzg_commit(&srs, &poly);

    let (actual_eval, opening) = coeff_form_uni_kzg_open_eval(&srs, &poly, alpha);
    assert_eq!(actual_eval, eval);
    assert!(coeff_form_uni_kzg_verify(vk, com, alpha, eval, opening))
}

fn check_univariate_kzg_constant_e2e() {
    let poly = vec![fr(100)];
    let alpha = fr(3);
    let eval = fr(100);

    let mut rng = StdRng::seed_from_u64(0);
    let srs = generate_coef_form_uni_kzg_srs_for_testing(8, &mut rng);
    let vk = UniKZGVerifierParams::from_srs(&srs);
    let com = coeff_form_uni_kzg_commit(&srs, &poly);

    let (actual_eval, opening) = coeff_form_uni_kzg_open_eval(&srs, &poly, alpha);
    assert_eq!(actual_eval, eval);
    assert!(coeff_form_uni_kzg_verify(vk, com, alpha, eval, opening))
}

#[test]
fn tests_test_coefficient_form_univariate_kzg_e2e() {
    check_univariate_kzg_e2e();
}

#[test]
fn univariate_test_coefficient_form_univariate_kzg_e2e() {
    check_univariate_kzg_e2e();
}

#[test]
fn tests_test_coefficient_form_univariate_kzg_constant_e2e() {
    check_univariate_kzg_constant_e2e();
}

#[test]
fn univariate_test_coefficient_form_univariate_kzg_constant_e2e() {
    check_univariate_kzg_constant_e2e();
}

#[test]
fn kzg_rejects_a_wrong_evaluation() {
    let poly = vec![fr(1), fr(2), fr(3)];
    let mut rng = StdRng::seed_from_u64(4);
    let srs = generate_coef_form_uni_kzg_srs_for_testing(4, &mut rng);
    let com = coeff_form_uni_kzg_commit(&srs, &poly);
    let (eval, opening) = coeff_form_uni_kzg_open_eval(&srs, &poly, fr(2));
    // 1 + 2 * 2 + 3 * 4
    assert_eq!(eval, fr(17));
    let vk = UniKZGVerifierParams::from_srs(&srs);
    assert!(!coeff_form_uni_kzg_verify(vk, com, fr(2), fr(18), opening));
}

#[test]
fn hyperkzg_open_verify_round_trip() {
    let mut rng = StdRng::seed_from_u64(0);
    let max_vars = 8;
    let max_length = 1 << max_vars;

    let srs = generate_coef_form_uni_kzg_srs_for_testing(max_length, &mut rng);
    (2..max_vars).for_each(|vars| {
        let coeffs: Vec<Fr> = (0..1usize << vars).map(|_| random_fr(&mut rng)).collect();
        let multilinear = MultiLinearPoly { coeffs };
        let alphas: Vec<Fr> = (0..vars).map(|_| random_fr(&mut rng)).collect();

        let vk = UniKZGVerifierParams::from_srs(&srs);
        let com = coeff_form_uni_kzg_commit(&srs, &multilinear.coeffs);
        let mut fs_transcript = TestTranscript::new();

        let (eval, opening) =
            coeff_form_uni_hyperkzg_open(&srs, &multilinear.coeffs, &alphas, &mut fs_transcript)
                .unwrap();
        assert_eq!(eval, multilinear.evaluate_jolt(&alphas));

        let mut fs_transcript = TestTranscript::new();
        assert!(coeff_form_uni_hyperkzg_verify(
            vk,
            com,
            &alphas,
            eval,
            &opening,
            &mut fs_transcript
        ));
    });
}

#[test]
fn hyperkzg_rejects_a_wrong_evaluation() {
    let mut rng = StdRng::seed_from_u64(3);
    let srs = generate_coef_form_uni_kzg_srs_for_testing(16, &mut rng);
    let coeffs: Vec<Fr> = (0..16).map(|_| random_fr(&mut rng)).collect();
    let alphas: Vec<Fr> = (0..4).map(|_| random_fr(&mut rng)).collect();
    let com = coeff_form_uni_kzg_commit(&srs, &coeffs);
    let mut fs_transcript = TestTranscript::new();
    let (eval, opening) =
        coeff_form_uni_hyperkzg_open(&srs, &coeffs, &alphas, &mut fs_transcript).unwrap();
    let vk = UniKZGVerifierParams::from_srs(&srs);
    let mut fs_transcript = TestTranscript::new();
    assert!(!coeff_form_uni_hyperkzg_verify(
        vk,
        com,
        &alphas,
        eval.plus(&fr(1)),
        &opening,
        &mut fs_transcript
    ));
}

fn check_bivariate_kzg_e2e() {
    let x_degree = 15;
    let y_degree = 7;

    let party_srs: Vec<CoefFormBiKZGLocalSRS> = (0..=y_degree)
        .map(|rank| {
            let mut rng = StdRng::seed_from_u64(0);
            generate_coef_form_bi_kzg_local_srs_for_testing(x_degree + 1, y_degree + 1, rank, &mut rng)
        })
        .collect();

    let mut rng = StdRng::seed_from_u64(1);
    let xy_coeffs: Vec<Vec<Fr>> = (0..=y_degree)
        .map(|_| (0..=x_degree).map(|_| random_fr(&mut rng)).collect())
        .collect();

    let commitments: Vec<G1Point> = party_srs
        .iter()
        .zip(&xy_coeffs)
        .map(|(srs, x_coeffs)| coeff_form_uni_kzg_commit(&srs.tau_x_srs, x_coeffs))
        .collect();

    let global_commitment_g1: G1 = commitments.iter().map(|c| g1_affine(c).to_curve()).sum::<G1>();
    let global_commitment: G1Point = g1_point(&global_commitment_g1.to_affine());

    let alpha = random_fr(&mut rng);
    let evals_and_opens: Vec<(Fr, G1Point)> = party_srs
        .iter()
        .zip(&xy_coeffs)
        .map(|(srs, x_coeffs)| coeff_form_uni_kzg_open_eval(&srs.tau_x_srs, x_coeffs, alpha))
        .collect();

    let beta = random_fr(&mut rng);
    let (final_eval, final_opening) =
        coeff_form_bi_kzg_open_leader(&party_srs[0], &evals_and_opens, beta);

    let vk = BiKZGVerifierParam::from_srs(&party_srs[0]);
    assert!(coeff_form_bi_kzg_verify(
        vk,
        global_commitment,
        alpha,
        beta,
        final_eval,
        final_opening,
    ));
}

#[test]
fn bivariate_test_coefficient_form_bivariate_kzg_e2e() {
    check_bivariate_kzg_e2e();
}

#[test]
fn tests_test_coefficient_form_bivariate_kzg_e2e() {
    check_bivariate_kzg_e2e();
}

#[test]
fn bi_kzg_leader_evaluates_the_party_values() {
    let mut rng = StdRng::seed_from_u64(0);
    let srs = generate_coef_form_bi_kzg_local_srs_for_testing(2, 4, 0, &mut rng);
    let g = g1_point(&G1Affine::generator());
    let opens = vec![(fr(1), g), (fr(2), g), (fr(3), g), (fr(4), g)];
    // 1 + 2 * 2 + 3 * 4 + 4 * 8
    let (eval, _) = coeff_form_bi_kzg_open_leader(&srs, &opens, fr(2));
    assert_eq!(eval, fr(49));
}

#[test]
fn pairing_accumulator_checks_all_pairs() {
    let mut acc = PairingAccumulator::new();
    assert!(acc.final_check());
    let g1 = G1Affine::generator();
    let g2 = g2_point(&G2Affine::generator());
    // e(g1, g2) e(-g1, g2) = 1
    acc.accumulate(&(g1_point(&g1), g2));
    acc.accumulate(&(g1_point(&-g1), g2));
    assert!(acc.final_check());
    acc.accumulate(&(g1_point(&g1), g2));
    assert!(!acc.final_check());
}

#[test]
fn kzg_single_point_batch_round_trip() {
    let mut rng = StdRng::seed_from_u64(12);
    let srs = generate_coef_form_uni_kzg_srs_for_testing(16, &mut rng);
    let polys: Vec<MultiLinearPoly<Fr>> = (0..3)
        .map(|_| MultiLinearPoly {
            coeffs: (0..16).map(|_| random_fr(&mut rng)).collect(),
        })
        .collect();
    let x: Vec<Fr> = (0..4).map(|_| random_fr(&mut rng)).collect();
    let commitments: Vec<G1Point> = polys
        .iter()
        .map(|p| coeff_form_uni_kzg_commit(&srs, &p.coeffs))
        .collect();
    let mut transcript = TestTranscript::new();
    let (evals, opening) = kzg_single_point_batch_open(&srs, &polys, &x, &mut transcript).unwrap();
    for (e, p) in evals.iter().zip(&polys) {
        assert_eq!(*e, p.evaluate_jolt(&x));
    }
    let vk = UniKZGVerifierParams::from_srs(&srs);
    let mut transcript = TestTranscript::new();
    assert!(kzg_single_point_batch_verify(
        &vk,
        &commitments,
        &x,
        &evals,
        &opening,
        &mut transcript
    ));
    let mut wrong = evals.clone();
    wrong[1] = wrong[1].plus(&fr(1));
    let mut transcript = TestTranscript::new();
    assert!(!kzg_single_point_batch_verify(
        &vk,
        &commitments,
        &x,
        &wrong,
        &opening,
        &mut transcript
    ));
}

fn check_hyper_bikzg_simulated(x_vars: usize, y_vars: usize, seed: u64) {
    let x_degree = (1usize << x_vars) - 1;
    let y_degree = (1usize << y_vars) - 1;

    let mut rng = StdRng::seed_from_u64(seed);

    let local_alphas: Vec<Fr> = (0..x_vars).map(|_| random_fr(&mut rng)).collect();
    let mpi_alphas: Vec<Fr> = (0..y_vars).map(|_| random_fr(&mut rng)).collect();

    // every party draws the same secrets
    let party_srs: Vec<CoefFormBiKZGLocalSRS> = (0..=y_degree)
        .map(|rank| {
            let mut srs_rng = StdRng::seed_from_u64(seed + 1);
            generate_coef_form_bi_kzg_local_srs_for_testing(
                x_degree + 1,
                y_degree + 1,
                rank,
                &mut srs_rng,
            )
        })
        .collect();

    let xy_coeffs: Vec<Vec<Fr>> = (0..=y_degree)
        .map(|_| (0..=x_degree).map(|_| random_fr(&mut rng)).collect())
        .collect();

    let mut all_alphas = local_alphas.clone();
    all_alphas.extend_from_slice(&mpi_alphas);

    let eval = {
        let global_poly_coeffs: Vec<Fr> = xy_coeffs.iter().flatten().cloned().collect();
        MultiLinearPoly { coeffs: global_poly_coeffs }.evaluate_jolt(&all_alphas)
    };

    let global_commitment: G1Point = {
        let global: G1 = party_srs
            .iter()
            .zip(&xy_coeffs)
            .map(|(srs, x_coeffs)| g1_affine(&coeff_form_uni_kzg_commit(&srs.tau_x_srs, x_coeffs)).to_curve())
            .sum();
        g1_point(&global.to_affine())
    };

    let mut fs_transcript = TestTranscript::new();
    let (opened_eval, opening) = coeff_form_hyper_bikzg_open_simulate(
        &party_srs,
        &xy_coeffs,
        &local_alphas,
        &mpi_alphas,
        &mut fs_transcript,
    )
    .unwrap();
    assert_eq!(opened_eval, eval);

    let vk = BiKZGVerifierParam::from_srs(&party_srs[0]);
    let mut verifier_transcript = TestTranscript::new();
    assert!(coeff_form_hyper_bikzg_verify(
        &vk,
        &local_alphas,
        &mpi_alphas,
        eval,
        global_commitment,
        &opening,
        &mut verifier_transcript,
    ));

    let mut verifier_transcript = TestTranscript::new();
    assert!(!coeff_form_hyper_bikzg_verify(
        &vk,
        &local_alphas,
        &mpi_alphas,
        eval.plus(&fr(1)),
        global_commitment,
        &opening,
        &mut verifier_transcript,
    ));
}

#[test]
fn hyper_bikzg_eight_parties_round_trip() {
    check_hyper_bikzg_simulated(8, 3, 0);
}

#[test]
fn hyper_bikzg_two_parties_round_trip() {
    check_hyper_bikzg_simulated(2, 1, 5);
}

#[test]
fn hyper_bikzg_without_party_variables_is_hyperkzg() {
    check_hyper_bikzg_simulated(4, 0, 9);
}

#[test]
fn kzg_commitment_of_a_constant_is_a_multiple_of_the_generator() {
    let mut rng = StdRng::seed_from_u64(21);
    let srs = generate_coef_form_uni_kzg_srs_for_testing(4, &mut rng);
    let com = coeff_form_uni_kzg_commit(&srs, &[fr(5)]);
    let expected = (G1Affine::generator() * halo2curves::bn256::Fr::from(5u64)).to_affine();
    assert_eq!(com, g1_point(&expected));
    // the first power of the reference string is the generator itself
    assert_eq!(srs.powers_of_tau[0], g1_point(&G1Affine::generator()));
}

#[test]
fn kzg_rejects_an_opening_of_another_point() {
    let poly = vec![fr(4), fr(0), fr(1)];
    let mut rng = StdRng::seed_from_u64(22);
    let srs = generate_coef_form_uni_kzg_srs_for_testing(4, &mut rng);
    let com = coeff_form_uni_kzg_commit(&srs, &poly);
    let (eval, opening) = coeff_form_uni_kzg_open_eval(&srs, &poly, fr(3));
    // 4 + 9
    assert_eq!(eval, fr(13));
    let vk = UniKZGVerifierParams::from_srs(&srs);
    assert!(!coeff_form_uni_kzg_verify(vk, com, fr(2), eval, opening));
}

#[test]
fn bi_kzg_leader_sums_the_party_openings() {
    let mut rng = StdRng::seed_from_u64(23);
    let srs = generate_coef_form_bi_kzg_local_srs_for_testing(2, 2, 0, &mut rng);
    let g = G1Affine::generator();
    let a = g1_point(&(g * halo2curves::bn256::Fr::from(2u64)).to_affine());
    let b = g1_point(&(g * halo2curves::bn256::Fr::from(3u64)).to_affine());
    let (_, proof) = coeff_form_bi_kzg_open_leader(&srs, &[(fr(1), a), (fr(1), b)], fr(5));
    let expected = g1_point(&(g * halo2curves::bn256::Fr::from(5u64)).to_affine());
    assert_eq!(proof.quotient_x, expected);
}

/// A transcript that records what it takes in.
struct RecordingTranscript {
    scalars: Vec<Fr>,
    points: usize,
}

impl HyperKZGTranscript for RecordingTranscript {
    fn absorbed(&self) -> TranscriptHistory {
        unreachable!()
    }

    fn challenge_after(_history: TranscriptHistory) -> ChallengeValue {
        unreachable!()
    }

    fn append_field_element(&mut self, f: &Fr) {
        self.scalars.push(*f);
    }

    fn append_commitment(&mut self, _p: &G1Point) {
        self.points += 1;
    }

    fn generate_challenge_field_element(&mut self) -> Fr {
        fr(self.scalars.len() as u64 + 2)
    }

    fn verifier_sync(&mut self, _world_size: usize) {}
}

#[test]
fn exported_evaluations_are_appended_in_turn() {
    let evals = HyperKZGExportedLocalEvals {
        beta_x2_eval: fr(1),
        pos_beta_x_evals: vec![fr(2), fr(4)],
        neg_beta_x_evals: vec![fr(3), fr(5)],
    };
    let mut t = RecordingTranscript { scalars: vec![], points: 0 };
    append_exported_evals(&evals, &mut t);
    assert_eq!(t.scalars, vec![fr(1), fr(2), fr(3), fr(4), fr(5)]);
    assert_eq!(t.points, 0);
}

#[test]
fn hyperkzg_opening_has_one_fold_commitment_per_alpha_but_the_last() {
    let mut rng = StdRng::seed_from_u64(31);
    let srs = generate_coef_form_uni_kzg_srs_for_testing(32, &mut rng);
    let coeffs: Vec<Fr> = (0..32).map(|_| random_fr(&mut rng)).collect();
    let alphas: Vec<Fr> = (0..5).map(|_| random_fr(&mut rng)).collect();
    let mut fs_transcript = TestTranscript::new();
    let (_, opening) = coeff_form_uni_hyperkzg_open(&srs, &coeffs, &alphas, &mut fs_transcript).unwrap();
    assert_eq!(opening.folded_oracle_commitments.len(), 4);
    assert_eq!(opening.evals_at_x.pos_beta_x_evals.len(), 5);
    assert_eq!(opening.evals_at_x.neg_beta_x_evals.len(), 5);
}

#[test]
fn bi_kzg_reference_string_starts_with_the_generator() {
    let mut rng = StdRng::seed_from_u64(32);
    let srs = generate_coef_form_bi_kzg_local_srs_for_testing(4, 2, 0, &mut rng);
    let g = g1_point(&G1Affine::generator());
    // tau_x^0 tau_y^0 and tau_y^0
    assert_eq!(srs.tau_x_srs.powers_of_tau[0], g);
    assert_eq!(srs.tau_y_srs.powers_of_tau[0], g);
    assert_eq!(srs.tau_x_srs.powers_of_tau.len(), 4);
    assert_eq!(srs.tau_y_srs.powers_of_tau.len(), 2);
}

#[test]
fn transcript_challenges_follow_what_was_taken_in() {
    // two transcripts that take in the same entries draw the same challenges
    let mut a = TestTranscript::new();
    let mut b = TestTranscript::new();
    a.append_field_element(&fr(3));
    b.append_field_element(&fr(3));
    assert_eq!(a.generate_challenge_field_element(), b.generate_challenge_field_element());
    a.append_field_element(&fr(4));
    b.append_field_element(&fr(5));
    assert_ne!(a.generate_challenge_field_element(), b.generate_challenge_field_element());
}

