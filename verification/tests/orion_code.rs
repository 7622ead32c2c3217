use poly_commit::field::Field;
use poly_commit::gf2::GF2;
use poly_commit::m31::M31;
use poly_commit::orion::cuda_commit::try_gpu_transpose;
use poly_commit::orion::linear_code::{
    orion_code_parameter_instance, OrionCode, OrionExpanderGraph, OrionExpanderGraphPositioned,
    OrionRatio,
};
use poly_commit::orion::lut::{lut_open_linear_combine, lut_verify_alphabet_check, SubsetSumLUTs};
use poly_commit::orion::utils::{interleaved_codewords, orion_eval_shape, OrionPCSError, OrionSRS};
use poly_commit::orion::verify::{merkle_cap_check, orion_verify};
use poly_commit::multilinear::MultiLinearPoly;
use rand::rngs::StdRng;
use rand::{Rng, SeedableRng};

fn gf2_zero() -> GF2 {
    <GF2 as Field>::zero()
}

fn random_gf2(rng: &mut StdRng) -> GF2 {
    GF2::new(rng.gen::<u8>())
}

fn random_m31(rng: &mut StdRng) -> M31 {
    M31::from_u64(rng.gen::<u64>())
}

/// Packs eight bits, the first one lowest.
fn pack_gf2(bits: &[GF2]) -> u32 {
    bits.iter()
        .enumerate()
        .map(|(i, b)| (b.as_u8() as u32) << i)
        .sum()
}

fn column_combination(mat: &[GF2], combination: &[GF2]) -> Vec<GF2> {
    assert_eq!(combination.len() % 8, 0);

    let mut luts = SubsetSumLUTs::<GF2>::new(8, combination.len() / 8);
    luts.build(combination);

    mat.chunks(combination.len())
        .map(|p_col| {
            let packed: Vec<u32> = p_col.chunks(8).map(pack_gf2).collect();
            luts.lookup_and_sum(&packed)
        })
        .collect()
}

fn test_orion_code_generic(msg_len: usize, row_num: usize) {
    let mut rng = StdRng::seed_from_u64(0);

    let encoder = OrionCode::new(orion_code_parameter_instance(), msg_len, &mut rng);

    let weights: Vec<GF2> = (0..row_num).map(|_| random_gf2(&mut rng)).collect();

    let mut message_mat = vec![gf2_zero(); row_num * encoder.msg_len()];
    let mut codeword_mat = vec![gf2_zero(); row_num * encoder.code_len()];

    message_mat
        .chunks_mut(encoder.msg_len())
        .zip(codeword_mat.chunks_mut(encoder.code_len()))
        .for_each(|(msg, codeword)| {
            msg.iter_mut().for_each(|x| *x = random_gf2(&mut rng));
            encoder.encode_in_place(msg, codeword).unwrap()
        });

    let mut message_mat_transpose = vec![gf2_zero(); row_num * encoder.msg_len()];
    transpose::transpose(
        &message_mat,
        &mut message_mat_transpose,
        encoder.msg_len(),
        row_num,
    );

    let mut codeword_mat_transpose = vec![gf2_zero(); row_num * encoder.code_len()];
    transpose::transpose(
        &codeword_mat,
        &mut codeword_mat_transpose,
        encoder.code_len(),
        row_num,
    );

    let msg_linear_combined = column_combination(&message_mat_transpose, &weights);
    let codeword_linear_combined = column_combination(&codeword_mat_transpose, &weights);

    let codeword_computed = encoder.encode(&msg_linear_combined).unwrap();

    assert_eq!(codeword_linear_combined, codeword_computed);
}

#[test]
fn linear_code_tests_test_orion_code() {
    const ROW_NUM: usize = 128;

    (5..=10).for_each(|num_vars| {
        let msg_len = 1usize << num_vars;
        test_orion_code_generic(msg_len, ROW_NUM);
    });
}

#[test]
fn test_lut_simd_inner_prod_consistency() {
    let mut rng = StdRng::seed_from_u64(7);

    let weights: Vec<M31> = (0..8).map(|_| random_m31(&mut rng)).collect();
    let bases: Vec<GF2> = (0..8).map(|_| random_gf2(&mut rng)).collect();

    let expected_vanilla_inner_prod = weights
        .iter()
        .zip(bases.iter())
        .fold(<M31 as Field>::zero(), |acc, (w, b)| {
            acc.plus(&w.times(&M31::from_u64(b.as_u8() as u64)))
        });

    let mut table = SubsetSumLUTs::<M31>::new(8, 1);
    table.build(&weights);

    let actual_lut_inner_prod = table.lookup_and_sum(&[pack_gf2(&bases)]);

    assert_eq!(expected_vanilla_inner_prod, actual_lut_inner_prod)
}

#[test]
fn lut_lookup_picks_subset_sums() {
    let weights: Vec<M31> = [1u64, 2, 4, 8, 16, 32].iter().map(|v| M31::from_u64(*v)).collect();
    let mut table = SubsetSumLUTs::<M31>::new(3, 2);
    table.build(&weights);
    // table 0 covers weights 1, 2, 4; table 1 covers 8, 16, 32
    assert_eq!(table.lookup_and_sum(&[0b101, 0b010]), M31::from_u64(1 + 4 + 16));
    assert_eq!(table.lookup_and_sum(&[0, 0]), M31::from_u64(0));
    assert_eq!(table.lookup_and_sum(&[7, 7]), M31::from_u64(63));
}

#[test]
fn graph_from_samples_lists_incident_left_vertices() {
    let samples = vec![vec![0usize], vec![1, 0], vec![1]];
    let g = OrionExpanderGraph::from_samples(3, 2, &samples);
    assert_eq!(g.l_vertices_size, 3);
    assert_eq!(g.r_vertices_size, 2);
    assert_eq!(g.neighborings, vec![vec![0usize, 1], vec![1, 2]]);
}

#[test]
fn random_graph_is_left_regular() {
    let mut rng = StdRng::seed_from_u64(3);
    let g = OrionExpanderGraph::new(20, 9, 4, &mut rng);
    assert_eq!(g.neighborings.len(), 9);
    for l in 0..20usize {
        let degree: usize = g
            .neighborings
            .iter()
            .map(|ns| ns.iter().filter(|&&e| e == l).count())
            .sum();
        assert_eq!(degree, 4);
    }
    for ns in &g.neighborings {
        assert!(ns.iter().all(|&e| e < 20));
        assert!(ns.windows(2).all(|w| w[0] < w[1]));
    }
}

#[test]
fn expander_mul_sums_neighbours() {
    let g = OrionExpanderGraph {
        l_vertices_size: 3,
        r_vertices_size: 2,
        neighborings: vec![vec![0, 2], vec![1, 1, 2]],
    };
    let l: Vec<M31> = [5u64, 7, 11].iter().map(|v| M31::from_u64(*v)).collect();
    let mut r = vec![<M31 as Field>::zero(); 2];
    assert_eq!(g.expander_mul(&l, &mut r), Ok(()));
    assert_eq!(r, vec![M31::from_u64(16), M31::from_u64(25)]);
}

#[test]
fn expander_mul_rejects_wrong_lengths() {
    let g = OrionExpanderGraph {
        l_vertices_size: 3,
        r_vertices_size: 2,
        neighborings: vec![vec![0, 2], vec![1]],
    };
    let l: Vec<M31> = [5u64, 7].iter().map(|v| M31::from_u64(*v)).collect();
    let mut r = vec![M31::from_u64(9); 2];
    assert_eq!(
        g.expander_mul(&l, &mut r),
        Err(OrionPCSError::ParameterUnmatchError)
    );
    assert_eq!(r, vec![M31::from_u64(9); 2]);
}

#[test]
fn positioned_graph_writes_buffer_and_scratch() {
    let g = OrionExpanderGraphPositioned {
        graph: OrionExpanderGraph {
            l_vertices_size: 2,
            r_vertices_size: 1,
            neighborings: vec![vec![0, 1]],
        },
        input_starts: 0,
        output_starts: 2,
        output_ends: 2,
    };
    let mut buffer: Vec<M31> = [3u64, 4, 0].iter().map(|v| M31::from_u64(*v)).collect();
    let mut scratch = vec![<M31 as Field>::zero(); 3];
    assert_eq!(g.expander_mul(&mut buffer, &mut scratch), Ok(()));
    assert_eq!(buffer[2], M31::from_u64(7));
    assert_eq!(scratch[2], M31::from_u64(7));
}

#[test]
fn code_layout_for_short_messages() {
    let mut rng = StdRng::seed_from_u64(11);
    let params = orion_code_parameter_instance();

    // a message no longer than the threshold is its own codeword
    let code = OrionCode::new(params, 12, &mut rng);
    assert_eq!(code.code_len(), 12);
    assert!(code.g0s.is_empty() && code.g1s.is_empty());

    // 32 -> g0 writes round(32 * 0.33) = 11, then g1 writes round(11 * 0.337) = 4
    let code = OrionCode::new(params, 32, &mut rng);
    assert_eq!(code.msg_len(), 32);
    assert_eq!(code.code_len(), 47);
    assert_eq!(code.g0s.len(), 1);
    assert_eq!(
        (code.g0s[0].input_starts, code.g0s[0].output_starts, code.g0s[0].output_ends),
        (0, 32, 42)
    );
    assert_eq!(
        (code.g1s[0].input_starts, code.g1s[0].output_starts, code.g1s[0].output_ends),
        (32, 43, 46)
    );

    // 64 -> g0s write 21 and 7 symbols, g1s write 2 and 10 symbols
    let code = OrionCode::new(params, 64, &mut rng);
    assert_eq!(code.code_len(), 104);
    let g0: Vec<_> = code
        .g0s
        .iter()
        .map(|g| (g.input_starts, g.output_starts, g.output_ends))
        .collect();
    assert_eq!(g0, vec![(0, 64, 84), (64, 85, 91)]);
    let g1: Vec<_> = code
        .g1s
        .iter()
        .map(|g| (g.input_starts, g.output_starts, g.output_ends))
        .collect();
    assert_eq!(g1, vec![(85, 92, 93), (64, 94, 103)]);
    assert_eq!(code.g0s[0].graph.r_vertices_size, 21);
    assert_eq!(code.g1s[0].graph.r_vertices_size, 2);
    assert_eq!(
        code.hamming_weight(),
        OrionRatio {
            num: 55,
            den: 1000
        }
    );
}

#[test]
fn code_with_graphs_without_outputs() {
    let mut rng = StdRng::seed_from_u64(5);
    let mut params = orion_code_parameter_instance();
    params.alpha_g0 = OrionRatio { num: 1, den: 100 };
    // 13 -> g0 writes round(13 * 0.01) = 0 symbols, and so does the g1 behind it
    let code = OrionCode::new(params, 13, &mut rng);
    assert_eq!(code.code_len(), 13);
    assert_eq!(code.g0s.len(), 1);
    assert_eq!(code.g1s.len(), 1);
    assert_eq!(
        (code.g0s[0].input_starts, code.g0s[0].output_starts, code.g0s[0].output_ends),
        (0, 13, 12)
    );
    assert_eq!(code.g0s[0].graph.r_vertices_size, 0);
    assert_eq!(code.g1s[0].graph.r_vertices_size, 0);
    let msg: Vec<M31> = (0..13u64).map(M31::from_u64).collect();
    assert_eq!(code.encode(&msg).unwrap(), msg);
}

#[test]
fn encode_keeps_the_message_in_front() {
    let mut rng = StdRng::seed_from_u64(5);
    let code = OrionCode::new(orion_code_parameter_instance(), 64, &mut rng);
    let msg: Vec<M31> = (0..64).map(|_| random_m31(&mut rng)).collect();
    let codeword = code.encode(&msg).unwrap();
    assert_eq!(codeword.len(), 104);
    assert_eq!(&codeword[..64], &msg[..]);
}

#[test]
fn encode_is_linear_over_m31() {
    let mut rng = StdRng::seed_from_u64(9);
    let code = OrionCode::new(orion_code_parameter_instance(), 256, &mut rng);
    let a: Vec<M31> = (0..256).map(|_| random_m31(&mut rng)).collect();
    let b: Vec<M31> = (0..256).map(|_| random_m31(&mut rng)).collect();
    let w = random_m31(&mut rng);
    let combined: Vec<M31> = a.iter().zip(&b).map(|(x, y)| w.times(x).plus(y)).collect();
    let ca = code.encode(&a).unwrap();
    let cb = code.encode(&b).unwrap();
    let cc = code.encode(&combined).unwrap();
    let expected: Vec<M31> = ca.iter().zip(&cb).map(|(x, y)| w.times(x).plus(y)).collect();
    assert_eq!(cc, expected);
}

#[test]
fn encode_rejects_wrong_lengths() {
    let mut rng = StdRng::seed_from_u64(5);
    let code = OrionCode::new(orion_code_parameter_instance(), 32, &mut rng);
    let msg = vec![M31::from_u64(1); 31];
    assert_eq!(code.encode(&msg), Err(OrionPCSError::ParameterUnmatchError));
    let msg = vec![M31::from_u64(1); 32];
    let mut short = vec![M31::from_u64(2); 46];
    assert_eq!(
        code.encode_in_place(&msg, &mut short),
        Err(OrionPCSError::ParameterUnmatchError)
    );
    assert_eq!(short, vec![M31::from_u64(2); 46]);
}

#[test]
fn eval_shape_plans() {
    // 2^15 one-bit elements packed by 8 in one world: 2 leaves, 32-symbol messages
    assert_eq!(orion_eval_shape(1, 15, 1, 8), (2, 15, 32));
    // too short for 4 worlds: the local variables are scaled up to 10
    assert_eq!(orion_eval_shape(4, 2, 1, 8), (2, 10, 4));
}

#[test]
fn srs_from_random_plans_and_samples() {
    let mut rng = StdRng::seed_from_u64(1);
    let (srs, num_vars) = OrionSRS::from_random(1, 15, 1, 8, orion_code_parameter_instance(), &mut rng);
    assert_eq!(num_vars, 15);
    assert_eq!(srs.num_vars, 15);
    assert_eq!(srs.num_leaves_per_mt_query(), 2);
    assert_eq!(srs.message_len(), 32);
    assert_eq!(srs.codeword_len(), 47);
    assert_eq!(srs.local_num_fs_per_query(), 1024);
    assert_eq!(
        srs.minimum_hamming_weight(),
        OrionRatio {
            num: 55,
            den: 1000
        }
    );

    let (srs, num_vars) = OrionSRS::from_random(4, 2, 1, 8, orion_code_parameter_instance(), &mut rng);
    assert_eq!(num_vars, 10);
    assert_eq!(srs.message_len(), 4);
    assert_eq!(srs.codeword_len(), 4);
}

#[test]
fn gpu_transpose_is_unavailable() {
    let input = vec![1u32, 2, 3, 4, 5, 6];
    let mut output = vec![0u32; 6];
    assert!(!try_gpu_transpose(&input, &mut output, 2, 3));
    assert_eq!(output, vec![0u32; 6]);
}

fn m31s(vals: &[u64]) -> Vec<M31> {
    vals.iter().map(|v| M31::from_u64(*v)).collect()
}

#[test]
fn lut_alphabet_check_accepts_matching_columns() {
    // weights 1, 2, 4, 8 in two tables of two bits each
    let rl = m31s(&[1, 2, 4, 8]);
    // alphabet [0b11, 0b10] stands for 1 + 2 + 8 = 11; [0b01, 0b01] for 1 + 4 = 5
    let alphabets = vec![vec![0b11u32, 0b10], vec![0b01, 0b01]];
    let codeword = m31s(&[5, 11, 0]);
    assert!(lut_verify_alphabet_check(&codeword, &rl, &[1, 3], &alphabets, 2));
    // query 3 wraps around to position 0, so the first alphabet does not match there
    assert!(!lut_verify_alphabet_check(&codeword, &rl, &[3, 0], &alphabets, 2));
    // only as many queries as alphabets are checked
    assert!(lut_verify_alphabet_check(&codeword, &rl, &[1], &alphabets, 2));
    assert!(lut_verify_alphabet_check(&codeword, &rl, &[], &alphabets, 2));
}

#[test]
fn lut_open_linear_combine_adds_row_block_combinations() {
    // one table of two bits per row block, two row blocks, three columns
    let eq = m31s(&[1, 10, 100, 1000]);
    // block 0 columns: 0b01, 0b10, 0b11; block 1 columns: 0b11, 0b00, 0b01
    let packed = vec![0b01u32, 0b10, 0b11, 0b11, 0b00, 0b01];
    let mut eval_row = m31s(&[7, 0, 0]);
    let rand = vec![m31s(&[2, 3, 5, 7])];
    let mut prox = vec![m31s(&[0, 0, 0]), m31s(&[9, 9, 9])];
    lut_open_linear_combine(2, 2, &packed, &eq, &mut eval_row, &rand, &mut prox);
    assert_eq!(eval_row, m31s(&[7 + 1 + 1100, 10, 11 + 100]));
    assert_eq!(prox[0], m31s(&[2 + 12, 3, 5 + 5]));
    assert_eq!(prox[1], m31s(&[9, 9, 9]));
}

fn combine_rows(rows: &[Vec<GF2>], coeffs: &[GF2]) -> Vec<GF2> {
    (0..rows[0].len())
        .map(|j| {
            coeffs
                .iter()
                .zip(rows)
                .fold(gf2_zero(), |acc, (c, r)| acc.plus(&c.times(&r[j])))
        })
        .collect()
}

#[test]
fn orion_verify_accepts_consistent_rows_and_rejects_tampering() {
    let mut rng = StdRng::seed_from_u64(11);
    let msg_len = 32;
    let code = OrionCode::new(orion_code_parameter_instance(), msg_len, &mut rng);
    let rows: Vec<Vec<GF2>> = (0..8)
        .map(|_| (0..msg_len).map(|_| random_gf2(&mut rng)).collect())
        .collect();
    let codewords: Vec<Vec<GF2>> = rows.iter().map(|r| code.encode(r).unwrap()).collect();

    let mut eq: Vec<GF2> = (0..8).map(|_| random_gf2(&mut rng)).collect();
    eq[0] = GF2::new(1);
    let rlcs: Vec<Vec<GF2>> = (0..2)
        .map(|_| (0..8).map(|_| random_gf2(&mut rng)).collect())
        .collect();
    let eval_row = combine_rows(&rows, &eq);
    let prox: Vec<Vec<GF2>> = rlcs.iter().map(|c| combine_rows(&rows, c)).collect();

    let code_len = code.code_len();
    let queries = vec![3usize, 17, 40, code_len + 5];
    let alphabets: Vec<Vec<u32>> = queries
        .iter()
        .map(|q| {
            let column: Vec<GF2> = codewords.iter().map(|c| c[q % code_len]).collect();
            vec![pack_gf2(&column)]
        })
        .collect();

    let msg_point: Vec<GF2> = (0..5).map(|_| random_gf2(&mut rng)).collect();
    let evaluation = MultiLinearPoly { coeffs: eval_row.clone() }.evaluate_jolt(&msg_point);

    let root: Vec<u8> = (0..32u8).collect();
    let cap = vec![root.clone()];
    let no_tree: Vec<u8> = Vec::new();
    assert!(orion_verify(
        &code, &msg_point, evaluation, &eval_row, &eq, &prox, &rlcs, &queries, &cap, 1, &no_tree, &root, true,
        &alphabets, 8
    ));
    // the Merkle paths did not verify
    assert!(!orion_verify(
        &code, &msg_point, evaluation, &eval_row, &eq, &prox, &rlcs, &queries, &cap, 1, &no_tree, &root, false,
        &alphabets, 8
    ));
    // a cap whose root is not the commitment
    let mut other_root = root.clone();
    other_root[0] ^= 1;
    assert!(!orion_verify(
        &code, &msg_point, evaluation, &eval_row, &eq, &prox, &rlcs, &queries, &cap, 1, &no_tree, &other_root, true,
        &alphabets, 8
    ));
    // a cap of the wrong length
    let long_cap = vec![root.clone(), root.clone()];
    assert!(!orion_verify(
        &code, &msg_point, evaluation, &eval_row, &eq, &prox, &rlcs, &queries, &long_cap, 1, &no_tree, &root, true,
        &alphabets, 8
    ));
    // a wrong evaluation
    let wrong = evaluation.plus(&GF2::new(1));
    assert!(!orion_verify(
        &code, &msg_point, wrong, &eval_row, &eq, &prox, &rlcs, &queries, &cap, 1, &no_tree, &root, true, &alphabets,
        8
    ));
    // an opened column that is not the committed one
    let mut tampered = alphabets.clone();
    tampered[1][0] ^= 1;
    assert!(!orion_verify(
        &code, &msg_point, evaluation, &eval_row, &eq, &prox, &rlcs, &queries, &cap, 1, &no_tree, &root, true,
        &tampered, 8
    ));
    // a row of the wrong length
    let short_row: Vec<GF2> = eval_row[..msg_len - 1].to_vec();
    let prox_bad = vec![short_row, prox[1].clone()];
    assert!(!orion_verify(
        &code, &msg_point, evaluation, &eval_row, &eq, &prox_bad, &rlcs, &queries, &cap, 1, &no_tree, &root, true,
        &alphabets, 8
    ));
}

#[test]
fn merkle_cap_check_compares_the_root_with_the_commitment() {
    let a: Vec<u8> = vec![1, 2, 3];
    let b: Vec<u8> = vec![4, 5, 6];
    // one party: its root is the commitment
    assert!(merkle_cap_check(&vec![a.clone()], 1, &b, &a));
    assert!(!merkle_cap_check(&vec![b.clone()], 1, &a, &a));
    // several parties: the root of the tree over the cap is the commitment
    assert!(merkle_cap_check(&vec![a.clone(), b.clone()], 2, &a, &a));
    assert!(!merkle_cap_check(&vec![a.clone(), a.clone()], 2, &b, &a));
    // the cap holds one root per party
    assert!(!merkle_cap_check(&vec![a.clone()], 2, &a, &a));
}

#[test]
fn interleaved_codewords_lays_codewords_as_columns() {
    let mut rng = StdRng::seed_from_u64(21);
    let msg_len = 32;
    let code = OrionCode::new(orion_code_parameter_instance(), msg_len, &mut rng);
    let num_rows = 3;
    let evals: Vec<M31> = (0..num_rows * msg_len).map(|_| random_m31(&mut rng)).collect();
    let matrix = interleaved_codewords(&code, &evals, num_rows);
    let code_len = code.code_len();
    let total = num_rows * code_len;
    assert_eq!(matrix.len(), total.next_power_of_two());
    for i in 0..num_rows {
        let codeword = code.encode(&evals[i * msg_len..(i + 1) * msg_len]).unwrap();
        for j in 0..code_len {
            assert_eq!(matrix[j * num_rows + i], codeword[j]);
        }
    }
    assert!(matrix[total..].iter().all(|e| *e == <M31 as Field>::zero()));
}

#[test]
fn codeword_begins_with_its_message() {
    let mut rng = StdRng::seed_from_u64(41);
    let code = OrionCode::new(orion_code_parameter_instance(), 64, &mut rng);
    let msg: Vec<M31> = (0..64).map(|_| random_m31(&mut rng)).collect();
    let codeword = code.encode(&msg).unwrap();
    assert_eq!(codeword.len(), code.codeword_len);
    assert_eq!(&codeword[..64], &msg[..]);
}

