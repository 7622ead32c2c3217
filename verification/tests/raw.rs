use poly_commit::field::Field;
use poly_commit::m31::M31;
use poly_commit::multilinear::MultiLinearPoly;
use poly_commit::raw::RawMultiLinearPCS;

fn m31(v: u64) -> M31 {
    M31::from_u64(v)
}

#[test]
fn raw_pcs_commit_copies_the_table() {
    let (_, n) = RawMultiLinearPCS::gen_srs_for_testing(&2);
    assert_eq!(n, 2);
    let poly = MultiLinearPoly { coeffs: vec![m31(1), m31(2), m31(3), m31(4)] };
    let commitment = RawMultiLinearPCS::commit(&2, &poly);
    assert_eq!(commitment.evals, poly.coeffs);
}

#[test]
fn raw_pcs_open_verify_round_trip() {
    let poly = MultiLinearPoly { coeffs: vec![m31(1), m31(2), m31(3), m31(4)] };
    let x = vec![m31(2), m31(3)];
    let commitment = RawMultiLinearPCS::commit(&2, &poly);
    let (v, ()) = RawMultiLinearPCS::open(&2, &poly, &x);
    // folding the lowest variable at 2 gives [3, 5], then at 3 gives 9
    assert_eq!(v, m31(9));
    assert!(RawMultiLinearPCS::verify(&2, &commitment, &x, v));
    assert!(!RawMultiLinearPCS::verify(&2, &commitment, &x, m31(10)));
}

#[test]
fn raw_pcs_open_on_the_hypercube_reads_the_table() {
    let poly = MultiLinearPoly { coeffs: vec![m31(5), m31(6), m31(7), m31(8)] };
    let (v, ()) = RawMultiLinearPCS::open(&2, &poly, &vec![m31(1), m31(0)]);
    assert_eq!(v, m31(6));
    let (v, ()) = RawMultiLinearPCS::open(&2, &poly, &vec![m31(0), m31(1)]);
    assert_eq!(v, m31(7));
}
