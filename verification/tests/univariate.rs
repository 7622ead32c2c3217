use poly_commit::field::Field;
use poly_commit::fr::Fr;
use poly_commit::m31::M31;
use poly_commit::univariate::{
    polynomial_add, powers_series, univariate_degree_b_quotient, univariate_degree_one_quotient,
    univariate_evaluate,
};

fn fr(v: u64) -> Fr {
    Fr::from_u64(v)
}

fn m31(v: u64) -> M31 {
    M31::from_u64(v)
}

fn check_degree_one_quotient_fr() {
    {
        // x^3 + 1 = (x + 1)(x^2 - x + 1)
        let poly = vec![fr(1), fr(0), fr(0), fr(1)];
        let point = fr(1).negate();
        let (div, remainder) = univariate_degree_one_quotient(&poly, point);
        assert_eq!(div, vec![fr(1), fr(1).negate(), fr(1), fr(0)]);
        assert_eq!(remainder, <Fr as Field>::zero())
    }
    {
        // x^3 - 1 = (x-1)(x^2 + x + 1)
        let poly = vec![fr(1).negate(), fr(0), fr(0), fr(1)];
        let point = fr(1);
        let (div, remainder) = univariate_degree_one_quotient(&poly, point);
        assert_eq!(div, vec![fr(1), fr(1), fr(1), fr(0)]);
        assert_eq!(remainder, <Fr as Field>::zero())
    }
    {
        // x^3 + 6x^2 + 11x + 6 = (x + 1)(x + 2)(x + 3)
        let poly = vec![fr(6), fr(11), fr(6), fr(1)];
        let point = fr(1);
        let (div, remainder) = univariate_degree_one_quotient(&poly, point);
        assert_eq!(div, vec![fr(18), fr(7), fr(1), fr(0)]);
        assert_eq!(remainder, fr(24))
    }
}

#[test]
fn tests_test_univariate_degree_one_quotient() {
    check_degree_one_quotient_fr();
}

#[test]
fn utils_test_univariate_degree_one_quotient() {
    check_degree_one_quotient_fr();
}

#[test]
fn degree_one_quotient_over_m31() {
    // x^3 + 6x^2 + 11x + 6 divided by x - 1
    let poly = vec![m31(6), m31(11), m31(6), m31(1)];
    let (div, remainder) = univariate_degree_one_quotient(&poly, m31(1));
    assert_eq!(div, vec![m31(18), m31(7), m31(1), m31(0)]);
    assert_eq!(remainder, m31(24));
}

#[test]
fn degree_one_quotient_remainder_is_evaluation() {
    // prod_{i in [1, 7]} (x + i) evaluated at 3 is 604800
    let poly: Vec<Fr> = [5040u64, 13068, 13132, 6769, 1960, 322, 28, 1]
        .iter()
        .map(|v| fr(*v))
        .collect();
    let (_, eval) = univariate_degree_one_quotient(&poly, fr(3));
    assert_eq!(eval, fr(604800));

    let constant = vec![fr(100)];
    let (div, eval) = univariate_degree_one_quotient(&constant, fr(3));
    assert_eq!(eval, fr(100));
    assert_eq!(div, vec![fr(0)]);
}

#[test]
fn powers_and_evaluate() {
    let powers = powers_series(&m31(3), 5);
    assert_eq!(powers, vec![m31(1), m31(3), m31(9), m31(27), m31(81)]);
    // 2 + 5x + x^3 at x = 3 is 2 + 15 + 27 = 44
    let coeffs = vec![m31(2), m31(5), m31(0), m31(1)];
    assert_eq!(univariate_evaluate(&coeffs, &powers), m31(44));
    // the common length is taken
    assert_eq!(univariate_evaluate(&coeffs, &powers[..2]), m31(17));
}

#[test]
fn powers_wrap_around_the_modulus() {
    // 2^31 = 1 modulo 2^31 - 1
    let powers = powers_series(&m31(2), 33);
    assert_eq!(powers[31], m31(1));
    assert_eq!(powers[32], m31(2));
}

#[test]
fn degree_b_quotient_splits() {
    // x^4 + 3x^3 + 2x^2 + 5x + 7 = (x^2 + 3x + 4)(x^2 - 2) + (11x + 15)
    let coeffs = vec![m31(7), m31(5), m31(2), m31(3), m31(1)];
    let (q, r) = univariate_degree_b_quotient(&coeffs, 2, m31(2));
    assert_eq!(q, vec![m31(4), m31(3), m31(1)]);
    assert_eq!(r, vec![m31(15), m31(11)]);

    let (q0, r0) = univariate_degree_b_quotient(&coeffs, 0, m31(2));
    assert_eq!(q0, vec![m31(21), m31(15), m31(6), m31(9), m31(3)]);
    assert!(r0.is_empty());
}

#[test]
fn polynomial_add_extends_and_weighs() {
    let mut f = vec![m31(1), m31(2)];
    polynomial_add(&mut f, m31(3), &[m31(1), m31(1), m31(1)]);
    assert_eq!(f, vec![m31(4), m31(5), m31(3)]);

    let mut g = vec![m31(1), m31(2), m31(3)];
    polynomial_add(&mut g, m31(2), &[m31(5)]);
    assert_eq!(g, vec![m31(11), m31(2), m31(3)]);
}
