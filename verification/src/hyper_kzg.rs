//! The field arithmetic of HyperKZG: folding the coefficient vector of a
//! multilinear polynomial one variable at a time, evaluating the folded
//! polynomials at `beta`, `-beta` and `beta^2`, and aggregating the results.

use crate::field::{
    is_unit, lemma_congruent_add, lemma_congruent_mul, lemma_congruent_sub, lemma_reduced, lemma_unit_congruent,
    values, Field,
};
use crate::multilinear::{fold_lowest, lemma_mle_congruent, mle_eval};
use crate::univariate::{
    dot_prefix, lemma_dot_prefix_take, lemma_evaluate_with_powers, lemma_lin_quotient_identity,
    lemma_poly_eval_point_congruent, lemma_poly_eval_reduce, lin_quotient, poly_eval, polynomial_add, powers_series,
    reduce, univariate_degree_one_quotient, univariate_evaluate,
};
use vstd::arithmetic::div_mod::*;
use vstd::arithmetic::power2::*;
use vstd::prelude::*;

verus! {

/// The coefficient vectors after folding `c` by `alphas[0], ..., alphas[k-1]`
/// in turn, modulo `m`.
pub open spec fn fold_chain(c: Seq<int>, alphas: Seq<int>, m: int, k: nat) -> Seq<int>
    decreases k,
{
    if k == 0 {
        c
    } else {
        reduce(fold_lowest(fold_chain(c, alphas, m, (k - 1) as nat), alphas[k - 1]), m)
    }
}

/// The contents of a list of coefficient vectors.
pub open spec fn vec_values<F: Field>(vs: Seq<Vec<F>>) -> Seq<Seq<int>> {
    Seq::new(vs.len(), |i: int| values(vs[i]@))
}

/// Folds the lowest variable of `coeffs` to `alpha`: entry `j` becomes
/// `(1 - alpha) * coeffs[2j] + alpha * coeffs[2j + 1]`.
fn fold_once<F: Field>(coeffs: &Vec<F>, alpha: F) -> (r: Vec<F>)
    requires
        coeffs@.len() % 2 == 0,
    ensures
        values(r@) == reduce(fold_lowest(values(coeffs@), alpha.value()), F::modulus()),
{
    let ghost m = F::modulus();
    let ghost c = values(coeffs@);
    let ghost a = alpha.value();
    let one_minus_alpha = F::one().minus(&alpha);
    let len = coeffs.len();
    let half = len / 2;
    let mut out: Vec<F> = Vec::new();
    let mut j: usize = 0;
    proof {
        F::lemma_modulus();
    }
    while j < half
        invariant
            j <= half,
            len == coeffs@.len(),
            half == coeffs@.len() / 2,
            coeffs@.len() % 2 == 0,
            m == F::modulus(),
            m > 1,
            c == values(coeffs@),
            a == alpha.value(),
            one_minus_alpha.value() == (1 - a) % m,
            out@.len() == j,
            forall|i: int| 0 <= i < j ==> #[trigger] out@[i].value() == (c[2 * i] + a * (c[2 * i + 1] - c[2 * i])) % m,
        decreases half - j,
    {
        proof {
            lemma_fundamental_div_mod(coeffs@.len() as int, 2);
            assert(2 * j + 1 < coeffs@.len());
        }
        let x = coeffs[2 * j];
        let y = coeffs[2 * j + 1];
        let u = one_minus_alpha.times(&x);
        let v = alpha.times(&y);
        let w = u.plus(&v);
        proof {
            let (xv, yv) = (x.value(), y.value());
            lemma_mod_twice(1 - a, m);
            lemma_congruent_mul(one_minus_alpha.value(), 1 - a, xv, xv, m);
            lemma_mod_twice((1 - a) * xv, m);
            lemma_mod_twice(a * yv, m);
            lemma_congruent_add(u.value(), (1 - a) * xv, v.value(), a * yv, m);
            assert((1 - a) * xv + a * yv == xv + a * (yv - xv)) by (nonlinear_arith);
            assert(c[2 * j as int] == xv && c[2 * j + 1] == yv);
        }
        out.push(w);
        j = j + 1;
    }
    proof {
        assert(values(out@) =~= reduce(fold_lowest(c, a), m));
    }
    out
}

/// Each fold halves the length.
pub proof fn lemma_fold_chain_len(c: Seq<int>, alphas: Seq<int>, m: int, k: nat)
    ensures
        fold_chain(c, alphas, m, k).len() == c.len() / pow2(k),
    decreases k,
{
    lemma_pow2_pos(k);
    if k == 0 {
        lemma2_to64();
    } else {
        let k1 = (k - 1) as nat;
        lemma_fold_chain_len(c, alphas, m, k1);
        lemma_pow2_unfold(k);
        lemma_pow2_pos(k1);
        let p1 = pow2(k1) as int;
        let len = c.len() as int;
        lemma_div_denominator(len, p1, 2);
        assert(p1 * 2 == pow2(k) as int);
        assert(fold_chain(c, alphas, m, k).len() == (len / p1) / 2);
    }
}

/// The coefficient vectors of the HyperKZG folded oracles: `coeffs` folded by
/// every alpha but the last, the vector after each fold.
pub fn coeff_form_hyperkzg_local_folded_coeffs<F: Field>(coeffs: &Vec<F>, local_alphas: &[F]) -> (r: Vec<Vec<F>>)
    requires
        local_alphas@.len() >= 1,
        coeffs@.len() % pow2((local_alphas@.len() - 1) as nat) == 0,
    ensures
        r@.len() == local_alphas@.len() - 1,
        forall|i: int|
            0 <= i < r@.len() ==> values(#[trigger] r@[i]@) == fold_chain(
                values(coeffs@),
                values(local_alphas@),
                F::modulus(),
                (i + 1) as nat,
            ),
{
    let ghost m = F::modulus();
    let ghost c = values(coeffs@);
    let ghost al = values(local_alphas@);
    let ghost k = (local_alphas@.len() - 1) as nat;
    let n = local_alphas.len() - 1;
    let mut out: Vec<Vec<F>> = Vec::new();
    let mut i: usize = 0;
    while i < n
        invariant
            i <= n,
            n == local_alphas@.len() - 1,
            k == n,
            m == F::modulus(),
            c == values(coeffs@),
            al == values(local_alphas@),
            c.len() % pow2(k) == 0,
            out@.len() == i,
            forall|t: int| 0 <= t < i ==> values(#[trigger] out@[t]@) == fold_chain(c, al, m, (t + 1) as nat),
        decreases n - i,
    {
        proof {
            lemma_fold_chain_len(c, al, m, i as nat);
            lemma_pow_divides(c.len() as int, i as nat, k);
        }
        let next = if i == 0 {
            fold_once(coeffs, local_alphas[i])
        } else {
            fold_once(&out[i - 1], local_alphas[i])
        };
        proof {
            assert(al[i as int] == local_alphas@[i as int].value());
        }
        out.push(next);
        i = i + 1;
    }
    out
}

/// A length divisible by `2^k` stays even after fewer than `k` halvings.
proof fn lemma_pow_divides(len: int, i: nat, k: nat)
    requires
        0 <= len,
        i < k,
        len % pow2(k) as int == 0,
    ensures
        (len / pow2(i) as int) % 2 == 0,
{
    use_pow2_facts(i, k);
    lemma_pow2_pos(k);
    let pk = pow2(k) as int;
    let pi = pow2(i) as int;
    let rest = pow2((k - i - 1) as nat) as int;
    lemma_fundamental_div_mod(len, pk);
    let q = len / pk;
    assert(len == pi * (q * rest * 2)) by (nonlinear_arith)
        requires
            len == pk * q + 0,
            pk == pi * (2 * rest),
    ;
    lemma_div_multiples_vanish(q * rest * 2, pi);
    assert((q * rest * 2) % 2 == 0) by {
        lemma_mod_multiples_basic(q * rest, 2);
    }
}

proof fn use_pow2_facts(i: nat, k: nat)
    requires
        i < k,
    ensures
        pow2(i) > 0,
        pow2(k) as int == pow2(i) as int * (2
            * pow2((k - i - 1) as nat) as int),
{
    lemma_pow2_pos(i);
    lemma_pow2_adds(i, (k - i) as nat);
    lemma_pow2_unfold((k - i) as nat);
    assert((k - i - 1) as nat == ((k - i) as nat - 1) as nat);
}


/// The evaluations a HyperKZG prover reports for its polynomial and its
/// folded oracles: at `beta^2` (first of the polynomial itself, then of each
/// fold), and at `beta` and `-beta` of each oracle.
#[derive(Clone, Debug)]
pub struct HyperKZGLocalEvals<F> {
    pub beta2_evals: Vec<F>,
    pub pos_beta_evals: Vec<F>,
    pub neg_beta_evals: Vec<F>,
}

/// `b2` is the value at `beta^2` of the fold by `alpha` of a polynomial whose
/// values at `beta` and `-beta` are `pos` and `neg`:
/// `2 beta b2 = beta (pos + neg) (1 - alpha) + (pos - neg) alpha` modulo `m`.
pub open spec fn beta2_consistent(b2: int, pos: int, neg: int, alpha: int, beta: int, m: int) -> bool {
    (2 * beta * b2) % m == (beta * ((pos + neg) * (1 - alpha)) + (pos - neg) * alpha) % m
}

proof fn lemma_beta2_formula(r: int, x: int, z: int, ti: int, bi: int, beta: int, m: int)
    requires
        m > 1,
        r % m == (ti * (x + z * bi)) % m,
        (2 * ti) % m == 1,
        (beta * bi) % m == 1,
    ensures
        (2 * beta * r) % m == (beta * x + z) % m,
{
    lemma_congruent_mul(2 * beta, 2 * beta, r, ti * (x + z * bi), m);
    assert(2 * beta * (ti * (x + z * bi)) == (2 * ti) * (beta * x + (beta * bi) * z)) by (nonlinear_arith);
    let sum = beta * x + (beta * bi) * z;
    lemma_reduced(1, m);
    lemma_congruent_mul(2 * ti, 1, sum, sum, m);
    lemma_congruent_mul(beta * bi, 1, z, z, m);
    lemma_congruent_add(beta * x, beta * x, (beta * bi) * z, 1 * z, m);
}

/// The value at `beta^2` of the fold by `alpha`, from the values at `beta`
/// and `-beta`: `((pos + neg) (1 - alpha) + (pos - neg) beta^-1 alpha) / 2`.
fn fold_beta2_eval<F: Field>(pos: F, neg: F, alpha: F, beta_inv: F, two_inv: F, Ghost(beta): Ghost<int>) -> (r: F)
    requires
        (beta * beta_inv.value()) % F::modulus() == 1,
        (2 * two_inv.value()) % F::modulus() == 1,
    ensures
        beta2_consistent(r.value(), pos.value(), neg.value(), alpha.value(), beta, F::modulus()),
{
    let ghost m = F::modulus();
    let ghost (p, n, a, bi, ti) = (pos.value(), neg.value(), alpha.value(), beta_inv.value(), two_inv.value());
    let s = pos.plus(&neg);
    let oma = F::one().minus(&alpha);
    let t1 = s.times(&oma);
    let d = pos.minus(&neg);
    let t2a = d.times(&beta_inv);
    let t2 = t2a.times(&alpha);
    let u = t1.plus(&t2);
    let r = two_inv.times(&u);
    proof {
        F::lemma_modulus();
        let x = (p + n) * (1 - a);
        let z = (p - n) * a;
        lemma_mod_twice(p + n, m);
        lemma_mod_twice(1 - a, m);
        lemma_mod_twice(p - n, m);
        lemma_congruent_mul(s.value(), p + n, oma.value(), 1 - a, m);
        lemma_mod_twice(s.value() * oma.value(), m);
        lemma_congruent_mul(d.value(), p - n, bi, bi, m);
        lemma_mod_twice(d.value() * bi, m);
        lemma_congruent_mul(t2a.value(), (p - n) * bi, a, a, m);
        lemma_mod_twice(t2a.value() * a, m);
        assert((p - n) * bi * a == z * bi) by (nonlinear_arith)
            requires
                z == (p - n) * a,
        ;
        lemma_congruent_add(t1.value(), x, t2.value(), z * bi, m);
        lemma_mod_twice(t1.value() + t2.value(), m);
        lemma_congruent_mul(ti, ti, u.value(), x + z * bi, m);
        lemma_mod_twice(ti * u.value(), m);
        lemma_beta2_formula(r.value(), x, z, ti, bi, beta, m);
    }
    r
}

/// The oracle of round `i`: the polynomial itself, then the folds.
pub open spec fn oracle_at(c: Seq<int>, folded: Seq<Seq<int>>, i: int) -> Seq<int> {
    if i == 0 {
        c
    } else {
        folded[i - 1]
    }
}

/// The value at `x` of the first `n` coefficients of `c`.
pub open spec fn eval_prefix(c: Seq<int>, x: int, n: int) -> int {
    poly_eval(c.take(if c.len() < n { c.len() as int } else { n }), x)
}

/// The number of rounds of local evaluations: one per oracle that has an alpha.
pub open spec fn local_rounds(num_folded: int, num_alphas: int) -> int {
    if num_folded + 1 < num_alphas {
        num_folded + 1
    } else {
        num_alphas
    }
}

/// `r` holds the HyperKZG local evaluations of the polynomial `c` and its
/// folds `folded` with the challenges `alphas` and `beta`: the value of `c`
/// at `beta^2`, then for each round the values of its oracle at `beta` and
/// `-beta` (over the first `c.len()` coefficients) and the value at `beta^2`
/// of its fold that they determine.
pub open spec fn local_evals_of<F: Field>(
    r: HyperKZGLocalEvals<F>,
    c: Seq<int>,
    folded: Seq<Seq<int>>,
    alphas: Seq<int>,
    beta: int,
) -> bool {
    let m = F::modulus();
    let n = local_rounds(folded.len() as int, alphas.len() as int);
    &&& r.beta2_evals@.len() == n + 1
    &&& r.pos_beta_evals@.len() == n
    &&& r.neg_beta_evals@.len() == n
    &&& r.beta2_evals@[0].value() == poly_eval(c, beta * beta) % m
    &&& forall|i: int|
        0 <= i < n ==> {
            &&& (#[trigger] r.pos_beta_evals@[i]).value() == eval_prefix(oracle_at(c, folded, i), beta, c.len() as int)
                % m
            &&& r.neg_beta_evals@[i].value() == eval_prefix(oracle_at(c, folded, i), -beta, c.len() as int) % m
            &&& beta2_consistent(
                r.beta2_evals@[i + 1].value(),
                r.pos_beta_evals@[i].value(),
                r.neg_beta_evals@[i].value(),
                alphas[i],
                beta,
                m,
            )
        }
}

/// Evaluates `cs` at the point whose powers are `pows` (as many as `n`
/// coefficients).
pub proof fn lemma_eval_by_powers(cs: Seq<int>, pows: Seq<int>, x: int, n: int, m: int)
    requires
        m > 0,
        pows.len() == n,
        forall|i: int| 0 <= i < n ==> #[trigger] pows[i] == vstd::arithmetic::power::pow(x, i as nat) % m,
    ensures
        dot_prefix(cs, pows, if cs.len() < n { cs.len() as int } else { n }) % m == eval_prefix(cs, x, n) % m,
{
    let k = if cs.len() < n { cs.len() as int } else { n };
    lemma_dot_prefix_take(cs, pows, k);
    assert(cs.take(k).len() == k);
    lemma_evaluate_with_powers(cs.take(k), pows, x, m);
}

/// The HyperKZG local evaluations of `coeffs` and its folded oracles with the
/// challenges `local_alphas` and `beta`.
#[verifier::spinoff_prover]
pub fn coeff_form_hyperkzg_local_evals<F: Field>(
    coeffs: &Vec<F>,
    folded_oracle_coeffs: &[Vec<F>],
    local_alphas: &[F],
    beta: F,
) -> (r: HyperKZGLocalEvals<F>)
    requires
        coeffs@.len() >= 1,
        is_unit(beta.value(), F::modulus()),
        is_unit(2, F::modulus()),
    ensures
        local_evals_of(r, values(coeffs@), vec_values(folded_oracle_coeffs@), values(local_alphas@), beta.value()),
{
    let ghost m = F::modulus();
    let ghost c = values(coeffs@);
    let ghost folded = vec_values(folded_oracle_coeffs@);
    let ghost al = values(local_alphas@);
    let ghost bv = beta.value();
    proof {
        F::lemma_modulus();
        F::lemma_value_range(beta);
    }
    let beta2 = beta.times(&beta);
    let beta_inv = beta.inverse().unwrap();
    let two = F::one().plus(&F::one());
    proof {
        lemma_reduced(2, m);
        if m == 2 {
            assert(2int % 2 == 0);
        }
        lemma_unit_congruent(2, two.value(), m);
    }
    let two_inv = two.inverse().unwrap();
    let n = coeffs.len();
    let neg_beta = beta.negate();
    let beta_pow_series = powers_series(&beta, n);
    let neg_beta_pow_series = powers_series(&neg_beta, n);
    let beta2_pow_series = powers_series(&beta2, n);
    let beta2_eval = univariate_evaluate(coeffs.as_slice(), beta2_pow_series.as_slice());
    proof {
        lemma_eval_by_powers(c, values(beta2_pow_series@), beta2.value(), n as int, m);
        assert(c.take(n as int) =~= c);
        lemma_mod_twice(bv * bv, m);
        lemma_poly_eval_point_congruent(c, beta2.value(), bv * bv, m);
        lemma_mod_twice(dot_prefix(c, values(beta2_pow_series@), n as int), m);
    }
    let mut beta2_evals: Vec<F> = Vec::new();
    beta2_evals.push(beta2_eval);
    let mut pos_beta_evals: Vec<F> = Vec::new();
    let mut neg_beta_evals: Vec<F> = Vec::new();
    let rounds = if local_alphas.len() > 0 && folded_oracle_coeffs.len() < local_alphas.len() - 1 {
        folded_oracle_coeffs.len() + 1
    } else {
        local_alphas.len()
    };
    let mut i: usize = 0;
    while i < rounds
        invariant
            i <= rounds,
            rounds == local_rounds(folded.len() as int, al.len() as int),
            rounds <= folded.len() + 1,
            n == coeffs@.len(),
            n == c.len(),
            m == F::modulus(),
            m > 1,
            c == values(coeffs@),
            folded == vec_values(folded_oracle_coeffs@),
            al == values(local_alphas@),
            bv == beta.value(),
            (bv * beta_inv.value()) % m == 1,
            (2 * two_inv.value()) % m == 1,
            neg_beta.value() == (-bv) % m,
            beta_pow_series@.len() == n,
            neg_beta_pow_series@.len() == n,
            forall|t: int| 0 <= t < n ==> #[trigger] beta_pow_series@[t].value() == vstd::arithmetic::power::pow(bv, t as nat) % m,
            forall|t: int|
                0 <= t < n ==> #[trigger] neg_beta_pow_series@[t].value() == vstd::arithmetic::power::pow(
                    neg_beta.value(),
                    t as nat,
                ) % m,
            beta2_evals@.len() == i + 1,
            pos_beta_evals@.len() == i,
            neg_beta_evals@.len() == i,
            beta2_evals@[0].value() == poly_eval(c, bv * bv) % m,
            forall|t: int|
                0 <= t < i ==> {
                    &&& (#[trigger] pos_beta_evals@[t]).value() == eval_prefix(oracle_at(c, folded, t), bv, n as int) % m
                    &&& neg_beta_evals@[t].value() == eval_prefix(oracle_at(c, folded, t), -bv, n as int) % m
                    &&& beta2_consistent(
                        beta2_evals@[t + 1].value(),
                        pos_beta_evals@[t].value(),
                        neg_beta_evals@[t].value(),
                        al[t],
                        bv,
                        m,
                    )
                },
        decreases rounds - i,
    {
        let cs: &Vec<F> = if i == 0 {
            coeffs
        } else {
            &folded_oracle_coeffs[i - 1]
        };
        let ghost cv = values(cs@);
        proof {
            assert(cv == oracle_at(c, folded, i as int));
        }
        let beta_eval = univariate_evaluate(cs.as_slice(), beta_pow_series.as_slice());
        let neg_beta_eval = univariate_evaluate(cs.as_slice(), neg_beta_pow_series.as_slice());
        proof {
            let k = if cv.len() < n { cv.len() as int } else { n as int };
            lemma_eval_by_powers(cv, values(beta_pow_series@), bv, n as int, m);
            lemma_mod_twice(dot_prefix(cv, values(beta_pow_series@), k), m);
            lemma_eval_by_powers(cv, values(neg_beta_pow_series@), neg_beta.value(), n as int, m);
            lemma_mod_twice(dot_prefix(cv, values(neg_beta_pow_series@), k), m);
            lemma_mod_twice(-bv, m);
            lemma_poly_eval_point_congruent(cv.take(k), neg_beta.value(), -bv, m);
        }
        let b2 = fold_beta2_eval(beta_eval, neg_beta_eval, local_alphas[i], beta_inv, two_inv, Ghost(bv));
        proof {
            assert(al[i as int] == local_alphas@[i as int].value());
        }
        beta2_evals.push(b2);
        pos_beta_evals.push(beta_eval);
        neg_beta_evals.push(neg_beta_eval);
        i = i + 1;
    }
    let r = HyperKZGLocalEvals { beta2_evals, pos_beta_evals, neg_beta_evals };
    proof {
        assert forall|t: int| 0 <= t < rounds implies {
            &&& (#[trigger] r.pos_beta_evals@[t]).value() == eval_prefix(oracle_at(c, folded, t), bv, c.len() as int) % m
            &&& r.neg_beta_evals@[t].value() == eval_prefix(oracle_at(c, folded, t), -bv, c.len() as int) % m
            &&& beta2_consistent(
                r.beta2_evals@[t + 1].value(),
                r.pos_beta_evals@[t].value(),
                r.neg_beta_evals@[t].value(),
                al[t],
                bv,
                m,
            )
        } by {}
        assert(local_evals_of(r, c, folded, al, bv));
    }
    r
}


/// The coefficients of even degree.
pub open spec fn evens(f: Seq<int>) -> Seq<int> {
    Seq::new(f.len() / 2, |j: int| f[2 * j])
}

/// The coefficients of odd degree.
pub open spec fn odds(f: Seq<int>) -> Seq<int> {
    Seq::new(f.len() / 2, |j: int| f[2 * j + 1])
}

/// `f(x) = E(x^2) + x O(x^2)` for the even and odd parts `E` and `O`.
proof fn lemma_even_odd_split(f: Seq<int>, x: int)
    requires
        f.len() % 2 == 0,
    ensures
        poly_eval(f, x) == poly_eval(evens(f), x * x) + x * poly_eval(odds(f), x * x),
    decreases f.len(),
{
    if f.len() == 0 {
        assert(evens(f).len() == 0 && odds(f).len() == 0);
    } else {
        let g = f.skip(2);
        lemma_even_odd_split(g, x);
        assert(f.drop_first().drop_first() =~= g);
        assert(evens(f).drop_first() =~= evens(g));
        assert(odds(f).drop_first() =~= odds(g));
        let y = x * x;
        let eg = poly_eval(evens(g), y);
        let og = poly_eval(odds(g), y);
        let pg = poly_eval(g, x);
        assert(poly_eval(f.drop_first(), x) == f[1] + x * pg);
        assert(poly_eval(f, x) == f[0] + x * (f[1] + x * pg));
        assert(poly_eval(evens(f), y) == f[0] + y * eg);
        assert(poly_eval(odds(f), y) == f[1] + y * og);
        assert(f[0] + x * (f[1] + x * (eg + x * og)) == (f[0] + y * eg) + x * (f[1] + y * og)) by (nonlinear_arith)
            requires
                y == x * x,
        ;
    }
}

/// The fold by `a` evaluates to `E(y) + a (O(y) - E(y))`.
proof fn lemma_fold_eval(f: Seq<int>, a: int, y: int)
    requires
        f.len() % 2 == 0,
    ensures
        poly_eval(fold_lowest(f, a), y) == poly_eval(evens(f), y) + a * (poly_eval(odds(f), y) - poly_eval(
            evens(f),
            y,
        )),
    decreases f.len(),
{
    if f.len() > 0 {
        let g = f.skip(2);
        lemma_fold_eval(g, a, y);
        assert(fold_lowest(f, a).drop_first() =~= fold_lowest(g, a));
        assert(evens(f).drop_first() =~= evens(g));
        assert(odds(f).drop_first() =~= odds(g));
        let eg = poly_eval(evens(g), y);
        let og = poly_eval(odds(g), y);
        let fl = fold_lowest(f, a);
        assert(fl[0] == f[0] + a * (f[1] - f[0]));
        assert(poly_eval(fl, y) == fl[0] + y * poly_eval(fold_lowest(g, a), y));
        assert(poly_eval(evens(f), y) == f[0] + y * eg);
        assert(poly_eval(odds(f), y) == f[1] + y * og);
        assert(f[0] + a * (f[1] - f[0]) + y * (eg + a * (og - eg)) == (f[0] + y * eg) + a * ((f[1] + y * og) - (f[0]
            + y * eg))) by (nonlinear_arith);
    } else {
        assert(fold_lowest(f, a).len() == 0 && evens(f).len() == 0 && odds(f).len() == 0);
        assert(poly_eval(fold_lowest(f, a), y) == 0);
        assert(poly_eval(evens(f), y) == 0);
        assert(poly_eval(odds(f), y) == 0);
        assert(a * (0int - 0int) == 0);
    }
}

/// The values at `beta` and `-beta` determine the fold's value at `beta^2`:
/// `beta (f(beta) + f(-beta)) (1 - a) + (f(beta) - f(-beta)) a = 2 beta g(beta^2)`
/// for the fold `g` of `f` by `a`.
pub proof fn lemma_fold_identity(f: Seq<int>, a: int, beta: int)
    requires
        f.len() % 2 == 0,
    ensures
        beta * ((poly_eval(f, beta) + poly_eval(f, -beta)) * (1 - a)) + (poly_eval(f, beta) - poly_eval(f, -beta))
            * a == 2 * beta * poly_eval(fold_lowest(f, a), beta * beta),
{
    lemma_even_odd_split(f, beta);
    lemma_even_odd_split(f, -beta);
    lemma_fold_eval(f, a, beta * beta);
    assert((-beta) * (-beta) == beta * beta) by (nonlinear_arith);
    let e = poly_eval(evens(f), beta * beta);
    let o = poly_eval(odds(f), beta * beta);
    assert(beta * (((e + beta * o) + (e + (-beta) * o)) * (1 - a)) + ((e + beta * o) - (e + (-beta) * o)) * a == 2
        * beta * (e + a * (o - e))) by (nonlinear_arith);
}

/// A unit cancels from both sides of a congruence.
pub proof fn lemma_unit_cancel(u: int, x: int, y: int, m: int)
    requires
        m > 1,
        is_unit(u, m),
        (u * x) % m == (u * y) % m,
    ensures
        x % m == y % m,
{
    let v = choose|v: int| #[trigger] ((u * v) % m) == 1;
    lemma_congruent_mul(u * x, u * y, v, v, m);
    assert((u * x) * v == (u * v) * x && (u * y) * v == (u * v) * y) by (nonlinear_arith);
    lemma_reduced(1, m);
    lemma_congruent_mul(u * v, 1, x, x, m);
    lemma_congruent_mul(u * v, 1, y, y, m);
}

/// The product of two units is a unit.
pub proof fn lemma_unit_mul(a: int, b: int, m: int)
    requires
        m > 1,
        is_unit(a, m),
        is_unit(b, m),
    ensures
        is_unit(a * b, m),
{
    let x = choose|x: int| #[trigger] ((a * x) % m) == 1;
    let y = choose|y: int| #[trigger] ((b * y) % m) == 1;
    lemma_reduced(1, m);
    lemma_congruent_mul(a * x, 1, b * y, 1, m);
    assert((a * x) * (b * y) == (a * b) * (x * y)) by (nonlinear_arith);
    assert(((a * b) * (x * y)) % m == (1int * 1int) % m);
}

/// One round of HyperKZG completeness: if `pos` and `neg` are the values of
/// `f` at `beta` and `-beta`, the `beta^2` value consistent with them is the
/// value of the fold of `f` at `beta^2`.
proof fn lemma_beta2_eval_complete(f: Seq<int>, a: int, beta: int, b2: int, pos: int, neg: int, m: int)
    requires
        m > 1,
        f.len() % 2 == 0,
        is_unit(2 * beta, m),
        0 <= b2 < m,
        pos == poly_eval(f, beta) % m,
        neg == poly_eval(f, -beta) % m,
        beta2_consistent(b2, pos, neg, a, beta, m),
    ensures
        b2 == poly_eval(reduce(fold_lowest(f, a), m), beta * beta) % m,
{
    let fp = poly_eval(f, beta);
    let fn_ = poly_eval(f, -beta);
    lemma_mod_twice(fp, m);
    lemma_mod_twice(fn_, m);
    lemma_congruent_add(pos, fp, neg, fn_, m);
    lemma_congruent_mul(pos + neg, fp + fn_, 1 - a, 1 - a, m);
    lemma_congruent_mul(beta, beta, (pos + neg) * (1 - a), (fp + fn_) * (1 - a), m);
    lemma_congruent_sub(pos, fp, neg, fn_, m);
    lemma_congruent_mul(pos - neg, fp - fn_, a, a, m);
    lemma_congruent_add(
        beta * ((pos + neg) * (1 - a)),
        beta * ((fp + fn_) * (1 - a)),
        (pos - neg) * a,
        (fp - fn_) * a,
        m,
    );
    lemma_fold_identity(f, a, beta);
    let g = poly_eval(fold_lowest(f, a), beta * beta);
    assert(2 * beta * b2 == (2 * beta) * b2 && 2 * beta * g == (2 * beta) * g) by (nonlinear_arith);
    lemma_unit_cancel(2 * beta, b2, g, m);
    lemma_reduced(b2, m);
    crate::univariate::lemma_poly_eval_reduce(fold_lowest(f, a), beta * beta, m);
}

/// Folding by the first `k` alphas keeps the multilinear extension at the
/// remaining alphas, modulo `m`.
pub proof fn lemma_fold_chain_mle(c: Seq<int>, al: Seq<int>, m: int, k: nat)
    requires
        m > 0,
        c.len() == pow2(al.len() as nat),
        k <= al.len(),
    ensures
        fold_chain(c, al, m, k).len() == pow2((al.len() - k) as nat),
        mle_eval(fold_chain(c, al, m, k), al.skip(k as int)) % m == mle_eval(c, al) % m,
    decreases k,
{
    if k == 0 {
        assert(al.skip(0) =~= al);
    } else {
        let k1 = (k - 1) as nat;
        lemma_fold_chain_mle(c, al, m, k1);
        let p = fold_chain(c, al, m, k1);
        let rest = al.skip(k1 as int);
        assert(rest[0] == al[k1 as int]);
        assert(rest.drop_first() =~= al.skip(k as int));
        lemma_pow2_unfold((al.len() - k1) as nat);
        let f = fold_lowest(p, al[k1 as int]);
        assert forall|i: int| 0 <= i < f.len() implies #[trigger] (reduce(f, m)[i] % m) == f[i] % m by {
            lemma_mod_twice(f[i], m);
        }
        lemma_mle_congruent(reduce(f, m), f, al.skip(k as int), m);
    }
}

/// HyperKZG completeness for one party: when the folded oracles are the
/// folds of `c` by the alphas, each `beta^2` value reported for a fold is the
/// value of that fold at `beta^2`, and the last one, where the polynomial has
/// been folded to a constant, is the multilinear extension of `c` at the
/// alphas.
pub proof fn lemma_local_evals_complete<F: Field>(
    r: HyperKZGLocalEvals<F>,
    c: Seq<int>,
    folded: Seq<Seq<int>>,
    alphas: Seq<int>,
    beta: int,
)
    requires
        local_evals_of(r, c, folded, alphas, beta),
        is_unit(beta, F::modulus()),
        is_unit(2, F::modulus()),
        alphas.len() >= 1,
        c.len() == pow2(alphas.len() as nat),
        folded.len() == alphas.len() - 1,
        forall|i: int| 0 <= i < folded.len() ==> #[trigger] folded[i] == fold_chain(c, alphas, F::modulus(), (i + 1) as nat),
    ensures
        forall|i: int|
            0 <= i < alphas.len() ==> #[trigger] r.beta2_evals@[i + 1].value() == poly_eval(
                fold_chain(c, alphas, F::modulus(), (i + 1) as nat),
                beta * beta,
            ) % F::modulus(),
        r.beta2_evals@[alphas.len() as int].value() == mle_eval(c, alphas) % F::modulus(),
{
    let m = F::modulus();
    let n = alphas.len() as int;
    F::lemma_modulus();
    lemma_unit_mul(2, beta, m);
    assert(local_rounds(folded.len() as int, n) == n);
    assert forall|i: int| 0 <= i < n implies #[trigger] r.beta2_evals@[i + 1].value() == poly_eval(
        fold_chain(c, alphas, m, (i + 1) as nat),
        beta * beta,
    ) % m by {
        let f = fold_chain(c, alphas, m, i as nat);
        lemma_fold_chain_mle(c, alphas, m, i as nat);
        assert(oracle_at(c, folded, i) == f);
        lemma_pow2_unfold((n - i) as nat);
        assert(f.len() % 2 == 0);
        assert(f.len() <= c.len()) by {
            lemma_fold_chain_len(c, alphas, m, i as nat);
            lemma_pow2_pos(i as nat);
            lemma_div_is_ordered_by_denominator(c.len() as int, 1, pow2(i as nat) as int);
        }
        assert(f.take(f.len() as int) =~= f);
        F::lemma_value_range(r.beta2_evals@[i + 1]);
        assert(r.pos_beta_evals@[i].value() == eval_prefix(oracle_at(c, folded, i), beta, c.len() as int) % m);
        lemma_beta2_eval_complete(
            f,
            alphas[i],
            beta,
            r.beta2_evals@[i + 1].value(),
            r.pos_beta_evals@[i].value(),
            r.neg_beta_evals@[i].value(),
            m,
        );
    }
    let last = fold_chain(c, alphas, m, n as nat);
    lemma_fold_chain_mle(c, alphas, m, n as nat);
    assert(alphas.skip(n) =~= Seq::<int>::empty());
    lemma2_to64();
    assert(last.len() == 1);
    assert(last.drop_first().len() == 0);
    assert(poly_eval(last.drop_first(), beta * beta) == 0);
    assert(poly_eval(last, beta * beta) == last[0] + (beta * beta) * 0);
    assert(r.beta2_evals@[n].value() == r.beta2_evals@[(n - 1) + 1].value());
    if n >= 1 {
        let f = fold_chain(c, alphas, m, (n - 1) as nat);
        assert(last == reduce(fold_lowest(f, alphas[n - 1]), m));
        lemma_mod_twice(fold_lowest(f, alphas[n - 1])[0], m);
    }
}


/// `r` holds `b0` at `beta^2` for the polynomial itself, then for each round
/// `i` (as many as the shortest of `pos`, `neg` and `alphas` allows) the
/// reported values `pos[i]` and `neg[i]` and the `beta^2` value of the fold
/// consistent with them.
pub open spec fn evals_from_reported<F: Field>(
    r: HyperKZGLocalEvals<F>,
    b0: int,
    pos: Seq<int>,
    neg: Seq<int>,
    alphas: Seq<int>,
    beta: int,
) -> bool {
    let n = if pos.len() < neg.len() {
        if pos.len() < alphas.len() { pos.len() } else { alphas.len() }
    } else {
        if neg.len() < alphas.len() { neg.len() } else { alphas.len() }
    };
    &&& r.beta2_evals@.len() == n + 1
    &&& r.pos_beta_evals@.len() == n
    &&& r.neg_beta_evals@.len() == n
    &&& r.beta2_evals@[0].value() == b0
    &&& forall|i: int|
        0 <= i < n ==> {
            &&& (#[trigger] r.pos_beta_evals@[i]).value() == pos[i]
            &&& r.neg_beta_evals@[i].value() == neg[i]
            &&& beta2_consistent(r.beta2_evals@[i + 1].value(), pos[i], neg[i], alphas[i], beta, F::modulus())
        }
}

/// Whatever evaluations a verifier rebuilds from the reported values `b0`,
/// `pos` and `neg` with `alphas` at `beta` end in `v`.
pub open spec fn rebuilt_evals_end_in<F: Field>(
    b0: int,
    pos: Seq<int>,
    neg: Seq<int>,
    alphas: Seq<int>,
    beta: int,
    v: int,
) -> bool {
    forall|le: HyperKZGLocalEvals<F>|
        #[trigger] evals_from_reported(le, b0, pos, neg, alphas, beta) ==> le.beta2_evals@[le.beta2_evals@.len()
            - 1].value() == v
}

/// A `beta^2` value consistent with given values at `beta` and `-beta` is
/// unique, `2 beta` being a unit.
proof fn lemma_beta2_unique(x: int, y: int, pos: int, neg: int, alpha: int, beta: int, m: int)
    requires
        m > 1,
        is_unit(2 * beta, m),
        0 <= x < m,
        0 <= y < m,
        beta2_consistent(x, pos, neg, alpha, beta, m),
        beta2_consistent(y, pos, neg, alpha, beta, m),
    ensures
        x == y,
{
    assert(2 * beta * x == (2 * beta) * x && 2 * beta * y == (2 * beta) * y) by (nonlinear_arith);
    lemma_unit_cancel(2 * beta, x, y, m);
    lemma_reduced(x, m);
    lemma_reduced(y, m);
}

/// Evaluation is linear in the coefficients.
proof fn lemma_poly_eval_lin(a: Seq<int>, b: Seq<int>, u: int, v: int, x: int)
    requires
        a.len() == b.len(),
    ensures
        poly_eval(Seq::new(a.len(), |i: int| u * a[i] + v * b[i]), x) == u * poly_eval(a, x) + v * poly_eval(b, x),
    decreases a.len(),
{
    let s = Seq::new(a.len(), |i: int| u * a[i] + v * b[i]);
    if a.len() > 0 {
        let (a1, b1) = (a.drop_first(), b.drop_first());
        lemma_poly_eval_lin(a1, b1, u, v, x);
        assert(s.drop_first() =~= Seq::new(a1.len(), |i: int| u * a1[i] + v * b1[i]));
        let (pa, pb) = (poly_eval(a1, x), poly_eval(b1, x));
        assert(u * a[0] + v * b[0] + x * (u * pa + v * pb) == u * (a[0] + x * pa) + v * (b[0] + x * pb))
            by (nonlinear_arith);
    }
}

/// The `beta^2` value consistent with combinations, through the powers of
/// `y`, of values at `beta` and `-beta` is the same combination of the
/// `beta^2` values consistent with each: consistency is linear.
pub proof fn lemma_consistent_combination(
    f: int,
    pos: int,
    neg: int,
    fs: Seq<int>,
    ps: Seq<int>,
    ns: Seq<int>,
    alpha: int,
    beta: int,
    y: int,
    m: int,
)
    requires
        m > 1,
        is_unit(2 * beta, m),
        0 <= f < m,
        fs.len() == ps.len(),
        ns.len() == ps.len(),
        forall|p: int| 0 <= p < fs.len() ==> beta2_consistent(#[trigger] fs[p], ps[p], ns[p], alpha, beta, m),
        pos % m == poly_eval(ps, y) % m,
        neg % m == poly_eval(ns, y) % m,
        beta2_consistent(f, pos, neg, alpha, beta, m),
    ensures
        f == poly_eval(fs, y) % m,
{
    let u = 2 * beta;
    let ca = beta * (1 - alpha) + alpha;
    let cb = beta * (1 - alpha) - alpha;
    assert forall|x: int, z: int| #[trigger] (beta * ((x + z) * (1 - alpha)) + (x - z) * alpha) == ca * x + cb * z by {
        assert(beta * ((x + z) * (1 - alpha)) + (x - z) * alpha == (beta * (1 - alpha) + alpha) * x + (beta * (1
            - alpha) - alpha) * z) by (nonlinear_arith);
    }
    let g = Seq::new(fs.len(), |p: int| u * fs[p] + 0 * fs[p]);
    let h = Seq::new(ps.len(), |p: int| ca * ps[p] + cb * ns[p]);
    assert forall|p: int| 0 <= p < g.len() implies #[trigger] g[p] % m == h[p] % m by {
        assert(beta2_consistent(fs[p], ps[p], ns[p], alpha, beta, m));
        assert(beta * ((ps[p] + ns[p]) * (1 - alpha)) + (ps[p] - ns[p]) * alpha == ca * ps[p] + cb * ns[p]);
        assert(2 * beta * fs[p] == u * fs[p] + 0 * fs[p]) by (nonlinear_arith)
            requires
                u == 2 * beta,
        ;
    }
    crate::univariate::lemma_eval_congruent(g, h, y, m);
    lemma_poly_eval_lin(fs, fs, u, 0, y);
    lemma_poly_eval_lin(ps, ns, ca, cb, y);
    let (ef, ep, en) = (poly_eval(fs, y), poly_eval(ps, y), poly_eval(ns, y));
    // u * f = ca * pos + cb * neg = ca * ep + cb * en = u * ef, all modulo m
    assert(beta * ((pos + neg) * (1 - alpha)) + (pos - neg) * alpha == ca * pos + cb * neg);
    lemma_congruent_mul(ca, ca, pos, ep, m);
    lemma_congruent_mul(cb, cb, neg, en, m);
    lemma_congruent_add(ca * pos, ca * ep, cb * neg, cb * en, m);
    assert(u * ef + 0 * ef == u * ef);
    assert(2 * beta * f == u * f) by (nonlinear_arith)
        requires
            u == 2 * beta,
    ;
    lemma_unit_cancel(u, f, ef, m);
    lemma_reduced(f, m);
}

/// Evaluations rebuilt from the same reported values at an admissible `beta`
/// have the same values throughout.
pub proof fn lemma_rebuilt_values_unique<F: Field>(
    l1: HyperKZGLocalEvals<F>,
    l2: HyperKZGLocalEvals<F>,
    b0: int,
    pos: Seq<int>,
    neg: Seq<int>,
    alphas: Seq<int>,
    beta: int,
)
    requires
        hyperkzg_beta_ok(beta, F::modulus()),
        evals_from_reported(l1, b0, pos, neg, alphas, beta),
        evals_from_reported(l2, b0, pos, neg, alphas, beta),
    ensures
        values(l1.beta2_evals@) == values(l2.beta2_evals@),
        values(l1.pos_beta_evals@) == values(l2.pos_beta_evals@),
        values(l1.neg_beta_evals@) == values(l2.neg_beta_evals@),
{
    let m = F::modulus();
    F::lemma_modulus();
    lemma_unit_mul(2, beta, m);
    let n = l1.pos_beta_evals@.len() as int;
    assert forall|i: int| 0 <= i < n implies #[trigger] values(l1.pos_beta_evals@)[i] == values(l2.pos_beta_evals@)[i] by {
        let _ = l1.pos_beta_evals@[i];
        let _ = l2.pos_beta_evals@[i];
    }
    assert forall|i: int| 0 <= i < n implies #[trigger] values(l1.neg_beta_evals@)[i] == values(l2.neg_beta_evals@)[i] by {
        let _ = l1.pos_beta_evals@[i];
        let _ = l2.pos_beta_evals@[i];
    }
    assert forall|i: int| 0 <= i <= n implies #[trigger] values(l1.beta2_evals@)[i] == values(l2.beta2_evals@)[i] by {
        if i > 0 {
            let t = i - 1;
            let _ = l1.pos_beta_evals@[t];
            let _ = l2.pos_beta_evals@[t];
            F::lemma_value_range(l1.beta2_evals@[t + 1]);
            F::lemma_value_range(l2.beta2_evals@[t + 1]);
            lemma_beta2_unique(
                l1.beta2_evals@[t + 1].value(),
                l2.beta2_evals@[t + 1].value(),
                pos[t],
                neg[t],
                alphas[t],
                beta,
                m,
            );
        }
    }
    assert(values(l1.beta2_evals@) =~= values(l2.beta2_evals@));
    assert(values(l1.pos_beta_evals@) =~= values(l2.pos_beta_evals@));
    assert(values(l1.neg_beta_evals@) =~= values(l2.neg_beta_evals@));
}

/// Evaluations rebuilt from the same reported values at an admissible `beta`
/// end in the same value.
pub proof fn lemma_rebuilt_unique<F: Field>(
    l1: HyperKZGLocalEvals<F>,
    l2: HyperKZGLocalEvals<F>,
    b0: int,
    pos: Seq<int>,
    neg: Seq<int>,
    alphas: Seq<int>,
    beta: int,
)
    requires
        hyperkzg_beta_ok(beta, F::modulus()),
        evals_from_reported(l1, b0, pos, neg, alphas, beta),
        evals_from_reported(l2, b0, pos, neg, alphas, beta),
    ensures
        l1.beta2_evals@[l1.beta2_evals@.len() - 1].value() == l2.beta2_evals@[l2.beta2_evals@.len() - 1].value(),
{
    let m = F::modulus();
    F::lemma_modulus();
    lemma_unit_mul(2, beta, m);
    let n = l1.beta2_evals@.len() - 1;
    if n > 0 {
        let t = n - 1;
        let _ = l1.pos_beta_evals@[t];
        let _ = l2.pos_beta_evals@[t];
        F::lemma_value_range(l1.beta2_evals@[t + 1]);
        F::lemma_value_range(l2.beta2_evals@[t + 1]);
        lemma_beta2_unique(
            l1.beta2_evals@[t + 1].value(),
            l2.beta2_evals@[t + 1].value(),
            pos[t],
            neg[t],
            alphas[t],
            beta,
            m,
        );
    }
}

/// HyperKZG completeness of the evaluation check: from the values that an
/// honest prover reports (its polynomial at `beta^2`, its oracles at `beta`
/// and `-beta`), a verifier rebuilds evaluations ending in the multilinear
/// extension of the polynomial at the alphas.
pub proof fn lemma_reported_evals_complete<F: Field>(
    r: HyperKZGLocalEvals<F>,
    c: Seq<int>,
    folded: Seq<Seq<int>>,
    alphas: Seq<int>,
    beta: int,
)
    requires
        hyperkzg_folds_honest(c, folded, alphas, F::modulus()),
        local_evals_of(r, c, folded, alphas, beta),
        hyperkzg_beta_ok(beta, F::modulus()),
    ensures
        rebuilt_evals_end_in::<F>(
            r.beta2_evals@[0].value(),
            values(r.pos_beta_evals@),
            values(r.neg_beta_evals@),
            alphas,
            beta,
            mle_eval(c, alphas) % F::modulus(),
        ),
{
    let m = F::modulus();
    let n = alphas.len() as int;
    F::lemma_modulus();
    assert(local_rounds(folded.len() as int, n) == n);
    lemma_unit_mul(2, beta, m);
    lemma_local_evals_complete(r, c, folded, alphas, beta);
    assert forall|le: HyperKZGLocalEvals<F>|
        #[trigger] evals_from_reported(
            le,
            r.beta2_evals@[0].value(),
            values(r.pos_beta_evals@),
            values(r.neg_beta_evals@),
            alphas,
            beta,
        ) implies le.beta2_evals@[le.beta2_evals@.len() - 1].value() == mle_eval(c, alphas) % m by {
        assert(le.beta2_evals@.len() == n + 1);
        let t = n - 1;
        let _ = r.pos_beta_evals@[t];
        let _ = le.pos_beta_evals@[t];
        F::lemma_value_range(le.beta2_evals@[t + 1]);
        F::lemma_value_range(r.beta2_evals@[t + 1]);
        lemma_beta2_unique(
            le.beta2_evals@[t + 1].value(),
            r.beta2_evals@[t + 1].value(),
            values(r.pos_beta_evals@)[t],
            values(r.neg_beta_evals@)[t],
            alphas[t],
            beta,
            m,
        );
    }
}

/// The `j`-th coefficient of `c + gamma f_0 + gamma^2 f_1 + ... + gamma^k
/// f_(k-1)`, a missing coefficient counting as zero.
pub open spec fn aggregate_coeff(c: Seq<int>, folded: Seq<Seq<int>>, gamma: int, k: nat, j: int) -> int
    decreases k,
{
    if k == 0 {
        if j < c.len() {
            c[j]
        } else {
            0
        }
    } else {
        aggregate_coeff(c, folded, gamma, (k - 1) as nat, j) + if j < folded[k - 1].len() {
            vstd::arithmetic::power::pow(gamma, k) * folded[k - 1][j]
        } else {
            0
        }
    }
}

/// The length of `c + gamma f_0 + ... + gamma^k f_(k-1)`: the longest of the
/// vectors.
pub open spec fn aggregate_len(c: Seq<int>, folded: Seq<Seq<int>>, k: nat) -> int
    decreases k,
{
    if k == 0 {
        c.len() as int
    } else {
        let l = aggregate_len(c, folded, (k - 1) as nat);
        if l < folded[k - 1].len() {
            folded[k - 1].len() as int
        } else {
            l
        }
    }
}

/// The combination `c + gamma f_0 + gamma^2 f_1 + ...` of the polynomial and
/// its folded oracles.
pub fn coeff_form_hyperkzg_local_oracle_polys_aggregate<F: Field>(
    coeffs: &[F],
    folded_oracle_coeffs: &[Vec<F>],
    gamma: F,
) -> (r: Vec<F>)
    requires
        folded_oracle_coeffs@.len() < usize::MAX,
    ensures
        r@.len() == aggregate_len(values(coeffs@), vec_values(folded_oracle_coeffs@), folded_oracle_coeffs@.len() as nat),
        forall|j: int|
            0 <= j < r@.len() ==> (#[trigger] r@[j]).value() == aggregate_coeff(
                values(coeffs@),
                vec_values(folded_oracle_coeffs@),
                gamma.value(),
                folded_oracle_coeffs@.len() as nat,
                j,
            ) % F::modulus(),
{
    let ghost m = F::modulus();
    let ghost c = values(coeffs@);
    let ghost folded = vec_values(folded_oracle_coeffs@);
    let ghost g = gamma.value();
    let k = folded_oracle_coeffs.len();
    let gamma_pow_series = powers_series(&gamma, k + 1);
    let mut f: Vec<F> = Vec::new();
    let mut j: usize = 0;
    while j < coeffs.len()
        invariant
            j <= coeffs@.len(),
            f@ == coeffs@.subrange(0, j as int),
        decreases coeffs@.len() - j,
    {
        f.push(coeffs[j]);
        j = j + 1;
    }
    proof {
        F::lemma_modulus();
        assert forall|t: int| 0 <= t < f@.len() implies (#[trigger] f@[t]).value() == aggregate_coeff(c, folded, g, 0, t) % m by {
            F::lemma_value_range(coeffs@[t]);
            lemma_reduced(c[t], m);
        }
    }
    let mut i: usize = 0;
    while i < k
        invariant
            i <= k,
            k == folded_oracle_coeffs@.len(),
            m == F::modulus(),
            m > 1,
            c == values(coeffs@),
            folded == vec_values(folded_oracle_coeffs@),
            g == gamma.value(),
            gamma_pow_series@.len() == k + 1,
            forall|t: int| 0 <= t < k + 1 ==> #[trigger] gamma_pow_series@[t].value() == vstd::arithmetic::power::pow(g, t as nat) % m,
            f@.len() == aggregate_len(c, folded, i as nat),
            forall|t: int| 0 <= t < f@.len() ==> (#[trigger] f@[t]).value() == aggregate_coeff(c, folded, g, i as nat, t) % m,
        decreases k - i,
    {
        let ghost before = f@;
        let ghost gi = gamma_pow_series@[i + 1].value();
        polynomial_add(&mut f, gamma_pow_series[i + 1], folded_oracle_coeffs[i].as_slice());
        proof {
            let fi = folded[i as int];
            assert(fi == values(folded_oracle_coeffs@[i as int]@));
            let pw = vstd::arithmetic::power::pow(g, (i + 1) as nat);
            assert forall|t: int| 0 <= t < f@.len() implies (#[trigger] f@[t]).value() == aggregate_coeff(
                c,
                folded,
                g,
                (i + 1) as nat,
                t,
            ) % m by {
                let prev = aggregate_coeff(c, folded, g, i as nat, t);
                let a = if t < before.len() { before[t].value() } else { 0 };
                let pa = if t < before.len() { prev } else { 0 };
                if t >= before.len() {
                    assert(t >= aggregate_len(c, folded, i as nat));
                    lemma_aggregate_beyond(c, folded, g, i as nat, t);
                    lemma_reduced(0, m);
                } else {
                    lemma_mod_twice(prev, m);
                }
                assert(a % m == prev % m);
                if t < fi.len() {
                    let b = gi * fi[t];
                    lemma_mod_twice(pw, m);
                    lemma_congruent_mul(gi, pw, fi[t], fi[t], m);
                    lemma_congruent_add(a, prev, b, pw * fi[t], m);
                } else {
                    lemma_congruent_add(a, prev, 0, 0, m);
                }
            }
        }
        i = i + 1;
    }
    f
}

/// Beyond the aggregate's length, every coefficient is zero.
proof fn lemma_aggregate_beyond(c: Seq<int>, folded: Seq<Seq<int>>, gamma: int, k: nat, j: int)
    requires
        j >= aggregate_len(c, folded, k),
    ensures
        aggregate_coeff(c, folded, gamma, k, j) == 0,
    decreases k,
{
    if k > 0 {
        lemma_aggregate_beyond(c, folded, gamma, (k - 1) as nat, j);
    }
}

impl<F: Field> HyperKZGLocalEvals<F> {
    /// Local evaluations holding only the polynomial's value at `beta^2`.
    pub fn new_from_beta2_evals(beta2_eval: F) -> (r: Self)
        ensures
            r.beta2_evals@ == seq![beta2_eval],
            r.pos_beta_evals@.len() == 0,
            r.neg_beta_evals@.len() == 0,
    {
        let mut beta2_evals: Vec<F> = Vec::new();
        beta2_evals.push(beta2_eval);
        HyperKZGLocalEvals { beta2_evals, pos_beta_evals: Vec::new(), neg_beta_evals: Vec::new() }
    }

    /// Rebuilds the local evaluations from the exported ones: the `beta^2`
    /// value of each fold is recomputed from the values at `beta` and `-beta`.
    #[verifier::spinoff_prover]
    pub fn new_from_exported_evals(exported: &HyperKZGExportedLocalEvals<F>, alphas: &[F], beta: F) -> (r: Self)
        requires
            is_unit(beta.value(), F::modulus()),
            is_unit(2, F::modulus()),
        ensures
            evals_from_reported(
                r,
                exported.beta_x2_eval.value(),
                values(exported.pos_beta_x_evals@),
                values(exported.neg_beta_x_evals@),
                values(alphas@),
                beta.value(),
            ),
    {
        let ghost m = F::modulus();
        let ghost bv = beta.value();
        proof {
            F::lemma_modulus();
        }
        let beta_inv = beta.inverse().unwrap();
        let two = F::one().plus(&F::one());
        proof {
            lemma_reduced(2, m);
            lemma_unit_congruent(2, two.value(), m);
        }
        let two_inv = two.inverse().unwrap();
        let mut local_evals = Self::new_from_beta2_evals(exported.beta_x2_eval);
        let pos = &exported.pos_beta_x_evals;
        let neg = &exported.neg_beta_x_evals;
        let n = if pos.len() < neg.len() {
            if pos.len() < alphas.len() { pos.len() } else { alphas.len() }
        } else {
            if neg.len() < alphas.len() { neg.len() } else { alphas.len() }
        };
        let mut i: usize = 0;
        while i < n
            invariant
                i <= n,
                n <= pos@.len(),
                n <= neg@.len(),
                n <= alphas@.len(),
                m == F::modulus(),
                bv == beta.value(),
                (bv * beta_inv.value()) % m == 1,
                (2 * two_inv.value()) % m == 1,
                local_evals.beta2_evals@.len() == i + 1,
                local_evals.pos_beta_evals@.len() == i,
                local_evals.neg_beta_evals@.len() == i,
                local_evals.beta2_evals@[0] == exported.beta_x2_eval,
                forall|t: int|
                    0 <= t < i ==> {
                        &&& (#[trigger] local_evals.pos_beta_evals@[t]) == pos@[t]
                        &&& local_evals.neg_beta_evals@[t] == neg@[t]
                        &&& beta2_consistent(
                            local_evals.beta2_evals@[t + 1].value(),
                            pos@[t].value(),
                            neg@[t].value(),
                            alphas@[t].value(),
                            bv,
                            m,
                        )
                    },
            decreases n - i,
        {
            let b2 = fold_beta2_eval(pos[i], neg[i], alphas[i], beta_inv, two_inv, Ghost(bv));
            local_evals.beta2_evals.push(b2);
            local_evals.pos_beta_evals.push(pos[i]);
            local_evals.neg_beta_evals.push(neg[i]);
            i = i + 1;
        }
        proof {
            let (pv, nv, av) = (values(pos@), values(neg@), values(alphas@));
            assert forall|t: int| 0 <= t < n implies {
                &&& (#[trigger] local_evals.pos_beta_evals@[t]).value() == pv[t]
                &&& local_evals.neg_beta_evals@[t].value() == nv[t]
                &&& beta2_consistent(local_evals.beta2_evals@[t + 1].value(), pv[t], nv[t], av[t], bv, m)
            } by {
                assert(t < i);
                assert(local_evals.pos_beta_evals@[t] == pos@[t]);
                assert(pv[t] == pos@[t].value());
                assert(nv[t] == neg@[t].value());
                assert(av[t] == alphas@[t].value());
            }
            assert(pv.len() == pos@.len() && nv.len() == neg@.len() && av.len() == alphas@.len());
            assert(local_evals.beta2_evals@.len() == n + 1);
            assert(local_evals.beta2_evals@[0].value() == exported.beta_x2_eval.value());
            assert(evals_from_reported(local_evals, exported.beta_x2_eval.value(), pv, nv, av, bv));
        }
        local_evals
    }

    /// The `beta^2`, `beta` and `-beta` evaluations combined with the powers
    /// of `gamma`; of the `beta^2` values, one per oracle is used, the last
    /// (the folded constant) is not.
    pub fn gamma_aggregate_evals(&self, gamma: F) -> (r: (F, F, F))
        requires
            self.pos_beta_evals@.len() == self.neg_beta_evals@.len(),
            self.pos_beta_evals@.len() + 1 == self.beta2_evals@.len(),
            self.pos_beta_evals@.len() >= 1,
        ensures
            r.0.value() == eval_prefix(values(self.beta2_evals@), gamma.value(), self.pos_beta_evals@.len() as int)
                % F::modulus(),
            r.1.value() == eval_prefix(values(self.pos_beta_evals@), gamma.value(), self.pos_beta_evals@.len() as int)
                % F::modulus(),
            r.2.value() == eval_prefix(values(self.neg_beta_evals@), gamma.value(), self.pos_beta_evals@.len() as int)
                % F::modulus(),
    {
        let ghost m = F::modulus();
        let n = self.pos_beta_evals.len();
        let gamma_pow_series = powers_series(&gamma, n);
        let v_beta2 = univariate_evaluate(self.beta2_evals.as_slice(), gamma_pow_series.as_slice());
        let v_beta = univariate_evaluate(self.pos_beta_evals.as_slice(), gamma_pow_series.as_slice());
        let v_neg_beta = univariate_evaluate(self.neg_beta_evals.as_slice(), gamma_pow_series.as_slice());
        proof {
            F::lemma_modulus();
            let p = values(gamma_pow_series@);
            lemma_eval_by_powers(values(self.beta2_evals@), p, gamma.value(), n as int, m);
            lemma_eval_by_powers(values(self.pos_beta_evals@), p, gamma.value(), n as int, m);
            lemma_eval_by_powers(values(self.neg_beta_evals@), p, gamma.value(), n as int, m);
            lemma_mod_twice(dot_prefix(values(self.beta2_evals@), p, n as int), m);
            lemma_mod_twice(dot_prefix(values(self.pos_beta_evals@), p, n as int), m);
            lemma_mod_twice(dot_prefix(values(self.neg_beta_evals@), p, n as int), m);
        }
        (v_beta2, v_beta, v_neg_beta)
    }

    /// The polynomial of degree at most two through the aggregated
    /// evaluations: `v_beta` at `beta`, `v_neg_beta` at `-beta` and `v_beta2`
    /// at `beta^2`.
    pub fn interpolate_degree2_aggregated_evals(&self, beta: F, gamma: F) -> (r: [F; 3])
        requires
            self.pos_beta_evals@.len() == self.neg_beta_evals@.len(),
            self.pos_beta_evals@.len() + 1 == self.beta2_evals@.len(),
            self.pos_beta_evals@.len() >= 1,
            is_unit(
                (beta.value() - (-beta.value())) * (beta.value() - beta.value() * beta.value()),
                F::modulus(),
            ),
            is_unit(
                ((-beta.value()) - beta.value()) * ((-beta.value()) - beta.value() * beta.value()),
                F::modulus(),
            ),
            is_unit(
                (beta.value() * beta.value() - beta.value()) * (beta.value() * beta.value() - (-beta.value())),
                F::modulus(),
            ),
        ensures
            ({
                let n = self.pos_beta_evals@.len() as int;
                let (g, b, m) = (gamma.value(), beta.value(), F::modulus());
                let c = values(r@);
                &&& poly_eval(c, b) % m == eval_prefix(values(self.pos_beta_evals@), g, n) % m
                &&& poly_eval(c, -b) % m == eval_prefix(values(self.neg_beta_evals@), g, n) % m
                &&& poly_eval(c, b * b) % m == eval_prefix(values(self.beta2_evals@), g, n) % m
            }),
    {
        let ghost m = F::modulus();
        let ghost b = beta.value();
        let beta2 = beta.times(&beta);
        let neg_beta = beta.negate();
        let (v_beta2, v_beta, v_neg_beta) = self.gamma_aggregate_evals(gamma);
        proof {
            F::lemma_modulus();
            F::lemma_value_range(beta);
            lemma_reduced(b, m);
            lemma_mod_twice(-b, m);
            lemma_mod_twice(b * b, m);
            let (r0, r1, r2) = (b, neg_beta.value(), beta2.value());
            lemma_unit_pair(b, -b, b * b, r0, r1, r2, m);
            lemma_unit_pair(-b, b, b * b, r1, r0, r2, m);
            lemma_unit_pair(b * b, b, -b, r2, r0, r1, m);
        }
        let r = crate::univariate::coeff_form_degree2_lagrange([beta, neg_beta, beta2], [v_beta, v_neg_beta, v_beta2]);
        proof {
            let c = values(r@);
            lemma_poly_eval_point_congruent(c, neg_beta.value(), -b, m);
            lemma_poly_eval_point_congruent(c, beta2.value(), b * b, m);
            F::lemma_value_range(v_beta);
            F::lemma_value_range(v_neg_beta);
            F::lemma_value_range(v_beta2);
            lemma_mod_twice(eval_prefix(values(self.pos_beta_evals@), gamma.value(), self.pos_beta_evals@.len() as int), m);
            lemma_mod_twice(eval_prefix(values(self.neg_beta_evals@), gamma.value(), self.pos_beta_evals@.len() as int), m);
            lemma_mod_twice(eval_prefix(values(self.beta2_evals@), gamma.value(), self.pos_beta_evals@.len() as int), m);
            let rr: [F; 3] = [beta, neg_beta, beta2];
            assert(rr@[0] == beta && rr@[1] == neg_beta && rr@[2] == beta2);
            assert(poly_eval(c, rr@[0].value()) % m == v_beta.value());
            assert(poly_eval(c, rr@[1].value()) % m == v_neg_beta.value());
            assert(poly_eval(c, rr@[2].value()) % m == v_beta2.value());
        }
        r
    }

    /// The `beta^2` value of the last fold: the multilinear evaluation, once
    /// the polynomial has been folded to a constant.
    pub fn multilinear_final_eval(&self) -> (r: F)
        requires
            self.beta2_evals@.len() >= 1,
        ensures
            r == self.beta2_evals@[self.beta2_evals@.len() - 1],
    {
        self.beta2_evals[self.beta2_evals.len() - 1]
    }
}

/// The denominator of a Lagrange basis polynomial stays a unit when its
/// roots are replaced by congruent ones.
pub proof fn lemma_unit_pair(x: int, y: int, z: int, x2: int, y2: int, z2: int, m: int)
    requires
        m > 0,
        x % m == x2 % m,
        y % m == y2 % m,
        z % m == z2 % m,
        is_unit((x - y) * (x - z), m),
    ensures
        is_unit((x2 - y2) * (x2 - z2), m),
{
    lemma_congruent_sub(x, x2, y, y2, m);
    lemma_congruent_sub(x, x2, z, z2, m);
    lemma_congruent_mul(x - y, x2 - y2, x - z, x2 - z2, m);
    lemma_unit_congruent((x - y) * (x - z), (x2 - y2) * (x2 - z2), m);
}

/// The evaluations a party exports: its polynomial at `beta^2`, and each of
/// its oracles at `beta` and `-beta`.
#[derive(Clone, Debug)]
pub struct HyperKZGExportedLocalEvals<F> {
    pub beta_x2_eval: F,
    pub pos_beta_x_evals: Vec<F>,
    pub neg_beta_x_evals: Vec<F>,
}

/// Entry `i` of exported evaluations with `n` values at each of `beta` and
/// `-beta`: first those at `beta`, then those at `-beta`, then the one at
/// `beta^2`.
pub open spec fn exported_entry<F>(e: HyperKZGExportedLocalEvals<F>, i: int) -> F {
    let n = e.pos_beta_x_evals@.len() as int;
    if i < n {
        e.pos_beta_x_evals@[i]
    } else if i < 2 * n {
        e.neg_beta_x_evals@[i - n]
    } else {
        e.beta_x2_eval
    }
}

/// The exported evaluations are laid out for indexing: as many values at
/// `-beta` as at `beta`, and at least one.
pub open spec fn exported_well_formed<F>(e: HyperKZGExportedLocalEvals<F>) -> bool {
    &&& e.pos_beta_x_evals@.len() == e.neg_beta_x_evals@.len()
    &&& e.pos_beta_x_evals@.len() >= 1
}

impl<F: Field> HyperKZGExportedLocalEvals<F> {
    /// Zero evaluations, `evals_num` at each of `beta` and `-beta`.
    pub fn new(evals_num: usize) -> (r: Self)
        ensures
            r.beta_x2_eval.value() == 0,
            r.pos_beta_x_evals@.len() == evals_num,
            r.neg_beta_x_evals@.len() == evals_num,
            forall|i: int| 0 <= i < evals_num ==> (#[trigger] r.pos_beta_x_evals@[i]).value() == 0,
            forall|i: int| 0 <= i < evals_num ==> (#[trigger] r.neg_beta_x_evals@[i]).value() == 0,
    {
        let mut pos: Vec<F> = Vec::new();
        let mut neg: Vec<F> = Vec::new();
        let mut i: usize = 0;
        while i < evals_num
            invariant
                i <= evals_num,
                pos@.len() == i,
                neg@.len() == i,
                forall|t: int| 0 <= t < i ==> (#[trigger] pos@[t]).value() == 0,
                forall|t: int| 0 <= t < i ==> (#[trigger] neg@[t]).value() == 0,
            decreases evals_num - i,
        {
            pos.push(F::zero());
            neg.push(F::zero());
            i = i + 1;
        }
        HyperKZGExportedLocalEvals { beta_x2_eval: F::zero(), pos_beta_x_evals: pos, neg_beta_x_evals: neg }
    }

    /// The number of exported values.
    pub fn len(&self) -> (r: usize)
        requires
            self.pos_beta_x_evals@.len() + self.neg_beta_x_evals@.len() + 1 <= usize::MAX,
        ensures
            r == self.pos_beta_x_evals@.len() + self.neg_beta_x_evals@.len() + 1,
    {
        self.pos_beta_x_evals.len() + self.neg_beta_x_evals.len() + 1
    }

    /// The `index`-th exported value (see `exported_entry`).
    pub fn index(&self, index: usize) -> (r: F)
        requires
            exported_well_formed(*self),
            index <= 2 * self.pos_beta_x_evals@.len(),
        ensures
            r == exported_entry(*self, index as int),
    {
        let evals_len = self.pos_beta_x_evals.len();
        if index < evals_len {
            self.pos_beta_x_evals[index]
        } else if index - evals_len < evals_len {
            self.neg_beta_x_evals[index - evals_len]
        } else {
            self.beta_x2_eval
        }
    }

    /// Replaces the `index`-th exported value (see `exported_entry`) by `value`.
    pub fn index_set(&mut self, index: usize, value: F)
        requires
            exported_well_formed(*old(self)),
            index <= 2 * old(self).pos_beta_x_evals@.len(),
        ensures
            exported_well_formed(*final(self)),
            final(self).pos_beta_x_evals@.len() == old(self).pos_beta_x_evals@.len(),
            exported_entry(*final(self), index as int) == value,
            forall|j: int|
                0 <= j <= 2 * old(self).pos_beta_x_evals@.len() && j != index ==> exported_entry(*final(self), j)
                    == exported_entry(*old(self), j),
    {
        let evals_len = self.pos_beta_x_evals.len();
        if index < evals_len {
            self.pos_beta_x_evals.set(index, value);
        } else if index - evals_len < evals_len {
            self.neg_beta_x_evals.set(index - evals_len, value);
        } else {
            self.beta_x2_eval = value;
        }
    }

    /// The exported part of local evaluations: the polynomial's value at
    /// `beta^2` and all values at `beta` and `-beta`.
    pub fn from_local_evals(value: HyperKZGLocalEvals<F>) -> (r: Self)
        requires
            value.beta2_evals@.len() >= 1,
        ensures
            r.beta_x2_eval == value.beta2_evals@[0],
            r.pos_beta_x_evals@ == value.pos_beta_evals@,
            r.neg_beta_x_evals@ == value.neg_beta_evals@,
    {
        HyperKZGExportedLocalEvals {
            beta_x2_eval: value.beta2_evals[0],
            pos_beta_x_evals: value.pos_beta_evals,
            neg_beta_x_evals: value.neg_beta_evals,
        }
    }
}


/// The evaluations of all parties combined through their index: entry `i` of
/// each field is the polynomial in `Y` whose coefficient `p` is entry `i` of
/// party `p`, evaluated at `beta_y^2`, `beta_y` and `-beta_y`.
#[derive(Clone, Debug)]
pub struct HyperKZGAggregatedEvals<F> {
    pub beta_y2_evals: HyperKZGExportedLocalEvals<F>,
    pub pos_beta_y_evals: HyperKZGExportedLocalEvals<F>,
    pub neg_beta_y_evals: HyperKZGExportedLocalEvals<F>,
}

/// Entry `i` of every party, as the coefficients of a polynomial in `Y`.
pub open spec fn party_column<F: Field>(es: Seq<HyperKZGExportedLocalEvals<F>>, i: int) -> Seq<int> {
    Seq::new(es.len(), |p: int| exported_entry(es[p], i).value())
}

/// `n` is a power of two.
pub open spec fn is_power_of_two(n: int) -> bool {
    exists|k: nat| pow2(k) == n
}

/// `agg` holds at each index `i <= 2 l` the value at `y` of the parties'
/// column `i`, and is laid out with `l` values at each of `beta` and `-beta`.
pub open spec fn aggregated_at<F: Field>(
    agg: HyperKZGExportedLocalEvals<F>,
    es: Seq<HyperKZGExportedLocalEvals<F>>,
    l: int,
    y: int,
) -> bool {
    &&& exported_well_formed(agg)
    &&& agg.pos_beta_x_evals@.len() == l
    &&& forall|i: int| 0 <= i <= 2 * l ==> #[trigger] exported_entry(agg, i).value() == poly_eval(party_column(es, i), y) % F::modulus()
}

impl<F: Field> HyperKZGAggregatedEvals<F> {
    /// Combines the parties' exported evaluations with the powers of
    /// `beta_y^2`, `beta_y` and `-beta_y`.
    pub fn new_from_exported_evals(exported_evals: &[HyperKZGExportedLocalEvals<F>], beta_y: F) -> (r: Self)
        requires
            exported_evals@.len() >= 2,
            is_power_of_two(exported_evals@.len() as int),
            forall|p: int|
                0 <= p < exported_evals@.len() ==> exported_well_formed(#[trigger] exported_evals@[p])
                    && exported_evals@[p].pos_beta_x_evals@.len() == exported_evals@[0].pos_beta_x_evals@.len(),
            2 * exported_evals@[0].pos_beta_x_evals@.len() + 1 <= usize::MAX,
        ensures
            ({
                let l = exported_evals@[0].pos_beta_x_evals@.len() as int;
                let b = beta_y.value();
                &&& aggregated_at(r.beta_y2_evals, exported_evals@, l, b * b)
                &&& aggregated_at(r.pos_beta_y_evals, exported_evals@, l, b)
                &&& aggregated_at(r.neg_beta_y_evals, exported_evals@, l, -b)
            }),
    {
        let ghost m = F::modulus();
        let ghost es = exported_evals@;
        let ghost b = beta_y.value();
        let evals_len = exported_evals[0].pos_beta_x_evals.len();
        let num_local_evals = exported_evals[0].len();
        let num_parties = exported_evals.len();
        let mut beta_y2_evals: HyperKZGExportedLocalEvals<F> = HyperKZGExportedLocalEvals::new(evals_len);
        let mut pos_beta_y_evals: HyperKZGExportedLocalEvals<F> = HyperKZGExportedLocalEvals::new(evals_len);
        let mut neg_beta_y_evals: HyperKZGExportedLocalEvals<F> = HyperKZGExportedLocalEvals::new(evals_len);
        let beta_y2 = beta_y.times(&beta_y);
        let neg_beta_y = beta_y.negate();
        let beta_y2_pow_series = powers_series(&beta_y2, num_parties);
        let pos_beta_y_pow_series = powers_series(&beta_y, num_parties);
        let neg_beta_y_pow_series = powers_series(&neg_beta_y, num_parties);
        proof {
            F::lemma_modulus();
            F::lemma_value_range(beta_y);
            lemma_mod_twice(b * b, m);
            lemma_mod_twice(-b, m);
        }
        let mut i: usize = 0;
        while i < num_local_evals
            invariant
                i <= num_local_evals,
                num_local_evals == 2 * evals_len + 1,
                evals_len == es[0].pos_beta_x_evals@.len(),
                num_parties == es.len(),
                es == exported_evals@,
                num_parties >= 2,
                forall|p: int|
                    0 <= p < es.len() ==> exported_well_formed(#[trigger] es[p])
                        && es[p].pos_beta_x_evals@.len() == evals_len,
                m == F::modulus(),
                m > 1,
                b == beta_y.value(),
                beta_y2.value() % m == (b * b) % m,
                neg_beta_y.value() % m == (-b) % m,
                beta_y2_pow_series@.len() == num_parties,
                pos_beta_y_pow_series@.len() == num_parties,
                neg_beta_y_pow_series@.len() == num_parties,
                forall|t: int| 0 <= t < num_parties ==> #[trigger] beta_y2_pow_series@[t].value() == vstd::arithmetic::power::pow(beta_y2.value(), t as nat) % m,
                forall|t: int| 0 <= t < num_parties ==> #[trigger] pos_beta_y_pow_series@[t].value() == vstd::arithmetic::power::pow(b, t as nat) % m,
                forall|t: int| 0 <= t < num_parties ==> #[trigger] neg_beta_y_pow_series@[t].value() == vstd::arithmetic::power::pow(neg_beta_y.value(), t as nat) % m,
                exported_well_formed(beta_y2_evals) && beta_y2_evals.pos_beta_x_evals@.len() == evals_len,
                exported_well_formed(pos_beta_y_evals) && pos_beta_y_evals.pos_beta_x_evals@.len() == evals_len,
                exported_well_formed(neg_beta_y_evals) && neg_beta_y_evals.pos_beta_x_evals@.len() == evals_len,
                forall|j: int| 0 <= j < i ==> #[trigger] exported_entry(beta_y2_evals, j).value() == poly_eval(party_column(es, j), b * b) % m,
                forall|j: int| 0 <= j < i ==> #[trigger] exported_entry(pos_beta_y_evals, j).value() == poly_eval(party_column(es, j), b) % m,
                forall|j: int| 0 <= j < i ==> #[trigger] exported_entry(neg_beta_y_evals, j).value() == poly_eval(party_column(es, j), -b) % m,
            decreases num_local_evals - i,
        {
            let mut y_poly: Vec<F> = Vec::new();
            let mut p: usize = 0;
            while p < num_parties
                invariant
                    p <= num_parties,
                    num_parties == es.len(),
                    es == exported_evals@,
                    i < num_local_evals,
                    num_local_evals == 2 * evals_len + 1,
                    forall|q: int|
                        0 <= q < es.len() ==> exported_well_formed(#[trigger] es[q])
                            && es[q].pos_beta_x_evals@.len() == evals_len,
                    y_poly@.len() == p,
                    forall|q: int| 0 <= q < p ==> #[trigger] y_poly@[q] == exported_entry(es[q], i as int),
                decreases num_parties - p,
            {
                proof {
                    assert(exported_well_formed(es[p as int]));
                }
                y_poly.push(exported_evals[p].index(i));
                p = p + 1;
            }
            let ghost col = party_column(es, i as int);
            proof {
                assert(values(y_poly@) =~= col);
                assert(col.take(num_parties as int) =~= col);
            }
            let e2 = univariate_evaluate(y_poly.as_slice(), beta_y2_pow_series.as_slice());
            let e1 = univariate_evaluate(y_poly.as_slice(), pos_beta_y_pow_series.as_slice());
            let e0 = univariate_evaluate(y_poly.as_slice(), neg_beta_y_pow_series.as_slice());
            proof {
                let n = num_parties as int;
                lemma_eval_by_powers(col, values(beta_y2_pow_series@), beta_y2.value(), n, m);
                lemma_eval_by_powers(col, values(pos_beta_y_pow_series@), b, n, m);
                lemma_eval_by_powers(col, values(neg_beta_y_pow_series@), neg_beta_y.value(), n, m);
                lemma_mod_twice(dot_prefix(col, values(beta_y2_pow_series@), n), m);
                lemma_mod_twice(dot_prefix(col, values(pos_beta_y_pow_series@), n), m);
                lemma_mod_twice(dot_prefix(col, values(neg_beta_y_pow_series@), n), m);
                lemma_mod_twice(beta_y2.value(), m);
                lemma_mod_twice(neg_beta_y.value(), m);
                lemma_poly_eval_point_congruent(col, beta_y2.value(), b * b, m);
                lemma_poly_eval_point_congruent(col, neg_beta_y.value(), -b, m);
            }
            beta_y2_evals.index_set(i, e2);
            pos_beta_y_evals.index_set(i, e1);
            neg_beta_y_evals.index_set(i, e0);
            i = i + 1;
        }
        HyperKZGAggregatedEvals { beta_y2_evals, pos_beta_y_evals, neg_beta_y_evals }
    }
}


/// The coefficient-wise sum `a + w b`, the shorter one padded with zeros.
pub open spec fn padd(a: Seq<int>, b: Seq<int>, w: int) -> Seq<int> {
    Seq::new(
        if a.len() < b.len() { b.len() } else { a.len() },
        |j: int| (if j < a.len() { a[j] } else { 0 }) + (if j < b.len() { w * b[j] } else { 0 }),
    )
}

/// The coefficients of `c + gamma f_0 + ... + gamma^k f_(k-1)`.
pub open spec fn aggregate_seq(c: Seq<int>, folded: Seq<Seq<int>>, gamma: int, k: nat) -> Seq<int> {
    Seq::new(aggregate_len(c, folded, k) as nat, |j: int| aggregate_coeff(c, folded, gamma, k, j))
}

/// The values at `x` of the first `k` oracles.
pub open spec fn oracle_values_at(c: Seq<int>, folded: Seq<Seq<int>>, k: int, x: int) -> Seq<int> {
    Seq::new(k as nat, |i: int| poly_eval(oracle_at(c, folded, i), x))
}

/// The powers `1, g, g^2, ...` of `g`, `k` of them.
pub open spec fn power_seq(g: int, k: int) -> Seq<int> {
    Seq::new(k as nat, |i: int| vstd::arithmetic::power::pow(g, i as nat))
}

/// The sequences of field elements, folded for HyperKZG: `folded[i]` is `c`
/// folded by the first `i + 1` alphas, and `c` has one coefficient per point
/// of the hypercube of the alphas.
pub open spec fn hyperkzg_folds_honest(c: Seq<int>, folded: Seq<Seq<int>>, alphas: Seq<int>, m: int) -> bool {
    &&& alphas.len() >= 1
    &&& c.len() == pow2(alphas.len() as nat)
    &&& folded.len() == alphas.len() - 1
    &&& forall|i: int| 0 <= i < folded.len() ==> #[trigger] folded[i] == fold_chain(c, alphas, m, (i + 1) as nat)
}

/// The challenge `beta` keeps the evaluation points `beta`, `-beta` and
/// `beta^2` apart: `beta`, `2`, `1 - beta` and `1 + beta` are units.
pub open spec fn hyperkzg_beta_ok(beta: int, m: int) -> bool {
    &&& is_unit(beta, m)
    &&& is_unit(2, m)
    &&& is_unit(1 - beta, m)
    &&& is_unit(1 + beta, m)
}

/// Padding: `a + w b` evaluates to `a(x) + w b(x)`.
pub proof fn lemma_padd_eval(a: Seq<int>, b: Seq<int>, w: int, x: int)
    ensures
        poly_eval(padd(a, b, w), x) == poly_eval(a, x) + w * poly_eval(b, x),
    decreases a.len() + b.len(),
{
    let p = padd(a, b, w);
    if a.len() == 0 && b.len() == 0 {
        assert(p.len() == 0);
        assert(w * 0 == 0);
    } else {
        let a1 = if a.len() > 0 { a.drop_first() } else { a };
        let b1 = if b.len() > 0 { b.drop_first() } else { b };
        let a0 = if a.len() > 0 { a[0] } else { 0 };
        let b0 = if b.len() > 0 { b[0] } else { 0 };
        lemma_padd_eval(a1, b1, w, x);
        assert(p.drop_first() =~= padd(a1, b1, w));
        assert(p[0] == a0 + w * b0);
        assert(poly_eval(a, x) == a0 + x * poly_eval(a1, x)) by {
            if a.len() == 0 {
                assert(poly_eval(a1, x) == 0);
            }
        }
        assert(poly_eval(b, x) == b0 + x * poly_eval(b1, x)) by {
            if b.len() == 0 {
                assert(poly_eval(b1, x) == 0);
            }
        }
        let pa = poly_eval(a1, x);
        let pb = poly_eval(b1, x);
        assert(a0 + w * b0 + x * (pa + w * pb) == (a0 + x * pa) + w * (b0 + x * pb)) by (nonlinear_arith);
    }
}

/// The aggregate evaluates to `sum_i gamma^i oracle_i(x)`.
pub proof fn lemma_aggregate_eval(c: Seq<int>, folded: Seq<Seq<int>>, gamma: int, k: nat, x: int)
    requires
        k <= folded.len(),
    ensures
        poly_eval(aggregate_seq(c, folded, gamma, k), x) == dot_prefix(
            oracle_values_at(c, folded, folded.len() + 1 as int, x),
            power_seq(gamma, folded.len() + 1 as int),
            k + 1 as int,
        ),
    decreases k,
{
    let s = oracle_values_at(c, folded, folded.len() + 1 as int, x);
    let p = power_seq(gamma, folded.len() + 1 as int);
    vstd::arithmetic::power::lemma_pow0(gamma);
    if k == 0 {
        assert(aggregate_seq(c, folded, gamma, 0) =~= c);
        assert(dot_prefix(s, p, 0) == 0);
        assert(s[0] * p[0] == s[0] * 1);
    } else {
        let k1 = (k - 1) as nat;
        lemma_aggregate_eval(c, folded, gamma, k1, x);
        let prev = aggregate_seq(c, folded, gamma, k1);
        let f = folded[k - 1];
        let w = vstd::arithmetic::power::pow(gamma, k);
        assert forall|j: int| prev.len() <= j implies aggregate_coeff(c, folded, gamma, k1, j) == 0 by {
            lemma_aggregate_beyond(c, folded, gamma, k1, j);
        }
        assert(aggregate_seq(c, folded, gamma, k) =~= padd(prev, f, w)) by {
            assert forall|j: int| 0 <= j < aggregate_len(c, folded, k) implies aggregate_seq(c, folded, gamma, k)[j]
                == padd(prev, f, w)[j] by {
                if j >= prev.len() {
                    lemma_aggregate_beyond(c, folded, gamma, k1, j);
                }
                if j < f.len() {
                    assert(w * f[j] == vstd::arithmetic::power::pow(gamma, k) * folded[k - 1][j]);
                }
            }
        }
        lemma_padd_eval(prev, f, w, x);
        assert(s[k as int] == poly_eval(f, x));
        assert(p[k as int] == w);
        assert(w * poly_eval(f, x) == poly_eval(f, x) * w) by (nonlinear_arith);
    }
}

/// Entry-wise congruent left factors give congruent inner products.
proof fn lemma_dot_congruent_left(a: Seq<int>, a2: Seq<int>, p: Seq<int>, n: int, m: int)
    requires
        m > 0,
        0 <= n <= a.len(),
        n <= a2.len(),
        n <= p.len(),
        forall|i: int| 0 <= i < n ==> #[trigger] a[i] % m == a2[i] % m,
    ensures
        dot_prefix(a, p, n) % m == dot_prefix(a2, p, n) % m,
    decreases n,
{
    if n > 0 {
        lemma_dot_congruent_left(a, a2, p, n - 1, m);
        lemma_congruent_mul(a[n - 1], a2[n - 1], p[n - 1], p[n - 1], m);
        lemma_congruent_add(dot_prefix(a, p, n - 1), dot_prefix(a2, p, n - 1), a[n - 1] * p[n - 1], a2[n - 1] * p[n - 1], m);
    }
}

/// A polynomial vanishing at `a` and `b`, with `b - a` a unit: its quotient
/// by `X - a` vanishes at `b`.
proof fn lemma_quotient_vanishes(p: Seq<int>, a: int, b: int, m: int)
    requires
        m > 1,
        p.len() >= 1,
        poly_eval(p, a) % m == 0,
        poly_eval(p, b) % m == 0,
        is_unit(b - a, m),
    ensures
        poly_eval(reduce(lin_quotient(p, a), m), b) % m == 0,
{
    let q = lin_quotient(p, a);
    lemma_lin_quotient_identity(p, a, b);
    let qb = poly_eval(q, b);
    // q(b) (b - a) = p(b) - p(a), which vanishes
    lemma_congruent_sub(poly_eval(p, b), 0, poly_eval(p, a), 0, m);
    assert(poly_eval(p, b) - poly_eval(p, a) == (b - a) * qb) by (nonlinear_arith)
        requires
            poly_eval(p, b) == qb * (b - a) + poly_eval(p, a),
    ;
    lemma_reduced(0, m);
    assert((b - a) * 0 == 0);
    lemma_unit_cancel(b - a, qb, 0, m);
    lemma_poly_eval_reduce(q, b, m);
}

/// Negation keeps a unit.
pub proof fn lemma_unit_neg(x: int, m: int)
    requires
        m > 0,
        is_unit(x, m),
    ensures
        is_unit(-x, m),
{
    let y = choose|y: int| #[trigger] ((x * y) % m) == 1;
    assert((-x) * (-y) == x * y) by (nonlinear_arith);
    assert(((-x) * (-y)) % m == 1);
}


/// The aggregate, reduced, evaluates to `sum_i gamma^i oracle_i(x)` modulo `m`.
proof fn lemma_f_gamma_at(c: Seq<int>, folded: Seq<Seq<int>>, gamma: int, f: Seq<int>, x: int, m: int)
    requires
        m > 0,
        f == reduce(aggregate_seq(c, folded, gamma, folded.len()), m),
    ensures
        poly_eval(f, x) % m == dot_prefix(
            oracle_values_at(c, folded, folded.len() + 1 as int, x),
            power_seq(gamma, folded.len() + 1 as int),
            folded.len() + 1 as int,
        ) % m,
{
    lemma_poly_eval_reduce(aggregate_seq(c, folded, gamma, folded.len()), x, m);
    lemma_aggregate_eval(c, folded, gamma, folded.len(), x);
}

/// Reported values congruent to the oracles' values at `x` combine, with
/// the powers of `gamma`, to `sum_i gamma^i oracle_i(x)` modulo `m`.
proof fn lemma_reported_at(evals: Seq<int>, c: Seq<int>, folded: Seq<Seq<int>>, gamma: int, x: int, m: int)
    requires
        m > 0,
        evals.len() >= folded.len() + 1,
        forall|i: int|
            0 <= i < folded.len() + 1 ==> #[trigger] (evals[i] % m) == oracle_values_at(c, folded, folded.len() + 1 as int, x)[i] % m,
    ensures
        eval_prefix(evals, gamma, folded.len() + 1 as int) % m == dot_prefix(
            oracle_values_at(c, folded, folded.len() + 1 as int, x),
            power_seq(gamma, folded.len() + 1 as int),
            folded.len() + 1 as int,
        ) % m,
{
    let n = folded.len() + 1 as int;
    let p = power_seq(gamma, n);
    crate::univariate::lemma_dot_powers_exact(evals, p, gamma, n);
    assert(evals.take(n) =~= evals.subrange(0, n));
    lemma_dot_congruent_left(evals, oracle_values_at(c, folded, n, x), p, n, m);
}

/// Every oracle has at most as many coefficients as the polynomial.
proof fn lemma_oracle_short(c: Seq<int>, folded: Seq<Seq<int>>, alphas: Seq<int>, m: int, i: int)
    requires
        hyperkzg_folds_honest(c, folded, alphas, m),
        0 <= i <= folded.len(),
    ensures
        oracle_at(c, folded, i).len() <= c.len(),
        oracle_at(c, folded, i) == fold_chain(c, alphas, m, i as nat),
{
    lemma_fold_chain_len(c, alphas, m, i as nat);
    lemma_pow2_pos(i as nat);
    lemma_div_is_ordered_by_denominator(c.len() as int, 1, pow2(i as nat) as int);
}

/// `nom = f - L` vanishes at a point where `f` and `L` agree modulo `m`.
proof fn lemma_nom_at(f: Seq<int>, lag: Seq<int>, nom: Seq<int>, w: int, x: int, v: int, m: int)
    requires
        m > 0,
        nom == reduce(padd(f, lag, w), m),
        w % m == (-1) % m,
        poly_eval(lag, x) % m == v % m,
        poly_eval(f, x) % m == v % m,
    ensures
        poly_eval(nom, x) % m == 0,
{
    lemma_poly_eval_reduce(padd(f, lag, w), x, m);
    lemma_padd_eval(f, lag, w, x);
    lemma_congruent_mul(w, -1, poly_eval(lag, x), v, m);
    lemma_congruent_add(poly_eval(f, x), v, w * poly_eval(lag, x), -1 * v, m);
    assert(v + -1 * v == 0);
    lemma_reduced(0, m);
}

/// After gamma: the aggregate of the oracles minus the interpolating
/// quadratic vanishes at `beta`, `-beta` and `beta^2`.
proof fn lemma_gamma_phase_vanishes<F: Field>(
    local_evals: HyperKZGLocalEvals<F>,
    c: Seq<int>,
    folded: Seq<Seq<int>>,
    alphas: Seq<int>,
    beta: int,
    gamma: int,
    f: Seq<int>,
    lag: Seq<int>,
    nom: Seq<int>,
    w: int,
)
    requires
        hyperkzg_folds_honest(c, folded, alphas, F::modulus()),
        local_evals_of(local_evals, c, folded, alphas, beta),
        hyperkzg_beta_ok(beta, F::modulus()),
        f == reduce(aggregate_seq(c, folded, gamma, folded.len()), F::modulus()),
        poly_eval(lag, beta) % F::modulus() == eval_prefix(values(local_evals.pos_beta_evals@), gamma, alphas.len() as int)
            % F::modulus(),
        poly_eval(lag, -beta) % F::modulus() == eval_prefix(values(local_evals.neg_beta_evals@), gamma, alphas.len() as int)
            % F::modulus(),
        poly_eval(lag, beta * beta) % F::modulus() == eval_prefix(
            values(local_evals.beta2_evals@),
            gamma,
            alphas.len() as int,
        ) % F::modulus(),
        nom == reduce(padd(f, lag, w), F::modulus()),
        w % F::modulus() == (-1) % F::modulus(),
    ensures
        poly_eval(nom, beta) % F::modulus() == 0,
        poly_eval(nom, -beta) % F::modulus() == 0,
        poly_eval(nom, beta * beta) % F::modulus() == 0,
{
    let m = F::modulus();
    F::lemma_modulus();
    let n = alphas.len() as int;
    assert(folded.len() + 1 == n);
    assert(local_rounds(folded.len() as int, n) == n);
    let g = gamma;
    lemma_local_evals_complete(local_evals, c, folded, alphas, beta);
    // at beta and -beta the reported values are the oracles' values
    assert forall|i: int| 0 <= i < n implies #[trigger] (values(local_evals.pos_beta_evals@)[i] % m)
        == oracle_values_at(c, folded, n, beta)[i] % m by {
        lemma_oracle_short(c, folded, alphas, m, i);
        assert(oracle_at(c, folded, i).take(oracle_at(c, folded, i).len() as int) =~= oracle_at(c, folded, i));
        lemma_mod_twice(poly_eval(oracle_at(c, folded, i), beta), m);
    }
    assert forall|i: int| 0 <= i < n implies #[trigger] (values(local_evals.neg_beta_evals@)[i] % m)
        == oracle_values_at(c, folded, n, -beta)[i] % m by {
        let _ = local_evals.pos_beta_evals@[i];
        lemma_oracle_short(c, folded, alphas, m, i);
        assert(oracle_at(c, folded, i).take(oracle_at(c, folded, i).len() as int) =~= oracle_at(c, folded, i));
        lemma_mod_twice(poly_eval(oracle_at(c, folded, i), -beta), m);
    }
    // at beta^2: the polynomial's value, then the folds' values
    assert forall|i: int| 0 <= i < n implies #[trigger] (values(local_evals.beta2_evals@)[i] % m)
        == oracle_values_at(c, folded, n, beta * beta)[i] % m by {
        lemma_oracle_short(c, folded, alphas, m, i);
        if i == 0 {
            lemma_mod_twice(poly_eval(c, beta * beta), m);
        } else {
            assert(local_evals.beta2_evals@[(i - 1) + 1].value() == poly_eval(
                fold_chain(c, alphas, m, ((i - 1) + 1) as nat),
                beta * beta,
            ) % m);
            lemma_mod_twice(poly_eval(fold_chain(c, alphas, m, i as nat), beta * beta), m);
        }
    }
    lemma_reported_at(values(local_evals.pos_beta_evals@), c, folded, g, beta, m);
    lemma_reported_at(values(local_evals.neg_beta_evals@), c, folded, g, -beta, m);
    lemma_reported_at(values(local_evals.beta2_evals@), c, folded, g, beta * beta, m);
    lemma_f_gamma_at(c, folded, g, f, beta, m);
    lemma_f_gamma_at(c, folded, g, f, -beta, m);
    lemma_f_gamma_at(c, folded, g, f, beta * beta, m);
    let sb = dot_prefix(oracle_values_at(c, folded, n, beta), power_seq(g, n), n);
    let sn = dot_prefix(oracle_values_at(c, folded, n, -beta), power_seq(g, n), n);
    let s2 = dot_prefix(oracle_values_at(c, folded, n, beta * beta), power_seq(g, n), n);
    lemma_nom_at(f, lag, nom, w, beta, sb, m);
    lemma_nom_at(f, lag, nom, w, -beta, sn, m);
    lemma_nom_at(f, lag, nom, w, beta * beta, s2, m);
}


/// The units that the challenge `beta` provides: the differences of the
/// points `beta`, `beta^2` and `-beta`, and the Lagrange denominators.
pub proof fn lemma_beta_units(beta: int, m: int)
    requires
        m > 1,
        hyperkzg_beta_ok(beta, m),
    ensures
        is_unit(beta * beta - beta, m),
        is_unit(-beta - beta, m),
        is_unit(-beta - beta * beta, m),
        is_unit((beta - (-beta)) * (beta - beta * beta), m),
        is_unit(((-beta) - beta) * ((-beta) - beta * beta), m),
        is_unit((beta * beta - beta) * (beta * beta - (-beta)), m),
{
    let b = beta;
    lemma_unit_mul(b, 1 - b, m);
    lemma_unit_neg(b * (1 - b), m);
    assert(-(b * (1 - b)) == b * b - b) by (nonlinear_arith);
    lemma_unit_mul(2, b, m);
    lemma_unit_neg(2 * b, m);
    assert(-(2 * b) == -b - b);
    lemma_unit_mul(b, 1 + b, m);
    lemma_unit_neg(b * (1 + b), m);
    assert(-(b * (1 + b)) == -b - b * b) by (nonlinear_arith);
    assert(b - (-b) == 2 * b);
    assert(b - b * b == b * (1 - b)) by (nonlinear_arith);
    lemma_unit_mul(2 * b, b * (1 - b), m);
    lemma_unit_mul(-b - b, -b - b * b, m);
    assert(b * b - (-b) == b * (1 + b)) by (nonlinear_arith);
    lemma_unit_mul(b * b - b, b * (1 + b), m);
}

/// `f - L` through its reduced padded form, evaluated: congruent to
/// `f(x) - L(x)`.
proof fn lemma_nom_value(f: Seq<int>, lag: Seq<int>, nom: Seq<int>, w: int, x: int, m: int)
    requires
        m > 0,
        nom == reduce(padd(f, lag, w), m),
        w % m == (-1) % m,
    ensures
        poly_eval(nom, x) % m == (poly_eval(f, x) - poly_eval(lag, x)) % m,
{
    lemma_poly_eval_reduce(padd(f, lag, w), x, m);
    lemma_padd_eval(f, lag, w, x);
    lemma_congruent_mul(w, -1, poly_eval(lag, x), poly_eval(lag, x), m);
    lemma_congruent_add(poly_eval(f, x), poly_eval(f, x), w * poly_eval(lag, x), -1 * poly_eval(lag, x), m);
}

/// The product of the three root factors, at reduced roots, is congruent to
/// `(x - beta)(x - beta^2)(x + beta)`.
proof fn lemma_three_roots_product(rv: Seq<int>, beta: int, x: int, m: int)
    requires
        m > 0,
        rv.len() == 3,
        rv[0] == beta,
        rv[1] % m == (beta * beta) % m,
        rv[2] % m == (-beta) % m,
    ensures
        crate::univariate::roots_product(rv, 3, x) % m == ((x - beta) * (x - beta * beta) * (x + beta)) % m,
{
    let p1 = crate::univariate::roots_product(rv, 1, x);
    let p2 = crate::univariate::roots_product(rv, 2, x);
    assert(crate::univariate::roots_product(rv, 0, x) == 1);
    assert(p1 == 1 * (x - beta));
    assert(p2 == p1 * (x - rv[1]));
    lemma_congruent_sub(x, x, rv[1], beta * beta, m);
    lemma_congruent_sub(x, x, rv[2], -beta, m);
    lemma_congruent_mul(p1, x - beta, x - rv[1], x - beta * beta, m);
    lemma_congruent_mul(p2, (x - beta) * (x - beta * beta), x - rv[2], x - (-beta), m);
    assert(x - (-beta) == x + beta);
}

/// The prover's step after the challenge `gamma`: the aggregate `f` of the
/// polynomial and its folds, the quadratic `L` through the aggregated
/// evaluations at `beta`, `-beta` and `beta^2`, and the quotient `q` of
/// `f - L` by `(X - beta)(X - beta^2)(X + beta)`, which divides it exactly.
pub fn hyperkzg_open_gamma_phase<F: Field>(
    coeffs: &Vec<F>,
    folded_oracle_coeffs: &[Vec<F>],
    local_alphas: &[F],
    local_evals: &HyperKZGLocalEvals<F>,
    beta: F,
    gamma: F,
) -> (r: (Vec<F>, [F; 3], Vec<F>))
    requires
        hyperkzg_folds_honest(values(coeffs@), vec_values(folded_oracle_coeffs@), values(local_alphas@), F::modulus()),
        local_evals_of(
            *local_evals,
            values(coeffs@),
            vec_values(folded_oracle_coeffs@),
            values(local_alphas@),
            beta.value(),
        ),
        hyperkzg_beta_ok(beta.value(), F::modulus()),
    ensures
        values(r.0@) == reduce(
            aggregate_seq(values(coeffs@), vec_values(folded_oracle_coeffs@), gamma.value(), folded_oracle_coeffs@.len() as nat),
            F::modulus(),
        ),
        r.0@.len() == coeffs@.len(),
        r.2@.len() == (if r.0@.len() < 3 { 3 } else { r.0@.len() }) - 3,
        ({
            let (b, g, m, n) = (beta.value(), gamma.value(), F::modulus(), local_alphas@.len() as int);
            let lag = values(r.1@);
            &&& poly_eval(lag, b) % m == eval_prefix(values(local_evals.pos_beta_evals@), g, n) % m
            &&& poly_eval(lag, -b) % m == eval_prefix(values(local_evals.neg_beta_evals@), g, n) % m
            &&& poly_eval(lag, b * b) % m == eval_prefix(values(local_evals.beta2_evals@), g, n) % m
        }),
        forall|x: int|
            (#[trigger] poly_eval(values(r.0@), x) - poly_eval(values(r.1@), x)) % F::modulus() == (poly_eval(
                values(r.2@),
                x,
            ) * ((x - beta.value()) * (x - beta.value() * beta.value()) * (x + beta.value()))) % F::modulus(),
{
    let ghost m = F::modulus();
    let ghost c = values(coeffs@);
    let ghost folded = vec_values(folded_oracle_coeffs@);
    let ghost al = values(local_alphas@);
    let ghost b = beta.value();
    let ghost g = gamma.value();
    proof {
        F::lemma_modulus();
        F::lemma_value_range(beta);
        lemma_beta_units(b, m);
        assert(local_rounds(folded.len() as int, al.len() as int) == al.len());
        lemma_aggregate_len_honest(c, folded, al, m, folded.len());
    }
    let num_alphas = local_alphas.len();
    proof {
        assert(folded_oracle_coeffs@.len() < num_alphas);
    }
    let f_gamma = coeff_form_hyperkzg_local_oracle_polys_aggregate(coeffs.as_slice(), folded_oracle_coeffs, gamma);
    let lagrange = local_evals.interpolate_degree2_aggregated_evals(beta, gamma);
    proof {
        let f_vals = values(f_gamma@);
        let lag = values(lagrange@);
        assert(f_vals =~= reduce(aggregate_seq(c, folded, g, folded.len()), m));
        let nom = reduce(padd(f_vals, lag, -1), m);
        lemma_gamma_phase_vanishes(*local_evals, c, folded, al, b, g, f_vals, lag, nom, -1);
        assert forall|x: int| #[trigger] poly_eval(nom, x) % m == 0 implies poly_eval(lag, x) % m == poly_eval(f_vals, x) % m by {
            lemma_nom_value(f_vals, lag, nom, -1, x, m);
            lemma_congruent_add(poly_eval(f_vals, x) - poly_eval(lag, x), 0, poly_eval(lag, x), poly_eval(lag, x), m);
        }
        assert(poly_eval(nom, b) % m == 0);
        assert(poly_eval(nom, -b) % m == 0);
        assert(poly_eval(nom, b * b) % m == 0);
    }
    let quotient = quotient_at_beta_points(&f_gamma, lagrange, beta);
    (f_gamma, lagrange, quotient)
}


/// The quotient of `p - L` by `(X - beta)(X - beta^2)(X + beta)`, where the
/// quadratic `L` agrees with `p` at `beta`, `-beta` and `beta^2`, so that the
/// division leaves nothing.
pub fn quotient_at_beta_points<F: Field>(p: &Vec<F>, lag: [F; 3], beta: F) -> (q: Vec<F>)
    requires
        hyperkzg_beta_ok(beta.value(), F::modulus()),
        poly_eval(values(lag@), beta.value()) % F::modulus() == poly_eval(values(p@), beta.value()) % F::modulus(),
        poly_eval(values(lag@), -beta.value()) % F::modulus() == poly_eval(values(p@), -beta.value())
            % F::modulus(),
        poly_eval(values(lag@), beta.value() * beta.value()) % F::modulus() == poly_eval(
            values(p@),
            beta.value() * beta.value(),
        ) % F::modulus(),
    ensures
        q@.len() == (if p@.len() < 3 { 3 } else { p@.len() }) - 3,
        forall|x: int|
            (#[trigger] poly_eval(values(p@), x) - poly_eval(values(lag@), x)) % F::modulus() == (poly_eval(
                values(q@),
                x,
            ) * ((x - beta.value()) * (x - beta.value() * beta.value()) * (x + beta.value()))) % F::modulus(),
{
    let ghost m = F::modulus();
    let ghost b = beta.value();
    proof {
        F::lemma_modulus();
        F::lemma_value_range(beta);
        lemma_beta_units(b, m);
    }
    let mut nom: Vec<F> = Vec::new();
    let mut j: usize = 0;
    while j < p.len()
        invariant
            j <= p@.len(),
            nom@ == p@.subrange(0, j as int),
        decreases p@.len() - j,
    {
        nom.push(p[j]);
        j = j + 1;
    }
    let lag_vec: Vec<F> = vec![lag[0], lag[1], lag[2]];
    let neg_one = F::one().negate();
    let ghost pv = values(p@);
    let ghost lv = values(lag@);
    proof {
        assert(nom@ == p@);
        assert(values(lag_vec@) =~= lv);
    }
    polynomial_add(&mut nom, neg_one, lag_vec.as_slice());
    let beta2 = beta.times(&beta);
    let neg_beta = beta.negate();
    let roots: Vec<F> = vec![beta, beta2, neg_beta];
    let ghost rv = values(roots@);
    let ghost w = neg_one.value();
    let ghost nv = values(nom@);
    proof {
        assert(nv =~= reduce(padd(pv, lv, w), m));
        lemma_mod_twice(-1, m);
        lemma_nom_at(pv, lv, nv, w, b, poly_eval(pv, b), m);
        lemma_nom_at(pv, lv, nv, w, -b, poly_eval(pv, -b), m);
        lemma_nom_at(pv, lv, nv, w, b * b, poly_eval(pv, b * b), m);
        lemma_mod_twice(b * b, m);
        lemma_mod_twice(-b, m);
        assert(rv[0] == b && rv[1] == (b * b) % m && rv[2] == (-b) % m);
        lemma_poly_eval_point_congruent(nv, rv[1], b * b, m);
        lemma_poly_eval_point_congruent(nv, rv[2], -b, m);
        lemma_congruent_sub(rv[1], b * b, b, b, m);
        lemma_unit_congruent(b * b - b, rv[1] - b, m);
        lemma_congruent_sub(rv[2], -b, b, b, m);
        lemma_unit_congruent(-b - b, rv[2] - b, m);
        lemma_congruent_sub(rv[2], -b, rv[1], b * b, m);
        lemma_unit_congruent(-b - b * b, rv[2] - rv[1], m);
        assert(nv.len() >= 3);
        lemma_quotient_vanishes(nv, b, rv[1], m);
        lemma_quotient_vanishes(nv, b, rv[2], m);
        let q1 = crate::univariate::root_quotients(nv, rv, m, 1);
        assert(crate::univariate::root_quotients(nv, rv, m, 0) == nv);
        assert(q1 == reduce(lin_quotient(nv, rv[0]), m));
        lemma_quotient_vanishes(q1, rv[1], rv[2], m);
        assert(crate::univariate::root_quotients(nv, rv, m, 2) == reduce(lin_quotient(q1, rv[1]), m));
        assert forall|k: int| 0 <= k < rv.len() implies #[trigger] poly_eval(
            crate::univariate::root_quotients(nv, rv, m, k as nat),
            rv[k],
        ) % m == 0 by {
            if k == 0 {
                assert(crate::univariate::root_quotients(nv, rv, m, 0) == nv);
            }
        }
    }
    let quotient = crate::univariate::univariate_roots_quotient(nom, roots.as_slice());
    proof {
        assert forall|x: int|
            (#[trigger] poly_eval(pv, x) - poly_eval(lv, x)) % m == (poly_eval(values(quotient@), x) * ((x - b) * (x
                - b * b) * (x + b))) % m by {
            let qx = poly_eval(values(quotient@), x);
            crate::univariate::lemma_roots_quotient_identity(nv, rv, m, 3, x);
            lemma_nom_value(pv, lv, nv, w, x, m);
            lemma_three_roots_product(rv, b, x, m);
            lemma_congruent_mul(
                qx,
                qx,
                crate::univariate::roots_product(rv, 3, x),
                (x - b) * (x - b * b) * (x + b),
                m,
            );
        }
    }
    quotient
}

/// The prover's step after the challenge `tau`: `f - D q` with
/// `D = (tau - beta)(tau + beta)(tau - beta^2)`, divided by `X - tau`. When
/// `f - L = q (X - beta)(X - beta^2)(X + beta)` holds at `tau`, the remainder is
/// `L(tau)`: the result is the quotient of `f - D q - L(tau)` by `X - tau`.
pub fn hyperkzg_open_tau_phase<F: Field>(
    f_gamma: &Vec<F>,
    lagrange: [F; 3],
    quotient: &Vec<F>,
    beta: F,
    tau: F,
) -> (r: Vec<F>)
    requires
        f_gamma@.len() >= 1,
        (poly_eval(values(f_gamma@), tau.value()) - poly_eval(values(lagrange@), tau.value())) % F::modulus() == (
        poly_eval(values(quotient@), tau.value()) * ((tau.value() - beta.value()) * (tau.value() - beta.value()
            * beta.value()) * (tau.value() + beta.value()))) % F::modulus(),
    ensures
        crate::univariate::is_linear_division(
            reduce(
                padd(
                    values(f_gamma@),
                    values(quotient@),
                    -((tau.value() - beta.value()) * (tau.value() + beta.value()) * (tau.value() - beta.value()
                        * beta.value())),
                ),
                F::modulus(),
            ),
            values(r@),
            poly_eval(values(lagrange@), tau.value()),
            tau.value(),
            F::modulus(),
        ),
{
    let ghost m = F::modulus();
    let ghost (b, t) = (beta.value(), tau.value());
    let ghost dd = (t - b) * (t + b) * (t - b * b);
    let mut f: Vec<F> = Vec::new();
    let mut j: usize = 0;
    while j < f_gamma.len()
        invariant
            j <= f_gamma@.len(),
            f@ == f_gamma@.subrange(0, j as int),
        decreases f_gamma@.len() - j,
    {
        f.push(f_gamma[j]);
        j = j + 1;
    }
    let tm = tau.minus(&beta);
    let tp = tau.plus(&beta);
    let b2 = beta.times(&beta);
    let tm2 = tau.minus(&b2);
    let d12 = tm.times(&tp);
    let d = d12.times(&tm2);
    let neg_d = d.negate();
    proof {
        F::lemma_modulus();
        assert(f@ == f_gamma@);
        // the value of -d is congruent to -D
        lemma_mod_twice(t - b, m);
        lemma_mod_twice(t + b, m);
        lemma_mod_twice(b * b, m);
        lemma_congruent_sub(t, t, b2.value(), b * b, m);
        lemma_mod_twice(t - b2.value(), m);
        lemma_congruent_mul(tm.value(), t - b, tp.value(), t + b, m);
        lemma_mod_twice(tm.value() * tp.value(), m);
        lemma_congruent_mul(d12.value(), (t - b) * (t + b), tm2.value(), t - b * b, m);
        lemma_mod_twice(d12.value() * tm2.value(), m);
        lemma_congruent_sub(0, 0, d.value(), dd, m);
        lemma_mod_twice(-d.value(), m);
        assert(neg_d.value() % m == (-dd) % m);
    }
    let ghost fv = values(f_gamma@);
    let ghost qv = values(quotient@);
    polynomial_add(&mut f, neg_d, quotient.as_slice());
    let ghost cv = values(f@);
    let (coeffs, remainder) = univariate_degree_one_quotient(f.as_slice(), tau);
    proof {
        let spec_c = reduce(padd(fv, qv, -dd), m);
        assert(cv =~= spec_c) by {
            assert forall|k: int| 0 <= k < cv.len() implies cv[k] == spec_c[k] by {
                let a = if k < fv.len() { fv[k] } else { 0 };
                if k < qv.len() {
                    lemma_congruent_mul(neg_d.value(), -dd, qv[k], qv[k], m);
                    lemma_congruent_add(a, a, neg_d.value() * qv[k], -dd * qv[k], m);
                }
            }
        }
        // the remainder is the value of f - D q at tau, which is L(tau)
        crate::univariate::lemma_linear_division_remainder(cv, values(coeffs@), remainder.value(), t, m);
        lemma_nom_like_value(fv, qv, cv, -dd, t, m);
        let lt = poly_eval(values(lagrange@), t);
        let ft = poly_eval(fv, t);
        let qt = poly_eval(qv, t);
        assert(dd == (t - b) * (t - b * b) * (t + b)) by (nonlinear_arith)
            requires
                dd == (t - b) * (t + b) * (t - b * b),
        ;
        assert(-dd * qt == -(qt * dd)) by (nonlinear_arith);
        lemma_congruent_sub(ft, ft, ft - lt, qt * dd, m);
        assert(ft + -dd * qt == ft - qt * dd);
        assert(ft - (ft - lt) == lt);
        assert(remainder.value() % m == lt % m);
        let q0 = values(coeffs@)[0];
        lemma_congruent_sub(remainder.value(), lt, t * q0, t * q0, m);
    }
    coeffs
}

/// `a + w b`, reduced, evaluates to `a(x) + w b(x)` modulo `m`.
proof fn lemma_nom_like_value(a: Seq<int>, b: Seq<int>, c: Seq<int>, w: int, x: int, m: int)
    requires
        m > 0,
        c == reduce(padd(a, b, w), m),
    ensures
        poly_eval(c, x) % m == (poly_eval(a, x) + w * poly_eval(b, x)) % m,
{
    lemma_poly_eval_reduce(padd(a, b, w), x, m);
    lemma_padd_eval(a, b, w, x);
}


/// The folds are no longer than the polynomial, so the aggregate has the
/// polynomial's length.
pub proof fn lemma_aggregate_len_honest(c: Seq<int>, folded: Seq<Seq<int>>, alphas: Seq<int>, m: int, k: nat)
    requires
        hyperkzg_folds_honest(c, folded, alphas, m),
        k <= folded.len(),
    ensures
        aggregate_len(c, folded, k) == c.len(),
    decreases k,
{
    if k > 0 {
        lemma_aggregate_len_honest(c, folded, alphas, m, (k - 1) as nat);
        lemma_oracle_short(c, folded, alphas, m, k as int);
    }
}


/// `2^n` is divisible by `2^(n-1)`.
pub proof fn lemma_pow2_divides(n: nat)
    requires
        n >= 1,
    ensures
        pow2(n) % pow2((n - 1) as nat) == 0,
{
    lemma_pow2_unfold(n);
    lemma_pow2_pos((n - 1) as nat);
    lemma_mod_multiples_basic(2, pow2((n - 1) as nat) as int);
    assert(2 * pow2((n - 1) as nat) == pow2(n));
}

} // verus!
