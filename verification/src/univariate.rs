//! Univariate polynomials in coefficient form: power series, evaluation,
//! division by linear factors, and weighted addition.

use crate::field::{
    is_unit, lemma_congruent_add, lemma_congruent_mul, lemma_congruent_sub, lemma_multiple_vanishes, lemma_reduced,
    lemma_unit_congruent, values, Field,
};
use vstd::arithmetic::div_mod::*;
use vstd::arithmetic::power::pow;
use vstd::prelude::*;

verus! {

/// The value at `x` of the polynomial with coefficients `c` (lowest degree
/// first), over the integers.
pub open spec fn poly_eval(c: Seq<int>, x: int) -> int
    decreases c.len(),
{
    if c.len() == 0 {
        0
    } else {
        c[0] + x * poly_eval(c.drop_first(), x)
    }
}

/// The sum of `a[i] * b[i]` over the first `n` positions.
pub open spec fn dot_prefix(a: Seq<int>, b: Seq<int>, n: int) -> int
    decreases n,
{
    if n <= 0 {
        0
    } else {
        dot_prefix(a, b, n - 1) + a[n - 1] * b[n - 1]
    }
}

/// `q` and `r` are the quotient and remainder of dividing the polynomial `c`
/// by `X - alpha` modulo `m`: `c(X) = q(X) (X - alpha) + r`, coefficient by
/// coefficient, with `q` padded to the length of `c` by a zero top coefficient.
pub open spec fn is_linear_division(c: Seq<int>, q: Seq<int>, r: int, alpha: int, m: int) -> bool {
    &&& c.len() >= 1
    &&& q.len() == c.len()
    &&& q[c.len() - 1] % m == 0
    &&& c[0] % m == (r - alpha * q[0]) % m
    &&& forall|i: int| 1 <= i < c.len() ==> #[trigger] c[i] % m == (q[i - 1] - alpha * q[i]) % m
}

/// `q` and `r` are the quotient and remainder of dividing `c` by `X^b - alpha`
/// modulo `m`: `c(X) = q(X) (X^b - alpha) + r(X)` with `r` of length `b`.
pub open spec fn is_binomial_division(c: Seq<int>, b: int, q: Seq<int>, r: Seq<int>, alpha: int, m: int) -> bool {
    &&& 1 <= b <= c.len()
    &&& q.len() == c.len() - b
    &&& r.len() == b
    &&& forall|i: int|
        0 <= i < c.len() ==> #[trigger] c[i] % m == (binomial_div_coeff(q, r, b, alpha, i)) % m
}

/// The coefficient of `X^i` in `q(X) (X^b - alpha) + r(X)`.
pub open spec fn binomial_div_coeff(q: Seq<int>, r: Seq<int>, b: int, alpha: int, i: int) -> int {
    (if i < b { r[i] } else { q[i - b] }) - (if i < q.len() { alpha * q[i] } else { 0 })
}

/// The powers `1, x, x^2, ..., x^(n-1)`.
pub fn powers_series<F: Field>(x: &F, n: usize) -> (r: Vec<F>)
    requires
        n >= 1,
    ensures
        r@.len() == n,
        forall|i: int| 0 <= i < n ==> #[trigger] r@[i].value() == pow(x.value(), i as nat) % F::modulus(),
{
    let ghost m = F::modulus();
    proof {
        F::lemma_value_range(*x);
    }
    let mut powers: Vec<F> = Vec::new();
    powers.push(F::one());
    let mut cur = *x;
    proof {
        F::lemma_value_range(*x);
        lemma_reduced(x.value(), m);
        lemma_reduced(1, m);
        reveal(pow);
        assert(pow(x.value(), 0) == 1);
        assert(pow(x.value(), 1) == x.value() * pow(x.value(), 0));
    }
    let mut k: usize = 1;
    while k < n
        invariant
            1 <= k <= n,
            m == F::modulus(),
            m > 1,
            powers@.len() == k,
            forall|i: int| 0 <= i < k ==> #[trigger] powers@[i].value() == pow(x.value(), i as nat) % m,
            cur.value() == pow(x.value(), k as nat) % m,
        decreases n - k,
    {
        powers.push(cur);
        let next = cur.times(x);
        proof {
            let xv = x.value();
            F::lemma_value_range(*x);
            lemma_reduced(xv, m);
            lemma_mod_twice(pow(xv, k as nat), m);
            lemma_congruent_mul(cur.value(), pow(xv, k as nat), xv, xv, m);
            reveal(pow);
            assert(pow(xv, (k + 1) as nat) == xv * pow(xv, k as nat));
            assert(pow(xv, k as nat) * xv == xv * pow(xv, k as nat)) by (nonlinear_arith);
        }
        cur = next;
        k = k + 1;
    }
    powers
}

/// The inner product of `coeffs` with `power_series`, over their common
/// length; with `power_series` the powers of `x`, this is `coeffs` evaluated
/// at `x`.
pub fn univariate_evaluate<F: Field>(coeffs: &[F], power_series: &[F]) -> (r: F)
    ensures
        r.value() == dot_prefix(
            values(coeffs@),
            values(power_series@),
            if coeffs@.len() < power_series@.len() { coeffs@.len() as int } else { power_series@.len() as int },
        ) % F::modulus(),
{
    let ghost m = F::modulus();
    let ghost a = values(coeffs@);
    let ghost b = values(power_series@);
    let n = if coeffs.len() < power_series.len() { coeffs.len() } else { power_series.len() };
    let mut acc = F::zero();
    proof {
        F::lemma_value_range(acc);
        lemma_reduced(0, m);
    }
    let mut i: usize = 0;
    while i < n
        invariant
            i <= n,
            n <= coeffs@.len(),
            n <= power_series@.len(),
            m == F::modulus(),
            a == values(coeffs@),
            b == values(power_series@),
            acc.value() == dot_prefix(a, b, i as int) % m,
        decreases n - i,
    {
        let t = coeffs[i].times(&power_series[i]);
        let next = acc.plus(&t);
        proof {
            F::lemma_value_range(acc);
            lemma_mod_twice(dot_prefix(a, b, i as int), m);
            lemma_mod_twice(a[i as int] * b[i as int], m);
            lemma_congruent_add(acc.value(), dot_prefix(a, b, i as int), t.value(), a[i as int] * b[i as int], m);
        }
        acc = next;
        i = i + 1;
    }
    acc
}

/// Divides `f(X) = c0 + c1 X + ... + cn X^n` by `X - alpha`, giving the
/// quotient (padded with a zero to the length of `coeffs`) and the remainder.
pub fn univariate_degree_one_quotient<F: Field>(coeffs: &[F], alpha: F) -> (res: (Vec<F>, F))
    requires
        coeffs@.len() >= 1,
    ensures
        is_linear_division(values(coeffs@), values(res.0@), res.1.value(), alpha.value(), F::modulus()),
{
    let ghost m = F::modulus();
    let ghost c = values(coeffs@);
    let ghost av = alpha.value();
    let n = coeffs.len();
    let mut div: Vec<F> = Vec::new();
    let mut j: usize = 0;
    while j < n
        invariant
            j <= n,
            n == coeffs@.len(),
            div@ == coeffs@.subrange(0, j as int),
        decreases n - j,
    {
        div.push(coeffs[j]);
        j = j + 1;
    }
    proof {
        assert(div@ == coeffs@);
        F::lemma_value_range(alpha);
    }
    let mut i: usize = n - 1;
    while i > 0
        invariant
            i < n,
            n == coeffs@.len(),
            div@.len() == n,
            m == F::modulus(),
            c == values(coeffs@),
            av == alpha.value(),
            forall|k: int| 0 <= k < i ==> #[trigger] div@[k] == coeffs@[k],
            div@[n - 1] == coeffs@[n - 1],
            forall|k: int|
                i <= k < n - 1 ==> #[trigger] div@[k].value() == (c[k] + av * div@[k + 1].value()) % m,
        decreases i,
    {
        proof {
            if i == n - 1 {
                assert(div@[i as int] == coeffs@[i as int]);
            }
        }
        let rem = div[i].times(&alpha);
        let cur = div[i - 1];
        let s = cur.plus(&rem);
        proof {
            F::lemma_value_range(div@[i as int]);
            lemma_mod_twice(div@[i as int].value() * av, m);
            lemma_add_mod_noop_right(c[i - 1], div@[i as int].value() * av, m);
            assert(div@[i as int].value() * av == av * div@[i as int].value()) by (nonlinear_arith);
        }
        div.set(i - 1, s);
        i = i - 1;
    }
    let remainder = div[0];
    let mut q: Vec<F> = Vec::new();
    let mut k: usize = 1;
    while k < n
        invariant
            1 <= k <= n,
            div@.len() == n,
            q@ == div@.subrange(1, k as int),
        decreases n - k,
    {
        q.push(div[k]);
        k = k + 1;
    }
    q.push(F::zero());
    proof {
        let qv = values(q@);
        let r = remainder.value();
        lemma_reduced(0, m);
        assert(qv[n - 1] == 0);
        // c[0]: remainder = c0 + alpha q0
        if n == 1 {
            F::lemma_value_range(coeffs@[0]);
            lemma_reduced(c[0], m);
            assert(div@[0] == coeffs@[0]);
            assert(av * qv[0] == 0) by (nonlinear_arith)
                requires
                    qv[0] == 0,
            ;
        } else {
            assert(qv[0] == div@[1].value());
            assert(r == (c[0] + av * qv[0]) % m);
            lemma_mod_twice(c[0] + av * qv[0], m);
            lemma_sub_mod_noop(c[0] + av * qv[0], av * qv[0], m);
            lemma_mod_twice(av * qv[0], m);
            lemma_sub_mod_noop_right(r, av * qv[0], m);
        }
        assert forall|i: int| 1 <= i < n implies #[trigger] c[i] % m == (qv[i - 1] - av * qv[i]) % m by {
            assert(qv[i - 1] == div@[i].value());
            if i < n - 1 {
                assert(qv[i] == div@[i + 1].value());
                let d = av * qv[i];
                assert(qv[i - 1] == (c[i] + d) % m);
                lemma_sub_mod_noop(c[i] + d, d, m);
                lemma_mod_twice(d, m);
                lemma_sub_mod_noop_right(qv[i - 1], d, m);
            } else {
                assert(div@[i] == coeffs@[i]);
                assert(qv[i] == 0);
                assert(av * qv[i] == 0) by (nonlinear_arith)
                    requires
                        qv[i] == 0,
                ;
            }
        }
    }
    (q, remainder)
}

/// The coefficients of `q(X) (X - alpha) + r`, lowest degree first.
pub open spec fn linear_product(q: Seq<int>, r: int, alpha: int) -> Seq<int>
    decreases q.len(),
{
    if q.len() == 0 {
        seq![r]
    } else {
        seq![r - alpha * q[0]] + linear_product(q.drop_first(), q[0], alpha)
    }
}

proof fn lemma_linear_product_eval(q: Seq<int>, r: int, alpha: int, x: int)
    ensures
        poly_eval(linear_product(q, r, alpha), x) == poly_eval(q, x) * (x - alpha) + r,
    decreases q.len(),
{
    let t = linear_product(q, r, alpha);
    if q.len() == 0 {
        assert(t.drop_first() =~= Seq::<int>::empty());
        assert(poly_eval(t.drop_first(), x) == 0);
    } else {
        let t2 = linear_product(q.drop_first(), q[0], alpha);
        lemma_linear_product_eval(q.drop_first(), q[0], alpha, x);
        assert(t.drop_first() =~= t2);
        let pq = poly_eval(q.drop_first(), x);
        assert(poly_eval(t, x) == (r - alpha * q[0]) + x * (pq * (x - alpha) + q[0]));
        assert(poly_eval(q, x) == q[0] + x * pq);
        assert((r - alpha * q[0]) + x * (pq * (x - alpha) + q[0]) == (q[0] + x * pq) * (x - alpha) + r)
            by (nonlinear_arith);
    }
}

proof fn lemma_linear_product_coeffs(q: Seq<int>, r: int, alpha: int)
    ensures
        linear_product(q, r, alpha).len() == q.len() + 1,
        q.len() >= 1 ==> linear_product(q, r, alpha)[0] == r - alpha * q[0],
        q.len() == 0 ==> linear_product(q, r, alpha)[0] == r,
        q.len() >= 1 ==> linear_product(q, r, alpha)[q.len() as int] == q[q.len() - 1],
        forall|i: int|
            1 <= i < q.len() ==> #[trigger] linear_product(q, r, alpha)[i] == q[i - 1] - alpha * q[i],
    decreases q.len(),
{
    if q.len() > 0 {
        let q2 = q.drop_first();
        let t = linear_product(q, r, alpha);
        let t2 = linear_product(q2, q[0], alpha);
        lemma_linear_product_coeffs(q2, q[0], alpha);
        assert(t =~= seq![r - alpha * q[0]] + t2);
        assert forall|i: int| 1 <= i < q.len() implies #[trigger] t[i] == q[i - 1] - alpha * q[i] by {
            assert(t[i] == t2[i - 1]);
            if i == 1 {
                assert(t2[0] == q[0] - alpha * q2[0]);
            } else {
                assert(t2[i - 1] == q2[i - 2] - alpha * q2[i - 1]);
            }
        }
        if q.len() == 1 {
            assert(t[1] == t2[0]);
        } else {
            assert(t[q.len() as int] == t2[q2.len() as int]);
        }
    }
}

/// Coefficient-wise congruent polynomials of equal length have congruent
/// values everywhere.
pub proof fn lemma_eval_congruent(a: Seq<int>, b: Seq<int>, x: int, m: int)
    requires
        m > 0,
        a.len() == b.len(),
        forall|i: int| 0 <= i < a.len() ==> #[trigger] a[i] % m == b[i] % m,
    ensures
        poly_eval(a, x) % m == poly_eval(b, x) % m,
    decreases a.len(),
{
    if a.len() > 0 {
        lemma_eval_congruent(a.drop_first(), b.drop_first(), x, m);
        let pa = poly_eval(a.drop_first(), x);
        let pb = poly_eval(b.drop_first(), x);
        assert(a[0] % m == b[0] % m);
        lemma_mul_mod_noop_right(x, pa, m);
        lemma_mul_mod_noop_right(x, pb, m);
        lemma_congruent_add(a[0], b[0], x * pa, x * pb, m);
    }
}

/// A zero top coefficient does not change a polynomial's value.
proof fn lemma_eval_push_zero(a: Seq<int>, x: int)
    ensures
        poly_eval(a.push(0), x) == poly_eval(a, x),
    decreases a.len(),
{
    if a.len() == 0 {
        assert(a.push(0).drop_first() =~= Seq::<int>::empty());
        assert(x * 0 == 0) by (nonlinear_arith);
        assert(poly_eval(a.push(0).drop_first(), x) == 0);
        assert(poly_eval(a, x) == 0);
    } else {
        assert(a.push(0).drop_first() =~= a.drop_first().push(0));
        lemma_eval_push_zero(a.drop_first(), x);
        assert(a.push(0)[0] == a[0]);
    }
}

/// Division by `X - alpha` is exact as an identity of polynomials: whenever
/// `q` and `r` are the quotient and remainder of `c`, then
/// `c(x) = q(x) (x - alpha) + r` at every point `x`, modulo `m`.
pub proof fn lemma_linear_division_identity(c: Seq<int>, q: Seq<int>, r: int, alpha: int, m: int, x: int)
    requires
        m > 0,
        is_linear_division(c, q, r, alpha, m),
    ensures
        poly_eval(c, x) % m == (poly_eval(q, x) * (x - alpha) + r) % m,
{
    let n = c.len();
    let t = linear_product(q, r, alpha);
    lemma_linear_product_coeffs(q, r, alpha);
    lemma_linear_product_eval(q, r, alpha, x);
    let ce = c.push(0);
    assert forall|i: int| 0 <= i < ce.len() implies #[trigger] ce[i] % m == t[i] % m by {
        if i == 0 {
        } else if i < n {
            assert(c[i] % m == (q[i - 1] - alpha * q[i]) % m);
        } else {
            lemma_small_mod(0, m as nat);
        }
    }
    lemma_eval_congruent(ce, t, x, m);
    lemma_eval_push_zero(c, x);
}

/// The remainder of dividing by `X - alpha` is the value at `alpha`.
pub proof fn lemma_linear_division_remainder(c: Seq<int>, q: Seq<int>, r: int, alpha: int, m: int)
    requires
        m > 0,
        is_linear_division(c, q, r, alpha, m),
    ensures
        poly_eval(c, alpha) % m == r % m,
{
    lemma_linear_division_identity(c, q, r, alpha, m, alpha);
    assert(poly_eval(q, alpha) * (alpha - alpha) == 0) by (nonlinear_arith);
}

proof fn lemma_poly_eval_last(c: Seq<int>, x: int)
    requires
        c.len() >= 1,
    ensures
        poly_eval(c, x) == poly_eval(c.drop_last(), x) + c.last() * pow(x, (c.len() - 1) as nat),
    decreases c.len(),
{
    reveal(pow);
    if c.len() == 1 {
        assert(c.drop_last() =~= Seq::<int>::empty());
        assert(c.drop_first() =~= Seq::<int>::empty());
        assert(pow(x, 0) == 1);
        assert(x * 0 == 0) by (nonlinear_arith);
    } else {
        let t = c.drop_first();
        lemma_poly_eval_last(t, x);
        assert(t.drop_last() =~= c.drop_last().drop_first());
        assert(t.last() == c.last());
        let e = (c.len() - 2) as nat;
        assert(pow(x, (e + 1) as nat) == x * pow(x, e));
        let a = poly_eval(t.drop_last(), x);
        let p = pow(x, e);
        assert(x * (a + c.last() * p) == x * a + c.last() * (x * p)) by (nonlinear_arith);
    }
}

/// An inner product with the powers of `x` is the value at `x`.
pub proof fn lemma_dot_powers_exact(c: Seq<int>, p: Seq<int>, x: int, n: int)
    requires
        0 <= n <= c.len(),
        n <= p.len(),
        forall|i: int| 0 <= i < n ==> #[trigger] p[i] == pow(x, i as nat),
    ensures
        dot_prefix(c, p, n) == poly_eval(c.subrange(0, n), x),
    decreases n,
{
    if n == 0 {
        assert(c.subrange(0, 0) =~= Seq::<int>::empty());
    } else {
        lemma_dot_powers_exact(c, p, x, n - 1);
        let s = c.subrange(0, n);
        lemma_poly_eval_last(s, x);
        assert(s.drop_last() =~= c.subrange(0, n - 1));
        assert(p[n - 1] == pow(x, (n - 1) as nat));
    }
}

/// Inner products with entry-wise congruent right sides are congruent.
pub proof fn lemma_dot_congruent_right(c: Seq<int>, p: Seq<int>, p2: Seq<int>, n: int, m: int)
    requires
        m > 0,
        0 <= n <= c.len(),
        n <= p.len(),
        n <= p2.len(),
        forall|i: int| 0 <= i < n ==> #[trigger] p[i] % m == p2[i] % m,
    ensures
        dot_prefix(c, p, n) % m == dot_prefix(c, p2, n) % m,
    decreases n,
{
    if n > 0 {
        lemma_dot_congruent_right(c, p, p2, n - 1, m);
        lemma_mul_mod_noop_right(c[n - 1], p[n - 1], m);
        lemma_mul_mod_noop_right(c[n - 1], p2[n - 1], m);
        lemma_congruent_add(
            dot_prefix(c, p, n - 1),
            dot_prefix(c, p2, n - 1),
            c[n - 1] * p[n - 1],
            c[n - 1] * p2[n - 1],
            m,
        );
    }
}

/// Evaluating a polynomial through the power series of `x` (the inner product
/// of its coefficients with `1, x, x^2, ...`) gives its value at `x`.
pub proof fn lemma_evaluate_with_powers(c: Seq<int>, p: Seq<int>, x: int, m: int)
    requires
        m > 0,
        p.len() >= c.len(),
        forall|i: int| 0 <= i < p.len() ==> #[trigger] p[i] == pow(x, i as nat) % m,
    ensures
        dot_prefix(c, p, c.len() as int) % m == poly_eval(c, x) % m,
{
    let n = c.len() as int;
    let exact = Seq::new(p.len(), |i: int| pow(x, i as nat));
    assert forall|i: int| 0 <= i < n implies #[trigger] p[i] % m == exact[i] % m by {
        lemma_mod_twice(pow(x, i as nat), m);
    }
    lemma_dot_congruent_right(c, p, exact, n, m);
    lemma_dot_powers_exact(c, exact, x, n);
    assert(c.subrange(0, n) =~= c);
}

/// Divides `f(X)` by `X^b - alpha`, giving `(q, r)` with
/// `f(X) = q(X) (X^b - alpha) + r(X)`. With `b = 0` every coefficient is
/// scaled by `1 + alpha` and the remainder is empty.
pub fn univariate_degree_b_quotient<F: Field>(coeffs: &[F], degree_b: usize, alpha: F) -> (res: (
    Vec<F>,
    Vec<F>,
))
    requires
        coeffs@.len() >= degree_b,
    ensures
        degree_b >= 1 ==> is_binomial_division(
            values(coeffs@),
            degree_b as int,
            values(res.0@),
            values(res.1@),
            alpha.value(),
            F::modulus(),
        ),
        degree_b == 0 ==> res.1@.len() == 0 && res.0@.len() == coeffs@.len() && forall|i: int|
            0 <= i < coeffs@.len() ==> #[trigger] res.0@[i].value() == ((1 + alpha.value())
                * coeffs@[i].value()) % F::modulus(),
{
    let ghost m = F::modulus();
    let ghost c = values(coeffs@);
    let ghost av = alpha.value();
    let n = coeffs.len();
    let b = degree_b;
    let mut local: Vec<F> = Vec::new();
    let mut j: usize = 0;
    while j < n
        invariant
            j <= n,
            n == coeffs@.len(),
            local@ == coeffs@.subrange(0, j as int),
        decreases n - j,
    {
        local.push(coeffs[j]);
        j = j + 1;
    }
    proof {
        assert(local@ == coeffs@);
        F::lemma_value_range(alpha);
    }
    let mut d: usize = n;
    while d > b
        invariant
            b <= d <= n,
            n == coeffs@.len(),
            local@.len() == n,
            m == F::modulus(),
            m > 1,
            c == values(coeffs@),
            av == alpha.value(),
            forall|k: int| 0 <= k < d - b ==> #[trigger] local@[k] == coeffs@[k],
            b == 0 ==> forall|k: int|
                d <= k < n ==> #[trigger] local@[k].value() == ((1 + av) * c[k]) % m,
            b >= 1 ==> forall|k: int|
                d - b <= k < n ==> #[trigger] local@[k].value() == if k + b < n {
                    (c[k] + av * local@[k + b].value()) % m
                } else {
                    c[k]
                },
        decreases d,
    {
        let deg = d - 1;
        let t = deg - b;
        proof {
            if b >= 1 {
                if deg + b >= n {
                    assert(local@[deg as int].value() == c[deg as int]);
                }
            } else {
                assert(local@[deg as int] == coeffs@[deg as int]);
            }
        }
        let rem = alpha.times(&local[deg]);
        let cur = local[t];
        let s = cur.plus(&rem);
        proof {
            F::lemma_value_range(local@[deg as int]);
            assert(cur == coeffs@[t as int]);
            lemma_mod_twice(av * local@[deg as int].value(), m);
            lemma_add_mod_noop_right(c[t as int], av * local@[deg as int].value(), m);
            if b == 0 {
                F::lemma_value_range(coeffs@[deg as int]);
                lemma_reduced(c[deg as int], m);
                assert(c[t as int] + av * c[t as int] == (1 + av) * c[t as int]) by (nonlinear_arith);
            }
        }
        local.set(t, s);
        d = d - 1;
    }
    let mut quotient: Vec<F> = Vec::new();
    let mut k: usize = b;
    while k < n
        invariant
            b <= k <= n,
            local@.len() == n,
            quotient@ == local@.subrange(b as int, k as int),
        decreases n - k,
    {
        quotient.push(local[k]);
        k = k + 1;
    }
    let mut remainder: Vec<F> = Vec::new();
    let mut k: usize = 0;
    while k < b
        invariant
            k <= b <= n,
            local@.len() == n,
            remainder@ == local@.subrange(0, k as int),
        decreases b - k,
    {
        remainder.push(local[k]);
        k = k + 1;
    }
    proof {
        let qv = values(quotient@);
        let rv = values(remainder@);
        if b >= 1 {
            assert forall|i: int| 0 <= i < n implies #[trigger] c[i] % m == (binomial_div_coeff(
                qv,
                rv,
                b as int,
                av,
                i,
            )) % m by {
                F::lemma_value_range(coeffs@[i]);
                lemma_reduced(c[i], m);
                let lead = if i < b { rv[i] } else { qv[i - b] };
                assert(lead == local@[i].value());
                if i + b < n {
                    assert(qv[i] == local@[i + b].value());
                    let dd = av * qv[i];
                    assert(lead == (c[i] + dd) % m);
                    lemma_sub_mod_noop(c[i] + dd, dd, m);
                    lemma_mod_twice(dd, m);
                    lemma_sub_mod_noop_right(lead, dd, m);
                } else {
                    assert(lead == c[i]);
                }
            }
        }
    }
    (quotient, remainder)
}

/// Adds `weight * another` to `coeffs` coefficient by coefficient, first
/// extending `coeffs` with zeros to the length of `another` if it is shorter.
pub fn polynomial_add<F: Field>(coeffs: &mut Vec<F>, weight: F, another_coeffs: &[F])
    ensures
        final(coeffs)@.len() == if old(coeffs)@.len() < another_coeffs@.len() {
            another_coeffs@.len()
        } else {
            old(coeffs)@.len()
        },
        forall|i: int|
            0 <= i < final(coeffs)@.len() ==> #[trigger] final(coeffs)@[i].value() == ((if i
                < old(coeffs)@.len() {
                old(coeffs)@[i].value()
            } else {
                0
            }) + (if i < another_coeffs@.len() {
                weight.value() * another_coeffs@[i].value()
            } else {
                0
            })) % F::modulus(),
{
    let ghost m = F::modulus();
    let ghost old_c = coeffs@;
    let ghost wv = weight.value();
    let n = another_coeffs.len();
    proof {
        F::lemma_value_range(weight);
    }
    while coeffs.len() < n
        invariant
            coeffs@.len() <= n || coeffs@ == old_c,
            old_c.len() <= coeffs@.len(),
            coeffs@.subrange(0, old_c.len() as int) == old_c,
            forall|i: int| old_c.len() <= i < coeffs@.len() ==> #[trigger] coeffs@[i].value() == 0,
        decreases n - coeffs@.len(),
    {
        coeffs.push(F::zero());
    }
    let len = coeffs.len();
    let mut i: usize = 0;
    while i < n
        invariant
            i <= n <= len,
            n == another_coeffs@.len(),
            m > 1,
            len == coeffs@.len(),
            len == if old_c.len() < n { n as int } else { old_c.len() as int },
            m == F::modulus(),
            wv == weight.value(),
            forall|k: int| i <= k < len ==> #[trigger] coeffs@[k].value() == if k < old_c.len() {
                old_c[k].value()
            } else {
                0
            },
            forall|k: int|
                0 <= k < i ==> #[trigger] coeffs@[k].value() == ((if k < old_c.len() {
                    old_c[k].value()
                } else {
                    0
                }) + wv * another_coeffs@[k].value()) % m,
        decreases n - i,
    {
        let t = weight.times(&another_coeffs[i]);
        let s = coeffs[i].plus(&t);
        proof {
            lemma_mod_twice(wv * another_coeffs@[i as int].value(), m);
            lemma_add_mod_noop_right(coeffs@[i as int].value(), wv * another_coeffs@[i as int].value(), m);
        }
        coeffs.set(i, s);
        i = i + 1;
    }
    proof {
        assert forall|k: int| n <= k < len implies #[trigger] coeffs@[k].value() == ((if k < old_c.len() {
            old_c[k].value()
        } else {
            0
        }) + 0) % m by {
            if k < old_c.len() {
                F::lemma_value_range(old_c[k]);
                lemma_reduced(old_c[k].value(), m);
            } else {
                F::lemma_value_range(weight);
                lemma_reduced(0, m);
            }
        }
    }
}


/// The weighted sum `a * w0 + b * w1 + c * w2`.
fn combine3<F: Field>(a: F, b: F, c: F, w0: F, w1: F, w2: F) -> (r: F)
    ensures
        r.value() == (a.value() * w0.value() + b.value() * w1.value() + c.value() * w2.value()) % F::modulus(),
{
    let x = a.times(&w0);
    let y = b.times(&w1);
    let z = c.times(&w2);
    let xy = x.plus(&y);
    let r = xy.plus(&z);
    proof {
        let m = F::modulus();
        F::lemma_modulus();
        let (av, bv, cv) = (a.value() * w0.value(), b.value() * w1.value(), c.value() * w2.value());
        lemma_mod_twice(av, m);
        lemma_mod_twice(bv, m);
        lemma_mod_twice(cv, m);
        lemma_congruent_add(x.value(), av, y.value(), bv, m);
        lemma_mod_twice(av + bv, m);
        lemma_congruent_add(xy.value(), av + bv, z.value(), cv, m);
    }
    r
}

/// The quadratic with the given coefficients, evaluated at `x` through the
/// coefficient sums of the Lagrange basis at `r0, r1, r2` weighted by
/// `w0, w1, w2`, is the Lagrange combination at `x`.
proof fn lemma_lagrange_eval(
    r0: int,
    r1: int,
    r2: int,
    w0: int,
    w1: int,
    w2: int,
    c: Seq<int>,
    x: int,
    m: int,
)
    requires
        m > 0,
        c.len() == 3,
        c[0] % m == (r1 * r2 * w0 + r0 * r2 * w1 + r0 * r1 * w2) % m,
        c[1] % m == ((-r1 - r2) * w0 + (-r0 - r2) * w1 + (-r0 - r1) * w2) % m,
        c[2] % m == (w0 + w1 + w2) % m,
    ensures
        poly_eval(c, x) % m == (w0 * ((x - r1) * (x - r2)) + w1 * ((x - r0) * (x - r2)) + w2 * ((x - r0) * (x
            - r1))) % m,
{
    let c0 = r1 * r2 * w0 + r0 * r2 * w1 + r0 * r1 * w2;
    let c1 = (-r1 - r2) * w0 + (-r0 - r2) * w1 + (-r0 - r1) * w2;
    let c2 = w0 + w1 + w2;
    let t1 = c.drop_first();
    let t2 = t1.drop_first();
    let t3 = t2.drop_first();
    assert(t3.len() == 0);
    assert(poly_eval(t3, x) == 0);
    assert(t2[0] == c[2] && t1[0] == c[1]);
    assert(poly_eval(t2, x) == c[2] + x * 0);
    assert(poly_eval(t1, x) == c[1] + x * poly_eval(t2, x));
    assert(poly_eval(c, x) == c[0] + x * poly_eval(t1, x));
    assert(c[0] + x * (c[1] + x * (c[2] + x * 0)) == c[0] + c[1] * x + c[2] * (x * x)) by (nonlinear_arith);
    lemma_mod_twice(c1, m);
    lemma_mod_twice(c2, m);
    lemma_congruent_mul(c[1], c1, x, x, m);
    lemma_congruent_mul(c[2], c2, x * x, x * x, m);
    lemma_congruent_add(c[0], c0, c[1] * x, c1 * x, m);
    lemma_congruent_add(c[0] + c[1] * x, c0 + c1 * x, c[2] * (x * x), c2 * (x * x), m);
    assert(c1 * x == ((-r1 - r2) * w0) * x + ((-r0 - r2) * w1) * x + ((-r0 - r1) * w2) * x) by (nonlinear_arith)
        requires
            c1 == (-r1 - r2) * w0 + (-r0 - r2) * w1 + (-r0 - r1) * w2,
    ;
    assert(c2 * (x * x) == w0 * (x * x) + w1 * (x * x) + w2 * (x * x)) by (nonlinear_arith)
        requires
            c2 == w0 + w1 + w2,
    ;
    lemma_basis_term(r1, r2, w0, x);
    lemma_basis_term(r0, r2, w1, x);
    lemma_basis_term(r0, r1, w2, x);
}

/// One Lagrange basis term: `ra rb w - (ra + rb) w x + w x^2 = w (x - ra) (x - rb)`.
proof fn lemma_basis_term(ra: int, rb: int, w: int, x: int)
    ensures
        ra * rb * w + ((-ra - rb) * w) * x + w * (x * x) == w * ((x - ra) * (x - rb)),
{
    assert(ra * rb * w + ((-ra - rb) * w) * x + w * (x * x) == w * ((x - ra) * (x - rb))) by (nonlinear_arith);
}

/// At the root `x` with weight `w` and inverted denominator `inv`, the
/// Lagrange combination gives back `e`.
proof fn lemma_lagrange_weight(w: int, inv: int, e: int, d: int, dv: int, m: int)
    requires
        m > 1,
        0 <= e < m,
        w % m == (inv * e) % m,
        dv % m == d % m,
        (dv * inv) % m == 1,
    ensures
        (w * d) % m == e,
{
    lemma_congruent_mul(w, inv * e, d, dv, m);
    assert((inv * e) * dv == (dv * inv) * e) by (nonlinear_arith);
    lemma_reduced(1, m);
    lemma_congruent_mul(dv * inv, 1, e, e, m);
    lemma_reduced(e, m);
}

/// The coefficients of the polynomial of degree at most two that takes the
/// value `evals[i]` at `roots[i]`, by Lagrange interpolation.
pub fn coeff_form_degree2_lagrange<F: Field>(roots: [F; 3], evals: [F; 3]) -> (r: [F; 3])
    requires
        is_unit(
            (roots@[0].value() - roots@[1].value()) * (roots@[0].value() - roots@[2].value()),
            F::modulus(),
        ),
        is_unit(
            (roots@[1].value() - roots@[0].value()) * (roots@[1].value() - roots@[2].value()),
            F::modulus(),
        ),
        is_unit(
            (roots@[2].value() - roots@[0].value()) * (roots@[2].value() - roots@[1].value()),
            F::modulus(),
        ),
    ensures
        forall|i: int| 0 <= i < 3 ==> #[trigger] poly_eval(values(r@), roots@[i].value()) % F::modulus() == evals@[i].value(),
{
    let ghost m = F::modulus();
    let r0 = roots[0];
    let r1 = roots[1];
    let r2 = roots[2];
    let e0 = evals[0];
    let e1 = evals[1];
    let e2 = evals[2];
    let one = F::one();
    let ghost (v0, v1, v2) = (r0.value(), r1.value(), r2.value());
    proof {
        F::lemma_modulus();
        F::lemma_value_range(e0);
        F::lemma_value_range(e1);
        F::lemma_value_range(e2);
    }

    let r0_nom = [r1.times(&r2), r1.negate().minus(&r2), one];
    let d0 = r0.minus(&r1).times(&r0.minus(&r2));
    proof {
        lemma_mod_twice(v0 - v1, m);
        lemma_mod_twice(v0 - v2, m);
        lemma_congruent_mul((v0 - v1) % m, v0 - v1, (v0 - v2) % m, v0 - v2, m);
        lemma_mod_twice(((v0 - v1) % m) * ((v0 - v2) % m), m);
        lemma_unit_congruent((v0 - v1) * (v0 - v2), d0.value(), m);
    }
    let r0_denom_inv = d0.inverse().unwrap();
    let r0_weight = r0_denom_inv.times(&e0);

    let r1_nom = [r0.times(&r2), r0.negate().minus(&r2), one];
    let d1 = r1.minus(&r0).times(&r1.minus(&r2));
    proof {
        lemma_mod_twice(v1 - v0, m);
        lemma_mod_twice(v1 - v2, m);
        lemma_congruent_mul((v1 - v0) % m, v1 - v0, (v1 - v2) % m, v1 - v2, m);
        lemma_mod_twice(((v1 - v0) % m) * ((v1 - v2) % m), m);
        lemma_unit_congruent((v1 - v0) * (v1 - v2), d1.value(), m);
    }
    let r1_denom_inv = d1.inverse().unwrap();
    let r1_weight = r1_denom_inv.times(&e1);

    let r2_nom = [r0.times(&r1), r0.negate().minus(&r1), one];
    let d2 = r2.minus(&r0).times(&r2.minus(&r1));
    proof {
        lemma_mod_twice(v2 - v0, m);
        lemma_mod_twice(v2 - v1, m);
        lemma_congruent_mul((v2 - v0) % m, v2 - v0, (v2 - v1) % m, v2 - v1, m);
        lemma_mod_twice(((v2 - v0) % m) * ((v2 - v1) % m), m);
        lemma_unit_congruent((v2 - v0) * (v2 - v1), d2.value(), m);
    }
    let r2_denom_inv = d2.inverse().unwrap();
    let r2_weight = r2_denom_inv.times(&e2);

    let c0 = combine3(r0_nom[0], r1_nom[0], r2_nom[0], r0_weight, r1_weight, r2_weight);
    let c1 = combine3(r0_nom[1], r1_nom[1], r2_nom[1], r0_weight, r1_weight, r2_weight);
    let c2 = combine3(r0_nom[2], r1_nom[2], r2_nom[2], r0_weight, r1_weight, r2_weight);
    let r = [c0, c1, c2];
    proof {
        let (w0, w1, w2) = (r0_weight.value(), r1_weight.value(), r2_weight.value());
        let c = values(r@);
        assert(c[0] == c0.value() && c[1] == c1.value() && c[2] == c2.value());
        let (i0, i1, i2) = (r0_denom_inv.value(), r1_denom_inv.value(), r2_denom_inv.value());
        // the basis numerators are the products and negated sums of the other roots
        lemma_mod_twice(v1 * v2, m);
        lemma_mod_twice(v0 * v2, m);
        lemma_mod_twice(v0 * v1, m);
        lemma_mod_twice(-v1, m);
        lemma_mod_twice(-v0, m);
        lemma_congruent_sub((-v1) % m, -v1, v2, v2, m);
        lemma_mod_twice(-v1 - v2, m);
        lemma_congruent_sub((-v0) % m, -v0, v2, v2, m);
        lemma_mod_twice(-v0 - v2, m);
        lemma_congruent_sub((-v0) % m, -v0, v1, v1, m);
        lemma_mod_twice(-v0 - v1, m);
        lemma_reduced(1, m);
        lemma_sum3_congruent(r0_nom[0].value(), r1_nom[0].value(), r2_nom[0].value(), v1 * v2, v0 * v2, v0 * v1, w0, w1, w2, m);
        lemma_sum3_congruent(r0_nom[1].value(), r1_nom[1].value(), r2_nom[1].value(), -v1 - v2, -v0 - v2, -v0 - v1, w0, w1, w2, m);
        lemma_sum3_congruent(r0_nom[2].value(), r1_nom[2].value(), r2_nom[2].value(), 1, 1, 1, w0, w1, w2, m);
        lemma_mod_twice(r0_nom[0].value() * w0 + r1_nom[0].value() * w1 + r2_nom[0].value() * w2, m);
        lemma_mod_twice(r0_nom[1].value() * w0 + r1_nom[1].value() * w1 + r2_nom[1].value() * w2, m);
        lemma_mod_twice(r0_nom[2].value() * w0 + r1_nom[2].value() * w1 + r2_nom[2].value() * w2, m);
        assert(1 * w0 + 1 * w1 + 1 * w2 == w0 + w1 + w2);
        assert(v1 * v2 * w0 + v0 * v2 * w1 + v0 * v1 * w2 == (v1 * v2) * w0 + (v0 * v2) * w1 + (v0 * v1) * w2);
        // at each root only its own basis polynomial survives
        lemma_lagrange_eval(v0, v1, v2, w0, w1, w2, c, v0, m);
        lemma_lagrange_eval(v0, v1, v2, w0, w1, w2, c, v1, m);
        lemma_lagrange_eval(v0, v1, v2, w0, w1, w2, c, v2, m);
        assert(w1 * ((v0 - v0) * (v0 - v2)) == 0 && w2 * ((v0 - v0) * (v0 - v1)) == 0) by (nonlinear_arith);
        assert(w0 * ((v1 - v1) * (v1 - v2)) == 0 && w2 * ((v1 - v0) * (v1 - v1)) == 0) by (nonlinear_arith);
        assert(w0 * ((v2 - v1) * (v2 - v2)) == 0 && w1 * ((v2 - v0) * (v2 - v2)) == 0) by (nonlinear_arith);
        assert((v1 - v0) * (v1 - v2) == (v1 - v0) * (v1 - v2));
        lemma_mod_twice(i0 * e0.value(), m);
        lemma_mod_twice(i1 * e1.value(), m);
        lemma_mod_twice(i2 * e2.value(), m);
        F::lemma_value_range(d0);
        F::lemma_value_range(d1);
        F::lemma_value_range(d2);
        lemma_reduced(d0.value(), m);
        lemma_reduced(d1.value(), m);
        lemma_reduced(d2.value(), m);
        lemma_lagrange_weight(w0, i0, e0.value(), (v0 - v1) * (v0 - v2), d0.value(), m);
        lemma_lagrange_weight(w1, i1, e1.value(), (v1 - v0) * (v1 - v2), d1.value(), m);
        lemma_lagrange_weight(w2, i2, e2.value(), (v2 - v0) * (v2 - v1), d2.value(), m);
        assert(roots@[0] == r0 && roots@[1] == r1 && roots@[2] == r2);
        assert(evals@[0] == e0 && evals@[1] == e1 && evals@[2] == e2);
    }
    r
}

/// Congruent coefficients give congruent weighted sums.
proof fn lemma_sum3_congruent(a: int, b: int, c: int, a2: int, b2: int, c2: int, w0: int, w1: int, w2: int, m: int)
    requires
        m > 0,
        a % m == a2 % m,
        b % m == b2 % m,
        c % m == c2 % m,
    ensures
        (a * w0 + b * w1 + c * w2) % m == (a2 * w0 + b2 * w1 + c2 * w2) % m,
{
    lemma_congruent_mul(a, a2, w0, w0, m);
    lemma_congruent_mul(b, b2, w1, w1, m);
    lemma_congruent_mul(c, c2, w2, w2, m);
    lemma_congruent_add(a * w0, a2 * w0, b * w1, b2 * w1, m);
    lemma_congruent_add(a * w0 + b * w1, a2 * w0 + b2 * w1, c * w2, c2 * w2, m);
}


/// The quotient of dividing `c` by `X - a` over the integers: its coefficient
/// `j` is the value at `a` of the part of `c` from degree `j + 1` on.
pub open spec fn lin_quotient(c: Seq<int>, a: int) -> Seq<int> {
    Seq::new((c.len() - 1) as nat, |j: int| poly_eval(c.skip(j + 1), a))
}

/// Every entry of `s` reduced modulo `m`.
pub open spec fn reduce(s: Seq<int>, m: int) -> Seq<int> {
    Seq::new(s.len(), |i: int| s[i] % m)
}

/// The polynomial left after dividing `c` by `X - roots[i]` for each `i < k`
/// in turn, modulo `m`.
pub open spec fn root_quotients(c: Seq<int>, roots: Seq<int>, m: int, k: nat) -> Seq<int>
    decreases k,
{
    if k == 0 {
        c
    } else {
        reduce(lin_quotient(root_quotients(c, roots, m, (k - 1) as nat), roots[k - 1]), m)
    }
}

/// Each root in turn is a root of what is left after dividing by the
/// factors of the roots before it.
pub open spec fn roots_divide(c: Seq<int>, roots: Seq<int>, m: int) -> bool {
    forall|k: int| 0 <= k < roots.len() ==> #[trigger] poly_eval(root_quotients(c, roots, m, k as nat), roots[k]) % m == 0
}

/// The product of `X - roots[i]` over `i < k`, evaluated at `x`.
pub open spec fn roots_product(roots: Seq<int>, k: nat, x: int) -> int
    decreases k,
{
    if k == 0 {
        1
    } else {
        roots_product(roots, (k - 1) as nat, x) * (x - roots[k - 1])
    }
}

proof fn lemma_root_quotients_len(c: Seq<int>, roots: Seq<int>, m: int, k: nat)
    requires
        k <= c.len(),
    ensures
        root_quotients(c, roots, m, k).len() == c.len() - k,
    decreases k,
{
    if k > 0 {
        lemma_root_quotients_len(c, roots, m, (k - 1) as nat);
    }
}

/// Horner's step: the value of the part from degree `t` on.
proof fn lemma_poly_eval_skip(c: Seq<int>, t: int, x: int)
    requires
        0 <= t < c.len(),
    ensures
        poly_eval(c.skip(t), x) == c[t] + x * poly_eval(c.skip(t + 1), x),
{
    assert(c.skip(t).drop_first() =~= c.skip(t + 1));
}

/// Dividing by `X - a`: `c(x) = q(x) (x - a) + c(a)` with `q` the quotient.
pub proof fn lemma_lin_quotient_identity(c: Seq<int>, a: int, x: int)
    requires
        c.len() >= 1,
    ensures
        poly_eval(c, x) == poly_eval(lin_quotient(c, a), x) * (x - a) + poly_eval(c, a),
    decreases c.len(),
{
    let q = lin_quotient(c, a);
    let d = c.drop_first();
    if c.len() == 1 {
        assert(d.len() == 0);
        assert(q.len() == 0);
        assert(poly_eval(d, x) == 0);
        assert(poly_eval(d, a) == 0);
        assert(poly_eval(q, x) == 0);
        assert(poly_eval(q, x) * (x - a) == 0);
    } else {
        lemma_lin_quotient_identity(d, a, x);
        let qd = lin_quotient(d, a);
        assert(q.drop_first() =~= qd) by {
            assert forall|j: int| 0 <= j < qd.len() implies q.drop_first()[j] == qd[j] by {
                assert(c.skip(j + 2) =~= d.skip(j + 1));
            }
        }
        assert(c.skip(1) =~= d);
        assert(q[0] == poly_eval(d, a));
        let pq = poly_eval(qd, x);
        let da = poly_eval(d, a);
        assert(poly_eval(q, x) == da + x * pq);
        assert(poly_eval(c, x) == c[0] + x * poly_eval(d, x));
        assert(poly_eval(c, a) == c[0] + a * da);
        assert(c[0] + x * (pq * (x - a) + da) == (da + x * pq) * (x - a) + (c[0] + a * da)) by (nonlinear_arith);
    }
}

/// Reducing the coefficients modulo `m` keeps the value modulo `m`.
pub proof fn lemma_poly_eval_reduce(c: Seq<int>, x: int, m: int)
    requires
        m > 0,
    ensures
        poly_eval(reduce(c, m), x) % m == poly_eval(c, x) % m,
    decreases c.len(),
{
    if c.len() > 0 {
        let rc = reduce(c, m);
        assert(rc.drop_first() =~= reduce(c.drop_first(), m));
        lemma_poly_eval_reduce(c.drop_first(), x, m);
        lemma_mod_twice(c[0], m);
        let a = poly_eval(rc.drop_first(), x);
        let b = poly_eval(c.drop_first(), x);
        lemma_congruent_mul(x, x, a, b, m);
        lemma_congruent_add(rc[0], c[0], x * a, x * b, m);
    }
}

/// Dividing out the roots one by one: `c(x) = q(x) * (x - roots[0]) * ... *
/// (x - roots[k - 1])` modulo `m`, where `q` is what is left.
pub proof fn lemma_roots_quotient_identity(c: Seq<int>, roots: Seq<int>, m: int, k: nat, x: int)
    requires
        m > 0,
        k <= roots.len(),
        k <= c.len(),
        roots_divide(c, roots, m),
    ensures
        poly_eval(c, x) % m == (poly_eval(root_quotients(c, roots, m, k), x) * roots_product(roots, k, x)) % m,
    decreases k,
{
    if k == 0 {
        assert(poly_eval(c, x) * 1 == poly_eval(c, x));
    } else {
        let k1 = (k - 1) as nat;
        lemma_roots_quotient_identity(c, roots, m, k1, x);
        let p = root_quotients(c, roots, m, k1);
        lemma_root_quotients_len(c, roots, m, k1);
        let a = roots[k - 1];
        let q = lin_quotient(p, a);
        lemma_lin_quotient_identity(p, a, x);
        assert(poly_eval(p, a) % m == 0);
        let pr = roots_product(roots, k1, x);
        // p(x) = q(x) (x - a) + p(a), with p(a) = 0 modulo m
        lemma_poly_eval_reduce(q, x, m);
        let rq = poly_eval(reduce(q, m), x);
        let qx = poly_eval(q, x);
        lemma_multiple_vanishes(qx * (x - a), poly_eval(p, a) / m, m);
        lemma_fundamental_div_mod(poly_eval(p, a), m);
        assert(poly_eval(p, x) % m == (qx * (x - a)) % m) by {
            assert(poly_eval(p, a) == m * (poly_eval(p, a) / m));
            assert(poly_eval(p, x) == qx * (x - a) + (poly_eval(p, a) / m) * m) by (nonlinear_arith)
                requires
                    poly_eval(p, x) == qx * (x - a) + poly_eval(p, a),
                    poly_eval(p, a) == m * (poly_eval(p, a) / m),
            ;
        }
        lemma_congruent_mul(poly_eval(p, x), qx * (x - a), pr, pr, m);
        lemma_congruent_mul(rq, qx, (x - a) * pr, (x - a) * pr, m);
        assert(qx * (x - a) * pr == qx * ((x - a) * pr)) by (nonlinear_arith);
        assert(rq * ((x - a) * pr) == rq * (pr * (x - a))) by (nonlinear_arith);
    }
}

/// Divides `coeffs` by `X - roots[i]` for each root in turn, each division
/// leaving no remainder, and returns what is left.
pub fn univariate_roots_quotient<F: Field>(coeffs: Vec<F>, roots: &[F]) -> (r: Vec<F>)
    requires
        roots@.len() <= coeffs@.len(),
        roots_divide(values(coeffs@), values(roots@), F::modulus()),
    ensures
        r@.len() == coeffs@.len() - roots@.len(),
        values(r@) == root_quotients(values(coeffs@), values(roots@), F::modulus(), roots@.len()),
{
    let ghost m = F::modulus();
    let ghost c = values(coeffs@);
    let ghost rs = values(roots@);
    let n = coeffs.len();
    let mut coeffs = coeffs;
    proof {
        F::lemma_modulus();
        assert(values(coeffs@).skip(0) =~= root_quotients(c, rs, m, 0));
    }
    let mut k: usize = 0;
    while k < roots.len()
        invariant
            k <= roots@.len() <= n,
            coeffs@.len() == n,
            m == F::modulus(),
            m > 1,
            rs == values(roots@),
            c.len() == n,
            roots_divide(c, rs, m),
            values(coeffs@).skip(k as int) == root_quotients(c, rs, m, k as nat),
            forall|j: int| 0 <= j < k ==> (#[trigger] coeffs@[j]).value() == 0,
        decreases roots@.len() - k,
    {
        let r = roots[k];
        let ghost p = values(coeffs@).skip(k as int);
        let ghost before = coeffs@;
        let ghost rv = r.value();
        proof {
            assert(rs[k as int] == rv);
            lemma_root_quotients_len(c, rs, m, k as nat);
        }
        let mut i: usize = n - 1;
        proof {
            assert(p.skip((n - 1 - k) as int) =~= seq![p[(n - 1 - k) as int]]);
            assert(poly_eval(seq![p[(n - 1 - k) as int]], rv) == p[(n - 1 - k) as int] + rv * poly_eval(
                seq![p[(n - 1 - k) as int]].drop_first(),
                rv,
            ));
            assert(seq![p[(n - 1 - k) as int]].drop_first() =~= Seq::<int>::empty());
            F::lemma_value_range(before[n - 1]);
            lemma_reduced(p[(n - 1 - k) as int], m);
        }
        while i > k
            invariant
                k <= i < n,
                k < roots@.len() <= n,
                coeffs@.len() == n,
                m == F::modulus(),
                m > 1,
                p.len() == n - k,
                rv == r.value(),
                forall|j: int| 0 <= j < i ==> #[trigger] coeffs@[j] == before[j],
                forall|j: int| k <= j < n ==> (#[trigger] before[j]).value() == p[j - k],
                forall|j: int| i <= j < n ==> (#[trigger] coeffs@[j]).value() == poly_eval(p.skip(j - k), rv) % m,
            decreases i,
        {
            let t = coeffs[i].times(&r);
            let s = coeffs[i - 1].plus(&t);
            proof {
                let h = poly_eval(p.skip(i - k), rv);
                lemma_poly_eval_skip(p, i - 1 - k, rv);
                assert(p.skip(i - 1 - k + 1) == p.skip(i - k));
                lemma_mod_twice(h, m);
                lemma_congruent_mul(coeffs@[i as int].value(), h, rv, rv, m);
                lemma_mod_twice(coeffs@[i as int].value() * rv, m);
                assert(h * rv == rv * h) by (nonlinear_arith);
                F::lemma_value_range(before[i - 1]);
                lemma_reduced(p[i - 1 - k], m);
                lemma_congruent_add(p[i - 1 - k], p[i - 1 - k], t.value(), rv * h, m);
            }
            coeffs.set(i - 1, s);
            i = i - 1;
        }
        proof {
            let q = reduce(lin_quotient(p, rv), m);
            assert(root_quotients(c, rs, m, (k + 1) as nat) == q);
            assert(p.skip(0) =~= p);
            assert(poly_eval(p, rv) % m == 0);
            assert(values(coeffs@).skip(k + 1) =~= q) by {
                assert forall|j: int| 0 <= j < q.len() implies values(coeffs@).skip(k + 1)[j] == q[j] by {
                    assert(coeffs@[k + 1 + j].value() == poly_eval(p.skip(k + 1 + j - k), rv) % m);
                }
            }
        }
        k = k + 1;
    }
    let mut out: Vec<F> = Vec::new();
    let mut j: usize = k;
    while j < n
        invariant
            k <= j <= n,
            coeffs@.len() == n,
            out@ == coeffs@.subrange(k as int, j as int),
        decreases n - j,
    {
        out.push(coeffs[j]);
        j = j + 1;
    }
    proof {
        assert(values(out@) =~= values(coeffs@).skip(k as int));
    }
    out
}


/// Congruent points give congruent values.
pub proof fn lemma_poly_eval_point_congruent(c: Seq<int>, x: int, y: int, m: int)
    requires
        m > 0,
        x % m == y % m,
    ensures
        poly_eval(c, x) % m == poly_eval(c, y) % m,
    decreases c.len(),
{
    if c.len() > 0 {
        lemma_poly_eval_point_congruent(c.drop_first(), x, y, m);
        lemma_congruent_mul(x, y, poly_eval(c.drop_first(), x), poly_eval(c.drop_first(), y), m);
        lemma_congruent_add(c[0], c[0], x * poly_eval(c.drop_first(), x), y * poly_eval(c.drop_first(), y), m);
    }
}

/// An inner product over the first `k` positions reads only the first `k`
/// entries.
pub proof fn lemma_dot_prefix_take(a: Seq<int>, b: Seq<int>, k: int)
    requires
        0 <= k <= a.len(),
    ensures
        dot_prefix(a, b, k) == dot_prefix(a.take(k), b, k),
    decreases k,
{
    if k > 0 {
        lemma_dot_prefix_take(a, b, k - 1);
        assert(a.take(k - 1) =~= a.take(k).take(k - 1));
        lemma_dot_prefix_take(a.take(k), b, k - 1);
    }
}

} // verus!
