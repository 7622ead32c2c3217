//! Multilinear polynomials given by their evaluations on the boolean
//! hypercube, and the raw (send-everything) commitment scheme over them.

use crate::field::{lemma_congruent_add, lemma_congruent_mul, lemma_congruent_sub, lemma_reduced, lin, values, Field};
use vstd::arithmetic::div_mod::*;
use vstd::arithmetic::power2::*;
use vstd::prelude::*;

verus! {

/// Fixes the lowest variable of a multilinear table to `r`: entry `j` of the
/// result interpolates entries `2j` (variable = 0) and `2j + 1` (variable = 1).
pub open spec fn fold_lowest(e: Seq<int>, r: int) -> Seq<int> {
    Seq::new(e.len() / 2, |j: int| e[2 * j] + r * (e[2 * j + 1] - e[2 * j]))
}

/// The multilinear extension of the table `e` at the point `x`, where `x[0]`
/// is the variable of the lowest bit of the table index.
pub open spec fn mle_eval(e: Seq<int>, x: Seq<int>) -> int
    decreases x.len(),
{
    if x.len() == 0 {
        e[0]
    } else {
        mle_eval(fold_lowest(e, x[0]), x.drop_first())
    }
}

/// The little-endian bits of `b` as a point of `n` coordinates in {0, 1}.
pub open spec fn index_bits(b: int, n: nat) -> Seq<int> {
    Seq::new(n, |i: int| (b / pow2(i as nat) as int) % 2)
}

/// A multilinear polynomial held by its `2^n` evaluations on the hypercube.
#[derive(Clone, Debug)]
pub struct MultiLinearPoly<F> {
    pub coeffs: Vec<F>,
}

impl<F: Field> MultiLinearPoly<F> {
    /// Evaluates the multilinear extension of `evals` at `point`, using
    /// `scratch` (of the same length as `evals`) as working space.
    pub fn evaluate_with_buffer(evals: &[F], point: &[F], scratch: &mut [F]) -> (r: F)
        requires
            evals@.len() == pow2(point@.len() as nat),
            old(scratch)@.len() == evals@.len(),
        ensures
            r.value() == mle_eval(values(evals@), values(point@)) % F::modulus(),
            final(scratch)@.len() == old(scratch)@.len(),
    {
        let ghost m = F::modulus();
        let ghost e = values(evals@);
        let ghost x = values(point@);
        let n = point.len();
        let total = evals.len();
        let mut j: usize = 0;
        while j < total
            invariant
                j <= total,
                total == evals@.len(),
                scratch@.len() == total,
                forall|k: int| 0 <= k < j ==> #[trigger] scratch@[k] == evals@[k],
            decreases total - j,
        {
            scratch[j] = evals[j];
            j = j + 1;
        }
        let ghost mut state: Seq<int> = e;
        let mut size: usize = total;
        let mut k: usize = 0;
        proof {
            assert(x.skip(0) =~= x);
            F::lemma_value_range(evals@[0]);
            assert forall|i: int| 0 <= i < total implies #[trigger] scratch@[i].value() == state[i] % m by {
                F::lemma_value_range(evals@[i]);
                lemma_reduced(e[i], m);
            }
        }
        while k < n
            invariant
                k <= n,
                n == point@.len(),
                x == values(point@),
                m == F::modulus(),
                m > 1,
                scratch@.len() == total,
                size <= total,
                size == pow2((n - k) as nat),
                state.len() == size,
                mle_eval(state, x.skip(k as int)) == mle_eval(e, x),
                forall|i: int| 0 <= i < size ==> #[trigger] scratch@[i].value() == state[i] % m,
            decreases n - k,
        {
            let r = point[k];
            proof {
                lemma_pow2_unfold((n - k) as nat);
            }
            let half = size / 2;
            let ghost next = fold_lowest(state, x[k as int]);
            let mut i: usize = 0;
            while i < half
                invariant
                    i <= half,
                    half * 2 == size,
                    size <= total,
                    scratch@.len() == total,
                    m == F::modulus(),
                    m > 1,
                    r.value() == x[k as int],
                    state.len() == size,
                    next == fold_lowest(state, x[k as int]),
                    forall|t: int| 0 <= t < i ==> #[trigger] scratch@[t].value() == next[t] % m,
                    forall|t: int| 2 * i <= t < size ==> #[trigger] scratch@[t].value() == state[t] % m,
                decreases half - i,
            {
                let a = scratch[2 * i];
                let b = scratch[2 * i + 1];
                let d = b.minus(&a);
                let p = d.times(&r);
                let v = a.plus(&p);
                proof {
                    let sa = state[2 * i as int];
                    let sb = state[2 * i + 1];
                    let rv = r.value();
                    lemma_mod_twice(sa, m);
                    lemma_mod_twice(sb, m);
                    lemma_congruent_sub(b.value(), sb, a.value(), sa, m);
                    lemma_mod_twice(sb - sa, m);
                    lemma_mod_twice(rv, m);
                    lemma_congruent_mul(d.value(), sb - sa, rv, rv, m);
                    lemma_mod_twice((sb - sa) * rv, m);
                    lemma_congruent_add(a.value(), sa, p.value(), (sb - sa) * rv, m);
                    assert((sb - sa) * rv == rv * (sb - sa)) by (nonlinear_arith);
                    assert(next[i as int] == sa + rv * (sb - sa));
                }
                scratch[i] = v;
                i = i + 1;
            }
            proof {
                assert(x.skip(k as int).drop_first() =~= x.skip(k + 1));
                assert(x.skip(k as int)[0] == x[k as int]);
                state = next;
            }
            size = half;
            k = k + 1;
        }
        proof {
            assert(x.skip(n as int) =~= Seq::<int>::empty());
            assert(size == 1) by {
                assert(pow2(0) == 1) by {
                    lemma2_to64();
                }
            }
        }
        scratch[0]
    }

    /// Evaluates this polynomial at `point`.
    pub fn evaluate_jolt(&self, point: &[F]) -> (r: F)
        requires
            self.coeffs@.len() == pow2(point@.len() as nat),
        ensures
            r.value() == mle_eval(values(self.coeffs@), values(point@)) % F::modulus(),
    {
        let mut scratch: Vec<F> = Vec::new();
        let mut j: usize = 0;
        while j < self.coeffs.len()
            invariant
                j <= self.coeffs@.len(),
                scratch@.len() == j,
            decreases self.coeffs@.len() - j,
        {
            scratch.push(F::zero());
            j = j + 1;
        }
        Self::evaluate_with_buffer(self.coeffs.as_slice(), point, scratch.as_mut_slice())
    }
}

/// The multilinear extension agrees with its table on the hypercube: at the
/// point whose coordinates are the bits of `b`, it is entry `b`.
pub proof fn lemma_mle_on_hypercube(e: Seq<int>, n: nat, b: int)
    requires
        e.len() == pow2(n),
        0 <= b < pow2(n),
    ensures
        mle_eval(e, index_bits(b, n)) == e[b],
    decreases n,
{
    lemma2_to64();
    if n == 0 {
        assert(index_bits(b, n) =~= Seq::<int>::empty());
    } else {
        lemma_pow2_unfold(n);
        let p = index_bits(b, n);
        let bit = b % 2;
        assert(p[0] == bit) by {
            assert(b / 1 == b);
        }
        let f = fold_lowest(e, bit);
        assert forall|j: int| 0 <= j < f.len() implies #[trigger] f[j] == e[2 * j + bit] by {
            if bit == 0 {
                assert(bit * (e[2 * j + 1] - e[2 * j]) == 0) by (nonlinear_arith)
                    requires
                        bit == 0,
                ;
            } else {
                assert(bit * (e[2 * j + 1] - e[2 * j]) == e[2 * j + 1] - e[2 * j]) by (nonlinear_arith)
                    requires
                        bit == 1,
                ;
            }
        }
        let n1 = (n - 1) as nat;
        lemma_mle_on_hypercube(f, n1, b / 2);
        assert forall|i: int| 0 <= i < n1 implies #[trigger] p.drop_first()[i] == index_bits(b / 2, n1)[i] by {
            lemma_pow2_unfold((i + 1) as nat);
            lemma_pow2_pos(i as nat);
            lemma_div_denominator(b, 2, pow2(i as nat) as int);
            assert(2 * pow2(i as nat) == pow2((i + 1) as nat));
        }
        assert(p.drop_first() =~= index_bits(b / 2, n1));
        assert(f[b / 2] == e[b]);
    }
}


/// The multilinear extension is linear in the table: at every point, the
/// extension of `w a + b` is `w` times that of `a` plus that of `b`.
pub proof fn lemma_mle_linear(a: Seq<int>, b: Seq<int>, w: int, x: Seq<int>)
    requires
        a.len() == pow2(x.len() as nat),
        b.len() == a.len(),
    ensures
        mle_eval(lin(a, b, w), x) == w * mle_eval(a, x) + mle_eval(b, x),
    decreases x.len(),
{
    lemma_pow2_pos(x.len() as nat);
    if x.len() > 0 {
        lemma_pow2_unfold(x.len() as nat);
        let r = x[0];
        let fa = fold_lowest(a, r);
        let fb = fold_lowest(b, r);
        assert(fold_lowest(lin(a, b, w), r) =~= lin(fa, fb, w)) by {
            assert forall|j: int| 0 <= j < fa.len() implies #[trigger] fold_lowest(lin(a, b, w), r)[j] == lin(fa, fb, w)[j] by {
                let (a0, a1, b0, b1) = (a[2 * j], a[2 * j + 1], b[2 * j], b[2 * j + 1]);
                assert(w * a0 + b0 + r * ((w * a1 + b1) - (w * a0 + b0)) == w * (a0 + r * (a1 - a0)) + (b0 + r * (b1
                    - b0))) by (nonlinear_arith);
            }
        }
        lemma_mle_linear(fa, fb, w, x.drop_first());
    }
}

/// Tables congruent entry by entry have congruent multilinear extensions.
pub proof fn lemma_mle_congruent(e1: Seq<int>, e2: Seq<int>, x: Seq<int>, m: int)
    requires
        m > 0,
        e1.len() == pow2(x.len() as nat),
        e2.len() == e1.len(),
        forall|i: int| 0 <= i < e1.len() ==> #[trigger] (e1[i] % m) == e2[i] % m,
    ensures
        mle_eval(e1, x) % m == mle_eval(e2, x) % m,
    decreases x.len(),
{
    lemma_pow2_pos(x.len() as nat);
    if x.len() > 0 {
        lemma_pow2_unfold(x.len() as nat);
        let f1 = fold_lowest(e1, x[0]);
        let f2 = fold_lowest(e2, x[0]);
        assert forall|j: int| 0 <= j < f1.len() implies #[trigger] (f1[j] % m) == f2[j] % m by {
            assert(e1[2 * j] % m == e2[2 * j] % m);
            assert(e1[2 * j + 1] % m == e2[2 * j + 1] % m);
            lemma_congruent_sub(e1[2 * j + 1], e2[2 * j + 1], e1[2 * j], e2[2 * j], m);
            lemma_congruent_mul(x[0], x[0], e1[2 * j + 1] - e1[2 * j], e2[2 * j + 1] - e2[2 * j], m);
            lemma_congruent_add(e1[2 * j], e2[2 * j], x[0] * (e1[2 * j + 1] - e1[2 * j]), x[0] * (e2[2 * j + 1] - e2[2
                * j]), m);
        }
        lemma_mle_congruent(f1, f2, x.drop_first(), m);
    } else {
        assert(e1[0] % m == e2[0] % m);
    }
}


/// The random linear combination of the first `k` tables with weights `ws`:
/// `ts[0] + ws[1] ts[1] + ... + ws[k-1] ts[k-1]`.
pub open spec fn merged_table(ts: Seq<Seq<int>>, ws: Seq<int>, k: nat) -> Seq<int>
    decreases k,
{
    if k <= 1 {
        ts[0]
    } else {
        lin(ts[k - 1], merged_table(ts, ws, (k - 1) as nat), ws[k - 1])
    }
}

/// The same combination of values: `vs[0] + ws[1] vs[1] + ... + ws[k-1] vs[k-1]`.
pub open spec fn weighted_sum(vs: Seq<int>, ws: Seq<int>, k: nat) -> int
    decreases k,
{
    if k <= 1 {
        vs[0]
    } else {
        weighted_sum(vs, ws, (k - 1) as nat) + ws[k - 1] * vs[k - 1]
    }
}

/// Merging tables by a linear combination merges their multilinear
/// extensions at every point by the same combination.
pub proof fn lemma_merged_mle(ts: Seq<Seq<int>>, ws: Seq<int>, k: nat, x: Seq<int>)
    requires
        1 <= k <= ts.len(),
        forall|i: int| 0 <= i < k ==> (#[trigger] ts[i]).len() == pow2(x.len() as nat),
    ensures
        merged_table(ts, ws, k).len() == pow2(x.len() as nat),
        mle_eval(merged_table(ts, ws, k), x) == weighted_sum(
            Seq::new(ts.len(), |i: int| mle_eval(ts[i], x)),
            ws,
            k,
        ),
    decreases k,
{
    if k > 1 {
        let k1 = (k - 1) as nat;
        lemma_merged_mle(ts, ws, k1, x);
        lemma_mle_linear(ts[k - 1], merged_table(ts, ws, k1), ws[k - 1], x);
    }
}

/// The table made of the blocks `ts`, each of length `l`, one after the
/// other: block `p` holds the entries whose index has `p` as its high part.
pub open spec fn blocks_flat(ts: Seq<Seq<int>>, l: int) -> Seq<int> {
    Seq::new((ts.len() * l) as nat, |i: int| ts[i / l][i % l])
}

/// Folding the lowest variable of a table made of blocks of even length
/// folds each block on its own.
proof fn lemma_fold_blocks(ts: Seq<Seq<int>>, l: int, r: int)
    requires
        l >= 2,
        l % 2 == 0,
        forall|p: int| 0 <= p < ts.len() ==> (#[trigger] ts[p]).len() == l,
    ensures
        fold_lowest(blocks_flat(ts, l), r) =~= blocks_flat(Seq::new(ts.len(), |p: int| fold_lowest(ts[p], r)), l / 2),
{
    let h = l / 2;
    let e = blocks_flat(ts, l);
    let fs = Seq::new(ts.len(), |p: int| fold_lowest(ts[p], r));
    assert(l == 2 * h);
    assert((ts.len() * l) / 2 == ts.len() * h) by {
        assert(ts.len() * l == 2 * (ts.len() * h)) by (nonlinear_arith)
            requires
                l == 2 * h,
        ;
    }
    assert forall|j: int| 0 <= j < ts.len() * h implies #[trigger] fold_lowest(e, r)[j] == blocks_flat(fs, h)[j] by {
        let p = j / h;
        let q = j % h;
        lemma_fundamental_div_mod(j, h);
        assert(0 <= q < h);
        assert(0 <= p < ts.len()) by {
            lemma_div_pos_is_pos(j, h);
            lemma_div_by_multiple_is_strongly_ordered(j, ts.len() * h, ts.len() as int, h);
            assert(j < ts.len() * h);
            lemma_div_multiples_vanish(ts.len() as int, h);
        }
        assert(2 * j == p * l + 2 * q) by (nonlinear_arith)
            requires
                j == h * p + q,
                l == 2 * h,
        ;
        lemma_fundamental_div_mod_converse(2 * j, l, p, 2 * q);
        lemma_fundamental_div_mod_converse(2 * j + 1, l, p, 2 * q + 1);
        assert((p + 1) * l <= ts.len() * l) by (nonlinear_arith)
            requires
                p + 1 <= ts.len(),
                l >= 2,
        ;
        assert(2 * j + 1 < ts.len() * l) by (nonlinear_arith)
            requires
                2 * j == p * l + 2 * q,
                (p + 1) * l <= ts.len() * l,
                2 * q + 1 < l,
        ;
        assert(e[2 * j] == ts[p][2 * q]);
        assert(e[2 * j + 1] == ts[p][2 * q + 1]);
        assert(fs[p] == fold_lowest(ts[p], r));
        assert(ts[p].len() / 2 == h);
    }
}

/// The multilinear extension of a table made of blocks of `2^n` entries, at
/// `x` (the `n` variables within a block) followed by `y` (the block index):
/// the multilinear extension at `y` of the blocks' extensions at `x`.
pub proof fn lemma_mle_blocks(ts: Seq<Seq<int>>, x: Seq<int>, y: Seq<int>)
    requires
        forall|p: int| 0 <= p < ts.len() ==> (#[trigger] ts[p]).len() == pow2(x.len() as nat),
    ensures
        mle_eval(blocks_flat(ts, pow2(x.len() as nat) as int), x + y) == mle_eval(
            Seq::new(ts.len(), |p: int| mle_eval(ts[p], x)),
            y,
        ),
    decreases x.len(),
{
    let n = x.len() as nat;
    if n == 0 {
        lemma2_to64();
        assert(x + y =~= y);
        assert forall|i: int| 0 <= i < ts.len() implies #[trigger] blocks_flat(ts, 1)[i] == Seq::new(
            ts.len(),
            |p: int| mle_eval(ts[p], x),
        )[i] by {
            lemma_fundamental_div_mod_converse(i, 1, i, 0);
        }
        assert(blocks_flat(ts, 1) =~= Seq::new(ts.len(), |p: int| mle_eval(ts[p], x)));
    } else {
        lemma_pow2_unfold(n);
        lemma_pow2_pos((n - 1) as nat);
        let l = pow2(n) as int;
        let h = pow2((n - 1) as nat) as int;
        assert(l == 2 * h);
        let fs = Seq::new(ts.len(), |p: int| fold_lowest(ts[p], x[0]));
        lemma_fold_blocks(ts, l, x[0]);
        assert(l / 2 == h);
        let xs = x.drop_first();
        assert forall|p: int| 0 <= p < fs.len() implies (#[trigger] fs[p]).len() == pow2(xs.len() as nat) by {
            assert(ts[p].len() == l);
        }
        lemma_mle_blocks(fs, xs, y);
        assert((x + y)[0] == x[0]);
        assert((x + y).drop_first() =~= xs + y);
        assert(Seq::new(fs.len(), |p: int| mle_eval(fs[p], xs)) =~= Seq::new(ts.len(), |p: int| mle_eval(ts[p], x)));
    }
}

} // verus!
