//! Subset-sum lookup tables: for {0, 1}-linear combinations of a batch of
//! weights, every subset sum is tabulated once and then looked up by bitmask.

use crate::field::{lemma_congruent_add, lemma_reduced, values, Field};
use crate::univariate::dot_prefix;
use vstd::slice::slice_subrange;
use vstd::arithmetic::div_mod::*;
use vstd::arithmetic::power2::*;
use vstd::bits::*;
use vstd::prelude::*;

verus! {

/// Bit `i` of `x`.
pub open spec fn bit_of(x: int, i: nat) -> int {
    (x / pow2(i) as int) % 2
}

/// The sum of `w[base + i]` over the bits `i < n` that are set in `bm`.
pub open spec fn subset_sum(w: Seq<int>, base: int, n: int, bm: int) -> int
    decreases n,
{
    if n <= 0 {
        0
    } else {
        subset_sum(w, base, n - 1, bm) + if bit_of(bm, (n - 1) as nat) == 1 {
            w[base + n - 1]
        } else {
            0
        }
    }
}

/// The sum, over the first `t` tables, of table `i`'s subset sum of its
/// `eb` weights selected by `indices[i]`.
pub open spec fn lut_sum(w: Seq<int>, indices: Seq<int>, eb: int, t: int) -> int
    decreases t,
{
    if t <= 0 {
        0
    } else {
        lut_sum(w, indices, eb, t - 1) + subset_sum(w, (t - 1) * eb, eb, indices[t - 1])
    }
}

/// The bits of `indices`, `eb` per index, lowest bit first: the {0, 1}
/// coefficients that the lookups combine the weights with.
pub open spec fn index_bits_flat(indices: Seq<int>, eb: int) -> Seq<int> {
    Seq::new((indices.len() * eb) as nat, |k: int| bit_of(indices[k / eb], (k % eb) as nat))
}

/// One lookup table per batch of `entry_bits` weights; entry `bm` of a table
/// is the sum of the weights whose bit is set in `bm`.
pub struct SubsetSumLUTs<F> {
    pub entry_bits: usize,
    pub tables: Vec<Vec<F>>,
}

proof fn lemma_bit_test(bm: usize, i: usize)
    requires
        i < usize::BITS,
    ensures
        ((bm & (1usize << i)) == (1usize << i)) == (bit_of(bm as int, i as nat) == 1),
{
    assert(((bm & (1usize << i)) == (1usize << i)) == (((bm >> i) & 1usize) == 1usize)) by (bit_vector)
        requires
            i < usize::BITS,
    ;
    assert(((bm >> i) & 1usize) == (bm >> i) % 2) by (bit_vector);
    lemma_usize_shr_is_div(bm, i);
}

impl<F: Field> SubsetSumLUTs<F> {
    /// `table_num` tables of `2^entry_bits` zero entries each.
    pub fn new(entry_bits: usize, table_num: usize) -> (r: Self)
        requires
            entry_bits > 0 && table_num > 0,
            entry_bits < usize::BITS,
        ensures
            r.entry_bits == entry_bits,
            r.tables@.len() == table_num,
            forall|t: int| 0 <= t < table_num ==> #[trigger] r.tables@[t]@.len() == pow2(entry_bits as nat),
            forall|t: int, k: int|
                0 <= t < table_num && 0 <= k < r.tables@[t]@.len() ==> (#[trigger] r.tables@[t]@[k]).value()
                    == 0,
    {
        proof {
            lemma_usize_pow2_no_overflow(entry_bits as nat);
            lemma_usize_shl_is_mul(1, entry_bits);
        }
        let size: usize = 1usize << entry_bits;
        let mut tables: Vec<Vec<F>> = Vec::new();
        let mut t: usize = 0;
        while t < table_num
            invariant
                t <= table_num,
                size == pow2(entry_bits as nat),
                tables@.len() == t,
                forall|u: int| 0 <= u < t ==> #[trigger] tables@[u]@.len() == size,
                forall|u: int, k: int|
                    0 <= u < t && 0 <= k < tables@[u]@.len() ==> (#[trigger] tables@[u]@[k]).value() == 0,
            decreases table_num - t,
        {
            let mut lut: Vec<F> = Vec::new();
            let mut k: usize = 0;
            while k < size
                invariant
                    k <= size,
                    lut@.len() == k,
                    forall|j: int| 0 <= j < k ==> (#[trigger] lut@[j]).value() == 0,
                decreases size - k,
            {
                lut.push(F::zero());
                k = k + 1;
            }
            tables.push(lut);
            t = t + 1;
        }
        SubsetSumLUTs { entry_bits, tables }
    }

    /// Fills the tables from `weights`, `entry_bits` weights per table: entry
    /// `bm` of table `t` becomes the sum of the weights `t * entry_bits + i`
    /// whose bit `i` is set in `bm`.
    pub fn build(&mut self, weights: &[F])
        requires
            weights@.len() == old(self).entry_bits * old(self).tables@.len(),
            old(self).entry_bits <= usize::BITS,
        ensures
            final(self).entry_bits == old(self).entry_bits,
            final(self).tables@.len() == old(self).tables@.len(),
            forall|t: int|
                0 <= t < final(self).tables@.len() ==> #[trigger] final(self).tables@[t]@.len() == old(
                    self,
                ).tables@[t]@.len(),
            forall|t: int, bm: int|
                0 <= t < final(self).tables@.len() && 0 <= bm < final(self).tables@[t]@.len() ==> (
                #[trigger] final(self).tables@[t]@[bm]).value() == subset_sum(
                    values(weights@),
                    t * final(self).entry_bits,
                    final(self).entry_bits as int,
                    bm,
                ) % F::modulus(),
    {
        let ghost m = F::modulus();
        let ghost w = values(weights@);
        let ghost old_tables = self.tables@;
        let eb = self.entry_bits;
        let num = self.tables.len();
        let wlen = weights.len();
        proof {
            F::lemma_modulus();
        }
        let mut t: usize = 0;
        while t < num
            invariant
                t <= num,
                num == self.tables@.len(),
                num == old_tables.len(),
                eb == self.entry_bits,
                eb <= usize::BITS,
                weights@.len() == eb * num,
                wlen == weights@.len(),
                w == values(weights@),
                m == F::modulus(),
                m > 1,
                forall|u: int| 0 <= u < num ==> #[trigger] self.tables@[u]@.len() == old_tables[u]@.len(),
                forall|u: int, bm: int|
                    0 <= u < t && 0 <= bm < self.tables@[u]@.len() ==> (#[trigger] self.tables@[u]@[bm]).value()
                        == subset_sum(w, u * eb, eb as int, bm) % m,
            decreases num - t,
        {
            let mut lut: Vec<F> = Vec::new();
            let len = self.tables[t].len();
            let mut k: usize = 0;
            while k < len
                invariant
                    k <= len,
                    lut@.len() == k,
                    forall|j: int| 0 <= j < k ==> (#[trigger] lut@[j]).value() == 0,
                decreases len - k,
            {
                lut.push(F::zero());
                k = k + 1;
            }
            proof {
                assert(t * eb + eb <= num * eb) by (nonlinear_arith)
                    requires
                        t < num,
                ;
                assert(eb * num == num * eb) by (nonlinear_arith);
                assert forall|bm: int| 0 <= bm < len implies (#[trigger] lut@[bm]).value() == subset_sum(
                    w,
                    t * eb,
                    0,
                    bm,
                ) % m by {
                    lemma_reduced(0, m);
                }
            }
            let base = t * eb;
            let mut i: usize = 0;
            while i < eb
                invariant
                    i <= eb,
                    eb <= usize::BITS,
                    base == t * eb,
                    base + eb <= weights@.len(),
                    wlen == weights@.len(),
                    lut@.len() == len,
                    w == values(weights@),
                    m == F::modulus(),
                    m > 1,
                    forall|bm: int|
                        0 <= bm < len ==> (#[trigger] lut@[bm]).value() == subset_sum(w, base as int, i as int, bm)
                            % m,
                decreases eb - i,
            {
                let mask: usize = 1usize << i;
                let wi = weights[base + i];
                let mut bm: usize = 0;
                while bm < len
                    invariant
                        bm <= len,
                        i < eb,
                        eb <= usize::BITS,
                        base + eb <= weights@.len(),
                        mask == 1usize << i,
                        wi == weights@[base + i],
                        lut@.len() == len,
                        w == values(weights@),
                        m == F::modulus(),
                        m > 1,
                        forall|j: int|
                            bm <= j < len ==> (#[trigger] lut@[j]).value() == subset_sum(w, base as int, i as int, j)
                                % m,
                        forall|j: int|
                            0 <= j < bm ==> (#[trigger] lut@[j]).value() == subset_sum(w, base as int, i + 1, j)
                                % m,
                    decreases len - bm,
                {
                    proof {
                        lemma_bit_test(bm, i);
                    }
                    let ghost prev = subset_sum(w, base as int, i as int, bm as int);
                    if bm & mask == mask {
                        let s = lut[bm].plus(&wi);
                        proof {
                            F::lemma_value_range(wi);
                            lemma_reduced(w[base + i], m);
                            lemma_mod_twice(prev, m);
                            lemma_congruent_add(lut@[bm as int].value(), prev, wi.value(), w[base + i], m);
                        }
                        lut.set(bm, s);
                    } else {
                        proof {
                            assert(subset_sum(w, base as int, i + 1, bm as int) == prev + 0);
                        }
                    }
                    bm = bm + 1;
                }
                i = i + 1;
            }
            self.tables.set(t, lut);
            t = t + 1;
        }
    }

    /// The sum, over the tables, of table `i`'s entry `indices[i]`.
    pub fn lookup_and_sum(&self, indices: &[u32]) -> (r: F)
        requires
            indices@.len() == self.tables@.len(),
            forall|i: int| 0 <= i < indices@.len() ==> (#[trigger] indices@[i]) < self.tables@[i]@.len(),
        ensures
            r.value() == lookup_sum_spec(self.tables@, indices@, indices@.len() as int) % F::modulus(),
    {
        let ghost m = F::modulus();
        let mut acc = F::zero();
        proof {
            F::lemma_modulus();
            lemma_reduced(0, m);
        }
        let mut i: usize = 0;
        while i < indices.len()
            invariant
                i <= indices@.len(),
                indices@.len() == self.tables@.len(),
                forall|j: int| 0 <= j < indices@.len() ==> (#[trigger] indices@[j]) < self.tables@[j]@.len(),
                m == F::modulus(),
                m > 1,
                acc.value() == lookup_sum_spec(self.tables@, indices@, i as int) % m,
            decreases indices@.len() - i,
        {
            let idx = indices[i] as usize;
            let e = self.tables[i][idx];
            let next = acc.plus(&e);
            proof {
                F::lemma_value_range(e);
                lemma_reduced(e.value(), m);
                lemma_mod_twice(lookup_sum_spec(self.tables@, indices@, i as int), m);
                lemma_congruent_add(
                    acc.value(),
                    lookup_sum_spec(self.tables@, indices@, i as int),
                    e.value(),
                    e.value(),
                    m,
                );
            }
            acc = next;
            i = i + 1;
        }
        acc
    }
}

/// The sum over the first `n` tables of the entry that `indices` selects.
pub open spec fn lookup_sum_spec<F: Field>(tables: Seq<Vec<F>>, indices: Seq<u32>, n: int) -> int
    decreases n,
{
    if n <= 0 {
        0
    } else {
        lookup_sum_spec(tables, indices, n - 1) + tables[n - 1]@[indices[n - 1] as int].value()
    }
}

/// The sum of `a[base + i] * b[base + i]` over `i < n`.
pub open spec fn block_dot(a: Seq<int>, b: Seq<int>, base: int, n: int) -> int
    decreases n,
{
    if n <= 0 {
        0
    } else {
        block_dot(a, b, base, n - 1) + a[base + n - 1] * b[base + n - 1]
    }
}

proof fn lemma_dot_prefix_split(a: Seq<int>, b: Seq<int>, base: int, n: int)
    requires
        0 <= base,
        0 <= n,
    ensures
        dot_prefix(a, b, base + n) == dot_prefix(a, b, base) + block_dot(a, b, base, n),
    decreases n,
{
    if n > 0 {
        lemma_dot_prefix_split(a, b, base, n - 1);
    }
}

proof fn lemma_subset_sum_block(w: Seq<int>, bits: Seq<int>, base: int, n: int, bm: int)
    requires
        0 <= n,
        forall|i: int| 0 <= i < n ==> #[trigger] bits[base + i] == bit_of(bm, i as nat),
    ensures
        subset_sum(w, base, n, bm) == block_dot(w, bits, base, n),
    decreases n,
{
    if n > 0 {
        lemma_subset_sum_block(w, bits, base, n - 1, bm);
        let b = bit_of(bm, (n - 1) as nat);
        assert(bits[base + (n - 1)] == b);
        assert(0 <= b < 2) by {
            lemma_pow2_pos((n - 1) as nat);
        }
        if b == 1 {
            assert(w[base + n - 1] * 1 == w[base + n - 1]);
        } else {
            assert(w[base + n - 1] * 0 == 0);
        }
    }
}

proof fn lemma_lut_sum_is_dot(w: Seq<int>, indices: Seq<int>, eb: int, t: int)
    requires
        eb > 0,
        0 <= t <= indices.len(),
    ensures
        lut_sum(w, indices, eb, t) == dot_prefix(w, index_bits_flat(indices, eb), t * eb),
    decreases t,
{
    if t == 0 {
        assert(t * eb == 0);
    } else {
        lemma_lut_sum_is_dot(w, indices, eb, t - 1);
        let bits = index_bits_flat(indices, eb);
        let base = (t - 1) * eb;
        assert(0 <= base) by (nonlinear_arith)
            requires
                base == (t - 1) * eb,
                t >= 1,
                eb > 0,
        ;
        assert forall|i: int| 0 <= i < eb implies #[trigger] bits[base + i] == bit_of(indices[t - 1], i as nat) by {
            assert(base + i < indices.len() * eb) by (nonlinear_arith)
                requires
                    base == (t - 1) * eb,
                    0 <= i < eb,
                    t <= indices.len(),
            ;
            assert((base + i) / eb == t - 1 && (base + i) % eb == i) by {
                lemma_fundamental_div_mod_converse(base + i, eb, t - 1, i);
            }
        }
        lemma_subset_sum_block(w, bits, base, eb, indices[t - 1]);
        lemma_dot_prefix_split(w, bits, base, eb);
        assert(base + eb == t * eb) by (nonlinear_arith)
            requires
                base == (t - 1) * eb,
        ;
    }
}

/// Looking up in tables built from `w` computes an inner product: the sum of
/// the selected entries is the inner product of `w` with the bits of the
/// indices, `entry_bits` bits per index, lowest first.
pub proof fn lemma_lookup_after_build_is_inner_product<F: Field>(
    tables: Seq<Vec<F>>,
    w: Seq<F>,
    indices: Seq<u32>,
    eb: int,
)
    requires
        eb > 0,
        indices.len() == tables.len(),
        w.len() == eb * tables.len(),
        forall|i: int| 0 <= i < indices.len() ==> (#[trigger] indices[i]) < tables[i]@.len(),
        forall|t: int, bm: int|
            0 <= t < tables.len() && 0 <= bm < tables[t]@.len() ==> (#[trigger] tables[t]@[bm]).value()
                == subset_sum(values(w), t * eb, eb, bm) % F::modulus(),
    ensures
        lookup_sum_spec(tables, indices, indices.len() as int) % F::modulus() == dot_prefix(
            values(w),
            index_bits_flat(Seq::new(indices.len(), |i: int| indices[i] as int), eb),
            w.len() as int,
        ) % F::modulus(),
{
    let m = F::modulus();
    F::lemma_modulus();
    let idx = Seq::new(indices.len(), |i: int| indices[i] as int);
    lemma_lookup_vs_lut_sum(tables, w, indices, idx, eb, indices.len() as int);
    lemma_lut_sum_is_dot(values(w), idx, eb, indices.len() as int);
    assert(indices.len() * eb == eb * tables.len()) by (nonlinear_arith)
        requires
            indices.len() == tables.len(),
    ;
}

proof fn lemma_lookup_vs_lut_sum<F: Field>(
    tables: Seq<Vec<F>>,
    w: Seq<F>,
    indices: Seq<u32>,
    idx: Seq<int>,
    eb: int,
    n: int,
)
    requires
        eb > 0,
        0 <= n <= indices.len(),
        indices.len() == tables.len(),
        idx == Seq::new(indices.len(), |i: int| indices[i] as int),
        forall|i: int| 0 <= i < indices.len() ==> (#[trigger] indices[i]) < tables[i]@.len(),
        forall|t: int, bm: int|
            0 <= t < tables.len() && 0 <= bm < tables[t]@.len() ==> (#[trigger] tables[t]@[bm]).value()
                == subset_sum(values(w), t * eb, eb, bm) % F::modulus(),
    ensures
        lookup_sum_spec(tables, indices, n) % F::modulus() == lut_sum(values(w), idx, eb, n) % F::modulus(),
    decreases n,
{
    let m = F::modulus();
    F::lemma_modulus();
    if n > 0 {
        lemma_lookup_vs_lut_sum(tables, w, indices, idx, eb, n - 1);
        let e = tables[n - 1]@[indices[n - 1] as int].value();
        let s = subset_sum(values(w), (n - 1) * eb, eb, idx[n - 1]);
        assert(e == s % m);
        lemma_mod_twice(s, m);
        lemma_congruent_add(
            lookup_sum_spec(tables, indices, n - 1),
            lut_sum(values(w), idx, eb, n - 1),
            e,
            s,
            m,
        );
    }
}

/// The field element that a packed alphabet stands for against the weights
/// `rl`: the inner product of `rl` with the bits of the alphabet's indices,
/// `eb` bits per index, lowest first.
pub open spec fn alphabet_value<F: Field>(rl: Seq<F>, alphabet: Seq<u32>, eb: int) -> int {
    dot_prefix(values(rl), alphabet_bits(alphabet, eb), rl.len() as int) % F::modulus()
}

/// The bits of a packed alphabet, `eb` per entry, lowest first.
pub open spec fn alphabet_bits(alphabet: Seq<u32>, eb: int) -> Seq<int> {
    index_bits_flat(Seq::new(alphabet.len(), |i: int| alphabet[i] as int), eb)
}

/// The number of queries that the alphabet check compares: queries and
/// alphabets are taken pairwise, as far as both go.
pub open spec fn checked_queries(num_queries: int, num_alphabets: int) -> int {
    if num_queries <= num_alphabets {
        num_queries
    } else {
        num_alphabets
    }
}

/// Every queried position of `codeword` (taken modulo its length) holds the
/// value of the matching packed alphabet against `rl`.
pub open spec fn alphabets_match<F: Field>(
    codeword: Seq<int>,
    rl: Seq<F>,
    query_indices: Seq<usize>,
    alphabets: Seq<Vec<u32>>,
    eb: int,
    n: int,
) -> bool {
    forall|i: int|
        0 <= i < n ==> alphabet_value(rl, #[trigger] alphabets[i]@, eb) == codeword[(query_indices[i]
            as int % codeword.len() as int)]
}

/// The alphabet check compares every query that has an alphabet: the
/// positions match as far as the check goes exactly when, at every index
/// below both the number of queries and the number of alphabets, the queried
/// position (modulo the codeword's length) holds the alphabet's value; a
/// mismatch at any such index, the last one included, fails it.
pub proof fn lemma_alphabet_check_covers_all_queries<F: Field>(
    codeword: Seq<int>,
    rl: Seq<F>,
    query_indices: Seq<usize>,
    alphabets: Seq<Vec<u32>>,
    eb: int,
)
    ensures
        alphabets_match(
            codeword,
            rl,
            query_indices,
            alphabets,
            eb,
            checked_queries(query_indices.len() as int, alphabets.len() as int),
        ) <==> (forall|i: int|
            0 <= i < query_indices.len() && 0 <= i < alphabets.len() ==> alphabet_value(rl, #[trigger] alphabets[i]@, eb)
                == codeword[(query_indices[i] as int % codeword.len() as int)]),
{
    let n = checked_queries(query_indices.len() as int, alphabets.len() as int);
    assert(n <= query_indices.len() && n <= alphabets.len());
    assert(n == query_indices.len() || n == alphabets.len());
}

/// Checks, through subset-sum tables built once from `fixed_rl`, that each
/// queried codeword position matches the combination of its packed alphabet.
pub fn lut_verify_alphabet_check<F: Field>(
    codeword: &[F],
    fixed_rl: &[F],
    query_indices: &[usize],
    packed_interleaved_alphabets: &[Vec<u32>],
    pack_size: usize,
) -> (r: bool)
    requires
        0 < pack_size < 32,
        fixed_rl@.len() > 0,
        fixed_rl@.len() as int % pack_size as int == 0,
        checked_queries(query_indices@.len() as int, packed_interleaved_alphabets@.len() as int) > 0
            ==> codeword@.len() > 0,
        forall|i: int|
            0 <= i < checked_queries(query_indices@.len() as int, packed_interleaved_alphabets@.len() as int)
                ==> (#[trigger] packed_interleaved_alphabets@[i])@.len() == fixed_rl@.len() as int / pack_size as int,
        forall|i: int, j: int|
            0 <= i < checked_queries(query_indices@.len() as int, packed_interleaved_alphabets@.len() as int)
                && 0 <= j < packed_interleaved_alphabets@[i]@.len() ==> (
            #[trigger] packed_interleaved_alphabets@[i]@[j]) < pow2(pack_size as nat),
    ensures
        r == alphabets_match(
            values(codeword@),
            fixed_rl@,
            query_indices@,
            packed_interleaved_alphabets@,
            pack_size as int,
            checked_queries(query_indices@.len() as int, packed_interleaved_alphabets@.len() as int),
        ),
        r == (forall|i: int|
            0 <= i < query_indices@.len() && 0 <= i < packed_interleaved_alphabets@.len() ==> alphabet_value(
                fixed_rl@,
                #[trigger] packed_interleaved_alphabets@[i]@,
                pack_size as int,
            ) == codeword@[(query_indices@[i] as int % codeword@.len() as int)].value()),
{
    let tables_num = fixed_rl.len() / pack_size;
    proof {
        lemma_fundamental_div_mod(fixed_rl@.len() as int, pack_size as int);
        if tables_num == 0 {
            assert(pack_size * tables_num == 0);
        }
    }
    let mut luts = SubsetSumLUTs::<F>::new(pack_size, tables_num);
    proof {
        assert(fixed_rl@.len() == pack_size * tables_num) by {
            lemma_fundamental_div_mod(fixed_rl@.len() as int, pack_size as int);
        }
    }
    luts.build(fixed_rl);
    let n: usize = if query_indices.len() <= packed_interleaved_alphabets.len() {
        query_indices.len()
    } else {
        packed_interleaved_alphabets.len()
    };
    let ghost eb = pack_size as int;
    let mut i: usize = 0;
    while i < n
        invariant
            i <= n,
            n == checked_queries(query_indices@.len() as int, packed_interleaved_alphabets@.len() as int),
            n <= query_indices@.len(),
            n <= packed_interleaved_alphabets@.len(),
            n > 0 ==> codeword@.len() > 0,
            0 < pack_size < 32,
            eb == pack_size,
            luts.entry_bits == pack_size,
            luts.tables@.len() == tables_num,
            fixed_rl@.len() == eb * tables_num,
            forall|t: int| 0 <= t < tables_num ==> #[trigger] luts.tables@[t]@.len() == pow2(pack_size as nat),
            forall|t: int, bm: int|
                0 <= t < luts.tables@.len() && 0 <= bm < luts.tables@[t]@.len() ==> (
                #[trigger] luts.tables@[t]@[bm]).value() == subset_sum(values(fixed_rl@), t * eb, eb, bm)
                    % F::modulus(),
            forall|k: int|
                0 <= k < n ==> (#[trigger] packed_interleaved_alphabets@[k])@.len() == tables_num,
            forall|k: int, j: int|
                0 <= k < n && 0 <= j < packed_interleaved_alphabets@[k]@.len() ==> (
                #[trigger] packed_interleaved_alphabets@[k]@[j]) < pow2(pack_size as nat),
            alphabets_match(values(codeword@), fixed_rl@, query_indices@, packed_interleaved_alphabets@, eb, i as int),
        decreases n - i,
    {
        let index = query_indices[i] % codeword.len();
        let alphabet = &packed_interleaved_alphabets[i];
        proof {
            assert(alphabet@.len() == tables_num);
            assert forall|j: int| 0 <= j < alphabet@.len() implies (#[trigger] alphabet@[j]) < luts.tables@[j]@.len() by {
                assert(packed_interleaved_alphabets@[i as int]@[j] < pow2(pack_size as nat));
                assert(luts.tables@[j]@.len() == pow2(pack_size as nat));
            }
        }
        let value = luts.lookup_and_sum(alphabet.as_slice());
        proof {
            lemma_lookup_after_build_is_inner_product(luts.tables@, fixed_rl@, alphabet@, eb);
        }
        if !value.is_equal(&codeword[index]) {
            proof {
                F::lemma_value_range(codeword@[index as int]);
                lemma_reduced(codeword@[index as int].value(), F::modulus());
                lemma_alphabet_check_covers_all_queries(
                    values(codeword@),
                    fixed_rl@,
                    query_indices@,
                    packed_interleaved_alphabets@,
                    pack_size as int,
                );
            }
            return false;
        }
        proof {
            F::lemma_value_range(codeword@[index as int]);
            assert(alphabet_value(fixed_rl@, packed_interleaved_alphabets@[i as int]@, eb)
                == codeword@[(query_indices@[i as int] as int % codeword@.len() as int)].value());
        }
        i = i + 1;
    }
    proof {
        lemma_alphabet_check_covers_all_queries(
            values(codeword@),
            fixed_rl@,
            query_indices@,
            packed_interleaved_alphabets@,
            pack_size as int,
        );
    }
    true
}

/// The sum, over the first `rows` row blocks, of the value of column `j` of
/// a block against that block's coefficients: block `r` combines
/// `coeffs[r * cps .. (r + 1) * cps]` with the `tn` packed entries of its
/// column `j`, which start at `(r * msg + j) * tn`.
pub open spec fn combined_column<F: Field>(
    coeffs: Seq<F>,
    packed: Seq<u32>,
    cps: int,
    tn: int,
    msg: int,
    eb: int,
    j: int,
    rows: int,
) -> int
    decreases rows,
{
    if rows <= 0 {
        0
    } else {
        combined_column(coeffs, packed, cps, tn, msg, eb, j, rows - 1) + alphabet_value(
            coeffs.subrange((rows - 1) * cps, rows * cps),
            packed.subrange(((rows - 1) * msg + j) * tn, ((rows - 1) * msg + j) * tn + tn),
            eb,
        )
    }
}

/// `after` is `before` with, in each column `j`, the combined column `j` of
/// the first `rows` row blocks added.
pub open spec fn row_combined<F: Field>(
    before: Seq<F>,
    after: Seq<F>,
    coeffs: Seq<F>,
    packed: Seq<u32>,
    cps: int,
    tn: int,
    eb: int,
    rows: int,
) -> bool {
    &&& after.len() == before.len()
    &&& forall|j: int|
        0 <= j < before.len() ==> (#[trigger] after[j]).value() == (before[j].value() + combined_column(
            coeffs,
            packed,
            cps,
            tn,
            before.len() as int,
            eb,
            j,
            rows,
        )) % F::modulus()
}

/// `acc` with the combination of every row block added to each column.
fn lut_combine_rows<F: Field>(
    luts: &mut SubsetSumLUTs<F>,
    coeffs: &[F],
    packed_evals: &[u32],
    acc: &[F],
    com_pack_size: usize,
    pack_size: usize,
    tn: usize,
    rows: usize,
) -> (r: Vec<F>)
    requires
        0 < pack_size < 32,
        tn > 0,
        com_pack_size == pack_size * tn,
        old(luts).entry_bits == pack_size,
        old(luts).tables@.len() == tn,
        forall|t: int| 0 <= t < tn ==> #[trigger] old(luts).tables@[t]@.len() == pow2(pack_size as nat),
        coeffs@.len() == rows * (pack_size * tn),
        packed_evals@.len() == rows * acc@.len() * tn,
        forall|k: int| 0 <= k < packed_evals@.len() ==> (#[trigger] packed_evals@[k]) < pow2(pack_size as nat),
    ensures
        final(luts).entry_bits == pack_size,
        final(luts).tables@.len() == tn,
        forall|t: int| 0 <= t < tn ==> #[trigger] final(luts).tables@[t]@.len() == pow2(pack_size as nat),
        row_combined(
            acc@,
            r@,
            coeffs@,
            packed_evals@,
            com_pack_size as int,
            tn as int,
            pack_size as int,
            rows as int,
        ),
{
    let ghost m = F::modulus();
    let ghost eb = pack_size as int;
    let cps = com_pack_size;
    let msg = acc.len();
    let clen = coeffs.len();
    let plen = packed_evals.len();
    proof {
        F::lemma_modulus();
    }
    let mut out: Vec<F> = Vec::new();
    let mut j: usize = 0;
    while j < msg
        invariant
            j <= msg,
            msg == acc@.len(),
            cps == com_pack_size,
            eb == pack_size,
            m == F::modulus(),
            m > 1,
            out@.len() == j,
            forall|k: int| 0 <= k < j ==> (#[trigger] out@[k]).value() == (acc@[k].value() + combined_column(coeffs@, packed_evals@, cps as int, tn as int, msg as int, eb, k, 0)) % m,
        decreases msg - j,
    {
        proof {
            F::lemma_value_range(acc@[j as int]);
            lemma_reduced(acc@[j as int].value(), m);
        }
        out.push(acc[j]);
        j = j + 1;
    }
    let mut r: usize = 0;
    while r < rows
        invariant
            r <= rows,
            0 < pack_size < 32,
            tn > 0,
            eb == pack_size,
            cps == pack_size * tn,
            msg == acc@.len(),
            m == F::modulus(),
            m > 1,
            coeffs@.len() == rows * cps,
            clen == coeffs@.len(),
            plen == packed_evals@.len(),
            packed_evals@.len() == rows * msg * tn,
            forall|k: int| 0 <= k < packed_evals@.len() ==> (#[trigger] packed_evals@[k]) < pow2(pack_size as nat),
            luts.entry_bits == pack_size,
            luts.tables@.len() == tn,
            forall|t: int| 0 <= t < tn ==> #[trigger] luts.tables@[t]@.len() == pow2(pack_size as nat),
            out@.len() == msg,
            forall|k: int| 0 <= k < msg ==> (#[trigger] out@[k]).value() == (acc@[k].value() + combined_column(coeffs@, packed_evals@, cps as int, tn as int, msg as int, eb, k, r as int)) % m,
        decreases rows - r,
    {
        proof {
            assert(r * cps + cps <= rows * cps) by (nonlinear_arith)
                requires
                    r < rows,
            ;
        }
        let chunk = slice_subrange(coeffs, r * cps, r * cps + cps);
        luts.build(chunk);
        let mut jj: usize = 0;
        while jj < msg
            invariant
                jj <= msg,
                r < rows,
                0 < pack_size < 32,
                tn > 0,
                eb == pack_size,
                cps == pack_size * tn,
                msg == acc@.len(),
                m == F::modulus(),
                m > 1,
                chunk@ == coeffs@.subrange(r * cps, r * cps + cps),
                chunk@.len() == eb * tn,
                packed_evals@.len() == rows * msg * tn,
                plen == packed_evals@.len(),
                forall|k: int|
                    0 <= k < packed_evals@.len() ==> (#[trigger] packed_evals@[k]) < pow2(pack_size as nat),
                luts.entry_bits == pack_size,
                luts.tables@.len() == tn,
                forall|t: int| 0 <= t < tn ==> #[trigger] luts.tables@[t]@.len() == pow2(pack_size as nat),
                forall|t: int, bm: int|
                    0 <= t < luts.tables@.len() && 0 <= bm < luts.tables@[t]@.len() ==> (
                    #[trigger] luts.tables@[t]@[bm]).value() == subset_sum(values(chunk@), t * eb, eb, bm)
                        % F::modulus(),
                out@.len() == msg,
                forall|k: int|
                    0 <= k < jj ==> (#[trigger] out@[k]).value() == (acc@[k].value() + combined_column(coeffs@, packed_evals@, cps as int, tn as int, msg as int, eb, k, r + 1)) % m,
                forall|k: int|
                    jj <= k < msg ==> (#[trigger] out@[k]).value() == (acc@[k].value() + combined_column(coeffs@, packed_evals@, cps as int, tn as int, msg as int, eb, k, r as int)) % m,
            decreases msg - jj,
        {
            proof {
                assert((r * msg + jj) * tn + tn <= rows * msg * tn) by (nonlinear_arith)
                    requires
                        r < rows,
                        jj < msg,
                        tn > 0,
                ;
                assert(r * msg + jj <= (r * msg + jj) * tn) by (nonlinear_arith)
                    requires
                        r * msg + jj >= 0,
                        tn > 0,
                ;
            }
            let start = (r * msg + jj) * tn;
            let col = slice_subrange(packed_evals, start, start + tn);
            proof {
                assert forall|i: int| 0 <= i < col@.len() implies (#[trigger] col@[i]) < luts.tables@[i]@.len() by {
                    assert(col@[i] == packed_evals@[start + i]);
                }
            }
            let v = luts.lookup_and_sum(col);
            proof {
                lemma_lookup_after_build_is_inner_product(luts.tables@, chunk@, col@, eb);
            }
            let sum = out[jj].plus(&v);
            proof {
                let o = acc@[jj as int].value();
                let c = combined_column(coeffs@, packed_evals@, cps as int, tn as int, msg as int, eb, jj as int, r as int);
                let a = alphabet_value(chunk@, col@, eb);
                assert((r + 1) * cps == r * cps + cps) by (nonlinear_arith);
                assert(chunk@ == coeffs@.subrange(r * cps, (r + 1) * cps));
                assert(col@ == packed_evals@.subrange((r * msg + jj) * tn, (r * msg + jj) * tn + tn));
                assert(combined_column(coeffs@, packed_evals@, cps as int, tn as int, msg as int, eb, jj as int, r + 1) == c + a);
                assert(v.value() == a);
                lemma_add_mod_noop(o + c, a, m);
                lemma_mod_twice(a, m);
                lemma_mod_twice(o + c, m);
                lemma_add_mod_noop(o + c, a, m);
                F::lemma_value_range(v);
                lemma_reduced(v.value(), m);
                assert((o + c + a) % m == ((o + c) % m + a % m) % m);
            }
            out.set(jj, sum);
            jj = jj + 1;
        }
        r = r + 1;
    }
    out
}

/// Combines the packed evaluations row block by row block, through
/// subset-sum tables: `eval_row` gets the combination with `eq_col_coeffs`,
/// and each proximity row the combination with its random coefficients.
pub fn lut_open_linear_combine<F: Field>(
    com_pack_size: usize,
    pack_size: usize,
    packed_evals: &[u32],
    eq_col_coeffs: &[F],
    eval_row: &mut Vec<F>,
    rand_col_coeffs: &[Vec<F>],
    proximity_rows: &mut Vec<Vec<F>>,
)
    requires
        0 < pack_size < 32,
        pack_size <= com_pack_size,
        com_pack_size as int % pack_size as int == 0,
        eq_col_coeffs@.len() >= com_pack_size,
        eq_col_coeffs@.len() as int % com_pack_size as int == 0,
        old(eval_row)@.len() > 0,
        packed_evals@.len() == (eq_col_coeffs@.len() as int / com_pack_size as int) * old(eval_row)@.len() * (
        com_pack_size as int / pack_size as int),
        forall|k: int| 0 <= k < packed_evals@.len() ==> (#[trigger] packed_evals@[k]) < pow2(pack_size as nat),
        forall|t: int|
            0 <= t < old(proximity_rows)@.len() && t < rand_col_coeffs@.len() ==> (#[trigger] rand_col_coeffs@[t])@.len()
                == eq_col_coeffs@.len() && old(proximity_rows)@[t]@.len() == old(eval_row)@.len(),
    ensures
        row_combined(
            old(eval_row)@,
            final(eval_row)@,
            eq_col_coeffs@,
            packed_evals@,
            com_pack_size as int,
            com_pack_size as int / pack_size as int,
            pack_size as int,
            eq_col_coeffs@.len() as int / com_pack_size as int,
        ),
        final(proximity_rows)@.len() == old(proximity_rows)@.len(),
        forall|t: int|
            0 <= t < old(proximity_rows)@.len() && t < rand_col_coeffs@.len() ==> row_combined(
                old(proximity_rows)@[t]@,
                #[trigger] final(proximity_rows)@[t]@,
                rand_col_coeffs@[t]@,
                packed_evals@,
                com_pack_size as int,
                com_pack_size as int / pack_size as int,
                pack_size as int,
                eq_col_coeffs@.len() as int / com_pack_size as int,
            ),
        forall|t: int|
            rand_col_coeffs@.len() <= t < old(proximity_rows)@.len() ==> #[trigger] final(proximity_rows)@[t]
                == old(proximity_rows)@[t],
{
    let table_num = com_pack_size / pack_size;
    let rows = eq_col_coeffs.len() / com_pack_size;
    proof {
        lemma_fundamental_div_mod(com_pack_size as int, pack_size as int);
        lemma_fundamental_div_mod(eq_col_coeffs@.len() as int, com_pack_size as int);
        if table_num == 0 {
            assert(pack_size * table_num == 0) by (nonlinear_arith)
                requires
                    table_num == 0,
            ;
        }
        assert(com_pack_size == pack_size * table_num);
        assert(eq_col_coeffs@.len() == rows * (pack_size * table_num)) by (nonlinear_arith)
            requires
                eq_col_coeffs@.len() == com_pack_size * rows,
                com_pack_size == pack_size * table_num,
        ;
    }
    let mut luts = SubsetSumLUTs::<F>::new(pack_size, table_num);
    let new_row = lut_combine_rows(
        &mut luts,
        eq_col_coeffs,
        packed_evals,
        eval_row.as_slice(),
        com_pack_size,
        pack_size,
        table_num,
        rows,
    );
    *eval_row = new_row;
    let n: usize = if proximity_rows.len() <= rand_col_coeffs.len() {
        proximity_rows.len()
    } else {
        rand_col_coeffs.len()
    };
    let ghost old_prox = proximity_rows@;
    let mut t: usize = 0;
    while t < n
        invariant
            t <= n,
            n <= old_prox.len(),
            n <= rand_col_coeffs@.len(),
            n == old_prox.len() || n == rand_col_coeffs@.len(),
            0 < pack_size < 32,
            table_num > 0,
            com_pack_size == pack_size * table_num,
            table_num == com_pack_size as int / pack_size as int,
            rows == eq_col_coeffs@.len() as int / com_pack_size as int,
            eq_col_coeffs@.len() == rows * (pack_size * table_num),
            packed_evals@.len() == rows * old(eval_row)@.len() * table_num,
            forall|k: int| 0 <= k < packed_evals@.len() ==> (#[trigger] packed_evals@[k]) < pow2(pack_size as nat),
            forall|u: int|
                0 <= u < old_prox.len() && u < rand_col_coeffs@.len() ==> (#[trigger] rand_col_coeffs@[u])@.len()
                    == eq_col_coeffs@.len() && old_prox[u]@.len() == old(eval_row)@.len(),
            luts.entry_bits == pack_size,
            luts.tables@.len() == table_num,
            forall|u: int| 0 <= u < table_num ==> #[trigger] luts.tables@[u]@.len() == pow2(pack_size as nat),
            proximity_rows@.len() == old_prox.len(),
            forall|u: int|
                0 <= u < t ==> row_combined(
                    old_prox[u]@,
                    #[trigger] proximity_rows@[u]@,
                    rand_col_coeffs@[u]@,
                    packed_evals@,
                    com_pack_size as int,
                    table_num as int,
                    pack_size as int,
                    rows as int,
                ),
            forall|u: int| t <= u < old_prox.len() ==> #[trigger] proximity_rows@[u] == old_prox[u],
        decreases n - t,
    {
        let combined = lut_combine_rows(
            &mut luts,
            rand_col_coeffs[t].as_slice(),
            packed_evals,
            proximity_rows[t].as_slice(),
            com_pack_size,
            pack_size,
            table_num,
            rows,
        );
        proximity_rows.set(t, combined);
        t = t + 1;
    }
}

} // verus!
