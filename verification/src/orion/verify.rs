//! The checks of the Orion verifier on the rows that an opening reports.

use crate::field::{lin, values, Field};
use crate::multilinear::{mle_eval, MultiLinearPoly};
use crate::orion::linear_code::{
    code_graphs, code_well_formed, encode_message, lemma_encode_linear, lemma_encode_steps_len, zeros, OrionCode,
};
use crate::orion::lut::{alphabet_bits, alphabet_value, alphabets_match, checked_queries, lut_verify_alphabet_check};
use crate::univariate::{dot_prefix, lemma_dot_congruent_right};
use vstd::arithmetic::power2::*;
use vstd::prelude::*;

verus! {

/// The codeword of `row`, as the values of its entries.
pub open spec fn encoded_values<F: Field>(code: OrionCode, row: Seq<F>) -> Seq<int> {
    Seq::new(code.codeword_len as nat, |k: int| encode_message(code, values(row))[k] % F::modulus())
}

/// A reported row passes: it has the code's message length, and its
/// codeword holds at each queried position the combination, by `rl`, of the
/// packed alphabet opened there.
pub open spec fn row_checks_pass<F: Field>(
    code: OrionCode,
    row: Seq<F>,
    rl: Seq<F>,
    query_indices: Seq<usize>,
    alphabets: Seq<Vec<u32>>,
    eb: int,
) -> bool {
    &&& row.len() == code.msg_len
    &&& alphabets_match(
        encoded_values(code, row),
        rl,
        query_indices,
        alphabets,
        eb,
        checked_queries(query_indices.len() as int, alphabets.len() as int),
    )
}

/// The packed alphabets have the shape that combining them by `rl` asks for.
pub open spec fn alphabets_shaped<F>(
    rl: Seq<F>,
    query_indices: Seq<usize>,
    alphabets: Seq<Vec<u32>>,
    pack_size: int,
) -> bool {
    &&& rl.len() > 0
    &&& rl.len() as int % pack_size == 0
    &&& forall|i: int|
        0 <= i < checked_queries(query_indices.len() as int, alphabets.len() as int) ==> (
        #[trigger] alphabets[i])@.len() == rl.len() as int / pack_size
    &&& forall|i: int, j: int|
        0 <= i < checked_queries(query_indices.len() as int, alphabets.len() as int) && 0 <= j
            < alphabets[i]@.len() ==> (#[trigger] alphabets[i]@[j]) < pow2(pack_size as nat)
}

/// Encodes `row` and checks it against the alphabets opened at the queries.
fn check_row<F: Field>(
    code: &OrionCode,
    row: &Vec<F>,
    rl: &Vec<F>,
    query_indices: &[usize],
    packed_interleaved_alphabets: &[Vec<u32>],
    pack_size: usize,
) -> (r: bool)
    requires
        code_well_formed(*code),
        code.codeword_len > 0,
        0 < pack_size < 32,
        alphabets_shaped(rl@, query_indices@, packed_interleaved_alphabets@, pack_size as int),
    ensures
        r == row_checks_pass(*code, row@, rl@, query_indices@, packed_interleaved_alphabets@, pack_size as int),
{
    match code.encode(row.as_slice()) {
        Ok(codeword) => {
            proof {
                assert(values(codeword@) =~= encoded_values(*code, row@));
            }
            lut_verify_alphabet_check(
                codeword.as_slice(),
                rl.as_slice(),
                query_indices,
                packed_interleaved_alphabets,
                pack_size,
            )
        },
        Err(_) => false,
    }
}

/// Two byte strings are equal.
fn bytes_equal(a: &Vec<u8>, b: &Vec<u8>) -> (r: bool)
    ensures
        r == (a@ == b@),
{
    if a.len() != b.len() {
        return false;
    }
    let mut i: usize = 0;
    while i < a.len()
        invariant
            i <= a@.len(),
            a@.len() == b@.len(),
            forall|j: int| 0 <= j < i ==> a@[j] == b@[j],
        decreases a@.len() - i,
    {
        if a[i] != b[i] {
            return false;
        }
        i = i + 1;
    }
    proof {
        assert(a@ =~= b@);
    }
    true
}

/// The Merkle cap stands for the commitment: it holds one root per party,
/// and the root over it (the party's own root for a single party,
/// otherwise `tree_root`, the root of the tree whose leaves are the cap) is
/// the commitment.
pub open spec fn cap_matches(cap: Seq<Vec<u8>>, world_size: int, tree_root: Seq<u8>, commitment: Seq<u8>) -> bool {
    &&& cap.len() == world_size
    &&& if world_size == 1 {
        cap[0]@ == commitment
    } else {
        tree_root == commitment
    }
}

/// Checks that the Merkle cap of an opening stands for the commitment (see
/// `cap_matches`).
pub fn merkle_cap_check(merkle_cap: &Vec<Vec<u8>>, world_size: usize, tree_root: &Vec<u8>, commitment: &Vec<u8>) -> (r: bool)
    requires
        world_size >= 1,
    ensures
        r == cap_matches(merkle_cap@, world_size as int, tree_root@, commitment@),
{
    if merkle_cap.len() != world_size {
        return false;
    }
    if world_size > 1 {
        bytes_equal(tree_root, commitment)
    } else {
        bytes_equal(&merkle_cap[0], commitment)
    }
}

/// The checks of the Orion verifier, given what the transcript and the
/// Merkle trees provide: the query positions, the random combinations
/// (`random_linear_combinations`, with `eq_col_coeffs` the equality
/// polynomial of the point's column variables), the Merkle cap with the
/// root of the tree over it, whether the query paths verified against the
/// cap, and the packed alphabets opened at the queries. It accepts when the
/// evaluation row evaluates to `evaluation` at the message variables
/// `msg_point`, the cap stands for `commitment` (see `cap_matches`), the
/// paths verified, and each proximity row with its combination, then the
/// evaluation row with `eq_col_coeffs`, passes the codeword checks (see
/// `row_checks_pass`).
pub fn orion_verify<F: Field>(
    code: &OrionCode,
    msg_point: &[F],
    evaluation: F,
    eval_row: &Vec<F>,
    eq_col_coeffs: &Vec<F>,
    proximity_rows: &[Vec<F>],
    random_linear_combinations: &[Vec<F>],
    query_indices: &[usize],
    merkle_cap: &Vec<Vec<u8>>,
    world_size: usize,
    tree_root: &Vec<u8>,
    commitment: &Vec<u8>,
    paths_verified: bool,
    packed_interleaved_alphabets: &[Vec<u32>],
    pack_size: usize,
) -> (r: bool)
    requires
        world_size >= 1,
        code_well_formed(*code),
        code.codeword_len > 0,
        0 < pack_size < 32,
        eval_row@.len() == pow2(msg_point@.len() as nat),
        alphabets_shaped(eq_col_coeffs@, query_indices@, packed_interleaved_alphabets@, pack_size as int),
        forall|k: int|
            0 <= k < proximity_rows@.len() && k < random_linear_combinations@.len() ==> alphabets_shaped(
                (#[trigger] random_linear_combinations@[k])@,
                query_indices@,
                packed_interleaved_alphabets@,
                pack_size as int,
            ),
    ensures
        r == {
            &&& evaluation.value() == mle_eval(values(eval_row@), values(msg_point@)) % F::modulus()
            &&& cap_matches(merkle_cap@, world_size as int, tree_root@, commitment@)
            &&& paths_verified
            &&& forall|k: int|
                0 <= k < proximity_rows@.len() && k < random_linear_combinations@.len() ==> row_checks_pass(
                    *code,
                    (#[trigger] proximity_rows@[k])@,
                    random_linear_combinations@[k]@,
                    query_indices@,
                    packed_interleaved_alphabets@,
                    pack_size as int,
                )
            &&& row_checks_pass(
                *code,
                eval_row@,
                eq_col_coeffs@,
                query_indices@,
                packed_interleaved_alphabets@,
                pack_size as int,
            )
        },
{
    let mut scratch: Vec<F> = Vec::new();
    let mut j: usize = 0;
    while j < eval_row.len()
        invariant
            j <= eval_row@.len(),
            scratch@.len() == j,
        decreases eval_row@.len() - j,
    {
        scratch.push(F::zero());
        j = j + 1;
    }
    let final_eval = MultiLinearPoly::<F>::evaluate_with_buffer(eval_row.as_slice(), msg_point, scratch.as_mut_slice());
    proof {
        F::lemma_value_range(final_eval);
        F::lemma_value_range(evaluation);
    }
    if !final_eval.is_equal(&evaluation) {
        return false;
    }
    if !merkle_cap_check(merkle_cap, world_size, tree_root, commitment) {
        return false;
    }
    if !paths_verified {
        return false;
    }
    let n = if proximity_rows.len() <= random_linear_combinations.len() {
        proximity_rows.len()
    } else {
        random_linear_combinations.len()
    };
    let mut k: usize = 0;
    while k < n
        invariant
            k <= n,
            n <= proximity_rows@.len(),
            n <= random_linear_combinations@.len(),
            n == proximity_rows@.len() || n == random_linear_combinations@.len(),
            code_well_formed(*code),
            code.codeword_len > 0,
            0 < pack_size < 32,
            forall|t: int|
                0 <= t < proximity_rows@.len() && t < random_linear_combinations@.len() ==> alphabets_shaped(
                    (#[trigger] random_linear_combinations@[t])@,
                    query_indices@,
                    packed_interleaved_alphabets@,
                    pack_size as int,
                ),
            forall|t: int|
                0 <= t < k ==> row_checks_pass(
                    *code,
                    (#[trigger] proximity_rows@[t])@,
                    random_linear_combinations@[t]@,
                    query_indices@,
                    packed_interleaved_alphabets@,
                    pack_size as int,
                ),
        decreases n - k,
    {
        proof {
            let _ = random_linear_combinations@[k as int];
        }
        if !check_row(
            code,
            &proximity_rows[k],
            &random_linear_combinations[k],
            query_indices,
            packed_interleaved_alphabets,
            pack_size,
        ) {
            return false;
        }
        k = k + 1;
    }
    check_row(code, eval_row, eq_col_coeffs, query_indices, packed_interleaved_alphabets, pack_size)
}

/// The combination `rl[0] msgs[0] + ... + rl[n-1] msgs[n-1]` of rows of
/// length `len`.
pub open spec fn rows_combination(msgs: Seq<Seq<int>>, rl: Seq<int>, len: int, n: nat) -> Seq<int>
    decreases n,
{
    if n == 0 {
        zeros(len)
    } else {
        lin(msgs[n - 1], rows_combination(msgs, rl, len, (n - 1) as nat), rl[n - 1])
    }
}

proof fn lemma_rows_combination_len(msgs: Seq<Seq<int>>, rl: Seq<int>, len: int, n: nat)
    requires
        len >= 0,
        forall|k: int| 0 <= k < n ==> (#[trigger] msgs[k]).len() == len,
    ensures
        rows_combination(msgs, rl, len, n).len() == len,
    decreases n,
{
    if n > 0 {
        lemma_rows_combination_len(msgs, rl, len, (n - 1) as nat);
    }
}

/// An entry of a combination is the inner product of the coefficients with
/// that entry of each row.
proof fn lemma_rows_combination_entry(msgs: Seq<Seq<int>>, rl: Seq<int>, len: int, n: nat, j: int)
    requires
        0 <= j < len,
        n <= rl.len(),
        forall|k: int| 0 <= k < n ==> (#[trigger] msgs[k]).len() == len,
    ensures
        rows_combination(msgs, rl, len, n)[j] == dot_prefix(rl, Seq::new(rl.len(), |k: int| msgs[k][j]), n as int),
    decreases n,
{
    if n > 0 {
        lemma_rows_combination_entry(msgs, rl, len, (n - 1) as nat, j);
        lemma_rows_combination_len(msgs, rl, len, (n - 1) as nat);
        assert(rl[n - 1] * msgs[n - 1][j] == rl[n - 1] * Seq::new(rl.len(), |k: int| msgs[k][j])[n - 1]);
    }
}

/// The codeword of zeros is zeros.
proof fn lemma_encode_zeros(code: OrionCode)
    requires
        code_well_formed(code),
    ensures
        encode_message(code, zeros(code.msg_len as int)) == zeros(code.codeword_len as int),
{
    let z = zeros(code.msg_len as int);
    let e = encode_message(code, z);
    lemma_encode_linear(code, z, z, -1);
    assert(lin(z, z, -1) =~= z);
    lemma_encode_steps_len(
        code_graphs(code),
        z + zeros(code.codeword_len - z.len()),
        zeros(code.codeword_len as int),
        code_graphs(code).len() as int,
    );
    assert(lin(e, e, -1) =~= zeros(code.codeword_len as int));
}

/// The codeword of a combination of rows is the same combination of their
/// codewords.
pub proof fn lemma_encode_rows_combination(code: OrionCode, msgs: Seq<Seq<int>>, rl: Seq<int>, n: nat)
    requires
        code_well_formed(code),
        n <= msgs.len(),
        forall|k: int| 0 <= k < n ==> (#[trigger] msgs[k]).len() == code.msg_len,
    ensures
        encode_message(code, rows_combination(msgs, rl, code.msg_len as int, n)) == rows_combination(
            Seq::new(msgs.len(), |k: int| encode_message(code, msgs[k])),
            rl,
            code.codeword_len as int,
            n,
        ),
    decreases n,
{
    let es = Seq::new(msgs.len(), |k: int| encode_message(code, msgs[k]));
    if n == 0 {
        lemma_encode_zeros(code);
    } else {
        lemma_encode_rows_combination(code, msgs, rl, (n - 1) as nat);
        lemma_rows_combination_len(msgs, rl, code.msg_len as int, (n - 1) as nat);
        let prev = rows_combination(msgs, rl, code.msg_len as int, (n - 1) as nat);
        lemma_encode_linear(code, msgs[n - 1], prev, rl[n - 1]);
        assert(rows_combination(msgs, rl, code.msg_len as int, n) == lin(msgs[n - 1], prev, rl[n - 1]));
        assert(rows_combination(es, rl, code.codeword_len as int, n) == lin(
            es[n - 1],
            rows_combination(es, rl, code.codeword_len as int, (n - 1) as nat),
            rl[n - 1],
        ));
        assert(es[n - 1] == encode_message(code, msgs[n - 1]));
    }
}

/// Rows congruent entry by entry have codewords congruent entry by entry.
pub proof fn lemma_encode_congruent(code: OrionCode, a: Seq<int>, b: Seq<int>, m: int)
    requires
        code_well_formed(code),
        m > 0,
        a.len() == code.msg_len,
        b.len() == code.msg_len,
        forall|i: int| 0 <= i < a.len() ==> #[trigger] (a[i] % m) == b[i] % m,
    ensures
        forall|j: int| 0 <= j < code.codeword_len ==> #[trigger] (encode_message(code, a)[j] % m) == encode_message(code, b)[j] % m,
{
    let t = Seq::new(a.len(), |i: int| (a[i] - b[i]) / m);
    assert forall|i: int| 0 <= i < a.len() implies #[trigger] lin(t, b, m)[i] == a[i] by {
        vstd::arithmetic::div_mod::lemma_fundamental_div_mod(a[i] - b[i], m);
        assert(a[i] % m == b[i] % m);
        vstd::arithmetic::div_mod::lemma_sub_mod_noop(a[i], b[i], m);
        assert((a[i] % m) - (b[i] % m) == 0);
        vstd::arithmetic::div_mod::lemma_small_mod(0, m as nat);
        assert((a[i] - b[i]) % m == 0);
    }
    assert(lin(t, b, m) =~= a);
    lemma_encode_linear(code, t, b, m);
    let et = encode_message(code, t);
    lemma_encode_steps_len(
        code_graphs(code),
        t + zeros(code.codeword_len - t.len()),
        zeros(code.codeword_len as int),
        code_graphs(code).len() as int,
    );
    assert forall|j: int| 0 <= j < code.codeword_len implies #[trigger] (encode_message(code, a)[j] % m)
        == encode_message(code, b)[j] % m by {
        crate::field::lemma_multiple_vanishes(encode_message(code, b)[j], et[j], m);
        assert(m * et[j] == et[j] * m) by (nonlinear_arith);
    }
}

/// Orion completeness of the codeword checks: a row that is the
/// combination, by `rl`, of the committed message rows passes the check at
/// every query whose packed alphabet holds, bit `k` for row `k`, the
/// committed codewords' entries at the queried position.
pub proof fn lemma_combined_row_passes<F: Field>(
    code: OrionCode,
    msgs: Seq<Seq<F>>,
    rl: Seq<F>,
    row: Seq<F>,
    query_indices: Seq<usize>,
    alphabets: Seq<Vec<u32>>,
    eb: int,
)
    requires
        code_well_formed(code),
        code.codeword_len > 0,
        eb > 0,
        msgs.len() == rl.len(),
        forall|k: int| 0 <= k < msgs.len() ==> (#[trigger] msgs[k]).len() == code.msg_len,
        row.len() == code.msg_len,
        forall|j: int|
            0 <= j < row.len() ==> (#[trigger] row[j]).value() == rows_combination(
                Seq::new(msgs.len(), |k: int| values(msgs[k])),
                values(rl),
                code.msg_len as int,
                rl.len(),
            )[j] % F::modulus(),
        forall|i: int|
            0 <= i < checked_queries(query_indices.len() as int, alphabets.len() as int) ==> (#[trigger] alphabets[i])@.len()
                * eb == rl.len(),
        forall|i: int, k: int|
            0 <= i < checked_queries(query_indices.len() as int, alphabets.len() as int) && 0 <= k < rl.len() ==> #[trigger] alphabet_bits(alphabets[i]@, eb)[k] == encode_message(code, values(msgs[k]))[(query_indices[i] as int % code.codeword_len as int)]
                % F::modulus(),
    ensures
        row_checks_pass(code, row, rl, query_indices, alphabets, eb),
{
    let m = F::modulus();
    F::lemma_modulus();
    let n = rl.len();
    let mv = Seq::new(msgs.len(), |k: int| values(msgs[k]));
    let rv = values(rl);
    let cw = code.codeword_len as int;
    let comb = rows_combination(mv, rv, code.msg_len as int, n);
    assert forall|k: int| 0 <= k < n implies (#[trigger] mv[k]).len() == code.msg_len by {
        assert(msgs[k].len() == code.msg_len);
    }
    lemma_rows_combination_len(mv, rv, code.msg_len as int, n);
    // the row's codeword is, entry by entry, the combination's codeword
    assert forall|j: int| 0 <= j < values(row).len() implies #[trigger] (values(row)[j] % m) == comb[j] % m by {
        assert(row[j].value() == comb[j] % m);
        vstd::arithmetic::div_mod::lemma_mod_twice(comb[j], m);
    }
    lemma_encode_congruent(code, values(row), comb, m);
    lemma_encode_rows_combination(code, mv, rv, n);
    let es = Seq::new(mv.len(), |k: int| encode_message(code, mv[k]));
    assert forall|k: int| 0 <= k < n implies (#[trigger] es[k]).len() == cw by {
        lemma_encode_steps_len(
            code_graphs(code),
            mv[k] + zeros(code.codeword_len - mv[k].len()),
            zeros(code.codeword_len as int),
            code_graphs(code).len() as int,
        );
    }
    let nq = checked_queries(query_indices.len() as int, alphabets.len() as int);
    assert forall|i: int| 0 <= i < nq implies alphabet_value(rl, #[trigger] alphabets[i]@, eb) == encoded_values(
        code,
        row,
    )[(query_indices[i] as int % cw)] by {
        let q = query_indices[i] as int % cw;
        let bits = alphabet_bits(alphabets[i]@, eb);
        let col = Seq::new(rl.len(), |k: int| es[k][q]);
        assert(0 <= q < cw) by {
            vstd::arithmetic::div_mod::lemma_mod_bound(query_indices[i] as int, cw);
        }
        assert forall|k: int| 0 <= k < n implies #[trigger] bits[k] % m == col[k] % m by {
            assert(bits[k] == encode_message(code, values(msgs[k]))[q] % m);
            assert(mv[k] == values(msgs[k]));
            vstd::arithmetic::div_mod::lemma_mod_twice(encode_message(code, values(msgs[k]))[q], m);
        }
        assert(rv.len() == n);
        lemma_dot_congruent_right(rv, bits, col, n as int, m);
        lemma_rows_combination_entry(es, rv, cw, n, q);
        assert(encode_message(code, values(row))[q] % m == encode_message(code, comb)[q] % m);
    }
}

} // verus!
