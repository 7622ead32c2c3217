//! Errors, evaluation-shape planning, public parameters and the committed
//! codeword matrix of the Orion scheme.

use vstd::arithmetic::div_mod::*;
use vstd::arithmetic::power2::*;
use vstd::bits::*;
use crate::field::{values, Field};
use crate::orion::linear_code::{
    code_instance_of, code_layout_ok, code_well_formed, encode_message, OrionCode, OrionCodeParameter, OrionRatio,
};
use vstd::slice::slice_subrange;
use rand::rngs::StdRng;
use vstd::prelude::*;

verus! {

/// Errors of the Orion commitment scheme.
#[derive(Debug, Clone, Copy, PartialEq, Eq)]
pub enum OrionPCSError {
    /// A buffer or message does not have the length the code parameters ask for.
    ParameterUnmatchError,
    /// A field element could not be read or written.
    SerializationError,
}

/// Results of the Orion commitment scheme.
pub type OrionResult<T> = Result<T, OrionPCSError>;

/// The number of bytes in a Merkle tree leaf.
pub const LEAF_BYTES: usize = 64;

/// The message-length threshold below which the Orion code parameter instance
/// stops recursing.
pub const ORION_LENGTH_THRESHOLD_G0S: usize = 12;

/// `floor(log2(x))` for `x >= 1`.
pub open spec fn log2_floor(x: nat) -> nat
    decreases x,
{
    if x <= 1 {
        0
    } else {
        1 + log2_floor(x / 2)
    }
}

/// The smallest power of two that is at least `x`, searching from `p`.
pub open spec fn next_pow2_from(x: nat, p: nat) -> nat
    decreases (if p < x { x - p } else { 0 }),
{
    if p == 0 || p >= x {
        if p == 0 { 1 } else { p }
    } else {
        next_pow2_from(x, 2 * p)
    }
}

/// The smallest power of two that is at least `x` (and at least 1).
pub open spec fn next_pow2(x: nat) -> nat {
    next_pow2_from(x, 1)
}

/// `ceil(a / b)` for `b > 0`.
pub open spec fn div_ceil(a: nat, b: nat) -> nat {
    ((a + b - 1) / b as int) as nat
}

/// `floor(log2(x))`, for `x >= 1`.
pub fn ilog2(x: usize) -> (r: u32)
    requires
        x >= 1,
    ensures
        r as nat == log2_floor(x as nat),
{
    let mut y = x;
    let mut r: u32 = 0;
    proof {
        lemma_log2_floor_bound(x as nat);
    }
    while y > 1
        invariant
            y >= 1,
            r as nat + log2_floor(y as nat) == log2_floor(x as nat),
            r as nat + log2_floor(y as nat) < 64,
        decreases y,
    {
        proof {
            lemma_log2_floor_bound(x as nat);
        }
        y = y / 2;
        r = r + 1;
    }
    r
}

proof fn lemma_log2_floor_bound(x: nat)
    requires
        x <= usize::MAX,
    ensures
        log2_floor(x) < 64,
{
    lemma2_to64();
    lemma2_to64_rest();
    lemma_log2_floor_le(x, 64);
}

proof fn lemma_log2_floor_le(x: nat, k: nat)
    requires
        x < pow2(k),
    ensures
        k > 0 ==> log2_floor(x) < k,
    decreases k,
{
    if k > 0 && x > 1 {
        lemma_pow2_unfold(k);
        lemma_log2_floor_le(x / 2, (k - 1) as nat);
        if k == 1 {
            lemma2_to64();
        }
    }
}

/// The smallest power of two that is at least `x` (1 for `x = 0`).
pub fn next_power_of_two(x: usize) -> (r: usize)
    requires
        x <= usize::MAX / 2 + 1,
    ensures
        r as nat == next_pow2(x as nat),
{
    let mut p: usize = 1;
    while p < x
        invariant
            1 <= p,
            x <= usize::MAX / 2 + 1,
            p < x ==> p <= usize::MAX / 2,
            next_pow2_from(x as nat, p as nat) == next_pow2(x as nat),
        decreases usize::MAX - p,
    {
        p = p * 2;
    }
    p
}

/// One planning step of the evaluation shape: the values it computes from
/// the world size, the number of local variables, the base field's bit width
/// and the commitment packing size.
pub open spec fn shape_polynomial_bits(ws: nat, nlv: nat, nb: nat) -> nat {
    ws * pow2(nlv) * nb
}

/// The suggested number of leaves per Merkle opening for a polynomial of
/// `2^log2_bits` bits.
pub open spec fn leaves_lower_bound(log2_bits: nat) -> nat {
    if log2_bits < 16 {
        2
    } else if log2_bits < 22 {
        4
    } else if log2_bits < 28 {
        8
    } else if log2_bits < 34 {
        16
    } else {
        32
    }
}

/// The number of packed field elements each world contributes to a query.
pub open spec fn shape_min_pack_per_world(ws: nat, nlv: nat, nb: nat, ps: nat) -> nat {
    div_ceil(
        leaves_lower_bound(log2_floor(shape_polynomial_bits(ws, nlv, nb))) * (LEAF_BYTES as nat) * 8,
        ps * nb * ws,
    )
}

/// The bits of one query's leaves.
pub open spec fn shape_final_leaves_bits(ws: nat, nlv: nat, nb: nat, ps: nat) -> nat {
    shape_min_pack_per_world(ws, nlv, nb, ps) * ws * (ps * nb)
}

/// The message size of the planned code.
pub open spec fn shape_msg_size(ws: nat, nlv: nat, nb: nat, ps: nat) -> nat {
    shape_polynomial_bits(ws, nlv, nb) / shape_final_leaves_bits(ws, nlv, nb, ps)
}

/// The smallest message size whose codeword can be spread over the worlds.
pub open spec fn shape_minimum_msg_size(ws: nat) -> nat {
    if ws <= next_pow2(ORION_LENGTH_THRESHOLD_G0S as nat) {
        ws
    } else {
        ws / 2
    }
}

/// The number of local variables to scale up to when the message is too short.
pub open spec fn shape_scaled_vars(ws: nat, nlv: nat, nb: nat, ps: nat) -> nat {
    log2_floor(shape_minimum_msg_size(ws) * (shape_min_pack_per_world(ws, nlv, nb, ps) * ps))
}

/// Every intermediate value of one planning step fits a `usize`.
pub open spec fn shape_step_fits(ws: nat, nlv: nat, nb: nat, ps: nat) -> bool {
    &&& nlv < usize::BITS
    &&& ws * pow2(nlv) <= usize::MAX
    &&& shape_polynomial_bits(ws, nlv, nb) <= usize::MAX
    &&& ps * nb <= usize::MAX
    &&& ps * nb * ws <= usize::MAX
    &&& shape_min_pack_per_world(ws, nlv, nb, ps) * ws <= usize::MAX
    &&& shape_final_leaves_bits(ws, nlv, nb, ps) <= usize::MAX
    &&& shape_min_pack_per_world(ws, nlv, nb, ps) * ps <= usize::MAX
    &&& shape_minimum_msg_size(ws) * (shape_min_pack_per_world(ws, nlv, nb, ps) * ps) <= usize::MAX
}

/// The plan is done at this step: the message is long enough.
pub open spec fn shape_done(ws: nat, nlv: nat, nb: nat, ps: nat) -> bool {
    shape_msg_size(ws, nlv, nb, ps) >= shape_minimum_msg_size(ws)
}

/// Planning from `nlv` local variables finishes within `d` rescalings, with
/// every step's values fitting a `usize`.
pub open spec fn shape_finishes(ws: nat, nlv: nat, nb: nat, ps: nat, d: nat) -> bool
    decreases d,
{
    shape_step_fits(ws, nlv, nb, ps) && (shape_done(ws, nlv, nb, ps) || (d > 0 && shape_finishes(
        ws,
        shape_scaled_vars(ws, nlv, nb, ps),
        nb,
        ps,
        (d - 1) as nat,
    )))
}

/// The plan reached within `d` rescalings: leaves per query, the calibrated
/// number of local variables, and the message size.
pub open spec fn shape_result(ws: nat, nlv: nat, nb: nat, ps: nat, d: nat) -> (nat, nat, nat)
    decreases d,
{
    if shape_done(ws, nlv, nb, ps) || d == 0 {
        (shape_final_leaves_bits(ws, nlv, nb, ps) / (LEAF_BYTES * 8) as nat, nlv, shape_msg_size(ws, nlv, nb, ps))
    } else {
        shape_result(ws, shape_scaled_vars(ws, nlv, nb, ps), nb, ps, (d - 1) as nat)
    }
}

proof fn lemma_div_ceil(a: nat, b: nat)
    requires
        b > 0,
    ensures
        div_ceil(a, b) == a / b + if a % b == 0 { 0nat } else { 1nat },
{
    let q = (a / b) as int;
    let r = (a % b) as int;
    lemma_fundamental_div_mod(a as int, b as int);
    assert(a == q * b + r) by (nonlinear_arith)
        requires
            a == b * q + r,
    ;
    if r == 0 {
        lemma_fundamental_div_mod_converse(a + b - 1, b as int, q, b - 1);
    } else {
        assert(a + b - 1 == (q + 1) * b + (r - 1)) by (nonlinear_arith)
            requires
                a == q * b + r,
        ;
        lemma_fundamental_div_mod_converse(a + b - 1, b as int, q + 1, r - 1);
    }
}

proof fn lemma_shape_result_step(ws: nat, nlv: nat, nb: nat, ps: nat, d: nat)
    requires
        shape_finishes(ws, nlv, nb, ps, d),
        !shape_done(ws, nlv, nb, ps),
    ensures
        d > 0,
        shape_finishes(ws, shape_scaled_vars(ws, nlv, nb, ps), nb, ps, (d - 1) as nat),
        shape_result(ws, nlv, nb, ps, d) == shape_result(ws, shape_scaled_vars(ws, nlv, nb, ps), nb, ps, (d - 1) as nat),
{
}

/// Planning reaches the same result whatever bound on its steps lets it finish.
proof fn lemma_shape_result_unique(ws: nat, nlv: nat, nb: nat, ps: nat, d1: nat, d2: nat)
    requires
        shape_finishes(ws, nlv, nb, ps, d1),
        shape_finishes(ws, nlv, nb, ps, d2),
    ensures
        shape_result(ws, nlv, nb, ps, d1) == shape_result(ws, nlv, nb, ps, d2),
    decreases d1,
{
    if !shape_done(ws, nlv, nb, ps) {
        lemma_shape_result_step(ws, nlv, nb, ps, d1);
        lemma_shape_result_step(ws, nlv, nb, ps, d2);
        lemma_shape_result_unique(ws, shape_scaled_vars(ws, nlv, nb, ps), nb, ps, (d1 - 1) as nat, (d2 - 1) as nat);
    }
}

/// Plans the shape of an Orion evaluation: returns the number of leaves per
/// Merkle query, the calibrated number of local variables (over base field
/// elements) and the message size. When the polynomial is too short for the
/// codeword to be spread over the worlds, the number of local variables is
/// scaled up and the plan is made again.
pub fn orion_eval_shape(
    world_size: usize,
    num_local_vars: usize,
    num_bits_base_field: usize,
    field_pack_size: usize,
) -> (r: (usize, usize, usize))
    requires
        world_size >= 1,
        num_bits_base_field >= 1,
        field_pack_size >= 1,
        exists|d: nat|
            shape_finishes(
                world_size as nat,
                num_local_vars as nat,
                num_bits_base_field as nat,
                field_pack_size as nat,
                d,
            ),
    ensures
        forall|d: nat|
            shape_finishes(
                world_size as nat,
                num_local_vars as nat,
                num_bits_base_field as nat,
                field_pack_size as nat,
                d,
            ) ==> (r.0 as nat, r.1 as nat, r.2 as nat) == #[trigger] shape_result(
                world_size as nat,
                num_local_vars as nat,
                num_bits_base_field as nat,
                field_pack_size as nat,
                d,
            ),
        ({
            let bits = world_size * pow2(r.1 as nat) * num_bits_base_field;
            let lg = log2_floor(bits as nat);
            let lb: nat = if lg < 16 {
                2
            } else if lg < 22 {
                4
            } else if lg < 28 {
                8
            } else if lg < 34 {
                16
            } else {
                32
            };
            let w = field_pack_size * num_bits_base_field * world_size;
            let k = div_ceil(lb * 512, w as nat);
            &&& r.0 == (k * w) / 512
            &&& r.2 == bits / (k * w)
        }),
{
    let ws = world_size;
    let nb = num_bits_base_field;
    let ps = field_pack_size;
    let ghost d0 = choose|d: nat| shape_finishes(ws as nat, num_local_vars as nat, nb as nat, ps as nat, d);
    let ghost mut fuel: nat = d0;
    let mut nlv = num_local_vars;
    let min_expander = next_power_of_two(ORION_LENGTH_THRESHOLD_G0S);
    loop
        invariant
            ws == world_size,
            nb == num_bits_base_field,
            ps == field_pack_size,
            ws >= 1,
            nb >= 1,
            ps >= 1,
            min_expander as nat == next_pow2(ORION_LENGTH_THRESHOLD_G0S as nat),
            shape_finishes(ws as nat, num_local_vars as nat, nb as nat, ps as nat, d0),
            shape_finishes(ws as nat, nlv as nat, nb as nat, ps as nat, fuel),
            shape_result(ws as nat, num_local_vars as nat, nb as nat, ps as nat, d0) == shape_result(
                ws as nat,
                nlv as nat,
                nb as nat,
                ps as nat,
                fuel,
            ),
        decreases fuel,
    {
        let ghost (w, v, b, p) = (ws as nat, nlv as nat, nb as nat, ps as nat);
        proof {
            lemma_usize_pow2_no_overflow(v);
            lemma_usize_shl_is_mul(1, nlv);
            lemma_pow2_pos(v);
        }
        let hypercube_size = ws * (1usize << nlv);
        let polynomial_bits = hypercube_size * nb;
        proof {
            assert(hypercube_size >= 1) by (nonlinear_arith)
                requires
                    hypercube_size == ws * pow2(v),
                    ws >= 1,
                    pow2(v) >= 1,
            ;
            assert(polynomial_bits >= 1) by (nonlinear_arith)
                requires
                    polynomial_bits == hypercube_size * nb,
                    hypercube_size >= 1,
                    nb >= 1,
            ;
        }
        let polynomial_bits_log2 = ilog2(polynomial_bits);
        let leaves_lower_bound: usize = if polynomial_bits_log2 < 16 {
            2
        } else if polynomial_bits_log2 < 22 {
            4
        } else if polynomial_bits_log2 < 28 {
            8
        } else if polynomial_bits_log2 < 34 {
            16
        } else {
            32
        };
        let num_bits_packed_f = ps * nb;
        let leaves_bits_lower_bound = leaves_lower_bound * LEAF_BYTES * 8;
        let divisor = num_bits_packed_f * ws;
        proof {
            assert(divisor >= 1) by (nonlinear_arith)
                requires
                    divisor == ps * nb * ws,
                    ps >= 1,
                    nb >= 1,
                    ws >= 1,
            ;
            lemma_div_ceil(leaves_bits_lower_bound as nat, divisor as nat);
        }
        let minimum_pack_fs_per_world = leaves_bits_lower_bound / divisor + if leaves_bits_lower_bound
            % divisor == 0 {
            0
        } else {
            1
        };
        proof {
            assert(minimum_pack_fs_per_world >= 1) by {
                let a = leaves_bits_lower_bound as int;
                let bb = divisor as int;
                lemma_fundamental_div_mod(a, bb);
                let q = a / bb;
                let rr = a % bb;
                assert(q >= 1 || rr != 0) by (nonlinear_arith)
                    requires
                        a == bb * q + rr,
                        a >= 1,
                        q >= 0,
                ;
            }
        }
        let final_leaves_bits = minimum_pack_fs_per_world * ws * num_bits_packed_f;
        proof {
            assert(final_leaves_bits >= 1) by (nonlinear_arith)
                requires
                    final_leaves_bits == minimum_pack_fs_per_world * ws * num_bits_packed_f,
                    minimum_pack_fs_per_world >= 1,
                    ws >= 1,
                    num_bits_packed_f == ps * nb,
                    ps >= 1,
                    nb >= 1,
            ;
        }
        let final_leaves_per_query = final_leaves_bits / (LEAF_BYTES * 8);
        let msg_size = polynomial_bits / final_leaves_bits;
        let minimum_msg_size = if ws <= min_expander {
            ws
        } else {
            ws / 2
        };
        proof {
            assert(hypercube_size as nat == w * pow2(v));
            assert(polynomial_bits as nat == shape_polynomial_bits(w, v, b));
            assert(leaves_lower_bound as nat == self::leaves_lower_bound(log2_floor(shape_polynomial_bits(w, v, b))));
            assert(minimum_pack_fs_per_world as nat == shape_min_pack_per_world(w, v, b, p));
            assert(final_leaves_bits as nat == shape_final_leaves_bits(w, v, b, p));
            assert(msg_size as nat == shape_msg_size(w, v, b, p));
            assert(minimum_msg_size as nat == shape_minimum_msg_size(w));
        }
        if msg_size >= minimum_msg_size {
            proof {
                assert(shape_done(w, v, b, p));
                assert(final_leaves_per_query as nat == shape_final_leaves_bits(w, v, b, p) / (LEAF_BYTES * 8) as nat);
                assert(shape_result(w, v, b, p, fuel) == (final_leaves_per_query as nat, nlv as nat, msg_size as nat));
                assert forall|d: nat| shape_finishes(ws as nat, num_local_vars as nat, nb as nat, ps as nat, d)
                    implies (final_leaves_per_query as nat, nlv as nat, msg_size as nat) == #[trigger] shape_result(
                    ws as nat,
                    num_local_vars as nat,
                    nb as nat,
                    ps as nat,
                    d,
                ) by {
                    lemma_shape_result_unique(ws as nat, num_local_vars as nat, nb as nat, ps as nat, d, d0);
                }
            }
            proof {
                let d = choose|d: nat| shape_finishes(ws as nat, num_local_vars as nat, nb as nat, ps as nat, d);
                assert(shape_finishes(ws as nat, num_local_vars as nat, nb as nat, ps as nat, d));
                assert((final_leaves_per_query as nat, nlv as nat, msg_size as nat) == shape_result(
                    ws as nat,
                    num_local_vars as nat,
                    nb as nat,
                    ps as nat,
                    d,
                ));
                lemma_plan_opening(ws as nat, num_local_vars as nat, nb as nat, ps as nat, d);
            }
            return (final_leaves_per_query, nlv, msg_size);
        }
        proof {
            lemma_shape_result_step(w, v, b, p, fuel);
            assert(minimum_msg_size >= 1);
            assert(minimum_msg_size * (minimum_pack_fs_per_world * ps) >= 1) by (nonlinear_arith)
                requires
                    minimum_msg_size >= 1,
                    minimum_pack_fs_per_world >= 1,
                    ps >= 1,
            ;
        }
        let scaled = ilog2(minimum_msg_size * (minimum_pack_fs_per_world * ps));
        nlv = scaled as usize;
        proof {
            fuel = (fuel - 1) as nat;
        }
    }
}

/// The Merkle opening the plan settles on. With `bits` the polynomial's size
/// in bits at the calibrated number of local variables, an opening must hold
/// at least 2, 4, 8, 16 or 32 leaves of 64 bytes as `log2(bits)` is below 16,
/// below 22, below 28, below 34, or beyond: the bound doubles at each
/// threshold (256 bytes for 2^16 to 2^21 bits). The opening takes the fewest
/// whole packed words per world (`ps * nb * ws` bits for all worlds) that
/// reach that bound; the leaves per query are its bits over 512, and the
/// message size is `bits` over its bits, long enough for the codeword to be
/// spread over the worlds: at least the number of worlds up to 16 of them,
/// and at least half of it beyond.
pub proof fn lemma_plan_opening(ws: nat, nlv: nat, nb: nat, ps: nat, d: nat)
    requires
        ws >= 1,
        nb >= 1,
        ps >= 1,
        shape_finishes(ws, nlv, nb, ps, d),
    ensures
        ({
            let r = shape_result(ws, nlv, nb, ps, d);
            let bits = ws * pow2(r.1) * nb;
            let lg = log2_floor(bits);
            let lb: nat = if lg < 16 {
                2
            } else if lg < 22 {
                4
            } else if lg < 28 {
                8
            } else if lg < 34 {
                16
            } else {
                32
            };
            let w = ps * nb * ws;
            let k = div_ceil(lb * 512, w);
            &&& lb * 512 <= k * w < lb * 512 + w
            &&& r.0 == (k * w) / 512
            &&& r.2 == bits / (k * w)
            &&& r.2 >= if ws <= 16 {
                ws
            } else {
                ws / 2
            }
        }),
    decreases d,
{
    if !shape_done(ws, nlv, nb, ps) {
        lemma_shape_result_step(ws, nlv, nb, ps, d);
        lemma_plan_opening(ws, shape_scaled_vars(ws, nlv, nb, ps), nb, ps, (d - 1) as nat);
    } else {
        let bits = ws * pow2(nlv) * nb;
        let lb = leaves_lower_bound(log2_floor(bits));
        let w = ps * nb * ws;
        assert(w >= 1) by (nonlinear_arith)
            requires
                w == ps * nb * ws,
                ps >= 1,
                nb >= 1,
                ws >= 1,
        ;
        let a = lb * 512;
        assert(next_pow2(ORION_LENGTH_THRESHOLD_G0S as nat) == 16) by {
            reveal_with_fuel(next_pow2_from, 6);
        }
        lemma_div_ceil(a, w);
        let k = div_ceil(a, w);
        assert(k == shape_min_pack_per_world(ws, nlv, nb, ps));
        assert(shape_final_leaves_bits(ws, nlv, nb, ps) == k * w) by (nonlinear_arith)
            requires
                shape_final_leaves_bits(ws, nlv, nb, ps) == k * ws * (ps * nb),
                w == ps * nb * ws,
        ;
        lemma_fundamental_div_mod(a as int, w as int);
        let q = a / w;
        let rr = a % w;
        if rr == 0 {
            assert(k * w == a) by (nonlinear_arith)
                requires
                    k == q,
                    a == w * q + rr,
                    rr == 0,
            ;
        } else {
            assert(a <= k * w < a + w) by (nonlinear_arith)
                requires
                    k == q + 1,
                    a == w * q + rr,
                    0 < rr < w,
            ;
        }
    }
}

/// The plan is the same whatever step bound lets planning finish; this is
/// what makes the result of `orion_eval_shape` a function of its inputs.
pub proof fn lemma_eval_shape_deterministic(ws: nat, nlv: nat, nb: nat, ps: nat, d1: nat, d2: nat)
    requires
        shape_finishes(ws, nlv, nb, ps, d1),
        shape_finishes(ws, nlv, nb, ps, d2),
    ensures
        shape_result(ws, nlv, nb, ps, d1) == shape_result(ws, nlv, nb, ps, d2),
{
    lemma_shape_result_unique(ws, nlv, nb, ps, d1, d2);
}


/// The public parameters of an Orion commitment: the number of local
/// variables (over base field elements), the number of leaves a Merkle query
/// opens, and the code instance.
#[derive(Clone, Debug)]
pub struct OrionSRS {
    pub num_vars: usize,
    pub num_leaves_per_mt_query: usize,
    pub code_instance: OrionCode,
}

/// Planning the evaluation shape finishes within `d` rescalings, and a code
/// with parameters `p` can be built for the planned message size.
pub open spec fn srs_plan_ok(ws: nat, nlv: nat, nb: nat, ps: nat, p: OrionCodeParameter, d: nat) -> bool {
    &&& shape_finishes(ws, nlv, nb, ps, d)
    &&& code_layout_ok(p, shape_result(ws, nlv, nb, ps, d).2 as int)
}

impl OrionSRS {
    /// Plans the evaluation shape and samples a code for the planned message
    /// size; returns the parameters and the calibrated number of local
    /// variables.
    pub fn from_random(
        world_size: usize,
        num_local_vars: usize,
        num_field_bits: usize,
        field_pack_size: usize,
        code_param_instance: OrionCodeParameter,
        rng: &mut StdRng,
    ) -> (r: (Self, usize))
        requires
            world_size >= 1,
            num_field_bits >= 1,
            field_pack_size >= 1,
            exists|d: nat|
                srs_plan_ok(
                    world_size as nat,
                    num_local_vars as nat,
                    num_field_bits as nat,
                    field_pack_size as nat,
                    code_param_instance,
                    d,
                ),
        ensures
            forall|d: nat|
                #[trigger] shape_finishes(
                    world_size as nat,
                    num_local_vars as nat,
                    num_field_bits as nat,
                    field_pack_size as nat,
                    d,
                ) ==> {
                    let plan = shape_result(
                        world_size as nat,
                        num_local_vars as nat,
                        num_field_bits as nat,
                        field_pack_size as nat,
                        d,
                    );
                    &&& r.0.num_leaves_per_mt_query == plan.0
                    &&& r.0.num_vars == plan.1
                    &&& r.1 == plan.1
                    &&& code_instance_of(r.0.code_instance, code_param_instance, plan.2 as int)
                },
            code_well_formed(r.0.code_instance),
    {
        let ghost d0 = choose|d: nat|
            srs_plan_ok(
                world_size as nat,
                num_local_vars as nat,
                num_field_bits as nat,
                field_pack_size as nat,
                code_param_instance,
                d,
            );
        let (num_leaves_per_mt_query, scaled_num_local_vars, msg_size) = orion_eval_shape(
            world_size,
            num_local_vars,
            num_field_bits,
            field_pack_size,
        );
        proof {
            assert(shape_finishes(
                world_size as nat,
                num_local_vars as nat,
                num_field_bits as nat,
                field_pack_size as nat,
                d0,
            ));
        }
        let code_instance = OrionCode::new(code_param_instance, msg_size, rng);
        let srs = OrionSRS { num_vars: scaled_num_local_vars, num_leaves_per_mt_query, code_instance };
        (srs, scaled_num_local_vars)
    }

    /// How many field elements of the local polynomial each codeword
    /// position carries: `2^num_vars` divided by the message length.
    pub fn local_num_fs_per_query(&self) -> (r: usize)
        requires
            self.num_vars < usize::BITS,
            self.code_instance.msg_len > 0,
        ensures
            r == pow2(self.num_vars as nat) / (self.code_instance.msg_len as nat),
    {
        proof {
            lemma_usize_pow2_no_overflow(self.num_vars as nat);
            lemma_usize_shl_is_mul(1, self.num_vars);
        }
        let local_poly_len = 1usize << self.num_vars;
        local_poly_len / self.code_instance.msg_len()
    }

    /// The code's message length.
    pub fn message_len(&self) -> (r: usize)
        ensures
            r == self.code_instance.msg_len,
    {
        self.code_instance.msg_len()
    }

    /// The code's codeword length.
    pub fn codeword_len(&self) -> (r: usize)
        ensures
            r == self.code_instance.codeword_len,
    {
        self.code_instance.code_len()
    }

    /// The code's relative distance.
    pub fn minimum_hamming_weight(&self) -> (r: OrionRatio)
        ensures
            r == self.code_instance.hamming_weight,
    {
        self.code_instance.hamming_weight()
    }

    /// The number of leaves a Merkle query opens.
    pub fn num_leaves_per_mt_query(&self) -> (r: usize)
        ensures
            r == self.num_leaves_per_mt_query,
    {
        self.num_leaves_per_mt_query
    }
}

/// The power of two reached from `p` is at least `x` and at least `p`.
proof fn lemma_next_pow2_from_ge(x: nat, p: nat)
    requires
        p >= 1,
    ensures
        next_pow2_from(x, p) >= x,
        next_pow2_from(x, p) >= p,
    decreases (if p < x { x - p } else { 0 }),
{
    if p < x {
        lemma_next_pow2_from_ge(x, 2 * p);
    }
}

/// Entry `col` of row `row` of a matrix stored row after row, `width`
/// entries to a row.
pub open spec fn matrix_entry<T>(s: Seq<T>, row: int, col: int, width: int) -> T {
    s[row * width + col]
}

/// `transpose::transpose_inplace`: `buffer`, read as `height` rows of `width`
/// entries, becomes its transpose, `width` rows of `height` entries. The
/// crate panics unless `buffer` has `width * height` entries and `scratch`
/// exactly `max(width, height)`; what `scratch` holds afterwards is left
/// unsaid.
#[verifier::external_body]
fn transpose_in_place<F: Copy>(buffer: &mut Vec<F>, scratch: &mut Vec<F>, width: usize, height: usize)
    requires
        width > 0,
        height > 0,
        old(buffer)@.len() == width * height,
        old(scratch)@.len() == if width < height {
            height
        } else {
            width
        },
    ensures
        final(buffer)@.len() == old(buffer)@.len(),
        final(scratch)@.len() == old(scratch)@.len(),
        forall|i: int, j: int|
            0 <= i < height && 0 <= j < width ==> #[trigger] matrix_entry(final(buffer)@, j, i, height as int)
                == matrix_entry(old(buffer)@, i, j, width as int),
{
    transpose::transpose_inplace(buffer.as_mut_slice(), scratch.as_mut_slice(), width, height);
}

/// The matrix that Orion commits to: each of the `num_rows` rows of
/// `evals` (of the code's message length) encoded, the codewords laid as
/// columns (row `j` holds entry `j` of every codeword), padded with zeros to
/// a power of two.
pub fn interleaved_codewords<F: Field>(code: &OrionCode, evals: &[F], num_rows: usize) -> (r: Vec<F>)
    requires
        code_well_formed(*code),
        code.codeword_len > 0,
        num_rows > 0,
        evals@.len() == num_rows * code.msg_len,
        num_rows * code.codeword_len <= usize::MAX / 2 + 1,
    ensures
        r@.len() == next_pow2((num_rows * code.codeword_len) as nat),
        forall|i: int, j: int|
            0 <= i < num_rows && 0 <= j < code.codeword_len ==> (#[trigger] matrix_entry(r@, j, i, num_rows as int)).value()
                == encode_message(*code, values(evals@.subrange(i * code.msg_len, (i + 1) * code.msg_len)))[j]
                % F::modulus(),
        forall|k: int| num_rows * code.codeword_len <= k < r@.len() ==> (#[trigger] r@[k]).value() == 0,
{
    let ghost m = F::modulus();
    let cw_len = code.codeword_len;
    let msg_len = code.msg_len;
    let total = num_rows * cw_len;
    let evals_len = evals.len();
    let mut codewords: Vec<F> = Vec::new();
    let mut i: usize = 0;
    while i < num_rows
        invariant
            i <= num_rows,
            m == F::modulus(),
            evals_len == evals@.len(),
            code_well_formed(*code),
            cw_len == code.codeword_len,
            msg_len == code.msg_len,
            total == num_rows * cw_len,
            evals@.len() == num_rows * msg_len,
            codewords@.len() == i * cw_len,
            forall|a: int, j: int|
                0 <= a < i && 0 <= j < cw_len ==> (#[trigger] matrix_entry(codewords@, a, j, cw_len as int)).value()
                    == encode_message(*code, values(evals@.subrange(a * msg_len, (a + 1) * msg_len)))[j] % m,
        decreases num_rows - i,
    {
        proof {
            assert(i * msg_len + msg_len <= num_rows * msg_len) by (nonlinear_arith)
                requires
                    i < num_rows,
            ;
            assert(i * cw_len + cw_len <= num_rows * cw_len) by (nonlinear_arith)
                requires
                    i < num_rows,
            ;
            assert((i + 1) * msg_len == i * msg_len + msg_len) by (nonlinear_arith);
            assert((i + 1) * cw_len == i * cw_len + cw_len) by (nonlinear_arith);
        }
        let row = slice_subrange(evals, i * msg_len, i * msg_len + msg_len);
        let codeword = match code.encode(row) {
            Ok(c) => c,
            Err(_) => {
                proof {
                    assert(false);
                }
                Vec::new()
            },
        };
        let ghost before = codewords@;
        let mut j: usize = 0;
        while j < cw_len
            invariant
                j <= cw_len,
                i < num_rows,
                cw_len == code.codeword_len,
                codeword@.len() == cw_len,
                forall|t: int| 0 <= t < cw_len ==> #[trigger] codeword@[t].value() == encode_message(*code, values(row@))[t] % F::modulus(),
                before.len() == i * cw_len,
                codewords@.len() == i * cw_len + j,
                forall|k: int| 0 <= k < before.len() ==> #[trigger] codewords@[k] == before[k],
                forall|t: int| 0 <= t < j ==> #[trigger] codewords@[i * cw_len + t] == codeword@[t],
            decreases cw_len - j,
        {
            codewords.push(codeword[j]);
            j = j + 1;
        }
        proof {
            assert forall|a: int, t: int|
                0 <= a < i + 1 && 0 <= t < cw_len implies (#[trigger] matrix_entry(codewords@, a, t, cw_len as int)).value()
                    == encode_message(*code, values(evals@.subrange(a * msg_len, (a + 1) * msg_len)))[t] % m by {
                if a < i {
                    assert(a * cw_len + t < i * cw_len) by (nonlinear_arith)
                        requires
                            a < i,
                            t < cw_len,
                    ;
                    assert(codewords@[a * cw_len + t] == before[a * cw_len + t]);
                    assert(matrix_entry(before, a, t, cw_len as int) == before[a * cw_len + t]);
                } else {
                    assert(a == i);
                    assert(codewords@[i * cw_len + t] == codeword@[t]);
                    assert(row@ == evals@.subrange(a * msg_len, (a + 1) * msg_len));
                }
            }
        }
        i = i + 1;
    }
    let scratch_len = if cw_len < num_rows { num_rows } else { cw_len };
    let mut scratch: Vec<F> = Vec::new();
    let mut k: usize = 0;
    while k < scratch_len
        invariant
            k <= scratch_len,
            scratch@.len() == k,
        decreases scratch_len - k,
    {
        scratch.push(F::zero());
        k = k + 1;
    }
    let ghost encoded = codewords@;
    proof {
        assert(cw_len * num_rows == num_rows * cw_len) by (nonlinear_arith);
    }
    transpose_in_place(&mut codewords, &mut scratch, cw_len, num_rows);
    let ghost transposed = codewords@;
    let padded_len = next_power_of_two(total);
    proof {
        lemma_next_pow2_from_ge(total as nat, 1);
    }
    while codewords.len() < padded_len
        invariant
            total <= codewords@.len() <= padded_len,
            transposed.len() == total,
            forall|k: int| 0 <= k < total ==> #[trigger] codewords@[k] == transposed[k],
            forall|k: int| total <= k < codewords@.len() ==> (#[trigger] codewords@[k]).value() == 0,
        decreases padded_len - codewords@.len(),
    {
        codewords.push(F::zero());
    }
    proof {
        assert forall|a: int, t: int|
            0 <= a < num_rows && 0 <= t < cw_len implies (#[trigger] matrix_entry(codewords@, t, a, num_rows as int)).value()
                == encode_message(*code, values(evals@.subrange(a * msg_len, (a + 1) * msg_len)))[t] % m by {
            assert(matrix_entry(transposed, t, a, num_rows as int) == matrix_entry(encoded, a, t, cw_len as int));
            assert(t * num_rows + a < total) by (nonlinear_arith)
                requires
                    t < cw_len,
                    a < num_rows,
                    total == num_rows * cw_len,
            ;
        }
    }
    codewords
}

} // verus!
