//! Points of the BN254 groups G1 and G2 and the pairing between them, with the
//! curve arithmetic carried out by `halo2curves`.
//!
//! A point is held as the bytes of its affine coordinates in the form that
//! `group::UncompressedEncoding` writes: each coordinate in canonical
//! little-endian form, and zeros for the identity. Bytes that do not decode
//! are read as the identity. What a group operation
//! returns is named by a spec function of the bytes it is given; the facts of
//! the group that the schemes rest on (that `s G + t G = (s + t) G`, and that
//! the pairing is bilinear and non-degenerate) are stated for points that are
//! known multiples of the generators.

use crate::field::{values, Field};
use crate::fr::{fr_modulus, Fr};
use crate::univariate::dot_prefix;
use halo2curves::bn256::{G1Affine, G2Affine};
use halo2curves::group::UncompressedEncoding;
use vstd::prelude::*;

verus! {

/// A point of G1: the bytes of its affine coordinates `x` then `y`.
#[derive(Clone, Copy, Debug, PartialEq, Eq)]
pub struct G1Point {
    pub raw: [u8; 64],
}

/// A point of G2: the bytes of its affine coordinates `x` then `y`, each an
/// element of the quadratic extension.
#[derive(Clone, Copy, Debug, PartialEq, Eq)]
pub struct G2Point {
    pub raw: [u8; 128],
}

impl View for G1Point {
    type V = Seq<u8>;

    open spec fn view(&self) -> Seq<u8> {
        self.raw@
    }
}

impl View for G2Point {
    type V = Seq<u8>;

    open spec fn view(&self) -> Seq<u8> {
        self.raw@
    }
}

/// The coordinates of each point of a list.
pub open spec fn g1_views(s: Seq<G1Point>) -> Seq<Seq<u8>> {
    Seq::new(s.len(), |i: int| s[i]@)
}

/// The coordinates of each point of a list.
pub open spec fn g2_views(s: Seq<G2Point>) -> Seq<Seq<u8>> {
    Seq::new(s.len(), |i: int| s[i]@)
}

/// `s` is a scalar in canonical form.
pub open spec fn is_scalar(s: int) -> bool {
    0 <= s < fr_modulus()
}

/// The exponent of a multi-scalar multiplication of multiples of the
/// generator: the sum of `c[i] e[i]` modulo r.
pub open spec fn msm_exponent(c: Seq<int>, e: Seq<int>) -> int {
    dot_prefix(c, e, c.len() as int) % fr_modulus()
}

/// The exponent of a product of pairings of multiples of the generators: the
/// sum of `a[i] b[i]` modulo r.
pub open spec fn pairing_exponent(a: Seq<int>, b: Seq<int>) -> int {
    dot_prefix(a, b, a.len() as int) % fr_modulus()
}

/// Every point of `points` is the multiple of the generator of G1 by the
/// matching canonical scalar of `e`.
pub open spec fn g1_multiples(points: Seq<Seq<u8>>, e: Seq<int>) -> bool {
    &&& points.len() == e.len()
    &&& forall|i: int| 0 <= i < e.len() ==> is_scalar(e[i]) && points[i] == g1_generator_mul_of(#[trigger] e[i])
}

/// Every point of `points` is the multiple of the generator of G2 by the
/// matching canonical scalar of `e`.
pub open spec fn g2_multiples(points: Seq<Seq<u8>>, e: Seq<int>) -> bool {
    &&& points.len() == e.len()
    &&& forall|i: int| 0 <= i < e.len() ==> is_scalar(e[i]) && points[i] == g2_generator_mul_of(#[trigger] e[i])
}

/// What `G1Affine::generator() * s` gives for the scalar `s`.
pub uninterp spec fn g1_generator_mul_of(s: int) -> Seq<u8>;

/// What `G2Affine::generator() * s` gives for the scalar `s`.
pub uninterp spec fn g2_generator_mul_of(s: int) -> Seq<u8>;

/// What the sum of two points of G1 is.
pub uninterp spec fn g1_add_of(a: Seq<u8>, b: Seq<u8>) -> Seq<u8>;

/// What the difference of two points of G1 is.
pub uninterp spec fn g1_sub_of(a: Seq<u8>, b: Seq<u8>) -> Seq<u8>;

/// What the multiple of a point of G1 by a scalar is.
pub uninterp spec fn g1_scalar_mul_of(a: Seq<u8>, s: int) -> Seq<u8>;

/// What the difference of two points of G2 is.
pub uninterp spec fn g2_sub_of(a: Seq<u8>, b: Seq<u8>) -> Seq<u8>;

/// What the multi-scalar multiplication of points of G1 by scalars is.
pub uninterp spec fn g1_msm_of(scalars: Seq<int>, bases: Seq<Seq<u8>>) -> Seq<u8>;

/// Whether the product of the pairings of matching points is the identity.
pub uninterp spec fn pairing_check_of(g1s: Seq<Seq<u8>>, g2s: Seq<Seq<u8>>) -> bool;

/// `G1Affine::generator() * s`, the multiple of the generator of G1 by `s`.
#[verifier::external_body]
pub(crate) fn g1_generator_mul(s: &Fr) -> (r: G1Point)
    ensures
        r@ == g1_generator_mul_of(s.value()),
{
    let p: G1Affine = (G1Affine::generator() * halo2curves::bn256::Fr::from_raw(s.limbs)).into();
    G1Point { raw: p.to_uncompressed().into() }
}

/// `G2Affine::generator() * s`, the multiple of the generator of G2 by `s`.
#[verifier::external_body]
pub(crate) fn g2_generator_mul(s: &Fr) -> (r: G2Point)
    ensures
        r@ == g2_generator_mul_of(s.value()),
{
    let p: G2Affine = (G2Affine::generator() * halo2curves::bn256::Fr::from_raw(s.limbs)).into();
    G2Point { raw: p.to_uncompressed().into() }
}

/// `G1Affine::default()`, the identity of G1, whose coordinates are both zero.
#[verifier::external_body]
pub(crate) fn g1_identity() -> (r: G1Point)
    ensures
        r@ == Seq::new(64, |i: int| 0u8),
{
    G1Point { raw: G1Affine::default().to_uncompressed().into() }
}

/// The sum `a + b` of two points of G1 (the `+` operator of `halo2curves`); of
/// multiples of the generator by `u` and `v`, the multiple by `u + v`.
#[verifier::external_body]
pub(crate) fn g1_add(a: &G1Point, b: &G1Point) -> (r: G1Point)
    ensures
        r@ == g1_add_of(a@, b@),
        forall|u: int, v: int|
            #![trigger g1_generator_mul_of(u), g1_generator_mul_of(v)]
            is_scalar(u) && is_scalar(v) && a@ == g1_generator_mul_of(u) && b@ == g1_generator_mul_of(v) ==> r@
                == g1_generator_mul_of((u + v) % fr_modulus()),
{
    let p = Option::<G1Affine>::from(G1Affine::from_uncompressed_unchecked(&a.raw.into())).unwrap_or_default() + Option::<G1Affine>::from(G1Affine::from_uncompressed_unchecked(&b.raw.into())).unwrap_or_default();
    let p: G1Affine = p.into();
    G1Point { raw: p.to_uncompressed().into() }
}

/// The difference `a - b` of two points of G1 (the `-` operator of
/// `halo2curves`); of multiples of the generator by `u` and `v`, the multiple
/// by `u - v`.
#[verifier::external_body]
pub(crate) fn g1_sub(a: &G1Point, b: &G1Point) -> (r: G1Point)
    ensures
        r@ == g1_sub_of(a@, b@),
        forall|u: int, v: int|
            #![trigger g1_generator_mul_of(u), g1_generator_mul_of(v)]
            is_scalar(u) && is_scalar(v) && a@ == g1_generator_mul_of(u) && b@ == g1_generator_mul_of(v) ==> r@
                == g1_generator_mul_of((u - v) % fr_modulus()),
{
    let p = Option::<G1Affine>::from(G1Affine::from_uncompressed_unchecked(&a.raw.into())).unwrap_or_default() - Option::<G1Affine>::from(G1Affine::from_uncompressed_unchecked(&b.raw.into())).unwrap_or_default();
    let p: G1Affine = p.into();
    G1Point { raw: p.to_uncompressed().into() }
}

/// The multiple `a * s` of a point of G1 (the `*` operator of `halo2curves`);
/// of the multiple of the generator by `u`, the multiple by `u s`.
#[verifier::external_body]
pub(crate) fn g1_scalar_mul(a: &G1Point, s: &Fr) -> (r: G1Point)
    ensures
        r@ == g1_scalar_mul_of(a@, s.value()),
        forall|u: int|
            #![trigger g1_generator_mul_of(u)]
            is_scalar(u) && a@ == g1_generator_mul_of(u) ==> r@ == g1_generator_mul_of((u * s.value()) % fr_modulus()),
{
    let p = Option::<G1Affine>::from(G1Affine::from_uncompressed_unchecked(&a.raw.into())).unwrap_or_default() * halo2curves::bn256::Fr::from_raw(s.limbs);
    let p: G1Affine = p.into();
    G1Point { raw: p.to_uncompressed().into() }
}

/// The difference `a - b` of two points of G2 (the `-` operator of
/// `halo2curves`); of multiples of the generator by `u` and `v`, the multiple
/// by `u - v`.
#[verifier::external_body]
pub(crate) fn g2_sub(a: &G2Point, b: &G2Point) -> (r: G2Point)
    ensures
        r@ == g2_sub_of(a@, b@),
        forall|u: int, v: int|
            #![trigger g2_generator_mul_of(u), g2_generator_mul_of(v)]
            is_scalar(u) && is_scalar(v) && a@ == g2_generator_mul_of(u) && b@ == g2_generator_mul_of(v) ==> r@
                == g2_generator_mul_of((u - v) % fr_modulus()),
{
    let p = Option::<G2Affine>::from(G2Affine::from_uncompressed_unchecked(&a.raw.into())).unwrap_or_default() - Option::<G2Affine>::from(G2Affine::from_uncompressed_unchecked(&b.raw.into())).unwrap_or_default();
    let p: G2Affine = p.into();
    G2Point { raw: p.to_uncompressed().into() }
}

/// `halo2curves::msm::msm_serial` started from the identity of G1: the sum of
/// `coeffs[i]` times `bases[i]`; of multiples of the generator by `e[i]`, the
/// multiple by the sum of `coeffs[i] e[i]`. The function panics when the
/// lengths differ.
#[verifier::external_body]
pub(crate) fn g1_msm(coeffs: &[Fr], bases: &[G1Point]) -> (r: G1Point)
    requires
        coeffs@.len() == bases@.len(),
    ensures
        r@ == g1_msm_of(values(coeffs@), g1_views(bases@)),
        forall|e: Seq<int>|
            #![trigger msm_exponent(values(coeffs@), e)]
            g1_multiples(g1_views(bases@), e) ==> r@ == g1_generator_mul_of(msm_exponent(values(coeffs@), e)),
{
    let scalars: Vec<halo2curves::bn256::Fr> = coeffs.iter().map(|c| halo2curves::bn256::Fr::from_raw(c.limbs)).collect();
    let points: Vec<G1Affine> = bases.iter().map(|b| Option::<G1Affine>::from(G1Affine::from_uncompressed_unchecked(&b.raw.into())).unwrap_or_default()).collect();
    let mut acc = <halo2curves::bn256::G1 as halo2curves::group::Group>::identity();
    halo2curves::msm::msm_serial(&scalars, &points, &mut acc);
    let p: G1Affine = acc.into();
    G1Point { raw: p.to_uncompressed().into() }
}

/// `halo2curves::bn256::multi_miller_loop` on the pairs `(g1s[i], g2s[i])`,
/// followed by the final exponentiation: whether the product of the pairings
/// is the identity of the target group. The pairing is bilinear and the
/// generators pair to an element of order r, so for multiples of the
/// generators by `a[i]` and `b[i]` it is the identity exactly when the sum of
/// `a[i] b[i]` is zero modulo r.
#[verifier::external_body]
pub(crate) fn pairing_product_is_identity(g1s: &[G1Point], g2s: &[G2Point]) -> (r: bool)
    requires
        g1s@.len() == g2s@.len(),
    ensures
        r == pairing_check_of(g1_views(g1s@), g2_views(g2s@)),
        forall|a: Seq<int>, b: Seq<int>|
            #![trigger pairing_exponent(a, b)]
            g1_multiples(g1_views(g1s@), a) && g2_multiples(g2_views(g2s@), b) ==> (r <==> pairing_exponent(a, b)
                == 0),
{
    let p1: Vec<G1Affine> = g1s.iter().map(|p| Option::<G1Affine>::from(G1Affine::from_uncompressed_unchecked(&p.raw.into())).unwrap_or_default()).collect();
    let p2: Vec<G2Affine> = g2s.iter().map(|p| Option::<G2Affine>::from(G2Affine::from_uncompressed_unchecked(&p.raw.into())).unwrap_or_default()).collect();
    let terms: Vec<(&G1Affine, &G2Affine)> = p1.iter().zip(p2.iter()).collect();
    let ml = halo2curves::bn256::multi_miller_loop(&terms);
    bool::from(halo2curves::group::Group::is_identity(
        &halo2curves::pairing::MillerLoopResult::final_exponentiation(&ml),
    ))
}

} // verus!
