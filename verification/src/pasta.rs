//! The Vesta and Pallas curves: points on Montgomery limbs, points on canonical
//! limbs, and the point operations on the latter.
use crate::certificates;
use crate::chord;
use crate::cubes;
use crate::curve;
use crate::field;
use crate::limbs;
use crate::limbs::sub_y_into_modulus;
use crate::limbs::Pt;
use crate::ops::PointModel;
use crate::ops::PointOps;
use ark_ec::CurveGroup;
use ark_ff::BigInt;
use ark_ff::PrimeField;
use vstd::arithmetic::power2::pow2;
use vstd::prelude::*;

verus! {

/// The order of Vesta's base field, which is that of Pallas's scalar field.
pub open spec fn vesta_modulus() -> nat {
    0x4000_0000_0000_0000_0000_0000_0000_0000_2246_98fc_0994_a8dd_8c46_eb21_0000_0001nat
}

/// The order of Pallas's base field, which is that of Vesta's scalar field.
pub open spec fn pallas_modulus() -> nat {
    0x4000_0000_0000_0000_0000_0000_0000_0000_2246_98fc_094c_f91b_992d_30ed_0000_0001nat
}

/// The inverse of `2^256` in Vesta's base field.
pub open spec fn vesta_r_inverse() -> nat {
    0x1f7a_89dd_1764_7953_5790_be58_c050_df13_c68d_e127_9dc6_01eb_6119_a3dd_8e1a_6f7fnat
}

/// The inverse of `2^256` in Pallas's base field.
pub open spec fn pallas_r_inverse() -> nat {
    0x21f1_c4ff_1e22_78d5_70cb_2996_efc8_9a65_ac9f_ba6a_4077_fc57_cf3f_8e87_53a7_69a9nat
}

/// An affine point. Its coordinates are field elements in Montgomery form: the
/// limbs of `a` times `2^256`, reduced, stand for `a`. The coordinates of the
/// identity say nothing.
#[derive(Clone, Copy, PartialEq, Eq, Debug)]
pub struct Affine {
    pub x: [u64; 4],
    pub y: [u64; 4],
    pub infinity: bool,
}

/// The field element that Montgomery limbs stand for.
pub open spec fn from_montgomery(m: nat, r_inverse: nat, limbs: Seq<u64>) -> nat {
    (limbs::limbs_value(limbs) * r_inverse) % m
}

impl Affine {
    /// Whether the limbs of both coordinates are reduced.
    pub open spec fn is_reduced(self, m: nat) -> bool {
        limbs::limbs_value(self.x@) < m && limbs::limbs_value(self.y@) < m
    }

    /// The coordinates, whether or not they say something.
    pub open spec fn coords(self, m: nat, r_inverse: nat) -> (nat, nat) {
        (from_montgomery(m, r_inverse, self.x@), from_montgomery(m, r_inverse, self.y@))
    }

    /// The point, where `None` is the identity.
    pub open spec fn point(self, m: nat, r_inverse: nat) -> Option<(nat, nat)> {
        if self.infinity {
            None
        } else {
            Some(self.coords(m, r_inverse))
        }
    }

    /// Whether this is the identity with both coordinates zero.
    pub open spec fn is_zero(self) -> bool {
        self.infinity && limbs::limbs_value(self.x@) == 0 && limbs::limbs_value(self.y@) == 0
    }

    /// The identity, with both coordinates zero.
    pub fn zero() -> (r: Affine)
        ensures
            r.is_zero(),
    {
        let r: Affine = Affine { x: [0u64; 4], y: [0u64; 4], infinity: true };
        proof {
            limbs::lemma_four_limbs(r.x@);
            limbs::lemma_four_limbs(r.y@);
        }
        r
    }
}

/// `Fq::MODULUS` of `ark_vesta`: the limbs of the order of the base field.
#[verifier::external_body]
fn vesta_modulus_limbs() -> (r: [u64; 4])
    ensures
        limbs::limbs_value(r@) == vesta_modulus(),
{
    <ark_vesta::Fq as PrimeField>::MODULUS.0
}

/// `Fr::MODULUS_BIT_SIZE` of `ark_vesta`: scalars have 255 bits.
#[verifier::external_body]
fn vesta_scalar_bits() -> (r: u32)
    ensures
        r == 255,
{
    <ark_vesta::Fr as PrimeField>::MODULUS_BIT_SIZE
}

/// `Fq::into_bigint` of `ark_vesta`: takes an element out of Montgomery form. The
/// result is the reduced number that the element stands for.
#[verifier::external_body]
fn vesta_into_bigint(a: &[u64; 4]) -> (r: [u64; 4])
    requires
        limbs::limbs_value(a@) < vesta_modulus(),
    ensures
        limbs::limbs_value(r@) == from_montgomery(vesta_modulus(), vesta_r_inverse(), a@),
{
    ark_vesta::Fq::new_unchecked(BigInt(*a)).into_bigint().0
}

/// `Fq::from_bigint` of `ark_vesta`: puts a number into Montgomery form, unless it
/// is not below the modulus.
#[verifier::external_body]
fn vesta_from_bigint(a: &[u64; 4]) -> (r: Option<[u64; 4]>)
    ensures
        r is Some <==> limbs::limbs_value(a@) < vesta_modulus(),
        r matches Some(v) ==> limbs::limbs_value(v@) == (limbs::limbs_value(a@) * pow2(256))
            % vesta_modulus(),
{
    ark_vesta::Fq::from_bigint(BigInt(*a)).map(|v| (v.0).0)
}

/// `Affine + Affine` and `CurveGroup::into_affine` of `ark_ec`, on Vesta: the sum of
/// two points by the chord and tangent rule, with reduced coordinates. The identity
/// comes back with both coordinates zero. Only the identity flag of an operand tells
/// whether it is the identity, and nothing asks whether it lies on the curve.
#[verifier::external_body]
fn vesta_sum(p: &Affine, q: &Affine) -> (r: Affine)
    requires
        p.is_reduced(vesta_modulus()),
        q.is_reduced(vesta_modulus()),
    ensures
        r.is_reduced(vesta_modulus()),
        r.point(vesta_modulus(), vesta_r_inverse()) == curve::curve_sum(
            vesta_modulus(),
            p.point(vesta_modulus(), vesta_r_inverse()),
            q.point(vesta_modulus(), vesta_r_inverse()),
        ),
        r.infinity ==> r.is_zero(),
{
    let a = ark_vesta::Affine {
        x: ark_vesta::Fq::new_unchecked(BigInt(p.x)),
        y: ark_vesta::Fq::new_unchecked(BigInt(p.y)),
        infinity: p.infinity,
    };
    let b = ark_vesta::Affine {
        x: ark_vesta::Fq::new_unchecked(BigInt(q.x)),
        y: ark_vesta::Fq::new_unchecked(BigInt(q.y)),
        infinity: q.infinity,
    };
    let s = (a + b).into_affine();
    Affine { x: (s.x.0).0, y: (s.y.0).0, infinity: s.infinity }
}

/// `Fq::MODULUS` of `ark_pallas`: the limbs of the order of the base field.
#[verifier::external_body]
fn pallas_modulus_limbs() -> (r: [u64; 4])
    ensures
        limbs::limbs_value(r@) == pallas_modulus(),
{
    <ark_pallas::Fq as PrimeField>::MODULUS.0
}

/// `Fr::MODULUS_BIT_SIZE` of `ark_pallas`: scalars have 255 bits.
#[verifier::external_body]
fn pallas_scalar_bits() -> (r: u32)
    ensures
        r == 255,
{
    <ark_pallas::Fr as PrimeField>::MODULUS_BIT_SIZE
}

/// `Fq::into_bigint` of `ark_pallas`: takes an element out of Montgomery form. The
/// result is the reduced number that the element stands for.
#[verifier::external_body]
fn pallas_into_bigint(a: &[u64; 4]) -> (r: [u64; 4])
    requires
        limbs::limbs_value(a@) < pallas_modulus(),
    ensures
        limbs::limbs_value(r@) == from_montgomery(pallas_modulus(), pallas_r_inverse(), a@),
{
    ark_pallas::Fq::new_unchecked(BigInt(*a)).into_bigint().0
}

/// `Fq::from_bigint` of `ark_pallas`: puts a number into Montgomery form, unless it
/// is not below the modulus.
#[verifier::external_body]
fn pallas_from_bigint(a: &[u64; 4]) -> (r: Option<[u64; 4]>)
    ensures
        r is Some <==> limbs::limbs_value(a@) < pallas_modulus(),
        r matches Some(v) ==> limbs::limbs_value(v@) == (limbs::limbs_value(a@) * pow2(256))
            % pallas_modulus(),
{
    ark_pallas::Fq::from_bigint(BigInt(*a)).map(|v| (v.0).0)
}

/// `Affine + Affine` and `CurveGroup::into_affine` of `ark_ec`, on Pallas: the sum of
/// two points by the chord and tangent rule, with reduced coordinates. The identity
/// comes back with both coordinates zero. Only the identity flag of an operand tells
/// whether it is the identity, and nothing asks whether it lies on the curve.
#[verifier::external_body]
fn pallas_sum(p: &Affine, q: &Affine) -> (r: Affine)
    requires
        p.is_reduced(pallas_modulus()),
        q.is_reduced(pallas_modulus()),
    ensures
        r.is_reduced(pallas_modulus()),
        r.point(pallas_modulus(), pallas_r_inverse()) == curve::curve_sum(
            pallas_modulus(),
            p.point(pallas_modulus(), pallas_r_inverse()),
            q.point(pallas_modulus(), pallas_r_inverse()),
        ),
        r.infinity ==> r.is_zero(),
{
    let a = ark_pallas::Affine {
        x: ark_pallas::Fq::new_unchecked(BigInt(p.x)),
        y: ark_pallas::Fq::new_unchecked(BigInt(p.y)),
        infinity: p.infinity,
    };
    let b = ark_pallas::Affine {
        x: ark_pallas::Fq::new_unchecked(BigInt(q.x)),
        y: ark_pallas::Fq::new_unchecked(BigInt(q.y)),
        infinity: q.infinity,
    };
    let s = (a + b).into_affine();
    Affine { x: (s.x.0).0, y: (s.y.0).0, infinity: s.infinity }
}

/// A curve of the Pasta pair: its base field, and what the field and the curve
/// compute.
pub trait PastaCurve {
    /// The order of the base field.
    spec fn modulus() -> nat;

    /// The inverse of `2^256` in the base field.
    spec fn r_inverse() -> nat;

    /// The order of the scalar field.
    spec fn scalar_modulus() -> nat;

    /// The order of the base field is prime, and the numbers fit together.
    proof fn lemma_field()
        ensures
            5 < Self::modulus() < pow2(255),
            field::is_prime(Self::modulus()),
            Self::modulus() % 2 == 1,
            pow2(255) < pow2(256),
            (pow2(256) * Self::r_inverse()) % Self::modulus() == 1,
            Self::scalar_modulus() < pow2(254) + pow2(128),
    ;

    /// 5 is no cube in the base field.
    proof fn lemma_no_cube(x: int)
        ensures
            !field::zero(Self::modulus(), x * x * x - 5),
    ;

    /// The limbs of the order of the base field.
    fn modulus_limbs() -> (r: [u64; 4])
        ensures
            limbs::limbs_value(r@) == Self::modulus(),
    ;

    /// The length of a scalar in bits.
    fn scalar_bits() -> (r: u32)
        ensures
            r == 255,
    ;

    /// Takes an element out of Montgomery form.
    fn into_bigint(a: &[u64; 4]) -> (r: [u64; 4])
        requires
            limbs::limbs_value(a@) < Self::modulus(),
        ensures
            limbs::limbs_value(r@) == from_montgomery(Self::modulus(), Self::r_inverse(), a@),
    ;

    /// Puts a number into Montgomery form, unless it is not below the modulus.
    fn from_bigint(a: &[u64; 4]) -> (r: Option<[u64; 4]>)
        ensures
            r is Some <==> limbs::limbs_value(a@) < Self::modulus(),
            r matches Some(v) ==> limbs::limbs_value(v@) == (limbs::limbs_value(a@) * pow2(256))
                % Self::modulus(),
    ;

    /// The sum of two points.
    fn sum_of(p: &Affine, q: &Affine) -> (r: Affine)
        requires
            p.is_reduced(Self::modulus()),
            q.is_reduced(Self::modulus()),
        ensures
            r.is_reduced(Self::modulus()),
            r.point(Self::modulus(), Self::r_inverse()) == curve::curve_sum(
                Self::modulus(),
                p.point(Self::modulus(), Self::r_inverse()),
                q.point(Self::modulus(), Self::r_inverse()),
            ),
            r.infinity ==> r.is_zero(),
    ;
}

/// Point operations on canonical limbs that are those of the curve `C`, on the
/// coordinates that they take.
pub trait PastaModel<C: PastaCurve>: PointModel {
    /// What the operations are, with zeros in the identity's place. They take reduced
    /// coordinates only.
    proof fn lemma_operations(p: (nat, nat), q: (nat, nat))
        ensures
            Self::addable(p, q) ==> curve::in_field(C::modulus(), p) && curve::in_field(
                C::modulus(),
                q,
            ),
            Self::doublable(p) ==> curve::in_field(C::modulus(), p),
            Self::sum(p, q) == curve::flattened(curve::curve_sum(C::modulus(), Some(p), Some(q))),
            Self::twice(p) == curve::flattened(curve::curve_sum(C::modulus(), Some(p), Some(p))),
            Self::negated(p) == (p.0, ((C::modulus() - p.1) % (pow2(256) as int)) as nat),
    ;
}

/// Point operations that take all reduced coordinates.
pub trait CompleteModel<C: PastaCurve>: PastaModel<C> {
    /// Which coordinates they take.
    proof fn lemma_complete(p: (nat, nat), q: (nat, nat))
        ensures
            Self::addable(p, q) <==> curve::in_field(C::modulus(), p) && curve::in_field(
                C::modulus(),
                q,
            ),
            Self::doublable(p) <==> curve::in_field(C::modulus(), p),
            Self::negatable(p),
    ;
}

/// The number `a`, put into Montgomery form and taken out of it, comes back.
proof fn lemma_montgomery_round_trip<C: PastaCurve>(a: nat)
    requires
        a < C::modulus(),
    ensures
        (((a * pow2(256)) % C::modulus()) * C::r_inverse()) % C::modulus() == a,
{
    let m = C::modulus() as int;
    let r = pow2(256) as int;
    let i = C::r_inverse() as int;
    C::lemma_field();
    vstd::arithmetic::div_mod::lemma_mul_mod_noop_left(a * r, i, m);
    assert(a * r * i == a * (r * i)) by (nonlinear_arith);
    vstd::arithmetic::div_mod::lemma_mul_mod_noop_right(a as int, r * i, m);
    vstd::arithmetic::div_mod::lemma_small_mod(a, C::modulus());
}

/// No two reduced limb patterns stand for the same field element. So a point that
/// goes from Montgomery limbs to canonical limbs and back has the limbs it had.
pub proof fn law_montgomery_form_is_unique<C: PastaCurve>(a: Seq<u64>, b: Seq<u64>)
    requires
        a.len() == 4,
        b.len() == 4,
        limbs::limbs_value(a) < C::modulus(),
        limbs::limbs_value(b) < C::modulus(),
        from_montgomery(C::modulus(), C::r_inverse(), a) == from_montgomery(
            C::modulus(),
            C::r_inverse(),
            b,
        ),
    ensures
        a == b,
{
    lemma_back_into_montgomery::<C>(limbs::limbs_value(a));
    lemma_back_into_montgomery::<C>(limbs::limbs_value(b));
    limbs::lemma_limbs_injective(a, b);
}

/// The number `a`, taken out of Montgomery form and put into it, comes back.
proof fn lemma_back_into_montgomery<C: PastaCurve>(a: nat)
    requires
        a < C::modulus(),
    ensures
        (((a * C::r_inverse()) % C::modulus()) * pow2(256)) % C::modulus() == a,
{
    let m = C::modulus() as int;
    let r = pow2(256) as int;
    let i = C::r_inverse() as int;
    C::lemma_field();
    vstd::arithmetic::div_mod::lemma_mul_mod_noop_left(a * i, r, m);
    assert(a * i * r == a * (r * i)) by (nonlinear_arith);
    vstd::arithmetic::div_mod::lemma_mul_mod_noop_right(a as int, r * i, m);
    vstd::arithmetic::div_mod::lemma_small_mod(a, C::modulus());
}

/// No point of the curve lies on the `x` axis: no point is its own negative.
pub proof fn law_no_point_on_axis<C: PastaCurve>(p: (nat, nat))
    requires
        curve::on_curve(C::modulus(), p),
    ensures
        p.1 != 0,
{
    if p.1 == 0 {
        let x = p.0 as int;
        C::lemma_field();
        chord::lemma_on_curve(C::modulus(), p);
        assert((-x) * (-x) * (-x) - 5 == chord::off_curve(x, 0)) by {
            assert((-x) * (-x) * (-x) == -(x * x * x)) by (nonlinear_arith);
        }
        C::lemma_no_cube(-x);
    }
}

/// Negating twice restores the limbs, whatever they are.
pub proof fn law_double_negation<C: PastaCurve, M: PastaModel<C>>(p: (nat, nat))
    requires
        p.1 < pow2(256),
    ensures
        M::negated(M::negated(p)) == p,
{
    let m = C::modulus() as int;
    let w = pow2(256) as int;
    C::lemma_field();
    M::lemma_operations(p, p);
    M::lemma_operations(M::negated(p), p);
    vstd::arithmetic::div_mod::lemma_sub_mod_noop_right(m, m - p.1, w);
    vstd::arithmetic::div_mod::lemma_small_mod(p.1, pow2(256));
}

/// The negative of a reduced point off the `x` axis is its mirror image; it is
/// reduced, and lies on the curve with it.
pub proof fn law_negative_is_mirrored<C: PastaCurve, M: PastaModel<C>>(p: (nat, nat))
    requires
        curve::in_field(C::modulus(), p),
        p.1 != 0,
    ensures
        curve::in_field(C::modulus(), M::negated(p)),
        Some(M::negated(p)) == curve::curve_negative(C::modulus(), Some(p)),
        curve::on_curve(C::modulus(), M::negated(p)) <==> curve::on_curve(C::modulus(), p),
{
    let m = C::modulus() as int;
    let y = p.1 as int;
    C::lemma_field();
    M::lemma_operations(p, p);
    vstd::arithmetic::div_mod::lemma_small_mod((m - y) as nat, pow2(256));
    vstd::arithmetic::div_mod::lemma_small_mod((m - y) as nat, C::modulus());
    M::lemma_operations(M::negated(p), p);
    assert((m - y) * (m - y) == m * (m - 2 * y) + y * y) by (nonlinear_arith);
    vstd::arithmetic::div_mod::lemma_mod_multiples_vanish(m - 2 * y, y * y, m);
}

/// A point off the `x` axis and its negative add up to zeros.
pub proof fn law_sum_with_negative_is_zeros<C: PastaCurve, M: PastaModel<C>>(p: (nat, nat))
    requires
        curve::in_field(C::modulus(), p),
        p.1 != 0,
    ensures
        M::sum(p, M::negated(p)) == (0nat, 0nat),
{
    C::lemma_field();
    M::lemma_operations(p, M::negated(p));
    law_negative_is_mirrored::<C, M>(p);
    vstd::arithmetic::div_mod::lemma_small_mod((C::modulus() - p.1) as nat, C::modulus());
}

/// Zero is its own Montgomery form.
pub proof fn lemma_montgomery_zero<C: PastaCurve>(a: Seq<u64>)
    requires
        limbs::limbs_value(a) == 0,
    ensures
        from_montgomery(C::modulus(), C::r_inverse(), a) == 0,
{
    C::lemma_field();
    vstd::arithmetic::mul::lemma_mul_basics(C::r_inverse() as int);
    vstd::arithmetic::div_mod::lemma_small_mod(0, C::modulus());
}

/// The canonical limbs of a point's coordinates.
pub fn affine_to_canonical<C: PastaCurve>(p: &Affine) -> (r: Pt)
    requires
        p.is_reduced(C::modulus()),
    ensures
        limbs::coords(r) == p.coords(C::modulus(), C::r_inverse()),
        curve::in_field(C::modulus(), limbs::coords(r)),
{
    let x: [u64; 4] = C::into_bigint(&p.x);
    let y: [u64; 4] = C::into_bigint(&p.y);
    let r: Pt = [x[0], x[1], x[2], x[3], y[0], y[1], y[2], y[3]];
    proof {
        C::lemma_field();
        assert(r@.subrange(0, 4) =~= x@);
        assert(r@.subrange(4, 8) =~= y@);
    }
    r
}

/// The point with the coordinates that canonical limbs stand for. It is never the
/// identity.
pub fn canonical_to_affine<C: PastaCurve>(words: &Pt) -> (r: Affine)
    requires
        curve::in_field(C::modulus(), limbs::coords(*words)),
    ensures
        r.is_reduced(C::modulus()),
        r.point(C::modulus(), C::r_inverse()) == Some(limbs::coords(*words)),
{
    let xs: [u64; 4] = [words[0], words[1], words[2], words[3]];
    let ys: [u64; 4] = [words[4], words[5], words[6], words[7]];
    proof {
        C::lemma_field();
        assert(xs@ =~= words@.subrange(0, 4));
        assert(ys@ =~= words@.subrange(4, 8));
        lemma_montgomery_round_trip::<C>(limbs::coords(*words).0);
        lemma_montgomery_round_trip::<C>(limbs::coords(*words).1);
    }
    let x: [u64; 4] = C::from_bigint(&xs).unwrap();
    let y: [u64; 4] = C::from_bigint(&ys).unwrap();
    Affine { x, y, infinity: false }
}

/// `(x, y) := (x, p - y)` on canonical limbs, where `p` is the order of the base
/// field. A `y` of zero becomes `p`, which is not reduced.
pub fn negate_y_canonical<C: PastaCurve>(pt: &mut Pt)
    ensures
        limbs::coords(*final(pt)).0 == limbs::coords(*old(pt)).0,
        limbs::coords(*final(pt)).1 == (C::modulus() - limbs::coords(*old(pt)).1) % (pow2(
            256,
        ) as int),
{
    let modulus: [u64; 4] = C::modulus_limbs();
    sub_y_into_modulus(pt, &modulus);
}

/// The sum of two points on canonical limbs, with zeros in the identity's place.
fn canonical_sum<C: PastaCurve>(p: &Pt, q: &Pt) -> (r: Pt)
    requires
        curve::in_field(C::modulus(), limbs::coords(*p)),
        curve::in_field(C::modulus(), limbs::coords(*q)),
    ensures
        limbs::coords(r) == curve::flattened(
            curve::curve_sum(
                C::modulus(),
                Some(limbs::coords(*p)),
                Some(limbs::coords(*q)),
            ),
        ),
        curve::in_field(C::modulus(), limbs::coords(r)),
{
    let p_aff: Affine = canonical_to_affine::<C>(p);
    let q_aff: Affine = canonical_to_affine::<C>(q);
    let sum: Affine = C::sum_of(&p_aff, &q_aff);
    proof {
        C::lemma_field();
        if sum.infinity {
            lemma_montgomery_zero::<C>(sum.x@);
            lemma_montgomery_zero::<C>(sum.y@);
        }
    }
    affine_to_canonical::<C>(&sum)
}

/// The curve Vesta.
pub struct Vesta;

impl PointModel for Vesta {
    open spec fn addable(p: (nat, nat), q: (nat, nat)) -> bool {
        curve::in_field(vesta_modulus(), p) && curve::in_field(vesta_modulus(), q)
    }

    open spec fn doublable(p: (nat, nat)) -> bool {
        curve::in_field(vesta_modulus(), p)
    }

    open spec fn negatable(p: (nat, nat)) -> bool {
        true
    }

    open spec fn sum(p: (nat, nat), q: (nat, nat)) -> (nat, nat) {
        curve::flattened(curve::curve_sum(vesta_modulus(), Some(p), Some(q)))
    }

    open spec fn twice(p: (nat, nat)) -> (nat, nat) {
        curve::flattened(curve::curve_sum(vesta_modulus(), Some(p), Some(p)))
    }

    open spec fn negated(p: (nat, nat)) -> (nat, nat) {
        (p.0, ((vesta_modulus() - p.1) % (pow2(256) as int)) as nat)
    }
}

impl PointOps<Vesta> for Vesta {
    fn add_in_place(&mut self, p: &mut Pt, q: &Pt) {
        vesta_add_inplace(p, q);
    }

    fn double_in_place(&mut self, p: &mut Pt) {
        vesta_double_inplace(p);
    }

    fn negate_y(&mut self, p: &mut Pt) {
        negate_y_vesta(p);
    }
}

impl PastaCurve for Vesta {
    open spec fn modulus() -> nat {
        vesta_modulus()
    }

    open spec fn r_inverse() -> nat {
        vesta_r_inverse()
    }

    open spec fn scalar_modulus() -> nat {
        pallas_modulus()
    }

    proof fn lemma_field() {
        limbs::lemma_pow2_of_limbs();
        vstd::arithmetic::power2::lemma_pow2_unfold(256);
        vstd::arithmetic::power2::lemma_pow2_unfold(255);
        let quotient =
            0x7dea_2774_5d91_e54d_5e42_f963_0143_7c4e_d6c8_3a91_8393_0e9c_8c46_eb20_ffff_ffffint;
        certificates::lemma_prime_vesta();
        assert(pow2(256) * vesta_r_inverse() == quotient * vesta_modulus() + 1);
        vstd::arithmetic::div_mod::lemma_fundamental_div_mod_converse(
            (pow2(256) * vesta_r_inverse()) as int,
            vesta_modulus() as int,
            quotient,
            1,
        );
    }

    proof fn lemma_no_cube(x: int) {
        cubes::lemma_no_cube_in_vesta(x);
    }

    fn modulus_limbs() -> (r: [u64; 4]) {
        vesta_modulus_limbs()
    }

    fn scalar_bits() -> (r: u32) {
        vesta_scalar_bits()
    }

    fn into_bigint(a: &[u64; 4]) -> (r: [u64; 4]) {
        vesta_into_bigint(a)
    }

    fn from_bigint(a: &[u64; 4]) -> (r: Option<[u64; 4]>) {
        vesta_from_bigint(a)
    }

    fn sum_of(p: &Affine, q: &Affine) -> (r: Affine) {
        vesta_sum(p, q)
    }
}

impl PastaModel<Vesta> for Vesta {
    proof fn lemma_operations(p: (nat, nat), q: (nat, nat)) {
    }
}

impl CompleteModel<Vesta> for Vesta {
    proof fn lemma_complete(p: (nat, nat), q: (nat, nat)) {
    }
}

/// The operations of Vesta by the affine formulas alone, as the precompiles compute them:
/// they add points with different `x` only, and double points off the `x` axis only.
pub struct VestaAffine;

impl PointModel for VestaAffine {
    open spec fn addable(p: (nat, nat), q: (nat, nat)) -> bool {
        curve::in_field(vesta_modulus(), p) && curve::in_field(vesta_modulus(), q) && p.0 != q.0
    }

    open spec fn doublable(p: (nat, nat)) -> bool {
        curve::in_field(vesta_modulus(), p) && p.1 != 0
    }

    open spec fn negatable(p: (nat, nat)) -> bool {
        true
    }

    open spec fn sum(p: (nat, nat), q: (nat, nat)) -> (nat, nat) {
        curve::flattened(curve::curve_sum(vesta_modulus(), Some(p), Some(q)))
    }

    open spec fn twice(p: (nat, nat)) -> (nat, nat) {
        curve::flattened(curve::curve_sum(vesta_modulus(), Some(p), Some(p)))
    }

    open spec fn negated(p: (nat, nat)) -> (nat, nat) {
        (p.0, ((vesta_modulus() - p.1) % (pow2(256) as int)) as nat)
    }
}

impl PastaModel<Vesta> for VestaAffine {
    proof fn lemma_operations(p: (nat, nat), q: (nat, nat)) {
    }
}

impl PointOps<VestaAffine> for Vesta {
    fn add_in_place(&mut self, p: &mut Pt, q: &Pt) {
        vesta_add_inplace(p, q);
    }

    fn double_in_place(&mut self, p: &mut Pt) {
        vesta_double_inplace(p);
    }

    fn negate_y(&mut self, p: &mut Pt) {
        negate_y_vesta(p);
    }
}

/// `p := p + q` on Vesta, with zeros in the identity's place.
pub fn vesta_add_inplace(p: &mut Pt, q: &Pt)
    requires
        curve::in_field(vesta_modulus(), limbs::coords(*old(p))),
        curve::in_field(vesta_modulus(), limbs::coords(*q)),
    ensures
        limbs::coords(*final(p)) == curve::flattened(
            curve::curve_sum(
                vesta_modulus(),
                Some(limbs::coords(*old(p))),
                Some(limbs::coords(*q)),
            ),
        ),
        curve::in_field(vesta_modulus(), limbs::coords(*final(p))),
{
    *p = canonical_sum::<Vesta>(p, q);
}

/// `p := p + p` on Vesta, with zeros in the identity's place.
pub fn vesta_double_inplace(p: &mut Pt)
    requires
        curve::in_field(vesta_modulus(), limbs::coords(*old(p))),
    ensures
        limbs::coords(*final(p)) == curve::flattened(
            curve::curve_sum(
                vesta_modulus(),
                Some(limbs::coords(*old(p))),
                Some(limbs::coords(*old(p))),
            ),
        ),
        curve::in_field(vesta_modulus(), limbs::coords(*final(p))),
{
    *p = canonical_sum::<Vesta>(p, p);
}

/// The canonical limbs of a Vesta point's coordinates.
pub fn affine_to_canonical_vesta(p: &Affine) -> (r: Pt)
    requires
        p.is_reduced(vesta_modulus()),
    ensures
        limbs::coords(r) == p.coords(vesta_modulus(), vesta_r_inverse()),
        curve::in_field(vesta_modulus(), limbs::coords(r)),
{
    affine_to_canonical::<Vesta>(p)
}

/// The Vesta point with the coordinates that canonical limbs stand for.
pub fn canonical_to_affine_vesta(words: &Pt) -> (r: Affine)
    requires
        curve::in_field(vesta_modulus(), limbs::coords(*words)),
    ensures
        r.is_reduced(vesta_modulus()),
        r.point(vesta_modulus(), vesta_r_inverse()) == Some(limbs::coords(*words)),
{
    canonical_to_affine::<Vesta>(words)
}

/// `(x, y) := (x, p - y)` on canonical limbs, where `p` is the order of Vesta's
/// base field.
pub fn negate_y_vesta(pt: &mut Pt)
    ensures
        limbs::coords(*final(pt)).0 == limbs::coords(*old(pt)).0,
        limbs::coords(*final(pt)).1 == (vesta_modulus() - limbs::coords(*old(pt)).1) % (pow2(
            256,
        ) as int),
{
    negate_y_canonical::<Vesta>(pt);
}

/// The curve Pallas.
pub struct Pallas;

impl PointModel for Pallas {
    open spec fn addable(p: (nat, nat), q: (nat, nat)) -> bool {
        curve::in_field(pallas_modulus(), p) && curve::in_field(pallas_modulus(), q)
    }

    open spec fn doublable(p: (nat, nat)) -> bool {
        curve::in_field(pallas_modulus(), p)
    }

    open spec fn negatable(p: (nat, nat)) -> bool {
        true
    }

    open spec fn sum(p: (nat, nat), q: (nat, nat)) -> (nat, nat) {
        curve::flattened(curve::curve_sum(pallas_modulus(), Some(p), Some(q)))
    }

    open spec fn twice(p: (nat, nat)) -> (nat, nat) {
        curve::flattened(curve::curve_sum(pallas_modulus(), Some(p), Some(p)))
    }

    open spec fn negated(p: (nat, nat)) -> (nat, nat) {
        (p.0, ((pallas_modulus() - p.1) % (pow2(256) as int)) as nat)
    }
}

impl PointOps<Pallas> for Pallas {
    fn add_in_place(&mut self, p: &mut Pt, q: &Pt) {
        pallas_add_inplace(p, q);
    }

    fn double_in_place(&mut self, p: &mut Pt) {
        pallas_double_inplace(p);
    }

    fn negate_y(&mut self, p: &mut Pt) {
        negate_y_pallas(p);
    }
}

impl PastaCurve for Pallas {
    open spec fn modulus() -> nat {
        pallas_modulus()
    }

    open spec fn r_inverse() -> nat {
        pallas_r_inverse()
    }

    open spec fn scalar_modulus() -> nat {
        vesta_modulus()
    }

    proof fn lemma_field() {
        limbs::lemma_pow2_of_limbs();
        vstd::arithmetic::power2::lemma_pow2_unfold(256);
        vstd::arithmetic::power2::lemma_pow2_unfold(255);
        let quotient =
            0x87c7_13fc_7889_e355_c32c_a65b_bf22_6996_69c7_60bd_82a1_3db2_992d_30ec_ffff_ffffint;
        certificates::lemma_prime_pallas();
        assert(pow2(256) * pallas_r_inverse() == quotient * pallas_modulus() + 1);
        vstd::arithmetic::div_mod::lemma_fundamental_div_mod_converse(
            (pow2(256) * pallas_r_inverse()) as int,
            pallas_modulus() as int,
            quotient,
            1,
        );
    }

    proof fn lemma_no_cube(x: int) {
        cubes::lemma_no_cube_in_pallas(x);
    }

    fn modulus_limbs() -> (r: [u64; 4]) {
        pallas_modulus_limbs()
    }

    fn scalar_bits() -> (r: u32) {
        pallas_scalar_bits()
    }

    fn into_bigint(a: &[u64; 4]) -> (r: [u64; 4]) {
        pallas_into_bigint(a)
    }

    fn from_bigint(a: &[u64; 4]) -> (r: Option<[u64; 4]>) {
        pallas_from_bigint(a)
    }

    fn sum_of(p: &Affine, q: &Affine) -> (r: Affine) {
        pallas_sum(p, q)
    }
}

impl PastaModel<Pallas> for Pallas {
    proof fn lemma_operations(p: (nat, nat), q: (nat, nat)) {
    }
}

impl CompleteModel<Pallas> for Pallas {
    proof fn lemma_complete(p: (nat, nat), q: (nat, nat)) {
    }
}

/// The operations of Pallas by the affine formulas alone, as the precompiles compute them:
/// they add points with different `x` only, and double points off the `x` axis only.
pub struct PallasAffine;

impl PointModel for PallasAffine {
    open spec fn addable(p: (nat, nat), q: (nat, nat)) -> bool {
        curve::in_field(pallas_modulus(), p) && curve::in_field(pallas_modulus(), q) && p.0 != q.0
    }

    open spec fn doublable(p: (nat, nat)) -> bool {
        curve::in_field(pallas_modulus(), p) && p.1 != 0
    }

    open spec fn negatable(p: (nat, nat)) -> bool {
        true
    }

    open spec fn sum(p: (nat, nat), q: (nat, nat)) -> (nat, nat) {
        curve::flattened(curve::curve_sum(pallas_modulus(), Some(p), Some(q)))
    }

    open spec fn twice(p: (nat, nat)) -> (nat, nat) {
        curve::flattened(curve::curve_sum(pallas_modulus(), Some(p), Some(p)))
    }

    open spec fn negated(p: (nat, nat)) -> (nat, nat) {
        (p.0, ((pallas_modulus() - p.1) % (pow2(256) as int)) as nat)
    }
}

impl PastaModel<Pallas> for PallasAffine {
    proof fn lemma_operations(p: (nat, nat), q: (nat, nat)) {
    }
}

impl PointOps<PallasAffine> for Pallas {
    fn add_in_place(&mut self, p: &mut Pt, q: &Pt) {
        pallas_add_inplace(p, q);
    }

    fn double_in_place(&mut self, p: &mut Pt) {
        pallas_double_inplace(p);
    }

    fn negate_y(&mut self, p: &mut Pt) {
        negate_y_pallas(p);
    }
}

/// `p := p + q` on Pallas, with zeros in the identity's place.
pub fn pallas_add_inplace(p: &mut Pt, q: &Pt)
    requires
        curve::in_field(pallas_modulus(), limbs::coords(*old(p))),
        curve::in_field(pallas_modulus(), limbs::coords(*q)),
    ensures
        limbs::coords(*final(p)) == curve::flattened(
            curve::curve_sum(
                pallas_modulus(),
                Some(limbs::coords(*old(p))),
                Some(limbs::coords(*q)),
            ),
        ),
        curve::in_field(pallas_modulus(), limbs::coords(*final(p))),
{
    *p = canonical_sum::<Pallas>(p, q);
}

/// `p := p + p` on Pallas, with zeros in the identity's place.
pub fn pallas_double_inplace(p: &mut Pt)
    requires
        curve::in_field(pallas_modulus(), limbs::coords(*old(p))),
    ensures
        limbs::coords(*final(p)) == curve::flattened(
            curve::curve_sum(
                pallas_modulus(),
                Some(limbs::coords(*old(p))),
                Some(limbs::coords(*old(p))),
            ),
        ),
        curve::in_field(pallas_modulus(), limbs::coords(*final(p))),
{
    *p = canonical_sum::<Pallas>(p, p);
}

/// The canonical limbs of a Pallas point's coordinates.
pub fn affine_to_canonical_pallas(p: &Affine) -> (r: Pt)
    requires
        p.is_reduced(pallas_modulus()),
    ensures
        limbs::coords(r) == p.coords(pallas_modulus(), pallas_r_inverse()),
        curve::in_field(pallas_modulus(), limbs::coords(r)),
{
    affine_to_canonical::<Pallas>(p)
}

/// The Pallas point with the coordinates that canonical limbs stand for.
pub fn canonical_to_affine_pallas(words: &Pt) -> (r: Affine)
    requires
        curve::in_field(pallas_modulus(), limbs::coords(*words)),
    ensures
        r.is_reduced(pallas_modulus()),
        r.point(pallas_modulus(), pallas_r_inverse()) == Some(limbs::coords(*words)),
{
    canonical_to_affine::<Pallas>(words)
}

/// `(x, y) := (x, p - y)` on canonical limbs, where `p` is the order of Pallas's
/// base field.
pub fn negate_y_pallas(pt: &mut Pt)
    ensures
        limbs::coords(*final(pt)).0 == limbs::coords(*old(pt)).0,
        limbs::coords(*final(pt)).1 == (pallas_modulus() - limbs::coords(*old(pt)).1) % (pow2(
            256,
        ) as int),
{
    negate_y_canonical::<Pallas>(pt);
}

/// The identity with both coordinates zero has its flag set and no limb that is not zero.
pub proof fn law_zero_has_zero_limbs(p: Affine, i: int)
    ensures
        p.is_zero() ==> p.infinity && (0 <= i < 4 ==> p.x@[i] == 0 && p.y@[i] == 0),
        p.infinity && p.x@ == seq![0u64, 0u64, 0u64, 0u64] && p.y@ == seq![0u64, 0u64, 0u64, 0u64]
            ==> p.is_zero(),
{
    limbs::lemma_four_limbs(p.x@);
    limbs::lemma_four_limbs(p.y@);
}

} // verus!
