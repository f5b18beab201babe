//! Multi-scalar multiplication on Vesta and Pallas.
use crate::conic;
use crate::correctness;
use crate::curve;
use crate::digits;
use crate::limbs;
use crate::limbs::Pt;
use crate::ops;
use crate::ops::Call;
use crate::ops::PointOps;
use crate::ops::Traced;
use crate::pasta;
use crate::pasta::affine_to_canonical;
use crate::pasta::affine_to_canonical_vesta;
use crate::pasta::canonical_to_affine;
use crate::pasta::canonical_to_affine_vesta;
use crate::pasta::vesta_add_inplace;
use crate::pasta::Affine;
use crate::pasta::CompleteModel;
use crate::pasta::Pallas;
use crate::pasta::PastaCurve;
use crate::pasta::PastaModel;
use crate::pasta::Vesta;
use crate::pippenger;
use crate::pippenger::pippenger_with_ops;
use crate::runs;
use vstd::arithmetic::power2::pow2;
use vstd::prelude::*;

verus! {

/// The coordinates of each base.
pub open spec fn base_coords<C: PastaCurve>(bases: Seq<Affine>) -> Seq<(nat, nat)> {
    Seq::new(bases.len(), |i: int| bases[i].coords(C::modulus(), C::r_inverse()))
}

/// The points that bases stand for.
pub open spec fn base_points<C: PastaCurve>(bases: Seq<Affine>) -> Seq<Option<(nat, nat)>> {
    Seq::new(bases.len(), |i: int| bases[i].point(C::modulus(), C::r_inverse()))
}

/// What the bucket method makes of the bases and scalars.
pub open spec fn msm_slot<C: PastaCurve, M: PastaModel<C>>(
    bases: Seq<Affine>,
    scalars: Seq<[u64; 4]>,
) -> Option<(nat, nat)> {
    let n = pippenger::shorter(bases.len(), scalars.len());
    if n == 0 {
        None
    } else {
        pippenger::bucket_method::<M>(
            base_coords::<C>(bases.take(n as int)),
            pippenger::all_values(scalars.take(n as int)),
            255,
        )
    }
}

/// The calls that are made to the point operations, the first one first.
pub open spec fn msm_calls<C: PastaCurve, M: PastaModel<C>>(
    bases: Seq<Affine>,
    scalars: Seq<[u64; 4]>,
) -> Seq<Call> {
    let n = pippenger::shorter(bases.len(), scalars.len());
    if n == 0 {
        Seq::empty()
    } else {
        pippenger::bucket_method_calls::<M>(
            base_coords::<C>(bases.take(n as int)),
            pippenger::all_values(scalars.take(n as int)),
            255,
        )
    }
}

/// Whether these bases and scalars can be multiplied: the coordinates of the bases
/// are reduced, the digits of the scalars fit their table and their buckets, the
/// operations take every call that is made to them, and what comes out is reduced.
pub open spec fn msm_accepts<C: PastaCurve, M: PastaModel<C>>(
    bases: Seq<Affine>,
    scalars: Seq<[u64; 4]>,
) -> bool {
    let n = pippenger::shorter(bases.len(), scalars.len());
    n > 0 ==> {
        &&& forall|i: int| 0 <= i < n ==> (#[trigger] bases[i]).is_reduced(C::modulus())
        &&& pippenger::table_fits(n, 255)
        &&& pippenger::fits::<M>(
            base_coords::<C>(bases.take(n as int)),
            pippenger::all_values(scalars.take(n as int)),
            255,
        )
        &&& runs::slot_is(reduced::<C>(), msm_slot::<C, M>(bases, scalars))
    }
}

/// Which coordinates are reduced.
pub open spec fn reduced<C: PastaCurve>() -> spec_fn((nat, nat)) -> bool {
    |p: (nat, nat)| curve::in_field(C::modulus(), p)
}

/// The point that comes out: the bucket method's sum, where zeros take the
/// identity's place.
pub open spec fn msm_point<C: PastaCurve, M: PastaModel<C>>(
    bases: Seq<Affine>,
    scalars: Seq<[u64; 4]>,
) -> Option<(nat, nat)> {
    match msm_slot::<C, M>(bases, scalars) {
        None => None,
        Some(p) => curve::unflattened(p),
    }
}

fn is_all_zero(p: &Pt) -> (r: bool)
    ensures
        r <==> limbs::coords(*p) == (0nat, 0nat),
{
    proof {
        limbs::lemma_four_limbs(p@.subrange(0, 4));
        limbs::lemma_four_limbs(p@.subrange(4, 8));
    }
    p[0] == 0 && p[1] == 0 && p[2] == 0 && p[3] == 0 && p[4] == 0 && p[5] == 0 && p[6] == 0 && p[7]
        == 0
}

fn same_limbs(a: &[u64; 4], b: &[u64; 4]) -> (r: bool)
    ensures
        r <==> a@ == b@,
{
    let r: bool = a[0] == b[0] && a[1] == b[1] && a[2] == b[2] && a[3] == b[3];
    assert(r ==> a@ =~= b@);
    r
}

/// The sum of each base times its scalar, by any implementation of the curve's point
/// operations. Bases and scalars beyond the shorter of the two slices are left out.
pub fn msm_with_ops<C: PastaCurve, M: PastaModel<C>, O: PointOps<M>>(
    bases: &[Affine],
    scalars: &[[u64; 4]],
    ops: &mut Traced<O>,
) -> (r: Affine)
    requires
        msm_accepts::<C, M>(bases@, scalars@),
    ensures
        r.is_reduced(C::modulus()),
        r.point(C::modulus(), C::r_inverse()) == msm_point::<C, M>(bases@, scalars@),
        r.infinity ==> r.is_zero(),
        final(ops).calls() == old(ops).calls() + msm_calls::<C, M>(bases@, scalars@),
{
    proof {
        C::lemma_field();
    }
    let n: usize = if bases.len() <= scalars.len() {
        bases.len()
    } else {
        scalars.len()
    };
    if n == 0 {
        assert(ops.calls() =~= old(ops).calls() + msm_calls::<C, M>(bases@, scalars@));
        return Affine::zero();
    }
    let mut canonical_bases: Vec<Pt> = Vec::with_capacity(n);
    let mut scalar_limbs: Vec<[u64; 4]> = Vec::with_capacity(n);
    for i in 0..n
        invariant
            n <= bases@.len(),
            n <= scalars@.len(),
            forall|k: int| 0 <= k < n ==> (#[trigger] bases@[k]).is_reduced(C::modulus()),
            canonical_bases@.len() == i,
            scalar_limbs@.len() == i,
            forall|k: int|
                0 <= k < i ==> limbs::coords(#[trigger] canonical_bases@[k]) == bases@[k].coords(
                    C::modulus(),
                    C::r_inverse(),
                ),
            forall|k: int| 0 <= k < i ==> #[trigger] scalar_limbs@[k] == scalars@[k],
    {
        canonical_bases.push(affine_to_canonical::<C>(&bases[i]));
        scalar_limbs.push(scalars[i]);
    }
    let num_bits: usize = C::scalar_bits() as usize;
    proof {
        assert(pippenger::all_coords(canonical_bases@.take(n as int)) =~= base_coords::<C>(
            bases@.take(n as int),
        ));
        assert(scalar_limbs@.take(n as int) =~= scalars@.take(n as int));
    }
    let result: Pt = pippenger_with_ops::<M, O>(
        canonical_bases.as_slice(),
        scalar_limbs.as_slice(),
        num_bits,
        ops,
    );
    if is_all_zero(&result) {
        Affine::zero()
    } else {
        canonical_to_affine::<C>(&result)
    }
}

/// The sum of each Vesta base times its scalar. Bases and scalars beyond the
/// shorter of the two slices are left out.
pub fn msm_vesta(bases: &[Affine], scalars: &[[u64; 4]]) -> (r: Affine)
    requires
        msm_accepts::<Vesta, Vesta>(bases@, scalars@),
    ensures
        r.is_reduced(pasta::vesta_modulus()),
        r.point(pasta::vesta_modulus(), pasta::vesta_r_inverse()) == msm_point::<Vesta, Vesta>(
            bases@,
            scalars@,
        ),
        r.infinity ==> r.is_zero(),
{
    let mut ops: Traced<Vesta> = Traced::new(Vesta);
    msm_with_ops::<Vesta, Vesta, Vesta>(bases, scalars, &mut ops)
}

/// The sum of each Pallas base times its scalar. Bases and scalars beyond the
/// shorter of the two slices are left out.
pub fn msm_pallas(bases: &[Affine], scalars: &[[u64; 4]]) -> (r: Affine)
    requires
        msm_accepts::<Pallas, Pallas>(bases@, scalars@),
    ensures
        r.is_reduced(pasta::pallas_modulus()),
        r.point(pasta::pallas_modulus(), pasta::pallas_r_inverse()) == msm_point::<Pallas, Pallas>(
            bases@,
            scalars@,
        ),
        r.infinity ==> r.is_zero(),
{
    let mut ops: Traced<Pallas> = Traced::new(Pallas);
    msm_with_ops::<Pallas, Pallas, Pallas>(bases, scalars, &mut ops)
}

/// Whether coordinates are those of the sum of two points of a curve.
pub open spec fn is_sum_of<C: PastaCurve>(
    got: (nat, nat),
    a: Option<(nat, nat)>,
    b: Option<(nat, nat)>,
) -> bool {
    curve::curve_sum(C::modulus(), a, b) == Some(got)
}

/// Whether canonical limbs are those of the sum of two Vesta points. There are none for
/// the identity.
pub fn is_vesta_sum(got: &Pt, a: &Affine, b: &Affine) -> (r: bool)
    requires
        curve::in_field(pasta::vesta_modulus(), limbs::coords(*got)),
        a.is_reduced(pasta::vesta_modulus()),
        b.is_reduced(pasta::vesta_modulus()),
    ensures
        ({
            let m = pasta::vesta_modulus();
            let i = pasta::vesta_r_inverse();
            &&& r <==> curve::curve_sum(m, a.point(m, i), b.point(m, i)) == Some(
                limbs::coords(*got),
            )
            &&& r <==> is_sum_of::<Vesta>(limbs::coords(*got), a.point(m, i), b.point(m, i))
        }),
{
    let got: Affine = canonical_to_affine_vesta(got);
    let expected: Affine = Vesta::sum_of(a, b);
    proof {
        let m = pasta::vesta_modulus();
        let i = pasta::vesta_r_inverse();
        if got.point(m, i) == expected.point(m, i) {
            pasta::law_montgomery_form_is_unique::<Vesta>(got.x@, expected.x@);
            pasta::law_montgomery_form_is_unique::<Vesta>(got.y@, expected.y@);
        }
    }
    same_limbs(&got.x, &expected.x) && same_limbs(&got.y, &expected.y) && got.infinity
        == expected.infinity
}

/// Whether `vesta_add_inplace` on the canonical limbs of two points gives the limbs
/// of their sum. Of two points that are not the identity, it does unless the sum is,
/// for which there are no canonical limbs.
pub fn smoke_test_vesta_add(a: &Affine, b: &Affine) -> (r: bool)
    requires
        a.is_reduced(pasta::vesta_modulus()),
        b.is_reduced(pasta::vesta_modulus()),
    ensures
        ({
            let m = pasta::vesta_modulus();
            let i = pasta::vesta_r_inverse();
            let expected = curve::curve_sum(m, a.point(m, i), b.point(m, i));
            &&& r <==> expected == Some(
                curve::flattened(curve::curve_sum(m, Some(a.coords(m, i)), Some(b.coords(m, i)))),
            )
            &&& !a.infinity && !b.infinity ==> (r <==> expected is Some)
        }),
{
    let mut p: Pt = affine_to_canonical_vesta(a);
    let q: Pt = affine_to_canonical_vesta(b);
    vesta_add_inplace(&mut p, &q);
    is_vesta_sum(&p, a, b)
}

/// Whether the `BN254_ADD` precompile can be called. There is none outside the
/// zkVM, and nothing to call: the answer is yes.
pub fn smoke_test_bn254_add() -> (r: bool)
    ensures
        r,
{
    true
}

/// Whether the `VESTA_ADD` precompile can be called. There is none outside the
/// zkVM, and nothing to call: the answer is yes.
pub fn smoke_test_vesta_add_dummy() -> (r: bool)
    ensures
        r,
{
    true
}

/// Bases and scalars beyond the shorter of the two sequences change nothing.
pub proof fn law_excess_is_left_out<C: PastaCurve, M: PastaModel<C>>(
    bases: Seq<Affine>,
    scalars: Seq<[u64; 4]>,
)
    ensures
        ({
            let n = pippenger::shorter(bases.len(), scalars.len()) as int;
            &&& msm_accepts::<C, M>(bases, scalars) <==> msm_accepts::<C, M>(
                bases.take(n),
                scalars.take(n),
            )
            &&& msm_point::<C, M>(bases, scalars) == msm_point::<C, M>(
                bases.take(n),
                scalars.take(n),
            )
            &&& msm_calls::<C, M>(bases, scalars) == msm_calls::<C, M>(
                bases.take(n),
                scalars.take(n),
            )
        }),
{
    let n = pippenger::shorter(bases.len(), scalars.len()) as int;
    assert(bases.take(n).take(n) =~= bases.take(n));
    assert(scalars.take(n).take(n) =~= scalars.take(n));
    assert forall|i: int| 0 <= i < n implies #[trigger] bases[i] == bases.take(n)[i] by {}
}

/// Every scalar below the order of the scalar field is accepted, with every reduced
/// base off the `x` axis.
pub proof fn law_reduced_scalars_are_accepted<C: PastaCurve, M: CompleteModel<C>>(
    bases: Seq<Affine>,
    scalars: Seq<[u64; 4]>,
)
    requires
        ({
            let n = pippenger::shorter(bases.len(), scalars.len());
            &&& pippenger::table_fits(n, 255)
            &&& forall|i: int|
                0 <= i < n ==> (#[trigger] bases[i]).is_reduced(C::modulus()) && bases[i].coords(
                    C::modulus(),
                    C::r_inverse(),
                ).1 != 0
            &&& forall|i: int|
                0 <= i < n ==> limbs::limbs_value((#[trigger] scalars[i])@) < C::scalar_modulus()
        }),
    ensures
        msm_accepts::<C, M>(bases, scalars),
{
    let n = pippenger::shorter(bases.len(), scalars.len());
    if n > 0 {
        let c = pippenger::window_width(n);
        let count = digits::window_count(255, c);
        let pts = base_coords::<C>(bases.take(n as int));
        let vals = pippenger::all_values(scalars.take(n as int));
        C::lemma_field();
        pippenger::lemma_window_width(n);
        lemma_windows_cover(c);
        assert forall|i: int| 0 <= i < n implies reduced::<C>()(
            #[trigger] pts[i],
        ) && reduced::<C>()(M::negated(pts[i])) by {
            assert(bases[i].is_reduced(C::modulus()));
            pasta::law_negative_is_mirrored::<C, M>(pts[i]);
        }
        lemma_reduced_is_kept::<C, M>();
        runs::law_run_keeps::<M>(reduced::<C>(), pts, vals, 255);
        let calls = pippenger::bucket_method_calls::<M>(pts, vals, 255);
        assert forall|i: int| 0 <= i < calls.len() implies ops::taking::<M>()(
            #[trigger] calls[i],
        ) by {
            assert(runs::among(reduced::<C>())(calls[i]));
            match calls[i] {
                Call::Add(p, q) => M::lemma_complete(p, q),
                Call::Double(p) => M::lemma_complete(p, p),
                Call::Negate(p) => M::lemma_complete(p, p),
            }
        }
        assert forall|i: int| 0 <= i < n implies #[trigger] vals[i] % pow2(c * count)
            <= digits::largest_with_top(c, count, pow2((c - 1) as nat) as int) by {
            assert(limbs::limbs_value(scalars[i]@) < C::scalar_modulus());
            vstd::arithmetic::div_mod::lemma_mod_decreases(vals[i], pow2(c * count));
        }
    }
}

/// Every scalar below the order of the scalar field is accepted, with every base on
/// the curve.
pub proof fn law_points_are_accepted<C: PastaCurve, M: CompleteModel<C>>(
    bases: Seq<Affine>,
    scalars: Seq<[u64; 4]>,
)
    requires
        ({
            let n = pippenger::shorter(bases.len(), scalars.len());
            &&& pippenger::table_fits(n, 255)
            &&& forall|i: int|
                0 <= i < n ==> (#[trigger] bases[i]).is_reduced(C::modulus()) && curve::on_curve(
                    C::modulus(),
                    bases[i].coords(C::modulus(), C::r_inverse()),
                )
            &&& forall|i: int|
                0 <= i < n ==> limbs::limbs_value((#[trigger] scalars[i])@) < C::scalar_modulus()
        }),
    ensures
        msm_accepts::<C, M>(bases, scalars),
{
    let n = pippenger::shorter(bases.len(), scalars.len());
    assert forall|i: int| 0 <= i < n implies (#[trigger] bases[i]).is_reduced(C::modulus())
        && bases[i].coords(C::modulus(), C::r_inverse()).1 != 0 by {
        pasta::law_no_point_on_axis::<C>(bases[i].coords(C::modulus(), C::r_inverse()));
    }
    law_reduced_scalars_are_accepted::<C, M>(bases, scalars);
}

/// Sums and doubles are reduced.
proof fn lemma_reduced_is_kept<C: PastaCurve, M: PastaModel<C>>()
    ensures
        runs::keeps::<M>(reduced::<C>()),
{
    C::lemma_field();
    assert forall|p: (nat, nat), q: (nat, nat)|
        reduced::<C>()(p) && reduced::<C>()(q) implies reduced::<C>()(#[trigger] M::sum(p, q)) by {
        M::lemma_operations(p, q);
    }
    assert forall|p: (nat, nat)| reduced::<C>()(p) implies reduced::<C>()(
        #[trigger] M::twice(p),
    ) by {
        M::lemma_operations(p, p);
    }
}

/// Scalars that are all zero give the identity without a call to the point operations,
/// whatever the bases are.
pub proof fn law_zero_scalars_give_identity<C: PastaCurve, M: PastaModel<C>>(
    bases: Seq<Affine>,
    scalars: Seq<[u64; 4]>,
)
    requires
        forall|i: int|
            0 <= i < pippenger::shorter(bases.len(), scalars.len()) ==> limbs::limbs_value(
                (#[trigger] scalars[i])@,
            ) == 0,
    ensures
        msm_point::<C, M>(bases, scalars) is None,
        msm_calls::<C, M>(bases, scalars) == Seq::<Call>::empty(),
        ({
            let n = pippenger::shorter(bases.len(), scalars.len());
            pippenger::table_fits(n, 255) && (forall|i: int|
                0 <= i < n ==> (#[trigger] bases[i]).is_reduced(C::modulus()))
                ==> msm_accepts::<C, M>(bases, scalars)
        }),
{
    let n = pippenger::shorter(bases.len(), scalars.len());
    if n > 0 {
        let vals = pippenger::all_values(scalars.take(n as int));
        assert forall|i: int| 0 <= i < n implies #[trigger] vals[i] == 0 by {
            assert(limbs::limbs_value(scalars[i]@) == 0);
        }
        runs::law_zero_scalars_call_nothing::<M>(
            base_coords::<C>(bases.take(n as int)),
            vals,
            255,
        );
    }
}

/// One base with the scalar one comes out as it went in, without a call to the point
/// operations.
pub proof fn law_scalar_one_gives_base<C: PastaCurve, M: PastaModel<C>>(
    base: Affine,
    scalar: [u64; 4],
)
    requires
        base.is_reduced(C::modulus()),
        limbs::limbs_value(scalar@) == 1,
    ensures
        msm_accepts::<C, M>(seq![base], seq![scalar]),
        msm_point::<C, M>(seq![base], seq![scalar]) == curve::unflattened(
            base.coords(C::modulus(), C::r_inverse()),
        ),
        msm_calls::<C, M>(seq![base], seq![scalar]) == Seq::<Call>::empty(),
{
    let p = base.coords(C::modulus(), C::r_inverse());
    C::lemma_field();
    assert(base_coords::<C>(seq![base].take(1)) =~= seq![p]);
    assert(pippenger::all_values(seq![scalar].take(1)) =~= seq![1nat]);
    runs::law_scalar_one_copies::<M>(p, 255);
}

/// Whatever computes the curve's operations, on the coordinates that it takes, makes
/// the same calls and gives the same point; and operations that take all reduced
/// coordinates take every run that any others take.
pub proof fn law_operations_agree<C: PastaCurve, M: PastaModel<C>, N: CompleteModel<C>>(
    bases: Seq<Affine>,
    scalars: Seq<[u64; 4]>,
)
    ensures
        msm_point::<C, M>(bases, scalars) == msm_point::<C, N>(bases, scalars),
        msm_calls::<C, M>(bases, scalars) == msm_calls::<C, N>(bases, scalars),
        msm_accepts::<C, M>(bases, scalars) ==> msm_accepts::<C, N>(bases, scalars),
{
    let n = pippenger::shorter(bases.len(), scalars.len());
    assert forall|p: (nat, nat), q: (nat, nat)| #[trigger] M::sum(p, q) == N::sum(p, q) by {
        M::lemma_operations(p, q);
        N::lemma_operations(p, q);
    }
    assert forall|p: (nat, nat)| #[trigger] M::twice(p) == N::twice(p) by {
        M::lemma_operations(p, p);
        N::lemma_operations(p, p);
    }
    assert forall|p: (nat, nat)| #[trigger] M::negated(p) == N::negated(p) by {
        M::lemma_operations(p, p);
        N::lemma_operations(p, p);
    }
    if n > 0 {
        let pts = base_coords::<C>(bases.take(n as int));
        let vals = pippenger::all_values(scalars.take(n as int));
        runs::law_same_operations_same_run::<M, N>(pts, vals, 255);
        let calls = pippenger::bucket_method_calls::<M>(pts, vals, 255);
        if msm_accepts::<C, M>(bases, scalars) {
            assert forall|i: int| 0 <= i < calls.len() implies ops::taking::<N>()(
                #[trigger] calls[i],
            ) by {
                assert(ops::taking::<M>()(calls[i]));
                match calls[i] {
                    Call::Add(p, q) => {
                        M::lemma_operations(p, q);
                        N::lemma_complete(p, q);
                    },
                    Call::Double(p) => {
                        M::lemma_operations(p, p);
                        N::lemma_complete(p, p);
                    },
                    Call::Negate(p) => {
                        N::lemma_complete(p, p);
                    },
                }
            }
        }
    }
}

/// How coordinates are read as points of the curve: zeros stand for the identity.
pub open spec fn reading() -> spec_fn((nat, nat)) -> Option<(nat, nat)> {
    |p: (nat, nat)| curve::unflattened(p)
}

/// The calls that treat zeros as the identity: all but additions of zeros and a point.
pub open spec fn keeps_identity() -> spec_fn(Call) -> bool {
    |call: Call|
        match call {
            Call::Add(p, q) => (p == (0nat, 0nat)) == (q == (0nat, 0nat)),
            _ => true,
        }
}

/// Whether a sum that cancels out on the way never meets a point again: no addition
/// of the run has zeros on one side only.
pub open spec fn cancels_nowhere<C: PastaCurve, M: PastaModel<C>>(
    bases: Seq<Affine>,
    scalars: Seq<[u64; 4]>,
) -> bool {
    ops::all_calls(keeps_identity(), msm_calls::<C, M>(bases, scalars))
}

/// The calls that do as the group of the curve's points does.
spec fn follows_group<C: PastaCurve, M: PastaModel<C>>() -> spec_fn(Call) -> bool {
    |call: Call|
        keeps_identity()(call) && runs::negates_into::<M>(reduced::<C>())(call)
}

proof fn lemma_curve_respects<C: PastaCurve, M: PastaModel<C>>()
    ensures
        curve::curve_group(C::modulus()).is_abelian(),
        correctness::respects::<M, Option<(nat, nat)>>(
            curve::curve_group(C::modulus()),
            reading(),
            follows_group::<C, M>(),
        ),
{
    let m = C::modulus();
    let g = curve::curve_group(m);
    let h = reading();
    let safe = follows_group::<C, M>();
    C::lemma_field();
    conic::law_curve_is_a_group(m);
    assert forall|p: (nat, nat)| g.has(h(p)) implies h(#[trigger] M::twice(p)) == g.add(
        h(p),
        h(p),
    ) by {
        lemma_sum_is_read::<C>(p, p);
        M::lemma_operations(p, p);
    }
    assert forall|p: (nat, nat), q: (nat, nat)|
        g.has(h(p)) && g.has(h(q)) && safe(Call::Add(p, q)) implies h(
        #[trigger] M::sum(p, q),
    ) == g.add(h(p), h(q)) by {
        lemma_sum_is_read::<C>(p, q);
        M::lemma_operations(p, q);
    }
    assert forall|p: (nat, nat)| g.has(h(p)) && safe(Call::Negate(p)) implies h(
        #[trigger] M::negated(p),
    ) == g.neg(h(p)) by {
        M::lemma_operations(p, p);
        vstd::arithmetic::div_mod::lemma_small_mod(m, pow2(256));
        assert(h(p) == Some(p));
        pasta::law_no_point_on_axis::<C>(p);
        pasta::law_negative_is_mirrored::<C, M>(p);
        vstd::arithmetic::div_mod::lemma_small_mod((m - p.1) as nat, m);
        assert(M::negated(p) != (0nat, 0nat));
    }
}

proof fn lemma_origin_is_off_curve(m: nat)
    requires
        m > 5,
    ensures
        !curve::on_curve(m, (0, 0)),
{
    assert(0nat * 0nat == 0 && 0nat * 0nat * 0nat == 0) by (nonlinear_arith);
    vstd::arithmetic::div_mod::lemma_small_mod(0, m);
    vstd::arithmetic::div_mod::lemma_small_mod(5, m);
}

proof fn lemma_sum_is_read<C: PastaCurve>(p: (nat, nat), q: (nat, nat))
    requires
        ({
            let g = curve::curve_group(C::modulus());
            &&& g.is_abelian()
            &&& g.has(curve::unflattened(p))
            &&& g.has(curve::unflattened(q))
        }),
        keeps_identity()(Call::Add(p, q)),
    ensures
        curve::unflattened(
            curve::flattened(curve::curve_sum(C::modulus(), Some(p), Some(q))),
        ) == curve::curve_sum(C::modulus(), curve::unflattened(p), curve::unflattened(q)),
{
    let m = C::modulus();
    C::lemma_field();
    if p != (0nat, 0nat) {
        crate::group::lemma_closed(curve::curve_group(m), Some(p), Some(q));
        lemma_origin_is_off_curve(m);
    }
}

/// An accepted run in which no cancelled sum meets a point does as the group does
/// throughout: no zeros are negated, for the negative would not be reduced.
proof fn lemma_run_follows_group<C: PastaCurve, M: PastaModel<C>>(
    bases: Seq<Affine>,
    scalars: Seq<[u64; 4]>,
)
    requires
        msm_accepts::<C, M>(bases, scalars),
        cancels_nowhere::<C, M>(bases, scalars),
    ensures
        ops::all_calls(follows_group::<C, M>(), msm_calls::<C, M>(bases, scalars)),
{
    let n = pippenger::shorter(bases.len(), scalars.len());
    let calls = msm_calls::<C, M>(bases, scalars);
    if n > 0 {
        assert forall|i: int| 0 <= i < calls.len() implies runs::computes_with(reduced::<C>())(
            #[trigger] calls[i],
        ) by {
            assert(ops::taking::<M>()(calls[i]));
            match calls[i] {
                Call::Add(p, q) => M::lemma_operations(p, q),
                Call::Double(p) => M::lemma_operations(p, p),
                Call::Negate(p) => {},
            }
        }
        runs::law_negatives_are_used::<M>(
            reduced::<C>(),
            base_coords::<C>(bases.take(n as int)),
            pippenger::all_values(scalars.take(n as int)),
            255,
        );
    }
}

/// The result is the sum of each scalar, as far as the windows cover it, times its base,
/// in the group of the curve's points: for bases on the curve, and a run in which no
/// cancelled sum meets a point.
pub proof fn law_msm_is_covered_sum<C: PastaCurve, M: PastaModel<C>>(
    bases: Seq<Affine>,
    scalars: Seq<[u64; 4]>,
)
    requires
        msm_accepts::<C, M>(bases, scalars),
        cancels_nowhere::<C, M>(bases, scalars),
        ({
            let n = pippenger::shorter(bases.len(), scalars.len());
            forall|i: int|
                0 <= i < n ==> curve::on_curve_or_identity(
                    C::modulus(),
                    (#[trigger] bases[i]).point(C::modulus(), C::r_inverse()),
                ) && (bases[i].infinity ==> bases[i].is_zero())
        }),
    ensures
        ({
            let n = pippenger::shorter(bases.len(), scalars.len());
            let c = pippenger::window_width(n);
            let bits = c * digits::window_count(255, c);
            msm_point::<C, M>(bases, scalars) == curve::curve_group(C::modulus()).weighted_sum(
                Seq::new(n, |i: int| (limbs::limbs_value(scalars[i]@) % pow2(bits)) as int),
                base_points::<C>(bases.take(n as int)),
            )
        }),
{
    let m = C::modulus();
    let g = curve::curve_group(m);
    let h = reading();
    let n = pippenger::shorter(bases.len(), scalars.len());
    let c = pippenger::window_width(n);
    let count = digits::window_count(255, c);
    let pts = base_coords::<C>(bases.take(n as int));
    let vals = pippenger::all_values(scalars.take(n as int));
    let points = base_points::<C>(bases.take(n as int));
    let weights = Seq::new(
        n,
        |i: int| (limbs::limbs_value(scalars[i]@) % pow2(c * count)) as int,
    );
    if n > 0 {
        C::lemma_field();
        lemma_curve_respects::<C, M>();
        assert forall|i: int| 0 <= i < n implies #[trigger] correctness::values(h, pts)[i]
            == points[i] && g.has(points[i]) by {
            let b = bases[i];
            assert(curve::on_curve_or_identity(m, b.point(m, C::r_inverse())));
            if b.infinity {
                pasta::lemma_montgomery_zero::<C>(b.x@);
                pasta::lemma_montgomery_zero::<C>(b.y@);
            } else {
                lemma_origin_is_off_curve(m);
            }
        }
        assert(correctness::values(h, pts) =~= points);
        lemma_run_follows_group::<C, M>(bases, scalars);
        correctness::law_bucket_method_is_weighted_sum::<M, Option<(nat, nat)>>(
            g,
            h,
            follows_group::<C, M>(),
            pts,
            vals,
            255,
        );
        assert(weights =~= correctness::covered(vals, c * count));
    }
}

/// The result is the sum of each scalar times its base, in the group of the curve's
/// points: for bases on the curve, scalars that the windows cover, which every
/// scalar below `2^255` is, and a run in which no cancelled sum meets a point.
pub proof fn law_msm_is_weighted_sum<C: PastaCurve, M: PastaModel<C>>(
    bases: Seq<Affine>,
    scalars: Seq<[u64; 4]>,
)
    requires
        msm_accepts::<C, M>(bases, scalars),
        cancels_nowhere::<C, M>(bases, scalars),
        ({
            let n = pippenger::shorter(bases.len(), scalars.len());
            let c = pippenger::window_width(n);
            &&& forall|i: int|
                0 <= i < n ==> curve::on_curve_or_identity(
                    C::modulus(),
                    (#[trigger] bases[i]).point(C::modulus(), C::r_inverse()),
                ) && (bases[i].infinity ==> bases[i].is_zero())
            &&& forall|i: int|
                0 <= i < n ==> limbs::limbs_value((#[trigger] scalars[i])@) < pow2(
                    c * digits::window_count(255, c),
                )
        }),
    ensures
        ({
            let n = pippenger::shorter(bases.len(), scalars.len());
            msm_point::<C, M>(bases, scalars) == curve::curve_group(C::modulus()).weighted_sum(
                Seq::new(n, |i: int| limbs::limbs_value(scalars[i]@) as int),
                base_points::<C>(bases.take(n as int)),
            )
        }),
{
    let n = pippenger::shorter(bases.len(), scalars.len());
    let c = pippenger::window_width(n);
    let bits = c * digits::window_count(255, c);
    law_msm_is_covered_sum::<C, M>(bases, scalars);
    let covered = Seq::new(n, |i: int| (limbs::limbs_value(scalars[i]@) % pow2(bits)) as int);
    let weights = Seq::new(n, |i: int| limbs::limbs_value(scalars[i]@) as int);
    assert forall|i: int| 0 <= i < n implies #[trigger] weights[i] == covered[i] by {
        assert(limbs::limbs_value(scalars[i]@) < pow2(bits));
        vstd::arithmetic::div_mod::lemma_small_mod(limbs::limbs_value(scalars[i]@), pow2(bits));
    }
    assert(weights =~= covered);
}

/// The windows of a scalar begin inside it and cover all of it, and the last digit
/// of a reduced scalar has a bucket.
proof fn lemma_windows_cover(c: nat)
    requires
        3 <= c <= 30,
    ensures
        ({
            let count = digits::window_count(255, c);
            &&& count >= 2
            &&& 255 <= c * count
            &&& (count - 1) * c < 255
            &&& pow2(c * count) > 0
            &&& pow2(254) + pow2(128) <= digits::largest_with_top(
                c,
                count,
                pow2((c - 1) as nat) as int,
            )
        }),
{
    let count = digits::window_count(255, c);
    vstd::arithmetic::div_mod::lemma_fundamental_div_mod(255, c as int);
    let q = (255nat / c) as int;
    let r = (255nat % c) as int;
    assert(255 <= c * count && (count - 1) * c < 255) by (nonlinear_arith)
        requires
            255 == c * q + r,
            0 <= r < c,
            count == q + if r > 0 {
                1int
            } else {
                0int
            },
    ;
    assert(count >= 2) by (nonlinear_arith)
        requires
            255 <= c * count,
            c <= 30,
    ;
    digits::law_room_for_top_digit(c, count);
    vstd::arithmetic::power2::lemma_pow2_pos(c * count);
    if c * count == 255 {
        assert(c * (count - 2) >= 195) by (nonlinear_arith)
            requires
                c * count == 255,
                c <= 30,
        ;
        lemma_pow2_monotonic(128, (c * (count - 2)) as nat);
    } else {
        lemma_pow2_monotonic(255, (c * count - 1) as nat);
        lemma_pow2_monotonic(128, 254);
        vstd::arithmetic::power2::lemma_pow2_unfold(255);
    }
}

proof fn lemma_pow2_monotonic(a: nat, b: nat)
    requires
        a <= b,
    ensures
        pow2(a) <= pow2(b),
{
    if a < b {
        vstd::arithmetic::power2::lemma_pow2_strictly_increases(a, b);
    }
}

/// What comes out is the bucket method's sum of the bases' coordinates, on scalars of 255
/// bits, with the identity where that is empty or zeros: whether or not the bases lie on
/// the curve.
pub proof fn law_msm_is_the_bucket_method<C: PastaCurve, M: PastaModel<C>>(
    bases: Seq<Affine>,
    scalars: Seq<[u64; 4]>,
    pts: Seq<(nat, nat)>,
    vals: Seq<nat>,
)
    requires
        bases.len() == scalars.len() == pts.len() == vals.len(),
        bases.len() > 0,
        forall|i: int|
            0 <= i < bases.len() ==> #[trigger] pts[i] == bases[i].coords(
                C::modulus(),
                C::r_inverse(),
            ),
        forall|i: int|
            0 <= i < scalars.len() ==> #[trigger] vals[i] == limbs::limbs_value(scalars[i]@),
    ensures
        msm_calls::<C, M>(bases, scalars) == pippenger::bucket_method_calls::<M>(pts, vals, 255),
        msm_point::<C, M>(bases, scalars) is None <==> (pippenger::bucket_method::<M>(
            pts,
            vals,
            255,
        ) is None || pippenger::bucket_method::<M>(pts, vals, 255) == Some((0nat, 0nat))),
        msm_point::<C, M>(bases, scalars) matches Some(p) ==> pippenger::bucket_method::<M>(
            pts,
            vals,
            255,
        ) == Some(p),
{
    let n = bases.len() as int;
    assert(bases.take(n) =~= bases);
    assert(scalars.take(n) =~= scalars);
    assert(base_coords::<C>(bases) =~= pts);
    assert(pippenger::all_values(scalars) =~= vals);
}

/// Coordinates are those of a sum if and only if they are what the group of the curve's
/// points adds the two up to. So no others are, it is the same which point comes first,
/// and taking the second away from them leaves the first.
pub proof fn law_only_the_sum_is_the_sum<C: PastaCurve>(
    got: (nat, nat),
    other: (nat, nat),
    a: Option<(nat, nat)>,
    b: Option<(nat, nat)>,
)
    requires
        curve::on_curve_or_identity(C::modulus(), a),
        curve::on_curve_or_identity(C::modulus(), b),
    ensures
        is_sum_of::<C>(got, a, b) <==> curve::curve_group(C::modulus()).add(a, b) == Some(got),
        is_sum_of::<C>(got, a, b) && is_sum_of::<C>(other, a, b) ==> got == other,
        is_sum_of::<C>(got, a, b) <==> is_sum_of::<C>(got, b, a),
        is_sum_of::<C>(got, a, b) ==> curve::curve_group(C::modulus()).add(
            Some(got),
            curve::curve_negative(C::modulus(), b),
        ) == a,
{
    let g = curve::curve_group(C::modulus());
    C::lemma_field();
    conic::law_curve_is_a_group(C::modulus());
    crate::group::lemma_commute(g, a, b);
    crate::group::lemma_closed(g, a, b);
    crate::group::lemma_associate(g, a, b, g.neg(b));
    crate::group::lemma_negative(g, b);
    crate::group::lemma_zero(g, a);
    assert(g.neg(b) == curve::curve_negative(C::modulus(), b));
}

} // verus!
