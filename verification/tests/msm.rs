//! Multi-scalar multiplication against the curve crates' own.
use ark_ec::{AffineRepr, CurveGroup, VariableBaseMSM};
use ark_ff::{BigInt, PrimeField, UniformRand};
use o1zkvm::msm::{
    is_vesta_sum, msm_pallas, msm_vesta, msm_with_ops, smoke_test_bn254_add, smoke_test_vesta_add,
    smoke_test_vesta_add_dummy,
};
use o1zkvm::ops::Traced;
use o1zkvm::pasta::{affine_to_canonical_vesta, Affine, Pallas, PallasAffine, Vesta, VestaAffine};
use rand_chacha::ChaCha20Rng;
use rand_core::SeedableRng;

fn from_vesta(p: &ark_vesta::Affine) -> Affine {
    Affine { x: (p.x.0).0, y: (p.y.0).0, infinity: p.infinity }
}

fn to_vesta(p: &Affine) -> ark_vesta::Affine {
    ark_vesta::Affine {
        x: ark_vesta::Fq::new_unchecked(BigInt(p.x)),
        y: ark_vesta::Fq::new_unchecked(BigInt(p.y)),
        infinity: p.infinity,
    }
}

fn from_pallas(p: &ark_pallas::Affine) -> Affine {
    Affine { x: (p.x.0).0, y: (p.y.0).0, infinity: p.infinity }
}

fn to_pallas(p: &Affine) -> ark_pallas::Affine {
    ark_pallas::Affine {
        x: ark_pallas::Fq::new_unchecked(BigInt(p.x)),
        y: ark_pallas::Fq::new_unchecked(BigInt(p.y)),
        infinity: p.infinity,
    }
}

fn random_vesta(n: usize, seed: u64) -> (Vec<ark_vesta::Affine>, Vec<ark_vesta::Fr>) {
    let mut rng = ChaCha20Rng::seed_from_u64(seed);
    let bases = (0..n).map(|_| ark_vesta::Projective::rand(&mut rng).into_affine()).collect();
    let scalars = (0..n).map(|_| ark_vesta::Fr::rand(&mut rng)).collect();
    (bases, scalars)
}

fn vesta_msm_matches(n: usize, seed: u64) {
    let (bases, scalars) = random_vesta(n, seed);
    let expected =
        <ark_vesta::Projective as VariableBaseMSM>::msm(&bases, &scalars).unwrap().into_affine();
    let own: Vec<Affine> = bases.iter().map(from_vesta).collect();
    let limbs: Vec<[u64; 4]> = scalars.iter().map(|s| s.into_bigint().0).collect();
    let got = to_vesta(&msm_vesta(&own, &limbs));
    assert_eq!(expected, got, "n = {n}");
}

fn pallas_msm_matches(n: usize, seed: u64) {
    let mut rng = ChaCha20Rng::seed_from_u64(seed);
    let bases: Vec<ark_pallas::Affine> =
        (0..n).map(|_| ark_pallas::Projective::rand(&mut rng).into_affine()).collect();
    let scalars: Vec<ark_pallas::Fr> = (0..n).map(|_| ark_pallas::Fr::rand(&mut rng)).collect();
    let expected =
        <ark_pallas::Projective as VariableBaseMSM>::msm(&bases, &scalars).unwrap().into_affine();
    let own: Vec<Affine> = bases.iter().map(from_pallas).collect();
    let limbs: Vec<[u64; 4]> = scalars.iter().map(|s| s.into_bigint().0).collect();
    let got = to_pallas(&msm_pallas(&own, &limbs));
    assert_eq!(expected, got, "n = {n}");
}

#[test]
fn vesta_precompile_msm_matches_arkworks_small() {
    for n in [1usize, 2, 3, 4, 8, 16, 31, 32, 64] {
        vesta_msm_matches(n, 1);
    }
}

#[test]
fn vesta_precompile_msm_matches_arkworks_medium() {
    vesta_msm_matches(1024, 7);
}

#[test]
fn pallas_msm_matches_arkworks() {
    for n in [1usize, 2, 5, 31, 33] {
        pallas_msm_matches(n, 3);
    }
}

#[test]
fn no_input_gives_the_identity() {
    let (bases, _) = random_vesta(2, 5);
    let own: Vec<Affine> = bases.iter().map(from_vesta).collect();
    assert_eq!(msm_vesta(&[], &[]), Affine::zero());
    assert_eq!(msm_vesta(&own, &[]), Affine::zero());
    assert_eq!(msm_vesta(&[], &[[1, 0, 0, 0]]), Affine::zero());
    assert_eq!(msm_pallas(&[], &[]), Affine::zero());
    assert_eq!(to_vesta(&Affine::zero()), ark_vesta::Affine::zero());
}

#[test]
fn zero_scalars_give_the_identity() {
    for n in [1usize, 4, 40] {
        let (bases, _) = random_vesta(n, 11);
        let own: Vec<Affine> = bases.iter().map(from_vesta).collect();
        assert_eq!(msm_vesta(&own, &vec![[0u64; 4]; n]), Affine::zero());
    }
}

#[test]
fn scalar_one_gives_the_base() {
    let (bases, _) = random_vesta(1, 12);
    let own = from_vesta(&bases[0]);
    assert_eq!(msm_vesta(&[own], &[[1, 0, 0, 0]]), own);
}

#[test]
fn small_scalars_have_exact_multiples() {
    let (bases, _) = random_vesta(1, 13);
    for k in 0u64..40 {
        let expected = (bases[0] * ark_vesta::Fr::from(k)).into_affine();
        let got = to_vesta(&msm_vesta(&[from_vesta(&bases[0])], &[[k, 0, 0, 0]]));
        assert_eq!(expected, got, "k = {k}");
    }
}

#[test]
fn largest_scalar_negates() {
    let (bases, _) = random_vesta(1, 14);
    let minus_one = (-ark_vesta::Fr::from(1u64)).into_bigint().0;
    let got = to_vesta(&msm_vesta(&[from_vesta(&bases[0])], &[minus_one]));
    assert_eq!(-bases[0], got);
}

#[test]
fn excess_bases_and_scalars_are_left_out() {
    let (bases, scalars) = random_vesta(5, 15);
    let own: Vec<Affine> = bases.iter().map(from_vesta).collect();
    let limbs: Vec<[u64; 4]> = scalars.iter().map(|s| s.into_bigint().0).collect();
    let expected = msm_vesta(&own[..3], &limbs[..3]);
    assert_eq!(msm_vesta(&own, &limbs[..3]), expected);
    assert_eq!(msm_vesta(&own[..3], &limbs), expected);
}

#[test]
fn a_sum_that_cancels_is_the_identity() {
    let (bases, _) = random_vesta(1, 16);
    let p = from_vesta(&bases[0]);
    let q = from_vesta(&-bases[0]);
    assert_eq!(msm_vesta(&[p, q], &[[1, 0, 0, 0], [1, 0, 0, 0]]), Affine::zero());
}

#[test]
fn windows_of_every_width_agree() {
    for n in [1usize, 31, 32, 63, 64, 127, 128] {
        vesta_msm_matches(n, 17);
    }
}

#[test]
fn vesta_addition_is_the_curve_s() {
    let (bases, _) = random_vesta(2, 18);
    let a = from_vesta(&bases[0]);
    let b = from_vesta(&bases[1]);
    assert!(smoke_test_vesta_add(&a, &b));
    assert!(smoke_test_vesta_add(&a, &a));
}

#[test]
fn sums_are_told_from_other_limbs() {
    let (bases, _) = random_vesta(2, 20);
    let a = from_vesta(&bases[0]);
    let b = from_vesta(&bases[1]);
    let sum = from_vesta(&(bases[0] + bases[1]).into_affine());
    assert!(is_vesta_sum(&affine_to_canonical_vesta(&sum), &a, &b));
    assert!(!is_vesta_sum(&affine_to_canonical_vesta(&a), &a, &b));
    assert!(!is_vesta_sum(&[0u64; 8], &a, &b));
    assert!(is_vesta_sum(&affine_to_canonical_vesta(&a), &a, &Affine::zero()));
    let minus_a = from_vesta(&-bases[0]);
    assert!(!is_vesta_sum(&[0u64; 8], &a, &minus_a));
}

#[test]
fn affine_formulas_give_the_same_point() {
    // The digits of these scalars are zeros and ones, so no two sums on the way meet
    // with one `x`.
    let scalars = [[0o11, 0, 0, 0], [0o111, 0, 0, 0]];
    let (bases, _) = random_vesta(2, 22);
    let own: Vec<Affine> = bases.iter().map(from_vesta).collect();
    let mut ops = Traced::new(Vesta);
    let got = msm_with_ops::<Vesta, VestaAffine, Vesta>(&own, &scalars, &mut ops);
    assert_eq!(got, msm_vesta(&own, &scalars));

    let mut rng = ChaCha20Rng::seed_from_u64(23);
    let own: Vec<Affine> = (0..2)
        .map(|_| from_pallas(&ark_pallas::Projective::rand(&mut rng).into_affine()))
        .collect();
    let mut ops = Traced::new(Pallas);
    let got = msm_with_ops::<Pallas, PallasAffine, Pallas>(&own, &scalars, &mut ops);
    assert_eq!(got, msm_pallas(&own, &scalars));
}

#[test]
fn canonical_limbs_cannot_hold_the_identity() {
    let (bases, _) = random_vesta(1, 19);
    let a = from_vesta(&bases[0]);
    let minus_a = from_vesta(&-bases[0]);
    assert!(!smoke_test_vesta_add(&a, &minus_a));
    assert!(!smoke_test_vesta_add(&a, &Affine::zero()));
    assert!(!smoke_test_vesta_add(&Affine::zero(), &Affine::zero()));
}

#[test]
fn precompile_smoke_tests_succeed_on_the_host() {
    assert!(smoke_test_bn254_add());
    assert!(smoke_test_vesta_add_dummy());
}
