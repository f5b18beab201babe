//! Conversions and point operations against the curve crates.
use ark_ec::{AffineRepr, CurveGroup};
use ark_ff::{BigInt, Field, PrimeField, UniformRand};
use o1zkvm::limbs::sub_y_into_modulus;
use o1zkvm::pasta::{
    affine_to_canonical, affine_to_canonical_pallas, affine_to_canonical_vesta,
    canonical_to_affine, canonical_to_affine_pallas, canonical_to_affine_vesta,
    negate_y_canonical, negate_y_pallas, negate_y_vesta, pallas_add_inplace,
    pallas_double_inplace, vesta_add_inplace, vesta_double_inplace, Affine, Pallas, Vesta,
};
use rand_chacha::ChaCha20Rng;
use rand_core::SeedableRng;

const VESTA_MODULUS: [u64; 4] =
    [0x8c46eb2100000001, 0x224698fc0994a8dd, 0, 0x4000000000000000];
const PALLAS_MODULUS: [u64; 4] =
    [0x992d30ed00000001, 0x224698fc094cf91b, 0, 0x4000000000000000];

fn vesta_points(n: usize, seed: u64) -> Vec<ark_vesta::Affine> {
    let mut rng = ChaCha20Rng::seed_from_u64(seed);
    (0..n).map(|_| ark_vesta::Projective::rand(&mut rng).into_affine()).collect()
}

fn pallas_points(n: usize, seed: u64) -> Vec<ark_pallas::Affine> {
    let mut rng = ChaCha20Rng::seed_from_u64(seed);
    (0..n).map(|_| ark_pallas::Projective::rand(&mut rng).into_affine()).collect()
}

fn from_vesta(p: &ark_vesta::Affine) -> Affine {
    Affine { x: (p.x.0).0, y: (p.y.0).0, infinity: p.infinity }
}

fn from_pallas(p: &ark_pallas::Affine) -> Affine {
    Affine { x: (p.x.0).0, y: (p.y.0).0, infinity: p.infinity }
}

fn canonical_vesta(p: &ark_vesta::Affine) -> [u64; 8] {
    let (x, y) = (p.x.into_bigint().0, p.y.into_bigint().0);
    [x[0], x[1], x[2], x[3], y[0], y[1], y[2], y[3]]
}

fn canonical_pallas(p: &ark_pallas::Affine) -> [u64; 8] {
    let (x, y) = (p.x.into_bigint().0, p.y.into_bigint().0);
    [x[0], x[1], x[2], x[3], y[0], y[1], y[2], y[3]]
}

#[test]
fn generators_have_known_limbs() {
    let g = affine_to_canonical_vesta(&from_vesta(&ark_vesta::Affine::generator()));
    assert_eq!(g, [0x8c46eb2100000000, 0x224698fc0994a8dd, 0, 0x4000000000000000, 2, 0, 0, 0]);
    let h = affine_to_canonical_pallas(&from_pallas(&ark_pallas::Affine::generator()));
    assert_eq!(h, [0x992d30ed00000000, 0x224698fc094cf91b, 0, 0x4000000000000000, 2, 0, 0, 0]);
}

#[test]
fn conversions_undo_each_other() {
    for p in vesta_points(4, 1) {
        let a = from_vesta(&p);
        let words = affine_to_canonical_vesta(&a);
        assert_eq!(words, canonical_vesta(&p));
        assert_ne!(words[..4], a.x);
        assert_eq!(canonical_to_affine_vesta(&words), a);
        assert_eq!(affine_to_canonical::<Vesta>(&a), words);
        assert_eq!(canonical_to_affine::<Vesta>(&words), a);
    }
    for p in pallas_points(4, 1) {
        let a = from_pallas(&p);
        let words = affine_to_canonical_pallas(&a);
        assert_eq!(words, canonical_pallas(&p));
        assert_eq!(canonical_to_affine_pallas(&words), a);
        assert_eq!(affine_to_canonical::<Pallas>(&a), words);
        assert_eq!(canonical_to_affine::<Pallas>(&words), a);
    }
}

#[test]
fn canonical_limbs_take_the_largest_field_element() {
    let mut words = [0u64; 8];
    words[0] = VESTA_MODULUS[0] - 1;
    words[1] = VESTA_MODULUS[1];
    words[3] = VESTA_MODULUS[3];
    let a = canonical_to_affine_vesta(&words);
    assert!(!a.infinity);
    assert_eq!(ark_vesta::Fq::new_unchecked(BigInt(a.x)), -ark_vesta::Fq::from(1u64));
    assert_eq!(affine_to_canonical_vesta(&a), words);
}

#[test]
fn vesta_operations_are_the_curve_s() {
    let p = vesta_points(2, 2);
    let mut sum = canonical_vesta(&p[0]);
    vesta_add_inplace(&mut sum, &canonical_vesta(&p[1]));
    assert_eq!(sum, canonical_vesta(&(p[0] + p[1]).into_affine()));
    let mut twice = canonical_vesta(&p[0]);
    vesta_double_inplace(&mut twice);
    assert_eq!(twice, canonical_vesta(&(p[0] + p[0]).into_affine()));
    let mut negative = canonical_vesta(&p[0]);
    negate_y_vesta(&mut negative);
    assert_eq!(negative, canonical_vesta(&-p[0]));
}

#[test]
fn pallas_operations_are_the_curve_s() {
    let p = pallas_points(2, 2);
    let mut sum = canonical_pallas(&p[0]);
    pallas_add_inplace(&mut sum, &canonical_pallas(&p[1]));
    assert_eq!(sum, canonical_pallas(&(p[0] + p[1]).into_affine()));
    let mut twice = canonical_pallas(&p[0]);
    pallas_double_inplace(&mut twice);
    assert_eq!(twice, canonical_pallas(&(p[0] + p[0]).into_affine()));
    let mut negative = canonical_pallas(&p[0]);
    negate_y_pallas(&mut negative);
    assert_eq!(negative, canonical_pallas(&-p[0]));
}

#[test]
fn a_point_and_its_negative_add_up_to_zeros() {
    let p = canonical_vesta(&vesta_points(1, 3)[0]);
    let mut q = p;
    negate_y_vesta(&mut q);
    vesta_add_inplace(&mut q, &p);
    assert_eq!(q, [0u64; 8]);
    vesta_double_inplace(&mut q);
    assert_eq!(q, [0u64; 8]);
}

#[test]
fn negating_twice_restores() {
    let p = canonical_vesta(&vesta_points(1, 4)[0]);
    let mut q = p;
    negate_y_vesta(&mut q);
    assert_ne!(q, p);
    negate_y_canonical::<Vesta>(&mut q);
    assert_eq!(q, p);
    let mut edge = [1u64, 2, 3, 4, u64::MAX, u64::MAX, u64::MAX, u64::MAX];
    negate_y_pallas(&mut edge);
    negate_y_canonical::<Pallas>(&mut edge);
    assert_eq!(edge, [1, 2, 3, 4, u64::MAX, u64::MAX, u64::MAX, u64::MAX]);
}

#[test]
fn negating_a_zero_y_gives_the_modulus() {
    let mut p = [7u64, 0, 0, 0, 0, 0, 0, 0];
    negate_y_vesta(&mut p);
    assert_eq!(p[..4], [7, 0, 0, 0]);
    assert_eq!(p[4..], VESTA_MODULUS);
    let mut q = [0u64; 8];
    negate_y_pallas(&mut q);
    assert_eq!(q[4..], PALLAS_MODULUS);
}

#[test]
fn borrows_run_through_all_limbs() {
    let mut p = [9u64, 8, 7, 6, 1, 0, 0, 0];
    sub_y_into_modulus(&mut p, &[0, 0, 0, 1]);
    assert_eq!(p, [9, 8, 7, 6, u64::MAX, u64::MAX, u64::MAX, 0]);
    let mut q = [0u64, 0, 0, 0, 2, 0, 0, 0];
    sub_y_into_modulus(&mut q, &[1, 0, 0, 0]);
    assert_eq!(q[4..], [u64::MAX; 4]);
    let mut r = [0u64, 0, 0, 0, 5, 6, 7, 8];
    sub_y_into_modulus(&mut r, &[5, 6, 7, 8]);
    assert_eq!(r, [0u64; 8]);
}

#[test]
fn the_order_of_additions_does_not_matter() {
    let p: Vec<[u64; 8]> = vesta_points(3, 5).iter().map(canonical_vesta).collect();
    let sum = |a: &[u64; 8], b: &[u64; 8]| {
        let mut s = *a;
        vesta_add_inplace(&mut s, b);
        s
    };
    assert_eq!(sum(&p[0], &p[1]), sum(&p[1], &p[0]));
    assert_eq!(sum(&sum(&p[0], &p[1]), &p[2]), sum(&p[0], &sum(&p[1], &p[2])));
    assert_eq!(sum(&sum(&p[0], &p[0]), &p[1]), sum(&p[0], &sum(&p[0], &p[1])));
    let mut negative = p[0];
    negate_y_vesta(&mut negative);
    assert_eq!(sum(&negative, &sum(&p[0], &p[1])), p[1]);
}

#[test]
fn five_is_no_cube() {
    let third = BigInt([0xd96cf90b00000000, 0x60c232feaddc3849, 0x5555555555555555, 0x1555555555555555]);
    let five = ark_vesta::Fq::from(5u64);
    let root = five.pow(third);
    assert_ne!(root, ark_vesta::Fq::from(1u64));
    assert_eq!(root * root * root, ark_vesta::Fq::from(1u64));
}
