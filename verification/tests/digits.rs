//! Signed digits and the bucket method.
use ark_ec::CurveGroup;
use ark_ff::{PrimeField, UniformRand};
use o1zkvm::digits::{fill_signed_digits, ln_without_floats};
use o1zkvm::limbs::Pt;
use o1zkvm::ops::Traced;
use o1zkvm::pasta::Vesta;
use o1zkvm::pippenger::pippenger_with_ops;
use rand_chacha::ChaCha20Rng;
use rand_core::SeedableRng;

fn digits(scalar: [u64; 4], c: usize, num_bits: usize) -> Vec<i32> {
    let mut out = vec![0i32; num_bits.div_ceil(c)];
    fill_signed_digits(&scalar, c, num_bits, &mut out);
    out
}

/// The low 128 bits of the number that digits stand for.
fn low_sum(d: &[i32], c: usize) -> u128 {
    let mut sum: u128 = 0;
    for x in d.iter().rev() {
        sum = sum.wrapping_mul(1u128 << c).wrapping_add(*x as i128 as u128);
    }
    sum
}

#[test]
fn logarithms_have_exact_values() {
    assert_eq!(ln_without_floats(1), 0);
    assert_eq!(ln_without_floats(2), 0);
    assert_eq!(ln_without_floats(4), 1);
    assert_eq!(ln_without_floats(32), 3);
    assert_eq!(ln_without_floats(64), 4);
    assert_eq!(ln_without_floats(1023), 6);
    assert_eq!(ln_without_floats(1024), 6);
    assert_eq!(ln_without_floats(1 << 20), 13);
    assert_eq!(ln_without_floats(usize::MAX), 63 * 69 / 100);
}

#[test]
fn digits_of_small_numbers() {
    assert_eq!(digits([0; 4], 3, 9), vec![0, 0, 0]);
    assert_eq!(digits([3, 0, 0, 0], 3, 9), vec![3, 0, 0]);
    assert_eq!(digits([4, 0, 0, 0], 3, 9), vec![-4, 1, 0]);
    assert_eq!(digits([7, 0, 0, 0], 3, 9), vec![-1, 1, 0]);
    assert_eq!(digits([8, 0, 0, 0], 3, 9), vec![0, 1, 0]);
    assert_eq!(digits([0o777, 0, 0, 0], 3, 9), vec![-1, 0, 8]);
}

#[test]
fn the_last_digit_keeps_its_excess() {
    assert_eq!(digits([0o700, 0, 0, 0], 3, 9), vec![0, 0, 7]);
    assert_eq!(digits([0o740, 0, 0, 0], 3, 9), vec![0, -4, 8]);
}

#[test]
fn windows_reach_over_limbs() {
    // Bits 63 to 65 are set, which the window of 5 bits from bit 60 cuts in two.
    let d = digits([1 << 63, 3, 0, 0], 5, 255);
    assert_eq!(d[12], 0b11000 - 32);
    assert_eq!(d[13], 2);
    assert_eq!(d[14], 0);
}

#[test]
fn digits_restore_the_scalar() {
    let scalar = [0x0123456789abcdef, 0xfedcba9876543210, 0x0f1e2d3c4b5a6978, 0x3fffffffffffffff];
    for c in 3..=30usize {
        let d = digits(scalar, c, 255);
        assert_eq!(d.len(), 255usize.div_ceil(c));
        let low = (scalar[1] as u128) << 64 | scalar[0] as u128;
        assert_eq!(low_sum(&d, c), low, "c = {c}");
        let half = 1i32 << (c - 1);
        assert!(d[..d.len() - 1].iter().all(|x| -half <= *x && *x < half));
        assert!(d[d.len() - 1] >= 0);
    }
}

#[test]
fn the_largest_reduced_scalar_has_a_bucket_for_every_digit() {
    let scalar = [0x8c46eb2100000000, 0x224698fc0994a8dd, 0, 0x4000000000000000];
    for c in 3..=30usize {
        let half = 1i32 << (c - 1);
        assert!(digits(scalar, c, 255).iter().all(|x| -half <= *x && *x <= half), "c = {c}");
    }
}

fn points(n: usize) -> Vec<ark_vesta::Affine> {
    let mut rng = ChaCha20Rng::seed_from_u64(21);
    (0..n).map(|_| ark_vesta::Projective::rand(&mut rng).into_affine()).collect()
}

fn canonical(p: &ark_vesta::Affine) -> Pt {
    let (x, y) = (p.x.into_bigint().0, p.y.into_bigint().0);
    [x[0], x[1], x[2], x[3], y[0], y[1], y[2], y[3]]
}

/// The sum by Vesta's own operations.
fn vesta_sum(bases: &[Pt], scalars: &[[u64; 4]], num_bits: usize) -> Pt {
    pippenger_with_ops::<Vesta, Vesta>(bases, scalars, num_bits, &mut Traced::new(Vesta))
}

#[test]
fn bucket_method_adds_multiples() {
    let p = points(40);
    for n in [1usize, 2, 31, 32, 40] {
        let bases: Vec<Pt> = p[..n].iter().map(canonical).collect();
        let scalars: Vec<[u64; 4]> = (0..n as u64).map(|i| [i * i * 31 + 5, 0, 0, 0]).collect();
        let mut expected = ark_vesta::Projective::default();
        for i in 0..n {
            expected += p[i] * ark_vesta::Fr::from(scalars[i][0]);
        }
        let expected = canonical(&expected.into_affine());
        assert_eq!(vesta_sum(&bases, &scalars, 255), expected);
        assert_eq!(vesta_sum(&bases, &scalars, 64), expected);
    }
}

#[test]
fn bucket_method_takes_short_scalars() {
    let p = points(2);
    let bases: Vec<Pt> = p.iter().map(canonical).collect();
    let scalars = vec![[3, 0, 0, 0], [2, 0, 0, 0]];
    let expected = canonical(&(p[0] + p[0] + p[0] + p[1] + p[1]).into_affine());
    assert_eq!(vesta_sum(&bases, &scalars, 3), expected);
    assert_eq!(vesta_sum(&bases, &scalars, 0), [0u64; 8]);
    assert_eq!(vesta_sum(&bases, &[], 255), [0u64; 8]);
    assert_eq!(vesta_sum(&bases, &[[0; 4], [0; 4]], 255), [0u64; 8]);
}
