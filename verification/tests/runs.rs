//! What the bucket method calls the point operations on, and how often.
use ark_ec::CurveGroup;
use ark_ff::{PrimeField, UniformRand};
use o1zkvm::limbs::Pt;
use o1zkvm::ops::{PointOps, Traced};
use o1zkvm::pasta::{negate_y_vesta, vesta_add_inplace, vesta_double_inplace, Vesta};
use o1zkvm::pippenger::pippenger_with_ops;
use rand_chacha::ChaCha20Rng;
use rand_core::SeedableRng;
use std::cell::RefCell;
use std::rc::Rc;

/// A call, with what it was called on.
#[derive(Clone, Copy, Debug, PartialEq)]
enum Seen {
    Add(Pt, Pt),
    Double(Pt),
    Negate(Pt),
}

/// Vesta's operations, which note what they are called on.
struct Noting {
    seen: Rc<RefCell<Vec<Seen>>>,
}

impl PointOps<Vesta> for Noting {
    fn add_in_place(&mut self, p: &mut Pt, q: &Pt) {
        self.seen.borrow_mut().push(Seen::Add(*p, *q));
        vesta_add_inplace(p, q);
    }

    fn double_in_place(&mut self, p: &mut Pt) {
        self.seen.borrow_mut().push(Seen::Double(*p));
        vesta_double_inplace(p);
    }

    fn negate_y(&mut self, p: &mut Pt) {
        self.seen.borrow_mut().push(Seen::Negate(*p));
        negate_y_vesta(p);
    }
}

/// Operations that must not be called.
struct Forbidden;

impl PointOps<Vesta> for Forbidden {
    fn add_in_place(&mut self, _p: &mut Pt, _q: &Pt) {
        panic!("added");
    }

    fn double_in_place(&mut self, _p: &mut Pt) {
        panic!("doubled");
    }

    fn negate_y(&mut self, _p: &mut Pt) {
        panic!("negated");
    }
}

fn noted(bases: &[Pt], scalars: &[[u64; 4]], num_bits: usize) -> (Pt, Vec<Seen>) {
    let seen = Rc::new(RefCell::new(Vec::new()));
    let mut ops = Traced::new(Noting { seen: seen.clone() });
    let got = pippenger_with_ops::<Vesta, Noting>(bases, scalars, num_bits, &mut ops);
    let seen = seen.borrow().clone();
    (got, seen)
}

fn silent(bases: &[Pt], scalars: &[[u64; 4]], num_bits: usize) -> Pt {
    let mut ops = Traced::new(Forbidden);
    pippenger_with_ops::<Vesta, Forbidden>(bases, scalars, num_bits, &mut ops)
}

fn points(n: usize, seed: u64) -> Vec<ark_vesta::Affine> {
    let mut rng = ChaCha20Rng::seed_from_u64(seed);
    (0..n).map(|_| ark_vesta::Projective::rand(&mut rng).into_affine()).collect()
}

fn canonical(p: &ark_vesta::Affine) -> Pt {
    let (x, y) = (p.x.into_bigint().0, p.y.into_bigint().0);
    [x[0], x[1], x[2], x[3], y[0], y[1], y[2], y[3]]
}

fn times(p: &ark_vesta::Affine, k: i64) -> Pt {
    let s = ark_vesta::Fr::from(k.unsigned_abs());
    let p = if k < 0 { -*p } else { *p };
    canonical(&(p * s).into_affine())
}

/// No coordinates of a point: neither is below the order of the field.
const ANYTHING: Pt = [u64::MAX; 8];

#[test]
fn zero_scalars_call_nothing() {
    for n in [0usize, 1, 3, 31, 32, 40] {
        assert_eq!(silent(&vec![ANYTHING; n], &vec![[0u64; 4]; n], 255), [0u64; 8]);
    }
    assert_eq!(silent(&[ANYTHING], &[[0; 4]], 256), [0u64; 8]);
}

#[test]
fn scalar_one_is_a_plain_copy() {
    let base: Pt = [1, 2, 3, 4, 5, 6, 7, 8];
    for num_bits in [1usize, 3, 64, 255, 256] {
        assert_eq!(silent(&[base], &[[1, 0, 0, 0]], num_bits), base);
        assert_eq!(silent(&[ANYTHING], &[[1, 0, 0, 0]], num_bits), ANYTHING);
    }
}

#[test]
fn bases_without_a_digit_are_left_alone() {
    let base: Pt = [1, 2, 3, 4, 5, 6, 7, 8];
    let scalars = [[0; 4], [1, 0, 0, 0], [0; 4]];
    assert_eq!(silent(&[ANYTHING, base, ANYTHING], &scalars, 255), base);
}

#[test]
fn five_negates_once() {
    let p = points(1, 31)[0];
    let (got, seen) = noted(&[canonical(&p)], &[[5, 0, 0, 0]], 6);
    assert_eq!(got, times(&p, 5));
    assert_eq!(
        seen,
        vec![
            Seen::Negate(times(&p, 1)),
            Seen::Add(times(&p, -1), times(&p, -1)),
            Seen::Add(times(&p, -2), times(&p, -1)),
            Seen::Double(times(&p, 1)),
            Seen::Double(times(&p, 2)),
            Seen::Double(times(&p, 4)),
            Seen::Add(times(&p, 8), times(&p, -3)),
        ]
    );
}

#[test]
fn sixty_four_doubles_six_times() {
    let p = points(1, 32)[0];
    let (got, seen) = noted(&[canonical(&p)], &[[64, 0, 0, 0]], 9);
    assert_eq!(got, times(&p, 64));
    let expected: Vec<Seen> = (0..6).map(|k| Seen::Double(times(&p, 1 << k))).collect();
    assert_eq!(seen, expected);
}

#[test]
fn runs_stay_within_their_cost() {
    let mut rng = ChaCha20Rng::seed_from_u64(33);
    for n in [1usize, 2, 4, 5, 31, 32, 33, 100] {
        let bases: Vec<Pt> = points(n, 34).iter().map(canonical).collect();
        let scalars: Vec<[u64; 4]> =
            (0..n).map(|_| ark_vesta::Fr::rand(&mut rng).into_bigint().0).collect();
        let (_, seen) = noted(&bases, &scalars, 255);
        let adds = seen.iter().filter(|s| matches!(s, Seen::Add(..))).count();
        let doubles = seen.iter().filter(|s| matches!(s, Seen::Double(..))).count();
        let negations = seen.iter().filter(|s| matches!(s, Seen::Negate(..))).count();
        let windows = 255usize.div_ceil(3);
        assert!(adds <= windows * (n + n.max(4)), "n = {n}: {adds} additions");
        assert!(doubles < 255, "n = {n}: {doubles} doublings");
        assert!(negations <= windows * n, "n = {n}: {negations} negations");
    }
}
