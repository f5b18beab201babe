//! Little-endian `u64` limbs and the numbers they stand for.
use vstd::arithmetic::power2::lemma2_to64_rest;
use vstd::arithmetic::power2::lemma_pow2_adds;
use vstd::arithmetic::power2::pow2;
use vstd::prelude::*;

verus! {

/// An affine point on canonical limbs: four limbs of `x`, then four of `y`,
/// each coordinate little-endian.
pub type Pt = [u64; 8];

/// The number that little-endian limbs stand for.
pub open spec fn limbs_value(s: Seq<u64>) -> nat
    decreases s.len(),
{
    if s.len() == 0 {
        0
    } else {
        s[0] as nat + pow2(64) * limbs_value(s.drop_first())
    }
}

/// The coordinates `(x, y)` that a point's limbs stand for.
pub open spec fn coords(p: Pt) -> (nat, nat) {
    (limbs_value(p@.subrange(0, 4)), limbs_value(p@.subrange(4, 8)))
}

/// Four limbs, written out.
pub proof fn lemma_four_limbs(s: Seq<u64>)
    requires
        s.len() == 4,
    ensures
        limbs_value(s) == s[0] + 0x1_0000_0000_0000_0000 * s[1]
            + 0x1_0000_0000_0000_0000_0000_0000_0000_0000 * s[2]
            + 0x1_0000_0000_0000_0000_0000_0000_0000_0000_0000_0000_0000_0000 * s[3],
        limbs_value(s) < pow2(256),
        pow2(256)
            == 0x1_0000_0000_0000_0000_0000_0000_0000_0000_0000_0000_0000_0000_0000_0000_0000_0000,
{
    lemma_pow2_of_limbs();
    let s1 = s.drop_first();
    let s2 = s1.drop_first();
    let s3 = s2.drop_first();
    reveal_with_fuel(limbs_value, 5);
    assert(s1[0] == s[1] && s2[0] == s[2] && s3[0] == s[3]);
    assert(s3.drop_first().len() == 0);
    assert(limbs_value(s3) == s[3]);
    assert(limbs_value(s2) == s[2] + pow2(64) * s[3]);
    assert(limbs_value(s1) == s[1] + pow2(64) * limbs_value(s2));
}

/// The powers of two that sit between limbs.
pub proof fn lemma_pow2_of_limbs()
    ensures
        pow2(0) == 1,
        pow2(64) == 0x1_0000_0000_0000_0000,
        pow2(128) == 0x1_0000_0000_0000_0000_0000_0000_0000_0000,
        pow2(192) == 0x1_0000_0000_0000_0000_0000_0000_0000_0000_0000_0000_0000_0000,
        pow2(256)
            == 0x1_0000_0000_0000_0000_0000_0000_0000_0000_0000_0000_0000_0000_0000_0000_0000_0000,
{
    vstd::arithmetic::power2::lemma2_to64();
    lemma2_to64_rest();
    lemma_pow2_adds(64, 64);
    lemma_pow2_adds(128, 64);
    lemma_pow2_adds(192, 64);
}

/// Equal numbers have equal limbs.
pub proof fn lemma_limbs_injective(s: Seq<u64>, t: Seq<u64>)
    requires
        s.len() == t.len(),
        limbs_value(s) == limbs_value(t),
    ensures
        s == t,
    decreases s.len(),
{
    if s.len() > 0 {
        lemma_pow2_of_limbs();
        lemma_limbs_injective(s.drop_first(), t.drop_first());
        assert(s =~= seq![s[0]] + s.drop_first());
        assert(t =~= seq![t[0]] + t.drop_first());
    }
}

/// `y := modulus - y` on the `y` limbs of `pt`, as a borrow chain over the four
/// limbs. A `y` above the modulus wraps around at 256 bits.
pub fn sub_y_into_modulus(pt: &mut Pt, modulus: &[u64; 4])
    ensures
        coords(*final(pt)).0 == coords(*old(pt)).0,
        coords(*final(pt)).1 == (limbs_value(modulus@) - coords(*old(pt)).1) % (pow2(256) as int),
        final(pt)@.subrange(0, 4) == old(pt)@.subrange(0, 4),
{
    let y: [u64; 4] = [pt[4], pt[5], pt[6], pt[7]];
    let mut borrow: u128 = 0;
    for i in 0usize..4
        invariant
            borrow <= 1,
            y@ == old(pt)@.subrange(4, 8),
            pt@.subrange(0, 4) == old(pt)@.subrange(0, 4),
            i == 0 ==> borrow == 0,
            i == 1 ==> pt[4] == modulus[0] - y[0] + 0x1_0000_0000_0000_0000 * borrow,
            i == 2 ==> pt[4] + 0x1_0000_0000_0000_0000 * pt[5] == modulus[0] - y[0]
                + 0x1_0000_0000_0000_0000 * (modulus[1] - y[1])
                + 0x1_0000_0000_0000_0000_0000_0000_0000_0000 * borrow,
            i == 3 ==> pt[4] + 0x1_0000_0000_0000_0000 * pt[5]
                + 0x1_0000_0000_0000_0000_0000_0000_0000_0000 * pt[6] == modulus[0] - y[0]
                + 0x1_0000_0000_0000_0000 * (modulus[1] - y[1])
                + 0x1_0000_0000_0000_0000_0000_0000_0000_0000 * (modulus[2] - y[2])
                + 0x1_0000_0000_0000_0000_0000_0000_0000_0000_0000_0000_0000_0000 * borrow,
            i == 4 ==> pt[4] + 0x1_0000_0000_0000_0000 * pt[5]
                + 0x1_0000_0000_0000_0000_0000_0000_0000_0000 * pt[6]
                + 0x1_0000_0000_0000_0000_0000_0000_0000_0000_0000_0000_0000_0000 * pt[7]
                == modulus[0] - y[0] + 0x1_0000_0000_0000_0000 * (modulus[1] - y[1])
                + 0x1_0000_0000_0000_0000_0000_0000_0000_0000 * (modulus[2] - y[2])
                + 0x1_0000_0000_0000_0000_0000_0000_0000_0000_0000_0000_0000_0000 * (modulus[3]
                - y[3])
                + 0x1_0000_0000_0000_0000_0000_0000_0000_0000_0000_0000_0000_0000_0000_0000_0000_0000
                * borrow,
    {
        let ghost before = pt@;
        let lhs: u128 = modulus[i] as u128;
        let rhs: u128 = (y[i] as u128) + borrow;
        assert(1u128 << 64 == 0x1_0000_0000_0000_0000u128) by (bit_vector);
        if lhs >= rhs {
            pt[4 + i] = (lhs - rhs) as u64;
            borrow = 0;
        } else {
            pt[4 + i] = ((lhs + (1u128 << 64)) - rhs) as u64;
            borrow = 1;
        }
        assert(pt@ =~= before.update(4 + i, pt[4 + i]));
        assert(pt@.subrange(0, 4) =~= before.subrange(0, 4));
    }
    proof {
        let now = pt@.subrange(4, 8);
        lemma_four_limbs(now);
        lemma_four_limbs(y@);
        lemma_four_limbs(modulus@);
        vstd::arithmetic::div_mod::lemma_fundamental_div_mod_converse(
            limbs_value(modulus@) - limbs_value(y@),
            pow2(256) as int,
            -(borrow as int),
            limbs_value(now) as int,
        );
    }
}

/// One limb is the number it holds, and limbs behind others count `2^64` for each limb in
/// front of them.
pub proof fn law_limbs_count_by_place(x: u64, a: Seq<u64>, b: Seq<u64>)
    ensures
        limbs_value(seq![x]) == x,
        limbs_value(Seq::<u64>::empty()) == 0,
        limbs_value(a + b) == limbs_value(a) + pow2(64 * a.len()) * limbs_value(b),
    decreases a.len(),
{
    lemma_pow2_of_limbs();
    reveal_with_fuel(limbs_value, 2);
    assert(seq![x].drop_first() =~= Seq::<u64>::empty());
    assert(pow2(64) * 0 == 0);
    if a.len() == 0 {
        assert(a + b =~= b);
        assert(64 * a.len() == 0);
    } else {
        let rest = a.drop_first();
        assert((a + b).drop_first() =~= rest + b);
        law_limbs_count_by_place(x, rest, b);
        lemma_pow2_adds(64, 64 * rest.len());
        let p = pow2(64) as int;
        let q = pow2(64 * rest.len()) as int;
        let v = limbs_value(rest) as int;
        let w = limbs_value(b) as int;
        assert(64 * a.len() == 64 + 64 * rest.len());
        assert(p * (v + q * w) == p * v + (p * q) * w) by (nonlinear_arith);
    }
}

/// The first four limbs of a point are its `x`, the other four its `y`, each of them with
/// the lowest limb first.
pub proof fn law_coordinates_of_limbs(p: Pt)
    ensures
        coords(p).0 == p@[0] + pow2(64) * p@[1] + pow2(128) * p@[2] + pow2(192) * p@[3],
        coords(p).1 == p@[4] + pow2(64) * p@[5] + pow2(128) * p@[6] + pow2(192) * p@[7],
{
    lemma_pow2_of_limbs();
    lemma_four_limbs(p@.subrange(0, 4));
    lemma_four_limbs(p@.subrange(4, 8));
}

} // verus!
