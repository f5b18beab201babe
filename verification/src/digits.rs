//! Signed-digit recoding of scalars for the bucket method.
use crate::limbs;
use vstd::arithmetic::div_mod::lemma_div_denominator;
use vstd::arithmetic::div_mod::lemma_fundamental_div_mod;
use vstd::arithmetic::div_mod::lemma_hoist_over_denominator;
use vstd::arithmetic::div_mod::lemma_mod_breakdown;
use vstd::arithmetic::div_mod::lemma_mod_mod;
use vstd::arithmetic::div_mod::lemma_mod_multiples_vanish;
use vstd::arithmetic::logarithm::log;
use vstd::arithmetic::power2::lemma_pow2_adds;
use vstd::arithmetic::power2::lemma_pow2_pos;
use vstd::arithmetic::power2::lemma_pow2_strictly_increases;
use vstd::arithmetic::power2::lemma_pow2_unfold;
use vstd::arithmetic::power2::pow2;
use vstd::prelude::*;

verus! {

/// The `i`-th window of `c` bits of `v`, counted from the low end.
pub open spec fn window(v: nat, c: nat, i: nat) -> nat {
    (v / pow2(c * i)) % pow2(c)
}

/// What the windows below the `i`-th carry into it: one, where they make up more
/// than the digits below can hold.
pub open spec fn carry_into(v: nat, c: nat, i: nat) -> nat
    decreases i,
{
    if i == 0 {
        0
    } else {
        let below = (i - 1) as nat;
        (window(v, c, below) + carry_into(v, c, below) + pow2((c - 1) as nat)) / pow2(c)
    }
}

/// The `i`-th of the `count` signed digits of `v` to the radix `2^c`. Every digit
/// hands its excess to the next one; the last has none after it and keeps it.
pub open spec fn signed_digit(v: nat, c: nat, count: nat, i: nat) -> int {
    let coef = (window(v, c, i) + carry_into(v, c, i)) as int;
    if i + 1 == count {
        coef
    } else {
        coef - carry_into(v, c, i + 1) * pow2(c)
    }
}

/// All `count` signed digits of `v`, the lowest first.
pub open spec fn signed_digits(v: nat, c: nat, count: nat) -> Seq<int> {
    Seq::new(count, |i: int| signed_digit(v, c, count, i as nat))
}

/// The number that digits to the radix `2^c` stand for, the lowest digit first.
pub open spec fn digit_sum(d: Seq<int>, c: nat) -> int
    decreases d.len(),
{
    if d.len() == 0 {
        0
    } else {
        d[0] + pow2(c) * digit_sum(d.drop_first(), c)
    }
}

/// Whether every digit but the last lies in `[-2^(c-1), 2^(c-1))`.
pub open spec fn centred(d: Seq<int>, c: nat) -> bool {
    forall|i: int|
        0 <= i < d.len() - 1 ==> -pow2((c - 1) as nat) <= #[trigger] d[i] < pow2((c - 1) as nat)
}

/// The largest number whose `count` signed digits to the radix `2^c` end in a
/// digit of at most `top`.
pub open spec fn largest_with_top(c: nat, count: nat, top: int) -> int
    decreases count,
{
    if count <= 1 {
        top
    } else {
        pow2((c - 1) as nat) - 1 + pow2(c) * largest_with_top(c, (count - 1) as nat, top)
    }
}

/// How many windows of `c` bits cover `num_bits` bits.
pub open spec fn window_count(num_bits: nat, c: nat) -> nat {
    (num_bits / c + if num_bits % c > 0 {
        1nat
    } else {
        0nat
    }) as nat
}

/// Floor of the binary logarithm times 0.69: close to the natural logarithm of
/// `a`, in integers alone.
pub fn ln_without_floats(a: usize) -> (r: usize)
    requires
        a > 0,
    ensures
        r == log(2, a as int) * 69 / 100,
        r <= 43,
{
    let zeros: u32 = (a as u64).leading_zeros();
    proof {
        lemma_log2(a as u64);
    }
    let log2: usize = (63 - zeros) as usize;
    log2 * 69 / 100
}

proof fn lemma_log2(a: u64)
    requires
        a > 0,
    ensures
        vstd::std_specs::bits::u64_leading_zeros(a) == 63 - log(2, a as int),
        0 <= log(2, a as int) <= 63,
    decreases a,
{
    reveal(log);
    reveal_with_fuel(vstd::std_specs::bits::u64_leading_zeros, 2);
    vstd::std_specs::bits::axiom_u64_leading_zeros(a);
    if a > 1 {
        lemma_log2(a / 2);
    }
}

/// `2^c` is twice `2^(c-1)`, and neither is zero.
pub proof fn lemma_half(c: nat)
    requires
        c >= 1,
    ensures
        pow2(c) == 2 * pow2((c - 1) as nat),
        pow2((c - 1) as nat) >= 1,
{
    lemma_pow2_unfold(c);
    lemma_pow2_pos((c - 1) as nat);
}

/// A carry is zero or one, and passing it on brings a digit into
/// `[-2^(c-1), 2^(c-1))`.
pub proof fn lemma_carry_step(v: nat, c: nat, i: nat)
    requires
        c >= 1,
    ensures
        carry_into(v, c, i) <= 1,
        carry_into(v, c, i + 1) <= 1,
        window(v, c, i) < pow2(c),
        ({
            let coef = window(v, c, i) + carry_into(v, c, i);
            let next = carry_into(v, c, i + 1);
            &&& next == (coef + pow2((c - 1) as nat)) / pow2(c)
            &&& -pow2((c - 1) as nat) <= coef - next * pow2(c) < pow2((c - 1) as nat)
        }),
    decreases i,
{
    lemma_half(c);
    if i > 0 {
        lemma_carry_step(v, c, (i - 1) as nat);
    }
    let half = pow2((c - 1) as nat) as int;
    let radix = pow2(c) as int;
    let coef = (window(v, c, i) + carry_into(v, c, i)) as int;
    let next = (coef + half) / radix;
    lemma_fundamental_div_mod(coef + half, radix);
    assert(0 <= (v / pow2(c * i)) as int % radix < radix);
    assert(next <= 1) by (nonlinear_arith)
        requires
            coef + half == radix * next + (coef + half) % radix,
            0 <= (coef + half) % radix,
            coef + half < 2 * radix,
            radix > 0,
    ;
    assert(next >= 0) by (nonlinear_arith)
        requires
            coef + half == radix * next + (coef + half) % radix,
            (coef + half) % radix < radix,
            coef + half >= 0,
            radix > 0,
    ;
    assert(radix * next == next * radix) by (nonlinear_arith);
}

/// The number in the `k` windows of `v` from the `j`-th on.
spec fn bits_from(v: nat, c: nat, j: nat, k: nat) -> nat {
    (v / pow2(c * j)) % pow2(c * k)
}

/// What the digits from the `j`-th on stand for: the bits of `v` from there on,
/// and what is carried into them.
proof fn lemma_tail_sum(v: nat, c: nat, count: nat, j: nat)
    requires
        c >= 1,
        j < count,
    ensures
        digit_sum(signed_digits(v, c, count).skip(j as int), c) == bits_from(
            v,
            c,
            j,
            (count - j) as nat,
        ) + carry_into(v, c, j),
    decreases count - j,
{
    let tail = signed_digits(v, c, count).skip(j as int);
    let u = v / pow2(c * j);
    let rest = tail.drop_first();
    assert(tail[0] == signed_digit(v, c, count, j));
    if j + 1 == count {
        assert(rest.len() == 0);
        assert(digit_sum(rest, c) == 0);
        assert(c * 1 == c);
        assert(pow2(c) * 0 == 0) by (nonlinear_arith);
    } else {
        let k = (count - j - 1) as nat;
        lemma_tail_sum(v, c, count, j + 1);
        assert(rest =~= signed_digits(v, c, count).skip((j + 1) as int));
        assert(c * (j + 1) == c * j + c) by (nonlinear_arith);
        assert(c * (k + 1) == c + c * k) by (nonlinear_arith);
        lemma_pow2_adds(c * j, c);
        lemma_pow2_adds(c, c * k);
        lemma_pow2_pos(c);
        lemma_pow2_pos(c * j);
        lemma_pow2_pos(c * k);
        lemma_div_denominator(v as int, pow2(c * j) as int, pow2(c) as int);
        lemma_mod_breakdown(u as int, pow2(c) as int, pow2(c * k) as int);
        let high = (u / pow2(c)) % pow2(c * k);
        let next = carry_into(v, c, j + 1);
        assert(digit_sum(rest, c) == high + next);
        assert(pow2(c) * (high + next) == pow2(c) * high + next * pow2(c)) by (nonlinear_arith);
    }
}

/// The signed digits of `v` stand for `v`, as far as `count` windows reach.
pub proof fn law_digits_restore_scalar(v: nat, c: nat, count: nat)
    requires
        c >= 1,
    ensures
        digit_sum(signed_digits(v, c, count), c) == v % pow2(c * count),
{
    limbs::lemma_pow2_of_limbs();
    assert(c * 0 == 0);
    if count == 0 {
        assert(pow2(c * count) == 1);
        assert(v % pow2(c * count) == 0);
        assert(digit_sum(signed_digits(v, c, count), c) == 0);
    } else {
        lemma_tail_sum(v, c, count, 0);
        lemma_bits_of_all(v, c, count);
        assert(signed_digits(v, c, count).skip(0) =~= signed_digits(v, c, count));
    }
}

proof fn lemma_bits_of_all(v: nat, c: nat, count: nat)
    ensures
        bits_from(v, c, 0, count) == v % pow2(c * count),
{
    limbs::lemma_pow2_of_limbs();
    assert(c * 0 == 0);
    assert(v / pow2(c * 0) == v);
}

/// Every signed digit but the last lies in `[-2^(c-1), 2^(c-1))`; the last lies
/// in `[0, 2^c]`.
pub proof fn law_digit_range(v: nat, c: nat, count: nat)
    requires
        c >= 1,
    ensures
        centred(signed_digits(v, c, count), c),
        count > 0 ==> 0 <= signed_digits(v, c, count).last() <= pow2(c),
{
    let d = signed_digits(v, c, count);
    assert forall|i: int| 0 <= i < d.len() - 1 implies -pow2((c - 1) as nat) <= #[trigger] d[i]
        < pow2((c - 1) as nat) by {
        lemma_carry_step(v, c, i as nat);
    }
    if count > 0 {
        lemma_carry_step(v, c, (count - 1) as nat);
    }
}

/// Centred digits are determined by the number they stand for: two digit
/// sequences of one length, each centred, that stand for one number are the same.
pub proof fn law_digits_are_unique(d: Seq<int>, e: Seq<int>, c: nat)
    requires
        c >= 1,
        d.len() == e.len(),
        centred(d, c),
        centred(e, c),
        digit_sum(d, c) == digit_sum(e, c),
    ensures
        d == e,
    decreases d.len(),
{
    lemma_half(c);
    if d.len() == 0 {
        assert(d =~= e);
    } else {
        let dr = d.drop_first();
        let er = e.drop_first();
        let x = digit_sum(dr, c);
        let y = digit_sum(er, c);
        let radix = pow2(c) as int;
        if d.len() == 1 {
            assert(dr =~= er);
        } else {
            assert(d[0] - e[0] == radix * (y - x)) by (nonlinear_arith)
                requires
                    d[0] + radix * x == e[0] + radix * y,
            ;
            assert(y == x) by (nonlinear_arith)
                requires
                    d[0] - e[0] == radix * (y - x),
                    -radix < d[0] - e[0] < radix,
            ;
            assert forall|i: int| 0 <= i < dr.len() - 1 implies -pow2((c - 1) as nat)
                <= #[trigger] dr[i] < pow2((c - 1) as nat) by {
                assert(dr[i] == d[i + 1]);
            }
            assert forall|i: int| 0 <= i < er.len() - 1 implies -pow2((c - 1) as nat)
                <= #[trigger] er[i] < pow2((c - 1) as nat) by {
                assert(er[i] == e[i + 1]);
            }
            law_digits_are_unique(dr, er, c);
        }
        assert(d =~= seq![d[0]] + dr);
        assert(e =~= seq![e[0]] + er);
    }
}

proof fn lemma_top_of(d: Seq<int>, c: nat, top: int)
    requires
        c >= 1,
        d.len() > 0,
        centred(d, c),
    ensures
        d.last() <= top <==> digit_sum(d, c) <= largest_with_top(c, d.len(), top),
    decreases d.len(),
{
    lemma_half(c);
    let rest = d.drop_first();
    if d.len() == 1 {
        assert(rest.len() == 0);
        assert(pow2(c) * 0 == 0) by (nonlinear_arith);
    } else {
        assert forall|i: int| 0 <= i < rest.len() - 1 implies -pow2((c - 1) as nat)
            <= #[trigger] rest[i] < pow2((c - 1) as nat) by {
            assert(rest[i] == d[i + 1]);
        }
        lemma_top_of(rest, c, top);
        assert(rest.last() == d.last());
        let s = digit_sum(rest, c);
        let m = largest_with_top(c, rest.len(), top);
        let radix = pow2(c) as int;
        if s <= m {
            assert(radix * s <= radix * m) by (nonlinear_arith)
                requires
                    s <= m,
                    radix > 0,
            ;
        } else {
            assert(radix * s >= radix * m + radix) by (nonlinear_arith)
                requires
                    s >= m + 1,
                    radix > 0,
            ;
        }
    }
}

/// The last signed digit of `v` is at most `top` exactly where the windows hold
/// no more than `largest_with_top`.
pub proof fn law_top_digit(v: nat, c: nat, count: nat, top: int)
    requires
        c >= 1,
        count > 0,
    ensures
        signed_digits(v, c, count).last() <= top <==> v % pow2(c * count) <= largest_with_top(
            c,
            count,
            top,
        ),
{
    law_digits_restore_scalar(v, c, count);
    law_digit_range(v, c, count);
    lemma_top_of(signed_digits(v, c, count), c, top);
}

/// Any scalar that leaves the top bit of the windows clear, and some more, has a
/// last digit that is no larger than the others can be.
pub proof fn law_room_for_top_digit(c: nat, count: nat)
    requires
        c >= 2,
        count >= 2,
    ensures
        largest_with_top(c, count, pow2((c - 1) as nat) as int) >= pow2((c * count - 1) as nat)
            + pow2((c * (count - 2)) as nat),
    decreases count,
{
    let h = pow2((c - 1) as nat);
    let below = (count - 1) as nat;
    assert(c * count == c * below + c) by (nonlinear_arith)
        requires
            below == count - 1,
    ;
    assert(c * below >= c) by (nonlinear_arith)
        requires
            below >= 1,
    ;
    lemma_pow2_adds((c * below - 1) as nat, c);
    lemma_half(c);
    if count == 2 {
        assert(largest_with_top(c, 1, h as int) == h);
        assert(c * below == c && c * (count - 2) == 0) by (nonlinear_arith)
            requires
                below == 1,
                count == 2,
        ;
        vstd::arithmetic::power2::lemma2_to64();
        lemma_pow2_unfold((c - 1) as nat);
        lemma_pow2_pos((c - 2) as nat);
        vstd::arithmetic::mul::lemma_mul_is_commutative(h as int, pow2(c) as int);
    } else {
        law_room_for_top_digit(c, below);
        let l = largest_with_top(c, below, h as int);
        let a = pow2((c * below - 1) as nat);
        let b = pow2((c * (below - 2)) as nat);
        assert(c * (count - 2) == c * (below - 2) + c) by (nonlinear_arith)
            requires
                below == count - 1,
        ;
        assert(c * (below - 2) >= 0) by (nonlinear_arith)
            requires
                below >= 2,
        ;
        lemma_pow2_adds((c * (below - 2)) as nat, c);
        lemma_pow2_pos((c - 1) as nat);
        assert(pow2(c) * l >= a * pow2(c) + b * pow2(c)) by (nonlinear_arith)
            requires
                l >= a + b,
        ;
    }
}

/// Dropping limbs divides by `2^64`, once for each.
proof fn lemma_skip_limbs(s: Seq<u64>, k: nat)
    requires
        k <= s.len(),
    ensures
        limbs::limbs_value(s) / pow2(64 * k) == limbs::limbs_value(s.skip(k as int)),
    decreases k,
{
    limbs::lemma_pow2_of_limbs();
    if k == 0 {
        assert(64 * k == 0);
        assert(s.skip(0) =~= s);
    } else {
        let rest = s.drop_first();
        let below = (k - 1) as nat;
        lemma_skip_limbs(rest, below);
        assert(rest.skip(below as int) =~= s.skip(k as int));
        lemma_pow2_adds(64, 64 * below);
        lemma_pow2_pos(64 * below);
        lemma_div_denominator(
            limbs::limbs_value(s) as int,
            pow2(64) as int,
            pow2(64 * below) as int,
        );
    }
}

/// A low part that lies wholly below bit `hi` does not see what stands from bit
/// `hi` on: reading `c` bits from bit `b` is the same with and without it.
proof fn lemma_read_below(low: nat, high: nat, hi: nat, b: nat, c: nat)
    requires
        b + c <= hi || high == 0,
        b <= hi,
    ensures
        ((low + pow2(hi) * high) / pow2(b)) % pow2(c) == (low / pow2(b)) % pow2(c),
{
    lemma_pow2_pos(b);
    lemma_pow2_pos(c);
    if high == 0 {
        assert(pow2(hi) * high == 0) by (nonlinear_arith)
            requires
                high == 0,
        ;
    } else {
        let mid = (hi - b) as nat;
        let gap = (hi - b - c) as nat;
        lemma_pow2_adds(b, mid);
        lemma_pow2_adds(c, gap);
        assert(pow2(hi) * high == (pow2(mid) * high) * pow2(b)) by (nonlinear_arith)
            requires
                pow2(hi) == pow2(b) * pow2(mid),
        ;
        lemma_hoist_over_denominator(low as int, (pow2(mid) * high) as int, pow2(b));
        assert(pow2(mid) * high == pow2(c) * (pow2(gap) * high)) by (nonlinear_arith)
            requires
                pow2(mid) == pow2(c) * pow2(gap),
        ;
        lemma_mod_multiples_vanish(
            (pow2(gap) * high) as int,
            (low / pow2(b)) as int,
            pow2(c) as int,
        );
    }
}

/// Two neighbouring limbs, shifted together, hold the bits from bit `b` of the
/// lower one on.
proof fn lemma_straddle(x: u64, y: u64, b: u64)
    requires
        0 < b < 64,
    ensures
        ((x >> b) | (y << ((64 - b) as u64))) as nat == ((x + pow2(64) * y) as nat / pow2(b as nat))
            % pow2(64),
{
    limbs::lemma_pow2_of_limbs();
    let z: u128 = (x as u128) | ((y as u128) << 64u128);
    let n: u64 = (64 - b) as u64;
    let bb: u128 = b as u128;
    assert(z == x + 0x1_0000_0000_0000_0000 * y) by (bit_vector)
        requires
            z == (x as u128) | ((y as u128) << 64u128),
    ;
    assert(((x >> b) | (y << n)) == (((x as u128) | ((y as u128) << 64u128)) >> bb)
        % 0x1_0000_0000_0000_0000u128) by (bit_vector)
        requires
            0 < b < 64,
            n == 64 - b,
            bb == b as u128,
    ;
    vstd::bits::lemma_u128_shr_is_div(z, bb);
}

/// The bits that one step of the recoding reads are the window's.
proof fn lemma_window_read(s: Seq<u64>, c: nat, i: nat, buf: u64)
    requires
        1 <= c < 64,
        (c * i) / 64 < s.len(),
        ({
            let at = ((c * i) / 64) as int;
            let b = ((c * i) % 64) as u64;
            if b < 64 - c || at == s.len() - 1 {
                buf == s[at] >> b
            } else {
                buf == (s[at] >> b) | (s[at + 1] << ((64 - b) as u64))
            }
        }),
    ensures
        buf % (pow2(c) as u64) == window(limbs::limbs_value(s), c, i),
        pow2(c) <= u64::MAX,
{
    let at = (c * i) / 64;
    let b = (c * i) % 64;
    let v = limbs::limbs_value(s);
    limbs::lemma_pow2_of_limbs();
    lemma_pow2_pos(c);
    lemma_pow2_pos(b);
    lemma_pow2_strictly_increases(c, 64);
    lemma_skip_limbs(s, at);
    lemma_pow2_adds(64 * at, b);
    lemma_pow2_pos(64 * at);
    lemma_div_denominator(v as int, pow2(64 * at) as int, pow2(b) as int);
    let t = s.skip(at as int);
    let x = s[at as int];
    let rest = t.drop_first();
    assert(t[0] == x);
    assert(limbs::limbs_value(t) == x + pow2(64) * limbs::limbs_value(rest));
    vstd::bits::lemma_u64_shr_is_div(x, b as u64);
    if b < 64 - c || at == s.len() - 1 {
        if at == s.len() - 1 {
            assert(rest.len() == 0);
        }
        lemma_read_below(x as nat, limbs::limbs_value(rest), 64, b, c);
    } else {
        let y = s[at as int + 1];
        let above = rest.drop_first();
        assert(rest[0] == y);
        let low = (x + pow2(64) * y) as nat;
        lemma_straddle(x, y, b as u64);
        lemma_pow2_adds(64, 64);
        assert(limbs::limbs_value(t) == low + pow2(128) * limbs::limbs_value(above));
        lemma_read_below(low, limbs::limbs_value(above), 128, b, c);
        lemma_pow2_adds(c, (64 - c) as nat);
        lemma_pow2_pos((64 - c) as nat);
        lemma_mod_mod((low / pow2(b)) as int, pow2(c) as int, pow2((64 - c) as nat) as int);
    }
}

/// Fills `out` with the signed digits of `scalar` to the radix `2^c`, the lowest
/// first: one digit for each window of `c` bits. All but the last lie in
/// `[-2^(c-1), 2^(c-1))`; the last takes what is carried into it as it comes.
///
/// A radix of at most `2^30` keeps every digit within an `i32`. The windows must
/// begin inside the scalar's limbs; `num_bits` is the width that the caller wants
/// covered, `out` having one slot for each window of it.
pub fn fill_signed_digits(scalar: &[u64], c: usize, num_bits: usize, out: &mut [i32])
    requires
        1 <= c <= 30,
        old(out)@.len() > 0 ==> (old(out)@.len() - 1) * c < 64 * scalar@.len(),
        old(out)@.len() > 0 ==> (old(out)@.len() - 1) * c <= usize::MAX,
    ensures
        final(out)@.len() == old(out)@.len(),
        forall|i: int|
            0 <= i < final(out)@.len() ==> #[trigger] final(out)@[i] == signed_digit(
                limbs::limbs_value(scalar@),
                c as nat,
                old(out)@.len(),
                i as nat,
            ),
        final(out)@.map_values(|d: i32| d as int) == signed_digits(
            limbs::limbs_value(scalar@),
            c as nat,
            old(out)@.len(),
        ),
{
    let ghost v = limbs::limbs_value(scalar@);
    let ghost cn = c as nat;
    proof {
        lemma_half(cn);
        vstd::arithmetic::power2::lemma2_to64();
        if c < 30 {
            lemma_pow2_strictly_increases(cn, 30);
        }
        vstd::bits::lemma_u64_shl_is_mul(1, c as u64);
    }
    let radix: u64 = 1u64 << c;
    let window_mask: u64 = radix - 1;
    let digits_count: usize = out.len();
    let mut carry: u64 = 0;
    for i in 0..digits_count
        invariant
            1 <= c <= 30,
            cn == c as nat,
            v == limbs::limbs_value(scalar@),
            radix == pow2(cn),
            pow2(cn) == 2 * pow2((cn - 1) as nat),
            pow2(cn) <= 0x4000_0000,
            window_mask == radix - 1,
            digits_count == old(out)@.len(),
            out@.len() == digits_count,
            digits_count > 0 ==> (digits_count - 1) * c < 64 * scalar@.len(),
            digits_count > 0 ==> (digits_count - 1) * c <= usize::MAX,
            carry == carry_into(v, cn, i as nat),
            forall|j: int|
                0 <= j < i ==> #[trigger] out@[j] == signed_digit(
                    v,
                    cn,
                    digits_count as nat,
                    j as nat,
                ),
    {
        let ghost before = out@;
        assert(i * c <= (digits_count - 1) * c) by (nonlinear_arith)
            requires
                i <= digits_count - 1,
                c >= 1,
        ;
        assert(i * c == cn * i) by (nonlinear_arith)
            requires
                cn == c,
        ;
        let bit_offset: usize = i * c;
        let u64_idx: usize = bit_offset / 64;
        let bit_idx: usize = bit_offset % 64;
        let bit_buf: u64 = if bit_idx < 64 - c || u64_idx == scalar.len() - 1 {
            scalar[u64_idx] >> bit_idx
        } else {
            (scalar[u64_idx] >> bit_idx) | (scalar[u64_idx + 1] << (64 - bit_idx))
        };
        proof {
            lemma_window_read(scalar@, cn, i as nat, bit_buf);
            vstd::bits::lemma_u64_low_bits_mask_is_mod(bit_buf, cn);
            lemma_carry_step(v, cn, i as nat);
        }
        let coef: u64 = carry + (bit_buf & window_mask);
        proof {
            vstd::bits::lemma_u64_shr_is_div((coef + radix / 2) as u64, c as u64);
        }
        carry = (coef + radix / 2) >> c;
        proof {
            assert(carry * pow2(cn) <= pow2(cn)) by (nonlinear_arith)
                requires
                    carry <= 1,
            ;
            vstd::bits::lemma_u64_shl_is_mul(carry, c as u64);
        }
        let mut digit: i64 = (coef as i64) - ((carry << c) as i64);
        if i == digits_count - 1 {
            digit = digit + (carry << c) as i64;
        }
        out[i] = digit as i32;
        assert(out@ =~= before.update(i as int, digit as i32));
    }
    assert(out@.map_values(|d: i32| d as int) =~= signed_digits(v, cn, digits_count as nat));
}

} // verus!
