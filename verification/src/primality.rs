//! Why numbers are prime: by trial, or by an element of large order.
use crate::field;
use vstd::arithmetic::div_mod::lemma_fundamental_div_mod;
use vstd::arithmetic::power::lemma_pow0;
use vstd::arithmetic::power::lemma_pow1;
use vstd::arithmetic::power::lemma_pow_adds;
use vstd::arithmetic::power::lemma_pow_multiplies;
use vstd::arithmetic::power::pow;
use vstd::prelude::*;

verus! {

/// Whether dividing `m` by `d` leaves a rest.
pub open spec fn leaves_rest(m: u32, d: u32) -> bool {
    m % d != 0
}

/// Where every divisor is above `k`, and `m` is below the square of `k + 1`, `m` is
/// prime.
proof fn lemma_no_large_factors(m: nat, k: nat)
    requires
        m > 1,
        forall|d: int| 1 < d < m && #[trigger] field::divides(d, m as int) ==> d > k,
        (k + 1) * (k + 1) > m,
    ensures
        field::is_prime(m),
{
    let n = m as int;
    assert forall|d: int| 1 < d < m implies !#[trigger] field::divides(d, n) by {
        if field::divides(d, n) {
            let q = n / d;
            lemma_fundamental_div_mod(n, d);
            assert(1 < q < n) by (nonlinear_arith)
                requires
                    n == d * q,
                    1 < d < n,
            ;
            vstd::arithmetic::div_mod::lemma_mod_multiples_basic(d, q);
            assert(field::divides(q, n));
            assert(d * q >= (k + 1) * (k + 1)) by (nonlinear_arith)
                requires
                    d > k,
                    q > k,
                    k >= 0,
            ;
        }
    }
}

/// A number is prime where nothing up to its square root divides it.
pub proof fn lemma_prime_by_trial(m: u32, k: u32)
    requires
        m > 1,
        forall|d: u32| 1 < d <= k ==> #[trigger] leaves_rest(m, d),
        (k + 1) * (k + 1) > m,
    ensures
        field::is_prime(m as nat),
{
    assert forall|d: int| 1 < d < m && #[trigger] field::divides(d, m as int) implies d > k by {
        if d <= k {
            assert(leaves_rest(m, d as u32));
        }
    }
    lemma_no_large_factors(m as nat, k as nat);
}

/// Whether the `e`-th power of `b` is one modulo `d`.
pub open spec fn is_one(d: nat, b: int, e: nat) -> bool {
    field::zero(d, pow(b, e) - 1)
}

/// The exponents for which a power is one are closed under differences.
proof fn lemma_difference(d: nat, b: int, x: nat, y: nat)
    requires
        d > 0,
        is_one(d, b, x),
        is_one(d, b, y),
        y <= x,
    ensures
        is_one(d, b, (x - y) as nat),
{
    let z = (x - y) as nat;
    let (p, q) = (pow(b, z), pow(b, y));
    lemma_pow_adds(b, z, y);
    assert(p - 1 == 1 * (p * q - 1) + (-p) * (q - 1)) by (nonlinear_arith);
    field::lemma_sum_of_two(d, p - 1, 1, p * q - 1, -p, q - 1);
}

/// The exponents for which a power is one are closed under multiples.
pub proof fn lemma_multiples(d: nat, b: int, x: nat, k: nat)
    requires
        d > 0,
        is_one(d, b, x),
    ensures
        is_one(d, b, x * k),
    decreases k,
{
    if k == 0 {
        lemma_pow0(b);
        assert(x * 0 == 0);
    } else {
        let j = (k - 1) as nat;
        lemma_multiples(d, b, x, j);
        assert(x * k == x * j + x) by (nonlinear_arith)
            requires
                j == k - 1,
        ;
        let (p, q) = (pow(b, x * j), pow(b, x));
        lemma_pow_adds(b, x * j, x);
        assert(p * q - 1 == q * (p - 1) + 1 * (q - 1)) by (nonlinear_arith);
        field::lemma_sum_of_two(d, p * q - 1, q, p - 1, 1, q - 1);
    }
}

/// Where two powers are one, so is the power for a common divisor of their exponents.
proof fn lemma_common_exponent(d: nat, b: int, x: nat, y: nat) -> (g: nat)
    requires
        d > 0,
        x > 0,
        y > 0,
        is_one(d, b, x),
        is_one(d, b, y),
    ensures
        0 < g <= x,
        g <= y,
        field::divides(g as int, x as int),
        field::divides(g as int, y as int),
        is_one(d, b, g),
    decreases x + y,
{
    if x == y {
        vstd::arithmetic::div_mod::lemma_mod_self_0(x as int);
        x
    } else if x > y {
        let z = (x - y) as nat;
        lemma_difference(d, b, x, y);
        let g = lemma_common_exponent(d, b, z, y);
        field::lemma_sum_of_two(g, x as int, 1, z as int, 1, y as int);
        g
    } else {
        let z = (y - x) as nat;
        lemma_difference(d, b, y, x);
        let g = lemma_common_exponent(d, b, x, z);
        field::lemma_sum_of_two(g, y as int, 1, z as int, 1, x as int);
        g
    }
}

/// The remainders of the first `n` powers of `b`.
spec fn residues(d: nat, b: int, n: nat) -> Set<int>
    decreases n,
{
    if n == 0 {
        Set::empty()
    } else {
        residues(d, b, (n - 1) as nat).insert(pow(b, (n - 1) as nat) % (d as int))
    }
}

proof fn lemma_is_residue(d: nat, b: int, n: nat, a: int) -> (i: nat)
    requires
        residues(d, b, n).contains(a),
    ensures
        i < n,
        a == pow(b, i) % (d as int),
    decreases n,
{
    let last = (n - 1) as nat;
    if a == pow(b, last) % (d as int) {
        last
    } else {
        lemma_is_residue(d, b, last, a)
    }
}

/// Below the order of `b`, its powers have different remainders, none of them zero.
proof fn lemma_residues(d: nat, b: int, f: nat, n: nat)
    requires
        d > 1,
        is_one(d, b, f),
        forall|k: nat| 0 < k < f ==> !#[trigger] is_one(d, b, k),
        n <= f,
    ensures
        residues(d, b, n).finite(),
        residues(d, b, n).len() == n,
        residues(d, b, n).subset_of(vstd::set_lib::set_int_range(1, d as int)),
    decreases n,
{
    if n > 0 {
        let last = (n - 1) as nat;
        let rest = (f - last) as nat;
        let (p, q) = (pow(b, last), pow(b, rest));
        let a = p % (d as int);
        lemma_residues(d, b, f, last);
        field::lemma_remainder(d, p);
        lemma_pow_adds(b, last, rest);
        if a == 0 {
            assert(-1 == 1 * (p * q - 1) + (-q) * (p - 0)) by (nonlinear_arith);
            field::lemma_sum_of_two(d, -1, 1, p * q - 1, -q, p - 0);
            field::lemma_scaled(d, 1, -1, -1);
            field::lemma_small_not_zero(d, 1);
        }
        if residues(d, b, last).contains(a) {
            let i = lemma_is_residue(d, b, last, a);
            let o = pow(b, i);
            let k = (i + rest) as nat;
            field::lemma_remainder(d, o);
            lemma_pow_adds(b, i, rest);
            field::lemma_sum_of_two(d, o - p, 1, o - a, -1, p - a);
            assert(o * q - 1 == 1 * (p * q - 1) + q * (o - p))
                by (nonlinear_arith);
            field::lemma_sum_of_two(d, o * q - 1, 1, p * q - 1, q, o - p);
            assert(is_one(d, b, k));
        }
    }
}

/// The order of an element is below the modulus.
proof fn lemma_order_below(d: nat, b: int, f: nat)
    requires
        d > 1,
        is_one(d, b, f),
        forall|k: nat| 0 < k < f ==> !#[trigger] is_one(d, b, k),
    ensures
        f < d,
{
    lemma_residues(d, b, f, f);
    vstd::set_lib::lemma_int_range(1, d as int);
    vstd::set_lib::lemma_len_subset(
        residues(d, b, f),
        vstd::set_lib::set_int_range(1, d as int),
    );
}

/// A power that is one modulo `m` is one modulo every divisor of `m`, and one that
/// differs from one by a number with an inverse is one modulo none but 1.
proof fn lemma_down_to_divisor(m: nat, d: nat, a: int, i: int)
    requires
        m > 1,
        1 < d,
        field::divides(d as int, m as int),
    ensures
        a % (m as int) == 1 ==> field::zero(d, a - 1),
        ((a % (m as int) - 1) * i) % (m as int) == 1 ==> !field::zero(d, a - 1),
{
    let r = a % (m as int);
    field::lemma_remainder(m, a);
    lemma_zero_below(m, d, a - r);
    if r == 1 {
        assert(field::zero(d, a - 1));
    }
    let p = (r - 1) * i;
    if p % (m as int) == 1 && field::zero(d, a - 1) {
        field::lemma_remainder(m, p);
        lemma_zero_below(m, d, p - 1);
        assert(1 == -1 * (p - 1) + i * (a - 1) + (-i) * (a - r)) by (nonlinear_arith)
            requires
                p == (r - 1) * i,
        ;
        field::lemma_sum_of_three(d, 1, -1, p - 1, i, a - 1, -i, a - r);
        field::lemma_small_not_zero(d, 1);
    }
}

proof fn lemma_zero_below(m: nat, d: nat, a: int)
    requires
        m > 0,
        d > 0,
        field::divides(d as int, m as int),
        field::zero(m, a),
    ensures
        field::zero(d, a),
{
    lemma_fundamental_div_mod(a, m as int);
    let q = a / (m as int);
    assert(m * q == q * m) by (nonlinear_arith);
    field::lemma_scaled(d, a, q, m as int);
}

/// A number is prime where it has an element of prime order `r` that stays away from
/// one modulo every divisor, and `r` reaches its square root.
pub proof fn lemma_prime_by_order(m: nat, b: int, r: nat, i: int)
    requires
        m > 1,
        field::is_prime(r),
        pow(b, r) % (m as int) == 1,
        ((b % (m as int) - 1) * i) % (m as int) == 1,
        r * r > m,
    ensures
        field::is_prime(m),
{
    assert forall|e: int| 1 < e < m && #[trigger] field::divides(e, m as int) implies e > r by {
        let d = e as nat;
        lemma_down_to_divisor(m, d, pow(b, r), 0);
        lemma_down_to_divisor(m, d, b, i);
        lemma_pow1(b);
        assert forall|k: nat| 0 < k < r implies !#[trigger] is_one(d, b, k) by {
            if is_one(d, b, k) {
                let g = lemma_common_exponent(d, b, k, r);
                assert(field::divides(g as int, r as int));
                assert(g == 1);
            }
        }
        lemma_order_below(d, b, r);
    }
    assert((r + 1) * (r + 1) > m) by (nonlinear_arith)
        requires
            r * r > m,
    ;
    lemma_no_large_factors(m, r);
}

/// A number is prime where it has an element whose order is the product of two
/// primes, of which neither power comes to one modulo any divisor, and the product
/// reaches its square root.
pub proof fn lemma_prime_by_two_orders(
    m: nat,
    b: int,
    r: nat,
    s: nat,
    f: nat,
    i: int,
    j: int,
)
    requires
        m > 1,
        f == r * s,
        field::is_prime(r),
        field::is_prime(s),
        pow(b, f) % (m as int) == 1,
        ((pow(b, r) % (m as int) - 1) * i) % (m as int) == 1,
        ((pow(b, s) % (m as int) - 1) * j) % (m as int) == 1,
        f * f > m,
    ensures
        field::is_prime(m),
{
    assert(f > 0) by (nonlinear_arith)
        requires
            f == r * s,
            r > 0,
            s > 0,
    ;
    assert forall|e: int| 1 < e < m && #[trigger] field::divides(e, m as int) implies e > f by {
        let d = e as nat;
        lemma_down_to_divisor(m, d, pow(b, f), 0);
        lemma_down_to_divisor(m, d, pow(b, r), i);
        lemma_down_to_divisor(m, d, pow(b, s), j);
        assert forall|k: nat| 0 < k < f implies !#[trigger] is_one(d, b, k) by {
            if is_one(d, b, k) {
                let g = lemma_common_exponent(d, b, k, f);
                lemma_divisor_of_two(d, b, r, s, g);
            }
        }
        lemma_order_below(d, b, f);
    }
    assert((f + 1) * (f + 1) > m) by (nonlinear_arith)
        requires
            f * f > m,
    ;
    lemma_no_large_factors(m, f);
}

/// A proper divisor of the product of two primes divides one of them.
proof fn lemma_divisor_of_two(d: nat, b: int, r: nat, s: nat, g: nat)
    requires
        d > 0,
        field::is_prime(r),
        field::is_prime(s),
        0 < g < r * s,
        field::divides(g as int, (r * s) as int),
        is_one(d, b, g),
    ensures
        is_one(d, b, r) || is_one(d, b, s),
{
    let h = (r * s) / g;
    lemma_fundamental_div_mod((r * s) as int, g as int);
    assert(h > 1) by (nonlinear_arith)
        requires
            r * s == g * h,
            0 < g < r * s,
    ;
    vstd::arithmetic::div_mod::lemma_mod_multiples_basic(s as int, r as int);
    assert(s * r == r * s) by (nonlinear_arith);
    field::lemma_no_zero_divisors(r, g as int, h as int);
    if field::zero(r, h as int) {
        let k = h / r;
        lemma_fundamental_div_mod(h as int, r as int);
        assert(s == g * k) by (nonlinear_arith)
            requires
                r * s == g * h,
                h == r * k,
                r > 0,
        ;
        lemma_multiples(d, b, g, k);
    } else {
        let k = g / r;
        lemma_fundamental_div_mod(g as int, r as int);
        assert(s == k * h) by (nonlinear_arith)
            requires
                r * s == g * h,
                g == r * k,
                r > 0,
        ;
        assert(0 < k < s) by (nonlinear_arith)
            requires
                s == k * h,
                h > 1,
                s > 0,
        ;
        vstd::arithmetic::div_mod::lemma_mod_multiples_basic(h as int, k as int);
        assert(h * k == k * h) by (nonlinear_arith);
        assert(field::divides(k as int, s as int));
        assert(k == 1);
        assert(r * 1 == r);
    }
}

/// The next two bits of an exponent: the `e`-th power of `b`, raised to the fourth and
/// multiplied by the `d`-th.
pub proof fn lemma_window(m: nat, b: nat, e: nat, x: nat, d: nat, y: nat) -> (f: nat)
    requires
        m > 0,
        pow(b as int, e) % (m as int) == x,
        d < 4,
        d == 0 ==> (x * x * x * x) % m == y,
        d == 1 ==> (x * x * x * x * b) % m == y,
        d == 2 ==> (x * x * x * x * b * b) % m == y,
        d == 3 ==> (x * x * x * x * b * b * b) % m == y,
    ensures
        f == 4 * e + d,
        pow(b as int, f) % (m as int) == y,
{
    let n = m as int;
    let c = b as int;
    let p = pow(c, e);
    lemma_pow_adds(c, e, e);
    lemma_pow_adds(c, 2 * e, e);
    lemma_pow_adds(c, 3 * e, e);
    vstd::arithmetic::div_mod::lemma_mod_twice(p, n);
    lemma_remainder_of_product(p, x as int, p, x as int, n);
    lemma_remainder_of_product(p * p, (x * x) as int, p, x as int, n);
    lemma_remainder_of_product(p * p * p, (x * x * x) as int, p, x as int, n);
    let (p4, x4) = (p * p * p * p, (x * x * x * x) as int);
    lemma_pow1(c);
    lemma_pow_adds(c, 4 * e, 1);
    lemma_pow_adds(c, 4 * e + 1, 1);
    lemma_pow_adds(c, 4 * e + 2, 1);
    lemma_remainder_of_product(p4, x4, c, c, n);
    lemma_remainder_of_product(p4 * c, x4 * c, c, c, n);
    lemma_remainder_of_product(p4 * c * c, x4 * c * c, c, c, n);
    4 * e + d
}

/// The next four bits of an exponent: the `e`-th power of `b`, raised to the sixteenth
/// and multiplied by the `d`-th.
pub proof fn lemma_wide_window(m: nat, b: nat, e: nat, x: nat, d: nat, t: nat, y: nat) -> (f: nat)
    requires
        m > 0,
        pow(b as int, e) % (m as int) == x,
        pow(b as int, d) == t,
        (x * x * x * x * x * x * x * x * x * x * x * x * x * x * x * x * t) % m == y,
    ensures
        f == 16 * e + d,
        pow(b as int, f) % (m as int) == y,
{
    let n = m as int;
    let c = b as int;
    let p = pow(c, e);
    let z = x as int;
    vstd::arithmetic::div_mod::lemma_mod_twice(p, n);
    let (p2, z2) = (p * p, z * z);
    lemma_remainder_of_product(p, z, p, z, n);
    let (p3, z3) = (p2 * p, z2 * z);
    lemma_remainder_of_product(p2, z2, p, z, n);
    let (p4, z4) = (p3 * p, z3 * z);
    lemma_remainder_of_product(p3, z3, p, z, n);
    let (p5, z5) = (p4 * p, z4 * z);
    lemma_remainder_of_product(p4, z4, p, z, n);
    let (p6, z6) = (p5 * p, z5 * z);
    lemma_remainder_of_product(p5, z5, p, z, n);
    let (p7, z7) = (p6 * p, z6 * z);
    lemma_remainder_of_product(p6, z6, p, z, n);
    let (p8, z8) = (p7 * p, z7 * z);
    lemma_remainder_of_product(p7, z7, p, z, n);
    let (p9, z9) = (p8 * p, z8 * z);
    lemma_remainder_of_product(p8, z8, p, z, n);
    let (p10, z10) = (p9 * p, z9 * z);
    lemma_remainder_of_product(p9, z9, p, z, n);
    let (p11, z11) = (p10 * p, z10 * z);
    lemma_remainder_of_product(p10, z10, p, z, n);
    let (p12, z12) = (p11 * p, z11 * z);
    lemma_remainder_of_product(p11, z11, p, z, n);
    let (p13, z13) = (p12 * p, z12 * z);
    lemma_remainder_of_product(p12, z12, p, z, n);
    let (p14, z14) = (p13 * p, z13 * z);
    lemma_remainder_of_product(p13, z13, p, z, n);
    let (p15, z15) = (p14 * p, z14 * z);
    lemma_remainder_of_product(p14, z14, p, z, n);
    let (p16, z16) = (p15 * p, z15 * z);
    lemma_remainder_of_product(p15, z15, p, z, n);
    lemma_pow_adds(c, e, e);
    lemma_pow_adds(c, 2 * e, e);
    lemma_pow_adds(c, 3 * e, e);
    lemma_pow_adds(c, 4 * e, e);
    lemma_pow_adds(c, 5 * e, e);
    lemma_pow_adds(c, 6 * e, e);
    lemma_pow_adds(c, 7 * e, e);
    lemma_pow_adds(c, 8 * e, e);
    lemma_pow_adds(c, 9 * e, e);
    lemma_pow_adds(c, 10 * e, e);
    lemma_pow_adds(c, 11 * e, e);
    lemma_pow_adds(c, 12 * e, e);
    lemma_pow_adds(c, 13 * e, e);
    lemma_pow_adds(c, 14 * e, e);
    lemma_pow_adds(c, 15 * e, e);
    lemma_pow_adds(c, 16 * e, d);
    lemma_remainder_of_product(p16, z16, t as int, t as int, n);
    16 * e + d
}

/// A power of a power.
pub proof fn lemma_power_of_power(m: nat, b: nat, r: nat, c: nat, s: nat, y: nat)
    requires
        m > 0,
        pow(b as int, r) % (m as int) == c,
        pow(c as int, s) % (m as int) == y,
    ensures
        pow(b as int, r * s) % (m as int) == y,
{
    lemma_pow_multiplies(b as int, r, s);
    vstd::arithmetic::power::lemma_pow_mod_noop(pow(b as int, r), s, m as int);
}

proof fn lemma_remainder_of_product(a: int, x: int, c: int, z: int, n: int)
    requires
        n > 0,
        a % n == x % n,
        c % n == z % n,
    ensures
        (a * c) % n == (x * z) % n,
{
    vstd::arithmetic::div_mod::lemma_mul_mod_noop(a, c, n);
    vstd::arithmetic::div_mod::lemma_mul_mod_noop(x, z, n);
}

} // verus!
