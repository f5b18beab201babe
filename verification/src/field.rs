//! Arithmetic modulo a prime.
use crate::curve;
use vstd::arithmetic::div_mod::lemma_fundamental_div_mod;
use vstd::arithmetic::div_mod::lemma_mod_multiples_basic;
use vstd::prelude::*;

verus! {

/// Whether `d` divides `a`.
pub open spec fn divides(d: int, a: int) -> bool {
    a % d == 0
}

/// Whether `m` is a prime.
pub open spec fn is_prime(m: nat) -> bool {
    m > 1 && forall|d: int| 1 < d < m ==> !#[trigger] divides(d, m as int)
}

/// Whether `a` is zero modulo `m`.
pub open spec fn zero(m: nat, a: int) -> bool {
    divides(m as int, a)
}

/// A combination of zeros is a zero.
pub proof fn lemma_combine(
    m: nat,
    e: int,
    k1: int,
    z1: int,
    k2: int,
    z2: int,
    k3: int,
    z3: int,
    k4: int,
    z4: int,
)
    requires
        m > 0,
        e == k1 * z1 + k2 * z2 + k3 * z3 + k4 * z4,
        zero(m, z1),
        zero(m, z2),
        zero(m, z3),
        zero(m, z4),
    ensures
        zero(m, e),
{
    let n = m as int;
    let q1 = lemma_multiple(m, k1, z1);
    let q2 = lemma_multiple(m, k2, z2);
    let q3 = lemma_multiple(m, k3, z3);
    let q4 = lemma_multiple(m, k4, z4);
    assert(q1 * n + q2 * n + q3 * n + q4 * n == (q1 + q2 + q3 + q4) * n) by (nonlinear_arith);
    lemma_mod_multiples_basic(q1 + q2 + q3 + q4, n);
}

proof fn lemma_multiple(m: nat, k: int, z: int) -> (q: int)
    requires
        m > 0,
        zero(m, z),
    ensures
        k * z == q * m,
{
    let n = m as int;
    lemma_fundamental_div_mod(z, n);
    let p = z / n;
    assert(k * (n * p) == (k * p) * n) by (nonlinear_arith);
    k * p
}

/// A multiple of a zero is a zero.
pub proof fn lemma_scaled(m: nat, e: int, k1: int, z1: int)
    requires
        m > 0,
        e == k1 * z1,
        zero(m, z1),
    ensures
        zero(m, e),
{
    assert(zero(m, 0));
    lemma_combine(m, e, k1, z1, 0, 0, 0, 0, 0, 0);
}

/// A combination of two zeros is a zero.
pub proof fn lemma_sum_of_two(m: nat, e: int, k1: int, z1: int, k2: int, z2: int)
    requires
        m > 0,
        e == k1 * z1 + k2 * z2,
        zero(m, z1),
        zero(m, z2),
    ensures
        zero(m, e),
{
    assert(zero(m, 0));
    lemma_combine(m, e, k1, z1, k2, z2, 0, 0, 0, 0);
}

/// A combination of three zeros is a zero.
pub proof fn lemma_sum_of_three(
    m: nat,
    e: int,
    k1: int,
    z1: int,
    k2: int,
    z2: int,
    k3: int,
    z3: int,
)
    requires
        m > 0,
        e == k1 * z1 + k2 * z2 + k3 * z3,
        zero(m, z1),
        zero(m, z2),
        zero(m, z3),
    ensures
        zero(m, e),
{
    assert(zero(m, 0));
    lemma_combine(m, e, k1, z1, k2, z2, k3, z3, 0, 0);
}

/// Zero, and a number less its remainder, are zeros.
pub proof fn lemma_remainder(m: nat, a: int)
    requires
        m > 0,
    ensures
        zero(m, 0),
        zero(m, a - a % (m as int)),
        zero(m, a % (m as int) - a),
        0 <= a % (m as int) < m,
{
    let n = m as int;
    lemma_fundamental_div_mod(a, n);
    lemma_mod_multiples_basic(0, n);
    lemma_mod_multiples_basic(a / n, n);
    lemma_mod_multiples_basic(-(a / n), n);
    assert(n * (a / n) == (a / n) * n && n * (a / n) == -(-(a / n) * n)) by (nonlinear_arith);
}

/// Reduced numbers that are equal modulo `m` are equal.
pub proof fn lemma_reduced(m: nat, a: int, b: int)
    requires
        0 <= a < m,
        0 <= b < m,
        zero(m, a - b),
    ensures
        a == b,
{
    let n = m as int;
    lemma_fundamental_div_mod(a - b, n);
    let q = (a - b) / n;
    assert(q == 0) by (nonlinear_arith)
        requires
            a - b == n * q,
            -n < a - b < n,
    ;
    assert(n * 0 == 0);
}

/// Numbers between zero and the modulus are not zeros.
pub proof fn lemma_small_not_zero(m: nat, a: int)
    requires
        0 < a < m,
    ensures
        !zero(m, a),
{
    vstd::arithmetic::div_mod::lemma_small_mod(a as nat, m);
}

/// Modulo a prime, every number that is no zero has an inverse.
proof fn lemma_has_inverse(m: nat, a: int) -> (i: int)
    requires
        is_prime(m),
        0 < a < m,
    ensures
        zero(m, a * i - 1),
    decreases a,
{
    let n = m as int;
    if a == 1 {
        assert(zero(m, 0));
        1
    } else {
        let q = n / a;
        let r = n % a;
        lemma_fundamental_div_mod(n, a);
        assert(!divides(a, n));
        let j = lemma_has_inverse(m, r);
        let i = -(q * j);
        lemma_mod_multiples_basic(1, n);
        assert(zero(m, n));
        assert(a * i - 1 == 1 * (r * j - 1) + (-j) * n) by (nonlinear_arith)
            requires
                n == a * q + r,
                i == -(q * j),
        ;
        lemma_sum_of_two(m, a * i - 1, 1, r * j - 1, -j, n);
        i
    }
}

/// The inverse is one.
pub proof fn lemma_inverse(m: nat, a: int)
    requires
        is_prime(m),
        !zero(m, a),
    ensures
        zero(m, a * curve::inverse(m, a) - 1),
{
    let n = m as int;
    let r = a % n;
    lemma_remainder(m, a);
    let j = lemma_has_inverse(m, r);
    let i = j % n;
    lemma_remainder(m, j);
    assert(a * i - 1 == 1 * (r * j - 1) + j * (a - r) + a * (i - j)) by (nonlinear_arith);
    lemma_sum_of_three(m, a * i - 1, 1, r * j - 1, j, a - r, a, i - j);
    lemma_one(m, a * i);
    assert(curve::is_inverse(m, a, i));
    let k = curve::inverse(m, a);
    assert(curve::is_inverse(m, a, k));
    lemma_remainder(m, a * k);
}

/// A number that equals one modulo `m` has the remainder one.
pub proof fn lemma_one(m: nat, a: int)
    requires
        m > 1,
        zero(m, a - 1),
    ensures
        a % (m as int) == 1,
{
    lemma_remainder(m, a);
    let r = a % (m as int);
    lemma_sum_of_two(m, r - 1, 1, r - a, 1, a - 1);
    lemma_reduced(m, r, 1);
}

/// Modulo a prime, a product is a zero only where a factor is.
pub proof fn lemma_no_zero_divisors(m: nat, a: int, b: int)
    requires
        is_prime(m),
        zero(m, a * b),
    ensures
        zero(m, a) || zero(m, b),
{
    if !zero(m, a) {
        let i = curve::inverse(m, a);
        lemma_inverse(m, a);
        assert(b == i * (a * b) + (-b) * (a * i - 1)) by (nonlinear_arith);
        lemma_sum_of_two(m, b, i, a * b, -b, a * i - 1);
    }
}

} // verus!
