//! The little theorem of Fermat, and which numbers are no cubes.
use crate::field;
use crate::primality;
use vstd::arithmetic::power::lemma_pow0;
use vstd::arithmetic::power::lemma_pow1;
use vstd::arithmetic::power::lemma_pow_adds;
use vstd::arithmetic::power::lemma_pow_mod_noop;
use vstd::arithmetic::power::lemma_pow_multiplies;
use vstd::arithmetic::power::pow;
use vstd::prelude::*;
use vstd::set_lib::lemma_int_range;
use vstd::set_lib::lemma_len_subset;
use vstd::set_lib::set_int_range;

verus! {

/// `s` times the `i`-th power of `x`, reduced.
spec fn shift(m: nat, x: int, s: int, i: nat) -> int {
    (s * pow(x, i)) % (m as int)
}

/// `s` times the first `n` powers of `x`, reduced.
spec fn orbit(m: nat, x: int, s: int, n: nat) -> Set<int>
    decreases n,
{
    if n == 0 {
        Set::empty()
    } else {
        orbit(m, x, s, (n - 1) as nat).insert(shift(m, x, s, (n - 1) as nat))
    }
}

proof fn lemma_orbit_has(m: nat, x: int, s: int, n: nat, i: nat)
    requires
        i < n,
    ensures
        orbit(m, x, s, n).contains(shift(m, x, s, i)),
    decreases n,
{
    if i < n - 1 {
        lemma_orbit_has(m, x, s, (n - 1) as nat, i);
    }
}

proof fn lemma_orbit_index(m: nat, x: int, s: int, n: nat, a: int) -> (i: nat)
    requires
        orbit(m, x, s, n).contains(a),
    ensures
        i < n,
        a == shift(m, x, s, i),
    decreases n,
{
    let last = (n - 1) as nat;
    if a == shift(m, x, s, last) {
        last
    } else {
        lemma_orbit_index(m, x, s, last, a)
    }
}

proof fn lemma_power_not_zero(m: nat, x: int, i: nat)
    requires
        field::is_prime(m),
        !field::zero(m, x),
    ensures
        !field::zero(m, pow(x, i)),
    decreases i,
{
    if i == 0 {
        lemma_pow0(x);
        field::lemma_small_not_zero(m, 1);
    } else {
        let j = (i - 1) as nat;
        lemma_power_not_zero(m, x, j);
        lemma_pow_adds(x, j, 1);
        lemma_pow1(x);
        if field::zero(m, pow(x, j) * x) {
            field::lemma_no_zero_divisors(m, pow(x, j), x);
        }
    }
}

/// Two equal entries of an orbit show a power that is one.
proof fn lemma_repeats(m: nat, x: int, s: int, i: nat, j: nat)
    requires
        field::is_prime(m),
        !field::zero(m, x),
        !field::zero(m, s),
        i <= j,
        shift(m, x, s, i) == shift(m, x, s, j),
    ensures
        primality::is_one(m, x, (j - i) as nat),
{
    let k = (j - i) as nat;
    let (p, q) = (pow(x, i), pow(x, k));
    let (a, b) = (s * pow(x, i), s * pow(x, j));
    field::lemma_remainder(m, a);
    field::lemma_remainder(m, b);
    lemma_pow_adds(x, i, k);
    lemma_power_not_zero(m, x, i);
    let r = a % (m as int);
    assert((s * p) * (q - 1) == s * (p * q) - s * p) by (nonlinear_arith);
    field::lemma_sum_of_two(m, (s * p) * (q - 1), 1, b - r, -1, a - r);
    field::lemma_no_zero_divisors(m, s * p, q - 1);
    if field::zero(m, s * p) {
        field::lemma_no_zero_divisors(m, s, p);
    }
}

/// Below the order of `x`, an orbit has as many entries as powers, none of them zero.
proof fn lemma_orbit(m: nat, x: int, s: int, n: nat)
    requires
        field::is_prime(m),
        !field::zero(m, x),
        !field::zero(m, s),
        forall|k: nat| 0 < k < n ==> !#[trigger] primality::is_one(m, x, k),
    ensures
        orbit(m, x, s, n).finite(),
        orbit(m, x, s, n).len() == n,
        orbit(m, x, s, n).subset_of(set_int_range(1, m as int)),
    decreases n,
{
    if n > 0 {
        let last = (n - 1) as nat;
        let a = shift(m, x, s, last);
        lemma_orbit(m, x, s, last);
        field::lemma_remainder(m, s * pow(x, last));
        lemma_power_not_zero(m, x, last);
        if a == 0 {
            field::lemma_no_zero_divisors(m, s, pow(x, last));
        }
        if orbit(m, x, s, last).contains(a) {
            let i = lemma_orbit_index(m, x, s, last, a);
            lemma_repeats(m, x, s, i, last);
        }
    }
}

/// Some power of every number that is no zero is one.
proof fn lemma_has_order(m: nat, x: int) -> (n: nat)
    requires
        field::is_prime(m),
        !field::zero(m, x),
    ensures
        n > 0,
        primality::is_one(m, x, n),
{
    if forall|k: nat| 0 < k < m ==> !#[trigger] primality::is_one(m, x, k) {
        field::lemma_small_not_zero(m, 1);
        lemma_orbit(m, x, 1, m);
        lemma_int_range(1, m as int);
        lemma_len_subset(orbit(m, x, 1, m), set_int_range(1, m as int));
        1
    } else {
        choose|k: nat| 0 < k < m && #[trigger] primality::is_one(m, x, k)
    }
}

/// The least exponent for which the power is one.
proof fn lemma_least_order(m: nat, x: int, n: nat) -> (k: nat)
    requires
        n > 0,
        primality::is_one(m, x, n),
    ensures
        0 < k <= n,
        primality::is_one(m, x, k),
        forall|j: nat| 0 < j < k ==> !#[trigger] primality::is_one(m, x, j),
    decreases n,
{
    if exists|j: nat| 0 < j < n && #[trigger] primality::is_one(m, x, j) {
        let j = choose|j: nat| 0 < j < n && #[trigger] primality::is_one(m, x, j);
        lemma_least_order(m, x, j)
    } else {
        n
    }
}

/// A set of numbers that multiplying by `x` does not leave falls into orbits.
proof fn lemma_orbits_fill(m: nat, x: int, n: nat, set: Set<int>)
    requires
        field::is_prime(m),
        !field::zero(m, x),
        n > 0,
        primality::is_one(m, x, n),
        forall|k: nat| 0 < k < n ==> !#[trigger] primality::is_one(m, x, k),
        set.finite(),
        set.subset_of(set_int_range(1, m as int)),
        forall|t: int| #[trigger] set.contains(t) ==> set.contains((t * x) % (m as int)),
    ensures
        set.len() % n == 0,
    decreases set.len(),
{
    if set.len() == 0 {
        vstd::arithmetic::div_mod::lemma_small_mod(0, n);
    } else {
        let s = set.choose();
        assert(set.contains(s)) by {
            vstd::set::axiom_set_choose_len(set);
        }
        field::lemma_small_not_zero(m, s);
        let o = orbit(m, x, s, n);
        lemma_orbit(m, x, s, n);
        assert forall|a: int| o.contains(a) implies #[trigger] set.contains(a) by {
            let i = lemma_orbit_index(m, x, s, n, a);
            lemma_stays(m, x, set, s, i);
        }
        let rest = set.difference(o);
        assert(o.len() > 0);
        assert(rest.len() == set.len() - n) by {
            vstd::set_lib::lemma_len_difference(set, o);
            assert(rest.union(o) =~= set);
            vstd::set_lib::lemma_set_disjoint_lens(rest, o);
        }
        assert forall|t: int| #[trigger] rest.contains(t) implies rest.contains(
            (t * x) % (m as int),
        ) by {
            let a = (t * x) % (m as int);
            if o.contains(a) {
                lemma_step_back(m, x, s, n, t);
            }
        }
        lemma_orbits_fill(m, x, n, rest);
        vstd::arithmetic::div_mod::lemma_mod_add_multiples_vanish(rest.len() as int, n as int);
    }
}

/// A set that multiplying by `x` does not leave holds the whole orbit of an entry.
proof fn lemma_stays(m: nat, x: int, set: Set<int>, s: int, i: nat)
    requires
        m > 0,
        set.subset_of(set_int_range(1, m as int)),
        set.contains(s),
        forall|t: int| #[trigger] set.contains(t) ==> set.contains((t * x) % (m as int)),
    ensures
        set.contains(shift(m, x, s, i)),
    decreases i,
{
    if i == 0 {
        lemma_pow0(x);
        assert(s * 1 == s);
        vstd::arithmetic::div_mod::lemma_small_mod(s as nat, m);
    } else {
        let j = (i - 1) as nat;
        lemma_stays(m, x, set, s, j);
        lemma_next(m, x, s, j);
    }
}

proof fn lemma_next(m: nat, x: int, s: int, j: nat)
    requires
        m > 0,
    ensures
        (shift(m, x, s, j) * x) % (m as int) == shift(m, x, s, j + 1),
{
    let p = pow(x, j);
    lemma_pow_adds(x, j, 1);
    lemma_pow1(x);
    vstd::arithmetic::div_mod::lemma_mul_mod_noop_left(s * p, x, m as int);
    assert((s * p) * x == s * (p * x)) by (nonlinear_arith);
}

/// What multiplying by `x` takes into an orbit was in it.
proof fn lemma_step_back(m: nat, x: int, s: int, n: nat, t: int)
    requires
        field::is_prime(m),
        !field::zero(m, x),
        n > 0,
        primality::is_one(m, x, n),
        0 < s < m,
        0 < t < m,
        orbit(m, x, s, n).contains((t * x) % (m as int)),
    ensures
        orbit(m, x, s, n).contains(t),
{
    let a = (t * x) % (m as int);
    let i = lemma_orbit_index(m, x, s, n, a);
    let j = if i == 0 {
        (n - 1) as nat
    } else {
        (i - 1) as nat
    };
    let p = pow(x, j);
    let c = shift(m, x, s, j);
    lemma_pow_adds(x, j, 1);
    lemma_pow1(x);
    field::lemma_remainder(m, t * x);
    field::lemma_remainder(m, s * pow(x, i));
    field::lemma_remainder(m, s * p);
    if i == 0 {
        lemma_pow0(x);
        assert(s * 1 == s);
        assert((t - s * p) * x == 1 * (t * x - a) + -1 * (s - a) + (-s) * (p * x - 1))
            by (nonlinear_arith);
        field::lemma_sum_of_three(m, (t - s * p) * x, 1, t * x - a, -1, s - a, -s, p * x - 1);
    } else {
        assert((t - s * p) * x == 1 * (t * x - a) + -1 * (s * (p * x) - a))
            by (nonlinear_arith);
        field::lemma_sum_of_two(m, (t - s * p) * x, 1, t * x - a, -1, s * (p * x) - a);
    }
    field::lemma_no_zero_divisors(m, t - s * p, x);
    field::lemma_sum_of_two(m, t - c, 1, t - s * p, 1, s * p - c);
    field::lemma_reduced(m, t, c);
    lemma_orbit_has(m, x, s, n, j);
}

/// Modulo a prime, every number that is no zero comes to one when raised to the prime
/// less one.
pub proof fn law_fermat(m: nat, x: int)
    requires
        field::is_prime(m),
        !field::zero(m, x),
    ensures
        pow(x, (m - 1) as nat) % (m as int) == 1,
{
    let k = lemma_has_order(m, x);
    let n = lemma_least_order(m, x, k);
    let all = set_int_range(1, m as int);
    lemma_int_range(1, m as int);
    assert forall|t: int| #[trigger] all.contains(t) implies all.contains(
        (t * x) % (m as int),
    ) by {
        field::lemma_remainder(m, t * x);
        if (t * x) % (m as int) == 0 {
            field::lemma_small_not_zero(m, t);
            field::lemma_no_zero_divisors(m, t, x);
        }
    }
    lemma_orbits_fill(m, x, n, all);
    let e = (m - 1) as nat;
    vstd::arithmetic::div_mod::lemma_fundamental_div_mod(e as int, n as int);
    primality::lemma_multiples(m, x, n, e / n);
    field::lemma_one(m, pow(x, e));
}

/// A number is no cube modulo a prime where its power by a third of the prime less one
/// is not one.
pub proof fn lemma_no_cube(m: nat, a: int, e: nat, x: int)
    requires
        field::is_prime(m),
        m == 3 * e + 1,
        !field::zero(m, a),
        pow(a, e) % (m as int) != 1,
    ensures
        !field::zero(m, x * x * x - a),
{
    let c = x * x * x;
    if field::zero(m, c - a) {
        if field::zero(m, x) {
            field::lemma_sum_of_two(m, a, x * x, x, -1, c - a);
        }
        law_fermat(m, x);
        lemma_pow1(x);
        lemma_pow_adds(x, 1, 1);
        lemma_pow_adds(x, 2, 1);
        lemma_pow_multiplies(x, 3, e);
        vstd::arithmetic::div_mod::lemma_mod_equivalence(c, a, m as int);
        lemma_pow_mod_noop(c, e, m as int);
        lemma_pow_mod_noop(a, e, m as int);
    }
}

} // verus!
