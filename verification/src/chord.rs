//! Lines that meet the curve `y^2 = x^3 + 5`: where they meet it, and what that says
//! of sums.
use crate::curve;
use crate::field;
use vstd::prelude::*;

verus! {

/// How far `(x, y)` is from satisfying the equation of the curve.
pub open spec fn off_curve(x: int, y: int) -> int {
    y * y - x * x * x - 5
}

/// How far `(x, y)` is from the line of slope `l` through `(0, c)`.
pub open spec fn off_line(l: int, c: int, x: int, y: int) -> int {
    y - (l * x + c)
}

/// The cubic whose roots are where the line of slope `l` through `(0, c)` meets the
/// curve.
pub open spec fn cubic(l: int, c: int, x: int) -> int {
    x * x * x + 5 - (l * x + c) * (l * x + c)
}

/// Whether the line of slope `l` through `(0, c)` meets the curve where `x` is `r1`,
/// `r2` or `r3`, counted by how often it does: whether these are the roots of its
/// cubic.
pub open spec fn meets(m: nat, l: int, c: int, r1: int, r2: int, r3: int) -> bool {
    &&& field::zero(m, l * l - r1 - r2 - r3)
    &&& field::zero(m, r1 * r2 + r1 * r3 + r2 * r3 + 2 * (l * c))
    &&& field::zero(m, r1 * r2 * r3 - c * c + 5)
}

proof fn lemma_square_of_line(l: int, c: int, x: int)
    by (nonlinear_arith)
    ensures
        (l * x + c) * (l * x + c) == (l * l) * (x * x) + 2 * ((l * c) * x) + c * c,
{
}

proof fn lemma_product_of_roots(r1: int, r2: int, r3: int, x: int)
    ensures
        (x - r1) * (x - r2) * (x - r3) == x * x * x - (r1 + r2 + r3) * (x * x) + (r1 * r2 + r1 * r3
            + r2 * r3) * x - r1 * r2 * r3,
{
    let s = r1 + r2;
    let p = r1 * r2;
    assert((x - r1) * (x - r2) == x * x - s * x + p) by (nonlinear_arith)
        requires
            s == r1 + r2,
            p == r1 * r2,
    ;
    assert((x * x - s * x + p) * (x - r3) == x * x * x - s * (x * x) + p * x - r3 * (x * x) + (s
        * r3) * x - p * r3) by (nonlinear_arith);
    assert(s * r3 == r1 * r3 + r2 * r3) by (nonlinear_arith)
        requires
            s == r1 + r2,
    ;
    assert((s + r3) * (x * x) == s * (x * x) + r3 * (x * x)) by (nonlinear_arith);
    assert((p + (r1 * r3 + r2 * r3)) * x == p * x + (r1 * r3 + r2 * r3) * x) by (nonlinear_arith);
}

/// The cubic and the product of its roots differ by what the roots' sums do.
proof fn lemma_cubic(l: int, c: int, r1: int, r2: int, r3: int, x: int)
    ensures
        cubic(l, c, x) - (x - r1) * (x - r2) * (x - r3) == -((x * x) * (l * l - r1 - r2 - r3)) - x
            * (r1 * r2 + r1 * r3 + r2 * r3 + 2 * (l * c)) + (r1 * r2 * r3 - c * c + 5),
{
    let s = r1 + r2 + r3;
    let e = r1 * r2 + r1 * r3 + r2 * r3;
    let ll = l * l;
    let lc = l * c;
    lemma_square_of_line(l, c, x);
    lemma_product_of_roots(r1, r2, r3, x);
    assert((x * x) * (ll - s) == ll * (x * x) - s * (x * x)) by (nonlinear_arith);
    assert(x * (e + 2 * lc) == e * x + 2 * (lc * x)) by (nonlinear_arith);
}

/// The same of the derivatives at a root.
proof fn lemma_cubic_derivative(l: int, c: int, r1: int, r2: int, r3: int)
    ensures
        3 * (r1 * r1) - 2 * (l * (l * r1 + c)) - (r1 - r2) * (r1 - r3) == -2 * (r1 * (l * l - r1
            - r2 - r3)) - (r1 * r2 + r1 * r3 + r2 * r3 + 2 * (l * c)),
{
    let ll = l * l;
    assert(l * (l * r1 + c) == ll * r1 + l * c) by (nonlinear_arith)
        requires
            ll == l * l,
    ;
    assert((r1 - r2) * (r1 - r3) == r1 * r1 - r1 * r3 - r1 * r2 + r2 * r3) by (nonlinear_arith);
    assert(r1 * (ll - r1 - r2 - r3) == ll * r1 - r1 * r1 - r1 * r2 - r1 * r3) by (nonlinear_arith);
}

/// A point on both the curve and the line is at a root of the cubic.
pub proof fn lemma_root(m: nat, l: int, c: int, x: int, y: int)
    requires
        m > 0,
        field::zero(m, off_curve(x, y)),
        field::zero(m, off_line(l, c, x, y)),
    ensures
        field::zero(m, cubic(l, c, x)),
{
    let t = l * x + c;
    assert((y + t) * (y - t) == y * y - t * t) by (nonlinear_arith);
    field::lemma_sum_of_two(m, cubic(l, c, x), -1, off_curve(x, y), y + t, y - t);
}

/// The cubic, factored.
pub proof fn lemma_factored(m: nat, l: int, c: int, r1: int, r2: int, r3: int, x: int)
    requires
        m > 0,
        meets(m, l, c, r1, r2, r3),
    ensures
        field::zero(m, cubic(l, c, x) - (x - r1) * (x - r2) * (x - r3)),
{
    lemma_cubic(l, c, r1, r2, r3, x);
    let z1 = l * l - r1 - r2 - r3;
    let k = -(x * x);
    assert(k * z1 == -((x * x) * z1)) by (nonlinear_arith)
        requires
            k == -(x * x),
    ;
    let z2 = r1 * r2 + r1 * r3 + r2 * r3 + 2 * (l * c);
    assert((-x) * z2 == -(x * z2)) by (nonlinear_arith);
    field::lemma_sum_of_three(
        m,
        cubic(l, c, x) - (x - r1) * (x - r2) * (x - r3),
        k,
        z1,
        -x,
        z2,
        1,
        r1 * r2 * r3 - c * c + 5,
    );
}

/// The derivative of the cubic at a root.
pub proof fn lemma_derivative(m: nat, l: int, c: int, r1: int, r2: int, r3: int)
    requires
        m > 0,
        meets(m, l, c, r1, r2, r3),
    ensures
        field::zero(m, 3 * (r1 * r1) - 2 * (l * (l * r1 + c)) - (r1 - r2) * (r1 - r3)),
{
    lemma_cubic_derivative(l, c, r1, r2, r3);
    let z1 = l * l - r1 - r2 - r3;
    assert((-2 * r1) * z1 == -2 * (r1 * z1)) by (nonlinear_arith);
    field::lemma_sum_of_two(
        m,
        3 * (r1 * r1) - 2 * (l * (l * r1 + c)) - (r1 - r2) * (r1 - r3),
        -2 * r1,
        z1,
        -1,
        r1 * r2 + r1 * r3 + r2 * r3 + 2 * (l * c),
    );
}

/// A line through two points with different `x`, or tangent at one, meets the curve
/// there and once more.
proof fn lemma_meets(m: nat, l: int, c: int, x1: int, y1: int, x2: int, y2: int, x3: int)
    requires
        field::is_prime(m),
        field::zero(m, off_curve(x1, y1)),
        field::zero(m, off_curve(x2, y2)),
        field::zero(m, off_line(l, c, x1, y1)),
        field::zero(m, off_line(l, c, x2, y2)),
        field::zero(m, l * l - x1 - x2 - x3),
        field::zero(m, x2 - x1) ==> x1 == x2 && field::zero(m, 3 * (x1 * x1) - 2 * (l * y1)),
    ensures
        meets(m, l, c, x1, x2, x3),
{
    let z = l * l - x1 - x2 - x3;
    let e2 = x1 * x2 + x1 * x3 + x2 * x3 + 2 * (l * c);
    let e3 = x1 * x2 * x3 - c * c + 5;
    lemma_root(m, l, c, x1, y1);
    lemma_root(m, l, c, x2, y2);
    lemma_cubic(l, c, x1, x2, x3, x1);
    lemma_cubic(l, c, x1, x2, x3, x2);
    assert((x1 - x1) * (x1 - x2) * (x1 - x3) == 0) by (nonlinear_arith);
    assert((x2 - x1) * (x2 - x2) * (x2 - x3) == 0) by (nonlinear_arith);
    if field::zero(m, x2 - x1) {
        let w = y1 - (l * x1 + c);
        lemma_cubic_derivative(l, c, x1, x2, x3);
        assert((x1 - x2) * (x1 - x3) == 0) by (nonlinear_arith)
            requires
                x1 == x2,
        ;
        assert(l * (l * x1 + c) == l * y1 - l * w) by (nonlinear_arith)
            requires
                w == y1 - (l * x1 + c),
        ;
        assert((-2 * x1) * z == -2 * (x1 * z) && (-2 * l) * w == -2 * (l * w)) by (nonlinear_arith);
        field::lemma_sum_of_three(m, e2, -1, 3 * (x1 * x1) - 2 * (l * y1), -2 * l, w, -2 * x1, z);
    } else {
        assert((x2 - x1) * e2 == x2 * e2 - x1 * e2) by (nonlinear_arith);
        let a = x1 * x1;
        let b = x2 * x2;
        assert((a - b) * z == a * z - b * z) by (nonlinear_arith);
        field::lemma_sum_of_three(
            m,
            (x2 - x1) * e2,
            1,
            cubic(l, c, x1),
            -1,
            cubic(l, c, x2),
            a - b,
            z,
        );
        field::lemma_no_zero_divisors(m, x2 - x1, e2);
    }
    field::lemma_sum_of_three(m, e3, 1, cubic(l, c, x1), x1 * x1, z, x1, e2);
}

/// A point on the curve satisfies its equation.
pub proof fn lemma_on_curve(m: nat, p: (nat, nat))
    requires
        m > 0,
    ensures
        curve::on_curve(m, p) <==> curve::in_field(m, p) && field::zero(
            m,
            off_curve(p.0 as int, p.1 as int),
        ),
{
    let a = (p.1 * p.1) as int;
    let b = (p.0 * p.0 * p.0 + 5) as int;
    vstd::arithmetic::div_mod::lemma_mod_equivalence(a, b, m as int);
}

/// Whether `p`, `q` and the mirror image of `s` are the points in which the line of
/// slope `l` through `(0, c)` meets the curve.
pub open spec fn adds_by(
    m: nat,
    l: int,
    c: int,
    p: (nat, nat),
    q: (nat, nat),
    s: (nat, nat),
) -> bool {
    &&& field::zero(m, off_line(l, c, p.0 as int, p.1 as int))
    &&& field::zero(m, off_line(l, c, q.0 as int, q.1 as int))
    &&& field::zero(m, off_line(l, c, s.0 as int, -s.1))
    &&& meets(m, l, c, p.0 as int, q.0 as int, s.0 as int)
}

/// A multiple of a number by its inverse is the factor.
proof fn lemma_divided(m: nat, a: int, d: int)
    requires
        field::is_prime(m),
        !field::zero(m, d),
    ensures
        field::zero(m, d * (a * curve::inverse(m, d)) - a),
{
    let i = curve::inverse(m, d);
    field::lemma_inverse(m, d);
    assert(d * (a * i) - a == a * (d * i - 1)) by (nonlinear_arith);
    field::lemma_scaled(m, d * (a * i) - a, a, d * i - 1);
}

/// Twice a number that is no zero is none, and so is three times one.
pub proof fn lemma_small_factors(m: nat, y: int)
    requires
        field::is_prime(m),
        m > 5,
        !field::zero(m, y),
    ensures
        !field::zero(m, 2 * y),
        !field::zero(m, 3 * y),
{
    field::lemma_small_not_zero(m, 2);
    field::lemma_small_not_zero(m, 3);
    if field::zero(m, 2 * y) {
        field::lemma_no_zero_divisors(m, 2, y);
    }
    if field::zero(m, 3 * y) {
        field::lemma_no_zero_divisors(m, 3, y);
    }
}

/// The slope of the line through two points is that of any line through them.
proof fn lemma_slope(m: nat, l: int, c: int, p: (nat, nat), q: (nat, nat))
    requires
        field::is_prime(m),
        m > 5,
        curve::in_field(m, p),
        curve::in_field(m, q),
        field::zero(m, off_line(l, c, p.0 as int, p.1 as int)),
        field::zero(m, off_line(l, c, q.0 as int, q.1 as int)),
        p.0 != q.0 || (p == q && p.1 != 0 && field::zero(
            m,
            3 * ((p.0 as int) * (p.0 as int)) - 2 * (l * p.1),
        )),
    ensures
        field::zero(m, curve::slope(m, p, q) - l),
{
    let k = curve::slope(m, p, q);
    let (x1, y1) = (p.0 as int, p.1 as int);
    let (x2, y2) = (q.0 as int, q.1 as int);
    if x1 != x2 {
        let d = x2 - x1;
        if field::zero(m, d) {
            field::lemma_reduced(m, x2, x1);
        }
        lemma_divided(m, y2 - y1, d);
        let z = d * k - (y2 - y1);
        assert(d * (k - l) == d * k - l * x2 + l * x1) by (nonlinear_arith)
            requires
                d == x2 - x1,
        ;
        field::lemma_sum_of_three(
            m,
            d * (k - l),
            1,
            z,
            1,
            off_line(l, c, x2, y2),
            -1,
            off_line(l, c, x1, y1),
        );
        field::lemma_no_zero_divisors(m, d, k - l);
    } else {
        let d = 2 * y1;
        let t = 3 * x1 * x1;
        field::lemma_small_not_zero(m, y1);
        lemma_small_factors(m, y1);
        lemma_divided(m, t, d);
        assert(t == 3 * (x1 * x1)) by (nonlinear_arith)
            requires
                t == 3 * x1 * x1,
        ;
        assert(d * (k - l) == d * k - 2 * (l * y1)) by (nonlinear_arith)
            requires
                d == 2 * y1,
        ;
        field::lemma_sum_of_two(m, d * (k - l), 1, d * k - t, 1, 3 * (x1 * x1) - 2 * (l * y1));
        field::lemma_no_zero_divisors(m, d, k - l);
    }
}

/// Two points on a line add up to the mirror image of the third.
pub proof fn lemma_sum_on_line(
    m: nat,
    l: int,
    c: int,
    p: (nat, nat),
    q: (nat, nat),
    s: (nat, nat),
)
    requires
        field::is_prime(m),
        m > 5,
        curve::in_field(m, p),
        curve::in_field(m, q),
        curve::in_field(m, s),
        field::zero(m, off_line(l, c, p.0 as int, p.1 as int)),
        field::zero(m, off_line(l, c, q.0 as int, q.1 as int)),
        field::zero(m, off_line(l, c, s.0 as int, -s.1)),
        field::zero(m, l * l - p.0 - q.0 - s.0),
        p.0 != q.0 || (p == q && p.1 != 0 && field::zero(
            m,
            3 * ((p.0 as int) * (p.0 as int)) - 2 * (l * p.1),
        )),
    ensures
        curve::curve_sum(m, Some(p), Some(q)) == Some(s),
{
    let k = curve::slope(m, p, q);
    let (x1, y1) = (p.0 as int, p.1 as int);
    let (x3, y3) = (s.0 as int, s.1 as int);
    lemma_slope(m, l, c, p, q);
    let a = k * k - x1 - q.0;
    let x = a % (m as int);
    field::lemma_remainder(m, a);
    assert((k + l) * (k - l) == k * k - l * l) by (nonlinear_arith);
    field::lemma_sum_of_three(m, x - x3, 1, x - a, k + l, k - l, 1, l * l - x1 - q.0 - x3);
    field::lemma_reduced(m, x, x3);
    let b = k * (x1 - x3) - y1;
    let y = b % (m as int);
    field::lemma_remainder(m, b);
    assert((x1 - x3) * (k - l) == k * (x1 - x3) - l * x1 + l * x3) by (nonlinear_arith);
    field::lemma_combine(
        m,
        y - y3,
        1,
        y - b,
        x1 - x3,
        k - l,
        -1,
        off_line(l, c, x1, y1),
        1,
        off_line(l, c, x3, -y3),
    );
    field::lemma_reduced(m, y, y3);
}

/// The line by which two points add up.
pub proof fn lemma_line_of_sum(m: nat, p: (nat, nat), q: (nat, nat)) -> (r: (int, int))
    requires
        field::is_prime(m),
        m > 5,
        curve::on_curve(m, p),
        curve::on_curve(m, q),
        curve::curve_sum(m, Some(p), Some(q)) is Some,
    ensures
        curve::on_curve(m, curve::curve_sum(m, Some(p), Some(q))->0),
        adds_by(m, r.0, r.1, p, q, curve::curve_sum(m, Some(p), Some(q))->0),
{
    let s = curve::curve_sum(m, Some(p), Some(q))->0;
    let (x1, y1) = (p.0 as int, p.1 as int);
    let (x2, y2) = (q.0 as int, q.1 as int);
    let (x3, y3) = (s.0 as int, s.1 as int);
    let l = curve::slope(m, p, q);
    let c = y1 - l * x1;
    lemma_on_curve(m, p);
    lemma_on_curve(m, q);
    lemma_on_curve(m, s);
    assert(off_line(l, c, x1, y1) == 0);
    let a = l * l - x1 - x2;
    let b = l * (x1 - x3) - y1;
    field::lemma_remainder(m, a);
    field::lemma_remainder(m, b);
    assert(x3 == a % (m as int));
    assert(y3 == b % (m as int));
    assert(b == -(l * x3 + c)) by (nonlinear_arith)
        requires
            b == l * (x1 - x3) - y1,
            c == y1 - l * x1,
    ;
    field::lemma_scaled(m, off_line(l, c, x3, -y3), -1, y3 - b);
    assert(field::zero(m, l * l - x1 - x2 - x3));
    if x1 != x2 {
        let d = x2 - x1;
        if field::zero(m, d) {
            field::lemma_reduced(m, x2, x1);
        }
        lemma_divided(m, y2 - y1, d);
        assert(d * l == l * x2 - l * x1) by (nonlinear_arith)
            requires
                d == x2 - x1,
        ;
        field::lemma_scaled(m, off_line(l, c, x2, y2), -1, d * l - (y2 - y1));
    } else {
        let d = 2 * y1;
        let t = 3 * x1 * x1;
        field::lemma_small_not_zero(m, y1);
        lemma_small_factors(m, y1);
        lemma_divided(m, t, d);
        assert(t == 3 * (x1 * x1)) by (nonlinear_arith)
            requires
                t == 3 * x1 * x1,
        ;
        assert(d * l == 2 * (l * y1)) by (nonlinear_arith)
            requires
                d == 2 * y1,
        ;
        field::lemma_scaled(m, 3 * (x1 * x1) - 2 * (l * y1), -1, d * l - t);
    }
    lemma_meets(m, l, c, x1, y1, x2, y2, x3);
    lemma_factored(m, l, c, x1, x2, x3, x3);
    assert((x3 - x1) * (x3 - x2) * (x3 - x3) == 0) by (nonlinear_arith);
    let t = l * x3 + c;
    assert((-y3 + t) * (-y3 - t) == y3 * y3 - t * t) by (nonlinear_arith);
    field::lemma_sum_of_two(
        m,
        off_curve(x3, y3),
        -1,
        cubic(l, c, x3) - (x3 - x1) * (x3 - x2) * (x3 - x3),
        -y3 + t,
        -y3 - t,
    );
    (l, c)
}

/// The mirror image of a point.
pub open spec fn mirrored(m: nat, p: (nat, nat)) -> (nat, nat) {
    (p.0, ((m - p.1) % (m as int)) as nat)
}

/// The mirror image has the opposite `y`, and lies on the curve where the point does.
pub proof fn lemma_mirrored(m: nat, p: (nat, nat))
    requires
        field::is_prime(m),
        m > 5,
        curve::in_field(m, p),
    ensures
        curve::in_field(m, mirrored(m, p)),
        field::zero(m, (mirrored(m, p).1 + p.1) as int),
        mirrored(m, mirrored(m, p)) == p,
        mirrored(m, p).1 == 0 <==> p.1 == 0,
        mirrored(m, p) == p <==> p.1 == 0,
        curve::on_curve(m, p) ==> curve::on_curve(m, mirrored(m, p)),
{
    let n = mirrored(m, p);
    let y = p.1 as int;
    field::lemma_remainder(m, m - y);
    field::lemma_remainder(m, m as int);
    if y == 0 {
        vstd::arithmetic::div_mod::lemma_mod_self_0(m as int);
    } else {
        vstd::arithmetic::div_mod::lemma_small_mod((m - y) as nat, m);
        vstd::arithmetic::div_mod::lemma_small_mod(p.1, m);
        vstd::arithmetic::div_mod::lemma_mod_self_0(m as int);
        if n.1 == p.1 {
            field::lemma_small_not_zero(m, y);
            lemma_small_factors(m, y);
            assert(field::zero(m, 2 * y));
        }
    }
    assert(field::zero(m, n.1 + y)) by {
        if y == 0 {
            assert(n.1 == 0);
        } else {
            assert(n.1 + y == m);
        }
    }
    lemma_on_curve(m, p);
    lemma_on_curve(m, n);
    if curve::on_curve(m, p) {
        let w = n.1 as int;
        assert((w - y) * (w + y) == w * w - y * y) by (nonlinear_arith);
        field::lemma_sum_of_two(
            m,
            off_curve(n.0 as int, w),
            1,
            off_curve(p.0 as int, y),
            w - y,
            w + y,
        );
    }
}

/// Two points on the curve with the same `x` are the same or mirror images.
pub proof fn lemma_same_x(m: nat, p: (nat, nat), q: (nat, nat))
    requires
        field::is_prime(m),
        m > 5,
        curve::on_curve(m, p),
        curve::on_curve(m, q),
        p.0 == q.0,
    ensures
        q == p || q == mirrored(m, p),
{
    let (y, w) = (p.1 as int, q.1 as int);
    let n = mirrored(m, p);
    lemma_on_curve(m, p);
    lemma_on_curve(m, q);
    lemma_mirrored(m, p);
    assert((w - y) * (w + y) == w * w - y * y) by (nonlinear_arith);
    field::lemma_sum_of_two(
        m,
        (w - y) * (w + y),
        1,
        off_curve(q.0 as int, w),
        -1,
        off_curve(p.0 as int, y),
    );
    field::lemma_no_zero_divisors(m, w - y, w + y);
    if field::zero(m, w - y) {
        field::lemma_reduced(m, w, y);
    } else {
        field::lemma_sum_of_two(m, w - n.1, 1, w + y, -1, n.1 + y);
        field::lemma_reduced(m, w, n.1 as int);
    }
}

/// Two points on the curve add up to the identity where they are mirror images, and
/// only there.
pub proof fn lemma_vanishes(m: nat, p: (nat, nat), q: (nat, nat))
    requires
        field::is_prime(m),
        m > 5,
        curve::on_curve(m, p),
        curve::on_curve(m, q),
    ensures
        curve::curve_sum(m, Some(p), Some(q)) is None <==> q == mirrored(m, p),
{
    lemma_mirrored(m, p);
    if p.0 == q.0 {
        lemma_same_x(m, p, q);
    }
}

/// The order in which two points are added does not matter.
pub proof fn lemma_commutes(m: nat, p: (nat, nat), q: (nat, nat))
    requires
        field::is_prime(m),
        m > 5,
        curve::on_curve(m, p),
        curve::on_curve(m, q),
    ensures
        curve::curve_sum(m, Some(p), Some(q)) == curve::curve_sum(m, Some(q), Some(p)),
{
    if p != q && p.0 != q.0 {
        let s = curve::curve_sum(m, Some(p), Some(q))->0;
        let (l, c) = lemma_line_of_sum(m, p, q);
        lemma_on_curve(m, s);
        lemma_sum_on_line(m, l, c, q, p, s);
    }
}

/// A point added to a sum with its mirror image is taken off again.
pub proof fn lemma_cancels(m: nat, p: (nat, nat), q: (nat, nat))
    requires
        field::is_prime(m),
        m > 5,
        curve::on_curve(m, p),
        curve::on_curve(m, q),
        curve::curve_sum(m, Some(p), Some(q)) is Some,
    ensures
        curve::curve_sum(
            m,
            Some(mirrored(m, p)),
            curve::curve_sum(m, Some(p), Some(q)),
        ) == Some(q),
{
    let n = mirrored(m, p);
    let s = curve::curve_sum(m, Some(p), Some(q))->0;
    let (l, c) = lemma_line_of_sum(m, p, q);
    let (x, y, w) = (p.0 as int, p.1 as int, n.1 as int);
    lemma_on_curve(m, p);
    lemma_on_curve(m, s);
    lemma_mirrored(m, p);
    lemma_mirror_line(l, c, x);
    lemma_mirror_line(l, c, s.0 as int);
    lemma_mirror_line(l, c, q.0 as int);
    field::lemma_sum_of_two(m, off_line(-l, -c, x, w), 1, w + y, -1, off_line(l, c, x, y));
    field::lemma_scaled(
        m,
        off_line(-l, -c, s.0 as int, s.1 as int),
        -1,
        off_line(l, c, s.0 as int, -s.1),
    );
    field::lemma_scaled(
        m,
        off_line(-l, -c, q.0 as int, -q.1),
        -1,
        off_line(l, c, q.0 as int, q.1 as int),
    );
    assert((-l) * (-l) == l * l) by (nonlinear_arith);
    if n.0 == s.0 {
        field::lemma_sum_of_two(
            m,
            s.1 - w,
            1,
            off_line(-l, -c, s.0 as int, s.1 as int),
            -1,
            off_line(-l, -c, x, w),
        );
        field::lemma_reduced(m, s.1 as int, w);
        lemma_derivative_swapped(m, l, c, p, q, s);
        let d = 3 * (x * x) - 2 * (l * (l * x + c));
        let t = 3 * (x * x) - 2 * ((-l) * w);
        let u = w + y;
        let o = off_line(l, c, x, y);
        assert(l * (l * x + c) == l * y - l * o && (-l) * w == l * y - l * u && (2 * l) * u == 2 * (
        l * u) && (-2 * l) * o == -2 * (l * o)) by (nonlinear_arith)
            requires
                u == w + y,
                o == y - (l * x + c),
        ;
        field::lemma_sum_of_three(m, t, 1, d, 2 * l, u, -2 * l, o);
        if w == 0 {
            assert((-l) * w == 0) by (nonlinear_arith)
                requires
                    w == 0,
            ;
            lemma_no_vertical_flex(m, p);
        }
    }
    lemma_sum_on_line(m, -l, -c, n, s, q);
}

proof fn lemma_mirror_line(l: int, c: int, x: int)
    ensures
        (-l) * x + (-c) == -(l * x + c),
{
    assert((-l) * x == -(l * x)) by (nonlinear_arith);
}

/// The derivative of the cubic at a point where the line meets the curve twice.
proof fn lemma_derivative_swapped(
    m: nat,
    l: int,
    c: int,
    p: (nat, nat),
    q: (nat, nat),
    s: (nat, nat),
)
    requires
        m > 0,
        adds_by(m, l, c, p, q, s),
        p.0 == s.0,
    ensures
        field::zero(
            m,
            3 * ((p.0 as int) * (p.0 as int)) - 2 * (l * (l * p.0 + c)),
        ),
{
    let x = p.0 as int;
    lemma_derivative(m, l, c, x, q.0 as int, s.0 as int);
    assert((x - q.0) * (x - s.0) == 0) by (nonlinear_arith)
        requires
            x == s.0,
    ;
}

/// No point of the curve with a zero `y` has a zero `x`.
proof fn lemma_no_vertical_flex(m: nat, p: (nat, nat))
    requires
        field::is_prime(m),
        m > 5,
        curve::on_curve(m, p),
        p.1 == 0,
    ensures
        !field::zero(m, 3 * ((p.0 as int) * (p.0 as int))),
{
    let x = p.0 as int;
    lemma_on_curve(m, p);
    if field::zero(m, x) {
        field::lemma_reduced(m, x, 0);
        assert(off_curve(x, 0) == -5) by (nonlinear_arith)
            requires
                x == 0,
        ;
        field::lemma_scaled(m, 5, -1, -5);
        field::lemma_small_not_zero(m, 5);
    }
    if field::zero(m, x * x) {
        field::lemma_no_zero_divisors(m, x, x);
    }
    lemma_small_factors(m, x * x);
}

} // verus!
