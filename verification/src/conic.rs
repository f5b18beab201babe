//! Why addition on the curve is associative.
//!
//! To add three points, two lines are drawn. Together they make a conic of the form
//! `y k = x^2 + a x + b` that meets the curve in the three points and in the mirror
//! image of their sum. However the three are bracketed, the conic is the same, and
//! so is the sum.
use crate::chord;
use crate::curve;
use crate::field;
use crate::group::Group;
use vstd::prelude::*;

verus! {

/// The coefficient `a` of the conic that two lines make.
spec fn conic_a(l1: int, l3: int, x4: int) -> int {
    x4 + l1 * l3
}

/// The coefficient `b` of the conic that two lines make.
spec fn conic_b(l1: int, c1: int, l3: int, c3: int, x4: int) -> int {
    x4 * conic_a(l1, l3, x4) + (l1 * c3 + l3 * c1)
}

/// How far `(x, y)` is from the conic that the lines of slopes `l1` and `l3` through
/// `(0, c1)` and `(0, c3)` make, where they pass through mirror images at `x4`.
spec fn conic(l1: int, c1: int, l3: int, c3: int, x4: int, x: int, y: int) -> int {
    x * x + conic_a(l1, l3, x4) * x + conic_b(l1, c1, l3, c3, x4) - (l1 + l3) * y
}

/// How the conic changes along the curve at `(x, y)`.
spec fn conic_change(l1: int, l3: int, x4: int, x: int, y: int) -> int {
    (2 * x + conic_a(l1, l3, x4)) * (2 * y) - 3 * ((l1 + l3) * (x * x))
}

/// Zero, where the lines pass through mirror images at `x4`.
spec fn gap(l1: int, c1: int, l3: int, c3: int, x4: int) -> int {
    (l1 + l3) * x4 + (c1 + c3)
}

/// Zero, where the lines pass through mirror images on the curve at `x4`.
spec fn rest(l1: int, c1: int, l3: int, c3: int, x4: int) -> int {
    5 + c1 * c3 + x4 * conic_b(l1, c1, l3, c3, x4)
}

proof fn lemma_product_of_lines(l1: int, c1: int, l3: int, c3: int, x: int)
    ensures
        (l1 * x + c1) * (l3 * x + c3) == (l1 * l3) * (x * x) + (l1 * c3 + l3 * c1) * x + c1 * c3,
{
    let f = l1 * x;
    let g = l3 * x;
    assert((f + c1) * (g + c3) == f * g + f * c3 + c1 * g + c1 * c3) by (nonlinear_arith);
    assert((l1 * x) * (l3 * x) == (l1 * l3) * (x * x)) by (nonlinear_arith);
    assert((l1 * x) * c3 + c1 * (l3 * x) == (l1 * c3 + l3 * c1) * x) by (nonlinear_arith);
}

proof fn lemma_sum_of_lines(l1: int, c1: int, l3: int, c3: int, x: int)
    by (nonlinear_arith)
    ensures
        (l1 * x + c1) + (l3 * x + c3) == (l1 + l3) * x + (c1 + c3),
{
}

/// The conic, times `x - x4`, is the product of the lines on the curve.
proof fn lemma_conic(l1: int, c1: int, l3: int, c3: int, x4: int, x: int, y: int)
    ensures
        (x - x4) * conic(l1, c1, l3, c3, x4, x, y) == chord::off_line(l1, c1, x, y)
            * chord::off_line(l3, c3, x, y) - chord::off_curve(x, y) - rest(l1, c1, l3, c3, x4) + y
            * gap(l1, c1, l3, c3, x4),
{
    let a = conic_a(l1, l3, x4);
    let b = conic_b(l1, c1, l3, c3, x4);
    let k = l1 + l3;
    let d = c1 + c3;
    let p = l1 * l3;
    let q = l1 * c3 + l3 * c1;
    let u = l1 * x + c1;
    let v = l3 * x + c3;
    lemma_product_of_lines(l1, c1, l3, c3, x);
    lemma_sum_of_lines(l1, c1, l3, c3, x);
    assert((y - u) * (y - v) == y * y - (u + v) * y + u * v) by (nonlinear_arith);
    assert((k * x + d) * y == k * (x * y) + d * y) by (nonlinear_arith);
    let f = x * x + a * x + b;
    assert((x - x4) * (f - k * y) == x * f - x4 * f - k * (x * y) + (k * x4) * y)
        by (nonlinear_arith);
    assert(x * (x * x + a * x + b) == x * x * x + a * (x * x) + b * x) by (nonlinear_arith);
    assert(x4 * (x * x + a * x + b) == x4 * (x * x) + (x4 * a) * x + x4 * b) by (nonlinear_arith);
    assert((x4 + p) * (x * x) == x4 * (x * x) + p * (x * x)) by (nonlinear_arith);
    assert((x4 * a + q) * x == (x4 * a) * x + q * x) by (nonlinear_arith);
    assert(y * (k * x4 + d) == (k * x4) * y + d * y) by (nonlinear_arith);
}

/// The same of how they change along the curve.
proof fn lemma_conic_change(l1: int, c1: int, l3: int, c3: int, x4: int, x: int, y: int)
    ensures
        (2 * y) * conic(l1, c1, l3, c3, x4, x, y) + (x - x4) * conic_change(l1, l3, x4, x, y) == (3
            * (x * x) - 2 * (l1 * y)) * chord::off_line(l3, c3, x, y) + chord::off_line(
            l1,
            c1,
            x,
            y,
        ) * (3 * (x * x) - 2 * (l3 * y)) + (3 * (x * x)) * gap(l1, c1, l3, c3, x4),
{
    let a = conic_a(l1, l3, x4);
    let b = conic_b(l1, c1, l3, c3, x4);
    let k = l1 + l3;
    let d = c1 + c3;
    let p = l1 * l3;
    let q = l1 * c3 + l3 * c1;
    let u = l1 * x + c1;
    let v = l3 * x + c3;
    let xx = x * x;
    let xy = x * y;
    assert((2 * y) * (xx + a * x + b - k * y) == 2 * (y * xx) + 2 * (a * xy) + 2 * (b * y) - 2 * (k
        * (y * y))) by (nonlinear_arith)
        requires
            xy == x * y,
    ;
    assert((2 * x + a) * (2 * y) == 4 * xy + 2 * (a * y)) by (nonlinear_arith)
        requires
            xy == x * y,
    ;
    assert((x - x4) * (4 * xy) == 4 * (y * xx) - 4 * (x4 * xy)) by (nonlinear_arith)
        requires
            xy == x * y,
            xx == x * x,
    ;
    assert((x - x4) * (2 * (a * y)) == 2 * (a * xy) - 2 * ((x4 * a) * y)) by (nonlinear_arith)
        requires
            xy == x * y,
    ;
    assert((x - x4) * (3 * (k * xx)) == 3 * (k * (x * xx)) - 3 * ((k * x4) * xx))
        by (nonlinear_arith);
    let f = 4 * xy;
    let g = 2 * (a * y);
    let h = 3 * (k * xx);
    assert((x - x4) * (f + g - h) == (x - x4) * f + (x - x4) * g - (x - x4) * h)
        by (nonlinear_arith);
    assert((3 * xx - 2 * (l1 * y)) * (y - v) == 3 * (y * xx) - 3 * (xx * v) - 2 * (l1 * (y * y)) + 2
        * (y * (l1 * v))) by (nonlinear_arith);
    assert((y - u) * (3 * xx - 2 * (l3 * y)) == 3 * (y * xx) - 3 * (xx * u) - 2 * (l3 * (y * y)) + 2
        * (y * (l3 * u))) by (nonlinear_arith);
    lemma_sum_of_lines(l1, c1, l3, c3, x);
    assert(xx * u + xx * v == xx * (u + v)) by (nonlinear_arith);
    assert(xx * (k * x + d) == k * (x * xx) + d * xx) by (nonlinear_arith);
    assert(l1 * v == p * x + l1 * c3) by (nonlinear_arith)
        requires
            v == l3 * x + c3,
            p == l1 * l3,
    ;
    assert(l3 * u == p * x + l3 * c1) by (nonlinear_arith)
        requires
            u == l1 * x + c1,
            p == l1 * l3,
    ;
    let e1 = l1 * c3;
    let e3 = l3 * c1;
    assert(y * (p * x + e1) + y * (p * x + e3) == 2 * (p * xy) + (e1 + e3) * y)
        by (nonlinear_arith)
        requires
            xy == x * y,
    ;
    assert(l1 * (y * y) + l3 * (y * y) == k * (y * y)) by (nonlinear_arith)
        requires
            k == l1 + l3,
    ;
    assert((3 * xx) * (k * x4 + d) == 3 * ((k * x4) * xx) + 3 * (d * xx)) by (nonlinear_arith);
    assert((x4 + p) * xy == x4 * xy + p * xy) by (nonlinear_arith);
    assert((x4 * a + q) * y == (x4 * a) * y + q * y) by (nonlinear_arith);
}

/// Lines through mirror images on the curve leave no gap and no rest.
proof fn lemma_no_gap(m: nat, l1: int, c1: int, l3: int, c3: int, x4: int, y4: int)
    requires
        m > 0,
        field::zero(m, chord::off_curve(x4, y4)),
        field::zero(m, chord::off_line(l1, c1, x4, -y4)),
        field::zero(m, chord::off_line(l3, c3, x4, y4)),
    ensures
        field::zero(m, gap(l1, c1, l3, c3, x4)),
        field::zero(m, rest(l1, c1, l3, c3, x4)),
{
    let u = chord::off_line(l1, c1, x4, -y4);
    let v = chord::off_line(l3, c3, x4, y4);
    let p = l1 * l3;
    let q = l1 * c3 + l3 * c1;
    lemma_sum_of_lines(l1, c1, l3, c3, x4);
    field::lemma_sum_of_two(m, gap(l1, c1, l3, c3, x4), -1, u, -1, v);
    lemma_product_of_lines(l1, c1, l3, c3, x4);
    assert(x4 * (x4 * (x4 + p) + q) == x4 * x4 * x4 + p * (x4 * x4) + q * x4) by (nonlinear_arith);
    assert((-y4 - u) * (y4 - v) == -(y4 * y4) + y4 * v - (y4 - v) * u) by (nonlinear_arith);
    assert((v - y4) * u == -((y4 - v) * u)) by (nonlinear_arith);
    field::lemma_sum_of_three(
        m,
        rest(l1, c1, l3, c3, x4),
        -1,
        chord::off_curve(x4, y4),
        y4,
        v,
        v - y4,
        u,
    );
}

/// The order of the two lines does not matter.
proof fn lemma_conic_of_swapped_lines(
    l1: int,
    c1: int,
    l3: int,
    c3: int,
    x4: int,
    x: int,
    y: int,
)
    ensures
        conic(l1, c1, l3, c3, x4, x, y) == conic(l3, c3, l1, c1, x4, x, y),
{
    assert(l1 * l3 == l3 * l1) by (nonlinear_arith);
}

/// The conic at `x4`.
proof fn lemma_conic_at_join(l1: int, c1: int, l3: int, c3: int, x4: int, y: int)
    ensures
        conic(l1, c1, l3, c3, x4, x4, y) == 3 * (x4 * x4) - 2 * (l1 * (l1 * x4 + c1)) + l1 * gap(
            l1,
            c1,
            l3,
            c3,
            x4,
        ) - (l1 + l3) * chord::off_line(l1, c1, x4, y),
{
    let p = l1 * l3;
    let k = l1 + l3;
    let u = l1 * x4 + c1;
    let v = l3 * x4 + c3;
    assert((x4 + p) * x4 == x4 * x4 + p * x4) by (nonlinear_arith);
    assert(x4 * (x4 + p) == x4 * x4 + p * x4) by (nonlinear_arith);
    assert(k * (y - u) == k * y - l1 * u - l3 * u) by (nonlinear_arith)
        requires
            k == l1 + l3,
    ;
    lemma_sum_of_lines(l1, c1, l3, c3, x4);
    assert(l1 * (u + v) == l1 * u + l1 * v) by (nonlinear_arith);
    assert(l1 * v == p * x4 + l1 * c3) by (nonlinear_arith)
        requires
            v == l3 * x4 + c3,
            p == l1 * l3,
    ;
    assert(l3 * u == p * x4 + l3 * c1) by (nonlinear_arith)
        requires
            u == l1 * x4 + c1,
            p == l1 * l3,
    ;
}

/// A point in which the first line meets the curve, other than where the lines join,
/// lies on the conic.
proof fn lemma_on_conic(
    m: nat,
    l1: int,
    c1: int,
    ra: int,
    rb: int,
    l3: int,
    c3: int,
    x4: int,
    y4: int,
    x: int,
    y: int,
)
    requires
        field::is_prime(m),
        field::zero(m, chord::off_curve(x4, y4)),
        field::zero(m, chord::off_line(l1, c1, x4, -y4)),
        field::zero(m, chord::off_line(l3, c3, x4, y4)),
        chord::meets(m, l1, c1, ra, rb, x4),
        x == ra || x == rb,
        0 <= x < m,
        0 <= x4 < m,
        field::zero(m, chord::off_curve(x, y)),
        field::zero(m, chord::off_line(l1, c1, x, y)),
    ensures
        field::zero(m, conic(l1, c1, l3, c3, x4, x, y)),
{
    let g = conic(l1, c1, l3, c3, x4, x, y);
    let o1 = chord::off_line(l1, c1, x, y);
    let o3 = chord::off_line(l3, c3, x, y);
    let w = gap(l1, c1, l3, c3, x4);
    lemma_no_gap(m, l1, c1, l3, c3, x4, y4);
    if x == x4 {
        lemma_meets_rotated(m, l1, c1, ra, rb, x4);
        chord::lemma_derivative(m, l1, c1, x4, ra, rb);
        assert((x4 - ra) * (x4 - rb) == 0) by (nonlinear_arith)
            requires
                x4 == ra || x4 == rb,
        ;
        lemma_conic_at_join(l1, c1, l3, c3, x4, y);
        assert((-(l1 + l3)) * o1 == -((l1 + l3) * o1)) by (nonlinear_arith);
        field::lemma_sum_of_three(
            m,
            g,
            1,
            3 * (x4 * x4) - 2 * (l1 * (l1 * x4 + c1)),
            l1,
            w,
            -(l1 + l3),
            o1,
        );
    } else {
        if field::zero(m, x - x4) {
            field::lemma_reduced(m, x, x4);
        }
        lemma_conic(l1, c1, l3, c3, x4, x, y);
        assert(o3 * o1 == o1 * o3) by (nonlinear_arith);
        field::lemma_combine(
            m,
            (x - x4) * g,
            o3,
            o1,
            -1,
            chord::off_curve(x, y),
            -1,
            rest(l1, c1, l3, c3, x4),
            y,
            w,
        );
        field::lemma_no_zero_divisors(m, x - x4, g);
    }
}

/// The roots of a line's cubic, in another order.
proof fn lemma_meets_rotated(m: nat, l: int, c: int, r1: int, r2: int, r3: int)
    requires
        chord::meets(m, l, c, r1, r2, r3),
    ensures
        chord::meets(m, l, c, r3, r1, r2),
        chord::meets(m, l, c, r2, r3, r1),
        chord::meets(m, l, c, r2, r1, r3),
{
    assert(r1 * r2 == r2 * r1) by (nonlinear_arith);
    assert(r1 * r2 + r1 * r3 + r2 * r3 == r3 * r1 + r3 * r2 + r1 * r2) by (nonlinear_arith);
    assert(r1 * r2 + r1 * r3 + r2 * r3 == r2 * r3 + r2 * r1 + r3 * r1) by (nonlinear_arith);
    assert(r3 * r1 * r2 == r1 * r2 * r3) by (nonlinear_arith);
    assert(r2 * r3 * r1 == r1 * r2 * r3) by (nonlinear_arith);
}

/// Where the first line is tangent to the curve, or both lines pass, the conic is
/// tangent to the curve.
proof fn lemma_conic_tangent(
    m: nat,
    l1: int,
    c1: int,
    l3: int,
    c3: int,
    x4: int,
    y4: int,
    x: int,
    y: int,
)
    requires
        field::is_prime(m),
        field::zero(m, chord::off_curve(x4, y4)),
        field::zero(m, chord::off_line(l1, c1, x4, -y4)),
        field::zero(m, chord::off_line(l3, c3, x4, y4)),
        0 <= x < m,
        0 <= x4 < m,
        field::zero(m, chord::off_line(l1, c1, x, y)),
        field::zero(m, conic(l1, c1, l3, c3, x4, x, y)),
        field::zero(m, 3 * (x * x) - 2 * (l1 * y)) || field::zero(
            m,
            chord::off_line(l3, c3, x, y),
        ),
        x != x4,
    ensures
        field::zero(m, conic_change(l1, l3, x4, x, y)),
{
    let g = conic(l1, c1, l3, c3, x4, x, y);
    let d = conic_change(l1, l3, x4, x, y);
    let o1 = chord::off_line(l1, c1, x, y);
    let o3 = chord::off_line(l3, c3, x, y);
    let t1 = 3 * (x * x) - 2 * (l1 * y);
    let t3 = 3 * (x * x) - 2 * (l3 * y);
    let w = gap(l1, c1, l3, c3, x4);
    lemma_no_gap(m, l1, c1, l3, c3, x4, y4);
    lemma_conic_change(l1, c1, l3, c3, x4, x, y);
    if field::zero(m, x - x4) {
        field::lemma_reduced(m, x, x4);
    }
    assert((-2 * y) * g == -((2 * y) * g)) by (nonlinear_arith);
    assert(t3 * o1 == o1 * t3) by (nonlinear_arith);
    assert(o3 * t1 == t1 * o3) by (nonlinear_arith);
    if field::zero(m, t1) {
        field::lemma_combine(m, (x - x4) * d, o3, t1, t3, o1, 3 * (x * x), w, -2 * y, g);
    } else {
        field::lemma_combine(m, (x - x4) * d, t1, o3, t3, o1, 3 * (x * x), w, -2 * y, g);
    }
    field::lemma_no_zero_divisors(m, x - x4, d);
}

/// The same where the first line meets the curve in one point only.
proof fn lemma_conic_tangent_at_join(m: nat, l1: int, c1: int, l3: int, x: int, y: int)
    requires
        m > 0,
        field::zero(m, l1 * l1 - x - x - x),
        field::zero(m, 3 * (x * x) - 2 * (l1 * y)),
    ensures
        field::zero(m, conic_change(l1, l3, x, x, y)),
{
    let z = l1 * l1 - x - x - x;
    let t = 3 * (x * x) - 2 * (l1 * y);
    let p = l1 * l3;
    let k = l1 + l3;
    let xx = x * x;
    let ly = l1 * y;
    let ll = l1 * l1;
    assert((3 * x + p) * (2 * y) == 6 * (x * y) + 2 * (p * y)) by (nonlinear_arith);
    assert(p * y == l3 * ly) by (nonlinear_arith)
        requires
            p == l1 * l3,
            ly == l1 * y,
    ;
    assert(k * (3 * xx - 2 * ly) == 3 * (k * xx) - 2 * (l1 * ly) - 2 * (l3 * ly))
        by (nonlinear_arith)
        requires
            k == l1 + l3,
    ;
    assert(l1 * ly == ll * y) by (nonlinear_arith)
        requires
            ly == l1 * y,
            ll == l1 * l1,
    ;
    assert((-2 * y) * (ll - x - x - x) == -2 * (ll * y) + 6 * (x * y)) by (nonlinear_arith);
    assert((-k) * t == -(k * t)) by (nonlinear_arith);
    field::lemma_sum_of_two(m, conic_change(l1, l3, x, x, y), -k, t, -2 * y, z);
}

/// How far `(x, y)` is from the line `k y = d x + e`.
spec fn off(d: int, e: int, k: int, x: int, y: int) -> int {
    d * x + e - k * y
}

/// A line `k y = d x + e` that passes through two points and a third that is not on
/// their line is none: all of its coefficients are zero.
proof fn lemma_no_line(
    m: nat,
    d: int,
    e: int,
    k: int,
    l: int,
    c: int,
    x1: int,
    y1: int,
    x2: int,
    y2: int,
    x3: int,
    y3: int,
)
    requires
        field::is_prime(m),
        m > 5,
        field::zero(m, chord::off_line(l, c, x1, y1)),
        field::zero(m, chord::off_line(l, c, x2, y2)),
        !field::zero(m, chord::off_line(l, c, x3, y3)),
        field::zero(m, off(d, e, k, x1, y1)),
        field::zero(m, off(d, e, k, x2, y2)),
        field::zero(m, off(d, e, k, x3, y3)),
        !field::zero(m, x2 - x1) || (!field::zero(m, 2 * y1) && field::zero(
            m,
            3 * (x1 * x1) - 2 * (l * y1),
        ) && field::zero(m, d * (2 * y1) - 3 * (k * (x1 * x1)))),
    ensures
        field::zero(m, d),
        field::zero(m, e),
        field::zero(m, k),
{
    let o1 = chord::off_line(l, c, x1, y1);
    let o2 = chord::off_line(l, c, x2, y2);
    let o3 = chord::off_line(l, c, x3, y3);
    let f1 = off(d, e, k, x1, y1);
    let f2 = off(d, e, k, x2, y2);
    let f3 = off(d, e, k, x3, y3);
    let w = d - k * l;
    if !field::zero(m, x2 - x1) {
        lemma_off_difference(d, e, k, l, c, x1, y1, x2, y2);
        assert((x2 - x1) * w == w * (x2 - x1)) by (nonlinear_arith);
        field::lemma_combine(m, (x2 - x1) * w, 1, f2, -1, f1, k, o2, -k, o1);
        field::lemma_no_zero_divisors(m, x2 - x1, w);
    } else {
        let t = 3 * (x1 * x1) - 2 * (l * y1);
        let g = d * (2 * y1) - 3 * (k * (x1 * x1));
        let xx = x1 * x1;
        assert((2 * y1) * (d - k * l) == d * (2 * y1) - 2 * (k * (l * y1))) by (nonlinear_arith);
        let ly = l * y1;
        assert(k * (3 * xx - 2 * ly) == 3 * (k * xx) - 2 * (k * ly)) by (nonlinear_arith);
        field::lemma_sum_of_two(m, (2 * y1) * w, 1, g, k, t);
        field::lemma_no_zero_divisors(m, 2 * y1, w);
    }
    lemma_off_difference(d, e, k, l, c, x1, y1, x3, y3);
    assert((x3 - x1) * w == w * (x3 - x1)) by (nonlinear_arith);
    field::lemma_combine(m, k * o3, x3 - x1, w, k, o1, -1, f3, 1, f1);
    field::lemma_no_zero_divisors(m, k, o3);
    assert(k * l == l * k) by (nonlinear_arith);
    field::lemma_sum_of_two(m, d, 1, w, l, k);
    assert((-x1) * d == -(d * x1) && y1 * k == k * y1) by (nonlinear_arith);
    field::lemma_sum_of_three(m, e, 1, f1, -x1, d, y1, k);
}

proof fn lemma_off_difference(
    d: int,
    e: int,
    k: int,
    l: int,
    c: int,
    x1: int,
    y1: int,
    x2: int,
    y2: int,
)
    ensures
        off(d, e, k, x2, y2) - off(d, e, k, x1, y1) == (d - k * l) * (x2 - x1) - k
            * chord::off_line(l, c, x2, y2) + k * chord::off_line(l, c, x1, y1),
        (-k) * chord::off_line(l, c, x1, y1) == -(k * chord::off_line(l, c, x1, y1)),
{
    let o1 = chord::off_line(l, c, x1, y1);
    let kl = k * l;
    assert((d - kl) * (x2 - x1) == d * x2 - d * x1 - kl * x2 + kl * x1) by (nonlinear_arith);
    assert(k * (y1 - (l * x1 + c)) == k * y1 - (k * l) * x1 - k * c) by (nonlinear_arith);
    assert(k * (y2 - (l * x2 + c)) == k * y2 - (k * l) * x2 - k * c) by (nonlinear_arith);
    assert((-k) * o1 == -(k * o1)) by (nonlinear_arith);
}

/// What the coefficients of the conic say of the points in which it meets the curve.
proof fn lemma_roots_of_conic(
    m: nat,
    l1: int,
    c1: int,
    l3: int,
    c3: int,
    x1: int,
    x2: int,
    x3: int,
    x4: int,
    x6: int,
)
    requires
        m > 0,
        chord::meets(m, l1, c1, x1, x2, x4),
        chord::meets(m, l3, c3, x4, x3, x6),
    ensures
        field::zero(
            m,
            2 * conic_a(l1, l3, x4) - (l1 + l3) * (l1 + l3) + (x1 + x2 + x3 + x6),
        ),
{
    assert((l1 + l3) * (l1 + l3) == l1 * l1 + 2 * (l1 * l3) + l3 * l3) by (nonlinear_arith);
    field::lemma_sum_of_two(
        m,
        2 * conic_a(l1, l3, x4) - (l1 + l3) * (l1 + l3) + (x1 + x2 + x3 + x6),
        -1,
        l1 * l1 - x1 - x2 - x4,
        -1,
        l3 * l3 - x4 - x3 - x6,
    );
}

/// Where a conic `k y = x^2 + a x + b` with a zero `k` passes through two points, the
/// sum of their `x` is the opposite of `a`.
proof fn lemma_unbent(m: nat, a: int, b: int, k: int, x1: int, y1: int, x2: int, y2: int)
    requires
        field::is_prime(m),
        field::zero(m, k),
        field::zero(m, x1 * x1 + a * x1 + b - k * y1),
        field::zero(m, x2 * x2 + a * x2 + b - k * y2),
        !field::zero(m, x1 - x2),
    ensures
        field::zero(m, x1 + x2 + a),
{
    let f1 = x1 * x1 + a * x1 + b - k * y1;
    let f2 = x2 * x2 + a * x2 + b - k * y2;
    assert((x1 - x2) * (x1 + x2 + a) == x1 * x1 - x2 * x2 + a * x1 - a * x2) by (nonlinear_arith);
    assert((y1 - y2) * k == k * y1 - k * y2) by (nonlinear_arith);
    field::lemma_sum_of_three(m, (x1 - x2) * (x1 + x2 + a), 1, f1, -1, f2, y1 - y2, k);
    field::lemma_no_zero_divisors(m, x1 - x2, x1 + x2 + a);
}

/// The conic through three points on no line bends.
proof fn lemma_bent(
    m: nat,
    a: int,
    b: int,
    k: int,
    x1: int,
    y1: int,
    x2: int,
    y2: int,
    x3: int,
    y3: int,
)
    requires
        field::is_prime(m),
        m > 5,
        field::zero(m, x1 * x1 + a * x1 + b - k * y1),
        field::zero(m, x2 * x2 + a * x2 + b - k * y2),
        field::zero(m, x3 * x3 + a * x3 + b - k * y3),
        !field::zero(m, x1 - x3),
        !field::zero(m, x2 - x3),
        !field::zero(m, x1 - x2) || (x1 == x2 && !field::zero(m, 2 * y1) && field::zero(
            m,
            (2 * x1 + a) * (2 * y1) - 3 * (k * (x1 * x1)),
        )),
    ensures
        !field::zero(m, k),
{
    if field::zero(m, k) {
        lemma_unbent(m, a, b, k, x1, y1, x3, y3);
        if !field::zero(m, x1 - x2) {
            lemma_unbent(m, a, b, k, x1, y1, x2, y2);
        } else {
            let xx = x1 * x1;
            let g = (2 * x1 + a) * (2 * y1) - 3 * (k * xx);
            assert((2 * y1) * (2 * x1 + a) == (2 * x1 + a) * (2 * y1)) by (nonlinear_arith);
            assert((3 * xx) * k == 3 * (k * xx)) by (nonlinear_arith);
            field::lemma_sum_of_two(m, (2 * y1) * (2 * x1 + a), 1, g, 3 * xx, k);
            field::lemma_no_zero_divisors(m, 2 * y1, 2 * x1 + a);
        }
        field::lemma_sum_of_two(m, x2 - x3, 1, x1 + x2 + a, -1, x1 + x3 + a);
    }
}

/// How far `(x, y)` is from the conic `k y = x^2 + a x + b`.
spec fn off_conic(a: int, b: int, k: int, x: int, y: int) -> int {
    x * x + a * x + b - k * y
}

/// Whether the conic `k y = x^2 + a x + b` meets the curve in `p`, `q` and `r` and in
/// the mirror image of `u`, and is tangent to it where `p` and `q` are one.
spec fn passes(
    m: nat,
    a: int,
    b: int,
    k: int,
    p: (nat, nat),
    q: (nat, nat),
    r: (nat, nat),
    u: (nat, nat),
) -> bool {
    &&& field::zero(m, off_conic(a, b, k, p.0 as int, p.1 as int))
    &&& field::zero(m, off_conic(a, b, k, q.0 as int, q.1 as int))
    &&& field::zero(m, off_conic(a, b, k, r.0 as int, r.1 as int))
    &&& field::zero(m, off_conic(a, b, k, u.0 as int, -u.1))
    &&& p == q ==> field::zero(
        m,
        (2 * p.0 + a) * (2 * p.1) - 3 * (k * ((p.0 as int) * (p.0 as int))),
    )
    &&& field::zero(m, 2 * a - k * k + (p.0 + q.0 + r.0 + u.0))
}

proof fn lemma_mirror_off_curve(x: int, y: int)
    ensures
        chord::off_curve(x, -y) == chord::off_curve(x, y),
{
    assert((-y) * (-y) == y * y) by (nonlinear_arith);
}

/// Where a line is tangent to the curve.
proof fn lemma_tangent(m: nat, l: int, c: int, p: (nat, nat), s: (nat, nat))
    requires
        m > 0,
        chord::adds_by(m, l, c, p, p, s),
    ensures
        field::zero(m, 3 * ((p.0 as int) * (p.0 as int)) - 2 * (l * p.1)),
{
    let (x, y) = (p.0 as int, p.1 as int);
    let o = chord::off_line(l, c, x, y);
    chord::lemma_derivative(m, l, c, x, x, s.0 as int);
    assert((x - x) * (x - s.0) == 0) by (nonlinear_arith);
    assert(l * (l * x + c) == l * y - l * o) by (nonlinear_arith)
        requires
            o == y - (l * x + c),
    ;
    assert((-2 * l) * o == -2 * (l * o)) by (nonlinear_arith);
    field::lemma_sum_of_two(
        m,
        3 * (x * x) - 2 * (l * y),
        1,
        3 * (x * x) - 2 * (l * (l * x + c)),
        -2 * l,
        o,
    );
}

/// The conic of adding `p` and `q` first.
proof fn lemma_conic_from_left(
    m: nat,
    p: (nat, nat),
    q: (nat, nat),
    r: (nat, nat),
    s: (nat, nat),
    u: (nat, nat),
) -> (f: (int, int, int))
    requires
        field::is_prime(m),
        m > 5,
        curve::on_curve(m, p),
        curve::on_curve(m, q),
        curve::on_curve(m, r),
        curve::curve_sum(m, Some(p), Some(q)) == Some(s),
        curve::curve_sum(m, Some(s), Some(r)) == Some(u),
    ensures
        passes(m, f.0, f.1, f.2, p, q, r, u),
{
    let (l1, c1) = chord::lemma_line_of_sum(m, p, q);
    let (l3, c3) = chord::lemma_line_of_sum(m, s, r);
    let (x1, y1, x2, y2) = (p.0 as int, p.1 as int, q.0 as int, q.1 as int);
    let (x3, y3, x4, y4) = (r.0 as int, r.1 as int, s.0 as int, s.1 as int);
    let (x6, y6) = (u.0 as int, u.1 as int);
    chord::lemma_on_curve(m, p);
    chord::lemma_on_curve(m, q);
    chord::lemma_on_curve(m, r);
    chord::lemma_on_curve(m, s);
    chord::lemma_on_curve(m, u);
    lemma_mirror_off_curve(x4, y4);
    lemma_mirror_off_curve(x6, y6);
    lemma_meets_rotated(m, l3, c3, x4, x3, x6);
    lemma_on_conic(m, l1, c1, x1, x2, l3, c3, x4, y4, x1, y1);
    lemma_on_conic(m, l1, c1, x1, x2, l3, c3, x4, y4, x2, y2);
    lemma_on_conic(m, l3, c3, x3, x6, l1, c1, x4, -y4, x3, y3);
    lemma_on_conic(m, l3, c3, x3, x6, l1, c1, x4, -y4, x6, -y6);
    lemma_conic_of_swapped_lines(l1, c1, l3, c3, x4, x3, y3);
    lemma_conic_of_swapped_lines(l1, c1, l3, c3, x4, x6, -y6);
    lemma_roots_of_conic(m, l1, c1, l3, c3, x1, x2, x3, x4, x6);
    if p == q {
        lemma_tangent(m, l1, c1, p, s);
        if x1 == x4 {
            lemma_conic_tangent_at_join(m, l1, c1, l3, x1, y1);
        } else {
            lemma_conic_tangent(m, l1, c1, l3, c3, x4, y4, x1, y1);
        }
    }
    (conic_a(l1, l3, x4), conic_b(l1, c1, l3, c3, x4), l1 + l3)
}

/// The conic of adding `q` and `r` first.
proof fn lemma_conic_from_right(
    m: nat,
    p: (nat, nat),
    q: (nat, nat),
    r: (nat, nat),
    t: (nat, nat),
    v: (nat, nat),
) -> (f: (int, int, int))
    requires
        field::is_prime(m),
        m > 5,
        curve::on_curve(m, p),
        curve::on_curve(m, q),
        curve::on_curve(m, r),
        curve::curve_sum(m, Some(q), Some(r)) == Some(t),
        curve::curve_sum(m, Some(p), Some(t)) == Some(v),
    ensures
        passes(m, f.0, f.1, f.2, p, q, r, v),
{
    let (l2, c2) = chord::lemma_line_of_sum(m, q, r);
    let (l4, c4) = chord::lemma_line_of_sum(m, p, t);
    let (x1, y1, x2, y2) = (p.0 as int, p.1 as int, q.0 as int, q.1 as int);
    let (x3, y3, x5, y5) = (r.0 as int, r.1 as int, t.0 as int, t.1 as int);
    let (x7, y7) = (v.0 as int, v.1 as int);
    chord::lemma_on_curve(m, p);
    chord::lemma_on_curve(m, q);
    chord::lemma_on_curve(m, r);
    chord::lemma_on_curve(m, t);
    chord::lemma_on_curve(m, v);
    lemma_mirror_off_curve(x5, y5);
    lemma_mirror_off_curve(x7, y7);
    lemma_meets_rotated(m, l4, c4, x1, x5, x7);
    lemma_on_conic(m, l2, c2, x2, x3, l4, c4, x5, y5, x2, y2);
    lemma_on_conic(m, l2, c2, x2, x3, l4, c4, x5, y5, x3, y3);
    lemma_on_conic(m, l4, c4, x7, x1, l2, c2, x5, -y5, x1, y1);
    lemma_on_conic(m, l4, c4, x7, x1, l2, c2, x5, -y5, x7, -y7);
    lemma_conic_of_swapped_lines(l2, c2, l4, c4, x5, x1, y1);
    lemma_conic_of_swapped_lines(l2, c2, l4, c4, x5, x7, -y7);
    lemma_roots_of_conic(m, l2, c2, l4, c4, x2, x3, x1, x5, x7);
    if p == q {
        if x1 == x5 {
            chord::lemma_cancels(m, q, r);
            chord::lemma_mirrored(m, p);
            chord::lemma_same_x(m, p, t);
            chord::lemma_vanishes(m, p, t);
            assert(t == p);
            chord::lemma_vanishes(m, chord::mirrored(m, q), t);
        }
        lemma_conic_tangent(m, l2, c2, l4, c4, x5, y5, x1, y1);
    }
    (conic_a(l2, l4, x5), conic_b(l2, c2, l4, c4, x5), l2 + l4)
}

/// A point on the line of a sum is one of the points added, or the mirror image of
/// the sum.
proof fn lemma_off_chord(
    m: nat,
    p: (nat, nat),
    q: (nat, nat),
    s: (nat, nat),
    r: (nat, nat),
    l: int,
    c: int,
)
    requires
        field::is_prime(m),
        m > 5,
        curve::in_field(m, p),
        curve::in_field(m, q),
        curve::in_field(m, s),
        curve::on_curve(m, r),
        chord::adds_by(m, l, c, p, q, s),
        r != p,
        r != q,
        r != chord::mirrored(m, s),
    ensures
        !field::zero(m, chord::off_line(l, c, r.0 as int, r.1 as int)),
{
    let (x, y) = (r.0 as int, r.1 as int);
    let o = chord::off_line(l, c, x, y);
    if field::zero(m, o) {
        let n = chord::mirrored(m, s);
        chord::lemma_on_curve(m, r);
        chord::lemma_mirrored(m, s);
        chord::lemma_root(m, l, c, x, y);
        chord::lemma_factored(m, l, c, p.0 as int, q.0 as int, s.0 as int, x);
        let f = (x - p.0) * (x - q.0) * (x - s.0);
        field::lemma_sum_of_two(m, f, 1, chord::cubic(l, c, x), -1, chord::cubic(l, c, x) - f);
        field::lemma_no_zero_divisors(m, (x - p.0) * (x - q.0), x - s.0);
        if field::zero(m, x - s.0) {
            field::lemma_reduced(m, x, s.0 as int);
            field::lemma_sum_of_three(
                m,
                y - n.1,
                1,
                o,
                -1,
                chord::off_line(l, c, s.0 as int, -s.1),
                -1,
                (n.1 + s.1) as int,
            );
            field::lemma_reduced(m, y, n.1 as int);
        } else {
            field::lemma_no_zero_divisors(m, x - p.0, x - q.0);
            let w = if field::zero(m, x - p.0) {
                p
            } else {
                q
            };
            field::lemma_reduced(m, x, w.0 as int);
            field::lemma_sum_of_two(
                m,
                y - w.1,
                1,
                o,
                -1,
                chord::off_line(l, c, w.0 as int, w.1 as int),
            );
            field::lemma_reduced(m, y, w.1 as int);
        }
    }
}

/// Three points that are not one another's mirror images, of which the last is
/// neither of the others, add up to one sum in both ways.
proof fn lemma_same_sum(
    m: nat,
    p: (nat, nat),
    q: (nat, nat),
    r: (nat, nat),
    s: (nat, nat),
    t: (nat, nat),
    u: (nat, nat),
    v: (nat, nat),
)
    requires
        field::is_prime(m),
        m > 5,
        curve::on_curve(m, p),
        curve::on_curve(m, q),
        curve::on_curve(m, r),
        curve::curve_sum(m, Some(p), Some(q)) == Some(s),
        curve::curve_sum(m, Some(s), Some(r)) == Some(u),
        curve::curve_sum(m, Some(q), Some(r)) == Some(t),
        curve::curve_sum(m, Some(p), Some(t)) == Some(v),
        r != p,
        r != q,
        r != chord::mirrored(m, p),
    ensures
        u == v,
{
    let (a, b, k) = lemma_conic_from_left(m, p, q, r, s, u);
    let (a2, b2, k2) = lemma_conic_from_right(m, p, q, r, t, v);
    let (l, c) = chord::lemma_line_of_sum(m, p, q);
    let (_, _) = chord::lemma_line_of_sum(m, s, r);
    let (_, _) = chord::lemma_line_of_sum(m, q, r);
    let (_, _) = chord::lemma_line_of_sum(m, p, t);
    let (x1, y1, x2, y2) = (p.0 as int, p.1 as int, q.0 as int, q.1 as int);
    let (x3, y3) = (r.0 as int, r.1 as int);
    let (x6, y6, x7, y7) = (u.0 as int, u.1 as int, v.0 as int, v.1 as int);
    let d = a - a2;
    let e = b - b2;
    let f = k - k2;
    chord::lemma_mirrored(m, p);
    chord::lemma_vanishes(m, p, q);
    chord::lemma_vanishes(m, q, r);
    chord::lemma_vanishes(m, s, r);
    lemma_different_x(m, p, r);
    lemma_different_x(m, q, r);
    if p != q {
        lemma_different_x(m, q, p);
        lemma_different_x(m, p, q);
    } else {
        lemma_tangent(m, l, c, p, s);
        field::lemma_small_not_zero(m, y1);
        chord::lemma_small_factors(m, y1);
        lemma_change_difference(m, a, k, a2, k2, x1, y1);
    }
    lemma_conic_difference(m, a, b, k, a2, b2, k2, x1, y1);
    lemma_conic_difference(m, a, b, k, a2, b2, k2, x2, y2);
    lemma_conic_difference(m, a, b, k, a2, b2, k2, x3, y3);
    lemma_off_chord(m, p, q, s, r, l, c);
    lemma_no_line(m, d, e, f, l, c, x1, y1, x2, y2, x3, y3);
    // The other two points have the same x.
    let n = x1 + x2 + x3;
    assert((k + k2) * (k - k2) == k * k - k2 * k2) by (nonlinear_arith);
    field::lemma_combine(
        m,
        x6 - x7,
        1,
        2 * a - k * k + (n + x6),
        -1,
        2 * a2 - k2 * k2 + (n + x7),
        -2,
        d,
        k + k2,
        f,
    );
    field::lemma_reduced(m, x6, x7);
    // And the same y.
    lemma_bent(m, a, b, k, x1, y1, x2, y2, x3, y3);
    assert(k * (y6 - y7) == off_conic(a, b, k, x6, -y6) - off_conic(a2, b2, k2, x6, -y7) - x6 * d
        - e - y7 * f) by {
        assert(k * (-y6) == -(k * y6) && k2 * (-y7) == -(k2 * y7)) by (nonlinear_arith);
        assert(k * (y6 - y7) == k * y6 - k * y7) by (nonlinear_arith);
        assert(x6 * (a - a2) == a * x6 - a2 * x6) by (nonlinear_arith);
        assert(y7 * (k - k2) == k * y7 - k2 * y7) by (nonlinear_arith);
    }
    let w = off_conic(a, b, k, x6, -y6) - off_conic(a2, b2, k2, x6, -y7);
    field::lemma_sum_of_two(
        m,
        w,
        1,
        off_conic(a, b, k, x6, -y6),
        -1,
        off_conic(a2, b2, k2, x6, -y7),
    );
    assert((-x6) * d == -(x6 * d) && (-y7) * f == -(y7 * f)) by (nonlinear_arith);
    field::lemma_combine(m, k * (y6 - y7), 1, w, -x6, d, -1, e, -y7, f);
    field::lemma_no_zero_divisors(m, k, y6 - y7);
    field::lemma_reduced(m, y6, y7);
}

/// Points that are neither the same nor mirror images have different `x`.
proof fn lemma_different_x(m: nat, p: (nat, nat), q: (nat, nat))
    requires
        field::is_prime(m),
        m > 5,
        curve::on_curve(m, p),
        curve::on_curve(m, q),
        q != p,
        q != chord::mirrored(m, p),
    ensures
        !field::zero(m, p.0 - q.0),
{
    if field::zero(m, p.0 - q.0) {
        field::lemma_reduced(m, p.0 as int, q.0 as int);
        chord::lemma_same_x(m, p, q);
    }
}

/// Two conics through one point differ there by nothing.
proof fn lemma_conic_difference(
    m: nat,
    a: int,
    b: int,
    k: int,
    a2: int,
    b2: int,
    k2: int,
    x: int,
    y: int,
)
    requires
        m > 0,
        field::zero(m, off_conic(a, b, k, x, y)),
        field::zero(m, off_conic(a2, b2, k2, x, y)),
    ensures
        field::zero(m, off(a - a2, b - b2, k - k2, x, y)),
{
    assert((a - a2) * x == a * x - a2 * x && (k - k2) * y == k * y - k2 * y) by (nonlinear_arith);
    field::lemma_sum_of_two(
        m,
        off(a - a2, b - b2, k - k2, x, y),
        1,
        off_conic(a, b, k, x, y),
        -1,
        off_conic(a2, b2, k2, x, y),
    );
}

/// Two conics that are tangent to the curve in one point differ there by a tangent.
proof fn lemma_change_difference(m: nat, a: int, k: int, a2: int, k2: int, x: int, y: int)
    requires
        m > 0,
        field::zero(m, (2 * x + a) * (2 * y) - 3 * (k * (x * x))),
        field::zero(m, (2 * x + a2) * (2 * y) - 3 * (k2 * (x * x))),
    ensures
        field::zero(m, (a - a2) * (2 * y) - 3 * ((k - k2) * (x * x))),
{
    let xx = x * x;
    let z = 2 * y;
    assert((a - a2) * z == (2 * x + a) * z - (2 * x + a2) * z) by (nonlinear_arith);
    assert((k - k2) * xx == k * xx - k2 * xx) by (nonlinear_arith);
    field::lemma_sum_of_two(
        m,
        (a - a2) * z - 3 * ((k - k2) * xx),
        1,
        (2 * x + a) * z - 3 * (k * xx),
        -1,
        (2 * x + a2) * z - 3 * (k2 * xx),
    );
}

/// The mirror images of two points add up to the mirror image of their sum.
proof fn lemma_mirrored_sum(m: nat, p: (nat, nat), q: (nat, nat), s: (nat, nat))
    requires
        field::is_prime(m),
        m > 5,
        curve::on_curve(m, p),
        curve::on_curve(m, q),
        curve::curve_sum(m, Some(p), Some(q)) == Some(s),
    ensures
        curve::curve_sum(m, Some(chord::mirrored(m, p)), Some(chord::mirrored(m, q))) == Some(
            chord::mirrored(m, s),
        ),
{
    let (np, nq, ns) = (chord::mirrored(m, p), chord::mirrored(m, q), chord::mirrored(m, s));
    let (l, c) = chord::lemma_line_of_sum(m, p, q);
    chord::lemma_on_curve(m, s);
    chord::lemma_mirrored(m, p);
    chord::lemma_mirrored(m, q);
    chord::lemma_mirrored(m, s);
    lemma_on_mirrored_line(m, l, c, p.0 as int, p.1 as int, np.1 as int);
    lemma_on_mirrored_line(m, l, c, q.0 as int, q.1 as int, nq.1 as int);
    field::lemma_scaled(m, -ns.1 + -s.1, -1, (ns.1 + s.1) as int);
    lemma_on_mirrored_line(m, l, c, s.0 as int, -s.1, -ns.1);
    assert((-l) * (-l) == l * l) by (nonlinear_arith);
    if p.0 == q.0 {
        let (x, y, w) = (p.0 as int, p.1 as int, np.1 as int);
        chord::lemma_same_x(m, p, q);
        chord::lemma_vanishes(m, p, q);
        lemma_tangent(m, l, c, p, s);
        let u = w + y;
        assert((-l) * w == l * y - l * u && (2 * l) * u == 2 * (l * u)) by (nonlinear_arith)
            requires
                u == w + y,
        ;
        field::lemma_sum_of_two(
            m,
            3 * (x * x) - 2 * ((-l) * w),
            1,
            3 * (x * x) - 2 * (l * y),
            2 * l,
            u,
        );
    }
    chord::lemma_sum_on_line(m, -l, -c, np, nq, ns);
}

proof fn lemma_on_mirrored_line(m: nat, l: int, c: int, x: int, y: int, w: int)
    requires
        m > 0,
        field::zero(m, chord::off_line(l, c, x, y)),
        field::zero(m, w + y),
    ensures
        field::zero(m, chord::off_line(-l, -c, x, w)),
{
    assert((-l) * x == -(l * x)) by (nonlinear_arith);
    field::lemma_sum_of_two(
        m,
        chord::off_line(-l, -c, x, w),
        1,
        w + y,
        -1,
        chord::off_line(l, c, x, y),
    );
}

/// Where two points add up to the mirror image of a third, so do the other two.
proof fn lemma_vanishes_too(
    m: nat,
    p: (nat, nat),
    q: (nat, nat),
    r: (nat, nat),
    s: (nat, nat),
    t: (nat, nat),
)
    requires
        field::is_prime(m),
        m > 5,
        curve::on_curve(m, p),
        curve::on_curve(m, q),
        curve::on_curve(m, r),
        curve::curve_sum(m, Some(p), Some(q)) == Some(s),
        curve::curve_sum(m, Some(q), Some(r)) == Some(t),
        r == chord::mirrored(m, s),
    ensures
        t == chord::mirrored(m, p),
{
    let (_, _) = chord::lemma_line_of_sum(m, p, q);
    let (_, _) = chord::lemma_line_of_sum(m, q, r);
    chord::lemma_mirrored(m, s);
    chord::lemma_mirrored(m, t);
    chord::lemma_commutes(m, p, q);
    chord::lemma_cancels(m, q, p);
    lemma_mirrored_sum(m, q, r, t);
}

/// Three points on the curve add up to one sum in both ways.
proof fn lemma_points_associate(m: nat, p: (nat, nat), q: (nat, nat), r: (nat, nat))
    requires
        field::is_prime(m),
        m > 5,
        curve::on_curve(m, p),
        curve::on_curve(m, q),
        curve::on_curve(m, r),
    ensures
        curve::curve_sum(m, curve::curve_sum(m, Some(p), Some(q)), Some(r)) == curve::curve_sum(
            m,
            Some(p),
            curve::curve_sum(m, Some(q), Some(r)),
        ),
{
    let left = curve::curve_sum(m, Some(p), Some(q));
    let right = curve::curve_sum(m, Some(q), Some(r));
    let (np, nq) = (chord::mirrored(m, p), chord::mirrored(m, q));
    chord::lemma_mirrored(m, p);
    chord::lemma_mirrored(m, q);
    chord::lemma_mirrored(m, r);
    chord::lemma_vanishes(m, p, q);
    chord::lemma_vanishes(m, q, r);
    chord::lemma_commutes(m, p, q);
    chord::lemma_commutes(m, q, r);
    if left is None {
        if right is Some {
            chord::lemma_cancels(m, q, r);
        }
    } else if right is None {
        let (_, _) = chord::lemma_line_of_sum(m, p, q);
        chord::lemma_cancels(m, q, p);
        chord::lemma_commutes(m, left->0, nq);
    } else {
        let s = left->0;
        let t = right->0;
        let (_, _) = chord::lemma_line_of_sum(m, p, q);
        let (_, _) = chord::lemma_line_of_sum(m, q, r);
        chord::lemma_mirrored(m, s);
        chord::lemma_mirrored(m, t);
        chord::lemma_vanishes(m, s, r);
        chord::lemma_vanishes(m, p, t);
        chord::lemma_commutes(m, s, r);
        chord::lemma_commutes(m, p, t);
        if r == chord::mirrored(m, s) {
            lemma_vanishes_too(m, p, q, r, s, t);
        } else if t == np {
            lemma_vanishes_too(m, r, q, p, t, s);
        } else if r == p {
        } else if r == np {
            chord::lemma_cancels(m, p, q);
            chord::lemma_cancels(m, np, q);
        } else {
            let u = curve::curve_sum(m, Some(s), Some(r))->0;
            let v = curve::curve_sum(m, Some(p), Some(t))->0;
            if r == q {
                lemma_same_sum(m, q, q, p, t, s, v, u);
            } else {
                lemma_same_sum(m, p, q, r, s, t, u, v);
            }
        }
    }
}

/// The points of the curve over a prime field form a commutative group.
pub proof fn law_curve_is_a_group(m: nat)
    requires
        field::is_prime(m),
        m > 5,
    ensures
        curve::curve_group(m).is_abelian(),
{
    let g = curve::curve_group(m);
    reveal(Group::is_closed);
    reveal(Group::is_commutative);
    reveal(Group::is_associative);
    reveal(Group::has_zero_and_negatives);
    assert forall|a: Option<(nat, nat)>, b: Option<(nat, nat)>| g.has(a) && g.has(b) implies g.has(
        #[trigger] g.add(a, b),
    ) && g.add(a, b) == g.add(b, a) by {
        if a is Some && b is Some {
            chord::lemma_commutes(m, a->0, b->0);
            if g.add(a, b) is Some {
                let (_, _) = chord::lemma_line_of_sum(m, a->0, b->0);
            }
        }
    }
    assert forall|a: Option<(nat, nat)>| g.has(a) implies g.has(#[trigger] g.neg(a)) && g.add(
        a,
        g.neg(a),
    ) == g.zero by {
        if a is Some {
            chord::lemma_mirrored(m, a->0);
            chord::lemma_vanishes(m, a->0, chord::mirrored(m, a->0));
        }
    }
    assert forall|a: Option<(nat, nat)>, b: Option<(nat, nat)>, d: Option<(nat, nat)>|
        g.has(a) && g.has(b) && g.has(d) implies #[trigger] g.add(g.add(a, b), d) == g.add(
        a,
        g.add(b, d),
    ) by {
        if a is Some && b is Some && d is Some {
            lemma_points_associate(m, a->0, b->0, d->0);
        }
    }
}

} // verus!
