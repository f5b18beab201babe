//! Points of the curves `y^2 = x^3 + 5` over a prime field, and how they add.
use crate::group::Group;
use vstd::prelude::*;

verus! {

/// Whether `i` is the inverse of `a` in the field of `m` elements.
pub open spec fn is_inverse(m: nat, a: int, i: int) -> bool {
    0 <= i < m && (a * i) % (m as int) == 1
}

/// The inverse of `a` in the field of `m` elements.
pub open spec fn inverse(m: nat, a: int) -> int {
    choose|i: int| is_inverse(m, a, i)
}

/// The slope of the line through `p` and `q`, or of the tangent where they are
/// the same point.
pub open spec fn slope(m: nat, p: (nat, nat), q: (nat, nat)) -> int {
    if p.0 != q.0 {
        (q.1 - p.1) * inverse(m, q.0 - p.0)
    } else {
        3 * p.0 * p.0 * inverse(m, (2 * p.1) as int)
    }
}

/// Where the line of slope `l` through `p` and `q` meets the curve for the third
/// time, mirrored at the `x` axis.
pub open spec fn third_point(m: nat, l: int, p: (nat, nat), q: (nat, nat)) -> (nat, nat) {
    let x = (l * l - p.0 - q.0) % (m as int);
    (x as nat, ((l * (p.0 - x) - p.1) % (m as int)) as nat)
}

/// The sum of two points, where `None` is the identity: two points on one vertical
/// line add up to it, unless they are one point off the `x` axis.
pub open spec fn curve_sum(
    m: nat,
    a: Option<(nat, nat)>,
    b: Option<(nat, nat)>,
) -> Option<(nat, nat)> {
    match (a, b) {
        (None, _) => b,
        (_, None) => a,
        (Some(p), Some(q)) => if p.0 == q.0 && (p.1 != q.1 || p.1 == 0) {
            None
        } else {
            Some(third_point(m, slope(m, p, q), p, q))
        },
    }
}

/// The mirror image of a point.
pub open spec fn curve_negative(m: nat, a: Option<(nat, nat)>) -> Option<(nat, nat)> {
    match a {
        None => None,
        Some(p) => Some((p.0, ((m - p.1) % (m as int)) as nat)),
    }
}

/// Whether both coordinates are reduced.
pub open spec fn in_field(m: nat, p: (nat, nat)) -> bool {
    p.0 < m && p.1 < m
}

/// Whether a point lies on the curve.
pub open spec fn on_curve(m: nat, p: (nat, nat)) -> bool {
    in_field(m, p) && (p.1 * p.1) % m == (p.0 * p.0 * p.0 + 5) % m
}

/// Whether a value is the identity or a point on the curve.
pub open spec fn on_curve_or_identity(m: nat, a: Option<(nat, nat)>) -> bool {
    match a {
        None => true,
        Some(p) => on_curve(m, p),
    }
}

/// The points of the curve, with their addition.
pub open spec fn curve_group(m: nat) -> Group<Option<(nat, nat)>> {
    Group {
        member: |a: Option<(nat, nat)>| on_curve_or_identity(m, a),
        zero: None,
        plus: |a: Option<(nat, nat)>, b: Option<(nat, nat)>| curve_sum(m, a, b),
        minus: |a: Option<(nat, nat)>| curve_negative(m, a),
    }
}

/// The coordinates that stand for a sum where there is no way to write the
/// identity: zeros take its place.
pub open spec fn flattened(a: Option<(nat, nat)>) -> (nat, nat) {
    match a {
        None => (0, 0),
        Some(p) => p,
    }
}

/// The sum that coordinates stand for, where zeros take the identity's place.
pub open spec fn unflattened(p: (nat, nat)) -> Option<(nat, nat)> {
    if p == (0nat, 0nat) {
        None
    } else {
        Some(p)
    }
}

} // verus!
