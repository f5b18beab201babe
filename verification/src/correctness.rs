//! The bucket method computes a weighted sum, in any commutative group in which
//! the point operations add, double and negate.
use crate::digits;
use crate::group;
use crate::group::Group;
use crate::ops;
use crate::ops::Call;
use crate::ops::PointModel;
use crate::pippenger;
use vstd::arithmetic::power2::pow2;
use vstd::prelude::*;

verus! {

/// The group element in a slot: zero, where it is empty.
pub open spec fn value<A>(g: Group<A>, h: spec_fn((nat, nat)) -> A, a: Option<(nat, nat)>) -> A {
    match a {
        None => g.zero,
        Some(p) => h(p),
    }
}

/// The group elements that points stand for.
pub open spec fn values<A>(h: spec_fn((nat, nat)) -> A, pts: Seq<(nat, nat)>) -> Seq<A> {
    Seq::new(pts.len(), |i: int| h(pts[i]))
}

/// Whether the point operations are the group's, under the reading `h`: each safe call
/// on points that stand for members gives what the group's operation gives.
pub open spec fn respects<M: PointModel, A>(
    g: Group<A>,
    h: spec_fn((nat, nat)) -> A,
    safe: spec_fn(Call) -> bool,
) -> bool {
    &&& forall|p: (nat, nat), q: (nat, nat)|
        g.has(h(p)) && g.has(h(q)) && safe(Call::Add(p, q)) ==> h(#[trigger] M::sum(p, q))
            == g.add(h(p), h(q))
    &&& forall|p: (nat, nat)|
        g.has(h(p)) && safe(Call::Double(p)) ==> h(#[trigger] M::twice(p)) == g.add(h(p), h(p))
    &&& forall|p: (nat, nat)|
        g.has(h(p)) && safe(Call::Negate(p)) ==> h(#[trigger] M::negated(p)) == g.neg(h(p))
}

/// `1` where `d` has weight `k + 1`, `-1` where `-d` has, `0` elsewhere.
spec fn share_weight(d: int, k: int) -> int {
    if d == k + 1 {
        1
    } else if d == -(k + 1) {
        -1
    } else {
        0
    }
}

/// `1` where `d` is above `j`, `-1` where `-d` is, `0` elsewhere.
spec fn running_weight(d: int, j: int) -> int {
    if d > j {
        1
    } else if -d > j {
        -1
    } else {
        0
    }
}

/// How far `d` lies outside `[-j, j]`.
spec fn ladder_weight(d: int, j: int) -> int {
    if d > j {
        d - j
    } else if -d > j {
        d + j
    } else {
        0
    }
}

spec fn g_bucket<A>(g: Group<A>, a: Seq<A>, col: Seq<int>, k: int, n: nat) -> A
    decreases n,
{
    if n == 0 {
        g.zero
    } else {
        g.add(
            g_bucket(g, a, col, k, (n - 1) as nat),
            g.times(share_weight(col[n - 1], k), a[n - 1]),
        )
    }
}

spec fn g_running<A>(g: Group<A>, a: Seq<A>, col: Seq<int>, size: nat, j: nat, n: nat) -> A
    decreases size - j,
{
    if j >= size {
        g.zero
    } else {
        g.add(g_running(g, a, col, size, j + 1, n), g_bucket(g, a, col, j as int, n))
    }
}

spec fn g_ladder<A>(g: Group<A>, a: Seq<A>, col: Seq<int>, size: nat, j: nat, n: nat) -> A
    decreases size - j,
{
    if j >= size {
        g.zero
    } else {
        g.add(g_ladder(g, a, col, size, j + 1, n), g_running(g, a, col, size, j, n))
    }
}

proof fn lemma_g_members<A>(g: Group<A>, a: Seq<A>, col: Seq<int>, size: nat, j: nat, n: nat)
    requires
        g.is_abelian(),
        g.has_all(a),
        n <= a.len(),
    ensures
        forall|k: int| g.has(#[trigger] g_bucket(g, a, col, k, n)),
        g.has(g_running(g, a, col, size, j, n)),
        g.has(g_ladder(g, a, col, size, j, n)),
    decreases size - j,
{
    assert forall|k: int| g.has(#[trigger] g_bucket(g, a, col, k, n)) by {
        lemma_g_bucket_member(g, a, col, k, n);
    }
    if j < size {
        lemma_g_members(g, a, col, size, j + 1, n);
        group::lemma_closed(
            g,
            g_running(g, a, col, size, j + 1, n),
            g_bucket(g, a, col, j as int, n),
        );
        group::lemma_closed(
            g,
            g_ladder(g, a, col, size, j + 1, n),
            g_running(g, a, col, size, j, n),
        );
    }
}

proof fn lemma_g_bucket_member<A>(g: Group<A>, a: Seq<A>, col: Seq<int>, k: int, n: nat)
    requires
        g.is_abelian(),
        g.has_all(a),
        n <= a.len(),
    ensures
        g.has(g_bucket(g, a, col, k, n)),
    decreases n,
{
    if n > 0 {
        lemma_g_bucket_member(g, a, col, k, (n - 1) as nat);
        assert(g.has(a[n - 1]));
        group::lemma_times_member(g, share_weight(col[n - 1], k), a[n - 1]);
        group::lemma_closed(
            g,
            g_bucket(g, a, col, k, (n - 1) as nat),
            g.times(share_weight(col[n - 1], k), a[n - 1]),
        );
    }
}

/// What the `n`-th point adds to the running sum and to the ladder.
proof fn lemma_g_step<A>(g: Group<A>, a: Seq<A>, col: Seq<int>, size: nat, j: nat, n: nat)
    requires
        g.is_abelian(),
        g.has_all(a),
        0 < n <= a.len(),
        j <= size,
        -size <= col[n - 1] <= size,
    ensures
        g_running(g, a, col, size, j, n) == g.add(
            g_running(g, a, col, size, j, (n - 1) as nat),
            g.times(running_weight(col[n - 1], j as int), a[n - 1]),
        ),
        g_ladder(g, a, col, size, j, n) == g.add(
            g_ladder(g, a, col, size, j, (n - 1) as nat),
            g.times(ladder_weight(col[n - 1], j as int), a[n - 1]),
        ),
    decreases size - j,
{
    let m = (n - 1) as nat;
    let d = col[n - 1];
    let x = a[n - 1];
    let ji = j as int;
    assert(g.has(x));
    if j == size {
        group::lemma_zero(g, g.zero);
    } else {
        lemma_g_step(g, a, col, size, j + 1, n);
        lemma_g_members(g, a, col, size, j + 1, m);
        lemma_g_members(g, a, col, size, j, m);
        group::lemma_times_member(g, running_weight(d, ji + 1), x);
        group::lemma_times_member(g, running_weight(d, ji), x);
        group::lemma_times_member(g, ladder_weight(d, ji + 1), x);
        group::lemma_times_member(g, share_weight(d, ji), x);
        group::lemma_regroup(
            g,
            g_running(g, a, col, size, j + 1, m),
            g.times(running_weight(d, ji + 1), x),
            g_bucket(g, a, col, ji, m),
            g.times(share_weight(d, ji), x),
        );
        group::lemma_times_add(g, running_weight(d, ji + 1), share_weight(d, ji), x);
        assert(running_weight(d, ji + 1) + share_weight(d, ji) == running_weight(d, ji));
        group::lemma_regroup(
            g,
            g_ladder(g, a, col, size, j + 1, m),
            g.times(ladder_weight(d, ji + 1), x),
            g_running(g, a, col, size, j, m),
            g.times(running_weight(d, ji), x),
        );
        group::lemma_times_add(g, ladder_weight(d, ji + 1), running_weight(d, ji), x);
        assert(ladder_weight(d, ji + 1) + running_weight(d, ji) == ladder_weight(d, ji));
    }
}

proof fn lemma_g_empty<A>(g: Group<A>, a: Seq<A>, col: Seq<int>, size: nat, j: nat)
    requires
        g.is_abelian(),
    ensures
        g_running(g, a, col, size, j, 0) == g.zero,
        g_ladder(g, a, col, size, j, 0) == g.zero,
    decreases size - j,
{
    group::lemma_zero(g, g.zero);
    if j < size {
        lemma_g_empty(g, a, col, size, j + 1);
    }
}

/// The ladder over all buckets is the sum of every point times its digit.
proof fn lemma_g_ladder_is_sum<A>(g: Group<A>, a: Seq<A>, col: Seq<int>, size: nat, n: nat)
    requires
        g.is_abelian(),
        g.has_all(a),
        n <= a.len(),
        a.len() == col.len(),
        forall|i: int| 0 <= i < col.len() ==> -size <= #[trigger] col[i] <= size,
    ensures
        g_ladder(g, a, col, size, 0, n) == g.weighted_sum(col.take(n as int), a.take(n as int)),
    decreases n,
{
    if n == 0 {
        lemma_g_empty(g, a, col, size, 0);
    } else {
        let m = (n - 1) as nat;
        lemma_g_ladder_is_sum(g, a, col, size, m);
        lemma_g_step(g, a, col, size, 0, n);
        assert(col.take(n as int).drop_last() =~= col.take(m as int));
        assert(a.take(n as int).drop_last() =~= a.take(m as int));
        assert(ladder_weight(col[n - 1], 0) == col[n - 1]);
    }
}

proof fn lemma_join<M: PointModel, A>(
    g: Group<A>,
    h: spec_fn((nat, nat)) -> A,
    safe: spec_fn(Call) -> bool,
    a: Option<(nat, nat)>,
    b: Option<(nat, nat)>,
)
    requires
        g.is_abelian(),
        respects::<M, A>(g, h, safe),
        g.has(value(g, h, a)),
        g.has(value(g, h, b)),
        ops::all_calls(safe, pippenger::join_calls(a, b)),
    ensures
        value(g, h, pippenger::join::<M>(a, b)) == g.add(value(g, h, a), value(g, h, b)),
        g.has(value(g, h, pippenger::join::<M>(a, b))),
{
    group::lemma_zero(g, value(g, h, a));
    group::lemma_zero(g, value(g, h, b));
    group::lemma_closed(g, value(g, h, a), value(g, h, b));
    if let (Some(p), Some(q)) = (a, b) {
        let calls = pippenger::join_calls(a, b);
        assert(calls[0] == Call::Add(p, q));
    }
}

proof fn lemma_bucket_value<M: PointModel, A>(
    g: Group<A>,
    h: spec_fn((nat, nat)) -> A,
    safe: spec_fn(Call) -> bool,
    pts: Seq<(nat, nat)>,
    col: Seq<int>,
    size: nat,
    k: int,
    n: nat,
)
    requires
        g.is_abelian(),
        g.has_all(values(h, pts)),
        respects::<M, A>(g, h, safe),
        pippenger::column_fits(pts.len(), col, size),
        ops::all_calls(safe, pippenger::distribute_calls::<M>(pts, col, n)),
        0 <= k < size,
        n <= pts.len(),
    ensures
        value(g, h, pippenger::bucket::<M>(pts, col, k, n)) == g_bucket(
            g,
            values(h, pts),
            col,
            k,
            n,
        ),
        g.has(value(g, h, pippenger::bucket::<M>(pts, col, k, n))),
    decreases n,
{
    if n > 0 {
        let m = (n - 1) as nat;
        let a = values(h, pts);
        let d = col[n - 1];
        let made = pippenger::place_calls::<M>(pts, col, m);
        ops::lemma_all_calls(safe, pippenger::distribute_calls::<M>(pts, col, m), made);
        lemma_bucket_value::<M, A>(g, h, safe, pts, col, size, k, m);
        let s = pippenger::share::<M>(pts[n - 1], d, k);
        assert(g.has(a[n - 1]));
        assert(a[n - 1] == h(pts[n - 1]));
        group::lemma_closed(g, a[n - 1], a[n - 1]);
        group::lemma_zero(g, a[n - 1]);
        group::lemma_zero(g, g.neg(a[n - 1]));
        reveal_with_fuel(Group::times, 2);
        if s is Some {
            let first = pippenger::share_calls(pts[n - 1], d);
            ops::lemma_all_calls(
                safe,
                first,
                pippenger::join_calls(pippenger::bucket::<M>(pts, col, k, m), s),
            );
            if d < 0 {
                assert(safe(first[0]));
            }
        }
        assert(value(g, h, s) == g.times(share_weight(d, k), a[n - 1]));
        lemma_join::<M, A>(g, h, safe, pippenger::bucket::<M>(pts, col, k, m), s);
    }
}

proof fn lemma_weigh_split<M: PointModel>(
    safe: spec_fn(Call) -> bool,
    pts: Seq<(nat, nat)>,
    col: Seq<int>,
    size: nat,
    j: nat,
)
    requires
        j < size,
        ops::all_calls(safe, pippenger::weigh_calls::<M>(pts, col, size, j)),
    ensures
        ops::all_calls(safe, pippenger::weigh_calls::<M>(pts, col, size, j + 1)),
        ops::all_calls(
            safe,
            pippenger::join_calls(
                pippenger::running::<M>(pts, col, size, j + 1),
                pippenger::bucket::<M>(pts, col, j as int, pts.len()),
            ),
        ),
        ops::all_calls(
            safe,
            pippenger::join_calls(
                pippenger::ladder::<M>(pts, col, size, j + 1),
                pippenger::running::<M>(pts, col, size, j),
            ),
        ),
{
    let rest = pippenger::weigh_calls::<M>(pts, col, size, j + 1);
    let first = pippenger::join_calls(
        pippenger::running::<M>(pts, col, size, j + 1),
        pippenger::bucket::<M>(pts, col, j as int, pts.len()),
    );
    let second = pippenger::join_calls(
        pippenger::ladder::<M>(pts, col, size, j + 1),
        pippenger::running::<M>(pts, col, size, j),
    );
    ops::lemma_all_calls(safe, rest + first, second);
    ops::lemma_all_calls(safe, rest, first);
}

proof fn lemma_ladder_value<M: PointModel, A>(
    g: Group<A>,
    h: spec_fn((nat, nat)) -> A,
    safe: spec_fn(Call) -> bool,
    pts: Seq<(nat, nat)>,
    col: Seq<int>,
    size: nat,
    j: nat,
)
    requires
        g.is_abelian(),
        g.has_all(values(h, pts)),
        respects::<M, A>(g, h, safe),
        pippenger::column_fits(pts.len(), col, size),
        ops::all_calls(safe, pippenger::distribute_calls::<M>(pts, col, pts.len())),
        ops::all_calls(safe, pippenger::weigh_calls::<M>(pts, col, size, j)),
    ensures
        value(g, h, pippenger::running::<M>(pts, col, size, j)) == g_running(
            g,
            values(h, pts),
            col,
            size,
            j,
            pts.len(),
        ),
        value(g, h, pippenger::ladder::<M>(pts, col, size, j)) == g_ladder(
            g,
            values(h, pts),
            col,
            size,
            j,
            pts.len(),
        ),
        g.has(value(g, h, pippenger::running::<M>(pts, col, size, j))),
        g.has(value(g, h, pippenger::ladder::<M>(pts, col, size, j))),
    decreases size - j,
{
    if j < size {
        lemma_weigh_split::<M>(safe, pts, col, size, j);
        lemma_ladder_value::<M, A>(g, h, safe, pts, col, size, j + 1);
        lemma_bucket_value::<M, A>(g, h, safe, pts, col, size, j as int, pts.len());
        lemma_join::<M, A>(
            g,
            h,
            safe,
            pippenger::running::<M>(pts, col, size, j + 1),
            pippenger::bucket::<M>(pts, col, j as int, pts.len()),
        );
        lemma_join::<M, A>(
            g,
            h,
            safe,
            pippenger::ladder::<M>(pts, col, size, j + 1),
            pippenger::running::<M>(pts, col, size, j),
        );
    }
}

proof fn lemma_doubled_value<M: PointModel, A>(
    g: Group<A>,
    h: spec_fn((nat, nat)) -> A,
    safe: spec_fn(Call) -> bool,
    p: (nat, nat),
    k: nat,
)
    requires
        g.is_abelian(),
        respects::<M, A>(g, h, safe),
        g.has(h(p)),
        ops::all_calls(safe, pippenger::shift_calls::<M>(Some(p), k)),
    ensures
        h(pippenger::doubled::<M>(p, k)) == g.times(pow2(k) as int, h(p)),
        g.has(h(pippenger::doubled::<M>(p, k))),
    decreases k,
{
    crate::limbs::lemma_pow2_of_limbs();
    if k == 0 {
        reveal_with_fuel(Group::times, 2);
        group::lemma_zero(g, h(p));
        assert(g.times(1, h(p)) == h(p));
    } else {
        let m = (k - 1) as nat;
        let calls = pippenger::shift_calls::<M>(Some(p), k);
        let before = pippenger::shift_calls::<M>(Some(p), m);
        assert forall|i: int| 0 <= i < m implies safe(#[trigger] before[i]) by {
            assert(calls[i] == before[i]);
        }
        assert(safe(calls[m as int]));
        lemma_doubled_value::<M, A>(g, h, safe, p, m);
        vstd::arithmetic::power2::lemma_pow2_unfold(k);
        group::lemma_times_add(g, pow2(m) as int, pow2(m) as int, h(p));
        group::lemma_times_member(g, pow2(k) as int, h(p));
        let q = pippenger::doubled::<M>(p, m);
        assert(pippenger::doubled::<M>(p, k) == M::twice(q));
        assert(h(M::twice(q)) == g.add(h(q), h(q)));
    }
}

/// Shifting a slot multiplies it by `2^c`.
proof fn lemma_shifted_value<M: PointModel, A>(
    g: Group<A>,
    h: spec_fn((nat, nat)) -> A,
    safe: spec_fn(Call) -> bool,
    a: Option<(nat, nat)>,
    c: nat,
)
    requires
        g.is_abelian(),
        respects::<M, A>(g, h, safe),
        g.has(value(g, h, a)),
        ops::all_calls(safe, pippenger::shift_calls::<M>(a, c)),
    ensures
        value(g, h, pippenger::shifted::<M>(a, c)) == g.times(pow2(c) as int, value(g, h, a)),
        g.has(value(g, h, pippenger::shifted::<M>(a, c))),
{
    match a {
        None => {
            group::lemma_times_zero(g, pow2(c) as int);
        },
        Some(p) => {
            lemma_doubled_value::<M, A>(g, h, safe, p, c);
        },
    }
}

/// The numbers in the signed digits of each scalar from the `w`-th on.
spec fn tail_values(vals: Seq<nat>, c: nat, count: nat, w: nat) -> Seq<int> {
    Seq::new(
        vals.len(),
        |i: int| digits::digit_sum(digits::signed_digits(vals[i], c, count).skip(w as int), c),
    )
}

proof fn lemma_zero_weights<A>(g: Group<A>, k: Seq<int>, a: Seq<A>)
    requires
        g.is_abelian(),
        k.len() == a.len(),
        forall|i: int| 0 <= i < k.len() ==> #[trigger] k[i] == 0,
    ensures
        g.weighted_sum(k, a) == g.zero,
    decreases a.len(),
{
    if a.len() > 0 {
        lemma_zero_weights(g, k.drop_last(), a.drop_last());
        group::lemma_zero(g, g.zero);
        assert(k.last() == 0);
    }
}

proof fn lemma_combined_value<M: PointModel, A>(
    g: Group<A>,
    h: spec_fn((nat, nat)) -> A,
    safe: spec_fn(Call) -> bool,
    pts: Seq<(nat, nat)>,
    vals: Seq<nat>,
    num_bits: nat,
    w: nat,
)
    requires
        g.is_abelian(),
        respects::<M, A>(g, h, safe),
        g.has_all(values(h, pts)),
        0 < pts.len() < 0x800_0000_0000,
        pts.len() == vals.len(),
        pippenger::fits::<M>(pts, vals, num_bits),
        ops::all_calls(
            safe,
            pippenger::bucket_method_calls::<M>(pts, vals, num_bits),
        ),
        w <= digits::window_count(num_bits, pippenger::window_width(pts.len())),
    ensures
        ({
            let c = pippenger::window_width(pts.len());
            let count = digits::window_count(num_bits, c);
            let got = value(g, h, pippenger::combined::<M>(pts, vals, c, count, w));
            &&& got == g.weighted_sum(tail_values(vals, c, count, w), values(h, pts))
            &&& g.has(got)
        }),
    decreases digits::window_count(num_bits, pippenger::window_width(pts.len())) - w,
{
    let c = pippenger::window_width(pts.len());
    let count = digits::window_count(num_bits, c);
    let a = values(h, pts);
    let size = pow2((c - 1) as nat);
    let here = tail_values(vals, c, count, w);
    if w == count {
        assert forall|i: int| 0 <= i < here.len() implies #[trigger] here[i] == 0 by {
            assert(digits::signed_digits(vals[i], c, count).skip(w as int).len() == 0);
        }
        lemma_zero_weights(g, here, a);
    } else {
        let above = tail_values(vals, c, count, w + 1);
        let col = pippenger::column(vals, c, count, w);
        let up = pippenger::combined::<M>(pts, vals, c, count, w + 1);
        lemma_combined_value::<M, A>(g, h, safe, pts, vals, num_bits, w + 1);
        pippenger::lemma_column_fits(vals, num_bits, w);
        pippenger::lemma_parts::<M>(safe, pts, vals, num_bits, w);
        lemma_ladder_value::<M, A>(g, h, safe, pts, col, size, 0);
        lemma_g_ladder_is_sum(g, a, col, size, pts.len());
        assert(col.take(pts.len() as int) =~= col);
        assert(a.take(pts.len() as int) =~= a);
        lemma_shifted_value::<M, A>(g, h, safe, up, c);
        lemma_join::<M, A>(
            g,
            h,
            safe,
            pippenger::shifted::<M>(up, c),
            pippenger::ladder::<M>(pts, col, size, 0),
        );
        assert forall|i: int| 0 <= i < a.len() implies #[trigger] here[i] == pow2(c) * above[i]
            + col[i] by {
            let d = digits::signed_digits(vals[i], c, count);
            assert(d.skip(w as int).drop_first() =~= d.skip((w + 1) as int));
            assert(d.skip(w as int)[0] == d[w as int]);
        }
        group::lemma_weighted_sum_combine(g, pow2(c) as int, above, col, here, a);
    }
}

/// The weights that pick the `j`-th of `n` entries.
spec fn only(n: nat, j: int) -> Seq<int> {
    Seq::new(
        n,
        |i: int|
            if i == j {
                1int
            } else {
                0int
            },
    )
}

proof fn lemma_only<A>(g: Group<A>, a: Seq<A>, j: int)
    requires
        g.is_abelian(),
        g.has_all(a),
        0 <= j < a.len(),
    ensures
        g.weighted_sum(only(a.len(), j), a) == a[j],
    decreases a.len(),
{
    let k = only(a.len(), j);
    let front = a.drop_last();
    assert(g.has(a[j]));
    group::lemma_zero(g, a[j]);
    group::lemma_closed(g, a[j], a[j]);
    if j == a.len() - 1 {
        lemma_zero_weights(g, k.drop_last(), front);
        reveal_with_fuel(Group::times, 2);
        assert(g.times(1, a[j]) == a[j]);
    } else {
        assert(k.drop_last() =~= only(front.len(), j));
        assert forall|i: int| 0 <= i < front.len() implies g.has(#[trigger] front[i]) by {
            assert(g.has(a[i]));
        }
        lemma_only(g, front, j);
        assert(k.last() == 0);
    }
}

/// What each bucket of a window holds after all points.
pub open spec fn bucket_values<M: PointModel, A>(
    g: Group<A>,
    h: spec_fn((nat, nat)) -> A,
    pts: Seq<(nat, nat)>,
    col: Seq<int>,
    size: nat,
) -> Seq<A> {
    Seq::new(size, |k: int| value(g, h, pippenger::bucket::<M>(pts, col, k, pts.len())))
}

/// The two running sums of a window add up the buckets, each times its weight.
pub proof fn law_window_weighs_buckets<M: PointModel, A>(
    g: Group<A>,
    h: spec_fn((nat, nat)) -> A,
    safe: spec_fn(Call) -> bool,
    pts: Seq<(nat, nat)>,
    col: Seq<int>,
    size: nat,
)
    requires
        g.is_abelian(),
        g.has_all(values(h, pts)),
        respects::<M, A>(g, h, safe),
        pippenger::column_fits(pts.len(), col, size),
        ops::all_calls(safe, pippenger::window_calls::<M>(pts, col, size)),
    ensures
        value(g, h, pippenger::ladder::<M>(pts, col, size, 0)) == g.weighted_sum(
            Seq::new(size, |k: int| k + 1),
            bucket_values::<M, A>(g, h, pts, col, size),
        ),
{
    ops::lemma_all_calls(
        safe,
        pippenger::distribute_calls::<M>(pts, col, pts.len()),
        pippenger::weigh_calls::<M>(pts, col, size, 0),
    );
    lemma_ladder_weighs::<M, A>(g, h, safe, pts, col, size, 0);
    assert(Seq::new(size, |k: int| k + 1) =~= weights_from(size, 0));
}

/// `1` from the `j`-th weight on.
spec fn ones_from(size: nat, j: int) -> Seq<int> {
    Seq::new(
        size,
        |k: int|
            if k >= j {
                1int
            } else {
                0int
            },
    )
}

/// `1`, `2` and so on from the `j`-th weight on.
spec fn weights_from(size: nat, j: int) -> Seq<int> {
    Seq::new(
        size,
        |k: int|
            if k >= j {
                k - j + 1
            } else {
                0int
            },
    )
}

proof fn lemma_ladder_weighs<M: PointModel, A>(
    g: Group<A>,
    h: spec_fn((nat, nat)) -> A,
    safe: spec_fn(Call) -> bool,
    pts: Seq<(nat, nat)>,
    col: Seq<int>,
    size: nat,
    j: nat,
)
    requires
        g.is_abelian(),
        g.has_all(values(h, pts)),
        respects::<M, A>(g, h, safe),
        pippenger::column_fits(pts.len(), col, size),
        ops::all_calls(safe, pippenger::distribute_calls::<M>(pts, col, pts.len())),
        ops::all_calls(safe, pippenger::weigh_calls::<M>(pts, col, size, j)),
        j <= size,
    ensures
        ({
            let b = bucket_values::<M, A>(g, h, pts, col, size);
            &&& value(g, h, pippenger::running::<M>(pts, col, size, j)) == g.weighted_sum(
                ones_from(size, j as int),
                b,
            )
            &&& value(g, h, pippenger::ladder::<M>(pts, col, size, j)) == g.weighted_sum(
                weights_from(size, j as int),
                b,
            )
        }),
    decreases size - j,
{
    let b = bucket_values::<M, A>(g, h, pts, col, size);
    assert forall|k: int| 0 <= k < b.len() implies g.has(#[trigger] b[k]) by {
        lemma_bucket_value::<M, A>(g, h, safe, pts, col, size, k, pts.len());
    }
    if j == size {
        lemma_zero_weights(g, ones_from(size, j as int), b);
        lemma_zero_weights(g, weights_from(size, j as int), b);
    } else {
        let running = pippenger::running::<M>(pts, col, size, j + 1);
        let bucket = pippenger::bucket::<M>(pts, col, j as int, pts.len());
        let ladder = pippenger::ladder::<M>(pts, col, size, j + 1);
        let ones = ones_from(size, j as int);
        lemma_weigh_split::<M>(safe, pts, col, size, j);
        lemma_ladder_weighs::<M, A>(g, h, safe, pts, col, size, j + 1);
        lemma_ladder_value::<M, A>(g, h, safe, pts, col, size, j + 1);
        lemma_ladder_value::<M, A>(g, h, safe, pts, col, size, j);
        lemma_bucket_value::<M, A>(g, h, safe, pts, col, size, j as int, pts.len());
        lemma_join::<M, A>(g, h, safe, running, bucket);
        lemma_only(g, b, j as int);
        assert(b[j as int] == value(g, h, bucket));
        lemma_once(g, value(g, h, running));
        group::lemma_weighted_sum_combine(
            g,
            1,
            ones_from(size, (j + 1) as int),
            only(size, j as int),
            ones,
            b,
        );
        lemma_join::<M, A>(g, h, safe, ladder, pippenger::running::<M>(pts, col, size, j));
        lemma_once(g, value(g, h, ladder));
        group::lemma_weighted_sum_combine(
            g,
            1,
            weights_from(size, (j + 1) as int),
            ones,
            weights_from(size, j as int),
            b,
        );
    }
}

proof fn lemma_once<A>(g: Group<A>, a: A)
    requires
        g.is_abelian(),
        g.has(a),
    ensures
        g.times(1, a) == a,
{
    reveal_with_fuel(Group::times, 2);
    group::lemma_zero(g, a);
}

/// What each window adds up to.
pub open spec fn window_values<M: PointModel, A>(
    g: Group<A>,
    h: spec_fn((nat, nat)) -> A,
    pts: Seq<(nat, nat)>,
    vals: Seq<nat>,
    num_bits: nat,
) -> Seq<A> {
    let c = pippenger::window_width(pts.len());
    let count = digits::window_count(num_bits, c);
    Seq::new(
        count,
        |w: int|
            value(
                g,
                h,
                pippenger::ladder::<M>(
                    pts,
                    pippenger::column(vals, c, count, w as nat),
                    pow2((c - 1) as nat),
                    0,
                ),
            ),
    )
}

/// The windows are put together as the sum of the `w`-th times `2^(c w)`.
pub proof fn law_windows_are_shifted<M: PointModel, A>(
    g: Group<A>,
    h: spec_fn((nat, nat)) -> A,
    safe: spec_fn(Call) -> bool,
    pts: Seq<(nat, nat)>,
    vals: Seq<nat>,
    num_bits: nat,
)
    requires
        g.is_abelian(),
        respects::<M, A>(g, h, safe),
        g.has_all(values(h, pts)),
        0 < pts.len() < 0x800_0000_0000,
        pts.len() == vals.len(),
        pippenger::fits::<M>(pts, vals, num_bits),
        ops::all_calls(
            safe,
            pippenger::bucket_method_calls::<M>(pts, vals, num_bits),
        ),
    ensures
        ({
            let c = pippenger::window_width(pts.len());
            value(g, h, pippenger::bucket_method::<M>(pts, vals, num_bits)) == g.weighted_sum(
                Seq::new(digits::window_count(num_bits, c), |w: int| pow2(c * w as nat) as int),
                window_values::<M, A>(g, h, pts, vals, num_bits),
            )
        }),
{
    let c = pippenger::window_width(pts.len());
    let count = digits::window_count(num_bits, c);
    lemma_shifts::<M, A>(g, h, safe, pts, vals, num_bits, 0);
    assert(Seq::new(count, |w: int| pow2(c * w as nat) as int) =~= shifts_from(c, count, 0));
}

/// The powers of `2^c` from the `w`-th weight on.
spec fn shifts_from(c: nat, count: nat, w: int) -> Seq<int> {
    Seq::new(
        count,
        |i: int|
            if i >= w {
                pow2(c * (i - w) as nat) as int
            } else {
                0int
            },
    )
}

proof fn lemma_shift_weight(c: nat, count: nat, w: nat, i: int)
    requires
        0 <= i < count,
        w < count,
    ensures
        shifts_from(c, count, w as int)[i] == pow2(c) * shifts_from(c, count, (w + 1) as int)[i]
            + only(count, w as int)[i],
{
    if i < w {
        vstd::arithmetic::mul::lemma_mul_basics(pow2(c) as int);
    } else if i == w {
        crate::limbs::lemma_pow2_of_limbs();
        vstd::arithmetic::mul::lemma_mul_basics(c as int);
        vstd::arithmetic::mul::lemma_mul_basics(pow2(c) as int);
    } else {
        let k = (i - w - 1) as nat;
        assert(c * (k + 1) == c + c * k) by (nonlinear_arith);
        vstd::arithmetic::power2::lemma_pow2_adds(c, c * k);
    }
}

proof fn lemma_shifts<M: PointModel, A>(
    g: Group<A>,
    h: spec_fn((nat, nat)) -> A,
    safe: spec_fn(Call) -> bool,
    pts: Seq<(nat, nat)>,
    vals: Seq<nat>,
    num_bits: nat,
    w: nat,
)
    requires
        g.is_abelian(),
        respects::<M, A>(g, h, safe),
        g.has_all(values(h, pts)),
        0 < pts.len() < 0x800_0000_0000,
        pts.len() == vals.len(),
        pippenger::fits::<M>(pts, vals, num_bits),
        ops::all_calls(
            safe,
            pippenger::bucket_method_calls::<M>(pts, vals, num_bits),
        ),
        w <= digits::window_count(num_bits, pippenger::window_width(pts.len())),
    ensures
        ({
            let c = pippenger::window_width(pts.len());
            let count = digits::window_count(num_bits, c);
            value(g, h, pippenger::combined::<M>(pts, vals, c, count, w)) == g.weighted_sum(
                shifts_from(c, count, w as int),
                window_values::<M, A>(g, h, pts, vals, num_bits),
            )
        }),
    decreases digits::window_count(num_bits, pippenger::window_width(pts.len())) - w,
{
    let c = pippenger::window_width(pts.len());
    let count = digits::window_count(num_bits, c);
    let size = pow2((c - 1) as nat);
    let b = window_values::<M, A>(g, h, pts, vals, num_bits);
    assert forall|u: int| 0 <= u < b.len() implies g.has(#[trigger] b[u]) by {
        pippenger::lemma_column_fits(vals, num_bits, u as nat);
        pippenger::lemma_parts::<M>(safe, pts, vals, num_bits, u as nat);
        lemma_ladder_value::<M, A>(
            g,
            h,
            safe,
            pts,
            pippenger::column(vals, c, count, u as nat),
            size,
            0,
        );
    }
    if w == count {
        lemma_zero_weights(g, shifts_from(c, count, w as int), b);
    } else {
        let up = pippenger::combined::<M>(pts, vals, c, count, w + 1);
        let col = pippenger::column(vals, c, count, w);
        let here = shifts_from(c, count, w as int);
        let above = shifts_from(c, count, (w + 1) as int);
        pippenger::lemma_parts::<M>(safe, pts, vals, num_bits, w);
        lemma_shifts::<M, A>(g, h, safe, pts, vals, num_bits, w + 1);
        lemma_combined_value::<M, A>(g, h, safe, pts, vals, num_bits, w + 1);
        lemma_shifted_value::<M, A>(g, h, safe, up, c);
        assert(b[w as int] == value(g, h, pippenger::ladder::<M>(pts, col, size, 0)));
        lemma_join::<M, A>(
            g,
            h,
            safe,
            pippenger::shifted::<M>(up, c),
            pippenger::ladder::<M>(pts, col, size, 0),
        );
        lemma_only(g, b, w as int);
        assert forall|i: int| 0 <= i < b.len() implies #[trigger] here[i] == pow2(c) * above[i]
            + only(count, w as int)[i] by {
            lemma_shift_weight(c, count, w, i);
        }
        group::lemma_weighted_sum_combine(g, pow2(c) as int, above, only(count, w as int), here, b);
    }
}

/// The numbers that the windows cover of each scalar.
pub open spec fn covered(vals: Seq<nat>, bits: nat) -> Seq<int> {
    Seq::new(vals.len(), |i: int| (vals[i] % pow2(bits)) as int)
}

/// The bucket method computes the weighted sum: in any commutative group whose
/// operations the point operations are, and where every call on the way is safe, what
/// it returns stands for the sum of each scalar, as far as the windows cover it, times
/// its point.
pub proof fn law_bucket_method_is_weighted_sum<M: PointModel, A>(
    g: Group<A>,
    h: spec_fn((nat, nat)) -> A,
    safe: spec_fn(Call) -> bool,
    pts: Seq<(nat, nat)>,
    vals: Seq<nat>,
    num_bits: nat,
)
    requires
        g.is_abelian(),
        respects::<M, A>(g, h, safe),
        g.has_all(values(h, pts)),
        0 < pts.len() < 0x800_0000_0000,
        pts.len() == vals.len(),
        pippenger::fits::<M>(pts, vals, num_bits),
        ops::all_calls(
            safe,
            pippenger::bucket_method_calls::<M>(pts, vals, num_bits),
        ),
    ensures
        ({
            let c = pippenger::window_width(pts.len());
            let got = value(g, h, pippenger::bucket_method::<M>(pts, vals, num_bits));
            &&& got == g.weighted_sum(
                covered(vals, c * digits::window_count(num_bits, c)),
                values(h, pts),
            )
            &&& g.has(got)
        }),
{
    let c = pippenger::window_width(pts.len());
    let count = digits::window_count(num_bits, c);
    pippenger::lemma_window_width(pts.len());
    lemma_combined_value::<M, A>(g, h, safe, pts, vals, num_bits, 0);
    let all = tail_values(vals, c, count, 0);
    assert forall|i: int| 0 <= i < vals.len() implies #[trigger] all[i] == covered(
        vals,
        c * count,
    )[i] by {
        let d = digits::signed_digits(vals[i], c, count);
        assert(d.skip(0) =~= d);
        digits::law_digits_restore_scalar(vals[i], c, count);
    }
    assert(all =~= covered(vals, c * count));
}

} // verus!
