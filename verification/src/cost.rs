//! How many calls a run of the bucket method makes.
use crate::digits;
use crate::ops;
use crate::ops::Call;
use crate::ops::PointModel;
use crate::pippenger;
use crate::runs;
use vstd::arithmetic::power2::pow2;
use vstd::prelude::*;

verus! {

/// `1` for a slot with a point, `0` for an empty one.
spec fn filled(a: Option<(nat, nat)>) -> nat {
    if a is Some {
        1
    } else {
        0
    }
}

/// How many buckets of weight above `j` hold a point after the first `n` points.
spec fn occupied<M: PointModel>(
    pts: Seq<(nat, nat)>,
    col: Seq<int>,
    size: nat,
    j: nat,
    n: nat,
) -> nat
    decreases size - j,
{
    if j >= size {
        0
    } else {
        occupied::<M>(pts, col, size, j + 1, n) + filled(
            pippenger::bucket::<M>(pts, col, j as int, n),
        )
    }
}

proof fn lemma_count_one(kind: spec_fn(Call) -> bool, call: Call)
    ensures
        ops::count_calls(kind, seq![call]) == if kind(call) {
            1nat
        } else {
            0nat
        },
{
    reveal_with_fuel(ops::count_calls, 2);
    assert(seq![call].drop_last() =~= Seq::<Call>::empty());
    assert(seq![call].last() == call);
}

/// Where all calls are of a kind, all are counted; where none is, none is.
proof fn lemma_count_all_or_none(kind: spec_fn(Call) -> bool, calls: Seq<Call>)
    ensures
        ops::all_calls(kind, calls) ==> ops::count_calls(kind, calls) == calls.len(),
        (forall|i: int| 0 <= i < calls.len() ==> !kind(#[trigger] calls[i]))
            ==> ops::count_calls(kind, calls) == 0,
    decreases calls.len(),
{
    if calls.len() > 0 {
        let front = calls.drop_last();
        lemma_count_all_or_none(kind, front);
        assert(calls.last() == calls[calls.len() - 1]);
        assert forall|i: int| 0 <= i < front.len() implies #[trigger] front[i] == calls[i] by {}
    }
}

proof fn lemma_join_cost(a: Option<(nat, nat)>, b: Option<(nat, nat)>)
    ensures
        ops::count_calls(runs::additions(), pippenger::join_calls(a, b)) == if a is Some
            && b is Some {
            1nat
        } else {
            0nat
        },
        ops::count_calls(runs::doublings(), pippenger::join_calls(a, b)) == 0,
        ops::count_calls(runs::negations(), pippenger::join_calls(a, b)) == 0,
{
    if let (Some(p), Some(q)) = (a, b) {
        lemma_count_one(runs::additions(), Call::Add(p, q));
        lemma_count_one(runs::doublings(), Call::Add(p, q));
        lemma_count_one(runs::negations(), Call::Add(p, q));
    }
}

/// A point fills one bucket at most, and none that was filled before.
proof fn lemma_occupied_step<M: PointModel>(
    pts: Seq<(nat, nat)>,
    col: Seq<int>,
    size: nat,
    j: nat,
    n: nat,
)
    ensures
        ({
            let d = col[n as int];
            let k = pippenger::magnitude(d) - 1;
            occupied::<M>(pts, col, size, j, n + 1) == occupied::<M>(pts, col, size, j, n) + if d
                != 0 && j <= k < size {
                (1 - filled(pippenger::bucket::<M>(pts, col, k, n))) as nat
            } else {
                0nat
            }
        }),
    decreases size - j,
{
    if j < size {
        lemma_occupied_step::<M>(pts, col, size, j + 1, n);
        assert(((n + 1) - 1) as nat == n);
        assert(pippenger::bucket::<M>(pts, col, j as int, n + 1) == pippenger::join::<M>(
            pippenger::bucket::<M>(pts, col, j as int, n),
            pippenger::share::<M>(pts[n as int], col[n as int], j as int),
        ));
    }
}

/// Every point that is put into a bucket either fills it or is added to it.
proof fn lemma_distribute_cost<M: PointModel>(
    pts: Seq<(nat, nat)>,
    col: Seq<int>,
    size: nat,
    n: nat,
)
    requires
        n <= col.len(),
        pippenger::column_fits(pts.len(), col, size),
    ensures
        ops::count_calls(
            runs::additions(),
            pippenger::distribute_calls::<M>(pts, col, n),
        ) + occupied::<M>(pts, col, size, 0, n) <= n,
        ops::count_calls(runs::doublings(), pippenger::distribute_calls::<M>(pts, col, n)) == 0,
        ops::count_calls(runs::negations(), pippenger::distribute_calls::<M>(pts, col, n)) <= n,
    decreases n,
{
    if n == 0 {
        lemma_nothing_occupied::<M>(pts, col, size, 0);
    } else {
        let m = (n - 1) as nat;
        let d = col[n - 1];
        let k = pippenger::magnitude(d) - 1;
        let before = pippenger::distribute_calls::<M>(pts, col, m);
        let made = pippenger::place_calls::<M>(pts, col, m);
        lemma_distribute_cost::<M>(pts, col, size, m);
        lemma_occupied_step::<M>(pts, col, size, 0, m);
        ops::lemma_count_calls(runs::additions(), before, made);
        ops::lemma_count_calls(runs::doublings(), before, made);
        ops::lemma_count_calls(runs::negations(), before, made);
        assert(-size <= col[n - 1] <= size);
        if d != 0 {
            let first = pippenger::share_calls(pts[n - 1], d);
            let second = pippenger::join_calls(
                pippenger::bucket::<M>(pts, col, k, m),
                pippenger::share::<M>(pts[n - 1], d, k),
            );
            ops::lemma_count_calls(runs::additions(), first, second);
            ops::lemma_count_calls(runs::doublings(), first, second);
            ops::lemma_count_calls(runs::negations(), first, second);
            lemma_join_cost(
                pippenger::bucket::<M>(pts, col, k, m),
                pippenger::share::<M>(pts[n - 1], d, k),
            );
            lemma_count_one(runs::additions(), Call::Negate(pts[n - 1]));
            lemma_count_one(runs::doublings(), Call::Negate(pts[n - 1]));
            lemma_count_one(runs::negations(), Call::Negate(pts[n - 1]));
        }
    }
}

proof fn lemma_nothing_occupied<M: PointModel>(
    pts: Seq<(nat, nat)>,
    col: Seq<int>,
    size: nat,
    j: nat,
)
    ensures
        occupied::<M>(pts, col, size, j, 0) == 0,
    decreases size - j,
{
    if j < size {
        lemma_nothing_occupied::<M>(pts, col, size, j + 1);
    }
}

/// Every occupied bucket either starts the running sum or is added to it, and so is
/// every running sum to their sum.
proof fn lemma_weigh_cost<M: PointModel>(
    pts: Seq<(nat, nat)>,
    col: Seq<int>,
    size: nat,
    j: nat,
)
    requires
        j <= size,
    ensures
        ({
            let made = pippenger::weigh_calls::<M>(pts, col, size, j);
            let running = pippenger::running::<M>(pts, col, size, j);
            let ladder = pippenger::ladder::<M>(pts, col, size, j);
            &&& ops::count_calls(runs::additions(), made) + filled(running) + filled(ladder)
                <= occupied::<M>(pts, col, size, j, pts.len()) + (size - j)
            &&& ladder is None ==> running is None && ops::count_calls(runs::additions(), made) == 0
            &&& ops::count_calls(runs::doublings(), made) == 0
            &&& ops::count_calls(runs::negations(), made) == 0
        }),
    decreases size - j,
{
    if j < size {
        let bucket = pippenger::bucket::<M>(pts, col, j as int, pts.len());
        let running = pippenger::running::<M>(pts, col, size, j + 1);
        let ladder = pippenger::ladder::<M>(pts, col, size, j + 1);
        let here = pippenger::running::<M>(pts, col, size, j);
        lemma_weigh_cost::<M>(pts, col, size, j + 1);
        let rest = pippenger::weigh_calls::<M>(pts, col, size, j + 1);
        let first = pippenger::join_calls(running, bucket);
        let second = pippenger::join_calls(ladder, here);
        ops::lemma_count_calls(runs::additions(), rest, first);
        ops::lemma_count_calls(runs::additions(), rest + first, second);
        ops::lemma_count_calls(runs::doublings(), rest, first);
        ops::lemma_count_calls(runs::doublings(), rest + first, second);
        ops::lemma_count_calls(runs::negations(), rest, first);
        ops::lemma_count_calls(runs::negations(), rest + first, second);
        lemma_join_cost(running, bucket);
        lemma_join_cost(ladder, here);
    }
}

proof fn lemma_window_cost<M: PointModel>(pts: Seq<(nat, nat)>, col: Seq<int>, size: nat)
    requires
        size >= 1,
        pippenger::column_fits(pts.len(), col, size),
    ensures
        ({
            let made = pippenger::window_calls::<M>(pts, col, size);
            &&& ops::count_calls(runs::additions(), made) + 1 <= pts.len() + size
            &&& ops::count_calls(runs::doublings(), made) == 0
            &&& ops::count_calls(runs::negations(), made) <= pts.len()
        }),
{
    let first = pippenger::distribute_calls::<M>(pts, col, pts.len());
    let second = pippenger::weigh_calls::<M>(pts, col, size, 0);
    lemma_distribute_cost::<M>(pts, col, size, pts.len());
    lemma_weigh_cost::<M>(pts, col, size, 0);
    ops::lemma_count_calls(runs::additions(), first, second);
    ops::lemma_count_calls(runs::doublings(), first, second);
    ops::lemma_count_calls(runs::negations(), first, second);
}

proof fn lemma_windows_cost<M: PointModel>(
    pts: Seq<(nat, nat)>,
    vals: Seq<nat>,
    c: nat,
    count: nat,
    w: nat,
)
    requires
        c >= 1,
        forall|u: nat|
            u < w ==> pippenger::column_fits(
                pts.len(),
                #[trigger] pippenger::column(vals, c, count, u),
                pow2((c - 1) as nat),
            ),
    ensures
        ({
            let made = pippenger::windows_calls::<M>(pts, vals, c, count, w);
            let size = pow2((c - 1) as nat);
            &&& ops::count_calls(runs::additions(), made) + w <= w * (pts.len() + size)
            &&& ops::count_calls(runs::doublings(), made) == 0
            &&& ops::count_calls(runs::negations(), made) <= w * pts.len()
        }),
    decreases w,
{
    if w > 0 {
        let u = (w - 1) as nat;
        let size = pow2((c - 1) as nat);
        let col = pippenger::column(vals, c, count, u);
        let first = pippenger::windows_calls::<M>(pts, vals, c, count, u);
        let second = pippenger::window_calls::<M>(pts, col, size);
        digits::lemma_half(c);
        lemma_windows_cost::<M>(pts, vals, c, count, u);
        lemma_window_cost::<M>(pts, col, size);
        ops::lemma_count_calls(runs::additions(), first, second);
        ops::lemma_count_calls(runs::doublings(), first, second);
        ops::lemma_count_calls(runs::negations(), first, second);
        assert(w * (pts.len() + size) == u * (pts.len() + size) + (pts.len() + size))
            by (nonlinear_arith)
            requires
                w == u + 1,
        ;
        assert(w * pts.len() == u * pts.len() + pts.len()) by (nonlinear_arith)
            requires
                w == u + 1,
        ;
    }
}

proof fn lemma_combine_cost<M: PointModel>(
    pts: Seq<(nat, nat)>,
    vals: Seq<nat>,
    c: nat,
    count: nat,
    w: nat,
)
    requires
        w < count,
    ensures
        ({
            let made = pippenger::combine_calls::<M>(pts, vals, c, count, w);
            &&& ops::count_calls(runs::additions(), made) <= count - w
            &&& ops::count_calls(runs::doublings(), made) <= (count - 1 - w) * c
            &&& ops::count_calls(runs::negations(), made) == 0
        }),
    decreases count - w,
{
    let above = pippenger::combined::<M>(pts, vals, c, count, w + 1);
    let rest = pippenger::combine_calls::<M>(pts, vals, c, count, w + 1);
    let first = pippenger::shift_calls::<M>(above, c);
    let ladder = pippenger::ladder::<M>(
        pts,
        pippenger::column(vals, c, count, w),
        pow2((c - 1) as nat),
        0,
    );
    let second = pippenger::join_calls(pippenger::shifted::<M>(above, c), ladder);
    ops::lemma_count_calls(runs::additions(), rest, first);
    ops::lemma_count_calls(runs::additions(), rest + first, second);
    ops::lemma_count_calls(runs::doublings(), rest, first);
    ops::lemma_count_calls(runs::doublings(), rest + first, second);
    ops::lemma_count_calls(runs::negations(), rest, first);
    ops::lemma_count_calls(runs::negations(), rest + first, second);
    lemma_join_cost(pippenger::shifted::<M>(above, c), ladder);
    lemma_count_all_or_none(runs::additions(), first);
    lemma_count_all_or_none(runs::doublings(), first);
    lemma_count_all_or_none(runs::negations(), first);
    if w + 1 < count {
        lemma_combine_cost::<M>(pts, vals, c, count, w + 1);
        assert((count - 1 - w) * c == (count - 1 - (w + 1)) * c + c) by (nonlinear_arith);
    } else {
        assert((count - 1 - w) * c == 0) by (nonlinear_arith)
            requires
                count - 1 - w == 0,
        ;
    }
}

/// There are no more buckets than points, but for four that there always are.
proof fn lemma_bucket_count(n: nat)
    requires
        n < 0x800_0000_0000,
    ensures
        pow2((pippenger::window_width(n) - 1) as nat) <= if n > 4 {
            n
        } else {
            4
        },
{
    vstd::arithmetic::power2::lemma2_to64();
    pippenger::lemma_window_width(n);
    if n >= 32 {
        let l = vstd::arithmetic::logarithm::log(2, n as int);
        pippenger::lemma_pow2_of_log(n);
        let c = pippenger::window_width(n);
        if c - 1 < l {
            vstd::arithmetic::power2::lemma_pow2_strictly_increases((c - 1) as nat, l as nat);
        }
    }
}

/// How many windows of three bits cover `num_bits` bits: none are narrower.
pub open spec fn most_windows(num_bits: nat) -> nat {
    digits::window_count(num_bits, 3)
}

/// The greater of two numbers.
pub open spec fn greater(a: nat, b: nat) -> nat {
    if a >= b {
        a
    } else {
        b
    }
}

proof fn lemma_fewer_windows(num_bits: nat, c: nat)
    requires
        c >= 3,
        num_bits >= 1,
    ensures
        digits::window_count(num_bits, c) <= most_windows(num_bits),
{
    runs::lemma_windows_begin_inside(num_bits, c);
    runs::lemma_windows_begin_inside(num_bits, 3);
    let count = digits::window_count(num_bits, c);
    let most = most_windows(num_bits);
    assert(count <= most) by (nonlinear_arith)
        requires
            c >= 3,
            (count - 1) * c < num_bits <= most * 3,
    ;
}

/// A run on `n` points costs, in each window, at most `n` additions for the points and
/// as many as there are buckets for the two running sums and for the window itself,
/// which is `n` again, or four. The doublings are fewer than a scalar has bits, however
/// many points there are. Each point is negated at most once in each window.
pub proof fn law_run_cost<M: PointModel>(pts: Seq<(nat, nat)>, vals: Seq<nat>, num_bits: nat)
    requires
        num_bits >= 1,
        0 < pts.len() < 0x800_0000_0000,
        pts.len() == vals.len(),
        pippenger::digits_fit(vals, num_bits),
    ensures
        ({
            let n = pts.len();
            let made = pippenger::bucket_method_calls::<M>(pts, vals, num_bits);
            &&& ops::count_calls(runs::additions(), made) <= most_windows(num_bits) * (n + greater(
                n,
                4,
            ))
            &&& ops::count_calls(runs::doublings(), made) < num_bits
            &&& ops::count_calls(runs::negations(), made) <= most_windows(num_bits) * n
        }),
{
    let n = pts.len();
    let c = pippenger::window_width(n);
    let count = digits::window_count(num_bits, c);
    let size = pow2((c - 1) as nat);
    let first = pippenger::windows_calls::<M>(pts, vals, c, count, count);
    let second = pippenger::combine_calls::<M>(pts, vals, c, count, 0);
    pippenger::lemma_window_width(n);
    runs::lemma_windows_begin_inside(num_bits, c);
    lemma_fewer_windows(num_bits, c);
    lemma_bucket_count(n);
    assert forall|u: nat| u < count implies pippenger::column_fits(
        n,
        #[trigger] pippenger::column(vals, c, count, u),
        size,
    ) by {
        pippenger::lemma_column_fits(vals, num_bits, u);
    }
    lemma_windows_cost::<M>(pts, vals, c, count, count);
    lemma_combine_cost::<M>(pts, vals, c, count, 0);
    ops::lemma_count_calls(runs::additions(), first, second);
    ops::lemma_count_calls(runs::doublings(), first, second);
    ops::lemma_count_calls(runs::negations(), first, second);
    let most = most_windows(num_bits);
    let each = n + greater(n, 4);
    assert(count * (n + size) <= most * each) by (nonlinear_arith)
        requires
            count <= most,
            n + size <= each,
    ;
    assert(count * n <= most * n) by (nonlinear_arith)
        requires
            count <= most,
    ;
}

proof fn lemma_distribution_negations<M: PointModel>(
    pts: Seq<(nat, nat)>,
    col: Seq<int>,
    n: nat,
)
    requires
        n <= col.len(),
    ensures
        ops::count_calls(runs::negations(), pippenger::distribute_calls::<M>(pts, col, n))
            == col.take(n as int).filter(negative()).len(),
    decreases n,
{
    reveal(Seq::filter);
    if n == 0 {
        assert(col.take(0).filter(negative()).len() == 0);
    } else {
        let m = (n - 1) as nat;
        let d = col[n - 1];
        let k = pippenger::magnitude(d) - 1;
        lemma_distribution_negations::<M>(pts, col, m);
        assert(col.take(n as int).drop_last() =~= col.take(m as int));
        assert(col.take(n as int).last() == d);
        let before = pippenger::distribute_calls::<M>(pts, col, m);
        let made = pippenger::place_calls::<M>(pts, col, m);
        ops::lemma_count_calls(runs::negations(), before, made);
        if d != 0 {
            let first = pippenger::share_calls(pts[n - 1], d);
            let a = pippenger::bucket::<M>(pts, col, k, m);
            let b = pippenger::share::<M>(pts[n - 1], d, k);
            ops::lemma_count_calls(runs::negations(), first, pippenger::join_calls(a, b));
            lemma_join_cost(a, b);
            lemma_count_one(runs::negations(), Call::Negate(pts[n - 1]));
        }
    }
}

/// A window negates once for each of its digits that is negative, and not otherwise.
pub proof fn law_window_negations<M: PointModel>(
    pts: Seq<(nat, nat)>,
    col: Seq<int>,
    size: nat,
)
    requires
        pts.len() == col.len(),
    ensures
        ops::count_calls(runs::negations(), pippenger::window_calls::<M>(pts, col, size))
            == col.filter(negative()).len(),
{
    lemma_distribution_negations::<M>(pts, col, pts.len());
    assert(col.take(pts.len() as int) =~= col);
    lemma_weigh_cost::<M>(pts, col, size, 0);
    ops::lemma_count_calls(
        runs::negations(),
        pippenger::distribute_calls::<M>(pts, col, pts.len()),
        pippenger::weigh_calls::<M>(pts, col, size, 0),
    );
}

/// The sum of a window: what its two running sums come to.
pub open spec fn window_sum<M: PointModel>(
    pts: Seq<(nat, nat)>,
    vals: Seq<nat>,
    num_bits: nat,
    w: nat,
) -> Option<(nat, nat)> {
    let c = pippenger::window_width(pts.len());
    pippenger::ladder::<M>(
        pts,
        pippenger::column(vals, c, digits::window_count(num_bits, c), w),
        pow2((c - 1) as nat),
        0,
    )
}

proof fn lemma_combine_doublings<M: PointModel>(
    pts: Seq<(nat, nat)>,
    vals: Seq<nat>,
    num_bits: nat,
    top: nat,
    w: nat,
)
    requires
        top < digits::window_count(num_bits, pippenger::window_width(pts.len())),
        window_sum::<M>(pts, vals, num_bits, top) is Some,
        forall|u: nat|
            top < u < digits::window_count(num_bits, pippenger::window_width(pts.len()))
                ==> #[trigger] window_sum::<M>(pts, vals, num_bits, u) is None,
    ensures
        ({
            let c = pippenger::window_width(pts.len());
            let count = digits::window_count(num_bits, c);
            &&& pippenger::combined::<M>(pts, vals, c, count, w) is Some <==> w <= top
            &&& ops::count_calls(
                runs::doublings(),
                pippenger::combine_calls::<M>(pts, vals, c, count, w),
            ) == if w <= top {
                (top - w) * c
            } else {
                0
            }
        }),
    decreases digits::window_count(num_bits, pippenger::window_width(pts.len())) - w,
{
    let c = pippenger::window_width(pts.len());
    let count = digits::window_count(num_bits, c);
    if w < count {
        lemma_combine_doublings::<M>(pts, vals, num_bits, top, w + 1);
        let above = pippenger::combined::<M>(pts, vals, c, count, w + 1);
        let rest = pippenger::combine_calls::<M>(pts, vals, c, count, w + 1);
        let first = pippenger::shift_calls::<M>(above, c);
        let ladder = window_sum::<M>(pts, vals, num_bits, w);
        let second = pippenger::join_calls(pippenger::shifted::<M>(above, c), ladder);
        ops::lemma_count_calls(runs::doublings(), rest, first);
        ops::lemma_count_calls(runs::doublings(), rest + first, second);
        lemma_join_cost(pippenger::shifted::<M>(above, c), ladder);
        lemma_count_all_or_none(runs::doublings(), first);
        if w < top {
            assert((top - w) * c == (top - (w + 1)) * c + c) by (nonlinear_arith);
        } else if w == top {
            assert((top - w) * c == 0) by (nonlinear_arith)
                requires
                    top == w,
            ;
        }
    }
}

/// The doublings are the bits below the highest window that adds up to something: they
/// move its sum into its place, whatever the windows below hold.
pub proof fn law_run_doublings<M: PointModel>(
    pts: Seq<(nat, nat)>,
    vals: Seq<nat>,
    num_bits: nat,
    top: nat,
)
    requires
        0 < pts.len() < 0x800_0000_0000,
        pts.len() == vals.len(),
        pippenger::digits_fit(vals, num_bits),
        top < digits::window_count(num_bits, pippenger::window_width(pts.len())),
        window_sum::<M>(pts, vals, num_bits, top) is Some,
        forall|u: nat|
            top < u < digits::window_count(num_bits, pippenger::window_width(pts.len()))
                ==> #[trigger] window_sum::<M>(pts, vals, num_bits, u) is None,
    ensures
        ops::count_calls(
            runs::doublings(),
            pippenger::bucket_method_calls::<M>(pts, vals, num_bits),
        ) == top * pippenger::window_width(pts.len()),
{
    let c = pippenger::window_width(pts.len());
    let count = digits::window_count(num_bits, c);
    pippenger::lemma_window_width(pts.len());
    assert forall|u: nat| u < count implies pippenger::column_fits(
        pts.len(),
        #[trigger] pippenger::column(vals, c, count, u),
        pow2((c - 1) as nat),
    ) by {
        pippenger::lemma_column_fits(vals, num_bits, u);
    }
    lemma_windows_cost::<M>(pts, vals, c, count, count);
    lemma_combine_doublings::<M>(pts, vals, num_bits, top, 0);
    ops::lemma_count_calls(
        runs::doublings(),
        pippenger::windows_calls::<M>(pts, vals, c, count, count),
        pippenger::combine_calls::<M>(pts, vals, c, count, 0),
    );
}

/// Which digits are not zero.
pub open spec fn nonzero() -> spec_fn(int) -> bool {
    |d: int| d != 0
}

/// Which digits are negative.
pub open spec fn negative() -> spec_fn(int) -> bool {
    |d: int| d < 0
}

/// The largest distance of a digit from zero.
pub open spec fn largest(col: Seq<int>) -> int
    decreases col.len(),
{
    if col.len() == 0 {
        0
    } else {
        let before = largest(col.drop_last());
        let here = pippenger::magnitude(col.last());
        if here > before {
            here
        } else {
            before
        }
    }
}

proof fn lemma_largest(col: Seq<int>)
    ensures
        largest(col) >= 0,
        forall|i: int|
            0 <= i < col.len() ==> pippenger::magnitude(#[trigger] col[i]) <= largest(col),
        largest(col) > 0 ==> exists|i: int|
            0 <= i < col.len() && pippenger::magnitude(#[trigger] col[i]) == largest(col),
    decreases col.len(),
{
    if col.len() > 0 {
        let front = col.drop_last();
        let n = col.len() - 1;
        lemma_largest(front);
        assert(col[n] == col.last());
        assert forall|i: int| 0 <= i < col.len() implies pippenger::magnitude(#[trigger] col[i])
            <= largest(col) by {
            if i < n {
                assert(front[i] == col[i]);
            }
        }
        if largest(col) > 0 {
            if largest(front) == largest(col) {
                let i = choose|i: int|
                    0 <= i < front.len() && pippenger::magnitude(#[trigger] front[i]) == largest(
                        front,
                    );
                assert(col[i] == front[i]);
            } else {
                assert(pippenger::magnitude(col[n]) == largest(col));
            }
        }
    }
}

/// A bucket holds something if and only if a digit belongs to it.
proof fn lemma_bucket_filled<M: PointModel>(pts: Seq<(nat, nat)>, col: Seq<int>, k: int, n: nat)
    requires
        k >= 0,
        n <= col.len(),
    ensures
        pippenger::bucket::<M>(pts, col, k, n) is Some <==> exists|i: int|
            0 <= i < n && pippenger::magnitude(#[trigger] col[i]) == k + 1,
    decreases n,
{
    if n > 0 {
        let m = (n - 1) as nat;
        lemma_bucket_filled::<M>(pts, col, k, m);
        if pippenger::magnitude(col[n - 1]) == k + 1 {
            assert(pippenger::share::<M>(pts[n - 1], col[n - 1], k) is Some);
        }
    }
}

proof fn lemma_distribution_additions<M: PointModel>(
    pts: Seq<(nat, nat)>,
    col: Seq<int>,
    size: nat,
    n: nat,
)
    requires
        n <= col.len(),
        pippenger::column_fits(pts.len(), col, size),
    ensures
        ops::count_calls(
            runs::additions(),
            pippenger::distribute_calls::<M>(pts, col, n),
        ) + occupied::<M>(pts, col, size, 0, n) == col.take(n as int).filter(nonzero()).len(),
    decreases n,
{
    reveal(Seq::filter);
    if n == 0 {
        lemma_nothing_occupied::<M>(pts, col, size, 0);
        assert(col.take(0).filter(nonzero()).len() == 0);
    } else {
        let m = (n - 1) as nat;
        let d = col[n - 1];
        let k = pippenger::magnitude(d) - 1;
        let before = pippenger::distribute_calls::<M>(pts, col, m);
        let made = pippenger::place_calls::<M>(pts, col, m);
        lemma_distribution_additions::<M>(pts, col, size, m);
        lemma_occupied_step::<M>(pts, col, size, 0, m);
        assert(col.take(n as int).drop_last() =~= col.take(m as int));
        assert(col.take(n as int).last() == d);
        ops::lemma_count_calls(runs::additions(), before, made);
        assert(-size <= col[n - 1] <= size);
        if d != 0 {
            let first = pippenger::share_calls(pts[n - 1], d);
            let a = pippenger::bucket::<M>(pts, col, k, m);
            let b = pippenger::share::<M>(pts[n - 1], d, k);
            ops::lemma_count_calls(runs::additions(), first, pippenger::join_calls(a, b));
            lemma_join_cost(a, b);
            lemma_count_one(runs::additions(), Call::Negate(pts[n - 1]));
        }
    }
}

proof fn lemma_weighing_additions<M: PointModel>(
    pts: Seq<(nat, nat)>,
    col: Seq<int>,
    size: nat,
    j: nat,
)
    requires
        pippenger::column_fits(pts.len(), col, size),
        j <= size,
    ensures
        ({
            let made = pippenger::weigh_calls::<M>(pts, col, size, j);
            let running = pippenger::running::<M>(pts, col, size, j);
            let ladder = pippenger::ladder::<M>(pts, col, size, j);
            let top = largest(col);
            &&& running is Some <==> j < top
            &&& ladder is Some <==> j < top
            &&& ops::count_calls(runs::additions(), made) + filled(running) + filled(ladder)
                == occupied::<M>(pts, col, size, j, pts.len()) + if j < top {
                top - j
            } else {
                0
            }
        }),
    decreases size - j,
{
    let top = largest(col);
    lemma_largest(col);
    if j < size {
        let bucket = pippenger::bucket::<M>(pts, col, j as int, pts.len());
        let running = pippenger::running::<M>(pts, col, size, j + 1);
        let ladder = pippenger::ladder::<M>(pts, col, size, j + 1);
        let here = pippenger::running::<M>(pts, col, size, j);
        lemma_weighing_additions::<M>(pts, col, size, j + 1);
        lemma_bucket_filled::<M>(pts, col, j as int, pts.len());
        if j + 1 == top {
            let i = choose|i: int|
                0 <= i < col.len() && pippenger::magnitude(#[trigger] col[i]) == largest(col);
            assert(pippenger::magnitude(col[i]) == j + 1);
            assert(bucket is Some);
        }
        if j >= top {
            assert(bucket is None);
        }
        let rest = pippenger::weigh_calls::<M>(pts, col, size, j + 1);
        let first = pippenger::join_calls(running, bucket);
        let second = pippenger::join_calls(ladder, here);
        ops::lemma_count_calls(runs::additions(), rest, first);
        ops::lemma_count_calls(runs::additions(), rest + first, second);
        lemma_join_cost(running, bucket);
        lemma_join_cost(ladder, here);
    } else if top > size {
        let i = choose|i: int|
            0 <= i < col.len() && pippenger::magnitude(#[trigger] col[i]) == largest(col);
        assert(-size <= col[i] <= size);
    }
}

proof fn lemma_all_zero(col: Seq<int>)
    requires
        largest(col) == 0,
    ensures
        col.filter(nonzero()).len() == 0,
    decreases col.len(),
{
    reveal(Seq::filter);
    lemma_largest(col);
    if col.len() > 0 {
        lemma_largest(col.drop_last());
        lemma_all_zero(col.drop_last());
    }
}

/// How many additions a window with these digits takes: one for every digit that is not
/// zero, but for the first, and one for every weight below the largest.
pub open spec fn window_additions(col: Seq<int>) -> int {
    if largest(col) == 0 {
        0
    } else {
        col.filter(nonzero()).len() - 1 + largest(col) - 1
    }
}

/// A window takes additions, negations and no doublings by its digits alone, and adds up
/// to something if and only if one of them is not zero.
pub proof fn law_window_cost_is_exact<M: PointModel>(
    pts: Seq<(nat, nat)>,
    col: Seq<int>,
    size: nat,
)
    requires
        pippenger::column_fits(pts.len(), col, size),
    ensures
        ({
            let made = pippenger::window_calls::<M>(pts, col, size);
            &&& ops::count_calls(runs::additions(), made) == window_additions(col)
            &&& ops::count_calls(runs::negations(), made) == col.filter(negative()).len()
            &&& ops::count_calls(runs::doublings(), made) == 0
            &&& pippenger::ladder::<M>(pts, col, size, 0) is Some <==> largest(col) > 0
        }),
{
    let first = pippenger::distribute_calls::<M>(pts, col, pts.len());
    let second = pippenger::weigh_calls::<M>(pts, col, size, 0);
    lemma_distribution_additions::<M>(pts, col, size, pts.len());
    lemma_distribute_cost::<M>(pts, col, size, pts.len());
    lemma_weighing_additions::<M>(pts, col, size, 0);
    lemma_weigh_cost::<M>(pts, col, size, 0);
    lemma_largest(col);
    assert(col.take(pts.len() as int) =~= col);
    if largest(col) == 0 {
        lemma_all_zero(col);
    }
    law_window_negations::<M>(pts, col, size);
    ops::lemma_count_calls(runs::additions(), first, second);
    ops::lemma_count_calls(runs::doublings(), first, second);
}

/// The sum of the first `n` values of a sequence of numbers.
pub open spec fn total(f: spec_fn(nat) -> int, n: nat) -> int
    decreases n,
{
    if n == 0 {
        0
    } else {
        total(f, (n - 1) as nat) + f((n - 1) as nat)
    }
}

/// The digits of a run's window.
pub open spec fn run_column(vals: Seq<nat>, num_bits: nat, w: nat) -> Seq<int> {
    let c = pippenger::window_width(vals.len());
    pippenger::column(vals, c, digits::window_count(num_bits, c), w)
}

/// The additions of each window of a run.
pub open spec fn additions_by_window(vals: Seq<nat>, num_bits: nat) -> spec_fn(nat) -> int {
    |w: nat| window_additions(run_column(vals, num_bits, w))
}

/// The negations of each window of a run.
pub open spec fn negations_by_window(vals: Seq<nat>, num_bits: nat) -> spec_fn(nat) -> int {
    |w: nat| run_column(vals, num_bits, w).filter(negative()).len() as int
}

/// `1` for each window of a run that has a digit other than zero, `0` for the others.
pub open spec fn windows_in_use(vals: Seq<nat>, num_bits: nat) -> spec_fn(nat) -> int {
    |w: nat|
        if largest(run_column(vals, num_bits, w)) > 0 {
            1
        } else {
            0
        }
}

proof fn lemma_windows_exact<M: PointModel>(
    pts: Seq<(nat, nat)>,
    vals: Seq<nat>,
    num_bits: nat,
    w: nat,
)
    requires
        0 < pts.len() < 0x800_0000_0000,
        pts.len() == vals.len(),
        pippenger::digits_fit(vals, num_bits),
        w <= digits::window_count(num_bits, pippenger::window_width(pts.len())),
    ensures
        ({
            let c = pippenger::window_width(pts.len());
            let count = digits::window_count(num_bits, c);
            let made = pippenger::windows_calls::<M>(pts, vals, c, count, w);
            &&& ops::count_calls(runs::additions(), made) == total(
                additions_by_window(vals, num_bits),
                w,
            )
            &&& ops::count_calls(runs::negations(), made) == total(
                negations_by_window(vals, num_bits),
                w,
            )
            &&& ops::count_calls(runs::doublings(), made) == 0
        }),
    decreases w,
{
    let c = pippenger::window_width(pts.len());
    let count = digits::window_count(num_bits, c);
    if w > 0 {
        let u = (w - 1) as nat;
        let size = pow2((c - 1) as nat);
        let col = pippenger::column(vals, c, count, u);
        let first = pippenger::windows_calls::<M>(pts, vals, c, count, u);
        let second = pippenger::window_calls::<M>(pts, col, size);
        lemma_windows_exact::<M>(pts, vals, num_bits, u);
        pippenger::lemma_column_fits(vals, num_bits, u);
        law_window_cost_is_exact::<M>(pts, col, size);
        ops::lemma_count_calls(runs::additions(), first, second);
        ops::lemma_count_calls(runs::doublings(), first, second);
        ops::lemma_count_calls(runs::negations(), first, second);
    }
}

proof fn lemma_combining_exact<M: PointModel>(
    pts: Seq<(nat, nat)>,
    vals: Seq<nat>,
    num_bits: nat,
    w: nat,
)
    requires
        0 < pts.len() < 0x800_0000_0000,
        pts.len() == vals.len(),
        pippenger::digits_fit(vals, num_bits),
        w <= digits::window_count(num_bits, pippenger::window_width(pts.len())),
    ensures
        ({
            let c = pippenger::window_width(pts.len());
            let count = digits::window_count(num_bits, c);
            let made = pippenger::combine_calls::<M>(pts, vals, c, count, w);
            &&& ops::count_calls(runs::additions(), made) + filled(
                pippenger::combined::<M>(pts, vals, c, count, w),
            ) == total(windows_in_use(vals, num_bits), count) - total(
                windows_in_use(vals, num_bits),
                w,
            )
            &&& ops::count_calls(runs::negations(), made) == 0
        }),
    decreases digits::window_count(num_bits, pippenger::window_width(pts.len())) - w,
{
    let c = pippenger::window_width(pts.len());
    let count = digits::window_count(num_bits, c);
    if w < count {
        let size = pow2((c - 1) as nat);
        let col = pippenger::column(vals, c, count, w);
        lemma_combining_exact::<M>(pts, vals, num_bits, w + 1);
        pippenger::lemma_column_fits(vals, num_bits, w);
        law_window_cost_is_exact::<M>(pts, col, size);
        let above = pippenger::combined::<M>(pts, vals, c, count, w + 1);
        let rest = pippenger::combine_calls::<M>(pts, vals, c, count, w + 1);
        let first = pippenger::shift_calls::<M>(above, c);
        let ladder = pippenger::ladder::<M>(pts, col, size, 0);
        let second = pippenger::join_calls(pippenger::shifted::<M>(above, c), ladder);
        ops::lemma_count_calls(runs::additions(), rest, first);
        ops::lemma_count_calls(runs::additions(), rest + first, second);
        ops::lemma_count_calls(runs::negations(), rest, first);
        ops::lemma_count_calls(runs::negations(), rest + first, second);
        lemma_join_cost(pippenger::shifted::<M>(above, c), ladder);
        lemma_count_all_or_none(runs::additions(), first);
        lemma_count_all_or_none(runs::negations(), first);
        assert(((w + 1) - 1) as nat == w);
        assert(total(windows_in_use(vals, num_bits), w + 1) == total(
            windows_in_use(vals, num_bits),
            w,
        ) + windows_in_use(vals, num_bits)(w));
    }
}

/// What a run costs is fixed by the digits of its scalars, whatever the points are: the
/// additions of each window and one for each window in use but the first, and one negation
/// for each negative digit. It comes to nothing if and only if no window is in use.
pub proof fn law_run_cost_is_exact<M: PointModel>(
    pts: Seq<(nat, nat)>,
    vals: Seq<nat>,
    num_bits: nat,
)
    requires
        0 < pts.len() < 0x800_0000_0000,
        pts.len() == vals.len(),
        pippenger::digits_fit(vals, num_bits),
    ensures
        ({
            let count = digits::window_count(num_bits, pippenger::window_width(pts.len()));
            let made = pippenger::bucket_method_calls::<M>(pts, vals, num_bits);
            let used = total(windows_in_use(vals, num_bits), count);
            &&& ops::count_calls(runs::additions(), made) == total(
                additions_by_window(vals, num_bits),
                count,
            ) + if used > 0 {
                used - 1
            } else {
                0
            }
            &&& ops::count_calls(runs::negations(), made) == total(
                negations_by_window(vals, num_bits),
                count,
            )
            &&& pippenger::bucket_method::<M>(pts, vals, num_bits) is Some <==> used > 0
        }),
{
    let c = pippenger::window_width(pts.len());
    let count = digits::window_count(num_bits, c);
    let first = pippenger::windows_calls::<M>(pts, vals, c, count, count);
    let second = pippenger::combine_calls::<M>(pts, vals, c, count, 0);
    lemma_windows_exact::<M>(pts, vals, num_bits, count);
    lemma_combining_exact::<M>(pts, vals, num_bits, 0);
    lemma_nothing_combined::<M>(pts, vals, num_bits, 0);
    ops::lemma_count_calls(runs::additions(), first, second);
    ops::lemma_count_calls(runs::negations(), first, second);
}

proof fn lemma_nothing_combined<M: PointModel>(
    pts: Seq<(nat, nat)>,
    vals: Seq<nat>,
    num_bits: nat,
    w: nat,
)
    requires
        0 < pts.len() < 0x800_0000_0000,
        pts.len() == vals.len(),
        pippenger::digits_fit(vals, num_bits),
        w <= digits::window_count(num_bits, pippenger::window_width(pts.len())),
    ensures
        ({
            let c = pippenger::window_width(pts.len());
            let count = digits::window_count(num_bits, c);
            let used = total(windows_in_use(vals, num_bits), count) - total(
                windows_in_use(vals, num_bits),
                w,
            );
            &&& used >= 0
            &&& pippenger::combined::<M>(pts, vals, c, count, w) is Some <==> used > 0
        }),
    decreases digits::window_count(num_bits, pippenger::window_width(pts.len())) - w,
{
    let c = pippenger::window_width(pts.len());
    let count = digits::window_count(num_bits, c);
    if w < count {
        lemma_nothing_combined::<M>(pts, vals, num_bits, w + 1);
        pippenger::lemma_column_fits(vals, num_bits, w);
        law_window_cost_is_exact::<M>(
            pts,
            pippenger::column(vals, c, count, w),
            pow2((c - 1) as nat),
        );
        assert(((w + 1) - 1) as nat == w);
        assert(total(windows_in_use(vals, num_bits), w + 1) == total(
            windows_in_use(vals, num_bits),
            w,
        ) + windows_in_use(vals, num_bits)(w));
    }
}

} // verus!
