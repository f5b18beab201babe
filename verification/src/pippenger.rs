//! Pippenger's bucket method over any curve that can add, double and negate
//! points on canonical limbs.
use crate::digits;
use crate::digits::fill_signed_digits;
use crate::digits::ln_without_floats;
use crate::limbs;
use crate::limbs::Pt;
use crate::ops;
use crate::ops::Call;
use crate::ops::PointModel;
use crate::ops::PointOps;
use crate::ops::Traced;
use vstd::arithmetic::logarithm::log;
use vstd::arithmetic::power2::pow2;
use vstd::prelude::*;

verus! {

/// Adds two slots, of which an empty one holds nothing to add.
pub open spec fn join<M: PointModel>(
    a: Option<(nat, nat)>,
    b: Option<(nat, nat)>,
) -> Option<(nat, nat)> {
    match (a, b) {
        (None, _) => b,
        (_, None) => a,
        (Some(p), Some(q)) => Some(M::sum(p, q)),
    }
}

/// What a point with digit `d` puts into the bucket of weight `k + 1`.
pub open spec fn share<M: PointModel>(p: (nat, nat), d: int, k: int) -> Option<(nat, nat)> {
    if d == k + 1 {
        Some(p)
    } else if d == -(k + 1) {
        Some(M::negated(p))
    } else {
        None
    }
}

/// The bucket of weight `k + 1` after the first `n` points, which have the digits
/// `col`.
pub open spec fn bucket<M: PointModel>(
    pts: Seq<(nat, nat)>,
    col: Seq<int>,
    k: int,
    n: nat,
) -> Option<(nat, nat)>
    decreases n,
{
    if n == 0 {
        None
    } else {
        join::<M>(
            bucket::<M>(pts, col, k, (n - 1) as nat),
            share::<M>(pts[n - 1], col[n - 1], k),
        )
    }
}

/// The running sum of the buckets from the last, of weight `size`, down to that
/// of weight `j + 1`.
pub open spec fn running<M: PointModel>(
    pts: Seq<(nat, nat)>,
    col: Seq<int>,
    size: nat,
    j: nat,
) -> Option<(nat, nat)>
    decreases size - j,
{
    if j >= size {
        None
    } else {
        join::<M>(
            running::<M>(pts, col, size, j + 1),
            bucket::<M>(pts, col, j as int, pts.len()),
        )
    }
}

/// The sum of the running sums down to weight `j + 1`.
pub open spec fn ladder<M: PointModel>(
    pts: Seq<(nat, nat)>,
    col: Seq<int>,
    size: nat,
    j: nat,
) -> Option<(nat, nat)>
    decreases size - j,
{
    if j >= size {
        None
    } else {
        join::<M>(ladder::<M>(pts, col, size, j + 1), running::<M>(pts, col, size, j))
    }
}

/// The `w`-th signed digit of every scalar.
pub open spec fn column(vals: Seq<nat>, c: nat, count: nat, w: nat) -> Seq<int> {
    Seq::new(vals.len(), |i: int| digits::signed_digit(vals[i], c, count, w))
}

/// `p`, doubled `c` times.
pub open spec fn doubled<M: PointModel>(p: (nat, nat), c: nat) -> (nat, nat)
    decreases c,
{
    if c == 0 {
        p
    } else {
        M::twice(doubled::<M>(p, (c - 1) as nat))
    }
}

/// A slot, doubled `c` times; an empty one stays empty.
pub open spec fn shifted<M: PointModel>(a: Option<(nat, nat)>, c: nat) -> Option<(nat, nat)> {
    match a {
        None => None,
        Some(p) => Some(doubled::<M>(p, c)),
    }
}

/// The windows from the last down to the `w`-th, each put on top of the shifted
/// sum of those above it.
pub open spec fn combined<M: PointModel>(
    pts: Seq<(nat, nat)>,
    vals: Seq<nat>,
    c: nat,
    count: nat,
    w: nat,
) -> Option<(nat, nat)>
    decreases count - w,
{
    if w >= count {
        None
    } else {
        join::<M>(
            shifted::<M>(combined::<M>(pts, vals, c, count, w + 1), c),
            ladder::<M>(pts, column(vals, c, count, w), pow2((c - 1) as nat), 0),
        )
    }
}

/// The width of a window for `n` points.
pub open spec fn window_width(n: nat) -> nat {
    if n < 32 {
        3
    } else {
        (log(2, n as int) * 69 / 100 + 2) as nat
    }
}

/// What the bucket method makes of equally many points and scalars: nothing,
/// where every digit is zero.
pub open spec fn bucket_method<M: PointModel>(
    pts: Seq<(nat, nat)>,
    vals: Seq<nat>,
    num_bits: nat,
) -> Option<(nat, nat)> {
    let c = window_width(pts.len());
    combined::<M>(pts, vals, c, digits::window_count(num_bits, c), 0)
}

/// The call that adds two slots: none, where one of them is empty.
pub open spec fn join_calls(a: Option<(nat, nat)>, b: Option<(nat, nat)>) -> Seq<Call> {
    match (a, b) {
        (Some(p), Some(q)) => seq![Call::Add(p, q)],
        _ => Seq::empty(),
    }
}

/// The distance of a digit from zero.
pub open spec fn magnitude(d: int) -> int {
    if d < 0 {
        -d
    } else {
        d
    }
}

/// The call that gets a point ready for its bucket: its negative, where its digit is
/// negative, and else a plain copy.
pub open spec fn share_calls(p: (nat, nat), d: int) -> Seq<Call> {
    if d < 0 {
        seq![Call::Negate(p)]
    } else {
        Seq::empty()
    }
}

/// The calls that put a point with digit `d` into its bucket, which holds what the
/// first `n` points have put there.
pub open spec fn place_calls<M: PointModel>(
    pts: Seq<(nat, nat)>,
    col: Seq<int>,
    n: nat,
) -> Seq<Call> {
    let d = col[n as int];
    let k = magnitude(d) - 1;
    if d == 0 {
        Seq::empty()
    } else {
        share_calls(pts[n as int], d) + join_calls(
            bucket::<M>(pts, col, k, n),
            share::<M>(pts[n as int], d, k),
        )
    }
}

/// The calls that put the first `n` points into their buckets.
pub open spec fn distribute_calls<M: PointModel>(
    pts: Seq<(nat, nat)>,
    col: Seq<int>,
    n: nat,
) -> Seq<Call>
    decreases n,
{
    if n == 0 {
        Seq::empty()
    } else {
        distribute_calls::<M>(pts, col, (n - 1) as nat) + place_calls::<M>(
            pts,
            col,
            (n - 1) as nat,
        )
    }
}

/// The calls of the two running sums from the last bucket down to that of weight
/// `j + 1`.
pub open spec fn weigh_calls<M: PointModel>(
    pts: Seq<(nat, nat)>,
    col: Seq<int>,
    size: nat,
    j: nat,
) -> Seq<Call>
    decreases size - j,
{
    if j >= size {
        Seq::empty()
    } else {
        weigh_calls::<M>(pts, col, size, j + 1) + join_calls(
            running::<M>(pts, col, size, j + 1),
            bucket::<M>(pts, col, j as int, pts.len()),
        ) + join_calls(
            ladder::<M>(pts, col, size, j + 1),
            running::<M>(pts, col, size, j),
        )
    }
}

/// The calls of one window.
pub open spec fn window_calls<M: PointModel>(
    pts: Seq<(nat, nat)>,
    col: Seq<int>,
    size: nat,
) -> Seq<Call> {
    distribute_calls::<M>(pts, col, pts.len()) + weigh_calls::<M>(pts, col, size, 0)
}

/// The calls of the first `w` windows.
pub open spec fn windows_calls<M: PointModel>(
    pts: Seq<(nat, nat)>,
    vals: Seq<nat>,
    c: nat,
    count: nat,
    w: nat,
) -> Seq<Call>
    decreases w,
{
    if w == 0 {
        Seq::empty()
    } else {
        windows_calls::<M>(pts, vals, c, count, (w - 1) as nat) + window_calls::<M>(
            pts,
            column(vals, c, count, (w - 1) as nat),
            pow2((c - 1) as nat),
        )
    }
}

/// The calls that double a slot `c` times: none, where it is empty.
pub open spec fn shift_calls<M: PointModel>(a: Option<(nat, nat)>, c: nat) -> Seq<Call> {
    match a {
        None => Seq::empty(),
        Some(p) => Seq::new(c, |k: int| Call::Double(doubled::<M>(p, k as nat))),
    }
}

/// The calls that put the windows together, from the last down to the `w`-th.
pub open spec fn combine_calls<M: PointModel>(
    pts: Seq<(nat, nat)>,
    vals: Seq<nat>,
    c: nat,
    count: nat,
    w: nat,
) -> Seq<Call>
    decreases count - w,
{
    if w >= count {
        Seq::empty()
    } else {
        let above = combined::<M>(pts, vals, c, count, w + 1);
        combine_calls::<M>(pts, vals, c, count, w + 1) + shift_calls::<M>(above, c) + join_calls(
            shifted::<M>(above, c),
            ladder::<M>(pts, column(vals, c, count, w), pow2((c - 1) as nat), 0),
        )
    }
}

/// The calls that the bucket method makes, the first one first.
pub open spec fn bucket_method_calls<M: PointModel>(
    pts: Seq<(nat, nat)>,
    vals: Seq<nat>,
    num_bits: nat,
) -> Seq<Call> {
    let c = window_width(pts.len());
    let count = digits::window_count(num_bits, c);
    windows_calls::<M>(pts, vals, c, count, count) + combine_calls::<M>(pts, vals, c, count, 0)
}

/// Whether scalars can be cut into digits: every window begins inside a scalar, and
/// every digit has a bucket.
pub open spec fn digits_fit(vals: Seq<nat>, num_bits: nat) -> bool {
    let c = window_width(vals.len());
    let count = digits::window_count(num_bits, c);
    &&& count > 0 ==> (count - 1) * c < 256
    &&& forall|i: int|
        0 <= i < vals.len() && count > 0 ==> #[trigger] vals[i] % pow2(c * count)
            <= digits::largest_with_top(c, count, pow2((c - 1) as nat) as int)
}

/// Whether the bucket method can take equally many points and scalars: the scalars can
/// be cut into digits, and the operations take every call that is made to them.
pub open spec fn fits<M: PointModel>(
    pts: Seq<(nat, nat)>,
    vals: Seq<nat>,
    num_bits: nat,
) -> bool {
    &&& digits_fit(vals, num_bits)
    &&& ops::all_calls(ops::taking::<M>(), bucket_method_calls::<M>(pts, vals, num_bits))
}

/// Whether the digits of `n` scalars fit their table: each in an `i32`, and all
/// of them in memory.
pub open spec fn table_fits(n: nat, num_bits: nat) -> bool {
    &&& n < 0x800_0000_0000
    &&& n * digits::window_count(num_bits, window_width(n)) <= usize::MAX
}

/// The coordinates of each point.
pub open spec fn all_coords(bases: Seq<Pt>) -> Seq<(nat, nat)> {
    Seq::new(bases.len(), |i: int| limbs::coords(bases[i]))
}

/// The numbers that scalars of four limbs stand for.
pub open spec fn all_values(scalars: Seq<[u64; 4]>) -> Seq<nat> {
    Seq::new(scalars.len(), |i: int| limbs::limbs_value(scalars[i]@))
}

/// The lesser of two lengths.
pub open spec fn shorter(a: nat, b: nat) -> nat {
    if a <= b {
        a
    } else {
        b
    }
}

spec fn slot(buckets: Seq<Pt>, occupied: Seq<bool>, k: int) -> Option<(nat, nat)> {
    if occupied[k] {
        Some(limbs::coords(buckets[k]))
    } else {
        None
    }
}

spec fn opt_coords(p: Option<Pt>) -> Option<(nat, nat)> {
    match p {
        None => None,
        Some(p) => Some(limbs::coords(p)),
    }
}

/// `a := a + b`, where an empty `a` becomes `b`.
fn join_in_place<M: PointModel, O: PointOps<M>>(a: &mut Option<Pt>, b: &Pt, ops: &mut Traced<O>)
    requires
        ops::all_calls(
            ops::taking::<M>(),
            join_calls(opt_coords(*old(a)), Some(limbs::coords(*b))),
        ),
    ensures
        opt_coords(*final(a)) == join::<M>(opt_coords(*old(a)), Some(limbs::coords(*b))),
        final(ops).calls() == old(ops).calls() + join_calls(
            opt_coords(*old(a)),
            Some(limbs::coords(*b)),
        ),
{
    let ghost made = join_calls(opt_coords(*a), Some(limbs::coords(*b)));
    match a {
        None => {
            *a = Some(*b);
            assert(ops.calls() =~= old(ops).calls() + made);
        },
        Some(r) => {
            assert(ops::taking::<M>()(made[0]));
            ops.add_in_place::<M>(r, b);
            assert(ops.calls() =~= old(ops).calls() + made);
        },
    }
}

/// The calls that have been made are taken where all that will have been are.
pub proof fn lemma_distribute_prefix<M: PointModel>(
    ok: spec_fn(Call) -> bool,
    pts: Seq<(nat, nat)>,
    col: Seq<int>,
    i: nat,
    n: nat,
)
    requires
        i <= n,
        ops::all_calls(ok, distribute_calls::<M>(pts, col, n)),
    ensures
        ops::all_calls(ok, distribute_calls::<M>(pts, col, i)),
        i < n ==> ops::all_calls(ok, place_calls::<M>(pts, col, i)),
    decreases n,
{
    if i < n {
        let last = (n - 1) as nat;
        ops::lemma_all_calls(
            ok,
            distribute_calls::<M>(pts, col, last),
            place_calls::<M>(pts, col, last),
        );
        lemma_distribute_prefix::<M>(ok, pts, col, i, last);
    }
}

pub proof fn lemma_pow2_of_log(n: nat)
    requires
        n > 0,
    ensures
        log(2, n as int) >= 0,
        pow2(log(2, n as int) as nat) <= n,
    decreases n,
{
    reveal(log);
    limbs::lemma_pow2_of_limbs();
    if n >= 2 {
        lemma_pow2_of_log(n / 2);
        vstd::arithmetic::power2::lemma_pow2_unfold(log(2, n as int) as nat);
    }
}

/// Windows are between 3 and 30 bits wide.
pub proof fn lemma_window_width(n: nat)
    requires
        n < 0x800_0000_0000,
    ensures
        3 <= window_width(n) <= 30,
        n >= 32 ==> 5 <= log(2, n as int) <= 42,
{
    if n >= 32 {
        let l = log(2, n as int);
        lemma_pow2_of_log(n);
        vstd::arithmetic::power2::lemma2_to64_rest();
        vstd::arithmetic::power2::lemma2_to64();
        if l >= 43 {
            if l > 43 {
                vstd::arithmetic::power2::lemma_pow2_strictly_increases(43, l as nat);
            }
        }
        vstd::arithmetic::logarithm::lemma_log_is_ordered(2, 32, n as int);
        reveal(log);
        assert(log(2, 1) == 0);
        assert(log(2, 2) == 1);
        assert(log(2, 4) == 2);
        assert(log(2, 8) == 3);
        assert(log(2, 16) == 4);
        assert(log(2, 32) == 5);
    }
}

/// The digits of every scalar, one row of `num_windows` after the other.
fn digit_table(scalars: &[[u64; 4]], n: usize, c: usize, num_bits: usize, num_windows: usize) -> (r:
    Vec<i32>)
    requires
        n <= scalars@.len(),
        1 <= c <= 30,
        num_windows > 0 ==> (num_windows - 1) * c < 256,
        n * num_windows <= usize::MAX,
    ensures
        r@.len() == n * num_windows,
        forall|i: int, w: int|
            0 <= i < n && 0 <= w < num_windows ==> r@[#[trigger] cell(i, num_windows as int, w)]
                == digits::signed_digit(
                limbs::limbs_value(scalars@[i]@),
                c as nat,
                num_windows as nat,
                w as nat,
            ),
{
    let mut table: Vec<i32> = Vec::with_capacity(n * num_windows);
    assert(0 * num_windows == 0);
    for i in 0..n
        invariant
            n <= scalars@.len(),
            1 <= c <= 30,
            num_windows > 0 ==> (num_windows - 1) * c < 256,
            table@.len() == i * num_windows,
            forall|k: int, w: int|
                0 <= k < i && 0 <= w < num_windows ==> table@[#[trigger] cell(
                    k,
                    num_windows as int,
                    w,
                )] == digits::signed_digit(
                    limbs::limbs_value(scalars@[k]@),
                    c as nat,
                    num_windows as nat,
                    w as nat,
                ),
    {
        let mut row: Vec<i32> = vec![0i32; num_windows];
        fill_signed_digits(scalars[i].as_slice(), c, num_bits, row.as_mut_slice());
        let ghost filled = row@;
        let ghost before = table@;
        table.append(&mut row);
        assert((i + 1) * num_windows == i * num_windows + num_windows) by (nonlinear_arith);
        assert forall|k: int, w: int| 0 <= k < i + 1 && 0 <= w < num_windows implies table@[
            #[trigger] cell(k, num_windows as int, w)] == digits::signed_digit(
            limbs::limbs_value(scalars@[k]@),
            c as nat,
            num_windows as nat,
            w as nat,
        ) by {
            if k < i {
                lemma_cell(k, i as int, num_windows as int, w);
                assert(table@[cell(k, num_windows as int, w)] == before[cell(
                    k,
                    num_windows as int,
                    w,
                )]);
            } else {
                assert(table@[cell(k, num_windows as int, w)] == filled[w]);
            }
        }
    }
    table
}

/// Where row `i` of a table of `width` columns keeps column `w`.
spec fn cell(i: int, width: int, w: int) -> int {
    i * width + w
}

proof fn lemma_cell(i: int, n: int, width: int, w: int)
    requires
        0 <= i < n,
        0 <= w < width,
    ensures
        0 <= cell(i, width, w) < n * width,
        0 <= i * width <= n * width,
{
    assert(0 <= i * width && i * width + width <= n * width) by (nonlinear_arith)
        requires
            0 <= i < n,
            0 <= w < width,
    ;
}

/// Whether every digit of a window has a bucket.
pub open spec fn column_fits(n: nat, col: Seq<int>, size: nat) -> bool {
    &&& n == col.len()
    &&& forall|i: int| 0 <= i < col.len() ==> -size <= #[trigger] col[i] <= size
}

/// Puts every base into the bucket of its digit.
fn distribute<M: PointModel, O: PointOps<M>>(
    bases: &[Pt],
    n: usize,
    table: &Vec<i32>,
    num_windows: usize,
    w: usize,
    buckets: &mut Vec<Pt>,
    occupied: &mut Vec<bool>,
    ops: &mut Traced<O>,
    Ghost(col): Ghost<Seq<int>>,
)
    requires
        n <= bases@.len(),
        w < num_windows,
        table@.len() == n * num_windows <= usize::MAX,
        forall|i: int|
            0 <= i < n ==> table@[cell(i, num_windows as int, w as int)] == #[trigger] col[i],
        old(buckets)@.len() == old(occupied)@.len(),
        old(buckets)@.len() < 0x8000_0000,
        column_fits(n as nat, col, old(buckets)@.len()),
        ops::all_calls(
            ops::taking::<M>(),
            distribute_calls::<M>(all_coords(bases@.take(n as int)), col, n as nat),
        ),
    ensures
        final(buckets)@.len() == old(buckets)@.len(),
        final(occupied)@.len() == old(buckets)@.len(),
        forall|k: int|
            0 <= k < final(buckets)@.len() ==> #[trigger] slot(
                final(buckets)@,
                final(occupied)@,
                k,
            ) == bucket::<M>(all_coords(bases@.take(n as int)), col, k, n as nat),
        final(ops).calls() == old(ops).calls() + distribute_calls::<M>(
            all_coords(bases@.take(n as int)),
            col,
            n as nat,
        ),
{
    let ghost pts = all_coords(bases@.take(n as int));
    let size: usize = buckets.len();
    for k in 0..size
        invariant
            size == buckets@.len(),
            occupied@.len() == size,
            forall|j: int| 0 <= j < k ==> !#[trigger] occupied@[j],
    {
        occupied[k] = false;
    }
    assert(ops.calls() =~= old(ops).calls() + distribute_calls::<M>(pts, col, 0));
    for i in 0..n
        invariant
            n <= bases@.len(),
            w < num_windows,
            table@.len() == n * num_windows <= usize::MAX,
            pts == all_coords(bases@.take(n as int)),
            forall|i: int|
                0 <= i < n ==> table@[cell(i, num_windows as int, w as int)] == #[trigger] col[i],
            buckets@.len() == size,
            occupied@.len() == size,
            size < 0x8000_0000,
            column_fits(n as nat, col, size as nat),
            ops::all_calls(ops::taking::<M>(), distribute_calls::<M>(pts, col, n as nat)),
            ops.calls() == old(ops).calls() + distribute_calls::<M>(pts, col, i as nat),
            forall|k: int|
                0 <= k < size ==> #[trigger] slot(buckets@, occupied@, k) == bucket::<M>(
                    pts,
                    col,
                    k,
                    i as nat,
                ),
    {
        proof {
            lemma_cell(i as int, n as int, num_windows as int, w as int);
            lemma_distribute_prefix::<M>(ops::taking::<M>(), pts, col, i as nat, n as nat);
        }
        let d: i32 = table[i * num_windows + w];
        let ghost before = ops.calls();
        let ghost made = place_calls::<M>(pts, col, i as nat);
        assert(d == col[i as int]);
        assert(pts[i as int] == limbs::coords(bases@[i as int]));
        if d != 0 {
            let neg: bool = d < 0;
            let idx: usize = if d > 0 {
                d as usize - 1
            } else {
                (-d) as usize - 1
            };
            let ghost b0 = buckets@;
            let ghost o0 = occupied@;
            let ghost first = share_calls(pts[i as int], d as int);
            let ghost second = join_calls(
                bucket::<M>(pts, col, idx as int, i as nat),
                share::<M>(pts[i as int], col[i as int], idx as int),
            );
            assert(made == first + second);
            proof {
                ops::lemma_all_calls(ops::taking::<M>(), first, second);
            }
            let mut tmp: Pt = bases[i];
            if neg {
                assert(ops::taking::<M>()(first[0]));
                ops.negate_y::<M>(&mut tmp);
            }
            assert(ops.calls() =~= before + first);
            assert(share::<M>(pts[i as int], col[i as int], idx as int) == Some(
                limbs::coords(tmp),
            ));
            assert(slot(b0, o0, idx as int) == bucket::<M>(pts, col, idx as int, i as nat));
            if occupied[idx] {
                assert(ops::taking::<M>()(second[0]));
                ops.add_in_place::<M>(&mut buckets[idx], &tmp);
            } else {
                buckets[idx] = tmp;
                occupied[idx] = true;
            }
            assert(ops.calls() =~= before + made);
            assert forall|k: int| 0 <= k < size implies #[trigger] slot(buckets@, occupied@, k)
                == bucket::<M>(pts, col, k, (i + 1) as nat) by {
                if k != idx {
                    assert(slot(buckets@, occupied@, k) == slot(b0, o0, k));
                    assert(share::<M>(pts[i as int], col[i as int], k) is None);
                }
            }
        } else {
            assert(ops.calls() =~= before + made);
            assert forall|k: int| 0 <= k < size implies #[trigger] slot(buckets@, occupied@, k)
                == bucket::<M>(pts, col, k, (i + 1) as nat) by {
                assert(share::<M>(pts[i as int], col[i as int], k) is None);
            }
        }
        assert(ops.calls() =~= old(ops).calls() + distribute_calls::<M>(
            pts,
            col,
            (i + 1) as nat,
        ));
    }
}

/// The calls of the running sums are taken where all that will have been made are.
pub proof fn lemma_weigh_prefix<M: PointModel>(
    ok: spec_fn(Call) -> bool,
    pts: Seq<(nat, nat)>,
    col: Seq<int>,
    size: nat,
    i: nat,
    j: nat,
)
    requires
        i <= j <= size,
        ops::all_calls(ok, weigh_calls::<M>(pts, col, size, i)),
    ensures
        ops::all_calls(ok, weigh_calls::<M>(pts, col, size, j)),
        j < size ==> ops::all_calls(
            ok,
            join_calls(
                running::<M>(pts, col, size, j + 1),
                bucket::<M>(pts, col, j as int, pts.len()),
            ),
        ),
        j < size ==> ops::all_calls(
            ok,
            join_calls(ladder::<M>(pts, col, size, j + 1), running::<M>(pts, col, size, j)),
        ),
    decreases j - i,
{
    if i < size {
        let first = join_calls(
            running::<M>(pts, col, size, i + 1),
            bucket::<M>(pts, col, i as int, pts.len()),
        );
        let second = join_calls(
            ladder::<M>(pts, col, size, i + 1),
            running::<M>(pts, col, size, i),
        );
        let rest = weigh_calls::<M>(pts, col, size, i + 1);
        ops::lemma_all_calls(ok, rest + first, second);
        ops::lemma_all_calls(ok, rest, first);
    }
    if i < j {
        lemma_weigh_prefix::<M>(ok, pts, col, size, i + 1, j);
    }
}

/// The sum of all buckets, each times its weight, by two running sums from the
/// last bucket down: `window` gathers what `running` has gathered so far.
fn weigh<M: PointModel, O: PointOps<M>>(
    buckets: &Vec<Pt>,
    occupied: &Vec<bool>,
    ops: &mut Traced<O>,
    Ghost(pts): Ghost<Seq<(nat, nat)>>,
    Ghost(col): Ghost<Seq<int>>,
) -> (r: Option<Pt>)
    requires
        buckets@.len() == occupied@.len(),
        forall|k: int|
            0 <= k < buckets@.len() ==> #[trigger] slot(buckets@, occupied@, k) == bucket::<M>(
                pts,
                col,
                k,
                pts.len(),
            ),
        ops::all_calls(ops::taking::<M>(), weigh_calls::<M>(pts, col, buckets@.len(), 0)),
    ensures
        opt_coords(r) == ladder::<M>(pts, col, buckets@.len(), 0),
        final(ops).calls() == old(ops).calls() + weigh_calls::<M>(pts, col, buckets@.len(), 0),
{
    let mut running: Option<Pt> = None;
    let mut window: Option<Pt> = None;
    let mut j: usize = buckets.len();
    let ghost size = buckets@.len();
    assert(ops.calls() =~= old(ops).calls() + weigh_calls::<M>(pts, col, size, size));
    while j > 0
        invariant
            j <= buckets@.len(),
            size == buckets@.len(),
            buckets@.len() == occupied@.len(),
            forall|k: int|
                0 <= k < buckets@.len() ==> #[trigger] slot(buckets@, occupied@, k) == bucket::<M>(
                    pts,
                    col,
                    k,
                    pts.len(),
                ),
            ops::all_calls(ops::taking::<M>(), weigh_calls::<M>(pts, col, size, 0)),
            ops.calls() == old(ops).calls() + weigh_calls::<M>(pts, col, size, j as nat),
            opt_coords(running) == self::running::<M>(pts, col, size, j as nat),
            opt_coords(window) == ladder::<M>(pts, col, size, j as nat),
        decreases j,
    {
        let ghost before = ops.calls();
        let ghost above = opt_coords(running);
        let ghost gathered = opt_coords(window);
        j = j - 1;
        proof {
            lemma_weigh_prefix::<M>(ops::taking::<M>(), pts, col, size, 0, j as nat);
        }
        assert(slot(buckets@, occupied@, j as int) == bucket::<M>(
            pts,
            col,
            j as int,
            pts.len(),
        ));
        let ghost first = join_calls(above, bucket::<M>(pts, col, j as int, pts.len()));
        if occupied[j] {
            join_in_place::<M, O>(&mut running, &buckets[j], ops);
        }
        assert(ops.calls() =~= before + first);
        assert(opt_coords(running) == self::running::<M>(pts, col, size, j as nat));
        let ghost second = join_calls(gathered, opt_coords(running));
        if let Some(r) = &running {
            join_in_place::<M, O>(&mut window, r, ops);
        }
        assert(ops.calls() =~= before + first + second);
        assert(ops.calls() =~= old(ops).calls() + weigh_calls::<M>(pts, col, size, j as nat));
    }
    window
}

/// The calls of a window are taken where those of all windows are.
proof fn lemma_windows_prefix<M: PointModel>(
    ok: spec_fn(Call) -> bool,
    pts: Seq<(nat, nat)>,
    vals: Seq<nat>,
    c: nat,
    count: nat,
    w: nat,
    n: nat,
)
    requires
        w <= n,
        ops::all_calls(ok, windows_calls::<M>(pts, vals, c, count, n)),
    ensures
        ops::all_calls(ok, windows_calls::<M>(pts, vals, c, count, w)),
        w < n ==> {
            let col = column(vals, c, count, w);
            let size = pow2((c - 1) as nat);
            &&& ops::all_calls(ok, distribute_calls::<M>(pts, col, pts.len()))
            &&& ops::all_calls(ok, weigh_calls::<M>(pts, col, size, 0))
        },
    decreases n,
{
    if w < n {
        let last = (n - 1) as nat;
        let col = column(vals, c, count, last);
        let size = pow2((c - 1) as nat);
        ops::lemma_all_calls(
            ok,
            windows_calls::<M>(pts, vals, c, count, last),
            window_calls::<M>(pts, col, size),
        );
        ops::lemma_all_calls(
            ok,
            distribute_calls::<M>(pts, col, pts.len()),
            weigh_calls::<M>(pts, col, size, 0),
        );
        lemma_windows_prefix::<M>(ok, pts, vals, c, count, w, last);
    }
}

/// The calls that put one window on top of the others are taken where all that will
/// have been made are.
proof fn lemma_combine_prefix<M: PointModel>(
    ok: spec_fn(Call) -> bool,
    pts: Seq<(nat, nat)>,
    vals: Seq<nat>,
    c: nat,
    count: nat,
    v: nat,
    w: nat,
)
    requires
        v <= w <= count,
        ops::all_calls(ok, combine_calls::<M>(pts, vals, c, count, v)),
    ensures
        ops::all_calls(ok, combine_calls::<M>(pts, vals, c, count, w)),
        w < count ==> {
            let above = combined::<M>(pts, vals, c, count, w + 1);
            &&& ops::all_calls(ok, shift_calls::<M>(above, c))
            &&& ops::all_calls(
                ok,
                join_calls(
                    shifted::<M>(above, c),
                    ladder::<M>(pts, column(vals, c, count, w), pow2((c - 1) as nat), 0),
                ),
            )
        },
    decreases w - v,
{
    if v < count {
        let above = combined::<M>(pts, vals, c, count, v + 1);
        let rest = combine_calls::<M>(pts, vals, c, count, v + 1);
        let first = shift_calls::<M>(above, c);
        let second = join_calls(
            shifted::<M>(above, c),
            ladder::<M>(pts, column(vals, c, count, v), pow2((c - 1) as nat), 0),
        );
        ops::lemma_all_calls(ok, rest + first, second);
        ops::lemma_all_calls(ok, rest, first);
    }
    if v < w {
        lemma_combine_prefix::<M>(ok, pts, vals, c, count, v + 1, w);
    }
}

/// What holds of every call of the bucket method holds of every call of each of its
/// parts.
pub proof fn lemma_parts<M: PointModel>(
    ok: spec_fn(Call) -> bool,
    pts: Seq<(nat, nat)>,
    vals: Seq<nat>,
    num_bits: nat,
    w: nat,
)
    requires
        ops::all_calls(ok, bucket_method_calls::<M>(pts, vals, num_bits)),
        w < digits::window_count(num_bits, window_width(pts.len())),
    ensures
        ({
            let c = window_width(pts.len());
            let count = digits::window_count(num_bits, c);
            let col = column(vals, c, count, w);
            let size = pow2((c - 1) as nat);
            let above = combined::<M>(pts, vals, c, count, w + 1);
            &&& ops::all_calls(ok, distribute_calls::<M>(pts, col, pts.len()))
            &&& ops::all_calls(ok, weigh_calls::<M>(pts, col, size, 0))
            &&& ops::all_calls(ok, shift_calls::<M>(above, c))
            &&& ops::all_calls(
                ok,
                join_calls(shifted::<M>(above, c), ladder::<M>(pts, col, size, 0)),
            )
        }),
{
    let c = window_width(pts.len());
    let count = digits::window_count(num_bits, c);
    ops::lemma_all_calls(
        ok,
        windows_calls::<M>(pts, vals, c, count, count),
        combine_calls::<M>(pts, vals, c, count, 0),
    );
    lemma_windows_prefix::<M>(ok, pts, vals, c, count, w, count);
    lemma_combine_prefix::<M>(ok, pts, vals, c, count, 0, w);
}

/// The sums of all windows, from the lowest up.
fn fill_windows<M: PointModel, O: PointOps<M>>(
    bases: &[Pt],
    n: usize,
    table: &Vec<i32>,
    num_windows: usize,
    num_buckets: usize,
    ops: &mut Traced<O>,
    Ghost(vals): Ghost<Seq<nat>>,
    Ghost(num_bits): Ghost<nat>,
) -> (r: Vec<Option<Pt>>)
    requires
        0 < n <= bases@.len(),
        n < 0x800_0000_0000,
        vals.len() == n,
        num_windows as nat == digits::window_count(num_bits, window_width(n as nat)),
        num_buckets == pow2((window_width(n as nat) - 1) as nat),
        num_buckets <= 0x2000_0000,
        table@.len() == n * num_windows <= usize::MAX,
        forall|i: int, u: int|
            0 <= i < n && 0 <= u < num_windows ==> table@[#[trigger] cell(
                i,
                num_windows as int,
                u,
            )] == digits::signed_digit(
                vals[i],
                window_width(n as nat),
                num_windows as nat,
                u as nat,
            ),
        fits::<M>(all_coords(bases@.take(n as int)), vals, num_bits),
    ensures
        r@.len() == num_windows,
        forall|u: int|
            0 <= u < num_windows ==> opt_coords(#[trigger] r@[u]) == ladder::<M>(
                all_coords(bases@.take(n as int)),
                column(vals, window_width(n as nat), num_windows as nat, u as nat),
                num_buckets as nat,
                0,
            ),
        final(ops).calls() == old(ops).calls() + windows_calls::<M>(
            all_coords(bases@.take(n as int)),
            vals,
            window_width(n as nat),
            num_windows as nat,
            num_windows as nat,
        ),
{
    let ghost pts = all_coords(bases@.take(n as int));
    let ghost cn = window_width(n as nat);
    let ghost count = num_windows as nat;
    let mut buckets: Vec<Pt> = vec![[0u64; 8]; num_buckets];
    let mut occupied: Vec<bool> = vec![false; num_buckets];
    let mut window_sums: Vec<Option<Pt>> = Vec::with_capacity(num_windows);
    assert(ops.calls() =~= old(ops).calls() + windows_calls::<M>(pts, vals, cn, count, 0));
    for w in 0..num_windows
        invariant
            0 < n <= bases@.len(),
            vals.len() == n,
            n < 0x800_0000_0000,
            pts == all_coords(bases@.take(n as int)),
            cn == window_width(n as nat),
            count == num_windows as nat == digits::window_count(num_bits, cn),
            num_buckets == pow2((cn - 1) as nat),
            num_buckets <= 0x2000_0000,
            buckets@.len() == num_buckets,
            occupied@.len() == num_buckets,
            fits::<M>(pts, vals, num_bits),
            table@.len() == n * num_windows <= usize::MAX,
            forall|i: int, u: int|
                0 <= i < n && 0 <= u < num_windows ==> table@[#[trigger] cell(
                    i,
                    num_windows as int,
                    u,
                )] == digits::signed_digit(
                    vals[i],
                    cn,
                    count,
                    u as nat,
                ),
            window_sums@.len() == w,
            forall|u: int|
                0 <= u < w ==> opt_coords(#[trigger] window_sums@[u]) == ladder::<M>(
                    pts,
                    column(vals, cn, count, u as nat),
                    num_buckets as nat,
                    0,
                ),
            ops.calls() == old(ops).calls() + windows_calls::<M>(pts, vals, cn, count, w as nat),
    {
        let ghost col = column(vals, cn, count, w as nat);
        proof {
            lemma_column_fits(vals, num_bits, w as nat);
            lemma_parts::<M>(ops::taking::<M>(), pts, vals, num_bits, w as nat);
        }
        distribute::<M, O>(
            bases,
            n,
            &table,
            num_windows,
            w,
            &mut buckets,
            &mut occupied,
            ops,
            Ghost(col),
        );
        let window: Option<Pt> = weigh::<M, O>(&buckets, &occupied, ops, Ghost(pts), Ghost(col));
        window_sums.push(window);
        assert(ops.calls() =~= old(ops).calls() + windows_calls::<M>(
            pts,
            vals,
            cn,
            count,
            (w + 1) as nat,
        ));
    }
    window_sums
}

/// The windows' sums on top of each other, from the last window down: what there is
/// is doubled once for each bit of a window before the next one is added.
fn combine<M: PointModel, O: PointOps<M>>(
    window_sums: &Vec<Option<Pt>>,
    c: usize,
    ops: &mut Traced<O>,
    Ghost(pts): Ghost<Seq<(nat, nat)>>,
    Ghost(vals): Ghost<Seq<nat>>,
    Ghost(num_bits): Ghost<nat>,
) -> (r: Option<Pt>)
    requires
        c as nat == window_width(pts.len()),
        window_sums@.len() == digits::window_count(num_bits, c as nat),
        fits::<M>(pts, vals, num_bits),
        forall|u: int|
            0 <= u < window_sums@.len() ==> opt_coords(#[trigger] window_sums@[u]) == ladder::<M>(
                pts,
                column(vals, c as nat, window_sums@.len(), u as nat),
                pow2((c - 1) as nat),
                0,
            ),
    ensures
        opt_coords(r) == combined::<M>(pts, vals, c as nat, window_sums@.len(), 0),
        final(ops).calls() == old(ops).calls() + combine_calls::<M>(
            pts,
            vals,
            c as nat,
            window_sums@.len(),
            0,
        ),
{
    let num_windows: usize = window_sums.len();
    let ghost cn = c as nat;
    let ghost count = num_windows as nat;
    let mut total: Option<Pt> = None;
    let mut w: usize = num_windows;
    assert(ops.calls() =~= old(ops).calls() + combine_calls::<M>(pts, vals, cn, count, count));
    while w > 0
        invariant
            w <= num_windows,
            cn == c as nat == window_width(pts.len()),
            count == num_windows as nat == digits::window_count(num_bits, cn),
            fits::<M>(pts, vals, num_bits),
            window_sums@.len() == num_windows,
            forall|u: int|
                0 <= u < num_windows ==> opt_coords(#[trigger] window_sums@[u]) == ladder::<M>(
                    pts,
                    column(vals, cn, count, u as nat),
                    pow2((cn - 1) as nat),
                    0,
                ),
            opt_coords(total) == combined::<M>(pts, vals, cn, count, w as nat),
            ops.calls() == old(ops).calls() + combine_calls::<M>(pts, vals, cn, count, w as nat),
        decreases w,
    {
        w = w - 1;
        proof {
            lemma_parts::<M>(ops::taking::<M>(), pts, vals, num_bits, w as nat);
        }
        let ghost before = ops.calls();
        let ghost above = total;
        let ghost doubles = shift_calls::<M>(opt_coords(above), cn);
        if let Some(t) = &mut total {
            assert(ops.calls() =~= before + doubles.take(0));
            for k in 0..c
                invariant
                    cn == c as nat,
                    doubles == shift_calls::<M>(Some(limbs::coords(above->0)), cn),
                    ops::all_calls(ops::taking::<M>(), doubles),
                    limbs::coords(*t) == doubled::<M>(limbs::coords(above->0), k as nat),
                    ops.calls() == before + doubles.take(k as int),
            {
                assert(ops::taking::<M>()(doubles[k as int]));
                ops.double_in_place::<M>(t);
                assert(ops.calls() =~= before + doubles.take(k + 1));
            }
            assert(doubles.take(cn as int) =~= doubles);
        }
        assert(ops.calls() =~= before + doubles);
        assert(opt_coords(total) == shifted::<M>(opt_coords(above), cn));
        let ghost moved = opt_coords(total);
        if let Some(s) = &window_sums[w] {
            join_in_place::<M, O>(&mut total, s, ops);
        }
        assert(ops.calls() =~= before + doubles + join_calls(
            moved,
            opt_coords(window_sums@[w as int]),
        ));
        assert(ops.calls() =~= old(ops).calls() + combine_calls::<M>(
            pts,
            vals,
            cn,
            count,
            w as nat,
        ));
    }
    total
}

/// How wide a window is for `n` points, how many windows there are for scalars of
/// `num_bits` bits, and how many buckets a window has.
fn plan(n: usize, num_bits: usize) -> (r: (usize, usize, usize))
    requires
        0 < n < 0x800_0000_0000,
    ensures
        3 <= r.0 <= 30,
        r.0 as nat == window_width(n as nat),
        r.1 as nat == digits::window_count(num_bits as nat, r.0 as nat),
        r.2 == pow2((r.0 - 1) as nat),
        r.2 <= 0x2000_0000,
{
    proof {
        lemma_window_width(n as nat);
    }
    let c: usize = if n < 32 {
        3
    } else {
        ln_without_floats(n) + 2
    };
    proof {
        vstd::arithmetic::div_mod::lemma_div_is_ordered_by_denominator(
            num_bits as int,
            3,
            c as int,
        );
    }
    let num_windows: usize = num_bits / c + if num_bits % c > 0 {
        1
    } else {
        0
    };
    proof {
        vstd::arithmetic::power2::lemma2_to64();
        if c < 30 {
            vstd::arithmetic::power2::lemma_pow2_strictly_increases((c - 1) as nat, 29);
        }
        vstd::bits::lemma_usize_shl_is_mul(1, (c - 1) as usize);
    }
    (c, num_windows, 1usize << (c - 1))
}

/// The sum of `scalars[i]` times `bases[i]` by the bucket method, on canonical
/// limbs. Bases and scalars beyond the shorter of the two slices are left out.
/// Zero limbs stand for the empty sum, and for a sum that comes out empty.
pub fn pippenger_with_ops<M: PointModel, O: PointOps<M>>(
    bases: &[Pt],
    scalars: &[[u64; 4]],
    num_bits: usize,
    ops: &mut Traced<O>,
) -> (r: Pt)
    requires
        ({
            let n = shorter(bases@.len(), scalars@.len());
            n > 0 ==> {
                &&& table_fits(n, num_bits as nat)
                &&& fits::<M>(
                    all_coords(bases@.take(n as int)),
                    all_values(scalars@.take(n as int)),
                    num_bits as nat,
                )
            }
        }),
    ensures
        ({
            let n = shorter(bases@.len(), scalars@.len());
            let pts = all_coords(bases@.take(n as int));
            let vals = all_values(scalars@.take(n as int));
            if n == 0 {
                &&& limbs::coords(r) == (0nat, 0nat)
                &&& final(ops).calls() == old(ops).calls()
            } else {
                &&& match bucket_method::<M>(pts, vals, num_bits as nat) {
                    None => limbs::coords(r) == (0nat, 0nat),
                    Some(p) => limbs::coords(r) == p,
                }
                &&& final(ops).calls() == old(ops).calls() + bucket_method_calls::<M>(
                    pts,
                    vals,
                    num_bits as nat,
                )
            }
        }),
{
    let zero: Pt = [0u64; 8];
    proof {
        lemma_zero_coords(zero);
    }
    let n: usize = if bases.len() <= scalars.len() {
        bases.len()
    } else {
        scalars.len()
    };
    if n == 0 {
        return zero;
    }
    let ghost pts = all_coords(bases@.take(n as int));
    let ghost vals = all_values(scalars@.take(n as int));
    let (c, num_windows, num_buckets): (usize, usize, usize) = plan(n, num_bits);
    let ghost cn = c as nat;
    let ghost count = num_windows as nat;
    let table: Vec<i32> = digit_table(scalars, n, c, num_bits, num_windows);
    assert(bases@.take(n as int).len() == n && scalars@.take(n as int).len() == n);
    assert forall|i: int, u: int| 0 <= i < n && 0 <= u < num_windows implies table@[
        #[trigger] cell(i, num_windows as int, u)
    ] == digits::signed_digit(vals[i], cn, count, u as nat) by {
        assert(vals[i] == limbs::limbs_value(scalars@[i]@));
    }
    let window_sums: Vec<Option<Pt>> = fill_windows::<M, O>(
        bases,
        n,
        &table,
        num_windows,
        num_buckets,
        ops,
        Ghost(vals),
        Ghost(num_bits as nat),
    );
    let total: Option<Pt> = combine::<M, O>(
        &window_sums,
        c,
        ops,
        Ghost(pts),
        Ghost(vals),
        Ghost(num_bits as nat),
    );
    assert(ops.calls() =~= old(ops).calls() + bucket_method_calls::<M>(
        pts,
        vals,
        num_bits as nat,
    ));
    match total {
        None => zero,
        Some(t) => t,
    }
}

/// Zero limbs have zero coordinates.
pub proof fn lemma_zero_coords(p: Pt)
    requires
        forall|i: int| 0 <= i < 8 ==> #[trigger] p@[i] == 0,
    ensures
        limbs::coords(p) == (0nat, 0nat),
{
    limbs::lemma_four_limbs(p@.subrange(0, 4));
    limbs::lemma_four_limbs(p@.subrange(4, 8));
}

/// Every digit of a window has a bucket.
pub proof fn lemma_column_fits(vals: Seq<nat>, num_bits: nat, w: nat)
    requires
        0 < vals.len() < 0x800_0000_0000,
        digits_fit(vals, num_bits),
        w < digits::window_count(num_bits, window_width(vals.len())),
    ensures
        ({
            let c = window_width(vals.len());
            let count = digits::window_count(num_bits, c);
            column_fits(vals.len(), column(vals, c, count, w), pow2((c - 1) as nat))
        }),
{
    let c = window_width(vals.len());
    let count = digits::window_count(num_bits, c);
    let col = column(vals, c, count, w);
    let half = pow2((c - 1) as nat);
    lemma_window_width(vals.len());
    assert forall|i: int| 0 <= i < col.len() implies -half <= #[trigger] col[i] <= half by {
        let d = digits::signed_digits(vals[i], c, count);
        digits::law_digit_range(vals[i], c, count);
        digits::law_top_digit(vals[i], c, count, half as int);
        digits::lemma_half(c);
        assert(col[i] == d[w as int]);
        assert(vals[i] % pow2(c * count) <= digits::largest_with_top(c, count, half as int));
    }
}

/// The windows are as many as it takes: together they cover all bits, and one fewer would
/// not.
pub proof fn law_windows_cover_all_bits(num_bits: nat, c: nat)
    requires
        c >= 1,
    ensures
        num_bits <= digits::window_count(num_bits, c) * c < num_bits + c,
{
    let count = digits::window_count(num_bits, c);
    vstd::arithmetic::div_mod::lemma_fundamental_div_mod(num_bits as int, c as int);
    let q = (num_bits / c) as int;
    let r = (num_bits % c) as int;
    assert(num_bits <= count * c < num_bits + c) by (nonlinear_arith)
        requires
            num_bits == c * q + r,
            0 <= r < c,
            count == q + if r > 0 {
                1int
            } else {
                0int
            },
    ;
}

/// A window is three bits wide for fewer than 32 points. For more it is two bits wider
/// than 0.69 times the binary logarithm of their number, rounded down.
pub proof fn law_window_width(n: nat, l: nat)
    requires
        pow2(l) <= n < pow2(l + 1),
    ensures
        n < 32 ==> window_width(n) == 3,
        n >= 32 ==> 100 * (window_width(n) - 2) <= 69 * l < 100 * (window_width(n) - 1),
{
    if n >= 32 {
        lemma_log_is(n, l);
    }
}

proof fn lemma_log_is(n: nat, l: nat)
    requires
        pow2(l) <= n < pow2(l + 1),
    ensures
        log(2, n as int) == l,
    decreases l,
{
    reveal(log);
    limbs::lemma_pow2_of_limbs();
    vstd::arithmetic::power2::lemma_pow2_unfold(l + 1);
    if l > 0 {
        vstd::arithmetic::power2::lemma_pow2_unfold(l);
        vstd::arithmetic::power2::lemma_pow2_pos((l - 1) as nat);
        lemma_log_is(n / 2, (l - 1) as nat);
    }
}

/// As many bases and scalars are taken as there are of both, each with its own coordinates
/// and its own number.
pub proof fn law_inputs_are_taken_as_they_are(
    bases: Seq<Pt>,
    scalars: Seq<[u64; 4]>,
    i: int,
)
    ensures
        shorter(bases.len(), scalars.len()) <= bases.len(),
        shorter(bases.len(), scalars.len()) <= scalars.len(),
        shorter(bases.len(), scalars.len()) == bases.len() || shorter(bases.len(), scalars.len())
            == scalars.len(),
        all_coords(bases).len() == bases.len(),
        all_values(scalars).len() == scalars.len(),
        0 <= i < bases.len() ==> all_coords(bases)[i] == limbs::coords(bases[i]),
        0 <= i < scalars.len() ==> all_values(scalars)[i] == limbs::limbs_value(scalars[i]@),
{
}

} // verus!
