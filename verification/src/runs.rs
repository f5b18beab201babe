//! What runs of the bucket method have in common: where they call nothing, what they
//! call the point operations on, and how often they call them.
use crate::digits;
use crate::ops;
use crate::ops::Call;
use crate::ops::PointModel;
use crate::pippenger;
use vstd::arithmetic::power2::pow2;
use vstd::prelude::*;

verus! {

/// Which calls are additions.
pub open spec fn additions() -> spec_fn(Call) -> bool {
    |call: Call| call is Add
}

/// Which calls are doublings.
pub open spec fn doublings() -> spec_fn(Call) -> bool {
    |call: Call| call is Double
}

/// Which calls are negations.
pub open spec fn negations() -> spec_fn(Call) -> bool {
    |call: Call| call is Negate
}

proof fn lemma_window_of_zero(c: nat, i: nat)
    ensures
        digits::window(0, c, i) == 0,
{
    vstd::arithmetic::power2::lemma_pow2_pos(c);
    vstd::arithmetic::power2::lemma_pow2_pos(c * i);
    vstd::arithmetic::div_mod::lemma_basic_div(0, pow2(c * i) as int);
    vstd::arithmetic::div_mod::lemma_small_mod(0, pow2(c));
}

proof fn lemma_digits_of_zero(c: nat, count: nat, i: nat)
    requires
        c >= 1,
    ensures
        digits::carry_into(0, c, i) == 0,
        digits::signed_digit(0, c, count, i) == 0,
    decreases i,
{
    digits::lemma_carry_step(0, c, i);
    digits::lemma_half(c);
    lemma_window_of_zero(c, i);
    if i > 0 {
        digits::lemma_carry_step(0, c, (i - 1) as nat);
        lemma_window_of_zero(c, (i - 1) as nat);
        lemma_digits_of_zero(c, count, (i - 1) as nat);
    }
    vstd::arithmetic::div_mod::lemma_basic_div(pow2((c - 1) as nat) as int, pow2(c) as int);
    vstd::arithmetic::mul::lemma_mul_basics(pow2(c) as int);
}

proof fn lemma_empty_bucket<M: PointModel>(pts: Seq<(nat, nat)>, col: Seq<int>, k: int, n: nat)
    requires
        n <= col.len(),
        forall|i: int|
            0 <= i < n ==> #[trigger] col[i] == 0 || pippenger::magnitude(col[i]) != k + 1,
        k >= 0,
    ensures
        pippenger::bucket::<M>(pts, col, k, n) is None,
    decreases n,
{
    if n > 0 {
        lemma_empty_bucket::<M>(pts, col, k, (n - 1) as nat);
        assert(col[n - 1] == 0 || pippenger::magnitude(col[n - 1]) != k + 1);
    }
}

/// Windows without a digit call nothing.
proof fn lemma_zero_column<M: PointModel>(
    pts: Seq<(nat, nat)>,
    col: Seq<int>,
    size: nat,
    j: nat,
    n: nat,
)
    requires
        n <= pts.len() == col.len(),
        forall|i: int| 0 <= i < col.len() ==> #[trigger] col[i] == 0,
    ensures
        pippenger::running::<M>(pts, col, size, j) is None,
        pippenger::ladder::<M>(pts, col, size, j) is None,
        pippenger::distribute_calls::<M>(pts, col, n) == Seq::<Call>::empty(),
        pippenger::weigh_calls::<M>(pts, col, size, j) == Seq::<Call>::empty(),
    decreases size - j, n,
{
    if n > 0 {
        lemma_zero_column::<M>(pts, col, size, j, (n - 1) as nat);
        assert(col[n - 1] == 0);
        assert(pippenger::distribute_calls::<M>(pts, col, n) =~= Seq::<Call>::empty());
    } else if j < size {
        lemma_zero_column::<M>(pts, col, size, j + 1, 0);
        lemma_empty_bucket::<M>(pts, col, j as int, pts.len());
        assert(pippenger::weigh_calls::<M>(pts, col, size, j) =~= Seq::<Call>::empty());
    }
}

/// Windows of scalars that have no digits from the `from`-th on call nothing from
/// there on.
proof fn lemma_zero_windows<M: PointModel>(
    pts: Seq<(nat, nat)>,
    vals: Seq<nat>,
    c: nat,
    count: nat,
    from: nat,
    w: nat,
)
    requires
        pts.len() == vals.len(),
        from <= w,
        forall|i: int, u: nat|
            0 <= i < vals.len() && from <= u < count ==> #[trigger] digits::signed_digit(
                vals[i],
                c,
                count,
                u,
            ) == 0,
    ensures
        pippenger::combined::<M>(pts, vals, c, count, w) is None,
        pippenger::combine_calls::<M>(pts, vals, c, count, w) == Seq::<Call>::empty(),
    decreases count - w,
{
    if w < count {
        lemma_zero_windows::<M>(pts, vals, c, count, from, w + 1);
        let col = pippenger::column(vals, c, count, w);
        assert forall|i: int| 0 <= i < col.len() implies #[trigger] col[i] == 0 by {
            assert(digits::signed_digit(vals[i], c, count, w) == 0);
        }
        lemma_zero_column::<M>(pts, col, pow2((c - 1) as nat), 0, pts.len());
        assert(pippenger::combine_calls::<M>(pts, vals, c, count, w) =~= Seq::<Call>::empty());
    }
}

/// The calls of the windows after the first `from` change nothing, where those have no
/// digits.
proof fn lemma_zero_window_calls<M: PointModel>(
    pts: Seq<(nat, nat)>,
    vals: Seq<nat>,
    c: nat,
    count: nat,
    from: nat,
    w: nat,
)
    requires
        pts.len() == vals.len(),
        from <= w <= count,
        forall|i: int, u: nat|
            0 <= i < vals.len() && from <= u < count ==> #[trigger] digits::signed_digit(
                vals[i],
                c,
                count,
                u,
            ) == 0,
    ensures
        pippenger::windows_calls::<M>(pts, vals, c, count, w) == pippenger::windows_calls::<M>(
            pts,
            vals,
            c,
            count,
            from,
        ),
    decreases w,
{
    if w > from {
        let u = (w - 1) as nat;
        lemma_zero_window_calls::<M>(pts, vals, c, count, from, u);
        let col = pippenger::column(vals, c, count, u);
        assert forall|i: int| 0 <= i < col.len() implies #[trigger] col[i] == 0 by {
            assert(digits::signed_digit(vals[i], c, count, u) == 0);
        }
        lemma_zero_column::<M>(pts, col, pow2((c - 1) as nat), 0, pts.len());
        assert(pippenger::windows_calls::<M>(pts, vals, c, count, w)
            =~= pippenger::windows_calls::<M>(pts, vals, c, count, u));
    }
}

/// Windows that cover no more bits than a scalar has begin inside it.
pub proof fn lemma_windows_begin_inside(num_bits: nat, c: nat)
    requires
        c >= 1,
        num_bits >= 1,
    ensures
        digits::window_count(num_bits, c) >= 1,
        (digits::window_count(num_bits, c) - 1) * c < num_bits <= digits::window_count(
            num_bits,
            c,
        ) * c,
{
    let count = digits::window_count(num_bits, c);
    vstd::arithmetic::div_mod::lemma_fundamental_div_mod(num_bits as int, c as int);
    let q = (num_bits / c) as int;
    let r = (num_bits % c) as int;
    assert((count - 1) * c < num_bits <= count * c) by (nonlinear_arith)
        requires
            num_bits == c * q + r,
            0 <= r < c,
            count == q + if r > 0 {
                1int
            } else {
                0int
            },
    ;
    assert(count >= 1) by (nonlinear_arith)
        requires
            1 <= num_bits <= count * c,
    ;
}

/// Scalars of at most `2^(num_bits - 1)` can be cut into digits, where `num_bits` is no
/// more than they have.
pub proof fn law_short_scalars_fit(vals: Seq<nat>, num_bits: nat)
    requires
        vals.len() < 0x800_0000_0000,
        1 <= num_bits <= 256,
        forall|i: int| 0 <= i < vals.len() ==> #[trigger] vals[i] <= pow2((num_bits - 1) as nat),
    ensures
        pippenger::digits_fit(vals, num_bits),
{
    let c = pippenger::window_width(vals.len());
    let count = digits::window_count(num_bits, c);
    pippenger::lemma_window_width(vals.len());
    lemma_windows_begin_inside(num_bits, c);
    assert forall|i: int| 0 <= i < vals.len() && count > 0 implies #[trigger] vals[i] % pow2(
        c * count,
    ) <= digits::largest_with_top(c, count, pow2((c - 1) as nat) as int) by {
        assert(count * c == c * count) by (nonlinear_arith);
        vstd::arithmetic::power2::lemma_pow2_pos(c * count);
        vstd::arithmetic::div_mod::lemma_mod_decreases(vals[i], pow2(c * count));
        if num_bits < c * count {
            vstd::arithmetic::power2::lemma_pow2_strictly_increases(
                (num_bits - 1) as nat,
                (c * count - 1) as nat,
            );
        }
        if count >= 2 {
            digits::law_room_for_top_digit(c, count);
        } else {
            assert(c * count == c) by (nonlinear_arith)
                requires
                    count == 1,
            ;
        }
    }
}

/// Scalars that are all zero are taken whatever the points are, give nothing, and call
/// nothing.
pub proof fn law_zero_scalars_call_nothing<M: PointModel>(
    pts: Seq<(nat, nat)>,
    vals: Seq<nat>,
    num_bits: nat,
)
    requires
        pts.len() == vals.len(),
        forall|i: int| 0 <= i < vals.len() ==> #[trigger] vals[i] == 0,
    ensures
        pippenger::bucket_method::<M>(pts, vals, num_bits) is None,
        pippenger::bucket_method_calls::<M>(pts, vals, num_bits) == Seq::<Call>::empty(),
        num_bits <= 256 && pts.len() < 0x800_0000_0000 ==> pippenger::fits::<M>(
            pts,
            vals,
            num_bits,
        ),
{
    let c = pippenger::window_width(pts.len());
    let count = digits::window_count(num_bits, c);
    if pts.len() >= 32 {
        vstd::arithmetic::logarithm::lemma_log_nonnegative(2, pts.len() as int);
    }
    assert forall|i: int, u: nat| 0 <= i < vals.len() && 0 <= u < count implies
        #[trigger] digits::signed_digit(vals[i], c, count, u) == 0 by {
        lemma_digits_of_zero(c, count, u);
    }
    lemma_zero_windows::<M>(pts, vals, c, count, 0, 0);
    lemma_zero_window_calls::<M>(pts, vals, c, count, 0, count);
    assert(pippenger::bucket_method_calls::<M>(pts, vals, num_bits) =~= Seq::<Call>::empty());
    if num_bits == 0 {
        vstd::arithmetic::div_mod::lemma_basic_div(0, c as int);
        vstd::arithmetic::div_mod::lemma_small_mod(0, c);
    } else if num_bits <= 256 && pts.len() < 0x800_0000_0000 {
        vstd::arithmetic::power2::lemma_pow2_pos((num_bits - 1) as nat);
        law_short_scalars_fit(vals, num_bits);
    }
}

proof fn lemma_digits_of_one(count: nat, i: nat)
    ensures
        digits::carry_into(1, 3, i) == 0,
        digits::signed_digit(1, 3, count, i) == if i == 0 {
            1int
        } else {
            0int
        },
    decreases i,
{
    digits::lemma_carry_step(1, 3, i);
    vstd::arithmetic::power2::lemma2_to64();
    let here = digits::window(1, 3, i);
    if i > 0 {
        lemma_digits_of_one(count, (i - 1) as nat);
        digits::lemma_carry_step(1, 3, (i - 1) as nat);
        if i > 1 {
            lemma_window_of_one((i - 1) as nat);
        } else {
            lemma_lowest_window_of_one();
        }
        lemma_window_of_one(i);
    } else {
        lemma_lowest_window_of_one();
    }
    assert(digits::carry_into(1, 3, i) == 0);
    assert(here <= 1);
    assert(digits::carry_into(1, 3, i + 1) == (here + 4nat) / 8nat);
    assert(digits::carry_into(1, 3, i + 1) * 8 == 0);
}

proof fn lemma_lowest_window_of_one()
    ensures
        digits::window(1, 3, 0) == 1,
{
    vstd::arithmetic::power2::lemma2_to64();
    assert(3nat * 0nat == 0);
    assert(1nat / pow2(0) == 1 && 1nat % 8nat == 1);
}

proof fn lemma_window_of_one(i: nat)
    requires
        i > 0,
    ensures
        digits::window(1, 3, i) == 0,
{
    vstd::arithmetic::power2::lemma2_to64();
    vstd::arithmetic::power2::lemma_pow2_strictly_increases(0, 3 * i);
    vstd::arithmetic::div_mod::lemma_basic_div(1, pow2(3 * i) as int);
    vstd::arithmetic::div_mod::lemma_small_mod(0, 8);
}

/// One point with the scalar one is taken whatever the point is, comes out as it went
/// in, and calls nothing.
pub proof fn law_scalar_one_copies<M: PointModel>(p: (nat, nat), num_bits: nat)
    requires
        num_bits >= 1,
    ensures
        pippenger::bucket_method::<M>(seq![p], seq![1nat], num_bits) == Some(p),
        pippenger::bucket_method_calls::<M>(seq![p], seq![1nat], num_bits) == Seq::<
            Call,
        >::empty(),
        num_bits <= 256 ==> pippenger::fits::<M>(seq![p], seq![1nat], num_bits),
{
    let pts = seq![p];
    let vals = seq![1nat];
    let count = digits::window_count(num_bits, 3);
    let col = pippenger::column(vals, 3, count, 0);
    lemma_windows_begin_inside(num_bits, 3);
    vstd::arithmetic::power2::lemma2_to64();
    assert forall|i: int, u: nat| 0 <= i < vals.len() && 1 <= u < count implies
        #[trigger] digits::signed_digit(vals[i], 3, count, u) == 0 by {
        lemma_digits_of_one(count, u);
    }
    lemma_digits_of_one(count, 0);
    assert(col =~= seq![1int]);
    lemma_one_column::<M>(p);
    lemma_one_ladder::<M>(p, 4, 1);
    lemma_zero_windows::<M>(pts, vals, 3, count, 1, 1);
    lemma_zero_window_calls::<M>(pts, vals, 3, count, 1, count);
    assert(pippenger::running::<M>(pts, col, 4, 0) == Some(p));
    assert(pippenger::ladder::<M>(pts, col, 4, 0) == Some(p));
    assert(pippenger::weigh_calls::<M>(pts, col, 4, 0) =~= Seq::<Call>::empty());
    assert(pippenger::windows_calls::<M>(pts, vals, 3, count, 0) =~= Seq::<Call>::empty());
    assert(pippenger::windows_calls::<M>(pts, vals, 3, count, 1) =~= Seq::<Call>::empty());
    assert(pippenger::combine_calls::<M>(pts, vals, 3, count, 0) =~= Seq::<Call>::empty());
    assert(pippenger::bucket_method_calls::<M>(pts, vals, num_bits) =~= Seq::<Call>::empty());
    if num_bits <= 256 {
        vstd::arithmetic::power2::lemma_pow2_pos((num_bits - 1) as nat);
        law_short_scalars_fit(vals, num_bits);
    }
}

/// One point with the digit one fills the first bucket, by a copy.
proof fn lemma_one_column<M: PointModel>(p: (nat, nat))
    ensures
        pippenger::bucket::<M>(seq![p], seq![1int], 0, 1) == Some(p),
        pippenger::distribute_calls::<M>(seq![p], seq![1int], 1) == Seq::<Call>::empty(),
{
    reveal_with_fuel(pippenger::bucket, 2);
    reveal_with_fuel(pippenger::distribute_calls, 2);
    assert(pippenger::distribute_calls::<M>(seq![p], seq![1int], 1) =~= Seq::<Call>::empty());
}

proof fn lemma_one_ladder<M: PointModel>(p: (nat, nat), size: nat, j: nat)
    requires
        j >= 1,
    ensures
        pippenger::running::<M>(seq![p], seq![1int], size, j) is None,
        pippenger::ladder::<M>(seq![p], seq![1int], size, j) is None,
        pippenger::weigh_calls::<M>(seq![p], seq![1int], size, j) == Seq::<Call>::empty(),
    decreases size - j,
{
    if j < size {
        lemma_one_ladder::<M>(p, size, j + 1);
        lemma_empty_bucket::<M>(seq![p], seq![1int], j as int, 1);
        assert(pippenger::weigh_calls::<M>(seq![p], seq![1int], size, j) =~= Seq::<
            Call,
        >::empty());
    }
}

/// Which calls are on coordinates with a property.
pub open spec fn among(good: spec_fn((nat, nat)) -> bool) -> spec_fn(Call) -> bool {
    |call: Call|
        match call {
            Call::Add(p, q) => good(p) && good(q),
            Call::Double(p) => good(p),
            Call::Negate(p) => good(p),
        }
}

/// Whether a slot is empty or holds coordinates with a property.
pub open spec fn slot_is(good: spec_fn((nat, nat)) -> bool, a: Option<(nat, nat)>) -> bool {
    match a {
        None => true,
        Some(p) => good(p),
    }
}

/// Whether sums and doubles have a property wherever their operands have it.
pub open spec fn keeps<M: PointModel>(good: spec_fn((nat, nat)) -> bool) -> bool {
    &&& forall|p: (nat, nat), q: (nat, nat)| good(p) && good(q) ==> good(#[trigger] M::sum(p, q))
    &&& forall|p: (nat, nat)| good(p) ==> good(#[trigger] M::twice(p))
}

/// Whether all points have a property, and their negatives with them.
pub open spec fn starts_with<M: PointModel>(
    good: spec_fn((nat, nat)) -> bool,
    pts: Seq<(nat, nat)>,
) -> bool {
    forall|i: int| 0 <= i < pts.len() ==> good(#[trigger] pts[i]) && good(M::negated(pts[i]))
}

proof fn lemma_stays_in_bucket<M: PointModel>(
    good: spec_fn((nat, nat)) -> bool,
    pts: Seq<(nat, nat)>,
    col: Seq<int>,
    k: int,
    n: nat,
)
    requires
        keeps::<M>(good),
        starts_with::<M>(good, pts),
        n <= pts.len(),
    ensures
        slot_is(good, pippenger::bucket::<M>(pts, col, k, n)),
    decreases n,
{
    if n > 0 {
        lemma_stays_in_bucket::<M>(good, pts, col, k, (n - 1) as nat);
        assert(good(pts[n - 1]));
    }
}

proof fn lemma_stays_in_distribution<M: PointModel>(
    good: spec_fn((nat, nat)) -> bool,
    pts: Seq<(nat, nat)>,
    col: Seq<int>,
    n: nat,
)
    requires
        keeps::<M>(good),
        starts_with::<M>(good, pts),
        n <= pts.len(),
    ensures
        ops::all_calls(among(good), pippenger::distribute_calls::<M>(pts, col, n)),
    decreases n,
{
    if n > 0 {
        let m = (n - 1) as nat;
        let d = col[n - 1];
        let k = pippenger::magnitude(d) - 1;
        lemma_stays_in_distribution::<M>(good, pts, col, m);
        lemma_stays_in_bucket::<M>(good, pts, col, k, m);
        assert(good(pts[n - 1]));
        let first = pippenger::share_calls(pts[n - 1], d);
        let second = pippenger::join_calls(
            pippenger::bucket::<M>(pts, col, k, m),
            pippenger::share::<M>(pts[n - 1], d, k),
        );
        ops::lemma_all_calls(among(good), first, second);
        ops::lemma_all_calls(
            among(good),
            pippenger::distribute_calls::<M>(pts, col, m),
            pippenger::place_calls::<M>(pts, col, m),
        );
    }
}

proof fn lemma_stays_in_ladder<M: PointModel>(
    good: spec_fn((nat, nat)) -> bool,
    pts: Seq<(nat, nat)>,
    col: Seq<int>,
    size: nat,
    j: nat,
)
    requires
        keeps::<M>(good),
        starts_with::<M>(good, pts),
    ensures
        slot_is(good, pippenger::running::<M>(pts, col, size, j)),
        slot_is(good, pippenger::ladder::<M>(pts, col, size, j)),
        ops::all_calls(among(good), pippenger::weigh_calls::<M>(pts, col, size, j)),
    decreases size - j,
{
    if j < size {
        lemma_stays_in_ladder::<M>(good, pts, col, size, j + 1);
        lemma_stays_in_bucket::<M>(good, pts, col, j as int, pts.len());
        let rest = pippenger::weigh_calls::<M>(pts, col, size, j + 1);
        let first = pippenger::join_calls(
            pippenger::running::<M>(pts, col, size, j + 1),
            pippenger::bucket::<M>(pts, col, j as int, pts.len()),
        );
        let second = pippenger::join_calls(
            pippenger::ladder::<M>(pts, col, size, j + 1),
            pippenger::running::<M>(pts, col, size, j),
        );
        ops::lemma_all_calls(among(good), rest, first);
        ops::lemma_all_calls(among(good), rest + first, second);
    }
}

proof fn lemma_stays_in_windows<M: PointModel>(
    good: spec_fn((nat, nat)) -> bool,
    pts: Seq<(nat, nat)>,
    vals: Seq<nat>,
    c: nat,
    count: nat,
    w: nat,
)
    requires
        keeps::<M>(good),
        starts_with::<M>(good, pts),
    ensures
        ops::all_calls(among(good), pippenger::windows_calls::<M>(pts, vals, c, count, w)),
    decreases w,
{
    if w > 0 {
        let u = (w - 1) as nat;
        let col = pippenger::column(vals, c, count, u);
        let size = pow2((c - 1) as nat);
        lemma_stays_in_windows::<M>(good, pts, vals, c, count, u);
        lemma_stays_in_distribution::<M>(good, pts, col, pts.len());
        lemma_stays_in_ladder::<M>(good, pts, col, size, 0);
        ops::lemma_all_calls(
            among(good),
            pippenger::distribute_calls::<M>(pts, col, pts.len()),
            pippenger::weigh_calls::<M>(pts, col, size, 0),
        );
        ops::lemma_all_calls(
            among(good),
            pippenger::windows_calls::<M>(pts, vals, c, count, u),
            pippenger::window_calls::<M>(pts, col, size),
        );
    }
}

proof fn lemma_stays_doubled<M: PointModel>(
    good: spec_fn((nat, nat)) -> bool,
    p: (nat, nat),
    k: nat,
)
    requires
        keeps::<M>(good),
        good(p),
    ensures
        good(pippenger::doubled::<M>(p, k)),
    decreases k,
{
    if k > 0 {
        lemma_stays_doubled::<M>(good, p, (k - 1) as nat);
    }
}

proof fn lemma_stays_combined<M: PointModel>(
    good: spec_fn((nat, nat)) -> bool,
    pts: Seq<(nat, nat)>,
    vals: Seq<nat>,
    c: nat,
    count: nat,
    w: nat,
)
    requires
        keeps::<M>(good),
        starts_with::<M>(good, pts),
    ensures
        slot_is(good, pippenger::combined::<M>(pts, vals, c, count, w)),
        ops::all_calls(among(good), pippenger::combine_calls::<M>(pts, vals, c, count, w)),
    decreases count - w,
{
    if w < count {
        let above = pippenger::combined::<M>(pts, vals, c, count, w + 1);
        let col = pippenger::column(vals, c, count, w);
        let size = pow2((c - 1) as nat);
        lemma_stays_combined::<M>(good, pts, vals, c, count, w + 1);
        lemma_stays_in_ladder::<M>(good, pts, col, size, 0);
        let rest = pippenger::combine_calls::<M>(pts, vals, c, count, w + 1);
        let first = pippenger::shift_calls::<M>(above, c);
        let second = pippenger::join_calls(
            pippenger::shifted::<M>(above, c),
            pippenger::ladder::<M>(pts, col, size, 0),
        );
        if let Some(p) = above {
            lemma_stays_doubled::<M>(good, p, c);
            assert forall|k: int| 0 <= k < first.len() implies among(good)(#[trigger] first[k]) by {
                lemma_stays_doubled::<M>(good, p, k as nat);
            }
        }
        ops::lemma_all_calls(among(good), rest, first);
        ops::lemma_all_calls(among(good), rest + first, second);
    }
}

/// A property that the points have, and their negatives, and that adding and doubling
/// keep, all coordinates of a run have: those that the operations are called on, and
/// those that come out.
pub proof fn law_run_keeps<M: PointModel>(
    good: spec_fn((nat, nat)) -> bool,
    pts: Seq<(nat, nat)>,
    vals: Seq<nat>,
    num_bits: nat,
)
    requires
        keeps::<M>(good),
        starts_with::<M>(good, pts),
    ensures
        ops::all_calls(among(good), pippenger::bucket_method_calls::<M>(pts, vals, num_bits)),
        slot_is(good, pippenger::bucket_method::<M>(pts, vals, num_bits)),
{
    let c = pippenger::window_width(pts.len());
    let count = digits::window_count(num_bits, c);
    lemma_stays_in_windows::<M>(good, pts, vals, c, count, count);
    lemma_stays_combined::<M>(good, pts, vals, c, count, 0);
    ops::lemma_all_calls(
        among(good),
        pippenger::windows_calls::<M>(pts, vals, c, count, count),
        pippenger::combine_calls::<M>(pts, vals, c, count, 0),
    );
}

/// Whether two models compute the same, whatever each of them takes.
pub open spec fn same_operations<M: PointModel, N: PointModel>() -> bool {
    &&& forall|p: (nat, nat), q: (nat, nat)| #[trigger] M::sum(p, q) == N::sum(p, q)
    &&& forall|p: (nat, nat)| #[trigger] M::twice(p) == N::twice(p)
    &&& forall|p: (nat, nat)| #[trigger] M::negated(p) == N::negated(p)
}

proof fn lemma_same_bucket<M: PointModel, N: PointModel>(
    pts: Seq<(nat, nat)>,
    col: Seq<int>,
    k: int,
    n: nat,
)
    requires
        same_operations::<M, N>(),
    ensures
        pippenger::bucket::<M>(pts, col, k, n) == pippenger::bucket::<N>(pts, col, k, n),
    decreases n,
{
    if n > 0 {
        lemma_same_bucket::<M, N>(pts, col, k, (n - 1) as nat);
    }
}

proof fn lemma_same_distribution<M: PointModel, N: PointModel>(
    pts: Seq<(nat, nat)>,
    col: Seq<int>,
    n: nat,
)
    requires
        same_operations::<M, N>(),
    ensures
        pippenger::distribute_calls::<M>(pts, col, n) == pippenger::distribute_calls::<N>(
            pts,
            col,
            n,
        ),
    decreases n,
{
    if n > 0 {
        let m = (n - 1) as nat;
        lemma_same_distribution::<M, N>(pts, col, m);
        lemma_same_bucket::<M, N>(pts, col, pippenger::magnitude(col[n - 1]) - 1, m);
    }
}

proof fn lemma_same_ladder<M: PointModel, N: PointModel>(
    pts: Seq<(nat, nat)>,
    col: Seq<int>,
    size: nat,
    j: nat,
)
    requires
        same_operations::<M, N>(),
    ensures
        pippenger::running::<M>(pts, col, size, j) == pippenger::running::<N>(pts, col, size, j),
        pippenger::ladder::<M>(pts, col, size, j) == pippenger::ladder::<N>(pts, col, size, j),
        pippenger::weigh_calls::<M>(pts, col, size, j) == pippenger::weigh_calls::<N>(
            pts,
            col,
            size,
            j,
        ),
    decreases size - j,
{
    if j < size {
        lemma_same_ladder::<M, N>(pts, col, size, j + 1);
        lemma_same_bucket::<M, N>(pts, col, j as int, pts.len());
    }
}

proof fn lemma_same_windows<M: PointModel, N: PointModel>(
    pts: Seq<(nat, nat)>,
    vals: Seq<nat>,
    c: nat,
    count: nat,
    w: nat,
)
    requires
        same_operations::<M, N>(),
    ensures
        pippenger::windows_calls::<M>(pts, vals, c, count, w) == pippenger::windows_calls::<N>(
            pts,
            vals,
            c,
            count,
            w,
        ),
    decreases w,
{
    if w > 0 {
        let u = (w - 1) as nat;
        let col = pippenger::column(vals, c, count, u);
        lemma_same_windows::<M, N>(pts, vals, c, count, u);
        lemma_same_distribution::<M, N>(pts, col, pts.len());
        lemma_same_ladder::<M, N>(pts, col, pow2((c - 1) as nat), 0);
    }
}

proof fn lemma_same_doubled<M: PointModel, N: PointModel>(p: (nat, nat), k: nat)
    requires
        same_operations::<M, N>(),
    ensures
        pippenger::doubled::<M>(p, k) == pippenger::doubled::<N>(p, k),
    decreases k,
{
    if k > 0 {
        lemma_same_doubled::<M, N>(p, (k - 1) as nat);
    }
}

proof fn lemma_same_combined<M: PointModel, N: PointModel>(
    pts: Seq<(nat, nat)>,
    vals: Seq<nat>,
    c: nat,
    count: nat,
    w: nat,
)
    requires
        same_operations::<M, N>(),
    ensures
        pippenger::combined::<M>(pts, vals, c, count, w) == pippenger::combined::<N>(
            pts,
            vals,
            c,
            count,
            w,
        ),
        pippenger::combine_calls::<M>(pts, vals, c, count, w) == pippenger::combine_calls::<N>(
            pts,
            vals,
            c,
            count,
            w,
        ),
    decreases count - w,
{
    if w < count {
        let above = pippenger::combined::<M>(pts, vals, c, count, w + 1);
        lemma_same_combined::<M, N>(pts, vals, c, count, w + 1);
        lemma_same_ladder::<M, N>(
            pts,
            pippenger::column(vals, c, count, w),
            pow2((c - 1) as nat),
            0,
        );
        if let Some(p) = above {
            lemma_same_doubled::<M, N>(p, c);
            let a = pippenger::shift_calls::<M>(above, c);
            let b = pippenger::shift_calls::<N>(above, c);
            assert forall|k: int| 0 <= k < c implies #[trigger] a[k] == b[k] by {
                lemma_same_doubled::<M, N>(p, k as nat);
            }
            assert(a =~= b);
        }
    }
}

/// Models that compute the same give the same runs: the same calls and the same result.
pub proof fn law_same_operations_same_run<M: PointModel, N: PointModel>(
    pts: Seq<(nat, nat)>,
    vals: Seq<nat>,
    num_bits: nat,
)
    requires
        same_operations::<M, N>(),
    ensures
        pippenger::bucket_method::<M>(pts, vals, num_bits) == pippenger::bucket_method::<N>(
            pts,
            vals,
            num_bits,
        ),
        pippenger::bucket_method_calls::<M>(pts, vals, num_bits)
            == pippenger::bucket_method_calls::<N>(pts, vals, num_bits),
{
    let c = pippenger::window_width(pts.len());
    let count = digits::window_count(num_bits, c);
    lemma_same_windows::<M, N>(pts, vals, c, count, count);
    lemma_same_combined::<M, N>(pts, vals, c, count, 0);
}

/// Which calls add and double coordinates with a property only.
pub open spec fn computes_with(good: spec_fn((nat, nat)) -> bool) -> spec_fn(Call) -> bool {
    |call: Call|
        match call {
            Call::Add(p, q) => good(p) && good(q),
            Call::Double(p) => good(p),
            Call::Negate(p) => true,
        }
}

/// Which calls negate nothing but coordinates whose negatives have a property.
pub open spec fn negates_into<M: PointModel>(
    good: spec_fn((nat, nat)) -> bool,
) -> spec_fn(Call) -> bool {
    |call: Call|
        match call {
            Call::Negate(p) => good(M::negated(p)),
            _ => true,
        }
}

/// What lacks the property cannot be added to, so it comes out as it went in.
proof fn lemma_lacking_join<M: PointModel>(
    good: spec_fn((nat, nat)) -> bool,
    a: Option<(nat, nat)>,
    b: Option<(nat, nat)>,
)
    requires
        ops::all_calls(computes_with(good), pippenger::join_calls(a, b)),
        !slot_is(good, a) || !slot_is(good, b),
    ensures
        !slot_is(good, pippenger::join::<M>(a, b)),
{
    if let (Some(p), Some(q)) = (a, b) {
        let calls = pippenger::join_calls(a, b);
        assert(computes_with(good)(calls[0]));
    }
}

proof fn lemma_lacking_bucket<M: PointModel>(
    good: spec_fn((nat, nat)) -> bool,
    pts: Seq<(nat, nat)>,
    col: Seq<int>,
    k: int,
    m: nat,
    n: nat,
)
    requires
        m <= n,
        !slot_is(good, pippenger::bucket::<M>(pts, col, k, m)),
        ops::all_calls(computes_with(good), pippenger::distribute_calls::<M>(pts, col, n)),
        k >= 0,
    ensures
        !slot_is(good, pippenger::bucket::<M>(pts, col, k, n)),
    decreases n,
{
    if m < n {
        let u = (n - 1) as nat;
        let d = col[n - 1];
        ops::lemma_all_calls(
            computes_with(good),
            pippenger::distribute_calls::<M>(pts, col, u),
            pippenger::place_calls::<M>(pts, col, u),
        );
        lemma_lacking_bucket::<M>(good, pts, col, k, m, u);
        let before = pippenger::bucket::<M>(pts, col, k, u);
        let share = pippenger::share::<M>(pts[n - 1], d, k);
        if share is Some {
            ops::lemma_all_calls(
                computes_with(good),
                pippenger::share_calls(pts[n - 1], d),
                pippenger::join_calls(before, share),
            );
            lemma_lacking_join::<M>(good, before, share);
        }
    }
}

proof fn lemma_lacking_ladder<M: PointModel>(
    good: spec_fn((nat, nat)) -> bool,
    pts: Seq<(nat, nat)>,
    col: Seq<int>,
    size: nat,
    k: nat,
    j: nat,
)
    requires
        j <= k < size,
        !slot_is(good, pippenger::bucket::<M>(pts, col, k as int, pts.len())),
        ops::all_calls(computes_with(good), pippenger::weigh_calls::<M>(pts, col, size, 0)),
    ensures
        !slot_is(good, pippenger::running::<M>(pts, col, size, j)),
        !slot_is(good, pippenger::ladder::<M>(pts, col, size, j)),
    decreases k - j,
{
    if j < k {
        lemma_lacking_ladder::<M>(good, pts, col, size, k, j + 1);
    }
    pippenger::lemma_weigh_prefix::<M>(computes_with(good), pts, col, size, 0, j);
    let running = pippenger::running::<M>(pts, col, size, j + 1);
    let bucket = pippenger::bucket::<M>(pts, col, j as int, pts.len());
    let ladder = pippenger::ladder::<M>(pts, col, size, j + 1);
    lemma_lacking_join::<M>(good, running, bucket);
    lemma_lacking_join::<M>(good, ladder, pippenger::running::<M>(pts, col, size, j));
}

proof fn lemma_lacking_window<M: PointModel>(
    good: spec_fn((nat, nat)) -> bool,
    pts: Seq<(nat, nat)>,
    vals: Seq<nat>,
    num_bits: nat,
    w: nat,
    v: nat,
)
    requires
        v <= w < digits::window_count(num_bits, pippenger::window_width(pts.len())),
        ops::all_calls(
            computes_with(good),
            pippenger::bucket_method_calls::<M>(pts, vals, num_bits),
        ),
        pippenger::window_width(pts.len()) >= 1,
        ({
            let c = pippenger::window_width(pts.len());
            let count = digits::window_count(num_bits, c);
            let col = pippenger::column(vals, c, count, w);
            !slot_is(good, pippenger::ladder::<M>(pts, col, pow2((c - 1) as nat), 0))
        }),
    ensures
        ({
            let c = pippenger::window_width(pts.len());
            let count = digits::window_count(num_bits, c);
            !slot_is(good, pippenger::combined::<M>(pts, vals, c, count, v))
        }),
    decreases w - v,
{
    let c = pippenger::window_width(pts.len());
    let count = digits::window_count(num_bits, c);
    let col = pippenger::column(vals, c, count, v);
    let above = pippenger::combined::<M>(pts, vals, c, count, v + 1);
    pippenger::lemma_parts::<M>(computes_with(good), pts, vals, num_bits, v);
    if v < w {
        lemma_lacking_window::<M>(good, pts, vals, num_bits, w, v + 1);
        let calls = pippenger::shift_calls::<M>(above, c);
        assert(computes_with(good)(calls[0]));
        assert(calls[0] == Call::Double(pippenger::doubled::<M>(above->0, 0)));
    } else {
        lemma_lacking_join::<M>(
            good,
            pippenger::shifted::<M>(above, c),
            pippenger::ladder::<M>(pts, col, pow2((c - 1) as nat), 0),
        );
    }
}

proof fn lemma_negatives_in_window<M: PointModel>(
    good: spec_fn((nat, nat)) -> bool,
    pts: Seq<(nat, nat)>,
    vals: Seq<nat>,
    num_bits: nat,
    w: nat,
    n: nat,
)
    requires
        pts.len() == vals.len(),
        n <= pts.len() < 0x800_0000_0000,
        w < digits::window_count(num_bits, pippenger::window_width(pts.len())),
        pippenger::digits_fit(vals, num_bits),
        ops::all_calls(
            computes_with(good),
            pippenger::bucket_method_calls::<M>(pts, vals, num_bits),
        ),
        slot_is(good, pippenger::bucket_method::<M>(pts, vals, num_bits)),
    ensures
        ({
            let c = pippenger::window_width(pts.len());
            let col = pippenger::column(vals, c, digits::window_count(num_bits, c), w);
            ops::all_calls(
                negates_into::<M>(good),
                pippenger::distribute_calls::<M>(pts, col, n),
            )
        }),
    decreases n,
{
    let c = pippenger::window_width(pts.len());
    let col = pippenger::column(vals, c, digits::window_count(num_bits, c), w);
    let size = pow2((c - 1) as nat);
    if n > 0 {
        let m = (n - 1) as nat;
        let d = col[n - 1];
        let k = pippenger::magnitude(d) - 1;
        lemma_negatives_in_window::<M>(good, pts, vals, num_bits, w, m);
        pippenger::lemma_window_width(pts.len());
        pippenger::lemma_column_fits(vals, num_bits, w);
        pippenger::lemma_parts::<M>(computes_with(good), pts, vals, num_bits, w);
        if d < 0 && !good(M::negated(pts[n - 1])) {
            pippenger::lemma_distribute_prefix::<M>(
                computes_with(good),
                pts,
                col,
                m,
                pts.len(),
            );
            let before = pippenger::bucket::<M>(pts, col, k, m);
            let share = pippenger::share::<M>(pts[n - 1], d, k);
            ops::lemma_all_calls(
                computes_with(good),
                pippenger::share_calls(pts[n - 1], d),
                pippenger::join_calls(before, share),
            );
            lemma_lacking_join::<M>(good, before, share);
            lemma_lacking_bucket::<M>(good, pts, col, k, n, pts.len());
            lemma_lacking_ladder::<M>(good, pts, col, size, k as nat, 0);
            lemma_lacking_window::<M>(good, pts, vals, num_bits, w, 0);
        }
        let first = pippenger::share_calls(pts[n - 1], d);
        let second = pippenger::join_calls(
            pippenger::bucket::<M>(pts, col, k, m),
            pippenger::share::<M>(pts[n - 1], d, k),
        );
        ops::lemma_all_calls(negates_into::<M>(good), first, second);
        ops::lemma_all_calls(
            negates_into::<M>(good),
            pippenger::distribute_calls::<M>(pts, col, m),
            pippenger::place_calls::<M>(pts, col, m),
        );
    }
}

proof fn lemma_weighing_negates_nothing<M: PointModel>(
    good: spec_fn((nat, nat)) -> bool,
    pts: Seq<(nat, nat)>,
    col: Seq<int>,
    size: nat,
    j: nat,
)
    ensures
        ops::all_calls(negates_into::<M>(good), pippenger::weigh_calls::<M>(pts, col, size, j)),
    decreases size - j,
{
    if j < size {
        lemma_weighing_negates_nothing::<M>(good, pts, col, size, j + 1);
    }
}

proof fn lemma_combining_negates_nothing<M: PointModel>(
    good: spec_fn((nat, nat)) -> bool,
    pts: Seq<(nat, nat)>,
    vals: Seq<nat>,
    c: nat,
    count: nat,
    w: nat,
)
    ensures
        ops::all_calls(
            negates_into::<M>(good),
            pippenger::combine_calls::<M>(pts, vals, c, count, w),
        ),
    decreases count - w,
{
    if w < count {
        lemma_combining_negates_nothing::<M>(good, pts, vals, c, count, w + 1);
    }
}

proof fn lemma_negatives_in_windows<M: PointModel>(
    good: spec_fn((nat, nat)) -> bool,
    pts: Seq<(nat, nat)>,
    vals: Seq<nat>,
    num_bits: nat,
    w: nat,
)
    requires
        pts.len() == vals.len(),
        pts.len() < 0x800_0000_0000,
        w <= digits::window_count(num_bits, pippenger::window_width(pts.len())),
        pippenger::digits_fit(vals, num_bits),
        ops::all_calls(
            computes_with(good),
            pippenger::bucket_method_calls::<M>(pts, vals, num_bits),
        ),
        slot_is(good, pippenger::bucket_method::<M>(pts, vals, num_bits)),
    ensures
        ({
            let c = pippenger::window_width(pts.len());
            let count = digits::window_count(num_bits, c);
            ops::all_calls(
                negates_into::<M>(good),
                pippenger::windows_calls::<M>(pts, vals, c, count, w),
            )
        }),
    decreases w,
{
    let c = pippenger::window_width(pts.len());
    let count = digits::window_count(num_bits, c);
    let size = pow2((c - 1) as nat);
    if w > 0 {
        let u = (w - 1) as nat;
        let col = pippenger::column(vals, c, count, u);
        lemma_negatives_in_windows::<M>(good, pts, vals, num_bits, u);
        lemma_negatives_in_window::<M>(good, pts, vals, num_bits, u, pts.len());
        lemma_weighing_negates_nothing::<M>(good, pts, col, size, 0);
        ops::lemma_all_calls(
            negates_into::<M>(good),
            pippenger::distribute_calls::<M>(pts, col, pts.len()),
            pippenger::weigh_calls::<M>(pts, col, size, 0),
        );
        ops::lemma_all_calls(
            negates_into::<M>(good),
            pippenger::windows_calls::<M>(pts, vals, c, count, u),
            pippenger::window_calls::<M>(pts, col, size),
        );
    }
}

/// Where a run adds and doubles coordinates with a property only, and what comes out has
/// it too, every negative that is taken has it: none is taken that is not put to use.
pub proof fn law_negatives_are_used<M: PointModel>(
    good: spec_fn((nat, nat)) -> bool,
    pts: Seq<(nat, nat)>,
    vals: Seq<nat>,
    num_bits: nat,
)
    requires
        pts.len() == vals.len(),
        pts.len() < 0x800_0000_0000,
        pippenger::digits_fit(vals, num_bits),
        ops::all_calls(
            computes_with(good),
            pippenger::bucket_method_calls::<M>(pts, vals, num_bits),
        ),
        slot_is(good, pippenger::bucket_method::<M>(pts, vals, num_bits)),
    ensures
        ops::all_calls(
            negates_into::<M>(good),
            pippenger::bucket_method_calls::<M>(pts, vals, num_bits),
        ),
{
    let c = pippenger::window_width(pts.len());
    let count = digits::window_count(num_bits, c);
    lemma_negatives_in_windows::<M>(good, pts, vals, num_bits, count);
    lemma_combining_negates_nothing::<M>(good, pts, vals, c, count, 0);
    ops::lemma_all_calls(
        negates_into::<M>(good),
        pippenger::windows_calls::<M>(pts, vals, c, count, count),
        pippenger::combine_calls::<M>(pts, vals, c, count, 0),
    );
}

} // verus!
