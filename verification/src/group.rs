//! Commutative groups, integer multiples in them, and weighted sums.
use vstd::prelude::*;

verus! {

/// The data of a group on the members of `A`.
#[verifier::reject_recursive_types(A)]
pub struct Group<A> {
    pub member: spec_fn(A) -> bool,
    pub zero: A,
    pub plus: spec_fn(A, A) -> A,
    pub minus: spec_fn(A) -> A,
}

impl<A> Group<A> {
    /// Whether `a` belongs to the group.
    pub open spec fn has(self, a: A) -> bool {
        (self.member)(a)
    }

    /// `a + b`.
    pub open spec fn add(self, a: A, b: A) -> A {
        (self.plus)(a, b)
    }

    /// `-a`.
    pub open spec fn neg(self, a: A) -> A {
        (self.minus)(a)
    }

    /// Sums and negatives of members are members.
    #[verifier::opaque]
    pub open spec fn is_closed(self) -> bool {
        &&& forall|a: A, b: A|
            self.has(a) && self.has(b) ==> self.has(#[trigger] self.add(a, b))
        &&& forall|a: A| self.has(a) ==> self.has(#[trigger] self.neg(a))
    }

    /// `a + b = b + a`.
    #[verifier::opaque]
    pub open spec fn is_commutative(self) -> bool {
        forall|a: A, b: A|
            self.has(a) && self.has(b) ==> #[trigger] self.add(a, b) == self.add(b, a)
    }

    /// `(a + b) + d = a + (b + d)`.
    #[verifier::opaque]
    pub open spec fn is_associative(self) -> bool {
        forall|a: A, b: A, d: A|
            self.has(a) && self.has(b) && self.has(d) ==> #[trigger] self.add(self.add(a, b), d)
                == self.add(a, self.add(b, d))
    }

    /// `a + 0 = a` and `a + (-a) = 0`.
    #[verifier::opaque]
    pub open spec fn has_zero_and_negatives(self) -> bool {
        &&& forall|a: A| self.has(a) ==> #[trigger] self.add(a, self.zero) == a
        &&& forall|a: A| self.has(a) ==> self.add(a, #[trigger] self.neg(a)) == self.zero
    }

    /// The laws of a commutative group, on the members.
    pub open spec fn is_abelian(self) -> bool {
        &&& self.has(self.zero)
        &&& self.is_closed()
        &&& self.is_commutative()
        &&& self.is_associative()
        &&& self.has_zero_and_negatives()
    }

    /// `k` times `a`.
    pub open spec fn times(self, k: int, a: A) -> A
        decreases
                if k >= 0 {
                    k
                } else {
                    -k
                },
    {
        if k == 0 {
            self.zero
        } else if k > 0 {
            self.add(self.times(k - 1, a), a)
        } else {
            self.add(self.times(k + 1, a), self.neg(a))
        }
    }

    /// The sum of `k[i]` times `a[i]`.
    pub open spec fn weighted_sum(self, k: Seq<int>, a: Seq<A>) -> A
        decreases a.len(),
    {
        if a.len() == 0 {
            self.zero
        } else {
            self.add(
                self.weighted_sum(k.drop_last(), a.drop_last()),
                self.times(k.last(), a.last()),
            )
        }
    }

    /// Whether every entry belongs to the group.
    pub open spec fn has_all(self, a: Seq<A>) -> bool {
        forall|i: int| 0 <= i < a.len() ==> self.has(#[trigger] a[i])
    }
}

pub proof fn lemma_closed<A>(g: Group<A>, a: A, b: A)
    requires
        g.is_abelian(),
        g.has(a),
        g.has(b),
    ensures
        g.has(g.add(a, b)),
        g.has(g.neg(a)),
        g.has(g.neg(b)),
{
    reveal(Group::is_closed);
}

pub proof fn lemma_commute<A>(g: Group<A>, a: A, b: A)
    requires
        g.is_abelian(),
        g.has(a),
        g.has(b),
    ensures
        g.add(a, b) == g.add(b, a),
{
    reveal(Group::is_commutative);
}

pub proof fn lemma_associate<A>(g: Group<A>, a: A, b: A, d: A)
    requires
        g.is_abelian(),
        g.has(a),
        g.has(b),
        g.has(d),
    ensures
        g.add(g.add(a, b), d) == g.add(a, g.add(b, d)),
{
    reveal(Group::is_associative);
}

pub proof fn lemma_zero<A>(g: Group<A>, a: A)
    requires
        g.is_abelian(),
        g.has(a),
    ensures
        g.add(a, g.zero) == a,
        g.add(g.zero, a) == a,
{
    reveal(Group::has_zero_and_negatives);
    lemma_commute(g, a, g.zero);
}

pub proof fn lemma_negative<A>(g: Group<A>, a: A)
    requires
        g.is_abelian(),
        g.has(a),
    ensures
        g.add(a, g.neg(a)) == g.zero,
        g.add(g.neg(a), a) == g.zero,
{
    reveal(Group::has_zero_and_negatives);
    lemma_closed(g, a, a);
    lemma_commute(g, a, g.neg(a));
}

pub proof fn lemma_times_member<A>(g: Group<A>, k: int, a: A)
    requires
        g.is_abelian(),
        g.has(a),
    ensures
        g.has(g.times(k, a)),
    decreases
            if k >= 0 {
                k
            } else {
                -k
            },
{
    if k > 0 {
        lemma_times_member(g, k - 1, a);
        lemma_closed(g, g.times(k - 1, a), a);
    } else if k < 0 {
        lemma_times_member(g, k + 1, a);
        lemma_closed(g, a, a);
        lemma_closed(g, g.times(k + 1, a), g.neg(a));
    }
}

/// `(a + b) + (d + e) = (a + d) + (b + e)`.
pub proof fn lemma_regroup<A>(g: Group<A>, a: A, b: A, d: A, e: A)
    requires
        g.is_abelian(),
        g.has(a),
        g.has(b),
        g.has(d),
        g.has(e),
    ensures
        g.add(g.add(a, b), g.add(d, e)) == g.add(g.add(a, d), g.add(b, e)),
{
    lemma_closed(g, d, e);
    lemma_closed(g, b, e);
    lemma_associate(g, a, b, g.add(d, e));
    lemma_associate(g, b, d, e);
    lemma_commute(g, b, d);
    lemma_associate(g, d, b, e);
    lemma_associate(g, a, d, g.add(b, e));
}

pub proof fn lemma_add_cancel<A>(g: Group<A>, a: A, b: A)
    requires
        g.is_abelian(),
        g.has(a),
        g.has(b),
    ensures
        g.add(g.add(a, b), g.neg(b)) == a,
        g.add(g.add(a, g.neg(b)), b) == a,
{
    lemma_closed(g, a, b);
    lemma_associate(g, a, b, g.neg(b));
    lemma_associate(g, a, g.neg(b), b);
    lemma_negative(g, b);
    lemma_zero(g, a);
}

/// One more time, for every integer.
pub proof fn lemma_times_step<A>(g: Group<A>, k: int, a: A)
    requires
        g.is_abelian(),
        g.has(a),
    ensures
        g.times(k + 1, a) == g.add(g.times(k, a), a),
        g.times(k - 1, a) == g.add(g.times(k, a), g.neg(a)),
{
    lemma_times_member(g, k, a);
    lemma_times_member(g, k + 1, a);
    lemma_times_member(g, k - 1, a);
    if k == 0 {
        lemma_closed(g, a, a);
        lemma_zero(g, a);
        lemma_zero(g, g.neg(a));
        assert(g.times(1, a) == g.add(g.times(0, a), a));
        assert(g.times(-1, a) == g.add(g.times(0, a), g.neg(a)));
    }
    if k < 0 {
        assert(g.times(k, a) == g.add(g.times(k + 1, a), g.neg(a)));
        lemma_add_cancel(g, g.times(k + 1, a), a);
    }
    if k > 0 {
        assert(g.times(k, a) == g.add(g.times(k - 1, a), a));
        lemma_add_cancel(g, g.times(k - 1, a), a);
    }
}

/// `(j + k) a = j a + k a`.
pub proof fn lemma_times_add<A>(g: Group<A>, j: int, k: int, a: A)
    requires
        g.is_abelian(),
        g.has(a),
    ensures
        g.times(j + k, a) == g.add(g.times(j, a), g.times(k, a)),
    decreases
            if k >= 0 {
                k
            } else {
                -k
            },
{
    lemma_times_member(g, j, a);
    if k == 0 {
        lemma_zero(g, g.times(j, a));
    } else if k > 0 {
        lemma_times_add(g, j, k - 1, a);
        lemma_times_member(g, k - 1, a);
        lemma_times_step(g, j + k - 1, a);
        lemma_associate(g, g.times(j, a), g.times(k - 1, a), a);
    } else {
        lemma_times_add(g, j, k + 1, a);
        lemma_times_member(g, k + 1, a);
        lemma_times_step(g, j + k + 1, a);
        lemma_closed(g, a, a);
        lemma_associate(g, g.times(j, a), g.times(k + 1, a), g.neg(a));
    }
}

pub proof fn lemma_neg_add<A>(g: Group<A>, a: A, b: A)
    requires
        g.is_abelian(),
        g.has(a),
        g.has(b),
    ensures
        g.neg(g.add(a, b)) == g.add(g.neg(a), g.neg(b)),
{
    let s = g.add(a, b);
    let t = g.add(g.neg(a), g.neg(b));
    lemma_closed(g, a, b);
    lemma_closed(g, g.neg(a), g.neg(b));
    lemma_regroup(g, a, b, g.neg(a), g.neg(b));
    lemma_negative(g, a);
    lemma_negative(g, b);
    lemma_zero(g, g.zero);
    lemma_commute(g, s, t);
    lemma_add_cancel(g, t, s);
    lemma_closed(g, s, s);
    lemma_zero(g, g.neg(s));
}

/// `k (a + b) = k a + k b`.
pub proof fn lemma_times_distributes<A>(g: Group<A>, k: int, a: A, b: A)
    requires
        g.is_abelian(),
        g.has(a),
        g.has(b),
    ensures
        g.times(k, g.add(a, b)) == g.add(g.times(k, a), g.times(k, b)),
    decreases
            if k >= 0 {
                k
            } else {
                -k
            },
{
    lemma_closed(g, a, b);
    if k == 0 {
        lemma_zero(g, g.zero);
    } else if k > 0 {
        lemma_times_distributes(g, k - 1, a, b);
        lemma_times_member(g, k - 1, a);
        lemma_times_member(g, k - 1, b);
        lemma_regroup(g, g.times(k - 1, a), g.times(k - 1, b), a, b);
    } else {
        lemma_times_distributes(g, k + 1, a, b);
        lemma_times_member(g, k + 1, a);
        lemma_times_member(g, k + 1, b);
        lemma_neg_add(g, a, b);
        lemma_regroup(g, g.times(k + 1, a), g.times(k + 1, b), g.neg(a), g.neg(b));
    }
}

pub proof fn lemma_times_zero<A>(g: Group<A>, k: int)
    requires
        g.is_abelian(),
    ensures
        g.times(k, g.zero) == g.zero,
        g.neg(g.zero) == g.zero,
    decreases
            if k >= 0 {
                k
            } else {
                -k
            },
{
    lemma_closed(g, g.zero, g.zero);
    lemma_zero(g, g.zero);
    lemma_negative(g, g.zero);
    lemma_zero(g, g.neg(g.zero));
    if k > 0 {
        lemma_times_zero(g, k - 1);
    } else if k < 0 {
        lemma_times_zero(g, k + 1);
    }
}

/// `-(k a) = (-k) a`.
pub proof fn lemma_neg_times<A>(g: Group<A>, k: int, a: A)
    requires
        g.is_abelian(),
        g.has(a),
    ensures
        g.neg(g.times(k, a)) == g.times(-k, a),
{
    lemma_times_member(g, k, a);
    lemma_times_member(g, -k, a);
    lemma_times_add(g, -k, k, a);
    lemma_add_cancel(g, g.times(-k, a), g.times(k, a));
    lemma_closed(g, g.times(k, a), g.times(k, a));
    lemma_zero(g, g.neg(g.times(k, a)));
}

/// `j (k a) = (j k) a`.
pub proof fn lemma_times_times<A>(g: Group<A>, j: int, k: int, a: A)
    requires
        g.is_abelian(),
        g.has(a),
    ensures
        g.times(j, g.times(k, a)) == g.times(j * k, a),
    decreases
            if j >= 0 {
                j
            } else {
                -j
            },
{
    lemma_times_member(g, k, a);
    if j == 0 {
        assert(j * k == 0) by (nonlinear_arith)
            requires
                j == 0,
        ;
    } else if j > 0 {
        lemma_times_times(g, j - 1, k, a);
        lemma_times_add(g, (j - 1) * k, k, a);
        assert((j - 1) * k + k == j * k) by (nonlinear_arith);
    } else {
        lemma_times_times(g, j + 1, k, a);
        lemma_times_add(g, (j + 1) * k, -k, a);
        assert((j + 1) * k + -k == j * k) by (nonlinear_arith);
        lemma_neg_times(g, k, a);
    }
}

pub proof fn lemma_weighted_sum_member<A>(g: Group<A>, k: Seq<int>, a: Seq<A>)
    requires
        g.is_abelian(),
        g.has_all(a),
        k.len() == a.len(),
    ensures
        g.has(g.weighted_sum(k, a)),
    decreases a.len(),
{
    if a.len() > 0 {
        assert(g.has_all(a.drop_last()));
        lemma_weighted_sum_member(g, k.drop_last(), a.drop_last());
        assert(g.has(a.last()));
        lemma_times_member(g, k.last(), a.last());
        lemma_closed(
            g,
            g.weighted_sum(k.drop_last(), a.drop_last()),
            g.times(k.last(), a.last()),
        );
    }
}

/// Weights add up, and scale: `s (sum of h[i] a[i]) + (sum of k[i] a[i])` is the
/// sum of `(s h[i] + k[i]) a[i]`.
pub proof fn lemma_weighted_sum_combine<A>(
    g: Group<A>,
    s: int,
    h: Seq<int>,
    k: Seq<int>,
    r: Seq<int>,
    a: Seq<A>,
)
    requires
        g.is_abelian(),
        g.has_all(a),
        h.len() == a.len(),
        k.len() == a.len(),
        r.len() == a.len(),
        forall|i: int| 0 <= i < a.len() ==> #[trigger] r[i] == s * h[i] + k[i],
    ensures
        g.add(g.times(s, g.weighted_sum(h, a)), g.weighted_sum(k, a)) == g.weighted_sum(r, a),
    decreases a.len(),
{
    if a.len() == 0 {
        lemma_times_zero(g, s);
        lemma_zero(g, g.zero);
    } else {
        let p = a.drop_last();
        assert(g.has_all(p));
        lemma_weighted_sum_combine(g, s, h.drop_last(), k.drop_last(), r.drop_last(), p);
        lemma_weighted_sum_member(g, h.drop_last(), p);
        lemma_weighted_sum_member(g, k.drop_last(), p);
        let hs = g.weighted_sum(h.drop_last(), p);
        let ks = g.weighted_sum(k.drop_last(), p);
        let x = a.last();
        assert(g.has(x));
        lemma_times_member(g, h.last(), x);
        lemma_times_member(g, k.last(), x);
        lemma_times_member(g, s, hs);
        lemma_times_member(g, s * h.last(), x);
        lemma_times_distributes(g, s, hs, g.times(h.last(), x));
        lemma_times_times(g, s, h.last(), x);
        lemma_regroup(g, g.times(s, hs), g.times(s * h.last(), x), ks, g.times(k.last(), x));
        lemma_times_add(g, s * h.last(), k.last(), x);
    }
}

/// Multiples are repeated addition: none is zero, one is the element itself, and multiples
/// add up.
pub proof fn law_multiples_add_up<A>(g: Group<A>, j: int, k: int, a: A)
    requires
        g.is_abelian(),
        g.has(a),
    ensures
        g.times(0, a) == g.zero,
        g.times(1, a) == a,
        g.times(j + k, a) == g.add(g.times(j, a), g.times(k, a)),
{
    lemma_times_add(g, j, k, a);
    reveal_with_fuel(Group::times, 2);
    lemma_zero(g, a);
}

/// A weighted sum of one element is its multiple, and weighted sums add up, one after the
/// other.
pub proof fn law_weighted_sums_add_up<A>(
    g: Group<A>,
    j: Seq<int>,
    a: Seq<A>,
    k: Seq<int>,
    b: Seq<A>,
)
    requires
        g.is_abelian(),
        j.len() == a.len(),
        k.len() == b.len(),
        g.has_all(a),
        g.has_all(b),
    ensures
        g.weighted_sum(Seq::<int>::empty(), Seq::<A>::empty()) == g.zero,
        a.len() == 1 ==> g.weighted_sum(j, a) == g.times(j[0], a[0]),
        g.weighted_sum(j + k, a + b) == g.add(g.weighted_sum(j, a), g.weighted_sum(k, b)),
    decreases b.len(),
{
    lemma_weighted_sum_member(g, j, a);
    if a.len() == 1 {
        assert(g.has(a[0]));
        lemma_times_member(g, j[0], a[0]);
        lemma_zero(g, g.times(j[0], a[0]));
        reveal_with_fuel(Group::weighted_sum, 2);
    }
    if b.len() == 0 {
        assert(j + k =~= j);
        assert(a + b =~= a);
        lemma_zero(g, g.weighted_sum(j, a));
    } else {
        let kb = k.drop_last();
        let bb = b.drop_last();
        assert forall|i: int| 0 <= i < bb.len() implies g.has(#[trigger] bb[i]) by {
            assert(g.has(b[i]));
        }
        law_weighted_sums_add_up(g, j, a, kb, bb);
        assert((j + k).drop_last() =~= j + kb);
        assert((a + b).drop_last() =~= a + bb);
        assert(g.has(b[b.len() - 1]));
        lemma_weighted_sum_member(g, kb, bb);
        lemma_times_member(g, k.last(), b.last());
        lemma_associate(
            g,
            g.weighted_sum(j, a),
            g.weighted_sum(kb, bb),
            g.times(k.last(), b.last()),
        );
    }
}

} // verus!
