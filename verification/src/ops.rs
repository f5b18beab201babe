//! Point operations on canonical limbs, and a record of the calls made to them.
use crate::limbs;
use crate::limbs::Pt;
use vstd::prelude::*;

verus! {

/// What the point operations of a curve compute, on coordinates, and which coordinates
/// they take. There are none for the identity.
pub trait PointModel {
    /// Whether `p` and `q` can be added.
    spec fn addable(p: (nat, nat), q: (nat, nat)) -> bool;

    /// Whether `p` can be doubled.
    spec fn doublable(p: (nat, nat)) -> bool;

    /// Whether `p` can be negated.
    spec fn negatable(p: (nat, nat)) -> bool;

    /// The coordinates of `p + q`.
    spec fn sum(p: (nat, nat), q: (nat, nat)) -> (nat, nat);

    /// The coordinates of `p + p`.
    spec fn twice(p: (nat, nat)) -> (nat, nat);

    /// The coordinates of `-p`.
    spec fn negated(p: (nat, nat)) -> (nat, nat);
}

/// A way to compute the point operations that `M` describes, on canonical limbs.
pub trait PointOps<M: PointModel> {
    /// `p := p + q`.
    fn add_in_place(&mut self, p: &mut Pt, q: &Pt)
        requires
            M::addable(limbs::coords(*old(p)), limbs::coords(*q)),
        ensures
            limbs::coords(*final(p)) == M::sum(limbs::coords(*old(p)), limbs::coords(*q)),
    ;

    /// `p := p + p`.
    fn double_in_place(&mut self, p: &mut Pt)
        requires
            M::doublable(limbs::coords(*old(p))),
        ensures
            limbs::coords(*final(p)) == M::twice(limbs::coords(*old(p))),
    ;

    /// `p := -p`.
    fn negate_y(&mut self, p: &mut Pt)
        requires
            M::negatable(limbs::coords(*old(p))),
        ensures
            limbs::coords(*final(p)) == M::negated(limbs::coords(*old(p))),
    ;
}

/// One call of a point operation, with the coordinates that it was called on.
pub enum Call {
    Add((nat, nat), (nat, nat)),
    Double((nat, nat)),
    Negate((nat, nat)),
}

/// Whether the operations take a call.
pub open spec fn takes<M: PointModel>(call: Call) -> bool {
    match call {
        Call::Add(p, q) => M::addable(p, q),
        Call::Double(p) => M::doublable(p),
        Call::Negate(p) => M::negatable(p),
    }
}

/// What `takes` says, as a value.
pub open spec fn taking<M: PointModel>() -> spec_fn(Call) -> bool {
    |call: Call| takes::<M>(call)
}

/// Whether something holds of every call.
pub open spec fn all_calls(ok: spec_fn(Call) -> bool, calls: Seq<Call>) -> bool {
    forall|i: int| 0 <= i < calls.len() ==> ok(#[trigger] calls[i])
}

/// How many of the calls are of one kind.
pub open spec fn count_calls(kind: spec_fn(Call) -> bool, calls: Seq<Call>) -> nat
    decreases calls.len(),
{
    if calls.len() == 0 {
        0
    } else {
        count_calls(kind, calls.drop_last()) + if kind(calls.last()) {
            1nat
        } else {
            0nat
        }
    }
}

/// What holds of every call of two runs holds of every call of one after the other.
pub proof fn lemma_all_calls(ok: spec_fn(Call) -> bool, a: Seq<Call>, b: Seq<Call>)
    ensures
        all_calls(ok, a + b) <==> all_calls(ok, a) && all_calls(ok, b),
{
    let s = a + b;
    if all_calls(ok, s) {
        assert forall|i: int| 0 <= i < a.len() implies ok(#[trigger] a[i]) by {
            assert(s[i] == a[i]);
        }
        assert forall|i: int| 0 <= i < b.len() implies ok(#[trigger] b[i]) by {
            assert(s[a.len() + i] == b[i]);
        }
    }
}

/// Calls of two runs, one after the other, are counted together.
pub proof fn lemma_count_calls(kind: spec_fn(Call) -> bool, a: Seq<Call>, b: Seq<Call>)
    ensures
        count_calls(kind, a + b) == count_calls(kind, a) + count_calls(kind, b),
    decreases b.len(),
{
    if b.len() == 0 {
        assert(a + b =~= a);
    } else {
        assert((a + b).drop_last() =~= a + b.drop_last());
        lemma_count_calls(kind, a, b.drop_last());
    }
}

/// Point operations together with a record of the calls made to them. The operations
/// cannot be reached but through it, so nothing is called that is not on record.
pub struct Traced<O> {
    ops: O,
    record: Ghost<Seq<Call>>,
}

impl<O> Traced<O> {
    /// The calls made so far, the first one first.
    pub closed spec fn calls(self) -> Seq<Call> {
        self.record@
    }

    /// The operations, before any call.
    pub fn new(ops: O) -> (r: Traced<O>)
        ensures
            r.calls() == Seq::<Call>::empty(),
    {
        Traced { ops, record: Ghost(Seq::empty()) }
    }

    /// `p := p + q`.
    pub fn add_in_place<M: PointModel>(&mut self, p: &mut Pt, q: &Pt) where O: PointOps<M>
        requires
            M::addable(limbs::coords(*old(p)), limbs::coords(*q)),
        ensures
            limbs::coords(*final(p)) == M::sum(limbs::coords(*old(p)), limbs::coords(*q)),
            final(self).calls() == old(self).calls().push(
                Call::Add(limbs::coords(*old(p)), limbs::coords(*q)),
            ),
    {
        let ghost call = Call::Add(limbs::coords(*p), limbs::coords(*q));
        self.ops.add_in_place(p, q);
        self.record = Ghost(self.record@.push(call));
    }

    /// `p := p + p`.
    pub fn double_in_place<M: PointModel>(&mut self, p: &mut Pt) where O: PointOps<M>
        requires
            M::doublable(limbs::coords(*old(p))),
        ensures
            limbs::coords(*final(p)) == M::twice(limbs::coords(*old(p))),
            final(self).calls() == old(self).calls().push(Call::Double(limbs::coords(*old(p)))),
    {
        let ghost call = Call::Double(limbs::coords(*p));
        self.ops.double_in_place(p);
        self.record = Ghost(self.record@.push(call));
    }

    /// `p := -p`.
    pub fn negate_y<M: PointModel>(&mut self, p: &mut Pt) where O: PointOps<M>
        requires
            M::negatable(limbs::coords(*old(p))),
        ensures
            limbs::coords(*final(p)) == M::negated(limbs::coords(*old(p))),
            final(self).calls() == old(self).calls().push(Call::Negate(limbs::coords(*old(p)))),
    {
        let ghost call = Call::Negate(limbs::coords(*p));
        self.ops.negate_y(p);
        self.record = Ghost(self.record@.push(call));
    }
}

} // verus!
