//! The order in which a cycle report lists its sections.
use vstd::prelude::*;

verus! {

/// Whether one name comes no later than another: by the first character in which
/// they differ, or by which is the beginning of the other.
pub open spec fn name_le(a: Seq<char>, b: Seq<char>) -> bool
    decreases a.len(),
{
    if a.len() == 0 {
        true
    } else if b.len() == 0 {
        false
    } else if a[0] != b[0] {
        a[0] < b[0]
    } else {
        name_le(a.drop_first(), b.drop_first())
    }
}

/// Whether entries are listed by name.
pub open spec fn listed_by_name(s: Seq<(String, u64)>) -> bool {
    forall|i: int, j: int|
        0 <= i < j < s.len() ==> name_le((#[trigger] s[i]).0@, (#[trigger] s[j]).0@)
}

/// Whether no two entries have the same name.
pub open spec fn distinct_names(s: Seq<(String, u64)>) -> bool {
    forall|i: int, j: int|
        0 <= i < j < s.len() ==> (#[trigger] s[i]).0@ != (#[trigger] s[j]).0@
}

proof fn lemma_name_total(a: Seq<char>, b: Seq<char>)
    ensures
        name_le(a, b) || name_le(b, a),
        name_le(a, b) && name_le(b, a) ==> a == b,
    decreases a.len(),
{
    if a.len() > 0 && b.len() > 0 && a[0] == b[0] {
        lemma_name_total(a.drop_first(), b.drop_first());
        if a.drop_first() == b.drop_first() {
            assert(a =~= seq![a[0]] + a.drop_first());
            assert(b =~= seq![b[0]] + b.drop_first());
        }
    } else if a.len() == 0 && b.len() == 0 {
        assert(a =~= b);
    }
}

proof fn lemma_name_transitive(a: Seq<char>, b: Seq<char>, d: Seq<char>)
    requires
        name_le(a, b),
        name_le(b, d),
    ensures
        name_le(a, d),
    decreases a.len(),
{
    if a.len() > 0 && a[0] == b[0] && b[0] == d[0] {
        lemma_name_transitive(a.drop_first(), b.drop_first(), d.drop_first());
    }
}

/// Whether `a` comes no later than `b`.
fn comes_no_later(a: &str, b: &str) -> (r: bool)
    ensures
        r == name_le(a@, b@),
{
    let n: usize = a.unicode_len();
    let m: usize = b.unicode_len();
    let mut i: usize = 0;
    assert(a@.skip(0) =~= a@ && b@.skip(0) =~= b@);
    while i < n && i < m
        invariant
            n == a@.len(),
            m == b@.len(),
            i <= n,
            i <= m,
            name_le(a@, b@) == name_le(a@.skip(i as int), b@.skip(i as int)),
        decreases n - i,
    {
        let x: char = a.get_char(i);
        let y: char = b.get_char(i);
        assert(a@.skip(i as int).drop_first() =~= a@.skip(i + 1));
        assert(b@.skip(i as int).drop_first() =~= b@.skip(i + 1));
        if x != y {
            return x < y;
        }
        i = i + 1;
    }
    i == n
}

/// Puts one entry in its place, behind those that it comes no sooner than.
fn insert_by_name(list: &mut Vec<(String, u64)>, entry: (String, u64))
    requires
        listed_by_name(old(list)@),
        old(list)@.len() < usize::MAX,
    ensures
        listed_by_name(final(list)@),
        final(list)@.len() == old(list)@.len() + 1,
        final(list)@.to_multiset() == old(list)@.to_multiset().insert(entry),
{
    let mut at: usize = list.len();
    while at > 0 && !comes_no_later(list[at - 1].0.as_str(), entry.0.as_str())
        invariant
            at <= list@.len(),
            list@ == old(list)@,
            forall|k: int|
                at <= k < list@.len() ==> !name_le((#[trigger] list@[k]).0@, entry.0@),
        decreases at,
    {
        at = at - 1;
    }
    let ghost before = list@;
    let ghost new = entry;
    list.insert(at, entry);
    proof {
        before.to_multiset_ensures();
        vstd::seq_lib::to_multiset_insert(before, at as int, new);
        let now = list@;
        assert forall|i: int, j: int| 0 <= i < j < now.len() implies name_le(
            (#[trigger] now[i]).0@,
            (#[trigger] now[j]).0@,
        ) by {
            if i < at && j == at {
                if i < at - 1 {
                    assert(name_le(before[i].0@, before[at - 1].0@));
                    lemma_name_transitive(before[i].0@, before[at - 1].0@, new.0@);
                }
            } else if i == at {
                assert(!name_le(before[j - 1].0@, new.0@));
                lemma_name_total(before[j - 1].0@, new.0@);
            } else if i < at {
                let k = if j < at {
                    j
                } else {
                    j - 1
                };
                assert(now[j] == before[k]);
                assert(name_le(before[i].0@, before[k].0@));
            } else {
                assert(name_le(before[i - 1].0@, before[j - 1].0@));
            }
        }
    }
}

/// The entries, listed by name.
pub fn sort_by_name(entries: Vec<(String, u64)>) -> (r: Vec<(String, u64)>)
    ensures
        listed_by_name(r@),
        r@.to_multiset() == entries@.to_multiset(),
        r@.len() == entries@.len(),
{
    let ghost all = entries@;
    let mut rest: Vec<(String, u64)> = entries;
    let mut out: Vec<(String, u64)> = Vec::with_capacity(rest.len());
    proof {
        out@.to_multiset_ensures();
        assert(out@.to_multiset().add(rest@.to_multiset()) =~= rest@.to_multiset()) by {
            assert(out@.to_multiset() =~= vstd::multiset::Multiset::empty());
        }
    }
    while rest.len() > 0
        invariant
            listed_by_name(out@),
            out@.len() + rest@.len() == all.len(),
            all.len() <= usize::MAX,
            all.to_multiset() == out@.to_multiset().add(rest@.to_multiset()),
        decreases rest@.len(),
    {
        let ghost sorted = out@;
        let ghost waiting = rest@;
        let entry: (String, u64) = rest.remove(0);
        proof {
            vstd::seq_lib::to_multiset_remove(waiting, 0);
            waiting.to_multiset_ensures();
        }
        insert_by_name(&mut out, entry);
        assert(out@.to_multiset().add(rest@.to_multiset()) =~= sorted.to_multiset().add(
            waiting.to_multiset(),
        ));
    }
    proof {
        rest@.to_multiset_ensures();
        assert(rest@.to_multiset() =~= vstd::multiset::Multiset::empty());
        assert(out@.to_multiset() =~= all.to_multiset());
    }
    out
}

/// Entries with distinct names are listed in one way only, in whatever order they
/// came.
pub proof fn law_listing_is_unique(s: Seq<(String, u64)>, t: Seq<(String, u64)>)
    requires
        listed_by_name(s),
        listed_by_name(t),
        distinct_names(s),
        s.to_multiset() == t.to_multiset(),
    ensures
        s == t,
    decreases s.len(),
{
    s.to_multiset_ensures();
    t.to_multiset_ensures();
    if s.len() > 0 {
        assert(t.to_multiset().count(s[0]) > 0) by {
            assert(s.contains(s[0]));
        }
        assert(s.to_multiset().count(t[0]) > 0) by {
            assert(t.contains(t[0]));
        }
        let j = choose|j: int| 0 <= j < t.len() && t[j] == s[0];
        let i = choose|i: int| 0 <= i < s.len() && s[i] == t[0];
        lemma_name_total(s[0].0@, t[0].0@);
        lemma_name_total(s[0].0@, s[0].0@);
        assert(name_le(t[0].0@, t[j].0@));
        assert(name_le(s[0].0@, s[i].0@));
        assert(i == 0);
        vstd::seq_lib::to_multiset_remove(s, 0);
        vstd::seq_lib::to_multiset_remove(t, 0);
        assert(s.remove(0) =~= s.drop_first());
        assert(t.remove(0) =~= t.drop_first());
        law_listing_is_unique(s.drop_first(), t.drop_first());
        assert(s =~= seq![s[0]] + s.drop_first());
        assert(t =~= seq![t[0]] + t.drop_first());
    } else {
        assert(s =~= t);
    }
}

/// The first character in which two names differ decides, by its code point: the name
/// with the lower one comes first, and the other does not.
pub proof fn law_first_difference_decides(a: Seq<char>, b: Seq<char>, k: int)
    requires
        0 <= k < a.len(),
        k < b.len(),
        a.take(k) == b.take(k),
        (a[k] as u32) < (b[k] as u32),
    ensures
        name_le(a, b),
        !name_le(b, a),
    decreases k,
{
    lemma_code_point(a[k]);
    lemma_code_point(b[k]);
    if k > 0 {
        assert(a[0] == b[0]) by {
            assert(a.take(k)[0] == a[0]);
            assert(b.take(k)[0] == b[0]);
        }
        let x = a.drop_first();
        let y = b.drop_first();
        assert(x.take(k - 1) =~= a.take(k).drop_first());
        assert(y.take(k - 1) =~= b.take(k).drop_first());
        assert(x[k - 1] == a[k] && y[k - 1] == b[k]);
        law_first_difference_decides(x, y, k - 1);
    }
}

proof fn lemma_code_point(c: char)
    ensures
        c as u32 as int == c as int,
{
}

/// A name comes before every name that begins with it, and none of those before it.
pub proof fn law_beginning_comes_first(a: Seq<char>, rest: Seq<char>)
    ensures
        name_le(a, a + rest),
        rest.len() > 0 ==> !name_le(a + rest, a),
    decreases a.len(),
{
    if a.len() > 0 {
        assert((a + rest).drop_first() =~= a.drop_first() + rest);
        law_beginning_comes_first(a.drop_first(), rest);
    }
}

/// Of two entries in a list by name, the one in front has the same name, or one that the
/// other's begins with, or one with the lower code point where the two first differ.
pub proof fn law_listed_by_code_points(s: Seq<(String, u64)>, i: int, j: int)
    requires
        listed_by_name(s),
        0 <= i < j < s.len(),
    ensures
        ({
            let a = s[i].0@;
            let b = s[j].0@;
            ||| a == b
            ||| exists|k: int|
                #![trigger a.take(k), b.take(k)]
                0 <= k <= a.len() && k < b.len() && a.take(k) == b.take(k) && (k == a.len() || (
                a[k] as u32) < (b[k] as u32))
        }),
{
    let a = s[i].0@;
    let b = s[j].0@;
    assert(name_le(a, b));
    assert(a.take(0) =~= b.take(0));
    lemma_where_names_part(a, b, 0);
}

/// Names that are the same up to `k` part at some character from there on, or one of them
/// ends, or they are the same.
proof fn lemma_where_names_part(a: Seq<char>, b: Seq<char>, k: int)
    requires
        0 <= k <= a.len(),
        k <= b.len(),
        a.take(k) == b.take(k),
        name_le(a, b),
    ensures
        a == b || exists|m: int|
            #![trigger a.take(m), b.take(m)]
            0 <= m <= a.len() && m < b.len() && a.take(m) == b.take(m) && (m == a.len() || (
            a[m] as u32) < (b[m] as u32)),
    decreases a.len() - k,
{
    if k == a.len() && k == b.len() {
        assert(a.take(k) =~= a);
        assert(b.take(k) =~= b);
    } else if k == a.len() {
        assert(a.take(k) == b.take(k));
    } else if k == b.len() {
        assert(b.take(k) =~= b);
        assert(a =~= b + a.skip(k)) by {
            assert(a =~= a.take(k) + a.skip(k));
        }
        law_beginning_comes_first(b, a.skip(k));
    } else {
        lemma_code_point(a[k]);
        lemma_code_point(b[k]);
        if a[k] == b[k] {
            assert(a.take(k + 1) =~= a.take(k).push(a[k]));
            assert(b.take(k + 1) =~= b.take(k).push(b[k]));
            lemma_where_names_part(a, b, k + 1);
        } else if (b[k] as u32) < (a[k] as u32) {
            law_first_difference_decides(b, a, k);
        } else {
            assert(a.take(k) == b.take(k));
        }
    }
}

} // verus!
